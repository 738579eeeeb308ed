//! Tests for the result aggregator.

use beacon::aggregate::aggregate;
use beacon::aggregate::decide;
use beacon::MatchOutcome;
use beacon::QueryError;
use beacon::VariantRecord;

fn rec(position: u32, reference_bases: &str, alternate_bases: &str) -> VariantRecord {
    VariantRecord {
        position,
        reference_bases: reference_bases.to_string(),
        alternate_bases: alternate_bases.to_string(),
    }
}

#[test]
fn aggregate_match_wins() {
    let outcomes = vec![
        Ok(MatchOutcome::NotMatched),
        Ok(MatchOutcome::Matched),
        Ok(MatchOutcome::PastEnd),
    ];
    assert_eq!(aggregate(&outcomes), Ok(true));
}

#[test]
fn aggregate_match_wins_over_failures() {
    let outcomes = vec![Err(QueryError::Fetch), Ok(MatchOutcome::Matched)];
    assert_eq!(aggregate(&outcomes), Ok(true));
}

#[test]
fn aggregate_past_end_is_not_a_global_no() {
    // one block ended past the position; the others still count
    let outcomes = vec![Ok(MatchOutcome::PastEnd), Ok(MatchOutcome::Matched)];
    assert_eq!(aggregate(&outcomes), Ok(true));
}

#[test]
fn aggregate_all_exhausted_is_not_found() {
    let outcomes = vec![
        Ok(MatchOutcome::PastEnd),
        Ok(MatchOutcome::NotMatched),
        Ok(MatchOutcome::PastEnd),
    ];
    assert_eq!(aggregate(&outcomes), Ok(false));
}

#[test]
fn aggregate_empty_outcomes_is_not_found() {
    let outcomes: Vec<Result<MatchOutcome, QueryError>> = Vec::new();
    assert_eq!(aggregate(&outcomes), Ok(false));
}

#[test]
fn aggregate_surfaces_fetch_failure() {
    let outcomes = vec![Ok(MatchOutcome::NotMatched), Err(QueryError::Fetch)];
    assert_eq!(aggregate(&outcomes), Err(QueryError::Fetch));
}

#[test]
fn aggregate_surfaces_parse_failure() {
    let outcomes = vec![Err(QueryError::Parse), Ok(MatchOutcome::PastEnd)];
    assert_eq!(aggregate(&outcomes), Err(QueryError::Parse));
}

#[test]
fn aggregate_surfaces_overflow_failure() {
    let outcomes = vec![Ok(MatchOutcome::NotMatched), Err(QueryError::Overflow)];
    assert_eq!(aggregate(&outcomes), Err(QueryError::Overflow));
}

#[test]
fn aggregate_reports_first_failure() {
    let outcomes = vec![
        Ok(MatchOutcome::NotMatched),
        Err(QueryError::Parse),
        Err(QueryError::Fetch),
    ];
    assert_eq!(aggregate(&outcomes), Err(QueryError::Parse));
}

#[test]
fn decide_finds_match_in_one_block() {
    let blocks = vec![
        Ok(vec![rec(10, "A", "C")]),
        Ok(vec![rec(150, "T", "C"), rec(160, "G", "A")]),
    ];
    let out = decide(&blocks, 150, &"T".to_string(), &"C".to_string()).unwrap();
    assert!(out.found);
}

#[test]
fn decide_failed_block_does_not_suppress_match() {
    let blocks = vec![
        Err(QueryError::Fetch),
        Ok(vec![rec(150, "T", "C")]),
    ];
    let out = decide(&blocks, 150, &"T".to_string(), &"C".to_string()).unwrap();
    assert!(out.found);
}

#[test]
fn decide_failed_block_surfaces_without_match() {
    let blocks = vec![
        Ok(vec![rec(10, "A", "C")]),
        Err(QueryError::Fetch),
    ];
    let out = decide(&blocks, 150, &"T".to_string(), &"C".to_string());
    assert_eq!(out, Err(QueryError::Fetch));
}

#[test]
fn decide_surfaces_unparseable_query_allele() {
    let blocks = vec![Ok(vec![rec(150, "T", "C")])];
    let out = decide(&blocks, 150, &"Q!".to_string(), &"C".to_string());
    assert_eq!(out, Err(QueryError::Parse));
}

#[test]
fn decide_no_blocks_is_not_found() {
    let blocks: Vec<Result<Vec<VariantRecord>, QueryError>> = Vec::new();
    let out = decide(&blocks, 150, &"T".to_string(), &"C".to_string()).unwrap();
    assert!(!out.found);
}
