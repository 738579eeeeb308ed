//! Tests for the per-block scanner and the allele grammar it enforces.

use beacon::scan::scan_block;
use beacon::MatchOutcome;
use beacon::QueryError;
use beacon::VariantRecord;

fn rec(position: u32, reference_bases: &str, alternate_bases: &str) -> VariantRecord {
    VariantRecord {
        position,
        reference_bases: reference_bases.to_string(),
        alternate_bases: alternate_bases.to_string(),
    }
}

#[test]
fn scan_finds_exact_match() {
    let records = vec![rec(100, "G", "C"), rec(150, "T", "C"), rec(200, "A", "G")];
    let out = scan_block(&records, 150, &"T".to_string(), &"C".to_string());
    assert_eq!(out, Ok(MatchOutcome::Matched));
}

#[test]
fn scan_stops_past_position() {
    let records = vec![rec(100, "G", "C"), rec(200, "A", "G")];
    let out = scan_block(&records, 150, &"T".to_string(), &"C".to_string());
    assert_eq!(out, Ok(MatchOutcome::PastEnd));
}

#[test]
fn scan_exhausts_block_without_evidence() {
    let records = vec![rec(100, "G", "C"), rec(120, "A", "G")];
    let out = scan_block(&records, 150, &"T".to_string(), &"C".to_string());
    assert_eq!(out, Ok(MatchOutcome::NotMatched));
}

#[test]
fn scan_rejects_allele_mismatch_at_position() {
    let records = vec![rec(150, "T", "G"), rec(160, "A", "C")];
    let out = scan_block(&records, 150, &"T".to_string(), &"C".to_string());
    assert_eq!(out, Ok(MatchOutcome::PastEnd));
}

#[test]
fn scan_checks_every_record_at_the_position() {
    // two records at the queried position; only the second matches
    let records = vec![rec(150, "T", "G"), rec(150, "T", "C")];
    let out = scan_block(&records, 150, &"T".to_string(), &"C".to_string());
    assert_eq!(out, Ok(MatchOutcome::Matched));
}

#[test]
fn scan_empty_block() {
    let records: Vec<VariantRecord> = Vec::new();
    let out = scan_block(&records, 150, &"T".to_string(), &"C".to_string());
    assert_eq!(out, Ok(MatchOutcome::NotMatched));
}

#[test]
fn scan_match_on_first_past_position_boundary() {
    // the match sits exactly at the queried position, followed by a later record
    let records = vec![rec(150, "T", "C"), rec(151, "A", "G")];
    let out = scan_block(&records, 150, &"T".to_string(), &"C".to_string());
    assert_eq!(out, Ok(MatchOutcome::Matched));
}

#[test]
fn scan_matches_bases_case_insensitively() {
    // a lower-case record matches an upper-case query
    let records = vec![rec(150, "t", "c")];
    let out = scan_block(&records, 150, &"T".to_string(), &"C".to_string());
    assert_eq!(out, Ok(MatchOutcome::Matched));
}

#[test]
fn scan_matches_multi_allelic_alternate() {
    let records = vec![rec(150, "T", "c,g")];
    let out = scan_block(&records, 150, &"T".to_string(), &"C,G".to_string());
    assert_eq!(out, Ok(MatchOutcome::Matched));
}

#[test]
fn unparseable_query_reference_allele_fails_at_the_position() {
    // a record at the queried position forces the query reference allele to
    // be parsed
    let records = vec![rec(100, "G", "C"), rec(150, "T", "C")];
    let out = scan_block(&records, 150, &"Q!".to_string(), &"C".to_string());
    assert_eq!(out, Err(QueryError::Parse));
}

#[test]
fn unparseable_query_reference_allele_unread_when_position_never_reached() {
    // no record at the queried position, so the query alleles are never
    // parsed
    let records = vec![rec(100, "G", "C"), rec(120, "A", "G")];
    let out = scan_block(&records, 150, &"Q!".to_string(), &"C".to_string());
    assert_eq!(out, Ok(MatchOutcome::NotMatched));
    let records = vec![rec(100, "G", "C"), rec(200, "A", "G")];
    let out = scan_block(&records, 150, &"Q!".to_string(), &"C".to_string());
    assert_eq!(out, Ok(MatchOutcome::PastEnd));
}

#[test]
fn unparseable_query_alternate_allele_fails_once_reference_agrees() {
    let records = vec![rec(150, "T", "C")];
    let out = scan_block(&records, 150, &"T".to_string(), &"".to_string());
    assert_eq!(out, Err(QueryError::Parse));
}

#[test]
fn unparseable_query_alternate_allele_unread_when_reference_differs() {
    let records = vec![rec(150, "G", "C"), rec(151, "A", "G")];
    let out = scan_block(&records, 150, &"T".to_string(), &"C,,G".to_string());
    assert_eq!(out, Ok(MatchOutcome::PastEnd));
}

#[test]
fn symbolic_record_allele_is_scanned_past() {
    // the decoder's allele language is wider than the query grammar; such a
    // record is a non-match, not an error
    let records = vec![rec(150, "T", "<DEL>")];
    let out = scan_block(&records, 150, &"T".to_string(), &"C".to_string());
    assert_eq!(out, Ok(MatchOutcome::NotMatched));
}

#[test]
fn symbolic_record_allele_does_not_mask_a_later_match() {
    let records = vec![rec(150, "T", "<NON_REF>"), rec(150, "T", "C")];
    let out = scan_block(&records, 150, &"T".to_string(), &"C".to_string());
    assert_eq!(out, Ok(MatchOutcome::Matched));
}

#[test]
fn breakend_and_star_record_alleles_are_non_matches() {
    let records = vec![rec(150, "T", "*"), rec(150, "T", "]chr1:100]T"), rec(150, "T", ".")];
    let out = scan_block(&records, 150, &"T".to_string(), &"C".to_string());
    assert_eq!(out, Ok(MatchOutcome::NotMatched));
}

#[test]
fn comma_misuse_in_query_alternate_allele_is_rejected() {
    // the query's own alternate allele must parse once the reference alleles
    // agree
    let records = vec![rec(150, "T", "C")];
    for bad in [",C", "C,", "C,,G"] {
        let out = scan_block(&records, 150, &"T".to_string(), &bad.to_string());
        assert_eq!(out, Err(QueryError::Parse));
    }
}
