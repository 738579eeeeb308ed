//! End-to-end scenarios over the pure pipeline: validate the request, plan
//! the byte ranges from the index, scan the decoded blocks a fetcher would
//! hand back, and decide the answer.

use beacon::aggregate::decide;
use beacon::index::plan_ranges;
use beacon::request::validate_request;
use beacon::request::verify_key;
use beacon::ByteRange;
use beacon::CompressedBlockIndex;
use beacon::IndexBin;
use beacon::QueryError;
use beacon::ReferenceIndex;
use beacon::SequenceQueryRequest;
use beacon::VariantRecord;

fn r(start: u64, end: u64) -> ByteRange {
    ByteRange { start, end }
}

fn rec(position: u32, reference_bases: &str, alternate_bases: &str) -> VariantRecord {
    VariantRecord {
        position,
        reference_bases: reference_bases.to_string(),
        alternate_bases: alternate_bases.to_string(),
    }
}

fn request(vcf_key: &str, vcf_index_key: &str, reference_name: &str, start: u32) -> SequenceQueryRequest {
    SequenceQueryRequest {
        vcf_bucket: "umccr-10g-data-dev".to_string(),
        vcf_key: vcf_key.to_string(),
        vcf_index_bucket: "umccr-10g-data-dev".to_string(),
        vcf_index_key: vcf_index_key.to_string(),
        reference_name: reference_name.to_string(),
        start,
        reference_bases: "T".to_string(),
        alternate_bases: "C".to_string(),
    }
}

/// An index for one reference sequence, `chr1`, filing position 1220751
/// under leaf bin 4755 (chunk at bytes 100..200) and its level-four parent
/// bin 594 (chunk at bytes 190..300), with an unrelated leaf bin 4800 the
/// query must not touch.
fn sample_index() -> CompressedBlockIndex {
    CompressedBlockIndex {
        references: vec![ReferenceIndex {
            name: "chr1".to_string(),
            bins: vec![
                IndexBin { id: 4755, chunks: vec![r(100, 200)] },
                IndexBin { id: 594, chunks: vec![r(190, 300)] },
                IndexBin { id: 4800, chunks: vec![r(900, 1000)] },
            ],
            metadata: None,
        }],
    }
}

/// The records of the sampled data files around position 1220751, per file.
fn block_with_variant() -> Vec<VariantRecord> {
    vec![
        rec(1184277, "G", "C"),
        rec(1220751, "T", "C"),
        rec(1236037, "C", "T"),
    ]
}

fn block_without_variant() -> Vec<VariantRecord> {
    vec![
        rec(1184277, "G", "C"),
        rec(1220751, "T", "G"),
        rec(1236037, "C", "T"),
    ]
}

#[test]
fn test_where_variant_should_be_found() {
    let req = request(
        "HG00174/HG00174.hard-filtered.vcf.gz",
        "HG00174/HG00174.hard-filtered.vcf.gz.tbi",
        "chr1",
        1220751,
    );
    validate_request(&req).unwrap();
    let index = sample_index();
    // the request's start is a 1-based record position; the binning lookup
    // takes the 0-based counterpart
    let ranges = plan_ranges(&index, &req.reference_name, req.start - 1).unwrap();
    // the two candidate chunks overlap and coalesce into one fetch
    assert_eq!(ranges, vec![r(100, 300)]);
    let blocks = vec![Ok(block_with_variant())];
    let out = decide(&blocks, req.start, &req.reference_bases, &req.alternate_bases).unwrap();
    assert!(out.found, "Expected variant was not found");
}

#[test]
fn test_where_variant_should_not_be_found() {
    let req = request(
        "HG00096/HG00096.hard-filtered.vcf.gz",
        "HG00096/HG00096.hard-filtered.vcf.gz.tbi",
        "chr1",
        1220751,
    );
    validate_request(&req).unwrap();
    let index = sample_index();
    let ranges = plan_ranges(&index, &req.reference_name, req.start - 1).unwrap();
    assert_eq!(ranges, vec![r(100, 300)]);
    let blocks = vec![Ok(block_without_variant())];
    let out = decide(&blocks, req.start, &req.reference_bases, &req.alternate_bases).unwrap();
    assert!(!out.found, "Unexpected variant was found");
}

#[test]
fn unknown_reference_is_rejected_before_any_fetch() {
    let index = sample_index();
    let out = plan_ranges(&index, &"chr2".to_string(), 1220751);
    assert_eq!(out, Err(QueryError::UnknownReference));
}

#[test]
fn out_of_range_coordinate_is_rejected() {
    let index = sample_index();
    let out = plan_ranges(&index, &"chr1".to_string(), 0x2000_0000);
    assert_eq!(out, Err(QueryError::CoordinateRange));
}

#[test]
fn key_without_suffix_is_rejected() {
    let req = request(
        "HG00174/HG00174.hard-filtered.vcf",
        "HG00174/HG00174.hard-filtered.vcf.gz.tbi",
        "chr1",
        1220751,
    );
    assert_eq!(validate_request(&req), Err(QueryError::InvalidKey));
}

#[test]
fn index_key_without_suffix_is_rejected() {
    let req = request(
        "HG00174/HG00174.hard-filtered.vcf.gz",
        "HG00174/HG00174.hard-filtered.vcf.gz",
        "chr1",
        1220751,
    );
    assert_eq!(validate_request(&req), Err(QueryError::InvalidKey));
}

#[test]
fn validated_keys_return_their_stems() {
    let req = request(
        "HG00174/HG00174.hard-filtered.vcf.gz",
        "HG00174/HG00174.hard-filtered.vcf.gz.tbi",
        "chr1",
        1220751,
    );
    let (index_id, vcf_id) = validate_request(&req).unwrap();
    assert_eq!(index_id, "HG00174/HG00174.hard-filtered");
    assert_eq!(vcf_id, "HG00174/HG00174.hard-filtered");
}

#[test]
fn failed_range_does_not_suppress_match_found_elsewhere() {
    // two disjoint candidate ranges; the failing one is moot because the
    // other holds the match
    let index = CompressedBlockIndex {
        references: vec![ReferenceIndex {
            name: "chr1".to_string(),
            bins: vec![
                IndexBin { id: 4755, chunks: vec![r(100, 200)] },
                IndexBin { id: 594, chunks: vec![r(400, 500)] },
            ],
            metadata: None,
        }],
    };
    let ranges = plan_ranges(&index, &"chr1".to_string(), 1220751).unwrap();
    assert_eq!(ranges, vec![r(100, 200), r(400, 500)]);
    let blocks = vec![Err(QueryError::Fetch), Ok(block_with_variant())];
    let out = decide(&blocks, 1220751, &"T".to_string(), &"C".to_string()).unwrap();
    assert!(out.found);
}

#[test]
fn all_ranges_scanned_without_match_is_not_found() {
    let index = sample_index();
    let ranges = plan_ranges(&index, &"chr1".to_string(), 1220751).unwrap();
    assert_eq!(ranges, vec![r(100, 300)]);
    let blocks = vec![Ok(block_without_variant())];
    let out = decide(&blocks, 1220751, &"T".to_string(), &"C".to_string()).unwrap();
    assert!(!out.found);
}

#[test]
fn verify_key_strips_the_suffix() {
    assert_eq!(verify_key("a/b.vcf.gz", ".vcf.gz").unwrap(), "a/b");
    assert_eq!(verify_key("a/b.vcf", ".vcf.gz"), Err(QueryError::InvalidKey));
    assert_eq!(verify_key("gz", ".vcf.gz"), Err(QueryError::InvalidKey));
}

#[test]
fn unknown_reference_takes_precedence_over_bad_coordinate() {
    let index = sample_index();
    let out = plan_ranges(&index, &"chr2".to_string(), 0x2000_0000);
    assert_eq!(out, Err(QueryError::UnknownReference));
}

#[test]
fn largest_addressable_coordinate_is_accepted() {
    let index = sample_index();
    assert!(plan_ranges(&index, &"chr1".to_string(), 0x1FFF_FFFF).is_ok());
}

#[test]
fn bins_of_every_level_cover_position_zero() {
    // position 0 lies in the first bin of each of the six levels
    let bins = [0u32, 1, 9, 73, 585, 4681]
        .iter()
        .map(|&id| IndexBin { id, chunks: vec![r(u64::from(id) * 10, u64::from(id) * 10 + 5)] })
        .collect();
    let index = CompressedBlockIndex {
        references: vec![ReferenceIndex {
            name: "chr1".to_string(),
            bins,
            metadata: None,
        }],
    };
    let ranges = plan_ranges(&index, &"chr1".to_string(), 0).unwrap();
    assert_eq!(ranges.len(), 6);
}

#[test]
fn neighbouring_leaf_bin_is_not_fetched() {
    // position 16384 falls in leaf bin 4682, not 4681
    let index = CompressedBlockIndex {
        references: vec![ReferenceIndex {
            name: "chr1".to_string(),
            bins: vec![
                IndexBin { id: 4681, chunks: vec![r(100, 200)] },
                IndexBin { id: 4682, chunks: vec![r(300, 400)] },
            ],
            metadata: None,
        }],
    };
    let ranges = plan_ranges(&index, &"chr1".to_string(), 16384).unwrap();
    assert_eq!(ranges, vec![r(300, 400)]);
    let ranges = plan_ranges(&index, &"chr1".to_string(), 16383).unwrap();
    assert_eq!(ranges, vec![r(100, 200)]);
}

#[test]
fn metadata_range_joins_the_candidates() {
    let index = CompressedBlockIndex {
        references: vec![ReferenceIndex {
            name: "chr1".to_string(),
            bins: vec![IndexBin { id: 4755, chunks: vec![r(100, 200)] }],
            metadata: Some(r(0, 50)),
        }],
    };
    let ranges = plan_ranges(&index, &"chr1".to_string(), 1220751).unwrap();
    assert_eq!(ranges, vec![r(0, 50), r(100, 200)]);
}

#[test]
fn empty_candidate_set_means_immediate_not_found() {
    let index = CompressedBlockIndex {
        references: vec![ReferenceIndex {
            name: "chr1".to_string(),
            bins: vec![IndexBin { id: 4800, chunks: vec![r(900, 1000)] }],
            metadata: None,
        }],
    };
    let ranges = plan_ranges(&index, &"chr1".to_string(), 1220751).unwrap();
    assert!(ranges.is_empty());
    let blocks: Vec<Result<Vec<VariantRecord>, QueryError>> = Vec::new();
    let out = decide(&blocks, 1220751, &"T".to_string(), &"C".to_string()).unwrap();
    assert!(!out.found);
}
