//! The per-block scanner: walk the decoded records of one fetched block in
//! file order and look for an exact position/allele match, stopping early at
//! the first record past the queried position.
//!
//! Records carry whatever allele strings the external decoder accepted —
//! including forms outside the base grammar, such as symbolic alleles —
//! and are simply scanned past when they do not match.  The query's own
//! allele strings are held to the allele grammar at the moments the scan
//! needs them: a query string outside it fails the scan with a parse error,
//! exactly once a record at the queried position forces it to be read.
//! Matching compares canonical allele forms, so base letters compare
//! case-insensitively.

use vstd::prelude::*;

use crate::alleles::alt_bases_valid;
use crate::alleles::canonical;
use crate::alleles::canonical_eq;
use crate::alleles::check_alt_bases;
use crate::alleles::check_ref_bases;
use crate::alleles::ref_bases_valid;
use crate::errors::QueryError;

verus! {

/// One decoded variant record, exactly as the external block decoder hands
/// it over: a position and the reference/alternate allele strings.
#[derive(Clone, Debug)]
pub struct VariantRecord {
    /// Position of the record, 1-based, as the decoder hands it over.
    pub position: u32,
    /// Reference bases observed at the position.
    pub reference_bases: String,
    /// Alternate bases observed at the position, as one comma-joined string,
    /// the way the record carries them.
    pub alternate_bases: String,
}

/// Verdict of scanning one decoded block.
#[derive(Clone, Copy, Debug, PartialEq, Eq, Structural)]
pub enum MatchOutcome {
    /// A record matched position and both alleles exactly.
    Matched,
    /// The block was exhausted without a match and without passing the
    /// queried position: no evidence either way.
    NotMatched,
    /// A record past the queried position was reached without a match; under
    /// the file's sort order this block cannot contain a match.
    PastEnd,
}

/// The record sits at the queried position and both alleles agree in
/// canonical form.
pub open spec fn record_matches(
    r: VariantRecord,
    start: u32,
    reference_bases: Seq<char>,
    alternate_bases: Seq<char>,
) -> bool {
    &&& r.position == start
    &&& canonical(r.reference_bases@) == canonical(reference_bases)
    &&& canonical(r.alternate_bases@) == canonical(alternate_bases)
}

/// Record positions never decrease, the sort guarantee the source file makes
/// for the records inside any one block.
pub open spec fn sorted_by_position(records: Seq<VariantRecord>) -> bool {
    forall|k: int, l: int|
        0 <= k < l < records.len() ==> #[trigger] records[k].position
            <= #[trigger] records[l].position
}

/// What scanning a block of records in file order yields.  The first record
/// past `start` ends the scan with `PastEnd`.  At a record on `start` the
/// query's reference allele must parse, and — once the reference alleles
/// agree — its alternate allele too; an exact match ends the scan with
/// `Matched`.  Any other record, whatever its allele strings hold, is a
/// non-match to be scanned past.  An exhausted block yields `NotMatched`.
pub open spec fn scan_spec(
    records: Seq<VariantRecord>,
    start: u32,
    reference_bases: Seq<char>,
    alternate_bases: Seq<char>,
) -> Result<MatchOutcome, QueryError>
    decreases records.len(),
{
    if records.len() == 0 {
        Ok(MatchOutcome::NotMatched)
    } else if records[0].position > start {
        Ok(MatchOutcome::PastEnd)
    } else if records[0].position == start {
        if !ref_bases_valid(reference_bases) {
            Err(QueryError::Parse)
        } else if canonical(records[0].reference_bases@) == canonical(reference_bases) {
            if !alt_bases_valid(alternate_bases) {
                Err(QueryError::Parse)
            } else if canonical(records[0].alternate_bases@) == canonical(alternate_bases) {
                Ok(MatchOutcome::Matched)
            } else {
                scan_spec(records.drop_first(), start, reference_bases, alternate_bases)
            }
        } else {
            scan_spec(records.drop_first(), start, reference_bases, alternate_bases)
        }
    } else {
        scan_spec(records.drop_first(), start, reference_bases, alternate_bases)
    }
}

/// Scan the decoded records of one fetched block for an exact match of
/// position and alleles, in file order, with the sorted-early-exit rule and
/// the allele grammar enforced on the query strings the scan reads.
#[verifier::loop_isolation(false)]
pub fn scan_block(
    records: &Vec<VariantRecord>,
    start: u32,
    reference_bases: &String,
    alternate_bases: &String,
) -> (r: Result<MatchOutcome, QueryError>)
    ensures
        r == scan_spec(records@, start, reference_bases@, alternate_bases@),
        r == Ok::<MatchOutcome, QueryError>(MatchOutcome::Matched) ==> exists|k: int|
            0 <= k < records@.len() && record_matches(
                #[trigger] records@[k],
                start,
                reference_bases@,
                alternate_bases@,
            ),
        (sorted_by_position(records@) && ref_bases_valid(reference_bases@) && alt_bases_valid(
            alternate_bases@,
        )) ==> (r == Ok::<MatchOutcome, QueryError>(MatchOutcome::Matched) <==> exists|k: int|
            0 <= k < records@.len() && record_matches(
                #[trigger] records@[k],
                start,
                reference_bases@,
                alternate_bases@,
            )),
{
    proof {
        let verdict = scan_spec(records@, start, reference_bases@, alternate_bases@);
        if verdict == Ok::<MatchOutcome, QueryError>(MatchOutcome::Matched) {
            lemma_scan_matched_sound(records@, start, reference_bases@, alternate_bases@);
        }
        if sorted_by_position(records@) && ref_bases_valid(reference_bases@) && alt_bases_valid(
            alternate_bases@,
        ) && exists|k: int|
            0 <= k < records@.len() && record_matches(
                #[trigger] records@[k],
                start,
                reference_bases@,
                alternate_bases@,
            ) {
            lemma_scan_complete(records@, start, reference_bases@, alternate_bases@);
        }
    }
    let mut i: usize = 0;
    proof {
        assert(records@.skip(0) =~= records@);
    }
    while i < records.len()
        invariant
            i <= records@.len(),
            scan_spec(records@, start, reference_bases@, alternate_bases@) == scan_spec(
                records@.skip(i as int),
                start,
                reference_bases@,
                alternate_bases@,
            ),
        decreases records@.len() - i,
    {
        proof {
            assert(records@.skip(i as int)[0] == records@[i as int]);
            assert(records@.skip(i as int).drop_first() =~= records@.skip(i as int + 1));
        }
        let rec = &records[i];
        if rec.position > start {
            return Ok(MatchOutcome::PastEnd);
        }
        if rec.position == start {
            if !check_ref_bases(reference_bases.as_str()) {
                return Err(QueryError::Parse);
            }
            if canonical_eq(rec.reference_bases.as_str(), reference_bases.as_str()) {
                if !check_alt_bases(alternate_bases.as_str()) {
                    return Err(QueryError::Parse);
                }
                if canonical_eq(rec.alternate_bases.as_str(), alternate_bases.as_str()) {
                    return Ok(MatchOutcome::Matched);
                }
            }
        }
        i += 1;
    }
    proof {
        assert(records@.skip(records@.len() as int) =~= Seq::<VariantRecord>::empty());
    }
    Ok(MatchOutcome::NotMatched)
}

/// A `Matched` verdict is sound for any block, sorted or not: some record of
/// the block matches the query exactly.
pub proof fn lemma_scan_matched_sound(
    records: Seq<VariantRecord>,
    start: u32,
    reference_bases: Seq<char>,
    alternate_bases: Seq<char>,
)
    requires
        scan_spec(records, start, reference_bases, alternate_bases) == Ok::<
            MatchOutcome,
            QueryError,
        >(MatchOutcome::Matched),
    ensures
        exists|k: int|
            0 <= k < records.len() && record_matches(
                #[trigger] records[k],
                start,
                reference_bases,
                alternate_bases,
            ),
    decreases records.len(),
{
    if records.len() > 0 {
        if record_matches(records[0], start, reference_bases, alternate_bases) {
        } else {
            lemma_scan_matched_sound(records.drop_first(), start, reference_bases, alternate_bases);
            let k = choose|k: int|
                0 <= k < records.drop_first().len() && record_matches(
                    #[trigger] records.drop_first()[k],
                    start,
                    reference_bases,
                    alternate_bases,
                );
            assert(records.drop_first()[k] == records[k + 1]);
            assert(record_matches(records[k + 1], start, reference_bases, alternate_bases));
        }
    }
}

/// The early exit never misses: in a block whose records are in
/// non-decreasing position order, with query alleles inside the allele
/// grammar, if some record matches the query exactly, the scan reports
/// `Matched`.
pub proof fn lemma_scan_complete(
    records: Seq<VariantRecord>,
    start: u32,
    reference_bases: Seq<char>,
    alternate_bases: Seq<char>,
)
    requires
        sorted_by_position(records),
        ref_bases_valid(reference_bases),
        alt_bases_valid(alternate_bases),
        exists|k: int|
            0 <= k < records.len() && record_matches(
                #[trigger] records[k],
                start,
                reference_bases,
                alternate_bases,
            ),
    ensures
        scan_spec(records, start, reference_bases, alternate_bases) == Ok::<
            MatchOutcome,
            QueryError,
        >(MatchOutcome::Matched),
    decreases records.len(),
{
    let k = choose|k: int|
        0 <= k < records.len() && record_matches(
            #[trigger] records[k],
            start,
            reference_bases,
            alternate_bases,
        );
    if records[0].position > start {
        assert(records[k].position == start);
        if k > 0 {
            assert(records[0].position <= records[k].position);
        }
        assert(false);
    } else if record_matches(records[0], start, reference_bases, alternate_bases) {
    } else {
        assert(k > 0);
        assert(records.drop_first()[k - 1] == records[k]);
        lemma_drop_first_sorted(records);
        lemma_scan_complete(records.drop_first(), start, reference_bases, alternate_bases);
    }
}

/// Dropping the first record keeps the rest in sorted order.
proof fn lemma_drop_first_sorted(records: Seq<VariantRecord>)
    requires
        sorted_by_position(records),
        records.len() > 0,
    ensures
        sorted_by_position(records.drop_first()),
{
    assert forall|a: int, b: int|
        0 <= a < b < records.drop_first().len() implies #[trigger] records.drop_first()[a].position
        <= #[trigger] records.drop_first()[b].position by {
        assert(records.drop_first()[a] == records[a + 1]);
        assert(records.drop_first()[b] == records[b + 1]);
    }
}

/// The scan never reads past the first record beyond the queried position:
/// in a sorted block, the verdict is already determined by the prefix that
/// ends at the first such record.
pub proof fn lemma_scan_stops_at_past_position(
    records: Seq<VariantRecord>,
    start: u32,
    reference_bases: Seq<char>,
    alternate_bases: Seq<char>,
    k: int,
)
    requires
        sorted_by_position(records),
        0 <= k < records.len(),
        records[k].position > start,
    ensures
        scan_spec(records, start, reference_bases, alternate_bases) == scan_spec(
            records.take(k + 1),
            start,
            reference_bases,
            alternate_bases,
        ),
    decreases records.len(),
{
    let prefix = records.take(k + 1);
    assert(prefix[0] == records[0]);
    if records[0].position > start {
    } else {
        assert(k > 0);
        if records[0].position == start && ref_bases_valid(reference_bases) && canonical(
            records[0].reference_bases@,
        ) == canonical(reference_bases) && alt_bases_valid(alternate_bases) && canonical(
            records[0].alternate_bases@,
        ) == canonical(alternate_bases) {
        } else if records[0].position == start && (!ref_bases_valid(reference_bases) || (canonical(
            records[0].reference_bases@,
        ) == canonical(reference_bases) && !alt_bases_valid(alternate_bases))) {
        } else {
            lemma_drop_first_sorted(records);
            assert(records.drop_first()[k - 1] == records[k]);
            lemma_scan_stops_at_past_position(
                records.drop_first(),
                start,
                reference_bases,
                alternate_bases,
                k - 1,
            );
            assert(records.drop_first().take(k) =~= prefix.drop_first());
        }
    }
}

} // verus!
