//! The result aggregator: combine the per-range outcomes — which may arrive
//! in any order — into one final answer.  A single match anywhere wins; a
//! block-local `PastEnd` is never global evidence of absence; and a failed
//! range surfaces as a failure unless a match found elsewhere makes it moot.

use vstd::prelude::*;

use crate::alleles::alt_bases_valid;
use crate::alleles::ref_bases_valid;
use crate::errors::QueryError;
use crate::request::SequenceQueryResponse;
use crate::scan::MatchOutcome;
use crate::scan::VariantRecord;
use crate::scan::record_matches;
use crate::scan::scan_block;
use crate::scan::scan_spec;
use crate::scan::sorted_by_position;
use crate::scan::lemma_scan_matched_sound;
use crate::scan::lemma_scan_complete;

verus! {

/// The outcome of one range reports an exact match.
pub open spec fn is_matched(o: Result<MatchOutcome, QueryError>) -> bool {
    o is Ok && o->Ok_0 is Matched
}

/// At least one range reported an exact match.
pub open spec fn has_match(outcomes: Seq<Result<MatchOutcome, QueryError>>) -> bool {
    exists|k: int| 0 <= k < outcomes.len() && is_matched(#[trigger] outcomes[k])
}

/// At least one range failed to fetch or to parse.
pub open spec fn has_failure(outcomes: Seq<Result<MatchOutcome, QueryError>>) -> bool {
    exists|k: int| 0 <= k < outcomes.len() && (#[trigger] outcomes[k]) is Err
}

/// The earliest failure in the sequence of outcomes.
pub open spec fn first_failure(outcomes: Seq<Result<MatchOutcome, QueryError>>) -> QueryError
    recommends
        has_failure(outcomes),
    decreases outcomes.len(),
{
    if outcomes.len() == 0 {
        QueryError::Fetch
    } else if outcomes[0] is Err {
        outcomes[0]->Err_0
    } else {
        first_failure(outcomes.drop_first())
    }
}

proof fn lemma_first_failure_push(
    outcomes: Seq<Result<MatchOutcome, QueryError>>,
    o: Result<MatchOutcome, QueryError>,
)
    ensures
        has_failure(outcomes) ==> first_failure(outcomes.push(o)) == first_failure(outcomes),
        (!has_failure(outcomes) && o is Err) ==> first_failure(outcomes.push(o)) == o->Err_0,
    decreases outcomes.len(),
{
    if outcomes.len() == 0 {
        assert(outcomes.push(o)[0] == o);
    } else if outcomes[0] is Err {
        assert(outcomes.push(o)[0] == outcomes[0]);
    } else {
        assert(outcomes.push(o)[0] == outcomes[0]);
        assert(outcomes.push(o).drop_first() =~= outcomes.drop_first().push(o));
        lemma_first_failure_push(outcomes.drop_first(), o);
        if has_failure(outcomes) {
            let k = choose|k: int|
                0 <= k < outcomes.len() && (#[trigger] outcomes[k]) is Err;
            assert(outcomes.drop_first()[k - 1] == outcomes[k]);
            assert(has_failure(outcomes.drop_first()));
        }
        if has_failure(outcomes.drop_first()) {
            let k = choose|k: int|
                0 <= k < outcomes.drop_first().len() && (#[trigger] outcomes.drop_first()[k]) is Err;
            assert(outcomes.drop_first()[k] == outcomes[k + 1]);
            assert(has_failure(outcomes));
        }
    }
}

/// Combine the per-range outcomes into the final answer.  One `Matched`
/// outcome anywhere settles the answer as found, regardless of failures
/// elsewhere; otherwise a failed range surfaces as the overall failure
/// (the earliest one in the given order), because an unresolved range is a
/// correctness gap, not evidence of absence; only when every range was
/// scanned without a match is the answer a definitive "not found".
pub fn aggregate(outcomes: &Vec<Result<MatchOutcome, QueryError>>) -> (r: Result<bool, QueryError>)
    ensures
        r == Ok::<bool, QueryError>(true) <==> has_match(outcomes@),
        r == Ok::<bool, QueryError>(false) <==> (!has_match(outcomes@) && !has_failure(outcomes@)),
        r is Err <==> (!has_match(outcomes@) && has_failure(outcomes@)),
        r is Err ==> r == Err::<bool, QueryError>(first_failure(outcomes@)),
{
    let mut first_err: Option<QueryError> = None;
    let mut i: usize = 0;
    while i < outcomes.len()
        invariant
            i <= outcomes@.len(),
            !has_match(outcomes@.take(i as int)),
            first_err is None <==> !has_failure(outcomes@.take(i as int)),
            first_err is Some ==> first_err->0 == first_failure(outcomes@.take(i as int)),
        decreases outcomes@.len() - i,
    {
        let o = outcomes[i];
        let ghost prefix = outcomes@.take(i as int);
        proof {
            assert(outcomes@.take(i as int + 1) =~= prefix.push(outcomes@[i as int]));
            lemma_first_failure_push(prefix, outcomes@[i as int]);
        }
        match o {
            Ok(MatchOutcome::Matched) => {
                proof {
                    assert(is_matched(outcomes@[i as int]));
                }
                return Ok(true);
            },
            Ok(_) => {
                proof {
                    assert forall|k: int|
                        0 <= k < outcomes@.take(i as int + 1).len() implies !is_matched(
                        #[trigger] outcomes@.take(i as int + 1)[k],
                    ) by {
                        if k < i {
                            assert(outcomes@.take(i as int + 1)[k] == prefix[k]);
                        } else {
                            assert(outcomes@.take(i as int + 1)[k] == outcomes@[i as int]);
                        }
                    }
                    assert forall|k: int|
                        0 <= k < outcomes@.take(i as int + 1).len() && (
                        #[trigger] outcomes@.take(i as int + 1)[k]) is Err implies has_failure(
                        prefix,
                    ) by {
                        assert(outcomes@.take(i as int + 1)[k] == prefix[k]);
                    }
                }
            },
            Err(e) => {
                if first_err.is_none() {
                    first_err = Some(e);
                }
                proof {
                    assert(outcomes@.take(i as int + 1)[i as int] == outcomes@[i as int]);
                    assert(has_failure(outcomes@.take(i as int + 1)));
                    assert forall|k: int|
                        0 <= k < outcomes@.take(i as int + 1).len() implies !is_matched(
                        #[trigger] outcomes@.take(i as int + 1)[k],
                    ) by {
                        if k < i {
                            assert(outcomes@.take(i as int + 1)[k] == prefix[k]);
                        } else {
                            assert(outcomes@.take(i as int + 1)[k] == outcomes@[i as int]);
                        }
                    }
                }
            },
        }
        i += 1;
    }
    proof {
        assert(outcomes@.take(outcomes@.len() as int) =~= outcomes@);
    }
    match first_err {
        Some(e) => Err(e),
        None => Ok(false),
    }
}

/// The verdict of one fetched range: the scan of its decoded records if the
/// fetch and decode succeeded, its failure otherwise.
pub open spec fn block_outcome(
    block: Result<Vec<VariantRecord>, QueryError>,
    start: u32,
    reference_bases: Seq<char>,
    alternate_bases: Seq<char>,
) -> Result<MatchOutcome, QueryError> {
    match block {
        Ok(records) => scan_spec(records@, start, reference_bases, alternate_bases),
        Err(e) => Err(e),
    }
}

/// The verdicts of all fetched ranges, in the order the ranges are given.
pub open spec fn block_outcomes(
    blocks: Seq<Result<Vec<VariantRecord>, QueryError>>,
    start: u32,
    reference_bases: Seq<char>,
    alternate_bases: Seq<char>,
) -> Seq<Result<MatchOutcome, QueryError>> {
    blocks.map_values(
        |block: Result<Vec<VariantRecord>, QueryError>|
            block_outcome(block, start, reference_bases, alternate_bases),
    )
}

/// Some successfully fetched block holds a record that matches the query
/// exactly.
pub open spec fn some_block_matches(
    blocks: Seq<Result<Vec<VariantRecord>, QueryError>>,
    start: u32,
    reference_bases: Seq<char>,
    alternate_bases: Seq<char>,
) -> bool {
    exists|k: int, j: int|
        0 <= k < blocks.len() && blocks[k] is Ok && 0 <= j < blocks[k]->Ok_0@.len()
            && record_matches(
            #[trigger] blocks[k]->Ok_0@[j],
            start,
            reference_bases,
            alternate_bases,
        )
}

/// Every successfully fetched block keeps its records in non-decreasing
/// position order — the sort guarantee inherited from the source file.
pub open spec fn blocks_sorted(blocks: Seq<Result<Vec<VariantRecord>, QueryError>>) -> bool {
    forall|k: int|
        0 <= k < blocks.len() && (#[trigger] blocks[k]) is Ok ==> sorted_by_position(
            blocks[k]->Ok_0@,
        )
}

/// Scan every fetched block and aggregate the verdicts into the response.
///
/// The answer is found exactly when some scanned block reports a match; for
/// sorted blocks and query alleles inside the allele grammar, that is
/// exactly when some successfully fetched block holds a matching record,
/// however the blocks are ordered, and whatever happened to the other
/// blocks.  Without a match anywhere, one failed block makes the overall
/// answer that failure — never a silent "not found".
pub fn decide(
    blocks: &Vec<Result<Vec<VariantRecord>, QueryError>>,
    start: u32,
    reference_bases: &String,
    alternate_bases: &String,
) -> (r: Result<SequenceQueryResponse, QueryError>)
    ensures
        (r is Ok && r->Ok_0.found) <==> has_match(
            block_outcomes(blocks@, start, reference_bases@, alternate_bases@),
        ),
        (r is Ok && !r->Ok_0.found) <==> (!has_match(
            block_outcomes(blocks@, start, reference_bases@, alternate_bases@),
        ) && !has_failure(block_outcomes(blocks@, start, reference_bases@, alternate_bases@))),
        r is Err <==> (!has_match(
            block_outcomes(blocks@, start, reference_bases@, alternate_bases@),
        ) && has_failure(block_outcomes(blocks@, start, reference_bases@, alternate_bases@))),
        r is Err ==> r == Err::<SequenceQueryResponse, QueryError>(
            first_failure(block_outcomes(blocks@, start, reference_bases@, alternate_bases@)),
        ),
        (blocks_sorted(blocks@) && ref_bases_valid(reference_bases@) && alt_bases_valid(
            alternate_bases@,
        )) ==> ((r is Ok && r->Ok_0.found) <==> some_block_matches(
            blocks@,
            start,
            reference_bases@,
            alternate_bases@,
        )),
{
    let mut outcomes: Vec<Result<MatchOutcome, QueryError>> = Vec::new();
    let mut i: usize = 0;
    proof {
        assert(blocks@.take(0) =~= Seq::<Result<Vec<VariantRecord>, QueryError>>::empty());
        assert(outcomes@ =~= block_outcomes(
            blocks@.take(0),
            start,
            reference_bases@,
            alternate_bases@,
        ));
    }
    while i < blocks.len()
        invariant
            i <= blocks@.len(),
            outcomes@ == block_outcomes(
                blocks@.take(i as int),
                start,
                reference_bases@,
                alternate_bases@,
            ),
        decreases blocks@.len() - i,
    {
        match &blocks[i] {
            Ok(records) => {
                let v = scan_block(records, start, reference_bases, alternate_bases);
                outcomes.push(v);
            },
            Err(e) => {
                outcomes.push(Err(*e));
            },
        }
        proof {
            assert(blocks@.take(i as int + 1) =~= blocks@.take(i as int).push(blocks@[i as int]));
            assert(outcomes@ =~= block_outcomes(
                blocks@.take(i as int + 1),
                start,
                reference_bases@,
                alternate_bases@,
            ));
        }
        i += 1;
    }
    proof {
        assert(blocks@.take(blocks@.len() as int) =~= blocks@);
    }
    let answer = match aggregate(&outcomes) {
        Ok(f) => Ok(SequenceQueryResponse { found: f }),
        Err(e) => Err(e),
    };
    proof {
        let outs = block_outcomes(blocks@, start, reference_bases@, alternate_bases@);
        if blocks_sorted(blocks@) && ref_bases_valid(reference_bases@) && alt_bases_valid(
            alternate_bases@,
        ) {
            if answer is Ok && answer->Ok_0.found {
                let k = choose|k: int| 0 <= k < outs.len() && is_matched(#[trigger] outs[k]);
                assert(outs[k] == block_outcome(
                    blocks@[k],
                    start,
                    reference_bases@,
                    alternate_bases@,
                ));
                assert(blocks@[k] is Ok);
                lemma_scan_matched_sound(
                    blocks@[k]->Ok_0@,
                    start,
                    reference_bases@,
                    alternate_bases@,
                );
                let j = choose|j: int|
                    0 <= j < blocks@[k]->Ok_0@.len() && record_matches(
                        #[trigger] blocks@[k]->Ok_0@[j],
                        start,
                        reference_bases@,
                        alternate_bases@,
                    );
                assert(record_matches(
                    blocks@[k]->Ok_0@[j],
                    start,
                    reference_bases@,
                    alternate_bases@,
                ));
            }
            if some_block_matches(blocks@, start, reference_bases@, alternate_bases@) {
                let (k, j) = choose|k: int, j: int|
                    0 <= k < blocks@.len() && blocks@[k] is Ok && 0 <= j < blocks@[k]->Ok_0@.len()
                        && record_matches(
                        #[trigger] blocks@[k]->Ok_0@[j],
                        start,
                        reference_bases@,
                        alternate_bases@,
                    );
                lemma_scan_complete(blocks@[k]->Ok_0@, start, reference_bases@, alternate_bases@);
                assert(outs[k] == block_outcome(
                    blocks@[k],
                    start,
                    reference_bases@,
                    alternate_bases@,
                ));
                assert(is_matched(outs[k]));
                assert(has_match(outs));
            }
        }
    }
    answer
}

} // verus!
