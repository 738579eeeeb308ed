//! Byte ranges in the compressed source file, and the range coalescer.

use vstd::prelude::*;

verus! {

/// A half-open span `[start, end)` of byte offsets in the compressed source
/// file.  Ranges coming from an index may overlap, touch, be empty
/// (`start == end`), or even be inverted (`end < start`); an inverted or
/// empty range covers no offset.
#[derive(Clone, Copy, Debug, PartialEq, Eq, Structural)]
pub struct ByteRange {
    pub start: u64,
    pub end: u64,
}

/// Offset `pos` lies inside the half-open span of `r`.
pub open spec fn covers(r: ByteRange, pos: int) -> bool {
    r.start <= pos < r.end
}

/// Offset `pos` lies inside at least one range of `rs`.
pub open spec fn in_union(rs: Seq<ByteRange>, pos: int) -> bool {
    exists|k: int| 0 <= k < rs.len() && covers(#[trigger] rs[k], pos)
}

/// The ranges are ordered by start offset.
pub open spec fn sorted_by_start(rs: Seq<ByteRange>) -> bool {
    forall|k: int, l: int|
        0 <= k < l < rs.len() ==> #[trigger] rs[k].start <= #[trigger] rs[l].start
}

/// The ranges are sorted and no two consecutive ranges are mergeable under
/// the adjacency rule (a range starting at or before the end of its
/// predecessor would have been merged into it): every range starts strictly
/// after its predecessor ends.
pub open spec fn coalesced(rs: Seq<ByteRange>) -> bool {
    &&& sorted_by_start(rs)
    &&& forall|k: int| 0 <= k < rs.len() - 1 ==> #[trigger] rs[k].end < rs[k + 1].start
}

/// Every range covers at least one offset.
pub open spec fn all_nonempty(rs: Seq<ByteRange>) -> bool {
    forall|k: int| 0 <= k < rs.len() ==> (#[trigger] rs[k]).start < rs[k].end
}

/// In a coalesced set the ranges are pairwise disjoint: any two distinct
/// ranges are separated, the earlier one ending strictly before the later
/// one starts.
pub proof fn lemma_coalesced_disjoint(rs: Seq<ByteRange>)
    requires
        coalesced(rs),
    ensures
        forall|k: int, l: int| 0 <= k < l < rs.len() ==> #[trigger] rs[k].end < #[trigger] rs[l].start,
{
    assert forall|k: int, l: int| 0 <= k < l < rs.len() implies #[trigger] rs[k].end
        < #[trigger] rs[l].start by {
        lemma_gap_reaches(rs, k, l);
    }
}

proof fn lemma_gap_reaches(rs: Seq<ByteRange>, k: int, l: int)
    requires
        coalesced(rs),
        0 <= k < l < rs.len(),
    ensures
        rs[k].end < rs[l].start,
    decreases l - k,
{
    if l == k + 1 {
    } else {
        lemma_gap_reaches(rs, k, l - 1);
        assert(rs[l - 1].start <= rs[l].start);
    }
}

/// A range of `rs` that covers `pos`, for a `pos` known to lie in the union.
proof fn union_witness(rs: Seq<ByteRange>, pos: int) -> (k: int)
    requires
        in_union(rs, pos),
    ensures
        0 <= k < rs.len(),
        covers(rs[k], pos),
{
    choose|k: int| 0 <= k < rs.len() && covers(#[trigger] rs[k], pos)
}

/// A single covering range puts `pos` in the union.
proof fn lemma_union_intro(rs: Seq<ByteRange>, k: int, pos: int)
    requires
        0 <= k < rs.len(),
        covers(rs[k], pos),
    ensures
        in_union(rs, pos),
{
}

/// Insertion sort by start offset.  Sorting preserves the union of the
/// ranges, and an already-sorted input comes back unchanged.
fn sort_by_start(ranges: &Vec<ByteRange>) -> (out: Vec<ByteRange>)
    ensures
        sorted_by_start(out@),
        forall|pos: int| in_union(out@, pos) <==> in_union(ranges@, pos),
        sorted_by_start(ranges@) ==> out@ == ranges@,
        out@.len() == ranges@.len(),
        forall|k: int| 0 <= k < out@.len() ==> ranges@.contains(#[trigger] out@[k]),
{
    let mut out: Vec<ByteRange> = Vec::new();
    let mut i: usize = 0;
    while i < ranges.len()
        invariant
            i <= ranges.len(),
            out@.len() == i,
            sorted_by_start(out@),
            forall|pos: int| in_union(out@, pos) <==> in_union(ranges@.take(i as int), pos),
            sorted_by_start(ranges@) ==> out@ == ranges@.take(i as int),
            forall|k: int| 0 <= k < out@.len() ==> ranges@.contains(#[trigger] out@[k]),
        decreases ranges.len() - i,
    {
        let r = ranges[i];
        let mut p: usize = out.len();
        while p > 0 && out[p - 1].start > r.start
            invariant
                p <= out@.len(),
                out@.len() == i <= ranges@.len(),
                i < ranges@.len(),
                r == ranges@[i as int],
                sorted_by_start(out@),
                forall|k: int| p <= k < out@.len() ==> r.start <= #[trigger] out@[k].start,
                sorted_by_start(ranges@) ==> (out@ == ranges@.take(i as int) && p == out@.len()),
            decreases p,
        {
            proof {
                if sorted_by_start(ranges@) {
                    assert(out@[p - 1] == ranges@.take(i as int)[i - 1]);
                    assert(ranges@[i - 1].start <= ranges@[i as int].start);
                    assert(false);
                }
            }
            p -= 1;
        }
        let ghost old_out = out@;
        out.insert(p, r);
        proof {
            old_out.insert_ensures(p as int, r);
            // sortedness of the extended sequence
            assert forall|k: int, l: int| 0 <= k < l < out@.len() implies #[trigger] out@[k].start
                <= #[trigger] out@[l].start by {
                if k < p && l == p {
                    assert(out@[k] == old_out[k]);
                    assert(old_out[k].start <= old_out[p - 1].start);
                } else if k == p && l > p {
                    assert(out@[l] == old_out[l - 1]);
                } else if k < p && l > p {
                    assert(out@[k] == old_out[k] && out@[l] == old_out[l - 1]);
                } else if k > p && l > p {
                    assert(out@[k] == old_out[k - 1] && out@[l] == old_out[l - 1]);
                }
            }
            // the union gains exactly the span of `r`
            assert forall|pos: int| in_union(out@, pos) implies in_union(
                ranges@.take(i as int + 1),
                pos,
            ) by {
                let k = union_witness(out@, pos);
                if k < p {
                    lemma_union_intro(old_out, k, pos);
                } else if k > p {
                    lemma_union_intro(old_out, k - 1, pos);
                }
                if k == p {
                    assert(ranges@.take(i as int + 1)[i as int] == r);
                    lemma_union_intro(ranges@.take(i as int + 1), i as int, pos);
                } else {
                    let m = union_witness(ranges@.take(i as int), pos);
                    assert(ranges@.take(i as int + 1)[m] == ranges@.take(i as int)[m]);
                    lemma_union_intro(ranges@.take(i as int + 1), m, pos);
                }
            }
            assert forall|pos: int| in_union(ranges@.take(i as int + 1), pos) implies in_union(
                out@,
                pos,
            ) by {
                let m = union_witness(ranges@.take(i as int + 1), pos);
                if m == i {
                    assert(out@[p as int] == r);
                    lemma_union_intro(out@, p as int, pos);
                } else {
                    assert(ranges@.take(i as int)[m] == ranges@.take(i as int + 1)[m]);
                    lemma_union_intro(ranges@.take(i as int), m, pos);
                    let k = union_witness(old_out, pos);
                    if k < p {
                        assert(out@[k] == old_out[k]);
                        lemma_union_intro(out@, k, pos);
                    } else {
                        assert(out@[k + 1] == old_out[k]);
                        lemma_union_intro(out@, k + 1, pos);
                    }
                }
            }
            // every element of the result occurs in the input
            assert forall|k: int| 0 <= k < out@.len() implies ranges@.contains(
                #[trigger] out@[k],
            ) by {
                if k < p {
                    assert(out@[k] == old_out[k]);
                } else if k == p {
                    assert(out@[k] == ranges@[i as int]);
                    assert(ranges@.contains(ranges@[i as int]));
                } else {
                    assert(out@[k] == old_out[k - 1]);
                }
            }
            // an already-sorted input is extended in place
            if sorted_by_start(ranges@) {
                assert(p == old_out.len());
                assert(out@ =~= ranges@.take(i as int).push(ranges@[i as int]));
                assert(ranges@.take(i as int + 1) =~= ranges@.take(i as int).push(
                    ranges@[i as int],
                ));
            }
        }
        i += 1;
    }
    proof {
        assert(ranges@.take(ranges@.len() as int) =~= ranges@);
    }
    out
}

/// One left-to-right pass over a sorted sequence, merging every range that
/// starts at or before the end of the running merged range.
fn coalesce_sorted(sorted: Vec<ByteRange>) -> (out: Vec<ByteRange>)
    requires
        sorted_by_start(sorted@),
    ensures
        coalesced(out@),
        forall|pos: int| in_union(out@, pos) <==> in_union(sorted@, pos),
        coalesced(sorted@) ==> out@ == sorted@,
        all_nonempty(sorted@) ==> all_nonempty(out@),
        forall|k: int|
            0 <= k < out@.len() ==> ((#[trigger] out@[k]).start < out@[k].end || sorted@.contains(
                out@[k],
            )),
{
    let mut out: Vec<ByteRange> = Vec::new();
    if sorted.len() == 0 {
        return out;
    }
    let mut cur: ByteRange = sorted[0];
    let mut i: usize = 1;
    proof {
        assert(out@.push(cur) =~= sorted@.take(1));
        assert(sorted@[0] == cur);
        assert(sorted@.contains(cur));
    }
    while i < sorted.len()
        invariant
            1 <= i <= sorted@.len(),
            sorted_by_start(sorted@),
            coalesced(out@.push(cur)),
            forall|pos: int|
                in_union(out@.push(cur), pos) <==> in_union(sorted@.take(i as int), pos),
            forall|j: int| i <= j < sorted@.len() ==> cur.start <= #[trigger] sorted@[j].start,
            coalesced(sorted@) ==> out@.push(cur) == sorted@.take(i as int),
            all_nonempty(sorted@) ==> all_nonempty(out@.push(cur)),
            forall|k: int|
                0 <= k < out@.len() ==> ((#[trigger] out@[k]).start < out@[k].end
                    || sorted@.contains(out@[k])),
            cur.start < cur.end || sorted@.contains(cur),
        decreases sorted@.len() - i,
    {
        let r = sorted[i];
        let ghost prev = out@.push(cur);
        let ghost old_cur = cur;
        let ghost old_out_view = out@;
        if r.start <= cur.end {
            if r.end > cur.end {
                cur.end = r.end;
            }
            proof {
                assert(out@.push(cur).len() == prev.len());
                assert forall|k: int| 0 <= k < prev.len() - 1 implies out@.push(cur)[k] == prev[k] by {}
                // widening the running range keeps the set coalesced
                assert forall|k: int, l: int| 0 <= k < l < out@.push(cur).len() implies #[trigger] out@.push(
                    cur,
                )[k].start <= #[trigger] out@.push(cur)[l].start by {
                    if l < out@.len() {
                        assert(out@.push(cur)[k] == prev[k]);
                        assert(out@.push(cur)[l] == prev[l]);
                        assert(prev[k].start <= prev[l].start);
                    } else {
                        assert(out@.push(cur)[l] == cur);
                        assert(out@.push(cur)[k] == prev[k]);
                        assert(prev[l] == old_cur);
                        assert(prev[k].start <= prev[l].start);
                    }
                }
                assert forall|k: int| 0 <= k < out@.push(cur).len() - 1 implies #[trigger] out@.push(
                    cur,
                )[k].end < out@.push(cur)[k + 1].start by {
                    if k + 1 < out@.len() {
                        assert(out@.push(cur)[k] == prev[k]);
                        assert(out@.push(cur)[k + 1] == prev[k + 1]);
                        assert(prev[k].end < prev[k + 1].start);
                    } else {
                        assert(out@.push(cur)[k] == prev[k]);
                        assert(out@.push(cur)[k + 1] == cur);
                        assert(prev[k + 1] == old_cur);
                        assert(prev[k].end < prev[k + 1].start);
                    }
                }
                // the widened running range covers exactly the old one plus `r`
                assert forall|pos: int| in_union(out@.push(cur), pos) implies in_union(
                    sorted@.take(i as int + 1),
                    pos,
                ) by {
                    let k = union_witness(out@.push(cur), pos);
                    if k < out@.len() {
                        lemma_union_intro(prev, k, pos);
                    } else {
                        assert(covers(cur, pos));
                        if pos < old_cur.end {
                            assert(covers(prev[prev.len() - 1], pos));
                            lemma_union_intro(prev, prev.len() - 1, pos);
                        } else {
                            assert(covers(r, pos));
                            assert(sorted@.take(i as int + 1)[i as int] == r);
                            lemma_union_intro(sorted@.take(i as int + 1), i as int, pos);
                        }
                    }
                    if in_union(prev, pos) {
                        let m = union_witness(sorted@.take(i as int), pos);
                        assert(sorted@.take(i as int + 1)[m] == sorted@.take(i as int)[m]);
                        lemma_union_intro(sorted@.take(i as int + 1), m, pos);
                    }
                }
                assert forall|pos: int| in_union(sorted@.take(i as int + 1), pos) implies in_union(
                    out@.push(cur),
                    pos,
                ) by {
                    let m = union_witness(sorted@.take(i as int + 1), pos);
                    if m == i {
                        // `r` is swallowed by the widened running range
                        assert(covers(r, pos));
                        assert(covers(cur, pos));
                        assert(out@.push(cur)[out@.len() as int] == cur);
                        lemma_union_intro(out@.push(cur), out@.len() as int, pos);
                    } else {
                        assert(sorted@.take(i as int)[m] == sorted@.take(i as int + 1)[m]);
                        lemma_union_intro(sorted@.take(i as int), m, pos);
                        let k = union_witness(prev, pos);
                        if k < out@.len() {
                            assert(out@.push(cur)[k] == prev[k]);
                            lemma_union_intro(out@.push(cur), k, pos);
                        } else {
                            assert(covers(cur, pos));
                            assert(out@.push(cur)[out@.len() as int] == cur);
                            lemma_union_intro(out@.push(cur), out@.len() as int, pos);
                        }
                    }
                }
                if coalesced(sorted@) {
                    // a coalesced input never triggers a merge
                    assert(prev[prev.len() - 1] == sorted@.take(i as int)[i - 1]);
                    assert(sorted@[i - 1].end < sorted@[i as int].start);
                    assert(false);
                }
                if all_nonempty(sorted@) {
                    assert forall|k: int| 0 <= k < out@.push(cur).len() implies (
                    #[trigger] out@.push(cur)[k]).start < out@.push(cur)[k].end by {
                        if k < out@.len() {
                            assert(out@.push(cur)[k] == prev[k]);
                        } else {
                            assert(out@.push(cur)[k] == cur);
                            assert(prev[prev.len() - 1] == old_cur);
                        }
                    }
                }
                // the running range stays covering, or it is untouched
                if r.end > old_cur.end {
                    assert(old_cur.start <= sorted@[i as int].start);
                    assert(cur.start < cur.end);
                }
            }
        } else {
            out.push(cur);
            cur = r;
            proof {
                assert(out@.push(cur) =~= prev.push(r));
                assert forall|k: int| 0 <= k < out@.push(cur).len() - 1 implies #[trigger] out@.push(
                    cur,
                )[k].end < out@.push(cur)[k + 1].start by {
                    if k < prev.len() - 1 {
                        assert(out@.push(cur)[k] == prev[k]);
                        assert(out@.push(cur)[k + 1] == prev[k + 1]);
                    } else {
                        // the gap between the closed running range and `r`
                        assert(out@.push(cur)[k] == prev[prev.len() - 1]);
                        assert(out@.push(cur)[k + 1] == r);
                        assert(prev[prev.len() - 1] == old_cur);
                    }
                }
                assert(coalesced(out@.push(cur))) by {
                    assert forall|k: int, l: int|
                        0 <= k < l < out@.push(cur).len() implies #[trigger] out@.push(
                        cur,
                    )[k].start <= #[trigger] out@.push(cur)[l].start by {
                        if l < prev.len() {
                            assert(out@.push(cur)[k] == prev[k]);
                            assert(out@.push(cur)[l] == prev[l]);
                        } else {
                            assert(out@.push(cur)[l] == r);
                            assert(out@.push(cur)[k] == prev[k]);
                            if k < prev.len() - 1 {
                                assert(prev[k].start <= prev[prev.len() - 1].start);
                            }
                        }
                    }
                }
                assert forall|pos: int| in_union(out@.push(cur), pos) implies in_union(
                    sorted@.take(i as int + 1),
                    pos,
                ) by {
                    let k = union_witness(out@.push(cur), pos);
                    if k < prev.len() {
                        assert(covers(prev[k], pos));
                        lemma_union_intro(prev, k, pos);
                        let m = union_witness(sorted@.take(i as int), pos);
                        assert(sorted@.take(i as int + 1)[m] == sorted@.take(i as int)[m]);
                        lemma_union_intro(sorted@.take(i as int + 1), m, pos);
                    } else {
                        assert(covers(r, pos));
                        assert(sorted@.take(i as int + 1)[i as int] == r);
                        lemma_union_intro(sorted@.take(i as int + 1), i as int, pos);
                    }
                }
                assert forall|pos: int| in_union(sorted@.take(i as int + 1), pos) implies in_union(
                    out@.push(cur),
                    pos,
                ) by {
                    let m = union_witness(sorted@.take(i as int + 1), pos);
                    if m == i {
                        assert(covers(r, pos));
                        assert(out@.push(cur)[out@.len() as int] == r);
                        lemma_union_intro(out@.push(cur), out@.len() as int, pos);
                    } else {
                        assert(sorted@.take(i as int)[m] == sorted@.take(i as int + 1)[m]);
                        lemma_union_intro(sorted@.take(i as int), m, pos);
                        let k = union_witness(prev, pos);
                        assert(out@.push(cur)[k] == prev[k]);
                        lemma_union_intro(out@.push(cur), k, pos);
                    }
                }
                if coalesced(sorted@) {
                    assert(out@.push(cur) =~= sorted@.take(i as int).push(sorted@[i as int]));
                    assert(sorted@.take(i as int + 1) =~= sorted@.take(i as int).push(
                        sorted@[i as int],
                    ));
                }
                if all_nonempty(sorted@) {
                    assert forall|k: int| 0 <= k < out@.push(cur).len() implies (
                    #[trigger] out@.push(cur)[k]).start < out@.push(cur)[k].end by {
                        if k < prev.len() {
                            assert(out@.push(cur)[k] == prev[k]);
                        } else {
                            assert(out@.push(cur)[k] == r);
                            assert(r == sorted@[i as int]);
                        }
                    }
                }
                // the closed range keeps its pedigree; the new running range
                // is an input element
                assert forall|k: int| 0 <= k < out@.len() implies ((#[trigger] out@[k]).start
                    < out@[k].end || sorted@.contains(out@[k])) by {
                    if k < old_out_view.len() {
                        assert(out@[k] == old_out_view[k]);
                    } else {
                        assert(out@[k] == old_cur);
                    }
                }
                assert(sorted@[i as int] == r);
                assert(sorted@.contains(r));
            }
        }
        proof {
            assert forall|j: int| i + 1 <= j < sorted@.len() implies cur.start
                <= #[trigger] sorted@[j].start by {
                assert(sorted@[i as int].start <= sorted@[j].start);
            }
        }
        i += 1;
    }
    let ghost done_out = out@;
    out.push(cur);
    proof {
        assert(sorted@.take(sorted@.len() as int) =~= sorted@);
        assert forall|k: int| 0 <= k < out@.len() implies ((#[trigger] out@[k]).start < out@[k].end
            || sorted@.contains(out@[k])) by {
            if k < done_out.len() {
                assert(out@[k] == done_out[k]);
            } else {
                assert(out@[k] == cur);
            }
        }
    }
    out
}

/// Merge a set of candidate byte ranges into a minimal, lossless, disjoint
/// covering set: sort by start offset, then merge every range that starts at
/// or before the end of the running merged range.
///
/// The output covers exactly the offsets the input covers, is sorted and
/// disjoint, and is minimal in the sense that no two of its ranges are
/// mergeable under the adjacency rule.  Merging is idempotent: an input that
/// is already in merged form comes back unchanged.
pub fn merge_all(ranges: &Vec<ByteRange>) -> (out: Vec<ByteRange>)
    ensures
        coalesced(out@),
        forall|pos: int| in_union(out@, pos) <==> in_union(ranges@, pos),
        coalesced(ranges@) ==> out@ == ranges@,
        all_nonempty(ranges@) ==> all_nonempty(out@),
        forall|k: int|
            0 <= k < out@.len() ==> ((#[trigger] out@[k]).start < out@[k].end || ranges@.contains(
                out@[k],
            )),
        ranges@.len() == 0 ==> out@.len() == 0,
{
    let sorted = sort_by_start(ranges);
    let ghost sorted_view = sorted@;
    proof {
        if all_nonempty(ranges@) {
            assert forall|k: int| 0 <= k < sorted@.len() implies (#[trigger] sorted@[k]).start
                < sorted@[k].end by {
                let m = choose|m: int| 0 <= m < ranges@.len() && ranges@[m] == sorted@[k];
                assert((ranges@[m]).start < ranges@[m].end);
            }
        }
    }
    let out = coalesce_sorted(sorted);
    proof {
        // a range of the output that covers nothing is an input range kept
        // as it stands
        assert forall|k: int| 0 <= k < out@.len() implies ((#[trigger] out@[k]).start < out@[k].end
            || ranges@.contains(out@[k])) by {
            if !(out@[k].start < out@[k].end) {
                let m = choose|m: int| 0 <= m < sorted_view.len() && sorted_view[m] == out@[k];
                assert(ranges@.contains(sorted_view[m]));
            }
        }
    }
    out
}

} // verus!
