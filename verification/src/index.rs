//! The coordinate index lookup: given the already-parsed index structure, a
//! reference sequence name and a start coordinate, the candidate byte ranges
//! of the compressed file that could contain a record at that coordinate.
//!
//! The index is modelled as plain data: per reference sequence, a list of
//! bins — each a bin number with its chunk byte ranges — plus an optional
//! metadata byte range.  Parsing the binary index format into this shape is
//! an external collaborator's job.

use vstd::prelude::*;

use crate::errors::QueryError;
use crate::ranges::ByteRange;
use crate::ranges::coalesced;
use crate::ranges::in_union;
use crate::ranges::merge_all;

verus! {

/// The largest start coordinate the binning scheme can address: bins tile
/// the coordinate space `[0, 2^29)`.
pub const MAX_COORDINATE: u32 = 0x1FFF_FFFF;

/// One bin of the index: a numbered coarse genomic interval together with
/// the chunk byte ranges of the records filed under it.
#[derive(Clone, Debug)]
pub struct IndexBin {
    /// The bin number, encoding the bin's level and slot in the hierarchy.
    pub id: u32,
    /// Byte ranges of the compressed file holding this bin's records.
    pub chunks: Vec<ByteRange>,
}

/// Everything the index knows about one reference sequence.
#[derive(Clone, Debug)]
pub struct ReferenceIndex {
    /// The reference sequence (chromosome/contig) name.
    pub name: String,
    /// The bins of this reference sequence.
    pub bins: Vec<IndexBin>,
    /// An optional per-reference metadata byte range, returned with every
    /// lookup that hits this reference sequence.
    pub metadata: Option<ByteRange>,
}

/// An externally-parsed coordinate index: one entry per reference sequence.
#[derive(Clone, Debug)]
pub struct CompressedBlockIndex {
    /// The reference sequences of the index, in file order.
    pub references: Vec<ReferenceIndex>,
}

/// Bin `id` is one of the six bins — one per level of the hierarchy — whose
/// genomic interval contains position `pos`: the scheme tiles the coordinate
/// space with intervals of 2^29, 2^26, 2^23, 2^20, 2^17 and 2^14 positions,
/// numbering them level by level.
pub open spec fn bin_covers(id: u32, pos: u32) -> bool {
    ||| id == 0
    ||| id == 1 + pos / 67108864
    ||| id == 9 + pos / 8388608
    ||| id == 73 + pos / 1048576
    ||| id == 585 + pos / 131072
    ||| id == 4681 + pos / 16384
}

/// Whether bin `id` could hold a record overlapping position `pos`.
pub fn bin_matches(id: u32, pos: u32) -> (b: bool)
    ensures
        b == bin_covers(id, pos),
{
    id == 0 || id == 1 + pos / 67108864 || id == 9 + pos / 8388608 || id == 73 + pos / 1048576
        || id == 585 + pos / 131072 || id == 4681 + pos / 16384
}

/// The chunk ranges of every bin that could overlap `pos`, in bin order.
pub open spec fn covering_chunks(bins: Seq<IndexBin>, pos: u32) -> Seq<ByteRange>
    decreases bins.len(),
{
    if bins.len() == 0 {
        Seq::empty()
    } else {
        (if bin_covers(bins[0].id, pos) {
            bins[0].chunks@
        } else {
            Seq::empty()
        }) + covering_chunks(bins.drop_first(), pos)
    }
}

proof fn lemma_covering_chunks_push(bins: Seq<IndexBin>, b: IndexBin, pos: u32)
    ensures
        covering_chunks(bins.push(b), pos) == covering_chunks(bins, pos) + (if bin_covers(
            b.id,
            pos,
        ) {
            b.chunks@
        } else {
            Seq::<ByteRange>::empty()
        }),
    decreases bins.len(),
{
    if bins.len() == 0 {
        let s = bins.push(b);
        assert(s[0] == b);
        assert(s.drop_first() =~= Seq::<IndexBin>::empty());
        assert(covering_chunks(s.drop_first(), pos) == Seq::<ByteRange>::empty());
        assert(covering_chunks(s, pos) == (if bin_covers(b.id, pos) {
            b.chunks@
        } else {
            Seq::<ByteRange>::empty()
        }) + covering_chunks(s.drop_first(), pos));
        assert(covering_chunks(s, pos) =~= covering_chunks(bins, pos) + (if bin_covers(
            b.id,
            pos,
        ) {
            b.chunks@
        } else {
            Seq::<ByteRange>::empty()
        }));
    } else {
        assert(bins.push(b)[0] == bins[0]);
        assert(bins.push(b).drop_first() =~= bins.drop_first().push(b));
        lemma_covering_chunks_push(bins.drop_first(), b, pos);
        assert(covering_chunks(bins.push(b), pos) =~= covering_chunks(bins, pos) + (if bin_covers(
            b.id,
            pos,
        ) {
            b.chunks@
        } else {
            Seq::<ByteRange>::empty()
        }));
    }
}

/// What the lookup returns for one reference sequence: the chunk ranges of
/// every bin that could overlap the position, then the metadata range if the
/// reference sequence carries one.
pub open spec fn lookup_spec(reference: ReferenceIndex, pos: u32) -> Seq<ByteRange> {
    covering_chunks(reference.bins@, pos) + (match reference.metadata {
        Some(m) => seq![m],
        None => Seq::empty(),
    })
}

/// The first reference sequence of the index carrying `name`, if any.
pub open spec fn find_reference(
    references: Seq<ReferenceIndex>,
    name: Seq<char>,
) -> Option<ReferenceIndex>
    decreases references.len(),
{
    if references.len() == 0 {
        None
    } else if references[0].name@ == name {
        Some(references[0])
    } else {
        find_reference(references.drop_first(), name)
    }
}

/// Look the query point up in the index: every chunk range of every bin that
/// could overlap `start` on the named reference sequence, plus that
/// reference sequence's metadata range.  `start` is 0-based, the convention
/// of the binning scheme; a caller holding a 1-based record position
/// converts before the lookup.  A name absent from the index is
/// rejected, as is a start coordinate beyond what the binning scheme can
/// address; nothing is fetched for either.
pub fn lookup(
    index: &CompressedBlockIndex,
    reference_name: &String,
    start: u32,
) -> (r: Result<Vec<ByteRange>, QueryError>)
    ensures
        r == Err::<Vec<ByteRange>, QueryError>(QueryError::UnknownReference) <==> find_reference(
            index.references@,
            reference_name@,
        ) is None,
        r == Err::<Vec<ByteRange>, QueryError>(QueryError::CoordinateRange) <==> (find_reference(
            index.references@,
            reference_name@,
        ) is Some && start > MAX_COORDINATE),
        r is Ok ==> r->Ok_0@ == lookup_spec(
            find_reference(index.references@, reference_name@)->0,
            start,
        ),
        r is Ok <==> (find_reference(index.references@, reference_name@) is Some && start
            <= MAX_COORDINATE),
{
    let mut i: usize = 0;
    proof {
        assert(index.references@.skip(0) =~= index.references@);
    }
    while i < index.references.len()
        invariant
            i <= index.references@.len(),
            find_reference(index.references@, reference_name@) == find_reference(
                index.references@.skip(i as int),
                reference_name@,
            ),
        decreases index.references@.len() - i,
    {
        proof {
            assert(index.references@.skip(i as int)[0] == index.references@[i as int]);
            assert(index.references@.skip(i as int).drop_first() =~= index.references@.skip(
                i as int + 1,
            ));
        }
        if index.references[i].name == *reference_name {
            return lookup_in_reference(&index.references[i], start);
        }
        i += 1;
    }
    proof {
        assert(index.references@.skip(index.references@.len() as int) =~= Seq::<
            ReferenceIndex,
        >::empty());
    }
    Err(QueryError::UnknownReference)
}

/// The lookup on one reference sequence already known to carry the queried
/// name.
fn lookup_in_reference(reference: &ReferenceIndex, start: u32) -> (r: Result<
    Vec<ByteRange>,
    QueryError,
>)
    ensures
        r is Ok <==> start <= MAX_COORDINATE,
        r is Err ==> r == Err::<Vec<ByteRange>, QueryError>(QueryError::CoordinateRange),
        r is Ok ==> r->Ok_0@ == lookup_spec(*reference, start),
{
    if start > MAX_COORDINATE {
        return Err(QueryError::CoordinateRange);
    }
    let mut out: Vec<ByteRange> = Vec::new();
    let mut j: usize = 0;
    proof {
        assert(reference.bins@.take(0) =~= Seq::<IndexBin>::empty());
        assert(out@ =~= covering_chunks(reference.bins@.take(0), start));
    }
    while j < reference.bins.len()
        invariant
            j <= reference.bins@.len(),
            out@ == covering_chunks(reference.bins@.take(j as int), start),
        decreases reference.bins@.len() - j,
    {
        let bin = &reference.bins[j];
        if bin_matches(bin.id, start) {
            let mut c: usize = 0;
            while c < bin.chunks.len()
                invariant
                    c <= bin.chunks@.len(),
                    bin == &reference.bins[j as int],
                    j < reference.bins@.len(),
                    out@ == covering_chunks(reference.bins@.take(j as int), start)
                        + bin.chunks@.take(c as int),
                decreases bin.chunks@.len() - c,
            {
                out.push(bin.chunks[c]);
                proof {
                    assert(bin.chunks@.take(c as int + 1) =~= bin.chunks@.take(c as int).push(
                        bin.chunks@[c as int],
                    ));
                    assert(out@ =~= covering_chunks(reference.bins@.take(j as int), start)
                        + bin.chunks@.take(c as int + 1));
                }
                c += 1;
            }
            proof {
                assert(bin.chunks@.take(bin.chunks@.len() as int) =~= bin.chunks@);
            }
        }
        proof {
            assert(reference.bins@.take(j as int + 1) =~= reference.bins@.take(j as int).push(
                reference.bins@[j as int],
            ));
            lemma_covering_chunks_push(
                reference.bins@.take(j as int),
                reference.bins@[j as int],
                start,
            );
            if !bin_covers(reference.bins@[j as int].id, start) {
                assert(out@ =~= covering_chunks(reference.bins@.take(j as int + 1), start));
            }
        }
        j += 1;
    }
    proof {
        assert(reference.bins@.take(reference.bins@.len() as int) =~= reference.bins@);
    }
    match reference.metadata {
        Some(m) => {
            out.push(m);
            proof {
                assert(out@ =~= lookup_spec(*reference, start));
            }
        },
        None => {
            proof {
                assert(out@ =~= lookup_spec(*reference, start));
            }
        },
    }
    Ok(out)
}

/// Resolve the query point to the minimal set of byte ranges to fetch:
/// look the point up in the index and coalesce the candidate ranges into a
/// sorted, disjoint set covering exactly the same offsets.  An empty result
/// means no candidate data exists for the coordinate.
pub fn plan_ranges(
    index: &CompressedBlockIndex,
    reference_name: &String,
    start: u32,
) -> (r: Result<Vec<ByteRange>, QueryError>)
    ensures
        r == Err::<Vec<ByteRange>, QueryError>(QueryError::UnknownReference) <==> find_reference(
            index.references@,
            reference_name@,
        ) is None,
        r == Err::<Vec<ByteRange>, QueryError>(QueryError::CoordinateRange) <==> (find_reference(
            index.references@,
            reference_name@,
        ) is Some && start > MAX_COORDINATE),
        r is Ok <==> (find_reference(index.references@, reference_name@) is Some && start
            <= MAX_COORDINATE),
        r is Ok ==> coalesced(r->Ok_0@),
        r is Ok ==> forall|pos: int|
            in_union(r->Ok_0@, pos) <==> in_union(
                lookup_spec(find_reference(index.references@, reference_name@)->0, start),
                pos,
            ),
        r is Ok ==> (lookup_spec(find_reference(index.references@, reference_name@)->0, start).len()
            == 0 ==> r->Ok_0@.len() == 0),
        r is Ok ==> forall|k: int|
            0 <= k < r->Ok_0@.len() ==> ((#[trigger] r->Ok_0@[k]).start < r->Ok_0@[k].end
                || lookup_spec(find_reference(index.references@, reference_name@)->0, start)
                .contains(r->Ok_0@[k])),
{
    match lookup(index, reference_name, start) {
        Ok(candidates) => Ok(merge_all(&candidates)),
        Err(e) => Err(e),
    }
}

} // verus!
