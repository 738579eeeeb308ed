//! The error taxonomy of the lookup engine.

use vstd::prelude::*;

verus! {

/// Everything that can go wrong while answering one query.
///
/// The first three variants are input-validation failures, raised before any
/// byte of the remote file is touched.  `Fetch` is a failed or timed-out
/// remote byte-range request.  `Parse` covers malformed index bytes,
/// malformed block bytes, and an allele string the record decoder cannot
/// interpret.  `Overflow` is a coordinate that does not fit the width used
/// for position comparison.  A failed range is a correctness gap, never
/// evidence of absence, so any of these surfaces to the caller unless a
/// concurrently-found match makes it moot.
#[derive(Clone, Copy, Debug, PartialEq, Eq, Structural)]
pub enum QueryError {
    /// A file key lacks the fixed suffix its format requires.
    InvalidKey,
    /// The queried reference sequence name is absent from the index.
    UnknownReference,
    /// The start coordinate is not representable in the index's native
    /// coordinate width.
    CoordinateRange,
    /// A remote byte-range request failed or timed out.
    Fetch,
    /// Index bytes or block bytes the decoder rejects, or a query allele
    /// string outside the allele grammar once the scan needs it.
    Parse,
    /// Coordinate arithmetic left the representable range.
    Overflow,
}

} // verus!
