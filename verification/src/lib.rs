//! Indexed partial-file variant lookup: given a coordinate index over a
//! block-compressed variant file, resolve a point query to candidate byte
//! ranges, coalesce them, scan the decoded records of each fetched range, and
//! aggregate the per-range outcomes into one boolean answer.
//!
//! Everything here is pure logic over plain values.  Fetching remote bytes,
//! parsing the binary index, and decoding compressed blocks into records are
//! collaborators that live outside this library; callers hand in their
//! decoded results.

pub mod aggregate;
pub mod alleles;
pub mod errors;
pub mod index;
pub mod ranges;
pub mod request;
pub mod scan;

pub use errors::QueryError;
pub use index::CompressedBlockIndex;
pub use index::IndexBin;
pub use index::ReferenceIndex;
pub use ranges::ByteRange;
pub use request::SequenceQueryRequest;
pub use request::SequenceQueryResponse;
pub use scan::MatchOutcome;
pub use scan::VariantRecord;
