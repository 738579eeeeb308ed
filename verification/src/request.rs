//! The caller-facing request and response shapes, and the validation that
//! runs before any network access: both file keys must carry the fixed
//! suffix of their format.

use vstd::prelude::*;
use vstd::string::StrSliceExecFns;

use crate::errors::QueryError;

verus! {

/// A sequence query request: which remote objects hold the data file and its
/// coordinate index, and the exact point being searched for.
#[derive(Clone, Debug)]
pub struct SequenceQueryRequest {
    /// Container of the block-compressed variant file.
    pub vcf_bucket: String,
    /// Key of the variant file; expected to end in `.vcf.gz`.
    pub vcf_key: String,
    /// Container of the coordinate index.
    pub vcf_index_bucket: String,
    /// Key of the coordinate index; expected to end in `.vcf.gz.tbi`.
    pub vcf_index_key: String,
    /// Reference sequence (chromosome/contig) name.
    pub reference_name: String,
    /// Start coordinate: a record position, 1-based as the records carry
    /// it; the index lookup takes its 0-based counterpart.
    pub start: u32,
    /// Expected reference bases at the coordinate.
    pub reference_bases: String,
    /// Expected alternate bases at the coordinate.
    pub alternate_bases: String,
}

/// The answer: whether the sequence was found.
#[derive(Clone, Copy, Debug, PartialEq, Eq, Structural)]
pub struct SequenceQueryResponse {
    /// True exactly when a fetched block held a record matching position and
    /// both alleles.
    pub found: bool,
}

/// `key` ends with `suffix`.
pub open spec fn ends_with(key: Seq<char>, suffix: Seq<char>) -> bool {
    suffix.len() <= key.len() && key.subrange(key.len() - suffix.len(), key.len() as int) == suffix
}

/// Character-for-character string equality.
fn str_eq(a: &str, b: &str) -> (r: bool)
    ensures
        r == (a@ == b@),
{
    let x = a.to_owned();
    let y = b.to_owned();
    x == y
}

/// Verify that the key ends with the suffix, and return the stem in front of
/// it; a key without the suffix is rejected before any network access.
pub fn verify_key(key: &str, suffix: &str) -> (r: Result<String, QueryError>)
    ensures
        r is Ok <==> ends_with(key@, suffix@),
        r is Ok ==> r->Ok_0@ == key@.subrange(0, key@.len() - suffix@.len()),
        r is Err ==> r == Err::<String, QueryError>(QueryError::InvalidKey),
{
    let n = key.unicode_len();
    let m = suffix.unicode_len();
    if n < m {
        return Err(QueryError::InvalidKey);
    }
    let tail = key.substring_char(n - m, n);
    let stem = key.substring_char(0, n - m);
    if str_eq(tail, suffix) {
        Ok(stem.to_owned())
    } else {
        Err(QueryError::InvalidKey)
    }
}

/// Validate the request's file keys: the index key must end in
/// `.vcf.gz.tbi` and the data key in `.vcf.gz`.  On success the two stems
/// (index first) come back; on failure no network access may be attempted.
pub fn validate_request(req: &SequenceQueryRequest) -> (r: Result<(String, String), QueryError>)
    ensures
        r is Ok <==> (ends_with(req.vcf_index_key@, ".vcf.gz.tbi"@) && ends_with(
            req.vcf_key@,
            ".vcf.gz"@,
        )),
        r is Ok ==> r->Ok_0.0@ == req.vcf_index_key@.subrange(
            0,
            req.vcf_index_key@.len() - ".vcf.gz.tbi"@.len(),
        ),
        r is Ok ==> r->Ok_0.1@ == req.vcf_key@.subrange(
            0,
            req.vcf_key@.len() - ".vcf.gz"@.len(),
        ),
        r is Err ==> r == Err::<(String, String), QueryError>(QueryError::InvalidKey),
{
    let index_id = match verify_key(req.vcf_index_key.as_str(), ".vcf.gz.tbi") {
        Ok(v) => v,
        Err(e) => {
            return Err(e);
        },
    };
    let vcf_id = match verify_key(req.vcf_key.as_str(), ".vcf.gz") {
        Ok(v) => v,
        Err(e) => {
            return Err(e);
        },
    };
    Ok((index_id, vcf_id))
}

} // verus!
