//! The allele grammar: which strings the query's allele fields may hold,
//! and the canonical form under which alleles are compared.
//!
//! A query's reference allele is one or more nucleotide base letters; its
//! alternate allele field is one or more such base strings separated by
//! commas.  Base letters compare case-insensitively: both sides are folded
//! to upper case before comparison.  A query string outside this grammar
//! cannot be parsed into the structured allele representation and is a
//! parse failure for the scan that needs it.  Record allele strings are not
//! held to the grammar: the decoder's richer allele language (symbolic
//! alleles and the like) simply never matches a valid query form and is
//! scanned past.

use vstd::prelude::*;
use vstd::string::StrSliceExecFns;

verus! {

/// `c` is a nucleotide base letter, in either case.
pub open spec fn is_base(c: char) -> bool {
    ||| c == 'A'
    ||| c == 'C'
    ||| c == 'G'
    ||| c == 'T'
    ||| c == 'N'
    ||| c == 'a'
    ||| c == 'c'
    ||| c == 'g'
    ||| c == 't'
    ||| c == 'n'
}

/// The canonical form of one character: base letters fold to upper case,
/// every other character stands as it is.
pub open spec fn upper_base(c: char) -> char {
    if c == 'a' {
        'A'
    } else if c == 'c' {
        'C'
    } else if c == 'g' {
        'G'
    } else if c == 't' {
        'T'
    } else if c == 'n' {
        'N'
    } else {
        c
    }
}

/// A well-formed query reference-bases string: one or more base letters.
pub open spec fn ref_bases_valid(s: Seq<char>) -> bool {
    s.len() > 0 && forall|i: int| 0 <= i < s.len() ==> is_base(#[trigger] s[i])
}

/// A well-formed query alternate-bases string: one or more base strings
/// separated by commas — so no empty element, hence no leading, trailing or
/// doubled comma.
pub open spec fn alt_bases_valid(s: Seq<char>) -> bool {
    &&& s.len() > 0
    &&& forall|i: int| 0 <= i < s.len() ==> (is_base(#[trigger] s[i]) || s[i] == ',')
    &&& s[0] != ','
    &&& s[s.len() - 1] != ','
    &&& forall|i: int| 0 <= i < s.len() - 1 ==> !(#[trigger] s[i] == ',' && s[i + 1] == ',')
}

/// The canonical form of an allele string: every base letter upper-cased.
pub open spec fn canonical(s: Seq<char>) -> Seq<char> {
    s.map_values(|c: char| upper_base(c))
}

/// Whether `c` is a base letter.
fn is_base_char(c: char) -> (b: bool)
    ensures
        b == is_base(c),
{
    c == 'A' || c == 'C' || c == 'G' || c == 'T' || c == 'N' || c == 'a' || c == 'c' || c == 'g'
        || c == 't' || c == 'n'
}

/// The canonical form of one character.
fn upper_base_char(c: char) -> (d: char)
    ensures
        d == upper_base(c),
{
    if c == 'a' {
        'A'
    } else if c == 'c' {
        'C'
    } else if c == 'g' {
        'G'
    } else if c == 't' {
        'T'
    } else if c == 'n' {
        'N'
    } else {
        c
    }
}

/// Check a reference-bases string against the allele grammar.
pub fn check_ref_bases(s: &str) -> (b: bool)
    ensures
        b == ref_bases_valid(s@),
{
    let n = s.unicode_len();
    if n == 0 {
        return false;
    }
    let mut i: usize = 0;
    while i < n
        invariant
            i <= n,
            n == s@.len(),
            forall|j: int| 0 <= j < i ==> is_base(#[trigger] s@[j]),
        decreases n - i,
    {
        if !is_base_char(s.get_char(i)) {
            return false;
        }
        i += 1;
    }
    true
}

/// Check an alternate-bases string against the allele grammar.
pub fn check_alt_bases(s: &str) -> (b: bool)
    ensures
        b == alt_bases_valid(s@),
{
    let n = s.unicode_len();
    if n == 0 {
        return false;
    }
    let mut i: usize = 0;
    let mut prev_comma: bool = false;
    while i < n
        invariant
            0 < n == s@.len(),
            i <= n,
            forall|j: int| 0 <= j < i ==> (is_base(#[trigger] s@[j]) || s@[j] == ','),
            i > 0 ==> s@[0] != ',',
            forall|j: int| 0 <= j < i - 1 ==> !(#[trigger] s@[j] == ',' && s@[j + 1] == ','),
            prev_comma == (i > 0 && s@[i - 1] == ','),
            i == n ==> !prev_comma,
        decreases n - i,
    {
        let c = s.get_char(i);
        if c == ',' {
            if i == 0 {
                return false;
            }
            if prev_comma {
                return false;
            }
            if i + 1 == n {
                return false;
            }
            prev_comma = true;
        } else {
            if !is_base_char(c) {
                return false;
            }
            prev_comma = false;
        }
        i += 1;
    }
    true
}

/// Canonical-form equality of two allele strings: base letters compare
/// case-insensitively, everything else exactly.
pub fn canonical_eq(a: &str, b: &str) -> (r: bool)
    ensures
        r == (canonical(a@) == canonical(b@)),
{
    let n = a.unicode_len();
    let m = b.unicode_len();
    if n != m {
        proof {
            assert(canonical(a@).len() == a@.len());
            assert(canonical(b@).len() == b@.len());
        }
        return false;
    }
    let mut i: usize = 0;
    while i < n
        invariant
            i <= n,
            n == a@.len(),
            n == b@.len(),
            forall|j: int| 0 <= j < i ==> upper_base(a@[j]) == upper_base(b@[j]),
        decreases n - i,
    {
        let ca = a.get_char(i);
        let cb = b.get_char(i);
        if upper_base_char(ca) != upper_base_char(cb) {
            proof {
                assert(canonical(a@)[i as int] == upper_base(a@[i as int]));
                assert(canonical(b@)[i as int] == upper_base(b@[i as int]));
            }
            return false;
        }
        i += 1;
    }
    proof {
        assert forall|j: int| 0 <= j < canonical(a@).len() implies canonical(a@)[j] == canonical(
            b@,
        )[j] by {
            assert(canonical(a@)[j] == upper_base(a@[j]));
            assert(canonical(b@)[j] == upper_base(b@[j]));
        }
        assert(canonical(a@) =~= canonical(b@));
    }
    true
}

} // verus!
