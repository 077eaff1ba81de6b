//! Paper identifiers: version suffixes and record keys.
use vstd::prelude::*;
use crate::text::{ascii_digit, chars_of, is_ascii_digit, string_of_range};

verus! {

/// `d` is a non-empty run of ASCII digits.
pub open spec fn is_digit_run(d: Seq<char>) -> bool {
    d.len() > 0 && forall|k: int| 0 <= k < d.len() ==> is_ascii_digit(#[trigger] d[k])
}

/// `s` ends in a version suffix starting at index `p`: a `v` followed by digits only.
pub open spec fn version_suffix_at(s: Seq<char>, p: int) -> bool {
    0 <= p < s.len() && s[p] == 'v' && is_digit_run(s.skip(p + 1))
}

/// The identifier with a trailing `v<digits>` version suffix removed, if it has one.
pub open spec fn strip_version(s: Seq<char>) -> Seq<char> {
    if exists|p: int| version_suffix_at(s, p) {
        s.take(choose|p: int| version_suffix_at(s, p))
    } else {
        s
    }
}

/// A version suffix, where there is one, starts at a single place.
pub proof fn lemma_version_suffix_unique(s: Seq<char>, p: int, q: int)
    requires
        version_suffix_at(s, p),
        version_suffix_at(s, q),
    ensures
        p == q,
{
    if p < q {
        assert(s.skip(p + 1)[q - p - 1] == s[q]);
    } else if q < p {
        assert(s.skip(q + 1)[p - q - 1] == s[p]);
    }
}

/// Removes a trailing arXiv version suffix: `"2301.12345v2"` becomes `"2301.12345"`.
/// An identifier without one comes back unchanged.
pub fn strip_version_suffix(id: &str) -> (res: String)
    ensures
        res@ == strip_version(id@),
{
    let v = chars_of(id);
    let n = v.len();
    // start of the trailing run of digits
    let mut i = n;
    while i > 0 && ascii_digit(v[i - 1])
        invariant
            i <= n == v@.len(),
            v@ == id@,
            forall|k: int| i <= k < n ==> is_ascii_digit(#[trigger] v@[k]),
        decreases i,
    {
        i -= 1;
    }
    if i < n && i >= 1 && v[i - 1] == 'v' {
        proof {
            let p = (i - 1) as int;
            assert(version_suffix_at(id@, p)) by {
                assert forall|k: int| 0 <= k < id@.skip(p + 1).len() implies is_ascii_digit(
                    #[trigger] id@.skip(p + 1)[k],
                ) by {
                    assert(id@.skip(p + 1)[k] == v@[p + 1 + k]);
                }
            }
            let q = choose|q: int| version_suffix_at(id@, q);
            lemma_version_suffix_unique(id@, p, q);
        }
        string_of_range(&v, 0, i - 1)
    } else {
        proof {
            if exists|p: int| version_suffix_at(id@, p) {
                let p = choose|p: int| version_suffix_at(id@, p);
                if p + 1 < i {
                    assert(id@.skip(p + 1)[i - 1 - (p + 1)] == v@[i - 1]);
                } else if p + 1 > i {
                    assert(id@.skip(p + 1)[0] == v@[p + 1]);
                    assert(v@[p] == 'v');
                } else {
                    assert(id@.skip(p + 1).len() > 0);
                }
            }
        }
        string_of_range(&v, 0, n)
    }
}

} // verus!
