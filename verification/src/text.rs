//! Character-level matching on names: substring and suffix tests, and
//! membership of a name in a list of names.
//!
//! Package names are matched literally and case-sensitively, so these are
//! plain positional comparisons over the character sequences.

use vstd::prelude::*;
use vstd::string::*;

verus! {

/// `q` occurs in `s` starting at position `i`.
pub open spec fn occurs_at(s: Seq<char>, q: Seq<char>, i: int) -> bool {
    0 <= i && i + q.len() <= s.len() && s.subrange(i, i + q.len()) == q
}

/// `q` occurs somewhere in `s` (every string contains the empty string).
pub open spec fn is_substring(q: Seq<char>, s: Seq<char>) -> bool {
    exists|i: int| occurs_at(s, q, i)
}

/// `s` ends with `suf`.
pub open spec fn has_suffix(s: Seq<char>, suf: Seq<char>) -> bool {
    suf.len() <= s.len() && occurs_at(s, suf, s.len() - suf.len())
}

fn match_here(s: &str, q: &str, i: usize) -> (r: bool)
    requires
        i + q@.len() <= s@.len(),
        s@.len() <= usize::MAX,
    ensures
        r == occurs_at(s@, q@, i as int),
{
    let m = q.unicode_len();
    let mut j: usize = 0;
    while j < m
        invariant
            j <= m,
            m == q@.len(),
            i + m <= s@.len(),
            s@.len() <= usize::MAX,
            forall|k: int| 0 <= k < j ==> s@[i + k] == q@[k],
        decreases m - j,
    {
        if s.get_char(i + j) != q.get_char(j) {
            assert(s@.subrange(i as int, i + m) != q@) by {
                assert(s@.subrange(i as int, i + m)[j as int] == s@[i + j]);
            }
            return false;
        }
        j += 1;
    }
    assert(s@.subrange(i as int, i + m) =~= q@);
    true
}

/// Whether `q` is a (case-sensitive) substring of `s`.
pub fn contains_substr(s: &str, q: &str) -> (r: bool)
    ensures
        r == is_substring(q@, s@),
{
    let n = s.unicode_len();
    let m = q.unicode_len();
    if m == 0 {
        assert(occurs_at(s@, q@, 0)) by {
            assert(s@.subrange(0, 0) =~= q@);
        }
        return true;
    }
    if m > n {
        assert(forall|k: int| !occurs_at(s@, q@, k));
        return false;
    }
    let mut i: usize = 0;
    while i <= n - m
        invariant
            0 < m <= n,
            m == q@.len(),
            n == s@.len(),
            i <= n - m + 1,
            forall|k: int| 0 <= k < i ==> !occurs_at(s@, q@, k),
        decreases n - i,
    {
        if match_here(s, q, i) {
            return true;
        }
        i += 1;
    }
    assert(forall|k: int| !occurs_at(s@, q@, k)) by {
        assert(forall|k: int| k > n - m ==> !occurs_at(s@, q@, k));
    }
    false
}

/// Whether `s` ends with `suf`.
pub fn ends_with_str(s: &str, suf: &str) -> (r: bool)
    ensures
        r == has_suffix(s@, suf@),
{
    let n = s.unicode_len();
    let m = suf.unicode_len();
    if m > n {
        return false;
    }
    match_here(s, suf, n - m)
}

/// Whether some element of `v` has the same characters as `x`.
pub fn contains_string(v: &Vec<String>, x: &String) -> (r: bool)
    ensures
        r == v.deep_view().contains(x@),
{
    let mut k: usize = 0;
    while k < v.len()
        invariant
            k <= v@.len(),
            forall|j: int| 0 <= j < k ==> v.deep_view()[j] != x@,
        decreases v@.len() - k,
    {
        if v[k].eq(x) {
            assert(v.deep_view()[k as int] == x@);
            return true;
        }
        k += 1;
    }
    assert(forall|j: int| 0 <= j < v.deep_view().len() ==> v.deep_view()[j] != x@);
    false
}

} // verus!
