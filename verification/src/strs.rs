//! Trimming, joining and searching character sequences.
use vstd::prelude::*;
use crate::text::{chars_of, is_whitespace, unicode_whitespace};
use crate::words::slice_chars;
use crate::text::chars_eq;

verus! {

/// `s` without its leading whitespace (`str::trim_start`).
pub open spec fn trim_start(s: Seq<char>) -> Seq<char>
    decreases s.len(),
{
    if s.len() > 0 && unicode_whitespace(s[0]) {
        trim_start(s.drop_first())
    } else {
        s
    }
}

/// `s` without its trailing whitespace (`str::trim_end`).
pub open spec fn trim_end(s: Seq<char>) -> Seq<char>
    decreases s.len(),
{
    if s.len() > 0 && unicode_whitespace(s.last()) {
        trim_end(s.drop_last())
    } else {
        s
    }
}

/// `s` without leading and trailing whitespace (`str::trim`).
pub open spec fn trim(s: Seq<char>) -> Seq<char> {
    trim_end(trim_start(s))
}

/// The parts joined with `sep` between them (`join(sep)`).
pub open spec fn join_with(parts: Seq<Seq<char>>, sep: Seq<char>) -> Seq<char>
    decreases parts.len(),
{
    if parts.len() == 0 {
        Seq::empty()
    } else if parts.len() == 1 {
        parts[0]
    } else {
        join_with(parts.drop_last(), sep) + sep + parts.last()
    }
}

/// The first position at or after `i` where `n` occurs in `h`.
pub open spec fn find_seq(h: Seq<char>, n: Seq<char>, i: int) -> Option<int>
    decreases h.len() + 1 - i,
{
    if i < 0 || i + n.len() > h.len() {
        None
    } else if h.subrange(i, i + n.len()) == n {
        Some(i)
    } else {
        find_seq(h, n, i + 1)
    }
}

/// `n` occurs in `h` (`str::contains`).
pub open spec fn contains_seq(h: Seq<char>, n: Seq<char>) -> bool {
    find_seq(h, n, 0) is Some
}

/// A position found by `find_seq` is an occurrence at or after `i`.
pub proof fn lemma_find_seq_found(h: Seq<char>, n: Seq<char>, i: int)
    ensures
        find_seq(h, n, i) matches Some(j) ==> i <= j && j + n.len() <= h.len() && h.subrange(j, j + n.len()) == n,
    decreases h.len() + 1 - i,
{
    if !(i < 0 || i + n.len() > h.len()) && h.subrange(i, i + n.len()) != n {
        lemma_find_seq_found(h, n, i + 1);
    }
}

/// An occurrence of `n` at `j` is found by `find_seq` from any `i` with `0 <= i <= j`.
pub proof fn lemma_find_seq_reaches(h: Seq<char>, n: Seq<char>, i: int, j: int)
    requires
        0 <= i <= j,
        j + n.len() <= h.len(),
        h.subrange(j, j + n.len()) == n,
    ensures
        find_seq(h, n, i) is Some,
    decreases j - i,
{
    if h.subrange(i, i + n.len()) != n {
        lemma_find_seq_reaches(h, n, i + 1, j);
    }
}

/// Where `n` occurs in `h`, so does every prefix of `n`.
pub proof fn lemma_contains_prefix(h: Seq<char>, n: Seq<char>, m: int)
    requires
        contains_seq(h, n),
        0 <= m <= n.len(),
    ensures
        contains_seq(h, n.take(m)),
{
    lemma_find_seq_found(h, n, 0);
    let j = find_seq(h, n, 0)->0;
    assert(h.subrange(j, j + m) =~= n.take(m));
    lemma_find_seq_reaches(h, n.take(m), 0, j);
}

/// The characters `v[lo..hi]` with leading and trailing whitespace removed, as the
/// range `(a, b)` of `v` they occupy.
pub fn trim_range(v: &[char], lo: usize, hi: usize) -> (res: (usize, usize))
    requires
        lo <= hi <= v@.len(),
    ensures
        lo <= res.0 <= res.1 <= hi,
        v@.subrange(res.0 as int, res.1 as int) == trim(v@.subrange(lo as int, hi as int)),
{
    let mut a = lo;
    while a < hi && is_whitespace(v[a])
        invariant
            lo <= a <= hi <= v@.len(),
            trim_start(v@.subrange(lo as int, hi as int)) == trim_start(v@.subrange(a as int, hi as int)),
        decreases hi - a,
    {
        assert(v@.subrange(a as int, hi as int).drop_first() == v@.subrange(a + 1, hi as int));
        a += 1;
    }
    let mut b = hi;
    while b > a && is_whitespace(v[b - 1])
        invariant
            lo <= a <= b <= hi <= v@.len(),
            trim_end(v@.subrange(a as int, hi as int)) == trim_end(v@.subrange(a as int, b as int)),
        decreases b - a,
    {
        assert(v@.subrange(a as int, b as int).drop_last() == v@.subrange(a as int, b - 1));
        b -= 1;
    }
    (a, b)
}

/// `s` with leading and trailing whitespace removed, as characters.
pub fn trim_chars(v: &[char]) -> (res: Vec<char>)
    ensures
        res@ == trim(v@),
{
    let (a, b) = trim_range(v, 0, v.len());
    assert(v@.subrange(0, v@.len() as int) == v@);
    slice_chars(v, a, b)
}

/// Appends the characters of `w` to `out`.
pub fn append_chars(out: &mut Vec<char>, w: &[char])
    ensures
        final(out)@ == old(out)@ + w@,
{
    let mut j: usize = 0;
    while j < w.len()
        invariant
            j <= w@.len(),
            out@ == old(out)@ + w@.take(j as int),
        decreases w@.len() - j,
    {
        out.push(w[j]);
        assert(w@.take(j + 1) == w@.take(j as int).push(w@[j as int]));
        j += 1;
    }
    assert(w@.take(w@.len() as int) == w@);
}

/// The parts joined with `sep` between them.
pub fn join_parts(parts: &Vec<Vec<char>>, sep: &[char]) -> (res: Vec<char>)
    ensures
        res@ == join_with(parts@.map_values(|w: Vec<char>| w@), sep@),
{
    let ghost pv = parts@.map_values(|w: Vec<char>| w@);
    let mut res: Vec<char> = Vec::new();
    let mut k: usize = 0;
    while k < parts.len()
        invariant
            k <= parts@.len(),
            pv == parts@.map_values(|w: Vec<char>| w@),
            res@ == join_with(pv.take(k as int), sep@),
        decreases parts@.len() - k,
    {
        assert(pv.take(k + 1).drop_last() == pv.take(k as int));
        if k > 0 {
            append_chars(&mut res, sep);
        }
        append_chars(&mut res, &parts[k]);
        k += 1;
    }
    assert(pv.take(parts@.len() as int) == pv);
    res
}

/// The first position where `n` occurs in `h`.
pub fn find_in(h: &[char], n: &[char]) -> (res: Option<usize>)
    ensures
        res matches Some(i) ==> find_seq(h@, n@, 0) == Some(i as int) && i + n@.len() <= h@.len(),
        res is None ==> find_seq(h@, n@, 0) is None,
{
    if n.len() > h.len() {
        return None;
    }
    let last = h.len() - n.len();
    let mut i: usize = 0;
    loop
        invariant
            last == h@.len() - n@.len(),
            n@.len() <= h@.len() <= usize::MAX,
            i <= last,
            find_seq(h@, n@, 0) == find_seq(h@, n@, i as int),
        decreases last - i,
    {
        let window = slice_chars(h, i, i + n.len());
        if chars_eq(&window, n) {
            return Some(i);
        }
        if i == last {
            assert(find_seq(h@, n@, i + 1) is None);
            return None;
        }
        i += 1;
    }
}

/// `needle` occurs in `h`.
pub fn contains_str(h: &[char], needle: &str) -> (res: bool)
    ensures
        res == contains_seq(h@, needle@),
{
    let n = chars_of(needle);
    find_in(h, &n).is_some()
}

} // verus!
