//! Whitespace-separated words, the way `str::split_whitespace` sees them.
use vstd::prelude::*;
use crate::text::{is_whitespace, unicode_whitespace};

verus! {

/// The spans `[start, end)` of the words among the first `n` characters of `s`:
/// maximal runs of characters that are not whitespace.
pub open spec fn spans_prefix(s: Seq<char>, n: int) -> Seq<(int, int)>
    decreases n,
{
    if n <= 0 {
        Seq::empty()
    } else {
        let prev = spans_prefix(s, n - 1);
        if unicode_whitespace(s[n - 1]) {
            prev
        } else if n - 1 == 0 || unicode_whitespace(s[n - 2]) {
            prev.push((n - 1, n))
        } else {
            prev.update(prev.len() - 1, (prev.last().0, n))
        }
    }
}

/// The spans of the words of `s`.
pub open spec fn word_spans(s: Seq<char>) -> Seq<(int, int)> {
    spans_prefix(s, s.len() as int)
}

/// The words of `s`, in order (`split_whitespace`).
pub open spec fn words(s: Seq<char>) -> Seq<Seq<char>> {
    word_spans(s).map_values(|p: (int, int)| s.subrange(p.0, p.1))
}

/// The words `ws` joined with single spaces (`join(" ")`).
pub open spec fn join_space(ws: Seq<Seq<char>>) -> Seq<char>
    decreases ws.len(),
{
    if ws.len() == 0 {
        Seq::empty()
    } else if ws.len() == 1 {
        ws[0]
    } else {
        join_space(ws.drop_last()) + seq![' '] + ws.last()
    }
}

/// Well-formedness of the spans of a prefix: ordered, non-empty, inside the prefix,
/// and the last one reaches the prefix end exactly when the last character is a word character.
pub open spec fn spans_wf(s: Seq<char>, n: int, sp: Seq<(int, int)>) -> bool {
    &&& forall|k: int| 0 <= k < sp.len() ==> 0 <= (#[trigger] sp[k]).0 < sp[k].1 <= n
    &&& forall|k: int| 0 <= k < sp.len() - 1 ==> (#[trigger] sp[k]).1 < sp[k + 1].0
    &&& n > 0 && !unicode_whitespace(s[n - 1]) ==> sp.len() > 0 && sp.last().1 == n
    &&& n > 0 && unicode_whitespace(s[n - 1]) ==> sp.len() == 0 || sp.last().1 < n
}

pub proof fn lemma_spans_wf(s: Seq<char>, n: int)
    requires
        0 <= n <= s.len(),
    ensures
        spans_wf(s, n, spans_prefix(s, n)),
        n > 0 && !unicode_whitespace(s[n - 1]) ==> spans_prefix(s, n).len() > 0
            && spans_prefix(s, n).last().1 == n,
        forall|k: int| 0 <= k < spans_prefix(s, n).len() ==> (#[trigger] spans_prefix(s, n)[k]).1 <= n,
    decreases n,
{
    if n > 0 {
        lemma_spans_wf(s, n - 1);
    }
}

/// `sp` (machine pairs) lists the same spans as `sq`.
pub open spec fn same_spans(sp: Seq<(usize, usize)>, sq: Seq<(int, int)>) -> bool {
    &&& sp.len() == sq.len()
    &&& forall|k: int| 0 <= k < sp.len() ==> (#[trigger] sp[k]).0 == sq[k].0 && sp[k].1 == sq[k].1
}

/// The spans of the words of `v`.
pub fn scan_word_spans(v: &[char]) -> (res: Vec<(usize, usize)>)
    ensures
        same_spans(res@, word_spans(v@)),
{
    let n = v.len();
    let mut res: Vec<(usize, usize)> = Vec::new();
    let mut i: usize = 0;
    while i < n
        invariant
            i <= n == v@.len(),
            same_spans(res@, spans_prefix(v@, i as int)),
        decreases n - i,
    {
        proof {
            lemma_spans_wf(v@, i as int);
        }
        if is_whitespace(v[i]) {
        } else if i == 0 || is_whitespace(v[i - 1]) {
            res.push((i, i + 1));
        } else {
            let last = res.len() - 1;
            let start = res[last].0;
            res.set(last, (start, i + 1));
        }
        i += 1;
    }
    res
}

/// The characters `v[lo..hi]` as a vector.
pub fn slice_chars(v: &[char], lo: usize, hi: usize) -> (res: Vec<char>)
    requires
        lo <= hi <= v@.len(),
    ensures
        res@ == v@.subrange(lo as int, hi as int),
{
    let mut res: Vec<char> = Vec::new();
    let mut i = lo;
    while i < hi
        invariant
            lo <= i <= hi <= v@.len(),
            res@ == v@.subrange(lo as int, i as int),
        decreases hi - i,
    {
        res.push(v[i]);
        assert(v@.subrange(lo as int, i + 1) == v@.subrange(lo as int, i as int).push(v@[i as int]));
        i += 1;
    }
    res
}

/// The words of `v`, in order.
pub fn split_words(v: &[char]) -> (res: Vec<Vec<char>>)
    ensures
        word_views(res@) == words(v@),
{
    let spans = scan_word_spans(v);
    proof {
        lemma_spans_wf(v@, v@.len() as int);
    }
    let mut res: Vec<Vec<char>> = Vec::new();
    let mut k: usize = 0;
    while k < spans.len()
        invariant
            k <= spans@.len(),
            same_spans(spans@, word_spans(v@)),
            spans_wf(v@, v@.len() as int, word_spans(v@)),
            res@.len() == k,
            forall|j: int| 0 <= j < k ==> (#[trigger] res@[j])@ == words(v@)[j],
        decreases spans@.len() - k,
    {
        let (a, b) = spans[k];
        let w = slice_chars(v, a, b);
        res.push(w);
        k += 1;
    }
    assert(word_views(res@) =~= words(v@));
    res
}

/// The views of a vector of words.
pub open spec fn word_views(ws: Seq<Vec<char>>) -> Seq<Seq<char>> {
    ws.map_values(|w: Vec<char>| w@)
}

/// The words `ws[lo..hi]` joined with single spaces.
pub fn join_range(ws: &Vec<Vec<char>>, lo: usize, hi: usize) -> (res: Vec<char>)
    requires
        lo <= hi <= ws@.len(),
    ensures
        res@ == join_space(word_views(ws@).subrange(lo as int, hi as int)),
{
    let mut res: Vec<char> = Vec::new();
    let ghost wv = word_views(ws@);
    let mut k: usize = lo;
    while k < hi
        invariant
            lo <= k <= hi <= ws@.len(),
            wv == word_views(ws@),
            res@ == join_space(wv.subrange(lo as int, k as int)),
        decreases hi - k,
    {
        assert(wv.subrange(lo as int, k + 1).drop_last() == wv.subrange(lo as int, k as int));
        if k > lo {
            res.push(' ');
        }
        let w = &ws[k];
        let mut j: usize = 0;
        let ghost before = res@;
        while j < w.len()
            invariant
                j <= w@.len(),
                res@ == before + w@.take(j as int),
            decreases w@.len() - j,
        {
            res.push(w[j]);
            assert(w@.take(j + 1) == w@.take(j as int).push(w@[j as int]));
            j += 1;
        }
        assert(w@.take(w@.len() as int) == w@);
        k += 1;
    }
    res
}

/// The words `ws` joined with single spaces.
pub fn join_with_space(ws: &Vec<Vec<char>>) -> (res: Vec<char>)
    ensures
        res@ == join_space(word_views(ws@)),
{
    let res = join_range(ws, 0, ws.len());
    assert(word_views(ws@).subrange(0, ws@.len() as int) == word_views(ws@));
    res
}

} // verus!
