//! Locating an LLM-quoted snippet inside the section text it was taken from.
use vstd::prelude::*;
use crate::text::{
    byte_offset, chars_eq, chars_of, is_whitespace, string_of, to_lowercase, unicode_lowercase,
    unicode_whitespace, utf8_len,
};
use crate::words::{
    join_space, join_with_space, scan_word_spans, slice_chars, split_words, word_spans, words,
    lemma_spans_wf, word_views, join_range,
};

verus! {

/// Whitespace runs collapsed to single spaces, ends trimmed, then lowercased.
pub open spec fn normalize(s: Seq<char>) -> Seq<char> {
    unicode_lowercase(join_space(words(s)))
}

/// The first position at or after `i` where `n` occurs in `h` (`str::find` from `i`).
pub open spec fn find_from(h: Seq<char>, n: Seq<char>, i: int) -> Option<int>
    decreases h.len() + 1 - i,
{
    if i < 0 || i + n.len() > h.len() {
        None
    } else if h.subrange(i, i + n.len()) == n {
        Some(i)
    } else {
        find_from(h, n, i + 1)
    }
}

/// Whether position `s` of `norm` falls inside a word: the character before it is not
/// whitespace.
pub open spec fn starts_mid_word(norm: Seq<char>, s: int) -> bool {
    0 < s <= norm.len() && !unicode_whitespace(norm[s - 1])
}

/// The index of the word of `norm` in which position `s` falls, or which begins at `s`:
/// the number of words before `s`, less one when `s` falls inside a word (that word is
/// counted among those before `s`).
pub open spec fn start_word(norm: Seq<char>, s: int) -> int {
    let pw = words(norm.take(s)).len() as int;
    if starts_mid_word(norm, s) && pw > 0 {
        pw - 1
    } else {
        pw
    }
}

/// The character range of `orig` that holds the words of `norm[s..e]`: the i-th word of
/// the normalized text stands for the i-th word of the original, and the range runs from
/// the word in which the match starts (a match may start inside a word) over as many
/// words as the match touches.
pub open spec fn map_range(orig: Seq<char>, norm: Seq<char>, s: int, e: int) -> Option<(int, int)> {
    let pw = start_word(norm, s);
    let mw = words(norm.subrange(s, e)).len() as int;
    let ow = word_spans(orig);
    if pw + mw > ow.len() || pw + mw == 0 || pw >= ow.len() {
        None
    } else {
        Some((ow[pw].0, ow[pw + mw - 1].1))
    }
}

/// How many of the words `xs` occur among `pw`.
pub open spec fn count_contained(xs: Seq<Seq<char>>, pw: Seq<Seq<char>>) -> nat
    decreases xs.len(),
{
    if xs.len() == 0 {
        0
    } else {
        count_contained(xs.drop_last(), pw) + if pw.contains(xs.last()) { 1nat } else { 0nat }
    }
}

/// How many words of the window of `pw.len()` section words starting at `i` occur in `pw`.
pub open spec fn overlap(sw: Seq<Seq<char>>, pw: Seq<Seq<char>>, i: int) -> nat {
    count_contained(sw.subrange(i, i + pw.len()), pw)
}

/// Among the window starts `0..m`, the one with the largest overlap (the earliest on ties).
pub open spec fn best_window(sw: Seq<Seq<char>>, pw: Seq<Seq<char>>, m: int) -> int
    decreases m,
{
    if m <= 1 {
        0
    } else {
        let b = best_window(sw, pw, m - 1);
        if overlap(sw, pw, m - 1) > overlap(sw, pw, b) {
            m - 1
        } else {
            b
        }
    }
}

/// Maps a found range of the normalized section back to the original, if one was found.
pub open spec fn map_found(orig: Seq<char>, norm: Seq<char>, found: Option<int>, len: int) -> Option<(int, int)> {
    match found {
        Some(st) => map_range(orig, norm, st, st + len),
        None => None,
    }
}

/// The word-overlap fallback: the best window of section words must share at least half
/// of the snippet's words; its text is then located in the normalized section.
pub open spec fn overlap_match(section: Seq<char>, ns: Seq<char>, np: Seq<char>) -> Option<(int, int)> {
    let sw = words(ns);
    let pw = words(np);
    let w = pw.len() as int;
    if w == 0 || sw.len() < w {
        None
    } else {
        let b = best_window(sw, pw, sw.len() - w + 1);
        if 2 * overlap(sw, pw, b) < w {
            None
        } else {
            let wt = join_space(sw.subrange(b, b + w));
            map_found(section, ns, find_from(ns, wt, 0), wt.len() as int)
        }
    }
}

/// The character range of `section` that `snippet` is matched to: an exact match of the
/// normalized snippet in the normalized section first, the word-overlap window otherwise.
pub open spec fn highlight_chars(section: Seq<char>, snippet: Seq<char>) -> Option<(int, int)> {
    if snippet.len() == 0 || section.len() == 0 {
        None
    } else {
        let ns = normalize(section);
        let np = normalize(snippet);
        let exact = map_found(section, ns, find_from(ns, np, 0), np.len() as int);
        if exact is Some {
            exact
        } else {
            overlap_match(section, ns, np)
        }
    }
}

/// The byte range of `section` that `snippet` is matched to.
pub open spec fn highlight_bytes(section: Seq<char>, snippet: Seq<char>) -> Option<(int, int)> {
    match highlight_chars(section, snippet) {
        Some((a, b)) => Some((utf8_len(section.take(a)) as int, utf8_len(section.take(b)) as int)),
        None => None,
    }
}

/// Collapse all whitespace runs to a single space, trim, and lowercase.
fn normalize_whitespace(s: &str) -> (res: String)
    ensures
        res@ == normalize(s@),
{
    let v = chars_of(s);
    let ws = split_words(&v);
    let joined = join_with_space(&ws);
    let js = string_of(&joined);
    to_lowercase(js.as_str())
}

/// The first position at or after `from` where `n` occurs in `h`.
fn find_chars(h: &[char], n: &[char]) -> (res: Option<usize>)
    ensures
        res matches Some(i) ==> find_from(h@, n@, 0) == Some(i as int) && i + n@.len() <= h@.len(),
        res is None ==> find_from(h@, n@, 0) is None,
{
    if n.len() > h.len() {
        return None;
    }
    let last = h.len() - n.len();
    let mut i: usize = 0;
    loop
        invariant
            last == h@.len() - n@.len(),
            n@.len() <= h@.len() <= usize::MAX,
            i <= last,
            find_from(h@, n@, 0) == find_from(h@, n@, i as int),
        decreases last - i,
    {
        let window = slice_chars(h, i, i + n.len());
        if chars_eq(&window, n) {
            return Some(i);
        }
        if i == last {
            assert(find_from(h@, n@, i + 1) is None);
            return None;
        }
        i += 1;
    }
}

/// The number of words in `v[lo..hi]`.
fn count_words(v: &[char], lo: usize, hi: usize) -> (res: usize)
    requires
        lo <= hi <= v@.len(),
    ensures
        res == words(v@.subrange(lo as int, hi as int)).len(),
{
    let part = slice_chars(v, lo, hi);
    let spans = scan_word_spans(&part);
    spans.len()
}

/// Map the character range `[norm_start, norm_end)` of the normalized text back to a
/// character range of the original text.
fn map_normalized_range_to_original(
    original: &[char],
    norm_text: &[char],
    norm_start: usize,
    norm_end: usize,
) -> (res: Option<(usize, usize)>)
    requires
        norm_start <= norm_end <= norm_text@.len(),
    ensures
        res matches Some((a, b)) ==> map_range(original@, norm_text@, norm_start as int, norm_end as int)
            == Some((a as int, b as int)) && a <= original@.len() && b <= original@.len(),
        res is None ==> map_range(original@, norm_text@, norm_start as int, norm_end as int) is None,
{
    let words_before = count_words(norm_text, 0, norm_start);
    assert(norm_text@.subrange(0, norm_start as int) == norm_text@.take(norm_start as int));
    let prefix_word_count = if norm_start > 0 && !is_whitespace(norm_text[norm_start - 1]) && words_before > 0 {
        words_before - 1
    } else {
        words_before
    };
    assert(prefix_word_count == start_word(norm_text@, norm_start as int));
    let match_word_count = count_words(norm_text, norm_start, norm_end);
    let orig_words = scan_word_spans(original);
    proof {
        lemma_spans_wf(original@, original@.len() as int);
    }
    if prefix_word_count > orig_words.len() || match_word_count > orig_words.len() - prefix_word_count {
        return None;
    }
    let end_word_idx = prefix_word_count + match_word_count;
    if end_word_idx == 0 || prefix_word_count >= orig_words.len() {
        return None;
    }
    let orig_start = orig_words[prefix_word_count].0;
    let orig_end = orig_words[end_word_idx - 1].1;
    Some((orig_start, orig_end))
}

/// Each counted word is one of the words looked at.
proof fn lemma_count_contained_le(xs: Seq<Seq<char>>, pw: Seq<Seq<char>>)
    ensures
        count_contained(xs, pw) <= xs.len(),
    decreases xs.len(),
{
    if xs.len() > 0 {
        lemma_count_contained_le(xs.drop_last(), pw);
    }
}

/// Whether `w` is one of the words `pw`.
fn contains_word(pw: &Vec<Vec<char>>, w: &Vec<char>) -> (res: bool)
    ensures
        res == word_views(pw@).contains(w@),
{
    let mut k: usize = 0;
    while k < pw.len()
        invariant
            k <= pw@.len(),
            forall|j: int| 0 <= j < k ==> pw@[j]@ != w@,
        decreases pw@.len() - k,
    {
        if chars_eq(&pw[k], w) {
            assert(word_views(pw@)[k as int] == w@);
            return true;
        }
        k += 1;
    }
    assert forall|j: int| 0 <= j < word_views(pw@).len() implies word_views(pw@)[j] != w@ by {
        assert(word_views(pw@)[j] == pw@[j]@);
    }
    false
}

/// How many of the `pw.len()` section words starting at `i` occur among `pw`.
fn window_overlap(sw: &Vec<Vec<char>>, pw: &Vec<Vec<char>>, i: usize) -> (res: usize)
    requires
        i + pw@.len() <= sw@.len(),
    ensures
        res == overlap(word_views(sw@), word_views(pw@), i as int),
{
    let w = pw.len();
    let sn = sw.len();
    let ghost xs = word_views(sw@).subrange(i as int, i + w);
    let mut count: usize = 0;
    let mut k: usize = 0;
    while k < w
        invariant
            k <= w == pw@.len(),
            i + w <= sw@.len() == sn,
            xs == word_views(sw@).subrange(i as int, i + w),
            count == count_contained(xs.take(k as int), word_views(pw@)),
            count <= k,
        decreases w - k,
    {
        assert(xs.take(k + 1).drop_last() == xs.take(k as int));
        assert(xs.take(k + 1).last() == sw@[i + k]@);
        if contains_word(pw, &sw[i + k]) {
            count += 1;
        }
        k += 1;
    }
    assert(xs.take(w as int) == xs);
    count
}

/// Find the byte range `[start, end)` of `snippet` within `section_text`.
///
/// Both texts are normalized (whitespace collapsed, lowercased); an exact match of the
/// normalized snippet is mapped back to the original words. Otherwise the window of
/// section words with the largest word overlap is taken when it shares at least half
/// of the snippet's words. `None` when neither gives a range.
pub fn find_highlight_range(section_text: &str, snippet: &str) -> (res: Option<(usize, usize)>)
    requires
        utf8_len(section_text@) <= usize::MAX,
    ensures
        match highlight_bytes(section_text@, snippet@) {
            Some((a, b)) => res == Some((a as usize, b as usize)),
            None => res is None,
        },
{
    if snippet.is_empty() || section_text.is_empty() {
        return None;
    }
    let sec = chars_of(section_text);
    let norm_section = normalize_whitespace(section_text);
    let ns = chars_of(norm_section.as_str());
    let norm_snippet = normalize_whitespace(snippet);
    let np = chars_of(norm_snippet.as_str());
    let ns_len = ns.len();
    let np_len = np.len();

    // Strategy 1: exact match on normalized text
    if let Some(norm_start) = find_chars(&ns, &np) {
        let norm_end = norm_start + np.len();
        if let Some((orig_start, orig_end)) = map_normalized_range_to_original(&sec, &ns, norm_start, norm_end) {
            assert(find_from(ns@, np@, 0) == Some(norm_start as int));
            assert(map_found(sec@, ns@, find_from(ns@, np@, 0), np@.len() as int) == Some((orig_start as int, orig_end as int)));
            assert(highlight_chars(section_text@, snippet@) == Some((orig_start as int, orig_end as int)));
            return Some((byte_offset(&sec, orig_start), byte_offset(&sec, orig_end)));
        }
    }

    // Strategy 2: word-overlap sliding window
    let section_words = split_words(&ns);
    let snippet_words = split_words(&np);
    let window = snippet_words.len();
    if window == 0 || section_words.len() < window {
        return None;
    }
    let ghost swv = word_views(section_words@);
    let ghost pwv = word_views(snippet_words@);
    let last = section_words.len() - window;
    let mut best_overlap: usize = 0;
    let mut best_window_start: usize = 0;
    let mut i: usize = 0;
    loop
        invariant_except_break
            i == 0 ==> best_window_start == 0 && best_overlap == 0,
            i > 0 ==> best_window_start == best_window(swv, pwv, i as int)
                && best_overlap == overlap(swv, pwv, best_window_start as int),
        invariant
            window == snippet_words@.len() == pwv.len(),
            last + window == section_words@.len() == swv.len(),
            swv == word_views(section_words@),
            pwv == word_views(snippet_words@),
            i <= last,
            best_window_start <= last,
        ensures
            best_window_start == best_window(swv, pwv, last + 1),
            best_overlap == overlap(swv, pwv, best_window_start as int),
        decreases last - i,
    {
        let ov = window_overlap(&section_words, &snippet_words, i);
        if ov > best_overlap {
            best_overlap = ov;
            best_window_start = i;
        }
        if i == last {
            break;
        }
        i += 1;
    }
    proof {
        lemma_count_contained_le(swv.subrange(best_window_start as int, best_window_start + window), pwv);
    }
    if best_overlap < window - best_overlap {
        return None;
    }
    let window_text = join_range(&section_words, best_window_start, best_window_start + window);
    if let Some(norm_start) = find_chars(&ns, &window_text) {
        let norm_end = norm_start + window_text.len();
        if let Some((orig_start, orig_end)) = map_normalized_range_to_original(&sec, &ns, norm_start, norm_end) {
            return Some((byte_offset(&sec, orig_start), byte_offset(&sec, orig_end)));
        }
    }
    None
}

/// The words of the normalized form of `s`.
pub open spec fn norm_words(s: Seq<char>) -> Seq<Seq<char>> {
    words(normalize(s))
}

/// How many of the `pw.len()` section words starting at `i` are among the snippet words
/// `pw`.
pub open spec fn shared_count(sw: Seq<Seq<char>>, pw: Seq<Seq<char>>, i: int) -> nat {
    sw.subrange(i, i + pw.len()).filter(|x: Seq<char>| pw.contains(x)).len()
}

/// The byte range of the characters `[a, b)` of `section`.
pub open spec fn byte_range(section: Seq<char>, r: Option<(int, int)>) -> Option<(int, int)> {
    match r {
        Some((a, b)) => Some((utf8_len(section.take(a)) as int, utf8_len(section.take(b)) as int)),
        None => None,
    }
}

proof fn lemma_count_contained_filter(xs: Seq<Seq<char>>, pw: Seq<Seq<char>>)
    ensures
        count_contained(xs, pw) == xs.filter(|x: Seq<char>| pw.contains(x)).len(),
    decreases xs.len(),
{
    reveal(Seq::filter);
    if xs.len() > 0 {
        lemma_count_contained_filter(xs.drop_last(), pw);
    }
}

/// `best_window(sw, pw, m)` is the earliest of the windows `0..m` with the largest
/// overlap.
proof fn lemma_best_window_is_earliest_max(sw: Seq<Seq<char>>, pw: Seq<Seq<char>>, m: int)
    requires
        m >= 1,
    ensures
        0 <= best_window(sw, pw, m) < m,
        forall|i: int| 0 <= i < m ==> #[trigger] overlap(sw, pw, i) <= overlap(sw, pw, best_window(sw, pw, m)),
        forall|i: int| 0 <= i < best_window(sw, pw, m) ==> #[trigger] overlap(sw, pw, i) < overlap(sw, pw, best_window(sw, pw, m)),
    decreases m,
{
    if m > 1 {
        lemma_best_window_is_earliest_max(sw, pw, m - 1);
    }
}

/// When the normalized snippet does not occur in the normalized section, the snippet is
/// matched to the window of as many section words as the snippet has that shares the
/// most snippet words (the earliest on ties), provided it shares at least half of them:
/// the result is the range of the first occurrence of that window's text in the
/// normalized section, mapped back to the original words.
pub proof fn lemma_highlight_overlap_window(section: Seq<char>, snippet: Seq<char>, b: int)
    requires
        section.len() > 0,
        snippet.len() > 0,
        find_from(normalize(section), normalize(snippet), 0) is None,
        0 < norm_words(snippet).len() <= norm_words(section).len(),
        0 <= b <= norm_words(section).len() - norm_words(snippet).len(),
        forall|i: int| 0 <= i <= norm_words(section).len() - norm_words(snippet).len()
            ==> #[trigger] shared_count(norm_words(section), norm_words(snippet), i) <= shared_count(norm_words(section), norm_words(snippet), b),
        forall|i: int| 0 <= i < b
            ==> #[trigger] shared_count(norm_words(section), norm_words(snippet), i) < shared_count(norm_words(section), norm_words(snippet), b),
        2 * shared_count(norm_words(section), norm_words(snippet), b) >= norm_words(snippet).len(),
    ensures
        ({
            let ns = normalize(section);
            let wt = join_space(norm_words(section).subrange(b, b + norm_words(snippet).len()));
            highlight_bytes(section, snippet) == byte_range(section, match find_from(ns, wt, 0) {
                Some(st) => map_range(section, ns, st, st + wt.len()),
                None => None,
            })
        }),
{
    let sw = norm_words(section);
    let pw = norm_words(snippet);
    let w = pw.len() as int;
    let m = sw.len() - w + 1;
    lemma_best_window_is_earliest_max(sw, pw, m);
    let bw = best_window(sw, pw, m);
    assert forall|i: int| 0 <= i < m implies #[trigger] overlap(sw, pw, i) == shared_count(sw, pw, i) by {
        lemma_count_contained_filter(sw.subrange(i, i + w), pw);
    }
    if bw < b {
        assert(shared_count(sw, pw, bw) < shared_count(sw, pw, b));
        assert(overlap(sw, pw, b) <= overlap(sw, pw, bw));
    } else if b < bw {
        assert(overlap(sw, pw, b) < overlap(sw, pw, bw));
        assert(shared_count(sw, pw, bw) <= shared_count(sw, pw, b));
    }
    assert(bw == b);
}

/// When the normalized snippet does not occur in the normalized section and no window of
/// section words shares at least half of the snippet's words, nothing is highlighted.
pub proof fn lemma_highlight_too_little_overlap(section: Seq<char>, snippet: Seq<char>)
    requires
        find_from(normalize(section), normalize(snippet), 0) is None,
        forall|i: int| 0 <= i <= norm_words(section).len() - norm_words(snippet).len()
            ==> 2 * #[trigger] shared_count(norm_words(section), norm_words(snippet), i) < norm_words(snippet).len(),
    ensures
        highlight_bytes(section, snippet) is None,
{
    let sw = norm_words(section);
    let pw = norm_words(snippet);
    let w = pw.len() as int;
    if section.len() > 0 && snippet.len() > 0 && w > 0 && sw.len() >= w {
        let m = sw.len() - w + 1;
        lemma_best_window_is_earliest_max(sw, pw, m);
        let bw = best_window(sw, pw, m);
        lemma_count_contained_filter(sw.subrange(bw, bw + w), pw);
        assert(2 * shared_count(sw, pw, bw) < w);
        assert(overlap(sw, pw, bw) == shared_count(sw, pw, bw));
        assert(overlap_match(section, normalize(section), normalize(snippet)) is None);
    }
}

/// Where the normalized snippet occurs in the normalized section, its first occurrence is
/// highlighted, mapped back to the original words, when that mapping gives a range.
pub proof fn lemma_highlight_exact(section: Seq<char>, snippet: Seq<char>)
    requires
        section.len() > 0,
        snippet.len() > 0,
        find_from(normalize(section), normalize(snippet), 0) is Some,
        map_range(section, normalize(section), find_from(normalize(section), normalize(snippet), 0)->0,
            find_from(normalize(section), normalize(snippet), 0)->0 + normalize(snippet).len()) is Some,
    ensures
        highlight_bytes(section, snippet) == byte_range(section, map_range(section, normalize(section),
            find_from(normalize(section), normalize(snippet), 0)->0,
            find_from(normalize(section), normalize(snippet), 0)->0 + normalize(snippet).len())),
{
}

} // verus!
