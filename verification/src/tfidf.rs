//! Text preprocessing for TF-IDF (tokens and stop words) and the corpus fingerprint.
use vstd::prelude::*;
use sha2::Digest;
use crate::contradiction::strings_view;
use crate::order::{lemma_lex_irreflexive, lemma_lex_total, lemma_lex_transitive, lex_less, lex_lt};
use crate::strs::{join_parts, join_with};
use crate::text::{
    chars_eq, checked_utf8_length, chars_of, is_alphanumeric, string_of, to_lowercase, unicode_alphanumeric,
    unicode_lowercase, utf8_len,
};
use crate::words::word_views;

verus! {

/// The SHA-256 digest of the UTF-8 bytes of `text`, written as lowercase hexadecimal.
pub uninterp spec fn sha256_hex(text: Seq<char>) -> Seq<char>;

/// `s` is 64 lowercase hexadecimal digits (`0`..=`9`, `a`..=`f`).
pub open spec fn is_hex64(s: Seq<char>) -> bool {
    &&& s.len() == 64
    &&& forall|i: int| 0 <= i < s.len() ==> ('0' <= #[trigger] s[i] && s[i] <= '9') || ('a' <= s[i] && s[i] <= 'f')
}

/// Hashes the UTF-8 bytes of `text` with `sha2::Sha256::digest` and formats the digest
/// with `{:x}`. The contract names the result, and states its form: the digest has 32
/// bytes and `{:x}` writes each as two lowercase hex digits. Nothing about SHA-256 itself
/// is stated.
#[verifier::external_body]
fn sha256_hex_digest(text: &str) -> (res: String)
    ensures
        res@ == sha256_hex(text@),
        is_hex64(res@),
{
    format!("{:x}", sha2::Sha256::digest(text.as_bytes()))
}

/// `s` is in non-decreasing code-point order.
pub open spec fn strings_sorted(s: Seq<Seq<char>>) -> bool {
    forall|i: int, j: int| 0 <= i < j < s.len() ==> !lex_lt(#[trigger] s[j], #[trigger] s[i])
}

/// The strings of `ids` in non-decreasing order.
pub open spec fn sorted_strings(ids: Seq<Seq<char>>) -> Seq<Seq<char>> {
    choose|s: Seq<Seq<char>>| strings_sorted(s) && s.to_multiset() == ids.to_multiset()
}

/// The fingerprint of a corpus with the paper ids `ids`: the SHA-256 hex digest of the
/// sorted ids joined with commas.
pub open spec fn fingerprint_of(ids: Seq<Seq<char>>) -> Seq<char> {
    sha256_hex(join_with(sorted_strings(ids), ","@))
}

/// Two sorted sequences holding the same strings are equal.
pub proof fn lemma_sorted_unique(a: Seq<Seq<char>>, b: Seq<Seq<char>>)
    requires
        strings_sorted(a),
        strings_sorted(b),
        a.to_multiset() == b.to_multiset(),
    ensures
        a == b,
    decreases a.len(),
{
    broadcast use vstd::seq_lib::to_multiset_len, vstd::seq_lib::to_multiset_contains, vstd::seq_lib::to_multiset_remove;
    assert(a.len() == a.to_multiset().len());
    assert(b.len() == b.to_multiset().len());
    if a.len() == 0 {
        assert(a =~= b);
    } else {
        assert(a.contains(a[0]));
        assert(a.to_multiset().count(a[0]) > 0);
        assert(b.contains(a[0]));
        let j = choose|j: int| 0 <= j < b.len() && b[j] == a[0];
        assert(b.contains(b[0]));
        assert(b.to_multiset().count(b[0]) > 0);
        assert(a.contains(b[0]));
        let i = choose|i: int| 0 <= i < a.len() && a[i] == b[0];
        if j > 0 {
            assert(!lex_lt(b[j], b[0]));
        }
        if i > 0 {
            assert(!lex_lt(a[i], a[0]));
        }
        lemma_lex_irreflexive(a[0]);
        lemma_lex_total(a[0], b[0]);
        assert(a[0] == b[0]);
        assert(a.remove(0) =~= a.drop_first());
        assert(b.remove(0) =~= b.drop_first());
        assert(a.remove(0).to_multiset() == a.to_multiset().remove(a[0]));
        assert(b.remove(0).to_multiset() == b.to_multiset().remove(b[0]));
        lemma_sorted_unique(a.drop_first(), b.drop_first());
        assert(a =~= seq![a[0]] + a.drop_first());
        assert(b =~= seq![b[0]] + b.drop_first());
    }
}

/// Inserts `x` into the sorted `s` after every string not above it.
fn insert_sorted_string(s: &mut Vec<Vec<char>>, x: Vec<char>)
    requires
        strings_sorted(word_views(old(s)@)),
    ensures
        strings_sorted(word_views(final(s)@)),
        word_views(final(s)@).to_multiset() == word_views(old(s)@).to_multiset().insert(x@),
{
    let ghost v0 = word_views(s@);
    let mut j: usize = 0;
    while j < s.len() && !lex_less(&x, &s[j])
        invariant
            j <= s@.len(),
            s@ == old(s)@,
            v0 == word_views(s@),
            forall|k: int| 0 <= k < j ==> !lex_lt(x@, #[trigger] v0[k]),
        decreases s@.len() - j,
    {
        j += 1;
    }
    let ghost xv = x@;
    s.insert(j, x);
    let ghost v1 = word_views(s@);
    assert(v1 =~= v0.insert(j as int, xv));
    assert forall|k: int, l: int| 0 <= k < l < v1.len() implies !lex_lt(#[trigger] v1[l], #[trigger] v1[k]) by {
        if k < j && l == j {
            lemma_lex_total(xv, v0[k]);
        } else if k < j && l > j {
            assert(!lex_lt(v0[l - 1], v0[k]));
        } else if k == j && l > j {
            // v0[j] is above x, and v0[l - 1] is not below v0[j]
            lemma_lex_total(xv, v0[l - 1]);
            if lex_lt(v0[l - 1], xv) {
                if l - 1 > j {
                    assert(!lex_lt(v0[l - 1], v0[j as int]));
                    lemma_lex_total(v0[l - 1], v0[j as int]);
                    if v0[l - 1] != v0[j as int] {
                        lemma_lex_transitive(v0[j as int], v0[l - 1], xv);
                    }
                }
                lemma_lex_total(v0[j as int], xv);
            }
        } else if k > j {
            assert(!lex_lt(v0[l - 1], v0[k - 1]));
        }
    }
    proof {
        vstd::seq_lib::to_multiset_insert(v0, j as int, xv);
    }
}

/// The views of `ids` in non-decreasing order.
pub fn sort_strings(ids: &[String]) -> (res: Vec<Vec<char>>)
    ensures
        strings_sorted(word_views(res@)),
        word_views(res@).to_multiset() == strings_view(ids@).to_multiset(),
{
    let mut res: Vec<Vec<char>> = Vec::new();
    let ghost iv = strings_view(ids@);
    let mut i: usize = 0;
    assert(word_views(res@) =~= iv.take(0));
    while i < ids.len()
        invariant
            i <= ids@.len(),
            iv == strings_view(ids@),
            strings_sorted(word_views(res@)),
            word_views(res@).to_multiset() == iv.take(i as int).to_multiset(),
        decreases ids@.len() - i,
    {
        let x = chars_of(ids[i].as_str());
        assert(iv.take(i + 1) =~= iv.take(i as int).push(x@));
        proof {
            vstd::seq_lib::to_multiset_build(iv.take(i as int), x@);
        }
        insert_sorted_string(&mut res, x);
        i += 1;
    }
    assert(iv.take(i as int) =~= iv);
    res
}

/// The fingerprint of a corpus: the SHA-256 hex digest of its paper ids, sorted and
/// joined with commas. It does not depend on the order of the ids.
pub fn corpus_fingerprint(arxiv_ids: &[String]) -> (res: String)
    ensures
        res@ == fingerprint_of(strings_view(arxiv_ids@)),
        is_hex64(res@),
{
    let sorted = sort_strings(arxiv_ids);
    proof {
        let iv = strings_view(arxiv_ids@);
        let s = word_views(sorted@);
        let c = sorted_strings(iv);
        assert(strings_sorted(c) && c.to_multiset() == iv.to_multiset());
        lemma_sorted_unique(s, c);
    }
    let joined = join_parts(&sorted, &chars_of(","));
    let text = string_of(&joined);
    sha256_hex_digest(text.as_str())
}

/// The fingerprint depends only on which ids the corpus holds, not on their order.
pub proof fn lemma_fingerprint_order_independent(a: Seq<Seq<char>>, b: Seq<Seq<char>>)
    requires
        a.to_multiset() == b.to_multiset(),
    ensures
        fingerprint_of(a) == fingerprint_of(b),
{
}

/// The pieces of `s` between its non-alphanumeric characters
/// (`split(|c| !c.is_alphanumeric())`), empty pieces included.
pub open spec fn alnum_pieces(s: Seq<char>) -> Seq<Seq<char>>
    decreases s.len(),
{
    if s.len() == 0 {
        seq![Seq::empty()]
    } else {
        let p = alnum_pieces(s.drop_last());
        if !unicode_alphanumeric(s.last()) {
            p.push(Seq::empty())
        } else {
            p.update(p.len() - 1, p.last().push(s.last()))
        }
    }
}

/// The pieces of `ps` longer than two bytes, in order.
pub open spec fn long_pieces(ps: Seq<Seq<char>>) -> Seq<Seq<char>>
    decreases ps.len(),
{
    if ps.len() == 0 {
        Seq::empty()
    } else {
        long_pieces(ps.drop_last()) + if utf8_len(ps.last()) > 2 { seq![ps.last()] } else { Seq::empty() }
    }
}

/// The tokens of `text`: its alphanumeric pieces longer than two bytes, lowercased.
pub open spec fn tokens_of(text: Seq<char>) -> Seq<Seq<char>> {
    long_pieces(alnum_pieces(text)).map_values(|w: Seq<char>| unicode_lowercase(w))
}

/// Appends the lowercased piece `cur` to `tokens` where it is longer than two bytes.
fn push_long_piece(tokens: &mut Vec<String>, cur: &Vec<char>)
    ensures
        strings_view(final(tokens)@) == strings_view(old(tokens)@) + if utf8_len(cur@) > 2 {
            seq![unicode_lowercase(cur@)]
        } else {
            Seq::empty()
        },
{
    let long = match checked_utf8_length(cur) {
        Some(n) => n > 2,
        None => true,
    };
    if long {
        let piece = string_of(cur);
        let lower = to_lowercase(piece.as_str());
        let ghost t0 = tokens@;
        tokens.push(lower);
        assert(strings_view(tokens@) =~= strings_view(t0).push(unicode_lowercase(cur@)));
    } else {
        assert(strings_view(tokens@) =~= strings_view(tokens@) + Seq::<Seq<char>>::empty());
    }
}

/// The lowercase tokens of `text`: its runs of alphanumeric characters longer than two
/// bytes.
pub fn tokenize(text: &str) -> (res: Vec<String>)
    ensures
        strings_view(res@) == tokens_of(text@),
{
    let v = chars_of(text);
    let mut tokens: Vec<String> = Vec::new();
    let mut cur: Vec<char> = Vec::new();
    let ghost mut done: Seq<Seq<char>> = Seq::empty();
    let mut i: usize = 0;
    assert(v@.take(0) =~= Seq::<char>::empty());
    assert(alnum_pieces(Seq::<char>::empty()) =~= done.push(cur@));
    while i < v.len()
        invariant
            i <= v@.len(),
            v@ == text@,
            alnum_pieces(v@.take(i as int)) == done.push(cur@),
            strings_view(tokens@) == long_pieces(done).map_values(|w: Seq<char>| unicode_lowercase(w)),
        decreases v@.len() - i,
    {
        let c = v[i];
        assert(v@.take(i + 1).drop_last() =~= v@.take(i as int));
        if is_alphanumeric(c) {
            cur.push(c);
            assert(alnum_pieces(v@.take(i + 1)) =~= done.push(cur@));
        } else {
            let ghost t0 = strings_view(tokens@);
            push_long_piece(&mut tokens, &cur);
            proof {
                assert(done.push(cur@).drop_last() =~= done);
                assert(long_pieces(done.push(cur@)) == long_pieces(done) + if utf8_len(cur@) > 2 { seq![cur@] } else { Seq::<Seq<char>>::empty() });
                assert(strings_view(tokens@) =~= long_pieces(done.push(cur@)).map_values(|w: Seq<char>| unicode_lowercase(w)));
                done = done.push(cur@);
            }
            cur = Vec::new();
            assert(alnum_pieces(v@.take(i + 1)) =~= done.push(cur@));
        }
        i += 1;
    }
    assert(v@.take(i as int) =~= v@);
    push_long_piece(&mut tokens, &cur);
    proof {
        assert(done.push(cur@).drop_last() =~= done);
        assert(strings_view(tokens@) =~= long_pieces(done.push(cur@)).map_values(|w: Seq<char>| unicode_lowercase(w)));
    }
    tokens
}

/// The stop words that the `stop_words` crate lists for `language`, or `None` where it
/// has no list for it.
pub uninterp spec fn stop_word_list(language: Seq<char>) -> Option<Seq<Seq<char>>>;

/// Looks up the stop words of `language` with `stop_words::lookup` (which does not panic
/// on an unknown language). The contract only names the list.
#[verifier::external_body]
fn lookup_stop_words(language: &str) -> (res: Option<Vec<String>>)
    ensures
        match res {
            Some(v) => stop_word_list(language@) == Some(strings_view(v@)),
            None => stop_word_list(language@) is None,
        },
{
    match stop_words::lookup(language) {
        Some(words) => Some(words.iter().map(|w| w.to_string()).collect()),
        None => None,
    }
}

/// Academic boilerplate that is treated as stop words too.
pub open spec fn academic_stop_words() -> Seq<Seq<char>> {
    seq!["paper"@, "study"@, "result"@, "show"@, "figure"@, "also"@, "using"@]
}

/// The stop words: the English list, lowercased, and the academic boilerplate.
pub open spec fn stop_word_set() -> Set<Seq<char>> {
    let english = match stop_word_list("en"@) {
        Some(ws) => ws.map_values(|w: Seq<char>| unicode_lowercase(w)).to_set(),
        None => Set::empty(),
    };
    english.union(academic_stop_words().to_set())
}

/// A set of stop words.
#[derive(Debug, Clone)]
pub struct StopWords {
    words: Vec<String>,
}

impl View for StopWords {
    type V = Set<Seq<char>>;

    closed spec fn view(&self) -> Set<Seq<char>> {
        strings_view(self.words@).to_set()
    }
}

impl StopWords {
    /// Whether `word` is a stop word.
    pub fn contains(&self, word: &str) -> (res: bool)
        ensures
            res == self@.contains(word@),
    {
        let w = chars_of(word);
        let mut k: usize = 0;
        while k < self.words.len()
            invariant
                k <= self.words@.len(),
                w@ == word@,
                forall|j: int| 0 <= j < k ==> (#[trigger] self.words@[j])@ != word@,
            decreases self.words@.len() - k,
        {
            if chars_eq(&chars_of(self.words[k].as_str()), &w) {
                assert(strings_view(self.words@)[k as int] == word@);
                return true;
            }
            k += 1;
        }
        proof {
            if strings_view(self.words@).contains(word@) {
                let j = choose|j: int| 0 <= j < strings_view(self.words@).len() && strings_view(self.words@)[j] == word@;
                assert(self.words@[j]@ == word@);
            }
        }
        false
    }
}

/// The English stop words, lowercased, together with academic boilerplate (`paper`,
/// `study`, `result`, `show`, `figure`, `also`, `using`).
pub fn build_stop_words() -> (res: StopWords)
    ensures
        res@ == stop_word_set(),
{
    let mut words: Vec<String> = Vec::new();
    let ghost mut english: Seq<Seq<char>> = Seq::empty();
    match lookup_stop_words("en") {
        Some(list) => {
            let mut k: usize = 0;
            while k < list.len()
                invariant
                    k <= list@.len(),
                    strings_view(words@) == strings_view(list@).take(k as int).map_values(|w: Seq<char>| unicode_lowercase(w)),
                decreases list@.len() - k,
            {
                let ghost w0 = strings_view(words@);
                words.push(to_lowercase(list[k].as_str()));
                assert(strings_view(list@).take(k + 1) =~= strings_view(list@).take(k as int).push(list@[k as int]@));
                assert(strings_view(words@) =~= w0.push(unicode_lowercase(list@[k as int]@)));
                assert(strings_view(words@) =~= strings_view(list@).take(k + 1).map_values(|w: Seq<char>| unicode_lowercase(w)));
                k += 1;
            }
            assert(strings_view(list@).take(k as int) =~= strings_view(list@));
            proof {
                english = strings_view(words@);
            }
        },
        None => {},
    }
    assert(english == strings_view(words@));
    let academic = ["paper", "study", "result", "show", "figure", "also", "using"];
    let mut a: usize = 0;
    while a < 7
        invariant
            a <= 7,
            strings_view(words@) == english + academic_stop_words().take(a as int),
            academic@.len() == 7,
            forall|j: int| 0 <= j < 7 ==> (#[trigger] academic@[j])@ == academic_stop_words()[j],
        decreases 7 - a,
    {
        let ghost w0 = strings_view(words@);
        words.push(academic[a].to_string());
        assert(academic_stop_words().take(a + 1) =~= academic_stop_words().take(a as int).push(academic_stop_words()[a as int]));
        assert(strings_view(words@) =~= w0.push(academic@[a as int]@));
        a += 1;
    }
    let res = StopWords { words };
    proof {
        assert(academic_stop_words().take(7) =~= academic_stop_words());
        vstd::seq_lib::seq_to_set_distributes_over_add(english, academic_stop_words());
        assert(res@ =~= stop_word_set());
    }
    res
}

/// The tokens of `ts` that are not stop words, in order.
pub open spec fn kept_tokens(ts: Seq<Seq<char>>, stop: Set<Seq<char>>) -> Seq<Seq<char>>
    decreases ts.len(),
{
    if ts.len() == 0 {
        Seq::empty()
    } else {
        let prev = kept_tokens(ts.drop_last(), stop);
        if stop.contains(ts.last()) {
            prev
        } else {
            prev.push(ts.last())
        }
    }
}

/// How many times `w` occurs in `ts`.
pub open spec fn occurrences(ts: Seq<Seq<char>>, w: Seq<char>) -> nat
    decreases ts.len(),
{
    if ts.len() == 0 {
        0
    } else {
        occurrences(ts.drop_last(), w) + if ts.last() == w { 1nat } else { 0nat }
    }
}

proof fn lemma_occurrences_bound(ts: Seq<Seq<char>>, w: Seq<char>)
    ensures
        occurrences(ts, w) <= ts.len(),
        occurrences(ts, w) > 0 ==> ts.contains(w),
    decreases ts.len(),
{
    if ts.len() > 0 {
        lemma_occurrences_bound(ts.drop_last(), w);
        if occurrences(ts.drop_last(), w) > 0 {
            let j = choose|j: int| 0 <= j < ts.drop_last().len() && ts.drop_last()[j] == w;
            assert(ts[j] == w);
        }
        if ts.last() == w {
            assert(ts[ts.len() - 1] == w);
        }
    }
}

/// The position of the first occurrence of `w` in `ts` (`ts.len()` where it does not occur).
pub open spec fn first_pos(ts: Seq<Seq<char>>, w: Seq<char>) -> int
    decreases ts.len(),
{
    if ts.len() == 0 {
        0
    } else if ts.drop_last().contains(w) {
        first_pos(ts.drop_last(), w)
    } else if ts.last() == w {
        ts.len() - 1
    } else {
        ts.len() as int
    }
}

/// A word that occurs in `ts` first occurs before its end.
proof fn lemma_first_pos_within(ts: Seq<Seq<char>>, w: Seq<char>)
    requires
        ts.contains(w),
    ensures
        0 <= first_pos(ts, w) < ts.len(),
    decreases ts.len(),
{
    if ts.drop_last().contains(w) {
        lemma_first_pos_within(ts.drop_last(), w);
    } else {
        let j = choose|j: int| 0 <= j < ts.len() && ts[j] == w;
        if j < ts.len() - 1 {
            assert(ts.drop_last()[j] == w);
        }
    }
}

/// The position in `counts` of the entry for `word`, if there is one.
fn find_count(counts: &Vec<(String, usize)>, word: &str) -> (res: Option<usize>)
    ensures
        res matches Some(k) ==> k < counts@.len() && counts@[k as int].0@ == word@,
        res is None ==> forall|j: int| 0 <= j < counts@.len() ==> (#[trigger] counts@[j]).0@ != word@,
{
    let w = chars_of(word);
    let mut k: usize = 0;
    while k < counts.len()
        invariant
            k <= counts@.len(),
            w@ == word@,
            forall|j: int| 0 <= j < k ==> (#[trigger] counts@[j]).0@ != word@,
        decreases counts@.len() - k,
    {
        if chars_eq(&chars_of(counts[k].0.as_str()), &w) {
            return Some(k);
        }
        k += 1;
    }
    None
}

/// The term counts of one section of a paper: the tokens of `text` that are not stop
/// words, each distinct token once, in order of first appearance, with the number of
/// times it occurs; and the number of such tokens.
pub fn section_term_counts(text: &str, stop_words: &StopWords) -> (res: (Vec<(String, usize)>, usize))
    ensures
        res.1 == kept_tokens(tokens_of(text@), stop_words@).len(),
        forall|k: int| 0 <= k < res.0@.len() ==> {
            &&& kept_tokens(tokens_of(text@), stop_words@).contains((#[trigger] res.0@[k]).0@)
            &&& res.0@[k].1 == occurrences(kept_tokens(tokens_of(text@), stop_words@), res.0@[k].0@)
        },
        forall|k: int, l: int| 0 <= k < l < res.0@.len() ==> (#[trigger] res.0@[k]).0@ != (#[trigger] res.0@[l]).0@,
        forall|w: Seq<char>| #[trigger] kept_tokens(tokens_of(text@), stop_words@).contains(w)
            ==> exists|k: int| 0 <= k < res.0@.len() && (#[trigger] res.0@[k]).0@ == w,
        forall|k: int, l: int| 0 <= k < l < res.0@.len() ==>
            first_pos(kept_tokens(tokens_of(text@), stop_words@), (#[trigger] res.0@[k]).0@)
                < first_pos(kept_tokens(tokens_of(text@), stop_words@), (#[trigger] res.0@[l]).0@),
{
    let tokens = tokenize(text);
    let ghost ts = strings_view(tokens@);
    let mut counts: Vec<(String, usize)> = Vec::new();
    let mut total: usize = 0;
    let mut i: usize = 0;
    while i < tokens.len()
        invariant
            i <= tokens@.len(),
            ts == strings_view(tokens@),
            ts == tokens_of(text@),
            total == kept_tokens(ts.take(i as int), stop_words@).len(),
            total <= i,
            forall|k: int| 0 <= k < counts@.len() ==> {
                &&& kept_tokens(ts.take(i as int), stop_words@).contains((#[trigger] counts@[k]).0@)
                &&& counts@[k].1 == occurrences(kept_tokens(ts.take(i as int), stop_words@), counts@[k].0@)
            },
            forall|k: int, l: int| 0 <= k < l < counts@.len() ==> (#[trigger] counts@[k]).0@ != (#[trigger] counts@[l]).0@,
            forall|w: Seq<char>| #[trigger] kept_tokens(ts.take(i as int), stop_words@).contains(w)
                ==> exists|k: int| 0 <= k < counts@.len() && (#[trigger] counts@[k]).0@ == w,
            forall|k: int, l: int| 0 <= k < l < counts@.len() ==>
                first_pos(kept_tokens(ts.take(i as int), stop_words@), (#[trigger] counts@[k]).0@)
                    < first_pos(kept_tokens(ts.take(i as int), stop_words@), (#[trigger] counts@[l]).0@),
        decreases tokens@.len() - i,
    {
        let ghost prev = kept_tokens(ts.take(i as int), stop_words@);
        assert(ts.take(i + 1).drop_last() == ts.take(i as int));
        assert(ts.take(i + 1).last() == tokens@[i as int]@);
        let tok = &tokens[i];
        if stop_words.contains(tok.as_str()) {
            assert(kept_tokens(ts.take(i + 1), stop_words@) == prev);
        } else {
            let ghost next = prev.push(tok@);
            assert(kept_tokens(ts.take(i + 1), stop_words@) == next);
            proof {
                lemma_occurrences_bound(prev, tok@);
                assert forall|w: Seq<char>| w != tok@ implies occurrences(next, w) == occurrences(prev, w) by {
                    assert(next.drop_last() == prev);
                }
                assert(next.drop_last() == prev);
                assert forall|w: Seq<char>| #[trigger] next.contains(w) implies (prev.contains(w) || w == tok@) by {
                    let j = choose|j: int| 0 <= j < next.len() && next[j] == w;
                    if j < prev.len() {
                        assert(prev[j] == w);
                    }
                }
                assert forall|w: Seq<char>| #[trigger] prev.contains(w) implies next.contains(w) by {
                    let j = choose|j: int| 0 <= j < prev.len() && prev[j] == w;
                    assert(next[j] == w);
                }
                assert(next[next.len() - 1] == tok@);
                assert forall|w: Seq<char>| #[trigger] prev.contains(w) implies first_pos(next, w) == first_pos(prev, w)
                    && first_pos(prev, w) < prev.len() by {
                    lemma_first_pos_within(prev, w);
                }
                if !prev.contains(tok@) {
                    assert(first_pos(next, tok@) == prev.len());
                }
            }
            match find_count(&counts, tok.as_str()) {
                Some(k) => {
                    let ghost old_counts = counts@;
                    let c = counts[k].1;
                    proof {
                        lemma_occurrences_bound(prev, tok@);
                    }
                    let entry = (counts[k].0.clone(), c + 1);
                    counts.set(k, entry);
                    proof {
                        assert forall|q: int| 0 <= q < counts@.len() implies {
                            &&& next.contains((#[trigger] counts@[q]).0@)
                            &&& counts@[q].1 == occurrences(next, counts@[q].0@)
                        } by {
                            if q != k {
                                assert(counts@[q] == old_counts[q]);
                                assert(old_counts[q].0@ != tok@);
                            }
                        }
                        assert forall|q: int, l: int| 0 <= q < l < counts@.len() implies
                            (#[trigger] counts@[q]).0@ != (#[trigger] counts@[l]).0@ by {
                            assert(old_counts[q].0@ != old_counts[l].0@);
                        }
                        assert forall|q: int, l: int| 0 <= q < l < counts@.len() implies
                            first_pos(next, (#[trigger] counts@[q]).0@) < first_pos(next, (#[trigger] counts@[l]).0@) by {
                            assert(counts@[q].0@ == old_counts[q].0@);
                            assert(counts@[l].0@ == old_counts[l].0@);
                            assert(prev.contains(old_counts[q].0@));
                            assert(prev.contains(old_counts[l].0@));
                            assert(first_pos(prev, old_counts[q].0@) < first_pos(prev, old_counts[l].0@));
                        }
                        assert forall|w: Seq<char>| #[trigger] next.contains(w)
                            implies exists|q: int| 0 <= q < counts@.len() && (#[trigger] counts@[q]).0@ == w by {
                            if w == tok@ {
                                assert(counts@[k as int].0@ == w);
                            } else {
                                assert(prev.contains(w));
                                let q = choose|q: int| 0 <= q < old_counts.len() && (#[trigger] old_counts[q]).0@ == w;
                                assert(counts@[q].0@ == w);
                            }
                        }
                    }
                },
                None => {
                    let ghost old_counts = counts@;
                    proof {
                        lemma_occurrences_bound(prev, tok@);
                        if prev.contains(tok@) {
                            let q = choose|q: int| 0 <= q < counts@.len() && (#[trigger] counts@[q]).0@ == tok@;
                        }
                    }
                    counts.push((tok.clone(), 1));
                    proof {
                        assert forall|q: int| 0 <= q < counts@.len() implies {
                            &&& next.contains((#[trigger] counts@[q]).0@)
                            &&& counts@[q].1 == occurrences(next, counts@[q].0@)
                        } by {
                            if q < old_counts.len() {
                                assert(counts@[q] == old_counts[q]);
                            }
                        }
                        assert forall|q: int, l: int| 0 <= q < l < counts@.len() implies
                            (#[trigger] counts@[q]).0@ != (#[trigger] counts@[l]).0@ by {
                            if l < old_counts.len() {
                                assert(old_counts[q].0@ != old_counts[l].0@);
                            } else {
                                assert(old_counts[q].0@ != tok@);
                            }
                        }
                        assert forall|q: int, l: int| 0 <= q < l < counts@.len() implies
                            first_pos(next, (#[trigger] counts@[q]).0@) < first_pos(next, (#[trigger] counts@[l]).0@) by {
                            assert(counts@[q] == old_counts[q]);
                            assert(prev.contains(old_counts[q].0@));
                            if l < old_counts.len() {
                                assert(counts@[l] == old_counts[l]);
                                assert(prev.contains(old_counts[l].0@));
                                assert(first_pos(prev, old_counts[q].0@) < first_pos(prev, old_counts[l].0@));
                            } else {
                                assert(counts@[l].0@ == tok@);
                            }
                        }
                        assert forall|w: Seq<char>| #[trigger] next.contains(w)
                            implies exists|q: int| 0 <= q < counts@.len() && (#[trigger] counts@[q]).0@ == w by {
                            if w == tok@ {
                                assert(counts@[old_counts.len() as int].0@ == w);
                            } else {
                                assert(prev.contains(w));
                                let q = choose|q: int| 0 <= q < old_counts.len() && (#[trigger] old_counts[q]).0@ == w;
                                assert(counts@[q].0@ == w);
                            }
                        }
                    }
                },
            }
            total += 1;
        }
        i += 1;
    }
    assert(ts.take(tokens@.len() as int) == ts);
    let res = (counts, total);
    assert forall|w: Seq<char>| #[trigger] kept_tokens(tokens_of(text@), stop_words@).contains(w)
        implies exists|k: int| 0 <= k < res.0@.len() && (#[trigger] res.0@[k]).0@ == w by {
        assert(kept_tokens(ts.take(i as int), stop_words@).contains(w));
        let k = choose|k: int| 0 <= k < res.0@.len() && (#[trigger] res.0@[k]).0@ == w;
        assert(res.0@[k].0@ == w);
    }
    res
}

/// The TF-IDF engine. It holds no state: the corpus computation works on extractions
/// given to it.
#[derive(Debug, Clone, Copy, Default)]
pub struct TfIdfEngine;

impl TfIdfEngine {
    /// The engine.
    pub fn new() -> (res: TfIdfEngine)
        ensures
            res == TfIdfEngine,
    {
        TfIdfEngine
    }
}

} // verus!
