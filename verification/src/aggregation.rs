//! Aggregation over LLM annotations: ranked open problems and the method
//! co-occurrence matrix.
use vstd::prelude::*;
use crate::annotation::{categories_of, problems_of, LlmAnnotation};
use crate::order::{lemma_lex_irreflexive, lemma_lex_total, lemma_lex_transitive, lex_less, lex_lt};
use crate::text::{chars_eq, chars_of, string_of};
use crate::words::word_views;

verus! {

/// A ranked open problem: the problem text and how many annotations mention it.
#[derive(Debug, Clone)]
pub struct RankedProblem {
    pub problem: String,
    pub count: usize,
}

/// How many of the annotations `anns` list the open problem `p`.
pub open spec fn mention_count(anns: Seq<LlmAnnotation>, p: Seq<char>) -> nat
    decreases anns.len(),
{
    if anns.len() == 0 {
        0
    } else {
        mention_count(anns.drop_last(), p) + if problems_of(anns.last()).contains(p) { 1nat } else { 0nat }
    }
}

/// Some annotation of `anns` lists the open problem `p`.
pub open spec fn is_mentioned(anns: Seq<LlmAnnotation>, p: Seq<char>) -> bool {
    exists|i: int| 0 <= i < anns.len() && #[trigger] problems_of(anns[i]).contains(p)
}

/// `a` ranks above `b`: a higher count, or the same count and an earlier text.
pub open spec fn ranks_before(a: (Seq<char>, nat), b: (Seq<char>, nat)) -> bool {
    a.1 > b.1 || (a.1 == b.1 && lex_lt(a.0, b.0))
}

/// The (text, count) key of a ranked problem.
pub open spec fn rank_key(r: RankedProblem) -> (Seq<char>, nat) {
    (r.problem@, r.count as nat)
}

/// The key of a working entry.
pub open spec fn entry_key(e: (Vec<char>, usize)) -> (Seq<char>, nat) {
    (e.0@, e.1 as nat)
}

proof fn lemma_ranks_order(a: (Seq<char>, nat), b: (Seq<char>, nat), c: (Seq<char>, nat))
    ensures
        a.0 != b.0 ==> ranks_before(a, b) || ranks_before(b, a),
        !(ranks_before(a, b) && ranks_before(b, a)),
        !ranks_before(a, a),
        ranks_before(a, b) && ranks_before(b, c) ==> ranks_before(a, c),
{
    lemma_lex_total(a.0, b.0);
    lemma_lex_irreflexive(a.0);
    if ranks_before(a, b) && ranks_before(b, c) && a.1 == b.1 && b.1 == c.1 {
        lemma_lex_transitive(a.0, b.0, c.0);
    }
}

/// The keys of `s` in strictly ranked order.
pub open spec fn ranked(s: Seq<(Vec<char>, usize)>) -> bool {
    forall|k: int, l: int| 0 <= k < l < s.len() ==> ranks_before(entry_key(#[trigger] s[k]), entry_key(#[trigger] s[l]))
}

/// Some entry of `s` has the text `w`.
pub open spec fn entries_have(s: Seq<(Vec<char>, usize)>, w: Seq<char>) -> bool {
    exists|k: int| 0 <= k < s.len() && (#[trigger] s[k]).0@ == w
}

/// Inserts `x` into the strictly ranked `sorted`, keeping it ranked.
fn insert_ranked(sorted: &mut Vec<(Vec<char>, usize)>, x: (Vec<char>, usize))
    requires
        ranked(old(sorted)@),
        forall|k: int| 0 <= k < old(sorted)@.len() ==> (#[trigger] old(sorted)@[k]).0@ != x.0@,
    ensures
        ranked(final(sorted)@),
        final(sorted)@.len() == old(sorted)@.len() + 1,
        forall|y: (Vec<char>, usize)| final(sorted)@.contains(y) <==> (old(sorted)@.contains(y) || y == x),
{
    let mut j: usize = 0;
    let ghost s0 = sorted@;
    loop
        invariant
            j <= sorted@.len(),
            sorted@ == s0,
            s0 == old(sorted)@,
            ranked(sorted@),
            forall|k: int| 0 <= k < j ==> !ranks_before(entry_key(x), entry_key(#[trigger] sorted@[k])),
        ensures
            j <= sorted@.len(),
            sorted@ == s0,
            s0 == old(sorted)@,
            j < sorted@.len() ==> ranks_before(entry_key(x), entry_key(sorted@[j as int])),
            forall|k: int| 0 <= k < j ==> !ranks_before(entry_key(x), entry_key(#[trigger] sorted@[k])),
        decreases sorted@.len() - j,
    {
        if j == sorted.len() {
            break;
        }
        let better = x.1 > sorted[j].1 || (x.1 == sorted[j].1 && lex_less(&x.0, &sorted[j].0));
        if better {
            break;
        }
        j += 1;
    }
    let ghost s = sorted@;
    assert(j < s.len() ==> ranks_before(entry_key(x), entry_key(s[j as int])));
    sorted.insert(j, x);
    assert forall|k: int, l: int| 0 <= k < l < sorted@.len() implies ranks_before(
        entry_key(#[trigger] sorted@[k]),
        entry_key(#[trigger] sorted@[l]),
    ) by {
        if k < j && l == j {
            lemma_ranks_order(entry_key(s[k]), entry_key(x), entry_key(x));
        } else if k < j && l > j {
            lemma_ranks_order(entry_key(s[k]), entry_key(x), entry_key(s[l - 1]));
            assert(ranks_before(entry_key(s[k]), entry_key(s[l - 1])));
        } else if k == j {
            if l - 1 > j {
                lemma_ranks_order(entry_key(x), entry_key(s[j as int]), entry_key(s[l - 1]));
            }
        } else if k > j {
            assert(ranks_before(entry_key(s[k - 1]), entry_key(s[l - 1])));
        }
    }
    assert forall|y: (Vec<char>, usize)| sorted@.contains(y) <==> (s.contains(y) || y == x) by {
        if sorted@.contains(y) {
            let k = choose|k: int| 0 <= k < sorted@.len() && sorted@[k] == y;
            if k < j {
                assert(s[k] == y);
            } else if k > j {
                assert(s[k - 1] == y);
            }
        }
        if s.contains(y) {
            let k = choose|k: int| 0 <= k < s.len() && s[k] == y;
            if k < j {
                assert(sorted@[k] == y);
            } else {
                assert(sorted@[k + 1] == y);
            }
        }
        if y == x {
            assert(sorted@[j as int] == y);
        }
    }
    assert(s == old(sorted)@);
    assert(forall|y: (Vec<char>, usize)| sorted@.contains(y) <==> (old(sorted)@.contains(y) || y == x));
}

/// The open problems of `a`, as character vectors.
fn problem_chars(a: &LlmAnnotation) -> (res: Vec<Vec<char>>)
    ensures
        word_views(res@) == problems_of(*a),
{
    let mut res: Vec<Vec<char>> = Vec::new();
    let mut k: usize = 0;
    while k < a.open_problems.len()
        invariant
            k <= a.open_problems@.len(),
            res@.len() == k,
            forall|j: int| 0 <= j < k ==> (#[trigger] res@[j])@ == a.open_problems@[j]@,
        decreases a.open_problems@.len() - k,
    {
        res.push(chars_of(a.open_problems[k].as_str()));
        k += 1;
    }
    assert(word_views(res@) =~= problems_of(*a));
    res
}

/// Whether `w` is one of `ws`.
pub(crate) fn holds_chars(ws: &Vec<Vec<char>>, w: &[char]) -> (res: bool)
    ensures
        res == word_views(ws@).contains(w@),
{
    let mut k: usize = 0;
    while k < ws.len()
        invariant
            k <= ws@.len(),
            forall|j: int| 0 <= j < k ==> ws@[j]@ != w@,
        decreases ws@.len() - k,
    {
        if chars_eq(&ws[k], w) {
            assert(word_views(ws@)[k as int] == w@);
            return true;
        }
        k += 1;
    }
    assert forall|j: int| 0 <= j < word_views(ws@).len() implies word_views(ws@)[j] != w@ by {
        assert(word_views(ws@)[j] == ws@[j]@);
    }
    false
}

/// The word lists of `ls`, as character sequences.
pub open spec fn lists_view(ls: Seq<Vec<Vec<char>>>) -> Seq<Seq<Seq<char>>> {
    ls.map_values(|l: Vec<Vec<char>>| word_views(l@))
}

/// How many of the lists `ls` contain `w`.
pub open spec fn list_count(ls: Seq<Seq<Seq<char>>>, w: Seq<char>) -> nat
    decreases ls.len(),
{
    if ls.len() == 0 {
        0
    } else {
        list_count(ls.drop_last(), w) + if ls.last().contains(w) { 1nat } else { 0nat }
    }
}

/// Some list of `ls` contains `w`.
pub open spec fn in_some(ls: Seq<Seq<Seq<char>>>, w: Seq<char>) -> bool {
    exists|j: int| 0 <= j < ls.len() && #[trigger] ls[j].contains(w)
}

/// Every word of the lists with the number of lists that contain it, most frequent
/// first, ties in code-point order.
pub fn rank_by_lists(lists: &Vec<Vec<Vec<char>>>) -> (res: Vec<(Vec<char>, usize)>)
    ensures
        ranked(res@),
        forall|k: int| 0 <= k < res@.len() ==> in_some(lists_view(lists@), (#[trigger] res@[k]).0@)
            && res@[k].1 == list_count(lists_view(lists@), res@[k].0@),
        forall|w: Seq<char>| in_some(lists_view(lists@), w) ==> #[trigger] entries_have(res@, w),
{
    let ghost lv = lists_view(lists@);
    let n = lists.len();
    // distinct words, in order of first appearance
    let distinct = collect_distinct(lists);
    proof {
        assert forall|w: Seq<char>| in_some_list(lists@, w) <==> in_some(lv, w) by {
            if in_some_list(lists@, w) {
                let j = choose|j: int| 0 <= j < lists@.len() && #[trigger] word_views(lists@[j]@).contains(w);
                assert(lv[j].contains(w));
            }
            if in_some(lv, w) {
                let j = choose|j: int| 0 <= j < lv.len() && #[trigger] lv[j].contains(w);
                assert(word_views(lists@[j]@).contains(w));
            }
        }
    }
    // counts, inserted in ranked order
    let mut sorted: Vec<(Vec<char>, usize)> = Vec::new();
    let mut d: usize = 0;
    while d < distinct.len()
        invariant
            d <= distinct@.len(),
            n == lists@.len(),
            lv == lists_view(lists@),
            forall|k: int| 0 <= k < distinct@.len() ==> in_some(lv, (#[trigger] distinct@[k])@),
            forall|k: int, l: int| 0 <= k < l < distinct@.len() ==> (#[trigger] distinct@[k])@ != (#[trigger] distinct@[l])@,
            ranked(sorted@),
            sorted@.len() == d,
            forall|k: int| 0 <= k < sorted@.len() ==> exists|e: int| 0 <= e < d && (#[trigger] sorted@[k]).0@ == distinct@[e]@,
            forall|k: int| 0 <= k < sorted@.len() ==> in_some(lv, (#[trigger] sorted@[k]).0@)
                && sorted@[k].1 == list_count(lv, sorted@[k].0@),
            forall|e: int| 0 <= e < d ==> entries_have(sorted@, #[trigger] distinct@[e]@),
        decreases distinct@.len() - d,
    {
        let target = &distinct[d];
        let mut count: usize = 0;
        let mut j: usize = 0;
        while j < n
            invariant
                j <= n == lists@.len(),
                lv == lists_view(lists@),
                count == list_count(lv.take(j as int), target@),
                count <= j,
            decreases n - j,
        {
            assert(lv.take(j + 1).drop_last() == lv.take(j as int));
            assert(lv.take(j + 1).last() == word_views(lists@[j as int]@));
            if holds_chars(&lists[j], target) {
                count += 1;
            }
            j += 1;
        }
        assert(lv.take(n as int) == lv);
        let entry = (chars_of_vec(target), count);
        proof {
            assert forall|k: int| 0 <= k < sorted@.len() implies (#[trigger] sorted@[k]).0@ != entry.0@ by {
                let e = choose|e: int| 0 <= e < d && sorted@[k].0@ == distinct@[e]@;
                assert(distinct@[e]@ != distinct@[d as int]@);
            }
        }
        let ghost before = sorted@;
        insert_ranked(&mut sorted, entry);
        proof {
            assert(sorted@.contains(entry));
            assert forall|k: int| 0 <= k < sorted@.len() implies exists|e: int| 0 <= e < d + 1 && (#[trigger] sorted@[k]).0@ == distinct@[e]@ by {
                assert(sorted@.contains(sorted@[k]));
                if sorted@[k] != entry {
                    let k2 = choose|k2: int| 0 <= k2 < before.len() && before[k2] == sorted@[k];
                    let e = choose|e: int| 0 <= e < d && before[k2].0@ == distinct@[e]@;
                    assert(0 <= e < d + 1 && sorted@[k].0@ == distinct@[e]@);
                } else {
                    assert(sorted@[k].0@ == distinct@[d as int]@);
                }
            }
            assert forall|k: int| 0 <= k < sorted@.len() implies in_some(lv, (#[trigger] sorted@[k]).0@)
                && sorted@[k].1 == list_count(lv, sorted@[k].0@) by {
                assert(sorted@.contains(sorted@[k]));
                if sorted@[k] != entry {
                    let k2 = choose|k2: int| 0 <= k2 < before.len() && before[k2] == sorted@[k];
                    assert(before[k2] == sorted@[k]);
                }
            }
            assert forall|e: int| 0 <= e < d + 1 implies entries_have(sorted@, #[trigger] distinct@[e]@) by {
                if e < d {
                    let k = choose|k: int| 0 <= k < before.len() && before[k].0@ == distinct@[e]@;
                    assert(before.contains(before[k]));
                    assert(sorted@.contains(before[k]));
                    let k2 = choose|k2: int| 0 <= k2 < sorted@.len() && sorted@[k2] == before[k];
                    assert(sorted@[k2].0@ == distinct@[e]@);
                } else {
                    let k2 = choose|k2: int| 0 <= k2 < sorted@.len() && sorted@[k2] == entry;
                    assert(sorted@[k2].0@ == distinct@[e]@);
                }
            }
        }
        d += 1;
    }
    proof {
        assert forall|w: Seq<char>| in_some(lv, w) implies #[trigger] entries_have(sorted@, w) by {
            assert(in_some_list(lists@, w));
            assert(word_views(distinct@).contains(w));
            let e = choose|e: int| 0 <= e < word_views(distinct@).len() && word_views(distinct@)[e] == w;
            assert(distinct@[e]@ == w);
        }
    }
    sorted
}

proof fn lemma_mention_count(anns: Seq<LlmAnnotation>, lv: Seq<Seq<Seq<char>>>, p: Seq<char>)
    requires
        lv.len() == anns.len(),
        forall|j: int| 0 <= j < anns.len() ==> #[trigger] lv[j] == problems_of(anns[j]),
    ensures
        mention_count(anns, p) == list_count(lv, p),
        is_mentioned(anns, p) == in_some(lv, p),
    decreases anns.len(),
{
    if anns.len() > 0 {
        lemma_mention_count(anns.drop_last(), lv.drop_last(), p);
        assert(lv.last() == lv[lv.len() - 1]);
        if is_mentioned(anns, p) {
            let j = choose|j: int| 0 <= j < anns.len() && #[trigger] problems_of(anns[j]).contains(p);
            assert(lv[j].contains(p));
        }
        if in_some(lv, p) {
            let j = choose|j: int| 0 <= j < lv.len() && #[trigger] lv[j].contains(p);
            assert(problems_of(anns[j]).contains(p));
        }
    }
}

/// Aggregate open problems across all annotations.
///
/// Each distinct open-problem text is counted by how many annotations mention it; the
/// list is sorted by count descending, then by text for a stable order.
pub fn aggregate_open_problems(annotations: &[LlmAnnotation]) -> (res: Vec<RankedProblem>)
    ensures
        forall|k: int| 0 <= k < res@.len() ==> is_mentioned(annotations@, (#[trigger] res@[k]).problem@)
            && res@[k].count == mention_count(annotations@, res@[k].problem@),
        forall|p: Seq<char>| is_mentioned(annotations@, p) ==> exists|k: int| 0 <= k < res@.len()
            && (#[trigger] res@[k]).problem@ == p,
        forall|k: int, l: int| 0 <= k < l < res@.len() ==> ranks_before(rank_key(#[trigger] res@[k]), rank_key(#[trigger] res@[l])),
{
    let n = annotations.len();
    // the problems of each annotation, as characters
    let mut per_ann: Vec<Vec<Vec<char>>> = Vec::new();
    let mut i: usize = 0;
    while i < n
        invariant
            i <= n == annotations@.len(),
            per_ann@.len() == i,
            forall|j: int| 0 <= j < i ==> word_views((#[trigger] per_ann@[j])@) == problems_of(annotations@[j]),
        decreases n - i,
    {
        per_ann.push(problem_chars(&annotations[i]));
        i += 1;
    }
    let sorted = rank_by_lists(&per_ann);
    let ghost lv = lists_view(per_ann@);
    proof {
        assert forall|j: int| 0 <= j < annotations@.len() implies #[trigger] lv[j] == problems_of(annotations@[j]) by {
            assert(lv[j] == word_views(per_ann@[j]@));
        }
        assert forall|p: Seq<char>| mention_count(annotations@, p) == #[trigger] list_count(lv, p)
            && is_mentioned(annotations@, p) == in_some(lv, p) by {
            lemma_mention_count(annotations@, lv, p);
        }
    }
    // final list
    let mut res: Vec<RankedProblem> = Vec::new();
    let mut k: usize = 0;
    while k < sorted.len()
        invariant
            k <= sorted@.len(),
            res@.len() == k,
            forall|q: int| 0 <= q < k ==> rank_key(#[trigger] res@[q]) == entry_key(sorted@[q]),
        decreases sorted@.len() - k,
    {
        let problem = string_of(&sorted[k].0);
        res.push(RankedProblem { problem, count: sorted[k].1 });
        k += 1;
    }
    proof {
        assert forall|p: Seq<char>| is_mentioned(annotations@, p) implies exists|q: int| 0 <= q < res@.len()
            && (#[trigger] res@[q]).problem@ == p by {
            lemma_mention_count(annotations@, lv, p);
            assert(in_some(lv, p));
            assert(entries_have(sorted@, p));
            let q = choose|q: int| 0 <= q < sorted@.len() && (#[trigger] sorted@[q]).0@ == p;
            assert(rank_key(res@[q]) == entry_key(sorted@[q]));
        }
        assert forall|k1: int, l: int| 0 <= k1 < l < res@.len() implies ranks_before(rank_key(#[trigger] res@[k1]), rank_key(#[trigger] res@[l])) by {
            assert(ranks_before(entry_key(sorted@[k1]), entry_key(sorted@[l])));
        }
        assert forall|q: int| 0 <= q < res@.len() implies is_mentioned(annotations@, (#[trigger] res@[q]).problem@)
            && res@[q].count == mention_count(annotations@, res@[q].problem@) by {
            assert(rank_key(res@[q]) == entry_key(sorted@[q]));
            assert(list_count(lv, sorted@[q].0@) == mention_count(annotations@, sorted@[q].0@));
        }
    }
    res
}

/// The lists of strings `ls`, as character sequences.
pub open spec fn string_lists(ls: Seq<Vec<String>>) -> Seq<Seq<Seq<char>>> {
    ls.map_values(|l: Vec<String>| l@.map_values(|s: String| s@))
}

/// The `limit` terms contained in the most lists of `lists`, each with the number of lists
/// that contain it: most frequent first, ties in code-point order. Every term left out
/// ranks below every term kept.
pub fn most_frequent_terms(lists: &[Vec<String>], limit: usize) -> (res: Vec<(String, usize)>)
    ensures
        res@.len() <= limit,
        forall|k: int, l: int| 0 <= k < l < res@.len() ==> ranks_before(
            ((#[trigger] res@[k]).0@, res@[k].1 as nat),
            ((#[trigger] res@[l]).0@, res@[l].1 as nat),
        ),
        forall|k: int| 0 <= k < res@.len() ==> in_some(string_lists(lists@), (#[trigger] res@[k]).0@)
            && res@[k].1 == list_count(string_lists(lists@), res@[k].0@),
        forall|w: Seq<char>| #[trigger] in_some(string_lists(lists@), w)
            && !(exists|k: int| 0 <= k < res@.len() && (#[trigger] res@[k]).0@ == w) ==> {
            &&& res@.len() == limit
            &&& forall|k: int| 0 <= k < res@.len() ==> ranks_before(((#[trigger] res@[k]).0@, res@[k].1 as nat),
                    (w, list_count(string_lists(lists@), w)))
        },
{
    let mut cl: Vec<Vec<Vec<char>>> = Vec::new();
    let mut i: usize = 0;
    while i < lists.len()
        invariant
            i <= lists@.len(),
            cl@.len() == i,
            forall|j: int| 0 <= j < i ==> word_views((#[trigger] cl@[j])@) == lists@[j]@.map_values(|s: String| s@),
        decreases lists@.len() - i,
    {
        let l = &lists[i];
        let mut w: Vec<Vec<char>> = Vec::new();
        let mut m: usize = 0;
        while m < l.len()
            invariant
                m <= l@.len(),
                w@.len() == m,
                forall|q: int| 0 <= q < m ==> (#[trigger] w@[q])@ == l@[q]@,
            decreases l@.len() - m,
        {
            w.push(chars_of(l[m].as_str()));
            m += 1;
        }
        assert(word_views(w@) =~= l@.map_values(|s: String| s@));
        cl.push(w);
        i += 1;
    }
    assert(lists_view(cl@) =~= string_lists(lists@)) by {
        assert forall|j: int| 0 <= j < cl@.len() implies lists_view(cl@)[j] == string_lists(lists@)[j] by {
            assert(word_views(cl@[j]@) == lists@[j]@.map_values(|s: String| s@));
        }
    }
    let sorted = rank_by_lists(&cl);
    let ghost sl = string_lists(lists@);
    let m: usize = if sorted.len() < limit { sorted.len() } else { limit };
    let mut res: Vec<(String, usize)> = Vec::new();
    let mut k: usize = 0;
    while k < m
        invariant
            k <= m <= sorted@.len(),
            m <= limit,
            res@.len() == k,
            forall|q: int| 0 <= q < k ==> (#[trigger] res@[q]).0@ == sorted@[q].0@ && res@[q].1 == sorted@[q].1,
        decreases m - k,
    {
        res.push((string_of(&sorted[k].0), sorted[k].1));
        k += 1;
    }
    proof {
        assert forall|k1: int, l: int| 0 <= k1 < l < res@.len() implies ranks_before(
            ((#[trigger] res@[k1]).0@, res@[k1].1 as nat),
            ((#[trigger] res@[l]).0@, res@[l].1 as nat),
        ) by {
            assert(ranks_before(entry_key(sorted@[k1]), entry_key(sorted@[l])));
        }
        assert forall|w: Seq<char>| #[trigger] in_some(sl, w)
            && !(exists|q: int| 0 <= q < res@.len() && (#[trigger] res@[q]).0@ == w) implies {
            &&& res@.len() == limit
            &&& forall|q: int| 0 <= q < res@.len() ==> ranks_before(((#[trigger] res@[q]).0@, res@[q].1 as nat),
                    (w, list_count(sl, w)))
        } by {
            assert(entries_have(sorted@, w));
            let e = choose|e: int| 0 <= e < sorted@.len() && (#[trigger] sorted@[e]).0@ == w;
            if e < m {
                assert(res@[e].0@ == w);
            }
            assert forall|q: int| 0 <= q < res@.len() implies ranks_before(((#[trigger] res@[q]).0@, res@[q].1 as nat),
                (w, list_count(sl, w))) by {
                assert(ranks_before(entry_key(sorted@[q]), entry_key(sorted@[e])));
            }
        }
    }
    res
}

/// A copy of the characters `v`.
fn chars_of_vec(v: &Vec<char>) -> (res: Vec<char>)
    ensures
        res@ == v@,
{
    let mut res: Vec<char> = Vec::new();
    let mut k: usize = 0;
    while k < v.len()
        invariant
            k <= v@.len(),
            res@ == v@.take(k as int),
        decreases v@.len() - k,
    {
        res.push(v[k]);
        assert(v@.take(k + 1) == v@.take(k as int).push(v@[k as int]));
        k += 1;
    }
    assert(v@.take(v@.len() as int) == v@);
    res
}

/// `w` is one of the words of some list of `ls`.
pub open spec fn in_some_list(ls: Seq<Vec<Vec<char>>>, w: Seq<char>) -> bool {
    exists|j: int| 0 <= j < ls.len() && #[trigger] word_views(ls[j]@).contains(w)
}

/// The distinct words of all the lists, in order of first appearance.
fn collect_distinct(lists: &Vec<Vec<Vec<char>>>) -> (res: Vec<Vec<char>>)
    ensures
        forall|k: int| 0 <= k < res@.len() ==> in_some_list(lists@, (#[trigger] res@[k])@),
        forall|k: int, l: int| 0 <= k < l < res@.len() ==> (#[trigger] res@[k])@ != (#[trigger] res@[l])@,
        forall|w: Seq<char>| in_some_list(lists@, w) ==> #[trigger] word_views(res@).contains(w),
{
    let n = lists.len();
    let mut distinct: Vec<Vec<char>> = Vec::new();
    let mut i: usize = 0;
    while i < n
        invariant
            i <= n == lists@.len(),
            forall|k: int| 0 <= k < distinct@.len() ==> in_some_list(lists@, (#[trigger] distinct@[k])@),
            forall|k: int, l: int| 0 <= k < l < distinct@.len() ==> (#[trigger] distinct@[k])@ != (#[trigger] distinct@[l])@,
            forall|j: int, w: Seq<char>| 0 <= j < i && #[trigger] word_views(lists@[j]@).contains(w)
                ==> word_views(distinct@).contains(w),
        decreases n - i,
    {
        let items = &lists[i];
        let mut m: usize = 0;
        while m < items.len()
            invariant
                i < n == lists@.len(),
                items == lists@[i as int],
                m <= items@.len(),
                forall|k: int| 0 <= k < distinct@.len() ==> in_some_list(lists@, (#[trigger] distinct@[k])@),
                forall|k: int, l: int| 0 <= k < l < distinct@.len() ==> (#[trigger] distinct@[k])@ != (#[trigger] distinct@[l])@,
                forall|j: int, w: Seq<char>| 0 <= j < i && #[trigger] word_views(lists@[j]@).contains(w)
                    ==> word_views(distinct@).contains(w),
                forall|q: int| 0 <= q < m ==> word_views(distinct@).contains(#[trigger] word_views(items@)[q]),
            decreases items@.len() - m,
        {
            let ghost before = distinct@;
            if !holds_chars(&distinct, &items[m]) {
                let w = chars_of_vec(&items[m]);
                distinct.push(w);
                proof {
                    assert(word_views(items@)[m as int] == items@[m as int]@);
                    assert(word_views(lists@[i as int]@).contains(items@[m as int]@));
                    assert(in_some_list(lists@, items@[m as int]@));
                    assert(word_views(distinct@)[before.len() as int] == items@[m as int]@);
                    assert forall|w2: Seq<char>| word_views(before).contains(w2) implies word_views(distinct@).contains(w2) by {
                        let k = choose|k: int| 0 <= k < word_views(before).len() && word_views(before)[k] == w2;
                        assert(word_views(distinct@)[k] == w2);
                    }
                    assert forall|k: int, l: int| 0 <= k < l < distinct@.len() implies (#[trigger] distinct@[k])@ != (#[trigger] distinct@[l])@ by {
                        if l == before.len() {
                            assert(word_views(before)[k] == distinct@[k]@);
                        }
                    }
                }
            }
            m += 1;
        }
        proof {
            assert forall|j: int, w: Seq<char>| 0 <= j < i + 1 && #[trigger] word_views(lists@[j]@).contains(w)
                implies word_views(distinct@).contains(w) by {
                if j == i {
                    let q = choose|q: int| 0 <= q < word_views(items@).len() && word_views(items@)[q] == w;
                    assert(word_views(items@)[q] == w);
                }
            }
        }
        i += 1;
    }
    proof {
        assert forall|w: Seq<char>| in_some_list(lists@, w) implies #[trigger] word_views(distinct@).contains(w) by {
            let j = choose|j: int| 0 <= j < lists@.len() && #[trigger] word_views(lists@[j]@).contains(w);
        }
    }
    distinct
}

/// A method-category co-occurrence matrix. Category pairs are stored in alphabetical
/// order (first <= second).
#[derive(Debug, Clone)]
pub struct MethodMatrix {
    /// All distinct category labels, sorted alphabetically.
    pub categories: Vec<String>,
    /// Co-occurrence counts `(row, col, count)` with `row <= col`, for the pairs that
    /// co-occur at least once, ordered by `(row, col)`.
    pub pair_counts: Vec<(String, String, u32)>,
}

/// Some annotation of `anns` has a method in category `c`.
pub open spec fn is_category(anns: Seq<LlmAnnotation>, c: Seq<char>) -> bool {
    exists|i: int| 0 <= i < anns.len() && #[trigger] categories_of(anns[i]).contains(c)
}

/// How many annotations of `anns` have methods in both categories `a` and `b`.
pub open spec fn cooccurrence(anns: Seq<LlmAnnotation>, a: Seq<char>, b: Seq<char>) -> nat
    decreases anns.len(),
{
    if anns.len() == 0 {
        0
    } else {
        cooccurrence(anns.drop_last(), a, b) + if categories_of(anns.last()).contains(a)
            && categories_of(anns.last()).contains(b) { 1nat } else { 0nat }
    }
}

/// `a` equals `b` or comes before it.
pub open spec fn lex_le(a: Seq<char>, b: Seq<char>) -> bool {
    a == b || lex_lt(a, b)
}

/// The pair `(a, b)` comes before `(c, d)`: by the first element, then by the second.
pub open spec fn pair_lt(a: Seq<char>, b: Seq<char>, c: Seq<char>, d: Seq<char>) -> bool {
    lex_lt(a, c) || (a == c && lex_lt(b, d))
}

proof fn lemma_cooccurrence_le(anns: Seq<LlmAnnotation>, a: Seq<char>, b: Seq<char>)
    ensures
        cooccurrence(anns, a, b) <= anns.len(),
    decreases anns.len(),
{
    if anns.len() > 0 {
        lemma_cooccurrence_le(anns.drop_last(), a, b);
    }
}

/// The method categories of `a`, as character vectors.
fn category_chars(a: &LlmAnnotation) -> (res: Vec<Vec<char>>)
    ensures
        word_views(res@) == categories_of(*a),
{
    let mut res: Vec<Vec<char>> = Vec::new();
    let mut k: usize = 0;
    while k < a.methods.len()
        invariant
            k <= a.methods@.len(),
            res@.len() == k,
            forall|j: int| 0 <= j < k ==> (#[trigger] res@[j])@ == a.methods@[j].category@,
        decreases a.methods@.len() - k,
    {
        res.push(chars_of(a.methods[k].category.as_str()));
        k += 1;
    }
    assert(word_views(res@) =~= categories_of(*a));
    res
}

/// Inserts `w` into the strictly ascending `sorted` unless it is already there.
fn insert_sorted_word(sorted: &mut Vec<Vec<char>>, w: Vec<char>)
    requires
        forall|k: int, l: int| 0 <= k < l < old(sorted)@.len() ==> lex_lt((#[trigger] old(sorted)@[k])@, (#[trigger] old(sorted)@[l])@),
    ensures
        forall|k: int, l: int| 0 <= k < l < final(sorted)@.len() ==> lex_lt((#[trigger] final(sorted)@[k])@, (#[trigger] final(sorted)@[l])@),
        forall|x: Seq<char>| word_views(final(sorted)@).contains(x) <==> (word_views(old(sorted)@).contains(x) || x == w@),
{
    let ghost s0 = sorted@;
    let mut j: usize = 0;
    loop
        invariant
            j <= sorted@.len(),
            sorted@ == s0,
            s0 == old(sorted)@,
            forall|k: int| 0 <= k < j ==> lex_lt((#[trigger] sorted@[k])@, w@),
        ensures
            j <= sorted@.len(),
            sorted@ == s0,
            s0 == old(sorted)@,
            forall|k: int| 0 <= k < j ==> lex_lt((#[trigger] sorted@[k])@, w@),
            j < sorted@.len() ==> !lex_lt(sorted@[j as int]@, w@),
        decreases sorted@.len() - j,
    {
        if j == sorted.len() {
            break;
        }
        if !lex_less(&sorted[j], &w) {
            break;
        }
        j += 1;
    }
    if j < sorted.len() && chars_eq(&sorted[j], &w) {
        assert(word_views(s0)[j as int] == w@);
        return;
    }
    proof {
        if j < s0.len() {
            lemma_lex_total(s0[j as int]@, w@);
        }
    }
    sorted.insert(j, w);
    let ghost s = sorted@;
    assert(j < s0.len() ==> lex_lt(w@, s0[j as int]@));
    assert forall|k: int, l: int| 0 <= k < l < s.len() implies lex_lt((#[trigger] s[k])@, (#[trigger] s[l])@) by {
        if l > j && l - 1 > j {
            assert(lex_lt(old(sorted)@[j as int]@, old(sorted)@[l - 1]@));
            lemma_lex_transitive(w@, s0[j as int]@, s0[l - 1]@);
        }
        if k < j && l > j {
            lemma_lex_transitive(s[k]@, w@, s0[l - 1]@);
        } else if k > j {
            assert(lex_lt(old(sorted)@[k - 1]@, old(sorted)@[l - 1]@));
        } else if k < j && l < j {
            assert(lex_lt(old(sorted)@[k]@, old(sorted)@[l]@));
        }
    }
    assert forall|x: Seq<char>| word_views(s).contains(x) <==> (word_views(s0).contains(x) || x == w@) by {
        if word_views(s).contains(x) {
            let k = choose|k: int| 0 <= k < word_views(s).len() && word_views(s)[k] == x;
            if k < j {
                assert(word_views(s0)[k] == x);
            } else if k > j {
                assert(word_views(s0)[k - 1] == x);
            }
        }
        if word_views(s0).contains(x) {
            let k = choose|k: int| 0 <= k < word_views(s0).len() && word_views(s0)[k] == x;
            if k < j {
                assert(word_views(s)[k] == x);
            } else {
                assert(word_views(s)[k + 1] == x);
            }
        }
        if x == w@ {
            assert(word_views(s)[j as int] == x);
        }
    }
}

/// Build a method-category co-occurrence matrix from annotations.
///
/// `categories` lists every category of every annotation once, alphabetically. For each
/// pair of categories `(a, b)` with `a <= b` (a self-pair when equal), `pair_counts` holds
/// how many annotations have methods in both, for the pairs where that is at least one.
pub fn build_method_matrix(annotations: &[LlmAnnotation]) -> (res: MethodMatrix)
    requires
        annotations@.len() <= u32::MAX,
    ensures
        forall|k: int, l: int| 0 <= k < l < res.categories@.len() ==> lex_lt((#[trigger] res.categories@[k])@, (#[trigger] res.categories@[l])@),
        forall|c: Seq<char>| res.categories@.map_values(|s: String| s@).contains(c) <==> is_category(annotations@, c),
        forall|k: int| 0 <= k < res.pair_counts@.len() ==> {
            let e = #[trigger] res.pair_counts@[k];
            &&& lex_le(e.0@, e.1@)
            &&& e.2 == cooccurrence(annotations@, e.0@, e.1@)
            &&& e.2 > 0
        },
        forall|k: int, l: int| 0 <= k < l < res.pair_counts@.len() ==> pair_lt(
            (#[trigger] res.pair_counts@[k]).0@, res.pair_counts@[k].1@,
            (#[trigger] res.pair_counts@[l]).0@, res.pair_counts@[l].1@),
        forall|a: Seq<char>, b: Seq<char>| lex_le(a, b) && #[trigger] cooccurrence(annotations@, a, b) > 0
            ==> exists|k: int| 0 <= k < res.pair_counts@.len() && (#[trigger] res.pair_counts@[k]).0@ == a
                && res.pair_counts@[k].1@ == b,
{
    let n = annotations.len();
    let mut per_ann: Vec<Vec<Vec<char>>> = Vec::new();
    let mut i: usize = 0;
    while i < n
        invariant
            i <= n == annotations@.len(),
            per_ann@.len() == i,
            forall|j: int| 0 <= j < i ==> word_views((#[trigger] per_ann@[j])@) == categories_of(annotations@[j]),
        decreases n - i,
    {
        per_ann.push(category_chars(&annotations[i]));
        i += 1;
    }
    let distinct = collect_distinct(&per_ann);
    let mut cats: Vec<Vec<char>> = Vec::new();
    let mut d: usize = 0;
    while d < distinct.len()
        invariant
            d <= distinct@.len(),
            forall|k: int, l: int| 0 <= k < l < cats@.len() ==> lex_lt((#[trigger] cats@[k])@, (#[trigger] cats@[l])@),
            forall|x: Seq<char>| word_views(cats@).contains(x) <==> word_views(distinct@.take(d as int)).contains(x),
        decreases distinct@.len() - d,
    {
        let w = chars_of_vec(&distinct[d]);
        let ghost cb = cats@;
        insert_sorted_word(&mut cats, w);
        proof {
            assert forall|x: Seq<char>| word_views(cats@).contains(x) <==> word_views(distinct@.take(d + 1)).contains(x) by {
                let a = word_views(distinct@.take(d as int));
                let b = word_views(distinct@.take(d + 1));
                assert(b =~= a.push(distinct@[d as int]@));
                assert(word_views(cb).contains(x) <==> a.contains(x));
                assert(word_views(cats@).contains(x) <==> (word_views(cb).contains(x) || x == distinct@[d as int]@));
                if x == distinct@[d as int]@ {
                    assert(b[a.len() as int] == x);
                }
                if b.contains(x) {
                    let k = choose|k: int| 0 <= k < b.len() && b[k] == x;
                    if k < a.len() {
                        assert(a[k] == x);
                    }
                }
                if a.contains(x) {
                    let k = choose|k: int| 0 <= k < a.len() && a[k] == x;
                    assert(b[k] == x);
                }
            }
        }
        d += 1;
    }
    assert(distinct@.take(distinct@.len() as int) == distinct@);
    proof {
        assert forall|c: Seq<char>| word_views(cats@).contains(c) <==> is_category(annotations@, c) by {
            if word_views(cats@).contains(c) {
                let k = choose|k: int| 0 <= k < word_views(distinct@).len() && word_views(distinct@)[k] == c;
                assert(in_some_list(per_ann@, distinct@[k]@));
                let j = choose|j: int| 0 <= j < per_ann@.len() && #[trigger] word_views(per_ann@[j]@).contains(c);
                assert(categories_of(annotations@[j]).contains(c));
            }
            if is_category(annotations@, c) {
                let j = choose|j: int| 0 <= j < annotations@.len() && #[trigger] categories_of(annotations@[j]).contains(c);
                assert(word_views(per_ann@[j]@).contains(c));
                assert(in_some_list(per_ann@, c));
            }
        }
    }
    // pair counts, in (row, col) order
    let cn = cats.len();
    let mut pairs: Vec<(String, String, u32)> = Vec::new();
    let ghost mut idx: Seq<(int, int)> = Seq::empty();
    let mut a: usize = 0;
    while a < cn
        invariant
            a <= cn == cats@.len(),
            n == annotations@.len() == per_ann@.len(),
            n <= u32::MAX,
            forall|j: int| 0 <= j < n ==> word_views((#[trigger] per_ann@[j])@) == categories_of(annotations@[j]),
            forall|k: int, l: int| 0 <= k < l < cats@.len() ==> lex_lt((#[trigger] cats@[k])@, (#[trigger] cats@[l])@),
            idx.len() == pairs@.len(),
            forall|k: int| 0 <= k < idx.len() ==> {
                let p = #[trigger] idx[k];
                &&& 0 <= p.0 <= p.1 < cn
                &&& p.0 < a
                &&& pairs@[k].0@ == cats@[p.0]@
                &&& pairs@[k].1@ == cats@[p.1]@
                &&& pairs@[k].2 == cooccurrence(annotations@, cats@[p.0]@, cats@[p.1]@)
                &&& pairs@[k].2 > 0
            },
            forall|k: int, l: int| 0 <= k < l < idx.len() ==> (#[trigger] idx[k]).0 < (#[trigger] idx[l]).0
                || (idx[k].0 == idx[l].0 && idx[k].1 < idx[l].1),
            forall|x: int, y: int| 0 <= x <= y < cn && x < a && cooccurrence(annotations@, cats@[x]@, cats@[y]@) > 0
                ==> exists|k: int| 0 <= k < idx.len() && #[trigger] idx[k] == (x, y),
        decreases cn - a,
    {
        let mut b: usize = a;
        while b < cn
            invariant
                a < cn == cats@.len(),
                a <= b <= cn,
                n == annotations@.len() == per_ann@.len(),
                n <= u32::MAX,
                forall|j: int| 0 <= j < n ==> word_views((#[trigger] per_ann@[j])@) == categories_of(annotations@[j]),
                forall|k: int, l: int| 0 <= k < l < cats@.len() ==> lex_lt((#[trigger] cats@[k])@, (#[trigger] cats@[l])@),
                idx.len() == pairs@.len(),
                forall|k: int| 0 <= k < idx.len() ==> {
                    let p = #[trigger] idx[k];
                    &&& 0 <= p.0 <= p.1 < cn
                    &&& (p.0 < a || (p.0 == a && p.1 < b))
                    &&& pairs@[k].0@ == cats@[p.0]@
                    &&& pairs@[k].1@ == cats@[p.1]@
                    &&& pairs@[k].2 == cooccurrence(annotations@, cats@[p.0]@, cats@[p.1]@)
                    &&& pairs@[k].2 > 0
                },
                forall|k: int, l: int| 0 <= k < l < idx.len() ==> (#[trigger] idx[k]).0 < (#[trigger] idx[l]).0
                    || (idx[k].0 == idx[l].0 && idx[k].1 < idx[l].1),
                forall|x: int, y: int| 0 <= x <= y < cn && (x < a || (x == a && y < b))
                    && cooccurrence(annotations@, cats@[x]@, cats@[y]@) > 0
                    ==> exists|k: int| 0 <= k < idx.len() && #[trigger] idx[k] == (x, y),
            decreases cn - b,
        {
            let mut count: usize = 0;
            let mut j: usize = 0;
            while j < n
                invariant
                    j <= n == annotations@.len() == per_ann@.len(),
                    a < cn == cats@.len(),
                    b < cn,
                    forall|q: int| 0 <= q < n ==> word_views((#[trigger] per_ann@[q])@) == categories_of(annotations@[q]),
                    count == cooccurrence(annotations@.take(j as int), cats@[a as int]@, cats@[b as int]@),
                    count <= j,
                decreases n - j,
            {
                assert(annotations@.take(j + 1).drop_last() == annotations@.take(j as int));
                if holds_chars(&per_ann[j], &cats[a]) && holds_chars(&per_ann[j], &cats[b]) {
                    count += 1;
                }
                j += 1;
            }
            assert(annotations@.take(n as int) == annotations@);
            let ghost idx0 = idx;
            if count > 0 {
                let ra = string_of(&cats[a]);
                let rb = string_of(&cats[b]);
                pairs.push((ra, rb, count as u32));
                proof {
                    idx = idx.push((a as int, b as int));
                }
            }
            proof {
                assert forall|x: int, y: int| 0 <= x <= y < cn && (x < a || (x == a && y < b + 1))
                    && cooccurrence(annotations@, cats@[x]@, cats@[y]@) > 0
                    implies exists|k: int| 0 <= k < idx.len() && #[trigger] idx[k] == (x, y) by {
                    if x == a && y == b {
                        assert(idx[idx.len() - 1] == (x, y));
                    } else {
                        let k = choose|k: int| 0 <= k < idx0.len() && #[trigger] idx0[k] == (x, y);
                        assert(idx[k] == (x, y));
                    }
                }
            }
            b += 1;
        }
        a += 1;
    }
    let mut categories: Vec<String> = Vec::new();
    let mut k: usize = 0;
    while k < cn
        invariant
            k <= cn == cats@.len(),
            categories@.len() == k,
            forall|q: int| 0 <= q < k ==> (#[trigger] categories@[q])@ == cats@[q]@,
        decreases cn - k,
    {
        categories.push(string_of(&cats[k]));
        k += 1;
    }
    proof {
        assert(categories@.map_values(|s: String| s@) =~= word_views(cats@));
        assert forall|k1: int, l: int| 0 <= k1 < l < pairs@.len() implies pair_lt(
            (#[trigger] pairs@[k1]).0@, pairs@[k1].1@, (#[trigger] pairs@[l]).0@, pairs@[l].1@) by {
            let p = idx[k1];
            let q = idx[l];
            if p.0 < q.0 {
            } else {
                assert(p.1 < q.1);
            }
        }
        assert forall|k1: int| 0 <= k1 < pairs@.len() implies ({
            let e = #[trigger] pairs@[k1];
            &&& lex_le(e.0@, e.1@)
            &&& e.2 == cooccurrence(annotations@, e.0@, e.1@)
            &&& e.2 > 0
        }) by {
            let p = idx[k1];
        }
        assert forall|x: Seq<char>, y: Seq<char>| lex_le(x, y) && #[trigger] cooccurrence(annotations@, x, y) > 0
            implies exists|k1: int| 0 <= k1 < pairs@.len() && (#[trigger] pairs@[k1]).0@ == x && pairs@[k1].1@ == y by {
            lemma_cooccurrence_categories(annotations@, x, y);
            assert(is_category(annotations@, x) && is_category(annotations@, y));
            assert(word_views(cats@).contains(x) && word_views(cats@).contains(y));
            let xi = choose|i: int| 0 <= i < word_views(cats@).len() && word_views(cats@)[i] == x;
            let yi = choose|i: int| 0 <= i < word_views(cats@).len() && word_views(cats@)[i] == y;
            if yi < xi {
                assert(lex_lt(cats@[yi]@, cats@[xi]@));
                lemma_lex_total(x, y);
                lemma_lex_irreflexive(x);
            }
            assert(cats@[xi]@ == x);
            assert(cats@[yi]@ == y);
            assert(xi <= yi);
            let k1 = choose|k1: int| 0 <= k1 < idx.len() && #[trigger] idx[k1] == (xi, yi);
            assert(pairs@[k1].0@ == x);
            assert(pairs@[k1].1@ == y);
        }
    }
    let res = MethodMatrix { categories, pair_counts: pairs };
    assert(res.pair_counts@ == pairs@);
    res
}

/// Annotations that count for a pair have methods in both categories.
pub open spec fn cooccurrence_implies_categories(anns: Seq<LlmAnnotation>, a: Seq<char>, b: Seq<char>) -> bool {
    cooccurrence(anns, a, b) > 0 ==> is_category(anns, a) && is_category(anns, b)
}

/// A pair of categories co-occurs only in annotations that have both, so both are
/// categories of the annotations.
pub proof fn lemma_cooccurrence_categories(anns: Seq<LlmAnnotation>, a: Seq<char>, b: Seq<char>)
    ensures
        cooccurrence_implies_categories(anns, a, b),
    decreases anns.len(),
{
    if anns.len() > 0 {
        lemma_cooccurrence_categories(anns.drop_last(), a, b);
        if cooccurrence(anns.drop_last(), a, b) > 0 {
            let i = choose|i: int| 0 <= i < anns.drop_last().len() && #[trigger] categories_of(anns.drop_last()[i]).contains(a);
            assert(categories_of(anns[i]).contains(a));
            let i2 = choose|i: int| 0 <= i < anns.drop_last().len() && #[trigger] categories_of(anns.drop_last()[i]).contains(b);
            assert(categories_of(anns[i2]).contains(b));
        } else if cooccurrence(anns, a, b) > 0 {
            assert(categories_of(anns[anns.len() - 1]).contains(a));
            assert(categories_of(anns[anns.len() - 1]).contains(b));
        }
    }
}

impl MethodMatrix {
    /// Entry `k` of `pair_counts` is for the pair `(a, b)`, in that order.
    pub open spec fn entry_is(self, k: int, a: Seq<char>, b: Seq<char>) -> bool {
        0 <= k < self.pair_counts@.len() && self.pair_counts@[k].0@ == a && self.pair_counts@[k].1@ == b
    }

    /// The first entry of `pair_counts` for the pair `(a, b)`, in that order.
    pub open spec fn entry_for(self, a: Seq<char>, b: Seq<char>) -> Option<int> {
        if exists|k: int| #[trigger] self.entry_is(k, a, b) && forall|j: int| 0 <= j < k ==> !self.entry_is(j, a, b) {
            Some(choose|k: int| #[trigger] self.entry_is(k, a, b) && forall|j: int| 0 <= j < k ==> !self.entry_is(j, a, b))
        } else {
            None
        }
    }

    /// Whether the matrix has an entry for the pair `(a, b)`, in that order.
    pub fn has_pair(&self, a: &str, b: &str) -> (res: bool)
        ensures
            res == self.entry_for(a@, b@) is Some,
    {
        self.find_pair(a, b).is_some()
    }

    /// The count of the pair `(a, b)`, in that order; 0 where the matrix has no entry
    /// for it.
    pub fn pair_count(&self, a: &str, b: &str) -> (res: u32)
        ensures
            match self.entry_for(a@, b@) {
                Some(k) => res == self.pair_counts@[k].2,
                None => res == 0,
            },
    {
        let found = self.find_pair(a, b);
        proof {
            if let Some(k) = self.entry_for(a@, b@) {
                assert(self.entry_is(k, a@, b@));
            }
        }
        match found {
            Some(k) => {
                proof {
                    assert(self.entry_for(a@, b@) is Some);
                    let e = self.entry_for(a@, b@)->Some_0;
                    assert(found == Some(e as usize));
                    assert(self.entry_is(e, a@, b@));
                    assert(self.pair_counts@.len() == self.pair_counts.len());
                    assert(k as int == e);
                }
                self.pair_counts[k].2
            },
            None => 0,
        }
    }

    /// The index of the first entry for the pair `(a, b)`.
    fn find_pair(&self, a: &str, b: &str) -> (res: Option<usize>)
        ensures
            res == match self.entry_for(a@, b@) {
                Some(k) => Some(k as usize),
                None => None::<usize>,
            },
    {
        let av = chars_of(a);
        let bv = chars_of(b);
        let mut k: usize = 0;
        while k < self.pair_counts.len()
            invariant
                k <= self.pair_counts@.len(),
                av@ == a@,
                bv@ == b@,
                forall|j: int| 0 <= j < k ==> !self.entry_is(j, a@, b@),
            decreases self.pair_counts@.len() - k,
        {
            let e = &self.pair_counts[k];
            if chars_eq(&chars_of(e.0.as_str()), &av) && chars_eq(&chars_of(e.1.as_str()), &bv) {
                proof {
                    assert(self.entry_is(k as int, a@, b@));
                    let c = choose|c: int| #[trigger] self.entry_is(c, a@, b@) && forall|j: int| 0 <= j < c ==> !self.entry_is(j, a@, b@);
                    if c < k {
                    } else if c > k {
                        assert(!self.entry_is(k as int, a@, b@));
                    }
                }
                return Some(k);
            }
            k += 1;
        }
        proof {
            if exists|c: int| #[trigger] self.entry_is(c, a@, b@) && forall|j: int| 0 <= j < c ==> !self.entry_is(j, a@, b@) {
                let c = choose|c: int| #[trigger] self.entry_is(c, a@, b@) && forall|j: int| 0 <= j < c ==> !self.entry_is(j, a@, b@);
                assert(!self.entry_is(c, a@, b@));
            }
        }
        None
    }
}

/// Co-occurrence does not depend on the order of the pair.
pub proof fn lemma_cooccurrence_symmetric(anns: Seq<LlmAnnotation>, a: Seq<char>, b: Seq<char>)
    ensures
        cooccurrence(anns, a, b) == cooccurrence(anns, b, a),
    decreases anns.len(),
{
    if anns.len() > 0 {
        lemma_cooccurrence_symmetric(anns.drop_last(), a, b);
    }
}

} // verus!
