//! The selection of papers and citations exported with the community graph: papers
//! published within a date range, identified by their unversioned ids, and the
//! citations among the exported papers.
use vstd::prelude::*;
use crate::aggregation::{holds_chars, lex_le};
use crate::community::{CommunityAssignment, OTHER_COMMUNITY_ID};
use crate::contradiction::strings_view;
use crate::ids::{strip_version, strip_version_suffix};
use crate::order::{lemma_lex_total, lex_less, lex_lt};
use crate::paper::Paper;
use crate::tfidf::{sort_strings, strings_sorted};
use crate::text::{
    ascii_digit, bytes_boundary, chars_eq, chars_of, char_utf8_len, checked_utf8_length, cut_at, is_ascii_digit,
    prefix_of_bytes, string_of, utf8_len,
};
use crate::words::word_views;

verus! {

/// `published` lies within the range: not after `before` and not before `after`, each
/// bound applying where it is given (dates compare as strings).
pub open spec fn in_range(published: Seq<char>, before: Option<Seq<char>>, after: Option<Seq<char>>) -> bool {
    &&& (before matches Some(c) ==> lex_le(published, c))
    &&& (after matches Some(f) ==> lex_le(f, published))
}

/// Whether `a` comes before `b` or equals it.
fn lex_le_exec(a: &[char], b: &[char]) -> (res: bool)
    ensures
        res == lex_le(a@, b@),
{
    lex_less(a, b) || chars_eq(a, b)
}

/// Whether a paper published on `published` lies within the range given by `before`
/// and `after`.
pub fn published_in_range(published: &str, before: Option<&str>, after: Option<&str>) -> (res: bool)
    ensures
        res == in_range(published@, match before { Some(c) => Some(c@), None => None },
            match after { Some(f) => Some(f@), None => None }),
{
    let p = chars_of(published);
    let before_ok = match before {
        Some(c) => lex_le_exec(&p, &chars_of(c)),
        None => true,
    };
    let after_ok = match after {
        Some(f) => lex_le_exec(&chars_of(f), &p),
        None => true,
    };
    before_ok && after_ok
}

/// The papers of `papers` within the range, by their unversioned ids.
pub open spec fn scope_id(papers: Seq<Paper>, before: Option<Seq<char>>, after: Option<Seq<char>>, w: Seq<char>) -> bool {
    exists|i: int| 0 <= i < papers.len() && in_range((#[trigger] papers[i]).published@, before, after)
        && strip_version(papers[i].id@) == w
}

/// The unversioned ids of the papers published within the range, each once, in
/// code-point order.
pub fn scope_ids(papers: &[Paper], before: Option<&str>, after: Option<&str>) -> (res: Vec<String>)
    ensures
        forall|i: int, j: int| 0 <= i < j < res@.len() ==> lex_lt((#[trigger] res@[i])@, (#[trigger] res@[j])@),
        forall|w: Seq<char>| strings_view(res@).contains(w) <==> scope_id(papers@,
            match before { Some(c) => Some(c@), None => None },
            match after { Some(f) => Some(f@), None => None }, w),
{
    let ghost b = match before { Some(c) => Some(c@), None => None::<Seq<char>> };
    let ghost a = match after { Some(f) => Some(f@), None => None::<Seq<char>> };
    let mut ids: Vec<String> = Vec::new();
    let mut i: usize = 0;
    while i < papers.len()
        invariant
            i <= papers@.len(),
            b == match before { Some(c) => Some(c@), None => None::<Seq<char>> },
            a == match after { Some(f) => Some(f@), None => None::<Seq<char>> },
            forall|w: Seq<char>| strings_view(ids@).contains(w) <==> exists|k: int| 0 <= k < i
                && in_range((#[trigger] papers@[k]).published@, b, a) && strip_version(papers@[k].id@) == w,
        decreases papers@.len() - i,
    {
        let p = &papers[i];
        let ghost before_ids = strings_view(ids@);
        if published_in_range(p.published.as_str(), before, after) {
            ids.push(strip_version_suffix(p.id.as_str()));
            assert(strings_view(ids@) =~= before_ids.push(strip_version(p.id@)));
        }
        proof {
            assert forall|w: Seq<char>| strings_view(ids@).contains(w) <==> exists|k: int| 0 <= k < i + 1
                && in_range((#[trigger] papers@[k]).published@, b, a) && strip_version(papers@[k].id@) == w by {
                if strings_view(ids@).contains(w) && !before_ids.contains(w) {
                    assert(strings_view(ids@).last() == w) by {
                        let q = choose|q: int| 0 <= q < strings_view(ids@).len() && strings_view(ids@)[q] == w;
                        if q < before_ids.len() {
                            assert(before_ids[q] == w);
                        }
                    }
                    assert(in_range(papers@[i as int].published@, b, a) && strip_version(papers@[i as int].id@) == w);
                }
                if before_ids.contains(w) {
                    let q = choose|q: int| 0 <= q < before_ids.len() && before_ids[q] == w;
                    assert(strings_view(ids@)[q] == w);
                }
                if exists|k: int| 0 <= k < i + 1 && in_range((#[trigger] papers@[k]).published@, b, a) && strip_version(papers@[k].id@) == w {
                    let k = choose|k: int| 0 <= k < i + 1 && in_range((#[trigger] papers@[k]).published@, b, a) && strip_version(papers@[k].id@) == w;
                    if k == i {
                        assert(strings_view(ids@).last() == w);
                        assert(strings_view(ids@)[strings_view(ids@).len() - 1] == w);
                    }
                }
            }
        }
        i += 1;
    }
    let sorted = sort_strings(&ids);
    // drop repeats: the sorted ids that equal their predecessor
    let mut res: Vec<String> = Vec::new();
    let ghost sv = word_views(sorted@);
    let mut k: usize = 0;
    while k < sorted.len()
        invariant
            k <= sorted@.len(),
            sv == word_views(sorted@),
            strings_sorted(sv),
            forall|x: int, y: int| 0 <= x < y < res@.len() ==> lex_lt((#[trigger] res@[x])@, (#[trigger] res@[y])@),
            res@.len() > 0 ==> k > 0 && res@.last()@ == sv[k - 1],
            forall|w: Seq<char>| strings_view(res@).contains(w) <==> sv.take(k as int).contains(w),
        decreases sorted@.len() - k,
    {
        let ghost r0 = strings_view(res@);
        let fresh = res.len() == 0 || !chars_eq(&chars_of(res[res.len() - 1].as_str()), &sorted[k]);
        if fresh {
            proof {
                if res@.len() > 0 {
                    assert(!lex_lt(sv[k as int], sv[k - 1]));
                    lemma_lex_total(sv[k as int], sv[k - 1]);
                    assert forall|x: int| 0 <= x < res@.len() implies lex_lt((#[trigger] res@[x])@, sv[k as int]) by {
                        if x < res@.len() - 1 {
                            assert(lex_lt(res@[x]@, res@.last()@));
                            crate::order::lemma_lex_transitive(res@[x]@, res@.last()@, sv[k as int]);
                        }
                    }
                }
            }
            res.push(string_of(&sorted[k]));
            assert(strings_view(res@) =~= r0.push(sv[k as int]));
        }
        proof {
            assert(sv.take(k + 1) =~= sv.take(k as int).push(sv[k as int]));
            let t1 = sv.take(k + 1);
            let t0 = sv.take(k as int);
            assert forall|w: Seq<char>| strings_view(res@).contains(w) <==> t1.contains(w) by {
                if t1.contains(w) && !t0.contains(w) {
                    assert(sv[k as int] == w) by {
                        let q = choose|q: int| 0 <= q < t1.len() && t1[q] == w;
                        if q < k {
                            assert(t0[q] == w);
                        }
                    }
                    if !fresh {
                        assert(strings_view(res@)[res@.len() - 1] == w);
                    } else {
                        assert(strings_view(res@)[res@.len() - 1] == w);
                    }
                }
                if t0.contains(w) {
                    let q = choose|q: int| 0 <= q < t0.len() && t0[q] == w;
                    assert(t1[q] == w);
                }
                if strings_view(res@).contains(w) && !r0.contains(w) {
                    let q = choose|q: int| 0 <= q < strings_view(res@).len() && strings_view(res@)[q] == w;
                    if q < r0.len() {
                        assert(r0[q] == w);
                    }
                    assert(t1[k as int] == w);
                }
                if r0.contains(w) {
                    let q = choose|q: int| 0 <= q < r0.len() && r0[q] == w;
                    assert(strings_view(res@)[q] == w);
                }
            }
        }
        k += 1;
    }
    proof {
        broadcast use vstd::seq_lib::to_multiset_contains;
        assert(sv.take(k as int) =~= sv);
        assert forall|w: Seq<char>| sv.contains(w) <==> strings_view(ids@).contains(w) by {
            if sv.contains(w) {
                assert(sv.to_multiset().count(w) > 0);
            }
            if strings_view(ids@).contains(w) {
                assert(strings_view(ids@).to_multiset().count(w) > 0);
            }
        }
    }
    res
}

/// The community of the paper `id` among the assignments `a` outside the Other bucket:
/// the last such assignment for it.
pub open spec fn assigned_community(a: Seq<CommunityAssignment>, id: Seq<char>) -> Option<u32>
    decreases a.len(),
{
    if a.len() == 0 {
        None
    } else if a.last().community_id != OTHER_COMMUNITY_ID && a.last().arxiv_id@ == id {
        Some(a.last().community_id)
    } else {
        assigned_community(a.drop_last(), id)
    }
}

/// The exported nodes: each id of `ids` that has a community, with it, in order.
pub open spec fn exported_nodes(ids: Seq<Seq<char>>, a: Seq<CommunityAssignment>) -> Seq<(Seq<char>, u32)>
    decreases ids.len(),
{
    if ids.len() == 0 {
        Seq::empty()
    } else {
        exported_nodes(ids.drop_last(), a) + match assigned_community(a, ids.last()) {
            Some(c) => seq![(ids.last(), c)],
            None => Seq::empty(),
        }
    }
}

/// The community of the paper `id`, where it has one outside the Other bucket.
fn community_of(a: &[CommunityAssignment], id: &Vec<char>) -> (res: Option<u32>)
    ensures
        res == assigned_community(a@, id@),
{
    let mut found: Option<u32> = None;
    let mut k: usize = 0;
    while k < a.len()
        invariant
            k <= a@.len(),
            found == assigned_community(a@.take(k as int), id@),
        decreases a@.len() - k,
    {
        assert(a@.take(k + 1).drop_last() =~= a@.take(k as int));
        if a[k].community_id != OTHER_COMMUNITY_ID && chars_eq(&chars_of(a[k].arxiv_id.as_str()), id) {
            found = Some(a[k].community_id);
        }
        k += 1;
    }
    assert(a@.take(k as int) =~= a@);
    found
}

/// The nodes of the exported graph: each of `ids` (the papers in scope) that belongs to
/// a community other than the Other bucket, with that community, in order.
pub fn export_nodes(ids: &[String], assignments: &[CommunityAssignment]) -> (res: Vec<(String, u32)>)
    ensures
        res@.map_values(|n: (String, u32)| (n.0@, n.1)) == exported_nodes(strings_view(ids@), assignments@),
{
    let ghost iv = strings_view(ids@);
    let mut res: Vec<(String, u32)> = Vec::new();
    let mut k: usize = 0;
    while k < ids.len()
        invariant
            k <= ids@.len(),
            iv == strings_view(ids@),
            res@.map_values(|n: (String, u32)| (n.0@, n.1)) == exported_nodes(iv.take(k as int), assignments@),
        decreases ids@.len() - k,
    {
        let ghost r0 = res@;
        assert(iv.take(k + 1).drop_last() =~= iv.take(k as int));
        assert(iv.take(k + 1).last() == ids@[k as int]@);
        let idv = chars_of(ids[k].as_str());
        if let Some(c) = community_of(assignments, &idv) {
            res.push((ids[k].clone(), c));
            assert(res@.map_values(|n: (String, u32)| (n.0@, n.1)) =~= r0.map_values(|n: (String, u32)| (n.0@, n.1)).push((ids@[k as int]@, c)));
        } else {
            assert(exported_nodes(iv.take(k + 1), assignments@) =~= exported_nodes(iv.take(k as int), assignments@));
        }
        k += 1;
    }
    assert(iv.take(k as int) =~= iv);
    res
}

/// The citations among the exported nodes: the edges of `edges`, their endpoints
/// without version, whose endpoints are both among `nodes`, in order.
pub open spec fn edges_among(nodes: Seq<Seq<char>>, edges: Seq<(String, String)>) -> Seq<(Seq<char>, Seq<char>)>
    decreases edges.len(),
{
    if edges.len() == 0 {
        Seq::empty()
    } else {
        let s = strip_version(edges.last().0@);
        let d = strip_version(edges.last().1@);
        edges_among(nodes, edges.drop_last()) + if nodes.contains(s) && nodes.contains(d) {
            seq![(s, d)]
        } else {
            Seq::empty()
        }
    }
}

/// The edges of the exported graph: the citation edges whose unversioned endpoints are
/// both exported nodes.
pub fn export_edges(node_ids: &[String], edges: &[(String, String)]) -> (res: Vec<(String, String)>)
    ensures
        res@.map_values(|e: (String, String)| (e.0@, e.1@)) == edges_among(strings_view(node_ids@), edges@),
{
    let mut nodes: Vec<Vec<char>> = Vec::new();
    let mut i: usize = 0;
    while i < node_ids.len()
        invariant
            i <= node_ids@.len(),
            nodes@.len() == i,
            word_views(nodes@) == strings_view(node_ids@).take(i as int),
        decreases node_ids@.len() - i,
    {
        let ghost n0 = nodes@;
        nodes.push(chars_of(node_ids[i].as_str()));
        assert(word_views(nodes@) =~= word_views(n0).push(node_ids@[i as int]@));
        assert(strings_view(node_ids@).take(i + 1) =~= strings_view(node_ids@).take(i as int).push(node_ids@[i as int]@));
        i += 1;
    }
    assert(strings_view(node_ids@).take(i as int) =~= strings_view(node_ids@));
    let ghost nv = strings_view(node_ids@);
    let mut res: Vec<(String, String)> = Vec::new();
    let mut k: usize = 0;
    while k < edges.len()
        invariant
            k <= edges@.len(),
            word_views(nodes@) == nv,
            res@.map_values(|e: (String, String)| (e.0@, e.1@)) == edges_among(nv, edges@.take(k as int)),
        decreases edges@.len() - k,
    {
        let ghost r0 = res@;
        assert(edges@.take(k + 1).drop_last() =~= edges@.take(k as int));
        let src = strip_version_suffix(edges[k].0.as_str());
        let dst = strip_version_suffix(edges[k].1.as_str());
        let keep = holds_chars(&nodes, &chars_of(src.as_str())) && holds_chars(&nodes, &chars_of(dst.as_str()));
        if keep {
            res.push((src, dst));
            assert(res@.map_values(|e: (String, String)| (e.0@, e.1@)) =~= r0.map_values(|e: (String, String)| (e.0@, e.1@))
                + seq![(strip_version(edges@[k as int].0@), strip_version(edges@[k as int].1@))]);
        } else {
            assert(edges_among(nv, edges@.take(k + 1)) =~= edges_among(nv, edges@.take(k as int)));
        }
        k += 1;
    }
    assert(edges@.take(k as int) =~= edges@);
    res
}


/// The value of the decimal digits `d`.
pub open spec fn digits_value(d: Seq<char>) -> int
    decreases d.len(),
{
    if d.len() == 0 {
        0
    } else {
        digits_value(d.drop_last()) * 10 + (d.last() as int - '0' as int)
    }
}

/// `d` is a non-empty run of ASCII digits.
pub open spec fn digit_run(d: Seq<char>) -> bool {
    d.len() > 0 && forall|i: int| 0 <= i < d.len() ==> is_ascii_digit(#[trigger] d[i])
}

/// What `i32::from_str` gives for a short text `p`: an optional `+` or `-` sign followed
/// by ASCII digits, or nothing.
pub open spec fn parse_signed(p: Seq<char>) -> Option<int> {
    if p.len() > 0 && (p[0] == '+' || p[0] == '-') {
        if digit_run(p.drop_first()) {
            Some(if p[0] == '-' { -digits_value(p.drop_first()) } else { digits_value(p.drop_first()) })
        } else {
            None
        }
    } else if digit_run(p) {
        Some(digits_value(p))
    } else {
        None
    }
}

/// The publication year in a date `published`: its first four bytes read as a number,
/// where it has four bytes and they parse.
pub open spec fn published_year_of(published: Seq<char>) -> Option<int> {
    if utf8_len(published) >= 4 {
        parse_signed(prefix_of_bytes(published, 4))
    } else {
        None
    }
}

proof fn lemma_utf8_len_at_least(s: Seq<char>)
    ensures
        utf8_len(s) >= s.len(),
    decreases s.len(),
{
    if s.len() > 0 {
        lemma_utf8_len_at_least(s.drop_last());
    }
}

proof fn lemma_digits_value_bound(d: Seq<char>)
    requires
        forall|i: int| 0 <= i < d.len() ==> is_ascii_digit(#[trigger] d[i]),
    ensures
        0 <= digits_value(d) < pow10(d.len()),
    decreases d.len(),
{
    if d.len() > 0 {
        assert forall|i: int| 0 <= i < d.drop_last().len() implies is_ascii_digit(#[trigger] d.drop_last()[i]) by {
            assert(d.drop_last()[i] == d[i]);
        }
        lemma_digits_value_bound(d.drop_last());
        assert(is_ascii_digit(d[d.len() - 1]));
    }
}

/// Ten to the power `n`.
pub open spec fn pow10(n: nat) -> int
    decreases n,
{
    if n == 0 { 1 } else { 10 * pow10((n - 1) as nat) }
}

/// The value of the ASCII digits `d[lo..hi]`.
fn digits_value_exec(d: &[char], lo: usize, hi: usize) -> (res: i32)
    requires
        lo <= hi <= d@.len(),
        hi - lo <= 4,
        forall|i: int| lo <= i < hi ==> is_ascii_digit(#[trigger] d@[i]),
    ensures
        res == digits_value(d@.subrange(lo as int, hi as int)),
        0 <= res < 10000,
{
    let mut v: i32 = 0;
    let mut k: usize = lo;
    while k < hi
        invariant
            lo <= k <= hi,
            hi <= d@.len(),
            hi - lo <= 4,
            forall|i: int| lo <= i < hi ==> is_ascii_digit(#[trigger] d@[i]),
            v == digits_value(d@.subrange(lo as int, k as int)),
            0 <= v < pow10((k - lo) as nat),
        decreases hi - k,
    {
        assert(d@.subrange(lo as int, k + 1).drop_last() == d@.subrange(lo as int, k as int));
        assert(is_ascii_digit(d@[k as int]));
        let digit = (d[k] as u32 - '0' as u32) as i32;
        assert(pow10((k - lo) as nat) <= 1000) by {
            assert(pow10(0) == 1);
            assert(pow10(1) == 10);
            assert(pow10(2) == 100);
            assert(pow10(3) == 1000);
        }
        assert(pow10((k + 1 - lo) as nat) == 10 * pow10((k - lo) as nat));
        v = v * 10 + digit;
        k += 1;
    }
    assert(pow10((hi - lo) as nat) <= 10000) by {
        assert(pow10(0) == 1);
        assert(pow10(1) == 10);
        assert(pow10(2) == 100);
        assert(pow10(3) == 1000);
        assert(pow10(4) == 10000);
    }
    v
}

/// The publication year of a paper published on `published`: the number its first four
/// bytes spell (`published[..4].parse::<i32>()`), where it has four bytes.
pub fn published_year(published: &str) -> (res: Option<i32>)
    requires
        utf8_len(published@) >= 4 ==> bytes_boundary(published@, 4),
    ensures
        res matches Some(y) ==> published_year_of(published@) == Some(y as int),
        res is None ==> published_year_of(published@) is None,
{
    let v = chars_of(published);
    let long = match checked_utf8_length(&v) {
        Some(n) => n >= 4,
        None => true,
    };
    if !long {
        return None;
    }
    let k = match cut_at(&v, 4) {
        Some(k) => k,
        None => v.len(),
    };
    proof {
        let w = choose|w: int| 0 <= w <= v@.len() && utf8_len(#[trigger] v@.take(w)) == 4;
        if utf8_len(v@) <= 4 {
            assert(v@.take(v@.len() as int) == v@);
            assert(utf8_len(v@) == 4);
            if w < v@.len() {
                crate::text::lemma_utf8_len_strict(v@, w, v@.len() as int);
            }
            assert(w == v@.len());
        }
        assert(v@.take(k as int) == prefix_of_bytes(v@, 4));
        lemma_utf8_len_at_least(v@.take(k as int));
        assert(v@ == published@);
        assert(published_year_of(published@) == parse_signed(v@.take(k as int)));
    }
    let ghost gp = v@.take(k as int);
    if k == 0 {
        return None;
    }
    let (sign, start): (i32, usize) = if v[0] == '-' {
        (-1, 1)
    } else if v[0] == '+' {
        (1, 1)
    } else {
        (1, 0)
    };
    if start == k {
        assert(!digit_run(gp.drop_first()));
        return None;
    }
    assert(k <= 4);
    let mut i: usize = start;
    while i < k
        invariant
            start <= i <= k,
            k <= v@.len(),
            k <= 4,
            gp == v@.take(k as int),
            start == 1 ==> gp[0] == '-' || gp[0] == '+',
            start == 0 ==> gp[0] != '-' && gp[0] != '+',
            start <= 1,
            sign == 1 || sign == -1,
            sign == -1 <==> (start == 1 && gp[0] == '-'),
            published_year_of(published@) == parse_signed(gp),
            forall|j: int| start <= j < i ==> is_ascii_digit(#[trigger] v@[j]),
        decreases k - i,
    {
        if !ascii_digit(v[i]) {
            proof {
                if start == 1 {
                    assert(gp.drop_first()[i - 1] == v@[i as int]);
                } else {
                    assert(gp[i as int] == v@[i as int]);
                }
            }
            return None;
        }
        i += 1;
    }
    let value = digits_value_exec(&v, start, k);
    proof {
        if start == 1 {
            assert(gp.drop_first() == v@.subrange(1, k as int));
            assert forall|j: int| 0 <= j < gp.drop_first().len() implies is_ascii_digit(#[trigger] gp.drop_first()[j]) by {
                assert(gp.drop_first()[j] == v@[j + 1]);
            }
        } else {
            assert(gp == v@.subrange(0, k as int));
            assert forall|j: int| 0 <= j < gp.len() implies is_ascii_digit(#[trigger] gp[j]) by {
                assert(gp[j] == v@[j]);
            }
        }
    }
    proof {
        if start == 1 {
            assert(gp.drop_first() =~= v@.subrange(1, k as int));
            assert(digit_run(gp.drop_first()));
        } else {
            assert(gp =~= v@.subrange(0, k as int));
            assert(digit_run(gp));
        }
    }
    Some(sign * value)
}

} // verus!
