//! Contradiction candidates: papers whose findings diverge in strength, and the context
//! handed to the LLM to verify a candidate gap.
use vstd::prelude::*;
use crate::annotation::{Finding, LlmAnnotation};
use crate::strs::{append_chars, contains_seq, contains_str, join_parts, join_with, lemma_contains_prefix};
use crate::text::{chars_of, string_of, to_lowercase, unicode_lowercase};

verus! {

/// The strength labels that count as strong evidence.
pub open spec fn strong_label(k: int) -> Seq<char> {
    if k == 0 { "strong"@ } else if k == 1 { "strong_evidence"@ } else if k == 2 { "established"@ } else { "confirmed"@ }
}

/// The strength labels that count as weak evidence.
pub open spec fn weak_label(k: int) -> Seq<char> {
    if k == 0 { "weak"@ } else if k == 1 { "weak_evidence"@ } else if k == 2 { "preliminary"@ }
    else if k == 3 { "speculative"@ } else { "inconclusive"@ }
}

/// How a strength label classifies: `Some(true)` strong, `Some(false)` weak, `None` neither.
/// The label is lowercased first, and a label counts when it contains a strong (or weak) label.
pub open spec fn strength_class(strength: Seq<char>) -> Option<bool> {
    let s = unicode_lowercase(strength);
    if exists|k: int| 0 <= k < 4 && contains_seq(s, #[trigger] strong_label(k)) {
        Some(true)
    } else if exists|k: int| 0 <= k < 5 && contains_seq(s, #[trigger] weak_label(k)) {
        Some(false)
    } else {
        None
    }
}

/// Classify a finding's strength label as strong (`Some(true)`), weak (`Some(false)`), or
/// neither.
pub fn classify_strength(strength: &str) -> (res: Option<bool>)
    ensures
        res == strength_class(strength@),
{
    let lower = to_lowercase(strength);
    let s = chars_of(lower.as_str());
    let c0 = contains_str(&s, "strong");
    let c1 = contains_str(&s, "strong_evidence");
    let c2 = contains_str(&s, "established");
    let c3 = contains_str(&s, "confirmed");
    if c0 || c1 || c2 || c3 {
        proof {
            if c0 { assert(contains_seq(s@, strong_label(0))); }
            else if c1 { assert(contains_seq(s@, strong_label(1))); }
            else if c2 { assert(contains_seq(s@, strong_label(2))); }
            else { assert(contains_seq(s@, strong_label(3))); }
        }
        return Some(true);
    }
    let w0 = contains_str(&s, "weak");
    let w1 = contains_str(&s, "weak_evidence");
    let w2 = contains_str(&s, "preliminary");
    let w3 = contains_str(&s, "speculative");
    let w4 = contains_str(&s, "inconclusive");
    proof {
        assert forall|k: int| 0 <= k < 4 implies !contains_seq(s@, #[trigger] strong_label(k)) by {
            if k == 0 {} else if k == 1 {} else if k == 2 {} else {}
        }
    }
    if w0 || w1 || w2 || w3 || w4 {
        proof {
            if w0 { assert(contains_seq(s@, weak_label(0))); }
            else if w1 { assert(contains_seq(s@, weak_label(1))); }
            else if w2 { assert(contains_seq(s@, weak_label(2))); }
            else if w3 { assert(contains_seq(s@, weak_label(3))); }
            else { assert(contains_seq(s@, weak_label(4))); }
        }
        return Some(false);
    }
    proof {
        assert forall|k: int| 0 <= k < 5 implies !contains_seq(s@, #[trigger] weak_label(k)) by {
            if k == 0 {} else if k == 1 {} else if k == 2 {} else if k == 3 {} else {}
        }
    }
    None
}

/// Some finding of `a` has a strength classified as `strong` (true) or weak (false).
pub open spec fn has_strength(a: LlmAnnotation, strong: bool) -> bool {
    exists|i: int| 0 <= i < a.findings@.len() && strength_class((#[trigger] a.findings@[i]).strength@) == Some(strong)
}

/// Whether some finding of `a` classifies as `strong`.
fn any_finding_with(a: &LlmAnnotation, strong: bool) -> (res: bool)
    ensures
        res == has_strength(*a, strong),
{
    let mut i: usize = 0;
    while i < a.findings.len()
        invariant
            i <= a.findings@.len(),
            forall|j: int| 0 <= j < i ==> strength_class((#[trigger] a.findings@[j]).strength@) != Some(strong),
        decreases a.findings@.len() - i,
    {
        if classify_strength(a.findings[i].strength.as_str()) == Some(strong) {
            return true;
        }
        i += 1;
    }
    false
}

/// The findings of two annotations diverge: both have findings, and one has a strong
/// finding while the other has a weak one.
pub open spec fn diverge(a: LlmAnnotation, b: LlmAnnotation) -> bool {
    &&& a.findings@.len() > 0
    &&& b.findings@.len() > 0
    &&& (has_strength(a, true) && has_strength(b, false)) || (has_strength(a, false) && has_strength(b, true))
}

/// Whether the findings of two annotations diverge in strength.
pub fn findings_diverge(ann_a: &LlmAnnotation, ann_b: &LlmAnnotation) -> (res: bool)
    ensures
        res == diverge(*ann_a, *ann_b),
{
    if ann_a.findings.len() == 0 || ann_b.findings.len() == 0 {
        return false;
    }
    let a_has_strong = any_finding_with(ann_a, true);
    let b_has_strong = any_finding_with(ann_b, true);
    let a_has_weak = any_finding_with(ann_a, false);
    let b_has_weak = any_finding_with(ann_b, false);
    (a_has_strong && b_has_weak) || (a_has_weak && b_has_strong)
}

/// A lowercased strength label reads as strong: it contains `strong`, `established` or
/// `confirmed`.
pub open spec fn strong_text(s: Seq<char>) -> bool {
    contains_seq(s, "strong"@) || contains_seq(s, "established"@) || contains_seq(s, "confirmed"@)
}

/// A lowercased strength label reads as weak: it contains `weak`, `preliminary`,
/// `speculative` or `inconclusive`.
pub open spec fn weak_text(s: Seq<char>) -> bool {
    contains_seq(s, "weak"@) || contains_seq(s, "preliminary"@) || contains_seq(s, "speculative"@)
        || contains_seq(s, "inconclusive"@)
}

/// The labels `strong_evidence` and `weak_evidence` add nothing: a label is strong
/// exactly when its lowercase form contains `strong`, `established` or `confirmed`, and
/// weak exactly when it is not strong and contains `weak`, `preliminary`, `speculative`
/// or `inconclusive`.
pub proof fn lemma_strength_class_words(strength: Seq<char>)
    ensures
        strength_class(strength) == if strong_text(unicode_lowercase(strength)) {
            Some(true)
        } else if weak_text(unicode_lowercase(strength)) {
            Some(false)
        } else {
            None::<bool>
        },
{
    let s = unicode_lowercase(strength);
    reveal_strlit("strong");
    reveal_strlit("strong_evidence");
    reveal_strlit("weak");
    reveal_strlit("weak_evidence");
    if contains_seq(s, strong_label(1)) {
        lemma_contains_prefix(s, "strong_evidence"@, 6);
        assert("strong_evidence"@.take(6) =~= "strong"@);
    }
    if contains_seq(s, weak_label(1)) {
        lemma_contains_prefix(s, "weak_evidence"@, 4);
        assert("weak_evidence"@.take(4) =~= "weak"@);
    }
    if strong_text(s) {
        if contains_seq(s, "strong"@) { assert(contains_seq(s, strong_label(0))); }
        else if contains_seq(s, "established"@) { assert(contains_seq(s, strong_label(2))); }
        else { assert(contains_seq(s, strong_label(3))); }
    } else {
        assert forall|k: int| 0 <= k < 4 implies !contains_seq(s, #[trigger] strong_label(k)) by {
            if k == 0 {} else if k == 1 {} else if k == 2 {} else {}
        }
        if weak_text(s) {
            if contains_seq(s, "weak"@) { assert(contains_seq(s, weak_label(0))); }
            else if contains_seq(s, "preliminary"@) { assert(contains_seq(s, weak_label(2))); }
            else if contains_seq(s, "speculative"@) { assert(contains_seq(s, weak_label(3))); }
            else { assert(contains_seq(s, weak_label(4))); }
        } else {
            assert forall|k: int| 0 <= k < 5 implies !contains_seq(s, #[trigger] weak_label(k)) by {
                if k == 0 {} else if k == 1 {} else if k == 2 {} else if k == 3 {} else {}
            }
        }
    }
}

/// Some finding of `a` has a strong strength label.
pub open spec fn some_strong(a: LlmAnnotation) -> bool {
    exists|i: int| 0 <= i < a.findings@.len() && strong_text(unicode_lowercase((#[trigger] a.findings@[i]).strength@))
}

/// Some finding of `a` has a weak strength label that is not also strong.
pub open spec fn some_weak(a: LlmAnnotation) -> bool {
    exists|i: int| 0 <= i < a.findings@.len() && !strong_text(unicode_lowercase((#[trigger] a.findings@[i]).strength@))
        && weak_text(unicode_lowercase(a.findings@[i].strength@))
}

/// The findings of two annotations diverge exactly when one has a strong finding and the
/// other a weak one; so divergence does not depend on the order of the two.
pub proof fn lemma_findings_diverge_words(a: LlmAnnotation, b: LlmAnnotation)
    ensures
        diverge(a, b) == ((some_strong(a) && some_weak(b)) || (some_weak(a) && some_strong(b))),
        diverge(a, b) == diverge(b, a),
{
    assert forall|x: LlmAnnotation| has_strength(x, true) == some_strong(x) && has_strength(x, false) == some_weak(x) by {
        assert forall|i: int| 0 <= i < x.findings@.len() implies
            #[trigger] strength_class(x.findings@[i].strength@) == if strong_text(unicode_lowercase(x.findings@[i].strength@)) {
                Some(true)
            } else if weak_text(unicode_lowercase(x.findings@[i].strength@)) {
                Some(false)
            } else {
                None::<bool>
            } by {
            lemma_strength_class_words(x.findings@[i].strength@);
        }
        if has_strength(x, true) {
            let i = choose|i: int| 0 <= i < x.findings@.len() && strength_class((#[trigger] x.findings@[i]).strength@) == Some(true);
            assert(strength_class(x.findings@[i].strength@) == Some(true));
        }
        if some_strong(x) {
            let i = choose|i: int| 0 <= i < x.findings@.len() && strong_text(unicode_lowercase((#[trigger] x.findings@[i]).strength@));
            assert(strength_class(x.findings@[i].strength@) == Some(true));
        }
        if has_strength(x, false) {
            let i = choose|i: int| 0 <= i < x.findings@.len() && strength_class((#[trigger] x.findings@[i]).strength@) == Some(false);
            assert(strength_class(x.findings@[i].strength@) == Some(false));
        }
        if some_weak(x) {
            let i = choose|i: int| 0 <= i < x.findings@.len() && !strong_text(unicode_lowercase((#[trigger] x.findings@[i]).strength@))
                && weak_text(unicode_lowercase(x.findings@[i].strength@));
            assert(strength_class(x.findings@[i].strength@) == Some(false));
        }
    }
}

/// One finding as a context line: `  - [strength] text`.
pub open spec fn finding_line(f: Finding) -> Seq<char> {
    "  - ["@ + f.strength@ + "] "@ + f.text@
}

/// The findings of an annotation, one per line, or `  (none)`.
pub open spec fn findings_block(a: LlmAnnotation) -> Seq<char> {
    if a.findings@.len() == 0 {
        "  (none)"@
    } else {
        join_with(a.findings@.map_values(|f: Finding| finding_line(f)), seq!['\n'])
    }
}

/// Strings as character sequences.
pub open spec fn strings_view(v: Seq<String>) -> Seq<Seq<char>> {
    v.map_values(|s: String| s@)
}

/// The findings block of a paper without findings reads `  (none)`; with one finding it is
/// that finding's line, `  - [strength] text`.
pub proof fn lemma_findings_block_base(a: LlmAnnotation)
    ensures
        a.findings@.len() == 0 ==> findings_block(a) == "  (none)"@,
        a.findings@.len() == 1 ==> findings_block(a)
            == "  - ["@ + a.findings@[0].strength@ + "] "@ + a.findings@[0].text@,
{
}

/// Each further finding adds one line to the findings block: a newline, then
/// `  - [strength] text` of that finding. So a paper with `n > 0` findings gets `n` lines,
/// in the order of its findings.
pub proof fn lemma_findings_block_adds_a_line(a: LlmAnnotation, b: LlmAnnotation, f: Finding)
    requires
        b.findings@.len() > 0,
        a.findings@ == b.findings@.push(f),
    ensures
        findings_block(a) == findings_block(b) + "\n"@ + ("  - ["@ + f.strength@ + "] "@ + f.text@),
{
    reveal_strlit("\n");
    let la = a.findings@.map_values(|g: Finding| finding_line(g));
    let lb = b.findings@.map_values(|g: Finding| finding_line(g));
    assert(la.drop_last() =~= lb);
    assert(la.last() == finding_line(f));
    assert(seq!['\n'] =~= "\n"@);
}

/// The context describing a contradiction candidate to the LLM.
pub open spec fn contradiction_context(id_a: Seq<char>, id_b: Seq<char>, a: LlmAnnotation, b: LlmAnnotation, terms: Seq<String>) -> Seq<char> {
    "Paper A (arxiv:"@ + id_a + "):\nFindings:\n"@ + findings_block(a) + "\n\nPaper B (arxiv:"@ + id_b
        + "):\nFindings:\n"@ + findings_block(b) + "\n\nShared high-weight terms: "@
        + join_with(strings_view(terms), ", "@)
}

/// Strings as character vectors.
pub fn strings_chars(v: &Vec<String>) -> (res: Vec<Vec<char>>)
    ensures
        res@.map_values(|w: Vec<char>| w@) == strings_view(v@),
{
    let mut res: Vec<Vec<char>> = Vec::new();
    let mut k: usize = 0;
    while k < v.len()
        invariant
            k <= v@.len(),
            res@.len() == k,
            forall|j: int| 0 <= j < k ==> (#[trigger] res@[j])@ == v@[j]@,
        decreases v@.len() - k,
    {
        res.push(chars_of(v[k].as_str()));
        k += 1;
    }
    assert(res@.map_values(|w: Vec<char>| w@) =~= strings_view(v@));
    res
}

/// The strings joined with `", "`.
pub fn join_comma(v: &Vec<String>) -> (res: Vec<char>)
    ensures
        res@ == join_with(strings_view(v@), ", "@),
{
    let parts = strings_chars(v);
    join_parts(&parts, &chars_of(", "))
}

/// The findings block of an annotation.
fn findings_lines(a: &LlmAnnotation) -> (res: Vec<char>)
    ensures
        res@ == findings_block(*a),
{
    if a.findings.len() == 0 {
        return chars_of("  (none)");
    }
    let mut lines: Vec<Vec<char>> = Vec::new();
    let mut k: usize = 0;
    while k < a.findings.len()
        invariant
            k <= a.findings@.len(),
            lines@.len() == k,
            forall|j: int| 0 <= j < k ==> (#[trigger] lines@[j])@ == finding_line(a.findings@[j]),
        decreases a.findings@.len() - k,
    {
        let f = &a.findings[k];
        let mut line = chars_of("  - [");
        append_chars(&mut line, &chars_of(f.strength.as_str()));
        append_chars(&mut line, &chars_of("] "));
        append_chars(&mut line, &chars_of(f.text.as_str()));
        lines.push(line);
        k += 1;
    }
    assert(lines@.map_values(|w: Vec<char>| w@) =~= a.findings@.map_values(|f: Finding| finding_line(f)));
    let nl = vec!['\n'];
    assert(nl@ =~= seq!['\n']);
    join_parts(&lines, &nl)
}

/// The context describing a contradiction candidate (papers `arxiv_a` and `arxiv_b`) to the
/// LLM: each paper's findings, then the shared high-weight terms.
pub fn build_contradiction_context(
    arxiv_a: &str,
    arxiv_b: &str,
    ann_a: &LlmAnnotation,
    ann_b: &LlmAnnotation,
    shared_terms: &Vec<String>,
) -> (res: String)
    ensures
        res@ == contradiction_context(arxiv_a@, arxiv_b@, *ann_a, *ann_b, shared_terms@),
{
    let mut out = chars_of("Paper A (arxiv:");
    append_chars(&mut out, &chars_of(arxiv_a));
    append_chars(&mut out, &chars_of("):\nFindings:\n"));
    append_chars(&mut out, &findings_lines(ann_a));
    append_chars(&mut out, &chars_of("\n\nPaper B (arxiv:"));
    append_chars(&mut out, &chars_of(arxiv_b));
    append_chars(&mut out, &chars_of("):\nFindings:\n"));
    append_chars(&mut out, &findings_lines(ann_b));
    append_chars(&mut out, &chars_of("\n\nShared high-weight terms: "));
    append_chars(&mut out, &join_comma(shared_terms));
    string_of(&out)
}

/// The open problems of an annotation joined with `", "`, `(none)` when there are none.
pub open spec fn open_problems_text(a: Option<LlmAnnotation>) -> Seq<char> {
    let joined = match a {
        Some(x) => join_with(strings_view(x.open_problems@), ", "@),
        None => Seq::empty(),
    };
    if joined.len() == 0 { "(none)"@ } else { joined }
}

/// The context describing an ABC-bridge candidate (papers A and C) to the LLM.
pub open spec fn bridge_context(id_a: Seq<char>, id_c: Seq<char>, a: Option<LlmAnnotation>, c: Option<LlmAnnotation>, terms: Seq<String>) -> Seq<char> {
    "Paper A (arxiv:"@ + id_a + "):\nOpen problems: "@ + open_problems_text(a) + "\n\nPaper C (arxiv:"@
        + id_c + "):\nOpen problems: "@ + open_problems_text(c) + "\n\nShared intermediary concepts (B): "@
        + join_with(strings_view(terms), ", "@)
}

/// The open-problems text of an optional annotation.
fn open_problems_chars(a: Option<&LlmAnnotation>) -> (res: Vec<char>)
    ensures
        res@ == open_problems_text(match a { Some(x) => Some(*x), None => None }),
{
    let joined = match a {
        Some(x) => join_comma(&x.open_problems),
        None => Vec::new(),
    };
    if joined.len() == 0 {
        chars_of("(none)")
    } else {
        joined
    }
}

/// The context describing an ABC-bridge candidate to the LLM: the open problems of papers
/// A and C, then the shared intermediary terms.
pub fn build_bridge_context(
    arxiv_a: &str,
    arxiv_c: &str,
    ann_a: Option<&LlmAnnotation>,
    ann_c: Option<&LlmAnnotation>,
    shared_terms: &Vec<String>,
) -> (res: String)
    ensures
        res@ == bridge_context(arxiv_a@, arxiv_c@, match ann_a { Some(x) => Some(*x), None => None },
            match ann_c { Some(x) => Some(*x), None => None }, shared_terms@),
{
    let mut out = chars_of("Paper A (arxiv:");
    append_chars(&mut out, &chars_of(arxiv_a));
    append_chars(&mut out, &chars_of("):\nOpen problems: "));
    append_chars(&mut out, &open_problems_chars(ann_a));
    append_chars(&mut out, &chars_of("\n\nPaper C (arxiv:"));
    append_chars(&mut out, &chars_of(arxiv_c));
    append_chars(&mut out, &chars_of("):\nOpen problems: "));
    append_chars(&mut out, &open_problems_chars(ann_c));
    append_chars(&mut out, &chars_of("\n\nShared intermediary concepts (B): "));
    append_chars(&mut out, &join_comma(shared_terms));
    string_of(&out)
}

} // verus!
