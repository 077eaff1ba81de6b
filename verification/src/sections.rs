//! Section titles and section texts of ar5iv / arXiv HTML papers.
use vstd::prelude::*;
use crate::strs::{
    append_chars, contains_seq, contains_str, join_parts, join_with, trim, trim_chars,
};
use crate::text::{chars_of, string_of, to_lowercase, unicode_lowercase};
use crate::words::slice_chars;
use crate::extraction::SectionMap;
use crate::text::chars_eq;

verus! {

/// The HTML URL of a paper (`https://arxiv.org/html/<id>`).
pub fn ar5iv_url(arxiv_id: &str) -> (res: String)
    ensures
        res@ == "https://arxiv.org/html/"@ + arxiv_id@,
{
    let mut res = String::from_str("https://arxiv.org/html/");
    res.append(arxiv_id);
    res
}

/// `c` separates a section number from its title.
pub open spec fn is_delim(c: char) -> bool {
    c == '.' || c == ':' || c == ' '
}

/// `c` is an ASCII digit.
pub open spec fn is_digit(c: char) -> bool {
    '0' <= c && c <= '9'
}

/// The length of the leading run of ASCII digits of `t`.
pub open spec fn digit_run(t: Seq<char>) -> nat
    decreases t.len(),
{
    if t.len() > 0 && is_digit(t[0]) {
        1 + digit_run(t.drop_first())
    } else {
        0
    }
}

/// The length of the section number `t` starts with: its leading digits, or else a single
/// leading ASCII capital (`"12"` of `"12 Results"`, `"A"` of `"A. Methods"`).
pub open spec fn number_len(t: Seq<char>) -> nat {
    let d = digit_run(t);
    if d > 0 {
        d
    } else if t.len() > 0 && 'A' <= t[0] && t[0] <= 'Z' {
        1
    } else {
        0
    }
}

/// The length of the leading run of separators of `t`.
pub open spec fn delim_run(t: Seq<char>) -> nat
    decreases t.len(),
{
    if t.len() > 0 && is_delim(t[0]) {
        1 + delim_run(t.drop_first())
    } else {
        0
    }
}

/// The length of the leading run of dots and colons of `t`.
pub open spec fn dot_colon_run(t: Seq<char>) -> nat
    decreases t.len(),
{
    if t.len() > 0 && (t[0] == '.' || t[0] == ':') {
        1 + dot_colon_run(t.drop_first())
    } else {
        0
    }
}

/// `t` without a leading section number (digits, or one capital) followed by separators,
/// when it has one (`"1 Introduction"`, `"A. Methods"`).
pub open spec fn strip_number(t: Seq<char>) -> Seq<char> {
    let i = number_len(t) as int;
    if i > 0 && i < t.len() && is_delim(t[i]) {
        t.skip(i + delim_run(t.skip(i)))
    } else {
        t
    }
}

/// The Roman numerals a title may start with, in the order they are tried.
pub open spec fn roman_numeral(k: int) -> Seq<char> {
    if k == 0 { seq!['X', 'I', 'V'] }
    else if k == 1 { seq!['X', 'I', 'I', 'I'] }
    else if k == 2 { seq!['X', 'I', 'I'] }
    else if k == 3 { seq!['X', 'I'] }
    else if k == 4 { seq!['X'] }
    else if k == 5 { seq!['I', 'X'] }
    else if k == 6 { seq!['V', 'I', 'I', 'I'] }
    else if k == 7 { seq!['V', 'I', 'I'] }
    else if k == 8 { seq!['V', 'I'] }
    else if k == 9 { seq!['V'] }
    else if k == 10 { seq!['I', 'V'] }
    else if k == 11 { seq!['I', 'I', 'I'] }
    else if k == 12 { seq!['I', 'I'] }
    else if k == 13 { seq!['I'] }
    else if k == 14 { seq!['x', 'i', 'v'] }
    else if k == 15 { seq!['x', 'i', 'i', 'i'] }
    else if k == 16 { seq!['x', 'i', 'i'] }
    else if k == 17 { seq!['x', 'i'] }
    else if k == 18 { seq!['x'] }
    else if k == 19 { seq!['i', 'x'] }
    else if k == 20 { seq!['v', 'i', 'i', 'i'] }
    else if k == 21 { seq!['v', 'i', 'i'] }
    else if k == 22 { seq!['v', 'i'] }
    else if k == 23 { seq!['v'] }
    else if k == 24 { seq!['i', 'v'] }
    else if k == 25 { seq!['i', 'i', 'i'] }
    else if k == 26 { seq!['i', 'i'] }
    else { seq!['i'] }
}

/// How many Roman numerals are tried.
pub open spec fn roman_count() -> int {
    28
}

/// `t` without a leading Roman numeral followed by separators, trying the numerals from
/// index `k` on. A numeral is only removed when something is left after it.
pub open spec fn strip_roman(t: Seq<char>, k: int) -> Seq<char>
    decreases roman_count() - k,
{
    if k < 0 || k >= roman_count() {
        t
    } else {
        let nm = roman_numeral(k);
        if nm.len() <= t.len() && t.take(nm.len() as int) == nm && (t.len() == nm.len()
            || is_delim(t[nm.len() as int])) {
            let rest = t.skip(nm.len() as int);
            let r2 = rest.skip(delim_run(rest) as int);
            if r2.len() > 0 {
                r2
            } else {
                t
            }
        } else {
            strip_roman(t, k + 1)
        }
    }
}

/// A section title reduced to the words that name it, lowercased:
/// `"1 Introduction"`, `"I. Introduction"` and `"A. Introduction"` all give `"introduction"`.
pub open spec fn normalized_title(title: Seq<char>) -> Seq<char> {
    let t = trim(strip_number(trim(title)));
    let r = strip_roman(t, 0);
    unicode_lowercase(trim(r.skip(dot_colon_run(r) as int)))
}

/// The Roman numeral number `k`.
fn roman_numeral_chars(k: usize) -> (res: Vec<char>)
    requires
        k < 28,
    ensures
        res@ == roman_numeral(k as int),
{
    let v = if k == 0 { vec!['X', 'I', 'V'] }
    else if k == 1 { vec!['X', 'I', 'I', 'I'] }
    else if k == 2 { vec!['X', 'I', 'I'] }
    else if k == 3 { vec!['X', 'I'] }
    else if k == 4 { vec!['X'] }
    else if k == 5 { vec!['I', 'X'] }
    else if k == 6 { vec!['V', 'I', 'I', 'I'] }
    else if k == 7 { vec!['V', 'I', 'I'] }
    else if k == 8 { vec!['V', 'I'] }
    else if k == 9 { vec!['V'] }
    else if k == 10 { vec!['I', 'V'] }
    else if k == 11 { vec!['I', 'I', 'I'] }
    else if k == 12 { vec!['I', 'I'] }
    else if k == 13 { vec!['I'] }
    else if k == 14 { vec!['x', 'i', 'v'] }
    else if k == 15 { vec!['x', 'i', 'i', 'i'] }
    else if k == 16 { vec!['x', 'i', 'i'] }
    else if k == 17 { vec!['x', 'i'] }
    else if k == 18 { vec!['x'] }
    else if k == 19 { vec!['i', 'x'] }
    else if k == 20 { vec!['v', 'i', 'i', 'i'] }
    else if k == 21 { vec!['v', 'i', 'i'] }
    else if k == 22 { vec!['v', 'i'] }
    else if k == 23 { vec!['v'] }
    else if k == 24 { vec!['i', 'v'] }
    else if k == 25 { vec!['i', 'i', 'i'] }
    else if k == 26 { vec!['i', 'i'] }
    else { vec!['i'] };
    assert(v@ =~= roman_numeral(k as int));
    v
}

/// The index just past the run of characters of `v[i..]` that `keep` accepts:
/// separators (`mode` 0), ASCII digits (`mode` 1) or dots and colons (`mode` 2).
fn skip_run(v: &[char], i: usize, mode: u8) -> (res: usize)
    requires
        i <= v@.len(),
        mode <= 2,
    ensures
        i <= res <= v@.len(),
        mode == 0 ==> res - i == delim_run(v@.skip(i as int)),
        mode == 1 ==> res - i == digit_run(v@.skip(i as int)),
        mode == 2 ==> res - i == dot_colon_run(v@.skip(i as int)),
{
    let mut j = i;
    loop
        invariant
            i <= j <= v@.len(),
            mode <= 2,
            mode == 0 ==> delim_run(v@.skip(i as int)) == (j - i) + delim_run(v@.skip(j as int)),
            mode == 1 ==> digit_run(v@.skip(i as int)) == (j - i) + digit_run(v@.skip(j as int)),
            mode == 2 ==> dot_colon_run(v@.skip(i as int)) == (j - i) + dot_colon_run(v@.skip(j as int)),
        decreases v@.len() - j,
    {
        if j == v.len() {
            return j;
        }
        let c = v[j];
        let accepted = if mode == 0 {
            c == '.' || c == ':' || c == ' '
        } else if mode == 1 {
            '0' <= c && c <= '9'
        } else {
            c == '.' || c == ':'
        };
        assert(v@.skip(j as int).drop_first() == v@.skip(j + 1));
        if !accepted {
            return j;
        }
        j += 1;
    }
}

/// Normalize a section title: strip a leading section number or Roman numeral with its
/// separators, trim, and lowercase.
pub fn normalize_section_title(title: &str) -> (res: String)
    ensures
        res@ == normalized_title(title@),
{
    let raw = chars_of(title);
    let t0 = trim_chars(&raw);
    // section number (digits, or else one capital) followed by separators
    let d = skip_run(&t0, 0, 1);
    assert(t0@.skip(0) == t0@);
    let i = if d == 0 && t0.len() > 0 && 'A' <= t0[0] && t0[0] <= 'Z' { 1 } else { d };
    assert(i == number_len(t0@));
    let stripped = if i > 0 && i < t0.len() && (t0[i] == '.' || t0[i] == ':' || t0[i] == ' ') {
        let j = skip_run(&t0, i, 0);
        slice_chars(&t0, j, t0.len())
    } else {
        slice_chars(&t0, 0, t0.len())
    };
    assert(t0@.subrange(0, t0@.len() as int) == t0@);
    let t = trim_chars(&stripped);
    // Roman numeral followed by separators
    let mut remaining = slice_chars(&t, 0, t.len());
    assert(t@.subrange(0, t@.len() as int) == t@);
    let mut k: usize = 0;
    while k < 28
        invariant_except_break
            remaining@ == t@,
        invariant
            k <= 28,
            strip_roman(t@, 0) == strip_roman(t@, k as int),
        ensures
            remaining@ == strip_roman(t@, 0),
        decreases 28 - k,
    {
        let nm = roman_numeral_chars(k);
        if nm.len() <= t.len() {
            let head = slice_chars(&t, 0, nm.len());
            assert(head@ == t@.take(nm@.len() as int));
            let matches = crate::text::chars_eq(&head, &nm);
            if matches && (t.len() == nm.len() || t[nm.len()] == '.' || t[nm.len()] == ':' || t[nm.len()] == ' ') {
                let j = skip_run(&t, nm.len(), 0);
                if j < t.len() {
                    remaining = slice_chars(&t, j, t.len());
                }
                assert(strip_roman(t@, k as int) == remaining@);
                break;
            }
        }
        k += 1;
    }
    let r = remaining;
    let d = skip_run(&r, 0, 2);
    assert(r@.skip(0) == r@);
    let tail = slice_chars(&r, d, r.len());
    let fin = trim_chars(&tail);
    let s = string_of(&fin);
    to_lowercase(s.as_str())
}

/// The category of a section with normalized title `t`: `None` for sections that are
/// left out (references, bibliography, acknowledgements, appendices), the name of the
/// category otherwise, `"unknown"` when no keyword matches.
pub open spec fn category_of(t: Seq<char>) -> Option<Seq<char>> {
    if contains_seq(t, "reference"@) || contains_seq(t, "bibliography"@) || contains_seq(t, "acknowledgement"@)
        || contains_seq(t, "acknowledgment"@) || contains_seq(t, "appendix"@) {
        None
    } else if contains_seq(t, "introduction"@) || contains_seq(t, "motivation"@) {
        Some("introduction"@)
    } else if contains_seq(t, "method"@) || contains_seq(t, "approach"@) || contains_seq(t, "model"@)
        || contains_seq(t, "framework"@) || contains_seq(t, "formalism"@) || contains_seq(t, "setup"@) {
        Some("methods"@)
    } else if contains_seq(t, "result"@) || contains_seq(t, "discussion"@) || contains_seq(t, "experiment"@)
        || contains_seq(t, "analysis"@) || contains_seq(t, "observation"@) || contains_seq(t, "finding"@) {
        Some("results"@)
    } else if contains_seq(t, "conclusion"@) || contains_seq(t, "summary"@) || contains_seq(t, "outlook"@) {
        Some("conclusion"@)
    } else {
        Some("unknown"@)
    }
}

/// A normalized section title names a part that is left out of the extraction: it
/// contains `reference`, `bibliography`, `acknowledgement`, `acknowledgment` or `appendix`.
pub open spec fn excluded_title(t: Seq<char>) -> bool {
    contains_seq(t, "reference"@) || contains_seq(t, "bibliography"@) || contains_seq(t, "acknowledgement"@)
        || contains_seq(t, "acknowledgment"@) || contains_seq(t, "appendix"@)
}

/// A title naming an introduction: it contains `introduction` or `motivation`.
pub open spec fn introduction_title(t: Seq<char>) -> bool {
    contains_seq(t, "introduction"@) || contains_seq(t, "motivation"@)
}

/// A title naming methods: it contains `method`, `approach`, `model`, `framework`,
/// `formalism` or `setup`.
pub open spec fn methods_title(t: Seq<char>) -> bool {
    contains_seq(t, "method"@) || contains_seq(t, "approach"@) || contains_seq(t, "model"@)
        || contains_seq(t, "framework"@) || contains_seq(t, "formalism"@) || contains_seq(t, "setup"@)
}

/// How section titles are sorted: excluded parts first, then introductions, methods,
/// results (titles with `result`, `discussion`, `experiment`, `analysis`, `observation`
/// or `finding`), conclusions (`conclusion`, `summary`, `outlook`); any other title is
/// `unknown`. A keyword of an earlier group wins over one of a later group.
pub proof fn lemma_category_keywords(t: Seq<char>)
    ensures
        excluded_title(t) ==> category_of(t) is None,
        !excluded_title(t) && introduction_title(t) ==> category_of(t) == Some("introduction"@),
        !excluded_title(t) && !introduction_title(t) && methods_title(t) ==> category_of(t) == Some("methods"@),
        !excluded_title(t) && !introduction_title(t) && !methods_title(t) && (contains_seq(t, "result"@)
            || contains_seq(t, "discussion"@) || contains_seq(t, "experiment"@) || contains_seq(t, "analysis"@)
            || contains_seq(t, "observation"@) || contains_seq(t, "finding"@)) ==> category_of(t) == Some("results"@),
        !excluded_title(t) && !introduction_title(t) && !methods_title(t) && !contains_seq(t, "result"@)
            && !contains_seq(t, "discussion"@) && !contains_seq(t, "experiment"@) && !contains_seq(t, "analysis"@)
            && !contains_seq(t, "observation"@) && !contains_seq(t, "finding"@) ==> category_of(t) == if contains_seq(t, "conclusion"@)
                || contains_seq(t, "summary"@) || contains_seq(t, "outlook"@) {
                Some("conclusion"@)
            } else {
                Some("unknown"@)
            },
{
}

/// The category of a section with the given normalized title.
pub fn section_category(normalized_title: &str) -> (res: Option<&'static str>)
    ensures
        res is None <==> category_of(normalized_title@) is None,
        res matches Some(c) ==> category_of(normalized_title@) == Some(c@),
{
    let t = chars_of(normalized_title);
    if contains_str(&t, "reference") || contains_str(&t, "bibliography") || contains_str(&t, "acknowledgement")
        || contains_str(&t, "acknowledgment") || contains_str(&t, "appendix") {
        return None;
    }
    if contains_str(&t, "introduction") || contains_str(&t, "motivation") {
        return Some("introduction");
    }
    if contains_str(&t, "method") || contains_str(&t, "approach") || contains_str(&t, "model")
        || contains_str(&t, "framework") || contains_str(&t, "formalism") || contains_str(&t, "setup") {
        return Some("methods");
    }
    if contains_str(&t, "result") || contains_str(&t, "discussion") || contains_str(&t, "experiment")
        || contains_str(&t, "analysis") || contains_str(&t, "observation") || contains_str(&t, "finding") {
        return Some("results");
    }
    if contains_str(&t, "conclusion") || contains_str(&t, "summary") || contains_str(&t, "outlook") {
        return Some("conclusion");
    }
    Some("unknown")
}

/// The text pieces of an element, as the HTML parser hands them out.
pub open spec fn pieces_view(pieces: Seq<String>) -> Seq<Seq<char>> {
    pieces.map_values(|p: String| p@)
}

/// The text of an element: its text pieces joined with spaces.
pub open spec fn piece_text(pieces: Seq<String>) -> Seq<char> {
    join_with(pieces_view(pieces), seq![' '])
}

/// The texts of a list of paragraphs.
pub open spec fn para_texts(paras: Seq<Vec<String>>) -> Seq<Seq<char>> {
    paras.map_values(|p: Vec<String>| piece_text(p@))
}

/// The abstract block of a paper page: its paragraphs and all of its text pieces.
#[derive(Debug, Clone)]
pub struct RawAbstract {
    pub paragraphs: Vec<Vec<String>>,
    pub text_pieces: Vec<String>,
}

/// A section of a paper page: the text pieces of its title, and its paragraphs.
#[derive(Debug, Clone)]
pub struct RawSection {
    pub title_pieces: Vec<String>,
    pub paragraphs: Vec<Vec<String>>,
}

/// The abstract text: the paragraphs joined with spaces and trimmed, or, when they hold
/// nothing, the whole block's text with a leading "Abstract" heading removed.
pub open spec fn abstract_of(a: RawAbstract) -> Option<Seq<char>> {
    let pt = trim(join_with(para_texts(a.paragraphs@), seq![' ']));
    if pt.len() > 0 {
        Some(pt)
    } else {
        let full = trim(piece_text(a.text_pieces@));
        let head = "Abstract"@;
        let text = if head.len() <= full.len() && full.take(head.len() as int) == head {
            trim(full.skip(head.len() as int))
        } else {
            full
        };
        if text.len() > 0 {
            Some(text)
        } else {
            None
        }
    }
}

/// The content of a section: its paragraphs joined with newlines, trimmed.
pub open spec fn section_content(s: RawSection) -> Seq<char> {
    trim(join_with(para_texts(s.paragraphs@), seq!['\n']))
}

/// The category of a section, from its title.
pub open spec fn section_cat(s: RawSection) -> Option<Seq<char>> {
    category_of(normalized_title(piece_text(s.title_pieces@)))
}

/// The contents of the sections in category `cat` that are not empty, in page order.
pub open spec fn parts_of(secs: Seq<RawSection>, cat: Seq<char>) -> Seq<Seq<char>>
    decreases secs.len(),
{
    if secs.len() == 0 {
        Seq::empty()
    } else {
        let prev = parts_of(secs.drop_last(), cat);
        if section_cat(secs.last()) == Some(cat) && section_content(secs.last()).len() > 0 {
            prev.push(section_content(secs.last()))
        } else {
            prev
        }
    }
}

/// The text of category `cat`: its sections joined with newlines, if there are any.
pub open spec fn category_text(secs: Seq<RawSection>, cat: Seq<char>) -> Option<Seq<char>> {
    let parts = parts_of(secs, cat);
    if parts.len() == 0 {
        None
    } else {
        Some(join_with(parts, seq!['\n']))
    }
}

/// Joins text pieces with spaces.
fn join_pieces(pieces: &Vec<String>, sep: char) -> (res: Vec<char>)
    ensures
        res@ == join_with(pieces_view(pieces@), seq![sep]),
{
    let mut parts: Vec<Vec<char>> = Vec::new();
    let mut k: usize = 0;
    while k < pieces.len()
        invariant
            k <= pieces@.len(),
            parts@.len() == k,
            forall|j: int| 0 <= j < k ==> (#[trigger] parts@[j])@ == pieces@[j]@,
        decreases pieces@.len() - k,
    {
        parts.push(chars_of(pieces[k].as_str()));
        k += 1;
    }
    assert(parts@.map_values(|w: Vec<char>| w@) =~= pieces_view(pieces@));
    let sepv = vec![sep];
    assert(sepv@ =~= seq![sep]);
    join_parts(&parts, &sepv)
}

/// The texts of the paragraphs joined with `sep`.
fn join_paragraphs(paras: &Vec<Vec<String>>, sep: char) -> (res: Vec<char>)
    ensures
        res@ == join_with(para_texts(paras@), seq![sep]),
{
    let mut parts: Vec<Vec<char>> = Vec::new();
    let mut k: usize = 0;
    while k < paras.len()
        invariant
            k <= paras@.len(),
            parts@.len() == k,
            forall|j: int| 0 <= j < k ==> (#[trigger] parts@[j])@ == piece_text(paras@[j]@),
        decreases paras@.len() - k,
    {
        parts.push(join_pieces(&paras[k], ' '));
        k += 1;
    }
    assert(parts@.map_values(|w: Vec<char>| w@) =~= para_texts(paras@));
    let sepv = vec![sep];
    assert(sepv@ =~= seq![sep]);
    join_parts(&parts, &sepv)
}

/// The abstract text of an abstract block.
pub fn abstract_text(a: &RawAbstract) -> (res: Option<String>)
    ensures
        res matches Some(t) ==> abstract_of(*a) == Some(t@),
        res is None ==> abstract_of(*a) is None,
{
    let joined = join_paragraphs(&a.paragraphs, ' ');
    let pt = trim_chars(&joined);
    if pt.len() > 0 {
        return Some(string_of(&pt));
    }
    let pieces = join_pieces(&a.text_pieces, ' ');
    let full = trim_chars(&pieces);
    let head = chars_of("Abstract");
    let text = if head.len() <= full.len() && chars_eq(&slice_chars(&full, 0, head.len()), &head) {
        let rest = slice_chars(&full, head.len(), full.len());
        assert(rest@ == full@.skip(head@.len() as int));
        trim_chars(&rest)
    } else {
        full
    };
    if text.len() > 0 {
        Some(string_of(&text))
    } else {
        None
    }
}

/// The trimmed content of a section.
fn content_of(s: &RawSection) -> (res: Vec<char>)
    ensures
        res@ == section_content(*s),
{
    let joined = join_paragraphs(&s.paragraphs, '\n');
    trim_chars(&joined)
}

/// The parts joined with newlines, or `None` when there are none.
fn joined_or_none(parts: &Vec<Vec<char>>) -> (res: Option<String>)
    ensures
        parts@.len() == 0 ==> res is None,
        parts@.len() > 0 ==> (res matches Some(t) && t@ == join_with(parts@.map_values(|w: Vec<char>| w@), seq!['\n'])),
{
    if parts.len() == 0 {
        None
    } else {
        let sepv = vec!['\n'];
        assert(sepv@ =~= seq!['\n']);
        Some(string_of(&join_parts(parts, &sepv)))
    }
}

/// Assemble the section map of a paper page from its abstract block (if the page has one)
/// and its sections in page order. Each section goes to the category of its normalized
/// title; excluded, uncategorized and empty sections are skipped; the sections of a
/// category are joined with newlines.
pub fn parse_sections(abstract_block: Option<&RawAbstract>, sections: &[RawSection]) -> (res: SectionMap)
    ensures
        abstract_block is None ==> res.abstract_text is None,
        abstract_block matches Some(a) ==> (match res.abstract_text {
            Some(t) => abstract_of(*a) == Some(t@),
            None => abstract_of(*a) is None,
        }),
        crate::extraction::opt_view(res.introduction) == category_text(sections@, "introduction"@),
        crate::extraction::opt_view(res.methods) == category_text(sections@, "methods"@),
        crate::extraction::opt_view(res.results) == category_text(sections@, "results"@),
        crate::extraction::opt_view(res.conclusion) == category_text(sections@, "conclusion"@),
{
    let abstract_text = match abstract_block {
        Some(a) => abstract_text(a),
        None => None,
    };
    proof {
        reveal_strlit("introduction");
        reveal_strlit("methods");
        reveal_strlit("results");
        reveal_strlit("conclusion");
        reveal_strlit("unknown");
        assert("introduction"@.len() == 12 && "methods"@.len() == 7 && "results"@.len() == 7
            && "conclusion"@.len() == 10);
        assert("methods"@[0] != "results"@[0]);
    }
    let mut intro: Vec<Vec<char>> = Vec::new();
    let mut methods: Vec<Vec<char>> = Vec::new();
    let mut results: Vec<Vec<char>> = Vec::new();
    let mut conclusion: Vec<Vec<char>> = Vec::new();
    let intro_name = chars_of("introduction");
    let methods_name = chars_of("methods");
    let results_name = chars_of("results");
    let conclusion_name = chars_of("conclusion");
    let mut i: usize = 0;
    while i < sections.len()
        invariant
            i <= sections@.len(),
            intro_name@ == "introduction"@,
            methods_name@ == "methods"@,
            results_name@ == "results"@,
            conclusion_name@ == "conclusion"@,
            "introduction"@ != "methods"@ && "introduction"@ != "results"@ && "introduction"@ != "conclusion"@
                && "methods"@ != "results"@ && "methods"@ != "conclusion"@ && "results"@ != "conclusion"@,
            intro@.map_values(|w: Vec<char>| w@) == parts_of(sections@.take(i as int), "introduction"@),
            methods@.map_values(|w: Vec<char>| w@) == parts_of(sections@.take(i as int), "methods"@),
            results@.map_values(|w: Vec<char>| w@) == parts_of(sections@.take(i as int), "results"@),
            conclusion@.map_values(|w: Vec<char>| w@) == parts_of(sections@.take(i as int), "conclusion"@),
        decreases sections@.len() - i,
    {
        let sec = &sections[i];
        assert(sections@.take(i + 1).drop_last() == sections@.take(i as int));
        assert(sections@.take(i + 1).last() == *sec);
        let title = string_of(&join_pieces(&sec.title_pieces, ' '));
        let normalized = normalize_section_title(title.as_str());
        let category = section_category(normalized.as_str());
        let ghost cat = section_cat(*sec);
        let content = content_of(sec);
        if let Some(c) = category {
            let cv = chars_of(c);
            if content.len() > 0 {
                if chars_eq(&cv, &intro_name) {
                    intro.push(content);
                    assert(intro@.map_values(|w: Vec<char>| w@) =~= parts_of(sections@.take(i as int), "introduction"@).push(section_content(*sec)));
                } else if chars_eq(&cv, &methods_name) {
                    methods.push(content);
                    assert(methods@.map_values(|w: Vec<char>| w@) =~= parts_of(sections@.take(i as int), "methods"@).push(section_content(*sec)));
                } else if chars_eq(&cv, &results_name) {
                    results.push(content);
                    assert(results@.map_values(|w: Vec<char>| w@) =~= parts_of(sections@.take(i as int), "results"@).push(section_content(*sec)));
                } else if chars_eq(&cv, &conclusion_name) {
                    conclusion.push(content);
                    assert(conclusion@.map_values(|w: Vec<char>| w@) =~= parts_of(sections@.take(i as int), "conclusion"@).push(section_content(*sec)));
                }
            }
        }
        i += 1;
    }
    assert(sections@.take(sections@.len() as int) == sections@);
    SectionMap {
        abstract_text,
        introduction: joined_or_none(&intro),
        methods: joined_or_none(&methods),
        results: joined_or_none(&results),
        conclusion: joined_or_none(&conclusion),
    }
}

} // verus!
