//! Gap findings (contradictions and ABC bridges) and their text reports.
use vstd::prelude::*;
use crate::contradiction::{join_comma, strings_chars, strings_view};
use crate::strs::{append_chars, join_with};
use crate::text::{chars_of, decimal, decimal_chars, string_of, utf8_len, utf8_length};
use crate::words::slice_chars;

verus! {

/// The kind of a research gap.
#[derive(Debug, Clone, Copy, PartialEq, Eq, Structural)]
pub enum GapType {
    Contradiction,
    AbcBridge,
}

/// The name of a gap type as stored and reported.
pub open spec fn gap_type_name(t: GapType) -> Seq<char> {
    match t {
        GapType::Contradiction => "contradiction"@,
        GapType::AbcBridge => "abc_bridge"@,
    }
}

impl GapType {
    /// The name of the gap type: `"contradiction"` or `"abc_bridge"`.
    pub fn as_str(&self) -> (res: &'static str)
        ensures
            res@ == gap_type_name(*self),
    {
        match self {
            GapType::Contradiction => "contradiction",
            GapType::AbcBridge => "abc_bridge",
        }
    }
}

/// A research gap found among a set of papers. The confidence is carried as the bit
/// pattern of its `f32` value (`f32::to_bits`).
#[derive(Debug, Clone)]
pub struct GapFinding {
    pub gap_type: GapType,
    pub paper_ids: Vec<String>,
    pub shared_terms: Vec<String>,
    pub justification: String,
    pub confidence_bits: u32,
    pub found_at: String,
}

/// The findings of `fs` of type `t`, in order.
pub open spec fn of_type(fs: Seq<GapFinding>, t: GapType) -> Seq<GapFinding>
    decreases fs.len(),
{
    if fs.len() == 0 {
        Seq::empty()
    } else if fs.last().gap_type == t {
        of_type(fs.drop_last(), t).push(fs.last())
    } else {
        of_type(fs.drop_last(), t)
    }
}

/// The paper ids of a finding, joined with `", "`.
pub open spec fn ids_text(f: GapFinding) -> Seq<char> {
    join_with(strings_view(f.paper_ids@), ", "@)
}

/// The shared terms of a finding, joined with `", "`.
pub open spec fn terms_text(f: GapFinding) -> Seq<char> {
    join_with(strings_view(f.shared_terms@), ", "@)
}

/// Justifications longer than this many characters are shortened in the compact table.
pub const TRUNCATION_LEN: usize = 60;

/// `text` cut to at most `max_len` characters: when longer, its first `max_len - 3`
/// characters followed by `...`.
pub open spec fn truncated(text: Seq<char>, max_len: nat) -> Seq<char> {
    if text.len() <= max_len {
        text
    } else {
        text.take(if max_len >= 3 { max_len - 3 } else { 0 }) + "..."@
    }
}

/// Shortens `text` to at most `max_len` characters, marking the cut with `...`.
pub fn truncate_justification(text: &str, max_len: usize) -> (res: String)
    ensures
        res@ == truncated(text@, max_len as nat),
{
    let v = chars_of(text);
    if v.len() <= max_len {
        return string_of(&v);
    }
    let cut = if max_len >= 3 { max_len - 3 } else { 0 };
    let mut out = slice_chars(&v, 0, cut);
    append_chars(&mut out, &chars_of("..."));
    string_of(&out)
}

/// The largest byte length among `cols`, and at least `min`.
pub open spec fn max_width(cols: Seq<Seq<char>>, min: nat) -> nat
    decreases cols.len(),
{
    if cols.len() == 0 {
        min
    } else {
        let m = max_width(cols.drop_last(), min);
        if utf8_len(cols.last()) > m { utf8_len(cols.last()) } else { m }
    }
}

/// `s` padded on the right with spaces to `w` characters (`{:<w$}`).
pub open spec fn pad(s: Seq<char>, w: nat) -> Seq<char> {
    if s.len() < w {
        s + Seq::new((w - s.len()) as nat, |i: int| ' ')
    } else {
        s
    }
}

/// `n` dashes.
pub open spec fn dashes(n: nat) -> Seq<char> {
    Seq::new(n, |i: int| '-')
}

/// The justification column of a finding.
pub open spec fn just_text(f: GapFinding, verbose: bool) -> Seq<char> {
    if verbose { f.justification@ } else { truncated(f.justification@, TRUNCATION_LEN as nat) }
}

/// The column widths of a table of findings: papers, shared terms, justification.
pub open spec fn widths(fs: Seq<GapFinding>, verbose: bool) -> (nat, nat, nat) {
    (
        max_width(fs.map_values(|f: GapFinding| ids_text(f)), utf8_len("Papers"@)),
        max_width(fs.map_values(|f: GapFinding| terms_text(f)), utf8_len("Shared Terms"@)),
        if verbose {
            max_width(fs.map_values(|f: GapFinding| f.justification@), utf8_len("Justification"@))
        } else if TRUNCATION_LEN >= utf8_len("Justification"@) {
            TRUNCATION_LEN as nat
        } else {
            utf8_len("Justification"@)
        },
    )
}

/// One data row of a table.
pub open spec fn table_row(f: GapFinding, verbose: bool, pw: nat, tw: nat) -> Seq<char> {
    pad(ids_text(f), pw) + "  "@ + pad(terms_text(f), tw) + "  "@ + just_text(f, verbose) + "\n"@
}

/// The data rows of a table.
pub open spec fn table_rows(fs: Seq<GapFinding>, verbose: bool, pw: nat, tw: nat) -> Seq<char>
    decreases fs.len(),
{
    if fs.len() == 0 {
        Seq::empty()
    } else {
        table_rows(fs.drop_last(), verbose, pw, tw) + table_row(fs.last(), verbose, pw, tw)
    }
}

/// A table of findings: a header row, a dashed separator row, then one row per finding.
pub open spec fn table(fs: Seq<GapFinding>, verbose: bool) -> Seq<char> {
    let (pw, tw, jw) = widths(fs, verbose);
    pad("Papers"@, pw) + "  "@ + pad("Shared Terms"@, tw) + "  "@ + pad("Justification"@, jw) + "\n"@
        + dashes(pw) + "  "@ + dashes(tw) + "  "@ + dashes(jw) + "\n"@ + table_rows(fs, verbose, pw, tw)
}

/// The section of a report for the findings `fs` under `title`.
pub open spec fn report_section(title: Seq<char>, fs: Seq<GapFinding>, verbose: bool) -> Seq<char> {
    title + "\n"@ + dashes(80) + "\n"@ + if fs.len() == 0 { "(none found)\n"@ } else { table(fs, verbose) }
}

/// The report of `format_gap_table`.
pub open spec fn gap_table(fs: Seq<GapFinding>, verbose: bool) -> Seq<char> {
    report_section("Contradictions"@, of_type(fs, GapType::Contradiction), verbose) + "\n"@
        + report_section("ABC Bridges"@, of_type(fs, GapType::AbcBridge), verbose)
}

/// The texts of the findings fit in memory as strings.
pub open spec fn table_printable(fs: Seq<GapFinding>, verbose: bool) -> bool {
    forall|k: int| 0 <= k < fs.len() ==> {
        &&& utf8_len(ids_text(#[trigger] fs[k])) <= usize::MAX
        &&& utf8_len(terms_text(fs[k])) <= usize::MAX
        &&& utf8_len(fs[k].justification@) <= usize::MAX
    }
}

/// `w` spaces appended to `s` as needed to reach `w` characters.
fn pad_chars(out: &mut Vec<char>, s: &[char], w: usize)
    ensures
        final(out)@ == old(out)@ + pad(s@, w as nat),
{
    append_chars(out, s);
    let mut k = s.len();
    let ghost base = old(out)@ + s@;
    while k < w
        invariant
            s@.len() <= k <= w || (k == s@.len() && k >= w),
            out@ == base + Seq::new((k - s@.len()) as nat, |i: int| ' '),
        decreases w - k,
    {
        out.push(' ');
        assert(Seq::new((k + 1 - s@.len()) as nat, |i: int| ' ') =~= Seq::new((k - s@.len()) as nat, |i: int| ' ').push(' '));
        k += 1;
    }
    if s.len() < w {
        assert(out@ =~= old(out)@ + pad(s@, w as nat));
    } else {
        assert(Seq::new((k - s@.len()) as nat, |i: int| ' ') =~= Seq::<char>::empty());
        assert(out@ =~= old(out)@ + pad(s@, w as nat));
    }
}

/// `n` dashes appended to `out`.
fn push_dashes(out: &mut Vec<char>, n: usize)
    ensures
        final(out)@ == old(out)@ + dashes(n as nat),
{
    let mut k: usize = 0;
    while k < n
        invariant
            k <= n,
            out@ == old(out)@ + dashes(k as nat),
        decreases n - k,
    {
        out.push('-');
        assert(dashes((k + 1) as nat) =~= dashes(k as nat).push('-'));
        k += 1;
    }
}

proof fn lemma_max_width_ge(cols: Seq<Seq<char>>, min: nat, k: int)
    requires
        0 <= k < cols.len(),
    ensures
        utf8_len(cols[k]) <= max_width(cols, min),
        min <= max_width(cols, min),
    decreases cols.len(),
{
    if k < cols.len() - 1 {
        lemma_max_width_ge(cols.drop_last(), min, k);
    } else if cols.len() > 1 {
        lemma_max_width_ge(cols.drop_last(), min, 0);
    }
}

proof fn lemma_max_width_attained(cols: Seq<Seq<char>>, min: nat)
    ensures
        max_width(cols, min) == min || exists|k: int| 0 <= k < cols.len() && max_width(cols, min) == utf8_len(#[trigger] cols[k]),
    decreases cols.len(),
{
    if cols.len() > 0 {
        lemma_max_width_attained(cols.drop_last(), min);
        if max_width(cols.drop_last(), min) != min && utf8_len(cols.last()) <= max_width(cols.drop_last(), min) {
            let k = choose|k: int| 0 <= k < cols.drop_last().len() && max_width(cols.drop_last(), min) == utf8_len(#[trigger] cols.drop_last()[k]);
            assert(cols[k] == cols.drop_last()[k]);
        }
    }
}

/// The findings of `findings` of type `t`.
fn filter_type<'a>(findings: &'a [GapFinding], t: GapType) -> (res: Vec<&'a GapFinding>)
    ensures
        res@.len() == of_type(findings@, t).len(),
        forall|k: int| 0 <= k < res@.len() ==> *res@[k] == of_type(findings@, t)[k],
{
    let mut res: Vec<&GapFinding> = Vec::new();
    let mut i: usize = 0;
    while i < findings.len()
        invariant
            i <= findings@.len(),
            res@.len() == of_type(findings@.take(i as int), t).len(),
            forall|k: int| 0 <= k < res@.len() ==> *res@[k] == of_type(findings@.take(i as int), t)[k],
        decreases findings@.len() - i,
    {
        assert(findings@.take(i + 1).drop_last() == findings@.take(i as int));
        if findings[i].gap_type == t {
            res.push(&findings[i]);
        }
        i += 1;
    }
    assert(findings@.take(findings@.len() as int) == findings@);
    res
}

/// The view of a list of borrowed findings.
pub open spec fn deref_all(fs: Seq<&GapFinding>) -> Seq<GapFinding> {
    fs.map_values(|f: &GapFinding| *f)
}

/// The largest byte length of a column over `fs`, at least `min`.
fn column_width(fs: &Vec<&GapFinding>, col: u8, min: usize) -> (res: usize)
    requires
        col <= 2,
        table_printable(deref_all(fs@), true),
    ensures
        col == 0 ==> res == max_width(deref_all(fs@).map_values(|f: GapFinding| ids_text(f)), min as nat),
        col == 1 ==> res == max_width(deref_all(fs@).map_values(|f: GapFinding| terms_text(f)), min as nat),
        col == 2 ==> res == max_width(deref_all(fs@).map_values(|f: GapFinding| f.justification@), min as nat),
{
    let ghost cols = if col == 0 {
        deref_all(fs@).map_values(|f: GapFinding| ids_text(f))
    } else if col == 1 {
        deref_all(fs@).map_values(|f: GapFinding| terms_text(f))
    } else {
        deref_all(fs@).map_values(|f: GapFinding| f.justification@)
    };
    let mut m = min;
    let mut k: usize = 0;
    while k < fs.len()
        invariant
            k <= fs@.len() == cols.len(),
            col <= 2,
            table_printable(deref_all(fs@), true),
            cols == if col == 0 {
                deref_all(fs@).map_values(|f: GapFinding| ids_text(f))
            } else if col == 1 {
                deref_all(fs@).map_values(|f: GapFinding| terms_text(f))
            } else {
                deref_all(fs@).map_values(|f: GapFinding| f.justification@)
            },
            m == max_width(cols.take(k as int), min as nat),
        decreases fs@.len() - k,
    {
        assert(cols.take(k + 1).drop_last() == cols.take(k as int));
        let f = fs[k];
        assert(deref_all(fs@)[k as int] == *f);
        let text = if col == 0 {
            join_comma(&f.paper_ids)
        } else if col == 1 {
            join_comma(&f.shared_terms)
        } else {
            chars_of(f.justification.as_str())
        };
        let len = utf8_length(&text);
        if len > m {
            m = len;
        }
        k += 1;
    }
    assert(cols.take(fs@.len() as int) == cols);
    m
}

/// A table of the findings `findings` (all of one type).
#[verifier::rlimit(40)]
fn format_section(findings: &Vec<&GapFinding>, verbose: bool) -> (res: Vec<char>)
    requires
        table_printable(deref_all(findings@), verbose),
    ensures
        res@ == table(deref_all(findings@), verbose),
{
    let ghost fs = deref_all(findings@);
    let papers_header = chars_of("Papers");
    let terms_header = chars_of("Shared Terms");
    let just_header = chars_of("Justification");
    proof {
        assert forall|k: int| 0 <= k < fs.len() implies {
            &&& utf8_len(ids_text(#[trigger] fs[k])) <= usize::MAX
            &&& utf8_len(terms_text(fs[k])) <= usize::MAX
            &&& utf8_len(fs[k].justification@) <= usize::MAX
        } by {}
        reveal_strlit("Papers");
        reveal_strlit("Shared Terms");
        reveal_strlit("Justification");
        crate::text::lemma_utf8_len_bound(papers_header@);
        crate::text::lemma_utf8_len_bound(terms_header@);
        crate::text::lemma_utf8_len_bound(just_header@);
    }
    let papers_width = column_width(findings, 0, utf8_length(&papers_header));
    let terms_width = column_width(findings, 1, utf8_length(&terms_header));
    let just_width = if verbose {
        column_width(findings, 2, utf8_length(&just_header))
    } else {
        let jh = utf8_length(&just_header);
        if TRUNCATION_LEN >= jh { TRUNCATION_LEN } else { jh }
    };
    let mut out: Vec<char> = Vec::new();
    pad_chars(&mut out, &papers_header, papers_width);
    append_chars(&mut out, &chars_of("  "));
    pad_chars(&mut out, &terms_header, terms_width);
    append_chars(&mut out, &chars_of("  "));
    pad_chars(&mut out, &just_header, just_width);
    append_chars(&mut out, &chars_of("\n"));
    push_dashes(&mut out, papers_width);
    append_chars(&mut out, &chars_of("  "));
    push_dashes(&mut out, terms_width);
    append_chars(&mut out, &chars_of("  "));
    push_dashes(&mut out, just_width);
    append_chars(&mut out, &chars_of("\n"));
    let ghost head = out@;
    let mut k: usize = 0;
    while k < findings.len()
        invariant
            k <= findings@.len() == fs.len(),
            fs == deref_all(findings@),
            table_printable(fs, verbose),
            out@ == head + table_rows(fs.take(k as int), verbose, papers_width as nat, terms_width as nat),
        decreases findings@.len() - k,
    {
        assert(fs.take(k + 1).drop_last() == fs.take(k as int));
        let f = findings[k];
        assert(fs[k as int] == *f);
        let ids = join_comma(&f.paper_ids);
        let terms = join_comma(&f.shared_terms);
        let just = if verbose {
            chars_of(f.justification.as_str())
        } else {
            let t = truncate_justification(f.justification.as_str(), TRUNCATION_LEN);
            chars_of(t.as_str())
        };
        pad_chars(&mut out, &ids, papers_width);
        append_chars(&mut out, &chars_of("  "));
        pad_chars(&mut out, &terms, terms_width);
        append_chars(&mut out, &chars_of("  "));
        append_chars(&mut out, &just);
        append_chars(&mut out, &chars_of("\n"));
        assert(fs.take(k + 1).last() == fs[k as int]);
        assert(out@ =~= head + table_rows(fs.take(k + 1), verbose, papers_width as nat, terms_width as nat));
        k += 1;
    }
    assert(fs.take(fs.len() as int) == fs);
    assert(out@ =~= table(fs, verbose));
    out
}

/// Appends the section of the report for `fs` under `title`.
fn push_report_section(out: &mut Vec<char>, title: &str, fs: &Vec<&GapFinding>, verbose: bool)
    requires
        table_printable(deref_all(fs@), verbose),
    ensures
        final(out)@ == old(out)@ + report_section(title@, deref_all(fs@), verbose),
{
    append_chars(out, &chars_of(title));
    append_chars(out, &chars_of("\n"));
    push_dashes(out, 80);
    append_chars(out, &chars_of("\n"));
    if fs.len() == 0 {
        append_chars(out, &chars_of("(none found)\n"));
    } else {
        let table = format_section(fs, verbose);
        append_chars(out, &table);
    }
    assert(out@ =~= old(out)@ + report_section(title@, deref_all(fs@), verbose));
}

proof fn lemma_of_type_printable(fs: Seq<GapFinding>, t: GapType, verbose: bool)
    requires
        table_printable(fs, verbose),
    ensures
        table_printable(of_type(fs, t), verbose),
        forall|k: int| 0 <= k < of_type(fs, t).len() ==> fs.contains(#[trigger] of_type(fs, t)[k]),
    decreases fs.len(),
{
    if fs.len() > 0 {
        assert forall|k: int| 0 <= k < fs.drop_last().len() implies {
            &&& utf8_len(ids_text(#[trigger] fs.drop_last()[k])) <= usize::MAX
            &&& utf8_len(terms_text(fs.drop_last()[k])) <= usize::MAX
            &&& utf8_len(fs.drop_last()[k].justification@) <= usize::MAX
        } by {
            assert(fs.drop_last()[k] == fs[k]);
        }
        lemma_of_type_printable(fs.drop_last(), t, verbose);
        assert forall|k: int| 0 <= k < of_type(fs, t).len() implies fs.contains(#[trigger] of_type(fs, t)[k]) by {
            if k < of_type(fs.drop_last(), t).len() {
                let x = of_type(fs.drop_last(), t)[k];
                assert(fs.drop_last().contains(x));
                let j = choose|j: int| 0 <= j < fs.drop_last().len() && fs.drop_last()[j] == x;
                assert(fs[j] == x);
            } else {
                assert(fs[fs.len() - 1] == fs.last());
            }
        }
        assert forall|k: int| 0 <= k < of_type(fs, t).len() implies {
            &&& utf8_len(ids_text(#[trigger] of_type(fs, t)[k])) <= usize::MAX
            &&& utf8_len(terms_text(of_type(fs, t)[k])) <= usize::MAX
            &&& utf8_len(of_type(fs, t)[k].justification@) <= usize::MAX
        } by {
            assert(fs.contains(of_type(fs, t)[k]));
            let j = choose|j: int| 0 <= j < fs.len() && fs[j] == of_type(fs, t)[k];
        }
    }
}

/// Format a table of gap findings grouped by type (Contradictions then ABC Bridges).
/// When `verbose` is false, justifications are cut to 60 characters; when true they are
/// shown in full.
pub fn format_gap_table(findings: &[GapFinding], verbose: bool) -> (res: String)
    requires
        table_printable(findings@, verbose),
    ensures
        res@ == gap_table(findings@, verbose),
{
    let contradictions = filter_type(findings, GapType::Contradiction);
    let abc_bridges = filter_type(findings, GapType::AbcBridge);
    proof {
        lemma_of_type_printable(findings@, GapType::Contradiction, verbose);
        lemma_of_type_printable(findings@, GapType::AbcBridge, verbose);
        assert(deref_all(contradictions@) =~= of_type(findings@, GapType::Contradiction));
        assert(deref_all(abc_bridges@) =~= of_type(findings@, GapType::AbcBridge));
    }
    let mut out: Vec<char> = Vec::new();
    push_report_section(&mut out, "Contradictions", &contradictions, verbose);
    append_chars(&mut out, &chars_of("\n"));
    push_report_section(&mut out, "ABC Bridges", &abc_bridges, verbose);
    assert(out@ =~= gap_table(findings@, verbose));
    string_of(&out)
}

/// The number of distinct sequences in `s`.
pub open spec fn distinct_count(s: Seq<Seq<char>>) -> nat
    decreases s.len(),
{
    if s.len() == 0 {
        0
    } else {
        distinct_count(s.drop_last()) + if s.drop_last().contains(s.last()) { 0nat } else { 1nat }
    }
}

/// All paper ids of all findings, in order.
pub open spec fn all_paper_ids(fs: Seq<GapFinding>) -> Seq<Seq<char>>
    decreases fs.len(),
{
    if fs.len() == 0 {
        Seq::empty()
    } else {
        all_paper_ids(fs.drop_last()) + strings_view(fs.last().paper_ids@)
    }
}

/// The one-line summary of `format_gap_summary`.
pub open spec fn gap_summary(fs: Seq<GapFinding>) -> Seq<char> {
    "Gap analysis: "@ + decimal(of_type(fs, GapType::Contradiction).len()) + " contradictions, "@
        + decimal(of_type(fs, GapType::AbcBridge).len()) + " ABC-bridges found across "@
        + decimal(distinct_count(all_paper_ids(fs))) + " papers"@
}

proof fn lemma_distinct_count_le(s: Seq<Seq<char>>)
    ensures
        distinct_count(s) <= s.len(),
    decreases s.len(),
{
    if s.len() > 0 {
        lemma_distinct_count_le(s.drop_last());
    }
}

/// Summarize gap findings with counts of each type and the number of distinct papers:
/// "Gap analysis: N contradictions, M ABC-bridges found across P papers".
pub fn format_gap_summary(findings: &[GapFinding]) -> (res: String)
    ensures
        res@ == gap_summary(findings@),
{
    let contradictions = filter_type(findings, GapType::Contradiction);
    let abc_bridges = filter_type(findings, GapType::AbcBridge);
    // every paper id, and the distinct ones seen so far
    let mut seen: Vec<Vec<char>> = Vec::new();
    let mut count: usize = 0;
    let mut i: usize = 0;
    let ghost mut flat: Seq<Seq<char>> = Seq::empty();
    while i < findings.len()
        invariant
            i <= findings@.len(),
            flat == all_paper_ids(findings@.take(i as int)),
            count == distinct_count(flat),
            forall|w: Seq<char>| crate::words::word_views(seen@).contains(w) <==> flat.contains(w),
            count <= flat.len(),
            seen@.len() == count,
        decreases findings@.len() - i,
    {
        assert(findings@.take(i + 1).drop_last() == findings@.take(i as int));
        let ids = strings_chars(&findings[i].paper_ids);
        let ghost flat0 = flat;
        let mut j: usize = 0;
        while j < ids.len()
            invariant
                j <= ids@.len(),
                i < findings@.len(),
                ids@.map_values(|w: Vec<char>| w@) == strings_view(findings@[i as int].paper_ids@),
                flat == flat0 + strings_view(findings@[i as int].paper_ids@).take(j as int),
                count == distinct_count(flat),
                forall|w: Seq<char>| crate::words::word_views(seen@).contains(w) <==> flat.contains(w),
                count <= flat.len(),
                seen@.len() == count,
            decreases ids@.len() - j,
        {
            let w = &ids[j];
            assert(ids@.map_values(|w: Vec<char>| w@)[j as int] == w@);
            let ghost before = flat;
            let ghost seen0 = seen@;
            assert(forall|x: Seq<char>| crate::words::word_views(seen0).contains(x) <==> before.contains(x));
            let present = crate::aggregation::holds_chars(&seen, w);
            proof {
                flat = flat.push(w@);
                assert(flat0 + strings_view(findings@[i as int].paper_ids@).take(j + 1) =~= flat);
                assert(flat.drop_last() == before);
            }
            if !present {
                let ghost sv = seen@;
                seen.push(crate::words::slice_chars(w, 0, w.len()));
                assert(w@.subrange(0, w@.len() as int) == w@);
                count = seen.len();
                proof {
                    assert forall|x: Seq<char>| crate::words::word_views(seen@).contains(x) <==> flat.contains(x) by {
                        let a = crate::words::word_views(sv);
                        assert(crate::words::word_views(seen@) =~= a.push(w@));
                        if crate::words::word_views(seen@).contains(x) {
                            let k = choose|k: int| 0 <= k < crate::words::word_views(seen@).len() && crate::words::word_views(seen@)[k] == x;
                            if k < a.len() { assert(a[k] == x); assert(before.contains(x)); let m = choose|m: int| 0 <= m < before.len() && before[m] == x; assert(flat[m] == x); }
                            else { assert(flat[flat.len() - 1] == x); }
                        }
                        if flat.contains(x) {
                            let m = choose|m: int| 0 <= m < flat.len() && flat[m] == x;
                            if m < before.len() { assert(before[m] == x); assert(before.contains(x)); assert(a.contains(x)); let k = choose|k: int| 0 <= k < a.len() && a[k] == x; assert(crate::words::word_views(seen@)[k] == x); }
                            else { assert(crate::words::word_views(seen@)[a.len() as int] == x); }
                        }
                    }
                }
            } else {
                proof {
                    assert forall|x: Seq<char>| flat.contains(x) <==> before.contains(x) by {
                        if flat.contains(x) {
                            let m = choose|m: int| 0 <= m < flat.len() && flat[m] == x;
                            if m < before.len() { assert(before[m] == x); }
                        }
                        if before.contains(x) {
                            let m = choose|m: int| 0 <= m < before.len() && before[m] == x;
                            assert(flat[m] == x);
                        }
                    }
                }
            }
            j += 1;
        }
        assert(strings_view(findings@[i as int].paper_ids@).take(ids@.len() as int) == strings_view(findings@[i as int].paper_ids@));
        assert(findings@.take(i + 1).last() == findings@[i as int]);
        i += 1;
    }
    assert(findings@.take(findings@.len() as int) == findings@);
    let mut out = chars_of("Gap analysis: ");
    append_chars(&mut out, &decimal_chars(contradictions.len() as u64));
    append_chars(&mut out, &chars_of(" contradictions, "));
    append_chars(&mut out, &decimal_chars(abc_bridges.len() as u64));
    append_chars(&mut out, &chars_of(" ABC-bridges found across "));
    append_chars(&mut out, &decimal_chars(count as u64));
    append_chars(&mut out, &chars_of(" papers"));
    assert(out@ =~= gap_summary(findings@));
    string_of(&out)
}

/// A truncated justification never exceeds its limit, and a text that exceeded it ends
/// in `...` after its first `max_len - 3` characters, exactly `max_len` characters long.
pub proof fn lemma_truncated_fits(text: Seq<char>, max_len: nat)
    requires
        max_len >= 3,
    ensures
        truncated(text, max_len).len() <= max_len,
        text.len() > max_len ==> truncated(text, max_len) == text.take(max_len - 3) + "..."@
            && truncated(text, max_len).len() == max_len,
{
    reveal_strlit("...");
}

} // verus!
