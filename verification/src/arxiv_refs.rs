//! Reading the reference list of an arXiv HTML page: URLs, author/title splitting, and
//! the arXiv ids and DOIs found in a reference's text.
use vstd::prelude::*;
use crate::strs::{append_chars, join_parts, join_with, trim, trim_chars};
use crate::text::{chars_eq, chars_of, string_of};
use crate::words::{slice_chars, word_views};
use crate::strs::{find_in, find_seq};
use crate::text::{is_alphanumeric, unicode_alphanumeric};
use crate::contradiction::strings_view;
use crate::ids::{strip_version, strip_version_suffix};
use crate::paper::{Link, Reference};
use crate::aggregation::holds_chars;

verus! {

/// `s` with every non-overlapping occurrence of `p` (scanning left to right) replaced by
/// `r` (`str::replace`). `p` is not empty.
pub open spec fn replace_all(s: Seq<char>, p: Seq<char>, r: Seq<char>) -> Seq<char>
    decreases s.len(),
{
    if p.len() == 0 || s.len() < p.len() {
        s
    } else if s.take(p.len() as int) == p {
        r + replace_all(s.skip(p.len() as int), p, r)
    } else {
        seq![s[0]] + replace_all(s.drop_first(), p, r)
    }
}

/// Replaces every occurrence of `p` in `s` by `r`.
pub fn replace_chars(s: &[char], p: &[char], r: &[char]) -> (res: Vec<char>)
    requires
        p@.len() > 0,
    ensures
        res@ == replace_all(s@, p@, r@),
{
    let mut out: Vec<char> = Vec::new();
    let mut i: usize = 0;
    assert(s@.skip(0) == s@);
    assert(out@ + replace_all(s@, p@, r@) == replace_all(s@, p@, r@));
    while i < s.len()
        invariant
            i <= s@.len(),
            p@.len() > 0,
            out@ + replace_all(s@.skip(i as int), p@, r@) == replace_all(s@, p@, r@),
        decreases s@.len() - i,
    {
        let ghost rest = s@.skip(i as int);
        if p.len() <= s.len() - i && chars_eq(&slice_chars(s, i, i + p.len()), p) {
            assert(rest.take(p@.len() as int) == s@.subrange(i as int, i + p@.len()));
            assert(rest.skip(p@.len() as int) == s@.skip(i + p@.len()));
            append_chars(&mut out, r);
            i += p.len();
        } else {
            assert(!(rest.take(p@.len() as int) == p@) || rest.len() < p@.len()) by {
                if p@.len() <= rest.len() {
                    assert(rest.take(p@.len() as int) == s@.subrange(i as int, i + p@.len()));
                }
            }
            assert(rest.drop_first() == s@.skip(i + 1));
            proof {
                if rest.len() < p@.len() {
                    assert(replace_all(rest, p@, r@) == rest);
                    assert(rest == seq![rest[0]] + rest.drop_first());
                    assert(replace_all(rest.drop_first(), p@, r@) == rest.drop_first());
                }
            }
            out.push(s[i]);
            i += 1;
        }
    }
    assert(s@.skip(i as int).len() == 0);
    out
}

/// The HTML URL of a paper from its PDF URL: `.pdf` removed, then `pdf` turned into `html`.
pub open spec fn html_url_of(pdf_url: Seq<char>) -> Seq<char> {
    replace_all(replace_all(pdf_url, ".pdf"@, Seq::empty()), "pdf"@, "html"@)
}

/// `https://arxiv.org/pdf/2301.12345.pdf` becomes `https://arxiv.org/html/2301.12345`.
pub fn convert_pdf_url_to_html_url(pdf_url: &str) -> (res: String)
    ensures
        res@ == html_url_of(pdf_url@),
{
    proof {
        reveal_strlit(".pdf");
        reveal_strlit("pdf");
    }
    let s = chars_of(pdf_url);
    let empty: Vec<char> = Vec::new();
    let a = replace_chars(&s, &chars_of(".pdf"), &empty);
    assert(empty@ =~= Seq::<char>::empty());
    let b = replace_chars(&a, &chars_of("pdf"), &chars_of("html"));
    string_of(&b)
}

/// The URL tried first for a paper's HTML: its own HTML URL when there is no PDF URL,
/// otherwise the HTML form of the PDF URL.
pub open spec fn primary_url_of(id: Seq<char>, pdf_url: Seq<char>) -> Seq<char> {
    if pdf_url.len() == 0 {
        "https://arxiv.org/html/"@ + id
    } else {
        html_url_of(pdf_url)
    }
}

/// The URL tried first for a paper's HTML.
pub fn primary_html_url(paper_id: &str, pdf_url: &str) -> (res: String)
    ensures
        res@ == primary_url_of(paper_id@, pdf_url@),
{
    if pdf_url.is_empty() {
        let mut res = String::from_str("https://arxiv.org/html/");
        res.append(paper_id);
        res
    } else {
        convert_pdf_url_to_html_url(pdf_url)
    }
}

/// The ar5iv URL tried when the primary HTML is unavailable.
pub fn ar5iv_fallback_url(paper_id: &str) -> (res: String)
    ensures
        res@ == "https://ar5iv.labs.arxiv.org/html/"@ + paper_id@,
{
    let mut res = String::from_str("https://ar5iv.labs.arxiv.org/html/");
    res.append(paper_id);
    res
}

/// The pieces of `s` between occurrences of `c` (`str::split(c)`); there is always at
/// least one piece.
pub open spec fn split_on(s: Seq<char>, c: char) -> Seq<Seq<char>>
    decreases s.len(),
{
    if s.len() == 0 {
        seq![Seq::empty()]
    } else {
        let p = split_on(s.drop_last(), c);
        if s.last() == c {
            p.push(Seq::empty())
        } else {
            p.update(p.len() - 1, p.last().push(s.last()))
        }
    }
}

proof fn lemma_split_nonempty(s: Seq<char>, c: char)
    ensures
        split_on(s, c).len() > 0,
    decreases s.len(),
{
    if s.len() > 0 {
        lemma_split_nonempty(s.drop_last(), c);
    }
}

/// `s` without its trailing dots (`trim_end_matches(".")`).
pub open spec fn trim_end_dots(s: Seq<char>) -> Seq<char>
    decreases s.len(),
{
    if s.len() > 0 && s.last() == '.' {
        trim_end_dots(s.drop_last())
    } else {
        s
    }
}

/// The trimmed pieces of `ps` that are not empty, in order.
pub open spec fn nonempty_trimmed(ps: Seq<Seq<char>>) -> Seq<Seq<char>>
    decreases ps.len(),
{
    if ps.len() == 0 {
        Seq::empty()
    } else if trim(ps.last()).len() > 0 {
        nonempty_trimmed(ps.drop_last()).push(trim(ps.last()))
    } else {
        nonempty_trimmed(ps.drop_last())
    }
}

/// The (author, title) of a reference text: its comma-separated pieces (after trimming
/// and removing trailing dots) with empty pieces dropped; the last piece is the title and
/// the others, joined with `", "`, the author.
pub open spec fn author_title(text: Seq<char>) -> (Seq<char>, Seq<char>) {
    let pieces = nonempty_trimmed(split_on(trim_end_dots(trim(text)), ','));
    if pieces.len() == 0 {
        (Seq::empty(), Seq::empty())
    } else {
        (trim(join_with(pieces.drop_last(), ", "@)), trim(pieces.last()))
    }
}

/// Split a plain reference text into (author, title).
pub fn trim_and_split_arxiv_reference_string(text: &str) -> (res: (String, String))
    ensures
        (res.0@, res.1@) == author_title(text@),
{
    let raw = chars_of(text);
    let t = trim_chars(&raw);
    let mut end = t.len();
    assert(t@.take(end as int) == t@);
    while end > 0 && t[end - 1] == '.'
        invariant
            end <= t@.len(),
            trim_end_dots(t@) == trim_end_dots(t@.take(end as int)),
        decreases end,
    {
        assert(t@.take(end as int).drop_last() == t@.take(end - 1));
        end -= 1;
    }
    assert(t@.take(end as int) == t@.subrange(0, end as int));
    let body = slice_chars(&t, 0, end);
    // split on commas, keeping the trimmed non-empty pieces
    let mut kept: Vec<Vec<char>> = Vec::new();
    let mut cur: Vec<char> = Vec::new();
    let mut i: usize = 0;
    let ghost mut pieces: Seq<Seq<char>> = seq![Seq::empty()];
    while i < body.len()
        invariant
            i <= body@.len(),
            pieces == split_on(body@.take(i as int), ','),
            pieces.len() > 0,
            cur@ == pieces.last(),
            kept@.map_values(|w: Vec<char>| w@) == nonempty_trimmed(pieces.drop_last()),
        decreases body@.len() - i,
    {
        assert(body@.take(i + 1).drop_last() == body@.take(i as int));
        if body[i] == ',' {
            let tc = trim_chars(&cur);
            proof {
                assert(pieces.push(Seq::empty()).drop_last() == pieces);
                assert(pieces == pieces.drop_last().push(pieces.last()));
            }
            if tc.len() > 0 {
                kept.push(tc);
                assert(kept@.map_values(|w: Vec<char>| w@) =~= nonempty_trimmed(pieces.drop_last()).push(trim(pieces.last())));
            }
            proof {
                pieces = pieces.push(Seq::empty());
            }
            cur = Vec::new();
        } else {
            cur.push(body[i]);
            proof {
                let np = pieces.update(pieces.len() - 1, pieces.last().push(body@[i as int]));
                assert(np.drop_last() == pieces.drop_last());
                pieces = np;
            }
        }
        i += 1;
    }
    assert(body@.take(body@.len() as int) == body@);
    let last = trim_chars(&cur);
    proof {
        assert(pieces == pieces.drop_last().push(pieces.last()));
    }
    if last.len() > 0 {
        kept.push(last);
    }
    let ghost all = nonempty_trimmed(pieces);
    assert(kept@.map_values(|w: Vec<char>| w@) =~= all);
    if kept.len() == 0 {
        return (String::new(), String::new());
    }
    let title_v = kept.pop().unwrap();
    assert(kept@.map_values(|w: Vec<char>| w@) =~= all.drop_last());
    let sep = chars_of(", ");
    let author_v = join_parts(&kept, &sep);
    let author = trim_chars(&author_v);
    let title = trim_chars(&title_v);
    (string_of(&author), string_of(&title))
}

/// What matching `pattern` (a `regex` crate pattern) against `text` gives: `None` when the
/// pattern does not compile, otherwise the text of capture group 1 of each successive
/// non-overlapping match.
pub uninterp spec fn regex_group1_matches(pattern: Seq<char>, text: Seq<char>) -> Option<Seq<Seq<char>>>;

/// `regex::Regex::new(pattern)` and `Regex::captures_iter(text)`: the text of capture group 1
/// of every match, in order (an empty string for a match where group 1 takes no part),
/// or `None` when the pattern is refused.
#[verifier::external_body]
fn regex_group1_all(pattern: &str, text: &str) -> (res: Option<Vec<String>>)
    ensures
        res matches Some(v) ==> regex_group1_matches(pattern@, text@) == Some(strings_view(v@)),
        res is None ==> regex_group1_matches(pattern@, text@) is None,
{
    match regex::Regex::new(pattern) {
        Ok(re) => Some(
            re.captures_iter(text).map(|c| c.get(1).map_or_else(String::new, |m| m.as_str().to_string())).collect(),
        ),
        Err(_) => None,
    }
}

/// New-style arXiv ids (`2301.12345`, optionally with a version).
pub open spec fn new_style_pattern() -> Seq<char> {
    "\\b((?:0[0-9]|1[0-9]|2[0-9])\\d{2}\\.\\d{4,5}(?:v\\d+)?)\\b"@
}

/// Old-style arXiv ids (`hep-ph/0601234`, optionally with a version).
pub open spec fn old_style_pattern() -> Seq<char> {
    "\\b([a-zA-Z][a-zA-Z0-9\\-]+/\\d{7}(?:v\\d+)?)\\b"@
}

/// DOIs (`10.1103/PhysRevD.107.012345`).
pub open spec fn doi_pattern() -> Seq<char> {
    "\\b(10\\.\\d{4,}/[^\\s,;)\\]]+)"@
}

/// The matches of `pattern` in `text`, none when the pattern is refused.
pub open spec fn matches_of(pattern: Seq<char>, text: Seq<char>) -> Seq<Seq<char>> {
    match regex_group1_matches(pattern, text) {
        Some(v) => v,
        None => Seq::empty(),
    }
}

/// The abstract-page URL of an arXiv id.
pub open spec fn abs_url(id: Seq<char>) -> Seq<char> {
    "https://arxiv.org/abs/"@ + id
}

/// The arXiv ids already linked: the last path segment, version stripped, of each link
/// that mentions arXiv.
pub open spec fn linked_ids(links: Seq<Seq<char>>) -> Seq<Seq<char>>
    decreases links.len(),
{
    if links.len() == 0 {
        Seq::empty()
    } else if crate::strs::contains_seq(links.last(), "arxiv"@) {
        linked_ids(links.drop_last()).push(strip_version(split_on(links.last(), '/').last()))
    } else {
        linked_ids(links.drop_last())
    }
}

/// The state after merging text-extracted ids into the links of a reference: the ids seen,
/// the links, and the first id added.
pub open spec fn merge_ids(seen: Seq<Seq<char>>, links: Seq<Seq<char>>, eprint: Option<Seq<char>>, ids: Seq<Seq<char>>)
    -> (Seq<Seq<char>>, Seq<Seq<char>>, Option<Seq<char>>)
    decreases ids.len(),
{
    if ids.len() == 0 {
        (seen, links, eprint)
    } else {
        let st = merge_ids(seen, links, eprint, ids.drop_last());
        let id = strip_version(ids.last());
        if st.0.contains(id) {
            st
        } else {
            (st.0.push(id), st.1.push(abs_url(id)), if st.2 is None { Some(id) } else { st.2 })
        }
    }
}

/// The text before the first occurrence of `p` in `s` (all of `s` when there is none).
pub open spec fn before_first(s: Seq<char>, p: Seq<char>) -> Seq<char> {
    match find_seq(s, p, 0) {
        Some(i) => s.take(i),
        None => s,
    }
}

/// `s` without trailing commas.
pub open spec fn trim_end_commas(s: Seq<char>) -> Seq<char>
    decreases s.len(),
{
    if s.len() > 0 && s.last() == ',' {
        trim_end_commas(s.drop_last())
    } else {
        s
    }
}

/// `s` without trailing characters that are not alphanumeric.
pub open spec fn trim_end_non_alnum(s: Seq<char>) -> Seq<char>
    decreases s.len(),
{
    if s.len() > 0 && !unicode_alphanumeric(s.last()) {
        trim_end_non_alnum(s.drop_last())
    } else {
        s
    }
}

/// The (author, title) of a reference: with an italic title, the text before the title is
/// the author; otherwise the comma-separated split of the whole text.
pub open spec fn reference_author_title(text: Seq<char>, em_title: Seq<char>) -> (Seq<char>, Seq<char>) {
    if em_title.len() > 0 {
        (trim(trim_end_commas(trim(before_first(text, em_title)))), em_title)
    } else {
        author_title(text)
    }
}

/// The links of a reference as URL strings.
pub open spec fn link_urls(links: Seq<Link>) -> Seq<Seq<char>> {
    links.map_values(|l: Link| l.url@)
}

/// The view of an optional string.
pub open spec fn opt_chars(o: Option<String>) -> Option<Seq<char>> {
    match o {
        Some(s) => Some(s@),
        None => None,
    }
}

/// The view of an optional character vector.
pub open spec fn opt_vec_view(o: Option<Vec<char>>) -> Option<Seq<char>> {
    match o {
        Some(e) => Some(e@),
        None => None,
    }
}

/// A copy of the characters of `v` as a vector.
fn copy_chars(v: &[char]) -> (res: Vec<char>)
    ensures
        res@ == v@,
{
    let r = slice_chars(v, 0, v.len());
    assert(v@.subrange(0, v@.len() as int) == v@);
    r
}

/// The version-stripped arXiv id in the last path segment of `url`.
fn last_segment_id(url: &[char]) -> (res: Vec<char>)
    ensures
        res@ == strip_version(split_on(url@, '/').last()),
{
    let seg = string_of(&last_segment(url));
    let stripped = strip_version_suffix(seg.as_str());
    chars_of(stripped.as_str())
}

/// The last path segment of `url`: what follows its last `/` (`rsplit('/').next()`).
pub fn last_segment(url: &[char]) -> (res: Vec<char>)
    ensures
        res@ == split_on(url@, '/').last(),
{
    let mut start: usize = url.len();
    while start > 0 && url[start - 1] != '/'
        invariant
            start <= url@.len(),
            forall|k: int| start <= k < url@.len() ==> url@[k] != '/',
        decreases start,
    {
        start -= 1;
    }
    proof {
        lemma_split_last(url@, start as int);
    }
    slice_chars(url, start, url.len())
}

proof fn lemma_split_last(s: Seq<char>, start: int)
    requires
        0 <= start <= s.len(),
        start == 0 || s[start - 1] == '/',
        forall|k: int| start <= k < s.len() ==> s[k] != '/',
    ensures
        split_on(s, '/').last() == s.subrange(start, s.len() as int),
    decreases s.len(),
{
    lemma_split_nonempty(s, '/');
    if s.len() > 0 {
        if start == s.len() {
            assert(s.subrange(start, s.len() as int) =~= Seq::<char>::empty());
        } else {
            lemma_split_last(s.drop_last(), start);
            lemma_split_nonempty(s.drop_last(), '/');
            assert(s.drop_last().subrange(start, s.len() - 1).push(s.last()) =~= s.subrange(start, s.len() as int));
        }
    }
}

/// Merges the ids `ids` into the reference's seen ids and links.
fn merge_found_ids(
    seen: &mut Vec<Vec<char>>,
    links: &mut Vec<Vec<char>>,
    eprint: &mut Option<Vec<char>>,
    ids: &Vec<String>,
)
    ensures
        ({
            let st = merge_ids(word_views(old(seen)@), word_views(old(links)@),
                opt_vec_view(*old(eprint)), strings_view(ids@));
            &&& word_views(final(seen)@) == st.0
            &&& word_views(final(links)@) == st.1
            &&& opt_vec_view(*final(eprint)) == st.2
        }),
{
    let ghost s0 = word_views(seen@);
    let ghost l0 = word_views(links@);
    let ghost e0 = opt_vec_view(*eprint);
    let mut k: usize = 0;
    while k < ids.len()
        invariant
            k <= ids@.len(),
            ({
                let st = merge_ids(s0, l0, e0, strings_view(ids@).take(k as int));
                &&& word_views(seen@) == st.0
                &&& word_views(links@) == st.1
                &&& opt_vec_view(*eprint) == st.2
            }),
        decreases ids@.len() - k,
    {
        assert(strings_view(ids@).take(k + 1).drop_last() == strings_view(ids@).take(k as int));
        assert(strings_view(ids@).take(k + 1).last() == ids@[k as int]@);
        let stripped = strip_version_suffix(ids[k].as_str());
        let id = chars_of(stripped.as_str());
        if !holds_chars(seen, &id) {
            seen.push(copy_chars(&id));
            let mut url = chars_of("https://arxiv.org/abs/");
            append_chars(&mut url, &id);
            links.push(url);
            if eprint.is_none() {
                *eprint = Some(copy_chars(&id));
            }
            assert(word_views(seen@) =~= merge_ids(s0, l0, e0, strings_view(ids@).take(k + 1)).0);
            assert(word_views(links@) =~= merge_ids(s0, l0, e0, strings_view(ids@).take(k + 1)).1);
        }
        k += 1;
    }
    assert(strings_view(ids@).take(ids@.len() as int) == strings_view(ids@));
}

/// The reference built from the text of a bibliography entry, the text of its italic
/// title (empty when it has none), and the targets of its links.
pub open spec fn reference_of(text: Seq<char>, em_title: Seq<char>, hrefs: Seq<Seq<char>>) -> (Seq<Seq<char>>, Option<Seq<char>>, Option<Seq<char>>, (Seq<char>, Seq<char>)) {
    let st1 = merge_ids(linked_ids(hrefs), hrefs, None, matches_of(new_style_pattern(), text));
    let st2 = merge_ids(st1.0, st1.1, st1.2, matches_of(old_style_pattern(), text));
    let dois = matches_of(doi_pattern(), text);
    let doi = if dois.len() > 0 { Some(trim_end_non_alnum(dois[0])) } else { None };
    (st2.1, st2.2, doi, reference_author_title(text, em_title))
}

/// The matches of a pattern, none when it is refused.
fn matches_or_none(pattern: &str, text: &str) -> (res: Vec<String>)
    ensures
        strings_view(res@) == matches_of(pattern@, text@),
{
    match regex_group1_all(pattern, text) {
        Some(v) => v,
        None => {
            let v: Vec<String> = Vec::new();
            assert(strings_view(v@) =~= Seq::<Seq<char>>::empty());
            v
        },
    }
}

/// Build a reference from the text of a bibliography entry, the text of its italic title
/// (empty when it has none), and the targets of its links. arXiv ids and DOIs written in
/// the text are added: each new arXiv id as an `abs` link (the first one also as the
/// reference's e-print), the first DOI with trailing punctuation removed.
pub fn build_reference(reference_string: &str, em_title: &str, hrefs: &Vec<String>) -> (res: Reference)
    ensures
        ({
            let r = reference_of(reference_string@, em_title@, strings_view(hrefs@));
            &&& link_urls(res.links@) == r.0
            &&& opt_chars(res.arxiv_eprint) == r.1
            &&& opt_chars(res.doi) == r.2
            &&& res.author@ == r.3.0
            &&& res.title@ == r.3.1
            &&& res.inspire_record_id is None
            &&& res.label is None
        }),
{
    proof {
        reveal_strlit("arxiv");
    }
    // ids already linked
    let mut links: Vec<Vec<char>> = Vec::new();
    let mut seen: Vec<Vec<char>> = Vec::new();
    let mut i: usize = 0;
    while i < hrefs.len()
        invariant
            i <= hrefs@.len(),
            word_views(links@) == strings_view(hrefs@).take(i as int),
            word_views(seen@) == linked_ids(strings_view(hrefs@).take(i as int)),
        decreases hrefs@.len() - i,
    {
        assert(strings_view(hrefs@).take(i + 1).drop_last() == strings_view(hrefs@).take(i as int));
        assert(strings_view(hrefs@).take(i + 1).last() == hrefs@[i as int]@);
        let url = chars_of(hrefs[i].as_str());
        if crate::strs::contains_str(&url, "arxiv") {
            seen.push(last_segment_id(&url));
            assert(word_views(seen@) =~= linked_ids(strings_view(hrefs@).take(i + 1)));
        }
        links.push(url);
        assert(word_views(links@) =~= strings_view(hrefs@).take(i + 1));
        i += 1;
    }
    assert(strings_view(hrefs@).take(hrefs@.len() as int) == strings_view(hrefs@));
    let mut eprint: Option<Vec<char>> = None;
    let new_ids = matches_or_none("\\b((?:0[0-9]|1[0-9]|2[0-9])\\d{2}\\.\\d{4,5}(?:v\\d+)?)\\b", reference_string);
    merge_found_ids(&mut seen, &mut links, &mut eprint, &new_ids);
    let old_ids = matches_or_none("\\b([a-zA-Z][a-zA-Z0-9\\-]+/\\d{7}(?:v\\d+)?)\\b", reference_string);
    merge_found_ids(&mut seen, &mut links, &mut eprint, &old_ids);
    let dois = matches_or_none("\\b(10\\.\\d{4,}/[^\\s,;)\\]]+)", reference_string);
    let doi = if dois.len() > 0 {
        let d = chars_of(dois[0].as_str());
        let mut end = d.len();
        assert(d@.take(end as int) == d@);
        while end > 0 && !is_alphanumeric(d[end - 1])
            invariant
                end <= d@.len(),
                trim_end_non_alnum(d@) == trim_end_non_alnum(d@.take(end as int)),
            decreases end,
        {
            assert(d@.take(end as int).drop_last() == d@.take(end - 1));
            end -= 1;
        }
        Some(string_of(&slice_chars(&d, 0, end)))
    } else {
        None
    };
    let (author, title) = if !em_title.is_empty() {
        let text = chars_of(reference_string);
        let em = chars_of(em_title);
        let before = match find_in(&text, &em) {
            Some(p) => slice_chars(&text, 0, p),
            None => copy_chars(&text),
        };
        let t1 = trim_chars(&before);
        let mut end = t1.len();
        assert(t1@.take(end as int) == t1@);
        while end > 0 && t1[end - 1] == ','
            invariant
                end <= t1@.len(),
                trim_end_commas(t1@) == trim_end_commas(t1@.take(end as int)),
            decreases end,
        {
            assert(t1@.take(end as int).drop_last() == t1@.take(end - 1));
            end -= 1;
        }
        let t2 = trim_chars(&slice_chars(&t1, 0, end));
        (string_of(&t2), em_title.to_owned())
    } else {
        trim_and_split_arxiv_reference_string(reference_string)
    };
    let mut link_list: Vec<Link> = Vec::new();
    let mut k: usize = 0;
    while k < links.len()
        invariant
            k <= links@.len(),
            link_urls(link_list@) == word_views(links@).take(k as int),
        decreases links@.len() - k,
    {
        let l = Link::from_url(string_of(&links[k]).as_str());
        let ghost old_list = link_list@;
        link_list.push(l);
        assert(link_urls(link_list@) =~= link_urls(old_list).push(links@[k as int]@));
        assert(word_views(links@)[k as int] == links@[k as int]@);
        assert(link_urls(link_list@) =~= word_views(links@).take(k + 1));
        k += 1;
    }
    assert(word_views(links@).take(links@.len() as int) == word_views(links@));
    let arxiv_eprint = match eprint {
        Some(e) => Some(string_of(&e)),
        None => None,
    };
    Reference {
        author,
        title,
        links: link_list,
        doi,
        arxiv_eprint,
        inspire_record_id: None,
        label: None,
    }
}

} // verus!
