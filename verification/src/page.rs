//! Reading a paper's HTML page: the entries of its bibliography and the blocks of text
//! (abstract, sections) that the extraction works on.
use vstd::prelude::*;
use crate::arxiv_refs::{build_reference, reference_of, link_urls, opt_chars};
use crate::contradiction::strings_view;
use crate::paper::{Paper, Reference};
use crate::strs::{append_chars, trim, trim_chars};
use crate::text::{chars_eq, chars_of, string_of};
use crate::extraction::{opt_view, ExtractionMethod, SectionMap, TextExtractionResult};
use crate::ids::{strip_version, strip_version_suffix};
use crate::provider::now_rfc3339;
use crate::sections::{
    abstract_of, category_of, category_text, normalized_title, para_texts, parse_sections, parts_of,
    pieces_view, section_cat, section_content, RawAbstract, RawSection,
};
use crate::strs::join_with;

verus! {

/// A child node of a bibliography entry, as the HTML parser hands it out: a text node;
/// an element, with its tag name, the text pieces it holds and its `href` attribute; or
/// any other node (a comment).
#[derive(Debug, Clone)]
pub enum BibNode {
    Text(String),
    Element { name: String, text: Vec<String>, href: Option<String> },
    Other,
}

/// What a [`BibNode`] holds, as character sequences.
pub enum BibNodeView {
    Text(Seq<char>),
    Element(Seq<char>, Seq<Seq<char>>, Option<Seq<char>>),
    Other,
}

/// The view of a bibliography node.
pub open spec fn bib_node_view(n: BibNode) -> BibNodeView {
    match n {
        BibNode::Text(t) => BibNodeView::Text(t@),
        BibNode::Element { name, text, href } => BibNodeView::Element(name@, strings_view(text@), opt_chars(href)),
        BibNode::Other => BibNodeView::Other,
    }
}

/// The view of the child nodes of one entry.
pub open spec fn entry_view(nodes: Seq<BibNode>) -> Seq<BibNodeView> {
    nodes.map_values(|n: BibNode| bib_node_view(n))
}

/// The view of the child nodes of each entry.
pub open spec fn entries_view(entries: Seq<Vec<BibNode>>) -> Seq<Seq<BibNodeView>> {
    entries.map_values(|e: Vec<BibNode>| entry_view(e@))
}

/// What `scraper` gives for `html` and the CSS selector `selector`: `None` when the
/// selector does not parse, otherwise, for each matching element in document order, its
/// child nodes in order.
pub uninterp spec fn html_child_nodes(html: Seq<char>, selector: Seq<char>) -> Option<Seq<Seq<BibNodeView>>>;

/// `scraper::Selector::parse`, `Html::parse_document` and `Html::select`, then for each
/// match the children (`NodeRef::children`): a text node's text, an element's tag name,
/// text pieces (`ElementRef::text`) and `href` attribute, and any other node as `Other`.
/// The contract names the result; `None` exactly when the selector is refused.
#[verifier::external_body]
fn select_child_nodes(html: &str, selector: &str) -> (res: Option<Vec<Vec<BibNode>>>)
    ensures
        res is None <==> html_child_nodes(html@, selector@) is None,
        res matches Some(v) ==> html_child_nodes(html@, selector@) == Some(entries_view(v@)),
{
    let sel = scraper::Selector::parse(selector).ok()?;
    let doc = scraper::Html::parse_document(html);
    Some(doc.select(&sel).map(|e| e.children().map(|c| match c.value() {
        scraper::Node::Text(t) => BibNode::Text(t.to_string()),
        scraper::Node::Element(el) => BibNode::Element {
            name: el.name().to_string(),
            text: scraper::ElementRef::wrap(c).map_or_else(Vec::new, |r| r.text().map(str::to_string).collect()),
            href: el.attr("href").map(str::to_string),
        },
        _ => BibNode::Other,
    }).collect()).collect())
}

/// The text pieces written one after another.
pub open spec fn concat_all(pieces: Seq<Seq<char>>) -> Seq<char>
    decreases pieces.len(),
{
    if pieces.len() == 0 {
        Seq::empty()
    } else {
        concat_all(pieces.drop_last()) + pieces.last()
    }
}

/// What the child nodes of an entry give: the entry's text, the text of its italic title
/// (empty when it has none; the last one wins), and the targets of its links. Text nodes
/// and the text of every element go into the text, in order; an `em` element's text is
/// trimmed first.
pub open spec fn assemble(nodes: Seq<BibNodeView>) -> (Seq<char>, Seq<char>, Seq<Seq<char>>)
    decreases nodes.len(),
{
    if nodes.len() == 0 {
        (Seq::empty(), Seq::empty(), Seq::empty())
    } else {
        let (text, em, links) = assemble(nodes.drop_last());
        match nodes.last() {
            BibNodeView::Text(t) => (text + t, em, links),
            BibNodeView::Element(name, pieces, href) => {
                if name == "em"@ {
                    let e = trim(concat_all(pieces));
                    (text + e, e, links)
                } else if name == "a"@ {
                    let links2 = match href {
                        Some(h) => links.push(h),
                        None => links,
                    };
                    (text + concat_all(pieces), em, links2)
                } else {
                    (text + concat_all(pieces), em, links)
                }
            },
            BibNodeView::Other => (text, em, links),
        }
    }
}

/// The characters a child node adds to an entry's text: a text node's text, an element's
/// text pieces one after another (trimmed for an `em` element), nothing for another node.
pub open spec fn node_chars(n: BibNodeView) -> Seq<char> {
    match n {
        BibNodeView::Text(t) => t,
        BibNodeView::Element(name, pieces, _) => if name == "em"@ { trim(pieces.flatten()) } else { pieces.flatten() },
        BibNodeView::Other => Seq::empty(),
    }
}

/// The links a child node adds to an entry: the `href` of an `a` element that has one.
pub open spec fn node_links(n: BibNodeView) -> Seq<Seq<char>> {
    match n {
        BibNodeView::Element(name, _, Some(h)) => if name == "a"@ { seq![h] } else { Seq::empty() },
        _ => Seq::empty(),
    }
}

/// The italic title of an entry is the trimmed text of its last `em` element: a further
/// `em` child replaces it, and any other child leaves it as it was. An entry without
/// child nodes has none.
pub proof fn lemma_assemble_em_title(nodes: Seq<BibNodeView>, n: BibNodeView)
    ensures
        assemble(Seq::empty()).1 == Seq::<char>::empty(),
        assemble(nodes.push(n)).1 == match n {
            BibNodeView::Element(name, pieces, _) => if name == "em"@ { trim(pieces.flatten()) } else { assemble(nodes).1 },
            _ => assemble(nodes).1,
        },
{
    assert(nodes.push(n).drop_last() =~= nodes);
    match n {
        BibNodeView::Element(name, pieces, _) => {
            lemma_concat_all_flatten(pieces);
        },
        _ => {},
    }
}

/// Concatenating the pieces one after another gives the same as `flatten`.
proof fn lemma_concat_all_flatten(pieces: Seq<Seq<char>>)
    ensures
        concat_all(pieces) == pieces.flatten(),
    decreases pieces.len(),
{
    if pieces.len() > 0 {
        lemma_concat_all_flatten(pieces.drop_last());
        pieces.drop_last().lemma_flatten_and_flatten_alt_are_equivalent();
    }
    pieces.lemma_flatten_and_flatten_alt_are_equivalent();
}

/// The text of an entry is every text node and the text of every element child (links
/// included), concatenated in the order of the nodes; its links are the `href`s of its
/// `a` elements, in order.
pub proof fn lemma_assemble_text_and_links(nodes: Seq<BibNodeView>)
    ensures
        assemble(nodes).0 == nodes.map_values(|n: BibNodeView| node_chars(n)).flatten(),
        assemble(nodes).2 == nodes.map_values(|n: BibNodeView| node_links(n)).flatten(),
    decreases nodes.len(),
{
    let ts = nodes.map_values(|n: BibNodeView| node_chars(n));
    let ls = nodes.map_values(|n: BibNodeView| node_links(n));
    ts.lemma_flatten_and_flatten_alt_are_equivalent();
    ls.lemma_flatten_and_flatten_alt_are_equivalent();
    if nodes.len() > 0 {
        let d = nodes.drop_last();
        lemma_assemble_text_and_links(d);
        assert(ts.drop_last() =~= d.map_values(|n: BibNodeView| node_chars(n)));
        assert(ls.drop_last() =~= d.map_values(|n: BibNodeView| node_links(n)));
        d.map_values(|n: BibNodeView| node_chars(n)).lemma_flatten_and_flatten_alt_are_equivalent();
        d.map_values(|n: BibNodeView| node_links(n)).lemma_flatten_and_flatten_alt_are_equivalent();
        match nodes.last() {
            BibNodeView::Element(name, pieces, href) => {
                lemma_concat_all_flatten(pieces);
                match href {
                    Some(h) => {
                        let prev = assemble(d).2;
                        if name == "a"@ {
                            reveal_strlit("a");
                            reveal_strlit("em");
                            assert("a"@.len() == 1 && "em"@.len() == 2);
                            assert(name != "em"@);
                            assert(node_links(nodes.last()) == seq![h]);
                            assert(assemble(nodes).2 == prev.push(h));
                            assert(prev.push(h) =~= prev + seq![h]);
                        } else {
                            assert(node_links(nodes.last()) == Seq::<Seq<char>>::empty());
                            assert(assemble(nodes).2 == prev);
                            assert(prev + Seq::<Seq<char>>::empty() =~= prev);
                        }
                    },
                    None => {
                        let prev = assemble(d).2;
                        assert(prev + Seq::<Seq<char>>::empty() =~= prev);
                    },
                }
            },
            _ => {
                let prev = assemble(d).2;
                assert(prev + Seq::<Seq<char>>::empty() =~= prev);
                let pt = assemble(d).0;
                assert(pt + Seq::<char>::empty() =~= pt);
            },
        }
        assert(ts.last() == node_chars(nodes.last()));
        assert(ls.last() == node_links(nodes.last()));
        assert(ls.flatten_alt() == ls.drop_last().flatten_alt() + ls.last());
        assert(assemble(nodes).2 =~= assemble(d).2 + node_links(nodes.last()));
    }
}


/// The text pieces written one after another.
fn concat_pieces(pieces: &Vec<String>) -> (res: Vec<char>)
    ensures
        res@ == concat_all(strings_view(pieces@)),
{
    let mut out: Vec<char> = Vec::new();
    let mut k: usize = 0;
    while k < pieces.len()
        invariant
            k <= pieces@.len(),
            out@ == concat_all(strings_view(pieces@).take(k as int)),
        decreases pieces@.len() - k,
    {
        assert(strings_view(pieces@).take(k + 1).drop_last() == strings_view(pieces@).take(k as int));
        let p = chars_of(pieces[k].as_str());
        append_chars(&mut out, &p);
        k += 1;
    }
    assert(strings_view(pieces@).take(pieces@.len() as int) == strings_view(pieces@));
    out
}

/// The text, italic title and link targets of a bibliography entry, from its child nodes.
pub fn assemble_entry(nodes: &Vec<BibNode>) -> (res: (String, String, Vec<String>))
    ensures
        (res.0@, res.1@, strings_view(res.2@)) == assemble(entry_view(nodes@)),
{
    proof {
        reveal_strlit("em");
        reveal_strlit("a");
    }
    let em_name = chars_of("em");
    let a_name = chars_of("a");
    let mut text: Vec<char> = Vec::new();
    let mut em: Vec<char> = Vec::new();
    let mut links: Vec<String> = Vec::new();
    let mut k: usize = 0;
    while k < nodes.len()
        invariant
            k <= nodes@.len(),
            em_name@ == "em"@,
            a_name@ == "a"@,
            (text@, em@, strings_view(links@)) == assemble(entry_view(nodes@).take(k as int)),
        decreases nodes@.len() - k,
    {
        assert(entry_view(nodes@).take(k + 1).drop_last() == entry_view(nodes@).take(k as int));
        assert(entry_view(nodes@).take(k + 1).last() == bib_node_view(nodes@[k as int]));
        match &nodes[k] {
            BibNode::Text(t) => {
                let tv = chars_of(t.as_str());
                append_chars(&mut text, &tv);
            },
            BibNode::Element { name, text: pieces, href } => {
                let nv = chars_of(name.as_str());
                let joined = concat_pieces(pieces);
                if chars_eq(&nv, &em_name) {
                    let e = trim_chars(&joined);
                    append_chars(&mut text, &e);
                    em = e;
                } else {
                    if chars_eq(&nv, &a_name) {
                        match href {
                            Some(h) => {
                                links.push(h.clone());
                            },
                            None => {},
                        }
                    }
                    append_chars(&mut text, &joined);
                }
            },
            BibNode::Other => {},
        }
        assert(strings_view(links@) =~= assemble(entry_view(nodes@).take(k + 1)).2);
        k += 1;
    }
    assert(entry_view(nodes@).take(nodes@.len() as int) == entry_view(nodes@));
    (string_of(&text), string_of(&em), links)
}

/// `r` is the reference built from the text `text`, italic title `em` and link targets
/// `hrefs` of a bibliography entry.
pub open spec fn reference_built(r: Reference, text: Seq<char>, em: Seq<char>, hrefs: Seq<Seq<char>>) -> bool {
    let b = reference_of(text, em, hrefs);
    &&& link_urls(r.links@) == b.0
    &&& opt_chars(r.arxiv_eprint) == b.1
    &&& opt_chars(r.doi) == b.2
    &&& r.author@ == b.3.0
    &&& r.title@ == b.3.1
    &&& r.inspire_record_id is None
    &&& r.label is None
}

/// `r` is the reference read from the child nodes `nodes` of a bibliography entry.
pub open spec fn reference_from_nodes(r: Reference, nodes: Seq<BibNodeView>) -> bool {
    let (text, em, hrefs) = assemble(nodes);
    reference_built(r, text, em, hrefs)
}

/// The references of a bibliography, one per entry, in order, each read from the entry's
/// child nodes.
pub fn references_from_entries(entries: &Vec<Vec<BibNode>>) -> (res: Vec<Reference>)
    ensures
        res@.len() == entries@.len(),
        forall|i: int| 0 <= i < entries@.len() ==> reference_from_nodes(#[trigger] res@[i], entry_view(entries@[i]@)),
{
    let mut out: Vec<Reference> = Vec::new();
    let mut i: usize = 0;
    while i < entries.len()
        invariant
            i <= entries@.len(),
            out@.len() == i,
            forall|j: int| 0 <= j < i ==> reference_from_nodes(#[trigger] out@[j], entry_view(entries@[j]@)),
        decreases entries@.len() - i,
    {
        let (text, em, hrefs) = assemble_entry(&entries[i]);
        let r = build_reference(text.as_str(), em.as_str(), &hrefs);
        out.push(r);
        i += 1;
    }
    out
}

/// The CSS selector of a bibliography entry on an arXiv HTML page.
pub open spec fn bib_entry_selector() -> Seq<char> {
    "span[class=\"ltx_bibblock\"]"@
}

/// The references listed in the bibliography of an arXiv HTML page, one per entry, in
/// page order. `None` only when the entry selector is refused by the HTML parser.
pub fn read_bibliography(html: &str) -> (res: Option<Vec<Reference>>)
    ensures
        res is None <==> html_child_nodes(html@, bib_entry_selector()) is None,
        res matches Some(refs) ==> ({
            let entries = html_child_nodes(html@, bib_entry_selector())->0;
            &&& refs@.len() == entries.len()
            &&& forall|i: int| 0 <= i < entries.len() ==> reference_from_nodes(#[trigger] refs@[i], entries[i])
        }),
{
    match select_child_nodes(html, "span[class=\"ltx_bibblock\"]") {
        Some(entries) => {
            let refs = references_from_entries(&entries);
            assert forall|i: int| 0 <= i < entries@.len() implies
                entries_view(entries@)[i] == entry_view(entries@[i]@) by {}
            Some(refs)
        },
        None => None,
    }
}

/// A block of a page: the text pieces of an element, and those of each of its descendants
/// that match a second selector, in document order.
#[derive(Debug, Clone)]
pub struct HtmlBlock {
    pub text: Vec<String>,
    pub inner: Vec<Vec<String>>,
}

/// The views of a list of text-piece lists.
pub open spec fn pieces_of(v: Seq<Vec<String>>) -> Seq<Seq<Seq<char>>> {
    v.map_values(|p: Vec<String>| pieces_view(p@))
}

/// The view of a block: its text pieces and the text pieces of its inner matches.
pub open spec fn block_view(b: HtmlBlock) -> (Seq<Seq<char>>, Seq<Seq<Seq<char>>>) {
    (pieces_view(b.text@), pieces_of(b.inner@))
}

/// The views of a list of blocks.
pub open spec fn blocks_view(v: Seq<HtmlBlock>) -> Seq<(Seq<Seq<char>>, Seq<Seq<Seq<char>>>)> {
    v.map_values(|b: HtmlBlock| block_view(b))
}

/// What `scraper` gives for `html`, the CSS selector `outer` and the CSS selector `inner`:
/// `None` when a selector does not parse, otherwise, for each element matching `outer` in
/// document order, its text pieces and, for each of its descendants matching `inner`, the
/// text pieces of that descendant.
pub uninterp spec fn html_blocks(html: Seq<char>, outer: Seq<char>, inner: Seq<char>)
    -> Option<Seq<(Seq<Seq<char>>, Seq<Seq<Seq<char>>>)>>;

/// `scraper::Selector::parse` of both selectors, `Html::parse_document`, `Html::select`
/// with `outer`, and for each match `ElementRef::text` and `ElementRef::select` with
/// `inner`. The contract names the result; `None` exactly when a selector is refused.
#[verifier::external_body]
fn select_blocks(html: &str, outer: &str, inner: &str) -> (res: Option<Vec<HtmlBlock>>)
    ensures
        res is None <==> html_blocks(html@, outer@, inner@) is None,
        res matches Some(v) ==> html_blocks(html@, outer@, inner@) == Some(blocks_view(v@)),
{
    let (o, i) = (scraper::Selector::parse(outer).ok()?, scraper::Selector::parse(inner).ok()?);
    let doc = scraper::Html::parse_document(html);
    Some(doc.select(&o).map(|e| HtmlBlock {
        text: e.text().map(str::to_string).collect(),
        inner: e.select(&i).map(|p| p.text().map(str::to_string).collect()).collect(),
    }).collect())
}

/// The text of text pieces joined with spaces.
pub open spec fn spaced(p: Seq<Seq<char>>) -> Seq<char> {
    join_with(p, seq![' '])
}

/// The abstract text of a block with paragraphs `paras` and text pieces `pieces` (see
/// `abstract_of`).
pub open spec fn abstract_of_view(paras: Seq<Seq<Seq<char>>>, pieces: Seq<Seq<char>>) -> Option<Seq<char>> {
    let pt = trim(join_with(paras.map_values(|p: Seq<Seq<char>>| spaced(p)), seq![' ']));
    if pt.len() > 0 {
        Some(pt)
    } else {
        let full = trim(spaced(pieces));
        let head = "Abstract"@;
        let text = if head.len() <= full.len() && full.take(head.len() as int) == head {
            trim(full.skip(head.len() as int))
        } else {
            full
        };
        if text.len() > 0 {
            Some(text)
        } else {
            None
        }
    }
}

/// A section as title pieces and paragraphs (see `RawSection`).
pub open spec fn raw_section_view(s: RawSection) -> (Seq<Seq<char>>, Seq<Seq<Seq<char>>>) {
    (pieces_view(s.title_pieces@), pieces_of(s.paragraphs@))
}

/// The contents of the sections in category `cat` that are not empty (see `parts_of`).
pub open spec fn parts_of_view(secs: Seq<(Seq<Seq<char>>, Seq<Seq<Seq<char>>>)>, cat: Seq<char>) -> Seq<Seq<char>>
    decreases secs.len(),
{
    if secs.len() == 0 {
        Seq::empty()
    } else {
        let prev = parts_of_view(secs.drop_last(), cat);
        let s = secs.last();
        let content = trim(join_with(s.1.map_values(|p: Seq<Seq<char>>| spaced(p)), seq!['\n']));
        if category_of(normalized_title(spaced(s.0))) == Some(cat) && content.len() > 0 {
            prev.push(content)
        } else {
            prev
        }
    }
}

/// The text of category `cat`: its sections joined with newlines, if there are any.
pub open spec fn category_text_view(secs: Seq<(Seq<Seq<char>>, Seq<Seq<Seq<char>>>)>, cat: Seq<char>) -> Option<Seq<char>> {
    let parts = parts_of_view(secs, cat);
    if parts.len() == 0 {
        None
    } else {
        Some(join_with(parts, seq!['\n']))
    }
}

proof fn lemma_para_texts_view(paras: Seq<Vec<String>>)
    ensures
        para_texts(paras) == pieces_of(paras).map_values(|p: Seq<Seq<char>>| spaced(p)),
{
    assert(para_texts(paras) =~= pieces_of(paras).map_values(|p: Seq<Seq<char>>| spaced(p)));
}

proof fn lemma_abstract_view(a: RawAbstract)
    ensures
        abstract_of(a) == abstract_of_view(pieces_of(a.paragraphs@), pieces_view(a.text_pieces@)),
{
    lemma_para_texts_view(a.paragraphs@);
}

proof fn lemma_parts_view(secs: Seq<RawSection>, cat: Seq<char>)
    ensures
        parts_of(secs, cat) == parts_of_view(secs.map_values(|s: RawSection| raw_section_view(s)), cat),
    decreases secs.len(),
{
    if secs.len() > 0 {
        lemma_parts_view(secs.drop_last(), cat);
        assert(secs.drop_last().map_values(|s: RawSection| raw_section_view(s))
            =~= secs.map_values(|s: RawSection| raw_section_view(s)).drop_last());
        lemma_para_texts_view(secs.last().paragraphs@);
        assert(section_content(secs.last()) == trim(join_with(
            raw_section_view(secs.last()).1.map_values(|p: Seq<Seq<char>>| spaced(p)), seq!['\n'])));
        assert(section_cat(secs.last()) == category_of(normalized_title(spaced(raw_section_view(secs.last()).0))));
    }
}

/// The sections read from the title blocks `titles` and paragraph blocks `paras` of the
/// same section elements: the title pieces of each section's first title, and its
/// paragraphs.
pub open spec fn sections_view(
    titles: Seq<(Seq<Seq<char>>, Seq<Seq<Seq<char>>>)>,
    paras: Seq<(Seq<Seq<char>>, Seq<Seq<Seq<char>>>)>,
) -> Seq<(Seq<Seq<char>>, Seq<Seq<Seq<char>>>)> {
    let n = if titles.len() < paras.len() { titles.len() } else { paras.len() };
    Seq::new(n, |i: int| (if titles[i].1.len() > 0 { titles[i].1[0] } else { Seq::empty() }, paras[i].1))
}

/// The CSS selector of the abstract block of a paper page.
pub open spec fn abstract_selector() -> Seq<char> {
    ".ltx_abstract"@
}

/// The CSS selector of a paragraph.
pub open spec fn paragraph_selector() -> Seq<char> {
    ".ltx_para"@
}

/// The CSS selector of a section.
pub open spec fn section_selector() -> Seq<char> {
    "section.ltx_section, div.ltx_section"@
}

/// The CSS selector of a section title.
pub open spec fn title_selector() -> Seq<char> {
    ".ltx_title_section, .ltx_title_chapter"@
}

/// The HTML parser accepts the selectors of the abstract, the sections, their titles and
/// paragraphs.
pub open spec fn page_selectors_ok(html: Seq<char>) -> bool {
    &&& html_blocks(html, abstract_selector(), paragraph_selector()) is Some
    &&& html_blocks(html, section_selector(), title_selector()) is Some
    &&& html_blocks(html, section_selector(), paragraph_selector()) is Some
}

/// `m` holds the sections of the page `html`: the abstract text of its first abstract
/// block (none without one), and for each category the text gathered from its sections.
pub open spec fn sections_of_page(html: Seq<char>, m: SectionMap) -> bool {
    let ab = html_blocks(html, abstract_selector(), paragraph_selector())->0;
    let secs = sections_view(
        html_blocks(html, section_selector(), title_selector())->0,
        html_blocks(html, section_selector(), paragraph_selector())->0,
    );
    &&& opt_view(m.abstract_text) == (if ab.len() > 0 { abstract_of_view(ab[0].1, ab[0].0) } else { None })
    &&& opt_view(m.introduction) == category_text_view(secs, "introduction"@)
    &&& opt_view(m.methods) == category_text_view(secs, "methods"@)
    &&& opt_view(m.results) == category_text_view(secs, "results"@)
    &&& opt_view(m.conclusion) == category_text_view(secs, "conclusion"@)
}

/// The first list of text pieces of a block, or an empty list.
fn first_inner(b: HtmlBlock) -> (res: Vec<String>)
    ensures
        pieces_view(res@) == (if block_view(b).1.len() > 0 { block_view(b).1[0] } else { Seq::empty() }),
{
    let mut inner = b.inner;
    if inner.len() > 0 {
        inner.remove(0)
    } else {
        let v: Vec<String> = Vec::new();
        assert(pieces_view(v@) =~= Seq::<Seq<char>>::empty());
        v
    }
}

/// The sections of a page from its title blocks and paragraph blocks.
fn sections_from_blocks(titles: Vec<HtmlBlock>, paras: Vec<HtmlBlock>) -> (res: Vec<RawSection>)
    ensures
        res@.map_values(|s: RawSection| raw_section_view(s)) == sections_view(
            blocks_view(titles@),
            blocks_view(paras@),
        ),
{
    let ghost tv = blocks_view(titles@);
    let ghost pv = blocks_view(paras@);
    let ghost target = sections_view(tv, pv);
    let mut titles = titles;
    let mut paras = paras;
    let mut out: Vec<RawSection> = Vec::new();
    let ghost mut k: int = 0;
    while titles.len() > 0 && paras.len() > 0
        invariant
            0 <= k <= tv.len(),
            k <= pv.len(),
            target == sections_view(tv, pv),
            blocks_view(titles@) == tv.skip(k),
            blocks_view(paras@) == pv.skip(k),
            out@.len() == k,
            forall|j: int| 0 <= j < k ==> raw_section_view(#[trigger] out@[j]) == target[j],
        decreases titles@.len(),
    {
        proof {
            assert(blocks_view(titles@)[0] == block_view(titles@[0]));
            assert(blocks_view(paras@)[0] == block_view(paras@[0]));
            assert(blocks_view(titles@).len() == titles@.len());
            assert(tv.skip(k).len() == tv.len() - k);
            assert(k < tv.len());
            assert(tv.skip(k)[0] == tv[k]);
            assert(blocks_view(paras@).len() == paras@.len());
            assert(pv.skip(k).len() == pv.len() - k);
            assert(pv.skip(k)[0] == pv[k]);
        }
        let ghost old_titles = titles@;
        let ghost old_paras = paras@;
        let t = titles.remove(0);
        let p = paras.remove(0);
        let title_pieces = first_inner(t);
        out.push(RawSection { title_pieces, paragraphs: p.inner });
        proof {
            assert forall|j: int| 0 <= j < titles@.len() implies
                #[trigger] blocks_view(titles@)[j] == tv.skip(k + 1)[j] by {
                assert(titles@[j] == old_titles[j + 1]);
                assert(blocks_view(old_titles)[j + 1] == tv.skip(k)[j + 1]);
            }
            assert forall|j: int| 0 <= j < paras@.len() implies
                #[trigger] blocks_view(paras@)[j] == pv.skip(k + 1)[j] by {
                assert(paras@[j] == old_paras[j + 1]);
                assert(blocks_view(old_paras)[j + 1] == pv.skip(k)[j + 1]);
            }
            assert(blocks_view(titles@) =~= tv.skip(k + 1));
            assert(blocks_view(paras@) =~= pv.skip(k + 1));
            k = k + 1;
        }
    }
    assert(out@.map_values(|s: RawSection| raw_section_view(s)) =~= target);
    out
}

/// The sections of an arXiv HTML page: the abstract (the first abstract block), then the
/// introduction, methods, results and conclusion texts gathered from its sections (see
/// `parse_sections`). `None` only when a selector is refused by the HTML parser.
pub fn read_sections(html: &str) -> (res: Option<SectionMap>)
    ensures
        res is None <==> !page_selectors_ok(html@),
        res matches Some(m) ==> sections_of_page(html@, m),
{
    let abs = select_blocks(html, ".ltx_abstract", ".ltx_para");
    let titles = select_blocks(html, "section.ltx_section, div.ltx_section", ".ltx_title_section, .ltx_title_chapter");
    let paras = select_blocks(html, "section.ltx_section, div.ltx_section", ".ltx_para");
    match (abs, titles, paras) {
        (Some(abs), Some(titles), Some(paras)) => {
            let ghost secs_view = sections_view(
                blocks_view(titles@),
                blocks_view(paras@),
            );
            let ghost abs_view = blocks_view(abs@);
            let sections = sections_from_blocks(titles, paras);
            let mut abs = abs;
            let abstract_block = if abs.len() > 0 {
                let b = abs.remove(0);
                assert(block_view(b) == abs_view[0]);
                Some(RawAbstract { paragraphs: b.inner, text_pieces: b.text })
            } else {
                None
            };
            let map = match &abstract_block {
                Some(a) => parse_sections(Some(a), sections.as_slice()),
                None => parse_sections(None, sections.as_slice()),
            };
            proof {
                match abstract_block {
                    Some(a) => lemma_abstract_view(a),
                    None => {},
                }
                lemma_parts_view(sections@, "introduction"@);
                lemma_parts_view(sections@, "methods"@);
                lemma_parts_view(sections@, "results"@);
                lemma_parts_view(sections@, "conclusion"@);
            }
            Some(map)
        },
        _ => None,
    }
}

/// The full-text extraction of `paper` from its HTML page `html`: its version-stripped id,
/// the sections read from the page, marked as complete and stamped with the current time.
/// `None` only when a selector is refused by the HTML parser.
pub fn extraction_from_page(paper: &Paper, html: &str) -> (res: Option<TextExtractionResult>)
    ensures
        res is None <==> !page_selectors_ok(html@),
        res matches Some(r) ==> ({
            &&& r.arxiv_id@ == strip_version(paper.id@)
            &&& r.extraction_method == ExtractionMethod::Ar5ivHtml
            &&& sections_of_page(html@, r.sections)
            &&& !r.is_partial
            &&& r.extracted_at@.len() > 0
        }),
{
    match read_sections(html) {
        Some(sections) => Some(TextExtractionResult {
            arxiv_id: strip_version_suffix(paper.id.as_str()),
            extraction_method: ExtractionMethod::Ar5ivHtml,
            sections,
            is_partial: false,
            extracted_at: now_rfc3339(),
        }),
        None => None,
    }
}

} // verus!
