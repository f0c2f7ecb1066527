//! HTML into sections: visible text, with `h1` and `h2` as headings.
use vstd::prelude::*;
use html5ever::tendril::TendrilSink;
use html5ever::ParseOpts;
use scraper::{Html, HtmlTreeSink, Node};
use crate::rows;
use crate::sections;
use crate::sections::{Section, SectionV};
use crate::text;

verus! {

/// What a node of a document is.
#[derive(Debug, PartialEq, Eq)]
pub enum DomKind {
    /// An element with its tag name and its attributes.
    Element(String, Vec<(String, String)>),
    Text(String),
    Other,
}

/// A node and how deep it stands below the root.
#[derive(Debug, PartialEq, Eq)]
pub struct DomNode {
    pub depth: usize,
    pub kind: DomKind,
}

/// What a [`DomKind`] holds.
pub enum KindV {
    Element(Seq<char>, Seq<(Seq<char>, Seq<char>)>),
    Text(Seq<char>),
    Other,
}

/// What a [`DomNode`] holds.
pub struct DomV {
    pub depth: nat,
    pub kind: KindV,
}

impl View for DomNode {
    type V = DomV;

    open spec fn view(&self) -> DomV {
        DomV {
            depth: self.depth as nat,
            kind: match self.kind {
                DomKind::Element(s, a) => KindV::Element(s@, rows::vals(a@)),
                DomKind::Text(s) => KindV::Text(s@),
                DomKind::Other => KindV::Other,
            },
        }
    }
}

/// The nodes of an HTML document in reading order, the root first. Where scripts run, what is meant
/// for readers without them is text.
pub uninterp spec fn html_nodes(raw: Seq<char>, scripts: bool) -> Seq<DomV>;

/// Parses a document (`html5ever::parse_document` into a `scraper::Html`, which is what
/// `scraper::Html::parse_document` does with scripts on) and lists its nodes in reading order with
/// their depths, tag names and attributes (`NodeRef::descendants`, `NodeRef::ancestors`,
/// `Element::name`, `Element::attrs`): a function of the text and of whether scripts run, named here.
#[verifier::external_body]
pub(crate) fn parse_html(raw: &str, scripts: bool) -> (r: Vec<DomNode>)
    ensures
        rows::vals(r@) == html_nodes(raw@, scripts),
{
    let mut opts = ParseOpts::default();
    opts.tree_builder.scripting_enabled = scripts;
    let doc = html5ever::parse_document(HtmlTreeSink::new(Html::new_document()), opts).one(raw);
    doc.tree.root().descendants().map(|n| DomNode {
        depth: n.ancestors().count(),
        kind: match n.value() {
            Node::Element(e) => DomKind::Element(
                e.name().to_string(),
                e.attrs().map(|a| (a.0.to_string(), a.1.to_string())).collect(),
            ),
            Node::Text(t) => DomKind::Text(t.text.to_string()),
            _ => DomKind::Other,
        },
    }).collect()
}

/// Elements whose content is not part of the text.
pub const SKIPPED: [&'static str; 7] = [
    "script",
    "style",
    "nav",
    "head",
    "noscript",
    "svg",
    "iframe",
];

/// Elements that end a line.
pub const BLOCKS: [&'static str; 13] = [
    "p",
    "div",
    "li",
    "tr",
    "br",
    "h3",
    "h4",
    "h5",
    "h6",
    "section",
    "article",
    "blockquote",
    "pre",
];

/// A name is in a list.
pub open spec fn among(name: Seq<char>, list: Seq<&'static str>) -> bool {
    exists|i: int| 0 <= i < list.len() && #[trigger] list[i]@ == name
}

/// Whether a name is in a list.
pub fn is_among(name: &str, list: &[&'static str]) -> (r: bool)
    ensures
        r == among(name@, list@),
{
    for i in 0..list.len()
        invariant
            forall|j: int| 0 <= j < i ==> #[trigger] list@[j]@ != name@,
    {
        if text::same_text(list[i], name) {
            assert(list@[i as int]@ == name@);
            return true;
        }
    }
    false
}

/// Where the subtree of node `i` ends, known to reach up to `j`.
pub open spec fn subtree_end(nodes: Seq<DomV>, i: int, j: int) -> int
    decreases nodes.len() - j,
{
    if 0 <= j < nodes.len() && nodes[j].depth > nodes[i].depth {
        subtree_end(nodes, i, j + 1)
    } else {
        j
    }
}

/// All text between two positions.
pub open spec fn inner_text(nodes: Seq<DomV>, lo: int, hi: int) -> Seq<char>
    decreases hi - lo,
{
    if lo >= hi {
        Seq::empty()
    } else {
        let before = inner_text(nodes, lo, hi - 1);
        match nodes[hi - 1].kind {
            KindV::Text(t) => before + t,
            _ => before,
        }
    }
}

/// Where the next sibling of node `i` stands, within `hi`.
pub open spec fn next_sibling(nodes: Seq<DomV>, i: int, hi: int) -> int {
    let e = subtree_end(nodes, i, i + 1);
    if e > hi {
        hi
    } else if e <= i {
        i + 1
    } else {
        e
    }
}

/// The sections after the siblings from `lo` to `hi` have been read.
pub open spec fn walked(nodes: Seq<DomV>, lo: int, hi: int, s: Seq<SectionV>) -> Seq<SectionV>
    decreases hi - lo,
{
    if lo < 0 || lo >= hi || hi > nodes.len() {
        s
    } else {
        let next = next_sibling(nodes, lo, hi);
        let here = match nodes[lo].kind {
            KindV::Text(t) => sections::extended(s, t),
            KindV::Element(name, _) => if among(name, SKIPPED@) {
                s
            } else if name == "h1"@ || name == "h2"@ {
                let h = text::trim(inner_text(nodes, lo, next));
                if h.len() > 0 {
                    sections::opened(s, h)
                } else {
                    s
                }
            } else {
                let inner = walked(nodes, lo + 1, next, s);
                if among(name, BLOCKS@) {
                    sections::extended(inner, seq!['\n'])
                } else {
                    inner
                }
            },
            KindV::Other => s,
        };
        walked(nodes, next, hi, here)
    }
}

/// The sections of a document given by its nodes.
pub open spec fn html_sections(nodes: Seq<DomV>) -> Seq<SectionV> {
    walked(nodes, 1, nodes.len() as int, seq![sections::opening()])
}

pub fn end_of_subtree(nodes: &Vec<DomNode>, i: usize, hi: usize) -> (r: usize)
    requires
        i < hi <= nodes@.len(),
    ensures
        r == next_sibling(rows::vals(nodes@), i as int, hi as int),
        i < r <= hi,
{
    let ghost all = rows::vals(nodes@);
    let mut j: usize = i + 1;
    while j < nodes.len() && nodes[j].depth > nodes[i].depth
        invariant
            all == rows::vals(nodes@),
            i < j <= nodes@.len(),
            i < nodes@.len(),
            subtree_end(all, i as int, j as int) == subtree_end(all, i as int, i + 1),
        decreases nodes@.len() - j,
    {
        assert(all[j as int] == nodes@[j as int]@ && all[i as int] == nodes@[i as int]@);
        j = j + 1;
    }
    proof {
        assert(all[i as int] == nodes@[i as int]@);
        if j < nodes@.len() {
            assert(all[j as int] == nodes@[j as int]@);
        }
    }
    if j > hi {
        hi
    } else {
        j
    }
}

fn text_between(nodes: &Vec<DomNode>, lo: usize, hi: usize) -> (r: String)
    requires
        lo <= hi <= nodes@.len(),
    ensures
        r@ == inner_text(rows::vals(nodes@), lo as int, hi as int),
{
    let ghost all = rows::vals(nodes@);
    let mut out = String::new();
    for i in lo..hi
        invariant
            all == rows::vals(nodes@),
            hi <= nodes@.len(),
            out@ == inner_text(all, lo as int, i as int),
    {
        assert(all[i as int] == nodes@[i as int]@);
        if let DomKind::Text(t) = &nodes[i].kind {
            out.append(t.as_str());
        }
    }
    out
}

fn walk(nodes: &Vec<DomNode>, lo: usize, hi: usize, out: &mut Vec<Section>)
    requires
        hi <= nodes@.len(),
        old(out)@.len() > 0,
    ensures
        rows::vals(final(out)@) == walked(
            rows::vals(nodes@),
            lo as int,
            hi as int,
            rows::vals(old(out)@),
        ),
        final(out)@.len() > 0,
    decreases hi - lo,
{
    let ghost all = rows::vals(nodes@);
    let ghost before = rows::vals(out@);
    let mut i: usize = lo;
    while i < hi
        invariant
            all == rows::vals(nodes@),
            lo <= i,
            hi <= nodes@.len(),
            out@.len() > 0,
            walked(all, i as int, hi as int, rows::vals(out@)) == walked(
                all,
                lo as int,
                hi as int,
                before,
            ),
        decreases hi - i,
    {
        let next: usize = end_of_subtree(nodes, i, hi);
        assert(all[i as int] == nodes@[i as int]@);
        match &nodes[i].kind {
            DomKind::Text(t) => {
                sections::extend_last(out, t.as_str());
            },
            DomKind::Element(name, _) => {
                if is_among(name.as_str(), &SKIPPED) {
                } else if text::same_text(name.as_str(), "h1") || text::same_text(
                    name.as_str(),
                    "h2",
                ) {
                    let h = text::trim_str(text_between(nodes, i, next).as_str());
                    if !h.as_str().is_empty() {
                        sections::open_section(out, h);
                    }
                } else {
                    walk(nodes, i + 1, next, out);
                    if is_among(name.as_str(), &BLOCKS) {
                        proof {
                            reveal_strlit("\n");
                            assert("\n"@ =~= seq!['\n']);
                        }
                        sections::extend_last(out, "\n");
                    }
                }
            },
            DomKind::Other => {},
        }
        i = next;
    }
}

/// The sections of a document given by its nodes in reading order.
pub fn sections_of_nodes(nodes: &Vec<DomNode>) -> (r: Vec<Section>)
    ensures
        rows::vals(r@) == html_sections(rows::vals(nodes@)),
{
    let mut out = sections::start_sections();
    walk(nodes, 1, nodes.len(), &mut out);
    out
}

/// HTML: visible text, with `h1` and `h2` opening sections; scripts, styles and navigation are
/// dropped.
pub fn scan_html(raw: &str) -> (r: Vec<Section>)
    ensures
        rows::vals(r@) == html_sections(html_nodes(raw@, true)),
{
    let nodes = parse_html(raw, true);
    sections_of_nodes(&nodes)
}

} // verus!
