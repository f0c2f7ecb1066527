//! What is read of marked-up documents: no visible text is lost.
use vstd::prelude::*;
use crate::html;
use crate::html::{DomV, KindV};
use crate::markup;
use crate::rtf;
use crate::sections;
use crate::sections::SectionV;
use crate::shape;
use crate::text;
use crate::xml::{AttributeV, XmlV};

verus! {

/// Sections that have come on: what was there stays, and more may stand behind it.
pub open spec fn grows(s: Seq<SectionV>, r: Seq<SectionV>) -> bool {
    &&& s.len() <= r.len()
    &&& forall|m: int|
        0 <= m < s.len() ==> (#[trigger] r[m]).heading == s[m].heading && s[m].body.is_prefix_of(
            r[m].body,
        )
}

/// A text stands in the body of a section.
pub open spec fn holds_text(s: Seq<SectionV>, t: Seq<char>) -> bool {
    exists|m: int| 0 <= m < s.len() && text::contains((#[trigger] s[m]).body, t)
}

/// A section has a heading.
pub open spec fn holds_heading(s: Seq<SectionV>, h: Seq<char>) -> bool {
    exists|m: int| 0 <= m < s.len() && (#[trigger] s[m]).heading == Some(h)
}

proof fn lemma_grows_on(a: Seq<SectionV>, b: Seq<SectionV>, c: Seq<SectionV>)
    requires
        grows(a, b),
        grows(b, c),
    ensures
        grows(a, c),
{
    assert forall|m: int| 0 <= m < a.len() implies (#[trigger] c[m]).heading == a[m].heading
        && a[m].body.is_prefix_of(c[m].body) by {
        assert(b[m].heading == a[m].heading);
        assert(a[m].body.is_prefix_of(b[m].body) && b[m].body.is_prefix_of(c[m].body));
        assert(a[m].body =~= c[m].body.subrange(0, a[m].body.len() as int)) by {
            assert(b[m].body =~= c[m].body.subrange(0, b[m].body.len() as int));
            assert(a[m].body =~= b[m].body.subrange(0, a[m].body.len() as int));
        }
    }
}

proof fn lemma_extended_grows(s: Seq<SectionV>, t: Seq<char>)
    requires
        s.len() > 0,
    ensures
        grows(s, sections::extended(s, t)),
        holds_text(sections::extended(s, t), t),
        sections::extended(s, t).len() == s.len(),
{
    let r = sections::extended(s, t);
    let m = s.len() - 1;
    let n = s[m].body.len() as int;
    assert(r[m].body.subrange(n, n + t.len()) =~= t);
    assert(text::occurs_at(r[m].body, t, n));
    assert(s[m].body =~= r[m].body.subrange(0, n));
}

proof fn lemma_opened_grows(s: Seq<SectionV>, h: Seq<char>)
    ensures
        grows(s, sections::opened(s, h)),
        holds_heading(sections::opened(s, h), h),
        sections::opened(s, h).len() == s.len() + 1,
{
    let r = sections::opened(s, h);
    assert(r[s.len() as int].heading == Some(h));
    assert forall|m: int| 0 <= m < s.len() implies (#[trigger] r[m]).heading == s[m].heading
        && s[m].body.is_prefix_of(r[m].body) by {
        assert(r[m] == s[m]);
        assert(s[m].body =~= s[m].body.subrange(0, s[m].body.len() as int));
    }
}

proof fn lemma_grows_itself(s: Seq<SectionV>)
    ensures
        grows(s, s),
{
    assert forall|m: int| 0 <= m < s.len() implies s[m].body.is_prefix_of((#[trigger] s[m]).body) by {
        assert(s[m].body =~= s[m].body.subrange(0, s[m].body.len() as int));
    }
}

proof fn lemma_grown_holds(s: Seq<SectionV>, r: Seq<SectionV>, t: Seq<char>)
    requires
        grows(s, r),
    ensures
        holds_text(s, t) ==> holds_text(r, t),
        holds_heading(s, t) ==> holds_heading(r, t),
{
    if holds_text(s, t) {
        let m = choose|m: int| 0 <= m < s.len() && text::contains((#[trigger] s[m]).body, t);
        let i = choose|i: int| text::occurs_at(s[m].body, t, i);
        assert(r[m].heading == s[m].heading);
        assert(s[m].body =~= r[m].body.subrange(0, s[m].body.len() as int));
        assert(r[m].body.subrange(i, i + t.len()) =~= s[m].body.subrange(i, i + t.len()));
        assert(text::occurs_at(r[m].body, t, i));
    }
    if holds_heading(s, t) {
        let m = choose|m: int| 0 <= m < s.len() && (#[trigger] s[m]).heading == Some(t);
        assert(r[m].heading == s[m].heading);
    }
}

// ---- HTML ------------------------------------------------------------------------------------

/// A subtree is all that follows its root at greater depth.
pub proof fn subtrees_are_all_that_is_deeper(nodes: Seq<DomV>, i: int, j: int)
    requires
        0 <= i < j <= nodes.len(),
        forall|k: int| i < k < j ==> (#[trigger] nodes[k]).depth > nodes[i].depth,
    ensures
        ({
            let e = html::subtree_end(nodes, i, j);
            &&& j <= e <= nodes.len()
            &&& forall|k: int| i < k < e ==> (#[trigger] nodes[k]).depth > nodes[i].depth
            &&& e == nodes.len() || nodes[e].depth <= nodes[i].depth
        }),
    decreases nodes.len() - j,
{
    if j < nodes.len() && nodes[j].depth > nodes[i].depth {
        subtrees_are_all_that_is_deeper(nodes, i, j + 1);
    }
}

/// The text of each node; elements have none of their own.
pub open spec fn node_texts(nodes: Seq<DomV>, lo: int) -> spec_fn(int) -> Seq<char> {
    |i: int|
        match nodes[lo + i].kind {
            KindV::Text(t) => t,
            _ => Seq::empty(),
        }
}

/// The text between two places is that of all text nodes there, one right after the other.
pub proof fn inner_texts_hold_every_text(nodes: Seq<DomV>, lo: int, hi: int)
    requires
        lo <= hi,
    ensures
        shape::laid(hi - lo, node_texts(nodes, lo), html::inner_text(nodes, lo, hi)),
    decreases hi - lo,
{
    let part = node_texts(nodes, lo);
    if lo == hi {
        shape::lemma_laid_none(part);
    } else {
        inner_texts_hold_every_text(nodes, lo, hi - 1);
        let before = html::inner_text(nodes, lo, hi - 1);
        shape::lemma_laid_step(hi - 1 - lo, part, part, before);
        assert(before + part(hi - 1 - lo) =~= html::inner_text(nodes, lo, hi));
    }
}

/// A node whose children are read where they stand: an element that is neither skipped nor a
/// heading.
pub open spec fn is_open(n: DomV) -> bool {
    match n.kind {
        KindV::Element(name, _) => !html::among(name, html::SKIPPED@) && name != "h1"@ && name
            != "h2"@,
        _ => false,
    }
}

/// All that a node stands in, from a place on, is read where it stands.
pub open spec fn is_shown(nodes: Seq<DomV>, from: int, k: int) -> bool {
    forall|j: int|
        from <= j < k && #[trigger] html::subtree_end(nodes, j, j + 1) > k ==> is_open(nodes[j])
}

proof fn lemma_next(nodes: Seq<DomV>, lo: int, hi: int)
    requires
        0 <= lo < hi <= nodes.len(),
    ensures
        lo < html::next_sibling(nodes, lo, hi) <= hi,
        html::next_sibling(nodes, lo, hi) <= html::subtree_end(nodes, lo, lo + 1),
        html::next_sibling(nodes, lo, hi) == hi || html::next_sibling(nodes, lo, hi)
            == html::subtree_end(nodes, lo, lo + 1),
{
    subtrees_are_all_that_is_deeper(nodes, lo, lo + 1);
}

/// Reading on keeps what was read.
pub proof fn lemma_walked_grows(nodes: Seq<DomV>, lo: int, hi: int, s: Seq<SectionV>)
    requires
        s.len() > 0,
    ensures
        grows(s, html::walked(nodes, lo, hi, s)),
    decreases hi - lo,
{
    if lo < 0 || lo >= hi || hi > nodes.len() {
        lemma_grows_itself(s);
    } else {
        lemma_next(nodes, lo, hi);
        let next = html::next_sibling(nodes, lo, hi);
        let here = lemma_here(nodes, lo, hi, s);
        lemma_walked_grows(nodes, next, hi, here);
        lemma_grows_on(s, here, html::walked(nodes, next, hi, here));
    }
}

/// What one node adds.
proof fn lemma_here(nodes: Seq<DomV>, lo: int, hi: int, s: Seq<SectionV>) -> (here: Seq<SectionV>)
    requires
        s.len() > 0,
        0 <= lo < hi <= nodes.len(),
    ensures
        grows(s, here),
        html::walked(nodes, lo, hi, s) == html::walked(
            nodes,
            html::next_sibling(nodes, lo, hi),
            hi,
            here,
        ),
        match nodes[lo].kind {
            KindV::Text(t) => holds_text(here, t),
            KindV::Element(name, _) => {
                let next = html::next_sibling(nodes, lo, hi);
                let h = text::trim(html::inner_text(nodes, lo, next));
                &&& is_open(nodes[lo]) ==> grows(html::walked(nodes, lo + 1, next, s), here)
                &&& !html::among(name, html::SKIPPED@) && (name == "h1"@ || name == "h2"@) && h.len()
                    > 0 ==> holds_heading(here, h)
            },
            KindV::Other => true,
        },
    decreases hi - lo, 0int,
{
    lemma_next(nodes, lo, hi);
    lemma_grows_itself(s);
    let next = html::next_sibling(nodes, lo, hi);
    match nodes[lo].kind {
        KindV::Text(t) => {
            lemma_extended_grows(s, t);
            sections::extended(s, t)
        },
        KindV::Element(name, _) => {
            if html::among(name, html::SKIPPED@) {
                s
            } else if name == "h1"@ || name == "h2"@ {
                let h = text::trim(html::inner_text(nodes, lo, next));
                lemma_opened_grows(s, h);
                if h.len() > 0 {
                    sections::opened(s, h)
                } else {
                    s
                }
            } else {
                let inner = html::walked(nodes, lo + 1, next, s);
                lemma_walked_grows(nodes, lo + 1, next, s);
                lemma_grows_itself(inner);
                if html::among(name, html::BLOCKS@) {
                    lemma_extended_grows(inner, seq!['\n']);
                    lemma_grows_on(s, inner, sections::extended(inner, seq!['\n']));
                    sections::extended(inner, seq!['\n'])
                } else {
                    inner
                }
            }
        },
        KindV::Other => s,
    }
}

/// No visible text of a page is lost: a text that stands in nothing skipped and in no heading
/// stands in the body of a section.
pub proof fn pages_keep_every_visible_text(
    nodes: Seq<DomV>,
    lo: int,
    hi: int,
    s: Seq<SectionV>,
    k: int,
)
    requires
        s.len() > 0,
        0 <= lo <= k < hi <= nodes.len(),
        nodes[k].kind is Text,
        is_shown(nodes, lo, k),
    ensures
        holds_text(html::walked(nodes, lo, hi, s), nodes[k].kind->Text_0),
    decreases hi - lo,
{
    let t = nodes[k].kind->Text_0;
    let next = html::next_sibling(nodes, lo, hi);
    lemma_next(nodes, lo, hi);
    let here = lemma_here(nodes, lo, hi, s);
    let end = html::walked(nodes, next, hi, here);
    lemma_walked_grows(nodes, next, hi, here);
    if k >= next {
        pages_keep_every_visible_text(nodes, next, hi, here, k);
    } else {
        if k > lo {
            assert(html::subtree_end(nodes, lo, lo + 1) > k);
            assert(is_open(nodes[lo]));
            pages_keep_every_visible_text(nodes, lo + 1, next, s, k);
            lemma_grown_holds(html::walked(nodes, lo + 1, next, s), here, t);
        }
        lemma_grown_holds(here, end, t);
    }
}

/// The subtree of a node ends within that of each node it stands in.
proof fn lemma_nested(nodes: Seq<DomV>, k: int, j: int, e: int)
    requires
        0 <= k < j <= e <= nodes.len(),
        e == nodes.len() || nodes[e].depth <= nodes[k].depth,
    ensures
        html::subtree_end(nodes, k, j) <= e,
    decreases nodes.len() - j,
{
    if j < e && nodes[j].depth > nodes[k].depth {
        lemma_nested(nodes, k, j + 1, e);
    }
}

/// No heading of a page is lost: one of the two top levels that stands in nothing skipped and in no
/// other heading, and is not blank, heads a section.
pub proof fn pages_keep_every_visible_heading(
    nodes: Seq<DomV>,
    lo: int,
    hi: int,
    s: Seq<SectionV>,
    k: int,
)
    requires
        s.len() > 0,
        0 <= lo <= k < hi <= nodes.len(),
        nodes[k].kind is Element,
        nodes[k].kind->Element_0 == "h1"@ || nodes[k].kind->Element_0 == "h2"@,
        !html::among(nodes[k].kind->Element_0, html::SKIPPED@),
        html::subtree_end(nodes, k, k + 1) <= hi,
        text::trim(html::inner_text(nodes, k, html::subtree_end(nodes, k, k + 1))).len() > 0,
        is_shown(nodes, lo, k),
    ensures
        holds_heading(
            html::walked(nodes, lo, hi, s),
            text::trim(html::inner_text(nodes, k, html::subtree_end(nodes, k, k + 1))),
        ),
    decreases hi - lo,
{
    let h = text::trim(html::inner_text(nodes, k, html::subtree_end(nodes, k, k + 1)));
    let next = html::next_sibling(nodes, lo, hi);
    lemma_next(nodes, lo, hi);
    let here = lemma_here(nodes, lo, hi, s);
    let end = html::walked(nodes, next, hi, here);
    lemma_walked_grows(nodes, next, hi, here);
    if k >= next {
        pages_keep_every_visible_heading(nodes, next, hi, here, k);
    } else {
        if k > lo {
            subtrees_are_all_that_is_deeper(nodes, lo, lo + 1);
            assert(html::subtree_end(nodes, lo, lo + 1) > k);
            assert(is_open(nodes[lo]));
            assert(nodes[k].depth > nodes[lo].depth);
            if next < hi {
                lemma_nested(nodes, k, k + 1, next);
            }
            pages_keep_every_visible_heading(nodes, lo + 1, next, s, k);
            lemma_grown_holds(html::walked(nodes, lo + 1, next, s), here, h);
        } else {
            subtrees_are_all_that_is_deeper(nodes, k, k + 1);
        }
        lemma_grown_holds(here, end, h);
    }
}

/// What stands in a skipped element leaves no trace.
pub proof fn skipped_elements_leave_no_trace(
    nodes: Seq<DomV>,
    lo: int,
    hi: int,
    s: Seq<SectionV>,
)
    requires
        0 <= lo < hi <= nodes.len(),
        nodes[lo].kind is Element,
        html::among(nodes[lo].kind->Element_0, html::SKIPPED@),
    ensures
        html::walked(nodes, lo, hi, s) == html::walked(
            nodes,
            html::next_sibling(nodes, lo, hi),
            hi,
            s,
        ),
{
}

// ---- XML -------------------------------------------------------------------------------------

/// A readable attribute has a name.
pub open spec fn is_attribute(a: Option<AttributeV>, name: Seq<char>) -> bool {
    a is Some && a->0.name.map_values(|b: u8| b as char) == name
}

/// The value of an attribute is that of the first readable one with its name.
pub proof fn first_attributes_count(attributes: Seq<Option<AttributeV>>, name: Seq<char>, n: nat)
    requires
        n <= attributes.len(),
    ensures
        match markup::attribute_value(attributes, name, n) {
            Some(v) => exists|i: int|
                {
                    &&& 0 <= i < n
                    &&& is_attribute(#[trigger] attributes[i], name)
                    &&& attributes[i]->0.value == v
                    &&& forall|j: int| 0 <= j < i ==> !is_attribute(#[trigger] attributes[j], name)
                },
            None => forall|j: int| 0 <= j < n ==> !is_attribute(#[trigger] attributes[j], name),
        },
    decreases n,
{
    if n > 0 {
        first_attributes_count(attributes, name, (n - 1) as nat);
        let a = attributes[n - 1];
        if a is Some {
            assert(text::latin(a->0.name) =~= a->0.name.map_values(|b: u8| b as char));
        }
    }
}

/// An event is an opening or closing tag of a paragraph.
pub open spec fn is_paragraph_tag(e: XmlV) -> bool {
    match e {
        XmlV::Start { name, attributes } => text::latin(name) == "p"@,
        XmlV::End { name } => text::latin(name) == "p"@,
        _ => false,
    }
}

/// An event gives the style of a paragraph.
pub open spec fn is_style(e: XmlV) -> bool {
    match e {
        XmlV::Empty { name, attributes } => text::latin(name) == "pStyle"@,
        _ => false,
    }
}

/// The texts of some events; an event that is no text, or a text that cannot be read, has none.
pub open spec fn event_texts(events: Seq<XmlV>) -> spec_fn(int) -> Seq<char> {
    |i: int|
        match events[i] {
            XmlV::Text(Some(t)) => t,
            _ => Seq::empty(),
        }
}

/// The sections after a paragraph: a heading opens one, another goes into the last as a line of its
/// own, and a blank one leaves nothing.
pub open spec fn after_paragraph(s: Seq<SectionV>, para: Seq<char>, heading: bool) -> Seq<
    SectionV,
> {
    let t = text::trim(para);
    if t.len() == 0 {
        s
    } else if heading {
        s.push(SectionV { heading: Some(t), body: Seq::empty() })
    } else {
        s.update(s.len() - 1, SectionV { heading: s.last().heading, body: s.last().body + t + "\n"@ })
    }
}

proof fn lemma_after_paragraph(s: Seq<SectionV>, para: Seq<char>)
    ensures
        markup::with_line(s, para) == after_paragraph(s, para, false),
        markup::with_heading(s, para) == after_paragraph(s, para, true),
{
    reveal_strlit("\n");
    let t = text::trim(para);
    assert(s.last().body + t.push('\n') =~= s.last().body + t + "\n"@);
}

/// Within a paragraph the texts are gathered.
proof fn lemma_docx_within(a: Seq<XmlV>, mid: Seq<XmlV>)
    requires
        forall|i: int| 0 <= i < mid.len() ==> !is_paragraph_tag(#[trigger] mid[i]),
        markup::docx_run(a).para.len() == 0,
    ensures
        markup::docx_run(a + mid).sections == markup::docx_run(a).sections,
        (forall|i: int| 0 <= i < mid.len() ==> !is_style(#[trigger] mid[i])) ==> markup::docx_run(
            a + mid,
        ).heading == markup::docx_run(a).heading,
        shape::laid(mid.len() as int, event_texts(mid), markup::docx_run(a + mid).para),
    decreases mid.len(),
{
    if mid.len() == 0 {
        assert(a + mid =~= a);
        shape::lemma_laid_none(event_texts(mid));
        assert(markup::docx_run(a).para =~= Seq::empty());
    } else {
        let less = mid.drop_last();
        let n = less.len() as int;
        let e = mid.last();
        assert(mid[n] == e);
        assert forall|i: int| 0 <= i < less.len() implies !is_paragraph_tag(#[trigger] less[i]) by {
            assert(less[i] == mid[i]);
        }
        lemma_docx_within(a, less);
        assert((a + mid).drop_last() =~= a + less);
        assert((a + mid).last() == e);
        let before = markup::docx_run(a + less);
        assert forall|i: int| 0 <= i < n implies #[trigger] event_texts(less)(i) == event_texts(mid)(
            i,
        ) by {
            assert(less[i] == mid[i]);
        }
        shape::lemma_laid_step(n, event_texts(less), event_texts(mid), before.para);
        assert(markup::docx_run(a + mid).para =~= before.para + event_texts(mid)(n));
        if forall|i: int| 0 <= i < mid.len() ==> !is_style(#[trigger] mid[i]) {
            assert forall|i: int| 0 <= i < less.len() implies !is_style(#[trigger] less[i]) by {
                assert(less[i] == mid[i]);
            }
            assert(!is_style(mid[n]));
        }
    }
}

/// A paragraph of a word-processor document keeps all its text: it becomes a line of the section at
/// hand.
pub proof fn documents_keep_every_paragraph(
    before: Seq<XmlV>,
    open: XmlV,
    mid: Seq<XmlV>,
    close: XmlV,
)
    requires
        open is Start && is_paragraph_tag(open),
        close is End && is_paragraph_tag(close),
        forall|i: int|
            0 <= i < mid.len() ==> !is_paragraph_tag(#[trigger] mid[i]) && !is_style(mid[i]),
    ensures
        exists|para: Seq<char>| #[trigger]
            shape::laid(mid.len() as int, event_texts(mid), para) && markup::docx_run(
                (before.push(open) + mid).push(close),
            ).sections == after_paragraph(markup::docx_run(before).sections, para, false),
{
    let a = before.push(open);
    assert(a.drop_last() =~= before);
    lemma_docx_within(a, mid);
    let all = (a + mid).push(close);
    assert(all.drop_last() =~= a + mid);
    let para = markup::docx_run(a + mid).para;
    assert(!markup::docx_run(a).heading);
    lemma_after_paragraph(markup::docx_run(before).sections, para);
    assert(shape::laid(mid.len() as int, event_texts(mid), para));
}

/// A paragraph in a heading style of the first two levels heads a section of its own.
pub proof fn styled_paragraphs_are_headings(
    before: Seq<XmlV>,
    open: XmlV,
    style: XmlV,
    mid: Seq<XmlV>,
    close: XmlV,
    value: Seq<u8>,
)
    requires
        open is Start && is_paragraph_tag(open),
        close is End && is_paragraph_tag(close),
        is_style(style),
        markup::attribute_value(style->Empty_attributes, "val"@, style->Empty_attributes.len())
            == Some(value),
        forall|i: int|
            0 <= i < mid.len() ==> !is_paragraph_tag(#[trigger] mid[i]) && !is_style(mid[i]),
    ensures
        exists|para: Seq<char>| #[trigger]
            shape::laid(mid.len() as int, event_texts(mid), para) && markup::docx_run(
                (before.push(open).push(style) + mid).push(close),
            ).sections == after_paragraph(
                markup::docx_run(before).sections,
                para,
                markup::heading_style(text::latin(value)),
            ),
{
    let a0 = before.push(open);
    assert(a0.drop_last() =~= before);
    assert(a0.last() == open);
    assert(markup::docx_run(a0).para.len() == 0);
    let a = a0.push(style);
    assert(a.drop_last() =~= a0);
    assert(a.last() == style);
    assert(markup::docx_run(a) == markup::docx_step(markup::docx_run(a0), style));
    lemma_docx_within(a, mid);
    let all = (a + mid).push(close);
    assert(all.drop_last() =~= a + mid);
    let para = markup::docx_run(a + mid).para;
    lemma_after_paragraph(markup::docx_run(before).sections, para);
    assert(shape::laid(mid.len() as int, event_texts(mid), para));
}

/// An event is an opening or closing tag of a paragraph or a heading.
pub open spec fn is_block_tag(e: XmlV) -> bool {
    match e {
        XmlV::Start { name, attributes } => text::latin(name) == "p"@ || text::latin(name) == "h"@,
        XmlV::End { name } => text::latin(name) == "p"@ || text::latin(name) == "h"@,
        _ => false,
    }
}

proof fn lemma_odt_within(a: Seq<XmlV>, mid: Seq<XmlV>)
    requires
        forall|i: int| 0 <= i < mid.len() ==> !is_block_tag(#[trigger] mid[i]),
        markup::odt_run(a).text.len() == 0,
        markup::odt_run(a).level is Some || markup::odt_run(a).in_para,
    ensures
        markup::odt_run(a + mid).sections == markup::odt_run(a).sections,
        markup::odt_run(a + mid).level == markup::odt_run(a).level,
        markup::odt_run(a + mid).in_para == markup::odt_run(a).in_para,
        shape::laid(mid.len() as int, event_texts(mid), markup::odt_run(a + mid).text),
    decreases mid.len(),
{
    if mid.len() == 0 {
        assert(a + mid =~= a);
        shape::lemma_laid_none(event_texts(mid));
        assert(markup::odt_run(a).text =~= Seq::empty());
    } else {
        let less = mid.drop_last();
        let n = less.len() as int;
        let e = mid.last();
        assert(mid[n] == e);
        assert forall|i: int| 0 <= i < less.len() implies !is_block_tag(#[trigger] less[i]) by {
            assert(less[i] == mid[i]);
        }
        lemma_odt_within(a, less);
        assert((a + mid).drop_last() =~= a + less);
        assert((a + mid).last() == e);
        let before = markup::odt_run(a + less);
        assert forall|i: int| 0 <= i < n implies #[trigger] event_texts(less)(i) == event_texts(mid)(
            i,
        ) by {
            assert(less[i] == mid[i]);
        }
        shape::lemma_laid_step(n, event_texts(less), event_texts(mid), before.text);
        assert(markup::odt_run(a + mid).text =~= before.text + event_texts(mid)(n));
    }
}

/// A paragraph or heading of an OpenDocument text keeps all its text: headings of the first two
/// levels open sections, and everything else is a line of the section at hand.
pub proof fn open_documents_keep_every_paragraph(
    before: Seq<XmlV>,
    open: XmlV,
    mid: Seq<XmlV>,
    close: XmlV,
)
    requires
        open is Start && close is End,
        (text::latin(open->Start_name) == "p"@ && text::latin(close->End_name) == "p"@) || (
        text::latin(open->Start_name) == "h"@ && text::latin(close->End_name) == "h"@),
        forall|i: int| 0 <= i < mid.len() ==> !is_block_tag(#[trigger] mid[i]),
    ensures
        exists|para: Seq<char>| #[trigger]
            shape::laid(mid.len() as int, event_texts(mid), para) && markup::odt_run(
                (before.push(open) + mid).push(close),
            ).sections == after_paragraph(
                markup::odt_run(before).sections,
                para,
                text::latin(open->Start_name) == "h"@ && markup::outline_level(
                    open->Start_attributes,
                ) <= 2,
            ),
{
    reveal_strlit("p");
    reveal_strlit("h");
    assert("p"@[0] != "h"@[0]);
    let a = before.push(open);
    assert(a.drop_last() =~= before);
    lemma_odt_within(a, mid);
    let all = (a + mid).push(close);
    assert(all.drop_last() =~= a + mid);
    let para = markup::odt_run(a + mid).text;
    lemma_after_paragraph(markup::odt_run(before).sections, para);
    assert(shape::laid(mid.len() as int, event_texts(mid), para));
}

proof fn lemma_fb2_grows(events: Seq<XmlV>, n: int)
    requires
        0 <= n <= events.len(),
    ensures
        grows(markup::fb2_run(events.take(n)).sections, markup::fb2_run(events).sections),
        markup::fb2_run(events.take(n)).authors.is_prefix_of(markup::fb2_run(events).authors),
    decreases events.len() - n,
{
    if n == events.len() {
        assert(events.take(n) =~= events);
        lemma_grows_itself(markup::fb2_run(events).sections);
        let a = markup::fb2_run(events).authors;
        assert(a =~= a.subrange(0, a.len() as int));
    } else {
        lemma_fb2_grows(events, n + 1);
        let st = markup::fb2_run(events.take(n));
        let next = markup::fb2_run(events.take(n + 1));
        assert(events.take(n + 1).drop_last() =~= events.take(n));
        assert(events.take(n + 1).last() == events[n]);
        lemma_fb2_step(st, events[n]);
        lemma_grows_on(st.sections, next.sections, markup::fb2_run(events).sections);
        let z = markup::fb2_run(events).authors;
        assert(next.authors =~= z.subrange(0, next.authors.len() as int));
        assert(st.authors =~= next.authors.subrange(0, st.authors.len() as int));
        assert(st.authors =~= z.subrange(0, st.authors.len() as int));
    }
}

proof fn lemma_ensured_grows(s: Seq<SectionV>, t: Seq<char>)
    ensures
        grows(s, sections::extended(markup::ensured(s), t)),
        holds_text(sections::extended(markup::ensured(s), t), t),
{
    lemma_extended_grows(markup::ensured(s), t);
}

proof fn lemma_fb2_step(st: markup::Fb2V, e: XmlV)
    ensures
        grows(st.sections, markup::fb2_step(st, e).sections),
        st.authors.is_prefix_of(markup::fb2_step(st, e).authors),
{
    lemma_grows_itself(st.sections);
    assert(st.authors =~= st.authors.subrange(0, st.authors.len() as int));
    match e {
        XmlV::End { name } => {
            let label = markup::label_of(st.title);
            lemma_opened_grows(st.sections, label);
            lemma_ensured_grows(st.sections, label.push('\n'));
            lemma_ensured_grows(st.sections, seq!['\n']);
        },
        XmlV::Text(t) => {
            let txt = text::trim(markup::event_text(t));
            lemma_ensured_grows(st.sections, txt + seq![' ']);
            let more = st.authors.push(txt);
            assert(st.authors =~= more.subrange(0, st.authors.len() as int));
        },
        _ => {},
    }
}

/// No text of a FictionBook's sections is lost: what stands in a section, and neither in its title
/// nor in the book's description, stands in the body of a section, followed by a space.
pub proof fn fiction_books_keep_every_text(events: Seq<XmlV>, n: int)
    requires
        0 <= n < events.len(),
        events[n] is Text,
        events[n]->Text_0 is Some,
        text::trim(events[n]->Text_0->0).len() > 0,
        ({
            let st = markup::fb2_run(events.take(n));
            st.depth > 0 && !st.in_title && !st.in_book_title && !st.in_author
        }),
    ensures
        holds_text(
            markup::fb2_run(events).sections,
            text::trim(events[n]->Text_0->0) + seq![' '],
        ),
{
    let t = text::trim(events[n]->Text_0->0) + seq![' '];
    let st = markup::fb2_run(events.take(n));
    assert(events.take(n + 1).drop_last() =~= events.take(n));
    assert(events.take(n + 1).last() == events[n]);
    lemma_ensured_grows(st.sections, t);
    lemma_fb2_grows(events, n + 1);
    lemma_grown_holds(
        markup::fb2_run(events.take(n + 1)).sections,
        markup::fb2_run(events).sections,
        t,
    );
}

/// A title of the first two section levels heads a section, with its words one space apart; a deeper
/// one is a line of the section at hand.
pub proof fn fiction_books_keep_every_title(events: Seq<XmlV>, n: int)
    requires
        0 <= n < events.len(),
        events[n] is End,
        text::latin(events[n]->End_name) == "title"@,
        markup::fb2_run(events.take(n)).in_title,
        text::words(markup::fb2_run(events.take(n)).title).len() > 0,
        text::join(text::words(markup::fb2_run(events.take(n)).title), " "@).len() > 0,
    ensures
        ({
            let st = markup::fb2_run(events.take(n));
            let label = text::join(text::words(st.title), " "@);
            let s = markup::fb2_run(events).sections;
            if st.depth <= 2 {
                holds_heading(s, label)
            } else {
                holds_text(s, label + seq!['\n'])
            }
        }),
{
    reveal_strlit("title");
    reveal_strlit("section");
    assert("title"@.len() != "section"@.len());
    let st = markup::fb2_run(events.take(n));
    let label = text::join(text::words(st.title), " "@);
    assert(events.take(n + 1).drop_last() =~= events.take(n));
    assert(events.take(n + 1).last() == events[n]);
    lemma_opened_grows(st.sections, label);
    lemma_ensured_grows(st.sections, label.push('\n'));
    assert(label.push('\n') =~= label + seq!['\n']);
    lemma_fb2_grows(events, n + 1);
    lemma_grown_holds(
        markup::fb2_run(events.take(n + 1)).sections,
        markup::fb2_run(events).sections,
        label,
    );
    lemma_grown_holds(
        markup::fb2_run(events.take(n + 1)).sections,
        markup::fb2_run(events).sections,
        label.push('\n'),
    );
}

// ---- RTF -------------------------------------------------------------------------------------

/// Bytes without an escape stand for themselves.
pub proof fn plain_bytes_stand_for_themselves(label: Seq<char>, b: Seq<u8>, i: int)
    requires
        0 <= i <= b.len(),
        forall|k: int| i <= k < b.len() ==> !#[trigger] rtf::escape_at(b, k),
    ensures
        rtf::unescaped(label, b, i) == b.subrange(i, b.len() as int).map_values(|x: u8| x as char),
    decreases b.len() - i,
{
    if i < b.len() {
        plain_bytes_stand_for_themselves(label, b, i + 1);
        assert(!rtf::escape_at(b, i));
    }
    assert(rtf::unescaped(label, b, i) =~= b.subrange(i, b.len() as int).map_values(
        |x: u8| x as char,
    ));
}

/// A run of escapes is taken whole: it ends where no further escape begins, and has four bytes for
/// each byte that it gives.
pub proof fn runs_of_escapes_are_taken_whole(b: Seq<u8>, i: int)
    requires
        0 <= i <= b.len(),
    ensures
        i <= rtf::run_end(b, i) <= b.len(),
        !rtf::escape_at(b, rtf::run_end(b, i)),
        rtf::run_end(b, i) - i == 4 * rtf::run_bytes(b, i).len(),
    decreases b.len() - i,
{
    if rtf::escape_at(b, i) {
        runs_of_escapes_are_taken_whole(b, i + 4);
    }
}

/// Every escape of a run gives its byte.
pub proof fn every_escape_gives_its_byte(b: Seq<u8>, i: int, k: int)
    requires
        0 <= i <= b.len(),
        0 <= k < rtf::run_bytes(b, i).len(),
    ensures
        rtf::escape_at(b, i + 4 * k),
        rtf::run_bytes(b, i)[k] == rtf::escaped_byte(b[i + 4 * k + 2], b[i + 4 * k + 3]),
    decreases k,
{
    if k > 0 {
        every_escape_gives_its_byte(b, i + 4, k - 1);
        assert(i + 4 + 4 * (k - 1) == i + 4 * k);
        assert(rtf::run_bytes(b, i)[k] == rtf::run_bytes(b, i + 4)[k - 1]);
    }
}

/// Two hexadecimal digits, in either case, give their value.
pub proof fn hexadecimal_digits_give_their_value(x: u8, y: u8)
    requires
        x < 16,
        y < 16,
    ensures
        ({
            let low = |d: u8| if d < 10 { (48 + d) as u8 } else { (87 + d) as u8 };
            let high = |d: u8| if d < 10 { (48 + d) as u8 } else { (55 + d) as u8 };
            &&& rtf::escaped_byte(low(x), low(y)) == 16 * x + y
            &&& rtf::escaped_byte(high(x), high(y)) == 16 * x + y
        }),
{
}

} // verus!
