//! Office and FictionBook documents into sections, from their XML events.
use vstd::prelude::*;
use crate::rows;
use crate::sections;
use crate::sections::{Section, SectionV};
use crate::text;
use crate::xml;
use crate::xml::{Attribute, AttributeV, XmlEvent, XmlV};

verus! {

/// A tag has the given name.
pub open spec fn named(name: Seq<u8>, tag: Seq<char>) -> bool {
    text::latin(name) == tag
}

fn is_tag(name: &Vec<u8>, tag: &str) -> (r: bool)
    ensures
        r == named(name@, tag@),
{
    let n = text::latin_chars(name);
    let t = text::chars_of(tag);
    text::same_chars(&n, &t)
}

/// The value of the first readable attribute with a name, among the first `n`.
pub open spec fn attribute_value(
    attributes: Seq<Option<AttributeV>>,
    name: Seq<char>,
    n: nat,
) -> Option<Seq<u8>>
    decreases n,
{
    if n == 0 {
        None
    } else {
        match attribute_value(attributes, name, (n - 1) as nat) {
            Some(v) => Some(v),
            None => match attributes[n - 1] {
                Some(a) => if named(a.name, name) {
                    Some(a.value)
                } else {
                    None
                },
                None => None,
            },
        }
    }
}

fn find_attribute(attributes: &Vec<Option<Attribute>>, name: &str) -> (r: Option<Vec<char>>)
    ensures
        match attribute_value(
            xml::attributes_of(attributes@),
            name@,
            attributes@.len(),
        ) {
            Some(v) => r is Some && r->0@ == text::latin(v),
            None => r is None,
        },
{
    let ghost all = xml::attributes_of(attributes@);
    let mut found: Option<Vec<char>> = None;
    for i in 0..attributes.len()
        invariant
            all == xml::attributes_of(attributes@),
            match attribute_value(all, name@, i as nat) {
                Some(v) => found is Some && found->0@ == text::latin(v),
                None => found is None,
            },
    {
        assert(all[i as int] == (match attributes@[i as int] {
            Some(a) => Some(a@),
            None => None,
        }));
        if found.is_none() {
            if let Some(a) = &attributes[i] {
                if is_tag(&a.name, name) {
                    found = Some(text::latin_chars(&a.value));
                }
            }
        }
    }
    found
}

/// The text of a text event; nothing where it cannot be decoded.
pub open spec fn event_text(t: Option<Seq<char>>) -> Seq<char> {
    match t {
        Some(s) => s,
        None => Seq::empty(),
    }
}

fn text_of_event(t: &Option<String>) -> (r: String)
    ensures
        r@ == event_text(text::opt_text(*t)),
{
    match t {
        Some(s) => s.clone(),
        None => String::new(),
    }
}

/// A paragraph that is not a heading: a line of its own, unless it is blank.
pub open spec fn with_line(s: Seq<SectionV>, para: Seq<char>) -> Seq<SectionV> {
    let t = text::trim(para);
    if t.len() > 0 {
        sections::extended(s, t.push('\n'))
    } else {
        s
    }
}

/// A paragraph that is a heading, unless it is blank.
pub open spec fn with_heading(s: Seq<SectionV>, para: Seq<char>) -> Seq<SectionV> {
    let t = text::trim(para);
    if t.len() > 0 {
        sections::opened(s, t)
    } else {
        s
    }
}

fn add_line(out: &mut Vec<Section>, para: &str)
    requires
        old(out)@.len() > 0,
    ensures
        rows::vals(final(out)@) == with_line(rows::vals(old(out)@), para@),
        final(out)@.len() > 0,
{
    let mut t = text::trim_str(para);
    if !t.as_str().is_empty() {
        t.push('\n');
        sections::extend_last(out, t.as_str());
    }
}

fn add_heading(out: &mut Vec<Section>, para: &str)
    requires
        old(out)@.len() > 0,
    ensures
        rows::vals(final(out)@) == with_heading(rows::vals(old(out)@), para@),
        final(out)@.len() > 0,
{
    let t = text::trim_str(para);
    if !t.as_str().is_empty() {
        sections::open_section(out, t);
    }
}

/// A paragraph style that makes a heading of the first two levels, in any case, with or without
/// spaces.
pub open spec fn heading_style(style: Seq<char>) -> bool {
    let s = text::lower_ascii_all(rows::keep(style, |c: char| c != ' '));
    s == "heading1"@ || s == "heading2"@
}

fn is_heading_style(style: &[char]) -> (r: bool)
    ensures
        r == heading_style(style@),
{
    let ghost p = |c: char| c != ' ';
    let mut kept: Vec<char> = Vec::new();
    assert(kept@ =~= rows::keep(style@.take(0), p));
    for i in 0..style.len()
        invariant
            p == (|c: char| c != ' '),
            kept@ == rows::keep(style@.take(i as int), p),
    {
        proof {
            assert(style@.take(i as int + 1) =~= style@.take(i as int).push(style@[i as int]));
            rows::lemma_keep_push(style@.take(i as int), p, style@[i as int]);
        }
        if style[i] != ' ' {
            kept.push(style[i]);
        }
    }
    assert(style@.take(style@.len() as int) =~= style@);
    let low = text::string_of(&text::lower_ascii_chars(&kept));
    text::same_text(low.as_str(), "heading1") || text::same_text(low.as_str(), "heading2")
}

/// Reading a word-processor document: the sections so far, the open paragraph and whether it is a
/// heading.
#[verifier::ext_equal]
pub struct DocxV {
    pub sections: Seq<SectionV>,
    pub para: Seq<char>,
    pub heading: bool,
}

/// One event of a word-processor document.
pub open spec fn docx_step(st: DocxV, e: XmlV) -> DocxV {
    match e {
        XmlV::Start { name, attributes } => if named(name, "p"@) {
            DocxV { para: Seq::empty(), heading: false, ..st }
        } else {
            st
        },
        XmlV::Empty { name, attributes } => if named(name, "pStyle"@) {
            DocxV {
                heading: match attribute_value(attributes, "val"@, attributes.len()) {
                    Some(v) => heading_style(text::latin(v)),
                    None => false,
                },
                ..st
            }
        } else {
            st
        },
        XmlV::Text(t) => DocxV { para: st.para + event_text(t), ..st },
        XmlV::End { name } => if named(name, "p"@) {
            DocxV {
                sections: if st.heading {
                    with_heading(st.sections, st.para)
                } else {
                    with_line(st.sections, st.para)
                },
                ..st
            }
        } else {
            st
        },
        _ => st,
    }
}

/// A word-processor document after some events.
pub open spec fn docx_run(events: Seq<XmlV>) -> DocxV
    decreases events.len(),
{
    if events.len() == 0 {
        DocxV { sections: seq![sections::opening()], para: Seq::empty(), heading: false }
    } else {
        docx_step(docx_run(events.drop_last()), events.last())
    }
}

/// Why a document whose events end in a break cannot be read.
pub open spec fn broken(events: Seq<XmlV>) -> Option<Seq<char>> {
    if events.len() > 0 {
        match events.last() {
            XmlV::Broken(m) => Some(m),
            _ => None,
        }
    } else {
        None
    }
}

fn break_of(events: &Vec<XmlEvent>) -> (r: Option<String>)
    ensures
        text::opt_text(r) == broken(rows::vals(events@)),
{
    if events.len() == 0 {
        return None;
    }
    assert(rows::vals(events@).last() == events@[events@.len() - 1]@);
    match &events[events.len() - 1] {
        XmlEvent::Broken(m) => Some(m.clone()),
        _ => None,
    }
}

/// `word/document.xml`: paragraphs of runs; a paragraph in the style of the first two heading levels
/// opens a section.
pub fn docx_sections(events: &Vec<XmlEvent>) -> (r: Result<Vec<Section>, String>)
    ensures
        match broken(rows::vals(events@)) {
            Some(m) => r is Err && r->Err_0@ == "docx: "@ + m,
            None => r is Ok && rows::vals(r->Ok_0@) == docx_run(rows::vals(events@)).sections,
        },
{
    if let Some(m) = break_of(events) {
        let mut e = "docx: ".to_owned();
        e.append(m.as_str());
        return Err(e);
    }
    let ghost all = rows::vals(events@);
    let mut out = sections::start_sections();
    let mut para = String::new();
    let mut heading = false;
    for i in 0..events.len()
        invariant
            all == rows::vals(events@),
            out@.len() > 0,
            (DocxV { sections: rows::vals(out@), para: para@, heading }) == docx_run(
                all.take(i as int),
            ),
    {
        proof {
            assert(all[i as int] == events@[i as int]@);
            assert(all.take(i as int + 1).drop_last() =~= all.take(i as int));
            assert(all.take(i as int + 1).last() == all[i as int]);
        }
        match &events[i] {
            XmlEvent::Start { name, attributes } => {
                if is_tag(name, "p") {
                    para = String::new();
                    heading = false;
                }
            },
            XmlEvent::Empty { name, attributes } => {
                if is_tag(name, "pStyle") {
                    heading = match find_attribute(attributes, "val") {
                        Some(v) => is_heading_style(&v),
                        None => false,
                    };
                }
            },
            XmlEvent::Text(t) => {
                para.append(text_of_event(t).as_str());
            },
            XmlEvent::End { name } => {
                if is_tag(name, "p") {
                    if heading {
                        add_heading(&mut out, para.as_str());
                    } else {
                        add_line(&mut out, para.as_str());
                    }
                }
            },
            _ => {},
        }
    }
    assert(all.take(all.len() as int) =~= all);
    Ok(out)
}

/// Reading an OpenDocument text: the sections so far, the text of the open heading or paragraph, the
/// level of the open heading and whether a paragraph is open.
#[verifier::ext_equal]
pub struct OdtV {
    pub sections: Seq<SectionV>,
    pub text: Seq<char>,
    pub level: Option<nat>,
    pub in_para: bool,
}

/// The outline level a heading declares; the first where it declares none.
pub open spec fn outline_level(attributes: Seq<Option<AttributeV>>) -> nat {
    match attribute_value(attributes, "outline-level"@, attributes.len()) {
        Some(v) => match text::number_of(text::latin(v)) {
            Some(n) => if n <= 255 {
                n
            } else {
                1
            },
            None => 1,
        },
        None => 1,
    }
}

/// One event of an OpenDocument text.
pub open spec fn odt_step(st: OdtV, e: XmlV) -> OdtV {
    match e {
        XmlV::Start { name, attributes } => if named(name, "h"@) {
            OdtV { level: Some(outline_level(attributes)), text: Seq::empty(), ..st }
        } else if named(name, "p"@) {
            OdtV { in_para: true, text: Seq::empty(), ..st }
        } else {
            st
        },
        XmlV::Text(t) => if st.level is Some || st.in_para {
            OdtV { text: st.text + event_text(t), ..st }
        } else {
            st
        },
        XmlV::End { name } => if named(name, "h"@) {
            let level = match st.level {
                Some(n) => n,
                None => 1,
            };
            OdtV {
                level: None,
                sections: if level <= 2 {
                    with_heading(st.sections, st.text)
                } else {
                    with_line(st.sections, st.text)
                },
                ..st
            }
        } else if named(name, "p"@) && st.in_para {
            OdtV { in_para: false, sections: with_line(st.sections, st.text), ..st }
        } else {
            st
        },
        _ => st,
    }
}

/// An OpenDocument text after some events.
pub open spec fn odt_run(events: Seq<XmlV>) -> OdtV
    decreases events.len(),
{
    if events.len() == 0 {
        OdtV {
            sections: seq![sections::opening()],
            text: Seq::empty(),
            level: None,
            in_para: false,
        }
    } else {
        odt_step(odt_run(events.drop_last()), events.last())
    }
}

fn level_of(attributes: &Vec<Option<Attribute>>) -> (r: u32)
    ensures
        r == outline_level(xml::attributes_of(attributes@)),
{
    match find_attribute(attributes, "outline-level") {
        Some(v) => match text::parse_number(&v, 255) {
            Some(n) => n as u32,
            None => 1,
        },
        None => 1,
    }
}

/// `content.xml`: headings of outline levels one and two open sections; paragraphs fill them.
pub fn odt_sections(events: &Vec<XmlEvent>) -> (r: Result<Vec<Section>, String>)
    ensures
        match broken(rows::vals(events@)) {
            Some(m) => r is Err && r->Err_0@ == "odt: "@ + m,
            None => r is Ok && rows::vals(r->Ok_0@) == odt_run(rows::vals(events@)).sections,
        },
{
    if let Some(m) = break_of(events) {
        let mut e = "odt: ".to_owned();
        e.append(m.as_str());
        return Err(e);
    }
    let ghost all = rows::vals(events@);
    let mut out = sections::start_sections();
    let mut cur = String::new();
    let mut level: Option<u32> = None;
    let mut in_para = false;
    for i in 0..events.len()
        invariant
            all == rows::vals(events@),
            out@.len() > 0,
            (OdtV {
                sections: rows::vals(out@),
                text: cur@,
                level: match level {
                    Some(n) => Some(n as nat),
                    None => None,
                },
                in_para,
            }) == odt_run(all.take(i as int)),
    {
        proof {
            assert(all[i as int] == events@[i as int]@);
            assert(all.take(i as int + 1).drop_last() =~= all.take(i as int));
            assert(all.take(i as int + 1).last() == all[i as int]);
        }
        match &events[i] {
            XmlEvent::Start { name, attributes } => {
                if is_tag(name, "h") {
                    level = Some(level_of(attributes));
                    cur = String::new();
                } else if is_tag(name, "p") {
                    in_para = true;
                    cur = String::new();
                }
            },
            XmlEvent::Text(t) => {
                if level.is_some() || in_para {
                    cur.append(text_of_event(t).as_str());
                }
            },
            XmlEvent::End { name } => {
                if is_tag(name, "h") {
                    let n: u32 = match level {
                        Some(n) => n,
                        None => 1,
                    };
                    level = None;
                    if n <= 2 {
                        add_heading(&mut out, cur.as_str());
                    } else {
                        add_line(&mut out, cur.as_str());
                    }
                } else if is_tag(name, "p") && in_para {
                    in_para = false;
                    add_line(&mut out, cur.as_str());
                }
            },
            _ => {},
        }
    }
    assert(all.take(all.len() as int) =~= all);
    Ok(out)
}

/// Reading a FictionBook: the sections so far, how deep the open section lies, which tags are open,
/// and the title, authors and book title so far.
#[verifier::ext_equal]
pub struct Fb2V {
    pub sections: Seq<SectionV>,
    pub depth: nat,
    pub in_title: bool,
    pub in_info: bool,
    pub in_author: bool,
    pub in_book_title: bool,
    pub title: Seq<char>,
    pub authors: Seq<Seq<char>>,
    pub book_title: Option<Seq<char>>,
}

/// The sections with one to write to, where there is none yet.
pub open spec fn ensured(s: Seq<SectionV>) -> Seq<SectionV> {
    if s.len() == 0 {
        seq![sections::opening()]
    } else {
        s
    }
}

/// The label of a title: its words.
pub open spec fn label_of(title: Seq<char>) -> Seq<char> {
    text::join(text::words(title), " "@)
}

/// An opening tag of a FictionBook.
pub open spec fn fb2_start(st: Fb2V, name: Seq<u8>) -> Fb2V {
    if named(name, "section"@) {
        Fb2V { depth: st.depth + 1, ..st }
    } else if named(name, "title"@) && st.depth > 0 {
        Fb2V { in_title: true, title: Seq::empty(), ..st }
    } else if named(name, "title-info"@) {
        Fb2V { in_info: true, ..st }
    } else if named(name, "author"@) && st.in_info {
        Fb2V { in_author: true, ..st }
    } else if named(name, "book-title"@) && st.in_info {
        Fb2V { in_book_title: true, ..st }
    } else {
        st
    }
}

/// A closing tag of a FictionBook. Only titles of the first two section levels open sections.
pub open spec fn fb2_end(st: Fb2V, name: Seq<u8>) -> Fb2V {
    if named(name, "section"@) {
        Fb2V {
            depth: if st.depth > 0 {
                (st.depth - 1) as nat
            } else {
                0
            },
            ..st
        }
    } else if named(name, "title"@) && st.in_title {
        let label = label_of(st.title);
        Fb2V {
            in_title: false,
            sections: if label.len() == 0 {
                st.sections
            } else if st.depth <= 2 {
                sections::opened(st.sections, label)
            } else {
                sections::extended(ensured(st.sections), label.push('\n'))
            },
            ..st
        }
    } else if named(name, "title-info"@) {
        Fb2V { in_info: false, ..st }
    } else if named(name, "author"@) {
        Fb2V { in_author: false, ..st }
    } else if named(name, "book-title"@) {
        Fb2V { in_book_title: false, ..st }
    } else if named(name, "p"@) || named(name, "v"@) || named(name, "subtitle"@) {
        Fb2V { sections: sections::extended(ensured(st.sections), seq!['\n']), ..st }
    } else {
        st
    }
}

/// Text of a FictionBook: it goes to the innermost of what is open.
pub open spec fn fb2_text(st: Fb2V, t: Seq<char>) -> Fb2V {
    let txt = text::trim(t);
    if txt.len() == 0 {
        st
    } else if st.in_title {
        Fb2V { title: st.title + txt + seq![' '], ..st }
    } else if st.in_book_title {
        Fb2V { book_title: Some(txt), ..st }
    } else if st.in_author {
        Fb2V { authors: st.authors.push(txt), ..st }
    } else if st.depth > 0 {
        Fb2V { sections: sections::extended(ensured(st.sections), txt + seq![' ']), ..st }
    } else {
        st
    }
}

/// One event of a FictionBook.
pub open spec fn fb2_step(st: Fb2V, e: XmlV) -> Fb2V {
    match e {
        XmlV::Start { name, attributes } => fb2_start(st, name),
        XmlV::End { name } => fb2_end(st, name),
        XmlV::Text(t) => fb2_text(st, event_text(t)),
        _ => st,
    }
}

/// A FictionBook after some events.
pub open spec fn fb2_run(events: Seq<XmlV>) -> Fb2V
    decreases events.len(),
{
    if events.len() == 0 {
        Fb2V {
            sections: Seq::empty(),
            depth: 0,
            in_title: false,
            in_info: false,
            in_author: false,
            in_book_title: false,
            title: Seq::empty(),
            authors: Seq::empty(),
            book_title: None,
        }
    } else {
        fb2_step(fb2_run(events.drop_last()), events.last())
    }
}

/// The author line: the names in order, if there are any.
pub open spec fn author_line(authors: Seq<Seq<char>>) -> Option<Seq<char>> {
    if authors.len() == 0 {
        None
    } else {
        Some(text::join(authors, " "@))
    }
}

/// What a FictionBook holds: its sections, its author and its title.
#[derive(Debug)]
pub struct Fb2Parts {
    pub sections: Vec<Section>,
    pub author: Option<String>,
    pub title: Option<String>,
}

/// A FictionBook being read.
struct Fb2 {
    sections: Vec<Section>,
    depth: usize,
    in_title: bool,
    in_info: bool,
    in_author: bool,
    in_book_title: bool,
    title: String,
    authors: Vec<String>,
    book_title: Option<String>,
}

impl View for Fb2 {
    type V = Fb2V;

    closed spec fn view(&self) -> Fb2V {
        Fb2V {
            sections: rows::vals(self.sections@),
            depth: self.depth as nat,
            in_title: self.in_title,
            in_info: self.in_info,
            in_author: self.in_author,
            in_book_title: self.in_book_title,
            title: self.title@,
            authors: text::texts(self.authors@),
            book_title: text::opt_text(self.book_title),
        }
    }
}

fn ensure_section(v: &mut Vec<Section>)
    ensures
        rows::vals(final(v)@) == ensured(rows::vals(old(v)@)),
        final(v)@.len() > 0,
{
    if v.len() == 0 {
        let s = Section { heading: None, body: String::new() };
        v.push(s);
        assert(rows::vals(v@) =~= seq![sections::opening()]);
    }
}

impl Fb2 {
    fn on_start(&mut self, name: &Vec<u8>)
        requires
            old(self).depth < usize::MAX,
        ensures
            final(self)@ == fb2_start(old(self)@, name@),
            final(self).depth <= old(self).depth + 1,
    {
        if is_tag(name, "section") {
            self.depth = self.depth + 1;
        } else if is_tag(name, "title") && self.depth > 0 {
            self.in_title = true;
            self.title = String::new();
        } else if is_tag(name, "title-info") {
            self.in_info = true;
        } else if is_tag(name, "author") && self.in_info {
            self.in_author = true;
        } else if is_tag(name, "book-title") && self.in_info {
            self.in_book_title = true;
        }
    }

    fn on_end(&mut self, name: &Vec<u8>)
        ensures
            final(self)@ == fb2_end(old(self)@, name@),
            final(self).depth <= old(self).depth,
    {
        if is_tag(name, "section") {
            if self.depth > 0 {
                self.depth = self.depth - 1;
            }
        } else if is_tag(name, "title") && self.in_title {
            self.in_title = false;
            let words = text::words_of(&text::chars_of(self.title.as_str()));
            let mut label = text::join_strs(&words, " ");
            if !label.as_str().is_empty() {
                if self.depth <= 2 {
                    sections::open_section(&mut self.sections, label);
                } else {
                    ensure_section(&mut self.sections);
                    label.push('\n');
                    sections::extend_last(&mut self.sections, label.as_str());
                }
            }
        } else if is_tag(name, "title-info") {
            self.in_info = false;
        } else if is_tag(name, "author") {
            self.in_author = false;
        } else if is_tag(name, "book-title") {
            self.in_book_title = false;
        } else if is_tag(name, "p") || is_tag(name, "v") || is_tag(name, "subtitle") {
            proof {
                reveal_strlit("\n");
                assert("\n"@ =~= seq!['\n']);
            }
            ensure_section(&mut self.sections);
            sections::extend_last(&mut self.sections, "\n");
        }
    }

    fn on_text(&mut self, t: &str)
        ensures
            final(self)@ == fb2_text(old(self)@, t@),
            final(self).depth == old(self).depth,
    {
        let mut txt = text::trim_str(t);
        if txt.as_str().is_empty() {
        } else if self.in_title {
            let ghost before = self.title@;
            self.title.append(txt.as_str());
            self.title.push(' ');
            assert(self.title@ =~= before + txt@ + seq![' ']);
        } else if self.in_book_title {
            self.book_title = Some(txt);
        } else if self.in_author {
            proof {
                text::lemma_texts_push(self.authors@, txt);
            }
            self.authors.push(txt);
        } else if self.depth > 0 {
            let ghost raw = txt@;
            txt.push(' ');
            assert(txt@ =~= raw + seq![' ']);
            ensure_section(&mut self.sections);
            sections::extend_last(&mut self.sections, txt.as_str());
        }
    }
}

/// Reads a FictionBook from its events: its sections, its author and its title.
pub fn parse_fb2(events: &Vec<XmlEvent>) -> (r: Result<Fb2Parts, String>)
    ensures
        match broken(rows::vals(events@)) {
            Some(m) => r is Err && r->Err_0@ == "fb2: "@ + m,
            None => {
                let st = fb2_run(rows::vals(events@));
                &&& r is Ok
                &&& rows::vals(r->Ok_0.sections@) == st.sections
                &&& text::opt_text(r->Ok_0.author) == author_line(st.authors)
                &&& text::opt_text(r->Ok_0.title) == st.book_title
            },
        },
{
    if let Some(m) = break_of(events) {
        let mut e = "fb2: ".to_owned();
        e.append(m.as_str());
        return Err(e);
    }
    let ghost all = rows::vals(events@);
    let mut st = Fb2 {
        sections: Vec::new(),
        depth: 0,
        in_title: false,
        in_info: false,
        in_author: false,
        in_book_title: false,
        title: String::new(),
        authors: Vec::new(),
        book_title: None,
    };
    assert(rows::vals(st.sections@) =~= Seq::empty());
    assert(text::texts(st.authors@) =~= Seq::empty());
    assert(st@ =~= fb2_run(all.take(0)));
    for i in 0..events.len()
        invariant
            all == rows::vals(events@),
            st@ == fb2_run(all.take(i as int)),
            st.depth <= i,
    {
        proof {
            assert(all[i as int] == events@[i as int]@);
            assert(all.take(i as int + 1).drop_last() =~= all.take(i as int));
            assert(all.take(i as int + 1).last() == all[i as int]);
        }
        match &events[i] {
            XmlEvent::Start { name, attributes } => {
                st.on_start(name);
            },
            XmlEvent::End { name } => {
                st.on_end(name);
            },
            XmlEvent::Text(t) => {
                let s = text_of_event(t);
                st.on_text(s.as_str());
            },
            _ => {},
        }
    }
    assert(all.take(all.len() as int) =~= all);
    let author = if st.authors.len() == 0 {
        None
    } else {
        Some(text::join_strs(&st.authors, " "))
    };
    assert(text::texts(st.authors@).len() == st.authors@.len());
    Ok(Fb2Parts { sections: st.sections, author, title: st.book_title })
}

} // verus!
