//! Ebooks: EPUB from its table of contents and spine, FictionBook from its XML, Mobipocket from
//! its HTML. Only the two top levels of a table of contents name chapters.
use vstd::prelude::*;
use crate::book::{BookDoc, BookDocV};
use crate::extract;
use crate::extract::{ErrorV, ExtractError, ReadFault};
use crate::formats;
use crate::formats::Format;
use crate::ids;
use crate::markup;
use crate::render;
use crate::rows;
use crate::sections;
use crate::sections::{Section, SectionV};
use crate::text;
use crate::types;
use crate::xml;

verus! {

// ---- epub ------------------------------------------------------------------------------------

/// A point of a table of contents, in reading order: its depth, its label and the document it
/// points into, if there is one.
#[derive(Debug)]
pub struct TocPoint {
    pub depth: usize,
    pub label: String,
    pub href: Option<String>,
}

/// What a [`TocPoint`] holds.
#[verifier::ext_equal]
pub struct TocV {
    pub depth: usize,
    pub label: Seq<char>,
    pub href: Option<Seq<char>>,
}

impl View for TocPoint {
    type V = TocV;

    open spec fn view(&self) -> TocV {
        TocV { depth: self.depth, label: self.label@, href: text::opt_text(self.href) }
    }
}

/// An item of a spine: its document, if it has one, and what could be read from it.
#[derive(Debug)]
pub struct SpineItem {
    pub href: Option<String>,
    pub content: Option<String>,
}

/// What a [`SpineItem`] holds.
#[verifier::ext_equal]
pub struct SpineV {
    pub href: Option<Seq<char>>,
    pub content: Option<Seq<char>>,
}

impl View for SpineItem {
    type V = SpineV;

    open spec fn view(&self) -> SpineV {
        SpineV { href: text::opt_text(self.href), content: text::opt_text(self.content) }
    }
}

/// What is read of an EPUB.
#[derive(Debug)]
pub struct EpubParts {
    pub toc: Vec<TocPoint>,
    pub spine: Vec<SpineItem>,
    pub creator: Option<String>,
    pub title: Option<String>,
}

/// A reference without its fragment.
pub open spec fn without_fragment(href: Seq<char>) -> Seq<char> {
    href.take(text::until(href, text::is_char('#')) as int)
}

/// A reference without its fragment.
pub fn strip_fragment(href: &str) -> (r: String)
    ensures
        r@ == without_fragment(href@),
{
    let v = text::chars_of(href);
    let mut i: usize = 0;
    while i < v.len() && v[i] != '#'
        invariant
            i <= v@.len(),
            forall|k: int| 0 <= k < i ==> v@[k] != '#',
        decreases v@.len() - i,
    {
        i = i + 1;
    }
    proof {
        text::lemma_until(v@, text::is_char('#'), i as int);
    }
    text::string_of(vstd::slice::slice_subrange(v.as_slice(), 0, i))
}

/// A point that names the chapter of a document: one of the two top levels, with a label.
pub open spec fn names(href: Seq<char>) -> spec_fn(TocV) -> bool {
    |p: TocV|
        p.depth <= 2 && text::trim(p.label).len() > 0 && p.href is Some && without_fragment(p.href->0)
            == href
}

/// The chapter that a table of contents names for a document: that of the first such point.
pub open spec fn chapter_of(toc: Seq<TocV>, href: Seq<char>) -> Option<Seq<char>> {
    match rows::find_row(toc, names(href)) {
        Some(p) => Some(text::trim(p.label)),
        None => None,
    }
}

/// The chapter in force after some items of a spine: that of the last item that has one.
pub open spec fn chapter_after(toc: Seq<TocV>, spine: Seq<SpineV>) -> Option<Seq<char>>
    decreases spine.len(),
{
    if spine.len() == 0 {
        None
    } else {
        let before = chapter_after(toc, spine.drop_last());
        match spine.last().href {
            Some(h) => match chapter_of(toc, without_fragment(h)) {
                Some(c) => Some(c),
                None => before,
            },
            None => before,
        }
    }
}

/// The sections of a spine whose items hold plain text: one for each item with text, under the
/// chapter in force.
pub open spec fn spine_sections(toc: Seq<TocV>, spine: Seq<SpineV>) -> Seq<SectionV>
    decreases spine.len(),
{
    if spine.len() == 0 {
        Seq::empty()
    } else {
        let before = spine_sections(toc, spine.drop_last());
        let item = spine.last();
        if item.href is Some && item.content is Some && text::trim(item.content->0).len() > 0 {
            before.push(
                SectionV { heading: chapter_after(toc, spine), body: text::trim(item.content->0) },
            )
        } else {
            before
        }
    }
}

/// The spine with its documents as plain text.
pub open spec fn rendered(spine: Seq<SpineV>) -> Seq<SpineV> {
    Seq::new(
        spine.len(),
        |i: int|
            SpineV {
                href: spine[i].href,
                content: match spine[i].content {
                    Some(c) => Some(render::html_text(c)),
                    None => None,
                },
            },
    )
}

fn chapter_at(toc: &Vec<TocPoint>, href: &str) -> (r: Option<String>)
    ensures
        text::opt_text(r) == chapter_of(rows::vals(toc@), href@),
{
    let found: Option<usize> = rows::find_where(
        toc,
        |p: &TocPoint| -> (b: bool)
            ensures
                b == names(href@)(p@)
            {
                p.depth <= 2 && text::trim_str(p.label.as_str()).unicode_len() > 0 && (match &p.href {
                    Some(h) => text::same_text(strip_fragment(h.as_str()).as_str(), href),
                    None => false,
                })
            },
        Ghost(names(href@)),
    );
    match found {
        Some(i) => Some(text::trim_str(toc[i].label.as_str())),
        None => None,
    }
}

/// The sections of a spine whose items hold plain text.
pub fn sections_of_spine(toc: &Vec<TocPoint>, spine: &Vec<SpineItem>) -> (r: Vec<Section>)
    ensures
        rows::vals(r@) == spine_sections(rows::vals(toc@), rows::vals(spine@)),
{
    let ghost t = rows::vals(toc@);
    let ghost all = rows::vals(spine@);
    let mut out: Vec<Section> = Vec::new();
    let mut current: Option<String> = None;
    assert(rows::vals(out@) =~= spine_sections(t, all.take(0)));
    for i in 0..spine.len()
        invariant
            t == rows::vals(toc@),
            all == rows::vals(spine@),
            text::opt_text(current) == chapter_after(t, all.take(i as int)),
            rows::vals(out@) == spine_sections(t, all.take(i as int)),
    {
        let item = &spine[i];
        proof {
            assert(all.take(i + 1).drop_last() =~= all.take(i as int));
            assert(all.take(i + 1).last() == item@);
        }
        if let Some(h) = &item.href {
            if let Some(c) = chapter_at(toc, strip_fragment(h.as_str()).as_str()) {
                current = Some(c);
            }
            if let Some(c) = &item.content {
                let body = text::trim_str(c.as_str());
                if body.as_str().unicode_len() > 0 {
                    let s = Section { heading: types::copy_opt(&current), body };
                    proof {
                        rows::lemma_vals_push(out@, s);
                    }
                    out.push(s);
                }
            }
        }
    }
    assert(all.take(all.len() as int) =~= all);
    out
}

fn render_spine(spine: &Vec<SpineItem>) -> (r: Vec<SpineItem>)
    ensures
        rows::vals(r@) == rendered(rows::vals(spine@)),
{
    let ghost all = rows::vals(spine@);
    let mut out: Vec<SpineItem> = Vec::new();
    for i in 0..spine.len()
        invariant
            all == rows::vals(spine@),
            out@.len() == i,
            forall|k: int| 0 <= k < i ==> (#[trigger] out@[k])@ == rendered(all)[k],
    {
        let item = &spine[i];
        assert(all[i as int] == item@);
        let content = match &item.content {
            Some(c) => Some(render::html_to_text(c.as_str())),
            None => None,
        };
        out.push(SpineItem { href: types::copy_opt(&item.href), content });
    }
    assert(rows::vals(out@) =~= rendered(all));
    out
}

/// A trimmed name, if anything is left of it.
pub open spec fn proper_name(name: Option<Seq<char>>) -> Option<Seq<char>> {
    match name {
        Some(n) => if text::trim(n).len() > 0 {
            Some(text::trim(n))
        } else {
            None
        },
        None => None,
    }
}

/// A name, or another where there is none.
pub open spec fn name_or(name: Option<Seq<char>>, other: Seq<char>) -> Seq<char> {
    match name {
        Some(n) => n,
        None => other,
    }
}

fn name_of(name: &Option<String>) -> (r: Option<String>)
    ensures
        text::opt_text(r) == proper_name(text::opt_text(*name)),
{
    match name {
        Some(n) => {
            let t = text::trim_str(n.as_str());
            if t.as_str().unicode_len() > 0 {
                Some(t)
            } else {
                None
            }
        },
        None => None,
    }
}

/// A book with its own title and author.
pub open spec fn named_book(
    path: Seq<char>,
    format: Format,
    title: Option<Seq<char>>,
    author: Option<Seq<char>>,
    s: Seq<SectionV>,
) -> BookDocV {
    BookDocV {
        title: name_or(title, ids::title_of(path)),
        author,
        ..extract::plain_book(path, format, sections::book_blocks(s, false))
    }
}

/// Makes a book with its own title and author; a book without a title is named for its file.
pub fn doc_with_names(
    path: &str,
    format: Format,
    title: Option<String>,
    author: Option<String>,
    sections: Vec<Section>,
) -> (r: BookDoc)
    ensures
        r@ == named_book(
            path@,
            format,
            text::opt_text(title),
            text::opt_text(author),
            rows::vals(sections@),
        ),
{
    let plain = extract::doc_from_sections(path, format, sections);
    let title = match title {
        Some(t) => t,
        None => plain.title,
    };
    BookDoc {
        book_id: plain.book_id,
        title,
        author,
        source_path: plain.source_path,
        format: plain.format,
        blocks: plain.blocks,
    }
}

/// What an EPUB gives.
pub open spec fn epub_book(path: Seq<char>, parts: EpubParts) -> BookDocV {
    named_book(
        path,
        Format::Epub,
        proper_name(text::opt_text(parts.title)),
        proper_name(text::opt_text(parts.creator)),
        spine_sections(rows::vals(parts.toc@), rendered(rows::vals(parts.spine@))),
    )
}

/// One section per item of the spine; a chapter carries forward until the next item that the table
/// of contents names, and what stands before the first has none.
pub fn extract_epub(path: &str, parts: &EpubParts) -> (r: BookDoc)
    ensures
        r@ == epub_book(path@, *parts),
{
    let spine = render_spine(&parts.spine);
    let sections = sections_of_spine(&parts.toc, &spine);
    doc_with_names(path, Format::Epub, name_of(&parts.title), name_of(&parts.creator), sections)
}

// ---- fb2 -------------------------------------------------------------------------------------

/// The entry of an archive to read: the first whose name ends so, in any case. An entry whose name
/// cannot be read is `None`.
pub open spec fn entry_index(names: Seq<Option<Seq<char>>>, suffix: Seq<char>) -> Option<int> {
    rows::first_where(names, ends_so(suffix))
}

/// The name ends so, in any case.
pub open spec fn ends_so(suffix: Seq<char>) -> spec_fn(Option<Seq<char>>) -> bool {
    |n: Option<Seq<char>>| n is Some && text::ends(text::lower_ascii_all(n->0), suffix)
}

/// The names of the entries, by their values.
pub open spec fn entry_names(names: Seq<Option<String>>) -> Seq<Option<Seq<char>>> {
    Seq::new(names.len(), |i: int| text::opt_text(names[i]))
}

/// Finds the entry of an archive to read.
pub fn find_entry(names: &Vec<Option<String>>, suffix: &str) -> (r: Option<usize>)
    ensures
        match r {
            Some(i) => i < names@.len() && entry_index(entry_names(names@), suffix@) == Some(i as int),
            None => entry_index(entry_names(names@), suffix@) is None,
        },
{
    let s = text::chars_of(suffix);
    let ghost all = entry_names(names@);
    for i in 0..names.len()
        invariant
            s@ == suffix@,
            all == entry_names(names@),
            forall|k: int| 0 <= k < i ==> !ends_so(suffix@)(#[trigger] all[k]),
    {
        assert(all[i as int] == text::opt_text(names@[i as int]));
        let hit = match &names[i] {
            Some(n) => text::ends_with(
                &text::lower_ascii_chars(&text::chars_of(n.as_str())),
                &s,
            ),
            None => false,
        };
        if hit {
            proof {
                rows::lemma_first_where_is(all, ends_so(suffix@), i as int);
            }
            return Some(i);
        }
    }
    proof {
        rows::lemma_first_where_none(all, ends_so(suffix@));
    }
    None
}

/// The entry of a zipped FictionBook: the first `.fb2`, or else the first entry.
pub open spec fn fb2_entry_index(names: Seq<Option<Seq<char>>>) -> int {
    match entry_index(names, ".fb2"@) {
        Some(i) => i,
        None => 0,
    }
}

/// The entry of a zipped FictionBook.
pub fn fb2_entry(names: &Vec<Option<String>>) -> (r: usize)
    ensures
        r == fb2_entry_index(entry_names(names@)),
{
    match find_entry(names, ".fb2") {
        Some(i) => i,
        None => 0,
    }
}

/// What a FictionBook gives.
pub open spec fn fb2_outcome(path: Seq<char>, read: Result<Vec<u8>, ReadFault>) -> Result<
    BookDocV,
    ErrorV,
> {
    match read {
        Err(f) => Err(extract::fault_error(f, "fb2.zip"@, "fb2.zip"@)),
        Ok(bytes) => {
            let events = xml::xml_events(bytes@, true);
            match markup::broken(events) {
                Some(m) => Err(ErrorV::Parse("fb2: "@ + m)),
                None => {
                    let st = markup::fb2_run(events);
                    Ok(
                        named_book(
                            path,
                            Format::Fb2,
                            st.book_title,
                            markup::author_line(st.authors),
                            st.sections,
                        ),
                    )
                },
            }
        },
    }
}

/// Extracts a FictionBook.
pub fn extract_fb2(path: &str, read: Result<Vec<u8>, ReadFault>) -> (r: Result<
    BookDoc,
    ExtractError,
>)
    ensures
        extract::outcome(r) == fb2_outcome(path@, read),
{
    match read {
        Err(f) => Err(extract::error_of_fault(f, "fb2.zip", "fb2.zip")),
        Ok(bytes) => {
            let events = xml::read_events(bytes.as_slice(), true);
            match markup::parse_fb2(&events) {
                Err(e) => Err(ExtractError::Parse(e)),
                Ok(p) => Ok(doc_with_names(path, Format::Fb2, p.title, p.author, p.sections)),
            }
        },
    }
}

// ---- mobi ------------------------------------------------------------------------------------

/// What is read of a Mobipocket book.
#[derive(Debug)]
pub enum MobiReading {
    /// The file cannot be parsed.
    Broken(String),
    /// The book is protected.
    Protected,
    /// The book is open: its HTML, or why that cannot be had, its author and its title.
    Open(Result<String, String>, String, String),
}

/// How the reason for a Mobipocket book that cannot be parsed begins.
pub const MOBI_FAILED: &'static str = "mobi parse failed — handled by Fast (GPU) indexing where available (";

/// The reason for a protected book.
pub const MOBI_PROTECTED: &'static str = "DRM-protected — cannot index";

/// What an open book gives once its HTML is plain text.
pub open spec fn mobi_book(
    path: Seq<char>,
    body: Seq<char>,
    author: Seq<char>,
    title: Seq<char>,
) -> BookDocV {
    named_book(
        path,
        Format::Mobi,
        proper_name(Some(title)),
        proper_name(Some(author)),
        extract::only_section(text::trim(body)),
    )
}

/// What a Mobipocket book gives.
pub open spec fn mobi_outcome(path: Seq<char>, m: MobiReading) -> Result<BookDocV, ErrorV> {
    match m {
        MobiReading::Broken(e) => Err(ErrorV::Parse(MOBI_FAILED@ + e@ + ")"@)),
        MobiReading::Protected => Err(ErrorV::Parse(MOBI_PROTECTED@)),
        MobiReading::Open(Err(e), _, _) => Err(ErrorV::Parse(MOBI_FAILED@ + e@ + ")"@)),
        MobiReading::Open(Ok(source), author, title) => Ok(
            mobi_book(path, render::html_text(source@), author@, title@),
        ),
    }
}

fn mobi_failure(e: &str) -> (r: ExtractError)
    ensures
        r@ == ErrorV::Parse(MOBI_FAILED@ + e@ + ")"@),
{
    ExtractError::Parse(extract::concat(extract::concat(MOBI_FAILED, e).as_str(), ")"))
}

/// Makes the book of a Mobipocket file from its plain text. It has no chapters.
pub fn doc_of_mobi(path: &str, body: &str, author: String, title: String) -> (r: BookDoc)
    ensures
        r@ == mobi_book(path@, body@, author@, title@),
{
    let sections = extract::one_section(text::trim_str(body));
    let title = name_of(&Some(title));
    let author = name_of(&Some(author));
    doc_with_names(path, Format::Mobi, title, author, sections)
}

/// Extracts a Mobipocket book.
pub fn extract_mobi(path: &str, m: MobiReading) -> (r: Result<BookDoc, ExtractError>)
    ensures
        extract::outcome(r) == mobi_outcome(path@, m),
{
    match m {
        MobiReading::Broken(e) => Err(mobi_failure(e.as_str())),
        MobiReading::Protected => Err(ExtractError::Parse(MOBI_PROTECTED.to_owned())),
        MobiReading::Open(Err(e), _, _) => Err(mobi_failure(e.as_str())),
        MobiReading::Open(Ok(source), author, title) => {
            let body = render::html_to_text(source.as_str());
            Ok(doc_of_mobi(path, body.as_str(), author, title))
        },
    }
}

// ---- family ----------------------------------------------------------------------------------

/// Why the built-in engine leaves files with an extension to the GPU helper, if it does.
pub open spec fn directed_skip(ext: Seq<char>) -> Option<Seq<char>> {
    if ext == "xps"@ {
        Some("xps: handled by Fast (GPU) indexing where available"@)
    } else {
        None
    }
}

/// Why the built-in engine leaves files with an extension to the GPU helper, if it does.
pub fn cpu_directed_skip(ext: &str) -> (r: Option<&'static str>)
    ensures
        match r {
            Some(s) => directed_skip(ext@) == Some(s@),
            None => directed_skip(ext@) is None,
        },
{
    if text::same_text(ext, "xps") {
        Some("xps: handled by Fast (GPU) indexing where available")
    } else {
        None
    }
}

/// What is read of an ebook.
#[derive(Debug)]
pub enum EbookReading {
    Epub(Result<EpubParts, String>),
    Fb2(Result<Vec<u8>, ReadFault>),
    Mobi(MobiReading),
}

/// What an ebook gives. A reading of another kind than the extension calls for is not supported.
pub open spec fn ebook_outcome(path: Seq<char>, reading: EbookReading) -> Result<
    BookDocV,
    ErrorV,
> {
    let ext = formats::ext_name(path);
    match reading {
        EbookReading::Epub(p) => if ext == Some("epub"@) {
            match p {
                Ok(parts) => Ok(epub_book(path, parts)),
                Err(e) => Err(ErrorV::Parse("epub: "@ + e@)),
            }
        } else {
            Err(ErrorV::Unsupported(extract::with_ext(path, ext)))
        },
        EbookReading::Fb2(read) => if ext == Some("fb2"@) || ext == Some("fb2.zip"@) {
            fb2_outcome(path, read)
        } else {
            Err(ErrorV::Unsupported(extract::with_ext(path, ext)))
        },
        EbookReading::Mobi(m) => if ext == Some("mobi"@) || ext == Some("azw3"@) {
            mobi_outcome(path, m)
        } else {
            Err(ErrorV::Unsupported(extract::with_ext(path, ext)))
        },
    }
}

/// Extracts an ebook.
pub fn extract_ebook(path: &str, reading: EbookReading) -> (r: Result<BookDoc, ExtractError>)
    ensures
        extract::outcome(r) == ebook_outcome(path@, reading),
{
    let ext = formats::ext_of(path);
    match reading {
        EbookReading::Epub(p) => {
            if extract::has_ext(ext, "epub") {
                match p {
                    Ok(parts) => Ok(extract_epub(path, &parts)),
                    Err(e) => Err(ExtractError::Parse(extract::concat("epub: ", e.as_str()))),
                }
            } else {
                Err(ExtractError::Unsupported(extract::path_with_ext(path, ext)))
            }
        },
        EbookReading::Fb2(read) => {
            if extract::has_ext(ext, "fb2") || extract::has_ext(ext, "fb2.zip") {
                extract_fb2(path, read)
            } else {
                Err(ExtractError::Unsupported(extract::path_with_ext(path, ext)))
            }
        },
        EbookReading::Mobi(m) => {
            if extract::has_ext(ext, "mobi") || extract::has_ext(ext, "azw3") {
                extract_mobi(path, m)
            } else {
                Err(ExtractError::Unsupported(extract::path_with_ext(path, ext)))
            }
        },
    }
}

/// A chapter of an EPUB is always one that the table of contents names on its two top levels.
pub proof fn epub_chapters_come_from_the_top_levels(toc: Seq<TocV>, spine: Seq<SpineV>, k: int)
    requires
        0 <= k < spine_sections(toc, spine).len(),
        spine_sections(toc, spine)[k].heading is Some,
    ensures
        exists|i: int|
            0 <= i < toc.len() && (#[trigger] toc[i]).depth <= 2 && text::trim(toc[i].label)
                == spine_sections(toc, spine)[k].heading->0,
    decreases spine.len(),
{
    if spine.len() > 0 {
        let before = spine_sections(toc, spine.drop_last());
        if k < before.len() {
            epub_chapters_come_from_the_top_levels(toc, spine.drop_last(), k);
        } else {
            lemma_chapter_is_named(toc, spine);
        }
    }
}

proof fn lemma_chapter_is_named(toc: Seq<TocV>, spine: Seq<SpineV>)
    ensures
        chapter_after(toc, spine) is Some ==> exists|i: int|
            0 <= i < toc.len() && (#[trigger] toc[i]).depth <= 2 && text::trim(toc[i].label)
                == chapter_after(toc, spine)->0,
    decreases spine.len(),
{
    if spine.len() > 0 {
        lemma_chapter_is_named(toc, spine.drop_last());
        if let Some(h) = spine.last().href {
            rows::lemma_first_where(toc, names(without_fragment(h)));
        }
    }
}

} // verus!
