//! Files into books: every reading of a file becomes a [`BookDoc`] with the file's identity.
use vstd::prelude::*;
use crate::book::{Block, BlockV, BookDoc, BookDocV};
use crate::decode;
use crate::formats;
use crate::formats::Format;
use crate::html;
use crate::ids;
use crate::json;
use crate::markup;
use crate::notebook;
use crate::pattern;
use crate::rows;
use crate::rtf;
use crate::sections;
use crate::sections::{Dialect, Section, SectionV};
use crate::text;
use crate::xml;

verus! {

/// Why a book cannot be extracted.
#[derive(Debug, PartialEq, Eq)]
pub enum ExtractError {
    Pdf(String),
    Unsupported(String),
    Io(String),
    Parse(String),
}

/// What an [`ExtractError`] holds.
pub enum ErrorV {
    Pdf(Seq<char>),
    Unsupported(Seq<char>),
    Io(Seq<char>),
    Parse(Seq<char>),
}

impl View for ExtractError {
    type V = ErrorV;

    open spec fn view(&self) -> ErrorV {
        match self {
            ExtractError::Pdf(s) => ErrorV::Pdf(s@),
            ExtractError::Unsupported(s) => ErrorV::Unsupported(s@),
            ExtractError::Io(s) => ErrorV::Io(s@),
            ExtractError::Parse(s) => ErrorV::Parse(s@),
        }
    }
}

/// The message of an error.
pub open spec fn error_message(e: ErrorV) -> Seq<char> {
    match e {
        ErrorV::Pdf(s) => "pdf: "@ + s,
        ErrorV::Unsupported(s) => "unsupported format for "@ + s,
        ErrorV::Io(s) => "io: "@ + s,
        ErrorV::Parse(s) => "parse: "@ + s,
    }
}

/// One text after another.
pub fn concat(a: &str, b: &str) -> (r: String)
    ensures
        r@ == a@ + b@,
{
    let mut s = a.to_owned();
    s.append(b);
    s
}

impl ExtractError {
    /// The message shown for the error and recorded as the reason of a skip.
    pub fn message(&self) -> (r: String)
        ensures
            r@ == error_message(self@),
    {
        match self {
            ExtractError::Pdf(s) => concat("pdf: ", s.as_str()),
            ExtractError::Unsupported(s) => concat("unsupported format for ", s.as_str()),
            ExtractError::Io(s) => concat("io: ", s.as_str()),
            ExtractError::Parse(s) => concat("parse: ", s.as_str()),
        }
    }
}

/// What extraction gives, by its value.
pub open spec fn outcome(r: Result<BookDoc, ExtractError>) -> Result<BookDocV, ErrorV> {
    match r {
        Ok(d) => Ok(d@),
        Err(e) => Err(e@),
    }
}

/// Why the bytes of a file cannot be had: the file or an entry cannot be read, it is no archive, or
/// the archive has no such entry.
#[derive(Debug, PartialEq, Eq)]
pub enum ReadFault {
    Io(String),
    Archive(String),
    Entry(String),
}

/// The error for a fault, given how messages about the archive and its entry begin.
pub open spec fn fault_error(f: ReadFault, archive: Seq<char>, entry: Seq<char>) -> ErrorV {
    match f {
        ReadFault::Io(e) => ErrorV::Io(e@),
        ReadFault::Archive(e) => ErrorV::Parse(archive + ": "@ + e@),
        ReadFault::Entry(e) => ErrorV::Parse(entry + ": "@ + e@),
    }
}

/// The error for a fault.
pub fn error_of_fault(f: ReadFault, archive: &str, entry: &str) -> (r: ExtractError)
    ensures
        r@ == fault_error(f, archive@, entry@),
{
    match f {
        ReadFault::Io(e) => ExtractError::Io(e),
        ReadFault::Archive(e) => ExtractError::Parse(
            concat(concat(archive, ": ").as_str(), e.as_str()),
        ),
        ReadFault::Entry(e) => ExtractError::Parse(
            concat(concat(entry, ": ").as_str(), e.as_str()),
        ),
    }
}

/// A book with the identity of a file and the title its name gives.
pub open spec fn plain_book(path: Seq<char>, format: Format, blocks: Seq<BlockV>) -> BookDocV {
    BookDocV {
        book_id: ids::book_id_of(path),
        title: ids::title_of(path),
        author: None,
        source_path: path,
        format,
        blocks,
    }
}

/// Makes a book with the identity of a file.
pub fn book_of(path: &str, format: Format, blocks: Vec<Block>) -> (r: BookDoc)
    ensures
        r@ == plain_book(path@, format, rows::vals(blocks@)),
{
    BookDoc {
        book_id: ids::stable_book_id(path),
        title: ids::title_from_path(path),
        author: None,
        source_path: path.to_owned(),
        format,
        blocks,
    }
}

/// Makes a book of sections, which need text to count.
pub fn doc_from_sections(path: &str, format: Format, sections: Vec<Section>) -> (r: BookDoc)
    ensures
        r@ == plain_book(path@, format, sections::book_blocks(rows::vals(sections@), false)),
{
    let blocks = sections::sections_to_blocks(sections, false);
    book_of(path, format, blocks)
}

/// A text as the one section of a book.
pub open spec fn only_section(body: Seq<char>) -> Seq<SectionV> {
    seq![SectionV { heading: None, body }]
}

/// A text as the one section of a book.
pub fn one_section(body: String) -> (r: Vec<Section>)
    ensures
        rows::vals(r@) == only_section(body@),
{
    let mut v: Vec<Section> = Vec::new();
    let ghost b = body@;
    v.push(Section { heading: None, body });
    assert(rows::vals(v@) =~= only_section(b));
    v
}

// ---- text ------------------------------------------------------------------------------------

/// A text with hyphenated line breaks joined, and runs of blanks and of empty lines collapsed.
pub open spec fn cleaned(t: Seq<char>) -> Seq<char> {
    let a = pattern::regex_replaced(pattern::HYPHEN_BREAK@, t, "$1$2"@);
    let b = pattern::runs_replaced(a, pattern::blank(), 1, " "@);
    let c = pattern::runs_replaced(b, pattern::line_break(), 3, "\n\n"@);
    text::trim(c)
}

/// Joins hyphenated line breaks and collapses runs of blanks and of empty lines.
pub fn clean_text(t: &str) -> (r: String)
    ensures
        r@ == cleaned(t@),
{
    let a = pattern::replace_all(pattern::HYPHEN_BREAK, t, "$1$2");
    let b = pattern::replace_all(pattern::BLANKS, a.as_str(), " ");
    let c = pattern::replace_all(pattern::MANY_BREAKS, b.as_str(), "\n\n");
    text::trim_str(c.as_str())
}

// ---- pdf -------------------------------------------------------------------------------------

/// A page of a PDF: its number, and the text read from it, if any could be.
#[derive(Debug, PartialEq, Eq)]
pub struct PageText {
    pub number: u32,
    pub text: Option<String>,
}

/// A page whose text is cleaned.
#[derive(Debug, PartialEq, Eq)]
pub struct CleanPage {
    pub number: u32,
    pub text: String,
}

/// What a [`CleanPage`] holds.
#[verifier::ext_equal]
pub struct PageV {
    pub number: u32,
    pub text: Seq<char>,
}

impl View for PageText {
    type V = PageV;

    open spec fn view(&self) -> PageV {
        PageV {
            number: self.number,
            text: match self.text {
                Some(t) => t@,
                None => Seq::empty(),
            },
        }
    }
}

impl View for CleanPage {
    type V = PageV;

    open spec fn view(&self) -> PageV {
        PageV { number: self.number, text: self.text@ }
    }
}

/// The pages with their texts cleaned.
pub open spec fn clean_pages(pages: Seq<PageV>) -> Seq<PageV> {
    Seq::new(pages.len(), |i: int| PageV { number: pages[i].number, text: cleaned(pages[i].text) })
}

/// One block for each page that holds text.
pub open spec fn page_blocks(pages: Seq<PageV>) -> Seq<BlockV>
    decreases pages.len(),
{
    if pages.len() == 0 {
        Seq::empty()
    } else {
        let before = page_blocks(pages.drop_last());
        let p = pages.last();
        if p.text.len() > 0 {
            before.push(BlockV { text: p.text, chapter: None, page: Some(p.number) })
        } else {
            before
        }
    }
}

/// One block for each page that holds text.
pub fn blocks_of_pages(pages: Vec<CleanPage>) -> (r: Vec<Block>)
    ensures
        rows::vals(r@) == page_blocks(rows::vals(pages@)),
{
    let ghost all = rows::vals(pages@);
    let mut out: Vec<Block> = Vec::new();
    assert(rows::vals(out@) =~= page_blocks(all.take(0)));
    for i in 0..pages.len()
        invariant
            all == rows::vals(pages@),
            rows::vals(out@) == page_blocks(all.take(i as int)),
    {
        let p = &pages[i];
        proof {
            assert(all.take(i + 1).drop_last() =~= all.take(i as int));
            assert(all.take(i + 1).last() == p@);
        }
        if p.text.as_str().unicode_len() > 0 {
            let b = Block::new(p.text.clone(), None, Some(p.number));
            proof {
                rows::lemma_vals_push(out@, b);
            }
            out.push(b);
        }
    }
    assert(all.take(all.len() as int) =~= all);
    out
}

fn clean_all(pages: Vec<PageText>) -> (r: Vec<CleanPage>)
    ensures
        rows::vals(r@) == clean_pages(rows::vals(pages@)),
{
    let ghost all = rows::vals(pages@);
    let mut out: Vec<CleanPage> = Vec::new();
    for i in 0..pages.len()
        invariant
            all == rows::vals(pages@),
            out@.len() == i,
            forall|k: int| 0 <= k < i ==> (#[trigger] out@[k])@ == clean_pages(all)[k],
    {
        let p = &pages[i];
        assert(all[i as int] == p@);
        let text = match &p.text {
            Some(t) => clean_text(t.as_str()),
            None => clean_text(""),
        };
        proof {
            reveal_strlit("");
            assert(""@ =~= Seq::empty());
        }
        out.push(CleanPage { number: p.number, text });
    }
    assert(rows::vals(out@) =~= clean_pages(all));
    out
}

/// What the pages of a PDF give.
pub open spec fn pdf_outcome(
    path: Seq<char>,
    pages: Result<Vec<PageText>, String>,
) -> Result<BookDocV, ErrorV> {
    match pages {
        Ok(p) => Ok(plain_book(path, Format::Pdf, page_blocks(clean_pages(rows::vals(p@))))),
        Err(e) => Err(ErrorV::Pdf(e@)),
    }
}

/// A PDF as a book, one block for each page that holds text.
pub fn extract_pdf(path: &str, pages: Result<Vec<PageText>, String>) -> (r: Result<
    BookDoc,
    ExtractError,
>)
    ensures
        outcome(r) == pdf_outcome(path@, pages),
{
    match pages {
        Ok(p) => Ok(book_of(path, Format::Pdf, blocks_of_pages(clean_all(p)))),
        Err(e) => Err(ExtractError::Pdf(e)),
    }
}

/// A book without its blocks, if they hold too little text.
pub open spec fn floored_book(d: BookDocV) -> BookDocV {
    BookDocV { blocks: sections::enough(d.blocks), ..d }
}

// ---- text family -----------------------------------------------------------------------------

/// The sections that a notebook's text gives.
pub open spec fn notebook_outcome(raw: Seq<char>) -> Result<Seq<SectionV>, ErrorV> {
    match json::json_parsed(raw) {
        Ok(nodes) => Ok(
            sections::line_sections(
                Dialect::Markdown,
                text::lines(notebook::cells_markdown(notebook::cells_of(nodes))),
            ),
        ),
        Err(e) => Err(ErrorV::Parse("ipynb: "@ + e)),
    }
}

/// Jupyter notebook: Markdown cells follow the Markdown rules; code cells become fenced blocks.
pub fn scan_ipynb(raw: &str) -> (r: Result<Vec<Section>, ExtractError>)
    ensures
        match r {
            Ok(s) => notebook_outcome(raw@) == Ok::<Seq<SectionV>, ErrorV>(rows::vals(s@)),
            Err(e) => notebook_outcome(raw@) == Err::<Seq<SectionV>, ErrorV>(e@),
        },
{
    match json::parse(raw) {
        Ok(v) => {
            let cells = notebook::read_cells(&v);
            let md = notebook::markdown_of(&cells);
            Ok(sections::scan_md(md.as_str()))
        },
        Err(e) => Err(ExtractError::Parse(concat("ipynb: ", e.as_str()))),
    }
}

/// The sections of a text file by its extension, if it is of the text family.
pub open spec fn text_sections(ext: Seq<char>, raw: Seq<char>) -> Option<
    Result<Seq<SectionV>, ErrorV>,
> {
    if ext == "md"@ || ext == "markdown"@ {
        Some(Ok(sections::line_sections(Dialect::Markdown, text::lines(raw))))
    } else if ext == "txt"@ || ext == "text"@ {
        Some(Ok(only_section(raw)))
    } else if ext == "rst"@ {
        Some(Ok(sections::rst_sections(text::lines(raw), 0, seq![sections::opening()])))
    } else if ext == "adoc"@ {
        Some(Ok(sections::line_sections(Dialect::AsciiDoc, text::lines(raw))))
    } else if ext == "org"@ {
        Some(Ok(sections::line_sections(Dialect::Org, text::lines(raw))))
    } else if ext == "tex"@ {
        Some(Ok(sections::line_sections(Dialect::Latex, text::lines(raw))))
    } else if ext == "ipynb"@ {
        Some(notebook_outcome(raw))
    } else if ext == "html"@ || ext == "htm"@ {
        Some(Ok(html::html_sections(html::html_nodes(raw, true))))
    } else {
        None
    }
}

/// The format recorded for an extension of the text family.
pub open spec fn text_format(ext: Seq<char>) -> Format {
    match formats::family(text::lower_ascii_all(ext)) {
        Some(f) => f,
        None => Format::Txt,
    }
}

/// What a text file gives.
pub open spec fn text_outcome(path: Seq<char>, read: Result<Vec<u8>, ReadFault>) -> Result<
    BookDocV,
    ErrorV,
> {
    match formats::ext_name(path) {
        None => Err(ErrorV::Unsupported(path)),
        Some(ext) => match read {
            Err(f) => Err(fault_error(f, ext, path)),
            Ok(bytes) => match text_sections(ext, decode::file_text(bytes@)) {
                None => Err(ErrorV::Unsupported(ext)),
                Some(Err(e)) => Err(e),
                Some(Ok(s)) => Ok(
                    plain_book(path, text_format(ext), sections::book_blocks(s, true)),
                ),
            },
        },
    }
}

fn scan_text(ext: &str, raw: String) -> (r: Option<Result<Vec<Section>, ExtractError>>)
    ensures
        match r {
            None => text_sections(ext@, raw@) is None,
            Some(Ok(s)) => text_sections(ext@, raw@) == Some(
                Ok::<Seq<SectionV>, ErrorV>(rows::vals(s@)),
            ),
            Some(Err(e)) => text_sections(ext@, raw@) == Some(Err::<Seq<SectionV>, ErrorV>(e@)),
        },
{
    if text::same_text(ext, "md") || text::same_text(ext, "markdown") {
        Some(Ok(sections::scan_md(raw.as_str())))
    } else if text::same_text(ext, "txt") || text::same_text(ext, "text") {
        Some(Ok(one_section(raw)))
    } else if text::same_text(ext, "rst") {
        Some(Ok(sections::scan_rst(raw.as_str())))
    } else if text::same_text(ext, "adoc") {
        Some(Ok(sections::scan_prefix(Dialect::AsciiDoc, raw.as_str())))
    } else if text::same_text(ext, "org") {
        Some(Ok(sections::scan_prefix(Dialect::Org, raw.as_str())))
    } else if text::same_text(ext, "tex") {
        Some(Ok(sections::scan_tex(raw.as_str())))
    } else if text::same_text(ext, "ipynb") {
        Some(scan_ipynb(raw.as_str()))
    } else if text::same_text(ext, "html") || text::same_text(ext, "htm") {
        Some(Ok(html::scan_html(raw.as_str())))
    } else {
        None
    }
}

/// Extracts a file of the text family, by its extension. The book has no blocks when the file has
/// too little text.
pub fn extract_text_family(path: &str, read: Result<Vec<u8>, ReadFault>) -> (r: Result<
    BookDoc,
    ExtractError,
>)
    ensures
        outcome(r) == text_outcome(path@, read),
{
    match formats::ext_of(path) {
        None => Err(ExtractError::Unsupported(path.to_owned())),
        Some(ext) => match read {
            Err(f) => Err(error_of_fault(f, ext, path)),
            Ok(bytes) => {
                let raw = decode::decode_file(bytes.as_slice());
                match scan_text(ext, raw) {
                    None => Err(ExtractError::Unsupported(ext.to_owned())),
                    Some(Err(e)) => Err(e),
                    Some(Ok(s)) => {
                        let format = match Format::from_ext(ext) {
                            Some(f) => f,
                            None => Format::Txt,
                        };
                        Ok(book_of(path, format, sections::sections_to_blocks(s, true)))
                    },
                }
            },
        },
    }
}

// ---- office ----------------------------------------------------------------------------------

/// The archive entry that holds the text of a `docx` document.
pub const DOCX_ENTRY: &'static str = "word/document.xml";

/// The archive entry that holds the text of an `odt` document.
pub const ODT_ENTRY: &'static str = "content.xml";

/// How messages about an extension that is not of the family end.
pub open spec fn with_ext(path: Seq<char>, ext: Option<Seq<char>>) -> Seq<char> {
    path + " ("@ + (match ext {
        Some(e) => e,
        None => "no ext"@,
    }) + ")"@
}

/// The path with the extension that is not of the family.
pub fn path_with_ext(path: &str, ext: Option<&'static str>) -> (r: String)
    ensures
        r@ == with_ext(
            path@,
            (match ext {
                Some(e) => Some(e@),
                None => None,
            }),
        ),
{
    let mut s = path.to_owned();
    s.append(" (");
    match ext {
        Some(e) => s.append(e),
        None => s.append("no ext"),
    }
    s.append(")");
    s
}

/// The events of an XML document that has no need of trimming.
pub open spec fn document_events(bytes: Seq<u8>) -> Seq<xml::XmlV> {
    xml::xml_events(bytes, false)
}

/// What a `docx` document gives.
pub open spec fn docx_outcome(path: Seq<char>, read: Result<Vec<u8>, ReadFault>) -> Result<
    BookDocV,
    ErrorV,
> {
    match read {
        Err(f) => Err(fault_error(f, "zip"@, DOCX_ENTRY@)),
        Ok(bytes) => match markup::broken(document_events(bytes@)) {
            Some(m) => Err(ErrorV::Parse("docx: "@ + m)),
            None => Ok(
                plain_book(
                    path,
                    Format::Docx,
                    sections::book_blocks(
                        markup::docx_run(document_events(bytes@)).sections,
                        false,
                    ),
                ),
            ),
        },
    }
}

/// What an `odt` document gives.
pub open spec fn odt_outcome(path: Seq<char>, read: Result<Vec<u8>, ReadFault>) -> Result<
    BookDocV,
    ErrorV,
> {
    match read {
        Err(f) => Err(fault_error(f, "zip"@, ODT_ENTRY@)),
        Ok(bytes) => match markup::broken(document_events(bytes@)) {
            Some(m) => Err(ErrorV::Parse("odt: "@ + m)),
            None => Ok(
                plain_book(
                    path,
                    Format::Odt,
                    sections::book_blocks(
                        markup::odt_run(document_events(bytes@)).sections,
                        false,
                    ),
                ),
            ),
        },
    }
}

/// What an `rtf` document gives.
pub open spec fn rtf_outcome(path: Seq<char>, read: Result<Vec<u8>, ReadFault>) -> Result<
    BookDocV,
    ErrorV,
> {
    match read {
        Err(f) => Err(fault_error(f, "zip"@, path)),
        Ok(bytes) => match rtf::rtf_text(rtf::rtf_source(bytes@)) {
            Err(e) => Err(ErrorV::Parse("rtf: "@ + e)),
            Ok(t) => Ok(
                plain_book(path, Format::Rtf, sections::book_blocks(only_section(t), false)),
            ),
        },
    }
}

/// What an office document gives.
pub open spec fn office_outcome(path: Seq<char>, read: Result<Vec<u8>, ReadFault>) -> Result<
    BookDocV,
    ErrorV,
> {
    let ext = formats::ext_name(path);
    if ext == Some("docx"@) {
        docx_outcome(path, read)
    } else if ext == Some("odt"@) {
        odt_outcome(path, read)
    } else if ext == Some("rtf"@) {
        rtf_outcome(path, read)
    } else {
        Err(ErrorV::Unsupported(with_ext(path, ext)))
    }
}

/// Whether a file has an extension.
pub fn has_ext(found: Option<&'static str>, ext: &str) -> (r: bool)
    ensures
        r == (found is Some && found->0@ == ext@),
{
    match found {
        Some(e) => text::same_text(e, ext),
        None => false,
    }
}

/// Extracts a `docx` document from the entry with its text.
pub fn extract_docx(path: &str, read: Result<Vec<u8>, ReadFault>) -> (r: Result<
    BookDoc,
    ExtractError,
>)
    ensures
        outcome(r) == docx_outcome(path@, read),
{
    match read {
        Err(f) => Err(error_of_fault(f, "zip", DOCX_ENTRY)),
        Ok(bytes) => {
            let events = xml::read_events(bytes.as_slice(), false);
            match markup::docx_sections(&events) {
                Err(e) => Err(ExtractError::Parse(e)),
                Ok(s) => Ok(doc_from_sections(path, Format::Docx, s)),
            }
        },
    }
}

/// Extracts an `odt` document from the entry with its text.
pub fn extract_odt(path: &str, read: Result<Vec<u8>, ReadFault>) -> (r: Result<
    BookDoc,
    ExtractError,
>)
    ensures
        outcome(r) == odt_outcome(path@, read),
{
    match read {
        Err(f) => Err(error_of_fault(f, "zip", ODT_ENTRY)),
        Ok(bytes) => {
            let events = xml::read_events(bytes.as_slice(), false);
            match markup::odt_sections(&events) {
                Err(e) => Err(ExtractError::Parse(e)),
                Ok(s) => Ok(doc_from_sections(path, Format::Odt, s)),
            }
        },
    }
}

/// Extracts an `rtf` document.
pub fn extract_rtf(path: &str, read: Result<Vec<u8>, ReadFault>) -> (r: Result<
    BookDoc,
    ExtractError,
>)
    ensures
        outcome(r) == rtf_outcome(path@, read),
{
    match read {
        Err(f) => Err(error_of_fault(f, "zip", path)),
        Ok(bytes) => {
            let source = rtf::decode_rtf_escapes(bytes.as_slice());
            match rtf::text_of_rtf(source.as_str()) {
                Err(e) => Err(ExtractError::Parse(concat("rtf: ", e.as_str()))),
                Ok(t) => Ok(doc_from_sections(path, Format::Rtf, one_section(t))),
            }
        },
    }
}

/// Extracts an office document: of `docx` and `odt` the entry with the text is read, of `rtf` the
/// file.
pub fn extract_office(path: &str, read: Result<Vec<u8>, ReadFault>) -> (r: Result<
    BookDoc,
    ExtractError,
>)
    ensures
        outcome(r) == office_outcome(path@, read),
{
    let ext = formats::ext_of(path);
    if has_ext(ext, "docx") {
        extract_docx(path, read)
    } else if has_ext(ext, "odt") {
        extract_odt(path, read)
    } else if has_ext(ext, "rtf") {
        extract_rtf(path, read)
    } else {
        Err(ExtractError::Unsupported(path_with_ext(path, ext)))
    }
}

} // verus!
