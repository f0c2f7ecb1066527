//! Formats without a reader of their own: a converter on the machine or a preview in the file
//! stands in, and the book keeps the identity of the original file. Scanned PDFs are told apart,
//! and their searchable copies are found by a hash of the original.
use vstd::prelude::*;
use std::collections::hash_map::DefaultHasher;
use std::hash::Hasher;
use crate::book::{BlockV, BookDoc, BookDocV};
use crate::decode;
use crate::ebook;
use crate::ebook::EbookReading;
use crate::extract;
use crate::extract::{ErrorV, ExtractError, PageText, ReadFault};
use crate::fnv;
use crate::formats;
use crate::formats::Format;
use crate::html;
use crate::ids;
use crate::rows;
use crate::sections;
use crate::text;
use vstd::std_specs::hash::DefaultHasherAdditionalSpecFns;

verus! {

/// The extensions that only a converter or a preview makes readable.
pub const CONVERTED_EXTS: [&'static str; 4] = ["doc", "pages", "webarchive", "djvu"];

/// How many seconds a converter may take.
pub const CONVERT_TIMEOUT_SECS: u64 = 120;

// ---- cache -----------------------------------------------------------------------------------

/// How many bytes of a file's head a cache key is made of, at most.
pub const CACHE_SAMPLE: usize = 65536;

/// The key of a converted file: its length and a hash of length and head.
pub open spec fn cache_key_of(len: u64, head: Seq<u8>) -> Seq<char> {
    text::numeral(len as nat, 16) + "-"@ + text::hex16(
        DefaultHasher::spec_finish(seq![vstd::bytes::spec_u64_to_le_bytes(len), head]),
    )
}

/// The key of a converted file. A changed file gets a fresh one.
pub fn cache_key(len: u64, head: &[u8]) -> (r: String)
    ensures
        r@ == cache_key_of(len, head@),
{
    let mut h = DefaultHasher::new();
    let len_bytes = vstd::bytes::u64_to_le_bytes(len);
    h.write(&len_bytes);
    h.write(head);
    assert(h@ =~= seq![vstd::bytes::spec_u64_to_le_bytes(len), head@]);
    let mut out = text::hex_of(len);
    out.append("-");
    out.append(text::hex16_of(h.finish()).as_str());
    out
}

/// A name under a directory.
pub open spec fn path_under(dir: Seq<char>, name: Seq<char>) -> Seq<char> {
    if dir.len() == 0 || dir.last() == '/' {
        dir + name
    } else {
        dir + "/"@ + name
    }
}

/// A relative name under a directory.
pub fn join_path(dir: &str, name: &str) -> (r: String)
    ensures
        r@ == path_under(dir@, name@),
{
    let v = text::chars_of(dir);
    let mut out = dir.to_owned();
    if v.len() > 0 && v[v.len() - 1] != '/' {
        out.append("/");
    }
    out.append(name);
    out
}

/// Where a file of some kind is cached.
pub open spec fn cache_path(dir: Seq<char>, key: Seq<char>, ext: Seq<char>) -> Seq<char> {
    path_under(dir, key + "."@ + ext)
}

/// Where a file of some kind is cached.
pub fn cache_file(cache_dir: &str, key: &str, ext: &str) -> (r: String)
    ensures
        r@ == cache_path(cache_dir@, key@, ext@),
{
    let mut name = key.to_owned();
    name.append(".");
    name.append(ext);
    join_path(cache_dir, name.as_str())
}

// ---- doc -------------------------------------------------------------------------------------

/// A converter of legacy Word documents.
#[derive(Debug, Clone, Copy, PartialEq, Eq, Structural)]
pub enum DocTool {
    Textutil,
    Antiword,
    Soffice,
}

/// What to do next for a legacy Word document, or how it ended.
#[derive(Debug, Clone, Copy, PartialEq, Eq, Structural)]
pub enum DocStep {
    /// Find out whether the tool is there.
    Probe(DocTool),
    /// Run the tool.
    Convert(DocTool),
    Converted,
    Failed,
}

/// Where the search for a converter starts.
pub open spec fn first_doc_step() -> DocStep {
    DocStep::Probe(DocTool::Textutil)
}

/// What to do once a tool is no help.
pub open spec fn after_tool(t: DocTool) -> DocStep {
    match t {
        DocTool::Textutil => DocStep::Probe(DocTool::Antiword),
        DocTool::Antiword => DocStep::Probe(DocTool::Soffice),
        DocTool::Soffice => DocStep::Failed,
    }
}

/// What to do after a step that went well or not.
pub open spec fn next_doc_step(step: DocStep, ok: bool) -> DocStep {
    match step {
        DocStep::Probe(t) => if ok {
            DocStep::Convert(t)
        } else {
            after_tool(t)
        },
        DocStep::Convert(t) => if ok {
            DocStep::Converted
        } else {
            after_tool(t)
        },
        s => s,
    }
}

impl DocTool {
    /// The command of a tool.
    pub open spec fn command(self) -> Seq<char> {
        match self {
            DocTool::Textutil => "textutil"@,
            DocTool::Antiword => "antiword"@,
            DocTool::Soffice => "soffice"@,
        }
    }

    /// The command of a tool.
    pub fn name(self) -> (r: &'static str)
        ensures
            r@ == self.command(),
    {
        match self {
            DocTool::Textutil => "textutil",
            DocTool::Antiword => "antiword",
            DocTool::Soffice => "soffice",
        }
    }

    /// Whether a run of the tool gave the text: it ended well, and what it leaves is there. One
    /// tool prints the text, the others leave a file.
    pub fn gave_text(self, ended_well: bool, printed: bool, left_file: bool) -> (r: bool)
        ensures
            r == (ended_well && (if self == DocTool::Antiword {
                printed
            } else {
                left_file
            })),
    {
        ended_well && (match self {
            DocTool::Antiword => printed,
            _ => left_file,
        })
    }
}

/// Where the search for a converter starts.
pub fn start_doc() -> (r: DocStep)
    ensures
        r == first_doc_step(),
{
    DocStep::Probe(DocTool::Textutil)
}

/// What to do after a step that went well or not.
pub fn advance_doc(step: DocStep, ok: bool) -> (r: DocStep)
    ensures
        r == next_doc_step(step, ok),
{
    match step {
        DocStep::Probe(t) => if ok {
            DocStep::Convert(t)
        } else {
            next_tool(t)
        },
        DocStep::Convert(t) => if ok {
            DocStep::Converted
        } else {
            next_tool(t)
        },
        s => s,
    }
}

fn next_tool(t: DocTool) -> (r: DocStep)
    ensures
        r == after_tool(t),
{
    match t {
        DocTool::Textutil => DocStep::Probe(DocTool::Antiword),
        DocTool::Antiword => DocStep::Probe(DocTool::Soffice),
        DocTool::Soffice => DocStep::Failed,
    }
}

/// Where the search ends on a machine, given which tools are there and which of them work.
pub open spec fn doc_end(
    step: DocStep,
    there: spec_fn(DocTool) -> bool,
    works: spec_fn(DocTool) -> bool,
    fuel: nat,
) -> DocStep
    decreases fuel,
{
    if fuel == 0 {
        step
    } else {
        let ok = match step {
            DocStep::Probe(t) => there(t),
            DocStep::Convert(t) => works(t),
            _ => true,
        };
        doc_end(next_doc_step(step, ok), there, works, (fuel - 1) as nat)
    }
}

/// A tool is there and works.
pub open spec fn helps(
    there: spec_fn(DocTool) -> bool,
    works: spec_fn(DocTool) -> bool,
    t: DocTool,
) -> bool {
    there(t) && works(t)
}

/// The search ends after at most six steps, and fails only where no tool that is there works.
pub proof fn doc_search_tries_every_tool(
    there: spec_fn(DocTool) -> bool,
    works: spec_fn(DocTool) -> bool,
)
    ensures
        doc_end(first_doc_step(), there, works, 6) == (if exists|t: DocTool|
            #[trigger] helps(there, works, t) {
            DocStep::Converted
        } else {
            DocStep::Failed
        }),
{
    reveal_with_fuel(doc_end, 8);
    let (a, b, c) = (
        helps(there, works, DocTool::Textutil),
        helps(there, works, DocTool::Antiword),
        helps(there, works, DocTool::Soffice),
    );
    if exists|t: DocTool| #[trigger] helps(there, works, t) {
        let t = choose|t: DocTool| #[trigger] helps(there, works, t);
        assert(t == DocTool::Textutil || t == DocTool::Antiword || t == DocTool::Soffice);
    }
}

/// The reason for a legacy Word document that nothing here can convert.
pub const DOC_REASON: &'static str = "legacy .doc: install antiword or LibreOffice";

/// What reading the converted copy of a legacy Word document gave.
#[derive(Debug)]
pub enum Converted {
    Io(String),
    /// No converter helped.
    Failed,
    Bytes(Vec<u8>),
}

/// What a legacy Word document gives.
pub open spec fn doc_outcome(path: Seq<char>, c: Converted) -> Result<BookDocV, ErrorV> {
    match c {
        Converted::Io(e) => Err(ErrorV::Io(e@)),
        Converted::Failed => Err(ErrorV::Parse(DOC_REASON@)),
        Converted::Bytes(b) => Ok(
            extract::plain_book(
                path,
                Format::Doc,
                sections::book_blocks(extract::only_section(decode::utf8_lossy(b@)), false),
            ),
        ),
    }
}

/// A legacy Word document from its converted copy.
pub fn extract_doc(path: &str, c: Converted) -> (r: Result<BookDoc, ExtractError>)
    ensures
        extract::outcome(r) == doc_outcome(path@, c),
{
    match c {
        Converted::Io(e) => Err(ExtractError::Io(e)),
        Converted::Failed => Err(ExtractError::Parse(DOC_REASON.to_owned())),
        Converted::Bytes(b) => {
            let t = decode::lossy_text(b.as_slice());
            Ok(extract::doc_from_sections(path, Format::Doc, extract::one_section(t)))
        },
    }
}

// ---- pages -----------------------------------------------------------------------------------

/// The reason for a `.pages` document without a preview.
pub const PAGES_REASON: &'static str = ".pages without embedded preview — open in Pages and export PDF";

/// The entry of a `.pages` archive that holds its preview, if there is one.
pub fn preview_entry(names: &Vec<Option<String>>) -> (r: Option<usize>)
    ensures
        match r {
            Some(i) => i < names@.len() && ebook::entry_index(
                ebook::entry_names(names@),
                "preview.pdf"@,
            ) == Some(i as int),
            None => ebook::entry_index(ebook::entry_names(names@), "preview.pdf"@) is None,
        },
{
    ebook::find_entry(names, "preview.pdf")
}

/// What reading the preview of a `.pages` document gave.
#[derive(Debug)]
pub enum Preview {
    Io(String),
    /// The document has no preview.
    Missing,
    Pdf(Result<Vec<PageText>, String>),
}

/// A book under another format.
pub open spec fn reformatted(r: Result<BookDocV, ErrorV>, format: Format) -> Result<
    BookDocV,
    ErrorV,
> {
    match r {
        Ok(d) => Ok(BookDocV { format, ..d }),
        Err(e) => Err(e),
    }
}

/// What a `.pages` document gives.
pub open spec fn pages_outcome(path: Seq<char>, p: Preview) -> Result<BookDocV, ErrorV> {
    match p {
        Preview::Io(e) => Err(ErrorV::Io(e@)),
        Preview::Missing => Err(ErrorV::Parse(PAGES_REASON@)),
        Preview::Pdf(pages) => reformatted(extract::pdf_outcome(path, pages), Format::Pages),
    }
}

/// A `.pages` document from its preview. The book keeps the identity of the document itself, which
/// is what moves, duplicates and opens.
pub fn extract_pages(path: &str, p: Preview) -> (r: Result<BookDoc, ExtractError>)
    ensures
        extract::outcome(r) == pages_outcome(path@, p),
{
    match p {
        Preview::Io(e) => Err(ExtractError::Io(e)),
        Preview::Missing => Err(ExtractError::Parse(PAGES_REASON.to_owned())),
        Preview::Pdf(pages) => match extract::extract_pdf(path, pages) {
            Ok(d) => Ok(
                BookDoc {
                    book_id: d.book_id,
                    title: d.title,
                    author: d.author,
                    source_path: d.source_path,
                    format: Format::Pages,
                    blocks: d.blocks,
                },
            ),
            Err(e) => Err(e),
        },
    }
}

/// The cached preview to show for a `.pages` document with a key, given whether it is or can be
/// put in the cache.
pub fn pages_display_pdf(cache_dir: &str, key: &str, to_be_had: bool) -> (r: Result<
    String,
    ExtractError,
>)
    ensures
        match r {
            Ok(p) => to_be_had && p@ == cache_path(cache_dir@, key@, "pdf"@),
            Err(e) => !to_be_had && e@ == ErrorV::Parse(PAGES_REASON@),
        },
{
    if to_be_had {
        Ok(cache_file(cache_dir, key, "pdf"))
    } else {
        Err(ExtractError::Parse(PAGES_REASON.to_owned()))
    }
}

// ---- scanned pdf -----------------------------------------------------------------------------

/// A page with fewer characters than this is an image.
pub const SCANNED_PAGE_CHARS: usize = 50;

/// How many characters the blocks on a page hold.
pub open spec fn chars_on_page(blocks: Seq<BlockV>, page: u32) -> nat
    decreases blocks.len(),
{
    if blocks.len() == 0 {
        0
    } else {
        let b = blocks.last();
        let own = match b.page {
            Some(p) => p,
            None => 0,
        };
        chars_on_page(blocks.drop_last(), page) + (if own == page {
            b.text.len()
        } else {
            0
        })
    }
}

/// How many of the first `n` pages hold too little text.
pub open spec fn thin_pages(blocks: Seq<BlockV>, n: nat) -> nat
    decreases n,
{
    if n == 0 {
        0
    } else {
        thin_pages(blocks, (n - 1) as nat) + (if chars_on_page(blocks, n as u32)
            < SCANNED_PAGE_CHARS {
            1nat
        } else {
            0
        })
    }
}

/// Three pages in five, or more, hold too little text to be anything but images.
pub open spec fn scanned(blocks: Seq<BlockV>, total_pages: nat) -> bool {
    if total_pages == 0 {
        blocks.len() == 0
    } else {
        thin_pages(blocks, total_pages) * 5 >= total_pages * 3
    }
}

fn page_is_thin(doc: &BookDoc, page: u32) -> (r: bool)
    ensures
        r == (chars_on_page(doc@.blocks, page) < SCANNED_PAGE_CHARS),
{
    let ghost all = doc@.blocks;
    let mut sum: usize = 0;
    assert(all.take(0) =~= Seq::empty());
    for i in 0..doc.blocks.len()
        invariant
            all == rows::vals(doc.blocks@),
            sum == chars_on_page(all.take(i as int), page),
            sum < SCANNED_PAGE_CHARS,
    {
        let b = &doc.blocks[i];
        proof {
            assert(all.take(i + 1).drop_last() =~= all.take(i as int));
            assert(all.take(i + 1).last() == b@);
        }
        let own: u32 = match b.page {
            Some(p) => p,
            None => 0,
        };
        if own == page {
            let n: usize = b.text.as_str().unicode_len();
            if n >= SCANNED_PAGE_CHARS - sum {
                proof {
                    lemma_chars_grow(all, page, i as int + 1);
                }
                return false;
            }
            sum = sum + n;
        }
    }
    assert(all.take(all.len() as int) =~= all);
    true
}

proof fn lemma_chars_grow(blocks: Seq<BlockV>, page: u32, i: int)
    requires
        0 <= i <= blocks.len(),
    ensures
        chars_on_page(blocks.take(i), page) <= chars_on_page(blocks, page),
    decreases blocks.len() - i,
{
    if i < blocks.len() {
        lemma_chars_grow(blocks, page, i + 1);
        assert(blocks.take(i + 1).drop_last() =~= blocks.take(i));
    } else {
        assert(blocks.take(i) =~= blocks);
    }
}

/// Whether most pages of a book hold no usable text, so that only character recognition can read
/// it. The number of pages comes from the document: a page without text leaves no block.
pub fn looks_scanned(doc: &BookDoc, total_pages: usize) -> (r: bool)
    ensures
        r == scanned(doc@.blocks, total_pages as nat),
{
    if total_pages == 0 {
        return doc.blocks.len() == 0;
    }
    let mut thin: usize = 0;
    let mut n: usize = 0;
    while n < total_pages
        invariant
            n <= total_pages,
            thin <= n,
            thin == thin_pages(doc@.blocks, n as nat),
        decreases total_pages - n,
    {
        n = n + 1;
        if page_is_thin(doc, truncated(n)) {
            thin = thin + 1;
        }
    }
    (thin as u128) * 5 >= (total_pages as u128) * 3
}

#[verifier::truncate]
fn truncated(n: usize) -> (r: u32)
    ensures
        r == (n as nat) as u32,
{
    n as u32
}

/// How many bytes of head and tail the key of a searchable copy is made of.
pub const OCR_SAMPLE: u64 = 65536;

/// The bytes a searchable copy is keyed by: length, head, and in a longer file the tail.
pub open spec fn ocr_bytes(len: u64, head: Seq<u8>, tail: Seq<u8>) -> Seq<u8> {
    let start = vstd::bytes::spec_u64_to_le_bytes(len) + head;
    if len > OCR_SAMPLE {
        start + tail
    } else {
        start
    }
}

/// The key of a searchable copy.
pub open spec fn ocr_key(len: u64, head: Seq<u8>, tail: Seq<u8>) -> Seq<char> {
    text::hex16(fnv::fnv(fnv::FNV_OFFSET, ocr_bytes(len, head, tail)))
}

/// The key of a searchable copy: FNV-1a over length, head and tail, so that the helper that makes
/// the copy names it alike.
pub fn ocr_cache_key(len: u64, head: &[u8], tail: &[u8]) -> (r: String)
    ensures
        r@ == ocr_key(len, head@, tail@),
{
    let len_bytes = vstd::bytes::u64_to_le_bytes(len);
    let mut h: u64 = fnv::fnv_more(fnv::FNV_OFFSET, len_bytes.as_slice());
    h = fnv::fnv_more(h, head);
    proof {
        fnv::parts_hash_as_one(fnv::FNV_OFFSET, len_bytes@, head@);
    }
    if len > OCR_SAMPLE {
        h = fnv::fnv_more(h, tail);
        proof {
            fnv::parts_hash_as_one(fnv::FNV_OFFSET, len_bytes@ + head@, tail@);
        }
    }
    text::hex16_of(h)
}

/// Where the searchable copy of a PDF with a key is, whether or not it exists.
pub fn ocr_cache_path(cache_dir: &str, key: &str) -> (r: String)
    ensures
        r@ == cache_path(cache_dir@, key@ + ".ocr"@, "pdf"@),
{
    let name = extract::concat(key, ".ocr");
    cache_file(cache_dir, name.as_str(), "pdf")
}

/// The searchable copy of a PDF with a key, if there is one: it is what extraction reads and what
/// the reader shows.
pub fn ocr_display_pdf(cache_dir: &str, key: &str, exists: bool) -> (r: Option<String>)
    ensures
        text::opt_text(r) == (if exists {
            Some(cache_path(cache_dir@, key@ + ".ocr"@, "pdf"@))
        } else {
            None
        }),
{
    if exists {
        Some(ocr_cache_path(cache_dir, key))
    } else {
        None
    }
}

// ---- webarchive ------------------------------------------------------------------------------

/// The page of a web archive, from the data of its main resource.
pub open spec fn webarchive_page(data: Result<Option<Vec<u8>>, String>) -> Result<
    Seq<char>,
    ErrorV,
> {
    match data {
        Err(e) => Err(ErrorV::Parse("webarchive: "@ + e@)),
        Ok(None) => Err(ErrorV::Parse("webarchive: no WebMainResource data"@)),
        Ok(Some(b)) => Ok(decode::utf8_lossy(b@)),
    }
}

/// The page of a web archive, from the data of its main resource.
pub fn webarchive_html(data: Result<Option<Vec<u8>>, String>) -> (r: Result<String, ExtractError>)
    ensures
        match r {
            Ok(s) => webarchive_page(data) == Ok::<Seq<char>, ErrorV>(s@),
            Err(e) => webarchive_page(data) == Err::<Seq<char>, ErrorV>(e@),
        },
{
    match data {
        Err(e) => Err(ExtractError::Parse(extract::concat("webarchive: ", e.as_str()))),
        Ok(None) => Err(ExtractError::Parse("webarchive: no WebMainResource data".to_owned())),
        Ok(Some(b)) => Ok(decode::lossy_text(b.as_slice())),
    }
}

/// What a web archive gives.
pub open spec fn webarchive_outcome(
    path: Seq<char>,
    data: Result<Option<Vec<u8>>, String>,
) -> Result<BookDocV, ErrorV> {
    match webarchive_page(data) {
        Err(e) => Err(e),
        Ok(page) => Ok(
            extract::plain_book(
                path,
                Format::Webarchive,
                sections::book_blocks(html::html_sections(html::html_nodes(page, true)), false),
            ),
        ),
    }
}

/// A web archive as a book.
pub fn extract_webarchive(path: &str, data: Result<Option<Vec<u8>>, String>) -> (r: Result<
    BookDoc,
    ExtractError,
>)
    ensures
        extract::outcome(r) == webarchive_outcome(path@, data),
{
    match webarchive_html(data) {
        Err(e) => Err(e),
        Ok(page) => {
            let s = html::scan_html(page.as_str());
            Ok(extract::doc_from_sections(path, Format::Webarchive, s))
        },
    }
}

// ---- djvu ------------------------------------------------------------------------------------

/// The reason for a DjVu document whose text cannot be had.
pub const DJVU_REASON: &'static str = "djvu: brew install djvulibre (scanned-only djvu needs OCR — unsupported)";

/// A text that is empty where the bytes are no text.
pub open spec fn strict_text(b: Seq<u8>) -> Seq<char> {
    if vstd::utf8::valid_utf8(b) {
        vstd::utf8::decode_utf8(b)
    } else {
        Seq::empty()
    }
}

/// What a DjVu document gives.
pub open spec fn djvu_outcome(path: Seq<char>, c: Converted) -> Result<BookDocV, ErrorV> {
    match c {
        Converted::Io(e) => Err(ErrorV::Io(e@)),
        Converted::Failed => Err(ErrorV::Parse(DJVU_REASON@)),
        Converted::Bytes(b) => {
            let t = strict_text(b@);
            if text::trim(t).len() < sections::MIN_BOOK_CHARS {
                Err(ErrorV::Parse(DJVU_REASON@))
            } else {
                Ok(
                    extract::plain_book(
                        path,
                        Format::Djvu,
                        sections::book_blocks(extract::only_section(t), false),
                    ),
                )
            }
        },
    }
}

/// A DjVu document from its text layer.
pub fn extract_djvu(path: &str, c: Converted) -> (r: Result<BookDoc, ExtractError>)
    ensures
        extract::outcome(r) == djvu_outcome(path@, c),
{
    match c {
        Converted::Io(e) => Err(ExtractError::Io(e)),
        Converted::Failed => Err(ExtractError::Parse(DJVU_REASON.to_owned())),
        Converted::Bytes(b) => {
            let t = match decode::utf8_text(b.as_slice()) {
                Some(t) => t,
                None => String::new(),
            };
            if text::trim_str(t.as_str()).as_str().unicode_len() < sections::MIN_BOOK_CHARS {
                Err(ExtractError::Parse(DJVU_REASON.to_owned()))
            } else {
                Ok(extract::doc_from_sections(path, Format::Djvu, extract::one_section(t)))
            }
        },
    }
}

// ---- dispatch --------------------------------------------------------------------------------

/// How a file is read, by its extension.
#[derive(Debug, Clone, Copy, PartialEq, Eq, Structural)]
pub enum Route {
    Pdf,
    Text,
    Office,
    Ebook,
    Doc,
    Pages,
    Webarchive,
    Djvu,
    Unsupported,
}

/// How files with an extension are read.
pub open spec fn route_of_ext(ext: Option<Seq<char>>) -> Route {
    match ext {
        None => Route::Unsupported,
        Some(e) => if e == "pdf"@ {
            Route::Pdf
        } else if e == "md"@ || e == "markdown"@ || e == "txt"@ || e == "text"@ || e == "rst"@ || e
            == "adoc"@ || e == "org"@ || e == "tex"@ || e == "ipynb"@ || e == "html"@ || e
            == "htm"@ {
            Route::Text
        } else if e == "docx"@ || e == "odt"@ || e == "rtf"@ {
            Route::Office
        } else if e == "epub"@ || e == "fb2"@ || e == "fb2.zip"@ || e == "mobi"@ || e == "azw3"@ {
            Route::Ebook
        } else if e == "doc"@ {
            Route::Doc
        } else if e == "pages"@ {
            Route::Pages
        } else if e == "webarchive"@ {
            Route::Webarchive
        } else if e == "djvu"@ {
            Route::Djvu
        } else {
            Route::Unsupported
        },
    }
}

/// How a file is read.
pub open spec fn route_of(path: Seq<char>) -> Route {
    route_of_ext(formats::ext_name(path))
}

/// How a file is read.
pub fn route(path: &str) -> (r: Route)
    ensures
        r == route_of(path@),
{
    let e = match formats::ext_of(path) {
        None => {
            return Route::Unsupported;
        },
        Some(e) => e,
    };
    if text::same_text(e, "pdf") {
        Route::Pdf
    } else if text::same_text(e, "md") || text::same_text(e, "markdown") || text::same_text(e, "txt")
        || text::same_text(e, "text") || text::same_text(e, "rst") || text::same_text(e, "adoc")
        || text::same_text(e, "org") || text::same_text(e, "tex") || text::same_text(e, "ipynb")
        || text::same_text(e, "html") || text::same_text(e, "htm") {
        Route::Text
    } else if text::same_text(e, "docx") || text::same_text(e, "odt") || text::same_text(e, "rtf") {
        Route::Office
    } else if text::same_text(e, "epub") || text::same_text(e, "fb2") || text::same_text(e, "fb2.zip")
        || text::same_text(e, "mobi") || text::same_text(e, "azw3") {
        Route::Ebook
    } else if text::same_text(e, "doc") {
        Route::Doc
    } else if text::same_text(e, "pages") {
        Route::Pages
    } else if text::same_text(e, "webarchive") {
        Route::Webarchive
    } else if text::same_text(e, "djvu") {
        Route::Djvu
    } else {
        Route::Unsupported
    }
}

/// What is read of a file.
#[derive(Debug)]
pub enum Reading {
    /// The pages of a PDF, or of its searchable copy.
    Pdf(Result<Vec<PageText>, String>),
    /// The bytes of a file, or of the entry of an archive.
    Bytes(Result<Vec<u8>, ReadFault>),
    Ebook(EbookReading),
    Preview(Preview),
    Archive(Result<Option<Vec<u8>>, String>),
    Converted(Converted),
    /// Nothing: the file is not supported.
    Nothing,
}

/// What a file gives without the help of converters and previews. A reading of another kind than
/// the extension calls for is not supported.
pub open spec fn plain_outcome(path: Seq<char>, reading: Reading) -> Result<BookDocV, ErrorV> {
    match (route_of(path), reading) {
        (Route::Pdf, Reading::Pdf(pages)) => match extract::pdf_outcome(path, pages) {
            Ok(d) => Ok(extract::floored_book(d)),
            Err(e) => Err(e),
        },
        (Route::Text, Reading::Bytes(read)) => extract::text_outcome(path, read),
        (Route::Office, Reading::Bytes(read)) => extract::office_outcome(path, read),
        (Route::Ebook, Reading::Ebook(e)) => ebook::ebook_outcome(path, e),
        _ => Err(ErrorV::Unsupported(path)),
    }
}

/// What a file gives.
pub open spec fn cached_outcome(path: Seq<char>, reading: Reading) -> Result<BookDocV, ErrorV> {
    match (route_of(path), reading) {
        (Route::Doc, Reading::Converted(c)) => doc_outcome(path, c),
        (Route::Pages, Reading::Preview(p)) => pages_outcome(path, p),
        (Route::Webarchive, Reading::Archive(a)) => webarchive_outcome(path, a),
        (Route::Djvu, Reading::Converted(c)) => djvu_outcome(path, c),
        (Route::Pdf, Reading::Pdf(pages)) => extract::pdf_outcome(path, pages),
        _ => plain_outcome(path, reading),
    }
}

/// Extracts a file by its extension. The book's blocks may be empty when the file holds no usable
/// text; such a book is to be skipped.
pub fn extract(path: &str, reading: Reading) -> (r: Result<BookDoc, ExtractError>)
    ensures
        extract::outcome(r) == plain_outcome(path@, reading),
{
    match (route(path), reading) {
        (Route::Pdf, Reading::Pdf(pages)) => match extract::extract_pdf(path, pages) {
            Ok(d) => Ok(
                BookDoc {
                    book_id: d.book_id,
                    title: d.title,
                    author: d.author,
                    source_path: d.source_path,
                    format: d.format,
                    blocks: sections::keep_if_enough(d.blocks),
                },
            ),
            Err(e) => Err(e),
        },
        (Route::Text, Reading::Bytes(read)) => extract::extract_text_family(path, read),
        (Route::Office, Reading::Bytes(read)) => extract::extract_office(path, read),
        (Route::Ebook, Reading::Ebook(e)) => ebook::extract_ebook(path, e),
        _ => Err(ExtractError::Unsupported(path.to_owned())),
    }
}

/// Extracts a file by its extension, with the help of converters and previews; of a scanned PDF
/// that has a searchable copy, the pages are those of the copy.
pub fn extract_with_cache(path: &str, reading: Reading) -> (r: Result<BookDoc, ExtractError>)
    ensures
        extract::outcome(r) == cached_outcome(path@, reading),
{
    match (route(path), reading) {
        (Route::Doc, Reading::Converted(c)) => extract_doc(path, c),
        (Route::Pages, Reading::Preview(p)) => extract_pages(path, p),
        (Route::Webarchive, Reading::Archive(a)) => extract_webarchive(path, a),
        (Route::Djvu, Reading::Converted(c)) => extract_djvu(path, c),
        (Route::Pdf, Reading::Pdf(pages)) => extract::extract_pdf(path, pages),
        (_, reading) => extract(path, reading),
    }
}

/// Whatever stands in for a file, the book has the identity of the file itself.
pub proof fn books_keep_the_identity_of_their_file(path: Seq<char>, reading: Reading)
    ensures
        match cached_outcome(path, reading) {
            Ok(d) => d.book_id == ids::book_id_of(path) && d.source_path == path,
            Err(_) => true,
        },
{
}

/// Apart from PDFs and previews, which are told by their pages, a book with too little text has
/// no blocks at all.
pub proof fn thin_books_have_no_blocks(path: Seq<char>, reading: Reading)
    requires
        route_of(path) != Route::Pdf,
        route_of(path) != Route::Pages,
    ensures
        match cached_outcome(path, reading) {
            Ok(d) => d.blocks.len() == 0 || sections::total_chars(d.blocks)
                >= sections::MIN_BOOK_CHARS,
            Err(_) => true,
        },
{
}

proof fn lemma_empty_pages_are_thin(n: nat)
    ensures
        thin_pages(Seq::empty(), n) == n,
    decreases n,
{
    if n > 0 {
        lemma_empty_pages_are_thin((n - 1) as nat);
    }
}

/// A book without any text looks scanned, however many pages it has.
pub proof fn books_without_text_look_scanned(pages: nat)
    ensures
        scanned(Seq::empty(), pages),
{
    lemma_empty_pages_are_thin(pages);
}

} // verus!
