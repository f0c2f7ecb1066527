//! What reading a file of each format gives.
use vstd::prelude::*;
use crate::book::{BlockV, BookDocV};
use crate::convert;
use crate::convert::Converted;
use crate::decode;
use crate::ebook;
use crate::ebook::{EpubParts, SpineV};
use crate::extract;
use crate::extract::{ErrorV, PageText, ReadFault};
use crate::formats;
use crate::formats::Format;
use crate::html;
use crate::html::DomV;
use crate::ids;
use crate::llm;
use crate::markup;
use crate::markup_laws;
use crate::passage_laws;
use crate::reach_laws;
use crate::render;
use crate::rows;
use crate::rtf;
use crate::sections;
use crate::shape;
use crate::text;
use crate::xml;

verus! {

/// A book is that of a file: it has the file's identity and path, and a format.
pub open spec fn is_of_file(d: BookDocV, path: Seq<char>, format: Format) -> bool {
    d.book_id == ids::book_id_of(path) && d.source_path == path && d.format == format
}

/// A plain text file that is read gives one block with its whole text, or none where it is too short.
pub proof fn text_files_give_their_text(path: Seq<char>, bytes: Vec<u8>)
    requires
        formats::ext_name(path) == Some("txt"@) || formats::ext_name(path) == Some("text"@),
    ensures
        ({
            let t = text::trim(decode::file_text(bytes@));
            let r = extract::text_outcome(path, Ok(bytes));
            &&& r is Ok
            &&& is_of_file(r->Ok_0, path, Format::Txt)
            &&& r->Ok_0.title == ids::title_of(path)
            &&& r->Ok_0.blocks == if t.len() >= 200 {
                seq![BlockV { text: t, chapter: None, page: None }]
            } else {
                Seq::empty()
            }
        }),
{
    reveal_strlit("txt");
    reveal_strlit("text");
    reveal_strlit("md");
    reveal_strlit("markdown");
    reveal_strlit("pdf");
    reveal_strlit("epub");
    reveal_strlit("mobi");
    reveal_strlit("azw3");
    reveal_strlit("ipynb");
    let e = formats::ext_name(path)->0;
    passage_laws::plain_texts_are_one_block(decode::file_text(bytes@), true);
    lemma_lower(e);
    assert("txt"@.len() == 3 && "text"@.len() == 4 && "md"@.len() == 2 && "markdown"@.len() == 8);
    assert("txt"@[0] == 't' && "text"@[0] == 't' && "pdf"@[0] == 'p' && "epub"@[0] == 'e'
        && "mobi"@[0] == 'm' && "azw3"@[0] == 'a' && "ipynb"@[0] == 'i' && "md"@[0] == 'm');
}

proof fn lemma_lower(e: Seq<char>)
    requires
        e == "txt"@ || e == "text"@,
    ensures
        text::lower_ascii_all(e) == e,
{
    reveal_strlit("txt");
    reveal_strlit("text");
    assert(text::lower_ascii_all(e) =~= e);
}

/// A fault in reading a file is told as what it is.
pub proof fn faults_are_told(f: ReadFault, archive: Seq<char>, entry: Seq<char>)
    ensures
        match f {
            ReadFault::Io(e) => extract::fault_error(f, archive, entry) == ErrorV::Io(e@),
            ReadFault::Archive(e) => extract::fault_error(f, archive, entry) == ErrorV::Parse(
                archive + ": "@ + e@,
            ),
            ReadFault::Entry(e) => extract::fault_error(f, archive, entry) == ErrorV::Parse(
                entry + ": "@ + e@,
            ),
        },
{
}

/// A word-processor document that can be read to its end gives a book, and one that breaks off gives
/// the reason.
pub proof fn office_documents_give_a_book_or_a_reason(
    path: Seq<char>,
    bytes: Vec<u8>,
    fault: ReadFault,
)
    ensures
        ({
            let events = xml::xml_events(bytes@, false);
            let d = extract::docx_outcome(path, Ok(bytes));
            let o = extract::odt_outcome(path, Ok(bytes));
            &&& d is Ok <==> markup::broken(events) is None
            &&& o is Ok <==> markup::broken(events) is None
            &&& d is Ok ==> is_of_file(d->Ok_0, path, Format::Docx) && d->Ok_0.blocks
                == sections::book_blocks(markup::docx_run(events).sections, false)
            &&& o is Ok ==> is_of_file(o->Ok_0, path, Format::Odt) && o->Ok_0.blocks
                == sections::book_blocks(markup::odt_run(events).sections, false)
            &&& d is Err ==> d->Err_0 == ErrorV::Parse(
                "docx: "@ + markup::broken(events)->0,
            )
            &&& o is Err ==> o->Err_0 == ErrorV::Parse("odt: "@ + markup::broken(events)->0)
            &&& extract::docx_outcome(path, Err(fault)) is Err
            &&& extract::odt_outcome(path, Err(fault)) is Err
            &&& extract::rtf_outcome(path, Err(fault)) is Err
        }),
{
}

/// A document breaks off exactly where its last event is a break.
pub proof fn documents_break_at_their_last_event(events: Seq<xml::XmlV>, m: Seq<char>)
    ensures
        markup::broken(events) == Some(m) <==> events.len() > 0 && events[events.len() - 1]
            == xml::XmlV::Broken(m),
{
}

/// An RTF document whose text is parsed gives it as one block, or none where it is too short.
pub proof fn rtf_documents_give_their_text(path: Seq<char>, bytes: Vec<u8>, t: Seq<char>)
    requires
        rtf::rtf_text(rtf::rtf_source(bytes@)) == Ok::<Seq<char>, Seq<char>>(t),
    ensures
        ({
            let r = extract::rtf_outcome(path, Ok(bytes));
            &&& r is Ok
            &&& is_of_file(r->Ok_0, path, Format::Rtf)
            &&& r->Ok_0.blocks == if text::trim(t).len() >= 200 {
                seq![BlockV { text: text::trim(t), chapter: None, page: None }]
            } else {
                Seq::empty()
            }
        }),
{
    passage_laws::plain_texts_are_one_block(t, false);
}

/// A converted Word document gives its text as one block, or none where it is too short; a DjVu
/// document that is too short is refused.
pub proof fn converted_documents_give_their_text(path: Seq<char>, bytes: Vec<u8>)
    ensures
        ({
            let t = text::trim(decode::utf8_lossy(bytes@));
            let u = convert::strict_text(bytes@);
            let d = convert::doc_outcome(path, Converted::Bytes(bytes));
            let v = convert::djvu_outcome(path, Converted::Bytes(bytes));
            &&& d is Ok
            &&& is_of_file(d->Ok_0, path, Format::Doc)
            &&& d->Ok_0.blocks == if t.len() >= 200 {
                seq![BlockV { text: t, chapter: None, page: None }]
            } else {
                Seq::empty()
            }
            &&& v is Ok <==> text::trim(u).len() >= 200
            &&& v is Ok ==> is_of_file(v->Ok_0, path, Format::Djvu) && v->Ok_0.blocks == seq![
                BlockV { text: text::trim(u), chapter: None, page: None },
            ]
        }),
{
    passage_laws::plain_texts_are_one_block(decode::utf8_lossy(bytes@), false);
    passage_laws::plain_texts_are_one_block(convert::strict_text(bytes@), false);
}

/// A PDF that is read gives a book of its pages, and one that is not gives the reason.
pub proof fn pdfs_give_their_pages(path: Seq<char>, pages: Result<Vec<PageText>, String>)
    ensures
        ({
            let r = extract::pdf_outcome(path, pages);
            match pages {
                Ok(p) => {
                    &&& r is Ok
                    &&& is_of_file(r->Ok_0, path, Format::Pdf)
                    &&& shape::picks(
                        p@.len() as int,
                        |i: int| extract::cleaned(p@[i]@.text).len() > 0,
                        |i: int|
                            BlockV {
                                text: extract::cleaned(p@[i]@.text),
                                chapter: None,
                                page: Some(p@[i]@.number),
                            },
                        r->Ok_0.blocks,
                    )
                },
                Err(e) => r == Err::<BookDocV, ErrorV>(ErrorV::Pdf(e@)),
            }
        }),
{
    if let Ok(p) = pages {
        let v = rows::vals(p@);
        let clean = extract::clean_pages(v);
        let blocks = extract::page_blocks(clean);
        crate::page_laws::no_page_is_lost(clean);
        let keep0 = |i: int| clean[i].text.len() > 0;
        let value0 = crate::page_laws::block_of(clean);
        let n = p@.len() as int;
        let at = choose|at: Seq<int>| #[trigger] shape::picked_at(n, keep0, value0, blocks, at);
        let keep = |i: int| extract::cleaned(p@[i]@.text).len() > 0;
        let value = |i: int|
            BlockV {
                text: extract::cleaned(p@[i]@.text),
                chapter: None,
                page: Some(p@[i]@.number),
            };
        assert forall|i: int| 0 <= i < n implies (#[trigger] keep(i) <==> keep0(i)) by {
            assert(clean[i].text == extract::cleaned(v[i].text));
        }
        assert forall|k: int| 0 <= k < at.len() implies 0 <= #[trigger] at[k] < n && keep(at[k])
            && blocks[k] == value(at[k]) by {
            assert(keep0(at[k]));
            assert(blocks[k] == value0(at[k]));
        }
        assert forall|i: int| 0 <= i < n && #[trigger] keep(i) implies at.contains(i) by {
            assert(keep0(i));
        }
        assert(shape::picked_at(n, keep, value, blocks, at));
    }
}

/// An EPUB gives a book with its own names and the sections of its spine, each document as plain
/// text.
pub proof fn epubs_give_their_spine(path: Seq<char>, parts: EpubParts, i: int)
    ensures
        ({
            let d = ebook::epub_book(path, parts);
            let spine = rows::vals(parts.spine@);
            &&& is_of_file(d, path, Format::Epub)
            &&& d.blocks == sections::book_blocks(
                ebook::spine_sections(rows::vals(parts.toc@), ebook::rendered(spine)),
                false,
            )
            &&& ebook::rendered(spine).len() == spine.len()
            &&& 0 <= i < spine.len() ==> ebook::rendered(spine)[i] == (SpineV {
                href: spine[i].href,
                content: if spine[i].content is Some {
                    Some(render::html_text(spine[i].content->0))
                } else {
                    None
                },
            })
        }),
{
}

/// Every visible text of a page stands in a section of it, and in its visible text.
pub proof fn pages_show_every_visible_text(nodes: Seq<DomV>, k: int)
    requires
        1 <= k < nodes.len(),
        nodes[k].kind is Text,
        markup_laws::is_shown(nodes, 1, k),
    ensures
        markup_laws::holds_text(html::html_sections(nodes), nodes[k].kind->Text_0),
        text::contains(render::visible_text(nodes), nodes[k].kind->Text_0),
{
    let t = nodes[k].kind->Text_0;
    let open = seq![sections::opening()];
    markup_laws::pages_keep_every_visible_text(nodes, 1, nodes.len() as int, open, k);
    let s = html::html_sections(nodes);
    let m = choose|m: int| 0 <= m < s.len() && text::contains((#[trigger] s[m]).body, t);
    reach_laws::visible_texts_hold_every_section(s);
    let part = reach_laws::told_parts(s);
    let out = render::told(s);
    shape::lemma_laid_holds(s.len() as int, part, out, m);
    let p = part(m);
    let a = choose|a: int|
        0 <= a && a + p.len() <= out.len() && #[trigger] out.subrange(a, a + p.len()) == p;
    let b = choose|b: int| text::occurs_at(s[m].body, t, b);
    let head = p.len() - s[m].body.len();
    assert(p.subrange(head, p.len() as int) =~= s[m].body);
    let c = a + head + b;
    assert(out.subrange(c, c + t.len()) =~= out.subrange(a, a + p.len()).subrange(
        head + b,
        head + b + t.len(),
    ));
    assert(p.subrange(head + b, head + b + t.len()) =~= p.subrange(head, p.len() as int).subrange(
        b,
        b + t.len(),
    ));
    assert(text::occurs_at(out, t, c));
}

/// A web archive that holds a page gives the sections of that page.
pub proof fn web_archives_give_their_page(path: Seq<char>, data: Result<Option<Vec<u8>>, String>)
    ensures
        match data {
            Ok(Some(b)) => {
                let r = convert::webarchive_outcome(path, data);
                &&& r is Ok
                &&& is_of_file(r->Ok_0, path, Format::Webarchive)
                &&& r->Ok_0.blocks == sections::book_blocks(
                    html::html_sections(html::html_nodes(decode::utf8_lossy(b@), true)),
                    false,
                )
            },
            _ => convert::webarchive_outcome(path, data) is Err,
        },
{
}

/// Bytes that are no UTF-8 are no text, and others are read as they were written.
pub proof fn strict_texts_are_read_as_written(t: Seq<char>, b: Seq<u8>)
    ensures
        convert::strict_text(vstd::utf8::encode_utf8(t)) == t,
        !vstd::utf8::valid_utf8(b) ==> convert::strict_text(b).len() == 0,
{
    vstd::utf8::encode_utf8_valid_utf8(t);
    vstd::utf8::encode_utf8_decode_utf8(t);
}

/// A name under a directory lies below it, with one slash between.
pub proof fn names_lie_below_their_directory(dir: Seq<char>, name: Seq<char>)
    requires
        dir.len() > 0,
        dir.last() != '/',
    ensures
        convert::path_under(dir, name) == dir + "/"@ + name,
        convert::path_under(dir.push('/'), name) == dir + "/"@ + name,
        crate::manifest::under_root(convert::path_under(dir, name), dir),
{
    reveal_strlit("/");
    assert(dir.push('/') + name =~= dir + "/"@ + name);
    assert("/"@ =~= seq!['/']);
    crate::state_laws::below_a_root_is_behind_a_slash(dir, name, 0);
    assert(dir + Seq::new(0, |i: int| '/') =~= dir);
}

/// The bytes that a searchable copy is keyed by hold the file's length and head, and the tail of a
/// file of more than 65536 bytes.
pub proof fn copies_are_keyed_by_length_head_and_tail(len: u64, head: Seq<u8>, tail: Seq<u8>)
    ensures
        ({
            let b = convert::ocr_bytes(len, head, tail);
            let n = vstd::bytes::spec_u64_to_le_bytes(len);
            &&& len <= 65536 ==> b == n + head
            &&& len > 65536 ==> b == n + head + tail
        }),
{
}

/// What is said of a refusal always tells its code.
pub proof fn refusals_tell_their_code(status: u16, body: Seq<char>)
    ensures
        text::contains(llm::refusal(status, body), text::decimal(status as nat)),
{
    let code = text::decimal(status as nat);
    let r = llm::refusal(status, body);
    let n = if status == 401 || status == 403 {
        "That model doesn't support chat — image and embedding models return "@.len() as int
    } else if status == 404 {
        "Model not found ("@.len() as int
    } else if status == 400 {
        "The provider rejected the request ("@.len() as int
    } else if status == 429 {
        "Rate limited ("@.len() as int
    } else {
        "Provider error ("@.len() as int
    };
    assert(r.subrange(n, n + code.len()) =~= code);
    assert(text::occurs_at(r, code, n));
}

/// A book keeps all its blocks where they have 200 characters or more, and none where they have fewer;
/// nothing else of it changes.
pub proof fn books_keep_their_blocks_or_none(d: BookDocV)
    ensures
        ({
            let f = extract::floored_book(d);
            &&& sections::total_chars(d.blocks) >= 200 ==> f == d
            &&& sections::total_chars(d.blocks) < 200 ==> f == (BookDocV {
                blocks: Seq::empty(),
                ..d
            })
        }),
{
}

/// A FictionBook that can be read to its end gives a book with its own title and authors, and one
/// that breaks off, or cannot be read, gives the reason.
pub proof fn fiction_books_give_a_book_or_a_reason(
    path: Seq<char>,
    bytes: Vec<u8>,
    fault: ReadFault,
)
    ensures
        ({
            let events = xml::xml_events(bytes@, true);
            let st = markup::fb2_run(events);
            let r = ebook::fb2_outcome(path, Ok(bytes));
            &&& r is Ok <==> markup::broken(events) is None
            &&& r is Ok ==> {
                &&& is_of_file(r->Ok_0, path, Format::Fb2)
                &&& r->Ok_0.blocks == sections::book_blocks(st.sections, false)
                &&& st.book_title is Some ==> r->Ok_0.title == st.book_title->0
                &&& st.book_title is None ==> r->Ok_0.title == ids::title_of(path)
                &&& r->Ok_0.author is Some <==> st.authors.len() > 0
            }
            &&& r is Err ==> r->Err_0 == ErrorV::Parse("fb2: "@ + markup::broken(events)->0)
            &&& ebook::fb2_outcome(path, Err(fault)) is Err
        }),
{
}

/// An open Mobipocket book gives its text as one block, or none where it is too short, under its own
/// names.
pub proof fn mobipocket_books_give_their_text(
    path: Seq<char>,
    body: Seq<char>,
    author: Seq<char>,
    title: Seq<char>,
)
    ensures
        ({
            let d = ebook::mobi_book(path, body, author, title);
            let t = text::trim(body);
            &&& is_of_file(d, path, Format::Mobi)
            &&& d.blocks == if text::trim(t).len() >= 200 {
                seq![BlockV { text: text::trim(t), chapter: None, page: None }]
            } else {
                Seq::empty()
            }
            &&& d.title == if text::trim(title).len() > 0 {
                text::trim(title)
            } else {
                ids::title_of(path)
            }
            &&& d.author == if text::trim(author).len() > 0 {
                Some(text::trim(author))
            } else {
                None
            }
        }),
{
    passage_laws::plain_texts_are_one_block(text::trim(body), false);
}

/// A notebook that is no JSON gives the reason, and any other the sections of its cells' Markdown.
pub proof fn notebooks_give_their_cells(raw: Seq<char>)
    ensures
        match crate::json::json_parsed(raw) {
            Err(e) => extract::notebook_outcome(raw) == Err::<Seq<sections::SectionV>, ErrorV>(
                ErrorV::Parse("ipynb: "@ + e),
            ),
            Ok(nodes) => extract::notebook_outcome(raw) == Ok::<Seq<sections::SectionV>, ErrorV>(
                sections::line_sections(
                    sections::Dialect::Markdown,
                    text::lines(
                        crate::notebook::cells_markdown(crate::notebook::cells_of(nodes)),
                    ),
                ),
            ),
        },
{
}

/// A document with cells has as many as its list, each with the kind and source that stand at its
/// place.
pub proof fn every_cell_is_found(
    nodes: Map<Seq<char>, crate::json::JsonV>,
    n: nat,
    i: int,
)
    requires
        crate::json::node_at(nodes, "/cells"@) == crate::json::JsonV::Array(n),
        0 <= i < n,
    ensures
        crate::notebook::cells_of(nodes).len() == n,
        ({
            let at = "/cells/"@ + text::decimal(i as nat) + "/"@;
            let c = crate::notebook::cells_of(nodes)[i];
            &&& match crate::json::node_at(nodes, at + "cell_type"@) {
                crate::json::JsonV::Text(k) => c.kind == Some(k),
                _ => c.kind is None,
            }
            &&& match crate::json::node_at(nodes, at + "source"@) {
                crate::json::JsonV::Text(t) => c.source == t,
                crate::json::JsonV::Array(m) => c.source == crate::notebook::joined_lines(
                    nodes,
                    at + "source"@,
                    m,
                ),
                _ => c.source.len() == 0,
            }
        }),
{
}

} // verus!
