//! Files of every family into books.
use libsearch::book::{Block, BookDoc};
use libsearch::convert::{
    advance_doc, cache_file, cache_key, extract, extract_with_cache, looks_scanned, ocr_cache_key,
    ocr_cache_path, ocr_display_pdf, pages_display_pdf, preview_entry, start_doc, Converted,
    DocStep, DocTool, Preview, Reading, CONVERTED_EXTS,
};
use libsearch::decode::{decode_file, settle};
use libsearch::ebook::{
    cpu_directed_skip, extract_ebook, fb2_entry, EbookReading, EpubParts, MobiReading, SpineItem,
    TocPoint,
};
use libsearch::extract::{
    extract_office, extract_text_family, ExtractError, PageText, ReadFault,
};
use libsearch::formats::Format;
use libsearch::html::{DomKind, DomNode};
use libsearch::ids::stable_book_id;
use libsearch::notebook::{markdown_of, Cell};
use libsearch::render::{html_to_text, is_renderable, text_of_nodes};
use libsearch::rtf::{is_readable, text_of_rtf, unescape, MAX_COLORS};
use libsearch::sections::{apply_section_floor, scan_rst, Section, SECTION_FLOOR_CHARS};

fn body(n: usize) -> String {
    "слово word ".repeat(n)
}

fn text_book(name: &str, bytes: &[u8]) -> BookDoc {
    extract_text_family(&format!("/lib/{name}"), Ok(bytes.to_vec())).unwrap()
}

#[test]
fn md_h1_h2_become_chapters_deeper_stay_body() {
    let text = format!(
        "intro before any heading {b}\n# One\n{b}\n### Sub\n{b}\n## Two\n{b}",
        b = body(60)
    );
    let doc = text_book("a.md", text.as_bytes());
    let chapters: Vec<_> = doc.blocks.iter().map(|b| b.chapter.clone()).collect();
    assert_eq!(
        chapters,
        vec![None, Some("One".into()), Some("Two".into())],
        "H3 must not open a chapter"
    );
    assert!(doc.blocks[1].text.contains("Sub"), "H3 text stays in-body");
    assert_eq!(doc.format, Format::Md);
}

#[test]
fn heading_dense_md_respects_section_floor() {
    let mut text = String::new();
    for i in 0..30 {
        text.push_str(&format!("## Point {i}\nshort note {i}.\n"));
    }
    text.push_str(&body(80));
    let doc = text_book("dense.md", text.as_bytes());
    assert!(
        doc.blocks.len() <= 2,
        "tiny sections must merge, got {} blocks",
        doc.blocks.len()
    );
    for b in &doc.blocks {
        assert!(
            b.text.len() >= SECTION_FLOOR_CHARS,
            "block below the section floor: {} chars",
            b.text.len()
        );
    }
}

#[test]
fn cp1251_txt_decodes() {
    let (encoded, _, _) = encoding_rs::WINDOWS_1251.encode(
        "Проверка русского текста в кодировке windows-1251. Это обычный текстовый файл, \
         который должен корректно распознаться и декодироваться без ошибок чтения. \
         Дополнительный текст для преодоления минимального порога длины книги: \
         приложение индексирует только файлы с достаточным объёмом полезного текста.",
    );
    let doc = text_book("ru.txt", &encoded);
    assert_eq!(doc.blocks.len(), 1);
    assert!(doc.blocks[0].text.contains("русского текста"));
    assert_eq!(doc.format, Format::Txt);
}

#[test]
fn rst_adoc_org_tex_headings() {
    let rst = format!(
        "Title One\n=========\n{b}\nPart Two\n--------\n{b}",
        b = body(60)
    );
    let doc = text_book("a.rst", rst.as_bytes());
    assert_eq!(doc.blocks[0].chapter.as_deref(), Some("Title One"));
    assert_eq!(doc.blocks[1].chapter.as_deref(), Some("Part Two"));

    let adoc = format!("= Doc\n{b}\n== Sect\n{b}", b = body(60));
    let doc = text_book("a.adoc", adoc.as_bytes());
    assert_eq!(doc.blocks[0].chapter.as_deref(), Some("Doc"));

    let org = format!("* Top\n{b}\n** Nested\n{b}", b = body(60));
    let doc = text_book("a.org", org.as_bytes());
    assert_eq!(doc.blocks[0].chapter.as_deref(), Some("Top"));

    let tex = format!(
        "% comment only\n\\chapter{{Alpha}}\n{b}\n\\section{{Beta}}\n{b}",
        b = body(60)
    );
    let doc = text_book("a.tex", tex.as_bytes());
    assert_eq!(doc.blocks[0].chapter.as_deref(), Some("Alpha"));
    assert!(!doc.blocks[0].text.contains("comment only"));
}

fn cell(kind: &str, source: serde_json::Value) -> serde_json::Value {
    let mut m = serde_json::Map::new();
    m.insert("cell_type".into(), serde_json::Value::String(kind.into()));
    m.insert("source".into(), source);
    serde_json::Value::Object(m)
}

#[test]
fn ipynb_cells_and_html_chrome() {
    let lines = serde_json::Value::Array(vec![
        serde_json::Value::String("# Lesson\n".into()),
        serde_json::Value::String(body(60)),
    ]);
    let mut nb = serde_json::Map::new();
    nb.insert(
        "cells".into(),
        serde_json::Value::Array(vec![
            cell("markdown", lines),
            cell("code", serde_json::Value::String("print('hi')".into())),
            cell("markdown", serde_json::Value::String(body(60))),
        ]),
    );
    let nb = serde_json::Value::Object(nb);
    let doc = text_book("a.ipynb", nb.to_string().as_bytes());
    assert_eq!(doc.blocks[0].chapter.as_deref(), Some("Lesson"));
    assert!(doc.blocks[0].text.contains("print('hi')"));
    assert_eq!(doc.format, Format::Md);

    let html = format!(
        "<html><head><title>t</title><script>bad()</script></head><body>\
         <nav>menu junk</nav><h1>Guide</h1><p>{b}</p><h2>Part</h2><p>{b}</p></body></html>",
        b = body(60)
    );
    let doc = text_book("a.html", html.as_bytes());
    assert_eq!(doc.blocks[0].chapter.as_deref(), Some("Guide"));
    assert_eq!(doc.blocks[1].chapter.as_deref(), Some("Part"));
    assert!(!doc.blocks.iter().any(|b| b.text.contains("bad()")));
    assert!(!doc.blocks.iter().any(|b| b.text.contains("menu junk")));
    assert_eq!(doc.format, Format::Html);
}

#[test]
fn tiny_file_yields_empty_blocks() {
    let doc = text_book("tiny.md", b"# x\nshort");
    assert!(doc.blocks.is_empty(), "below MIN_BOOK_CHARS must skip");
}

#[test]
fn text_family_refuses_what_is_not_text() {
    assert_eq!(
        extract_text_family("/lib/noext", Ok(vec![])),
        Err(ExtractError::Unsupported("/lib/noext".into()))
    );
    assert_eq!(
        extract_text_family("/lib/a.pdf", Ok(vec![])),
        Err(ExtractError::Unsupported("pdf".into()))
    );
    assert_eq!(
        extract_text_family("/lib/a.md", Err(ReadFault::Io("denied".into()))),
        Err(ExtractError::Io("denied".into()))
    );
    let e = extract_text_family("/lib/a.ipynb", Ok(b"{".to_vec())).unwrap_err();
    assert!(e.message().starts_with("parse: ipynb: "), "{}", e.message());
}

#[test]
fn notebook_cells_become_markdown() {
    let cells = vec![
        Cell {
            kind: Some("markdown".into()),
            source: "# A".into(),
        },
        Cell {
            kind: Some("code".into()),
            source: "x = 1".into(),
        },
        Cell {
            kind: Some("code".into()),
            source: "  ".into(),
        },
        Cell {
            kind: Some("raw".into()),
            source: "gone".into(),
        },
        Cell {
            kind: None,
            source: "gone".into(),
        },
    ];
    assert_eq!(markdown_of(&cells), "# A\n```\nx = 1\n```\n");
}

fn office_body(n: usize) -> String {
    "слово word content ".repeat(n)
}

#[test]
fn docx_headings_and_ru_text() {
    let xml = format!(
        r#"<?xml version="1.0"?>
<w:document xmlns:w="http://schemas.openxmlformats.org/wordprocessingml/2006/main"><w:body>
<w:p><w:pPr><w:pStyle w:val="Heading1"/></w:pPr><w:r><w:t>Введение</w:t></w:r></w:p>
<w:p><w:r><w:t>{b}</w:t></w:r></w:p>
<w:p><w:pPr><w:pStyle w:val="Heading3"/></w:pPr><w:r><w:t>Deep sub</w:t></w:r></w:p>
<w:p><w:r><w:t>{b}</w:t></w:r></w:p>
<w:p><w:pPr><w:pStyle w:val="Heading2"/></w:pPr><w:r><w:t>Раздел два</w:t></w:r></w:p>
<w:p><w:r><w:t>{b}</w:t></w:r></w:p>
</w:body></w:document>"#,
        b = office_body(30)
    );
    let doc = extract_office("/lib/doc.docx", Ok(xml.into_bytes())).unwrap();
    assert_eq!(doc.format, Format::Docx);
    let chapters: Vec<_> = doc.blocks.iter().map(|b| b.chapter.clone()).collect();
    assert_eq!(
        chapters,
        vec![Some("Введение".into()), Some("Раздел два".into())],
        "H1/H2 chapter, H3 body"
    );
    assert!(doc.blocks[0].text.contains("Deep sub"));
}

#[test]
fn odt_outline_levels() {
    let xml = format!(
        r#"<?xml version="1.0"?>
<office:document-content xmlns:office="urn:o" xmlns:text="urn:t">
<office:body><office:text>
<text:h text:outline-level="1">Overview</text:h>
<text:p>{b}</text:p>
<text:h text:outline-level="3">Deep</text:h>
<text:p>{b}</text:p>
</office:text></office:body></office:document-content>"#,
        b = office_body(30)
    );
    let doc = extract_office("/lib/doc.odt", Ok(xml.into_bytes())).unwrap();
    assert_eq!(doc.format, Format::Odt);
    assert_eq!(doc.blocks[0].chapter.as_deref(), Some("Overview"));
    assert!(doc.blocks[0].text.contains("Deep"), "level-3 stays body");
}

#[test]
fn rtf_cp1251_escapes_decode() {
    let ru = "\\'cf\\'f0\\'ee\\'e2\\'e5\\'f0\\'ea\\'e0";
    let rtf = format!(
        "{{\\rtf1\\ansi\\ansicpg1251\\deff0 {{\\fonttbl{{\\f0 Times;}}}}\\f0 {ru} plain latin filler {}\\par}}",
        "word ".repeat(60)
    );
    let doc = extract_office("/lib/ru.rtf", Ok(rtf.into_bytes())).unwrap();
    assert_eq!(doc.format, Format::Rtf);
    assert!(
        doc.blocks[0].text.contains("Проверка"),
        "cp1251 escapes must decode, got: {}",
        doc.blocks[0].text
    );
}

#[test]
fn rtf_escapes_one_by_one() {
    assert_eq!(unescape("windows-1252", b"a\\'e9b"), "a\u{e9}b");
    assert_eq!(unescape("windows-1251", b"\\'cf\\'f0"), "Пр");
    assert_eq!(unescape("windows-1252", b"\\'+5\\'zz!"), "\u{5} !");
    assert_eq!(unescape("windows-1252", b"\\'4"), "\\'4");
}

#[test]
fn rtf_half_characters_are_refused() {
    assert!(is_readable("{\\rtf1 \\u1055 plain \\uc1 \\ul underlined}"));
    assert!(is_readable("no escapes"));
    assert!(is_readable("{\\rtf1 \\\\u55357 }"));
    assert!(is_readable("{\\rtf1 \\u99999999999 }"));
    assert!(!is_readable("{\\rtf1 \\u55357 x\\u56832 }"));
    assert!(!is_readable("{\\rtf1 \\u55357\\u56832?}"));
    assert!(!is_readable("{\\rtf1 \\u56832\\u55357 }"));
    assert!(!is_readable("{\\rtf1 \\u-10179 }"));
    assert!(!is_readable("{\\rtf1 \\u0055357;}"));
    let e = extract_office("/lib/a.rtf", Ok(b"{\\rtf1 \\u55357 }".to_vec())).unwrap_err();
    assert_eq!(e.message(), "parse: rtf: malformed control word");
}

#[test]
fn rtf_fallbacks_glued_to_halves_are_read() {
    let source = "{\\rtf1 before \\u-10179?\\u-8704? after}";
    assert!(is_readable(source));
    let text = text_of_rtf(source).unwrap();
    assert!(text.contains("before") && text.contains("after"), "{text}");
    let rtf = format!(
        "{{\\rtf1\\ansi {}\\u-10179\\'3f\\u-8704\\'3f end\\par}}",
        "word ".repeat(60)
    );
    let doc = extract_office("/lib/emoji.rtf", Ok(rtf.into_bytes())).unwrap();
    assert!(doc.blocks[0].text.contains("word word"));
    assert!(text_of_rtf("{\\rtf1 \\uc12345 x}").unwrap().contains('x'));
}

#[test]
fn rtf_groups_that_are_passed_over_may_hold_anything() {
    for source in [
        "{\\rtf1 {\\*\\x \\u-10179}text}",
        "{\\rtf1 {\n\\*\\x {\\u-10179 \\sl-2147483648}\\uc-1}text}",
        "{\\rtf1 {\\fonttbl{\\f0 A\\u55357 ;}}text}",
        "{\\rtf1 {\\stylesheet{\\s0 \\sl-2147483648 N;}}text}",
    ] {
        assert!(is_readable(source), "{source}");
        assert!(text_of_rtf(source).unwrap().contains("text"), "{source}");
    }
    assert!(!is_readable("{\\rtf1 {\\*\\x y}\\u-10179 }"));
    assert!(!is_readable("{\\rtf1 \\{\\*\\x \\u-10179 }"));
    assert!(!is_readable("{\\rtf1 {\\fonttbl1 \\u-10179 }}"));
}

#[test]
fn rtf_numbers_that_break_the_parser_are_refused() {
    assert!(!is_readable("{\\rtf1\\sl-2147483648 x}"));
    assert!(!is_readable("{\\rtf1\\sl-002147483648; x}"));
    assert!(is_readable("{\\rtf1\\sl-2147483647 x}"));
    assert!(is_readable("{\\rtf1\\sl-2147483649 x}"));
    assert!(is_readable("{\\rtf1\\slmult1 x}"));
    assert!(text_of_rtf("{\\rtf1\\sl-2147483647 x}").unwrap().contains('x'));
    assert!(!is_readable("\\uc-1"));
    assert!(!is_readable("\\uc2147483647 "));
    assert!(is_readable("\\uc2147483648 "));
    let table = |n: usize| {
        format!(
            "{{\\rtf1{{\\colortbl;{}}}x}}",
            "\\red1\\green2\\blue3;".repeat(n)
        )
    };
    assert!(is_readable(&table(MAX_COLORS)));
    assert!(text_of_rtf(&table(MAX_COLORS)).is_ok());
    assert!(!is_readable(&table(MAX_COLORS + 1)));
}

#[test]
fn rtf_pairs_are_joined() {
    for source in [
        "{\\rtf1 a \\u55357 \\u56832 b}",
        "{\\rtf1 a \\u55357\\u56832 b}",
        "{\\rtf1 a \\u-10179\\u-8704 b}",
        "{\\rtf1 a \\u55357\n\\u56832 b}",
        "{\\rtf1 a \\u55357\r\n\\u56832 b}",
        "{\\rtf1 a \\u55357;\n \n\\u56832 b}",
        "{\\rtf1 a \\uc0\\u0055357 \\u56832 b}",
    ] {
        assert!(is_readable(source), "{source}");
        let text = text_of_rtf(source).unwrap();
        assert!(text.contains('\u{1f600}'), "{source}: {text}");
    }
    assert_eq!(
        text_of_rtf("{\\rtf1 \\u55357 \\u56832\\u1055 \\u-10179 \\u-8703 }"),
        Ok("\u{1f600}П\u{1f601}".into())
    );
}

#[test]
fn office_faults_are_named() {
    assert_eq!(
        extract_office("/lib/a.docx", Err(ReadFault::Archive("bad".into()))),
        Err(ExtractError::Parse("zip: bad".into()))
    );
    assert_eq!(
        extract_office("/lib/a.odt", Err(ReadFault::Entry("not found".into()))),
        Err(ExtractError::Parse("content.xml: not found".into()))
    );
    assert_eq!(
        extract_office("/lib/a.xyz", Ok(vec![])),
        Err(ExtractError::Unsupported("/lib/a.xyz (no ext)".into()))
    );
    assert_eq!(
        extract_office("/lib/a.md", Ok(vec![])),
        Err(ExtractError::Unsupported("/lib/a.md (md)".into()))
    );
    let e = extract_office("/lib/a.docx", Ok(b"<a></b>".to_vec())).unwrap_err();
    assert!(e.message().starts_with("parse: docx: "), "{}", e.message());
}

fn ru_body(n: usize) -> String {
    "Проверка русского текста в книге. ".repeat(n)
}

fn fb2_xml() -> String {
    format!(
        r#"<?xml version="1.0" encoding="windows-1251"?>
<FictionBook xmlns="http://www.gribuser.ru/xml/fictionbook/2.0">
<description><title-info>
  <author><first-name>Лев</first-name><last-name>Толстой</last-name></author>
  <book-title>Тестовая книга</book-title>
</title-info></description>
<body>
  <section><title><p>Глава первая</p></title>
    <p>{b}</p>
    <section><title><p>Часть 1.1</p></title><p>{b}</p></section>
  </section>
  <section><title><p>Глава вторая</p></title><p>{b}</p></section>
</body>
</FictionBook>"#,
        b = ru_body(20)
    )
}

#[test]
fn fb2_cp1251_nested_sections_author_title() {
    let xml = fb2_xml();
    let (encoded, _, _) = encoding_rs::WINDOWS_1251.encode(&xml);
    let doc = extract_ebook("/lib/kniga.fb2", EbookReading::Fb2(Ok(encoded.to_vec()))).unwrap();
    assert_eq!(doc.format, Format::Fb2);
    assert_eq!(doc.title, "Тестовая книга");
    assert_eq!(doc.author.as_deref(), Some("Лев Толстой"));
    let chapters: Vec<_> = doc
        .blocks
        .iter()
        .filter_map(|b| b.chapter.as_deref())
        .collect();
    assert!(chapters.contains(&"Глава первая"), "{chapters:?}");
    assert!(chapters.contains(&"Глава вторая"), "{chapters:?}");
    assert!(chapters.contains(&"Часть 1.1"), "nested level-2 kept");
    assert!(doc.blocks[0].text.contains("русского текста"));
}

#[test]
fn fb2_zip_resolves_through_compound_ext() {
    let xml = fb2_xml();
    let (encoded, _, _) = encoding_rs::WINDOWS_1251.encode(&xml);
    let names = vec![Some("readme.txt".to_string()), None, Some("Kniga.FB2".to_string())];
    assert_eq!(fb2_entry(&names), 2);
    assert_eq!(fb2_entry(&vec![Some("other".to_string())]), 0);
    let doc = extract_ebook(
        "/lib/kniga.fb2.zip",
        EbookReading::Fb2(Ok(encoded.to_vec())),
    )
    .unwrap();
    assert_eq!(doc.format, Format::Fb2);
    assert_eq!(doc.author.as_deref(), Some("Лев Толстой"));
    assert!(!doc.blocks.is_empty());
}

#[test]
fn garbage_mobi_reports_gpu_fallback_reason() {
    let err = extract_ebook(
        "/lib/broken.mobi",
        EbookReading::Mobi(MobiReading::Broken("not a mobi".into())),
    )
    .unwrap_err();
    let msg = err.message();
    assert!(
        msg.contains("handled by Fast (GPU) indexing where available"),
        "{msg}"
    );
}

#[test]
fn protected_and_open_mobi() {
    let err = extract_ebook("/lib/a.azw3", EbookReading::Mobi(MobiReading::Protected)).unwrap_err();
    assert_eq!(err.message(), "parse: DRM-protected — cannot index");
    let html = format!("<p>{}</p>", office_body(20));
    let doc = extract_ebook(
        "/lib/a.mobi",
        EbookReading::Mobi(MobiReading::Open(Ok(html), " Ada ".into(), "  ".into())),
    )
    .unwrap();
    assert_eq!(doc.title, "a");
    assert_eq!(doc.author.as_deref(), Some("Ada"));
    assert_eq!(doc.blocks[0].chapter, None);
    assert!(!doc.blocks[0].text.contains("<p>"));
}

fn point(depth: usize, label: &str, href: &str) -> TocPoint {
    TocPoint {
        depth,
        label: label.into(),
        href: Some(href.into()),
    }
}

fn item(href: &str, html: Option<String>) -> SpineItem {
    SpineItem {
        href: Some(href.into()),
        content: html,
    }
}

#[test]
fn epub_chapters_carry_forward() {
    let page = || Some(format!("<p>{}</p>", office_body(40)));
    let parts = EpubParts {
        toc: vec![
            point(1, " One ", "/c1.xhtml#start"),
            point(1, "Again", "/c1.xhtml"),
            point(3, "Deep", "/c2.xhtml"),
            point(2, "Two", "/c3.xhtml"),
        ],
        spine: vec![
            item("/cover.xhtml", page()),
            item("/c1.xhtml", page()),
            item("/c2.xhtml", page()),
            item("/none.xhtml", None),
            item("/c3.xhtml", page()),
        ],
        creator: Some("  ".into()),
        title: Some(" My Book ".into()),
    };
    let doc = extract_ebook("/lib/b.epub", EbookReading::Epub(Ok(parts))).unwrap();
    assert_eq!(doc.title, "My Book");
    assert_eq!(doc.author, None);
    let chapters: Vec<_> = doc.blocks.iter().map(|b| b.chapter.clone()).collect();
    assert_eq!(
        chapters,
        vec![
            None,
            Some("One".to_string()),
            Some("One".to_string()),
            Some("Two".to_string())
        ]
    );
    assert_eq!(
        extract_ebook("/lib/b.epub", EbookReading::Epub(Err("x".into()))),
        Err(ExtractError::Parse("epub: x".into()))
    );
}

#[test]
fn xps_is_a_cpu_directed_skip() {
    assert!(cpu_directed_skip("xps")
        .unwrap()
        .contains("where available"));
    assert!(cpu_directed_skip("epub").is_none());
}

#[test]
fn ocr_cache_key_matches_the_python_helper() {
    let small = b"libsearch ocr key vector";
    assert_eq!(
        ocr_cache_key(small.len() as u64, small, small),
        "ffc35cad99b2a12a"
    );
    let big: Vec<u8> = (0..200_000u32).map(|i| (i % 251) as u8).collect();
    assert_eq!(
        ocr_cache_key(big.len() as u64, &big[..65536], &big[big.len() - 65536..]),
        "cfc6243be73dcb78"
    );
}

#[test]
fn cache_names() {
    assert_eq!(cache_file("/c", "k", "txt"), "/c/k.txt");
    assert_eq!(ocr_cache_path("/c/", "k"), "/c/k.ocr.pdf");
    assert_eq!(ocr_display_pdf("/c", "k", true).as_deref(), Some("/c/k.ocr.pdf"));
    assert_eq!(ocr_display_pdf("/c", "k", false), None);
    assert!(cache_key(255, b"abc").starts_with("ff-"));
    assert_ne!(cache_key(3, b"abc"), cache_key(3, b"abd"));
    assert_eq!(pages_display_pdf("/c", "k", true), Ok("/c/k.pdf".to_string()));
    assert_eq!(CONVERTED_EXTS.len(), 4);
}

#[test]
fn looks_scanned_sees_ghosts_the_whole_book_floor_misses() {
    let mut doc = BookDoc {
        book_id: "b".into(),
        title: "t".into(),
        author: None,
        source_path: "/x.pdf".into(),
        format: Format::Pdf,
        blocks: vec![],
    };
    doc.blocks.push(Block::new("x".repeat(250), None, Some(1)));
    assert!(
        looks_scanned(&doc, 20),
        "a 1-of-20-page ghost must read as scanned"
    );

    doc.blocks = (1..=20)
        .map(|p| Block::new("y".repeat(400), None, Some(p)))
        .collect();
    assert!(!looks_scanned(&doc, 20));

    doc.blocks = (1..=6)
        .map(|p| Block::new("z".repeat(400), None, Some(p)))
        .collect();
    assert!(looks_scanned(&doc, 100));

    doc.blocks.clear();
    assert!(looks_scanned(&doc, 20));
}

#[test]
fn three_thin_pages_in_five_are_a_scan() {
    let mut doc = text_book("a.md", body(60).as_bytes());
    doc.blocks = vec![
        Block::new("y".repeat(50), None, Some(1)),
        Block::new("y".repeat(50), None, Some(2)),
    ];
    assert!(looks_scanned(&doc, 5));
    assert!(!looks_scanned(&doc, 4));
    assert!(!looks_scanned(&doc, 0));
}

fn page(number: u32, text: &str) -> PageText {
    PageText {
        number,
        text: Some(text.into()),
    }
}

#[test]
fn pages_with_preview_extracts_and_keeps_original_identity() {
    let text = "The quick brown fox rehearses portfolio theory ".repeat(8);
    let names = vec![
        Some("Index/Document.iwa".to_string()),
        Some("QuickLook/Preview.pdf".to_string()),
    ];
    assert_eq!(preview_entry(&names), Some(1));
    let p = "/lib/Notes.pages";
    let doc = extract_with_cache(
        p,
        Reading::Preview(Preview::Pdf(Ok(vec![page(1, &text)]))),
    )
    .unwrap();
    assert_eq!(doc.format, Format::Pages);
    assert!(
        doc.source_path.ends_with("Notes.pages"),
        "identity = original"
    );
    assert_eq!(doc.book_id, stable_book_id(p));
    assert_eq!(doc.title, "Notes");
    assert!(doc.blocks[0].text.contains("portfolio theory"));
}

#[test]
fn pages_without_preview_reports_the_exact_reason() {
    assert_eq!(
        preview_entry(&vec![Some("Index/Document.iwa".to_string())]),
        None
    );
    let err =
        extract_with_cache("/lib/NoPreview.pages", Reading::Preview(Preview::Missing)).unwrap_err();
    assert_eq!(
        err.message(),
        "parse: .pages without embedded preview — open in Pages and export PDF"
    );
}

#[test]
fn webarchive_plist_extracts_html() {
    let body = "Сохранённая страница о распределённых системах. ".repeat(10);
    let html = format!("<html><body><h1>Заметка</h1><p>{body}</p></body></html>");
    let doc = extract_with_cache(
        "/lib/page.webarchive",
        Reading::Archive(Ok(Some(html.into_bytes()))),
    )
    .unwrap();
    assert_eq!(doc.format, Format::Webarchive);
    assert_eq!(doc.blocks[0].chapter.as_deref(), Some("Заметка"));
    assert!(doc.blocks[0].text.contains("распределённых системах"));
}

#[test]
fn webarchive_without_data_is_refused() {
    let e = extract_with_cache("/lib/p.webarchive", Reading::Archive(Ok(None))).unwrap_err();
    assert_eq!(e.message(), "parse: webarchive: no WebMainResource data");
    let e = extract_with_cache("/lib/p.webarchive", Reading::Archive(Err("x".into()))).unwrap_err();
    assert_eq!(e.message(), "parse: webarchive: x");
}

#[test]
fn djvu_without_tool_or_doc_without_converter_report_reasons() {
    let err =
        extract_with_cache("/lib/scan.djvu", Reading::Converted(Converted::Failed)).unwrap_err();
    assert!(
        err.message().contains("brew install djvulibre"),
        "{}",
        err.message()
    );
    let err =
        extract_with_cache("/lib/old.doc", Reading::Converted(Converted::Failed)).unwrap_err();
    assert!(
        err.message().contains("install antiword"),
        "{}",
        err.message()
    );
}

#[test]
fn converted_text_becomes_a_book() {
    let bytes = office_body(30).into_bytes();
    let doc = extract_with_cache(
        "/lib/old.doc",
        Reading::Converted(Converted::Bytes(bytes.clone())),
    )
    .unwrap();
    assert_eq!(doc.format, Format::Doc);
    assert_eq!(doc.blocks.len(), 1);
    let doc =
        extract_with_cache("/lib/s.djvu", Reading::Converted(Converted::Bytes(bytes))).unwrap();
    assert_eq!(doc.format, Format::Djvu);
    let thin = extract_with_cache(
        "/lib/s.djvu",
        Reading::Converted(Converted::Bytes(b"few".to_vec())),
    );
    assert!(thin.is_err());
    let lossy = extract_with_cache(
        "/lib/old.doc",
        Reading::Converted(Converted::Bytes([&[0xffu8][..], &[b'a'; 300][..]].concat())),
    )
    .unwrap();
    assert!(lossy.blocks[0].text.starts_with('\u{fffd}'));
}

#[test]
fn doc_tools_are_tried_in_order() {
    let a = start_doc();
    assert_eq!(a, DocStep::Probe(DocTool::Textutil));
    let b = advance_doc(a, false);
    assert_eq!(b, DocStep::Probe(DocTool::Antiword));
    let c = advance_doc(b, true);
    assert_eq!(c, DocStep::Convert(DocTool::Antiword));
    assert_eq!(advance_doc(c, true), DocStep::Converted);
    let d = advance_doc(c, false);
    assert_eq!(d, DocStep::Probe(DocTool::Soffice));
    assert_eq!(advance_doc(d, false), DocStep::Failed);
    assert_eq!(DocTool::Soffice.name(), "soffice");
    assert!(DocTool::Antiword.gave_text(true, true, false));
    assert!(!DocTool::Textutil.gave_text(true, true, false));
}

#[test]
fn pdf_pages_become_blocks() {
    let pages = vec![
        page(1, &office_body(20)),
        PageText {
            number: 2,
            text: None,
        },
        page(3, "hyphen-\nated"),
    ];
    let doc = extract("/lib/x.pdf", Reading::Pdf(Ok(pages))).unwrap();
    assert_eq!(doc.blocks.len(), 2);
    assert_eq!(doc.blocks[1].page, Some(3));
    assert_eq!(doc.blocks[1].text, "hyphenated");
    let thin = extract("/lib/x.pdf", Reading::Pdf(Ok(vec![page(1, "scrap")]))).unwrap();
    assert!(thin.blocks.is_empty());
    let kept = extract_with_cache("/lib/x.pdf", Reading::Pdf(Ok(vec![page(1, "scrap")]))).unwrap();
    assert_eq!(kept.blocks.len(), 1);
    let e = extract("/lib/x.pdf", Reading::Pdf(Err("broken".into()))).unwrap_err();
    assert_eq!(e.message(), "pdf: broken");
}

#[test]
fn what_nothing_reads_is_unsupported() {
    assert_eq!(
        extract("/lib/x.xps", Reading::Nothing).unwrap_err().message(),
        "unsupported format for /lib/x.xps"
    );
    assert!(extract("/lib/old.doc", Reading::Converted(Converted::Failed)).is_err());
    assert_eq!(ExtractError::Io("x".into()).message(), "io: x");
}

#[test]
fn html_is_rendered_as_text() {
    assert_eq!(html_to_text("<p>one <b>two</b></p>").trim(), "one **two**");
    let list = html_to_text("<ol start=\"7\"><li>a</li><li>b</li></ol>");
    assert!(list.contains("7. a") && list.contains("8. b"), "{list}");
    assert!(html_to_text("<ol start=\"99999999999999999999\"><li>a</li></ol>").contains("1. a"));
    let table = html_to_text(
        "<table><tr><th>x</th><th colspan=2>head</th></tr>\
         <tr><td>one</td><td>left</td><td>right</td></tr></table>",
    );
    assert!(table.contains('│') && table.contains("right"), "{table}");
    let wide = html_to_text("<table><tr><td colspan=1000000000>wide</td></tr></table>");
    assert!(wide.contains('─') && wide.contains("wide"), "{wide}");
    let aside = html_to_text(
        "<p>kept</p><noscript><div>for <b>all</b></div><table><tr><td>in it</td></tr></table></noscript>",
    );
    assert!(
        aside.contains("kept") && aside.contains("**all**") && aside.contains("in it"),
        "{aside}"
    );
    assert_eq!(html_to_text("<pre>  a\tb</pre>").trim_end(), "  a     b");
}

#[test]
fn html_that_cannot_be_laid_out_gives_its_text_as_it_stands() {
    for html in [
        "<ol start=\"9223372036854775807\"><li>word</li></ol>",
        "<ol start=\"-9223372036854775808\"></ol>word",
        "<table><tr><td colspan=18446744073709551615>word</td><td>b</td></tr></table>",
        "<table><tr><td>word</td><td colspan=2 rowspan=2>b</td></tr></table>",
        "<table><tbody><tr><td>word</td><td colspan=\"2\" rowspan=\"2\">b</td></tr></tbody>\
         <tfoot><tr><td>x</td></tr></tfoot></table>",
        "<table><tr><td rowspan=3>word word word word</td></tr></table>\
         <table><tr><td>a</td><td>b</td></tr></table>",
        "<noscript><ol start=\"9223372036854775807\"><li>a</li></ol></noscript><p>word</p>",
        "<p>word \u{2764}\u{fe0f}</p>",
        "<p>word \u{0644}\u{0627}</p>",
        "<blockquote><pre>\t</pre></blockquote>word",
    ] {
        let text = html_to_text(html);
        assert!(text.contains("word") && !text.contains('│'), "{html}: {text}");
    }
    assert_eq!(
        html_to_text("<h1>Title</h1><p>one \u{2764}\u{fe0f}</p><script>bad()</script>"),
        "\nTitle\none \u{2764}\u{fe0f}\n"
    );
}

fn element(depth: usize, name: &str, attributes: &[(&str, &str)]) -> DomNode {
    DomNode {
        depth,
        kind: DomKind::Element(
            name.into(),
            attributes
                .iter()
                .map(|a| (a.0.to_string(), a.1.to_string()))
                .collect(),
        ),
    }
}

fn text(depth: usize, s: &str) -> DomNode {
    DomNode {
        depth,
        kind: DomKind::Text(s.into()),
    }
}

#[test]
fn layout_is_judged_by_the_nodes() {
    assert!(is_renderable(&vec![element(5, "td", &[("rowspan", "1"), ("colspan", "2")])]));
    assert!(!is_renderable(&vec![element(5, "td", &[("rowspan", "2")])]));
    assert!(is_renderable(&vec![element(5, "td", &[("colspan", "0")])]));
    assert!(is_renderable(&vec![element(2, "ol", &[("start", "-5")])]));
    assert!(!is_renderable(&vec![element(
        2,
        "ol",
        &[("start", "9223372036854775807")]
    )]));
    assert!(!is_renderable(&vec![element(2, "img", &[("alt", "a\u{200d}")])]));
    assert!(!is_renderable(&vec![element(2, "pre", &[]), text(3, "\t")]));
    assert!(is_renderable(&vec![element(2, "pre", &[]), text(3, " \n")]));
    assert!(is_renderable(&vec![
        element(2, "pre", &[]),
        text(3, "\t"),
        element(3, "code", &[]),
        text(4, "x")
    ]));
    assert!(!is_renderable(&vec![
        element(2, "pre", &[]),
        text(3, "\t"),
        element(3, "svg", &[]),
        text(4, "x")
    ]));
    assert_eq!(
        text_of_nodes(&vec![
            element(0, "html", &[]),
            element(1, "h2", &[]),
            text(2, "Part"),
            element(1, "p", &[]),
            text(2, "body")
        ]),
        "\nPart\nbody\n"
    );
}

fn section(heading: Option<&str>, body: &str) -> Section {
    Section {
        heading: heading.map(String::from),
        body: body.into(),
    }
}

#[test]
fn the_section_floor_counts_characters() {
    let merged = apply_section_floor(vec![
        section(None, &"a".repeat(480)),
        section(Some("H"), &"я".repeat(300)),
    ]);
    assert_eq!(
        merged,
        vec![section(
            None,
            &format!("{}\nH\n{}", "a".repeat(480), "я".repeat(300))
        )]
    );
}

#[test]
fn an_underline_is_as_long_as_its_title() {
    assert_eq!(
        scan_rst("Title\n====\nbody\n"),
        vec![section(None, "Title\n====\nbody\n")]
    );
    assert_eq!(
        scan_rst("Глава\n=====\nbody\n"),
        vec![section(None, ""), section(Some("Глава"), "body\n")]
    );
    assert_eq!(
        scan_rst("ab\n--\n"),
        vec![section(None, "ab\n--\n")]
    );
}

#[test]
fn latin1_is_the_last_resort() {
    assert_eq!(settle(b"\xff\x41", Some(("?A".into(), true))), "\u{ff}A");
    assert_eq!(settle(b"\xff\x41", Some(("kept".into(), false))), "kept");
    assert_eq!(settle(b"\xe9", None), "\u{e9}");
    assert_eq!(decode_file("ключ".as_bytes()), "ключ");
}
