//! Do citations hold? Labels, probes, Markdown blocks and the outcomes.
use libsearch::book::{Block, BookDoc};
use libsearch::citecheck::{
    classify_book, classify_pdf, family_of, md_blocks, md_match, script_of, BookText, Family,
    Outcome,
};
use libsearch::citemetric::{
    find_label, fold, match_label, md_norm, norm_chapter, norm_text, pick_probe, probe_of,
};
use libsearch::fnv::fnv1a;
use libsearch::formats::Format;

#[test]
fn norm_text_matches_frontend_semantics() {
    assert_eq!(norm_text("cash\u{00AD}flow"), "cashflow");
    assert_eq!(norm_text("data-\n  base systems"), "database systems");
    assert_eq!(norm_text("  a\t b\nc "), "a b c");
    assert_eq!(norm_text("програм-\nмирование"), "програм- мирование");
}

#[test]
fn norm_chapter_strips_prefixes() {
    assert_eq!(norm_chapter("Chapter 3: Sagas"), "sagas");
    assert_eq!(norm_chapter("Глава 12. Репликация"), "репликация");
    assert_eq!(norm_chapter("2.4 — Consensus"), "consensus");
    assert_eq!(norm_chapter("  Intro  "), "intro");
    assert_eq!(norm_chapter("Part V. Appendixes"), "appendixes");
    assert_eq!(
        norm_chapter("Part I. Simplify Your Projects"),
        "simplify your projects"
    );
    assert_eq!(
        norm_chapter("I. Understanding RESTful Hypermedia"),
        "understanding restful hypermedia"
    );
    assert_eq!(norm_chapter("Ideas and Index"), "ideas and index");
}

#[test]
fn find_label_tiers_handle_observed_drift() {
    let toc: Vec<String> = [
        "Change History",
        "Part I. Simplify Your Projects",
        "1. Orient; Step; Learn",
        "Part V. Appendixes",
        "3. Simplify Your Projects",
    ]
    .iter()
    .map(|s| s.to_string())
    .collect();
    let find = |stored: &str| find_label(&toc, stored);
    assert_eq!(find("Part 5: Appendixes"), Some(3));
    assert_eq!(find("Pa rt 1 Simplify Your Projects"), Some(1));
    assert_eq!(find("Orient; Step; Learn"), Some(2));
    assert_eq!(find("Completely Unrelated Heading Words"), None);
}

#[test]
fn labels_match_by_tiers() {
    let v: Vec<String> = ["alpha beta gamma", "beta gamma delta words", "short"]
        .iter()
        .map(|s| s.to_string())
        .collect();
    assert_eq!(match_label(&v, ""), None);
    assert_eq!(match_label(&v, "short"), Some(2));
    assert_eq!(match_label(&v, "beta gamma delta"), Some(1));
    assert_eq!(match_label(&v, "gamma beta alpha"), Some(0));
    assert_eq!(match_label(&v, "gamma"), None);
}

#[test]
fn probe_skips_junk_prefix_with_at_zero_fallback() {
    let cite = "() } ; the quick brown foxes jump over lazy dogs today";
    assert_eq!(probe_of(cite), "the quick brown foxes jump over lazy dogs");
    let junk = "x1 y2 } { ~ q4 z9 !! ?? aa";
    assert_eq!(probe_of(junk), "x1 y2 } { ~ q4 z9 !!");
    assert_eq!(probe_of("only three words"), "only three words");
}

#[test]
fn probes_need_eight_proper_words() {
    let words: Vec<String> = (0..10).map(|i| format!("w{i}")).collect();
    let mut proper = vec![true; 10];
    proper[0] = false;
    assert_eq!(pick_probe(&words, &proper), "w1 w2 w3 w4 w5 w6 w7 w8");
    proper[4] = false;
    assert_eq!(pick_probe(&words, &proper), "w0 w1 w2 w3 w4 w5 w6 w7");
    assert_eq!(probe_of(" \n "), "");
}

#[test]
fn md_blocks_join_inline_fragments_like_text_content() {
    let blocks = md_blocks("# Head\n\npara with **bold part** and `code` end [1]\n\n```\nfence line\n```\n- item one");
    assert_eq!(
        blocks,
        vec![
            "Head",
            "para with bold part and code end ",
            "fence line",
            "item one"
        ]
    );
    assert!(md_match("para with bold part and code", &blocks));
    assert!(md_match("bold part", &blocks));
    assert!(!md_match("text that appears nowhere in the doc", &blocks));
    assert!(md_match("Head\npara with bold part and code end", &blocks));
}

#[test]
fn md_blocks_wrap_lines_and_close_code() {
    assert_eq!(
        md_blocks("one\ntwo *it*\n1. first\n```\nopen"),
        vec!["one two it", "first", "open"]
    );
    assert_eq!(md_norm("  A\n B "), "a b");
    assert!(md_blocks("\n \n").is_empty());
}

fn doc_of(blocks: Vec<Block>) -> BookDoc {
    BookDoc {
        book_id: "b".into(),
        title: "t".into(),
        author: None,
        source_path: "/lib/t.epub".into(),
        format: Format::Epub,
        blocks,
    }
}

#[test]
fn book_classification_taxonomy() {
    let doc = doc_of(vec![
        Block::new(
            "Alpha beta gamma delta epsilon zeta eta theta".into(),
            Some("Chapter 1: Intro".into()),
            None,
        ),
        Block::new(
            "Second chapter body words entirely different content here".into(),
            Some("Chapter 2: Sagas".into()),
            None,
        ),
    ]);
    let bt = BookText::from_doc(&doc);
    assert_eq!(
        classify_book(
            Some("Intro"),
            "Alpha beta gamma delta epsilon zeta eta theta",
            &bt
        ),
        Outcome::Direct
    );
    assert_eq!(
        classify_book(
            Some("Sagas"),
            "Alpha beta gamma delta epsilon zeta eta theta",
            &bt
        ),
        Outcome::Located
    );
    assert_eq!(
        classify_book(
            Some("Intro"),
            "totally absent probe words go here now ok",
            &bt
        ),
        Outcome::MissInChapter
    );
    assert_eq!(
        classify_book(
            Some("Nope"),
            "totally absent probe words go here now ok",
            &bt
        ),
        Outcome::ColdMiss
    );
    assert_eq!(
        classify_book(
            None,
            "Second chapter body words entirely different content here",
            &bt
        ),
        Outcome::ChapterlessLocated
    );
    assert_eq!(
        classify_book(None, "totally absent probe words go here now ok", &bt),
        Outcome::ChapterlessMiss
    );
    assert_eq!(classify_book(None, " ", &bt), Outcome::ColdMiss);
}

#[test]
fn only_the_first_stretch_of_a_label_counts() {
    let b = |t: &str, c: Option<&str>| Block::new(t.into(), c.map(|s| s.to_string()), None);
    let bt = BookText::from_doc(&doc_of(vec![
        b("One", Some("A")),
        b("Two", Some("A")),
        b("Three", None),
        b("Four", Some("A")),
    ]));
    assert_eq!(bt.first_runs, vec![("a".to_string(), "one two ".to_string())]);
    assert_eq!(bt.all, "one two three four ");
}

#[test]
fn pdf_on_page_and_near() {
    let doc = doc_of(vec![
        Block::new(
            "first page words for the probe matching test here".into(),
            None,
            Some(1),
        ),
        Block::new(
            "second page other content lives here entirely now yes".into(),
            None,
            Some(2),
        ),
    ]);
    let bt = BookText::from_doc(&doc);
    let cite = "first page words for the probe matching test";
    assert_eq!(classify_pdf(Some(1), cite, &bt), Outcome::Direct);
    assert_eq!(classify_pdf(Some(2), cite, &bt), Outcome::Near);
    assert_eq!(classify_pdf(Some(9), cite, &bt), Outcome::Located);
    let absent = "totally absent probe words go here now ok";
    assert_eq!(classify_pdf(Some(1), absent, &bt), Outcome::MissInChapter);
    assert_eq!(classify_pdf(None, cite, &bt), Outcome::ChapterlessLocated);
    assert_eq!(classify_pdf(None, absent, &bt), Outcome::ChapterlessMiss);
    assert_eq!(classify_pdf(Some(0), cite, &bt), Outcome::Near);
}

#[test]
fn sampling_hash_is_stable() {
    assert_eq!(fnv1a("book-1", 42), fnv1a("book-1", 42));
    assert_ne!(fnv1a("book-1", 42), fnv1a("book-2", 42));
    assert_ne!(fnv1a("book-1", 42), fnv1a("book-1", 43));
    assert_eq!(fnv1a("", 0), 0xcbf29ce484222325);
    assert_eq!(fnv1a("a", 0), 0xaf63dc4c8601ec8c);
}

#[test]
fn family_and_script_strata() {
    assert_eq!(family_of("epub"), Family::Book);
    assert_eq!(family_of("mobi"), Family::BookUnverifiable);
    assert_eq!(family_of("md"), Family::Text);
    assert_eq!(family_of("docx"), Family::Unverified);
    assert_eq!(family_of("weird"), Family::Unknown);
    assert_eq!(script_of("Чистый Python"), "ru");
    assert_eq!(script_of("Effective Kotlin"), "en");
    assert_eq!(script_of("2024"), "en");
    assert_eq!(family_of("pdf"), Family::Pdf);
    assert_eq!(fold("ПРИВЕТ"), "привет");
}

#[test]
fn whitespace_is_collapsed_and_split_words_joined_once() {
    assert_eq!(norm_text("a-\u{a0}\n b-c- d"), "ab-cd");
    assert_eq!(norm_text("a- b- c"), "ab- c");
    assert_eq!(norm_text("кни- га"), "кни- га");
    assert_eq!(md_norm(" A\u{2003}\tB "), "a b");
}

#[test]
fn blocks_show_themselves_and_whitespace_is_never_shown() {
    let b = |v: &[&str]| v.iter().map(|s| s.to_string()).collect::<Vec<String>>();
    assert!(md_match("Some text", &b(&["other", "Some text"])));
    assert!(md_match("Some text", &b(&["Some text", "other", "more"])));
    assert!(!md_match(" \n\t ", &b(&[" ", "x"])));
    assert!(!md_match("x", &[]));
}

#[test]
fn pages_are_listed_once() {
    let doc = BookDoc {
        book_id: "b".into(),
        title: "t".into(),
        author: None,
        source_path: "/x.pdf".into(),
        format: Format::Pdf,
        blocks: vec![
            Block::new("One".into(), None, Some(2)),
            Block::new("two".into(), None, Some(1)),
            Block::new("three".into(), None, Some(2)),
            Block::new("four".into(), None, None),
        ],
    };
    let mut pages = BookText::from_doc(&doc).pages;
    pages.sort();
    assert_eq!(
        pages,
        vec![(1, "two ".to_string()), (2, "one three ".to_string())]
    );
}

#[test]
fn seeds_tell_hashes_of_a_key_apart() {
    assert_eq!(fnv1a("", 7), 0xcbf2_9ce4_8422_2325 ^ 7);
    assert_eq!(
        fnv1a("ab", 7),
        (fnv1a("a", 7) ^ u64::from(b'b')).wrapping_mul(0x100_0000_01b3)
    );
    for seed in 1..50 {
        assert_ne!(fnv1a("книга", 0), fnv1a("книга", seed));
    }
}
