//! Passages: windows of a target size that never cross chapters.
use std::collections::HashSet;

use libsearch::book::{Block, BookDoc, TokenCounter, WhitespaceCounter};
use libsearch::chunk::{chunk_book, ChunkParams};
use libsearch::formats::Format;

const P: ChunkParams = ChunkParams {
    target_tokens: 10,
    overlap_tokens: 3,
    min_tokens: 3,
};

fn para(n: usize, word: &str) -> String {
    vec![word; n].join(" ")
}

fn doc(blocks: Vec<Block>) -> BookDoc {
    BookDoc {
        book_id: "bk".into(),
        title: "T".into(),
        author: Some("A".into()),
        source_path: "/p.pdf".into(),
        format: Format::Pdf,
        blocks,
    }
}

fn words(text: &str) -> HashSet<String> {
    text.split_whitespace().map(|s| s.to_string()).collect()
}

#[test]
fn never_crosses_chapter_boundary() {
    let d = doc(vec![
        Block::new(para(8, "alpha"), Some("Ch1".into()), Some(1)),
        Block::new(para(8, "beta"), Some("Ch2".into()), Some(2)),
    ]);
    let chunks = chunk_book(&d, &WhitespaceCounter, &P);
    for c in &chunks {
        let w = words(&c.text);
        let only_alpha = w.iter().all(|x| x == "alpha");
        let only_beta = w.iter().all(|x| x == "beta");
        assert!(only_alpha || only_beta, "chunk mixed chapters: {}", c.text);
    }
    let chapters: HashSet<_> = chunks.iter().map(|c| c.chapter.clone()).collect();
    assert_eq!(chapters.len(), 2);
}

#[test]
fn window_sizes_within_bounds() {
    let body = (0..5)
        .map(|_| para(6, "w"))
        .collect::<Vec<_>>()
        .join("\n\n");
    let d = doc(vec![Block::new(body, Some("C".into()), Some(1))]);
    let chunks = chunk_book(&d, &WhitespaceCounter, &P);
    assert!(chunks.len() >= 3);
    for c in &chunks {
        assert!(WhitespaceCounter.count(&c.text) <= P.target_tokens + 6);
    }
}

#[test]
fn overlap_present_between_consecutive_chunks() {
    let body = (0..6)
        .map(|i| para(4, &format!("p{i}")))
        .collect::<Vec<_>>()
        .join("\n\n");
    let d = doc(vec![Block::new(body, Some("C".into()), Some(1))]);
    let chunks = chunk_book(&d, &WhitespaceCounter, &P);
    assert!(chunks.len() >= 2);
    let a = words(&chunks[0].text);
    let b = words(&chunks[1].text);
    assert!(a.intersection(&b).next().is_some(), "expected overlap");
}

#[test]
fn oversized_paragraph_is_split_not_truncated() {
    let d = doc(vec![Block::new(para(35, "big"), Some("C".into()), Some(1))]);
    let chunks = chunk_book(&d, &WhitespaceCounter, &P);
    let total: usize = chunks
        .iter()
        .map(|c| c.text.split_whitespace().count())
        .sum();
    assert!(total >= 35, "words lost: {total}");
}

#[test]
fn short_tail_merged() {
    let body = format!("{}\n\n{}", para(10, "w"), para(1, "tail"));
    let d = doc(vec![Block::new(body, Some("C".into()), Some(1))]);
    let chunks = chunk_book(&d, &WhitespaceCounter, &P);
    assert!(!chunks.iter().any(|c| c.text.trim() == "tail"));
    assert!(chunks.iter().any(|c| c.text.contains("tail")));
}

#[test]
fn metadata_carried_and_ids_sequential() {
    let d = doc(vec![
        Block::new(para(8, "w"), Some("Ch1".into()), Some(3)),
        Block::new(para(8, "x"), Some("Ch2".into()), Some(7)),
    ]);
    let chunks = chunk_book(&d, &WhitespaceCounter, &P);
    for c in &chunks {
        assert_eq!(c.title, "T");
        assert_eq!(c.author.as_deref(), Some("A"));
        assert_eq!(c.book_id, "bk");
        assert!(c.chapter == Some("Ch1".into()) || c.chapter == Some("Ch2".into()));
        assert!(c.page == Some(3) || c.page == Some(7));
        assert!(c.loc_end >= c.loc_start);
    }
    let ids: Vec<_> = chunks.iter().map(|c| c.id.clone()).collect();
    let expected: Vec<_> = (0..chunks.len()).map(|i| format!("bk:{i}")).collect();
    assert_eq!(ids, expected);
}

#[test]
fn cyrillic_offsets_are_char_based() {
    let body = "привет мир тест\n\nвторой абзац здесь".to_string();
    let d = doc(vec![Block::new(body, Some("Гл1".into()), None)]);
    let chunks = chunk_book(&d, &WhitespaceCounter, &P);
    assert!(!chunks.is_empty());
    assert_eq!(chunks[0].loc_start, 0);
}

#[test]
fn paragraphs_keep_their_offsets() {
    let p = ChunkParams {
        target_tokens: 3,
        overlap_tokens: 0,
        min_tokens: 1,
    };
    let body = "привет мир тест\n\nвторой абзац здесь".to_string();
    let d = doc(vec![Block::new(body, None, None)]);
    let chunks = chunk_book(&d, &WhitespaceCounter, &p);
    assert_eq!(chunks.len(), 2);
    assert_eq!((chunks[0].loc_start, chunks[0].loc_end), (0, 15));
    assert_eq!((chunks[1].loc_start, chunks[1].loc_end), (17, 35));
    assert_eq!(chunks[1].text, "второй абзац здесь");
}

#[test]
fn default_parameters() {
    let p = ChunkParams::default();
    assert_eq!((p.target_tokens, p.overlap_tokens, p.min_tokens), (400, 80, 100));
}

#[test]
fn empty_book_has_no_passages() {
    assert!(chunk_book(&doc(vec![]), &WhitespaceCounter, &P).is_empty());
}
