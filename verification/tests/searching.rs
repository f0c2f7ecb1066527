//! From questions to cited results.
use libsearch::ask::{
    continue_search, retrieve, save_artifact, start_search, start_search_multi, Ask, AskStep,
    SearchStep,
};
use libsearch::bridge::{
    artifacts_dir, build_llm, check_models, check_settings, collection_label, conversation_title,
    default_collection, find_collection, keep_relevant, model_or_default, new_collection,
    new_title, openai_compat_base, reranker_dir, set_collection_paths, to_citation, Client,
    NO_MATCH,
};
use libsearch::catalog::{
    book_catalog, book_path_pairs, book_paths, book_titles, chunk_texts, indexed_book_ids,
    scan_chunk_meta,
};
use libsearch::chunk::Chunk;
use libsearch::formats::Format;
use libsearch::manifest::Db;
use libsearch::query::{
    candidates_per_store, format_citation, keep_distinct, rerank, rrf_fuse, SearchResult,
};
use libsearch::settings::{relevance_key, ProviderCreds, ProviderEntry, Settings};
use libsearch::spell::{correct_query, edit_distance, likeliest_word};
use libsearch::store::{
    book_predicate, check_vectors, chunks_to_batch, chunks_with_vectors, fuzzy_tokens, quote,
    row_of_chunk, rows_from_batch, RetrievedChunk, StoreError, VECTOR_DIM,
};
use libsearch::stream::Usage;
use libsearch::types::{Collection, Conversation, Role};

fn passage(text: &str) -> RetrievedChunk {
    RetrievedChunk {
        id: "b:1".into(),
        book_id: "b".into(),
        title: "T".into(),
        author: None,
        source_path: "/x".into(),
        format: Some(Format::Pdf),
        chapter: None,
        page: None,
        loc_start: 0,
        loc_end: 1,
        text: text.into(),
    }
}

#[test]
fn edit_distance_basics() {
    assert_eq!(edit_distance("investmenet", "investment"), 1);
    assert_eq!(edit_distance("kitten", "sitting"), 3);
    assert_eq!(edit_distance("same", "same"), 0);
}

#[test]
fn edit_distance_is_symmetric_and_counts_characters() {
    assert_eq!(edit_distance("sitting", "kitten"), 3);
    assert_eq!(edit_distance("", "abc"), 3);
    assert_eq!(edit_distance("сага", "саго"), 1);
}

#[test]
fn corrects_typo_to_corpus_word() {
    let cands = [passage(
        "Investment essentials: the investment domain and profitable investments for engineers.",
    )];
    assert_eq!(
        correct_query("investmenet for engineers", &cands),
        "investment for engineers"
    );
}

#[test]
fn leaves_known_and_short_words_untouched() {
    let cands = [passage("saga pattern and idempotence in microservices")];
    assert_eq!(
        correct_query("saga pattern xyz", &cands),
        "saga pattern xyz"
    );
}

#[test]
fn the_likeliest_word_is_near_and_frequent() {
    let vocab: Vec<String> = ["cart", "card", "card", "care"]
        .iter()
        .map(|s| s.to_string())
        .collect();
    assert_eq!(likeliest_word(&vocab, "carx"), Some("card".to_string()));
    assert_eq!(likeliest_word(&vocab, "zarx"), None);
    assert_eq!(likeliest_word(&vocab[..1].to_vec(), "card"), Some("cart".to_string()));
}

fn chunk(id: &str, format: Format, page: Option<u32>, chapter: Option<&str>) -> RetrievedChunk {
    RetrievedChunk {
        id: id.into(),
        book_id: "b".into(),
        title: "The Book".into(),
        author: Some("Ada".into()),
        source_path: "/x".into(),
        format: Some(format),
        chapter: chapter.map(String::from),
        page,
        loc_start: 1234,
        loc_end: 1300,
        text: "passage".into(),
    }
}

#[test]
fn citation_pdf_uses_page() {
    let c = chunk("b:1", Format::Pdf, Some(42), Some("Intro"));
    assert_eq!(format_citation(&c), "The Book — Ada · Ch. Intro, p.42");
}

#[test]
fn citation_epub_uses_chapter_no_page() {
    let c = chunk("b:1", Format::Epub, None, Some("Deep Dive"));
    assert_eq!(format_citation(&c), "The Book — Ada · Ch. Deep Dive");
}

#[test]
fn citation_falls_back_to_loc() {
    let mut c = chunk("b:1", Format::Epub, None, None);
    c.author = None;
    assert_eq!(format_citation(&c), "The Book · ~loc 1234");
}

#[test]
fn citation_without_a_place_is_the_book() {
    let mut c = chunk("b:1", Format::Epub, None, Some(""));
    c.author = Some(String::new());
    assert_eq!(format_citation(&c), "The Book");
    c.chapter = None;
    c.loc_start = -5;
    assert_eq!(format_citation(&c), "The Book · ~loc -5");
}

#[test]
fn rrf_prefers_items_ranked_high_in_both_lists() {
    let a = vec![
        chunk("x", Format::Pdf, Some(1), None),
        chunk("y", Format::Pdf, Some(2), None),
    ];
    let b = vec![
        chunk("y", Format::Pdf, Some(2), None),
        chunk("z", Format::Pdf, Some(3), None),
    ];
    let fused = rrf_fuse(&[a, b], 3);
    assert_eq!(fused[0].id, "y");
    assert_eq!(fused.len(), 3);
}

#[test]
fn fusion_keeps_the_best_and_the_first_form() {
    let mut other = chunk("x", Format::Pdf, Some(9), None);
    other.title = "Other".into();
    let a = vec![
        chunk("x", Format::Pdf, Some(1), None),
        chunk("y", Format::Pdf, Some(2), None),
    ];
    let fused = rrf_fuse(&[a, vec![other]], 1);
    assert_eq!(fused.len(), 1);
    assert_eq!(fused[0].id, "x");
    assert_eq!(fused[0].title, "The Book");
    assert!(rrf_fuse(&[], 5).is_empty());
}

#[test]
fn results_are_numbered_by_relevance() {
    let cands = vec![
        chunk("low", Format::Pdf, Some(1), None),
        chunk("high", Format::Pdf, Some(2), None),
        chunk("tie", Format::Pdf, Some(3), None),
    ];
    let r = rerank(cands, &vec![1, 9, 1], 2);
    assert_eq!(r.len(), 2);
    assert_eq!((r[0].id.as_str(), r[0].rank, r[0].score), ("high", 1, 9));
    assert_eq!((r[1].id.as_str(), r[1].rank), ("low", 2));
    assert_eq!(r[0].citation, "The Book — Ada · p.2");
}

#[test]
fn relevance_keys_order_like_numbers() {
    let key = |x: f32| relevance_key(x.to_bits()).unwrap();
    let rising = [f32::NEG_INFINITY, -2.5, -0.1, 0.0, 0.15, 0.5, 1.0, f32::INFINITY];
    for w in rising.windows(2) {
        assert!(key(w[0]) < key(w[1]), "{w:?}");
    }
    assert_eq!(key(0.0), key(-0.0));
    assert_eq!(relevance_key(f32::NAN.to_bits()), None);
    assert_eq!(key(0.15), Settings::default().min_relevance);
}

fn result(id: &str, score: i64) -> SearchResult {
    SearchResult {
        rank: 7,
        score,
        text: format!("text of {id}"),
        citation: format!("cite {id}"),
        title: "T".into(),
        author: None,
        chapter: None,
        page: Some(3),
        source_path: "/p".into(),
        book_id: "b".into(),
        id: id.into(),
    }
}

#[test]
fn weak_matches_are_dropped_and_numbers_closed() {
    let r = keep_relevant(vec![result("a", 5), result("b", 1), result("c", 4)], 4);
    let got: Vec<(&str, usize)> = r.iter().map(|x| (x.id.as_str(), x.rank)).collect();
    assert_eq!(got, vec![("a", 1), ("c", 2)]);
    let c = to_citation(&r[1]);
    assert_eq!((c.rank, c.citation.as_str(), c.page), (2, "cite c", Some(3)));
}

#[test]
fn stores_share_the_candidates() {
    assert_eq!(candidates_per_store(24, 2), 12);
    assert_eq!(candidates_per_store(24, 10), 6);
    let v = vec![passage("one"), passage("two")];
    assert_eq!(keep_distinct(v).len(), 1);
}

#[test]
fn a_misspelled_search_is_repeated_once() {
    let found = || vec![passage("investment domain for engineers")];
    match start_search("investmenet", 24) {
        SearchStep::Retrieve(q, k) => assert_eq!((q.as_str(), k), ("investmenet", 24)),
        other => panic!("{other:?}"),
    }
    match continue_search("investmenet", 24, true, found()) {
        SearchStep::Retrieve(q, k) => assert_eq!((q.as_str(), k), ("investment", 24)),
        other => panic!("{other:?}"),
    }
    match continue_search("investmenet", 24, false, found()) {
        SearchStep::Rerank(q, v) => {
            assert_eq!(q, "investmenet");
            assert_eq!(v.len(), 1);
        }
        other => panic!("{other:?}"),
    }
    assert!(start_search_multi("q", 24, 0).is_none());
    match start_search_multi("q", 24, 3) {
        Some(SearchStep::Retrieve(_, k)) => assert_eq!(k, 8),
        other => panic!("{other:?}"),
    }
}

#[test]
fn retrieval_does_without_a_text_index() {
    let r = retrieve(vec![chunk("x", Format::Pdf, None, None)], None, None, 5);
    assert_eq!(r.len(), 1);
}

fn stored_chunk(
    id: &str,
    book_id: &str,
    chapter: Option<&str>,
    page: Option<u32>,
    text: &str,
) -> Chunk {
    Chunk {
        id: id.into(),
        book_id: book_id.into(),
        title: format!("{book_id} title"),
        author: None,
        source_path: format!("/lib/{book_id}.epub"),
        format: Format::Epub,
        chapter: chapter.map(Into::into),
        page,
        loc_start: 0,
        loc_end: text.len(),
        text: text.into(),
    }
}

#[test]
fn scan_meta_and_fetch_texts_round_trip() {
    let chunks = vec![
        stored_chunk("a:0", "a", Some("Intro"), None, "alpha text"),
        stored_chunk("a:1", "a", None, Some(7), "beta text"),
        stored_chunk("b:0", "b", Some("Глава 1"), None, "gamma text"),
    ];
    let dims = vec![Some(1024usize); 3];
    let rows = chunks_to_batch(&chunks, &dims).unwrap();

    let mut meta = scan_chunk_meta(&rows);
    meta.sort_by(|x, y| x.id.cmp(&y.id));
    assert_eq!(meta.len(), 3);
    assert_eq!(meta[0].chapter.as_deref(), Some("Intro"));
    assert_eq!(meta[0].page, None);
    assert_eq!(meta[1].chapter, None, "empty chapter reads back as None");
    assert_eq!(meta[1].page, Some(7));
    assert_eq!(meta[2].chapter.as_deref(), Some("Глава 1"));
    assert_eq!(meta[2].format, "epub");
    assert_eq!(meta[2].source_path, "/lib/b.epub");

    let texts: std::collections::HashMap<String, String> =
        chunk_texts(&rows, &vec!["a:1".to_string(), "b:0".to_string()])
            .into_iter()
            .collect();
    assert_eq!(texts.len(), 2);
    assert_eq!(texts.get("a:1").map(String::as_str), Some("beta text"));
    assert_eq!(texts.get("b:0").map(String::as_str), Some("gamma text"));
    assert!(!texts.contains_key("a:0"));
}

#[test]
fn stored_passages_read_back() {
    let c = stored_chunk("a:0", "a", None, Some(7), "alpha");
    let row = row_of_chunk(&c);
    assert_eq!((row.page, row.chapter.as_str(), row.author.as_str()), (7, "", ""));
    let back = chunks_with_vectors(&vec![row]);
    assert_eq!(back[0], c);
    let row = row_of_chunk(&stored_chunk("a:1", "a", Some("C"), None, "beta"));
    assert_eq!(row.page, -1);
    let found = rows_from_batch(&vec![row]);
    assert_eq!(found[0].format, Some(Format::Epub));
    assert_eq!(found[0].chapter.as_deref(), Some("C"));
    assert_eq!(found[0].page, None);
}

#[test]
fn vectors_must_be_there_and_fit() {
    assert_eq!(VECTOR_DIM, 1024);
    assert_eq!(check_vectors(&vec![("a".to_string(), Some(1024))]), Ok(()));
    assert_eq!(
        check_vectors(&vec![("a".to_string(), Some(1024)), ("b".to_string(), None)]),
        Err(StoreError::Schema("chunk b has no vector".into()))
    );
    assert_eq!(
        check_vectors(&vec![("a".to_string(), Some(3)), ("b".to_string(), None)]),
        Err(StoreError::Schema("chunk a vector dim 3".into()))
    );
    assert_eq!(StoreError::Stream("x".into()).message(), "result stream: x");
    assert_eq!(StoreError::Lance("x".into()).message(), "x");
}

#[test]
fn quotes_are_doubled() {
    assert_eq!(quote("it's"), "'it''s'");
    assert_eq!(quote("''"), "''''''");
    assert_eq!(book_predicate("o'b"), "book_id = 'o''b'");
}

#[test]
fn fuzzy_search_looks_for_plain_words() {
    assert_eq!(
        fuzzy_tokens("Rust-based сага (v2)!"),
        vec!["Rust", "based", "v2"]
    );
    assert!(fuzzy_tokens("сага").is_empty());
}

#[test]
fn titles_come_by_coverage_then_name() {
    let t = |s: &str| Some(s.to_string());
    let v = book_titles(&vec![t("b"), t("a"), None, t("c"), t("c")]);
    let got: Vec<(&str, usize)> = v.iter().map(|x| (x.title.as_str(), x.chunks)).collect();
    assert_eq!(got, vec![("c", 2), ("a", 1), ("b", 1)]);
}

#[test]
fn the_catalog_counts_passages_and_finds_first_pages() {
    let mut rows = vec![
        row_of_chunk(&stored_chunk("a:0", "a", Some(" Intro "), Some(9), "x")),
        row_of_chunk(&stored_chunk("a:1", "a", Some("Intro"), Some(4), "y")),
        row_of_chunk(&stored_chunk("a:2", "a", Some("Intro"), None, "y")),
        row_of_chunk(&stored_chunk("b:0", "b", None, Some(1), "z")),
    ];
    rows[1].author = "later".into();
    let (books, chapters) = book_catalog(&rows);
    let got: Vec<(&str, usize)> = books.iter().map(|b| (b.book_id.as_str(), b.chunks)).collect();
    assert_eq!(got, vec![("a", 3), ("b", 1)]);
    assert_eq!(books[0].author, "");
    assert_eq!(chapters.len(), 1);
    assert_eq!(chapters[0].chapter, "Intro");
    assert_eq!(chapters[0].page, Some(4));
}

#[test]
fn books_and_their_paths() {
    let s = |x: &str| Some(x.to_string());
    let scan = vec![
        (s("a"), s("/1")),
        (s("a"), s("/2")),
        (None, s("/3")),
        (s("b"), s("/1")),
        (s("a"), s("/1")),
    ];
    assert_eq!(
        book_paths(&scan),
        vec![
            ("a".to_string(), "/1".to_string()),
            ("b".to_string(), "/1".to_string())
        ]
    );
    assert_eq!(book_path_pairs(&scan).len(), 3);
    assert_eq!(indexed_book_ids(&vec![s("b"), None, s("a"), s("b")]), vec!["b", "a"]);
}

fn settings(provider: &str, key: &str, model: &str) -> Settings {
    let mut s = Settings::default();
    s.llm_provider = provider.into();
    s.providers = vec![ProviderEntry {
        provider: provider.into(),
        creds: ProviderCreds {
            api_key: key.into(),
            model: model.into(),
        },
    }];
    s
}

#[test]
fn missing_file_yields_defaults() {
    let s = Settings::default();
    assert_eq!(s.models_dir, "models");
    assert_eq!(s.ollama_host, "http://localhost:11434");
    assert_eq!(s.ollama_model, "gemma4:12b-mlx");
    assert_eq!(s.llm_provider, "ollama");
    assert_eq!((s.hybrid_top_k, s.final_top_k), (24, 8));
    assert_eq!(s.gpu_device, "mps");
    assert!(s.memory_enabled);
    assert_eq!(s, Settings::default());
}

#[test]
fn providers_choose_client_and_model() {
    assert_eq!(openai_compat_base("openai"), Some("https://api.openai.com/v1"));
    assert_eq!(openai_compat_base("ollama"), None);
    assert_eq!(
        build_llm(&Settings::default()),
        Client::Ollama("http://localhost:11434".into())
    );
    assert_eq!(
        build_llm(&settings("anthropic", "k", "")),
        Client::Anthropic("k".into())
    );
    assert_eq!(
        build_llm(&settings("fireworks", "k", "m")),
        Client::OpenAiCompat("https://api.fireworks.ai/inference/v1".into(), "k".into())
    );
    assert_eq!(Settings::default().default_model("f"), "gemma4:12b-mlx");
    assert_eq!(settings("anthropic", "k", "").default_model("f"), "f");
    assert_eq!(settings("anthropic", "k", "m").default_model("f"), "m");
    assert_eq!(settings("openai", "k", "m").default_model("f"), "m");
    assert_eq!(model_or_default("  ", &Settings::default(), "f"), "gemma4:12b-mlx");
    assert_eq!(model_or_default(" x", &Settings::default(), "f"), " x");
    assert_eq!(settings("openai", "k", "m").creds("gemini"), ProviderCreds::default());
}

#[test]
fn readiness_is_told() {
    assert!(check_settings(&Settings::default()).is_none());
    let s = check_settings(&settings("openai", " ", "m")).unwrap();
    assert_eq!((s.ok, s.message.as_str()), (false, "No openai API key — add one in Settings"));
    let s = check_settings(&settings("anthropic", "k", "")).unwrap();
    assert_eq!((s.ok, s.message.as_str()), (true, "Anthropic key set"));
    let some: Result<Vec<String>, String> = Ok(vec!["a".into(), "b".into()]);
    assert_eq!(check_models("openai", "", &some).message, "openai reachable · 2 model(s)");
    assert_eq!(
        check_models("openai", "", &Err("500".into())).message,
        "openai: key set — using your configured model"
    );
    assert_eq!(check_models("ollama", " a ", &some).message, "Ollama up · 2 model(s)");
    let s = check_models("ollama", "zz", &some);
    assert_eq!(
        (s.ok, s.message.as_str()),
        (false, "'zz' not pulled — run `ollama pull zz`")
    );
    assert_eq!(
        check_models("ollama", "", &Err("refused".into())).message,
        "Ollama unreachable — is it running? (refused)"
    );
}

#[test]
fn titles_are_trimmed_and_short() {
    assert_eq!(conversation_title("   "), "New conversation");
    assert_eq!(conversation_title(&"x".repeat(100)).len(), 80);
    assert_eq!(new_title(" t "), Ok("t".to_string()));
    assert_eq!(new_title(" "), Err("title cannot be empty".to_string()));
}

#[test]
fn directories_are_resolved() {
    assert_eq!(artifacts_dir("/abs", "/data"), "/abs");
    assert_eq!(artifacts_dir("artifacts", "/data"), "/data/artifacts");
    assert_eq!(reranker_dir("/m", true), "/m/bge-reranker-v2-m3-int8");
    assert_eq!(reranker_dir("/m", false), "/m/bge-reranker-v2-m3");
    assert_eq!(default_collection("/data").db_path, "/data/lancedb");
}

fn world() -> (Db, Vec<Collection>) {
    let mut db = Db::open_in_memory().unwrap();
    db.upsert_collection(&new_collection("1", "Zoo", vec!["/z".into()], "/data"))
        .unwrap();
    db.upsert_collection(&new_collection("2", "Art", vec![], "/data"))
        .unwrap();
    db.create_conversation(
        &Conversation {
            id: "conv".into(),
            title: "t".into(),
            collection_ids: vec![],
        },
        1,
    )
    .unwrap();
    let all = db.list_collections().unwrap();
    (db, all)
}

#[test]
fn collections_are_found_and_changed() {
    let (mut db, all) = world();
    assert_eq!(find_collection(&all, "1").unwrap().db_path, "/data/collections/1");
    assert_eq!(
        find_collection(&all, "9"),
        Err("collection 9 not found".to_string())
    );
    let c = set_collection_paths(&mut db, "2", vec!["/new".into()]).unwrap();
    assert_eq!(c.source_paths, vec!["/new"]);
    assert!(set_collection_paths(&mut db, "9", vec![]).is_err());
    assert_eq!(
        collection_label(&all, &vec!["1".to_string(), "2".to_string()]),
        "Art, Zoo"
    );
    assert_eq!(collection_label(&all, &vec![]), "Library");
}

#[test]
fn a_question_is_kept_and_answered() {
    let (mut db, _) = world();
    let ids = vec!["1".to_string()];
    assert_eq!(
        Ask::start(&mut db, &vec!["9".to_string()], "conv", "q?", "m0".into()).unwrap_err(),
        "no valid collection selected"
    );
    let ask = Ask::start(&mut db, &ids, "conv", "first?", "m1".into()).unwrap();
    assert_eq!(ask.collections.len(), 1);
    assert!(ask.history.is_empty());
    let step = ask
        .found(&mut db, vec![], &Settings::default(), "", "f", "m2".into())
        .unwrap();
    assert!(matches!(step, AskStep::NoMatch(_)));
    let ask = Ask::start(&mut db, &ids, "conv", "second?", "m3".into()).unwrap();
    assert_eq!(ask.history.len(), 2);
    assert_eq!(ask.history[1].content, NO_MATCH);
    let min = Settings::default().min_relevance;
    let found = vec![result("a", min), result("weak", min - 1)];
    let step = ask
        .found(&mut db, found, &Settings::default(), "", "f", "m4".into())
        .unwrap();
    let (model, prompt, results) = match step {
        AskStep::Generate(m, p, r) => (m, p, r),
        other => panic!("{other:?}"),
    };
    assert_eq!(model, "gemma4:12b-mlx");
    assert!(prompt.contains("[1] cite a"));
    assert!(!prompt.contains("weak"));
    assert!(prompt.contains("User: first?"));
    let usage = Usage {
        in_tokens: 5,
        out_tokens: 6,
    };
    ask.answered(&mut db, "answer [1]", &results, usage, "m5".into())
        .unwrap();
    let msgs = db.list_messages("conv").unwrap();
    assert_eq!(msgs.len(), 4);
    assert_eq!(msgs[3].role, Role::Assistant);
    assert_eq!(msgs[3].citations.len(), 1);
    assert_eq!(msgs[3].out_tokens, 6);
    assert!(ask
        .answered(&mut db, "again", &results, usage, "m5".into())
        .is_err());
    assert!(Ask::start(&mut db, &ids, "nowhere", "q", "m6".into()).is_err());
}

#[test]
fn answers_are_kept_as_documents() {
    let (_, all) = world();
    let (path, content) = save_artifact(
        &all,
        &vec!["1".to_string()],
        "What now?",
        "This.",
        "",
        "2026",
        vec![],
        &Settings::default(),
        "f",
        "/data",
        &vec!["what-now.md".to_string()],
    );
    assert_eq!(path, "/data/artifacts/what-now-2.md");
    assert!(content.contains("collection: \"Zoo\""));
    assert!(content.contains("model: \"gemma4:12b-mlx\""));
}

#[test]
fn two_edits_are_for_more_than_five_characters() {
    assert_eq!(correct_query("кнопа", &[passage("книга")]), "кнопа");
    assert_eq!(correct_query("книгга", &[passage("книга")]), "книга");
    assert_eq!(correct_query("кот", &[passage("коты")]), "кот");
    assert_eq!(correct_query("котт", &[passage("кот")]), "кот");
}

#[test]
fn edit_distance_is_a_metric() {
    let words = ["", "a", "ab", "ba", "kitten", "sitting", "кит"];
    for a in words {
        for b in words {
            assert_eq!(edit_distance(a, b) == 0, a == b);
            for c in words {
                assert!(edit_distance(a, c) <= edit_distance(a, b) + edit_distance(b, c));
            }
        }
    }
}
