//! Runs of indexing, their counts and their reports.
use libsearch::book::{Block, BookDoc, WhitespaceCounter};
use libsearch::chunk::ChunkParams;
use libsearch::extract::ExtractError;
use libsearch::fast::{helper_command, parse_py_progress, FastAction, FastRun, PyProgress};
use libsearch::formats::Format;
use libsearch::manifest::{Db, CURRENT_CHUNKER_VER};
use libsearch::plan::{EmbedItem, IndexPlan, PreSkip, RemapAction, SkipReason, StateRefresh};
use libsearch::run::{Action, IndexEvent, IndexRun, Phase};
use libsearch::service::{
    apply_plan, backfill_book_state, prepare_run, SeedFile, ServiceError,
};
use libsearch::stats::{FormatCount, IndexStats};
use libsearch::types::Collection;

fn count(ext: &str, indexed: usize, skipped: usize) -> FormatCount {
    FormatCount {
        ext: ext.into(),
        indexed,
        skipped,
    }
}

#[test]
fn stats_merge_sums_fields_and_by_format() {
    let mut a = IndexStats {
        books_indexed: 2,
        books_unchanged: 10,
        books_skipped: 1,
        books_failed: 0,
        chunks_written: 40,
        forced: 1,
        by_format: vec![count("pdf", 2, 10)],
    };
    let b = IndexStats {
        books_indexed: 1,
        books_unchanged: 0,
        books_skipped: 2,
        books_failed: 1,
        chunks_written: 8,
        forced: 2,
        by_format: vec![count("doc", 1, 2), count("pdf", 0, 1)],
    };
    a.merge(b);
    assert_eq!(a.books_indexed, 3);
    assert_eq!(a.books_unchanged, 10);
    assert_eq!(a.books_skipped, 3);
    assert_eq!(a.books_failed, 1);
    assert_eq!(a.chunks_written, 48);
    assert_eq!(a.forced, 3);
    assert_eq!(a.format_count("pdf"), (2, 11));
    assert_eq!(a.format_count("doc"), (1, 2));
}

#[test]
fn files_are_counted_by_extension() {
    let mut s = IndexStats::default();
    s.count_format("/a.pdf", true);
    s.count_format("/b.md", false);
    s.count_format("/c.unknown", false);
    s.count_format("/d.PDF", false);
    assert_eq!(s.format_count("pdf"), (1, 1));
    assert_eq!(s.format_count("md"), (0, 1));
    assert_eq!(s.format_count("other"), (0, 1));
    assert_eq!(s.format_count("txt"), (0, 0));
    let exts: Vec<&str> = s.by_format.iter().map(|c| c.ext.as_str()).collect();
    assert_eq!(exts, vec!["md", "other", "pdf"]);
}

fn item(path: &str) -> EmbedItem {
    EmbedItem {
        path: path.into(),
        fingerprint: "1:1".into(),
        content_sig: "sig".into(),
    }
}

fn skip(path: &str, reason: SkipReason) -> PreSkip {
    PreSkip {
        path: path.into(),
        reason,
    }
}

fn doc(path: &str, words: usize) -> BookDoc {
    BookDoc {
        book_id: "fresh".into(),
        title: "Fresh".into(),
        author: None,
        source_path: path.into(),
        format: Format::Md,
        blocks: vec![Block::new("w ".repeat(words), None, None)],
    }
}

fn plan() -> IndexPlan {
    let mut p = IndexPlan::default();
    p.preskips = vec![
        skip("/a.md", SkipReason::Unchanged),
        skip("/b.pdf", SkipReason::Unreadable),
        skip("/c.txt", SkipReason::Silenced),
    ];
    p.to_embed = vec![item("/x.xps"), item("/bad.md"), item("/good.md")];
    p.forced_count = 1;
    p
}

#[test]
fn a_run_reports_counts_and_records() {
    let mut db = Db::open_in_memory().unwrap();
    db.set_book_state("c", "old", "0:0", "s0", "/good.md").unwrap();
    db.upsert_skip("c", "/good.md", "gpu", "1:1", "r", "k").unwrap();
    let pairs = vec![("old".to_string(), "/good.md".to_string())];
    let (mut run, events) = IndexRun::start("c", "caps", pairs, plan(), 6);
    assert_eq!(
        events,
        vec![
            IndexEvent::Started { total: 6 },
            IndexEvent::Unchanged {
                n: 1,
                total: 6,
                title: "a".into()
            },
            IndexEvent::Skipped {
                n: 2,
                total: 6,
                path: "/b.pdf".into(),
                reason: "unreadable (permissions, or an offline cloud placeholder?)".into()
            },
        ]
    );

    let (events, action) = run.go_on(&mut db, false);
    assert_eq!(action, Action::Continue);
    assert_eq!(
        events,
        vec![IndexEvent::Skipped {
            n: 4,
            total: 6,
            path: "/x.xps".into(),
            reason: "xps: handled by Fast (GPU) indexing where available".into()
        }]
    );
    assert!(db.skip_state_hit("c", "/x.xps", "cpu").unwrap().is_some());

    let (events, action) = run.go_on(&mut db, false);
    assert_eq!(action, Action::Extract("/bad.md".into()));
    assert_eq!(
        events,
        vec![IndexEvent::Working {
            n: 5,
            total: 6,
            path: "/bad.md".into()
        }]
    );
    let params = ChunkParams::default();
    let failed = Err(ExtractError::Parse("boom".into()));
    let (events, _) = run.extracted(&mut db, failed, &WhitespaceCounter, &params);
    assert_eq!(
        events,
        vec![IndexEvent::Skipped {
            n: 5,
            total: 6,
            path: "/bad.md".into(),
            reason: "parse: boom".into()
        }]
    );

    run.go_on(&mut db, false);
    let (_, action) = run.extracted(
        &mut db,
        Ok(doc("/good.md", 30000)),
        &WhitespaceCounter,
        &params,
    );
    assert_eq!(action, Action::Continue);
    let total = run.chunks.len();
    assert!(total > 64);
    let (_, action) = run.go_on(&mut db, false);
    assert_eq!(action, Action::Embed(0, 64));
    let (events, _) = run.embedded(&mut db);
    assert_eq!(
        events,
        vec![IndexEvent::Embedding {
            n: 6,
            total: 6,
            title: "Fresh".into(),
            chunks_done: 64,
            chunks_total: total
        }]
    );
    loop {
        match run.go_on(&mut db, false).1 {
            Action::Embed(_, _) => {
                run.embedded(&mut db);
            }
            Action::Replace(ids) => {
                assert_eq!(ids, vec!["old".to_string(), "fresh".to_string()]);
                break;
            }
            other => panic!("{other:?}"),
        }
    }
    assert_eq!(run.stored(&mut db, total).1, Action::Continue);
    assert_eq!(db.book_fingerprint("c", "old").unwrap(), None);
    assert_eq!(db.book_fingerprint("c", "fresh").unwrap(), Some("1:1".into()));
    assert_eq!(
        db.book_chunker_ver("c", "fresh").unwrap(),
        Some(CURRENT_CHUNKER_VER)
    );
    assert!(db.skip_state_hit("c", "/good.md", "gpu").unwrap().is_none());

    let (events, action) = run.go_on(&mut db, false);
    assert_eq!(action, Action::End(true));
    assert!(events.is_empty());
    assert_eq!(run.phase, Phase::Ended);
    match run.finish() {
        IndexEvent::Finished { stats } => assert_eq!(stats, run.stats),
        other => panic!("{other:?}"),
    }
    let s = &run.stats;
    assert_eq!(
        (
            s.books_indexed,
            s.books_unchanged,
            s.books_skipped,
            s.books_failed
        ),
        (1, 1, 2, 2)
    );
    assert_eq!(s.chunks_written, total);
    assert_eq!(s.forced, 1);
    assert_eq!(s.format_count("md"), (1, 2));
}

#[test]
fn books_without_text_are_skips_not_successes() {
    let mut db = Db::open_in_memory().unwrap();
    let mut p = IndexPlan::default();
    p.to_embed = vec![item("/empty.md")];
    let (mut run, _) = IndexRun::start("c", "caps", vec![], p, 1);
    run.go_on(&mut db, false);
    let mut d = doc("/empty.md", 1);
    d.blocks.clear();
    run.extracted(&mut db, Ok(d), &WhitespaceCounter, &ChunkParams::default());
    assert_eq!(run.stats.books_skipped, 1);
    assert!(db.book_state_rows("c").unwrap().is_empty());
    assert!(db.skip_state_hit("c", "/empty.md", "cpu").unwrap().is_some());
}

#[test]
fn a_stopped_run_keeps_what_it_stored() {
    let mut db = Db::open_in_memory().unwrap();
    let mut p = IndexPlan::default();
    p.to_embed = vec![item("/a.md"), item("/b.md")];
    let (mut run, _) = IndexRun::start("c", "caps", vec![], p, 2);
    run.go_on(&mut db, false);
    run.extracted(
        &mut db,
        Ok(doc("/a.md", 500)),
        &WhitespaceCounter,
        &ChunkParams::default(),
    );
    let (events, action) = run.go_on(&mut db, true);
    assert_eq!(action, Action::End(false));
    assert!(events.is_empty());
    assert!(db.book_state_rows("c").unwrap().is_empty());
    assert_eq!(run.go_on(&mut db, false).1, Action::Ignored);
    assert_eq!(run.stored(&mut db, 3).1, Action::Ignored);
    assert_eq!(run.embedded(&mut db).1, Action::Ignored);
}

#[test]
fn plans_change_the_manifest_without_embedding() {
    let mut db = Db::open_in_memory().unwrap();
    db.set_book_state_ver("c", "old", "1:1", "sig", "/old.pdf", 0).unwrap();
    db.set_book_state("c", "churned", "1:1", "sig2", "/c.pdf").unwrap();
    let mut p = IndexPlan::default();
    p.state_refreshes = vec![StateRefresh {
        book_id: "churned".into(),
        path: "/c.pdf".into(),
        fingerprint: "1:2".into(),
        content_sig: None,
    }];
    p.remaps = vec![RemapAction {
        old_id: "old".into(),
        new_id: "new".into(),
        path: "/new.pdf".into(),
        fingerprint: "1:1".into(),
        content_sig: Some("sig".into()),
        chunker_ver: 0,
    }];
    apply_plan(&mut db, "c", &p).unwrap();
    assert_eq!(db.book_fingerprint("c", "churned").unwrap(), Some("1:2".into()));
    assert_eq!(db.book_fingerprint("c", "old").unwrap(), None);
    assert_eq!(db.book_chunker_ver("c", "new").unwrap(), Some(0));
}

fn collection() -> Collection {
    Collection {
        id: "c".into(),
        name: "C".into(),
        db_path: "/db".into(),
        source_paths: vec!["/lib".into()],
        embed_model: "bge-m3".into(),
    }
}

#[test]
fn preparing_a_run_fills_paths_and_sweeps_skips() {
    let mut db = Db::open_in_memory().unwrap();
    db.set_book_state_ver("c", "b", "1:1", "sig", "", 0).unwrap();
    db.upsert_skip("c", "/gone/x.pdf", "cpu", "1:1", "r", "k").unwrap();
    let scan = vec![("b".to_string(), "/lib/b.pdf".to_string())];
    let plan = prepare_run(
        &mut db,
        &collection(),
        &vec!["b".to_string()],
        &scan,
        "cpu",
        "k",
        &["/lib/b.pdf".to_string(), "/lib/new.pdf".to_string()],
        |p: &str| if p == "/lib/b.pdf" { "1:1".to_string() } else { "2:2".to_string() },
        |_: &str| "cs".to_string(),
        |a: &str, b: &str| a == b,
    )
    .unwrap();
    assert_eq!(plan.preskips.len() + plan.to_embed.len(), 2);
    assert_eq!(plan.to_embed[0].path, "/lib/new.pdf");
    assert_eq!(
        db.book_id_for_source_path("c", "/lib/b.pdf").unwrap(),
        Some("b".into())
    );
    assert!(db.skip_state_hit("c", "/gone/x.pdf", "cpu").unwrap().is_none());
}

fn seed(id: &str, fp: &str, sig: &str) -> SeedFile {
    SeedFile {
        book_id: id.into(),
        source_path: format!("/lib/{id}.pdf"),
        fingerprint: fp.into(),
        content_sig: sig.into(),
    }
}

#[test]
fn seeding_leaves_unreadable_files_out() {
    let mut db = Db::open_in_memory().unwrap();
    let files = vec![
        seed("a", "1:1", "s"),
        seed("b", "missing", "s"),
        seed("c", "1:1", "missing"),
    ];
    let out = backfill_book_state(&mut db, "coll", &files).unwrap();
    assert_eq!((out.seeded, out.unseedable), (1, 2));
    assert_eq!(out.unseedable_paths, vec!["/lib/b.pdf", "/lib/c.pdf"]);
    assert_eq!(db.book_chunker_ver("coll", "a").unwrap(), Some(0));
    assert_eq!(db.book_fingerprint("coll", "b").unwrap(), None);
}

#[test]
fn helper_lines_are_read() {
    assert_eq!(
        parse_py_progress("[1/3] Kotlin: in Depth: 42 chunks in 3s"),
        PyProgress::Book {
            title: "Kotlin: in Depth".into(),
            chunks: 42
        }
    );
    assert_eq!(
        parse_py_progress("  [2/3] skip (no text) /lib/x.pdf"),
        PyProgress::Skip {
            path: "/lib/x.pdf".into(),
            reason: "no extractable text".into()
        }
    );
    assert_eq!(parse_py_progress("loading model"), PyProgress::Other);
    assert_eq!(parse_py_progress("[unclosed"), PyProgress::Other);
    assert_eq!(
        parse_py_progress("[3/3] No count"),
        PyProgress::Book {
            title: "No count".into(),
            chunks: 0
        }
    );
    assert_eq!(
        parse_py_progress("[3/3] T: many chunks"),
        PyProgress::Book {
            title: "T".into(),
            chunks: 0
        }
    );
}

#[test]
fn helper_must_be_set_up() {
    assert_eq!(
        helper_command(" py ", " s.py "),
        Ok(("py".to_string(), "s.py".to_string()))
    );
    assert_eq!(
        helper_command("", "s.py"),
        Err("Set the Python interpreter and indexer script in Settings → Fast index (GPU).".into())
    );
}

#[test]
fn batches_are_recorded_one_by_one() {
    let mut db = Db::open_in_memory().unwrap();
    let mut p = IndexPlan::default();
    p.to_embed = (0..45).map(|i| item(&format!("/b{i}.pdf"))).collect();
    p.preskips = vec![skip("/a.md", SkipReason::Unchanged)];
    let mut run = FastRun::start("c", p);
    let (event, line) = run.opening().unwrap();
    assert_eq!(event, IndexEvent::Started { total: 45 });
    assert_eq!(line, "Embedding 45 new/changed file(s) on the GPU helper…");
    assert_eq!(
        run.go_on(false),
        FastAction::Batch(0, 40, "fastindex-c-0.parquet".into())
    );
    assert_eq!(
        run.line("[1/40] One: 3 chunks"),
        Some(IndexEvent::Indexed {
            n: 1,
            total: 45,
            title: "One".into(),
            chunks: 3
        })
    );
    assert_eq!(
        run.line("[2/40] skip /b1.pdf"),
        Some(IndexEvent::Skipped {
            n: 2,
            total: 45,
            path: "/b1.pdf".into(),
            reason: "no extractable text".into()
        })
    );
    assert_eq!(run.line("noise  "), None);
    assert_eq!(
        run.failure(Some(3)),
        "Python helper failed (exit 3):\n[1/40] One: 3 chunks\n[2/40] skip /b1.pdf\nnoise"
    );
    assert!(run.failure(None).starts_with("Python helper failed (exit -1):\n"));
    run.imported(&mut db, 3);
    assert_eq!(db.book_state_rows("c").unwrap().len(), 40);
    assert_eq!(
        run.go_on(false),
        FastAction::Batch(40, 45, "fastindex-c-1.parquet".into())
    );
    run.stopped();
    assert_eq!(run.go_on(false), FastAction::End(false));
    match run.finish() {
        IndexEvent::Finished { stats } => {
            assert_eq!(stats.books_indexed, 1);
            assert_eq!(stats.books_skipped, 1);
            assert_eq!(stats.books_unchanged, 1);
            assert_eq!(stats.chunks_written, 3);
        }
        other => panic!("{other:?}"),
    }
}

#[test]
fn a_finished_helper_run_rebuilds_the_index() {
    let mut db = Db::open_in_memory().unwrap();
    let mut p = IndexPlan::default();
    p.to_embed = vec![item("/b.pdf")];
    let mut run = FastRun::start("c", p);
    run.go_on(false);
    run.imported(&mut db, 7);
    assert_eq!(run.go_on(false), FastAction::End(true));
    let mut empty = FastRun::start("c", IndexPlan::default());
    assert!(empty.opening().is_none());
    assert_eq!(empty.go_on(false), FastAction::End(false));
}

#[test]
fn the_helper_s_last_words_are_bounded() {
    let mut p = IndexPlan::default();
    p.to_embed = vec![item("/b.pdf")];
    let mut run = FastRun::start("c", p);
    for i in 0..500 {
        run.line(&format!("line {i} of the log"));
    }
    assert!(run.tail.len() <= 4000);
    assert!(run.tail.ends_with("line 499 of the log\n"));
}

#[test]
fn service_errors_speak_for_their_cause() {
    assert_eq!(ServiceError::Io("x".into()).message(), "x");
    assert_eq!(ServiceError::Settings("x".into()).message(), "x");
    assert_eq!(ServiceError::Embed("x".into()).message(), "x");
    assert_eq!(ServiceError::Query("x".into()).message(), "x");
    assert_eq!(
        ServiceError::Db(libsearch::manifest::DbError::NotFound("x".into())).message(),
        "not found: x"
    );
    assert_eq!(
        ServiceError::Store(libsearch::store::StoreError::Schema("x".into())).message(),
        "schema: x"
    );
    assert_eq!(
        ServiceError::Llm(libsearch::stream::LlmError::Decode("x".into())).message(),
        "decode: x"
    );
}
