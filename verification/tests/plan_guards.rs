//! The pre-filter on a library with legacy books, moved files, colliding fingerprints and recorded
//! skips.
use std::cell::Cell;
use std::collections::HashMap;

use libsearch::ids::stable_book_id;
use libsearch::manifest::Db;
use libsearch::plan::{plan_index_run, IndexPlan, PlanCtx, SkipReason};

struct World {
    db: Db,
    coll: String,
    indexed_ids: Vec<String>,
    paths_by_id: Vec<(String, String)>,
    fps: HashMap<String, String>,
    csigs: HashMap<String, String>,
    caps_ver: String,
    rechunk: bool,
    /// Pairs of paths that name one file.
    aliases: Vec<(&'static str, &'static str)>,
}

impl World {
    fn new() -> Self {
        Self {
            db: Db::open_in_memory().unwrap(),
            coll: "c1".into(),
            indexed_ids: Vec::new(),
            paths_by_id: Vec::new(),
            fps: HashMap::new(),
            csigs: HashMap::new(),
            caps_ver: "caps-v1".into(),
            rechunk: false,
            aliases: Vec::new(),
        }
    }

    fn add_legacy_book(&mut self, path: &str, legacy_id: &str, fp: &str, csig: &str) {
        self.indexed_ids.push(legacy_id.to_string());
        self.paths_by_id
            .push((legacy_id.to_string(), path.to_string()));
        self.db
            .set_book_state_ver(&self.coll, legacy_id, fp, csig, "", 0)
            .unwrap();
        self.fps.insert(path.to_string(), fp.to_string());
        self.csigs.insert(path.to_string(), csig.to_string());
    }

    fn add_new_file(&mut self, path: &str, fp: &str, csig: &str) {
        self.fps.insert(path.to_string(), fp.to_string());
        self.csigs.insert(path.to_string(), csig.to_string());
    }

    fn plan(&self, candidates: &[&str]) -> IndexPlan {
        self.plan_counting(candidates).0
    }

    fn plan_counting(&self, candidates: &[&str]) -> (IndexPlan, usize) {
        let cands: Vec<String> = candidates.iter().map(|s| s.to_string()).collect();
        let csig_reads = Cell::new(0usize);
        let plan = {
            let fp_fn = |p: &str| self.fps.get(p).cloned().unwrap_or_else(|| "missing".into());
            let csig_fn = |p: &str| {
                csig_reads.set(csig_reads.get() + 1);
                self.csigs
                    .get(p)
                    .cloned()
                    .unwrap_or_else(|| "missing".into())
            };
            let ctx = PlanCtx {
                collection_id: &self.coll,
                db: &self.db,
                indexed_ids: &self.indexed_ids,
                paths_by_id: &self.paths_by_id,
                pipeline: "cpu",
                caps_ver: &self.caps_ver,
                rechunk: self.rechunk,
            };
            plan_index_run(&cands, &ctx, fp_fn, csig_fn, |a: &str, b: &str| {
                a == b || self.aliases.iter().any(|x| x.0 == a && x.1 == b)
            })
            .unwrap()
        };
        (plan, csig_reads.get())
    }

    fn apply(&mut self, plan: &IndexPlan) {
        for r in &plan.state_refreshes {
            self.db
                .refresh_book_state(
                    &self.coll,
                    &r.book_id,
                    &r.fingerprint,
                    r.content_sig.as_deref(),
                    &r.path,
                )
                .unwrap();
        }
        for m in &plan.remaps {
            self.db.delete_book_state(&self.coll, &m.old_id).unwrap();
            self.db
                .set_book_state_ver(
                    &self.coll,
                    &m.new_id,
                    &m.fingerprint,
                    m.content_sig.as_deref().unwrap_or(""),
                    &m.path,
                    m.chunker_ver,
                )
                .unwrap();
        }
        for it in &plan.to_embed {
            let id = stable_book_id(&it.path);
            self.db
                .set_book_state(&self.coll, &id, &it.fingerprint, &it.content_sig, &it.path)
                .unwrap();
            self.indexed_ids.push(id.clone());
            self.paths_by_id.push((id, it.path.clone()));
        }
    }
}

fn skips(plan: &IndexPlan) -> Vec<(String, SkipReason)> {
    plan.preskips
        .iter()
        .map(|s| (s.path.clone(), s.reason))
        .collect()
}

#[test]
fn legacy_books_never_reembed_or_remap() {
    let mut w = World::new();
    for i in 0..50 {
        let path = format!("/lib/book{i}.md");
        w.add_legacy_book(
            &path,
            &format!("legacy-{i}"),
            &format!("100{i}:5000"),
            &format!("aa{i}:bb"),
        );
    }
    let candidates: Vec<String> = (0..50).map(|i| format!("/lib/book{i}.md")).collect();
    let cand_refs: Vec<&str> = candidates.iter().map(|s| s.as_str()).collect();

    let plan = w.plan(&cand_refs);
    assert!(plan.to_embed.is_empty(), "legacy books must not re-embed");
    assert!(
        plan.remaps.is_empty(),
        "unmoved legacy books must not remap"
    );
    assert!(plan
        .preskips
        .iter()
        .all(|s| s.reason == SkipReason::Unchanged));
    assert_eq!(plan.preskips.len(), 50);
    for r in &plan.state_refreshes {
        assert!(r.content_sig.is_none());
    }

    w.apply(&plan);
    let plan2 = w.plan(&cand_refs);
    assert!(plan2.to_embed.is_empty());
    assert!(plan2.remaps.is_empty());
    assert!(
        plan2.state_refreshes.is_empty(),
        "second run must be pure skips"
    );
}

#[test]
fn mtime_churn_refreshes_fingerprint_without_remap() {
    let mut w = World::new();
    w.add_legacy_book("/lib/churned.pdf", "legacy-x", "999:1111", "cs:xx");
    w.fps.insert("/lib/churned.pdf".into(), "999:2222".into());

    let (plan, csig_reads) = w.plan_counting(&["/lib/churned.pdf"]);
    assert!(plan.to_embed.is_empty());
    assert!(plan.remaps.is_empty(), "churn is not a move");
    assert_eq!(csig_reads, 1, "churn costs one signature read");
    assert_eq!(plan.state_refreshes.len(), 1);
    let r = &plan.state_refreshes[0];
    assert_eq!(r.book_id, "legacy-x", "refresh under the EXISTING id");
    assert_eq!(r.fingerprint, "999:2222");

    w.apply(&plan);
    let (plan2, csig_reads2) = w.plan_counting(&["/lib/churned.pdf"]);
    assert!(plan2.to_embed.is_empty());
    assert!(plan2.remaps.is_empty());
    assert_eq!(csig_reads2, 0, "second run must not re-read 512 KiB");
}

#[test]
fn fingerprint_collision_never_remaps() {
    let mut w = World::new();
    w.add_new_file("/notes/a.md", "500:7777", "cs:aaaa");
    w.add_new_file("/notes/b.md", "500:7777", "cs:bbbb");

    let plan = w.plan(&["/notes/a.md", "/notes/b.md"]);
    assert_eq!(plan.to_embed.len(), 2, "both files are genuinely new");
    assert!(plan.remaps.is_empty());

    w.apply(&plan);
    let (plan2, _) = w.plan_counting(&["/notes/a.md", "/notes/b.md"]);
    assert!(plan2.to_embed.is_empty(), "no re-embeds on run 2");
    assert!(plan2.remaps.is_empty(), "no ping-pong remap");
    w.apply(&plan2);
    let (plan3, _) = w.plan_counting(&["/notes/a.md", "/notes/b.md"]);
    assert!(plan3.to_embed.is_empty());
    assert!(plan3.remaps.is_empty());
}

#[test]
fn two_unreadable_files_two_events_no_state() {
    let mut w = World::new();
    w.add_legacy_book("/lib/good.pdf", "legacy-g", "10:10", "cs:good");
    w.add_new_file("/lib/ghost1.pdf", "77:77", "missing");
    w.add_new_file("/lib/ghost2.pdf", "77:77", "missing");

    let plan = w.plan(&["/lib/ghost1.pdf", "/lib/ghost2.pdf", "/lib/good.pdf"]);
    let unreadable: Vec<_> = plan
        .preskips
        .iter()
        .filter(|s| s.reason == SkipReason::Unreadable)
        .collect();
    assert_eq!(unreadable.len(), 2, "one event per unreadable file");
    assert!(plan.to_embed.is_empty());
    assert!(
        plan.remaps.is_empty(),
        "sentinels must never remap anything"
    );

    w.fps.insert("/lib/ghost1.pdf".into(), "missing".into());
    let plan2 = w.plan(&["/lib/ghost1.pdf"]);
    assert_eq!(
        skips(&plan2),
        vec![("/lib/ghost1.pdf".to_string(), SkipReason::Unreadable)]
    );

    w.db.set_book_state(&w.coll, "evil", "missing", "missing", "/x")
        .unwrap();
    assert!(w
        .db
        .book_state_for_fingerprint(&w.coll, "missing")
        .unwrap()
        .is_none());
}

#[test]
fn in_run_duplicate_embeds_once() {
    let mut w = World::new();
    w.add_new_file("/lib/copy1.pdf", "31:31", "cs:same");
    w.add_new_file("/lib/copy2.pdf", "32:32", "cs:same");
    let plan = w.plan(&["/lib/copy1.pdf", "/lib/copy2.pdf"]);
    assert_eq!(plan.to_embed.len(), 1);
    assert_eq!(
        skips(&plan),
        vec![("/lib/copy2.pdf".to_string(), SkipReason::DuplicateInRun)]
    );
}

#[test]
fn genuine_move_still_remaps_preserving_ver() {
    let mut w = World::new();
    w.add_legacy_book("/old/book.pdf", "legacy-m", "44:44", "cs:mv");
    w.fps.remove("/old/book.pdf");
    w.fps.insert("/new/book.pdf".into(), "44:44".into());
    w.csigs.insert("/new/book.pdf".into(), "cs:mv".into());
    let plan = w.plan(&["/new/book.pdf"]);
    assert!(plan.to_embed.is_empty(), "moved book must not re-embed");
    assert_eq!(plan.remaps.len(), 1);
    let m = &plan.remaps[0];
    assert_eq!(m.old_id, "legacy-m");
    assert_eq!(m.path, "/new/book.pdf");
    assert_eq!(m.chunker_ver, 0, "legacy ver survives the move");
}

#[test]
fn skip_state_silences_retries_and_scopes() {
    let mut w = World::new();
    w.add_new_file("/lib/broken.pdf", "60:60", "cs:broke");
    w.db.upsert_skip(
        &w.coll,
        "/lib/broken.pdf",
        "cpu",
        "60:60",
        "boom",
        "caps-v1",
    )
    .unwrap();

    let plan = w.plan(&["/lib/broken.pdf"]);
    assert_eq!(
        skips(&plan),
        vec![("/lib/broken.pdf".to_string(), SkipReason::Silenced)]
    );
    assert!(plan.to_embed.is_empty());

    w.caps_ver = "caps-v2".into();
    let plan = w.plan(&["/lib/broken.pdf"]);
    assert_eq!(plan.to_embed.len(), 1, "caps bump must retry the skip");

    w.caps_ver = "caps-v1".into();
    w.fps.insert("/lib/broken.pdf".into(), "61:61".into());
    let plan = w.plan(&["/lib/broken.pdf"]);
    assert_eq!(plan.to_embed.len(), 1, "changed file must retry the skip");

    w.fps.insert("/lib/broken.pdf".into(), "60:60".into());
    w.db.erase_skips(&w.coll, "/lib/broken.pdf").unwrap();
    w.db.upsert_skip(
        &w.coll,
        "/lib/broken.pdf",
        "gpu",
        "60:60",
        "no dep",
        "gcaps",
    )
    .unwrap();
    let plan = w.plan(&["/lib/broken.pdf"]);
    assert_eq!(plan.to_embed.len(), 1, "gpu skip must not silence cpu");
}

#[test]
fn skip_rows_are_path_keyed_not_fingerprint_keyed() {
    let mut w = World::new();
    w.add_new_file("/notes/a.md", "500:7777", "cs:aa");
    w.add_new_file("/notes/b.md", "500:7777", "cs:bb");
    w.db.upsert_skip(
        &w.coll,
        "/notes/a.md",
        "cpu",
        "500:7777",
        "no text",
        "caps-v1",
    )
    .unwrap();

    let plan = w.plan(&["/notes/a.md", "/notes/b.md"]);
    assert_eq!(plan.to_embed.len(), 1);
    assert_eq!(plan.to_embed[0].path, "/notes/b.md");

    w.db.erase_skips(&w.coll, "/notes/b.md").unwrap();
    let plan2 = w.plan(&["/notes/a.md"]);
    assert_eq!(
        skips(&plan2),
        vec![("/notes/a.md".to_string(), SkipReason::Silenced)]
    );
}

#[test]
fn skip_rows_never_reach_dedup_lookups() {
    let mut w = World::new();
    w.db.upsert_skip(&w.coll, "/lib/x.pdf", "cpu", "42:42", "r", "c")
        .unwrap();
    assert!(w
        .db
        .book_state_for_fingerprint(&w.coll, "42:42")
        .unwrap()
        .is_none());
    w.db.upsert_skip(&w.coll, "/lib/y.pdf", "cpu", "missing", "r", "c")
        .unwrap();
    assert!(w
        .db
        .skip_state_hit(&w.coll, "/lib/y.pdf", "cpu")
        .unwrap()
        .is_none());
}

#[test]
fn skip_gc_sweeps_paths_outside_sources() {
    let mut w = World::new();
    w.db.upsert_skip(&w.coll, "/lib/in.pdf", "cpu", "1:1", "r", "c")
        .unwrap();
    w.db.upsert_skip(&w.coll, "/elsewhere/out.pdf", "gpu", "2:2", "r", "c")
        .unwrap();
    let swept = w.db.gc_skips(&w.coll, &["/lib".to_string()]).unwrap();
    assert_eq!(swept, 1);
    assert!(w
        .db
        .skip_state_hit(&w.coll, "/lib/in.pdf", "cpu")
        .unwrap()
        .is_some());
    assert!(w
        .db
        .skip_state_hit(&w.coll, "/elsewhere/out.pdf", "gpu")
        .unwrap()
        .is_none());
}

#[test]
fn armed_rechunk_forces_legacy_books_once() {
    let mut w = World::new();
    w.rechunk = true;
    let id = stable_book_id("/lib/one.md");
    w.indexed_ids.push(id.clone());
    w.paths_by_id.push((id.clone(), "/lib/one.md".into()));
    w.db.set_book_state_ver("c1", &id, "1:1", "cs:1", "/lib/one.md", 0)
        .unwrap();
    w.add_new_file("/lib/one.md", "1:1", "cs:1");
    let plan = w.plan(&["/lib/one.md"]);
    assert_eq!(plan.to_embed.len(), 1);
    assert_eq!(plan.forced_count, 1);
    w.apply(&plan);
    let plan = w.plan(&["/lib/one.md"]);
    assert_eq!(plan.to_embed.len(), 0);
    assert_eq!(plan.forced_count, 0);
}

#[test]
fn every_candidate_is_planned_once() {
    let mut w = World::new();
    w.add_legacy_book("/lib/a.pdf", "legacy-a", "1:1", "cs:a");
    w.add_new_file("/lib/b.pdf", "2:2", "cs:b");
    w.add_new_file("/lib/c.pdf", "3:3", "missing");
    let plan = w.plan(&["/lib/a.pdf", "/lib/b.pdf", "/lib/c.pdf", "/lib/none.pdf"]);
    assert_eq!(plan.to_embed.len() + plan.preskips.len(), 4);
}

#[test]
fn another_name_of_the_file_is_no_move() {
    let mut w = World::new();
    w.add_legacy_book("/old/book.pdf", "legacy-m", "44:44", "cs:mv");
    w.add_new_file("/link/book.pdf", "44:44", "cs:mv");
    let moved = w.plan(&["/link/book.pdf"]);
    assert_eq!(moved.remaps.len(), 1);
    w.aliases.push(("/old/book.pdf", "/link/book.pdf"));
    let (plan, reads) = w.plan_counting(&["/link/book.pdf"]);
    assert!(plan.remaps.is_empty() && plan.to_embed.is_empty());
    assert_eq!(reads, 0);

    // By content, once the fingerprint is stale.
    w.fps.insert("/link/book.pdf".into(), "45:45".into());
    let plan = w.plan(&["/link/book.pdf"]);
    assert!(plan.remaps.is_empty() && plan.to_embed.is_empty());
    assert_eq!(plan.state_refreshes.len(), 1);
    assert_eq!(plan.state_refreshes[0].book_id, "legacy-m");
}

#[test]
fn planning_twice_gives_one_plan() {
    let mut w = World::new();
    w.add_legacy_book("/old/book.pdf", "legacy-m", "44:44", "cs:mv");
    w.add_new_file("/new/book.pdf", "44:44", "cs:mv");
    w.add_new_file("/lib/fresh.pdf", "1:1", "cs:1");
    let candidates = ["/new/book.pdf", "/lib/fresh.pdf", "/gone.pdf"];
    let first = w.plan(&candidates);
    let second = w.plan(&candidates);
    assert_eq!(
        format!("{:?}", first.to_embed),
        format!("{:?}", second.to_embed)
    );
    assert_eq!(
        format!("{:?}", first.remaps),
        format!("{:?}", second.remaps)
    );
    assert_eq!(skips(&first), skips(&second));
    assert_eq!(first.forced_count, second.forced_count);
}
