//! What surrounds a run of indexing: the engine's abilities, the seeding of the manifest, the
//! preparation of a run, and the changes that need no embedding.
use vstd::prelude::*;
use crate::formats;
use crate::ids;
use crate::manifest;
use crate::manifest::{Db, DbError, DbV, StateV};
use crate::plan;
use crate::plan::{CtxV, Facts, IndexPlan, PlanCtx, RefreshV, RemapV};
use crate::rows;
use crate::store::StoreError;
use crate::stream::LlmError;
use crate::text;
use crate::types::{Collection, CollectionV};

verus! {

/// Why the service failed.
#[derive(Debug, PartialEq, Eq)]
pub enum ServiceError {
    Io(String),
    Db(DbError),
    Settings(String),
    Store(StoreError),
    Embed(String),
    Query(String),
    Llm(LlmError),
}

impl ServiceError {
    /// The message of the error: that of its cause.
    pub fn message(&self) -> (r: String)
        ensures
            match *self {
                ServiceError::Io(e) => r@ == e@,
                ServiceError::Settings(e) => r@ == e@,
                ServiceError::Embed(e) => r@ == e@,
                ServiceError::Query(e) => r@ == e@,
                ServiceError::Db(e) => call_ensures(DbError::message, (&e,), r),
                ServiceError::Store(e) => call_ensures(StoreError::message, (&e,), r),
                ServiceError::Llm(e) => call_ensures(LlmError::message, (&e,), r),
            },
    {
        match self {
            ServiceError::Io(e) => e.clone(),
            ServiceError::Settings(e) => e.clone(),
            ServiceError::Embed(e) => e.clone(),
            ServiceError::Query(e) => e.clone(),
            ServiceError::Db(e) => e.message(),
            ServiceError::Store(e) => e.message(),
            ServiceError::Llm(e) => e.message(),
        }
    }
}

/// The converters that are looked for.
pub const TOOLS: [&'static str; 5] = ["textutil", "antiword", "soffice", "djvutxt", "7z"];

/// The tools that were found, in order.
pub open spec fn found_tools(found: Seq<bool>, n: nat) -> Seq<Seq<char>>
    decreases n,
{
    if n == 0 {
        Seq::empty()
    } else {
        let before = found_tools(found, (n - 1) as nat);
        if found[n - 1] {
            before.push(TOOLS@[n - 1]@)
        } else {
            before
        }
    }
}

/// The extensions that are ingested, in one text.
pub open spec fn ingest_line() -> Seq<char> {
    text::join(formats::strs(formats::INGEST_EXTS@), ","@)
}

/// What the abilities of the built-in engine are hashed from.
pub open spec fn cpu_caps_parts(found: Seq<bool>) -> Seq<Seq<char>> {
    seq!["cpu-v1"@, ingest_line(), text::join(found_tools(found, 5), ","@)]
}

/// The abilities of the built-in engine: what it ingests, and the converters found on the machine.
/// A converter that comes or goes changes them, so that skips recorded before are tried again.
pub fn cpu_caps_ver(found: &[bool; 5]) -> (r: String)
    ensures
        r@ == ids::caps_of(cpu_caps_parts(found@)),
{
    let mut exts: Vec<String> = Vec::new();
    let accepted = formats::INGEST_EXTS;
    for i in 0..3usize
        invariant
            accepted == formats::INGEST_EXTS,
            exts@.len() == i,
            forall|k: int| 0 <= k < i ==> (#[trigger] exts@[k])@ == formats::INGEST_EXTS@[k]@,
    {
        exts.push(accepted[i].to_owned());
    }
    assert(text::texts(exts@) =~= formats::strs(formats::INGEST_EXTS@));
    let ingest = text::join_strs(&exts, ",");
    let tools = TOOLS;
    let mut probed: Vec<String> = Vec::new();
    assert(text::texts(probed@) =~= found_tools(found@, 0));
    for i in 0..5usize
        invariant
            tools == TOOLS,
            text::texts(probed@) == found_tools(found@, i as nat),
    {
        if found[i] {
            let t = tools[i].to_owned();
            proof {
                text::lemma_texts_push(probed@, t);
            }
            probed.push(t);
        }
    }
    let list = text::join_strs(&probed, ",");
    let parts = ["cpu-v1", ingest.as_str(), list.as_str()];
    assert(Seq::new(parts@.len(), |i: int| parts@[i]@) =~= cpu_caps_parts(found@));
    ids::caps_hash(&parts)
}

/// A file to seed the manifest with.
#[derive(Debug)]
pub struct SeedFile {
    pub book_id: String,
    pub source_path: String,
    pub fingerprint: String,
    pub content_sig: String,
}

/// What a [`SeedFile`] holds.
#[verifier::ext_equal]
pub struct SeedV {
    pub book: Seq<char>,
    pub path: Seq<char>,
    pub fingerprint: Seq<char>,
    pub content_sig: Seq<char>,
}

impl View for SeedFile {
    type V = SeedV;

    open spec fn view(&self) -> SeedV {
        SeedV {
            book: self.book_id@,
            path: self.source_path@,
            fingerprint: self.fingerprint@,
            content_sig: self.content_sig@,
        }
    }
}

/// What seeding the manifest did.
#[derive(Debug)]
pub struct BackfillOutcome {
    pub seeded: usize,
    pub unseedable: usize,
    pub unseedable_paths: Vec<String>,
}

/// The file could not be read: a row for it would match what it must not.
pub open spec fn unreadable(f: SeedV) -> bool {
    manifest::sentinel(f.fingerprint) || manifest::sentinel(f.content_sig)
}

/// The manifest's rows with those of readable files, as made by an older way of cutting passages.
pub open spec fn seeded(state: Seq<StateV>, coll: Seq<char>, files: Seq<SeedV>) -> Seq<StateV>
    decreases files.len(),
{
    if files.len() == 0 {
        state
    } else {
        let before = seeded(state, coll, files.drop_last());
        let f = files.last();
        if unreadable(f) {
            before
        } else {
            manifest::recorded(
                before,
                StateV {
                    collection: coll,
                    book: f.book,
                    fingerprint: f.fingerprint,
                    content_sig: f.content_sig,
                    chunker_ver: 0,
                    source_path: f.path,
                },
            )
        }
    }
}

/// The paths of the files that could not be read.
pub open spec fn unreadable_paths(files: Seq<SeedV>) -> Seq<Seq<char>>
    decreases files.len(),
{
    if files.len() == 0 {
        Seq::empty()
    } else if unreadable(files.last()) {
        unreadable_paths(files.drop_last()).push(files.last().path)
    } else {
        unreadable_paths(files.drop_last())
    }
}

/// Seeds the manifest with books that the store holds already, so that they are recognized and not
/// embedded again. Files that cannot be read are listed instead.
pub fn backfill_book_state(db: &mut Db, collection_id: &str, files: &Vec<SeedFile>) -> (r: Result<
    BackfillOutcome,
    DbError,
>)
    ensures
        r is Ok,
        final(db)@ == (DbV {
            state: seeded(old(db)@.state, collection_id@, rows::vals(files@)),
            ..old(db)@
        }),
        text::texts(r->Ok_0.unseedable_paths@) == unreadable_paths(rows::vals(files@)),
        r->Ok_0.unseedable == r->Ok_0.unseedable_paths@.len(),
        r->Ok_0.seeded + r->Ok_0.unseedable == files@.len(),
{
    let ghost db0 = db@;
    let ghost all = rows::vals(files@);
    let mut out = BackfillOutcome { seeded: 0, unseedable: 0, unseedable_paths: Vec::new() };
    assert(all.take(0) =~= Seq::empty());
    assert(text::texts(out.unseedable_paths@) =~= Seq::empty());
    for i in 0..files.len()
        invariant
            all == rows::vals(files@),
            db@ == (DbV { state: seeded(db0.state, collection_id@, all.take(i as int)), ..db0 }),
            text::texts(out.unseedable_paths@) == unreadable_paths(all.take(i as int)),
            out.unseedable == out.unseedable_paths@.len(),
            out.seeded + out.unseedable == i,
    {
        let f = &files[i];
        proof {
            assert(all.take(i + 1).drop_last() =~= all.take(i as int));
            assert(all.take(i + 1).last() == f@);
        }
        if manifest::is_sig_sentinel(f.fingerprint.as_str()) || manifest::is_sig_sentinel(
            f.content_sig.as_str(),
        ) {
            out.unseedable = out.unseedable + 1;
            let p = f.source_path.clone();
            proof {
                text::lemma_texts_push(out.unseedable_paths@, p);
            }
            out.unseedable_paths.push(p);
        } else {
            let _ = db.set_book_state_ver(
                collection_id,
                f.book_id.as_str(),
                f.fingerprint.as_str(),
                f.content_sig.as_str(),
                f.source_path.as_str(),
                0,
            );
            out.seeded = out.seeded + 1;
        }
    }
    assert(all.take(all.len() as int) =~= all);
    Ok(out)
}

/// The manifest made ready for a run: rows without a path get the store's, and skips outside the
/// collection's sources are swept.
pub open spec fn readied(db: DbV, coll: CollectionV, scan: Seq<(Seq<char>, Seq<char>)>) -> DbV {
    DbV {
        state: Seq::new(
            db.state.len(),
            |i: int| manifest::filled(coll.id, scan, db.state[i]),
        ),
        skips: manifest::swept(db.skips, coll.id, coll.source_paths),
        ..db
    }
}

/// What a plan is made from.
pub open spec fn plan_context(
    db: DbV,
    coll: CollectionV,
    indexed: Seq<Seq<char>>,
    scan: Seq<(Seq<char>, Seq<char>)>,
    pipeline: Seq<char>,
    caps: Seq<char>,
) -> CtxV {
    CtxV {
        coll: coll.id,
        state: db.state,
        skips: db.skips,
        indexed,
        scan,
        pipeline,
        caps,
        rechunk: db.rechunk.contains(coll.id),
    }
}

/// A plan is what the planner decides on truthful facts about the paths.
pub open spec fn planned<
    F: Fn(&str) -> String,
    G: Fn(&str) -> String,
    H: Fn(&str, &str) -> bool,
>(
    ctx: CtxV,
    paths: Seq<String>,
    facts: Seq<Facts>,
    p: plan::PlanV,
    fp_fn: F,
    csig_fn: G,
    alias_fn: H,
) -> bool {
    &&& plan::truthful_run(ctx, text::texts(paths), facts, fp_fn, csig_fn, alias_fn)
    &&& p == ctx.run(facts).plan
}

/// Makes the manifest ready for a run of a pipeline over a collection's files, and plans the run.
pub fn prepare_run<F: Fn(&str) -> String, G: Fn(&str) -> String, H: Fn(&str, &str) -> bool>(
    db: &mut Db,
    collection: &Collection,
    indexed: &Vec<String>,
    paths_by_id: &Vec<(String, String)>,
    pipeline: &str,
    caps_ver: &str,
    paths: &[String],
    fp_fn: F,
    csig_fn: G,
    alias_fn: H,
) -> (r: Result<IndexPlan, DbError>)
    requires
        forall|p: &str| #[trigger] fp_fn.requires((p,)),
        forall|p: &str| #[trigger] csig_fn.requires((p,)),
        forall|p: &str, q: &str| #[trigger] alias_fn.requires((p, q)),
    ensures
        r is Ok,
        final(db)@ == readied(old(db)@, collection@, rows::vals(paths_by_id@)),
        r->Ok_0@.preskips.len() + r->Ok_0@.to_embed.len() == paths@.len(),
        exists|facts: Seq<Facts>| #[trigger]
            planned(
                plan_context(
                    final(db)@,
                    collection@,
                    rows::vals(indexed@),
                    rows::vals(paths_by_id@),
                    pipeline@,
                    caps_ver@,
                ),
                paths@,
                facts,
                r->Ok_0@,
                fp_fn,
                csig_fn,
                alias_fn,
            ),
{
    let ghost db0 = db@;
    let _ = db.backfill_source_paths(collection.id.as_str(), paths_by_id);
    let _ = db.gc_skips(collection.id.as_str(), &collection.source_paths);
    assert(db@ =~= readied(db0, collection@, rows::vals(paths_by_id@)));
    let rechunk = match db.rechunk_pending(collection.id.as_str()) {
        Ok(b) => b,
        Err(_) => false,
    };
    let ctx = PlanCtx {
        collection_id: collection.id.as_str(),
        db: &*db,
        indexed_ids: indexed,
        paths_by_id,
        pipeline,
        caps_ver,
        rechunk,
    };
    let ghost c = plan_context(
        db@,
        collection@,
        rows::vals(indexed@),
        rows::vals(paths_by_id@),
        pipeline@,
        caps_ver@,
    );
    assert(ctx@ =~= c);
    let r = plan::plan_index_run(paths, &ctx, fp_fn, csig_fn, alias_fn);
    proof {
        let facts = choose|facts: Seq<Facts>|
            {
                &&& plan::truthful_run(
                    c,
                    text::texts(paths@),
                    facts,
                    fp_fn,
                    csig_fn,
                    alias_fn,
                )
                &&& r->Ok_0@ == (#[trigger] c.run(facts)).plan
            };
        assert(planned(c, paths@, facts, r->Ok_0@, fp_fn, csig_fn, alias_fn));
        crate::plan_laws::every_candidate_is_accounted_for(c, facts);
    }
    r
}

/// The rows with the refreshes of a plan.
pub open spec fn with_refreshes(state: Seq<StateV>, coll: Seq<char>, v: Seq<RefreshV>) -> Seq<StateV>
    decreases v.len(),
{
    if v.len() == 0 {
        state
    } else {
        let r = v.last();
        manifest::refreshed(
            with_refreshes(state, coll, v.drop_last()),
            coll,
            r.book,
            r.fingerprint,
            r.content_sig,
            r.path,
        )
    }
}

/// The rows with the moves of a plan: the old book's row goes, the new one's comes.
pub open spec fn with_remaps(state: Seq<StateV>, coll: Seq<char>, v: Seq<RemapV>) -> Seq<StateV>
    decreases v.len(),
{
    if v.len() == 0 {
        state
    } else {
        let m = v.last();
        manifest::recorded(
            manifest::without_book(with_remaps(state, coll, v.drop_last()), coll, m.old_id),
            StateV {
                collection: coll,
                book: m.new_id,
                fingerprint: m.fingerprint,
                content_sig: match m.content_sig {
                    Some(s) => s,
                    None => Seq::empty(),
                },
                chunker_ver: m.chunker_ver,
                source_path: m.path,
            },
        )
    }
}

/// Applies what a plan changes in the manifest without embedding: refreshes first, then moves. The
/// store's passages of a moved book are re-pointed beside it.
pub fn apply_plan(db: &mut Db, collection_id: &str, plan: &IndexPlan) -> (r: Result<(), DbError>)
    ensures
        r is Ok,
        final(db)@ == (DbV {
            state: with_remaps(
                with_refreshes(old(db)@.state, collection_id@, plan@.refreshes),
                collection_id@,
                plan@.remaps,
            ),
            ..old(db)@
        }),
{
    let ghost db0 = db@;
    let ghost refreshes = plan@.refreshes;
    let ghost remaps = plan@.remaps;
    assert(refreshes.take(0) =~= Seq::empty());
    for i in 0..plan.state_refreshes.len()
        invariant
            refreshes == rows::vals(plan.state_refreshes@),
            db@ == (DbV {
                state: with_refreshes(db0.state, collection_id@, refreshes.take(i as int)),
                ..db0
            }),
    {
        let r = &plan.state_refreshes[i];
        proof {
            assert(refreshes.take(i + 1).drop_last() =~= refreshes.take(i as int));
            assert(refreshes.take(i + 1).last() == r@);
        }
        let sig = match &r.content_sig {
            Some(s) => Some(s.as_str()),
            None => None,
        };
        let _ = db.refresh_book_state(
            collection_id,
            r.book_id.as_str(),
            r.fingerprint.as_str(),
            sig,
            r.path.as_str(),
        );
    }
    assert(refreshes.take(refreshes.len() as int) =~= refreshes);
    let ghost db1 = db@;
    assert(remaps.take(0) =~= Seq::empty());
    for i in 0..plan.remaps.len()
        invariant
            remaps == rows::vals(plan.remaps@),
            db@ == (DbV {
                state: with_remaps(db1.state, collection_id@, remaps.take(i as int)),
                ..db1
            }),
    {
        let m = &plan.remaps[i];
        proof {
            assert(remaps.take(i + 1).drop_last() =~= remaps.take(i as int));
            assert(remaps.take(i + 1).last() == m@);
            reveal_strlit("");
            assert(""@ =~= Seq::empty());
        }
        let sig = match &m.content_sig {
            Some(s) => s.as_str(),
            None => "",
        };
        let _ = db.delete_book_state(collection_id, m.old_id.as_str());
        let _ = db.set_book_state_ver(
            collection_id,
            m.new_id.as_str(),
            m.fingerprint.as_str(),
            sig,
            m.path.as_str(),
            m.chunker_ver,
        );
    }
    assert(remaps.take(remaps.len() as int) =~= remaps);
    Ok(())
}

} // verus!
