//! What a plan decides about a file, said of the manifest, the store and the plan alone.
use vstd::prelude::*;
use crate::ids;
use crate::manifest;
use crate::manifest::StateV;
use crate::plan::{CtxV, EmbedV, Facts, PlanSt, PreSkipV, RefreshV, RemapV, SkipReason};
use crate::rows;

verus! {

/// Some row of the collection holds a content.
pub open spec fn holds_content(ctx: CtxV, sig: Seq<char>) -> bool {
    exists|k: int|
        0 <= k < ctx.state.len() && (#[trigger] ctx.state[k]).collection == ctx.coll
            && ctx.state[k].content_sig == sig
}

/// Rows of the collection that could stand for the candidate, by fingerprint or by content, are of
/// other books at other paths, and none of them is said to be the candidate's file.
pub open spec fn only_others_match(ctx: CtxV, f: Facts) -> bool {
    &&& !f.alias_fp && !f.alias_sig
    &&& forall|k: int|
        0 <= k < ctx.state.len() && (#[trigger] ctx.state[k]).collection == ctx.coll && (
        ctx.state[k].content_sig == f.sig || ctx.state[k].fingerprint == f.fp) ==> {
            &&& ctx.state[k].book != ids::book_id_of(f.path)
            &&& ctx.state[k].source_path != f.path || f.path.len() == 0
        }
}

/// No skip on record is of this very file, pipeline, fingerprint and capabilities.
pub open spec fn no_skip_applies(ctx: CtxV, f: Facts) -> bool {
    forall|k: int|
        0 <= k < ctx.skips.len() && (#[trigger] ctx.skips[k]).collection == ctx.coll
            && ctx.skips[k].source_path == f.path && ctx.skips[k].pipeline == ctx.pipeline
            ==> ctx.skips[k].fingerprint != f.fp || ctx.skips[k].caps_ver != ctx.caps
}

/// The store holds nothing under the candidate's id or path.
pub open spec fn not_stored(ctx: CtxV, f: Facts) -> bool {
    &&& !ctx.indexed.contains(ids::book_id_of(f.path))
    &&& forall|k: int| 0 <= k < ctx.scan.len() ==> (#[trigger] ctx.scan[k]).1 != f.path
}

/// The candidate can be read and is not silenced, and re-chunking is not armed.
pub open spec fn is_open(ctx: CtxV, f: Facts) -> bool {
    &&& !ctx.rechunk
    &&& !manifest::sentinel(f.fp)
    &&& !manifest::sentinel(f.sig)
    &&& no_skip_applies(ctx, f)
}

/// The run has queued a content.
pub open spec fn queued(st: PlanSt, sig: Seq<char>) -> bool {
    exists|i: int|
        0 <= i < st.plan.to_embed.len() && (#[trigger] st.plan.to_embed[i]).content_sig == sig
}

/// What a run has queued is what it has remembered.
pub open spec fn remembers(st: PlanSt) -> bool {
    &&& st.seen.len() == st.plan.to_embed.len()
    &&& forall|i: int|
        0 <= i < st.seen.len() ==> #[trigger] st.seen[i] == st.plan.to_embed[i].content_sig
}

/// Every run remembers what it has queued.
pub proof fn runs_remember(ctx: CtxV, facts: Seq<Facts>)
    ensures
        remembers(ctx.run(facts)),
{
    crate::plan_laws::lemma_seen_is_embedded(ctx, facts);
}

proof fn lemma_not_silenced(ctx: CtxV, f: Facts)
    requires
        no_skip_applies(ctx, f),
    ensures
        !ctx.silenced(f),
{
    rows::lemma_first_where(ctx.skips, manifest::of_skip(ctx.coll, f.path, ctx.pipeline));
}

proof fn lemma_queued(st: PlanSt, sig: Seq<char>)
    requires
        remembers(st),
    ensures
        st.seen.contains(sig) <==> queued(st, sig),
{
    if st.seen.contains(sig) {
        let i = choose|i: int| 0 <= i < st.seen.len() && st.seen[i] == sig;
        assert(st.plan.to_embed[i].content_sig == sig);
    }
    if queued(st, sig) {
        let i = choose|i: int|
            0 <= i < st.plan.to_embed.len() && (#[trigger] st.plan.to_embed[i]).content_sig == sig;
        assert(st.seen[i] == sig);
    }
}

proof fn lemma_lookups(ctx: CtxV, f: Facts)
    ensures
        match manifest::row_of(ctx.state, ctx.coll, ids::book_id_of(f.path)) {
            Some(r) => ctx.state.contains(r) && r.collection == ctx.coll && r.book
                == ids::book_id_of(f.path),
            None => forall|k: int|
                0 <= k < ctx.state.len() ==> !((#[trigger] ctx.state[k]).collection == ctx.coll
                    && ctx.state[k].book == ids::book_id_of(f.path)),
        },
        match manifest::row_with_fingerprint(ctx.state, ctx.coll, f.fp) {
            Some(r) => ctx.state.contains(r) && r.collection == ctx.coll && r.fingerprint == f.fp,
            None => manifest::sentinel(f.fp) || forall|k: int|
                0 <= k < ctx.state.len() ==> !((#[trigger] ctx.state[k]).collection == ctx.coll
                    && ctx.state[k].fingerprint == f.fp),
        },
        match manifest::row_with_content(ctx.state, ctx.coll, f.sig) {
            Some(r) => ctx.state.contains(r) && r.collection == ctx.coll && r.content_sig == f.sig,
            None => manifest::sentinel(f.sig) || forall|k: int|
                0 <= k < ctx.state.len() ==> !((#[trigger] ctx.state[k]).collection == ctx.coll
                    && ctx.state[k].content_sig == f.sig),
        },
        match ctx.book_at(f) {
            Some(e) => ctx.scan.contains(e) && e.1 == f.path,
            None => forall|k: int| 0 <= k < ctx.scan.len() ==> (#[trigger] ctx.scan[k]).1 != f.path,
        },
{
    let id = ids::book_id_of(f.path);
    let a = manifest::of_book(ctx.coll, id);
    let b = manifest::with_fingerprint(ctx.coll, f.fp);
    let c = manifest::with_content(ctx.coll, f.sig);
    let d = crate::plan::at_path(f.path);
    rows::lemma_first_where(ctx.state, a);
    rows::lemma_first_where(ctx.state, b);
    rows::lemma_first_where(ctx.state, c);
    rows::lemma_first_where(ctx.scan, d);
    if rows::first_where(ctx.state, a) is None {
        assert forall|k: int| 0 <= k < ctx.state.len() implies !((#[trigger] ctx.state[k]).collection
            == ctx.coll && ctx.state[k].book == id) by {
            assert(!a(ctx.state[k]));
        }
    }
    if rows::first_where(ctx.state, b) is None {
        assert forall|k: int| 0 <= k < ctx.state.len() implies !((#[trigger] ctx.state[k]).collection
            == ctx.coll && ctx.state[k].fingerprint == f.fp) by {
            assert(!b(ctx.state[k]));
        }
    }
    if rows::first_where(ctx.state, c) is None {
        assert forall|k: int| 0 <= k < ctx.state.len() implies !((#[trigger] ctx.state[k]).collection
            == ctx.coll && ctx.state[k].content_sig == f.sig) by {
            assert(!c(ctx.state[k]));
        }
    }
    if rows::first_where(ctx.scan, d) is None {
        assert forall|k: int| 0 <= k < ctx.scan.len() implies (#[trigger] ctx.scan[k]).1 != f.path by {
            assert(!d(ctx.scan[k]));
        }
    }
}

/// A row's path, its own or the store's, is not that of a candidate that neither has.
proof fn lemma_other_path(ctx: CtxV, row: StateV, f: Facts)
    requires
        not_stored(ctx, f),
        row.source_path != f.path || f.path.len() == 0,
    ensures
        ctx.hit_path(row).len() > 0 ==> ctx.hit_path(row) != f.path,
{
    let p = manifest::entry_of(row.book);
    rows::lemma_first_where(ctx.scan, p);
    if let Some(i) = rows::first_where(ctx.scan, p) {
        assert(ctx.scan[i].1 != f.path);
    }
}

/// Outside re-chunking, no content that the manifest already holds is embedded again.
pub proof fn known_content_is_never_embedded(ctx: CtxV, facts: Seq<Facts>, i: int)
    requires
        !ctx.rechunk,
        0 <= i < ctx.run(facts).plan.to_embed.len(),
    ensures
        !holds_content(ctx, ctx.run(facts).plan.to_embed[i].content_sig),
    decreases facts.len(),
{
    if facts.len() > 0 {
        let init = facts.drop_last();
        let before = ctx.run(init).plan;
        let after = ctx.run(facts).plan;
        if i < before.to_embed.len() {
            known_content_is_never_embedded(ctx, init, i);
            assert(after.to_embed[i] == before.to_embed[i]);
        } else {
            lemma_lookups(ctx, facts.last());
            assert(after.to_embed[i].content_sig == facts.last().sig);
        }
    }
}

/// A moved book is re-pointed, not embedded: where the manifest holds the candidate's content, and
/// only under other books at other paths, the plan takes the book of such a row to the candidate's
/// id and path, and counts the candidate as unchanged.
pub proof fn moved_books_are_repointed(ctx: CtxV, st: PlanSt, f: Facts)
    requires
        remembers(st),
        is_open(ctx, f),
        not_stored(ctx, f),
        only_others_match(ctx, f),
        !queued(st, f.sig),
        holds_content(ctx, f.sig),
        forall|k: int|
            0 <= k < ctx.state.len() && (#[trigger] ctx.state[k]).collection == ctx.coll
                && ctx.state[k].book == ids::book_id_of(f.path) ==> ctx.state[k].fingerprint != f.fp,
    ensures
        ({
            let next = ctx.step(st, f).plan;
            &&& next.to_embed == st.plan.to_embed
            &&& next.refreshes == st.plan.refreshes
            &&& next.forced == st.plan.forced
            &&& next.preskips == st.plan.preskips.push(
                PreSkipV { path: f.path, reason: SkipReason::Unchanged },
            )
            &&& next.remaps.len() == st.plan.remaps.len() + 1
            &&& next.remaps.drop_last() == st.plan.remaps
            &&& exists|k: int|
                0 <= k < ctx.state.len() && (#[trigger] ctx.state[k]).collection == ctx.coll
                    && ctx.state[k].content_sig == f.sig && next.remaps.last() == (RemapV {
                    old_id: ctx.state[k].book,
                    new_id: ids::book_id_of(f.path),
                    path: f.path,
                    fingerprint: f.fp,
                    content_sig: Some(f.sig),
                    chunker_ver: ctx.state[k].chunker_ver,
                })
        }),
{
    lemma_not_silenced(ctx, f);
    lemma_queued(st, f.sig);
    lemma_lookups(ctx, f);
    let next = ctx.step(st, f).plan;
    let a = manifest::row_with_fingerprint(ctx.state, ctx.coll, f.fp);
    let c = manifest::row_with_content(ctx.state, ctx.coll, f.sig);
    if a is Some {
        let k = choose|k: int| 0 <= k < ctx.state.len() && ctx.state[k] == a->0;
        assert(ctx.state[k].fingerprint == f.fp);
        lemma_other_path(ctx, a->0, f);
    }
    assert(c is Some);
    let k = choose|k: int| 0 <= k < ctx.state.len() && ctx.state[k] == c->0;
    assert(ctx.state[k].content_sig == f.sig);
    lemma_other_path(ctx, c->0, f);
    assert(next.remaps.drop_last() =~= st.plan.remaps);
    if ctx.moved_by_fp(f) {
        let j = choose|j: int| 0 <= j < ctx.state.len() && ctx.state[j] == a->0;
        assert(ctx.state[j].content_sig == f.sig);
    }
}

/// A file with a content that neither manifest nor store nor run knows is embedded, with what was
/// read of it.
pub proof fn unknown_files_are_embedded(ctx: CtxV, st: PlanSt, f: Facts)
    requires
        remembers(st),
        is_open(ctx, f),
        not_stored(ctx, f),
        only_others_match(ctx, f),
        !queued(st, f.sig),
        !holds_content(ctx, f.sig),
        forall|k: int|
            0 <= k < ctx.state.len() && (#[trigger] ctx.state[k]).collection == ctx.coll
                && ctx.state[k].book == ids::book_id_of(f.path) ==> ctx.state[k].fingerprint != f.fp,
    ensures
        ({
            let next = ctx.step(st, f).plan;
            &&& next.to_embed == st.plan.to_embed.push(
                EmbedV { path: f.path, fingerprint: f.fp, content_sig: f.sig },
            )
            &&& next.preskips == st.plan.preskips
            &&& next.remaps == st.plan.remaps
            &&& next.refreshes == st.plan.refreshes
            &&& next.forced == st.plan.forced
        }),
{
    lemma_not_silenced(ctx, f);
    lemma_queued(st, f.sig);
    lemma_lookups(ctx, f);
    let a = manifest::row_with_fingerprint(ctx.state, ctx.coll, f.fp);
    let c = manifest::row_with_content(ctx.state, ctx.coll, f.sig);
    if a is Some {
        let k = choose|k: int| 0 <= k < ctx.state.len() && ctx.state[k] == a->0;
        assert(ctx.state[k].fingerprint == f.fp);
        assert(ctx.state[k].content_sig != f.sig);
        lemma_other_path(ctx, a->0, f);
    }
    if c is Some {
        let k = choose|k: int| 0 <= k < ctx.state.len() && ctx.state[k] == c->0;
        assert(ctx.state[k].content_sig == f.sig);
    }
}

/// A content that the run has queued is not queued again: its other copies are skipped as
/// duplicates.
pub proof fn copies_are_skipped(ctx: CtxV, st: PlanSt, f: Facts)
    requires
        remembers(st),
        is_open(ctx, f),
        not_stored(ctx, f),
        only_others_match(ctx, f),
        !holds_content(ctx, f.sig),
        queued(st, f.sig),
    ensures
        ({
            let next = ctx.step(st, f).plan;
            &&& next.to_embed == st.plan.to_embed
            &&& next.remaps == st.plan.remaps
            &&& next.refreshes == st.plan.refreshes
            &&& next.preskips == st.plan.preskips.push(
                PreSkipV { path: f.path, reason: SkipReason::DuplicateInRun },
            )
        }),
{
    lemma_not_silenced(ctx, f);
    lemma_queued(st, f.sig);
    lemma_lookups(ctx, f);
    let a = manifest::row_with_fingerprint(ctx.state, ctx.coll, f.fp);
    if a is Some {
        let k = choose|k: int| 0 <= k < ctx.state.len() && ctx.state[k] == a->0;
        assert(ctx.state[k].fingerprint == f.fp);
        assert(ctx.state[k].content_sig != f.sig);
        lemma_other_path(ctx, a->0, f);
    }
    let own = manifest::row_of(ctx.state, ctx.coll, ids::book_id_of(f.path));
    if own is Some {
        let k = choose|k: int| 0 <= k < ctx.state.len() && ctx.state[k] == own->0;
        if own->0.fingerprint == f.fp {
            assert(ctx.state[k].fingerprint == f.fp);
        }
    }
}

/// A file whose manifest row still fits is left alone, whatever its content is said to be.
pub proof fn unchanged_files_are_left_alone(ctx: CtxV, st: PlanSt, f: Facts, k: int)
    requires
        is_open(ctx, f),
        0 <= k < ctx.state.len(),
        ctx.state[k].collection == ctx.coll,
        ctx.state[k].book == ids::book_id_of(f.path),
        ctx.state[k].fingerprint == f.fp,
        forall|j: int|
            0 <= j < ctx.state.len() && (#[trigger] ctx.state[j]).collection == ctx.coll
                && ctx.state[j].book == ids::book_id_of(f.path) ==> j == k,
    ensures
        ctx.step(st, f).seen == st.seen,
        ({
            let next = ctx.step(st, f).plan;
            &&& next.to_embed == st.plan.to_embed
            &&& next.remaps == st.plan.remaps
            &&& next.refreshes == st.plan.refreshes
            &&& next.forced == st.plan.forced
            &&& next.preskips == st.plan.preskips.push(
                PreSkipV { path: f.path, reason: SkipReason::Unchanged },
            )
        }),
{
    lemma_not_silenced(ctx, f);
    lemma_lookups(ctx, f);
    let own = manifest::row_of(ctx.state, ctx.coll, ids::book_id_of(f.path));
    assert(ctx.state[k].book == ids::book_id_of(f.path));
    let j = choose|j: int| 0 <= j < ctx.state.len() && ctx.state[j] == own->0;
    assert(j == k);
}

/// A file that the store holds under its path, whose content is read, is unchanged; the manifest row
/// of the book there is brought up to date with what was read.
pub proof fn stored_paths_are_refreshed(ctx: CtxV, st: PlanSt, f: Facts)
    requires
        is_open(ctx, f),
        !ctx.indexed.contains(ids::book_id_of(f.path)),
        exists|k: int| 0 <= k < ctx.scan.len() && (#[trigger] ctx.scan[k]).1 == f.path,
        forall|k: int|
            0 <= k < ctx.state.len() && (#[trigger] ctx.state[k]).collection == ctx.coll
                ==> ctx.state[k].fingerprint != f.fp,
    ensures
        ({
            let next = ctx.step(st, f).plan;
            &&& next.to_embed == st.plan.to_embed
            &&& next.remaps == st.plan.remaps
            &&& next.preskips == st.plan.preskips.push(
                PreSkipV { path: f.path, reason: SkipReason::Unchanged },
            )
            &&& next.refreshes.len() == st.plan.refreshes.len() + 1
            &&& next.refreshes.drop_last() == st.plan.refreshes
            &&& exists|k: int|
                0 <= k < ctx.scan.len() && (#[trigger] ctx.scan[k]).1 == f.path
                    && next.refreshes.last() == (RefreshV {
                    book: ctx.scan[k].0,
                    path: f.path,
                    fingerprint: f.fp,
                    content_sig: Some(f.sig),
                })
        }),
{
    lemma_not_silenced(ctx, f);
    lemma_lookups(ctx, f);
    let a = manifest::row_with_fingerprint(ctx.state, ctx.coll, f.fp);
    if a is Some {
        let k = choose|k: int| 0 <= k < ctx.state.len() && ctx.state[k] == a->0;
        assert(ctx.state[k].fingerprint == f.fp);
    }
    let own = manifest::row_of(ctx.state, ctx.coll, ids::book_id_of(f.path));
    if own is Some {
        let k = choose|k: int| 0 <= k < ctx.state.len() && ctx.state[k] == own->0;
        assert(ctx.state[k].fingerprint != f.fp);
    }
    let e = ctx.book_at(f)->0;
    let k = choose|k: int| 0 <= k < ctx.scan.len() && ctx.scan[k] == e;
    assert(ctx.scan[k].1 == f.path);
    assert(ctx.step(st, f).plan.refreshes.drop_last() =~= st.plan.refreshes);
}

/// A file that the store holds under its own id, and the manifest nowhere, is unchanged; the
/// manifest learns its fingerprint.
pub proof fn stored_ids_are_refreshed(ctx: CtxV, st: PlanSt, f: Facts)
    requires
        is_open(ctx, f),
        ctx.indexed.contains(ids::book_id_of(f.path)),
        forall|k: int|
            0 <= k < ctx.state.len() && (#[trigger] ctx.state[k]).collection == ctx.coll
                ==> ctx.state[k].fingerprint != f.fp,
    ensures
        ({
            let next = ctx.step(st, f).plan;
            &&& next.to_embed == st.plan.to_embed
            &&& next.remaps == st.plan.remaps
            &&& next.preskips == st.plan.preskips.push(
                PreSkipV { path: f.path, reason: SkipReason::Unchanged },
            )
            &&& next.refreshes == st.plan.refreshes.push(
                RefreshV {
                    book: ids::book_id_of(f.path),
                    path: f.path,
                    fingerprint: f.fp,
                    content_sig: None,
                },
            )
        }),
{
    lemma_not_silenced(ctx, f);
    lemma_lookups(ctx, f);
    let a = manifest::row_with_fingerprint(ctx.state, ctx.coll, f.fp);
    if a is Some {
        let k = choose|k: int| 0 <= k < ctx.state.len() && ctx.state[k] == a->0;
        assert(ctx.state[k].fingerprint == f.fp);
    }
    let own = manifest::row_of(ctx.state, ctx.coll, ids::book_id_of(f.path));
    if own is Some {
        let k = choose|k: int| 0 <= k < ctx.state.len() && ctx.state[k] == own->0;
        assert(ctx.state[k].fingerprint != f.fp);
    }
}

/// A file under another name, or under another id at the same path, that has its row's fingerprint
/// is left alone.
pub proof fn other_names_are_left_alone(ctx: CtxV, st: PlanSt, f: Facts, k: int)
    requires
        is_open(ctx, f),
        0 <= k < ctx.state.len(),
        ctx.state[k].collection == ctx.coll,
        ctx.state[k].fingerprint == f.fp,
        ctx.state[k].book != ids::book_id_of(f.path),
        ctx.state[k].source_path.len() > 0,
        ctx.state[k].source_path == f.path || f.alias_fp,
        forall|j: int|
            0 <= j < ctx.state.len() && (#[trigger] ctx.state[j]).collection == ctx.coll
                && ctx.state[j].fingerprint == f.fp ==> j == k,
    ensures
        ({
            let next = ctx.step(st, f).plan;
            &&& next.to_embed == st.plan.to_embed
            &&& next.remaps == st.plan.remaps
            &&& next.refreshes == st.plan.refreshes
            &&& next.preskips == st.plan.preskips.push(
                PreSkipV { path: f.path, reason: SkipReason::Unchanged },
            )
        }),
{
    lemma_not_silenced(ctx, f);
    lemma_lookups(ctx, f);
    assert(ctx.state[k].fingerprint == f.fp);
    let a = manifest::row_with_fingerprint(ctx.state, ctx.coll, f.fp);
    let j = choose|j: int| 0 <= j < ctx.state.len() && ctx.state[j] == a->0;
    assert(j == k);
    let own = manifest::row_of(ctx.state, ctx.coll, ids::book_id_of(f.path));
    if own is Some {
        let i = choose|i: int| 0 <= i < ctx.state.len() && ctx.state[i] == own->0;
        if own->0.fingerprint == f.fp {
            assert(ctx.state[i].fingerprint == f.fp);
        }
    }
}

/// A re-timestamped file keeps its book: where only its own row, or one at its path, holds its
/// content, that row is brought up to date and nothing is embedded or moved.
pub proof fn retimed_files_are_refreshed(ctx: CtxV, st: PlanSt, f: Facts, k: int)
    requires
        remembers(st),
        is_open(ctx, f),
        not_stored(ctx, f),
        !queued(st, f.sig),
        0 <= k < ctx.state.len(),
        ctx.state[k].collection == ctx.coll,
        ctx.state[k].content_sig == f.sig,
        ctx.state[k].book == ids::book_id_of(f.path) || (ctx.state[k].source_path.len() > 0 && (
        ctx.state[k].source_path == f.path || f.alias_sig)),
        forall|j: int|
            0 <= j < ctx.state.len() && (#[trigger] ctx.state[j]).collection == ctx.coll
                && ctx.state[j].content_sig == f.sig ==> j == k,
        forall|j: int|
            0 <= j < ctx.state.len() && (#[trigger] ctx.state[j]).collection == ctx.coll
                ==> ctx.state[j].fingerprint != f.fp,
    ensures
        ({
            let next = ctx.step(st, f).plan;
            &&& next.to_embed == st.plan.to_embed
            &&& next.remaps == st.plan.remaps
            &&& next.refreshes == st.plan.refreshes.push(
                RefreshV {
                    book: ctx.state[k].book,
                    path: f.path,
                    fingerprint: f.fp,
                    content_sig: Some(f.sig),
                },
            )
            &&& next.preskips == st.plan.preskips.push(
                PreSkipV { path: f.path, reason: SkipReason::Unchanged },
            )
        }),
{
    lemma_not_silenced(ctx, f);
    lemma_queued(st, f.sig);
    lemma_lookups(ctx, f);
    let a = manifest::row_with_fingerprint(ctx.state, ctx.coll, f.fp);
    if a is Some {
        let i = choose|i: int| 0 <= i < ctx.state.len() && ctx.state[i] == a->0;
        assert(ctx.state[i].fingerprint == f.fp);
    }
    let own = manifest::row_of(ctx.state, ctx.coll, ids::book_id_of(f.path));
    if own is Some {
        let i = choose|i: int| 0 <= i < ctx.state.len() && ctx.state[i] == own->0;
        assert(ctx.state[i].fingerprint != f.fp);
    }
    assert(ctx.state[k].content_sig == f.sig);
    let c = manifest::row_with_content(ctx.state, ctx.coll, f.sig);
    let j = choose|j: int| 0 <= j < ctx.state.len() && ctx.state[j] == c->0;
    assert(j == k);
}

/// Under re-chunking, a file whose book was cut by an older chunker is embedded again, once.
pub proof fn old_cuts_are_embedded_again(ctx: CtxV, st: PlanSt, f: Facts, k: int)
    requires
        remembers(st),
        ctx.rechunk,
        !manifest::sentinel(f.fp),
        !manifest::sentinel(f.sig),
        no_skip_applies(ctx, f),
        !queued(st, f.sig),
        0 <= k < ctx.state.len(),
        ctx.state[k].collection == ctx.coll,
        ctx.state[k].book == ids::book_id_of(f.path),
        ctx.state[k].chunker_ver < manifest::CURRENT_CHUNKER_VER,
        forall|j: int|
            0 <= j < ctx.state.len() && (#[trigger] ctx.state[j]).collection == ctx.coll
                && ctx.state[j].book == ids::book_id_of(f.path) ==> j == k,
    ensures
        ({
            let next = ctx.step(st, f).plan;
            &&& next.to_embed == st.plan.to_embed.push(
                EmbedV { path: f.path, fingerprint: f.fp, content_sig: f.sig },
            )
            &&& next.forced == st.plan.forced + 1
            &&& next.preskips == st.plan.preskips
            &&& next.remaps == st.plan.remaps
            &&& next.refreshes == st.plan.refreshes
        }),
{
    lemma_not_silenced(ctx, f);
    lemma_queued(st, f.sig);
    lemma_lookups(ctx, f);
    assert(ctx.state[k].book == ids::book_id_of(f.path));
    let own = manifest::row_of(ctx.state, ctx.coll, ids::book_id_of(f.path));
    let j = choose|j: int| 0 <= j < ctx.state.len() && ctx.state[j] == own->0;
    assert(j == k);
}

/// A skip that applies silences a readable file.
pub proof fn applying_skips_silence(ctx: CtxV, st: PlanSt, f: Facts, k: int)
    requires
        !manifest::sentinel(f.fp),
        0 <= k < ctx.skips.len(),
        ctx.skips[k].collection == ctx.coll,
        ctx.skips[k].source_path == f.path,
        ctx.skips[k].pipeline == ctx.pipeline,
        ctx.skips[k].fingerprint == f.fp,
        ctx.skips[k].caps_ver == ctx.caps,
        forall|j: int|
            0 <= j < ctx.skips.len() && (#[trigger] ctx.skips[j]).collection == ctx.coll
                && ctx.skips[j].source_path == f.path && ctx.skips[j].pipeline == ctx.pipeline
                ==> j == k,
    ensures
        ({
            let next = ctx.step(st, f).plan;
            &&& next.to_embed == st.plan.to_embed
            &&& next.remaps == st.plan.remaps
            &&& next.refreshes == st.plan.refreshes
            &&& next.forced == st.plan.forced
            &&& next.preskips == st.plan.preskips.push(
                PreSkipV { path: f.path, reason: SkipReason::Silenced },
            )
        }),
{
    let p = manifest::of_skip(ctx.coll, f.path, ctx.pipeline);
    rows::lemma_first_where(ctx.skips, p);
    assert(p(ctx.skips[k]));
}

/// A file that cannot be read is skipped as such: without a fingerprint always, and without a
/// signature where nothing else is known of it.
pub proof fn unreadable_files_are_skipped(ctx: CtxV, st: PlanSt, f: Facts)
    requires
        f.fp == "missing"@ || f.fp.len() == 0 || (no_skip_applies(ctx, f) && not_stored(ctx, f)
            && !ctx.rechunk && (f.sig == "missing"@ || f.sig.len() == 0) && forall|k: int|
            0 <= k < ctx.state.len() && (#[trigger] ctx.state[k]).collection == ctx.coll
                ==> ctx.state[k].fingerprint != f.fp),
    ensures
        ctx.step(st, f).seen == st.seen,
        ({
            let next = ctx.step(st, f).plan;
            &&& next.to_embed == st.plan.to_embed
            &&& next.remaps == st.plan.remaps
            &&& next.refreshes == st.plan.refreshes
            &&& next.forced == st.plan.forced
            &&& next.preskips == st.plan.preskips.push(
                PreSkipV { path: f.path, reason: SkipReason::Unreadable },
            )
        }),
{
    if !manifest::sentinel(f.fp) {
        lemma_not_silenced(ctx, f);
        lemma_lookups(ctx, f);
        let a = manifest::row_with_fingerprint(ctx.state, ctx.coll, f.fp);
        if a is Some {
            let k = choose|k: int| 0 <= k < ctx.state.len() && ctx.state[k] == a->0;
            assert(ctx.state[k].fingerprint == f.fp);
        }
        let own = manifest::row_of(ctx.state, ctx.coll, ids::book_id_of(f.path));
        if own is Some {
            let k = choose|k: int| 0 <= k < ctx.state.len() && ctx.state[k] == own->0;
            assert(ctx.state[k].fingerprint != f.fp);
        }
    }
}

/// A plan is made file by file, in the order of the files: what was decided stays, and every file
/// adds either itself to what is embedded, or itself to what is skipped.
pub proof fn plans_grow_file_by_file(ctx: CtxV, facts: Seq<Facts>)
    requires
        facts.len() > 0,
    ensures
        ({
            let f = facts.last();
            let st = ctx.run(facts.drop_last());
            let a = st.plan;
            let b = ctx.run(facts).plan;
            &&& ctx.run(facts) == ctx.step(st, f)
            &&& a.remaps.is_prefix_of(b.remaps)
            &&& a.refreshes.is_prefix_of(b.refreshes)
            &&& b.remaps.len() + b.refreshes.len() <= a.remaps.len() + a.refreshes.len() + 1
            &&& a.forced <= b.forced <= a.forced + 1
            &&& (b.preskips == a.preskips && b.to_embed.len() == a.to_embed.len() + 1
                && b.to_embed.drop_last() == a.to_embed && b.to_embed.last().path == f.path
                && b.to_embed.last().fingerprint == f.fp && b.to_embed.last().content_sig == f.sig)
                || (b.to_embed == a.to_embed && b.preskips.len() == a.preskips.len() + 1
                && b.preskips.drop_last() == a.preskips && b.preskips.last().path == f.path)
        }),
{
    let f = facts.last();
    let a = ctx.run(facts.drop_last()).plan;
    let b = ctx.run(facts).plan;
    assert(b.to_embed.len() > a.to_embed.len() ==> b.to_embed.drop_last() =~= a.to_embed);
    assert(b.preskips.len() > a.preskips.len() ==> b.preskips.drop_last() =~= a.preskips);
    assert(a.remaps.is_prefix_of(b.remaps));
    assert(a.refreshes.is_prefix_of(b.refreshes));
}

/// A run over no files plans nothing.
pub proof fn no_files_no_plan(ctx: CtxV)
    ensures
        ({
            let p = ctx.run(Seq::empty()).plan;
            &&& p.to_embed.len() == 0 && p.preskips.len() == 0 && p.remaps.len() == 0
            &&& p.refreshes.len() == 0 && p.forced == 0
        }),
{
}

} // verus!
