//! What the planner guarantees of every run.
use vstd::prelude::*;
use crate::ids;
use crate::manifest;
use crate::manifest::StateV;
use crate::manifest_laws;
use crate::plan;
use crate::plan::{CtxV, Facts, PlanSt, SkipReason};
use crate::rows;

verus! {

/// Every candidate is accounted for exactly once: it is embedded, or skipped with a reason.
pub proof fn every_candidate_is_accounted_for(ctx: CtxV, facts: Seq<Facts>)
    ensures
        ctx.run(facts).plan.to_embed.len() + ctx.run(facts).plan.preskips.len() == facts.len(),
    decreases facts.len(),
{
    if facts.len() > 0 {
        every_candidate_is_accounted_for(ctx, facts.drop_last());
    }
}

/// Failure sentinels are poison, never identity: no embedded item, no remap and no refresh carries
/// one.
pub proof fn sentinels_are_never_carried(ctx: CtxV, facts: Seq<Facts>)
    ensures
        ({
            let plan = ctx.run(facts).plan;
            &&& forall|i: int|
                0 <= i < plan.to_embed.len() ==> !manifest::sentinel(
                    (#[trigger] plan.to_embed[i]).fingerprint,
                ) && !manifest::sentinel(plan.to_embed[i].content_sig)
            &&& forall|i: int|
                0 <= i < plan.remaps.len() ==> (#[trigger] plan.remaps[i]).content_sig is Some
                    && !manifest::sentinel(plan.remaps[i].content_sig->0) && !manifest::sentinel(
                    plan.remaps[i].fingerprint,
                )
            &&& forall|i: int|
                0 <= i < plan.refreshes.len() ==> !manifest::sentinel(
                    (#[trigger] plan.refreshes[i]).fingerprint,
                ) && (plan.refreshes[i].content_sig is Some ==> !manifest::sentinel(
                    plan.refreshes[i].content_sig->0,
                ))
        }),
    decreases facts.len(),
{
    if facts.len() > 0 {
        let init = facts.drop_last();
        sentinels_are_never_carried(ctx, init);
        let before = ctx.run(init).plan;
        let plan = ctx.run(facts).plan;
        assert forall|i: int| 0 <= i < plan.to_embed.len() implies !manifest::sentinel(
            (#[trigger] plan.to_embed[i]).fingerprint,
        ) && !manifest::sentinel(plan.to_embed[i].content_sig) by {
            if i < before.to_embed.len() {
                assert(plan.to_embed[i] == before.to_embed[i]);
            }
        }
        assert forall|i: int| 0 <= i < plan.remaps.len() implies (
        #[trigger] plan.remaps[i]).content_sig is Some && !manifest::sentinel(
            plan.remaps[i].content_sig->0,
        ) && !manifest::sentinel(plan.remaps[i].fingerprint) by {
            if i < before.remaps.len() {
                assert(plan.remaps[i] == before.remaps[i]);
            }
        }
        assert forall|i: int| 0 <= i < plan.refreshes.len() implies !manifest::sentinel(
            (#[trigger] plan.refreshes[i]).fingerprint,
        ) && (plan.refreshes[i].content_sig is Some ==> !manifest::sentinel(
            plan.refreshes[i].content_sig->0,
        )) by {
            if i < before.refreshes.len() {
                assert(plan.refreshes[i] == before.refreshes[i]);
            }
        }
    }
}

/// An unreadable file changes nothing but the list of skips.
pub proof fn unreadable_leaves_no_state(ctx: CtxV, st: PlanSt, f: Facts)
    requires
        manifest::sentinel(f.fp) || (ctx.needs_signature(f) && manifest::sentinel(f.sig)),
    ensures
        ctx.step(st, f) == (PlanSt {
            plan: st.plan.skip(f.path, SkipReason::Unreadable),
            seen: st.seen,
        }),
{
}

/// The content signatures queued in a run are those of its embedded items, in order.
pub proof fn lemma_seen_is_embedded(ctx: CtxV, facts: Seq<Facts>)
    ensures
        ctx.run(facts).seen.len() == ctx.run(facts).plan.to_embed.len(),
        forall|i: int|
            0 <= i < ctx.run(facts).seen.len() ==> #[trigger] ctx.run(facts).seen[i] == ctx.run(
                facts,
            ).plan.to_embed[i].content_sig,
    decreases facts.len(),
{
    if facts.len() > 0 {
        let init = facts.drop_last();
        lemma_seen_is_embedded(ctx, init);
        let a = ctx.run(init);
        let b = ctx.run(facts);
        assert forall|i: int| 0 <= i < b.seen.len() implies #[trigger] b.seen[i]
            == b.plan.to_embed[i].content_sig by {
            if i < a.seen.len() {
                assert(b.seen[i] == a.seen[i]);
                assert(b.plan.to_embed[i] == a.plan.to_embed[i]);
            }
        }
    }
}

/// The same content queued twice in one run is embedded once.
pub proof fn in_run_duplicates_embed_once(ctx: CtxV, facts: Seq<Facts>, i: int, j: int)
    requires
        0 <= i < j < ctx.run(facts).plan.to_embed.len(),
    ensures
        ctx.run(facts).plan.to_embed[i].content_sig != ctx.run(facts).plan.to_embed[j].content_sig,
    decreases facts.len(),
{
    if facts.len() > 0 {
        let init = facts.drop_last();
        let a = ctx.run(init);
        let b = ctx.run(facts);
        lemma_seen_is_embedded(ctx, init);
        if j < a.plan.to_embed.len() {
            in_run_duplicates_embed_once(ctx, init, i, j);
            assert(b.plan.to_embed[i] == a.plan.to_embed[i]);
            assert(b.plan.to_embed[j] == a.plan.to_embed[j]);
        } else {
            assert(b.plan.to_embed[i] == a.plan.to_embed[i]);
            assert(a.seen[i] == a.plan.to_embed[i].content_sig);
            assert(!a.seen.contains(facts.last().sig));
        }
    }
}

/// A remap is proven by content: it re-points a row of the collection whose content signature is
/// the candidate's, from another id. A shared fingerprint alone never remaps.
pub proof fn remaps_are_proven_by_content(ctx: CtxV, facts: Seq<Facts>, i: int)
    requires
        0 <= i < ctx.run(facts).plan.remaps.len(),
    ensures
        ({
            let m = ctx.run(facts).plan.remaps[i];
            &&& m.old_id != m.new_id
            &&& m.new_id == ids::book_id_of(m.path)
            &&& exists|k: int|
                0 <= k < ctx.state.len() && (#[trigger] ctx.state[k]).collection == ctx.coll
                    && ctx.state[k].book == m.old_id && m.content_sig == Some(
                    ctx.state[k].content_sig,
                ) && ctx.state[k].chunker_ver == m.chunker_ver
        }),
    decreases facts.len(),
{
    if facts.len() > 0 {
        let init = facts.drop_last();
        let f = facts.last();
        let a = ctx.run(init);
        let b = ctx.run(facts);
        if i < a.plan.remaps.len() {
            remaps_are_proven_by_content(ctx, init, i);
            assert(b.plan.remaps[i] == a.plan.remaps[i]);
        } else {
            rows::lemma_first_where(ctx.state, manifest::with_fingerprint(ctx.coll, f.fp));
            rows::lemma_first_where(ctx.state, manifest::with_content(ctx.coll, f.sig));
        }
    }
}

/// Outside re-chunk mode, a file that is still what its manifest row says, whether under its own id
/// or under a legacy id at the same path, is neither embedded nor remapped.
pub proof fn unmoved_books_never_reembed_or_remap(ctx: CtxV, st: PlanSt, f: Facts)
    requires
        !ctx.rechunk,
        ctx.unchanged(f) || ctx.same_file_by_fp(f),
    ensures
        ctx.step(st, f).plan.to_embed == st.plan.to_embed,
        ctx.step(st, f).plan.remaps == st.plan.remaps,
        ctx.step(st, f).plan.forced == st.plan.forced,
        ctx.step(st, f).seen == st.seen,
{
}

/// Two files that share a fingerprint but not their content are never remapped onto one another.
pub proof fn fingerprint_collision_never_remaps(ctx: CtxV, st: PlanSt, f: Facts)
    requires
        ctx.fp_row(f) is Some,
        ctx.fp_row(f)->0.content_sig != f.sig,
        ctx.sig_row(f) is None,
    ensures
        ctx.step(st, f).plan.remaps == st.plan.remaps,
{
}

/// A candidate that the manifest and the current chunker already cover.
pub open spec fn settled(ctx: CtxV, f: Facts) -> bool {
    &&& ctx.own_row(f) is Some
    &&& ctx.own_row(f)->0.fingerprint == f.fp
    &&& ctx.own_row(f)->0.chunker_ver >= manifest::CURRENT_CHUNKER_VER
}

/// A run over settled candidates is a fixed point: nothing is embedded, remapped, refreshed or
/// forced, whether or not re-chunking is armed.
pub proof fn settled_run_does_nothing(ctx: CtxV, facts: Seq<Facts>)
    requires
        forall|i: int| 0 <= i < facts.len() ==> settled(ctx, #[trigger] facts[i]),
    ensures
        ({
            let plan = ctx.run(facts).plan;
            &&& plan.to_embed.len() == 0
            &&& plan.remaps.len() == 0
            &&& plan.refreshes.len() == 0
            &&& plan.forced == 0
        }),
    decreases facts.len(),
{
    if facts.len() > 0 {
        let init = facts.drop_last();
        assert forall|i: int| 0 <= i < init.len() implies settled(ctx, #[trigger] init[i]) by {
            assert(init[i] == facts[i]);
        }
        settled_run_does_nothing(ctx, init);
        assert(settled(ctx, facts[facts.len() - 1]));
    }
}

/// A context whose manifest is replaced by another.
pub open spec fn with_state(ctx: CtxV, state: Seq<StateV>) -> CtxV {
    CtxV { state, ..ctx }
}

/// Recording an embedded file settles it: the next run finds it unchanged.
pub proof fn embedding_settles_a_candidate(ctx: CtxV, f: Facts)
    requires
        manifest_laws::keyed(ctx.state),
        !manifest::sentinel(f.fp),
        !manifest::sentinel(f.sig),
    ensures
        settled(
            with_state(
                ctx,
                manifest::recorded(
                    ctx.state,
                    StateV {
                        collection: ctx.coll,
                        book: ids::book_id_of(f.path),
                        fingerprint: f.fp,
                        content_sig: f.sig,
                        chunker_ver: manifest::CURRENT_CHUNKER_VER as int,
                        source_path: f.path,
                    },
                ),
            ),
            f,
        ),
{
    let row = StateV {
        collection: ctx.coll,
        book: ids::book_id_of(f.path),
        fingerprint: f.fp,
        content_sig: f.sig,
        chunker_ver: manifest::CURRENT_CHUNKER_VER as int,
        source_path: f.path,
    };
    manifest_laws::recorded_book_reads_back(ctx.state, row, row.collection, row.book);
}

/// Settling one candidate does not unsettle another with a different id.
pub proof fn settling_one_keeps_another(ctx: CtxV, row: StateV, f: Facts)
    requires
        manifest_laws::keyed(ctx.state),
        settled(ctx, f),
        row.book != ids::book_id_of(f.path),
        !manifest::sentinel(row.fingerprint),
        !manifest::sentinel(row.content_sig),
    ensures
        settled(with_state(ctx, manifest::recorded(ctx.state, row)), f),
{
    manifest_laws::recorded_book_reads_back(ctx.state, row, ctx.coll, ids::book_id_of(f.path));
}

/// Metadata churn costs one signature read: once the fingerprint of the row found by content is
/// refreshed, the next run decides about the file without reading its signature.
pub proof fn churn_is_read_once(ctx: CtxV, f: Facts)
    requires
        manifest_laws::keyed(ctx.state),
        manifest_laws::clean(ctx.state),
        !ctx.rechunk,
        f.path.len() > 0,
        !manifest::sentinel(f.fp),
        !manifest::sentinel(f.sig),
        manifest::row_with_fingerprint(ctx.state, ctx.coll, f.fp) is None,
        ctx.sig_row(f) is Some,
    ensures
        !with_state(
            ctx,
            manifest::refreshed(
                ctx.state,
                ctx.coll,
                ctx.sig_row(f)->0.book,
                f.fp,
                Some(f.sig),
                f.path,
            ),
        ).needs_signature(f),
{
    let book = ctx.sig_row(f)->0.book;
    let after = manifest::refreshed(ctx.state, ctx.coll, book, f.fp, Some(f.sig), f.path);
    manifest_laws::refresh_keeps_chunker_version(
        ctx.state,
        ctx.coll,
        book,
        f.fp,
        Some(f.sig),
        f.path,
    );
    let row = manifest::row_of(after, ctx.coll, book)->0;
    // The refreshed row is the only one with the fingerprint.
    let p = manifest::with_fingerprint(ctx.coll, f.fp);
    let q = manifest::of_book(ctx.coll, book);
    rows::lemma_first_where(ctx.state, p);
    rows::lemma_first_where(ctx.state, q);
    rows::lemma_first_where(after, q);
    rows::lemma_first_where(after, p);
    assert(after.contains(row));
    let k = rows::first_where(after, q)->0;
    assert(p(after[k]));
    assert forall|j: int| 0 <= j < k implies !p(#[trigger] after[j]) by {
        if j < ctx.state.len() {
            assert(!q(after[j]));
            assert(after[j] == ctx.state[j]);
            assert(!p(ctx.state[j]));
        }
    }
    rows::lemma_first_where_is(after, p, k);
    assert(manifest::row_with_fingerprint(after, ctx.coll, f.fp) == Some(row));
    assert(row.source_path == f.path);
}

/// A recorded skip of the same file, pipeline and capabilities silences a candidate; a change of
/// the file or of the capabilities retries it.
pub proof fn recorded_skip_silences_until_something_changes(
    ctx: CtxV,
    f: Facts,
    caps: Seq<char>,
    fp: Seq<char>,
    reason: Seq<char>,
)
    requires
        !manifest::sentinel(fp),
    ensures
        ({
            let row = manifest::SkipV {
                collection: ctx.coll,
                source_path: f.path,
                pipeline: ctx.pipeline,
                fingerprint: fp,
                reason,
                caps_ver: caps,
            };
            let next = CtxV { skips: manifest::skip_recorded(ctx.skips, row), ..ctx };
            next.silenced(f) <==> (fp == f.fp && caps == ctx.caps)
        }),
{
    let row = manifest::SkipV {
        collection: ctx.coll,
        source_path: f.path,
        pipeline: ctx.pipeline,
        fingerprint: fp,
        reason,
        caps_ver: caps,
    };
    manifest_laws::skips_are_scoped_by_path_and_pipeline(
        ctx.skips,
        row,
        ctx.coll,
        f.path,
        ctx.pipeline,
    );
}

/// A skip of another file or of the other pipeline never silences a candidate, and a silenced
/// candidate is only counted.
pub proof fn skips_of_others_never_silence(ctx: CtxV, f: Facts, row: manifest::SkipV, st: PlanSt)
    requires
        !manifest::sentinel(row.fingerprint),
        row.source_path != f.path || row.pipeline != ctx.pipeline || row.collection != ctx.coll,
    ensures
        ({
            let next = CtxV { skips: manifest::skip_recorded(ctx.skips, row), ..ctx };
            next.silenced(f) == ctx.silenced(f)
        }),
        !manifest::sentinel(f.fp) && ctx.silenced(f) ==> ctx.step(st, f) == (PlanSt {
            plan: st.plan.skip(f.path, SkipReason::Silenced),
            seen: st.seen,
        }),
{
    manifest_laws::skips_are_scoped_by_path_and_pipeline(
        ctx.skips,
        row,
        ctx.coll,
        f.path,
        ctx.pipeline,
    );
}

/// Re-chunk work is counted only while there is some: without the flag nothing is forced.
pub proof fn nothing_is_forced_unless_armed(ctx: CtxV, facts: Seq<Facts>)
    requires
        !ctx.rechunk,
    ensures
        ctx.run(facts).plan.forced == 0,
    decreases facts.len(),
{
    if facts.len() > 0 {
        nothing_is_forced_unless_armed(ctx, facts.drop_last());
    }
}

/// Under re-chunk, every legacy candidate that can be read is counted as pending work.
pub proof fn legacy_work_is_counted(ctx: CtxV, st: PlanSt, f: Facts)
    requires
        ctx.forced(f),
        !manifest::sentinel(f.fp),
        !ctx.silenced(f),
        !manifest::sentinel(f.sig),
    ensures
        ctx.step(st, f).plan.forced == st.plan.forced + 1,
        ctx.step(st, f).plan.to_embed.len() == st.plan.to_embed.len() + if st.seen.contains(f.sig) {
            0int
        } else {
            1
        },
{
}

/// A function that gives a file one answer only.
pub open spec fn one_answer<F: Fn(&str) -> String>(f: F) -> bool {
    forall|p: Seq<char>, a: Seq<char>, b: Seq<char>| #[trigger]
        plan::answered(f, p, a) && #[trigger] plan::answered(f, p, b) ==> a == b
}

/// A function that gives two paths one answer only.
pub open spec fn one_verdict<H: Fn(&str, &str) -> bool>(f: H) -> bool {
    forall|p: Seq<char>, q: Seq<char>| !(plan::aliased(f, p, q, true) && plan::aliased(f, p, q, false))
}

/// A plan writes nothing and leaves nothing open: planned again with the same candidates and the
/// same context, while the file system answers as before, a run comes out the same.
pub proof fn planning_again_gives_the_same_plan<
    F: Fn(&str) -> String,
    G: Fn(&str) -> String,
    H: Fn(&str, &str) -> bool,
>(
    ctx: CtxV,
    paths: Seq<Seq<char>>,
    first: Seq<Facts>,
    second: Seq<Facts>,
    fp_fn: F,
    csig_fn: G,
    alias_fn: H,
)
    requires
        one_answer(fp_fn),
        one_answer(csig_fn),
        one_verdict(alias_fn),
        plan::truthful_run(ctx, paths, first, fp_fn, csig_fn, alias_fn),
        plan::truthful_run(ctx, paths, second, fp_fn, csig_fn, alias_fn),
    ensures
        ctx.run(first) == ctx.run(second),
    decreases paths.len(),
{
    if paths.len() > 0 {
        let n = paths.len() - 1;
        let a = first.drop_last();
        let b = second.drop_last();
        let less = paths.drop_last();
        assert(first[n].path == paths[n]);
        assert(second[n].path == paths[n]);
        assert forall|i: int| 0 <= i < a.len() implies #[trigger] a[i].path == less[i]
            && plan::truthful(ctx, ctx.run(a.take(i)).seen, a[i], fp_fn, csig_fn, alias_fn) by {
            assert(first[i].path == paths[i]);
            assert(a.take(i) =~= first.take(i));
        }
        assert forall|i: int| 0 <= i < b.len() implies #[trigger] b[i].path == less[i]
            && plan::truthful(ctx, ctx.run(b.take(i)).seen, b[i], fp_fn, csig_fn, alias_fn) by {
            assert(second[i].path == paths[i]);
            assert(b.take(i) =~= second.take(i));
        }
        planning_again_gives_the_same_plan(ctx, less, a, b, fp_fn, csig_fn, alias_fn);
        assert(first.take(n) =~= a);
        assert(second.take(n) =~= b);
        lemma_one_decision(ctx, ctx.run(a), first[n], second[n], fp_fn, csig_fn, alias_fn);
    }
}

/// Two sets of truthful facts about one candidate lead to one decision.
proof fn lemma_one_decision<
    F: Fn(&str) -> String,
    G: Fn(&str) -> String,
    H: Fn(&str, &str) -> bool,
>(ctx: CtxV, st: PlanSt, f: Facts, g: Facts, fp_fn: F, csig_fn: G, alias_fn: H)
    requires
        one_answer(fp_fn),
        one_answer(csig_fn),
        one_verdict(alias_fn),
        f.path == g.path,
        plan::truthful(ctx, st.seen, f, fp_fn, csig_fn, alias_fn),
        plan::truthful(ctx, st.seen, g, fp_fn, csig_fn, alias_fn),
    ensures
        ctx.step(st, f) == ctx.step(st, g),
{
    assert(f.fp == g.fp);
    assert(ctx.asks_by_fp(f) == ctx.asks_by_fp(g));
    assert(f.alias_fp == g.alias_fp);
    assert(ctx.needs_signature(f) == ctx.needs_signature(g));
    if ctx.needs_signature(f) {
        assert(f.sig == g.sig);
        assert(ctx.asks_by_sig(st.seen, f) == ctx.asks_by_sig(st.seen, g));
        assert(f.alias_sig == g.alias_sig);
    }
}

} // verus!
