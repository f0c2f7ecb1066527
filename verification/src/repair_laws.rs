//! Repairs are complete: after all of them a fresh scan finds nothing more to repair.
use vstd::prelude::*;
use crate::formats;
use crate::ids;
use crate::maintenance;
use crate::maintenance::{EvidenceV, OrphanV, RemoveV, ReportV, StampV, StoredFormatV, VariantV};
use crate::manifest;
use crate::manifest::{DbV, StateV};
use crate::order;
use crate::plan;
use crate::repair;
use crate::repair::{StepV, StepsV};
use crate::rows;
use crate::upkeep_laws;

verus! {

/// A step deletes a book from the store.
pub open spec fn deletes(step: StepV, book: Seq<char>) -> bool {
    match step {
        StepV::RemovePath { path, ids } => ids.contains(book),
        StepV::DropIds { ids } => ids.contains(book),
        _ => false,
    }
}

/// A step drops a manifest row.
pub open spec fn forgets(coll: Seq<char>, step: StepV, row: StateV) -> bool {
    row.collection == coll && match step {
        StepV::RemovePath { path, ids } => row.source_path == path || row.book == ids::book_id_of(
            path,
        ),
        StepV::ForgetPath { path } => row.source_path == path || row.book == ids::book_id_of(path),
        StepV::ForgetBook { book } => row.book == book,
        StepV::DropIds { ids } => ids.contains(row.book),
        StepV::Restamp { to, ids } => false,
    }
}

/// The steps of a repair of everything that a report lists.
pub open spec fn full_repair(ev: EvidenceV, report: ReportV) -> Seq<StepV> {
    repair::orphan_steps(ev.pairs, report.orphans).steps + repair::dup_steps(
        ev.pairs,
        report.dup_variants,
    ).steps + repair::multi_steps(report.multi_id).steps + repair::stamp_steps(
        report.bad_stamps,
        repair::targets_of(report.bad_stamps),
    ).steps
}

/// The manifest after some steps.
pub open spec fn after_all(db: DbV, coll: Seq<char>, steps: Seq<StepV>) -> DbV
    decreases steps.len(),
{
    if steps.len() == 0 {
        db
    } else {
        repair::manifest_after(after_all(db, coll, steps.drop_last()), coll, steps.last())
    }
}

/// The store after some steps: the same disk, and only pairs of books that no step deletes.
pub open spec fn store_after(ev: EvidenceV, steps: Seq<StepV>, after: EvidenceV) -> bool {
    &&& after.present == ev.present
    &&& after.unreachable == ev.unreachable
    &&& after.variants == ev.variants
    &&& forall|k: int|
        0 <= k < after.pairs.len() ==> ev.pairs.contains(#[trigger] after.pairs[k]) && (forall|i: int|
            0 <= i < steps.len() ==> !deletes(#[trigger] steps[i], after.pairs[k].0))
    &&& forall|b: Seq<char>|
        #[trigger] after.ids.contains(b) <==> (exists|k: int|
            0 <= k < after.pairs.len() && (#[trigger] after.pairs[k]).0 == b)
}

proof fn lemma_forget_books(state: Seq<StateV>, coll: Seq<char>, books: Seq<Seq<char>>, row: StateV)
    requires
        repair::forget_books(state, coll, books).contains(row),
    ensures
        state.contains(row),
        !(row.collection == coll && books.contains(row.book)),
    decreases books.len(),
{
    if books.len() > 0 {
        let inner = repair::forget_books(state, coll, books.drop_last());
        let p = |x: StateV| !(manifest::of_book(coll, books.last()))(x);
        rows::lemma_keep(inner, p);
        let kept = rows::keep(inner, p);
        let i = choose|i: int| 0 <= i < kept.len() && kept[i] == row;
        assert(inner.contains(kept[i]));
        assert(p(kept[i]));
        lemma_forget_books(state, coll, books.drop_last(), row);
        if row.collection == coll && books.contains(row.book) {
            let j = choose|j: int| 0 <= j < books.len() && books[j] == row.book;
            assert(books.drop_last()[j] == row.book);
        }
    }
}

proof fn lemma_step_keeps(db: DbV, coll: Seq<char>, step: StepV, row: StateV)
    requires
        repair::manifest_after(db, coll, step).state.contains(row),
    ensures
        db.state.contains(row),
        !forgets(coll, step, row),
{
    match step {
        StepV::RemovePath { path, ids } => {
            lemma_path_keeps(db, coll, path, row);
        },
        StepV::ForgetPath { path } => {
            lemma_path_keeps(db, coll, path, row);
        },
        StepV::ForgetBook { book } => {
            let p = |x: StateV| !(manifest::of_book(coll, book))(x);
            rows::lemma_keep(db.state, p);
            let kept = rows::keep(db.state, p);
            let i = choose|i: int| 0 <= i < kept.len() && kept[i] == row;
            assert(db.state.contains(kept[i]) && p(kept[i]));
        },
        StepV::DropIds { ids } => {
            lemma_forget_books(db.state, coll, ids, row);
        },
        StepV::Restamp { to, ids } => {},
    }
}

proof fn lemma_path_keeps(db: DbV, coll: Seq<char>, path: Seq<char>, row: StateV)
    requires
        repair::forget_path(db, coll, path).state.contains(row),
    ensures
        db.state.contains(row),
        !(row.collection == coll && (row.source_path == path || row.book == ids::book_id_of(path))),
{
    let p = |x: StateV| !(manifest::at_path_or_book(coll, path, ids::book_id_of(path)))(x);
    rows::lemma_keep(db.state, p);
    let kept = rows::keep(db.state, p);
    let i = choose|i: int| 0 <= i < kept.len() && kept[i] == row;
    assert(db.state.contains(kept[i]) && p(kept[i]));
}

proof fn lemma_after_all(db: DbV, coll: Seq<char>, steps: Seq<StepV>, row: StateV)
    requires
        after_all(db, coll, steps).state.contains(row),
    ensures
        db.state.contains(row),
        forall|i: int| 0 <= i < steps.len() ==> !forgets(coll, #[trigger] steps[i], row),
    decreases steps.len(),
{
    if steps.len() > 0 {
        lemma_step_keeps(after_all(db, coll, steps.drop_last()), coll, steps.last(), row);
        lemma_after_all(db, coll, steps.drop_last(), row);
        assert forall|i: int| 0 <= i < steps.len() implies !forgets(
            coll,
            #[trigger] steps[i],
            row,
        ) by {
            if i < steps.len() - 1 {
                assert(steps.drop_last()[i] == steps[i]);
            }
        }
    }
}

/// A path the store still holds after a repair is not gone.
proof fn lemma_no_gone_path(
    ev: EvidenceV,
    state: Seq<StateV>,
    coll: Seq<char>,
    after: EvidenceV,
    k: int,
)
    requires
        store_after(ev, full_repair(ev, ev.report(state, coll)), after),
        0 <= k < after.pairs.len(),
    ensures
        !ev.gone(after.pairs[k].1),
{
    let pair = after.pairs[k];
    let j = choose|j: int| 0 <= j < ev.pairs.len() && ev.pairs[j] == pair;
    if ev.gone(pair.1) {
        upkeep_laws::orphan_repair_clears_the_store(ev, state, coll, j);
        let steps = repair::orphan_steps(ev.pairs, ev.report(state, coll).orphans).steps;
        let all = full_repair(ev, ev.report(state, coll));
        let i = choose|i: int|
            0 <= i < steps.len() && #[trigger] steps[i] == (StepV::RemovePath {
                path: pair.1,
                ids: ev.ids_at(pair.1),
            });
        assert(all[i] == steps[i]);
        assert(deletes(all[i], pair.0));
    }
}

proof fn lemma_paths_are_held(ev: EvidenceV, path: Seq<char>)
    requires
        ev.paths().contains(path),
    ensures
        exists|k: int| 0 <= k < ev.pairs.len() && (#[trigger] ev.pairs[k]).1 == path,
{
    let snd = maintenance::seconds(ev.pairs);
    order::lemma_sorted_set(snd);
    assert(snd.contains(path));
    let k = choose|k: int| 0 <= k < snd.len() && snd[k] == path;
    assert(ev.pairs[k].1 == path);
}

proof fn lemma_ids_are_held(ev: EvidenceV, path: Seq<char>, id: Seq<char>)
    requires
        ev.ids_at(path).contains(id),
    ensures
        exists|k: int| 0 <= k < ev.pairs.len() && #[trigger] ev.pairs[k] == (id, path),
{
    let p = plan::at_path(path);
    let kept = rows::keep(ev.pairs, p);
    let fst = maintenance::heads(kept);
    order::lemma_firsts(fst);
    assert(fst.contains(id));
    let i = choose|i: int| 0 <= i < fst.len() && fst[i] == id;
    rows::lemma_keep(ev.pairs, p);
    assert(p(kept[i]));
    assert(ev.pairs.contains(kept[i]));
    let k = choose|k: int| 0 <= k < ev.pairs.len() && ev.pairs[k] == kept[i];
    assert(ev.pairs[k] == (id, path));
}

proof fn lemma_multi_steps(multi: Seq<maintenance::MultiV>, m: int)
    requires
        0 <= m < multi.len(),
    ensures
        exists|i: int|
            0 <= i < repair::multi_steps(multi).steps.len() && #[trigger] repair::multi_steps(
                multi,
            ).steps[i] == (StepV::DropIds { ids: multi[m].remove_ids }),
    decreases multi.len(),
{
    let init = multi.drop_last();
    let v = repair::multi_steps(multi);
    let u = repair::multi_steps(init);
    if m == multi.len() - 1 {
        assert(v.steps[u.steps.len() as int] == (StepV::DropIds { ids: multi[m].remove_ids }));
    } else {
        lemma_multi_steps(init, m);
        let i = choose|i: int|
            0 <= i < u.steps.len() && #[trigger] u.steps[i] == (StepV::DropIds {
                ids: init[m].remove_ids,
            });
        assert(v.steps[i] == u.steps[i]);
        assert(init[m] == multi[m]);
    }
}

proof fn lemma_multi_listed(
    ev: EvidenceV,
    state: Seq<StateV>,
    coll: Seq<char>,
    paths: Seq<Seq<char>>,
    path: Seq<char>,
)
    requires
        paths.contains(path),
        ev.ids_at(path).len() >= 2,
        ev.exists_at(path),
    ensures
        exists|k: int|
            0 <= k < ev.multi_ids(state, coll, paths).len() && (#[trigger] ev.multi_ids(
                state,
                coll,
                paths,
            )[k]).path == path,
    decreases paths.len(),
{
    let init = paths.drop_last();
    let b = ev.multi_ids(state, coll, init);
    let r = ev.multi_ids(state, coll, paths);
    if paths.last() == path {
        assert(r[b.len() as int].path == path);
    } else {
        let m = choose|m: int| 0 <= m < paths.len() && paths[m] == path;
        assert(init[m] == path);
        assert(init.contains(path));
        lemma_multi_listed(ev, state, coll, init, path);
        let k = choose|k: int| 0 <= k < b.len() && (#[trigger] b[k]).path == path;
        assert(r[k] == b[k]);
    }
}

/// After a repair every file that exists is held under at most one id.
proof fn lemma_one_id_left(
    ev: EvidenceV,
    state: Seq<StateV>,
    coll: Seq<char>,
    after: EvidenceV,
    path: Seq<char>,
)
    requires
        store_after(ev, full_repair(ev, ev.report(state, coll)), after),
        ev.exists_at(path),
    ensures
        after.ids_at(path).len() < 2,
{
    if after.ids_at(path).len() >= 2 {
        let a = after.ids_at(path)[0];
        let b = after.ids_at(path)[1];
        let kept = rows::keep(after.pairs, plan::at_path(path));
        order::lemma_firsts(maintenance::heads(kept));
        assert(a != b);
        assert(after.ids_at(path).contains(a) && after.ids_at(path).contains(b));
        lemma_ids_are_held(after, path, a);
        lemma_ids_are_held(after, path, b);
        let ka = choose|k: int| 0 <= k < after.pairs.len() && #[trigger] after.pairs[k] == (a, path);
        let kb = choose|k: int| 0 <= k < after.pairs.len() && #[trigger] after.pairs[k] == (b, path);
        assert(ev.pairs.contains(after.pairs[ka]) && ev.pairs.contains(after.pairs[kb]));
        let ja = choose|j: int| 0 <= j < ev.pairs.len() && ev.pairs[j] == after.pairs[ka];
        let jb = choose|j: int| 0 <= j < ev.pairs.len() && ev.pairs[j] == after.pairs[kb];
        upkeep_laws::lemma_pair_listed(ev, ja);
        upkeep_laws::lemma_pair_listed(ev, jb);
        let ids = ev.ids_at(path);
        let ia = choose|i: int| 0 <= i < ids.len() && ids[i] == a;
        let ib = choose|i: int| 0 <= i < ids.len() && ids[i] == b;
        assert(ids.len() >= 2);
        let multi = ev.multi_ids(state, coll, ev.paths());
        lemma_multi_listed(ev, state, coll, ev.paths(), path);
        let m = choose|m: int| 0 <= m < multi.len() && (#[trigger] multi[m]).path == path;
        upkeep_laws::keeper_of_several_ids_survives(ev, state, coll, m);
        let x = if a != multi[m].keep_id {
            a
        } else {
            b
        };
        assert(ids.contains(x));
        assert(multi[m].remove_ids.contains(x));
        lemma_multi_steps(multi, m);
        let steps = repair::multi_steps(multi).steps;
        let i = choose|i: int|
            0 <= i < steps.len() && #[trigger] steps[i] == (StepV::DropIds {
                ids: multi[m].remove_ids,
            });
        let report = ev.report(state, coll);
        let all = full_repair(ev, report);
        let off = repair::orphan_steps(ev.pairs, report.orphans).steps.len()
            + repair::dup_steps(ev.pairs, report.dup_variants).steps.len();
        assert(all[off + i] == steps[i]);
        assert(deletes(all[off + i], x));
    }
}

proof fn lemma_group_steps(
    before: StepsV,
    pairs: Seq<(Seq<char>, Seq<char>)>,
    remove: Seq<RemoveV>,
    path: Seq<char>,
)
    ensures
        ({
            let v = repair::group_steps(before, pairs, remove);
            &&& v.steps.len() >= before.steps.len()
            &&& forall|i: int|
                0 <= i < before.steps.len() ==> #[trigger] v.steps[i] == before.steps[i]
            &&& v.done.contains(path) ==> upkeep_laws::removes(
                v.steps,
                path,
                maintenance::ids_at(pairs, path),
            )
            &&& (exists|i: int| 0 <= i < remove.len() && (#[trigger] remove[i]).path == path)
                ==> v.done.contains(path)
        }),
    decreases remove.len(),
{
    if remove.len() > 0 {
        let init = remove.drop_last();
        lemma_group_steps(before, pairs, init, path);
        let u = repair::group_steps(before, pairs, init);
        let v = repair::group_steps(before, pairs, remove);
        let last = remove.last().path;
        let ids = maintenance::ids_at(pairs, path);
        if u.done.contains(path) {
            let i = choose|i: int| 0 <= i < u.done.len() && u.done[i] == path;
            assert(v.done[i] == path);
            let j = choose|j: int|
                0 <= j < u.steps.len() && #[trigger] u.steps[j] == (StepV::RemovePath {
                    path,
                    ids,
                });
            assert(v.steps[j] == u.steps[j]);
        } else if last == path {
            assert(v.done[u.done.len() as int] == path);
            assert(v.steps[u.steps.len() as int] == (StepV::RemovePath { path, ids }));
        } else {
            if v.done.contains(path) {
                let i = choose|i: int| 0 <= i < v.done.len() && v.done[i] == path;
                if i < u.done.len() {
                    assert(u.done[i] == path);
                }
            }
            if exists|i: int| 0 <= i < remove.len() && (#[trigger] remove[i]).path == path {
                let i = choose|i: int| 0 <= i < remove.len() && (#[trigger] remove[i]).path == path;
                assert(init[i].path == path);
            }
        }
    }
}

proof fn lemma_dup_steps(
    pairs: Seq<(Seq<char>, Seq<char>)>,
    dups: Seq<maintenance::DupV>,
    d: int,
    r: int,
)
    requires
        0 <= d < dups.len(),
        0 <= r < dups[d].remove.len(),
    ensures
        upkeep_laws::removes(
            repair::dup_steps(pairs, dups).steps,
            dups[d].remove[r].path,
            maintenance::ids_at(pairs, dups[d].remove[r].path),
        ),
    decreases dups.len(),
{
    let init = dups.drop_last();
    let u = repair::dup_steps(pairs, init);
    let v = repair::dup_steps(pairs, dups);
    let path = dups[d].remove[r].path;
    let ids = maintenance::ids_at(pairs, path);
    lemma_group_steps(u, pairs, dups.last().remove, path);
    if d == dups.len() - 1 {
        assert(dups.last().remove[r].path == path);
    } else {
        assert(init[d] == dups[d]);
        lemma_dup_steps(pairs, init, d, r);
        let j = choose|j: int|
            0 <= j < u.steps.len() && #[trigger] u.steps[j] == (StepV::RemovePath { path, ids });
        assert(v.steps[j] == u.steps[j]);
    }
}

proof fn lemma_removal_listed(ev: EvidenceV, losers: Seq<VariantV>, i: int)
    requires
        0 <= i < losers.len(),
        ev.ids_at(losers[i].path).len() > 0,
    ensures
        exists|k: int|
            0 <= k < ev.removals(losers).len() && (#[trigger] ev.removals(losers)[k]).path
                == losers[i].path,
    decreases losers.len(),
{
    let init = losers.drop_last();
    let b = ev.removals(init);
    let r = ev.removals(losers);
    if i == losers.len() - 1 {
        assert(r[b.len() as int].path == losers[i].path);
    } else {
        assert(init[i] == losers[i]);
        lemma_removal_listed(ev, init, i);
        let k = choose|k: int| 0 <= k < b.len() && (#[trigger] b[k]).path == init[i].path;
        assert(r[k] == b[k]);
    }
}

proof fn lemma_dup_listed(ev: EvidenceV, all: Seq<VariantV>, keys: Seq<Seq<char>>, key: Seq<char>)
    requires
        keys.contains(key),
        rows::keep(all, maintenance::with_key(key)).len() >= 2,
        maintenance::by_rank(rows::keep(all, maintenance::with_key(key))).len() >= 2,
    ensures
        exists|d: int|
            0 <= d < ev.duplicates(all, keys).len() && #[trigger] ev.duplicates(all, keys)[d] == ({
                let m = maintenance::by_rank(rows::keep(all, maintenance::with_key(key)));
                maintenance::DupV { keep_path: m[0].path, remove: ev.removals(m.skip(1)) }
            }),
    decreases keys.len(),
{
    let init = keys.drop_last();
    let b = ev.duplicates(all, init);
    let r = ev.duplicates(all, keys);
    let m = maintenance::by_rank(rows::keep(all, maintenance::with_key(key)));
    let want = maintenance::DupV { keep_path: m[0].path, remove: ev.removals(m.skip(1)) };
    if keys.last() == key {
        assert(r[b.len() as int] == want);
    } else {
        let q = choose|q: int| 0 <= q < keys.len() && keys[q] == key;
        assert(init[q] == key);
        assert(init.contains(key));
        lemma_dup_listed(ev, all, init, key);
        let d = choose|d: int| 0 <= d < b.len() && #[trigger] b[d] == want;
        assert(r[d] == b[d]);
    }
}

proof fn lemma_eligible_of(ev: EvidenceV, paths: Seq<Seq<char>>, i: int)
    requires
        0 <= i < ev.eligible(paths).len(),
    ensures
        ({
            let v = ev.eligible(paths)[i];
            &&& paths.contains(v.path)
            &&& rows::find_row(ev.variants, maintenance::variant_at(v.path)) == Some(v)
            &&& ev.exists_at(v.path) && !ev.unjudgeable(v.path)
        }),
    decreases paths.len(),
{
    let init = paths.drop_last();
    let b = ev.eligible(init);
    let path = paths.last();
    rows::lemma_first_where(ev.variants, maintenance::variant_at(path));
    assert(paths[paths.len() - 1] == path);
    if i < b.len() {
        lemma_eligible_of(ev, init, i);
        let m = choose|m: int| 0 <= m < init.len() && init[m] == b[i].path;
        assert(paths[m] == b[i].path);
    }
}

proof fn lemma_eligible_has(ev: EvidenceV, paths: Seq<Seq<char>>, v: VariantV)
    requires
        paths.contains(v.path),
        rows::find_row(ev.variants, maintenance::variant_at(v.path)) == Some(v),
        ev.exists_at(v.path),
        !ev.unjudgeable(v.path),
    ensures
        ev.eligible(paths).contains(v),
    decreases paths.len(),
{
    let init = paths.drop_last();
    let b = ev.eligible(init);
    let r = ev.eligible(paths);
    if paths.last() == v.path {
        assert(r[b.len() as int] == v);
    } else {
        let m = choose|m: int| 0 <= m < paths.len() && paths[m] == v.path;
        assert(init[m] == v.path);
        assert(init.contains(v.path));
        lemma_eligible_has(ev, init, v);
        let k = choose|k: int| 0 <= k < b.len() && b[k] == v;
        assert(r[k] == v);
    }
}

/// Two entries of one book among the files of the store: the worse one loses every row.
proof fn lemma_loser_is_deleted(
    ev: EvidenceV,
    state: Seq<StateV>,
    coll: Seq<char>,
    x: VariantV,
    y: VariantV,
)
    requires
        ev.eligible(ev.paths()).contains(x),
        ev.eligible(ev.paths()).contains(y),
        x.key == y.key,
        x.path != y.path,
    ensures
        ({
            let steps = repair::dup_steps(ev.pairs, ev.dup_variants()).steps;
            upkeep_laws::removes(steps, x.path, ev.ids_at(x.path)) || upkeep_laws::removes(
                steps,
                y.path,
                ev.ids_at(y.path),
            )
        }),
{
    let paths = ev.paths();
    upkeep_laws::lemma_paths_distinct(ev);
    upkeep_laws::lemma_eligible(ev, paths);
    let all = ev.eligible(paths);
    let p = maintenance::with_key(x.key);
    let g = rows::keep(all, p);
    rows::lemma_keep(all, p);
    upkeep_laws::lemma_keep_repeats_nothing(all, p);
    upkeep_laws::lemma_by_rank(g);
    let m = maintenance::by_rank(g);
    assert(g.contains(x) && g.contains(y));
    let gx = choose|i: int| 0 <= i < g.len() && g[i] == x;
    let gy = choose|i: int| 0 <= i < g.len() && g[i] == y;
    assert(g.len() >= 2);
    lemma_by_rank_has(g, x);
    lemma_by_rank_has(g, y);
    // The key is listed.
    let key_list = Seq::new(all.len(), |i: int| all[i].key);
    let ax = choose|i: int| 0 <= i < all.len() && all[i] == x;
    assert(key_list[ax] == x.key);
    assert(key_list.contains(x.key));
    order::lemma_sorted_set(key_list);
    assert(maintenance::keys_of(all).contains(x.key));
    lemma_dup_listed(ev, all, maintenance::keys_of(all), x.key);
    let dups = ev.dup_variants();
    let d = choose|d: int|
        0 <= d < dups.len() && #[trigger] dups[d] == (maintenance::DupV {
            keep_path: m[0].path,
            remove: ev.removals(m.skip(1)),
        });
    let z = if m[0] == x {
        y
    } else {
        x
    };
    let mz = choose|i: int| 0 <= i < m.len() && m[i] == z;
    assert(mz > 0) by {
        if mz == 0 {
            assert(m[0] == z);
        }
    }
    assert(m.skip(1)[mz - 1] == z);
    // Its path is held under some id.
    let az = choose|i: int| 0 <= i < all.len() && all[i] == z;
    assert(paths.contains(all[az].path));
    lemma_paths_are_held(ev, z.path);
    let k = choose|k: int| 0 <= k < ev.pairs.len() && (#[trigger] ev.pairs[k]).1 == z.path;
    upkeep_laws::lemma_pair_listed(ev, k);
    lemma_removal_listed(ev, m.skip(1), mz - 1);
    let r = choose|r: int|
        0 <= r < dups[d].remove.len() && (#[trigger] dups[d].remove[r]).path == z.path;
    lemma_dup_steps(ev.pairs, dups, d, r);
}

proof fn lemma_rank_insert_has(s: Seq<VariantV>, x: VariantV, y: VariantV)
    requires
        s.contains(y) || y == x,
    ensures
        maintenance::rank_insert(s, x).contains(y),
    decreases s.len(),
{
    let r = maintenance::rank_insert(s, x);
    if s.len() > 0 && s.last().rank > x.rank {
        let t = s.drop_last();
        let w = maintenance::rank_insert(t, x);
        if s.contains(y) && s.last() == y && !t.contains(y) {
            assert(r[w.len() as int] == y);
        } else {
            if s.contains(y) && !(y == x) {
                let i = choose|i: int| 0 <= i < s.len() && s[i] == y;
                if i < t.len() {
                    assert(t[i] == y);
                }
            }
            lemma_rank_insert_has(t, x, y);
            let i = choose|i: int| 0 <= i < w.len() && w[i] == y;
            assert(r[i] == y);
        }
    } else {
        if s.contains(y) {
            let i = choose|i: int| 0 <= i < s.len() && s[i] == y;
            assert(r[i] == y);
        } else {
            assert(r[s.len() as int] == y);
        }
    }
}

proof fn lemma_by_rank_has(s: Seq<VariantV>, y: VariantV)
    requires
        s.contains(y),
    ensures
        maintenance::by_rank(s).contains(y),
    decreases s.len(),
{
    let t = s.drop_last();
    let i = choose|i: int| 0 <= i < s.len() && s[i] == y;
    if i < t.len() {
        assert(t[i] == y);
        assert(t.contains(y));
        lemma_by_rank_has(t, y);
    }
    lemma_rank_insert_has(maintenance::by_rank(t), s.last(), y);
}

/// After a repair no two files of the store are variants of one book.
proof fn lemma_one_variant_left(
    ev: EvidenceV,
    state: Seq<StateV>,
    coll: Seq<char>,
    after: EvidenceV,
    key: Seq<char>,
)
    requires
        store_after(ev, full_repair(ev, ev.report(state, coll)), after),
    ensures
        rows::keep(after.eligible(after.paths()), maintenance::with_key(key)).len() < 2,
{
    let p = maintenance::with_key(key);
    let all = after.eligible(after.paths());
    let g = rows::keep(all, p);
    if g.len() >= 2 {
        upkeep_laws::lemma_paths_distinct(after);
        upkeep_laws::lemma_eligible(after, after.paths());
        upkeep_laws::lemma_keep_repeats_nothing(all, p);
        rows::lemma_keep(all, p);
        let x = g[0];
        let y = g[1];
        assert(x.path != y.path);
        assert(p(g[0]) && p(g[1]));
        lemma_still_eligible(ev, state, coll, after, x);
        lemma_still_eligible(ev, state, coll, after, y);
        lemma_loser_is_deleted(ev, state, coll, x, y);
        let report = ev.report(state, coll);
        let steps = repair::dup_steps(ev.pairs, report.dup_variants).steps;
        let z = if upkeep_laws::removes(steps, x.path, ev.ids_at(x.path)) {
            x
        } else {
            y
        };
        let i = choose|i: int|
            0 <= i < steps.len() && #[trigger] steps[i] == (StepV::RemovePath {
                path: z.path,
                ids: ev.ids_at(z.path),
            });
        let full = full_repair(ev, report);
        let off = repair::orphan_steps(ev.pairs, report.orphans).steps.len();
        assert(full[off + i] == steps[i]);
        assert(all.contains(z));
        let az = choose|q: int| 0 <= q < all.len() && all[q] == z;
        assert(after.paths().contains(all[az].path));
        lemma_paths_are_held(after, z.path);
        let k = choose|k: int| 0 <= k < after.pairs.len() && (#[trigger] after.pairs[k]).1
            == z.path;
        assert(ev.pairs.contains(after.pairs[k]));
        let j = choose|j: int| 0 <= j < ev.pairs.len() && ev.pairs[j] == after.pairs[k];
        upkeep_laws::lemma_pair_listed(ev, j);
        assert(deletes(full[off + i], after.pairs[k].0));
    }
}

proof fn lemma_still_eligible(
    ev: EvidenceV,
    state: Seq<StateV>,
    coll: Seq<char>,
    after: EvidenceV,
    x: VariantV,
)
    requires
        store_after(ev, full_repair(ev, ev.report(state, coll)), after),
        after.eligible(after.paths()).contains(x) || rows::keep(
            after.eligible(after.paths()),
            maintenance::with_key(x.key),
        ).contains(x),
    ensures
        ev.eligible(ev.paths()).contains(x),
{
    let all = after.eligible(after.paths());
    rows::lemma_keep(all, maintenance::with_key(x.key));
    let kept = rows::keep(all, maintenance::with_key(x.key));
    if !all.contains(x) {
        let q = choose|q: int| 0 <= q < kept.len() && kept[q] == x;
        assert(all.contains(kept[q]));
    }
    let i = choose|i: int| 0 <= i < all.len() && all[i] == x;
    lemma_eligible_of(after, after.paths(), i);
    lemma_paths_are_held(after, x.path);
    let k = choose|k: int| 0 <= k < after.pairs.len() && (#[trigger] after.pairs[k]).1 == x.path;
    assert(ev.pairs.contains(after.pairs[k]));
    let j = choose|j: int| 0 <= j < ev.pairs.len() && ev.pairs[j] == after.pairs[k];
    upkeep_laws::lemma_pair_listed(ev, j);
    lemma_eligible_has(ev, ev.paths(), x);
}

proof fn lemma_no_store_orphans(ev: EvidenceV, paths: Seq<Seq<char>>)
    requires
        forall|i: int| 0 <= i < paths.len() ==> !ev.gone(#[trigger] paths[i]),
    ensures
        ev.store_orphans(paths).len() == 0,
    decreases paths.len(),
{
    if paths.len() > 0 {
        let init = paths.drop_last();
        assert forall|i: int| 0 <= i < init.len() implies !ev.gone(#[trigger] init[i]) by {
            assert(init[i] == paths[i]);
        }
        lemma_no_store_orphans(ev, init);
        assert(!ev.gone(paths[paths.len() - 1]));
    }
}

proof fn lemma_no_multi(ev: EvidenceV, state: Seq<StateV>, coll: Seq<char>, paths: Seq<Seq<char>>)
    requires
        forall|i: int|
            0 <= i < paths.len() ==> ev.ids_at(#[trigger] paths[i]).len() < 2 || !ev.exists_at(
                paths[i],
            ),
    ensures
        ev.multi_ids(state, coll, paths).len() == 0,
    decreases paths.len(),
{
    if paths.len() > 0 {
        let init = paths.drop_last();
        assert forall|i: int| 0 <= i < init.len() implies ev.ids_at(#[trigger] init[i]).len() < 2
            || !ev.exists_at(init[i]) by {
            assert(init[i] == paths[i]);
        }
        lemma_no_multi(ev, state, coll, init);
        let last = paths[paths.len() - 1];
        assert(ev.ids_at(last).len() < 2 || !ev.exists_at(last));
    }
}

proof fn lemma_by_rank_len(s: Seq<VariantV>)
    ensures
        maintenance::by_rank(s).len() == s.len(),
    decreases s.len(),
{
    if s.len() > 0 {
        lemma_by_rank_len(s.drop_last());
        upkeep_laws::lemma_rank_insert(maintenance::by_rank(s.drop_last()), s.last());
    }
}

proof fn lemma_no_dups(ev: EvidenceV, all: Seq<VariantV>, keys: Seq<Seq<char>>)
    requires
        forall|key: Seq<char>| (#[trigger] rows::keep(all, maintenance::with_key(key))).len() < 2,
    ensures
        ev.duplicates(all, keys).len() == 0,
    decreases keys.len(),
{
    if keys.len() > 0 {
        lemma_no_dups(ev, all, keys.drop_last());
        lemma_by_rank_len(rows::keep(all, maintenance::with_key(keys.last())));
    }
}

/// After a repair of everything, a fresh scan of the store finds no orphaned chunks, no duplicate
/// variants and no file under several ids, whatever the manifest now says.
pub proof fn repaired_store_is_clean(
    ev: EvidenceV,
    state: Seq<StateV>,
    coll: Seq<char>,
    after: EvidenceV,
    state_after: Seq<StateV>,
)
    requires
        store_after(ev, full_repair(ev, ev.report(state, coll)), after),
    ensures
        after.store_orphans(after.paths()).len() == 0,
        after.dup_variants().len() == 0,
        after.multi_ids(state_after, coll, after.paths()).len() == 0,
{
    let paths = after.paths();
    assert forall|i: int| 0 <= i < paths.len() implies !after.gone(#[trigger] paths[i]) by {
        assert(paths.contains(paths[i]));
        lemma_paths_are_held(after, paths[i]);
        let k = choose|k: int| 0 <= k < after.pairs.len() && (#[trigger] after.pairs[k]).1
            == paths[i];
        lemma_no_gone_path(ev, state, coll, after, k);
    }
    lemma_no_store_orphans(after, paths);
    assert forall|i: int| 0 <= i < paths.len() implies after.ids_at(#[trigger] paths[i]).len() < 2
        || !after.exists_at(paths[i]) by {
        if after.exists_at(paths[i]) {
            lemma_one_id_left(ev, state, coll, after, paths[i]);
        }
    }
    lemma_no_multi(after, state_after, coll, paths);
    let all = after.eligible(paths);
    assert forall|key: Seq<char>| (#[trigger] rows::keep(
        all,
        maintenance::with_key(key),
    )).len() < 2 by {
        lemma_one_variant_left(ev, state, coll, after, key);
    }
    lemma_no_dups(after, all, maintenance::keys_of(all));
}

/// The manifest agrees with the store: a row of a book that the store holds names a path, one under
/// which the store holds it.
pub open spec fn agrees(ev: EvidenceV, state: Seq<StateV>, coll: Seq<char>) -> bool {
    &&& forall|b: Seq<char>|
        #[trigger] ev.ids.contains(b) <==> (exists|k: int|
            0 <= k < ev.pairs.len() && (#[trigger] ev.pairs[k]).0 == b)
    &&& forall|i: int|
        0 <= i < state.len() && (#[trigger] state[i]).collection == coll && ev.ids.contains(
            state[i].book,
        ) ==> state[i].source_path.len() > 0 && ev.pairs.contains(
            (state[i].book, state[i].source_path),
        )
}

proof fn lemma_manifest_orphan_step(
    pairs: Seq<(Seq<char>, Seq<char>)>,
    orphans: Seq<OrphanV>,
    k: int,
)
    requires
        0 <= k < orphans.len(),
    ensures
        ({
            let v = repair::orphan_steps(pairs, orphans);
            let o = orphans[k];
            &&& o.kind != "store"@ && o.path.len() == 0 ==> exists|i: int|
                0 <= i < v.steps.len() && #[trigger] v.steps[i] == (StepV::ForgetBook {
                    book: o.book,
                })
            &&& o.kind != "store"@ && o.path.len() > 0 ==> v.done.contains(o.path)
        }),
    decreases orphans.len(),
{
    let init = orphans.drop_last();
    let u = repair::orphan_steps(pairs, init);
    let v = repair::orphan_steps(pairs, orphans);
    let o = orphans[k];
    if k == orphans.len() - 1 {
        if o.kind != "store"@ {
            if o.path.len() == 0 {
                assert(v.steps[u.steps.len() as int] == (StepV::ForgetBook { book: o.book }));
            } else if !u.done.contains(o.path) {
                assert(v.done[u.done.len() as int] == o.path);
            }
        }
    } else {
        assert(init[k] == o);
        lemma_manifest_orphan_step(pairs, init, k);
        if o.kind != "store"@ && o.path.len() == 0 {
            let i = choose|i: int|
                0 <= i < u.steps.len() && #[trigger] u.steps[i] == (StepV::ForgetBook {
                    book: o.book,
                });
            assert(v.steps[i] == u.steps[i]);
        }
        if o.kind != "store"@ && o.path.len() > 0 {
            let i = choose|i: int| 0 <= i < u.done.len() && u.done[i] == o.path;
            assert(v.done[i] == o.path);
        }
    }
}

proof fn lemma_done_is_forgotten(
    pairs: Seq<(Seq<char>, Seq<char>)>,
    orphans: Seq<OrphanV>,
    path: Seq<char>,
)
    requires
        repair::orphan_steps(pairs, orphans).done.contains(path),
    ensures
        exists|i: int|
            0 <= i < repair::orphan_steps(pairs, orphans).steps.len() && (
            #[trigger] repair::orphan_steps(pairs, orphans).steps[i] == (StepV::RemovePath {
                path,
                ids: maintenance::ids_at(pairs, path),
            }) || repair::orphan_steps(pairs, orphans).steps[i] == (StepV::ForgetPath { path })),
    decreases orphans.len(),
{
    let v = repair::orphan_steps(pairs, orphans);
    if orphans.len() > 0 {
        let init = orphans.drop_last();
        let u = repair::orphan_steps(pairs, init);
        if u.done.contains(path) {
            lemma_done_is_forgotten(pairs, init, path);
            let i = choose|i: int|
                0 <= i < u.steps.len() && (#[trigger] u.steps[i] == (StepV::RemovePath {
                    path,
                    ids: maintenance::ids_at(pairs, path),
                }) || u.steps[i] == (StepV::ForgetPath { path }));
            assert(v.steps[i] == u.steps[i]);
        } else {
            let j = choose|j: int| 0 <= j < v.done.len() && v.done[j] == path;
            if j < u.done.len() {
                assert(u.done[j] == path);
            }
            assert(v.steps[u.steps.len() as int] == v.steps.last());
        }
    }
}

/// After a repair of everything, a fresh scan finds no orphaned manifest rows either, where the
/// manifest agreed with the store before.
pub proof fn repaired_manifest_is_clean(
    ev: EvidenceV,
    db: DbV,
    coll: Seq<char>,
    after: EvidenceV,
    k: int,
)
    requires
        agrees(ev, db.state, coll),
        store_after(ev, full_repair(ev, ev.report(db.state, coll)), after),
        ({
            let now = after_all(db, coll, full_repair(ev, ev.report(db.state, coll)));
            0 <= k < now.state.len() && now.state[k].collection == coll
        }),
    ensures
        ({
            let now = after_all(db, coll, full_repair(ev, ev.report(db.state, coll)));
            !after.orphan_row((now.state[k].book, now.state[k].source_path))
        }),
{
    let report = ev.report(db.state, coll);
    let full = full_repair(ev, report);
    let now = after_all(db, coll, full);
    let row = now.state[k];
    assert(now.state.contains(row));
    lemma_after_all(db, coll, full, row);
    let j = choose|j: int| 0 <= j < db.state.len() && db.state[j] == row;
    let pair = (row.book, row.source_path);
    if after.orphan_row(pair) {
        let os = repair::orphan_steps(ev.pairs, report.orphans);
        if ev.ids.contains(row.book) {
            // The store held the book under the row's path, which is not gone or is removed.
            assert(ev.pairs.contains(pair));
            let q = choose|q: int| 0 <= q < ev.pairs.len() && ev.pairs[q] == pair;
            if ev.gone(row.source_path) {
                upkeep_laws::orphan_repair_clears_the_store(ev, db.state, coll, q);
                let i = choose|i: int|
                    0 <= i < os.steps.len() && #[trigger] os.steps[i] == (StepV::RemovePath {
                        path: row.source_path,
                        ids: ev.ids_at(row.source_path),
                    });
                assert(full[i] == os.steps[i]);
                assert(forgets(coll, full[i], row));
            } else {
                assert(!after.gone(row.source_path));
            }
        } else {
            // The row was an orphan before.
            let p = |r: (Seq<char>, Seq<char>)| ev.orphan_row(r);
            let rows_before = maintenance::manifest_pairs(db.state, coll);
            let c = manifest::of_collection(coll);
            rows::lemma_keep(db.state, c);
            assert(db.state.contains(row));
            assert(rows::keep(db.state, c).contains(row));
            let z = choose|z: int|
                0 <= z < rows::keep(db.state, c).len() && rows::keep(db.state, c)[z] == row;
            assert(rows_before[z] == pair);
            assert(rows_before.contains(pair));
            rows::lemma_keep(rows_before, p);
            assert(rows::keep(rows_before, p).contains(pair));
            let y = choose|y: int|
                0 <= y < rows::keep(rows_before, p).len() && rows::keep(rows_before, p)[y] == pair;
            let a = ev.store_orphans(ev.paths());
            let o = report.orphans[a.len() + y];
            assert(o == (OrphanV {
                book: row.book,
                path: row.source_path,
                kind: "manifest"@,
            }));
            reveal_strlit("store");
            reveal_strlit("manifest");
            assert("store"@.len() != "manifest"@.len());
            lemma_manifest_orphan_step(ev.pairs, report.orphans, a.len() + y);
            if row.source_path.len() == 0 {
                let i = choose|i: int|
                    0 <= i < os.steps.len() && #[trigger] os.steps[i] == (StepV::ForgetBook {
                        book: row.book,
                    });
                assert(full[i] == os.steps[i]);
                assert(forgets(coll, full[i], row));
            } else {
                lemma_done_is_forgotten(ev.pairs, report.orphans, row.source_path);
                let i = choose|i: int|
                    0 <= i < os.steps.len() && (#[trigger] os.steps[i] == (StepV::RemovePath {
                        path: row.source_path,
                        ids: maintenance::ids_at(ev.pairs, row.source_path),
                    }) || os.steps[i] == (StepV::ForgetPath { path: row.source_path }));
                assert(full[i] == os.steps[i]);
                assert(forgets(coll, full[i], row));
            }
        }
    }
}

/// Every wrong stamp is rewritten: its book is among those that a step stamps with the right format.
pub proof fn every_bad_stamp_is_rewritten(stamps: Seq<StampV>, k: int)
    requires
        0 <= k < stamps.len(),
    ensures
        exists|i: int|
            0 <= i < repair::stamp_steps(stamps, repair::targets_of(stamps)).steps.len()
                && rewrites(
                #[trigger] repair::stamp_steps(stamps, repair::targets_of(stamps)).steps[i],
                stamps[k],
            ),
{
    let tos = Seq::new(stamps.len(), |i: int| stamps[i].to);
    let targets = repair::targets_of(stamps);
    order::lemma_sorted_set(tos);
    assert(tos[k] == stamps[k].to);
    assert(targets.contains(stamps[k].to));
    let j = choose|j: int| 0 <= j < targets.len() && targets[j] == stamps[k].to;
    lemma_stamp_step(stamps, targets, j);
    let kept = rows::keep(stamps, repair::stamped_to(targets[j]));
    rows::lemma_keep(stamps, repair::stamped_to(targets[j]));
    assert(repair::stamped_to(targets[j])(stamps[k]));
    assert(stamps.contains(stamps[k]));
    assert(kept.contains(stamps[k]));
    let m = choose|m: int| 0 <= m < kept.len() && kept[m] == stamps[k];
    let ids = repair::stamp_books(kept);
    assert(ids[m] == stamps[k].book);
    assert(rewrites(repair::stamp_steps(stamps, targets).steps[j], stamps[k]));
}

/// A step stamps the book of a wrong stamp with the right format.
pub open spec fn rewrites(step: StepV, s: StampV) -> bool {
    match step {
        StepV::Restamp { to, ids } => to == s.to && ids.contains(s.book),
        _ => false,
    }
}

proof fn lemma_stamp_step(stamps: Seq<StampV>, targets: Seq<Seq<char>>, j: int)
    requires
        0 <= j < targets.len(),
    ensures
        repair::stamp_steps(stamps, targets).steps.len() == targets.len(),
        repair::stamp_steps(stamps, targets).steps[j] == (repair::StepV::Restamp {
            to: targets[j],
            ids: repair::stamp_books(rows::keep(stamps, repair::stamped_to(targets[j]))),
        }),
    decreases targets.len(),
{
    if targets.len() > 1 {
        if j < targets.len() - 1 {
            lemma_stamp_step(stamps, targets.drop_last(), j);
        } else {
            lemma_stamp_step(stamps, targets.drop_last(), 0);
        }
    } else {
        reveal_with_fuel(repair::stamp_steps, 2);
    }
}

// ---- the report after a repair ---------------------------------------------------------------

/// A stored format after some steps: the last one that stamps its book decides.
pub open spec fn restamped(f: StoredFormatV, steps: Seq<StepV>) -> StoredFormatV
    decreases steps.len(),
{
    if steps.len() == 0 {
        f
    } else {
        let before = restamped(f, steps.drop_last());
        match steps.last() {
            StepV::Restamp { to, ids } => if ids.contains(f.book) {
                StoredFormatV { format: to, ..before }
            } else {
                before
            },
            _ => before,
        }
    }
}

/// The stamps after some steps: those of before, as far as their books are left, rewritten.
pub open spec fn stamps_after(ev: EvidenceV, steps: Seq<StepV>, after: EvidenceV) -> bool {
    forall|k: int|
        0 <= k < after.formats.len() ==> exists|j: int|
            0 <= j < ev.formats.len() && #[trigger] after.formats[k] == restamped(
                #[trigger] ev.formats[j],
                steps,
            )
}

/// Every book is stored at one path only.
pub open spec fn one_path_each(formats: Seq<StoredFormatV>) -> bool {
    forall|i: int, j: int|
        0 <= i < formats.len() && 0 <= j < formats.len() && (#[trigger] formats[i]).book == (
        #[trigger] formats[j]).book ==> formats[i].path == formats[j].path
}

/// No step stamps anything.
spec fn stamps_nothing(steps: Seq<StepV>) -> bool {
    forall|i: int| 0 <= i < steps.len() ==> !(#[trigger] steps[i] is Restamp)
}

proof fn lemma_orphans_stamp_nothing(pairs: Seq<(Seq<char>, Seq<char>)>, orphans: Seq<OrphanV>)
    ensures
        stamps_nothing(repair::orphan_steps(pairs, orphans).steps),
    decreases orphans.len(),
{
    if orphans.len() > 0 {
        lemma_orphans_stamp_nothing(pairs, orphans.drop_last());
    }
}

proof fn lemma_group_stamps_nothing(
    before: StepsV,
    pairs: Seq<(Seq<char>, Seq<char>)>,
    remove: Seq<RemoveV>,
)
    requires
        stamps_nothing(before.steps),
    ensures
        stamps_nothing(repair::group_steps(before, pairs, remove).steps),
    decreases remove.len(),
{
    if remove.len() > 0 {
        lemma_group_stamps_nothing(before, pairs, remove.drop_last());
    }
}

proof fn lemma_dups_stamp_nothing(
    pairs: Seq<(Seq<char>, Seq<char>)>,
    dups: Seq<maintenance::DupV>,
)
    ensures
        stamps_nothing(repair::dup_steps(pairs, dups).steps),
    decreases dups.len(),
{
    if dups.len() > 0 {
        lemma_dups_stamp_nothing(pairs, dups.drop_last());
        lemma_group_stamps_nothing(
            repair::dup_steps(pairs, dups.drop_last()),
            pairs,
            dups.last().remove,
        );
    }
}

proof fn lemma_multi_stamps_nothing(multi: Seq<maintenance::MultiV>)
    ensures
        stamps_nothing(repair::multi_steps(multi).steps),
    decreases multi.len(),
{
    if multi.len() > 0 {
        lemma_multi_stamps_nothing(multi.drop_last());
    }
}

/// A step that stamps a book stamps it with the format that its file has.
spec fn stamps_truly(all: Seq<StoredFormatV>, step: StepV) -> bool {
    match step {
        StepV::Restamp { to, ids } => forall|b: Seq<char>| #[trigger]
            ids.contains(b) ==> exists|s: StampV|
                #[trigger] maintenance::bad_stamps(all).contains(s) && s.book == b && s.to == to,
        _ => true,
    }
}

proof fn lemma_stamp_steps_are_true(all: Seq<StoredFormatV>, j: int)
    requires
        ({
            let stamps = maintenance::bad_stamps(all);
            0 <= j < repair::targets_of(stamps).len()
        }),
    ensures
        ({
            let stamps = maintenance::bad_stamps(all);
            stamps_truly(all, repair::stamp_steps(stamps, repair::targets_of(stamps)).steps[j])
        }),
{
    let stamps = maintenance::bad_stamps(all);
    let targets = repair::targets_of(stamps);
    lemma_stamp_step(stamps, targets, j);
    let p = repair::stamped_to(targets[j]);
    let kept = rows::keep(stamps, p);
    rows::lemma_keep(stamps, p);
    let ids = repair::stamp_books(kept);
    assert forall|b: Seq<char>| #[trigger] ids.contains(b) implies exists|s: StampV|
        #[trigger] stamps.contains(s) && s.book == b && s.to == targets[j] by {
        let m = choose|m: int| 0 <= m < ids.len() && ids[m] == b;
        assert(p(kept[m]));
        assert(stamps.contains(kept[m]));
    }
}

/// Every step of a repair of everything stamps truly.
proof fn lemma_repair_stamps_truly(ev: EvidenceV, report: ReportV, i: int)
    requires
        report.bad_stamps == maintenance::bad_stamps(ev.formats),
        0 <= i < full_repair(ev, report).len(),
    ensures
        stamps_truly(ev.formats, full_repair(ev, report)[i]),
{
    let a = repair::orphan_steps(ev.pairs, report.orphans).steps;
    let b = repair::dup_steps(ev.pairs, report.dup_variants).steps;
    let c = repair::multi_steps(report.multi_id).steps;
    let targets = repair::targets_of(report.bad_stamps);
    let d = repair::stamp_steps(report.bad_stamps, targets).steps;
    lemma_orphans_stamp_nothing(ev.pairs, report.orphans);
    lemma_dups_stamp_nothing(ev.pairs, report.dup_variants);
    lemma_multi_stamps_nothing(report.multi_id);
    let full = full_repair(ev, report);
    let n = a.len() + b.len() + c.len();
    if i < a.len() {
        assert(full[i] == a[i]);
    } else if i < a.len() + b.len() {
        assert(full[i] == b[i - a.len()]);
    } else if i < n {
        assert(full[i] == c[i - a.len() - b.len()]);
    } else {
        assert(full[i] == d[i - n]);
        if targets.len() > 0 {
            lemma_stamp_step(report.bad_stamps, targets, 0);
            lemma_stamp_steps_are_true(ev.formats, i - n);
        }
    }
}

/// Truly stamped, a format is as before or that of its file, and the latter where a step stamps it.
proof fn lemma_restamped(all: Seq<StoredFormatV>, f: StoredFormatV, steps: Seq<StepV>)
    requires
        all.contains(f),
        one_path_each(all),
        forall|i: int| 0 <= i < steps.len() ==> stamps_truly(all, #[trigger] steps[i]),
    ensures
        ({
            let r = restamped(f, steps);
            &&& r.book == f.book && r.path == f.path
            &&& r == f || (formats::format_of(f.path) is Some && r.format == formats::format_of(
                f.path,
            )->0.name())
            &&& (exists|i: int| 0 <= i < steps.len() && stamps_book(#[trigger] steps[i], f.book))
                ==> formats::format_of(f.path) is Some && r.format == formats::format_of(
                f.path,
            )->0.name()
        }),
    decreases steps.len(),
{
    if steps.len() > 0 {
        let less = steps.drop_last();
        assert forall|i: int| 0 <= i < less.len() implies stamps_truly(all, #[trigger] less[i]) by {
            assert(less[i] == steps[i]);
        }
        lemma_restamped(all, f, less);
        assert(stamps_truly(all, steps[steps.len() - 1]));
        if stamps_book(steps.last(), f.book) {
            let s = choose|s: StampV|
                #[trigger] maintenance::bad_stamps(all).contains(s) && s.book == f.book && s.to
                    == steps.last()->Restamp_to;
            lemma_stamp_of(all, f, s);
        } else if exists|i: int| 0 <= i < steps.len() && stamps_book(#[trigger] steps[i], f.book) {
            let i = choose|i: int| 0 <= i < steps.len() && stamps_book(#[trigger] steps[i], f.book);
            assert(less[i] == steps[i]);
        }
    }
}

/// The step stamps a book.
spec fn stamps_book(step: StepV, book: Seq<char>) -> bool {
    match step {
        StepV::Restamp { to, ids } => ids.contains(book),
        _ => false,
    }
}

/// The target of a wrong stamp is the format of the book's file.
proof fn lemma_stamp_of(all: Seq<StoredFormatV>, f: StoredFormatV, s: StampV)
    requires
        all.contains(f),
        one_path_each(all),
        maintenance::bad_stamps(all).contains(s),
        s.book == f.book,
    ensures
        formats::format_of(f.path) is Some,
        s.to == formats::format_of(f.path)->0.name(),
{
    let p = |x: StoredFormatV| maintenance::stamp_is_bad(x);
    let kept = rows::keep(all, p);
    rows::lemma_keep(all, p);
    let bad = maintenance::bad_stamps(all);
    let m = choose|m: int| 0 <= m < bad.len() && bad[m] == s;
    let g = kept[m];
    assert(p(g) && all.contains(g));
    let i = choose|i: int| 0 <= i < all.len() && all[i] == f;
    let j = choose|j: int| 0 <= j < all.len() && all[j] == g;
    assert(all[i].book == all[j].book);
}

/// No stamp is wrong after a repair of everything, where every book is stored at one path only.
proof fn lemma_no_bad_stamps(
    ev: EvidenceV,
    state: Seq<StateV>,
    coll: Seq<char>,
    after: EvidenceV,
    k: int,
)
    requires
        one_path_each(ev.formats),
        stamps_after(ev, full_repair(ev, ev.report(state, coll)), after),
        0 <= k < after.formats.len(),
    ensures
        !maintenance::stamp_is_bad(after.formats[k]),
{
    let report = ev.report(state, coll);
    let full = full_repair(ev, report);
    let j = choose|j: int|
        0 <= j < ev.formats.len() && #[trigger] after.formats[k] == restamped(
            #[trigger] ev.formats[j],
            full,
        );
    let f = ev.formats[j];
    assert(ev.formats.contains(f));
    assert forall|i: int| 0 <= i < full.len() implies stamps_truly(
        ev.formats,
        #[trigger] full[i],
    ) by {
        lemma_repair_stamps_truly(ev, report, i);
    }
    lemma_restamped(ev.formats, f, full);
    if formats::format_of(f.path) is Some {
        formats::format_names_round_trip(formats::format_of(f.path)->0);
    }
    if maintenance::stamp_is_bad(f) {
        let p = |x: StoredFormatV| maintenance::stamp_is_bad(x);
        rows::lemma_keep(ev.formats, p);
        let kept = rows::keep(ev.formats, p);
        assert(kept.contains(f));
        let m = choose|m: int| 0 <= m < kept.len() && kept[m] == f;
        let s = report.bad_stamps[m];
        assert(s.book == f.book);
        every_bad_stamp_is_rewritten(report.bad_stamps, m);
        let d = repair::stamp_steps(report.bad_stamps, repair::targets_of(report.bad_stamps)).steps;
        let i = choose|i: int| 0 <= i < d.len() && rewrites(#[trigger] d[i], s);
        let n = full.len() - d.len();
        assert(full[n + i] == d[i]);
        assert(stamps_book(full[n + i], f.book));
    }
}

/// After a repair of everything, a second report lists nothing: no orphans, no wrong stamps, no
/// duplicate variants and no file under several ids. Every book was stored at one path only, which
/// its manifest row, if there is one, names; and no file changed meanwhile.
pub proof fn second_report_is_empty(ev: EvidenceV, db: DbV, coll: Seq<char>, after: EvidenceV)
    requires
        agrees(ev, db.state, coll),
        one_path_each(ev.formats),
        store_after(ev, full_repair(ev, ev.report(db.state, coll)), after),
        stamps_after(ev, full_repair(ev, ev.report(db.state, coll)), after),
    ensures
        ({
            let now = after_all(db, coll, full_repair(ev, ev.report(db.state, coll)));
            let second = after.report(now.state, coll);
            &&& second.orphans.len() == 0
            &&& second.bad_stamps.len() == 0
            &&& second.dup_variants.len() == 0
            &&& second.multi_id.len() == 0
        }),
{
    let now = after_all(db, coll, full_repair(ev, ev.report(db.state, coll)));
    repaired_store_is_clean(ev, db.state, coll, after, now.state);
    let pairs = maintenance::manifest_pairs(now.state, coll);
    let c = manifest::of_collection(coll);
    let own = rows::keep(now.state, c);
    rows::lemma_keep(now.state, c);
    let p = |r: (Seq<char>, Seq<char>)| after.orphan_row(r);
    let orphans = rows::keep(pairs, p);
    rows::lemma_keep(pairs, p);
    if orphans.len() > 0 {
        assert(p(orphans[0]) && pairs.contains(orphans[0]));
        let z = choose|z: int| 0 <= z < pairs.len() && pairs[z] == orphans[0];
        assert(c(own[z]) && now.state.contains(own[z]));
        let k = choose|k: int| 0 <= k < now.state.len() && now.state[k] == own[z];
        repaired_manifest_is_clean(ev, db, coll, after, k);
    }
    let q = |f: StoredFormatV| maintenance::stamp_is_bad(f);
    let bad = rows::keep(after.formats, q);
    rows::lemma_keep(after.formats, q);
    if bad.len() > 0 {
        assert(q(bad[0]) && after.formats.contains(bad[0]));
        let k = choose|k: int| 0 <= k < after.formats.len() && after.formats[k] == bad[0];
        lemma_no_bad_stamps(ev, db.state, coll, after, k);
    }
}

} // verus!
