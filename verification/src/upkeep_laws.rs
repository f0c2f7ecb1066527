//! What maintenance guarantees of every scan and repair.
use vstd::prelude::*;
use crate::formats;
use crate::ids;
use crate::maintenance;
use crate::maintenance::{EvidenceV, OrphanV, StoredFormatV, VariantV};
use crate::manifest;
use crate::order;
use crate::plan;
use crate::repair;
use crate::repair::StepV;
use crate::rows;

verus! {

proof fn lemma_store_orphan(ev: EvidenceV, paths: Seq<Seq<char>>, k: int)
    requires
        0 <= k < ev.store_orphans(paths).len(),
    ensures
        ({
            let o = ev.store_orphans(paths)[k];
            &&& ev.gone(o.path)
            &&& paths.contains(o.path)
            &&& ev.ids_at(o.path).contains(o.book)
            &&& o.kind == "store"@
        }),
    decreases paths.len(),
{
    if paths.len() > 0 {
        let path = paths.last();
        let init = paths.drop_last();
        let before = ev.store_orphans(init);
        assert(paths[paths.len() - 1] == path);
        if k < before.len() {
            lemma_store_orphan(ev, init, k);
            let o = before[k];
            assert(ev.store_orphans(paths)[k] == o);
            let m = choose|m: int| 0 <= m < init.len() && init[m] == o.path;
            assert(paths[m] == o.path);
        } else {
            assert(ev.ids_at(path)[k - before.len()] == ev.store_orphans(paths)[k].book);
        }
    }
}

/// A file that exists, or that lies under an unreachable root, is never reported as an orphan,
/// except for manifest rows that name no file at all.
pub proof fn only_trusted_absence_makes_an_orphan(
    ev: EvidenceV,
    state: Seq<manifest::StateV>,
    coll: Seq<char>,
    k: int,
)
    requires
        0 <= k < ev.report(state, coll).orphans.len(),
    ensures
        ({
            let o = ev.report(state, coll).orphans[k];
            o.path.len() > 0 || o.kind == "store"@ ==> !ev.exists_at(o.path) && !ev.unjudgeable(
                o.path,
            )
        }),
{
    reveal_strlit("store");
    reveal_strlit("manifest");
    let a = ev.store_orphans(ev.paths());
    let pairs = maintenance::manifest_pairs(state, coll);
    let p = |r: (Seq<char>, Seq<char>)| ev.orphan_row(r);
    let b = ev.manifest_orphans(pairs);
    if k < a.len() {
        lemma_store_orphan(ev, ev.paths(), k);
    } else {
        rows::lemma_keep(pairs, p);
        let kept = rows::keep(pairs, p);
        assert(p(kept[k - a.len()]));
        assert(ev.report(state, coll).orphans[k] == b[k - a.len()]);
        assert("store"@.len() != "manifest"@.len());
    }
}

proof fn lemma_orphan_listed(ev: EvidenceV, paths: Seq<Seq<char>>, path: Seq<char>)
    requires
        paths.contains(path),
        ev.gone(path),
        ev.ids_at(path).len() > 0,
    ensures
        exists|k: int|
            0 <= k < ev.store_orphans(paths).len() && (#[trigger] ev.store_orphans(paths)[k]).path
                == path,
    decreases paths.len(),
{
    let last = paths.last();
    let init = paths.drop_last();
    let before = ev.store_orphans(init);
    let all = ev.store_orphans(paths);
    if last == path {
        assert(all[before.len() as int].path == path);
    } else {
        let m = choose|m: int| 0 <= m < paths.len() && paths[m] == path;
        assert(init[m] == path);
        assert(init.contains(path));
        lemma_orphan_listed(ev, init, path);
        let k = choose|k: int| 0 <= k < before.len() && (#[trigger] before[k]).path == path;
        assert(all[k] == before[k]);
    }
}

/// Some step deletes the store rows of a path under the given ids.
pub open spec fn removes(steps: Seq<StepV>, path: Seq<char>, path_ids: Seq<Seq<char>>) -> bool {
    exists|i: int|
        0 <= i < steps.len() && #[trigger] steps[i] == (StepV::RemovePath { path, ids: path_ids })
}

proof fn lemma_orphan_steps(
    pairs: Seq<(Seq<char>, Seq<char>)>,
    orphans: Seq<OrphanV>,
    n: int,
    path: Seq<char>,
)
    requires
        0 <= n <= orphans.len(),
        forall|i: int|
            n <= i < orphans.len() ==> (#[trigger] orphans[i]).kind != "store"@,
        forall|i: int| 0 <= i < n ==> (#[trigger] orphans[i]).kind == "store"@,
    ensures
        ({
            let v = repair::orphan_steps(pairs, orphans);
            &&& orphans.len() == n ==> (v.done.contains(path) ==> removes(
                v.steps,
                path,
                maintenance::ids_at(pairs, path),
            ))
            &&& (exists|i: int| 0 <= i < n && (#[trigger] orphans[i]).path == path) ==> removes(
                v.steps,
                path,
                maintenance::ids_at(pairs, path),
            ) && v.done.contains(path)
        }),
    decreases orphans.len(),
{
    if orphans.len() > 0 {
        let o = orphans.last();
        let init = orphans.drop_last();
        let u = repair::orphan_steps(pairs, init);
        let v = repair::orphan_steps(pairs, orphans);
        let m = if n == orphans.len() {
            n - 1
        } else {
            n
        };
        assert forall|i: int| m <= i < init.len() implies (#[trigger] init[i]).kind
            != "store"@ by {
            assert(init[i] == orphans[i]);
        }
        assert forall|i: int| 0 <= i < m implies (#[trigger] init[i]).kind == "store"@ by {
            assert(init[i] == orphans[i]);
        }
        lemma_orphan_steps(pairs, init, m, path);
        assert(orphans[orphans.len() - 1] == o);
        // Steps and done paths only grow.
        if removes(u.steps, path, maintenance::ids_at(pairs, path)) {
            let i = choose|i: int|
                0 <= i < u.steps.len() && #[trigger] u.steps[i] == (StepV::RemovePath {
                    path,
                    ids: maintenance::ids_at(pairs, path),
                });
            assert(v.steps[i] == u.steps[i]);
        }
        if u.done.contains(path) {
            let i = choose|i: int| 0 <= i < u.done.len() && u.done[i] == path;
            assert(v.done[i] == path);
        }
        if n == orphans.len() {
            if v.done.contains(path) && !u.done.contains(path) {
                let i = choose|i: int| 0 <= i < v.done.len() && v.done[i] == path;
                if i < u.done.len() {
                    assert(u.done[i] == path);
                }
                assert(o.path == path);
                assert(v.steps[u.steps.len() as int] == (StepV::RemovePath {
                    path,
                    ids: maintenance::ids_at(pairs, path),
                }));
            }
            if exists|i: int| 0 <= i < n && (#[trigger] orphans[i]).path == path {
                let i = choose|i: int| 0 <= i < n && (#[trigger] orphans[i]).path == path;
                if i < init.len() {
                    assert(init[i].path == path);
                } else if !u.done.contains(path) {
                    assert(v.steps[u.steps.len() as int] == (StepV::RemovePath {
                        path,
                        ids: maintenance::ids_at(pairs, path),
                    }));
                    assert(v.done[u.done.len() as int] == path);
                }
            }
        } else {
            if exists|i: int| 0 <= i < n && (#[trigger] orphans[i]).path == path {
                let i = choose|i: int| 0 <= i < n && (#[trigger] orphans[i]).path == path;
                assert(init[i].path == path);
            }
        }
    }
}

/// The repair of orphans is complete for the store: of every file that is gone, some step deletes
/// the rows under every id that holds it.
pub proof fn orphan_repair_clears_the_store(
    ev: EvidenceV,
    state: Seq<manifest::StateV>,
    coll: Seq<char>,
    k: int,
)
    requires
        0 <= k < ev.pairs.len(),
        ev.gone(ev.pairs[k].1),
    ensures
        ({
            let path = ev.pairs[k].1;
            let steps = repair::orphan_steps(ev.pairs, ev.report(state, coll).orphans).steps;
            &&& removes(steps, path, ev.ids_at(path))
            &&& ev.ids_at(path).contains(ev.pairs[k].0)
        }),
{
    let path = ev.pairs[k].1;
    let book = ev.pairs[k].0;
    lemma_pair_listed(ev, k);
    lemma_orphan_listed(ev, ev.paths(), path);
    let a = ev.store_orphans(ev.paths());
    let orphans = ev.report(state, coll).orphans;
    let n = a.len() as int;
    assert forall|i: int| 0 <= i < n implies (#[trigger] orphans[i]).kind == "store"@ by {
        lemma_store_orphan(ev, ev.paths(), i);
        assert(orphans[i] == a[i]);
    }
    assert forall|i: int| n <= i < orphans.len() implies (#[trigger] orphans[i]).kind
        != "store"@ by {
        reveal_strlit("store");
        reveal_strlit("manifest");
        assert("store"@.len() != "manifest"@.len());
    }
    let j = choose|j: int| 0 <= j < a.len() && (#[trigger] a[j]).path == path;
    assert(orphans[j].path == path);
    lemma_orphan_steps(ev.pairs, orphans, n, path);
}

pub proof fn lemma_pair_listed(ev: EvidenceV, k: int)
    requires
        0 <= k < ev.pairs.len(),
    ensures
        ev.paths().contains(ev.pairs[k].1),
        ev.ids_at(ev.pairs[k].1).contains(ev.pairs[k].0),
        ev.ids_at(ev.pairs[k].1).len() > 0,
{
    let path = ev.pairs[k].1;
    let snd = maintenance::seconds(ev.pairs);
    assert(snd[k] == path);
    order::lemma_sorted_set(snd);
    assert(snd.contains(path));
    let p = plan::at_path(path);
    let kept = rows::keep(ev.pairs, p);
    rows::lemma_keep(ev.pairs, p);
    assert(ev.pairs.contains(ev.pairs[k]));
    assert(kept.contains(ev.pairs[k]));
    let m = choose|m: int| 0 <= m < kept.len() && kept[m] == ev.pairs[k];
    let fst = maintenance::heads(kept);
    assert(fst[m] == ev.pairs[k].0);
    assert(fst.contains(ev.pairs[k].0));
    order::lemma_firsts(fst);
    assert(order::firsts(fst).contains(ev.pairs[k].0));
}

proof fn lemma_multi(
    ev: EvidenceV,
    state: Seq<manifest::StateV>,
    coll: Seq<char>,
    paths: Seq<Seq<char>>,
    k: int,
)
    requires
        0 <= k < ev.multi_ids(state, coll, paths).len(),
    ensures
        ({
            let m = ev.multi_ids(state, coll, paths)[k];
            &&& m.keep_id == ev.keeper(state, coll, m.path)
            &&& m.remove_ids == rows::keep(ev.ids_at(m.path), maintenance::other_than(m.keep_id))
            &&& ev.ids_at(m.path).len() >= 2
            &&& ev.exists_at(m.path)
        }),
    decreases paths.len(),
{
    if paths.len() > 0 {
        let before = ev.multi_ids(state, coll, paths.drop_last());
        if k < before.len() {
            lemma_multi(ev, state, coll, paths.drop_last(), k);
        }
    }
}

/// Of a file held under several ids one is kept, the manifest's if it has one of them, and never
/// removed; every other id is removed.
pub proof fn keeper_of_several_ids_survives(
    ev: EvidenceV,
    state: Seq<manifest::StateV>,
    coll: Seq<char>,
    k: int,
)
    requires
        0 <= k < ev.report(state, coll).multi_id.len(),
    ensures
        ({
            let m = ev.report(state, coll).multi_id[k];
            let ids = ev.ids_at(m.path);
            &&& ids.contains(m.keep_id)
            &&& !m.remove_ids.contains(m.keep_id)
            &&& forall|id: Seq<char>| #[trigger] ids.contains(id) && id != m.keep_id
                ==> m.remove_ids.contains(id)
        }),
{
    let m = ev.report(state, coll).multi_id[k];
    lemma_multi(ev, state, coll, ev.paths(), k);
    let ids = ev.ids_at(m.path);
    let q = maintenance::other_than(m.keep_id);
    rows::lemma_keep(ids, q);
    let known = rows::find_row(state, maintenance::manifest_row_at(coll, m.path));
    if !(known is Some && ids.contains(known->0.book)) && !ids.contains(
        ids::book_id_of(m.path),
    ) {
        order::lemma_sorted_set(ids);
        assert(ids.contains(ids[0]));
        assert(order::sorted_set(ids).contains(ids[0]));
        assert(order::sorted_set(ids).contains(order::sorted_set(ids)[0]));
    }
    if m.remove_ids.contains(m.keep_id) {
        let i = choose|i: int| 0 <= i < m.remove_ids.len() && m.remove_ids[i] == m.keep_id;
        assert(q(m.remove_ids[i]));
    }
}

pub proof fn lemma_rank_insert(s: Seq<VariantV>, x: VariantV)
    ensures
        repeats_nothing(s) && (forall|i: int| 0 <= i < s.len() ==> (#[trigger] s[i]).path
            != x.path) ==> repeats_nothing(maintenance::rank_insert(s, x)),
        forall|i: int|
            0 <= i < maintenance::rank_insert(s, x).len() ==> s.contains(
                #[trigger] maintenance::rank_insert(s, x)[i],
            ) || maintenance::rank_insert(s, x)[i] == x,
        maintenance::rank_insert(s, x).len() == s.len() + 1,
        (forall|i: int, j: int| 0 <= i < j < s.len() ==> (#[trigger] s[i]).rank <= (
        #[trigger] s[j]).rank) ==> (forall|i: int, j: int|
            0 <= i < j < maintenance::rank_insert(s, x).len() ==> (
            #[trigger] maintenance::rank_insert(s, x)[i]).rank <= (
            #[trigger] maintenance::rank_insert(s, x)[j]).rank),
    decreases s.len(),
{
    let r = maintenance::rank_insert(s, x);
    if s.len() > 0 && s.last().rank > x.rank {
        let t = s.drop_last();
        lemma_rank_insert(t, x);
        let w = maintenance::rank_insert(t, x);
        assert(s[s.len() - 1] == s.last());
        assert forall|i: int| 0 <= i < r.len() implies s.contains(#[trigger] r[i]) || r[i] == x by {
            if i < w.len() {
                assert(r[i] == w[i]);
                if t.contains(w[i]) {
                    let m = choose|m: int| 0 <= m < t.len() && t[m] == w[i];
                    assert(s[m] == w[i]);
                }
            } else {
                assert(s[s.len() - 1] == r[i]);
            }
        }
        if repeats_nothing(s) && (forall|i: int| 0 <= i < s.len() ==> (#[trigger] s[i]).path
            != x.path) {
            assert forall|i: int, j: int| 0 <= i < j < t.len() implies (#[trigger] t[i]).path != (
            #[trigger] t[j]).path by {
                assert(t[i] == s[i] && t[j] == s[j]);
            }
            assert forall|i: int| 0 <= i < t.len() implies (#[trigger] t[i]).path != x.path by {
                assert(t[i] == s[i]);
            }
            assert forall|i: int, j: int| 0 <= i < j < r.len() implies (#[trigger] r[i]).path != (
            #[trigger] r[j]).path by {
                if j < w.len() {
                    assert(r[i] == w[i] && r[j] == w[j]);
                } else {
                    assert(r[i] == w[i]);
                    if t.contains(w[i]) {
                        let m = choose|m: int| 0 <= m < t.len() && t[m] == w[i];
                        assert(s[m].path != s[s.len() - 1].path);
                    }
                }
            }
        }
        if forall|i: int, j: int| 0 <= i < j < s.len() ==> (#[trigger] s[i]).rank <= (
        #[trigger] s[j]).rank {
            assert forall|i: int, j: int| 0 <= i < j < t.len() implies (#[trigger] t[i]).rank <= (
            #[trigger] t[j]).rank by {
                assert(t[i] == s[i] && t[j] == s[j]);
            }
            assert forall|i: int, j: int| 0 <= i < j < r.len() implies (#[trigger] r[i]).rank <= (
            #[trigger] r[j]).rank by {
                if j < w.len() {
                    assert(r[i] == w[i] && r[j] == w[j]);
                } else {
                    assert(r[i] == w[i]);
                    if t.contains(w[i]) {
                        let m = choose|m: int| 0 <= m < t.len() && t[m] == w[i];
                        assert(s[m].rank <= s[s.len() - 1].rank);
                    }
                }
            }
        }
    } else {
        assert forall|i: int| 0 <= i < r.len() implies s.contains(#[trigger] r[i]) || r[i] == x by {
            if i < s.len() {
                assert(s[i] == r[i]);
            }
        }
        if forall|i: int, j: int| 0 <= i < j < s.len() ==> (#[trigger] s[i]).rank <= (
        #[trigger] s[j]).rank {
            assert forall|i: int, j: int| 0 <= i < j < r.len() implies (#[trigger] r[i]).rank <= (
            #[trigger] r[j]).rank by {
                if j == s.len() && s.len() > 0 {
                    assert(s[s.len() - 1] == s.last());
                    if i < s.len() - 1 {
                        assert(s[i].rank <= s[s.len() - 1].rank);
                    }
                }
            }
        }
    }
}

/// No two entries have the same path.
pub open spec fn repeats_nothing(s: Seq<VariantV>) -> bool {
    forall|i: int, j: int|
        0 <= i < j < s.len() ==> (#[trigger] s[i]).path != (#[trigger] s[j]).path
}

pub proof fn lemma_by_rank(s: Seq<VariantV>)
    requires
        repeats_nothing(s),
    ensures
        repeats_nothing(maintenance::by_rank(s)),
        maintenance::by_rank(s).len() == s.len(),
        forall|i: int|
            0 <= i < s.len() ==> s.contains(#[trigger] maintenance::by_rank(s)[i]),
        forall|i: int, j: int|
            0 <= i < j < s.len() ==> (#[trigger] maintenance::by_rank(s)[i]).rank <= (
            #[trigger] maintenance::by_rank(s)[j]).rank,
    decreases s.len(),
{
    if s.len() > 0 {
        let t = s.drop_last();
        let x = s.last();
        assert forall|i: int, j: int| 0 <= i < j < t.len() implies (#[trigger] t[i]).path != (
        #[trigger] t[j]).path by {
            assert(t[i] == s[i] && t[j] == s[j]);
        }
        lemma_by_rank(t);
        let b = maintenance::by_rank(t);
        assert forall|i: int| 0 <= i < b.len() implies (#[trigger] b[i]).path != x.path by {
            assert(t.contains(b[i]));
            let m = choose|m: int| 0 <= m < t.len() && t[m] == b[i];
            assert(s[m] == b[i] && s[s.len() - 1] == x);
        }
        lemma_rank_insert(b, x);
        let r = maintenance::by_rank(s);
        assert forall|i: int| 0 <= i < s.len() implies s.contains(#[trigger] r[i]) by {
            if b.contains(r[i]) {
                let q = choose|q: int| 0 <= q < b.len() && b[q] == r[i];
                assert(t.contains(b[q]));
                let m = choose|m: int| 0 <= m < t.len() && t[m] == r[i];
                assert(s[m] == r[i]);
            } else {
                assert(s[s.len() - 1] == r[i]);
            }
        }
    }
}

pub proof fn lemma_eligible(ev: EvidenceV, paths: Seq<Seq<char>>)
    requires
        paths.no_duplicates(),
    ensures
        repeats_nothing(ev.eligible(paths)),
        forall|i: int|
            0 <= i < ev.eligible(paths).len() ==> paths.contains(
                (#[trigger] ev.eligible(paths)[i]).path,
            ) && ev.exists_at(ev.eligible(paths)[i].path),
    decreases paths.len(),
{
    if paths.len() > 0 {
        let path = paths.last();
        let init = paths.drop_last();
        lemma_eligible(ev, init);
        let b = ev.eligible(init);
        let r = ev.eligible(paths);
        rows::lemma_first_where(ev.variants, maintenance::variant_at(path));
        assert forall|i: int| 0 <= i < r.len() implies paths.contains((#[trigger] r[i]).path)
            && ev.exists_at(r[i].path) by {
            if i < b.len() {
                assert(r[i] == b[i]);
                let m = choose|m: int| 0 <= m < init.len() && init[m] == b[i].path;
                assert(paths[m] == b[i].path);
            } else {
                assert(paths[paths.len() - 1] == path);
            }
        }
        assert forall|i: int, j: int| 0 <= i < j < r.len() implies (#[trigger] r[i]).path != (
        #[trigger] r[j]).path by {
            assert(r[i] == b[i]);
            if j < b.len() {
                assert(r[j] == b[j]);
            } else {
                let m = choose|m: int| 0 <= m < init.len() && init[m] == b[i].path;
                assert(paths[m] != paths[paths.len() - 1]);
            }
        }
    }
}

pub proof fn lemma_keep_repeats_nothing(s: Seq<VariantV>, p: spec_fn(VariantV) -> bool)
    requires
        repeats_nothing(s),
    ensures
        repeats_nothing(rows::keep(s, p)),
    decreases s.len(),
{
    if s.len() > 0 {
        let t = s.drop_last();
        assert forall|i: int, j: int| 0 <= i < j < t.len() implies (#[trigger] t[i]).path != (
        #[trigger] t[j]).path by {
            assert(t[i] == s[i] && t[j] == s[j]);
        }
        lemma_keep_repeats_nothing(t, p);
        rows::lemma_keep(t, p);
        let k = rows::keep(t, p);
        let r = rows::keep(s, p);
        assert forall|i: int, j: int| 0 <= i < j < r.len() implies (#[trigger] r[i]).path != (
        #[trigger] r[j]).path by {
            assert(r[i] == k[i]);
            if j < k.len() {
                assert(r[j] == k[j]);
            } else {
                assert(t.contains(k[i]));
                let m = choose|m: int| 0 <= m < t.len() && t[m] == k[i];
                assert(s[m].path != s[s.len() - 1].path);
            }
        }
    }
}

proof fn lemma_removals(ev: EvidenceV, losers: Seq<VariantV>, k: int)
    requires
        0 <= k < ev.removals(losers).len(),
    ensures
        exists|i: int|
            0 <= i < losers.len() && (#[trigger] losers[i]).path == ev.removals(losers)[k].path,
    decreases losers.len(),
{
    if losers.len() > 0 {
        let init = losers.drop_last();
        let b = ev.removals(init);
        if k < b.len() {
            lemma_removals(ev, init, k);
            let i = choose|i: int| 0 <= i < init.len() && (#[trigger] init[i]).path == b[k].path;
            assert(losers[i] == init[i]);
        } else {
            assert(losers[losers.len() - 1].path == ev.removals(losers)[k].path);
        }
    }
}

proof fn lemma_duplicates(ev: EvidenceV, all: Seq<VariantV>, keys: Seq<Seq<char>>, k: int)
    requires
        repeats_nothing(all),
        forall|i: int| 0 <= i < all.len() ==> ev.exists_at((#[trigger] all[i]).path),
        0 <= k < ev.duplicates(all, keys).len(),
    ensures
        ({
            let d = ev.duplicates(all, keys)[k];
            &&& ev.exists_at(d.keep_path)
            &&& forall|i: int|
                0 <= i < d.remove.len() ==> (#[trigger] d.remove[i]).path != d.keep_path
        }),
    decreases keys.len(),
{
    if keys.len() > 0 {
        let b = ev.duplicates(all, keys.drop_last());
        if k < b.len() {
            lemma_duplicates(ev, all, keys.drop_last(), k);
        } else {
            let p = maintenance::with_key(keys.last());
            let g = rows::keep(all, p);
            lemma_keep_repeats_nothing(all, p);
            lemma_by_rank(g);
            rows::lemma_keep(all, p);
            let m = maintenance::by_rank(g);
            let d = ev.duplicates(all, keys)[k];
            assert(g.contains(m[0]));
            let q = choose|q: int| 0 <= q < g.len() && g[q] == m[0];
            assert(all.contains(g[q]));
            let z = choose|z: int| 0 <= z < all.len() && all[z] == m[0];
            assert(ev.exists_at(all[z].path));
            assert forall|i: int| 0 <= i < d.remove.len() implies (#[trigger] d.remove[i]).path
                != d.keep_path by {
                lemma_removals(ev, m.skip(1), i);
                let j = choose|j: int|
                    0 <= j < m.skip(1).len() && (#[trigger] m.skip(1)[j]).path
                        == d.remove[i].path;
                assert(m.skip(1)[j] == m[j + 1]);
            }
        }
    }
}

/// No path is listed twice.
pub proof fn lemma_paths_distinct(ev: EvidenceV)
    ensures
        ev.paths().no_duplicates(),
{
    let paths = ev.paths();
    order::lemma_sorted_set(maintenance::seconds(ev.pairs));
    assert forall|i: int, j: int|
        0 <= i < paths.len() && 0 <= j < paths.len() && i != j implies paths[i] != paths[j] by {
        order::lemma_before_irreflexive(paths[i]);
        if i < j {
            assert(order::before(paths[i], paths[j]));
        } else {
            assert(order::before(paths[j], paths[i]));
        }
    }
}

/// Of a book that several files hold, the file that is kept exists and none of its rows is
/// removed.
pub proof fn kept_variant_survives(
    ev: EvidenceV,
    state: Seq<manifest::StateV>,
    coll: Seq<char>,
    k: int,
)
    requires
        0 <= k < ev.report(state, coll).dup_variants.len(),
    ensures
        ({
            let d = ev.report(state, coll).dup_variants[k];
            &&& ev.exists_at(d.keep_path)
            &&& forall|i: int|
                0 <= i < d.remove.len() ==> (#[trigger] d.remove[i]).path != d.keep_path
        }),
{
    let paths = ev.paths();
    lemma_paths_distinct(ev);
    lemma_eligible(ev, paths);
    let all = ev.eligible(paths);
    lemma_duplicates(ev, all, maintenance::keys_of(all), k);
}

/// A stamp is flagged only if it names the wrong family, and rewriting it as reported mends it.
pub proof fn restamping_mends(f: StoredFormatV)
    requires
        maintenance::stamp_is_bad(f),
    ensures
        !maintenance::stamp_is_bad(
            StoredFormatV { format: formats::format_of(f.path)->0.name(), ..f },
        ),
{
    formats::format_names_round_trip(formats::format_of(f.path)->0);
}

proof fn lemma_no_empty_forget(pairs: Seq<(Seq<char>, Seq<char>)>, orphans: Seq<OrphanV>, i: int)
    requires
        0 <= i < repair::orphan_steps(pairs, orphans).steps.len(),
    ensures
        repair::orphan_steps(pairs, orphans).steps[i] matches StepV::ForgetPath { path }
            ==> path.len() > 0,
    decreases orphans.len(),
{
    if orphans.len() > 0 {
        let u = repair::orphan_steps(pairs, orphans.drop_last());
        let v = repair::orphan_steps(pairs, orphans);
        if i < u.steps.len() {
            lemma_no_empty_forget(pairs, orphans.drop_last(), i);
            assert(v.steps[i] == u.steps[i]);
        }
    }
}

/// A manifest row without a path is never repaired by its path, which would sweep every other row
/// without one.
pub proof fn rows_without_path_are_forgotten_one_by_one(
    pairs: Seq<(Seq<char>, Seq<char>)>,
    orphans: Seq<OrphanV>,
    i: int,
)
    requires
        0 <= i < repair::orphan_steps(pairs, orphans).steps.len(),
    ensures
        repair::orphan_steps(pairs, orphans).steps[i] matches StepV::ForgetPath { path }
            ==> path.len() > 0,
{
    lemma_no_empty_forget(pairs, orphans, i);
}

/// A forgotten path leaves no manifest row under it, none of its path-derived id, and no skip
/// record, and takes nothing from other collections.
pub proof fn forgotten_path_leaves_nothing(
    db: manifest::DbV,
    coll: Seq<char>,
    path: Seq<char>,
    i: int,
)
    ensures
        ({
            let after = repair::forget_path(db, coll, path);
            &&& 0 <= i < after.state.len() ==> !(after.state[i].collection == coll && (
            after.state[i].source_path == path || after.state[i].book == ids::book_id_of(path)))
            &&& 0 <= i < after.skips.len() ==> !(after.skips[i].collection == coll
                && after.skips[i].source_path == path)
            &&& 0 <= i < db.state.len() && db.state[i].collection != coll ==> after.state.contains(
                db.state[i],
            )
        }),
{
    let p = |x: manifest::StateV|
        !(manifest::at_path_or_book(coll, path, ids::book_id_of(path)))(x);
    let q = |x: manifest::SkipV| !(manifest::skips_at(coll, path))(x);
    rows::lemma_keep(db.state, p);
    rows::lemma_keep(db.skips, q);
    if 0 <= i < rows::keep(db.state, p).len() {
        assert(p(rows::keep(db.state, p)[i]));
    }
    if 0 <= i < rows::keep(db.skips, q).len() {
        assert(q(rows::keep(db.skips, q)[i]));
    }
    if 0 <= i < db.state.len() {
        assert(db.state.contains(db.state[i]));
    }
}

} // verus!
