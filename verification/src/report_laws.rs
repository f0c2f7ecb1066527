//! What a report finds: nothing that is amiss is passed over.
use vstd::prelude::*;
use crate::maintenance;
use crate::maintenance::{DupV, EvidenceV, MultiV, OrphanV, RemoveV, RootV, StampV, StoredFormatV, VariantV};
use crate::manifest;
use crate::order;
use crate::rows;
use crate::shape;
use crate::upkeep_laws;

verus! {

/// Of each path that is gone, an orphan for every id that holds it.
pub open spec fn orphan_parts(ev: EvidenceV, paths: Seq<Seq<char>>) -> spec_fn(int) -> Seq<
    OrphanV,
> {
    |i: int|
        if !ev.present.contains(paths[i]) && !manifest::under_roots(paths[i], ev.unreachable) {
            Seq::new(
                ev.ids_at(paths[i]).len(),
                |j: int|
                    OrphanV { book: ev.ids_at(paths[i])[j], path: paths[i], kind: "store"@ },
            )
        } else {
            Seq::empty()
        }
}

/// Every path of the store whose file is gone, and not merely out of reach, is reported under every
/// id that holds it, in the order of the paths.
pub proof fn every_orphan_is_reported(ev: EvidenceV, paths: Seq<Seq<char>>)
    ensures
        shape::laid(paths.len() as int, orphan_parts(ev, paths), ev.store_orphans(paths)),
    decreases paths.len(),
{
    if paths.len() == 0 {
        shape::lemma_laid_none(orphan_parts(ev, paths));
    } else {
        let less = paths.drop_last();
        let n = less.len() as int;
        every_orphan_is_reported(ev, less);
        assert forall|i: int| 0 <= i < n implies #[trigger] orphan_parts(ev, less)(i)
            == orphan_parts(ev, paths)(i) by {
            assert(less[i] == paths[i]);
        }
        let path = paths.last();
        assert(paths[n] == path);
        shape::lemma_laid_step(
            n,
            orphan_parts(ev, less),
            orphan_parts(ev, paths),
            ev.store_orphans(less),
        );
        assert(ev.store_orphans(paths) =~= ev.store_orphans(less) + orphan_parts(ev, paths)(n));
    }
}

/// The ids that hold a path are those that the store pairs with it, each once.
pub proof fn ids_at_a_path_are_those_of_the_store(
    pairs: Seq<(Seq<char>, Seq<char>)>,
    path: Seq<char>,
    id: Seq<char>,
)
    ensures
        maintenance::ids_at(pairs, path).contains(id) <==> pairs.contains((id, path)),
        maintenance::ids_at(pairs, path).no_duplicates(),
{
    let p = crate::plan::at_path(path);
    let k = rows::keep(pairs, p);
    let h = maintenance::heads(k);
    order::lemma_firsts(h);
    rows::lemma_keep(pairs, p);
    if h.contains(id) {
        let i = choose|i: int| 0 <= i < h.len() && h[i] == id;
        assert(p(k[i]));
        assert(k[i] == (id, path));
        assert(pairs.contains(k[i]));
    }
    if pairs.contains((id, path)) {
        assert(p((id, path)));
        assert(k.contains((id, path)));
        let i = choose|i: int| 0 <= i < k.len() && k[i] == (id, path);
        assert(h[i] == id);
    }
}

/// The manifest rows that are reported as orphans are those of books that the store does not have,
/// whose path is unknown or gone: all of them, in order.
pub proof fn every_orphaned_row_is_reported(ev: EvidenceV, state: Seq<(Seq<char>, Seq<char>)>)
    ensures
        shape::picks(
            state.len() as int,
            |i: int|
                !ev.ids.contains(state[i].0) && (state[i].1.len() == 0 || (!ev.present.contains(
                    state[i].1,
                ) && !manifest::under_roots(state[i].1, ev.unreachable))),
            |i: int| OrphanV { book: state[i].0, path: state[i].1, kind: "manifest"@ },
            ev.manifest_orphans(state),
        ),
{
    let p = |r: (Seq<char>, Seq<char>)| ev.orphan_row(r);
    let f = |r: (Seq<char>, Seq<char>)| OrphanV { book: r.0, path: r.1, kind: "manifest"@ };
    let kept = rows::keep(state, p);
    let out = kept.map_values(f);
    let keep = |i: int|
        !ev.ids.contains(state[i].0) && (state[i].1.len() == 0 || (!ev.present.contains(state[i].1)
            && !manifest::under_roots(state[i].1, ev.unreachable)));
    let value = |i: int| OrphanV { book: state[i].0, path: state[i].1, kind: "manifest"@ };
    shape::keeping_picks(state, p);
    let keep0 = |i: int| p(state[i]);
    let value0 = |i: int| state[i];
    let n = state.len() as int;
    let at = choose|at: Seq<int>| #[trigger] shape::picked_at(n, keep0, value0, kept, at);
    assert forall|i: int| 0 <= i < n implies (#[trigger] keep(i) <==> keep0(i)) by {}
    assert forall|k: int| 0 <= k < at.len() implies 0 <= #[trigger] at[k] < n && keep(at[k])
        && out[k] == value(at[k]) by {
        assert(keep0(at[k]));
        assert(kept[k] == value0(at[k]));
    }
    assert forall|i: int| 0 <= i < n && #[trigger] keep(i) implies at.contains(i) by {
        assert(keep0(i));
    }
    assert(shape::picked_at(n, keep, value, out, at));
}

/// Every stamp that does not name the family of its file is reported with the one it should name,
/// in order.
pub proof fn every_bad_stamp_is_reported(all: Seq<StoredFormatV>)
    ensures
        shape::picks(
            all.len() as int,
            |i: int| maintenance::stamp_is_bad(all[i]),
            |i: int|
                StampV {
                    book: all[i].book,
                    path: all[i].path,
                    from: all[i].format,
                    to: crate::formats::format_of(all[i].path)->0.name(),
                },
            maintenance::bad_stamps(all),
        ),
{
    let p = |f: StoredFormatV| maintenance::stamp_is_bad(f);
    let kept = rows::keep(all, p);
    let out = maintenance::bad_stamps(all);
    let keep = |i: int| maintenance::stamp_is_bad(all[i]);
    let value = |i: int|
        StampV {
            book: all[i].book,
            path: all[i].path,
            from: all[i].format,
            to: crate::formats::format_of(all[i].path)->0.name(),
        };
    shape::keeping_picks(all, p);
    let keep0 = |i: int| p(all[i]);
    let value0 = |i: int| all[i];
    let n = all.len() as int;
    let at = choose|at: Seq<int>| #[trigger] shape::picked_at(n, keep0, value0, kept, at);
    assert forall|i: int| 0 <= i < n implies (#[trigger] keep(i) <==> keep0(i)) by {}
    assert forall|k: int| 0 <= k < at.len() implies 0 <= #[trigger] at[k] < n && keep(at[k])
        && out[k] == value(at[k]) by {
        assert(keep0(at[k]));
        assert(kept[k] == value0(at[k]));
    }
    assert forall|i: int| 0 <= i < n && #[trigger] keep(i) implies at.contains(i) by {
        assert(keep0(i));
    }
    assert(shape::picked_at(n, keep, value, out, at));
}

/// Every file that exists and is held under several ids is reported, in the order of the paths.
pub proof fn every_file_under_several_ids_is_reported(
    ev: EvidenceV,
    state: Seq<manifest::StateV>,
    coll: Seq<char>,
    paths: Seq<Seq<char>>,
)
    ensures
        shape::picks(
            paths.len() as int,
            |i: int| ev.present.contains(paths[i]) && ev.ids_at(paths[i]).len() >= 2,
            |i: int| paths[i],
            ev.multi_ids(state, coll, paths).map_values(|m: MultiV| m.path),
        ),
    decreases paths.len(),
{
    let keep = |i: int| ev.present.contains(paths[i]) && ev.ids_at(paths[i]).len() >= 2;
    let value = |i: int| paths[i];
    let path_of = |m: MultiV| m.path;
    if paths.len() == 0 {
        assert(ev.multi_ids(state, coll, paths).map_values(path_of) =~= Seq::empty());
        shape::lemma_picks_none(keep, value);
    } else {
        let less = paths.drop_last();
        let n = less.len() as int;
        every_file_under_several_ids_is_reported(ev, state, coll, less);
        let keep0 = |i: int| ev.present.contains(less[i]) && ev.ids_at(less[i]).len() >= 2;
        let value0 = |i: int| less[i];
        assert forall|i: int| 0 <= i < n implies (#[trigger] keep0(i) <==> keep(i)) by {
            assert(less[i] == paths[i]);
        }
        assert forall|i: int| 0 <= i < n && #[trigger] keep0(i) implies value0(i) == value(i) by {
            assert(less[i] == paths[i]);
        }
        let out = ev.multi_ids(state, coll, less).map_values(path_of);
        shape::lemma_picks_step(n, keep0, value0, keep, value, out);
        let next = ev.multi_ids(state, coll, paths).map_values(path_of);
        if keep(n) {
            assert(next =~= out.push(value(n)));
        } else {
            assert(next =~= out);
        }
    }
}

/// The files that can be told apart as formats of a book: those that exist, can be judged and have a
/// known format, in order.
pub proof fn every_known_file_can_be_a_duplicate(ev: EvidenceV, paths: Seq<Seq<char>>)
    ensures
        shape::picks(
            paths.len() as int,
            |i: int|
                ev.present.contains(paths[i]) && !manifest::under_roots(paths[i], ev.unreachable)
                    && rows::find_row(ev.variants, maintenance::variant_at(paths[i])) is Some,
            |i: int| rows::find_row(ev.variants, maintenance::variant_at(paths[i]))->0,
            ev.eligible(paths),
        ),
    decreases paths.len(),
{
    let keep = |i: int|
        ev.present.contains(paths[i]) && !manifest::under_roots(paths[i], ev.unreachable)
            && rows::find_row(ev.variants, maintenance::variant_at(paths[i])) is Some;
    let value = |i: int| rows::find_row(ev.variants, maintenance::variant_at(paths[i]))->0;
    if paths.len() == 0 {
        shape::lemma_picks_none(keep, value);
    } else {
        let less = paths.drop_last();
        let n = less.len() as int;
        every_known_file_can_be_a_duplicate(ev, less);
        let keep0 = |i: int|
            ev.present.contains(less[i]) && !manifest::under_roots(less[i], ev.unreachable)
                && rows::find_row(ev.variants, maintenance::variant_at(less[i])) is Some;
        let value0 = |i: int| rows::find_row(ev.variants, maintenance::variant_at(less[i]))->0;
        assert forall|i: int| 0 <= i < n implies (#[trigger] keep0(i) <==> keep(i)) by {
            assert(less[i] == paths[i]);
        }
        assert forall|i: int| 0 <= i < n && #[trigger] keep0(i) implies value0(i) == value(i) by {
            assert(less[i] == paths[i]);
        }
        shape::lemma_picks_step(n, keep0, value0, keep, value, ev.eligible(less));
    }
}

/// The rows of some files are all removed: one entry for every id that holds each of them.
pub proof fn every_row_of_a_loser_is_removed(ev: EvidenceV, losers: Seq<VariantV>)
    ensures
        shape::laid(
            losers.len() as int,
            |i: int|
                Seq::new(
                    ev.ids_at(losers[i].path).len(),
                    |j: int|
                        RemoveV { book: ev.ids_at(losers[i].path)[j], path: losers[i].path },
                ),
            ev.removals(losers),
        ),
    decreases losers.len(),
{
    let part = |i: int|
        Seq::new(
            ev.ids_at(losers[i].path).len(),
            |j: int| RemoveV { book: ev.ids_at(losers[i].path)[j], path: losers[i].path },
        );
    if losers.len() == 0 {
        shape::lemma_laid_none(part);
    } else {
        let less = losers.drop_last();
        let n = less.len() as int;
        every_row_of_a_loser_is_removed(ev, less);
        let part0 = |i: int|
            Seq::new(
                ev.ids_at(less[i].path).len(),
                |j: int| RemoveV { book: ev.ids_at(less[i].path)[j], path: less[i].path },
            );
        assert forall|i: int| 0 <= i < n implies #[trigger] part0(i) == part(i) by {
            assert(less[i] == losers[i]);
            assert(part0(i) =~= part(i));
        }
        shape::lemma_laid_step(n, part0, part, ev.removals(less));
        assert(ev.removals(losers) =~= ev.removals(less) + part(n));
    }
}

/// A group of a book's files, the best format first: the first is kept, all others are removed.
pub open spec fn groups(ev: EvidenceV, all: Seq<VariantV>, key: Seq<char>, d: DupV) -> bool {
    exists|m: Seq<VariantV>|
        {
            &&& #[trigger] is_group(all, key, m)
            &&& m.len() >= 2
            &&& d.keep_path == m[0].path
            &&& d.remove == ev.removals(m.skip(1))
        }
}

/// All entries with a key, as often as they occur, the lower ranks first.
pub open spec fn is_group(all: Seq<VariantV>, key: Seq<char>, m: Seq<VariantV>) -> bool {
    &&& m.to_multiset() == rows::keep(all, maintenance::with_key(key)).to_multiset()
    &&& forall|i: int, j: int| 0 <= i < j < m.len() ==> (#[trigger] m[i]).rank <= (#[trigger] m[j]).rank
}

proof fn lemma_insert_all(s: Seq<VariantV>, x: VariantV)
    ensures
        maintenance::rank_insert(s, x).to_multiset() == s.to_multiset().insert(x),
    decreases s.len(),
{
    broadcast use vstd::seq_lib::group_to_multiset_ensures;

    if s.len() > 0 && s.last().rank > x.rank {
        lemma_insert_all(s.drop_last(), x);
        assert(s =~= s.drop_last().push(s.last()));
        assert(maintenance::rank_insert(s, x).to_multiset() =~= s.to_multiset().insert(x));
    }
}

proof fn lemma_by_rank_all(s: Seq<VariantV>)
    ensures
        maintenance::by_rank(s).to_multiset() == s.to_multiset(),
        forall|i: int, j: int|
            0 <= i < j < maintenance::by_rank(s).len() ==> (
            #[trigger] maintenance::by_rank(s)[i]).rank <= (
            #[trigger] maintenance::by_rank(s)[j]).rank,
    decreases s.len(),
{
    broadcast use vstd::seq_lib::group_to_multiset_ensures;

    if s.len() > 0 {
        lemma_by_rank_all(s.drop_last());
        let b = maintenance::by_rank(s.drop_last());
        lemma_insert_all(b, s.last());
        upkeep_laws::lemma_rank_insert(b, s.last());
        assert(s =~= s.drop_last().push(s.last()));
    }
}

/// Duplicates with the place of the key of each: every key with two files or more has its place.
pub open spec fn duplicates_at(
    ev: EvidenceV,
    all: Seq<VariantV>,
    keys: Seq<Seq<char>>,
    out: Seq<DupV>,
    at: Seq<int>,
) -> bool {
    &&& at.len() == out.len()
    &&& forall|k: int|
        0 <= k < at.len() ==> 0 <= #[trigger] at[k] < keys.len() && groups(
            ev,
            all,
            keys[at[k]],
            out[k],
        )
    &&& forall|k: int, l: int| 0 <= k < l < at.len() ==> #[trigger] at[k] < #[trigger] at[l]
    &&& forall|i: int|
        0 <= i < keys.len() && rows::keep(all, maintenance::with_key(#[trigger] keys[i])).len() >= 2
            ==> at.contains(i)
}

/// Every book that several files hold is reported, once for each key and in the order of the keys:
/// the file of the best format is kept, and the rows of all others are removed.
pub proof fn every_duplicate_is_reported(ev: EvidenceV, all: Seq<VariantV>, keys: Seq<Seq<char>>)
    ensures
        exists|at: Seq<int>| #[trigger]
            duplicates_at(ev, all, keys, ev.duplicates(all, keys), at),
    decreases keys.len(),
{
    broadcast use vstd::seq_lib::group_to_multiset_ensures;

    let out = ev.duplicates(all, keys);
    if keys.len() == 0 {
        assert(duplicates_at(ev, all, keys, out, Seq::empty()));
    } else {
        let less = keys.drop_last();
        let n = less.len() as int;
        every_duplicate_is_reported(ev, all, less);
        let before = ev.duplicates(all, less);
        let at0 = choose|at: Seq<int>| #[trigger] duplicates_at(ev, all, less, before, at);
        let key = keys.last();
        let group = rows::keep(all, maintenance::with_key(key));
        let m = maintenance::by_rank(group);
        lemma_by_rank_all(group);
        assert(m.to_multiset().len() == m.len());
        assert(group.to_multiset().len() == group.len());
        assert(keys[n] == key);
        assert(is_group(all, key, m));
        let at = if m.len() < 2 {
            at0
        } else {
            at0.push(n)
        };
        assert forall|k: int| 0 <= k < at.len() implies 0 <= #[trigger] at[k] < keys.len() && groups(
            ev,
            all,
            keys[at[k]],
            out[k],
        ) by {
            if k < at0.len() {
                assert(at[k] == at0[k]);
                assert(less[at0[k]] == keys[at0[k]]);
                assert(out[k] == before[k]);
            }
        }
        assert forall|i: int|
            0 <= i < keys.len() && rows::keep(
                all,
                maintenance::with_key(#[trigger] keys[i]),
            ).len() >= 2 implies at.contains(i) by {
            if i < n {
                assert(less[i] == keys[i]);
                let k = choose|k: int| 0 <= k < at0.len() && at0[k] == i;
                assert(at[k] == i);
            } else {
                assert(at[at0.len() as int] == i);
            }
        }
        assert(duplicates_at(ev, all, keys, out, at));
    }
}

/// The keys of a report are those of all its files.
pub proof fn every_key_is_looked_at(all: Seq<VariantV>, i: int)
    requires
        0 <= i < all.len(),
    ensures
        maintenance::keys_of(all).contains(all[i].key),
        order::rises(maintenance::keys_of(all)),
{
    let s = Seq::new(all.len(), |i: int| all[i].key);
    order::lemma_sorted_set(s);
    assert(s[i] == all[i].key);
}

/// The roots that a missing path lies under, if any is unreachable.
pub open spec fn hit_parts(ev: EvidenceV, paths: Seq<Seq<char>>) -> spec_fn(int) -> Seq<Seq<char>> {
    |i: int|
        if !ev.present.contains(paths[i]) {
            rows::keep(ev.unreachable, |r: Seq<char>| manifest::under_root(paths[i], r))
        } else {
            Seq::empty()
        }
}

/// Every missing path counts for every unreachable root that it lies under.
pub proof fn every_missing_path_counts_for_its_roots(ev: EvidenceV, paths: Seq<Seq<char>>)
    ensures
        shape::laid(paths.len() as int, hit_parts(ev, paths), ev.root_hits(paths)),
    decreases paths.len(),
{
    if paths.len() == 0 {
        shape::lemma_laid_none(hit_parts(ev, paths));
    } else {
        let less = paths.drop_last();
        let n = less.len() as int;
        every_missing_path_counts_for_its_roots(ev, less);
        assert forall|i: int| 0 <= i < n implies #[trigger] hit_parts(ev, less)(i) == hit_parts(
            ev,
            paths,
        )(i) by {
            lemma_hit_part(ev, less, paths, i);
        }
        shape::lemma_laid_step(n, hit_parts(ev, less), hit_parts(ev, paths), ev.root_hits(less));
        lemma_hit_last(ev, paths);
        assert(ev.root_hits(paths) =~= ev.root_hits(less) + hit_parts(ev, paths)(n));
    }
}

proof fn lemma_hit_part(ev: EvidenceV, a: Seq<Seq<char>>, b: Seq<Seq<char>>, i: int)
    requires
        a[i] == b[i],
    ensures
        hit_parts(ev, a)(i) == hit_parts(ev, b)(i),
{
    rows::lemma_keep_same(
        ev.unreachable,
        |r: Seq<char>| manifest::under_root(a[i], r),
        |r: Seq<char>| manifest::under_root(b[i], r),
    );
}

proof fn lemma_hit_last(ev: EvidenceV, paths: Seq<Seq<char>>)
    requires
        paths.len() > 0,
    ensures
        ev.root_hits(paths) == ev.root_hits(paths.drop_last()) + hit_parts(ev, paths)(
            paths.len() - 1,
        ),
{
    let path = paths.last();
    let n = paths.len() - 1;
    assert(paths[n] == path);
    let p = |r: Seq<char>| manifest::under_root(path, r);
    let q = |r: Seq<char>| manifest::under_root(paths[n], r);
    rows::lemma_keep_same(ev.unreachable, p, q);
    let before = ev.root_hits(paths.drop_last());
    if !ev.unjudgeable(path) {
        rows::lemma_keep(ev.unreachable, q);
        let k = rows::keep(ev.unreachable, q);
        if k.len() > 0 {
            assert(q(k[0]));
            assert(ev.unreachable.contains(k[0]));
            let j = choose|j: int| 0 <= j < ev.unreachable.len() && ev.unreachable[j] == k[0];
            assert(manifest::under_root(path, ev.unreachable[j]));
        }
        assert(before + Seq::<Seq<char>>::empty() =~= before);
    } else if ev.exists_at(path) {
        assert(before + Seq::<Seq<char>>::empty() =~= before);
    }
}

proof fn lemma_plus_unhit(s: Seq<RootV>, roots: Seq<Seq<char>>)
    ensures
        s.is_prefix_of(maintenance::plus_unhit(s, roots)),
        forall|i: int|
            0 <= i < roots.len() ==> exists|k: int|
                0 <= k < maintenance::plus_unhit(s, roots).len() && (
                #[trigger] maintenance::plus_unhit(s, roots)[k]).root == #[trigger] roots[i],
        forall|k: int|
            s.len() <= k < maintenance::plus_unhit(s, roots).len() ==> (
            #[trigger] maintenance::plus_unhit(s, roots)[k]).affected == 0 && roots.contains(
                maintenance::plus_unhit(s, roots)[k].root,
            ),
    decreases roots.len(),
{
    if roots.len() == 0 {
        assert(s =~= s.subrange(0, s.len() as int));
    } else {
        let less = roots.drop_last();
        let n = less.len() as int;
        lemma_plus_unhit(s, less);
        let t = maintenance::plus_unhit(s, less);
        let u = maintenance::plus_unhit(s, roots);
        assert(s =~= t.subrange(0, s.len() as int));
        assert(s =~= u.subrange(0, s.len() as int));
        assert(roots[n] == roots.last());
        assert forall|i: int| 0 <= i < roots.len() implies exists|k: int|
            0 <= k < u.len() && (#[trigger] u[k]).root == #[trigger] roots[i] by {
            if i < n {
                assert(less[i] == roots[i]);
                let k = choose|k: int| 0 <= k < t.len() && (#[trigger] t[k]).root == less[i];
                assert(u[k] == t[k]);
            } else if u.len() > t.len() {
                assert(u[t.len() as int].root == roots[n]);
            } else {
                let k = choose|k: int| 0 <= k < t.len() && (#[trigger] t[k]).root == roots[n];
                assert(u[k].root == roots[n]);
            }
        }
        assert forall|k: int| s.len() <= k < u.len() implies (#[trigger] u[k]).affected == 0
            && roots.contains(u[k].root) by {
            if k < t.len() {
                assert(u[k] == t[k]);
                let i = choose|i: int| 0 <= i < less.len() && less[i] == t[k].root;
                assert(roots[i] == u[k].root);
            } else {
                assert(roots[n] == u[k].root);
            }
        }
    }
}

/// Every unreachable root is reported, with as many missing files as it hides.
pub proof fn every_unreachable_root_is_reported(ev: EvidenceV, i: int)
    requires
        0 <= i < ev.unreachable.len(),
    ensures
        exists|k: int|
            {
                &&& 0 <= k < ev.roots_report().len()
                &&& (#[trigger] ev.roots_report()[k]).root == ev.unreachable[i]
                &&& ev.roots_report()[k].affected == ev.root_hits(ev.paths()).to_multiset().count(
                    ev.unreachable[i],
                )
            },
{
    broadcast use vstd::seq_lib::group_to_multiset_ensures;

    let hits = ev.root_hits(ev.paths());
    let f = |r: Seq<char>|
        RootV { root: r, affected: rows::keep(hits, |x: Seq<char>| x == r).len() };
    let set = order::sorted_set(hits);
    let s = set.map_values(f);
    let report = ev.roots_report();
    let root = ev.unreachable[i];
    order::lemma_sorted_set(hits);
    lemma_plus_unhit(s, ev.unreachable);
    assert(report == maintenance::plus_unhit(s, ev.unreachable));
    if hits.contains(root) {
        assert(set.contains(root));
        let k = choose|k: int| 0 <= k < set.len() && set[k] == root;
        assert(s =~= report.subrange(0, s.len() as int));
        assert(report[k] == s[k]);
        let q = |x: Seq<char>| x == set[k];
        assert(report[k].affected == rows::keep(hits, q).len());
        lemma_count(hits, root, q);
        assert(report[k].root == root);
    } else {
        let k = choose|k: int| 0 <= k < report.len() && (#[trigger] report[k]).root == root;
        if k < s.len() {
            assert(s =~= report.subrange(0, s.len() as int));
            assert(report[k] == s[k]);
            assert(set.contains(set[k]));
        }
        assert(hits.to_multiset().count(root) == 0);
        assert(report[k].root == root);
    }
}

proof fn lemma_count(hits: Seq<Seq<char>>, r: Seq<char>, p: spec_fn(Seq<char>) -> bool)
    requires
        forall|x: Seq<char>| #[trigger] p(x) <==> x == r,
    ensures
        rows::keep(hits, p).len() == hits.to_multiset().count(r),
    decreases hits.len(),
{
    broadcast use vstd::seq_lib::group_to_multiset_ensures;

    if hits.len() > 0 {
        lemma_count(hits.drop_last(), r, p);
        assert(hits =~= hits.drop_last().push(hits.last()));
    }
}

/// Of the ids of a file that of its manifest row is kept, if the store has it; else the one that its
/// path gives, if the store has that; and else the first of them.
pub proof fn keepers_follow_the_manifest(
    ev: EvidenceV,
    state: Seq<manifest::StateV>,
    coll: Seq<char>,
    path: Seq<char>,
    i: int,
)
    requires
        ev.ids_at(path).len() > 0,
    ensures
        ({
            let ids = ev.ids_at(path);
            let own = crate::ids::book_id_of(path);
            let keep = ev.keeper(state, coll, path);
            let at = |j: int| state[j].collection == coll && state[j].source_path == path;
            &&& 0 <= i < state.len() && at(i) && (forall|j: int| 0 <= j < i ==> !(#[trigger] at(j)))
                && ids.contains(state[i].book) ==> keep == state[i].book
            &&& (forall|j: int|
                0 <= j < state.len() && #[trigger] at(j) ==> !ids.contains(state[j].book)) ==> {
                &&& ids.contains(own) ==> keep == own
                &&& !ids.contains(own) ==> ids.contains(keep) && forall|id: Seq<char>| #[trigger]
                    ids.contains(id) ==> id == keep || order::before(keep, id)
            }
        }),
{
    let ids = ev.ids_at(path);
    let p = maintenance::manifest_row_at(coll, path);
    let at = |j: int| state[j].collection == coll && state[j].source_path == path;
    rows::lemma_first_where(state, p);
    if 0 <= i < state.len() && at(i) && (forall|j: int| 0 <= j < i ==> !(#[trigger] at(j))) {
        assert forall|j: int| 0 <= j < i implies !p(#[trigger] state[j]) by {
            assert(!at(j));
        }
        rows::lemma_first_where_is(state, p, i);
    }
    if forall|j: int|
        0 <= j < state.len() && #[trigger] at(j) ==> !ids.contains(state[j].book) {
        if let Some(k) = rows::first_where(state, p) {
            assert(at(k));
        }
        let s = order::sorted_set(ids);
        order::lemma_sorted_set(ids);
        assert(ids.contains(ids[0]));
        assert(s.contains(ids[0]));
        assert(s.contains(s[0]));
        assert forall|id: Seq<char>| #[trigger] ids.contains(id) implies id == s[0]
            || order::before(s[0], id) by {
            assert(s.contains(id));
            let j = choose|j: int| 0 <= j < s.len() && s[j] == id;
            if j > 0 {
                assert(order::before(s[0], s[j]));
            }
        }
    }
}

/// A stamp is bad exactly where it names another format than the file's own.
pub proof fn bad_stamps_name_another_format(f: StoredFormatV, a: crate::formats::Format)
    requires
        f.format == a.name(),
    ensures
        maintenance::stamp_is_bad(f) <==> crate::formats::format_of(f.path) is Some
            && crate::formats::format_of(f.path) != Some(a),
{
    crate::formats::format_names_round_trip(a);
}

} // verus!
