//! What the manifest holds after each of its operations, said of its rows.
use vstd::prelude::*;
use crate::manifest;
use crate::manifest::{SkipV, StateV};
use crate::manifest_laws;
use crate::plan::{RefreshV, RemapV};
use crate::rows;
use crate::service;
use crate::service::SeedV;
use crate::shape;

verus! {

/// Keeping rows keeps exactly those that satisfy the predicate.
proof fn lemma_kept<A>(s: Seq<A>, p: spec_fn(A) -> bool, x: A)
    ensures
        rows::keep(s, p).contains(x) <==> s.contains(x) && p(x),
{
    rows::lemma_keep(s, p);
    let k = rows::keep(s, p);
    if k.contains(x) {
        let j = choose|j: int| 0 <= j < k.len() && k[j] == x;
        assert(p(k[j]));
    }
}

/// Clearing a path takes the collection's rows at it and the book's own, and no others.
pub proof fn clearing_takes_path_and_book(
    state: Seq<StateV>,
    coll: Seq<char>,
    path: Seq<char>,
    book: Seq<char>,
    x: StateV,
)
    ensures
        manifest::cleared(state, coll, path, book).contains(x) <==> state.contains(x) && (
        x.collection != coll || (x.source_path != path && x.book != book)),
{
    lemma_kept(state, |r: StateV| !(manifest::at_path_or_book(coll, path, book))(r), x);
}

/// Dropping a book takes its row in the collection, and no other.
pub proof fn dropping_takes_one_book(
    state: Seq<StateV>,
    coll: Seq<char>,
    book: Seq<char>,
    x: StateV,
)
    ensures
        manifest::without_book(state, coll, book).contains(x) <==> state.contains(x) && !(
        x.collection == coll && x.book == book),
{
    lemma_kept(state, |r: StateV| !(manifest::of_book(coll, book))(r), x);
}

/// Erasing takes the skips of every pipeline at a path, and no others.
pub proof fn erasing_takes_the_path(
    skips: Seq<SkipV>,
    coll: Seq<char>,
    path: Seq<char>,
    x: SkipV,
)
    ensures
        manifest::erased(skips, coll, path).contains(x) <==> skips.contains(x) && !(x.collection
            == coll && x.source_path == path),
{
    lemma_kept(skips, |r: SkipV| !(manifest::skips_at(coll, path))(r), x);
}

/// Sweeping takes the collection's skips outside every root, and no others.
pub proof fn sweeping_takes_strays(
    skips: Seq<SkipV>,
    coll: Seq<char>,
    roots: Seq<Seq<char>>,
    x: SkipV,
)
    ensures
        manifest::swept(skips, coll, roots).contains(x) <==> skips.contains(x) && (x.collection
            != coll || exists|i: int|
            0 <= i < roots.len() && manifest::under_root(x.source_path, #[trigger] roots[i])),
{
    lemma_kept(skips, |r: SkipV| !(manifest::stray_skip(coll, roots))(r), x);
}

/// Below a root is what continues it behind a slash, whether it is written with slashes at its end or
/// not; a path that only begins alike is not.
pub proof fn below_a_root_is_behind_a_slash(root: Seq<char>, rest: Seq<char>, slashes: nat)
    requires
        root.len() > 0,
        root.last() != '/',
    ensures
        manifest::under_root(
            root + seq!['/'] + rest,
            root + Seq::new(slashes, |i: int| '/'),
        ),
        manifest::under_root(root, root),
        rest.len() > 0 && rest[0] != '/' ==> !manifest::under_root(root + rest, root),
    decreases slashes,
{
    let p = root + seq!['/'] + rest;
    let r = root + Seq::new(slashes, |i: int| '/');
    if slashes == 0 {
        assert(r =~= root);
        assert(manifest::without_end_slashes(root) == root);
        assert(p.take(root.len() as int + 1) =~= root.push('/'));
        if rest.len() > 0 && rest[0] != '/' {
            let q = root + rest;
            assert(q.take(root.len() as int + 1)[root.len() as int] == rest[0]);
            assert(root.push('/')[root.len() as int] == '/');
            assert(q.len() != root.len());
        }
    } else {
        below_a_root_is_behind_a_slash(root, rest, (slashes - 1) as nat);
        let r1 = root + Seq::new((slashes - 1) as nat, |i: int| '/');
        assert(r.drop_last() =~= r1);
        assert(r.last() == '/');
        assert(manifest::without_end_slashes(r) == manifest::without_end_slashes(r1));
        lemma_no_end_slash(root, (slashes - 1) as nat);
        assert(p.take(root.len() as int + 1) =~= root.push('/'));
    }
}

proof fn lemma_no_end_slash(root: Seq<char>, slashes: nat)
    requires
        root.len() > 0,
        root.last() != '/',
    ensures
        manifest::without_end_slashes(root + Seq::new(slashes, |i: int| '/')) == root,
    decreases slashes,
{
    let r = root + Seq::new(slashes, |i: int| '/');
    if slashes == 0 {
        assert(r =~= root);
    } else {
        lemma_no_end_slash(root, (slashes - 1) as nat);
        assert(r.drop_last() =~= root + Seq::new((slashes - 1) as nat, |i: int| '/'));
    }
}

/// A refreshed book has the fingerprint and path that were read, and a signature that was; without
/// one it keeps its own. No other book's row changes.
pub proof fn refreshing_writes_what_was_read(
    state: Seq<StateV>,
    coll: Seq<char>,
    book: Seq<char>,
    fp: Seq<char>,
    sig: Option<Seq<char>>,
    path: Seq<char>,
    other: Seq<char>,
    at: Seq<char>,
)
    requires
        fp.len() > 0,
        fp != "missing"@,
    ensures
        ({
            let after = manifest::refreshed(state, coll, book, fp, sig, path);
            let old_sig = match manifest::row_of(state, coll, book) {
                Some(r) => r.content_sig,
                None => Seq::empty(),
            };
            let old_ver = match manifest::row_of(state, coll, book) {
                Some(r) => r.chunker_ver,
                None => 0,
            };
            &&& manifest::row_of(after, coll, book) == Some(
                StateV {
                    collection: coll,
                    book,
                    fingerprint: fp,
                    content_sig: if sig is Some && sig->0 != "missing"@ {
                        sig->0
                    } else {
                        old_sig
                    },
                    chunker_ver: old_ver,
                    source_path: path,
                },
            )
            &&& (other, at) != (coll, book) ==> manifest::row_of(after, other, at)
                == manifest::row_of(state, other, at)
        }),
{
    let p = manifest::of_book(coll, book);
    rows::lemma_first_where(state, p);
    let after = manifest::refreshed(state, coll, book, fp, sig, path);
    match rows::first_where(state, p) {
        Some(i) => {
            assert forall|j: int| 0 <= j < i implies !p(#[trigger] after[j]) by {
                assert(after[j] == state[j]);
            }
            rows::lemma_first_where_is(after, p, i);
        },
        None => {
            let i = state.len() as int;
            assert forall|j: int| 0 <= j < i implies !p(#[trigger] after[j]) by {
                assert(after[j] == state[j]);
            }
            rows::lemma_first_where_is(after, p, i);
        },
    }
    if (other, at) != (coll, book) {
        let now = manifest::row_of(after, coll, book)->0;
        lemma_put_frame(state, now, other, at);
    }
}

proof fn lemma_put_frame(state: Seq<StateV>, row: StateV, coll: Seq<char>, book: Seq<char>)
    requires
        coll != row.collection || book != row.book,
    ensures
        manifest::row_of(manifest::put_row(state, row), coll, book) == manifest::row_of(
            state,
            coll,
            book,
        ),
{
    let p = manifest::of_book(row.collection, row.book);
    let q = manifest::of_book(coll, book);
    let after = manifest::put_row(state, row);
    rows::lemma_first_where(state, p);
    rows::lemma_first_where(state, q);
    match rows::first_where(state, q) {
        Some(i) => {
            assert(after[i] == state[i]);
            assert forall|j: int| 0 <= j < i implies !q(#[trigger] after[j]) by {
                assert(!q(state[j]));
            }
            rows::lemma_first_where_is(after, q, i);
        },
        None => {
            assert forall|j: int| 0 <= j < after.len() implies !q(#[trigger] after[j]) by {
                if j < state.len() {
                    assert(!q(state[j]));
                }
            }
            rows::lemma_first_where_none(after, q);
        },
    }
}

/// A row without a path gets the first that the store has for its book; every other row stays.
pub proof fn paths_are_filled_from_the_store(
    coll: Seq<char>,
    scan: Seq<(Seq<char>, Seq<char>)>,
    r: StateV,
    i: int,
)
    ensures
        r.collection != coll || r.source_path.len() > 0 ==> manifest::filled(coll, scan, r) == r,
        (forall|j: int| 0 <= j < scan.len() ==> (#[trigger] scan[j]).0 != r.book)
            ==> manifest::filled(coll, scan, r) == r,
        r.collection == coll && r.source_path.len() == 0 && 0 <= i < scan.len() && scan[i].0
            == r.book && (forall|j: int| 0 <= j < i ==> (#[trigger] scan[j]).0 != r.book)
            ==> manifest::filled(coll, scan, r) == (StateV { source_path: scan[i].1, ..r }),
{
    lemma_scanned(scan, r.book, i);
}

proof fn lemma_scanned(scan: Seq<(Seq<char>, Seq<char>)>, book: Seq<char>, i: int)
    ensures
        (forall|j: int| 0 <= j < scan.len() ==> (#[trigger] scan[j]).0 != book)
            ==> manifest::scanned_path(scan, book) is None,
        0 <= i < scan.len() && scan[i].0 == book && (forall|j: int|
            0 <= j < i ==> (#[trigger] scan[j]).0 != book) ==> manifest::scanned_path(scan, book)
            == Some(scan[i].1),
{
    let p = manifest::entry_of(book);
    if forall|j: int| 0 <= j < scan.len() ==> (#[trigger] scan[j]).0 != book {
        rows::lemma_first_where_none(scan, p);
    }
    if 0 <= i < scan.len() && scan[i].0 == book && (forall|j: int|
        0 <= j < i ==> (#[trigger] scan[j]).0 != book) {
        rows::lemma_first_where_is(scan, p, i);
    }
}

/// A file that could be read: neither its fingerprint nor its signature is missing.
pub open spec fn was_read(f: SeedV) -> bool {
    &&& f.fingerprint.len() > 0 && f.fingerprint != "missing"@
    &&& f.content_sig.len() > 0 && f.content_sig != "missing"@
}

/// Seeding records every file that could be read, as cut by an older chunker, and of files of the
/// same book the last; books without such a file keep their rows.
pub proof fn seeding_records_every_readable_file(
    state: Seq<StateV>,
    coll: Seq<char>,
    files: Seq<SeedV>,
    book: Seq<char>,
)
    requires
        manifest_laws::keyed(state),
    ensures
        manifest_laws::keyed(service::seeded(state, coll, files)),
        forall|k: int|
            0 <= k < files.len() && (#[trigger] files[k]).book == book && was_read(files[k]) && (
            forall|j: int|
                k < j < files.len() ==> !((#[trigger] files[j]).book == book && was_read(
                    files[j],
                ))) ==> manifest::row_of(service::seeded(state, coll, files), coll, book) == Some(
                StateV {
                    collection: coll,
                    book,
                    fingerprint: files[k].fingerprint,
                    content_sig: files[k].content_sig,
                    chunker_ver: 0,
                    source_path: files[k].path,
                },
            ),
        (forall|j: int|
            0 <= j < files.len() ==> !((#[trigger] files[j]).book == book && was_read(files[j])))
            ==> manifest::row_of(service::seeded(state, coll, files), coll, book)
            == manifest::row_of(state, coll, book),
    decreases files.len(),
{
    if files.len() > 0 {
        let less = files.drop_last();
        let n = less.len() as int;
        let f = files.last();
        let before = service::seeded(state, coll, less);
        let after = service::seeded(state, coll, files);
        seeding_records_every_readable_file(state, coll, less, book);
        assert(files[n] == f);
        let row = StateV {
            collection: coll,
            book: f.book,
            fingerprint: f.fingerprint,
            content_sig: f.content_sig,
            chunker_ver: 0,
            source_path: f.path,
        };
        if was_read(f) {
            manifest_laws::recorded_book_reads_back(before, row, coll, book);
            manifest_laws::recording_keeps_one_row_per_book(before, row);
        } else {
            assert(after == before);
        }
        assert forall|k: int|
            0 <= k < files.len() && (#[trigger] files[k]).book == book && was_read(files[k]) && (
            forall|j: int|
                k < j < files.len() ==> !((#[trigger] files[j]).book == book && was_read(
                    files[j],
                ))) implies manifest::row_of(after, coll, book) == Some(
            StateV {
                collection: coll,
                book,
                fingerprint: files[k].fingerprint,
                content_sig: files[k].content_sig,
                chunker_ver: 0,
                source_path: files[k].path,
            },
        ) by {
            if k < n {
                assert(less[k] == files[k]);
                assert(!(files[n].book == book && was_read(files[n])));
                assert forall|j: int| k < j < less.len() implies !((#[trigger] less[j]).book == book
                    && was_read(less[j])) by {
                    assert(less[j] == files[j]);
                }
            }
        }
        if forall|j: int|
            0 <= j < files.len() ==> !((#[trigger] files[j]).book == book && was_read(files[j])) {
            assert forall|j: int| 0 <= j < less.len() implies !((#[trigger] less[j]).book == book
                && was_read(less[j])) by {
                assert(less[j] == files[j]);
            }
            assert(!(files[n].book == book && was_read(files[n])));
        }
    }
}

/// The files that could not be read are named, all of them and in order.
pub proof fn every_unreadable_file_is_named(files: Seq<SeedV>)
    ensures
        shape::picks(
            files.len() as int,
            |i: int| !was_read(files[i]),
            |i: int| files[i].path,
            service::unreadable_paths(files),
        ),
    decreases files.len(),
{
    let keep = |i: int| !was_read(files[i]);
    let value = |i: int| files[i].path;
    if files.len() == 0 {
        shape::lemma_picks_none(keep, value);
    } else {
        let less = files.drop_last();
        every_unreadable_file_is_named(less);
        let keep0 = |i: int| !was_read(less[i]);
        let value0 = |i: int| less[i].path;
        assert forall|i: int| 0 <= i < less.len() implies (#[trigger] keep0(i) <==> keep(i)) by {
            assert(less[i] == files[i]);
        }
        assert forall|i: int| 0 <= i < less.len() && #[trigger] keep0(i) implies value0(i) == value(
            i,
        ) by {
            assert(less[i] == files[i]);
        }
        shape::lemma_picks_step(
            less.len() as int,
            keep0,
            value0,
            keep,
            value,
            service::unreadable_paths(less),
        );
    }
}

/// Every refresh of a plan reaches the manifest: the last one of a book gives its fingerprint and
/// path, and a book without one keeps its row.
pub proof fn every_refresh_is_written(
    state: Seq<StateV>,
    coll: Seq<char>,
    v: Seq<RefreshV>,
    book: Seq<char>,
)
    requires
        forall|i: int|
            0 <= i < v.len() ==> (#[trigger] v[i]).fingerprint.len() > 0 && v[i].fingerprint
                != "missing"@,
    ensures
        forall|k: int|
            0 <= k < v.len() && (#[trigger] v[k]).book == book && (forall|j: int|
                k < j < v.len() ==> (#[trigger] v[j]).book != book) ==> {
                let row = manifest::row_of(service::with_refreshes(state, coll, v), coll, book);
                &&& row is Some
                &&& row->0.fingerprint == v[k].fingerprint
                &&& row->0.source_path == v[k].path
                &&& v[k].content_sig is Some && v[k].content_sig->0 != "missing"@
                    ==> row->0.content_sig == v[k].content_sig->0
            },
        (forall|j: int| 0 <= j < v.len() ==> (#[trigger] v[j]).book != book) ==> manifest::row_of(
            service::with_refreshes(state, coll, v),
            coll,
            book,
        ) == manifest::row_of(state, coll, book),
    decreases v.len(),
{
    if v.len() > 0 {
        let less = v.drop_last();
        let n = less.len() as int;
        let r = v.last();
        assert(v[n] == r);
        assert forall|i: int| 0 <= i < less.len() implies (#[trigger] less[i]).fingerprint.len() > 0
            && less[i].fingerprint != "missing"@ by {
            assert(less[i] == v[i]);
        }
        every_refresh_is_written(state, coll, less, book);
        refreshing_writes_what_was_read(
            service::with_refreshes(state, coll, less),
            coll,
            r.book,
            r.fingerprint,
            r.content_sig,
            r.path,
            coll,
            book,
        );
        assert forall|k: int|
            0 <= k < v.len() && (#[trigger] v[k]).book == book && (forall|j: int|
                k < j < v.len() ==> (#[trigger] v[j]).book != book) implies {
            let row = manifest::row_of(service::with_refreshes(state, coll, v), coll, book);
            &&& row is Some
            &&& row->0.fingerprint == v[k].fingerprint
            &&& row->0.source_path == v[k].path
            &&& v[k].content_sig is Some && v[k].content_sig->0 != "missing"@
                ==> row->0.content_sig == v[k].content_sig->0
        } by {
            if k < n {
                assert(less[k] == v[k]);
                assert(v[n].book != book);
                assert forall|j: int| k < j < less.len() implies (#[trigger] less[j]).book
                    != book by {
                    assert(less[j] == v[j]);
                }
            }
        }
        if forall|j: int| 0 <= j < v.len() ==> (#[trigger] v[j]).book != book {
            assert forall|j: int| 0 <= j < less.len() implies (#[trigger] less[j]).book != book by {
                assert(less[j] == v[j]);
            }
            assert(v[n].book != book);
        }
    }
}

/// The row of a moved book: its new id and path, and what the plan knows of it.
pub open spec fn moved_row(coll: Seq<char>, m: RemapV) -> StateV {
    StateV {
        collection: coll,
        book: m.new_id,
        fingerprint: m.fingerprint,
        content_sig: match m.content_sig {
            Some(s) => s,
            None => Seq::empty(),
        },
        chunker_ver: m.chunker_ver,
        source_path: m.path,
    }
}

/// The fingerprint of a move was read, and so was its signature, if it has one.
pub open spec fn is_read_move(m: RemapV) -> bool {
    m.fingerprint.len() > 0 && m.fingerprint != "missing"@ && m.content_sig != Some("missing"@)
}

proof fn lemma_move(state: Seq<StateV>, coll: Seq<char>, v: Seq<RemapV>, book: Seq<char>)
    requires
        v.len() > 0,
        is_read_move(v.last()),
        manifest_laws::keyed(service::with_remaps(state, coll, v.drop_last())),
    ensures
        manifest_laws::keyed(service::with_remaps(state, coll, v)),
        manifest::row_of(service::with_remaps(state, coll, v), coll, book) == if book
            == v.last().new_id {
            Some(moved_row(coll, v.last()))
        } else if book == v.last().old_id {
            None
        } else {
            manifest::row_of(service::with_remaps(state, coll, v.drop_last()), coll, book)
        },
{
    let m = v.last();
    let a = service::with_remaps(state, coll, v.drop_last());
    let b = manifest::without_book(a, coll, m.old_id);
    lemma_drop_row(a, coll, m.old_id, book);
    reveal_strlit("missing");
    assert(Seq::<char>::empty().len() != "missing"@.len());
    manifest_laws::recorded_book_reads_back(b, moved_row(coll, m), coll, book);
    manifest_laws::recording_keeps_one_row_per_book(b, moved_row(coll, m));
}

proof fn lemma_moves_keyed(state: Seq<StateV>, coll: Seq<char>, v: Seq<RemapV>)
    requires
        manifest_laws::keyed(state),
        forall|i: int| 0 <= i < v.len() ==> is_read_move(#[trigger] v[i]),
    ensures
        manifest_laws::keyed(service::with_remaps(state, coll, v)),
    decreases v.len(),
{
    if v.len() > 0 {
        let less = v.drop_last();
        assert forall|i: int| 0 <= i < less.len() implies is_read_move(#[trigger] less[i]) by {
            assert(less[i] == v[i]);
        }
        lemma_moves_keyed(state, coll, less);
        assert(v[v.len() - 1] == v.last());
        lemma_move(state, coll, v, Seq::empty());
    }
}

/// A moved book is on record under its new id, unless a later move speaks of that book again.
pub proof fn moved_books_have_their_new_row(
    state: Seq<StateV>,
    coll: Seq<char>,
    v: Seq<RemapV>,
    k: int,
)
    requires
        manifest_laws::keyed(state),
        forall|i: int| 0 <= i < v.len() ==> is_read_move(#[trigger] v[i]),
        0 <= k < v.len(),
        forall|j: int|
            k < j < v.len() ==> (#[trigger] v[j]).new_id != v[k].new_id && v[j].old_id
                != v[k].new_id,
    ensures
        manifest::row_of(service::with_remaps(state, coll, v), coll, v[k].new_id) == Some(
            moved_row(coll, v[k]),
        ),
    decreases v.len(),
{
    let less = v.drop_last();
    let n = less.len() as int;
    assert(v[n] == v.last());
    assert forall|i: int| 0 <= i < less.len() implies is_read_move(#[trigger] less[i]) by {
        assert(less[i] == v[i]);
    }
    lemma_moves_keyed(state, coll, less);
    lemma_move(state, coll, v, v[k].new_id);
    if k < n {
        assert(less[k] == v[k]);
        assert(v[n].new_id != v[k].new_id);
        assert forall|j: int| k < j < less.len() implies (#[trigger] less[j]).new_id
            != less[k].new_id && less[j].old_id != less[k].new_id by {
            assert(less[j] == v[j]);
        }
        moved_books_have_their_new_row(state, coll, less, k);
    }
}

/// A book that was moved away has no row, unless a move from then on leads to it.
pub proof fn moved_books_lose_their_old_row(
    state: Seq<StateV>,
    coll: Seq<char>,
    v: Seq<RemapV>,
    k: int,
)
    requires
        manifest_laws::keyed(state),
        forall|i: int| 0 <= i < v.len() ==> is_read_move(#[trigger] v[i]),
        0 <= k < v.len(),
        forall|j: int| k <= j < v.len() ==> (#[trigger] v[j]).new_id != v[k].old_id,
    ensures
        manifest::row_of(service::with_remaps(state, coll, v), coll, v[k].old_id) is None,
    decreases v.len(),
{
    let less = v.drop_last();
    let n = less.len() as int;
    assert(v[n] == v.last());
    assert forall|i: int| 0 <= i < less.len() implies is_read_move(#[trigger] less[i]) by {
        assert(less[i] == v[i]);
    }
    lemma_moves_keyed(state, coll, less);
    lemma_move(state, coll, v, v[k].old_id);
    if k < n {
        assert(less[k] == v[k]);
        assert forall|j: int| k <= j < less.len() implies (#[trigger] less[j]).new_id
            != less[k].old_id by {
            assert(less[j] == v[j]);
        }
        moved_books_lose_their_old_row(state, coll, less, k);
    }
}

/// Books that no move speaks of keep their rows.
pub proof fn other_books_stay_where_they_are(
    state: Seq<StateV>,
    coll: Seq<char>,
    v: Seq<RemapV>,
    book: Seq<char>,
)
    requires
        manifest_laws::keyed(state),
        forall|i: int| 0 <= i < v.len() ==> is_read_move(#[trigger] v[i]),
        forall|j: int|
            0 <= j < v.len() ==> (#[trigger] v[j]).new_id != book && v[j].old_id != book,
    ensures
        manifest::row_of(service::with_remaps(state, coll, v), coll, book) == manifest::row_of(
            state,
            coll,
            book,
        ),
    decreases v.len(),
{
    if v.len() > 0 {
        let less = v.drop_last();
        assert(v[less.len() as int] == v.last());
        assert forall|i: int| 0 <= i < less.len() implies is_read_move(#[trigger] less[i])
            && less[i].new_id != book && less[i].old_id != book by {
            assert(less[i] == v[i]);
        }
        lemma_moves_keyed(state, coll, less);
        lemma_move(state, coll, v, book);
        other_books_stay_where_they_are(state, coll, less, book);
    }
}

proof fn lemma_drop_row(state: Seq<StateV>, coll: Seq<char>, gone: Seq<char>, book: Seq<char>)
    requires
        manifest_laws::keyed(state),
    ensures
        manifest_laws::keyed(manifest::without_book(state, coll, gone)),
        manifest::row_of(manifest::without_book(state, coll, gone), coll, book) == if book == gone {
            None
        } else {
            manifest::row_of(state, coll, book)
        },
{
    let after = manifest::without_book(state, coll, gone);
    let p = |x: StateV| !(manifest::of_book(coll, gone))(x);
    let q = manifest::of_book(coll, book);
    shape::keeping_picks(state, p);
    let keep = |i: int| p(state[i]);
    let value = |i: int| state[i];
    let at = choose|at: Seq<int>| #[trigger]
        shape::picked_at(state.len() as int, keep, value, after, at);
    assert forall|i: int, j: int| 0 <= i < j < after.len() implies !((
    #[trigger] after[i]).collection == (#[trigger] after[j]).collection && after[i].book
        == after[j].book) by {
        assert(after[i] == value(at[i]) && after[j] == value(at[j]));
        assert(at[i] < at[j]);
        assert(!(state[at[i]].collection == state[at[j]].collection && state[at[i]].book
            == state[at[j]].book));
    }
    rows::lemma_first_where(state, q);
    rows::lemma_first_where(after, q);
    match rows::first_where(after, q) {
        Some(k) => {
            assert(after[k] == value(at[k]));
            assert(keep(at[k]));
            let i = rows::first_where(state, q)->0;
            assert(q(state[at[k]]));
            if i < at[k] {
                assert(!(state[i].collection == state[at[k]].collection && state[i].book
                    == state[at[k]].book));
            }
        },
        None => {
            if book != gone {
                if let Some(i) = rows::first_where(state, q) {
                    assert(keep(i));
                    let k = choose|k: int| 0 <= k < at.len() && at[k] == i;
                    assert(after[k] == value(at[k]));
                    assert(q(after[k]));
                }
            }
        },
    }
}

/// The tools that are there are named, all of them and in order.
pub proof fn every_tool_found_is_named(found: Seq<bool>, n: nat)
    ensures
        shape::picks(
            n as int,
            |i: int| found[i],
            |i: int| service::TOOLS@[i]@,
            service::found_tools(found, n),
        ),
    decreases n,
{
    let keep = |i: int| found[i];
    let value = |i: int| service::TOOLS@[i]@;
    if n == 0 {
        shape::lemma_picks_none(keep, value);
    } else {
        every_tool_found_is_named(found, (n - 1) as nat);
        shape::lemma_picks_step(
            n - 1,
            keep,
            value,
            keep,
            value,
            service::found_tools(found, (n - 1) as nat),
        );
    }
}

} // verus!
