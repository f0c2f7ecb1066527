//! What holds of the manifest whatever is done to it.
use vstd::prelude::*;
use crate::manifest;
use crate::manifest::{SkipV, StateV};
use crate::rows;

verus! {

/// No row carries the failure sentinel as its fingerprint or as its content signature.
pub open spec fn clean(state: Seq<StateV>) -> bool {
    forall|i: int|
        0 <= i < state.len() ==> !manifest::sentinel((#[trigger] state[i]).fingerprint)
            && state[i].content_sig != manifest::CONTENT_SIG_MISSING@
}

/// Every book of a collection has at most one row.
pub open spec fn keyed(state: Seq<StateV>) -> bool {
    forall|i: int, j: int|
        0 <= i < j < state.len() ==> !((#[trigger] state[i]).collection == (
        #[trigger] state[j]).collection && state[i].book == state[j].book)
}

proof fn lemma_put_row(state: Seq<StateV>, row: StateV)
    requires
        keyed(state),
    ensures
        keyed(manifest::put_row(state, row)),
        manifest::row_of(manifest::put_row(state, row), row.collection, row.book) == Some(row),
{
    let p = manifest::of_book(row.collection, row.book);
    rows::lemma_first_where(state, p);
    let after = manifest::put_row(state, row);
    match rows::first_where(state, p) {
        Some(i) => {
            assert forall|j: int| 0 <= j < i implies !p(#[trigger] after[j]) by {
                assert(after[j] == state[j]);
            }
            assert forall|a: int, b: int| 0 <= a < b < after.len() implies !((
            #[trigger] after[a]).collection == (#[trigger] after[b]).collection && after[a].book
                == after[b].book) by {
                assert(state[a].collection == after[a].collection && state[a].book
                    == after[a].book);
                assert(state[b].collection == after[b].collection && state[b].book
                    == after[b].book);
            }
            rows::lemma_first_where_is(after, p, i);
        },
        None => {
            assert forall|j: int| 0 <= j < state.len() implies !p(#[trigger] after[j]) by {
                assert(after[j] == state[j]);
            }
            assert forall|a: int, b: int| 0 <= a < b < after.len() implies !((
            #[trigger] after[a]).collection == (#[trigger] after[b]).collection && after[a].book
                == after[b].book) by {
                if b == state.len() {
                    assert(!p(state[a]));
                } else {
                    assert(after[a] == state[a] && after[b] == state[b]);
                }
            }
            rows::lemma_first_where_is(after, p, state.len() as int);
        },
    }
}

proof fn lemma_put_row_frame(state: Seq<StateV>, row: StateV, coll: Seq<char>, book: Seq<char>)
    requires
        coll != row.collection || book != row.book,
    ensures
        manifest::row_of(manifest::put_row(state, row), coll, book) == manifest::row_of(
            state,
            coll,
            book,
        ),
{
    let p = manifest::of_book(row.collection, row.book);
    let q = manifest::of_book(coll, book);
    let after = manifest::put_row(state, row);
    rows::lemma_first_where(state, p);
    rows::lemma_first_where(state, q);
    rows::lemma_first_where(after, q);
    assert(!q(row));
    match rows::first_where(state, q) {
        Some(k) => {
            assert(after[k] == state[k]) by {
                if rows::first_where(state, p) == Some(k) {
                    assert(p(state[k]));
                }
            }
            assert forall|j: int| 0 <= j < k implies !q(#[trigger] after[j]) by {
                assert(!q(state[j]));
                assert(after[j] == state[j] || after[j] == row);
            }
            rows::lemma_first_where_is(after, q, k);
        },
        None => {
            assert forall|j: int| 0 <= j < after.len() implies !q(#[trigger] after[j]) by {
                if j < state.len() {
                    assert(!q(state[j]));
                    assert(after[j] == state[j] || after[j] == row);
                }
            }
            rows::lemma_first_where_none(after, q);
        },
    }
}

/// Recording a book leaves at most one row for every book.
pub proof fn recording_keeps_one_row_per_book(state: Seq<StateV>, row: StateV)
    requires
        keyed(state),
    ensures
        keyed(manifest::recorded(state, row)),
{
    if !manifest::sentinel(row.fingerprint) {
        lemma_put_row(
            state,
            StateV {
                content_sig: if row.content_sig == manifest::CONTENT_SIG_MISSING@ {
                    Seq::empty()
                } else {
                    row.content_sig
                },
                ..row
            },
        );
    }
}

/// Recording a book keeps the manifest clean and keyed: a sentinel is never persisted.
pub proof fn recording_keeps_manifest_clean(state: Seq<StateV>, row: StateV)
    requires
        clean(state),
        keyed(state),
    ensures
        clean(manifest::recorded(state, row)),
        keyed(manifest::recorded(state, row)),
{
    if !manifest::sentinel(row.fingerprint) {
        lemma_sentinel_empty();
        let new_row = StateV {
            content_sig: if row.content_sig == manifest::CONTENT_SIG_MISSING@ {
                Seq::empty()
            } else {
                row.content_sig
            },
            ..row
        };
        lemma_put_row(state, new_row);
        lemma_put_clean(state, new_row);
    }
}

proof fn lemma_sentinel_empty()
    ensures
        manifest::CONTENT_SIG_MISSING@ != Seq::<char>::empty(),
{
    reveal_strlit("missing");
    assert(manifest::CONTENT_SIG_MISSING@.len() == 7);
}

proof fn lemma_put_clean(state: Seq<StateV>, row: StateV)
    requires
        clean(state),
        !manifest::sentinel(row.fingerprint),
        row.content_sig != manifest::CONTENT_SIG_MISSING@,
    ensures
        clean(manifest::put_row(state, row)),
{
    let p = manifest::of_book(row.collection, row.book);
    rows::lemma_first_where(state, p);
    let after = manifest::put_row(state, row);
    assert forall|i: int| 0 <= i < after.len() implies !manifest::sentinel(
        (#[trigger] after[i]).fingerprint,
    ) && after[i].content_sig != manifest::CONTENT_SIG_MISSING@ by {
        if i < state.len() && after[i] == state[i] {
        } else {
            assert(after[i] == row);
        }
    }
}

/// A recorded book reads back as it was written, and no other book's row changes.
pub proof fn recorded_book_reads_back(
    state: Seq<StateV>,
    row: StateV,
    coll: Seq<char>,
    book: Seq<char>,
)
    requires
        keyed(state),
        !manifest::sentinel(row.fingerprint),
        row.content_sig != manifest::CONTENT_SIG_MISSING@,
    ensures
        manifest::row_of(manifest::recorded(state, row), row.collection, row.book) == Some(row),
        coll != row.collection || book != row.book ==> manifest::row_of(
            manifest::recorded(state, row),
            coll,
            book,
        ) == manifest::row_of(state, coll, book),
{
    lemma_put_row(state, row);
    if coll != row.collection || book != row.book {
        lemma_put_row_frame(state, row, coll, book);
    }
}

/// An unreadable file leaves no state: recording a sentinel fingerprint changes nothing.
pub proof fn sentinel_records_nothing(state: Seq<StateV>, row: StateV)
    requires
        manifest::sentinel(row.fingerprint),
    ensures
        manifest::recorded(state, row) == state,
        manifest::fingerprinted(state, row.collection, row.book, row.fingerprint, row.source_path)
            == state,
        forall|sig: Option<Seq<char>>|
            #[trigger] manifest::refreshed(
                state,
                row.collection,
                row.book,
                row.fingerprint,
                sig,
                row.source_path,
            ) == state,
{
}

/// Recording the same book twice is the same as recording it once.
pub proof fn recording_is_idempotent(state: Seq<StateV>, row: StateV)
    requires
        keyed(state),
    ensures
        manifest::recorded(manifest::recorded(state, row), row) == manifest::recorded(state, row),
{
    if !manifest::sentinel(row.fingerprint) {
        let new_row = StateV {
            content_sig: if row.content_sig == manifest::CONTENT_SIG_MISSING@ {
                Seq::empty()
            } else {
                row.content_sig
            },
            ..row
        };
        let once = manifest::put_row(state, new_row);
        lemma_put_row(state, new_row);
        let p = manifest::of_book(row.collection, row.book);
        rows::lemma_first_where(once, p);
        assert(manifest::put_row(once, new_row) =~= once);
    }
}

/// Refreshing a book never touches its chunker version (a book without a row becomes legacy), and
/// keeps the manifest clean and keyed.
pub proof fn refresh_keeps_chunker_version(
    state: Seq<StateV>,
    coll: Seq<char>,
    book: Seq<char>,
    fp: Seq<char>,
    sig: Option<Seq<char>>,
    path: Seq<char>,
)
    requires
        clean(state),
        keyed(state),
        !manifest::sentinel(fp),
    ensures
        ({
            let after = manifest::refreshed(state, coll, book, fp, sig, path);
            let now = manifest::row_of(after, coll, book);
            &&& clean(after)
            &&& keyed(after)
            &&& now is Some
            &&& now->0.chunker_ver == (match manifest::row_of(state, coll, book) {
                Some(row) => row.chunker_ver,
                None => 0,
            })
            &&& now->0.fingerprint == fp
            &&& now->0.source_path == path
        }),
{
    lemma_sentinel_empty();
    let known = sig is Some && sig->0 != manifest::CONTENT_SIG_MISSING@;
    rows::lemma_first_where(state, manifest::of_book(coll, book));
    let row = match manifest::row_of(state, coll, book) {
        Some(r) => StateV {
            fingerprint: fp,
            content_sig: if known {
                sig->0
            } else {
                r.content_sig
            },
            source_path: path,
            ..r
        },
        None => StateV {
            collection: coll,
            book,
            fingerprint: fp,
            content_sig: if known {
                sig->0
            } else {
                Seq::empty()
            },
            chunker_ver: 0,
            source_path: path,
        },
    };
    lemma_put_row(state, row);
    lemma_put_clean(state, row);
}

/// Writing a fingerprint keeps the content signature and chunker version the book already has, and
/// keeps the manifest clean and keyed.
pub proof fn fingerprint_keeps_signature(
    state: Seq<StateV>,
    coll: Seq<char>,
    book: Seq<char>,
    fp: Seq<char>,
    path: Seq<char>,
)
    requires
        clean(state),
        keyed(state),
        !manifest::sentinel(fp),
    ensures
        ({
            let after = manifest::fingerprinted(state, coll, book, fp, path);
            let now = manifest::row_of(after, coll, book);
            &&& clean(after)
            &&& keyed(after)
            &&& now is Some && now->0.fingerprint == fp
            &&& manifest::row_of(state, coll, book) matches Some(row) ==> now->0.content_sig
                == row.content_sig && now->0.chunker_ver == row.chunker_ver
        }),
{
    lemma_sentinel_empty();
    rows::lemma_first_where(state, manifest::of_book(coll, book));
    let row = match manifest::row_of(state, coll, book) {
        Some(r) => StateV { fingerprint: fp, source_path: path, ..r },
        None => StateV {
            collection: coll,
            book,
            fingerprint: fp,
            content_sig: Seq::empty(),
            chunker_ver: 0,
            source_path: path,
        },
    };
    lemma_put_row(state, row);
    lemma_put_clean(state, row);
}

/// Dropping rows keeps the manifest clean and keyed, and a dropped book has no row.
pub proof fn dropping_keeps_manifest_clean(state: Seq<StateV>, gone: spec_fn(StateV) -> bool)
    requires
        clean(state),
        keyed(state),
    ensures
        clean(rows::keep(state, |x: StateV| !gone(x))),
        keyed(rows::keep(state, |x: StateV| !gone(x))),
    decreases state.len(),
{
    let q = |x: StateV| !gone(x);
    let after = rows::keep(state, q);
    if state.len() > 0 {
        let init = state.drop_last();
        assert forall|i: int| 0 <= i < init.len() implies !manifest::sentinel(
            (#[trigger] init[i]).fingerprint,
        ) && init[i].content_sig != manifest::CONTENT_SIG_MISSING@ by {
            assert(init[i] == state[i]);
        }
        assert forall|i: int, j: int| 0 <= i < j < init.len() implies !((
        #[trigger] init[i]).collection == (#[trigger] init[j]).collection && init[i].book
            == init[j].book) by {
            assert(init[i] == state[i] && init[j] == state[j]);
        }
        dropping_keeps_manifest_clean(init, gone);
        let k = rows::keep(init, q);
        rows::lemma_keep(init, q);
        assert forall|i: int| 0 <= i < after.len() implies !manifest::sentinel(
            (#[trigger] after[i]).fingerprint,
        ) && after[i].content_sig != manifest::CONTENT_SIG_MISSING@ by {
            if i < k.len() {
                assert(after[i] == k[i]);
            } else {
                assert(after[i] == state[state.len() - 1]);
            }
        }
        assert forall|i: int, j: int| 0 <= i < j < after.len() implies !((
        #[trigger] after[i]).collection == (#[trigger] after[j]).collection && after[i].book
            == after[j].book) by {
            assert(after[i] == k[i]);
            if j < k.len() {
                assert(after[j] == k[j]);
            } else {
                assert(init.contains(k[i]));
                let m = choose|m: int| 0 <= m < init.len() && init[m] == k[i];
                assert(state[m] == k[i]);
                assert(after[j] == state[state.len() - 1]);
            }
        }
    }
}

/// The sentinel and the empty text match no row, in either reverse lookup.
pub proof fn sentinels_never_match(state: Seq<StateV>, coll: Seq<char>, v: Seq<char>)
    requires
        manifest::sentinel(v),
    ensures
        manifest::row_with_fingerprint(state, coll, v) is None,
        manifest::row_with_content(state, coll, v) is None,
{
}

/// A lookup by fingerprint or content finds a row of the same collection with that very value.
pub proof fn lookups_find_what_they_are_asked(state: Seq<StateV>, coll: Seq<char>, v: Seq<char>)
    ensures
        manifest::row_with_fingerprint(state, coll, v) matches Some(row) ==> row.collection == coll
            && row.fingerprint == v && state.contains(row),
        manifest::row_with_content(state, coll, v) matches Some(row) ==> row.collection == coll
            && row.content_sig == v && state.contains(row),
{
    rows::lemma_first_where(state, manifest::with_fingerprint(coll, v));
    rows::lemma_first_where(state, manifest::with_content(coll, v));
}

/// A recorded skip is found again under its own path and pipeline, and leaves the records of every
/// other path or pipeline as they were.
pub proof fn skips_are_scoped_by_path_and_pipeline(
    skips: Seq<SkipV>,
    row: SkipV,
    coll: Seq<char>,
    path: Seq<char>,
    pipeline: Seq<char>,
)
    requires
        !manifest::sentinel(row.fingerprint),
    ensures
        rows::find_row(
            manifest::skip_recorded(skips, row),
            manifest::of_skip(row.collection, row.source_path, row.pipeline),
        ) == Some(row),
        (coll, path, pipeline) != (row.collection, row.source_path, row.pipeline)
            ==> rows::find_row(
            manifest::skip_recorded(skips, row),
            manifest::of_skip(coll, path, pipeline),
        ) == rows::find_row(skips, manifest::of_skip(coll, path, pipeline)),
{
    let p = manifest::of_skip(row.collection, row.source_path, row.pipeline);
    let after = manifest::skip_recorded(skips, row);
    rows::lemma_first_where(skips, p);
    match rows::first_where(skips, p) {
        Some(i) => {
            assert forall|j: int| 0 <= j < i implies !p(#[trigger] after[j]) by {
                assert(after[j] == skips[j]);
            }
            rows::lemma_first_where_is(after, p, i);
        },
        None => {
            assert forall|j: int| 0 <= j < skips.len() implies !p(#[trigger] after[j]) by {
                assert(after[j] == skips[j]);
            }
            rows::lemma_first_where_is(after, p, skips.len() as int);
        },
    }
    if (coll, path, pipeline) != (row.collection, row.source_path, row.pipeline) {
        let q = manifest::of_skip(coll, path, pipeline);
        assert(!q(row));
        rows::lemma_first_where(skips, q);
        match rows::first_where(skips, q) {
            Some(k) => {
                assert(after[k] == skips[k]) by {
                    if rows::first_where(skips, p) == Some(k) {
                        assert(p(skips[k]));
                    }
                }
                assert forall|j: int| 0 <= j < k implies !q(#[trigger] after[j]) by {
                    assert(!q(skips[j]));
                    assert(after[j] == skips[j] || after[j] == row);
                }
                rows::lemma_first_where_is(after, q, k);
            },
            None => {
                assert forall|j: int| 0 <= j < after.len() implies !q(#[trigger] after[j]) by {
                    if j < skips.len() {
                        assert(!q(skips[j]));
                        assert(after[j] == skips[j] || after[j] == row);
                    }
                }
                rows::lemma_first_where_none(after, q);
            },
        }
    }
}

} // verus!
