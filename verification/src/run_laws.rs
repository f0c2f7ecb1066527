//! Laws of a run of indexing.
use vstd::prelude::*;
use crate::book::BookDocV;
use crate::chunk::ChunkV;
use crate::extract;
use crate::extract::ErrorV;
use crate::manifest;
use crate::manifest::{DbV, SkipV, StateV};
use crate::rows;
use crate::run;
use crate::run::{ActionV, Phase, RunV};

verus! {

/// A run that was not stopped accounts for every file exactly once when it ends. That it has
/// finished is not reported in the step that asks for the full-text index.
pub proof fn finished_run_accounts_for_every_file(r: RunV, db: DbV)
    requires
        r.wf(),
        r.phase == Phase::Idle,
        r.next == r.items.len(),
    ensures
        r.go_on(db, false).action == ActionV::End(r.wrote),
        r.go_on(db, false).events.len() == 0,
        r.go_on(db, false).run.stats == r.stats,
        r.stats.books() == r.total,
{
}

/// A file that is skipped or fails is never recorded as indexed: only storing a book changes the
/// rows of the manifest.
pub proof fn only_storing_records_a_book(
    r: RunV,
    db: DbV,
    cancelled: bool,
    e: Result<BookDocV, ErrorV>,
    passages: Seq<ChunkV>,
)
    ensures
        r.go_on(db, cancelled).db.state == db.state,
        r.after_extraction(db, e, passages).db.state == db.state,
        r.after_embedding(db).db.state == db.state,
        r.after_embedding(db).db.skips == db.skips,
{
}

/// A book that cannot be extracted leaves its reason on record, where the next run of the same
/// engine over the same file finds it.
pub proof fn failures_are_on_record(r: RunV, db: DbV, e: ErrorV)
    requires
        r.wf(),
        r.phase == Phase::Extracting,
        !manifest::sentinel(r.item().fingerprint),
    ensures
        rows::find_row(
            r.after_extraction(db, Err(e), Seq::empty()).db.skips,
            manifest::of_skip(r.coll, r.item().path, run::CPU@),
        ) == Some(run::skip_row(r, r.item(), extract::error_message(e))),
{
    let row = run::skip_row(r, r.item(), extract::error_message(e));
    lemma_skip_reads_back(db.skips, row);
}

proof fn lemma_skip_reads_back(skips: Seq<SkipV>, row: SkipV)
    requires
        !manifest::sentinel(row.fingerprint),
    ensures
        rows::find_row(
            manifest::skip_recorded(skips, row),
            manifest::of_skip(row.collection, row.source_path, row.pipeline),
        ) == Some(row),
{
    let p = manifest::of_skip(row.collection, row.source_path, row.pipeline);
    let s = manifest::skip_recorded(skips, row);
    rows::lemma_first_where(skips, p);
    rows::lemma_first_where(s, p);
    match rows::first_where(skips, p) {
        Some(i) => {
            assert(s[i] == row);
            rows::lemma_first_where_is(s, p, i);
        },
        None => {
            assert forall|k: int| 0 <= k < skips.len() implies !p(#[trigger] s[k]) by {
                assert(s[k] == skips[k]);
            }
            rows::lemma_first_where_is(s, p, skips.len() as int);
        },
    }
}

/// Storing a book erases every skip at its path, of both engines.
pub proof fn success_erases_skips(r: RunV, db: DbV, written: nat, k: int)
    requires
        r.phase == Phase::Storing,
        0 <= k < r.after_storing(db, written).db.skips.len(),
    ensures
        !(r.after_storing(db, written).db.skips[k].collection == r.coll && r.after_storing(
            db,
            written,
        ).db.skips[k].source_path == r.item().path),
{
    let p = |x: SkipV| !(manifest::skips_at(r.coll, r.item().path))(x);
    let kept = r.after_storing(db, written).db.skips;
    rows::lemma_keep(db.skips, p);
    rows::lemma_keep_same(
        db.skips,
        p,
        |x: SkipV| !(manifest::skips_at(r.coll, r.item().path))(x),
    );
    assert(kept == rows::keep(db.skips, p));
    assert(p(kept[k]));
}

/// A stored book is in the manifest with the fingerprint and the signature it was planned with, as
/// made by the present way of cutting passages, so that the next run finds it unchanged.
pub proof fn stored_book_is_in_the_manifest(r: RunV, db: DbV, written: nat)
    requires
        r.phase == Phase::Storing,
        !manifest::sentinel(r.item().fingerprint),
        !manifest::sentinel(r.item().content_sig),
    ensures
        manifest::row_of(r.after_storing(db, written).db.state, r.coll, r.book_id) == Some(
            StateV {
                collection: r.coll,
                book: r.book_id,
                fingerprint: r.item().fingerprint,
                content_sig: r.item().content_sig,
                chunker_ver: manifest::CURRENT_CHUNKER_VER as int,
                source_path: r.item().path,
            },
        ),
{
    let before = manifest::cleared(db.state, r.coll, r.item().path, r.book_id);
    let row = StateV {
        collection: r.coll,
        book: r.book_id,
        fingerprint: r.item().fingerprint,
        content_sig: r.item().content_sig,
        chunker_ver: manifest::CURRENT_CHUNKER_VER as int,
        source_path: r.item().path,
    };
    let p = manifest::of_book(r.coll, r.book_id);
    let s = manifest::recorded(before, row);
    rows::lemma_first_where(before, p);
    match rows::first_where(before, p) {
        Some(i) => {
            assert(s[i] == row);
            rows::lemma_first_where_is(s, p, i);
        },
        None => {
            assert forall|k: int| 0 <= k < before.len() implies !p(#[trigger] s[k]) by {
                assert(s[k] == before[k]);
            }
            rows::lemma_first_where_is(s, p, before.len() as int);
        },
    }
}

/// What a fresh book replaces holds every book the store has at its path, and the book itself.
pub proof fn replacing_covers_the_path(
    pairs: Seq<(Seq<char>, Seq<char>)>,
    path: Seq<char>,
    book: Seq<char>,
    i: int,
)
    ensures
        run::replaced_books(pairs, path, book).contains(book),
        0 <= i < pairs.len() && pairs[i].1 == path ==> run::replaced_books(
            pairs,
            path,
            book,
        ).contains(pairs[i].0),
{
    let at = run::books_at(pairs, path);
    if !at.contains(book) {
        assert(at.push(book)[at.len() as int] == book);
    }
    if 0 <= i < pairs.len() && pairs[i].1 == path {
        lemma_book_at(pairs, path, i);
        if !at.contains(book) {
            let k = choose|k: int| 0 <= k < at.len() && at[k] == pairs[i].0;
            assert(at.push(book)[k] == pairs[i].0);
        }
    }
}

proof fn lemma_book_at(pairs: Seq<(Seq<char>, Seq<char>)>, path: Seq<char>, i: int)
    requires
        0 <= i < pairs.len(),
        pairs[i].1 == path,
    ensures
        run::books_at(pairs, path).contains(pairs[i].0),
    decreases pairs.len(),
{
    let before = run::books_at(pairs.drop_last(), path);
    if i == pairs.len() - 1 {
        assert(before.push(pairs[i].0)[before.len() as int] == pairs[i].0);
    } else {
        lemma_book_at(pairs.drop_last(), path, i);
        let k = choose|k: int| 0 <= k < before.len() && before[k] == pairs[i].0;
        assert(run::books_at(pairs, path)[k] == pairs[i].0);
    }
}

/// A stopped run keeps the books stored so far and gives up the one at hand: the manifest is as it
/// was, and nothing more is done.
pub proof fn stopping_keeps_what_is_stored(r: RunV, db: DbV)
    requires
        r.wf(),
        r.phase == Phase::Idle || (r.phase == Phase::Embedding && r.done < r.chunks.len()),
    ensures
        r.go_on(db, true).db == db,
        r.go_on(db, true).run.stats == r.stats,
        r.go_on(db, true).run.phase == Phase::Ended,
        r.go_on(db, true).action == ActionV::End(r.wrote),
        forall|c: bool|
            (#[trigger] r.go_on(db, true).run.go_on(db, c)).action == ActionV::Ignored,
{
}

} // verus!
