//! How runs come forward and what they report: every file and every passage has its turn.
use vstd::prelude::*;
use vstd::utf8::encode_utf8;
use crate::fast;
use crate::fast::{FastActionV, FastV, ProgressV};
use crate::ids;
use crate::manifest::DbV;
use crate::plan::{PreSkipV, SkipReason};
use crate::run;
use crate::run::{ActionV, EventV, Phase, RunV};
use crate::shape;
use crate::stats::StatsV;
use crate::text;
use vstd::seq_lib::*;

verus! {

/// A file that is not embedded is reported, unless it is silenced.
pub open spec fn is_reported(preskips: Seq<PreSkipV>) -> spec_fn(int) -> bool {
    |i: int| preskips[i].reason != SkipReason::Silenced
}

/// How a file that is not embedded is reported: with its place among them, as unreadable or as
/// unchanged.
pub open spec fn reported(preskips: Seq<PreSkipV>, total: nat) -> spec_fn(int) -> EventV {
    |i: int|
        if preskips[i].reason == SkipReason::Unreadable {
            EventV::Skipped {
                n: (i + 1) as nat,
                total,
                path: preskips[i].path,
                reason: run::UNREADABLE@,
            }
        } else {
            EventV::Unchanged { n: (i + 1) as nat, total, title: ids::title_of(preskips[i].path) }
        }
}

/// Every file that is not embedded is reported, in order, unless it is silenced.
pub proof fn every_file_left_out_is_reported(start: StatsV, preskips: Seq<PreSkipV>, total: nat)
    ensures
        shape::picks(
            preskips.len() as int,
            is_reported(preskips),
            reported(preskips, total),
            run::announced(start, preskips, total).events,
        ),
    decreases preskips.len(),
{
    if preskips.len() == 0 {
        shape::lemma_picks_none(is_reported(preskips), reported(preskips, total));
    } else {
        let less = preskips.drop_last();
        let n = less.len() as int;
        every_file_left_out_is_reported(start, less, total);
        assert forall|i: int| 0 <= i < n implies (#[trigger] is_reported(less)(i) <==> is_reported(
            preskips,
        )(i)) by {
            assert(less[i] == preskips[i]);
        }
        assert forall|i: int| 0 <= i < n && #[trigger] is_reported(less)(i) implies reported(
            less,
            total,
        )(i) == reported(preskips, total)(i) by {
            assert(less[i] == preskips[i]);
        }
        shape::lemma_picks_step(
            n,
            is_reported(less),
            reported(less, total),
            is_reported(preskips),
            reported(preskips, total),
            run::announced(start, less, total).events,
        );
    }
}

/// The reasons of some files.
pub open spec fn reasons(preskips: Seq<PreSkipV>) -> Seq<SkipReason> {
    preskips.map_values(|p: PreSkipV| p.reason)
}

/// Every file that is not embedded counts once: what cannot be read as failed, what is silenced as
/// skipped, and everything else as unchanged. Nothing else is counted.
pub proof fn every_file_left_out_counts_once(start: StatsV, preskips: Seq<PreSkipV>, total: nat)
    ensures
        ({
            let s = run::announced(start, preskips, total).stats;
            let m = reasons(preskips).to_multiset();
            &&& s.failed == start.failed + m.count(SkipReason::Unreadable)
            &&& s.skipped == start.skipped + m.count(SkipReason::Silenced)
            &&& s.unchanged == start.unchanged + m.count(SkipReason::Unchanged) + m.count(
                SkipReason::DuplicateInRun,
            )
            &&& s.indexed == start.indexed
            &&& s.chunks == start.chunks
            &&& s.forced == start.forced
            &&& s.books() == start.books() + preskips.len()
        }),
    decreases preskips.len(),
{
    broadcast use group_to_multiset_ensures;

    if preskips.len() == 0 {
        assert(reasons(preskips) =~= Seq::empty());
    } else {
        let less = preskips.drop_last();
        every_file_left_out_counts_once(start, less, total);
        assert(reasons(preskips) =~= reasons(less).push(preskips.last().reason));
    }
}

/// The passages of a book are embedded in batches of 64, from the first to the last and without
/// gaps; the book is stored only when the last of them is embedded.
pub proof fn every_passage_is_embedded(r: RunV, db: DbV)
    requires
        r.phase == Phase::Embedding,
        r.done <= r.chunks.len(),
    ensures
        r.done == r.chunks.len() <==> (r.go_on(db, false).action is Replace),
        r.done < r.chunks.len() ==> ({
            let next = r.after_embedding(db).run;
            &&& r.go_on(db, false).action == ActionV::Embed(r.done, next.done)
            &&& r.go_on(db, false).run == r
            &&& r.done < next.done <= r.chunks.len()
            &&& next.done == r.done + 64 || (next.done == r.chunks.len() && next.done < r.done + 64)
            &&& next.chunks == r.chunks
            &&& next.phase == Phase::Embedding
            &&& next.book_id == r.book_id
        }),
{
}

/// A run takes up its files one after the other: each that is not stopped before it is extracted or
/// left to the helper, and then the next one has its turn.
pub proof fn every_file_has_its_turn(r: RunV, db: DbV)
    requires
        r.phase == Phase::Idle,
        r.next < r.items.len(),
    ensures
        ({
            let step = r.go_on(db, false);
            let path = r.items[r.next as int].path;
            ||| step.action == ActionV::Extract(path) && step.run.phase == Phase::Extracting
                && step.run.next == r.next && step.run.items == r.items && step.db == db
                && step.events == seq![EventV::Working { n: r.n + 1, total: r.total, path }]
            ||| step.run.next == r.next + 1 && step.run.stats.skipped == r.stats.skipped + 1
                && r.directed() is Some && step.run.phase == Phase::Idle
        }),
{
}

/// A file that is read gives a book to embed where it has blocks, and is counted and reported as
/// skipped or failed where it has none or could not be read; then the next file has its turn.
pub proof fn extraction_decides(
    r: RunV,
    db: DbV,
    e: Result<crate::book::BookDocV, crate::extract::ErrorV>,
    passages: Seq<crate::chunk::ChunkV>,
)
    requires
        r.phase == Phase::Extracting,
    ensures
        ({
            let step = r.after_extraction(db, e, passages);
            match e {
                Ok(d) => if d.blocks.len() > 0 {
                    &&& step.run.phase == Phase::Embedding
                    &&& step.run.chunks == passages
                    &&& step.run.done == 0
                    &&& step.run.book_id == d.book_id
                    &&& step.run.title == d.title
                    &&& step.run.next == r.next
                    &&& step.run.stats == r.stats
                    &&& step.events == seq![
                        EventV::Embedding {
                            n: r.n,
                            total: r.total,
                            title: d.title,
                            done: 0,
                            of: passages.len(),
                        },
                    ]
                } else {
                    &&& step.run.next == r.next + 1
                    &&& step.run.phase == Phase::Idle
                    &&& step.run.stats.skipped == r.stats.skipped + 1
                    &&& step.run.stats.failed == r.stats.failed
                    &&& step.run.stats.indexed == r.stats.indexed
                    &&& step.events == seq![
                        EventV::Skipped {
                            n: r.n,
                            total: r.total,
                            path: r.items[r.next as int].path,
                            reason: "no extractable text"@,
                        },
                    ]
                },
                Err(_) => {
                    &&& step.run.next == r.next + 1
                    &&& step.run.phase == Phase::Idle
                    &&& step.run.stats.failed == r.stats.failed + 1
                    &&& step.run.stats.skipped == r.stats.skipped
                    &&& step.run.stats.indexed == r.stats.indexed
                },
            }
        }),
{
}

/// A stored book counts once as indexed, with as many passages as were written, under its own
/// extension.
pub proof fn stored_books_are_counted(r: RunV, db: DbV, written: nat)
    requires
        r.phase == Phase::Storing,
        r.stats.ordered(),
    ensures
        ({
            let next = r.after_storing(db, written).run;
            let ext = crate::stats::counted_ext(r.item().path);
            &&& next.stats.indexed == r.stats.indexed + 1
            &&& next.stats.chunks == r.stats.chunks + written
            &&& next.stats.skipped == r.stats.skipped
            &&& next.stats.failed == r.stats.failed
            &&& next.stats.unchanged == r.stats.unchanged
            &&& next.next == r.next + 1
            &&& next.wrote
            &&& r.after_storing(db, written).events == seq![
                EventV::Indexed {
                    n: r.n,
                    total: r.total,
                    title: r.title,
                    chunks: r.chunks.len(),
                },
            ]
            &&& crate::stats::count_of(next.stats.by_format, ext).0 == crate::stats::count_of(
                r.stats.by_format,
                ext,
            ).0 + 1
            &&& crate::stats::count_of(next.stats.by_format, ext).1 == crate::stats::count_of(
                r.stats.by_format,
                ext,
            ).1
        }),
{
    crate::stats::counting_adds_to_one_extension(
        r.stats.by_format,
        crate::stats::counted_ext(r.item().path),
        1,
        0,
    );
}

/// A book without text is on record as such, where the next run of the same engine over the same file
/// finds it.
pub proof fn books_without_text_are_on_record(
    r: RunV,
    db: DbV,
    d: crate::book::BookDocV,
    passages: Seq<crate::chunk::ChunkV>,
)
    requires
        r.phase == Phase::Extracting,
        d.blocks.len() == 0,
        !crate::manifest::sentinel(r.item().fingerprint),
    ensures
        crate::rows::find_row(
            r.after_extraction(db, Ok(d), passages).db.skips,
            crate::manifest::of_skip(r.coll, r.item().path, "cpu"@),
        ) == Some(
            crate::manifest::SkipV {
                collection: r.coll,
                source_path: r.item().path,
                pipeline: "cpu"@,
                fingerprint: r.item().fingerprint,
                reason: "no extractable text"@,
                caps_ver: r.caps,
            },
        ),
{
    crate::manifest_laws::skips_are_scoped_by_path_and_pipeline(
        db.skips,
        run::skip_row(r, r.item(), run::NO_TEXT@),
        r.coll,
        r.item().path,
        run::CPU@,
    );
}

/// The books at a path are all named, in order.
pub proof fn every_book_at_a_path_is_named(pairs: Seq<(Seq<char>, Seq<char>)>, path: Seq<char>)
    ensures
        shape::picks(
            pairs.len() as int,
            |i: int| pairs[i].1 == path,
            |i: int| pairs[i].0,
            run::books_at(pairs, path),
        ),
    decreases pairs.len(),
{
    let keep = |i: int| pairs[i].1 == path;
    let value = |i: int| pairs[i].0;
    if pairs.len() == 0 {
        shape::lemma_picks_none(keep, value);
    } else {
        let less = pairs.drop_last();
        every_book_at_a_path_is_named(less, path);
        let keep0 = |i: int| less[i].1 == path;
        let value0 = |i: int| less[i].0;
        assert forall|i: int| 0 <= i < less.len() implies (#[trigger] keep0(i) <==> keep(i)) by {
            assert(less[i] == pairs[i]);
        }
        assert forall|i: int| 0 <= i < less.len() && #[trigger] keep0(i) implies value0(i) == value(
            i,
        ) by {
            assert(less[i] == pairs[i]);
        }
        shape::lemma_picks_step(
            less.len() as int,
            keep0,
            value0,
            keep,
            value,
            run::books_at(less, path),
        );
    }
}

/// The helper gets the files in batches of 40, from the first to the last and without gaps: where
/// one batch ends, the next begins.
pub proof fn every_file_is_in_a_batch(r: FastV, chunks: nat)
    requires
        r.wf(),
        !r.cancelled,
        r.next < r.items.len(),
    ensures
        ({
            let next = r.after_import(chunks);
            &&& r.action(false) is Batch
            &&& r.action(false)->Batch_0 == r.next
            &&& r.action(false)->Batch_1 == next.next
            &&& r.next < next.next <= r.items.len()
            &&& next.next == r.next + 40 || (next.next == r.items.len() && next.next < r.next + 40)
            &&& next.items == r.items
            &&& next.batch == r.batch + 1
            &&& next.stats.chunks == r.stats.chunks + chunks
            &&& next.stats.indexed == r.stats.indexed + r.batch_indexed
            &&& next.stats.skipped == r.stats.skipped + r.batch_skipped
            &&& next.stats.unchanged == r.stats.unchanged
            &&& next.next == r.items.len() ==> next.action(false) == FastActionV::End(
                next.stats.chunks > 0,
            )
        }),
{
}

/// Of what the helper says the end is kept, as much as fits into 4000 bytes.
pub proof fn tails_are_as_long_as_fits(t: Seq<char>)
    ensures
        ({
            let k = fast::kept_tail(t);
            let n = t.len() - k.len();
            &&& n >= 0
            &&& k == t.subrange(n, t.len() as int)
            &&& k.len() == 0 || encode_utf8(k).len() <= 4000
            &&& n > 0 ==> encode_utf8(t.subrange(n - 1, t.len() as int)).len() > 4000
        }),
    decreases t.len(),
{
    let k = fast::kept_tail(t);
    let n = t.len() - k.len();
    if t.len() == 0 || encode_utf8(t).len() <= fast::TAIL_BYTES {
        assert(t.subrange(0, t.len() as int) =~= t);
    } else {
        let u = t.skip(1);
        tails_are_as_long_as_fits(u);
        assert(u.subrange(n - 1, u.len() as int) =~= t.subrange(n, t.len() as int));
        if n > 1 {
            assert(u.subrange(n - 2, u.len() as int) =~= t.subrange(n - 1, t.len() as int));
        } else {
            assert(t.subrange(0, t.len() as int) =~= t);
        }
    }
}

/// A line of the helper that tells of a book counts one more as indexed, one that tells of a skip
/// one more as skipped, and any other none; each is kept in the tail as far as it fits.
pub proof fn lines_count_what_they_tell(r: FastV, line: Seq<char>)
    ensures
        ({
            let next = r.after_line(line);
            let told = fast::progress_of(line);
            &&& next.batch_indexed == r.batch_indexed + if told is Book { 1nat } else { 0 }
            &&& next.batch_skipped == r.batch_skipped + if told is Skip { 1nat } else { 0 }
            &&& next.n == r.n + if told is Other { 0nat } else { 1 }
            &&& (r.line_event(line) is None <==> told is Other)
            &&& exists|a: Seq<char>| r.tail + line + "\n"@ == #[trigger] (a + next.tail)
        }),
{
    let whole = r.tail + line + "\n"@;
    tails_are_as_long_as_fits(whole);
    let next = r.after_line(line);
    let n = whole.len() - next.tail.len();
    assert(whole =~= whole.subrange(0, n) + next.tail);
}

/// A line without a number in brackets tells nothing.
pub proof fn lines_without_numbers_tell_nothing(line: Seq<char>)
    requires
        text::trim(line).len() == 0 || text::trim(line)[0] != '[' || !text::trim(line).contains(
            ']',
        ),
    ensures
        fast::progress_of(line) == ProgressV::Other,
{
    reveal_strlit("]");
    let l = text::trim(line);
    if l.len() > 0 && l[0] == '[' {
        let t = l.skip(1);
        text::lemma_find_from(t, "]"@, 0);
        if let Some(i) = text::find(t, "]"@) {
            assert(t.subrange(i, i + 1)[0] == t[i]);
            assert("]"@[0] == ']');
            assert(l[i + 1] == ']');
        }
    }
}

} // verus!
