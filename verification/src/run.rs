//! A run of indexing: what it decides between reading, embedding and storing books, what it
//! reports, and what it records.
use vstd::prelude::*;
use crate::book::{BookDoc, BookDocV, TokenCounter};
use crate::chunk;
use crate::chunk::{Chunk, ChunkParams, ChunkV};
use crate::ebook;
use crate::extract;
use crate::extract::{ErrorV, ExtractError};
use crate::formats;
use crate::ids;
use crate::manifest;
use crate::manifest::{Db, DbV, SkipV, StateV};
use crate::order;
use crate::plan;
use crate::plan::{EmbedItem, EmbedV, IndexPlan, PreSkip, PreSkipV, SkipReason};
use crate::rows;
use crate::stats;
use crate::stats::{IndexStats, StatsV};
use crate::text;

verus! {

/// How many passages are embedded at a time.
pub const EMBED_BATCH: usize = 64;

/// The reason recorded for a book without text.
pub const NO_TEXT: &'static str = "no extractable text";

/// The reason shown for a file that cannot be read.
pub const UNREADABLE: &'static str = "unreadable (permissions, or an offline cloud placeholder?)";

/// The pipeline of the built-in engine.
pub const CPU: &'static str = "cpu";

/// What a run reports.
#[derive(Debug, PartialEq, Eq)]
pub enum IndexEvent {
    /// The models are loading before the run starts.
    Loading,
    Started { total: usize },
    /// File `n` is about to be read, which may take long.
    Working { n: usize, total: usize, path: String },
    /// Passages of the current book are embedded.
    Embedding { n: usize, total: usize, title: String, chunks_done: usize, chunks_total: usize },
    Indexed { n: usize, total: usize, title: String, chunks: usize },
    Unchanged { n: usize, total: usize, title: String },
    Skipped { n: usize, total: usize, path: String, reason: String },
    Finished { stats: IndexStats },
}

/// What an [`IndexEvent`] holds.
pub enum EventV {
    Loading,
    Started { total: nat },
    Working { n: nat, total: nat, path: Seq<char> },
    Embedding { n: nat, total: nat, title: Seq<char>, done: nat, of: nat },
    Indexed { n: nat, total: nat, title: Seq<char>, chunks: nat },
    Unchanged { n: nat, total: nat, title: Seq<char> },
    Skipped { n: nat, total: nat, path: Seq<char>, reason: Seq<char> },
    Finished { stats: StatsV },
}

impl View for IndexEvent {
    type V = EventV;

    open spec fn view(&self) -> EventV {
        match self {
            IndexEvent::Loading => EventV::Loading,
            IndexEvent::Started { total } => EventV::Started { total: *total as nat },
            IndexEvent::Working { n, total, path } => EventV::Working {
                n: *n as nat,
                total: *total as nat,
                path: path@,
            },
            IndexEvent::Embedding { n, total, title, chunks_done, chunks_total } => EventV::Embedding {
                n: *n as nat,
                total: *total as nat,
                title: title@,
                done: *chunks_done as nat,
                of: *chunks_total as nat,
            },
            IndexEvent::Indexed { n, total, title, chunks } => EventV::Indexed {
                n: *n as nat,
                total: *total as nat,
                title: title@,
                chunks: *chunks as nat,
            },
            IndexEvent::Unchanged { n, total, title } => EventV::Unchanged {
                n: *n as nat,
                total: *total as nat,
                title: title@,
            },
            IndexEvent::Skipped { n, total, path, reason } => EventV::Skipped {
                n: *n as nat,
                total: *total as nat,
                path: path@,
                reason: reason@,
            },
            IndexEvent::Finished { stats } => EventV::Finished { stats: stats@ },
        }
    }
}

/// Where a run stands.
#[derive(Debug, Clone, Copy, PartialEq, Eq, Structural)]
pub enum Phase {
    /// Between two books.
    Idle,
    /// The next book is being read.
    Extracting,
    /// The passages of the next book are being embedded.
    Embedding,
    /// The passages of the next book are being stored.
    Storing,
    Ended,
}

/// What is to be done outside before the run can go on.
#[derive(Debug, PartialEq, Eq)]
pub enum Action {
    /// Nothing: go on.
    Continue,
    /// Read the file.
    Extract(String),
    /// Embed the passages from the first number up to the second.
    Embed(usize, usize),
    /// Remove every passage of these books from the store, then add those of the run.
    Replace(Vec<String>),
    /// The run is over; rebuild the full-text index if so told, then report the end.
    End(bool),
    /// The run was not waiting for this.
    Ignored,
}

/// What an [`Action`] holds.
pub enum ActionV {
    Continue,
    Extract(Seq<char>),
    Embed(nat, nat),
    Replace(Seq<Seq<char>>),
    End(bool),
    Ignored,
}

impl View for Action {
    type V = ActionV;

    open spec fn view(&self) -> ActionV {
        match self {
            Action::Continue => ActionV::Continue,
            Action::Extract(p) => ActionV::Extract(p@),
            Action::Embed(a, b) => ActionV::Embed(*a as nat, *b as nat),
            Action::Replace(v) => ActionV::Replace(text::texts(v@)),
            Action::End(b) => ActionV::End(*b),
            Action::Ignored => ActionV::Ignored,
        }
    }
}

/// A run of the built-in engine over the files that a plan says to embed.
#[derive(Debug)]
pub struct IndexRun {
    pub collection_id: String,
    pub caps_ver: String,
    /// What the store holds: books and their paths, one pair for each.
    pub pairs: Vec<(String, String)>,
    pub items: Vec<EmbedItem>,
    /// How many of the items are dealt with.
    pub next: usize,
    pub n: usize,
    pub total: usize,
    pub stats: IndexStats,
    /// Something was stored.
    pub wrote: bool,
    pub phase: Phase,
    /// The book at hand, its passages, and how many of them are embedded.
    pub book_id: String,
    pub title: String,
    pub chunks: Vec<Chunk>,
    pub done: usize,
}

/// What an [`IndexRun`] holds.
#[verifier::ext_equal]
pub struct RunV {
    pub coll: Seq<char>,
    pub caps: Seq<char>,
    pub pairs: Seq<(Seq<char>, Seq<char>)>,
    pub items: Seq<EmbedV>,
    pub next: nat,
    pub n: nat,
    pub total: nat,
    pub stats: StatsV,
    pub wrote: bool,
    pub phase: Phase,
    pub book_id: Seq<char>,
    pub title: Seq<char>,
    pub chunks: Seq<ChunkV>,
    pub done: nat,
}

impl View for IndexRun {
    type V = RunV;

    open spec fn view(&self) -> RunV {
        RunV {
            coll: self.collection_id@,
            caps: self.caps_ver@,
            pairs: rows::vals(self.pairs@),
            items: rows::vals(self.items@),
            next: self.next as nat,
            n: self.n as nat,
            total: self.total as nat,
            stats: self.stats@,
            wrote: self.wrote,
            phase: self.phase,
            book_id: self.book_id@,
            title: self.title@,
            chunks: rows::vals(self.chunks@),
            done: self.done as nat,
        }
    }
}

/// A run, the manifest, what is reported and what is to be done next.
#[verifier::ext_equal]
pub struct StepV {
    pub run: RunV,
    pub db: DbV,
    pub events: Seq<EventV>,
    pub action: ActionV,
}

/// The skip recorded for a file of the run.
pub open spec fn skip_row(run: RunV, item: EmbedV, reason: Seq<char>) -> SkipV {
    SkipV {
        collection: run.coll,
        source_path: item.path,
        pipeline: CPU@,
        fingerprint: item.fingerprint,
        reason,
        caps_ver: run.caps,
    }
}

/// The manifest with a skip recorded.
pub open spec fn db_with_skip(db: DbV, row: SkipV) -> DbV {
    DbV { skips: manifest::skip_recorded(db.skips, row), ..db }
}

/// The manifest once a book is indexed: rows at its path are replaced by its own, and its skips are
/// erased.
pub open spec fn db_with_book(db: DbV, run: RunV, item: EmbedV) -> DbV {
    DbV {
        state: manifest::recorded(
            manifest::cleared(db.state, run.coll, item.path, run.book_id),
            StateV {
                collection: run.coll,
                book: run.book_id,
                fingerprint: item.fingerprint,
                content_sig: item.content_sig,
                chunker_ver: manifest::CURRENT_CHUNKER_VER as int,
                source_path: item.path,
            },
        ),
        skips: manifest::erased(db.skips, run.coll, item.path),
        ..db
    }
}

/// The books at a path, in the order of the store.
pub open spec fn books_at(pairs: Seq<(Seq<char>, Seq<char>)>, path: Seq<char>) -> Seq<Seq<char>>
    decreases pairs.len(),
{
    if pairs.len() == 0 {
        Seq::empty()
    } else {
        let before = books_at(pairs.drop_last(), path);
        if pairs.last().1 == path {
            before.push(pairs.last().0)
        } else {
            before
        }
    }
}

/// The books that a fresh one replaces: all at its path, and itself.
pub open spec fn replaced_books(
    pairs: Seq<(Seq<char>, Seq<char>)>,
    path: Seq<char>,
    book: Seq<char>,
) -> Seq<Seq<char>> {
    let at = books_at(pairs, path);
    if at.contains(book) {
        at
    } else {
        at.push(book)
    }
}

/// The lesser of two numbers.
pub open spec fn lesser(a: nat, b: nat) -> nat {
    if a <= b {
        a
    } else {
        b
    }
}

impl RunV {
    /// A book is at hand.
    pub open spec fn busy(self) -> bool {
        self.phase == Phase::Extracting || self.phase == Phase::Embedding || self.phase
            == Phase::Storing
    }

    /// Every file that the run came to is counted once, but for the one at hand; with those to come
    /// they make up the total.
    pub open spec fn wf(self) -> bool {
        &&& self.next <= self.items.len()
        &&& self.busy() ==> self.next < self.items.len()
        &&& if self.phase == Phase::Ended {
            &&& self.stats.books() <= self.n <= self.stats.books() + 1
            &&& self.stats.books() + (self.items.len() - self.next) == self.total
        } else {
            &&& self.n == self.stats.books() + (if self.busy() {
                1nat
            } else {
                0
            })
            &&& self.stats.books() + (self.items.len() - self.next) == self.total
        }
        &&& self.stats.ordered()
        &&& stats::within(self.stats.by_format, self.stats.books())
        &&& self.done <= self.chunks.len()
    }

    /// The file at hand.
    pub open spec fn item(self) -> EmbedV {
        self.items[self.next as int]
    }

    /// The file at hand left unindexed: recorded, counted and reported with its reason.
    pub open spec fn dropped(self, db: DbV, reason: Seq<char>, failed: bool) -> StepV {
        let counted = if failed {
            StatsV { failed: self.stats.failed + 1, ..self.stats }
        } else {
            StatsV { skipped: self.stats.skipped + 1, ..self.stats }
        };
        StepV {
            run: RunV {
                next: self.next + 1,
                stats: counted.counted(self.item().path, false),
                phase: Phase::Idle,
                ..self
            },
            db: db_with_skip(db, skip_row(self, self.item(), reason)),
            events: seq![
                EventV::Skipped { n: self.n, total: self.total, path: self.item().path, reason },
            ],
            action: ActionV::Continue,
        }
    }

    /// The run at its end; its counts are reported once the full-text index is rebuilt.
    pub open spec fn over(self, db: DbV) -> StepV {
        StepV {
            run: RunV { phase: Phase::Ended, ..self },
            db,
            events: Seq::empty(),
            action: ActionV::End(self.wrote),
        }
    }

    /// Nothing happens.
    pub open spec fn ignored(self, db: DbV) -> StepV {
        StepV { run: self, db, events: Seq::empty(), action: ActionV::Ignored }
    }

    /// Why the file at hand is left to the GPU helper, if it is.
    pub open spec fn directed(self) -> Option<Seq<char>> {
        match formats::ext_name(self.item().path) {
            Some(e) => ebook::directed_skip(e),
            None => None,
        }
    }

    /// Going on, or ending where the user asked to stop. Between two books the next file is taken
    /// up; while a book is embedded, its next batch, or its storing.
    pub open spec fn go_on(self, db: DbV, cancelled: bool) -> StepV {
        if self.phase == Phase::Idle {
            if cancelled || self.next == self.items.len() {
                self.over(db)
            } else {
                let at = RunV { n: self.n + 1, ..self };
                match self.directed() {
                    Some(reason) => at.dropped(db, reason, false),
                    None => StepV {
                        run: RunV { phase: Phase::Extracting, ..at },
                        db,
                        events: seq![
                            EventV::Working {
                                n: self.n + 1,
                                total: self.total,
                                path: self.item().path,
                            },
                        ],
                        action: ActionV::Extract(self.item().path),
                    },
                }
            }
        } else if self.phase == Phase::Embedding {
            if self.done == self.chunks.len() {
                StepV {
                    run: RunV { phase: Phase::Storing, ..self },
                    db,
                    events: Seq::empty(),
                    action: ActionV::Replace(
                        replaced_books(self.pairs, self.item().path, self.book_id),
                    ),
                }
            } else if cancelled {
                self.over(db)
            } else {
                StepV {
                    run: self,
                    db,
                    events: Seq::empty(),
                    action: ActionV::Embed(
                        self.done,
                        lesser(self.done + EMBED_BATCH as nat, self.chunks.len()),
                    ),
                }
            }
        } else {
            self.ignored(db)
        }
    }

    /// How far the passages of the book at hand are embedded.
    pub open spec fn embedding(self) -> EventV {
        EventV::Embedding {
            n: self.n,
            total: self.total,
            title: self.title,
            done: self.done,
            of: self.chunks.len(),
        }
    }

    /// The file at hand is read; `passages` are those of the book.
    pub open spec fn after_extraction(
        self,
        db: DbV,
        r: Result<BookDocV, ErrorV>,
        passages: Seq<ChunkV>,
    ) -> StepV {
        if self.phase != Phase::Extracting {
            self.ignored(db)
        } else {
            match r {
                Err(e) => self.dropped(db, extract::error_message(e), true),
                Ok(d) => if d.blocks.len() == 0 {
                    self.dropped(db, NO_TEXT@, false)
                } else {
                    let run = RunV {
                        phase: Phase::Embedding,
                        book_id: d.book_id,
                        title: d.title,
                        chunks: passages,
                        done: 0,
                        ..self
                    };
                    StepV { run, db, events: seq![run.embedding()], action: ActionV::Continue }
                },
            }
        }
    }

    /// A batch of passages is embedded.
    pub open spec fn after_embedding(self, db: DbV) -> StepV {
        if self.phase == Phase::Embedding && self.done < self.chunks.len() {
            let run = RunV {
                done: lesser(self.done + EMBED_BATCH as nat, self.chunks.len()),
                ..self
            };
            StepV { run, db, events: seq![run.embedding()], action: ActionV::Continue }
        } else {
            self.ignored(db)
        }
    }

    /// The passages of the book at hand are stored, so many of them.
    pub open spec fn after_storing(self, db: DbV, written: nat) -> StepV {
        if self.phase != Phase::Storing {
            self.ignored(db)
        } else {
            let counted = StatsV {
                chunks: self.stats.chunks + written,
                indexed: self.stats.indexed + 1,
                ..self.stats
            };
            StepV {
                run: RunV {
                    next: self.next + 1,
                    stats: counted.counted(self.item().path, true),
                    wrote: true,
                    phase: Phase::Idle,
                    ..self
                },
                db: db_with_book(db, self, self.item()),
                events: seq![
                    EventV::Indexed {
                        n: self.n,
                        total: self.total,
                        title: self.title,
                        chunks: self.chunks.len(),
                    },
                ],
                action: ActionV::Continue,
            }
        }
    }
}

/// What a run has counted and reported about the files that are not embedded.
#[verifier::ext_equal]
pub struct AnnouncedV {
    pub stats: StatsV,
    pub events: Seq<EventV>,
}

/// The counts and reports about the files that are not embedded.
pub open spec fn announced(start: StatsV, preskips: Seq<PreSkipV>, total: nat) -> AnnouncedV
    decreases preskips.len(),
{
    if preskips.len() == 0 {
        AnnouncedV { stats: start, events: Seq::empty() }
    } else {
        let a = announced(start, preskips.drop_last(), total);
        let p = preskips.last();
        let n = preskips.len();
        match p.reason {
            SkipReason::Unreadable => AnnouncedV {
                stats: StatsV { failed: a.stats.failed + 1, ..a.stats },
                events: a.events.push(
                    EventV::Skipped { n, total, path: p.path, reason: UNREADABLE@ },
                ),
            },
            SkipReason::Silenced => AnnouncedV {
                stats: StatsV { skipped: a.stats.skipped + 1, ..a.stats },
                events: a.events,
            },
            _ => AnnouncedV {
                stats: (StatsV { unchanged: a.stats.unchanged + 1, ..a.stats }).counted(
                    p.path,
                    false,
                ),
                events: a.events.push(
                    EventV::Unchanged { n, total, title: ids::title_of(p.path) },
                ),
            },
        }
    }
}

/// The counts a run starts with.
pub open spec fn first_stats(forced: nat) -> StatsV {
    StatsV { forced, ..stats::no_stats() }
}

proof fn lemma_counted(s: StatsV, path: Seq<char>, indexed: bool, n: nat)
    requires
        s.ordered(),
        stats::within(s.by_format, n),
    ensures
        s.counted(path, indexed).ordered(),
        stats::within(s.counted(path, indexed).by_format, n + 1),
        s.counted(path, indexed).books() == s.books(),
{
    let (i, k): (nat, nat) = if indexed {
        (1, 0)
    } else {
        (0, 1)
    };
    stats::counting_adds_to_one_extension(s.by_format, stats::counted_ext(path), i, k);
    stats::lemma_bumped_within(s.by_format, stats::counted_ext(path), i, k, n);
}

proof fn lemma_count_within(v: Seq<stats::FormatV>, ext: Seq<char>, n: nat)
    requires
        stats::within(v, n),
    ensures
        stats::count_of(v, ext).0 <= n,
        stats::count_of(v, ext).1 <= n,
    decreases v.len(),
{
    if v.len() > 0 {
        assert(v.last() == v[v.len() - 1]);
        assert(stats::within(v.drop_last(), n)) by {
            assert forall|i: int| 0 <= i < v.drop_last().len() implies (
            #[trigger] v.drop_last()[i]).indexed <= n && v.drop_last()[i].skipped <= n by {
                assert(v.drop_last()[i] == v[i]);
            }
        }
        lemma_count_within(v.drop_last(), ext, n);
    }
}

fn one_event(e: IndexEvent) -> (r: Vec<IndexEvent>)
    ensures
        rows::vals(r@) == seq![e@],
{
    let mut v: Vec<IndexEvent> = Vec::new();
    let ghost x = e@;
    v.push(e);
    assert(rows::vals(v@) =~= seq![x]);
    v
}

fn no_events() -> (r: Vec<IndexEvent>)
    ensures
        rows::vals(r@) == Seq::<EventV>::empty(),
{
    let v: Vec<IndexEvent> = Vec::new();
    assert(rows::vals(v@) =~= Seq::empty());
    v
}

/// The books that a fresh one replaces: all at its path, and itself.
pub fn old_books(pairs: &Vec<(String, String)>, path: &str, book_id: &str) -> (r: Vec<String>)
    ensures
        text::texts(r@) == replaced_books(rows::vals(pairs@), path@, book_id@),
{
    let ghost all = rows::vals(pairs@);
    let mut out: Vec<String> = Vec::new();
    assert(text::texts(out@) =~= books_at(all.take(0), path@));
    for i in 0..pairs.len()
        invariant
            all == rows::vals(pairs@),
            text::texts(out@) == books_at(all.take(i as int), path@),
    {
        let p = &pairs[i];
        proof {
            assert(all.take(i + 1).drop_last() =~= all.take(i as int));
            assert(all.take(i + 1).last() == p@);
        }
        if text::same_text(p.1.as_str(), path) {
            let id = p.0.clone();
            proof {
                text::lemma_texts_push(out@, id);
            }
            out.push(id);
        }
    }
    assert(all.take(all.len() as int) =~= all);
    if !order::holds(&out, book_id) {
        let id = book_id.to_owned();
        proof {
            text::lemma_texts_push(out@, id);
        }
        out.push(id);
    }
    out
}

/// Counts and reports the files that are not embedded: a file that cannot be read counts as failed,
/// one whose skip is on record counts in silence, the others are unchanged.
pub fn announce_preskips(stats: &mut IndexStats, preskips: &Vec<PreSkip>, total: usize) -> (r: Vec<
    IndexEvent,
>)
    requires
        old(stats)@ == first_stats(old(stats)@.forced),
        preskips@.len() <= total,
    ensures
        (AnnouncedV { stats: final(stats)@, events: rows::vals(r@) }) == announced(
            old(stats)@,
            rows::vals(preskips@),
            total as nat,
        ),
        final(stats)@.books() == preskips@.len(),
        final(stats)@.ordered(),
        stats::within(final(stats)@.by_format, preskips@.len()),
{
    let ghost start = stats@;
    let ghost all = rows::vals(preskips@);
    let mut events = no_events();
    assert(all.take(0) =~= Seq::empty());
    for i in 0..preskips.len()
        invariant
            all == rows::vals(preskips@),
            preskips@.len() <= total,
            (AnnouncedV { stats: stats@, events: rows::vals(events@) }) == announced(
                start,
                all.take(i as int),
                total as nat,
            ),
            stats@.books() == i,
            stats@.ordered(),
            stats::within(stats@.by_format, i as nat),
    {
        let p = &preskips[i];
        let ghost t = all.take(i + 1);
        let ghost before = rows::vals(events@);
        let ghost was = stats@;
        proof {
            assert(t.drop_last() =~= all.take(i as int));
            assert(t.last() == p@);
            lemma_count_within(stats@.by_format, stats::counted_ext(p@.path), i as nat);
        }
        match p.reason {
            SkipReason::Unreadable => {
                stats.books_failed = stats.books_failed + 1;
                let e = IndexEvent::Skipped {
                    n: i + 1,
                    total,
                    path: p.path.clone(),
                    reason: UNREADABLE.to_owned(),
                };
                proof {
                    rows::lemma_vals_push(events@, e);
                }
                events.push(e);
                assert(stats@ =~= (StatsV { failed: was.failed + 1, ..was }));
            },
            SkipReason::Silenced => {
                stats.books_skipped = stats.books_skipped + 1;
                assert(stats@ =~= (StatsV { skipped: was.skipped + 1, ..was }));
            },
            _ => {
                stats.books_unchanged = stats.books_unchanged + 1;
                assert(stats@ =~= (StatsV { unchanged: was.unchanged + 1, ..was }));
                proof {
                    lemma_counted(stats@, p@.path, false, i as nat);
                }
                stats.count_format(p.path.as_str(), false);
                let e = IndexEvent::Unchanged {
                    n: i + 1,
                    total,
                    title: ids::title_from_path(p.path.as_str()),
                };
                proof {
                    rows::lemma_vals_push(events@, e);
                }
                events.push(e);
            },
        }
        proof {
            assert(stats::within(stats@.by_format, (i + 1) as nat));
            assert((AnnouncedV { stats: stats@, events: rows::vals(events@) }) =~= announced(
                start,
                t,
                total as nat,
            ));
        }
    }
    assert(all.take(all.len() as int) =~= all);
    events
}

impl IndexRun {
    /// Starts a run on a plan: reports the files that are not embedded and readies the others.
    pub fn start(
        collection_id: &str,
        caps_ver: &str,
        pairs: Vec<(String, String)>,
        plan: IndexPlan,
        total: usize,
    ) -> (r: (IndexRun, Vec<IndexEvent>))
        requires
            plan@.preskips.len() + plan@.to_embed.len() == total,
        ensures
            r.0@.wf(),
            ({
                let a = announced(
                    first_stats(plan@.forced),
                    plan@.preskips,
                    total as nat,
                );
                &&& rows::vals(r.1@) == seq![EventV::Started { total: total as nat }] + a.events
                &&& r.0@ == (RunV {
                    coll: collection_id@,
                    caps: caps_ver@,
                    pairs: rows::vals(pairs@),
                    items: plan@.to_embed,
                    next: 0,
                    n: plan@.preskips.len(),
                    total: total as nat,
                    stats: a.stats,
                    wrote: false,
                    phase: Phase::Idle,
                    book_id: Seq::empty(),
                    title: Seq::empty(),
                    chunks: Seq::empty(),
                    done: 0,
                })
            }),
    {
        let mut stats = IndexStats::default();
        stats.forced = plan.forced_count;
        assert(stats@ =~= first_stats(plan@.forced));
        let mut events = one_event(IndexEvent::Started { total });
        let ghost first = rows::vals(events@);
        assert(rows::vals(plan.preskips@).len() == plan.preskips@.len());
        let mut more = announce_preskips(&mut stats, &plan.preskips, total);
        let ghost later = rows::vals(more@);
        let ghost (e0, m0) = (events@, more@);
        events.append(&mut more);
        assert(rows::vals(events@) =~= first + later) by {
            assert(events@ =~= e0 + m0);
        }
        let n: usize = plan.preskips.len();
        let run = IndexRun {
            collection_id: collection_id.to_owned(),
            caps_ver: caps_ver.to_owned(),
            pairs,
            items: plan.to_embed,
            next: 0,
            n,
            total,
            stats,
            wrote: false,
            phase: Phase::Idle,
            book_id: String::new(),
            title: String::new(),
            chunks: Vec::new(),
            done: 0,
        };
        proof {
            assert(rows::vals(run.chunks@) =~= Seq::empty());
            assert(run.book_id@ =~= Seq::empty());
            assert(run.title@ =~= Seq::empty());
        }
        (run, events)
    }

    fn drop_book(&mut self, db: &mut Db, reason: &str, failed: bool) -> (r: (
        Vec<IndexEvent>,
        Action,
    ))
        requires
            old(self)@.next < old(self)@.items.len(),
            old(self)@.n == old(self)@.stats.books() + 1,
            old(self)@.stats.books() + (old(self)@.items.len() - old(self)@.next)
                == old(self)@.total,
            old(self)@.stats.ordered(),
            stats::within(old(self)@.stats.by_format, old(self)@.stats.books()),
            old(self)@.done <= old(self)@.chunks.len(),
        ensures
            (StepV { run: final(self)@, db: final(db)@, events: rows::vals(r.0@), action: r.1@ })
                == old(self)@.dropped(old(db)@, reason@, failed),
            final(self)@.wf(),
    {
        let ghost was = self@;
        let ghost db0 = db@;
        assert(self@.items[self.next as int] == self.items@[self.next as int]@);
        let path = self.items[self.next].path.clone();
        let fp = self.items[self.next].fingerprint.clone();
        if failed {
            self.stats.books_failed = self.stats.books_failed + 1;
            assert(self.stats@ =~= (StatsV { failed: was.stats.failed + 1, ..was.stats }));
        } else {
            self.stats.books_skipped = self.stats.books_skipped + 1;
            assert(self.stats@ =~= (StatsV { skipped: was.stats.skipped + 1, ..was.stats }));
        }
        proof {
            lemma_count_within(
                self.stats@.by_format,
                stats::counted_ext(path@),
                was.stats.books(),
            );
            lemma_counted(self.stats@, path@, false, was.stats.books());
        }
        self.stats.count_format(path.as_str(), false);
        let _ = db.upsert_skip(
            self.collection_id.as_str(),
            path.as_str(),
            CPU,
            fp.as_str(),
            reason,
            self.caps_ver.as_str(),
        );
        let events = one_event(
            IndexEvent::Skipped { n: self.n, total: self.total, path, reason: reason.to_owned() },
        );
        let count: usize = self.items.len();
        assert(self.next < count);
        self.next = self.next + 1;
        self.phase = Phase::Idle;
        let out = (events, Action::Continue);
        assert((StepV { run: self@, db: db@, events: rows::vals(out.0@), action: out.1@ })
            =~= was.dropped(db0, reason@, failed));
        out
    }

    fn end(&mut self) -> (r: (Vec<IndexEvent>, Action))
        requires
            old(self)@.wf(),
        ensures
            final(self)@ == (RunV { phase: Phase::Ended, ..old(self)@ }),
            rows::vals(r.0@) == Seq::<EventV>::empty(),
            r.1@ == ActionV::End(old(self)@.wrote),
            final(self)@.wf(),
    {
        self.phase = Phase::Ended;
        assert(self@ =~= (RunV { phase: Phase::Ended, ..old(self)@ }));
        (no_events(), Action::End(self.wrote))
    }

    /// Goes on, or ends where the user asked to stop: books stored so far are kept, the one at hand
    /// is given up.
    pub fn go_on(&mut self, db: &mut Db, cancelled: bool) -> (r: (Vec<IndexEvent>, Action))
        requires
            old(self)@.wf(),
        ensures
            (StepV { run: final(self)@, db: final(db)@, events: rows::vals(r.0@), action: r.1@ })
                == old(self)@.go_on(old(db)@, cancelled),
            final(self)@.wf(),
    {
        let ghost was = self@;
        let ghost db0 = db@;
        match self.phase {
            Phase::Idle => {
                if cancelled || self.next == self.items.len() {
                    let r = self.end();
                    assert((StepV { run: self@, db: db@, events: rows::vals(r.0@), action: r.1@ })
                        =~= was.go_on(db0, cancelled));
                    return r;
                }
                self.n = self.n + 1;
                assert(was.items[self.next as int] == self.items@[self.next as int]@);
                let path = self.items[self.next].path.clone();
                let directed: Option<&'static str> = match formats::ext_of(path.as_str()) {
                    Some(e) => ebook::cpu_directed_skip(e),
                    None => None,
                };
                proof {
                    assert(self@ =~= (RunV { n: was.n + 1, ..was }));
                    assert(self@.item() == was.item());
                }
                match directed {
                    Some(reason) => self.drop_book(db, reason, false),
                    None => {
                        let events = one_event(
                            IndexEvent::Working { n: self.n, total: self.total, path: path.clone() },
                        );
                        self.phase = Phase::Extracting;
                        let r = (events, Action::Extract(path));
                        proof {
                            assert((StepV {
                                run: self@,
                                db: db@,
                                events: rows::vals(r.0@),
                                action: r.1@,
                            }) =~= was.go_on(db0, cancelled));
                        }
                        r
                    },
                }
            },
            Phase::Embedding => {
                if self.done == self.chunks.len() {
                    assert(was.items[self.next as int] == self.items@[self.next as int]@);
                    let ids = old_books(
                        &self.pairs,
                        self.items[self.next].path.as_str(),
                        self.book_id.as_str(),
                    );
                    self.phase = Phase::Storing;
                    let r = (no_events(), Action::Replace(ids));
                    assert((StepV { run: self@, db: db@, events: rows::vals(r.0@), action: r.1@ })
                        =~= was.go_on(db0, cancelled));
                    r
                } else if cancelled {
                    let r = self.end();
                    assert((StepV { run: self@, db: db@, events: rows::vals(r.0@), action: r.1@ })
                        =~= was.go_on(db0, cancelled));
                    r
                } else {
                    let r = (no_events(), Action::Embed(self.done, self.batch_end()));
                    assert((StepV { run: self@, db: db@, events: rows::vals(r.0@), action: r.1@ })
                        =~= was.go_on(db0, cancelled));
                    r
                }
            },
            _ => (no_events(), Action::Ignored),
        }
    }

    fn batch_end(&self) -> (r: usize)
        requires
            self.done <= self.chunks@.len(),
        ensures
            r == lesser(self@.done + EMBED_BATCH as nat, self@.chunks.len()),
    {
        if self.chunks.len() - self.done <= EMBED_BATCH {
            self.chunks.len()
        } else {
            self.done + EMBED_BATCH
        }
    }

    /// Takes what reading the file at hand gave. A book that cannot be extracted, or has no text,
    /// is recorded as a skip and never as indexed, so that it is tried again once the file or the
    /// engine's abilities change.
    pub fn extracted<C: TokenCounter>(
        &mut self,
        db: &mut Db,
        result: Result<BookDoc, ExtractError>,
        counter: &C,
        params: &ChunkParams,
    ) -> (r: (Vec<IndexEvent>, Action))
        requires
            old(self)@.wf(),
            result is Ok ==> chunk::span(result->Ok_0@.blocks) <= usize::MAX,
        ensures
            (StepV { run: final(self)@, db: final(db)@, events: rows::vals(r.0@), action: r.1@ })
                == old(self)@.after_extraction(
                old(db)@,
                extract::outcome(result),
                (if result is Ok {
                    chunk::chunks_from(
                        result->Ok_0@,
                        chunk::book_units(
                            chunk::counts(counter),
                            result->Ok_0@.blocks,
                            params.target_tokens as nat,
                        ),
                        0,
                        0,
                        *params,
                    )
                } else {
                    Seq::empty()
                }),
            ),
            final(self)@.wf(),
    {
        let ghost was = self@;
        let ghost db0 = db@;
        if self.phase != Phase::Extracting {
            return (no_events(), Action::Ignored);
        }
        match result {
            Err(e) => {
                let reason = e.message();
                self.drop_book(db, reason.as_str(), true)
            },
            Ok(d) => {
                assert(d@.blocks.len() == d.blocks@.len());
                if d.blocks.len() == 0 {
                    self.drop_book(db, NO_TEXT, false)
                } else {
                    self.chunks = chunk::chunk_book(&d, counter, params);
                    self.done = 0;
                    self.phase = Phase::Embedding;
                    self.book_id = d.book_id;
                    self.title = d.title;
                    let r = (one_event(self.progress()), Action::Continue);
                    assert((StepV { run: self@, db: db@, events: rows::vals(r.0@), action: r.1@ })
                        =~= was.after_extraction(db0, Ok(d@), self@.chunks));
                    r
                }
            },
        }
    }

    fn progress(&self) -> (r: IndexEvent)
        ensures
            r@ == self@.embedding(),
    {
        IndexEvent::Embedding {
            n: self.n,
            total: self.total,
            title: self.title.clone(),
            chunks_done: self.done,
            chunks_total: self.chunks.len(),
        }
    }

    /// Takes note that the batch at hand is embedded.
    pub fn embedded(&mut self, db: &mut Db) -> (r: (Vec<IndexEvent>, Action))
        requires
            old(self)@.wf(),
        ensures
            (StepV { run: final(self)@, db: final(db)@, events: rows::vals(r.0@), action: r.1@ })
                == old(self)@.after_embedding(old(db)@),
            final(self)@.wf(),
    {
        let ghost was = self@;
        let ghost db0 = db@;
        if self.phase == Phase::Embedding && self.done < self.chunks.len() {
            self.done = self.batch_end();
            let r = (one_event(self.progress()), Action::Continue);
            assert((StepV { run: self@, db: db@, events: rows::vals(r.0@), action: r.1@ })
                =~= was.after_embedding(db0));
            r
        } else {
            (no_events(), Action::Ignored)
        }
    }

    /// Takes note that the book at hand is stored: its manifest row replaces those at its path, and
    /// every skip on record for the path is erased.
    pub fn stored(&mut self, db: &mut Db, written: usize) -> (r: (Vec<IndexEvent>, Action))
        requires
            old(self)@.wf(),
            old(self)@.stats.chunks + written <= usize::MAX,
        ensures
            (StepV { run: final(self)@, db: final(db)@, events: rows::vals(r.0@), action: r.1@ })
                == old(self)@.after_storing(old(db)@, written as nat),
            final(self)@.wf(),
    {
        let ghost was = self@;
        let ghost db0 = db@;
        if self.phase != Phase::Storing {
            return (no_events(), Action::Ignored);
        }
        assert(was.items[self.next as int] == self.items@[self.next as int]@);
        let path = self.items[self.next].path.clone();
        self.stats.chunks_written = self.stats.chunks_written + written;
        self.stats.books_indexed = self.stats.books_indexed + 1;
        self.wrote = true;
        let _ = db.clear_book_state_by_path(
            self.collection_id.as_str(),
            path.as_str(),
            self.book_id.as_str(),
        );
        let _ = db.set_book_state(
            self.collection_id.as_str(),
            self.book_id.as_str(),
            self.items[self.next].fingerprint.as_str(),
            self.items[self.next].content_sig.as_str(),
            path.as_str(),
        );
        let _ = db.erase_skips(self.collection_id.as_str(), path.as_str());
        proof {
            assert(self.stats@ =~= (StatsV {
                chunks: was.stats.chunks + written as nat,
                indexed: was.stats.indexed + 1,
                ..was.stats
            }));
            lemma_count_within(
                self.stats@.by_format,
                stats::counted_ext(path@),
                was.stats.books(),
            );
            lemma_counted(self.stats@, path@, true, was.stats.books());
        }
        self.stats.count_format(path.as_str(), true);
        let events = one_event(
            IndexEvent::Indexed {
                n: self.n,
                total: self.total,
                title: self.title.clone(),
                chunks: self.chunks.len(),
            },
        );
        let count: usize = self.items.len();
        assert(self.next < count);
        self.next = self.next + 1;
        self.phase = Phase::Idle;
        let r = (events, Action::Continue);
        assert((StepV { run: self@, db: db@, events: rows::vals(r.0@), action: r.1@ })
            =~= was.after_storing(db0, written as nat));
        r
    }

    /// What is reported at the end, once the full-text index is rebuilt where that was asked for.
    pub fn finish(&self) -> (r: IndexEvent)
        ensures
            r@ == (EventV::Finished { stats: self@.stats }),
    {
        IndexEvent::Finished { stats: self.stats.copy() }
    }
}

} // verus!
