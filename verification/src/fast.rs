//! Indexing with the help of the GPU: the files of a plan go to a helper in batches, and every
//! batch is recorded once its passages are in the store.
use vstd::prelude::*;
use vstd::utf8::encode_utf8;
use crate::ids;
use crate::manifest;
use crate::manifest::{Db, DbV, StateV};
use crate::manifest_laws;
use crate::plan::{EmbedItem, EmbedV, IndexPlan};
use crate::rows;
use crate::run;
use crate::run::{EventV, IndexEvent};
use crate::stats;
use crate::stats::{IndexStats, StatsV};
use crate::text;

verus! {

/// How many books make a batch: a run that is stopped loses no more than one.
pub const CHECKPOINT_N: usize = 40;

/// How many bytes of the helper's last words are kept, at most.
pub const TAIL_BYTES: usize = 4000;

/// The pipeline of the helper.
pub const GPU: &'static str = "gpu";

/// What is said where the helper is not set up.
pub const NOT_SET_UP: &'static str = "Set the Python interpreter and indexer script in Settings → Fast index (GPU).";

/// What is said where a collection has no files.
pub const NO_FILES: &'static str = "no PDF files found under the collection's source paths";

/// The helper's interpreter and script, if both are set up.
pub fn helper_command(python_bin: &str, indexer_script: &str) -> (r: Result<
    (String, String),
    String,
>)
    ensures
        ({
            let py = text::trim(python_bin@);
            let script = text::trim(indexer_script@);
            match r {
                Ok(c) => py.len() > 0 && script.len() > 0 && c.0@ == py && c.1@ == script,
                Err(e) => (py.len() == 0 || script.len() == 0) && e@ == NOT_SET_UP@,
            }
        }),
{
    let py = text::trim_str(python_bin);
    let script = text::trim_str(indexer_script);
    if py.as_str().unicode_len() == 0 || script.as_str().unicode_len() == 0 {
        Err(NOT_SET_UP.to_owned())
    } else {
        Ok((py, script))
    }
}

/// What a line of the helper says.
#[derive(Debug, PartialEq, Eq)]
pub enum PyProgress {
    Book { title: String, chunks: usize },
    Skip { path: String, reason: String },
    Other,
}

/// What a [`PyProgress`] holds.
pub enum ProgressV {
    Book { title: Seq<char>, chunks: nat },
    Skip { path: Seq<char>, reason: Seq<char> },
    Other,
}

impl View for PyProgress {
    type V = ProgressV;

    open spec fn view(&self) -> ProgressV {
        match self {
            PyProgress::Book { title, chunks } => ProgressV::Book {
                title: title@,
                chunks: *chunks as nat,
            },
            PyProgress::Skip { path, reason } => ProgressV::Skip { path: path@, reason: reason@ },
            PyProgress::Other => ProgressV::Other,
        }
    }
}

/// What follows the `[i/n]` of a line, if it has one.
pub open spec fn after_number(line: Seq<char>) -> Option<Seq<char>> {
    let l = text::trim(line);
    if l.len() > 0 && l[0] == '[' {
        match text::find(l.skip(1), "]"@) {
            Some(i) => Some(text::trim(l.skip(1).skip(i + 1))),
            None => None,
        }
    } else {
        None
    }
}

/// What follows the last blank.
pub open spec fn last_word(s: Seq<char>) -> Seq<char> {
    match ids::last_index(s, ' ') {
        Some(i) => s.skip(i + 1),
        None => s,
    }
}

/// The number that a text begins with; none counts as zero.
pub open spec fn leading_count(s: Seq<char>) -> nat {
    let w = text::words(s);
    if w.len() == 0 {
        0
    } else {
        match text::number_of(w[0]) {
            Some(n) => if n <= usize::MAX {
                n
            } else {
                0
            },
            None => 0,
        }
    }
}

/// What a line of the helper says: a book with its number of passages, a skipped file, or nothing
/// of note.
pub open spec fn progress_of(line: Seq<char>) -> ProgressV {
    match after_number(line) {
        None => ProgressV::Other,
        Some(rest) => if text::starts(rest, "skip"@) {
            ProgressV::Skip { path: last_word(rest), reason: run::NO_TEXT@ }
        } else {
            match text::find_last(rest, ": "@) {
                Some(c) => ProgressV::Book {
                    title: rest.take(c),
                    chunks: leading_count(rest.skip(c + 2)),
                },
                None => ProgressV::Book { title: rest, chunks: 0 },
            }
        },
    }
}

fn count_at_start(v: &[char]) -> (r: usize)
    ensures
        r == leading_count(v@),
{
    let w = text::words_of(v);
    assert(text::texts(w@).len() == w@.len());
    if w.len() == 0 {
        return 0;
    }
    assert(text::texts(w@)[0] == w@[0]@);
    match text::parse_number(&text::chars_of(w[0].as_str()), usize::MAX as u64) {
        Some(n) => n as usize,
        None => 0,
    }
}

/// Reads a line of the helper. The helper counts books batch by batch, so its own numbers are not
/// looked at.
pub fn parse_py_progress(line: &str) -> (r: PyProgress)
    ensures
        r@ == progress_of(line@),
{
    let all = text::chars_of(line);
    let l = text::trim_chars(&all);
    if l.len() == 0 || l[0] != '[' {
        return PyProgress::Other;
    }
    let s = vstd::slice::slice_subrange(l, 1, l.len());
    assert(s@ =~= l@.skip(1));
    let close = text::chars_of("]");
    proof {
        reveal_strlit("]");
        assert("]"@.len() == 1);
    }
    let i: usize = match text::find_chars_from(s, &close, 0) {
        Some(i) => i,
        None => {
            return PyProgress::Other;
        },
    };
    let after = vstd::slice::slice_subrange(s, i + 1, s.len());
    assert(after@ =~= s@.skip(i + 1));
    let rest = text::trim_chars(after);
    let end: usize = rest.len();
    if text::starts_with(rest, &text::chars_of("skip")) {
        let path = match ids::last_char(rest, ' ') {
            Some(k) => {
                let w = vstd::slice::slice_subrange(rest, k + 1, end);
                assert(w@ =~= rest@.skip(k + 1));
                text::string_of(w)
            },
            None => text::string_of(rest),
        };
        return PyProgress::Skip { path, reason: run::NO_TEXT.to_owned() };
    }
    let colon = text::chars_of(": ");
    proof {
        reveal_strlit(": ");
        assert(": "@.len() == 2);
    }
    match text::find_last_chars(rest, &colon) {
        Some(c) => {
            let title = vstd::slice::slice_subrange(rest, 0, c);
            let tail = vstd::slice::slice_subrange(rest, c + 2, end);
            assert(title@ =~= rest@.take(c as int));
            assert(tail@ =~= rest@.skip(c + 2));
            PyProgress::Book { title: text::string_of(title), chunks: count_at_start(tail) }
        },
        None => PyProgress::Book { title: text::string_of(rest), chunks: 0 },
    }
}

/// The end of a text, as much as fits.
pub open spec fn kept_tail(t: Seq<char>) -> Seq<char>
    decreases t.len(),
{
    if t.len() == 0 || encode_utf8(t).len() <= TAIL_BYTES {
        t
    } else {
        kept_tail(t.skip(1))
    }
}

fn keep_tail(t: String) -> (r: String)
    ensures
        r@ == kept_tail(t@),
{
    let v = text::chars_of(t.as_str());
    let mut i: usize = 0;
    let mut s = t;
    assert(v@.skip(0) =~= v@);
    while i < v.len() && s.as_str().as_bytes().len() > TAIL_BYTES
        invariant
            i <= v@.len(),
            s@ == v@.skip(i as int),
            kept_tail(s@) == kept_tail(v@),
        decreases v@.len() - i,
    {
        assert(v@.skip(i as int).skip(1) =~= v@.skip(i + 1));
        i = i + 1;
        let rest = vstd::slice::slice_subrange(v.as_slice(), i, v.len());
        assert(rest@ =~= v@.skip(i as int));
        s = text::string_of(rest);
    }
    s
}

/// A run with the helper.
#[derive(Debug)]
pub struct FastRun {
    pub collection_id: String,
    pub items: Vec<EmbedItem>,
    /// How many files are dealt with.
    pub next: usize,
    /// How many batches are dealt with.
    pub batch: usize,
    /// How many books the helper has reported, in all, and of the batch at hand.
    pub n: usize,
    pub batch_indexed: usize,
    pub batch_skipped: usize,
    /// The helper's last words in the batch at hand.
    pub tail: String,
    pub stats: IndexStats,
    pub cancelled: bool,
}

/// What a [`FastRun`] holds.
#[verifier::ext_equal]
pub struct FastV {
    pub coll: Seq<char>,
    pub items: Seq<EmbedV>,
    pub next: nat,
    pub batch: nat,
    pub n: nat,
    pub batch_indexed: nat,
    pub batch_skipped: nat,
    pub tail: Seq<char>,
    pub stats: StatsV,
    pub cancelled: bool,
}

impl View for FastRun {
    type V = FastV;

    open spec fn view(&self) -> FastV {
        FastV {
            coll: self.collection_id@,
            items: rows::vals(self.items@),
            next: self.next as nat,
            batch: self.batch as nat,
            n: self.n as nat,
            batch_indexed: self.batch_indexed as nat,
            batch_skipped: self.batch_skipped as nat,
            tail: self.tail@,
            stats: self.stats@,
            cancelled: self.cancelled,
        }
    }
}

/// The counts a run with the helper starts with: what is not embedded counts as unchanged.
pub open spec fn first_fast_stats(unchanged: nat, forced: nat) -> StatsV {
    StatsV { unchanged, forced, ..stats::no_stats() }
}

/// What a run with the helper does next.
#[derive(Debug, PartialEq, Eq)]
pub enum FastAction {
    /// Hand the files from the first number up to the second to the helper, which writes the file
    /// of the given name.
    Batch(usize, usize, String),
    /// The run is over; rebuild the full-text index if so told.
    End(bool),
}

/// What a [`FastAction`] holds.
pub enum FastActionV {
    Batch(nat, nat, Seq<char>),
    End(bool),
}

impl View for FastAction {
    type V = FastActionV;

    open spec fn view(&self) -> FastActionV {
        match self {
            FastAction::Batch(a, b, f) => FastActionV::Batch(*a as nat, *b as nat, f@),
            FastAction::End(b) => FastActionV::End(*b),
        }
    }
}

/// The name of the file that the helper writes for a batch.
pub open spec fn parquet_name(coll: Seq<char>, batch: nat) -> Seq<char> {
    "fastindex-"@ + coll + "-"@ + text::decimal(batch) + ".parquet"@
}

/// The log line at the start.
pub open spec fn start_line(total: nat) -> Seq<char> {
    "Embedding "@ + text::decimal(total) + " new/changed file(s) on the GPU helper…"@
}

/// The row of a file that the helper embedded.
pub open spec fn item_row(coll: Seq<char>, f: EmbedV) -> StateV {
    StateV {
        collection: coll,
        book: ids::book_id_of(f.path),
        fingerprint: f.fingerprint,
        content_sig: f.content_sig,
        chunker_ver: manifest::CURRENT_CHUNKER_VER as int,
        source_path: f.path,
    }
}

/// The rows once some files are recorded.
pub open spec fn committed(state: Seq<StateV>, coll: Seq<char>, items: Seq<EmbedV>) -> Seq<StateV>
    decreases items.len(),
{
    if items.len() == 0 {
        state
    } else {
        manifest::recorded(
            committed(state, coll, items.drop_last()),
            item_row(coll, items.last()),
        )
    }
}

impl FastV {
    /// No more files are dealt with than there are, no batch is empty, and the books reported in
    /// the batch at hand are among those reported in all.
    pub open spec fn wf(self) -> bool {
        &&& self.next <= self.items.len()
        &&& self.batch <= self.next
        &&& self.stats.indexed + self.stats.skipped + self.batch_indexed + self.batch_skipped
            == self.n
    }

    /// Where the batch at hand ends.
    pub open spec fn batch_end(self) -> nat {
        run::lesser(self.next + CHECKPOINT_N as nat, self.items.len())
    }

    /// The next batch, or the end.
    pub open spec fn action(self, cancelled: bool) -> FastActionV {
        if self.cancelled || cancelled || self.next == self.items.len() {
            FastActionV::End(
                self.stats.chunks > 0 && (self.next == self.items.len() && !self.cancelled),
            )
        } else {
            FastActionV::Batch(self.next, self.batch_end(), parquet_name(self.coll, self.batch))
        }
    }

    /// A line of the helper.
    pub open spec fn after_line(self, line: Seq<char>) -> FastV {
        let tail = kept_tail(self.tail + line + "\n"@);
        match progress_of(line) {
            ProgressV::Book { .. } => FastV {
                n: self.n + 1,
                batch_indexed: self.batch_indexed + 1,
                tail,
                ..self
            },
            ProgressV::Skip { .. } => FastV {
                n: self.n + 1,
                batch_skipped: self.batch_skipped + 1,
                tail,
                ..self
            },
            ProgressV::Other => FastV { tail, ..self },
        }
    }

    /// What is reported of a line of the helper.
    pub open spec fn line_event(self, line: Seq<char>) -> Option<EventV> {
        let total = self.items.len();
        match progress_of(line) {
            ProgressV::Book { title, chunks } => Some(
                EventV::Indexed { n: self.n + 1, total, title, chunks },
            ),
            ProgressV::Skip { path, reason } => Some(
                EventV::Skipped { n: self.n + 1, total, path, reason },
            ),
            ProgressV::Other => None,
        }
    }

    /// The batch at hand is in the store with so many passages.
    pub open spec fn after_import(self, chunks: nat) -> FastV {
        FastV {
            next: self.batch_end(),
            batch: self.batch + 1,
            batch_indexed: 0,
            batch_skipped: 0,
            tail: Seq::empty(),
            stats: StatsV {
                indexed: self.stats.indexed + self.batch_indexed,
                skipped: self.stats.skipped + self.batch_skipped,
                chunks: self.stats.chunks + chunks,
                ..self.stats
            },
            ..self
        }
    }
}

/// An event of the value, if there is one.
pub open spec fn event_of(e: Option<IndexEvent>) -> Option<EventV> {
    match e {
        Some(e) => Some(e@),
        None => None,
    }
}

impl FastRun {
    /// Starts a run on a plan.
    pub fn start(collection_id: &str, plan: IndexPlan) -> (r: FastRun)
        ensures
            r@.wf(),
            r@ == (FastV {
                coll: collection_id@,
                items: plan@.to_embed,
                next: 0,
                batch: 0,
                n: 0,
                batch_indexed: 0,
                batch_skipped: 0,
                tail: Seq::empty(),
                stats: first_fast_stats(plan@.preskips.len(), plan@.forced),
                cancelled: false,
            }),
    {
        let mut stats = IndexStats::default();
        stats.books_unchanged = plan.preskips.len();
        stats.forced = plan.forced_count;
        assert(plan@.preskips.len() == plan.preskips@.len());
        assert(stats@ =~= first_fast_stats(plan@.preskips.len(), plan@.forced));
        let r = FastRun {
            collection_id: collection_id.to_owned(),
            items: plan.to_embed,
            next: 0,
            batch: 0,
            n: 0,
            batch_indexed: 0,
            batch_skipped: 0,
            tail: String::new(),
            stats,
            cancelled: false,
        };
        assert(r.tail@ =~= Seq::empty());
        r
    }

    /// What is reported at the start: nothing where there is nothing to embed.
    pub fn opening(&self) -> (r: Option<(IndexEvent, String)>)
        ensures
            match r {
                Some(x) => self@.items.len() > 0 && x.0@ == (EventV::Started {
                    total: self@.items.len(),
                }) && x.1@ == start_line(self@.items.len()),
                None => self@.items.len() == 0,
            },
    {
        let total: usize = self.items.len();
        assert(self@.items.len() == total);
        if total == 0 {
            return None;
        }
        let mut line = "Embedding ".to_owned();
        line.append(text::decimal_of(total as u64).as_str());
        line.append(" new/changed file(s) on the GPU helper…");
        Some((IndexEvent::Started { total }, line))
    }

    /// The next batch, or the end; the full-text index is rebuilt only when a run that stored
    /// something was not stopped.
    pub fn go_on(&mut self, cancelled: bool) -> (r: FastAction)
        requires
            old(self)@.wf(),
        ensures
            r@ == old(self)@.action(cancelled),
            final(self)@ == (FastV {
                cancelled: old(self)@.cancelled || (cancelled && old(self)@.next < old(
                    self,
                )@.items.len()),
                ..old(self)@
            }),
            final(self)@.wf(),
    {
        let total: usize = self.items.len();
        assert(self@.items.len() == total);
        if self.next == total {
            return FastAction::End(self.stats.chunks_written > 0 && !self.cancelled);
        }
        if self.cancelled || cancelled {
            self.cancelled = true;
            return FastAction::End(false);
        }
        let hi: usize = self.end_of_batch();
        let mut name = "fastindex-".to_owned();
        name.append(self.collection_id.as_str());
        name.append("-");
        name.append(text::decimal_of(self.batch as u64).as_str());
        name.append(".parquet");
        FastAction::Batch(self.next, hi, name)
    }

    fn end_of_batch(&self) -> (r: usize)
        requires
            self@.wf(),
        ensures
            r == self@.batch_end(),
    {
        assert(self@.items.len() == self.items@.len());
        if self.items.len() - self.next <= CHECKPOINT_N {
            self.items.len()
        } else {
            self.next + CHECKPOINT_N
        }
    }

    /// Takes a line of the helper and says what to report of it.
    pub fn line(&mut self, line: &str) -> (r: Option<IndexEvent>)
        requires
            old(self)@.wf(),
            old(self)@.n < usize::MAX,
        ensures
            final(self)@ == old(self)@.after_line(line@),
            event_of(r) == old(self)@.line_event(line@),
            final(self)@.wf(),
    {
        let ghost was = self@;
        let total: usize = self.items.len();
        assert(self@.items.len() == total);
        let event = match parse_py_progress(line) {
            PyProgress::Book { title, chunks } => {
                self.n = self.n + 1;
                self.batch_indexed = self.batch_indexed + 1;
                Some(IndexEvent::Indexed { n: self.n, total, title, chunks })
            },
            PyProgress::Skip { path, reason } => {
                self.n = self.n + 1;
                self.batch_skipped = self.batch_skipped + 1;
                Some(IndexEvent::Skipped { n: self.n, total, path, reason })
            },
            PyProgress::Other => None,
        };
        let mut tail = self.tail.clone();
        tail.append(line);
        tail.append("\n");
        self.tail = keep_tail(tail);
        assert(self@ =~= was.after_line(line@));
        event
    }

    /// Takes note that the user stopped the helper: the batch at hand is lost.
    pub fn stopped(&mut self)
        ensures
            final(self)@ == (FastV { cancelled: true, ..old(self)@ }),
            old(self)@.wf() ==> final(self)@.wf(),
    {
        self.cancelled = true;
        assert(self@ =~= (FastV { cancelled: true, ..old(self)@ }));
    }

    /// What is said of a helper that failed, with its exit code, if it had one, and its last words.
    pub fn failure(&self, code: Option<i32>) -> (r: String)
        ensures
            r@ == "Python helper failed (exit "@ + text::signed_decimal(
                (match code {
                    Some(c) => c as int,
                    None => -1,
                }),
            ) + "):\n"@ + text::rtrim(self@.tail),
    {
        let c: i32 = match code {
            Some(c) => c,
            None => -1,
        };
        let mut s = "Python helper failed (exit ".to_owned();
        s.append(text::signed_decimal_of(c as i64).as_str());
        s.append("):\n");
        let v = text::chars_of(self.tail.as_str());
        s.append(text::string_of(text::trim_right(&v)).as_str());
        s
    }

    /// Takes note that the passages of the batch at hand are in the store, and records its files so
    /// that they are not embedded again.
    pub fn imported(&mut self, db: &mut Db, chunks: usize)
        requires
            old(self)@.wf(),
            old(self)@.next < old(self)@.items.len(),
            old(self)@.stats.chunks + chunks <= usize::MAX,
        ensures
            final(self)@ == old(self)@.after_import(chunks as nat),
            final(self)@.wf(),
            final(db)@ == (DbV {
                state: committed(
                    old(db)@.state,
                    old(self)@.coll,
                    old(self)@.items.subrange(
                        old(self)@.next as int,
                        old(self)@.batch_end() as int,
                    ),
                ),
                ..old(db)@
            }),
    {
        let ghost was = self@;
        let ghost db0 = db@;
        let hi: usize = self.end_of_batch();
        assert(self@.items.len() == self.items@.len());
        let ghost files = was.items.subrange(was.next as int, hi as int);
        assert(files.take(0) =~= Seq::empty());
        for i in self.next..hi
            invariant
                self@ == was,
                hi == was.batch_end(),
                was.next <= hi <= was.items.len(),
                was.items.len() == self.items@.len(),
                files == was.items.subrange(was.next as int, hi as int),
                db@ == (DbV {
                    state: committed(db0.state, was.coll, files.take(i - was.next)),
                    ..db0
                }),
        {
            let f = &self.items[i];
            proof {
                assert(was.items[i as int] == f@);
                assert(files.take(i - was.next + 1).drop_last() =~= files.take(i - was.next));
                assert(files.take(i - was.next + 1).last() == f@);
            }
            let _ = db.set_book_state(
                self.collection_id.as_str(),
                ids::stable_book_id(f.path.as_str()).as_str(),
                f.fingerprint.as_str(),
                f.content_sig.as_str(),
                f.path.as_str(),
            );
        }
        assert(files.take(files.len() as int) =~= files);
        self.stats.books_indexed = self.stats.books_indexed + self.batch_indexed;
        self.stats.books_skipped = self.stats.books_skipped + self.batch_skipped;
        self.stats.chunks_written = self.stats.chunks_written + chunks;
        self.batch_indexed = 0;
        self.batch_skipped = 0;
        self.tail = String::new();
        self.next = hi;
        self.batch = self.batch + 1;
        assert(self.tail@ =~= Seq::empty());
        assert(self@ =~= was.after_import(chunks as nat));
    }

    /// What is reported at the end.
    pub fn finish(&self) -> (r: IndexEvent)
        ensures
            r@ == (EventV::Finished { stats: self@.stats }),
    {
        IndexEvent::Finished { stats: self.stats.copy() }
    }
}

/// A stopped run keeps what earlier batches recorded: only a stored batch changes the counts and
/// how far the run has come, so the next run takes up where this one was stopped.
pub proof fn stopping_loses_one_batch_at_most(r: FastV, line: Seq<char>)
    requires
        r.wf(),
    ensures
        r.after_line(line).stats == r.stats,
        r.after_line(line).next == r.next,
        r.batch_end() - r.next <= CHECKPOINT_N,
        (FastV { cancelled: true, ..r }).action(false) == FastActionV::End(false),
{
}

/// Storing a batch keeps the manifest clean and keyed.
pub proof fn stored_batch_keeps_manifest_clean(
    state: Seq<StateV>,
    coll: Seq<char>,
    items: Seq<EmbedV>,
)
    requires
        manifest_laws::clean(state),
        manifest_laws::keyed(state),
    ensures
        manifest_laws::clean(committed(state, coll, items)),
        manifest_laws::keyed(committed(state, coll, items)),
    decreases items.len(),
{
    if items.len() > 0 {
        stored_batch_keeps_manifest_clean(state, coll, items.drop_last());
        manifest_laws::recording_keeps_manifest_clean(
            committed(state, coll, items.drop_last()),
            item_row(coll, items.last()),
        );
    }
}

/// The files of a stored batch are all on record afterwards, each with what it was planned with,
/// if it could be read and no later file is the same book.
pub proof fn stored_batch_is_on_record(
    state: Seq<StateV>,
    coll: Seq<char>,
    items: Seq<EmbedV>,
    k: int,
)
    requires
        manifest_laws::clean(state),
        manifest_laws::keyed(state),
        0 <= k < items.len(),
        forall|j: int|
            k < j < items.len() ==> ids::book_id_of((#[trigger] items[j]).path) != ids::book_id_of(
                items[k].path,
            ),
        !manifest::sentinel(items[k].fingerprint),
        !manifest::sentinel(items[k].content_sig),
    ensures
        manifest::row_of(committed(state, coll, items), coll, ids::book_id_of(items[k].path))
            == Some(item_row(coll, items[k])),
    decreases items.len(),
{
    let init = items.drop_last();
    let f = items.last();
    let before = committed(state, coll, init);
    let row = item_row(coll, f);
    stored_batch_keeps_manifest_clean(state, coll, init);
    if k == items.len() - 1 {
        manifest_laws::recorded_book_reads_back(before, row, coll, row.book);
    } else {
        assert forall|j: int| k < j < init.len() implies ids::book_id_of((#[trigger] init[j]).path)
            != ids::book_id_of(init[k].path) by {
            assert(init[j] == items[j]);
        }
        stored_batch_is_on_record(state, coll, init, k);
        assert(items[items.len() - 1] == f);
        if !manifest::sentinel(row.fingerprint) {
            let plain = StateV {
                content_sig: if row.content_sig == manifest::CONTENT_SIG_MISSING@ {
                    Seq::empty()
                } else {
                    row.content_sig
                },
                ..row
            };
            reveal_strlit("missing");
            assert(manifest::CONTENT_SIG_MISSING@.len() == 7);
            assert(manifest::recorded(before, row) == manifest::recorded(before, plain));
            manifest_laws::recorded_book_reads_back(
                before,
                plain,
                coll,
                ids::book_id_of(items[k].path),
            );
        }
    }
}

} // verus!
