//! The manifest: which books each collection has indexed, which files were skipped and why, and
//! the user's collections, conversations and notes. Every operation is a transition on tables held
//! in memory; loading and saving them is the caller's business.
use vstd::prelude::*;
use crate::rows;
use crate::text;
use crate::types::{Collection, Conversation, Message};

verus! {

/// What can go wrong with a manifest operation.
#[derive(Debug, PartialEq, Eq)]
pub enum DbError {
    /// A table constraint was violated.
    Sqlite(String),
    /// A stored value does not parse.
    Json(String),
    NotFound(String),
}

impl DbError {
    /// The message of the error.
    pub fn message(&self) -> (r: String)
        ensures
            r@ == (match *self {
                DbError::Sqlite(e) => e@,
                DbError::Json(e) => e@,
                DbError::NotFound(e) => "not found: "@ + e@,
            }),
    {
        match self {
            DbError::Sqlite(e) => e.clone(),
            DbError::Json(e) => e.clone(),
            DbError::NotFound(e) => {
                let mut s = "not found: ".to_owned();
                s.append(e.as_str());
                s
            },
        }
    }
}

/// The failure sentinel shared by content signatures and file fingerprints. It is poison, never
/// identity: reverse lookups treat it as no match, writers refuse to persist it, and in-run
/// deduplication never keys on it.
pub const CONTENT_SIG_MISSING: &'static str = "missing";

/// The chunking scheme version stamped on newly indexed books; rows with a smaller one are legacy.
pub const CURRENT_CHUNKER_VER: i64 = 1;

/// A fingerprint or content signature that identifies nothing.
pub open spec fn sentinel(v: Seq<char>) -> bool {
    v.len() == 0 || v == CONTENT_SIG_MISSING@
}

/// True when a fingerprint/content-signature value is the failure sentinel (or empty) and must
/// never participate in identity matching.
pub fn is_sig_sentinel(v: &str) -> (r: bool)
    ensures
        r == sentinel(v@),
{
    v.is_empty() || text::same_text(v, CONTENT_SIG_MISSING)
}

/// One row of the incremental-ingest manifest.
#[derive(Debug)]
pub struct StateRow {
    pub collection_id: String,
    pub book_id: String,
    pub fingerprint: String,
    pub content_sig: String,
    pub chunker_ver: i64,
    pub source_path: String,
}

/// What a [`StateRow`] holds.
#[verifier::ext_equal]
pub struct StateV {
    pub collection: Seq<char>,
    pub book: Seq<char>,
    pub fingerprint: Seq<char>,
    pub content_sig: Seq<char>,
    pub chunker_ver: int,
    pub source_path: Seq<char>,
}

impl View for StateRow {
    type V = StateV;

    open spec fn view(&self) -> StateV {
        StateV {
            collection: self.collection_id@,
            book: self.book_id@,
            fingerprint: self.fingerprint@,
            content_sig: self.content_sig@,
            chunker_ver: self.chunker_ver as int,
            source_path: self.source_path@,
        }
    }
}

/// A file one pipeline could not index, recorded under its path. Never consulted as identity.
#[derive(Debug)]
pub struct SkipRow {
    pub collection_id: String,
    pub source_path: String,
    pub pipeline: String,
    pub fingerprint: String,
    pub reason: String,
    pub caps_ver: String,
}

/// What a [`SkipRow`] holds.
#[verifier::ext_equal]
pub struct SkipV {
    pub collection: Seq<char>,
    pub source_path: Seq<char>,
    pub pipeline: Seq<char>,
    pub fingerprint: Seq<char>,
    pub reason: Seq<char>,
    pub caps_ver: Seq<char>,
}

impl View for SkipRow {
    type V = SkipV;

    open spec fn view(&self) -> SkipV {
        SkipV {
            collection: self.collection_id@,
            source_path: self.source_path@,
            pipeline: self.pipeline@,
            fingerprint: self.fingerprint@,
            reason: self.reason@,
            caps_ver: self.caps_ver@,
        }
    }
}

/// A user-authored note for one scope (`global` or a collection id).
#[derive(Debug)]
pub struct NoteRow {
    pub scope: String,
    pub content: String,
    pub updated_at: i64,
}

/// What a [`NoteRow`] holds.
#[verifier::ext_equal]
pub struct NoteV {
    pub scope: Seq<char>,
    pub content: Seq<char>,
    pub updated_at: i64,
}

impl View for NoteRow {
    type V = NoteV;

    open spec fn view(&self) -> NoteV {
        NoteV { scope: self.scope@, content: self.content@, updated_at: self.updated_at }
    }
}

/// A conversation with the time it was created.
#[derive(Debug)]
pub struct ConversationRow {
    pub conversation: Conversation,
    pub created_at: i64,
}

/// What a [`ConversationRow`] holds.
#[verifier::ext_equal]
pub struct ConversationRowV {
    pub conversation: crate::types::ConversationV,
    pub created_at: i64,
}

impl View for ConversationRow {
    type V = ConversationRowV;

    open spec fn view(&self) -> ConversationRowV {
        ConversationRowV { conversation: self.conversation@, created_at: self.created_at }
    }
}

/// The tables.
#[derive(Debug)]
pub struct Db {
    pub collections: Vec<Collection>,
    pub conversations: Vec<ConversationRow>,
    /// In the order in which they were added.
    pub messages: Vec<Message>,
    pub state: Vec<StateRow>,
    pub notebook: Vec<NoteRow>,
    pub skips: Vec<SkipRow>,
    /// Collections whose next run re-chunks legacy books.
    pub rechunk: Vec<String>,
}

/// What a [`Db`] holds.
#[verifier::ext_equal]
pub struct DbV {
    pub collections: Seq<crate::types::CollectionV>,
    pub conversations: Seq<ConversationRowV>,
    pub messages: Seq<crate::types::MessageV>,
    pub state: Seq<StateV>,
    pub notebook: Seq<NoteV>,
    pub skips: Seq<SkipV>,
    pub rechunk: Seq<Seq<char>>,
}

impl View for Db {
    type V = DbV;

    open spec fn view(&self) -> DbV {
        DbV {
            collections: rows::vals(self.collections@),
            conversations: rows::vals(self.conversations@),
            messages: rows::vals(self.messages@),
            state: rows::vals(self.state@),
            notebook: rows::vals(self.notebook@),
            skips: rows::vals(self.skips@),
            rechunk: rows::vals(self.rechunk@),
        }
    }
}

/// A matched manifest row. Deduplication needs the whole row: the stored path tells a moved file
/// from metadata churn, and the stored content signature confirms identity when a fingerprint
/// collides.
#[derive(Debug)]
pub struct BookStateHit {
    pub book_id: String,
    pub source_path: String,
    pub content_sig: String,
    pub fingerprint: String,
    /// Preserved across remaps, so a moved legacy book keeps its re-index nudge.
    pub chunker_ver: i64,
}

/// What a [`BookStateHit`] holds.
#[verifier::ext_equal]
pub struct HitV {
    pub book: Seq<char>,
    pub source_path: Seq<char>,
    pub content_sig: Seq<char>,
    pub fingerprint: Seq<char>,
    pub chunker_ver: int,
}

impl View for BookStateHit {
    type V = HitV;

    open spec fn view(&self) -> HitV {
        HitV {
            book: self.book_id@,
            source_path: self.source_path@,
            content_sig: self.content_sig@,
            fingerprint: self.fingerprint@,
            chunker_ver: self.chunker_ver as int,
        }
    }
}

impl StateV {
    /// The part of a row that a lookup hands out.
    pub open spec fn hit(self) -> HitV {
        HitV {
            book: self.book,
            source_path: self.source_path,
            content_sig: self.content_sig,
            fingerprint: self.fingerprint,
            chunker_ver: self.chunker_ver,
        }
    }
}

/// The rows of one book of one collection.
pub open spec fn of_book(coll: Seq<char>, book: Seq<char>) -> spec_fn(StateV) -> bool {
    |r: StateV| r.collection == coll && r.book == book
}

/// The rows of one collection.
pub open spec fn of_collection(coll: Seq<char>) -> spec_fn(StateV) -> bool {
    |r: StateV| r.collection == coll
}

/// The rows with one fingerprint in one collection.
pub open spec fn with_fingerprint(coll: Seq<char>, fp: Seq<char>) -> spec_fn(StateV) -> bool {
    |r: StateV| r.collection == coll && r.fingerprint == fp
}

/// The rows with one content signature in one collection.
pub open spec fn with_content(coll: Seq<char>, sig: Seq<char>) -> spec_fn(StateV) -> bool {
    |r: StateV| r.collection == coll && r.content_sig == sig
}

/// The rows of one collection under a path, or of one book: what a removed file leaves behind.
pub open spec fn at_path_or_book(
    coll: Seq<char>,
    path: Seq<char>,
    book: Seq<char>,
) -> spec_fn(StateV) -> bool {
    |r: StateV| r.collection == coll && (r.source_path == path || r.book == book)
}

/// The rows but that of a book.
pub open spec fn without_book(state: Seq<StateV>, coll: Seq<char>, book: Seq<char>) -> Seq<StateV> {
    rows::keep(state, |x: StateV| !(of_book(coll, book))(x))
}

/// The rows but those at a path or of a book.
pub open spec fn cleared(
    state: Seq<StateV>,
    coll: Seq<char>,
    path: Seq<char>,
    book: Seq<char>,
) -> Seq<StateV> {
    rows::keep(state, |x: StateV| !(at_path_or_book(coll, path, book))(x))
}

/// The skips but those at a path, of every pipeline.
pub open spec fn erased(skips: Seq<SkipV>, coll: Seq<char>, path: Seq<char>) -> Seq<SkipV> {
    rows::keep(skips, |x: SkipV| !(skips_at(coll, path))(x))
}

/// The skips but those outside every root of their collection.
pub open spec fn swept(skips: Seq<SkipV>, coll: Seq<char>, roots: Seq<Seq<char>>) -> Seq<SkipV> {
    rows::keep(skips, |x: SkipV| !(stray_skip(coll, roots))(x))
}

/// The row of one book of one collection.
pub open spec fn row_of(state: Seq<StateV>, coll: Seq<char>, book: Seq<char>) -> Option<StateV> {
    rows::find_row(state, of_book(coll, book))
}

/// The first row with a fingerprint; a sentinel matches nothing.
pub open spec fn row_with_fingerprint(
    state: Seq<StateV>,
    coll: Seq<char>,
    fp: Seq<char>,
) -> Option<StateV> {
    if sentinel(fp) {
        None
    } else {
        rows::find_row(state, with_fingerprint(coll, fp))
    }
}

/// The first row with a content signature; a sentinel matches nothing.
pub open spec fn row_with_content(
    state: Seq<StateV>,
    coll: Seq<char>,
    sig: Seq<char>,
) -> Option<StateV> {
    if sentinel(sig) {
        None
    } else {
        rows::find_row(state, with_content(coll, sig))
    }
}

/// The table after a row is written over the row of the same book, or added at the end.
pub open spec fn put_row(state: Seq<StateV>, row: StateV) -> Seq<StateV> {
    match rows::first_where(state, of_book(row.collection, row.book)) {
        Some(i) => state.update(i, row),
        None => state.push(row),
    }
}

/// The table after a book was recorded as indexed. A sentinel fingerprint writes nothing, and a
/// missing content signature is written as none.
pub open spec fn recorded(state: Seq<StateV>, row: StateV) -> Seq<StateV> {
    if sentinel(row.fingerprint) {
        state
    } else {
        put_row(
            state,
            StateV {
                content_sig: if row.content_sig == CONTENT_SIG_MISSING@ {
                    Seq::empty()
                } else {
                    row.content_sig
                },
                ..row
            },
        )
    }
}

/// The table after the fingerprint and path of a book were written; signature and version of an
/// existing row stay.
pub open spec fn fingerprinted(
    state: Seq<StateV>,
    coll: Seq<char>,
    book: Seq<char>,
    fp: Seq<char>,
    path: Seq<char>,
) -> Seq<StateV> {
    if sentinel(fp) {
        state
    } else {
        match row_of(state, coll, book) {
            Some(row) => put_row(state, StateV { fingerprint: fp, source_path: path, ..row }),
            None => put_row(
                state,
                StateV {
                    collection: coll,
                    book,
                    fingerprint: fp,
                    content_sig: Seq::empty(),
                    chunker_ver: 0,
                    source_path: path,
                },
            ),
        }
    }
}

/// The table after the state of an existing book was refreshed: fingerprint and path are written,
/// the signature only if a real one is at hand, and the chunker version never (a row that did not
/// exist is legacy).
pub open spec fn refreshed(
    state: Seq<StateV>,
    coll: Seq<char>,
    book: Seq<char>,
    fp: Seq<char>,
    sig: Option<Seq<char>>,
    path: Seq<char>,
) -> Seq<StateV> {
    if sentinel(fp) {
        state
    } else {
        let known = sig is Some && sig->0 != CONTENT_SIG_MISSING@;
        match row_of(state, coll, book) {
            Some(row) => put_row(
                state,
                StateV {
                    fingerprint: fp,
                    content_sig: if known {
                        sig->0
                    } else {
                        row.content_sig
                    },
                    source_path: path,
                    ..row
                },
            ),
            None => put_row(
                state,
                StateV {
                    collection: coll,
                    book,
                    fingerprint: fp,
                    content_sig: if known {
                        sig->0
                    } else {
                        Seq::empty()
                    },
                    chunker_ver: 0,
                    source_path: path,
                },
            ),
        }
    }
}

fn state_index(state: &Vec<StateRow>, coll: &str, book: &str) -> (r: Option<usize>)
    ensures
        match r {
            Some(i) => i < state@.len() && rows::first_where(
                rows::vals(state@),
                of_book(coll@, book@),
            ) == Some(i as int) && state@[i as int]@.collection == coll@ && state@[i as int]@.book
                == book@,
            None => rows::first_where(rows::vals(state@), of_book(coll@, book@)) is None,
        },
{
    let r = rows::find_where(
        state,
        |t: &StateRow| -> (b: bool)
            ensures
                b == (of_book(coll@, book@))(t@)
            { text::same_text(t.collection_id.as_str(), coll) && text::same_text(t.book_id.as_str(), book) },
        Ghost(of_book(coll@, book@)),
    );
    proof {
        rows::lemma_first_where(rows::vals(state@), of_book(coll@, book@));
    }
    r
}

fn put_state(state: &mut Vec<StateRow>, row: StateRow)
    ensures
        rows::vals(final(state)@) == put_row(rows::vals(old(state)@), row@),
{
    let ghost before = state@;
    match state_index(state, row.collection_id.as_str(), row.book_id.as_str()) {
        Some(i) => {
            state.set(i, row);
            assert(rows::vals(state@) =~= rows::vals(before).update(i as int, row@));
        },
        None => {
            state.push(row);
            assert(rows::vals(state@) =~= rows::vals(before).push(row@));
        },
    }
}

fn hit_of(row: &StateRow) -> (r: BookStateHit)
    ensures
        r@ == row@.hit(),
{
    BookStateHit {
        book_id: row.book_id.clone(),
        source_path: row.source_path.clone(),
        content_sig: row.content_sig.clone(),
        fingerprint: row.fingerprint.clone(),
        chunker_ver: row.chunker_ver,
    }
}

impl Db {
    /// Empty tables.
    pub fn open_in_memory() -> (r: Result<Self, DbError>)
        ensures
            r is Ok,
            r->Ok_0@ == (DbV {
                collections: Seq::empty(),
                conversations: Seq::empty(),
                messages: Seq::empty(),
                state: Seq::empty(),
                notebook: Seq::empty(),
                skips: Seq::empty(),
                rechunk: Seq::empty(),
            }),
    {
        let db = Db {
            collections: Vec::new(),
            conversations: Vec::new(),
            messages: Vec::new(),
            state: Vec::new(),
            notebook: Vec::new(),
            skips: Vec::new(),
            rechunk: Vec::new(),
        };
        assert(db@.collections =~= Seq::empty());
        assert(db@.conversations =~= Seq::empty());
        assert(db@.messages =~= Seq::empty());
        assert(db@.state =~= Seq::empty());
        assert(db@.notebook =~= Seq::empty());
        assert(db@.skips =~= Seq::empty());
        assert(db@.rechunk =~= Seq::empty());
        Ok(db)
    }

    /// Drops rows that carry the failure sentinel, as older tables may; says how many went.
    pub fn purge_sentinels(&mut self) -> (n: usize)
        ensures
            final(self)@ == (DbV {
                state: rows::keep(
                    old(self)@.state,
                    |r: StateV|
                        !(r.fingerprint == CONTENT_SIG_MISSING@ || r.content_sig
                            == CONTENT_SIG_MISSING@),
                ),
                ..old(self)@
            }),
            n == old(self)@.state.len() - final(self)@.state.len(),
    {
        let ghost p = |r: StateV|
            r.fingerprint == CONTENT_SIG_MISSING@ || r.content_sig == CONTENT_SIG_MISSING@;
        let n: usize = rows::drop_where(
            &mut self.state,
            |t: &StateRow| -> (b: bool)
                ensures
                    b == (t@.fingerprint == CONTENT_SIG_MISSING@ || t@.content_sig
                        == CONTENT_SIG_MISSING@)
                {
                    text::same_text(t.fingerprint.as_str(), CONTENT_SIG_MISSING) || text::same_text(
                        t.content_sig.as_str(),
                        CONTENT_SIG_MISSING,
                    )
                },
            Ghost(p),
        );
        proof {
            rows::lemma_keep_same(
                old(self)@.state,
                |x: StateV| !p(x),
                |r: StateV|
                    !(r.fingerprint == CONTENT_SIG_MISSING@ || r.content_sig
                        == CONTENT_SIG_MISSING@),
            );
        }
        n
    }

    /// The fingerprint recorded for a book.
    pub fn book_fingerprint(&self, collection_id: &str, book_id: &str) -> (r: Result<
        Option<String>,
        DbError,
    >)
        ensures
            r is Ok,
            text::opt_text(r->Ok_0) == (match row_of(self@.state, collection_id@, book_id@) {
                Some(row) => Some(row.fingerprint),
                None => None,
            }),
    {
        match state_index(&self.state, collection_id, book_id) {
            Some(i) => Ok(Some(self.state[i].fingerprint.clone())),
            None => Ok(None),
        }
    }

    /// The chunker version recorded for a book.
    pub fn book_chunker_ver(&self, collection_id: &str, book_id: &str) -> (r: Result<
        Option<i64>,
        DbError,
    >)
        ensures
            r is Ok,
            match row_of(self@.state, collection_id@, book_id@) {
                Some(row) => r->Ok_0 is Some && r->Ok_0->0 == row.chunker_ver,
                None => r->Ok_0 is None,
            },
    {
        match state_index(&self.state, collection_id, book_id) {
            Some(i) => Ok(Some(self.state[i].chunker_ver)),
            None => Ok(None),
        }
    }

    /// The first book of the collection with this fingerprint: a file that moved keeps its
    /// fingerprint, so its chunks can be re-pointed instead of embedded again. The failure sentinel
    /// and empty values never match.
    pub fn book_state_for_fingerprint(&self, collection_id: &str, fingerprint: &str) -> (r: Result<
        Option<BookStateHit>,
        DbError,
    >)
        ensures
            r is Ok,
            match row_with_fingerprint(self@.state, collection_id@, fingerprint@) {
                Some(row) => r->Ok_0 is Some && r->Ok_0->0@ == row.hit(),
                None => r->Ok_0 is None,
            },
    {
        if is_sig_sentinel(fingerprint) {
            return Ok(None);
        }
        let ghost p = with_fingerprint(collection_id@, fingerprint@);
        let found = rows::find_where(
            &self.state,
            |t: &StateRow| -> (b: bool)
                ensures
                    b == p(t@)
                {
                    text::same_text(t.collection_id.as_str(), collection_id) && text::same_text(
                        t.fingerprint.as_str(),
                        fingerprint,
                    )
                },
            Ghost(p),
        );
        match found {
            Some(i) => Ok(Some(hit_of(&self.state[i]))),
            None => Ok(None),
        }
    }

    /// The first book of the collection with this content signature, whatever its path and time.
    /// The failure sentinel and empty values never match.
    pub fn book_state_for_content(&self, collection_id: &str, content_sig: &str) -> (r: Result<
        Option<BookStateHit>,
        DbError,
    >)
        ensures
            r is Ok,
            match row_with_content(self@.state, collection_id@, content_sig@) {
                Some(row) => r->Ok_0 is Some && r->Ok_0->0@ == row.hit(),
                None => r->Ok_0 is None,
            },
    {
        if is_sig_sentinel(content_sig) {
            return Ok(None);
        }
        let ghost p = with_content(collection_id@, content_sig@);
        let found = rows::find_where(
            &self.state,
            |t: &StateRow| -> (b: bool)
                ensures
                    b == p(t@)
                {
                    text::same_text(t.collection_id.as_str(), collection_id) && text::same_text(
                        t.content_sig.as_str(),
                        content_sig,
                    )
                },
            Ghost(p),
        );
        match found {
            Some(i) => Ok(Some(hit_of(&self.state[i]))),
            None => Ok(None),
        }
    }

    /// Records a freshly indexed book, stamped with the current chunker version.
    pub fn set_book_state(
        &mut self,
        collection_id: &str,
        book_id: &str,
        fingerprint: &str,
        content_sig: &str,
        source_path: &str,
    ) -> (r: Result<(), DbError>)
        ensures
            r is Ok,
            final(self)@ == (DbV {
                state: recorded(
                    old(self)@.state,
                    StateV {
                        collection: collection_id@,
                        book: book_id@,
                        fingerprint: fingerprint@,
                        content_sig: content_sig@,
                        chunker_ver: CURRENT_CHUNKER_VER as int,
                        source_path: source_path@,
                    },
                ),
                ..old(self)@
            }),
    {
        self.set_book_state_ver(
            collection_id,
            book_id,
            fingerprint,
            content_sig,
            source_path,
            CURRENT_CHUNKER_VER,
        )
    }

    /// Records a book under an explicit chunker version. A sentinel fingerprint writes nothing: an
    /// unreadable file must leave no state, or the next one would match it and remap an unrelated
    /// book. A sentinel signature on a real fingerprint is stored as empty.
    pub fn set_book_state_ver(
        &mut self,
        collection_id: &str,
        book_id: &str,
        fingerprint: &str,
        content_sig: &str,
        source_path: &str,
        chunker_ver: i64,
    ) -> (r: Result<(), DbError>)
        ensures
            r is Ok,
            final(self)@ == (DbV {
                state: recorded(
                    old(self)@.state,
                    StateV {
                        collection: collection_id@,
                        book: book_id@,
                        fingerprint: fingerprint@,
                        content_sig: content_sig@,
                        chunker_ver: chunker_ver as int,
                        source_path: source_path@,
                    },
                ),
                ..old(self)@
            }),
    {
        if is_sig_sentinel(fingerprint) {
            return Ok(());
        }
        let sig = if text::same_text(content_sig, CONTENT_SIG_MISSING) {
            String::new()
        } else {
            content_sig.to_owned()
        };
        put_state(
            &mut self.state,
            StateRow {
                collection_id: collection_id.to_owned(),
                book_id: book_id.to_owned(),
                fingerprint: fingerprint.to_owned(),
                content_sig: sig,
                chunker_ver,
                source_path: source_path.to_owned(),
            },
        );
        Ok(())
    }

    /// Drops one book's row (used after re-pointing a moved book to a new id).
    pub fn delete_book_state(&mut self, collection_id: &str, book_id: &str) -> (r: Result<(), DbError>)
        ensures
            r is Ok,
            final(self)@ == (DbV {
                state: without_book(old(self)@.state, collection_id@, book_id@),
                ..old(self)@
            }),
    {
        let ghost p = of_book(collection_id@, book_id@);
        rows::drop_where(
            &mut self.state,
            |t: &StateRow| -> (b: bool)
                ensures
                    b == p(t@)
                {
                    text::same_text(t.collection_id.as_str(), collection_id) && text::same_text(
                        t.book_id.as_str(),
                        book_id,
                    )
                },
            Ghost(p),
        );
        Ok(())
    }

    /// Drops every row of the collection under a path, and the row of one book.
    pub fn clear_book_state_by_path(
        &mut self,
        collection_id: &str,
        source_path: &str,
        book_id: &str,
    ) -> (r: Result<usize, DbError>)
        ensures
            r is Ok,
            final(self)@ == (DbV {
                state: cleared(old(self)@.state, collection_id@, source_path@, book_id@),
                ..old(self)@
            }),
            r->Ok_0 == old(self)@.state.len() - final(self)@.state.len(),
    {
        let ghost p = at_path_or_book(collection_id@, source_path@, book_id@);
        let n: usize = rows::drop_where(
            &mut self.state,
            |t: &StateRow| -> (b: bool)
                ensures
                    b == p(t@)
                {
                    text::same_text(t.collection_id.as_str(), collection_id) && (text::same_text(
                        t.source_path.as_str(),
                        source_path,
                    ) || text::same_text(t.book_id.as_str(), book_id))
                },
            Ghost(p),
        );
        Ok(n)
    }

    /// Writes a book's fingerprint and path and keeps what else its row holds.
    pub fn set_book_fingerprint(
        &mut self,
        collection_id: &str,
        book_id: &str,
        fingerprint: &str,
        source_path: &str,
    ) -> (r: Result<(), DbError>)
        ensures
            r is Ok,
            final(self)@ == (DbV {
                state: fingerprinted(
                    old(self)@.state,
                    collection_id@,
                    book_id@,
                    fingerprint@,
                    source_path@,
                ),
                ..old(self)@
            }),
    {
        if is_sig_sentinel(fingerprint) {
            return Ok(());
        }
        let (sig, ver) = match state_index(&self.state, collection_id, book_id) {
            Some(i) => (self.state[i].content_sig.clone(), self.state[i].chunker_ver),
            None => (String::new(), 0i64),
        };
        put_state(
            &mut self.state,
            StateRow {
                collection_id: collection_id.to_owned(),
                book_id: book_id.to_owned(),
                fingerprint: fingerprint.to_owned(),
                content_sig: sig,
                chunker_ver: ver,
                source_path: source_path.to_owned(),
            },
        );
        Ok(())
    }

    /// Refreshes manifest state under an existing book id without touching its chunker version (the
    /// chunks were not rewritten). `None` keeps whatever signature the row has; a fresh row is
    /// legacy, which is true: its chunks predate the manifest.
    pub fn refresh_book_state(
        &mut self,
        collection_id: &str,
        book_id: &str,
        fingerprint: &str,
        content_sig: Option<&str>,
        source_path: &str,
    ) -> (r: Result<(), DbError>)
        ensures
            r is Ok,
            final(self)@ == (DbV {
                state: refreshed(
                    old(self)@.state,
                    collection_id@,
                    book_id@,
                    fingerprint@,
                    (match content_sig {
                        Some(s) => Some(s@),
                        None => None,
                    }),
                    source_path@,
                ),
                ..old(self)@
            }),
    {
        if is_sig_sentinel(fingerprint) {
            return Ok(());
        }
        let (kept, ver) = match state_index(&self.state, collection_id, book_id) {
            Some(i) => (self.state[i].content_sig.clone(), self.state[i].chunker_ver),
            None => (String::new(), 0i64),
        };
        let sig = match content_sig {
            Some(s) => if text::same_text(s, CONTENT_SIG_MISSING) {
                kept
            } else {
                s.to_owned()
            },
            None => kept,
        };
        put_state(
            &mut self.state,
            StateRow {
                collection_id: collection_id.to_owned(),
                book_id: book_id.to_owned(),
                fingerprint: fingerprint.to_owned(),
                content_sig: sig,
                chunker_ver: ver,
                source_path: source_path.to_owned(),
            },
        );
        Ok(())
    }
}


/// The entries of a store scan for a book.
pub open spec fn entry_of(book: Seq<char>) -> spec_fn((Seq<char>, Seq<char>)) -> bool {
    |e: (Seq<char>, Seq<char>)| e.0 == book
}

/// The path a store scan gives for a book: its first entry for the id.
pub open spec fn scanned_path(
    scan: Seq<(Seq<char>, Seq<char>)>,
    book: Seq<char>,
) -> Option<Seq<char>> {
    match rows::find_row(scan, entry_of(book)) {
        Some(e) => Some(e.1),
        None => None,
    }
}

/// The path a store scan of `(book id, source path)` entries gives for a book.
pub fn path_in_scan(scan: &Vec<(String, String)>, book_id: &str) -> (r: Option<String>)
    ensures
        text::opt_text(r) == scanned_path(rows::vals(scan@), book_id@),
{
    let ghost p = entry_of(book_id@);
    let found = rows::find_where(
        scan,
        |t: &(String, String)| -> (b: bool)
            ensures
                b == p(t@)
            { text::same_text(t.0.as_str(), book_id) },
        Ghost(p),
    );
    match found {
        Some(i) => Some(scan[i].1.clone()),
        None => None,
    }
}

/// A row of the collection without a path whose book the scan knows.
pub open spec fn fillable(
    coll: Seq<char>,
    scan: Seq<(Seq<char>, Seq<char>)>,
) -> spec_fn(StateV) -> bool {
    |r: StateV|
        r.collection == coll && r.source_path.len() == 0 && scanned_path(scan, r.book) is Some
}

/// The row with its path filled in from the scan, where it lacks one.
pub open spec fn filled(coll: Seq<char>, scan: Seq<(Seq<char>, Seq<char>)>, r: StateV) -> StateV {
    if (fillable(coll, scan))(r) {
        StateV { source_path: scanned_path(scan, r.book)->0, ..r }
    } else {
        r
    }
}

impl Db {
    /// Fills the path of rows that predate paths, from the store's `(book id, source path)` scan.
    /// Metadata only.
    pub fn backfill_source_paths(
        &mut self,
        collection_id: &str,
        paths_by_id: &Vec<(String, String)>,
    ) -> (r: Result<usize, DbError>)
        ensures
            r is Ok,
            final(self)@ == (DbV {
                state: Seq::new(
                    old(self)@.state.len(),
                    |i: int|
                        filled(collection_id@, rows::vals(paths_by_id@), old(self)@.state[i]),
                ),
                ..old(self)@
            }),
            r->Ok_0 == rows::keep(
                old(self)@.state,
                fillable(collection_id@, rows::vals(paths_by_id@)),
            ).len(),
    {
        let mut n: usize = 0;
        let ghost scan = rows::vals(paths_by_id@);
        let ghost p = fillable(collection_id@, scan);
        let ghost old_state = self@.state;
        let mut i: usize = 0;
        while i < self.state.len()
            invariant
                scan == rows::vals(paths_by_id@),
                p == fillable(collection_id@, scan),
                old_state == old(self)@.state,
                self@ == (DbV { state: self@.state, ..old(self)@ }),
                self@.state.len() == old_state.len(),
                n <= i <= self@.state.len(),
                forall|j: int|
                    0 <= j < i ==> #[trigger] self@.state[j] == filled(
                        collection_id@,
                        scan,
                        old_state[j],
                    ),
                forall|j: int| i <= j < old_state.len() ==> #[trigger] self@.state[j] == old_state[j],
                n == rows::keep(old_state.take(i as int), p).len(),
            decreases self@.state.len() - i,
        {
            let ghost before = self@;
            proof {
                assert(old_state.take(i as int + 1) =~= old_state.take(i as int).push(
                    old_state[i as int],
                ));
                rows::lemma_keep_push(old_state.take(i as int), p, old_state[i as int]);
                assert(self@.state[i as int] == old_state[i as int]);
                assert(self@.state[i as int] == self.state@[i as int]@);
            }
            let row = &self.state[i];
            if text::same_text(row.collection_id.as_str(), collection_id)
                && row.source_path.as_str().is_empty() {
                let found = path_in_scan(paths_by_id, row.book_id.as_str());
                if let Some(path) = found {
                    let new_row = StateRow {
                        collection_id: row.collection_id.clone(),
                        book_id: row.book_id.clone(),
                        fingerprint: row.fingerprint.clone(),
                        content_sig: row.content_sig.clone(),
                        chunker_ver: row.chunker_ver,
                        source_path: path,
                    };
                    self.state.set(i, new_row);
                    n = n + 1;
                    assert(self@.state =~= before.state.update(i as int, new_row@));
                }
            }
            i = i + 1;
        }
        assert(old_state.take(old_state.len() as int) =~= old_state);
        assert(self@.state =~= Seq::new(
            old_state.len(),
            |i: int| filled(collection_id@, scan, old_state[i]),
        ));
        Ok(n)
    }

    /// How many of a collection's books were chunked by an older scheme.
    pub fn legacy_chunker_count(&self, collection_id: &str) -> (r: Result<usize, DbError>)
        ensures
            r is Ok,
            r->Ok_0 == rows::keep(
                self@.state,
                |x: StateV| x.collection == collection_id@ && x.chunker_ver < CURRENT_CHUNKER_VER,
            ).len(),
    {
        let ghost p = |x: StateV|
            x.collection == collection_id@ && x.chunker_ver < CURRENT_CHUNKER_VER;
        let n: usize = rows::count_where(
            &self.state,
            |t: &StateRow| -> (b: bool)
                ensures
                    b == p(t@)
                {
                    text::same_text(t.collection_id.as_str(), collection_id) && t.chunker_ver
                        < CURRENT_CHUNKER_VER
                },
            Ghost(p),
        );
        Ok(n)
    }

    /// Forgets a collection's books, so the next run embeds everything again.
    pub fn clear_book_state(&mut self, collection_id: &str) -> (r: Result<usize, DbError>)
        ensures
            r is Ok,
            final(self)@ == (DbV {
                state: rows::keep(
                    old(self)@.state,
                    |x: StateV| !(of_collection(collection_id@))(x),
                ),
                ..old(self)@
            }),
            r->Ok_0 == old(self)@.state.len() - final(self)@.state.len(),
    {
        let ghost p = of_collection(collection_id@);
        let n: usize = rows::drop_where(
            &mut self.state,
            |t: &StateRow| -> (b: bool)
                ensures
                    b == p(t@)
                { text::same_text(t.collection_id.as_str(), collection_id) },
            Ghost(p),
        );
        Ok(n)
    }

    /// The `(book id, source path)` of every row of a collection, in table order.
    pub fn book_state_rows(&self, collection_id: &str) -> (r: Result<Vec<(String, String)>, DbError>)
        ensures
            r is Ok,
            rows::vals(r->Ok_0@) == rows::keep(self@.state, of_collection(collection_id@)).map_values(
                |x: StateV| (x.book, x.source_path),
            ),
    {
        let ghost p = of_collection(collection_id@);
        let ghost f = |x: StateV| (x.book, x.source_path);
        let mut out: Vec<(String, String)> = Vec::new();
        assert(rows::vals(out@) =~= rows::keep(self@.state.take(0), p).map_values(f));
        for i in 0..self.state.len()
            invariant
                p == of_collection(collection_id@),
                f == (|x: StateV| (x.book, x.source_path)),
                rows::vals(out@) == rows::keep(self@.state.take(i as int), p).map_values(f),
        {
            proof {
                let s = self@.state.take(i as int);
                assert(self@.state.take(i as int + 1) =~= s.push(self.state@[i as int]@));
                rows::lemma_keep_push(s, p, self.state@[i as int]@);
                assert(rows::keep(s, p).push(self.state@[i as int]@).map_values(f) =~= rows::keep(
                    s,
                    p,
                ).map_values(f).push(f(self.state@[i as int]@)));
            }
            let row = &self.state[i];
            if text::same_text(row.collection_id.as_str(), collection_id) {
                let e = (row.book_id.clone(), row.source_path.clone());
                proof {
                    rows::lemma_vals_push(out@, e);
                }
                out.push(e);
            }
        }
        assert(self@.state.take(self@.state.len() as int) =~= self@.state);
        Ok(out)
    }

    /// The book the collection has recorded under a path.
    pub fn book_id_for_source_path(&self, collection_id: &str, source_path: &str) -> (r: Result<
        Option<String>,
        DbError,
    >)
        ensures
            r is Ok,
            text::opt_text(r->Ok_0) == (match rows::find_row(
                self@.state,
                |x: StateV| x.collection == collection_id@ && x.source_path == source_path@,
            ) {
                Some(row) => Some(row.book),
                None => None,
            }),
    {
        let ghost p = |x: StateV| x.collection == collection_id@ && x.source_path == source_path@;
        let found = rows::find_where(
            &self.state,
            |t: &StateRow| -> (b: bool)
                ensures
                    b == p(t@)
                {
                    text::same_text(t.collection_id.as_str(), collection_id) && text::same_text(
                        t.source_path.as_str(),
                        source_path,
                    )
                },
            Ghost(p),
        );
        match found {
            Some(i) => Ok(Some(self.state[i].book_id.clone())),
            None => Ok(None),
        }
    }

    /// Whether the collection's next run is to re-chunk legacy books.
    pub fn rechunk_pending(&self, collection_id: &str) -> (r: Result<bool, DbError>)
        ensures
            r is Ok,
            r->Ok_0 == self@.rechunk.contains(collection_id@),
    {
        let ghost p = |x: Seq<char>| x == collection_id@;
        let found = rows::find_where(
            &self.rechunk,
            |t: &String| -> (b: bool)
                ensures
                    b == p(t@)
                { text::same_text(t.as_str(), collection_id) },
            Ghost(p),
        );
        proof {
            rows::lemma_first_where(self@.rechunk, p);
        }
        Ok(found.is_some())
    }

    /// Arms or clears the re-chunk flag of a collection.
    pub fn set_rechunk_pending(&mut self, collection_id: &str, on: bool) -> (r: Result<(), DbError>)
        ensures
            r is Ok,
            final(self)@ == (DbV { rechunk: final(self)@.rechunk, ..old(self)@ }),
            final(self)@.rechunk == (if on {
                rows::keep(old(self)@.rechunk, |x: Seq<char>| x != collection_id@).push(
                    collection_id@,
                )
            } else {
                rows::keep(old(self)@.rechunk, |x: Seq<char>| x != collection_id@)
            }),
    {
        let ghost p = |x: Seq<char>| x == collection_id@;
        rows::drop_where(
            &mut self.rechunk,
            |t: &String| -> (b: bool)
                ensures
                    b == p(t@)
                { text::same_text(t.as_str(), collection_id) },
            Ghost(p),
        );
        proof {
            rows::lemma_keep_same(
                old(self)@.rechunk,
                |x: Seq<char>| !p(x),
                |x: Seq<char>| x != collection_id@,
            );
        }
        if on {
            let s = collection_id.to_owned();
            proof {
                rows::lemma_vals_push(self.rechunk@, s);
            }
            self.rechunk.push(s);
        }
        Ok(())
    }
}

/// A path without the slashes at its end.
pub open spec fn without_end_slashes(s: Seq<char>) -> Seq<char>
    decreases s.len(),
{
    if s.len() > 0 && s.last() == '/' {
        without_end_slashes(s.drop_last())
    } else {
        s
    }
}

/// A path is a root or lies below it.
pub open spec fn under_root(path: Seq<char>, root: Seq<char>) -> bool {
    path == root || text::starts(path, without_end_slashes(root).push('/'))
}

/// A path is one of the roots or lies below one.
pub open spec fn under_roots(path: Seq<char>, roots: Seq<Seq<char>>) -> bool {
    exists|i: int| 0 <= i < roots.len() && under_root(path, #[trigger] roots[i])
}

/// Whether a path is a root or lies below it.
pub fn path_under_root(path: &str, root: &str) -> (r: bool)
    ensures
        r == under_root(path@, root@),
{
    if text::same_text(path, root) {
        return true;
    }
    let p = text::chars_of(path);
    let mut q = text::chars_of(root);
    while q.len() > 0 && q[q.len() - 1] == '/'
        invariant
            without_end_slashes(q@) == without_end_slashes(root@),
        decreases q@.len(),
    {
        q.pop();
    }
    q.push('/');
    text::starts_with(&p, &q)
}

/// Whether a path is one of the roots or lies below one.
pub fn path_under_roots(path: &str, roots: &[String]) -> (r: bool)
    ensures
        r == under_roots(path@, text::texts(roots@)),
{
    for i in 0..roots.len()
        invariant
            forall|j: int| 0 <= j < i ==> !under_root(path@, #[trigger] text::texts(roots@)[j]),
    {
        assert(text::texts(roots@)[i as int] == roots@[i as int]@);
        if path_under_root(path, roots[i].as_str()) {
            return true;
        }
    }
    false
}

/// The skip record of one path of one pipeline.
pub open spec fn of_skip(
    coll: Seq<char>,
    path: Seq<char>,
    pipeline: Seq<char>,
) -> spec_fn(SkipV) -> bool {
    |r: SkipV| r.collection == coll && r.source_path == path && r.pipeline == pipeline
}

/// The skip records of one path, of whatever pipeline.
pub open spec fn skips_at(coll: Seq<char>, path: Seq<char>) -> spec_fn(SkipV) -> bool {
    |r: SkipV| r.collection == coll && r.source_path == path
}

/// The skip records of a collection outside the given roots.
pub open spec fn stray_skip(coll: Seq<char>, roots: Seq<Seq<char>>) -> spec_fn(SkipV) -> bool {
    |r: SkipV| r.collection == coll && !under_roots(r.source_path, roots)
}

/// The table after a skip was recorded; a sentinel fingerprint records nothing.
pub open spec fn skip_recorded(skips: Seq<SkipV>, row: SkipV) -> Seq<SkipV> {
    if sentinel(row.fingerprint) {
        skips
    } else {
        match rows::first_where(skips, of_skip(row.collection, row.source_path, row.pipeline)) {
            Some(i) => skips.update(i, row),
            None => skips.push(row),
        }
    }
}

fn skip_index(skips: &Vec<SkipRow>, coll: &str, path: &str, pipeline: &str) -> (r: Option<usize>)
    ensures
        match r {
            Some(i) => i < skips@.len() && rows::first_where(
                rows::vals(skips@),
                of_skip(coll@, path@, pipeline@),
            ) == Some(i as int),
            None => rows::first_where(rows::vals(skips@), of_skip(coll@, path@, pipeline@)) is None,
        },
{
    let ghost p = of_skip(coll@, path@, pipeline@);
    rows::find_where(
        skips,
        |t: &SkipRow| -> (b: bool)
            ensures
                b == p(t@)
            {
                text::same_text(t.collection_id.as_str(), coll) && text::same_text(
                    t.source_path.as_str(),
                    path,
                ) && text::same_text(t.pipeline.as_str(), pipeline)
            },
        Ghost(p),
    )
}

impl Db {
    /// The `(fingerprint, capabilities)` recorded when this path was last skipped by this pipeline.
    pub fn skip_state_hit(&self, collection_id: &str, source_path: &str, pipeline: &str) -> (r: Result<
        Option<(String, String)>,
        DbError,
    >)
        ensures
            r is Ok,
            match rows::find_row(
                self@.skips,
                of_skip(collection_id@, source_path@, pipeline@),
            ) {
                Some(row) => r->Ok_0 is Some && r->Ok_0->0@ == (row.fingerprint, row.caps_ver),
                None => r->Ok_0 is None,
            },
    {
        match skip_index(&self.skips, collection_id, source_path, pipeline) {
            Some(i) => Ok(Some((self.skips[i].fingerprint.clone(), self.skips[i].caps_ver.clone()))),
            None => Ok(None),
        }
    }

    /// Records a skip. Refused when the fingerprint is the failure sentinel: an unreadable file
    /// leaves no state and is retried every run.
    pub fn upsert_skip(
        &mut self,
        collection_id: &str,
        source_path: &str,
        pipeline: &str,
        fingerprint: &str,
        reason: &str,
        caps_ver: &str,
    ) -> (r: Result<(), DbError>)
        ensures
            r is Ok,
            final(self)@ == (DbV {
                skips: skip_recorded(
                    old(self)@.skips,
                    SkipV {
                        collection: collection_id@,
                        source_path: source_path@,
                        pipeline: pipeline@,
                        fingerprint: fingerprint@,
                        reason: reason@,
                        caps_ver: caps_ver@,
                    },
                ),
                ..old(self)@
            }),
    {
        if is_sig_sentinel(fingerprint) {
            return Ok(());
        }
        let row = SkipRow {
            collection_id: collection_id.to_owned(),
            source_path: source_path.to_owned(),
            pipeline: pipeline.to_owned(),
            fingerprint: fingerprint.to_owned(),
            reason: reason.to_owned(),
            caps_ver: caps_ver.to_owned(),
        };
        let ghost before = self.skips@;
        match skip_index(&self.skips, collection_id, source_path, pipeline) {
            Some(i) => {
                self.skips.set(i, row);
                assert(rows::vals(self.skips@) =~= rows::vals(before).update(i as int, row@));
            },
            None => {
                self.skips.push(row);
                assert(rows::vals(self.skips@) =~= rows::vals(before).push(row@));
            },
        }
        Ok(())
    }

    /// A successful index of a file erases its skip records of every pipeline.
    pub fn erase_skips(&mut self, collection_id: &str, source_path: &str) -> (r: Result<(), DbError>)
        ensures
            r is Ok,
            final(self)@ == (DbV {
                skips: erased(old(self)@.skips, collection_id@, source_path@),
                ..old(self)@
            }),
    {
        let ghost p = skips_at(collection_id@, source_path@);
        rows::drop_where(
            &mut self.skips,
            |t: &SkipRow| -> (b: bool)
                ensures
                    b == p(t@)
                {
                    text::same_text(t.collection_id.as_str(), collection_id) && text::same_text(
                        t.source_path.as_str(),
                        source_path,
                    )
                },
            Ghost(p),
        );
        Ok(())
    }

    /// Drops the skip records whose path lies under none of the collection's source paths.
    pub fn gc_skips(&mut self, collection_id: &str, source_prefixes: &[String]) -> (r: Result<
        usize,
        DbError,
    >)
        ensures
            r is Ok,
            final(self)@ == (DbV {
                skips: swept(old(self)@.skips, collection_id@, text::texts(source_prefixes@)),
                ..old(self)@
            }),
            r->Ok_0 == old(self)@.skips.len() - final(self)@.skips.len(),
    {
        let ghost p = stray_skip(collection_id@, text::texts(source_prefixes@));
        let n: usize = rows::drop_where(
            &mut self.skips,
            |t: &SkipRow| -> (b: bool)
                ensures
                    b == p(t@)
                {
                    text::same_text(t.collection_id.as_str(), collection_id) && !path_under_roots(
                        t.source_path.as_str(),
                        source_prefixes,
                    )
                },
            Ghost(p),
        );
        Ok(n)
    }
}

} // verus!
