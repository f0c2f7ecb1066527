//! Collections, notes, conversations and messages.
use vstd::prelude::*;
use crate::manifest;
use crate::manifest::{
    ConversationRow,
    ConversationRowV,
    Db,
    DbError,
    DbV,
    NoteRow,
    NoteV,
    StateRow,
    StateV,
};
use crate::order;
use crate::rank;
use crate::rows;
use crate::text;
use crate::types::{Collection, CollectionV, Conversation, ConversationV, Message, MessageV};

verus! {

// ---- collections -----------------------------------------------------------------------------

/// The collection with an identity.
pub open spec fn collection_with(id: Seq<char>) -> spec_fn(CollectionV) -> bool {
    |c: CollectionV| c.id == id
}

/// The collections with one put in, in place of the one with its identity.
pub open spec fn put_collection(v: Seq<CollectionV>, c: CollectionV) -> Seq<CollectionV> {
    match rows::first_where(v, collection_with(c.id)) {
        Some(i) => v.update(i, c),
        None => v.push(c),
    }
}

/// The collection whose name comes first.
pub open spec fn name_first() -> spec_fn(CollectionV, CollectionV) -> bool {
    |a: CollectionV, b: CollectionV| order::before(a.name, b.name)
}

/// The collections by name.
pub open spec fn by_name(v: Seq<CollectionV>) -> Seq<CollectionV> {
    rank::sorted(v, name_first())
}

/// The collections but that with an identity.
pub open spec fn other_collections(v: Seq<CollectionV>, id: Seq<char>) -> Seq<CollectionV> {
    rows::keep(v, |c: CollectionV| !(collection_with(id))(c))
}

/// The rows of the manifest but those of a collection.
pub open spec fn other_rows(v: Seq<StateV>, id: Seq<char>) -> Seq<StateV> {
    rows::keep(v, |r: StateV| !(manifest::of_collection(id))(r))
}

/// The note of a scope.
pub open spec fn note_of(scope: Seq<char>) -> spec_fn(NoteV) -> bool {
    |n: NoteV| n.scope == scope
}

/// The notes but that of a scope.
pub open spec fn other_notes(v: Seq<NoteV>, scope: Seq<char>) -> Seq<NoteV> {
    rows::keep(v, |n: NoteV| !(note_of(scope))(n))
}

/// The notes with one put in, in place of that of its scope.
pub open spec fn put_note(v: Seq<NoteV>, n: NoteV) -> Seq<NoteV> {
    match rows::first_where(v, note_of(n.scope)) {
        Some(i) => v.update(i, n),
        None => v.push(n),
    }
}

// ---- conversations and messages --------------------------------------------------------------

/// The conversation with an identity.
pub open spec fn conversation_with(id: Seq<char>) -> spec_fn(ConversationRowV) -> bool {
    |c: ConversationRowV| c.conversation.id == id
}

/// The later conversation.
pub open spec fn later() -> spec_fn(ConversationRowV, ConversationRowV) -> bool {
    |a: ConversationRowV, b: ConversationRowV| a.created_at > b.created_at
}

/// The conversations, the latest first.
pub open spec fn latest_first(v: Seq<ConversationRowV>) -> Seq<ConversationV> {
    let s = rank::sorted(v, later());
    Seq::new(s.len(), |i: int| s[i].conversation)
}

/// A conversation under a title, if it is the one with the identity.
pub open spec fn titled(c: ConversationRowV, id: Seq<char>, title: Seq<char>) -> ConversationRowV {
    if c.conversation.id == id {
        ConversationRowV { conversation: ConversationV { title, ..c.conversation }, ..c }
    } else {
        c
    }
}

/// The conversations but that with an identity.
pub open spec fn other_conversations(v: Seq<ConversationRowV>, id: Seq<char>) -> Seq<
    ConversationRowV,
> {
    rows::keep(v, |c: ConversationRowV| !(conversation_with(id))(c))
}

/// A message of a conversation.
pub open spec fn message_in(conversation: Seq<char>) -> spec_fn(MessageV) -> bool {
    |m: MessageV| m.conversation_id == conversation
}

/// The message with an identity.
pub open spec fn message_with(id: Seq<char>) -> spec_fn(MessageV) -> bool {
    |m: MessageV| m.id == id
}

/// The messages but those of a conversation.
pub open spec fn messages_elsewhere(v: Seq<MessageV>, conversation: Seq<char>) -> Seq<MessageV> {
    rows::keep(v, |m: MessageV| !(message_in(conversation))(m))
}

/// The messages but that with an identity.
pub open spec fn other_messages(v: Seq<MessageV>, id: Seq<char>) -> Seq<MessageV> {
    rows::keep(v, |m: MessageV| !(message_with(id))(m))
}

/// The messages of a conversation, in the order in which they were added.
pub open spec fn messages_of(v: Seq<MessageV>, conversation: Seq<char>) -> Seq<MessageV> {
    rows::keep(v, message_in(conversation))
}

/// There is a conversation with the identity.
pub open spec fn has_conversation(db: DbV, id: Seq<char>) -> bool {
    rows::first_where(db.conversations, conversation_with(id)) is Some
}

/// There is a message with the identity.
pub open spec fn has_message(db: DbV, id: Seq<char>) -> bool {
    rows::first_where(db.messages, message_with(id)) is Some
}

pub const DUPLICATE_CONVERSATION: &'static str = "UNIQUE constraint failed: conversations.id";

pub const DUPLICATE_MESSAGE: &'static str = "UNIQUE constraint failed: messages.id";

pub const UNKNOWN_CONVERSATION: &'static str = "FOREIGN KEY constraint failed";

impl Db {
    /// Puts a collection in, or replaces the one with its identity.
    pub fn upsert_collection(&mut self, c: &Collection) -> (r: Result<(), DbError>)
        ensures
            r is Ok,
            final(self)@ == (DbV {
                collections: put_collection(old(self)@.collections, c@),
                ..old(self)@
            }),
    {
        let ghost p = collection_with(c@.id);
        let ghost before = self@.collections;
        let found: Option<usize> = rows::find_where(
            &self.collections,
            |x: &Collection| -> (b: bool)
                ensures
                    b == p(x@)
                { text::same_text(x.id.as_str(), c.id.as_str()) },
            Ghost(p),
        );
        match found {
            Some(i) => {
                self.collections.set(i, c.clone());
                assert(rows::vals(self.collections@) =~= before.update(i as int, c@));
            },
            None => {
                self.collections.push(c.clone());
                assert(rows::vals(self.collections@) =~= before.push(c@));
            },
        }
        assert(self@ =~= (DbV {
            collections: put_collection(before, c@),
            ..old(self)@
        }));
        Ok(())
    }

    /// The collections by name.
    pub fn list_collections(&self) -> (r: Result<Vec<Collection>, DbError>)
        ensures
            r is Ok,
            rows::vals(r->Ok_0@) == by_name(self@.collections),
    {
        let ghost all = self@.collections;
        let mut out: Vec<Collection> = Vec::new();
        assert(rows::vals(out@) =~= by_name(all.take(0)));
        for i in 0..self.collections.len()
            invariant
                all == rows::vals(self.collections@),
                rows::vals(out@) == by_name(all.take(i as int)),
        {
            proof {
                assert(all.take(i + 1).drop_last() =~= all.take(i as int));
                assert(all.take(i + 1).last() == self.collections@[i as int]@);
            }
            let f = |a: &Collection, b: &Collection| -> (r: bool)
                ensures
                    r == name_first()(a@, b@)
                { order::comes_before(a.name.as_str(), b.name.as_str()) };
            rank::insert_by(&mut out, self.collections[i].clone(), &f, Ghost(name_first()));
        }
        assert(all.take(all.len() as int) =~= all);
        Ok(out)
    }

    /// Deletes a collection with its rows in the manifest, so that it would be indexed anew, and
    /// with its note.
    pub fn delete_collection(&mut self, id: &str) -> (r: Result<(), DbError>)
        ensures
            r is Ok,
            final(self)@ == (DbV {
                collections: other_collections(old(self)@.collections, id@),
                state: other_rows(old(self)@.state, id@),
                notebook: other_notes(old(self)@.notebook, id@),
                ..old(self)@
            }),
    {
        let ghost p = collection_with(id@);
        let ghost q = manifest::of_collection(id@);
        let ghost n = note_of(id@);
        let _: usize = rows::drop_where(
            &mut self.collections,
            |x: &Collection| -> (b: bool)
                ensures
                    b == p(x@)
                { text::same_text(x.id.as_str(), id) },
            Ghost(p),
        );
        let _: usize = rows::drop_where(
            &mut self.state,
            |x: &StateRow| -> (b: bool)
                ensures
                    b == q(x@)
                { text::same_text(x.collection_id.as_str(), id) },
            Ghost(q),
        );
        let _: usize = rows::drop_where(
            &mut self.notebook,
            |x: &NoteRow| -> (b: bool)
                ensures
                    b == n(x@)
                { text::same_text(x.scope.as_str(), id) },
            Ghost(n),
        );
        proof {
            rows::lemma_keep_same(
                old(self)@.collections,
                |x: CollectionV| !p(x),
                |x: CollectionV| !(collection_with(id@))(x),
            );
            rows::lemma_keep_same(
                old(self)@.state,
                |x: StateV| !q(x),
                |x: StateV| !(manifest::of_collection(id@))(x),
            );
            rows::lemma_keep_same(
                old(self)@.notebook,
                |x: NoteV| !n(x),
                |x: NoteV| !(note_of(id@))(x),
            );
            assert(self@ =~= (DbV {
                collections: other_collections(old(self)@.collections, id@),
                state: other_rows(old(self)@.state, id@),
                notebook: other_notes(old(self)@.notebook, id@),
                ..old(self)@
            }));
        }
        Ok(())
    }

    fn find_note(&self, scope: &str) -> (r: Option<usize>)
        ensures
            match r {
                Some(i) => i < self.notebook@.len() && rows::first_where(
                    self@.notebook,
                    note_of(scope@),
                ) == Some(i as int),
                None => rows::first_where(self@.notebook, note_of(scope@)) is None,
            },
    {
        rows::find_where(
            &self.notebook,
            |x: &NoteRow| -> (b: bool)
                ensures
                    b == note_of(scope@)(x@)
                { text::same_text(x.scope.as_str(), scope) },
            Ghost(note_of(scope@)),
        )
    }

    /// The user's note for a scope, which is `global` or a collection.
    pub fn get_note(&self, scope: &str) -> (r: Result<Option<String>, DbError>)
        ensures
            r is Ok,
            text::opt_text(r->Ok_0) == (match rows::find_row(self@.notebook, note_of(scope@)) {
                Some(n) => Some(n.content),
                None => None,
            }),
    {
        match self.find_note(scope) {
            Some(i) => Ok(Some(self.notebook[i].content.clone())),
            None => Ok(None),
        }
    }

    /// The note with the time of its last edit.
    pub fn get_note_info(&self, scope: &str) -> (r: Result<Option<(String, i64)>, DbError>)
        ensures
            r is Ok,
            match rows::find_row(self@.notebook, note_of(scope@)) {
                Some(n) => r->Ok_0 is Some && (r->Ok_0->0).0@ == n.content && (r->Ok_0->0).1
                    == n.updated_at,
                None => r->Ok_0 is None,
            },
    {
        match self.find_note(scope) {
            Some(i) => Ok(Some((self.notebook[i].content.clone(), self.notebook[i].updated_at))),
            None => Ok(None),
        }
    }

    /// Writes the user's note for a scope at a time. Only the user does.
    pub fn set_note(&mut self, scope: &str, content: &str, now: i64) -> (r: Result<(), DbError>)
        ensures
            r is Ok,
            final(self)@ == (DbV {
                notebook: put_note(
                    old(self)@.notebook,
                    NoteV { scope: scope@, content: content@, updated_at: now },
                ),
                ..old(self)@
            }),
    {
        let ghost before = self@.notebook;
        let n = NoteRow { scope: scope.to_owned(), content: content.to_owned(), updated_at: now };
        let ghost nv = n@;
        match self.find_note(scope) {
            Some(i) => {
                self.notebook.set(i, n);
                assert(rows::vals(self.notebook@) =~= before.update(i as int, nv));
            },
            None => {
                self.notebook.push(n);
                assert(rows::vals(self.notebook@) =~= before.push(nv));
            },
        }
        assert(self@ =~= (DbV { notebook: put_note(before, nv), ..old(self)@ }));
        Ok(())
    }

    fn find_conversation(&self, id: &str) -> (r: Option<usize>)
        ensures
            match r {
                Some(i) => i < self.conversations@.len() && rows::first_where(
                    self@.conversations,
                    conversation_with(id@),
                ) == Some(i as int),
                None => rows::first_where(self@.conversations, conversation_with(id@)) is None,
            },
    {
        rows::find_where(
            &self.conversations,
            |x: &ConversationRow| -> (b: bool)
                ensures
                    b == conversation_with(id@)(x@)
                { text::same_text(x.conversation.id.as_str(), id) },
            Ghost(conversation_with(id@)),
        )
    }

    /// Starts a conversation at a time. Its identity must be new.
    pub fn create_conversation(&mut self, c: &Conversation, now: i64) -> (r: Result<(), DbError>)
        ensures
            has_conversation(old(self)@, c@.id) ==> {
                &&& r is Err
                &&& r->Err_0 is Sqlite
                &&& r->Err_0->Sqlite_0@ == DUPLICATE_CONVERSATION@
                &&& final(self)@ == old(self)@
            },
            !has_conversation(old(self)@, c@.id) ==> {
                &&& r is Ok
                &&& final(self)@ == (DbV {
                    conversations: old(self)@.conversations.push(
                        ConversationRowV { conversation: c@, created_at: now },
                    ),
                    ..old(self)@
                })
            },
    {
        if self.find_conversation(c.id.as_str()).is_some() {
            return Err(DbError::Sqlite(DUPLICATE_CONVERSATION.to_owned()));
        }
        let row = ConversationRow { conversation: c.clone(), created_at: now };
        proof {
            rows::lemma_vals_push(self.conversations@, row);
        }
        self.conversations.push(row);
        assert(self@ =~= (DbV {
            conversations: old(self)@.conversations.push(
                ConversationRowV { conversation: c@, created_at: now },
            ),
            ..old(self)@
        }));
        Ok(())
    }

    /// The conversations, the latest first.
    pub fn list_conversations(&self) -> (r: Result<Vec<Conversation>, DbError>)
        ensures
            r is Ok,
            rows::vals(r->Ok_0@) == latest_first(self@.conversations),
    {
        let ghost all = self@.conversations;
        let mut sorted: Vec<ConversationRow> = Vec::new();
        assert(rows::vals(sorted@) =~= rank::sorted(all.take(0), later()));
        for i in 0..self.conversations.len()
            invariant
                all == rows::vals(self.conversations@),
                rows::vals(sorted@) == rank::sorted(all.take(i as int), later()),
        {
            let c = &self.conversations[i];
            proof {
                assert(all.take(i + 1).drop_last() =~= all.take(i as int));
                assert(all.take(i + 1).last() == c@);
            }
            let f = |a: &ConversationRow, b: &ConversationRow| -> (r: bool)
                ensures
                    r == later()(a@, b@)
                { a.created_at > b.created_at };
            let copy = ConversationRow {
                conversation: c.conversation.clone(),
                created_at: c.created_at,
            };
            rank::insert_by(&mut sorted, copy, &f, Ghost(later()));
        }
        assert(all.take(all.len() as int) =~= all);
        let ghost s = rank::sorted(all, later());
        let mut out: Vec<Conversation> = Vec::new();
        for i in 0..sorted.len()
            invariant
                s == rows::vals(sorted@),
                out@.len() == i,
                forall|k: int| 0 <= k < i ==> (#[trigger] out@[k])@ == s[k].conversation,
        {
            assert(s[i as int] == sorted@[i as int]@);
            out.push(sorted[i].conversation.clone());
        }
        assert(rows::vals(out@) =~= latest_first(all));
        Ok(out)
    }

    /// Gives a conversation another title; one that is not there is left alone.
    pub fn rename_conversation(&mut self, id: &str, title: &str) -> (r: Result<(), DbError>)
        ensures
            r is Ok,
            final(self)@ == (DbV {
                conversations: Seq::new(
                    old(self)@.conversations.len(),
                    |i: int| titled(old(self)@.conversations[i], id@, title@),
                ),
                ..old(self)@
            }),
    {
        let ghost before = self@.conversations;
        let mut out: Vec<ConversationRow> = Vec::new();
        for i in 0..self.conversations.len()
            invariant
                before == rows::vals(self.conversations@),
                out@.len() == i,
                forall|k: int| 0 <= k < i ==> (#[trigger] out@[k])@ == titled(before[k], id@, title@),
        {
            let c = &self.conversations[i];
            assert(before[i as int] == c@);
            let mut conversation = c.conversation.clone();
            if text::same_text(conversation.id.as_str(), id) {
                conversation.title = title.to_owned();
            }
            let row = ConversationRow { conversation, created_at: c.created_at };
            assert(row@ =~= titled(c@, id@, title@));
            out.push(row);
        }
        self.conversations = out;
        assert(self@.conversations =~= Seq::new(
            before.len(),
            |i: int| titled(before[i], id@, title@),
        ));
        assert(self@ =~= (DbV {
            conversations: Seq::new(
                old(self)@.conversations.len(),
                |i: int| titled(old(self)@.conversations[i], id@, title@),
            ),
            ..old(self)@
        }));
        Ok(())
    }

    /// Deletes a conversation with its messages.
    pub fn delete_conversation(&mut self, id: &str) -> (r: Result<(), DbError>)
        ensures
            r is Ok,
            final(self)@ == (if has_conversation(old(self)@, id@) {
                DbV {
                    conversations: other_conversations(old(self)@.conversations, id@),
                    messages: messages_elsewhere(old(self)@.messages, id@),
                    ..old(self)@
                }
            } else {
                old(self)@
            }),
    {
        if self.find_conversation(id).is_none() {
            return Ok(());
        }
        let ghost p = conversation_with(id@);
        let ghost q = message_in(id@);
        let _: usize = rows::drop_where(
            &mut self.conversations,
            |x: &ConversationRow| -> (b: bool)
                ensures
                    b == p(x@)
                { text::same_text(x.conversation.id.as_str(), id) },
            Ghost(p),
        );
        let _: usize = rows::drop_where(
            &mut self.messages,
            |x: &Message| -> (b: bool)
                ensures
                    b == q(x@)
                { text::same_text(x.conversation_id.as_str(), id) },
            Ghost(q),
        );
        proof {
            rows::lemma_keep_same(
                old(self)@.conversations,
                |x: ConversationRowV| !p(x),
                |x: ConversationRowV| !(conversation_with(id@))(x),
            );
            rows::lemma_keep_same(
                old(self)@.messages,
                |x: MessageV| !q(x),
                |x: MessageV| !(message_in(id@))(x),
            );
            assert(self@ =~= (DbV {
                conversations: other_conversations(old(self)@.conversations, id@),
                messages: messages_elsewhere(old(self)@.messages, id@),
                ..old(self)@
            }));
        }
        Ok(())
    }

    /// Deletes a message.
    pub fn delete_message(&mut self, id: &str) -> (r: Result<(), DbError>)
        ensures
            r is Ok,
            final(self)@ == (DbV {
                messages: other_messages(old(self)@.messages, id@),
                ..old(self)@
            }),
    {
        let ghost p = message_with(id@);
        let _: usize = rows::drop_where(
            &mut self.messages,
            |x: &Message| -> (b: bool)
                ensures
                    b == p(x@)
                { text::same_text(x.id.as_str(), id) },
            Ghost(p),
        );
        proof {
            rows::lemma_keep_same(
                old(self)@.messages,
                |x: MessageV| !p(x),
                |x: MessageV| !(message_with(id@))(x),
            );
            assert(self@ =~= (DbV {
                messages: other_messages(old(self)@.messages, id@),
                ..old(self)@
            }));
        }
        Ok(())
    }

    fn find_message(&self, id: &str) -> (r: Option<usize>)
        ensures
            match r {
                Some(i) => i < self.messages@.len() && rows::first_where(
                    self@.messages,
                    message_with(id@),
                ) == Some(i as int),
                None => rows::first_where(self@.messages, message_with(id@)) is None,
            },
    {
        rows::find_where(
            &self.messages,
            |x: &Message| -> (b: bool)
                ensures
                    b == message_with(id@)(x@)
                { text::same_text(x.id.as_str(), id) },
            Ghost(message_with(id@)),
        )
    }

    /// Adds a message at the end of its conversation. Its identity must be new and its conversation
    /// there.
    pub fn add_message(&mut self, m: &Message) -> (r: Result<(), DbError>)
        ensures
            has_message(old(self)@, m@.id) ==> {
                &&& r is Err
                &&& r->Err_0 is Sqlite
                &&& r->Err_0->Sqlite_0@ == DUPLICATE_MESSAGE@
                &&& final(self)@ == old(self)@
            },
            !has_message(old(self)@, m@.id) && !has_conversation(
                old(self)@,
                m@.conversation_id,
            ) ==> {
                &&& r is Err
                &&& r->Err_0 is Sqlite
                &&& r->Err_0->Sqlite_0@ == UNKNOWN_CONVERSATION@
                &&& final(self)@ == old(self)@
            },
            !has_message(old(self)@, m@.id) && has_conversation(old(self)@, m@.conversation_id)
                ==> {
                &&& r is Ok
                &&& final(self)@ == (DbV { messages: old(self)@.messages.push(m@), ..old(self)@ })
            },
    {
        if self.find_message(m.id.as_str()).is_some() {
            return Err(DbError::Sqlite(DUPLICATE_MESSAGE.to_owned()));
        }
        if self.find_conversation(m.conversation_id.as_str()).is_none() {
            return Err(DbError::Sqlite(UNKNOWN_CONVERSATION.to_owned()));
        }
        let x = m.clone();
        proof {
            rows::lemma_vals_push(self.messages@, x);
        }
        self.messages.push(x);
        assert(self@ =~= (DbV { messages: old(self)@.messages.push(m@), ..old(self)@ }));
        Ok(())
    }

    /// The messages of a conversation, in the order in which they were added.
    pub fn list_messages(&self, conversation_id: &str) -> (r: Result<Vec<Message>, DbError>)
        ensures
            r is Ok,
            rows::vals(r->Ok_0@) == messages_of(self@.messages, conversation_id@),
    {
        let ghost all = self@.messages;
        let ghost p = message_in(conversation_id@);
        let mut out: Vec<Message> = Vec::new();
        assert(rows::vals(out@) =~= rows::keep(all.take(0), p));
        for i in 0..self.messages.len()
            invariant
                all == rows::vals(self.messages@),
                p == message_in(conversation_id@),
                rows::vals(out@) == rows::keep(all.take(i as int), p),
        {
            let m = &self.messages[i];
            proof {
                assert(all.take(i + 1) =~= all.take(i as int).push(m@));
                rows::lemma_keep_push(all.take(i as int), p, m@);
            }
            if text::same_text(m.conversation_id.as_str(), conversation_id) {
                let x = m.clone();
                proof {
                    rows::lemma_vals_push(out@, x);
                }
                out.push(x);
            }
        }
        assert(all.take(all.len() as int) =~= all);
        Ok(out)
    }
}

// ---- laws ------------------------------------------------------------------------------------

/// A collection put in twice is there once, as it was put in last.
pub proof fn upsert_replaces(v: Seq<CollectionV>, a: CollectionV, b: CollectionV)
    requires
        a.id == b.id,
    ensures
        put_collection(put_collection(v, a), b) == put_collection(v, b),
        rows::find_row(put_collection(v, a), collection_with(a.id)) == Some(a),
{
    let p = collection_with(a.id);
    rows::lemma_first_where(v, p);
    let w = put_collection(v, a);
    match rows::first_where(v, p) {
        Some(i) => {
            rows::lemma_first_where_is(w, p, i);
            assert(w.update(i, b) =~= v.update(i, b));
        },
        None => {
            rows::lemma_first_where_is(w, p, v.len() as int);
            assert(w.update(v.len() as int, b) =~= v.push(b));
        },
    }
}

/// A note reads back as it was written, and no other note changes.
pub proof fn note_reads_back(v: Seq<NoteV>, n: NoteV, other: Seq<char>)
    ensures
        rows::find_row(put_note(v, n), note_of(n.scope)) == Some(n),
        other != n.scope ==> rows::find_row(put_note(v, n), note_of(other)) == rows::find_row(
            v,
            note_of(other),
        ),
{
    let p = note_of(n.scope);
    let q = note_of(other);
    let w = put_note(v, n);
    rows::lemma_first_where(v, p);
    rows::lemma_first_where(v, q);
    match rows::first_where(v, p) {
        Some(i) => {
            rows::lemma_first_where_is(w, p, i);
        },
        None => {
            rows::lemma_first_where_is(w, p, v.len() as int);
        },
    }
    if other != n.scope {
        match rows::first_where(v, q) {
            Some(j) => {
                assert forall|k: int| 0 <= k < j implies !q(#[trigger] w[k]) by {
                    assert(!q(v[k]));
                }
                rows::lemma_first_where_is(w, q, j);
            },
            None => {
                assert forall|k: int| 0 <= k < w.len() implies !q(#[trigger] w[k]) by {
                    if k < v.len() {
                        assert(!q(v[k]));
                    }
                }
                rows::lemma_first_where_none(w, q);
            },
        }
    }
}

/// Nothing of a deleted collection is left: neither the collection, nor a row of the manifest, nor
/// its note.
pub proof fn deleted_collection_leaves_nothing(
    collections: Seq<CollectionV>,
    state: Seq<StateV>,
    notes: Seq<NoteV>,
    id: Seq<char>,
)
    ensures
        rows::find_row(other_collections(collections, id), collection_with(id)) is None,
        rows::find_row(other_rows(state, id), manifest::of_collection(id)) is None,
        rows::find_row(other_notes(notes, id), note_of(id)) is None,
{
    lemma_none_left(collections, collection_with(id));
    lemma_none_left(state, manifest::of_collection(id));
    lemma_none_left(notes, note_of(id));
    rows::lemma_keep_same(
        collections,
        |x: CollectionV| !(collection_with(id))(x),
        gone(collection_with(id)),
    );
    rows::lemma_keep_same(
        state,
        |x: StateV| !(manifest::of_collection(id))(x),
        gone(manifest::of_collection(id)),
    );
    rows::lemma_keep_same(notes, |x: NoteV| !(note_of(id))(x), gone(note_of(id)));
}

/// What is not so.
pub open spec fn gone<A>(p: spec_fn(A) -> bool) -> spec_fn(A) -> bool {
    |x: A| !p(x)
}

proof fn lemma_none_left<A>(v: Seq<A>, p: spec_fn(A) -> bool)
    ensures
        rows::find_row(rows::keep(v, gone(p)), p) is None,
{
    let kept = rows::keep(v, gone(p));
    rows::lemma_keep(v, gone(p));
    assert forall|k: int| 0 <= k < kept.len() implies !p(#[trigger] kept[k]) by {
        assert(gone(p)(kept[k]));
    }
    rows::lemma_first_where_none(kept, p);
}

/// The messages of a deleted conversation go with it.
pub proof fn deleted_conversation_takes_its_messages(v: Seq<MessageV>, conversation: Seq<char>)
    ensures
        messages_of(messages_elsewhere(v, conversation), conversation).len() == 0,
{
    let p = message_in(conversation);
    rows::lemma_keep_same(v, |m: MessageV| !(message_in(conversation))(m), gone(p));
    let kept = rows::keep(v, gone(p));
    rows::lemma_keep(v, gone(p));
    rows::lemma_keep(kept, p);
    let m = rows::keep(kept, p);
    if m.len() > 0 {
        assert(p(m[0]));
        assert(kept.contains(m[0]));
        let i = choose|i: int| 0 <= i < kept.len() && kept[i] == m[0];
        assert(gone(p)(kept[i]));
    }
}

/// A message that is added is the last of its conversation, behind those that were there.
pub proof fn messages_keep_their_order(v: Seq<MessageV>, m: MessageV)
    ensures
        messages_of(v.push(m), m.conversation_id) == messages_of(v, m.conversation_id).push(m),
{
    rows::lemma_keep_push(v, message_in(m.conversation_id), m);
}

} // verus!
