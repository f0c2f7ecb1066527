//! Collections, conversations and messages.
use vstd::prelude::*;
use crate::rows;
use crate::text;

verus! {

/// Copies a list of strings.
pub fn copy_strings(v: &[String]) -> (r: Vec<String>)
    ensures
        text::texts(r@) == text::texts(v@),
{
    let mut out: Vec<String> = Vec::new();
    for i in 0..v.len()
        invariant
            out@.len() == i,
            forall|j: int| 0 <= j < i ==> (#[trigger] out@[j])@ == v@[j]@,
    {
        out.push(v[i].clone());
    }
    assert(text::texts(out@) =~= text::texts(v@));
    out
}

/// Copies an optional string.
pub fn copy_opt(o: &Option<String>) -> (r: Option<String>)
    ensures
        text::opt_text(r) == text::opt_text(*o),
{
    match o {
        Some(s) => Some(s.clone()),
        None => None,
    }
}

/// A named index "by area of interest" over a set of source folders.
#[derive(Debug, PartialEq, Eq)]
pub struct Collection {
    pub id: String,
    pub name: String,
    /// Directory of the vector store backing this collection.
    pub db_path: String,
    /// Source folders/files indexed into this collection.
    pub source_paths: Vec<String>,
    /// Embedding model id used to build the index (must match at query time).
    pub embed_model: String,
}

/// What a [`Collection`] holds.
#[verifier::ext_equal]
pub struct CollectionV {
    pub id: Seq<char>,
    pub name: Seq<char>,
    pub db_path: Seq<char>,
    pub source_paths: Seq<Seq<char>>,
    pub embed_model: Seq<char>,
}

impl View for Collection {
    type V = CollectionV;

    open spec fn view(&self) -> CollectionV {
        CollectionV {
            id: self.id@,
            name: self.name@,
            db_path: self.db_path@,
            source_paths: text::texts(self.source_paths@),
            embed_model: self.embed_model@,
        }
    }
}

impl Clone for Collection {
    fn clone(&self) -> (r: Self)
        ensures
            r@ == self@,
    {
        Collection {
            id: self.id.clone(),
            name: self.name.clone(),
            db_path: self.db_path.clone(),
            source_paths: copy_strings(&self.source_paths),
            embed_model: self.embed_model.clone(),
        }
    }
}

/// Who authored a chat message.
#[derive(Debug, Clone, Copy, PartialEq, Eq, Structural)]
pub enum Role {
    User,
    Assistant,
}

impl Role {
    /// The stored name of the role.
    pub open spec fn name(self) -> Seq<char> {
        match self {
            Role::User => "user"@,
            Role::Assistant => "assistant"@,
        }
    }

    pub fn as_str(self) -> (r: &'static str)
        ensures
            r@ == self.name(),
    {
        match self {
            Role::User => "user",
            Role::Assistant => "assistant",
        }
    }

    /// The role with the given stored name; no other text names a role.
    pub fn from_str(s: &str) -> (r: Option<Self>)
        ensures
            match r {
                Some(role) => s@ == role.name(),
                None => s@ != Role::User.name() && s@ != Role::Assistant.name(),
            },
    {
        if text::same_text(s, "user") {
            Some(Role::User)
        } else if text::same_text(s, "assistant") {
            Some(Role::Assistant)
        } else {
            None
        }
    }
}

/// The two roles have different names, so a stored name is read back as the role it was written
/// for.
pub proof fn role_names_distinct(a: Role, b: Role)
    ensures
        a.name() == b.name() <==> a == b,
{
    reveal_strlit("user");
    reveal_strlit("assistant");
    assert("user"@.len() != "assistant"@.len());
}

/// A citation attached to an assistant message.
#[derive(Debug, PartialEq, Eq)]
pub struct Citation {
    /// Position in the answer's source list, from one.
    pub rank: usize,
    /// The rendered citation line.
    pub citation: String,
    pub source_path: String,
    pub page: Option<u32>,
    pub text: String,
}

/// What a [`Citation`] holds.
#[verifier::ext_equal]
pub struct CitationV {
    pub rank: nat,
    pub citation: Seq<char>,
    pub source_path: Seq<char>,
    pub page: Option<u32>,
    pub text: Seq<char>,
}

impl View for Citation {
    type V = CitationV;

    open spec fn view(&self) -> CitationV {
        CitationV {
            rank: self.rank as nat,
            citation: self.citation@,
            source_path: self.source_path@,
            page: self.page,
            text: self.text@,
        }
    }
}

impl Clone for Citation {
    fn clone(&self) -> (r: Self)
        ensures
            r@ == self@,
    {
        Citation {
            rank: self.rank,
            citation: self.citation.clone(),
            source_path: self.source_path.clone(),
            page: self.page,
            text: self.text.clone(),
        }
    }
}

/// Copies a list of citations.
pub fn copy_citations(v: &[Citation]) -> (r: Vec<Citation>)
    ensures
        rows::vals(r@) == rows::vals(v@),
{
    let mut out: Vec<Citation> = Vec::new();
    for i in 0..v.len()
        invariant
            out@.len() == i,
            forall|j: int| 0 <= j < i ==> (#[trigger] out@[j])@ == v@[j]@,
    {
        out.push(v[i].clone());
    }
    assert(rows::vals(out@) =~= rows::vals(v@));
    out
}

/// A chat message. Assistant turns carry the citations used to ground them.
#[derive(Debug, PartialEq, Eq)]
pub struct Message {
    pub id: String,
    pub conversation_id: String,
    pub role: Role,
    pub content: String,
    pub citations: Vec<Citation>,
    pub in_tokens: u32,
    pub out_tokens: u32,
}

/// What a [`Message`] holds.
#[verifier::ext_equal]
pub struct MessageV {
    pub id: Seq<char>,
    pub conversation_id: Seq<char>,
    pub role: Role,
    pub content: Seq<char>,
    pub citations: Seq<CitationV>,
    pub in_tokens: u32,
    pub out_tokens: u32,
}

impl View for Message {
    type V = MessageV;

    open spec fn view(&self) -> MessageV {
        MessageV {
            id: self.id@,
            conversation_id: self.conversation_id@,
            role: self.role,
            content: self.content@,
            citations: rows::vals(self.citations@),
            in_tokens: self.in_tokens,
            out_tokens: self.out_tokens,
        }
    }
}

impl Clone for Message {
    fn clone(&self) -> (r: Self)
        ensures
            r@ == self@,
    {
        Message {
            id: self.id.clone(),
            conversation_id: self.conversation_id.clone(),
            role: self.role,
            content: self.content.clone(),
            citations: copy_citations(&self.citations),
            in_tokens: self.in_tokens,
            out_tokens: self.out_tokens,
        }
    }
}

/// A conversation targeting one or more collections.
#[derive(Debug, PartialEq, Eq)]
pub struct Conversation {
    pub id: String,
    pub title: String,
    pub collection_ids: Vec<String>,
}

/// What a [`Conversation`] holds.
#[verifier::ext_equal]
pub struct ConversationV {
    pub id: Seq<char>,
    pub title: Seq<char>,
    pub collection_ids: Seq<Seq<char>>,
}

impl View for Conversation {
    type V = ConversationV;

    open spec fn view(&self) -> ConversationV {
        ConversationV {
            id: self.id@,
            title: self.title@,
            collection_ids: text::texts(self.collection_ids@),
        }
    }
}

impl Clone for Conversation {
    fn clone(&self) -> (r: Self)
        ensures
            r@ == self@,
    {
        Conversation {
            id: self.id.clone(),
            title: self.title.clone(),
            collection_ids: copy_strings(&self.collection_ids),
        }
    }
}

} // verus!
