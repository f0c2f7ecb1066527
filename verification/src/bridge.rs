//! What the app decides between the window and the library: which client answers, what a question
//! is answered from, and what is said.
use vstd::prelude::*;
use crate::convert;
use crate::journal;
use crate::manifest::{Db, DbV};
use crate::order;
use crate::prompt::{HistoryTurn, TurnV};
use crate::query::{ResultV, SearchResult};
use crate::rows;
use crate::settings;
use crate::settings::Settings;
use crate::stream::Usage;
use crate::text;
use crate::types::{Citation, CitationV, Collection, CollectionV, Message, MessageV, Role};

verus! {

// ---- clients ---------------------------------------------------------------------------------

/// The address of a provider that speaks the chat-completions API.
pub open spec fn compat_base(provider: Seq<char>) -> Option<Seq<char>> {
    if provider == "openai"@ {
        Some("https://api.openai.com/v1"@)
    } else if provider == "gemini"@ {
        Some("https://generativelanguage.googleapis.com/v1beta/openai"@)
    } else if provider == "fireworks"@ {
        Some("https://api.fireworks.ai/inference/v1"@)
    } else if provider == "ollama_cloud"@ {
        Some("https://ollama.com/v1"@)
    } else {
        None
    }
}

/// The address of a provider that speaks the chat-completions API.
pub fn openai_compat_base(provider: &str) -> (r: Option<&'static str>)
    ensures
        match r {
            Some(b) => compat_base(provider@) == Some(b@),
            None => compat_base(provider@) is None,
        },
{
    if text::same_text(provider, "openai") {
        Some("https://api.openai.com/v1")
    } else if text::same_text(provider, "gemini") {
        Some("https://generativelanguage.googleapis.com/v1beta/openai")
    } else if text::same_text(provider, "fireworks") {
        Some("https://api.fireworks.ai/inference/v1")
    } else if text::same_text(provider, "ollama_cloud") {
        Some("https://ollama.com/v1")
    } else {
        None
    }
}

/// A client for answers.
#[derive(Debug, PartialEq, Eq)]
pub enum Client {
    /// Ollama at a host.
    Ollama(String),
    /// Anthropic with a key.
    Anthropic(String),
    /// A chat-completions provider at an address with a key.
    OpenAiCompat(String, String),
}

/// What a [`Client`] holds.
pub enum ClientV {
    Ollama(Seq<char>),
    Anthropic(Seq<char>),
    OpenAiCompat(Seq<char>, Seq<char>),
}

impl View for Client {
    type V = ClientV;

    open spec fn view(&self) -> ClientV {
        match self {
            Client::Ollama(h) => ClientV::Ollama(h@),
            Client::Anthropic(k) => ClientV::Anthropic(k@),
            Client::OpenAiCompat(b, k) => ClientV::OpenAiCompat(b@, k@),
        }
    }
}

/// The client that settings ask for; what is no known cloud provider is the local one.
pub open spec fn client_for(s: Settings) -> ClientV {
    let p = s.llm_provider@;
    let key = settings::creds_of(rows::vals(s.providers@), p).api_key;
    if p == "anthropic"@ {
        ClientV::Anthropic(key)
    } else {
        match compat_base(p) {
            Some(b) => ClientV::OpenAiCompat(b, key),
            None => ClientV::Ollama(s.ollama_host@),
        }
    }
}

/// The client that settings ask for.
pub fn build_llm(s: &Settings) -> (r: Client)
    ensures
        r@ == client_for(*s),
{
    let p = s.llm_provider.as_str();
    if text::same_text(p, "anthropic") {
        return Client::Anthropic(s.creds(p).api_key);
    }
    match openai_compat_base(p) {
        Some(b) => Client::OpenAiCompat(b.to_owned(), s.creds(p).api_key),
        None => Client::Ollama(s.ollama_host.clone()),
    }
}

/// The directory of the reranker: the quantized one where it is there.
pub fn reranker_dir(models: &str, quantized: bool) -> (r: String)
    ensures
        r@ == convert::path_under(
            models@,
            if quantized {
                "bge-reranker-v2-m3-int8"@
            } else {
                "bge-reranker-v2-m3"@
            },
        ),
{
    if quantized {
        convert::join_path(models, "bge-reranker-v2-m3-int8")
    } else {
        convert::join_path(models, "bge-reranker-v2-m3")
    }
}

// ---- readiness -------------------------------------------------------------------------------

/// Whether answers can be had, and what is said of it.
#[derive(Debug, PartialEq, Eq)]
pub struct LlmStatus {
    pub ok: bool,
    pub message: String,
}

/// What a [`LlmStatus`] holds.
#[verifier::ext_equal]
pub struct StatusV {
    pub ok: bool,
    pub message: Seq<char>,
}

impl View for LlmStatus {
    type V = StatusV;

    open spec fn view(&self) -> StatusV {
        StatusV { ok: self.ok, message: self.message@ }
    }
}

/// Whether answers can be had, as far as settings tell. `None` means that the provider must be
/// asked for its models.
pub open spec fn status_by_settings(s: Settings) -> Option<StatusV> {
    let p = s.llm_provider@;
    if p == "ollama"@ {
        None
    } else if text::trim(settings::creds_of(rows::vals(s.providers@), p).api_key).len() == 0 {
        Some(StatusV { ok: false, message: "No "@ + p + " API key — add one in Settings"@ })
    } else if p == "anthropic"@ {
        Some(StatusV { ok: true, message: "Anthropic key set"@ })
    } else {
        None
    }
}

/// Whether answers can be had, as far as settings tell.
pub fn check_settings(s: &Settings) -> (r: Option<LlmStatus>)
    ensures
        match r {
            Some(x) => status_by_settings(*s) == Some(x@),
            None => status_by_settings(*s) is None,
        },
{
    let p = s.llm_provider.as_str();
    if text::same_text(p, "ollama") {
        return None;
    }
    let key = s.creds(p).api_key;
    if text::trim_str(key.as_str()).as_str().unicode_len() == 0 {
        let mut m = "No ".to_owned();
        m.append(p);
        m.append(" API key — add one in Settings");
        return Some(LlmStatus { ok: false, message: m });
    }
    if text::same_text(p, "anthropic") {
        return Some(LlmStatus { ok: true, message: "Anthropic key set".to_owned() });
    }
    None
}

/// Whether answers can be had, by what the provider lists or why it does not.
pub open spec fn status_by_models(
    provider: Seq<char>,
    model: Seq<char>,
    models: Result<Seq<Seq<char>>, Seq<char>>,
) -> StatusV {
    if provider != "ollama"@ {
        match models {
            Ok(v) => if v.len() > 0 {
                StatusV {
                    ok: true,
                    message: provider + " reachable · "@ + text::decimal(v.len()) + " model(s)"@,
                }
            } else {
                StatusV { ok: true, message: provider + ": key set — using your configured model"@ }
            },
            Err(_) => StatusV {
                ok: true,
                message: provider + ": key set — using your configured model"@,
            },
        }
    } else {
        match models {
            Ok(v) => {
                let m = text::trim(model);
                if m.len() == 0 || v.contains(m) {
                    StatusV {
                        ok: true,
                        message: "Ollama up · "@ + text::decimal(v.len()) + " model(s)"@,
                    }
                } else {
                    StatusV {
                        ok: false,
                        message: "'"@ + m + "' not pulled — run `ollama pull "@ + m + "`"@,
                    }
                }
            },
            Err(e) => StatusV {
                ok: false,
                message: "Ollama unreachable — is it running? ("@ + e + ")"@,
            },
        }
    }
}

/// What a provider lists, by its value.
pub open spec fn listed_models(r: Result<Vec<String>, String>) -> Result<
    Seq<Seq<char>>,
    Seq<char>,
> {
    match r {
        Ok(v) => Ok(text::texts(v@)),
        Err(e) => Err(e@),
    }
}

/// Whether answers can be had, by what the provider lists or why it does not.
pub fn check_models(provider: &str, model: &str, models: &Result<Vec<String>, String>) -> (r:
    LlmStatus)
    ensures
        r@ == status_by_models(provider@, model@, listed_models(*models)),
{
    if !text::same_text(provider, "ollama") {
        if let Ok(v) = models {
            assert(text::texts(v@).len() == v@.len());
            if v.len() > 0 {
                let mut m = provider.to_owned();
                m.append(" reachable · ");
                m.append(text::decimal_of(v.len() as u64).as_str());
                m.append(" model(s)");
                return LlmStatus { ok: true, message: m };
            }
        }
        let mut m = provider.to_owned();
        m.append(": key set — using your configured model");
        return LlmStatus { ok: true, message: m };
    }
    match models {
        Ok(v) => {
            assert(text::texts(v@).len() == v@.len());
            let name = text::trim_str(model);
            if name.as_str().unicode_len() == 0 || order::holds(v, name.as_str()) {
                let mut m = "Ollama up · ".to_owned();
                m.append(text::decimal_of(v.len() as u64).as_str());
                m.append(" model(s)");
                LlmStatus { ok: true, message: m }
            } else {
                let mut m = "'".to_owned();
                m.append(name.as_str());
                m.append("' not pulled — run `ollama pull ");
                m.append(name.as_str());
                m.append("`");
                LlmStatus { ok: false, message: m }
            }
        },
        Err(e) => {
            let mut m = "Ollama unreachable — is it running? (".to_owned();
            m.append(e.as_str());
            m.append(")");
            LlmStatus { ok: false, message: m }
        },
    }
}

// ---- conversations ---------------------------------------------------------------------------

/// How long a title may get.
pub const TITLE_CHARS: usize = 80;

/// A title, trimmed and shortened.
pub open spec fn short_title(title: Seq<char>) -> Seq<char> {
    let t = text::trim(title);
    if t.len() <= TITLE_CHARS {
        t
    } else {
        t.take(TITLE_CHARS as int)
    }
}

fn shorten(title: &str) -> (r: String)
    ensures
        r@ == short_title(title@),
{
    let v = text::chars_of(title);
    let t = text::trim_chars(&v);
    if t.len() <= TITLE_CHARS {
        text::string_of(t)
    } else {
        let head = vstd::slice::slice_subrange(t, 0, TITLE_CHARS);
        assert(head@ =~= t@.take(TITLE_CHARS as int));
        text::string_of(head)
    }
}

/// The title of a new conversation.
pub fn conversation_title(title: &str) -> (r: String)
    ensures
        r@ == (if text::trim(title@).len() == 0 {
            "New conversation"@
        } else {
            short_title(title@)
        }),
{
    if text::trim_str(title).as_str().unicode_len() == 0 {
        "New conversation".to_owned()
    } else {
        shorten(title)
    }
}

/// The new title of a conversation, which cannot be empty.
pub fn new_title(title: &str) -> (r: Result<String, String>)
    ensures
        match r {
            Ok(t) => text::trim(title@).len() > 0 && t@ == short_title(title@),
            Err(e) => text::trim(title@).len() == 0 && e@ == "title cannot be empty"@,
        },
{
    if text::trim_str(title).as_str().unicode_len() == 0 {
        Err("title cannot be empty".to_owned())
    } else {
        Ok(shorten(title))
    }
}

/// A message as a turn of the conversation.
pub open spec fn turn_of(m: MessageV) -> TurnV {
    TurnV { role: m.role.name(), content: m.content }
}

/// The messages of a conversation as its turns.
pub fn history_of(messages: &Vec<Message>) -> (r: Vec<HistoryTurn>)
    ensures
        rows::vals(r@) == Seq::new(messages@.len(), |i: int| turn_of(messages@[i]@)),
{
    let mut out: Vec<HistoryTurn> = Vec::new();
    for i in 0..messages.len()
        invariant
            out@.len() == i,
            forall|k: int| 0 <= k < i ==> (#[trigger] out@[k])@ == turn_of(messages@[k]@),
    {
        let m = &messages[i];
        out.push(HistoryTurn { role: m.role.as_str().to_owned(), content: m.content.clone() });
    }
    assert(rows::vals(out@) =~= Seq::new(messages@.len(), |i: int| turn_of(messages@[i]@)));
    out
}

// ---- collections -----------------------------------------------------------------------------

/// The collections that were chosen.
pub open spec fn chosen(ids: Seq<Seq<char>>) -> spec_fn(CollectionV) -> bool {
    |c: CollectionV| ids.contains(c.id)
}

fn choose_collections(all: &Vec<Collection>, ids: &Vec<String>) -> (r: Vec<Collection>)
    ensures
        rows::vals(r@) == rows::keep(rows::vals(all@), chosen(text::texts(ids@))),
{
    let ghost v = rows::vals(all@);
    let ghost p = chosen(text::texts(ids@));
    let mut out: Vec<Collection> = Vec::new();
    assert(rows::vals(out@) =~= rows::keep(v.take(0), p));
    for i in 0..all.len()
        invariant
            v == rows::vals(all@),
            p == chosen(text::texts(ids@)),
            rows::vals(out@) == rows::keep(v.take(i as int), p),
    {
        proof {
            assert(v.take(i + 1) =~= v.take(i as int).push(all@[i as int]@));
            rows::lemma_keep_push(v.take(i as int), p, all@[i as int]@);
        }
        if order::holds(ids, all[i].id.as_str()) {
            let c = all[i].clone();
            proof {
                rows::lemma_vals_push(out@, c);
            }
            out.push(c);
        }
    }
    assert(v.take(v.len() as int) =~= v);
    out
}

/// The collections that a question is put to.
pub fn selected_collections(all: &Vec<Collection>, ids: &Vec<String>) -> (r: Result<
    Vec<Collection>,
    String,
>)
    ensures
        ({
            let v = rows::keep(rows::vals(all@), chosen(text::texts(ids@)));
            match r {
                Ok(c) => v.len() > 0 && rows::vals(c@) == v,
                Err(e) => v.len() == 0 && e@ == "no valid collection selected"@,
            }
        }),
{
    let c = choose_collections(all, ids);
    assert(rows::vals(c@).len() == c@.len());
    if c.len() == 0 {
        Err("no valid collection selected".to_owned())
    } else {
        Ok(c)
    }
}

/// The names of some collections.
pub open spec fn names(v: Seq<CollectionV>) -> Seq<Seq<char>> {
    Seq::new(v.len(), |i: int| v[i].name)
}

/// What a document says it is drawn from.
pub fn collection_label(all: &Vec<Collection>, ids: &Vec<String>) -> (r: String)
    ensures
        ({
            let v = rows::keep(rows::vals(all@), chosen(text::texts(ids@)));
            r@ == (if v.len() == 0 {
                "Library"@
            } else {
                text::join(names(v), ", "@)
            })
        }),
{
    let c = choose_collections(all, ids);
    let ghost v = rows::vals(c@);
    assert(v.len() == c@.len());
    if c.len() == 0 {
        return "Library".to_owned();
    }
    let mut list: Vec<String> = Vec::new();
    for i in 0..c.len()
        invariant
            v == rows::vals(c@),
            list@.len() == i,
            forall|k: int| 0 <= k < i ==> (#[trigger] list@[k])@ == v[k].name,
    {
        assert(v[i as int] == c@[i as int]@);
        list.push(c[i].name.clone());
    }
    assert(text::texts(list@) =~= names(v));
    text::join_strs(&list, ", ")
}

/// What is said of a collection that is not there.
pub open spec fn not_found(id: Seq<char>) -> Seq<char> {
    "collection "@ + id + " not found"@
}

/// The collection with an identity.
pub fn find_collection(all: &Vec<Collection>, id: &str) -> (r: Result<Collection, String>)
    ensures
        match rows::find_row(rows::vals(all@), journal::collection_with(id@)) {
            Some(c) => r is Ok && r->Ok_0@ == c,
            None => r is Err && r->Err_0@ == not_found(id@),
        },
{
    let found: Option<usize> = rows::find_where(
        all,
        |c: &Collection| -> (b: bool)
            ensures
                b == journal::collection_with(id@)(c@)
            { text::same_text(c.id.as_str(), id) },
        Ghost(journal::collection_with(id@)),
    );
    match found {
        Some(i) => Ok(all[i].clone()),
        None => {
            let mut e = "collection ".to_owned();
            e.append(id);
            e.append(" not found");
            Err(e)
        },
    }
}

/// Gives a collection other source paths.
pub fn set_collection_paths(db: &mut Db, id: &str, source_paths: Vec<String>) -> (r: Result<
    Collection,
    String,
>)
    ensures
        match rows::find_row(
            journal::by_name(old(db)@.collections),
            journal::collection_with(id@),
        ) {
            Some(c) => {
                let changed = CollectionV { source_paths: text::texts(source_paths@), ..c };
                &&& r is Ok
                &&& r->Ok_0@ == changed
                &&& final(db)@ == (DbV {
                    collections: journal::put_collection(old(db)@.collections, changed),
                    ..old(db)@
                })
            },
            None => r is Err && r->Err_0@ == not_found(id@) && final(db)@ == old(db)@,
        },
{
    let all = match db.list_collections() {
        Ok(v) => v,
        Err(_) => Vec::new(),
    };
    let mut c = match find_collection(&all, id) {
        Ok(c) => c,
        Err(e) => {
            return Err(e);
        },
    };
    let ghost was = c@;
    let ghost paths = text::texts(source_paths@);
    c.source_paths = source_paths;
    assert(c@ =~= (CollectionV { source_paths: paths, ..was }));
    let _ = db.upsert_collection(&c);
    Ok(c)
}

/// The model that embeds passages.
pub const EMBED_MODEL: &'static str = "bge-m3";

/// A new collection, whose index lies below the app's data.
pub fn new_collection(id: &str, name: &str, source_paths: Vec<String>, data_dir: &str) -> (r:
    Collection)
    ensures
        r@ == (CollectionV {
            id: id@,
            name: name@,
            db_path: convert::path_under(convert::path_under(data_dir@, "collections"@), id@),
            source_paths: text::texts(source_paths@),
            embed_model: EMBED_MODEL@,
        }),
{
    let dir = convert::join_path(data_dir, "collections");
    Collection {
        id: id.to_owned(),
        name: name.to_owned(),
        db_path: convert::join_path(dir.as_str(), id),
        source_paths,
        embed_model: EMBED_MODEL.to_owned(),
    }
}

/// The collection that is there from the start.
pub fn default_collection(data_dir: &str) -> (r: Collection)
    ensures
        r@ == (CollectionV {
            id: "default"@,
            name: "My Library"@,
            db_path: convert::path_under(data_dir@, "lancedb"@),
            source_paths: Seq::empty(),
            embed_model: EMBED_MODEL@,
        }),
{
    let r = Collection {
        id: "default".to_owned(),
        name: "My Library".to_owned(),
        db_path: convert::join_path(data_dir, "lancedb"),
        source_paths: Vec::new(),
        embed_model: EMBED_MODEL.to_owned(),
    };
    assert(text::texts(r.source_paths@) =~= Seq::empty());
    r
}

// ---- answers ---------------------------------------------------------------------------------

/// What is said where nothing was found.
pub const NO_MATCH: &'static str = "I couldn't find any matching passages in the selected collection(s).";

/// A result that is relevant enough.
pub open spec fn relevant(min: i64) -> spec_fn(ResultV) -> bool {
    |r: ResultV| r.score >= min
}

/// Results numbered from one.
pub open spec fn renumbered(v: Seq<ResultV>) -> Seq<ResultV> {
    Seq::new(v.len(), |i: int| ResultV { rank: (i + 1) as nat, ..v[i] })
}

/// Drops weak matches, so that a question without an answer has no sources, and numbers the others
/// anew, so that citations have no gaps.
pub fn keep_relevant(results: Vec<SearchResult>, min: i64) -> (r: Vec<SearchResult>)
    ensures
        rows::vals(r@) == renumbered(rows::keep(rows::vals(results@), relevant(min))),
{
    let ghost all = rows::vals(results@);
    let ghost p = relevant(min);
    let mut kept = results;
    let ghost gone = |x: ResultV| !p(x);
    let _: usize = rows::drop_where(
        &mut kept,
        |x: &SearchResult| -> (b: bool)
            ensures
                b == gone(x@)
            { x.score < min },
        Ghost(gone),
    );
    proof {
        rows::lemma_keep_same(all, |x: ResultV| !gone(x), p);
    }
    let ghost v = rows::keep(all, p);
    let mut out: Vec<SearchResult> = Vec::new();
    for i in 0..kept.len()
        invariant
            v == rows::vals(kept@),
            out@.len() == i,
            forall|k: int|
                0 <= k < i ==> (#[trigger] out@[k])@ == (ResultV { rank: (k + 1) as nat, ..v[k] }),
    {
        let x = &kept[i];
        assert(v[i as int] == x@);
        let y = SearchResult {
            rank: i + 1,
            score: x.score,
            text: x.text.clone(),
            citation: x.citation.clone(),
            title: x.title.clone(),
            author: crate::types::copy_opt(&x.author),
            chapter: crate::types::copy_opt(&x.chapter),
            page: x.page,
            source_path: x.source_path.clone(),
            book_id: x.book_id.clone(),
            id: x.id.clone(),
        };
        assert(y@ =~= (ResultV { rank: (i + 1) as nat, ..x@ }));
        out.push(y);
    }
    assert(rows::vals(out@) =~= renumbered(v));
    out
}

/// Sources are all relevant enough, and their numbers have no gaps.
pub proof fn sources_are_relevant_and_contiguous(v: Seq<ResultV>, min: i64, i: int)
    requires
        0 <= i < renumbered(rows::keep(v, relevant(min))).len(),
    ensures
        renumbered(rows::keep(v, relevant(min)))[i].score >= min,
        renumbered(rows::keep(v, relevant(min)))[i].rank == i + 1,
{
    rows::lemma_keep(v, relevant(min));
    assert(relevant(min)(rows::keep(v, relevant(min))[i]));
}

/// The model that the user chose, or else the default.
pub fn model_or_default(model: &str, s: &Settings, fallback: &str) -> (r: String)
    ensures
        r@ == (if text::trim(model@).len() == 0 {
            settings::model_of(
                s.llm_provider@,
                s.ollama_model@,
                rows::vals(s.providers@),
                fallback@,
            )
        } else {
            model@
        }),
{
    if text::trim_str(model).as_str().unicode_len() == 0 {
        s.default_model(fallback)
    } else {
        model.to_owned()
    }
}

/// A result as a citation to keep.
pub open spec fn cited(r: ResultV) -> CitationV {
    CitationV {
        rank: r.rank,
        citation: r.citation,
        source_path: r.source_path,
        page: r.page,
        text: r.text,
    }
}

/// A result as a citation to keep, so that a message read back looks as it did.
pub fn to_citation(r: &SearchResult) -> (c: Citation)
    ensures
        c@ == cited(r@),
{
    Citation {
        rank: r.rank,
        citation: r.citation.clone(),
        source_path: r.source_path.clone(),
        page: r.page,
        text: r.text.clone(),
    }
}

/// The user's turn.
pub fn question_message(id: String, conversation_id: &str, question: &str) -> (r: Message)
    ensures
        r@ == (MessageV {
            id: id@,
            conversation_id: conversation_id@,
            role: Role::User,
            content: question@,
            citations: Seq::empty(),
            in_tokens: 0,
            out_tokens: 0,
        }),
{
    let r = Message {
        id,
        conversation_id: conversation_id.to_owned(),
        role: Role::User,
        content: question.to_owned(),
        citations: Vec::new(),
        in_tokens: 0,
        out_tokens: 0,
    };
    assert(rows::vals(r.citations@) =~= Seq::empty());
    r
}

/// The assistant's turn, with what grounds it and what it cost; where nothing was found it says so.
pub fn answer_message(
    id: String,
    conversation_id: &str,
    answer: &str,
    results: &Vec<SearchResult>,
    usage: Usage,
) -> (r: Message)
    ensures
        r@ == (if results@.len() == 0 {
            MessageV {
                id: id@,
                conversation_id: conversation_id@,
                role: Role::Assistant,
                content: NO_MATCH@,
                citations: Seq::empty(),
                in_tokens: 0,
                out_tokens: 0,
            }
        } else {
            MessageV {
                id: id@,
                conversation_id: conversation_id@,
                role: Role::Assistant,
                content: answer@,
                citations: Seq::new(results@.len(), |i: int| cited(results@[i]@)),
                in_tokens: usage.in_tokens,
                out_tokens: usage.out_tokens,
            }
        }),
{
    let mut citations: Vec<Citation> = Vec::new();
    for i in 0..results.len()
        invariant
            citations@.len() == i,
            forall|k: int| 0 <= k < i ==> (#[trigger] citations@[k])@ == cited(results@[k]@),
    {
        citations.push(to_citation(&results[i]));
    }
    assert(rows::vals(citations@) =~= Seq::new(results@.len(), |i: int| cited(results@[i]@)));
    if results.len() == 0 {
        assert(rows::vals(citations@) =~= Seq::empty());
        Message {
            id,
            conversation_id: conversation_id.to_owned(),
            role: Role::Assistant,
            content: NO_MATCH.to_owned(),
            citations,
            in_tokens: 0,
            out_tokens: 0,
        }
    } else {
        Message {
            id,
            conversation_id: conversation_id.to_owned(),
            role: Role::Assistant,
            content: answer.to_owned(),
            citations,
            in_tokens: usage.in_tokens,
            out_tokens: usage.out_tokens,
        }
    }
}

/// The directory for documents: an absolute one as it is, another below the app's data.
pub open spec fn documents_dir(configured: Seq<char>, data_dir: Seq<char>) -> Seq<char> {
    if configured.len() > 0 && configured[0] == '/' {
        configured
    } else {
        convert::path_under(data_dir, configured)
    }
}

/// The directory for documents.
pub fn artifacts_dir(configured: &str, data_dir: &str) -> (r: String)
    ensures
        r@ == documents_dir(configured@, data_dir@),
{
    let v = text::chars_of(configured);
    if v.len() > 0 && v[0] == '/' {
        configured.to_owned()
    } else {
        convert::join_path(data_dir, configured)
    }
}

} // verus!
