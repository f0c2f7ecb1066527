//! Searching and asking, step by step: what is done outside between the steps is named by each of
//! them.
use vstd::prelude::*;
use crate::artifacts;
use crate::artifacts::{ArtifactDoc, ArtifactRenderer, DocV, Markdown, Source};
use crate::bridge;
use crate::convert;
use crate::journal;
use crate::manifest::{Db, DbV};
use crate::prompt;
use crate::prompt::{HistoryTurn, TurnV};
use crate::query;
use crate::query::SearchResult;
use crate::rows;
use crate::settings;
use crate::settings::Settings;
use crate::spell;
use crate::store::{RetrievedChunk, RetrievedV};
use crate::stream::Usage;
use crate::text;
use crate::types::{Collection, CollectionV, Message, MessageV, Role};

verus! {

// ---- search ----------------------------------------------------------------------------------

/// Candidates of one store: what the vector search, the full-text search and the typo-tolerant
/// search found, fused.
pub fn retrieve(
    vector_hits: Vec<RetrievedChunk>,
    fts_hits: Option<Vec<RetrievedChunk>>,
    fuzzy_hits: Option<Vec<RetrievedChunk>>,
    k: usize,
) -> (r: Vec<RetrievedChunk>)
    requires
        query::ranked_lists(three_lists(vector_hits, fts_hits, fuzzy_hits)).len() <= usize::MAX,
    ensures
        rows::vals(r@) == query::fused(three_lists(vector_hits, fts_hits, fuzzy_hits), k as nat),
{
    let ghost lists = three_lists(vector_hits, fts_hits, fuzzy_hits);
    let fts = match fts_hits {
        Some(v) => v,
        None => Vec::new(),
    };
    let fuzzy = match fuzzy_hits {
        Some(v) => v,
        None => Vec::new(),
    };
    assert(rows::vals(fts@) =~= lists[1]);
    assert(rows::vals(fuzzy@) =~= lists[2]);
    let all = [vector_hits, fts, fuzzy];
    assert(query::list_vals(all@) =~= lists);
    query::rrf_fuse(&all, k)
}

/// A list that may be missing; one that is found nothing.
pub open spec fn list_or_none(v: Option<Vec<RetrievedChunk>>) -> Seq<RetrievedV> {
    match v {
        Some(v) => rows::vals(v@),
        None => Seq::empty(),
    }
}

/// The three lists of candidates.
pub open spec fn three_lists(
    a: Vec<RetrievedChunk>,
    b: Option<Vec<RetrievedChunk>>,
    c: Option<Vec<RetrievedChunk>>,
) -> Seq<Seq<RetrievedV>> {
    seq![rows::vals(a@), list_or_none(b), list_or_none(c)]
}

/// What a search needs next.
#[derive(Debug)]
pub enum SearchStep {
    /// So many candidates for the query from every store.
    Retrieve(String, usize),
    /// The relevance of every candidate to the query.
    Rerank(String, Vec<RetrievedChunk>),
}

/// What a [`SearchStep`] holds.
pub enum SearchV {
    Retrieve(Seq<char>, nat),
    Rerank(Seq<char>, Seq<RetrievedV>),
}

impl View for SearchStep {
    type V = SearchV;

    open spec fn view(&self) -> SearchV {
        match self {
            SearchStep::Retrieve(q, k) => SearchV::Retrieve(q@, *k as nat),
            SearchStep::Rerank(q, v) => SearchV::Rerank(q@, rows::vals(v@)),
        }
    }
}

/// Begins a search over one store.
pub fn start_search(q: &str, hybrid_k: usize) -> (r: SearchStep)
    ensures
        r@ == SearchV::Retrieve(q@, hybrid_k as nat),
{
    SearchStep::Retrieve(q.to_owned(), hybrid_k)
}

/// Begins a search over several stores, which share the candidates; over none there is nothing to
/// search.
pub fn start_search_multi(q: &str, hybrid_k: usize, stores: usize) -> (r: Option<SearchStep>)
    ensures
        match r {
            None => stores == 0,
            Some(s) => stores > 0 && s@ == SearchV::Retrieve(
                q@,
                if hybrid_k as nat / stores as nat > 6 {
                    hybrid_k as nat / stores as nat
                } else {
                    6
                },
            ),
        },
{
    if stores == 0 {
        None
    } else {
        Some(SearchStep::Retrieve(q.to_owned(), query::candidates_per_store(hybrid_k, stores)))
    }
}

/// What a search needs once candidates are found: where they reveal a misspelling in the first
/// query, candidates for the repaired one; otherwise their relevance.
pub open spec fn search_after(q: Seq<char>, k: nat, first: bool, found: Seq<RetrievedV>) -> SearchV {
    let all = query::distinct(found);
    if first && spell::corrected(q, all) != q {
        SearchV::Retrieve(spell::corrected(q, all), k)
    } else {
        SearchV::Rerank(q, all)
    }
}

/// Goes on with a search whose candidates are found. Results from different stores compete in one
/// pool, each passage once.
pub fn continue_search(q: &str, k: usize, first: bool, found: Vec<RetrievedChunk>) -> (r: SearchStep)
    ensures
        r@ == search_after(q@, k as nat, first, rows::vals(found@)),
{
    let all = query::keep_distinct(found);
    if first {
        if let Some(c) = query::second_query(q, all.as_slice()) {
            return SearchStep::Retrieve(c, k);
        }
    }
    SearchStep::Rerank(q.to_owned(), all)
}

/// A repaired query is never repaired again, so a search asks for candidates twice at most.
pub proof fn searches_end(q: Seq<char>, k: nat, found: Seq<RetrievedV>)
    ensures
        search_after(q, k, false, found) is Rerank,
{
}

// ---- ask -------------------------------------------------------------------------------------

/// A question being answered.
#[derive(Debug)]
pub struct Ask {
    pub conversation_id: String,
    pub question: String,
    pub collections: Vec<Collection>,
    /// The turns before the question.
    pub history: Vec<HistoryTurn>,
}

/// What is asked of the model.
#[derive(Debug)]
pub enum AskStep {
    /// Nothing: no passage is relevant, and the conversation says so.
    NoMatch(Vec<SearchResult>),
    /// An answer from a model to a prompt, which the results ground.
    Generate(String, String, Vec<SearchResult>),
}

/// The turns of a conversation.
pub open spec fn turns_of(db: DbV, conversation: Seq<char>) -> Seq<TurnV> {
    let v = journal::messages_of(db.messages, conversation);
    Seq::new(v.len(), |i: int| bridge::turn_of(v[i]))
}

/// The collections that a question is put to.
pub open spec fn asked_collections(db: DbV, ids: Seq<Seq<char>>) -> Seq<CollectionV> {
    rows::keep(journal::by_name(db.collections), bridge::chosen(ids))
}

/// The user's turn.
pub open spec fn user_turn(id: Seq<char>, conversation: Seq<char>, question: Seq<char>) -> MessageV {
    MessageV {
        id,
        conversation_id: conversation,
        role: Role::User,
        content: question,
        citations: Seq::empty(),
        in_tokens: 0,
        out_tokens: 0,
    }
}

/// A message can be added.
pub open spec fn addable(db: DbV, id: Seq<char>, conversation: Seq<char>) -> bool {
    !journal::has_message(db, id) && journal::has_conversation(db, conversation)
}

/// Why a message cannot be added.
pub open spec fn refusal(db: DbV, id: Seq<char>) -> Seq<char> {
    if journal::has_message(db, id) {
        journal::DUPLICATE_MESSAGE@
    } else {
        journal::UNKNOWN_CONVERSATION@
    }
}

fn keep_message(db: &mut Db, m: &Message) -> (r: Result<(), String>)
    ensures
        r is Ok <==> addable(old(db)@, m@.id, m@.conversation_id),
        r is Ok ==> final(db)@ == (DbV { messages: old(db)@.messages.push(m@), ..old(db)@ }),
        r is Err ==> final(db)@ == old(db)@ && r->Err_0@ == refusal(old(db)@, m@.id),
{
    match db.add_message(m) {
        Ok(()) => Ok(()),
        Err(e) => Err(e.message()),
    }
}

impl Ask {
    /// Puts a question: the collections are found, the turns before it are looked back on, and the
    /// user's turn is kept at once, under the identity given.
    pub fn start(
        db: &mut Db,
        collection_ids: &Vec<String>,
        conversation_id: &str,
        question: &str,
        id: String,
    ) -> (r: Result<Ask, String>)
        ensures
            ({
                let colls = asked_collections(old(db)@, text::texts(collection_ids@));
                if colls.len() == 0 {
                    &&& r is Err
                    &&& r->Err_0@ == "no valid collection selected"@
                    &&& final(db)@ == old(db)@
                } else if !addable(old(db)@, id@, conversation_id@) {
                    &&& r is Err
                    &&& r->Err_0@ == refusal(old(db)@, id@)
                    &&& final(db)@ == old(db)@
                } else {
                    &&& r is Ok
                    &&& r->Ok_0.conversation_id@ == conversation_id@
                    &&& r->Ok_0.question@ == question@
                    &&& rows::vals(r->Ok_0.collections@) == colls
                    &&& rows::vals(r->Ok_0.history@) == turns_of(old(db)@, conversation_id@)
                    &&& final(db)@ == (DbV {
                        messages: old(db)@.messages.push(
                            user_turn(id@, conversation_id@, question@),
                        ),
                        ..old(db)@
                    })
                }
            }),
    {
        let all = match db.list_collections() {
            Ok(v) => v,
            Err(_) => Vec::new(),
        };
        let collections = match bridge::selected_collections(&all, collection_ids) {
            Ok(c) => c,
            Err(e) => {
                return Err(e);
            },
        };
        let before = match db.list_messages(conversation_id) {
            Ok(v) => v,
            Err(_) => Vec::new(),
        };
        let history = bridge::history_of(&before);
        proof {
            let v = journal::messages_of(old(db)@.messages, conversation_id@);
            assert(rows::vals(before@) == v);
            assert forall|i: int| 0 <= i < before@.len() implies bridge::turn_of(
                #[trigger] before@[i]@,
            ) == bridge::turn_of(v[i]) by {
                assert(rows::vals(before@)[i] == before@[i]@);
            }
            assert(rows::vals(history@) =~= turns_of(old(db)@, conversation_id@));
        }
        let m = bridge::question_message(id, conversation_id, question);
        match keep_message(db, &m) {
            Ok(()) => {},
            Err(e) => {
                return Err(e);
            },
        }
        Ok(
            Ask {
                conversation_id: conversation_id.to_owned(),
                question: question.to_owned(),
                collections,
                history,
            },
        )
    }

    /// Takes what was found: weak matches are dropped and the others numbered anew. Without any,
    /// the conversation says so; otherwise a model is asked.
    pub fn found(
        &self,
        db: &mut Db,
        results: Vec<SearchResult>,
        s: &Settings,
        model: &str,
        fallback: &str,
        id: String,
    ) -> (r: Result<AskStep, String>)
        ensures
            ({
                let kept = bridge::renumbered(
                    rows::keep(rows::vals(results@), bridge::relevant(s.min_relevance)),
                );
                if kept.len() == 0 {
                    if addable(old(db)@, id@, self.conversation_id@) {
                        &&& r is Ok
                        &&& r->Ok_0 is NoMatch
                        &&& r->Ok_0->NoMatch_0@.len() == 0
                        &&& final(db)@ == (DbV {
                            messages: old(db)@.messages.push(
                                MessageV {
                                    role: Role::Assistant,
                                    ..user_turn(id@, self.conversation_id@, bridge::NO_MATCH@)
                                },
                            ),
                            ..old(db)@
                        })
                    } else {
                        &&& r is Err
                        &&& r->Err_0@ == refusal(old(db)@, id@)
                        &&& final(db)@ == old(db)@
                    }
                } else {
                    &&& r is Ok
                    &&& r->Ok_0 is Generate
                    &&& r->Ok_0->Generate_0@ == (if text::trim(model@).len() == 0 {
                        settings::model_of(
                            s.llm_provider@,
                            s.ollama_model@,
                            rows::vals(s.providers@),
                            fallback@,
                        )
                    } else {
                        model@
                    })
                    &&& r->Ok_0->Generate_1@ == prompt::prompt_for(
                        self.question@,
                        kept,
                        rows::vals(self.history@),
                    )
                    &&& rows::vals(r->Ok_0->Generate_2@) == kept
                    &&& final(db)@ == old(db)@
                }
            }),
    {
        let kept = bridge::keep_relevant(results, s.min_relevance);
        assert(rows::vals(kept@).len() == kept@.len());
        if kept.len() == 0 {
            let none: Usage = Usage::default();
            let m = bridge::answer_message(id, self.conversation_id.as_str(), "", &kept, none);
            proof {
                assert(m@ =~= (MessageV {
                    role: Role::Assistant,
                    ..user_turn(id@, self.conversation_id@, bridge::NO_MATCH@)
                }));
            }
            return match keep_message(db, &m) {
                Ok(()) => Ok(AskStep::NoMatch(kept)),
                Err(e) => Err(e),
            };
        }
        let model = bridge::model_or_default(model, s, fallback);
        let p = prompt::build_prompt_with_history(
            self.question.as_str(),
            kept.as_slice(),
            self.history.as_slice(),
        );
        Ok(AskStep::Generate(model, p, kept))
    }

    /// Keeps the answer with what grounds it and what it cost.
    pub fn answered(
        &self,
        db: &mut Db,
        answer: &str,
        results: &Vec<SearchResult>,
        usage: Usage,
        id: String,
    ) -> (r: Result<(), String>)
        requires
            results@.len() > 0,
        ensures
            r is Ok <==> addable(old(db)@, id@, self.conversation_id@),
            r is Err ==> final(db)@ == old(db)@ && r->Err_0@ == refusal(old(db)@, id@),
            r is Ok ==> final(db)@ == (DbV {
                messages: old(db)@.messages.push(
                    MessageV {
                        id: id@,
                        conversation_id: self.conversation_id@,
                        role: Role::Assistant,
                        content: answer@,
                        citations: Seq::new(results@.len(), |i: int| bridge::cited(results@[i]@)),
                        in_tokens: usage.in_tokens,
                        out_tokens: usage.out_tokens,
                    },
                ),
                ..old(db)@
            }),
    {
        let m = bridge::answer_message(id, self.conversation_id.as_str(), answer, results, usage);
        keep_message(db, &m)
    }
}

// ---- documents -------------------------------------------------------------------------------

/// What is written to keep an answer, and where.
pub fn save_artifact(
    collections: &Vec<Collection>,
    collection_ids: &Vec<String>,
    question: &str,
    answer: &str,
    model: &str,
    created: &str,
    sources: Vec<Source>,
    s: &Settings,
    fallback: &str,
    data_dir: &str,
    taken: &Vec<String>,
) -> (r: (String, String))
    requires
        taken@.len() < usize::MAX,
    ensures
        ({
            let chosen = rows::keep(
                rows::vals(collections@),
                bridge::chosen(text::texts(collection_ids@)),
            );
            &&& r.1@ == artifacts::markdown(
                DocV {
                    question: question@,
                    answer: answer@,
                    model: if text::trim(model@).len() == 0 {
                        settings::model_of(
                            s.llm_provider@,
                            s.ollama_model@,
                            rows::vals(s.providers@),
                            fallback@,
                        )
                    } else {
                        model@
                    },
                    collection: if chosen.len() == 0 {
                        "Library"@
                    } else {
                        text::join(bridge::names(chosen), ", "@)
                    },
                    created: created@,
                    sources: rows::vals(sources@),
                },
            )
            &&& exists|name: Seq<char>|
                r.0@ == #[trigger] convert::path_under(
                    bridge::documents_dir(s.artifacts_dir@, data_dir@),
                    name,
                ) && artifacts::is_free_name(
                    artifacts::slug_of(question@),
                    "md"@,
                    text::texts(taken@),
                    name,
                )
        }),
{
    let doc = ArtifactDoc {
        question: question.to_owned(),
        answer: answer.to_owned(),
        model: bridge::model_or_default(model, s, fallback),
        collection: bridge::collection_label(collections, collection_ids),
        created: created.to_owned(),
        sources,
    };
    let dir = bridge::artifacts_dir(s.artifacts_dir.as_str(), data_dir);
    let r = artifacts::write_artifact(&Markdown, &doc, dir.as_str(), taken);
    proof {
        let name = choose|name: Seq<char>|
            r.0@ == #[trigger] convert::path_under(dir@, name) && artifacts::is_free_name(
                artifacts::slug_of(doc@.question),
                Markdown.ext(),
                text::texts(taken@),
                name,
            );
        assert(r.0@ == convert::path_under(dir@, name));
    }
    r
}

} // verus!
