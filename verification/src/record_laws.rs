//! What the records of collections, conversations and answers keep.
use vstd::prelude::*;
use crate::bridge;
use crate::journal;
use crate::llm;
use crate::manifest::{ConversationRowV, NoteV, StateV};
use crate::order;
use crate::query::ResultV;
use crate::rank;
use crate::rows;
use crate::settings;
use crate::shape;
use crate::stream;
use crate::stream::{AnswerV, EmitV, LineV};
use crate::text;
use crate::types::{CollectionV, MessageV};

verus! {

proof fn lemma_kept<A>(s: Seq<A>, p: spec_fn(A) -> bool, x: A)
    ensures
        rows::keep(s, p).contains(x) <==> s.contains(x) && p(x),
{
    rows::lemma_keep(s, p);
    let k = rows::keep(s, p);
    if k.contains(x) {
        let j = choose|j: int| 0 <= j < k.len() && k[j] == x;
        assert(p(k[j]));
    }
}

/// Deleting a collection takes it, its rows and its note, and nothing of any other.
pub proof fn deleting_a_collection_takes_nothing_else(
    collections: Seq<CollectionV>,
    state: Seq<StateV>,
    notes: Seq<NoteV>,
    id: Seq<char>,
    c: CollectionV,
    r: StateV,
    n: NoteV,
)
    ensures
        journal::other_collections(collections, id).contains(c) <==> collections.contains(c) && c.id
            != id,
        journal::other_rows(state, id).contains(r) <==> state.contains(r) && r.collection != id,
        journal::other_notes(notes, id).contains(n) <==> notes.contains(n) && n.scope != id,
{
    lemma_kept(collections, |x: CollectionV| !(journal::collection_with(id))(x), c);
    lemma_kept(state, |x: StateV| !(crate::manifest::of_collection(id))(x), r);
    lemma_kept(notes, |x: NoteV| !(journal::note_of(id))(x), n);
}

/// Deleting a conversation takes it and its messages, and deleting a message takes that message;
/// every other stays.
pub proof fn deleting_a_conversation_takes_nothing_else(
    conversations: Seq<ConversationRowV>,
    messages: Seq<MessageV>,
    id: Seq<char>,
    c: ConversationRowV,
    m: MessageV,
)
    ensures
        journal::other_conversations(conversations, id).contains(c) <==> conversations.contains(c)
            && c.conversation.id != id,
        journal::messages_elsewhere(messages, id).contains(m) <==> messages.contains(m)
            && m.conversation_id != id,
        journal::other_messages(messages, id).contains(m) <==> messages.contains(m) && m.id != id,
{
    lemma_kept(
        conversations,
        |x: ConversationRowV| !(journal::conversation_with(id))(x),
        c,
    );
    lemma_kept(messages, |x: MessageV| !(journal::message_in(id))(x), m);
    lemma_kept(messages, |x: MessageV| !(journal::message_with(id))(x), m);
}

/// A conversation has all messages that were added to it, in that order.
pub proof fn conversations_have_all_their_messages(v: Seq<MessageV>, conversation: Seq<char>)
    ensures
        shape::picks(
            v.len() as int,
            |i: int| v[i].conversation_id == conversation,
            |i: int| v[i],
            journal::messages_of(v, conversation),
        ),
{
    let p = journal::message_in(conversation);
    shape::keeping_picks(v, p);
    let out = journal::messages_of(v, conversation);
    let keep0 = |i: int| p(v[i]);
    let keep = |i: int| v[i].conversation_id == conversation;
    let value = |i: int| v[i];
    let n = v.len() as int;
    let at = choose|at: Seq<int>| #[trigger] shape::picked_at(n, keep0, value, out, at);
    assert forall|i: int| 0 <= i < n && #[trigger] keep(i) implies at.contains(i) by {
        assert(keep0(i));
    }
    assert(shape::picked_at(n, keep, value, out, at));
}

/// A collection that is put in leaves every other as it was.
pub proof fn putting_in_a_collection_keeps_the_others(
    v: Seq<CollectionV>,
    c: CollectionV,
    other: Seq<char>,
)
    requires
        other != c.id,
    ensures
        rows::find_row(journal::put_collection(v, c), journal::collection_with(other))
            == rows::find_row(v, journal::collection_with(other)),
{
    let p = journal::collection_with(c.id);
    let q = journal::collection_with(other);
    let after = journal::put_collection(v, c);
    rows::lemma_first_where(v, p);
    rows::lemma_first_where(v, q);
    match rows::first_where(v, q) {
        Some(i) => {
            assert(after[i] == v[i]);
            assert forall|j: int| 0 <= j < i implies !q(#[trigger] after[j]) by {
                assert(!q(v[j]));
            }
            rows::lemma_first_where_is(after, q, i);
        },
        None => {
            assert forall|j: int| 0 <= j < after.len() implies !q(#[trigger] after[j]) by {
                if j < v.len() {
                    assert(!q(v[j]));
                }
            }
            rows::lemma_first_where_none(after, q);
        },
    }
}

/// Collections are listed by name, all of them.
pub proof fn collections_are_listed_by_name(v: Seq<CollectionV>, i: int, j: int)
    ensures
        journal::by_name(v).to_multiset() == v.to_multiset(),
        0 <= i < j < journal::by_name(v).len() ==> !order::before(
            journal::by_name(v)[j].name,
            journal::by_name(v)[i].name,
        ),
{
    let p = journal::name_first();
    assert(rank::orders(p)) by {
        assert forall|a: CollectionV, b: CollectionV| #[trigger] p(a, b) implies !p(b, a) by {
            order::lemma_before_total(a.name, b.name);
        }
        assert forall|a: CollectionV, b: CollectionV, c: CollectionV| #[trigger]
            p(a, b) && #[trigger] p(b, c) implies p(a, c) by {
            order::lemma_before_transitive(a.name, b.name, c.name);
        }
        assert forall|a: CollectionV, b: CollectionV, c: CollectionV|
            !(#[trigger] p(a, b)) && !(#[trigger] p(b, c)) implies !p(a, c) by {
            order::lemma_before_total(a.name, b.name);
            order::lemma_before_total(b.name, c.name);
            order::lemma_before_total(a.name, c.name);
            order::lemma_before_irreflexive(a.name);
            if order::before(a.name, c.name) {
                if order::before(c.name, b.name) {
                    order::lemma_before_transitive(a.name, c.name, b.name);
                }
            }
        }
    }
    rank::sorting_keeps_the_elements(v, p);
    rank::sorting_puts_in_order(v, p);
    if 0 <= i < j < journal::by_name(v).len() {
        assert(!p(journal::by_name(v)[j], journal::by_name(v)[i]));
    }
}

/// Conversations are listed the latest first, all of them.
pub proof fn conversations_are_listed_latest_first(v: Seq<ConversationRowV>)
    ensures
        exists|s: Seq<ConversationRowV>|
            {
                &&& #[trigger] s.to_multiset() == v.to_multiset()
                &&& journal::latest_first(v) == Seq::new(s.len(), |i: int| s[i].conversation)
                &&& forall|i: int, j: int|
                    0 <= i < j < s.len() ==> (#[trigger] s[i]).created_at >= (
                    #[trigger] s[j]).created_at
            },
{
    let p = journal::later();
    let s = rank::sorted(v, p);
    rank::sorting_keeps_the_elements(v, p);
    rank::sorting_puts_in_order(v, p);
    assert forall|i: int, j: int| 0 <= i < j < s.len() implies (#[trigger] s[i]).created_at >= (
    #[trigger] s[j]).created_at by {
        assert(!p(s[j], s[i]));
    }
    assert(s.to_multiset() == v.to_multiset());
}

/// A short title begins the title without the whitespace around it, and has 80 characters at most.
pub proof fn short_titles_begin_the_title(title: Seq<char>)
    ensures
        ({
            let t = text::trim(title);
            let s = bridge::short_title(title);
            &&& s.len() == if t.len() <= 80 { t.len() } else { 80 }
            &&& s == t.subrange(0, s.len() as int)
        }),
{
    let t = text::trim(title);
    assert(t.len() <= 80 ==> t =~= t.subrange(0, t.len() as int));
}

/// The sources of an answer are all results that are relevant enough, in order and with all that they
/// say; only their numbers are given anew.
pub proof fn every_relevant_result_is_a_source(v: Seq<ResultV>, min: i64)
    ensures
        exists|at: Seq<int>|
            {
                let out = bridge::renumbered(rows::keep(v, bridge::relevant(min)));
                &&& #[trigger] relevant_places(v, min, at)
                &&& out.len() == at.len()
                &&& forall|k: int|
                    0 <= k < at.len() ==> #[trigger] bridge::renumbered(
                        rows::keep(v, bridge::relevant(min)),
                    )[k] == (ResultV { rank: (k + 1) as nat, ..v[at[k]] })
            },
{
    let p = bridge::relevant(min);
    let kept = rows::keep(v, p);
    let out = bridge::renumbered(kept);
    shape::keeping_picks(v, p);
    let keep0 = |i: int| p(v[i]);
    let value = |i: int| v[i];
    let n = v.len() as int;
    let at = choose|at: Seq<int>| #[trigger] shape::picked_at(n, keep0, value, kept, at);
    let keep = |i: int| v[i].score >= min;
    assert forall|i: int| 0 <= i < n && #[trigger] keep(i) implies at.contains(i) by {
        assert(keep0(i));
    }
    assert forall|k: int| 0 <= k < at.len() implies 0 <= #[trigger] at[k] < n && keep(at[k]) by {
        assert(keep0(at[k]));
    }
    assert(relevant_places(v, min, at));
    assert forall|k: int| 0 <= k < at.len() implies #[trigger] out[k] == (ResultV {
        rank: (k + 1) as nat,
        ..v[at[k]]
    }) by {
        assert(kept[k] == value(at[k]));
    }
}

/// The places of the results that are relevant enough.
pub open spec fn relevant_places(v: Seq<ResultV>, min: i64, at: Seq<int>) -> bool {
    shape::picked_at(v.len() as int, |i: int| v[i].score >= min, |i: int| i, at, at)
}

/// Of a refusal's text the first 200 characters are told.
pub proof fn refusals_are_told_shortly(body: Seq<char>)
    ensures
        ({
            let t = text::trim(body);
            &&& t.len() == 0 ==> llm::snippet(body).len() == 0
            &&& 0 < t.len() <= 200 ==> llm::snippet(body) == " — "@ + t
            &&& t.len() > 200 ==> llm::snippet(body) == " — "@ + t.subrange(0, 200)
        }),
{
    let t = text::trim(body);
    assert(t.len() > 200 ==> t.take(200) =~= t.subrange(0, 200));
}

/// The credentials of a provider are those of its first entry, and none where it has no entry.
pub proof fn credentials_are_the_providers_own(
    v: Seq<(Seq<char>, settings::CredsV)>,
    provider: Seq<char>,
    i: int,
)
    ensures
        0 <= i < v.len() && v[i].0 == provider && (forall|j: int|
            0 <= j < i ==> (#[trigger] v[j]).0 != provider) ==> settings::creds_of(v, provider)
            == v[i].1,
        (forall|j: int| 0 <= j < v.len() ==> (#[trigger] v[j]).0 != provider)
            ==> settings::creds_of(v, provider).api_key.len() == 0 && settings::creds_of(
            v,
            provider,
        ).model.len() == 0,
{
    let p = settings::entry_of(provider);
    if 0 <= i < v.len() && v[i].0 == provider && (forall|j: int|
        0 <= j < i ==> (#[trigger] v[j]).0 != provider) {
        rows::lemma_first_where_is(v, p, i);
    }
    if forall|j: int| 0 <= j < v.len() ==> (#[trigger] v[j]).0 != provider {
        rows::lemma_first_where_none(v, p);
    }
}

/// What a line reports of the tokens used stands until another line reports anew.
pub proof fn usage_is_what_was_reported_last(a: AnswerV, l: LineV, last: bool)
    ensures
        ({
            let u = a.after_line(l, last).answer.usage;
            &&& l.in_tokens is Some ==> u.in_tokens == l.in_tokens->0
            &&& l.in_tokens is None ==> u.in_tokens == a.usage.in_tokens
            &&& l.out_tokens is Some ==> u.out_tokens == l.out_tokens->0
            &&& l.out_tokens is None ==> u.out_tokens == a.usage.out_tokens
        }),
{
}

/// A thought that a line tells apart is passed on first, as it is.
pub proof fn thoughts_are_passed_on(a: AnswerV, l: LineV, last: bool)
    requires
        l.reasoning is Some,
        l.reasoning->0.len() > 0,
    ensures
        a.after_line(l, last).emits.len() > 0,
        a.after_line(l, last).emits[0] == EmitV::Reasoning(l.reasoning->0),
{
}

/// A line ends the answer exactly where it says so or is the last.
pub proof fn answers_end_where_they_say(a: AnswerV, l: LineV, last: bool)
    requires
        !a.done,
    ensures
        a.after_line(l, last).answer.done <==> l.done || last,
        a.after_line(l, last).answer.done ==> a.after_line(l, last).answer.held.len() == 0,
{
}

/// Nothing of an answer is lost: what a line says of it is passed on, or held back, or thought; an
/// answer that ends outside a thought passes on all that was held back.
pub proof fn ends_pass_on_what_was_held(a: AnswerV)
    ensures
        !a.in_think ==> a.closed().answer.full == a.full + a.held && stream::answer_in(
            a.closed().emits,
        ) == a.held,
        a.in_think ==> a.closed().answer.full == a.full,
{
    let e = a.closed().emits;
    reveal_with_fuel(stream::answer_in, 2);
    if !a.in_think {
        if a.held.len() > 0 {
            assert(e =~= seq![EmitV::Token(a.held)]);
            assert(e.drop_last() =~= Seq::empty());
            assert(stream::answer_in(e) =~= a.held);
        } else {
            assert(stream::answer_in(e) =~= a.held);
        }
    } else {
        assert(a.full + Seq::<char>::empty() =~= a.full);
    }
}

/// Whole lines are read one after the other, each once: what the first says comes first, and the
/// lines behind it are read from what it left.
pub proof fn every_line_is_read_in_turn(a: AnswerV, line: Seq<char>, rest: Seq<char>, l: LineV)
    requires
        !a.done,
        !line.contains('\n'),
        a.buf == line.push('\n') + rest,
        stream::line_of(a.wire, line.push('\n')) == Ok::<LineV, Seq<char>>(l),
    ensures
        ({
            let first = a.after_line(l, false);
            let second = (AnswerV { buf: rest, ..first.answer }).read_lines();
            &&& a.read_lines().emits == first.emits + second.emits
            &&& a.read_lines().answer == second.answer
            &&& a.read_lines().error == second.error
        }),
{
    lemma_first_line(line, rest);
    let b = AnswerV { buf: rest, ..a };
    let x = a.after_line(l, false);
    let y = b.after_line(l, false);
    assert(x.emits == y.emits);
    assert(AnswerV { buf: rest, ..x.answer } == AnswerV { buf: rest, ..y.answer });
}

/// A line that cannot be read ends the reading with its fault, and is not read again.
pub proof fn broken_lines_are_told(a: AnswerV, line: Seq<char>, rest: Seq<char>, e: Seq<char>)
    requires
        !a.done,
        !line.contains('\n'),
        a.buf == line.push('\n') + rest,
        stream::line_of(a.wire, line.push('\n')) == Err::<LineV, Seq<char>>(e),
    ensures
        a.read_lines().error == Some(e),
        a.read_lines().emits.len() == 0,
        a.read_lines().answer == (AnswerV { buf: rest, ..a }),
{
    lemma_first_line(line, rest);
}

proof fn lemma_first_line(line: Seq<char>, rest: Seq<char>)
    requires
        !line.contains('\n'),
    ensures
        text::find(line.push('\n') + rest, seq!['\n']) == Some(line.len() as int),
        (line.push('\n') + rest).take(line.len() as int + 1) == line.push('\n'),
        (line.push('\n') + rest).skip(line.len() as int + 1) == rest,
{
    let s = line.push('\n') + rest;
    let n = line.len() as int;
    text::lemma_find_from(s, seq!['\n'], 0);
    assert(s.subrange(n, n + 1) =~= seq!['\n']);
    assert(text::occurs_at(s, seq!['\n'], n));
    let i = text::find(s, seq!['\n'])->0;
    if i < n {
        assert(s.subrange(i, i + 1)[0] == line[i]);
    }
    assert(s.take(n + 1) =~= line.push('\n'));
    assert(s.skip(n + 1) =~= rest);
}

/// What is no whole line yet waits.
pub proof fn unfinished_lines_wait(a: AnswerV)
    requires
        !a.buf.contains('\n'),
    ensures
        a.read_lines().answer == a,
        a.read_lines().emits.len() == 0,
        a.read_lines().error is None,
{
    text::lemma_find_from(a.buf, seq!['\n'], 0);
    if let Some(i) = text::find(a.buf, seq!['\n']) {
        assert(a.buf.subrange(i, i + 1)[0] == a.buf[i]);
    }
}

/// A conversation gets a title, and every other stays as it is.
pub proof fn only_one_conversation_is_titled(
    c: ConversationRowV,
    id: Seq<char>,
    title: Seq<char>,
)
    ensures
        c.conversation.id != id ==> journal::titled(c, id, title) == c,
        c.conversation.id == id ==> journal::titled(c, id, title).conversation.title == title
            && journal::titled(c, id, title).conversation.id == id && journal::titled(
            c,
            id,
            title,
        ).created_at == c.created_at,
{
}

/// A provider in the cloud without a key cannot answer; one with a key can be asked.
pub proof fn keys_are_needed_in_the_cloud(s: settings::Settings)
    ensures
        ({
            let key = settings::creds_of(rows::vals(s.providers@), s.llm_provider@).api_key;
            let r = bridge::status_by_settings(s);
            &&& s.llm_provider@ == "ollama"@ ==> r is None
            &&& r is Some && !r->0.ok <==> s.llm_provider@ != "ollama"@ && text::trim(key).len() == 0
        }),
{
    reveal_strlit("ollama");
    reveal_strlit("anthropic");
    assert("ollama"@.len() != "anthropic"@.len());
}

/// The local provider can answer exactly where it lists its models and the one that is wanted, if
/// any is, is among them; one in the cloud that has a key can in any case.
pub proof fn local_models_must_be_there(
    provider: Seq<char>,
    model: Seq<char>,
    models: Result<Seq<Seq<char>>, Seq<char>>,
)
    ensures
        bridge::status_by_models(provider, model, models).ok <==> provider != "ollama"@ || (
        models is Ok && (text::trim(model).len() == 0 || models->Ok_0.contains(text::trim(model)))),
{
}

/// Answers are asked of the provider that is set, with its own key.
pub proof fn clients_have_their_own_key(s: settings::Settings)
    ensures
        ({
            let key = settings::creds_of(rows::vals(s.providers@), s.llm_provider@).api_key;
            match bridge::client_for(s) {
                bridge::ClientV::Anthropic(k) => s.llm_provider@ == "anthropic"@ && k == key,
                bridge::ClientV::OpenAiCompat(base, k) => bridge::compat_base(s.llm_provider@)
                    == Some(base) && k == key,
                bridge::ClientV::Ollama(host) => s.llm_provider@ != "anthropic"@
                    && bridge::compat_base(s.llm_provider@) is None && host == s.ollama_host@,
            }
        }),
{
}

/// The turns of a conversation are its messages, in order, each with who said it.
pub proof fn turns_are_the_messages(db: crate::manifest::DbV, conversation: Seq<char>, i: int)
    ensures
        ({
            let m = journal::messages_of(db.messages, conversation);
            let t = crate::ask::turns_of(db, conversation);
            &&& t.len() == m.len()
            &&& 0 <= i < m.len() ==> t[i].content == m[i].content && t[i].role == m[i].role.name()
        }),
{
}

/// A citation that is kept says what its result said: number, citation, file, page and passage.
pub proof fn citations_say_what_results_said(r: ResultV)
    ensures
        ({
            let c = bridge::cited(r);
            &&& c.rank == r.rank
            &&& c.citation == r.citation
            &&& c.source_path == r.source_path
            &&& c.page == r.page
            &&& c.text == r.text
        }),
{
}

/// A question is put to all collections that were chosen and that there are, by name.
pub proof fn every_chosen_collection_is_asked(
    db: crate::manifest::DbV,
    chosen: Seq<Seq<char>>,
    c: CollectionV,
)
    ensures
        crate::ask::asked_collections(db, chosen).contains(c) <==> db.collections.contains(c)
            && chosen.contains(c.id),
{
    broadcast use vstd::seq_lib::group_to_multiset_ensures;

    let v = journal::by_name(db.collections);
    collections_are_listed_by_name(db.collections, 0, 0);
    assert(v.contains(c) <==> v.to_multiset().count(c) > 0);
    assert(db.collections.contains(c) <==> db.collections.to_multiset().count(c) > 0);
    lemma_kept(v, bridge::chosen(chosen), c);
}

} // verus!
