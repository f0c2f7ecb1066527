//! What is told over the wire and to the outside.
use vstd::prelude::*;
use crate::convert;
use crate::convert::Route;
use crate::fast;
use crate::formats;
use crate::html;
use crate::html::DomV;
use crate::json;
use crate::manifest;
use crate::manifest::DbV;
use crate::sections;
use crate::sections::SectionV;
use crate::service;
use crate::settings;
use crate::stream;
use crate::stream::{LineV, Wire};
use crate::text;
use crate::think;
use crate::types::CollectionV;

verus! {

/// A line says nothing.
pub open spec fn says_nothing(l: LineV) -> bool {
    l.content is None && l.reasoning is None && l.in_tokens is None && l.out_tokens is None
        && !l.done
}

/// An event carries what stands behind its mark, without the whitespace around it.
pub proof fn events_carry_their_data(doc: Seq<char>)
    ensures
        stream::event_data("data:"@ + doc) == Some(text::trim(doc)),
{
    reveal_strlit("data:");
    let l = "data:"@ + doc;
    assert(l[0] == 'd');
    assert(text::ltrim(l) == l);
    assert(l.take(5) =~= "data:"@);
    assert(l.skip(5) =~= doc);
}

/// Lines without the mark of an event say nothing, and neither do blank lines.
pub proof fn other_lines_say_nothing(line: Seq<char>)
    ensures
        !text::starts(text::ltrim(line), "data:"@) ==> {
            &&& stream::line_of(Wire::Anthropic, line) is Ok
            &&& says_nothing(stream::line_of(Wire::Anthropic, line)->Ok_0)
            &&& stream::line_of(Wire::OpenAi, line) is Ok
            &&& says_nothing(stream::line_of(Wire::OpenAi, line)->Ok_0)
        },
        text::trim(line).len() == 0 ==> stream::line_of(Wire::Generate, line) is Ok
            && says_nothing(stream::line_of(Wire::Generate, line)->Ok_0),
{
}

/// The mark of the end ends an answer of the chat-completions API, and only it does.
pub proof fn the_mark_of_the_end_ends_an_answer(line: Seq<char>)
    ensures
        stream::line_of(Wire::OpenAi, line) is Ok ==> (stream::line_of(
            Wire::OpenAi,
            line,
        )->Ok_0.done <==> stream::event_data(line) == Some("[DONE]"@)),
{
}

/// A line whose document cannot be parsed gives the parser's reason.
pub proof fn broken_documents_are_told(line: Seq<char>, e: Seq<char>)
    requires
        text::trim(line).len() > 0,
        json::json_parsed(text::trim(line)) == Err::<Map<Seq<char>, json::JsonV>, Seq<char>>(e),
    ensures
        stream::line_of(Wire::Generate, line) == Err::<LineV, Seq<char>>(e),
{
}

/// The file that the helper writes for a batch is not that of another.
pub proof fn batches_have_files_of_their_own(coll: Seq<char>, a: nat, b: nat)
    requires
        fast::parquet_name(coll, a) == fast::parquet_name(coll, b),
    ensures
        a == b,
{
    let x = text::decimal(a);
    let y = text::decimal(b);
    let head = "fastindex-"@ + coll + "-"@;
    let tail = ".parquet"@;
    let s = fast::parquet_name(coll, a);
    assert(s =~= head + x + tail);
    assert(s =~= head + y + tail);
    assert(x.len() == y.len());
    assert(x =~= s.subrange(head.len() as int, head.len() as int + x.len()));
    assert(y =~= s.subrange(head.len() as int, head.len() as int + y.len()));
    text::lemma_decimal_value(a);
    text::lemma_decimal_value(b);
}

/// A file that ingest accepts is read in some way.
pub proof fn accepted_files_are_read(path: Seq<char>)
    requires
        formats::supported(path),
    ensures
        convert::route_of(path) != Route::Unsupported,
{
    let e = formats::ext_name(path)->0;
    let i = choose|i: int| 0 <= i < 3 && #[trigger] formats::INGEST_EXTS@[i]@ == e;
}

/// Every element of a block ends a line: whatever stands in it, a line break follows.
pub proof fn blocks_end_lines(nodes: Seq<DomV>, lo: int, s: Seq<SectionV>)
    requires
        0 <= lo < nodes.len(),
        nodes[lo].kind is Element,
        html::among(nodes[lo].kind->Element_0, html::BLOCKS@),
        !html::among(nodes[lo].kind->Element_0, html::SKIPPED@),
        nodes[lo].kind->Element_0 != "h1"@,
        nodes[lo].kind->Element_0 != "h2"@,
        s.len() > 0,
    ensures
        ({
            let end = html::subtree_end(nodes, lo, lo + 1);
            let r = html::walked(nodes, lo, end, s);
            r.len() > 0 && r.last().body.len() > 0 && r.last().body.last() == '\n'
        }),
{
    crate::markup_laws::subtrees_are_all_that_is_deeper(nodes, lo, lo + 1);
    let end = html::subtree_end(nodes, lo, lo + 1);
    crate::markup_laws::lemma_walked_grows(nodes, lo + 1, end, s);
    let inner = html::walked(nodes, lo + 1, end, s);
    let here = sections::extended(inner, seq!['\n']);
    assert(html::next_sibling(nodes, lo, end) == end);
    assert(html::walked(nodes, end, end, here) == here);
}

/// The manifest made ready for a run has as many rows as before, each filled in, and only skips
/// within the collection's sources; nothing else changes.
pub proof fn readying_changes_paths_and_strays_only(
    db: DbV,
    coll: CollectionV,
    scan: Seq<(Seq<char>, Seq<char>)>,
    i: int,
)
    ensures
        ({
            let r = service::readied(db, coll, scan);
            &&& r.state.len() == db.state.len()
            &&& 0 <= i < db.state.len() ==> r.state[i] == manifest::filled(
                coll.id,
                scan,
                db.state[i],
            )
            &&& r.skips == manifest::swept(db.skips, coll.id, coll.source_paths)
            &&& r.collections == db.collections && r.notebook == db.notebook && r.conversations
                == db.conversations && r.messages == db.messages && r.rechunk == db.rechunk
        }),
{
}

/// The model for answers is the local one for the local provider, and a cloud provider's own; only
/// Anthropic has one to fall back on.
pub proof fn models_are_the_providers_own(
    provider: Seq<char>,
    local: Seq<char>,
    v: Seq<(Seq<char>, settings::CredsV)>,
    fallback: Seq<char>,
)
    ensures
        ({
            let own = settings::creds_of(v, provider).model;
            let m = settings::model_of(provider, local, v, fallback);
            &&& provider == "ollama"@ ==> m == local
            &&& provider != "ollama"@ && own.len() > 0 ==> m == own
            &&& provider == "anthropic"@ && own.len() == 0 ==> m == fallback
            &&& provider != "ollama"@ && provider != "anthropic"@ && own.len() == 0 ==> m.len() == 0
        }),
{
    reveal_strlit("ollama");
    reveal_strlit("anthropic");
    assert("ollama"@.len() != "anthropic"@.len());
}

proof fn lemma_tag_at(before: Seq<char>, tag: Seq<char>, rest: Seq<char>)
    requires
        !before.contains('<'),
        tag.len() > 0,
        tag[0] == '<',
    ensures
        text::find(before + tag + rest, tag) == Some(before.len() as int),
        (before + tag + rest).take(before.len() as int) == before,
        (before + tag + rest).skip((before.len() + tag.len()) as int) == rest,
{
    let s = before + tag + rest;
    let n = before.len() as int;
    let m = (n + tag.len()) as int;
    assert(s.subrange(n, m) =~= tag);
    assert(text::occurs_at(s, tag, n));
    assert(s.take(n) =~= before);
    assert(s.skip(m) =~= rest);
    assert forall|i: int| 0 <= i < n implies !(#[trigger] text::occurs_at(s, tag, i)) by {
        assert(s[i] == before[i]);
        assert(before.contains(before[i]));
        if text::occurs_at(s, tag, i) {
            assert(s.subrange(i, i + tag.len())[0] == s[i]);
        }
    }
    lemma_find_first(s, tag, n);
}

proof fn lemma_find_first(s: Seq<char>, tag: Seq<char>, n: int)
    requires
        0 <= n,
        text::occurs_at(s, tag, n),
        forall|i: int| 0 <= i < n ==> !(#[trigger] text::occurs_at(s, tag, i)),
    ensures
        text::find(s, tag) == Some(n),
{
    text::lemma_find_from(s, tag, 0);
}

proof fn lemma_no_tag(in_think: bool, s: Seq<char>)
    requires
        !s.contains('<'),
    ensures
        ({
            let r = think::split(in_think, s);
            &&& r.in_think == in_think
            &&& r.buf.len() == 0
            &&& in_think ==> r.reasoning == s && r.content.len() == 0
            &&& !in_think ==> r.content == s && r.reasoning.len() == 0
        }),
{
    let tag = think::next_tag(in_think);
    reveal_strlit("<think>");
    reveal_strlit("</think>");
    text::lemma_find_from(s, tag, 0);
    if let Some(i) = text::find(s, tag) {
        assert(s.subrange(i, i + tag.len())[0] == s[i]);
    }
    think::lemma_partial(s, tag);
    let k = think::partial(s, tag) as int;
    if k > 0 {
        assert(s.skip(s.len() - k)[0] == s[s.len() - k]);
        assert(tag.take(k)[0] == tag[0]);
    }
    assert(s.take(s.len() as int) =~= s);
    let r = think::split(in_think, s);
    assert(s + Seq::<char>::empty() =~= s);
}

/// What stands between the tags of a thought is thought, and what stands around them is answer; a
/// thought that is not closed goes on.
pub proof fn thoughts_stand_between_their_tags(a: Seq<char>, b: Seq<char>, c: Seq<char>)
    requires
        !a.contains('<'),
        !b.contains('<'),
        !c.contains('<'),
    ensures
        ({
            let r = think::split(false, a + "<think>"@ + (b + "</think>"@ + c));
            r.content == a + c && r.reasoning == b && !r.in_think && r.buf.len() == 0
        }),
        ({
            let r = think::split(false, a + "<think>"@ + b);
            r.content == a && r.reasoning == b && r.in_think && r.buf.len() == 0
        }),
{
    reveal_strlit("<think>");
    reveal_strlit("</think>");
    let rest = b + "</think>"@ + c;
    lemma_tag_at(a, "<think>"@, rest);
    lemma_tag_at(b, "</think>"@, c);
    lemma_no_tag(false, c);
    lemma_tag_at(a, "<think>"@, b);
    lemma_no_tag(true, b);
    let inner = think::split(true, rest);
    assert(inner == think::behind(true, b, think::split(false, c)));
    assert(inner.reasoning =~= b);
    assert(inner.content =~= c);
    let whole = think::split(false, a + "<think>"@ + rest);
    assert(whole == think::behind(false, a, inner));
    let open = think::split(false, a + "<think>"@ + b);
    assert(open == think::behind(false, a, think::split(true, b)));
    assert(open.content =~= a);
}

} // verus!
