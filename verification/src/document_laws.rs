//! What the documents made of answers hold.
use vstd::prelude::*;
use crate::artifacts;
use crate::artifacts::SourceV;
use crate::json;
use crate::json::JsonV;
use crate::llm;
use crate::shape;
use crate::text;

verus! {

/// The sources of the front matter, a line each.
pub open spec fn matter_parts(v: Seq<SourceV>) -> spec_fn(int) -> Seq<char> {
    |i: int| "  - "@ + artifacts::yaml_quoted(v[i].citation) + "\n"@
}

/// The sources at the end, each with its number, citation, path, and page where there is one.
pub open spec fn entry_parts(v: Seq<SourceV>) -> spec_fn(int) -> Seq<char> {
    |i: int|
        text::decimal(v[i].rank) + ". "@ + v[i].citation + "\n   `"@ + v[i].source_path + "`"@ + (
        match v[i].page {
            Some(p) => " (p."@ + text::decimal(p as nat) + ")"@,
            None => Seq::empty(),
        }) + "\n"@
}

/// Every source stands in the front matter and at the end of a document, in order.
pub proof fn documents_name_every_source(v: Seq<SourceV>)
    ensures
        shape::laid(v.len() as int, matter_parts(v), artifacts::matter_sources(v)),
        shape::laid(v.len() as int, entry_parts(v), artifacts::source_entries(v)),
    decreases v.len(),
{
    if v.len() == 0 {
        shape::lemma_laid_none(matter_parts(v));
        shape::lemma_laid_none(entry_parts(v));
    } else {
        let less = v.drop_last();
        let n = less.len() as int;
        documents_name_every_source(less);
        assert forall|i: int| 0 <= i < n implies #[trigger] matter_parts(less)(i) == matter_parts(v)(
            i,
        ) by {
            assert(less[i] == v[i]);
        }
        assert forall|i: int| 0 <= i < n implies #[trigger] entry_parts(less)(i) == entry_parts(v)(
            i,
        ) by {
            assert(less[i] == v[i]);
        }
        shape::lemma_laid_step(
            n,
            matter_parts(less),
            matter_parts(v),
            artifacts::matter_sources(less),
        );
        shape::lemma_laid_step(n, entry_parts(less), entry_parts(v), artifacts::source_entries(less));
        assert(artifacts::matter_sources(v) =~= artifacts::matter_sources(less) + matter_parts(v)(
            n,
        ));
    }
}

/// A document holds the question as title and heading, the answer, and the source list, in this
/// order.
pub proof fn documents_hold_question_answer_and_sources(d: artifacts::DocV)
    ensures
        exists|matter: Seq<char>, entries: Seq<char>|
            {
                &&& #[trigger] shape::laid(
                    d.sources.len() as int,
                    matter_parts(d.sources),
                    matter,
                )
                &&& #[trigger] shape::laid(
                    d.sources.len() as int,
                    entry_parts(d.sources),
                    entries,
                )
                &&& artifacts::markdown(d) == "---\n"@ + ("title: "@ + artifacts::yaml_quoted(
                    text::trim(d.question),
                ) + "\n"@) + ("created: "@ + artifacts::yaml_quoted(text::trim(d.created)) + "\n"@)
                    + ("model: "@ + artifacts::yaml_quoted(text::trim(d.model)) + "\n"@) + (
                "collection: "@ + artifacts::yaml_quoted(text::trim(d.collection)) + "\n"@) + (
                if d.sources.len() == 0 {
                    "sources: []\n"@
                } else {
                    "sources:\n"@ + matter
                }) + "---\n\n"@ + "# "@ + text::trim(d.question) + "\n\n"@ + text::trim(d.answer)
                    + "\n\n## Sources\n\n"@ + (if d.sources.len() == 0 {
                    "_No sources retrieved._\n"@
                } else {
                    entries
                })
            },
{
    documents_name_every_source(d.sources);
    reveal_strlit("title: ");
    reveal_strlit("title");
    reveal_strlit("created: ");
    reveal_strlit("created");
    reveal_strlit("model: ");
    reveal_strlit("model");
    reveal_strlit("collection: ");
    reveal_strlit("collection");
    reveal_strlit(": ");
    assert("title"@ + ": "@ =~= "title: "@);
    assert("created"@ + ": "@ =~= "created: "@);
    assert("model"@ + ": "@ =~= "model: "@);
    assert("collection"@ + ": "@ =~= "collection: "@);
    let matter = artifacts::matter_sources(d.sources);
    let entries = artifacts::source_entries(d.sources);
    assert(shape::laid(d.sources.len() as int, matter_parts(d.sources), matter));
    assert(shape::laid(d.sources.len() as int, entry_parts(d.sources), entries));
}

/// The letters and digits of a text, in lower case.
pub open spec fn letters(s: Seq<char>) -> Seq<char>
    decreases s.len(),
{
    if s.len() == 0 {
        s
    } else if artifacts::plain(s.last()) {
        letters(s.drop_last()).push(text::lower_ascii(s.last()))
    } else {
        letters(s.drop_last())
    }
}

/// What is not a letter or digit turns into dashes, and every letter and digit stays, in lower case.
pub proof fn dashes_keep_every_letter(s: Seq<char>)
    ensures
        letters(artifacts::dashed(s)) == letters(s),
    decreases s.len(),
{
    if s.len() > 0 {
        let less = s.drop_last();
        dashes_keep_every_letter(less);
        let d = artifacts::dashed(less);
        let e = artifacts::dashed(s);
        if artifacts::plain(s.last()) {
            let c = text::lower_ascii(s.last());
            assert(e.drop_last() =~= d);
            assert(artifacts::plain(c) && text::lower_ascii(c) == c);
        } else if e.len() > d.len() {
            assert(e.drop_last() =~= d);
        }
    }
}

proof fn lemma_letters_front(s: Seq<char>)
    requires
        s.len() > 0,
        s[0] == '-',
    ensures
        letters(s.skip(1)) == letters(s),
    decreases s.len(),
{
    let t = s.skip(1);
    if s.len() == 1 {
        assert(s.drop_last() =~= t);
    } else {
        lemma_letters_front(s.drop_last());
        assert(t.drop_last() =~= s.drop_last().skip(1));
    }
}

proof fn lemma_letters_undashed(s: Seq<char>)
    ensures
        letters(artifacts::undashed(s)) == letters(s),
{
    lemma_letters_start(s);
    lemma_letters_end(artifacts::undashed_start(s));
}

proof fn lemma_letters_start(s: Seq<char>)
    ensures
        letters(artifacts::undashed_start(s)) == letters(s),
    decreases s.len(),
{
    if s.len() > 0 && s[0] == '-' {
        lemma_letters_front(s);
        lemma_letters_start(s.skip(1));
    }
}

proof fn lemma_letters_end(s: Seq<char>)
    ensures
        letters(artifacts::undashed_end(s)) == letters(s),
    decreases s.len(),
{
    if s.len() > 0 && s.last() == '-' {
        lemma_letters_end(s.drop_last());
    }
}

/// A short title's slug holds every letter and digit of it, in lower case and in order.
pub proof fn slugs_keep_the_letters_of_short_titles(title: Seq<char>)
    requires
        title.len() <= 60,
        letters(title).len() > 0,
    ensures
        letters(artifacts::slug_of(title)) == letters(title),
{
    dashes_keep_every_letter(title);
    let d = artifacts::dashed(title);
    lemma_dashed_len(title);
    lemma_letters_undashed(d);
    let s = artifacts::undashed(d);
    lemma_undashed_len(d);
    lemma_letters_undashed(s);
    let c = artifacts::undashed(s);
    assert(c.len() > 0);
}

proof fn lemma_dashed_len(s: Seq<char>)
    ensures
        artifacts::dashed(s).len() <= s.len(),
    decreases s.len(),
{
    if s.len() > 0 {
        lemma_dashed_len(s.drop_last());
    }
}

proof fn lemma_undashed_len(s: Seq<char>)
    ensures
        artifacts::undashed(s).len() <= s.len(),
{
    lemma_start_len(s);
    lemma_end_len(artifacts::undashed_start(s));
}

proof fn lemma_start_len(s: Seq<char>)
    ensures
        artifacts::undashed_start(s).len() <= s.len(),
    decreases s.len(),
{
    if s.len() > 0 && s[0] == '-' {
        lemma_start_len(s.skip(1));
    }
}

proof fn lemma_end_len(s: Seq<char>)
    ensures
        artifacts::undashed_end(s).len() <= s.len(),
    decreases s.len(),
{
    if s.len() > 0 && s.last() == '-' {
        lemma_end_len(s.drop_last());
    }
}

/// The names that a provider lists are all read, in order: one for each element whose field is a
/// text.
pub proof fn every_listed_name_is_read(
    nodes: Map<Seq<char>, JsonV>,
    list: Seq<char>,
    field: Seq<char>,
    n: nat,
)
    ensures
        shape::picks(
            n as int,
            |i: int|
                json::node_at(nodes, list + "/"@ + text::decimal(i as nat) + "/"@ + field) is Text,
            |i: int|
                json::node_at(
                    nodes,
                    list + "/"@ + text::decimal(i as nat) + "/"@ + field,
                )->Text_0,
            llm::field_texts(nodes, list, field, n),
        ),
    decreases n,
{
    let keep = |i: int|
        json::node_at(nodes, list + "/"@ + text::decimal(i as nat) + "/"@ + field) is Text;
    let value = |i: int|
        json::node_at(nodes, list + "/"@ + text::decimal(i as nat) + "/"@ + field)->Text_0;
    if n == 0 {
        shape::lemma_picks_none(keep, value);
    } else {
        every_listed_name_is_read(nodes, list, field, (n - 1) as nat);
        shape::lemma_picks_step(
            n - 1,
            keep,
            value,
            keep,
            value,
            llm::field_texts(nodes, list, field, (n - 1) as nat),
        );
    }
}

} // verus!
