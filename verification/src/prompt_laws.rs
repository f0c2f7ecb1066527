//! What every prompt holds, and how it is fitted to the context window.
use vstd::prelude::*;
use crate::prompt;
use crate::prompt::TurnV;
use crate::query::ResultV;
use crate::shape;
use crate::text;

verus! {

/// The parts that the sources are written as: the number in brackets, the citation, and the passage.
pub open spec fn source_parts(sources: Seq<ResultV>) -> spec_fn(int) -> Seq<char> {
    |i: int|
        "["@ + text::decimal(sources[i].rank) + "] "@ + sources[i].citation + "\n"@
            + sources[i].text + "\n\n"@
}

/// A turn is written as who spoke and the first 1500 characters of what was said, with a sign where
/// more was said.
pub open spec fn turn_parts(turns: Seq<TurnV>) -> spec_fn(int) -> Seq<char> {
    |i: int|
        (if turns[i].role == "assistant"@ {
            "Assistant: "@
        } else {
            "User: "@
        }) + (if turns[i].content.len() <= 1500 {
            turns[i].content
        } else {
            turns[i].content.subrange(0, 1500) + "…"@
        }) + "\n"@
}

/// A text is a prompt with these turns: all sources and turns stand in it, in order.
pub open spec fn is_prompt(
    question: Seq<char>,
    sources: Seq<ResultV>,
    turns: Seq<TurnV>,
    p: Seq<char>,
) -> bool {
    exists|said: Seq<char>, found: Seq<char>|
        {
            &&& #[trigger] shape::laid(turns.len() as int, turn_parts(turns), said)
            &&& #[trigger] shape::laid(sources.len() as int, source_parts(sources), found)
            &&& p == prompt::SYSTEM@ + "\n\n"@ + (if turns.len() == 0 {
                Seq::<char>::empty()
            } else {
                "Conversation so far:\n"@ + said + "\n"@
            }) + ("Sources:\n"@ + found + "\nQuestion: "@ + question
                + "\nAnswer (with [n] citations):"@)
        }
}

/// The sources are written one right after the other, each with its number, citation and text.
pub proof fn every_source_is_written(sources: Seq<ResultV>)
    ensures
        shape::laid(sources.len() as int, source_parts(sources), prompt::source_blocks(sources)),
    decreases sources.len(),
{
    if sources.len() == 0 {
        shape::lemma_laid_none(source_parts(sources));
    } else {
        let less = sources.drop_last();
        every_source_is_written(less);
        assert forall|i: int| 0 <= i < less.len() implies #[trigger] source_parts(less)(i)
            == source_parts(sources)(i) by {
            assert(less[i] == sources[i]);
        }
        shape::lemma_laid_step(
            less.len() as int,
            source_parts(less),
            source_parts(sources),
            prompt::source_blocks(less),
        );
    }
}

/// Sources written together are the first ones written, then the others.
pub proof fn sources_are_written_side_by_side(a: Seq<ResultV>, b: Seq<ResultV>)
    ensures
        prompt::source_blocks(a + b) == prompt::source_blocks(a) + prompt::source_blocks(b),
    decreases b.len(),
{
    if b.len() == 0 {
        assert(a + b =~= a);
        assert(prompt::source_blocks(b).len() == 0);
    } else {
        sources_are_written_side_by_side(a, b.drop_last());
        assert((a + b).drop_last() =~= a + b.drop_last());
        assert(prompt::source_blocks(a + b) =~= prompt::source_blocks(a) + prompt::source_blocks(b));
    }
}

proof fn lemma_turn(turns: Seq<TurnV>, i: int)
    requires
        0 <= i < turns.len(),
    ensures
        prompt::turn_line(turns[i]) == turn_parts(turns)(i),
{
    reveal_strlit("Assistant");
    reveal_strlit("User");
    reveal_strlit(": ");
    reveal_strlit("Assistant: ");
    reveal_strlit("User: ");
    assert("Assistant"@ + ": "@ =~= "Assistant: "@);
    assert("User"@ + ": "@ =~= "User: "@);
    assert(turns[i].content.len() > 1500 ==> turns[i].content.take(1500)
        =~= turns[i].content.subrange(0, 1500));
}

/// The turns are written one right after the other, each with who spoke.
pub proof fn every_turn_is_written(turns: Seq<TurnV>)
    ensures
        shape::laid(turns.len() as int, turn_parts(turns), prompt::turn_lines(turns)),
    decreases turns.len(),
{
    if turns.len() == 0 {
        shape::lemma_laid_none(turn_parts(turns));
    } else {
        let less = turns.drop_last();
        every_turn_is_written(less);
        assert forall|i: int| 0 <= i < less.len() implies #[trigger] turn_parts(less)(i)
            == turn_parts(turns)(i) by {
            assert(less[i] == turns[i]);
        }
        lemma_turn(turns, turns.len() - 1);
        shape::lemma_laid_step(
            less.len() as int,
            turn_parts(less),
            turn_parts(turns),
            prompt::turn_lines(less),
        );
    }
}

proof fn lemma_laid_once(n: int, part: spec_fn(int) -> Seq<char>, a: Seq<char>, b: Seq<char>)
    requires
        n >= 0,
        shape::laid(n, part, a),
        shape::laid(n, part, b),
    ensures
        a == b,
    decreases n,
{
    let c = choose|c: Seq<int>| #[trigger] shape::laid_at(n, part, a, c);
    let d = choose|d: Seq<int>| #[trigger] shape::laid_at(n, part, b, d);
    lemma_cuts_once(n, part, a, c, b, d, n);
    assert(a =~= a.subrange(0, c[n]));
    assert(b =~= b.subrange(0, d[n]));
}

proof fn lemma_cuts_once(
    n: int,
    part: spec_fn(int) -> Seq<char>,
    a: Seq<char>,
    c: Seq<int>,
    b: Seq<char>,
    d: Seq<int>,
    i: int,
)
    requires
        shape::laid_at(n, part, a, c),
        shape::laid_at(n, part, b, d),
        0 <= i <= n,
    ensures
        c[i] == d[i],
        0 <= c[i] <= a.len(),
        0 <= d[i] <= b.len(),
        a.subrange(0, c[i]) == b.subrange(0, d[i]),
    decreases i,
{
    if i == 0 {
        assert(a.subrange(0, 0) =~= b.subrange(0, 0));
    } else {
        lemma_cuts_once(n, part, a, c, b, d, i - 1);
        assert(0 <= c[i - 1] <= c[i - 1 + 1] <= a.len());
        assert(0 <= d[i - 1] <= d[i - 1 + 1] <= b.len());
        let x = a.subrange(c[i - 1], c[i]);
        let y = b.subrange(d[i - 1], d[i]);
        assert(x == y);
        assert(x.len() == c[i] - c[i - 1]);
        assert(y.len() == d[i] - d[i - 1]);
        assert(a.subrange(0, c[i]) =~= a.subrange(0, c[i - 1]) + x);
        assert(b.subrange(0, d[i]) =~= b.subrange(0, d[i - 1]) + y);
    }
}

/// A prompt with given turns can be written in one way only.
pub proof fn prompts_are_written_in_one_way(
    question: Seq<char>,
    sources: Seq<ResultV>,
    turns: Seq<TurnV>,
    p: Seq<char>,
)
    ensures
        is_prompt(question, sources, turns, p) <==> p == prompt::assembled(
            question,
            sources,
            turns,
        ),
{
    let a = prompt::turn_lines(turns);
    let b = prompt::source_blocks(sources);
    every_turn_is_written(turns);
    every_source_is_written(sources);
    if is_prompt(question, sources, turns, p) {
        let (said, found) = choose|said: Seq<char>, found: Seq<char>|
            {
                &&& #[trigger] shape::laid(turns.len() as int, turn_parts(turns), said)
                &&& #[trigger] shape::laid(sources.len() as int, source_parts(sources), found)
                &&& p == prompt::SYSTEM@ + "\n\n"@ + (if turns.len() == 0 {
                    Seq::<char>::empty()
                } else {
                    "Conversation so far:\n"@ + said + "\n"@
                }) + ("Sources:\n"@ + found + "\nQuestion: "@ + question
                    + "\nAnswer (with [n] citations):"@)
            };
        lemma_laid_once(turns.len() as int, turn_parts(turns), said, a);
        lemma_laid_once(sources.len() as int, source_parts(sources), found, b);
    }
}

/// A text is the prompt with the turns from `k` on: six at most, within 12902 estimated tokens where
/// there is any, and no turn before them would have fitted.
pub open spec fn fits(
    question: Seq<char>,
    sources: Seq<ResultV>,
    history: Seq<TurnV>,
    p: Seq<char>,
    k: int,
) -> bool {
    &&& 0 <= k <= history.len()
    &&& history.len() - k <= 6
    &&& is_prompt(question, sources, history.skip(k), p)
    &&& k < history.len() ==> prompt::estimate(p) <= 12902
    &&& k > 0 && history.len() - k < 6 ==> forall|q: Seq<char>| #[trigger]
        is_prompt(question, sources, history.skip(k - 1), q) ==> prompt::estimate(q) > 12902
}

/// The turns of a prompt are the last of the conversation, and the sources stand in it whole: it has
/// at most six turns, all that fit, and it is over 12902 estimated tokens only without any.
pub proof fn prompts_hold_all_that_fits(
    question: Seq<char>,
    sources: Seq<ResultV>,
    history: Seq<TurnV>,
)
    ensures
        exists|k: int| #[trigger]
            fits(question, sources, history, prompt::prompt_for(question, sources, history), k),
{
    let turns = prompt::recent(history);
    let base = history.len() - turns.len();
    assert(turns =~= history.skip(base));
    let j = lemma_fits(question, sources, turns);
    let p = prompt::prompt_for(question, sources, history);
    let k = base + j;
    assert(turns.skip(j) =~= history.skip(k));
    prompts_are_written_in_one_way(question, sources, history.skip(k), p);
    assert(is_prompt(question, sources, history.skip(k), p));
    if k > 0 && history.len() - k < 6 {
        assert(j > 0);
        assert(turns.skip(j - 1) =~= history.skip(k - 1));
        assert forall|q: Seq<char>| #[trigger]
            is_prompt(question, sources, history.skip(k - 1), q) implies prompt::estimate(q)
            > 12902 by {
            prompts_are_written_in_one_way(question, sources, history.skip(k - 1), q);
        }
    }
    assert(fits(question, sources, history, p, k));
}

proof fn lemma_fits(question: Seq<char>, sources: Seq<ResultV>, turns: Seq<TurnV>) -> (j: int)
    ensures
        0 <= j <= turns.len(),
        prompt::fitted(question, sources, turns) == prompt::assembled(
            question,
            sources,
            turns.skip(j),
        ),
        j < turns.len() ==> prompt::estimate(prompt::fitted(question, sources, turns)) <= 12902,
        j > 0 ==> prompt::estimate(prompt::assembled(question, sources, turns.skip(j - 1)))
            > 12902,
    decreases turns.len(),
{
    assert(prompt::budget() == 12902);
    assert(turns.skip(0) =~= turns);
    let p = prompt::assembled(question, sources, turns);
    if turns.len() == 0 || prompt::estimate(p) <= prompt::budget() {
        0
    } else {
        let j = lemma_fits(question, sources, turns.skip(1));
        assert(turns.skip(1).skip(j) =~= turns.skip(j + 1));
        if j > 0 {
            assert(turns.skip(1).skip(j - 1) =~= turns.skip(j));
        }
        j + 1
    }
}

/// Every source stands in every prompt as a whole, whatever the question and the conversation.
pub proof fn prompts_hold_every_source(
    question: Seq<char>,
    sources: Seq<ResultV>,
    history: Seq<TurnV>,
    i: int,
)
    requires
        0 <= i < sources.len(),
    ensures
        ({
            let p = prompt::prompt_for(question, sources, history);
            let s = "["@ + text::decimal(sources[i].rank) + "] "@ + sources[i].citation + "\n"@
                + sources[i].text + "\n\n"@;
            exists|a: int|
                0 <= a && a + s.len() <= p.len() && #[trigger] p.subrange(a, a + s.len()) == s
        }),
{
    let p = prompt::prompt_for(question, sources, history);
    let s = source_parts(sources)(i);
    let found = prompt::source_blocks(sources);
    let g = prompt::grounding(question, sources);
    let tail = "\nQuestion: "@ + question + "\nAnswer (with [n] citations):"@;
    prompt::prompt_keeps_sources_and_question(question, sources, history);
    every_source_is_written(sources);
    shape::lemma_laid_holds(sources.len() as int, source_parts(sources), found, i);
    let a = choose|a: int|
        0 <= a && a + s.len() <= found.len() && #[trigger] found.subrange(a, a + s.len()) == s;
    assert(g =~= "Sources:\n"@ + found + tail);
    let b = lemma_part_of("Sources:\n"@, found, tail, s, a);
    let head = p.subrange(0, p.len() - g.len());
    assert(p =~= head + g + Seq::<char>::empty());
    let c = lemma_part_of(head, g, Seq::<char>::empty(), s, b);
    assert(p.subrange(c, c + s.len()) == s);
}

proof fn lemma_part_of(
    before: Seq<char>,
    mid: Seq<char>,
    after: Seq<char>,
    s: Seq<char>,
    a: int,
) -> (b: int)
    requires
        0 <= a,
        a + s.len() <= mid.len(),
        mid.subrange(a, a + s.len()) == s,
    ensures
        b == before.len() + a,
        b + s.len() <= (before + mid + after).len(),
        (before + mid + after).subrange(b, b + s.len()) == s,
{
    let b = before.len() + a;
    assert((before + mid + after).subrange(b, b + s.len()) =~= mid.subrange(a, a + s.len()));
    b
}

/// The places of the Cyrillic letters of a text.
pub open spec fn cyrillic_places(s: Seq<char>, at: Seq<int>) -> bool {
    shape::picked_at(
        s.len() as int,
        |i: int| '\u{400}' <= s[i] && s[i] <= '\u{4FF}',
        |i: int| i,
        at,
        at,
    )
}

/// An estimate is a token for every four characters, rounded up, or for every two and a half where a
/// fifth of the characters or more are Cyrillic.
pub proof fn estimates_go_by_script(s: Seq<char>)
    ensures
        exists|at: Seq<int>|
            {
                &&& #[trigger] cyrillic_places(s, at)
                &&& at.len() * 5 >= s.len() ==> s.len() * 2 <= prompt::estimate(s) * 5 < s.len() * 2
                    + 5
                &&& at.len() * 5 < s.len() ==> s.len() <= prompt::estimate(s) * 4 < s.len() + 4
            },
{
    let at = lemma_cyrillic(s);
}

pub proof fn lemma_cyrillic(s: Seq<char>) -> (at: Seq<int>)
    ensures
        cyrillic_places(s, at),
        at.len() == prompt::cyrillic_count(s),
    decreases s.len(),
{
    if s.len() == 0 {
        Seq::empty()
    } else {
        let less = s.drop_last();
        let n = s.len() - 1;
        let a = lemma_cyrillic(less);
        let keep = |i: int| '\u{400}' <= s[i] && s[i] <= '\u{4FF}';
        let at = if prompt::is_cyrillic(s[n]) {
            a.push(n)
        } else {
            a
        };
        let keep0 = |i: int| '\u{400}' <= less[i] && less[i] <= '\u{4FF}';
        assert forall|i: int| 0 <= i < s.len() && #[trigger] keep(i) implies at.contains(i) by {
            if i < n {
                assert(less[i] == s[i]);
                assert(keep0(i));
                let k = choose|k: int| 0 <= k < a.len() && a[k] == i;
                assert(at[k] == i);
            } else {
                assert(at[a.len() as int] == i);
            }
        }
        assert forall|k: int| 0 <= k < at.len() implies 0 <= #[trigger] at[k] < s.len() && keep(
            at[k],
        ) by {
            if k < a.len() {
                assert(at[k] == a[k]);
                assert(keep0(a[k]));
                assert(less[a[k]] == s[a[k]]);
            }
        }
        at
    }
}

/// A text that is cut keeps its head and ends in a sign; a text that is not is whole.
pub proof fn cut_texts_keep_their_head(s: Seq<char>, max: nat)
    ensures
        s.len() <= max ==> prompt::cut(s, max) == s,
        s.len() > max ==> prompt::cut(s, max).len() == max + 1 && prompt::cut(s, max)[max as int]
            == '…' && forall|i: int| 0 <= i < max ==> #[trigger] prompt::cut(s, max)[i] == s[i],
{
    reveal_strlit("…");
}

} // verus!
