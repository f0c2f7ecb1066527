//! The grounded prompt: numbered sources, the question, and as much of the conversation as fits.
use vstd::prelude::*;
use crate::query::{ResultV, SearchResult};
use crate::rows;
use crate::text;

verus! {

/// What the model is told first.
pub const SYSTEM: &'static str = "You answer strictly from the numbered sources below. Cite the sources you use as [n]. If the sources do not contain the answer, say so plainly. Do not invent facts beyond the sources.";

/// A turn of the conversation.
#[derive(Debug, PartialEq, Eq)]
pub struct HistoryTurn {
    /// `user` or `assistant`.
    pub role: String,
    pub content: String,
}

/// What a [`HistoryTurn`] holds.
#[verifier::ext_equal]
pub struct TurnV {
    pub role: Seq<char>,
    pub content: Seq<char>,
}

impl View for HistoryTurn {
    type V = TurnV;

    open spec fn view(&self) -> TurnV {
        TurnV { role: self.role@, content: self.content@ }
    }
}

/// How many turns are looked back on, at most.
pub const MAX_HISTORY_TURNS: usize = 6;

/// How many characters of a turn are kept, at most.
pub const MAX_TURN_CHARS: usize = 1500;

/// The context window that models are asked for.
pub const NUM_CTX: u32 = 16384;

/// How many tokens of the context window are left for the answer.
pub const OUTPUT_HEADROOM_TOKENS: u32 = 2048;

/// How many tokens a prompt may have: nine tenths of the window less the room for the answer, since
/// tokens are only estimated.
pub open spec fn budget() -> nat {
    ((NUM_CTX - OUTPUT_HEADROOM_TOKENS) * 9 / 10) as nat
}

/// How many tokens a prompt may have.
pub fn prompt_token_budget() -> (r: usize)
    ensures
        r == budget(),
        r < NUM_CTX,
{
    ((NUM_CTX - OUTPUT_HEADROOM_TOKENS) * 9 / 10) as usize
}

/// A letter of the Cyrillic script.
pub open spec fn is_cyrillic(c: char) -> bool {
    '\u{0400}' <= c <= '\u{04FF}'
}

/// How many Cyrillic letters a text has.
pub open spec fn cyrillic_count(s: Seq<char>) -> nat
    decreases s.len(),
{
    if s.len() == 0 {
        0
    } else {
        cyrillic_count(s.drop_last()) + (if is_cyrillic(s.last()) {
            1nat
        } else {
            0
        })
    }
}

/// A quotient, rounded up.
pub open spec fn round_up(n: nat, d: nat) -> nat {
    (n + d - 1) as nat / d
}

/// About how many tokens a text has: one for every four characters, or for every two and a half
/// where a fifth or more of the text is Cyrillic.
pub open spec fn estimate(s: Seq<char>) -> nat {
    if cyrillic_count(s) * 5 >= s.len() {
        round_up(s.len() * 2, 5)
    } else {
        round_up(s.len(), 4)
    }
}

/// About how many tokens a text has.
pub fn estimate_tokens(s: &str) -> (r: usize)
    ensures
        r == estimate(s@),
{
    let v = text::chars_of(s);
    let mut cyrillic: usize = 0;
    assert(v@.take(0) =~= Seq::empty());
    for i in 0..v.len()
        invariant
            cyrillic == cyrillic_count(v@.take(i as int)),
            cyrillic <= i,
    {
        assert(v@.take(i + 1).drop_last() =~= v@.take(i as int));
        if '\u{0400}' <= v[i] && v[i] <= '\u{04FF}' {
            cyrillic = cyrillic + 1;
        }
    }
    assert(v@.take(v@.len() as int) =~= v@);
    let total: u128 = v.len() as u128;
    if (cyrillic as u128) * 5 >= total {
        ((total * 2 + 4) / 5) as usize
    } else {
        ((total + 3) / 4) as usize
    }
}

/// A text cut to a length, with a sign that it was cut.
pub open spec fn cut(s: Seq<char>, max: nat) -> Seq<char> {
    if s.len() <= max {
        s
    } else {
        s.take(max as int) + "…"@
    }
}

/// Cuts a text to a length.
pub fn truncate(s: &str, max: usize) -> (r: String)
    ensures
        r@ == cut(s@, max as nat),
{
    let v = text::chars_of(s);
    if v.len() <= max {
        s.to_owned()
    } else {
        let head = vstd::slice::slice_subrange(v.as_slice(), 0, max);
        assert(head@ =~= s@.take(max as int));
        let mut r = text::string_of(head);
        r.append("…");
        r
    }
}

/// A source as it stands in the prompt.
pub open spec fn source_block(r: ResultV) -> Seq<char> {
    "["@ + text::decimal(r.rank) + "] "@ + r.citation + "\n"@ + r.text + "\n\n"@
}

/// The sources as they stand in the prompt.
pub open spec fn source_blocks(v: Seq<ResultV>) -> Seq<char>
    decreases v.len(),
{
    if v.len() == 0 {
        Seq::empty()
    } else {
        source_blocks(v.drop_last()) + source_block(v.last())
    }
}

/// A turn as it stands in the prompt.
pub open spec fn turn_line(t: TurnV) -> Seq<char> {
    (if t.role == "assistant"@ {
        "Assistant"@
    } else {
        "User"@
    }) + ": "@ + cut(t.content, MAX_TURN_CHARS as nat) + "\n"@
}

/// Turns as they stand in the prompt.
pub open spec fn turn_lines(v: Seq<TurnV>) -> Seq<char>
    decreases v.len(),
{
    if v.len() == 0 {
        Seq::empty()
    } else {
        turn_lines(v.drop_last()) + turn_line(v.last())
    }
}

/// The conversation as it stands in the prompt; none leaves nothing.
pub open spec fn history_block(v: Seq<TurnV>) -> Seq<char> {
    if v.len() == 0 {
        Seq::empty()
    } else {
        "Conversation so far:\n"@ + turn_lines(v) + "\n"@
    }
}

/// What every prompt ends with: the sources and the question.
pub open spec fn grounding(question: Seq<char>, sources: Seq<ResultV>) -> Seq<char> {
    "Sources:\n"@ + source_blocks(sources) + "\nQuestion: "@ + question
        + "\nAnswer (with [n] citations):"@
}

/// A prompt with some turns of the conversation.
pub open spec fn assembled(
    question: Seq<char>,
    sources: Seq<ResultV>,
    turns: Seq<TurnV>,
) -> Seq<char> {
    SYSTEM@ + "\n\n"@ + history_block(turns) + grounding(question, sources)
}

/// The prompt with as many of the last turns as fit: the oldest go first.
pub open spec fn fitted(question: Seq<char>, sources: Seq<ResultV>, turns: Seq<TurnV>) -> Seq<char>
    decreases turns.len(),
{
    let p = assembled(question, sources, turns);
    if turns.len() == 0 || estimate(p) <= budget() {
        p
    } else {
        fitted(question, sources, turns.skip(1))
    }
}

/// The turns that are looked back on.
pub open spec fn recent(history: Seq<TurnV>) -> Seq<TurnV> {
    if history.len() <= MAX_HISTORY_TURNS {
        history
    } else {
        history.skip(history.len() - MAX_HISTORY_TURNS)
    }
}

/// The prompt for a question.
pub open spec fn prompt_for(
    question: Seq<char>,
    sources: Seq<ResultV>,
    history: Seq<TurnV>,
) -> Seq<char> {
    fitted(question, sources, recent(history))
}

fn write_sources(results: &[SearchResult]) -> (r: String)
    ensures
        r@ == source_blocks(rows::vals(results@)),
{
    let ghost all = rows::vals(results@);
    let mut out = String::new();
    assert(out@ =~= source_blocks(all.take(0)));
    for i in 0..results.len()
        invariant
            all == rows::vals(results@),
            out@ == source_blocks(all.take(i as int)),
    {
        let x = &results[i];
        proof {
            assert(all.take(i + 1).drop_last() =~= all.take(i as int));
            assert(all.take(i + 1).last() == x@);
        }
        let ghost before = out@;
        out.append("[");
        out.append(text::decimal_of(x.rank as u64).as_str());
        out.append("] ");
        out.append(x.citation.as_str());
        out.append("\n");
        out.append(x.text.as_str());
        out.append("\n\n");
        assert(out@ =~= before + source_block(x@));
    }
    assert(all.take(all.len() as int) =~= all);
    out
}

fn write_turns(history: &[HistoryTurn], start: usize) -> (r: String)
    requires
        start <= history@.len(),
    ensures
        r@ == turn_lines(rows::vals(history@).skip(start as int)),
{
    let ghost all = rows::vals(history@).skip(start as int);
    let mut out = String::new();
    assert(out@ =~= turn_lines(all.take(0)));
    for i in start..history.len()
        invariant
            start <= history@.len(),
            all == rows::vals(history@).skip(start as int),
            out@ == turn_lines(all.take(i - start)),
    {
        let t = &history[i];
        proof {
            assert(all.take(i - start + 1).drop_last() =~= all.take(i - start));
            assert(all.take(i - start + 1).last() == t@);
        }
        let ghost before = out@;
        if text::same_text(t.role.as_str(), "assistant") {
            out.append("Assistant");
        } else {
            out.append("User");
        }
        out.append(": ");
        out.append(truncate(t.content.as_str(), MAX_TURN_CHARS).as_str());
        out.append("\n");
        assert(out@ =~= before + turn_line(t@));
    }
    assert(all.take(all.len() as int) =~= all);
    out
}

fn assemble(question: &str, sources: &str, history: &[HistoryTurn], start: usize, Ghost(results): Ghost<
    Seq<ResultV>,
>) -> (r: String)
    requires
        start <= history@.len(),
        sources@ == source_blocks(results),
    ensures
        r@ == assembled(question@, results, rows::vals(history@).skip(start as int)),
{
    let mut r = SYSTEM.to_owned();
    r.append("\n\n");
    if start < history.len() {
        r.append("Conversation so far:\n");
        r.append(write_turns(history, start).as_str());
        r.append("\n");
    }
    r.append("Sources:\n");
    r.append(sources);
    r.append("\nQuestion: ");
    r.append(question);
    r.append("\nAnswer (with [n] citations):");
    assert(r@ =~= assembled(question@, results, rows::vals(history@).skip(start as int)));
    r
}

/// The prompt for a question, with its sources and the recent turns of the conversation, so that
/// the model can make sense of follow-ups. Turns are context, not sources. Where the prompt would
/// not fit, the oldest turns are left out; sources and question never are.
pub fn build_prompt_with_history(
    question: &str,
    results: &[SearchResult],
    history: &[HistoryTurn],
) -> (r: String)
    ensures
        r@ == prompt_for(question@, rows::vals(results@), rows::vals(history@)),
{
    let sources = write_sources(results);
    let ghost rs = rows::vals(results@);
    let ghost all = rows::vals(history@);
    let mut start: usize = if history.len() <= MAX_HISTORY_TURNS {
        0
    } else {
        history.len() - MAX_HISTORY_TURNS
    };
    assert(all.skip(start as int) =~= recent(all));
    let mut prompt = assemble(question, sources.as_str(), history, start, Ghost(rs));
    let limit: usize = prompt_token_budget();
    while start < history.len() && estimate_tokens(prompt.as_str()) > limit
        invariant
            limit == budget(),
            start <= history@.len(),
            all == rows::vals(history@),
            sources@ == source_blocks(rs),
            prompt@ == assembled(question@, rs, all.skip(start as int)),
            fitted(question@, rs, all.skip(start as int)) == prompt_for(question@, rs, all),
        decreases history@.len() - start,
    {
        assert(all.skip(start as int).skip(1) =~= all.skip(start + 1));
        start = start + 1;
        prompt = assemble(question, sources.as_str(), history, start, Ghost(rs));
    }
    prompt
}

/// The prompt for a question with its sources.
pub fn build_prompt(question: &str, results: &[SearchResult]) -> (r: String)
    ensures
        r@ == assembled(question@, rows::vals(results@), Seq::empty()),
{
    let none: Vec<HistoryTurn> = Vec::new();
    assert(rows::vals(none@) =~= Seq::empty());
    build_prompt_with_history(question, results, none.as_slice())
}

proof fn lemma_fitted(question: Seq<char>, sources: Seq<ResultV>, turns: Seq<TurnV>)
    ensures
        exists|k: int|
            0 <= k <= turns.len() && fitted(question, sources, turns) == #[trigger] assembled(
                question,
                sources,
                turns.skip(k),
            ) && (estimate(fitted(question, sources, turns)) <= budget() || k == turns.len()),
    decreases turns.len(),
{
    let p = assembled(question, sources, turns);
    assert(turns.skip(0) =~= turns);
    if turns.len() == 0 || estimate(p) <= budget() {
        assert(fitted(question, sources, turns) == assembled(question, sources, turns.skip(0)));
    } else {
        lemma_fitted(question, sources, turns.skip(1));
        let f = fitted(question, sources, turns);
        let k = choose|k: int|
            0 <= k <= turns.skip(1).len() && f == #[trigger] assembled(
                question,
                sources,
                turns.skip(1).skip(k),
            ) && (estimate(f) <= budget() || k == turns.skip(1).len());
        assert(turns.skip(1).skip(k) =~= turns.skip(k + 1));
        assert(f == assembled(question, sources, turns.skip(k + 1)));
    }
}

/// Sources and question are never trimmed: every prompt ends with all of them.
pub proof fn prompt_keeps_sources_and_question(
    question: Seq<char>,
    sources: Seq<ResultV>,
    history: Seq<TurnV>,
)
    ensures
        text::ends(prompt_for(question, sources, history), grounding(question, sources)),
{
    let turns = recent(history);
    lemma_fitted(question, sources, turns);
    let p = prompt_for(question, sources, history);
    let k = choose|k: int|
        0 <= k <= turns.len() && p == #[trigger] assembled(question, sources, turns.skip(k)) && (
        estimate(p) <= budget() || k == turns.len());
    let head = SYSTEM@ + "\n\n"@ + history_block(turns.skip(k));
    let tail = grounding(question, sources);
    assert(p == head + tail);
    assert((head + tail).subrange(head.len() as int, p.len() as int) =~= tail);
    assert(p.skip(p.len() - tail.len()) =~= tail);
}

/// A prompt with any turn of the conversation in it fits the budget, and what it keeps of the
/// conversation is always its end.
pub proof fn prompt_fits_or_stands_alone(
    question: Seq<char>,
    sources: Seq<ResultV>,
    history: Seq<TurnV>,
)
    ensures
        estimate(prompt_for(question, sources, history)) <= budget() || prompt_for(
            question,
            sources,
            history,
        ) == assembled(question, sources, Seq::empty()),
        exists|k: int|
            0 <= k <= recent(history).len() && prompt_for(question, sources, history)
                == #[trigger] assembled(question, sources, recent(history).skip(k)),
{
    let turns = recent(history);
    lemma_fitted(question, sources, turns);
    assert(turns.skip(turns.len() as int) =~= Seq::empty());
}

} // verus!
