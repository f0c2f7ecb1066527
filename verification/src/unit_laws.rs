//! What becomes of a book's text on its way to passages: no word of it is lost.
use vstd::prelude::*;
use crate::book::{BlockV, BookDocV};
use crate::chunk;
use crate::chunk::{ChunkParams, ChunkV, ParaV, PieceV, UnitV};
use crate::packing_laws;
use crate::pattern;
use crate::shape;
use crate::text;
use crate::text_laws;

verus! {

proof fn lemma_offset_front(pieces: Seq<Seq<char>>, breaks: Seq<Seq<char>>, i: nat)
    requires
        breaks.len() + 1 == pieces.len(),
        i + 1 < pieces.len(),
    ensures
        chunk::offset(pieces, breaks, i + 1) == pieces[0].len() + breaks[0].len() + chunk::offset(
            pieces.skip(1),
            breaks.skip(1),
            i,
        ),
    decreases i,
{
    if i > 0 {
        lemma_offset_front(pieces, breaks, (i - 1) as nat);
    } else {
        reveal_with_fuel(chunk::offset, 2);
    }
}

/// Each piece stands in the text at its offset.
proof fn lemma_piece_stands(pieces: Seq<Seq<char>>, breaks: Seq<Seq<char>>, i: nat)
    requires
        breaks.len() + 1 == pieces.len(),
        i < pieces.len(),
    ensures
        ({
            let s = pattern::interleave(pieces, breaks);
            let a = chunk::offset(pieces, breaks, i) as int;
            a + pieces[i as int].len() <= s.len() && s.subrange(a, a + pieces[i as int].len())
                == pieces[i as int]
        }),
    decreases pieces.len(),
{
    let s = pattern::interleave(pieces, breaks);
    if i == 0 {
        assert(s.subrange(0, pieces[0].len() as int) =~= pieces[0]);
    } else {
        let p = pieces.skip(1);
        let b = breaks.skip(1);
        lemma_piece_stands(p, b, (i - 1) as nat);
        lemma_offset_front(pieces, breaks, (i - 1) as nat);
        let t = pattern::interleave(p, b);
        let n = (pieces[0].len() + breaks[0].len()) as int;
        let a = chunk::offset(p, b, (i - 1) as nat) as int;
        assert(s =~= pieces[0] + breaks[0] + t);
        assert(s.subrange(n + a, n + a + pieces[i as int].len()) =~= t.subrange(
            a,
            a + pieces[i as int].len(),
        ));
    }
}

/// Each place of the text is in a piece or in a break.
proof fn lemma_piece_or_break(pieces: Seq<Seq<char>>, breaks: Seq<Seq<char>>, j: int) -> (i: nat)
    requires
        breaks.len() + 1 == pieces.len(),
        0 <= j < pattern::interleave(pieces, breaks).len(),
    ensures
        i < pieces.len(),
        ({
            let s = pattern::interleave(pieces, breaks);
            let a = chunk::offset(pieces, breaks, i) as int;
            let n = pieces[i as int].len();
            a <= j && (j < a + n || (i < breaks.len() && breaks[i as int].contains(s[j])))
        }),
    decreases pieces.len(),
{
    let s = pattern::interleave(pieces, breaks);
    if breaks.len() == 0 {
        0
    } else {
        let p = pieces.skip(1);
        let b = breaks.skip(1);
        let t = pattern::interleave(p, b);
        let n = (pieces[0].len() + breaks[0].len()) as int;
        assert(s =~= pieces[0] + breaks[0] + t);
        if j < pieces[0].len() {
            0
        } else if j < n {
            assert(breaks[0][j - pieces[0].len()] == s[j]);
            0
        } else {
            let i = lemma_piece_or_break(p, b, j - n);
            lemma_offset_front(pieces, breaks, i);
            assert(t[j - n] == s[j]);
            i + 1
        }
    }
}

proof fn lemma_breaks_are_white(s: Seq<char>, i: int, c: char)
    requires
        0 <= i < pattern::paragraph_breaks(s).len(),
        pattern::paragraph_breaks(s)[i].contains(c),
    ensures
        text::is_white(c),
    decreases s.len(),
{
    let n = pattern::break_len(s) as int;
    if n == 0 {
        lemma_breaks_are_white(s.skip(1), i, c);
    } else if i > 0 {
        assert(pattern::paragraph_breaks(s)[i] == pattern::paragraph_breaks(s.skip(n))[i - 1]);
        lemma_breaks_are_white(s.skip(n), i - 1, c);
    } else {
        let t = s.skip(1);
        let p = |x: char| !pattern::blank()(x);
        text::lemma_until_bounds(t, p);
        let b = s.take(n);
        let j = choose|j: int| 0 <= j < b.len() && b[j] == c;
        if 0 < j < n - 1 {
            assert(t[j - 1] == c);
            assert(!p(t[j - 1]));
        }
    }
}

/// The paragraphs among the first pieces are those pieces that hold anything but whitespace.
proof fn lemma_paragraphs_pick(pieces: Seq<Seq<char>>, breaks: Seq<Seq<char>>, n: nat)
    requires
        n <= pieces.len(),
    ensures
        shape::picks(
            n as int,
            |i: int| text::trim(pieces[i]).len() > 0,
            |i: int|
                ParaV {
                    text: text::trim(pieces[i]),
                    start: (chunk::offset(pieces, breaks, i as nat) + pieces[i].len()
                        - text::ltrim(pieces[i]).len()) as nat,
                },
            chunk::paragraphs(pieces, breaks, n),
        ),
    decreases n,
{
    let keep = |i: int| text::trim(pieces[i]).len() > 0;
    let value = |i: int|
        ParaV {
            text: text::trim(pieces[i]),
            start: (chunk::offset(pieces, breaks, i as nat) + pieces[i].len() - text::ltrim(
                pieces[i],
            ).len()) as nat,
        };
    if n == 0 {
        shape::lemma_picks_none(keep, value);
    } else {
        lemma_paragraphs_pick(pieces, breaks, (n - 1) as nat);
        shape::lemma_picks_step(
            n - 1,
            keep,
            value,
            keep,
            value,
            chunk::paragraphs(pieces, breaks, (n - 1) as nat),
        );
    }
}

/// A paragraph stands in the text at its own start, is not empty, and has no whitespace around it.
pub proof fn paragraphs_stand_in_the_text(s: Seq<char>, k: int)
    requires
        0 <= k < chunk::paragraphs_of(s).len(),
    ensures
        ({
            let p = chunk::paragraphs_of(s)[k];
            &&& p.text.len() > 0
            &&& p.start + p.text.len() <= s.len()
            &&& s.subrange(p.start as int, (p.start + p.text.len()) as int) == p.text
            &&& !text::is_white(p.text[0]) && !text::is_white(p.text.last())
        }),
{
    let pieces = pattern::paragraph_pieces(s);
    let breaks = pattern::paragraph_breaks(s);
    let out = chunk::paragraphs_of(s);
    let n = pieces.len();
    pattern::pieces_and_breaks_are_the_text(s);
    lemma_paragraphs_pick(pieces, breaks, n);
    let keep = |i: int| text::trim(pieces[i]).len() > 0;
    let value = |i: int|
        ParaV {
            text: text::trim(pieces[i]),
            start: (chunk::offset(pieces, breaks, i as nat) + pieces[i].len() - text::ltrim(
                pieces[i],
            ).len()) as nat,
        };
    let at = choose|at: Seq<int>| #[trigger] shape::picked_at(n as int, keep, value, out, at);
    let i = at[k];
    let p = pieces[i];
    lemma_piece_stands(pieces, breaks, i as nat);
    text_laws::trimming_takes_outer_whitespace(p);
    let o = chunk::offset(pieces, breaks, i as nat) as int;
    let a = p.len() - text::ltrim(p).len();
    let m = text::trim(p).len();
    assert(out[k] == value(i));
    assert(s.subrange(o + a, o + a + m) =~= s.subrange(o, o + p.len()).subrange(a, a + m));
}

/// Every character of a text that is no whitespace stands in one of its paragraphs.
pub proof fn paragraphs_hold_every_character(s: Seq<char>, j: int)
    requires
        0 <= j < s.len(),
        !text::is_white(s[j]),
    ensures
        exists|k: int|
            0 <= k < chunk::paragraphs_of(s).len() && (#[trigger] chunk::paragraphs_of(s)[k]).start
                <= j < chunk::paragraphs_of(s)[k].start + chunk::paragraphs_of(s)[k].text.len(),
{
    let pieces = pattern::paragraph_pieces(s);
    let breaks = pattern::paragraph_breaks(s);
    let out = chunk::paragraphs_of(s);
    let n = pieces.len();
    pattern::pieces_and_breaks_are_the_text(s);
    lemma_paragraphs_pick(pieces, breaks, n);
    let keep = |i: int| text::trim(pieces[i]).len() > 0;
    let value = |i: int|
        ParaV {
            text: text::trim(pieces[i]),
            start: (chunk::offset(pieces, breaks, i as nat) + pieces[i].len() - text::ltrim(
                pieces[i],
            ).len()) as nat,
        };
    let at = choose|at: Seq<int>| #[trigger] shape::picked_at(n as int, keep, value, out, at);
    let i = lemma_piece_or_break(pieces, breaks, j) as int;
    let p = pieces[i];
    let o = chunk::offset(pieces, breaks, i as nat) as int;
    if !(j < o + p.len()) {
        lemma_breaks_are_white(s, i, s[j]);
    }
    lemma_piece_stands(pieces, breaks, i as nat);
    assert(s.subrange(o, o + p.len())[j - o] == s[j]);
    text_laws::trimming_takes_outer_whitespace(p);
    assert(p[j - o] == s[j]);
    assert(keep(i));
    let k = choose|k: int| 0 <= k < at.len() && at[k] == i;
    assert(out[k] == value(at[k]));
}

/// The units of a block's paragraphs stand paragraph by paragraph.
pub proof fn every_paragraph_is_taken(
    count: spec_fn(Seq<char>) -> nat,
    block: BlockV,
    paras: Seq<ParaV>,
    at: nat,
    target: nat,
)
    ensures
        shape::laid(
            paras.len() as int,
            |i: int|
                chunk::pieces_of(
                    paras[i].text,
                    at + paras[i].start,
                    count(paras[i].text),
                    target,
                ).map_values(|x: PieceV| chunk::unit_of(block, x)),
            chunk::block_units(count, block, paras, at, target),
        ),
    decreases paras.len(),
{
    let part = |i: int|
        chunk::pieces_of(
            paras[i].text,
            at + paras[i].start,
            count(paras[i].text),
            target,
        ).map_values(|x: PieceV| chunk::unit_of(block, x));
    if paras.len() == 0 {
        shape::lemma_laid_none(part);
    } else {
        let less = paras.drop_last();
        every_paragraph_is_taken(count, block, less, at, target);
        let part0 = |i: int|
            chunk::pieces_of(
                less[i].text,
                at + less[i].start,
                count(less[i].text),
                target,
            ).map_values(|x: PieceV| chunk::unit_of(block, x));
        assert forall|i: int| 0 <= i < less.len() implies #[trigger] part0(i) == part(i) by {
            assert(less[i] == paras[i]);
        }
        shape::lemma_laid_step(
            less.len() as int,
            part0,
            part,
            chunk::block_units(count, block, less, at, target),
        );
    }
}

/// The units of a book stand block by block; each block is counted from where those before it end,
/// two characters apart.
pub proof fn every_block_is_taken(
    count: spec_fn(Seq<char>) -> nat,
    blocks: Seq<BlockV>,
    target: nat,
)
    ensures
        shape::laid(
            blocks.len() as int,
            |i: int|
                chunk::block_units(
                    count,
                    blocks[i],
                    chunk::paragraphs_of(blocks[i].text),
                    chunk::span(blocks.take(i)),
                    target,
                ),
            chunk::book_units(count, blocks, target),
        ),
    decreases blocks.len(),
{
    let part = |i: int|
        chunk::block_units(
            count,
            blocks[i],
            chunk::paragraphs_of(blocks[i].text),
            chunk::span(blocks.take(i)),
            target,
        );
    if blocks.len() == 0 {
        shape::lemma_laid_none(part);
    } else {
        let less = blocks.drop_last();
        every_block_is_taken(count, less, target);
        let part0 = |i: int|
            chunk::block_units(
                count,
                less[i],
                chunk::paragraphs_of(less[i].text),
                chunk::span(less.take(i)),
                target,
            );
        assert forall|i: int| 0 <= i < less.len() implies #[trigger] part0(i) == part(i) by {
            assert(less[i] == blocks[i]);
            assert(less.take(i) =~= blocks.take(i));
        }
        assert(blocks.take(less.len() as int) =~= less);
        shape::lemma_laid_step(
            less.len() as int,
            part0,
            part,
            chunk::book_units(count, less, target),
        );
    }
}

/// Blocks are two characters apart, and the last is followed by two.
pub proof fn blocks_are_two_apart(a: Seq<BlockV>, b: Seq<BlockV>)
    ensures
        chunk::span(a + b) == chunk::span(a) + chunk::span(b),
        b.len() == 1 ==> chunk::span(b) == b[0].text.len() + 2,
        b.len() == 0 ==> chunk::span(b) == 0,
    decreases b.len(),
{
    if b.len() == 0 {
        assert(a + b =~= a);
    } else {
        blocks_are_two_apart(a, b.drop_last());
        assert((a + b).drop_last() =~= a + b.drop_last());
    }
}

/// Pieces of a paragraph's words between given cuts.
pub open spec fn cut_at(
    words: Seq<Seq<char>>,
    at: nat,
    per: nat,
    n_tok: nat,
    total: nat,
    out: Seq<PieceV>,
    cut: Seq<int>,
) -> bool {
    &&& cut.len() == out.len() + 1
    &&& cut[0] == 0
    &&& cut[out.len() as int] == words.len()
    &&& forall|k: int|
        0 <= k < out.len() ==> {
            &&& 0 <= #[trigger] cut[k] < cut[k + 1] <= words.len()
            &&& cut[k + 1] - cut[k] <= per
            &&& k + 1 < out.len() ==> cut[k + 1] - cut[k] == per
            &&& out[k].text == text::join(words.subrange(cut[k], cut[k + 1]), " "@)
            &&& out[k].tokens == chunk::piece_tokens((cut[k + 1] - cut[k]) as nat, n_tok, total)
        }
    &&& out.len() > 0 ==> out[0].start == at
    &&& forall|k: int|
        0 <= k < out.len() - 1 ==> out[k + 1].start == (#[trigger] out[k]).start + out[k].text.len()
            + 1
}

/// A long paragraph is cut into pieces of as many words each, all but the last, and every word goes
/// into one of them.
pub proof fn long_paragraphs_are_cut_evenly(
    words: Seq<Seq<char>>,
    at: nat,
    per: nat,
    n_tok: nat,
    total: nat,
)
    requires
        per > 0,
    ensures
        exists|cut: Seq<int>| #[trigger]
            cut_at(words, at, per, n_tok, total, chunk::cut(words, at, per, n_tok, total), cut),
{
    let cut = lemma_cut(words, at, per, n_tok, total);
}

proof fn lemma_cut(words: Seq<Seq<char>>, at: nat, per: nat, n_tok: nat, total: nat) -> (cut: Seq<
    int,
>)
    requires
        per > 0,
    ensures
        cut_at(words, at, per, n_tok, total, chunk::cut(words, at, per, n_tok, total), cut),
    decreases words.len(),
{
    let out = chunk::cut(words, at, per, n_tok, total);
    if words.len() == 0 {
        seq![0int]
    } else {
        let k0 = if per < words.len() {
            per as int
        } else {
            words.len() as int
        };
        let piece = text::join(words.take(k0), " "@);
        let rest = words.skip(k0);
        let sub = lemma_cut(rest, at + piece.len() + 1, per, n_tok, total);
        let out0 = chunk::cut(rest, at + piece.len() + 1, per, n_tok, total);
        let cut = Seq::new(
            (out.len() + 1) as nat,
            |k: int| if k == 0 { 0 } else { sub[k - 1] + k0 },
        );
        assert(out.len() == out0.len() + 1);
        assert(words.take(k0) =~= words.subrange(0, k0));
        assert forall|k: int| 0 <= k < out.len() implies {
            &&& 0 <= #[trigger] cut[k] < cut[k + 1] <= words.len()
            &&& cut[k + 1] - cut[k] <= per
            &&& k + 1 < out.len() ==> cut[k + 1] - cut[k] == per
            &&& out[k].text == text::join(words.subrange(cut[k], cut[k + 1]), " "@)
            &&& out[k].tokens == chunk::piece_tokens((cut[k + 1] - cut[k]) as nat, n_tok, total)
        } by {
            if k > 0 {
                assert(out[k] == out0[k - 1]);
                assert(sub[k - 1] < sub[k - 1 + 1]);
                assert(rest.subrange(sub[k - 1], sub[k]) =~= words.subrange(cut[k], cut[k + 1]));
            } else {
                assert(cut[1] == k0);
                if out.len() > 1 {
                    assert(rest.len() > 0) by {
                        assert(0 <= sub[0] < sub[0int + 1] <= rest.len());
                    }
                }
            }
        }
        assert forall|k: int| 0 <= k < out.len() - 1 implies out[k + 1].start == (
        #[trigger] out[k]).start + out[k].text.len() + 1 by {
            assert(out[k + 1] == out0[k]);
            if k > 0 {
                assert(out[k] == out0[k - 1]);
                assert(out0[k] == out0[k - 1 + 1]);
            }
        }
        cut
    }
}

/// A piece has as many words as come within the target at the paragraph's tokens per word, and one
/// in any case; its tokens are counted at that rate, rounded to the nearest, and one in any case.
pub proof fn pieces_come_near_the_target(target: nat, n_tok: nat, words: nat, k: nat)
    requires
        n_tok > 0,
        words > 0,
    ensures
        ({
            let per = chunk::words_per_piece(target, n_tok, words);
            let tok = chunk::piece_tokens(k, n_tok, words);
            &&& per >= 1
            &&& per == 1 || per * n_tok <= target * words
            &&& (per + 1) * n_tok > target * words
            &&& tok >= 1
            &&& 2 * (k * n_tok) < 2 * (tok * words) + words
            &&& tok == 1 || 2 * (tok * words) <= 2 * (k * n_tok) + words
        }),
{
    let a = target * words;
    let q = a / n_tok;
    assert(q * n_tok <= a && a < (q + 1) * n_tok) by (nonlinear_arith)
        requires
            q == a / n_tok,
            n_tok > 0,
    ;
    assert((1 + 1) * n_tok > a || q >= 1) by (nonlinear_arith)
        requires
            a < (q + 1) * n_tok,
            n_tok > 0,
    ;
    let b = k * n_tok;
    let d = b / words;
    let m = b % words;
    assert(b == d * words + m && m < words) by (nonlinear_arith)
        requires
            d == b / words,
            m == b % words,
            words > 0,
    ;
    let e = chunk::rounded(b, words);
    assert(e * words == d * words || e * words == d * words + words) by (nonlinear_arith)
        requires
            e == d || e == d + 1,
    ;
    assert(e == 0 ==> e * words == 0) by (nonlinear_arith);
    assert(1 * words == words);
    assert(e == d ==> e * words == d * words);
    assert(e == d + 1 ==> e * words == d * words + words) by (nonlinear_arith);
}

/// A chapter's units go together as far as they reach: the run ends with the units, or before a unit
/// of another chapter.
pub proof fn chapters_are_taken_whole(units: Seq<UnitV>, start: int, end: int)
    requires
        0 <= start < end <= units.len(),
        forall|k: int|
            start <= k < end ==> (#[trigger] units[k]).chapter == units[start].chapter,
    ensures
        ({
            let e = chunk::group_end(units, start, end);
            &&& end <= e <= units.len()
            &&& forall|k: int|
                start <= k < e ==> (#[trigger] units[k]).chapter == units[start].chapter
            &&& e == units.len() || units[e].chapter != units[start].chapter
        }),
    decreases units.len() - end,
{
    if end < units.len() && units[end].chapter == units[start].chapter {
        chapters_are_taken_whole(units, start, end + 1);
    }
}

/// Windows over a group of units: packed, and the last folded into the one before where it is short.
#[verifier::opaque]
pub open spec fn windows_of(group: Seq<UnitV>, params: ChunkParams, m: Seq<Seq<int>>) -> bool {
    let t = Seq::new(group.len(), |i: int| group[i].tokens);
    exists|w: Seq<Seq<int>>|
        {
            &&& #[trigger] packing_laws::packs(
                t,
                0,
                params.target_tokens as nat,
                params.overlap_tokens as nat,
                w,
            )
            &&& w.len() >= 2 && packing_laws::total(
                Seq::new(w.last().len(), |k: int| t[w.last()[k]]),
            ) < params.min_tokens ==> m == w.take(w.len() - 2).push(w[w.len() - 2] + w.last())
            &&& !(w.len() >= 2 && packing_laws::total(
                Seq::new(w.last().len(), |k: int| t[w.last()[k]]),
            ) < params.min_tokens) ==> m == w
        }
}

/// Passages of a run of units: one for each window, in order, numbered on.
#[verifier::opaque]
pub open spec fn passages_of(
    doc: BookDocV,
    group: Seq<UnitV>,
    index: int,
    params: ChunkParams,
    out: Seq<ChunkV>,
) -> bool {
    exists|w: Seq<Seq<int>>|
        {
            &&& #[trigger] windows_of(group, params, w)
            &&& out.len() == w.len()
            &&& forall|k: int|
                0 <= k < w.len() ==> crate::chunk_laws::made_of(doc, group, w[k], #[trigger] out[k])
                    && out[k].id == doc.book_id + ":"@ + text::decimal((index + k) as nat)
        }
}

/// The units from one cut to the next are all those of a chapter from there on, and the passages
/// between the cuts are theirs.
pub open spec fn run_between(
    doc: BookDocV,
    units: Seq<UnitV>,
    index: int,
    params: ChunkParams,
    out: Seq<ChunkV>,
    a: (int, int),
    b: (int, int),
) -> bool {
    &&& 0 <= a.0 < b.0 <= units.len()
    &&& 0 <= a.1 <= b.1 <= out.len()
    &&& forall|k: int| a.0 <= k < b.0 ==> (#[trigger] units[k]).chapter == units[a.0].chapter
    &&& b.0 == units.len() || units[b.0].chapter != units[a.0].chapter
    &&& passages_of(
        doc,
        units.subrange(a.0, b.0),
        index + a.1,
        params,
        out.subrange(a.1, b.1),
    )
}

/// Units cut into runs of one chapter each, as long as they reach, and passages cut alike.
pub open spec fn passages_at(
    doc: BookDocV,
    units: Seq<UnitV>,
    start: int,
    index: int,
    params: ChunkParams,
    out: Seq<ChunkV>,
    cut: Seq<(int, int)>,
) -> bool {
    &&& cut.len() > 0
    &&& cut[0] == (start, 0int)
    &&& cut.last() == (units.len() as int, out.len() as int)
    &&& forall|i: int|
        0 <= i < cut.len() - 1 ==> run_between(
            doc,
            units,
            index,
            params,
            out,
            #[trigger] cut[i],
            cut[i + 1],
        )
}

proof fn lemma_run_moved(
    doc: BookDocV,
    units: Seq<UnitV>,
    index: int,
    params: ChunkParams,
    here: Seq<ChunkV>,
    rest: Seq<ChunkV>,
    a: (int, int),
    b: (int, int),
)
    requires
        run_between(doc, units, index + here.len(), params, rest, a, b),
    ensures
        run_between(
            doc,
            units,
            index,
            params,
            here + rest,
            (a.0, a.1 + here.len()),
            (b.0, b.1 + here.len()),
        ),
{
    let n = here.len() as int;
    assert((here + rest).subrange(a.1 + n, b.1 + n) =~= rest.subrange(a.1, b.1));
    assert(index + here.len() + a.1 == index + (a.1 + n));
}

proof fn lemma_windows_of(group: Seq<UnitV>, params: ChunkParams)
    ensures
        windows_of(group, params, chunk::group_windows(group, params)),
{
    reveal(windows_of);
    let t = Seq::new(group.len(), |i: int| group[i].tokens);
    assert(t =~= chunk::tokens_of(group));
    let target = params.target_tokens as nat;
    let overlap = params.overlap_tokens as nat;
    let w = chunk::windows_from(t, 0, target, overlap);
    packing_laws::windows_are_full_and_overlap(t, 0, target, overlap);
    packing_laws::short_tails_are_folded(w, t, params.min_tokens as nat);
    let m = chunk::group_windows(group, params);
    if m.len() < w.len() {
        assert(m =~= w.take(w.len() - 2).push(w[w.len() - 2] + w.last()));
    }
}

proof fn lemma_passages_of(doc: BookDocV, group: Seq<UnitV>, index: nat, params: ChunkParams)
    requires
        forall|k: int| 0 <= k < group.len() ==> (#[trigger] group[k]).chapter == group[0].chapter,
    ensures
        passages_of(
            doc,
            group,
            index as int,
            params,
            chunk::group_chunks(doc, group, index, params),
        ),
{
    reveal(passages_of);
    let w = chunk::group_windows(group, params);
    let out = chunk::group_chunks(doc, group, index, params);
    lemma_windows_of(group, params);
    let t = Seq::new(group.len(), |i: int| group[i].tokens);
    assert(t =~= chunk::tokens_of(group));
    let v = chunk::windows_from(
        t,
        0,
        params.target_tokens as nat,
        params.overlap_tokens as nat,
    );
    packing_laws::windows_are_full_and_overlap(
        t,
        0,
        params.target_tokens as nat,
        params.overlap_tokens as nat,
    );
    reveal_strlit(":");
    assert(":"@ =~= seq![':']);
    assert forall|k: int| 0 <= k < w.len() implies crate::chunk_laws::made_of(
        doc,
        group,
        w[k],
        #[trigger] out[k],
    ) by {
        let n = v.len() as int;
        if w.len() < n && k == n - 2 {
            assert(w[k] == v[n - 2] + v[n - 1]);
            assert(packing_laws::is_run(v[n - 2], v[n - 2][0], v[n - 2].last() + 1));
            assert(packing_laws::is_run(v[n - 1], v[n - 1][0], v[n - 1].last() + 1));
            assert forall|j: int| 0 <= j < w[k].len() implies 0 <= #[trigger] w[k][j]
                < group.len() by {
                if j < v[n - 2].len() {
                    assert(w[k][j] == v[n - 2][j]);
                } else {
                    assert(w[k][j] == v[n - 1][j - v[n - 2].len()]);
                }
            }
        } else {
            assert(w[k] == v[k]);
            assert(packing_laws::is_run(v[k], v[k][0], v[k].last() + 1));
        }
        assert(0 <= w[k][0] < group.len());
    }
}

/// The passages of a book are made chapter by chapter: each run of units of one chapter, as long as
/// it reaches, is packed into windows, and each window is a passage.
pub proof fn books_are_packed_chapter_by_chapter(
    doc: BookDocV,
    units: Seq<UnitV>,
    start: int,
    index: nat,
    params: ChunkParams,
)
    requires
        0 <= start <= units.len(),
    ensures
        exists|cut: Seq<(int, int)>| #[trigger]
            passages_at(
                doc,
                units,
                start,
                index as int,
                params,
                chunk::chunks_from(doc, units, start, index, params),
                cut,
            ),
    decreases units.len() - start,
{
    let out = chunk::chunks_from(doc, units, start, index, params);
    if start == units.len() {
        assert(passages_at(doc, units, start, index as int, params, out, seq![(start, 0int)]));
    } else {
        chapters_are_taken_whole(units, start, start + 1);
        let end = chunk::group_end(units, start, start + 1);
        let g = units.subrange(start, end);
        let here = chunk::group_chunks(doc, g, index, params);
        let n = here.len() as int;
        let rest = chunk::chunks_from(doc, units, end, index + here.len(), params);
        books_are_packed_chapter_by_chapter(doc, units, end, index + here.len(), params);
        let sub = choose|cut: Seq<(int, int)>| #[trigger]
            passages_at(doc, units, end, index + n, params, rest, cut);
        assert forall|k: int| 0 <= k < g.len() implies (#[trigger] g[k]).chapter
            == g[0].chapter by {
            assert(g[k] == units[start + k]);
        }
        lemma_passages_of(doc, g, index, params);
        let cut = seq![(start, 0int)] + Seq::new(sub.len(), |i: int| (sub[i].0, sub[i].1 + n));
        assert(out =~= here + rest);
        assert(here =~= (here + rest).subrange(0, n));
        assert forall|i: int| 0 <= i < cut.len() - 1 implies run_between(
            doc,
            units,
            index as int,
            params,
            out,
            #[trigger] cut[i],
            cut[i + 1],
        ) by {
            if i == 0 {
                assert(cut[1] == (end, n));
                assert(run_between(doc, units, index as int, params, out, (start, 0), (end, n)));
            } else {
                let e = sub[i - 1];
                let f = sub[i - 1 + 1];
                assert(run_between(doc, units, index + n, params, rest, e, f));
                lemma_run_moved(doc, units, index as int, params, here, rest, e, f);
                assert(cut[i] == (e.0, e.1 + n));
                assert(cut[i + 1] == (f.0, f.1 + n));
            }
        }
        assert(cut.last() == (sub.last().0, sub.last().1 + n));
        assert(passages_at(doc, units, start, index as int, params, out, cut));
    }
}

} // verus!
