//! Chapter-aware structural chunking: books into retrieval passages.
use vstd::prelude::*;
use crate::book::{Block, BlockV, BookDoc, BookDocV, TokenCounter};
use crate::chunk_laws;
use crate::formats::Format;
use crate::pattern;
use crate::rows;
use crate::text;
use crate::types;

verus! {

/// Sizes of chunks, in tokens.
#[derive(Debug, Clone, Copy)]
pub struct ChunkParams {
    pub target_tokens: usize,
    pub overlap_tokens: usize,
    pub min_tokens: usize,
}

impl Default for ChunkParams {
    fn default() -> (r: Self)
        ensures
            r.target_tokens == 400,
            r.overlap_tokens == 80,
            r.min_tokens == 100,
    {
        ChunkParams { target_tokens: 400, overlap_tokens: 80, min_tokens: 100 }
    }
}

/// One retrievable passage: one row of the vector store. Offsets count characters, so they stay
/// meaningful for every script.
#[derive(Debug, PartialEq, Eq)]
pub struct Chunk {
    pub id: String,
    pub book_id: String,
    pub title: String,
    pub author: Option<String>,
    pub source_path: String,
    pub format: Format,
    pub chapter: Option<String>,
    pub page: Option<u32>,
    pub loc_start: usize,
    pub loc_end: usize,
    pub text: String,
}

/// What a [`Chunk`] holds.
#[verifier::ext_equal]
pub struct ChunkV {
    pub id: Seq<char>,
    pub book_id: Seq<char>,
    pub title: Seq<char>,
    pub author: Option<Seq<char>>,
    pub source_path: Seq<char>,
    pub format: Format,
    pub chapter: Option<Seq<char>>,
    pub page: Option<u32>,
    pub loc_start: nat,
    pub loc_end: nat,
    pub text: Seq<char>,
}

impl View for Chunk {
    type V = ChunkV;

    open spec fn view(&self) -> ChunkV {
        ChunkV {
            id: self.id@,
            book_id: self.book_id@,
            title: self.title@,
            author: text::opt_text(self.author),
            source_path: self.source_path@,
            format: self.format,
            chapter: text::opt_text(self.chapter),
            page: self.page,
            loc_start: self.loc_start as nat,
            loc_end: self.loc_end as nat,
            text: self.text@,
        }
    }
}

/// A paragraph and the character offset at which it starts in its block.
#[derive(Debug, PartialEq, Eq)]
pub struct Para {
    pub text: String,
    pub start: usize,
}

/// What a [`Para`] holds.
#[verifier::ext_equal]
pub struct ParaV {
    pub text: Seq<char>,
    pub start: nat,
}

impl View for Para {
    type V = ParaV;

    open spec fn view(&self) -> ParaV {
        ParaV { text: self.text@, start: self.start as nat }
    }
}

/// Where the piece with the given number starts, in a text made of pieces and breaks in turn.
pub open spec fn offset(pieces: Seq<Seq<char>>, breaks: Seq<Seq<char>>, i: nat) -> nat
    decreases i,
{
    if i == 0 {
        0
    } else {
        offset(pieces, breaks, (i - 1) as nat) + pieces[i - 1].len() + breaks[i - 1].len()
    }
}

/// The paragraphs among the first `n` pieces: what is left of each without the whitespace around
/// it, where anything is.
pub open spec fn paragraphs(
    pieces: Seq<Seq<char>>,
    breaks: Seq<Seq<char>>,
    n: nat,
) -> Seq<ParaV>
    decreases n,
{
    if n == 0 {
        Seq::empty()
    } else {
        let before = paragraphs(pieces, breaks, (n - 1) as nat);
        let p = pieces[n - 1];
        if text::trim(p).len() == 0 {
            before
        } else {
            before.push(
                ParaV {
                    text: text::trim(p),
                    start: (offset(pieces, breaks, (n - 1) as nat) + p.len()
                        - text::ltrim(p).len()) as nat,
                },
            )
        }
    }
}

/// The paragraphs of a text.
pub open spec fn paragraphs_of(s: Seq<char>) -> Seq<ParaV> {
    let pieces = pattern::paragraph_pieces(s);
    paragraphs(pieces, pattern::paragraph_breaks(s), pieces.len())
}

proof fn lemma_offset_shift(pieces: Seq<Seq<char>>, breaks: Seq<Seq<char>>, i: nat)
    requires
        0 < i < pieces.len(),
        breaks.len() + 1 == pieces.len(),
    ensures
        offset(pieces, breaks, i) == pieces[0].len() + breaks[0].len() + offset(
            pieces.skip(1),
            breaks.skip(1),
            (i - 1) as nat,
        ),
    decreases i,
{
    if i > 1 {
        lemma_offset_shift(pieces, breaks, (i - 1) as nat);
        assert(pieces.skip(1)[i - 2] == pieces[i - 1]);
        assert(breaks.skip(1)[i - 2] == breaks[i - 1]);
    } else {
        assert(offset(pieces, breaks, 0) == 0);
        assert(offset(pieces.skip(1), breaks.skip(1), 0) == 0);
    }
}

/// Every piece lies within the text.
pub proof fn lemma_offset_bound(pieces: Seq<Seq<char>>, breaks: Seq<Seq<char>>, i: nat)
    requires
        i < pieces.len(),
        breaks.len() + 1 == pieces.len(),
    ensures
        offset(pieces, breaks, i) + pieces[i as int].len() <= pattern::interleave(
            pieces,
            breaks,
        ).len(),
    decreases pieces.len(),
{
    if pieces.len() > 1 {
        if i > 0 {
            lemma_offset_shift(pieces, breaks, i);
            lemma_offset_bound(pieces.skip(1), breaks.skip(1), (i - 1) as nat);
            assert(pieces.skip(1)[i - 1] == pieces[i as int]);
        }
    }
}

pub proof fn lemma_trim_len(s: Seq<char>)
    ensures
        text::ltrim(s).len() <= s.len(),
        text::rtrim(s).len() <= s.len(),
    decreases s.len(),
{
    if s.len() > 0 {
        lemma_trim_len(s.skip(1));
        lemma_trim_len(s.drop_last());
    }
}

/// Every paragraph lies within the text.
pub proof fn lemma_paragraph_bound(
    pieces: Seq<Seq<char>>,
    breaks: Seq<Seq<char>>,
    n: nat,
    k: int,
)
    requires
        n <= pieces.len(),
        breaks.len() + 1 == pieces.len(),
        0 <= k < paragraphs(pieces, breaks, n).len(),
    ensures
        ({
            let p = paragraphs(pieces, breaks, n)[k];
            &&& p.text.len() > 0
            &&& p.start + p.text.len() <= pattern::interleave(pieces, breaks).len()
        }),
    decreases n,
{
    if n > 0 {
        let before = paragraphs(pieces, breaks, (n - 1) as nat);
        if k < before.len() {
            lemma_paragraph_bound(pieces, breaks, (n - 1) as nat, k);
        } else {
            lemma_offset_bound(pieces, breaks, (n - 1) as nat);
            lemma_trim_len(pieces[n - 1]);
            lemma_trim_len(text::ltrim(pieces[n - 1]));
        }
    }
}

/// The paragraphs of a text that is given as pieces and the breaks between them.
pub fn paragraphs_between(pieces: &Vec<String>, breaks: &Vec<String>) -> (r: Vec<Para>)
    requires
        breaks@.len() + 1 == pieces@.len(),
        pattern::interleave(text::texts(pieces@), text::texts(breaks@)).len() <= usize::MAX,
    ensures
        rows::vals(r@) == paragraphs(
            text::texts(pieces@),
            text::texts(breaks@),
            pieces@.len(),
        ),
{
    let ghost p = text::texts(pieces@);
    let ghost b = text::texts(breaks@);
    let mut out: Vec<Para> = Vec::new();
    let mut at: usize = 0;
    assert(rows::vals(out@) =~= Seq::empty());
    for i in 0..pieces.len()
        invariant
            p == text::texts(pieces@),
            b == text::texts(breaks@),
            b.len() + 1 == p.len(),
            pattern::interleave(p, b).len() <= usize::MAX,
            at == offset(p, b, i as nat) || i == p.len(),
            rows::vals(out@) == paragraphs(p, b, i as nat),
    {
        proof {
            lemma_offset_bound(p, b, i as nat);
            lemma_trim_len(p[i as int]);
        }
        let v = text::chars_of(pieces[i].as_str());
        let trimmed = text::trim_chars(&v);
        let lead: usize = leading_white(&v);
        if trimmed.len() > 0 {
            let para = Para { text: text::string_of(trimmed), start: at + lead };
            proof {
                rows::lemma_vals_push(out@, para);
            }
            out.push(para);
        }
        if i + 1 < pieces.len() {
            proof {
                lemma_offset_bound(p, b, (i + 1) as nat);
            }
            at = at + v.len() + text::chars_of(breaks[i].as_str()).len();
        }
    }
    out
}

/// How many whitespace characters stand at the start.
fn leading_white(v: &[char]) -> (r: usize)
    ensures
        r == v@.len() - text::ltrim(v@).len(),
{
    let mut a: usize = 0;
    assert(v@.skip(0) =~= v@);
    while a < v.len() && text::white(v[a])
        invariant
            a <= v.len(),
            text::ltrim(v@.skip(a as int)) == text::ltrim(v@),
        decreases v.len() - a,
    {
        assert(v@.skip(a as int).skip(1) =~= v@.skip(a as int + 1));
        a = a + 1;
    }
    a
}

/// Splits a block into its paragraphs.
pub fn split_paragraphs(s: &str) -> (r: Vec<Para>)
    ensures
        rows::vals(r@) == paragraphs_of(s@),
        forall|k: int|
            0 <= k < r@.len() ==> (#[trigger] r@[k])@.start + r@[k]@.text.len() <= s@.len(),
{
    let len: usize = s.unicode_len();
    assert(s@.len() == len);
    let pieces = pattern::split_at_matches(pattern::PARAGRAPH_BREAK, s);
    let breaks = pattern::matches_of(pattern::PARAGRAPH_BREAK, s);
    let r = paragraphs_between(&pieces, &breaks);
    proof {
        let p = text::texts(pieces@);
        let b = text::texts(breaks@);
        assert forall|k: int| 0 <= k < r@.len() implies (#[trigger] r@[k])@.start
            + r@[k]@.text.len() <= s@.len() by {
            lemma_paragraph_bound(p, b, p.len(), k);
            assert(rows::vals(r@)[k] == r@[k]@);
        }
    }
    r
}

/// A piece of a paragraph: its text, where it starts and how many tokens it counts for.
#[derive(Debug, PartialEq, Eq)]
pub struct Piece {
    pub text: String,
    pub start: usize,
    pub tokens: usize,
}

/// What a [`Piece`] holds.
#[verifier::ext_equal]
pub struct PieceV {
    pub text: Seq<char>,
    pub start: nat,
    pub tokens: nat,
}

impl View for Piece {
    type V = PieceV;

    open spec fn view(&self) -> PieceV {
        PieceV { text: self.text@, start: self.start as nat, tokens: self.tokens as nat }
    }
}

/// `q / w`, rounded to the nearest integer, halves upwards.
pub open spec fn rounded(q: nat, w: nat) -> nat {
    if 2 * (q % w) >= w {
        q / w + 1
    } else {
        q / w
    }
}

/// How many of a paragraph's words go into one piece, so that it has about the target's tokens.
pub open spec fn words_per_piece(target: nat, n_tok: nat, words: nat) -> nat {
    if target * words / n_tok < 1 {
        1
    } else {
        target * words / n_tok
    }
}

/// How many tokens a piece of `k` words counts for, by the paragraph's tokens per word.
pub open spec fn piece_tokens(k: nat, n_tok: nat, words: nat) -> nat {
    if rounded(k * n_tok, words) < 1 {
        1
    } else {
        rounded(k * n_tok, words)
    }
}

/// The words cut into pieces of `per` words, from the character offset `at` on.
pub open spec fn cut(
    words: Seq<Seq<char>>,
    at: nat,
    per: nat,
    n_tok: nat,
    total: nat,
) -> Seq<PieceV>
    decreases words.len(),
{
    if words.len() == 0 || per == 0 {
        Seq::empty()
    } else {
        let k = if per < words.len() {
            per
        } else {
            words.len()
        };
        let piece = text::join(words.take(k as int), " "@);
        seq![PieceV { text: piece, start: at, tokens: piece_tokens(k, n_tok, total) }] + cut(
            words.skip(k as int),
            at + piece.len() + 1,
            per,
            n_tok,
            total,
        )
    }
}

/// A paragraph of `n_tok` tokens as pieces of at most about `target` tokens.
pub open spec fn pieces_of(para: Seq<char>, start: nat, n_tok: nat, target: nat) -> Seq<PieceV> {
    if n_tok <= target {
        seq![PieceV { text: para, start, tokens: n_tok }]
    } else {
        let w = text::words(para);
        cut(w, start, words_per_piece(target, n_tok, w.len()), n_tok, w.len())
    }
}

/// The length of words written with one space after each.
pub open spec fn spaced(words: Seq<Seq<char>>) -> nat
    decreases words.len(),
{
    if words.len() == 0 {
        0
    } else {
        spaced(words.drop_last()) + words.last().len() + 1
    }
}

pub proof fn lemma_spaced_add(a: Seq<Seq<char>>, b: Seq<Seq<char>>)
    ensures
        spaced(a + b) == spaced(a) + spaced(b),
    decreases b.len(),
{
    if b.len() == 0 {
        assert(a + b =~= a);
    } else {
        assert((a + b).drop_last() =~= a + b.drop_last());
        lemma_spaced_add(a, b.drop_last());
    }
}

pub proof fn lemma_spaced_join(words: Seq<Seq<char>>)
    requires
        words.len() > 0,
    ensures
        text::join(words, " "@).len() + 1 == spaced(words),
    decreases words.len(),
{
    reveal_strlit(" ");
    assert(" "@.len() == 1);
    if words.len() > 1 {
        lemma_spaced_join(words.drop_last());
    } else {
        assert(spaced(words.drop_last()) == 0);
    }
}

pub proof fn lemma_spaced_words(s: Seq<char>)
    ensures
        spaced(text::words(s)) <= s.len() + 1,
    decreases s.len(),
{
    if s.len() == 0 {
    } else if text::is_white(s[0]) {
        lemma_spaced_words(s.skip(1));
    } else {
        let p = |c: char| text::is_white(c);
        let n = text::until(s, p) as int;
        text::lemma_until_bounds(s, p);
        assert(n > 0);
        let rest = s.skip(n);
        let first = seq![s.take(n)];
        lemma_spaced_add(first, text::words(rest));
        assert(spaced(first) == n + 1) by {
            assert(first.drop_last() =~= Seq::empty());
            assert(spaced(first.drop_last()) == 0);
        }
        if rest.len() > 0 {
            assert(rest[0] == s[n]);
            lemma_spaced_words(rest.skip(1));
            assert(text::words(rest) == text::words(rest.skip(1)));
        } else {
            assert(text::words(rest) =~= Seq::empty());
            assert(spaced(text::words(rest)) == 0);
        }
    }
}

proof fn lemma_piece_tokens_bound(k: nat, n_tok: nat, words: nat)
    requires
        0 < words,
        k <= words,
        0 < n_tok,
    ensures
        rounded(k * n_tok, words) <= n_tok,
        1 <= piece_tokens(k, n_tok, words) <= n_tok,
{
    let q = k * n_tok;
    if k == words {
        assert(q % words == 0 && q / words == n_tok) by (nonlinear_arith)
            requires
                q == words * n_tok,
                words > 0,
        ;
    } else {
        assert(q / words < n_tok) by (nonlinear_arith)
            requires
                q == k * n_tok,
                k < words,
                n_tok > 0,
        ;
    }
}

/// Splits a paragraph of `n_tok` tokens over `target` tokens into pieces, by its tokens per word.
pub fn split_oversized(para: &str, start: usize, n_tok: usize, target: usize) -> (r: Vec<Piece>)
    requires
        start + para@.len() + 1 <= usize::MAX,
    ensures
        rows::vals(r@) == pieces_of(para@, start as nat, n_tok as nat, target as nat),
        forall|k: int|
            0 <= k < r@.len() ==> start <= (#[trigger] r@[k])@.start && r@[k]@.start
                + r@[k]@.text.len() <= start + para@.len(),
{
    let mut out: Vec<Piece> = Vec::new();
    if n_tok <= target {
        let p = Piece { text: para.to_owned(), start, tokens: n_tok };
        proof {
            rows::lemma_vals_push(out@, p);
            assert(rows::vals(out@) =~= Seq::empty());
        }
        out.push(p);
        assert(rows::vals(out@) =~= seq![p@]);
        return out;
    }
    let words = text::words_of(&text::chars_of(para));
    let ghost w = text::texts(words@);
    assert(w.len() == words@.len());
    if words.len() == 0 {
        assert(rows::vals(out@) =~= Seq::empty());
        return out;
    }
    let total: usize = words.len();
    assert(target * total / n_tok as int <= total) by (nonlinear_arith)
        requires
            target < n_tok,
            total >= 0,
            target >= 0,
    ;
    assert(target * total <= u64::MAX * u64::MAX) by (nonlinear_arith)
        requires
            0 <= target <= u64::MAX,
            0 <= total <= u64::MAX,
    ;
    let ideal: u128 = (target as u128 * total as u128) / n_tok as u128;
    let per: usize = if ideal < 1 {
        1
    } else {
        ideal as usize
    };
    assert(per == words_per_piece(target as nat, n_tok as nat, w.len()));
    let mut cursor: usize = start;
    let mut i: usize = 0;
    proof {
        assert(w.skip(0) =~= w);
        lemma_spaced_words(para@);
        assert(rows::vals(out@) =~= Seq::empty());
        assert(Seq::<PieceV>::empty() + cut(w, start as nat, per as nat, n_tok as nat, w.len())
            =~= cut(w, start as nat, per as nat, n_tok as nat, w.len()));
    }
    while i < total
        invariant
            w == text::texts(words@),
            w == text::words(para@),
            w.len() == total == words@.len(),
            0 < per <= total,
            target < n_tok,
            i <= total,
            start + para@.len() + 1 <= usize::MAX,
            start <= cursor,
            cursor + spaced(w.skip(i as int)) <= start + para@.len() + 1,
            rows::vals(out@) + cut(
                w.skip(i as int),
                cursor as nat,
                per as nat,
                n_tok as nat,
                total as nat,
            ) == cut(w, start as nat, per as nat, n_tok as nat, total as nat),
            forall|k: int|
                0 <= k < out@.len() ==> start <= (#[trigger] out@[k])@.start && out@[k]@.start
                    + out@[k]@.text.len() <= start + para@.len(),
        decreases total - i,
    {
        let end: usize = if total - i < per {
            total
        } else {
            i + per
        };
        let k: usize = end - i;
        let ghost rest = w.skip(i as int);
        let piece = text::join_strs(vstd::slice::slice_subrange(words.as_slice(), i, end), " ");
        proof {
            assert(text::texts(words@.subrange(i as int, end as int)) =~= rest.take(k as int));
            lemma_spaced_join(rest.take(k as int));
            lemma_spaced_add(rest.take(k as int), rest.skip(k as int));
            assert(rest.take(k as int) + rest.skip(k as int) =~= rest);
            assert(rest.skip(k as int) =~= w.skip(end as int));
            lemma_piece_tokens_bound(k as nat, n_tok as nat, total as nat);
            assert(k * n_tok <= u64::MAX * u64::MAX) by (nonlinear_arith)
                requires
                    0 <= k <= u64::MAX,
                    0 <= n_tok <= u64::MAX,
            ;
        }
        let q: u128 = k as u128 * n_tok as u128;
        let t: u128 = total as u128;
        let whole: u128 = q / t;
        let est: u128 = if 2 * (q % t) >= t {
            whole + 1
        } else {
            whole
        };
        assert(est == rounded((k * n_tok) as nat, total as nat));
        let tokens: usize = if est < 1 {
            1
        } else {
            est as usize
        };
        let len: usize = text::chars_of(piece.as_str()).len();
        let p = Piece { text: piece, start: cursor, tokens };
        proof {
            rows::lemma_vals_push(out@, p);
            assert(rows::vals(out@) + cut(
                rest,
                cursor as nat,
                per as nat,
                n_tok as nat,
                total as nat,
            ) =~= rows::vals(out@).push(p@) + cut(
                w.skip(end as int),
                (cursor + len + 1) as nat,
                per as nat,
                n_tok as nat,
                total as nat,
            ));
        }
        out.push(p);
        cursor = cursor + len + 1;
        i = end;
    }
    assert(w.skip(i as int) =~= Seq::empty());
    assert(rows::vals(out@) + cut(
        w.skip(i as int),
        cursor as nat,
        per as nat,
        n_tok as nat,
        total as nat,
    ) =~= rows::vals(out@));
    out
}

/// A paragraph-sized unit with its place in the book.
#[derive(Debug)]
pub struct Unit {
    pub text: String,
    pub chapter: Option<String>,
    pub page: Option<u32>,
    pub loc_start: usize,
    pub loc_end: usize,
    pub tokens: usize,
}

/// What a [`Unit`] holds.
#[verifier::ext_equal]
pub struct UnitV {
    pub text: Seq<char>,
    pub chapter: Option<Seq<char>>,
    pub page: Option<u32>,
    pub loc_start: nat,
    pub loc_end: nat,
    pub tokens: nat,
}

impl View for Unit {
    type V = UnitV;

    open spec fn view(&self) -> UnitV {
        UnitV {
            text: self.text@,
            chapter: text::opt_text(self.chapter),
            page: self.page,
            loc_start: self.loc_start as nat,
            loc_end: self.loc_end as nat,
            tokens: self.tokens as nat,
        }
    }
}

/// The unit a piece of a block becomes.
pub open spec fn unit_of(block: BlockV, p: PieceV) -> UnitV {
    UnitV {
        text: p.text,
        chapter: block.chapter,
        page: block.page,
        loc_start: p.start,
        loc_end: p.start + p.text.len(),
        tokens: p.tokens,
    }
}

/// The units of a block's paragraphs, in order; the block starts at `at` in the book.
pub open spec fn block_units(
    count: spec_fn(Seq<char>) -> nat,
    block: BlockV,
    paras: Seq<ParaV>,
    at: nat,
    target: nat,
) -> Seq<UnitV>
    decreases paras.len(),
{
    if paras.len() == 0 {
        Seq::empty()
    } else {
        let p = paras.last();
        block_units(count, block, paras.drop_last(), at, target) + pieces_of(
            p.text,
            at + p.start,
            count(p.text),
            target,
        ).map_values(|x: PieceV| unit_of(block, x))
    }
}

/// The characters of some blocks, with two between neighbours and after the last.
pub open spec fn span(blocks: Seq<BlockV>) -> nat
    decreases blocks.len(),
{
    if blocks.len() == 0 {
        0
    } else {
        span(blocks.drop_last()) + blocks.last().text.len() + 2
    }
}

/// The units of a book, with offsets that count through the whole book.
pub open spec fn book_units(
    count: spec_fn(Seq<char>) -> nat,
    blocks: Seq<BlockV>,
    target: nat,
) -> Seq<UnitV>
    decreases blocks.len(),
{
    if blocks.len() == 0 {
        Seq::empty()
    } else {
        let b = blocks.last();
        book_units(count, blocks.drop_last(), target) + block_units(
            count,
            b,
            paragraphs_of(b.text),
            span(blocks.drop_last()),
            target,
        )
    }
}

/// The token counts of a counter, as a function.
pub open spec fn counts<C: TokenCounter>(counter: &C) -> spec_fn(Seq<char>) -> nat {
    |t: Seq<char>| counter.tokens(t)
}

proof fn lemma_span_mono(blocks: Seq<BlockV>, i: int)
    requires
        0 <= i <= blocks.len(),
    ensures
        span(blocks.take(i)) <= span(blocks),
    decreases blocks.len() - i,
{
    if i < blocks.len() {
        lemma_span_mono(blocks, i + 1);
        assert(blocks.take(i + 1).drop_last() =~= blocks.take(i));
    } else {
        assert(blocks.take(i) =~= blocks);
    }
}

/// Turns a block's paragraphs into units and appends them.
pub fn push_block_units<C: TokenCounter>(
    out: &mut Vec<Unit>,
    block: &Block,
    paras: &Vec<Para>,
    at: usize,
    counter: &C,
    target: usize,
)
    requires
        at + block@.text.len() + 2 <= usize::MAX,
        forall|k: int|
            0 <= k < paras@.len() ==> (#[trigger] paras@[k])@.start + paras@[k]@.text.len()
                <= block@.text.len(),
    ensures
        rows::vals(final(out)@) == rows::vals(old(out)@) + block_units(
            counts(counter),
            block@,
            rows::vals(paras@),
            at as nat,
            target as nat,
        ),
{
    let ghost before = rows::vals(out@);
    let ghost all = rows::vals(paras@);
    let ghost count = counts(counter);
    assert(before + block_units(count, block@, all.take(0), at as nat, target as nat) =~= before);
    for i in 0..paras.len()
        invariant
            all == rows::vals(paras@),
            count == counts(counter),
            at + block@.text.len() + 2 <= usize::MAX,
            forall|k: int|
                0 <= k < paras@.len() ==> (#[trigger] paras@[k])@.start + paras@[k]@.text.len()
                    <= block@.text.len(),
            rows::vals(out@) == before + block_units(
                count,
                block@,
                all.take(i as int),
                at as nat,
                target as nat,
            ),
    {
        let para = &paras[i];
        assert(para@ == all[i as int]);
        let n_tok: usize = counter.count(para.text.as_str());
        let mut pieces = split_oversized(para.text.as_str(), at + para.start, n_tok, target);
        let ghost ps = rows::vals(pieces@);
        let ghost f = |x: PieceV| unit_of(block@, x);
        let ghost so_far = rows::vals(out@);
        proof {
            assert(all.take(i as int + 1).drop_last() =~= all.take(i as int));
            assert(so_far + ps.take(0).map_values(f) =~= so_far);
        }
        for j in 0..pieces.len()
            invariant
                ps == rows::vals(pieces@),
                f == (|x: PieceV| unit_of(block@, x)),
                at + block@.text.len() + 2 <= usize::MAX,
                forall|k: int|
                    0 <= k < pieces@.len() ==> (#[trigger] pieces@[k])@.start
                        + pieces@[k]@.text.len() <= at + block@.text.len(),
                rows::vals(out@) == so_far + ps.take(j as int).map_values(f),
        {
            let p = &pieces[j];
            assert(p@ == ps[j as int]);
            let char_len: usize = text::chars_of(p.text.as_str()).len();
            let u = Unit {
                text: p.text.clone(),
                chapter: types::copy_opt(&block.chapter),
                page: block.page,
                loc_start: p.start,
                loc_end: p.start + char_len,
                tokens: p.tokens,
            };
            proof {
                rows::lemma_vals_push(out@, u);
                assert(ps.take(j as int + 1).map_values(f) =~= ps.take(j as int).map_values(f).push(
                    f(ps[j as int]),
                ));
                assert(so_far + ps.take(j as int).map_values(f).push(u@) =~= (so_far + ps.take(
                    j as int,
                ).map_values(f)).push(u@));
            }
            out.push(u);
        }
        proof {
            assert(ps.take(ps.len() as int) =~= ps);
            assert(so_far + ps.map_values(f) =~= before + (block_units(
                count,
                block@,
                all.take(i as int),
                at as nat,
                target as nat,
            ) + ps.map_values(f)));
        }
    }
    assert(all.take(all.len() as int) =~= all);
}

/// Flattens a book into ordered paragraph units with offsets that count through the book.
pub fn units_of_book<C: TokenCounter>(doc: &BookDoc, counter: &C, params: &ChunkParams) -> (r: Vec<
    Unit,
>)
    requires
        span(doc@.blocks) <= usize::MAX,
    ensures
        rows::vals(r@) == book_units(counts(counter), doc@.blocks, params.target_tokens as nat),
        chunk_laws::in_order(rows::vals(r@), 0, span(doc@.blocks) as int),
{
    let ghost all = doc@.blocks;
    let ghost count = counts(counter);
    let mut out: Vec<Unit> = Vec::new();
    let mut at: usize = 0;
    assert(rows::vals(out@) =~= Seq::empty());
    for i in 0..doc.blocks.len()
        invariant
            all == doc@.blocks,
            count == counts(counter),
            span(all) <= usize::MAX,
            at == span(all.take(i as int)),
            rows::vals(out@) == book_units(count, all.take(i as int), params.target_tokens as nat),
    {
        let block = &doc.blocks[i];
        proof {
            assert(block@ == all[i as int]);
            assert(all.take(i as int + 1).drop_last() =~= all.take(i as int));
            lemma_span_mono(all, i as int + 1);
        }
        let paras = split_paragraphs(block.text.as_str());
        push_block_units(&mut out, block, &paras, at, counter, params.target_tokens);
        at = at + text::chars_of(block.text.as_str()).len() + 2;
    }
    assert(all.take(all.len() as int) =~= all);
    proof {
        chunk_laws::book_units_are_in_order(count, all, params.target_tokens as nat);
    }
    out
}

/// The token counts of some units.
pub open spec fn tokens_of(units: Seq<UnitV>) -> Seq<nat> {
    Seq::new(units.len(), |i: int| units[i].tokens)
}

/// The integers from `i` up to but without `j`.
pub open spec fn range(i: int, j: int) -> Seq<int> {
    Seq::new((j - i) as nat, |k: int| i + k)
}

/// Where the window ends that starts at `i` and holds the units up to `j` with `tok` tokens: units
/// are taken while the target is not passed, and one in any case.
pub open spec fn window_end(t: Seq<nat>, i: int, j: int, tok: nat, target: nat) -> int
    decreases t.len() - j,
{
    if 0 <= j < t.len() && (j == i || tok + t[j] <= target) {
        window_end(t, i, j + 1, tok + t[j], target)
    } else {
        j
    }
}

/// How many units before `k`, itself counted, the next window takes over: trailing units of the
/// window worth about `overlap` tokens, but not its first.
pub open spec fn carried(t: Seq<nat>, i: int, k: int, otok: nat, overlap: nat) -> int
    decreases k - i,
{
    if k > i && otok < overlap {
        1 + carried(t, i, k - 1, otok + t[k], overlap)
    } else {
        0
    }
}

/// Where the next window starts.
pub open spec fn next_start(t: Seq<nat>, i: int, j: int, overlap: nat) -> int {
    let s = j - carried(t, i, j - 1, 0, overlap);
    if s < i + 1 {
        i + 1
    } else {
        s
    }
}

/// The windows over the units from `i` on: greedily filled to the target, overlapping.
pub open spec fn windows_from(t: Seq<nat>, i: int, target: nat, overlap: nat) -> Seq<Seq<int>>
    decreases t.len() - i,
{
    if i < 0 || i >= t.len() {
        Seq::empty()
    } else {
        let j = window_end(t, i, i, 0, target);
        if j >= t.len() {
            seq![range(i, j)]
        } else {
            proof {
                lemma_window_end(t, i, i, 0, target);
                lemma_carried(t, i, j - 1, 0, overlap);
            }
            seq![range(i, j)] + windows_from(t, next_start(t, i, j, overlap), target, overlap)
        }
    }
}

/// The tokens of the units of a window.
pub open spec fn window_tokens(t: Seq<nat>, w: Seq<int>) -> nat
    decreases w.len(),
{
    if w.len() == 0 {
        0
    } else {
        window_tokens(t, w.drop_last()) + t[w.last()]
    }
}

/// The windows with a last one under `min` tokens folded into the one before it.
pub open spec fn merged(w: Seq<Seq<int>>, t: Seq<nat>, min: nat) -> Seq<Seq<int>> {
    if w.len() < 2 || window_tokens(t, w.last()) >= min {
        w
    } else {
        w.drop_last().drop_last().push(w[w.len() - 2] + w.last())
    }
}

/// The indices of a window, as integers.
pub open spec fn ints(v: Seq<usize>) -> Seq<int> {
    Seq::new(v.len(), |i: int| v[i] as int)
}

/// The windows of a list of index lists.
pub open spec fn wins(v: Seq<Vec<usize>>) -> Seq<Seq<int>> {
    Seq::new(v.len(), |i: int| ints(v[i]@))
}

/// A window ends after its start and within the units.
pub proof fn lemma_window_end(t: Seq<nat>, i: int, j: int, tok: nat, target: nat)
    requires
        0 <= i < t.len(),
        i <= j <= t.len(),
    ensures
        i < window_end(t, i, j, tok, target) <= t.len(),
        j <= window_end(t, i, j, tok, target),
    decreases t.len() - j,
{
    if j < t.len() && (j == i || tok + t[j] <= target) {
        lemma_window_end(t, i, j + 1, tok + t[j], target);
    }
}

/// What is carried over leaves at least the first unit behind.
pub proof fn lemma_carried(t: Seq<nat>, i: int, k: int, otok: nat, overlap: nat)
    requires
        i <= k,
    ensures
        0 <= carried(t, i, k, otok, overlap) <= k - i,
    decreases k - i,
{
    if k > i && otok < overlap {
        lemma_carried(t, i, k - 1, otok + t[k], overlap);
    }
}

/// There are at most as many windows as units.
pub proof fn lemma_window_count(t: Seq<nat>, i: int, target: nat, overlap: nat)
    requires
        0 <= i <= t.len(),
    ensures
        windows_from(t, i, target, overlap).len() <= t.len() - i,
    decreases t.len() - i,
{
    if i < t.len() {
        lemma_window_end(t, i, i, 0, target);
        let j = window_end(t, i, i, 0, target);
        if j < t.len() {
            lemma_carried(t, i, j - 1, 0, overlap);
            lemma_window_count(t, next_start(t, i, j, overlap), target, overlap);
        }
    }
}

/// Greedily packs units into windows of about `target` tokens with about `overlap` carried over.
/// Windows are lists of indices into the units.
pub fn pack(units: &[Unit], params: &ChunkParams) -> (r: Vec<Vec<usize>>)
    ensures
        wins(r@) == windows_from(
            tokens_of(rows::vals(units@)),
            0,
            params.target_tokens as nat,
            params.overlap_tokens as nat,
        ),
{
    let ghost t = tokens_of(rows::vals(units@));
    let ghost target = params.target_tokens as nat;
    let ghost overlap = params.overlap_tokens as nat;
    let n: usize = units.len();
    let mut windows: Vec<Vec<usize>> = Vec::new();
    let mut i: usize = 0;
    assert(wins(windows@) + windows_from(t, 0, target, overlap) =~= windows_from(
        t,
        0,
        target,
        overlap,
    ));
    while i < n
        invariant
            n == units@.len(),
            t == tokens_of(rows::vals(units@)),
            target == params.target_tokens,
            overlap == params.overlap_tokens,
            i <= n,
            wins(windows@) + windows_from(t, i as int, target, overlap) == windows_from(
                t,
                0,
                target,
                overlap,
            ),
        decreases n - i,
    {
        let mut cur: Vec<usize> = Vec::new();
        let mut tok: u128 = 0;
        let mut j: usize = i;
        assert(ints(cur@) =~= range(i as int, i as int));
        while j < n && (cur.len() == 0 || tok + units[j].tokens as u128
            <= params.target_tokens as u128)
            invariant
                n == units@.len(),
                t == tokens_of(rows::vals(units@)),
                target == params.target_tokens,
                i <= j <= n,
                i < n,
                cur@.len() == j - i,
                ints(cur@) == range(i as int, j as int),
                tok <= (j - i) * u64::MAX,
                j <= u64::MAX,
                window_end(t, i as int, j as int, tok as nat, target) == window_end(
                    t,
                    i as int,
                    i as int,
                    0,
                    target,
                ),
            decreases n - j,
        {
            assert(t[j as int] == units@[j as int].tokens);
            assert((j - i) * u64::MAX + u64::MAX == (j + 1 - i) * u64::MAX) by (nonlinear_arith);
            assert((j + 1 - i) * u64::MAX <= (u64::MAX + 1) * u64::MAX) by (nonlinear_arith)
                requires
                    0 <= j + 1 - i <= u64::MAX + 1,
            ;
            let ghost c = cur@;
            cur.push(j);
            tok = tok + units[j].tokens as u128;
            j = j + 1;
            assert(ints(cur@) =~= ints(c).push(j - 1));
            assert(range(i as int, j as int) =~= range(i as int, j - 1).push(j - 1));
        }
        proof {
            lemma_window_end(t, i as int, i as int, 0, target);
            if j < n {
                assert(t[j as int] == units@[j as int].tokens);
            }
            assert(j == window_end(t, i as int, i as int, 0, target));
        }
        let ghost before = wins(windows@);
        windows.push(cur);
        assert(wins(windows@) =~= before.push(range(i as int, j as int)));
        if j >= n {
            assert(before + seq![range(i as int, j as int)] =~= wins(windows@));
            return windows;
        }
        let mut back: usize = 0;
        let mut otok: u128 = 0;
        let mut k: usize = j - 1;
        while k > i && otok < params.overlap_tokens as u128
            invariant
                n == units@.len(),
                t == tokens_of(rows::vals(units@)),
                overlap == params.overlap_tokens,
                i <= k < j,
                j < n,
                back + k == j - 1,
                otok <= (j - 1 - k) * u64::MAX,
                j <= u64::MAX,
                back + carried(t, i as int, k as int, otok as nat, overlap) == carried(
                    t,
                    i as int,
                    j - 1,
                    0,
                    overlap,
                ),
            decreases k,
        {
            assert(t[k as int] == units@[k as int].tokens);
            assert((j - 1 - k) * u64::MAX + u64::MAX == (j - k) * u64::MAX) by (nonlinear_arith);
            assert((j - k) * u64::MAX <= (u64::MAX + 1) * u64::MAX) by (nonlinear_arith)
                requires
                    0 <= j - k <= u64::MAX + 1,
            ;
            otok = otok + units[k].tokens as u128;
            back = back + 1;
            k = k - 1;
        }
        proof {
            lemma_carried(t, i as int, j - 1, 0, overlap);
            assert(before + windows_from(t, i as int, target, overlap) =~= wins(windows@)
                + windows_from(t, next_start(t, i as int, j as int, overlap), target, overlap));
        }
        i = j - back;
    }
    assert(wins(windows@) + windows_from(t, i as int, target, overlap) =~= wins(windows@));
    windows
}

/// Every index of every window lies below `n`.
pub open spec fn windows_below(w: Seq<Seq<int>>, n: int) -> bool {
    forall|a: int, b: int|
        0 <= a < w.len() && 0 <= b < w[a].len() ==> 0 <= #[trigger] w[a][b] < n
}

/// Folds a trailing window under the minimum into the previous one.
pub fn merge_short_tail(windows: Vec<Vec<usize>>, units: &[Unit], params: &ChunkParams) -> (r: Vec<
    Vec<usize>,
>)
    requires
        windows_below(wins(windows@), units@.len() as int),
    ensures
        wins(r@) == merged(
            wins(windows@),
            tokens_of(rows::vals(units@)),
            params.min_tokens as nat,
        ),
{
    let mut windows = windows;
    let ghost w = wins(windows@);
    let ghost t = tokens_of(rows::vals(units@));
    if windows.len() < 2 {
        return windows;
    }
    let n: usize = windows.len();
    let last = &windows[n - 1];
    let mut sum: u128 = 0;
    for i in 0..last.len()
        invariant
            n == windows@.len(),
            n >= 2,
            last@ == windows@[n - 1]@,
            w == wins(windows@),
            t == tokens_of(rows::vals(units@)),
            windows_below(w, units@.len() as int),
            sum == window_tokens(t, w[n - 1].take(i as int)),
            sum <= i * u64::MAX,
            i <= u64::MAX,
    {
        proof {
            assert(w[n - 1] == ints(last@));
            assert(w[n - 1][i as int] == last@[i as int]);
            assert(w[n - 1].take(i as int + 1).drop_last() =~= w[n - 1].take(i as int));
            assert(i * u64::MAX + u64::MAX == (i + 1) * u64::MAX) by (nonlinear_arith);
            assert((i + 1) * u64::MAX <= (u64::MAX + 1) * u64::MAX) by (nonlinear_arith)
                requires
                    0 <= i + 1 <= u64::MAX + 1,
            ;
            assert(t[last@[i as int] as int] == units@[last@[i as int] as int].tokens);
        }
        sum = sum + units[last[i]].tokens as u128;
    }
    assert(w[n - 1].take(w[n - 1].len() as int) =~= w[n - 1]);
    assert(w.last() == w[n - 1]);
    if sum < params.min_tokens as u128 {
        let ghost all = windows@;
        let mut tail = windows.pop().unwrap();
        let mut prev = windows.pop().unwrap();
        let ghost a = prev@;
        let ghost b = tail@;
        prev.append(&mut tail);
        windows.push(prev);
        proof {
            assert(ints(prev@) =~= ints(a) + ints(b));
            assert(wins(windows@) =~= w.drop_last().drop_last().push(w[n - 2] + w[n - 1]));
        }
    }
    windows
}

/// The texts of a window's units.
pub open spec fn window_texts(units: Seq<UnitV>, w: Seq<int>) -> Seq<Seq<char>> {
    Seq::new(w.len(), |k: int| units[w[k]].text)
}

/// The passage made of a window: its place and metadata come from its first and last unit.
pub open spec fn chunk_of(doc: BookDocV, units: Seq<UnitV>, w: Seq<int>, index: nat) -> ChunkV {
    ChunkV {
        id: doc.book_id + seq![':'] + text::decimal(index),
        book_id: doc.book_id,
        title: doc.title,
        author: doc.author,
        source_path: doc.source_path,
        format: doc.format,
        chapter: units[w[0]].chapter,
        page: units[w[0]].page,
        loc_start: units[w[0]].loc_start,
        loc_end: units[w.last()].loc_end,
        text: text::join(window_texts(units, w), "\n\n"@),
    }
}

/// Where the run of units with the chapter of `start` ends, known to reach up to `end`.
pub open spec fn group_end(units: Seq<UnitV>, start: int, end: int) -> int
    decreases units.len() - end,
{
    if 0 <= end < units.len() && units[end].chapter == units[start].chapter {
        group_end(units, start, end + 1)
    } else {
        end
    }
}

/// The windows of one group of units.
pub open spec fn group_windows(group: Seq<UnitV>, params: ChunkParams) -> Seq<Seq<int>> {
    merged(
        windows_from(
            tokens_of(group),
            0,
            params.target_tokens as nat,
            params.overlap_tokens as nat,
        ),
        tokens_of(group),
        params.min_tokens as nat,
    )
}

/// The passages of one group of units, numbered from `index`.
pub open spec fn group_chunks(
    doc: BookDocV,
    group: Seq<UnitV>,
    index: nat,
    params: ChunkParams,
) -> Seq<ChunkV> {
    let w = group_windows(group, params);
    Seq::new(w.len(), |k: int| chunk_of(doc, group, w[k], (index + k) as nat))
}

/// The passages of the units from `start` on, numbered from `index`: chapter by chapter.
pub open spec fn chunks_from(
    doc: BookDocV,
    units: Seq<UnitV>,
    start: int,
    index: nat,
    params: ChunkParams,
) -> Seq<ChunkV>
    decreases units.len() - start,
{
    if start < 0 || start >= units.len() {
        Seq::empty()
    } else {
        let end = group_end(units, start, start + 1);
        proof {
            lemma_group_end(units, start, start + 1);
        }
        let here = group_chunks(doc, units.subrange(start, end), index, params);
        here + chunks_from(doc, units, end, index + here.len(), params)
    }
}

pub proof fn lemma_group_end(units: Seq<UnitV>, start: int, end: int)
    requires
        0 <= start < end <= units.len(),
        forall|k: int| start <= k < end ==> (#[trigger] units[k]).chapter == units[start].chapter,
    ensures
        end <= group_end(units, start, end) <= units.len(),
        forall|k: int|
            start <= k < group_end(units, start, end) ==> (#[trigger] units[k]).chapter
                == units[start].chapter,
    decreases units.len() - end,
{
    if end < units.len() && units[end].chapter == units[start].chapter {
        lemma_group_end(units, start, end + 1);
    }
}

/// Every window from `i` on is a non-empty rising list of indices of units.
pub proof fn lemma_windows_shape(t: Seq<nat>, i: int, target: nat, overlap: nat)
    requires
        0 <= i <= t.len(),
    ensures
        windows_below(windows_from(t, i, target, overlap), t.len() as int),
        forall|a: int|
            0 <= a < windows_from(t, i, target, overlap).len() ==> (#[trigger] windows_from(
                t,
                i,
                target,
                overlap,
            )[a]).len() > 0,
    decreases t.len() - i,
{
    let w = windows_from(t, i, target, overlap);
    if i < t.len() {
        lemma_window_end(t, i, i, 0, target);
        let j = window_end(t, i, i, 0, target);
        if j < t.len() {
            lemma_carried(t, i, j - 1, 0, overlap);
            let s = next_start(t, i, j, overlap);
            let rest = windows_from(t, s, target, overlap);
            lemma_windows_shape(t, s, target, overlap);
            assert forall|a: int, b: int| 0 <= a < w.len() && 0 <= b < w[a].len() implies 0
                <= #[trigger] w[a][b] < t.len() by {
                if a > 0 {
                    assert(w[a] == rest[a - 1]);
                    assert(rest[a - 1][b] == w[a][b]);
                }
            }
            assert forall|a: int| 0 <= a < w.len() implies (#[trigger] w[a]).len() > 0 by {
                if a > 0 {
                    assert(w[a] == rest[a - 1]);
                }
            }
        }
    }
}

/// Folding the tail keeps every window non-empty and within the units, and adds none.
pub proof fn lemma_group_windows(group: Seq<UnitV>, params: ChunkParams)
    ensures
        group_windows(group, params).len() <= group.len(),
        windows_below(group_windows(group, params), group.len() as int),
        forall|a: int|
            0 <= a < group_windows(group, params).len() ==> (#[trigger] group_windows(
                group,
                params,
            )[a]).len() > 0,
        group.len() > 0 ==> group_windows(group, params).len() > 0,
{
    let t = tokens_of(group);
    let target = params.target_tokens as nat;
    let overlap = params.overlap_tokens as nat;
    let w = windows_from(t, 0, target, overlap);
    lemma_windows_shape(t, 0, target, overlap);
    lemma_window_count(t, 0, target, overlap);
    let m = group_windows(group, params);
    if m != w {
        let n = w.len() as int;
        assert forall|a: int, b: int| 0 <= a < m.len() && 0 <= b < m[a].len() implies 0
            <= #[trigger] m[a][b] < group.len() by {
            if a < n - 2 {
                assert(m[a] == w[a]);
                assert(w[a][b] == m[a][b]);
            } else {
                assert(m[a] == w[n - 2] + w[n - 1]);
                if b < w[n - 2].len() {
                    assert(m[a][b] == w[n - 2][b]);
                } else {
                    assert(m[a][b] == w[n - 1][b - w[n - 2].len()]);
                }
            }
        }
        assert forall|a: int| 0 <= a < m.len() implies (#[trigger] m[a]).len() > 0 by {
            if a < n - 2 {
                assert(m[a] == w[a]);
            } else {
                assert(m[a] == w[n - 2] + w[n - 1]);
                assert(w[n - 2].len() > 0);
            }
        }
    }
}

/// Whether two optional strings are the same.
pub fn same_opt(a: &Option<String>, b: &Option<String>) -> (r: bool)
    ensures
        r == (text::opt_text(*a) == text::opt_text(*b)),
{
    match (a, b) {
        (Some(x), Some(y)) => text::same_text(x.as_str(), y.as_str()),
        (None, None) => true,
        _ => false,
    }
}

/// Makes the passage of a window.
fn window_to_chunk(doc: &BookDoc, units: &[Unit], window: &[usize], index: usize) -> (r: Chunk)
    requires
        window@.len() > 0,
        forall|k: int| 0 <= k < window@.len() ==> (#[trigger] window@[k]) < units@.len(),
    ensures
        r@ == chunk_of(doc@, rows::vals(units@), ints(window@), index as nat),
{
    let ghost us = rows::vals(units@);
    let ghost w = ints(window@);
    let mut texts: Vec<String> = Vec::new();
    for i in 0..window.len()
        invariant
            us == rows::vals(units@),
            w == ints(window@),
            forall|k: int| 0 <= k < window@.len() ==> (#[trigger] window@[k]) < units@.len(),
            text::texts(texts@) == window_texts(us, w).take(i as int),
    {
        let s = units[window[i]].text.clone();
        proof {
            text::lemma_texts_push(texts@, s);
            assert(w[i as int] == window@[i as int]);
            assert(us[w[i as int]] == units@[w[i as int]]@);
            assert(window_texts(us, w).take(i as int + 1) =~= window_texts(us, w).take(
                i as int,
            ).push(s@));
        }
        texts.push(s);
    }
    assert(window_texts(us, w).take(window@.len() as int) =~= window_texts(us, w));
    let first = &units[window[0]];
    let last = &units[window[window.len() - 1]];
    proof {
        assert(w[0] == window@[0]);
        assert(w.last() == window@[window@.len() - 1]);
        assert(us[w[0]] == first@);
        assert(us[w.last()] == last@);
    }
    let mut id = doc.book_id.clone();
    id.push(':');
    id.append(text::decimal_of(index as u64).as_str());
    assert(id@ =~= doc@.book_id + seq![':'] + text::decimal(index as nat));
    Chunk {
        id,
        book_id: doc.book_id.clone(),
        title: doc.title.clone(),
        author: types::copy_opt(&doc.author),
        source_path: doc.source_path.clone(),
        format: doc.format,
        chapter: types::copy_opt(&first.chapter),
        page: first.page,
        loc_start: first.loc_start,
        loc_end: last.loc_end,
        text: text::join_strs(&texts, "\n\n"),
    }
}

/// Groups consecutive units of one chapter and packs each group, so that no passage straddles two
/// chapters.
pub fn chunk_units(doc: &BookDoc, units: &Vec<Unit>, params: &ChunkParams) -> (r: Vec<Chunk>)
    ensures
        rows::vals(r@) == chunks_from(doc@, rows::vals(units@), 0, 0, *params),
{
    let ghost us = rows::vals(units@);
    let mut chunks: Vec<Chunk> = Vec::new();
    let mut index: usize = 0;
    let mut start: usize = 0;
    assert(rows::vals(chunks@) + chunks_from(doc@, us, 0, 0, *params) =~= chunks_from(
        doc@,
        us,
        0,
        0,
        *params,
    ));
    while start < units.len()
        invariant
            us == rows::vals(units@),
            start <= units@.len(),
            index <= start,
            rows::vals(chunks@) + chunks_from(doc@, us, start as int, index as nat, *params)
                == chunks_from(doc@, us, 0, 0, *params),
        decreases units@.len() - start,
    {
        let mut end: usize = start + 1;
        while end < units.len() && same_opt(&units[end].chapter, &units[start].chapter)
            invariant
                us == rows::vals(units@),
                start < end <= units@.len(),
                forall|k: int|
                    start <= k < end ==> (#[trigger] us[k]).chapter == us[start as int].chapter,
                group_end(us, start as int, end as int) == group_end(us, start as int, start + 1),
            decreases units@.len() - end,
        {
            assert(us[end as int] == units@[end as int]@);
            assert(us[start as int] == units@[start as int]@);
            end = end + 1;
        }
        proof {
            if end < units@.len() {
                assert(us[end as int] == units@[end as int]@);
                assert(us[start as int] == units@[start as int]@);
            }
            assert(end == group_end(us, start as int, start + 1));
        }
        let group = vstd::slice::slice_subrange(units.as_slice(), start, end);
        let ghost g = us.subrange(start as int, end as int);
        assert(rows::vals(group@) =~= g);
        proof {
            lemma_windows_shape(
                tokens_of(g),
                0,
                params.target_tokens as nat,
                params.overlap_tokens as nat,
            );
            lemma_group_windows(g, *params);
        }
        let packed = pack(group, params);
        let windows = merge_short_tail(packed, group, params);
        let ghost w = wins(windows@);
        let ghost here = group_chunks(doc@, g, index as nat, *params);
        let ghost before = rows::vals(chunks@);
        let first: usize = index;
        assert(before + here.take(0) =~= before);
        for k in 0..windows.len()
            invariant
                w == wins(windows@),
                w == group_windows(g, *params),
                g == rows::vals(group@),
                windows_below(w, g.len() as int),
                forall|a: int| 0 <= a < w.len() ==> (#[trigger] w[a]).len() > 0,
                here == group_chunks(doc@, g, first as nat, *params),
                index == first + k,
                first + w.len() <= usize::MAX,
                rows::vals(chunks@) == before + here.take(k as int),
        {
            proof {
                assert(w[k as int] == ints(windows@[k as int]@));
                assert(w[k as int].len() > 0);
                assert forall|b: int| 0 <= b < windows@[k as int]@.len() implies (
                #[trigger] windows@[k as int]@[b]) < group@.len() by {
                    assert(w[k as int][b] == windows@[k as int]@[b]);
                }
            }
            let c = window_to_chunk(doc, group, windows[k].as_slice(), index);
            proof {
                rows::lemma_vals_push(chunks@, c);
                assert(before + here.take(k as int + 1) =~= (before + here.take(k as int)).push(
                    here[k as int],
                ));
            }
            chunks.push(c);
            index = index + 1;
        }
        proof {
            assert(here.take(here.len() as int) =~= here);
            assert(before + chunks_from(doc@, us, start as int, first as nat, *params) =~= (before
                + here) + chunks_from(doc@, us, end as int, index as nat, *params));
        }
        start = end;
    }
    assert(rows::vals(chunks@) + chunks_from(doc@, us, start as int, index as nat, *params)
        =~= rows::vals(chunks@));
    chunks
}

/// Chunks a book into retrieval passages, never crossing a chapter boundary.
pub fn chunk_book<C: TokenCounter>(doc: &BookDoc, counter: &C, params: &ChunkParams) -> (r: Vec<
    Chunk,
>)
    requires
        span(doc@.blocks) <= usize::MAX,
    ensures
        rows::vals(r@) == chunks_from(
            doc@,
            book_units(counts(counter), doc@.blocks, params.target_tokens as nat),
            0,
            0,
            *params,
        ),
        forall|k: int| 0 <= k < r@.len() ==> (#[trigger] r@[k])@.loc_start <= r@[k]@.loc_end,
{
    let units = units_of_book(doc, counter, params);
    let r = chunk_units(doc, &units, params);
    proof {
        let us = rows::vals(units@);
        assert forall|k: int| 0 <= k < r@.len() implies (#[trigger] r@[k])@.loc_start
            <= r@[k]@.loc_end by {
            assert(rows::vals(r@)[k] == r@[k]@);
            chunk_laws::chunks_end_after_they_start(
                doc@,
                us,
                0,
                0,
                *params,
                span(doc@.blocks) as int,
                k,
            );
        }
    }
    r
}

} // verus!
