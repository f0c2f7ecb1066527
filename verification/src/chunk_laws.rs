//! What chunking guarantees of every book.
use vstd::prelude::*;
use crate::book::{BlockV, BookDocV};
use crate::chunk;
use crate::chunk::{ChunkParams, ChunkV, ParaV, PieceV, UnitV};
use crate::pattern;
use crate::text;

verus! {

/// A passage is made of the units with the given indices, all of them of its own chapter.
pub open spec fn made_of(doc: BookDocV, units: Seq<UnitV>, w: Seq<int>, c: ChunkV) -> bool {
    &&& w.len() > 0
    &&& forall|k: int| 0 <= k < w.len() ==> 0 <= #[trigger] w[k] < units.len()
    &&& forall|k: int| 0 <= k < w.len() ==> units[#[trigger] w[k]].chapter == c.chapter
    &&& c.text == text::join(chunk::window_texts(units, w), "\n\n"@)
    &&& c.loc_start == units[w[0]].loc_start
    &&& c.loc_end == units[w.last()].loc_end
    &&& c.page == units[w[0]].page
    &&& c.book_id == doc.book_id && c.title == doc.title && c.author == doc.author && c.source_path
        == doc.source_path && c.format == doc.format
}

/// A window of a group as a list of indices into all units.
pub open spec fn shifted(w: Seq<int>, by: int) -> Seq<int> {
    Seq::new(w.len(), |k: int| w[k] + by)
}

proof fn lemma_group_chunk(
    doc: BookDocV,
    units: Seq<UnitV>,
    start: int,
    index: nat,
    params: ChunkParams,
    k: int,
)
    requires
        0 <= start < units.len(),
        ({
            let g = units.subrange(start, chunk::group_end(units, start, start + 1));
            0 <= k < chunk::group_chunks(doc, g, index, params).len()
        }),
    ensures
        ({
            let g = units.subrange(start, chunk::group_end(units, start, start + 1));
            let w = chunk::group_windows(g, params)[k];
            let c = chunk::group_chunks(doc, g, index, params)[k];
            &&& made_of(doc, units, shifted(w, start), c)
            &&& c.id == doc.book_id + seq![':'] + text::decimal((index + k) as nat)
        }),
{
    chunk::lemma_group_end(units, start, start + 1);
    let end = chunk::group_end(units, start, start + 1);
    let g = units.subrange(start, end);
    chunk::lemma_group_windows(g, params);
    let ws = chunk::group_windows(g, params);
    let w = ws[k];
    let c = chunk::group_chunks(doc, g, index, params)[k];
    let s = shifted(w, start);
    assert(w.len() > 0);
    assert forall|b: int| 0 <= b < w.len() implies 0 <= #[trigger] w[b] < g.len() by {
        assert(0 <= ws[k][b] < g.len());
    }
    assert forall|b: int| 0 <= b < s.len() implies 0 <= #[trigger] s[b] < units.len()
        && units[s[b]].chapter == c.chapter by {
        assert(g[w[b]] == units[s[b]]);
        assert(units[start].chapter == units[s[b]].chapter);
        assert(g[w[0]] == units[w[0] + start]);
    }
    assert(chunk::window_texts(g, w) =~= chunk::window_texts(units, s)) by {
        assert forall|b: int| 0 <= b < w.len() implies g[#[trigger] w[b]].text == units[s[b]].text by {
            assert(g[w[b]] == units[s[b]]);
        }
    }
    assert(g[w[0]] == units[s[0]]);
    assert(g[w.last()] == units[s.last()]) by {
        assert(w.last() == w[w.len() - 1]);
    }
}

proof fn lemma_chunk_windows(
    doc: BookDocV,
    units: Seq<UnitV>,
    start: int,
    index: nat,
    params: ChunkParams,
    k: int,
)
    requires
        0 <= start,
        0 <= k < chunk::chunks_from(doc, units, start, index, params).len(),
    ensures
        ({
            let c = chunk::chunks_from(doc, units, start, index, params)[k];
            &&& exists|w: Seq<int>| #[trigger] made_of(doc, units, w, c)
            &&& c.id == doc.book_id + seq![':'] + text::decimal((index + k) as nat)
        }),
    decreases units.len() - start,
{
    if start < units.len() {
        chunk::lemma_group_end(units, start, start + 1);
        let end = chunk::group_end(units, start, start + 1);
        let g = units.subrange(start, end);
        let here = chunk::group_chunks(doc, g, index, params);
        if k < here.len() {
            lemma_group_chunk(doc, units, start, index, params, k);
            let w = chunk::group_windows(g, params)[k];
            assert(made_of(doc, units, shifted(w, start), here[k]));
        } else {
            lemma_chunk_windows(doc, units, end, index + here.len(), params, k - here.len());
        }
    }
}

/// No passage crosses a chapter boundary: each is made of units of its own chapter only, and
/// carries the metadata of its book and the place of its first and last unit.
pub proof fn chunks_never_cross_chapters(
    doc: BookDocV,
    units: Seq<UnitV>,
    params: ChunkParams,
    k: int,
)
    requires
        0 <= k < chunk::chunks_from(doc, units, 0, 0, params).len(),
    ensures
        exists|w: Seq<int>| #[trigger]
            made_of(doc, units, w, chunk::chunks_from(doc, units, 0, 0, params)[k]),
{
    lemma_chunk_windows(doc, units, 0, 0, params, k);
}

/// Passages are numbered from zero without gaps.
pub proof fn chunk_ids_are_sequential(
    doc: BookDocV,
    units: Seq<UnitV>,
    params: ChunkParams,
    k: int,
)
    requires
        0 <= k < chunk::chunks_from(doc, units, 0, 0, params).len(),
    ensures
        chunk::chunks_from(doc, units, 0, 0, params)[k].id == doc.book_id + seq![':']
            + text::decimal(k as nat),
{
    lemma_chunk_windows(doc, units, 0, 0, params, k);
}

proof fn lemma_windows_cover(t: Seq<nat>, i: int, target: nat, overlap: nat, u: int)
    requires
        0 <= i <= u < t.len(),
    ensures
        exists|a: int|
            0 <= a < chunk::windows_from(t, i, target, overlap).len() && (
            #[trigger] chunk::windows_from(t, i, target, overlap)[a]).contains(u),
    decreases t.len() - i,
{
    let w = chunk::windows_from(t, i, target, overlap);
    chunk::lemma_window_end(t, i, i, 0, target);
    let j = chunk::window_end(t, i, i, 0, target);
    if u < j {
        assert(w[0] == chunk::range(i, j));
        assert(w[0][u - i] == u);
        assert(w[0].contains(u));
    } else {
        chunk::lemma_carried(t, i, j - 1, 0, overlap);
        let s = chunk::next_start(t, i, j, overlap);
        lemma_windows_cover(t, s, target, overlap, u);
        let rest = chunk::windows_from(t, s, target, overlap);
        let a = choose|a: int| 0 <= a < rest.len() && (#[trigger] rest[a]).contains(u);
        assert(w[a + 1] == rest[a]);
        assert(w[a + 1].contains(u));
    }
}

proof fn lemma_group_windows_cover(group: Seq<UnitV>, params: ChunkParams, u: int)
    requires
        0 <= u < group.len(),
    ensures
        exists|a: int|
            0 <= a < chunk::group_windows(group, params).len() && (#[trigger] chunk::group_windows(
                group,
                params,
            )[a]).contains(u),
{
    let t = chunk::tokens_of(group);
    let w = chunk::windows_from(
        t,
        0,
        params.target_tokens as nat,
        params.overlap_tokens as nat,
    );
    lemma_windows_cover(
        t,
        0,
        params.target_tokens as nat,
        params.overlap_tokens as nat,
        u,
    );
    let a = choose|a: int| 0 <= a < w.len() && (#[trigger] w[a]).contains(u);
    let m = chunk::group_windows(group, params);
    let n = w.len() as int;
    if m.len() == n {
        assert(m[a] == w[a]);
        assert(m[a].contains(u));
    } else if a < n - 2 {
        assert(m[a] == w[a]);
        assert(m[a].contains(u));
    } else {
        let b = choose|b: int| 0 <= b < w[a].len() && w[a][b] == u;
        assert(m[n - 2] == w[n - 2] + w[n - 1]);
        if a == n - 2 {
            assert(m[n - 2][b] == u);
        } else {
            assert(m[n - 2][b + w[n - 2].len()] == u);
        }
        assert(m[n - 2].contains(u));
    }
}

proof fn lemma_units_covered(
    doc: BookDocV,
    units: Seq<UnitV>,
    start: int,
    index: nat,
    params: ChunkParams,
    u: int,
)
    requires
        0 <= start <= u < units.len(),
    ensures
        exists|k: int, w: Seq<int>|
            0 <= k < chunk::chunks_from(doc, units, start, index, params).len() && w.contains(u)
                && #[trigger] made_of(
                doc,
                units,
                w,
                chunk::chunks_from(doc, units, start, index, params)[k],
            ),
    decreases units.len() - start,
{
    chunk::lemma_group_end(units, start, start + 1);
    let end = chunk::group_end(units, start, start + 1);
    let g = units.subrange(start, end);
    let here = chunk::group_chunks(doc, g, index, params);
    let all = chunk::chunks_from(doc, units, start, index, params);
    if u < end {
        lemma_group_windows_cover(g, params, u - start);
        let ws = chunk::group_windows(g, params);
        let a = choose|a: int| 0 <= a < ws.len() && (#[trigger] ws[a]).contains(u - start);
        lemma_group_chunk(doc, units, start, index, params, a);
        let s = shifted(ws[a], start);
        let b = choose|b: int| 0 <= b < ws[a].len() && ws[a][b] == u - start;
        assert(s[b] == u);
        assert(all[a] == here[a]);
        assert(made_of(doc, units, s, all[a]) && s.contains(u));
    } else {
        lemma_units_covered(doc, units, end, index + here.len(), params, u);
        let rest = chunk::chunks_from(doc, units, end, index + here.len(), params);
        let (k, w) = choose|k: int, w: Seq<int>|
            0 <= k < rest.len() && w.contains(u) && #[trigger] made_of(doc, units, w, rest[k]);
        assert(all[k + here.len()] == rest[k]);
        assert(made_of(doc, units, w, all[k + here.len()]));
    }
}

/// No text is lost: every unit of the book is in some passage.
pub proof fn every_unit_is_in_a_chunk(
    doc: BookDocV,
    units: Seq<UnitV>,
    params: ChunkParams,
    u: int,
)
    requires
        0 <= u < units.len(),
    ensures
        exists|k: int, w: Seq<int>|
            0 <= k < chunk::chunks_from(doc, units, 0, 0, params).len() && w.contains(u)
                && #[trigger] made_of(
                doc,
                units,
                w,
                chunk::chunks_from(doc, units, 0, 0, params)[k],
            ),
{
    lemma_units_covered(doc, units, 0, 0, params, u);
}

proof fn lemma_range_tokens(t: Seq<nat>, i: int, j: int)
    requires
        0 <= i < j <= t.len(),
    ensures
        chunk::window_tokens(t, chunk::range(i, j)) == chunk::window_tokens(
            t,
            chunk::range(i, j - 1),
        ) + t[j - 1],
{
    assert(chunk::range(i, j).drop_last() =~= chunk::range(i, j - 1));
}

proof fn lemma_window_end_tokens(t: Seq<nat>, i: int, j: int, tok: nat, target: nat)
    requires
        0 <= i < t.len(),
        i <= j <= t.len(),
        tok == chunk::window_tokens(t, chunk::range(i, j)),
        j <= i + 1 || tok <= target,
    ensures
        ({
            let e = chunk::window_end(t, i, j, tok, target);
            e <= i + 1 || chunk::window_tokens(t, chunk::range(i, e)) <= target
        }),
    decreases t.len() - j,
{
    if j < t.len() && (j == i || tok + t[j] <= target) {
        lemma_range_tokens(t, i, j + 1);
        lemma_window_end_tokens(t, i, j + 1, tok + t[j], target);
    }
}

/// A packed window never passes the target, unless it is a single unit; and the next window starts
/// where it ends or earlier, so nothing falls between two windows. With an overlap, it takes over
/// at least the last unit of a window of more than one.
pub proof fn windows_respect_target_and_overlap(t: Seq<nat>, i: int, target: nat, overlap: nat)
    requires
        0 <= i < t.len(),
    ensures
        ({
            let j = chunk::window_end(t, i, i, 0, target);
            &&& j <= i + 1 || chunk::window_tokens(t, chunk::range(i, j)) <= target
            &&& i < chunk::next_start(t, i, j, overlap) <= j
            &&& overlap > 0 && j > i + 1 ==> chunk::next_start(t, i, j, overlap) < j
        }),
{
    chunk::lemma_window_end(t, i, i, 0, target);
    let j = chunk::window_end(t, i, i, 0, target);
    assert(chunk::range(i, i) =~= Seq::empty());
    lemma_window_end_tokens(t, i, i, 0, target);
    chunk::lemma_carried(t, i, j - 1, 0, overlap);
    if overlap > 0 && j > i + 1 {
        chunk::lemma_carried(t, i, j - 2, t[j - 1], overlap);
    }
}

/// The texts of some pieces.
pub open spec fn piece_texts(pieces: Seq<PieceV>) -> Seq<Seq<char>> {
    pieces.map_values(|p: PieceV| p.text)
}

proof fn lemma_join_add(a: Seq<Seq<char>>, b: Seq<Seq<char>>, sep: Seq<char>)
    requires
        a.len() > 0,
        b.len() > 0,
    ensures
        text::join(a + b, sep) == text::join(a, sep) + sep + text::join(b, sep),
    decreases b.len(),
{
    if b.len() == 1 {
        assert((a + b).drop_last() =~= a);
    } else {
        assert((a + b).drop_last() =~= a + b.drop_last());
        lemma_join_add(a, b.drop_last(), sep);
        assert(text::join(a + b, sep) =~= text::join(a, sep) + sep + text::join(b, sep));
    }
}

/// An oversized paragraph is split, not truncated: its pieces, joined again, are all its words in
/// order.
pub proof fn split_pieces_keep_every_word(
    words: Seq<Seq<char>>,
    at: nat,
    per: nat,
    n_tok: nat,
    total: nat,
)
    requires
        per > 0,
    ensures
        text::join(piece_texts(chunk::cut(words, at, per, n_tok, total)), " "@) == text::join(
            words,
            " "@,
        ),
    decreases words.len(),
{
    if words.len() > 0 {
        let k = if per < words.len() {
            per as int
        } else {
            words.len() as int
        };
        let piece = text::join(words.take(k), " "@);
        let rest = chunk::cut(words.skip(k), at + piece.len() + 1, per, n_tok, total);
        let all = chunk::cut(words, at, per, n_tok, total);
        split_pieces_keep_every_word(words.skip(k), at + piece.len() + 1, per, n_tok, total);
        assert(piece_texts(all) =~= seq![piece] + piece_texts(rest));
        if k < words.len() {
            assert(rest.len() > 0);
            lemma_join_add(seq![piece], piece_texts(rest), " "@);
            lemma_join_add(words.take(k), words.skip(k), " "@);
            assert(words.take(k) + words.skip(k) =~= words);
        } else {
            assert(words.take(k) =~= words);
            assert(words.skip(k) =~= Seq::empty());
            assert(piece_texts(all) =~= seq![piece]);
        }
    }
}

/// Units stand in reading order within the given bounds: none ends before it starts, and none
/// starts before its predecessor ends.
pub open spec fn in_order(units: Seq<UnitV>, lo: int, hi: int) -> bool {
    &&& forall|i: int|
        0 <= i < units.len() ==> lo <= (#[trigger] units[i]).loc_start <= units[i].loc_end <= hi
    &&& forall|i: int, j: int|
        0 <= i < j < units.len() ==> (#[trigger] units[i]).loc_end <= (
        #[trigger] units[j]).loc_start
}

proof fn lemma_in_order_add(a: Seq<UnitV>, b: Seq<UnitV>, lo: int, mid: int, mid2: int, hi: int)
    requires
        in_order(a, lo, mid),
        in_order(b, mid2, hi),
        lo <= mid <= mid2 <= hi,
    ensures
        in_order(a + b, lo, hi),
{
    let c = a + b;
    assert forall|i: int| 0 <= i < c.len() implies lo <= (#[trigger] c[i]).loc_start
        <= c[i].loc_end <= hi by {
        if i < a.len() {
            assert(c[i] == a[i]);
        } else {
            assert(c[i] == b[i - a.len()]);
        }
    }
    assert forall|i: int, j: int| 0 <= i < j < c.len() implies (#[trigger] c[i]).loc_end <= (
    #[trigger] c[j]).loc_start by {
        if j < a.len() {
            assert(c[i] == a[i] && c[j] == a[j]);
        } else if i < a.len() {
            assert(c[i] == a[i] && c[j] == b[j - a.len()]);
        } else {
            assert(c[i] == b[i - a.len()] && c[j] == b[j - a.len()]);
        }
    }
}

proof fn lemma_cut_in_order(
    block: BlockV,
    words: Seq<Seq<char>>,
    at: nat,
    per: nat,
    n_tok: nat,
    total: nat,
)
    requires
        per > 0,
        words.len() > 0,
    ensures
        in_order(
            chunk::cut(words, at, per, n_tok, total).map_values(
                |x: PieceV| chunk::unit_of(block, x),
            ),
            at as int,
            at + chunk::spaced(words) - 1,
        ),
    decreases words.len(),
{
    let f = |x: PieceV| chunk::unit_of(block, x);
    let k = if per < words.len() {
        per as int
    } else {
        words.len() as int
    };
    let piece = text::join(words.take(k), " "@);
    let all = chunk::cut(words, at, per, n_tok, total).map_values(f);
    let first = seq![chunk::cut(words, at, per, n_tok, total)[0]].map_values(f);
    chunk::lemma_spaced_join(words.take(k));
    chunk::lemma_spaced_add(words.take(k), words.skip(k));
    assert(words.take(k) + words.skip(k) =~= words);
    assert(first[0].loc_start == at && first[0].loc_end == at + piece.len());
    let next = (at + piece.len() + 1) as nat;
    let rest = chunk::cut(words.skip(k), next, per, n_tok, total);
    assert(all =~= first + rest.map_values(f));
    if k < words.len() {
        lemma_cut_in_order(block, words.skip(k), next, per, n_tok, total);
        chunk::lemma_spaced_join(words.skip(k));
        lemma_in_order_add(
            first,
            rest.map_values(f),
            at as int,
            (at + piece.len()) as int,
            next as int,
            at + chunk::spaced(words) - 1,
        );
    } else {
        assert(words.skip(k) =~= Seq::empty());
        assert(chunk::spaced(words.skip(k)) == 0);
        assert(all =~= first);
    }
}

proof fn lemma_pieces_in_order(block: BlockV, para: Seq<char>, start: nat, n_tok: nat, target: nat)
    ensures
        in_order(
            chunk::pieces_of(para, start, n_tok, target).map_values(
                |x: PieceV| chunk::unit_of(block, x),
            ),
            start as int,
            (start + para.len()) as int,
        ),
{
    if n_tok > target {
        let w = text::words(para);
        if w.len() > 0 {
            lemma_cut_in_order(
                block,
                w,
                start,
                chunk::words_per_piece(target, n_tok, w.len()),
                n_tok,
                w.len(),
            );
            chunk::lemma_spaced_words(para);
        }
    }
}

/// Paragraphs stand in reading order within the given length.
pub open spec fn paras_in_order(paras: Seq<ParaV>, hi: int) -> bool {
    &&& forall|i: int|
        0 <= i < paras.len() ==> (#[trigger] paras[i]).start + paras[i].text.len() <= hi
    &&& forall|i: int, j: int|
        0 <= i < j < paras.len() ==> (#[trigger] paras[i]).start + paras[i].text.len() <= (
        #[trigger] paras[j]).start
}

proof fn lemma_paragraphs_in_order(pieces: Seq<Seq<char>>, breaks: Seq<Seq<char>>, n: nat)
    requires
        n <= pieces.len(),
        breaks.len() + 1 == pieces.len(),
    ensures
        n < pieces.len() ==> paras_in_order(
            chunk::paragraphs(pieces, breaks, n),
            chunk::offset(pieces, breaks, n) as int,
        ),
        n > 0 ==> paras_in_order(
            chunk::paragraphs(pieces, breaks, n),
            (chunk::offset(pieces, breaks, (n - 1) as nat) + pieces[n - 1].len()) as int,
        ),
    decreases n,
{
    if n > 0 {
        lemma_paragraphs_in_order(pieces, breaks, (n - 1) as nat);
        let p = pieces[n - 1];
        chunk::lemma_trim_len(p);
        chunk::lemma_trim_len(text::ltrim(p));
        let before = chunk::paragraphs(pieces, breaks, (n - 1) as nat);
        let now = chunk::paragraphs(pieces, breaks, n);
        let hi = chunk::offset(pieces, breaks, (n - 1) as nat) + p.len();
        assert forall|i: int| 0 <= i < now.len() implies (#[trigger] now[i]).start
            + now[i].text.len() <= hi by {
            if i < before.len() {
                assert(now[i] == before[i]);
            }
        }
        assert forall|i: int, j: int| 0 <= i < j < now.len() implies (#[trigger] now[i]).start
            + now[i].text.len() <= (#[trigger] now[j]).start by {
            assert(now[i] == before[i]);
            if j < before.len() {
                assert(now[j] == before[j]);
            }
        }
    }
}

proof fn lemma_block_in_order(
    count: spec_fn(Seq<char>) -> nat,
    block: BlockV,
    paras: Seq<ParaV>,
    at: nat,
    target: nat,
    hi: int,
)
    requires
        paras_in_order(paras, hi),
        hi >= 0,
    ensures
        in_order(chunk::block_units(count, block, paras, at, target), at as int, at + hi),
    decreases paras.len(),
{
    if paras.len() > 0 {
        let p = paras.last();
        let init = paras.drop_last();
        assert forall|i: int| 0 <= i < init.len() implies (#[trigger] init[i]).start
            + init[i].text.len() <= p.start by {
            assert(init[i] == paras[i]);
            assert(paras[paras.len() - 1] == p);
        }
        assert(paras[paras.len() - 1] == p);
        assert(paras_in_order(init, p.start as int));
        lemma_block_in_order(count, block, init, at, target, p.start as int);
        lemma_pieces_in_order(block, p.text, at + p.start, count(p.text), target);
        lemma_in_order_add(
            chunk::block_units(count, block, init, at, target),
            chunk::pieces_of(p.text, at + p.start, count(p.text), target).map_values(
                |x: PieceV| chunk::unit_of(block, x),
            ),
            at as int,
            (at + p.start) as int,
            (at + p.start) as int,
            at + hi,
        );
    }
}

/// The units of a book stand in reading order: offsets never run backwards.
pub proof fn book_units_are_in_order(
    count: spec_fn(Seq<char>) -> nat,
    blocks: Seq<BlockV>,
    target: nat,
)
    ensures
        in_order(chunk::book_units(count, blocks, target), 0, chunk::span(blocks) as int),
    decreases blocks.len(),
{
    if blocks.len() > 0 {
        let b = blocks.last();
        let init = blocks.drop_last();
        book_units_are_in_order(count, init, target);
        let pieces = pattern::paragraph_pieces(b.text);
        let breaks = pattern::paragraph_breaks(b.text);
        pattern::pieces_and_breaks_are_the_text(b.text);
        lemma_paragraphs_in_order(pieces, breaks, pieces.len());
        chunk::lemma_offset_bound(pieces, breaks, (pieces.len() - 1) as nat);
        let hi = b.text.len() as int;
        let paras = chunk::paragraphs_of(b.text);
        assert(paras_in_order(paras, hi));
        lemma_block_in_order(count, b, paras, chunk::span(init), target, hi);
        lemma_in_order_add(
            chunk::book_units(count, init, target),
            chunk::block_units(count, b, paras, chunk::span(init), target),
            0,
            chunk::span(init) as int,
            chunk::span(init) as int,
            chunk::span(init) + hi,
        );
        let units = chunk::book_units(count, blocks, target);
        assert forall|i: int| 0 <= i < units.len() implies 0 <= (#[trigger] units[i]).loc_start
            <= units[i].loc_end <= chunk::span(blocks) by {}
    }
}

/// The first index of every window is not above its last.
proof fn lemma_window_rises(group: Seq<UnitV>, params: ChunkParams, a: int)
    requires
        0 <= a < chunk::group_windows(group, params).len(),
    ensures
        chunk::group_windows(group, params)[a].len() > 0,
        chunk::group_windows(group, params)[a][0] <= chunk::group_windows(group, params)[a].last(),
{
    let t = chunk::tokens_of(group);
    let target = params.target_tokens as nat;
    let overlap = params.overlap_tokens as nat;
    let w = chunk::windows_from(t, 0, target, overlap);
    lemma_windows_rise(t, 0, target, overlap);
    chunk::lemma_group_windows(group, params);
    let m = chunk::group_windows(group, params);
    let n = w.len() as int;
    if m.len() == n {
        assert(m[a] == w[a]);
    } else if a < n - 2 {
        assert(m[a] == w[a]);
    } else {
        assert(m[a] == w[n - 2] + w[n - 1]);
        assert(w[n - 2].len() > 0 && w[n - 1].len() > 0);
        assert(m[a][0] == w[n - 2][0]);
        assert(m[a].last() == w[n - 1].last());
        assert(w[n - 2][0] <= w[n - 1][0]);
    }
}

proof fn lemma_windows_rise(t: Seq<nat>, i: int, target: nat, overlap: nat)
    requires
        0 <= i <= t.len(),
    ensures
        ({
            let w = chunk::windows_from(t, i, target, overlap);
            &&& forall|a: int|
                0 <= a < w.len() ==> (#[trigger] w[a]).len() > 0 && w[a][0] <= w[a].last() && w[a][0]
                    >= i
            &&& forall|a: int, b: int|
                0 <= a < b < w.len() ==> (#[trigger] w[a])[0] <= (#[trigger] w[b])[0]
        }),
    decreases t.len() - i,
{
    let w = chunk::windows_from(t, i, target, overlap);
    if i < t.len() {
        chunk::lemma_window_end(t, i, i, 0, target);
        let j = chunk::window_end(t, i, i, 0, target);
        assert(w[0] == chunk::range(i, j));
        assert(w[0].last() == j - 1);
        if j < t.len() {
            chunk::lemma_carried(t, i, j - 1, 0, overlap);
            let s = chunk::next_start(t, i, j, overlap);
            lemma_windows_rise(t, s, target, overlap);
            let rest = chunk::windows_from(t, s, target, overlap);
            assert forall|a: int| 0 <= a < w.len() implies (#[trigger] w[a]).len() > 0 && w[a][0]
                <= w[a].last() && w[a][0] >= i by {
                if a > 0 {
                    assert(w[a] == rest[a - 1]);
                }
            }
            assert forall|a: int, b: int| 0 <= a < b < w.len() implies (#[trigger] w[a])[0] <= (
            #[trigger] w[b])[0] by {
                assert(w[b] == rest[b - 1]);
                if a > 0 {
                    assert(w[a] == rest[a - 1]);
                }
            }
        }
    }
}

/// A passage of units in reading order never ends before it starts.
pub proof fn chunks_end_after_they_start(
    doc: BookDocV,
    units: Seq<UnitV>,
    start: int,
    index: nat,
    params: ChunkParams,
    hi: int,
    k: int,
)
    requires
        in_order(units, 0, hi),
        0 <= start,
        0 <= k < chunk::chunks_from(doc, units, start, index, params).len(),
    ensures
        chunk::chunks_from(doc, units, start, index, params)[k].loc_start <= chunk::chunks_from(
            doc,
            units,
            start,
            index,
            params,
        )[k].loc_end,
    decreases units.len() - start,
{
    if start < units.len() {
        chunk::lemma_group_end(units, start, start + 1);
        let end = chunk::group_end(units, start, start + 1);
        let g = units.subrange(start, end);
        let here = chunk::group_chunks(doc, g, index, params);
        if k < here.len() {
            lemma_window_rises(g, params, k);
            chunk::lemma_group_windows(g, params);
            let ws = chunk::group_windows(g, params);
            let w = ws[k];
            assert(0 <= ws[k][0] < g.len());
            assert(0 <= ws[k][w.len() - 1] < g.len());
            assert(g[w[0]] == units[start + w[0]]);
            assert(g[w.last()] == units[start + w.last()]);
        } else {
            chunks_end_after_they_start(
                doc,
                units,
                end,
                index + here.len(),
                params,
                hi,
                k - here.len(),
            );
        }
    }
}

} // verus!
