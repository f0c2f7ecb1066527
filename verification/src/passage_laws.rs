//! What a book's text becomes from end to end.
use vstd::prelude::*;
use crate::book::{BlockV, BookDocV};
use crate::chunk;
use crate::chunk::{ChunkParams, ParaV, PieceV, UnitV};
use crate::chunk_laws;
use crate::extract;
use crate::sections;
use crate::section_laws;
use crate::shape;
use crate::text;
use crate::text_laws;
use crate::unit_laws;

verus! {

/// The unit that a paragraph of a block becomes where it is within the target: its text whole, under
/// the block's chapter and page, at its place in the book.
pub open spec fn whole_unit(
    count: spec_fn(Seq<char>) -> nat,
    blocks: Seq<BlockV>,
    i: int,
    p: ParaV,
) -> UnitV {
    UnitV {
        text: p.text,
        chapter: blocks[i].chapter,
        page: blocks[i].page,
        loc_start: chunk::span(blocks.take(i)) + p.start,
        loc_end: chunk::span(blocks.take(i)) + p.start + p.text.len(),
        tokens: count(p.text),
    }
}

proof fn lemma_part_member<B>(n: int, part: spec_fn(int) -> Seq<B>, out: Seq<B>, i: int, x: B)
    requires
        shape::laid(n, part, out),
        0 <= i < n,
        part(i).contains(x),
    ensures
        out.contains(x),
{
    let cut = choose|cut: Seq<int>| #[trigger] shape::laid_at(n, part, out, cut);
    let own = part(i);
    let j = choose|j: int| 0 <= j < own.len() && own[j] == x;
    assert(out.subrange(cut[i], cut[i + 1]) == part(i));
    assert(out[cut[i] + j] == out.subrange(cut[i], cut[i + 1])[j]);
}

/// Every paragraph of every block that is within the target is a unit of the book, whole.
pub proof fn every_short_paragraph_is_a_unit(
    count: spec_fn(Seq<char>) -> nat,
    blocks: Seq<BlockV>,
    target: nat,
    i: int,
    k: int,
)
    requires
        0 <= i < blocks.len(),
        0 <= k < chunk::paragraphs_of(blocks[i].text).len(),
        count(chunk::paragraphs_of(blocks[i].text)[k].text) <= target,
    ensures
        chunk::book_units(count, blocks, target).contains(
            whole_unit(count, blocks, i, chunk::paragraphs_of(blocks[i].text)[k]),
        ),
{
    let paras = chunk::paragraphs_of(blocks[i].text);
    let p = paras[k];
    let block = blocks[i];
    let at = chunk::span(blocks.take(i));
    let x = whole_unit(count, blocks, i, p);
    unit_laws::every_paragraph_is_taken(count, block, paras, at, target);
    let part = |j: int|
        chunk::pieces_of(
            paras[j].text,
            at + paras[j].start,
            count(paras[j].text),
            target,
        ).map_values(|x: PieceV| chunk::unit_of(block, x));
    let units = chunk::block_units(count, block, paras, at, target);
    assert(part(k)[0] == x);
    lemma_part_member(paras.len() as int, part, units, k, x);
    unit_laws::every_block_is_taken(count, blocks, target);
    let whole = |j: int|
        chunk::block_units(
            count,
            blocks[j],
            chunk::paragraphs_of(blocks[j].text),
            chunk::span(blocks.take(j)),
            target,
        );
    assert(whole(i) == units);
    lemma_part_member(
        blocks.len() as int,
        whole,
        chunk::book_units(count, blocks, target),
        i,
        x,
    );
}

/// Every paragraph of a book that is within the target stands whole in a passage of its chapter.
pub proof fn every_short_paragraph_stands_in_a_passage(
    doc: BookDocV,
    count: spec_fn(Seq<char>) -> nat,
    params: ChunkParams,
    i: int,
    k: int,
)
    requires
        0 <= i < doc.blocks.len(),
        0 <= k < chunk::paragraphs_of(doc.blocks[i].text).len(),
        count(chunk::paragraphs_of(doc.blocks[i].text)[k].text) <= params.target_tokens,
    ensures
        ({
            let units = chunk::book_units(count, doc.blocks, params.target_tokens as nat);
            let passages = chunk::chunks_from(doc, units, 0, 0, params);
            exists|j: int|
                {
                    &&& 0 <= j < passages.len()
                    &&& text::contains(
                        (#[trigger] chunk::chunks_from(doc, units, 0, 0, params)[j]).text,
                        chunk::paragraphs_of(doc.blocks[i].text)[k].text,
                    )
                    &&& passages[j].chapter == doc.blocks[i].chapter
                    &&& passages[j].book_id == doc.book_id
                }
        }),
{
    let target = params.target_tokens as nat;
    let units = chunk::book_units(count, doc.blocks, target);
    let p = chunk::paragraphs_of(doc.blocks[i].text)[k];
    every_short_paragraph_is_a_unit(count, doc.blocks, target, i, k);
    let x = whole_unit(count, doc.blocks, i, p);
    let u = choose|u: int| 0 <= u < units.len() && units[u] == x;
    chunk_laws::every_unit_is_in_a_chunk(doc, units, params, u);
    let (j, w) = choose|j: int, w: Seq<int>|
        0 <= j < chunk::chunks_from(doc, units, 0, 0, params).len() && w.contains(u)
            && #[trigger] chunk_laws::made_of(
            doc,
            units,
            w,
            chunk::chunks_from(doc, units, 0, 0, params)[j],
        );
    let c = chunk::chunks_from(doc, units, 0, 0, params)[j];
    let m = choose|m: int| 0 <= m < w.len() && w[m] == u;
    let texts = chunk::window_texts(units, w);
    assert(texts[m] == p.text);
    text_laws::joins_keep_every_part(texts, "\n\n"@, m);
    let head = if m == 0 {
        Seq::<char>::empty()
    } else {
        text::join(texts.take(m), "\n\n"@) + "\n\n"@
    };
    assert(c.text.subrange(head.len() as int, head.len() as int + p.text.len()) =~= p.text);
    assert(text::occurs_at(c.text, p.text, head.len() as int));
    assert(units[w[m]].chapter == c.chapter);
}

/// A plain text is one block, without the whitespace around it, where it has 200 characters or more
/// of it, and no book where it has fewer.
pub proof fn plain_texts_are_one_block(t: Seq<char>, titled: bool)
    ensures
        sections::book_blocks(extract::only_section(t), titled) == if text::trim(t).len() >= 200 {
            seq![BlockV { text: text::trim(t), chapter: None, page: None }]
        } else {
            Seq::empty()
        },
{
    let s = extract::only_section(t);
    assert(s.drop_last() =~= Seq::empty());
    reveal_with_fuel(sections::floored, 2);
    reveal_with_fuel(sections::blocks_of, 2);
    reveal_with_fuel(sections::total_chars, 2);
    let f = sections::floored(s);
    assert(f =~= s);
    let b = sections::blocks_of(s, titled);
    if text::trim(t).len() > 0 {
        assert(b =~= seq![BlockV { text: text::trim(t), chapter: None, page: None }]);
        assert(b.drop_last() =~= Seq::empty());
    } else {
        assert(b =~= Seq::empty());
    }
    assert(sections::total_chars(b) == text::trim(t).len());
}

/// A long section of a book is a block of its own, under its heading: nothing is lost of it.
pub proof fn long_sections_are_blocks(s: Seq<sections::SectionV>, titled: bool, i: int)
    requires
        0 <= i < s.len(),
        s[i].body.len() >= 480,
        text::trim(s[i].body).len() > 0,
        sections::total_chars(sections::blocks_of(sections::floored(s), titled)) >= 200,
    ensures
        exists|k: int|
            0 <= k < sections::book_blocks(s, titled).len() && (#[trigger] sections::book_blocks(
                s,
                titled,
            )[k]).chapter == s[i].heading && text::contains(
                sections::book_blocks(s, titled)[k].text,
                text::trim(s[i].body),
            ),
{
    let f = sections::floored(s);
    let out = sections::book_blocks(s, titled);
    section_laws::long_sections_stand_alone(s, i);
    let m = choose|m: int|
        0 <= m < f.len() && (#[trigger] f[m]).heading == s[i].heading && s[i].body.is_prefix_of(
            f[m].body,
        );
    section_laws::every_section_with_text_is_a_block(f, titled);
    let keep = section_laws::has_block(f, titled);
    let value = section_laws::shown(f);
    let at = choose|at: Seq<int>| #[trigger]
        shape::picked_at(f.len() as int, keep, value, out, at);
    let a = s[i].body;
    let b = f[m].body;
    text_laws::trimming_takes_outer_whitespace(a);
    text_laws::trimming_takes_outer_whitespace(b);
    let a0 = a.len() - text::ltrim(a).len();
    let a1 = a0 + text::trim(a).len();
    let b0 = b.len() - text::ltrim(b).len();
    let b1 = b0 + text::trim(b).len();
    assert(a =~= b.subrange(0, a.len() as int));
    assert(b[a0] == a[a0] && b[a1 - 1] == a[a1 - 1]);
    assert(b0 <= a0) by {
        if b0 > a0 {
            assert(text::is_white(b[a0]));
        }
    }
    assert(a1 <= b1) by {
        if b1 < a1 {
            assert(text::is_white(b[a1 - 1]));
        }
    }
    let t = text::trim(b);
    assert(t.subrange(a0 - b0, a0 - b0 + text::trim(a).len()) =~= text::trim(a)) by {
        assert forall|j: int| 0 <= j < text::trim(a).len() implies t[a0 - b0 + j] == text::trim(
            a,
        )[j] by {
            assert(t[a0 - b0 + j] == b[a0 + j]);
            assert(b[a0 + j] == a[a0 + j]);
        }
    }
    assert(text::occurs_at(t, text::trim(a), a0 - b0));
    assert(keep(m));
    let k = choose|k: int| 0 <= k < at.len() && at[k] == m;
    assert(out[k] == value(at[k]));
    assert(out[k].chapter == s[i].heading);
}

} // verus!
