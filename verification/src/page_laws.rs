//! What becomes of the pages of a PDF.
use vstd::prelude::*;
use crate::book::BlockV;
use crate::extract;
use crate::extract::PageV;
use crate::shape;

verus! {

/// The block of a page: its text, its number, and no chapter.
pub open spec fn block_of(pages: Seq<PageV>) -> spec_fn(int) -> BlockV {
    |i: int| BlockV { text: pages[i].text, chapter: None, page: Some(pages[i].number) }
}

/// No page is lost: the blocks are the pages that hold text, each once, in page order.
pub proof fn no_page_is_lost(pages: Seq<PageV>)
    ensures
        shape::picks(
            pages.len() as int,
            |i: int| pages[i].text.len() > 0,
            block_of(pages),
            extract::page_blocks(pages),
        ),
    decreases pages.len(),
{
    let keep = |i: int| pages[i].text.len() > 0;
    if pages.len() == 0 {
        shape::lemma_picks_none(keep, block_of(pages));
    } else {
        let less = pages.drop_last();
        no_page_is_lost(less);
        let n = less.len() as int;
        let keep0 = |i: int| less[i].text.len() > 0;
        assert forall|i: int| 0 <= i < n implies (#[trigger] keep0(i) <==> keep(i)) by {
            assert(less[i] == pages[i]);
        }
        assert forall|i: int| 0 <= i < n && #[trigger] keep0(i) implies block_of(less)(i)
            == block_of(pages)(i) by {
            assert(less[i] == pages[i]);
        }
        shape::lemma_picks_step(
            n,
            keep0,
            block_of(less),
            keep,
            block_of(pages),
            extract::page_blocks(less),
        );
    }
}

/// Every page whose cleaned text is not empty is a block of the book, with that text, its page
/// number and no chapter, and every block is of such a page.
pub proof fn every_page_with_text_is_a_block(pages: Seq<PageV>)
    ensures
        ({
            let blocks = extract::page_blocks(extract::clean_pages(pages));
            &&& forall|i: int|
                0 <= i < pages.len() && extract::cleaned((#[trigger] pages[i]).text).len() > 0
                    ==> blocks.contains(
                    BlockV {
                        text: extract::cleaned(pages[i].text),
                        chapter: None,
                        page: Some(pages[i].number),
                    },
                )
            &&& forall|k: int|
                0 <= k < blocks.len() ==> exists|i: int|
                    0 <= i < pages.len() && extract::cleaned((#[trigger] pages[i]).text).len() > 0
                        && #[trigger] blocks[k] == (BlockV {
                        text: extract::cleaned(pages[i].text),
                        chapter: None,
                        page: Some(pages[i].number),
                    })
        }),
{
    let clean = extract::clean_pages(pages);
    let blocks = extract::page_blocks(clean);
    no_page_is_lost(clean);
    let keep = |i: int| clean[i].text.len() > 0;
    let n = pages.len() as int;
    let at = choose|at: Seq<int>| #[trigger]
        shape::picked_at(n, keep, block_of(clean), blocks, at);
    assert forall|i: int|
        0 <= i < pages.len() && extract::cleaned((#[trigger] pages[i]).text).len()
            > 0 implies blocks.contains(
        BlockV { text: extract::cleaned(pages[i].text), chapter: None, page: Some(pages[i].number) },
    ) by {
        assert(keep(i));
        let k = choose|k: int| 0 <= k < at.len() && at[k] == i;
        assert(blocks[k] == block_of(clean)(at[k]));
    }
    assert forall|k: int| 0 <= k < blocks.len() implies exists|i: int|
        0 <= i < pages.len() && extract::cleaned((#[trigger] pages[i]).text).len() > 0
            && #[trigger] blocks[k] == (BlockV {
            text: extract::cleaned(pages[i].text),
            chapter: None,
            page: Some(pages[i].number),
        }) by {
        let i = at[k];
        assert(blocks[k] == block_of(clean)(at[k]));
        assert(extract::cleaned(pages[i].text).len() > 0);
    }
}

/// The blocks of some pages followed by others are those of the first and then those of the others.
pub proof fn pages_are_read_side_by_side(a: Seq<PageV>, b: Seq<PageV>)
    ensures
        extract::page_blocks(a + b) == extract::page_blocks(a) + extract::page_blocks(b),
    decreases b.len(),
{
    if b.len() == 0 {
        assert(a + b =~= a);
        assert(extract::page_blocks(b).len() == 0);
    } else {
        pages_are_read_side_by_side(a, b.drop_last());
        assert((a + b).drop_last() =~= a + b.drop_last());
        assert(extract::page_blocks(a + b) =~= extract::page_blocks(a) + extract::page_blocks(b));
    }
}

} // verus!
