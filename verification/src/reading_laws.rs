//! What is found on disk and read of notebooks and ebooks: nothing is passed over.
use vstd::prelude::*;
use crate::discover;
use crate::discover::ListingV;
use crate::ebook;
use crate::ebook::{SpineV, TocV};
use crate::formats;
use crate::json;
use crate::json::JsonV;
use crate::notebook;
use crate::notebook::CellV;
use crate::order;
use crate::rows;
use crate::sections::SectionV;
use crate::shape;
use crate::text;

verus! {

/// A source path is or holds a file.
pub open spec fn holds(l: ListingV, p: Seq<char>) -> bool {
    match l {
        ListingV::Missing => false,
        ListingV::File(f) => f == p,
        ListingV::Directory(v) => v.contains(p),
    }
}

proof fn lemma_listed(l: ListingV, p: Seq<char>)
    ensures
        discover::listed(l).contains(p) <==> holds(l, p) && formats::supported(p),
{
    let ok = discover::accepted();
    assert(ok(p) == formats::supported(p));
    match l {
        ListingV::Missing => {},
        ListingV::File(f) => {
            let s = seq![f];
            rows::lemma_keep(s, ok);
            assert(s[0] == f);
            lemma_keep_holds(s, ok, p);
        },
        ListingV::Directory(v) => {
            lemma_keep_holds(v, ok, p);
        },
    }
}

proof fn lemma_keep_holds(v: Seq<Seq<char>>, ok: spec_fn(Seq<char>) -> bool, p: Seq<char>)
    ensures
        rows::keep(v, ok).contains(p) <==> v.contains(p) && ok(p),
    decreases v.len(),
{
    if v.len() > 0 {
        let less = v.drop_last();
        lemma_keep_holds(less, ok, p);
        let a = rows::keep(less, ok);
        let b = rows::keep(v, ok);
        if v.contains(p) {
            let i = choose|i: int| 0 <= i < v.len() && v[i] == p;
            if i < less.len() {
                assert(less[i] == p);
            }
            if ok(p) {
                if less.contains(p) {
                    let k = choose|k: int| 0 <= k < a.len() && a[k] == p;
                    assert(b[k] == p);
                } else {
                    assert(b.last() == p);
                }
            }
        }
        if b.contains(p) {
            let k = choose|k: int| 0 <= k < b.len() && b[k] == p;
            if k < a.len() {
                assert(a[k] == p);
                let i = choose|i: int| 0 <= i < less.len() && less[i] == p;
                assert(v[i] == p);
            } else {
                assert(v.last() == p);
                assert(v[v.len() - 1] == p);
            }
        }
    }
}

proof fn lemma_all_listed(v: Seq<ListingV>, p: Seq<char>)
    ensures
        discover::all_listed(v).contains(p) <==> formats::supported(p) && exists|i: int|
            0 <= i < v.len() && holds(#[trigger] v[i], p),
    decreases v.len(),
{
    if v.len() > 0 {
        let less = v.drop_last();
        let a = discover::all_listed(less);
        let b = discover::listed(v.last());
        lemma_all_listed(less, p);
        lemma_listed(v.last(), p);
        if (a + b).contains(p) {
            let k = choose|k: int| 0 <= k < (a + b).len() && (a + b)[k] == p;
            if k < a.len() {
                assert(a[k] == p);
                let i = choose|i: int| 0 <= i < less.len() && holds(#[trigger] less[i], p);
                assert(holds(v[i], p));
            } else {
                assert(b[k - a.len()] == p);
                assert(holds(v[v.len() - 1], p));
            }
        }
        if formats::supported(p) && exists|i: int| 0 <= i < v.len() && holds(#[trigger] v[i], p) {
            let i = choose|i: int| 0 <= i < v.len() && holds(#[trigger] v[i], p);
            if i < less.len() {
                assert(holds(less[i], p));
                let k = choose|k: int| 0 <= k < a.len() && a[k] == p;
                assert((a + b)[k] == p);
            } else {
                let k = choose|k: int| 0 <= k < b.len() && b[k] == p;
                assert((a + b)[a.len() + k] == p);
            }
        }
    }
}

/// Discovery finds every supported file at the source paths, or below them, and no other, each once
/// and in order.
pub proof fn discovery_finds_every_supported_file(v: Seq<ListingV>, p: Seq<char>)
    ensures
        order::sorted_set(discover::all_listed(v)).contains(p) <==> formats::supported(p)
            && exists|i: int| 0 <= i < v.len() && holds(#[trigger] v[i], p),
        order::rises(order::sorted_set(discover::all_listed(v))),
{
    lemma_all_listed(v, p);
    order::lemma_sorted_set(discover::all_listed(v));
}

/// A directory is told by the first of the markers that its path holds, and by none where it holds
/// none.
pub proof fn cloud_drives_are_told_by_the_first_marker(path: Seq<char>)
    ensures
        match discover::first_marker(path, 0) {
            Some(i) => 0 <= i < 8 && text::contains(path, discover::CLOUD_MARKERS@[i]@) && forall|
                j: int,
            |
                0 <= j < i ==> !text::contains(path, #[trigger] discover::CLOUD_MARKERS@[j]@),
            None => forall|j: int|
                0 <= j < 8 ==> !text::contains(path, #[trigger] discover::CLOUD_MARKERS@[j]@),
        },
{
    lemma_first_marker(path, 0);
}

proof fn lemma_first_marker(path: Seq<char>, from: int)
    requires
        0 <= from <= 8,
        forall|j: int|
            0 <= j < from ==> !text::contains(path, #[trigger] discover::CLOUD_MARKERS@[j]@),
    ensures
        match discover::first_marker(path, from) {
            Some(i) => 0 <= i < 8 && text::contains(path, discover::CLOUD_MARKERS@[i]@) && forall|
                j: int,
            |
                0 <= j < i ==> !text::contains(path, #[trigger] discover::CLOUD_MARKERS@[j]@),
            None => forall|j: int|
                0 <= j < 8 ==> !text::contains(path, #[trigger] discover::CLOUD_MARKERS@[j]@),
        },
    decreases 8 - from,
{
    if from < 8 && !text::contains(path, discover::CLOUD_MARKERS@[from]@) {
        lemma_first_marker(path, from + 1);
    }
}

/// The texts of an array's elements; elements of another kind have none.
pub open spec fn element_texts(nodes: Map<Seq<char>, JsonV>, at: Seq<char>) -> spec_fn(int) -> Seq<
    char,
> {
    |i: int|
        match json::node_at(nodes, at + "/"@ + text::decimal(i as nat)) {
            JsonV::Text(s) => s,
            _ => Seq::empty(),
        }
}

/// A cell's lines are read one right after the other, all of them.
pub proof fn every_line_of_a_cell_is_read(nodes: Map<Seq<char>, JsonV>, at: Seq<char>, n: nat)
    ensures
        shape::laid(n as int, element_texts(nodes, at), notebook::joined_lines(nodes, at, n)),
    decreases n,
{
    let part = element_texts(nodes, at);
    if n == 0 {
        shape::lemma_laid_none(part);
    } else {
        every_line_of_a_cell_is_read(nodes, at, (n - 1) as nat);
        let before = notebook::joined_lines(nodes, at, (n - 1) as nat);
        shape::lemma_laid_step(n - 1, part, part, before);
        assert(before + part(n - 1) =~= notebook::joined_lines(nodes, at, n));
    }
}

/// A cell as it stands in the text: Markdown as it is, code in a fence, and nothing of blank cells
/// or cells of another kind.
pub open spec fn cell_texts(cells: Seq<CellV>) -> spec_fn(int) -> Seq<char> {
    |i: int|
        if text::trim(cells[i].source).len() > 0 && cells[i].kind == Some("markdown"@) {
            cells[i].source + "\n"@
        } else if text::trim(cells[i].source).len() > 0 && cells[i].kind == Some("code"@) {
            "```\n"@ + cells[i].source + "\n```\n"@
        } else {
            Seq::empty()
        }
}

/// A notebook's cells are read one right after the other, all of them.
pub proof fn every_cell_is_read(cells: Seq<CellV>)
    ensures
        shape::laid(cells.len() as int, cell_texts(cells), notebook::cells_markdown(cells)),
    decreases cells.len(),
{
    if cells.len() == 0 {
        shape::lemma_laid_none(cell_texts(cells));
    } else {
        let less = cells.drop_last();
        every_cell_is_read(less);
        assert forall|i: int| 0 <= i < less.len() implies #[trigger] cell_texts(less)(i)
            == cell_texts(cells)(i) by {
            assert(less[i] == cells[i]);
        }
        shape::lemma_laid_step(
            less.len() as int,
            cell_texts(less),
            cell_texts(cells),
            notebook::cells_markdown(less),
        );
    }
}

/// A point of the table of contents names a document's chapter: it is of the two top levels, has a
/// label, and points into the document.
pub open spec fn points_to(p: TocV, href: Seq<char>) -> bool {
    p.depth <= 2 && text::trim(p.label).len() > 0 && p.href is Some && ebook::without_fragment(
        p.href->0,
    ) == ebook::without_fragment(href)
}

/// The chapter named for a document is the label of the first point that names one, if any does.
pub proof fn first_points_name_chapters(toc: Seq<TocV>, href: Seq<char>)
    ensures
        match ebook::chapter_of(toc, ebook::without_fragment(href)) {
            Some(c) => exists|i: int|
                0 <= i < toc.len() && points_to(#[trigger] toc[i], href) && c == text::trim(
                    toc[i].label,
                ) && forall|j: int| 0 <= j < i ==> !points_to(#[trigger] toc[j], href),
            None => forall|j: int| 0 <= j < toc.len() ==> !points_to(#[trigger] toc[j], href),
        },
{
    let f = ebook::without_fragment(href);
    let p = ebook::names(f);
    rows::lemma_first_where(toc, p);
    match rows::first_where(toc, p) {
        Some(i) => {
            assert(points_to(toc[i], href));
            assert forall|j: int| 0 <= j < i implies !points_to(#[trigger] toc[j], href) by {
                assert(!p(toc[j]));
            }
        },
        None => {
            assert forall|j: int| 0 <= j < toc.len() implies !points_to(#[trigger] toc[j], href) by {
                assert(!p(toc[j]));
            }
        },
    }
}

/// The table of contents names a chapter for an item of the spine.
pub open spec fn is_named(toc: Seq<TocV>, item: SpineV) -> bool {
    item.href is Some && ebook::chapter_of(toc, ebook::without_fragment(item.href->0)) is Some
}

/// The chapter in force is that of the last item that has one.
pub proof fn last_named_items_give_the_chapter(toc: Seq<TocV>, spine: Seq<SpineV>)
    ensures
        match ebook::chapter_after(toc, spine) {
            Some(c) => exists|i: int|
                0 <= i < spine.len() && is_named(toc, #[trigger] spine[i]) && Some(c)
                    == ebook::chapter_of(toc, ebook::without_fragment(spine[i].href->0)) && forall|
                    j: int,
                |
                    i < j < spine.len() ==> !is_named(toc, #[trigger] spine[j]),
            None => forall|j: int| 0 <= j < spine.len() ==> !is_named(toc, #[trigger] spine[j]),
        },
    decreases spine.len(),
{
    if spine.len() > 0 {
        let less = spine.drop_last();
        let n = less.len() as int;
        last_named_items_give_the_chapter(toc, less);
        if is_named(toc, spine[n]) {
            assert(spine[n] == spine.last());
        } else {
            match ebook::chapter_after(toc, less) {
                Some(c) => {
                    let i = choose|i: int|
                        0 <= i < less.len() && is_named(toc, #[trigger] less[i]) && Some(c)
                            == ebook::chapter_of(toc, ebook::without_fragment(less[i].href->0))
                            && forall|j: int|
                            i < j < less.len() ==> !is_named(toc, #[trigger] less[j]);
                    assert(spine[i] == less[i]);
                    assert forall|j: int| i < j < spine.len() implies !is_named(
                        toc,
                        #[trigger] spine[j],
                    ) by {
                        if j < n {
                            assert(less[j] == spine[j]);
                        }
                    }
                },
                None => {
                    assert forall|j: int| 0 <= j < spine.len() implies !is_named(
                        toc,
                        #[trigger] spine[j],
                    ) by {
                        if j < n {
                            assert(less[j] == spine[j]);
                        }
                    }
                },
            }
        }
    }
}

/// Items of a spine that have text.
pub open spec fn has_text(spine: Seq<SpineV>) -> spec_fn(int) -> bool {
    |i: int|
        spine[i].href is Some && spine[i].content is Some && text::trim(spine[i].content->0).len()
            > 0
}

/// The section of an item: its text under the chapter in force there.
pub open spec fn item_sections(toc: Seq<TocV>, spine: Seq<SpineV>) -> spec_fn(int) -> SectionV {
    |i: int|
        SectionV {
            heading: ebook::chapter_after(toc, spine.take(i + 1)),
            body: text::trim(spine[i].content->0),
        }
}

/// Every document of a book's spine that has text is a section, in the order of the spine.
pub proof fn every_document_is_a_section(toc: Seq<TocV>, spine: Seq<SpineV>)
    ensures
        shape::picks(
            spine.len() as int,
            has_text(spine),
            item_sections(toc, spine),
            ebook::spine_sections(toc, spine),
        ),
    decreases spine.len(),
{
    if spine.len() == 0 {
        shape::lemma_picks_none(has_text(spine), item_sections(toc, spine));
    } else {
        let less = spine.drop_last();
        let n = less.len() as int;
        every_document_is_a_section(toc, less);
        assert forall|i: int| 0 <= i < n implies (#[trigger] has_text(less)(i) <==> has_text(spine)(
            i,
        )) by {
            assert(less[i] == spine[i]);
        }
        assert forall|i: int| 0 <= i < n && #[trigger] has_text(less)(i) implies item_sections(
            toc,
            less,
        )(i) == item_sections(toc, spine)(i) by {
            assert(less[i] == spine[i]);
            assert(less.take(i + 1) =~= spine.take(i + 1));
        }
        assert(spine.take(n + 1) =~= spine);
        shape::lemma_picks_step(
            n,
            has_text(less),
            item_sections(toc, less),
            has_text(spine),
            item_sections(toc, spine),
            ebook::spine_sections(toc, less),
        );
    }
}

} // verus!
