//! What the catalog says of the passages in the store.
use vstd::prelude::*;
use crate::catalog;
use crate::catalog::{BookEntryV, ChapterV, TitleV};
use crate::rows;
use crate::shape;
use crate::store;
use crate::store::RowV;
use crate::text;
use vstd::seq_lib::*;

verus! {

/// Every title that a passage has is counted, in the order of their first passages.
pub proof fn every_title_is_counted(v: Seq<Option<Seq<char>>>)
    ensures
        shape::picks(
            v.len() as int,
            shape::fresh(|i: int| v[i]),
            |i: int| v[i]->0,
            catalog::title_counts(v).map_values(|t: TitleV| t.title),
        ),
        forall|k: int|
            0 <= k < catalog::title_counts(v).len() ==> (#[trigger] catalog::title_counts(v)[k]).chunks
                == v.to_multiset().count(Some(catalog::title_counts(v)[k].title)),
    decreases v.len(),
{
    broadcast use group_to_multiset_ensures;

    let key = |i: int| v[i];
    let value = |i: int| v[i]->0;
    let name = |t: TitleV| t.title;
    if v.len() == 0 {
        assert(catalog::title_counts(v).map_values(name) =~= Seq::empty());
        shape::lemma_picks_none(shape::fresh(key), value);
    } else {
        let less = v.drop_last();
        let n = less.len() as int;
        every_title_is_counted(less);
        let key0 = |i: int| less[i];
        let value0 = |i: int| less[i]->0;
        let a = catalog::title_counts(less);
        let b = catalog::title_counts(v);
        let out = a.map_values(name);
        let next = b.map_values(name);
        assert(v =~= less.push(v.last()));
        assert forall|i: int| 0 <= i < n implies #[trigger] key0(i) == key(i) by {
            assert(less[i] == v[i]);
        }
        assert forall|i: int| 0 <= i < n && (#[trigger] key0(i)) is Some implies value0(i) == value(
            i,
        ) by {
            assert(less[i] == v[i]);
        }
        let at = choose|at: Seq<int>| #[trigger]
            shape::picked_at(n, shape::fresh(key0), value0, out, at);
        match v.last() {
            None => {
                assert(next =~= out);
            },
            Some(t) => {
                rows::lemma_first_where(a, catalog::titled(t));
                match rows::first_where(a, catalog::titled(t)) {
                    Some(i) => {
                        assert(next =~= out);
                        assert(out[i] == t);
                        assert forall|k: int| 0 <= k < b.len() implies (#[trigger] b[k]).chunks
                            == v.to_multiset().count(Some(b[k].title)) by {
                            if k != i {
                                assert(b[k] == a[k]);
                                assert(out[k] == a[k].title);
                                if a[k].title == t {
                                    lemma_picked_once(n, key0, value0, out, at, i, k);
                                }
                            }
                        }
                    },
                    None => {
                        assert(next =~= out.push(t));
                        assert forall|k: int| 0 <= k < out.len() implies #[trigger] out[k] != t by {
                            assert(!catalog::titled(t)(a[k]));
                        }
                        assert(less.to_multiset().count(Some(t)) == 0) by {
                            if less.contains(Some(t)) {
                                let i = choose|i: int| 0 <= i < less.len() && less[i] == Some(t);
                                assert(key0(i) is Some);
                                let k = shape::lemma_fresh_holds(n, key0, value0, out, at, i);
                                assert(out[k] == t);
                            }
                        }
                        assert forall|k: int| 0 <= k < b.len() implies (#[trigger] b[k]).chunks
                            == v.to_multiset().count(Some(b[k].title)) by {
                            if k < a.len() {
                                assert(b[k] == a[k]);
                                assert(out[k] == a[k].title);
                            }
                        }
                    },
                }
            },
        }
        let same = |x: Seq<char>| x;
        assert(forall|k: int| 0 <= k < out.len() ==> same(#[trigger] out[k]) == out[k]);
        shape::lemma_fresh_step(n, key0, value0, key, value, same, out, next);
    }
}

/// Of picked first places no two have the same key.
proof fn lemma_picked_once(
    n: int,
    key: spec_fn(int) -> Option<Seq<char>>,
    value: spec_fn(int) -> Seq<char>,
    out: Seq<Seq<char>>,
    at: Seq<int>,
    i: int,
    k: int,
)
    requires
        shape::picked_at(n, shape::fresh(key), value, out, at),
        forall|j: int|
            0 <= j < n && (#[trigger] key(j)) is Some ==> Some(value(j)) == key(j),
        0 <= i < out.len(),
        0 <= k < out.len(),
        out[i] == out[k],
    ensures
        i == k,
{
    assert(shape::fresh(key)(at[i]) && shape::fresh(key)(at[k]));
    assert(out[i] == value(at[i]) && out[k] == value(at[k]));
    assert(key(at[i]) == key(at[k]));
    if i < k {
        assert(at[i] < at[k]);
    } else if k < i {
        assert(at[k] < at[i]);
    }
}

/// A row's book as its first passage tells it, without a count.
pub open spec fn told_book(v: Seq<RowV>) -> spec_fn(int) -> BookEntryV {
    |i: int|
        BookEntryV {
            book_id: v[i].book_id,
            title: v[i].title,
            author: v[i].author,
            source_path: v[i].source_path,
            format: v[i].format,
            chunks: 0,
        }
}

/// Books without their counts.
pub open spec fn uncounted(b: Seq<BookEntryV>) -> Seq<BookEntryV> {
    b.map_values(|x: BookEntryV| BookEntryV { chunks: 0, ..x })
}

/// Every book with a passage is in the catalog, as its first passage tells it, in the order of first
/// passages, with as many passages as it has.
pub proof fn every_book_is_in_the_catalog(v: Seq<RowV>)
    ensures
        shape::picks(
            v.len() as int,
            shape::fresh(|i: int| Some(v[i].book_id)),
            told_book(v),
            uncounted(catalog::books_of(v)),
        ),
        forall|k: int|
            0 <= k < catalog::books_of(v).len() ==> (#[trigger] catalog::books_of(v)[k]).chunks
                == v.map_values(|r: RowV| r.book_id).to_multiset().count(
                catalog::books_of(v)[k].book_id,
            ),
    decreases v.len(),
{
    broadcast use group_to_multiset_ensures;

    let key = |i: int| Some(v[i].book_id);
    let id_of = |r: RowV| r.book_id;
    if v.len() == 0 {
        assert(uncounted(catalog::books_of(v)) =~= Seq::empty());
        shape::lemma_picks_none(shape::fresh(key), told_book(v));
    } else {
        let less = v.drop_last();
        let n = less.len() as int;
        every_book_is_in_the_catalog(less);
        let key0 = |i: int| Some(less[i].book_id);
        let a = catalog::books_of(less);
        let b = catalog::books_of(v);
        let out = uncounted(a);
        let next = uncounted(b);
        let r = v.last();
        let id = r.book_id;
        assert(v.map_values(id_of) =~= less.map_values(id_of).push(id));
        assert forall|i: int| 0 <= i < n implies #[trigger] key0(i) == key(i) by {
            assert(less[i] == v[i]);
        }
        assert forall|i: int| 0 <= i < n && (#[trigger] key0(i)) is Some implies told_book(less)(i)
            == told_book(v)(i) by {
            assert(less[i] == v[i]);
        }
        let at = choose|at: Seq<int>| #[trigger]
            shape::picked_at(n, shape::fresh(key0), told_book(less), out, at);
        rows::lemma_first_where(a, catalog::is_book(id));
        crate::catalog::catalog_counts_every_passage(less);
        match rows::first_where(a, catalog::is_book(id)) {
            Some(i) => {
                assert(next =~= out);
                assert(out[i].book_id == id);
                assert forall|k: int| 0 <= k < b.len() implies (#[trigger] b[k]).chunks
                    == v.map_values(id_of).to_multiset().count(b[k].book_id) by {
                    assert(b[k].book_id == a[k].book_id);
                    if k != i {
                        assert(b[k] == a[k]);
                        assert(a[i].book_id == id);
                        if k < i {
                            assert(a[k].book_id != a[i].book_id);
                        } else {
                            assert(a[i].book_id != a[k].book_id);
                        }
                    }
                }
            },
            None => {
                assert(next =~= out.push(told_book(v)(n)));
                assert forall|k: int| 0 <= k < out.len() implies (#[trigger] out[k]).book_id
                    != id by {
                    assert(!catalog::is_book(id)(a[k]));
                }
                let ids = less.map_values(id_of);
                assert(ids.to_multiset().count(id) == 0) by {
                    if ids.contains(id) {
                        let i = choose|i: int| 0 <= i < ids.len() && ids[i] == id;
                        assert(key0(i) == Some(id));
                        let k = shape::lemma_fresh_holds(n, key0, told_book(less), out, at, i);
                        assert(out[k].book_id == id);
                    }
                }
                assert forall|k: int| 0 <= k < b.len() implies (#[trigger] b[k]).chunks
                    == v.map_values(id_of).to_multiset().count(b[k].book_id) by {
                    if k < a.len() {
                        assert(b[k] == a[k]);
                        assert(out[k].book_id == a[k].book_id);
                    }
                }
            },
        }
        let key_of = |x: BookEntryV| x.book_id;
        assert(forall|k: int| 0 <= k < out.len() ==> key_of(#[trigger] out[k]) == out[k].book_id);
        shape::lemma_fresh_step(n, key0, told_book(less), key, told_book(v), key_of, out, next);
    }
}

/// The title and chapter of a row, where it has a chapter.
pub open spec fn chapter_key(v: Seq<RowV>) -> spec_fn(int) -> Option<(Seq<char>, Seq<char>)> {
    |i: int|
        if text::trim(v[i].chapter).len() > 0 {
            Some((v[i].title, text::trim(v[i].chapter)))
        } else {
            None
        }
}

/// A row's chapter, without a page.
pub open spec fn told_chapter(v: Seq<RowV>) -> spec_fn(int) -> ChapterV {
    |i: int|
        ChapterV {
            chapter: text::trim(v[i].chapter),
            title: v[i].title,
            page: None,
            source_path: v[i].source_path,
        }
}

/// Chapters without their pages.
pub open spec fn unpaged(c: Seq<ChapterV>) -> Seq<ChapterV> {
    c.map_values(|x: ChapterV| ChapterV { page: None, ..x })
}

/// Every chapter of every title is in the catalog, once, in the order of first passages.
pub proof fn every_chapter_is_in_the_catalog(v: Seq<RowV>)
    ensures
        shape::picks(
            v.len() as int,
            shape::fresh(chapter_key(v)),
            told_chapter(v),
            unpaged(catalog::chapters_of(v)),
        ),
    decreases v.len(),
{
    if v.len() == 0 {
        assert(unpaged(catalog::chapters_of(v)) =~= Seq::empty());
        shape::lemma_picks_none(shape::fresh(chapter_key(v)), told_chapter(v));
    } else {
        let less = v.drop_last();
        let n = less.len() as int;
        every_chapter_is_in_the_catalog(less);
        let a = catalog::chapters_of(less);
        let b = catalog::chapters_of(v);
        let out = unpaged(a);
        let next = unpaged(b);
        let r = v.last();
        let ch = text::trim(r.chapter);
        assert forall|i: int| 0 <= i < n implies #[trigger] chapter_key(less)(i) == chapter_key(v)(
            i,
        ) by {
            assert(less[i] == v[i]);
        }
        assert forall|i: int| 0 <= i < n && (#[trigger] chapter_key(less)(i)) is Some implies
            told_chapter(less)(i) == told_chapter(v)(i) by {
            assert(less[i] == v[i]);
        }
        if ch.len() > 0 {
            rows::lemma_first_where(a, catalog::is_chapter(r.title, ch));
            match rows::first_where(a, catalog::is_chapter(r.title, ch)) {
                Some(i) => {
                    assert(next =~= out);
                    assert(out[i].title == r.title && out[i].chapter == ch);
                },
                None => {
                    assert(next =~= out.push(told_chapter(v)(n)));
                    assert forall|k: int| 0 <= k < out.len() implies !((#[trigger] out[k]).title
                        == r.title && out[k].chapter == ch) by {
                        assert(!catalog::is_chapter(r.title, ch)(a[k]));
                    }
                },
            }
        } else {
            assert(next =~= out);
        }
        let key_of = |x: ChapterV| (x.title, x.chapter);
        assert(forall|k: int|
            0 <= k < out.len() ==> key_of(#[trigger] out[k]) == (out[k].title, out[k].chapter));
        shape::lemma_fresh_step(
            n,
            chapter_key(less),
            told_chapter(less),
            chapter_key(v),
            told_chapter(v),
            key_of,
            out,
            next,
        );
    }
}

/// A row is of a chapter that the catalog has.
pub open spec fn in_chapter(r: RowV, c: ChapterV) -> bool {
    c.chapter.len() > 0 && r.title == c.title && text::trim(r.chapter) == c.chapter
}

/// The page of a chapter is one of its own, and none of its rows has an earlier one. A chapter
/// without a page is one whose first row has none.
pub proof fn chapters_begin_on_their_first_page(v: Seq<RowV>, k: int)
    requires
        0 <= k < catalog::chapters_of(v).len(),
    ensures
        ({
            let c = catalog::chapters_of(v)[k];
            match c.page {
                Some(p) => {
                    &&& exists|i: int|
                        0 <= i < v.len() && in_chapter(#[trigger] v[i], c) && v[i].page >= 0
                            && v[i].page as u32 == p
                    &&& forall|i: int|
                        0 <= i < v.len() && in_chapter(#[trigger] v[i], c) && v[i].page >= 0
                            ==> v[i].page as u32 >= p
                },
                None => exists|i: int|
                    0 <= i < v.len() && in_chapter(#[trigger] v[i], c) && v[i].page < 0
                        && forall|j: int| 0 <= j < i ==> !in_chapter(#[trigger] v[j], c),
            }
        }),
    decreases v.len(),
{
    let less = v.drop_last();
    let n = less.len() as int;
    let a = catalog::chapters_of(less);
    let b = catalog::chapters_of(v);
    let c = b[k];
    let r = v.last();
    let ch = text::trim(r.chapter);
    assert(v[n] == r);
    rows::lemma_first_where(a, catalog::is_chapter(r.title, ch));
    every_chapter_is_in_the_catalog(less);
    let at = choose|at: Seq<int>| #[trigger]
        shape::picked_at(n, shape::fresh(chapter_key(less)), told_chapter(less), unpaged(a), at);
    if k < a.len() {
        let d = a[k];
        chapters_begin_on_their_first_page(less, k);
        assert(c.title == d.title && c.chapter == d.chapter);
        assert forall|i: int| 0 <= i < n implies (in_chapter(#[trigger] v[i], c) <==> in_chapter(
            less[i],
            d,
        )) by {
            assert(less[i] == v[i]);
        }
        assert(unpaged(a)[k] == told_chapter(less)(at[k]));
        assert(d.chapter.len() > 0) by {
            assert(shape::fresh(chapter_key(less))(at[k]));
        }
        if in_chapter(r, c) {
            assert(catalog::is_chapter(r.title, ch)(a[k]));
            let i = rows::first_where(a, catalog::is_chapter(r.title, ch))->0;
            lemma_chapters_once(less, at, i, k);
            assert(i == k);
        }
        match d.page {
            Some(p) => {
                let i = choose|i: int|
                    0 <= i < less.len() && in_chapter(#[trigger] less[i], d) && less[i].page >= 0
                        && less[i].page as u32 == p;
                assert(in_chapter(v[i], c));
                assert(in_chapter(v[n], c) || c.page == d.page);
                assert forall|j: int| 0 <= j < v.len() && in_chapter(#[trigger] v[j], c)
                    && v[j].page >= 0 implies v[j].page as u32 >= c.page->0 by {
                    if j < n {
                        assert(in_chapter(less[j], d));
                    }
                }
            },
            None => {
                let i = choose|i: int|
                    0 <= i < less.len() && in_chapter(#[trigger] less[i], d) && less[i].page < 0
                        && forall|j: int| 0 <= j < i ==> !in_chapter(#[trigger] less[j], d);
                assert(in_chapter(v[i], c));
                assert forall|j: int| 0 <= j < i implies !in_chapter(#[trigger] v[j], c) by {
                    assert(!in_chapter(less[j], d));
                }
            },
        }
    } else {
        assert(in_chapter(v[n], c));
        assert forall|j: int| 0 <= j < n implies !in_chapter(#[trigger] v[j], c) by {
            assert(less[j] == v[j]);
            if in_chapter(v[j], c) {
                assert(chapter_key(less)(j) is Some);
                let m = shape::lemma_fresh_holds(
                    n,
                    chapter_key(less),
                    told_chapter(less),
                    unpaged(a),
                    at,
                    j,
                );
                rows::lemma_first_where(a, catalog::is_chapter(r.title, ch));
                assert(unpaged(a)[m].chapter == a[m].chapter);
                assert(!catalog::is_chapter(r.title, ch)(a[m]));
            }
        }
    }
}

proof fn lemma_chapters_once(v: Seq<RowV>, at: Seq<int>, i: int, k: int)
    requires
        shape::picked_at(
            v.len() as int,
            shape::fresh(chapter_key(v)),
            told_chapter(v),
            unpaged(catalog::chapters_of(v)),
            at,
        ),
        0 <= i < catalog::chapters_of(v).len(),
        0 <= k < catalog::chapters_of(v).len(),
        catalog::chapters_of(v)[i].title == catalog::chapters_of(v)[k].title,
        catalog::chapters_of(v)[i].chapter == catalog::chapters_of(v)[k].chapter,
    ensures
        i == k,
{
    let out = unpaged(catalog::chapters_of(v));
    assert(out[i] == told_chapter(v)(at[i]));
    assert(out[k] == told_chapter(v)(at[k]));
    assert(shape::fresh(chapter_key(v))(at[i]));
    assert(shape::fresh(chapter_key(v))(at[k]));
    assert(chapter_key(v)(at[i]) == chapter_key(v)(at[k]));
    if i < k {
        assert(at[i] < at[k]);
    } else if k < i {
        assert(at[k] < at[i]);
    }
}

/// The book of a scanned pair, where book and path are there.
pub open spec fn book_key(v: Seq<(Option<Seq<char>>, Option<Seq<char>>)>) -> spec_fn(
    int,
) -> Option<Seq<char>> {
    |i: int|
        if v[i].1 is Some {
            v[i].0
        } else {
            None
        }
}

/// A scanned pair, where book and path are there.
pub open spec fn pair_key(v: Seq<(Option<Seq<char>>, Option<Seq<char>>)>) -> spec_fn(
    int,
) -> Option<(Seq<char>, Seq<char>)> {
    |i: int|
        if v[i].0 is Some && v[i].1 is Some {
            Some((v[i].0->0, v[i].1->0))
        } else {
            None
        }
}

/// A scanned pair of a book and a path that are there.
pub open spec fn told_pair(v: Seq<(Option<Seq<char>>, Option<Seq<char>>)>) -> spec_fn(int) -> (
    Seq<char>,
    Seq<char>,
) {
    |i: int| (v[i].0->0, v[i].1->0)
}

/// Every scanned book has a path, its first.
pub proof fn every_scanned_book_has_its_first_path(
    v: Seq<(Option<Seq<char>>, Option<Seq<char>>)>,
)
    ensures
        shape::picks(
            v.len() as int,
            shape::fresh(book_key(v)),
            told_pair(v),
            catalog::first_paths(v),
        ),
    decreases v.len(),
{
    if v.len() == 0 {
        shape::lemma_picks_none(shape::fresh(book_key(v)), told_pair(v));
    } else {
        let less = v.drop_last();
        let n = less.len() as int;
        every_scanned_book_has_its_first_path(less);
        let out = catalog::first_paths(less);
        assert forall|i: int| 0 <= i < n implies #[trigger] book_key(less)(i) == book_key(v)(i) by {
            assert(less[i] == v[i]);
        }
        assert forall|i: int| 0 <= i < n && (#[trigger] book_key(less)(i)) is Some implies told_pair(
            less,
        )(i) == told_pair(v)(i) by {
            assert(less[i] == v[i]);
        }
        let key_of = |x: (Seq<char>, Seq<char>)| x.0;
        assert(forall|k: int| 0 <= k < out.len() ==> key_of(#[trigger] out[k]) == out[k].0);
        if let (Some(id), Some(_)) = v.last() {
            rows::lemma_first_where(out, catalog::pair_of(id));
            if exists|k: int| 0 <= k < out.len() && key_of(#[trigger] out[k]) == id {
                let k = choose|k: int| 0 <= k < out.len() && key_of(#[trigger] out[k]) == id;
                assert(catalog::pair_of(id)(out[k]));
            }
        }
        shape::lemma_fresh_step(
            n,
            book_key(less),
            told_pair(less),
            book_key(v),
            told_pair(v),
            key_of,
            out,
            catalog::first_paths(v),
        );
    }
}

/// Every scanned pair of a book and a path is there, once.
pub proof fn every_scanned_pair_is_there_once(v: Seq<(Option<Seq<char>>, Option<Seq<char>>)>)
    ensures
        shape::picks(
            v.len() as int,
            shape::fresh(pair_key(v)),
            told_pair(v),
            catalog::distinct_pairs(v),
        ),
    decreases v.len(),
{
    if v.len() == 0 {
        shape::lemma_picks_none(shape::fresh(pair_key(v)), told_pair(v));
    } else {
        let less = v.drop_last();
        let n = less.len() as int;
        every_scanned_pair_is_there_once(less);
        let out = catalog::distinct_pairs(less);
        assert forall|i: int| 0 <= i < n implies #[trigger] pair_key(less)(i) == pair_key(v)(i) by {
            assert(less[i] == v[i]);
        }
        assert forall|i: int| 0 <= i < n && (#[trigger] pair_key(less)(i)) is Some implies told_pair(
            less,
        )(i) == told_pair(v)(i) by {
            assert(less[i] == v[i]);
        }
        let key_of = |x: (Seq<char>, Seq<char>)| x;
        assert(forall|k: int| 0 <= k < out.len() ==> key_of(#[trigger] out[k]) == out[k]);
        if let (Some(id), Some(path)) = v.last() {
            rows::lemma_first_where(out, catalog::same_pair(id, path));
            if exists|k: int| 0 <= k < out.len() && key_of(#[trigger] out[k]) == (id, path) {
                let k = choose|k: int|
                    0 <= k < out.len() && key_of(#[trigger] out[k]) == (id, path);
                assert(catalog::same_pair(id, path)(out[k]));
            }
        }
        shape::lemma_fresh_step(
            n,
            pair_key(less),
            told_pair(less),
            pair_key(v),
            told_pair(v),
            key_of,
            out,
            catalog::distinct_pairs(v),
        );
    }
}

/// Of texts that may be missing, all that are there are taken, in order.
pub proof fn every_present_text_is_taken(v: Seq<Option<Seq<char>>>)
    ensures
        shape::picks(
            v.len() as int,
            |i: int| v[i] is Some,
            |i: int| v[i]->0,
            catalog::present(v),
        ),
    decreases v.len(),
{
    let keep = |i: int| v[i] is Some;
    let value = |i: int| v[i]->0;
    if v.len() == 0 {
        shape::lemma_picks_none(keep, value);
    } else {
        let less = v.drop_last();
        every_present_text_is_taken(less);
        let keep0 = |i: int| less[i] is Some;
        let value0 = |i: int| less[i]->0;
        assert forall|i: int| 0 <= i < less.len() implies (#[trigger] keep0(i) <==> keep(i)) by {
            assert(less[i] == v[i]);
        }
        assert forall|i: int| 0 <= i < less.len() && #[trigger] keep0(i) implies value0(i) == value(
            i,
        ) by {
            assert(less[i] == v[i]);
        }
        shape::lemma_picks_step(
            less.len() as int,
            keep0,
            value0,
            keep,
            value,
            catalog::present(less),
        );
    }
}

/// Every row that is asked for gives its identity and text, in order, and no other does.
pub proof fn every_asked_text_is_given(v: Seq<RowV>, ids: Seq<Seq<char>>)
    ensures
        shape::picks(
            v.len() as int,
            |i: int| ids.contains(v[i].id),
            |i: int| (v[i].id, v[i].text),
            catalog::texts_for(v, ids),
        ),
    decreases v.len(),
{
    let keep = |i: int| ids.contains(v[i].id);
    let value = |i: int| (v[i].id, v[i].text);
    if v.len() == 0 {
        shape::lemma_picks_none(keep, value);
    } else {
        let less = v.drop_last();
        every_asked_text_is_given(less, ids);
        let keep0 = |i: int| ids.contains(less[i].id);
        let value0 = |i: int| (less[i].id, less[i].text);
        assert forall|i: int| 0 <= i < less.len() implies (#[trigger] keep0(i) <==> keep(i)) by {
            assert(less[i] == v[i]);
        }
        assert forall|i: int| 0 <= i < less.len() && #[trigger] keep0(i) implies value0(i) == value(
            i,
        ) by {
            assert(less[i] == v[i]);
        }
        shape::lemma_picks_step(
            less.len() as int,
            keep0,
            value0,
            keep,
            value,
            catalog::texts_for(less, ids),
        );
    }
}

/// Every word of plain ASCII is looked for, in order, and no other.
pub proof fn every_ascii_word_is_looked_for(p: Seq<Seq<char>>)
    ensures
        shape::picks(
            p.len() as int,
            |i: int| p[i].len() > 0 && store::all_ascii(p[i]),
            |i: int| p[i],
            store::ascii_words(p),
        ),
    decreases p.len(),
{
    let keep = |i: int| p[i].len() > 0 && store::all_ascii(p[i]);
    let value = |i: int| p[i];
    if p.len() == 0 {
        shape::lemma_picks_none(keep, value);
    } else {
        let less = p.drop_last();
        every_ascii_word_is_looked_for(less);
        let keep0 = |i: int| less[i].len() > 0 && store::all_ascii(less[i]);
        let value0 = |i: int| less[i];
        assert forall|i: int| 0 <= i < less.len() implies (#[trigger] keep0(i) <==> keep(i)) by {
            assert(less[i] == p[i]);
        }
        assert forall|i: int| 0 <= i < less.len() && #[trigger] keep0(i) implies value0(i) == value(
            i,
        ) by {
            assert(less[i] == p[i]);
        }
        shape::lemma_picks_step(
            less.len() as int,
            keep0,
            value0,
            keep,
            value,
            store::ascii_words(less),
        );
    }
}

/// Passages are refused exactly where one of them has no vector or one of another size than 1024, and
/// the first such one is named.
pub proof fn vectors_must_all_fit(chunks: Seq<(Seq<char>, Option<usize>)>)
    ensures
        match store::vector_fault_in(chunks) {
            None => forall|i: int|
                0 <= i < chunks.len() ==> (#[trigger] chunks[i]).1 == Some(
                    1024usize,
                ),
            Some(e) => exists|i: int|
                {
                    &&& 0 <= i < chunks.len()
                    &&& (#[trigger] chunks[i]).1 != Some(1024usize)
                    &&& forall|j: int|
                        0 <= j < i ==> (#[trigger] chunks[j]).1 == Some(1024usize)
                    &&& e == "chunk "@ + chunks[i].0 + (match chunks[i].1 {
                        None => " has no vector"@,
                        Some(n) => " vector dim "@ + text::decimal(n as nat),
                    })
                },
        },
    decreases chunks.len(),
{
    if chunks.len() > 0 {
        let less = chunks.drop_last();
        let n = less.len() as int;
        vectors_must_all_fit(less);
        assert(chunks[n] == chunks.last());
        assert forall|i: int| 0 <= i < n implies #[trigger] chunks[i] == less[i] by {}
        match store::vector_fault_in(less) {
            Some(e) => {
                let i = choose|i: int|
                    {
                        &&& 0 <= i < less.len()
                        &&& (#[trigger] less[i]).1 != Some(1024usize)
                        &&& forall|j: int|
                            0 <= j < i ==> (#[trigger] less[j]).1 == Some(
                                1024usize,
                            )
                        &&& e == "chunk "@ + less[i].0 + (match less[i].1 {
                            None => " has no vector"@,
                            Some(n) => " vector dim "@ + text::decimal(n as nat),
                        })
                    };
                assert(chunks[i] == less[i]);
            },
            None => {
                let c = chunks[n];
                if c.1 != Some(1024usize) {
                    let e = store::vector_fault_in(chunks)->0;
                    assert(e =~= "chunk "@ + c.0 + (match c.1 {
                        None => " has no vector"@,
                        Some(n) => " vector dim "@ + text::decimal(n as nat),
                    }));
                }
            },
        }
    }
}

/// What is told of a stored passage is what was stored of it; what was missing is missing.
pub proof fn stored_passages_tell_their_place(c: crate::chunk::ChunkV)
    requires
        store::storable(c),
    ensures
        ({
            let m = catalog::meta_of(store::stored(c));
            &&& m.id == c.id
            &&& m.book_id == c.book_id
            &&& m.title == c.title
            &&& m.source_path == c.source_path
            &&& m.format == c.format.name()
            &&& m.chapter == c.chapter
            &&& m.page == c.page
        }),
{
    if let Some(a) = c.chapter {
        if a.len() == 0 {
            assert(a =~= Seq::<char>::empty());
        }
    }
}

} // verus!
