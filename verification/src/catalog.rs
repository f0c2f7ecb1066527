//! What scans of the store are summed up to: the titles, the books and chapters of the library, and
//! where its books lie.
use vstd::prelude::*;
use crate::order;
use crate::rank;
use crate::rows;
use crate::store;
use crate::store::{RowV, StoreRow};
use crate::text;

verus! {

// ---- titles ----------------------------------------------------------------------------------

/// A title and how many passages it has.
#[derive(Debug, PartialEq, Eq)]
pub struct TitleCount {
    pub title: String,
    pub chunks: usize,
}

/// What a [`TitleCount`] holds.
#[verifier::ext_equal]
pub struct TitleV {
    pub title: Seq<char>,
    pub chunks: nat,
}

impl View for TitleCount {
    type V = TitleV;

    open spec fn view(&self) -> TitleV {
        TitleV { title: self.title@, chunks: self.chunks as nat }
    }
}

/// The entry is that of a title.
pub open spec fn titled(t: Seq<char>) -> spec_fn(TitleV) -> bool {
    |x: TitleV| x.title == t
}

/// The counts with one more passage of a title.
pub open spec fn with_title(v: Seq<TitleV>, t: Seq<char>) -> Seq<TitleV> {
    match rows::first_where(v, titled(t)) {
        Some(i) => v.update(i, TitleV { title: t, chunks: v[i].chunks + 1 }),
        None => v.push(TitleV { title: t, chunks: 1 }),
    }
}

/// The titles of some passages with their counts, in the order of their first passages. A passage
/// may have no title.
pub open spec fn title_counts(v: Seq<Option<Seq<char>>>) -> Seq<TitleV>
    decreases v.len(),
{
    if v.len() == 0 {
        Seq::empty()
    } else {
        let before = title_counts(v.drop_last());
        match v.last() {
            Some(t) => with_title(before, t),
            None => before,
        }
    }
}

/// The better covered title comes first; of equally covered ones, the first by name.
pub open spec fn better_covered() -> spec_fn(TitleV, TitleV) -> bool {
    |a: TitleV, b: TitleV|
        a.chunks > b.chunks || (a.chunks == b.chunks && order::before(a.title, b.title))
}

/// Optional texts, by their values.
pub open spec fn opt_texts(v: Seq<Option<String>>) -> Seq<Option<Seq<char>>> {
    Seq::new(v.len(), |i: int| text::opt_text(v[i]))
}

fn find_title(v: &Vec<TitleCount>, t: &str) -> (r: Option<usize>)
    ensures
        match r {
            Some(i) => i < v@.len() && rows::first_where(rows::vals(v@), titled(t@)) == Some(
                i as int,
            ),
            None => rows::first_where(rows::vals(v@), titled(t@)) is None,
        },
{
    rows::find_where(
        v,
        |x: &TitleCount| -> (b: bool)
            ensures
                b == titled(t@)(x@)
            { text::same_text(x.title.as_str(), t) },
        Ghost(titled(t@)),
    )
}

proof fn lemma_counts_within(v: Seq<Option<Seq<char>>>, i: int)
    requires
        0 <= i < title_counts(v).len(),
    ensures
        title_counts(v)[i].chunks <= v.len(),
    decreases v.len(),
{
    if v.len() > 0 {
        let before = title_counts(v.drop_last());
        if let Some(t) = v.last() {
            rows::lemma_first_where(before, titled(t));
        }
        if i < before.len() {
            lemma_counts_within(v.drop_last(), i);
        }
    }
}

/// The distinct titles of the library with how many passages each has, the best covered first.
pub fn book_titles(titles: &Vec<Option<String>>) -> (r: Vec<TitleCount>)
    ensures
        rows::vals(r@) == rank::sorted(title_counts(opt_texts(titles@)), better_covered()),
{
    let ghost all = opt_texts(titles@);
    let mut counts: Vec<TitleCount> = Vec::new();
    assert(rows::vals(counts@) =~= title_counts(all.take(0)));
    for i in 0..titles.len()
        invariant
            all == opt_texts(titles@),
            rows::vals(counts@) == title_counts(all.take(i as int)),
    {
        proof {
            assert(all.take(i + 1).drop_last() =~= all.take(i as int));
            assert(all.take(i + 1).last() == text::opt_text(titles@[i as int]));
        }
        let ghost before = rows::vals(counts@);
        if let Some(t) = &titles[i] {
            match find_title(&counts, t.as_str()) {
                Some(k) => {
                    proof {
                        assert(before[k as int] == counts@[k as int]@);
                        lemma_counts_within(all.take(i as int), k as int);
                    }
                    let n: usize = counts[k].chunks + 1;
                    counts.set(k, TitleCount { title: t.clone(), chunks: n });
                    assert(rows::vals(counts@) =~= with_title(before, t@));
                },
                None => {
                    counts.push(TitleCount { title: t.clone(), chunks: 1 });
                    assert(rows::vals(counts@) =~= with_title(before, t@));
                },
            }
        }
    }
    assert(all.take(all.len() as int) =~= all);
    let ghost found = rows::vals(counts@);
    let mut out: Vec<TitleCount> = Vec::new();
    assert(rows::vals(out@) =~= rank::sorted(found.take(0), better_covered()));
    for i in 0..counts.len()
        invariant
            found == rows::vals(counts@),
            rows::vals(out@) == rank::sorted(found.take(i as int), better_covered()),
    {
        let c = &counts[i];
        proof {
            assert(found.take(i + 1).drop_last() =~= found.take(i as int));
            assert(found.take(i + 1).last() == c@);
        }
        let f = |a: &TitleCount, b: &TitleCount| -> (r: bool)
            ensures
                r == better_covered()(a@, b@)
            {
                a.chunks > b.chunks || (a.chunks == b.chunks && order::comes_before(
                    a.title.as_str(),
                    b.title.as_str(),
                ))
            };
        rank::insert_by(
            &mut out,
            TitleCount { title: c.title.clone(), chunks: c.chunks },
            &f,
            Ghost(better_covered()),
        );
    }
    assert(found.take(found.len() as int) =~= found);
    out
}

proof fn lemma_better_covered_orders()
    ensures
        rank::orders(better_covered()),
{
    let p = better_covered();
    assert forall|a: TitleV, b: TitleV| #[trigger] p(a, b) implies !p(b, a) by {
        order::lemma_before_total(a.title, b.title);
    }
    assert forall|a: TitleV, b: TitleV, c: TitleV| #[trigger]
        p(a, b) && #[trigger] p(b, c) implies p(a, c) by {
        if a.chunks == b.chunks && b.chunks == c.chunks {
            order::lemma_before_transitive(a.title, b.title, c.title);
        }
    }
    assert forall|a: TitleV, b: TitleV, c: TitleV|
        !(#[trigger] p(a, b)) && !(#[trigger] p(b, c)) implies !p(a, c) by {
        if a.chunks == b.chunks && b.chunks == c.chunks {
            order::lemma_before_total(a.title, b.title);
            order::lemma_before_total(b.title, c.title);
            order::lemma_before_total(a.title, c.title);
            if order::before(b.title, a.title) && order::before(c.title, b.title) {
                order::lemma_before_transitive(c.title, b.title, a.title);
            }
        }
    }
}

/// Titles come best covered first, and equally covered ones by name.
pub proof fn titles_come_best_covered_first(v: Seq<Option<Seq<char>>>)
    ensures
        rank::in_order(rank::sorted(title_counts(v), better_covered()), better_covered()),
{
    lemma_better_covered_orders();
    rank::sorting_puts_in_order(title_counts(v), better_covered());
}

// ---- books and chapters ----------------------------------------------------------------------

/// A book of the catalog: its first passage says who it is.
#[derive(Debug, PartialEq, Eq)]
pub struct BookEntry {
    pub book_id: String,
    pub title: String,
    pub author: String,
    pub source_path: String,
    pub format: String,
    pub chunks: usize,
}

/// What a [`BookEntry`] holds.
#[verifier::ext_equal]
pub struct BookEntryV {
    pub book_id: Seq<char>,
    pub title: Seq<char>,
    pub author: Seq<char>,
    pub source_path: Seq<char>,
    pub format: Seq<char>,
    pub chunks: nat,
}

impl View for BookEntry {
    type V = BookEntryV;

    open spec fn view(&self) -> BookEntryV {
        BookEntryV {
            book_id: self.book_id@,
            title: self.title@,
            author: self.author@,
            source_path: self.source_path@,
            format: self.format@,
            chunks: self.chunks as nat,
        }
    }
}

/// A chapter of the catalog, with the first of its pages.
#[derive(Debug, PartialEq, Eq)]
pub struct ChapterEntry {
    pub chapter: String,
    pub title: String,
    pub page: Option<u32>,
    pub source_path: String,
}

/// What a [`ChapterEntry`] holds.
#[verifier::ext_equal]
pub struct ChapterV {
    pub chapter: Seq<char>,
    pub title: Seq<char>,
    pub page: Option<u32>,
    pub source_path: Seq<char>,
}

impl View for ChapterEntry {
    type V = ChapterV;

    open spec fn view(&self) -> ChapterV {
        ChapterV {
            chapter: self.chapter@,
            title: self.title@,
            page: self.page,
            source_path: self.source_path@,
        }
    }
}

/// The entry is that of a book.
pub open spec fn is_book(id: Seq<char>) -> spec_fn(BookEntryV) -> bool {
    |x: BookEntryV| x.book_id == id
}

/// The entry is that of a chapter of a title.
pub open spec fn is_chapter(title: Seq<char>, chapter: Seq<char>) -> spec_fn(ChapterV) -> bool {
    |x: ChapterV| x.title == title && x.chapter == chapter
}

/// The books with one more passage.
pub open spec fn with_passage(v: Seq<BookEntryV>, r: RowV) -> Seq<BookEntryV> {
    match rows::first_where(v, is_book(r.book_id)) {
        Some(i) => v.update(i, BookEntryV { chunks: v[i].chunks + 1, ..v[i] }),
        None => v.push(
            BookEntryV {
                book_id: r.book_id,
                title: r.title,
                author: r.author,
                source_path: r.source_path,
                format: r.format,
                chunks: 1,
            },
        ),
    }
}

/// The earlier of two pages, where both are known; otherwise what is known already.
pub open spec fn earlier_page(known: Option<u32>, p: Option<u32>) -> Option<u32> {
    match (known, p) {
        (Some(k), Some(n)) => if n < k {
            Some(n)
        } else {
            Some(k)
        },
        _ => known,
    }
}

/// The chapters with one more passage; a passage outside every chapter adds none.
pub open spec fn with_chapter(v: Seq<ChapterV>, r: RowV) -> Seq<ChapterV> {
    let ch = text::trim(r.chapter);
    if ch.len() == 0 {
        v
    } else {
        match rows::first_where(v, is_chapter(r.title, ch)) {
            Some(i) => v.update(
                i,
                ChapterV { page: earlier_page(v[i].page, store::page_of(r.page)), ..v[i] },
            ),
            None => v.push(
                ChapterV {
                    chapter: ch,
                    title: r.title,
                    page: store::page_of(r.page),
                    source_path: r.source_path,
                },
            ),
        }
    }
}

/// The books of some passages.
pub open spec fn books_of(v: Seq<RowV>) -> Seq<BookEntryV>
    decreases v.len(),
{
    if v.len() == 0 {
        Seq::empty()
    } else {
        with_passage(books_of(v.drop_last()), v.last())
    }
}

/// The chapters of some passages.
pub open spec fn chapters_of(v: Seq<RowV>) -> Seq<ChapterV>
    decreases v.len(),
{
    if v.len() == 0 {
        Seq::empty()
    } else {
        with_chapter(chapters_of(v.drop_last()), v.last())
    }
}

/// How many passages some books have.
pub open spec fn passages(v: Seq<BookEntryV>) -> nat
    decreases v.len(),
{
    if v.len() == 0 {
        0
    } else {
        passages(v.drop_last()) + v.last().chunks
    }
}

proof fn lemma_passages_update(v: Seq<BookEntryV>, i: int, x: BookEntryV)
    requires
        0 <= i < v.len(),
    ensures
        passages(v.update(i, x)) == passages(v) - v[i].chunks + x.chunks,
        v[i].chunks <= passages(v),
    decreases v.len(),
{
    let u = v.update(i, x);
    if i == v.len() - 1 {
        assert(u.drop_last() =~= v.drop_last());
    } else {
        lemma_passages_update(v.drop_last(), i, x);
        assert(u.drop_last() =~= v.drop_last().update(i, x));
    }
}

/// Every passage counts for exactly one book of the catalog, and no book is in it twice.
pub proof fn catalog_counts_every_passage(v: Seq<RowV>)
    ensures
        passages(books_of(v)) == v.len(),
        forall|i: int, j: int|
            0 <= i < j < books_of(v).len() ==> (#[trigger] books_of(v)[i]).book_id != (
            #[trigger] books_of(v)[j]).book_id,
    decreases v.len(),
{
    if v.len() > 0 {
        let b = books_of(v.drop_last());
        let r = v.last();
        catalog_counts_every_passage(v.drop_last());
        rows::lemma_first_where(b, is_book(r.book_id));
        match rows::first_where(b, is_book(r.book_id)) {
            Some(i) => {
                lemma_passages_update(b, i, BookEntryV { chunks: b[i].chunks + 1, ..b[i] });
            },
            None => {
                assert(books_of(v).drop_last() =~= b);
            },
        }
    }
}

fn find_book(v: &Vec<BookEntry>, id: &str) -> (r: Option<usize>)
    ensures
        match r {
            Some(i) => i < v@.len() && rows::first_where(rows::vals(v@), is_book(id@)) == Some(
                i as int,
            ),
            None => rows::first_where(rows::vals(v@), is_book(id@)) is None,
        },
{
    rows::find_where(
        v,
        |x: &BookEntry| -> (b: bool)
            ensures
                b == is_book(id@)(x@)
            { text::same_text(x.book_id.as_str(), id) },
        Ghost(is_book(id@)),
    )
}

fn find_chapter(v: &Vec<ChapterEntry>, title: &str, chapter: &str) -> (r: Option<usize>)
    ensures
        match r {
            Some(i) => i < v@.len() && rows::first_where(
                rows::vals(v@),
                is_chapter(title@, chapter@),
            ) == Some(i as int),
            None => rows::first_where(rows::vals(v@), is_chapter(title@, chapter@)) is None,
        },
{
    rows::find_where(
        v,
        |x: &ChapterEntry| -> (b: bool)
            ensures
                b == is_chapter(title@, chapter@)(x@)
            {
                text::same_text(x.title.as_str(), title) && text::same_text(
                    x.chapter.as_str(),
                    chapter,
                )
            },
        Ghost(is_chapter(title@, chapter@)),
    )
}

fn add_passage(v: &mut Vec<BookEntry>, r: &StoreRow)
    requires
        passages(rows::vals(old(v)@)) < usize::MAX,
    ensures
        rows::vals(final(v)@) == with_passage(rows::vals(old(v)@), r@),
{
    let ghost before = rows::vals(v@);
    match find_book(v, r.book_id.as_str()) {
        Some(i) => {
            let b = &v[i];
            proof {
                assert(before[i as int] == b@);
                lemma_passages_update(before, i as int, before[i as int]);
            }
            let x = BookEntry {
                book_id: b.book_id.clone(),
                title: b.title.clone(),
                author: b.author.clone(),
                source_path: b.source_path.clone(),
                format: b.format.clone(),
                chunks: b.chunks + 1,
            };
            let ghost xv = x@;
            v.set(i, x);
            assert(rows::vals(v@) =~= before.update(i as int, xv));
        },
        None => {
            let x = BookEntry {
                book_id: r.book_id.clone(),
                title: r.title.clone(),
                author: r.author.clone(),
                source_path: r.source_path.clone(),
                format: r.format.clone(),
                chunks: 1,
            };
            proof {
                rows::lemma_vals_push(v@, x);
            }
            v.push(x);
        },
    }
}

fn add_chapter(v: &mut Vec<ChapterEntry>, r: &StoreRow)
    ensures
        rows::vals(final(v)@) == with_chapter(rows::vals(old(v)@), r@),
{
    let ghost before = rows::vals(v@);
    let ch = text::trim_str(r.chapter.as_str());
    if ch.as_str().unicode_len() == 0 {
        return;
    }
    let page = store::page_out(r.page);
    match find_chapter(v, r.title.as_str(), ch.as_str()) {
        Some(i) => {
            let c = &v[i];
            assert(before[i as int] == c@);
            let first = match (c.page, page) {
                (Some(k), Some(n)) => if n < k {
                    Some(n)
                } else {
                    Some(k)
                },
                _ => c.page,
            };
            let x = ChapterEntry {
                chapter: c.chapter.clone(),
                title: c.title.clone(),
                page: first,
                source_path: c.source_path.clone(),
            };
            let ghost xv = x@;
            v.set(i, x);
            assert(rows::vals(v@) =~= before.update(i as int, xv));
        },
        None => {
            let x = ChapterEntry {
                chapter: ch,
                title: r.title.clone(),
                page,
                source_path: r.source_path.clone(),
            };
            proof {
                rows::lemma_vals_push(v@, x);
            }
            v.push(x);
        },
    }
}

/// The catalog of the library from one scan: its books, each with how many passages it has, and its
/// chapters, each with the first of its pages.
pub fn book_catalog(scan: &Vec<StoreRow>) -> (r: (Vec<BookEntry>, Vec<ChapterEntry>))
    ensures
        rows::vals(r.0@) == books_of(rows::vals(scan@)),
        rows::vals(r.1@) == chapters_of(rows::vals(scan@)),
{
    let ghost all = rows::vals(scan@);
    let mut books: Vec<BookEntry> = Vec::new();
    let mut chapters: Vec<ChapterEntry> = Vec::new();
    assert(rows::vals(books@) =~= books_of(all.take(0)));
    assert(rows::vals(chapters@) =~= chapters_of(all.take(0)));
    for i in 0..scan.len()
        invariant
            all == rows::vals(scan@),
            rows::vals(books@) == books_of(all.take(i as int)),
            rows::vals(chapters@) == chapters_of(all.take(i as int)),
    {
        let r = &scan[i];
        proof {
            assert(all.take(i + 1).drop_last() =~= all.take(i as int));
            assert(all.take(i + 1).last() == r@);
            catalog_counts_every_passage(all.take(i as int));
        }
        add_passage(&mut books, r);
        add_chapter(&mut chapters, r);
    }
    assert(all.take(all.len() as int) =~= all);
    (books, chapters)
}

// ---- where books lie -------------------------------------------------------------------------

/// A book and its path as scanned; either may be missing.
pub open spec fn scanned_pairs(v: Seq<(Option<String>, Option<String>)>) -> Seq<
    (Option<Seq<char>>, Option<Seq<char>>),
> {
    Seq::new(v.len(), |i: int| (text::opt_text(v[i].0), text::opt_text(v[i].1)))
}

/// The pair is that of a book.
pub open spec fn pair_of(id: Seq<char>) -> spec_fn((Seq<char>, Seq<char>)) -> bool {
    |x: (Seq<char>, Seq<char>)| x.0 == id
}

/// The first path of every book, in the order in which books first appear.
pub open spec fn first_paths(v: Seq<(Option<Seq<char>>, Option<Seq<char>>)>) -> Seq<
    (Seq<char>, Seq<char>),
>
    decreases v.len(),
{
    if v.len() == 0 {
        Seq::empty()
    } else {
        let before = first_paths(v.drop_last());
        match v.last() {
            (Some(id), Some(path)) => if rows::first_where(before, pair_of(id)) is Some {
                before
            } else {
                before.push((id, path))
            },
            _ => before,
        }
    }
}

/// Every pair of a book and a path, once.
pub open spec fn distinct_pairs(v: Seq<(Option<Seq<char>>, Option<Seq<char>>)>) -> Seq<
    (Seq<char>, Seq<char>),
>
    decreases v.len(),
{
    if v.len() == 0 {
        Seq::empty()
    } else {
        let before = distinct_pairs(v.drop_last());
        match v.last() {
            (Some(id), Some(path)) => if rows::first_where(before, same_pair(id, path)) is Some {
                before
            } else {
                before.push((id, path))
            },
            _ => before,
        }
    }
}

/// The pair is that of a book and a path.
pub open spec fn same_pair(id: Seq<char>, path: Seq<char>) -> spec_fn(
    (Seq<char>, Seq<char>),
) -> bool {
    |x: (Seq<char>, Seq<char>)| x.0 == id && x.1 == path
}

/// The path of every book of the store: the first that was scanned.
pub fn book_paths(scan: &Vec<(Option<String>, Option<String>)>) -> (r: Vec<(String, String)>)
    ensures
        rows::vals(r@) == first_paths(scanned_pairs(scan@)),
{
    let ghost all = scanned_pairs(scan@);
    let mut out: Vec<(String, String)> = Vec::new();
    assert(rows::vals(out@) =~= first_paths(all.take(0)));
    for i in 0..scan.len()
        invariant
            all == scanned_pairs(scan@),
            rows::vals(out@) == first_paths(all.take(i as int)),
    {
        proof {
            assert(all.take(i + 1).drop_last() =~= all.take(i as int));
            assert(all.take(i + 1).last() == (
                text::opt_text(scan@[i as int].0),
                text::opt_text(scan@[i as int].1),
            ));
        }
        if let (Some(id), Some(path)) = (&scan[i].0, &scan[i].1) {
            let ghost p = pair_of(id@);
            let found: Option<usize> = rows::find_where(
                &out,
                |x: &(String, String)| -> (b: bool)
                    ensures
                        b == p(x@)
                    { text::same_text(x.0.as_str(), id.as_str()) },
                Ghost(p),
            );
            if found.is_none() {
                let x = (id.clone(), path.clone());
                proof {
                    rows::lemma_vals_push(out@, x);
                }
                out.push(x);
            }
        }
    }
    assert(all.take(all.len() as int) =~= all);
    out
}

/// Every pair of a book and a path in the store, once.
pub fn book_path_pairs(scan: &Vec<(Option<String>, Option<String>)>) -> (r: Vec<(String, String)>)
    ensures
        rows::vals(r@) == distinct_pairs(scanned_pairs(scan@)),
{
    let ghost all = scanned_pairs(scan@);
    let mut out: Vec<(String, String)> = Vec::new();
    assert(rows::vals(out@) =~= distinct_pairs(all.take(0)));
    for i in 0..scan.len()
        invariant
            all == scanned_pairs(scan@),
            rows::vals(out@) == distinct_pairs(all.take(i as int)),
    {
        proof {
            assert(all.take(i + 1).drop_last() =~= all.take(i as int));
            assert(all.take(i + 1).last() == (
                text::opt_text(scan@[i as int].0),
                text::opt_text(scan@[i as int].1),
            ));
        }
        if let (Some(id), Some(path)) = (&scan[i].0, &scan[i].1) {
            let ghost p = same_pair(id@, path@);
            let found: Option<usize> = rows::find_where(
                &out,
                |x: &(String, String)| -> (b: bool)
                    ensures
                        b == p(x@)
                    {
                        text::same_text(x.0.as_str(), id.as_str()) && text::same_text(
                            x.1.as_str(),
                            path.as_str(),
                        )
                    },
                Ghost(p),
            );
            if found.is_none() {
                let x = (id.clone(), path.clone());
                proof {
                    rows::lemma_vals_push(out@, x);
                }
                out.push(x);
            }
        }
    }
    assert(all.take(all.len() as int) =~= all);
    out
}

/// The texts that are there.
pub open spec fn present(v: Seq<Option<Seq<char>>>) -> Seq<Seq<char>>
    decreases v.len(),
{
    if v.len() == 0 {
        Seq::empty()
    } else {
        match v.last() {
            Some(t) => present(v.drop_last()).push(t),
            None => present(v.drop_last()),
        }
    }
}

/// The distinct books of the store.
pub fn indexed_book_ids(scan: &Vec<Option<String>>) -> (r: Vec<String>)
    ensures
        text::texts(r@) == order::firsts(present(opt_texts(scan@))),
{
    let ghost all = opt_texts(scan@);
    let mut out: Vec<String> = Vec::new();
    assert(text::texts(out@) =~= order::firsts(present(all.take(0))));
    for i in 0..scan.len()
        invariant
            all == opt_texts(scan@),
            text::texts(out@) == order::firsts(present(all.take(i as int))),
    {
        proof {
            assert(all.take(i + 1).drop_last() =~= all.take(i as int));
            assert(all.take(i + 1).last() == text::opt_text(scan@[i as int]));
        }
        if let Some(id) = &scan[i] {
            proof {
                let p = present(all.take(i as int));
                assert(p.push(id@).drop_last() =~= p);
            }
            if !order::holds(&out, id.as_str()) {
                let x = id.clone();
                proof {
                    text::lemma_texts_push(out@, x);
                }
                out.push(x);
            }
        }
    }
    assert(all.take(all.len() as int) =~= all);
    out
}

// ---- passages by identity --------------------------------------------------------------------

/// A passage without its text.
#[derive(Debug, PartialEq, Eq)]
pub struct ChunkMeta {
    pub id: String,
    pub book_id: String,
    pub title: String,
    pub source_path: String,
    pub format: String,
    pub chapter: Option<String>,
    pub page: Option<u32>,
}

/// What a [`ChunkMeta`] holds.
#[verifier::ext_equal]
pub struct MetaV {
    pub id: Seq<char>,
    pub book_id: Seq<char>,
    pub title: Seq<char>,
    pub source_path: Seq<char>,
    pub format: Seq<char>,
    pub chapter: Option<Seq<char>>,
    pub page: Option<u32>,
}

impl View for ChunkMeta {
    type V = MetaV;

    open spec fn view(&self) -> MetaV {
        MetaV {
            id: self.id@,
            book_id: self.book_id@,
            title: self.title@,
            source_path: self.source_path@,
            format: self.format@,
            chapter: text::opt_text(self.chapter),
            page: self.page,
        }
    }
}

/// What a row says of its passage but the text.
pub open spec fn meta_of(r: RowV) -> MetaV {
    MetaV {
        id: r.id,
        book_id: r.book_id,
        title: r.title,
        source_path: r.source_path,
        format: r.format,
        chapter: store::non_empty(r.chapter),
        page: store::page_of(r.page),
    }
}

/// What every row says of its passage but the text.
pub fn scan_chunk_meta(scan: &Vec<StoreRow>) -> (r: Vec<ChunkMeta>)
    ensures
        rows::vals(r@) == Seq::new(scan@.len(), |i: int| meta_of(scan@[i]@)),
{
    let mut out: Vec<ChunkMeta> = Vec::new();
    for i in 0..scan.len()
        invariant
            out@.len() == i,
            forall|k: int| 0 <= k < i ==> (#[trigger] out@[k])@ == meta_of(scan@[k]@),
    {
        let r = &scan[i];
        out.push(
            ChunkMeta {
                id: r.id.clone(),
                book_id: r.book_id.clone(),
                title: r.title.clone(),
                source_path: r.source_path.clone(),
                format: r.format.clone(),
                chapter: store::text_or_none(&r.chapter),
                page: store::page_out(r.page),
            },
        );
    }
    assert(rows::vals(out@) =~= Seq::new(scan@.len(), |i: int| meta_of(scan@[i]@)));
    out
}

/// The identities and texts of the rows whose identity is asked for.
pub open spec fn texts_for(v: Seq<RowV>, ids: Seq<Seq<char>>) -> Seq<(Seq<char>, Seq<char>)>
    decreases v.len(),
{
    if v.len() == 0 {
        Seq::empty()
    } else {
        let before = texts_for(v.drop_last(), ids);
        if ids.contains(v.last().id) {
            before.push((v.last().id, v.last().text))
        } else {
            before
        }
    }
}

/// The texts of exactly the passages asked for.
pub fn chunk_texts(scan: &Vec<StoreRow>, ids: &Vec<String>) -> (r: Vec<(String, String)>)
    ensures
        rows::vals(r@) == texts_for(rows::vals(scan@), text::texts(ids@)),
{
    let ghost all = rows::vals(scan@);
    let mut out: Vec<(String, String)> = Vec::new();
    assert(rows::vals(out@) =~= texts_for(all.take(0), text::texts(ids@)));
    for i in 0..scan.len()
        invariant
            all == rows::vals(scan@),
            rows::vals(out@) == texts_for(all.take(i as int), text::texts(ids@)),
    {
        let r = &scan[i];
        proof {
            assert(all.take(i + 1).drop_last() =~= all.take(i as int));
            assert(all.take(i + 1).last() == r@);
        }
        if order::holds(ids, r.id.as_str()) {
            let x = (r.id.clone(), r.text.clone());
            proof {
                rows::lemma_vals_push(out@, x);
            }
            out.push(x);
        }
    }
    assert(all.take(all.len() as int) =~= all);
    out
}

} // verus!
