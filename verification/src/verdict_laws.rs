//! What verdicts on citations mean.
use vstd::prelude::*;
use crate::citecheck;
use crate::citecheck::{BookText, Outcome};
use crate::citemetric;
use crate::rows;
use crate::text;

verus! {

/// A verdict says that the passage was found.
pub open spec fn is_found(o: Outcome) -> bool {
    o is Direct || o is Near || o is Located || o is ChapterlessLocated
}

/// A passage is found in a book exactly where it stands in it. It is found directly exactly where it
/// stands in the stretch that its chapter names, and a miss is one of a chapter exactly where there
/// is such a stretch.
pub proof fn book_verdicts_tell_where(
    chaptered: bool,
    run: Option<Seq<char>>,
    all: Seq<char>,
    probe: Seq<char>,
)
    requires
        probe.len() > 0,
        run is Some ==> chaptered,
    ensures
        ({
            let o = citecheck::book_outcome(chaptered, run, all, probe);
            let in_run = run is Some && text::contains(run->0, probe);
            let anywhere = text::contains(all, probe);
            &&& is_found(o) <==> (in_run || anywhere)
            &&& o is Direct <==> in_run
            &&& o is Located <==> chaptered && !in_run && anywhere
            &&& o is ChapterlessLocated <==> !chaptered && anywhere
            &&& o is ChapterlessMiss <==> !chaptered && !anywhere
            &&& o is MissInChapter <==> run is Some && !in_run && !anywhere
            &&& o is ColdMiss <==> chaptered && run is None && !anywhere
            &&& !(o is Near)
        }),
{
}

/// A passage is found in a PDF directly on its page, near on the page before or behind it, and else
/// wherever it stands.
pub proof fn pdf_verdicts_tell_where(page: u32, book: BookText, probe: Seq<char>)
    requires
        probe.len() > 0,
        0 < page < u32::MAX,
    ensures
        ({
            let o = citecheck::pdf_outcome(Some(page), book, probe);
            let on = |p: u32| text::contains(citecheck::page_in(book.pages@, p), probe);
            let before = (page - 1) as u32;
            let behind = (page + 1) as u32;
            &&& o is Direct <==> on(page)
            &&& o is Near <==> !on(page) && (on(before) || on(behind))
            &&& o is Located <==> !on(page) && !on(before) && !on(behind) && text::contains(
                book.all@,
                probe,
            )
            &&& o is MissInChapter <==> !on(page) && !on(before) && !on(behind) && !text::contains(
                book.all@,
                probe,
            )
        }),
{
}

/// Without a page a PDF's passage is looked for everywhere, and without anything to look for there
/// is nothing to find.
pub proof fn verdicts_without_a_place(book: BookText, page: Option<u32>, probe: Seq<char>)
    ensures
        probe.len() > 0 ==> citecheck::pdf_outcome(None, book, probe) == if text::contains(
            book.all@,
            probe,
        ) {
            Outcome::ChapterlessLocated
        } else {
            Outcome::ChapterlessMiss
        },
        probe.len() == 0 ==> citecheck::pdf_outcome(page, book, probe) is ColdMiss,
{
}

/// A passage is shown exactly where the first 40 characters of it, or of what follows its first
/// line, stand in a block, both in normal form.
pub proof fn shown_passages_stand_in_a_block(passage: Seq<char>, blocks: Seq<Seq<char>>)
    ensures
        citecheck::passage_shown(passage, blocks) <==> exists|i: int|
            0 <= i < blocks.len() && (is_shown_in(passage, #[trigger] blocks[i])
                || is_rest_shown_in(passage, blocks[i])),
{
    let n = citecheck::normal_blocks(blocks);
    let a = citecheck::start_of(citemetric::normal_md(passage));
    text::lemma_find_from(passage, seq!['\n'], 0);
    if citecheck::shows(n, a) {
        let i = choose|i: int| 0 <= i < n.len() && text::contains(#[trigger] n[i], a);
        assert(is_shown_in(passage, blocks[i]));
    }
    if citecheck::after_first_line(passage) is Some {
        let b = citecheck::start_of(
            citemetric::normal_md(citecheck::after_first_line(passage)->0),
        );
        if citecheck::shows(n, b) {
            let i = choose|i: int| 0 <= i < n.len() && text::contains(#[trigger] n[i], b);
            assert(is_rest_shown_in(passage, blocks[i]));
        }
    }
    if exists|i: int|
        0 <= i < blocks.len() && (is_shown_in(passage, #[trigger] blocks[i]) || is_rest_shown_in(
            passage,
            blocks[i],
        )) {
        let i = choose|i: int|
            0 <= i < blocks.len() && (is_shown_in(passage, #[trigger] blocks[i])
                || is_rest_shown_in(passage, blocks[i]));
        assert(n[i] == citemetric::normal_md(blocks[i]));
        if is_shown_in(passage, blocks[i]) {
            assert(citecheck::shows(n, a));
        }
    }
}

/// The first characters of a text stand in a block, both in normal form.
pub open spec fn is_shown_in(t: Seq<char>, block: Seq<char>) -> bool {
    let n = citemetric::normal_md(t);
    let start = if n.len() <= 40 {
        n
    } else {
        n.subrange(0, 40)
    };
    start.len() > 0 && text::contains(citemetric::normal_md(block), start)
}

/// What follows the first line of a text stands in a block, if there is more than one line.
pub open spec fn is_rest_shown_in(t: Seq<char>, block: Seq<char>) -> bool {
    match text::find(t, seq!['\n']) {
        Some(i) => is_shown_in(t.subrange(i + 1, t.len() as int), block),
        None => false,
    }
}

/// A label that is the one wanted is taken before any other, the first of them.
pub proof fn equal_labels_come_first(v: Seq<Seq<char>>, want: Seq<char>, i: int)
    requires
        want.len() > 0,
        0 <= i < v.len(),
        v[i] == want,
        forall|j: int| 0 <= j < i ==> #[trigger] v[j] != want,
    ensures
        citemetric::matching_label(v, want) == Some(i),
{
    rows::lemma_first_where_is(v, citemetric::is_text(want), i);
}

/// One label holds another, and both are long enough to tell.
pub open spec fn one_holds_another(l: Seq<char>, want: Seq<char>) -> bool {
    want.len() >= 6 && l.len() >= 6 && (text::contains(l, want) || text::contains(want, l))
}

/// Where no label is the one wanted, the first that holds it, or that it holds, is taken.
pub proof fn overlapping_labels_come_next(v: Seq<Seq<char>>, want: Seq<char>, i: int)
    requires
        0 <= i < v.len(),
        one_holds_another(v[i], want),
        forall|j: int| 0 <= j < v.len() ==> #[trigger] v[j] != want,
        forall|j: int| 0 <= j < i ==> !one_holds_another(#[trigger] v[j], want),
    ensures
        citemetric::matching_label(v, want) == Some(i),
{
    rows::lemma_first_where_none(v, citemetric::is_text(want));
    let p = citemetric::overlaps(want);
    assert forall|j: int| 0 <= j < i implies !p(#[trigger] v[j]) by {
        assert(!one_holds_another(v[j], want));
    }
    rows::lemma_first_where_is(v, p, i);
}

/// Where no label is the one wanted and none overlaps it, the one that shares most words with it is
/// taken, if it shares enough; and nothing is taken for an empty label.
pub proof fn other_labels_are_told_by_their_words(v: Seq<Seq<char>>, want: Seq<char>)
    requires
        forall|j: int|
            0 <= j < v.len() ==> #[trigger] v[j] != want && !one_holds_another(v[j], want),
    ensures
        citemetric::tokens_in(want).len() < 2 || want.len() == 0 ==> citemetric::matching_label(
            v,
            want,
        ) is None,
        citemetric::tokens_in(want).len() >= 2 && want.len() > 0 ==> match citemetric::matching_label(
            v,
            want,
        ) {
            Some(b) => 0 <= b < v.len() && crate::cite_laws::is_close(
                v[b],
                citemetric::tokens_in(want),
            ),
            None => forall|i: int|
                0 <= i < v.len() ==> !crate::cite_laws::is_close(
                    #[trigger] v[i],
                    citemetric::tokens_in(want),
                ),
        },
{
    rows::lemma_first_where_none(v, citemetric::is_text(want));
    if want.len() >= 6 {
        let p = citemetric::overlaps(want);
        assert forall|j: int| 0 <= j < v.len() implies !p(#[trigger] v[j]) by {
            assert(!one_holds_another(v[j], want));
        }
        rows::lemma_first_where_none(v, p);
    }
    crate::cite_laws::best_labels_share_most(v, citemetric::tokens_in(want), v.len());
}

} // verus!
