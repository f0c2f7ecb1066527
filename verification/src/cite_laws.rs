//! What citations are checked against: nothing of a book or an answer is passed over.
use vstd::prelude::*;
use crate::book::BlockV;
use crate::citecheck;
use crate::citecheck::{MdLineV, MdV};
use crate::citemetric;
use crate::rows;
use crate::shape;
use crate::text;
use crate::unicode;

verus! {

// ---- Markdown --------------------------------------------------------------------------------

/// A reading of Markdown with blocks before its own.
pub open spec fn behind(b: Seq<Seq<char>>, st: MdV) -> MdV {
    MdV { blocks: b + st.blocks, ..st }
}

proof fn lemma_behind_after(b: Seq<Seq<char>>, st: MdV, l: MdLineV)
    ensures
        behind(b, st).after(l) == behind(b, st.after(l)),
{
    let x = behind(b, st).after(l);
    let y = behind(b, st.after(l));
    assert(x.blocks =~= y.blocks);
}

proof fn lemma_behind_done(b: Seq<Seq<char>>, st: MdV)
    ensures
        behind(b, st).done() == b + st.done(),
{
    assert(behind(b, st).done() =~= b + st.done());
}

/// A reading with nothing at hand goes on as a new one.
proof fn lemma_run_on(a: Seq<MdLineV>, b: Seq<MdLineV>)
    requires
        !citecheck::md_run(a).in_code,
        citecheck::md_run(a).para.len() == 0,
    ensures
        citecheck::md_run(a + b) == behind(citecheck::md_run(a).blocks, citecheck::md_run(b)),
    decreases b.len(),
{
    let st = citecheck::md_run(a);
    if b.len() == 0 {
        assert(a + b =~= a);
        lemma_no_code(a);
        assert(st.blocks + citecheck::md_run(b).blocks =~= st.blocks);
        assert(st.para =~= Seq::empty());
        assert(st.code =~= Seq::empty());
    } else {
        lemma_run_on(a, b.drop_last());
        assert((a + b).drop_last() =~= a + b.drop_last());
        lemma_behind_after(st.blocks, citecheck::md_run(b.drop_last()), b.last());
    }
}

/// Outside code, no code is at hand.
proof fn lemma_no_code(a: Seq<MdLineV>)
    ensures
        !citecheck::md_run(a).in_code ==> citecheck::md_run(a).code.len() == 0,
    decreases a.len(),
{
    if a.len() > 0 {
        lemma_no_code(a.drop_last());
    }
}

/// A blank line outside code parts the blocks before it from those behind it.
pub proof fn blank_lines_part_blocks(a: Seq<MdLineV>, l: MdLineV, b: Seq<MdLineV>)
    requires
        !citecheck::md_run(a).in_code,
        !l.fence,
        l.item is None,
        text::trim(l.line).len() == 0,
    ensures
        citecheck::md_run(a.push(l) + b).done() == citecheck::md_run(a).done() + citecheck::md_run(
            b,
        ).done(),
{
    let c = a.push(l);
    assert(c.drop_last() =~= a);
    lemma_run_on(c, b);
    lemma_behind_done(citecheck::md_run(c).blocks, citecheck::md_run(b));
}

/// A heading or list item outside code is a block of its own, between those before it and those
/// behind it.
pub proof fn items_are_blocks(a: Seq<MdLineV>, l: MdLineV, b: Seq<MdLineV>)
    requires
        !citecheck::md_run(a).in_code,
        !l.fence,
        l.item is Some,
    ensures
        citecheck::md_run(a.push(l) + b).done() == citecheck::md_run(a).done().push(l.item->0)
            + citecheck::md_run(b).done(),
{
    let c = a.push(l);
    assert(c.drop_last() =~= a);
    lemma_run_on(c, b);
    lemma_behind_done(citecheck::md_run(c).blocks, citecheck::md_run(b));
}

/// The lines of some code as they stand.
pub open spec fn raw_lines(code: Seq<MdLineV>) -> Seq<Seq<char>> {
    Seq::new(code.len(), |i: int| code[i].raw)
}

proof fn lemma_code_run(a: Seq<MdLineV>, code: Seq<MdLineV>)
    requires
        citecheck::md_run(a).in_code,
        citecheck::md_run(a).code.len() == 0,
        forall|i: int| 0 <= i < code.len() ==> !(#[trigger] code[i]).fence,
    ensures
        citecheck::md_run(a + code) == (MdV { code: raw_lines(code), ..citecheck::md_run(a) }),
    decreases code.len(),
{
    if code.len() == 0 {
        assert(a + code =~= a);
        assert(citecheck::md_run(a).code =~= raw_lines(code));
    } else {
        let less = code.drop_last();
        assert forall|i: int| 0 <= i < less.len() implies !(#[trigger] less[i]).fence by {
            assert(less[i] == code[i]);
        }
        lemma_code_run(a, less);
        assert((a + code).drop_last() =~= a + less);
        assert(code[code.len() - 1] == code.last());
        assert(raw_lines(code) =~= raw_lines(less).push(code.last().raw));
    }
}

/// What stands between two fences is a block as it stands, with its line breaks.
pub proof fn fenced_code_is_a_block(
    a: Seq<MdLineV>,
    open: MdLineV,
    code: Seq<MdLineV>,
    close: MdLineV,
    b: Seq<MdLineV>,
)
    requires
        !citecheck::md_run(a).in_code,
        open.fence,
        close.fence,
        forall|i: int| 0 <= i < code.len() ==> !(#[trigger] code[i]).fence,
    ensures
        citecheck::md_run((a.push(open) + code).push(close) + b).done() == citecheck::md_run(
            a,
        ).done().push(text::join(raw_lines(code), "\n"@)) + citecheck::md_run(b).done(),
{
    let c = a.push(open);
    assert(c.drop_last() =~= a);
    lemma_no_code(a);
    lemma_code_run(c, code);
    let d = (c + code).push(close);
    assert(d.drop_last() =~= c + code);
    lemma_run_on(d, b);
    lemma_behind_done(citecheck::md_run(d).blocks, citecheck::md_run(b));
    assert(citecheck::md_run(d).blocks =~= citecheck::md_run(a).done().push(
        text::join(raw_lines(code), "\n"@),
    ));
}

/// Lines of running text are one block, with a space for each line break.
pub proof fn running_lines_are_one_block(lines: Seq<MdLineV>)
    requires
        lines.len() > 0,
        forall|i: int|
            0 <= i < lines.len() ==> !(#[trigger] lines[i]).fence && lines[i].item is None
                && text::trim(lines[i].line).len() > 0,
    ensures
        citecheck::md_run(lines).done() == seq![
            text::join(Seq::new(lines.len(), |i: int| lines[i].line), " "@),
        ],
{
    lemma_para_run(lines);
    let p = Seq::new(lines.len(), |i: int| lines[i].line);
    assert(citecheck::md_run(lines).done() =~= seq![text::join(p, " "@)]);
}

proof fn lemma_para_run(lines: Seq<MdLineV>)
    requires
        forall|i: int|
            0 <= i < lines.len() ==> !(#[trigger] lines[i]).fence && lines[i].item is None
                && text::trim(lines[i].line).len() > 0,
    ensures
        citecheck::md_run(lines).para == Seq::new(lines.len(), |i: int| lines[i].line),
        citecheck::md_run(lines).blocks.len() == 0,
        !citecheck::md_run(lines).in_code,
    decreases lines.len(),
{
    if lines.len() == 0 {
        assert(citecheck::md_run(lines).para =~= Seq::new(lines.len(), |i: int| lines[i].line));
    } else {
        let less = lines.drop_last();
        assert forall|i: int| 0 <= i < less.len() implies !(#[trigger] less[i]).fence
            && less[i].item is None && text::trim(less[i].line).len() > 0 by {
            assert(less[i] == lines[i]);
        }
        lemma_para_run(less);
        assert(lines[lines.len() - 1] == lines.last());
        assert(citecheck::md_run(lines).para =~= Seq::new(lines.len(), |i: int| lines[i].line));
    }
}

/// Every block that shows anything is shown, in order.
pub proof fn every_block_is_shown(v: Seq<Seq<char>>)
    ensures
        shape::picks(
            v.len() as int,
            |i: int| text::trim(citecheck::shown_block(v[i])).len() > 0,
            |i: int| citecheck::shown_block(v[i]),
            citecheck::shown_blocks(v),
        ),
    decreases v.len(),
{
    let keep = |i: int| text::trim(citecheck::shown_block(v[i])).len() > 0;
    let value = |i: int| citecheck::shown_block(v[i]);
    if v.len() == 0 {
        shape::lemma_picks_none(keep, value);
    } else {
        let less = v.drop_last();
        every_block_is_shown(less);
        let keep0 = |i: int| text::trim(citecheck::shown_block(less[i])).len() > 0;
        let value0 = |i: int| citecheck::shown_block(less[i]);
        assert forall|i: int| 0 <= i < less.len() implies (#[trigger] keep0(i) <==> keep(i)) by {
            assert(less[i] == v[i]);
        }
        assert forall|i: int| 0 <= i < less.len() && #[trigger] keep0(i) implies value0(i) == value(
            i,
        ) by {
            assert(less[i] == v[i]);
        }
        shape::lemma_picks_step(
            less.len() as int,
            keep0,
            value0,
            keep,
            value,
            citecheck::shown_blocks(less),
        );
    }
}

// ---- books -----------------------------------------------------------------------------------

/// The texts of blocks, each with a space behind it.
pub open spec fn spaced_texts(v: Seq<BlockV>) -> spec_fn(int) -> Seq<char> {
    |i: int| v[i].text + " "@
}

/// The texts of the blocks on a page, each with a space behind it; other blocks have none.
pub open spec fn page_texts(v: Seq<BlockV>, page: u32) -> spec_fn(int) -> Seq<char> {
    |i: int|
        if v[i].page == Some(page) {
            v[i].text + " "@
        } else {
            Seq::empty()
        }
}

/// A book's text is that of all its blocks, and a page's that of all blocks on it, in order.
pub proof fn texts_hold_every_block(v: Seq<BlockV>, page: u32)
    ensures
        shape::laid(v.len() as int, spaced_texts(v), citecheck::all_text(v)),
        shape::laid(v.len() as int, page_texts(v, page), citecheck::page_text(v, page)),
    decreases v.len(),
{
    if v.len() == 0 {
        shape::lemma_laid_none(spaced_texts(v));
        shape::lemma_laid_none(page_texts(v, page));
    } else {
        let less = v.drop_last();
        let n = less.len() as int;
        texts_hold_every_block(less, page);
        assert forall|i: int| 0 <= i < n implies #[trigger] spaced_texts(less)(i) == spaced_texts(v)(
            i,
        ) by {
            assert(less[i] == v[i]);
        }
        assert forall|i: int| 0 <= i < n implies #[trigger] page_texts(less, page)(i) == page_texts(
            v,
            page,
        )(i) by {
            assert(less[i] == v[i]);
        }
        shape::lemma_laid_step(n, spaced_texts(less), spaced_texts(v), citecheck::all_text(less));
        shape::lemma_laid_step(
            n,
            page_texts(less, page),
            page_texts(v, page),
            citecheck::page_text(less, page),
        );
        assert(citecheck::all_text(v) =~= citecheck::all_text(less) + spaced_texts(v)(n));
        assert(citecheck::page_text(v, page) =~= citecheck::page_text(less, page) + page_texts(
            v,
            page,
        )(n));
    }
}

proof fn lemma_labels_come_from_blocks(v: Seq<BlockV>, c: Seq<char>)
    requires
        forall|i: int| 0 <= i < v.len() ==> (#[trigger] v[i]).chapter != Some(c),
    ensures
        citecheck::runs_of(v).label != Some(c),
        forall|k: int|
            0 <= k < citecheck::runs_of(v).runs.len() ==> (#[trigger] citecheck::runs_of(
                v,
            ).runs[k]).0 != c,
    decreases v.len(),
{
    if v.len() > 0 {
        let less = v.drop_last();
        assert forall|i: int| 0 <= i < less.len() implies (#[trigger] less[i]).chapter != Some(
            c,
        ) by {
            assert(less[i] == v[i]);
        }
        assert(v[v.len() - 1] == v.last());
        lemma_labels_come_from_blocks(less, c);
    }
}

proof fn lemma_runs_stay(a: Seq<BlockV>, b: Seq<BlockV>, k: int)
    requires
        0 <= k < citecheck::runs_of(a).runs.len(),
    ensures
        k < citecheck::runs_of(a + b).runs.len(),
        citecheck::runs_of(a + b).runs[k] == citecheck::runs_of(a).runs[k],
    decreases b.len(),
{
    if b.len() == 0 {
        assert(a + b =~= a);
    } else {
        lemma_runs_stay(a, b.drop_last(), k);
        assert((a + b).drop_last() =~= a + b.drop_last());
    }
}

proof fn lemma_stretch(a: Seq<BlockV>, m: Seq<BlockV>, c: Seq<char>)
    requires
        m.len() > 0,
        forall|i: int| 0 <= i < m.len() ==> (#[trigger] m[i]).chapter == Some(c),
        citecheck::runs_of(a).label != Some(c),
    ensures
        citecheck::runs_of(a + m).runs == citecheck::runs_of(a).ended(),
        citecheck::runs_of(a + m).label == Some(c),
        shape::laid(m.len() as int, spaced_texts(m), citecheck::runs_of(a + m).text),
    decreases m.len(),
{
    let less = m.drop_last();
    let n = less.len() as int;
    assert((a + m).drop_last() =~= a + less);
    assert((a + m).last() == m.last());
    assert(m[n] == m.last());
    assert forall|i: int| 0 <= i < n implies #[trigger] spaced_texts(less)(i) == spaced_texts(m)(
        i,
    ) by {
        assert(less[i] == m[i]);
    }
    if n == 0 {
        assert(a + less =~= a);
        shape::lemma_laid_none(spaced_texts(less));
        shape::lemma_laid_step(0, spaced_texts(less), spaced_texts(m), Seq::empty());
        assert(citecheck::runs_of(a + m).text =~= Seq::<char>::empty() + spaced_texts(m)(0));
    } else {
        assert forall|i: int| 0 <= i < less.len() implies (#[trigger] less[i]).chapter == Some(
            c,
        ) by {
            assert(less[i] == m[i]);
        }
        lemma_stretch(a, less, c);
        let before = citecheck::runs_of(a + less).text;
        shape::lemma_laid_step(n, spaced_texts(less), spaced_texts(m), before);
        assert(citecheck::runs_of(a + m).text =~= before + spaced_texts(m)(n));
    }
}

/// Every chapter has its first stretch on record, whole: the texts of all its blocks up to the first
/// of another chapter.
pub proof fn first_stretches_are_whole(
    a: Seq<BlockV>,
    m: Seq<BlockV>,
    b: Seq<BlockV>,
    c: Seq<char>,
)
    requires
        m.len() > 0,
        forall|i: int| 0 <= i < a.len() ==> (#[trigger] a[i]).chapter != Some(c),
        forall|i: int| 0 <= i < m.len() ==> (#[trigger] m[i]).chapter == Some(c),
        b.len() > 0 ==> b[0].chapter != Some(c),
    ensures
        exists|k: int|
            {
                let runs = citecheck::runs_of(a + m + b).ended();
                &&& 0 <= k < runs.len()
                &&& (#[trigger] citecheck::runs_of(a + m + b).ended()[k]).0 == c
                &&& shape::laid(m.len() as int, spaced_texts(m), runs[k].1)
            },
{
    lemma_labels_come_from_blocks(a, c);
    lemma_stretch(a, m, c);
    let am = citecheck::runs_of(a + m);
    let ended = citecheck::runs_of(a).ended();
    assert forall|k: int| 0 <= k < ended.len() implies (#[trigger] ended[k]).0 != c by {
        if k < citecheck::runs_of(a).runs.len() {
            assert(ended[k] == citecheck::runs_of(a).runs[k]);
        }
    }
    rows::lemma_first_where(am.runs, citecheck::run_of(c));
    let k = ended.len() as int;
    assert(am.ended()[k] == (c, am.text));
    if b.len() == 0 {
        assert(a + m + b =~= a + m);
        assert(citecheck::runs_of(a + m + b).ended()[k].0 == c);
    } else {
        let first = b.take(1);
        let rest = b.skip(1);
        assert((a + m + first).drop_last() =~= a + m);
        assert((a + m + first).last() == b[0]);
        assert(citecheck::runs_of(a + m + first).runs == am.ended());
        lemma_runs_stay(a + m + first, rest, k);
        assert(a + m + b =~= a + m + first + rest);
        let end = citecheck::runs_of(a + m + b);
        assert(end.ended()[k] == end.runs[k]);
        assert(citecheck::runs_of(a + m + b).ended()[k].0 == c);
    }
}

// ---- labels and probes -----------------------------------------------------------------------

/// All words of three characters or more are taken, in order.
pub proof fn every_long_word_is_taken(v: Seq<Seq<char>>)
    ensures
        shape::picks(
            v.len() as int,
            |i: int| v[i].len() >= 3,
            |i: int| v[i],
            citemetric::long_words(v),
        ),
    decreases v.len(),
{
    let keep = |i: int| v[i].len() >= 3;
    let value = |i: int| v[i];
    if v.len() == 0 {
        shape::lemma_picks_none(keep, value);
    } else {
        let less = v.drop_last();
        every_long_word_is_taken(less);
        let keep0 = |i: int| less[i].len() >= 3;
        let value0 = |i: int| less[i];
        assert forall|i: int| 0 <= i < less.len() implies (#[trigger] keep0(i) <==> keep(i)) by {
            assert(less[i] == v[i]);
        }
        assert forall|i: int| 0 <= i < less.len() && #[trigger] keep0(i) implies value0(i) == value(
            i,
        ) by {
            assert(less[i] == v[i]);
        }
        shape::lemma_picks_step(
            less.len() as int,
            keep0,
            value0,
            keep,
            value,
            citemetric::long_words(less),
        );
    }
}

/// The places of the words that are among others.
pub open spec fn common_places(a: Seq<Seq<char>>, b: Seq<Seq<char>>, at: Seq<int>) -> bool {
    shape::picked_at(a.len() as int, |i: int| b.contains(a[i]), |i: int| i, at, at)
}

/// The words in common are counted, all of them.
pub proof fn every_common_word_counts(a: Seq<Seq<char>>, b: Seq<Seq<char>>)
    ensures
        exists|at: Seq<int>| #[trigger]
            common_places(a, b, at) && citemetric::common(a, b) == at.len(),
{
    let at = lemma_common(a, b);
}

proof fn lemma_common(a: Seq<Seq<char>>, b: Seq<Seq<char>>) -> (at: Seq<int>)
    ensures
        common_places(a, b, at),
        at.len() == citemetric::common(a, b),
    decreases a.len(),
{
    if a.len() == 0 {
        Seq::empty()
    } else {
        let less = a.drop_last();
        let n = less.len() as int;
        let at0 = lemma_common(less, b);
        let keep0 = |i: int| b.contains(less[i]);
        let keep = |i: int| b.contains(a[i]);
        let at = if b.contains(a[n]) {
            at0.push(n)
        } else {
            at0
        };
        assert forall|i: int| 0 <= i < a.len() && #[trigger] keep(i) implies at.contains(i) by {
            if i < n {
                assert(less[i] == a[i]);
                assert(keep0(i));
                let k = choose|k: int| 0 <= k < at0.len() && at0[k] == i;
                assert(at[k] == i);
            } else {
                assert(at[at0.len() as int] == i);
            }
        }
        assert forall|k: int| 0 <= k < at.len() implies 0 <= #[trigger] at[k] < a.len() && keep(
            at[k],
        ) by {
            if k < at0.len() {
                assert(at[k] == at0[k]);
                assert(keep0(at0[k]));
                assert(less[at0[k]] == a[at0[k]]);
            }
        }
        at
    }
}

/// A label shares enough with the one wanted.
pub open spec fn is_close(label: Seq<char>, want: Seq<Seq<char>>) -> bool {
    citemetric::tokens_in(label).len() > 0 && citemetric::enough_shared(
        citemetric::shared(want, citemetric::tokens_in(label)),
    )
}

proof fn lemma_shared_bounds(a: Seq<Seq<char>>, b: Seq<Seq<char>>)
    ensures
        citemetric::common(a, b) <= a.len(),
    decreases a.len(),
{
    if a.len() > 0 {
        lemma_shared_bounds(a.drop_last(), b);
    }
}

/// The label that is taken is close, none that is close shares more, and none before it as much.
pub proof fn best_labels_share_most(v: Seq<Seq<char>>, want: Seq<Seq<char>>, n: nat)
    requires
        n <= v.len(),
    ensures
        match citemetric::best_label(v, want, n) {
            None => forall|i: int| 0 <= i < n ==> !is_close(#[trigger] v[i], want),
            Some(b) => {
                &&& 0 <= b < n
                &&& is_close(v[b], want)
                &&& forall|i: int|
                    0 <= i < n && is_close(#[trigger] v[i], want) ==> {
                        let s = citemetric::shared(want, citemetric::tokens_in(v[i]));
                        let o = citemetric::shared(want, citemetric::tokens_in(v[b]));
                        s.0 * o.1 <= o.0 * s.1
                    }
                &&& forall|i: int|
                    0 <= i < b && is_close(#[trigger] v[i], want) ==> {
                        let s = citemetric::shared(want, citemetric::tokens_in(v[i]));
                        let o = citemetric::shared(want, citemetric::tokens_in(v[b]));
                        s.0 * o.1 < o.0 * s.1
                    }
            },
        },
    decreases n,
{
    if n > 0 {
        best_labels_share_most(v, want, (n - 1) as nat);
        let m = n - 1;
        let best = citemetric::best_label(v, want, (n - 1) as nat);
        if best is Some && citemetric::best_label(v, want, n) == Some(m) {
            let b = best->0;
            let o = citemetric::shared(want, citemetric::tokens_in(v[b]));
            let t = citemetric::shared(want, citemetric::tokens_in(v[m]));
            assert(t.0 * o.1 > o.0 * t.1);
            lemma_shared_bounds(want, citemetric::tokens_in(v[b]));
            lemma_shared_bounds(want, citemetric::tokens_in(v[m]));
            assert forall|i: int| 0 <= i < m && is_close(#[trigger] v[i], want) implies {
                let s = citemetric::shared(want, citemetric::tokens_in(v[i]));
                s.0 * t.1 < t.0 * s.1
            } by {
                let s = citemetric::shared(want, citemetric::tokens_in(v[i]));
                lemma_shared_bounds(want, citemetric::tokens_in(v[i]));
                assert(s.0 * o.1 <= o.0 * s.1);
                lemma_share_order(s.0, s.1, o.0, o.1, t.0, t.1);
            }
        }
    }
}

proof fn lemma_share_order(a: int, b: int, c: int, d: int, e: int, f: int)
    requires
        b > 0,
        d > 0,
        f > 0,
        a * d <= c * b,
        e * d > c * f,
    ensures
        a * f < e * b,
{
    assert(a * f * d <= c * b * f) by (nonlinear_arith)
        requires
            a * d <= c * b,
            f > 0,
    ;
    assert(c * b * f < e * d * b) by (nonlinear_arith)
        requires
            c * f < e * d,
            b > 0,
    ;
    assert(a * f < e * b) by (nonlinear_arith)
        requires
            a * f * d < e * d * b,
            d > 0,
    ;
}

/// Eight words from a place on are all proper.
pub open spec fn eight_proper(proper: Seq<bool>, i: int) -> bool {
    0 <= i && i + 8 <= proper.len() && forall|k: int| i <= k < i + 8 ==> #[trigger] proper[k]
}

/// A probe begins with the first eight proper words side by side; where there are none, at the start.
pub proof fn probes_begin_with_proper_words(proper: Seq<bool>)
    ensures
        ({
            let at = citemetric::probe_start(proper, 0);
            ||| eight_proper(proper, at) && forall|i: int|
                0 <= i < at ==> !(#[trigger] eight_proper(proper, i))
            ||| at == 0 && forall|i: int| !(#[trigger] eight_proper(proper, i))
        }),
{
    lemma_probe(proper, 0);
}

proof fn lemma_probe(proper: Seq<bool>, from: int)
    requires
        0 <= from,
        forall|i: int| 0 <= i < from ==> !(#[trigger] eight_proper(proper, i)),
    ensures
        ({
            let at = citemetric::probe_start(proper, from);
            ||| eight_proper(proper, at) && forall|i: int|
                0 <= i < at ==> !(#[trigger] eight_proper(proper, i))
            ||| at == 0 && forall|i: int| !(#[trigger] eight_proper(proper, i))
        }),
    decreases proper.len() - from,
{
    assert(eight_proper(proper, from) <==> citemetric::proper_run(proper, from));
    if from + 8 > proper.len() {
        assert forall|i: int| !(#[trigger] eight_proper(proper, i)) by {
            if i >= from {
                assert(i + 8 > proper.len());
            }
        }
    } else if !citemetric::proper_run(proper, from) {
        lemma_probe(proper, from + 1);
    }
}

/// The letters of a text are all counted and all kept.
pub proof fn every_letter_counts(s: Seq<char>)
    ensures
        shape::picks(
            s.len() as int,
            |i: int| unicode::char_alphabetic(s[i]),
            |i: int| s[i],
            citecheck::letters_of(s),
        ),
        citemetric::letters(s) == citecheck::letters_of(s).len(),
    decreases s.len(),
{
    let keep = |i: int| unicode::char_alphabetic(s[i]);
    let value = |i: int| s[i];
    if s.len() == 0 {
        assert(citecheck::letters_of(s) =~= Seq::empty());
        shape::lemma_picks_none(keep, value);
    } else {
        let less = s.drop_last();
        every_letter_counts(less);
        let keep0 = |i: int| unicode::char_alphabetic(less[i]);
        let value0 = |i: int| less[i];
        assert forall|i: int| 0 <= i < less.len() implies (#[trigger] keep0(i) <==> keep(i)) by {
            assert(less[i] == s[i]);
        }
        assert forall|i: int| 0 <= i < less.len() && #[trigger] keep0(i) implies value0(i) == value(
            i,
        ) by {
            assert(less[i] == s[i]);
        }
        shape::lemma_picks_step(
            less.len() as int,
            keep0,
            value0,
            keep,
            value,
            citecheck::letters_of(less),
        );
    }
}

} // verus!
