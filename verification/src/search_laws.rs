//! What fusion and reranking make of the passages that were found.
use vstd::prelude::*;
use crate::formats::Format;
use crate::query;
use crate::query::ResultV;
use crate::rank;
use crate::rows;
use crate::shape;
use crate::store::RetrievedV;
use crate::text;
use vstd::seq_lib::*;

verus! {

/// A list's passages with their ranks, the first rank being zero.
pub open spec fn with_ranks(lists: Seq<Seq<RetrievedV>>) -> spec_fn(int) -> Seq<(RetrievedV, nat)> {
    |i: int| Seq::new(lists[i].len(), |r: int| (lists[i][r], r as nat))
}

/// Every passage of every list takes part in the fusion, with its rank in that list.
pub proof fn every_list_takes_part(lists: Seq<Seq<RetrievedV>>)
    ensures
        shape::laid(lists.len() as int, with_ranks(lists), query::ranked_lists(lists)),
    decreases lists.len(),
{
    if lists.len() == 0 {
        shape::lemma_laid_none(with_ranks(lists));
    } else {
        let less = lists.drop_last();
        every_list_takes_part(less);
        assert forall|i: int| 0 <= i < less.len() implies #[trigger] with_ranks(less)(i)
            == with_ranks(lists)(i) by {
            assert(less[i] == lists[i]);
            assert(with_ranks(less)(i) =~= with_ranks(lists)(i));
        }
        shape::lemma_laid_step(
            less.len() as int,
            with_ranks(less),
            with_ranks(lists),
            query::ranked_lists(less),
        );
        assert(query::ranked_list(lists.last()) =~= with_ranks(lists)(less.len() as int));
    }
}

/// The identities of ranked passages.
pub open spec fn ids_of(v: Seq<(RetrievedV, nat)>) -> spec_fn(int) -> Option<Seq<char>> {
    |i: int| Some(v[i].0.id)
}

/// Every passage that a list holds is in the pool, once, as it appears first.
pub proof fn pools_hold_every_passage_once(v: Seq<(RetrievedV, nat)>)
    ensures
        shape::picks(
            v.len() as int,
            shape::fresh(ids_of(v)),
            |i: int| v[i].0,
            query::pool(v),
        ),
    decreases v.len(),
{
    let value = |i: int| v[i].0;
    if v.len() == 0 {
        shape::lemma_picks_none(shape::fresh(ids_of(v)), value);
    } else {
        let less = v.drop_last();
        pools_hold_every_passage_once(less);
        let value0 = |i: int| less[i].0;
        let out = query::pool(less);
        let n = less.len() as int;
        let id = v.last().0.id;
        rows::lemma_first_where(out, query::with_id(id));
        assert forall|i: int| 0 <= i < n implies #[trigger] ids_of(less)(i) == ids_of(v)(i) by {
            assert(less[i] == v[i]);
        }
        assert forall|i: int| 0 <= i < n && (#[trigger] ids_of(less)(i)) is Some implies value0(i)
            == value(i) by {
            assert(less[i] == v[i]);
        }
        if exists|k: int| 0 <= k < out.len() && (#[trigger] out[k]).id == id {
            let k = choose|k: int| 0 <= k < out.len() && (#[trigger] out[k]).id == id;
            assert(query::with_id(id)(out[k]));
        }
        let key_of = |c: RetrievedV| c.id;
        assert(forall|k: int| 0 <= k < out.len() ==> key_of(#[trigger] out[k]) == out[k].id);
        shape::lemma_fresh_step(
            n,
            ids_of(less),
            value0,
            ids_of(v),
            value,
            key_of,
            out,
            query::pool(v),
        );
    }
}

/// Passages of several stores are each taken once, as they appear first, and none is left out.
pub proof fn distinct_passages_are_all_there_once(v: Seq<RetrievedV>)
    ensures
        shape::picks(
            v.len() as int,
            shape::fresh(|i: int| Some(v[i].id)),
            |i: int| v[i],
            query::distinct(v),
        ),
    decreases v.len(),
{
    let value = |i: int| v[i];
    let key = |i: int| Some(v[i].id);
    if v.len() == 0 {
        assert(query::distinct(v) =~= Seq::empty());
        shape::lemma_picks_none(shape::fresh(key), value);
    } else {
        let less = v.drop_last();
        distinct_passages_are_all_there_once(less);
        let value0 = |i: int| less[i];
        let key0 = |i: int| Some(less[i].id);
        let out = query::distinct(less);
        let n = less.len() as int;
        let id = v.last().id;
        rows::lemma_first_where(out, query::with_id(id));
        assert forall|i: int| 0 <= i < n implies #[trigger] key0(i) == key(i) by {
            assert(less[i] == v[i]);
        }
        assert forall|i: int| 0 <= i < n && (#[trigger] key0(i)) is Some implies value0(i) == value(
            i,
        ) by {
            assert(less[i] == v[i]);
        }
        if exists|k: int| 0 <= k < out.len() && (#[trigger] out[k]).id == id {
            let k = choose|k: int| 0 <= k < out.len() && (#[trigger] out[k]).id == id;
            assert(query::with_id(id)(out[k]));
        }
        let key_of = |c: RetrievedV| c.id;
        assert(forall|k: int| 0 <= k < out.len() ==> key_of(#[trigger] out[k]) == out[k].id);
        shape::lemma_fresh_step(n, key0, value0, key, value, key_of, out, query::distinct(v));
    }
}

/// A passage scores in every list that holds it: scores add up, and a single rank scores the scale
/// divided by sixty-one and the rank, rounded down.
pub proof fn scores_add_up(a: Seq<(RetrievedV, nat)>, b: Seq<(RetrievedV, nat)>, id: Seq<char>)
    ensures
        query::score_of(a + b, id) == query::score_of(a, id) + query::score_of(b, id),
        b.len() == 0 ==> query::score_of(b, id) == 0,
        b.len() == 1 && b[0].0.id != id ==> query::score_of(b, id) == 0,
        b.len() == 1 && b[0].0.id == id ==> query::score_of(b, id) * (61 + b[0].1)
            <= 1_000_000_000_000_000_000 < (query::score_of(b, id) + 1) * (61 + b[0].1),
    decreases b.len(),
{
    if b.len() == 0 {
        assert(a + b =~= a);
    } else {
        scores_add_up(a, b.drop_last(), id);
        assert((a + b).drop_last() =~= a + b.drop_last());
        if b.len() == 1 && b[0].0.id == id {
            reveal_with_fuel(query::score_of, 2);
            let d = 61 + b[0].1;
            let x: nat = 1_000_000_000_000_000_000;
            let q = x / d;
            assert(q * d <= x && x < (q + 1) * d) by (nonlinear_arith)
                requires
                    q == x / d,
                    d > 0,
            ;
            assert(query::score_of(b, id) == q);
        }
    }
}

/// A better rank never scores less.
pub proof fn better_ranks_score_no_less(r: nat, s: nat)
    requires
        r <= s,
    ensures
        query::gain(r) >= query::gain(s),
{
    let x: nat = 1_000_000_000_000_000_000;
    let a = 61 + r;
    let b = 61 + s;
    assert(x / a >= x / b) by (nonlinear_arith)
        requires
            0 < a <= b,
    ;
}

/// The first of a sorted list are the best: what is left out scores no higher than what is kept.
proof fn lemma_top(s: Seq<(RetrievedV, int)>, k: nat, x: (RetrievedV, int))
    ensures
        ({
            let t = query::top(rank::sorted(s, query::higher()), k);
            &&& t.len() == if s.len() <= k { s.len() } else { k }
            &&& t.contains(x) ==> s.contains(x)
            &&& s.contains(x) && !t.contains(x) ==> forall|i: int|
                0 <= i < t.len() ==> (#[trigger] t[i]).1 >= x.1
            &&& forall|i: int, j: int|
                0 <= i < j < t.len() ==> (#[trigger] t[i]).1 >= (#[trigger] t[j]).1
        }),
{
    let h = query::higher();
    let r = rank::sorted(s, h);
    let t = query::top(r, k);
    assert(rank::orders(h));
    rank::sorting_keeps_the_elements(s, h);
    rank::sorting_puts_in_order(s, h);
    broadcast use group_to_multiset_ensures;

    assert(s.contains(x) <==> s.to_multiset().count(x) > 0);
    assert(r.contains(x) <==> r.to_multiset().count(x) > 0);
    if t.contains(x) {
        let i = choose|i: int| 0 <= i < t.len() && t[i] == x;
        assert(r[i] == x);
    }
    if s.contains(x) && !t.contains(x) {
        let j = choose|j: int| 0 <= j < r.len() && r[j] == x;
        if j < t.len() {
            assert(t[j] == x);
        }
        assert forall|i: int| 0 <= i < t.len() implies (#[trigger] t[i]).1 >= x.1 by {
            assert(t[i] == r[i]);
            assert(!h(r[j], r[i]));
        }
    }
    assert forall|i: int, j: int| 0 <= i < j < t.len() implies (#[trigger] t[i]).1 >= (
    #[trigger] t[j]).1 by {
        assert(!h(r[j], r[i]));
    }
}

/// The fusion gives the best: it has `k` passages or as many as there are, each from a list, higher
/// scores first, and a passage that it leaves out scores no higher than any that it gives.
pub proof fn fusion_gives_the_best(lists: Seq<Seq<RetrievedV>>, k: nat)
    ensures
        ({
            let v = query::ranked_lists(lists);
            let p = query::pool(v);
            let f = query::fused(lists, k);
            &&& f.len() == if p.len() <= k { p.len() } else { k }
            &&& forall|i: int| 0 <= i < f.len() ==> p.contains(#[trigger] f[i])
            &&& forall|i: int, j: int|
                0 <= i < j < f.len() ==> query::score_of(v, (#[trigger] f[i]).id)
                    >= query::score_of(v, (#[trigger] f[j]).id)
            &&& forall|c: RetrievedV, i: int|
                0 <= i < f.len() && #[trigger] p.contains(c) && !f.contains(c) ==> query::score_of(
                    v,
                    (#[trigger] f[i]).id,
                ) >= query::score_of(v, c.id)
        }),
{
    let v = query::ranked_lists(lists);
    let p = query::pool(v);
    let s = query::scored_pool(v);
    let t = query::top(rank::sorted(s, query::higher()), k);
    let f = query::fused(lists, k);
    assert(s.len() == p.len());
    lemma_top(s, k, arbitrary());
    assert forall|i: int| 0 <= i < f.len() implies p.contains(#[trigger] f[i]) && t[i].1
        == query::score_of(v, f[i].id) by {
        lemma_top(s, k, t[i]);
        assert(t.contains(t[i]));
        let j = choose|j: int| 0 <= j < s.len() && s[j] == t[i];
        assert(p[j] == f[i]);
    }
    assert forall|i: int, j: int| 0 <= i < j < f.len() implies query::score_of(
        v,
        (#[trigger] f[i]).id,
    ) >= query::score_of(v, (#[trigger] f[j]).id) by {
        assert(t[i].1 >= t[j].1);
    }
    assert forall|c: RetrievedV, i: int|
        0 <= i < f.len() && #[trigger] p.contains(c) && !f.contains(c) implies query::score_of(
        v,
        (#[trigger] f[i]).id,
    ) >= query::score_of(v, c.id) by {
        let j = choose|j: int| 0 <= j < p.len() && p[j] == c;
        let x = s[j];
        if t.contains(x) {
            let m = choose|m: int| 0 <= m < t.len() && t[m] == x;
            assert(f[m] == c);
        }
        assert(s.contains(x));
        lemma_top(s, k, x);
        assert(t[i].1 >= x.1);
    }
}

/// A result tells of its candidate what the candidate holds, with its score.
pub open spec fn shows(r: ResultV, c: RetrievedV, score: i64) -> bool {
    &&& r.score == score
    &&& r.text == c.text
    &&& r.citation == query::citation_of(c)
    &&& r.title == c.title
    &&& r.author == c.author
    &&& r.chapter == c.chapter
    &&& r.page == c.page
    &&& r.source_path == c.source_path
    &&& r.book_id == c.book_id
    &&& r.id == c.id
}

/// Reranking gives the best: `k` results or one for each candidate that was scored, each with its
/// candidate's own score, and a candidate that is left out scores no higher than any that is given.
pub proof fn reranking_gives_the_best(candidates: Seq<RetrievedV>, scores: Seq<i64>, k: nat)
    requires
        candidates.len() == scores.len(),
    ensures
        ({
            let r = query::reranked(candidates, scores, k);
            &&& r.len() == if scores.len() <= k { scores.len() } else { k }
            &&& forall|i: int|
                0 <= i < r.len() ==> exists|j: int|
                    0 <= j < scores.len() && shows(
                        #[trigger] r[i],
                        #[trigger] candidates[j],
                        scores[j],
                    )
            &&& forall|j: int, i: int|
                0 <= j < scores.len() && 0 <= i < r.len() ==> (#[trigger] r[i]).score >= scores[j]
                    || exists|m: int|
                    0 <= m < r.len() && shows(
                        #[trigger] r[m],
                        #[trigger] candidates[j],
                        scores[j],
                    )
        }),
{
    let s = query::judged(candidates, scores);
    let t = query::top(rank::sorted(s, query::higher()), k);
    let r = query::reranked(candidates, scores, k);
    lemma_top(s, k, arbitrary());
    assert forall|i: int| 0 <= i < r.len() implies exists|j: int|
        0 <= j < scores.len() && shows(#[trigger] r[i], #[trigger] candidates[j], scores[j]) by {
        lemma_top(s, k, t[i]);
        assert(t.contains(t[i]));
        let j = choose|j: int| 0 <= j < s.len() && s[j] == t[i];
        assert(shows(r[i], candidates[j], scores[j]));
    }
    assert forall|j: int, i: int| 0 <= j < scores.len() && 0 <= i < r.len() implies (
    #[trigger] r[i]).score >= scores[j] || exists|m: int|
        0 <= m < r.len() && shows(#[trigger] r[m], #[trigger] candidates[j], scores[j]) by {
        let x = s[j];
        assert(s.contains(x));
        lemma_top(s, k, x);
        if t.contains(x) {
            let m = choose|m: int| 0 <= m < t.len() && t[m] == x;
            assert(shows(r[m], candidates[j], scores[j]));
        } else {
            assert(t[i].1 >= x.1);
            lemma_top(s, k, t[i]);
            assert(t.contains(t[i]));
            let q = choose|q: int| 0 <= q < s.len() && s[q] == t[i];
            assert(r[i].score == scores[q]);
        }
    }
}

/// An element of which neither precedes the other.
pub open spec fn level<A>(x: A, precedes: spec_fn(A, A) -> bool) -> spec_fn(A) -> bool {
    |y: A| !precedes(x, y) && !precedes(y, x)
}

proof fn lemma_inserted_keeps<A>(s: Seq<A>, x: A, precedes: spec_fn(A, A) -> bool, c: A)
    requires
        rank::orders(precedes),
    ensures
        rows::keep(rank::inserted(s, x, precedes), level(c, precedes)) == if level(c, precedes)(x) {
            rows::keep(s, level(c, precedes)).push(x)
        } else {
            rows::keep(s, level(c, precedes))
        },
    decreases s.len(),
{
    let p = level(c, precedes);
    if s.len() == 0 {
        rows::lemma_keep_push(s, p, x);
        assert(s.push(x) =~= seq![x]);
    } else if precedes(x, s.last()) {
        let less = s.drop_last();
        lemma_inserted_keeps(less, x, precedes, c);
        rows::lemma_keep_push(rank::inserted(less, x, precedes), p, s.last());
        if p(x) && p(s.last()) {
            assert(!precedes(x, c) && !precedes(c, s.last()));
            assert(!precedes(x, s.last()));
        }
    } else {
        rows::lemma_keep_push(s, p, x);
    }
}

/// Sorting is stable: elements that are level stand in the order they had.
pub proof fn sorting_keeps_ties_in_order<A>(s: Seq<A>, precedes: spec_fn(A, A) -> bool, c: A)
    requires
        rank::orders(precedes),
    ensures
        rows::keep(rank::sorted(s, precedes), level(c, precedes)) == rows::keep(
            s,
            level(c, precedes),
        ),
    decreases s.len(),
{
    if s.len() > 0 {
        sorting_keeps_ties_in_order(s.drop_last(), precedes, c);
        lemma_inserted_keeps(
            rank::sorted(s.drop_last(), precedes),
            s.last(),
            precedes,
            c,
        );
    }
}

/// A citation begins with the title; it names an author and a chapter that are known; of a PDF it
/// ends with a known page, and of anything without a chapter with the offset.
pub proof fn citations_name_book_and_place(c: RetrievedV)
    ensures
        ({
            let t = query::citation_of(c);
            let by = if c.author is Some && c.author->0.len() > 0 {
                c.title + " — "@ + c.author->0
            } else {
                c.title
            };
            let paged = c.format == Some(Format::Pdf) && c.page is Some;
            let named = c.chapter is Some && c.chapter->0.len() > 0;
            &&& !paged && c.chapter is Some && !named ==> t == by
            &&& !paged && named ==> t == by + " · "@ + ("Ch. "@ + c.chapter->0)
            &&& paged && named ==> t == by + " · "@ + ("Ch. "@ + c.chapter->0 + ", "@ + ("p."@
                + text::decimal(c.page->0 as nat)))
            &&& paged && !named ==> t == by + " · "@ + ("p."@ + text::decimal(c.page->0 as nat))
            &&& !paged && c.chapter is None ==> t == by + " · "@ + ("~loc "@ + (if c.loc_start < 0 {
                "-"@ + text::decimal((-c.loc_start) as nat)
            } else {
                text::decimal(c.loc_start as nat)
            }))
        }),
{
    let place = query::citation_place(c);
    reveal_with_fuel(text::join, 2);
    if place.len() == 2 {
        assert(place.drop_last().len() == 1);
        assert(place.drop_last()[0] == place[0]);
    }
}

} // verus!
