//! How units are packed into windows, said of the windows and the token counts alone.
use vstd::prelude::*;
use crate::chunk;

verus! {

/// The sum of some counts.
pub open spec fn total(t: Seq<nat>) -> nat
    decreases t.len(),
{
    if t.len() == 0 {
        0
    } else {
        total(t.drop_last()) + t.last()
    }
}

/// A window is the run of units from `i` up to but without `j`.
pub open spec fn is_run(w: Seq<int>, i: int, j: int) -> bool {
    &&& i < j
    &&& w.len() == j - i
    &&& forall|k: int| 0 <= k < w.len() ==> #[trigger] w[k] == i + k
}

/// A window is as full as the target allows: one more unit would pass it, and it passes it only with
/// a single unit.
pub open spec fn is_full(t: Seq<nat>, i: int, j: int, target: nat) -> bool {
    &&& j == i + 1 || total(t.subrange(i, j)) <= target
    &&& j == t.len() || total(t.subrange(i, j)) + t[j] > target
}

/// The next window starts with just the units that the overlap asks for: without the first of them
/// they fall short of it, and with it they do not, unless only the window's first unit is left.
pub open spec fn overlaps(t: Seq<nat>, i: int, j: int, s: int, overlap: nat) -> bool {
    &&& i < s <= j
    &&& s < j ==> total(t.subrange(s + 1, j)) < overlap
    &&& total(t.subrange(s, j)) >= overlap || s == i + 1
}

/// Windows pack the units from `from` on.
pub open spec fn packs(t: Seq<nat>, from: int, target: nat, overlap: nat, w: Seq<Seq<int>>) -> bool {
    &&& (w.len() == 0 <==> from >= t.len())
    &&& w.len() > 0 ==> w[0].len() > 0 && w[0][0] == from && w.last().last() == t.len() - 1
    &&& forall|a: int|
        0 <= a < w.len() ==> {
            &&& is_run(#[trigger] w[a], w[a][0], w[a].last() + 1)
            &&& 0 <= w[a][0] && w[a].last() < t.len()
            &&& is_full(t, w[a][0], w[a].last() + 1, target)
        }
    &&& forall|a: int|
        0 <= a < w.len() - 1 ==> (#[trigger] w[a]).last() + 1 < t.len() && overlaps(
            t,
            w[a][0],
            w[a].last() + 1,
            w[a + 1][0],
            overlap,
        )
}

proof fn lemma_total_push(t: Seq<nat>, i: int, j: int)
    requires
        0 <= i <= j < t.len(),
    ensures
        total(t.subrange(i, j + 1)) == total(t.subrange(i, j)) + t[j],
{
    assert(t.subrange(i, j + 1).drop_last() =~= t.subrange(i, j));
}

proof fn lemma_total_front(t: Seq<nat>, i: int, j: int)
    requires
        0 <= i < j <= t.len(),
    ensures
        total(t.subrange(i, j)) == t[i] + total(t.subrange(i + 1, j)),
    decreases j - i,
{
    if j == i + 1 {
        assert(t.subrange(i, j).drop_last() =~= Seq::<nat>::empty());
        assert(t.subrange(i + 1, j) =~= Seq::<nat>::empty());
        assert(total(Seq::<nat>::empty()) == 0);
    } else {
        lemma_total_front(t, i, j - 1);
        lemma_total_push(t, i, j - 1);
        lemma_total_push(t, i + 1, j - 1);
    }
}

proof fn lemma_end(t: Seq<nat>, i: int, j: int, tok: nat, target: nat)
    requires
        0 <= i < t.len(),
        i <= j <= t.len(),
        tok == total(t.subrange(i, j)),
        j <= i + 1 || tok <= target,
    ensures
        i < chunk::window_end(t, i, j, tok, target) <= t.len(),
        is_full(t, i, chunk::window_end(t, i, j, tok, target), target),
    decreases t.len() - j,
{
    if j < t.len() && (j == i || tok + t[j] <= target) {
        lemma_total_push(t, i, j);
        lemma_end(t, i, j + 1, tok + t[j], target);
    }
}

proof fn lemma_tail(t: Seq<nat>, i: int, j: int, k: int, otok: nat, overlap: nat)
    requires
        0 <= i <= k < j <= t.len(),
        otok == total(t.subrange(k + 1, j)),
        k + 2 <= j ==> total(t.subrange(k + 2, j)) < overlap,
    ensures
        overlaps(t, i, j, k + 1 - chunk::carried(t, i, k, otok, overlap), overlap),
    decreases k - i,
{
    if k > i && otok < overlap {
        lemma_total_front(t, k, j);
        lemma_tail(t, i, j, k - 1, otok + t[k], overlap);
    }
}

proof fn lemma_next(t: Seq<nat>, i: int, j: int, overlap: nat)
    requires
        0 <= i < j <= t.len(),
    ensures
        overlaps(t, i, j, chunk::next_start(t, i, j, overlap), overlap),
{
    assert(t.subrange(j, j) =~= Seq::<nat>::empty());
    lemma_tail(t, i, j, j - 1, 0, overlap);
    chunk::lemma_carried(t, i, j - 1, 0, overlap);
}

/// Windows are filled greedily and overlap by about as much as is asked, and together they hold
/// every unit.
pub proof fn windows_are_full_and_overlap(t: Seq<nat>, i: int, target: nat, overlap: nat)
    requires
        0 <= i,
    ensures
        packs(t, i, target, overlap, chunk::windows_from(t, i, target, overlap)),
    decreases t.len() - i,
{
    let w = chunk::windows_from(t, i, target, overlap);
    if i < t.len() {
        assert(t.subrange(i, i) =~= Seq::<nat>::empty());
        lemma_end(t, i, i, 0, target);
        let j = chunk::window_end(t, i, i, 0, target);
        let first = chunk::range(i, j);
        assert(w[0] == first);
        assert(first.last() == j - 1);
        if j < t.len() {
            lemma_next(t, i, j, overlap);
            let s = chunk::next_start(t, i, j, overlap);
            let rest = chunk::windows_from(t, s, target, overlap);
            windows_are_full_and_overlap(t, s, target, overlap);
            assert(w =~= seq![first] + rest);
            assert(w.last() == rest.last());
            assert forall|a: int| 0 <= a < w.len() implies {
                &&& is_run(#[trigger] w[a], w[a][0], w[a].last() + 1)
                &&& 0 <= w[a][0] && w[a].last() < t.len()
                &&& is_full(t, w[a][0], w[a].last() + 1, target)
            } by {
                if a > 0 {
                    assert(w[a] == rest[a - 1]);
                }
            }
            assert forall|a: int| 0 <= a < w.len() - 1 implies (#[trigger] w[a]).last() + 1
                < t.len() && overlaps(t, w[a][0], w[a].last() + 1, w[a + 1][0], overlap) by {
                assert(w[a + 1] == rest[a]);
                if a > 0 {
                    assert(w[a] == rest[a - 1]);
                    assert(rest[a] == rest[a - 1 + 1]);
                }
            }
        } else {
            assert(w =~= seq![first]);
        }
    }
}

/// A short last window is folded into the one before it and nothing else changes: where there are
/// two windows or more, the last holds at least `min` tokens afterwards, or is made of the last two.
pub proof fn short_tails_are_folded(w: Seq<Seq<int>>, t: Seq<nat>, min: nat)
    ensures
        ({
            let m = chunk::merged(w, t, min);
            let n = w.len() as int;
            if n >= 2 && total(Seq::new(w.last().len(), |k: int| t[w.last()[k]])) < min {
                &&& m.len() == n - 1
                &&& forall|a: int| 0 <= a < n - 2 ==> #[trigger] m[a] == w[a]
                &&& m.last() == w[n - 2] + w[n - 1]
            } else {
                m == w
            }
        }),
{
    if w.len() > 0 {
        lemma_window_total(t, w.last());
    }
}

proof fn lemma_window_total(t: Seq<nat>, w: Seq<int>)
    ensures
        chunk::window_tokens(t, w) == total(Seq::new(w.len(), |k: int| t[w[k]])),
    decreases w.len(),
{
    let s = Seq::new(w.len(), |k: int| t[w[k]]);
    if w.len() > 0 {
        lemma_window_total(t, w.drop_last());
        assert(s.drop_last() =~= Seq::new(w.drop_last().len(), |k: int| t[w.drop_last()[k]]));
    }
}

} // verus!
