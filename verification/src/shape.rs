//! How a list can be made of others: by picking entries, or by laying parts end to end.
use vstd::prelude::*;

verus! {

/// The entries of a list are the values of the kept places below `n`, in order: `at` gives the place
/// of each.
pub open spec fn picked_at<B>(
    n: int,
    keep: spec_fn(int) -> bool,
    value: spec_fn(int) -> B,
    out: Seq<B>,
    at: Seq<int>,
) -> bool {
    &&& at.len() == out.len()
    &&& forall|k: int| 0 <= k < at.len() ==> 0 <= #[trigger] at[k] < n && keep(at[k])
    &&& forall|k: int| 0 <= k < at.len() ==> out[k] == value(#[trigger] at[k])
    &&& forall|k: int, l: int| 0 <= k < l < at.len() ==> #[trigger] at[k] < #[trigger] at[l]
    &&& forall|i: int| 0 <= i < n && #[trigger] keep(i) ==> at.contains(i)
}

/// A list holds, for each kept place below `n` and for no other, its value, once and in order.
pub open spec fn picks<B>(
    n: int,
    keep: spec_fn(int) -> bool,
    value: spec_fn(int) -> B,
    out: Seq<B>,
) -> bool {
    exists|at: Seq<int>| #[trigger] picked_at(n, keep, value, out, at)
}

/// Some lists laid end to end: the one at each place below `n` stands between two cuts.
pub open spec fn laid_at<B>(n: int, part: spec_fn(int) -> Seq<B>, out: Seq<B>, cut: Seq<int>) -> bool {
    &&& cut.len() == n + 1
    &&& cut[0] == 0
    &&& cut[n] == out.len()
    &&& forall|i: int|
        0 <= i < n ==> 0 <= #[trigger] cut[i] <= cut[i + 1] <= out.len() && out.subrange(
            cut[i],
            cut[i + 1],
        ) == part(i)
}

/// A list is the parts at the places below `n`, each right after the one before, and nothing else.
pub open spec fn laid<B>(n: int, part: spec_fn(int) -> Seq<B>, out: Seq<B>) -> bool {
    exists|cut: Seq<int>| #[trigger] laid_at(n, part, out, cut)
}

/// Of no place, nothing is picked.
pub proof fn lemma_picks_none<B>(keep: spec_fn(int) -> bool, value: spec_fn(int) -> B)
    ensures
        picks(0, keep, value, Seq::empty()),
{
    assert(picked_at(0, keep, value, Seq::empty(), Seq::empty()));
}

/// One more place adds its value, or nothing.
pub proof fn lemma_picks_step<B>(
    n: int,
    keep: spec_fn(int) -> bool,
    value: spec_fn(int) -> B,
    keep2: spec_fn(int) -> bool,
    value2: spec_fn(int) -> B,
    out: Seq<B>,
)
    requires
        n >= 0,
        picks(n, keep, value, out),
        forall|i: int| 0 <= i < n ==> (#[trigger] keep(i) <==> keep2(i)),
        forall|i: int| 0 <= i < n && #[trigger] keep(i) ==> value(i) == value2(i),
    ensures
        picks(
            n + 1,
            keep2,
            value2,
            if keep2(n) {
                out.push(value2(n))
            } else {
                out
            },
        ),
{
    let at = choose|at: Seq<int>| #[trigger] picked_at(n, keep, value, out, at);
    assert forall|i: int| 0 <= i < n && #[trigger] keep2(i) implies at.contains(i) by {
        assert(keep(i));
    }
    if keep2(n) {
        let more = at.push(n);
        let made = out.push(value2(n));
        assert forall|i: int| 0 <= i < n + 1 && #[trigger] keep2(i) implies more.contains(i) by {
            if i < n {
                let k = choose|k: int| 0 <= k < at.len() && at[k] == i;
                assert(more[k] == i);
            } else {
                assert(more[at.len() as int] == i);
            }
        }
        assert forall|k: int| 0 <= k < more.len() implies 0 <= #[trigger] more[k] < n + 1 && keep2(
            more[k],
        ) && made[k] == value2(more[k]) by {
            if k < at.len() {
                assert(more[k] == at[k]);
                assert(keep(at[k]));
            }
        }
        assert(picked_at(n + 1, keep2, value2, made, more));
    } else {
        assert forall|k: int| 0 <= k < at.len() implies 0 <= #[trigger] at[k] < n + 1 && keep2(at[k])
            && out[k] == value2(at[k]) by {
            assert(keep(at[k]));
        }
        assert(picked_at(n + 1, keep2, value2, out, at));
    }
}

/// Of no part, nothing is laid.
pub proof fn lemma_laid_none<B>(part: spec_fn(int) -> Seq<B>)
    ensures
        laid(0, part, Seq::empty()),
{
    assert(laid_at(0, part, Seq::empty(), seq![0int]));
}

/// One more part stands at the end.
pub proof fn lemma_laid_step<B>(
    n: int,
    part: spec_fn(int) -> Seq<B>,
    part2: spec_fn(int) -> Seq<B>,
    out: Seq<B>,
)
    requires
        n >= 0,
        laid(n, part, out),
        forall|i: int| 0 <= i < n ==> #[trigger] part(i) == part2(i),
    ensures
        laid(n + 1, part2, out + part2(n)),
{
    let cut = choose|cut: Seq<int>| #[trigger] laid_at(n, part, out, cut);
    let made = out + part2(n);
    let more = cut.push(made.len() as int);
    assert forall|i: int| 0 <= i < n + 1 implies 0 <= #[trigger] more[i] <= more[i + 1] <= made.len()
        && made.subrange(more[i], more[i + 1]) == part2(i) by {
        if i < n {
            assert(more[i] == cut[i] && more[i + 1] == cut[i + 1]);
            assert(made.subrange(more[i], more[i + 1]) =~= out.subrange(cut[i], cut[i + 1]));
            assert(part(i) == part2(i));
        } else {
            assert(made.subrange(more[n], more[n + 1]) =~= part2(n));
        }
    }
    assert(laid_at(n + 1, part2, made, more));
}

/// One more part stands at the front.
pub proof fn lemma_laid_front<B>(
    n: int,
    part: spec_fn(int) -> Seq<B>,
    part2: spec_fn(int) -> Seq<B>,
    out: Seq<B>,
)
    requires
        n >= 0,
        laid(n, part, out),
        forall|i: int| 0 <= i < n ==> #[trigger] part(i) == part2(i + 1),
    ensures
        laid(n + 1, part2, part2(0) + out),
{
    let cut = choose|cut: Seq<int>| #[trigger] laid_at(n, part, out, cut);
    let head = part2(0);
    let made = head + out;
    let more = Seq::new(
        (n + 2) as nat,
        |i: int| if i == 0 { 0 } else { cut[i - 1] + head.len() },
    );
    assert forall|i: int| 0 <= i < n + 1 implies 0 <= #[trigger] more[i] <= more[i + 1] <= made.len()
        && made.subrange(more[i], more[i + 1]) == part2(i) by {
        if i > 0 {
            assert(cut[i - 1] <= cut[i - 1 + 1]);
            assert(made.subrange(more[i], more[i + 1]) =~= out.subrange(cut[i - 1], cut[i]));
            assert(part(i - 1) == part2(i - 1 + 1));
        } else {
            assert(more[1] == cut[0] + head.len());
            assert(made.subrange(more[0], more[1]) =~= part2(0));
        }
    }
    assert(laid_at(n + 1, part2, made, more));
}

/// Of laid parts every one can be found in the whole, in order.
pub proof fn lemma_laid_holds<B>(n: int, part: spec_fn(int) -> Seq<B>, out: Seq<B>, i: int)
    requires
        laid(n, part, out),
        0 <= i < n,
    ensures
        exists|a: int|
            0 <= a && a + part(i).len() <= out.len() && #[trigger] out.subrange(
                a,
                a + part(i).len(),
            ) == part(i),
{
    let cut = choose|cut: Seq<int>| #[trigger] laid_at(n, part, out, cut);
    let a = cut[i];
    assert(out.subrange(a, cut[i + 1]) == part(i));
    assert(cut[i + 1] == a + part(i).len());
}

/// A place is the first with its key.
pub open spec fn fresh<K>(key: spec_fn(int) -> Option<K>) -> spec_fn(int) -> bool {
    |i: int| key(i) is Some && forall|j: int| 0 <= j < i ==> #[trigger] key(j) != key(i)
}

/// Of every key the first place is picked.
pub proof fn lemma_fresh_holds<K, B>(
    n: int,
    key: spec_fn(int) -> Option<K>,
    value: spec_fn(int) -> B,
    out: Seq<B>,
    at: Seq<int>,
    i: int,
) -> (k: int)
    requires
        picked_at(n, fresh(key), value, out, at),
        0 <= i < n,
        key(i) is Some,
    ensures
        0 <= k < out.len(),
        0 <= at[k] <= i,
        key(at[k]) == key(i),
        out[k] == value(at[k]),
    decreases i,
{
    if fresh(key)(i) {
        let k = choose|k: int| 0 <= k < at.len() && at[k] == i;
        k
    } else {
        let j = choose|j: int| 0 <= j < i && #[trigger] key(j) == key(i);
        lemma_fresh_holds(n, key, value, out, at, j)
    }
}

/// A fold that adds a value where its key is new picks the first place of every key.
pub proof fn lemma_fresh_step<K, B>(
    n: int,
    key: spec_fn(int) -> Option<K>,
    value: spec_fn(int) -> B,
    key2: spec_fn(int) -> Option<K>,
    value2: spec_fn(int) -> B,
    key_of: spec_fn(B) -> K,
    out: Seq<B>,
    next: Seq<B>,
)
    requires
        n >= 0,
        picks(n, fresh(key), value, out),
        forall|i: int| 0 <= i < n ==> #[trigger] key(i) == key2(i),
        forall|i: int| 0 <= i < n && (#[trigger] key(i)) is Some ==> value(i) == value2(i),
        forall|i: int|
            0 <= i <= n && (#[trigger] key2(i)) is Some ==> key_of(value2(i)) == key2(i)->0,
        key2(n) is None ==> next == out,
        key2(n) is Some && (exists|k: int|
            0 <= k < out.len() && key_of(#[trigger] out[k]) == key2(n)->0) ==> next == out,
        key2(n) is Some && !(exists|k: int|
            0 <= k < out.len() && key_of(#[trigger] out[k]) == key2(n)->0) ==> next == out.push(
            value2(n),
        ),
    ensures
        picks(n + 1, fresh(key2), value2, next),
{
    let at = choose|at: Seq<int>| #[trigger] picked_at(n, fresh(key), value, out, at);
    assert forall|i: int| 0 <= i < n implies (#[trigger] fresh(key)(i) <==> fresh(key2)(i)) by {
        assert(key(i) == key2(i));
        if fresh(key)(i) {
            assert forall|j: int| 0 <= j < i implies #[trigger] key2(j) != key2(i) by {
                assert(key(j) == key2(j));
            }
        }
        if fresh(key2)(i) {
            assert forall|j: int| 0 <= j < i implies #[trigger] key(j) != key(i) by {
                assert(key(j) == key2(j));
            }
        }
    }
    lemma_picks_step(n, fresh(key), value, fresh(key2), value2, out);
    if key2(n) is Some {
        let seen = exists|k: int| 0 <= k < out.len() && key_of(#[trigger] out[k]) == key2(n)->0;
        if seen {
            let k = choose|k: int| 0 <= k < out.len() && key_of(#[trigger] out[k]) == key2(n)->0;
            let i = at[k];
            assert(fresh(key)(i));
            assert(key(i) == key2(i));
            assert(out[k] == value(i));
            assert(key2(i) == key2(n));
            assert(!fresh(key2)(n));
        } else if !fresh(key2)(n) {
            let j = choose|j: int| 0 <= j < n && #[trigger] key2(j) == key2(n);
            assert(key(j) == key2(j));
            let k = lemma_fresh_holds(n, key, value, out, at, j);
            assert(key(at[k]) == key2(at[k]));
            assert(key_of(out[k]) == key2(n)->0);
        }
    }
}

/// Keeping rows picks those that satisfy the predicate, each once, in order.
pub proof fn keeping_picks<A>(s: Seq<A>, p: spec_fn(A) -> bool)
    ensures
        picks(s.len() as int, |i: int| p(s[i]), |i: int| s[i], crate::rows::keep(s, p)),
    decreases s.len(),
{
    let keep = |i: int| p(s[i]);
    let value = |i: int| s[i];
    if s.len() == 0 {
        assert(crate::rows::keep(s, p) =~= Seq::empty());
        lemma_picks_none(keep, value);
    } else {
        let less = s.drop_last();
        keeping_picks(less, p);
        let keep0 = |i: int| p(less[i]);
        let value0 = |i: int| less[i];
        assert forall|i: int| 0 <= i < less.len() implies (#[trigger] keep0(i) <==> keep(i)) by {
            assert(less[i] == s[i]);
        }
        assert forall|i: int| 0 <= i < less.len() && #[trigger] keep0(i) implies value0(i) == value(
            i,
        ) by {
            assert(less[i] == s[i]);
        }
        lemma_picks_step(
            less.len() as int,
            keep0,
            value0,
            keep,
            value,
            crate::rows::keep(less, p),
        );
    }
}

} // verus!
