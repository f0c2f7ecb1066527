//! Tables as ordered lists of rows: searching them and dropping rows from them.
use vstd::prelude::*;

verus! {

/// The views of a list of values.
pub open spec fn vals<T: View>(v: Seq<T>) -> Seq<T::V> {
    Seq::new(v.len(), |i: int| v[i]@)
}

pub proof fn lemma_vals_push<T: View>(v: Seq<T>, x: T)
    ensures
        vals(v.push(x)) == vals(v).push(x@),
{
    assert(vals(v.push(x)) =~= vals(v).push(x@));
}

/// The position of the first row that satisfies `p`.
pub open spec fn first_where<A>(s: Seq<A>, p: spec_fn(A) -> bool) -> Option<int>
    decreases s.len(),
{
    if s.len() == 0 {
        None
    } else {
        match first_where(s.drop_last(), p) {
            Some(i) => Some(i),
            None => if p(s.last()) {
                Some(s.len() - 1)
            } else {
                None
            },
        }
    }
}

/// The first row that satisfies `p`.
pub open spec fn find_row<A>(s: Seq<A>, p: spec_fn(A) -> bool) -> Option<A> {
    match first_where(s, p) {
        Some(i) => Some(s[i]),
        None => None,
    }
}

pub proof fn lemma_first_where<A>(s: Seq<A>, p: spec_fn(A) -> bool)
    ensures
        match first_where(s, p) {
            Some(i) => 0 <= i < s.len() && p(s[i]) && forall|j: int|
                0 <= j < i ==> !p(#[trigger] s[j]),
            None => forall|j: int| 0 <= j < s.len() ==> !p(#[trigger] s[j]),
        },
    decreases s.len(),
{
    if s.len() > 0 {
        let t = s.drop_last();
        lemma_first_where(t, p);
        match first_where(t, p) {
            Some(i) => {
                assert(t[i] == s[i]);
                assert forall|j: int| 0 <= j < i implies !p(#[trigger] s[j]) by {
                    assert(t[j] == s[j]);
                }
            },
            None => {
                assert forall|j: int| 0 <= j < s.len() - 1 implies !p(#[trigger] s[j]) by {
                    assert(t[j] == s[j]);
                }
            },
        }
    }
}

/// Only the position of the first match has the properties of a first match.
pub proof fn lemma_first_where_is<A>(s: Seq<A>, p: spec_fn(A) -> bool, i: int)
    requires
        0 <= i < s.len(),
        p(s[i]),
        forall|j: int| 0 <= j < i ==> !p(#[trigger] s[j]),
    ensures
        first_where(s, p) == Some(i),
{
    lemma_first_where(s, p);
}

pub proof fn lemma_first_where_none<A>(s: Seq<A>, p: spec_fn(A) -> bool)
    requires
        forall|j: int| 0 <= j < s.len() ==> !p(#[trigger] s[j]),
    ensures
        first_where(s, p) is None,
{
    lemma_first_where(s, p);
}

/// Finds the first row that satisfies the predicate.
pub fn find_where<T: View, F: Fn(&T) -> bool>(
    v: &Vec<T>,
    f: F,
    Ghost(p): Ghost<spec_fn(T::V) -> bool>,
) -> (r: Option<usize>)
    requires
        forall|t: &T| #[trigger] f.requires((t,)),
        forall|t: &T, b: bool| #[trigger] f.ensures((t,), b) ==> b == p(t@),
    ensures
        match r {
            Some(i) => i < v@.len() && first_where(vals(v@), p) == Some(i as int),
            None => first_where(vals(v@), p) is None,
        },
{
    for i in 0..v.len()
        invariant
            forall|t: &T| #[trigger] f.requires((t,)),
            forall|t: &T, b: bool| #[trigger] f.ensures((t,), b) ==> b == p(t@),
            forall|j: int| 0 <= j < i ==> !p(#[trigger] vals(v@)[j]),
    {
        if f(&v[i]) {
            proof {
                assert(vals(v@)[i as int] == v@[i as int]@);
                lemma_first_where_is(vals(v@), p, i as int);
            }
            return Some(i);
        }
        assert(vals(v@)[i as int] == v@[i as int]@);
    }
    proof {
        lemma_first_where_none(vals(v@), p);
    }
    None
}

/// The rows that satisfy `p`, in order.
pub open spec fn keep<A>(s: Seq<A>, p: spec_fn(A) -> bool) -> Seq<A>
    decreases s.len(),
{
    if s.len() == 0 {
        s
    } else if p(s.last()) {
        keep(s.drop_last(), p).push(s.last())
    } else {
        keep(s.drop_last(), p)
    }
}

pub proof fn lemma_keep_push<A>(s: Seq<A>, p: spec_fn(A) -> bool, x: A)
    ensures
        keep(s.push(x), p) == if p(x) {
            keep(s, p).push(x)
        } else {
            keep(s, p)
        },
{
    assert(s.push(x).drop_last() =~= s);
}

/// What is kept is what satisfies the predicate.
pub proof fn lemma_keep<A>(s: Seq<A>, p: spec_fn(A) -> bool)
    ensures
        keep(s, p).len() <= s.len(),
        forall|j: int| 0 <= j < keep(s, p).len() ==> p(#[trigger] keep(s, p)[j]),
        forall|j: int| 0 <= j < keep(s, p).len() ==> s.contains(#[trigger] keep(s, p)[j]),
        forall|x: A| s.contains(x) && p(x) ==> #[trigger] keep(s, p).contains(x),
    decreases s.len(),
{
    if s.len() > 0 {
        let t = s.drop_last();
        lemma_keep(t, p);
        let k = keep(s, p);
        assert forall|j: int| 0 <= j < k.len() implies s.contains(#[trigger] k[j]) by {
            if j < keep(t, p).len() {
                assert(k[j] == keep(t, p)[j]);
                assert(t.contains(k[j]));
                let m = choose|m: int| 0 <= m < t.len() && t[m] == k[j];
                assert(s[m] == k[j]);
            } else {
                assert(s[s.len() - 1] == k[j]);
            }
        }
        assert forall|x: A| s.contains(x) && p(x) implies #[trigger] k.contains(x) by {
            let m = choose|m: int| 0 <= m < s.len() && s[m] == x;
            if m < s.len() - 1 {
                assert(t[m] == x);
                assert(keep(t, p).contains(x));
                let q = choose|q: int| 0 <= q < keep(t, p).len() && keep(t, p)[q] == x;
                assert(k[q] == x);
            } else {
                assert(k[k.len() - 1] == x);
            }
        }
    }
}

/// Keeping by two predicates that agree on the rows at hand keeps the same rows.
pub proof fn lemma_keep_same<A>(s: Seq<A>, p: spec_fn(A) -> bool, q: spec_fn(A) -> bool)
    requires
        forall|j: int| 0 <= j < s.len() ==> p(#[trigger] s[j]) == q(s[j]),
    ensures
        keep(s, p) == keep(s, q),
    decreases s.len(),
{
    if s.len() > 0 {
        assert(p(s[s.len() - 1]) == q(s[s.len() - 1]));
        lemma_keep_same(s.drop_last(), p, q);
    }
}

/// Drops every row that satisfies the predicate and says how many went.
pub fn drop_where<T: View, F: Fn(&T) -> bool>(
    v: &mut Vec<T>,
    f: F,
    Ghost(p): Ghost<spec_fn(T::V) -> bool>,
) -> (n: usize)
    requires
        forall|t: &T| #[trigger] f.requires((t,)),
        forall|t: &T, b: bool| #[trigger] f.ensures((t,), b) ==> b == p(t@),
    ensures
        vals(final(v)@) == keep(vals(old(v)@), |x: T::V| !p(x)),
        n == old(v)@.len() - final(v)@.len(),
{
    let ghost all = v@;
    let total: usize = v.len();
    let ghost q = |x: T::V| !p(x);
    let mut i: usize = 0;
    let mut n: usize = 0;
    assert(vals(v@.take(0)) =~= keep(vals(all).take(0), q));
    while i < v.len()
        invariant
            forall|t: &T| #[trigger] f.requires((t,)),
            forall|t: &T, b: bool| #[trigger] f.ensures((t,), b) ==> b == p(t@),
            q == (|x: T::V| !p(x)),
            i <= v@.len(),
            n + v@.len() == all.len(),
            all.len() == total,
            v@.skip(i as int) == all.skip(i + n),
            vals(v@.take(i as int)) == keep(vals(all).take(i + n), q),
        decreases v@.len() - i,
    {
        let ghost before = v@;
        let gone = f(&v[i]);
        proof {
            let k = (i + n) as int;
            assert(before.skip(i as int)[0] == all.skip(k)[0]);
            assert(before[i as int] == all[k]);
            assert(vals(all).take(k + 1) =~= vals(all).take(k).push(all[k]@));
            lemma_keep_push(vals(all).take(k), q, all[k]@);
            assert(before.skip(i as int + 1) =~= before.skip(i as int).skip(1));
            assert(all.skip(k + 1) =~= all.skip(k).skip(1));
        }
        if gone {
            v.remove(i);
            n = n + 1;
            assert(v@.take(i as int) =~= before.take(i as int));
            assert(v@.skip(i as int) =~= before.skip(i as int + 1));
        } else {
            assert(before.take(i as int + 1) =~= before.take(i as int).push(before[i as int]));
            proof {
                lemma_vals_push(before.take(i as int), before[i as int]);
            }
            i = i + 1;
        }
    }
    assert(v@.take(i as int) =~= v@);
    assert(vals(all).take(all.len() as int) =~= vals(all));
    n
}

/// Counts the rows that satisfy the predicate.
pub fn count_where<T: View, F: Fn(&T) -> bool>(
    v: &Vec<T>,
    f: F,
    Ghost(p): Ghost<spec_fn(T::V) -> bool>,
) -> (n: usize)
    requires
        forall|t: &T| #[trigger] f.requires((t,)),
        forall|t: &T, b: bool| #[trigger] f.ensures((t,), b) ==> b == p(t@),
    ensures
        n == keep(vals(v@), p).len(),
{
    let mut n: usize = 0;
    for i in 0..v.len()
        invariant
            forall|t: &T| #[trigger] f.requires((t,)),
            forall|t: &T, b: bool| #[trigger] f.ensures((t,), b) ==> b == p(t@),
            n <= i,
            n == keep(vals(v@).take(i as int), p).len(),
    {
        proof {
            let s = vals(v@).take(i as int);
            assert(vals(v@).take(i as int + 1) =~= s.push(v@[i as int]@));
            lemma_keep_push(s, p, v@[i as int]@);
        }
        if f(&v[i]) {
            n = n + 1;
        }
    }
    assert(vals(v@).take(v@.len() as int) =~= vals(v@));
    n
}

} // verus!
