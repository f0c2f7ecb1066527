//! Stable sorting by any order.
use vstd::prelude::*;
use vstd::seq_lib::*;
use crate::rows;

verus! {

/// A sorted list with one more element, put behind all that it does not precede.
pub open spec fn inserted<A>(s: Seq<A>, x: A, precedes: spec_fn(A, A) -> bool) -> Seq<A>
    decreases s.len(),
{
    if s.len() == 0 {
        seq![x]
    } else if precedes(x, s.last()) {
        inserted(s.drop_last(), x, precedes).push(s.last())
    } else {
        s.push(x)
    }
}

/// A list sorted by what precedes what; elements of which neither precedes the other keep their
/// order.
pub open spec fn sorted<A>(s: Seq<A>, precedes: spec_fn(A, A) -> bool) -> Seq<A>
    decreases s.len(),
{
    if s.len() == 0 {
        s
    } else {
        inserted(sorted(s.drop_last(), precedes), s.last(), precedes)
    }
}

/// No element precedes an earlier one.
pub open spec fn in_order<A>(s: Seq<A>, precedes: spec_fn(A, A) -> bool) -> bool {
    forall|i: int, j: int|
        #![trigger s[i], s[j]]
        0 <= i < j < s.len() ==> !precedes(s[j], s[i])
}

/// What precedes what is a strict weak order.
pub open spec fn orders<A>(precedes: spec_fn(A, A) -> bool) -> bool {
    &&& forall|a: A, b: A| #[trigger] precedes(a, b) ==> !precedes(b, a)
    &&& forall|a: A, b: A, c: A| #[trigger]
        precedes(a, b) && #[trigger] precedes(b, c) ==> precedes(a, c)
    &&& forall|a: A, b: A, c: A|
        !(#[trigger] precedes(a, b)) && !(#[trigger] precedes(b, c)) ==> !precedes(a, c)
}

pub proof fn lemma_inserted<A>(s: Seq<A>, x: A, precedes: spec_fn(A, A) -> bool)
    ensures
        inserted(s, x, precedes).len() == s.len() + 1,
        inserted(s, x, precedes).to_multiset() == s.to_multiset().insert(x),
    decreases s.len(),
{
    broadcast use group_to_multiset_ensures;

    if s.len() == 0 {
        assert(seq![x] =~= s.push(x));
    } else if precedes(x, s.last()) {
        let d = s.drop_last();
        lemma_inserted(d, x, precedes);
        assert(s =~= d.push(s.last()));
        assert(inserted(s, x, precedes).to_multiset() =~= s.to_multiset().insert(x));
    }
}

/// Sorting keeps every element, as often as it occurs.
pub proof fn sorting_keeps_the_elements<A>(s: Seq<A>, precedes: spec_fn(A, A) -> bool)
    ensures
        sorted(s, precedes).len() == s.len(),
        sorted(s, precedes).to_multiset() == s.to_multiset(),
    decreases s.len(),
{
    broadcast use group_to_multiset_ensures;

    if s.len() > 0 {
        let d = s.drop_last();
        sorting_keeps_the_elements(d, precedes);
        lemma_inserted(sorted(d, precedes), s.last(), precedes);
        assert(s =~= d.push(s.last()));
    }
}

proof fn lemma_inserted_members<A>(s: Seq<A>, x: A, precedes: spec_fn(A, A) -> bool, k: int)
    requires
        0 <= k < inserted(s, x, precedes).len(),
    ensures
        inserted(s, x, precedes)[k] == x || s.contains(inserted(s, x, precedes)[k]),
    decreases s.len(),
{
    if s.len() > 0 {
        if precedes(x, s.last()) {
            let d = s.drop_last();
            let r = inserted(d, x, precedes);
            lemma_inserted(d, x, precedes);
            if k < r.len() {
                lemma_inserted_members(d, x, precedes, k);
                if r[k] != x {
                    let i = choose|i: int| 0 <= i < d.len() && d[i] == r[k];
                    assert(s[i] == r[k]);
                }
            } else {
                assert(s[s.len() - 1] == s.last());
            }
        } else if k < s.len() {
            assert(s[k] == s.push(x)[k]);
        }
    }
}

proof fn lemma_inserted_in_order<A>(s: Seq<A>, x: A, precedes: spec_fn(A, A) -> bool)
    requires
        orders(precedes),
        in_order(s, precedes),
    ensures
        in_order(inserted(s, x, precedes), precedes),
    decreases s.len(),
{
    let r = inserted(s, x, precedes);
    if s.len() > 0 {
        if precedes(x, s.last()) {
            let d = s.drop_last();
            assert(in_order(d, precedes)) by {
                assert forall|i: int, j: int|
                    #![trigger d[i], d[j]]
                    0 <= i < j < d.len() implies !precedes(d[j], d[i]) by {
                    assert(s[i] == d[i] && s[j] == d[j]);
                }
            }
            lemma_inserted_in_order(d, x, precedes);
            lemma_inserted(d, x, precedes);
            let b = inserted(d, x, precedes);
            assert forall|i: int, j: int|
                #![trigger r[i], r[j]]
                0 <= i < j < r.len() implies !precedes(r[j], r[i]) by {
                if j < b.len() {
                    assert(b[i] == r[i] && b[j] == r[j]);
                } else {
                    lemma_inserted_members(d, x, precedes, i);
                    if b[i] != x {
                        let k = choose|k: int| 0 <= k < d.len() && d[k] == b[i];
                        assert(s[k] == b[i] && s[s.len() - 1] == s.last());
                    }
                }
            }
        } else {
            assert forall|i: int, j: int|
                #![trigger r[i], r[j]]
                0 <= i < j < r.len() implies !precedes(r[j], r[i]) by {
                if j == s.len() {
                    let l = s.last();
                    assert(s[s.len() - 1] == l);
                    if i < s.len() - 1 {
                        assert(!precedes(s[s.len() - 1], s[i]));
                        assert(!precedes(x, l));
                        assert(!precedes(l, s[i]));
                    }
                } else {
                    assert(s[i] == r[i] && s[j] == r[j]);
                }
            }
        }
    }
}

/// A sorted list is in order.
pub proof fn sorting_puts_in_order<A>(s: Seq<A>, precedes: spec_fn(A, A) -> bool)
    requires
        orders(precedes),
    ensures
        in_order(sorted(s, precedes), precedes),
    decreases s.len(),
{
    if s.len() > 0 {
        sorting_puts_in_order(s.drop_last(), precedes);
        lemma_inserted_in_order(sorted(s.drop_last(), precedes), s.last(), precedes);
    }
}

/// Puts an element into a sorted list.
pub fn insert_by<T: View, F: Fn(&T, &T) -> bool>(
    v: &mut Vec<T>,
    x: T,
    f: &F,
    Ghost(precedes): Ghost<spec_fn(T::V, T::V) -> bool>,
)
    requires
        forall|a: &T, b: &T| #[trigger] f.requires((a, b)),
        forall|a: &T, b: &T, r: bool| #[trigger] f.ensures((a, b), r) ==> r == precedes(a@, b@),
    ensures
        rows::vals(final(v)@) == inserted(rows::vals(old(v)@), x@, precedes),
{
    let ghost s = rows::vals(v@);
    let ghost out = inserted(s, x@, precedes);
    let mut i: usize = v.len();
    assert(s.take(i as int) =~= s);
    assert(out =~= inserted(s.take(i as int), x@, precedes) + s.skip(i as int));
    while i > 0 && f(&x, &v[i - 1])
        invariant
            forall|a: &T, b: &T| #[trigger] f.requires((a, b)),
            forall|a: &T, b: &T, r: bool| #[trigger]
                f.ensures((a, b), r) ==> r == precedes(a@, b@),
            i <= v@.len(),
            v@ == old(v)@,
            s == rows::vals(v@),
            out == inserted(s.take(i as int), x@, precedes) + s.skip(i as int),
        decreases i,
    {
        proof {
            let t = s.take(i as int);
            assert(t.drop_last() =~= s.take(i - 1));
            assert(t.last() == v@[i - 1]@);
            assert(s.skip(i - 1) =~= seq![t.last()] + s.skip(i as int));
            assert(inserted(t, x@, precedes) + s.skip(i as int) =~= inserted(
                s.take(i - 1),
                x@,
                precedes,
            ) + s.skip(i - 1));
        }
        i = i - 1;
    }
    proof {
        if i > 0 {
            let t = s.take(i as int);
            assert(t.last() == v@[i - 1]@);
            assert(inserted(t, x@, precedes) =~= t.push(x@));
        }
        assert(inserted(s.take(i as int), x@, precedes) =~= s.take(i as int).push(x@));
    }
    let ghost xv = x@;
    v.insert(i, x);
    assert(rows::vals(v@) =~= s.take(i as int).push(xv) + s.skip(i as int));
}

} // verus!
