//! The order of texts, and lists of texts kept sorted or without repetition.
use vstd::prelude::*;
use crate::text;

verus! {

/// One text comes before another: character by character, a prefix first.
pub open spec fn before(a: Seq<char>, b: Seq<char>) -> bool
    decreases a.len(),
{
    if b.len() == 0 {
        false
    } else if a.len() == 0 {
        true
    } else if a[0] != b[0] {
        a[0] < b[0]
    } else {
        before(a.skip(1), b.skip(1))
    }
}

/// Whether one text comes before another.
pub fn comes_before(a: &str, b: &str) -> (r: bool)
    ensures
        r == before(a@, b@),
{
    let x = text::chars_of(a);
    let y = text::chars_of(b);
    let mut i: usize = 0;
    assert(x@.skip(0) =~= x@);
    assert(y@.skip(0) =~= y@);
    while i < x.len() && i < y.len()
        invariant
            x@ == a@,
            y@ == b@,
            i <= x@.len(),
            i <= y@.len(),
            before(x@.skip(i as int), y@.skip(i as int)) == before(x@, y@),
        decreases x@.len() - i,
    {
        assert(x@.skip(i as int)[0] == x@[i as int]);
        assert(y@.skip(i as int)[0] == y@[i as int]);
        if x[i] != y[i] {
            return x[i] < y[i];
        }
        assert(x@.skip(i as int).skip(1) =~= x@.skip(i as int + 1));
        assert(y@.skip(i as int).skip(1) =~= y@.skip(i as int + 1));
        i = i + 1;
    }
    i < y.len()
}

pub proof fn lemma_before_irreflexive(a: Seq<char>)
    ensures
        !before(a, a),
    decreases a.len(),
{
    if a.len() > 0 {
        lemma_before_irreflexive(a.skip(1));
    }
}

/// Of two different texts one comes before the other, and only one.
pub proof fn lemma_before_total(a: Seq<char>, b: Seq<char>)
    ensures
        before(a, b) || before(b, a) || a == b,
        !(before(a, b) && before(b, a)),
    decreases a.len(),
{
    if a.len() > 0 && b.len() > 0 {
        if a[0] == b[0] {
            lemma_before_total(a.skip(1), b.skip(1));
            if a.skip(1) == b.skip(1) {
                assert(a =~= seq![a[0]] + a.skip(1));
                assert(b =~= seq![b[0]] + b.skip(1));
            }
        }
    } else if a.len() == 0 && b.len() == 0 {
        assert(a =~= b);
    }
}

pub proof fn lemma_before_transitive(a: Seq<char>, b: Seq<char>, c: Seq<char>)
    requires
        before(a, b),
        before(b, c),
    ensures
        before(a, c),
    decreases a.len(),
{
    if a.len() > 0 && a[0] == b[0] && b[0] == c[0] {
        lemma_before_transitive(a.skip(1), b.skip(1), c.skip(1));
    }
}

/// The list rises strictly: it is sorted and nothing occurs twice.
pub open spec fn rises(s: Seq<Seq<char>>) -> bool {
    forall|i: int, j: int| 0 <= i < j < s.len() ==> before(#[trigger] s[i], #[trigger] s[j])
}

/// A rising list with one more text in it, where it is missing.
pub open spec fn with(s: Seq<Seq<char>>, x: Seq<char>) -> Seq<Seq<char>>
    decreases s.len(),
{
    if s.len() == 0 {
        seq![x]
    } else if s.last() == x {
        s
    } else if before(s.last(), x) {
        s.push(x)
    } else {
        with(s.drop_last(), x).push(s.last())
    }
}

/// The texts of a list as a rising list.
pub open spec fn sorted_set(s: Seq<Seq<char>>) -> Seq<Seq<char>>
    decreases s.len(),
{
    if s.len() == 0 {
        Seq::empty()
    } else {
        with(sorted_set(s.drop_last()), s.last())
    }
}

pub proof fn lemma_with(s: Seq<Seq<char>>, x: Seq<char>)
    requires
        rises(s),
    ensures
        rises(with(s, x)),
        forall|y: Seq<char>| #[trigger] with(s, x).contains(y) <==> (s.contains(y) || y == x),
        with(s, x).len() <= s.len() + 1,
    decreases s.len(),
{
    let r = with(s, x);
    if s.len() == 0 {
        assert(r[0] == x);
        assert forall|y: Seq<char>| #[trigger] r.contains(y) implies y == x by {}
    } else if s.last() == x {
        assert(s[s.len() - 1] == x);
    } else if before(s.last(), x) {
        assert forall|i: int, j: int| 0 <= i < j < r.len() implies before(
            #[trigger] r[i],
            #[trigger] r[j],
        ) by {
            if j == s.len() && i < s.len() - 1 {
                assert(before(s[i], s[s.len() - 1]));
                lemma_before_transitive(s[i], s.last(), x);
            }
        }
        assert forall|y: Seq<char>| #[trigger] r.contains(y) <==> (s.contains(y) || y == x) by {
            if s.contains(y) {
                let k = choose|k: int| 0 <= k < s.len() && s[k] == y;
                assert(r[k] == y);
            }
            if y == x {
                assert(r[s.len() as int] == x);
            }
            if r.contains(y) {
                let k = choose|k: int| 0 <= k < r.len() && r[k] == y;
                if k < s.len() {
                    assert(s[k] == y);
                }
            }
        }
    } else {
        let t = s.drop_last();
        assert forall|i: int, j: int| 0 <= i < j < t.len() implies before(
            #[trigger] t[i],
            #[trigger] t[j],
        ) by {
            assert(t[i] == s[i] && t[j] == s[j]);
        }
        lemma_with(t, x);
        let w = with(t, x);
        lemma_before_total(s.last(), x);
        assert forall|i: int, j: int| 0 <= i < j < r.len() implies before(
            #[trigger] r[i],
            #[trigger] r[j],
        ) by {
            if j == w.len() {
                assert(w.contains(w[i]));
                if w[i] != x {
                    assert(t.contains(w[i]));
                    let k = choose|k: int| 0 <= k < t.len() && t[k] == w[i];
                    assert(before(s[k], s[s.len() - 1]));
                }
            } else {
                assert(r[i] == w[i] && r[j] == w[j]);
            }
        }
        assert forall|y: Seq<char>| #[trigger] r.contains(y) <==> (s.contains(y) || y == x) by {
            if s.contains(y) {
                let k = choose|k: int| 0 <= k < s.len() && s[k] == y;
                if k < t.len() {
                    assert(t[k] == y);
                    assert(w.contains(y));
                    let m = choose|m: int| 0 <= m < w.len() && w[m] == y;
                    assert(r[m] == y);
                } else {
                    assert(r[w.len() as int] == y);
                }
            }
            if y == x {
                assert(w.contains(x));
                let m = choose|m: int| 0 <= m < w.len() && w[m] == x;
                assert(r[m] == x);
            }
            if r.contains(y) {
                let k = choose|k: int| 0 <= k < r.len() && r[k] == y;
                if k < w.len() {
                    assert(w.contains(y));
                    if y != x {
                        assert(t.contains(y));
                        let m = choose|m: int| 0 <= m < t.len() && t[m] == y;
                        assert(s[m] == y);
                    }
                } else {
                    assert(s[s.len() - 1] == y);
                }
            }
        }
    }
}

/// A sorted set rises and holds exactly the texts of the list.
pub proof fn lemma_sorted_set(s: Seq<Seq<char>>)
    ensures
        rises(sorted_set(s)),
        forall|y: Seq<char>| #[trigger] sorted_set(s).contains(y) <==> s.contains(y),
        sorted_set(s).len() <= s.len(),
    decreases s.len(),
{
    let r = sorted_set(s);
    if s.len() > 0 {
        let t = s.drop_last();
        lemma_sorted_set(t);
        lemma_with(sorted_set(t), s.last());
        assert forall|y: Seq<char>| #[trigger] r.contains(y) <==> s.contains(y) by {
            if s.contains(y) {
                let k = choose|k: int| 0 <= k < s.len() && s[k] == y;
                if k < t.len() {
                    assert(t[k] == y);
                    assert(t.contains(y));
                    assert(sorted_set(t).contains(y));
                }
            }
            if r.contains(y) {
                if sorted_set(t).contains(y) {
                    assert(t.contains(y));
                    let k = choose|k: int| 0 <= k < t.len() && t[k] == y;
                    assert(s[k] == y);
                } else {
                    assert(s[s.len() - 1] == y);
                }
            }
        }
    }
}

/// Puts a text into a rising list, where it is missing.
pub fn insert_sorted(v: &mut Vec<String>, x: &str)
    ensures
        text::texts(final(v)@) == with(text::texts(old(v)@), x@),
{
    let ghost s = text::texts(v@);
    let mut i: usize = v.len();
    assert(s.take(i as int) =~= s);
    assert(with(s.take(i as int), x@) + s.skip(i as int) =~= with(s, x@));
    while i > 0
        invariant
            i <= v@.len(),
            s == text::texts(v@),
            v@ == old(v)@,
            with(s.take(i as int), x@) + s.skip(i as int) == with(s, x@),
        decreases i,
    {
        proof {
            let t = s.take(i as int);
            assert(t.last() == v@[i - 1]@);
            assert(t.drop_last() =~= s.take(i - 1));
            assert(with(s.take(i - 1), x@).push(t.last()) + s.skip(i as int) =~= with(
                s.take(i - 1),
                x@,
            ) + s.skip(i - 1));
        }
        if text::same_text(v[i - 1].as_str(), x) {
            assert(s.take(i as int) + s.skip(i as int) =~= s);
            return ;
        }
        if comes_before(v[i - 1].as_str(), x) {
            let e = x.to_owned();
            v.insert(i, e);
            assert(text::texts(v@) =~= s.take(i as int).push(x@) + s.skip(i as int));
            return ;
        }
        i = i - 1;
    }
    let e = x.to_owned();
    v.insert(0, e);
    assert(s.take(0) =~= Seq::empty());
    assert(text::texts(v@) =~= seq![x@] + s.skip(0));
}

/// The list without repetitions: every text stands where it occurred first.
pub open spec fn firsts(s: Seq<Seq<char>>) -> Seq<Seq<char>>
    decreases s.len(),
{
    if s.len() == 0 {
        Seq::empty()
    } else if firsts(s.drop_last()).contains(s.last()) {
        firsts(s.drop_last())
    } else {
        firsts(s.drop_last()).push(s.last())
    }
}

/// Removing repetitions keeps the texts and leaves each once.
pub proof fn lemma_firsts(s: Seq<Seq<char>>)
    ensures
        forall|y: Seq<char>| #[trigger] firsts(s).contains(y) <==> s.contains(y),
        firsts(s).no_duplicates(),
        firsts(s).len() <= s.len(),
    decreases s.len(),
{
    let r = firsts(s);
    if s.len() > 0 {
        let t = s.drop_last();
        lemma_firsts(t);
        assert forall|y: Seq<char>| #[trigger] r.contains(y) <==> s.contains(y) by {
            if s.contains(y) {
                let k = choose|k: int| 0 <= k < s.len() && s[k] == y;
                if k < t.len() {
                    assert(t[k] == y);
                    assert(firsts(t).contains(y));
                    let m = choose|m: int| 0 <= m < firsts(t).len() && firsts(t)[m] == y;
                    assert(r[m] == y);
                } else if !firsts(t).contains(y) {
                    assert(r[r.len() - 1] == y);
                }
            }
            if r.contains(y) {
                let m = choose|m: int| 0 <= m < r.len() && r[m] == y;
                if m < firsts(t).len() {
                    assert(firsts(t)[m] == y);
                    assert(firsts(t).contains(y));
                    assert(t.contains(y));
                    let k = choose|k: int| 0 <= k < t.len() && t[k] == y;
                    assert(s[k] == y);
                } else {
                    assert(s[s.len() - 1] == y);
                }
            }
        }
    }
}

/// Whether a text is in a list.
pub fn holds(v: &Vec<String>, s: &str) -> (r: bool)
    ensures
        r == text::texts(v@).contains(s@),
{
    for i in 0..v.len()
        invariant
            forall|j: int| 0 <= j < i ==> #[trigger] text::texts(v@)[j] != s@,
    {
        assert(text::texts(v@)[i as int] == v@[i as int]@);
        if text::same_text(v[i].as_str(), s) {
            return true;
        }
    }
    false
}

} // verus!
