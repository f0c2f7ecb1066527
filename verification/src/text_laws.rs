//! What trimming, splitting, joining and searching do to a text.
use vstd::prelude::*;
use crate::order;
use crate::shape;
use crate::text;

verus! {

/// The characters from `a` up to but without `b` are what is left of a text without the whitespace
/// around it.
pub open spec fn is_trimmed(s: Seq<char>, a: int, b: int, t: Seq<char>) -> bool {
    &&& 0 <= a <= b <= s.len()
    &&& t == s.subrange(a, b)
    &&& forall|j: int| 0 <= j < a ==> text::is_white(#[trigger] s[j])
    &&& forall|j: int| b <= j < s.len() ==> text::is_white(#[trigger] s[j])
    &&& a < b ==> !text::is_white(s[a]) && !text::is_white(s[b - 1])
}

proof fn lemma_ltrim(s: Seq<char>) -> (a: int)
    ensures
        0 <= a <= s.len(),
        text::ltrim(s) == s.subrange(a, s.len() as int),
        forall|j: int| 0 <= j < a ==> text::is_white(#[trigger] s[j]),
        a < s.len() ==> !text::is_white(s[a]),
    decreases s.len(),
{
    if s.len() > 0 && text::is_white(s[0]) {
        let t = s.skip(1);
        let a = lemma_ltrim(t);
        assert(t.subrange(a, t.len() as int) =~= s.subrange(a + 1, s.len() as int));
        assert forall|j: int| 0 <= j < a + 1 implies text::is_white(#[trigger] s[j]) by {
            if j > 0 {
                assert(s[j] == t[j - 1]);
            }
        }
        a + 1
    } else {
        assert(s.subrange(0, s.len() as int) =~= s);
        0
    }
}

proof fn lemma_rtrim(s: Seq<char>) -> (b: int)
    ensures
        0 <= b <= s.len(),
        text::rtrim(s) == s.subrange(0, b),
        forall|j: int| b <= j < s.len() ==> text::is_white(#[trigger] s[j]),
        0 < b ==> !text::is_white(s[b - 1]),
    decreases s.len(),
{
    if s.len() > 0 && text::is_white(s.last()) {
        let t = s.drop_last();
        let b = lemma_rtrim(t);
        assert(t.subrange(0, b) =~= s.subrange(0, b));
        assert forall|j: int| b <= j < s.len() implies text::is_white(#[trigger] s[j]) by {
            if j < t.len() {
                assert(s[j] == t[j]);
            }
        }
        b
    } else {
        assert(s.subrange(0, s.len() as int) =~= s);
        s.len() as int
    }
}

/// Trimming takes the whitespace at both ends of a text and nothing else.
pub proof fn trimming_takes_outer_whitespace(s: Seq<char>)
    ensures
        exists|a: int, b: int| #[trigger] is_trimmed(s, a, b, text::trim(s)),
        is_trimmed(
            s,
            s.len() - text::ltrim(s).len(),
            s.len() - text::ltrim(s).len() + text::trim(s).len(),
            text::trim(s),
        ),
{
    let a = lemma_ltrim(s);
    let t = text::ltrim(s);
    let n = lemma_rtrim(t);
    assert forall|j: int| a + n <= j < s.len() implies text::is_white(#[trigger] s[j]) by {
        assert(s[j] == t[j - a]);
    }
    assert(t.subrange(0, n) =~= s.subrange(a, a + n));
    if n > 0 {
        assert(t[n - 1] == s[a + n - 1]);
    }
    assert(is_trimmed(s, a, a + n, text::trim(s)));
    assert(text::trim(s).len() == n);
}

/// Words of a text with the places at which each begins and ends: each a run without whitespace that
/// whitespace or the text's ends bound, and every other character is whitespace.
pub open spec fn words_at(s: Seq<char>, words: Seq<Seq<char>>, at: Seq<(int, int)>) -> bool {
    &&& at.len() == words.len()
    &&& forall|k: int|
        0 <= k < at.len() ==> {
            &&& 0 <= (#[trigger] at[k]).0 < at[k].1 <= s.len()
            &&& words[k] == s.subrange(at[k].0, at[k].1)
            &&& at[k].0 == 0 || text::is_white(s[at[k].0 - 1])
            &&& at[k].1 == s.len() || text::is_white(s[at[k].1])
        }
    &&& forall|k: int, j: int|
        0 <= k < at.len() && (#[trigger] at[k]).0 <= j < at[k].1 ==> !text::is_white(
            #[trigger] s[j],
        )
    &&& forall|k: int, l: int|
        0 <= k < l < at.len() ==> (#[trigger] at[k]).1 < (#[trigger] at[l]).0
    &&& forall|j: int|
        0 <= j < s.len() && !text::is_white(#[trigger] s[j]) ==> exists|k: int|
            0 <= k < at.len() && (#[trigger] at[k]).0 <= j < at[k].1
}

/// The words of a text are its runs without whitespace, all of them, in order.
pub proof fn words_are_all_the_runs(s: Seq<char>)
    ensures
        exists|at: Seq<(int, int)>| #[trigger] words_at(s, text::words(s), at),
{
    let at = lemma_words(s);
}

proof fn lemma_words(s: Seq<char>) -> (at: Seq<(int, int)>)
    ensures
        words_at(s, text::words(s), at),
    decreases s.len(),
{
    if s.len() == 0 {
        Seq::empty()
    } else if text::is_white(s[0]) {
        let t = s.skip(1);
        let sub = lemma_words(t);
        lemma_words_behind(s, 1, sub, Seq::empty());
        let at = Seq::new(sub.len(), |k: int| (sub[k].0 + 1, sub[k].1 + 1));
        assert(Seq::<(int, int)>::empty() + at =~= at);
        assert(Seq::<Seq<char>>::empty() + text::words(t) =~= text::words(t));
        at
    } else {
        let p = |c: char| text::is_white(c);
        text::lemma_until_bounds(s, p);
        let n = text::until(s, p) as int;
        let t = s.skip(n);
        let sub = lemma_words(t);
        let at = seq![(0int, n)] + Seq::new(sub.len(), |k: int| (sub[k].0 + n, sub[k].1 + n));
        assert(s.take(n) =~= s.subrange(0, n));
        lemma_words_behind(s, n, sub, seq![(0int, n)]);
        at
    }
}

proof fn lemma_words_behind(s: Seq<char>, n: int, sub: Seq<(int, int)>, first: Seq<(int, int)>)
    requires
        0 < n <= s.len(),
        words_at(s.skip(n), text::words(s.skip(n)), sub),
        (first.len() == 0 && n == 1 && text::is_white(s[0])) || (first =~= seq![(0int, n)] && (n
            == s.len() || text::is_white(s[n])) && forall|j: int|
            0 <= j < n ==> !text::is_white(#[trigger] s[j])),
    ensures
        words_at(
            s,
            (if first.len() == 0 {
                Seq::<Seq<char>>::empty()
            } else {
                seq![s.subrange(0, n)]
            }) + text::words(s.skip(n)),
            first + Seq::new(sub.len(), |k: int| (sub[k].0 + n, sub[k].1 + n)),
        ),
{
    let t = s.skip(n);
    let m = first.len() as int;
    let moved = Seq::new(sub.len(), |k: int| (sub[k].0 + n, sub[k].1 + n));
    let at = first + moved;
    let head = if m == 0 {
        Seq::<Seq<char>>::empty()
    } else {
        seq![s.subrange(0, n)]
    };
    let w = head + text::words(t);
    assert forall|k: int| 0 <= k < at.len() implies {
        &&& 0 <= (#[trigger] at[k]).0 < at[k].1 <= s.len()
        &&& w[k] == s.subrange(at[k].0, at[k].1)
        &&& at[k].0 == 0 || text::is_white(s[at[k].0 - 1])
        &&& at[k].1 == s.len() || text::is_white(s[at[k].1])
    } by {
        if k >= m {
            let e = sub[k - m];
            assert(at[k] == (e.0 + n, e.1 + n));
            assert(t.subrange(e.0, e.1) =~= s.subrange(e.0 + n, e.1 + n));
            if e.0 > 0 {
                assert(t[e.0 - 1] == s[e.0 - 1 + n]);
            } else if m > 0 {
                assert(sub[k - m].0 <= 0 < sub[k - m].1);
                assert(!text::is_white(t[0]));
                assert(t[0] == s[n]);
            }
            if e.1 < t.len() {
                assert(t[e.1] == s[e.1 + n]);
            }
        }
    }
    assert forall|k: int, j: int|
        0 <= k < at.len() && (#[trigger] at[k]).0 <= j < at[k].1 implies !text::is_white(
        #[trigger] s[j],
    ) by {
        if k >= m {
            let e = sub[k - m];
            assert(at[k] == (e.0 + n, e.1 + n));
            assert(sub[k - m].0 <= j - n < sub[k - m].1);
            assert(s[j] == t[j - n]);
        }
    }
    assert forall|k: int, l: int| 0 <= k < l < at.len() implies (#[trigger] at[k]).1 < (
    #[trigger] at[l]).0 by {
        let f = sub[l - m];
        assert(at[l] == (f.0 + n, f.1 + n));
        if k >= m {
            let e = sub[k - m];
            assert(at[k] == (e.0 + n, e.1 + n));
        } else {
            assert(at[k] == (0int, n));
            if f.0 == 0 {
                assert(sub[l - m].0 <= 0 < sub[l - m].1);
                assert(!text::is_white(t[0]));
                assert(t[0] == s[n]);
            }
        }
    }
    assert forall|j: int| 0 <= j < s.len() && !text::is_white(#[trigger] s[j]) implies exists|k: int|
        0 <= k < at.len() && (#[trigger] at[k]).0 <= j < at[k].1 by {
        if j < n {
            assert(m > 0);
            assert(at[0] == (0int, n));
        } else {
            assert(t[j - n] == s[j]);
            let k = choose|k: int| 0 <= k < sub.len() && (#[trigger] sub[k]).0 <= j - n < sub[k].1;
            assert(at[k + m] == (sub[k].0 + n, sub[k].1 + n));
        }
    }
}

/// Joining two lists of parts is joining each, with the separator between.
pub proof fn joins_lie_side_by_side(a: Seq<Seq<char>>, b: Seq<Seq<char>>, sep: Seq<char>)
    requires
        a.len() > 0,
        b.len() > 0,
    ensures
        text::join(a + b, sep) == text::join(a, sep) + sep + text::join(b, sep),
    decreases b.len(),
{
    assert((a + b).drop_last() =~= a + b.drop_last());
    if b.len() == 1 {
        assert(b.drop_last().len() == 0);
        assert(a + b.drop_last() =~= a);
    } else {
        joins_lie_side_by_side(a, b.drop_last(), sep);
        assert(text::join(a + b, sep) =~= text::join(a, sep) + sep + text::join(b, sep));
    }
}

/// Parts that are joined stand in the text one after the other, with the separator between: none is
/// left out, and a single one stands alone.
pub proof fn joins_keep_every_part(parts: Seq<Seq<char>>, sep: Seq<char>, k: int)
    requires
        0 <= k < parts.len(),
    ensures
        text::join(seq![parts[k]], sep) == parts[k],
        text::join(parts, sep) == (if k == 0 {
            Seq::<char>::empty()
        } else {
            text::join(parts.take(k), sep) + sep
        }) + parts[k] + (if k + 1 == parts.len() {
            Seq::<char>::empty()
        } else {
            sep + text::join(parts.skip(k + 1), sep)
        }),
{
    let one = seq![parts[k]];
    assert(text::join(one, sep) == parts[k]);
    let upto = parts.take(k + 1);
    if k == 0 {
        assert(upto =~= one);
    } else {
        assert(upto =~= parts.take(k) + one);
        joins_lie_side_by_side(parts.take(k), one, sep);
    }
    if k + 1 == parts.len() {
        assert(upto =~= parts);
    } else {
        assert(parts =~= upto + parts.skip(k + 1));
        joins_lie_side_by_side(upto, parts.skip(k + 1), sep);
    }
    assert(text::join(parts, sep) =~= (if k == 0 {
        Seq::<char>::empty()
    } else {
        text::join(parts.take(k), sep) + sep
    }) + parts[k] + (if k + 1 == parts.len() {
        Seq::<char>::empty()
    } else {
        sep + text::join(parts.skip(k + 1), sep)
    }));
}

/// Splitting at a character and joining with it gives the text back, and no piece holds it.
pub proof fn splits_are_undone_by_joins(s: Seq<char>, c: char)
    ensures
        text::split(s, c).len() > 0,
        text::join(text::split(s, c), seq![c]) == s,
        forall|k: int| 0 <= k < text::split(s, c).len() ==> !(#[trigger] text::split(s, c)[k]).contains(c),
    decreases s.len(),
{
    let p = text::is_char(c);
    text::lemma_until_bounds(s, p);
    let n = text::until(s, p) as int;
    let v = text::split(s, c);
    if n >= s.len() {
        assert forall|k: int| 0 <= k < v.len() implies !(#[trigger] v[k]).contains(c) by {
            if s.contains(c) {
                let j = choose|j: int| 0 <= j < s.len() && s[j] == c;
                assert(p(s[j]));
            }
        }
    } else {
        let t = s.skip(n + 1);
        splits_are_undone_by_joins(t, c);
        joins_lie_side_by_side(seq![s.take(n)], text::split(t, c), seq![c]);
        assert(s.take(n) + seq![c] + t =~= s);
        assert forall|k: int| 0 <= k < v.len() implies !(#[trigger] v[k]).contains(c) by {
            if k == 0 {
                if v[0].contains(c) {
                    let j = choose|j: int| 0 <= j < n && s.take(n)[j] == c;
                    assert(p(s[j]));
                }
            } else {
                assert(v[k] == text::split(t, c)[k - 1]);
            }
        }
    }
}

/// A text without line feeds is one line, and with one more line feed and a rest behind it the lines
/// are that line, without a carriage return at its end, and those of the rest.
pub proof fn lines_end_at_line_feeds(a: Seq<char>, b: Seq<char>)
    requires
        !a.contains('\n'),
    ensures
        a.len() > 0 ==> text::lines(a) == seq![a],
        a.len() == 0 ==> text::lines(a).len() == 0,
        text::lines(a.push('\n') + b) == seq![
            if a.len() > 0 && a.last() == '\r' {
                a.drop_last()
            } else {
                a
            },
        ] + text::lines(b),
{
    let p = text::is_char('\n');
    let n = a.len() as int;
    let s = a.push('\n') + b;
    assert forall|j: int| 0 <= j < n implies !p(#[trigger] a[j]) by {
        assert(a.contains(a[j]));
    }
    text::lemma_until(a, p, n);
    assert forall|j: int| 0 <= j < n implies !p(#[trigger] s[j]) by {
        assert(s[j] == a[j]);
    }
    assert(s[n] == '\n');
    text::lemma_until(s, p, n);
    assert(s.take(n) =~= a);
    assert(s.skip(n + 1) =~= b);
}

/// What is not found is not replaced.
pub proof fn absent_texts_are_not_replaced(s: Seq<char>, from: Seq<char>, to: Seq<char>)
    requires
        !text::contains(s, from),
    ensures
        text::replaced(s, from, to) == s,
    decreases s.len(),
{
    if s.len() > 0 && from.len() > 0 {
        if text::starts(s, from) {
            assert(s.take(from.len() as int) =~= s.subrange(0, from.len() as int));
            assert(text::occurs_at(s, from, 0));
        }
        let t = s.skip(1);
        if text::contains(t, from) {
            let i = choose|i: int| text::occurs_at(t, from, i);
            assert(t.subrange(i, i + from.len()) =~= s.subrange(i + 1, i + 1 + from.len()));
            assert(text::occurs_at(s, from, i + 1));
        }
        absent_texts_are_not_replaced(t, from, to);
        assert(seq![s[0]] + t =~= s);
    }
}

/// The first occurrence is replaced, what stands before it stays, and what stands behind it is
/// replaced in turn.
pub proof fn every_occurrence_is_replaced(s: Seq<char>, from: Seq<char>, to: Seq<char>, i: int)
    requires
        from.len() > 0,
        text::occurs_at(s, from, i),
        forall|j: int| 0 <= j < i ==> !#[trigger] text::occurs_at(s, from, j),
    ensures
        text::replaced(s, from, to) == s.take(i) + to + text::replaced(
            s.skip(i + from.len()),
            from,
            to,
        ),
    decreases i,
{
    if i == 0 {
        assert(s.take(from.len() as int) =~= s.subrange(0, from.len() as int));
        assert(s.take(0) + to =~= to);
    } else {
        let t = s.skip(1);
        if text::starts(s, from) {
            assert(s.take(from.len() as int) =~= s.subrange(0, from.len() as int));
            assert(text::occurs_at(s, from, 0));
        }
        assert(t.subrange(i - 1, i - 1 + from.len()) =~= s.subrange(i, i + from.len()));
        assert forall|j: int| 0 <= j < i - 1 implies !#[trigger] text::occurs_at(t, from, j) by {
            if text::occurs_at(t, from, j) {
                assert(t.subrange(j, j + from.len()) =~= s.subrange(j + 1, j + 1 + from.len()));
                assert(text::occurs_at(s, from, j + 1));
            }
        }
        every_occurrence_is_replaced(t, from, to, i - 1);
        assert(t.skip(i - 1 + from.len()) =~= s.skip(i + from.len()));
        assert(seq![s[0]] + (t.take(i - 1) + to + text::replaced(s.skip(i + from.len()), from, to))
            =~= s.take(i) + to + text::replaced(s.skip(i + from.len()), from, to));
    }
}

/// The last place of a text is where it occurs and behind which it does not, if it occurs at all.
pub proof fn last_places_are_last(s: Seq<char>, p: Seq<char>)
    ensures
        match text::find_last(s, p) {
            Some(i) => text::occurs_at(s, p, i) && forall|j: int|
                i < j ==> !#[trigger] text::occurs_at(s, p, j),
            None => forall|j: int| !#[trigger] text::occurs_at(s, p, j),
        },
{
    lemma_find_last(s, p, s.len() as int);
}

proof fn lemma_find_last(s: Seq<char>, p: Seq<char>, n: int)
    requires
        forall|j: int| n < j ==> !#[trigger] text::occurs_at(s, p, j),
    ensures
        match text::find_last_to(s, p, n) {
            Some(i) => text::occurs_at(s, p, i) && forall|j: int|
                i < j ==> !#[trigger] text::occurs_at(s, p, j),
            None => forall|j: int| !#[trigger] text::occurs_at(s, p, j),
        },
    decreases n + 1,
{
    if n >= 0 && !text::occurs_at(s, p, n) {
        lemma_find_last(s, p, n - 1);
    }
}

/// A text is padded with zeros in front, up to the length and no further.
pub proof fn padding_puts_zeros_in_front(s: Seq<char>, n: nat)
    ensures
        ({
            let r = text::pad_zero(s, n);
            let z = r.len() - s.len();
            &&& r.len() == if s.len() < n { n } else { s.len() }
            &&& r.subrange(z, r.len() as int) == s
            &&& forall|i: int| 0 <= i < z ==> #[trigger] r[i] == '0'
        }),
    decreases n - s.len(),
{
    let r = text::pad_zero(s, n);
    if s.len() < n {
        let t = seq!['0'] + s;
        padding_puts_zeros_in_front(t, n);
        let y = r.len() - t.len();
        let u = r.subrange(y, r.len() as int);
        assert(u == t);
        assert(r[y] == u[0]);
        assert(r.subrange(y + 1, r.len() as int) =~= u.subrange(1, u.len() as int));
        assert(t.subrange(1, t.len() as int) =~= s);
    } else {
        assert(r.subrange(0, r.len() as int) =~= s);
    }
}

/// Texts are ordered by the first character in which they differ, and a text comes before every longer
/// one that begins with it.
pub proof fn texts_are_ordered_by_their_first_difference(
    p: Seq<char>,
    x: char,
    a: Seq<char>,
    y: char,
    b: Seq<char>,
)
    requires
        x != y,
    ensures
        order::before(p + (seq![x] + a), p + (seq![y] + b)) <==> x < y,
        order::before(p, p + (seq![y] + b)),
        !order::before(p + (seq![y] + b), p),
    decreases p.len(),
{
    let s = p + (seq![x] + a);
    let t = p + (seq![y] + b);
    if p.len() == 0 {
        assert(s[0] == x && t[0] == y);
    } else {
        let q = p.skip(1);
        texts_are_ordered_by_their_first_difference(q, x, a, y, b);
        assert(s.skip(1) =~= q + (seq![x] + a));
        assert(t.skip(1) =~= q + (seq![y] + b));
        assert(s[0] == p[0] && t[0] == p[0]);
    }
}

/// Without its repetitions a list has every text where it occurred first, in order.
pub proof fn first_occurrences_stay(s: Seq<Seq<char>>)
    ensures
        shape::picks(
            s.len() as int,
            shape::fresh(|i: int| Some(s[i])),
            |i: int| s[i],
            order::firsts(s),
        ),
    decreases s.len(),
{
    let key = |i: int| Some(s[i]);
    let value = |i: int| s[i];
    if s.len() == 0 {
        shape::lemma_picks_none(shape::fresh(key), value);
    } else {
        let less = s.drop_last();
        let n = less.len() as int;
        first_occurrences_stay(less);
        let key0 = |i: int| Some(less[i]);
        let value0 = |i: int| less[i];
        let out = order::firsts(less);
        assert forall|i: int| 0 <= i < n implies #[trigger] key0(i) == key(i) by {
            assert(less[i] == s[i]);
        }
        assert forall|i: int| 0 <= i < n && (#[trigger] key0(i)) is Some implies value0(i) == value(
            i,
        ) by {
            assert(less[i] == s[i]);
        }
        let same = |x: Seq<char>| x;
        assert(forall|k: int| 0 <= k < out.len() ==> same(#[trigger] out[k]) == out[k]);
        shape::lemma_fresh_step(n, key0, value0, key, value, same, out, order::firsts(s));
    }
}

} // verus!
