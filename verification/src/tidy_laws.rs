//! What cleaning a text takes away, and what it leaves.
use vstd::prelude::*;
use crate::citemetric;
use crate::extract;
use crate::pattern;
use crate::rows;
use crate::text;
use crate::text_laws;

verus! {

/// No so many characters side by side satisfy a predicate.
pub open spec fn no_run(s: Seq<char>, p: spec_fn(char) -> bool, m: int) -> bool {
    forall|i: int| 0 <= i && i + m <= s.len() ==> !(#[trigger] is_run(s, p, i, m))
}

/// The characters from a place on, so many of them, all satisfy a predicate.
pub open spec fn is_run(s: Seq<char>, p: spec_fn(char) -> bool, i: int, m: int) -> bool {
    forall|j: int| i <= j < i + m ==> p(#[trigger] s[j])
}

/// What does not satisfy a predicate.
pub open spec fn others(p: spec_fn(char) -> bool) -> spec_fn(char) -> bool {
    |c: char| !p(c)
}

proof fn lemma_keep_concat(a: Seq<char>, b: Seq<char>, p: spec_fn(char) -> bool)
    ensures
        rows::keep(a + b, p) == rows::keep(a, p) + rows::keep(b, p),
    decreases b.len(),
{
    if b.len() == 0 {
        assert(a + b =~= a);
        assert(rows::keep(a, p) + rows::keep(b, p) =~= rows::keep(a, p));
    } else {
        lemma_keep_concat(a, b.drop_last(), p);
        assert((a + b).drop_last() =~= a + b.drop_last());
        assert(rows::keep(a + b, p) =~= rows::keep(a, p) + rows::keep(b, p));
    }
}

proof fn lemma_keep_nothing(a: Seq<char>, p: spec_fn(char) -> bool)
    requires
        forall|i: int| 0 <= i < a.len() ==> !p(#[trigger] a[i]),
    ensures
        rows::keep(a, p).len() == 0,
    decreases a.len(),
{
    if a.len() > 0 {
        let t = a.drop_last();
        assert forall|i: int| 0 <= i < t.len() implies !p(#[trigger] t[i]) by {
            assert(t[i] == a[i]);
        }
        lemma_keep_nothing(t, p);
        assert(a[a.len() - 1] == a.last());
    }
}

proof fn lemma_leading(s: Seq<char>, p: spec_fn(char) -> bool)
    ensures
        pattern::leading(s, p) <= s.len(),
        forall|j: int| 0 <= j < pattern::leading(s, p) ==> p(#[trigger] s[j]),
        pattern::leading(s, p) < s.len() ==> !p(s[pattern::leading(s, p) as int]),
{
    let q = |c: char| !p(c);
    text::lemma_until_bounds(s, q);
    assert forall|j: int| 0 <= j < pattern::leading(s, p) implies p(#[trigger] s[j]) by {
        assert(!q(s[j]));
    }
}

/// Replacing runs takes nothing but what satisfies the predicate.
pub proof fn replacing_runs_keeps_all_else(
    s: Seq<char>,
    p: spec_fn(char) -> bool,
    least: nat,
    with: Seq<char>,
    keep: spec_fn(char) -> bool,
)
    requires
        forall|i: int| 0 <= i < with.len() ==> !keep(#[trigger] with[i]),
        forall|c: char| #[trigger] p(c) ==> !keep(c),
    ensures
        rows::keep(pattern::runs_replaced(s, p, least, with), keep) == rows::keep(s, keep),
    decreases s.len(),
{
    if s.len() > 0 {
        lemma_leading(s, p);
        let n = pattern::leading(s, p) as int;
        if n == 0 {
            replacing_runs_keeps_all_else(s.skip(1), p, least, with, keep);
            lemma_keep_concat(seq![s[0]], pattern::runs_replaced(s.skip(1), p, least, with), keep);
            lemma_keep_concat(seq![s[0]], s.skip(1), keep);
            assert(s =~= seq![s[0]] + s.skip(1));
        } else {
            let w = if n >= least {
                with
            } else {
                s.take(n)
            };
            replacing_runs_keeps_all_else(s.skip(n), p, least, with, keep);
            lemma_keep_concat(w, pattern::runs_replaced(s.skip(n), p, least, with), keep);
            lemma_keep_concat(s.take(n), s.skip(n), keep);
            assert(s =~= s.take(n) + s.skip(n));
            assert forall|i: int| 0 <= i < s.take(n).len() implies !keep(
                #[trigger] s.take(n)[i],
            ) by {
                assert(p(s[i]));
            }
            lemma_keep_nothing(s.take(n), keep);
            lemma_keep_nothing(w, keep);
            assert(rows::keep(w, keep) =~= rows::keep(s.take(n), keep));
        }
    }
}

proof fn lemma_front(s: Seq<char>, p: spec_fn(char) -> bool, least: nat, with: Seq<char>)
    requires
        s.len() > 0,
        !p(s[0]),
    ensures
        pattern::runs_replaced(s, p, least, with).len() > 0,
        pattern::runs_replaced(s, p, least, with)[0] == s[0],
{
    lemma_leading(s, p);
}

/// After replacing, no run is left that is longer than the replacement and than what was left alone.
pub proof fn replacing_runs_leaves_none_longer(
    s: Seq<char>,
    p: spec_fn(char) -> bool,
    least: nat,
    with: Seq<char>,
    m: int,
)
    requires
        m >= 1,
        with.len() < m,
        least <= m,
    ensures
        no_run(pattern::runs_replaced(s, p, least, with), p, m),
    decreases s.len(),
{
    let r = pattern::runs_replaced(s, p, least, with);
    if s.len() > 0 {
        lemma_leading(s, p);
        let n = pattern::leading(s, p) as int;
        let (w, t) = if n == 0 {
            (seq![s[0]], s.skip(1))
        } else if n >= least {
            (with, s.skip(n))
        } else {
            (s.take(n), s.skip(n))
        };
        let q = pattern::runs_replaced(t, p, least, with);
        replacing_runs_leaves_none_longer(t, p, least, with, m);
        assert(r =~= w + q);
        if n > 0 && t.len() > 0 {
            assert(t[0] == s[n]);
            lemma_front(t, p, least, with);
        }
        assert forall|i: int| 0 <= i && i + m <= r.len() implies !(#[trigger] is_run(r, p, i, m)) by {
            if i >= w.len() {
                let k = i - w.len();
                assert(!is_run(q, p, k, m));
                let j = choose|j: int| k <= j < k + m && !p(#[trigger] q[j]);
                assert(r[j + w.len()] == q[j]);
            } else if n == 0 {
                assert(r[0] == s[0]);
            } else {
                if t.len() == 0 {
                    assert(q.len() == 0);
                } else {
                    assert(r[w.len() as int] == q[0]);
                }
            }
        }
    }
}

/// Replacing runs of one kind brings no characters of another together.
proof fn lemma_other_runs(
    s: Seq<char>,
    p: spec_fn(char) -> bool,
    least: nat,
    with: Seq<char>,
    o: spec_fn(char) -> bool,
)
    requires
        no_run(s, o, 2),
        forall|c: char| #[trigger] p(c) ==> !o(c),
        forall|i: int| 0 <= i < with.len() ==> !o(#[trigger] with[i]),
        with.len() > 0,
    ensures
        no_run(pattern::runs_replaced(s, p, least, with), o, 2),
        s.len() > 0 ==> pattern::runs_replaced(s, p, least, with).len() > 0 && (o(
            pattern::runs_replaced(s, p, least, with)[0],
        ) ==> o(s[0])),
    decreases s.len(),
{
    let r = pattern::runs_replaced(s, p, least, with);
    if s.len() > 0 {
        lemma_leading(s, p);
        let n = pattern::leading(s, p) as int;
        let (w, t) = if n == 0 {
            (seq![s[0]], s.skip(1))
        } else if n >= least {
            (with, s.skip(n))
        } else {
            (s.take(n), s.skip(n))
        };
        let q = pattern::runs_replaced(t, p, least, with);
        let d = s.len() - t.len();
        assert forall|i: int| 0 <= i && i + 2 <= t.len() implies !(#[trigger] is_run(t, o, i, 2)) by {
            assert(!is_run(s, o, i + d, 2));
            let j = choose|j: int| i + d <= j < i + d + 2 && !o(#[trigger] s[j]);
            assert(t[j - d] == s[j]);
        }
        lemma_other_runs(t, p, least, with, o);
        assert(r =~= w + q);
        assert(n > 0 ==> forall|i: int| 0 <= i < w.len() ==> !o(#[trigger] w[i])) by {
            if n > 0 && n < least {
                assert forall|i: int| 0 <= i < w.len() implies !o(#[trigger] w[i]) by {
                    assert(p(s[i]));
                }
            }
        }
        if n > 0 {
            assert(r[0] == w[0]);
        }
        assert forall|i: int| 0 <= i && i + 2 <= r.len() implies !(#[trigger] is_run(r, o, i, 2)) by {
            if i >= w.len() {
                let k = i - w.len();
                assert(!is_run(q, o, k, 2));
                let j = choose|j: int| k <= j < k + 2 && !o(#[trigger] q[j]);
                assert(r[j + w.len()] == q[j]);
            } else if n > 0 {
                assert(r[i] == w[i]);
            } else {
                assert(r[0] == s[0]);
                assert(r[1] == q[0]);
                if o(r[0]) && o(r[1]) {
                    assert(t.len() > 0);
                    assert(o(t[0]));
                    assert(t[0] == s[1]);
                    assert(is_run(s, o, 0, 2));
                }
            }
        }
    }
}

proof fn lemma_part_has_no_run(s: Seq<char>, a: int, b: int, p: spec_fn(char) -> bool, m: int)
    requires
        0 <= a <= b <= s.len(),
        no_run(s, p, m),
    ensures
        no_run(s.subrange(a, b), p, m),
{
    let t = s.subrange(a, b);
    assert forall|i: int| 0 <= i && i + m <= t.len() implies !(#[trigger] is_run(t, p, i, m)) by {
        assert(!is_run(s, p, a + i, m));
        let j = choose|j: int| a + i <= j < a + i + m && !p(#[trigger] s[j]);
        assert(t[j - a] == s[j]);
    }
}

proof fn lemma_trim_keeps(s: Seq<char>, keep: spec_fn(char) -> bool)
    requires
        forall|c: char| #[trigger] text::is_white(c) ==> !keep(c),
    ensures
        rows::keep(text::trim(s), keep) == rows::keep(s, keep),
{
    text_laws::trimming_takes_outer_whitespace(s);
    let a = s.len() - text::ltrim(s).len();
    let b = a + text::trim(s).len();
    let t = text::trim(s);
    assert(s =~= s.subrange(0, a) + t + s.subrange(b, s.len() as int));
    lemma_keep_concat(s.subrange(0, a) + t, s.subrange(b, s.len() as int), keep);
    lemma_keep_concat(s.subrange(0, a), t, keep);
    assert forall|i: int| 0 <= i < a implies !keep(#[trigger] s.subrange(0, a)[i]) by {
        assert(text::is_white(s[i]));
    }
    let e = s.subrange(b, s.len() as int);
    assert forall|i: int| 0 <= i < e.len() implies !keep(#[trigger] e[i]) by {
        assert(text::is_white(s[b + i]));
    }
    lemma_keep_nothing(s.subrange(0, a), keep);
    lemma_keep_nothing(e, keep);
    assert(rows::keep(s, keep) =~= rows::keep(t, keep));
}

/// What is no whitespace.
pub open spec fn seen() -> spec_fn(char) -> bool {
    |c: char| !text::is_white(c)
}

/// A cleaned text has no whitespace around it, no two blanks and no three line breaks side by side,
/// and keeps every character that is no whitespace of the text whose hyphenated words are joined.
pub proof fn cleaned_texts_are_tidy(t: Seq<char>)
    ensures
        ({
            let c = extract::cleaned(t);
            &&& c.len() > 0 ==> !text::is_white(c[0]) && !text::is_white(c.last())
            &&& no_run(c, |x: char| x == ' ' || x == '\t', 2)
            &&& no_run(c, |x: char| x == '\n', 3)
            &&& rows::keep(c, seen()) == rows::keep(
                pattern::regex_replaced(pattern::HYPHEN_BREAK@, t, "$1$2"@),
                seen(),
            )
        }),
{
    reveal_strlit(" ");
    reveal_strlit("\n\n");
    let a = pattern::regex_replaced(pattern::HYPHEN_BREAK@, t, "$1$2"@);
    let blank = pattern::blank();
    let lf = pattern::line_break();
    let b = pattern::runs_replaced(a, blank, 1, " "@);
    let d = pattern::runs_replaced(b, lf, 3, "\n\n"@);
    let c = extract::cleaned(t);
    replacing_runs_leaves_none_longer(a, blank, 1, " "@, 2);
    replacing_runs_leaves_none_longer(b, lf, 3, "\n\n"@, 3);
    lemma_other_runs(b, lf, 3, "\n\n"@, blank);
    text_laws::trimming_takes_outer_whitespace(d);
    let lo = d.len() - text::ltrim(d).len();
    lemma_part_has_no_run(d, lo, lo + c.len(), blank, 2);
    lemma_part_has_no_run(d, lo, lo + c.len(), lf, 3);
    assert((|x: char| x == ' ' || x == '\t') =~= blank);
    assert((|x: char| x == '\n') =~= lf);
    replacing_runs_keeps_all_else(a, blank, 1, " "@, seen());
    replacing_runs_keeps_all_else(b, lf, 3, "\n\n"@, seen());
    lemma_trim_keeps(d, seen());
}

/// A text in normal form has no whitespace around it and no two whitespace characters side by side,
/// and keeps every other character of the text whose split words are joined.
pub proof fn normal_texts_are_tidy(t: Seq<char>)
    ensures
        ({
            let c = citemetric::normal_text(t);
            &&& c.len() > 0 ==> !text::is_white(c[0]) && !text::is_white(c.last())
            &&& no_run(c, |x: char| text::is_white(x), 2)
            &&& rows::keep(c, seen()) == rows::keep(
                pattern::ascii_joined(text::replaced(t, seq!['\u{00AD}'], Seq::empty())),
                seen(),
            )
        }),
{
    reveal_strlit(" ");
    let a = pattern::ascii_joined(text::replaced(t, seq!['\u{00AD}'], Seq::empty()));
    let white = pattern::white();
    let d = pattern::runs_replaced(a, white, 1, " "@);
    let c = citemetric::normal_text(t);
    replacing_runs_leaves_none_longer(a, white, 1, " "@, 2);
    text_laws::trimming_takes_outer_whitespace(d);
    let lo = d.len() - text::ltrim(d).len();
    lemma_part_has_no_run(d, lo, lo + c.len(), white, 2);
    assert((|x: char| text::is_white(x)) =~= white);
    replacing_runs_keeps_all_else(a, white, 1, " "@, seen());
    lemma_trim_keeps(d, seen());
}

proof fn lemma_joined_part(w: Seq<Seq<char>>, a: int, b: int, sep: Seq<char>)
    requires
        0 <= a < b <= w.len(),
    ensures
        text::contains(text::join(w, sep), text::join(w.subrange(a, b), sep)),
{
    let m = w.subrange(a, b);
    let j = text::join(m, sep);
    let upto = w.subrange(0, b);
    let head = if a == 0 {
        Seq::<char>::empty()
    } else {
        text::join(w.subrange(0, a), sep) + sep
    };
    if a == 0 {
        assert(upto =~= m);
    } else {
        assert(upto =~= w.subrange(0, a) + m);
        text_laws::joins_lie_side_by_side(w.subrange(0, a), m, sep);
    }
    assert(text::join(upto, sep) =~= head + j);
    let tail = if b == w.len() {
        Seq::<char>::empty()
    } else {
        sep + text::join(w.subrange(b, w.len() as int), sep)
    };
    if b == w.len() {
        assert(upto =~= w);
    } else {
        assert(w =~= upto + w.subrange(b, w.len() as int));
        text_laws::joins_lie_side_by_side(upto, w.subrange(b, w.len() as int), sep);
    }
    let s = text::join(w, sep);
    assert(s =~= head + j + tail);
    assert(s.subrange(head.len() as int, head.len() as int + j.len()) =~= j);
    assert(text::occurs_at(s, j, head.len() as int));
}

/// A text is the words from one place to another, eight of them or all that there are.
pub open spec fn is_stretch(w: Seq<Seq<char>>, a: int, b: int, t: Seq<char>) -> bool {
    &&& 0 <= a < b <= w.len()
    &&& b - a == if w.len() < 8 {
        w.len() as int
    } else {
        8
    }
    &&& t == text::join(w.subrange(a, b), " "@)
}

/// What is looked for of a passage stands in the passage: eight of its words side by side, or all of
/// them where it has fewer.
pub proof fn probes_stand_in_their_passage(cite: Seq<char>)
    ensures
        text::contains(citemetric::normal_text(cite), citemetric::probe(cite)),
        citemetric::normal_text(cite).len() > 0 ==> exists|a: int, b: int| #[trigger]
            is_stretch(
                text::split(citemetric::normal_text(cite), ' '),
                a,
                b,
                citemetric::probe(cite),
            ),
{
    reveal_strlit(" ");
    assert(" "@ =~= seq![' ']);
    let n = citemetric::normal_text(cite);
    if n.len() == 0 {
        assert(n.subrange(0, 0) =~= Seq::empty());
        assert(text::occurs_at(n, Seq::empty(), 0));
    } else {
        let w = text::split(n, ' ');
        let proper = citemetric::proper_words(w);
        crate::cite_laws::probes_begin_with_proper_words(proper);
        text_laws::splits_are_undone_by_joins(n, ' ');
        let at = citemetric::probe_start(proper, 0);
        let end = if at + 8 <= w.len() {
            at + 8
        } else {
            w.len() as int
        };
        if !crate::cite_laws::eight_proper(proper, at) {
            assert(at == 0);
        }
        lemma_joined_part(w, at, end, " "@);
        assert(is_stretch(w, at, end, citemetric::probe(cite)));
    }
}

} // verus!
