//! Do citations still hold? A cited passage is looked for in the text of its book as a reader would
//! look for it, and the outcome is classified.
use vstd::prelude::*;
use crate::order;
use crate::pattern;
use crate::rows;
use crate::text;
use crate::unicode;

verus! {

// ---- normal forms ----------------------------------------------------------------------------

/// A text without soft hyphens and ASCII hyphenation, its whitespace collapsed.
pub open spec fn normal_text(s: Seq<char>) -> Seq<char> {
    let a = text::replaced(s, seq!['\u{00AD}'], Seq::empty());
    text::trim(pattern::runs_replaced(pattern::ascii_joined(a), pattern::white(), 1, " "@))
}

/// Removes soft hyphens and ASCII hyphenation and collapses whitespace. Words of other scripts are
/// never joined.
pub fn norm_text(s: &str) -> (r: String)
    ensures
        r@ == normal_text(s@),
{
    let v = text::chars_of(s);
    let soft = ['\u{00AD}'];
    let none: [char; 0] = [];
    assert(soft@ =~= seq!['\u{00AD}']);
    assert(none@ =~= Seq::empty());
    let a = text::replace_chars(&v, &soft, &none);
    let b = pattern::replace_all(pattern::ASCII_HYPHEN, text::string_of(&a).as_str(), "$1$2");
    let c = pattern::replace_all(pattern::SPACES, b.as_str(), " ");
    text::trim_str(c.as_str())
}

/// A text in lower case, as a search that ignores case sees it.
pub fn fold(s: &str) -> (r: String)
    ensures
        r@ == unicode::text_lower(s@),
{
    unicode::lower_text(s)
}

/// A chapter's label without numbers and their words.
pub open spec fn normal_chapter(s: Seq<char>) -> Seq<char> {
    let a = pattern::regex_replaced_once(pattern::CHAPTER_PREFIX@, normal_text(s), ""@);
    let b = pattern::regex_replaced_once(pattern::CHAPTER_NUMBER@, a, ""@);
    let c = pattern::regex_replaced_once(pattern::CHAPTER_ROMAN@, b, ""@);
    unicode::text_lower(c)
}

/// A chapter's label without numbers and their words, in lower case.
pub fn norm_chapter(s: &str) -> (r: String)
    ensures
        r@ == normal_chapter(s@),
{
    let t = norm_text(s);
    let a = pattern::replace_once(pattern::CHAPTER_PREFIX, t.as_str(), "");
    let b = pattern::replace_once(pattern::CHAPTER_NUMBER, a.as_str(), "");
    let c = pattern::replace_once(pattern::CHAPTER_ROMAN, b.as_str(), "");
    unicode::lower_text(c.as_str())
}

/// A text with its whitespace collapsed, in lower case.
pub open spec fn normal_md(s: Seq<char>) -> Seq<char> {
    unicode::text_lower(text::trim(pattern::runs_replaced(s, pattern::white(), 1, " "@)))
}

/// A text of nothing but whitespace.
pub open spec fn all_white(s: Seq<char>) -> bool {
    forall|i: int| 0 <= i < s.len() ==> text::is_white(#[trigger] s[i])
}

proof fn lemma_ltrim_white(s: Seq<char>)
    ensures
        text::ltrim(s).len() == 0 <==> all_white(s),
        text::ltrim(s).len() > 0 ==> !text::is_white(text::ltrim(s)[0]),
    decreases s.len(),
{
    if s.len() > 0 && text::is_white(s[0]) {
        let t = s.skip(1);
        lemma_ltrim_white(t);
        if all_white(t) {
            assert forall|i: int| 0 <= i < s.len() implies text::is_white(#[trigger] s[i]) by {
                if i > 0 {
                    assert(t[i - 1] == s[i]);
                }
            }
        }
        if all_white(s) {
            assert forall|i: int| 0 <= i < t.len() implies text::is_white(#[trigger] t[i]) by {
                assert(t[i] == s[i + 1]);
            }
        }
    }
}

proof fn lemma_rtrim_keeps(s: Seq<char>)
    requires
        s.len() > 0,
        !text::is_white(s[0]),
    ensures
        text::rtrim(s).len() > 0,
    decreases s.len(),
{
    if text::is_white(s.last()) {
        lemma_rtrim_keeps(s.drop_last());
    }
}

/// Trimming leaves nothing exactly of a text of nothing but whitespace.
pub proof fn lemma_trim_white(s: Seq<char>)
    ensures
        text::trim(s).len() == 0 <==> all_white(s),
{
    lemma_ltrim_white(s);
    if text::ltrim(s).len() > 0 {
        lemma_rtrim_keeps(text::ltrim(s));
    }
}

proof fn lemma_collapsed_white(s: Seq<char>)
    ensures
        all_white(pattern::runs_replaced(s, pattern::white(), 1, " "@)) <==> all_white(s),
    decreases s.len(),
{
    reveal_strlit(" ");
    if s.len() > 0 {
        let p = pattern::white();
        let n = pattern::leading(s, p) as int;
        let r = pattern::runs_replaced(s, p, 1, " "@);
        text::lemma_until_bounds(s, |c: char| !p(c));
        if n == 0 {
            assert(r[0] == s[0]);
            assert(!text::is_white(s[0]));
        } else {
            let t = s.skip(n);
            let u = pattern::runs_replaced(t, p, 1, " "@);
            lemma_collapsed_white(t);
            assert(r == " "@ + u);
            if all_white(r) {
                assert forall|i: int| 0 <= i < u.len() implies text::is_white(#[trigger] u[i]) by {
                    assert(r[i + 1] == u[i]);
                }
                assert forall|i: int| 0 <= i < s.len() implies text::is_white(#[trigger] s[i]) by {
                    if i >= n {
                        assert(t[i - n] == s[i]);
                    } else {
                        assert(p(s[i]));
                    }
                }
            }
            if all_white(s) {
                assert forall|i: int| 0 <= i < t.len() implies text::is_white(#[trigger] t[i]) by {
                    assert(t[i] == s[i + n]);
                }
                assert forall|i: int| 0 <= i < r.len() implies text::is_white(#[trigger] r[i]) by {
                    if i > 0 {
                        assert(r[i] == u[i - 1]);
                    }
                }
            }
        }
    }
}

/// Collapses whitespace and lowers case. Nothing is joined, and only whitespace gives nothing.
pub fn md_norm(s: &str) -> (r: String)
    ensures
        r@ == normal_md(s@),
        r@.len() == 0 <==> all_white(s@),
{
    proof {
        lemma_collapsed_white(s@);
        lemma_trim_white(pattern::runs_replaced(s@, pattern::white(), 1, " "@));
    }
    let a = pattern::replace_all(pattern::SPACES, s, " ");
    unicode::lower_text(text::trim_str(a.as_str()).as_str())
}

// ---- labels ----------------------------------------------------------------------------------

/// The first text from the `i`th on that is the one wanted.
pub open spec fn first_equal(v: Seq<Seq<char>>, want: Seq<char>) -> Option<int> {
    rows::first_where(v, is_text(want))
}

/// The text is the one wanted.
pub open spec fn is_text(want: Seq<char>) -> spec_fn(Seq<char>) -> bool {
    |l: Seq<char>| l == want
}

/// The label is long enough and contains the one wanted, or is contained in it.
pub open spec fn overlaps(want: Seq<char>) -> spec_fn(Seq<char>) -> bool {
    |l: Seq<char>| l.len() >= 6 && (text::contains(l, want) || text::contains(want, l))
}

/// The words of three characters or more.
pub open spec fn long_words(v: Seq<Seq<char>>) -> Seq<Seq<char>>
    decreases v.len(),
{
    if v.len() == 0 {
        Seq::empty()
    } else if v.last().len() >= 3 {
        long_words(v.drop_last()).push(v.last())
    } else {
        long_words(v.drop_last())
    }
}

/// The distinct words of three characters or more in a label.
pub open spec fn tokens_in(s: Seq<char>) -> Seq<Seq<char>> {
    order::firsts(long_words(text::split(s, ' ')))
}

/// How many of some words are among others.
pub open spec fn common(a: Seq<Seq<char>>, b: Seq<Seq<char>>) -> nat
    decreases a.len(),
{
    if a.len() == 0 {
        0
    } else {
        common(a.drop_last(), b) + (if b.contains(a.last()) {
            1nat
        } else {
            0
        })
    }
}

/// How much two labels share: the words common to both, and all the words of both.
pub open spec fn shared(want: Seq<Seq<char>>, label: Seq<Seq<char>>) -> (int, int) {
    (
        common(want, label) as int,
        want.len() + label.len() - common(want, label),
    )
}

/// Two words in common at least, and three in five of all.
pub open spec fn enough_shared(s: (int, int)) -> bool {
    s.0 >= 2 && s.0 * 5 >= s.1 * 3
}

/// The label among the first `n` that shares most with the one wanted, if any shares enough; of
/// those that share alike, the first.
pub open spec fn best_label(v: Seq<Seq<char>>, want: Seq<Seq<char>>, n: nat) -> Option<int>
    decreases n,
{
    if n == 0 {
        None
    } else {
        let best = best_label(v, want, (n - 1) as nat);
        let t = tokens_in(v[n - 1]);
        let s = shared(want, t);
        if t.len() > 0 && enough_shared(s) && (match best {
            None => true,
            Some(b) => {
                let o = shared(want, tokens_in(v[b]));
                s.0 * o.1 > o.0 * s.1
            },
        }) {
            Some(n - 1)
        } else {
            best
        }
    }
}

/// The label that a stored chapter names among normal labels: the same one, else one that contains
/// it or is contained in it, else the one that shares most words with it.
pub open spec fn matching_label(v: Seq<Seq<char>>, want: Seq<char>) -> Option<int> {
    if want.len() == 0 {
        None
    } else if first_equal(v, want) is Some {
        first_equal(v, want)
    } else if want.len() >= 6 && rows::first_where(v, overlaps(want)) is Some {
        rows::first_where(v, overlaps(want))
    } else if tokens_in(want).len() < 2 {
        None
    } else {
        best_label(v, tokens_in(want), v.len())
    }
}

fn tokens_of(s: &str) -> (r: Vec<String>)
    ensures
        text::texts(r@) == tokens_in(s@),
{
    let parts = text::split_of(&text::chars_of(s), ' ');
    let ghost all = text::texts(parts@);
    let mut out: Vec<String> = Vec::new();
    assert(text::texts(out@) =~= order::firsts(long_words(all.take(0))));
    for i in 0..parts.len()
        invariant
            all == text::texts(parts@),
            text::texts(out@) == order::firsts(long_words(all.take(i as int))),
    {
        proof {
            assert(all.take(i + 1).drop_last() =~= all.take(i as int));
            assert(all.take(i + 1).last() == parts@[i as int]@);
        }
        if parts[i].as_str().unicode_len() >= 3 {
            proof {
                let l = long_words(all.take(i as int));
                assert(l.push(parts@[i as int]@).drop_last() =~= l);
            }
            if !order::holds(&out, parts[i].as_str()) {
                let w = parts[i].clone();
                proof {
                    text::lemma_texts_push(out@, w);
                }
                out.push(w);
            }
        }
    }
    assert(all.take(all.len() as int) =~= all);
    out
}

fn count_common(a: &Vec<String>, b: &Vec<String>) -> (r: usize)
    ensures
        r == common(text::texts(a@), text::texts(b@)),
        r <= a@.len(),
{
    let ghost all = text::texts(a@);
    let mut n: usize = 0;
    assert(all.take(0) =~= Seq::empty());
    for i in 0..a.len()
        invariant
            all == text::texts(a@),
            n == common(all.take(i as int), text::texts(b@)),
            n <= i,
    {
        proof {
            assert(all.take(i + 1).drop_last() =~= all.take(i as int));
            assert(all.take(i + 1).last() == a@[i as int]@);
        }
        if order::holds(b, a[i].as_str()) {
            n = n + 1;
        }
    }
    assert(all.take(all.len() as int) =~= all);
    n
}

fn find_best(v: &Vec<String>, want: &Vec<String>) -> (r: Option<usize>)
    ensures
        match r {
            Some(i) => i < v@.len() && best_label(
                text::texts(v@),
                text::texts(want@),
                v@.len(),
            ) == Some(i as int),
            None => best_label(text::texts(v@), text::texts(want@), v@.len()) is None,
        },
{
    let ghost all = text::texts(v@);
    let ghost w = text::texts(want@);
    let mut best: Option<usize> = None;
    let mut top: (u128, u128) = (0, 0);
    assert(w.len() == want@.len());
    for i in 0..v.len()
        invariant
            all == text::texts(v@),
            w == text::texts(want@),
            w.len() == want@.len(),
            match best {
                Some(b) => {
                    &&& b < i
                    &&& best_label(all, w, i as nat) == Some(b as int)
                    &&& (top.0 as int, top.1 as int) == shared(w, tokens_in(all[b as int]))
                    &&& top.0 <= 0xffff_ffff_ffff_ffff
                    &&& top.1 <= 0x1_ffff_ffff_ffff_ffff
                },
                None => best_label(all, w, i as nat) is None,
            },
    {
        assert(all[i as int] == v@[i as int]@);
        let t = tokens_of(v[i].as_str());
        assert(text::texts(t@).len() == t@.len());
        let c: usize = count_common(want, &t);
        let s0: u128 = c as u128;
        let s1: u128 = (want.len() as u128 + t.len() as u128) - c as u128;
        if t.len() > 0 && s0 >= 2 && s0 * 5 >= s1 * 3 {
            let better = match best {
                None => true,
                Some(_) => exceeds(s0, top.1, top.0, s1),
            };
            if better {
                best = Some(i);
                top = (s0, s1);
            }
        }
    }
    best
}

/// Whether one product exceeds another.
fn exceeds(a: u128, b: u128, c: u128, d: u128) -> (r: bool)
    requires
        a <= 0xffff_ffff_ffff_ffff,
        b <= 0x1_ffff_ffff_ffff_ffff,
        c <= 0xffff_ffff_ffff_ffff,
        d <= 0x1_ffff_ffff_ffff_ffff,
    ensures
        r == (a * b > c * d),
{
    let (bh, bl) = (b / 2, b % 2);
    let (dh, dl) = (d / 2, d % 2);
    assert(a * bh <= 0xffff_ffff_ffff_ffff * 0xffff_ffff_ffff_ffff) by (nonlinear_arith)
        requires
            a <= 0xffff_ffff_ffff_ffff,
            bh <= 0xffff_ffff_ffff_ffff,
    ;
    assert(c * dh <= 0xffff_ffff_ffff_ffff * 0xffff_ffff_ffff_ffff) by (nonlinear_arith)
        requires
            c <= 0xffff_ffff_ffff_ffff,
            dh <= 0xffff_ffff_ffff_ffff,
    ;
    let x: u128 = a * bh;
    let y: u128 = c * dh;
    let xl: u128 = if bl == 1 {
        a
    } else {
        0
    };
    let yl: u128 = if dl == 1 {
        c
    } else {
        0
    };
    assert(a * b == 2 * x + xl) by (nonlinear_arith)
        requires
            b == 2 * bh + bl,
            x == a * bh,
            bl == 0 || bl == 1,
            bl == 1 ==> xl == a,
            bl == 0 ==> xl == 0,
    ;
    assert(c * d == 2 * y + yl) by (nonlinear_arith)
        requires
            d == 2 * dh + dl,
            y == c * dh,
            dl == 0 || dl == 1,
            dl == 1 ==> yl == c,
            dl == 0 ==> yl == 0,
    ;
    if x >= y {
        let gap: u128 = x - y;
        gap > 0xffff_ffff_ffff_ffff || 2 * gap + xl > yl
    } else {
        let gap: u128 = y - x;
        gap <= 0xffff_ffff_ffff_ffff && xl > 2 * gap + yl
    }
}

/// The label that a stored chapter names among normal labels.
pub fn match_label(v: &Vec<String>, want: &str) -> (r: Option<usize>)
    ensures
        match r {
            Some(i) => i < v@.len() && matching_label(text::texts(v@), want@) == Some(i as int),
            None => matching_label(text::texts(v@), want@) is None,
        },
{
    let ghost all = text::texts(v@);
    assert(rows::vals(v@) =~= all);
    let w = text::chars_of(want);
    if w.len() == 0 {
        return None;
    }
    let same: Option<usize> = rows::find_where(
        v,
        |l: &String| -> (b: bool)
            ensures
                b == is_text(want@)(l@)
            { text::same_text(l.as_str(), want) },
        Ghost(is_text(want@)),
    );
    if same.is_some() {
        return same;
    }
    if w.len() >= 6 {
        let near: Option<usize> = rows::find_where(
            v,
            |l: &String| -> (b: bool)
                ensures
                    b == overlaps(want@)(l@)
                {
                    let c = text::chars_of(l.as_str());
                    c.len() >= 6 && (text::has(&c, &w) || text::has(&w, &c))
                },
            Ghost(overlaps(want@)),
        );
        if near.is_some() {
            return near;
        }
    }
    let tokens = tokens_of(want);
    assert(text::texts(tokens@).len() == tokens@.len());
    if tokens.len() < 2 {
        return None;
    }
    find_best(v, &tokens)
}

/// The labels in normal form.
pub open spec fn normal_labels(v: Seq<Seq<char>>) -> Seq<Seq<char>> {
    Seq::new(v.len(), |i: int| normal_chapter(v[i]))
}

/// The label that a stored chapter names.
pub fn find_label(labels: &[String], stored: &str) -> (r: Option<usize>)
    ensures
        match r {
            Some(i) => i < labels@.len() && matching_label(
                normal_labels(text::texts(labels@)),
                normal_chapter(stored@),
            ) == Some(i as int),
            None => matching_label(
                normal_labels(text::texts(labels@)),
                normal_chapter(stored@),
            ) is None,
        },
{
    let want = norm_chapter(stored);
    let mut normed: Vec<String> = Vec::new();
    for i in 0..labels.len()
        invariant
            normed@.len() == i,
            forall|k: int| 0 <= k < i ==> (#[trigger] normed@[k])@ == normal_chapter(labels@[k]@),
    {
        normed.push(norm_chapter(labels[i].as_str()));
    }
    assert(text::texts(normed@) =~= normal_labels(text::texts(labels@)));
    match_label(&normed, want.as_str())
}

// ---- probes ----------------------------------------------------------------------------------

/// How many words a probe has.
pub const PROBE_WORDS: usize = 8;

/// How many letters a word has.
pub open spec fn letters(s: Seq<char>) -> nat
    decreases s.len(),
{
    if s.len() == 0 {
        0
    } else {
        letters(s.drop_last()) + (if unicode::char_alphabetic(s.last()) {
            1nat
        } else {
            0
        })
    }
}

/// Eight words from `i` on are all proper words.
pub open spec fn proper_run(proper: Seq<bool>, i: int) -> bool {
    0 <= i && i + PROBE_WORDS <= proper.len() && forall|k: int|
        i <= k < i + PROBE_WORDS ==> #[trigger] proper[k]
}

/// Where the first run of proper words from `i` on begins; the start where there is none.
pub open spec fn probe_start(proper: Seq<bool>, i: int) -> int
    decreases proper.len() - i,
{
    if i < 0 || i + PROBE_WORDS > proper.len() {
        0
    } else if proper_run(proper, i) {
        i
    } else {
        probe_start(proper, i + 1)
    }
}

/// The probe among words: eight from the first run of proper words on, or the first eight.
pub open spec fn probe_in(words: Seq<Seq<char>>, proper: Seq<bool>) -> Seq<char> {
    let at = probe_start(proper, 0);
    let end = if at + PROBE_WORDS <= words.len() {
        at + PROBE_WORDS
    } else {
        words.len() as int
    };
    text::join(words.subrange(at, end), " "@)
}

fn is_proper_run(proper: &Vec<bool>, i: usize) -> (r: bool)
    requires
        i + PROBE_WORDS <= proper@.len(),
    ensures
        r == proper_run(proper@, i as int),
{
    let count: usize = proper.len();
    assert(i + PROBE_WORDS <= count);
    for k in i..i + PROBE_WORDS
        invariant
            i + PROBE_WORDS <= proper@.len(),
            forall|j: int| i <= j < k ==> #[trigger] proper@[j],
    {
        if !proper[k] {
            return false;
        }
    }
    true
}

/// The probe among words that are given with whether they are proper.
pub fn pick_probe(words: &Vec<String>, proper: &Vec<bool>) -> (r: String)
    requires
        proper@.len() == words@.len(),
    ensures
        r@ == probe_in(text::texts(words@), proper@),
{
    let ghost ws = text::texts(words@);
    let mut at: usize = 0;
    let count: usize = words.len();
    if count >= PROBE_WORDS {
        let last: usize = count - PROBE_WORDS;
        let mut i: usize = 0;
        let mut found = false;
        while i <= last && !found
            invariant
                proper@.len() == words@.len(),
                last + PROBE_WORDS == count,
                count == words@.len(),
                at <= last,
                i <= last + 1,
                if found {
                    at == probe_start(proper@, 0)
                } else {
                    at == 0 && probe_start(proper@, i as int) == probe_start(proper@, 0)
                },
            decreases last + 1 - i,
        {
            if is_proper_run(proper, i) {
                at = i;
                found = true;
            }
            i = i + 1;
        }
    }
    let end: usize = if words.len() - at <= PROBE_WORDS {
        words.len()
    } else {
        at + PROBE_WORDS
    };
    let part = vstd::slice::slice_subrange(words.as_slice(), at, end);
    assert(text::texts(part@) =~= ws.subrange(at as int, end as int));
    text::join_strs(part, " ")
}

/// Which words are proper: those with two letters or more.
pub open spec fn proper_words(v: Seq<Seq<char>>) -> Seq<bool> {
    Seq::new(v.len(), |i: int| letters(v[i]) >= 2)
}

/// What is looked for to find a cited passage.
pub open spec fn probe(cite: Seq<char>) -> Seq<char> {
    let n = normal_text(cite);
    if n.len() == 0 {
        Seq::empty()
    } else {
        let w = text::split(n, ' ');
        probe_in(w, proper_words(w))
    }
}

fn count_letters(v: &[char]) -> (r: usize)
    ensures
        r == letters(v@),
{
    let mut n: usize = 0;
    assert(v@.take(0) =~= Seq::empty());
    for i in 0..v.len()
        invariant
            n == letters(v@.take(i as int)),
            n <= i,
    {
        assert(v@.take(i + 1).drop_last() =~= v@.take(i as int));
        if unicode::is_alphabetic(v[i]) {
            n = n + 1;
        }
    }
    assert(v@.take(v@.len() as int) =~= v@);
    n
}

/// What is looked for to find a cited passage: the first eight proper words in a row. Where there
/// are none, the first eight words, junk included.
pub fn probe_of(cite: &str) -> (r: String)
    ensures
        r@ == probe(cite@),
{
    let n = norm_text(cite);
    if n.as_str().unicode_len() == 0 {
        let none = String::new();
        assert(none@ =~= Seq::empty());
        return none;
    }
    let words = text::split_of(&text::chars_of(n.as_str()), ' ');
    let ghost ws = text::texts(words@);
    let mut proper: Vec<bool> = Vec::new();
    for i in 0..words.len()
        invariant
            ws == text::texts(words@),
            proper@.len() == i,
            forall|k: int| 0 <= k < i ==> (#[trigger] proper@[k]) == (letters(ws[k]) >= 2),
    {
        assert(ws[i as int] == words@[i as int]@);
        proper.push(count_letters(&text::chars_of(words[i].as_str())) >= 2);
    }
    assert(proper@ =~= proper_words(ws));
    pick_probe(&words, &proper)
}

} // verus!
