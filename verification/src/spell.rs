//! Spelling: how far two words are apart, and the repair of a query by the words of the passages
//! that it found.
use vstd::prelude::*;
use crate::order;
use crate::rows;
use crate::store::{RetrievedChunk, RetrievedV};
use crate::text;
use crate::unicode;

verus! {

/// The least of three numbers.
pub open spec fn least(a: nat, b: nat, c: nat) -> nat {
    if a <= b && a <= c {
        a
    } else if b <= c {
        b
    } else {
        c
    }
}

/// The Levenshtein distance of two words: the fewest insertions, deletions and replacements of a
/// character that turn one into the other.
pub open spec fn distance(a: Seq<char>, b: Seq<char>) -> nat
    decreases a.len() + b.len(),
{
    if a.len() == 0 {
        b.len()
    } else if b.len() == 0 {
        a.len()
    } else {
        least(
            distance(a.drop_last(), b) + 1,
            distance(a, b.drop_last()) + 1,
            distance(a.drop_last(), b.drop_last()) + (if a.last() == b.last() {
                0nat
            } else {
                1
            }),
        )
    }
}

pub proof fn lemma_distance_bounds(a: Seq<char>, b: Seq<char>)
    ensures
        distance(a, b) <= (if a.len() >= b.len() {
            a.len()
        } else {
            b.len()
        }),
        distance(a, b) + b.len() >= a.len(),
        distance(a, b) + a.len() >= b.len(),
    decreases a.len() + b.len(),
{
    if a.len() > 0 && b.len() > 0 {
        lemma_distance_bounds(a.drop_last(), b);
        lemma_distance_bounds(a, b.drop_last());
        lemma_distance_bounds(a.drop_last(), b.drop_last());
    }
}

/// A word is as far from another as the other from it.
pub proof fn distance_is_symmetric(a: Seq<char>, b: Seq<char>)
    ensures
        distance(a, b) == distance(b, a),
    decreases a.len() + b.len(),
{
    if a.len() > 0 && b.len() > 0 {
        distance_is_symmetric(a.drop_last(), b);
        distance_is_symmetric(a, b.drop_last());
        distance_is_symmetric(a.drop_last(), b.drop_last());
    }
}

/// Two words are no distance apart exactly if they are the same.
pub proof fn no_distance_means_equal(a: Seq<char>, b: Seq<char>)
    ensures
        distance(a, b) == 0 <==> a == b,
    decreases a.len() + b.len(),
{
    if a.len() == 0 {
        if b.len() == 0 {
            assert(a =~= b);
        }
    } else if b.len() > 0 {
        no_distance_means_equal(a.drop_last(), b.drop_last());
        if a == b {
            assert(a.drop_last() == b.drop_last());
        }
        if distance(a, b) == 0 {
            assert(a.drop_last().push(a.last()) =~= a);
            assert(b.drop_last().push(b.last()) =~= b);
        }
    }
}

/// A way round is never shorter: going by another word takes at least as many steps.
pub proof fn no_way_round_is_shorter(a: Seq<char>, b: Seq<char>, c: Seq<char>)
    ensures
        distance(a, c) <= distance(a, b) + distance(b, c),
    decreases a.len() + b.len() + c.len(),
{
    lemma_distance_bounds(a, b);
    lemma_distance_bounds(b, c);
    lemma_distance_bounds(a, c);
    if a.len() > 0 && b.len() > 0 && c.len() > 0 {
        let (x, y, z) = (a.drop_last(), b.drop_last(), c.drop_last());
        no_way_round_is_shorter(x, b, c);
        no_way_round_is_shorter(a, b, z);
        no_way_round_is_shorter(a, y, c);
        no_way_round_is_shorter(a, y, z);
        no_way_round_is_shorter(x, y, c);
        no_way_round_is_shorter(x, y, z);
    }
}

/// One word is another with a character put in.
pub open spec fn inserted(a: Seq<char>, b: Seq<char>) -> bool {
    exists|i: int, c: char| 0 <= i <= a.len() && b == #[trigger] a.insert(i, c)
}

/// One word is another with a character replaced.
pub open spec fn replaced(a: Seq<char>, b: Seq<char>) -> bool {
    exists|i: int, c: char| 0 <= i < a.len() && b == #[trigger] a.update(i, c)
}

/// One step: a character is put in, taken out or replaced.
pub open spec fn one_edit(a: Seq<char>, b: Seq<char>) -> bool {
    inserted(a, b) || inserted(b, a) || replaced(a, b)
}

/// So many steps lead from one word to another.
pub open spec fn edits(a: Seq<char>, b: Seq<char>, n: nat) -> bool
    decreases n,
{
    if n == 0 {
        a == b
    } else {
        exists|c: Seq<char>| #[trigger] one_edit(a, c) && edits(c, b, (n - 1) as nat)
    }
}

proof fn lemma_insert_is_near(a: Seq<char>, i: int, c: char)
    requires
        0 <= i <= a.len(),
    ensures
        distance(a, a.insert(i, c)) <= 1,
    decreases a.len(),
{
    let b = a.insert(i, c);
    if i == a.len() {
        assert(b.drop_last() =~= a);
        no_distance_means_equal(a, a);
        if a.len() == 0 {
            assert(b.len() == 1);
        }
    } else {
        lemma_insert_is_near(a.drop_last(), i, c);
        assert(b.drop_last() =~= a.drop_last().insert(i, c));
        assert(b.last() == a.last());
    }
}

proof fn lemma_replacement_is_near(a: Seq<char>, i: int, c: char)
    requires
        0 <= i < a.len(),
    ensures
        distance(a, a.update(i, c)) <= 1,
    decreases a.len(),
{
    let b = a.update(i, c);
    if i == a.len() - 1 {
        assert(b.drop_last() =~= a.drop_last());
        no_distance_means_equal(a.drop_last(), a.drop_last());
    } else {
        lemma_replacement_is_near(a.drop_last(), i, c);
        assert(b.drop_last() =~= a.drop_last().update(i, c));
        assert(b.last() == a.last());
    }
}

proof fn lemma_edit_is_near(a: Seq<char>, b: Seq<char>)
    requires
        one_edit(a, b),
    ensures
        distance(a, b) <= 1,
{
    if inserted(a, b) {
        let (i, c) = choose|i: int, c: char| 0 <= i <= a.len() && b == #[trigger] a.insert(i, c);
        lemma_insert_is_near(a, i, c);
    } else if inserted(b, a) {
        let (i, c) = choose|i: int, c: char| 0 <= i <= b.len() && a == #[trigger] b.insert(i, c);
        lemma_insert_is_near(b, i, c);
        distance_is_symmetric(a, b);
    } else {
        let (i, c) = choose|i: int, c: char| 0 <= i < a.len() && b == #[trigger] a.update(i, c);
        lemma_replacement_is_near(a, i, c);
    }
}

/// No fewer steps lead from one word to another than their distance.
pub proof fn fewer_edits_do_not_suffice(a: Seq<char>, b: Seq<char>, n: nat)
    requires
        edits(a, b, n),
    ensures
        distance(a, b) <= n,
    decreases n,
{
    if n == 0 {
        no_distance_means_equal(a, b);
    } else {
        let c = choose|c: Seq<char>| #[trigger] one_edit(a, c) && edits(c, b, (n - 1) as nat);
        fewer_edits_do_not_suffice(c, b, (n - 1) as nat);
        lemma_edit_is_near(a, c);
        no_way_round_is_shorter(a, c, b);
    }
}

proof fn lemma_edit_before_last(a: Seq<char>, b: Seq<char>, x: char)
    requires
        one_edit(a, b),
    ensures
        one_edit(a.push(x), b.push(x)),
{
    let (s, t) = (a.push(x), b.push(x));
    if inserted(a, b) {
        let (i, c) = choose|i: int, c: char| 0 <= i <= a.len() && b == #[trigger] a.insert(i, c);
        assert(t =~= s.insert(i, c));
    } else if inserted(b, a) {
        let (i, c) = choose|i: int, c: char| 0 <= i <= b.len() && a == #[trigger] b.insert(i, c);
        assert(s =~= t.insert(i, c));
    } else {
        let (i, c) = choose|i: int, c: char| 0 <= i < a.len() && b == #[trigger] a.update(i, c);
        assert(t =~= s.update(i, c));
    }
}

proof fn lemma_edits_before_last(a: Seq<char>, b: Seq<char>, n: nat, x: char)
    requires
        edits(a, b, n),
    ensures
        edits(a.push(x), b.push(x), n),
    decreases n,
{
    if n > 0 {
        let c = choose|c: Seq<char>| #[trigger] one_edit(a, c) && edits(c, b, (n - 1) as nat);
        lemma_edits_before_last(c, b, (n - 1) as nat, x);
        lemma_edit_before_last(a, c, x);
        assert(one_edit(a.push(x), c.push(x)));
    }
}

proof fn lemma_one_more_edit(a: Seq<char>, b: Seq<char>, c: Seq<char>, n: nat)
    requires
        edits(a, b, n),
        one_edit(b, c),
    ensures
        edits(a, c, n + 1),
    decreases n,
{
    if n == 0 {
        assert(one_edit(a, c) && edits(c, c, 0));
    } else {
        let d = choose|d: Seq<char>| #[trigger] one_edit(a, d) && edits(d, b, (n - 1) as nat);
        lemma_one_more_edit(d, b, c, (n - 1) as nat);
        assert(one_edit(a, d) && edits(d, c, n));
    }
}

/// As many steps as their distance lead from one word to another.
pub proof fn distance_many_edits_suffice(a: Seq<char>, b: Seq<char>)
    ensures
        edits(a, b, distance(a, b)),
    decreases a.len() + b.len(),
{
    let n = distance(a, b);
    if a.len() == 0 && b.len() == 0 {
        assert(a =~= b);
    } else if a.len() == 0 || (b.len() > 0 && n == distance(a, b.drop_last()) + 1) {
        let y = b.drop_last();
        distance_many_edits_suffice(a, y);
        assert(y.insert(y.len() as int, b.last()) =~= b);
        assert(inserted(y, b));
        lemma_one_more_edit(a, y, b, distance(a, y));
    } else if b.len() == 0 || n == distance(a.drop_last(), b) + 1 {
        let x = a.drop_last();
        distance_many_edits_suffice(x, b);
        assert(x.insert(x.len() as int, a.last()) =~= a);
        assert(inserted(x, a));
        assert(one_edit(a, x) && edits(x, b, distance(x, b)));
    } else {
        let (x, y) = (a.drop_last(), b.drop_last());
        distance_many_edits_suffice(x, y);
        lemma_edits_before_last(x, y, distance(x, y), a.last());
        assert(x.push(a.last()) =~= a);
        let c = y.push(a.last());
        if a.last() == b.last() {
            assert(c =~= b);
        } else {
            assert(c.update(y.len() as int, b.last()) =~= b);
            assert(replaced(c, b));
            lemma_one_more_edit(a, c, b, distance(x, y));
        }
    }
}

fn min3(a: u128, b: u128, c: u128) -> (r: u128)
    ensures
        r == least(a as nat, b as nat, c as nat),
{
    if a <= b && a <= c {
        a
    } else if b <= c {
        b
    } else {
        c
    }
}

/// The Levenshtein distance of two words.
pub fn edit_distance(x: &str, y: &str) -> (r: usize)
    ensures
        r == distance(x@, y@),
{
    let a = text::chars_of(x);
    let b = text::chars_of(y);
    let mut prev: Vec<u128> = Vec::new();
    prev.push(0);
    assert(a@.take(0) =~= Seq::empty());
    assert(b@.take(0) =~= Seq::empty());
    for j in 0..b.len()
        invariant
            prev@.len() == j + 1,
            forall|k: int|
                0 <= k <= j ==> (#[trigger] prev@[k]) == distance(a@.take(0), b@.take(k)),
            a@.take(0).len() == 0,
    {
        prev.push(j as u128 + 1);
    }
    for i in 0..a.len()
        invariant
            prev@.len() == b@.len() + 1,
            forall|k: int|
                0 <= k <= b@.len() ==> (#[trigger] prev@[k]) == distance(
                    a@.take(i as int),
                    b@.take(k),
                ),
    {
        let mut cur: Vec<u128> = Vec::new();
        cur.push(i as u128 + 1);
        let ghost t = a@.take(i + 1);
        proof {
            assert(t.drop_last() =~= a@.take(i as int));
            assert(t.last() == a@[i as int]);
            assert(b@.take(0).len() == 0);
        }
        for j in 0..b.len()
            invariant
                i < a@.len(),
                t == a@.take(i + 1),
                t.len() == i + 1,
                t.drop_last() == a@.take(i as int),
                t.last() == a@[i as int],
                prev@.len() == b@.len() + 1,
                forall|k: int|
                    0 <= k <= b@.len() ==> (#[trigger] prev@[k]) == distance(
                        a@.take(i as int),
                        b@.take(k),
                    ),
                cur@.len() == j + 1,
                forall|k: int|
                    0 <= k <= j ==> (#[trigger] cur@[k]) == distance(t, b@.take(k)),
        {
            let cost: u128 = if a[i] == b[j] {
                0
            } else {
                1
            };
            proof {
                let u = b@.take(j + 1);
                assert(u.drop_last() =~= b@.take(j as int));
                assert(u.last() == b@[j as int]);
                lemma_distance_bounds(a@.take(i as int), b@.take(j as int));
                lemma_distance_bounds(a@.take(i as int), u);
                lemma_distance_bounds(t, b@.take(j as int));
            }
            let up: u128 = prev[j + 1];
            let left: u128 = cur[j];
            let corner: u128 = prev[j];
            cur.push(min3(up + 1, left + 1, corner + cost));
        }
        prev = cur;
    }
    proof {
        assert(a@.take(a@.len() as int) =~= a@);
        assert(b@.take(b@.len() as int) =~= b@);
        lemma_distance_bounds(a@, b@);
    }
    prev[b.len()] as usize
}

// ---- vocabulary ------------------------------------------------------------------------------

/// A piece of text that counts as a word: three characters or more, all letters.
pub open spec fn is_word(p: Seq<char>) -> bool {
    p.len() >= 3 && forall|i: int|
        0 <= i < p.len() ==> unicode::char_alphabetic(#[trigger] p[i])
}

/// The words among some pieces, in lower case.
pub open spec fn words_among(p: Seq<Seq<char>>) -> Seq<Seq<char>>
    decreases p.len(),
{
    if p.len() == 0 {
        Seq::empty()
    } else {
        let before = words_among(p.drop_last());
        if is_word(p.last()) {
            before.push(unicode::text_lower(p.last()))
        } else {
            before
        }
    }
}

/// The words of some passages, in lower case and as often as they occur.
pub open spec fn vocabulary(v: Seq<RetrievedV>) -> Seq<Seq<char>>
    decreases v.len(),
{
    if v.len() == 0 {
        Seq::empty()
    } else {
        vocabulary(v.drop_last()) + words_among(unicode::pieces(v.last().text))
    }
}

fn counts_as_word(p: &[char]) -> (r: bool)
    ensures
        r == is_word(p@),
{
    if p.len() < 3 {
        return false;
    }
    for i in 0..p.len()
        invariant
            forall|k: int| 0 <= k < i ==> unicode::char_alphabetic(#[trigger] p@[k]),
    {
        if !unicode::is_alphabetic(p[i]) {
            return false;
        }
    }
    true
}

/// The words of some passages, in lower case and as often as they occur.
pub fn words_of_passages(v: &[RetrievedChunk]) -> (r: Vec<String>)
    ensures
        text::texts(r@) == vocabulary(rows::vals(v@)),
{
    let ghost all = rows::vals(v@);
    let mut out: Vec<String> = Vec::new();
    assert(text::texts(out@) =~= vocabulary(all.take(0)));
    for i in 0..v.len()
        invariant
            all == rows::vals(v@),
            text::texts(out@) == vocabulary(all.take(i as int)),
    {
        proof {
            assert(all.take(i + 1).drop_last() =~= all.take(i as int));
            assert(all.take(i + 1).last() == v@[i as int]@);
        }
        let p = unicode::pieces_of(&text::chars_of(v[i].text.as_str()));
        let ghost before = text::texts(out@);
        let ghost ps = unicode::pieces(v@[i as int]@.text);
        assert(before + words_among(ps.take(0)) =~= before);
        for j in 0..p.len()
            invariant
                ps.len() == p@.len(),
                forall|k: int| 0 <= k < p@.len() ==> (#[trigger] p@[k])@ == ps[k],
                text::texts(out@) == before + words_among(ps.take(j as int)),
        {
            proof {
                assert(ps.take(j + 1).drop_last() =~= ps.take(j as int));
                assert(ps.take(j + 1).last() == p@[j as int]@);
            }
            if counts_as_word(&p[j]) {
                let w = unicode::lower_text(text::string_of(&p[j]).as_str());
                let ghost so_far = text::texts(out@);
                proof {
                    text::lemma_texts_push(out@, w);
                }
                out.push(w);
                assert(text::texts(out@) =~= before + words_among(ps.take(j + 1)));
            }
        }
        assert(ps.take(ps.len() as int) =~= ps);
    }
    assert(all.take(all.len() as int) =~= all);
    out
}

/// How often a word occurs.
pub open spec fn frequency(vocab: Seq<Seq<char>>, w: Seq<char>) -> nat
    decreases vocab.len(),
{
    if vocab.len() == 0 {
        0
    } else {
        frequency(vocab.drop_last(), w) + (if vocab.last() == w {
            1nat
        } else {
            0
        })
    }
}

fn count_word(vocab: &Vec<String>, w: &str) -> (r: usize)
    ensures
        r == frequency(text::texts(vocab@), w@),
{
    let ghost all = text::texts(vocab@);
    let mut n: usize = 0;
    assert(all.take(0) =~= Seq::empty());
    for i in 0..vocab.len()
        invariant
            all == text::texts(vocab@),
            n == frequency(all.take(i as int), w@),
            n <= i,
    {
        proof {
            assert(all.take(i + 1).drop_last() =~= all.take(i as int));
            assert(all.take(i + 1).last() == vocab@[i as int]@);
        }
        if text::same_text(vocab[i].as_str(), w) {
            n = n + 1;
        }
    }
    assert(all.take(all.len() as int) =~= all);
    n
}

// ---- repair ----------------------------------------------------------------------------------

/// How far a word may be from what was meant: one step, or two for a word of more than five
/// characters.
pub open spec fn reach(low: Seq<char>) -> nat {
    if low.len() > 5 {
        2
    } else {
        1
    }
}

/// The difference of two numbers.
pub open spec fn apart(a: nat, b: nat) -> nat {
    if a <= b {
        (b - a) as nat
    } else {
        (a - b) as nat
    }
}

/// A word that may have been meant: it begins alike, is about as long, and is near but not equal.
pub open spec fn plausible(low: Seq<char>, w: Seq<char>) -> bool {
    &&& low.len() > 0
    &&& w.len() > 0
    &&& w[0] == low[0]
    &&& apart(w.len(), low.len()) <= reach(low)
    &&& 1 <= distance(low, w) <= reach(low)
}

/// A likelier word: a nearer one, of equally near ones the more frequent, then the first by name.
pub open spec fn likelier(
    vocab: Seq<Seq<char>>,
    low: Seq<char>,
    a: Seq<char>,
    b: Seq<char>,
) -> bool {
    ||| distance(low, a) < distance(low, b)
    ||| distance(low, a) == distance(low, b) && frequency(vocab, a) > frequency(vocab, b)
    ||| distance(low, a) == distance(low, b) && frequency(vocab, a) == frequency(vocab, b)
        && order::before(a, b)
}

/// The likeliest plausible word among the first `n` of the vocabulary.
pub open spec fn likeliest(vocab: Seq<Seq<char>>, low: Seq<char>, n: nat) -> Option<Seq<char>>
    decreases n,
{
    if n == 0 {
        None
    } else {
        let best = likeliest(vocab, low, (n - 1) as nat);
        let w = vocab[n - 1];
        if plausible(low, w) && (best is None || likelier(vocab, low, w, best->0)) {
            Some(w)
        } else {
            best
        }
    }
}

/// The likeliest plausible word of the vocabulary.
pub open spec fn meant(vocab: Seq<Seq<char>>, low: Seq<char>) -> Option<Seq<char>> {
    likeliest(vocab, low, vocab.len())
}

fn is_plausible(low: &str, w: &str) -> (r: bool)
    ensures
        r == plausible(low@, w@),
{
    let a = text::chars_of(low);
    let b = text::chars_of(w);
    if a.len() == 0 || b.len() == 0 || b[0] != a[0] {
        return false;
    }
    let la: usize = a.len();
    let lb: usize = b.len();
    let maxd: usize = if la > 5 {
        2
    } else {
        1
    };
    let diff: usize = if lb <= la {
        la - lb
    } else {
        lb - la
    };
    if diff > maxd {
        return false;
    }
    let d: usize = edit_distance(low, w);
    1 <= d && d <= maxd
}

fn is_likelier(vocab: &Vec<String>, low: &str, a: &str, b: &str) -> (r: bool)
    ensures
        r == likelier(text::texts(vocab@), low@, a@, b@),
{
    let da: usize = edit_distance(low, a);
    let db: usize = edit_distance(low, b);
    if da != db {
        return da < db;
    }
    let fa: usize = count_word(vocab, a);
    let fb: usize = count_word(vocab, b);
    if fa != fb {
        return fa > fb;
    }
    order::comes_before(a, b)
}

/// The likeliest plausible word of a vocabulary.
pub fn likeliest_word(vocab: &Vec<String>, low: &str) -> (r: Option<String>)
    ensures
        text::opt_text(r) == meant(text::texts(vocab@), low@),
{
    let ghost all = text::texts(vocab@);
    let mut best: Option<String> = None;
    for i in 0..vocab.len()
        invariant
            all == text::texts(vocab@),
            text::opt_text(best) == likeliest(all, low@, i as nat),
    {
        assert(all[i as int] == vocab@[i as int]@);
        if is_plausible(low, vocab[i].as_str()) {
            let better = match &best {
                None => true,
                Some(b) => is_likelier(vocab, low, vocab[i].as_str(), b.as_str()),
            };
            if better {
                best = Some(vocab[i].clone());
            }
        }
    }
    best
}

/// What a token of a query is repaired to, if it is: only words of four characters or more
/// that the vocabulary does not know are.
pub open spec fn repair(vocab: Seq<Seq<char>>, low: Seq<char>) -> Option<Seq<char>> {
    if low.len() < 4 || vocab.contains(low) {
        None
    } else {
        meant(vocab, low)
    }
}

/// The repair of every token, which are given with their folded forms.
pub open spec fn repaired_tokens(
    vocab: Seq<Seq<char>>,
    toks: Seq<Seq<char>>,
    lows: Seq<Seq<char>>,
) -> Seq<Seq<char>> {
    Seq::new(
        toks.len(),
        |i: int|
            match repair(vocab, lows[i]) {
                Some(w) => w,
                None => toks[i],
            },
    )
}

/// Some token is repaired.
pub open spec fn any_repair(vocab: Seq<Seq<char>>, lows: Seq<Seq<char>>) -> bool {
    exists|i: int| 0 <= i < lows.len() && repair(vocab, #[trigger] lows[i]) is Some
}

/// A query repaired by a vocabulary; as it was, where nothing is to be repaired.
pub open spec fn repaired(
    vocab: Seq<Seq<char>>,
    query: Seq<char>,
    lows: Seq<Seq<char>>,
) -> Seq<char> {
    if any_repair(vocab, lows) {
        text::join(repaired_tokens(vocab, text::words(query), lows), " "@)
    } else {
        query
    }
}

/// The folded forms of tokens: their letters and digits in lower case.
pub open spec fn folded(toks: Seq<Seq<char>>) -> Seq<Seq<char>> {
    Seq::new(toks.len(), |i: int| unicode::lowered(unicode::alphanumerics(toks[i])))
}

/// Repairs a query whose tokens are given with their folded forms.
pub fn repair_query(query: &str, toks: &Vec<String>, lows: &Vec<String>, vocab: &Vec<String>) -> (r:
    String)
    requires
        text::texts(toks@) == text::words(query@),
        lows@.len() == toks@.len(),
    ensures
        r@ == repaired(text::texts(vocab@), query@, text::texts(lows@)),
{
    let ghost voc = text::texts(vocab@);
    let ghost ls = text::texts(lows@);
    let ghost ts = text::texts(toks@);
    let mut changed = false;
    let mut out: Vec<String> = Vec::new();
    for i in 0..toks.len()
        invariant
            voc == text::texts(vocab@),
            ls == text::texts(lows@),
            ts == text::texts(toks@),
            lows@.len() == toks@.len(),
            out@.len() == i,
            forall|k: int|
                0 <= k < i ==> (#[trigger] out@[k])@ == repaired_tokens(voc, ts, ls)[k],
            changed == exists|k: int| 0 <= k < i && repair(voc, #[trigger] ls[k]) is Some,
    {
        let low = lows[i].as_str();
        assert(ls[i as int] == low@);
        assert(ts[i as int] == toks@[i as int]@);
        let fix = if low.unicode_len() < 4 || order::holds(vocab, low) {
            None
        } else {
            likeliest_word(vocab, low)
        };
        assert(text::opt_text(fix) == repair(voc, ls[i as int]));
        match fix {
            Some(w) => {
                changed = true;
                out.push(w);
            },
            None => {
                out.push(toks[i].clone());
            },
        }
    }
    if changed {
        assert(text::texts(out@) =~= repaired_tokens(voc, ts, ls));
        text::join_strs(&out, " ")
    } else {
        query.to_owned()
    }
}

/// A query repaired by the words of the passages it found.
pub open spec fn corrected(query: Seq<char>, v: Seq<RetrievedV>) -> Seq<char> {
    repaired(vocabulary(v), query, folded(text::words(query)))
}

/// Repairs misspelled terms of a query by the words of the passages it found, so that they are
/// judged as what they mean. Only long, unknown terms with a close neighbour change.
pub fn correct_query(query: &str, candidates: &[RetrievedChunk]) -> (r: String)
    ensures
        r@ == corrected(query@, rows::vals(candidates@)),
{
    let vocab = words_of_passages(candidates);
    let toks = text::words_of(&text::chars_of(query));
    let ghost ts = text::texts(toks@);
    let mut lows: Vec<String> = Vec::new();
    for i in 0..toks.len()
        invariant
            ts == text::texts(toks@),
            lows@.len() == i,
            forall|k: int| 0 <= k < i ==> (#[trigger] lows@[k])@ == folded(ts)[k],
    {
        assert(ts[i as int] == toks@[i as int]@);
        let low = unicode::folded_word(&text::chars_of(toks[i].as_str()));
        lows.push(text::string_of(&low));
    }
    assert(text::texts(lows@) =~= folded(ts));
    repair_query(query, &toks, &lows, &vocab)
}

/// A query whose terms the passages all know is left as it is.
pub proof fn known_words_are_left_alone(
    vocab: Seq<Seq<char>>,
    query: Seq<char>,
    lows: Seq<Seq<char>>,
)
    requires
        forall|i: int|
            0 <= i < lows.len() ==> vocab.contains(#[trigger] lows[i]) || lows[i].len() < 4,
    ensures
        repaired(vocab, query, lows) == query,
{
}

proof fn lemma_likeliest(vocab: Seq<Seq<char>>, low: Seq<char>, n: nat)
    requires
        n <= vocab.len(),
    ensures
        match likeliest(vocab, low, n) {
            Some(w) => vocab.contains(w) && plausible(low, w),
            None => forall|i: int| 0 <= i < n ==> !plausible(low, #[trigger] vocab[i]),
        },
    decreases n,
{
    if n > 0 {
        lemma_likeliest(vocab, low, (n - 1) as nat);
    }
}

/// A repair is always a word of the passages, one or two steps from what was typed; and where there
/// is such a word for an unknown term, the term is repaired.
pub proof fn repairs_are_near_words_of_the_passages(vocab: Seq<Seq<char>>, low: Seq<char>)
    ensures
        match repair(vocab, low) {
            Some(w) => {
                &&& vocab.contains(w)
                &&& 1 <= distance(low, w) <= 2
                &&& w[0] == low[0]
            },
            None => low.len() < 4 || vocab.contains(low) || forall|i: int|
                0 <= i < vocab.len() ==> !plausible(low, #[trigger] vocab[i]),
        },
{
    lemma_likeliest(vocab, low, vocab.len());
}

} // verus!
