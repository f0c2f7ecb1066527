//! What words are told from text, and which of them a query is repaired with.
use vstd::prelude::*;
use crate::order;
use crate::shape;
use crate::spell;
use crate::store::RetrievedV;
use crate::text;
use crate::unicode;
use vstd::seq_lib::*;

verus! {

/// The pieces of a text without separators are the text itself, and a separator parts the pieces of
/// what stands before it from those of what stands behind it.
pub proof fn separators_part_pieces(a: Seq<char>, c: char, b: Seq<char>)
    requires
        !unicode::char_alphanumeric(c),
    ensures
        unicode::pieces(a.push(c) + b) == unicode::pieces(a) + unicode::pieces(b),
    decreases b.len(),
{
    let s = a.push(c) + b;
    if b.len() == 0 {
        assert(s.drop_last() =~= a);
        assert(s.last() == c);
        assert(b =~= Seq::<char>::empty());
        assert(unicode::pieces(b) =~= seq![b]);
        assert(unicode::pieces(s) =~= unicode::pieces(a) + unicode::pieces(b));
    } else {
        separators_part_pieces(a, c, b.drop_last());
        unicode::lemma_pieces_not_empty(b.drop_last());
        assert(s.drop_last() =~= a.push(c) + b.drop_last());
        assert(s.last() == b.last());
        assert(unicode::pieces(s) =~= unicode::pieces(a) + unicode::pieces(b));
    }
}

/// A text of letters and digits is one piece.
pub proof fn letters_and_digits_are_one_piece(s: Seq<char>)
    requires
        forall|i: int| 0 <= i < s.len() ==> unicode::char_alphanumeric(#[trigger] s[i]),
    ensures
        unicode::pieces(s) == seq![s],
    decreases s.len(),
{
    if s.len() > 0 {
        let t = s.drop_last();
        assert forall|i: int| 0 <= i < t.len() implies unicode::char_alphanumeric(
            #[trigger] t[i],
        ) by {
            assert(t[i] == s[i]);
        }
        letters_and_digits_are_one_piece(t);
        assert(s[s.len() - 1] == s.last());
        assert(t.push(s.last()) =~= s);
        assert(unicode::pieces(s) =~= seq![s]);
    }
}

/// The letters and digits of a text are all kept, in order.
pub proof fn letters_and_digits_are_all_kept(s: Seq<char>)
    ensures
        shape::picks(
            s.len() as int,
            |i: int| unicode::char_alphanumeric(s[i]),
            |i: int| s[i],
            unicode::alphanumerics(s),
        ),
    decreases s.len(),
{
    let keep = |i: int| unicode::char_alphanumeric(s[i]);
    let value = |i: int| s[i];
    if s.len() == 0 {
        assert(unicode::alphanumerics(s) =~= Seq::empty());
        shape::lemma_picks_none(keep, value);
    } else {
        let less = s.drop_last();
        letters_and_digits_are_all_kept(less);
        let keep0 = |i: int| unicode::char_alphanumeric(less[i]);
        let value0 = |i: int| less[i];
        assert forall|i: int| 0 <= i < less.len() implies (#[trigger] keep0(i) <==> keep(i)) by {
            assert(less[i] == s[i]);
        }
        assert forall|i: int| 0 <= i < less.len() && #[trigger] keep0(i) implies value0(i) == value(
            i,
        ) by {
            assert(less[i] == s[i]);
        }
        shape::lemma_picks_step(
            less.len() as int,
            keep0,
            value0,
            keep,
            value,
            unicode::alphanumerics(less),
        );
    }
}

/// Every character is lowered in its place.
pub proof fn every_character_is_lowered(s: Seq<char>)
    ensures
        shape::laid(s.len() as int, |i: int| unicode::char_lower(s[i]), unicode::lowered(s)),
    decreases s.len(),
{
    let part = |i: int| unicode::char_lower(s[i]);
    if s.len() == 0 {
        assert(unicode::lowered(s) =~= Seq::empty());
        shape::lemma_laid_none(part);
    } else {
        let less = s.drop_last();
        every_character_is_lowered(less);
        let part0 = |i: int| unicode::char_lower(less[i]);
        assert forall|i: int| 0 <= i < less.len() implies #[trigger] part0(i) == part(i) by {
            assert(less[i] == s[i]);
        }
        shape::lemma_laid_step(less.len() as int, part0, part, unicode::lowered(less));
    }
}

/// The pieces that are words: three characters or more, and letters only.
pub open spec fn are_words(p: Seq<Seq<char>>) -> spec_fn(int) -> bool {
    |i: int|
        p[i].len() >= 3 && forall|j: int|
            0 <= j < p[i].len() ==> unicode::char_alphabetic(#[trigger] p[i][j])
}

/// All words among some pieces are taken, in lower case and in order.
pub proof fn every_word_is_taken(p: Seq<Seq<char>>)
    ensures
        shape::picks(
            p.len() as int,
            are_words(p),
            |i: int| unicode::text_lower(p[i]),
            spell::words_among(p),
        ),
    decreases p.len(),
{
    let value = |i: int| unicode::text_lower(p[i]);
    if p.len() == 0 {
        shape::lemma_picks_none(are_words(p), value);
    } else {
        let less = p.drop_last();
        let n = less.len() as int;
        every_word_is_taken(less);
        let value0 = |i: int| unicode::text_lower(less[i]);
        assert forall|i: int| 0 <= i < n implies (#[trigger] are_words(less)(i) <==> are_words(p)(
            i,
        )) by {
            assert(less[i] == p[i]);
        }
        assert forall|i: int| 0 <= i < n && #[trigger] are_words(less)(i) implies value0(i) == value(
            i,
        ) by {
            assert(less[i] == p[i]);
        }
        assert(p[n] == p.last());
        assert(are_words(p)(n) <==> spell::is_word(p[n]));
        shape::lemma_picks_step(
            n,
            are_words(less),
            value0,
            are_words(p),
            value,
            spell::words_among(less),
        );
    }
}

/// The vocabulary holds the words of every passage, one passage after the other.
pub proof fn every_passage_gives_its_words(v: Seq<RetrievedV>)
    ensures
        shape::laid(
            v.len() as int,
            |i: int| spell::words_among(unicode::pieces(v[i].text)),
            spell::vocabulary(v),
        ),
    decreases v.len(),
{
    let part = |i: int| spell::words_among(unicode::pieces(v[i].text));
    if v.len() == 0 {
        shape::lemma_laid_none(part);
    } else {
        let less = v.drop_last();
        every_passage_gives_its_words(less);
        let part0 = |i: int| spell::words_among(unicode::pieces(less[i].text));
        assert forall|i: int| 0 <= i < less.len() implies #[trigger] part0(i) == part(i) by {
            assert(less[i] == v[i]);
        }
        shape::lemma_laid_step(less.len() as int, part0, part, spell::vocabulary(less));
    }
}

/// A word is as frequent as it occurs.
pub proof fn frequencies_count_occurrences(vocab: Seq<Seq<char>>, w: Seq<char>)
    ensures
        spell::frequency(vocab, w) == vocab.to_multiset().count(w),
    decreases vocab.len(),
{
    broadcast use group_to_multiset_ensures;

    if vocab.len() > 0 {
        frequencies_count_occurrences(vocab.drop_last(), w);
        assert(vocab =~= vocab.drop_last().push(vocab.last()));
    }
}

/// One word is better than another for a repair: nearer, or as near and more frequent, or alike in
/// both and first by name.
pub open spec fn better(vocab: Seq<Seq<char>>, low: Seq<char>, a: Seq<char>, b: Seq<char>) -> bool {
    let m = vocab.to_multiset();
    let x = spell::distance(low, a);
    let y = spell::distance(low, b);
    x < y || (x == y && (m.count(a) > m.count(b) || (m.count(a) == m.count(b) && order::before(
        a,
        b,
    ))))
}

proof fn lemma_better_orders(
    vocab: Seq<Seq<char>>,
    low: Seq<char>,
    a: Seq<char>,
    b: Seq<char>,
    c: Seq<char>,
)
    ensures
        !better(vocab, low, a, b) && better(vocab, low, c, b) ==> !better(vocab, low, a, c),
        !better(vocab, low, a, a),
{
    order::lemma_before_irreflexive(a);
    order::lemma_before_total(a, b);
    order::lemma_before_total(b, c);
    order::lemma_before_total(a, c);
    if order::before(a, c) && order::before(c, b) {
        order::lemma_before_transitive(a, c, b);
    }
}

/// The word that is taken for a misspelled one is the best: no other word that could be meant is
/// better.
pub proof fn repairs_are_the_best(vocab: Seq<Seq<char>>, low: Seq<char>, n: nat)
    requires
        n <= vocab.len(),
    ensures
        match spell::likeliest(vocab, low, n) {
            Some(w) => forall|i: int|
                0 <= i < n && spell::plausible(low, #[trigger] vocab[i]) ==> !better(
                    vocab,
                    low,
                    vocab[i],
                    w,
                ),
            None => forall|i: int| 0 <= i < n ==> !spell::plausible(low, #[trigger] vocab[i]),
        },
    decreases n,
{
    if n > 0 {
        repairs_are_the_best(vocab, low, (n - 1) as nat);
        let best = spell::likeliest(vocab, low, (n - 1) as nat);
        let w = vocab[n - 1];
        frequencies_count_occurrences(vocab, w);
        lemma_better_orders(vocab, low, w, w, w);
        if best is Some {
            frequencies_count_occurrences(vocab, best->0);
            assert(spell::likelier(vocab, low, w, best->0) <==> better(vocab, low, w, best->0));
            assert forall|i: int|
                0 <= i < n && spell::plausible(low, #[trigger] vocab[i]) implies !better(
                vocab,
                low,
                vocab[i],
                spell::likeliest(vocab, low, n)->0,
            ) by {
                if i < n - 1 {
                    lemma_better_orders(vocab, low, vocab[i], best->0, w);
                }
            }
        }
    }
}

/// A repaired query has the words of the query in their order, each replaced by its repair where it
/// has one, and one space apart.
pub proof fn repairs_leave_other_words_alone(
    vocab: Seq<Seq<char>>,
    query: Seq<char>,
    lows: Seq<Seq<char>>,
)
    requires
        lows.len() == text::words(query).len(),
    ensures
        ({
            let w = text::words(query);
            (exists|i: int| 0 <= i < lows.len() && spell::repair(vocab, #[trigger] lows[i]) is Some)
                ==> exists|t: Seq<Seq<char>>|
                {
                    &&& spell::repaired(vocab, query, lows) == #[trigger] text::join(t, " "@)
                    &&& t.len() == w.len()
                    &&& forall|i: int|
                        0 <= i < t.len() ==> #[trigger] t[i] == match spell::repair(
                            vocab,
                            lows[i],
                        ) {
                            Some(r) => r,
                            None => w[i],
                        }
                }
        }),
{
    let t = spell::repaired_tokens(vocab, text::words(query), lows);
    if exists|i: int| 0 <= i < lows.len() && spell::repair(vocab, #[trigger] lows[i]) is Some {
        assert(spell::any_repair(vocab, lows));
        assert(spell::repaired(vocab, query, lows) == text::join(t, " "@));
    }
}

/// A word of four characters or more that the passages do not have is repaired exactly where they
/// have one that begins alike and is one step away, or two where it has more than five characters.
pub proof fn repairs_reach_by_length(vocab: Seq<Seq<char>>, low: Seq<char>)
    requires
        low.len() >= 4,
        !vocab.contains(low),
    ensures
        match spell::repair(vocab, low) {
            Some(w) => vocab.contains(w) && is_near(low, w),
            None => forall|i: int| 0 <= i < vocab.len() ==> !is_near(low, #[trigger] vocab[i]),
        },
{
    spell::repairs_are_near_words_of_the_passages(vocab, low);
    repairs_are_the_best(vocab, low, vocab.len());
    lemma_plausible_found(vocab, low, vocab.len());
    assert forall|i: int| 0 <= i < vocab.len() implies (is_near(low, #[trigger] vocab[i])
        <==> spell::plausible(low, vocab[i])) by {
        spell::lemma_distance_bounds(low, vocab[i]);
    }
    if let Some(w) = spell::repair(vocab, low) {
        let i = choose|i: int| 0 <= i < vocab.len() && vocab[i] == w;
        assert(spell::plausible(low, vocab[i]));
    }
}

/// A word begins as another does and is one step from it, or two where that has more than five
/// characters.
pub open spec fn is_near(low: Seq<char>, w: Seq<char>) -> bool {
    &&& low.len() > 0 && w.len() > 0
    &&& w[0] == low[0]
    &&& 1 <= spell::distance(low, w) <= if low.len() > 5 {
        2int
    } else {
        1
    }
}

proof fn lemma_plausible_found(vocab: Seq<Seq<char>>, low: Seq<char>, n: nat)
    requires
        n <= vocab.len(),
    ensures
        spell::likeliest(vocab, low, n) is Some ==> spell::plausible(
            low,
            spell::likeliest(vocab, low, n)->0,
        ),
    decreases n,
{
    if n > 0 {
        lemma_plausible_found(vocab, low, (n - 1) as nat);
    }
}

} // verus!
