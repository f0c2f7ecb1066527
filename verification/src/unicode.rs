//! What Unicode says of characters: letters, digits and case.
use vstd::prelude::*;
use crate::text;

verus! {

/// The character is a letter or a digit, in any script.
pub uninterp spec fn char_alphanumeric(c: char) -> bool;

/// The character is a letter, in any script.
pub uninterp spec fn char_alphabetic(c: char) -> bool;

/// The character in lower case, which may be several characters.
pub uninterp spec fn char_lower(c: char) -> Seq<char>;

/// The text in lower case.
pub uninterp spec fn text_lower(s: Seq<char>) -> Seq<char>;

/// Whether a character is a letter or a digit (`char::is_alphanumeric`): a function of the
/// character, named here.
#[verifier::external_body]
pub(crate) fn is_alphanumeric(c: char) -> (r: bool)
    ensures
        r == char_alphanumeric(c),
{
    c.is_alphanumeric()
}

/// Whether a character is a letter (`char::is_alphabetic`): a function of the character, named here.
#[verifier::external_body]
pub(crate) fn is_alphabetic(c: char) -> (r: bool)
    ensures
        r == char_alphabetic(c),
{
    c.is_alphabetic()
}

/// A character in lower case (`char::to_lowercase`): a function of the character, named here.
#[verifier::external_body]
pub(crate) fn lower_char(c: char) -> (r: Vec<char>)
    ensures
        r@ == char_lower(c),
{
    c.to_lowercase().collect()
}

/// A text in lower case (`str::to_lowercase`): a function of the text, named here. No character is
/// lost altogether, so nothing but the empty text gives it.
#[verifier::external_body]
pub(crate) fn lower_text(s: &str) -> (r: String)
    ensures
        r@ == text_lower(s@),
        r@.len() == 0 <==> s@.len() == 0,
{
    s.to_lowercase()
}

/// The letters and digits of a text, in order.
pub open spec fn alphanumerics(s: Seq<char>) -> Seq<char>
    decreases s.len(),
{
    if s.len() == 0 {
        s
    } else if char_alphanumeric(s.last()) {
        alphanumerics(s.drop_last()).push(s.last())
    } else {
        alphanumerics(s.drop_last())
    }
}

/// The characters of a text in lower case, one after the other.
pub open spec fn lowered(s: Seq<char>) -> Seq<char>
    decreases s.len(),
{
    if s.len() == 0 {
        s
    } else {
        lowered(s.drop_last()) + char_lower(s.last())
    }
}

/// The letters and digits of a text, in lower case.
pub fn folded_word(v: &[char]) -> (r: Vec<char>)
    ensures
        r@ == lowered(alphanumerics(v@)),
{
    let mut out: Vec<char> = Vec::new();
    let ghost mut kept: Seq<char> = Seq::empty();
    assert(v@.take(0) =~= Seq::empty());
    for i in 0..v.len()
        invariant
            kept == alphanumerics(v@.take(i as int)),
            out@ == lowered(kept),
    {
        assert(v@.take(i + 1).drop_last() =~= v@.take(i as int));
        if is_alphanumeric(v[i]) {
            let c = lower_char(v[i]);
            text::push_chars(&mut out, &c);
            proof {
                let more = kept.push(v@[i as int]);
                assert(more.drop_last() =~= kept);
                kept = more;
            }
        }
    }
    assert(v@.take(v@.len() as int) =~= v@);
    out
}

/// The text in pieces between characters that are neither letters nor digits; pieces may be empty.
pub open spec fn pieces(s: Seq<char>) -> Seq<Seq<char>>
    decreases s.len(),
{
    if s.len() == 0 {
        seq![s]
    } else if char_alphanumeric(s.last()) {
        let p = pieces(s.drop_last());
        p.update(p.len() - 1, p.last().push(s.last()))
    } else {
        pieces(s.drop_last()).push(Seq::empty())
    }
}

pub proof fn lemma_pieces_not_empty(s: Seq<char>)
    ensures
        pieces(s).len() > 0,
    decreases s.len(),
{
    if s.len() > 0 {
        lemma_pieces_not_empty(s.drop_last());
    }
}

/// The text in pieces between characters that are neither letters nor digits.
pub fn pieces_of(v: &[char]) -> (r: Vec<Vec<char>>)
    ensures
        r@.len() == pieces(v@).len(),
        forall|i: int| 0 <= i < r@.len() ==> (#[trigger] r@[i])@ == pieces(v@)[i],
{
    let mut out: Vec<Vec<char>> = Vec::new();
    let mut piece: Vec<char> = Vec::new();
    assert(v@.take(0) =~= Seq::empty());
    for i in 0..v.len()
        invariant
            pieces(v@.take(i as int)).len() == out@.len() + 1,
            forall|k: int|
                0 <= k < out@.len() ==> (#[trigger] out@[k])@ == pieces(v@.take(i as int))[k],
            piece@ == pieces(v@.take(i as int)).last(),
    {
        assert(v@.take(i + 1).drop_last() =~= v@.take(i as int));
        let ghost p = pieces(v@.take(i as int));
        if is_alphanumeric(v[i]) {
            piece.push(v[i]);
        } else {
            out.push(piece);
            piece = Vec::new();
            assert(piece@ =~= Seq::empty());
        }
    }
    out.push(piece);
    assert(v@.take(v@.len() as int) =~= v@);
    out
}

} // verus!
