//! What numerals say of numbers.
use vstd::prelude::*;
use crate::text;

verus! {

/// The value of a digit below sixteen.
pub open spec fn digit_value(c: char) -> int {
    if (c as int) < 97 {
        c as int - 48
    } else {
        c as int - 87
    }
}

/// The value of some digits to a base.
pub open spec fn value(s: Seq<char>, base: nat) -> int
    decreases s.len(),
{
    if s.len() == 0 {
        0
    } else {
        value(s.drop_last(), base) * base + digit_value(s.last())
    }
}

/// A numeral has the value of its number.
pub proof fn numerals_have_their_value(n: nat, base: nat)
    requires
        2 <= base <= 16,
    ensures
        value(text::numeral(n, base), base) == n,
        text::numeral(n, base).len() > 0,
    decreases n,
{
    let s = text::numeral(n, base);
    if n < base {
        assert(s.drop_last() =~= Seq::empty());
        reveal_with_fuel(value, 2);
        assert(digit_value(text::digit(n as int)) == n);
    } else {
        let q = n / base;
        let r = n % base;
        assert(q < n && q * base + r == n && r < base) by (nonlinear_arith)
            requires
                q == n / base,
                r == n % base,
                n >= base,
                base >= 2,
        ;
        numerals_have_their_value(q, base);
        assert(s.drop_last() =~= text::numeral(q, base));
        assert(digit_value(text::digit(r as int)) == r);
    }
}

proof fn lemma_numeral_len(n: nat, k: nat)
    requires
        n < pow16(k),
        k > 0,
    ensures
        text::numeral(n, 16).len() <= k,
    decreases n,
{
    if n >= 16 {
        assert(k > 1) by {
            reveal_with_fuel(pow16, 2);
        }
        assert(n / 16 < pow16((k - 1) as nat)) by {
            assert(pow16(k) == 16 * pow16((k - 1) as nat));
        }
        lemma_numeral_len(n / 16, (k - 1) as nat);
    }
}

spec fn pow16(k: nat) -> nat
    decreases k,
{
    if k == 0 {
        1
    } else {
        16 * pow16((k - 1) as nat)
    }
}

proof fn lemma_zero_in_front(s: Seq<char>, base: nat)
    ensures
        value(seq!['0'] + s, base) == value(s, base),
    decreases s.len(),
{
    let t = seq!['0'] + s;
    if s.len() == 0 {
        assert(t.drop_last() =~= Seq::empty());
        reveal_with_fuel(value, 2);
        assert(t.last() == '0');
    } else {
        lemma_zero_in_front(s.drop_last(), base);
        assert(t.drop_last() =~= seq!['0'] + s.drop_last());
    }
}

proof fn lemma_padded_value(s: Seq<char>, n: nat, base: nat)
    ensures
        value(text::pad_zero(s, n), base) == value(s, base),
    decreases n - s.len(),
{
    if s.len() < n {
        lemma_zero_in_front(s, base);
        lemma_padded_value(seq!['0'] + s, n, base);
    }
}

/// The sixteen digits of a hash tell it from every other.
pub proof fn hashes_are_told_by_their_digits(a: u64, b: u64)
    ensures
        text::hex16(a).len() == 16,
        text::hex16(a) == text::hex16(b) ==> a == b,
        value(text::hex16(a), 16) == a,
{
    assert(pow16(16) == 0x1_0000_0000_0000_0000) by {
        reveal_with_fuel(pow16, 17);
    }
    lemma_numeral_len(a as nat, 16);
    crate::text_laws::padding_puts_zeros_in_front(text::numeral(a as nat, 16), 16);
    numerals_have_their_value(a as nat, 16);
    numerals_have_their_value(b as nat, 16);
    lemma_padded_value(text::numeral(a as nat, 16), 16, 16);
    lemma_padded_value(text::numeral(b as nat, 16), 16, 16);
}

/// A number that is written is read back, with a plus sign before it or without; a text with
/// anything but digits behind such a sign is no number.
pub proof fn numbers_are_read_back(n: nat, s: Seq<char>, i: int)
    ensures
        text::number_of(text::decimal(n)) == Some(n),
        text::number_of(seq!['+'] + text::decimal(n)) == Some(n),
        s.len() == 0 ==> text::number_of(s) is None,
        0 < i < s.len() && !('0' <= s[i] <= '9') ==> text::number_of(s) is None,
        s.len() > 0 && s[0] != '+' && !('0' <= s[0] <= '9') ==> text::number_of(s) is None,
{
    text::lemma_decimal_value(n);
    let d = text::decimal(n);
    assert(text::is_digit(d[0]));
    let p = seq!['+'] + d;
    assert(p.skip(1) =~= d);
    if 0 < i < s.len() && !('0' <= s[i] <= '9') {
        assert(s.skip(1)[i - 1] == s[i]);
    }
}

} // verus!
