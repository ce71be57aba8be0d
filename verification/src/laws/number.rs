//! How numbers are written and read.

use crate::num::{
    dec, digit_value, digits_value, hex, hex_pair, law_number_roundtrip, lemma_numeral, numeral,
    plain_digit, signed, unsigned,
};
use vstd::prelude::*;

verus! {

/// The digits of a number: those of its tenth part, and what is left over behind them.
pub proof fn law_decimal_digits(n: nat)
    ensures
        n < 10 ==> dec(n) == seq![('0' as u32 + n) as char],
        n >= 10 ==> dec(n) == dec(n / 10).push(('0' as u32 + n % 10) as char),
{
}

/// The hexadecimal digits of a number, in small letters, without zeros in front.
pub proof fn law_hexadecimal_digits(n: nat)
    ensures
        n < 10 ==> hex(n) == seq![('0' as u32 + n) as char],
        10 <= n < 16 ==> hex(n) == seq![('a' as u32 + n - 10) as char],
        n >= 16 ==> hex(n) == hex(n / 16) + hex(n % 16),
{
    if n >= 16 {
        assert(hex(n) =~= hex(n / 16) + hex(n % 16));
    }
}

/// A byte is written in two hexadecimal digits, a zero in front where one would do.
pub proof fn law_byte_in_two_digits(b: u8)
    ensures
        b >= 16 ==> hex_pair(b) == hex(b as nat),
        b < 16 ==> hex_pair(b) == seq!['0'] + hex(b as nat),
        digits_value(hex_pair(b), 16) == Some(b as nat),
{
    let s = hex_pair(b);
    let hi = (b / 16) as nat;
    let lo = (b % 16) as nat;
    reveal_with_fuel(digits_value, 3);
    reveal_with_fuel(numeral, 3);
    assert(s.drop_last().last() == s[0]);
    assert(s.drop_last().drop_last().len() == 0);
    assert(digit_value(s[0], 16) == Some(hi) && digit_value(s[1], 16) == Some(lo));
    assert(hi * 16 + lo == b);
    if b >= 16 {
        assert(hex(b as nat) =~= s);
    } else {
        assert(seq!['0'] + hex(b as nat) =~= s);
    }
}

/// A number is read back up to the largest that is allowed, with a plus sign in front or
/// not; a larger one is none.
pub proof fn law_whole_number_is_read(n: nat, max: nat)
    ensures
        n <= max ==> unsigned(dec(n), 10, max) == Some(n) && unsigned(
            seq!['+'] + dec(n),
            10,
            max,
        ) == Some(n),
        n > max ==> unsigned(dec(n), 10, max) is None && unsigned(
            seq!['+'] + dec(n),
            10,
            max,
        ) is None,
        unsigned(Seq::empty(), 10, max) is None,
        unsigned(seq!['+'], 10, max) is None,
{
    law_number_roundtrip(n, 10, n);
    lemma_numeral(n, 10);
    assert(plain_digit(numeral(n, 10)[0]));
    assert(dec(n)[0] != '+');
    let s = seq!['+'] + dec(n);
    assert(s.skip(1) =~= dec(n));
    assert(s[0] == '+');
    assert(seq!['+'].skip(1).len() == 0);
}

/// A text with anything in it but digits is no number.
pub proof fn law_other_texts_are_no_numbers(s: Seq<char>, max: nat, i: int)
    requires
        0 <= i < s.len(),
        !('0' <= s[i] <= '9'),
        i > 0 || s[i] != '+',
    ensures
        unsigned(s, 10, max) is None,
{
    if s[0] == '+' {
        assert(s.skip(1)[i - 1] == s[i]);
        lemma_no_digits(s.skip(1), i - 1);
    } else {
        lemma_no_digits(s, i);
    }
}

proof fn lemma_no_digits(s: Seq<char>, i: int)
    requires
        0 <= i < s.len(),
        !('0' <= s[i] <= '9'),
    ensures
        digits_value(s, 10) is None,
    decreases s.len(),
{
    if i < s.len() - 1 {
        lemma_no_digits(s.drop_last(), i);
    } else {
        assert(digit_value(s.last(), 10) is None);
    }
}

/// A number with a sign is read back, as far as four bytes hold it.
pub proof fn law_signed_number_is_read(n: nat)
    ensures
        n <= 0x7fff_ffff ==> signed(dec(n)) == Some(n as int),
        n > 0x7fff_ffff ==> signed(dec(n)) is None,
        n <= 0x8000_0000 ==> signed(seq!['-'] + dec(n)) == Some(-n),
        n > 0x8000_0000 ==> signed(seq!['-'] + dec(n)) is None,
        signed(seq!['-']) is None,
        signed(Seq::empty()) is None,
{
    law_whole_number_is_read(n, 0x7fff_ffff);
    law_whole_number_is_read(n, 0x8000_0000);
    lemma_numeral(n, 10);
    assert(plain_digit(numeral(n, 10)[0]));
    assert(dec(n)[0] != '-' && dec(n)[0] != '+');
    let s = seq!['-'] + dec(n);
    assert(s.skip(1) =~= dec(n));
    assert(s[0] == '-');
    law_number_roundtrip(n, 10, n);
}

} // verus!
