//! Numbers as text: decimal and hexadecimal numerals, written and read.

use vstd::prelude::*;
use vstd::slice::slice_subrange;

verus! {

/// The digit that stands for `d`, with lower case letters from ten on.
pub open spec fn digit_char(d: nat) -> char {
    if d < 10 {
        ('0' as u32 + d) as char
    } else {
        ('a' as u32 + (d - 10)) as char
    }
}

/// The numeral of `n`, without leading zeros.
pub open spec fn numeral(n: nat, base: nat) -> Seq<char>
    decreases n,
{
    if base < 2 || n < base {
        seq![digit_char(n)]
    } else {
        proof {
            assert(n / base < n) by (nonlinear_arith)
                requires
                    n >= base,
                    base >= 2,
            ;
        }
        numeral(n / base, base).push(digit_char(n % base))
    }
}

/// The decimal numeral of `n`.
pub open spec fn dec(n: nat) -> Seq<char> {
    numeral(n, 10)
}

/// The hexadecimal numeral of `n`.
pub open spec fn hex(n: nat) -> Seq<char> {
    numeral(n, 16)
}

/// The two hexadecimal digits of a byte.
pub open spec fn hex_pair(b: u8) -> Seq<char> {
    seq![digit_char((b / 16) as nat), digit_char((b % 16) as nat)]
}

/// The value of a digit of either case, below `base`.
pub open spec fn digit_value(c: char, base: nat) -> Option<nat> {
    let v: int = if '0' <= c <= '9' {
        c as u32 - '0' as u32
    } else if 'a' <= c <= 'f' {
        c as u32 - 'a' as u32 + 10
    } else if 'A' <= c <= 'F' {
        c as u32 - 'A' as u32 + 10
    } else {
        -1
    };
    if 0 <= v < base {
        Some(v as nat)
    } else {
        None
    }
}

/// The value of a run of digits; `None` where some character is no digit.
pub open spec fn digits_value(s: Seq<char>, base: nat) -> Option<nat>
    decreases s.len(),
{
    if s.len() == 0 {
        Some(0)
    } else {
        match (digits_value(s.drop_last(), base), digit_value(s.last(), base)) {
            (Some(v), Some(d)) => Some(v * base + d),
            _ => None,
        }
    }
}

/// Reads an unsigned number: an optional plus sign, then at least one digit
/// and nothing else, with a value of at most `max`.
pub open spec fn unsigned(s: Seq<char>, base: nat, max: nat) -> Option<nat> {
    let t = if s.len() > 0 && s[0] == '+' {
        s.skip(1)
    } else {
        s
    };
    if t.len() == 0 {
        None
    } else {
        match digits_value(t, base) {
            Some(v) => if v <= max {
                Some(v)
            } else {
                None
            },
            None => None,
        }
    }
}

/// Reads a decimal number with an optional sign, within `i32`.
pub open spec fn signed(s: Seq<char>) -> Option<int> {
    if s.len() > 0 && s[0] == '-' {
        if s.len() == 1 {
            None
        } else {
            match digits_value(s.skip(1), 10) {
                Some(v) => if v <= 0x8000_0000 {
                    Some(-(v as int))
                } else {
                    None
                },
                None => None,
            }
        }
    } else {
        match unsigned(s, 10, 0x7fff_ffff) {
            Some(v) => Some(v as int),
            None => None,
        }
    }
}

/// A run of digits is worth at least as much as any prefix of it.
pub proof fn lemma_digits_prefix(s: Seq<char>, base: nat, n: int)
    requires
        base >= 2,
        0 <= n <= s.len(),
        digits_value(s, base) is Some,
    ensures
        digits_value(s.take(n), base) is Some,
        digits_value(s.take(n), base)->0 <= digits_value(s, base)->0,
    decreases s.len(),
{
    if n == s.len() {
        assert(s.take(n) == s);
    } else {
        lemma_digits_prefix(s.drop_last(), base, n);
        assert(s.drop_last().take(n) == s.take(n));
        let v = digits_value(s.drop_last(), base)->0;
        assert(v <= v * base) by (nonlinear_arith)
            requires
                base >= 2,
        ;
    }
}

/// Reads a run of digits of value at most `max`.
pub fn read_digits(s: &[char], base: u32, max: u64) -> (r: Option<u64>)
    requires
        base == 10 || base == 16,
    ensures
        r matches Some(v) ==> digits_value(s@, base as nat) == Some(v as nat) && v <= max,
        r is None ==> digits_value(s@, base as nat) is None || digits_value(s@, base as nat)->0
            > max,
{
    let mut v: u64 = 0;
    for i in 0..s.len()
        invariant
            base == 10 || base == 16,
            digits_value(s@.take(i as int), base as nat) == Some(v as nat),
            v <= max,
    {
        let c = s[i];
        let d: u32 = if '0' <= c && c <= '9' {
            c as u32 - '0' as u32
        } else if 'a' <= c && c <= 'f' {
            c as u32 - 'a' as u32 + 10
        } else if 'A' <= c && c <= 'F' {
            c as u32 - 'A' as u32 + 10
        } else {
            99
        };
        assert(s@.take(i + 1).drop_last() == s@.take(i as int));
        if d >= base {
            proof {
                if digits_value(s@, base as nat) is Some {
                    lemma_digits_prefix(s@, base as nat, i + 1);
                }
            }
            return None;
        }
        assert(0 <= v * base <= 0xffff_ffff_ffff_ffff * 16) by (nonlinear_arith)
            requires
                0 <= v <= 0xffff_ffff_ffff_ffff,
                0 <= base <= 16,
        ;
        let next: u128 = v as u128 * base as u128 + d as u128;
        if next > max as u128 {
            proof {
                if digits_value(s@, base as nat) is Some {
                    lemma_digits_prefix(s@, base as nat, i + 1);
                }
            }
            return None;
        }
        v = next as u64;
    }
    assert(s@.take(s@.len() as int) == s@);
    Some(v)
}

/// Reads an unsigned number of value at most `max`.
pub fn parse_unsigned(s: &[char], base: u32, max: u64) -> (r: Option<u64>)
    requires
        base == 10 || base == 16,
    ensures
        r is Some <==> unsigned(s@, base as nat, max as nat) is Some,
        r matches Some(v) ==> unsigned(s@, base as nat, max as nat) == Some(v as nat) && v <= max,
{
    let t = if s.len() > 0 && s[0] == '+' {
        let t = slice_subrange(s, 1, s.len());
        assert(t@ == s@.skip(1));
        t
    } else {
        s
    };
    if t.len() == 0 {
        return None;
    }
    read_digits(t, base, max)
}

/// Reads a decimal `u64`.
pub fn parse_u64(s: &[char]) -> (r: Option<u64>)
    ensures
        r is Some <==> unsigned(s@, 10, u64::MAX as nat) is Some,
        r matches Some(v) ==> unsigned(s@, 10, u64::MAX as nat) == Some(v as nat),
{
    parse_unsigned(s, 10, u64::MAX)
}

/// Reads a decimal `u16`.
pub fn parse_u16(s: &[char]) -> (r: Option<u16>)
    ensures
        r is Some <==> unsigned(s@, 10, u16::MAX as nat) is Some,
        r matches Some(v) ==> unsigned(s@, 10, u16::MAX as nat) == Some(v as nat),
{
    match parse_unsigned(s, 10, u16::MAX as u64) {
        Some(v) => Some(v as u16),
        None => None,
    }
}

/// Reads a decimal `u8`.
pub fn parse_u8(s: &[char]) -> (r: Option<u8>)
    ensures
        r is Some <==> unsigned(s@, 10, u8::MAX as nat) is Some,
        r matches Some(v) ==> unsigned(s@, 10, u8::MAX as nat) == Some(v as nat),
{
    match parse_unsigned(s, 10, u8::MAX as u64) {
        Some(v) => Some(v as u8),
        None => None,
    }
}

/// Reads a decimal `i32`.
pub fn parse_i32(s: &[char]) -> (r: Option<i32>)
    ensures
        r is Some <==> signed(s@) is Some,
        r matches Some(v) ==> signed(s@) == Some(v as int),
{
    if s.len() > 0 && s[0] == '-' {
        if s.len() == 1 {
            return None;
        }
        let t = slice_subrange(s, 1, s.len());
        assert(t@ == s@.skip(1));
        match read_digits(t, 10, 0x8000_0000) {
            Some(v) => Some((0i64 - v as i64) as i32),
            None => None,
        }
    } else {
        match parse_unsigned(s, 10, 0x7fff_ffff) {
            Some(v) => Some(v as i32),
            None => None,
        }
    }
}

/// The digit for `d`.
fn digit_of(d: u64) -> (c: char)
    requires
        d < 16,
    ensures
        c == digit_char(d as nat),
{
    if d < 10 {
        (48u8 + d as u8) as char
    } else {
        (97u8 + (d as u8 - 10)) as char
    }
}

/// Puts the numeral of `n` behind what `out` holds.
pub fn push_numeral(out: &mut String, n: u64, base: u64)
    requires
        base == 10 || base == 16,
    ensures
        final(out)@ == old(out)@ + numeral(n as nat, base as nat),
    decreases n,
{
    if n >= base {
        push_numeral(out, n / base, base);
    }
    out.push(digit_of(n % base));
    proof {
        if n < base {
            assert(n % base == n) by (nonlinear_arith)
                requires
                    0 <= n < base,
            ;
        }
    }
    assert(out@ =~= old(out)@ + numeral(n as nat, base as nat));
}

/// The decimal numeral of `n`.
pub fn show(n: u64) -> (r: String)
    ensures
        r@ == dec(n as nat),
{
    let mut out = String::new();
    push_numeral(&mut out, n, 10);
    assert(Seq::<char>::empty() + dec(n as nat) == dec(n as nat));
    out
}

/// Puts the decimal numeral of `n` behind what `out` holds.
pub fn push_dec(out: &mut String, n: u64)
    ensures
        final(out)@ == old(out)@ + dec(n as nat),
{
    push_numeral(out, n, 10);
}

/// Puts the hexadecimal numeral of `n` behind what `out` holds.
pub fn push_hex(out: &mut String, n: u64)
    ensures
        final(out)@ == old(out)@ + hex(n as nat),
{
    push_numeral(out, n, 16);
}

/// Puts the two hexadecimal digits of `b` behind what `out` holds.
pub fn push_hex_pair(out: &mut String, b: u8)
    ensures
        final(out)@ == old(out)@ + hex_pair(b),
{
    out.push(digit_of((b / 16) as u64));
    out.push(digit_of((b % 16) as u64));
    assert(out@ =~= old(out)@ + hex_pair(b));
}

/// Every character of a numeral is a digit, and none is a capital.
pub open spec fn plain_digit(c: char) -> bool {
    '0' <= c <= '9' || 'a' <= c <= 'f'
}

pub proof fn lemma_numeral(n: nat, base: nat)
    requires
        base == 10 || base == 16,
    ensures
        numeral(n, base).len() >= 1,
        digits_value(numeral(n, base), base) == Some(n),
        forall|i: int|
            0 <= i < numeral(n, base).len() ==> plain_digit(#[trigger] numeral(n, base)[i]),
    decreases n,
{
    if n < base {
        let s = numeral(n, base);
        assert(s.drop_last() =~= Seq::<char>::empty());
        assert(digits_value(s.drop_last(), base) == Some(0nat));
        assert(digit_value(s.last(), base) == Some(n));
    } else {
        lemma_numeral(n / base, base);
        let s = numeral(n, base);
        assert(s.drop_last() =~= numeral(n / base, base));
        assert(digit_value(s.last(), base) == Some(n % base));
        assert((n / base) * base + n % base == n) by (nonlinear_arith)
            requires
                base > 0,
        ;
    }
}

/// A number written and read back is the same number.
pub proof fn law_number_roundtrip(n: nat, base: nat, max: nat)
    requires
        base == 10 || base == 16,
        n <= max,
    ensures
        unsigned(numeral(n, base), base, max) == Some(n),
{
    lemma_numeral(n, base);
    assert(plain_digit(numeral(n, base)[0]));
}

} // verus!
