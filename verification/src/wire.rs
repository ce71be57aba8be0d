//! Numbers and addresses as they stand on the wire.

use crate::num::{dec, push_dec};
use vstd::prelude::*;

verus! {

/// The sixteen bit number at position `i`, high byte first.
pub open spec fn u16_at(b: Seq<u8>, i: int) -> int {
    b[i] * 256 + b[i + 1]
}

/// Reads the sixteen bit number at position `i`, high byte first.
pub fn be16(b: &[u8], i: usize) -> (r: u16)
    requires
        i + 1 < b@.len(),
    ensures
        r == u16_at(b@, i as int),
{
    b[i] as u16 * 256 + b[i + 1] as u16
}

/// The thirty-two bit number at position `i`, high byte first.
pub open spec fn u32_at(b: Seq<u8>, i: int) -> int {
    u16_at(b, i) * 65536 + u16_at(b, i + 2)
}

/// Reads the thirty-two bit number at position `i`, high byte first.
pub fn be32(b: &[u8], i: usize) -> (r: u32)
    requires
        i + 3 < b@.len(),
    ensures
        r == u32_at(b@, i as int),
{
    let n = b.len();
    assert(i + 3 < n);
    be16(b, i) as u32 * 65536 + be16(b, i + 2) as u32
}

/// An IPv4 address in text.
pub open spec fn v4_text(a: u8, b: u8, c: u8, d: u8) -> Seq<char> {
    dec(a as nat) + seq!['.'] + dec(b as nat) + seq!['.'] + dec(c as nat) + seq!['.'] + dec(
        d as nat,
    )
}

/// Writes an IPv4 address.
pub fn fmt_v4(a: u8, b: u8, c: u8, d: u8) -> (r: String)
    ensures
        r@ == v4_text(a, b, c, d),
{
    let mut out = String::new();
    push_dec(&mut out, a as u64);
    out.push('.');
    push_dec(&mut out, b as u64);
    out.push('.');
    push_dec(&mut out, c as u64);
    out.push('.');
    push_dec(&mut out, d as u64);
    assert(out@ =~= v4_text(a, b, c, d));
    out
}

} // verus!
