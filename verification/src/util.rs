//! Small shared rules: settings, hardware addresses, domain names and IPv6
//! addresses.

use crate::num::{
    digit_char, digits_value, hex, law_number_roundtrip, lemma_numeral, parse_u64, parse_unsigned,
    plain_digit, push_hex, push_hex_pair, read_digits, unsigned,
};
use crate::text::{
    back_trimmed, before, chars, cut, first, hex_digit, in_class, joined, keep, kept,
    lemma_find_from, lemma_find_is, lemma_joined_front, lemma_kept_all_in, lemma_lead_is,
    lemma_lower_again, lower, occurs_at, part_text, pieces, slices, spells, split, split_at_text,
    text, to_lower, trim, trim_back, trimmed, until, Class,
};
use vstd::prelude::*;
use vstd::slice::slice_subrange;

verus! {

// ---------------------------------------------------------------------------
// Settings
// ---------------------------------------------------------------------------

/// The value of a setting, from what the configuration tool printed for it.
pub fn uci_get(printed: &str) -> (r: String)
    ensures
        r@ == trimmed(printed@),
{
    let p = chars(printed);
    text(trim(p.as_slice()))
}

/// The value of a text setting; `dflt` where none is set.
pub open spec fn setting_text(printed: Seq<char>, dflt: Seq<char>) -> Seq<char> {
    if trimmed(printed).len() == 0 {
        dflt
    } else {
        trimmed(printed)
    }
}

/// The value of a text setting; `dflt` where none is set.
pub fn uci_get_or(printed: &str, dflt: &str) -> (r: String)
    ensures
        r@ == setting_text(printed@, dflt@),
{
    let v = uci_get(printed);
    if v.as_str().is_empty() {
        dflt.to_string()
    } else {
        v
    }
}

/// The value of a switch; `dflt` where the text is no known spelling.
pub open spec fn setting_bool(printed: Seq<char>, dflt: bool) -> bool {
    let v = trimmed(printed);
    if v == "1"@ || v == "true"@ || v == "yes"@ || v == "on"@ {
        true
    } else if v == "0"@ || v == "false"@ || v == "no"@ || v == "off"@ {
        false
    } else {
        dflt
    }
}

/// The value of a switch; `dflt` where the text is no known spelling.
pub fn uci_bool(printed: &str, dflt: bool) -> (r: bool)
    ensures
        r == setting_bool(printed@, dflt),
{
    let p = chars(printed);
    let v = trim(p.as_slice());
    if spells(v, "1") || spells(v, "true") || spells(v, "yes") || spells(v, "on") {
        true
    } else if spells(v, "0") || spells(v, "false") || spells(v, "no") || spells(v, "off") {
        false
    } else {
        dflt
    }
}

/// The value of a number setting: `dflt` where the text is no number, and
/// never less than `min`.
pub open spec fn setting_num(printed: Seq<char>, dflt: u64, min: u64) -> u64 {
    let v = match unsigned(trimmed(printed), 10, u64::MAX as nat) {
        Some(n) => n as u64,
        None => dflt,
    };
    if v < min {
        min
    } else {
        v
    }
}

/// The value of a number setting: `dflt` where the text is no number, and
/// never less than `min`.
pub fn uci_num(printed: &str, dflt: u64, min: u64) -> (r: u64)
    ensures
        r == setting_num(printed@, dflt, min),
{
    let p = chars(printed);
    let v = match parse_u64(trim(p.as_slice())) {
        Some(n) => n,
        None => dflt,
    };
    if v < min {
        min
    } else {
        v
    }
}

// ---------------------------------------------------------------------------
// Hardware addresses
// ---------------------------------------------------------------------------

/// Twelve digits in pairs with a colon between each two pairs.
pub open spec fn mac_form(h: Seq<char>) -> Seq<char> {
    Seq::new(
        17,
        |i: int|
            if i % 3 == 2 {
                ':'
            } else {
                h[(i / 3) * 2 + i % 3]
            },
    )
}

/// The normal form of a hardware address: its hexadecimal digits in lower
/// case, in pairs; `None` unless there are twelve.
pub open spec fn mac_normal(s: Seq<char>) -> Option<Seq<char>> {
    let h = lower(kept(s, Class::Hex));
    if h.len() == 12 {
        Some(mac_form(h))
    } else {
        None
    }
}

/// The view of an optional string.
pub open spec fn opt_text(o: Option<String>) -> Option<Seq<char>> {
    match o {
        Some(s) => Some(s@),
        None => None,
    }
}

/// Brings a hardware address to its normal form.
pub fn norm_mac(s: &str) -> (r: Option<String>)
    ensures
        opt_text(r) == mac_normal(s@),
{
    let p = chars(s);
    let k = keep(p.as_slice(), Class::Hex);
    let h = to_lower(k.as_slice());
    if h.len() != 12 {
        return None;
    }
    let mut out = String::new();
    let ghost form = mac_form(h@);
    for i in 0..6usize
        invariant
            h@.len() == 12,
            form == mac_form(h@),
            out@ == form.take(if i == 0 { 0 } else { 3 * i - 1 }),
    {
        if i > 0 {
            out.push(':');
        }
        out.push(h[2 * i]);
        out.push(h[2 * i + 1]);
        assert(out@ =~= form.take(3 * i + 2));
    }
    assert(form.take(17) =~= form);
    Some(out)
}

/// Whether bit 1 of the first byte is set: the address is made up, not
/// assigned by a vendor.
pub open spec fn mac_is_local(s: Seq<char>) -> bool {
    s.len() >= 2 && match unsigned(s.take(2), 16, 255) {
        Some(v) => (v / 2) % 2 == 1,
        None => false,
    }
}

/// Whether the address is a random or private one, for which a vendor lookup
/// means nothing.
pub fn is_random_mac(mac: &str) -> (r: bool)
    ensures
        r == mac_is_local(mac@),
{
    let p = chars(mac);
    if p.len() < 2 {
        return false;
    }
    let two = slice_subrange(p.as_slice(), 0, 2);
    assert(two@ == mac@.take(2));
    match parse_unsigned(two, 16, 255) {
        Some(v) => (v / 2) % 2 == 1,
        None => false,
    }
}

/// The first six hexadecimal digits, by which a vendor is looked up.
pub open spec fn vendor_prefix(s: Seq<char>) -> Seq<char> {
    first(kept(s, Class::Hex), 6)
}

/// The first six hexadecimal digits of an address.
pub fn oui_prefix(mac: &str) -> (r: String)
    ensures
        r@ == vendor_prefix(mac@),
{
    let p = chars(mac);
    let k = keep(p.as_slice(), Class::Hex);
    text(cut(k.as_slice(), 6))
}

pub proof fn lemma_kept_form(h: Seq<char>)
    requires
        h.len() == 12,
        forall|i: int| 0 <= i < 12 ==> hex_digit(#[trigger] h[i]),
    ensures
        kept(mac_form(h), Class::Hex) == h,
{
    let f = mac_form(h);
    reveal_with_fuel(kept, 18);
    assert forall|i: int| 0 <= i < 6 implies lemma_kept_step(f, h, i) by {
        assert(f.take(3 * i + 2).drop_last().drop_last() =~= f.take(3 * i));
        assert(f.take(3 * i + 2).last() == h[2 * i + 1]);
        assert(f.take(3 * i + 2).drop_last().last() == h[2 * i]);
        assert(hex_digit(h[2 * i]) && hex_digit(h[2 * i + 1]));
        if i < 5 {
            assert(f.take(3 * i + 3).drop_last() =~= f.take(3 * i + 2));
            assert(f.take(3 * i + 3).last() == ':');
        }
    }
    lemma_kept_steps(f, h, 5);
    assert(f.take(17) =~= f);
    assert(h.take(12) =~= h);
}

spec fn lemma_kept_step(f: Seq<char>, h: Seq<char>, i: int) -> bool {
    &&& kept(f.take(3 * i + 2), Class::Hex) == kept(f.take(3 * i), Class::Hex).push(h[2 * i]).push(
        h[2 * i + 1],
    )
    &&& i < 5 ==> kept(f.take(3 * i + 3), Class::Hex) == kept(f.take(3 * i + 2), Class::Hex)
}

proof fn lemma_kept_steps(f: Seq<char>, h: Seq<char>, n: int)
    requires
        h.len() == 12,
        0 <= n <= 5,
        f.len() == 17,
        forall|i: int| 0 <= i < 6 ==> lemma_kept_step(f, h, i),
    ensures
        kept(f.take(3 * n + 2), Class::Hex) == h.take(2 * n + 2),
    decreases n,
{
    assert(lemma_kept_step(f, h, n));
    if n == 0 {
        assert(f.take(0) =~= Seq::<char>::empty());
        assert(kept(f.take(0), Class::Hex) =~= Seq::<char>::empty());
        assert(h.take(2) =~= Seq::<char>::empty().push(h[0]).push(h[1]));
    } else {
        lemma_kept_steps(f, h, n - 1);
        assert(lemma_kept_step(f, h, n - 1));
        assert(h.take(2 * n + 2) =~= h.take(2 * n).push(h[2 * n]).push(h[2 * n + 1]));
    }
}

/// A normal form is its own normal form.
pub proof fn law_norm_mac_again(s: Seq<char>)
    requires
        mac_normal(s) is Some,
    ensures
        mac_normal(mac_normal(s)->0) == mac_normal(s),
{
    let k = kept(s, Class::Hex);
    let h = lower(k);
    lemma_kept_all_in(s, Class::Hex);
    assert forall|i: int| 0 <= i < 12 implies hex_digit(#[trigger] h[i]) by {
        assert(in_class(Class::Hex, k[i]));
    }
    lemma_kept_form(h);
    lemma_lower_again(k);
}

// ---------------------------------------------------------------------------
// Domain names
// ---------------------------------------------------------------------------

/// The normal form of a domain name: without surrounding white space, then
/// without full stops at the end, in lower case.
pub open spec fn domain_normal(s: Seq<char>) -> Seq<char> {
    lower(back_trimmed(trimmed(s), Class::Is('.')))
}

/// Brings a domain name to its normal form.
pub fn norm_domain(d: &str) -> (r: String)
    ensures
        r@ == domain_normal(d@),
{
    let p = chars(d);
    norm_domain_of(p.as_slice())
}

/// Brings a domain name to its normal form.
pub fn norm_domain_of(d: &[char]) -> (r: String)
    ensures
        r@ == domain_normal(d@),
{
    let t = trim_back(trim(d), Class::Is('.'));
    let l = to_lower(t);
    text(l.as_slice())
}

// ---------------------------------------------------------------------------
// IPv6 addresses
// ---------------------------------------------------------------------------

/// The number that a group spells: at least one hexadecimal digit and nothing else,
/// with a value of sixteen bits.
pub open spec fn group_value(p: Seq<char>) -> Option<u16> {
    if p.len() == 0 {
        None
    } else {
        match digits_value(p, 16) {
            Some(v) => if v <= 0xffff {
                Some(v as u16)
            } else {
                None
            },
            None => None,
        }
    }
}

/// The numbers that a list of hexadecimal groups spells; `None` where some
/// group is no number of sixteen bits.
pub open spec fn group_values(ps: Seq<Seq<char>>) -> Option<Seq<u16>>
    decreases ps.len(),
{
    if ps.len() == 0 {
        Some(Seq::empty())
    } else {
        match (group_values(ps.drop_last()), group_value(ps.last())) {
            (Some(v), Some(n)) => Some(v.push(n)),
            _ => None,
        }
    }
}

/// The groups of one side of an address; an empty side has none.
pub open spec fn side_groups(p: Seq<char>) -> Option<Seq<u16>> {
    if p.len() == 0 {
        Some(Seq::empty())
    } else {
        group_values(pieces(p, ':'))
    }
}

/// Eight groups as sixteen bytes, the high byte of each group first.
pub open spec fn group_bytes(g: Seq<u16>) -> Seq<u8> {
    Seq::new(
        16,
        |i: int|
            if i % 2 == 0 {
                (g[i / 2] / 256) as u8
            } else {
                (g[i / 2] % 256) as u8
            },
    )
}

/// `h` at the front of eight groups, `t` at their back, zeros between.
pub open spec fn spread(h: Seq<u16>, t: Seq<u16>) -> Seq<u16> {
    Seq::new(
        8,
        |i: int|
            if i < h.len() {
                h[i]
            } else if i >= 8 - t.len() {
                t[i - (8 - t.len())]
            } else {
                0u16
            },
    )
}

/// The sixteen bytes of an address in text. A zone behind `%` is ignored; `::`
/// stands for as many zero groups as are missing, and without it there are
/// exactly eight groups.
pub open spec fn v6_bytes(s: Seq<char>) -> Option<Seq<u8>> {
    let a = before(s, '%');
    match split_at_text(a, "::"@) {
        Some((head, tail)) => match (side_groups(head), side_groups(tail)) {
            (Some(h), Some(t)) => if h.len() + t.len() <= 8 {
                Some(group_bytes(spread(h, t)))
            } else {
                None
            },
            _ => None,
        },
        None => match side_groups(a) {
            Some(h) => if h.len() == 8 {
                Some(group_bytes(spread(h, Seq::empty())))
            } else {
                None
            },
            None => None,
        },
    }
}

/// The view of an optional address.
pub open spec fn opt_bytes(o: Option<[u8; 16]>) -> Option<Seq<u8>> {
    match o {
        Some(b) => Some(b@),
        None => None,
    }
}

proof fn lemma_group_values_prefix(ps: Seq<Seq<char>>, n: int)
    requires
        0 <= n <= ps.len(),
        group_values(ps) is Some,
    ensures
        group_values(ps.take(n)) is Some,
    decreases ps.len(),
{
    if n == ps.len() {
        assert(ps.take(n) =~= ps);
    } else {
        lemma_group_values_prefix(ps.drop_last(), n);
        assert(ps.drop_last().take(n) =~= ps.take(n));
    }
}

/// Reads the groups of one side of an address.
fn parse_side(p: &[char]) -> (r: Option<Vec<u16>>)
    ensures
        r is Some <==> side_groups(p@) is Some,
        r matches Some(v) ==> side_groups(p@) == Some(v@),
{
    if p.len() == 0 {
        let v: Vec<u16> = Vec::new();
        assert(v@ =~= Seq::<u16>::empty());
        return Some(v);
    }
    let gs = split(p, ':');
    let mut out: Vec<u16> = Vec::new();
    for i in 0..gs.len()
        invariant
            p@.len() > 0,
            slices(gs@) == pieces(p@, ':'),
            group_values(slices(gs@).take(i as int)) == Some(out@),
    {
        let ghost now = slices(gs@).take(i + 1);
        assert(now.drop_last() =~= slices(gs@).take(i as int));
        assert(now.last() == gs@[i as int]@);
        let g = gs[i];
        let value = if g.len() == 0 {
            None
        } else {
            read_digits(g, 16, 0xffff)
        };
        match value {
            Some(n) => {
                out.push(n as u16);
            },
            None => {
                proof {
                    if group_values(slices(gs@)) is Some {
                        lemma_group_values_prefix(slices(gs@), i + 1);
                    }
                }
                return None;
            },
        }
    }
    assert(slices(gs@).take(gs@.len() as int) =~= slices(gs@));
    Some(out)
}

/// Fills in the bytes of an address from the groups of its two sides.
fn fill(h: &Vec<u16>, t: &Vec<u16>) -> (r: [u8; 16])
    requires
        h@.len() + t@.len() <= 8,
    ensures
        r@ == group_bytes(spread(h@, t@)),
{
    let mut out: [u8; 16] = [0; 16];
    let ghost g = spread(h@, t@);
    for i in 0..8usize
        invariant
            h@.len() + t@.len() <= 8,
            g == spread(h@, t@),
            out@.len() == 16,
            forall|j: int| 0 <= j < 2 * i ==> out@[j] == group_bytes(g)[j],
    {
        let v: u16 = if i < h.len() {
            h[i]
        } else if i >= 8 - t.len() {
            t[i - (8 - t.len())]
        } else {
            0
        };
        assert(v == g[i as int]);
        out[2 * i] = (v / 256) as u8;
        out[2 * i + 1] = (v % 256) as u8;
        assert(group_bytes(g)[2 * i as int] == (v / 256) as u8);
        assert(group_bytes(g)[2 * i + 1] == (v % 256) as u8);
    }
    assert(out@ =~= group_bytes(g));
    out
}

/// Reads an IPv6 address.
pub fn parse_v6(s: &str) -> (r: Option<[u8; 16]>)
    ensures
        opt_bytes(r) == v6_bytes(s@),
{
    let p = chars(s);
    let a = until(p.as_slice(), '%');
    match part_text(a, "::") {
        Some((head, tail)) => match (parse_side(head), parse_side(tail)) {
            (Some(h), Some(t)) => {
                if h.len() > 8 || t.len() > 8 || h.len() + t.len() > 8 {
                    return None;
                }
                Some(fill(&h, &t))
            },
            _ => None,
        },
        None => match parse_side(a) {
            Some(h) => {
                if h.len() != 8 {
                    return None;
                }
                let t: Vec<u16> = Vec::new();
                assert(t@ =~= Seq::<u16>::empty());
                Some(fill(&h, &t))
            },
            None => None,
        },
    }
}

/// The eight groups of an address.
pub open spec fn groups(b: Seq<u8>) -> Seq<u16> {
    Seq::new(8, |i: int| (b[2 * i] * 256 + b[2 * i + 1]) as u16)
}

/// How many zero groups stand in a row from position `i` on.
pub open spec fn zero_run(g: Seq<u16>, i: int) -> nat
    decreases g.len() - i,
{
    if 0 <= i < g.len() && g[i] == 0 {
        1 + zero_run(g, i + 1)
    } else {
        0
    }
}

/// Among the positions from `i` on, the first at which the longest row of zero
/// groups begins.
pub open spec fn longest_run(g: Seq<u16>, i: int) -> int
    decreases g.len() - i,
{
    if i >= g.len() {
        g.len() as int
    } else {
        let later = longest_run(g, i + 1);
        if zero_run(g, i) >= zero_run(g, later) {
            i
        } else {
            later
        }
    }
}

/// The hexadecimal numerals of the groups.
pub open spec fn group_texts(g: Seq<u16>) -> Seq<Seq<char>> {
    g.map_values(|x: u16| hex(x as nat))
}

/// The groups with a colon between each two.
pub open spec fn group_text(g: Seq<u16>) -> Seq<char> {
    joined(group_texts(g), seq![':'])
}

/// The text of an address: the first longest row of at least two zero groups
/// is written `::`, every other group as its shortest numeral.
pub open spec fn v6_text(b: Seq<u8>) -> Seq<char> {
    let g = groups(b);
    let at = longest_run(g, 0);
    let n = zero_run(g, at) as int;
    if n >= 2 {
        group_text(g.take(at)) + seq![':', ':'] + group_text(g.skip(at + n))
    } else {
        group_text(g)
    }
}

proof fn lemma_zero_run(g: Seq<u16>, i: int)
    requires
        0 <= i <= g.len(),
    ensures
        i + zero_run(g, i) <= g.len(),
        forall|j: int| i <= j < i + zero_run(g, i) ==> #[trigger] g[j] == 0,
    decreases g.len() - i,
{
    if i < g.len() && g[i] == 0 {
        lemma_zero_run(g, i + 1);
    }
}

pub proof fn lemma_longest_run(g: Seq<u16>, i: int)
    requires
        0 <= i <= g.len(),
    ensures
        i <= longest_run(g, i) <= g.len(),
        forall|j: int|
            i <= j < g.len() ==> #[trigger] zero_run(g, j) <= zero_run(g, longest_run(g, i)),
    decreases g.len() - i,
{
    if i < g.len() {
        lemma_longest_run(g, i + 1);
    }
}

/// The row of zeros that `::` stands for is a longest one: no other row of
/// zero groups is longer.
pub proof fn law_shortened_row_is_longest(b: Seq<u8>, i: int)
    requires
        0 <= i < 8,
    ensures
        zero_run(groups(b), i) <= zero_run(groups(b), longest_run(groups(b), 0)),
{
    lemma_longest_run(groups(b), 0);
}

/// Puts the groups from `from` to `to` behind what `out` holds.
pub(crate) fn push_groups(out: &mut String, g: &Vec<u16>, from: usize, to: usize)
    requires
        from <= to <= g@.len(),
    ensures
        final(out)@ == old(out)@ + group_text(g@.subrange(from as int, to as int)),
{
    let mut i = from;
    assert(group_text(g@.subrange(from as int, from as int)) =~= Seq::<char>::empty());
    while i < to
        invariant
            from <= i <= to <= g@.len(),
            out@ == old(out)@ + group_text(g@.subrange(from as int, i as int)),
        decreases to - i,
    {
        let ghost was = group_texts(g@.subrange(from as int, i as int));
        let ghost now = group_texts(g@.subrange(from as int, i + 1));
        assert(now.drop_last() =~= was);
        assert(now.last() == hex(g@[i as int] as nat));
        if i > from {
            out.push(':');
        }
        push_hex(out, g[i] as u64);
        if i == from {
            assert(now[0] == now.last());
            assert(out@ =~= old(out)@ + joined(now, seq![':']));
        } else {
            assert(out@ =~= old(out)@ + joined(now, seq![':']));
        }
        i = i + 1;
    }
}

/// Writes an IPv6 address in the form in which the neighbour table shows it.
pub fn fmt_v6(b: &[u8; 16]) -> (r: String)
    ensures
        r@ == v6_text(b@),
{
    let mut g: Vec<u16> = Vec::new();
    for i in 0..8usize
        invariant
            g@ == groups(b@).take(i as int),
    {
        g.push(b[2 * i] as u16 * 256 + b[2 * i + 1] as u16);
        assert(g@ =~= groups(b@).take(i + 1));
    }
    assert(g@ =~= groups(b@));
    let mut i: usize = 8;
    let mut run: usize = 0;
    let mut at: usize = 8;
    let mut n: usize = 0;
    while i > 0
        invariant
            i <= 8,
            g@.len() == 8,
            run == zero_run(g@, i as int),
            run <= 8 - i,
            at == longest_run(g@, i as int),
            at <= 8,
            n == zero_run(g@, at as int),
        decreases i,
    {
        i = i - 1;
        if g[i] == 0 {
            run = run + 1;
        } else {
            run = 0;
        }
        if run >= n {
            at = i;
            n = run;
        }
    }
    proof {
        lemma_longest_run(g@, 0);
        lemma_zero_run(g@, at as int);
    }
    let mut out = String::new();
    if n >= 2 {
        push_groups(&mut out, &g, 0, at);
        out.push(':');
        out.push(':');
        push_groups(&mut out, &g, at + n, 8);
        assert(g@.subrange(0, at as int) =~= g@.take(at as int));
        assert(g@.subrange(at + n, 8) =~= g@.skip(at + n));
        assert(out@ =~= v6_text(b@));
    } else {
        push_groups(&mut out, &g, 0, 8);
        assert(g@.subrange(0, 8) =~= g@);
        assert(out@ =~= v6_text(b@));
    }
    out
}

/// The six bytes of a hardware address as text.
pub open spec fn mac_text(m: Seq<u8>) -> Seq<char> {
    mac_form(
        Seq::new(
            12,
            |i: int|
                if i % 2 == 0 {
                    digit_char((m[i / 2] / 16) as nat)
                } else {
                    digit_char((m[i / 2] % 16) as nat)
                },
        ),
    )
}

/// The hardware address inside an interface identifier that was made from one:
/// the bytes `ff fe` stand in its middle and bit 1 of its first byte is flipped.
pub open spec fn eui64_mac(b: Seq<u8>) -> Option<Seq<char>> {
    if b[11] == 0xff && b[12] == 0xfe {
        Some(mac_text(seq![b[8] ^ 0x02, b[9], b[10], b[13], b[14], b[15]]))
    } else {
        None
    }
}

/// The hardware address inside an IPv6 address in text.
pub open spec fn v6_mac(s: Seq<char>) -> Option<Seq<char>> {
    match v6_bytes(s) {
        Some(b) => eui64_mac(b),
        None => None,
    }
}

/// Recovers the hardware address from an IPv6 address that was made from it.
pub fn mac_from_eui64(ip: &str) -> (r: Option<String>)
    ensures
        opt_text(r) == v6_mac(ip@),
{
    match parse_v6(ip) {
        Some(b) => {
            if b[11] != 0xff || b[12] != 0xfe {
                return None;
            }
            let m: [u8; 6] = [b[8] ^ 0x02, b[9], b[10], b[13], b[14], b[15]];
            let ghost mv = seq![b@[8] ^ 0x02, b@[9], b@[10], b@[13], b@[14], b@[15]];
            assert(m@ =~= mv);
            let ghost form = mac_text(mv);
            let mut out = String::new();
            for i in 0..6usize
                invariant
                    m@ == mv,
                    mv.len() == 6,
                    form == mac_text(mv),
                    out@ == form.take(if i == 0 { 0 } else { 3 * i - 1 }),
            {
                if i > 0 {
                    out.push(':');
                }
                push_hex_pair(&mut out, m[i]);
                assert(out@ =~= form.take(3 * i + 2));
            }
            assert(form.take(17) =~= form);
            Some(out)
        },
        None => None,
    }
}

// ---------------------------------------------------------------------------
// What is written is read back
// ---------------------------------------------------------------------------

/// Whether every text of the list is a nonempty run of digits.
spec fn digit_runs(v: Seq<Seq<char>>) -> bool {
    forall|i: int|
        0 <= i < v.len() ==> (#[trigger] v[i]).len() > 0 && (forall|j: int|
            0 <= j < v[i].len() ==> plain_digit(#[trigger] v[i][j]))
}

/// Digit runs joined by colons: no colon at either end and no two in a row.
proof fn lemma_colon_text(v: Seq<Seq<char>>)
    requires
        digit_runs(v),
    ensures
        v.len() > 0 ==> joined(v, seq![':']).len() > 0 && joined(v, seq![':']).last() != ':',
        forall|i: int|
            0 <= i < joined(v, seq![':']).len() ==> plain_digit(
                #[trigger] joined(v, seq![':'])[i],
            ) || joined(v, seq![':'])[i] == ':',
        forall|i: int|
            0 <= i < joined(v, seq![':']).len() - 1 && #[trigger] joined(v, seq![':'])[i] == ':'
                ==> joined(v, seq![':'])[i + 1] != ':',
    decreases v.len(),
{
    let j = joined(v, seq![':']);
    if v.len() == 1 {
        assert(j == v[0]);
        assert forall|i: int| 0 <= i < j.len() implies plain_digit(#[trigger] j[i]) by {
            assert(plain_digit(v[0][i]));
        }
    } else if v.len() > 1 {
        let f = v.drop_last();
        let jf = joined(f, seq![':']);
        let l = v.last();
        assert forall|i: int| 0 <= i < f.len() implies (#[trigger] f[i]).len() > 0 && (forall|k: int|
            0 <= k < f[i].len() ==> plain_digit(#[trigger] f[i][k])) by {
            assert(f[i] == v[i]);
        }
        lemma_colon_text(f);
        assert(j == jf + seq![':'] + l);
        assert(l == v[v.len() - 1]);
        assert(l.len() > 0);
        assert forall|i: int| 0 <= i < j.len() implies plain_digit(#[trigger] j[i]) || j[i]
            == ':' by {
            if i < jf.len() {
                assert(j[i] == jf[i]);
            } else if i > jf.len() {
                assert(j[i] == l[i - jf.len() - 1]);
                assert(plain_digit(v[v.len() - 1][i - jf.len() - 1]));
            }
        }
        assert(j.last() == l[l.len() - 1]);
        assert(plain_digit(v[v.len() - 1][l.len() - 1]));
        assert forall|i: int| 0 <= i < j.len() - 1 && #[trigger] j[i] == ':' implies j[i + 1]
            != ':' by {
            if i < jf.len() {
                assert(j[i] == jf[i]);
                if i + 1 < jf.len() {
                    assert(j[i + 1] == jf[i + 1]);
                }
            } else if i == jf.len() {
                assert(j[i + 1] == l[0]);
                assert(plain_digit(v[v.len() - 1][0]));
            } else {
                assert(j[i] == l[i - jf.len() - 1]);
                assert(plain_digit(v[v.len() - 1][i - jf.len() - 1]));
            }
        }
    }
}

proof fn lemma_pieces_joined(v: Seq<Seq<char>>)
    requires
        v.len() >= 1,
        digit_runs(v),
    ensures
        pieces(joined(v, seq![':']), ':') == v,
    decreases v.len(),
{
    let j = joined(v, seq![':']);
    let k = Class::IsNot(':');
    assert forall|i: int| 0 <= i < v[0].len() implies v[0][i] != ':' by {
        assert(plain_digit(v[0][i]));
    }
    if v.len() == 1 {
        lemma_lead_is(j, k, j.len() as int);
        assert(pieces(j, ':') =~= v);
    } else {
        lemma_joined_front(v, seq![':']);
        let t = v.skip(1);
        let n = v[0].len() as int;
        assert forall|i: int| 0 <= i < t.len() implies (#[trigger] t[i]).len() > 0 && (forall|a: int|
            0 <= a < t[i].len() ==> plain_digit(#[trigger] t[i][a])) by {
            assert(t[i] == v[i + 1]);
        }
        lemma_pieces_joined(t);
        assert forall|i: int| 0 <= i < n implies in_class(k, #[trigger] j[i]) by {
            assert(j[i] == v[0][i]);
        }
        assert(j[n] == ':');
        lemma_lead_is(j, k, n);
        assert(j.take(n) =~= v[0]);
        assert(j.skip(n + 1) =~= joined(t, seq![':']));
        assert(seq![v[0]] + t =~= v);
    }
}

proof fn lemma_group_texts(g: Seq<u16>)
    ensures
        digit_runs(group_texts(g)),
        group_values(group_texts(g)) == Some(g),
    decreases g.len(),
{
    let v = group_texts(g);
    assert forall|i: int| 0 <= i < v.len() implies (#[trigger] v[i]).len() > 0 && (forall|j: int|
        0 <= j < v[i].len() ==> plain_digit(#[trigger] v[i][j])) by {
        lemma_numeral(g[i] as nat, 16);
    }
    if g.len() > 0 {
        lemma_group_texts(g.drop_last());
        assert(v.drop_last() =~= group_texts(g.drop_last()));
        assert(v.last() == hex(g.last() as nat));
        law_number_roundtrip(g.last() as nat, 16, 0xffff);
        assert(g.drop_last().push(g.last()) =~= g);
    } else {
        assert(g =~= Seq::<u16>::empty());
    }
}

pub proof fn lemma_side_groups(g: Seq<u16>)
    ensures
        side_groups(group_text(g)) == Some(g),
{
    lemma_group_texts(g);
    lemma_colon_text(group_texts(g));
    if g.len() == 0 {
        assert(g =~= Seq::<u16>::empty());
    } else {
        lemma_pieces_joined(group_texts(g));
    }
}

proof fn lemma_group_bytes(b: Seq<u8>)
    requires
        b.len() == 16,
    ensures
        group_bytes(groups(b)) == b,
{
    let g = groups(b);
    assert forall|i: int| 0 <= i < 16 implies group_bytes(g)[i] == b[i] by {
        let x = b[2 * (i / 2)];
        let y = b[2 * (i / 2) + 1];
        assert(g[i / 2] == x * 256 + y);
    }
    assert(group_bytes(g) =~= b);
}

/// Groups joined by colons hold no zone, no `::`, and end in a digit.
proof fn lemma_group_text(g: Seq<u16>)
    ensures
        g.len() > 0 ==> group_text(g).len() > 0 && group_text(g).last() != ':',
        forall|i: int| 0 <= i < group_text(g).len() ==> #[trigger] group_text(g)[i] != '%',
        forall|i: int|
            0 <= i < group_text(g).len() - 1 && #[trigger] group_text(g)[i] == ':' ==> group_text(
                g,
            )[i + 1] != ':',
{
    lemma_group_texts(g);
    lemma_colon_text(group_texts(g));
}

pub proof fn lemma_split_shortened(h: Seq<u16>, l: Seq<u16>)
    ensures
        ({
            let t = group_text(h) + seq![':', ':'] + group_text(l);
            &&& before(t, '%') == t
            &&& split_at_text(t, "::"@) == Some((group_text(h), group_text(l)))
        }),
{
    reveal_strlit("::");
    assert("::"@ =~= seq![':', ':']);
    let head = group_text(h);
    let tail = group_text(l);
    let t = head + seq![':', ':'] + tail;
    let n = head.len() as int;
    lemma_group_text(h);
    lemma_group_text(l);
    assert forall|i: int| 0 <= i < t.len() implies in_class(Class::IsNot('%'), #[trigger] t[i]) by {
        if i < n {
            assert(t[i] == head[i]);
        } else if i >= n + 2 {
            assert(t[i] == tail[i - n - 2]);
        }
    }
    lemma_lead_is(t, Class::IsNot('%'), t.len() as int);
    assert(before(t, '%') =~= t);
    assert(t.subrange(n, n + 2) =~= "::"@);
    assert forall|p: int| 0 <= p < n implies !occurs_at(t, "::"@, p) by {
        if occurs_at(t, "::"@, p) {
            let w = t.subrange(p, p + 2);
            assert(w[0] == ':' && w[1] == ':');
            assert(t[p] == head[p]);
            if h.len() == 0 {
                assert(head.len() == 0);
            }
            if p + 1 < n {
                assert(t[p + 1] == head[p + 1]);
            } else {
                assert(head[p] == head.last());
            }
        }
    }
    lemma_find_is(t, "::"@, n);
    assert(t.take(n) =~= head);
    assert(t.skip(n + 2) =~= tail);
}

pub proof fn lemma_split_plain(g: Seq<u16>)
    ensures
        before(group_text(g), '%') == group_text(g),
        split_at_text(group_text(g), "::"@) is None,
{
    reveal_strlit("::");
    assert("::"@ =~= seq![':', ':']);
    let t = group_text(g);
    lemma_group_text(g);
    lemma_lead_is(t, Class::IsNot('%'), t.len() as int);
    assert(before(t, '%') =~= t);
    assert forall|p: int| 0 <= p implies !occurs_at(t, "::"@, p) by {
        if occurs_at(t, "::"@, p) {
            let w = t.subrange(p, p + 2);
            assert(w[0] == ':' && w[1] == ':');
            assert(t[p] == w[0] && t[p + 1] == w[1]);
        }
    }
    lemma_find_from(t, "::"@, 0);
}

/// An address that is written and read back is the same address.
pub proof fn law_v6_roundtrip(b: Seq<u8>)
    requires
        b.len() == 16,
    ensures
        v6_bytes(v6_text(b)) == Some(b),
{
    let g = groups(b);
    let at = longest_run(g, 0);
    let n = zero_run(g, at) as int;
    lemma_longest_run(g, 0);
    lemma_zero_run(g, at);
    lemma_group_bytes(b);
    if n >= 2 {
        let h = g.take(at);
        let l = g.skip(at + n);
        lemma_split_shortened(h, l);
        lemma_side_groups(h);
        lemma_side_groups(l);
        assert forall|i: int| 0 <= i < 8 implies spread(h, l)[i] == g[i] by {
            if at <= i < at + n {
                assert(g[i] == 0);
            }
        }
        assert(spread(h, l) =~= g);
    } else {
        lemma_split_plain(g);
        lemma_side_groups(g);
        assert(spread(g, Seq::empty()) =~= g);
    }
}

/// The interface identifier that is made from the hardware address `m`.
pub open spec fn eui64(m: Seq<u8>) -> Seq<u8> {
    seq![m[0] ^ 0x02, m[1], m[2], 0xff, 0xfe, m[3], m[4], m[5]]
}

/// The hardware address comes back out of every address that was made from it,
/// whatever the network part.
pub proof fn law_eui64_reveals_mac(net: Seq<u8>, m: Seq<u8>)
    requires
        net.len() == 8,
        m.len() == 6,
    ensures
        v6_mac(v6_text(net + eui64(m))) == Some(mac_text(m)),
{
    let b = net + eui64(m);
    law_v6_roundtrip(b);
    let x = m[0];
    assert((x ^ 0x02) ^ 0x02 == x) by (bit_vector);
    assert(seq![b[8] ^ 0x02, b[9], b[10], b[13], b[14], b[15]] =~= m);
}

/// A hardware address that is written out is in normal form.
pub proof fn law_mac_text_is_normal(m: Seq<u8>)
    requires
        m.len() == 6,
    ensures
        mac_normal(mac_text(m)) == Some(mac_text(m)),
{
    let h = Seq::new(
        12,
        |i: int|
            if i % 2 == 0 {
                digit_char((m[i / 2] / 16) as nat)
            } else {
                digit_char((m[i / 2] % 16) as nat)
            },
    );
    assert forall|i: int| 0 <= i < 12 implies hex_digit(#[trigger] h[i]) && !('A' <= h[i] <= 'Z') by {
    }
    lemma_kept_form(h);
    assert(lower(h) =~= h);
    assert(mac_text(m) =~= mac_form(h));
}

} // verus!
