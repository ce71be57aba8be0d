//! Queries over `dnstap`: frames of a stream, and in each a message in the encoding
//! of protocol buffers.

use crate::dnsmsg::{first_question, question_name};
use crate::dnswatch::{is_loopback, own_address};
use crate::event::{opt_event, Event, EventView};
use crate::util::{group_text, groups, push_groups};
use crate::wire::{be32, fmt_v4, u32_at, v4_text};
use vstd::prelude::*;
use vstd::slice::{slice_subrange, slice_to_vec};

verus! {

/// A longer frame ends the stream.
pub const MAX_FRAME: u32 = 1048576;

/// 128 to the power `k`.
pub open spec fn place_value(k: nat) -> nat
    decreases k,
{
    if k == 0 {
        1
    } else {
        128 * place_value((k - 1) as nat)
    }
}

/// The number at `i`, seven bits to a byte, low bits first, in at most ten bytes,
/// and where it ends. It is the `k`th byte of the number, and `acc` is the value of
/// the bytes before.
pub open spec fn varint_from(b: Seq<u8>, i: int, k: nat, acc: nat) -> Option<(nat, int)>
    decreases 10 - k,
{
    if i < 0 || i >= b.len() || k >= 10 {
        None
    } else {
        let v = acc + (b[i] % 128) as nat * place_value(k);
        if b[i] < 128 {
            Some((v, i + 1))
        } else {
            varint_from(b, i + 1, k + 1, v)
        }
    }
}

/// The number at `i`, its low sixty-four bits, and where it ends.
pub open spec fn varint_at(b: Seq<u8>, i: int) -> Option<(u64, int)> {
    match varint_from(b, i, 0, 0) {
        Some((v, end)) => Some(((v % 0x1_0000_0000_0000_0000) as u64, end)),
        None => None,
    }
}

/// Reads the number at `start`, and where it ends.
pub fn varint(b: &[u8], start: usize) -> (r: Option<(u64, usize)>)
    ensures
        match r {
            Some((v, end)) => varint_at(b@, start as int) == Some((v, end as int)) && start < end
                <= b@.len(),
            None => varint_at(b@, start as int) is None,
        },
{
    let mut i = start;
    let mut k: u32 = 0;
    let mut unit: u64 = 1;
    let mut acc: u64 = 0;
    while i < b.len() && k < 10
        invariant
            start <= i,
            k == 0 ==> i == start,
            k > 0 ==> start < i <= b@.len(),
            k <= 10,
            k < 10 ==> unit == place_value(k as nat) && acc < unit,
            k < 10 ==> varint_from(b@, start as int, 0, 0) == varint_from(
                b@,
                i as int,
                k as nat,
                acc as nat,
            ),
            k == 10 ==> varint_from(b@, start as int, 0, 0) is None,
        decreases 10 - k,
    {
        let byte = b[i];
        let low = (byte % 128) as u64;
        proof {
            lemma_places();
        }
        if k < 9 {
            assert(unit <= 72057594037927936);
            assert(low * unit <= 127 * unit && 0 <= low * unit) by (nonlinear_arith)
                requires
                    0 <= low <= 127,
            ;
            acc = acc + low * unit;
            if byte < 128 {
                return Some((acc, i + 1));
            }
            unit = unit * 128;
        } else {
            let top = low % 2;
            let ghost whole = acc + low * unit;
            assert(low * unit == (low / 2) * 0x1_0000_0000_0000_0000 + top * unit)
                by (nonlinear_arith)
                requires
                    unit == 9223372036854775808,
                    top == low % 2,
            ;
            assert(top * unit == if top == 1 {
                9223372036854775808int
            } else {
                0int
            }) by (nonlinear_arith)
                requires
                    unit == 9223372036854775808,
                    top == 0 || top == 1,
            ;
            acc = acc + if top == 1 {
                9223372036854775808
            } else {
                0
            };
            assert(whole % 0x1_0000_0000_0000_0000 == acc) by (nonlinear_arith)
                requires
                    whole == (low / 2) * 0x1_0000_0000_0000_0000 + acc,
                    0 <= acc < 0x1_0000_0000_0000_0000,
            ;
            if byte < 128 {
                return Some((acc, i + 1));
            }
            assert(varint_from(b@, i + 1, 10, whole as nat) is None);
        }
        i = i + 1;
        k = k + 1;
    }
    None
}

proof fn lemma_places()
    ensures
        place_value(0) == 1,
        place_value(1) == 128,
        place_value(2) == 16384,
        place_value(3) == 2097152,
        place_value(4) == 268435456,
        place_value(5) == 34359738368,
        place_value(6) == 4398046511104,
        place_value(7) == 562949953421312,
        place_value(8) == 72057594037927936,
        place_value(9) == 9223372036854775808,
{
    reveal_with_fuel(place_value, 11);
}

/// The fields of a message from `i` on that hold bytes, in their order. What cannot
/// be read ends the list.
pub open spec fn byte_fields(b: Seq<u8>, i: int) -> Seq<(u32, Seq<u8>)>
    decreases b.len() - i,
{
    match varint_at(b, i) {
        None => Seq::empty(),
        Some((key, at)) => if at <= i || at > b.len() {
            Seq::empty()
        } else if key % 8 == 0 {
            match varint_at(b, at) {
                Some((_, end)) if i < end <= b.len() => byte_fields(b, end),
                _ => Seq::empty(),
            }
        } else if key % 8 == 1 {
            if at + 8 <= b.len() {
                byte_fields(b, at + 8)
            } else {
                Seq::empty()
            }
        } else if key % 8 == 5 {
            if at + 4 <= b.len() {
                byte_fields(b, at + 4)
            } else {
                Seq::empty()
            }
        } else if key % 8 == 2 {
            match varint_at(b, at) {
                Some((len, start)) if i < start && start + len <= b.len() => seq![
                    (((key / 8) % 0x1_0000_0000) as u32, b.subrange(start, start + len)),
                ] + byte_fields(b, start + len),
                _ => Seq::empty(),
            }
        } else {
            Seq::empty()
        },
    }
}

/// The fields with a wanted number.
pub open spec fn wanted_fields(b: Seq<u8>, want: Seq<u32>) -> Seq<(u32, Seq<u8>)> {
    byte_fields(b, 0).filter(|f: (u32, Seq<u8>)| want.contains(f.0))
}

/// The views of a list of fields.
pub open spec fn field_views(v: Seq<(u32, Vec<u8>)>) -> Seq<(u32, Seq<u8>)> {
    v.map_values(|f: (u32, Vec<u8>)| (f.0, f.1@))
}

/// Whether a number stands in a list.
fn is_wanted(want: &[u32], n: u32) -> (r: bool)
    ensures
        r == want@.contains(n),
{
    for i in 0..want.len()
        invariant
            forall|j: int| 0 <= j < i ==> #[trigger] want@[j] != n,
    {
        if want[i] == n {
            return true;
        }
    }
    false
}

/// Reads the wanted fields of a message.
pub fn pb_fields(b: &[u8], want: &[u32]) -> (r: Vec<(u32, Vec<u8>)>)
    ensures
        field_views(r@) == wanted_fields(b@, want@),
{
    let ghost p = |f: (u32, Seq<u8>)| want@.contains(f.0);
    let ghost whole = byte_fields(b@, 0);
    let ghost mut done = Seq::<(u32, Seq<u8>)>::empty();
    let mut out: Vec<(u32, Vec<u8>)> = Vec::new();
    let mut i: usize = 0;
    let mut going = true;
    proof {
        assert(done + whole =~= whole);
        assert(field_views(out@) =~= done.filter(p)) by {
            reveal(Seq::filter);
        }
    }
    while going
        invariant
            i <= b@.len(),
            p == (|f: (u32, Seq<u8>)| want@.contains(f.0)),
            whole == byte_fields(b@, 0),
            field_views(out@) == done.filter(p),
            going ==> whole == done + byte_fields(b@, i as int),
            !going ==> whole == done,
        decreases b@.len() - i, if going { 1int } else { 0int },
    {
        let ghost was = done;
        assert(was + Seq::<(u32, Seq<u8>)>::empty() =~= was);
        let n = b.len();
        let mut next: Option<usize> = None;
        if let Some((key, at)) = varint(b, i) {
            let kind = key % 8;
            if kind == 0 {
                if let Some((_, end)) = varint(b, at) {
                    next = Some(end);
                }
            } else if kind == 1 {
                if n - at >= 8 {
                    next = Some(at + 8);
                }
            } else if kind == 5 {
                if n - at >= 4 {
                    next = Some(at + 4);
                }
            } else if kind == 2 {
                if let Some((len, start)) = varint(b, at) {
                    if (n - start) as u64 >= len {
                        let end = start + len as usize;
                        let num = ((key / 8) % 0x1_0000_0000) as u32;
                        let part = slice_subrange(b, start, end);
                        let ghost one = (num, part@);
                        proof {
                            done = was.push(one);
                            assert(was + (seq![one] + byte_fields(b@, end as int)) =~= done
                                + byte_fields(b@, end as int));
                            assert(done.drop_last() =~= was);
                        }
                        if is_wanted(want, num) {
                            let ghost had = field_views(out@);
                            out.push((num, slice_to_vec(part)));
                            assert(field_views(out@) =~= had.push(one));
                        }
                        assert(field_views(out@) == done.filter(p)) by {
                            reveal(Seq::filter);
                        }
                        next = Some(end);
                    }
                }
            }
        }
        match next {
            Some(j) => {
                i = j;
            },
            None => {
                going = false;
            },
        }
    }
    out
}

/// The address of so many bytes; empty where they are neither four nor sixteen.
pub open spec fn address_of(v: Seq<u8>) -> Seq<char> {
    if v.len() == 4 {
        v4_text(v[0], v[1], v[2], v[3])
    } else if v.len() == 16 {
        group_text(groups(v))
    } else {
        Seq::empty()
    }
}

/// The address and the name after the first `n` fields of a message.
pub open spec fn query_parts(fs: Seq<(u32, Seq<u8>)>, n: int) -> (Seq<char>, Seq<char>)
    decreases n,
{
    if n <= 0 {
        (Seq::empty(), Seq::empty())
    } else {
        let (ip, dom) = query_parts(fs, n - 1);
        if fs[n - 1].0 == 4 {
            (address_of(fs[n - 1].1), dom)
        } else if fs[n - 1].0 == 10 {
            (
                ip,
                match question_name(fs[n - 1].1) {
                    Some(d) => d,
                    None => Seq::empty(),
                },
            )
        } else {
            (ip, dom)
        }
    }
}

/// The address that asked and the name that was asked for.
pub open spec fn query_of(payload: Seq<u8>) -> Option<(Seq<char>, Seq<char>)> {
    let outer = wanted_fields(payload, seq![14u32]);
    if outer.len() == 0 {
        None
    } else {
        let fs = wanted_fields(outer[0].1, seq![4u32, 10u32]);
        let (ip, dom) = query_parts(fs, fs.len() as int);
        if ip.len() == 0 || dom.len() == 0 {
            None
        } else {
            Some((ip, dom))
        }
    }
}

/// Writes an address of so many bytes.
fn write_address(v: &Vec<u8>) -> (r: String)
    ensures
        r@ == address_of(v@),
{
    if v.len() == 4 {
        fmt_v4(v[0], v[1], v[2], v[3])
    } else if v.len() == 16 {
        let mut g: Vec<u16> = Vec::new();
        for i in 0..8usize
            invariant
                v@.len() == 16,
                g@.len() == i,
                forall|j: int| 0 <= j < i ==> #[trigger] g@[j] == groups(v@)[j],
        {
            g.push(v[2 * i] as u16 * 256 + v[2 * i + 1] as u16);
        }
        assert(g@ =~= groups(v@));
        let mut out = String::new();
        push_groups(&mut out, &g, 0, 8);
        assert(g@.subrange(0, 8) =~= g@);
        assert(out@ =~= group_text(groups(v@)));
        out
    } else {
        let r = String::new();
        assert(r@ =~= Seq::<char>::empty());
        r
    }
}

/// The texts of an address and a name.
pub open spec fn opt_pair(o: Option<(String, String)>) -> Option<(Seq<char>, Seq<char>)> {
    match o {
        Some((a, b)) => Some((a@, b@)),
        None => None,
    }
}

/// Reads the address that asked and the name that was asked for.
pub fn dnstap_decode(payload: &[u8]) -> (r: Option<(String, String)>)
    ensures
        opt_pair(r) == query_of(payload@),
{
    let want = [14u32];
    assert(want@ =~= seq![14u32]);
    let outer = pb_fields(payload, want.as_slice());
    assert(field_views(outer@).len() == outer@.len());
    if outer.len() == 0 {
        return None;
    }
    assert(field_views(outer@)[0] == (outer@[0].0, outer@[0].1@));
    let inner = [4u32, 10u32];
    assert(inner@ =~= seq![4u32, 10u32]);
    let fs = pb_fields(outer[0].1.as_slice(), inner.as_slice());
    let ghost fv = field_views(fs@);
    let mut ip = String::new();
    let mut dom = String::new();
    assert(ip@ =~= Seq::<char>::empty());
    assert(dom@ =~= Seq::<char>::empty());
    for i in 0..fs.len()
        invariant
            fv == field_views(fs@),
            (ip@, dom@) == query_parts(fv, i as int),
    {
        assert(fv[i as int] == (fs@[i as int].0, fs@[i as int].1@));
        if fs[i].0 == 4 {
            ip = write_address(&fs[i].1);
        } else if fs[i].0 == 10 {
            dom = match first_question(fs[i].1.as_slice()) {
                Some(d) => d,
                None => {
                    let none = String::new();
                    assert(none@ =~= Seq::<char>::empty());
                    none
                },
            };
        }
    }
    assert(fv.len() == fs@.len());
    if ip.as_str().is_empty() || dom.as_str().is_empty() {
        None
    } else {
        Some((ip, dom))
    }
}

// ---------------------------------------------------------------------------
// The stream
// ---------------------------------------------------------------------------

/// What is read next from a stream.
#[derive(Clone, Copy, PartialEq, Eq, Structural)]
pub enum Expect {
    /// The length of a frame.
    Frame,
    /// The length of a control frame.
    ControlLen,
    /// A control frame of this length.
    Control(u32),
    /// A data frame of this length.
    Data(u32),
    /// Nothing: the stream has ended.
    End,
}

/// How many bytes are read next.
pub open spec fn bytes_needed(e: Expect) -> nat {
    match e {
        Expect::Frame | Expect::ControlLen => 4,
        Expect::Control(n) => n as nat,
        Expect::Data(n) => n as nat,
        Expect::End => 0,
    }
}

/// Says how many bytes are read next.
pub fn needed(e: Expect) -> (r: u32)
    ensures
        r == bytes_needed(e),
{
    match e {
        Expect::Frame | Expect::ControlLen => 4,
        Expect::Control(n) => n,
        Expect::Data(n) => n,
        Expect::End => 0,
    }
}

/// What bytes that were read lead to.
pub struct Step {
    /// What is read next.
    pub next: Expect,
    /// What is answered before.
    pub reply: Vec<u8>,
    /// What was learnt.
    pub event: Option<Event>,
}

/// The four bytes of a number, high byte first.
pub open spec fn number_bytes(n: u32) -> Seq<u8> {
    seq![
        (n / 0x100_0000) as u8,
        (n / 0x1_0000 % 0x100) as u8,
        (n / 0x100 % 0x100) as u8,
        (n % 0x100) as u8,
    ]
}

/// A control frame with nothing but its type.
pub open spec fn control_frame(kind: u32) -> Seq<u8> {
    number_bytes(0) + number_bytes(4) + number_bytes(kind)
}

/// What is read next after the bytes `b`: a frame of length 0 is a control frame; one
/// that is too long, one too short for its type and the answer to a stop end the
/// stream.
pub open spec fn next_expected(e: Expect, b: Seq<u8>) -> Expect {
    match e {
        Expect::Frame => {
            let len = u32_at(b, 0) as u32;
            if len == 0 {
                Expect::ControlLen
            } else if len > MAX_FRAME {
                Expect::End
            } else {
                Expect::Data(len)
            }
        },
        Expect::ControlLen => Expect::Control(u32_at(b, 0) as u32),
        Expect::Control(_) => if b.len() < 4 || u32_at(b, 0) == 3 {
            Expect::End
        } else {
            Expect::Frame
        },
        Expect::Data(_) => Expect::Frame,
        Expect::End => Expect::End,
    }
}

/// What is answered to the bytes `b`: a ready is accepted, a stop is finished.
pub open spec fn answer(e: Expect, b: Seq<u8>) -> Seq<u8> {
    match e {
        Expect::Control(_) => if b.len() < 4 {
            Seq::empty()
        } else if u32_at(b, 0) == 4 {
            control_frame(1)
        } else if u32_at(b, 0) == 3 {
            control_frame(5)
        } else {
            Seq::empty()
        },
        _ => Seq::empty(),
    }
}

/// What is learnt from the bytes `b`. The router's own queries are left out.
pub open spec fn learnt(e: Expect, b: Seq<u8>) -> Option<EventView> {
    match e {
        Expect::Data(_) => match query_of(b) {
            Some((ip, domain)) => if own_address(ip) {
                None
            } else {
                Some(EventView::Dns { ip, domain, qtype: Seq::empty(), sport: 0 })
            },
            None => None,
        },
        _ => None,
    }
}

/// Writes a control frame with nothing but its type.
fn make_control(kind: u8) -> (r: Vec<u8>)
    ensures
        r@ == control_frame(kind as u32),
{
    let mut v: Vec<u8> = Vec::new();
    v.push(0);
    v.push(0);
    v.push(0);
    v.push(0);
    v.push(0);
    v.push(0);
    v.push(0);
    v.push(4);
    v.push(0);
    v.push(0);
    v.push(0);
    v.push(kind);
    assert(v@ =~= control_frame(kind as u32));
    v
}

/// Takes in the bytes that were read for `e`.
pub fn fstrm_step(e: Expect, b: &[u8]) -> (r: Step)
    requires
        b@.len() == bytes_needed(e),
    ensures
        r.next == next_expected(e, b@),
        r.reply@ == answer(e, b@),
        opt_event(r.event) == learnt(e, b@),
{
    match e {
        Expect::Frame => {
            let len = be32(b, 0);
            let next = if len == 0 {
                Expect::ControlLen
            } else if len > MAX_FRAME {
                Expect::End
            } else {
                Expect::Data(len)
            };
            Step { next, reply: Vec::new(), event: None }
        },
        Expect::ControlLen => Step {
            next: Expect::Control(be32(b, 0)),
            reply: Vec::new(),
            event: None,
        },
        Expect::Control(_) => {
            if b.len() < 4 {
                return Step { next: Expect::End, reply: Vec::new(), event: None };
            }
            let kind = be32(b, 0);
            if kind == 4 {
                Step { next: Expect::Frame, reply: make_control(1), event: None }
            } else if kind == 3 {
                Step { next: Expect::End, reply: make_control(5), event: None }
            } else {
                Step { next: Expect::Frame, reply: Vec::new(), event: None }
            }
        },
        Expect::Data(_) => {
            let event = match dnstap_decode(b) {
                Some((ip, domain)) => {
                    if is_loopback(ip.as_str()) {
                        None
                    } else {
                        let q = Event::Dns { ip, domain, qtype: String::new(), sport: 0 };
                        assert(q@->Dns_qtype =~= Seq::<char>::empty());
                        Some(q)
                    }
                },
                None => None,
            };
            Step { next: Expect::Frame, reply: Vec::new(), event }
        },
        Expect::End => Step { next: Expect::End, reply: Vec::new(), event: None },
    }
}

/// A stream that has ended stays so, and a data frame that is accepted is never longer
/// than the limit.
pub proof fn law_stream_is_bounded(e: Expect, b: Seq<u8>)
    ensures
        e is End ==> next_expected(e, b) is End,
        next_expected(e, b) matches Expect::Data(n) ==> 0 < n <= MAX_FRAME,
{
}

/// The answer to a stop is the last thing that is said.
pub proof fn law_stop_ends_the_stream(n: u32, b: Seq<u8>)
    requires
        b.len() >= 4,
        u32_at(b, 0) == 3,
    ensures
        answer(Expect::Control(n), b) == control_frame(5),
        next_expected(Expect::Control(n), b) is End,
{
}

} // verus!
