//! The far ends of long connections, from the connection table of the kernel.

use crate::event::{opt_event, Event, EventView};
use crate::num::{parse_u16, parse_u64, parse_u8, unsigned};
use crate::text::{
    before, begins, chars, slices, spells, split_words, starts, starts_with, text, until, words,
};
use vstd::prelude::*;
use vstd::slice::slice_subrange;

verus! {

/// With fewer packets, a connection is no long one.
pub const MIN_PACKETS: u64 = 20;

/// The table is not read more often than with this many seconds in between.
pub const MIN_PAUSE: u64 = 30;

/// The seconds from one reading of the table to the next.
pub fn pause(interval: u64) -> (r: u64)
    ensures
        r == if interval < MIN_PAUSE {
            MIN_PAUSE
        } else {
            interval
        },
{
    if interval < MIN_PAUSE {
        MIN_PAUSE
    } else {
        interval
    }
}

/// A connection: who, how, with whom, at which port, and how many packets.
pub struct Flow {
    pub src: String,
    pub proto: String,
    pub dst: String,
    pub port: u16,
    pub packets: u64,
}

/// A connection, in mathematical values.
pub struct FlowView {
    pub src: Seq<char>,
    pub proto: Seq<char>,
    pub dst: Seq<char>,
    pub port: u16,
    pub packets: u64,
}

impl View for Flow {
    type V = FlowView;

    open spec fn view(&self) -> FlowView {
        FlowView {
            src: self.src@,
            proto: self.proto@,
            dst: self.dst@,
            port: self.port,
            packets: self.packets,
        }
    }
}

/// The value of the first word that begins with `key`.
pub open spec fn first_value(ws: Seq<Seq<char>>, key: Seq<char>) -> Option<Seq<char>>
    decreases ws.len(),
{
    if ws.len() == 0 {
        None
    } else if starts(ws[0], key) {
        Some(ws[0].skip(key.len() as int))
    } else {
        first_value(ws.skip(1), key)
    }
}

/// The connection that a line shows, by its first tuple; `None` where it is
/// neither over TCP nor over UDP or something is missing.
pub open spec fn flow_in(line: Seq<char>) -> Option<FlowView> {
    let f = words(line);
    if f.len() < 3 || (f[2] != "tcp"@ && f[2] != "udp"@) {
        None
    } else {
        match (
            first_value(f, "src="@),
            first_value(f, "dst="@),
            first_value(f, "dport="@),
            first_value(f, "packets="@),
        ) {
            (Some(src), Some(dst), Some(port), Some(packets)) => match unsigned(port, 10, 65535) {
                Some(p) => Some(
                    FlowView {
                        src,
                        proto: f[2],
                        dst,
                        port: p as u16,
                        packets: match unsigned(packets, 10, u64::MAX as nat) {
                            Some(n) => n as u64,
                            None => 0,
                        },
                    },
                ),
                None => None,
            },
            _ => None,
        }
    }
}

/// The view of a connection that may be missing.
pub open spec fn opt_flow(f: Option<Flow>) -> Option<FlowView> {
    match f {
        Some(f) => Some(f@),
        None => None,
    }
}

/// Finds the value of the first word that begins with `key`.
fn find_value<'a>(f: &Vec<&'a [char]>, key: &str) -> (r: Option<&'a [char]>)
    ensures
        match r {
            Some(v) => first_value(slices(f@), key@) == Some(v@),
            None => first_value(slices(f@), key@) is None,
        },
{
    let kc = chars(key);
    let k = kc.as_slice();
    let ghost all = slices(f@);
    assert(all.skip(0) =~= all);
    for i in 0..f.len()
        invariant
            all == slices(f@),
            k@ == key@,
            first_value(all, key@) == first_value(all.skip(i as int), key@),
    {
        let w = f[i];
        assert(all.skip(i as int)[0] == w@);
        if starts_with(w, k) {
            let v = slice_subrange(w, k.len(), w.len());
            assert(v@ =~= w@.skip(k@.len() as int));
            return Some(v);
        }
        assert(all.skip(i as int).skip(1) =~= all.skip(i + 1));
    }
    None
}

/// Reads a line of the connection table.
pub fn parse_line(line: &str) -> (r: Option<Flow>)
    ensures
        opt_flow(r) == flow_in(line@),
{
    let lc = chars(line);
    let f = split_words(lc.as_slice());
    let ghost fw = words(line@);
    assert(slices(f@) == fw);
    if f.len() < 3 {
        return None;
    }
    let proto = f[2];
    assert(fw[2] == proto@);
    if !spells(proto, "tcp") && !spells(proto, "udp") {
        return None;
    }
    let (src, dst, dport, packets) = match (
        find_value(&f, "src="),
        find_value(&f, "dst="),
        find_value(&f, "dport="),
        find_value(&f, "packets="),
    ) {
        (Some(a), Some(b), Some(c), Some(d)) => (a, b, c, d),
        _ => {
            return None;
        },
    };
    let port = match parse_u16(dport) {
        Some(p) => p,
        None => {
            return None;
        },
    };
    let n: u64 = match parse_u64(packets) {
        Some(n) => n,
        None => 0,
    };
    Some(Flow { src: text(src), proto: text(proto), dst: text(dst), port, packets: n })
}

/// Whether an address is no far end: the router itself, everyone, or a group.
pub open spec fn no_peer(ip: Seq<char>) -> bool {
    starts(ip, "127."@) || ip == "255.255.255.255"@ || match unsigned(before(ip, '.'), 10, 255) {
        Some(n) => 224 <= n <= 239,
        None => starts(ip, "ff"@),
    }
}

/// Whether an address is no far end.
pub fn is_uninteresting(ip: &str) -> (r: bool)
    ensures
        r == no_peer(ip@),
{
    let c = chars(ip);
    let s = c.as_slice();
    if begins(s, "127.") || spells(s, "255.255.255.255") {
        return true;
    }
    match parse_u8(until(s, '.')) {
        Some(n) => 224 <= n && n <= 239,
        None => begins(s, "ff"),
    }
}

/// What a line of the connection table tells: the far end of a long connection.
pub open spec fn peer_in(line: Seq<char>) -> Option<EventView> {
    match flow_in(line) {
        Some(f) => if f.packets < MIN_PACKETS || no_peer(f.dst) {
            None
        } else {
            Some(EventView::Peer { ip: f.src, proto: f.proto, remote: f.dst, port: f.port })
        },
        None => None,
    }
}

/// Reads what a line of the connection table tells.
pub fn peer_event(line: &str) -> (r: Option<Event>)
    ensures
        opt_event(r) == peer_in(line@),
{
    match parse_line(line) {
        Some(f) => {
            if f.packets < MIN_PACKETS || is_uninteresting(f.dst.as_str()) {
                None
            } else {
                Some(Event::Peer { ip: f.src, proto: f.proto, remote: f.dst, port: f.port })
            }
        },
        None => None,
    }
}

/// Who is reported as a far end is one, of a connection that is not a short one.
pub proof fn law_far_ends_are_long_and_real(line: Seq<char>)
    ensures
        match peer_in(line) {
            Some(EventView::Peer { ip, proto, remote, port }) => !no_peer(remote) && flow_in(
                line,
            ).unwrap().packets >= MIN_PACKETS,
            Some(_) => false,
            None => true,
        },
{
}

} // verus!
