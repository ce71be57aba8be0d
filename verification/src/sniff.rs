//! What a captured frame tells about the device that sent it: the fingerprint of
//! its TCP stack from a connection request, the host name in a TLS greeting or a
//! plain HTTP request, and the client name of a plain MQTT connection.

use crate::event::{opt_event, Event, EventView};
use crate::num::{dec, push_dec};
use crate::text::{
    append_str, before, chars, cut, first, in_class, join, joined, keep, kept, lossy, lower, owned,
    part_first, parts, slices, spells, split_first, split_text, text, texts, to_lower, trim,
    trimmed, until, utf8_lossy, Class,
};
use crate::util::{domain_normal, fmt_v6, norm_domain, norm_domain_of, opt_text, v6_text};
use crate::wire::{be16, fmt_v4, u16_at, v4_text};
use vstd::prelude::*;
use vstd::slice::slice_subrange;

verus! {

/// The length of an Ethernet header.
pub const ETH_HDR: usize = 14;

/// The frame type of IPv4.
pub const ETH_P_IP: u16 = 0x0800;

/// The frame type of IPv6.
pub const ETH_P_IPV6: u16 = 0x86dd;

/// How much of an HTTP request is read.
pub const HTTP_SCAN: usize = 2048;

/// An option of a TCP header.
pub enum Opt {
    Eol,
    Nop,
    Mss(u16),
    Ws(u8),
    Sok,
    Ts,
    Other,
}

/// The option at the start of `o`, which is `len` bytes long.
pub open spec fn option_of(o: Seq<u8>, len: u8) -> Opt {
    if o[0] == 2 && len == 4 {
        Opt::Mss(u16_at(o, 2) as u16)
    } else if o[0] == 3 && len == 3 {
        Opt::Ws(o[2])
    } else if o[0] == 4 {
        Opt::Sok
    } else if o[0] == 8 {
        Opt::Ts
    } else {
        Opt::Other
    }
}

/// The options of a header, in their order. The list ends behind the end mark
/// and before an option that does not fit.
pub open spec fn options(o: Seq<u8>) -> Seq<Opt>
    decreases o.len(),
{
    if o.len() == 0 {
        Seq::empty()
    } else if o[0] == 0 {
        seq![Opt::Eol]
    } else if o[0] == 1 {
        seq![Opt::Nop] + options(o.skip(1))
    } else if o.len() < 2 || o[1] < 2 || o[1] > o.len() {
        Seq::empty()
    } else {
        seq![option_of(o, o[1])] + options(o.skip(o[1] as int))
    }
}

/// The name of an option in a fingerprint.
pub open spec fn option_name(o: Opt) -> Seq<char> {
    match o {
        Opt::Eol => "eol"@,
        Opt::Nop => "nop"@,
        Opt::Mss(_) => "mss"@,
        Opt::Ws(_) => "ws"@,
        Opt::Sok => "sok"@,
        Opt::Ts => "ts"@,
        Opt::Other => "opt"@,
    }
}

/// The names of a list of options.
pub open spec fn option_names(os: Seq<Opt>) -> Seq<Seq<char>> {
    os.map_values(|o: Opt| option_name(o))
}

/// The segment size that the last option about it gives; 0 without one.
pub open spec fn segment_size(os: Seq<Opt>) -> u16
    decreases os.len(),
{
    if os.len() == 0 {
        0
    } else {
        match os.last() {
            Opt::Mss(n) => n,
            _ => segment_size(os.drop_last()),
        }
    }
}

/// The window scale that the last option about it gives; 255 without one.
pub open spec fn window_scale(os: Seq<Opt>) -> u8
    decreases os.len(),
{
    if os.len() == 0 {
        255
    } else {
        match os.last() {
            Opt::Ws(n) => n,
            _ => window_scale(os.drop_last()),
        }
    }
}

/// The length of the header of a TCP segment, as it states it.
pub open spec fn header_len(tcp: Seq<u8>) -> int {
    tcp[12] / 16 * 4
}

/// The fingerprint of the stack that sent a connection request:
/// `ttl:mss:window:scale:options:fragmenting`, with the options by name in the
/// order in which they stand.
pub open spec fn fingerprint(ttl: u8, df: Seq<char>, tcp: Seq<u8>) -> Option<Seq<char>> {
    if tcp.len() < 20 || header_len(tcp) < 20 || header_len(tcp) > tcp.len() {
        None
    } else {
        let os = options(tcp.subrange(20, header_len(tcp)));
        let scale = window_scale(os);
        Some(
            dec(ttl as nat) + seq![':'] + dec(segment_size(os) as nat) + seq![':'] + dec(
                u16_at(tcp, 14) as nat,
            ) + seq![':'] + (if scale == 255 {
                "-"@
            } else {
                dec(scale as nat)
            }) + seq![':'] + joined(option_names(os), ","@) + seq![':'] + df,
        )
    }
}

/// Takes the fingerprint of a stack from its connection request.
pub fn tcp_fingerprint(ttl: u8, df: &str, tcp: &[u8]) -> (r: Option<String>)
    ensures
        opt_text(r) == fingerprint(ttl, df@, tcp@),
{
    if tcp.len() < 20 {
        return None;
    }
    let win = be16(tcp, 14);
    let doff = (tcp[12] / 16) as usize * 4;
    if doff < 20 || doff > tcp.len() {
        return None;
    }
    let o = slice_subrange(tcp, 20, doff);
    let mut mss: u16 = 0;
    let mut ws: u8 = 255;
    let mut names: Vec<String> = Vec::new();
    let mut i: usize = 0;
    let mut open = true;
    let ghost mut done = Seq::<Opt>::empty();
    let ghost whole = options(o@);
    assert(o@.skip(0) =~= o@);
    assert(done + whole =~= whole);
    assert(texts(names@) =~= option_names(done));
    while open && i < o.len()
        invariant
            i <= o@.len(),
            o@.len() <= 40,
            whole == if open {
                done + options(o@.skip(i as int))
            } else {
                done
            },
            texts(names@) == option_names(done),
            mss == segment_size(done),
            ws == window_scale(done),
        decreases o@.len() - i, if open { 1int } else { 0int },
    {
        let kind = o[i];
        let ghost rest = o@.skip(i as int);
        let ghost was = done;
        let ghost had = texts(names@);
        assert(rest[0] == kind);
        if kind == 0 {
            names.push(owned("eol"));
            open = false;
            proof {
                done = was.push(Opt::Eol);
                assert(was + seq![Opt::Eol] =~= done);
            }
        } else if kind == 1 {
            names.push(owned("nop"));
            proof {
                done = was.push(Opt::Nop);
                assert(rest.skip(1) =~= o@.skip(i + 1));
                assert(was + (seq![Opt::Nop] + options(o@.skip(i + 1))) =~= done + options(
                    o@.skip(i + 1),
                ));
            }
            i = i + 1;
        } else if o.len() - i < 2 || o[i + 1] < 2 || o[i + 1] as usize > o.len() - i {
            open = false;
            assert(was + Seq::<Opt>::empty() =~= was);
        } else {
            let len = o[i + 1];
            assert(rest[1] == len);
            let part = slice_subrange(o, i, i + len as usize);
            assert(len == 4 ==> u16_at(rest, 2) == u16_at(part@, 2));
            if kind == 2 && len == 4 {
                mss = be16(part, 2);
                names.push(owned("mss"));
            } else if kind == 3 && len == 3 {
                ws = part[2];
                names.push(owned("ws"));
            } else if kind == 4 {
                names.push(owned("sok"));
            } else if kind == 8 {
                names.push(owned("ts"));
            } else {
                names.push(owned("opt"));
            }
            proof {
                let one = option_of(rest, len);
                done = was.push(one);
                assert(rest.skip(len as int) =~= o@.skip(i + len));
                assert(was + (seq![one] + options(o@.skip(i + len))) =~= done + options(
                    o@.skip(i + len),
                ));
            }
            i = i + len as usize;
        }
        proof {
            if done.len() > was.len() {
                assert(done.drop_last() =~= was);
                assert(texts(names@) =~= had.push(option_name(done.last())));
                assert(option_names(done) =~= option_names(was).push(option_name(done.last())));
            }
        }
    }
    proof {
        if open {
            assert(o@.skip(i as int) =~= Seq::<u8>::empty());
            assert(done + Seq::<Opt>::empty() =~= done);
        }
    }
    let mut out = String::new();
    push_dec(&mut out, ttl as u64);
    out.push(':');
    push_dec(&mut out, mss as u64);
    out.push(':');
    push_dec(&mut out, win as u64);
    out.push(':');
    if ws == 255 {
        append_str(&mut out, "-");
    } else {
        push_dec(&mut out, ws as u64);
    }
    out.push(':');
    let list = join(&names, ",");
    append_str(&mut out, list.as_str());
    out.push(':');
    append_str(&mut out, df);
    proof {
        assert(o@ == tcp@.subrange(20, header_len(tcp@)));
        assert(out@ =~= fingerprint(ttl, df@, tcp@).unwrap());
    }
    Some(out)
}

// ---------------------------------------------------------------------------
// TLS
// ---------------------------------------------------------------------------

/// Where the extensions of a TLS client greeting begin and end; `None` where the
/// bytes are no such greeting or break off before.
pub open spec fn extensions(p: Seq<u8>) -> Option<(int, int)> {
    if p.len() < 44 || p[0] != 0x16 || p[5] != 0x01 {
        None
    } else {
        let suites = 44 + p[43];
        if suites + 2 > p.len() {
            None
        } else {
            let methods = suites + 2 + u16_at(p, suites);
            if methods >= p.len() {
                None
            } else {
                let exts = methods + 1 + p[methods];
                if exts + 2 > p.len() {
                    None
                } else {
                    let end = exts + 2 + u16_at(p, exts);
                    Some((exts + 2, if end < p.len() { end } else { p.len() as int }))
                }
            }
        }
    }
}

/// The host name in the first server name extension from `i` on.
pub open spec fn server_name(p: Seq<u8>, i: int, end: int) -> Option<Seq<u8>>
    decreases end - i,
{
    if i < 0 || i + 4 > end {
        None
    } else {
        let len = u16_at(p, i + 2);
        if i + 4 + len > end {
            None
        } else if u16_at(p, i) != 0 {
            server_name(p, i + 4 + len, end)
        } else if len < 5 || p[i + 6] != 0 || i + 9 + u16_at(p, i + 7) > p.len() {
            None
        } else {
            Some(p.subrange(i + 9, i + 9 + u16_at(p, i + 7)))
        }
    }
}

/// The host name that a TLS client greeting asks for, in raw bytes.
pub open spec fn sni_raw(p: Seq<u8>) -> Option<Seq<u8>> {
    match extensions(p) {
        Some((i, end)) => server_name(p, i, end),
        None => None,
    }
}

/// Finds the extensions of a TLS client greeting.
fn find_extensions(p: &[u8]) -> (r: Option<(usize, usize)>)
    ensures
        r is Some <==> extensions(p@) is Some,
        r matches Some((i, end)) ==> extensions(p@) == Some((i as int, end as int)) && i <= end
            <= p@.len(),
{
    let n = p.len();
    if n < 44 || p[0] != 0x16 || p[5] != 0x01 {
        return None;
    }
    let sid = p[43] as usize;
    if n - 44 < sid || n - 44 - sid < 2 {
        return None;
    }
    let suites = 44 + sid;
    let cs = be16(p, suites) as usize;
    if n - suites - 2 <= cs {
        return None;
    }
    let methods = suites + 2 + cs;
    let comp = p[methods] as usize;
    if n - methods - 1 < comp || n - methods - 1 - comp < 2 {
        return None;
    }
    let exts = methods + 1 + comp;
    let total = be16(p, exts) as usize;
    let end = if n - exts - 2 < total {
        n
    } else {
        exts + 2 + total
    };
    Some((exts + 2, end))
}

/// Finds the host name that a TLS client greeting asks for.
pub fn sni_bytes(p: &[u8]) -> (r: Option<&[u8]>)
    ensures
        r is Some <==> sni_raw(p@) is Some,
        r matches Some(b) ==> sni_raw(p@) == Some(b@),
{
    let (start, end) = match find_extensions(p) {
        Some(v) => v,
        None => {
            return None;
        },
    };
    let mut i = start;
    while end - i >= 4
        invariant
            i <= end <= p@.len(),
            sni_raw(p@) == server_name(p@, i as int, end as int),
        decreases end - i,
    {
        let n = p.len();
        let kind = be16(p, i);
        let len = be16(p, i + 2) as usize;
        let at = i + 4;
        if end - at < len {
            return None;
        }
        if kind == 0 {
            if len >= 5 && p[at + 2] == 0 {
                let size = be16(p, at + 3) as usize;
                if n - at - 5 < size {
                    return None;
                }
                return Some(slice_subrange(p, at + 5, at + 5 + size));
            }
            return None;
        }
        i = at + len;
    }
    None
}

/// The host name that a TLS client greeting asks for, in normal form.
pub open spec fn sni_name(p: Seq<u8>) -> Option<Seq<char>> {
    match sni_raw(p) {
        Some(b) => Some(domain_normal(utf8_lossy(b))),
        None => None,
    }
}

/// Reads the host name that a TLS client greeting asks for.
pub fn tls_sni(p: &[u8]) -> (r: Option<String>)
    ensures
        opt_text(r) == sni_name(p@),
{
    match sni_bytes(p) {
        Some(b) => Some(norm_domain(lossy(b).as_str())),
        None => None,
    }
}

// ---------------------------------------------------------------------------
// HTTP
// ---------------------------------------------------------------------------

/// Whether the bytes begin with the four given.
pub open spec fn begins_with(p: Seq<u8>, a: u8, b: u8, c: u8, d: u8) -> bool {
    p.len() >= 4 && p[0] == a && p[1] == b && p[2] == c && p[3] == d
}

/// Whether the bytes begin like an HTTP request: with `GET `, `POST`, `HEAD`,
/// `PUT `, `OPTI` or `CONN`.
pub open spec fn is_request(p: Seq<u8>) -> bool {
    ||| begins_with(p, 71, 69, 84, 32)
    ||| begins_with(p, 80, 79, 83, 84)
    ||| begins_with(p, 72, 69, 65, 68)
    ||| begins_with(p, 80, 85, 84, 32)
    ||| begins_with(p, 79, 80, 84, 73)
    ||| begins_with(p, 67, 79, 78, 78)
}

/// Whether the bytes begin with the four given.
fn starts_four(p: &[u8], a: u8, b: u8, c: u8, d: u8) -> (r: bool)
    ensures
        r == begins_with(p@, a, b, c, d),
{
    p.len() >= 4 && p[0] == a && p[1] == b && p[2] == c && p[3] == d
}

/// The host and the agent that a list of header lines gives, the first of each,
/// where `host` and `ua` are what earlier lines gave. An empty line ends the
/// header.
pub open spec fn header_fields(
    ls: Seq<Seq<char>>,
    host: Seq<char>,
    ua: Seq<char>,
) -> (Seq<char>, Seq<char>)
    decreases ls.len(),
{
    if ls.len() == 0 || ls[0].len() == 0 {
        (host, ua)
    } else {
        match split_first(ls[0], ':') {
            None => header_fields(ls.skip(1), host, ua),
            Some((k, v)) => {
                let key = lower(trimmed(k));
                header_fields(
                    ls.skip(1),
                    if key == "host"@ && host.len() == 0 {
                        domain_normal(before(trimmed(v), ':'))
                    } else {
                        host
                    },
                    if key == "user-agent"@ && ua.len() == 0 {
                        first(trimmed(v), 200)
                    } else {
                        ua
                    },
                )
            },
        }
    }
}

/// The host and the agent of a request; `None` where it names neither.
pub open spec fn request_names(t: Seq<char>) -> Option<(Seq<char>, Seq<char>)> {
    let f = header_fields(parts(t, "\r\n"@).skip(1), Seq::empty(), Seq::empty());
    if f.0.len() == 0 && f.1.len() == 0 {
        None
    } else {
        Some(f)
    }
}

/// The texts of a pair of strings.
pub open spec fn opt_texts(o: Option<(String, String)>) -> Option<(Seq<char>, Seq<char>)> {
    match o {
        Some((a, b)) => Some((a@, b@)),
        None => None,
    }
}

proof fn lemma_key_parts()
    ensures
        "host"@ != "user-agent"@,
{
    reveal_strlit("host");
    reveal_strlit("user-agent");
    assert("host"@.len() != "user-agent"@.len());
}

/// Reads the host and the agent of a request.
pub fn request_fields(t: &str) -> (r: Option<(String, String)>)
    ensures
        opt_texts(r) == request_names(t@),
{
    proof {
        lemma_key_parts();
    }
    let cs = chars(t);
    let ls = split_text(cs.as_slice(), "\r\n");
    let mut host = String::new();
    let mut ua = String::new();
    let mut i: usize = 1;
    let ghost all = parts(t@, "\r\n"@);
    let ghost whole = header_fields(all.skip(1), Seq::empty(), Seq::empty());
    let mut open = true;
    assert(slices(ls@) == all);
    assert(all.len() >= 1);
    while open && i < ls.len()
        invariant
            "host"@ != "user-agent"@,
            slices(ls@) == all,
            1 <= i <= all.len(),
            whole == if open {
                header_fields(all.skip(i as int), host@, ua@)
            } else {
                (host@, ua@)
            },
        decreases ls@.len() - i, if open { 1int } else { 0int },
    {
        let line = ls[i];
        let ghost rest = all.skip(i as int);
        assert(rest.len() > 0 && rest[0] == line@);
        if line.len() == 0 {
            open = false;
        } else {
            match part_first(line, ':') {
                None => {},
                Some((k, v)) => {
                    let key = to_lower(trim(k));
                    let val = trim(v);
                    if spells(key.as_slice(), "host") && host.as_str().is_empty() {
                        host = norm_domain_of(until(val, ':'));
                    } else if spells(key.as_slice(), "user-agent") && ua.as_str().is_empty() {
                        ua = text(cut(val, 200));
                    }
                },
            }
            assert(rest.skip(1) =~= all.skip(i + 1));
            i = i + 1;
        }
    }
    assert(open ==> all.skip(i as int) =~= Seq::<Seq<char>>::empty());
    if host.as_str().is_empty() && ua.as_str().is_empty() {
        None
    } else {
        Some((host, ua))
    }
}

/// The host and the agent of what looks like an HTTP request.
pub open spec fn http_names(p: Seq<u8>) -> Option<(Seq<char>, Seq<char>)> {
    if is_request(p) {
        request_names(
            utf8_lossy(
                if p.len() > HTTP_SCAN {
                    p.take(HTTP_SCAN as int)
                } else {
                    p
                },
            ),
        )
    } else {
        None
    }
}

/// Reads the host and the agent of what looks like an HTTP request.
pub fn http_fields(p: &[u8]) -> (r: Option<(String, String)>)
    ensures
        opt_texts(r) == http_names(p@),
{
    if starts_four(p, 71, 69, 84, 32) || starts_four(p, 80, 79, 83, 84) || starts_four(
        p,
        72,
        69,
        65,
        68,
    ) || starts_four(p, 80, 85, 84, 32) || starts_four(p, 79, 80, 84, 73) || starts_four(
        p,
        67,
        79,
        78,
        78,
    ) {
        let t = if p.len() > HTTP_SCAN {
            let head = slice_subrange(p, 0, HTTP_SCAN);
            assert(head@ =~= p@.take(HTTP_SCAN as int));
            lossy(head)
        } else {
            lossy(p)
        };
        request_fields(t.as_str())
    } else {
        None
    }
}

// ---------------------------------------------------------------------------
// MQTT
// ---------------------------------------------------------------------------

/// The length at `i`, seven bits to a byte, low bits first, in at most four
/// bytes, and where it ends. `unit` is what one of the next seven bits is worth
/// and `acc` the value of the bits before.
pub open spec fn body_len(p: Seq<u8>, i: int, unit: int, acc: int) -> Option<(int, int)>
    decreases 5 - i,
{
    if i >= p.len() || i > 4 {
        None
    } else if p[i] < 128 {
        Some((acc + p[i] * unit, i + 1))
    } else {
        body_len(p, i + 1, unit * 128, acc + p[i] % 128 * unit)
    }
}

/// Whether the bytes spell the protocol's name: `MQTT`, or `MQIsdp` of the older
/// version.
pub open spec fn protocol_name(b: Seq<u8>) -> bool {
    b == seq![77u8, 81u8, 84u8, 84u8] || b == seq![77u8, 81u8, 73u8, 115u8, 100u8, 112u8]
}

/// The raw client name in a connection request whose variable part begins at
/// `i`.
pub open spec fn client_at(p: Seq<u8>, i: int) -> Option<Seq<u8>> {
    if p.len() < i + 2 {
        None
    } else {
        let at = i + 2 + u16_at(p, i);
        if at > p.len() || !protocol_name(p.subrange(i + 2, at)) || at + 6 > p.len() {
            None
        } else {
            let len = u16_at(p, at + 4);
            if len == 0 || len > 128 || at + 6 + len > p.len() {
                None
            } else {
                Some(p.subrange(at + 6, at + 6 + len))
            }
        }
    }
}

/// The raw client name of a connection request.
pub open spec fn client_raw(p: Seq<u8>) -> Option<Seq<u8>> {
    if p.len() == 0 || p[0] / 16 != 1 {
        None
    } else {
        match body_len(p, 1, 1, 0) {
            Some((len, i)) => if len == 0 {
                None
            } else {
                client_at(p, i)
            },
            None => None,
        }
    }
}

/// Reads the length of the rest of a connection request.
fn read_body_len(p: &[u8]) -> (r: Option<(u32, usize)>)
    ensures
        r is Some <==> body_len(p@, 1, 1, 0) is Some,
        r matches Some((len, i)) ==> body_len(p@, 1, 1, 0) == Some((len as int, i as int)) && i
            <= p@.len(),
{
    let mut i: usize = 1;
    let mut unit: u32 = 1;
    let mut acc: u32 = 0;
    while i < p.len() && i <= 4
        invariant
            1 <= i <= 5,
            body_len(p@, 1, 1, 0) == body_len(p@, i as int, unit as int, acc as int),
            i == 1 ==> unit == 1,
            i == 2 ==> unit == 128,
            i == 3 ==> unit == 16384,
            i == 4 ==> unit == 2097152,
            i == 5 ==> unit == 268435456,
            acc < unit,
        decreases 5 - i,
    {
        let b = p[i];
        let low = (b % 128) as u32;
        assert(low * unit <= 127 * unit && 0 <= low * unit) by (nonlinear_arith)
            requires
                0 <= low <= 127,
        ;
        acc = acc + low * unit;
        if b < 128 {
            return Some((acc, i + 1));
        }
        unit = unit * 128;
        i = i + 1;
    }
    None
}

/// Finds the client name of a connection request.
pub fn client_bytes(p: &[u8]) -> (r: Option<&[u8]>)
    ensures
        r is Some <==> client_raw(p@) is Some,
        r matches Some(b) ==> client_raw(p@) == Some(b@),
{
    if p.len() == 0 || p[0] / 16 != 1 {
        return None;
    }
    let (len, i) = match read_body_len(p) {
        Some(v) => v,
        None => {
            return None;
        },
    };
    let n = p.len();
    if len == 0 || n - i < 2 {
        return None;
    }
    let size = be16(p, i) as usize;
    if n - i - 2 < size {
        return None;
    }
    let at = i + 2 + size;
    let name = slice_subrange(p, i + 2, at);
    let new = name.len() == 4 && name[0] == 77 && name[1] == 81 && name[2] == 84 && name[3] == 84;
    let older = name.len() == 6 && name[0] == 77 && name[1] == 81 && name[2] == 73 && name[3] == 115
        && name[4] == 100 && name[5] == 112;
    proof {
        if new {
            assert(name@ =~= seq![77u8, 81u8, 84u8, 84u8]);
        } else if older {
            assert(name@ =~= seq![77u8, 81u8, 73u8, 115u8, 100u8, 112u8]);
        }
    }
    if !new && !older {
        return None;
    }
    if n - at < 6 {
        return None;
    }
    let id = be16(p, at + 4) as usize;
    if id == 0 || id > 128 || n - at - 6 < id {
        return None;
    }
    Some(slice_subrange(p, at + 6, at + 6 + id))
}

/// What is kept of a client name: the first 64 characters that are no control
/// characters; `None` where nothing is left.
pub open spec fn client_name(t: Seq<char>) -> Option<Seq<char>> {
    let s = first(kept(t, Class::Printable), 64);
    if s.len() == 0 {
        None
    } else {
        Some(s)
    }
}

/// Cleans a client name.
pub fn clean_client(t: &str) -> (r: Option<String>)
    ensures
        opt_text(r) == client_name(t@),
{
    let cs = chars(t);
    let k = keep(cs.as_slice(), Class::Printable);
    let s = cut(k.as_slice(), 64);
    if s.len() == 0 {
        None
    } else {
        Some(text(s))
    }
}

/// The client name of a connection request.
pub open spec fn client_of(p: Seq<u8>) -> Option<Seq<char>> {
    match client_raw(p) {
        Some(b) => client_name(utf8_lossy(b)),
        None => None,
    }
}

/// Reads the client name of a connection request.
pub fn mqtt_client_id(p: &[u8]) -> (r: Option<String>)
    ensures
        opt_text(r) == client_of(p@),
{
    match client_bytes(p) {
        Some(b) => clean_client(lossy(b).as_str()),
        None => None,
    }
}

// ---------------------------------------------------------------------------
// Frames
// ---------------------------------------------------------------------------

/// The smaller of two numbers.
pub open spec fn least(a: int, b: int) -> int {
    if a < b {
        a
    } else {
        b
    }
}

/// The larger of two numbers.
pub open spec fn most(a: int, b: int) -> int {
    if a < b {
        b
    } else {
        a
    }
}

/// What a frame holds of a TCP segment.
pub struct Segment {
    /// The sender's address.
    pub src: Seq<char>,
    /// The hops that are left to the packet.
    pub ttl: u8,
    /// How the packet may be fragmented: `df`, `-` or, over IPv6, `v6`.
    pub df: Seq<char>,
    pub tcp: Seq<u8>,
}

/// The segment in an IPv4 packet.
pub open spec fn segment_v4(ip: Seq<u8>) -> Option<Segment> {
    let ihl = ip[0] % 16 * 4;
    if ihl < 20 || ip.len() < ihl + 20 {
        None
    } else {
        Some(
            Segment {
                src: v4_text(ip[12], ip[13], ip[14], ip[15]),
                ttl: ip[8],
                df: if u16_at(ip, 6) / 16384 % 2 == 1 {
                    "df"@
                } else {
                    "-"@
                },
                tcp: ip.subrange(ihl, least(ip.len() as int, most(u16_at(ip, 2), ihl + 20))),
            },
        )
    }
}

/// The segment in an IPv6 packet.
pub open spec fn segment_v6(ip: Seq<u8>) -> Option<Segment> {
    if ip.len() < 60 || ip[6] != 6 {
        None
    } else {
        Some(
            Segment {
                src: v6_text(ip.subrange(8, 24)),
                ttl: ip[7],
                df: "v6"@,
                tcp: ip.subrange(40, most(least(40 + u16_at(ip, 4), ip.len() as int), 60)),
            },
        )
    }
}

/// The segment in a frame.
pub open spec fn segment(frame: Seq<u8>) -> Option<Segment> {
    if frame.len() < 34 {
        None
    } else if u16_at(frame, 12) == ETH_P_IP {
        segment_v4(frame.skip(14))
    } else if u16_at(frame, 12) == ETH_P_IPV6 {
        segment_v6(frame.skip(14))
    } else {
        None
    }
}

/// What the data of a segment tells: the client of an MQTT connection, else the
/// host of a TLS greeting, else the host and agent of an HTTP request.
pub open spec fn payload_event(src: Seq<char>, p: Seq<u8>) -> Option<EventView> {
    match client_of(p) {
        Some(id) => Some(
            EventView::Conn { ip: src, host: Seq::empty(), ua: id, via: "mqtt"@ },
        ),
        None => match sni_name(p) {
            Some(host) => if host.len() == 0 {
                None
            } else {
                Some(EventView::Conn { ip: src, host, ua: Seq::empty(), via: "sni"@ })
            },
            None => match http_names(p) {
                Some((host, ua)) => Some(EventView::Conn { ip: src, host, ua, via: "http"@ }),
                None => None,
            },
        },
    }
}

/// What a segment tells: a connection request its sender's fingerprint, any
/// other segment what its data tells.
pub open spec fn segment_event(s: Segment) -> Option<EventView> {
    let flags = s.tcp[13];
    if flags / 2 % 2 == 1 && flags / 16 % 2 == 0 {
        match fingerprint(s.ttl, s.df, s.tcp) {
            Some(fp) => Some(EventView::TcpFp { ip: s.src, fp }),
            None => None,
        }
    } else if header_len(s.tcp) < 20 || s.tcp.len() <= header_len(s.tcp) {
        None
    } else {
        payload_event(s.src, s.tcp.skip(header_len(s.tcp)))
    }
}

/// What a frame tells.
pub open spec fn frame_event(frame: Seq<u8>) -> Option<EventView> {
    match segment(frame) {
        Some(s) => segment_event(s),
        None => None,
    }
}

/// Reads what the data of a segment tells.
fn read_payload(src: String, p: &[u8]) -> (r: Option<Event>)
    ensures
        opt_event(r) == payload_event(src@, p@),
{
    if let Some(id) = mqtt_client_id(p) {
        let e = Event::Conn { ip: src, host: String::new(), ua: id, via: "mqtt" };
        assert(e@->Conn_host =~= Seq::<char>::empty());
        return Some(e);
    }
    if let Some(host) = tls_sni(p) {
        if host.as_str().is_empty() {
            return None;
        }
        let e = Event::Conn { ip: src, host, ua: String::new(), via: "sni" };
        assert(e@->Conn_ua =~= Seq::<char>::empty());
        return Some(e);
    }
    match http_fields(p) {
        Some((host, ua)) => Some(Event::Conn { ip: src, host, ua, via: "http" }),
        None => None,
    }
}

/// Reads what a segment tells.
fn read_segment(src: String, ttl: u8, df: &str, tcp: &[u8]) -> (r: Option<Event>)
    requires
        tcp@.len() >= 20,
    ensures
        opt_event(r) == segment_event((Segment { src: src@, ttl, df: df@, tcp: tcp@ })),
{
    let flags = tcp[13];
    if flags / 2 % 2 == 1 && flags / 16 % 2 == 0 {
        return match tcp_fingerprint(ttl, df, tcp) {
            Some(fp) => Some(Event::TcpFp { ip: src, fp }),
            None => None,
        };
    }
    let doff = (tcp[12] / 16) as usize * 4;
    if doff < 20 || tcp.len() <= doff {
        return None;
    }
    let data = slice_subrange(tcp, doff, tcp.len());
    assert(data@ =~= tcp@.skip(doff as int));
    read_payload(src, data)
}

/// Reads what a captured frame tells.
pub fn handle(frame: &[u8]) -> (r: Option<Event>)
    ensures
        opt_event(r) == frame_event(frame@),
{
    if frame.len() < ETH_HDR + 20 {
        return None;
    }
    let kind = be16(frame, 12);
    let ip = slice_subrange(frame, ETH_HDR, frame.len());
    assert(ip@ =~= frame@.skip(14));
    let n = ip.len();
    if kind == ETH_P_IP {
        let ihl = (ip[0] % 16) as usize * 4;
        if ihl < 20 || n - 20 < ihl {
            return None;
        }
        let total = be16(ip, 2) as usize;
        let want = if total < ihl + 20 {
            ihl + 20
        } else {
            total
        };
        let end = if n < want {
            n
        } else {
            want
        };
        let df = if be16(ip, 6) / 16384 % 2 == 1 {
            "df"
        } else {
            "-"
        };
        read_segment(
            fmt_v4(ip[12], ip[13], ip[14], ip[15]),
            ip[8],
            df,
            slice_subrange(ip, ihl, end),
        )
    } else if kind == ETH_P_IPV6 {
        if n < 60 || ip[6] != 6 {
            return None;
        }
        let a = [
            ip[8],
            ip[9],
            ip[10],
            ip[11],
            ip[12],
            ip[13],
            ip[14],
            ip[15],
            ip[16],
            ip[17],
            ip[18],
            ip[19],
            ip[20],
            ip[21],
            ip[22],
            ip[23],
        ];
        assert(a@ =~= ip@.subrange(8, 24));
        let total = 40 + be16(ip, 4) as usize;
        let end = if total < n {
            total
        } else {
            n
        };
        let stop = if end < 60 {
            60
        } else {
            end
        };
        read_segment(fmt_v6(&a), ip[7], "v6", slice_subrange(ip, 40, stop))
    } else {
        None
    }
}

proof fn lemma_kept_in_class(s: Seq<char>, k: Class)
    ensures
        forall|i: int| 0 <= i < kept(s, k).len() ==> in_class(k, #[trigger] kept(s, k)[i]),
    decreases s.len(),
{
    if s.len() > 0 {
        let b = kept(s.drop_last(), k);
        lemma_kept_in_class(s.drop_last(), k);
        assert forall|i: int| 0 <= i < kept(s, k).len() implies in_class(
            k,
            #[trigger] kept(s, k)[i],
        ) by {
            if i < b.len() {
                assert(in_class(k, b[i]));
            }
        }
    }
}

/// A client name is neither empty nor long, and holds no control characters.
pub proof fn law_client_names_are_clean(t: Seq<char>)
    ensures
        client_name(t) matches Some(n) ==> 0 < n.len() <= 64 && forall|i: int|
            0 <= i < n.len() ==> in_class(Class::Printable, #[trigger] n[i]),
{
    lemma_kept_in_class(t, Class::Printable);
}

} // verus!
