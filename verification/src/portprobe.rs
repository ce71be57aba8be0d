//! The active port probe: which addresses and ports are tried, what the answers
//! say, and which answers are the network's own rather than a device's.

use crate::clients::octets;
use crate::event::{event_views, Event, EventView};
use crate::names::{lemma_views, lookup_or, put, views, without, Entries, NameMap};
use crate::num::{dec, parse_u8, show, unsigned};
use crate::text::{
    append, append_str, chars, cut, find, first, join, join_slices, joined, line_list, lines, lists,
    lossy, lower, owned, part_first, parts, pieces, position, slices, spells, split, split_first,
    split_text, split_words, text, texts, to_lower, trim, trimmed, utf8_lossy, words,
};
use crate::util::opt_text;
use crate::wire::{fmt_v4, v4_text};
use vstd::prelude::*;
use vstd::slice::slice_subrange;

verus! {

/// The ports that are tried: those that tell something of who listens there.
pub const PORTS: [u16; 36] = [
    22,
    23,
    53,
    80,
    111,
    135,
    139,
    445,
    515,
    548,
    554,
    631,
    873,
    902,
    1883,
    2049,
    3260,
    3389,
    3689,
    5000,
    5001,
    5357,
    5555,
    5900,
    5985,
    7547,
    8000,
    8006,
    8007,
    8096,
    8123,
    9090,
    9100,
    32400,
    443,
    8443,
];

// ---------------------------------------------------------------------------
// Answers
// ---------------------------------------------------------------------------

/// How a port that answers is asked who is there.
#[derive(Clone, Copy, PartialEq, Eq, Structural)]
pub enum Asking {
    /// Not at all.
    Nothing,
    /// By waiting for its greeting.
    Greeting,
    /// By asking for its first page.
    Page,
}

/// Decides how a port is asked: SSH greets, a web server wants to be asked, and of
/// the others it is enough that they answer.
pub fn asking(port: u16) -> (r: Asking)
    ensures
        r == if port == 22 {
            Asking::Greeting
        } else if port == 80 {
            Asking::Page
        } else {
            Asking::Nothing
        },
{
    if port == 22 {
        Asking::Greeting
    } else if port == 80 {
        Asking::Page
    } else {
        Asking::Nothing
    }
}

/// The request that a web server is sent.
pub open spec fn request_text(host: Seq<char>) -> Seq<char> {
    "GET / HTTP/1.1\r\nHost: "@ + host + "\r\nConnection: close\r\nAccept: */*\r\n\r\n"@
}

/// Writes the request that a web server is sent.
pub fn http_request(host: &str) -> (r: String)
    ensures
        r@ == request_text(host@),
{
    let mut out = owned("GET / HTTP/1.1\r\nHost: ");
    append_str(&mut out, host);
    append_str(&mut out, "\r\nConnection: close\r\nAccept: */*\r\n\r\n");
    out
}

/// The first line of a greeting, up to 120 characters.
pub open spec fn greeting(t: Seq<char>) -> Seq<char> {
    let ls = line_list(t);
    if ls.len() == 0 {
        Seq::empty()
    } else {
        first(trimmed(ls[0]), 120)
    }
}

/// Reads the first line of a greeting.
pub fn greeting_line(t: &str) -> (r: String)
    ensures
        r@ == greeting(t@),
{
    let c = chars(t);
    let ls = lines(c.as_slice());
    assert(slices(ls@).len() == ls@.len());
    if ls.len() == 0 {
        let r = String::new();
        assert(r@ =~= Seq::<char>::empty());
        r
    } else {
        assert(slices(ls@)[0] == ls@[0]@);
        text(cut(trim(ls[0]), 120))
    }
}

/// Reads the first line that a service greets with.
pub fn service_banner(buf: &[u8]) -> (r: String)
    ensures
        r@ == greeting(utf8_lossy(buf@)),
{
    greeting_line(lossy(buf).as_str())
}

/// What a header line of a web server's answer tells.
pub open spec fn header_bit(line: Seq<char>) -> Option<Seq<char>> {
    match split_first(line, ':') {
        Some((k, v)) => {
            let key = lower(trimmed(k));
            let val = first(trimmed(v), 60);
            if trimmed(v).len() == 0 {
                None
            } else if key == "server"@ {
                Some(val)
            } else if key == "www-authenticate"@ {
                Some("realm="@ + val)
            } else if key == "location"@ {
                Some("->"@ + val)
            } else {
                None
            }
        },
        None => None,
    }
}

/// What the first `n` header lines tell.
pub open spec fn header_bits(ls: Seq<Seq<char>>, n: int) -> Seq<Seq<char>>
    decreases n,
{
    if n <= 0 {
        Seq::empty()
    } else {
        match header_bit(ls[n - 1]) {
            Some(b) => header_bits(ls, n - 1).push(b),
            None => header_bits(ls, n - 1),
        }
    }
}

/// The header of an answer: what stands before the first empty line.
pub open spec fn header_of(t: Seq<char>) -> Seq<char> {
    match find(t, "\r\n\r\n"@) {
        Some(i) => t.take(i),
        None => t,
    }
}

/// What stands between the first title tag and its end, with each run of white
/// space as one space.
pub open spec fn title_of(t: Seq<char>) -> Option<Seq<char>> {
    let low = lower(t);
    match find(low, "<title"@) {
        Some(a) => match find(low.skip(a), ">"@) {
            Some(gt) => match find(low.skip(a + gt + 1), "</title"@) {
                Some(len) => Some(
                    joined(words(t.subrange(a + gt + 1, a + gt + 1 + len)), " "@),
                ),
                None => None,
            },
            None => None,
        },
        None => None,
    }
}

/// What an answer of a web server tells of it: its server, realm and redirection,
/// and its page's title.
pub open spec fn identity(t: Seq<char>) -> Seq<char> {
    let ls = parts(header_of(t), "\r\n"@);
    let bits = header_bits(ls, ls.len() as int);
    let all = match title_of(t) {
        Some(s) if s.len() > 0 => bits.push("title="@ + first(s, 80)),
        _ => bits,
    };
    first(joined(all, " | "@), 200)
}

/// Reads what a header line tells.
fn read_header_bit(line: &[char]) -> (r: Option<String>)
    ensures
        opt_text(r) == header_bit(line@),
{
    let (k, v) = match part_first(line, ':') {
        Some(kv) => kv,
        None => {
            return None;
        },
    };
    let val = trim(v);
    if val.len() == 0 {
        return None;
    }
    let short = cut(val, 60);
    let key = to_lower(trim(k));
    if spells(key.as_slice(), "server") {
        Some(text(short))
    } else if spells(key.as_slice(), "www-authenticate") {
        let mut s = owned("realm=");
        append(&mut s, short);
        Some(s)
    } else if spells(key.as_slice(), "location") {
        let mut s = owned("->");
        append(&mut s, short);
        Some(s)
    } else {
        None
    }
}

/// Finds the title of a page.
fn read_title(t: &[char]) -> (r: Option<String>)
    ensures
        opt_text(r) == title_of(t@),
{
    let lowv = to_lower(t);
    let low = lowv.as_slice();
    let n = low.len();
    let tag = chars("<title");
    let end = chars(">");
    let close = chars("</title");
    let a = match position(low, tag.as_slice()) {
        Some(a) => a,
        None => {
            return None;
        },
    };
    let rest = slice_subrange(low, a, n);
    assert(rest@ =~= low@.skip(a as int));
    let gt = match position(rest, end.as_slice()) {
        Some(g) => g,
        None => {
            return None;
        },
    };
    proof {
        reveal_strlit(">");
        assert(">"@.len() == 1);
    }
    let start = a + gt + 1;
    let body = slice_subrange(low, start, n);
    assert(body@ =~= low@.skip(a + gt + 1));
    let len = match position(body, close.as_slice()) {
        Some(l) => l,
        None => {
            return None;
        },
    };
    let inner = slice_subrange(t, start, start + len);
    let ws = split_words(inner);
    Some(join_slices(&ws, " "))
}

/// Reads what an answer of a web server tells of it.
pub fn identity_of(t: &str) -> (r: String)
    ensures
        r@ == identity(t@),
{
    let tc = chars(t);
    let ts = tc.as_slice();
    let blank = chars("\r\n\r\n");
    let head = match position(ts, blank.as_slice()) {
        Some(i) => {
            let h = slice_subrange(ts, 0, i);
            assert(h@ =~= ts@.take(i as int));
            h
        },
        None => ts,
    };
    let ls = split_text(head, "\r\n");
    let ghost all = parts(header_of(t@), "\r\n"@);
    assert(slices(ls@) == all);
    let mut bits: Vec<String> = Vec::new();
    assert(texts(bits@) =~= Seq::<Seq<char>>::empty());
    for i in 0..ls.len()
        invariant
            slices(ls@) == all,
            texts(bits@) == header_bits(all, i as int),
    {
        assert(all[i as int] == ls@[i as int]@);
        if let Some(b) = read_header_bit(ls[i]) {
            let ghost was = texts(bits@);
            bits.push(b);
            assert(texts(bits@) =~= was.push(b@));
        }
    }
    if let Some(s) = read_title(ts) {
        if !s.as_str().is_empty() {
            let mut b = owned("title=");
            let sc = chars(s.as_str());
            append(&mut b, cut(sc.as_slice(), 80));
            let ghost was = texts(bits@);
            bits.push(b);
            assert(texts(bits@) =~= was.push(b@));
        }
    }
    let line = join(&bits, " | ");
    let lc = chars(line.as_str());
    text(cut(lc.as_slice(), 200))
}

/// Reads what the bytes of a web server's answer tell of it.
pub fn http_identity(buf: &[u8]) -> (r: String)
    ensures
        r@ == identity(utf8_lossy(buf@)),
{
    identity_of(lossy(buf).as_str())
}

// ---------------------------------------------------------------------------
// What is tried
// ---------------------------------------------------------------------------

/// Whether all parts of a text are octets.
pub open spec fn all_octets(ps: Seq<Seq<char>>) -> bool {
    forall|i: int| 0 <= i < ps.len() ==> unsigned(#[trigger] ps[i], 10, 255) is Some
}

/// The first address from `last` down to 249 in the network of `o` that is not
/// among those given.
pub open spec fn free_address(ips: Seq<Seq<char>>, o: Seq<u8>, last: int) -> Option<Seq<char>>
    decreases last,
{
    if last < 249 {
        None
    } else {
        let cand = v4_text(o[0], o[1], o[2], last as u8);
        if ips.contains(cand) {
            free_address(ips, o, last - 1)
        } else {
            Some(cand)
        }
    }
}

/// The address that is tried for comparison: one near the first that no device is
/// known to have.
pub open spec fn control_address(ips: Seq<Seq<char>>) -> Option<Seq<char>> {
    if ips.len() == 0 {
        None
    } else {
        let ps = pieces(ips[0], '.');
        if all_octets(ps) && ps.len() == 4 {
            free_address(ips, octets(ps, 4), 253)
        } else {
            None
        }
    }
}

/// Picks an address for comparison. What answers there is not a device.
pub fn control_ip(ips: &Vec<String>) -> (r: Option<String>)
    ensures
        opt_text(r) == control_address(texts(ips@)),
{
    let ghost all = texts(ips@);
    if ips.len() == 0 {
        return None;
    }
    assert(all[0] == ips@[0]@);
    let c = chars(ips[0].as_str());
    let ps = split(c.as_slice(), '.');
    let ghost pv = pieces(all[0], '.');
    assert(slices(ps@) == pv);
    let mut oct: Vec<u8> = Vec::new();
    for i in 0..ps.len()
        invariant
            slices(ps@) == pv,
            oct@.len() == i,
            oct@ == octets(pv, i as int),
            forall|j: int| 0 <= j < i ==> unsigned(#[trigger] pv[j], 10, 255) is Some,
            all == texts(ips@),
            ips@.len() > 0,
            pv == pieces(all[0], '.'),
    {
        assert(pv[i as int] == ps@[i as int]@);
        match parse_u8(ps[i]) {
            Some(b) => {
                oct.push(b);
            },
            None => {
                return None;
            },
        }
    }
    assert(pv.len() == ps@.len());
    if oct.len() != 4 {
        return None;
    }
    let mut last: u8 = 253;
    while last >= 249
        invariant
            all == texts(ips@),
            oct@.len() == 4,
            248 <= last <= 253,
            control_address(all) == free_address(all, oct@, last as int),
        decreases last,
    {
        let cand = fmt_v4(oct[0], oct[1], oct[2], last);
        if !lists(ips, cand.as_str()) {
            return Some(cand);
        }
        last = last - 1;
    }
    None
}

/// All pairs of the first `n` addresses and a port.
pub open spec fn all_tasks(ips: Seq<Seq<char>>, n: int) -> Seq<(Seq<char>, u16)>
    decreases n,
{
    if n <= 0 {
        Seq::empty()
    } else {
        all_tasks(ips, n - 1) + PORTS@.map_values(|p: u16| (ips[n - 1], p))
    }
}

/// The views of a list of tasks.
pub open spec fn task_views(v: Seq<(String, u16)>) -> Seq<(Seq<char>, u16)> {
    v.map_values(|t: (String, u16)| (t.0@, t.1))
}

/// Lists what is tried: each port at each address, the one for comparison last.
pub fn tasks(ips: &Vec<String>, control: &Option<String>) -> (r: Vec<(String, u16)>)
    ensures
        task_views(r@) == match control {
            Some(c) => all_tasks(texts(ips@).push(c@), (ips@.len() + 1) as int),
            None => all_tasks(texts(ips@), ips@.len() as int),
        },
{
    let mut targets: Vec<String> = Vec::new();
    for i in 0..ips.len()
        invariant
            texts(targets@) == texts(ips@).take(i as int),
    {
        let ghost was = texts(targets@);
        targets.push(owned(ips[i].as_str()));
        assert(texts(targets@) =~= was.push(ips@[i as int]@));
        assert(texts(targets@) =~= texts(ips@).take(i + 1));
    }
    assert(texts(targets@) =~= texts(ips@));
    if let Some(c) = control {
        targets.push(owned(c.as_str()));
        assert(texts(targets@) =~= texts(ips@).push(c@));
    }
    let ghost tv = texts(targets@);
    let mut out: Vec<(String, u16)> = Vec::new();
    assert(task_views(out@) =~= Seq::<(Seq<char>, u16)>::empty());
    for i in 0..targets.len()
        invariant
            tv == texts(targets@),
            task_views(out@) == all_tasks(tv, i as int),
    {
        let ghost was = task_views(out@);
        let ghost row = PORTS@.map_values(|p: u16| (tv[i as int], p));
        assert(was + row.take(0) =~= was);
        for j in 0..36usize
            invariant
                i < targets@.len(),
                tv == texts(targets@),
                row == PORTS@.map_values(|p: u16| (tv[i as int], p)),
                task_views(out@) == was + row.take(j as int),
        {
            let p = PORTS[j];
            let ghost before = task_views(out@);
            out.push((owned(targets[i].as_str()), p));
            assert(task_views(out@) =~= before.push((tv[i as int], p)));
            assert(row[j as int] == (tv[i as int], p));
            assert(task_views(out@) =~= was + row.take(j + 1));
        }
        assert(row.take(36) =~= row);
    }
    out
}

/// More connections at a time would strain a small router.
pub const WORKERS: usize = 32;

/// How many connections are tried at a time: no more than there are tasks, and at least one.
pub fn workers(tasks: usize) -> (r: usize)
    ensures
        r == if tasks == 0 {
            1
        } else if tasks < WORKERS {
            tasks
        } else {
            WORKERS
        },
{
    if tasks == 0 {
        1
    } else if tasks < WORKERS {
        tasks
    } else {
        WORKERS
    }
}

// ---------------------------------------------------------------------------
// What was found
// ---------------------------------------------------------------------------

/// What was found at an address: the ports that answered, and what was said.
pub struct Found {
    pub open: Vec<u16>,
    pub banners: Vec<(u16, String)>,
}

/// What was found at an address, in mathematical values.
#[verifier::ext_equal]
pub struct FoundView {
    pub open: Seq<u16>,
    pub banners: Seq<(u16, Seq<char>)>,
}

/// The views of what was said.
pub open spec fn banner_views(v: Seq<(u16, String)>) -> Seq<(u16, Seq<char>)> {
    v.map_values(|b: (u16, String)| (b.0, b.1@))
}

impl View for Found {
    type V = FoundView;

    open spec fn view(&self) -> FoundView {
        FoundView { open: self.open@, banners: banner_views(self.banners@) }
    }
}

/// Nothing.
pub open spec fn nothing() -> FoundView {
    FoundView { open: Seq::empty(), banners: Seq::empty() }
}

/// What was found after one more port answered.
pub open spec fn answered(
    m: Entries<FoundView>,
    ip: Seq<char>,
    port: u16,
    banner: Seq<char>,
) -> Entries<FoundView> {
    let f = lookup_or(m, ip, nothing());
    put(
        m,
        ip,
        FoundView {
            open: f.open.push(port),
            banners: if banner.len() > 0 {
                f.banners.push((port, banner))
            } else {
                f.banners
            },
        },
    )
}

/// Notes that a port answered, and what was said.
pub fn note_answer(m: &mut NameMap<Found>, ip: &str, port: u16, banner: String)
    requires
        old(m).wf(),
    ensures
        final(m).wf(),
        views(final(m)@) == answered(views(old(m)@), ip@, port, banner@),
{
    let ghost was = m@;
    let none = Found { open: Vec::new(), banners: Vec::new() };
    proof {
        assert(none@ =~= nothing());
        lemma_views(was, ip@, none);
    }
    let f = m.entry(ip, none);
    let ghost had = f@;
    f.open.push(port);
    if !banner.as_str().is_empty() {
        f.banners.push((port, banner));
        assert(banner_views(f.banners@) =~= had.banners.push((port, banner@)));
    }
    let ghost got = *f;
    proof {
        lemma_views(was, ip@, got);
    }
}

/// A rising list with `p` in its place, where it is not in it.
pub open spec fn inserted(v: Seq<u16>, p: u16) -> Seq<u16>
    decreases v.len(),
{
    if v.len() == 0 || v.last() < p {
        v.push(p)
    } else if v.last() == p {
        v
    } else {
        inserted(v.drop_last(), p).push(v.last())
    }
}

/// The first `n` ports as a rising list without repetitions.
pub open spec fn port_list(v: Seq<u16>, n: int) -> Seq<u16>
    decreases n,
{
    if n <= 0 {
        Seq::empty()
    } else {
        inserted(port_list(v, n - 1), v[n - 1])
    }
}

/// A list in rising order with `p` behind all that are not larger.
pub open spec fn sorted_in(v: Seq<u16>, p: u16) -> Seq<u16>
    decreases v.len(),
{
    if v.len() == 0 || v.last() <= p {
        v.push(p)
    } else {
        sorted_in(v.drop_last(), p).push(v.last())
    }
}

/// The first `n` ports in rising order.
pub open spec fn sorted_ports(v: Seq<u16>, n: int) -> Seq<u16>
    decreases n,
{
    if n <= 0 {
        Seq::empty()
    } else {
        sorted_in(sorted_ports(v, n - 1), v[n - 1])
    }
}

/// What was said in rising order of the ports, with `b` behind all whose port is
/// not larger.
pub open spec fn banner_in(v: Seq<(u16, Seq<char>)>, b: (u16, Seq<char>)) -> Seq<(u16, Seq<char>)>
    decreases v.len(),
{
    if v.len() == 0 || v.last().0 <= b.0 {
        v.push(b)
    } else {
        banner_in(v.drop_last(), b).push(v.last())
    }
}

/// The first `n` things that were said, in rising order of the ports.
pub open spec fn sorted_banners(v: Seq<(u16, Seq<char>)>, n: int) -> Seq<(u16, Seq<char>)>
    decreases n,
{
    if n <= 0 {
        Seq::empty()
    } else {
        banner_in(sorted_banners(v, n - 1), v[n - 1])
    }
}

/// All ports that answered at the first `n` addresses, with repetitions.
pub open spec fn all_open(m: Entries<FoundView>, n: int) -> Seq<u16>
    decreases n,
{
    if n <= 0 {
        Seq::empty()
    } else {
        all_open(m, n - 1) + m[n - 1].1.open
    }
}

/// How often `p` stands in a list.
pub open spec fn times_in(v: Seq<u16>, p: u16) -> nat
    decreases v.len(),
{
    if v.len() == 0 {
        0
    } else if v.last() == p {
        times_in(v.drop_last(), p) + 1
    } else {
        times_in(v.drop_last(), p)
    }
}

/// The number of addresses that a port must answer at, of `n`, to pass for the
/// network's own: more than seven tenths of them, and more than four.
pub open spec fn limit(n: nat) -> nat {
    if n * 7 / 10 > 4 {
        (n * 7 / 10) as nat
    } else {
        4
    }
}

/// The ports that answer for the network and not for a device: those that answer
/// at the address for comparison or, where there are none, those that answer at
/// most of five or more addresses.
pub open spec fn artifacts(
    m: Entries<FoundView>,
    control: Option<Seq<char>>,
    n: nat,
) -> Seq<u16> {
    let own = match control {
        Some(c) => lookup_or(m, c, nothing()).open,
        None => Seq::empty(),
    };
    let rest = match control {
        Some(c) => without(m, c),
        None => m,
    };
    if own.len() > 0 {
        port_list(own, own.len() as int)
    } else if n >= 5 {
        let all = all_open(rest, rest.len() as int);
        let many = all.filter(|p: u16| times_in(all, p) > limit(n));
        port_list(many, many.len() as int)
    } else {
        Seq::empty()
    }
}

/// What is reported of an address: its ports without the network's own, and what
/// was said, each in the order of the ports.
pub open spec fn ports_event(ip: Seq<char>, f: FoundView, own: Seq<u16>) -> EventView {
    let open = f.open.filter(|p: u16| !own.contains(p));
    let said = sorted_banners(f.banners, f.banners.len() as int);
    EventView::Ports {
        ip,
        open: sorted_ports(open, open.len() as int),
        banner: joined(said.map_values(|b: (u16, Seq<char>)| b.1), " | "@),
    }
}

/// What is found at `ip`, where it was not reported before among the first `n`
/// addresses.
pub open spec fn found_at(
    m: Entries<FoundView>,
    ips: Seq<Seq<char>>,
    n: int,
) -> Entries<FoundView>
    decreases n,
{
    if n <= 0 {
        m
    } else {
        without(found_at(m, ips, n - 1), ips[n - 1])
    }
}

/// The reports on the first `n` addresses. Each is reported on, also where nothing
/// was found there.
pub open spec fn reports(
    m: Entries<FoundView>,
    ips: Seq<Seq<char>>,
    own: Seq<u16>,
    n: int,
) -> Seq<EventView>
    decreases n,
{
    if n <= 0 {
        Seq::empty()
    } else {
        reports(m, ips, own, n - 1).push(
            ports_event(
                ips[n - 1],
                lookup_or(found_at(m, ips, n - 1), ips[n - 1], nothing()),
                own,
            ),
        )
    }
}

/// The texts of a list of ports.
pub open spec fn port_names(v: Seq<u16>) -> Seq<Seq<char>> {
    v.map_values(|p: u16| dec(p as nat))
}

/// The report on the whole probe of `n` addresses.
pub open spec fn closing(n: nat, own: Seq<u16>) -> EventView {
    EventView::SourceInfo {
        kind: "ports"@,
        state: if own.len() == 0 {
            "done"@
        } else {
            "done_redirected"@
        },
        info: if own.len() == 0 {
            dec(n)
        } else {
            dec(n) + seq![';'] + joined(port_names(own), ","@)
        },
    }
}

/// All reports of a probe.
pub open spec fn probe_reports(
    m: Entries<FoundView>,
    ips: Seq<Seq<char>>,
    control: Option<Seq<char>>,
) -> Seq<EventView> {
    let own = artifacts(m, control, ips.len());
    let rest = match control {
        Some(c) => without(m, c),
        None => m,
    };
    reports(rest, ips, own, ips.len() as int).push(closing(ips.len(), own))
}

proof fn lemma_inserted(v: Seq<u16>, p: u16, j: int)
    requires
        0 <= j <= v.len(),
        j > 0 ==> v[j - 1] <= p,
        forall|k: int| j <= k < v.len() ==> #[trigger] v[k] > p,
    ensures
        inserted(v, p) == if j > 0 && v[j - 1] == p {
            v
        } else {
            v.insert(j, p)
        },
    decreases v.len(),
{
    if j < v.len() {
        let front = v.drop_last();
        assert forall|k: int| j <= k < front.len() implies #[trigger] front[k] > p by {
            assert(front[k] == v[k]);
        }
        if j > 0 {
            assert(front[j - 1] == v[j - 1]);
        }
        lemma_inserted(front, p, j);
        assert(v[v.len() - 1] > p);
        if j > 0 && v[j - 1] == p {
            assert(front.push(v.last()) =~= v);
        } else {
            assert(front.insert(j, p).push(v.last()) =~= v.insert(j, p));
        }
    } else {
        assert(v.push(p) =~= v.insert(j, p));
    }
}

/// Puts `p` in its place in a rising list.
fn insert_port(v: &mut Vec<u16>, p: u16)
    ensures
        final(v)@ == inserted(old(v)@, p),
{
    let mut j = v.len();
    while j > 0 && v[j - 1] > p
        invariant
            j <= v@.len(),
            forall|k: int| j <= k < v@.len() ==> #[trigger] v@[k] > p,
        decreases j,
    {
        j = j - 1;
    }
    proof {
        lemma_inserted(v@, p, j as int);
    }
    if j == 0 || v[j - 1] != p {
        v.insert(j, p);
    }
}

proof fn lemma_sorted_in(v: Seq<u16>, p: u16, j: int)
    requires
        0 <= j <= v.len(),
        j > 0 ==> v[j - 1] <= p,
        forall|k: int| j <= k < v.len() ==> #[trigger] v[k] > p,
    ensures
        sorted_in(v, p) == v.insert(j, p),
    decreases v.len(),
{
    if j < v.len() {
        let front = v.drop_last();
        assert forall|k: int| j <= k < front.len() implies #[trigger] front[k] > p by {
            assert(front[k] == v[k]);
        }
        if j > 0 {
            assert(front[j - 1] == v[j - 1]);
        }
        lemma_sorted_in(front, p, j);
        assert(v[v.len() - 1] > p);
        assert(front.insert(j, p).push(v.last()) =~= v.insert(j, p));
    } else {
        assert(v.push(p) =~= v.insert(j, p));
    }
}

/// Sorts ports.
fn sort_ports(v: &Vec<u16>) -> (r: Vec<u16>)
    ensures
        r@ == sorted_ports(v@, v@.len() as int),
{
    let mut out: Vec<u16> = Vec::new();
    for i in 0..v.len()
        invariant
            out@ == sorted_ports(v@, i as int),
    {
        let p = v[i];
        let mut j = out.len();
        while j > 0 && out[j - 1] > p
            invariant
                j <= out@.len(),
                forall|k: int| j <= k < out@.len() ==> #[trigger] out@[k] > p,
            decreases j,
        {
            j = j - 1;
        }
        proof {
            lemma_sorted_in(out@, p, j as int);
        }
        out.insert(j, p);
    }
    out
}

proof fn lemma_banner_in(v: Seq<(u16, Seq<char>)>, b: (u16, Seq<char>), j: int)
    requires
        0 <= j <= v.len(),
        j > 0 ==> v[j - 1].0 <= b.0,
        forall|k: int| j <= k < v.len() ==> (#[trigger] v[k]).0 > b.0,
    ensures
        banner_in(v, b) == v.insert(j, b),
    decreases v.len(),
{
    if j < v.len() {
        let front = v.drop_last();
        assert forall|k: int| j <= k < front.len() implies (#[trigger] front[k]).0 > b.0 by {
            assert(front[k] == v[k]);
        }
        if j > 0 {
            assert(front[j - 1] == v[j - 1]);
        }
        lemma_banner_in(front, b, j);
        assert(v[v.len() - 1].0 > b.0);
        assert(front.insert(j, b).push(v.last()) =~= v.insert(j, b));
    } else {
        assert(v.push(b) =~= v.insert(j, b));
    }
}

/// Joins what was said, in the order of the ports.
fn join_banners(v: &Vec<(u16, String)>) -> (r: String)
    ensures
        r@ == joined(
            sorted_banners(banner_views(v@), v@.len() as int).map_values(
                |b: (u16, Seq<char>)| b.1,
            ),
            " | "@,
        ),
{
    let ghost all = banner_views(v@);
    let mut ports: Vec<u16> = Vec::new();
    let mut said: Vec<String> = Vec::new();
    let ghost mut done = Seq::<(u16, Seq<char>)>::empty();
    for i in 0..v.len()
        invariant
            all == banner_views(v@),
            done == sorted_banners(all, i as int),
            ports@.len() == done.len(),
            said@.len() == done.len(),
            forall|k: int| 0 <= k < done.len() ==> ports@[k] == (#[trigger] done[k]).0,
            forall|k: int| 0 <= k < done.len() ==> said@[k]@ == (#[trigger] done[k]).1,
    {
        let p = v[i].0;
        let ghost b = all[i as int];
        assert(b == (p, v@[i as int].1@));
        let mut j = ports.len();
        while j > 0 && ports[j - 1] > p
            invariant
                j <= ports@.len(),
                forall|k: int| j <= k < ports@.len() ==> #[trigger] ports@[k] > p,
            decreases j,
        {
            j = j - 1;
        }
        proof {
            assert forall|k: int| j <= k < done.len() implies (#[trigger] done[k]).0 > b.0 by {
                assert(ports@[k] > p);
            }
            if j > 0 {
                assert(ports@[j - 1] == done[j - 1].0);
            }
            lemma_banner_in(done, b, j as int);
        }
        let ghost pw = ports@;
        let ghost sw = said@;
        let ghost dw = done;
        ports.insert(j, p);
        said.insert(j, owned(v[i].1.as_str()));
        proof {
            done = dw.insert(j as int, b);
            assert forall|k: int| 0 <= k < done.len() implies ports@[k] == (#[trigger] done[k]).0
                && said@[k]@ == done[k].1 by {
                if k < j {
                    assert(done[k] == dw[k] && ports@[k] == pw[k] && said@[k] == sw[k]);
                } else if k > j {
                    assert(done[k] == dw[k - 1] && ports@[k] == pw[k - 1] && said@[k] == sw[k
                        - 1]);
                }
            }
        }
    }
    assert(texts(said@) =~= done.map_values(|b: (u16, Seq<char>)| b.1));
    join(&said, " | ")
}

/// Counts how often `p` stands in a list.
fn count_port(v: &Vec<u16>, p: u16) -> (r: usize)
    ensures
        r == times_in(v@, p),
{
    let mut c: usize = 0;
    for i in 0..v.len()
        invariant
            c == times_in(v@.take(i as int), p),
            c <= i,
    {
        assert(v@.take(i + 1).drop_last() =~= v@.take(i as int));
        if v[i] == p {
            c = c + 1;
        }
    }
    assert(v@.take(v@.len() as int) =~= v@);
    c
}

/// Lists all ports that answered, with repetitions.
fn gather_open(m: &NameMap<Found>) -> (r: Vec<u16>)
    ensures
        r@ == all_open(views(m@), m@.len() as int),
{
    let mut out: Vec<u16> = Vec::new();
    let ghost mv = views(m@);
    let n = m.len();
    for i in 0..n
        invariant
            n == m@.len(),
            mv == views(m@),
            out@ == all_open(mv, i as int),
    {
        let f = m.value_at(i);
        assert(mv[i as int].1 == f@);
        let ghost was = out@;
        assert(was + f.open@.take(0) =~= was);
        for j in 0..f.open.len()
            invariant
                out@ == was + f.open@.take(j as int),
        {
            out.push(f.open[j]);
            assert(out@ =~= was + f.open@.take(j + 1));
        }
        assert(f.open@.take(f.open@.len() as int) =~= f.open@);
    }
    out
}

/// The limit for ports that pass for the network's own.
fn limit_of(n: usize) -> (r: usize)
    ensures
        r == limit(n as nat),
{
    let t = n / 10 * 7 + n % 10 * 7 / 10;
    assert(t == n * 7 / 10) by (nonlinear_arith)
        requires
            t == n / 10 * 7 + n % 10 * 7 / 10,
    ;
    if t > 4 {
        t
    } else {
        4
    }
}

/// Lists the ports that answer at most addresses.
fn common_ports(m: &NameMap<Found>, n: usize) -> (r: Vec<u16>)
    ensures
        ({
            let all = all_open(views(m@), m@.len() as int);
            let many = all.filter(|p: u16| times_in(all, p) > limit(n as nat));
            r@ == port_list(many, many.len() as int)
        }),
{
    let all = gather_open(m);
    let lim = limit_of(n);
    let ghost f = |p: u16| times_in(all@, p) > limit(n as nat);
    let mut out: Vec<u16> = Vec::new();
    assert(all@.take(0).filter(f) =~= Seq::<u16>::empty()) by {
        reveal(Seq::filter);
    }
    for i in 0..all.len()
        invariant
            lim == limit(n as nat),
            f == (|p: u16| times_in(all@, p) > limit(n as nat)),
            out@ == port_list(
                all@.take(i as int).filter(f),
                all@.take(i as int).filter(f).len() as int,
            ),
    {
        let ghost had = all@.take(i as int).filter(f);
        let ghost has = all@.take(i + 1).filter(f);
        assert(all@.take(i + 1).drop_last() =~= all@.take(i as int));
        let p = all[i];
        if count_port(&all, p) > lim {
            assert(has == had.push(p)) by {
                reveal(Seq::filter);
            }
            proof {
                lemma_port_list_front(had, has, had.len() as int);
            }
            insert_port(&mut out, p);
        } else {
            assert(has == had) by {
                reveal(Seq::filter);
            }
        }
    }
    assert(all@.take(all@.len() as int) =~= all@);
    out
}

proof fn lemma_port_list_front(a: Seq<u16>, b: Seq<u16>, n: int)
    requires
        0 <= n <= a.len(),
        n <= b.len(),
        forall|i: int| 0 <= i < n ==> #[trigger] a[i] == b[i],
    ensures
        port_list(a, n) == port_list(b, n),
    decreases n,
{
    if n > 0 {
        lemma_port_list_front(a, b, n - 1);
        assert(a[n - 1] == b[n - 1]);
    }
}

/// Whether `p` stands in a list.
fn has_port(v: &Vec<u16>, p: u16) -> (r: bool)
    ensures
        r == v@.contains(p),
{
    for i in 0..v.len()
        invariant
            forall|j: int| 0 <= j < i ==> #[trigger] v@[j] != p,
    {
        if v[i] == p {
            return true;
        }
    }
    false
}

/// Reports on one address.
fn report_on(ip: &str, f: &Found, own: &Vec<u16>) -> (r: Event)
    ensures
        r@ == ports_event(ip@, f@, own@),
{
    let ghost p = |x: u16| !own@.contains(x);
    let mut open: Vec<u16> = Vec::new();
    assert(f.open@.take(0).filter(p) =~= Seq::<u16>::empty()) by {
        reveal(Seq::filter);
    }
    for i in 0..f.open.len()
        invariant
            p == (|x: u16| !own@.contains(x)),
            open@ == f.open@.take(i as int).filter(p),
    {
        assert(f.open@.take(i + 1).drop_last() =~= f.open@.take(i as int));
        if !has_port(own, f.open[i]) {
            open.push(f.open[i]);
        }
        assert(open@ == f.open@.take(i + 1).filter(p)) by {
            reveal(Seq::filter);
        }
    }
    assert(f.open@.take(f.open@.len() as int) =~= f.open@);
    assert(banner_views(f.banners@).len() == f.banners@.len());
    Event::Ports { ip: owned(ip), open: sort_ports(&open), banner: join_banners(&f.banners) }
}

/// Reports on the whole probe.
fn close(n: usize, own: &Vec<u16>) -> (r: Event)
    ensures
        r@ == closing(n as nat, own@),
{
    let count = show(n as u64);
    if own.len() == 0 {
        return Event::SourceInfo { kind: "ports", state: "done", info: count };
    }
    let mut names: Vec<String> = Vec::new();
    for i in 0..own.len()
        invariant
            texts(names@) == port_names(own@).take(i as int),
    {
        let ghost was = texts(names@);
        names.push(show(own[i] as u64));
        assert(texts(names@) =~= was.push(dec(own@[i as int] as nat)));
        assert(texts(names@) =~= port_names(own@).take(i + 1));
    }
    assert(texts(names@) =~= port_names(own@));
    let list = join(&names, ",");
    let mut info = count;
    info.push(';');
    append_str(&mut info, list.as_str());
    assert(info@ =~= dec(n as nat) + seq![';'] + joined(port_names(own@), ","@));
    Event::SourceInfo { kind: "ports", state: "done_redirected", info }
}

/// The report that a probe of `n` addresses begins.
pub fn opening(n: usize) -> (r: Event)
    ensures
        r@ == (EventView::SourceInfo { kind: "ports"@, state: "probing"@, info: dec(n as nat) }),
{
    Event::SourceInfo { kind: "ports", state: "probing", info: show(n as u64) }
}

/// Draws the conclusions of a probe: `ips` were tried, and `control` for
/// comparison; `found` is what answered.
pub fn conclude(ips: &Vec<String>, control: &Option<String>, found: NameMap<Found>) -> (r: Vec<
    Event,
>)
    requires
        found.wf(),
    ensures
        event_views(r@) == probe_reports(views(found@), texts(ips@), opt_text(*control)),
{
    let ghost all = views(found@);
    let ghost ipv = texts(ips@);
    let n = ips.len();
    let mut f = found;
    let mut own: Vec<u16> = Vec::new();
    if let Some(c) = control {
        proof {
            lemma_views(f@, c@, arbitrary());
        }
        if let Some(x) = f.remove(c.as_str()) {
            for i in 0..x.open.len()
                invariant
                    own@ == port_list(x.open@, i as int),
            {
                insert_port(&mut own, x.open[i]);
            }
            proof {
                lemma_port_list_len(x.open@, x.open@.len() as int);
            }
        }
    }
    let ghost rest = views(f@);
    if own.len() == 0 && n >= 5 {
        own = common_ports(&f, n);
    }
    assert(own@ == artifacts(all, opt_text(*control), ipv.len()));
    let mut out: Vec<Event> = Vec::new();
    assert(event_views(out@) =~= Seq::<EventView>::empty());
    for i in 0..n
        invariant
            n == ips@.len(),
            ipv == texts(ips@),
            f.wf(),
            views(f@) == found_at(rest, ipv, i as int),
            event_views(out@) == reports(rest, ipv, own@, i as int),
    {
        let ip = ips[i].as_str();
        assert(ipv[i as int] == ip@);
        proof {
            lemma_views(f@, ip@, arbitrary());
        }
        let x = match f.remove(ip) {
            Some(x) => x,
            None => {
                let none = Found { open: Vec::new(), banners: Vec::new() };
                assert(none@ =~= nothing());
                none
            },
        };
        let e = report_on(ip, &x, &own);
        let ghost was = event_views(out@);
        let ghost ev = e@;
        out.push(e);
        assert(event_views(out@) =~= was.push(ev));
    }
    let e = close(n, &own);
    let ghost was = event_views(out@);
    let ghost ev = e@;
    out.push(e);
    assert(event_views(out@) =~= was.push(ev));
    out
}

proof fn lemma_port_list_len(v: Seq<u16>, n: int)
    requires
        0 <= n <= v.len(),
    ensures
        n > 0 ==> port_list(v, n).len() > 0,
    decreases n,
{
    if n > 0 {
        let b = port_list(v, n - 1);
        if b.len() > 0 {
            lemma_inserted_len(b, v[n - 1]);
        }
    }
}

proof fn lemma_inserted_len(v: Seq<u16>, p: u16)
    ensures
        inserted(v, p).len() >= v.len(),
        inserted(v, p).len() > 0,
    decreases v.len(),
{
    if v.len() > 0 && v.last() > p {
        lemma_inserted_len(v.drop_last(), p);
    }
}

// ---------------------------------------------------------------------------
// Laws
// ---------------------------------------------------------------------------

/// The address for comparison is none of those that are tried.
pub proof fn law_control_is_no_target(ips: Seq<Seq<char>>)
    ensures
        control_address(ips) matches Some(c) ==> !ips.contains(c),
{
    if control_address(ips) is Some {
        lemma_free_address(ips, octets(pieces(ips[0], '.'), 4), 253);
    }
}

proof fn lemma_free_address(ips: Seq<Seq<char>>, o: Seq<u8>, last: int)
    ensures
        free_address(ips, o, last) matches Some(c) ==> !ips.contains(c),
    decreases last,
{
    if last >= 249 {
        lemma_free_address(ips, o, last - 1);
    }
}

/// Every address that was tried is reported on, in its place, whether or not
/// something was found there.
pub proof fn law_every_address_is_reported(
    m: Entries<FoundView>,
    ips: Seq<Seq<char>>,
    own: Seq<u16>,
    n: int,
    i: int,
)
    requires
        0 <= i < n <= ips.len(),
    ensures
        reports(m, ips, own, n).len() == n,
        reports(m, ips, own, n)[i] is Ports,
        reports(m, ips, own, n)[i]->Ports_ip == ips[i],
    decreases n,
{
    lemma_reports_len(m, ips, own, n - 1);
    if i < n - 1 {
        law_every_address_is_reported(m, ips, own, n - 1, i);
    }
}

proof fn lemma_reports_len(m: Entries<FoundView>, ips: Seq<Seq<char>>, own: Seq<u16>, n: int)
    requires
        0 <= n,
    ensures
        reports(m, ips, own, n).len() == n,
    decreases n,
{
    if n > 0 {
        lemma_reports_len(m, ips, own, n - 1);
    }
}

/// Whether a list rises.
pub open spec fn rising(v: Seq<u16>) -> bool {
    forall|i: int, j: int| 0 <= i < j < v.len() ==> (#[trigger] v[i]) < (#[trigger] v[j])
}

proof fn lemma_inserted_set(v: Seq<u16>, p: u16)
    requires
        rising(v),
    ensures
        rising(inserted(v, p)),
        forall|x: u16| #[trigger] inserted(v, p).contains(x) <==> v.contains(x) || x == p,
        inserted(v, p).len() > 0 && (inserted(v, p).last() == p || (v.len() > 0 && inserted(
            v,
            p,
        ).last() == v.last())),
    decreases v.len(),
{
    let r = inserted(v, p);
    if v.len() == 0 || v.last() < p {
        assert forall|x: u16| #[trigger] r.contains(x) <==> v.contains(x) || x == p by {
            if v.contains(x) {
                let k = choose|k: int| 0 <= k < v.len() && v[k] == x;
                assert(r[k] == x);
            }
            assert(r[v.len() as int] == p);
        }
        assert(rising(r)) by {
            assert forall|i: int, j: int| 0 <= i < j < r.len() implies (#[trigger] r[i]) < (
            #[trigger] r[j]) by {
                if j == v.len() {
                    if i < v.len() - 1 {
                        assert(v[i] < v[v.len() - 1]);
                    }
                } else {
                    assert(v[i] < v[j]);
                }
            }
        }
    } else if v.last() == p {
        assert(v[v.len() - 1] == p);
    } else {
        let front = v.drop_last();
        assert(rising(front)) by {
            assert forall|i: int, j: int| 0 <= i < j < front.len() implies (#[trigger] front[i])
                < (#[trigger] front[j]) by {
                assert(v[i] < v[j]);
            }
        }
        lemma_inserted_set(front, p);
        let a = inserted(front, p);
        assert forall|x: u16| #[trigger] r.contains(x) <==> v.contains(x) || x == p by {
            if r.contains(x) {
                let k = choose|k: int| 0 <= k < r.len() && r[k] == x;
                if k < a.len() {
                    assert(a[k] == x);
                    assert(a.contains(x));
                    if front.contains(x) {
                        let q = choose|q: int| 0 <= q < front.len() && front[q] == x;
                        assert(v[q] == x);
                    }
                } else {
                    assert(v[v.len() - 1] == x);
                }
            }
            if v.contains(x) {
                let k = choose|k: int| 0 <= k < v.len() && v[k] == x;
                if k < front.len() {
                    assert(front[k] == x);
                    assert(a.contains(x));
                    let q = choose|q: int| 0 <= q < a.len() && a[q] == x;
                    assert(r[q] == x);
                } else {
                    assert(r[a.len() as int] == x);
                }
            }
            if x == p {
                assert(a.contains(p));
                let q = choose|q: int| 0 <= q < a.len() && a[q] == p;
                assert(r[q] == p);
            }
        }
        assert(rising(r)) by {
            assert forall|i: int, j: int| 0 <= i < j < r.len() implies (#[trigger] r[i]) < (
            #[trigger] r[j]) by {
                if j == a.len() {
                    assert(r[i] == a[i]);
                    if i < a.len() - 1 {
                        assert(a[i] < a[a.len() - 1]);
                    }
                    if front.len() > 0 {
                        assert(v[front.len() - 1] < v[v.len() - 1]);
                    }
                } else {
                    assert(a[i] < a[j]);
                }
            }
        }
    }
}

/// The list of the network's own ports rises, holds no port twice, and holds
/// exactly the ports it was made of.
pub proof fn law_port_list_is_a_set(v: Seq<u16>, n: int)
    requires
        0 <= n <= v.len(),
    ensures
        rising(port_list(v, n)),
        forall|x: u16| #[trigger] port_list(v, n).contains(x) <==> v.take(n).contains(x),
    decreases n,
{
    let r = port_list(v, n);
    if n > 0 {
        law_port_list_is_a_set(v, n - 1);
        lemma_inserted_set(port_list(v, n - 1), v[n - 1]);
        assert forall|x: u16| #[trigger] r.contains(x) <==> v.take(n).contains(x) by {
            if v.take(n).contains(x) {
                let w = v.take(n);
                let k = choose|k: int| 0 <= k < w.len() && w[k] == x;
                if k < n - 1 {
                    assert(v.take(n - 1)[k] == x);
                }
            }
            if v.take(n - 1).contains(x) {
                let w = v.take(n - 1);
                let k = choose|k: int| 0 <= k < w.len() && w[k] == x;
                assert(v.take(n)[k] == x);
            }
            assert(v.take(n)[n - 1] == v[n - 1]);
        }
    }
}

/// What answers at the address for comparison is the network's own: each such port
/// is among those that are taken out.
pub proof fn law_control_ports_are_artifacts(
    m: Entries<FoundView>,
    c: Seq<char>,
    n: nat,
    p: u16,
)
    requires
        lookup_or(m, c, nothing()).open.contains(p),
    ensures
        artifacts(m, Some(c), n).contains(p),
{
    let own = lookup_or(m, c, nothing()).open;
    law_port_list_is_a_set(own, own.len() as int);
    assert(own.take(own.len() as int) =~= own);
}

proof fn lemma_sorted_in_has(v: Seq<u16>, p: u16)
    ensures
        sorted_in(v, p).to_multiset() == v.to_multiset().insert(p),
    decreases v.len(),
{
    broadcast use vstd::seq_lib::group_to_multiset_ensures;

    if v.len() > 0 && v.last() > p {
        lemma_sorted_in_has(v.drop_last(), p);
        assert(v.drop_last().push(v.last()) =~= v);
        assert(sorted_in(v, p).to_multiset() =~= v.to_multiset().insert(p));
    }
}

proof fn lemma_sorted_has(v: Seq<u16>, n: int)
    requires
        0 <= n <= v.len(),
    ensures
        sorted_ports(v, n).to_multiset() == v.take(n).to_multiset(),
    decreases n,
{
    broadcast use vstd::seq_lib::group_to_multiset_ensures;

    if n > 0 {
        lemma_sorted_has(v, n - 1);
        lemma_sorted_in_has(sorted_ports(v, n - 1), v[n - 1]);
        assert(v.take(n) =~= v.take(n - 1).push(v[n - 1]));
    } else {
        assert(v.take(0) =~= Seq::<u16>::empty());
    }
}

/// No port of the network's own is reported of a device.
pub proof fn law_artifacts_are_not_reported(
    ip: Seq<char>,
    f: FoundView,
    own: Seq<u16>,
    p: u16,
)
    requires
        own.contains(p),
    ensures
        !ports_event(ip, f, own)->Ports_open.contains(p),
{
    broadcast use vstd::seq_lib::group_to_multiset_ensures;

    let keep = |x: u16| !own.contains(x);
    let open = f.open.filter(keep);
    let r = sorted_ports(open, open.len() as int);
    lemma_sorted_has(open, open.len() as int);
    assert(open.take(open.len() as int) =~= open);
    if r.contains(p) {
        assert(r.to_multiset().contains(p));
        assert(open.to_multiset().contains(p));
        assert(open.contains(p));
        let i = choose|i: int| 0 <= i < open.len() && open[i] == p;
        f.open.lemma_filter_pred(keep, i);
    }
}

/// What is kept of an answer is bounded, however long the answer is.
pub proof fn law_answers_are_bounded(t: Seq<char>)
    ensures
        identity(t).len() <= 200,
        greeting(t).len() <= 120,
{
}

} // verus!
