//! What devices announce by multicast, and the questions that make them do so.

use crate::clients::{add_text, added, find_behind, word_behind};
use crate::dnsmsg::{
    all_utf8, decoded, labels_at, message_records, parse_records, record_views, Record, RecordView,
    T_A, T_PTR, T_SRV, T_TXT,
};
use crate::event::{opt_event, Event, EventView};
use crate::num::{parse_unsigned, unsigned};
use crate::text::{
    all_in, before, begins, chars, contains, ends, ends_with, find, joined,
    law_joining_undoes_splitting, line_list, lines, lossy, lower, mentions, only, part_first,
    pieces, position, slices, spells, split, split_first, split_words, starts, strip_suffixes, text,
    texts, to_lower, trim, trimmed, until, utf8_lossy, without_suffixes, words, Class,
};
use crate::util::{domain_normal, norm_domain, opt_text};
use crate::wire::u16_at;
use vstd::prelude::*;
use vstd::slice::slice_subrange;
use vstd::utf8::{
    decode_utf8, encode_utf8, encode_utf8_decode_utf8, encode_utf8_valid_utf8, valid_utf8,
};

verus! {

// ---------------------------------------------------------------------------
// Own addresses
// ---------------------------------------------------------------------------

/// Whether a text is an octet: one to three digits, without a leading zero, up to
/// 255.
pub open spec fn strict_octet(s: Seq<char>) -> bool {
    1 <= s.len() <= 3 && all_in(s, Class::Digit) && (s.len() > 1 ==> s[0] != '0') && unsigned(
        s,
        10,
        255,
    ) is Some
}

/// The number of an address that is written in the strict form: four octets with a
/// dot between each two.
pub open spec fn strict_v4(s: Seq<char>) -> Option<u32> {
    let p = pieces(s, '.');
    if p.len() == 4 && strict_octet(p[0]) && strict_octet(p[1]) && strict_octet(p[2])
        && strict_octet(p[3]) {
        Some(
            (unsigned(p[0], 10, 255).unwrap() * 0x100_0000 + unsigned(p[1], 10, 255).unwrap()
                * 0x1_0000 + unsigned(p[2], 10, 255).unwrap() * 0x100 + unsigned(
                p[3],
                10,
                255,
            ).unwrap()) as u32,
        )
    } else {
        None
    }
}

/// Reads an octet.
fn read_octet(s: &[char]) -> (r: Option<u32>)
    ensures
        r is Some <==> strict_octet(s@),
        r matches Some(n) ==> n <= 255 && unsigned(s@, 10, 255) == Some(n as nat),
{
    if s.len() < 1 || s.len() > 3 || !only(s, Class::Digit) || (s.len() > 1 && s[0] == '0') {
        return None;
    }
    match parse_unsigned(s, 10, 255) {
        Some(n) => Some(n as u32),
        None => None,
    }
}

/// Reads an address in the strict form.
pub fn read_v4(s: &[char]) -> (r: Option<u32>)
    ensures
        r == strict_v4(s@),
{
    let p = split(s, '.');
    let ghost pv = pieces(s@, '.');
    assert(slices(p@) == pv);
    if p.len() != 4 {
        return None;
    }
    assert(pv[0] == p@[0]@ && pv[1] == p@[1]@ && pv[2] == p@[2]@ && pv[3] == p@[3]@);
    match (read_octet(p[0]), read_octet(p[1]), read_octet(p[2]), read_octet(p[3])) {
        (Some(a), Some(b), Some(c), Some(d)) => Some(
            a * 0x100_0000 + b * 0x1_0000 + c * 0x100 + d,
        ),
        _ => None,
    }
}

/// The address in a line of the address table: what stands before the slash in the
/// word behind `inet`. The router's address to itself is left out.
pub open spec fn address_in(line: Seq<char>) -> Option<u32> {
    match word_behind(words(line), "inet"@) {
        Some(w) => match strict_v4(before(w, '/')) {
            Some(a) => if a / 0x100_0000 == 127 {
                None
            } else {
                Some(a)
            },
            None => None,
        },
        None => None,
    }
}

/// A rising list with `a` in its place, where it is not in it.
pub open spec fn inserted(v: Seq<u32>, a: u32) -> Seq<u32>
    decreases v.len(),
{
    if v.len() == 0 || v.last() < a {
        v.push(a)
    } else if v.last() == a {
        v
    } else {
        inserted(v.drop_last(), a).push(v.last())
    }
}

/// The addresses in the first `n` lines, rising and without repetitions.
pub open spec fn addresses_in(ls: Seq<Seq<char>>, n: int) -> Seq<u32>
    decreases n,
{
    if n <= 0 {
        Seq::empty()
    } else {
        match address_in(ls[n - 1]) {
            Some(a) => inserted(addresses_in(ls, n - 1), a),
            None => addresses_in(ls, n - 1),
        }
    }
}

proof fn lemma_inserted(v: Seq<u32>, a: u32, j: int)
    requires
        0 <= j <= v.len(),
        j > 0 ==> v[j - 1] <= a,
        forall|k: int| j <= k < v.len() ==> #[trigger] v[k] > a,
    ensures
        inserted(v, a) == if j > 0 && v[j - 1] == a {
            v
        } else {
            v.insert(j, a)
        },
    decreases v.len(),
{
    if j < v.len() {
        let front = v.drop_last();
        assert forall|k: int| j <= k < front.len() implies #[trigger] front[k] > a by {
            assert(front[k] == v[k]);
        }
        if j > 0 {
            assert(front[j - 1] == v[j - 1]);
        }
        lemma_inserted(front, a, j);
        assert(v[v.len() - 1] > a);
        if j > 0 && v[j - 1] == a {
            assert(front.push(v.last()) =~= v);
        } else {
            assert(front.insert(j, a).push(v.last()) =~= v.insert(j, a));
        }
    } else {
        assert(v.push(a) =~= v.insert(j, a));
    }
}

/// Lists the router's own addresses, rising, from the address table.
pub fn local_v4(txt: &str) -> (r: Vec<u32>)
    ensures
        r@ == addresses_in(line_list(txt@), line_list(txt@).len() as int),
{
    let tc = chars(txt);
    let ls = lines(tc.as_slice());
    let ghost all = line_list(txt@);
    assert(slices(ls@) == all);
    let mut out: Vec<u32> = Vec::new();
    for i in 0..ls.len()
        invariant
            slices(ls@) == all,
            out@ == addresses_in(all, i as int),
    {
        assert(all[i as int] == ls@[i as int]@);
        let f = split_words(ls[i]);
        if let Some(w) = find_behind(&f, "inet") {
            if let Some(a) = read_v4(until(w, '/')) {
                if a / 0x100_0000 != 127 {
                    let mut j = out.len();
                    while j > 0 && out[j - 1] > a
                        invariant
                            j <= out@.len(),
                            forall|k: int| j <= k < out@.len() ==> #[trigger] out@[k] > a,
                        decreases j,
                    {
                        j = j - 1;
                    }
                    proof {
                        lemma_inserted(out@, a, j as int);
                    }
                    if j == 0 || out[j - 1] != a {
                        out.insert(j, a);
                    }
                }
            }
        }
    }
    out
}

// ---------------------------------------------------------------------------
// Announcements
// ---------------------------------------------------------------------------

/// What was gathered from an announcement.
pub struct Facts {
    pub name: String,
    pub model: String,
    pub services: Vec<String>,
}

/// What was gathered, in mathematical values.
#[verifier::ext_equal]
pub struct FactsView {
    pub name: Seq<char>,
    pub model: Seq<char>,
    pub services: Seq<Seq<char>>,
}

impl View for Facts {
    type V = FactsView;

    open spec fn view(&self) -> FactsView {
        FactsView { name: self.name@, model: self.model@, services: texts(self.services@) }
    }
}

/// A name without the local domain at its end.
pub open spec fn local_name(s: Seq<char>) -> Seq<char> {
    without_suffixes(s, ".local"@)
}

/// What is gathered with a pointer record: the service it is for.
pub open spec fn with_pointer(f: FactsView, r: RecordView) -> FactsView {
    if starts(r.name, "_"@) && !starts(r.name, "_services."@) {
        FactsView { services: added(f.services, local_name(r.name)), ..f }
    } else {
        f
    }
}

/// The service that a service record is for: what stands behind the first dot that
/// an underscore follows.
pub open spec fn service_of(name: Seq<char>) -> Option<Seq<char>> {
    if starts(name, "_"@) || contains(name, "._tcp"@) || contains(name, "._udp"@) {
        match find(name, "._"@) {
            Some(i) => {
                let s = local_name(name.skip(i + 1));
                if s.len() > 0 {
                    Some(s)
                } else {
                    None
                }
            },
            None => None,
        }
    } else {
        None
    }
}

/// What is gathered with a service record: its service, and its host.
pub open spec fn with_service(f: FactsView, r: RecordView) -> FactsView {
    FactsView {
        services: match service_of(r.name) {
            Some(s) => added(f.services, s),
            None => f.services,
        },
        name: if f.name.len() == 0 && r.target.len() > 0 {
            local_name(r.target)
        } else {
            f.name
        },
        ..f
    }
}

/// What is gathered with a string of a text record: a model or a friendly name.
pub open spec fn with_pair(f: FactsView, kv: Seq<char>) -> FactsView {
    match split_first(kv, '=') {
        Some((k, v)) => {
            let key = lower(trimmed(k));
            let val = trimmed(v);
            FactsView {
                model: if val.len() > 0 && f.model.len() == 0 && (key == "model"@ || key == "md"@
                    || key == "ty"@ || key == "am"@) {
                    val
                } else {
                    f.model
                },
                name: if val.len() > 0 && f.name.len() == 0 && key == "fn"@ {
                    val
                } else {
                    f.name
                },
                ..f
            }
        },
        None => f,
    }
}

/// What is gathered with the first `n` strings of a text record.
pub open spec fn with_pairs(f: FactsView, txt: Seq<Seq<char>>, n: int) -> FactsView
    decreases n,
{
    if n <= 0 {
        f
    } else {
        with_pair(with_pairs(f, txt, n - 1), txt[n - 1])
    }
}

/// What is gathered with a record.
pub open spec fn with_record(f: FactsView, r: RecordView) -> FactsView {
    if r.rtype == T_PTR {
        with_pointer(f, r)
    } else if r.rtype == T_SRV {
        with_service(f, r)
    } else if r.rtype == T_TXT {
        with_pairs(f, r.txt, r.txt.len() as int)
    } else if r.rtype == T_A {
        if f.name.len() == 0 && ends(r.name, ".local"@) {
            FactsView { name: local_name(r.name), ..f }
        } else {
            f
        }
    } else {
        f
    }
}

/// What is gathered with the first `n` records.
pub open spec fn gathered(rs: Seq<RecordView>, n: int) -> FactsView
    decreases n,
{
    if n <= 0 {
        FactsView { name: Seq::empty(), model: Seq::empty(), services: Seq::empty() }
    } else {
        with_record(gathered(rs, n - 1), rs[n - 1])
    }
}

/// What an announcement tells.
pub open spec fn announced(rs: Seq<RecordView>) -> FactsView {
    let f = gathered(rs, rs.len() as int);
    FactsView { name: domain_normal(f.name), ..f }
}

impl Facts {
    fn take_pointer(&mut self, r: &Record)
        ensures
            final(self)@ == with_pointer(old(self)@, r@),
    {
        let c = chars(r.name.as_str());
        let n = c.as_slice();
        if begins(n, "_") && !begins(n, "_services.") {
            let svc = text(strip_suffixes(n, ".local"));
            add_text(&mut self.services, svc.as_str());
        }
    }

    fn take_service(&mut self, r: &Record)
        ensures
            final(self)@ == with_service(old(self)@, r@),
    {
        let c = chars(r.name.as_str());
        let n = c.as_slice();
        let len = n.len();
        if begins(n, "_") || mentions(n, "._tcp") || mentions(n, "._udp") {
            let mark = chars("._");
            if let Some(i) = position(n, mark.as_slice()) {
                proof {
                    reveal_strlit("._");
                    assert("._"@.len() == 2);
                }
                let rest = slice_subrange(n, i + 1, len);
                assert(rest@ =~= n@.skip(i + 1));
                let svc = strip_suffixes(rest, ".local");
                if svc.len() > 0 {
                    let s = text(svc);
                    add_text(&mut self.services, s.as_str());
                }
            }
        }
        if self.name.as_str().is_empty() && !r.target.as_str().is_empty() {
            let t = chars(r.target.as_str());
            self.name = text(strip_suffixes(t.as_slice(), ".local"));
        }
    }

    fn take_pair(&mut self, kv: &str)
        ensures
            final(self)@ == with_pair(old(self)@, kv@),
    {
        let c = chars(kv);
        if let Some((k, v)) = part_first(c.as_slice(), '=') {
            let low = to_lower(trim(k));
            let key = low.as_slice();
            let val = trim(v);
            if val.len() > 0 {
                if (spells(key, "model") || spells(key, "md") || spells(key, "ty") || spells(
                    key,
                    "am",
                )) && self.model.as_str().is_empty() {
                    self.model = text(val);
                }
                if spells(key, "fn") && self.name.as_str().is_empty() {
                    self.name = text(val);
                }
            }
        }
    }

    fn take_record(&mut self, r: &Record)
        ensures
            final(self)@ == with_record(old(self)@, r@),
    {
        if r.rtype == T_PTR {
            self.take_pointer(r);
        } else if r.rtype == T_SRV {
            self.take_service(r);
        } else if r.rtype == T_TXT {
            let ghost start = self@;
            let ghost tv = texts(r.txt@);
            for i in 0..r.txt.len()
                invariant
                    tv == texts(r.txt@),
                    self@ == with_pairs(start, tv, i as int),
            {
                assert(tv[i as int] == r.txt@[i as int]@);
                self.take_pair(r.txt[i].as_str());
            }
            assert(r@.txt.len() == r.txt@.len());
        } else if r.rtype == T_A {
            let c = chars(r.name.as_str());
            let suffix = chars(".local");
            if self.name.as_str().is_empty() && ends_with(c.as_slice(), suffix.as_slice()) {
                self.name = text(strip_suffixes(c.as_slice(), ".local"));
            }
        }
    }
}

/// Gathers what the records of an announcement tell.
pub fn gather(rs: &Vec<Record>) -> (r: Facts)
    ensures
        r@ == announced(record_views(rs@)),
{
    let ghost all = record_views(rs@);
    let mut f = Facts { name: String::new(), model: String::new(), services: Vec::new() };
    assert(f@ =~= gathered(all, 0));
    for i in 0..rs.len()
        invariant
            all == record_views(rs@),
            f@ == gathered(all, i as int),
    {
        assert(all[i as int] == rs@[i as int]@);
        f.take_record(&rs[i]);
    }
    assert(all.len() == rs@.len());
    let name = norm_domain(f.name.as_str());
    f.name = name;
    f
}

/// Reads what an announcement tells.
pub fn parse_mdns(buf: &[u8]) -> (r: Facts)
    ensures
        r@ == announced(message_records(buf@)),
{
    let rs = parse_records(buf);
    gather(&rs)
}

/// The event of an announcement; one that tells nothing is none.
pub open spec fn announcement(ip: Seq<char>, f: FactsView) -> Option<EventView> {
    if f.name.len() == 0 && f.model.len() == 0 && f.services.len() == 0 {
        None
    } else {
        Some(EventView::Mdns { ip, name: f.name, model: f.model, services: f.services })
    }
}

/// Reads the event of an announcement.
pub fn mdns_event(ip: String, buf: &[u8]) -> (r: Option<Event>)
    ensures
        opt_event(r) == announcement(ip@, announced(message_records(buf@))),
{
    let f = parse_mdns(buf);
    assert(f@.services.len() == f.services@.len());
    if f.name.as_str().is_empty() && f.model.as_str().is_empty() && f.services.len() == 0 {
        None
    } else {
        Some(Event::Mdns { ip, name: f.name, model: f.model, services: f.services })
    }
}

// ---------------------------------------------------------------------------
// Questions
// ---------------------------------------------------------------------------

/// The first `n` parts of a name, each as its length and its bytes. Of a length only
/// the low eight bits fit.
pub open spec fn label_bytes(ps: Seq<Seq<char>>, n: int) -> Seq<u8>
    decreases n,
{
    if n <= 0 {
        Seq::empty()
    } else {
        let b = encode_utf8(ps[n - 1]);
        label_bytes(ps, n - 1) + seq![(b.len() % 256) as u8] + b
    }
}

/// The header of a message with one question.
pub open spec fn query_header() -> Seq<u8> {
    seq![0u8, 0, 0, 0, 0, 1, 0, 0, 0, 0, 0, 0]
}

/// The question for the pointers of a name.
pub open spec fn query_bytes(qname: Seq<char>) -> Seq<u8> {
    let ps = pieces(qname, '.');
    query_header() + label_bytes(ps, ps.len() as int) + seq![0u8, 0, 12, 0, 1]
}

/// Puts bytes at the end of others.
fn push_bytes(out: &mut Vec<u8>, b: &[u8])
    ensures
        final(out)@ == old(out)@ + b@,
{
    let ghost was = out@;
    assert(was + b@.take(0) =~= was);
    for i in 0..b.len()
        invariant
            out@ == was + b@.take(i as int),
    {
        out.push(b[i]);
        assert(out@ =~= was + b@.take(i + 1));
    }
    assert(b@.take(b@.len() as int) =~= b@);
}

/// Writes the question for the pointers of a name.
pub fn dns_query(qname: &str) -> (r: Vec<u8>)
    ensures
        r@ == query_bytes(qname@),
{
    let mut p: Vec<u8> = Vec::new();
    let head = [0u8, 0, 0, 0, 0, 1, 0, 0, 0, 0, 0, 0];
    push_bytes(&mut p, head.as_slice());
    assert(p@ =~= query_header());
    let c = chars(qname);
    let ps = split(c.as_slice(), '.');
    let ghost pv = pieces(qname@, '.');
    assert(slices(ps@) == pv);
    assert(query_header() + Seq::<u8>::empty() =~= query_header());
    for i in 0..ps.len()
        invariant
            slices(ps@) == pv,
            p@ == query_header() + label_bytes(pv, i as int),
    {
        assert(pv[i as int] == ps@[i as int]@);
        let label = text(ps[i]);
        let b = label.as_str().as_bytes();
        p.push((b.len() % 256) as u8);
        push_bytes(&mut p, b);
        assert(p@ =~= query_header() + (label_bytes(pv, i as int) + seq![
            (b@.len() % 256) as u8,
        ] + b@));
    }
    let end = [0u8, 0, 12, 0, 1];
    push_bytes(&mut p, end.as_slice());
    assert(p@ =~= query_bytes(qname@));
    p
}

/// Lists the questions that are asked.
pub fn mdns_queries() -> (r: Vec<Vec<u8>>)
    ensures
        r@.len() == 6,
        r@[0]@ == query_bytes("_services._dns-sd._udp.local"@),
        r@[1]@ == query_bytes("_device-info._tcp.local"@),
        r@[2]@ == query_bytes("_airplay._tcp.local"@),
        r@[3]@ == query_bytes("_googlecast._tcp.local"@),
        r@[4]@ == query_bytes("_ipp._tcp.local"@),
        r@[5]@ == query_bytes("_miio._udp.local"@),
{
    let mut out: Vec<Vec<u8>> = Vec::new();
    out.push(dns_query("_services._dns-sd._udp.local"));
    out.push(dns_query("_device-info._tcp.local"));
    out.push(dns_query("_airplay._tcp.local"));
    out.push(dns_query("_googlecast._tcp.local"));
    out.push(dns_query("_ipp._tcp.local"));
    out.push(dns_query("_miio._udp.local"));
    out
}

/// Quiet devices are asked again once more than this many nanoseconds have passed: half an
/// hour.
pub const ASK_AGAIN: u128 = 1_800_000_000_000;

/// Whether it is time to ask again, so many nanoseconds after asking.
pub fn ask_due(elapsed: u128) -> (r: bool)
    ensures
        r == (elapsed > ASK_AGAIN),
{
    elapsed > ASK_AGAIN
}

/// The search that makes devices answer with their server line.
pub const M_SEARCH: &'static str = "M-SEARCH * HTTP/1.1\r\nHOST: 239.255.255.250:1900\r\nMAN: \"ssdp:discover\"\r\nMX: 2\r\nST: ssdp:all\r\n\r\n";

/// Whether a line is the server line of an answer.
pub open spec fn is_server_line(line: Seq<char>) -> bool {
    starts(lower(line), "server:"@) || starts(lower(line), "user-agent:"@)
}

/// The value of the first server line from `i` on; `None` where there is none or it
/// has none.
pub open spec fn server_from(ls: Seq<Seq<char>>, i: int) -> Option<Seq<char>>
    decreases ls.len() - i,
{
    if i < 0 || i >= ls.len() {
        None
    } else if is_server_line(ls[i]) {
        match split_first(ls[i], ':') {
            Some((_, v)) => if trimmed(v).len() > 0 {
                Some(trimmed(v))
            } else {
                None
            },
            None => None,
        }
    } else {
        server_from(ls, i + 1)
    }
}

/// Reads the value of the server line of an answer.
pub fn ssdp_server(t: &str) -> (r: Option<String>)
    ensures
        opt_text(r) == server_from(line_list(t@), 0),
{
    let c = chars(t);
    let ls = lines(c.as_slice());
    let ghost all = line_list(t@);
    assert(slices(ls@) == all);
    for i in 0..ls.len()
        invariant
            slices(ls@) == all,
            all == line_list(t@),
            server_from(all, 0) == server_from(all, i as int),
    {
        let line = ls[i];
        assert(all[i as int] == line@);
        let low = to_lower(line);
        if begins(low.as_slice(), "server:") || begins(low.as_slice(), "user-agent:") {
            return match part_first(line, ':') {
                Some((_, v)) => {
                    let val = trim(v);
                    if val.len() > 0 {
                        Some(text(val))
                    } else {
                        None
                    }
                },
                None => None,
            };
        }
    }
    None
}

/// Reads the event of an answer to the search.
pub fn ssdp_event(ip: String, buf: &[u8]) -> (r: Option<Event>)
    ensures
        opt_event(r) == match server_from(line_list(utf8_lossy(buf@)), 0) {
            Some(server) => Some(EventView::Ssdp { ip: ip@, server }),
            None => None,
        },
{
    match ssdp_server(lossy(buf).as_str()) {
        Some(server) => Some(Event::Ssdp { ip, server }),
        None => None,
    }
}

// ---------------------------------------------------------------------------
// Laws
// ---------------------------------------------------------------------------

/// Whether each part of a name fits a label: one to 63 bytes.
pub open spec fn fits_labels(ps: Seq<Seq<char>>) -> bool {
    forall|i: int| 0 <= i < ps.len() ==> 1 <= encode_utf8(#[trigger] ps[i]).len() <= 63
}

/// The bytes of the parts of a name from `i` on.
pub open spec fn part_bytes(ps: Seq<Seq<char>>, i: int) -> Seq<Seq<u8>> {
    Seq::new((ps.len() - i) as nat, |j: int| encode_utf8(ps[i + j]))
}

proof fn lemma_label_place(ps: Seq<Seq<char>>, i: int, n: int)
    requires
        0 <= i < n <= ps.len(),
        fits_labels(ps),
    ensures
        label_bytes(ps, i).len() + 1 + encode_utf8(ps[i]).len() <= label_bytes(ps, n).len(),
        label_bytes(ps, n)[label_bytes(ps, i).len() as int] == encode_utf8(ps[i]).len(),
        label_bytes(ps, n).subrange(
            label_bytes(ps, i).len() as int + 1,
            label_bytes(ps, i).len() as int + 1 + encode_utf8(ps[i]).len(),
        ) == encode_utf8(ps[i]),
        label_bytes(ps, i + 1).len() == label_bytes(ps, i).len() + 1 + encode_utf8(ps[i]).len(),
    decreases n,
{
    let a = label_bytes(ps, i);
    let b = encode_utf8(ps[i]);
    let one = label_bytes(ps, i + 1);
    assert(1 <= b.len() <= 63);
    assert(one == a + seq![(b.len() % 256) as u8] + b);
    assert(one.subrange((a.len() + 1) as int, (a.len() + 1 + b.len()) as int) =~= b);
    if n > i + 1 {
        lemma_label_place(ps, i, n - 1);
        let m = label_bytes(ps, n - 1);
        let w = label_bytes(ps, n);
        let last = encode_utf8(ps[n - 1]);
        assert(w == m + seq![(last.len() % 256) as u8] + last);
        assert(w[a.len() as int] == m[a.len() as int]);
        assert(w.subrange((a.len() + 1) as int, (a.len() + 1 + b.len()) as int) =~= m.subrange(
            (a.len() + 1) as int,
            (a.len() + 1 + b.len()) as int,
        ));
    }
}

proof fn lemma_query_labels(ps: Seq<Seq<char>>, msg: Seq<u8>, i: int)
    requires
        fits_labels(ps),
        0 <= i <= ps.len(),
        msg == query_header() + label_bytes(ps, ps.len() as int) + seq![0u8, 0, 12, 0, 1],
    ensures
        labels_at(msg, 12 + label_bytes(ps, i).len() as int, 0) == Some(part_bytes(ps, i)),
    decreases ps.len() - i,
{
    let n = ps.len() as int;
    let all = label_bytes(ps, n);
    let at = label_bytes(ps, i).len() as int;
    if i == n {
        assert(msg[12 + at] == 0);
        assert(part_bytes(ps, i) =~= Seq::<Seq<u8>>::empty());
    } else {
        lemma_label_place(ps, i, n);
        lemma_query_labels(ps, msg, i + 1);
        let b = encode_utf8(ps[i]);
        assert(msg[12 + at] == all[at]);
        assert(msg[12 + at] == b.len());
        assert(msg.subrange(12 + at + 1, 12 + at + 1 + b.len()) =~= all.subrange(
            at + 1,
            at + 1 + b.len(),
        ));
        assert(seq![b] + part_bytes(ps, i + 1) =~= part_bytes(ps, i));
    }
}

/// A question that is written can be read back: it is one question, its name has the
/// labels that it was made of, and they spell the name.
pub proof fn law_query_reads_back(qname: Seq<char>)
    requires
        fits_labels(pieces(qname, '.')),
    ensures
        qname.len() > 0,
        query_bytes(qname).len() >= 12,
        u16_at(query_bytes(qname), 4) == 1,
        labels_at(query_bytes(qname), 12, 0) == Some(part_bytes(pieces(qname, '.'), 0)),
        all_utf8(part_bytes(pieces(qname, '.'), 0)),
        joined(decoded(part_bytes(pieces(qname, '.'), 0)), "."@) == qname,
{
    let ps = pieces(qname, '.');
    let ls = part_bytes(ps, 0);
    lemma_query_labels(ps, query_bytes(qname), 0);
    assert(label_bytes(ps, 0).len() == 0);
    assert forall|i: int| 0 <= i < ls.len() implies valid_utf8(#[trigger] ls[i]) && decode_utf8(
        ls[i],
    ) == ps[i] by {
        encode_utf8_valid_utf8(ps[i]);
        encode_utf8_decode_utf8(ps[i]);
    }
    assert(decoded(ls) =~= ps);
    law_joining_undoes_splitting(qname, '.');
    reveal_strlit(".");
    assert("."@ =~= seq!['.']);
    if qname.len() == 0 {
        assert(ps == seq![qname]);
        assert(encode_utf8(ps[0]).len() == 0);
    }
}

} // verus!
