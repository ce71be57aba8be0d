//! Queries from the log of a resolver: `dnsmasq`, which says all in one line, and
//! `sing-box`, whose lines are brought together by the number of the request.

use crate::event::{opt_event, Event, EventView};
use crate::names::{
    law_put_then_lookup, law_without_then_lookup, lemma_views, lookup, ordered, put, views, without,
    Entries, NameMap,
};
use crate::num::{parse_u16, unsigned};
use crate::text::{
    all_in, back_trimmed, begins, chars, eq, first_word, front_trimmed, only, owned, part_first,
    part_last, part_text, slices, spells, split_at_text, split_first, split_last, split_words,
    starts, strip_prefixes, text, texts, to_upper, trim, trim_back, trim_front, trimmed, upper,
    without_prefixes, word, words, Class,
};
use crate::util::{domain_normal, norm_domain_of};
use std::collections::VecDeque;
use vstd::prelude::*;
use vstd::slice::slice_subrange;

verus! {

/// Where the log of `dnsmasq` is expected.
pub const DEFAULT_LOG: &'static str = "/tmp/whohere-dns.log";

/// How many requests of `sing-box` are remembered.
pub const REQUESTS_MAX: usize = 4096;

/// Whether an address is the router itself.
pub open spec fn own_address(ip: Seq<char>) -> bool {
    ip == "::1"@ || starts(ip, "127."@)
}

/// Whether an address is the router itself.
pub fn is_loopback(ip: &str) -> (r: bool)
    ensures
        r == own_address(ip@),
{
    let c = chars(ip);
    eq(ip, "::1") || begins(c.as_slice(), "127.")
}

/// Whether a text is spelled like an address.
pub open spec fn like_address(s: Seq<char>) -> bool {
    s.len() > 0 && all_in(s, Class::Address)
}

/// Whether a text is spelled like an address.
pub fn is_ipish(s: &[char]) -> (r: bool)
    ensures
        r == like_address(s@),
{
    s.len() > 0 && only(s, Class::Address)
}

/// Whether a query type is told apart from others.
pub open spec fn known_qtype(t: Seq<char>) -> bool {
    ||| t == "A"@
    ||| t == "AAAA"@
    ||| t == "HTTPS"@
    ||| t == "SVCB"@
    ||| t == "PTR"@
    ||| t == "SRV"@
    ||| t == "TXT"@
    ||| t == "CNAME"@
    ||| t == "NS"@
    ||| t == "MX"@
    ||| t == "SOA"@
    ||| t == "ANY"@
}

/// The normal form of a query type; `OTHER` for one that is not told apart.
pub open spec fn qtype_normal(t: Seq<char>) -> Seq<char> {
    let u = upper(trimmed(t));
    if known_qtype(u) {
        u
    } else {
        "OTHER"@
    }
}

/// Brings a query type to its normal form.
pub fn norm_qtype(t: &str) -> (r: String)
    ensures
        r@ == qtype_normal(t@),
{
    let c = chars(t);
    norm_qtype_of(c.as_slice())
}

/// Brings a query type to its normal form.
fn norm_qtype_of(t: &[char]) -> (r: String)
    ensures
        r@ == qtype_normal(t@),
{
    let uv = to_upper(trim(t));
    let u = uv.as_slice();
    if spells(u, "A") || spells(u, "AAAA") || spells(u, "HTTPS") || spells(u, "SVCB") || spells(
        u,
        "PTR",
    ) || spells(u, "SRV") || spells(u, "TXT") || spells(u, "CNAME") || spells(u, "NS") || spells(
        u,
        "MX",
    ) || spells(u, "SOA") || spells(u, "ANY") {
        text(u)
    } else {
        owned("OTHER")
    }
}

/// A query in a log.
pub struct Lookup {
    pub ip: String,
    pub domain: String,
    pub qtype: String,
    pub sport: u16,
}

/// A query in a log, in mathematical values.
pub struct LookupView {
    pub ip: Seq<char>,
    pub domain: Seq<char>,
    pub qtype: Seq<char>,
    pub sport: u16,
}

impl View for Lookup {
    type V = LookupView;

    open spec fn view(&self) -> LookupView {
        LookupView { ip: self.ip@, domain: self.domain@, qtype: self.qtype@, sport: self.sport }
    }
}

/// The view of a query that may be missing.
pub open spec fn opt_lookup(l: Option<Lookup>) -> Option<LookupView> {
    match l {
        Some(l) => Some(l@),
        None => None,
    }
}

/// The place of the first word from `i` on that begins with `p`.
pub open spec fn place_starting(ws: Seq<Seq<char>>, p: Seq<char>, i: int) -> Option<int>
    decreases ws.len() - i,
{
    if i < 0 || i >= ws.len() {
        None
    } else if starts(ws[i], p) {
        Some(i)
    } else {
        place_starting(ws, p, i + 1)
    }
}

/// The place of the last word from `i` on that is `w`.
pub open spec fn last_place(ws: Seq<Seq<char>>, w: Seq<char>, i: int) -> Option<int>
    decreases ws.len() - i,
{
    if i < 0 || i >= ws.len() {
        None
    } else if last_place(ws, w, i + 1) is Some {
        last_place(ws, w, i + 1)
    } else if ws[i] == w {
        Some(i)
    } else {
        None
    }
}

/// The port behind the last slash of a word; 0 where there is none.
pub open spec fn port_behind(w: Seq<char>) -> u16 {
    match split_last(w, '/') {
        Some((_, p)) => match unsigned(p, 10, 65535) {
            Some(n) => n as u16,
            None => 0,
        },
        None => 0,
    }
}

/// Who asked, in a line whose query stands at place `q` and its name behind it: the
/// word behind the last `from` behind the name, or else what stands before the slash of
/// the word before the query.
pub open spec fn asker(ws: Seq<Seq<char>>, q: int) -> Option<Seq<char>> {
    match last_place(ws, "from"@, q + 2) {
        Some(i) => if i + 1 < ws.len() {
            Some(ws[i + 1])
        } else {
            None
        },
        None => if q > 0 {
            match split_last(ws[q - 1], '/') {
                Some((h, _)) => Some(h),
                None => None,
            }
        } else {
            None
        },
    }
}

/// The query in a line of `dnsmasq`: `query[A] name from address`, and before it, in
/// some lines, `address/port`.
pub open spec fn dnsmasq_query(line: Seq<char>) -> Option<LookupView> {
    let ws = words(line);
    match place_starting(ws, "query["@, 0) {
        Some(q) => if q + 1 >= ws.len() || domain_normal(ws[q + 1]).len() == 0 {
            None
        } else {
            match asker(ws, q) {
                Some(ip) => if like_address(ip) {
                    Some(
                        LookupView {
                            ip,
                            domain: domain_normal(ws[q + 1]),
                            qtype: qtype_normal(
                                back_trimmed(
                                    without_prefixes(ws[q], "query["@),
                                    Class::Is(']'),
                                ),
                            ),
                            sport: if q > 0 {
                                port_behind(ws[q - 1])
                            } else {
                                0
                            },
                        },
                    )
                } else {
                    None
                },
                None => None,
            }
        },
        None => None,
    }
}

proof fn lemma_last_place(ws: Seq<Seq<char>>, w: Seq<char>, i: int, at: int)
    requires
        0 <= i <= at < ws.len(),
        ws[at] == w,
        last_place(ws, w, at + 1) is None,
    ensures
        last_place(ws, w, i) == Some(at),
    decreases at - i,
{
    if i < at {
        lemma_last_place(ws, w, i + 1, at);
    }
}

/// Reads the query in a line of `dnsmasq`.
pub fn parse_dnsmasq(line: &str) -> (r: Option<Lookup>)
    ensures
        opt_lookup(r) == dnsmasq_query(line@),
{
    let lc = chars(line);
    let f = split_words(lc.as_slice());
    let ghost ws = words(line@);
    assert(slices(f@) == ws);
    let n = f.len();
    let mut q: usize = 0;
    while q < n && !begins(f[q], "query[")
        invariant
            n == f@.len(),
            slices(f@) == ws,
            q <= n,
            place_starting(ws, "query["@, 0) == place_starting(ws, "query["@, q as int),
        decreases n - q,
    {
        assert(ws[q as int] == f@[q as int]@);
        q = q + 1;
    }
    if q >= n {
        return None;
    }
    assert(ws[q as int] == f@[q as int]@);
    if q >= n - 1 {
        return None;
    }
    assert(ws[q + 1] == f@[q + 1]@);
    let domain = norm_domain_of(f[q + 1]);
    if domain.as_str().is_empty() {
        return None;
    }
    let qtype = norm_qtype_of(
        trim_back(strip_prefixes(f[q], "query["), Class::Is(']')),
    );
    let mut sport: u16 = 0;
    if q > 0 {
        assert(ws[q - 1] == f@[q - 1]@);
        if let Some((_, p)) = part_last(f[q - 1], '/') {
            if let Some(v) = parse_u16(p) {
                sport = v;
            }
        }
    }
    let mut i: usize = n;
    while i > q + 2 && !spells(f[i - 1], "from")
        invariant
            n == f@.len(),
            slices(f@) == ws,
            q + 1 < n,
            q + 2 <= i <= n,
            last_place(ws, "from"@, i as int) is None,
        decreases i,
    {
        assert(ws[i - 1] == f@[i - 1]@);
        i = i - 1;
    }
    let ip: &[char];
    if i > q + 2 {
        assert(ws[i - 1] == f@[i - 1]@);
        proof {
            lemma_last_place(ws, "from"@, q + 2, i - 1);
        }
        if i >= n {
            return None;
        }
        assert(ws[i as int] == f@[i as int]@);
        ip = f[i];
    } else {
        if q == 0 {
            return None;
        }
        match part_last(f[q - 1], '/') {
            Some((h, _)) => {
                ip = h;
            },
            None => {
                return None;
            },
        }
    }
    if !is_ipish(ip) {
        return None;
    }
    Some(Lookup { ip: text(ip), domain, qtype, sport })
}

// ---------------------------------------------------------------------------
// sing-box
// ---------------------------------------------------------------------------

/// Who sent a request.
pub struct Asker {
    pub ip: String,
    pub port: u16,
}

impl View for Asker {
    type V = (Seq<char>, u16);

    open spec fn view(&self) -> (Seq<char>, u16) {
        (self.ip@, self.port)
    }
}

/// The requests that are remembered, the oldest first, and who sent each.
pub struct SingboxState {
    ids: VecDeque<String>,
    map: NameMap<Asker>,
}

/// The requests that are remembered, in mathematical values.
#[verifier::ext_equal]
pub struct SingboxView {
    pub ids: Seq<Seq<char>>,
    pub map: Entries<(Seq<char>, u16)>,
}

impl View for SingboxState {
    type V = SingboxView;

    closed spec fn view(&self) -> SingboxView {
        SingboxView { ids: texts(self.ids@), map: views(self.map@) }
    }
}

/// What is remembered after a request: a new one is put at the end, and when there
/// are too many, the oldest is forgotten.
pub open spec fn remembered(
    v: SingboxView,
    id: Seq<char>,
    who: (Seq<char>, u16),
) -> SingboxView {
    let map = put(v.map, id, who);
    if lookup(v.map, id) is Some {
        SingboxView { ids: v.ids, map }
    } else if v.ids.len() + 1 > REQUESTS_MAX {
        SingboxView {
            ids: v.ids.push(id).skip(1),
            map: without(map, v.ids.push(id)[0]),
        }
    } else {
        SingboxView { ids: v.ids.push(id), map }
    }
}

/// The number of the request that a line belongs to: the first word in the first
/// square brackets, where it is made of digits.
pub open spec fn request_id(line: Seq<char>) -> Option<Seq<char>> {
    match split_first(line, '[') {
        Some((_, r)) => match split_first(r, ']') {
            Some((inner, _)) => {
                let w = first_word(inner);
                if w.len() > 0 && all_in(w, Class::Digit) {
                    Some(w)
                } else {
                    None
                }
            },
            None => None,
        },
        None => None,
    }
}

/// The address and the port in `address:port` or `[address]:port`; `None` where
/// there is neither a bracket nor a colon.
pub open spec fn host_port(hp: Seq<char>) -> Option<(Seq<char>, Seq<char>)> {
    if hp.len() > 0 && hp[0] == '[' {
        match split_first(hp.skip(1), ']') {
            Some((h, rest)) => Some((h, front_trimmed(rest, Class::Is(':')))),
            None => Some((hp.skip(1), front_trimmed(Seq::empty(), Class::Is(':')))),
        }
    } else {
        split_last(hp, ':')
    }
}

/// Where a line says that a request came from; `None` where it says it in vain.
pub open spec fn sender_in(line: Seq<char>) -> Option<Option<(Seq<char>, u16)>> {
    match split_at_text(line, " from "@) {
        Some((_, rest)) => match host_port(first_word(rest)) {
            Some((ip, port)) => Some(
                if like_address(ip) {
                    Some(
                        (
                            ip,
                            match unsigned(port, 10, 65535) {
                                Some(n) => n as u16,
                                None => 0,
                            },
                        ),
                    )
                } else {
                    None
                },
            ),
            None => None,
        },
        None => Some(None),
    }
}

/// What stands behind the first of three marks of a query that the line holds.
pub open spec fn behind_mark(line: Seq<char>) -> Option<Seq<char>> {
    match split_at_text(line, " dns: exchange "@) {
        Some((_, r)) => Some(r),
        None => match split_at_text(line, " dns: exchanged "@) {
            Some((_, r)) => Some(r),
            None => match split_at_text(line, " dns: lookup "@) {
                Some((_, r)) => Some(r),
                None => None,
            },
        },
    }
}

/// The query in a line of the request `id`, where it is known who sent that.
pub open spec fn singbox_query(
    map: Entries<(Seq<char>, u16)>,
    id: Seq<char>,
    line: Seq<char>,
) -> Option<LookupView> {
    match behind_mark(line) {
        Some(rest) => {
            let d = domain_normal(first_word(rest));
            if first_word(rest).len() == 0 || d.len() == 0 {
                None
            } else {
                match lookup(map, id) {
                    Some((ip, port)) => Some(
                        LookupView { ip, domain: d, qtype: Seq::empty(), sport: port },
                    ),
                    None => None,
                }
            }
        },
        None => None,
    }
}

/// What is remembered after a line, and the query that it completes.
pub open spec fn singbox_step(v: SingboxView, line: Seq<char>) -> (
    SingboxView,
    Option<LookupView>,
) {
    match request_id(line) {
        Some(id) => match sender_in(line) {
            Some(Some(who)) => {
                let w = remembered(v, id, who);
                (w, singbox_query(w.map, id, line))
            },
            Some(None) => (v, singbox_query(v.map, id, line)),
            None => (v, None),
        },
        None => (v, None),
    }
}

/// Whether what is remembered hangs together: each request once, each with its
/// sender, and not too many.
pub open spec fn consistent(v: SingboxView) -> bool {
    &&& ordered(v.map)
    &&& v.ids.len() <= REQUESTS_MAX
    &&& v.ids.no_duplicates()
    &&& forall|id: Seq<char>| #[trigger] v.ids.contains(id) <==> lookup(v.map, id) is Some
}

/// Remembering keeps what is remembered consistent, and the newest request is always
/// known.
pub proof fn law_requests_stay_consistent(
    v: SingboxView,
    id: Seq<char>,
    who: (Seq<char>, u16),
)
    requires
        consistent(v),
    ensures
        consistent(remembered(v, id, who)),
        lookup(remembered(v, id, who).map, id) == Some(who),
{
    let w = remembered(v, id, who);
    let map = put(v.map, id, who);
    law_put_then_lookup(v.map, id, who, id);
    if lookup(v.map, id) is Some {
        assert forall|o: Seq<char>| #[trigger] w.ids.contains(o) <==> lookup(w.map, o) is Some by {
            law_put_then_lookup(v.map, id, who, o);
            assert(v.ids.contains(o) <==> lookup(v.map, o) is Some);
        }
    } else {
        assert(!v.ids.contains(id));
        let all = v.ids.push(id);
        assert(all.no_duplicates()) by {
            assert forall|i: int, j: int|
                0 <= i < all.len() && 0 <= j < all.len() && i != j implies all[i] != all[j] by {
                if i == v.ids.len() {
                    assert(v.ids.contains(v.ids[j]));
                } else if j == v.ids.len() {
                    assert(v.ids.contains(v.ids[i]));
                }
            }
        }
        assert forall|o: Seq<char>| #[trigger] all.contains(o) <==> lookup(map, o) is Some by {
            law_put_then_lookup(v.map, id, who, o);
            assert(v.ids.contains(o) <==> lookup(v.map, o) is Some);
            if v.ids.contains(o) {
                let k = choose|k: int| 0 <= k < v.ids.len() && v.ids[k] == o;
                assert(all[k] == o);
            }
            if o == id {
                assert(all[v.ids.len() as int] == id);
            }
            if all.contains(o) && o != id {
                let k = choose|k: int| 0 <= k < all.len() && all[k] == o;
                assert(v.ids[k] == o);
            }
        }
        if v.ids.len() + 1 > REQUESTS_MAX {
            let gone = all[0];
            assert(gone != id) by {
                assert(all[0] != all[all.len() - 1]);
            }
            assert(w.ids == all.skip(1));
            assert(w.ids.no_duplicates()) by {
                assert forall|i: int, j: int|
                    0 <= i < w.ids.len() && 0 <= j < w.ids.len() && i != j implies w.ids[i]
                    != w.ids[j] by {
                    assert(all[i + 1] != all[j + 1]);
                }
            }
            law_without_then_lookup(map, gone, id);
            assert forall|o: Seq<char>| #[trigger]
                w.ids.contains(o) <==> lookup(w.map, o) is Some by {
                law_without_then_lookup(map, gone, o);
                assert(all.contains(o) <==> lookup(map, o) is Some);
                if w.ids.contains(o) {
                    let k = choose|k: int| 0 <= k < w.ids.len() && w.ids[k] == o;
                    assert(all[k + 1] == o);
                    assert(all[0] != all[k + 1]);
                }
                if all.contains(o) && o != gone {
                    let k = choose|k: int| 0 <= k < all.len() && all[k] == o;
                    assert(w.ids[k - 1] == o);
                }
            }
        }
    }
}

impl SingboxState {
    /// Whether the state is consistent.
    pub closed spec fn wf(&self) -> bool {
        self.map.wf() && consistent(self@)
    }

    /// Nothing remembered.
    pub fn new() -> (r: SingboxState)
        ensures
            r.wf(),
            r@ == (SingboxView { ids: Seq::empty(), map: Seq::empty() }),
    {
        let r = SingboxState { ids: VecDeque::new(), map: NameMap::new() };
        assert(r@.ids =~= Seq::<Seq<char>>::empty());
        assert(r@.map =~= Seq::<(Seq<char>, (Seq<char>, u16))>::empty());
        r
    }

    /// Remembers who sent a request.
    fn remember(&mut self, id: String, who: Asker)
        requires
            old(self).wf(),
        ensures
            final(self).wf(),
            final(self)@ == remembered(old(self)@, id@, who@),
    {
        let ghost v = self@;
        let ghost idv = id@;
        let ghost whov = who@;
        proof {
            lemma_views(self.map@, id@, who);
            law_requests_stay_consistent(v, id@, who@);
        }
        let known = self.map.contains_key(id.as_str());
        let copy = owned(id.as_str());
        self.map.insert(copy, who);
        if !known {
            self.ids.push_back(id);
            assert(texts(self.ids@) =~= v.ids.push(idv));
            if self.ids.len() > REQUESTS_MAX {
                let ghost all = texts(self.ids@);
                let ghost mid = self.map@;
                if let Some(gone) = self.ids.pop_front() {
                    proof {
                        assert(gone@ == all[0]);
                        lemma_views(mid, gone@, arbitrary());
                    }
                    let _ = self.map.remove(gone.as_str());
                    assert(texts(self.ids@) =~= all.skip(1));
                }
            }
        }
        assert(self@ =~= remembered(v, idv, whov));
    }

    /// Takes in a line, and gives the query that it completes.
    pub fn feed(&mut self, line: &str) -> (r: Option<Lookup>)
        requires
            old(self).wf(),
        ensures
            final(self).wf(),
            (final(self)@, opt_lookup(r)) == singbox_step(old(self)@, line@),
    {
        let lc = chars(line);
        let l = lc.as_slice();
        let id = match read_request_id(l) {
            Some(id) => id,
            None => {
                return None;
            },
        };
        match read_sender(l) {
            Some(Some(who)) => {
                self.remember(owned(id.as_str()), who);
            },
            Some(None) => {},
            None => {
                return None;
            },
        }
        match read_mark(l) {
            Some(rest) => {
                let w = word(rest);
                if w.len() == 0 {
                    return None;
                }
                let d = norm_domain_of(w);
                if d.as_str().is_empty() {
                    return None;
                }
                proof {
                    lemma_views(self.map@, id@, arbitrary());
                }
                match self.map.get(id.as_str()) {
                    Some(a) => {
                        let q = Lookup {
                            ip: owned(a.ip.as_str()),
                            domain: d,
                            qtype: String::new(),
                            sport: a.port,
                        };
                        assert(q@.qtype =~= Seq::<char>::empty());
                        Some(q)
                    },
                    None => None,
                }
            },
            None => None,
        }
    }
}

/// Reads the number of the request that a line belongs to.
fn read_request_id(l: &[char]) -> (r: Option<String>)
    ensures
        match r {
            Some(s) => request_id(l@) == Some(s@),
            None => request_id(l@) is None,
        },
{
    match part_first(l, '[') {
        Some((_, r)) => match part_first(r, ']') {
            Some((inner, _)) => {
                let w = word(inner);
                if w.len() > 0 && only(w, Class::Digit) {
                    Some(text(w))
                } else {
                    None
                }
            },
            None => None,
        },
        None => None,
    }
}

/// Reads where a request came from.
fn read_sender(l: &[char]) -> (r: Option<Option<Asker>>)
    ensures
        match r {
            Some(Some(a)) => sender_in(l@) == Some(Some(a@)),
            Some(None) => sender_in(l@) == Some(None::<(Seq<char>, u16)>),
            None => sender_in(l@) is None,
        },
{
    let rest = match part_text(l, " from ") {
        Some((_, rest)) => rest,
        None => {
            return Some(None);
        },
    };
    let hp = word(rest);
    let ip: &[char];
    let port: &[char];
    if hp.len() > 0 && hp[0] == '[' {
        let inner = slice_subrange(hp, 1, hp.len());
        assert(inner@ =~= hp@.skip(1));
        match part_first(inner, ']') {
            Some((h, more)) => {
                ip = h;
                port = trim_front(more, Class::Is(':'));
            },
            None => {
                ip = inner;
                let none = slice_subrange(hp, 0, 0);
                assert(none@ =~= Seq::<char>::empty());
                port = trim_front(none, Class::Is(':'));
            },
        }
    } else {
        match part_last(hp, ':') {
            Some((h, p)) => {
                ip = h;
                port = p;
            },
            None => {
                return None;
            },
        }
    }
    if is_ipish(ip) {
        let n: u16 = match parse_u16(port) {
            Some(n) => n,
            None => 0,
        };
        Some(Some(Asker { ip: text(ip), port: n }))
    } else {
        Some(None)
    }
}

/// Finds what stands behind the mark of a query.
fn read_mark<'a>(l: &'a [char]) -> (r: Option<&'a [char]>)
    ensures
        match r {
            Some(s) => behind_mark(l@) == Some(s@),
            None => behind_mark(l@) is None,
        },
{
    if let Some((_, r)) = part_text(l, " dns: exchange ") {
        return Some(r);
    }
    if let Some((_, r)) = part_text(l, " dns: exchanged ") {
        return Some(r);
    }
    match part_text(l, " dns: lookup ") {
        Some((_, r)) => Some(r),
        None => None,
    }
}

// ---------------------------------------------------------------------------
// Events
// ---------------------------------------------------------------------------

/// The event of a query; the router's own are none.
pub open spec fn query_event(q: Option<LookupView>) -> Option<EventView> {
    match q {
        Some(q) => if own_address(q.ip) {
            None
        } else {
            Some(
                EventView::Dns { ip: q.ip, domain: q.domain, qtype: q.qtype, sport: q.sport },
            )
        },
        None => None,
    }
}

/// Makes the event of a query.
pub fn to_event(q: Option<Lookup>) -> (r: Option<Event>)
    ensures
        opt_event(r) == query_event(opt_lookup(q)),
{
    match q {
        Some(q) => {
            if is_loopback(q.ip.as_str()) {
                None
            } else {
                Some(Event::Dns { ip: q.ip, domain: q.domain, qtype: q.qtype, sport: q.sport })
            }
        },
        None => None,
    }
}

/// Reads a line of a log of the given kind.
pub fn log_event(mode: &str, sb: &mut SingboxState, line: &str) -> (r: Option<Event>)
    requires
        old(sb).wf(),
    ensures
        final(sb).wf(),
        mode@ == "singbox_log"@ ==> (final(sb)@, opt_event(r)) == (
            singbox_step(old(sb)@, line@).0,
            query_event(singbox_step(old(sb)@, line@).1),
        ),
        mode@ != "singbox_log"@ ==> *final(sb) == *old(sb) && opt_event(r) == query_event(
            dnsmasq_query(line@),
        ),
{
    if eq(mode, "singbox_log") {
        let q = sb.feed(line);
        to_event(q)
    } else {
        to_event(parse_dnsmasq(line))
    }
}

/// The router itself is never reported as a client.
pub proof fn law_router_is_no_client(q: Option<LookupView>)
    ensures
        match query_event(q) {
            Some(EventView::Dns { ip, domain, qtype, sport }) => !own_address(ip),
            Some(_) => false,
            None => true,
        },
{
}

/// However malformed a log is, it brings in no more query types than those that are
/// told apart and one for all others.
pub proof fn law_query_types_are_few(t: Seq<char>)
    ensures
        known_qtype(qtype_normal(t)) || qtype_normal(t) == "OTHER"@,
{
}

} // verus!
