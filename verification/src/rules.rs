//! The fingerprint rules: what a domain, a host name, a service, a port or the
//! way in which a device asks says about its brand, system and kind.

use crate::names::{law_put_then_lookup, lookup, lookup_or, NameMap};
use crate::text::{
    append_str, begins, chars, contains, ends, ends_with, eq, holds, in_class, lead, lemma_lead,
    lower, mentions, owned, part_first, same, split_first, starts, starts_with, text, to_lower,
    Class,
};
use crate::util::{domain_normal, norm_domain};
use vstd::prelude::*;
use vstd::utf8::encode_utf8;

verus! {

/// A rule about the names that a device asks for.
pub struct DnsRule {
    pub id: String,
    /// The end of the name, at a dot.
    pub suffix: String,
    /// Anywhere in the name.
    pub contains: String,
    /// The start of the name.
    pub prefix: String,
    /// The query type that is asked with.
    pub qtype: String,
    pub brand: String,
    pub os: String,
    pub dtype: String,
    pub kind: String,
    pub weight: u32,
}

/// A closed range of a measure. Bounds and measures are integers that order as
/// the fractions they stand for.
#[derive(Clone, Copy)]
pub struct Range {
    pub lo: i32,
    pub hi: i32,
}

/// A rule about the way in which a device asks, whatever it asks for.
pub struct StackRule {
    pub id: String,
    pub desc: String,
    /// How many queries must have been seen.
    pub min_samples: u32,
    /// The shares of query types.
    pub ratio: NameMap<Range>,
    /// How far the source ports are spread.
    pub port_spread: Option<Range>,
    /// How often A and AAAA are asked for together.
    pub pair_a4: Option<Range>,
    /// How often A and HTTPS are asked for together.
    pub pair_https: Option<Range>,
    pub brand: String,
    pub os: String,
    pub dtype: String,
    pub weight: u32,
}

/// A rule about the far end of a long connection.
pub struct PeerRule {
    pub id: String,
    /// `tcp`, `udp`, or empty for both.
    pub proto: String,
    pub port: u16,
    /// The start of the far address; empty for any.
    pub prefix: String,
    pub brand: String,
    pub os: String,
    pub dtype: String,
    pub kind: String,
    pub weight: u32,
}

/// A rule that takes weight away from a conclusion.
pub struct Penalty {
    pub id: String,
    /// The condition's name.
    pub cond: String,
    pub brand: String,
    pub os: String,
    pub dtype: String,
    pub weight: i32,
    /// The brands for which the softer weight is used.
    pub soften_brands: Vec<String>,
    pub soften_weight: i32,
}

/// Two names of which one says more than the other.
pub struct Subsume {
    pub specific: String,
    pub generic: String,
}

/// When a device counts as one that asks on behalf of others.
pub struct Forwarder {
    pub dtype: String,
    pub weight: u32,
    pub min_brands: usize,
}

/// A rule about an open port.
pub struct PortRule {
    pub id: String,
    pub kind: String,
    pub port: u16,
    pub brand: String,
    pub os: String,
    pub dtype: String,
    pub platform: String,
    pub weight: u32,
}

/// A rule about a text.
pub struct TextRule {
    pub id: String,
    /// `prefix`, `exact`, or anything else for containment.
    pub mode: String,
    pub kind: String,
    pub value: String,
    pub brand: String,
    pub os: String,
    pub dtype: String,
    pub platform: String,
    pub weight: u32,
}

/// What a rule list gives, by value.
pub open spec fn seen<T>(r: Option<&T>) -> Option<T> {
    match r {
        Some(x) => Some(*x),
        None => None,
    }
}

/// What a list of references refers to.
pub open spec fn seen_all<T>(v: Seq<&T>) -> Seq<T> {
    v.map_values(|x: &T| *x)
}

/// What a rule is called where it is shown.
pub open spec fn rule_label(r: DnsRule) -> Seq<char> {
    if r.suffix@.len() > 0 {
        r.suffix@
    } else if r.prefix@.len() > 0 {
        r.prefix@ + seq!['*']
    } else {
        seq!['*'] + r.contains@ + seq!['*']
    }
}

impl DnsRule {
    /// What the rule is called where it is shown.
    pub fn label(&self) -> (r: String)
        ensures
            r@ == rule_label(*self),
    {
        if !self.suffix.as_str().is_empty() {
            owned(self.suffix.as_str())
        } else if !self.prefix.as_str().is_empty() {
            let mut out = owned(self.prefix.as_str());
            out.push('*');
            assert(out@ =~= self.prefix@ + seq!['*']);
            out
        } else {
            let mut out = String::new();
            out.push('*');
            append_str(&mut out, self.contains.as_str());
            out.push('*');
            assert(out@ =~= seq!['*'] + self.contains@ + seq!['*']);
            out
        }
    }
}

/// Whether a text rule fits the text `hay`, whatever the case of ASCII letters.
pub open spec fn text_hit(r: TextRule, hay: Seq<char>) -> bool {
    if r.mode@ == "prefix"@ {
        starts(lower(hay), lower(r.value@))
    } else if r.mode@ == "exact"@ {
        lower(hay) == lower(r.value@)
    } else {
        contains(lower(hay), lower(r.value@))
    }
}

impl TextRule {
    /// Whether the rule fits a text.
    pub fn hit(&self, hay: &str) -> (r: bool)
        ensures
            r == text_hit(*self, hay@),
    {
        let hc = chars(hay);
        let vc = chars(self.value.as_str());
        let h = to_lower(hc.as_slice());
        let v = to_lower(vc.as_slice());
        if eq(self.mode.as_str(), "prefix") {
            starts_with(h.as_slice(), v.as_slice())
        } else if eq(self.mode.as_str(), "exact") {
            same(h.as_slice(), v.as_slice())
        } else {
            holds(h.as_slice(), v.as_slice())
        }
    }
}

/// The first rule that fits.
pub open spec fn first_hit(rs: Seq<TextRule>, hay: Seq<char>) -> Option<TextRule>
    decreases rs.len(),
{
    if rs.len() == 0 {
        None
    } else if text_hit(rs[0], hay) {
        Some(rs[0])
    } else {
        first_hit(rs.skip(1), hay)
    }
}

/// The rules that fit, in their order.
pub open spec fn hits(rs: Seq<TextRule>, hay: Seq<char>) -> Seq<TextRule> {
    rs.filter(|r: TextRule| text_hit(r, hay))
}

/// Finds the first rule that fits.
pub fn find_hit<'a>(rs: &'a Vec<TextRule>, hay: &str) -> (r: Option<&'a TextRule>)
    ensures
        seen(r) == first_hit(rs@, hay@),
{
    assert(rs@.skip(0) =~= rs@);
    for i in 0..rs.len()
        invariant
            first_hit(rs@, hay@) == first_hit(rs@.skip(i as int), hay@),
    {
        if rs[i].hit(hay) {
            return Some(&rs[i]);
        }
        assert(rs@.skip(i as int).skip(1) =~= rs@.skip(i + 1));
    }
    None
}

/// Finds all rules that fit.
pub fn find_hits<'a>(rs: &'a Vec<TextRule>, hay: &str) -> (r: Vec<&'a TextRule>)
    ensures
        seen_all(r@) == hits(rs@, hay@),
{
    let mut out: Vec<&'a TextRule> = Vec::new();
    let ghost p = |r: TextRule| text_hit(r, hay@);
    assert(seen_all(out@) =~= rs@.take(0).filter(p)) by {
        reveal(Seq::filter);
    }
    for i in 0..rs.len()
        invariant
            p == (|r: TextRule| text_hit(r, hay@)),
            seen_all(out@) == rs@.take(i as int).filter(p),
    {
        let ghost was = seen_all(out@);
        assert(rs@.take(i + 1).drop_last() =~= rs@.take(i as int));
        if rs[i].hit(hay) {
            out.push(&rs[i]);
            assert(seen_all(out@) =~= was.push(rs@[i as int]));
        }
        assert(seen_all(out@) == rs@.take(i + 1).filter(p)) by {
            reveal(Seq::filter);
        }
    }
    assert(rs@.take(rs@.len() as int) =~= rs@);
    out
}

// ---------------------------------------------------------------------------
// Names that a device asks for
// ---------------------------------------------------------------------------

/// Whether a rule tests more than the end of a name.
pub open spec fn behavioural(r: DnsRule) -> bool {
    r.contains@.len() > 0 || r.prefix@.len() > 0 || r.qtype@.len() > 0
}

/// Whether `domain` is `suffix` or ends in it behind a dot.
pub open spec fn under(suffix: Seq<char>, domain: Seq<char>) -> bool {
    domain == suffix || (ends(domain, suffix) && domain.len() > suffix.len() && domain[domain.len()
        - suffix.len() - 1] == '.')
}

/// Whether a rule that tests more than the end of a name fits a query. One that
/// tests nothing but the query type fits none.
pub open spec fn query_hit(r: DnsRule, domain: Seq<char>, qtype: Seq<char>) -> bool {
    &&& r.qtype@.len() > 0 ==> lower(r.qtype@) == lower(qtype)
    &&& r.contains@.len() > 0 ==> contains(domain, r.contains@)
    &&& r.prefix@.len() > 0 ==> starts(domain, r.prefix@)
    &&& r.suffix@.len() > 0 ==> under(r.suffix@, domain)
    &&& r.contains@.len() > 0 || r.prefix@.len() > 0 || r.suffix@.len() > 0
}

/// The places of the rules among the first `n` that test more than the end of a
/// name.
pub open spec fn pattern_places(rs: Seq<DnsRule>, n: int) -> Seq<usize>
    decreases n,
{
    if n <= 0 {
        Seq::empty()
    } else if behavioural(rs[n - 1]) {
        pattern_places(rs, n - 1).push((n - 1) as usize)
    } else {
        pattern_places(rs, n - 1)
    }
}

/// The place of the first rule among the first `n` whose whole test is that a
/// name ends in `key`.
pub open spec fn suffix_place(rs: Seq<DnsRule>, key: Seq<char>, n: int) -> Option<usize>
    decreases n,
{
    if n <= 0 {
        None
    } else if suffix_place(rs, key, n - 1) is Some {
        suffix_place(rs, key, n - 1)
    } else if !behavioural(rs[n - 1]) && domain_normal(rs[n - 1].suffix@) == key {
        Some((n - 1) as usize)
    } else {
        None
    }
}

/// The first rule that tests more than the end of a name and fits the query.
pub open spec fn pattern_match(
    rs: Seq<DnsRule>,
    domain: Seq<char>,
    qtype: Seq<char>,
    from: int,
) -> Option<DnsRule>
    decreases rs.len() - from,
{
    if from < 0 || from >= rs.len() {
        None
    } else if behavioural(rs[from]) && query_hit(rs[from], domain, qtype) {
        Some(rs[from])
    } else {
        pattern_match(rs, domain, qtype, from + 1)
    }
}

/// The first rule for the whole of `domain`, else for what stands behind its
/// first dot, and so on: the rule with the longest end that fits.
pub open spec fn suffix_match(rs: Seq<DnsRule>, domain: Seq<char>) -> Option<DnsRule>
    decreases domain.len(),
{
    match suffix_place(rs, domain, rs.len() as int) {
        Some(i) => Some(rs[i as int]),
        None => match split_first(domain, '.') {
            Some((_, tail)) if tail.len() < domain.len() => suffix_match(rs, tail),
            _ => None,
        },
    }
}

/// The rule that a query falls under.
pub open spec fn dns_match(
    rs: Seq<DnsRule>,
    domain: Seq<char>,
    qtype: Seq<char>,
) -> Option<DnsRule> {
    match pattern_match(rs, domain, qtype, 0) {
        Some(r) => Some(r),
        None => suffix_match(rs, domain),
    }
}

/// Whether `domain` ends in `suffix` behind a dot, or is it.
fn suffix_hit(suffix: &[char], domain: &[char]) -> (r: bool)
    ensures
        r == under(suffix@, domain@),
{
    if same(domain, suffix) {
        return true;
    }
    domain.len() > suffix.len() && ends_with(domain, suffix) && domain[domain.len()
        - suffix.len() - 1] == '.'
}

/// Whether a rule that tests more than the end of a name fits a query.
fn fits_query(r: &DnsRule, domain: &[char], qtype: &[char]) -> (b: bool)
    ensures
        b == query_hit(*r, domain@, qtype@),
{
    let has_type = !r.qtype.as_str().is_empty();
    let has_part = !r.contains.as_str().is_empty();
    let has_front = !r.prefix.as_str().is_empty();
    let has_end = !r.suffix.as_str().is_empty();
    if has_type {
        let t = chars(r.qtype.as_str());
        let a = to_lower(t.as_slice());
        let b = to_lower(qtype);
        if !same(a.as_slice(), b.as_slice()) {
            return false;
        }
    }
    if has_part && !mentions(domain, r.contains.as_str()) {
        return false;
    }
    if has_front && !begins(domain, r.prefix.as_str()) {
        return false;
    }
    if has_end {
        let e = chars(r.suffix.as_str());
        if !suffix_hit(e.as_slice(), domain) {
            return false;
        }
    }
    has_part || has_front || has_end
}

/// All rules, with an index of the rules about names.
pub struct Rules {
    pub version: u32,
    pub dns: Vec<DnsRule>,
    pub hostname: Vec<TextRule>,
    pub mdns_service: Vec<TextRule>,
    pub mdns_model: Vec<TextRule>,
    pub upnp: Vec<TextRule>,
    /// The vendor class of a DHCP request.
    pub dhcp_vendor: Vec<TextRule>,
    /// The parameter list of a DHCP request, whose order matters.
    pub dhcp_fp: Vec<TextRule>,
    /// What brand the holder of a hardware prefix stands for.
    pub oui_brand: Vec<TextRule>,
    pub stack: Vec<StackRule>,
    pub forwarder: Option<Forwarder>,
    /// The fingerprint of a TCP stack.
    pub tcp: Vec<TextRule>,
    /// The agent of a plain HTTP request.
    pub ua: Vec<TextRule>,
    pub port: Vec<PortRule>,
    /// What a service says when one connects.
    pub banner: Vec<TextRule>,
    pub subsume: Vec<Subsume>,
    pub penalty: Vec<Penalty>,
    pub peer: Vec<PeerRule>,
    /// The client name of an MQTT connection.
    pub mqtt: Vec<TextRule>,
    pub index: Index,
}

/// An index of the rules about names.
pub struct Index {
    /// For each ending, the first rule whose whole test it is.
    ends: NameMap<usize>,
    /// The rules that test more than an ending.
    patterns: Vec<usize>,
}

impl Index {
    /// Whether the index fits a list of rules.
    pub closed spec fn fits(&self, rs: Seq<DnsRule>) -> bool {
        &&& self.ends.wf()
        &&& self.patterns@ == pattern_places(rs, rs.len() as int)
        &&& forall|k: Seq<char>| #[trigger]
            lookup(self.ends@, k) == suffix_place(rs, k, rs.len() as int)
    }

    /// The index of an empty list.
    fn blank() -> (r: Index)
        ensures
            r.fits(Seq::empty()),
    {
        Index { ends: NameMap::new(), patterns: Vec::new() }
    }
}

/// How a device asks, in measures.
pub struct Shape {
    /// How many queries have been seen.
    pub samples: u32,
    /// The share of each query type.
    pub ratios: NameMap<i32>,
    /// How far the source ports are spread; `None` with too few of them.
    pub spread: Option<i32>,
    pub pair_a4: i32,
    pub pair_https: i32,
}

/// Whether a measure lies in a range.
pub open spec fn within(v: i32, r: Range) -> bool {
    r.lo <= v <= r.hi
}

/// Whether every share that a rule speaks of lies in its range. The share of a
/// type that was never asked with is 0.
pub open spec fn shares_fit(r: StackRule, s: Shape) -> bool {
    forall|i: int|
        0 <= i < r.ratio@.len() ==> within(
            lookup_or(s.ratios@, (#[trigger] r.ratio@[i]).0, 0i32),
            r.ratio@[i].1,
        )
}

/// Whether a rule about the way of asking fits.
pub open spec fn stack_hit(r: StackRule, s: Shape) -> bool {
    &&& s.samples >= r.min_samples && s.samples >= 1
    &&& shares_fit(r, s)
    &&& r.port_spread matches Some(range) ==> (s.spread matches Some(v) && within(v, range))
    &&& r.pair_a4 matches Some(range) ==> within(s.pair_a4, range)
    &&& r.pair_https matches Some(range) ==> within(s.pair_https, range)
}

/// The rules about the way of asking that fit, in their order.
pub open spec fn stack_hits(rs: Seq<StackRule>, s: Shape) -> Seq<StackRule> {
    rs.filter(|r: StackRule| stack_hit(r, s))
}

/// Whether a rule fits the far end of a connection.
pub open spec fn peer_hit(r: PeerRule, proto: Seq<char>, port: u16, remote: Seq<char>) -> bool {
    r.port == port && (r.proto@.len() == 0 || r.proto@ == proto) && (r.prefix@.len() == 0 || starts(
        remote,
        r.prefix@,
    ))
}

/// The first rule that fits the far end of a connection.
pub open spec fn peer_match(
    rs: Seq<PeerRule>,
    proto: Seq<char>,
    port: u16,
    remote: Seq<char>,
) -> Option<PeerRule>
    decreases rs.len(),
{
    if rs.len() == 0 {
        None
    } else if peer_hit(rs[0], proto, port, remote) {
        Some(rs[0])
    } else {
        peer_match(rs.skip(1), proto, port, remote)
    }
}

/// The first rule about far ends with the identifier `id`.
pub open spec fn peer_named(rs: Seq<PeerRule>, id: Seq<char>) -> Option<PeerRule>
    decreases rs.len(),
{
    if rs.len() == 0 {
        None
    } else if rs[0].id@ == id {
        Some(rs[0])
    } else {
        peer_named(rs.skip(1), id)
    }
}

/// The first rule about names with the identifier `id`.
pub open spec fn dns_named(rs: Seq<DnsRule>, id: Seq<char>) -> Option<DnsRule>
    decreases rs.len(),
{
    if rs.len() == 0 {
        None
    } else if rs[0].id@ == id {
        Some(rs[0])
    } else {
        dns_named(rs.skip(1), id)
    }
}

/// The first rule about the port `p`.
pub open spec fn port_match(rs: Seq<PortRule>, p: u16) -> Option<PortRule>
    decreases rs.len(),
{
    if rs.len() == 0 {
        None
    } else if rs[0].port == p {
        Some(rs[0])
    } else {
        port_match(rs.skip(1), p)
    }
}

/// How many bytes two byte strings have in common at their start.
pub open spec fn common(a: Seq<u8>, b: Seq<u8>) -> nat
    decreases a.len(),
{
    if a.len() == 0 || b.len() == 0 || a[0] != b[0] {
        0
    } else {
        1 + common(a.skip(1), b.skip(1))
    }
}

/// The first rule whose value is `fp` itself.
pub open spec fn exact_list(rs: Seq<TextRule>, fp: Seq<char>) -> Option<TextRule>
    decreases rs.len(),
{
    if rs.len() == 0 {
        None
    } else if rs[0].value@ == fp {
        Some(rs[0])
    } else {
        exact_list(rs.skip(1), fp)
    }
}

/// The first of the rules among the first `n` that have most in common with
/// `fp`, and how much that is. A rule counts where at least eight bytes and half
/// of its value are common.
pub open spec fn nearest(rs: Seq<TextRule>, fp: Seq<char>, n: int) -> Option<(int, nat)>
    decreases n,
{
    if n <= 0 {
        None
    } else {
        let before = nearest(rs, fp, n - 1);
        let value = encode_utf8(rs[n - 1].value@);
        let c = common(value, encode_utf8(fp));
        if c >= value.len() / 2 && c >= 8 && (before matches Some((_, m)) ==> c > m) {
            Some((n - 1, c))
        } else {
            before
        }
    }
}

/// The rule for a DHCP parameter list: the one with this very list, else the
/// nearest.
pub open spec fn list_match(rs: Seq<TextRule>, fp: Seq<char>) -> Option<TextRule> {
    match exact_list(rs, fp) {
        Some(r) => Some(r),
        None => match nearest(rs, fp, rs.len() as int) {
            Some((i, _)) => Some(rs[i]),
            None => None,
        },
    }
}

/// Counts the bytes that two byte strings have in common at their start.
fn count_common(a: &[u8], b: &[u8]) -> (n: usize)
    ensures
        n == common(a@, b@),
        n <= a@.len(),
{
    let mut n: usize = 0;
    assert(a@.skip(0) =~= a@);
    assert(b@.skip(0) =~= b@);
    while n < a.len() && n < b.len() && a[n] == b[n]
        invariant
            n <= a@.len(),
            n <= b@.len(),
            common(a@, b@) == n + common(a@.skip(n as int), b@.skip(n as int)),
        decreases a@.len() - n,
    {
        assert(a@.skip(n as int).skip(1) =~= a@.skip(n + 1));
        assert(b@.skip(n as int).skip(1) =~= b@.skip(n + 1));
        n = n + 1;
    }
    n
}

/// Puts the items of `front` before those of `back`.
fn ahead<T>(front: Vec<T>, back: Vec<T>) -> (r: Vec<T>)
    ensures
        r@ == front@ + back@,
{
    let mut out = front;
    let mut rest = back;
    out.append(&mut rest);
    out
}

impl Default for Rules {
    /// No rules.
    fn default() -> (r: Rules)
        ensures
            r.wf(),
            r.is_blank(),
    {
        Rules {
            version: 0,
            dns: Vec::new(),
            hostname: Vec::new(),
            mdns_service: Vec::new(),
            mdns_model: Vec::new(),
            upnp: Vec::new(),
            dhcp_vendor: Vec::new(),
            dhcp_fp: Vec::new(),
            oui_brand: Vec::new(),
            stack: Vec::new(),
            forwarder: None,
            tcp: Vec::new(),
            ua: Vec::new(),
            port: Vec::new(),
            banner: Vec::new(),
            subsume: Vec::new(),
            penalty: Vec::new(),
            peer: Vec::new(),
            mqtt: Vec::new(),
            index: Index::blank(),
        }
    }
}

impl Rules {
    /// Where rules of the user's own are kept.
    pub const LOCAL: &'static str = "/etc/whohere/rules.local.json";

    /// Whether the index fits the rules about names.
    pub open spec fn wf(&self) -> bool {
        self.index.fits(self.dns@)
    }

    /// Whether there are no rules.
    pub open spec fn is_blank(&self) -> bool {
        &&& self.version == 0
        &&& self.dns@.len() == 0
        &&& self.hostname@.len() == 0
        &&& self.mdns_service@.len() == 0
        &&& self.mdns_model@.len() == 0
        &&& self.upnp@.len() == 0
        &&& self.dhcp_vendor@.len() == 0
        &&& self.dhcp_fp@.len() == 0
        &&& self.oui_brand@.len() == 0
        &&& self.stack@.len() == 0
        &&& self.forwarder is None
        &&& self.tcp@.len() == 0
        &&& self.ua@.len() == 0
        &&& self.port@.len() == 0
        &&& self.banner@.len() == 0
        &&& self.subsume@.len() == 0
        &&& self.penalty@.len() == 0
        &&& self.peer@.len() == 0
        &&& self.mqtt@.len() == 0
    }

    /// Whether these are the rules of `a` with those of `b` before them.
    pub open spec fn merges(&self, a: Rules, b: Rules) -> bool {
        &&& self.version == if b.version > a.version {
            b.version
        } else {
            a.version
        }
        &&& self.dns@ == b.dns@ + a.dns@
        &&& self.hostname@ == b.hostname@ + a.hostname@
        &&& self.mdns_service@ == b.mdns_service@ + a.mdns_service@
        &&& self.mdns_model@ == b.mdns_model@ + a.mdns_model@
        &&& self.upnp@ == b.upnp@ + a.upnp@
        &&& self.dhcp_vendor@ == b.dhcp_vendor@ + a.dhcp_vendor@
        &&& self.dhcp_fp@ == b.dhcp_fp@ + a.dhcp_fp@
        &&& self.oui_brand@ == b.oui_brand@ + a.oui_brand@
        &&& self.stack@ == b.stack@ + a.stack@
        &&& self.forwarder == if b.forwarder is Some {
            b.forwarder
        } else {
            a.forwarder
        }
        &&& self.tcp@ == b.tcp@ + a.tcp@
        &&& self.ua@ == b.ua@ + a.ua@
        &&& self.port@ == b.port@ + a.port@
        &&& self.banner@ == b.banner@ + a.banner@
        &&& self.subsume@ == b.subsume@ + a.subsume@
        &&& self.penalty@ == b.penalty@ + a.penalty@
        &&& self.peer@ == b.peer@ + a.peer@
        &&& self.mqtt@ == b.mqtt@ + a.mqtt@
    }

    /// Whether the rules are those of `o`, whatever the index.
    pub open spec fn same_rules(&self, o: Rules) -> bool {
        &&& self.version == o.version
        &&& self.dns == o.dns
        &&& self.hostname == o.hostname
        &&& self.mdns_service == o.mdns_service
        &&& self.mdns_model == o.mdns_model
        &&& self.upnp == o.upnp
        &&& self.dhcp_vendor == o.dhcp_vendor
        &&& self.dhcp_fp == o.dhcp_fp
        &&& self.oui_brand == o.oui_brand
        &&& self.stack == o.stack
        &&& self.forwarder == o.forwarder
        &&& self.tcp == o.tcp
        &&& self.ua == o.ua
        &&& self.port == o.port
        &&& self.banner == o.banner
        &&& self.subsume == o.subsume
        &&& self.penalty == o.penalty
        &&& self.peer == o.peer
        &&& self.mqtt == o.mqtt
    }

    /// Puts the rule sets together: the built-in one, and before its rules those
    /// of the user's own, so that these win wherever the first rule wins. A set
    /// that could not be read counts as having no rules.
    pub fn load(builtin: Option<Rules>, local: Option<Rules>) -> (r: Rules)
        ensures
            r.wf(),
            builtin is None && local is None ==> r.is_blank(),
            builtin is Some && local is None ==> r.same_rules(builtin.unwrap()),
            builtin is Some && local is Some ==> r.merges(builtin.unwrap(), local.unwrap()),
            builtin is None && local is Some ==> exists|none: Rules|
                none.is_blank() && #[trigger] r.merges(none, local.unwrap()),
    {
        let mut r = match builtin {
            Some(b) => b,
            None => Rules::default(),
        };
        let ghost base = r;
        match local {
            Some(l) => {
                r = Rules {
                    version: if l.version > r.version {
                        l.version
                    } else {
                        r.version
                    },
                    dns: ahead(l.dns, r.dns),
                    hostname: ahead(l.hostname, r.hostname),
                    mdns_service: ahead(l.mdns_service, r.mdns_service),
                    mdns_model: ahead(l.mdns_model, r.mdns_model),
                    upnp: ahead(l.upnp, r.upnp),
                    dhcp_vendor: ahead(l.dhcp_vendor, r.dhcp_vendor),
                    dhcp_fp: ahead(l.dhcp_fp, r.dhcp_fp),
                    oui_brand: ahead(l.oui_brand, r.oui_brand),
                    stack: ahead(l.stack, r.stack),
                    forwarder: match l.forwarder {
                        Some(f) => Some(f),
                        None => r.forwarder,
                    },
                    tcp: ahead(l.tcp, r.tcp),
                    ua: ahead(l.ua, r.ua),
                    port: ahead(l.port, r.port),
                    banner: ahead(l.banner, r.banner),
                    subsume: ahead(l.subsume, r.subsume),
                    penalty: ahead(l.penalty, r.penalty),
                    peer: ahead(l.peer, r.peer),
                    mqtt: ahead(l.mqtt, r.mqtt),
                    index: Index::blank(),
                };
                assert(r.merges(base, l));
            },
            None => {},
        }
        r.reindex();
        proof {
            if local is Some {
                assert(r.merges(base, local.unwrap()));
            }
        }
        r
    }

    /// Builds the index anew.
    pub fn reindex(&mut self)
        ensures
            final(self).wf(),
            final(self).same_rules(*old(self)),
    {
        let mut idx: NameMap<usize> = NameMap::new();
        let mut pat: Vec<usize> = Vec::new();
        for i in 0..self.dns.len()
            invariant
                *self == *old(self),
                idx.wf(),
                pat@ == pattern_places(self.dns@, i as int),
                forall|k: Seq<char>| #[trigger]
                    lookup(idx@, k) == suffix_place(self.dns@, k, i as int),
        {
            let r = &self.dns[i];
            let ghost had = idx@;
            if !r.contains.as_str().is_empty() || !r.prefix.as_str().is_empty()
                || !r.qtype.as_str().is_empty() {
                pat.push(i);
            } else {
                let key = norm_domain(r.suffix.as_str());
                if !idx.contains_key(key.as_str()) {
                    let ghost k = key@;
                    idx.insert(key, i);
                    assert forall|o: Seq<char>| #[trigger]
                        lookup(idx@, o) == suffix_place(self.dns@, o, i + 1) by {
                        law_put_then_lookup(had, k, i, o);
                        assert(lookup(had, o) == suffix_place(self.dns@, o, i as int));
                        assert(lookup(had, k) == suffix_place(self.dns@, k, i as int));
                    }
                } else {
                    assert(lookup(had, key@) == suffix_place(self.dns@, key@, i as int));
                }
            }
            assert forall|o: Seq<char>| #[trigger]
                lookup(idx@, o) == suffix_place(self.dns@, o, i + 1) by {
                assert(lookup(had, o) == suffix_place(self.dns@, o, i as int));
            }
        }
        self.index = Index { ends: idx, patterns: pat };
    }

    /// Finds the rule that a query falls under. The name is in normal form.
    pub fn match_dns(&self, domain: &str, qtype: &str) -> (r: Option<&DnsRule>)
        requires
            self.wf(),
        ensures
            seen(r) == dns_match(self.dns@, domain@, qtype@),
    {
        let dc = chars(domain);
        let qc = chars(qtype);
        let n = self.dns.len();
        for j in 0..self.index.patterns.len()
            invariant
                self.wf(),
                n == self.dns@.len(),
                dc@ == domain@,
                qc@ == qtype@,
                forall|i: int|
                    0 <= i < j ==> !query_hit(
                        self.dns@[#[trigger] self.index.patterns@[i] as int],
                        domain@,
                        qtype@,
                    ),
        {
            proof {
                lemma_places(self.dns@, n as int);
            }
            let i = self.index.patterns[j];
            let r = &self.dns[i];
            if fits_query(r, dc.as_slice(), qc.as_slice()) {
                proof {
                    lemma_pattern_found(self.dns@, domain@, qtype@, j as int);
                }
                return Some(r);
            }
        }
        proof {
            lemma_pattern_none(self.dns@, domain@, qtype@);
        }
        let mut tail: &[char] = dc.as_slice();
        loop
            invariant
                self.wf(),
                n == self.dns@.len(),
                dns_match(self.dns@, domain@, qtype@) == suffix_match(self.dns@, tail@),
            decreases tail@.len(),
        {
            let key = text(tail);
            assert(lookup(self.index.ends@, key@) == suffix_place(
                self.dns@,
                key@,
                self.dns@.len() as int,
            ));
            if let Some(i) = self.index.ends.get(key.as_str()) {
                proof {
                    lemma_suffix_place(self.dns@, key@, self.dns@.len() as int);
                }
                return Some(&self.dns[*i]);
            }
            match part_first(tail, '.') {
                Some((_, rest)) => {
                    tail = rest;
                },
                None => {
                    return None;
                },
            }
        }
    }

    /// Finds the rule about names with the identifier `id`.
    pub fn dns_by_id(&self, id: &str) -> (r: Option<&DnsRule>)
        ensures
            seen(r) == dns_named(self.dns@, id@),
    {
        assert(self.dns@.skip(0) =~= self.dns@);
        for i in 0..self.dns.len()
            invariant
                dns_named(self.dns@, id@) == dns_named(self.dns@.skip(i as int), id@),
        {
            if eq(self.dns[i].id.as_str(), id) {
                return Some(&self.dns[i]);
            }
            assert(self.dns@.skip(i as int).skip(1) =~= self.dns@.skip(i + 1));
        }
        None
    }

    /// Finds the rules that fit a host name.
    pub fn match_hostname(&self, name: &str) -> (r: Vec<&TextRule>)
        ensures
            seen_all(r@) == hits(self.hostname@, name@),
    {
        find_hits(&self.hostname, name)
    }

    /// Finds the first rule that fits an announced service.
    pub fn match_service(&self, svc: &str) -> (r: Option<&TextRule>)
        ensures
            seen(r) == first_hit(self.mdns_service@, svc@),
    {
        find_hit(&self.mdns_service, svc)
    }

    /// Finds the first rule that fits an announced model.
    pub fn match_model(&self, model: &str) -> (r: Option<&TextRule>)
        ensures
            seen(r) == first_hit(self.mdns_model@, model@),
    {
        find_hit(&self.mdns_model, model)
    }

    /// Finds the first rule that fits a discovery server line.
    pub fn match_upnp(&self, server: &str) -> (r: Option<&TextRule>)
        ensures
            seen(r) == first_hit(self.upnp@, server@),
    {
        find_hit(&self.upnp, server)
    }

    /// Finds the rules that fit the way in which a device asks.
    pub fn match_stack(&self, s: &Shape) -> (r: Vec<&StackRule>)
        requires
            s.ratios.wf(),
        ensures
            seen_all(r@) == stack_hits(self.stack@, *s),
    {
        let mut out: Vec<&StackRule> = Vec::new();
        let ghost p = |r: StackRule| stack_hit(r, *s);
        assert(seen_all(out@) =~= self.stack@.take(0).filter(p)) by {
            reveal(Seq::filter);
        }
        for i in 0..self.stack.len()
            invariant
                s.ratios.wf(),
                p == (|r: StackRule| stack_hit(r, *s)),
                seen_all(out@) == self.stack@.take(i as int).filter(p),
        {
            let ghost was = seen_all(out@);
            assert(self.stack@.take(i + 1).drop_last() =~= self.stack@.take(i as int));
            if fits_shape(&self.stack[i], s) {
                out.push(&self.stack[i]);
                assert(seen_all(out@) =~= was.push(self.stack@[i as int]));
            }
            assert(seen_all(out@) == self.stack@.take(i + 1).filter(p)) by {
                reveal(Seq::filter);
            }
        }
        assert(self.stack@.take(self.stack@.len() as int) =~= self.stack@);
        out
    }

    /// Finds the first rule that fits the far end of a connection.
    pub fn match_peer(&self, proto: &str, port: u16, remote: &str) -> (r: Option<&PeerRule>)
        ensures
            seen(r) == peer_match(self.peer@, proto@, port, remote@),
    {
        let rc = chars(remote);
        assert(self.peer@.skip(0) =~= self.peer@);
        for i in 0..self.peer.len()
            invariant
                rc@ == remote@,
                peer_match(self.peer@, proto@, port, remote@) == peer_match(
                    self.peer@.skip(i as int),
                    proto@,
                    port,
                    remote@,
                ),
        {
            let p = &self.peer[i];
            if p.port == port && (p.proto.as_str().is_empty() || eq(p.proto.as_str(), proto)) && (
            p.prefix.as_str().is_empty() || begins(rc.as_slice(), p.prefix.as_str())) {
                return Some(p);
            }
            assert(self.peer@.skip(i as int).skip(1) =~= self.peer@.skip(i + 1));
        }
        None
    }

    /// Finds the rule about far ends with the identifier `id`.
    pub fn peer_by_id(&self, id: &str) -> (r: Option<&PeerRule>)
        ensures
            seen(r) == peer_named(self.peer@, id@),
    {
        assert(self.peer@.skip(0) =~= self.peer@);
        for i in 0..self.peer.len()
            invariant
                peer_named(self.peer@, id@) == peer_named(self.peer@.skip(i as int), id@),
        {
            if eq(self.peer[i].id.as_str(), id) {
                return Some(&self.peer[i]);
            }
            assert(self.peer@.skip(i as int).skip(1) =~= self.peer@.skip(i + 1));
        }
        None
    }

    /// Finds the first rule about a port.
    pub fn match_port(&self, p: u16) -> (r: Option<&PortRule>)
        ensures
            seen(r) == port_match(self.port@, p),
    {
        assert(self.port@.skip(0) =~= self.port@);
        for i in 0..self.port.len()
            invariant
                port_match(self.port@, p) == port_match(self.port@.skip(i as int), p),
        {
            if self.port[i].port == p {
                return Some(&self.port[i]);
            }
            assert(self.port@.skip(i as int).skip(1) =~= self.port@.skip(i + 1));
        }
        None
    }

    /// Finds the rules that fit what a service says.
    pub fn match_banner(&self, b: &str) -> (r: Vec<&TextRule>)
        ensures
            seen_all(r@) == hits(self.banner@, b@),
    {
        find_hits(&self.banner, b)
    }

    /// Finds the first rule that fits the fingerprint of a TCP stack.
    pub fn match_tcp(&self, fp: &str) -> (r: Option<&TextRule>)
        ensures
            seen(r) == first_hit(self.tcp@, fp@),
    {
        find_hit(&self.tcp, fp)
    }

    /// Finds the rules that fit the client name of an MQTT connection.
    pub fn match_mqtt(&self, id: &str) -> (r: Vec<&TextRule>)
        ensures
            seen_all(r@) == hits(self.mqtt@, id@),
    {
        find_hits(&self.mqtt, id)
    }

    /// Finds the rules that fit the agent of an HTTP request.
    pub fn match_ua(&self, ua: &str) -> (r: Vec<&TextRule>)
        ensures
            seen_all(r@) == hits(self.ua@, ua@),
    {
        find_hits(&self.ua, ua)
    }

    /// Finds the brand that the holder of a hardware prefix stands for.
    pub fn match_oui_brand(&self, vendor: &str) -> (r: Option<&TextRule>)
        ensures
            seen(r) == first_hit(self.oui_brand@, vendor@),
    {
        find_hit(&self.oui_brand, vendor)
    }

    /// Finds the first rule that fits the vendor class of a DHCP request.
    pub fn match_vendor(&self, vc: &str) -> (r: Option<&TextRule>)
        ensures
            seen(r) == first_hit(self.dhcp_vendor@, vc@),
    {
        find_hit(&self.dhcp_vendor, vc)
    }

    /// Finds the rule for the parameter list of a DHCP request.
    pub fn match_dhcp_fp(&self, fp: &str) -> (r: Option<&TextRule>)
        ensures
            seen(r) == list_match(self.dhcp_fp@, fp@),
    {
        assert(self.dhcp_fp@.skip(0) =~= self.dhcp_fp@);
        for i in 0..self.dhcp_fp.len()
            invariant
                exact_list(self.dhcp_fp@, fp@) == exact_list(self.dhcp_fp@.skip(i as int), fp@),
        {
            if eq(self.dhcp_fp[i].value.as_str(), fp) {
                return Some(&self.dhcp_fp[i]);
            }
            assert(self.dhcp_fp@.skip(i as int).skip(1) =~= self.dhcp_fp@.skip(i + 1));
        }
        let fb = fp.as_bytes();
        let mut found = false;
        let mut at: usize = 0;
        let mut most: usize = 0;
        for i in 0..self.dhcp_fp.len()
            invariant
                fb@ == encode_utf8(fp@),
                found ==> at < self.dhcp_fp@.len(),
                nearest(self.dhcp_fp@, fp@, i as int) == if found {
                    Some((at as int, most as nat))
                } else {
                    None
                },
        {
            let vb = self.dhcp_fp[i].value.as_str().as_bytes();
            let n = count_common(vb, fb);
            if n >= vb.len() / 2 && n >= 8 && (!found || n > most) {
                found = true;
                at = i;
                most = n;
            }
        }
        if found {
            Some(&self.dhcp_fp[at])
        } else {
            None
        }
    }
}

/// Whether a rule about the way of asking fits.
fn fits_shape(r: &StackRule, s: &Shape) -> (b: bool)
    requires
        s.ratios.wf(),
    ensures
        b == stack_hit(*r, *s),
{
    if s.samples < r.min_samples || s.samples < 1 {
        return false;
    }
    let n = r.ratio.len();
    for i in 0..n
        invariant
            n == r.ratio@.len(),
            s.ratios.wf(),
            forall|j: int|
                0 <= j < i ==> within(
                    lookup_or(s.ratios@, (#[trigger] r.ratio@[j]).0, 0i32),
                    r.ratio@[j].1,
                ),
    {
        let v: i32 = match s.ratios.get(r.ratio.name_at(i).as_str()) {
            Some(v) => *v,
            None => 0,
        };
        let range = *r.ratio.value_at(i);
        if v < range.lo || v > range.hi {
            assert(!within(lookup_or(s.ratios@, r.ratio@[i as int].0, 0i32), r.ratio@[i as int].1));
            return false;
        }
    }
    if let Some(range) = r.port_spread {
        match s.spread {
            Some(v) => {
                if v < range.lo || v > range.hi {
                    return false;
                }
            },
            None => {
                return false;
            },
        }
    }
    if let Some(range) = r.pair_a4 {
        if s.pair_a4 < range.lo || s.pair_a4 > range.hi {
            return false;
        }
    }
    if let Some(range) = r.pair_https {
        if s.pair_https < range.lo || s.pair_https > range.hi {
            return false;
        }
    }
    true
}

// ---------------------------------------------------------------------------
// The index of the rules about names
// ---------------------------------------------------------------------------

proof fn lemma_suffix_place(rs: Seq<DnsRule>, key: Seq<char>, n: int)
    requires
        0 <= n <= rs.len(),
        n <= usize::MAX,
    ensures
        suffix_place(rs, key, n) matches Some(i) ==> i < n && !behavioural(rs[i as int])
            && domain_normal(rs[i as int].suffix@) == key,
    decreases n,
{
    if n > 0 {
        lemma_suffix_place(rs, key, n - 1);
    }
}

/// The places of the rules that test more than the end of a name rise, stay
/// inside the list, and leave none of these rules out.
proof fn lemma_places(rs: Seq<DnsRule>, n: int)
    requires
        0 <= n <= rs.len(),
        n <= usize::MAX,
    ensures
        forall|j: int|
            0 <= j < pattern_places(rs, n).len() ==> (#[trigger] pattern_places(rs, n)[j]) < n
                && behavioural(rs[pattern_places(rs, n)[j] as int]),
        forall|j: int, k: int|
            0 <= j < k < pattern_places(rs, n).len() ==> pattern_places(rs, n)[j]
                < pattern_places(rs, n)[k],
        forall|i: int|
            0 <= i < n && behavioural(#[trigger] rs[i]) ==> exists|j: int|
                0 <= j < pattern_places(rs, n).len() && pattern_places(rs, n)[j] == i,
    decreases n,
{
    if n > 0 {
        lemma_places(rs, n - 1);
        let a = pattern_places(rs, n - 1);
        let b = pattern_places(rs, n);
        assert forall|i: int| 0 <= i < n && behavioural(#[trigger] rs[i]) implies exists|j: int|
            0 <= j < b.len() && b[j] == i by {
            if i < n - 1 {
                let j = choose|j: int| 0 <= j < a.len() && a[j] == i;
                assert(b[j] == i);
            } else {
                assert(b[b.len() - 1] == i);
            }
        }
    }
}

proof fn lemma_pattern_skip(
    rs: Seq<DnsRule>,
    domain: Seq<char>,
    qtype: Seq<char>,
    from: int,
    to: int,
)
    requires
        0 <= from <= to <= rs.len(),
        forall|i: int|
            from <= i < to ==> !(behavioural(#[trigger] rs[i]) && query_hit(rs[i], domain, qtype)),
    ensures
        pattern_match(rs, domain, qtype, from) == pattern_match(rs, domain, qtype, to),
    decreases to - from,
{
    if from < to {
        lemma_pattern_skip(rs, domain, qtype, from + 1, to);
    }
}

proof fn lemma_pattern_found(rs: Seq<DnsRule>, domain: Seq<char>, qtype: Seq<char>, j: int)
    requires
        rs.len() <= usize::MAX,
        0 <= j < pattern_places(rs, rs.len() as int).len(),
        forall|i: int|
            0 <= i < j ==> !query_hit(
                rs[#[trigger] pattern_places(rs, rs.len() as int)[i] as int],
                domain,
                qtype,
            ),
        query_hit(rs[pattern_places(rs, rs.len() as int)[j] as int], domain, qtype),
    ensures
        dns_match(rs, domain, qtype) == Some(rs[pattern_places(rs, rs.len() as int)[j] as int]),
{
    let n = rs.len() as int;
    let ps = pattern_places(rs, n);
    lemma_places(rs, n);
    let at = ps[j] as int;
    assert forall|i: int| 0 <= i < at implies !(behavioural(#[trigger] rs[i]) && query_hit(
        rs[i],
        domain,
        qtype,
    )) by {
        if behavioural(rs[i]) {
            let k = choose|k: int| 0 <= k < ps.len() && ps[k] == i;
            assert(k < j);
        }
    }
    lemma_pattern_skip(rs, domain, qtype, 0, at);
}

proof fn lemma_pattern_none(rs: Seq<DnsRule>, domain: Seq<char>, qtype: Seq<char>)
    requires
        rs.len() <= usize::MAX,
        forall|i: int|
            0 <= i < pattern_places(rs, rs.len() as int).len() ==> !query_hit(
                rs[#[trigger] pattern_places(rs, rs.len() as int)[i] as int],
                domain,
                qtype,
            ),
    ensures
        pattern_match(rs, domain, qtype, 0) is None,
{
    let n = rs.len() as int;
    let ps = pattern_places(rs, n);
    lemma_places(rs, n);
    assert forall|i: int| 0 <= i < n implies !(behavioural(#[trigger] rs[i]) && query_hit(
        rs[i],
        domain,
        qtype,
    )) by {
        if behavioural(rs[i]) {
            let k = choose|k: int| 0 <= k < ps.len() && ps[k] == i;
            assert(!query_hit(rs[ps[k] as int], domain, qtype));
        }
    }
    lemma_pattern_skip(rs, domain, qtype, 0, n);
}

// ---------------------------------------------------------------------------
// Laws
// ---------------------------------------------------------------------------

proof fn lemma_tail_of_tail(tail: Seq<char>, domain: Seq<char>)
    requires
        under(tail, domain),
        tail != domain,
    ensures
        split_first(domain, '.') matches Some((_, t)) && under(tail, t) && t.len() < domain.len(),
{
    let k = Class::IsNot('.');
    let n = lead(domain, k) as int;
    let at = domain.len() - tail.len() - 1;
    lemma_lead(domain, k);
    if n > at {
        assert(in_class(k, domain[at]));
    }
    let t = domain.skip(n + 1);
    if n == at {
        assert(t =~= tail);
    } else {
        assert(t[t.len() - tail.len() - 1] == domain[at]);
        assert(t.skip(t.len() - tail.len()) =~= domain.skip(domain.len() - tail.len()));
        assert(ends(t, tail));
    }
}

/// The longest ending wins: where some rule's whole test is an ending of the
/// domain, a rule is found by its ending, and that ending is an ending of the
/// domain at least as long.
pub proof fn law_longest_ending_wins(rs: Seq<DnsRule>, domain: Seq<char>, tail: Seq<char>)
    requires
        rs.len() <= usize::MAX,
        under(tail, domain),
        suffix_place(rs, tail, rs.len() as int) is Some,
    ensures
        suffix_match(rs, domain) matches Some(r) && under(domain_normal(r.suffix@), domain)
            && domain_normal(r.suffix@).len() >= tail.len(),
    decreases domain.len(),
{
    lemma_suffix_place(rs, domain, rs.len() as int);
    if suffix_place(rs, domain, rs.len() as int) is None {
        lemma_tail_of_tail(tail, domain);
        let t = split_first(domain, '.').unwrap().1;
        law_longest_ending_wins(rs, t, tail);
        let key = domain_normal(suffix_match(rs, t).unwrap().suffix@);
        let n = domain.len() - t.len();
        lemma_lead(domain, Class::IsNot('.'));
        assert(domain[n - 1] == '.');
        if key != t {
            assert(domain[domain.len() - key.len() - 1] == t[t.len() - key.len() - 1]);
            assert(domain.skip(domain.len() - key.len()) =~= t.skip(t.len() - key.len()));
        } else {
            assert(domain.skip(domain.len() - key.len()) =~= key);
        }
        assert(ends(domain, key));
    }
}

proof fn lemma_place_front(front: Seq<DnsRule>, back: Seq<DnsRule>, key: Seq<char>, n: int)
    requires
        0 <= n <= front.len(),
    ensures
        suffix_place(front + back, key, n) == suffix_place(front, key, n),
    decreases n,
{
    if n > 0 {
        lemma_place_front(front, back, key, n - 1);
        assert((front + back)[n - 1] == front[n - 1]);
    }
}

proof fn lemma_place_kept(rs: Seq<DnsRule>, key: Seq<char>, n: int, m: int)
    requires
        0 <= n <= m,
        suffix_place(rs, key, n) is Some,
    ensures
        suffix_place(rs, key, m) == suffix_place(rs, key, n),
    decreases m,
{
    if n < m {
        lemma_place_kept(rs, key, n, m - 1);
    }
}

/// A rule of the user's own about an ending hides the built-in ones about the
/// same ending.
pub proof fn law_own_ending_first(own: Seq<DnsRule>, builtin: Seq<DnsRule>, key: Seq<char>)
    requires
        suffix_place(own, key, own.len() as int) is Some,
    ensures
        suffix_place(own + builtin, key, (own + builtin).len() as int) == suffix_place(
            own,
            key,
            own.len() as int,
        ),
{
    lemma_place_front(own, builtin, key, own.len() as int);
    lemma_place_kept(own + builtin, key, own.len() as int, (own + builtin).len() as int);
}

proof fn lemma_pattern_back(
    own: Seq<DnsRule>,
    builtin: Seq<DnsRule>,
    domain: Seq<char>,
    qtype: Seq<char>,
    i: int,
)
    requires
        0 <= i <= builtin.len(),
    ensures
        pattern_match(own + builtin, domain, qtype, own.len() + i) == pattern_match(
            builtin,
            domain,
            qtype,
            i,
        ),
    decreases builtin.len() - i,
{
    if i < builtin.len() {
        assert((own + builtin)[own.len() + i] == builtin[i]);
        lemma_pattern_back(own, builtin, domain, qtype, i + 1);
    }
}

proof fn lemma_pattern_front(
    own: Seq<DnsRule>,
    builtin: Seq<DnsRule>,
    domain: Seq<char>,
    qtype: Seq<char>,
    i: int,
)
    requires
        0 <= i <= own.len(),
    ensures
        pattern_match(own + builtin, domain, qtype, i) == match pattern_match(
            own,
            domain,
            qtype,
            i,
        ) {
            Some(r) => Some(r),
            None => pattern_match(builtin, domain, qtype, 0),
        },
    decreases own.len() - i,
{
    if i < own.len() {
        assert((own + builtin)[i] == own[i]);
        lemma_pattern_front(own, builtin, domain, qtype, i + 1);
    } else {
        lemma_pattern_back(own, builtin, domain, qtype, 0);
    }
}

/// Of the rules about names that test more than an ending, those of the user's
/// own come before the built-in ones.
pub proof fn law_own_patterns_first(
    own: Seq<DnsRule>,
    builtin: Seq<DnsRule>,
    domain: Seq<char>,
    qtype: Seq<char>,
)
    ensures
        pattern_match(own + builtin, domain, qtype, 0) == match pattern_match(
            own,
            domain,
            qtype,
            0,
        ) {
            Some(r) => Some(r),
            None => pattern_match(builtin, domain, qtype, 0),
        },
{
    lemma_pattern_front(own, builtin, domain, qtype, 0);
}

/// Of the rules about a text, those of the user's own come before the built-in
/// ones.
pub proof fn law_own_texts_first(own: Seq<TextRule>, builtin: Seq<TextRule>, hay: Seq<char>)
    ensures
        first_hit(own + builtin, hay) == match first_hit(own, hay) {
            Some(r) => Some(r),
            None => first_hit(builtin, hay),
        },
    decreases own.len(),
{
    if own.len() == 0 {
        assert(own + builtin =~= builtin);
    } else {
        assert((own + builtin)[0] == own[0]);
        assert((own + builtin).skip(1) =~= own.skip(1) + builtin);
        law_own_texts_first(own.skip(1), builtin, hay);
    }
}

/// A rule that tests nothing but the query type fits no name.
pub proof fn law_query_type_alone_fits_nothing(r: DnsRule, domain: Seq<char>, qtype: Seq<char>)
    requires
        r.contains@.len() == 0,
        r.prefix@.len() == 0,
        r.suffix@.len() == 0,
    ensures
        !query_hit(r, domain, qtype),
{
}

/// Where a parameter list is that of a rule, no rule that is merely near to it is
/// taken.
pub proof fn law_exact_list_wins(rs: Seq<TextRule>, fp: Seq<char>, i: int)
    requires
        0 <= i < rs.len(),
        rs[i].value@ == fp,
    ensures
        list_match(rs, fp) matches Some(r) && r.value@ == fp,
{
    lemma_exact_value(rs, fp);
    lemma_exact_found(rs, fp, i);
}

proof fn lemma_exact_found(rs: Seq<TextRule>, fp: Seq<char>, i: int)
    requires
        0 <= i < rs.len(),
        rs[i].value@ == fp,
    ensures
        exact_list(rs, fp) is Some,
    decreases rs.len(),
{
    if rs[0].value@ != fp {
        assert(rs.skip(1)[i - 1] == rs[i]);
        lemma_exact_found(rs.skip(1), fp, i - 1);
    }
}

proof fn lemma_nearest(rs: Seq<TextRule>, fp: Seq<char>, n: int)
    requires
        n <= rs.len(),
    ensures
        nearest(rs, fp, n) matches Some((i, c)) ==> 0 <= i < n && c == common(
            encode_utf8(rs[i].value@),
            encode_utf8(fp),
        ) && c >= 8 && c >= encode_utf8(rs[i].value@).len() / 2,
    decreases n,
{
    if n > 0 {
        lemma_nearest(rs, fp, n - 1);
    }
}

/// A rule that is taken for a parameter list shares at least eight bytes with it, and
/// half of its own value, from the start, or is the list itself.
pub proof fn law_near_lists_share_a_start(rs: Seq<TextRule>, fp: Seq<char>)
    ensures
        list_match(rs, fp) matches Some(r) ==> r.value@ == fp || {
            let c = common(encode_utf8(r.value@), encode_utf8(fp));
            c >= 8 && c >= encode_utf8(r.value@).len() / 2
        },
{
    lemma_exact_value(rs, fp);
    lemma_nearest(rs, fp, rs.len() as int);
}

proof fn lemma_exact_value(rs: Seq<TextRule>, fp: Seq<char>)
    ensures
        exact_list(rs, fp) matches Some(r) ==> r.value@ == fp,
    decreases rs.len(),
{
    if rs.len() > 0 {
        lemma_exact_value(rs.skip(1), fp);
    }
}

} // verus!
