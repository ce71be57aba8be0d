//! What speaks for and against the conclusions about a device: the signals that
//! the rules draw from what is known of it, how they are pooled, and what is
//! concluded from the weights of the pools.
//!
//! The weights themselves are single precision numbers, which are added outside
//! of this library. A signal says how its weight is made up; where a decision
//! depends on weights, they are given as integers that order as the weights do,
//! with 0 for the weight zero.

use crate::names::{
    law_put_then_lookup, law_without_then_lookup, lemma_lookup_index, lemma_views, lookup,
    lookup_or, names_of, ordered, put, views, without, Entries, NameMap,
};
use crate::num::{dec, push_dec, show};
use crate::rules::{
    dns_named, first_hit, hits, list_match, peer_named, port_match, rule_label, seen_all,
    stack_hits, DnsRule, Forwarder, PeerRule, Penalty, PortRule, Rules, Shape, StackRule, Subsume,
    TextRule,
};
use crate::store::{elapsed, since, Device, DeviceView, Ev, Hit, Ident, DECAY_MUTE};
use crate::text::{
    append, append_str, chars, count_lead, eq, join, joined, lead, lemma_less_total, less, lists,
    owned, texts, trim_front, Class,
};
use crate::util::mac_is_local;
use vstd::prelude::*;
use vstd::slice::slice_subrange;

verus! {

/// How the weight of a signal is made up.
#[derive(Clone, Copy, PartialEq, Eq, Structural)]
pub enum Weight {
    /// A whole number.
    Whole(i64),
    /// Half of a whole number.
    Half(u32),
    /// A whole number and so many tenths, times a fading factor.
    Bonus { base: u32, tenths: u32, fade: u32 },
    /// A whole number times a fading factor.
    Faded { base: u32, fade: u32 },
}

/// One signal.
pub struct Sig {
    pub source: &'static str,
    pub detail: String,
    pub age: u64,
    pub brand: String,
    pub os: String,
    pub dtype: String,
    pub model: String,
    pub platform: String,
    pub kind: String,
    pub weight: Weight,
}

/// A signal with its strings as texts.
pub struct SigView {
    pub source: Seq<char>,
    pub detail: Seq<char>,
    pub age: u64,
    pub brand: Seq<char>,
    pub os: Seq<char>,
    pub dtype: Seq<char>,
    pub model: Seq<char>,
    pub platform: Seq<char>,
    pub kind: Seq<char>,
    pub weight: Weight,
}

impl View for Sig {
    type V = SigView;

    open spec fn view(&self) -> SigView {
        SigView {
            source: self.source@,
            detail: self.detail@,
            age: self.age,
            brand: self.brand@,
            os: self.os@,
            dtype: self.dtype@,
            model: self.model@,
            platform: self.platform@,
            kind: self.kind@,
            weight: self.weight,
        }
    }
}

/// The views of a list of signals.
pub open spec fn sig_views(v: Seq<Sig>) -> Seq<SigView> {
    v.map_values(|s: Sig| s@)
}

proof fn lemma_views_push(v: Seq<Sig>, s: Sig)
    ensures
        sig_views(v.push(s)) == sig_views(v).push(s@),
{
    assert(sig_views(v.push(s)) =~= sig_views(v).push(s@));
}

// ---------------------------------------------------------------------------
// Signals from texts
// ---------------------------------------------------------------------------

/// The signal that a text rule gives.
pub open spec fn text_sig(
    source: Seq<char>,
    detail: Seq<char>,
    r: TextRule,
    with_platform: bool,
) -> SigView {
    SigView {
        source,
        detail,
        age: 0,
        brand: r.brand@,
        os: r.os@,
        dtype: r.dtype@,
        model: Seq::empty(),
        platform: if with_platform {
            r.platform@
        } else {
            Seq::empty()
        },
        kind: r.kind@,
        weight: Weight::Whole(r.weight as i64),
    }
}

/// The signal of the first rule that fits a text, where there is a text and such
/// a rule.
pub open spec fn first_sig(
    source: Seq<char>,
    hay: Seq<char>,
    rs: Seq<TextRule>,
    with_platform: bool,
) -> Seq<SigView> {
    if hay.len() == 0 {
        Seq::empty()
    } else {
        match first_hit(rs, hay) {
            Some(r) => seq![text_sig(source, hay, r, with_platform)],
            None => Seq::empty(),
        }
    }
}

/// The signals of all rules that fit a text, where there is a text.
pub open spec fn all_sigs(
    source: Seq<char>,
    hay: Seq<char>,
    rs: Seq<TextRule>,
    with_platform: bool,
) -> Seq<SigView> {
    if hay.len() == 0 {
        Seq::empty()
    } else {
        hits(rs, hay).map_values(|r: TextRule| text_sig(source, hay, r, with_platform))
    }
}

/// Makes the signal of a text rule.
fn make_text_sig(
    source: &'static str,
    detail: &str,
    r: &TextRule,
    with_platform: bool,
) -> (s: Sig)
    ensures
        s@ == text_sig(source@, detail@, *r, with_platform),
{
    let s = Sig {
        source,
        detail: owned(detail),
        age: 0,
        brand: owned(r.brand.as_str()),
        os: owned(r.os.as_str()),
        dtype: owned(r.dtype.as_str()),
        model: String::new(),
        platform: if with_platform {
            owned(r.platform.as_str())
        } else {
            String::new()
        },
        kind: owned(r.kind.as_str()),
        weight: Weight::Whole(r.weight as i64),
    };
    assert(s@.model =~= Seq::<char>::empty());
    assert(!with_platform ==> s@.platform =~= Seq::<char>::empty());
    s
}

/// Adds the signal of the first rule that fits a text.
fn push_first(
    out: &mut Vec<Sig>,
    source: &'static str,
    hay: &str,
    found: Option<&TextRule>,
    with_platform: bool,
)
    ensures
        sig_views(final(out)@) == sig_views(old(out)@) + if hay@.len() == 0 {
            Seq::empty()
        } else {
            match found {
                Some(r) => seq![text_sig(source@, hay@, *r, with_platform)],
                None => Seq::empty(),
            }
        },
{
    if !hay.is_empty() {
        if let Some(r) = found {
            let s = make_text_sig(source, hay, r, with_platform);
            proof {
                lemma_views_push(out@, s);
            }
            out.push(s);
        }
    }
}

/// Adds the signals of all rules that fit a text.
fn push_all(
    out: &mut Vec<Sig>,
    source: &'static str,
    hay: &str,
    found: Vec<&TextRule>,
    with_platform: bool,
)
    ensures
        sig_views(final(out)@) == sig_views(old(out)@) + if hay@.len() == 0 {
            Seq::empty()
        } else {
            seen_all(found@).map_values(
                |r: TextRule| text_sig(source@, hay@, r, with_platform),
            )
        },
{
    if !hay.is_empty() {
        let ghost was = sig_views(out@);
        let ghost f = |r: TextRule| text_sig(source@, hay@, r, with_platform);
        let ghost all = seen_all(found@).map_values(f);
        assert(was + all.take(0) =~= was);
        for i in 0..found.len()
            invariant
                f == (|r: TextRule| text_sig(source@, hay@, r, with_platform)),
                all == seen_all(found@).map_values(f),
                sig_views(out@) == was + all.take(i as int),
        {
            let s = make_text_sig(source, hay, found[i], with_platform);
            proof {
                lemma_views_push(out@, s);
                assert(all[i as int] == s@);
                assert(was + all.take(i + 1) =~= (was + all.take(i as int)).push(s@));
            }
            out.push(s);
        }
        assert(all.take(all.len() as int) =~= all);
    }
}

/// The system that a DHCP vendor class names: a version behind `Android`, where
/// the rule about Android fits and the class holds one, else the rule's.
pub open spec fn vendor_system(vendor: Seq<char>, r: TextRule) -> Seq<char> {
    let rest = vendor.skip(lead(vendor, Class::NonDigit) as int);
    let version = rest.take(lead(rest, Class::Decimal) as int);
    if r.id@ == "vc.android"@ && version.len() > 0 {
        "Android "@ + version
    } else {
        r.os@
    }
}

/// What the DHCP vendor class says.
pub open spec fn vendor_sigs(d: DeviceView, r: Rules) -> Seq<SigView> {
    if d.dhcp_vendor.len() == 0 {
        Seq::empty()
    } else {
        match first_hit(r.dhcp_vendor@, d.dhcp_vendor) {
            Some(m) => seq![
                SigView {
                    os: vendor_system(d.dhcp_vendor, m),
                    ..text_sig("dhcp60"@, d.dhcp_vendor, m, false)
                },
            ],
            None => Seq::empty(),
        }
    }
}

/// What the DHCP parameter list says. A list that is only near to a rule's
/// counts half and concludes nothing by itself.
pub open spec fn list_sigs(d: DeviceView, r: Rules) -> Seq<SigView> {
    if d.dhcp_fp.len() == 0 {
        Seq::empty()
    } else {
        match list_match(r.dhcp_fp@, d.dhcp_fp) {
            Some(m) => if m.value@ == d.dhcp_fp {
                seq![text_sig("dhcp55"@, d.dhcp_fp, m, false)]
            } else {
                seq![
                    SigView {
                        kind: "weak"@,
                        weight: Weight::Half(m.weight),
                        ..text_sig("dhcp55"@, d.dhcp_fp + " ~"@, m, false)
                    },
                ]
            },
            None => Seq::empty(),
        }
    }
}

/// What the announced model says. It counts even where no rule knows it.
pub open spec fn model_sigs(d: DeviceView, r: Rules) -> Seq<SigView> {
    if d.mdns_model.len() == 0 {
        Seq::empty()
    } else {
        let detail = "model="@ + d.mdns_model;
        match first_hit(r.mdns_model@, d.mdns_model) {
            Some(m) => seq![
                SigView { model: d.mdns_model, ..text_sig("mdns"@, detail, m, false) },
            ],
            None => seq![
                SigView {
                    source: "mdns"@,
                    detail,
                    age: 0,
                    brand: Seq::empty(),
                    os: Seq::empty(),
                    dtype: Seq::empty(),
                    model: d.mdns_model,
                    platform: Seq::empty(),
                    kind: Seq::empty(),
                    weight: Weight::Whole(3),
                },
            ],
        }
    }
}

/// What the first `n` announced services say.
pub open spec fn service_sigs(v: Seq<Seq<char>>, rs: Seq<TextRule>, n: int) -> Seq<SigView>
    decreases n,
{
    if n <= 0 {
        Seq::empty()
    } else {
        service_sigs(v, rs, n - 1) + match first_hit(rs, v[n - 1]) {
            Some(m) => seq![text_sig("mdns"@, v[n - 1], m, false)],
            None => Seq::empty(),
        }
    }
}

/// The name that the rules about host names are held against.
pub open spec fn host_name(d: DeviceView) -> Seq<char> {
    if d.dhcp_name.len() > 0 {
        d.dhcp_name
    } else {
        d.mdns_name
    }
}

fn push_vendor(out: &mut Vec<Sig>, d: &Device, r: &Rules)
    ensures
        sig_views(final(out)@) == sig_views(old(out)@) + vendor_sigs(d@, *r),
{
    let vendor = d.dhcp_vendor.as_str();
    if vendor.is_empty() {
        return ;
    }
    if let Some(m) = r.match_vendor(vendor) {
        let mut s = make_text_sig("dhcp60", vendor, m, false);
        let ghost plain = s@;
        if eq(m.id.as_str(), "vc.android") {
            let c = chars(vendor);
            let rest = trim_front(c.as_slice(), Class::NonDigit);
            let n = count_lead(rest, Class::Decimal);
            if n > 0 {
                let version = slice_subrange(rest, 0, n);
                let mut os = owned("Android ");
                append(&mut os, version);
                assert(version@ =~= rest@.take(n as int));
                assert(os@ =~= vendor_system(vendor@, *m));
                s.os = os;
            }
        }
        proof {
            assert(s@ == (SigView { os: s.os@, ..plain }));
            lemma_views_push(out@, s);
        }
        out.push(s);
    }
}

fn push_list(out: &mut Vec<Sig>, d: &Device, r: &Rules)
    ensures
        sig_views(final(out)@) == sig_views(old(out)@) + list_sigs(d@, *r),
{
    let fp = d.dhcp_fp.as_str();
    if fp.is_empty() {
        return ;
    }
    if let Some(m) = r.match_dhcp_fp(fp) {
        let s;
        if eq(m.value.as_str(), fp) {
            s = make_text_sig("dhcp55", fp, m, false);
        } else {
            let mut detail = owned(fp);
            append_str(&mut detail, " ~");
            let base = make_text_sig("dhcp55", detail.as_str(), m, false);
            s = Sig { kind: owned("weak"), weight: Weight::Half(m.weight), ..base };
        }
        proof {
            lemma_views_push(out@, s);
        }
        out.push(s);
    }
}

fn push_model(out: &mut Vec<Sig>, d: &Device, r: &Rules)
    ensures
        sig_views(final(out)@) == sig_views(old(out)@) + model_sigs(d@, *r),
{
    let model = d.mdns_model.as_str();
    if model.is_empty() {
        return ;
    }
    let mut detail = owned("model=");
    append_str(&mut detail, model);
    let s = match r.match_model(model) {
        Some(m) => {
            let base = make_text_sig("mdns", detail.as_str(), m, false);
            Sig { model: owned(model), ..base }
        },
        None => {
            let s = Sig {
                source: "mdns",
                detail,
                age: 0,
                brand: String::new(),
                os: String::new(),
                dtype: String::new(),
                model: owned(model),
                platform: String::new(),
                kind: String::new(),
                weight: Weight::Whole(3),
            };
            assert(s@.brand =~= Seq::<char>::empty());
            assert(s@.os =~= Seq::<char>::empty());
            assert(s@.dtype =~= Seq::<char>::empty());
            assert(s@.platform =~= Seq::<char>::empty());
            assert(s@.kind =~= Seq::<char>::empty());
            s
        },
    };
    proof {
        lemma_views_push(out@, s);
    }
    out.push(s);
}

fn push_services(out: &mut Vec<Sig>, d: &Device, r: &Rules)
    ensures
        sig_views(final(out)@) == sig_views(old(out)@) + service_sigs(
            d@.mdns_services,
            r.mdns_service@,
            d@.mdns_services.len() as int,
        ),
{
    let ghost was = sig_views(out@);
    assert(was + Seq::<SigView>::empty() =~= was);
    for i in 0..d.mdns_services.len()
        invariant
            sig_views(out@) == was + service_sigs(d@.mdns_services, r.mdns_service@, i as int),
    {
        let svc = d.mdns_services[i].as_str();
        let ghost part = service_sigs(d@.mdns_services, r.mdns_service@, i as int);
        if let Some(m) = r.match_service(svc) {
            let s = make_text_sig("mdns", svc, m, false);
            proof {
                lemma_views_push(out@, s);
                assert((was + part).push(s@) =~= was + (part + seq![s@]));
            }
            out.push(s);
        } else {
            assert(part + Seq::<SigView>::empty() =~= part);
        }
    }
}

// ---------------------------------------------------------------------------
// Signals from hits
// ---------------------------------------------------------------------------

/// The factors to which the hits of a device have faded, in the order in which
/// its maps hold them.
pub struct Fades {
    pub dns: Vec<u32>,
    pub sni: Vec<u32>,
    pub peer: Vec<u32>,
}

/// Whether there is a factor for every hit of a device.
pub open spec fn fades_fit(d: DeviceView, f: Fades) -> bool {
    &&& f.dns@.len() == d.dns_hits.len()
    &&& f.sni@.len() == d.sni_hits.len()
    &&& f.peer@.len() == d.peer_hits.len()
}

/// What is shown of a hit: what was hit, and how often.
pub open spec fn times(what: Seq<char>, n: u32) -> Seq<char> {
    what + seq![' ', '\u{d7}'] + dec(n as nat)
}

/// The tenths that the count of a hit adds to its weight: one for each, up to
/// thirty.
pub open spec fn bonus(n: u32) -> u32 {
    if n < 30 {
        n
    } else {
        30
    }
}

/// The signal of a rule about names.
pub open spec fn name_sig(source: Seq<char>, r: DnsRule, h: Hit, t: u64, fade: u32) -> SigView {
    SigView {
        source,
        detail: times(rule_label(r), h.n),
        age: since(t, h.last),
        brand: r.brand@,
        os: r.os@,
        dtype: r.dtype@,
        model: Seq::empty(),
        platform: Seq::empty(),
        kind: r.kind@,
        weight: Weight::Bonus { base: r.weight, tenths: bonus(h.n), fade },
    }
}

/// What the first `n` hits of rules about names say, without those that have
/// faded too far and those whose rule is gone.
pub open spec fn name_sigs(
    source: Seq<char>,
    m: Entries<Hit>,
    f: Seq<u32>,
    rs: Seq<DnsRule>,
    t: u64,
    n: int,
) -> Seq<SigView>
    decreases n,
{
    if n <= 0 {
        Seq::empty()
    } else {
        name_sigs(source, m, f, rs, t, n - 1) + match dns_named(rs, m[n - 1].0) {
            Some(r) if f[n - 1] >= DECAY_MUTE => seq![
                name_sig(source, r, m[n - 1].1, t, f[n - 1]),
            ],
            _ => Seq::empty(),
        }
    }
}

/// The signal of a rule about far ends.
pub open spec fn peer_sig(r: PeerRule, h: Hit, t: u64, fade: u32) -> SigView {
    SigView {
        source: "peer"@,
        detail: times(
            (if r.proto@.len() == 0 {
                "tcp/udp"@
            } else {
                r.proto@
            }) + seq!['/'] + dec(r.port as nat),
            h.n,
        ),
        age: since(t, h.last),
        brand: r.brand@,
        os: r.os@,
        dtype: r.dtype@,
        model: Seq::empty(),
        platform: Seq::empty(),
        kind: r.kind@,
        weight: Weight::Faded { base: r.weight, fade },
    }
}

/// What the first `n` hits of rules about far ends say.
pub open spec fn peer_sigs(
    m: Entries<Hit>,
    f: Seq<u32>,
    rs: Seq<PeerRule>,
    t: u64,
    n: int,
) -> Seq<SigView>
    decreases n,
{
    if n <= 0 {
        Seq::empty()
    } else {
        peer_sigs(m, f, rs, t, n - 1) + match peer_named(rs, m[n - 1].0) {
            Some(r) if f[n - 1] >= DECAY_MUTE => seq![peer_sig(r, m[n - 1].1, t, f[n - 1])],
            _ => Seq::empty(),
        }
    }
}

/// The signal of a rule about an open port.
pub open spec fn port_sig(p: u16, r: PortRule) -> SigView {
    SigView {
        source: "port"@,
        detail: dec(p as nat) + "/tcp"@,
        age: 0,
        brand: r.brand@,
        os: r.os@,
        dtype: r.dtype@,
        model: Seq::empty(),
        platform: r.platform@,
        kind: r.kind@,
        weight: Weight::Whole(r.weight as i64),
    }
}

/// What the first `n` open ports say.
pub open spec fn port_sigs(v: Seq<u16>, rs: Seq<PortRule>, n: int) -> Seq<SigView>
    decreases n,
{
    if n <= 0 {
        Seq::empty()
    } else {
        port_sigs(v, rs, n - 1) + match port_match(rs, v[n - 1]) {
            Some(r) => seq![port_sig(v[n - 1], r)],
            None => Seq::empty(),
        }
    }
}

/// Writes how often something was hit.
fn push_times(out: &mut String, n: u32)
    ensures
        final(out)@ == times(old(out)@, n),
{
    let ghost was = out@;
    out.push(' ');
    out.push('\u{d7}');
    push_dec(out, n as u64);
    assert(out@ =~= times(was, n));
}

fn push_names(
    out: &mut Vec<Sig>,
    source: &'static str,
    m: &NameMap<Hit>,
    f: &Vec<u32>,
    r: &Rules,
    t: u64,
)
    requires
        f@.len() == m@.len(),
    ensures
        sig_views(final(out)@) == sig_views(old(out)@) + name_sigs(
            source@,
            m@,
            f@,
            r.dns@,
            t,
            m@.len() as int,
        ),
{
    let ghost was = sig_views(out@);
    assert(was + Seq::<SigView>::empty() =~= was);
    let n = m.len();
    for i in 0..n
        invariant
            n == m@.len(),
            f@.len() == m@.len(),
            sig_views(out@) == was + name_sigs(source@, m@, f@, r.dns@, t, i as int),
    {
        let hit = *m.value_at(i);
        let fade = f[i];
        let ghost part = name_sigs(source@, m@, f@, r.dns@, t, i as int);
        assert(part + Seq::<SigView>::empty() =~= part);
        if let Some(rule) = r.dns_by_id(m.name_at(i).as_str()) {
            if fade >= DECAY_MUTE {
                let mut detail = rule.label();
                push_times(&mut detail, hit.n);
                let s = Sig {
                    source,
                    detail,
                    age: elapsed(t, hit.last),
                    brand: owned(rule.brand.as_str()),
                    os: owned(rule.os.as_str()),
                    dtype: owned(rule.dtype.as_str()),
                    model: String::new(),
                    platform: String::new(),
                    kind: owned(rule.kind.as_str()),
                    weight: Weight::Bonus {
                        base: rule.weight,
                        tenths: if hit.n < 30 {
                            hit.n
                        } else {
                            30
                        },
                        fade,
                    },
                };
                proof {
                    assert(s@.model =~= Seq::<char>::empty());
                    assert(s@.platform =~= Seq::<char>::empty());
                    lemma_views_push(out@, s);
                    assert((was + part).push(s@) =~= was + (part + seq![s@]));
                }
                out.push(s);
            }
        }
    }
}

fn push_peers(out: &mut Vec<Sig>, m: &NameMap<Hit>, f: &Vec<u32>, r: &Rules, t: u64)
    requires
        f@.len() == m@.len(),
    ensures
        sig_views(final(out)@) == sig_views(old(out)@) + peer_sigs(
            m@,
            f@,
            r.peer@,
            t,
            m@.len() as int,
        ),
{
    let ghost was = sig_views(out@);
    assert(was + Seq::<SigView>::empty() =~= was);
    let n = m.len();
    for i in 0..n
        invariant
            n == m@.len(),
            f@.len() == m@.len(),
            sig_views(out@) == was + peer_sigs(m@, f@, r.peer@, t, i as int),
    {
        let hit = *m.value_at(i);
        let fade = f[i];
        let ghost part = peer_sigs(m@, f@, r.peer@, t, i as int);
        assert(part + Seq::<SigView>::empty() =~= part);
        if let Some(rule) = r.peer_by_id(m.name_at(i).as_str()) {
            if fade >= DECAY_MUTE {
                let mut detail = if rule.proto.as_str().is_empty() {
                    owned("tcp/udp")
                } else {
                    owned(rule.proto.as_str())
                };
                let ghost proto = detail@;
                detail.push('/');
                push_dec(&mut detail, rule.port as u64);
                assert(detail@ =~= proto + seq!['/'] + dec(rule.port as nat));
                push_times(&mut detail, hit.n);
                let s = Sig {
                    source: "peer",
                    detail,
                    age: elapsed(t, hit.last),
                    brand: owned(rule.brand.as_str()),
                    os: owned(rule.os.as_str()),
                    dtype: owned(rule.dtype.as_str()),
                    model: String::new(),
                    platform: String::new(),
                    kind: owned(rule.kind.as_str()),
                    weight: Weight::Faded { base: rule.weight, fade },
                };
                proof {
                    assert(s@.model =~= Seq::<char>::empty());
                    assert(s@.platform =~= Seq::<char>::empty());
                    lemma_views_push(out@, s);
                    assert((was + part).push(s@) =~= was + (part + seq![s@]));
                }
                out.push(s);
            }
        }
    }
}

fn push_ports(out: &mut Vec<Sig>, d: &Device, r: &Rules)
    ensures
        sig_views(final(out)@) == sig_views(old(out)@) + port_sigs(
            d.open_ports@,
            r.port@,
            d.open_ports@.len() as int,
        ),
{
    let ghost was = sig_views(out@);
    assert(was + Seq::<SigView>::empty() =~= was);
    for i in 0..d.open_ports.len()
        invariant
            sig_views(out@) == was + port_sigs(d.open_ports@, r.port@, i as int),
    {
        let p = d.open_ports[i];
        let ghost part = port_sigs(d.open_ports@, r.port@, i as int);
        assert(part + Seq::<SigView>::empty() =~= part);
        if let Some(m) = r.match_port(p) {
            let mut detail = String::new();
            push_dec(&mut detail, p as u64);
            append_str(&mut detail, "/tcp");
            assert(detail@ =~= dec(p as nat) + "/tcp"@);
            let s = Sig {
                source: "port",
                detail,
                age: 0,
                brand: owned(m.brand.as_str()),
                os: owned(m.os.as_str()),
                dtype: owned(m.dtype.as_str()),
                model: String::new(),
                platform: owned(m.platform.as_str()),
                kind: owned(m.kind.as_str()),
                weight: Weight::Whole(m.weight as i64),
            };
            proof {
                assert(s@.model =~= Seq::<char>::empty());
                lemma_views_push(out@, s);
                assert((was + part).push(s@) =~= was + (part + seq![s@]));
            }
            out.push(s);
        }
    }
}

// ---------------------------------------------------------------------------
// Forwarding
// ---------------------------------------------------------------------------

/// Whether a signal comes from the names that a device asks for or connects to.
pub open spec fn from_names(s: SigView) -> bool {
    s.source == "dns"@ || s.source == "sni"@
}

/// The brands whose own heartbeat is among the first `n` signals, in order.
pub open spec fn heartbeat_brands(v: Seq<SigView>, n: int) -> Entries<bool>
    decreases n,
{
    if n <= 0 {
        Seq::empty()
    } else {
        let before = heartbeat_brands(v, n - 1);
        let s = v[n - 1];
        if from_names(s) && s.kind == "heartbeat"@ && s.brand.len() > 0 {
            put(before, s.brand, true)
        } else {
            before
        }
    }
}

/// A signal without what it concludes.
pub open spec fn disowned(s: SigView) -> SigView {
    if from_names(s) {
        SigView { brand: Seq::empty(), os: Seq::empty(), dtype: Seq::empty(), ..s }
    } else {
        s
    }
}

/// The signals with the conclusion drawn that heartbeats of several brands mean
/// a device which asks on behalf of others: what its names say is then said of
/// those others.
pub open spec fn forwarded(v: Seq<SigView>, f: Option<Forwarder>) -> Seq<SigView> {
    let brands = heartbeat_brands(v, v.len() as int);
    match f {
        Some(f) if brands.len() >= f.min_brands => v.map_values(|s: SigView| disowned(s)).push(
            SigView {
                source: "forwarder"@,
                detail: joined(names_of(brands), "/"@),
                age: 0,
                brand: Seq::empty(),
                os: Seq::empty(),
                dtype: f.dtype@,
                model: Seq::empty(),
                platform: Seq::empty(),
                kind: "stack"@,
                weight: Weight::Whole(f.weight as i64),
            },
        ),
        _ => v,
    }
}

/// Whether a signal comes from names.
fn is_from_names(s: &Sig) -> (r: bool)
    ensures
        r == from_names(s@),
{
    eq(s.source, "dns") || eq(s.source, "sni")
}

fn draw_forwarding(out: &mut Vec<Sig>, f: &Option<Forwarder>)
    ensures
        sig_views(final(out)@) == forwarded(sig_views(old(out)@), *f),
{
    let ghost was = sig_views(out@);
    let mut brands: NameMap<bool> = NameMap::new();
    for i in 0..out.len()
        invariant
            was == sig_views(out@),
            brands.wf(),
            brands@ == heartbeat_brands(was, i as int),
    {
        let s = &out[i];
        assert(was[i as int] == s@);
        if is_from_names(s) && eq(s.kind.as_str(), "heartbeat") && !s.brand.as_str().is_empty() {
            brands.insert(owned(s.brand.as_str()), true);
        }
    }
    if let Some(f) = f {
        if brands.len() >= f.min_brands {
            let ghost cleared = was.map_values(|s: SigView| disowned(s));
            let n = out.len();
            for i in 0..n
                invariant
                    n == was.len(),
                    out@.len() == n,
                    cleared == was.map_values(|s: SigView| disowned(s)),
                    sig_views(out@) =~= cleared.take(i as int) + was.skip(i as int),
            {
                let ghost before = sig_views(out@);
                assert(before[i as int] == was[i as int]);
                assert(out@[i as int]@ == was[i as int]);
                if is_from_names(&out[i]) {
                    let s = &mut out[i];
                    s.brand = String::new();
                    s.os = String::new();
                    s.dtype = String::new();
                    proof {
                        assert(s.brand@ =~= Seq::<char>::empty());
                        assert(s.os@ =~= Seq::<char>::empty());
                        assert(s.dtype@ =~= Seq::<char>::empty());
                    }
                }
                assert(sig_views(out@) =~= before.update(i as int, disowned(was[i as int])));
                assert(sig_views(out@) =~= cleared.take(i + 1) + was.skip(i + 1));
            }
            assert(sig_views(out@) =~= cleared);
            let mut list: Vec<String> = Vec::new();
            let m = brands.len();
            for i in 0..m
                invariant
                    m == brands@.len(),
                    texts(list@) == names_of(brands@).take(i as int),
            {
                let ghost had = texts(list@);
                list.push(owned(brands.name_at(i).as_str()));
                assert(texts(list@) =~= had.push(brands@[i as int].0));
                assert(texts(list@) =~= names_of(brands@).take(i + 1));
            }
            assert(texts(list@) =~= names_of(brands@));
            let s = Sig {
                source: "forwarder",
                detail: join(&list, "/"),
                age: 0,
                brand: String::new(),
                os: String::new(),
                dtype: owned(f.dtype.as_str()),
                model: String::new(),
                platform: String::new(),
                kind: owned("stack"),
                weight: Weight::Whole(f.weight as i64),
            };
            proof {
                assert(s@.brand =~= Seq::<char>::empty());
                assert(s@.os =~= Seq::<char>::empty());
                assert(s@.model =~= Seq::<char>::empty());
                assert(s@.platform =~= Seq::<char>::empty());
                lemma_views_push(out@, s);
            }
            out.push(s);
        }
    }
}

// ---------------------------------------------------------------------------
// All signals
// ---------------------------------------------------------------------------

/// The signal of a rule about the way of asking.
pub open spec fn stack_sig(r: StackRule) -> SigView {
    SigView {
        source: "stack"@,
        detail: if r.desc@.len() == 0 {
            r.id@
        } else {
            r.desc@
        },
        age: 0,
        brand: r.brand@,
        os: r.os@,
        dtype: r.dtype@,
        model: Seq::empty(),
        platform: Seq::empty(),
        kind: "stack"@,
        weight: Weight::Whole(r.weight as i64),
    }
}

/// What the way of asking says.
pub open spec fn stack_sigs(rs: Seq<StackRule>, s: Shape) -> Seq<SigView> {
    stack_hits(rs, s).map_values(|r: StackRule| stack_sig(r))
}

/// What the holder of the hardware prefix says. A made up address says nothing.
pub open spec fn oui_sigs(d: DeviceView, r: Rules) -> Seq<SigView> {
    if mac_is_local(d.mac) {
        Seq::empty()
    } else {
        first_sig("oui"@, d.oui, r.oui_brand@, true)
    }
}

/// What the device itself says, before it is asked on whose behalf.
pub open spec fn own_sigs(d: DeviceView, r: Rules, t: u64, f: Fades) -> Seq<SigView> {
    vendor_sigs(d, r) + list_sigs(d, r) + model_sigs(d, r) + service_sigs(
        d.mdns_services,
        r.mdns_service@,
        d.mdns_services.len() as int,
    ) + first_sig("ssdp"@, d.upnp_server, r.upnp@, false) + all_sigs(
        "hostname"@,
        host_name(d),
        r.hostname@,
        false,
    ) + name_sigs("dns"@, d.dns_hits, f.dns@, r.dns@, t, d.dns_hits.len() as int) + name_sigs(
        "sni"@,
        d.sni_hits,
        f.sni@,
        r.dns@,
        t,
        d.sni_hits.len() as int,
    ) + all_sigs("mqtt"@, d.mqtt_id, r.mqtt@, true) + peer_sigs(
        d.peer_hits,
        f.peer@,
        r.peer@,
        t,
        d.peer_hits.len() as int,
    ) + first_sig("tcp"@, d.tcp_fp, r.tcp@, true) + all_sigs("ua"@, d.http_ua, r.ua@, true)
        + port_sigs(d.open_ports, r.port@, d.open_ports.len() as int) + all_sigs(
        "banner"@,
        d.banner,
        r.banner@,
        true,
    )
}

/// All signals but those that speak against a conclusion.
pub open spec fn signal_list(
    d: DeviceView,
    r: Rules,
    t: u64,
    f: Fades,
    s: Shape,
) -> Seq<SigView> {
    forwarded(own_sigs(d, r, t, f), r.forwarder) + stack_sigs(r.stack@, s) + oui_sigs(d, r)
}

fn push_stack(out: &mut Vec<Sig>, r: &Rules, shape: &Shape)
    requires
        shape.ratios.wf(),
    ensures
        sig_views(final(out)@) == sig_views(old(out)@) + stack_sigs(r.stack@, *shape),
{
    let found = r.match_stack(shape);
    let ghost was = sig_views(out@);
    let ghost all = stack_sigs(r.stack@, *shape);
    assert(was + all.take(0) =~= was);
    for i in 0..found.len()
        invariant
            seen_all(found@) == stack_hits(r.stack@, *shape),
            all == stack_sigs(r.stack@, *shape),
            sig_views(out@) == was + all.take(i as int),
    {
        let m = found[i];
        let s = Sig {
            source: "stack",
            detail: if m.desc.as_str().is_empty() {
                owned(m.id.as_str())
            } else {
                owned(m.desc.as_str())
            },
            age: 0,
            brand: owned(m.brand.as_str()),
            os: owned(m.os.as_str()),
            dtype: owned(m.dtype.as_str()),
            model: String::new(),
            platform: String::new(),
            kind: owned("stack"),
            weight: Weight::Whole(m.weight as i64),
        };
        proof {
            assert(s@.model =~= Seq::<char>::empty());
            assert(s@.platform =~= Seq::<char>::empty());
            lemma_views_push(out@, s);
            assert(seen_all(found@)[i as int] == *m);
            assert(all[i as int] == s@);
            assert(was + all.take(i + 1) =~= (was + all.take(i as int)).push(s@));
        }
        out.push(s);
    }
    assert(seen_all(found@).len() == found@.len());
    assert(all.take(all.len() as int) =~= all);
}

impl Device {
    /// Draws all signals but those that speak against a conclusion: what the
    /// rules `r` make of the device at the time `t`, with its hits faded to `f`
    /// and its way of asking measured as `shape`.
    pub fn signals(&self, r: &Rules, t: u64, f: &Fades, shape: &Shape) -> (v: Vec<Sig>)
        requires
            fades_fit(self@, *f),
            shape.ratios.wf(),
        ensures
            sig_views(v@) == signal_list(self@, *r, t, *f, *shape),
    {
        let mut out: Vec<Sig> = Vec::new();
        assert(sig_views(out@) =~= Seq::<SigView>::empty());
        push_vendor(&mut out, self, r);
        assert(sig_views(out@) =~= vendor_sigs(self@, *r));
        push_list(&mut out, self, r);
        push_model(&mut out, self, r);
        push_services(&mut out, self, r);
        push_first(
            &mut out,
            "ssdp",
            self.upnp_server.as_str(),
            r.match_upnp(self.upnp_server.as_str()),
            false,
        );
        let hn = if self.dhcp_name.as_str().is_empty() {
            self.mdns_name.as_str()
        } else {
            self.dhcp_name.as_str()
        };
        push_all(&mut out, "hostname", hn, r.match_hostname(hn), false);
        push_names(&mut out, "dns", &self.dns_hits, &f.dns, r, t);
        push_names(&mut out, "sni", &self.sni_hits, &f.sni, r, t);
        push_all(
            &mut out,
            "mqtt",
            self.mqtt_id.as_str(),
            r.match_mqtt(self.mqtt_id.as_str()),
            true,
        );
        push_peers(&mut out, &self.peer_hits, &f.peer, r, t);
        push_first(
            &mut out,
            "tcp",
            self.tcp_fp.as_str(),
            r.match_tcp(self.tcp_fp.as_str()),
            true,
        );
        push_all(
            &mut out,
            "ua",
            self.http_ua.as_str(),
            r.match_ua(self.http_ua.as_str()),
            true,
        );
        push_ports(&mut out, self, r);
        push_all(
            &mut out,
            "banner",
            self.banner.as_str(),
            r.match_banner(self.banner.as_str()),
            true,
        );
        assert(sig_views(out@) == own_sigs(self@, *r, t, *f));
        draw_forwarding(&mut out, &r.forwarder);
        push_stack(&mut out, r, shape);
        if !self.random_mac() {
            push_first(
                &mut out,
                "oui",
                self.oui.as_str(),
                r.match_oui_brand(self.oui.as_str()),
                true,
            );
        } else {
            assert(sig_views(out@) + Seq::<SigView>::empty() =~= sig_views(out@));
        }
        out
    }
}

// ---------------------------------------------------------------------------
// Speaking against a conclusion
// ---------------------------------------------------------------------------

/// Whether a signal of this kind can stand for a conclusion by itself: not what
/// a user may have browsed to, nor what many devices copy.
pub open spec fn stands_alone(kind: Seq<char>) -> bool {
    kind != "web"@ && kind != "weak"@
}

/// Whether a signal of this kind can stand for a conclusion by itself.
pub fn establishes(kind: &str) -> (r: bool)
    ensures
        r == stands_alone(kind@),
{
    !eq(kind, "web") && !eq(kind, "weak")
}

/// The place, among the first `n` signals, of the last of those with the largest
/// weight that name a brand and can stand alone.
pub open spec fn heaviest(v: Seq<SigView>, keys: Seq<i32>, n: int) -> Option<int>
    decreases n,
{
    if n <= 0 {
        None
    } else {
        let before = heaviest(v, keys, n - 1);
        if v[n - 1].brand.len() > 0 && stands_alone(v[n - 1].kind) && (before matches Some(j)
            ==> keys[n - 1] >= keys[j]) {
            Some(n - 1)
        } else {
            before
        }
    }
}

/// The brand that the signals suggest so far.
pub open spec fn suggested_brand(v: Seq<SigView>, keys: Seq<i32>) -> Seq<char> {
    match heaviest(v, keys, v.len() as int) {
        Some(i) => v[i].brand,
        None => Seq::empty(),
    }
}

/// The ports below 1024, in their order.
pub open spec fn low_ports(v: Seq<u16>) -> Seq<u16> {
    v.filter(|p: u16| p < 1024)
}

/// The ports in text.
pub open spec fn port_texts(v: Seq<u16>) -> Seq<Seq<char>> {
    v.map_values(|p: u16| dec(p as nat))
}

/// The signal against a conclusion that a rule gives, where its condition holds:
/// the only one there is asks for an open port below 1024.
pub open spec fn penalty_sig(p: Penalty, ports: Seq<u16>, brand: Seq<char>) -> Seq<SigView> {
    let soft = texts(p.soften_brands@).contains(brand);
    let w = if soft {
        p.soften_weight
    } else {
        p.weight
    };
    if p.cond@ == "privileged_port"@ && low_ports(ports).len() > 0 && w != 0 {
        seq![
            SigView {
                source: "penalty"@,
                detail: "开着特权端口 "@ + joined(port_texts(low_ports(ports)), ","@)
                    + " —— 不像"@ + p.dtype@ + if soft {
                    "(该品牌易 root, 已减轻)"@
                } else {
                    Seq::empty()
                },
                age: 0,
                brand: p.brand@,
                os: p.os@,
                dtype: p.dtype@,
                model: Seq::empty(),
                platform: Seq::empty(),
                kind: Seq::empty(),
                weight: Weight::Whole(w as i64),
            },
        ]
    } else {
        Seq::empty()
    }
}

/// The signals against a conclusion of the first `n` rules.
pub open spec fn penalty_sigs(
    ps: Seq<Penalty>,
    ports: Seq<u16>,
    brand: Seq<char>,
    n: int,
) -> Seq<SigView>
    decreases n,
{
    if n <= 0 {
        Seq::empty()
    } else {
        penalty_sigs(ps, ports, brand, n - 1) + penalty_sig(ps[n - 1], ports, brand)
    }
}

/// Finds the brand that the signals suggest so far.
fn find_brand(v: &Vec<Sig>, keys: &Vec<i32>) -> (r: String)
    requires
        keys@.len() == v@.len(),
    ensures
        r@ == suggested_brand(sig_views(v@), keys@),
{
    let mut best: Option<usize> = None;
    let ghost views = sig_views(v@);
    for i in 0..v.len()
        invariant
            views == sig_views(v@),
            keys@.len() == v@.len(),
            match best {
                Some(j) => j < v@.len() && heaviest(views, keys@, i as int) == Some(j as int),
                None => heaviest(views, keys@, i as int) is None,
            },
    {
        let s = &v[i];
        assert(views[i as int] == s@);
        if !s.brand.as_str().is_empty() && establishes(s.kind.as_str()) {
            match best {
                Some(j) => {
                    if keys[i] >= keys[j] {
                        best = Some(i);
                    }
                },
                None => {
                    best = Some(i);
                },
            }
        }
    }
    match best {
        Some(j) => {
            assert(views[j as int] == v@[j as int]@);
            owned(v[j].brand.as_str())
        },
        None => {
            let r = String::new();
            assert(r@ =~= Seq::<char>::empty());
            r
        },
    }
}

/// Writes the ports below 1024.
fn low_port_texts(v: &Vec<u16>) -> (r: Vec<String>)
    ensures
        texts(r@) == port_texts(low_ports(v@)),
{
    let mut out: Vec<String> = Vec::new();
    let ghost f = |p: u16| p < 1024;
    assert(texts(out@) =~= port_texts(v@.take(0).filter(f))) by {
        reveal(Seq::filter);
    }
    for i in 0..v.len()
        invariant
            f == (|p: u16| p < 1024),
            texts(out@) == port_texts(v@.take(i as int).filter(f)),
    {
        let ghost was = texts(out@);
        assert(v@.take(i + 1).drop_last() =~= v@.take(i as int));
        if v[i] < 1024 {
            out.push(show(v[i] as u64));
            assert(texts(out@) =~= was.push(dec(v@[i as int] as nat)));
        }
        assert(texts(out@) =~= port_texts(v@.take(i + 1).filter(f))) by {
            reveal(Seq::filter);
        }
    }
    assert(v@.take(v@.len() as int) =~= v@);
    out
}

impl Device {
    /// Draws the signals that speak against a conclusion. `v` are the other
    /// signals and `keys` their weights.
    pub fn penalties(&self, r: &Rules, v: &Vec<Sig>, keys: &Vec<i32>) -> (out: Vec<Sig>)
        requires
            keys@.len() == v@.len(),
        ensures
            sig_views(out@) == penalty_sigs(
                r.penalty@,
                self.open_ports@,
                suggested_brand(sig_views(v@), keys@),
                r.penalty@.len() as int,
            ),
    {
        let brand = find_brand(v, keys);
        let ports = low_port_texts(&self.open_ports);
        let mut out: Vec<Sig> = Vec::new();
        assert(sig_views(out@) =~= Seq::<SigView>::empty());
        for i in 0..r.penalty.len()
            invariant
                texts(ports@) == port_texts(low_ports(self.open_ports@)),
                sig_views(out@) == penalty_sigs(
                    r.penalty@,
                    self.open_ports@,
                    brand@,
                    i as int,
                ),
        {
            let p = &r.penalty[i];
            let ghost part = sig_views(out@);
            assert(part + Seq::<SigView>::empty() =~= part);
            assert(texts(ports@).len() == low_ports(self.open_ports@).len());
            if eq(p.cond.as_str(), "privileged_port") && ports.len() > 0 {
                let soft = lists(&p.soften_brands, brand.as_str());
                let w = if soft {
                    p.soften_weight
                } else {
                    p.weight
                };
                if w != 0 {
                    let mut detail = owned("开着特权端口 ");
                    let list = join(&ports, ",");
                    append_str(&mut detail, list.as_str());
                    append_str(&mut detail, " —— 不像");
                    append_str(&mut detail, p.dtype.as_str());
                    if soft {
                        append_str(&mut detail, "(该品牌易 root, 已减轻)");
                    } else {
                        assert(detail@ + Seq::<char>::empty() =~= detail@);
                    }
                    let s = Sig {
                        source: "penalty",
                        detail,
                        age: 0,
                        brand: owned(p.brand.as_str()),
                        os: owned(p.os.as_str()),
                        dtype: owned(p.dtype.as_str()),
                        model: String::new(),
                        platform: String::new(),
                        kind: String::new(),
                        weight: Weight::Whole(w as i64),
                    };
                    proof {
                        assert(s@.model =~= Seq::<char>::empty());
                        assert(s@.platform =~= Seq::<char>::empty());
                        assert(s@.kind =~= Seq::<char>::empty());
                        lemma_views_push(out@, s);
                        assert(part.push(s@) =~= part + seq![s@]);
                    }
                    out.push(s);
                }
            }
        }
        out
    }
}

// ---------------------------------------------------------------------------
// Pooling
// ---------------------------------------------------------------------------

/// What the signals are pooled by.
#[derive(Clone, Copy, PartialEq, Eq, Structural)]
pub enum Field {
    Brand,
    Os,
    Dtype,
}

/// What a signal says of a field.
pub open spec fn said(s: SigView, k: Field) -> Seq<char> {
    match k {
        Field::Brand => s.brand,
        Field::Os => s.os,
        Field::Dtype => s.dtype,
    }
}

/// Whether some signal that can stand alone says `name` of a field.
pub open spec fn stood_for(v: Seq<SigView>, k: Field, name: Seq<char>) -> bool {
    exists|i: int|
        0 <= i < v.len() && stands_alone((#[trigger] v[i]).kind) && said(v[i], k) == name
}

/// Whether the signal at `i` counts for what it says of a field: where it can
/// stand alone, or, for a brand or a system, some other signal that says the
/// same can.
pub open spec fn counts(v: Seq<SigView>, k: Field, i: int) -> bool {
    said(v[i], k).len() > 0 && match k {
        Field::Dtype => stands_alone(v[i].kind),
        _ => stood_for(v, k, said(v[i], k)),
    }
}

/// For each name that the first `n` signals give a field, the places of the
/// signals that count for it.
pub open spec fn pool(v: Seq<SigView>, k: Field, n: int) -> Entries<Seq<usize>>
    decreases n,
{
    if n <= 0 {
        Seq::empty()
    } else {
        let before = pool(v, k, n - 1);
        if counts(v, k, n - 1) {
            let name = said(v[n - 1], k);
            put(before, name, lookup_or(before, name, Seq::empty()).push((n - 1) as usize))
        } else {
            before
        }
    }
}

/// What a signal says of a field.
fn get_said(s: &Sig, k: Field) -> (r: &String)
    ensures
        r@ == said(s@, k),
{
    match k {
        Field::Brand => &s.brand,
        Field::Os => &s.os,
        Field::Dtype => &s.dtype,
    }
}

/// Whether some signal that can stand alone says `name` of a field.
fn is_stood_for(v: &Vec<Sig>, k: Field, name: &str) -> (r: bool)
    ensures
        r == stood_for(sig_views(v@), k, name@),
{
    let ghost views = sig_views(v@);
    for i in 0..v.len()
        invariant
            views == sig_views(v@),
            forall|j: int|
                0 <= j < i ==> !(stands_alone((#[trigger] views[j]).kind) && said(views[j], k)
                    == name@),
    {
        assert(views[i as int] == v@[i as int]@);
        if establishes(v[i].kind.as_str()) && eq(get_said(&v[i], k).as_str(), name) {
            return true;
        }
    }
    false
}

/// Pools the signals by what they say of a field: for each name, the places of
/// the signals that count for it.
pub fn pool_by(v: &Vec<Sig>, k: Field) -> (r: NameMap<Vec<usize>>)
    ensures
        r.wf(),
        views(r@) == pool(sig_views(v@), k, v@.len() as int),
{
    let mut out: NameMap<Vec<usize>> = NameMap::new();
    let ghost sv = sig_views(v@);
    assert(views(out@) =~= Seq::<(Seq<char>, Seq<usize>)>::empty());
    for i in 0..v.len()
        invariant
            out.wf(),
            sv == sig_views(v@),
            views(out@) == pool(sv, k, i as int),
    {
        let s = &v[i];
        assert(sv[i as int] == s@);
        let name = get_said(s, k);
        if !name.as_str().is_empty() {
            let yes = match k {
                Field::Dtype => establishes(s.kind.as_str()),
                _ => is_stood_for(v, k, name.as_str()),
            };
            if yes {
                let ghost was = out@;
                let list = out.entry(name.as_str(), Vec::new());
                let ghost had = *list;
                list.push(i);
                let ghost got = *list;
                proof {
                    lemma_views(was, name@, had);
                    lemma_views(was, name@, got);
                    assert(had@ =~= lookup_or(views(was), name@, Seq::empty()));
                }
            }
        }
    }
    out
}

// ---------------------------------------------------------------------------
// From pools to conclusions
// ---------------------------------------------------------------------------

/// The names of a pool whose weight is above zero, each with its place in the
/// pool.
pub open spec fn above_zero<V>(m: Entries<V>, keys: Seq<i32>, n: int) -> Entries<usize>
    decreases n,
{
    if n <= 0 {
        Seq::empty()
    } else if keys[n - 1] > 0 {
        above_zero(m, keys, n - 1).push((m[n - 1].0, (n - 1) as usize))
    } else {
        above_zero(m, keys, n - 1)
    }
}

/// What is left of a pool, and which weights are added to which on the way there.
pub struct Folded {
    pub left: Entries<usize>,
    pub merges: Seq<(usize, usize)>,
}

/// The pool after the first `n` rules about names of which one says more than the
/// other: where both are left, the weight of the general name goes to the special
/// one and the general name goes.
pub open spec fn folded(start: Entries<usize>, ss: Seq<Subsume>, n: int) -> Folded
    decreases n,
{
    if n <= 0 {
        Folded { left: start, merges: Seq::empty() }
    } else {
        let f = folded(start, ss, n - 1);
        let to = lookup(f.left, ss[n - 1].specific@);
        let from = lookup(f.left, ss[n - 1].generic@);
        if to is Some && from is Some {
            Folded {
                left: without(f.left, ss[n - 1].generic@),
                merges: f.merges.push((to.unwrap(), from.unwrap())),
            }
        } else {
            f
        }
    }
}

/// What is left of a pool, with the merges that led there.
pub struct Settled {
    /// The names that are left, each with its place in the pool.
    pub left: NameMap<usize>,
    /// In their order: the place whose weight grows, and the place whose weight
    /// is added to it.
    pub merges: Vec<(usize, usize)>,
}

pub proof fn lemma_above_zero<V>(m: Entries<V>, keys: Seq<i32>, n: int)
    requires
        0 <= n <= m.len(),
        ordered(m),
    ensures
        ordered(above_zero(m, keys, n)),
        forall|i: int|
            0 <= i < above_zero(m, keys, n).len() ==> exists|j: int|
                0 <= j < n && (#[trigger] above_zero(m, keys, n)[i]).0 == (#[trigger] m[j]).0,
    decreases n,
{
    if n > 0 {
        lemma_above_zero(m, keys, n - 1);
        let a = above_zero(m, keys, n - 1);
        let b = above_zero(m, keys, n);
        if keys[n - 1] > 0 {
            assert forall|i: int, j: int| 0 <= i < j < b.len() implies less(
                #[trigger] b[i].0,
                #[trigger] b[j].0,
            ) by {
                if j == a.len() {
                    let k = choose|k: int| 0 <= k < n - 1 && a[i].0 == (#[trigger] m[k]).0;
                    assert(b[i] == a[i]);
                    assert(less(m[k].0, m[n - 1].0));
                } else {
                    assert(b[i] == a[i] && b[j] == a[j]);
                }
            }
            assert forall|i: int| 0 <= i < b.len() implies exists|j: int|
                0 <= j < n && (#[trigger] b[i]).0 == (#[trigger] m[j]).0 by {
                if i < a.len() {
                    assert(b[i] == a[i]);
                    let k = choose|k: int| 0 <= k < n - 1 && a[i].0 == (#[trigger] m[k]).0;
                    assert(b[i].0 == m[k].0);
                } else {
                    assert(b[i].0 == m[n - 1].0);
                }
            }
        }
    }
}

/// Drops the names of a pool whose weight is not above zero and folds general
/// names into special ones.
pub fn settle(m: &NameMap<Vec<usize>>, keys: &Vec<i32>, ss: &Vec<Subsume>) -> (r: Settled)
    requires
        m.wf(),
        keys@.len() == m@.len(),
    ensures
        r.left.wf(),
        r.left@ == folded(
            above_zero(m@, keys@, m@.len() as int),
            ss@,
            ss@.len() as int,
        ).left,
        r.merges@ == folded(
            above_zero(m@, keys@, m@.len() as int),
            ss@,
            ss@.len() as int,
        ).merges,
        forall|i: int| 0 <= i < r.left@.len() ==> (#[trigger] r.left@[i]).1 < m@.len(),
        forall|i: int|
            0 <= i < r.merges@.len() ==> (#[trigger] r.merges@[i]).0 < m@.len() && r.merges@[i].1
                < m@.len(),
{
    let mut left: NameMap<usize> = NameMap::new();
    let n = m.len();
    for i in 0..n
        invariant
            n == m@.len(),
            m.wf(),
            keys@.len() == m@.len(),
            left.wf(),
            left@ == above_zero(m@, keys@, i as int),
    {
        if keys[i] > 0 {
            proof {
                lemma_above_zero(m@, keys@, i as int);
                lemma_put_last(left@, m@[i as int].0, i);
            }
            left.insert(owned(m.name_at(i).as_str()), i);
        }
    }
    let ghost start = left@;
    proof {
        lemma_above_keys(m@, keys@, m@.len() as int);
    }
    let mut merges: Vec<(usize, usize)> = Vec::new();
    for i in 0..ss.len()
        invariant
            left.wf(),
            n == m@.len(),
            forall|i: int| 0 <= i < left@.len() ==> (#[trigger] left@[i]).1 < n,
            forall|i: int|
                0 <= i < merges@.len() ==> (#[trigger] merges@[i]).0 < n && merges@[i].1 < n,
            left@ == folded(start, ss@, i as int).left,
            merges@ == folded(start, ss@, i as int).merges,
    {
        let to: Option<usize> = match left.get(ss[i].specific.as_str()) {
            Some(v) => Some(*v),
            None => None,
        };
        if let Some(a) = to {
            if left.contains_key(ss[i].generic.as_str()) {
                let ghost had = left@;
                if let Some(b) = left.remove(ss[i].generic.as_str()) {
                    proof {
                        let x = lemma_lookup_index(had, ss@[i as int].specific@);
                        let y = lemma_lookup_index(had, ss@[i as int].generic@);
                        assert(had[x].1 < n && had[y].1 < n);
                        lemma_without_places(had, ss@[i as int].generic@, n as int);
                    }
                    merges.push((a, b));
                }
            }
        }
    }
    Settled { left, merges }
}

proof fn lemma_without_places(m: Entries<usize>, k: Seq<char>, n: int)
    requires
        forall|i: int| 0 <= i < m.len() ==> (#[trigger] m[i]).1 < n,
    ensures
        forall|i: int| 0 <= i < without(m, k).len() ==> (#[trigger] without(m, k)[i]).1 < n,
    decreases m.len(),
{
    if m.len() > 0 {
        let rest = m.skip(1);
        assert forall|i: int| 0 <= i < rest.len() implies (#[trigger] rest[i]).1 < n by {
            assert(rest[i] == m[i + 1]);
        }
        lemma_without_places(rest, k, n);
        assert forall|i: int| 0 <= i < without(m, k).len() implies (#[trigger] without(m, k)[i]).1
            < n by {
            if m[0].0 != k && i > 0 {
                assert(without(m, k)[i] == without(rest, k)[i - 1]);
            }
        }
    }
}

proof fn lemma_put_last(m: Entries<usize>, k: Seq<char>, v: usize)
    requires
        forall|i: int| 0 <= i < m.len() ==> less((#[trigger] m[i]).0, k),
    ensures
        put(m, k, v) == m.push((k, v)),
    decreases m.len(),
{
    if m.len() > 0 {
        lemma_less_total(m[0].0, k);
        assert forall|i: int| 0 <= i < m.skip(1).len() implies less(
            (#[trigger] m.skip(1)[i]).0,
            k,
        ) by {
            assert(m.skip(1)[i] == m[i + 1]);
        }
        lemma_put_last(m.skip(1), k, v);
        assert(put(m, k, v) =~= m.push((k, v)));
    } else {
        assert(put(m, k, v) =~= m.push((k, v)));
    }
}

/// The position, among the first `n` of what is left, of the first name with the
/// largest weight, not counting the position `but`.
pub open spec fn leader(left: Entries<usize>, keys: Seq<i32>, but: Option<int>, n: int) -> Option<
    int,
>
    decreases n,
{
    if n <= 0 {
        None
    } else {
        let before = leader(left, keys, but, n - 1);
        if but != Some(n - 1) && (before matches Some(j) ==> keys[left[n - 1].1 as int]
            > keys[left[j].1 as int]) {
            Some(n - 1)
        } else {
            before
        }
    }
}

/// Who leads what is left of a pool.
pub struct Ranked {
    /// The leading name; empty where nothing is left.
    pub name: String,
    /// The place in the pool of the leading name.
    pub first: Option<usize>,
    /// The place in the pool of the runner-up.
    pub second: Option<usize>,
}

/// Finds the first name with the largest weight, not counting one position.
fn find_leader(left: &NameMap<usize>, keys: &Vec<i32>, but: Option<usize>) -> (r: Option<usize>)
    requires
        forall|i: int| 0 <= i < left@.len() ==> (#[trigger] left@[i]).1 < keys@.len(),
    ensures
        match r {
            Some(j) => j < left@.len() && leader(
                left@,
                keys@,
                opt_int(but),
                left@.len() as int,
            ) == Some(j as int),
            None => leader(left@, keys@, opt_int(but), left@.len() as int) is None,
        },
{
    let mut best: Option<usize> = None;
    let n = left.len();
    for i in 0..n
        invariant
            n == left@.len(),
            forall|i: int| 0 <= i < left@.len() ==> (#[trigger] left@[i]).1 < keys@.len(),
            match best {
                Some(j) => j < i && leader(left@, keys@, opt_int(but), i as int) == Some(j as int),
                None => leader(left@, keys@, opt_int(but), i as int) is None,
            },
    {
        let skip = match but {
            Some(b) => b == i,
            None => false,
        };
        if !skip {
            match best {
                Some(j) => {
                    assert(left@[i as int].1 < keys@.len());
                    assert(left@[j as int].1 < keys@.len());
                    if keys[*left.value_at(i)] > keys[*left.value_at(j)] {
                        best = Some(i);
                    }
                },
                None => {
                    best = Some(i);
                },
            }
        }
    }
    best
}

/// A place that may be missing.
pub open spec fn opt_int(o: Option<usize>) -> Option<int> {
    match o {
        Some(i) => Some(i as int),
        None => None,
    }
}

/// The leading position of what is left of a pool.
pub open spec fn first_place(left: Entries<usize>, keys: Seq<i32>) -> Option<int> {
    leader(left, keys, None, left.len() as int)
}

/// The position of the runner-up; `None` where nothing leads.
pub open spec fn second_place(left: Entries<usize>, keys: Seq<i32>) -> Option<int> {
    match first_place(left, keys) {
        Some(i) => leader(left, keys, Some(i), left.len() as int),
        None => None,
    }
}

/// Ranks what is left of a pool by weight; of equal weights, the name that comes
/// first in order leads. `keys` are the weights by place in the pool.
pub fn rank(left: &NameMap<usize>, keys: &Vec<i32>) -> (r: Ranked)
    requires
        forall|i: int| 0 <= i < left@.len() ==> (#[trigger] left@[i]).1 < keys@.len(),
    ensures
        match first_place(left@, keys@) {
            Some(i) => r.name@ == left@[i].0 && r.first == Some(left@[i].1),
            None => r.name@.len() == 0 && r.first is None,
        },
        match second_place(left@, keys@) {
            Some(i) => r.second == Some(left@[i].1),
            None => r.second is None,
        },
{
    match find_leader(left, keys, None) {
        Some(i) => {
            let second = match find_leader(left, keys, Some(i)) {
                Some(j) => Some(*left.value_at(j)),
                None => None,
            };
            Ranked {
                name: owned(left.name_at(i).as_str()),
                first: Some(*left.value_at(i)),
                second,
            }
        },
        None => Ranked { name: String::new(), first: None, second: None },
    }
}

/// The text of the heaviest of the first `n` signals that has one, and its
/// weight. It must weigh more than nothing, and of equal weights the first wins.
pub open spec fn strongest(ts: Seq<Seq<char>>, keys: Seq<i32>, n: int) -> (Seq<char>, i32)
    decreases n,
{
    if n <= 0 {
        (Seq::empty(), 0)
    } else {
        let before = strongest(ts, keys, n - 1);
        if ts[n - 1].len() > 0 && keys[n - 1] > before.1 {
            (ts[n - 1], keys[n - 1])
        } else {
            before
        }
    }
}

/// The models that a list of signals gives.
pub open spec fn models(v: Seq<SigView>) -> Seq<Seq<char>> {
    v.map_values(|s: SigView| s.model)
}

/// The platforms that a list of signals gives.
pub open spec fn platforms(v: Seq<SigView>) -> Seq<Seq<char>> {
    v.map_values(|s: SigView| s.platform)
}

/// Finds the model of the heaviest signal that gives one.
pub fn strongest_model(v: &Vec<Sig>, keys: &Vec<i32>) -> (r: String)
    requires
        keys@.len() == v@.len(),
    ensures
        r@ == strongest(models(sig_views(v@)), keys@, v@.len() as int).0,
{
    let mut best = String::new();
    let mut weight: i32 = 0;
    let ghost ts = models(sig_views(v@));
    assert(best@ =~= Seq::<char>::empty());
    for i in 0..v.len()
        invariant
            keys@.len() == v@.len(),
            ts == models(sig_views(v@)),
            (best@, weight) == strongest(ts, keys@, i as int),
    {
        assert(ts[i as int] == v@[i as int].model@);
        if !v[i].model.as_str().is_empty() && keys[i] > weight {
            best = owned(v[i].model.as_str());
            weight = keys[i];
        }
    }
    best
}

/// Finds the platform of the heaviest signal that gives one.
pub fn strongest_platform(v: &Vec<Sig>, keys: &Vec<i32>) -> (r: String)
    requires
        keys@.len() == v@.len(),
    ensures
        r@ == strongest(platforms(sig_views(v@)), keys@, v@.len() as int).0,
{
    let mut best = String::new();
    let mut weight: i32 = 0;
    let ghost ts = platforms(sig_views(v@));
    assert(best@ =~= Seq::<char>::empty());
    for i in 0..v.len()
        invariant
            keys@.len() == v@.len(),
            ts == platforms(sig_views(v@)),
            (best@, weight) == strongest(ts, keys@, i as int),
    {
        assert(ts[i as int] == v@[i as int].platform@);
        if !v[i].platform.as_str().is_empty() && keys[i] > weight {
            best = owned(v[i].platform.as_str());
            weight = keys[i];
        }
    }
    best
}

// ---------------------------------------------------------------------------
// Evidence
// ---------------------------------------------------------------------------

/// How many pieces of evidence are shown.
pub const EVIDENCE_MAX: usize = 20;

/// A piece of evidence with its strings as texts.
pub struct EvView {
    pub source: Seq<char>,
    pub detail: Seq<char>,
    pub age: u64,
    pub kind: Seq<char>,
    pub weight: i32,
}

impl View for Ev {
    type V = EvView;

    open spec fn view(&self) -> EvView {
        EvView {
            source: self.source@,
            detail: self.detail@,
            age: self.age,
            kind: self.kind@,
            weight: self.weight,
        }
    }
}

/// The views of a list of evidence.
pub open spec fn ev_views(v: Seq<Ev>) -> Seq<EvView> {
    v.map_values(|e: Ev| e@)
}

/// What is shown of a signal whose weight rounds to `w`.
pub open spec fn shown(s: SigView, w: i32) -> EvView {
    EvView { source: s.source, detail: s.detail, age: s.age, kind: s.kind, weight: w }
}

/// The list with `e` put behind all that weigh at least as much.
pub open spec fn ranked_in(l: Seq<EvView>, e: EvView) -> Seq<EvView>
    decreases l.len(),
{
    if l.len() == 0 || l.last().weight >= e.weight {
        l.push(e)
    } else {
        ranked_in(l.drop_last(), e).push(l.last())
    }
}

/// The first `n` signals as evidence, the weightiest first; of equal weights, the
/// earlier signal comes first.
pub open spec fn ranked_evidence(v: Seq<SigView>, ws: Seq<i32>, n: int) -> Seq<EvView>
    decreases n,
{
    if n <= 0 {
        Seq::empty()
    } else {
        ranked_in(ranked_evidence(v, ws, n - 1), shown(v[n - 1], ws[n - 1]))
    }
}

/// The evidence that is shown.
pub open spec fn shown_evidence(v: Seq<SigView>, ws: Seq<i32>) -> Seq<EvView> {
    let all = ranked_evidence(v, ws, v.len() as int);
    if all.len() > EVIDENCE_MAX {
        all.take(EVIDENCE_MAX as int)
    } else {
        all
    }
}

proof fn lemma_ranked_in(l: Seq<EvView>, e: EvView, j: int)
    requires
        0 <= j <= l.len(),
        j > 0 ==> l[j - 1].weight >= e.weight,
        forall|i: int| j <= i < l.len() ==> (#[trigger] l[i]).weight < e.weight,
    ensures
        ranked_in(l, e) == l.insert(j, e),
    decreases l.len(),
{
    if j < l.len() {
        let front = l.drop_last();
        assert forall|i: int| j <= i < front.len() implies (#[trigger] front[i]).weight
            < e.weight by {
            assert(front[i] == l[i]);
        }
        if j > 0 {
            assert(front[j - 1] == l[j - 1]);
        }
        lemma_ranked_in(front, e, j);
        assert(l.last().weight < e.weight);
        assert(front.insert(j, e).push(l.last()) =~= l.insert(j, e));
    } else {
        assert(l.push(e) =~= l.insert(j, e));
    }
}

/// Lists the evidence that is shown. `ws` are the weights of the signals, rounded.
pub fn evidence(v: &Vec<Sig>, ws: &Vec<i32>) -> (r: Vec<Ev>)
    requires
        ws@.len() == v@.len(),
    ensures
        ev_views(r@) == shown_evidence(sig_views(v@), ws@),
        r@.len() <= EVIDENCE_MAX,
{
    let mut out: Vec<Ev> = Vec::new();
    let ghost views = sig_views(v@);
    assert(ev_views(out@) =~= Seq::<EvView>::empty());
    for i in 0..v.len()
        invariant
            ws@.len() == v@.len(),
            views == sig_views(v@),
            ev_views(out@) == ranked_evidence(views, ws@, i as int),
    {
        let s = &v[i];
        let w = ws[i];
        assert(views[i as int] == s@);
        let mut j = out.len();
        while j > 0 && out[j - 1].weight < w
            invariant
                j <= out@.len(),
                forall|k: int| j <= k < out@.len() ==> (#[trigger] out@[k]).weight < w,
            decreases j,
        {
            j = j - 1;
        }
        let e = Ev {
            source: owned(s.source),
            detail: owned(s.detail.as_str()),
            age: s.age,
            kind: owned(s.kind.as_str()),
            weight: w,
        };
        let ghost was = ev_views(out@);
        let ghost ev = e@;
        proof {
            assert forall|k: int| j <= k < was.len() implies (#[trigger] was[k]).weight < w by {
                assert(was[k] == out@[k]@);
            }
            if j > 0 {
                assert(was[j - 1] == out@[j - 1]@);
            }
            lemma_ranked_in(was, ev, j as int);
        }
        out.insert(j, e);
        assert(ev_views(out@) =~= was.insert(j as int, ev));
    }
    let ghost all = ev_views(out@);
    while out.len() > EVIDENCE_MAX
        invariant
            all == ranked_evidence(views, ws@, views.len() as int),
            ev_views(out@) == all.take(out@.len() as int),
            out@.len() <= all.len(),
            out@.len() < all.len() ==> out@.len() >= EVIDENCE_MAX,
        decreases out@.len(),
    {
        out.pop();
        assert(ev_views(out@) =~= all.take(out@.len() as int));
    }
    assert(all.take(all.len() as int) =~= all);
    out
}

// ---------------------------------------------------------------------------
// The conclusion
// ---------------------------------------------------------------------------

/// A conclusion, in mathematical values.
pub struct IdentView {
    pub brand: Seq<char>,
    pub os: Seq<char>,
    pub dtype: Seq<char>,
    pub model: Seq<char>,
    pub platform: Seq<char>,
    pub confidence: u32,
    pub evidence: Seq<EvView>,
}

impl View for Ident {
    type V = IdentView;

    open spec fn view(&self) -> IdentView {
        IdentView {
            brand: self.brand@,
            os: self.os@,
            dtype: self.dtype@,
            model: self.model@,
            platform: self.platform@,
            confidence: self.confidence,
            evidence: ev_views(self.evidence@),
        }
    }
}

/// Nothing is ever certain: no conclusion is held with more confidence, in percent.
pub const CONFIDENCE_MAX: u32 = 99;

/// The conclusion that signals of the weights `keys`, which round to `ws`, lead to,
/// with the names that lead their pools. Without a brand and without a system it is
/// held with no confidence, and it is never held with more than `CONFIDENCE_MAX`.
pub open spec fn conclusion(
    v: Seq<SigView>,
    keys: Seq<i32>,
    ws: Seq<i32>,
    brand: Ranked,
    os: Ranked,
    dtype: Ranked,
    confidence: u32,
) -> IdentView {
    IdentView {
        brand: brand.name@,
        os: os.name@,
        dtype: dtype.name@,
        model: strongest(models(v), keys, v.len() as int).0,
        platform: strongest(platforms(v), keys, v.len() as int).0,
        confidence: if brand.first is None && os.first is None {
            0
        } else if confidence > CONFIDENCE_MAX {
            CONFIDENCE_MAX
        } else {
            confidence
        },
        evidence: shown_evidence(v, ws),
    }
}

/// Puts the conclusion together.
pub fn conclude(
    v: &Vec<Sig>,
    keys: &Vec<i32>,
    ws: &Vec<i32>,
    brand: Ranked,
    os: Ranked,
    dtype: Ranked,
    confidence: u32,
) -> (r: Ident)
    requires
        keys@.len() == v@.len(),
        ws@.len() == v@.len(),
    ensures
        r@ == conclusion(sig_views(v@), keys@, ws@, brand, os, dtype, confidence),
        r.confidence <= CONFIDENCE_MAX,
{
    assert(sig_views(v@).len() == v@.len());
    let none = brand.first.is_none() && os.first.is_none();
    Ident {
        brand: brand.name,
        os: os.name,
        dtype: dtype.name,
        model: strongest_model(v, keys),
        platform: strongest_platform(v, keys),
        confidence: if none {
            0
        } else if confidence > CONFIDENCE_MAX {
            CONFIDENCE_MAX
        } else {
            confidence
        },
        evidence: evidence(v, ws),
    }
}

// ---------------------------------------------------------------------------
// Laws
// ---------------------------------------------------------------------------

/// Whether a list falls in weight.
pub open spec fn falls(l: Seq<EvView>) -> bool {
    forall|i: int, j: int|
        0 <= i <= j < l.len() ==> (#[trigger] l[i]).weight >= (#[trigger] l[j]).weight
}

proof fn lemma_ranked_falls(l: Seq<EvView>, e: EvView)
    requires
        falls(l),
    ensures
        falls(ranked_in(l, e)),
        ranked_in(l, e).len() == l.len() + 1,
        ranked_in(l, e).to_multiset() == l.to_multiset().insert(e),
        forall|i: int|
            0 <= i < ranked_in(l, e).len() ==> (#[trigger] ranked_in(l, e)[i]).weight >= e.weight
                || l.len() > 0 && ranked_in(l, e)[i].weight >= l.last().weight,
    decreases l.len(),
{
    broadcast use vstd::seq_lib::group_to_multiset_ensures;

    if l.len() > 0 && l.last().weight < e.weight {
        let front = l.drop_last();
        assert(falls(front)) by {
            assert forall|i: int, j: int| 0 <= i <= j < front.len() implies (
            #[trigger] front[i]).weight >= (#[trigger] front[j]).weight by {
                assert(front[i] == l[i] && front[j] == l[j]);
            }
        }
        lemma_ranked_falls(front, e);
        assert(front.push(l.last()) =~= l);
        let a = ranked_in(front, e);
        let b = ranked_in(l, e);
        assert(b.to_multiset() =~= l.to_multiset().insert(e));
        if front.len() > 0 {
            assert(l[front.len() - 1].weight >= l[l.len() - 1].weight);
        }
        assert forall|i: int, j: int| 0 <= i <= j < b.len() implies (#[trigger] b[i]).weight
            >= (#[trigger] b[j]).weight by {
            if j == a.len() && i < a.len() {
                assert(b[i] == a[i]);
            } else if j < a.len() {
                assert(b[i] == a[i] && b[j] == a[j]);
            }
        }
        assert forall|i: int| 0 <= i < b.len() implies (#[trigger] b[i]).weight >= e.weight
            || b[i].weight >= l.last().weight by {
            if i < a.len() {
                assert(b[i] == a[i]);
            }
        }
    } else {
        let b = l.push(e);
        assert forall|i: int, j: int| 0 <= i <= j < b.len() implies (#[trigger] b[i]).weight
            >= (#[trigger] b[j]).weight by {
            if j == l.len() && i < l.len() {
                assert(b[i] == l[i]);
                assert(l[i].weight >= l[l.len() - 1].weight);
            } else if j < l.len() {
                assert(b[i] == l[i] && b[j] == l[j]);
            }
        }
        assert forall|i: int| 0 <= i < b.len() implies (#[trigger] b[i]).weight >= e.weight
            || l.len() > 0 && b[i].weight >= l.last().weight by {
            if i < l.len() {
                assert(l[i].weight >= l[l.len() - 1].weight);
            }
        }
    }
}

/// The evidence falls in weight, and no signal is lost or made up on the way.
pub proof fn law_evidence_is_ranked(v: Seq<SigView>, ws: Seq<i32>, n: int)
    requires
        0 <= n <= v.len(),
        ws.len() == v.len(),
    ensures
        falls(ranked_evidence(v, ws, n)),
        ranked_evidence(v, ws, n).to_multiset() == Seq::new(
            n as nat,
            |i: int| shown(v[i], ws[i]),
        ).to_multiset(),
    decreases n,
{
    broadcast use vstd::seq_lib::group_to_multiset_ensures;

    let all = Seq::new(n as nat, |i: int| shown(v[i], ws[i]));
    if n > 0 {
        let less = Seq::new((n - 1) as nat, |i: int| shown(v[i], ws[i]));
        law_evidence_is_ranked(v, ws, n - 1);
        lemma_ranked_falls(ranked_evidence(v, ws, n - 1), shown(v[n - 1], ws[n - 1]));
        assert(less.push(shown(v[n - 1], ws[n - 1])) =~= all);
    } else {
        assert(ranked_evidence(v, ws, n) =~= all);
    }
}

/// A signal that cannot stand alone decides nothing alone: where no signal that
/// can stand alone says a name of a field, the name is in no pool.
pub proof fn law_weak_signals_decide_nothing(
    v: Seq<SigView>,
    k: Field,
    n: int,
    name: Seq<char>,
)
    requires
        0 <= n <= v.len(),
        !stood_for(v, k, name),
    ensures
        lookup(pool(v, k, n), name) is None,
        ordered(pool(v, k, n)),
    decreases n,
{
    if n > 0 {
        law_weak_signals_decide_nothing(v, k, n - 1, name);
        let before = pool(v, k, n - 1);
        if counts(v, k, n - 1) {
            let other = said(v[n - 1], k);
            if other == name {
                assert(stands_alone(v[n - 1].kind) || stood_for(v, k, name));
            }
            let list = lookup_or(before, other, Seq::empty()).push((n - 1) as usize);
            law_put_then_lookup(before, other, list, name);
        }
    }
}

/// The signals at some places.
pub open spec fn at_places(v: Seq<SigView>, ps: Seq<usize>) -> Seq<SigView> {
    Seq::new(ps.len(), |i: int| v[ps[i] as int])
}

/// The entries of a pool, with the signals in place of their places.
pub open spec fn with_signals(m: Entries<Seq<usize>>, v: Seq<SigView>) -> Entries<Seq<SigView>> {
    Seq::new(m.len(), |i: int| (m[i].0, at_places(v, m[i].1)))
}

/// For each name that the signals give a field, the signals that count for it, in their
/// order. The weight of the name is the sum of theirs.
pub open spec fn voices(v: Seq<SigView>, k: Field) -> Entries<Seq<SigView>> {
    with_signals(pool(v, k, v.len() as int), v)
}

/// The signals that count for each name among the first `n`.
pub open spec fn tally(v: Seq<SigView>, k: Field, n: int) -> Entries<Seq<SigView>>
    decreases n,
{
    if n <= 0 {
        Seq::empty()
    } else {
        let before = tally(v, k, n - 1);
        if counts(v, k, n - 1) {
            let name = said(v[n - 1], k);
            put(before, name, lookup_or(before, name, Seq::empty()).push(v[n - 1]))
        } else {
            before
        }
    }
}

proof fn lemma_with_signals(
    m: Entries<Seq<usize>>,
    v: Seq<SigView>,
    name: Seq<char>,
    ps: Seq<usize>,
)
    ensures
        with_signals(put(m, name, ps), v) == put(with_signals(m, v), name, at_places(v, ps)),
        lookup_or(with_signals(m, v), name, Seq::empty()) == at_places(
            v,
            lookup_or(m, name, Seq::empty()),
        ),
    decreases m.len(),
{
    let w = with_signals(m, v);
    if m.len() == 0 {
        assert(with_signals(put(m, name, ps), v) =~= put(w, name, at_places(v, ps)));
        assert(at_places(v, Seq::empty()) =~= Seq::<SigView>::empty());
    } else {
        lemma_with_signals(m.skip(1), v, name, ps);
        assert(with_signals(m.skip(1), v) =~= w.skip(1));
        assert(w[0] == (m[0].0, at_places(v, m[0].1)));
        assert(with_signals(put(m, name, ps), v) =~= put(w, name, at_places(v, ps)));
    }
}

pub proof fn lemma_tally(v: Seq<SigView>, k: Field, n: int)
    requires
        0 <= n <= v.len() <= usize::MAX,
    ensures
        tally(v, k, n) == with_signals(pool(v, k, n), v),
    decreases n,
{
    if n > 0 {
        lemma_tally(v, k, n - 1);
        let before = pool(v, k, n - 1);
        if counts(v, k, n - 1) {
            let name = said(v[n - 1], k);
            let ps = lookup_or(before, name, Seq::empty());
            lemma_with_signals(before, v, name, ps.push((n - 1) as usize));
            assert(at_places(v, ps.push((n - 1) as usize)) =~= at_places(v, ps).push(v[n - 1]));
        }
    } else {
        assert(with_signals(pool(v, k, n), v) =~= Seq::<(Seq<char>, Seq<SigView>)>::empty());
    }
}

/// Whether no signal of `w` stands alone, nor says a brand or a system for which one of
/// `v` stands.
pub open spec fn only_weak(v: Seq<SigView>, w: Seq<SigView>) -> bool {
    forall|i: int|
        0 <= i < w.len() ==> {
            &&& !stands_alone((#[trigger] w[i]).kind)
            &&& w[i].brand.len() > 0 ==> !stood_for(v, Field::Brand, w[i].brand)
            &&& w[i].os.len() > 0 ==> !stood_for(v, Field::Os, w[i].os)
        }
}

proof fn lemma_stood_for(
    a: Seq<SigView>,
    w: Seq<SigView>,
    b: Seq<SigView>,
    k: Field,
    name: Seq<char>,
)
    requires
        only_weak(a + b, w),
    ensures
        stood_for(a + w + b, k, name) == stood_for(a + b, k, name),
{
    let more = a + w + b;
    let less = a + b;
    if stood_for(more, k, name) {
        let i = choose|i: int|
            0 <= i < more.len() && stands_alone((#[trigger] more[i]).kind) && said(more[i], k)
                == name;
        if i < a.len() {
            assert(less[i] == more[i]);
        } else if i < a.len() + w.len() {
            assert(more[i] == w[i - a.len()]);
        } else {
            assert(less[i - w.len()] == more[i]);
        }
    }
    if stood_for(less, k, name) {
        let i = choose|i: int|
            0 <= i < less.len() && stands_alone((#[trigger] less[i]).kind) && said(less[i], k)
                == name;
        if i < a.len() {
            assert(more[i] == less[i]);
        } else {
            assert(more[i + w.len()] == less[i]);
        }
    }
}

proof fn lemma_tally_front(
    a: Seq<SigView>,
    w: Seq<SigView>,
    b: Seq<SigView>,
    k: Field,
    n: int,
)
    requires
        only_weak(a + b, w),
        0 <= n <= a.len() + w.len(),
    ensures
        tally(a + w + b, k, n) == tally(
            a + b,
            k,
            if n <= a.len() {
                n
            } else {
                a.len() as int
            },
        ),
    decreases n,
{
    if n > 0 {
        let more = a + w + b;
        let less = a + b;
        lemma_tally_front(a, w, b, k, n - 1);
        lemma_stood_for(a, w, b, k, said(more[n - 1], k));
        if n <= a.len() {
            assert(more[n - 1] == less[n - 1]);
        } else {
            assert(more[n - 1] == w[n - 1 - a.len()]);
        }
    }
}

proof fn lemma_tally_back(
    a: Seq<SigView>,
    w: Seq<SigView>,
    b: Seq<SigView>,
    k: Field,
    n: int,
)
    requires
        only_weak(a + b, w),
        0 <= n <= b.len(),
    ensures
        tally(a + w + b, k, a.len() + w.len() + n) == tally(a + b, k, a.len() + n),
    decreases n,
{
    if n > 0 {
        let more = a + w + b;
        let less = a + b;
        let i = a.len() + w.len() + n - 1;
        let j = a.len() + n - 1;
        lemma_tally_back(a, w, b, k, n - 1);
        assert(more[i] == less[j]);
        lemma_stood_for(a, w, b, k, said(more[i], k));
    } else {
        lemma_tally_front(a, w, b, k, a.len() + w.len() as int);
    }
}

/// Signals that cannot stand alone change no conclusion that other signals do not share:
/// wherever they come in, each name is left with the signals that counted for it, and no
/// name is added.
pub proof fn law_weak_signals_change_nothing(
    a: Seq<SigView>,
    w: Seq<SigView>,
    b: Seq<SigView>,
    k: Field,
)
    requires
        only_weak(a + b, w),
        a.len() + w.len() + b.len() <= usize::MAX,
    ensures
        voices(a + w + b, k) == voices(a + b, k),
{
    lemma_tally_back(a, w, b, k, b.len() as int);
    lemma_tally(a + w + b, k, (a + w + b).len() as int);
    lemma_tally(a + b, k, (a + b).len() as int);
}

proof fn lemma_above_zero_names(
    m: Entries<Seq<usize>>,
    w: Entries<Seq<usize>>,
    keys: Seq<i32>,
    n: int,
)
    requires
        0 <= n <= m.len(),
        m.len() == w.len(),
        forall|i: int| 0 <= i < m.len() ==> (#[trigger] m[i]).0 == w[i].0,
    ensures
        above_zero(m, keys, n) == above_zero(w, keys, n),
    decreases n,
{
    if n > 0 {
        lemma_above_zero_names(m, w, keys, n - 1);
        assert(m[n - 1].0 == w[n - 1].0);
    }
}

/// Who leads a field: the leading name, and the places in the pool of that name and of the
/// runner-up. `total` gives the weight of the signals that count for a name, and `merged`
/// the weights of all names once some were added to others.
pub open spec fn standing(
    v: Seq<SigView>,
    k: Field,
    ss: Seq<Subsume>,
    total: spec_fn(Seq<SigView>) -> i32,
    merged: spec_fn(Entries<Seq<SigView>>, Seq<(usize, usize)>) -> Seq<i32>,
) -> (Seq<char>, Option<usize>, Option<usize>) {
    let m = pool(v, k, v.len() as int);
    let c = voices(v, k);
    let sums = Seq::new(c.len(), |i: int| total(c[i].1));
    let f = folded(above_zero(m, sums, m.len() as int), ss, ss.len() as int);
    let keys = merged(c, f.merges);
    let second = match second_place(f.left, keys) {
        Some(i) => Some(f.left[i].1),
        None => None,
    };
    match first_place(f.left, keys) {
        Some(i) => (f.left[i].0, Some(f.left[i].1), second),
        None => (Seq::empty(), None, second),
    }
}

/// Two lists in which the same signals count for each name have the same leader and the same
/// runner-up, however the weights are added up.
pub proof fn law_voices_decide(
    v: Seq<SigView>,
    w: Seq<SigView>,
    k: Field,
    ss: Seq<Subsume>,
    total: spec_fn(Seq<SigView>) -> i32,
    merged: spec_fn(Entries<Seq<SigView>>, Seq<(usize, usize)>) -> Seq<i32>,
)
    requires
        voices(v, k) == voices(w, k),
    ensures
        standing(v, k, ss, total, merged) == standing(w, k, ss, total, merged),
{
    let m = pool(v, k, v.len() as int);
    let o = pool(w, k, w.len() as int);
    let c = voices(v, k);
    let sums = Seq::new(c.len(), |i: int| total(c[i].1));
    assert(voices(v, k).len() == m.len() && voices(w, k).len() == o.len());
    assert forall|i: int| 0 <= i < m.len() implies (#[trigger] m[i]).0 == o[i].0 by {
        assert(voices(v, k)[i].0 == m[i].0);
        assert(voices(w, k)[i].0 == o[i].0);
    }
    lemma_above_zero_names(m, o, sums, m.len() as int);
}

/// Where such signals come last, the pools are the same to the place.
pub proof fn law_weak_signals_leave_the_pool(v: Seq<SigView>, w: Seq<SigView>, k: Field)
    requires
        only_weak(v, w),
    ensures
        pool(v + w, k, (v + w).len() as int) == pool(v, k, v.len() as int),
{
    lemma_pool_front(v, w, k, (v + w).len() as int);
}

proof fn lemma_pool_front(v: Seq<SigView>, w: Seq<SigView>, k: Field, n: int)
    requires
        only_weak(v, w),
        0 <= n <= v.len() + w.len(),
    ensures
        pool(v + w, k, n) == pool(
            v,
            k,
            if n <= v.len() {
                n
            } else {
                v.len() as int
            },
        ),
    decreases n,
{
    if n > 0 {
        let none = Seq::<SigView>::empty();
        assert(v + w + none =~= v + w);
        assert(v + none =~= v);
        lemma_pool_front(v, w, k, n - 1);
        lemma_stood_for(v, w, none, k, said((v + w)[n - 1], k));
        if n <= v.len() {
            assert((v + w)[n - 1] == v[n - 1]);
        } else {
            assert((v + w)[n - 1] == w[n - 1 - v.len()]);
        }
    }
}

/// The integers that order the weights of a list of signals, where `key` gives that of a
/// weight.
pub open spec fn keyed(v: Seq<SigView>, key: spec_fn(Weight) -> i32) -> Seq<i32> {
    Seq::new(v.len(), |i: int| key(v[i].weight))
}

proof fn lemma_heaviest_front(
    a: Seq<SigView>,
    w: Seq<SigView>,
    b: Seq<SigView>,
    key: spec_fn(Weight) -> i32,
    n: int,
)
    requires
        only_weak(a + b, w),
        0 <= n <= a.len() + w.len(),
    ensures
        heaviest(a + w + b, keyed(a + w + b, key), n) == heaviest(
            a + b,
            keyed(a + b, key),
            if n <= a.len() {
                n
            } else {
                a.len() as int
            },
        ),
        heaviest(a + w + b, keyed(a + w + b, key), n) matches Some(i) ==> 0 <= i < a.len(),
    decreases n,
{
    if n > 0 {
        let more = a + w + b;
        let less = a + b;
        lemma_heaviest_front(a, w, b, key, n - 1);
        if n <= a.len() {
            assert(more[n - 1] == less[n - 1]);
            if let Some(j) = heaviest(more, keyed(more, key), n - 1) {
                assert(more[j] == less[j]);
            }
        } else {
            assert(more[n - 1] == w[n - 1 - a.len()]);
        }
    }
}

proof fn lemma_heaviest_back(
    a: Seq<SigView>,
    w: Seq<SigView>,
    b: Seq<SigView>,
    key: spec_fn(Weight) -> i32,
    n: int,
)
    requires
        only_weak(a + b, w),
        0 <= n <= b.len(),
    ensures
        ({
            let i = heaviest(a + w + b, keyed(a + w + b, key), a.len() + w.len() + n);
            let j = heaviest(a + b, keyed(a + b, key), a.len() + n);
            &&& i is Some <==> j is Some
            &&& i matches Some(p) ==> 0 <= p < a.len() + w.len() + n && 0 <= j.unwrap() < a.len()
                + n && (a + w + b)[p] == (a + b)[j.unwrap()]
        }),
    decreases n,
{
    let more = a + w + b;
    let less = a + b;
    if n > 0 {
        lemma_heaviest_back(a, w, b, key, n - 1);
        assert(more[a.len() + w.len() + n - 1] == less[a.len() + n - 1]);
    } else {
        lemma_heaviest_front(a, w, b, key, a.len() + w.len() as int);
        if let Some(p) = heaviest(more, keyed(more, key), a.len() + w.len() as int) {
            assert(more[p] == less[p]);
        }
    }
}

/// All signals, with those that speak against a conclusion behind the others.
pub open spec fn all_signals(
    d: DeviceView,
    r: Rules,
    t: u64,
    f: Fades,
    s: Shape,
    key: spec_fn(Weight) -> i32,
) -> Seq<SigView> {
    let v = signal_list(d, r, t, f, s);
    v + penalty_sigs(
        r.penalty@,
        d.open_ports,
        suggested_brand(v, keyed(v, key)),
        r.penalty@.len() as int,
    )
}

proof fn lemma_brands_front(x: Seq<SigView>, u: Seq<SigView>, y: Seq<SigView>, n: int)
    requires
        forall|i: int| 0 <= i < u.len() ==> !from_names(#[trigger] u[i]),
        0 <= n <= x.len() + u.len(),
    ensures
        heartbeat_brands(x + u + y, n) == heartbeat_brands(
            x + y,
            if n <= x.len() {
                n
            } else {
                x.len() as int
            },
        ),
    decreases n,
{
    if n > 0 {
        lemma_brands_front(x, u, y, n - 1);
        if n <= x.len() {
            assert((x + u + y)[n - 1] == (x + y)[n - 1]);
        } else {
            assert((x + u + y)[n - 1] == u[n - 1 - x.len()]);
        }
    }
}

proof fn lemma_brands_back(x: Seq<SigView>, u: Seq<SigView>, y: Seq<SigView>, n: int)
    requires
        forall|i: int| 0 <= i < u.len() ==> !from_names(#[trigger] u[i]),
        0 <= n <= y.len(),
    ensures
        heartbeat_brands(x + u + y, x.len() + u.len() + n) == heartbeat_brands(
            x + y,
            x.len() + n,
        ),
    decreases n,
{
    if n > 0 {
        lemma_brands_back(x, u, y, n - 1);
        assert((x + u + y)[x.len() + u.len() + n - 1] == (x + y)[x.len() + n - 1]);
    } else {
        lemma_brands_front(x, u, y, x.len() + u.len() as int);
    }
}

proof fn lemma_forwarded_parts(
    x: Seq<SigView>,
    u: Seq<SigView>,
    y: Seq<SigView>,
    f: Option<Forwarder>,
) -> (parts: (Seq<SigView>, Seq<SigView>))
    requires
        forall|i: int| 0 <= i < u.len() ==> !from_names(#[trigger] u[i]),
    ensures
        forwarded(x + u + y, f) == parts.0 + u + parts.1,
        forwarded(x + y, f) == parts.0 + parts.1,
{
    let more = x + u + y;
    let less = x + y;
    lemma_brands_back(x, u, y, y.len() as int);
    let brands = heartbeat_brands(less, less.len() as int);
    if f is Some && brands.len() >= f.unwrap().min_brands {
        let mine = forwarded(less, f);
        let a = x.map_values(|s: SigView| disowned(s));
        let b = y.map_values(|s: SigView| disowned(s)).push(mine.last());
        assert(mine =~= a + b);
        assert(u.map_values(|s: SigView| disowned(s)) =~= u);
        assert(forwarded(more, f) =~= a + u + b) by {
            let w = forwarded(more, f);
            assert(w.len() == more.len() + 1);
            assert forall|i: int| 0 <= i < w.len() implies w[i] == (a + u + b)[i] by {
                if i < more.len() {
                    assert(w[i] == disowned(more[i]));
                }
            }
        }
        (a, b)
    } else {
        (x, y)
    }
}

proof fn lemma_regroup(x: Seq<SigView>, u: Seq<SigView>, p: Seq<SigView>, q: Seq<SigView>)
    ensures
        x + u + p + q == x + u + (p + q),
        x + Seq::<SigView>::empty() + p + q == x + (p + q),
{
    assert(x + u + p + q =~= x + u + (p + q));
    assert(x + Seq::<SigView>::empty() =~= x);
    assert(x + p + q =~= x + (p + q));
}

/// What the device itself says before its user agent.
spec fn sigs_before_agent(d: DeviceView, r: Rules, t: u64, f: Fades) -> Seq<SigView> {
    vendor_sigs(d, r) + list_sigs(d, r) + model_sigs(d, r) + service_sigs(
        d.mdns_services,
        r.mdns_service@,
        d.mdns_services.len() as int,
    ) + first_sig("ssdp"@, d.upnp_server, r.upnp@, false) + all_sigs(
        "hostname"@,
        host_name(d),
        r.hostname@,
        false,
    ) + name_sigs("dns"@, d.dns_hits, f.dns@, r.dns@, t, d.dns_hits.len() as int) + name_sigs(
        "sni"@,
        d.sni_hits,
        f.sni@,
        r.dns@,
        t,
        d.sni_hits.len() as int,
    ) + all_sigs("mqtt"@, d.mqtt_id, r.mqtt@, true) + peer_sigs(
        d.peer_hits,
        f.peer@,
        r.peer@,
        t,
        d.peer_hits.len() as int,
    ) + first_sig("tcp"@, d.tcp_fp, r.tcp@, true)
}

/// What the device itself says behind its user agent.
spec fn sigs_behind_agent(d: DeviceView, r: Rules) -> Seq<SigView> {
    port_sigs(d.open_ports, r.port@, d.open_ports.len() as int) + all_sigs(
        "banner"@,
        d.banner,
        r.banner@,
        true,
    )
}

proof fn lemma_around_agent(d: DeviceView, ua: Seq<char>, r: Rules, t: u64, f: Fades)
    requires
        d.http_ua.len() == 0,
    ensures
        own_sigs(d, r, t, f) == sigs_before_agent(d, r, t, f) + sigs_behind_agent(d, r),
        own_sigs(DeviceView { http_ua: ua, ..d }, r, t, f) == sigs_before_agent(d, r, t, f)
            + all_sigs("ua"@, ua, r.ua@, true) + sigs_behind_agent(d, r),
{
    lemma_regroup(
        sigs_before_agent(d, r, t, f),
        all_sigs("ua"@, ua, r.ua@, true),
        port_sigs(d.open_ports, r.port@, d.open_ports.len() as int),
        all_sigs("banner"@, d.banner, r.banner@, true),
    );
}

proof fn lemma_agent_names_nothing(ua: Seq<char>, rs: Seq<TextRule>, i: int)
    requires
        0 <= i < all_sigs("ua"@, ua, rs, true).len(),
    ensures
        !from_names(all_sigs("ua"@, ua, rs, true)[i]),
{
    reveal_strlit("ua");
    reveal_strlit("dns");
    reveal_strlit("sni");
    assert(all_sigs("ua"@, ua, rs, true)[i].source == "ua"@);
    assert("ua"@.len() == 2 && "dns"@.len() == 3 && "sni"@.len() == 3);
}

proof fn lemma_list_around_agent(
    d: DeviceView,
    ua: Seq<char>,
    r: Rules,
    t: u64,
    f: Fades,
    s: Shape,
) -> (parts: (Seq<SigView>, Seq<SigView>))
    requires
        d.http_ua.len() == 0,
    ensures
        signal_list(d, r, t, f, s) == parts.0 + parts.1,
        signal_list(DeviceView { http_ua: ua, ..d }, r, t, f, s) == parts.0 + all_sigs(
            "ua"@,
            ua,
            r.ua@,
            true,
        ) + parts.1,
{
    let u = all_sigs("ua"@, ua, r.ua@, true);
    let x = sigs_before_agent(d, r, t, f);
    let y = sigs_behind_agent(d, r);
    lemma_around_agent(d, ua, r, t, f);
    assert forall|i: int| 0 <= i < u.len() implies !from_names(#[trigger] u[i]) by {
        lemma_agent_names_nothing(ua, r.ua@, i);
    }
    let (a, b) = lemma_forwarded_parts(x, u, y, r.forwarder);
    let p = stack_sigs(r.stack@, s);
    let q = oui_sigs(d, r);
    lemma_regroup_tail(a, u, b, p, q);
    (a, b + p + q)
}

proof fn lemma_regroup_tail(
    a: Seq<SigView>,
    u: Seq<SigView>,
    b: Seq<SigView>,
    p: Seq<SigView>,
    q: Seq<SigView>,
)
    ensures
        a + b + p + q == a + (b + p + q),
        a + u + b + p + q == a + u + (b + p + q),
{
    assert(a + b + p + q =~= a + (b + p + q));
    assert(a + u + b + p + q =~= a + u + (b + p + q));
}

proof fn lemma_same_suggestion(
    a: Seq<SigView>,
    w: Seq<SigView>,
    b: Seq<SigView>,
    key: spec_fn(Weight) -> i32,
)
    requires
        only_weak(a + b, w),
    ensures
        suggested_brand(a + w + b, keyed(a + w + b, key)) == suggested_brand(
            a + b,
            keyed(a + b, key),
        ),
{
    lemma_heaviest_back(a, w, b, key, b.len() as int);
}

proof fn lemma_only_weak_of_less(v: Seq<SigView>, more: Seq<SigView>, w: Seq<SigView>)
    requires
        only_weak(v + more, w),
    ensures
        only_weak(v, w),
{
    assert forall|i: int| 0 <= i < w.len() implies {
        &&& !stands_alone((#[trigger] w[i]).kind)
        &&& w[i].brand.len() > 0 ==> !stood_for(v, Field::Brand, w[i].brand)
        &&& w[i].os.len() > 0 ==> !stood_for(v, Field::Os, w[i].os)
    } by {
        lemma_stood_for_more(v, more, Field::Brand, w[i].brand);
        lemma_stood_for_more(v, more, Field::Os, w[i].os);
    }
}

/// A user agent that may come from elsewhere does not decide what the device is: one for
/// which only weak rules are found, and whose brands and systems no other signal stands for,
/// leaves each name of each field with the signals that counted for it. So the brand, the
/// system and the sort of device stay as they were, and so do the runners-up, on whose
/// weights the confidence rests, however the weights are added up.
pub proof fn law_weak_agent_decides_nothing(
    d: DeviceView,
    ua: Seq<char>,
    r: Rules,
    t: u64,
    f: Fades,
    s: Shape,
    key: spec_fn(Weight) -> i32,
    k: Field,
)
    requires
        d.http_ua.len() == 0,
        all_signals(DeviceView { http_ua: ua, ..d }, r, t, f, s, key).len() <= usize::MAX,
        only_weak(all_signals(d, r, t, f, s, key), all_sigs("ua"@, ua, r.ua@, true)),
    ensures
        voices(all_signals(DeviceView { http_ua: ua, ..d }, r, t, f, s, key), k) == voices(
            all_signals(d, r, t, f, s, key),
            k,
        ),
        forall|
            ss: Seq<Subsume>,
            total: spec_fn(Seq<SigView>) -> i32,
            merged: spec_fn(Entries<Seq<SigView>>, Seq<(usize, usize)>) -> Seq<i32>,
        |
            standing(
                all_signals(DeviceView { http_ua: ua, ..d }, r, t, f, s, key),
                k,
                ss,
                total,
                merged,
            ) == #[trigger] standing(all_signals(d, r, t, f, s, key), k, ss, total, merged),
{
    let u = all_sigs("ua"@, ua, r.ua@, true);
    let (a, b) = lemma_list_around_agent(d, ua, r, t, f, s);
    let v = signal_list(d, r, t, f, s);
    let against = penalty_sigs(
        r.penalty@,
        d.open_ports,
        suggested_brand(v, keyed(v, key)),
        r.penalty@.len() as int,
    );
    lemma_only_weak_of_less(v, against, u);
    lemma_same_suggestion(a, u, b, key);
    lemma_regroup(a, u, b, against);
    law_weak_signals_change_nothing(a, u, b + against, k);
    let old_list = all_signals(d, r, t, f, s, key);
    let new_list = all_signals(DeviceView { http_ua: ua, ..d }, r, t, f, s, key);
    assert forall|
        ss: Seq<Subsume>,
        total: spec_fn(Seq<SigView>) -> i32,
        merged: spec_fn(Entries<Seq<SigView>>, Seq<(usize, usize)>) -> Seq<i32>,
    |
        standing(new_list, k, ss, total, merged) == #[trigger] standing(
            old_list,
            k,
            ss,
            total,
            merged,
        ) by {
        law_voices_decide(new_list, old_list, k, ss, total, merged);
    }
}

proof fn lemma_stood_for_more(v: Seq<SigView>, more: Seq<SigView>, k: Field, name: Seq<char>)
    ensures
        stood_for(v, k, name) ==> stood_for(v + more, k, name),
{
    if stood_for(v, k, name) {
        let i = choose|i: int|
            0 <= i < v.len() && stands_alone((#[trigger] v[i]).kind) && said(v[i], k) == name;
        assert((v + more)[i] == v[i]);
    }
}

/// A device that asks on behalf of others is not taken for one of them: once the
/// rule about forwarding applies, no signal from names says a brand, a system or
/// a kind.
pub proof fn law_forwarder_disowns_names(v: Seq<SigView>, f: Forwarder, i: int)
    requires
        heartbeat_brands(v, v.len() as int).len() >= f.min_brands,
        0 <= i < forwarded(v, Some(f)).len(),
        from_names(forwarded(v, Some(f))[i]),
    ensures
        forwarded(v, Some(f))[i].brand.len() == 0,
        forwarded(v, Some(f))[i].os.len() == 0,
        forwarded(v, Some(f))[i].dtype.len() == 0,
{
    let w = forwarded(v, Some(f));
    if i < v.len() {
        assert(w[i] == disowned(v[i]));
    } else {
        reveal_strlit("forwarder");
        reveal_strlit("dns");
        reveal_strlit("sni");
        assert("forwarder"@.len() != "dns"@.len());
        assert("forwarder"@.len() != "sni"@.len());
    }
}

/// Without a rule about forwarding the signals stay as they are.
pub proof fn law_no_forwarder_rule_no_change(v: Seq<SigView>)
    ensures
        forwarded(v, None) == v,
{
}

/// A name whose weight was brought to zero or below is no conclusion: only names
/// of a weight above zero are left.
pub proof fn law_only_positive_names_are_left<V>(
    m: Entries<V>,
    keys: Seq<i32>,
    ss: Seq<Subsume>,
    n: int,
    i: int,
)
    requires
        m.len() <= usize::MAX,
        0 <= n <= ss.len(),
        0 <= i < folded(above_zero(m, keys, m.len() as int), ss, n).left.len(),
    ensures
        folded(above_zero(m, keys, m.len() as int), ss, n).left[i].1 < m.len(),
        keys[folded(above_zero(m, keys, m.len() as int), ss, n).left[i].1 as int] > 0,
    decreases n,
{
    let start = above_zero(m, keys, m.len() as int);
    lemma_above_keys(m, keys, m.len() as int);
    lemma_folded_keys(start, keys, m.len() as int, ss, n);
}

spec fn all_positive(m: Entries<usize>, keys: Seq<i32>, len: int) -> bool {
    forall|i: int| 0 <= i < m.len() ==> (#[trigger] m[i]).1 < len && keys[m[i].1 as int] > 0
}

proof fn lemma_above_keys<V>(m: Entries<V>, keys: Seq<i32>, n: int)
    requires
        0 <= n <= m.len() <= usize::MAX,
    ensures
        all_positive(above_zero(m, keys, n), keys, n),
    decreases n,
{
    if n > 0 {
        lemma_above_keys(m, keys, n - 1);
    }
}

proof fn lemma_without_keys(m: Entries<usize>, k: Seq<char>, keys: Seq<i32>, len: int)
    requires
        all_positive(m, keys, len),
    ensures
        all_positive(without(m, k), keys, len),
    decreases m.len(),
{
    if m.len() > 0 {
        let rest = m.skip(1);
        assert(all_positive(rest, keys, len)) by {
            assert forall|i: int| 0 <= i < rest.len() implies (#[trigger] rest[i]).1 < len
                && keys[rest[i].1 as int] > 0 by {
                assert(rest[i] == m[i + 1]);
            }
        }
        lemma_without_keys(rest, k, keys, len);
        let w = without(m, k);
        assert forall|i: int| 0 <= i < w.len() implies (#[trigger] w[i]).1 < len
            && keys[w[i].1 as int] > 0 by {
            if m[0].0 != k && i > 0 {
                assert(w[i] == without(rest, k)[i - 1]);
            } else if m[0].0 != k {
                assert(w[i] == m[0]);
            }
        }
    }
}

proof fn lemma_folded_keys(
    start: Entries<usize>,
    keys: Seq<i32>,
    len: int,
    ss: Seq<Subsume>,
    n: int,
)
    requires
        all_positive(start, keys, len),
    ensures
        all_positive(folded(start, ss, n).left, keys, len),
    decreases n,
{
    if n > 0 {
        lemma_folded_keys(start, keys, len, ss, n - 1);
        lemma_without_keys(folded(start, ss, n - 1).left, ss[n - 1].generic@, keys, len);
    }
}

/// Where a name and the general one it is a case of are both left, they are not
/// both left afterwards: their weights were put together.
pub proof fn law_subsumed_name_goes(start: Entries<usize>, ss: Seq<Subsume>, n: int)
    requires
        0 < n <= ss.len(),
        ordered(start),
    ensures
        lookup(folded(start, ss, n).left, ss[n - 1].specific@) is None || lookup(
            folded(start, ss, n).left,
            ss[n - 1].generic@,
        ) is None,
{
    lemma_folded_ordered(start, ss, n - 1);
    let f = folded(start, ss, n - 1);
    law_without_then_lookup(f.left, ss[n - 1].generic@, ss[n - 1].generic@);
}

pub proof fn lemma_folded_ordered(start: Entries<usize>, ss: Seq<Subsume>, n: int)
    requires
        ordered(start),
    ensures
        ordered(folded(start, ss, n).left),
    decreases n,
{
    if n > 0 {
        lemma_folded_ordered(start, ss, n - 1);
        law_without_then_lookup(
            folded(start, ss, n - 1).left,
            ss[n - 1].generic@,
            ss[n - 1].generic@,
        );
    }
}

/// A parameter list that is merely near to a rule's concludes nothing by itself.
pub proof fn law_near_list_is_weak(d: DeviceView, r: Rules, i: int)
    requires
        0 <= i < list_sigs(d, r).len(),
        list_match(r.dhcp_fp@, d.dhcp_fp) matches Some(m) && m.value@ != d.dhcp_fp,
    ensures
        !stands_alone(list_sigs(d, r)[i].kind),
{
}

/// A made up hardware address says nothing of who made the device, whatever the list
/// of prefixes says of it.
pub proof fn law_made_up_address_has_no_maker(
    d: DeviceView,
    oui: Seq<char>,
    r: Rules,
    t: u64,
    f: Fades,
    s: Shape,
)
    requires
        mac_is_local(d.mac),
    ensures
        signal_list(DeviceView { oui, ..d }, r, t, f, s) == signal_list(d, r, t, f, s),
{
}

/// Hits that have faded too far say nothing.
pub proof fn law_muted_hits_say_nothing(
    source: Seq<char>,
    m: Entries<Hit>,
    f: Seq<u32>,
    rs: Seq<DnsRule>,
    t: u64,
    n: int,
)
    requires
        forall|i: int| 0 <= i < n ==> (#[trigger] f[i]) < DECAY_MUTE,
    ensures
        name_sigs(source, m, f, rs, t, n).len() == 0,
    decreases n,
{
    if n > 0 {
        law_muted_hits_say_nothing(source, m, f, rs, t, n - 1);
        assert(f[n - 1] < DECAY_MUTE);
    }
}

/// The tenths that a count adds stay below those of the limit, so that no rule
/// outweighs the others by its count alone.
pub proof fn law_bonus_is_bounded(n: u32)
    ensures
        bonus(n) <= 30,
        bonus(n) <= n,
{
}

} // verus!
