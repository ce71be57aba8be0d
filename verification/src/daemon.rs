//! The collector's state, and what each event and each command does to it.

use crate::clients::added;
use crate::event::{Event, EventView};
use crate::names::{
    law_put_then_lookup, law_without_then_lookup, lemma_lookup_index, lemma_views, lookup,
    lookup_or, ordered, put, views, without, Entries, NameMap,
};
use crate::num::{dec, push_dec};
use crate::rules::{dns_match, peer_match, DnsRule, PeerRule, Rules};
use crate::store::{
    device_of, elapsed, holder, law_port_ring_is_bounded, owner, revealed, since, traced,
    with_device, with_shape, wrap_add, wrapped, Device, DeviceView, Hit, Store, StoreView,
    PORT_RING,
};
use crate::text::{
    append_str, chars, contains, eq, lists, mentions, owned, part_first, spells, split_first, text,
    texts,
};
use crate::util::{mac_normal, norm_mac};
use vstd::prelude::*;

verus! {

/// How many last queries are remembered before they are forgotten.
pub const LAST_MAX: usize = 512;

/// How many names without a rule are kept of a device.
pub const UNMATCHED_MAX: usize = 50;

/// How many announced services are kept of a device.
pub const SERVICES_MAX: usize = 24;

/// A device's last query.
pub struct Query {
    pub domain: String,
    pub qtype: String,
    pub at: u64,
}

/// A device's last query, in mathematical values.
pub struct QueryView {
    pub domain: Seq<char>,
    pub qtype: Seq<char>,
    pub at: u64,
}

impl View for Query {
    type V = QueryView;

    open spec fn view(&self) -> QueryView {
        QueryView { domain: self.domain@, qtype: self.qtype@, at: self.at }
    }
}

/// The state of a source of events.
pub struct Source {
    pub kind: String,
    pub state: String,
    pub info: String,
}

/// The state of a source of events, in mathematical values.
pub struct SourceView {
    pub kind: Seq<char>,
    pub state: Seq<char>,
    pub info: Seq<char>,
}

impl View for Source {
    type V = SourceView;

    open spec fn view(&self) -> SourceView {
        SourceView { kind: self.kind@, state: self.state@, info: self.info@ }
    }
}

/// The views of a list of sources.
pub open spec fn source_views(v: Seq<Source>) -> Seq<SourceView> {
    v.map_values(|s: Source| s@)
}

/// What has been counted.
#[derive(Clone, Copy)]
pub struct Counts {
    pub dns_events: u64,
    pub dns_matched: u64,
    pub dns_noowner: u64,
    pub sniff_events: u64,
    pub sniff_matched: u64,
    pub sniff_noowner: u64,
}

/// The collector's state.
pub struct Daemon {
    pub st: Store,
    pub counts: Counts,
    /// Each device's last query.
    pub last: NameMap<Query>,
    /// When the store is to be written at the latest.
    pub save_at: Option<u64>,
    pub sources: Vec<Source>,
    /// What was last announced of each device.
    pub announced: NameMap<String>,
}

/// The collector's state, in mathematical values.
#[verifier::ext_equal]
pub struct DaemonView {
    pub st: StoreView,
    pub counts: Counts,
    pub last: Entries<QueryView>,
    pub save_at: Option<u64>,
    pub sources: Seq<SourceView>,
    pub announced: Entries<Seq<char>>,
}

impl View for Daemon {
    type V = DaemonView;

    open spec fn view(&self) -> DaemonView {
        DaemonView {
            st: self.st@,
            counts: self.counts,
            last: views(self.last@),
            save_at: self.save_at,
            sources: source_views(self.sources@),
            announced: views(self.announced@),
        }
    }
}

/// One more, as a sixty-four bit counter shows it.
pub open spec fn bumped(n: u64) -> u64 {
    later(n, 1)
}

/// The time `s` after `t`, as a sixty-four bit counter shows it.
pub open spec fn later(t: u64, s: u64) -> u64 {
    ((t + s) % 0x1_0000_0000_0000_0000) as u64
}

/// The time `s` after `t`, as a sixty-four bit counter shows it.
pub fn after(t: u64, s: u64) -> (r: u64)
    ensures
        r == later(t, s),
{
    let n: u128 = t as u128 + s as u128;
    (n % 0x1_0000_0000_0000_0000) as u64
}

/// The time of the next writing, with one more wish: it can only move forward.
pub open spec fn sooner(cur: Option<u64>, at: u64) -> Option<u64> {
    match cur {
        Some(c) => if at < c {
            Some(at)
        } else {
            Some(c)
        },
        None => Some(at),
    }
}

/// Agrees on a time by which the store is to be written. It can only be moved
/// forward, else steady traffic would put it off for ever.
pub fn schedule_save(save_at: &mut Option<u64>, at: u64)
    ensures
        *final(save_at) == sooner(*old(save_at), at),
{
    let earlier = match *save_at {
        Some(c) => at < c,
        None => true,
    };
    if earlier {
        *save_at = Some(at);
    }
}

/// A hit counted once more.
pub open spec fn hit_again(m: Entries<Hit>, id: Seq<char>, t: u64) -> Entries<Hit> {
    put(m, id, (Hit { n: wrapped(lookup_or(m, id, (Hit { n: 0, last: 0 })).n + 1), last: t }))
}

/// Counts a hit.
fn count_hit(m: &mut NameMap<Hit>, id: &str, t: u64)
    requires
        old(m).wf(),
    ensures
        final(m).wf(),
        final(m)@ == hit_again(old(m)@, id@, t),
{
    let h = m.entry(id, Hit { n: 0, last: 0 });
    let n = wrap_add(h.n, 1);
    *h = Hit { n, last: t };
}

/// The names without a rule after one more, where there is room.
pub open spec fn noted(d: DeviceView, name: Seq<char>) -> DeviceView {
    if d.unmatched.len() < UNMATCHED_MAX {
        DeviceView {
            unmatched: put(
                d.unmatched,
                name,
                wrapped(lookup_or(d.unmatched, name, 0u32) + 1),
            ),
            ..d
        }
    } else {
        d
    }
}

impl Device {
    /// Notes a name without a rule, where there is room, and says whether there
    /// was.
    fn note_unmatched(&mut self, name: &str) -> (r: bool)
        requires
            old(self).wf(),
        ensures
            final(self).wf(),
            final(self)@ == noted(old(self)@, name@),
            r == (old(self)@.unmatched.len() < UNMATCHED_MAX),
    {
        if self.unmatched.len() < UNMATCHED_MAX {
            let n = self.unmatched.entry(name, 0);
            *n = wrap_add(*n, 1);
            true
        } else {
            false
        }
    }
}

/// The state with a device changed.
pub open spec fn with_dev(v: DaemonView, mac: Seq<char>, d: DeviceView) -> DaemonView {
    DaemonView { st: with_device(v.st, mac, d), ..v }
}

/// The state with one more wish for the time of the next writing.
pub open spec fn saving(v: DaemonView, at: u64) -> DaemonView {
    DaemonView { save_at: sooner(v.save_at, at), ..v }
}

// ---------------------------------------------------------------------------
// Queries
// ---------------------------------------------------------------------------

/// Whether two query types are the two given, in either order.
pub open spec fn are_pair(x: Seq<char>, y: Seq<char>, a: Seq<char>, b: Seq<char>) -> bool {
    (x == a && y == b) || (x == b && y == a)
}

/// A device after a query for `domain` followed its last one.
pub open spec fn paired(
    d: DeviceView,
    last: Option<QueryView>,
    domain: Seq<char>,
    qtype: Seq<char>,
    t: u64,
) -> DeviceView {
    match last {
        Some(q) => if q.domain == domain && since(t, q.at) <= 2 && q.qtype != qtype {
            if are_pair(q.qtype, qtype, "A"@, "AAAA"@) {
                DeviceView { dns_pair_a4: wrapped(d.dns_pair_a4 + 1), ..d }
            } else if are_pair(q.qtype, qtype, "A"@, "HTTPS"@) || are_pair(
                q.qtype,
                qtype,
                "A"@,
                "SVCB"@,
            ) {
                DeviceView { dns_pair_https: wrapped(d.dns_pair_https + 1), ..d }
            } else {
                d
            }
        } else {
            d
        },
        None => d,
    }
}

/// The last queries after one more. When there are too many, the others are
/// forgotten first.
pub open spec fn remembered(
    last: Entries<QueryView>,
    mac: Seq<char>,
    q: QueryView,
) -> Entries<QueryView> {
    if last.len() > LAST_MAX {
        put(Seq::empty(), mac, q)
    } else {
        put(last, mac, q)
    }
}

/// The state after a query of the known device `mac`.
pub open spec fn after_query(
    v: DaemonView,
    rs: Seq<DnsRule>,
    keep: bool,
    t: u64,
    mac: Seq<char>,
    domain: Seq<char>,
    qtype: Seq<char>,
    sport: u16,
) -> DaemonView {
    let d = paired(
        with_shape(device_of(v.st, mac, t), qtype, sport),
        lookup(v.last, mac),
        domain,
        qtype,
        t,
    );
    let a = DaemonView {
        last: remembered(v.last, mac, (QueryView { domain, qtype, at: t })),
        save_at: sooner(v.save_at, later(t, 120)),
        ..v
    };
    match dns_match(rs, domain, qtype) {
        Some(rule) => saving(
            DaemonView {
                counts: Counts { dns_matched: bumped(v.counts.dns_matched), ..v.counts },
                ..with_dev(
                    a,
                    mac,
                    DeviceView { dns_hits: hit_again(d.dns_hits, rule.id@, t), ..d },
                )
            },
            later(t, 30),
        ),
        None => if keep && d.unmatched.len() < UNMATCHED_MAX {
            saving(with_dev(a, mac, noted(d, domain)), later(t, 30))
        } else {
            with_dev(a, mac, d)
        },
    }
}

/// The state after a query.
pub open spec fn on_dns(
    v: DaemonView,
    rs: Seq<DnsRule>,
    keep: bool,
    t: u64,
    ip: Seq<char>,
    domain: Seq<char>,
    qtype: Seq<char>,
    sport: u16,
) -> DaemonView {
    let counts = Counts { dns_events: bumped(v.counts.dns_events), ..v.counts };
    match owner(v.st.devs, ip) {
        Some(mac) => after_query(
            DaemonView { st: traced(v.st, ip), counts, ..v },
            rs,
            keep,
            t,
            mac,
            domain,
            qtype,
            sport,
        ),
        None => DaemonView {
            counts: Counts { dns_noowner: bumped(v.counts.dns_noowner), ..counts },
            ..v
        },
    }
}

// ---------------------------------------------------------------------------
// The other events
// ---------------------------------------------------------------------------

/// The state after a port probe.
pub open spec fn on_ports(
    v: DaemonView,
    t: u64,
    ip: Seq<char>,
    open: Seq<u16>,
    banner: Seq<char>,
) -> DaemonView {
    match owner(v.st.devs, ip) {
        Some(mac) => {
            let a = DaemonView { st: traced(v.st, ip), ..v };
            let d = device_of(a.st, mac, t);
            saving(
                with_dev(
                    a,
                    mac,
                    DeviceView {
                        open_ports: open,
                        banner: if banner.len() > 0 {
                            banner
                        } else {
                            d.banner
                        },
                        ..d
                    },
                ),
                later(t, 10),
            )
        },
        None => v,
    }
}

/// The state after a long connection.
pub open spec fn on_peer(
    v: DaemonView,
    rs: Seq<PeerRule>,
    keep: bool,
    t: u64,
    ip: Seq<char>,
    proto: Seq<char>,
    remote: Seq<char>,
    port: u16,
) -> DaemonView {
    match owner(v.st.devs, ip) {
        Some(mac) => {
            let a = DaemonView { st: traced(v.st, ip), ..v };
            let d = device_of(a.st, mac, t);
            match peer_match(rs, proto, port, remote) {
                Some(rule) => saving(
                    with_dev(
                        a,
                        mac,
                        DeviceView { peer_hits: hit_again(d.peer_hits, rule.id@, t), ..d },
                    ),
                    later(t, 30),
                ),
                None => if keep {
                    let b = with_dev(a, mac, noted(d, proto + seq!['/'] + dec(port as nat)));
                    if d.unmatched.len() < UNMATCHED_MAX {
                        saving(b, later(t, 60))
                    } else {
                        b
                    }
                } else {
                    a
                },
            }
        },
        None => v,
    }
}

/// The state after a fingerprint was taken.
pub open spec fn on_tcp(v: DaemonView, t: u64, ip: Seq<char>, fp: Seq<char>) -> DaemonView {
    match owner(v.st.devs, ip) {
        Some(mac) => {
            let a = DaemonView { st: traced(v.st, ip), ..v };
            let d = device_of(a.st, mac, t);
            if d.tcp_fp != fp {
                saving(with_dev(a, mac, DeviceView { tcp_fp: fp, ..d }), later(t, 20))
            } else {
                with_dev(a, mac, d)
            }
        },
        None => v,
    }
}

/// The state after a known device showed an agent or a client name.
pub open spec fn after_agent(
    v: DaemonView,
    t: u64,
    mac: Seq<char>,
    ua: Seq<char>,
    via: Seq<char>,
) -> DaemonView {
    let d = device_of(v.st, mac, t);
    if ua.len() == 0 {
        v
    } else if via == "mqtt"@ {
        if d.mqtt_id != ua {
            saving(with_dev(v, mac, DeviceView { mqtt_id: ua, ..d }), later(t, 20))
        } else {
            with_dev(v, mac, d)
        }
    } else if d.http_ua != ua {
        saving(with_dev(v, mac, DeviceView { http_ua: ua, ..d }), later(t, 20))
    } else {
        with_dev(v, mac, d)
    }
}

/// The state after a known device connected to a host.
pub open spec fn after_host(
    v: DaemonView,
    rs: Seq<DnsRule>,
    keep: bool,
    t: u64,
    mac: Seq<char>,
    host: Seq<char>,
    via: Seq<char>,
) -> DaemonView {
    let d = device_of(v.st, mac, t);
    if host.len() == 0 {
        v
    } else {
        match dns_match(rs, host, Seq::empty()) {
            Some(rule) => saving(
                DaemonView {
                    counts: Counts { sniff_matched: bumped(v.counts.sniff_matched), ..v.counts },
                    ..with_dev(
                        v,
                        mac,
                        DeviceView { sni_hits: hit_again(d.sni_hits, rule.id@, t), ..d },
                    )
                },
                later(t, 30),
            ),
            None => if keep {
                let b = with_dev(v, mac, noted(d, via + seq![':'] + host));
                if d.unmatched.len() < UNMATCHED_MAX {
                    saving(b, later(t, 30))
                } else {
                    b
                }
            } else {
                v
            },
        }
    }
}

/// The state after a connection.
pub open spec fn on_conn(
    v: DaemonView,
    rs: Seq<DnsRule>,
    keep: bool,
    t: u64,
    ip: Seq<char>,
    host: Seq<char>,
    ua: Seq<char>,
    via: Seq<char>,
) -> DaemonView {
    let counts = Counts { sniff_events: bumped(v.counts.sniff_events), ..v.counts };
    match owner(v.st.devs, ip) {
        Some(mac) => {
            let a = DaemonView { st: traced(v.st, ip), counts, ..v };
            if mac.len() == 0 {
                a
            } else {
                after_host(after_agent(a, t, mac, ua, via), rs, keep, t, mac, host, via)
            }
        },
        None => DaemonView {
            counts: Counts { sniff_noowner: bumped(v.counts.sniff_noowner), ..counts },
            ..v
        },
    }
}

/// A new value, where there is one.
pub open spec fn renewed(cur: Seq<char>, new: Seq<char>) -> Seq<char> {
    if new.len() > 0 {
        new
    } else {
        cur
    }
}

/// The state after a DHCP exchange.
pub open spec fn on_dhcp(
    v: DaemonView,
    t: u64,
    mac: Seq<char>,
    ip: Seq<char>,
    host: Seq<char>,
    vendor: Seq<char>,
    opts: Seq<char>,
) -> DaemonView {
    let d = device_of(v.st, mac, t);
    saving(
        with_dev(
            v,
            mac,
            DeviceView {
                ipv4: if ip.len() > 0 && !contains(ip, ":"@) {
                    added(d.ipv4, ip)
                } else {
                    d.ipv4
                },
                dhcp_name: renewed(d.dhcp_name, host),
                dhcp_vendor: renewed(d.dhcp_vendor, vendor),
                dhcp_fp: renewed(d.dhcp_fp, opts),
                last_seen: t,
                ..d
            },
        ),
        later(t, 20),
    )
}

/// The services of a device with the first `n` of `more` added where they are not
/// among them and there is room.
pub open spec fn more_services(
    v: Seq<Seq<char>>,
    more: Seq<Seq<char>>,
    n: int,
) -> Seq<Seq<char>>
    decreases n,
{
    if n <= 0 {
        v
    } else {
        let b = more_services(v, more, n - 1);
        if !b.contains(more[n - 1]) && b.len() < SERVICES_MAX {
            b.push(more[n - 1])
        } else {
            b
        }
    }
}

/// The state after a multicast announcement.
pub open spec fn on_mdns(
    v: DaemonView,
    t: u64,
    ip: Seq<char>,
    name: Seq<char>,
    model: Seq<char>,
    services: Seq<Seq<char>>,
) -> DaemonView {
    match owner(v.st.devs, ip) {
        Some(mac) => {
            let a = DaemonView { st: traced(v.st, ip), ..v };
            let d = device_of(a.st, mac, t);
            let list = more_services(d.mdns_services, services, services.len() as int);
            let b = with_dev(
                a,
                mac,
                DeviceView {
                    mdns_name: renewed(d.mdns_name, name),
                    mdns_model: renewed(d.mdns_model, model),
                    mdns_services: list,
                    ..d
                },
            );
            if list.len() > d.mdns_services.len() {
                saving(b, later(t, 20))
            } else {
                b
            }
        },
        None => v,
    }
}

/// The state after a discovery answer.
pub open spec fn on_ssdp(v: DaemonView, t: u64, ip: Seq<char>, server: Seq<char>) -> DaemonView {
    match owner(v.st.devs, ip) {
        Some(mac) => {
            let a = DaemonView { st: traced(v.st, ip), ..v };
            let d = device_of(a.st, mac, t);
            if d.upnp_server != server {
                saving(with_dev(a, mac, DeviceView { upnp_server: server, ..d }), later(t, 20))
            } else {
                with_dev(a, mac, d)
            }
        },
        None => v,
    }
}

/// The sources of the other kinds, in their order.
pub open spec fn other_sources(v: Seq<SourceView>, kind: Seq<char>) -> Seq<SourceView> {
    v.filter(|s: SourceView| s.kind != kind)
}

/// The state after a source changed its own.
pub open spec fn on_source(
    v: DaemonView,
    kind: Seq<char>,
    state: Seq<char>,
    info: Seq<char>,
) -> DaemonView {
    DaemonView {
        sources: other_sources(v.sources, kind).push(SourceView { kind, state, info }),
        ..v
    }
}

/// The state after an event at the time `t`.
pub open spec fn on_event(
    v: DaemonView,
    e: EventView,
    dns: Seq<DnsRule>,
    peers: Seq<PeerRule>,
    keep: bool,
    t: u64,
) -> DaemonView {
    match e {
        EventView::Dns { ip, domain, qtype, sport } => on_dns(
            v,
            dns,
            keep,
            t,
            ip,
            domain,
            qtype,
            sport,
        ),
        EventView::Ports { ip, open, banner } => on_ports(v, t, ip, open, banner),
        EventView::Peer { ip, proto, remote, port } => on_peer(
            v,
            peers,
            keep,
            t,
            ip,
            proto,
            remote,
            port,
        ),
        EventView::TcpFp { ip, fp } => on_tcp(v, t, ip, fp),
        EventView::Conn { ip, host, ua, via } => on_conn(v, dns, keep, t, ip, host, ua, via),
        EventView::Dhcp { mac, ip, host, vendor, opts } => on_dhcp(
            v,
            t,
            mac,
            ip,
            host,
            vendor,
            opts,
        ),
        EventView::Mdns { ip, name, model, services } => on_mdns(
            v,
            t,
            ip,
            name,
            model,
            services,
        ),
        EventView::Ssdp { ip, server } => on_ssdp(v, t, ip, server),
        EventView::SourceInfo { kind, state, info } => on_source(v, kind, state, info),
    }
}

impl Daemon {
    /// Whether the state's maps are well formed.
    pub open spec fn wf(&self) -> bool {
        self.st.wf() && self.last.wf() && self.announced.wf()
    }

    /// The state at the start, with the devices that were read.
    pub fn new(st: Store) -> (r: Daemon)
        requires
            st.wf(),
        ensures
            r.wf(),
            r@ == (DaemonView {
                st: st@,
                counts: Counts {
                    dns_events: 0,
                    dns_matched: 0,
                    dns_noowner: 0,
                    sniff_events: 0,
                    sniff_matched: 0,
                    sniff_noowner: 0,
                },
                last: Seq::empty(),
                save_at: None,
                sources: Seq::empty(),
                announced: Seq::empty(),
            }),
    {
        let r = Daemon {
            st,
            counts: Counts {
                dns_events: 0,
                dns_matched: 0,
                dns_noowner: 0,
                sniff_events: 0,
                sniff_matched: 0,
                sniff_noowner: 0,
            },
            last: NameMap::new(),
            save_at: None,
            sources: Vec::new(),
            announced: NameMap::new(),
        };
        proof {
            assert(r@.last =~= Seq::empty());
            assert(r@.sources =~= Seq::empty());
            assert(r@.announced =~= Seq::empty());
        }
        r
    }

    /// Takes in a query of a known device.
    fn take_query(
        &mut self,
        r: &Rules,
        keep: bool,
        t: u64,
        mac: &str,
        domain: String,
        qtype: String,
        sport: u16,
    )
        requires
            old(self).wf(),
            r.wf(),
        ensures
            final(self).wf(),
            final(self)@ == after_query(
                old(self)@,
                r.dns@,
                keep,
                t,
                mac@,
                domain@,
                qtype@,
                sport,
            ),
    {
        let ghost v = self@;
        proof {
            lemma_views(self.last@, mac@, arbitrary());
        }
        let mut pair_a4 = false;
        let mut pair_https = false;
        if let Some(q) = self.last.get(mac) {
            let before = q.qtype.as_str();
            let now = qtype.as_str();
            if eq(q.domain.as_str(), domain.as_str()) && elapsed(t, q.at) <= 2 && !eq(before, now) {
                pair_a4 = (eq(before, "A") && eq(now, "AAAA")) || (eq(before, "AAAA") && eq(
                    now,
                    "A",
                ));
                pair_https = (eq(before, "A") && eq(now, "HTTPS")) || (eq(before, "HTTPS") && eq(
                    now,
                    "A",
                )) || (eq(before, "A") && eq(now, "SVCB")) || (eq(before, "SVCB") && eq(now, "A"));
            }
        }
        let rule = match r.match_dns(domain.as_str(), qtype.as_str()) {
            Some(rule) => Some(owned(rule.id.as_str())),
            None => None,
        };
        schedule_save(&mut self.save_at, after(t, 120));
        let d = self.st.get(mac, t);
        d.record_dns_shape(qtype.as_str(), sport);
        if pair_a4 {
            d.dns_pair_a4 = wrap_add(d.dns_pair_a4, 1);
        } else if pair_https {
            d.dns_pair_https = wrap_add(d.dns_pair_https, 1);
        }
        let ghost dv = d@;
        assert(dv == paired(
            with_shape(device_of(v.st, mac@, t), qtype@, sport),
            lookup(v.last, mac@),
            domain@,
            qtype@,
            t,
        ));
        let mut hit = false;
        let mut kept = false;
        match rule {
            Some(id) => {
                count_hit(&mut d.dns_hits, id.as_str(), t);
                hit = true;
            },
            None => {
                if keep {
                    kept = d.note_unmatched(domain.as_str());
                }
            },
        }
        if hit {
            self.counts.dns_matched = after(self.counts.dns_matched, 1);
        }
        if hit || kept {
            schedule_save(&mut self.save_at, after(t, 30));
        }
        if self.last.len() > LAST_MAX {
            self.last = NameMap::new();
            assert(views(self.last@) =~= Seq::<(Seq<char>, QueryView)>::empty());
        }
        let q = Query { domain, qtype, at: t };
        proof {
            lemma_views(self.last@, mac@, q);
        }
        self.last.insert(owned(mac), q);
        assert(self@ =~= after_query(v, r.dns@, keep, t, mac@, domain@, qtype@, sport));
    }

    fn take_dns(
        &mut self,
        r: &Rules,
        keep: bool,
        t: u64,
        ip: &str,
        domain: String,
        qtype: String,
        sport: u16,
    )
        requires
            old(self).wf(),
            r.wf(),
        ensures
            final(self).wf(),
            final(self)@ == on_dns(
                old(self)@,
                r.dns@,
                keep,
                t,
                ip@,
                domain@,
                qtype@,
                sport,
            ),
    {
        self.counts.dns_events = after(self.counts.dns_events, 1);
        match self.st.resolve_ip(ip, t) {
            Some(mac) => self.take_query(r, keep, t, mac.as_str(), domain, qtype, sport),
            None => {
                self.counts.dns_noowner = after(self.counts.dns_noowner, 1);
            },
        }
    }

    fn take_ports(&mut self, t: u64, ip: &str, open: Vec<u16>, banner: String)
        requires
            old(self).wf(),
        ensures
            final(self).wf(),
            final(self)@ == on_ports(old(self)@, t, ip@, open@, banner@),
    {
        if let Some(mac) = self.st.resolve_ip(ip, t) {
            let d = self.st.get(mac.as_str(), t);
            d.open_ports = open;
            if !banner.as_str().is_empty() {
                d.banner = banner;
            }
            schedule_save(&mut self.save_at, after(t, 10));
        }
    }

    fn take_peer(
        &mut self,
        r: &Rules,
        keep: bool,
        t: u64,
        ip: &str,
        proto: &str,
        remote: &str,
        port: u16,
    )
        requires
            old(self).wf(),
        ensures
            final(self).wf(),
            final(self)@ == on_peer(
                old(self)@,
                r.peer@,
                keep,
                t,
                ip@,
                proto@,
                remote@,
                port,
            ),
    {
        if let Some(mac) = self.st.resolve_ip(ip, t) {
            match r.match_peer(proto, port, remote) {
                Some(rule) => {
                    let d = self.st.get(mac.as_str(), t);
                    count_hit(&mut d.peer_hits, rule.id.as_str(), t);
                    schedule_save(&mut self.save_at, after(t, 30));
                },
                None => {
                    if keep {
                        let mut name = owned(proto);
                        name.push('/');
                        push_dec(&mut name, port as u64);
                        assert(name@ =~= proto@ + seq!['/'] + dec(port as nat));
                        let d = self.st.get(mac.as_str(), t);
                        if d.note_unmatched(name.as_str()) {
                            schedule_save(&mut self.save_at, after(t, 60));
                        }
                    }
                },
            }
        }
    }

    fn take_tcp(&mut self, t: u64, ip: &str, fp: String)
        requires
            old(self).wf(),
        ensures
            final(self).wf(),
            final(self)@ == on_tcp(old(self)@, t, ip@, fp@),
    {
        if let Some(mac) = self.st.resolve_ip(ip, t) {
            let d = self.st.get(mac.as_str(), t);
            if !eq(d.tcp_fp.as_str(), fp.as_str()) {
                d.tcp_fp = fp;
                schedule_save(&mut self.save_at, after(t, 20));
            }
        }
    }

    fn take_agent(&mut self, t: u64, mac: &str, ua: String, via: &str)
        requires
            old(self).wf(),
        ensures
            final(self).wf(),
            final(self)@ == after_agent(old(self)@, t, mac@, ua@, via@),
    {
        if !ua.as_str().is_empty() {
            let d = self.st.get(mac, t);
            if eq(via, "mqtt") {
                if !eq(d.mqtt_id.as_str(), ua.as_str()) {
                    d.mqtt_id = ua;
                    schedule_save(&mut self.save_at, after(t, 20));
                }
            } else {
                if !eq(d.http_ua.as_str(), ua.as_str()) {
                    d.http_ua = ua;
                    schedule_save(&mut self.save_at, after(t, 20));
                }
            }
        }
    }

    fn take_host(&mut self, r: &Rules, keep: bool, t: u64, mac: &str, host: &str, via: &str)
        requires
            old(self).wf(),
            r.wf(),
        ensures
            final(self).wf(),
            final(self)@ == after_host(old(self)@, r.dns@, keep, t, mac@, host@, via@),
    {
        if host.is_empty() {
            return ;
        }
        proof {
            reveal_strlit("");
            assert(""@ =~= Seq::<char>::empty());
        }
        match r.match_dns(host, "") {
            Some(rule) => {
                let d = self.st.get(mac, t);
                count_hit(&mut d.sni_hits, rule.id.as_str(), t);
                self.counts.sniff_matched = after(self.counts.sniff_matched, 1);
                schedule_save(&mut self.save_at, after(t, 30));
            },
            None => {
                if keep {
                    let mut name = owned(via);
                    name.push(':');
                    append_str(&mut name, host);
                    assert(name@ =~= via@ + seq![':'] + host@);
                    let d = self.st.get(mac, t);
                    if d.note_unmatched(name.as_str()) {
                        schedule_save(&mut self.save_at, after(t, 30));
                    }
                }
            },
        }
    }

    fn take_conn(
        &mut self,
        r: &Rules,
        keep: bool,
        t: u64,
        ip: &str,
        host: &str,
        ua: String,
        via: &str,
    )
        requires
            old(self).wf(),
            r.wf(),
        ensures
            final(self).wf(),
            final(self)@ == on_conn(old(self)@, r.dns@, keep, t, ip@, host@, ua@, via@),
    {
        self.counts.sniff_events = after(self.counts.sniff_events, 1);
        match self.st.resolve_ip(ip, t) {
            Some(mac) => {
                if !mac.as_str().is_empty() {
                    self.take_agent(t, mac.as_str(), ua, via);
                    self.take_host(r, keep, t, mac.as_str(), host, via);
                }
            },
            None => {
                self.counts.sniff_noowner = after(self.counts.sniff_noowner, 1);
            },
        }
    }

    fn take_dhcp(
        &mut self,
        t: u64,
        mac: &str,
        ip: String,
        host: String,
        vendor: String,
        opts: String,
    )
        requires
            old(self).wf(),
        ensures
            final(self).wf(),
            final(self)@ == on_dhcp(old(self)@, t, mac@, ip@, host@, vendor@, opts@),
    {
        let d = self.st.get(mac, t);
        let ghost had = d@;
        let ic = chars(ip.as_str());
        if !ip.as_str().is_empty() && !lists(&d.ipv4, ip.as_str()) && !mentions(
            ic.as_slice(),
            ":",
        ) {
            d.ipv4.push(ip);
            assert(texts(d.ipv4@) =~= had.ipv4.push(ip@));
        }
        if !host.as_str().is_empty() {
            d.dhcp_name = host;
        }
        if !vendor.as_str().is_empty() {
            d.dhcp_vendor = vendor;
        }
        if !opts.as_str().is_empty() {
            d.dhcp_fp = opts;
        }
        d.last_seen = t;
        schedule_save(&mut self.save_at, after(t, 20));
    }

    fn take_mdns(&mut self, t: u64, ip: &str, name: String, model: String, services: Vec<String>)
        requires
            old(self).wf(),
        ensures
            final(self).wf(),
            final(self)@ == on_mdns(
                old(self)@,
                t,
                ip@,
                name@,
                model@,
                texts(services@),
            ),
    {
        if let Some(mac) = self.st.resolve_ip(ip, t) {
            let d = self.st.get(mac.as_str(), t);
            if !name.as_str().is_empty() {
                d.mdns_name = name;
            }
            if !model.as_str().is_empty() {
                d.mdns_model = model;
            }
            if d.add_services(&services) {
                schedule_save(&mut self.save_at, after(t, 20));
            }
        }
    }

    fn take_ssdp(&mut self, t: u64, ip: &str, server: String)
        requires
            old(self).wf(),
        ensures
            final(self).wf(),
            final(self)@ == on_ssdp(old(self)@, t, ip@, server@),
    {
        if let Some(mac) = self.st.resolve_ip(ip, t) {
            let d = self.st.get(mac.as_str(), t);
            if !eq(d.upnp_server.as_str(), server.as_str()) {
                d.upnp_server = server;
                schedule_save(&mut self.save_at, after(t, 20));
            }
        }
    }

    /// Takes in a change of a source's own state.
    pub fn set_source(&mut self, kind: &str, state: &str, info: String)
        requires
            old(self).wf(),
        ensures
            final(self).wf(),
            final(self)@ == on_source(old(self)@, kind@, state@, info@),
    {
        let ghost v = self@;
        let ghost all = source_views(self.sources@);
        let ghost p = |s: SourceView| s.kind != kind@;
        let mut i: usize = 0;
        let ghost mut done: int = 0;
        assert(all.take(0).filter(p) + all.skip(0) =~= all) by {
            reveal(Seq::filter);
        }
        while i < self.sources.len()
            invariant
                self.wf(),
                self@ == (DaemonView { sources: source_views(self.sources@), ..v }),
                p == (|s: SourceView| s.kind != kind@),
                0 <= done <= all.len(),
                i == all.take(done).filter(p).len(),
                i <= self.sources@.len(),
                source_views(self.sources@) == all.take(done).filter(p) + all.skip(done),
            decreases all.len() - done,
        {
            let ghost cur = source_views(self.sources@);
            let ghost front = all.take(done).filter(p);
            assert(cur[i as int] == self.sources@[i as int]@);
            assert(cur.len() == self.sources@.len());
            assert(done < all.len());
            assert(cur[i as int] == all[done]);
            assert(all.take(done + 1).drop_last() =~= all.take(done));
            if eq(self.sources[i].kind.as_str(), kind) {
                let _ = self.sources.remove(i);
                proof {
                    assert(source_views(self.sources@) =~= cur.remove(i as int));
                    assert(all.take(done + 1).filter(p) == front) by {
                        reveal(Seq::filter);
                    }
                    assert(cur.remove(i as int) =~= front + all.skip(done + 1));
                }
            } else {
                i = i + 1;
                proof {
                    assert(all.take(done + 1).filter(p) == front.push(all[done])) by {
                        reveal(Seq::filter);
                    }
                    assert(cur =~= front.push(all[done]) + all.skip(done + 1));
                }
            }
            proof {
                done = done + 1;
            }
        }
        proof {
            assert(source_views(self.sources@).len() == self.sources@.len());
            assert(done == all.len());
            assert(all.take(done) =~= all);
            assert(source_views(self.sources@) =~= other_sources(all, kind@));
        }
        let s = Source { kind: owned(kind), state: owned(state), info };
        let ghost before = source_views(self.sources@);
        let ghost sv = s@;
        self.sources.push(s);
        assert(source_views(self.sources@) =~= before.push(sv));
    }

    /// Takes in an event at the time `t`. `keep` says whether names without a rule
    /// are kept.
    pub fn take(&mut self, e: Event, r: &Rules, keep: bool, t: u64)
        requires
            old(self).wf(),
            r.wf(),
        ensures
            final(self).wf(),
            final(self)@ == on_event(old(self)@, e@, r.dns@, r.peer@, keep, t),
    {
        match e {
            Event::Dns { ip, domain, qtype, sport } => self.take_dns(
                r,
                keep,
                t,
                ip.as_str(),
                domain,
                qtype,
                sport,
            ),
            Event::Ports { ip, open, banner } => self.take_ports(t, ip.as_str(), open, banner),
            Event::Peer { ip, proto, remote, port } => self.take_peer(
                r,
                keep,
                t,
                ip.as_str(),
                proto.as_str(),
                remote.as_str(),
                port,
            ),
            Event::TcpFp { ip, fp } => self.take_tcp(t, ip.as_str(), fp),
            Event::Conn { ip, host, ua, via } => self.take_conn(
                r,
                keep,
                t,
                ip.as_str(),
                host.as_str(),
                ua,
                via,
            ),
            Event::Dhcp { mac, ip, host, vendor, opts } => self.take_dhcp(
                t,
                mac.as_str(),
                ip,
                host,
                vendor,
                opts,
            ),
            Event::Mdns { ip, name, model, services } => self.take_mdns(
                t,
                ip.as_str(),
                name,
                model,
                services,
            ),
            Event::Ssdp { ip, server } => self.take_ssdp(t, ip.as_str(), server),
            Event::SourceInfo { kind, state, info } => self.set_source(kind, state, info),
        }
    }
}

impl Device {
    /// Adds announced services where there is room, and says whether one was
    /// added.
    fn add_services(&mut self, more: &Vec<String>) -> (r: bool)
        requires
            old(self).wf(),
        ensures
            final(self).wf(),
            final(self)@ == (DeviceView {
                mdns_services: more_services(
                    old(self)@.mdns_services,
                    texts(more@),
                    more@.len() as int,
                ),
                ..old(self)@
            }),
            r == (final(self)@.mdns_services.len() > old(self)@.mdns_services.len()),
    {
        let ghost v = self@;
        let ghost list = texts(more@);
        let had = self.mdns_services.len();
        for i in 0..more.len()
            invariant
                self.wf(),
                list == texts(more@),
                had == v.mdns_services.len(),
                self@ == (DeviceView {
                    mdns_services: more_services(v.mdns_services, list, i as int),
                    ..v
                }),
                self.mdns_services@.len() >= had,
        {
            assert(list[i as int] == more@[i as int]@);
            let s = more[i].as_str();
            if !lists(&self.mdns_services, s) && self.mdns_services.len() < SERVICES_MAX {
                let ghost before = texts(self.mdns_services@);
                self.mdns_services.push(owned(s));
                assert(texts(self.mdns_services@) =~= before.push(s@));
            }
        }
        self.mdns_services.len() > had
    }
}

// ---------------------------------------------------------------------------
// What is due
// ---------------------------------------------------------------------------

/// Whether something that was last done at `last` is due again.
pub fn is_due(t: u64, last: u64, interval: u64) -> (r: bool)
    ensures
        r == (since(t, last) >= interval),
{
    elapsed(t, last) >= interval
}

/// How often the rules are read again.
pub const RULES_INTERVAL: u64 = 60;

/// When recurring work was last done.
#[derive(Clone, Copy, PartialEq, Eq, Structural)]
pub struct Clock {
    pub refresh: u64,
    pub rules: u64,
    pub persist: u64,
}

/// Which recurring work is due: to see who is there, to read the rules again, and to
/// forget what is too old.
#[derive(Clone, Copy, PartialEq, Eq, Structural)]
pub struct Due {
    pub refresh: bool,
    pub rules: bool,
    pub persist: bool,
}

/// Which work is due at the time `t`.
pub open spec fn due_at(c: Clock, t: u64, refresh: u64, persist: u64) -> Due {
    Due {
        refresh: since(t, c.refresh) >= refresh,
        rules: since(t, c.rules) >= RULES_INTERVAL,
        persist: since(t, c.persist) >= persist,
    }
}

/// The clock after the work `d` was done at the time `t`.
pub open spec fn wound(c: Clock, d: Due, t: u64) -> Clock {
    Clock {
        refresh: if d.refresh {
            t
        } else {
            c.refresh
        },
        rules: if d.rules {
            t
        } else {
            c.rules
        },
        persist: if d.persist {
            t
        } else {
            c.persist
        },
    }
}

impl Clock {
    /// The clock of a collector that starts at the time `t`: it has yet to see who is
    /// there, and has just read everything else.
    pub fn new(t: u64) -> (r: Clock)
        ensures
            r == (Clock { refresh: 0, rules: t, persist: t }),
    {
        Clock { refresh: 0, rules: t, persist: t }
    }

    /// Says what is due at the time `t`, with the intervals given, and takes it for
    /// done.
    pub fn tick(&mut self, t: u64, refresh: u64, persist: u64) -> (r: Due)
        ensures
            r == due_at(*old(self), t, refresh, persist),
            *final(self) == wound(*old(self), r, t),
    {
        let d = Due {
            refresh: is_due(t, self.refresh, refresh),
            rules: is_due(t, self.rules, RULES_INTERVAL),
            persist: is_due(t, self.persist, persist),
        };
        if d.refresh {
            self.refresh = t;
        }
        if d.rules {
            self.rules = t;
        }
        if d.persist {
            self.persist = t;
        }
        d
    }
}

/// Whether other rules have been read than those in use: another version, or
/// another number of rules about names.
pub fn rules_changed(fresh: &Rules, used: &Rules) -> (r: bool)
    ensures
        r == (fresh.dns@.len() != used.dns@.len() || fresh.version != used.version),
{
    fresh.dns.len() != used.dns.len() || fresh.version != used.version
}

/// What is remembered of an announcement.
pub open spec fn verdict(
    brand: Seq<char>,
    os: Seq<char>,
    dtype: Seq<char>,
    model: Seq<char>,
) -> Seq<char> {
    brand + seq!['|'] + os + seq!['|'] + dtype + seq!['|'] + model
}

/// Why a conclusion is announced: it is the first, or another than the last;
/// `None` where there is none or it is the same.
pub open spec fn reason(
    announced: Entries<Seq<char>>,
    mac: Seq<char>,
    confidence: u32,
    what: Seq<char>,
) -> Option<Seq<char>> {
    if confidence == 0 {
        None
    } else {
        match lookup(announced, mac) {
            Some(prev) => if prev == what {
                None
            } else {
                Some("changed"@)
            },
            None => Some("new"@),
        }
    }
}

impl Daemon {
    /// Says whether the store is to be written now; the agreed time is then used
    /// up.
    pub fn save_due(&mut self, t: u64) -> (r: bool)
        requires
            old(self).wf(),
        ensures
            final(self).wf(),
            r == (old(self)@.save_at matches Some(at) && t >= at),
            final(self)@ == (DaemonView {
                save_at: if r {
                    None
                } else {
                    old(self)@.save_at
                },
                ..old(self)@
            }),
    {
        match self.save_at {
            Some(at) => {
                if t >= at {
                    self.save_at = None;
                    true
                } else {
                    false
                }
            },
            None => false,
        }
    }

    /// Says whether and why the conclusion about a device is to be announced, and
    /// remembers it where it is.
    pub fn announce(
        &mut self,
        mac: &str,
        confidence: u32,
        brand: &str,
        os: &str,
        dtype: &str,
        model: &str,
    ) -> (r: Option<&'static str>)
        requires
            old(self).wf(),
        ensures
            final(self).wf(),
            match r {
                Some(s) => reason(
                    old(self)@.announced,
                    mac@,
                    confidence,
                    verdict(brand@, os@, dtype@, model@),
                ) == Some(s@),
                None => reason(
                    old(self)@.announced,
                    mac@,
                    confidence,
                    verdict(brand@, os@, dtype@, model@),
                ) is None,
            },
            final(self)@ == (DaemonView {
                announced: if r is Some {
                    put(
                        old(self)@.announced,
                        mac@,
                        verdict(brand@, os@, dtype@, model@),
                    )
                } else {
                    old(self)@.announced
                },
                ..old(self)@
            }),
    {
        if confidence == 0 {
            return None;
        }
        let mut what = owned(brand);
        what.push('|');
        append_str(&mut what, os);
        what.push('|');
        append_str(&mut what, dtype);
        what.push('|');
        append_str(&mut what, model);
        proof {
            assert(what@ =~= verdict(brand@, os@, dtype@, model@));
            lemma_views(self.announced@, mac@, what);
        }
        let why = match self.announced.get(mac) {
            Some(prev) => {
                if eq(prev.as_str(), what.as_str()) {
                    return None;
                }
                "changed"
            },
            None => "new",
        };
        self.announced.insert(owned(mac), what);
        Some(why)
    }
}

// ---------------------------------------------------------------------------
// Commands
// ---------------------------------------------------------------------------

/// A command from outside.
pub enum Command {
    Forget(String),
    Note(String, String),
    Scan,
    Probe,
    Save,
}

/// A command, in mathematical values.
pub enum CommandView {
    Forget(Seq<char>),
    Note(Seq<char>, Seq<char>),
    Scan,
    Probe,
    Save,
}

impl View for Command {
    type V = CommandView;

    open spec fn view(&self) -> CommandView {
        match *self {
            Command::Forget(m) => CommandView::Forget(m@),
            Command::Note(m, n) => CommandView::Note(m@, n@),
            Command::Scan => CommandView::Scan,
            Command::Probe => CommandView::Probe,
            Command::Save => CommandView::Save,
        }
    }
}

/// The command in a line: a word, and behind one space each a hardware address and
/// the rest of the line, where they are called for.
pub open spec fn command_in(line: Seq<char>) -> Option<CommandView> {
    let (name, more) = match split_first(line, ' ') {
        Some((a, b)) => (a, Some(b)),
        None => (line, None),
    };
    if name == "forget"@ {
        match more {
            Some(b) => {
                let m = match split_first(b, ' ') {
                    Some((m, _)) => m,
                    None => b,
                };
                match mac_normal(m) {
                    Some(mac) => Some(CommandView::Forget(mac)),
                    None => None,
                }
            },
            None => None,
        }
    } else if name == "note"@ {
        match more {
            Some(b) => match split_first(b, ' ') {
                Some((m, n)) => match mac_normal(m) {
                    Some(mac) => Some(CommandView::Note(mac, n)),
                    None => None,
                },
                None => None,
            },
            None => None,
        }
    } else if name == "scan"@ {
        Some(CommandView::Scan)
    } else if name == "probe"@ {
        Some(CommandView::Probe)
    } else if name == "save"@ {
        Some(CommandView::Save)
    } else {
        None
    }
}

/// The view of a command that may be missing.
pub open spec fn opt_command(c: Option<Command>) -> Option<CommandView> {
    match c {
        Some(c) => Some(c@),
        None => None,
    }
}

/// Reads a command.
pub fn parse_command(line: &str) -> (r: Option<Command>)
    ensures
        opt_command(r) == command_in(line@),
{
    let lc = chars(line);
    let l = lc.as_slice();
    let (name, more) = match part_first(l, ' ') {
        Some((a, b)) => (a, Some(b)),
        None => (l, None),
    };
    if spells(name, "forget") {
        if let Some(b) = more {
            let m = match part_first(b, ' ') {
                Some((m, _)) => m,
                None => b,
            };
            if let Some(mac) = norm_mac(text(m).as_str()) {
                return Some(Command::Forget(mac));
            }
        }
        None
    } else if spells(name, "note") {
        if let Some(b) = more {
            if let Some((m, n)) = part_first(b, ' ') {
                if let Some(mac) = norm_mac(text(m).as_str()) {
                    return Some(Command::Note(mac, text(n)));
                }
            }
        }
        None
    } else if spells(name, "scan") {
        Some(Command::Scan)
    } else if spells(name, "probe") {
        Some(Command::Probe)
    } else if spells(name, "save") {
        Some(Command::Save)
    } else {
        None
    }
}

impl Store {
    /// Forgets a device, and says whether it was known.
    pub fn forget(&mut self, mac: &str) -> (r: bool)
        requires
            old(self).wf(),
        ensures
            final(self).wf(),
            r == (lookup(old(self)@.devs, mac@) is Some),
            final(self)@ == (StoreView {
                devs: without(old(self)@.devs, mac@),
                dirty: old(self)@.dirty || r,
                ..old(self)@
            }),
    {
        let ghost was = self.devs@;
        proof {
            lemma_views(was, mac@, arbitrary());
            lemma_without_wf(was, mac@);
        }
        match self.devs.remove(mac) {
            Some(_) => {
                self.dirty = true;
                true
            },
            None => false,
        }
    }

    /// Gives a device the name `note`. Where it is not known, it is seen for the
    /// first time `now`.
    pub fn set_note(&mut self, mac: &str, note: String, now: u64)
        requires
            old(self).wf(),
        ensures
            final(self).wf(),
            final(self)@ == with_device(
                old(self)@,
                mac@,
                (DeviceView { note: note@, ..device_of(old(self)@, mac@, now) }),
            ),
    {
        let d = self.get(mac, now);
        d.note = note;
    }

    /// Counts the devices that are online.
    pub fn online_count(&self) -> (r: usize)
        ensures
            r == self@.devs.filter(|e: (Seq<char>, DeviceView)| e.1.online).len(),
    {
        let ghost all = self@.devs;
        let ghost p = |e: (Seq<char>, DeviceView)| e.1.online;
        let mut c: usize = 0;
        let n = self.devs.len();
        assert(all.take(0).filter(p).len() == 0) by {
            reveal(Seq::filter);
        }
        for i in 0..n
            invariant
                n == self.devs@.len(),
                all == self@.devs,
                p == (|e: (Seq<char>, DeviceView)| e.1.online),
                c == all.take(i as int).filter(p).len(),
                c <= i,
        {
            let d = self.devs.value_at(i);
            assert(all[i as int].1 == d@);
            assert(all.take(i + 1).drop_last() =~= all.take(i as int));
            if d.online {
                c = c + 1;
            }
            assert(c == all.take(i + 1).filter(p).len()) by {
                reveal(Seq::filter);
            }
        }
        assert(all.take(all.len() as int) =~= all);
        c
    }

    /// Lists the addresses that a probe goes to: the first IPv4 address of each
    /// device that is online and has one.
    pub fn probe_targets(&self) -> (r: Vec<String>)
        ensures
            texts(r@) == targets(self@.devs, self@.devs.len() as int),
    {
        let ghost all = self@.devs;
        let mut out: Vec<String> = Vec::new();
        assert(texts(out@) =~= Seq::<Seq<char>>::empty());
        let n = self.devs.len();
        for i in 0..n
            invariant
                n == self.devs@.len(),
                all == self@.devs,
                texts(out@) == targets(all, i as int),
        {
            let d = self.devs.value_at(i);
            assert(all[i as int].1 == d@);
            assert(d@.ipv4.len() == d.ipv4@.len());
            if d.online && d.ipv4.len() > 0 {
                let ghost was = texts(out@);
                out.push(owned(d.ipv4[0].as_str()));
                assert(texts(out@) =~= was.push(d@.ipv4[0]));
            }
        }
        out
    }
}

/// The first IPv4 addresses of those of the first `n` devices that are online and
/// have one.
pub open spec fn targets(m: Entries<DeviceView>, n: int) -> Seq<Seq<char>>
    decreases n,
{
    if n <= 0 {
        Seq::empty()
    } else if m[n - 1].1.online && m[n - 1].1.ipv4.len() > 0 {
        targets(m, n - 1).push(m[n - 1].1.ipv4[0])
    } else {
        targets(m, n - 1)
    }
}

proof fn lemma_without_wf(m: Entries<Device>, k: Seq<char>)
    requires
        forall|i: int| 0 <= i < m.len() ==> (#[trigger] m[i]).1.wf(),
    ensures
        forall|i: int| 0 <= i < without(m, k).len() ==> (#[trigger] without(m, k)[i]).1.wf(),
    decreases m.len(),
{
    if m.len() > 0 {
        let rest = m.skip(1);
        assert forall|i: int| 0 <= i < rest.len() implies (#[trigger] rest[i]).1.wf() by {
            assert(rest[i] == m[i + 1]);
        }
        lemma_without_wf(rest, k);
        assert forall|i: int| 0 <= i < without(m, k).len() implies (#[trigger] without(
            m,
            k,
        )[i]).1.wf() by {
            if m[0].0 != k && i > 0 {
                assert(without(m, k)[i] == without(rest, k)[i - 1]);
            }
        }
    }
}

// ---------------------------------------------------------------------------
// Listing
// ---------------------------------------------------------------------------

/// Whether one device is listed before another whatever their order in the store:
/// those online first, and of these and of the others those seen last.
pub open spec fn listed_before(a: DeviceView, b: DeviceView) -> bool {
    (a.online && !b.online) || (a.online == b.online && a.last_seen > b.last_seen)
}

/// The list of places with `i` put behind all that are not listed after it.
pub open spec fn placed(l: Seq<usize>, m: Entries<DeviceView>, i: usize) -> Seq<usize>
    decreases l.len(),
{
    if l.len() == 0 || !listed_before(m[i as int].1, m[l.last() as int].1) {
        l.push(i)
    } else {
        placed(l.drop_last(), m, i).push(l.last())
    }
}

/// The places of the first `n` devices in the order in which they are listed.
pub open spec fn list_order(m: Entries<DeviceView>, n: int) -> Seq<usize>
    decreases n,
{
    if n <= 0 {
        Seq::empty()
    } else {
        placed(list_order(m, n - 1), m, (n - 1) as usize)
    }
}

proof fn lemma_placed(l: Seq<usize>, m: Entries<DeviceView>, i: usize, j: int)
    requires
        0 <= j <= l.len(),
        j > 0 ==> !listed_before(m[i as int].1, m[l[j - 1] as int].1),
        forall|k: int|
            j <= k < l.len() ==> listed_before(m[i as int].1, m[#[trigger] l[k] as int].1),
    ensures
        placed(l, m, i) == l.insert(j, i),
    decreases l.len(),
{
    if j < l.len() {
        let front = l.drop_last();
        assert forall|k: int| j <= k < front.len() implies listed_before(
            m[i as int].1,
            m[#[trigger] front[k] as int].1,
        ) by {
            assert(front[k] == l[k]);
        }
        if j > 0 {
            assert(front[j - 1] == l[j - 1]);
        }
        lemma_placed(front, m, i, j);
        assert(listed_before(m[i as int].1, m[l[l.len() - 1] as int].1));
        assert(front.insert(j, i).push(l.last()) =~= l.insert(j, i));
    } else {
        assert(l.push(i) =~= l.insert(j, i));
    }
}

impl Store {
    /// Gives the order in which the devices are listed: those online first, those
    /// seen last first, else as they stand in the store.
    pub fn listing(&self) -> (r: Vec<usize>)
        ensures
            r@ == list_order(self@.devs, self@.devs.len() as int),
            forall|i: int| 0 <= i < r@.len() ==> (#[trigger] r@[i]) < self@.devs.len(),
    {
        let ghost all = self@.devs;
        let mut out: Vec<usize> = Vec::new();
        let n = self.devs.len();
        for i in 0..n
            invariant
                n == self.devs@.len(),
                all == self@.devs,
                out@ == list_order(all, i as int),
                forall|k: int| 0 <= k < out@.len() ==> (#[trigger] out@[k]) < i,
        {
            let d = self.devs.value_at(i);
            assert(all[i as int].1 == d@);
            let mut j = out.len();
            let mut going = true;
            while going && j > 0
                invariant
                    n == self.devs@.len(),
                    all == self@.devs,
                    i < n,
                    all[i as int].1 == d@,
                    j <= out@.len(),
                    forall|k: int| 0 <= k < out@.len() ==> (#[trigger] out@[k]) < i,
                    forall|k: int|
                        j <= k < out@.len() ==> listed_before(
                            all[i as int].1,
                            all[#[trigger] out@[k] as int].1,
                        ),
                    !going ==> j > 0 && !listed_before(
                        all[i as int].1,
                        all[out@[j - 1] as int].1,
                    ),
                decreases j, if going { 1int } else { 0int },
            {
                assert(out@[j - 1] < i);
                let o = self.devs.value_at(out[j - 1]);
                assert(all[out@[j - 1] as int].1 == o@);
                if (d.online && !o.online) || (d.online == o.online && d.last_seen > o.last_seen) {
                    j = j - 1;
                } else {
                    going = false;
                }
            }
            proof {
                lemma_placed(out@, all, i, j as int);
            }
            out.insert(j, i);
        }
        out
    }
}

// ---------------------------------------------------------------------------
// Laws
// ---------------------------------------------------------------------------

/// Whether a time is agreed on that is not later than `at`.
pub open spec fn no_later(save_at: Option<u64>, at: u64) -> bool {
    save_at matches Some(b) && b <= at
}

// ---------------------------------------------------------------------------
// Obeying
// ---------------------------------------------------------------------------

/// What a command leaves to be done outside of the collector's state.
#[derive(Clone, Copy, PartialEq, Eq, Structural)]
pub enum Task {
    Nothing,
    /// Ask for announcements, and see who is there.
    Scan,
    /// See who is there, and probe their ports.
    Probe,
    /// Write the store.
    Save,
}

/// The state after a command at the time `t`, and what is left to be done. Ports are
/// probed only where the user has enabled it.
pub open spec fn obeyed(v: DaemonView, c: CommandView, probing: bool, t: u64) -> (
    DaemonView,
    Task,
) {
    match c {
        CommandView::Forget(mac) => (
            DaemonView {
                st: StoreView { devs: without(v.st.devs, mac), dirty: true, ..v.st },
                ..v
            },
            Task::Nothing,
        ),
        CommandView::Note(mac, note) => (
            with_dev(v, mac, (DeviceView { note, ..device_of(v.st, mac, t) })),
            Task::Nothing,
        ),
        CommandView::Scan => (v, Task::Scan),
        CommandView::Probe => if probing {
            (v, Task::Probe)
        } else {
            (on_source(v, "ports"@, "disabled"@, Seq::empty()), Task::Nothing)
        },
        CommandView::Save => (v, Task::Save),
    }
}

impl Daemon {
    /// Takes in a command, and says what is left to be done. `probing` says whether
    /// the user has enabled the port probe.
    pub fn obey(&mut self, c: Command, probing: bool, t: u64) -> (r: Task)
        requires
            old(self).wf(),
        ensures
            final(self).wf(),
            (final(self)@, r) == obeyed(old(self)@, c@, probing, t),
    {
        match c {
            Command::Forget(mac) => {
                self.st.forget(mac.as_str());
                self.st.dirty = true;
                Task::Nothing
            },
            Command::Note(mac, note) => {
                self.st.set_note(mac.as_str(), note, t);
                Task::Nothing
            },
            Command::Scan => Task::Scan,
            Command::Probe => {
                if probing {
                    Task::Probe
                } else {
                    let none = String::new();
                    assert(none@ =~= Seq::<char>::empty());
                    self.set_source("ports", "disabled", none);
                    Task::Nothing
                }
            },
            Command::Save => Task::Save,
        }
    }
}

/// Without the user's consent no command leads to a probe.
pub proof fn law_no_probe_without_consent(v: DaemonView, c: CommandView, t: u64)
    ensures
        obeyed(v, c, false, t).1 != Task::Probe,
{
}

/// What has just been done is not due again at once.
pub proof fn law_work_is_not_due_twice(c: Clock, t: u64, refresh: u64, persist: u64)
    requires
        refresh > 0,
        persist > 0,
    ensures
        due_at(wound(c, due_at(c, t, refresh, persist), t), t, refresh, persist) == (Due {
            refresh: false,
            rules: false,
            persist: false,
        }),
{
}

proof fn lemma_host_saving(
    v: DaemonView,
    dns: Seq<DnsRule>,
    keep: bool,
    t: u64,
    mac: Seq<char>,
    host: Seq<char>,
    ua: Seq<char>,
    via: Seq<char>,
    at: u64,
)
    requires
        no_later(v.save_at, at),
    ensures
        no_later(after_agent(v, t, mac, ua, via).save_at, at),
        no_later(after_host(v, dns, keep, t, mac, host, via).save_at, at),
{
}

proof fn lemma_query_saving(
    v: DaemonView,
    dns: Seq<DnsRule>,
    keep: bool,
    t: u64,
    mac: Seq<char>,
    domain: Seq<char>,
    qtype: Seq<char>,
    sport: u16,
    at: u64,
)
    requires
        no_later(v.save_at, at),
    ensures
        no_later(after_query(v, dns, keep, t, mac, domain, qtype, sport).save_at, at),
{
}

/// Writing is never put off: whatever comes in, a time that was agreed on stays or
/// moves forward.
pub proof fn law_saving_is_never_put_off(
    v: DaemonView,
    e: EventView,
    dns: Seq<DnsRule>,
    peers: Seq<PeerRule>,
    keep: bool,
    t: u64,
    at: u64,
)
    requires
        no_later(v.save_at, at),
    ensures
        no_later(on_event(v, e, dns, peers, keep, t).save_at, at),
{
    match e {
        EventView::Dns { ip, domain, qtype, sport } => {
            if let Some(mac) = owner(v.st.devs, ip) {
                let counts = Counts { dns_events: bumped(v.counts.dns_events), ..v.counts };
                let a = DaemonView { st: traced(v.st, ip), counts, ..v };
                lemma_query_saving(a, dns, keep, t, mac, domain, qtype, sport, at);
            }
            assert(no_later(on_dns(v, dns, keep, t, ip, domain, qtype, sport).save_at, at));
        },
        EventView::Ports { ip, open, banner } => {
            assert(no_later(on_ports(v, t, ip, open, banner).save_at, at));
        },
        EventView::Peer { ip, proto, remote, port } => {
            assert(no_later(on_peer(v, peers, keep, t, ip, proto, remote, port).save_at, at));
        },
        EventView::TcpFp { ip, fp } => {
            assert(no_later(on_tcp(v, t, ip, fp).save_at, at));
        },
        EventView::Conn { ip, host, ua, via } => {
            if let Some(mac) = owner(v.st.devs, ip) {
                let counts = Counts { sniff_events: bumped(v.counts.sniff_events), ..v.counts };
                let a = DaemonView { st: traced(v.st, ip), counts, ..v };
                lemma_host_saving(a, dns, keep, t, mac, host, ua, via, at);
                let b = after_agent(a, t, mac, ua, via);
                lemma_host_saving(b, dns, keep, t, mac, host, ua, via, at);
            }
            assert(no_later(on_conn(v, dns, keep, t, ip, host, ua, via).save_at, at));
        },
        EventView::Dhcp { mac, ip, host, vendor, opts } => {
            assert(no_later(on_dhcp(v, t, mac, ip, host, vendor, opts).save_at, at));
        },
        EventView::Mdns { ip, name, model, services } => {
            assert(no_later(on_mdns(v, t, ip, name, model, services).save_at, at));
        },
        EventView::Ssdp { ip, server } => {
            assert(no_later(on_ssdp(v, t, ip, server).save_at, at));
        },
        EventView::SourceInfo { kind, state, info } => {},
    }
}

/// The names without a rule that are kept of a device.
pub open spec fn kept_names(s: StoreView, mac: Seq<char>) -> Entries<u32> {
    match lookup(s.devs, mac) {
        Some(d) => d.unmatched,
        None => Seq::empty(),
    }
}

proof fn lemma_same_names(s: StoreView, mac: Seq<char>, d: DeviceView, other: Seq<char>)
    requires
        ordered(s.devs),
        d.unmatched == kept_names(s, mac),
    ensures
        ordered(with_device(s, mac, d).devs),
        kept_names(with_device(s, mac, d), other) == kept_names(s, other),
{
    law_put_then_lookup(s.devs, mac, d, other);
    law_put_then_lookup(s.devs, mac, d, mac);
}

proof fn lemma_traced_names(s: StoreView, ip: Seq<char>, other: Seq<char>)
    requires
        ordered(s.devs),
    ensures
        ordered(traced(s, ip).devs),
        kept_names(traced(s, ip), other) == kept_names(s, other),
{
    if holder(s.devs, ip) is None && revealed(s.devs, ip) is Some {
        let mac = revealed(s.devs, ip).unwrap();
        let d = lookup(s.devs, mac).unwrap();
        lemma_same_names(s, mac, DeviceView { ipv6: d.ipv6.push(ip), ..d }, other);
    }
}

/// Names stay private: unless the user asked for it, no event adds to the names without
/// a rule that are kept of a device.
pub proof fn law_names_are_not_kept(
    v: DaemonView,
    e: EventView,
    dns: Seq<DnsRule>,
    peers: Seq<PeerRule>,
    t: u64,
    mac: Seq<char>,
)
    requires
        ordered(v.st.devs),
    ensures
        kept_names(on_event(v, e, dns, peers, false, t).st, mac) == kept_names(v.st, mac),
        ordered(on_event(v, e, dns, peers, false, t).st.devs),
{
    match e {
        EventView::Dns { ip, domain, qtype, sport } => {
            if let Some(m) = owner(v.st.devs, ip) {
                lemma_traced_names(v.st, ip, mac);
                lemma_traced_names(v.st, ip, m);
                let s = traced(v.st, ip);
                let d = paired(
                    with_shape(device_of(s, m, t), qtype, sport),
                    lookup(v.last, m),
                    domain,
                    qtype,
                    t,
                );
                lemma_same_names(s, m, d, mac);
                if let Some(rule) = dns_match(dns, domain, qtype) {
                    lemma_same_names(
                        s,
                        m,
                        DeviceView { dns_hits: hit_again(d.dns_hits, rule.id@, t), ..d },
                        mac,
                    );
                }
            }
        },
        EventView::Ports { ip, open, banner } => {
            if let Some(m) = owner(v.st.devs, ip) {
                lemma_traced_names(v.st, ip, mac);
                let s = traced(v.st, ip);
                let d = device_of(s, m, t);
                let b = if banner.len() > 0 {
                    banner
                } else {
                    d.banner
                };
                lemma_same_names(s, m, DeviceView { open_ports: open, banner: b, ..d }, mac);
            }
        },
        EventView::Peer { ip, proto, remote, port } => {
            if let Some(m) = owner(v.st.devs, ip) {
                lemma_traced_names(v.st, ip, mac);
                let s = traced(v.st, ip);
                let d = device_of(s, m, t);
                if let Some(rule) = peer_match(peers, proto, port, remote) {
                    lemma_same_names(
                        s,
                        m,
                        DeviceView { peer_hits: hit_again(d.peer_hits, rule.id@, t), ..d },
                        mac,
                    );
                }
            }
        },
        EventView::TcpFp { ip, fp } => {
            if let Some(m) = owner(v.st.devs, ip) {
                lemma_traced_names(v.st, ip, mac);
                let s = traced(v.st, ip);
                let d = device_of(s, m, t);
                lemma_same_names(s, m, DeviceView { tcp_fp: fp, ..d }, mac);
                lemma_same_names(s, m, d, mac);
            }
        },
        EventView::Conn { ip, host, ua, via } => {
            if let Some(m) = owner(v.st.devs, ip) {
                lemma_traced_names(v.st, ip, mac);
                let s = traced(v.st, ip);
                let d = device_of(s, m, t);
                let counts = Counts {
                    sniff_events: bumped(v.counts.sniff_events),
                    ..v.counts
                };
                let a = DaemonView { st: s, counts, ..v };
                let b = after_agent(a, t, m, ua, via);
                lemma_same_names(s, m, DeviceView { mqtt_id: ua, ..d }, mac);
                lemma_same_names(s, m, DeviceView { http_ua: ua, ..d }, mac);
                lemma_same_names(s, m, d, mac);
                assert(ordered(b.st.devs));
                assert(kept_names(b.st, mac) == kept_names(v.st, mac));
                let e = device_of(b.st, m, t);
                if let Some(rule) = dns_match(dns, host, Seq::empty()) {
                    lemma_same_names(
                        b.st,
                        m,
                        DeviceView { sni_hits: hit_again(e.sni_hits, rule.id@, t), ..e },
                        mac,
                    );
                }
            }
        },
        EventView::Dhcp { mac: m, ip, host, vendor, opts } => {
            let d = device_of(v.st, m, t);
            let n = DeviceView {
                ipv4: if ip.len() > 0 && !contains(ip, ":"@) {
                    added(d.ipv4, ip)
                } else {
                    d.ipv4
                },
                dhcp_name: renewed(d.dhcp_name, host),
                dhcp_vendor: renewed(d.dhcp_vendor, vendor),
                dhcp_fp: renewed(d.dhcp_fp, opts),
                last_seen: t,
                ..d
            };
            lemma_same_names(v.st, m, n, mac);
        },
        EventView::Mdns { ip, name, model, services } => {
            if let Some(m) = owner(v.st.devs, ip) {
                lemma_traced_names(v.st, ip, mac);
                let s = traced(v.st, ip);
                let d = device_of(s, m, t);
                let list = more_services(d.mdns_services, services, services.len() as int);
                let n = DeviceView {
                    mdns_name: renewed(d.mdns_name, name),
                    mdns_model: renewed(d.mdns_model, model),
                    mdns_services: list,
                    ..d
                };
                lemma_same_names(s, m, n, mac);
            }
        },
        EventView::Ssdp { ip, server } => {
            if let Some(m) = owner(v.st.devs, ip) {
                lemma_traced_names(v.st, ip, mac);
                let s = traced(v.st, ip);
                let d = device_of(s, m, t);
                lemma_same_names(s, m, DeviceView { upnp_server: server, ..d }, mac);
                lemma_same_names(s, m, d, mac);
            }
        },
        EventView::SourceInfo { kind, state, info } => {},
    }
}

proof fn lemma_put_len<V>(m: Entries<V>, k: Seq<char>, v: V)
    ensures
        put(m, k, v).len() <= m.len() + 1,
    decreases m.len(),
{
    if m.len() > 0 {
        lemma_put_len(m.skip(1), k, v);
    }
}

/// No more than fifty names without a rule are ever noted of a device.
pub proof fn law_noted_names_are_bounded(d: DeviceView, name: Seq<char>)
    requires
        d.unmatched.len() <= UNMATCHED_MAX,
    ensures
        noted(d, name).unmatched.len() <= UNMATCHED_MAX,
{
    if d.unmatched.len() < UNMATCHED_MAX {
        lemma_put_len(
            d.unmatched,
            name,
            wrapped(lookup_or(d.unmatched, name, 0u32) + 1),
        );
    }
}

/// The memory of last queries is bounded.
pub proof fn law_last_queries_are_bounded(
    last: Entries<QueryView>,
    mac: Seq<char>,
    q: QueryView,
)
    ensures
        remembered(last, mac, q).len() <= LAST_MAX + 1,
{
    lemma_put_len(last, mac, q);
    lemma_put_len(Seq::<(Seq<char>, QueryView)>::empty(), mac, q);
}

/// No more than so many announced services are kept of a device.
pub proof fn law_services_are_bounded(v: Seq<Seq<char>>, more: Seq<Seq<char>>, n: int)
    requires
        v.len() <= SERVICES_MAX,
    ensures
        more_services(v, more, n).len() <= SERVICES_MAX,
    decreases n,
{
    if n > 0 {
        law_services_are_bounded(v, more, n - 1);
    }
}

/// Whether no list that grows with what a device does is longer than its limit.
pub open spec fn small(d: DeviceView) -> bool {
    &&& d.unmatched.len() <= UNMATCHED_MAX
    &&& d.mdns_services.len() <= SERVICES_MAX
    &&& d.dns_ports.len() <= PORT_RING
}

/// Whether that holds of all devices.
pub open spec fn all_small(m: Entries<DeviceView>) -> bool {
    forall|i: int| 0 <= i < m.len() ==> small((#[trigger] m[i]).1)
}

proof fn lemma_put_small(m: Entries<DeviceView>, k: Seq<char>, d: DeviceView)
    requires
        all_small(m),
        small(d),
    ensures
        all_small(put(m, k, d)),
    decreases m.len(),
{
    if m.len() > 0 {
        let rest = m.skip(1);
        assert(all_small(rest)) by {
            assert forall|i: int| 0 <= i < rest.len() implies small((#[trigger] rest[i]).1) by {
                assert(rest[i] == m[i + 1]);
            }
        }
        lemma_put_small(rest, k, d);
        assert(small(m[0].1));
    }
}

proof fn lemma_device_small(s: StoreView, mac: Seq<char>, t: u64)
    requires
        all_small(s.devs),
    ensures
        small(device_of(s, mac, t)),
{
    if lookup(s.devs, mac) is Some {
        let i = lemma_lookup_index(s.devs, mac);
        assert(small(s.devs[i].1));
    }
}

proof fn lemma_traced_small(s: StoreView, ip: Seq<char>)
    requires
        all_small(s.devs),
    ensures
        all_small(traced(s, ip).devs),
{
    if holder(s.devs, ip) is None && revealed(s.devs, ip) is Some {
        let mac = revealed(s.devs, ip).unwrap();
        let d = lookup(s.devs, mac).unwrap();
        let i = lemma_lookup_index(s.devs, mac);
        assert(small(s.devs[i].1));
        lemma_put_small(s.devs, mac, DeviceView { ipv6: d.ipv6.push(ip), ..d });
    }
}

proof fn lemma_query_small(
    v: DaemonView,
    dns: Seq<DnsRule>,
    keep: bool,
    t: u64,
    mac: Seq<char>,
    domain: Seq<char>,
    qtype: Seq<char>,
    sport: u16,
)
    requires
        all_small(v.st.devs),
    ensures
        all_small(after_query(v, dns, keep, t, mac, domain, qtype, sport).st.devs),
{
    lemma_device_small(v.st, mac, t);
    let w = with_shape(device_of(v.st, mac, t), qtype, sport);
    if sport != 0 {
        law_port_ring_is_bounded(device_of(v.st, mac, t), qtype, sport);
    }
    let d = paired(w, lookup(v.last, mac), domain, qtype, t);
    assert(small(d));
    lemma_put_small(v.st.devs, mac, d);
    law_noted_names_are_bounded(d, domain);
    lemma_put_small(v.st.devs, mac, noted(d, domain));
    if let Some(rule) = dns_match(dns, domain, qtype) {
        let h = DeviceView { dns_hits: hit_again(d.dns_hits, rule.id@, t), ..d };
        lemma_put_small(v.st.devs, mac, h);
    }
}

proof fn lemma_host_small(
    v: DaemonView,
    dns: Seq<DnsRule>,
    keep: bool,
    t: u64,
    mac: Seq<char>,
    host: Seq<char>,
    via: Seq<char>,
)
    requires
        all_small(v.st.devs),
    ensures
        all_small(after_host(v, dns, keep, t, mac, host, via).st.devs),
{
    lemma_device_small(v.st, mac, t);
    let d = device_of(v.st, mac, t);
    let name = via + seq![':'] + host;
    law_noted_names_are_bounded(d, name);
    lemma_put_small(v.st.devs, mac, noted(d, name));
    if let Some(rule) = dns_match(dns, host, Seq::empty()) {
        let h = DeviceView { sni_hits: hit_again(d.sni_hits, rule.id@, t), ..d };
        lemma_put_small(v.st.devs, mac, h);
    }
}

proof fn lemma_agent_small(v: DaemonView, t: u64, mac: Seq<char>, ua: Seq<char>, via: Seq<char>)
    requires
        all_small(v.st.devs),
    ensures
        all_small(after_agent(v, t, mac, ua, via).st.devs),
{
    lemma_device_small(v.st, mac, t);
    let d = device_of(v.st, mac, t);
    lemma_put_small(v.st.devs, mac, d);
    lemma_put_small(v.st.devs, mac, DeviceView { mqtt_id: ua, ..d });
    lemma_put_small(v.st.devs, mac, DeviceView { http_ua: ua, ..d });
}

/// Whatever comes in, what is kept of a device stays within its limits.
pub proof fn law_devices_stay_small(
    v: DaemonView,
    e: EventView,
    dns: Seq<DnsRule>,
    peers: Seq<PeerRule>,
    keep: bool,
    t: u64,
)
    requires
        all_small(v.st.devs),
    ensures
        all_small(on_event(v, e, dns, peers, keep, t).st.devs),
{
    match e {
        EventView::Dns { ip, domain, qtype, sport } => {
            lemma_traced_small(v.st, ip);
            if let Some(mac) = owner(v.st.devs, ip) {
                let counts = Counts { dns_events: bumped(v.counts.dns_events), ..v.counts };
                let a = DaemonView { st: traced(v.st, ip), counts, ..v };
                lemma_query_small(a, dns, keep, t, mac, domain, qtype, sport);
            }
            assert(all_small(on_dns(v, dns, keep, t, ip, domain, qtype, sport).st.devs));
        },
        EventView::Ports { ip, open, banner } => {
            lemma_traced_small(v.st, ip);
            if let Some(mac) = owner(v.st.devs, ip) {
                let s = traced(v.st, ip);
                lemma_device_small(s, mac, t);
                let d = device_of(s, mac, t);
                let b = if banner.len() > 0 {
                    banner
                } else {
                    d.banner
                };
                lemma_put_small(s.devs, mac, DeviceView { open_ports: open, banner: b, ..d });
            }
            assert(all_small(on_ports(v, t, ip, open, banner).st.devs));
        },
        EventView::Peer { ip, proto, remote, port } => {
            lemma_traced_small(v.st, ip);
            if let Some(mac) = owner(v.st.devs, ip) {
                let s = traced(v.st, ip);
                lemma_device_small(s, mac, t);
                let d = device_of(s, mac, t);
                let name = proto + seq!['/'] + dec(port as nat);
                law_noted_names_are_bounded(d, name);
                lemma_put_small(s.devs, mac, noted(d, name));
                if let Some(rule) = peer_match(peers, proto, port, remote) {
                    let h = DeviceView { peer_hits: hit_again(d.peer_hits, rule.id@, t), ..d };
                    lemma_put_small(s.devs, mac, h);
                }
            }
            assert(all_small(on_peer(v, peers, keep, t, ip, proto, remote, port).st.devs));
        },
        EventView::TcpFp { ip, fp } => {
            lemma_traced_small(v.st, ip);
            if let Some(mac) = owner(v.st.devs, ip) {
                let s = traced(v.st, ip);
                lemma_device_small(s, mac, t);
                let d = device_of(s, mac, t);
                lemma_put_small(s.devs, mac, d);
                lemma_put_small(s.devs, mac, DeviceView { tcp_fp: fp, ..d });
            }
            assert(all_small(on_tcp(v, t, ip, fp).st.devs));
        },
        EventView::Conn { ip, host, ua, via } => {
            lemma_traced_small(v.st, ip);
            if let Some(mac) = owner(v.st.devs, ip) {
                let counts = Counts { sniff_events: bumped(v.counts.sniff_events), ..v.counts };
                let a = DaemonView { st: traced(v.st, ip), counts, ..v };
                lemma_agent_small(a, t, mac, ua, via);
                lemma_host_small(after_agent(a, t, mac, ua, via), dns, keep, t, mac, host, via);
            }
            assert(all_small(on_conn(v, dns, keep, t, ip, host, ua, via).st.devs));
        },
        EventView::Dhcp { mac, ip, host, vendor, opts } => {
            lemma_device_small(v.st, mac, t);
            let d = device_of(v.st, mac, t);
            let n = DeviceView {
                ipv4: if ip.len() > 0 && !contains(ip, ":"@) {
                    added(d.ipv4, ip)
                } else {
                    d.ipv4
                },
                dhcp_name: renewed(d.dhcp_name, host),
                dhcp_vendor: renewed(d.dhcp_vendor, vendor),
                dhcp_fp: renewed(d.dhcp_fp, opts),
                last_seen: t,
                ..d
            };
            lemma_put_small(v.st.devs, mac, n);
            assert(all_small(on_dhcp(v, t, mac, ip, host, vendor, opts).st.devs));
        },
        EventView::Mdns { ip, name, model, services } => {
            lemma_traced_small(v.st, ip);
            if let Some(mac) = owner(v.st.devs, ip) {
                let s = traced(v.st, ip);
                lemma_device_small(s, mac, t);
                let d = device_of(s, mac, t);
                law_services_are_bounded(d.mdns_services, services, services.len() as int);
                let n = DeviceView {
                    mdns_name: renewed(d.mdns_name, name),
                    mdns_model: renewed(d.mdns_model, model),
                    mdns_services: more_services(
                        d.mdns_services,
                        services,
                        services.len() as int,
                    ),
                    ..d
                };
                lemma_put_small(s.devs, mac, n);
            }
            assert(all_small(on_mdns(v, t, ip, name, model, services).st.devs));
        },
        EventView::Ssdp { ip, server } => {
            lemma_traced_small(v.st, ip);
            if let Some(mac) = owner(v.st.devs, ip) {
                let s = traced(v.st, ip);
                lemma_device_small(s, mac, t);
                let d = device_of(s, mac, t);
                lemma_put_small(s.devs, mac, d);
                lemma_put_small(s.devs, mac, DeviceView { upnp_server: server, ..d });
            }
            assert(all_small(on_ssdp(v, t, ip, server).st.devs));
        },
        EventView::SourceInfo { kind, state, info } => {},
    }
}

/// The name of a rule about names.
pub open spec fn dns_rule_id(r: Option<DnsRule>) -> Option<Seq<char>> {
    match r {
        Some(r) => Some(r.id@),
        None => None,
    }
}

/// The name of a rule about far ends.
pub open spec fn peer_rule_id(r: Option<PeerRule>) -> Option<Seq<char>> {
    match r {
        Some(r) => Some(r.id@),
        None => None,
    }
}

/// Of a name that a device asks for, the store learns no more than which rule it fits
/// and whether it is the name that was asked for just before: two names that do not
/// differ in this leave the same store.
pub proof fn law_store_learns_no_name(
    v: DaemonView,
    dns: Seq<DnsRule>,
    t: u64,
    ip: Seq<char>,
    a: Seq<char>,
    b: Seq<char>,
    qtype: Seq<char>,
    sport: u16,
)
    requires
        dns_rule_id(dns_match(dns, a, qtype)) == dns_rule_id(dns_match(dns, b, qtype)),
        owner(v.st.devs, ip) matches Some(mac) ==> (lookup(v.last, mac) matches Some(q) ==> (
        q.domain == a) == (q.domain == b)),
    ensures
        on_dns(v, dns, false, t, ip, a, qtype, sport).st == on_dns(
            v,
            dns,
            false,
            t,
            ip,
            b,
            qtype,
            sport,
        ).st,
{
    if let Some(mac) = owner(v.st.devs, ip) {
        let d = with_shape(device_of(traced(v.st, ip), mac, t), qtype, sport);
        assert(paired(d, lookup(v.last, mac), a, qtype, t) == paired(
            d,
            lookup(v.last, mac),
            b,
            qtype,
            t,
        ));
    }
}

/// Of a host that a device connects to, the store learns no more than which rule it
/// fits.
pub proof fn law_store_learns_no_host(
    v: DaemonView,
    dns: Seq<DnsRule>,
    t: u64,
    ip: Seq<char>,
    a: Seq<char>,
    b: Seq<char>,
    ua: Seq<char>,
    via: Seq<char>,
)
    requires
        a.len() > 0,
        b.len() > 0,
        dns_rule_id(dns_match(dns, a, Seq::empty())) == dns_rule_id(
            dns_match(dns, b, Seq::empty()),
        ),
    ensures
        on_conn(v, dns, false, t, ip, a, ua, via).st == on_conn(
            v,
            dns,
            false,
            t,
            ip,
            b,
            ua,
            via,
        ).st,
{
}

/// Of the far end of a connection, the store learns no more than which rule it fits,
/// even where names without a rule are kept.
pub proof fn law_store_learns_no_far_end(
    v: DaemonView,
    peers: Seq<PeerRule>,
    keep: bool,
    t: u64,
    ip: Seq<char>,
    proto: Seq<char>,
    port: u16,
    a: Seq<char>,
    b: Seq<char>,
)
    requires
        peer_rule_id(peer_match(peers, proto, port, a)) == peer_rule_id(
            peer_match(peers, proto, port, b),
        ),
    ensures
        on_peer(v, peers, keep, t, ip, proto, a, port).st == on_peer(
            v,
            peers,
            keep,
            t,
            ip,
            proto,
            b,
            port,
        ).st,
{
}

/// A probe that gets no greeting does not wipe out the greeting that was read before.
pub proof fn law_greeting_outlives_silence(
    v: DaemonView,
    t: u64,
    ip: Seq<char>,
    open: Seq<u16>,
    mac: Seq<char>,
)
    requires
        ordered(v.st.devs),
        owner(v.st.devs, ip) == Some(mac),
    ensures
        device_of(on_ports(v, t, ip, open, Seq::empty()).st, mac, t).banner == device_of(
            v.st,
            mac,
            t,
        ).banner,
{
    let s = traced(v.st, ip);
    if holder(v.st.devs, ip) is None && revealed(v.st.devs, ip) is Some {
        let m = revealed(v.st.devs, ip).unwrap();
        let d = lookup(v.st.devs, m).unwrap();
        law_put_then_lookup(v.st.devs, m, DeviceView { ipv6: d.ipv6.push(ip), ..d }, mac);
    }
    let d = device_of(s, mac, t);
    law_put_then_lookup(s.devs, mac, DeviceView { open_ports: open, banner: d.banner, ..d }, mac);
}

/// A probe goes to nobody but devices that are online.
pub proof fn law_targets_are_online(m: Entries<DeviceView>, n: int, i: int)
    requires
        n <= m.len(),
        0 <= i < targets(m, n).len(),
    ensures
        exists|j: int|
            0 <= j < n && (#[trigger] m[j]).1.online && m[j].1.ipv4.len() > 0 && m[j].1.ipv4[0]
                == targets(m, n)[i],
    decreases n,
{
    if n > 0 {
        if i < targets(m, n - 1).len() {
            law_targets_are_online(m, n - 1, i);
            let j = choose|j: int|
                0 <= j < n - 1 && (#[trigger] m[j]).1.online && m[j].1.ipv4.len() > 0
                    && m[j].1.ipv4[0] == targets(m, n - 1)[i];
            assert(m[j].1.online);
        } else {
            assert(m[n - 1].1.online);
        }
    }
}

/// Of each kind of source only the last state is kept: after a change, the one entry
/// of its kind is the new one.
pub proof fn law_one_state_per_source(
    v: DaemonView,
    kind: Seq<char>,
    state: Seq<char>,
    info: Seq<char>,
    i: int,
)
    requires
        0 <= i < on_source(v, kind, state, info).sources.len(),
        on_source(v, kind, state, info).sources[i].kind == kind,
    ensures
        i == on_source(v, kind, state, info).sources.len() - 1,
        on_source(v, kind, state, info).sources[i] == (SourceView { kind, state, info }),
{
    let p = |s: SourceView| s.kind != kind;
    let others = v.sources.filter(p);
    if i < others.len() {
        v.sources.lemma_filter_pred(p, i);
    }
}

/// A conclusion is announced once: after it was, there is no reason to announce the
/// same again.
pub proof fn law_announced_once(
    announced: Entries<Seq<char>>,
    mac: Seq<char>,
    confidence: u32,
    what: Seq<char>,
)
    requires
        ordered(announced),
    ensures
        reason(put(announced, mac, what), mac, confidence, what) is None,
{
    law_put_then_lookup(announced, mac, what, mac);
}

/// A device that was forgotten is not known any more, and no other is lost.
pub proof fn law_forgotten_is_gone(s: StoreView, mac: Seq<char>, other: Seq<char>)
    requires
        ordered(s.devs),
    ensures
        lookup(without(s.devs, mac), mac) is None,
        other != mac ==> lookup(without(s.devs, mac), other) == lookup(s.devs, other),
{
    law_without_then_lookup(s.devs, mac, other);
}

/// Whether a list of places is in the order in which devices are listed.
pub open spec fn in_order(l: Seq<usize>, m: Entries<DeviceView>) -> bool {
    forall|i: int, j: int|
        0 <= i < j < l.len() ==> !listed_before(
            m[(#[trigger] l[j]) as int].1,
            m[(#[trigger] l[i]) as int].1,
        )
}

proof fn lemma_placed_order(l: Seq<usize>, m: Entries<DeviceView>, i: usize)
    requires
        in_order(l, m),
    ensures
        in_order(placed(l, m, i), m),
        placed(l, m, i).to_multiset() == l.to_multiset().insert(i),
        forall|k: int|
            0 <= k < placed(l, m, i).len() ==> (#[trigger] placed(l, m, i)[k]) == i || l.contains(
                placed(l, m, i)[k],
            ),
    decreases l.len(),
{
    broadcast use vstd::seq_lib::group_to_multiset_ensures;

    let r = placed(l, m, i);
    if l.len() == 0 || !listed_before(m[i as int].1, m[l.last() as int].1) {
        assert forall|a: int, b: int| 0 <= a < b < r.len() implies !listed_before(
            m[(#[trigger] r[b]) as int].1,
            m[(#[trigger] r[a]) as int].1,
        ) by {
            if b == l.len() {
                if a < l.len() - 1 {
                    assert(!listed_before(m[l[l.len() - 1] as int].1, m[l[a] as int].1));
                }
            } else {
                assert(r[a] == l[a] && r[b] == l[b]);
            }
        }
        assert forall|k: int| 0 <= k < r.len() implies (#[trigger] r[k]) == i || l.contains(
            r[k],
        ) by {
            if k < l.len() {
                assert(l[k] == r[k]);
            }
        }
    } else {
        let front = l.drop_last();
        assert(in_order(front, m)) by {
            assert forall|a: int, b: int| 0 <= a < b < front.len() implies !listed_before(
                m[(#[trigger] front[b]) as int].1,
                m[(#[trigger] front[a]) as int].1,
            ) by {
                assert(front[a] == l[a] && front[b] == l[b]);
            }
        }
        lemma_placed_order(front, m, i);
        let f = placed(front, m, i);
        assert(front.push(l.last()) =~= l);
        assert(r.to_multiset() =~= l.to_multiset().insert(i));
        assert forall|k: int| 0 <= k < r.len() implies (#[trigger] r[k]) == i || l.contains(
            r[k],
        ) by {
            if k < f.len() {
                assert(f[k] == r[k]);
                if front.contains(f[k]) {
                    let q = choose|q: int| 0 <= q < front.len() && front[q] == f[k];
                    assert(l[q] == r[k]);
                }
            } else {
                assert(l[l.len() - 1] == r[k]);
            }
        }
        assert forall|a: int, b: int| 0 <= a < b < r.len() implies !listed_before(
            m[(#[trigger] r[b]) as int].1,
            m[(#[trigger] r[a]) as int].1,
        ) by {
            if b == f.len() {
                assert(r[a] == f[a]);
                if f[a] != i {
                    assert(front.contains(f[a]));
                    let q = choose|q: int| 0 <= q < front.len() && front[q] == f[a];
                    assert(!listed_before(m[l[l.len() - 1] as int].1, m[l[q] as int].1));
                }
            } else {
                assert(r[a] == f[a] && r[b] == f[b]);
            }
        }
    }
}

/// The listing is in order, and no device is lost or listed twice on the way.
pub proof fn law_listing_is_in_order(m: Entries<DeviceView>, n: int)
    requires
        0 <= n <= m.len() <= usize::MAX,
    ensures
        in_order(list_order(m, n), m),
        list_order(m, n).to_multiset() == Seq::new(n as nat, |i: int| i as usize).to_multiset(),
    decreases n,
{
    broadcast use vstd::seq_lib::group_to_multiset_ensures;

    let all = Seq::new(n as nat, |i: int| i as usize);
    if n > 0 {
        law_listing_is_in_order(m, n - 1);
        lemma_placed_order(list_order(m, n - 1), m, (n - 1) as usize);
        let fewer = Seq::new((n - 1) as nat, |i: int| i as usize);
        assert(fewer.push((n - 1) as usize) =~= all);
    } else {
        assert(list_order(m, n) =~= all);
    }
}

} // verus!
