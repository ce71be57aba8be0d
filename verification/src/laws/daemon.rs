//! What an event leaves behind, and what a command does.

use crate::clients::added;
use crate::daemon::{
    after_agent, after_host, after_query, bumped, command_in, due_at, hit_again, listed_before,
    more_services, noted, obeyed, on_event, on_peer, on_source, on_ssdp, on_tcp, paired, reason,
    remembered, sooner, targets, verdict, wound, Clock, CommandView, Counts, DaemonView, Due,
    QueryView, SourceView, Task, UNMATCHED_MAX,
};
use crate::event::EventView;
use crate::laws::text::{free_of, law_parting_at_the_first};
use crate::names::{
    law_put_then_lookup, law_without_then_lookup, lookup, lookup_or, ordered, put, without, Entries,
};
use crate::num::dec;
use crate::rules::{dns_match, peer_match, DnsRule, PeerRule};
use crate::store::{device_of, owner, traced, with_shape, DeviceView, Hit, StoreView};
use crate::text::contains;
use crate::util::mac_normal;
use vstd::prelude::*;

verus! {

/// A count that goes up by one, and starts over behind the last that fits.
pub open spec fn one_more(n: u32) -> u32 {
    if n == u32::MAX {
        0
    } else {
        (n + 1) as u32
    }
}

/// A count that goes up by one, and starts over behind the last that fits.
pub open spec fn one_more_event(n: u64) -> u64 {
    if n == u64::MAX {
        0
    } else {
        (n + 1) as u64
    }
}

/// Whether a map of hits has one more hit of a rule, at this time, and else is as it was.
pub open spec fn hit_once_more(m: Entries<Hit>, w: Entries<Hit>, id: Seq<char>, t: u64) -> bool {
    &&& lookup(w, id) == Some(
        Hit {
            n: match lookup(m, id) {
                Some(h) => one_more(h.n),
                None => 1,
            },
            last: t,
        },
    )
    &&& forall|k: Seq<char>| k != id ==> #[trigger] lookup(w, k) == lookup(m, k)
}

/// Whether a map of counts has one more of a name, and else is as it was.
pub open spec fn counted_once_more(m: Entries<u32>, w: Entries<u32>, name: Seq<char>) -> bool {
    &&& lookup(w, name) == Some(
        match lookup(m, name) {
            Some(n) => one_more(n),
            None => 1,
        },
    )
    &&& forall|k: Seq<char>| k != name ==> #[trigger] lookup(w, k) == lookup(m, k)
}

proof fn lemma_hit(m: Entries<Hit>, id: Seq<char>, t: u64)
    requires
        ordered(m),
    ensures
        hit_once_more(m, hit_again(m, id, t), id, t),
{
    let h = Hit {
        n: crate::store::wrapped(lookup_or(m, id, (Hit { n: 0, last: 0 })).n + 1),
        last: t,
    };
    law_put_then_lookup(m, id, h, id);
    assert forall|k: Seq<char>| k != id implies #[trigger] lookup(
        hit_again(m, id, t),
        k,
    ) == lookup(m, k) by {
        law_put_then_lookup(m, id, h, k);
    }
}

proof fn lemma_count(m: Entries<u32>, name: Seq<char>)
    requires
        ordered(m),
    ensures
        counted_once_more(
            m,
            put(m, name, crate::store::wrapped(lookup_or(m, name, 0u32) + 1)),
            name,
        ),
{
    let n = crate::store::wrapped(lookup_or(m, name, 0u32) + 1);
    law_put_then_lookup(m, name, n, name);
    assert forall|k: Seq<char>| k != name implies #[trigger] lookup(put(m, name, n), k) == lookup(
        m,
        k,
    ) by {
        law_put_then_lookup(m, name, n, k);
    }
}

/// Whether every device but one is as it was.
#[verifier::opaque]
pub open spec fn only_changes(a: StoreView, b: StoreView, mac: Seq<char>) -> bool {
    &&& b.path == a.path
    &&& forall|k: Seq<char>| k != mac ==> #[trigger] lookup(b.devs, k) == lookup(a.devs, k)
}

proof fn lemma_traced(s: StoreView, ip: Seq<char>)
    requires
        ordered(s.devs),
    ensures
        ordered(traced(s, ip).devs),
{
    if crate::store::revealed(s.devs, ip) is Some {
        let mac = crate::store::revealed(s.devs, ip).unwrap();
        let d = lookup(s.devs, mac).unwrap();
        law_put_then_lookup(s.devs, mac, (DeviceView { ipv6: d.ipv6.push(ip), ..d }), mac);
    }
}

proof fn lemma_with(s: StoreView, mac: Seq<char>, d: DeviceView)
    requires
        ordered(s.devs),
    ensures
        lookup(put(s.devs, mac, d), mac) == Some(d),
        forall|b: StoreView|
            b.devs == put(s.devs, mac, d) && b.path == s.path ==> #[trigger] only_changes(
                s,
                b,
                mac,
            ),
        forall|b: StoreView|
            b.devs == s.devs && b.path == s.path ==> #[trigger] only_changes(s, b, mac),
        ordered(put(s.devs, mac, d)),
{
    reveal(only_changes);
    law_put_then_lookup(s.devs, mac, d, mac);
    assert forall|k: Seq<char>| k != mac implies #[trigger] lookup(put(s.devs, mac, d), k)
        == lookup(s.devs, k) by {
        law_put_then_lookup(s.devs, mac, d, k);
    }
}

proof fn lemma_changes_twice(a: StoreView, b: StoreView, c: StoreView, mac: Seq<char>)
    requires
        only_changes(a, b, mac),
        only_changes(b, c, mac),
    ensures
        only_changes(a, c, mac),
{
    reveal(only_changes);
    assert forall|k: Seq<char>| k != mac implies #[trigger] lookup(c.devs, k) == lookup(
        a.devs,
        k,
    ) by {
        assert(lookup(b.devs, k) == lookup(a.devs, k));
    }
}

/// Whether the store is to be written at a time or before.
pub open spec fn saved_by(v: DaemonView, at: int) -> bool {
    v.save_at matches Some(s) && s <= at
}

/// Whether a device has counted a query: for its query type, its source port and the rule it
/// falls under, or where that is wanted and there is room for the name; and else is as it was,
/// but for its pairs of queries.
#[verifier::opaque]
pub open spec fn query_counted(
    d: DeviceView,
    e: DeviceView,
    found: Option<DnsRule>,
    keep: bool,
    domain: Seq<char>,
    qtype: Seq<char>,
    sport: u16,
    t: u64,
) -> bool {
    &&& qtype.len() > 0 ==> counted_once_more(d.qtypes, e.qtypes, qtype)
    &&& qtype.len() == 0 ==> e.qtypes == d.qtypes
    &&& sport == 0 ==> e.dns_ports == d.dns_ports
    &&& sport != 0 && d.dns_ports.len() < 16 ==> e.dns_ports == d.dns_ports.push(sport)
    &&& sport != 0 && d.dns_ports.len() == 16 ==> e.dns_ports == d.dns_ports.skip(1).push(sport)
    &&& match found {
        Some(r) => hit_once_more(d.dns_hits, e.dns_hits, r.id@, t) && e.unmatched == d.unmatched,
        None => e.dns_hits == d.dns_hits && if keep && d.unmatched.len() < 50 {
            counted_once_more(d.unmatched, e.unmatched, domain)
        } else {
            e.unmatched == d.unmatched
        },
    }
    &&& d == (DeviceView {
        qtypes: d.qtypes,
        dns_ports: d.dns_ports,
        dns_hits: d.dns_hits,
        unmatched: d.unmatched,
        dns_pair_a4: d.dns_pair_a4,
        dns_pair_https: d.dns_pair_https,
        ..e
    })
}

spec fn queried(
    d: DeviceView,
    last: Option<QueryView>,
    found: Option<DnsRule>,
    keep: bool,
    domain: Seq<char>,
    qtype: Seq<char>,
    sport: u16,
    t: u64,
) -> DeviceView {
    let p = paired(with_shape(d, qtype, sport), last, domain, qtype, t);
    match found {
        Some(r) => DeviceView { dns_hits: hit_again(p.dns_hits, r.id@, t), ..p },
        None => if keep && p.unmatched.len() < UNMATCHED_MAX {
            noted(p, domain)
        } else {
            p
        },
    }
}

proof fn lemma_queried(
    d: DeviceView,
    last: Option<QueryView>,
    found: Option<DnsRule>,
    keep: bool,
    domain: Seq<char>,
    qtype: Seq<char>,
    sport: u16,
    t: u64,
)
    requires
        ordered(d.dns_hits),
        ordered(d.qtypes),
        ordered(d.unmatched),
    ensures
        query_counted(
            d,
            queried(d, last, found, keep, domain, qtype, sport, t),
            found,
            keep,
            domain,
            qtype,
            sport,
            t,
        ),
{
    reveal(query_counted);
    lemma_count(d.qtypes, qtype);
    lemma_count(d.unmatched, domain);
    if d.dns_ports.len() == 16 {
        assert(d.dns_ports.push(sport).skip(1) =~= d.dns_ports.skip(1).push(sport));
    }
    if found is Some {
        lemma_hit(d.dns_hits, found.unwrap().id@, t);
    }
}

proof fn lemma_after_query(
    v: DaemonView,
    rs: Seq<DnsRule>,
    keep: bool,
    t: u64,
    mac: Seq<char>,
    domain: Seq<char>,
    qtype: Seq<char>,
    sport: u16,
    found: Option<DnsRule>,
)
    requires
        found == dns_match(rs, domain, qtype),
        t < u64::MAX - 120,
    ensures
        ({
            let w = after_query(v, rs, keep, t, mac, domain, qtype, sport);
            let d = device_of(v.st, mac, t);
            &&& w.st.devs == put(
                v.st.devs,
                mac,
                queried(d, lookup(v.last, mac), found, keep, domain, qtype, sport, t),
            )
            &&& w.st.dirty && w.st.path == v.st.path
            &&& w.counts.dns_events == v.counts.dns_events
            &&& w.counts.dns_noowner == v.counts.dns_noowner
            &&& w.counts.dns_matched == if found is Some {
                one_more_event(v.counts.dns_matched)
            } else {
                v.counts.dns_matched
            }
            &&& found is Some ==> saved_by(w, t + 30)
            &&& saved_by(w, t + 120)
            &&& w.sources == v.sources && w.announced == v.announced
            &&& w.last == remembered(v.last, mac, (QueryView { domain, qtype, at: t }))
        }),
{
}

/// A query of a known device counts for it, and for no other device.
#[verifier::rlimit(40)]
pub proof fn law_query_counts(
    v: DaemonView,
    dns: Seq<DnsRule>,
    peers: Seq<PeerRule>,
    keep: bool,
    t: u64,
    ip: Seq<char>,
    domain: Seq<char>,
    qtype: Seq<char>,
    sport: u16,
    mac: Seq<char>,
)
    requires
        ordered(v.st.devs),
        owner(v.st.devs, ip) == Some(mac),
        t < u64::MAX - 120,
        ({
            let d = device_of(traced(v.st, ip), mac, t);
            ordered(d.dns_hits) && ordered(d.qtypes) && ordered(d.unmatched)
        }),
    ensures
        ({
            let w = on_event(v, EventView::Dns { ip, domain, qtype, sport }, dns, peers, keep, t);
            &&& lookup(w.st.devs, mac) matches Some(e) && query_counted(
                device_of(traced(v.st, ip), mac, t),
                e,
                dns_match(dns, domain, qtype),
                keep,
                domain,
                qtype,
                sport,
                t,
            )
            &&& w.st.dirty && only_changes(traced(v.st, ip), w.st, mac)
            &&& w.counts.dns_events == one_more_event(v.counts.dns_events)
            &&& w.counts.dns_noowner == v.counts.dns_noowner
            &&& w.counts.dns_matched == if dns_match(dns, domain, qtype) is Some {
                one_more_event(v.counts.dns_matched)
            } else {
                v.counts.dns_matched
            }
            &&& dns_match(dns, domain, qtype) is Some ==> saved_by(w, t + 30)
            &&& saved_by(w, t + 120)
            &&& v.sources == w.sources && v.announced == w.announced
            &&& w.last == remembered(v.last, mac, (QueryView { domain, qtype, at: t }))
        }),
{
    let found = dns_match(dns, domain, qtype);
    let a = traced(v.st, ip);
    let d = device_of(a, mac, t);
    let counts = Counts { dns_events: bumped(v.counts.dns_events), ..v.counts };
    let u = DaemonView { st: a, counts, ..v };
    lemma_traced(v.st, ip);
    lemma_queried(d, lookup(v.last, mac), found, keep, domain, qtype, sport, t);
    lemma_after_query(u, dns, keep, t, mac, domain, qtype, sport, found);
    let e = queried(d, lookup(v.last, mac), found, keep, domain, qtype, sport, t);
    lemma_with(a, mac, e);
    let w = after_query(u, dns, keep, t, mac, domain, qtype, sport);
    assert(on_event(v, EventView::Dns { ip, domain, qtype, sport }, dns, peers, keep, t) == w);
    assert(lookup(w.st.devs, mac) == Some(e));
}

/// A query from an address that belongs to no device is counted as such, and leaves nothing
/// else behind.
pub proof fn law_stray_query_is_only_counted(
    v: DaemonView,
    dns: Seq<DnsRule>,
    peers: Seq<PeerRule>,
    keep: bool,
    t: u64,
    ip: Seq<char>,
    domain: Seq<char>,
    qtype: Seq<char>,
    sport: u16,
)
    requires
        owner(v.st.devs, ip) is None,
    ensures
        ({
            let w = on_event(v, EventView::Dns { ip, domain, qtype, sport }, dns, peers, keep, t);
            &&& w.st == v.st && w.last == v.last && w.save_at == v.save_at
            &&& w.sources == v.sources && w.announced == v.announced
            &&& w.counts.dns_events == one_more_event(v.counts.dns_events)
            &&& w.counts.dns_noowner == one_more_event(v.counts.dns_noowner)
            &&& w.counts.dns_matched == v.counts.dns_matched
            &&& w.counts.sniff_events == v.counts.sniff_events
        }),
{
}

/// Two queries of a device for one name within two seconds are a pair if they ask for both
/// sorts of addresses, or for an address and how to connect; which of the two came first does
/// not matter. Any other two queries are none.
pub proof fn law_pairs_are_counted(
    d: DeviceView,
    last: QueryView,
    domain: Seq<char>,
    qtype: Seq<char>,
    t: u64,
)
    ensures
        ({
            let p = paired(d, Some(last), domain, qtype, t);
            let near = last.domain == domain && (t <= last.at || t - last.at <= 2);
            let a4 = last.qtype == "A"@ && qtype == "AAAA"@ || last.qtype == "AAAA"@ && qtype
                == "A"@;
            let https = last.qtype == "A"@ && (qtype == "HTTPS"@ || qtype == "SVCB"@)
                || qtype == "A"@ && (last.qtype == "HTTPS"@ || last.qtype == "SVCB"@);
            &&& near && a4 ==> p == (DeviceView { dns_pair_a4: one_more(d.dns_pair_a4), ..d })
            &&& near && https ==> p == (DeviceView {
                dns_pair_https: one_more(d.dns_pair_https),
                ..d
            })
            &&& !near || !(a4 || https) ==> p == d
            &&& paired(d, None, domain, qtype, t) == d
        }),
{
    reveal_strlit("A");
    reveal_strlit("AAAA");
    reveal_strlit("HTTPS");
    reveal_strlit("SVCB");
    assert("A"@.len() == 1 && "AAAA"@.len() == 4 && "HTTPS"@.len() == 5 && "SVCB"@.len() == 4);
    assert("AAAA"@[0] != "SVCB"@[0]);
}

/// The last query of a device is remembered; of too many devices all others are forgotten.
pub proof fn law_last_query_is_remembered(
    last: Entries<QueryView>,
    mac: Seq<char>,
    q: QueryView,
    k: Seq<char>,
)
    requires
        ordered(last),
    ensures
        lookup(remembered(last, mac, q), mac) == Some(q),
        last.len() <= 512 && k != mac ==> lookup(remembered(last, mac, q), k) == lookup(last, k),
{
    law_put_then_lookup(last, mac, q, k);
    law_put_then_lookup(last, mac, q, mac);
    law_put_then_lookup(Seq::<(Seq<char>, QueryView)>::empty(), mac, q, mac);
}

/// The result of a probe replaces the open ports, and the greeting where there was one.
#[verifier::rlimit(40)]
pub proof fn law_probe_is_noted(
    v: DaemonView,
    dns: Seq<DnsRule>,
    peers: Seq<PeerRule>,
    keep: bool,
    t: u64,
    ip: Seq<char>,
    open: Seq<u16>,
    banner: Seq<char>,
    mac: Seq<char>,
)
    requires
        ordered(v.st.devs),
        t < u64::MAX - 120,
    ensures
        ({
            let d = device_of(traced(v.st, ip), mac, t);
            let w = on_event(v, EventView::Ports { ip, open, banner }, dns, peers, keep, t);
            &&& owner(v.st.devs, ip) == Some(mac) ==> lookup(w.st.devs, mac) == Some(
                DeviceView {
                    open_ports: open,
                    banner: if banner.len() > 0 {
                        banner
                    } else {
                        d.banner
                    },
                    ..d
                },
            ) && only_changes(traced(v.st, ip), w.st, mac) && w.st.dirty && saved_by(w, t + 10)
            &&& owner(v.st.devs, ip) is None ==> w == v
        }),
{
    lemma_traced(v.st, ip);
    let a = traced(v.st, ip);
    let d = device_of(a, mac, t);
    lemma_with(
        a,
        mac,
        DeviceView {
            open_ports: open,
            banner: if banner.len() > 0 {
                banner
            } else {
                d.banner
            },
            ..d
        },
    );
}

/// Whether a device has counted a long connection: for the rule that its far end falls under,
/// or where that is wanted and there is room for its protocol and port; and else is as it was.
pub open spec fn far_end_counted(
    d: DeviceView,
    e: DeviceView,
    found: Option<PeerRule>,
    keep: bool,
    proto: Seq<char>,
    port: u16,
    t: u64,
) -> bool {
    &&& match found {
        Some(r) => hit_once_more(d.peer_hits, e.peer_hits, r.id@, t) && e.unmatched == d.unmatched,
        None => e.peer_hits == d.peer_hits && if keep && d.unmatched.len() < 50 {
            counted_once_more(d.unmatched, e.unmatched, proto + seq!['/'] + dec(port as nat))
        } else {
            e.unmatched == d.unmatched
        },
    }
    &&& d == (DeviceView { peer_hits: d.peer_hits, unmatched: d.unmatched, ..e })
}

proof fn lemma_on_peer(
    v: DaemonView,
    rs: Seq<PeerRule>,
    keep: bool,
    t: u64,
    ip: Seq<char>,
    proto: Seq<char>,
    remote: Seq<char>,
    port: u16,
    mac: Seq<char>,
    found: Option<PeerRule>,
) -> (e: DeviceView)
    requires
        found == peer_match(rs, proto, port, remote),
        t < u64::MAX - 120,
        owner(v.st.devs, ip) == Some(mac),
        ({
            let d = device_of(traced(v.st, ip), mac, t);
            ordered(d.peer_hits) && ordered(d.unmatched)
        }),
    ensures
        ({
            let w = on_peer(v, rs, keep, t, ip, proto, remote, port);
            let a = traced(v.st, ip);
            let d = device_of(a, mac, t);
            &&& far_end_counted(d, e, found, keep, proto, port, t)
            &&& w.st.devs == if found is None && !keep {
                a.devs
            } else {
                put(a.devs, mac, e)
            }
            &&& found is None && !keep ==> e == d && w.st == a
            &&& w.st.path == a.path
            &&& w.counts == v.counts && w.sources == v.sources && w.announced == v.announced
            &&& w.last == v.last
            &&& found is Some ==> saved_by(w, t + 30) && w.st.dirty
            &&& found is None && keep && d.unmatched.len() < 50 ==> saved_by(w, t + 60)
        }),
{
    let d = device_of(traced(v.st, ip), mac, t);
    let name = proto + seq!['/'] + dec(port as nat);
    lemma_count(d.unmatched, name);
    if found is Some {
        lemma_hit(d.peer_hits, found.unwrap().id@, t);
        DeviceView { peer_hits: hit_again(d.peer_hits, found.unwrap().id@, t), ..d }
    } else if keep {
        noted(d, name)
    } else {
        d
    }
}

/// A long connection of a known device counts for it, and for no other device.
#[verifier::rlimit(40)]
pub proof fn law_far_end_counts(
    v: DaemonView,
    dns: Seq<DnsRule>,
    peers: Seq<PeerRule>,
    keep: bool,
    t: u64,
    ip: Seq<char>,
    proto: Seq<char>,
    remote: Seq<char>,
    port: u16,
    mac: Seq<char>,
)
    requires
        ordered(v.st.devs),
        owner(v.st.devs, ip) == Some(mac),
        t < u64::MAX - 120,
        ({
            let d = device_of(traced(v.st, ip), mac, t);
            ordered(d.peer_hits) && ordered(d.unmatched)
        }),
    ensures
        ({
            let d = device_of(traced(v.st, ip), mac, t);
            let w = on_event(v, EventView::Peer { ip, proto, remote, port }, dns, peers, keep, t);
            let found = peer_match(peers, proto, port, remote);
            &&& far_end_counted(d, device_of(w.st, mac, t), found, keep, proto, port, t)
            &&& only_changes(traced(v.st, ip), w.st, mac)
            &&& found is None && !keep ==> w.st == traced(v.st, ip)
            &&& found is Some ==> lookup(w.st.devs, mac) is Some && saved_by(w, t + 30)
            &&& found is None && keep && d.unmatched.len() < 50 ==> lookup(w.st.devs, mac) is Some
                && saved_by(w, t + 60)
            &&& w.counts == v.counts && w.sources == v.sources && w.announced == v.announced
        }),
{
    let found = peer_match(peers, proto, port, remote);
    let a = traced(v.st, ip);
    lemma_traced(v.st, ip);
    let e = lemma_on_peer(v, peers, keep, t, ip, proto, remote, port, mac, found);
    lemma_with(a, mac, e);
}

/// The fingerprint of a connection is noted with the device.
#[verifier::rlimit(40)]
pub proof fn law_fingerprint_is_noted(
    v: DaemonView,
    dns: Seq<DnsRule>,
    peers: Seq<PeerRule>,
    keep: bool,
    t: u64,
    ip: Seq<char>,
    what: Seq<char>,
    mac: Seq<char>,
)
    requires
        ordered(v.st.devs),
        t < u64::MAX - 120,
    ensures
        ({
            let d = device_of(traced(v.st, ip), mac, t);
            let w = on_event(v, EventView::TcpFp { ip, fp: what }, dns, peers, keep, t);
            &&& owner(v.st.devs, ip) == Some(mac) ==> lookup(w.st.devs, mac) == Some(
                DeviceView { tcp_fp: what, ..d },
            ) && only_changes(traced(v.st, ip), w.st, mac) && (d.tcp_fp != what ==> saved_by(
                w,
                t + 20,
            ) && w.st.dirty)
            &&& owner(v.st.devs, ip) is None ==> w == v
        }),
{
    lemma_traced(v.st, ip);
    let a = traced(v.st, ip);
    let d = device_of(a, mac, t);
    let e = DeviceView { tcp_fp: what, ..d };
    lemma_with(a, mac, e);
    if owner(v.st.devs, ip) == Some(mac) {
        let w = on_tcp(v, t, ip, what);
        assert(w.st.devs == put(a.devs, mac, e)) by {
            if d.tcp_fp == what {
                assert(e == d);
            }
        }
    }
}

/// The server that a device tells is noted with it.
#[verifier::rlimit(40)]
pub proof fn law_server_is_noted(
    v: DaemonView,
    dns: Seq<DnsRule>,
    peers: Seq<PeerRule>,
    keep: bool,
    t: u64,
    ip: Seq<char>,
    what: Seq<char>,
    mac: Seq<char>,
)
    requires
        ordered(v.st.devs),
        t < u64::MAX - 120,
    ensures
        ({
            let d = device_of(traced(v.st, ip), mac, t);
            let w = on_event(v, EventView::Ssdp { ip, server: what }, dns, peers, keep, t);
            &&& owner(v.st.devs, ip) == Some(mac) ==> lookup(w.st.devs, mac) == Some(
                DeviceView { upnp_server: what, ..d },
            ) && only_changes(traced(v.st, ip), w.st, mac) && (d.upnp_server != what ==> saved_by(
                w,
                t + 20,
            ) && w.st.dirty)
            &&& owner(v.st.devs, ip) is None ==> w == v
        }),
{
    lemma_traced(v.st, ip);
    let a = traced(v.st, ip);
    let d = device_of(a, mac, t);
    let e = DeviceView { upnp_server: what, ..d };
    lemma_with(a, mac, e);
    if owner(v.st.devs, ip) == Some(mac) {
        let w = on_ssdp(v, t, ip, what);
        assert(w.st.devs == put(a.devs, mac, e)) by {
            if d.upnp_server == what {
                assert(e == d);
            }
        }
    }
}

/// Whether a device has taken note of a connection: of the name it gives a broker, or its
/// agent; of the host it connects to, for the rule that the host falls under, whatever was
/// asked for, or where that is wanted and there is room for it, under how it was seen; and
/// else is as it was.
pub open spec fn connection_counted(
    d: DeviceView,
    e: DeviceView,
    found: Option<DnsRule>,
    keep: bool,
    host: Seq<char>,
    ua: Seq<char>,
    via: Seq<char>,
    t: u64,
) -> bool {
    &&& e.mqtt_id == if ua.len() > 0 && via == "mqtt"@ {
        ua
    } else {
        d.mqtt_id
    }
    &&& e.http_ua == if ua.len() > 0 && via != "mqtt"@ {
        ua
    } else {
        d.http_ua
    }
    &&& if host.len() == 0 {
        e.sni_hits == d.sni_hits && e.unmatched == d.unmatched
    } else {
        match found {
            Some(r) => hit_once_more(d.sni_hits, e.sni_hits, r.id@, t) && e.unmatched
                == d.unmatched,
            None => e.sni_hits == d.sni_hits && if keep && d.unmatched.len() < 50 {
                counted_once_more(d.unmatched, e.unmatched, via + seq![':'] + host)
            } else {
                e.unmatched == d.unmatched
            },
        }
    }
    &&& d == (DeviceView {
        mqtt_id: d.mqtt_id,
        http_ua: d.http_ua,
        sni_hits: d.sni_hits,
        unmatched: d.unmatched,
        ..e
    })
}

spec fn with_agent(d: DeviceView, ua: Seq<char>, via: Seq<char>) -> DeviceView {
    if ua.len() == 0 {
        d
    } else if via == "mqtt"@ {
        DeviceView { mqtt_id: ua, ..d }
    } else {
        DeviceView { http_ua: ua, ..d }
    }
}

spec fn with_host(
    b: DeviceView,
    found: Option<DnsRule>,
    keep: bool,
    host: Seq<char>,
    via: Seq<char>,
    t: u64,
) -> DeviceView {
    if host.len() == 0 {
        b
    } else {
        match found {
            Some(r) => DeviceView { sni_hits: hit_again(b.sni_hits, r.id@, t), ..b },
            None => if keep {
                noted(b, via + seq![':'] + host)
            } else {
                b
            },
        }
    }
}

proof fn lemma_connected(
    d: DeviceView,
    found: Option<DnsRule>,
    keep: bool,
    host: Seq<char>,
    ua: Seq<char>,
    via: Seq<char>,
    t: u64,
)
    requires
        ordered(d.sni_hits),
        ordered(d.unmatched),
    ensures
        connection_counted(
            d,
            with_host(with_agent(d, ua, via), found, keep, host, via, t),
            found,
            keep,
            host,
            ua,
            via,
            t,
        ),
{
    lemma_count(d.unmatched, via + seq![':'] + host);
    if found is Some {
        lemma_hit(d.sni_hits, found.unwrap().id@, t);
    }
}

proof fn lemma_after_agent(
    v: DaemonView,
    t: u64,
    mac: Seq<char>,
    ua: Seq<char>,
    via: Seq<char>,
)
    requires
        ordered(v.st.devs),
        lookup(v.st.devs, mac) is Some,
    ensures
        ({
            let w = after_agent(v, t, mac, ua, via);
            let b = with_agent(device_of(v.st, mac, t), ua, via);
            &&& lookup(w.st.devs, mac) == Some(b)
            &&& only_changes(v.st, w.st, mac)
            &&& ordered(w.st.devs)
            &&& w.counts == v.counts && w.sources == v.sources && w.announced == v.announced
            &&& w.last == v.last
        }),
{
    lemma_with(v.st, mac, with_agent(device_of(v.st, mac, t), ua, via));
    lemma_with(v.st, mac, device_of(v.st, mac, t));
}

proof fn lemma_after_host(
    v: DaemonView,
    rs: Seq<DnsRule>,
    keep: bool,
    t: u64,
    mac: Seq<char>,
    host: Seq<char>,
    via: Seq<char>,
    found: Option<DnsRule>,
    b: DeviceView,
)
    requires
        ordered(v.st.devs),
        lookup(v.st.devs, mac) == Some(b),
        found == dns_match(rs, host, Seq::empty()),
        t < u64::MAX - 120,
    ensures
        ({
            let w = after_host(v, rs, keep, t, mac, host, via);
            &&& lookup(w.st.devs, mac) == Some(with_host(b, found, keep, host, via, t))
            &&& only_changes(v.st, w.st, mac)
            &&& w.counts.sniff_events == v.counts.sniff_events
            &&& w.counts.sniff_noowner == v.counts.sniff_noowner
            &&& w.counts.sniff_matched == if host.len() > 0 && found is Some {
                one_more_event(v.counts.sniff_matched)
            } else {
                v.counts.sniff_matched
            }
            &&& host.len() > 0 && found is Some ==> saved_by(w, t + 30)
            &&& w.sources == v.sources && w.announced == v.announced && w.last == v.last
        }),
{
    lemma_with(v.st, mac, with_host(b, found, keep, host, via, t));
}

/// A connection of a known device counts for it, and for no other device.
#[verifier::rlimit(40)]
pub proof fn law_connection_counts(
    v: DaemonView,
    dns: Seq<DnsRule>,
    peers: Seq<PeerRule>,
    keep: bool,
    t: u64,
    ip: Seq<char>,
    host: Seq<char>,
    ua: Seq<char>,
    via: Seq<char>,
    mac: Seq<char>,
)
    requires
        ordered(v.st.devs),
        owner(v.st.devs, ip) == Some(mac),
        lookup(traced(v.st, ip).devs, mac) is Some,
        mac.len() > 0,
        t < u64::MAX - 120,
        ({
            let d = device_of(traced(v.st, ip), mac, t);
            ordered(d.sni_hits) && ordered(d.unmatched)
        }),
    ensures
        ({
            let w = on_event(v, EventView::Conn { ip, host, ua, via }, dns, peers, keep, t);
            let found = dns_match(dns, host, Seq::empty());
            &&& lookup(w.st.devs, mac) matches Some(e) && connection_counted(
                device_of(traced(v.st, ip), mac, t),
                e,
                found,
                keep,
                host,
                ua,
                via,
                t,
            )
            &&& only_changes(traced(v.st, ip), w.st, mac)
            &&& w.counts.sniff_events == one_more_event(v.counts.sniff_events)
            &&& w.counts.sniff_noowner == v.counts.sniff_noowner
            &&& w.counts.sniff_matched == if host.len() > 0 && found is Some {
                one_more_event(v.counts.sniff_matched)
            } else {
                v.counts.sniff_matched
            }
            &&& host.len() > 0 && found is Some ==> saved_by(w, t + 30)
            &&& w.sources == v.sources && w.announced == v.announced && w.last == v.last
        }),
{
    let found = dns_match(dns, host, Seq::empty());
    let a = traced(v.st, ip);
    let d = device_of(a, mac, t);
    let counts = Counts { sniff_events: bumped(v.counts.sniff_events), ..v.counts };
    let u = DaemonView { st: a, counts, ..v };
    lemma_traced(v.st, ip);
    lemma_connected(d, found, keep, host, ua, via, t);
    lemma_after_agent(u, t, mac, ua, via);
    let x = after_agent(u, t, mac, ua, via);
    lemma_after_host(x, dns, keep, t, mac, host, via, found, with_agent(d, ua, via));
    lemma_changes_twice(a, x.st, after_host(x, dns, keep, t, mac, host, via).st, mac);
}

/// A connection from an address that belongs to no device is counted as such, and leaves
/// nothing else behind.
pub proof fn law_stray_connection_is_only_counted(
    v: DaemonView,
    dns: Seq<DnsRule>,
    peers: Seq<PeerRule>,
    keep: bool,
    t: u64,
    ip: Seq<char>,
    host: Seq<char>,
    ua: Seq<char>,
    via: Seq<char>,
)
    requires
        owner(v.st.devs, ip) is None,
    ensures
        ({
            let w = on_event(v, EventView::Conn { ip, host, ua, via }, dns, peers, keep, t);
            &&& w.st == v.st && w.last == v.last && w.save_at == v.save_at
            &&& w.sources == v.sources && w.announced == v.announced
            &&& w.counts.sniff_events == one_more_event(v.counts.sniff_events)
            &&& w.counts.sniff_noowner == one_more_event(v.counts.sniff_noowner)
            &&& w.counts.sniff_matched == v.counts.sniff_matched
            &&& w.counts.dns_events == v.counts.dns_events
        }),
{
}

/// A DHCP request tells the address, the name, the vendor class and the parameter list of a
/// device, which was seen just then; what it does not tell stays as it was.
#[verifier::rlimit(40)]
pub proof fn law_request_is_noted(
    v: DaemonView,
    dns: Seq<DnsRule>,
    peers: Seq<PeerRule>,
    keep: bool,
    t: u64,
    mac: Seq<char>,
    ip: Seq<char>,
    host: Seq<char>,
    vendor: Seq<char>,
    opts: Seq<char>,
)
    requires
        ordered(v.st.devs),
        t < u64::MAX - 120,
    ensures
        ({
            let d = device_of(v.st, mac, t);
            let w = on_event(
                v,
                EventView::Dhcp { mac, ip, host, vendor, opts },
                dns,
                peers,
                keep,
                t,
            );
            let e = lookup(w.st.devs, mac).unwrap();
            &&& lookup(w.st.devs, mac) is Some && w.st.dirty
            &&& only_changes(v.st, w.st, mac)
            &&& e.last_seen == t
            &&& ip.len() > 0 && !contains(ip, ":"@) ==> e.ipv4.contains(ip)
            &&& ip.len() == 0 || contains(ip, ":"@) || d.ipv4.contains(ip) ==> e.ipv4 == d.ipv4
            &&& ip.len() > 0 && !contains(ip, ":"@) && !d.ipv4.contains(ip) ==> e.ipv4
                == d.ipv4.push(ip)
            &&& host.len() > 0 ==> e.dhcp_name == host
            &&& host.len() == 0 ==> e.dhcp_name == d.dhcp_name
            &&& vendor.len() > 0 ==> e.dhcp_vendor == vendor
            &&& vendor.len() == 0 ==> e.dhcp_vendor == d.dhcp_vendor
            &&& opts.len() > 0 ==> e.dhcp_fp == opts
            &&& opts.len() == 0 ==> e.dhcp_fp == d.dhcp_fp
            &&& e == (DeviceView {
                ipv4: e.ipv4,
                dhcp_name: e.dhcp_name,
                dhcp_vendor: e.dhcp_vendor,
                dhcp_fp: e.dhcp_fp,
                last_seen: t,
                ..d
            })
            &&& saved_by(w, t + 20)
        }),
{
    let d = device_of(v.st, mac, t);
    let list = if ip.len() > 0 && !contains(ip, ":"@) {
        added(d.ipv4, ip)
    } else {
        d.ipv4
    };
    if !d.ipv4.contains(ip) {
        assert(d.ipv4.push(ip).last() == ip);
    }
    lemma_with(
        v.st,
        mac,
        DeviceView {
            ipv4: list,
            dhcp_name: crate::daemon::renewed(d.dhcp_name, host),
            dhcp_vendor: crate::daemon::renewed(d.dhcp_vendor, vendor),
            dhcp_fp: crate::daemon::renewed(d.dhcp_fp, opts),
            last_seen: t,
            ..d
        },
    );
}

proof fn lemma_more_services(v: Seq<Seq<char>>, more: Seq<Seq<char>>, n: int)
    requires
        0 <= n <= more.len(),
    ensures
        more_services(v, more, n).len() >= v.len(),
        more_services(v, more, n).len() <= v.len() + n,
        more_services(v, more, n).take(v.len() as int) == v,
        v.len() <= 24 ==> more_services(v, more, n).len() <= 24,
        more_services(v, more, n).len() < 24 ==> forall|i: int|
            0 <= i < n ==> more_services(v, more, n).contains(#[trigger] more[i]),
        forall|i: int|
            v.len() <= i < more_services(v, more, n).len() ==> more.contains(
                #[trigger] more_services(v, more, n)[i],
            ),
        v.no_duplicates() ==> more_services(v, more, n).no_duplicates(),
    decreases n,
{
    if n > 0 {
        lemma_more_services(v, more, n - 1);
        let a = more_services(v, more, n - 1);
        let b = more_services(v, more, n);
        let x = more[n - 1];
        if b != a {
            assert(b == a.push(x));
            assert(b.take(v.len() as int) =~= a.take(v.len() as int));
            assert(b.last() == x);
            assert forall|i: int| v.len() <= i < b.len() implies more.contains(
                #[trigger] b[i],
            ) by {
                if i < a.len() {
                    assert(b[i] == a[i]);
                }
            }
            if b.len() < 24 {
                assert forall|i: int| 0 <= i < n implies b.contains(#[trigger] more[i]) by {
                    if i < n - 1 {
                        let k = choose|k: int| 0 <= k < a.len() && a[k] == more[i];
                        assert(b[k] == more[i]);
                    }
                }
            }
        }
    } else {
        assert(v.take(v.len() as int) =~= v);
    }
}

/// An announcement renews the name and the model that it tells, and adds the services that
/// were not known, up to 24.
#[verifier::rlimit(40)]
pub proof fn law_announcement_is_noted(
    v: DaemonView,
    dns: Seq<DnsRule>,
    peers: Seq<PeerRule>,
    keep: bool,
    t: u64,
    ip: Seq<char>,
    name: Seq<char>,
    model: Seq<char>,
    services: Seq<Seq<char>>,
    mac: Seq<char>,
)
    requires
        ordered(v.st.devs),
        t < u64::MAX - 120,
    ensures
        ({
            let d = device_of(traced(v.st, ip), mac, t);
            let w = on_event(v, EventView::Mdns { ip, name, model, services }, dns, peers, keep, t);
            let e = lookup(w.st.devs, mac).unwrap();
            &&& owner(v.st.devs, ip) is None ==> w == v
            &&& owner(v.st.devs, ip) == Some(mac) ==> {
                &&& lookup(w.st.devs, mac) is Some
                &&& only_changes(traced(v.st, ip), w.st, mac)
                &&& name.len() > 0 ==> e.mdns_name == name
                &&& name.len() == 0 ==> e.mdns_name == d.mdns_name
                &&& model.len() > 0 ==> e.mdns_model == model
                &&& model.len() == 0 ==> e.mdns_model == d.mdns_model
                &&& e.mdns_services.len() >= d.mdns_services.len()
                &&& e.mdns_services.take(d.mdns_services.len() as int) == d.mdns_services
                &&& d.mdns_services.len() <= 24 ==> e.mdns_services.len() <= 24
                &&& d.mdns_services.no_duplicates() ==> e.mdns_services.no_duplicates()
                &&& e.mdns_services.len() < 24 ==> forall|i: int|
                    0 <= i < services.len() ==> e.mdns_services.contains(#[trigger] services[i])
                &&& forall|i: int|
                    d.mdns_services.len() <= i < e.mdns_services.len() ==> services.contains(
                        #[trigger] e.mdns_services[i],
                    )
                &&& e.mdns_services.len() > d.mdns_services.len() ==> saved_by(w, t + 20)
                &&& e == (DeviceView {
                    mdns_name: e.mdns_name,
                    mdns_model: e.mdns_model,
                    mdns_services: e.mdns_services,
                    ..d
                })
            }
        }),
{
    lemma_traced(v.st, ip);
    let a = traced(v.st, ip);
    let d = device_of(a, mac, t);
    let n = services.len() as int;
    lemma_more_services(d.mdns_services, services, n);
    lemma_with(
        a,
        mac,
        DeviceView {
            mdns_name: crate::daemon::renewed(d.mdns_name, name),
            mdns_model: crate::daemon::renewed(d.mdns_model, model),
            mdns_services: more_services(d.mdns_services, services, n),
            ..d
        },
    );
}

/// What a collector says of itself replaces what it said before, and nothing else.
pub proof fn law_state_of_a_collector_is_noted(
    v: DaemonView,
    dns: Seq<DnsRule>,
    peers: Seq<PeerRule>,
    keep: bool,
    t: u64,
    kind: Seq<char>,
    state: Seq<char>,
    info: Seq<char>,
)
    ensures
        ({
            let w = on_event(v, EventView::SourceInfo { kind, state, info }, dns, peers, keep, t);
            &&& w == on_source(v, kind, state, info)
            &&& w.sources.last() == (SourceView { kind, state, info })
            &&& w.sources.drop_last() == v.sources.filter(|s: SourceView| s.kind != kind)
            &&& w.st == v.st && w.counts == v.counts && w.last == v.last
            &&& w.save_at == v.save_at && w.announced == v.announced
        }),
{
    let w = on_source(v, kind, state, info);
    assert(w.sources.drop_last() =~= v.sources.filter(|s: SourceView| s.kind != kind));
}

// ---------------------------------------------------------------------------
// Commands
// ---------------------------------------------------------------------------

/// A command is its name and, behind a space each, what it is about: to forget a device, its
/// hardware address; to note something, the address and the rest of the line as it stands.
pub proof fn law_commands_are_read(m: Seq<char>, mac: Seq<char>, rest: Seq<char>)
    requires
        free_of(m, ' '),
    ensures
        mac_normal(m) == Some(mac) ==> command_in("forget"@ + seq![' '] + m) == Some(
            CommandView::Forget(mac),
        ),
        mac_normal(m) == Some(mac) ==> command_in("forget"@ + seq![' '] + (m + seq![' '] + rest))
            == Some(CommandView::Forget(mac)),
        mac_normal(m) is None ==> command_in("forget"@ + seq![' '] + m) is None,
        mac_normal(m) == Some(mac) ==> command_in("note"@ + seq![' '] + (m + seq![' '] + rest))
            == Some(CommandView::Note(mac, rest)),
        mac_normal(m) is None ==> command_in("note"@ + seq![' '] + (m + seq![' '] + rest)) is None,
        command_in("note"@ + seq![' '] + m) is None,
        command_in("forget"@) is None && command_in("note"@) is None,
        command_in("scan"@) == Some(CommandView::Scan),
        command_in("probe"@) == Some(CommandView::Probe),
        command_in("save"@) == Some(CommandView::Save),
        forall|name: Seq<char>|
            #![trigger command_in(name)]
            free_of(name, ' ') && name != "forget"@ && name != "note"@ && name != "scan"@ && name
                != "probe"@ && name != "save"@ ==> command_in(name) is None,
{
    reveal_strlit("forget");
    reveal_strlit("note");
    reveal_strlit("scan");
    reveal_strlit("probe");
    reveal_strlit("save");
    assert("forget"@.len() == 6 && "note"@.len() == 4 && "scan"@.len() == 4 && "probe"@.len() == 5
        && "save"@.len() == 4);
    assert("note"@[0] == 'n' && "scan"@[0] == 's' && "save"@[0] == 's');
    assert("scan"@[1] == 'c' && "save"@[1] == 'a');
    law_parting_at_the_first("forget"@, ' ', m);
    law_parting_at_the_first("forget"@, ' ', m + seq![' '] + rest);
    law_parting_at_the_first("note"@, ' ', m);
    law_parting_at_the_first("note"@, ' ', m + seq![' '] + rest);
    law_parting_at_the_first("scan"@, ' ', rest);
    law_parting_at_the_first("probe"@, ' ', rest);
    law_parting_at_the_first("save"@, ' ', rest);
    law_parting_at_the_first(m, ' ', rest);
    assert forall|name: Seq<char>|
        #![trigger command_in(name)]
        free_of(name, ' ') && name != "forget"@ && name != "note"@ && name != "scan"@ && name
            != "probe"@ && name != "save"@ implies command_in(name) is None by {
        law_parting_at_the_first(name, ' ', rest);
    }
}

/// To forget a device takes it out of the store, to note something gives it that name; the
/// other commands change no device. Ports are probed only where that is allowed.
pub proof fn law_commands_are_obeyed(
    v: DaemonView,
    mac: Seq<char>,
    note: Seq<char>,
    probing: bool,
    t: u64,
)
    requires
        ordered(v.st.devs),
    ensures
        ({
            let (f, a) = obeyed(v, CommandView::Forget(mac), probing, t);
            &&& lookup(f.st.devs, mac) is None && only_changes(v.st, f.st, mac) && f.st.dirty
            &&& a is Nothing
        }),
        ({
            let (n, b) = obeyed(v, CommandView::Note(mac, note), probing, t);
            &&& lookup(n.st.devs, mac) == Some(DeviceView { note, ..device_of(v.st, mac, t) })
            &&& only_changes(v.st, n.st, mac) && n.st.dirty
            &&& b is Nothing
        }),
        obeyed(v, CommandView::Scan, probing, t) == (v, Task::Scan),
        obeyed(v, CommandView::Save, probing, t) == (v, Task::Save),
        probing ==> obeyed(v, CommandView::Probe, probing, t) == (v, Task::Probe),
        !probing ==> obeyed(v, CommandView::Probe, probing, t).1 is Nothing && obeyed(
            v,
            CommandView::Probe,
            probing,
            t,
        ).0.st == v.st && obeyed(v, CommandView::Probe, probing, t).0.sources.last() == (
        SourceView { kind: "ports"@, state: "disabled"@, info: Seq::empty() }),
{
    reveal(only_changes);
    law_without_then_lookup(v.st.devs, mac, mac);
    assert forall|k: Seq<char>| k != mac implies #[trigger] lookup(without(v.st.devs, mac), k)
        == lookup(v.st.devs, k) by {
        law_without_then_lookup(v.st.devs, mac, k);
    }
    lemma_with(v.st, mac, DeviceView { note, ..device_of(v.st, mac, t) });
}

// ---------------------------------------------------------------------------
// Times and reports
// ---------------------------------------------------------------------------

/// Work is due when as much time has passed since it was last done as lies between two times,
/// for the rules a minute; what was done is done again only that long after.
pub proof fn law_work_is_due_in_its_time(c: Clock, t: u64, refresh: u64, persist: u64)
    requires
        c.refresh <= t,
        c.rules <= t,
        c.persist <= t,
    ensures
        due_at(c, t, refresh, persist).refresh <==> t - c.refresh >= refresh,
        due_at(c, t, refresh, persist).rules <==> t - c.rules >= 60,
        due_at(c, t, refresh, persist).persist <==> t - c.persist >= persist,
        forall|d: Due|
            #![trigger wound(c, d, t)]
            wound(c, d, t) == (Clock {
                refresh: if d.refresh {
                    t
                } else {
                    c.refresh
                },
                rules: if d.rules {
                    t
                } else {
                    c.rules
                },
                persist: if d.persist {
                    t
                } else {
                    c.persist
                },
            }),
{
}

/// The store is to be written at the earlier of two times.
pub proof fn law_earlier_time_wins(cur: Option<u64>, at: u64)
    ensures
        sooner(cur, at) is Some,
        sooner(cur, at).unwrap() <= at,
        cur is Some ==> sooner(cur, at).unwrap() <= cur.unwrap(),
        sooner(cur, at) == Some(at) || sooner(cur, at) == cur,
{
}

/// A conclusion held with some confidence is announced as new the first time, and as changed
/// when its brand, system, sort or model is another than what was last announced.
pub proof fn law_changes_are_announced(
    announced: Entries<Seq<char>>,
    mac: Seq<char>,
    confidence: u32,
    b1: Seq<char>,
    o1: Seq<char>,
    d1: Seq<char>,
    m1: Seq<char>,
    what: Seq<char>,
)
    ensures
        confidence == 0 ==> reason(announced, mac, confidence, what) is None,
        confidence > 0 && lookup(announced, mac) is None ==> reason(
            announced,
            mac,
            confidence,
            what,
        ) == Some("new"@),
        confidence > 0 && lookup(announced, mac) is Some && lookup(announced, mac) != Some(what)
            ==> reason(announced, mac, confidence, what) == Some("changed"@),
        lookup(announced, mac) == Some(what) ==> reason(announced, mac, confidence, what) is None,
        verdict(b1, o1, d1, m1) == b1 + seq!['|'] + o1 + seq!['|'] + d1 + seq!['|'] + m1,
{
}

/// Probed are the devices that are online and have an IPv4 address, each at its first.
pub proof fn law_online_devices_are_probed(m: Entries<DeviceView>, n: int, i: int)
    requires
        0 <= i < n <= m.len(),
    ensures
        m[i].1.online && m[i].1.ipv4.len() > 0 ==> targets(m, n).contains(m[i].1.ipv4[0]),
        targets(m, n).len() <= n,
        forall|j: int|
            0 <= j < targets(m, n).len() ==> exists|k: int|
                0 <= k < n && (#[trigger] m[k]).1.online && m[k].1.ipv4.len() > 0 && m[k].1.ipv4[0]
                    == #[trigger] targets(m, n)[j],
    decreases n,
{
    if n > 1 {
        law_online_devices_are_probed(
            m,
            n - 1,
            if i < n - 1 {
                i
            } else {
                0
            },
        );
    }
    let a = targets(m, n - 1);
    let b = targets(m, n);
    if n == 1 {
        assert(a.len() == 0);
    }
    if m[n - 1].1.online && m[n - 1].1.ipv4.len() > 0 {
        assert(b.last() == m[n - 1].1.ipv4[0]);
    }
    if i < n - 1 && m[i].1.online && m[i].1.ipv4.len() > 0 {
        let k = choose|k: int| 0 <= k < a.len() && a[k] == m[i].1.ipv4[0];
        assert(b[k] == a[k]);
    }
    assert forall|j: int| 0 <= j < b.len() implies exists|k: int|
        0 <= k < n && (#[trigger] m[k]).1.online && m[k].1.ipv4.len() > 0 && m[k].1.ipv4[0]
            == #[trigger] b[j] by {
        if j < a.len() {
            assert(b[j] == a[j]);
            let k = choose|k: int|
                0 <= k < n - 1 && (#[trigger] m[k]).1.online && m[k].1.ipv4.len() > 0
                    && m[k].1.ipv4[0] == #[trigger] a[j];
            assert(m[k].1.online);
        } else {
            assert(m[n - 1].1.online);
        }
    }
}

/// Devices are listed with those online first, and else the one seen last first.
pub proof fn law_order_of_devices(a: DeviceView, b: DeviceView)
    ensures
        a.online && !b.online ==> listed_before(a, b) && !listed_before(b, a),
        a.online == b.online && a.last_seen > b.last_seen ==> listed_before(a, b)
            && !listed_before(b, a),
        a.online == b.online && a.last_seen == b.last_seen ==> !listed_before(a, b),
{
}

} // verus!
