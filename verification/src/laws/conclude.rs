//! Where signals come from, and what is concluded from them.

use crate::laws::score::{counts_hits, in_some_part, lemma_in, lemma_own_parts, says};
use crate::names::Entries;
use crate::rules::{
    dns_named, first_hit, hits, list_match, peer_named, port_match, stack_hit, stack_hits, text_hit,
    DnsRule, PeerRule, PortRule, Rules, Shape, StackRule, TextRule,
};
use crate::score::{
    all_sigs, first_sig, forwarded, host_name, list_sigs, model_sigs, name_sig, name_sigs, oui_sigs,
    own_sigs, peer_sig, peer_sigs, port_sig, port_sigs, service_sigs, signal_list, stack_sig,
    stack_sigs, text_sig, vendor_sigs, Fades, SigView, Weight,
};
use crate::store::{DeviceView, Hit, DECAY_MUTE};
use crate::util::mac_is_local;
use vstd::prelude::*;

verus! {

/// Whether a signal says what one of some text rules says that fits a text.
pub open spec fn from_text(
    x: SigView,
    source: Seq<char>,
    hay: Seq<char>,
    rs: Seq<TextRule>,
    with_platform: bool,
) -> bool {
    hay.len() > 0 && exists|k: int|
        0 <= k < rs.len() && text_hit(#[trigger] rs[k], hay) && says(
            x,
            source,
            hay,
            rs[k],
            if with_platform {
                rs[k].platform@
            } else {
                Seq::empty()
            },
        )
}

/// Whether a signal says the brand, system and sort that one of some text rules says.
pub open spec fn words_of(x: SigView, rs: Seq<TextRule>) -> bool {
    exists|k: int|
        0 <= k < rs.len() && (#[trigger] rs[k]).brand@ == x.brand && rs[k].dtype@ == x.dtype
}

/// Whether a signal counts the hits of a rule about names.
pub open spec fn from_hits(
    x: SigView,
    source: Seq<char>,
    m: Entries<Hit>,
    f: Seq<u32>,
    rs: Seq<DnsRule>,
    t: u64,
) -> bool {
    exists|k: int|
        0 <= k < m.len() && f[k] >= DECAY_MUTE && {
            let found = dns_named(rs, (#[trigger] m[k]).0);
            found is Some && counts_hits(x, source, found.unwrap(), m[k].1, t, f[k]) && (x.brand
                == found.unwrap().brand@ || x.brand.len() == 0) && (x.os == found.unwrap().os@
                || x.os.len() == 0) && (x.dtype == found.unwrap().dtype@ || x.dtype.len() == 0)
        }
}

proof fn lemma_first_from(rs: Seq<TextRule>, hay: Seq<char>)
    ensures
        first_hit(rs, hay) matches Some(m) ==> exists|k: int|
            0 <= k < rs.len() && #[trigger] rs[k] == m && text_hit(rs[k], hay),
    decreases rs.len(),
{
    if rs.len() > 0 {
        if text_hit(rs[0], hay) {
            assert(rs[0] == first_hit(rs, hay).unwrap());
        } else {
            let rest = rs.skip(1);
            lemma_first_from(rest, hay);
            if first_hit(rest, hay) is Some {
                let k = choose|k: int|
                    0 <= k < rest.len() && #[trigger] rest[k] == first_hit(rest, hay).unwrap()
                        && text_hit(rest[k], hay);
                assert(rs[k + 1] == rest[k]);
            }
        }
    }
}

proof fn lemma_first_sig_from(
    x: SigView,
    source: Seq<char>,
    hay: Seq<char>,
    rs: Seq<TextRule>,
    with_platform: bool,
)
    requires
        first_sig(source, hay, rs, with_platform).contains(x),
    ensures
        from_text(x, source, hay, rs, with_platform),
        first_sig(source, hay, rs, with_platform).len() <= 1,
{
    lemma_first_from(rs, hay);
    let m = first_hit(rs, hay).unwrap();
    let k = choose|k: int| 0 <= k < rs.len() && #[trigger] rs[k] == m && text_hit(rs[k], hay);
    assert(text_hit(rs[k], hay));
}

proof fn lemma_all_sigs_from(
    x: SigView,
    source: Seq<char>,
    hay: Seq<char>,
    rs: Seq<TextRule>,
    with_platform: bool,
)
    requires
        all_sigs(source, hay, rs, with_platform).contains(x),
    ensures
        from_text(x, source, hay, rs, with_platform),
{
    let h = hits(rs, hay);
    let v = all_sigs(source, hay, rs, with_platform);
    let j = choose|j: int| 0 <= j < v.len() && v[j] == x;
    let p = |r: TextRule| text_hit(r, hay);
    rs.lemma_filter_pred(p, j);
    assert(h.contains(h[j]));
    rs.lemma_filter_contains_rev(p, h[j]);
    let k = choose|k: int| 0 <= k < rs.len() && rs[k] == h[j];
    assert(text_hit(rs[k], hay));
}

proof fn lemma_services_from(x: SigView, v: Seq<Seq<char>>, rs: Seq<TextRule>, n: int)
    requires
        0 <= n <= v.len(),
    ensures
        service_sigs(v, rs, n).contains(x) ==> exists|j: int|
            0 <= j < n && {
                &&& first_hit(rs, #[trigger] v[j]) is Some
                &&& says(x, "mdns"@, v[j], first_hit(rs, v[j]).unwrap(), Seq::empty())
            },
        service_sigs(v, rs, n).len() <= n,
    decreases n,
{
    if n > 0 {
        lemma_services_from(x, v, rs, n - 1);
        let last = match first_hit(rs, v[n - 1]) {
            Some(m) => seq![text_sig("mdns"@, v[n - 1], m, false)],
            None => Seq::empty(),
        };
        lemma_in(service_sigs(v, rs, n - 1), last, x);
        if last.contains(x) {
            assert(first_hit(rs, v[n - 1]) is Some);
            assert(last[0] == x);
        }
    }
}

proof fn lemma_hits_from(
    x: SigView,
    source: Seq<char>,
    m: Entries<Hit>,
    f: Seq<u32>,
    rs: Seq<DnsRule>,
    t: u64,
    n: int,
)
    requires
        0 <= n <= m.len(),
    ensures
        name_sigs(source, m, f, rs, t, n).contains(x) ==> exists|k: int|
            0 <= k < n && f[k] >= DECAY_MUTE && {
                let found = dns_named(rs, (#[trigger] m[k]).0);
                found is Some && x == name_sig(source, found.unwrap(), m[k].1, t, f[k])
            },
        name_sigs(source, m, f, rs, t, n).len() <= n,
    decreases n,
{
    if n > 0 {
        lemma_hits_from(x, source, m, f, rs, t, n - 1);
        let last = match dns_named(rs, m[n - 1].0) {
            Some(r) if f[n - 1] >= DECAY_MUTE => seq![
                name_sig(source, r, m[n - 1].1, t, f[n - 1]),
            ],
            _ => Seq::empty(),
        };
        lemma_in(name_sigs(source, m, f, rs, t, n - 1), last, x);
        if last.contains(x) {
            assert(dns_named(rs, m[n - 1].0) is Some);
            assert(last[0] == x);
        }
    }
}

proof fn lemma_far_from(
    x: SigView,
    m: Entries<Hit>,
    f: Seq<u32>,
    rs: Seq<PeerRule>,
    t: u64,
    n: int,
)
    requires
        0 <= n <= m.len(),
    ensures
        peer_sigs(m, f, rs, t, n).contains(x) ==> exists|k: int|
            0 <= k < n && f[k] >= DECAY_MUTE && {
                let found = peer_named(rs, (#[trigger] m[k]).0);
                found is Some && x == peer_sig(found.unwrap(), m[k].1, t, f[k])
            },
        peer_sigs(m, f, rs, t, n).len() <= n,
    decreases n,
{
    if n > 0 {
        lemma_far_from(x, m, f, rs, t, n - 1);
        let last = match peer_named(rs, m[n - 1].0) {
            Some(r) if f[n - 1] >= DECAY_MUTE => seq![peer_sig(r, m[n - 1].1, t, f[n - 1])],
            _ => Seq::empty(),
        };
        lemma_in(peer_sigs(m, f, rs, t, n - 1), last, x);
        if last.contains(x) {
            assert(peer_named(rs, m[n - 1].0) is Some);
            assert(last[0] == x);
        }
    }
}

proof fn lemma_ports_from(x: SigView, v: Seq<u16>, rs: Seq<PortRule>, n: int)
    requires
        0 <= n <= v.len(),
    ensures
        port_sigs(v, rs, n).contains(x) ==> exists|k: int|
            0 <= k < n && {
                let found = port_match(rs, #[trigger] v[k]);
                found is Some && x == port_sig(v[k], found.unwrap())
            },
        port_sigs(v, rs, n).len() <= n,
    decreases n,
{
    if n > 0 {
        lemma_ports_from(x, v, rs, n - 1);
        let last = match port_match(rs, v[n - 1]) {
            Some(m) => seq![port_sig(v[n - 1], m)],
            None => Seq::empty(),
        };
        lemma_in(port_sigs(v, rs, n - 1), last, x);
        if last.contains(x) {
            assert(port_match(rs, v[n - 1]) is Some);
            assert(last[0] == x);
        }
    }
}

/// Whether a signal has its ground in something that is known of the device.
pub open spec fn grounded(x: SigView, d: DeviceView, r: Rules, t: u64, f: Fades, s: Shape) -> bool {
    ||| x.source == "dhcp60"@ && x.detail == d.dhcp_vendor && d.dhcp_vendor.len() > 0 && words_of(
        x,
        r.dhcp_vendor@,
    )
    ||| x.source == "dhcp55"@ && d.dhcp_fp.len() > 0 && exists|m: TextRule|
        list_match(r.dhcp_fp@, d.dhcp_fp) == Some(m) && x.brand == #[trigger] m.brand@ && x.os
            == m.os@ && x.dtype == m.dtype@
    ||| x.source == "mdns"@ && x.model == d.mdns_model && d.mdns_model.len() > 0 && (words_of(
        x,
        r.mdns_model@,
    ) || x.brand.len() + x.os.len() + x.dtype.len() == 0)
    ||| exists|j: int|
        0 <= j < d.mdns_services.len() && from_text(
            x,
            "mdns"@,
            #[trigger] d.mdns_services[j],
            r.mdns_service@,
            false,
        ) || 0 <= j < d.mdns_services.len() && d.mdns_services[j].len() == 0 && words_of(
            x,
            r.mdns_service@,
        )
    ||| from_text(x, "ssdp"@, d.upnp_server, r.upnp@, false)
    ||| from_text(
        x,
        "hostname"@,
        if d.dhcp_name.len() > 0 {
            d.dhcp_name
        } else {
            d.mdns_name
        },
        r.hostname@,
        false,
    )
    ||| from_hits(x, "dns"@, d.dns_hits, f.dns@, r.dns@, t)
    ||| from_hits(x, "sni"@, d.sni_hits, f.sni@, r.dns@, t)
    ||| from_text(x, "mqtt"@, d.mqtt_id, r.mqtt@, true)
    ||| exists|k: int|
        0 <= k < d.peer_hits.len() && f.peer@[k] >= DECAY_MUTE && {
            let found = peer_named(r.peer@, (#[trigger] d.peer_hits[k]).0);
            x.source == "peer"@ && found is Some && x.brand == found.unwrap().brand@ && x.os
                == found.unwrap().os@ && x.dtype == found.unwrap().dtype@
        }
    ||| from_text(x, "tcp"@, d.tcp_fp, r.tcp@, true)
    ||| from_text(x, "ua"@, d.http_ua, r.ua@, true)
    ||| exists|k: int|
        0 <= k < d.open_ports.len() && {
            let found = port_match(r.port@, #[trigger] d.open_ports[k]);
            x.source == "port"@ && found is Some && x.brand == found.unwrap().brand@ && x.os
                == found.unwrap().os@ && x.dtype == found.unwrap().dtype@
        }
    ||| from_text(x, "banner"@, d.banner, r.banner@, true)
    ||| x.source == "stack"@ && exists|k: int|
        0 <= k < r.stack@.len() && stack_hit(#[trigger] r.stack@[k], s) && x.brand
            == r.stack@[k].brand@ && x.os == r.stack@[k].os@ && x.dtype == r.stack@[k].dtype@
    ||| !mac_is_local(d.mac) && from_text(x, "oui"@, d.oui, r.oui_brand@, true)
    ||| x.source == "forwarder"@ && r.forwarder is Some && x.brand.len() + x.os.len() == 0
        && x.dtype == r.forwarder.unwrap().dtype@ && x.weight == Weight::Whole(
        r.forwarder.unwrap().weight as i64,
    )
}

proof fn lemma_own_grounded(x: SigView, d: DeviceView, r: Rules, t: u64, f: Fades, s: Shape)
    requires
        in_some_part(d, r, t, f, x),
    ensures
        grounded(x, d, r, t, f, s),
{
    if vendor_sigs(d, r).contains(x) {
        lemma_first_from(r.dhcp_vendor@, d.dhcp_vendor);
        assert(vendor_sigs(d, r)[0] == x);
        let m = first_hit(r.dhcp_vendor@, d.dhcp_vendor).unwrap();
        let k = choose|k: int|
            0 <= k < r.dhcp_vendor@.len() && #[trigger] r.dhcp_vendor@[k] == m && text_hit(
                r.dhcp_vendor@[k],
                d.dhcp_vendor,
            );
        assert(r.dhcp_vendor@[k].brand@ == x.brand);
        assert(words_of(x, r.dhcp_vendor@));
    } else if list_sigs(d, r).contains(x) {
        assert(list_sigs(d, r)[0] == x);
        let m = list_match(r.dhcp_fp@, d.dhcp_fp).unwrap();
        assert(x.brand == m.brand@);
    } else if model_sigs(d, r).contains(x) {
        lemma_first_from(r.mdns_model@, d.mdns_model);
        assert(model_sigs(d, r)[0] == x);
        if first_hit(r.mdns_model@, d.mdns_model) is Some {
            let m = first_hit(r.mdns_model@, d.mdns_model).unwrap();
            let k = choose|k: int|
                0 <= k < r.mdns_model@.len() && #[trigger] r.mdns_model@[k] == m && text_hit(
                    r.mdns_model@[k],
                    d.mdns_model,
                );
            assert(r.mdns_model@[k].brand@ == x.brand);
        }
    } else if service_sigs(
        d.mdns_services,
        r.mdns_service@,
        d.mdns_services.len() as int,
    ).contains(x) {
        let v = d.mdns_services;
        let rs = r.mdns_service@;
        lemma_services_from(x, v, rs, v.len() as int);
        let j = choose|j: int|
            0 <= j < v.len() && {
                &&& first_hit(rs, #[trigger] v[j]) is Some
                &&& says(x, "mdns"@, v[j], first_hit(rs, v[j]).unwrap(), Seq::empty())
            };
        lemma_first_from(rs, v[j]);
        let m = first_hit(rs, v[j]).unwrap();
        let k = choose|k: int|
            0 <= k < rs.len() && #[trigger] rs[k] == m && text_hit(rs[k], v[j]);
        assert(text_hit(rs[k], v[j]));
        assert(rs[k].brand@ == x.brand);
    } else if first_sig("ssdp"@, d.upnp_server, r.upnp@, false).contains(x) {
        lemma_first_sig_from(x, "ssdp"@, d.upnp_server, r.upnp@, false);
    } else if all_sigs("hostname"@, host_name(d), r.hostname@, false).contains(x) {
        lemma_all_sigs_from(x, "hostname"@, host_name(d), r.hostname@, false);
    } else if name_sigs(
        "dns"@,
        d.dns_hits,
        f.dns@,
        r.dns@,
        t,
        d.dns_hits.len() as int,
    ).contains(x) {
        lemma_hits_from(x, "dns"@, d.dns_hits, f.dns@, r.dns@, t, d.dns_hits.len() as int);
    } else if name_sigs(
        "sni"@,
        d.sni_hits,
        f.sni@,
        r.dns@,
        t,
        d.sni_hits.len() as int,
    ).contains(x) {
        lemma_hits_from(x, "sni"@, d.sni_hits, f.sni@, r.dns@, t, d.sni_hits.len() as int);
    } else if all_sigs("mqtt"@, d.mqtt_id, r.mqtt@, true).contains(x) {
        lemma_all_sigs_from(x, "mqtt"@, d.mqtt_id, r.mqtt@, true);
    } else if peer_sigs(
        d.peer_hits,
        f.peer@,
        r.peer@,
        t,
        d.peer_hits.len() as int,
    ).contains(x) {
        lemma_far_from(x, d.peer_hits, f.peer@, r.peer@, t, d.peer_hits.len() as int);
    } else if first_sig("tcp"@, d.tcp_fp, r.tcp@, true).contains(x) {
        lemma_first_sig_from(x, "tcp"@, d.tcp_fp, r.tcp@, true);
    } else if all_sigs("ua"@, d.http_ua, r.ua@, true).contains(x) {
        lemma_all_sigs_from(x, "ua"@, d.http_ua, r.ua@, true);
    } else if port_sigs(d.open_ports, r.port@, d.open_ports.len() as int).contains(x) {
        lemma_ports_from(x, d.open_ports, r.port@, d.open_ports.len() as int);
    } else {
        lemma_all_sigs_from(x, "banner"@, d.banner, r.banner@, true);
    }
}

/// No signal is made up: each has its ground in something that is known of the device, and
/// says no brand, system or sort but that of the rule it comes from.
#[verifier::rlimit(40)]
pub proof fn law_every_signal_has_a_ground(
    d: DeviceView,
    r: Rules,
    t: u64,
    f: Fades,
    s: Shape,
    i: int,
)
    requires
        0 <= i < signal_list(d, r, t, f, s).len(),
    ensures
        grounded(signal_list(d, r, t, f, s)[i], d, r, t, f, s),
{
    let v = signal_list(d, r, t, f, s);
    let x = v[i];
    let own = own_sigs(d, r, t, f);
    let w = forwarded(own, r.forwarder);
    let p = stack_sigs(r.stack@, s);
    let q = oui_sigs(d, r);
    if i < own.len() {
        let y = own[i];
        assert(own.contains(y));
        lemma_own_parts(d, r, t, f, y);
        if w[i] == y {
            lemma_own_grounded(y, d, r, t, f, s);
        } else {
            lemma_disowned_grounded(x, y, d, r, t, f, s);
        }
    } else if i < w.len() {
        assert(x == w.last());
    } else if i < w.len() + p.len() {
        let j = i - w.len();
        assert(x == p[j]);
        let h = stack_hits(r.stack@, s);
        let pr = |m: StackRule| stack_hit(m, s);
        r.stack@.lemma_filter_pred(pr, j);
        assert(h.contains(h[j]));
        r.stack@.lemma_filter_contains_rev(pr, h[j]);
        let k = choose|k: int| 0 <= k < r.stack@.len() && r.stack@[k] == h[j];
        assert(stack_hit(r.stack@[k], s));
        assert(x == stack_sig(h[j]));
    } else {
        assert(x == q[i - w.len() - p.len()]);
        assert(q.contains(x));
        lemma_first_sig_from(x, "oui"@, d.oui, r.oui_brand@, true);
    }
}

proof fn lemma_disowned_grounded(
    x: SigView,
    y: SigView,
    d: DeviceView,
    r: Rules,
    t: u64,
    f: Fades,
    s: Shape,
)
    requires
        in_some_part(d, r, t, f, y),
        y.source == "dns"@ || y.source == "sni"@,
        x == (SigView { brand: Seq::empty(), os: Seq::empty(), dtype: Seq::empty(), ..y }),
    ensures
        grounded(x, d, r, t, f, s),
{
    crate::laws::score::lemma_sources_differ();
    if name_sigs("dns"@, d.dns_hits, f.dns@, r.dns@, t, d.dns_hits.len() as int).contains(y) {
        lemma_hits_from(y, "dns"@, d.dns_hits, f.dns@, r.dns@, t, d.dns_hits.len() as int);
        assert(from_hits(x, "dns"@, d.dns_hits, f.dns@, r.dns@, t));
    } else if name_sigs(
        "sni"@,
        d.sni_hits,
        f.sni@,
        r.dns@,
        t,
        d.sni_hits.len() as int,
    ).contains(y) {
        lemma_hits_from(y, "sni"@, d.sni_hits, f.sni@, r.dns@, t, d.sni_hits.len() as int);
        assert(from_hits(x, "sni"@, d.sni_hits, f.sni@, r.dns@, t));
    } else if peer_sigs(
        d.peer_hits,
        f.peer@,
        r.peer@,
        t,
        d.peer_hits.len() as int,
    ).contains(y) {
        lemma_far_from(y, d.peer_hits, f.peer@, r.peer@, t, d.peer_hits.len() as int);
    } else if port_sigs(d.open_ports, r.port@, d.open_ports.len() as int).contains(y) {
        lemma_ports_from(y, d.open_ports, r.port@, d.open_ports.len() as int);
    } else if service_sigs(
        d.mdns_services,
        r.mdns_service@,
        d.mdns_services.len() as int,
    ).contains(y) {
        lemma_services_from(
            y,
            d.mdns_services,
            r.mdns_service@,
            d.mdns_services.len() as int,
        );
    }
}

/// Nothing speaks twice: each text speaks at most once through each rule that fits it, and
/// each hit, port and service at most once.
pub proof fn law_nothing_speaks_twice(d: DeviceView, r: Rules, t: u64, f: Fades, s: Shape)
    ensures
        signal_list(d, r, t, f, s).len() <= 7 + d.mdns_services.len() + hits(
            r.hostname@,
            if d.dhcp_name.len() > 0 {
                d.dhcp_name
            } else {
                d.mdns_name
            },
        ).len() + d.dns_hits.len() + d.sni_hits.len() + hits(r.mqtt@, d.mqtt_id).len()
            + d.peer_hits.len() + hits(r.ua@, d.http_ua).len() + d.open_ports.len() + hits(
            r.banner@,
            d.banner,
        ).len() + stack_hits(r.stack@, s).len(),
{
    let x = signal_list(d, r, t, f, s)[0];
    lemma_services_from(x, d.mdns_services, r.mdns_service@, d.mdns_services.len() as int);
    lemma_hits_from(x, "dns"@, d.dns_hits, f.dns@, r.dns@, t, d.dns_hits.len() as int);
    lemma_hits_from(x, "sni"@, d.sni_hits, f.sni@, r.dns@, t, d.sni_hits.len() as int);
    lemma_far_from(x, d.peer_hits, f.peer@, r.peer@, t, d.peer_hits.len() as int);
    lemma_ports_from(x, d.open_ports, r.port@, d.open_ports.len() as int);
}

} // verus!
