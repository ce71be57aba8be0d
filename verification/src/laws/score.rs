//! What each thing known of a device says of it, and what is concluded from all of it.

use crate::names::Entries;
use crate::num::dec;
use crate::rules::{
    dns_named, first_hit, hits, list_match, peer_named, port_match, rule_label, stack_hit,
    stack_hits, text_hit, DnsRule, PeerRule, PortRule, Rules, Shape, StackRule, TextRule,
};
use crate::score::{
    all_sigs, first_sig, forwarded, heartbeat_brands, host_name, list_sigs, model_sigs, name_sigs,
    oui_sigs, own_sigs, peer_sigs, port_sigs, service_sigs, signal_list, stack_sigs, text_sig,
    vendor_sigs, vendor_system, Fades, SigView, Weight,
};
use crate::store::{DeviceView, Hit, DECAY_MUTE};
use crate::text::{lemma_lead_is, Class};
use crate::util::mac_is_local;
use vstd::prelude::*;

verus! {

pub proof fn lemma_in<A>(a: Seq<A>, b: Seq<A>, x: A)
    ensures
        (a + b).contains(x) <==> a.contains(x) || b.contains(x),
{
    if a.contains(x) {
        let i = choose|i: int| 0 <= i < a.len() && a[i] == x;
        assert((a + b)[i] == x);
    }
    if b.contains(x) {
        let i = choose|i: int| 0 <= i < b.len() && b[i] == x;
        assert((a + b)[a.len() + i] == x);
    }
    if (a + b).contains(x) {
        let i = choose|i: int| 0 <= i < (a + b).len() && (a + b)[i] == x;
        if i < a.len() {
            assert(a[i] == x);
        } else {
            assert(b[i - a.len()] == x);
        }
    }
}

pub open spec fn in_some_part(d: DeviceView, r: Rules, t: u64, f: Fades, x: SigView) -> bool {
    ||| vendor_sigs(d, r).contains(x)
    ||| list_sigs(d, r).contains(x)
    ||| model_sigs(d, r).contains(x)
    ||| service_sigs(d.mdns_services, r.mdns_service@, d.mdns_services.len() as int).contains(x)
    ||| first_sig("ssdp"@, d.upnp_server, r.upnp@, false).contains(x)
    ||| all_sigs("hostname"@, host_name(d), r.hostname@, false).contains(x)
    ||| name_sigs("dns"@, d.dns_hits, f.dns@, r.dns@, t, d.dns_hits.len() as int).contains(x)
    ||| name_sigs("sni"@, d.sni_hits, f.sni@, r.dns@, t, d.sni_hits.len() as int).contains(x)
    ||| all_sigs("mqtt"@, d.mqtt_id, r.mqtt@, true).contains(x)
    ||| peer_sigs(d.peer_hits, f.peer@, r.peer@, t, d.peer_hits.len() as int).contains(x)
    ||| first_sig("tcp"@, d.tcp_fp, r.tcp@, true).contains(x)
    ||| all_sigs("ua"@, d.http_ua, r.ua@, true).contains(x)
    ||| port_sigs(d.open_ports, r.port@, d.open_ports.len() as int).contains(x)
    ||| all_sigs("banner"@, d.banner, r.banner@, true).contains(x)
}

pub proof fn lemma_own_parts(d: DeviceView, r: Rules, t: u64, f: Fades, x: SigView)
    ensures
        own_sigs(d, r, t, f).contains(x) <==> in_some_part(d, r, t, f, x),
{
    let p1 = vendor_sigs(d, r);
    let p2 = list_sigs(d, r);
    let p3 = model_sigs(d, r);
    let p4 = service_sigs(d.mdns_services, r.mdns_service@, d.mdns_services.len() as int);
    let p5 = first_sig("ssdp"@, d.upnp_server, r.upnp@, false);
    let p6 = all_sigs("hostname"@, host_name(d), r.hostname@, false);
    let p7 = name_sigs("dns"@, d.dns_hits, f.dns@, r.dns@, t, d.dns_hits.len() as int);
    let p8 = name_sigs("sni"@, d.sni_hits, f.sni@, r.dns@, t, d.sni_hits.len() as int);
    let p9 = all_sigs("mqtt"@, d.mqtt_id, r.mqtt@, true);
    let p10 = peer_sigs(d.peer_hits, f.peer@, r.peer@, t, d.peer_hits.len() as int);
    let p11 = first_sig("tcp"@, d.tcp_fp, r.tcp@, true);
    let p12 = all_sigs("ua"@, d.http_ua, r.ua@, true);
    let p13 = port_sigs(d.open_ports, r.port@, d.open_ports.len() as int);
    let p14 = all_sigs("banner"@, d.banner, r.banner@, true);
    let s2 = p1 + p2;
    let s3 = s2 + p3;
    let s4 = s3 + p4;
    let s5 = s4 + p5;
    let s6 = s5 + p6;
    let s7 = s6 + p7;
    let s8 = s7 + p8;
    let s9 = s8 + p9;
    let s10 = s9 + p10;
    let s11 = s10 + p11;
    let s12 = s11 + p12;
    let s13 = s12 + p13;
    lemma_in(p1, p2, x);
    lemma_in(s2, p3, x);
    lemma_in(s3, p4, x);
    lemma_in(s4, p5, x);
    lemma_in(s5, p6, x);
    lemma_in(s6, p7, x);
    lemma_in(s7, p8, x);
    lemma_in(s8, p9, x);
    lemma_in(s9, p10, x);
    lemma_in(s10, p11, x);
    lemma_in(s11, p12, x);
    lemma_in(s12, p13, x);
    lemma_in(s13, p14, x);
}

proof fn lemma_list_has(d: DeviceView, r: Rules, t: u64, f: Fades, s: Shape, x: SigView)
    requires
        in_some_part(d, r, t, f, x),
        x.source != "dns"@,
        x.source != "sni"@,
    ensures
        signal_list(d, r, t, f, s).contains(x),
{
    lemma_own_parts(d, r, t, f, x);
    let own = own_sigs(d, r, t, f);
    let w = forwarded(own, r.forwarder);
    let i = choose|i: int| 0 <= i < own.len() && own[i] == x;
    assert(w[i] == x);
    assert(w.contains(x));
    lemma_in(w, stack_sigs(r.stack@, s), x);
    lemma_in(w + stack_sigs(r.stack@, s), oui_sigs(d, r), x);
}

pub proof fn lemma_sources_differ()
    ensures
        "dhcp60"@ != "dns"@ && "dhcp60"@ != "sni"@,
        "dhcp55"@ != "dns"@ && "dhcp55"@ != "sni"@,
        "mdns"@ != "dns"@ && "mdns"@ != "sni"@,
        "ssdp"@ != "dns"@ && "ssdp"@ != "sni"@,
        "hostname"@ != "dns"@ && "hostname"@ != "sni"@,
        "mqtt"@ != "dns"@ && "mqtt"@ != "sni"@,
        "peer"@ != "dns"@ && "peer"@ != "sni"@,
        "tcp"@ != "dns"@ && "tcp"@ != "sni"@,
        "ua"@ != "dns"@ && "ua"@ != "sni"@,
        "port"@ != "dns"@ && "port"@ != "sni"@,
        "banner"@ != "dns"@ && "banner"@ != "sni"@,
{
    reveal_strlit("dns");
    reveal_strlit("sni");
    reveal_strlit("dhcp60");
    reveal_strlit("dhcp55");
    reveal_strlit("mdns");
    reveal_strlit("ssdp");
    reveal_strlit("hostname");
    reveal_strlit("mqtt");
    reveal_strlit("peer");
    reveal_strlit("tcp");
    reveal_strlit("ua");
    reveal_strlit("port");
    reveal_strlit("banner");
    assert("tcp"@[0] == 't' && "dns"@[0] == 'd' && "sni"@[0] == 's');
    assert("dns"@.len() == 3 && "sni"@.len() == 3);
}

/// Whether a signal of a source says, in those words, exactly what a text rule says: its
/// brand, system, sort and kind, with its weight.
pub open spec fn says(
    s: SigView,
    source: Seq<char>,
    detail: Seq<char>,
    r: TextRule,
    platform: Seq<char>,
) -> bool {
    &&& s.source == source
    &&& s.detail == detail
    &&& s.age == 0
    &&& s.brand == r.brand@
    &&& s.os == r.os@
    &&& s.dtype == r.dtype@
    &&& s.kind == r.kind@
    &&& s.model.len() == 0
    &&& s.platform == platform
    &&& s.weight == Weight::Whole(r.weight as i64)
}

/// Whether some signal says what a text rule says.
pub open spec fn said_somewhere(
    v: Seq<SigView>,
    source: Seq<char>,
    detail: Seq<char>,
    r: TextRule,
    platform: Seq<char>,
) -> bool {
    exists|i: int| 0 <= i < v.len() && says(#[trigger] v[i], source, detail, r, platform)
}

proof fn lemma_all_has(
    source: Seq<char>,
    hay: Seq<char>,
    rs: Seq<TextRule>,
    with_platform: bool,
    i: int,
) -> (x: SigView)
    requires
        0 <= i < rs.len(),
        hay.len() > 0,
        text_hit(rs[i], hay),
    ensures
        all_sigs(source, hay, rs, with_platform).contains(x),
        says(
            x,
            source,
            hay,
            rs[i],
            if with_platform {
                rs[i].platform@
            } else {
                Seq::empty()
            },
        ),
{
    let p = |r: TextRule| text_hit(r, hay);
    let h = hits(rs, hay);
    assert(h.contains(rs[i]));
    let j = choose|j: int| 0 <= j < h.len() && h[j] == rs[i];
    let v = all_sigs(source, hay, rs, with_platform);
    assert(v[j] == text_sig(source, hay, rs[i], with_platform));
    v[j]
}

proof fn lemma_heard(
    v: Seq<SigView>,
    x: SigView,
    source: Seq<char>,
    detail: Seq<char>,
    r: TextRule,
    platform: Seq<char>,
)
    requires
        v.contains(x),
        says(x, source, detail, r, platform),
    ensures
        said_somewhere(v, source, detail, r, platform),
{
    let i = choose|i: int| 0 <= i < v.len() && v[i] == x;
    assert(says(v[i], source, detail, r, platform));
}

/// The name of a device, the name it gives itself to a broker, its user agent and its
/// greeting speak through every rule that fits them. The name is the one of its lease, else
/// the announced one.
pub proof fn law_every_fitting_rule_speaks(
    d: DeviceView,
    r: Rules,
    t: u64,
    f: Fades,
    s: Shape,
    i: int,
)
    ensures
        ({
            let name = if d.dhcp_name.len() > 0 {
                d.dhcp_name
            } else {
                d.mdns_name
            };
            0 <= i < r.hostname@.len() && name.len() > 0 && text_hit(r.hostname@[i], name)
                ==> said_somewhere(
                signal_list(d, r, t, f, s),
                "hostname"@,
                name,
                r.hostname@[i],
                Seq::empty(),
            )
        }),
        0 <= i < r.mqtt@.len() && d.mqtt_id.len() > 0 && text_hit(r.mqtt@[i], d.mqtt_id)
            ==> said_somewhere(
            signal_list(d, r, t, f, s),
            "mqtt"@,
            d.mqtt_id,
            r.mqtt@[i],
            r.mqtt@[i].platform@,
        ),
        0 <= i < r.ua@.len() && d.http_ua.len() > 0 && text_hit(r.ua@[i], d.http_ua)
            ==> said_somewhere(
            signal_list(d, r, t, f, s),
            "ua"@,
            d.http_ua,
            r.ua@[i],
            r.ua@[i].platform@,
        ),
        0 <= i < r.banner@.len() && d.banner.len() > 0 && text_hit(r.banner@[i], d.banner)
            ==> said_somewhere(
            signal_list(d, r, t, f, s),
            "banner"@,
            d.banner,
            r.banner@[i],
            r.banner@[i].platform@,
        ),
{
    lemma_sources_differ();
    let v = signal_list(d, r, t, f, s);
    let name = if d.dhcp_name.len() > 0 {
        d.dhcp_name
    } else {
        d.mdns_name
    };
    if 0 <= i < r.hostname@.len() && name.len() > 0 && text_hit(r.hostname@[i], name) {
        let x = lemma_all_has("hostname"@, name, r.hostname@, false, i);
        lemma_list_has(d, r, t, f, s, x);
        lemma_heard(v, x, "hostname"@, name, r.hostname@[i], Seq::empty());
    }
    if 0 <= i < r.mqtt@.len() && d.mqtt_id.len() > 0 && text_hit(r.mqtt@[i], d.mqtt_id) {
        let x = lemma_all_has("mqtt"@, d.mqtt_id, r.mqtt@, true, i);
        lemma_list_has(d, r, t, f, s, x);
        lemma_heard(v, x, "mqtt"@, d.mqtt_id, r.mqtt@[i], r.mqtt@[i].platform@);
    }
    if 0 <= i < r.ua@.len() && d.http_ua.len() > 0 && text_hit(r.ua@[i], d.http_ua) {
        let x = lemma_all_has("ua"@, d.http_ua, r.ua@, true, i);
        lemma_list_has(d, r, t, f, s, x);
        lemma_heard(v, x, "ua"@, d.http_ua, r.ua@[i], r.ua@[i].platform@);
    }
    if 0 <= i < r.banner@.len() && d.banner.len() > 0 && text_hit(r.banner@[i], d.banner) {
        let x = lemma_all_has("banner"@, d.banner, r.banner@, true, i);
        lemma_list_has(d, r, t, f, s, x);
        lemma_heard(v, x, "banner"@, d.banner, r.banner@[i], r.banner@[i].platform@);
    }
}

proof fn lemma_service_has(v: Seq<Seq<char>>, rs: Seq<TextRule>, n: int, i: int) -> (x: SigView)
    requires
        0 <= i < n <= v.len(),
        first_hit(rs, v[i]) is Some,
    ensures
        service_sigs(v, rs, n).contains(x),
        says(x, "mdns"@, v[i], first_hit(rs, v[i]).unwrap(), Seq::empty()),
    decreases n,
{
    let m = first_hit(rs, v[i]).unwrap();
    let before = service_sigs(v, rs, n - 1);
    let last = match first_hit(rs, v[n - 1]) {
        Some(m) => seq![text_sig("mdns"@, v[n - 1], m, false)],
        None => Seq::empty(),
    };
    if i == n - 1 {
        let x = text_sig("mdns"@, v[i], m, false);
        assert(last[0] == x);
        lemma_in(before, last, x);
        x
    } else {
        let x = lemma_service_has(v, rs, n - 1, i);
        lemma_in(before, last, x);
        x
    }
}

/// What a device says of its server, the fingerprint of its connections and each service it
/// announces speak through the first rule that fits; so does who made it, unless its address
/// is made up.
pub proof fn law_first_fitting_rule_speaks(d: DeviceView, r: Rules, t: u64, f: Fades, s: Shape)
    ensures
        d.upnp_server.len() > 0 && first_hit(r.upnp@, d.upnp_server) is Some ==> said_somewhere(
            signal_list(d, r, t, f, s),
            "ssdp"@,
            d.upnp_server,
            first_hit(r.upnp@, d.upnp_server).unwrap(),
            Seq::empty(),
        ),
        d.tcp_fp.len() > 0 && first_hit(r.tcp@, d.tcp_fp) is Some ==> said_somewhere(
            signal_list(d, r, t, f, s),
            "tcp"@,
            d.tcp_fp,
            first_hit(r.tcp@, d.tcp_fp).unwrap(),
            first_hit(r.tcp@, d.tcp_fp).unwrap().platform@,
        ),
        forall|i: int|
            0 <= i < d.mdns_services.len() && first_hit(
                r.mdns_service@,
                #[trigger] d.mdns_services[i],
            ) is Some ==> said_somewhere(
                signal_list(d, r, t, f, s),
                "mdns"@,
                d.mdns_services[i],
                first_hit(r.mdns_service@, d.mdns_services[i]).unwrap(),
                Seq::empty(),
            ),
        !mac_is_local(d.mac) && d.oui.len() > 0 && first_hit(r.oui_brand@, d.oui) is Some
            ==> said_somewhere(
            signal_list(d, r, t, f, s),
            "oui"@,
            d.oui,
            first_hit(r.oui_brand@, d.oui).unwrap(),
            first_hit(r.oui_brand@, d.oui).unwrap().platform@,
        ),
{
    lemma_sources_differ();
    let v = signal_list(d, r, t, f, s);
    if d.upnp_server.len() > 0 && first_hit(r.upnp@, d.upnp_server) is Some {
        let m = first_hit(r.upnp@, d.upnp_server).unwrap();
        let x = first_sig("ssdp"@, d.upnp_server, r.upnp@, false)[0];
        assert(first_sig("ssdp"@, d.upnp_server, r.upnp@, false).contains(x));
        lemma_list_has(d, r, t, f, s, x);
        lemma_heard(v, x, "ssdp"@, d.upnp_server, m, Seq::empty());
    }
    if d.tcp_fp.len() > 0 && first_hit(r.tcp@, d.tcp_fp) is Some {
        let m = first_hit(r.tcp@, d.tcp_fp).unwrap();
        let x = first_sig("tcp"@, d.tcp_fp, r.tcp@, true)[0];
        assert(first_sig("tcp"@, d.tcp_fp, r.tcp@, true).contains(x));
        lemma_list_has(d, r, t, f, s, x);
        lemma_heard(v, x, "tcp"@, d.tcp_fp, m, m.platform@);
    }
    assert forall|i: int|
        0 <= i < d.mdns_services.len() && first_hit(
            r.mdns_service@,
            #[trigger] d.mdns_services[i],
        ) is Some implies said_somewhere(
        v,
        "mdns"@,
        d.mdns_services[i],
        first_hit(r.mdns_service@, d.mdns_services[i]).unwrap(),
        Seq::empty(),
    ) by {
        let x = lemma_service_has(
            d.mdns_services,
            r.mdns_service@,
            d.mdns_services.len() as int,
            i,
        );
        lemma_list_has(d, r, t, f, s, x);
        lemma_heard(
            v,
            x,
            "mdns"@,
            d.mdns_services[i],
            first_hit(r.mdns_service@, d.mdns_services[i]).unwrap(),
            Seq::empty(),
        );
    }
    if !mac_is_local(d.mac) && d.oui.len() > 0 && first_hit(r.oui_brand@, d.oui) is Some {
        let m = first_hit(r.oui_brand@, d.oui).unwrap();
        let x = oui_sigs(d, r)[0];
        assert(oui_sigs(d, r).contains(x));
        lemma_in(
            forwarded(own_sigs(d, r, t, f), r.forwarder) + stack_sigs(r.stack@, s),
            oui_sigs(d, r),
            x,
        );
        lemma_heard(v, x, "oui"@, d.oui, m, m.platform@);
    }
}

/// An announced model is taken at its word, with what the first rule that fits it says; even
/// where no rule knows it, it is evidence.
pub proof fn law_announced_model_speaks(d: DeviceView, r: Rules, t: u64, f: Fades, s: Shape)
    requires
        d.mdns_model.len() > 0,
    ensures
        exists|i: int|
            0 <= i < signal_list(d, r, t, f, s).len() && {
                let x = #[trigger] signal_list(d, r, t, f, s)[i];
                &&& x.source == "mdns"@
                &&& x.detail == "model="@ + d.mdns_model
                &&& x.model == d.mdns_model
                &&& x.platform.len() == 0
                &&& x.age == 0
                &&& match first_hit(r.mdns_model@, d.mdns_model) {
                    Some(m) => x.brand == m.brand@ && x.os == m.os@ && x.dtype == m.dtype@
                        && x.kind == m.kind@ && x.weight == Weight::Whole(m.weight as i64),
                    None => x.brand.len() == 0 && x.os.len() == 0 && x.dtype.len() == 0
                        && x.kind.len() == 0 && x.weight == Weight::Whole(3),
                }
            },
{
    lemma_sources_differ();
    let v = signal_list(d, r, t, f, s);
    let x = model_sigs(d, r)[0];
    assert(model_sigs(d, r).contains(x));
    lemma_list_has(d, r, t, f, s, x);
    let i = choose|i: int| 0 <= i < v.len() && v[i] == x;
    assert(v[i] == x);
}

/// A DHCP vendor class speaks through the first rule that fits it.
pub proof fn law_vendor_class_speaks(d: DeviceView, r: Rules, t: u64, f: Fades, s: Shape)
    requires
        d.dhcp_vendor.len() > 0,
        first_hit(r.dhcp_vendor@, d.dhcp_vendor) is Some,
    ensures
        exists|i: int|
            0 <= i < signal_list(d, r, t, f, s).len() && {
                let x = #[trigger] signal_list(d, r, t, f, s)[i];
                let m = first_hit(r.dhcp_vendor@, d.dhcp_vendor).unwrap();
                &&& x.source == "dhcp60"@
                &&& x.detail == d.dhcp_vendor
                &&& x.brand == m.brand@
                &&& x.os == vendor_system(d.dhcp_vendor, m)
                &&& x.dtype == m.dtype@
                &&& x.kind == m.kind@
                &&& x.model.len() == 0 && x.platform.len() == 0 && x.age == 0
                &&& x.weight == Weight::Whole(m.weight as i64)
            },
{
    lemma_sources_differ();
    let v = signal_list(d, r, t, f, s);
    let x = vendor_sigs(d, r)[0];
    assert(vendor_sigs(d, r).contains(x));
    lemma_list_has(d, r, t, f, s, x);
    let i = choose|i: int| 0 <= i < v.len() && v[i] == x;
    assert(v[i] == x);
}

/// The version in the vendor class of an Android device is read off: the first digits and
/// points in it. Of any other class the rule names the system.
pub proof fn law_vendor_class_names_the_version(
    front: Seq<char>,
    version: Seq<char>,
    back: Seq<char>,
    m: TextRule,
)
    requires
        forall|i: int| 0 <= i < front.len() ==> !('0' <= #[trigger] front[i] <= '9'),
        version.len() > 0 ==> '0' <= version[0] <= '9',
        forall|i: int|
            0 <= i < version.len() ==> '0' <= #[trigger] version[i] <= '9' || version[i] == '.',
        back.len() > 0 ==> !('0' <= back[0] <= '9') && back[0] != '.',
        version.len() == 0 ==> back.len() == 0,
    ensures
        vendor_system(front + version + back, m) == if m.id@ == "vc.android"@ && version.len()
            > 0 {
            "Android "@ + version
        } else {
            m.os@
        },
{
    let v = front + version + back;
    lemma_lead_is(v, Class::NonDigit, front.len() as int);
    let rest = v.skip(front.len() as int);
    assert(rest =~= version + back);
    lemma_lead_is(rest, Class::Decimal, version.len() as int);
    assert(rest.take(version.len() as int) =~= version);
}

/// A DHCP parameter list speaks through its rule: in full where it is the rule's, and with
/// half the weight and no more than support where it is only near to it.
pub proof fn law_parameter_list_speaks(d: DeviceView, r: Rules, t: u64, f: Fades, s: Shape)
    requires
        d.dhcp_fp.len() > 0,
        list_match(r.dhcp_fp@, d.dhcp_fp) is Some,
    ensures
        exists|i: int|
            0 <= i < signal_list(d, r, t, f, s).len() && {
                let x = #[trigger] signal_list(d, r, t, f, s)[i];
                let m = list_match(r.dhcp_fp@, d.dhcp_fp).unwrap();
                &&& x.source == "dhcp55"@
                &&& x.brand == m.brand@ && x.os == m.os@ && x.dtype == m.dtype@
                &&& x.model.len() == 0 && x.platform.len() == 0 && x.age == 0
                &&& m.value@ == d.dhcp_fp ==> x.detail == d.dhcp_fp && x.kind == m.kind@
                    && x.weight == Weight::Whole(m.weight as i64)
                &&& m.value@ != d.dhcp_fp ==> x.detail == d.dhcp_fp + " ~"@ && x.kind == "weak"@
                    && x.weight == Weight::Half(m.weight)
            },
{
    lemma_sources_differ();
    let v = signal_list(d, r, t, f, s);
    let x = list_sigs(d, r)[0];
    assert(list_sigs(d, r).contains(x));
    lemma_list_has(d, r, t, f, s, x);
    let i = choose|i: int| 0 <= i < v.len() && v[i] == x;
    assert(v[i] == x);
}

proof fn lemma_port_has(v: Seq<u16>, rs: Seq<PortRule>, n: int, i: int) -> (x: SigView)
    requires
        0 <= i < n <= v.len(),
        port_match(rs, v[i]) is Some,
    ensures
        port_sigs(v, rs, n).contains(x),
        x == crate::score::port_sig(v[i], port_match(rs, v[i]).unwrap()),
    decreases n,
{
    let before = port_sigs(v, rs, n - 1);
    let last = match port_match(rs, v[n - 1]) {
        Some(m) => seq![crate::score::port_sig(v[n - 1], m)],
        None => Seq::empty(),
    };
    if i == n - 1 {
        let x = last[0];
        lemma_in(before, last, x);
        x
    } else {
        let x = lemma_port_has(v, rs, n - 1, i);
        lemma_in(before, last, x);
        x
    }
}

/// Every open port speaks through the first rule about it.
pub proof fn law_open_port_speaks(d: DeviceView, r: Rules, t: u64, f: Fades, s: Shape, k: int)
    requires
        0 <= k < d.open_ports.len(),
        port_match(r.port@, d.open_ports[k]) is Some,
    ensures
        exists|i: int|
            0 <= i < signal_list(d, r, t, f, s).len() && {
                let x = #[trigger] signal_list(d, r, t, f, s)[i];
                let m = port_match(r.port@, d.open_ports[k]).unwrap();
                &&& x.source == "port"@
                &&& x.detail == dec(d.open_ports[k] as nat) + "/tcp"@
                &&& x.brand == m.brand@ && x.os == m.os@ && x.dtype == m.dtype@
                &&& x.kind == m.kind@ && x.platform == m.platform@
                &&& x.model.len() == 0 && x.age == 0
                &&& x.weight == Weight::Whole(m.weight as i64)
            },
{
    lemma_sources_differ();
    let v = signal_list(d, r, t, f, s);
    let x = lemma_port_has(d.open_ports, r.port@, d.open_ports.len() as int, k);
    lemma_list_has(d, r, t, f, s, x);
    let i = choose|i: int| 0 <= i < v.len() && v[i] == x;
    assert(v[i] == x);
}

/// Every rule about the way of asking that fits speaks, under its description or else its
/// mark.
pub proof fn law_way_of_asking_speaks(d: DeviceView, r: Rules, t: u64, f: Fades, s: Shape, k: int)
    requires
        0 <= k < r.stack@.len(),
        stack_hit(r.stack@[k], s),
    ensures
        exists|i: int|
            0 <= i < signal_list(d, r, t, f, s).len() && {
                let x = #[trigger] signal_list(d, r, t, f, s)[i];
                let m = r.stack@[k];
                &&& x.source == "stack"@ && x.kind == "stack"@
                &&& m.desc@.len() > 0 ==> x.detail == m.desc@
                &&& m.desc@.len() == 0 ==> x.detail == m.id@
                &&& x.brand == m.brand@ && x.os == m.os@ && x.dtype == m.dtype@
                &&& x.model.len() == 0 && x.platform.len() == 0 && x.age == 0
                &&& x.weight == Weight::Whole(m.weight as i64)
            },
{
    let v = signal_list(d, r, t, f, s);
    let p = |r: StackRule| stack_hit(r, s);
    let h = stack_hits(r.stack@, s);
    assert(h.contains(r.stack@[k]));
    let j = choose|j: int| 0 <= j < h.len() && h[j] == r.stack@[k];
    let w = stack_sigs(r.stack@, s);
    let x = w[j];
    assert(w.contains(x));
    let own = forwarded(own_sigs(d, r, t, f), r.forwarder);
    lemma_in(own, w, x);
    lemma_in(own + w, oui_sigs(d, r), x);
    let i = choose|i: int| 0 <= i < v.len() && v[i] == x;
    assert(v[i] == x);
}

/// Whether a signal is what a count of hits of a rule about names weighs: the rule's weight
/// and a tenth more for each hit, up to thirty, faded by so much.
pub open spec fn counts_hits(
    x: SigView,
    source: Seq<char>,
    m: DnsRule,
    h: Hit,
    t: u64,
    fade: u32,
) -> bool {
    &&& x.source == source
    &&& x.detail == rule_label(m) + seq![' ', '\u{d7}'] + dec(h.n as nat)
    &&& h.last <= t ==> x.age == t - h.last
    &&& h.last > t ==> x.age == 0
    &&& x.kind == m.kind@
    &&& x.model.len() == 0 && x.platform.len() == 0
    &&& x.weight matches Weight::Bonus { base, tenths, fade: by } && base == m.weight && by == fade
        && (h.n <= 30 ==> tenths == h.n) && (h.n > 30 ==> tenths == 30)
}

proof fn lemma_name_has(
    source: Seq<char>,
    m: Entries<Hit>,
    f: Seq<u32>,
    rs: Seq<DnsRule>,
    t: u64,
    n: int,
    i: int,
) -> (x: SigView)
    requires
        0 <= i < n <= m.len(),
        f[i] >= DECAY_MUTE,
        dns_named(rs, m[i].0) is Some,
    ensures
        name_sigs(source, m, f, rs, t, n).contains(x),
        counts_hits(x, source, dns_named(rs, m[i].0).unwrap(), m[i].1, t, f[i]),
        x.brand == dns_named(rs, m[i].0).unwrap().brand@,
        x.os == dns_named(rs, m[i].0).unwrap().os@,
        x.dtype == dns_named(rs, m[i].0).unwrap().dtype@,
    decreases n,
{
    let before = name_sigs(source, m, f, rs, t, n - 1);
    let last = match dns_named(rs, m[n - 1].0) {
        Some(r) if f[n - 1] >= DECAY_MUTE => seq![
            crate::score::name_sig(source, r, m[n - 1].1, t, f[n - 1]),
        ],
        _ => Seq::empty(),
    };
    if i == n - 1 {
        let x = last[0];
        lemma_in(before, last, x);
        x
    } else {
        let x = lemma_name_has(source, m, f, rs, t, n - 1, i);
        lemma_in(before, last, x);
        x
    }
}

proof fn lemma_kept_or_disowned(
    d: DeviceView,
    r: Rules,
    t: u64,
    f: Fades,
    s: Shape,
    x: SigView,
) -> (y: SigView)
    requires
        own_sigs(d, r, t, f).contains(x),
    ensures
        signal_list(d, r, t, f, s).contains(y),
        y.source == x.source && y.detail == x.detail && y.age == x.age && y.kind == x.kind,
        y.model == x.model && y.platform == x.platform && y.weight == x.weight,
        y.brand == x.brand && y.os == x.os && y.dtype == x.dtype || r.forwarder is Some
            && heartbeat_brands(own_sigs(d, r, t, f), own_sigs(d, r, t, f).len() as int).len()
            >= r.forwarder.unwrap().min_brands && y.brand.len() == 0 && y.os.len() == 0
            && y.dtype.len() == 0,
{
    let own = own_sigs(d, r, t, f);
    let w = forwarded(own, r.forwarder);
    let i = choose|i: int| 0 <= i < own.len() && own[i] == x;
    let y = w[i];
    assert(w.contains(y));
    lemma_in(w, stack_sigs(r.stack@, s), y);
    lemma_in(w + stack_sigs(r.stack@, s), oui_sigs(d, r), y);
    y
}

/// The hits of a rule about names speak for what the rule says, unless they have faded too
/// far; where the device asks on behalf of others, they are still listed but say nothing.
pub proof fn law_hits_speak(d: DeviceView, r: Rules, t: u64, f: Fades, s: Shape, k: int)
    ensures
        0 <= k < d.dns_hits.len() && f.dns@[k] >= DECAY_MUTE && dns_named(
            r.dns@,
            d.dns_hits[k].0,
        ) is Some ==> exists|i: int|
            0 <= i < signal_list(d, r, t, f, s).len() && {
                let x = #[trigger] signal_list(d, r, t, f, s)[i];
                let m = dns_named(r.dns@, d.dns_hits[k].0).unwrap();
                &&& counts_hits(x, "dns"@, m, d.dns_hits[k].1, t, f.dns@[k])
                &&& (x.brand == m.brand@ && x.os == m.os@ && x.dtype == m.dtype@) || (
                r.forwarder is Some && x.brand.len() == 0 && x.os.len() == 0 && x.dtype.len() == 0)
            },
        0 <= k < d.sni_hits.len() && f.sni@[k] >= DECAY_MUTE && dns_named(
            r.dns@,
            d.sni_hits[k].0,
        ) is Some ==> exists|i: int|
            0 <= i < signal_list(d, r, t, f, s).len() && {
                let x = #[trigger] signal_list(d, r, t, f, s)[i];
                let m = dns_named(r.dns@, d.sni_hits[k].0).unwrap();
                &&& counts_hits(x, "sni"@, m, d.sni_hits[k].1, t, f.sni@[k])
                &&& (x.brand == m.brand@ && x.os == m.os@ && x.dtype == m.dtype@) || (
                r.forwarder is Some && x.brand.len() == 0 && x.os.len() == 0 && x.dtype.len() == 0)
            },
{
    let v = signal_list(d, r, t, f, s);
    if 0 <= k < d.dns_hits.len() && f.dns@[k] >= DECAY_MUTE && dns_named(
        r.dns@,
        d.dns_hits[k].0,
    ) is Some {
        let x = lemma_name_has(
            "dns"@,
            d.dns_hits,
            f.dns@,
            r.dns@,
            t,
            d.dns_hits.len() as int,
            k,
        );
        lemma_own_parts(d, r, t, f, x);
        let y = lemma_kept_or_disowned(d, r, t, f, s, x);
        let i = choose|i: int| 0 <= i < v.len() && v[i] == y;
        assert(v[i] == y);
    }
    if 0 <= k < d.sni_hits.len() && f.sni@[k] >= DECAY_MUTE && dns_named(
        r.dns@,
        d.sni_hits[k].0,
    ) is Some {
        let x = lemma_name_has(
            "sni"@,
            d.sni_hits,
            f.sni@,
            r.dns@,
            t,
            d.sni_hits.len() as int,
            k,
        );
        lemma_own_parts(d, r, t, f, x);
        let y = lemma_kept_or_disowned(d, r, t, f, s, x);
        let i = choose|i: int| 0 <= i < v.len() && v[i] == y;
        assert(v[i] == y);
    }
}

proof fn lemma_peer_has(
    m: Entries<Hit>,
    f: Seq<u32>,
    rs: Seq<PeerRule>,
    t: u64,
    n: int,
    i: int,
) -> (x: SigView)
    requires
        0 <= i < n <= m.len(),
        f[i] >= DECAY_MUTE,
        peer_named(rs, m[i].0) is Some,
    ensures
        peer_sigs(m, f, rs, t, n).contains(x),
        x == crate::score::peer_sig(peer_named(rs, m[i].0).unwrap(), m[i].1, t, f[i]),
    decreases n,
{
    let before = peer_sigs(m, f, rs, t, n - 1);
    let last = match peer_named(rs, m[n - 1].0) {
        Some(r) if f[n - 1] >= DECAY_MUTE => seq![
            crate::score::peer_sig(r, m[n - 1].1, t, f[n - 1]),
        ],
        _ => Seq::empty(),
    };
    if i == n - 1 {
        let x = last[0];
        lemma_in(before, last, x);
        x
    } else {
        let x = lemma_peer_has(m, f, rs, t, n - 1, i);
        lemma_in(before, last, x);
        x
    }
}

/// The hits of a rule about far ends speak for what the rule says, with its weight faded,
/// unless they have faded too far.
pub proof fn law_far_ends_speak(d: DeviceView, r: Rules, t: u64, f: Fades, s: Shape, k: int)
    requires
        0 <= k < d.peer_hits.len(),
        f.peer@[k] >= DECAY_MUTE,
        peer_named(r.peer@, d.peer_hits[k].0) is Some,
    ensures
        exists|i: int|
            0 <= i < signal_list(d, r, t, f, s).len() && {
                let x = #[trigger] signal_list(d, r, t, f, s)[i];
                let m = peer_named(r.peer@, d.peer_hits[k].0).unwrap();
                let h = d.peer_hits[k].1;
                &&& x.source == "peer"@
                &&& x.detail == (if m.proto@.len() > 0 {
                    m.proto@
                } else {
                    "tcp/udp"@
                }) + seq!['/'] + dec(m.port as nat) + seq![' ', '\u{d7}'] + dec(h.n as nat)
                &&& h.last <= t ==> x.age == t - h.last
                &&& h.last > t ==> x.age == 0
                &&& x.brand == m.brand@ && x.os == m.os@ && x.dtype == m.dtype@
                &&& x.kind == m.kind@ && x.model.len() == 0 && x.platform.len() == 0
                &&& x.weight == Weight::Faded { base: m.weight, fade: f.peer@[k] }
            },
{
    lemma_sources_differ();
    let v = signal_list(d, r, t, f, s);
    let x = lemma_peer_has(d.peer_hits, f.peer@, r.peer@, t, d.peer_hits.len() as int, k);
    lemma_list_has(d, r, t, f, s, x);
    let i = choose|i: int| 0 <= i < v.len() && v[i] == x;
    assert(v[i] == x);
}

} // verus!
