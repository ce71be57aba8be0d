//! Finding the rule that fits.

use whohere::names::NameMap;
use whohere::rules::{
    find_hit, find_hits, DnsRule, Forwarder, PeerRule, PortRule, Range, Rules, Shape, StackRule,
    TextRule,
};

fn s(x: &str) -> String {
    x.to_string()
}

fn dns(id: &str, suffix: &str, contains: &str, prefix: &str, qtype: &str) -> DnsRule {
    DnsRule {
        id: s(id),
        suffix: s(suffix),
        contains: s(contains),
        prefix: s(prefix),
        qtype: s(qtype),
        brand: s(""),
        os: s(""),
        dtype: s(""),
        kind: s(""),
        weight: 5,
    }
}

fn text(id: &str, mode: &str, value: &str) -> TextRule {
    TextRule {
        id: s(id),
        mode: s(mode),
        kind: s(""),
        value: s(value),
        brand: s(""),
        os: s(""),
        dtype: s(""),
        platform: s(""),
        weight: 5,
    }
}

fn peer(id: &str, proto: &str, port: u16, prefix: &str) -> PeerRule {
    PeerRule {
        id: s(id),
        proto: s(proto),
        port,
        prefix: s(prefix),
        brand: s(""),
        os: s(""),
        dtype: s(""),
        kind: s(""),
        weight: 5,
    }
}

fn with_dns(rules: Vec<DnsRule>) -> Rules {
    let mut r = Rules::default();
    r.dns = rules;
    r.reindex();
    r
}

fn id_of(r: &Rules, domain: &str, qtype: &str) -> String {
    r.match_dns(domain, qtype).map_or(s(""), |x| x.id.clone())
}

#[test]
fn the_longest_ending_wins() {
    let r = with_dns(vec![
        dns("com", "com", "", "", ""),
        dns("mi", "MI.com.", "", "", ""),
        dns("api", "api.mi.com", "", "", ""),
    ]);
    assert_eq!(id_of(&r, "x.api.mi.com", "A"), "api");
    assert_eq!(id_of(&r, "api.mi.com", "A"), "api");
    assert_eq!(id_of(&r, "www.mi.com", "A"), "mi");
    assert_eq!(id_of(&r, "xmi.com", "A"), "com");
    assert_eq!(id_of(&r, "mi.org", "A"), "");
}

#[test]
fn patterns_come_before_endings() {
    let r = with_dns(vec![
        dns("end", "wpad.lan", "", "", ""),
        dns("wpad", "", "", "wpad.", ""),
        dns("srv", "mirrors.test", "", "", "SRV"),
        dns("plain", "mirrors.test", "", "", ""),
        dns("bare", "", "", "", "TXT"),
        dns("sub", "", "telemetry", "", ""),
    ]);
    assert_eq!(id_of(&r, "wpad.lan", "A"), "wpad");
    assert_eq!(id_of(&r, "mywpad.com", "A"), "");
    assert_eq!(id_of(&r, "_http._tcp.mirrors.test", "srv"), "srv");
    assert_eq!(id_of(&r, "mirrors.test", "A"), "plain");
    // A query type alone fits nothing.
    assert_eq!(id_of(&r, "a.b", "TXT"), "");
    assert_eq!(id_of(&r, "eu.telemetry.test", "A"), "sub");
    assert_eq!(r.dns_by_id("srv").unwrap().label(), "mirrors.test");
    assert_eq!(r.dns_by_id("wpad").unwrap().label(), "wpad.*");
    assert_eq!(r.dns_by_id("sub").unwrap().label(), "*telemetry*");
    assert!(r.dns_by_id("none").is_none());
}

#[test]
fn texts_are_compared_without_case() {
    assert!(text("p", "prefix", "Red").hit("redmi-note"));
    assert!(!text("p", "prefix", "mi").hit("redmi-note"));
    assert!(text("e", "exact", "REDMI").hit("redmi"));
    assert!(!text("e", "exact", "redmi").hit("redmi-note"));
    assert!(text("c", "", "MI-N").hit("redmi-note"));
    // Letters beyond ASCII keep their case.
    assert!(!text("c", "", "É").hit("é"));
    let v = vec![text("a", "prefix", "re"), text("b", "", "note"), text("c", "exact", "x")];
    assert_eq!(find_hit(&v, "Redmi-Note").unwrap().id, "a");
    let ids: Vec<&str> = find_hits(&v, "Redmi-Note").iter().map(|r| r.id.as_str()).collect();
    assert_eq!(ids, vec!["a", "b"]);
    assert!(find_hit(&v, "y").is_none());
}

#[test]
fn every_kind_of_text_has_its_rules() {
    let mut r = Rules::default();
    r.hostname = vec![text("h1", "", "a"), text("h2", "", "b")];
    r.mdns_service = vec![text("sv", "", "a")];
    r.mdns_model = vec![text("mo", "", "a")];
    r.upnp = vec![text("up", "", "a")];
    r.dhcp_vendor = vec![text("ve", "", "a")];
    r.oui_brand = vec![text("ou", "", "a")];
    r.tcp = vec![text("tc", "", "a")];
    r.ua = vec![text("ua", "", "a")];
    r.banner = vec![text("ba", "", "a")];
    r.mqtt = vec![text("mq", "", "a")];
    assert_eq!(r.match_hostname("ab").len(), 2);
    assert_eq!(r.match_service("a").unwrap().id, "sv");
    assert_eq!(r.match_model("a").unwrap().id, "mo");
    assert_eq!(r.match_upnp("a").unwrap().id, "up");
    assert_eq!(r.match_vendor("a").unwrap().id, "ve");
    assert_eq!(r.match_oui_brand("a").unwrap().id, "ou");
    assert_eq!(r.match_tcp("a").unwrap().id, "tc");
    assert_eq!(r.match_ua("a")[0].id, "ua");
    assert_eq!(r.match_banner("a")[0].id, "ba");
    assert_eq!(r.match_mqtt("a")[0].id, "mq");
    assert!(r.match_mqtt("z").is_empty());
}

#[test]
fn peers_are_found_by_port_protocol_and_address() {
    let mut r = Rules::default();
    r.peer = vec![
        peer("udp", "udp", 12312, ""),
        peer("near", "", 8883, "47."),
        peer("any", "", 8883, ""),
    ];
    assert_eq!(r.match_peer("udp", 12312, "1.1.1.1").unwrap().id, "udp");
    assert!(r.match_peer("tcp", 12312, "1.1.1.1").is_none());
    assert_eq!(r.match_peer("tcp", 8883, "47.1.1.1").unwrap().id, "near");
    assert_eq!(r.match_peer("tcp", 8883, "48.1.1.1").unwrap().id, "any");
    assert_eq!(r.peer_by_id("near").unwrap().port, 8883);
    assert!(r.peer_by_id("far").is_none());
    r.port.push(PortRule {
        id: s("po"),
        kind: s(""),
        port: 445,
        brand: s(""),
        os: s(""),
        dtype: s(""),
        platform: s(""),
        weight: 5,
    });
    assert_eq!(r.match_port(445).unwrap().id, "po");
    assert!(r.match_port(446).is_none());
}

#[test]
fn parameter_lists_may_fit_nearly() {
    let mut r = Rules::default();
    r.dhcp_fp = vec![
        text("long", "", "1,3,6,15,119,252"),
        text("longer", "", "1,3,6,15,119,95,252,44"),
        text("short", "", "1,3"),
    ];
    assert_eq!(r.match_dhcp_fp("1,3").unwrap().id, "short");
    assert_eq!(r.match_dhcp_fp("1,3,6,15,119,95").unwrap().id, "longer");
    // Equally near: the first.
    assert_eq!(r.match_dhcp_fp("1,3,6,15,119,1").unwrap().id, "long");
    // Too little in common, or less than half.
    assert!(r.match_dhcp_fp("1,3,6,1").is_none());
    assert!(r.match_dhcp_fp("").is_none());
}

#[test]
fn shapes_are_told_apart() {
    let mut ratio: NameMap<Range> = NameMap::new();
    ratio.insert(s("HTTPS"), Range { lo: 10, hi: 100 });
    let stack = |min: u32, ratio: NameMap<Range>, spread: Option<Range>| StackRule {
        id: s("st"),
        desc: s(""),
        min_samples: min,
        ratio,
        port_spread: spread,
        pair_a4: None,
        pair_https: None,
        brand: s(""),
        os: s(""),
        dtype: s(""),
        weight: 5,
    };
    let shape = |samples: u32, https: i32, spread: Option<i32>| {
        let mut ratios: NameMap<i32> = NameMap::new();
        ratios.insert(s("HTTPS"), https);
        Shape { samples, ratios, spread, pair_a4: 0, pair_https: 0 }
    };
    let mut r = Rules::default();
    r.stack = vec![stack(20, ratio, None)];
    assert_eq!(r.match_stack(&shape(20, 10, None)).len(), 1);
    assert_eq!(r.match_stack(&shape(20, 100, None)).len(), 1);
    assert_eq!(r.match_stack(&shape(20, 9, None)).len(), 0);
    assert_eq!(r.match_stack(&shape(20, 101, None)).len(), 0);
    assert_eq!(r.match_stack(&shape(19, 50, None)).len(), 0);
    // Without a single query nothing fits; a spread that is unknown fits no range.
    r.stack = vec![stack(0, NameMap::new(), Some(Range { lo: 1, hi: 5 }))];
    assert_eq!(r.match_stack(&shape(0, 0, Some(3))).len(), 0);
    assert_eq!(r.match_stack(&shape(1, 0, Some(3))).len(), 1);
    assert_eq!(r.match_stack(&shape(1, 0, Some(6))).len(), 0);
    assert_eq!(r.match_stack(&shape(1, 0, None)).len(), 0);
    // A type that was never asked for has a share of zero.
    let mut ratio: NameMap<Range> = NameMap::new();
    ratio.insert(s("SRV"), Range { lo: 0, hi: 0 });
    r.stack = vec![stack(1, ratio, None)];
    assert_eq!(r.match_stack(&shape(1, 50, None)).len(), 1);
    r.stack[0].pair_a4 = Some(Range { lo: 1, hi: 2 });
    assert_eq!(r.match_stack(&shape(1, 50, None)).len(), 0);
    r.stack[0].pair_a4 = Some(Range { lo: 0, hi: 2 });
    r.stack[0].pair_https = Some(Range { lo: 1, hi: 2 });
    assert_eq!(r.match_stack(&shape(1, 50, None)).len(), 0);
}

#[test]
fn own_rules_come_first() {
    let mut builtin = Rules::default();
    builtin.version = 7;
    builtin.dns = vec![dns("b", "mi.com", "", "", ""), dns("b2", "", "", "wpad.", "")];
    builtin.hostname = vec![text("bh", "", "a")];
    builtin.upnp = vec![text("bu", "", "a")];
    builtin.forwarder = Some(Forwarder { dtype: s("GW"), weight: 8, min_brands: 2 });
    let mut local = Rules::default();
    local.version = 3;
    local.dns = vec![dns("l", "mi.com", "", "", ""), dns("l2", "", "", "wpad.", "")];
    local.hostname = vec![text("lh", "", "a")];
    local.upnp = vec![text("lu", "", "a")];
    let r = Rules::load(Some(builtin), Some(local));
    assert_eq!(id_of(&r, "x.mi.com", "A"), "l");
    assert_eq!(id_of(&r, "wpad.x", "A"), "l2");
    assert_eq!(r.match_upnp("a").unwrap().id, "lu");
    assert_eq!(r.match_hostname("a")[0].id, "lh");
    assert_eq!(r.match_hostname("a")[1].id, "bh");
    assert_eq!(r.dns.len(), 4);
    assert_eq!(r.version, 7);
    assert_eq!(r.forwarder.as_ref().unwrap().dtype, "GW");

    let mut local = Rules::default();
    local.version = 9;
    local.forwarder = Some(Forwarder { dtype: s("AP"), weight: 1, min_brands: 3 });
    let r = Rules::load(None, Some(local));
    assert_eq!(r.version, 9);
    assert_eq!(r.forwarder.as_ref().unwrap().dtype, "AP");
    assert_eq!(Rules::load(None, None).dns.len(), 0);
    assert_eq!(Rules::LOCAL, "/etc/whohere/rules.local.json");
}
