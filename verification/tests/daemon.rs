//! What events change, and what is done when.

use whohere::daemon::{
    after, is_due, parse_command, rules_changed, schedule_save, Clock, Command, Daemon, Due, Task,
    LAST_MAX, SERVICES_MAX, UNMATCHED_MAX,
};
use whohere::event::Event;
use whohere::names::NameMap;
use whohere::rules::{DnsRule, PeerRule, Rules};
use whohere::store::{Device, Hit, Store};

const NOW: u64 = 1_700_000_000;
const MAC: &str = "30:9c:23:c1:dd:70";
const IP: &str = "10.0.0.5";

fn s(x: &str) -> String {
    x.to_string()
}

fn rules() -> Rules {
    let mut r = Rules::default();
    r.dns.push(DnsRule {
        id: s("mi"),
        suffix: s("mi.com"),
        contains: s(""),
        prefix: s(""),
        qtype: s(""),
        brand: s("Mi"),
        os: s(""),
        dtype: s(""),
        kind: s("heartbeat"),
        weight: 10,
    });
    r.peer.push(PeerRule {
        id: s("px"),
        proto: s("udp"),
        port: 12312,
        prefix: s(""),
        brand: s(""),
        os: s(""),
        dtype: s(""),
        kind: s(""),
        weight: 10,
    });
    r.reindex();
    r
}

fn daemon() -> Daemon {
    let mut st = Store::load(NameMap::new(), "/tmp/x", NOW);
    st.get(MAC, NOW).ipv4.push(s(IP));
    st.dirty = false;
    Daemon::new(st)
}

fn dev(d: &Daemon) -> &Device {
    d.st.devs.get(MAC).unwrap()
}

fn dns(ip: &str, domain: &str, qtype: &str, sport: u16) -> Event {
    Event::Dns { ip: s(ip), domain: s(domain), qtype: s(qtype), sport }
}

#[test]
fn a_query_that_fits_a_rule_is_a_hit() {
    let r = rules();
    let mut d = daemon();
    d.take(dns(IP, "api.mi.com", "A", 1000), &r, false, NOW);
    d.take(dns(IP, "api.mi.com", "A", 1001), &r, false, NOW + 5);
    let h = dev(&d).dns_hits.get("mi").unwrap();
    assert_eq!((h.n, h.last), (2, NOW + 5));
    assert_eq!(dev(&d).qtypes.get("A"), Some(&2));
    assert_eq!(dev(&d).dns_ports, vec![1000, 1001]);
    assert_eq!((d.counts.dns_events, d.counts.dns_matched, d.counts.dns_noowner), (2, 2, 0));
    // Written half a minute after the first hit, not later.
    assert_eq!(d.save_at, Some(NOW + 30));
    // Nobody's query is only counted.
    d.take(dns("10.0.0.77", "api.mi.com", "A", 1), &r, false, NOW);
    assert_eq!((d.counts.dns_events, d.counts.dns_matched, d.counts.dns_noowner), (3, 2, 1));
}

#[test]
fn names_without_a_rule_are_not_kept() {
    let r = rules();
    let mut d = daemon();
    d.take(dns(IP, "private.test", "A", 0), &r, false, NOW);
    assert!(dev(&d).unmatched.is_empty());
    assert_eq!(d.save_at, Some(NOW + 120));
    // Unless the user asks for it, and then only so many.
    d.take(dns(IP, "private.test", "A", 0), &r, true, NOW);
    d.take(dns(IP, "private.test", "A", 0), &r, true, NOW);
    assert_eq!(dev(&d).unmatched.get("private.test"), Some(&2));
    for i in 0..100 {
        d.take(dns(IP, &format!("n{i}.test"), "A", 0), &r, true, NOW);
    }
    assert_eq!(dev(&d).unmatched.len(), UNMATCHED_MAX);
}

#[test]
fn the_store_does_not_tell_names_apart() {
    let r = rules();
    let mut a = daemon();
    let mut b = daemon();
    for (x, y) in [("one.test", "two.test"), ("a.mi.com", "b.mi.com")] {
        a.take(dns(IP, x, "A", 7), &r, false, NOW);
        b.take(dns(IP, y, "A", 7), &r, false, NOW);
        let conn = |h: &str| Event::Conn { ip: s(IP), host: s(h), ua: s(""), via: "sni" };
        a.take(conn(x), &r, false, NOW);
        b.take(conn(y), &r, false, NOW);
    }
    let peer = |ip: &str| Event::Peer { ip: s(IP), proto: s("udp"), remote: s(ip), port: 12312 };
    a.take(peer("1.2.3.4"), &r, false, NOW);
    b.take(peer("5.6.7.8"), &r, false, NOW);
    let kept = |d: &Daemon| {
        let x = dev(d);
        let hits = |m: &NameMap<Hit>| -> Vec<(String, u32, u64)> {
            (0..m.len()).map(|i| (m.name_at(i).clone(), m.value_at(i).n, m.value_at(i).last)).collect()
        };
        (
            (hits(&x.dns_hits), hits(&x.sni_hits), hits(&x.peer_hits)),
            (x.unmatched.len(), x.dns_ports.clone(), x.dns_samples(), x.dns_pair_a4),
        )
    };
    assert_eq!(kept(&a), kept(&b));
    assert_eq!(kept(&a).0, (
        vec![(s("mi"), 1, NOW)],
        vec![(s("mi"), 1, NOW)],
        vec![(s("px"), 1, NOW)],
    ));
}

#[test]
fn pairs_of_queries_are_counted() {
    let r = rules();
    let mut d = daemon();
    d.take(dns(IP, "a.test", "A", 0), &r, false, NOW);
    d.take(dns(IP, "a.test", "AAAA", 0), &r, false, NOW + 2);
    assert_eq!((dev(&d).dns_pair_a4, dev(&d).dns_pair_https), (1, 0));
    d.take(dns(IP, "a.test", "A", 0), &r, false, NOW + 5);
    assert_eq!((dev(&d).dns_pair_a4, dev(&d).dns_pair_https), (1, 0));
    d.take(dns(IP, "a.test", "HTTPS", 0), &r, false, NOW + 5);
    d.take(dns(IP, "b.test", "A", 0), &r, false, NOW + 5);
    d.take(dns(IP, "b.test", "A", 0), &r, false, NOW + 5);
    d.take(dns(IP, "b.test", "SVCB", 0), &r, false, NOW + 5);
    assert_eq!((dev(&d).dns_pair_a4, dev(&d).dns_pair_https), (1, 2));
}

#[test]
fn the_last_queries_are_bounded() {
    let r = rules();
    let mut st = Store::load(NameMap::new(), "/tmp/x", NOW);
    for i in 0..1200u32 {
        let mac = format!("30:9c:23:c1:{:02x}:{:02x}", i / 256, i % 256);
        st.get(&mac, NOW).ipv4.push(format!("10.0.{}.{}", i / 256, i % 256));
    }
    let mut d = Daemon::new(st);
    let mut most = 0;
    for i in 0..1200u32 {
        d.take(dns(&format!("10.0.{}.{}", i / 256, i % 256), "a.test", "A", 0), &r, false, NOW);
        most = most.max(d.last.len());
    }
    assert_eq!(most, LAST_MAX + 1);
}

#[test]
fn every_event_finds_its_place() {
    let r = rules();
    let mut d = daemon();
    d.take(Event::Ports { ip: s(IP), open: vec![22], banner: s("SSH-2.0") }, &r, false, NOW);
    assert_eq!(d.save_at, Some(NOW + 10));
    d.take(Event::Ports { ip: s(IP), open: vec![], banner: s("") }, &r, false, NOW);
    assert_eq!((dev(&d).open_ports.len(), dev(&d).banner.as_str()), (0, "SSH-2.0"));

    d.take(Event::TcpFp { ip: s(IP), fp: s("64:") }, &r, false, NOW);
    assert_eq!(dev(&d).tcp_fp, "64:");

    d.take(
        Event::Peer { ip: s(IP), proto: s("udp"), remote: s("1.2.3.4"), port: 12312 },
        &r,
        false,
        NOW,
    );
    assert_eq!(dev(&d).peer_hits.get("px").map(|h| (h.n, h.last)), Some((1, NOW)));
    d.take(
        Event::Peer { ip: s(IP), proto: s("tcp"), remote: s("1.2.3.4"), port: 12312 },
        &r,
        true,
        NOW,
    );
    assert_eq!(dev(&d).unmatched.get("tcp/12312"), Some(&1));

    d.take(Event::Conn { ip: s(IP), host: s("x.mi.com"), ua: s("UA"), via: "http" }, &r, true, NOW);
    d.take(Event::Conn { ip: s(IP), host: s(""), ua: s("lamp"), via: "mqtt" }, &r, true, NOW);
    d.take(Event::Conn { ip: s(IP), host: s("z.test"), ua: s(""), via: "sni" }, &r, true, NOW);
    d.take(
        Event::Conn { ip: s("10.9.9.9"), host: s("z.test"), ua: s(""), via: "sni" },
        &r,
        true,
        NOW,
    );
    assert_eq!((dev(&d).http_ua.as_str(), dev(&d).mqtt_id.as_str()), ("UA", "lamp"));
    assert_eq!(dev(&d).sni_hits.get("mi").map(|h| h.n), Some(1));
    assert_eq!(dev(&d).unmatched.get("sni:z.test"), Some(&1));
    assert_eq!((d.counts.sniff_events, d.counts.sniff_matched, d.counts.sniff_noowner), (4, 1, 1));

    d.take(Event::Ssdp { ip: s(IP), server: s("UPnP") }, &r, false, NOW);
    assert_eq!(dev(&d).upnp_server, "UPnP");

    let many: Vec<String> = (0..40).map(|i| format!("_s{i}._tcp")).collect();
    d.take(Event::Mdns { ip: s(IP), name: s("tv"), model: s("M"), services: many }, &r, false, NOW);
    d.take(Event::Mdns { ip: s(IP), name: s(""), model: s(""), services: vec![] }, &r, false, NOW);
    assert_eq!((dev(&d).mdns_name.as_str(), dev(&d).mdns_model.as_str()), ("tv", "M"));
    assert_eq!(dev(&d).mdns_services.len(), SERVICES_MAX);
}

#[test]
fn an_exchange_introduces_a_device() {
    let r = rules();
    let mut d = daemon();
    let e = |ip: &str, host: &str| Event::Dhcp {
        mac: s("28:d1:27:1c:48:09"),
        ip: s(ip),
        host: s(host),
        vendor: s("v"),
        opts: s("1,3"),
    };
    d.take(e("10.0.0.9", "tv"), &r, false, NOW);
    d.take(e("fe80::1", ""), &r, false, NOW + 7);
    let x = d.st.devs.get("28:d1:27:1c:48:09").unwrap();
    assert_eq!((x.first_seen, x.last_seen), (NOW, NOW + 7));
    assert_eq!(x.ipv4, vec!["10.0.0.9"]);
    assert_eq!(
        (x.dhcp_name.as_str(), x.dhcp_vendor.as_str(), x.dhcp_fp.as_str()),
        ("tv", "v", "1,3")
    );
    assert_eq!(d.save_at, Some(NOW + 20));
}

#[test]
fn a_source_has_one_state() {
    let r = rules();
    let mut d = daemon();
    d.set_source("dns", "disabled", s(""));
    d.set_source("sniff", "no_iface", s(""));
    d.take(Event::SourceInfo { kind: "dns", state: "listening", info: s("x") }, &r, false, NOW);
    assert_eq!(d.sources.len(), 2);
    assert_eq!(d.sources[0].kind, "sniff");
    assert_eq!((d.sources[1].state.as_str(), d.sources[1].info.as_str()), ("listening", "x"));
}

#[test]
fn saving_is_never_put_off() {
    let mut at = None;
    schedule_save(&mut at, 100);
    schedule_save(&mut at, 200);
    assert_eq!(at, Some(100));
    schedule_save(&mut at, 50);
    assert_eq!(at, Some(50));
    let mut d = daemon();
    assert!(!d.save_due(NOW));
    d.save_at = Some(NOW + 1);
    assert!(!d.save_due(NOW));
    assert_eq!(d.save_at, Some(NOW + 1));
    assert!(d.save_due(NOW + 1));
    assert_eq!(d.save_at, None);
    assert_eq!(after(5, 30), 35);
    assert!(is_due(100, 70, 30));
    assert!(!is_due(99, 70, 30));
    assert!(!is_due(60, 70, 30));
    assert!(is_due(60, 70, 0));
}

#[test]
fn a_conclusion_is_announced_once() {
    let mut d = daemon();
    assert_eq!(d.announce(MAC, 0, "Mi", "", "", ""), None);
    assert_eq!(d.announce(MAC, 60, "Mi", "", "", ""), Some("new"));
    assert_eq!(d.announce(MAC, 70, "Mi", "", "", ""), None);
    assert_eq!(d.announce(MAC, 70, "Mi", "Android", "", ""), Some("changed"));
    assert_eq!(d.announced.get(MAC).map(|x| x.as_str()), Some("Mi|Android||"));
}

#[test]
fn commands_are_read() {
    assert!(matches!(parse_command("forget 309C23C1DD70"), Some(Command::Forget(m)) if m == MAC));
    assert!(
        matches!(
            parse_command("note 30:9c:23:c1:dd:70 my tv"),
            Some(Command::Note(m, n)) if m == MAC && n == "my tv"
        )
    );
    assert!(
        matches!(
            parse_command("note 30:9c:23:c1:dd:70 "),
            Some(Command::Note(_, n)) if n.is_empty()
        )
    );
    assert!(parse_command("note 30:9c:23:c1:dd:70").is_none());
    assert!(parse_command("forget nobody").is_none());
    assert!(parse_command("forget").is_none());
    assert!(matches!(parse_command("scan now"), Some(Command::Scan)));
    assert!(matches!(parse_command("probe"), Some(Command::Probe)));
    assert!(matches!(parse_command("save"), Some(Command::Save)));
    assert!(parse_command("Save").is_none());
    assert!(parse_command("").is_none());
}

#[test]
fn commands_are_obeyed() {
    let mut d = daemon();
    assert!(d.obey(Command::Note(s(MAC), s("tv")), false, NOW) == Task::Nothing);
    assert_eq!(dev(&d).note, "tv");
    assert!(d.st.dirty);
    d.st.dirty = false;
    assert!(d.obey(Command::Forget(s(MAC)), false, NOW) == Task::Nothing);
    assert!(d.st.dirty && d.st.devs.is_empty());
    assert!(d.obey(Command::Scan, false, NOW) == Task::Scan);
    assert!(d.obey(Command::Save, false, NOW) == Task::Save);
    assert!(d.obey(Command::Probe, true, NOW) == Task::Probe);
    assert!(d.sources.is_empty());
    // Without consent, it is only noted that the probe is disabled.
    assert!(d.obey(Command::Probe, false, NOW) == Task::Nothing);
    assert_eq!((d.sources[0].kind.as_str(), d.sources[0].state.as_str()), ("ports", "disabled"));
}

#[test]
fn recurring_work_comes_due() {
    let mut c = Clock::new(NOW);
    let none = Due { refresh: false, rules: false, persist: false };
    assert!(c.tick(NOW, 30, 1800) == Due { refresh: true, ..none });
    assert!(c.tick(NOW, 30, 1800) == none);
    assert!(c.tick(NOW + 29, 30, 1800) == none);
    assert!(c.tick(NOW + 60, 30, 1800) == Due { refresh: true, rules: true, persist: false });
    assert!(c.tick(NOW + 1800, 30, 1800) == Due { refresh: true, rules: true, persist: true });
    assert!(c == Clock { refresh: NOW + 1800, rules: NOW + 1800, persist: NOW + 1800 });
}

#[test]
fn devices_are_forgotten_noted_and_listed() {
    let mut st = Store::load(NameMap::new(), "/tmp/x", NOW);
    for (mac, online, seen) in [("a", false, 5), ("b", true, 1), ("c", true, 9), ("d", false, 5)] {
        let d = st.get(mac, NOW);
        d.online = online;
        d.last_seen = seen;
        d.ipv4.push(format!("10.0.0.{seen}"));
    }
    st.get("c", NOW).ipv4.clear();
    let order: Vec<&str> = st.listing().iter().map(|i| st.devs.name_at(*i).as_str()).collect();
    assert_eq!(order, vec!["c", "b", "a", "d"]);
    assert_eq!(st.online_count(), 2);
    assert_eq!(st.probe_targets(), vec!["10.0.0.1"]);
    st.set_note("a", s("hers"), NOW);
    assert_eq!(st.devs.get("a").unwrap().note, "hers");
    st.dirty = false;
    assert!(!st.forget("zz"));
    assert!(!st.dirty);
    assert!(st.forget("a"));
    assert!(st.dirty);
    assert_eq!(st.devs.len(), 3);
    assert!(st.devs.get("a").is_none());
}

#[test]
fn fresh_rules_are_taken_when_they_differ() {
    let a = rules();
    let mut b = rules();
    assert!(!rules_changed(&a, &b));
    b.version = 5;
    assert!(rules_changed(&a, &b));
    b.version = 0;
    b.dns.clear();
    assert!(rules_changed(&a, &b));
}
