//! Announcements, exchanges, logs and settings.

use whohere::config::{load_cfg, probe_source};
use whohere::dhcpev::{handle, make_exchange, Splitter, MAX_OBJECT, UBUS_EVENT};
use whohere::discover::{
    ask_due, dns_query, gather, local_v4, mdns_event, mdns_queries, parse_mdns, read_v4,
    ssdp_event, ssdp_server, ASK_AGAIN, M_SEARCH,
};
use whohere::dnsmsg::{first_question, Record, T_A, T_PTR, T_SRV, T_TXT};
use whohere::event::Event;
use whohere::names::NameMap;
use whohere::tail::{outgrown, Tail, MAX_LINE};

fn s(x: &str) -> String {
    x.to_string()
}

fn rec(name: &str, rtype: u16, target: &str, txt: &[&str]) -> Record {
    Record {
        name: s(name),
        rtype,
        target: s(target),
        txt: txt.iter().map(|x| s(x)).collect(),
        addr: s(""),
    }
}

#[test]
fn announcements_tell_name_model_and_services() {
    let f = gather(&vec![
        rec("_services._dns-sd._udp.local", T_PTR, "_airplay._tcp.local", &[]),
        rec("_airplay._tcp.local", T_PTR, "tv._airplay._tcp.local", &[]),
        rec("_airplay._tcp.local", T_PTR, "tv._airplay._tcp.local", &[]),
        rec("tv._raop._tcp.local", T_SRV, "Living-Room.local", &[]),
        rec("x", T_TXT, "", &["flag", "MODEL = AppleTV6,2 ", "md=other", "fn=Named"]),
        rec("later.local", T_A, "", &[]),
    ]);
    assert_eq!(f.name, "living-room");
    assert_eq!(f.model, "AppleTV6,2");
    assert_eq!(f.services, vec!["_airplay._tcp", "_raop._tcp"]);
    // The name may come from the friendly name or from an address record.
    assert_eq!(gather(&vec![rec("x", T_TXT, "", &["fn=Kitchen", "ty="])]).name, "kitchen");
    assert_eq!(gather(&vec![rec("Lamp.local", T_A, "", &[])]).name, "lamp");
    assert_eq!(gather(&vec![rec("lamp.lan", T_A, "", &[])]).name, "");
    assert_eq!(gather(&vec![]).services.len(), 0);
}

#[test]
fn an_empty_announcement_is_not_reported() {
    let mut m = vec![0, 0, 0x84, 0, 0, 0, 0, 1, 0, 0, 0, 0];
    m.extend_from_slice(b"\x04lamp\x05local\x00");
    m.extend_from_slice(&[0, 1, 0, 1, 0, 0, 0, 60, 0, 4, 10, 0, 0, 9]);
    assert_eq!(parse_mdns(&m).name, "lamp");
    match mdns_event(s("10.0.0.9"), &m) {
        Some(Event::Mdns { ip, name, model, services }) => {
            assert_eq!((ip.as_str(), name.as_str(), model.as_str()), ("10.0.0.9", "lamp", ""));
            assert!(services.is_empty());
        }
        _ => panic!("an announcement is reported"),
    }
    assert!(mdns_event(s("10.0.0.9"), &dns_query("a.local")).is_none());
}

#[test]
fn queries_read_back() {
    let q = dns_query("_miio._udp.local");
    assert_eq!(&q[..12], &[0, 0, 0, 0, 0, 1, 0, 0, 0, 0, 0, 0]);
    assert_eq!(&q[q.len() - 5..], &[0, 0, 12, 0, 1]);
    let asked: Vec<String> = mdns_queries().iter().map(|m| first_question(m).unwrap()).collect();
    assert_eq!(
        asked,
        vec![
            "_services._dns-sd._udp.local",
            "_device-info._tcp.local",
            "_airplay._tcp.local",
            "_googlecast._tcp.local",
            "_ipp._tcp.local",
            "_miio._udp.local",
        ]
    );
    assert!(M_SEARCH.starts_with("M-SEARCH * HTTP/1.1\r\nHOST: 239.255.255.250:1900\r\n"));
    assert!(M_SEARCH.ends_with("MX: 2\r\nST: ssdp:all\r\n\r\n"));
}

#[test]
fn discovery_answers_name_their_server() {
    assert_eq!(
        ssdp_server("NOTIFY * HTTP/1.1\r\nSERVER:  Linux UPnP/1.0 \r\n").as_deref(),
        Some("Linux UPnP/1.0")
    );
    assert_eq!(ssdp_server("x\nUser-Agent: a:b\nServer: c").as_deref(), Some("a:b"));
    // The first such line decides, also where it is empty.
    assert_eq!(ssdp_server("server:\r\nuser-agent: x"), None);
    assert_eq!(ssdp_server("nothing"), None);
    match ssdp_event(s("10.0.0.9"), b"server: \xff1\r\n") {
        Some(Event::Ssdp { ip, server }) => {
            assert_eq!((ip.as_str(), server.as_str()), ("10.0.0.9", "\u{fffd}1"))
        }
        _ => panic!("an answer is reported"),
    }
    assert!(ssdp_event(s("10.0.0.9"), b"").is_none());
}

#[test]
fn own_addresses_are_listed_once() {
    let shown = "1: lo    inet 127.0.0.1/8 scope host lo\n\
                 3: br-lan    inet 10.0.0.1/24 brd 10.0.0.255 scope global br-lan\n\
                 2: eth1    inet 1.2.3.4/20 brd 1.2.15.255 scope global eth1\n\
                 4: br-lan    inet 10.0.0.1/24 scope global br-lan\n\
                 5: x    inet 010.0.0.1/24\n6: y    inet\n";
    assert_eq!(local_v4(shown), vec![0x01020304, 0x0a000001]);
    let c = |x: &str| -> Vec<char> { x.chars().collect() };
    assert_eq!(read_v4(&c("10.0.0.1")), Some(0x0a000001));
    assert_eq!(read_v4(&c("10.0.0.01")), None);
    assert_eq!(read_v4(&c("10.0.0.256")), None);
    assert_eq!(read_v4(&c("10.0.0")), None);
    assert_eq!(read_v4(&c("+1.0.0.1")), None);
}

#[test]
fn exchanges_are_split_and_read() {
    let mut sp = Splitter::new();
    assert_eq!(sp.push_line("{ \"whohere.dhcp\": {"), None);
    assert_eq!(sp.push_line("  \"mac\": \"30:9C:23:C1:DD:70\","), None);
    assert_eq!(sp.push_line("  \"ip\": \"10.0.0.5\", \"host\": \"Redmi\","), None);
    let whole = sp.push_line("  \"vendor\": \"v\", \"opts\": \"1,3\" } }").unwrap();
    match handle(&whole) {
        Some(Event::Dhcp { mac, ip, host, vendor, opts }) => {
            assert_eq!(mac, "30:9c:23:c1:dd:70");
            assert_eq!(
                (ip.as_str(), host.as_str(), vendor.as_str(), opts.as_str()),
                ("10.0.0.5", "Redmi", "v", "1,3")
            );
        }
        _ => panic!("an exchange is reported"),
    }
    // The next object starts afresh.
    assert_eq!(sp.push_line(""), None);
    assert_eq!(sp.push_line("{}").as_deref(), Some("{}"));
    // What grows too long is dropped.
    assert_eq!(sp.push_line(&format!("{{{}", "x".repeat(MAX_OBJECT))), None);
    assert_eq!(sp.push_line("{}").as_deref(), Some("{}"));
    assert_eq!(UBUS_EVENT, "whohere.dhcp");
}

#[test]
fn exchanges_need_a_hardware_address() {
    assert!(handle("{\"whohere.dhcp\":{\"mac\":\"nope\"}}").is_none());
    assert!(handle("{\"whohere.dhcp\":{\"ip\":\"10.0.0.5\"}}").is_none());
    assert!(handle("{\"other\":{}}").is_none());
    assert!(handle("[1,2]").is_none());
    assert!(handle("{").is_none());
    match handle("{\"whohere.dhcp\":{\"mac\":\"309c23c1dd70\",\"ip\":7}}") {
        Some(Event::Dhcp { mac, ip, .. }) => {
            assert_eq!((mac.as_str(), ip.as_str()), ("30:9c:23:c1:dd:70", ""))
        }
        _ => panic!("an exchange is reported"),
    }
    assert!(make_exchange("", s(""), s(""), s(""), s("")).is_none());
    assert!(make_exchange("309c23c1dd70", s(""), s(""), s(""), s("")).is_some());
}

#[test]
fn a_log_is_read_from_its_end_on() {
    let mut t = Tail::new(Some((100, 7)));
    assert_eq!((t.pos, t.ino), (100, 7));
    assert_eq!(t.observe(100, 7), None);
    assert_eq!(t.observe(110, 7), Some(100));
    assert_eq!(t.read_lines(b"one\r\ntwo  \nthr"), vec!["one", "two"]);
    assert_eq!(t.pos, 114);
    assert_eq!(t.read_lines(b"ee\n"), vec!["three"]);
    // A shorter file was cut, another file was rotated in: both start afresh.
    assert_eq!(t.read_lines(b"rest"), Vec::<String>::new());
    assert_eq!(t.observe(5, 7), Some(0));
    assert_eq!((t.pos, t.buf.as_str()), (0, ""));
    t.read_lines(b"rest");
    assert_eq!(t.observe(4, 8), Some(0));
    assert_eq!((t.pos, t.ino, t.buf.as_str()), (0, 8, ""));
    assert_eq!(Tail::new(None).observe(0, 0), None);
    t.read_lines(b"x");
    t.truncate();
    assert_eq!((t.pos, t.buf.as_str()), (0, ""));
    assert!(outgrown(2049 * 1024, 2048));
    assert!(!outgrown(2048 * 1024, 2048));
    assert!(!outgrown(u64::MAX, 0));
}

#[test]
fn a_log_may_be_read_in_pieces() {
    let log = "one\n\n  two \r\nthree\nhalf";
    let whole = Tail::new(None).feed_text(log);
    for cut in 0..=log.len() {
        let mut t = Tail::new(None);
        let mut lines = t.feed_text(&log[..cut]);
        lines.append(&mut t.feed_text(&log[cut..]));
        assert_eq!(lines, whole, "cut at {cut}");
        assert_eq!(t.buf, "half");
    }
}

#[test]
fn endless_lines_are_dropped() {
    let mut t = Tail::new(None);
    assert_eq!(t.feed_text(&"x".repeat(MAX_LINE)), Vec::<String>::new());
    assert_eq!(t.buf.len(), MAX_LINE);
    assert_eq!(t.feed_text("x"), Vec::<String>::new());
    assert_eq!(t.buf.len(), 0);
    assert_eq!(t.feed_text("a\n\nb\n"), vec!["a", "", "b"]);
    // Bytes that are no text are replaced.
    assert_eq!(t.read_lines(b"\xff\n"), vec!["\u{fffd}"]);
}

#[test]
fn settings_have_defaults_and_floors() {
    let mut m: NameMap<String> = NameMap::new();
    let c = load_cfg(&m);
    assert!(c.enabled && c.mdns && c.sniff && c.conns && c.ssdp);
    assert!(!c.port_probe && !c.keep_unmatched);
    assert_eq!(c.dns_source, "auto");
    assert_eq!(c.dns_log, "/tmp/whohere-dns.log");
    assert_eq!(c.singbox_log, "/var/log/sing-box.log");
    assert_eq!(c.dnstap_socket, "/tmp/whohere-dnstap.sock");
    assert_eq!(c.db, "/etc/whohere/devices.json");
    assert_eq!(c.rules, "/usr/share/whohere/rules.json");
    assert_eq!(c.oui_db, "/usr/share/whohere/oui.txt");
    assert_eq!((c.persist_interval, c.refresh_interval, c.offline_after), (1800, 30, 600));
    assert_eq!((c.max_age, c.evidence_halflife, c.dns_log_max_kb), (30 * 86400, 7 * 86400, 2048));
    assert_eq!(probe_source(&c, true, true), "dnsmasq_log");
    assert_eq!(probe_source(&c, false, true), "singbox_log");
    assert_eq!(probe_source(&c, false, false), "dnstap");

    for (k, v) in [
        ("enabled", "0\n"),
        ("port_probe", "yes\n"),
        ("mdns", "maybe"),
        ("refresh_interval", "1\n"),
        ("max_age", "7200"),
        ("evidence_halflife", "0"),
        ("offline_after", "soon"),
        ("db", " /tmp/d.json \n"),
        ("dns_source", "dnstap"),
    ] {
        m.insert(s(k), s(v));
    }
    let c = load_cfg(&m);
    assert!(!c.enabled && c.port_probe && c.mdns);
    assert_eq!(
        (c.refresh_interval, c.max_age, c.evidence_halflife, c.offline_after),
        (5, 7200, 0, 600)
    );
    assert_eq!(c.db, "/tmp/d.json");
    assert_eq!(probe_source(&c, true, true), "dnstap");
}

#[test]
fn quiet_devices_are_asked_again() {
    assert_eq!(ASK_AGAIN, std::time::Duration::from_secs(1800).as_nanos());
    assert!(!ask_due(0));
    assert!(!ask_due(ASK_AGAIN));
    assert!(ask_due(ASK_AGAIN + 1));
}
