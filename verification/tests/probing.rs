//! The port probe and the connection table.

use whohere::conns::{is_uninteresting, parse_line, pause, peer_event, MIN_PACKETS, MIN_PAUSE};
use whohere::event::Event;
use whohere::names::NameMap;
use whohere::portprobe::{
    asking, conclude, control_ip, greeting_line, http_identity, http_request, identity_of, note_answer,
    opening, service_banner, tasks, workers, Asking, Found, PORTS,
};

fn list(v: &[&str]) -> Vec<String> {
    v.iter().map(|s| s.to_string()).collect()
}

#[test]
fn parses_the_forward_tuple_only() {
    let l = "ipv4     2 udp      17 153 src=172.16.1.111 dst=114.55.107.162 \
             sport=16155 dport=12312 packets=6230 bytes=475480 \
             src=114.55.107.162 dst=172.16.1.111 sport=12312 dport=16155 packets=6100";
    let f = parse_line(l).unwrap();
    assert_eq!(f.src, "172.16.1.111");
    assert_eq!(f.proto, "udp");
    assert_eq!(f.dst, "114.55.107.162");
    assert_eq!(f.port, 12312, "必须取正向元组的 dport, 反向的是临时端口");
    assert_eq!(f.packets, 6230);
}

#[test]
fn multicast_and_broadcast_are_not_peers() {
    for ip in ["224.0.0.251", "239.255.255.250", "255.255.255.255", "127.0.0.1", "ff02::fb"] {
        assert!(is_uninteresting(ip), "{ip} 不该被当成长连对端");
    }
    for ip in ["114.55.107.162", "172.16.0.1", "8.8.8.8"] {
        assert!(!is_uninteresting(ip), "{ip} 是正常对端");
    }
}

#[test]
fn ignores_non_tcp_udp() {
    assert!(parse_line("ipv4 2 icmp 1 29 src=1.2.3.4 dst=5.6.7.8 type=8 code=0").is_none());
    assert!(parse_line("").is_none());
}

#[test]
fn a_connection_needs_all_its_fields() {
    let full = "ipv4 2 tcp 6 100 ESTABLISHED src=10.0.0.2 dst=1.2.3.4 sport=5 dport=443 packets=x";
    let f = parse_line(full).unwrap();
    assert_eq!(f.packets, 0);
    assert!(parse_line("ipv4 2 tcp 6 src=10.0.0.2 dst=1.2.3.4 dport=443").is_none());
    assert!(parse_line("ipv4 2 tcp 6 src=10.0.0.2 dst=1.2.3.4 dport=70000 packets=9").is_none());
    assert!(parse_line("ipv4 2 tcp 6 dst=1.2.3.4 dport=443 packets=9").is_none());
    assert!(parse_line("tcp 6").is_none());
}

#[test]
fn short_connections_are_no_peers() {
    let line = |n: u64, dst: &str| {
        format!("ipv4 2 tcp 6 100 X src=10.0.0.2 dst={dst} sport=5 dport=8883 packets={n}")
    };
    assert_eq!(MIN_PACKETS, 20);
    match peer_event(&line(20, "1.2.3.4")) {
        Some(Event::Peer { ip, proto, remote, port }) => {
            assert_eq!(ip, "10.0.0.2");
            assert_eq!(proto, "tcp");
            assert_eq!(remote, "1.2.3.4");
            assert_eq!(port, 8883);
        }
        _ => panic!("a long connection is reported"),
    }
    assert!(peer_event(&line(19, "1.2.3.4")).is_none());
    assert!(peer_event(&line(20, "224.0.0.251")).is_none());
    assert!(peer_event("nothing to see").is_none());
}

#[test]
fn http_identity_prefers_the_login_page_title() {
    // The server header of a router is a common one; the title names the maker.
    let r = b"HTTP/1.1 200 OK\r\nServer: uhttpd\r\nContent-Type: text/html\r\n\r\n<html><head><TITLE>\n  TP-LINK Wireless N Router WR841N \n</TITLE></head>";
    let id = http_identity(r);
    assert!(id.contains("uhttpd"), "{id}");
    assert!(id.contains("title=TP-LINK Wireless N Router WR841N"), "{id}");
    assert_eq!(id, "uhttpd | title=TP-LINK Wireless N Router WR841N");
}

#[test]
fn http_identity_picks_up_auth_realm_and_redirect() {
    let r = b"HTTP/1.1 401 Unauthorized\r\nServer: GoAhead-Webs\r\nWWW-Authenticate: Basic realm=\"DS-2CD2032-I\"\r\n\r\n";
    let id = http_identity(r);
    assert!(id.contains("GoAhead"), "{id}");
    assert!(id.contains("DS-2CD2032-I"), "{id}");

    let r2 = b"HTTP/1.1 302 Found\r\nLocation: /cgi-bin/luci\r\n\r\n";
    assert!(http_identity(r2).contains("->/cgi-bin/luci"), "{}", http_identity(r2));
}

#[test]
fn http_identity_is_empty_when_nothing_identifying() {
    assert_eq!(http_identity(b"HTTP/1.1 200 OK\r\n\r\n<html><body>hi</body></html>"), "");
}

#[test]
fn an_identity_is_cut_to_its_length() {
    let title = "x".repeat(500);
    let page = format!("HTTP/1.1 200 OK\r\nServer: a\r\n\r\n<title>{title}</title>");
    let id = identity_of(&page);
    assert!(id.starts_with("a | title=xxx"), "{id}");
    assert!(id.chars().count() <= 200);
    assert_eq!(http_identity(page.as_bytes()), id);
}

#[test]
fn greetings_are_read_by_their_first_line() {
    assert_eq!(
        greeting_line("  SSH-2.0-OpenSSH_9.2p1 Debian \r\nmore"),
        "SSH-2.0-OpenSSH_9.2p1 Debian"
    );
    assert_eq!(greeting_line(""), "");
    assert_eq!(greeting_line(&"y".repeat(300)).len(), 120);
    // Bytes that are no text are replaced, not dropped.
    assert_eq!(service_banner(b"SSH-\xff2.0\r\n"), "SSH-\u{fffd}2.0");
    assert_eq!(
        http_request("10.0.0.1"),
        "GET / HTTP/1.1\r\nHost: 10.0.0.1\r\nConnection: close\r\nAccept: */*\r\n\r\n"
    );
}

#[test]
fn two_services_are_asked() {
    assert!(asking(22) == Asking::Greeting);
    assert!(asking(80) == Asking::Page);
    for p in PORTS {
        assert!(p == 22 || p == 80 || asking(p) == Asking::Nothing);
    }
}

#[test]
fn the_control_address_is_no_device() {
    assert_eq!(control_ip(&list(&["10.0.0.2", "10.0.0.3"])), Some("10.0.0.253".to_string()));
    assert_eq!(control_ip(&list(&["10.0.0.253", "10.0.0.252"])), Some("10.0.0.251".to_string()));
    let full = list(&["10.0.0.249", "10.0.0.250", "10.0.0.251", "10.0.0.252", "10.0.0.253"]);
    assert_eq!(control_ip(&full), None);
    assert_eq!(control_ip(&list(&[])), None);
    assert_eq!(control_ip(&list(&["fe80::1"])), None);
    assert_eq!(control_ip(&list(&["10.0.0"])), None);
}

#[test]
fn every_port_of_every_address_is_tried() {
    let ips = list(&["10.0.0.2", "10.0.0.3"]);
    let ts = tasks(&ips, &Some("10.0.0.253".to_string()));
    assert_eq!(ts.len(), 3 * PORTS.len());
    assert_eq!(ts[0], ("10.0.0.2".to_string(), 22));
    assert_eq!(ts[PORTS.len()], ("10.0.0.3".to_string(), 22));
    assert_eq!(ts[ts.len() - 1], ("10.0.0.253".to_string(), 8443));
    assert_eq!(tasks(&ips, &None).len(), 2 * PORTS.len());
}

fn ports_of(e: &Event) -> (String, Vec<u16>, String) {
    match e {
        Event::Ports { ip, open, banner } => (ip.clone(), open.clone(), banner.clone()),
        _ => panic!("a port report was due"),
    }
}

fn state_of(e: &Event) -> (String, String) {
    match e {
        Event::SourceInfo { kind, state, info } => {
            assert_eq!(*kind, "ports");
            (state.to_string(), info.clone())
        }
        _ => panic!("a state was due"),
    }
}

#[test]
fn answers_at_the_control_address_are_the_networks_own() {
    let ips = list(&["10.0.0.2", "10.0.0.3"]);
    let control = Some("10.0.0.253".to_string());
    let mut found: NameMap<Found> = NameMap::new();
    note_answer(&mut found, "10.0.0.2", 80, "nginx".to_string());
    note_answer(&mut found, "10.0.0.2", 22, "SSH-2.0".to_string());
    note_answer(&mut found, "10.0.0.2", 53, String::new());
    note_answer(&mut found, "10.0.0.253", 53, String::new());
    let es = conclude(&ips, &control, found);
    assert_eq!(es.len(), 3);
    // Ports and banners come in the order of the ports.
    assert_eq!(
        ports_of(&es[0]),
        ("10.0.0.2".to_string(), vec![22, 80], "SSH-2.0 | nginx".to_string())
    );
    assert_eq!(ports_of(&es[1]), ("10.0.0.3".to_string(), vec![], String::new()));
    assert_eq!(state_of(&es[2]), ("done_redirected".to_string(), "2;53".to_string()));
}

#[test]
fn a_port_that_nearly_all_have_is_the_networks_own() {
    let ips = list(&["10.0.0.1", "10.0.0.2", "10.0.0.3", "10.0.0.4", "10.0.0.5"]);
    let mut found: NameMap<Found> = NameMap::new();
    for ip in &ips {
        note_answer(&mut found, ip, 53, String::new());
    }
    note_answer(&mut found, "10.0.0.5", 445, String::new());
    let es = conclude(&ips, &None, found);
    assert_eq!(es.len(), 6);
    assert_eq!(ports_of(&es[4]).1, vec![445]);
    assert_eq!(state_of(&es[5]), ("done_redirected".to_string(), "5;53".to_string()));

    // Four of five are not enough.
    let mut found: NameMap<Found> = NameMap::new();
    for ip in &ips[1..] {
        note_answer(&mut found, ip, 53, String::new());
    }
    let es = conclude(&ips, &None, found);
    assert_eq!(ports_of(&es[1]).1, vec![53]);
    assert_eq!(state_of(&es[5]), ("done".to_string(), "5".to_string()));
}

#[test]
fn a_probe_begins_with_its_size() {
    assert_eq!(state_of(&opening(12)), ("probing".to_string(), "12".to_string()));
    let mut sorted = PORTS.to_vec();
    sorted.sort_unstable();
    sorted.dedup();
    assert_eq!(sorted.len(), PORTS.len());
}

#[test]
fn the_table_is_not_read_all_the_time() {
    assert_eq!(MIN_PAUSE, 30);
    for (interval, r) in [(0, 30), (29, 30), (30, 30), (31, 31), (u64::MAX, u64::MAX)] {
        assert_eq!(pause(interval), r);
    }
}

#[test]
fn few_connections_are_tried_at_a_time() {
    for (n, r) in [(0, 1), (1, 1), (31, 31), (32, 32), (33, 32), (usize::MAX, 32)] {
        assert_eq!(workers(n), r);
    }
}
