//! Queries, from messages, logs and streams.

use whohere::dnsmsg::{
    first_question, parse_records, read_labels, read_name, read_record, read_txt, T_A, T_PTR,
    T_SRV, T_TXT,
};
use whohere::dnstap::{
    dnstap_decode, fstrm_step, needed, pb_fields, varint, Expect, MAX_FRAME,
};
use whohere::dnswatch::{
    is_ipish, is_loopback, log_event, norm_qtype, parse_dnsmasq, to_event, Lookup, SingboxState,
    DEFAULT_LOG, REQUESTS_MAX,
};
use whohere::discover::dns_query;
use whohere::event::Event;

fn chars(x: &str) -> Vec<char> {
    x.chars().collect()
}

fn name_bytes(name: &str) -> Vec<u8> {
    let mut out = vec![];
    for label in name.split('.') {
        out.push(label.len() as u8);
        out.extend_from_slice(label.as_bytes());
    }
    out.push(0);
    out
}

fn record(name: &[u8], rtype: u16, data: &[u8]) -> Vec<u8> {
    let mut out = name.to_vec();
    out.extend_from_slice(&rtype.to_be_bytes());
    out.extend_from_slice(&[0, 1, 0, 0, 0, 60]);
    out.extend_from_slice(&(data.len() as u16).to_be_bytes());
    out.extend_from_slice(data);
    out
}

fn message(questions: u16, answers: u16, body: &[u8]) -> Vec<u8> {
    let mut out = vec![0, 0, 0x84, 0];
    out.extend_from_slice(&questions.to_be_bytes());
    out.extend_from_slice(&answers.to_be_bytes());
    out.extend_from_slice(&[0, 0, 0, 0]);
    out.extend_from_slice(body);
    out
}

#[test]
fn names_are_read_with_their_pointers() {
    let mut b = vec![0u8; 12];
    b.extend_from_slice(&name_bytes("Phone.local")); // at 12
    let at = b.len();
    b.extend_from_slice(&[1, b'x', 0xc0, 12]); // x.<12>
    assert_eq!(read_name(&b, 12), Some(("Phone.local".to_string(), at)));
    assert_eq!(read_name(&b, at), Some(("x.Phone.local".to_string(), at + 4)));
    assert_eq!(read_labels(&b, at).map(|(v, e)| (v.len(), e)), Some((3, at + 4)));
    // A name that points at itself is none, and neither is one that is cut off.
    let looped = [0xc0u8, 0];
    assert_eq!(read_name(&looped, 0), None);
    assert_eq!(read_name(&b[..at - 1], 12), None);
    assert_eq!(read_name(&[], 0), None);
    assert_eq!(read_name(&[0], 0), Some(("".to_string(), 1)));
    // Bytes that are no text are replaced.
    assert_eq!(read_name(&[1, 0xff, 0], 0), Some(("\u{fffd}".to_string(), 3)));
}

#[test]
fn questions_are_read() {
    let q = dns_query("_airplay._tcp.local");
    assert_eq!(first_question(&q).as_deref(), Some("_airplay._tcp.local"));
    assert_eq!(first_question(&message(0, 0, &[])), None);
    assert_eq!(first_question(&[0, 0]), None);
}

#[test]
fn a_query_reads_back_in_normal_form() {
    let long = "a".repeat(63);
    for (asked, read) in [
        ("Captive.Apple.COM", "captive.apple.com".to_string()),
        ("a", "a".to_string()),
        ("K\u{fc}che.Local", "k\u{fc}che.local".to_string()),
        (&format!("{long}.{long}.x"), format!("{long}.{long}.x")),
    ] {
        assert_eq!(first_question(&dns_query(asked)), Some(read));
    }
}

#[test]
fn records_are_read_by_their_type() {
    let host = name_bytes("tv.local");
    let mut srv = vec![0, 0, 0, 0, 0x1b, 0x58];
    srv.extend_from_slice(&host);
    let mut body = vec![];
    body.extend_from_slice(&record(&host, T_A, &[10, 0, 0, 9]));
    body.extend_from_slice(&record(&name_bytes("_googlecast._tcp.local"), T_PTR, &host));
    body.extend_from_slice(&record(&name_bytes("tv._googlecast._tcp.local"), T_SRV, &srv));
    body.extend_from_slice(&record(&host, T_TXT, b"\x05md=TV\x04a=b1"));
    let m = message(0, 4, &body);
    let rs = parse_records(&m);
    assert_eq!(rs.len(), 4);
    assert_eq!(
        (rs[0].rtype, rs[0].name.as_str(), rs[0].addr.as_str()),
        (T_A, "tv.local", "10.0.0.9")
    );
    assert_eq!((rs[1].rtype, rs[1].target.as_str()), (T_PTR, "tv.local"));
    assert_eq!((rs[2].rtype, rs[2].target.as_str()), (T_SRV, "tv.local"));
    assert_eq!(rs[3].txt, vec!["md=TV", "a=b1"]);
    // A cut message gives the records before the cut.
    assert_eq!(parse_records(&m[..m.len() - 1]).len(), 3);
    assert_eq!(parse_records(&[]).len(), 0);
    assert_eq!(
        read_record(&m, 12).map(|(r, end)| (r.rtype, end)),
        Some((T_A, 12 + host.len() + 14))
    );
    assert_eq!(read_txt(b"\x02ab\x00\x09cut"), vec!["ab"]);
}

#[test]
fn a_cut_message_keeps_its_first_records() {
    let host = name_bytes("tv.local");
    let mut question = host.clone();
    question.extend_from_slice(&[0, 1, 0, 1]);
    let mut body = question.clone();
    let mut ends = vec![];
    for i in 0..3u8 {
        body.extend_from_slice(&record(&[0xc0, 12], T_A, &[10, 0, 0, i]));
        ends.push(12 + body.len());
    }
    let m = message(1, 3, &body);
    let whole = parse_records(&m);
    assert_eq!(whole.len(), 3);
    for k in 0..m.len() + 1 {
        let part = parse_records(&m[..k]);
        assert_eq!(part.len(), ends.iter().filter(|e| **e <= k).count());
        for (a, b) in part.iter().zip(&whole) {
            assert_eq!((&a.name, a.rtype, &a.addr), (&b.name, b.rtype, &b.addr));
        }
    }
}

#[test]
fn dnsmasq_lines_are_read() {
    let line = "Jan 1 dnsmasq[1]: 40 172.16.0.5/52442 query[A] Captive.Apple.com from 172.16.0.5";
    let l = parse_dnsmasq(line).unwrap();
    assert_eq!(
        (l.ip.as_str(), l.domain.as_str(), l.qtype.as_str(), l.sport),
        ("172.16.0.5", "captive.apple.com", "A", 52442)
    );
    // Without the sender behind, the one in front is taken.
    let l = parse_dnsmasq("fe80::1/53 query[type=65] a.test.").unwrap();
    assert_eq!(
        (l.ip.as_str(), l.domain.as_str(), l.qtype.as_str(), l.sport),
        ("fe80::1", "a.test", "OTHER", 53)
    );
    let l = parse_dnsmasq("query[AAAA] a.test from 10.0.0.2").unwrap();
    assert_eq!((l.qtype.as_str(), l.sport), ("AAAA", 0));
    // The sender is the one at the end, also where the name asked for is `from`.
    let l = parse_dnsmasq("40 172.16.0.5/52442 query[A] from from 172.16.0.5").unwrap();
    assert_eq!(
        (l.ip.as_str(), l.domain.as_str(), l.qtype.as_str(), l.sport),
        ("172.16.0.5", "from", "A", 52442)
    );
    let l = parse_dnsmasq("172.16.0.6/52 query[A] from").unwrap();
    assert_eq!((l.ip.as_str(), l.domain.as_str(), l.sport), ("172.16.0.6", "from", 52));
    assert!(parse_dnsmasq("172.16.0.6/52 query[A] a.test from").is_none());
    assert!(parse_dnsmasq("reply a.test is 1.2.3.4").is_none());
    assert!(parse_dnsmasq("query[A] . from 10.0.0.2").is_none());
    assert!(parse_dnsmasq("query[A] a.test from host").is_none());
    assert!(parse_dnsmasq("query[A] a.test").is_none());
    assert!(parse_dnsmasq("").is_none());
    assert_eq!(norm_qtype(" https "), "HTTPS");
    assert_eq!(norm_qtype("DNSKEY"), "OTHER");
    assert!(is_ipish(&chars("fe80::1")));
    assert!(!is_ipish(&chars("")));
    assert!(!is_ipish(&chars("g::1")));
    assert!(is_loopback("127.0.0.1"));
    assert!(is_loopback("::1"));
    assert!(!is_loopback("128.0.0.1"));
    assert_eq!(DEFAULT_LOG, "/tmp/whohere-dns.log");
}

fn asked(sb: &mut SingboxState, line: &str) -> Option<(String, String, u16)> {
    sb.feed(line).map(|l| {
        assert_eq!(l.qtype, "");
        (l.ip, l.domain, l.sport)
    })
}

#[test]
fn singbox_lines_are_joined_by_their_request() {
    let mut sb = SingboxState::new();
    assert!(asked(&mut sb, "INFO [7 0ms] inbound: connection from 172.16.0.5:52341").is_none());
    assert_eq!(
        asked(&mut sb, "INFO [7 1ms] dns: exchange A.Test. IN A"),
        Some(("172.16.0.5".to_string(), "a.test".to_string(), 52341))
    );
    assert!(asked(&mut sb, "INFO [8 1ms] dns: exchange b.test IN A").is_none());
    assert!(asked(&mut sb, "INFO [9 0ms] inbound from [fe80::1]:53").is_none());
    assert_eq!(
        asked(&mut sb, "INFO [9 0ms] dns: lookup b.test"),
        Some(("fe80::1".to_string(), "b.test".to_string(), 53))
    );
    assert!(asked(&mut sb, "INFO [x 1ms] dns: exchange b.test").is_none());
    assert!(asked(&mut sb, "no request here").is_none());
}

#[test]
fn old_requests_are_forgotten() {
    let mut sb = SingboxState::new();
    for i in 0..=REQUESTS_MAX {
        assert!(asked(&mut sb, &format!("[{i} 0ms] inbound from 10.0.0.2:5")).is_none());
    }
    assert!(asked(&mut sb, "[0 1ms] dns: exchange a.test").is_none());
    assert!(asked(&mut sb, "[1 1ms] dns: exchange a.test").is_some());
    assert!(asked(&mut sb, &format!("[{REQUESTS_MAX} 1ms] dns: exchanged a.test")).is_some());
}

#[test]
fn log_lines_become_events() {
    let mut sb = SingboxState::new();
    let line = "10.0.0.2/99 query[A] a.test from 10.0.0.2";
    match log_event("dnsmasq_log", &mut sb, line) {
        Some(Event::Dns { ip, domain, qtype, sport }) => {
            assert_eq!(
                (ip.as_str(), domain.as_str(), qtype.as_str(), sport),
                ("10.0.0.2", "a.test", "A", 99)
            );
        }
        _ => panic!("a query is reported"),
    }
    assert!(log_event("singbox_log", &mut sb, line).is_none());
    assert!(log_event("dnsmasq_log", &mut sb, "query[A] a.test from 127.0.0.1").is_none());
    assert!(log_event("singbox_log", &mut sb, "[3 0ms] inbound from 10.0.0.2:5").is_none());
    assert!(log_event("singbox_log", &mut sb, "[3 0ms] dns: exchange a.test").is_some());
    assert!(to_event(None).is_none());
    let own = Lookup {
        ip: "::1".to_string(),
        domain: "a".to_string(),
        qtype: String::new(),
        sport: 0,
    };
    assert!(to_event(Some(own)).is_none());
}

#[test]
fn varints_are_read() {
    assert_eq!(varint(&[0x96, 0x01], 0), Some((150, 2)));
    assert_eq!(varint(&[0xff, 0x05], 1), Some((5, 2)));
    assert_eq!(varint(&[0x80], 0), None);
    assert_eq!(varint(&[], 0), None);
    assert_eq!(varint(&[0x80; 11], 0), None);
    assert_eq!(
        varint(&[0xff, 0xff, 0xff, 0xff, 0xff, 0xff, 0xff, 0xff, 0xff, 0x01], 0),
        Some((u64::MAX, 10))
    );
}

fn field(n: u8, data: &[u8]) -> Vec<u8> {
    let mut out = vec![n * 8 + 2, data.len() as u8];
    out.extend_from_slice(data);
    out
}

fn tapped(addr: &[u8], query: &[u8]) -> Vec<u8> {
    let mut msg = vec![8, 5]; // a number that is passed over
    msg.extend_from_slice(&field(4, addr));
    msg.extend_from_slice(&field(10, query));
    let mut out = vec![0x0d, 1, 2, 3, 4, 0x09, 1, 2, 3, 4, 5, 6, 7, 8]; // fixed widths
    out.extend_from_slice(&field(14, &msg));
    out
}

#[test]
fn tapped_queries_are_decoded() {
    let q = dns_query("a.test");
    assert_eq!(
        dnstap_decode(&tapped(&[10, 0, 0, 2], &q)),
        Some(("10.0.0.2".to_string(), "a.test".to_string()))
    );
    let mut v6 = [0u8; 16];
    v6[0] = 0xfe;
    v6[1] = 0x80;
    v6[15] = 1;
    assert_eq!(
        dnstap_decode(&tapped(&v6, &q)),
        Some(("fe80:0:0:0:0:0:0:1".to_string(), "a.test".to_string()))
    );
    assert_eq!(dnstap_decode(&tapped(&[10, 0], &q)), None);
    assert_eq!(dnstap_decode(&tapped(&[10, 0, 0, 2], &[])), None);
    assert_eq!(dnstap_decode(&[]), None);
    let b = [field(1, b"x"), field(2, b"yz"), field(1, b"w")].concat();
    assert_eq!(pb_fields(&b, &[1]), vec![(1, b"x".to_vec()), (1, b"w".to_vec())]);
    // A field that is longer than what is there ends the reading.
    assert_eq!(pb_fields(&b[..b.len() - 1], &[1]), vec![(1, b"x".to_vec())]);
    // So does a wire type that is not known.
    assert_eq!(pb_fields(&[0x0b, 0, 0x0a, 0], &[1]), vec![]);
}

#[test]
fn a_stream_is_opened_and_closed() {
    let mut e = Expect::Frame;
    assert_eq!(needed(e), 4);
    // A control frame: READY is answered with ACCEPT.
    let s = fstrm_step(e, &[0, 0, 0, 0]);
    e = s.next;
    assert!(e == Expect::ControlLen && s.reply.is_empty() && s.event.is_none());
    e = fstrm_step(e, &[0, 0, 0, 4]).next;
    assert_eq!(needed(e), 4);
    let s = fstrm_step(e, &[0, 0, 0, 4]);
    assert_eq!(s.reply, vec![0, 0, 0, 0, 0, 0, 0, 4, 0, 0, 0, 1]);
    e = s.next;
    assert!(e == Expect::Frame);
    // A data frame.
    let payload = tapped(&[10, 0, 0, 2], &dns_query("a.test"));
    e = fstrm_step(e, &(payload.len() as u32).to_be_bytes()).next;
    assert_eq!(needed(e) as usize, payload.len());
    let s = fstrm_step(e, &payload);
    match s.event {
        Some(Event::Dns { ip, domain, qtype, sport }) => {
            assert_eq!(
                (ip.as_str(), domain.as_str(), qtype.as_str(), sport),
                ("10.0.0.2", "a.test", "", 0)
            );
        }
        _ => panic!("a query is reported"),
    }
    e = s.next;
    // The router's own queries are not reported.
    let own = tapped(&[127, 0, 0, 1], &dns_query("a.test"));
    let s = fstrm_step(Expect::Data(own.len() as u32), &own);
    assert!(s.event.is_none() && s.next == Expect::Frame);
    // STOP is answered with FINISH, and that is the end.
    e = fstrm_step(e, &[0, 0, 0, 0]).next;
    e = fstrm_step(e, &[0, 0, 0, 4]).next;
    let s = fstrm_step(e, &[0, 0, 0, 3]);
    assert_eq!(s.reply, vec![0, 0, 0, 0, 0, 0, 0, 4, 0, 0, 0, 5]);
    assert!(s.next == Expect::End);
}

#[test]
fn streams_that_make_no_sense_end() {
    let big = (MAX_FRAME + 1).to_be_bytes();
    assert!(fstrm_step(Expect::Frame, &big).next == Expect::End);
    assert!(fstrm_step(Expect::Frame, &MAX_FRAME.to_be_bytes()).next == Expect::Data(MAX_FRAME));
    assert!(fstrm_step(Expect::Control(2), &[0, 0]).next == Expect::End);
    // A control frame that is not known is passed over.
    let s = fstrm_step(Expect::Control(4), &[0, 0, 0, 9]);
    assert!(s.next == Expect::Frame && s.reply.is_empty());
}
