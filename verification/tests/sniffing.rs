//! The packet filter and what is read from the packets it lets through.

use whohere::bpf::{
    filter_prog, Asm, Mark, SockFilter, Target, JEQ_K, JGE_K, JSET_K, LDX_B_MSH, LD_B_ABS,
    LD_B_IND, LD_H_ABS, LD_H_IND, RET_K, SNAP,
};
use whohere::event::Event;
use whohere::sniff::{
    clean_client, client_bytes, handle, http_fields, mqtt_client_id, request_fields, sni_bytes,
    tcp_fingerprint, tls_sni, ETH_HDR,
};
use whohere::util::parse_v6;

/// A frame with IPv4 and TCP.
fn frame(src: [u8; 4], dport: u16, flags: u8, opts: &[u8], payload: &[u8]) -> Vec<u8> {
    let doff = 20 + opts.len();
    assert_eq!(doff % 4, 0, "TCP options must be padded to 4 bytes");
    let mut f = vec![0u8; ETH_HDR];
    f[12] = 0x08;
    f[13] = 0x00;
    let total = 20 + doff + payload.len();
    let mut ip = vec![0u8; 20];
    ip[0] = 0x45;
    ip[2..4].copy_from_slice(&(total as u16).to_be_bytes());
    ip[6] = 0x40; // DF
    ip[8] = 64; // TTL
    ip[9] = 6; // TCP
    ip[12..16].copy_from_slice(&src);
    let mut tcp = vec![0u8; 20];
    tcp[2..4].copy_from_slice(&dport.to_be_bytes());
    tcp[12] = ((doff / 4) as u8) << 4;
    tcp[13] = flags;
    tcp[14..16].copy_from_slice(&65535u16.to_be_bytes());
    f.extend_from_slice(&ip);
    f.extend_from_slice(&tcp);
    f.extend_from_slice(opts);
    f.extend_from_slice(payload);
    f
}

/// A frame with IPv6 and TCP.
fn frame6(src: [u8; 16], dport: u16, flags: u8, payload: &[u8]) -> Vec<u8> {
    let mut f = vec![0u8; ETH_HDR];
    f[12] = 0x86;
    f[13] = 0xdd;
    let mut ip = vec![0u8; 40];
    ip[0] = 0x60; // version 6
    ip[4..6].copy_from_slice(&((20 + payload.len()) as u16).to_be_bytes());
    ip[6] = 6; // next header = TCP
    ip[7] = 64; // hop limit
    ip[8..24].copy_from_slice(&src);
    let mut tcp = vec![0u8; 20];
    tcp[2..4].copy_from_slice(&dport.to_be_bytes());
    tcp[12] = 5 << 4;
    tcp[13] = flags;
    tcp[14..16].copy_from_slice(&65535u16.to_be_bytes());
    f.extend_from_slice(&ip);
    f.extend_from_slice(&tcp);
    f.extend_from_slice(payload);
    f
}

fn client_hello(host: &[u8]) -> Vec<u8> {
    let mut ext = vec![0x00, 0x00]; // extension type server_name
    let mut sn = vec![0x00]; // name type host_name
    sn.extend_from_slice(&(host.len() as u16).to_be_bytes());
    sn.extend_from_slice(host);
    let mut list = (sn.len() as u16).to_be_bytes().to_vec();
    list.extend_from_slice(&sn);
    ext.extend_from_slice(&(list.len() as u16).to_be_bytes());
    ext.extend_from_slice(&list);

    let mut hs = vec![0x03, 0x03]; // client version
    hs.extend_from_slice(&[0u8; 32]); // random
    hs.push(0); // session id len
    hs.extend_from_slice(&[0x00, 0x02, 0x13, 0x01]); // cipher suites
    hs.extend_from_slice(&[0x01, 0x00]); // compression
    hs.extend_from_slice(&(ext.len() as u16).to_be_bytes());
    hs.extend_from_slice(&ext);

    let mut rec = vec![0x16, 0x03, 0x01];
    let body_len = 4 + hs.len();
    rec.extend_from_slice(&(body_len as u16).to_be_bytes());
    rec.push(0x01); // handshake: client hello
    rec.extend_from_slice(&(hs.len() as u32).to_be_bytes()[1..]);
    rec.extend_from_slice(&hs);

    rec
}

fn mqtt_connect(name: &[u8], level: u8, cid: &[u8]) -> Vec<u8> {
    let mut var = (name.len() as u16).to_be_bytes().to_vec();
    var.extend_from_slice(name);
    var.extend_from_slice(&[level, 0x02, 0x00, 0x3c]);
    var.extend_from_slice(&(cid.len() as u16).to_be_bytes());
    var.extend_from_slice(cid);
    let mut pkt = vec![0x10u8];
    let mut n = var.len();
    loop {
        let mut b = (n % 128) as u8;
        n /= 128;
        if n > 0 {
            b |= 0x80;
        }
        pkt.push(b);
        if n == 0 {
            break;
        }
    }
    pkt.extend_from_slice(&var);
    pkt
}

/// Runs a filter program as the kernel does.
fn run_filter(prog: &[SockFilter], p: &[u8]) -> u32 {
    let half = |i: usize| -> Option<u32> {
        if i + 2 <= p.len() { Some(p[i] as u32 * 256 + p[i + 1] as u32) } else { None }
    };
    let byte = |i: usize| -> Option<u32> { p.get(i).map(|b| *b as u32) };
    let mut pc = 0;
    let mut a: u32 = 0;
    let mut x: usize = 0;
    loop {
        let ins = prog[pc];
        let k = ins.k as usize;
        pc += 1;
        let loaded = match ins.code {
            LD_H_ABS => half(k),
            LD_B_ABS => byte(k),
            LD_H_IND => half(x + k),
            LD_B_IND => byte(x + k),
            LDX_B_MSH => match byte(k) {
                Some(b) => {
                    x = (b as usize & 15) * 4;
                    Some(a)
                }
                None => None,
            },
            RET_K => return ins.k,
            code => {
                let taken = match code {
                    JEQ_K => a == ins.k,
                    JSET_K => a & ins.k != 0,
                    JGE_K => a >= ins.k,
                    _ => panic!("unknown instruction"),
                };
                pc += if taken { ins.jt as usize } else { ins.jf as usize };
                Some(a)
            }
        };
        match loaded {
            Some(v) => a = v,
            None => return 0,
        }
    }
}

#[test]
fn bpf_program_has_no_dangling_jumps() {
    let p = filter_prog();
    for (i, ins) in p.iter().enumerate() {
        // Only jump instructions use jt and jf.
        if ins.code & 0x07 != 0x05 {
            continue;
        }
        let (jt, jf) = (i + 1 + ins.jt as usize, i + 1 + ins.jf as usize);
        assert!(jt < p.len(), "insn {i} jt out of range");
        assert!(jf < p.len(), "insn {i} jf out of range");
    }
    assert!(p.len() >= 3);
    // The program ends with the two returns: accept, then drop.
    assert_eq!(p[p.len() - 1].k, 0);
    assert!(p[p.len() - 2].k > 0);
}

#[test]
fn filter_lets_telling_packets_through() {
    let p = filter_prog();
    let src = [10, 0, 0, 2];
    let src6 = parse_v6("fe80::1").unwrap();
    // Connection requests, to any port.
    assert_eq!(run_filter(&p, &frame(src, 5222, 0x02, &[], &[])), SNAP);
    assert_eq!(run_filter(&p, &frame6(src6, 5222, 0x02, &[])), SNAP);
    // Short pushed segments to the ports that name a host.
    for port in [80, 443, 1883] {
        assert_eq!(run_filter(&p, &frame(src, port, 0x18, &[], &[1; 100])), SNAP);
        assert_eq!(run_filter(&p, &frame6(src6, port, 0x18, &[1; 100])), SNAP);
        assert_eq!(run_filter(&p, &frame(src, port, 0x10, &[], &[1; 100])), 0);
        assert_eq!(run_filter(&p, &frame6(src6, port, 0x10, &[1; 100])), 0);
    }
    assert_eq!(run_filter(&p, &frame(src, 22, 0x18, &[], &[1; 100])), 0);
    assert_eq!(run_filter(&p, &frame6(src6, 22, 0x18, &[1; 100])), 0);
    // The length decides at the boundary: 1400 with the headers, 1360 without.
    assert_eq!(run_filter(&p, &frame(src, 443, 0x18, &[], &[1; 1359])), SNAP);
    assert_eq!(run_filter(&p, &frame(src, 443, 0x18, &[], &[1; 1360])), 0);
    assert_eq!(run_filter(&p, &frame6(src6, 443, 0x18, &[1; 1339])), SNAP);
    assert_eq!(run_filter(&p, &frame6(src6, 443, 0x18, &[1; 1340])), 0);
    // A later fragment, another protocol, another frame type, a stub.
    let mut f = frame(src, 5222, 0x02, &[], &[]);
    f[ETH_HDR + 7] = 1;
    assert_eq!(run_filter(&p, &f), 0);
    let mut f = frame(src, 5222, 0x02, &[], &[]);
    f[ETH_HDR + 9] = 17;
    assert_eq!(run_filter(&p, &f), 0);
    let mut f = frame(src, 5222, 0x02, &[], &[]);
    f[13] = 6;
    assert_eq!(run_filter(&p, &f), 0);
    assert_eq!(run_filter(&p, &[0u8; 13]), 0);
}

#[test]
fn an_assembler_counts_its_jumps() {
    let mut a = Asm::new();
    a.op(LD_H_ABS, 12);
    a.jmp(JEQ_K, 7, Target::To(Mark::V6), Target::Drop);
    a.op(LD_B_ABS, 1);
    a.label(Mark::V6);
    a.jmp(JEQ_K, 9, Target::Accept, Target::Next);
    a.op(LD_B_ABS, 2);
    let p = a.build();
    assert_eq!(p.len(), 7);
    assert_eq!((p[1].jt, p[1].jf), (1, 4));
    assert_eq!((p[3].jt, p[3].jf), (1, 0));
    assert_eq!((p[5].code, p[5].k), (RET_K, SNAP));
    assert_eq!((p[6].code, p[6].k), (RET_K, 0));
}

#[test]
fn syn_options_order_is_captured() {
    // mss=1460, sackOK, timestamps, nop, wscale=7: the usual order on Linux.
    let opts = [
        2, 4, 0x05, 0xb4, // mss 1460
        4, 2, // sack permitted
        8, 10, 0, 0, 0, 0, 0, 0, 0, 0, // timestamps
        1, // nop
        3, 3, 7, // wscale 7
    ];
    let f = frame([172, 16, 0, 9], 443, 0x02, &opts, &[]);
    let ip = &f[ETH_HDR..];
    let tcp = &ip[20..];
    let fp = tcp_fingerprint(ip[8], "df", tcp).unwrap();
    assert_eq!(fp, "64:1460:65535:7:mss,sok,ts,nop,ws:df");
}

#[test]
fn ipv6_frames_are_parsed_and_source_is_formatted_like_iproute() {
    let src = parse_v6("fe80::329c:23ff:fec1:dd70").unwrap();

    // A connection request gives a fingerprint that ends in v6.
    match handle(&frame6(src, 443, 0x02, &[])).expect("SYN should produce a fingerprint") {
        Event::TcpFp { ip, fp } => {
            assert_eq!(ip, "fe80::329c:23ff:fec1:dd70");
            assert!(fp.ends_with(":v6"), "got {fp}");
            assert!(fp.starts_with("64:"), "hop limit should lead: {fp}");
        }
        _ => panic!("wrong event"),
    }

    // A pushed segment with a payload is read as over IPv4.
    let hello = client_hello(b"api.snapcraft.io");
    match handle(&frame6(src, 443, 0x18, &hello)).expect("ClientHello should produce a Conn") {
        Event::Conn { ip, host, via, .. } => {
            assert_eq!(ip, "fe80::329c:23ff:fec1:dd70");
            assert_eq!(host, "api.snapcraft.io");
            assert_eq!(via, "sni");
        }
        _ => panic!("wrong event"),
    }
}

#[test]
fn tls_client_hello_sni_is_extracted() {
    assert_eq!(tls_sni(&client_hello(b"api.snapcraft.io")).unwrap(), "api.snapcraft.io");
    // What is no ClientHello names no host.
    assert_eq!(tls_sni(b"not tls at all............................"), None);
}

#[test]
fn mqtt_connect_client_id_is_extracted() {
    // CONNECT: fixed header, remaining length, "MQTT", version, flags, keepalive, client
    let cid = b"midea_ac_3d8769";
    let mut var = vec![0x00, 0x04, b'M', b'Q', b'T', b'T', 0x04, 0x02, 0x00, 0x3c];
    var.extend_from_slice(&(cid.len() as u16).to_be_bytes());
    var.extend_from_slice(cid);
    let mut pkt = vec![0x10u8];
    let mut n = var.len();
    loop {
        let mut b = (n % 128) as u8;
        n /= 128;
        if n > 0 {
            b |= 0x80;
        }
        pkt.push(b);
        if n == 0 {
            break;
        }
    }
    pkt.extend_from_slice(&var);
    assert_eq!(mqtt_client_id(&pkt).unwrap(), "midea_ac_3d8769");

    // A protocol name that does not fit its length is not taken.
    let mut p2 = pkt.clone();
    p2[2] = 0x00;
    p2[3] = 0x06;
    assert!(mqtt_client_id(&p2).is_none(), "协议名对不上就不该认");
    // What is no CONNECT names no client.
    assert!(mqtt_client_id(b"GET / HTTP/1.1\r\n").is_none());
    assert!(mqtt_client_id(&[0x10]).is_none());
}

#[test]
fn http_host_and_user_agent_are_extracted() {
    let req = b"GET /index.html HTTP/1.1\r\nHost: ota.example.com:80\r\n\
                User-Agent: Dalvik/2.1.0 (Linux; U; Android 14; Redmi Build/x)\r\n\r\n";
    let (host, ua) = http_fields(req).unwrap();
    assert_eq!(host, "ota.example.com");
    assert!(ua.contains("Android 14"), "got {ua}");
    assert_eq!(http_fields(b"\x16\x03\x01 binary junk"), None);
}

#[test]
fn requests_are_read_from_their_text() {
    let t = "POST /x HTTP/1.1\r\nuser-agent:  Mijia/1 \r\nhost: A.Example.com\r\n\r\nbody";
    assert_eq!(request_fields(t), Some(("a.example.com".to_string(), "Mijia/1".to_string())));
    assert_eq!(http_fields(b"FETCH / HTTP/1.1\r\nhost: a\r\n\r\n"), None);
    assert_eq!(request_fields("GET / HTTP/1.1\r\n\r\n"), None);
    // Bytes that are no text are replaced.
    let (_, ua) = http_fields(b"GET / HTTP/1.1\r\nUser-Agent: a\xffb\r\n\r\n").unwrap();
    assert_eq!(ua, "a\u{fffd}b");
}

#[test]
fn older_client_announcements_are_read() {
    let p = mqtt_connect(b"MQIsdp", 3, b"lamp-1");
    assert_eq!(client_bytes(&p), Some(&b"lamp-1"[..]));
    assert_eq!(mqtt_client_id(&p).as_deref(), Some("lamp-1"));
    // Long announcements have a longer length field.
    let long = vec![b'z'; 128];
    let p = mqtt_connect(b"MQTT", 4, &long);
    assert_eq!(p[1] & 0x80, 0x80);
    assert_eq!(client_bytes(&p), Some(&long[..]));
    assert_eq!(mqtt_client_id(&p).unwrap().len(), 64);
    assert!(client_bytes(&mqtt_connect(b"MQTT", 4, &[b'z'; 129])).is_none());
    assert!(client_bytes(&mqtt_connect(b"MQTT", 4, b"")).is_none());
    assert!(mqtt_client_id(&mqtt_connect(b"MQTT", 4, b"")).is_none());
    assert_eq!(clean_client("a\u{1}b"), Some("ab".to_string()));
    assert_eq!(clean_client("\u{1}\u{2}"), None);
}

#[test]
fn a_hello_without_a_name_names_no_host() {
    let hello = client_hello(b"a.test");
    assert_eq!(sni_bytes(&hello), Some(&b"a.test"[..]));
    for n in 0..hello.len() {
        assert_eq!(sni_bytes(&hello[..n]), None, "cut at {n}");
    }
    let mut other = hello.clone();
    other[0] = 0x17;
    assert_eq!(tls_sni(&other), None);
}

#[test]
fn frames_over_ipv4_give_events() {
    match handle(&frame([10, 0, 0, 7], 443, 0x02, &[2, 4, 5, 0xb4], &[])) {
        Some(Event::TcpFp { ip, fp }) => {
            assert_eq!(ip, "10.0.0.7");
            assert_eq!(fp, "64:1460:65535:-:mss:df");
        }
        _ => panic!("wrong event"),
    }
    match handle(&frame([10, 0, 0, 7], 1883, 0x18, &[], &mqtt_connect(b"MQTT", 4, b"lamp-1"))) {
        Some(Event::Conn { host, ua, via, .. }) => {
            assert_eq!((host.as_str(), ua.as_str(), via), ("", "lamp-1", "mqtt"));
        }
        _ => panic!("wrong event"),
    }
    match handle(&frame([10, 0, 0, 7], 80, 0x18, &[], b"GET / HTTP/1.1\r\nHost: a.test\r\n\r\n")) {
        Some(Event::Conn { host, ua, via, .. }) => {
            assert_eq!((host.as_str(), ua.as_str(), via), ("a.test", "", "http"));
        }
        _ => panic!("wrong event"),
    }
    // An answer to a connection request is none, and neither is an empty segment.
    assert!(handle(&frame([10, 0, 0, 7], 443, 0x12, &[], &[])).is_none());
    assert!(handle(&frame([10, 0, 0, 7], 443, 0x18, &[], &[])).is_none());
    assert!(handle(&frame([10, 0, 0, 7], 443, 0x18, &[], b"????")).is_none());
    assert!(handle(&[]).is_none());
    // The padding behind a short packet is not read.
    let mut f = frame([10, 0, 0, 7], 80, 0x18, &[], b"");
    f.extend_from_slice(b"GET / HTTP/1.1\r\nHost: a.test\r\n\r\n");
    assert!(handle(&f).is_none());
}
