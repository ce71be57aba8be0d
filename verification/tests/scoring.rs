//! What the rules make of a device.

use whohere::names::NameMap;
use whohere::rules::{
    DnsRule, Forwarder, PeerRule, Penalty, PortRule, Range, Rules, Shape, StackRule, Subsume,
    TextRule,
};
use whohere::score::{
    conclude, establishes, evidence, pool_by, rank, settle, strongest_model, strongest_platform,
    Fades, Field, Ranked, Sig, Weight,
};
use whohere::store::{Device, Hit, Ident};

const DAY: u64 = 86400;
const NOW: u64 = 1_700_000_000;

fn s(x: &str) -> String {
    x.to_string()
}

fn dns_rule(id: &str, suffix: &str, weight: u32) -> DnsRule {
    DnsRule {
        id: s(id),
        suffix: s(suffix),
        contains: s(""),
        prefix: s(""),
        qtype: s(""),
        brand: s(""),
        os: s(""),
        dtype: s(""),
        kind: s("heartbeat"),
        weight,
    }
}

fn text_rule(id: &str, mode: &str, value: &str, weight: u32) -> TextRule {
    TextRule {
        id: s(id),
        mode: s(mode),
        kind: s(""),
        value: s(value),
        brand: s(""),
        os: s(""),
        dtype: s(""),
        platform: s(""),
        weight,
    }
}

fn port_rule(id: &str, port: u16, weight: u32) -> PortRule {
    PortRule {
        id: s(id),
        kind: s(""),
        port,
        brand: s(""),
        os: s(""),
        dtype: s(""),
        platform: s(""),
        weight,
    }
}

fn device() -> Device {
    let mut d = Device::default();
    d.mac = s("aa:bb:cc:dd:ee:ff");
    d
}

/// An integer that orders as the weight does.
fn key(w: f32) -> i32 {
    let b = (w + 0.0).to_bits() as i32;
    if b < 0 {
        i32::MIN.wrapping_sub(b)
    } else {
        b
    }
}

fn decay(h: &Hit, now: u64, halflife: u64) -> f32 {
    match h.decay_age(now, halflife) {
        None => 1.0,
        Some(age) => 0.5f32.powf(age as f32 / halflife as f32),
    }
}

fn fades(m: &NameMap<Hit>, t: u64, halflife: u64) -> Vec<u32> {
    (0..m.len()).map(|i| decay(m.value_at(i), t, halflife).to_bits()).collect()
}

fn weight(w: Weight) -> f32 {
    match w {
        Weight::Whole(n) => n as f32,
        Weight::Half(n) => n as f32 * 0.5,
        Weight::Bonus { base, tenths, fade } => {
            (base as f32 + tenths as f32 / 10.0) * f32::from_bits(fade)
        }
        Weight::Faded { base, fade } => base as f32 * f32::from_bits(fade),
    }
}

fn shape(d: &Device) -> Shape {
    let n = d.dns_samples();
    let mut ratios: NameMap<i32> = NameMap::new();
    for i in 0..d.qtypes.len() {
        let share = if n == 0 { 0.0 } else { *d.qtypes.value_at(i) as f32 / n as f32 };
        ratios.insert(d.qtypes.name_at(i).clone(), key(share));
    }
    let rate = |p: u32| if n == 0 { 0.0 } else { (p * 2) as f32 / n as f32 };
    Shape {
        samples: n,
        ratios,
        spread: d.distinct_ports().map(|u| key(u as f32 / d.dns_ports.len() as f32)),
        pair_a4: key(rate(d.dns_pair_a4)),
        pair_https: key(rate(d.dns_pair_https)),
    }
}

struct Top {
    ranked: Ranked,
    first: f32,
    second: f32,
}

fn top(sigs: &Vec<Sig>, ws: &[f32], field: Field, ss: &Vec<Subsume>) -> Top {
    let pools = pool_by(sigs, field);
    let mut sums: Vec<f32> = (0..pools.len())
        .map(|i| pools.value_at(i).iter().fold(0.0, |a, j| a + ws[*j]))
        .collect();
    let keys: Vec<i32> = sums.iter().map(|x| key(*x)).collect();
    let settled = settle(&pools, &keys, ss);
    for (to, from) in &settled.merges {
        sums[*to] += sums[*from];
    }
    let keys: Vec<i32> = sums.iter().map(|x| key(*x)).collect();
    let ranked = rank(&settled.left, &keys);
    let first = ranked.first.map_or(0.0, |i| sums[i]);
    let second = ranked.second.map_or(0.0, |i| sums[i]);
    Top { ranked, first, second }
}

fn all_signals(d: &Device, r: &Rules, t: u64, halflife: u64) -> (Vec<Sig>, Vec<f32>) {
    let f = Fades {
        dns: fades(&d.dns_hits, t, halflife),
        sni: fades(&d.sni_hits, t, halflife),
        peer: fades(&d.peer_hits, t, halflife),
    };
    let mut sigs = d.signals(r, t, &f, &shape(d));
    let keys: Vec<i32> = sigs.iter().map(|x| key(weight(x.weight))).collect();
    let mut more = d.penalties(r, &sigs, &keys);
    sigs.append(&mut more);
    let ws = sigs.iter().map(|x| weight(x.weight)).collect();
    (sigs, ws)
}

fn identify(d: &Device, r: &Rules, halflife: u64) -> Ident {
    let (sigs, ws) = all_signals(d, r, NOW, halflife);
    let none: Vec<Subsume> = vec![];
    let brand = top(&sigs, &ws, Field::Brand, &r.subsume);
    let os = top(&sigs, &ws, Field::Os, &r.subsume);
    let dtype = top(&sigs, &ws, Field::Dtype, &none);
    let (t1, t2) = if brand.first >= os.first {
        (brand.first, brand.second)
    } else {
        (os.first, os.second)
    };
    let lead = if t1 + t2 > 0.0 { t1 / (t1 + t2) } else { 1.0 };
    let strength = brand.first.max(os.first);
    let sat = strength / (strength + 6.0);
    let conf = (100.0 * sat * lead).round() as u32;
    let keys: Vec<i32> = ws.iter().map(|w| key(*w)).collect();
    let rounded: Vec<i32> = ws.iter().map(|w| w.round() as i32).collect();
    conclude(&sigs, &keys, &rounded, brand.ranked, os.ranked, dtype.ranked, conf)
}

#[test]
fn decay_halves_each_halflife() {
    let t = 1_000_000_000u64;
    let h = Hit { n: 5, last: t };
    assert!((decay(&h, t, 7 * DAY) - 1.0).abs() < 1e-6);
    assert!((decay(&h, t + 7 * DAY, 7 * DAY) - 0.5).abs() < 1e-6);
    assert!((decay(&h, t + 14 * DAY, 7 * DAY) - 0.25).abs() < 1e-6);
    // A halflife of 0 turns fading off.
    assert_eq!(decay(&h, t + 999 * DAY, 0), 1.0);
}

fn rules_with_one_dns_rule() -> Rules {
    let mut r = Rules::default();
    let mut d = dns_rule("x.test", "x.test", 10);
    d.os = s("TestOS");
    r.dns.push(d);
    r.reindex();
    r
}

fn dev_with_hit(age: u64) -> Device {
    let mut d = device();
    d.dns_hits.insert(s("x.test"), Hit { n: 3, last: NOW - age });
    d
}

#[test]
fn stale_evidence_fades_out_of_scoring() {
    let r = rules_with_one_dns_rule();
    let fresh = identify(&dev_with_hit(0), &r, 7 * DAY);
    assert_eq!(fresh.os, "TestOS");

    // After one halflife it is still there, with less confidence.
    let aged = identify(&dev_with_hit(7 * DAY), &r, 7 * DAY);
    assert_eq!(aged.os, "TestOS");
    assert!(
        aged.confidence < fresh.confidence,
        "confidence must drop after decay: {} vs {}",
        aged.confidence,
        fresh.confidence
    );

    // After three, an eighth is left: too little to count.
    let stale = identify(&dev_with_hit(21 * DAY), &r, 7 * DAY);
    assert_eq!(stale.os, "", "decayed evidence must not decide anything");
    assert_eq!(stale.confidence, 0);
}

fn two_vendor_heartbeat_device() -> Device {
    let mut d = device();
    d.dns_hits.insert(s("v1.hb"), Hit { n: 3, last: NOW });
    d.dns_hits.insert(s("v2.hb"), Hit { n: 3, last: NOW });
    d
}

fn two_vendor_rules() -> Rules {
    let mut r = Rules::default();
    let mut a = dns_rule("v1.hb", "a.test", 10);
    a.brand = s("VendorA");
    let mut b = dns_rule("v2.hb", "b.test", 10);
    b.brand = s("VendorB");
    r.dns.push(a);
    r.dns.push(b);
    r.reindex();
    r
}

#[test]
fn forwarder_verdict_comes_from_rules_data() {
    let d = two_vendor_heartbeat_device();

    // With a forwarder rule the device is what the rule says, and no brand stays.
    let mut with = two_vendor_rules();
    with.forwarder = Some(Forwarder { dtype: s("GW"), weight: 8, min_brands: 2 });
    let id = identify(&d, &with, 0);
    assert_eq!(id.dtype, "GW");
    assert_eq!(id.brand, "", "forwarding devices must not inherit downstream brands");

    // Without one the brands count as they are.
    let without = two_vendor_rules();
    let id = identify(&d, &without, 0);
    assert_eq!(id.dtype, "");
    assert!(
        id.brand == "VendorA" || id.brand == "VendorB",
        "without the rule DNS brands must still count, got {:?}",
        id.brand
    );
}

fn banner_and_port() -> (Device, Rules) {
    let mut d = device();
    d.banner = s("SSH-2.0-OpenSSH_9.2p1 Debian-2+deb12u3");
    d.open_ports = vec![8006];
    let mut r = Rules::default();
    let mut b = text_rule("b.deb", "contains", "debian", 10);
    b.os = s("Debian");
    r.banner.push(b);
    let mut p = port_rule("p.pve", 8006, 10);
    p.os = s("Proxmox VE");
    r.port.push(p);
    (d, r)
}

#[test]
fn subsume_merges_scores_instead_of_splitting() {
    // A host whose banner says Debian and whose port says Proxmox VE, with the
    // same weight: unrelated, they split the vote.
    let (d, split) = banner_and_port();
    let a = identify(&d, &split, 0);

    let (_, mut merged) = banner_and_port();
    merged.subsume.push(Subsume { specific: s("Proxmox VE"), generic: s("Debian") });
    let b = identify(&d, &merged, 0);

    assert_eq!(b.os, "Proxmox VE", "the more specific value must win");
    assert!(
        b.confidence > a.confidence,
        "merging must raise confidence: {} vs {}",
        b.confidence,
        a.confidence
    );
    // 20 / 26 of the votes with nothing against it; 10 / 16 with half against it.
    assert_eq!(b.confidence, 77);
    assert_eq!(a.confidence, 31);
}

#[test]
fn privileged_port_penalty_cancels_a_phone_verdict() {
    // A device that the names make a phone, with a listener at port 80.
    let mut r = Rules::default();
    let mut v = dns_rule("v.phone", "a.test", 10);
    v.brand = s("V");
    v.os = s("VOS");
    v.dtype = s("手机");
    r.dns.push(v);
    r.reindex();
    r.penalty.push(Penalty {
        id: s("p1"),
        cond: s("privileged_port"),
        brand: s(""),
        os: s(""),
        dtype: s("手机"),
        weight: -12,
        soften_brands: vec![],
        soften_weight: 0,
    });

    let mut d = device();
    d.dns_hits.insert(s("v.phone"), Hit { n: 2, last: NOW });

    assert_eq!(identify(&d, &r, 0).dtype, "手机", "没开端口时应当判成手机");

    d.open_ports = vec![80, 443];
    let id = identify(&d, &r, 0);
    assert_eq!(id.dtype, "", "开着特权端口就不该再判成手机");
    // Brand and system stay: the penalty is about the type alone.
    assert_eq!(id.brand, "V");
    assert_eq!(id.os, "VOS");

    // High ports do not count.
    d.open_ports = vec![8080, 32400];
    assert_eq!(identify(&d, &r, 0).dtype, "手机");
}

#[test]
fn penalty_is_softened_for_easily_rooted_brands() {
    let mut r = Rules::default();
    for (id, suffix, brand) in [("mi", "a.test", "小米"), ("hw", "b.test", "华为")] {
        let mut v = dns_rule(id, suffix, 10);
        v.brand = s(brand);
        v.dtype = s("手机");
        r.dns.push(v);
    }
    r.reindex();
    r.penalty.push(Penalty {
        id: s("p"),
        cond: s("privileged_port"),
        brand: s(""),
        os: s(""),
        dtype: s("手机"),
        weight: -12,
        soften_brands: vec![s("小米")],
        soften_weight: -3,
    });

    let mk = |rule: &str| {
        let mut d = device();
        d.open_ports = vec![80];
        d.dns_hits.insert(s(rule), Hit { n: 1, last: NOW });
        d
    };

    // One brand is easily unlocked, so an app may listen there: a light penalty.
    assert_eq!(identify(&mk("mi"), &r, 0).dtype, "手机");
    // The other is not: the penalty stands.
    assert_eq!(identify(&mk("hw"), &r, 0).dtype, "");
}

#[test]
fn penalties_say_why() {
    let mut r = Rules::default();
    let mut p = port_rule("p.web", 80, 4);
    p.brand = s("Easy");
    r.port.push(p);
    r.penalty.push(Penalty {
        id: s("p"),
        cond: s("privileged_port"),
        brand: s(""),
        os: s(""),
        dtype: s("手机"),
        weight: -12,
        soften_brands: vec![s("Easy")],
        soften_weight: -3,
    });
    let mut d = device();
    d.open_ports = vec![22, 80, 8080];
    let (sigs, ws) = all_signals(&d, &r, NOW, 0);
    assert_eq!(sigs.len(), 2);
    assert_eq!(sigs[1].source, "penalty");
    assert_eq!(sigs[1].detail, "开着特权端口 22,80 —— 不像手机(该品牌易 root, 已减轻)");
    assert_eq!(ws[1], -3.0);

    // A weight of zero says nothing, and neither does a condition nobody knows.
    r.penalty[0].soften_weight = 0;
    assert_eq!(all_signals(&d, &r, NOW, 0).0.len(), 1);
    r.penalty[0].soften_weight = -3;
    r.penalty[0].cond = s("full_moon");
    assert_eq!(all_signals(&d, &r, NOW, 0).0.len(), 1);
}

#[test]
fn every_channel_gives_its_signal() {
    let mut r = Rules::default();
    let mut vendor = text_rule("vc.android", "prefix", "android-dhcp", 8);
    vendor.os = s("Android");
    r.dhcp_vendor.push(vendor);
    r.dhcp_fp.push(text_rule("fp", "exact", "1,3,6", 9));
    r.mdns_model.push(text_rule("m", "prefix", "mac", 7));
    r.mdns_service.push(text_rule("sv", "exact", "_airplay._tcp", 6));
    r.upnp.push(text_rule("u", "contains", "upnp", 5));
    r.hostname.push(text_rule("h", "contains", "redmi", 4));
    r.dns.push(dns_rule("d", "d.test", 10));
    r.mqtt.push(text_rule("q", "prefix", "lamp", 3));
    r.peer.push(PeerRule {
        id: s("pe"),
        proto: s(""),
        port: 8883,
        prefix: s(""),
        brand: s(""),
        os: s(""),
        dtype: s(""),
        kind: s(""),
        weight: 12,
    });
    r.tcp.push(text_rule("t", "prefix", "64:", 2));
    r.ua.push(text_rule("ua", "contains", "dalvik", 2));
    r.port.push(port_rule("po", 445, 3));
    r.banner.push(text_rule("b", "contains", "ssh", 2));
    r.oui_brand.push(text_rule("o", "contains", "xiaomi", 1));
    r.stack.push(StackRule {
        id: s("st"),
        desc: s(""),
        min_samples: 2,
        ratio: NameMap::new(),
        port_spread: None,
        pair_a4: Some(Range { lo: key(0.9), hi: key(1.1) }),
        pair_https: None,
        brand: s(""),
        os: s(""),
        dtype: s(""),
        weight: 5,
    });
    r.reindex();

    let mut d = device();
    d.mac = s("30:9c:23:c1:dd:70");
    d.dhcp_vendor = s("android-dhcp-14");
    d.dhcp_fp = s("1,3,6");
    d.mdns_model = s("MacBookAir10,1");
    d.mdns_services = vec![s("_airplay._tcp"), s("_other._tcp")];
    d.upnp_server = s("Linux UPnP/1.0");
    d.dhcp_name = s("Redmi-Note");
    d.dns_hits.insert(s("d"), Hit { n: 45, last: NOW - 60 });
    d.sni_hits.insert(s("d"), Hit { n: 7, last: NOW });
    d.mqtt_id = s("lamp-1");
    d.peer_hits.insert(s("pe"), Hit { n: 2, last: NOW });
    d.tcp_fp = s("64:1460:65535:7:mss:df");
    d.http_ua = s("Dalvik/2.1.0");
    d.open_ports = vec![22, 445];
    d.banner = s("SSH-2.0");
    d.oui = s("Xiaomi Communications");
    d.qtypes.insert(s("A"), 1);
    d.qtypes.insert(s("AAAA"), 1);
    d.dns_pair_a4 = 1;

    let (sigs, ws) = all_signals(&d, &r, NOW, 0);
    let seen: Vec<(&str, &str, f32)> =
        sigs.iter().zip(&ws).map(|(x, w)| (x.source, x.detail.as_str(), *w)).collect();
    assert_eq!(
        seen,
        vec![
            ("dhcp60", "android-dhcp-14", 8.0),
            ("dhcp55", "1,3,6", 9.0),
            ("mdns", "model=MacBookAir10,1", 7.0),
            ("mdns", "_airplay._tcp", 6.0),
            ("ssdp", "Linux UPnP/1.0", 5.0),
            ("hostname", "Redmi-Note", 4.0),
            // A count adds a tenth for each hit, up to three.
            ("dns", "d.test ×45", 13.0),
            ("sni", "d.test ×7", 10.7),
            ("mqtt", "lamp-1", 3.0),
            ("peer", "tcp/udp/8883 ×2", 12.0),
            ("tcp", "64:1460:65535:7:mss:df", 2.0),
            ("ua", "Dalvik/2.1.0", 2.0),
            ("port", "445/tcp", 3.0),
            ("banner", "SSH-2.0", 2.0),
            ("stack", "st", 5.0),
            ("oui", "Xiaomi Communications", 1.0),
        ]
    );
    assert_eq!(sigs[0].os, "Android 14");
    assert_eq!(sigs[2].model, "MacBookAir10,1");
    assert_eq!(sigs[6].age, 60);
    assert_eq!(sigs[14].kind, "stack");

    // A list that is nearly the known one counts half, and decides nothing alone.
    r.dhcp_fp[0].value = s("1,3,6,15,119,252");
    d.dhcp_fp = s("1,3,6,15,119,95,252");
    let (sigs, ws) = all_signals(&d, &r, NOW, 0);
    assert_eq!(sigs[1].source, "dhcp55");
    assert_eq!(sigs[1].detail, "1,3,6,15,119,95,252 ~");
    assert_eq!(sigs[1].kind, "weak");
    assert_eq!(ws[1], 4.5);

    // A model that no rule knows is kept with a small weight.
    d.mdns_model = s("Unheard-Of");
    let (sigs, ws) = all_signals(&d, &r, NOW, 0);
    assert_eq!(sigs[2].model, "Unheard-Of");
    assert_eq!(ws[2], 3.0);

    // A made-up address says nothing of who made the device.
    d.mac = s("32:9c:23:c1:dd:70");
    let (sigs, _) = all_signals(&d, &r, NOW, 0);
    assert!(sigs.iter().all(|x| x.source != "oui"));
}

fn plain_sig(brand: &str, os: &str, dtype: &str, kind: &str) -> Sig {
    Sig {
        source: "test",
        detail: s(""),
        age: 0,
        brand: s(brand),
        os: s(os),
        dtype: s(dtype),
        model: s(""),
        platform: s(""),
        kind: s(kind),
        weight: Weight::Whole(1),
    }
}

#[test]
fn weak_evidence_only_supports() {
    assert!(establishes("heartbeat"));
    assert!(establishes(""));
    assert!(!establishes("web"));
    assert!(!establishes("weak"));
    let v = vec![
        plain_sig("A", "", "T", "web"),
        plain_sig("B", "", "T", "weak"),
        plain_sig("A", "", "", "heartbeat"),
    ];
    let p = pool_by(&v, Field::Brand);
    assert_eq!(p.len(), 1);
    assert_eq!(p.name_at(0), "A");
    assert_eq!(p.value_at(0), &vec![0usize, 2]);
    // A type takes no support from weak evidence at all.
    assert_eq!(pool_by(&v, Field::Dtype).len(), 0);
    assert_eq!(pool_by(&v, Field::Os).len(), 0);
}

#[test]
fn a_weak_agent_changes_no_conclusion() {
    let (mut d, mut r) = banner_and_port();
    let mut web = text_rule("web", "contains", "Android", 9);
    web.kind = s("web");
    web.brand = s("Elsewhere");
    web.os = s("Nowhere");
    web.dtype = s("Phone");
    r.ua = vec![web];
    let before = identify(&d, &r, 0);
    assert_ne!(before.brand.len() + before.os.len(), 0);
    d.http_ua = s("Mozilla/5.0 (Linux; Android 14)");
    let after = identify(&d, &r, 0);
    assert_eq!(
        (&after.brand, &after.os, &after.dtype, after.confidence),
        (&before.brand, &before.os, &before.dtype, before.confidence)
    );
    assert_eq!(after.evidence.len(), before.evidence.len() + 1);
    // What another signal stands for, it does add to.
    r.ua[0].brand = before.brand.clone();
    r.ua[0].os = before.os.clone();
    assert!(identify(&d, &r, 0).confidence > before.confidence);
}

#[test]
fn only_positive_pools_are_left() {
    let v = vec![
        plain_sig("A", "", "", ""),
        plain_sig("B", "", "", ""),
        plain_sig("C", "", "", ""),
        plain_sig("D", "", "", ""),
    ];
    let p = pool_by(&v, Field::Brand);
    let ss = vec![
        Subsume { specific: s("A"), generic: s("D") },
        Subsume { specific: s("A"), generic: s("D") },
        Subsume { specific: s("B"), generic: s("A") },
    ];
    let settled = settle(&p, &vec![5, -1, 0, 2], &ss);
    // B and C are gone; D goes into A, once.
    assert_eq!(settled.merges, vec![(0, 3)]);
    assert_eq!(settled.left.len(), 1);
    assert_eq!(settled.left.get("A"), Some(&0));
    let r = rank(&settled.left, &vec![7, -1, 0, 2]);
    assert_eq!(r.name, "A");
    assert_eq!((r.first, r.second), (Some(0), None));
}

#[test]
fn the_first_of_equals_leads() {
    let v = vec![
        plain_sig("B", "", "", ""),
        plain_sig("A", "", "", ""),
        plain_sig("C", "", "", ""),
    ];
    let p = pool_by(&v, Field::Brand);
    let none: Vec<Subsume> = vec![];
    let settled = settle(&p, &vec![4, 4, 9], &none);
    let r = rank(&settled.left, &vec![4, 4, 9]);
    assert_eq!((r.name.as_str(), r.first, r.second), ("C", Some(2), Some(0)));
    let r = rank(&settled.left, &vec![4, 4, 1]);
    assert_eq!((r.name.as_str(), r.first, r.second), ("A", Some(0), Some(1)));
    let empty: NameMap<usize> = NameMap::new();
    let r = rank(&empty, &vec![]);
    assert_eq!((r.name.as_str(), r.first, r.second), ("", None, None));
}

#[test]
fn the_strongest_names_the_model() {
    let blank = || plain_sig("", "", "", "");
    let mut v = vec![blank(), blank(), blank()];
    v[0].model = s("M1");
    v[1].model = s("M2");
    v[1].platform = s("P2");
    v[2].platform = s("P3");
    assert_eq!(strongest_model(&v, &vec![3, 3, 9]), "M1");
    assert_eq!(strongest_model(&v, &vec![3, 4, 9]), "M2");
    assert_eq!(strongest_model(&v, &vec![0, -1, 9]), "");
    assert_eq!(strongest_platform(&v, &vec![3, 4, 9]), "P3");
}

#[test]
fn evidence_is_ranked_and_bounded() {
    let v: Vec<Sig> = (0..25)
        .map(|i| {
            let mut x = plain_sig("", "", "", "");
            x.detail = format!("{i}");
            x
        })
        .collect();
    let ws: Vec<i32> = (0..25).map(|i| if i == 24 { 9 } else { i % 3 }).collect();
    let e = evidence(&v, &ws);
    assert_eq!(e.len(), 20);
    assert_eq!((e[0].detail.as_str(), e[0].weight), ("24", 9));
    // Equals keep the order in which they were found.
    assert_eq!((e[1].detail.as_str(), e[1].weight), ("2", 2));
    assert_eq!((e[2].detail.as_str(), e[2].weight), ("5", 2));
    assert!(e.windows(2).all(|p| p[0].weight >= p[1].weight));
}

#[test]
fn without_a_leader_there_is_no_confidence() {
    let v = vec![plain_sig("", "", "T", "")];
    let blank = || Ranked { name: s(""), first: None, second: None };
    let t = Ranked { name: s("T"), first: Some(0), second: None };
    let id = conclude(&v, &vec![1], &vec![1], blank(), blank(), t, 42);
    assert_eq!((id.dtype.as_str(), id.confidence), ("T", 0));
    let b = Ranked { name: s("B"), first: Some(0), second: None };
    let id = conclude(&v, &vec![1], &vec![1], b, blank(), blank(), 42);
    assert_eq!((id.brand.as_str(), id.confidence), ("B", 42));
    let cases = [(0, 0), (49, 49), (50, 50), (98, 98), (99, 99), (100, 99), (u32::MAX, 99)];
    for (given, held) in cases {
        let b = Ranked { name: s("B"), first: Some(0), second: None };
        let id = conclude(&v, &vec![1], &vec![1], b, blank(), blank(), given);
        assert_eq!(id.confidence, held);
        assert_eq!(id.identified(), held >= 50);
    }
    assert_eq!(id.evidence.len(), 1);
    assert_eq!(id.evidence[0].source, "test");
}
