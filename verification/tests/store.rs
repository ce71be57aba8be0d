//! The devices that are known.

use whohere::names::NameMap;
use whohere::store::{
    elapsed, junk_name, wrap_add, Device, Hit, Store, DECAY_DROP, DECAY_MUTE, PORT_RING,
};

const DAY: u64 = 86400;
const NOW: u64 = 1_700_000_000;

fn s(x: &str) -> String {
    x.to_string()
}

fn store() -> Store {
    Store::load(NameMap::new(), "/tmp/devices.json", NOW)
}

fn dev_with_hit(age: u64) -> Device {
    let mut d = Device::default();
    d.mac = s("aa:bb:cc:dd:ee:ff");
    d.dns_hits.insert(s("x.test"), Hit { n: 3, last: NOW.saturating_sub(age) });
    d
}

fn factors(st: &Store, now: u64, halflife: u64) -> Vec<Vec<u32>> {
    (0..st.devs.len())
        .map(|i| {
            let hits = &st.devs.value_at(i).dns_hits;
            (0..hits.len())
                .map(|j| {
                    let f = match hits.value_at(j).decay_age(now, halflife) {
                        None => 1.0f32,
                        Some(age) => 0.5f32.powf(age as f32 / halflife as f32),
                    };
                    f.to_bits()
                })
                .collect()
        })
        .collect()
}

#[test]
fn prune_drops_fully_decayed_hits() {
    let mut st = store();
    st.devs.insert(s("a"), dev_with_hit(0));
    st.devs.insert(s("b"), dev_with_hit(60 * DAY));
    for i in 0..st.devs.len() {
        st.devs.value_at_mut(i).last_seen = NOW;
    }
    let f = factors(&st, NOW, 7 * DAY);
    st.prune(NOW, 30 * DAY, &f);
    assert_eq!(st.devs.get("a").unwrap().dns_hits.len(), 1, "fresh hits must be kept");
    assert_eq!(st.devs.get("b").unwrap().dns_hits.len(), 0, "fully decayed hits must be dropped");
    assert!(st.dirty);
}

#[test]
fn devices_that_stay_away_are_forgotten() {
    let mut st = store();
    for (mac, seen) in [("a", NOW), ("b", NOW - 30 * DAY), ("c", NOW - 30 * DAY - 1)] {
        let d = st.get(mac, seen);
        assert_eq!((d.mac.as_str(), d.first_seen, d.last_seen), (mac, seen, seen));
    }
    st.dirty = false;
    let f = factors(&st, NOW, 0);
    st.prune(NOW, 30 * DAY, &f);
    assert_eq!(st.devs.len(), 2);
    assert!(st.devs.get("c").is_none());
    assert!(st.dirty);
    // Once more, and nothing changes.
    st.dirty = false;
    let f = factors(&st, NOW, 0);
    st.prune(NOW, 30 * DAY, &f);
    assert_eq!(st.devs.len(), 2);
    assert!(!st.dirty);
    // An age beyond the beginning of time keeps all.
    let f = factors(&st, NOW, 0);
    st.prune(NOW, u64::MAX, &f);
    assert_eq!(st.devs.len(), 2);
}

#[test]
fn the_limits_of_fading_are_given_by_their_bits() {
    assert_eq!(DECAY_MUTE, 0.15f32.to_bits());
    assert_eq!(DECAY_DROP, 0.05f32.to_bits());
}

#[test]
fn hits_without_a_time_do_not_fade() {
    let h = Hit { n: 7, last: 0 };
    assert_eq!(h.decay_age(9_999_999, 7 * DAY), None);
    let h = Hit { n: 7, last: 100 };
    assert_eq!(h.decay_age(160, 0), None);
    assert_eq!(h.decay_age(160, 5), Some(60));
    assert_eq!(h.decay_age(40, 5), Some(0));
    assert_eq!(elapsed(160, 100), 60);
    assert_eq!(elapsed(100, 160), 0);
}

#[test]
fn loading_dates_hits_without_a_time() {
    let mut d = Device::default();
    d.mac = s("aa:bb:cc:dd:ee:ff");
    d.dns_hits.insert(s("ubu.snap"), Hit { n: 7, last: 0 });
    d.dns_hits.insert(s("x.test"), Hit { n: 2, last: 5 });
    d.sni_hits.insert(s("x.test"), Hit { n: 2, last: 0 });
    let mut m: NameMap<Device> = NameMap::new();
    m.insert(s("aa:bb:cc:dd:ee:ff"), d);
    let st = Store::load(m, "/tmp/devices.json", NOW);
    let d = st.devs.get("aa:bb:cc:dd:ee:ff").unwrap();
    assert_eq!(d.dns_hits.get("ubu.snap").map(|h| (h.n, h.last)), Some((7, NOW)));
    assert_eq!(d.dns_hits.get("x.test").map(|h| (h.n, h.last)), Some((2, 5)));
    assert_eq!(d.sni_hits.get("x.test").map(|h| (h.n, h.last)), Some((2, 0)));
    assert!(!st.dirty);
    assert_eq!(st.path, "/tmp/devices.json");
}

#[test]
fn dhcp_name_beats_mdns_and_junk_is_skipped() {
    let mut d = Device::default();
    d.dhcp_name = "Redmi-Note-13-5G".into();
    d.mdns_name = "android".into();
    assert_eq!(d.best_name(), "Redmi-Note-13-5G");

    // Where DHCP reports the name of an interface, the announced name is taken.
    d.dhcp_name = "wlan0".into();
    d.mdns_name = "kitchen-speaker".into();
    assert_eq!(d.best_name(), "kitchen-speaker");

    // A system's default name says less than the announced one.
    d.dhcp_name = "Mac".into();
    d.mdns_name = "yedemacbook-air".into();
    assert_eq!(d.best_name(), "yedemacbook-air");

    // Where neither says anything, the address is taken.
    d.dhcp_name = "wlan0".into();
    d.mdns_name = "localhost".into();
    d.ipv4 = vec!["172.16.1.72".into()];
    assert_eq!(d.best_name(), "172.16.1.72");

    // The user's own name comes before all.
    d.note = "厨房热水器".into();
    assert_eq!(d.best_name(), "厨房热水器");
}

#[test]
fn the_users_name_is_never_junk() {
    let mut d = Device::default();
    d.note = s("Mac");
    d.dhcp_name = s("Redmi-Note-13-5G");
    assert_eq!(d.best_name(), "Mac");
    d.note = s("");
    assert_eq!(d.best_name(), "Redmi-Note-13-5G");
}

#[test]
fn addresses_stand_in_for_a_name() {
    let mut d = Device::default();
    d.mac = s("aa:bb:cc:dd:ee:ff");
    assert_eq!(d.best_name(), "aa:bb:cc:dd:ee:ff");
    d.ipv6 = vec![s("fe80::1")];
    assert_eq!(d.best_name(), "fe80::1");
    d.ipv6.push(s("2001:db8::1"));
    assert_eq!(d.best_name(), "2001:db8::1");
    d.static_name = s("printer");
    assert_eq!(d.best_name(), "printer");
    for n in ["ANDROID", "mac", "localhost", "localhost.localdomain", "unknown", "null", "-"] {
        assert!(junk_name(n), "{n}");
    }
    for n in ["device", "wlan0", "wlan1", "eth0", "eth1", "br-lan"] {
        assert!(junk_name(n), "{n}");
    }
    assert!(!junk_name("androids"));
    assert!(!junk_name(""));
    assert!(d.random_mac());
    d.mac = s("30:9c:23:c1:dd:70");
    assert!(!d.random_mac());
}

#[test]
fn the_way_of_asking_is_counted() {
    let mut d = Device::default();
    assert_eq!(d.dns_samples(), 0);
    d.record_dns_shape("A", 0);
    d.record_dns_shape("A", 1000);
    d.record_dns_shape("", 1001);
    d.record_dns_shape("AAAA", 1000);
    assert_eq!(d.qtypes.get("A"), Some(&2));
    assert_eq!(d.dns_samples(), 3);
    assert_eq!(d.dns_ports, vec![1000, 1001, 1000]);
    // Too few ports tell nothing.
    assert_eq!(d.distinct_ports(), None);
    for _ in 0..5 {
        d.record_dns_shape("A", 7);
    }
    assert_eq!(d.dns_ports.len(), 8);
    assert_eq!(d.distinct_ports(), Some(3));
    for p in 1..=40u16 {
        d.record_dns_shape("A", p);
    }
    assert_eq!(d.dns_ports.len(), PORT_RING);
    assert_eq!(d.dns_ports, (25..=40).collect::<Vec<u16>>());
    assert_eq!(wrap_add(u32::MAX, 2), 1);
    assert_eq!(wrap_add(3, 4), 7);
}

#[test]
fn an_address_leads_to_its_device() {
    let mut st = store();
    let d = st.get("30:9c:23:c1:dd:70", NOW);
    d.ipv4.push(s("10.0.0.5"));
    d.ipv6.push(s("2001:db8::5"));
    st.dirty = false;
    assert_eq!(st.by_ip("10.0.0.5").as_deref(), Some("30:9c:23:c1:dd:70"));
    assert_eq!(st.by_ip("2001:db8::5").as_deref(), Some("30:9c:23:c1:dd:70"));
    assert_eq!(st.by_ip("10.0.0.6"), None);
    assert_eq!(st.resolve_ip("10.0.0.5", NOW).as_deref(), Some("30:9c:23:c1:dd:70"));
    assert!(!st.dirty);

    // An address that holds the hardware address of a known device is noted.
    let ip = "fe80::329c:23ff:fec1:dd70";
    assert_eq!(st.resolve_ip(ip, NOW).as_deref(), Some("30:9c:23:c1:dd:70"));
    assert!(st.dirty);
    assert_eq!(st.by_ip(ip).as_deref(), Some("30:9c:23:c1:dd:70"));
    st.dirty = false;
    assert_eq!(st.resolve_ip(ip, NOW).as_deref(), Some("30:9c:23:c1:dd:70"));
    assert!(!st.dirty);
    assert_eq!(st.devs.get("30:9c:23:c1:dd:70").unwrap().ipv6.len(), 2);

    // One of a device that nobody knows leads nowhere.
    assert_eq!(st.resolve_ip("fe80::2ad1:27ff:fe1c:4809", NOW), None);
    assert_eq!(st.devs.len(), 1);
}
