//! Who is on the network.

use whohere::clients::{
    add_text, collect, copy_opt, from_leases, from_neigh, from_wifi, ghz_text, has_inside, in_lan,
    lan_devices, lan_ifaces, lan_nets, pick_devices, pick_nets, read_ifaces, static_names,
    v4_to_u32, wifi_names, Iface, Radio, Seen,
};
use whohere::live::{apply_holders, merge_live, wanted_prefixes, ADDRESS_MAX};
use whohere::names::NameMap;
use whohere::oui::{count, lookup_many, DEFAULT_DB};
use whohere::store::Store;

const NOW: u64 = 1_700_000_000;
const MAC: &str = "30:9c:23:c1:dd:70";

fn s(x: &str) -> String {
    x.to_string()
}

fn net(a: &str, bits: u32) -> (u32, u32) {
    let mask = u32::MAX << (32 - bits);
    (v4_to_u32(a).unwrap() & mask, mask)
}

#[test]
fn leases_name_their_holders() {
    let mut m: NameMap<Seen> = NameMap::new();
    from_leases(
        &mut m,
        "1700000000 30:9C:23:C1:DD:70 10.0.0.5 Redmi 01:aa\n\
         x 30:9c:23:c1:dd:70 2001:db8::5 * *\n\
         short line\n\
         1 not-a-mac 10.0.0.6 name id\n\
         1 30:9c:23:c1:dd:70 10.0.0.5 Redmi 01:aa\n",
    );
    assert_eq!(m.len(), 1);
    let e = m.get(MAC).unwrap();
    assert_eq!(e.ipv4, vec!["10.0.0.5"]);
    assert_eq!(e.ipv6, vec!["2001:db8::5"]);
    assert_eq!(e.dhcp_name.as_deref(), Some("Redmi"));
    assert_eq!(e.lease_expire, 1);
    assert!(!e.reachable);
}

#[test]
fn neighbours_that_fail_are_not_there() {
    let mut m: NameMap<Seen> = NameMap::new();
    from_neigh(
        &mut m,
        "10.0.0.5 dev br-lan lladdr 30:9c:23:c1:dd:70 STALE\n\
         fe80::1 dev wlan0 lladdr 30:9c:23:c1:dd:70 REACHABLE\n\
         10.0.0.7 dev br-lan lladdr 28:d1:27:1c:48:09 FAILED\n\
         10.0.0.8 dev br-lan INCOMPLETE x\n\
         10.0.0.9 dev br-lan lladdr zz STALE\n\
         10.0.0.2 dev br-lan lladdr aa:bb:cc:dd:ee:ff PERMANENT\n\
         10.0.0.3 dev br-lan lladdr aa:bb:cc:dd:ee:fe NOARP\n",
    );
    assert_eq!(m.len(), 1);
    let e = m.get(MAC).unwrap();
    assert_eq!(e.ipv4, vec!["10.0.0.5"]);
    assert_eq!(e.ipv6, vec!["fe80::1"]);
    assert_eq!(e.iface.as_deref(), Some("br-lan"));
    assert!(e.reachable);
}

#[test]
fn radios_list_their_stations() {
    let shown = "wlan0     ESSID: \"home\"\n          Access Point: 00:11:22:33:44:55\n\
                 radio1    no wireless\nwlan1     ESSID: \"guest\"\n";
    assert_eq!(wifi_names(shown), vec!["wlan0", "wlan1"]);
    assert_eq!(ghz_text("Channel: 34 (5.170 GHz) HT").as_deref(), Some("5.170"));
    assert_eq!(ghz_text("no channel"), None);

    let mut m: NameMap<Seen> = NameMap::new();
    from_wifi(
        &mut m,
        "wlan0",
        &Some(s("5G")),
        "30:9C:23:C1:DD:70  -55 dBm / -95 dBm (SNR 40)  0 ms ago\n\tRX: 1\n",
    );
    assert_eq!(m.len(), 1);
    let e = m.get(MAC).unwrap();
    assert_eq!(e.iface.as_deref(), Some("wlan0"));
    assert_eq!(e.band.as_deref(), Some("5G"));
    assert_eq!(e.signal, Some(-55));
    assert!(e.reachable);
    assert_eq!(copy_opt(&Some(s("x"))).as_deref(), Some("x"));
    assert_eq!(copy_opt(&None), None);
}

const UCI: &str = "dhcp.lan=dhcp\ndhcp.lan.interface='lan'\ndhcp.guest=dhcp\n\
                   dhcp.guest.interface='guest'\ndhcp.wan=dhcp\ndhcp.wan.interface='wan'\n\
                   dhcp.wan.ignore='1'\ndhcp.@host[0]=host\ndhcp.@host[0].name='printer'\n\
                   dhcp.@host[0].mac='30:9C:23:C1:DD:70'\ndhcp.@host[1].mac='28:d1:27:1c:48:09'\n";

const DUMP: &str = r#"{"interface":[
    {"interface":"loopback","l3_device":"lo","ipv4-address":[{"address":"127.0.0.1","mask":8}]},
    {"interface":"lan","l3_device":"br-lan","device":"br-lan",
     "ipv4-address":[{"address":"10.0.0.1","mask":24},{"address":"bad","mask":24},
                     {"address":"10.9.0.1","mask":0}]},
    {"interface":"guest","device":"br-guest","ipv4-address":[{"address":"192.168.7.1","mask":25}]},
    {"interface":"wan","l3_device":"eth1","ipv4-address":[{"address":"1.2.3.4","mask":20}]}]}"#;

#[test]
fn fixed_names_are_read() {
    let m = static_names(UCI);
    assert_eq!(m.len(), 1);
    assert_eq!(m.get(MAC).map(|x| x.as_str()), Some("printer"));
}

#[test]
fn own_networks_are_those_that_get_addresses() {
    let mut names = lan_ifaces(UCI);
    names.sort();
    assert_eq!(names, vec!["guest", "lan"]);
    assert_eq!(lan_devices(UCI, DUMP), vec!["br-lan", "br-guest"]);
    assert_eq!(lan_nets(UCI, DUMP), vec![net("10.0.0.0", 24), net("192.168.7.0", 25)]);
    // Without a configuration the names decide, and there is nothing to listen on.
    assert_eq!(lan_nets("", DUMP), vec![net("10.0.0.0", 24), net("192.168.7.0", 25)]);
    assert_eq!(lan_devices("", DUMP), Vec::<String>::new());
    assert_eq!(lan_nets(UCI, "not json"), vec![]);
    assert_eq!(lan_devices(UCI, "{\"interface\":{}}"), Vec::<String>::new());

    let ifs = read_ifaces(DUMP);
    assert_eq!(ifs.len(), 4);
    assert_eq!(ifs[2].name, "guest");
    assert_eq!(ifs[2].l3_device, None);
    assert_eq!(ifs[2].device.as_deref(), Some("br-guest"));
    assert_eq!(ifs[1].v4[0], (s("10.0.0.1"), 24));
    let one = vec![
        Iface {
            name: s("wwan0"),
            l3_device: None,
            device: Some(s("w0")),
            v4: vec![(s("10.1.1.1"), 32)],
        },
    ];
    assert_eq!(pick_nets(&vec![], &one), vec![]);
    assert_eq!(pick_nets(&vec![s("wwan0")], &one), vec![net("10.1.1.1", 32)]);
    assert_eq!(pick_devices(&vec![s("wwan0")], &one), vec!["w0"]);
}

#[test]
fn addresses_are_inside_or_outside() {
    assert_eq!(v4_to_u32("10.0.0.1"), Some(0x0a000001));
    assert_eq!(v4_to_u32("10.0.0"), None);
    assert_eq!(v4_to_u32("10.0.0.256"), None);
    let nets = vec![net("10.0.0.0", 24)];
    assert!(in_lan(&nets, "10.0.0.77"));
    assert!(!in_lan(&nets, "10.0.1.77"));
    assert!(in_lan(&nets, "fe80::1"));
    assert!(in_lan(&[], "8.8.8.8"));
    assert!(has_inside(&nets, &vec![s("8.8.8.8"), s("10.0.0.3")]));
    assert!(!has_inside(&nets, &vec![s("8.8.8.8")]));
    assert!(has_inside(&nets, &vec![]));
    let mut v = vec![s("a")];
    add_text(&mut v, "a");
    add_text(&mut v, "b");
    assert_eq!(v, vec!["a", "b"]);
}

#[test]
fn the_router_and_strangers_are_no_clients() {
    let radios = vec![Radio {
        dev: s("wlan0"),
        band: Some(s("5G")),
        stations: s("28:D1:27:1C:48:09  -60 dBm / -95 dBm (SNR 35)  0 ms ago\n"),
    }];
    let m = collect(
        "1 30:9c:23:c1:dd:70 10.0.0.5 Redmi *\n",
        "1.2.3.1 dev eth1 lladdr 00:00:5e:00:01:01 REACHABLE\n\
         10.0.0.1 dev br-lan lladdr 00:11:22:33:44:55 REACHABLE\n",
        "fe80::1 dev br-lan lladdr 30:9c:23:c1:dd:70 STALE\n",
        &radios,
        "2: br-lan: <UP> mtu 1500 link/ether 00:11:22:33:44:55 brd ff:ff:ff:ff:ff:ff\n",
        &[net("10.0.0.0", 24)],
    );
    assert_eq!(m.len(), 2);
    let e = m.get(MAC).unwrap();
    assert_eq!((e.ipv4.len(), e.ipv6.len()), (1, 1));
    // A station without an address stays.
    assert_eq!(m.get("28:d1:27:1c:48:09").unwrap().signal, Some(-60));
    assert!(m.get("00:11:22:33:44:55").is_none());
    assert!(m.get("00:00:5e:00:01:01").is_none());
}

#[test]
fn seen_clients_go_into_the_store() {
    let mut st = Store::load(NameMap::new(), "/tmp/x", NOW);
    let old = st.get("28:d1:27:1c:48:09", NOW - 1000);
    old.online = true;
    old.ipv4.push(s("10.0.0.9"));
    let away = st.get("28:d1:27:1c:48:0a", NOW - 1000);
    away.ipv4.push(s("1.2.3.4"));
    let mut seen: NameMap<Seen> = NameMap::new();
    let mut e = Seen::default();
    e.ipv4 = vec![s("10.0.0.5"), s("10.0.0.6")];
    e.ipv6 = vec![s("fe80::1"), s("fe80::2"), s("fe80::3"), s("fe80::4"), s("fe80::5")];
    e.dhcp_name = Some(s("Redmi"));
    e.iface = Some(s("wlan0"));
    e.reachable = true;
    seen.insert(s(MAC), e);
    let mut names: NameMap<String> = NameMap::new();
    names.insert(s(MAC), s("printer"));
    merge_live(&mut st, &seen, &names, &[net("10.0.0.0", 24)], NOW, 300);
    let d = st.devs.get(MAC).unwrap();
    assert!(d.online);
    assert_eq!(d.dhcp_name, "Redmi");
    assert_eq!(d.static_name, "printer");
    assert_eq!(d.iface, "wlan0");
    assert_eq!(d.last_seen, NOW);
    assert_eq!(d.ipv4, vec!["10.0.0.5", "10.0.0.6"]);
    assert_eq!(d.ipv6.len(), ADDRESS_MAX);
    // What was not seen is no longer online; what is outside is gone.
    assert!(!st.devs.get("28:d1:27:1c:48:09").unwrap().online);
    assert!(st.devs.get("28:d1:27:1c:48:0a").is_none());
}

#[test]
fn makers_are_looked_up_by_prefix() {
    assert_eq!(DEFAULT_DB, "/usr/share/whohere/oui.txt");
    let lines: Vec<String> = [
        "#309C23\tno",
        "28D127\tApple Inc.",
        "no tab",
        " 309C23 \t Beijing Xiaomi ",
        "309c23\tToo late",
    ]
        .iter()
        .map(|x| s(x))
        .collect();
    let mut st = Store::load(NameMap::new(), "/tmp/x", NOW);
    st.get(MAC, NOW);
    st.get("32:9c:23:c1:dd:70", NOW);
    let known = st.get("28:d1:27:1c:48:09", NOW);
    known.oui = s("Apple");
    let want = wanted_prefixes(&st);
    assert_eq!(want.len(), 1);
    assert_eq!(want.name_at(0), "309c23");
    let mut found: NameMap<String> = NameMap::new();
    let done = lookup_many(&lines, &want, &mut found);
    assert!(done);
    assert_eq!(found.len(), 1);
    apply_holders(&mut st, &found);
    assert_eq!(st.devs.get(MAC).unwrap().oui, "Beijing Xiaomi");
    assert_eq!(st.devs.get("32:9c:23:c1:dd:70").unwrap().oui, "");
    assert_eq!(count(&lines), 3);
}

#[test]
fn each_prefix_has_the_holder_of_its_line() {
    let lines: Vec<String> = [
        "000001\tFirst",
        "# a comment",
        "000002\tSecond",
        "000003\tThird",
        "000004\tFourth",
    ]
        .iter()
        .map(|x| s(x))
        .collect();
    let mut want: NameMap<bool> = NameMap::new();
    for p in ["000003", "000001", "00000f"] {
        want.insert(s(p), true);
    }
    // Cut anywhere into two parts, the list says the same.
    for k in 0..lines.len() + 1 {
        let mut found: NameMap<String> = NameMap::new();
        assert!(!lookup_many(&lines[..k].to_vec(), &want, &mut found));
        assert!(!lookup_many(&lines[k..].to_vec(), &want, &mut found));
        assert_eq!(found.len(), 2);
        assert_eq!(found.get("000001").unwrap(), "First");
        assert_eq!(found.get("000003").unwrap(), "Third");
        assert!(found.get("00000f").is_none());
    }
}
