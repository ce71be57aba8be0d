//! Texts, numbers, addresses and maps.

use whohere::names::NameMap;
use whohere::num::{
    parse_i32, parse_u16, parse_u64, parse_u8, parse_unsigned, push_dec, push_hex, push_hex_pair,
    push_numeral, show,
};
use whohere::text::{
    append, append_str, begins, chars, count_lead, count_trail, cut, ends_with, eq, has_char, holds,
    is_white, join, join_slices, keep, lines, lists, mentions, only, owned, part_first, part_last,
    part_text, position, precedes, same, spells, split, split_text, split_words, stands_at,
    starts_with, strip_prefixes, strip_suffix, strip_suffixes, text, to_lower, to_upper, trim,
    trim_back, trim_front, trim_of, until, word, Class,
};
use whohere::util::{
    fmt_v6, is_random_mac, mac_from_eui64, norm_domain, norm_domain_of, norm_mac, oui_prefix,
    parse_v6, uci_bool, uci_get, uci_get_or, uci_num,
};
use whohere::wire::{be16, be32, fmt_v4};

fn c(x: &str) -> Vec<char> {
    x.chars().collect()
}

fn st(x: &[char]) -> String {
    x.iter().collect()
}

fn all(v: Vec<&[char]>) -> Vec<String> {
    v.into_iter().map(st).collect()
}

#[test]
fn v6_roundtrip_matches_iproute_style() {
    for s in [
        "fe80::329c:23ff:fec1:dd70",
        "2408:8207:1234:5678::1",
        "::1",
        "fd5e:a2fd:b8e::1",
        "2001:db8:0:1:1:1:1:1",
    ] {
        let b = parse_v6(s).unwrap_or_else(|| panic!("parse failed: {s}"));
        assert_eq!(fmt_v6(&b), s, "roundtrip mismatch for {s}");
    }
    assert_eq!(parse_v6("fe80::1%br-lan").map(|b| fmt_v6(&b)).unwrap(), "fe80::1");
    assert!(parse_v6("not an address").is_none());
    assert!(parse_v6("1:2:3:4:5:6:7").is_none());
}

#[test]
fn eui64_addresses_reveal_the_mac() {
    assert_eq!(
        mac_from_eui64("fe80::2ad1:27ff:fe1c:4809").unwrap(),
        "28:d1:27:1c:48:09"
    );
    assert_eq!(
        mac_from_eui64("fe80::329c:23ff:fec1:dd70").unwrap(),
        "30:9c:23:c1:dd:70"
    );
    // Addresses made by chance reveal nothing.
    assert!(mac_from_eui64("2408:8207:1:2:9c4d:1a2b:3c4d:5e6f").is_none());
    assert!(mac_from_eui64("172.16.0.5").is_none());
}

#[test]
fn the_longest_run_of_zeros_is_left_out() {
    let show = |s: &str| parse_v6(s).map(|b| fmt_v6(&b));
    assert_eq!(show("::").as_deref(), Some("::"));
    assert_eq!(show("1::").as_deref(), Some("1::"));
    assert_eq!(show("0:0:1:0:0:0:1:0").as_deref(), Some("0:0:1::1:0"));
    // Of two runs of the same length, the first.
    assert_eq!(show("1:0:0:1:0:0:1:1").as_deref(), Some("1::1:0:0:1:1"));
    assert_eq!(show("FE80:0:0:0:0:0:0:00A").as_deref(), Some("fe80::a"));
    assert_eq!(show("1:2:3:4:5:6:7:8:9"), None);
    assert_eq!(show("1:2:3:4::5:6:7:8").as_deref(), Some("1:2:3:4:5:6:7:8"));
    assert_eq!(show("12345::"), None);
    assert_eq!(show("+1::"), None);
    assert_eq!(show("::+1"), None);
    assert_eq!(show("::-1"), None);
    assert_eq!(show("1:::2"), None);
    assert_eq!(show("1::2::3"), None);
    assert_eq!(show(""), None);
}

#[test]
fn hardware_addresses_are_normalised() {
    assert_eq!(norm_mac("30-9C-23-C1-DD-70").as_deref(), Some("30:9c:23:c1:dd:70"));
    assert_eq!(norm_mac("309c.23c1.dd70").as_deref(), Some("30:9c:23:c1:dd:70"));
    assert_eq!(norm_mac("30:9c:23:c1:dd"), None);
    assert_eq!(norm_mac("30:9c:23:c1:dd:70:1"), None);
    // The normal form is its own normal form.
    assert_eq!(norm_mac("30:9c:23:c1:dd:70").as_deref(), Some("30:9c:23:c1:dd:70"));
    assert!(is_random_mac("32:9c:23:c1:dd:70"));
    assert!(!is_random_mac("30:9c:23:c1:dd:70"));
    assert!(!is_random_mac("zz"));
    assert!(!is_random_mac(""));
    assert_eq!(oui_prefix("30:9c:23:c1:dd:70"), "309c23");
    assert_eq!(oui_prefix("3x"), "3");
    assert_eq!(norm_domain(" A.Test.. "), "a.test");
    assert_eq!(norm_domain_of(&c("A.Test.")), "a.test");
    assert_eq!(uci_get(" x \n"), "x");
    assert_eq!(uci_get_or("\n", "d"), "d");
    assert_eq!(uci_get_or("v\n", "d"), "v");
    for on in ["1", "true", "yes", "on\n"] {
        assert!(uci_bool(on, false), "{on}");
    }
    for off in ["0", "false", "no", "off"] {
        assert!(!uci_bool(off, true), "{off}");
    }
    assert!(uci_bool("TRUE", true) && !uci_bool("TRUE", false));
    assert_eq!(uci_num("90\n", 5, 60), 90);
    assert_eq!(uci_num("9", 5, 60), 60);
    assert_eq!(uci_num("x", 70, 60), 70);
    assert_eq!(uci_num("18446744073709551616", 70, 60), 70);
}

#[test]
fn white_space_and_controls_are_those_of_unicode() {
    for n in 0..=0x10ffffu32 {
        if let Some(x) = char::from_u32(n) {
            assert_eq!(is_white(x), x.is_whitespace(), "{n:x}");
            assert_eq!(Class::White.has(x), x.is_whitespace(), "{n:x}");
            assert_eq!(Class::Solid.has(x), !x.is_whitespace(), "{n:x}");
            assert_eq!(Class::Printable.has(x), !x.is_control(), "{n:x}");
            assert_eq!(Class::Digit.has(x), x.is_ascii_digit(), "{n:x}");
            assert_eq!(Class::NonDigit.has(x), !x.is_ascii_digit(), "{n:x}");
            assert_eq!(Class::Hex.has(x), x.is_ascii_hexdigit(), "{n:x}");
        }
    }
    assert!(Class::Decimal.has('.') && Class::Decimal.has('7') && !Class::Decimal.has('a'));
    assert!(Class::Address.has(':') && Class::Address.has('f') && !Class::Address.has('g'));
    assert!(Class::Is('x').has('x') && Class::IsNot('x').has('y'));
}

#[test]
fn texts_are_taken_apart_as_std_does() {
    let samples = [
        "",
        " ",
        "a",
        "a b",
        "  a\tb \n",
        "a.b.c",
        ".a.",
        "..",
        "x=y=z",
        "é ü\u{3000}b",
        "a\r\nb\r\n\r\nc",
        "a\n",
        "\r",
        "abab",
    ];
    for s in samples {
        let v = c(s);
        assert_eq!(st(trim(&v)), s.trim(), "{s:?}");
        assert_eq!(all(split_words(&v)), s.split_whitespace().collect::<Vec<_>>(), "{s:?}");
        assert_eq!(all(split(&v, '.')), s.split('.').collect::<Vec<_>>(), "{s:?}");
        assert_eq!(all(split_text(&v, "ab")), s.split("ab").collect::<Vec<_>>(), "{s:?}");
        assert_eq!(all(lines(&v)), s.lines().collect::<Vec<_>>(), "{s:?}");
        assert_eq!(
            part_first(&v, '=').map(|(a, b)| (st(a), st(b))),
            s.split_once('=').map(|(a, b)| (a.to_string(), b.to_string()))
        );
        assert_eq!(
            part_last(&v, '=').map(|(a, b)| (st(a), st(b))),
            s.rsplit_once('=').map(|(a, b)| (a.to_string(), b.to_string()))
        );
        assert_eq!(
            part_text(&v, "a.").map(|(a, b)| (st(a), st(b))),
            s.split_once("a.").map(|(a, b)| (a.to_string(), b.to_string()))
        );
        assert_eq!(st(until(&v, '.')), s.split('.').next().unwrap());
        assert_eq!(st(trim_of(&v, Class::Is('.'))), s.trim_matches('.'));
        assert_eq!(st(trim_front(&v, Class::White)), s.trim_start());
        assert_eq!(st(trim_back(&v, Class::White)), s.trim_end());
        assert_eq!(st(strip_suffixes(&v, "b")), s.trim_end_matches("b"));
        assert_eq!(st(strip_prefixes(&v, "ab")), s.trim_start_matches("ab"));
        assert_eq!(strip_suffix(&v, ".c").map(st), s.strip_suffix(".c").map(|x| x.to_string()));
        assert_eq!(st(&to_lower(&v)), s.to_ascii_lowercase());
        assert_eq!(st(&to_upper(&v)), s.to_ascii_uppercase());
        assert_eq!(st(word(&v)), s.split_whitespace().next().unwrap_or(""));
        assert_eq!(st(cut(&v, 2)), s.chars().take(2).collect::<String>());
        assert_eq!(only(&v, Class::Digit), s.chars().all(|x| x.is_ascii_digit()));
        assert_eq!(
            st(&keep(&v, Class::Solid)),
            s.chars().filter(|x| !x.is_whitespace()).collect::<String>()
        );
        assert_eq!(
            count_lead(&v, Class::White),
            s.chars().take_while(|x| x.is_whitespace()).count()
        );
        assert_eq!(
            count_trail(&v, Class::White),
            s.chars().rev().take_while(|x| x.is_whitespace()).count()
        );
        assert_eq!(has_char(&v, '.'), s.contains('.'));
        assert_eq!(mentions(&v, "b"), s.contains("b"));
        assert_eq!(begins(&v, "a"), s.starts_with("a"));
        assert_eq!(st(&chars(s)), s);
        assert_eq!(text(&v), s);
        assert_eq!(owned(s), s);
    }
}

#[test]
fn texts_are_compared_and_found() {
    assert_eq!(position(&c("xabab"), &c("ab")), Some(1));
    assert_eq!(position(&c("xabab"), &c("")), Some(0));
    assert_eq!(position(&c("x"), &c("xx")), None);
    assert!(holds(&c("xabab"), &c("bab")));
    assert!(stands_at(&c("xabab"), &c("ba"), 2));
    assert!(!stands_at(&c("xabab"), &c("ba"), 4));
    assert!(starts_with(&c("xabab"), &c("xa")));
    assert!(ends_with(&c("xabab"), &c("ab")));
    assert!(same(&c("a"), &c("a")) && !same(&c("a"), &c("ab")));
    assert!(spells(&c("ab"), "ab") && !spells(&c("ab"), "a"));
    assert!(eq("ab", "ab") && !eq("ab", "aB"));
    assert!(lists(&vec!["a".to_string()], "a") && !lists(&vec![], "a"));
    assert!(precedes("a", "b") && precedes("", "a") && !precedes("b", "a") && !precedes("a", "a"));
    assert!(precedes("Z", "a") && precedes("z", "é") && precedes("ab", "b"));
    assert_eq!(join(&vec!["a".to_string(), "b".to_string()], ", "), "a, b");
    assert_eq!(join(&vec![], ", "), "");
    assert_eq!(join_slices(&vec![&['a'][..], &['b'][..]], "/"), "a/b");
    let mut out = String::from("x");
    append(&mut out, &['y']);
    append_str(&mut out, "zé");
    assert_eq!(out, "xyzé");
}

#[test]
fn numbers_are_read_and_written() {
    let numbers = [
        "0", "7", "007", "255", "256", "65535", "65536", "+9", "-9", "+", "-", "", " 1", "1 ",
        "a", "18446744073709551615", "18446744073709551616", "2147483647", "-2147483648",
        "-2147483649",
    ];
    for s in numbers {
        let v = c(s);
        assert_eq!(parse_u64(&v), s.parse::<u64>().ok(), "{s:?}");
        assert_eq!(parse_u16(&v), s.parse::<u16>().ok(), "{s:?}");
        assert_eq!(parse_u8(&v), s.parse::<u8>().ok(), "{s:?}");
        assert_eq!(parse_i32(&v), s.parse::<i32>().ok(), "{s:?}");
        assert_eq!(
            parse_unsigned(&v, 16, 65535),
            u16::from_str_radix(s, 16).ok().map(|x| x as u64),
            "{s:?}"
        );
    }
    for n in [0, 9, 10, 99, 255, 4096, u64::MAX] {
        assert_eq!(show(n), n.to_string());
        let mut out = String::new();
        push_dec(&mut out, n);
        push_hex(&mut out, n);
        push_numeral(&mut out, n, 10);
        assert_eq!(out, format!("{n}{n:x}{n}"));
    }
    let mut out = String::new();
    push_hex_pair(&mut out, 0x0a);
    push_hex_pair(&mut out, 0xf0);
    assert_eq!(out, "0af0");
    assert_eq!(be16(&[1, 2, 3], 1), 0x0203);
    assert_eq!(be32(&[1, 2, 3, 4, 5], 1), 0x02030405);
    assert_eq!(fmt_v4(10, 0, 255, 1), "10.0.255.1");
}

#[test]
fn maps_keep_their_names_in_order() {
    let mut m: NameMap<u32> = NameMap::new();
    assert!(m.is_empty());
    for (k, v) in [("b", 2), ("a", 1), ("c", 3), ("b", 20)] {
        m.insert(k.to_string(), v);
    }
    assert_eq!(m.len(), 3);
    assert_eq!(
        (m.name_at(0).as_str(), m.name_at(1).as_str(), m.name_at(2).as_str()),
        ("a", "b", "c")
    );
    assert_eq!((m.get("b"), m.get("x")), (Some(&20), None));
    assert!(m.contains_key("c"));
    *m.entry("d", 5) += 1;
    *m.entry("d", 5) += 1;
    assert_eq!(m.get("d"), Some(&7));
    if let Some(v) = m.get_mut("a") {
        *v = 9;
    }
    *m.value_at_mut(2) = 30;
    assert_eq!((*m.value_at(0), *m.value_at(2)), (9, 30));
    m.retain_marked(&vec![true, false, true, false]);
    assert_eq!((m.len(), m.get("b"), m.get("c")), (2, None, Some(&30)));
    assert_eq!(m.remove("a"), Some(9));
    assert_eq!(m.remove("a"), None);
    assert_eq!(m.remove_at(0), 30);
    assert!(NameMap::<u8>::default().is_empty());
}
