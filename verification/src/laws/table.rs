//! What is read from the tables of clients and from the configuration of the network.

use crate::clients::{
    added, all_seen, answers, any_inside, configured_names, device_step, dhcp_sections, expiry,
    ghz_figure, ifaces_in, inner_marks, inner_nets, inner_only, inside, is_inner, law_same_net,
    lease_step, leases, names_by_mac, neigh_step, neighbours, net_mask, net_of, nets_of, octets,
    own_mac, place_of, radio_name, radio_names, radios, sections, served, setting, station_step,
    stations, unignored, unseen, v4_number, wanted_devices, with_ip, without_own, word_behind,
    IfaceView, Radio, SeenView,
};
use crate::json::{member_list, member_of, member_text, Tree};
use crate::laws::announce::lemma_octet;
use crate::laws::live::lemma_marked_lookup;
use crate::laws::rules::{leads, lemma_leads};
use crate::laws::text::{
    blank, free_of, law_endings_are_cut, law_parting_at_a_text, law_parting_at_the_first,
    law_pieces, lemma_trimming,
};
use crate::names::{
    law_put_then_lookup, law_without_then_lookup, lemma_lookup_at, lemma_lookup_index, lookup,
    lookup_or, ordered, Entries,
};
use crate::num::{dec, signed, unsigned};
use crate::text::{
    back_trimmed, contains, cut_suffix, ends, first_word, in_class, lemma_less_total,
    lemma_trail_is, less, line_list, occurs_at, pieces, trimmed, white, words, Class,
};
use crate::util::{mac_normal, opt_text};
use crate::wire::v4_text;
use vstd::prelude::*;
use vstd::utf8::encode_utf8;

verus! {

// ---------------------------------------------------------------------------
// Tables of clients
// ---------------------------------------------------------------------------

/// The word behind another is the one that follows its first occurrence.
pub proof fn law_word_behind_another(v: Seq<Seq<char>>, w: Seq<char>, i: int)
    requires
        0 <= i <= v.len(),
        i < v.len() ==> v[i] == w,
        forall|j: int| 0 <= j < i ==> #[trigger] v[j] != w,
    ensures
        i + 1 < v.len() ==> word_behind(v, w) == Some(v[i + 1]),
        i + 1 >= v.len() ==> word_behind(v, w) is None,
{
    lemma_place(v, w, i);
}

proof fn lemma_place(v: Seq<Seq<char>>, w: Seq<char>, i: int)
    requires
        0 <= i <= v.len(),
        i < v.len() ==> v[i] == w,
        forall|j: int| 0 <= j < i ==> #[trigger] v[j] != w,
    ensures
        i < v.len() ==> place_of(v, w) == Some(i),
        i == v.len() ==> place_of(v, w) is None,
    decreases v.len(),
{
    if v.len() > 0 && i > 0 {
        assert(v[0] != w);
        assert forall|j: int| 0 <= j < i - 1 implies #[trigger] v.skip(1)[j] != w by {
            assert(v.skip(1)[j] == v[j + 1]);
        }
        lemma_place(v.skip(1), w, i - 1);
    }
}

/// Whether a client has an address, in the list of its family.
pub open spec fn under(s: SeenView, ip: Seq<char>) -> bool {
    if contains(ip, ":"@) {
        s.ipv6.contains(ip)
    } else {
        s.ipv4.contains(ip)
    }
}

/// An address is listed once, with those that were there before.
pub proof fn law_addresses_are_listed_once(v: Seq<Seq<char>>, ip: Seq<char>)
    ensures
        added(v, ip).contains(ip),
        forall|i: int| 0 <= i < v.len() ==> #[trigger] added(v, ip)[i] == v[i],
        v.contains(ip) ==> added(v, ip) == v,
        !v.contains(ip) ==> added(v, ip).len() == v.len() + 1,
{
    if !v.contains(ip) {
        assert(v.push(ip)[v.len() as int] == ip);
    }
}

proof fn lemma_under(s: SeenView, ip: Seq<char>)
    ensures
        under(with_ip(s, ip), ip),
        with_ip(s, ip) == (SeenView {
            ipv4: with_ip(s, ip).ipv4,
            ipv6: with_ip(s, ip).ipv6,
            ..s
        }),
        more_addresses(s, with_ip(s, ip)),
{
    law_addresses_are_listed_once(s.ipv4, ip);
    law_addresses_are_listed_once(s.ipv6, ip);
    lemma_more(s.ipv4, ip);
    lemma_more(s.ipv6, ip);
}

proof fn lemma_more(v: Seq<Seq<char>>, ip: Seq<char>)
    ensures
        forall|x: Seq<char>| #[trigger] v.contains(x) ==> added(v, ip).contains(x),
{
    assert forall|x: Seq<char>| #[trigger] v.contains(x) implies added(v, ip).contains(x) by {
        let i = choose|i: int| 0 <= i < v.len() && v[i] == x;
        assert(added(v, ip)[i] == x);
    }
}

/// Whether a client has the addresses that it had.
pub open spec fn more_addresses(s: SeenView, t: SeenView) -> bool {
    &&& forall|x: Seq<char>| #[trigger] s.ipv4.contains(x) ==> t.ipv4.contains(x)
    &&& forall|x: Seq<char>| #[trigger] s.ipv6.contains(x) ==> t.ipv6.contains(x)
}

/// A lease tells when it ends, which client has it, its address, and its name unless that is
/// a star. What else is known of the client stays, and so do the other clients; a line that
/// is no lease changes nothing.
pub proof fn law_lease_is_read(
    m: Entries<SeenView>,
    line: Seq<char>,
    mac: Seq<char>,
    other: Seq<char>,
)
    requires
        ordered(m),
        other != mac,
    ensures
        ({
            let f = words(line);
            let was = lookup_or(m, mac, unseen());
            let now = lookup_or(lease_step(m, line), mac, unseen());
            &&& f.len() >= 4 && mac_normal(f[1]) == Some(mac) ==> {
                &&& lookup(lease_step(m, line), mac) is Some
                &&& lookup(lease_step(m, line), other) == lookup(m, other)
                &&& under(now, f[2]) && more_addresses(was, now)
                &&& match unsigned(f[0], 10, u64::MAX as nat) {
                    Some(n) => now.lease_expire == n,
                    None => now.lease_expire == 0,
                }
                &&& f[3] != "*"@ && f[3].len() > 0 ==> now.dhcp_name == Some(f[3])
                &&& f[3] == "*"@ || f[3].len() == 0 ==> now.dhcp_name == was.dhcp_name
                &&& now.iface == was.iface && now.band == was.band && now.signal == was.signal
                &&& now.reachable == was.reachable
            }
            &&& f.len() < 4 || mac_normal(f[1]) is None ==> lease_step(m, line) == m
        }),
{
    let f = words(line);
    let was = lookup_or(m, mac, unseen());
    if f.len() >= 4 && mac_normal(f[1]) == Some(mac) {
        let dated = SeenView { lease_expire: expiry(f[0]), ..was };
        let s = with_ip(dated, f[2]);
        lemma_under(dated, f[2]);
        let t = if f[3] != "*"@ && f[3].len() > 0 {
            SeenView { dhcp_name: Some(f[3]), ..s }
        } else {
            s
        };
        law_put_then_lookup(m, mac, t, other);
    }
}

/// A line of the table of neighbours tells an address, the client behind `lladdr` that has
/// it, the interface behind `dev` unless one is known, and in its last word whether the
/// client is there: only such lines count, and those that answer make it reachable.
pub proof fn law_neighbour_is_read(
    m: Entries<SeenView>,
    line: Seq<char>,
    mac: Seq<char>,
    other: Seq<char>,
)
    requires
        ordered(m),
        other != mac,
    ensures
        ({
            let f = words(line);
            let was = lookup_or(m, mac, unseen());
            let now = lookup_or(neigh_step(m, line), mac, unseen());
            let state = f.last();
            let answering = state == "REACHABLE"@ || state == "DELAY"@ || state == "PROBE"@;
            let client = match word_behind(f, "lladdr"@) {
                Some(w) => mac_normal(w),
                None => None,
            };
            &&& f.len() >= 5 && (answering || state == "STALE"@) && client == Some(mac) ==> {
                &&& lookup(neigh_step(m, line), mac) is Some
                &&& lookup(neigh_step(m, line), other) == lookup(m, other)
                &&& under(now, f[0]) && more_addresses(was, now)
                &&& now.reachable == (was.reachable || answering)
                &&& was.iface is Some ==> now.iface == was.iface
                &&& was.iface is None ==> now.iface == word_behind(f, "dev"@)
                &&& now.dhcp_name == was.dhcp_name && now.lease_expire == was.lease_expire
                &&& now.band == was.band && now.signal == was.signal
            }
            &&& f.len() < 5 || (!answering && state != "STALE"@) || client is None ==> neigh_step(
                m,
                line,
            ) == m
        }),
{
    let f = words(line);
    let was = lookup_or(m, mac, unseen());
    if f.len() >= 5 {
        let s = with_ip(was, f[0]);
        lemma_under(was, f[0]);
        let t = SeenView {
            iface: if s.iface is None {
                word_behind(f, "dev"@)
            } else {
                s.iface
            },
            reachable: s.reachable || answers(f.last()),
            ..s
        };
        law_put_then_lookup(m, mac, t, other);
    }
}

/// A line of the list of stations begins with the address of a client that is there, in
/// seventeen characters, and its signal; the interface and the band are those of the list.
pub proof fn law_station_is_read(
    m: Entries<SeenView>,
    line: Seq<char>,
    dev: Seq<char>,
    band: Option<Seq<char>>,
    mac: Seq<char>,
    other: Seq<char>,
)
    requires
        ordered(m),
        other != mac,
    ensures
        ({
            let t = trimmed(line);
            let w = first_word(t);
            let was = lookup_or(m, mac, unseen());
            let now = lookup_or(station_step(m, line, dev, band), mac, unseen());
            &&& mac_normal(w) == Some(mac) && encode_utf8(w).len() == 17 ==> {
                &&& lookup(station_step(m, line, dev, band), mac) is Some
                &&& lookup(station_step(m, line, dev, band), other) == lookup(m, other)
                &&& now.reachable && now.iface == Some(dev) && now.band == band
                &&& words(t).len() > 1 ==> match signed(words(t)[1]) {
                    Some(n) => now.signal == Some(n as i32),
                    None => now.signal is None,
                }
                &&& words(t).len() <= 1 ==> now.signal is None
                &&& now.ipv4 == was.ipv4 && now.ipv6 == was.ipv6
                &&& now.dhcp_name == was.dhcp_name && now.lease_expire == was.lease_expire
            }
            &&& mac_normal(w) is None || encode_utf8(w).len() != 17 ==> station_step(
                m,
                line,
                dev,
                band,
            ) == m
        }),
{
    let t = trimmed(line);
    let was = lookup_or(m, mac, unseen());
    let s = SeenView {
        iface: Some(dev),
        band,
        signal: if words(t).len() > 1 {
            match signed(words(t)[1]) {
                Some(n) => Some(n as i32),
                None => None,
            }
        } else {
            None
        },
        reachable: true,
        ..was
    };
    law_put_then_lookup(m, mac, s, other);
}

/// Whether each client of one table is in another, with its addresses, and reachable there
/// if it was.
pub open spec fn grows(a: Entries<SeenView>, b: Entries<SeenView>) -> bool {
    forall|k: Seq<char>|
        #![trigger lookup(b, k)]
        lookup(a, k) matches Some(s) ==> (lookup(b, k) matches Some(t) && more_addresses(s, t) && (
        s.reachable ==> t.reachable))
}

proof fn lemma_grows_twice(a: Entries<SeenView>, b: Entries<SeenView>, c: Entries<SeenView>)
    requires
        grows(a, b),
        grows(b, c),
    ensures
        grows(a, c),
{
    assert forall|k: Seq<char>|
        #![trigger lookup(c, k)]
        lookup(a, k) is Some implies (lookup(c, k) matches Some(t) && more_addresses(
        lookup(a, k).unwrap(),
        t,
    ) && (lookup(a, k).unwrap().reachable ==> t.reachable)) by {
        assert(lookup(b, k) is Some);
    }
}

proof fn lemma_lease_grows(m: Entries<SeenView>, line: Seq<char>)
    requires
        ordered(m),
    ensures
        ordered(lease_step(m, line)),
        grows(m, lease_step(m, line)),
{
    let f = words(line);
    if f.len() >= 4 && mac_normal(f[1]) is Some {
        let mac = mac_normal(f[1]).unwrap();
        assert forall|k: Seq<char>|
            #![trigger lookup(lease_step(m, line), k)]
            lookup(m, k) matches Some(s) ==> (lookup(lease_step(m, line), k) matches Some(t)
                && more_addresses(s, t) && (s.reachable ==> t.reachable)) by {
            if k == mac {
                assert(mac.push('x').len() != mac.len());
                law_lease_is_read(m, line, mac, mac.push('x'));
            } else {
                law_lease_is_read(m, line, mac, k);
            }
        }
        let s = with_ip(
            SeenView { lease_expire: expiry(f[0]), ..lookup_or(m, mac, unseen()) },
            f[2],
        );
        let t = if f[3] != "*"@ && f[3].len() > 0 {
            SeenView { dhcp_name: Some(f[3]), ..s }
        } else {
            s
        };
        law_put_then_lookup(m, mac, t, mac);
    }
}

proof fn lemma_neighbour_grows(m: Entries<SeenView>, line: Seq<char>)
    requires
        ordered(m),
    ensures
        ordered(neigh_step(m, line)),
        grows(m, neigh_step(m, line)),
{
    let f = words(line);
    let client = match word_behind(f, "lladdr"@) {
        Some(w) => mac_normal(w),
        None => None,
    };
    if f.len() >= 5 && crate::clients::is_there(f.last()) && client is Some {
        let mac = client.unwrap();
        assert forall|k: Seq<char>|
            #![trigger lookup(neigh_step(m, line), k)]
            lookup(m, k) matches Some(s) ==> (lookup(neigh_step(m, line), k) matches Some(t)
                && more_addresses(s, t) && (s.reachable ==> t.reachable)) by {
            if k == mac {
                assert(mac.push('x').len() != mac.len());
                law_neighbour_is_read(m, line, mac, mac.push('x'));
            } else {
                law_neighbour_is_read(m, line, mac, k);
            }
        }
        let s = with_ip(lookup_or(m, mac, unseen()), f[0]);
        let t = SeenView {
            iface: if s.iface is None {
                word_behind(f, "dev"@)
            } else {
                s.iface
            },
            reachable: s.reachable || answers(f.last()),
            ..s
        };
        law_put_then_lookup(m, mac, t, mac);
    }
}

proof fn lemma_station_grows(
    m: Entries<SeenView>,
    line: Seq<char>,
    dev: Seq<char>,
    band: Option<Seq<char>>,
)
    requires
        ordered(m),
    ensures
        ordered(station_step(m, line, dev, band)),
        grows(m, station_step(m, line, dev, band)),
{
    let t = trimmed(line);
    let w = first_word(t);
    if mac_normal(w) is Some && encode_utf8(w).len() == 17 {
        let mac = mac_normal(w).unwrap();
        assert forall|k: Seq<char>|
            #![trigger lookup(station_step(m, line, dev, band), k)]
            lookup(m, k) matches Some(s) ==> (lookup(
                station_step(m, line, dev, band),
                k,
            ) matches Some(u) && more_addresses(s, u) && (s.reachable ==> u.reachable)) by {
            if k == mac {
                assert(mac.push('x').len() != mac.len());
                law_station_is_read(m, line, dev, band, mac, mac.push('x'));
            } else {
                law_station_is_read(m, line, dev, band, mac, k);
            }
        }
        let s = SeenView {
            iface: Some(dev),
            band,
            signal: if words(t).len() > 1 {
                match signed(words(t)[1]) {
                    Some(n) => Some(n as i32),
                    None => None,
                }
            } else {
                None
            },
            reachable: true,
            ..lookup_or(m, mac, unseen())
        };
        law_put_then_lookup(m, mac, s, mac);
    }
}

proof fn lemma_leases_grow(m: Entries<SeenView>, ls: Seq<Seq<char>>, i: int, n: int)
    requires
        ordered(m),
        0 <= i <= n,
    ensures
        ordered(leases(m, ls, n)),
        grows(leases(m, ls, i), leases(m, ls, n)),
    decreases n,
{
    if n > 0 {
        if i < n {
            lemma_leases_grow(m, ls, i, n - 1);
            lemma_lease_grows(leases(m, ls, n - 1), ls[n - 1]);
            lemma_grows_twice(leases(m, ls, i), leases(m, ls, n - 1), leases(m, ls, n));
        } else {
            lemma_leases_grow(m, ls, 0, n - 1);
            lemma_lease_grows(leases(m, ls, n - 1), ls[n - 1]);
        }
    }
}

proof fn lemma_neighbours_grow(m: Entries<SeenView>, ls: Seq<Seq<char>>, i: int, n: int)
    requires
        ordered(m),
        0 <= i <= n,
    ensures
        ordered(neighbours(m, ls, n)),
        grows(neighbours(m, ls, i), neighbours(m, ls, n)),
    decreases n,
{
    if n > 0 {
        if i < n {
            lemma_neighbours_grow(m, ls, i, n - 1);
            lemma_neighbour_grows(neighbours(m, ls, n - 1), ls[n - 1]);
            lemma_grows_twice(neighbours(m, ls, i), neighbours(m, ls, n - 1), neighbours(m, ls, n));
        } else {
            lemma_neighbours_grow(m, ls, 0, n - 1);
            lemma_neighbour_grows(neighbours(m, ls, n - 1), ls[n - 1]);
        }
    }
}

proof fn lemma_stations_grow(
    m: Entries<SeenView>,
    ls: Seq<Seq<char>>,
    dev: Seq<char>,
    band: Option<Seq<char>>,
    i: int,
    n: int,
)
    requires
        ordered(m),
        0 <= i <= n,
    ensures
        ordered(stations(m, ls, dev, band, n)),
        grows(stations(m, ls, dev, band, i), stations(m, ls, dev, band, n)),
    decreases n,
{
    if n > 0 {
        let last = stations(m, ls, dev, band, n - 1);
        if i < n {
            lemma_stations_grow(m, ls, dev, band, i, n - 1);
            lemma_station_grows(last, ls[n - 1], dev, band);
            lemma_grows_twice(
                stations(m, ls, dev, band, i),
                last,
                stations(m, ls, dev, band, n),
            );
        } else {
            lemma_stations_grow(m, ls, dev, band, 0, n - 1);
            lemma_station_grows(last, ls[n - 1], dev, band);
        }
    }
}

proof fn lemma_radios_grow(m: Entries<SeenView>, v: Seq<Radio>, i: int, n: int)
    requires
        ordered(m),
        0 <= i <= n,
    ensures
        ordered(radios(m, v, n)),
        grows(radios(m, v, i), radios(m, v, n)),
    decreases n,
{
    if n > 0 {
        let r = v[n - 1];
        let ls = line_list(r.stations@);
        let last = radios(m, v, n - 1);
        if i < n {
            lemma_radios_grow(m, v, i, n - 1);
            lemma_stations_grow(last, ls, r.dev@, opt_text(r.band), 0, ls.len() as int);
            lemma_grows_twice(radios(m, v, i), last, radios(m, v, n));
        } else {
            lemma_radios_grow(m, v, 0, n - 1);
            lemma_stations_grow(last, ls, r.dev@, opt_text(r.band), 0, ls.len() as int);
        }
    }
}

/// Every lease, every neighbour that is there and every station is seen, whatever lines come
/// before and after: with its address, and reachable where its line says so.
pub proof fn law_every_line_counts(
    m: Entries<SeenView>,
    ls: Seq<Seq<char>>,
    dev: Seq<char>,
    band: Option<Seq<char>>,
    i: int,
    mac: Seq<char>,
)
    requires
        ordered(m),
        0 <= i < ls.len(),
    ensures
        ({
            let f = words(ls[i]);
            let w = first_word(trimmed(ls[i]));
            let state = f.last();
            let answering = state == "REACHABLE"@ || state == "DELAY"@ || state == "PROBE"@;
            let client = match word_behind(f, "lladdr"@) {
                Some(w) => mac_normal(w),
                None => None,
            };
            let n = ls.len() as int;
            &&& f.len() >= 4 && mac_normal(f[1]) == Some(mac) ==> (lookup(
                leases(m, ls, n),
                mac,
            ) matches Some(s) && under(s, f[2]))
            &&& f.len() >= 5 && (answering || state == "STALE"@) && client == Some(mac) ==> (lookup(
                neighbours(m, ls, n),
                mac,
            ) matches Some(s) && under(s, f[0]) && (answering ==> s.reachable))
            &&& mac_normal(w) == Some(mac) && encode_utf8(w).len() == 17 ==> (lookup(
                stations(m, ls, dev, band, n),
                mac,
            ) matches Some(s) && s.reachable)
        }),
{
    let n = ls.len() as int;
    let other = mac.push('x');
    assert(other.len() != mac.len());
    lemma_leases_grow(m, ls, 0, i);
    law_lease_is_read(leases(m, ls, i), ls[i], mac, other);
    lemma_leases_grow(m, ls, i + 1, n);
    assert(leases(m, ls, i + 1) == lease_step(leases(m, ls, i), ls[i]));
    lemma_neighbours_grow(m, ls, 0, i);
    law_neighbour_is_read(neighbours(m, ls, i), ls[i], mac, other);
    lemma_neighbours_grow(m, ls, i + 1, n);
    assert(neighbours(m, ls, i + 1) == neigh_step(neighbours(m, ls, i), ls[i]));
    lemma_stations_grow(m, ls, dev, band, 0, i);
    law_station_is_read(stations(m, ls, dev, band, i), ls[i], dev, band, mac, other);
    lemma_stations_grow(m, ls, dev, band, i + 1, n);
    assert(stations(m, ls, dev, band, i + 1) == station_step(
        stations(m, ls, dev, band, i),
        ls[i],
        dev,
        band,
    ));
}

/// Whether a line is about an interface of this machine with an address.
pub open spec fn about(line: Seq<char>, mac: Seq<char>) -> bool {
    match word_behind(words(line), "link/ether"@) {
        Some(w) => mac_normal(w) == Some(mac),
        None => false,
    }
}

proof fn lemma_others_stay(m: Entries<SeenView>, ls: Seq<Seq<char>>, n: int, mac: Seq<char>)
    requires
        ordered(m),
        n <= ls.len(),
        forall|i: int| 0 <= i < n ==> !about(#[trigger] ls[i], mac),
    ensures
        ordered(without_own(m, ls, n)),
        lookup(without_own(m, ls, n), mac) == lookup(m, mac),
    decreases n,
{
    if n > 0 {
        lemma_others_stay(m, ls, n - 1, mac);
        assert(!about(ls[n - 1], mac));
        if let Some(k) = own_mac(ls[n - 1]) {
            law_without_then_lookup(without_own(m, ls, n - 1), k, mac);
        }
    }
}

/// A client of any table is seen with its addresses, unless it is an interface of this
/// machine or outside the nets; no such client is added.
pub proof fn law_clients_of_all_tables_are_seen(
    lease_file: Seq<char>,
    neigh4: Seq<char>,
    neigh6: Seq<char>,
    rs: Seq<Radio>,
    links: Seq<char>,
    nets: Seq<(u32, u32)>,
    mac: Seq<char>,
)
    requires
        forall|i: int|
            0 <= i < line_list(links).len() ==> !about(#[trigger] line_list(links)[i], mac),
    ensures
        ({
            let l = line_list(lease_file);
            let n4 = line_list(neigh4);
            let n6 = line_list(neigh6);
            let all = all_seen(lease_file, neigh4, neigh6, rs, links, nets);
            let a = leases(Seq::empty(), l, l.len() as int);
            let b = neighbours(a, n4, n4.len() as int);
            let c = neighbours(b, n6, n6.len() as int);
            let d = radios(c, rs, rs.len() as int);
            &&& grows(a, d) && grows(b, d) && grows(c, d)
            &&& lookup(d, mac) matches Some(s) ==> {
                &&& nets.len() == 0 || any_inside(nets, s.ipv4) ==> lookup(all, mac) == Some(s)
                &&& nets.len() > 0 && !any_inside(nets, s.ipv4) ==> lookup(all, mac) is None
            }
            &&& lookup(d, mac) is None ==> lookup(all, mac) is None
        }),
{
    let l = line_list(lease_file);
    let n4 = line_list(neigh4);
    let n6 = line_list(neigh6);
    let own = line_list(links);
    let e = Seq::<(Seq<char>, SeenView)>::empty();
    let a = leases(e, l, l.len() as int);
    let b = neighbours(a, n4, n4.len() as int);
    let c = neighbours(b, n6, n6.len() as int);
    let d = radios(c, rs, rs.len() as int);
    lemma_leases_grow(e, l, 0, l.len() as int);
    lemma_neighbours_grow(a, n4, 0, n4.len() as int);
    lemma_neighbours_grow(b, n6, 0, n6.len() as int);
    lemma_radios_grow(c, rs, 0, rs.len() as int);
    assert(neighbours(a, n4, 0) == a && neighbours(b, n6, 0) == b && radios(c, rs, 0) == c);
    lemma_grows_twice(b, c, d);
    lemma_grows_twice(a, b, d);
    lemma_others_stay(d, own, own.len() as int, mac);
    let o = without_own(d, own, own.len() as int);
    law_clients_inside_stay(nets, o, mac);
}

/// Where nets are known, a client stays if it has no address over IPv4 or one inside them.
pub proof fn law_clients_inside_stay(
    nets: Seq<(u32, u32)>,
    m: Entries<SeenView>,
    mac: Seq<char>,
)
    requires
        ordered(m),
    ensures
        nets.len() == 0 ==> inner_only(nets, m) == m,
        lookup(m, mac) matches Some(s) ==> {
            &&& nets.len() == 0 || s.ipv4.len() == 0 || (exists|i: int|
                0 <= i < s.ipv4.len() && inside(nets, #[trigger] s.ipv4[i])) ==> lookup(
                inner_only(nets, m),
                mac,
            ) == Some(s)
            &&& nets.len() > 0 && s.ipv4.len() > 0 && (forall|i: int|
                0 <= i < s.ipv4.len() ==> !inside(nets, #[trigger] s.ipv4[i])) ==> lookup(
                inner_only(nets, m),
                mac,
            ) is None
        },
        lookup(m, mac) is None ==> lookup(inner_only(nets, m), mac) is None,
{
    let keep = inner_marks(nets, m);
    lemma_marked_lookup(m, keep, 0, mac);
    if let Some(s) = lookup(m, mac) {
        let j = lemma_lookup_index(m, mac);
        assert(m[j].0 == mac);
        assert forall|h: int| 0 <= h < m.len() && (#[trigger] m[h]).0 == mac implies h == j by {
            lemma_less_total(m[h].0, m[j].0);
            if h < j {
                assert(less(m[h].0, m[j].0));
            }
            if j < h {
                assert(less(m[j].0, m[h].0));
            }
        }
        assert(keep[j] == any_inside(nets, s.ipv4));
    } else {
        assert forall|h: int| 0 <= h < m.len() implies (#[trigger] m[h]).0 != mac by {
            if m[h].0 == mac {
                lemma_found(m, mac, h);
            }
        }
    }
}

proof fn lemma_found<V>(m: Entries<V>, k: Seq<char>, i: int)
    requires
        0 <= i < m.len(),
        m[i].0 == k,
    ensures
        lookup(m, k) is Some,
    decreases m.len(),
{
    if m[0].0 != k {
        assert(m.skip(1)[i - 1] == m[i]);
        lemma_found(m.skip(1), k, i - 1);
    }
}

// ---------------------------------------------------------------------------
// Radios
// ---------------------------------------------------------------------------

/// A line names a radio if it begins with its name, not with space, and tells a network.
pub proof fn law_radios_are_named(line: Seq<char>)
    ensures
        line.len() > 0 && white(line[0]) ==> radio_name(line) is None,
        !contains(line, "ESSID"@) ==> radio_name(line) is None,
        line.len() > 0 && !white(line[0]) && contains(line, "ESSID"@) && first_word(line).len() > 0
            ==> radio_name(line) == Some(first_word(line)),
{
}

/// The radios are those of all lines, in their order.
pub proof fn law_every_radio_is_named(ls: Seq<Seq<char>>, line: Seq<char>)
    ensures
        radio_names(Seq::empty(), 0).len() == 0,
        radio_names(ls.push(line), ls.len() as int + 1) == match radio_name(line) {
            Some(n) => radio_names(ls, ls.len() as int).push(n),
            None => radio_names(ls, ls.len() as int),
        },
{
    lemma_radio_names(ls, ls.push(line), ls.len() as int);
    assert(ls.push(line)[ls.len() as int] == line);
}

proof fn lemma_radio_names(a: Seq<Seq<char>>, b: Seq<Seq<char>>, n: int)
    requires
        n <= a.len(),
        n <= b.len(),
        forall|i: int| 0 <= i < n ==> #[trigger] a[i] == b[i],
    ensures
        radio_names(a, n) == radio_names(b, n),
    decreases n,
{
    if n > 0 {
        assert(a[n - 1] == b[n - 1]);
        lemma_radio_names(a, b, n - 1);
    }
}

/// The band of a radio is the figure in front of the first `GHz`.
pub proof fn law_band_is_the_figure(a: Seq<char>, fig: Seq<char>, gap: Seq<char>, b: Seq<char>)
    requires
        blank(gap),
        fig.len() > 0,
        forall|i: int| 0 <= i < fig.len() ==> '0' <= #[trigger] fig[i] <= '9' || fig[i] == '.',
        a.len() > 0 ==> !('0' <= a.last() <= '9') && a.last() != '.',
        forall|h: int|
            0 <= h < (a + fig + gap).len() ==> !occurs_at((a + fig + gap) + "GHz"@ + b, "GHz"@, h),
    ensures
        ghz_figure((a + fig + gap) + "GHz"@ + b) == Some(fig),
{
    let head = a + fig + gap;
    law_parting_at_a_text(head, "GHz"@, b);
    assert forall|i: int| head.len() - gap.len() <= i < head.len() implies in_class(
        Class::White,
        #[trigger] head[i],
    ) by {
        assert(head[i] == gap[i - a.len() - fig.len()]);
    }
    assert(head[head.len() - gap.len() - 1] == fig.last());
    assert(!white(fig.last())) by {
        let c = fig[fig.len() - 1];
        assert('0' <= c <= '9' || c == '.');
    }
    lemma_trail_is(head, Class::White, gap.len() as int);
    let t = a + fig;
    assert(back_trimmed(head, Class::White) =~= t);
    assert forall|i: int| t.len() - fig.len() <= i < t.len() implies in_class(
        Class::Decimal,
        #[trigger] t[i],
    ) by {
        assert(t[i] == fig[i - a.len()]);
    }
    if a.len() > 0 {
        assert(t[t.len() - fig.len() - 1] == a.last());
    }
    lemma_trail_is(t, Class::Decimal, fig.len() as int);
    assert(t.skip(t.len() - fig.len()) =~= fig);
}

// ---------------------------------------------------------------------------
// Configuration
// ---------------------------------------------------------------------------

/// A setting is a name and, behind the first equals sign, a value, in quotes or not.
pub proof fn law_setting_is_read(k: Seq<char>, p: Seq<char>, v: Seq<char>, q: Seq<char>)
    requires
        free_of(k, '='),
        forall|i: int| 0 <= i < p.len() ==> #[trigger] p[i] == '\'',
        forall|i: int| 0 <= i < q.len() ==> #[trigger] q[i] == '\'',
        v.len() > 0 ==> v[0] != '\'' && v.last() != '\'',
    ensures
        setting(k + seq!['='] + (p + v + q)) == Some((k, v)),
        setting(k) is None,
{
    law_parting_at_the_first(k, '=', p + v + q);
    lemma_trimming(Class::Is('\''), p, v, q);
}

proof fn lemma_section(ls: Seq<Seq<char>>, a: Seq<char>, b: Seq<char>, n: int)
    requires
        n <= ls.len(),
    ensures
        ordered(sections(ls, a, b, n).0),
        ordered(sections(ls, a, b, n).1),
    decreases n,
{
    if n > 0 {
        lemma_section(ls, a, b, n - 1);
        let (x, y) = sections(ls, a, b, n - 1);
        if let Some((k, v)) = setting(ls[n - 1]) {
            if cut_suffix(k, a) is Some {
                law_put_then_lookup(x, cut_suffix(k, a).unwrap(), v, k);
            } else if cut_suffix(k, b) is Some {
                law_put_then_lookup(y, cut_suffix(k, b).unwrap(), v, k);
            }
        }
    }
}

/// Whether a line sets something of a section.
pub open spec fn sets(line: Seq<char>, sec: Seq<char>, what: Seq<char>) -> bool {
    setting(line) matches Some((k, _)) && k == sec + what
}

/// The value of a setting of a section is that of the last line that sets it; sections of
/// which no line sets it have none.
pub proof fn law_last_setting_counts(
    ls: Seq<Seq<char>>,
    a: Seq<char>,
    b: Seq<char>,
    n: int,
    sec: Seq<char>,
    i: int,
)
    requires
        0 <= i <= n <= ls.len(),
        a.len() > 0,
        b.len() > 0,
        forall|s: Seq<char>| !ends(#[trigger] (s + b), a),
    ensures
        i < n && sets(ls[i], sec, a) && (forall|j: int|
            i < j < n ==> !sets(#[trigger] ls[j], sec, a)) ==> lookup(
            sections(ls, a, b, n).0,
            sec,
        ) == Some(setting(ls[i]).unwrap().1),
        i < n && sets(ls[i], sec, b) && (forall|j: int|
            i < j < n ==> !sets(#[trigger] ls[j], sec, b)) ==> lookup(
            sections(ls, a, b, n).1,
            sec,
        ) == Some(setting(ls[i]).unwrap().1),
        (forall|j: int| 0 <= j < n ==> !sets(#[trigger] ls[j], sec, a)) ==> lookup(
            sections(ls, a, b, n).0,
            sec,
        ) is None,
        (forall|j: int| 0 <= j < n ==> !sets(#[trigger] ls[j], sec, b)) ==> lookup(
            sections(ls, a, b, n).1,
            sec,
        ) is None,
    decreases n,
{
    if n > 0 {
        lemma_section(ls, a, b, n - 1);
        let (x, y) = sections(ls, a, b, n - 1);
        law_last_setting_counts(ls, a, b, n - 1, sec, if i < n {
            i
        } else {
            n - 1
        });
        if let Some((k, v)) = setting(ls[n - 1]) {
            lemma_cut(k, a);
            lemma_cut(k, b);
            law_endings_are_cut(sec, a);
            law_endings_are_cut(sec, b);
            if cut_suffix(k, a) is Some {
                law_put_then_lookup(x, cut_suffix(k, a).unwrap(), v, sec);
                assert(k != sec + b) by {
                    assert(!ends(sec + b, a));
                }
            } else if cut_suffix(k, b) is Some {
                law_put_then_lookup(y, cut_suffix(k, b).unwrap(), v, sec);
            }
        }
    }
}

proof fn lemma_cut(k: Seq<char>, p: Seq<char>)
    requires
        p.len() > 0,
    ensures
        cut_suffix(k, p) matches Some(s) ==> k == s + p && ends(k, p),
        cut_suffix(k, p) is None ==> !ends(k, p),
        ends(k, p) ==> cut_suffix(k, p) is Some,
{
    if ends(k, p) {
        let s = k.take(k.len() - p.len());
        assert(s + p =~= k);
        law_endings_are_cut(s, p);
    } else {
        law_endings_are_cut(k, p);
    }
}

proof fn lemma_names(
    macs: Entries<Seq<char>>,
    names: Entries<Seq<char>>,
    n: int,
    i: int,
    mac: Seq<char>,
)
    requires
        ordered(macs),
        0 <= n <= macs.len(),
        0 <= i < macs.len(),
        mac_normal(macs[i].1) == Some(mac),
        lookup(names, macs[i].0) is Some,
        forall|j: int|
            0 <= j < macs.len() && j != i ==> mac_normal((#[trigger] macs[j]).1) != Some(mac),
    ensures
        ordered(names_by_mac(macs, names, n)),
        i < n ==> lookup(names_by_mac(macs, names, n), mac) == lookup(names, macs[i].0),
    decreases n,
{
    if n > 0 {
        lemma_names(macs, names, n - 1, i, mac);
        let before = names_by_mac(macs, names, n - 1);
        assert(n - 1 != i ==> mac_normal(macs[n - 1].1) != Some(mac));
        if let Some(k) = mac_normal(macs[n - 1].1) {
            if let Some(name) = lookup(names, macs[n - 1].0) {
                law_put_then_lookup(before, k, name, mac);
            }
        }
    }
}

/// A section that gives a device's address and its name gives the device that name.
pub proof fn law_configured_name_is_found(
    txt: Seq<char>,
    i: int,
    j: int,
    sec: Seq<char>,
    mac: Seq<char>,
)
    requires
        0 <= i < line_list(txt).len(),
        0 <= j < line_list(txt).len(),
        sets(line_list(txt)[i], sec, ".mac"@),
        sets(line_list(txt)[j], sec, ".name"@),
        forall|h: int|
            i < h < line_list(txt).len() ==> !sets(#[trigger] line_list(txt)[h], sec, ".mac"@),
        forall|h: int|
            j < h < line_list(txt).len() ==> !sets(#[trigger] line_list(txt)[h], sec, ".name"@),
        mac_normal(setting(line_list(txt)[i]).unwrap().1) == Some(mac),
        forall|other: Seq<char>, v: Seq<char>|
            other != sec && #[trigger] lookup(
                sections(
                    line_list(txt),
                    ".mac"@,
                    ".name"@,
                    line_list(txt).len() as int,
                ).0,
                other,
            ) == Some(v) ==> #[trigger] mac_normal(v) != Some(mac),
    ensures
        lookup(configured_names(txt), mac) == Some(setting(line_list(txt)[j]).unwrap().1),
{
    let ls = line_list(txt);
    let n = ls.len() as int;
    reveal_strlit(".mac");
    reveal_strlit(".name");
    assert forall|s: Seq<char>| !ends(#[trigger] (s + ".name"@), ".mac"@) by {
        let t = s + ".name"@;
        if ends(t, ".mac"@) {
            assert(t.subrange(t.len() - 4, t.len() as int)[3] == 'c');
            assert(t.last() == 'e');
        }
    }
    law_last_setting_counts(ls, ".mac"@, ".name"@, n, sec, i);
    law_last_setting_counts(ls, ".mac"@, ".name"@, n, sec, j);
    lemma_section(ls, ".mac"@, ".name"@, n);
    let (macs, names) = sections(ls, ".mac"@, ".name"@, n);
    let at = lemma_lookup_index(macs, sec);
    assert forall|h: int| 0 <= h < macs.len() && h != at implies mac_normal(
        (#[trigger] macs[h]).1,
    ) != Some(mac) by {
        lemma_lookup_entry(macs, h);
        lemma_lookup_entry(macs, at);
        if macs[h].0 == sec {
            lemma_less_total(macs[h].0, macs[at].0);
            if h < at {
                assert(less(macs[h].0, macs[at].0));
            } else {
                assert(less(macs[at].0, macs[h].0));
            }
        }
        assert(lookup(macs, macs[h].0) == Some(macs[h].1));
    }
    lemma_names(macs, names, macs.len() as int, at, mac);
}

proof fn lemma_lookup_entry<V>(m: Entries<V>, i: int)
    requires
        ordered(m),
        0 <= i < m.len(),
    ensures
        lookup(m, m[i].0) == Some(m[i].1),
{
    assert forall|j: int| 0 <= j < i implies (#[trigger] m[j]).0 != m[i].0 by {
        lemma_less_total(m[j].0, m[i].0);
        assert(less(m[j].0, m[i].0));
    }
    lemma_lookup_at(m, m[i].0, i);
}

// ---------------------------------------------------------------------------
// Networks
// ---------------------------------------------------------------------------

proof fn lemma_dhcp_sections(ls: Seq<Seq<char>>, n: int)
    requires
        n <= ls.len(),
    ensures
        ordered(dhcp_sections(ls, n).0),
        ordered(dhcp_sections(ls, n).1),
    decreases n,
{
    if n > 0 {
        lemma_dhcp_sections(ls, n - 1);
        let (x, y) = dhcp_sections(ls, n - 1);
        if let Some((k, v)) = setting(ls[n - 1]) {
            if cut_suffix(k, ".interface"@) is Some {
                law_put_then_lookup(x, cut_suffix(k, ".interface"@).unwrap(), v, k);
            } else if cut_suffix(k, ".ignore"@) is Some {
                law_put_then_lookup(y, cut_suffix(k, ".ignore"@).unwrap(), true, k);
            }
        }
    }
}

/// A section is ignored if some line says so with a one, and names the interface of its last
/// such line.
pub proof fn law_sections_that_serve(ls: Seq<Seq<char>>, n: int, sec: Seq<char>, i: int)
    requires
        0 <= i <= n <= ls.len(),
    ensures
        i < n && sets(ls[i], sec, ".ignore"@) && setting(ls[i]).unwrap().1 == "1"@ ==> lookup(
            dhcp_sections(ls, n).1,
            sec,
        ) is Some,
        (forall|j: int|
            0 <= j < n && sets(#[trigger] ls[j], sec, ".ignore"@) ==> setting(ls[j]).unwrap().1
                != "1"@) ==> lookup(dhcp_sections(ls, n).1, sec) is None,
        i < n && sets(ls[i], sec, ".interface"@) && (forall|j: int|
            i < j < n ==> !sets(#[trigger] ls[j], sec, ".interface"@)) ==> lookup(
            dhcp_sections(ls, n).0,
            sec,
        ) == Some(setting(ls[i]).unwrap().1),
        (forall|j: int| 0 <= j < n ==> !sets(#[trigger] ls[j], sec, ".interface"@)) ==> lookup(
            dhcp_sections(ls, n).0,
            sec,
        ) is None,
    decreases n,
{
    reveal_strlit(".interface");
    reveal_strlit(".ignore");
    if n > 0 {
        let a = ".interface"@;
        let b = ".ignore"@;
        assert(a.len() == 10 && b.len() == 7);
        lemma_dhcp_sections(ls, n - 1);
        let (x, y) = dhcp_sections(ls, n - 1);
        law_sections_that_serve(ls, n - 1, sec, if i < n {
            i
        } else {
            n - 1
        });
        if let Some((k, v)) = setting(ls[n - 1]) {
            lemma_cut(k, a);
            lemma_cut(k, b);
            law_endings_are_cut(sec, a);
            law_endings_are_cut(sec, b);
            if cut_suffix(k, a) is Some {
                law_put_then_lookup(x, cut_suffix(k, a).unwrap(), v, sec);
                assert(k != sec + b) by {
                    if k == sec + b {
                        assert(k[k.len() - 2] == b[5]);
                        let s = cut_suffix(k, a).unwrap();
                        assert((s + a)[k.len() - 2] == a[8]);
                        assert(b[5] == 'r' && a[8] == 'c');
                    }
                }
            } else if cut_suffix(k, b) is Some {
                law_put_then_lookup(y, cut_suffix(k, b).unwrap(), true, sec);
            }
        }
    }
}

proof fn lemma_unignored(ifs: Entries<Seq<char>>, ignored: Entries<bool>, n: int, v: Seq<char>)
    requires
        n <= ifs.len(),
    ensures
        unignored(ifs, ignored, n).contains(v) <==> exists|i: int|
            0 <= i < n && (#[trigger] ifs[i]).1 == v && lookup(ignored, ifs[i].0) is None,
    decreases n,
{
    if n > 0 {
        lemma_unignored(ifs, ignored, n - 1, v);
        let before = unignored(ifs, ignored, n - 1);
        if lookup(ignored, ifs[n - 1].0) is None {
            let all = before.push(ifs[n - 1].1);
            assert(all[before.len() as int] == ifs[n - 1].1);
            if before.contains(v) {
                let j = choose|j: int| 0 <= j < before.len() && before[j] == v;
                assert(all[j] == v);
            }
            if all.contains(v) && ifs[n - 1].1 != v {
                let j = choose|j: int| 0 <= j < all.len() && all[j] == v;
                assert(before[j] == v);
            }
        }
    }
}

/// The interfaces served are those of the sections that are not ignored.
pub proof fn law_served_interfaces(txt: Seq<char>, sec: Seq<char>, v: Seq<char>)
    ensures
        ({
            let ls = line_list(txt);
            let (ifs, ignored) = dhcp_sections(ls, ls.len() as int);
            &&& lookup(ifs, sec) == Some(v) && lookup(ignored, sec) is None ==> served(
                txt,
            ).contains(v)
            &&& served(txt).contains(v) ==> exists|s: Seq<char>|
                #[trigger] lookup(ifs, s) == Some(v) && lookup(ignored, s) is None
        }),
{
    let ls = line_list(txt);
    let (ifs, ignored) = dhcp_sections(ls, ls.len() as int);
    lemma_dhcp_sections(ls, ls.len() as int);
    lemma_unignored(ifs, ignored, ifs.len() as int, v);
    if lookup(ifs, sec) == Some(v) && lookup(ignored, sec) is None {
        let i = lemma_lookup_index(ifs, sec);
        assert(ifs[i].1 == v);
    }
    if served(txt).contains(v) {
        let i = choose|i: int|
            0 <= i < ifs.len() && (#[trigger] ifs[i]).1 == v && lookup(ignored, ifs[i].0) is None;
        lemma_lookup_entry(ifs, i);
        assert(lookup(ifs, ifs[i].0) == Some(v));
    }
}

/// The interfaces are those that the state of the network lists, each with its name, its
/// devices, and its addresses over IPv4 with the length of their masks.
pub proof fn law_interfaces_are_read(
    t: Tree,
    l: Seq<Tree>,
    i: int,
    a: Seq<Tree>,
    k: int,
    bits: u64,
)
    requires
        member_list(t, "interface"@) == Some(l),
        0 <= i < l.len(),
        member_list(l[i], "ipv4-address"@) == Some(a),
        0 <= k < a.len(),
    ensures
        ifaces_in(Some(t)).len() == l.len(),
        ({
            let f = ifaces_in(Some(t))[i];
            &&& member_text(l[i], "interface"@) matches Some(n) ==> f.name == n
            &&& f.l3_device == member_text(l[i], "l3_device"@)
            &&& f.device == member_text(l[i], "device"@)
            &&& f.v4.len() == a.len()
            &&& member_text(a[k], "address"@) matches Some(x) ==> f.v4[k].0 == x
            &&& member_of(a[k], "mask"@) == Some(Tree::Number(Some(bits))) ==> f.v4[k].1 == bits
        }),
        ifaces_in(None).len() == 0,
{
}

/// A wanted interface gives its upper device, or the lower one if that is known already or
/// there is none; each device once, and nothing else.
pub proof fn law_wanted_interface_gives_a_device(
    out: Seq<Seq<char>>,
    want: Seq<Seq<char>>,
    i: IfaceView,
    upper: Seq<char>,
    lower: Seq<char>,
)
    requires
        i.l3_device == Some(upper),
        i.device == Some(lower),
    ensures
        !want.contains(i.name) ==> device_step(out, want, i) == out,
        want.contains(i.name) && upper.len() > 0 && !out.contains(upper) ==> device_step(
            out,
            want,
            i,
        ) == out.push(upper),
        want.contains(i.name) && (upper.len() == 0 || out.contains(upper)) && lower.len() > 0
            && !out.contains(lower) ==> device_step(out, want, i) == out.push(lower),
        want.contains(i.name) && (upper.len() == 0 || out.contains(upper)) && (lower.len() == 0
            || out.contains(lower)) ==> device_step(out, want, i) == out,
{
}

/// Every wanted interface with an upper device has it among the devices, and each device is
/// of a wanted interface.
pub proof fn law_devices_of_wanted_interfaces(
    want: Seq<Seq<char>>,
    ifs: Seq<IfaceView>,
    n: int,
    k: int,
)
    requires
        0 <= k < n <= ifs.len(),
    ensures
        want.contains(ifs[k].name) && ifs[k].l3_device is Some && ifs[k].l3_device.unwrap().len()
            > 0 ==> wanted_devices(want, ifs, n).contains(ifs[k].l3_device.unwrap()),
        wanted_devices(want, ifs, n).no_duplicates(),
        forall|d: Seq<char>| #[trigger]
            wanted_devices(want, ifs, n).contains(d) ==> exists|j: int|
                0 <= j < n && want.contains((#[trigger] ifs[j]).name) && (ifs[j].l3_device == Some(
                    d,
                ) || ifs[j].device == Some(d)),
    decreases n,
{
    let before = wanted_devices(want, ifs, n - 1);
    let now = wanted_devices(want, ifs, n);
    if n > 1 {
        law_devices_of_wanted_interfaces(want, ifs, n - 1, if k < n - 1 {
            k
        } else {
            0
        });
    } else {
        assert(before.len() == 0);
    }
    assert(before.no_duplicates());
    assert forall|d: Seq<char>| before.contains(d) implies now.contains(d) by {
        let j = choose|j: int| 0 <= j < before.len() && before[j] == d;
        assert(now[j] == d);
    }
    if now.len() > before.len() {
        assert(now[before.len() as int] == now.last());
        assert(now.contains(now.last()));
    }
    assert forall|d: Seq<char>| #[trigger] now.contains(d) implies exists|j: int|
        0 <= j < n && want.contains((#[trigger] ifs[j]).name) && (ifs[j].l3_device == Some(d)
            || ifs[j].device == Some(d)) by {
        let h = choose|h: int| 0 <= h < now.len() && now[h] == d;
        if h < before.len() {
            assert(before[h] == d);
            assert(before.contains(d));
        } else {
            assert(want.contains(ifs[n - 1].name));
        }
    }
}

proof fn lemma_four(p: Seq<Seq<char>>, a: u8, b: u8, c: u8, d: u8)
    requires
        p.len() == 4,
        unsigned(p[0], 10, 255) == Some(a as nat),
        unsigned(p[1], 10, 255) == Some(b as nat),
        unsigned(p[2], 10, 255) == Some(c as nat),
        unsigned(p[3], 10, 255) == Some(d as nat),
    ensures
        octets(p, 4) == seq![a, b, c, d],
{
    reveal_with_fuel(octets, 5);
    assert(octets(p, 4) =~= seq![a, b, c, d]);
}

/// The pieces of a written address are its four numbers.
pub proof fn law_pieces_of_an_address(a: u8, b: u8, c: u8, d: u8)
    ensures
        pieces(v4_text(a, b, c, d), '.').len() == 4,
        octets(pieces(v4_text(a, b, c, d), '.'), 4) == seq![a, b, c, d],
        crate::portprobe::all_octets(pieces(v4_text(a, b, c, d), '.')),
{
    lemma_octet(a);
    lemma_octet(b);
    lemma_octet(c);
    lemma_octet(d);
    let ta = dec(a as nat);
    let tb = dec(b as nat);
    let tc = dec(c as nat);
    let td = dec(d as nat);
    let r3 = tc + seq!['.'] + td;
    let r2 = tb + seq!['.'] + r3;
    assert(v4_text(a, b, c, d) =~= ta + seq!['.'] + r2);
    law_pieces(ta, '.', r2);
    law_pieces(tb, '.', r3);
    law_pieces(tc, '.', td);
    law_pieces(td, '.', td);
    let p = pieces(v4_text(a, b, c, d), '.');
    assert(p =~= seq![ta, tb, tc, td]);
    lemma_four(p, a, b, c, d);
}

/// An address over IPv4 is read back as a number.
pub proof fn law_address_is_a_number(a: u8, b: u8, c: u8, d: u8)
    ensures
        v4_number(v4_text(a, b, c, d)) == Some(
            (a * 0x100_0000 + b * 0x1_0000 + c * 0x100 + d) as u32,
        ),
{
    law_pieces_of_an_address(a, b, c, d);
}

/// An address is inside the net of another if both begin with the same bits, as many as the
/// mask is long. A mask of no bits, or of more than an address has, is none.
pub proof fn law_inside_a_net(ip: Seq<char>, at: (Seq<char>, u64), x: u32, y: u32)
    requires
        v4_number(ip) == Some(x),
        v4_number(at.0) == Some(y),
        at.1 <= u32::MAX,
    ensures
        1 <= at.1 <= 32 ==> (net_of(at) matches Some(net) && (inside(seq![net], ip) <==> x >> ((32
            - at.1) as u32) == y >> ((32 - at.1) as u32))),
        at.1 == 0 || at.1 > 32 ==> net_of(at) is None,
{
    let bits = (at.1 % 0x1_0000_0000) as u32;
    if 1 <= at.1 <= 32 {
        law_same_net(x, y, bits);
        let net = (y & net_mask(bits), net_mask(bits));
        let nets = seq![net];
        assert(nets[0] == net);
    }
}

/// Every address is inside if no nets are known, what is no address over IPv4 too; else one
/// net is enough.
pub proof fn law_inside_some_net(nets: Seq<(u32, u32)>, ip: Seq<char>, i: int)
    ensures
        nets.len() == 0 ==> inside(nets, ip),
        v4_number(ip) is None ==> inside(nets, ip),
        0 <= i < nets.len() && inside(seq![nets[i]], ip) ==> inside(nets, ip),
        nets.len() > 0 && (forall|j: int|
            0 <= j < nets.len() ==> !inside(seq![#[trigger] nets[j]], ip)) ==> !inside(nets, ip),
{
    if 0 <= i < nets.len() && inside(seq![nets[i]], ip) {
        if let Some(a) = v4_number(ip) {
            let one = seq![nets[i]];
            let j = choose|j: int| 0 <= j < one.len() && a & (#[trigger] one[j]).1 == one[j].0;
            assert(one[j] == nets[i]);
        }
    }
    if nets.len() > 0 && inside(nets, ip) {
        if let Some(a) = v4_number(ip) {
            let j = choose|j: int| 0 <= j < nets.len() && a & (#[trigger] nets[j]).1 == nets[j].0;
            assert(seq![nets[j]][0] == nets[j]);
            assert(inside(seq![nets[j]], ip));
        } else {
            assert(inside(seq![nets[0]], ip));
        }
    }
}

/// An interface is an inner one if it is served; where it is not known what is served, if its
/// name does not begin with `wan` and does not hold `wwan`. The loopback never is.
pub proof fn law_inner_interfaces(want: Seq<Seq<char>>, name: Seq<char>)
    ensures
        !is_inner(want, "loopback"@),
        name != "loopback"@ && want.len() > 0 ==> (is_inner(want, name) <==> want.contains(name)),
        name != "loopback"@ && want.len() == 0 ==> (is_inner(want, name) <==> !leads(
            name,
            "wan"@,
        ) && !contains(name, "wwan"@)),
{
    lemma_leads(name, "wan"@);
}

proof fn lemma_nets(v: Seq<(Seq<char>, u64)>, n: int, x: (u32, u32))
    requires
        n <= v.len(),
    ensures
        nets_of(v, n).contains(x) <==> exists|i: int| 0 <= i < n && net_of(#[trigger] v[i])
            == Some(x),
    decreases n,
{
    if n > 0 {
        lemma_nets(v, n - 1, x);
        let before = nets_of(v, n - 1);
        let now = nets_of(v, n);
        if before.contains(x) {
            let j = choose|j: int| 0 <= j < before.len() && before[j] == x;
            assert(now[j] == x);
        }
        if now.len() > before.len() {
            assert(now[before.len() as int] == now.last());
        }
        if now.contains(x) && !before.contains(x) {
            let j = choose|j: int| 0 <= j < now.len() && now[j] == x;
            if j < before.len() {
                assert(before[j] == x);
            }
            assert(net_of(v[n - 1]) == Some(x));
        }
    }
}

/// The nets are those of all addresses of all inner interfaces, and no others.
pub proof fn law_nets_of_inner_interfaces(
    want: Seq<Seq<char>>,
    ifs: Seq<IfaceView>,
    n: int,
    x: (u32, u32),
)
    requires
        n <= ifs.len(),
    ensures
        inner_nets(want, ifs, n).contains(x) <==> exists|i: int, k: int|
            0 <= i < n && is_inner(want, ifs[i].name) && 0 <= k < ifs[i].v4.len()
                && #[trigger] net_of(ifs[i].v4[k]) == Some(x),
    decreases n,
{
    if n > 0 {
        law_nets_of_inner_interfaces(want, ifs, n - 1, x);
        let before = inner_nets(want, ifs, n - 1);
        let last = ifs[n - 1];
        if is_inner(want, last.name) {
            let more = nets_of(last.v4, last.v4.len() as int);
            lemma_nets(last.v4, last.v4.len() as int, x);
            let all = before + more;
            if before.contains(x) {
                let j = choose|j: int| 0 <= j < before.len() && before[j] == x;
                assert(all[j] == x);
            }
            if more.contains(x) {
                let j = choose|j: int| 0 <= j < more.len() && more[j] == x;
                assert(all[before.len() + j] == x);
            }
            if all.contains(x) {
                let j = choose|j: int| 0 <= j < all.len() && all[j] == x;
                if j < before.len() {
                    assert(before[j] == x);
                } else {
                    assert(more[j - before.len()] == x);
                    let k = choose|k: int|
                        0 <= k < last.v4.len() && net_of(#[trigger] last.v4[k]) == Some(x);
                    assert(net_of(ifs[n - 1].v4[k]) == Some(x));
                }
            }
        }
        if exists|i: int, k: int|
            0 <= i < n && is_inner(want, ifs[i].name) && 0 <= k < ifs[i].v4.len()
                && #[trigger] net_of(ifs[i].v4[k]) == Some(x) {
            let (i, k) = choose|i: int, k: int|
                0 <= i < n && is_inner(want, ifs[i].name) && 0 <= k < ifs[i].v4.len()
                    && #[trigger] net_of(ifs[i].v4[k]) == Some(x);
            if i < n - 1 {
                assert(before.contains(x));
            } else {
                assert(net_of(last.v4[k]) == Some(x));
            }
        }
    }
}

} // verus!
