//! What a device is called, where it is found, what is kept of it, and how addresses are
//! written.

use crate::laws::rules::{leads, lemma_leads};
use crate::laws::text::{blank, free_of, law_parting_at_the_first, law_trimming};
use crate::names::{law_put_then_lookup, lookup, lookup_or, marked, ordered, Entries};
use crate::num::{digit_char, digits_value};
use crate::store::{
    address_name, all_dated, count_sum, device_of, fresh_view, holder, law_faded_hits_go,
    loses_hits, owner, pruned, routable, shown_name, since, telling, thinned, traced, unfaded,
    with_device, with_shape, wrapped, DeviceView, StoreView,
};
use crate::text::{in_class, kept, lemma_trail_is, lower, white, Class};
use crate::util::{
    domain_normal, group_bytes, group_text, groups, lemma_kept_form, lemma_longest_run,
    lemma_side_groups, lemma_split_plain, lemma_split_shortened, longest_run, mac_form,
    mac_is_local, mac_normal, mac_text, spread, v6_bytes, v6_mac, v6_text, vendor_prefix, zero_run,
};
use vstd::prelude::*;

verus! {

// ---------------------------------------------------------------------------
// Names
// ---------------------------------------------------------------------------

/// The names that tell nothing, in small letters or capitals.
pub proof fn law_names_that_tell_nothing(n: Seq<char>)
    ensures
        ({
            let l = lower(n);
            telling(n) <==> n.len() > 0 && l != "android"@ && l != "mac"@ && l != "localhost"@ && l
                != "localhost.localdomain"@ && l != "unknown"@ && l != "null"@ && l != "-"@ && l
                != "device"@ && l != "wlan0"@ && l != "wlan1"@ && l != "eth0"@ && l != "eth1"@ && l
                != "br-lan"@
        }),
{
}

/// A device is shown under the name that the user gave it, else under the first that tells
/// something of the configured one, the one it gave the server of addresses, and the one it
/// announced.
pub proof fn law_device_is_shown_by_its_best_name(d: DeviceView)
    ensures
        d.note.len() > 0 ==> shown_name(d) == d.note,
        d.note.len() == 0 && telling(d.static_name) ==> shown_name(d) == d.static_name,
        d.note.len() == 0 && !telling(d.static_name) && telling(d.dhcp_name) ==> shown_name(d)
            == d.dhcp_name,
        d.note.len() == 0 && !telling(d.static_name) && !telling(d.dhcp_name) && telling(
            d.mdns_name,
        ) ==> shown_name(d) == d.mdns_name,
        d.note.len() == 0 && !telling(d.static_name) && !telling(d.dhcp_name) && !telling(
            d.mdns_name,
        ) ==> shown_name(d) == address_name(d),
{
}

proof fn lemma_routable(v: Seq<Seq<char>>, i: int)
    requires
        0 <= i <= v.len(),
        i < v.len() ==> !leads(v[i], "fe80"@),
        forall|j: int| 0 <= j < i ==> leads(#[trigger] v[j], "fe80"@),
    ensures
        i < v.len() ==> routable(v) == Some(v[i]),
        i == v.len() ==> routable(v) is None,
    decreases v.len(),
{
    if v.len() > 0 {
        lemma_leads(v[0], "fe80"@);
        if i > 0 {
            assert(leads(v[0], "fe80"@));
            assert forall|j: int| 0 <= j < i - 1 implies leads(
                #[trigger] v.skip(1)[j],
                "fe80"@,
            ) by {
                assert(v.skip(1)[j] == v[j + 1]);
            }
            lemma_routable(v.skip(1), i - 1);
        }
    }
}

/// A device without a name goes by its first address; of those over IPv6 by the first that
/// reaches beyond its link, and by its hardware address if it has no other.
pub proof fn law_address_stands_for_a_name(d: DeviceView, i: int)
    requires
        0 <= i <= d.ipv6.len(),
        i < d.ipv6.len() ==> !leads(d.ipv6[i], "fe80"@),
        forall|j: int| 0 <= j < i ==> leads(#[trigger] d.ipv6[j], "fe80"@),
    ensures
        d.ipv4.len() > 0 ==> address_name(d) == d.ipv4[0],
        d.ipv4.len() == 0 && i < d.ipv6.len() ==> address_name(d) == d.ipv6[i],
        d.ipv4.len() == 0 && i == d.ipv6.len() && i > 0 ==> address_name(d) == d.ipv6[0],
        d.ipv4.len() == 0 && d.ipv6.len() == 0 ==> address_name(d) == d.mac,
{
    lemma_routable(d.ipv6, i);
}

// ---------------------------------------------------------------------------
// How a device asks
// ---------------------------------------------------------------------------

/// A query counts once for its type, if that is known, and its source port comes last of the
/// sixteen that are kept, if it is known. Nothing else of the device changes.
pub proof fn law_way_of_asking_is_noted(
    d: DeviceView,
    qtype: Seq<char>,
    sport: u16,
    other: Seq<char>,
)
    requires
        ordered(d.qtypes),
        other != qtype,
    ensures
        ({
            let e = with_shape(d, qtype, sport);
            let was = lookup_or(d.qtypes, qtype, 0u32);
            &&& qtype.len() > 0 && was < u32::MAX ==> lookup(e.qtypes, qtype) == Some(
                (was + 1) as u32,
            )
            &&& lookup(e.qtypes, other) == lookup(d.qtypes, other)
            &&& qtype.len() == 0 ==> e.qtypes == d.qtypes
            &&& sport == 0 ==> e.dns_ports == d.dns_ports
            &&& sport != 0 && d.dns_ports.len() < 16 ==> e.dns_ports == d.dns_ports.push(sport)
            &&& sport != 0 && d.dns_ports.len() == 16 ==> e.dns_ports == d.dns_ports.skip(1).push(
                sport,
            )
            &&& e == (DeviceView { qtypes: e.qtypes, dns_ports: e.dns_ports, ..d })
        }),
{
    let was = lookup_or(d.qtypes, qtype, 0u32);
    law_put_then_lookup(d.qtypes, qtype, wrapped(was + 1), other);
    if sport != 0 && d.dns_ports.len() == 16 {
        assert(d.dns_ports.push(sport).skip(1) =~= d.dns_ports.skip(1).push(sport));
    }
}

/// Counts are added up.
pub proof fn law_counts_add_up(m: Entries<u32>, e: (Seq<char>, u32))
    ensures
        count_sum(Seq::empty(), 0) == 0,
        ({
            let was = count_sum(m, m.len() as int);
            was + e.1 <= u32::MAX ==> count_sum(m.push(e), m.len() as int + 1) == was + e.1
        }),
{
    lemma_count_sum(m, m.push(e), m.len() as int);
    assert(m.push(e)[m.len() as int] == e);
}

proof fn lemma_count_sum(m: Entries<u32>, l: Entries<u32>, n: int)
    requires
        n <= m.len(),
        n <= l.len(),
        forall|i: int| 0 <= i < n ==> #[trigger] m[i] == l[i],
    ensures
        count_sum(m, n) == count_sum(l, n),
    decreases n,
{
    if n > 0 {
        assert(m[n - 1] == l[n - 1]);
        lemma_count_sum(m, l, n - 1);
    }
}

// ---------------------------------------------------------------------------
// Where a device is found
// ---------------------------------------------------------------------------

/// Whether a device has an address.
pub open spec fn listed(d: DeviceView, ip: Seq<char>) -> bool {
    d.ipv4.contains(ip) || d.ipv6.contains(ip)
}

/// An address belongs to the first device that lists it, over IPv4 or IPv6; one that none
/// lists, to a known device whose hardware address it shows.
pub proof fn law_address_has_its_device(m: Entries<DeviceView>, ip: Seq<char>, i: int)
    requires
        0 <= i <= m.len(),
        i < m.len() ==> listed(m[i].1, ip),
        forall|j: int| 0 <= j < i ==> !listed((#[trigger] m[j]).1, ip),
    ensures
        i < m.len() ==> holder(m, ip) == Some(m[i].1.mac) && owner(m, ip) == Some(m[i].1.mac),
        i == m.len() ==> holder(m, ip) is None && match v6_mac(ip) {
            Some(mac) => owner(m, ip) == (if lookup(m, mac) is Some {
                Some(mac)
            } else {
                None
            }),
            None => owner(m, ip) is None,
        },
{
    lemma_holder(m, ip, i);
}

proof fn lemma_holder(m: Entries<DeviceView>, ip: Seq<char>, i: int)
    requires
        0 <= i <= m.len(),
        i < m.len() ==> listed(m[i].1, ip),
        forall|j: int| 0 <= j < i ==> !listed((#[trigger] m[j]).1, ip),
    ensures
        i < m.len() ==> holder(m, ip) == Some(m[i].1.mac),
        i == m.len() ==> holder(m, ip) is None,
    decreases m.len(),
{
    if m.len() > 0 && i > 0 {
        assert(!listed(m[0].1, ip));
        assert forall|j: int| 0 <= j < i - 1 implies !listed(
            (#[trigger] m.skip(1)[j]).1,
            ip,
        ) by {
            assert(m.skip(1)[j] == m[j + 1]);
        }
        lemma_holder(m.skip(1), ip, i - 1);
    }
}

/// An address that shows the hardware address of a known device is listed with it from then
/// on, behind its others; nothing else changes, and nothing at all in any other case.
pub proof fn law_shown_device_gets_the_address(
    s: StoreView,
    ip: Seq<char>,
    mac: Seq<char>,
    d: DeviceView,
    other: Seq<char>,
)
    requires
        ordered(s.devs),
        other != mac,
    ensures
        holder(s.devs, ip) is None && v6_mac(ip) == Some(mac) && lookup(s.devs, mac) == Some(d)
            ==> {
            let t = traced(s, ip);
            &&& lookup(t.devs, mac) == Some(DeviceView { ipv6: d.ipv6.push(ip), ..d })
            &&& lookup(t.devs, other) == lookup(s.devs, other)
            &&& t.dirty
            &&& t.path == s.path
        },
        holder(s.devs, ip) is Some ==> traced(s, ip) == s,
        v6_mac(ip) is None ==> traced(s, ip) == s,
        v6_mac(ip) == Some(mac) && lookup(s.devs, mac) is None ==> traced(s, ip) == s,
{
    law_put_then_lookup(s.devs, mac, (DeviceView { ipv6: d.ipv6.push(ip), ..d }), other);
}

/// A device that is asked for is the one kept under its address, or a new one; what is made
/// of it is kept there, no other device changes, and the store has to be written.
pub proof fn law_device_is_kept(
    s: StoreView,
    mac: Seq<char>,
    now: u64,
    d: DeviceView,
    other: Seq<char>,
)
    requires
        ordered(s.devs),
        other != mac,
    ensures
        lookup(s.devs, mac) == Some(d) ==> device_of(s, mac, now) == d,
        lookup(s.devs, mac) is None ==> device_of(s, mac, now) == fresh_view(mac, now),
        lookup(with_device(s, mac, d).devs, mac) == Some(d),
        lookup(with_device(s, mac, d).devs, other) == lookup(s.devs, other),
        with_device(s, mac, d).dirty,
        with_device(s, mac, d).path == s.path,
{
    law_put_then_lookup(s.devs, mac, d, other);
}

/// Of a new device nothing is known but its address and that it was seen now.
pub proof fn law_new_device_is_blank(mac: Seq<char>, now: u64)
    ensures
        ({
            let d = fresh_view(mac, now);
            &&& d.mac == mac && d.first_seen == now && d.last_seen == now
            &&& d.ipv4.len() == 0 && d.ipv6.len() == 0
            &&& d.dhcp_name.len() == 0 && d.static_name.len() == 0 && d.mdns_name.len() == 0
            &&& d.mdns_model.len() == 0 && d.mdns_services.len() == 0 && d.upnp_server.len() == 0
            &&& d.dhcp_vendor.len() == 0 && d.dhcp_fp.len() == 0 && d.oui.len() == 0
            &&& d.note.len() == 0 && d.dns_hits.len() == 0 && d.unmatched.len() == 0
            &&& d.open_ports.len() == 0 && d.banner.len() == 0 && d.tcp_fp.len() == 0
            &&& d.http_ua.len() == 0 && d.mqtt_id.len() == 0 && d.sni_hits.len() == 0
            &&& d.peer_hits.len() == 0 && d.qtypes.len() == 0 && d.dns_ports.len() == 0
            &&& d.dns_pair_a4 == 0 && d.dns_pair_https == 0 && !d.online
            &&& d.iface.len() == 0 && d.band.len() == 0 && d.signal is None
        }),
{
}

// ---------------------------------------------------------------------------
// What is kept
// ---------------------------------------------------------------------------

/// The time that passed, and none where the clock went back.
pub proof fn law_time_does_not_run_back(now: u64, last: u64)
    ensures
        now >= last ==> since(now, last) + last == now,
        now < last ==> since(now, last) == 0,
{
}

/// Loading dates each undated hit and nothing else.
pub proof fn law_loading_dates_hits(m: Entries<DeviceView>, t: u64, i: int, k: int)
    requires
        0 <= i < m.len(),
        0 <= k < m[i].1.dns_hits.len(),
    ensures
        all_dated(m, t).len() == m.len(),
        all_dated(m, t)[i].0 == m[i].0,
        all_dated(m, t)[i].1 == (DeviceView {
            dns_hits: all_dated(m, t)[i].1.dns_hits,
            ..m[i].1
        }),
        ({
            let was = m[i].1.dns_hits;
            let now = all_dated(m, t)[i].1.dns_hits;
            &&& now.len() == was.len()
            &&& now[k].0 == was[k].0
            &&& now[k].1.n == was[k].1.n
            &&& was[k].1.last == 0 ==> now[k].1.last == t
            &&& was[k].1.last != 0 ==> now[k].1.last == was[k].1.last
        }),
{
}

/// Thinning a device drops its hits whose factor is below one in twenty, and nothing else.
pub proof fn law_thinning_drops_faded_hits(d: DeviceView, f: Seq<u32>, i: int)
    requires
        ordered(d.dns_hits),
        f.len() == d.dns_hits.len(),
        0 <= i < d.dns_hits.len(),
    ensures
        thinned(d, f).dns_hits.contains(d.dns_hits[i]) <==> f[i] >= 0x3d4c_cccd,
        thinned(d, f) == (DeviceView { dns_hits: thinned(d, f).dns_hits, ..d }),
{
    law_faded_hits_go(d.dns_hits, f, i);
}

proof fn lemma_all_kept<V>(m: Entries<V>, keep: Seq<bool>, i: int)
    requires
        0 <= i <= m.len(),
        keep.len() == m.len(),
    ensures
        marked(m, keep, i).len() <= m.len() - i,
        marked(m, keep, i).len() == m.len() - i <==> forall|j: int|
            i <= j < m.len() ==> #[trigger] keep[j],
    decreases m.len() - i,
{
    if i < m.len() {
        lemma_all_kept(m, keep, i + 1);
        if keep[i] {
            if marked(m, keep, i).len() == m.len() - i {
                assert forall|j: int| i <= j < m.len() implies #[trigger] keep[j] by {}
            }
        }
    }
}

/// The store has to be written after the clearing if it had to be before, or if a device or
/// a hit went; a clearing that finds nothing to drop leaves all as it is.
pub proof fn law_clearing_is_noticed(s: StoreView, f: Seq<Vec<u32>>, cutoff: u64, i: int, k: int)
    requires
        crate::store::factors_fit(s.devs, f),
        0 <= i < s.devs.len(),
    ensures
        s.dirty ==> pruned(s, f, cutoff).dirty,
        s.devs[i].1.last_seen < cutoff ==> pruned(s, f, cutoff).dirty,
        0 <= k < s.devs[i].1.dns_hits.len() && f[i]@[k] < 0x3d4c_cccd ==> pruned(
            s,
            f,
            cutoff,
        ).dirty,
        pruned(s, f, cutoff).path == s.path,
        !s.dirty && (forall|j: int| 0 <= j < s.devs.len() ==> keeps_all(s.devs, f, cutoff, j))
            ==> !pruned(s, f, cutoff).dirty,
{
    let devs = crate::store::all_thinned(s.devs, f);
    let keep = crate::store::recent(s.devs, cutoff);
    lemma_all_kept(devs, keep, 0);
    if s.devs[i].1.last_seen < cutoff {
        assert(!keep[i]);
    }
    if 0 <= k < s.devs[i].1.dns_hits.len() && f[i]@[k] < 0x3d4c_cccd {
        let marks = unfaded(f[i]@);
        assert(!marks[k]);
        lemma_all_kept(s.devs[i].1.dns_hits, marks, 0);
        lemma_loses(s.devs, f, s.devs.len() as int, i);
    }
    if forall|j: int| 0 <= j < s.devs.len() ==> keeps_all(s.devs, f, cutoff, j) {
        assert forall|j: int| 0 <= j < devs.len() implies #[trigger] keep[j] by {
            assert(keeps_all(s.devs, f, cutoff, j));
        }
        lemma_loses_none(s.devs, f, cutoff, s.devs.len() as int);
    }
}

/// Whether a device is recent and none of its hits has faded.
pub open spec fn keeps_all(
    m: Entries<DeviceView>,
    f: Seq<Vec<u32>>,
    cutoff: u64,
    j: int,
) -> bool {
    m[j].1.last_seen >= cutoff && forall|k: int|
        0 <= k < f[j]@.len() ==> #[trigger] f[j]@[k] >= 0x3d4c_cccd
}

proof fn lemma_loses(m: Entries<DeviceView>, f: Seq<Vec<u32>>, n: int, i: int)
    requires
        0 <= i < n <= m.len(),
        thinned(m[i].1, f[i]@).dns_hits.len() != m[i].1.dns_hits.len(),
    ensures
        loses_hits(m, f, n),
    decreases n,
{
    if i < n - 1 {
        lemma_loses(m, f, n - 1, i);
    }
}

proof fn lemma_loses_none(m: Entries<DeviceView>, f: Seq<Vec<u32>>, cutoff: u64, n: int)
    requires
        n <= m.len(),
        crate::store::factors_fit(m, f),
        forall|j: int| 0 <= j < m.len() ==> keeps_all(m, f, cutoff, j),
    ensures
        !loses_hits(m, f, n),
    decreases n,
{
    if n > 0 {
        lemma_loses_none(m, f, cutoff, n - 1);
        assert(keeps_all(m, f, cutoff, n - 1));
        let marks = unfaded(f[n - 1]@);
        assert(f[n - 1]@.len() == m[n - 1].1.dns_hits.len());
        assert forall|k: int| 0 <= k < marks.len() implies #[trigger] marks[k] by {
            assert(f[n - 1]@[k] >= 0x3d4c_cccd);
        }
        lemma_all_kept(m[n - 1].1.dns_hits, marks, 0);
    }
}

// ---------------------------------------------------------------------------
// Hardware addresses
// ---------------------------------------------------------------------------

/// A text is a hardware address if it has twelve hexadecimal digits, whatever else it has;
/// its normal form is those digits, small, in pairs between colons.
pub proof fn law_normal_form_of_an_address(s: Seq<char>, i: int)
    requires
        0 <= i < 6,
    ensures
        mac_normal(s) is Some <==> kept(s, Class::Hex).len() == 12,
        mac_normal(s) matches Some(r) ==> {
            let h = lower(kept(s, Class::Hex));
            &&& r.len() == 17
            &&& r[3 * i] == h[2 * i] && r[3 * i + 1] == h[2 * i + 1]
            &&& i < 5 ==> r[3 * i + 2] == ':'
        },
{
}

/// The maker of a device is told by the first six digits of its address.
pub proof fn law_maker_is_told_by_six_digits(h: Seq<char>, s: Seq<char>)
    requires
        h.len() == 12,
        forall|i: int|
            0 <= i < 12 ==> '0' <= #[trigger] h[i] <= '9' || 'a' <= h[i] <= 'f' || 'A' <= h[i]
                <= 'F',
    ensures
        vendor_prefix(mac_form(h)) == h.take(6),
        kept(s, Class::Hex).len() >= 6 ==> vendor_prefix(s) == kept(s, Class::Hex).take(6),
        kept(s, Class::Hex).len() < 6 ==> vendor_prefix(s) == kept(s, Class::Hex),
{
    lemma_kept_form(h);
}

/// An address was chosen by the device itself if the second lowest bit of its first byte is
/// set.
pub proof fn law_chosen_addresses(m: Seq<u8>)
    requires
        m.len() == 6,
    ensures
        mac_is_local(mac_text(m)) <==> m[0] & 2 == 2,
{
    let t = mac_text(m);
    let hi = (m[0] / 16) as nat;
    let lo = (m[0] % 16) as nat;
    let s = t.take(2);
    assert(s[0] == digit_char(hi) && s[1] == digit_char(lo));
    reveal_with_fuel(digits_value, 3);
    assert(s.drop_last().last() == s[0]);
    assert(s.drop_last().drop_last().len() == 0);
    assert(digits_value(s, 16) == Some(hi * 16 + lo));
    assert(hi * 16 + lo == m[0]);
    let x = m[0];
    assert(x & 2 == 2 <==> (x / 2) % 2 == 1) by (bit_vector);
}

// ---------------------------------------------------------------------------
// Domain names
// ---------------------------------------------------------------------------

/// The normal form of a domain name has no space around it, no full stop at its end, and
/// small letters.
pub proof fn law_normal_form_of_a_name(
    a: Seq<char>,
    d: Seq<char>,
    dots: Seq<char>,
    b: Seq<char>,
)
    requires
        blank(a),
        blank(b),
        d.len() > 0,
        !white(d[0]),
        !white(d.last()),
        d.last() != '.',
        forall|i: int| 0 <= i < dots.len() ==> #[trigger] dots[i] == '.',
    ensures
        domain_normal(a + (d + dots) + b) == lower(d),
{
    let s = d + dots;
    assert(s[0] == d[0]);
    assert(!white(s.last())) by {
        if dots.len() > 0 {
            assert(s.last() == dots[dots.len() - 1]);
        } else {
            assert(s.last() == d.last());
        }
    }
    law_trimming(a, s, b);
    let k = Class::Is('.');
    assert forall|i: int| s.len() - dots.len() <= i < s.len() implies in_class(
        k,
        #[trigger] s[i],
    ) by {
        assert(s[i] == dots[i - d.len()]);
    }
    assert(s[s.len() - dots.len() - 1] == d.last());
    lemma_trail_is(s, k, dots.len() as int);
    assert(s.take(s.len() - dots.len()) =~= d);
}

// ---------------------------------------------------------------------------
// IPv6 addresses
// ---------------------------------------------------------------------------

/// An address written out in full is its eight groups; fewer or more are none.
pub proof fn law_full_address_is_read(g: Seq<u16>)
    requires
        g.len() > 0,
    ensures
        g.len() == 8 ==> v6_bytes(group_text(g)) == Some(group_bytes(g)),
        g.len() != 8 ==> v6_bytes(group_text(g)) is None,
{
    lemma_split_plain(g);
    lemma_side_groups(g);
    if g.len() == 8 {
        assert(spread(g, Seq::empty()) =~= g);
    }
}

/// In a shortened address the groups in front come first and those behind last, with zeros
/// between them; more than eight are none.
pub proof fn law_shortened_address_is_read(h: Seq<u16>, t: Seq<u16>, zeros: Seq<u16>)
    requires
        forall|i: int| 0 <= i < zeros.len() ==> #[trigger] zeros[i] == 0,
    ensures
        ({
            let s = group_text(h) + seq![':', ':'] + group_text(t);
            &&& h.len() + zeros.len() + t.len() == 8 ==> v6_bytes(s) == Some(
                group_bytes(h + zeros + t),
            )
            &&& h.len() + t.len() > 8 ==> v6_bytes(s) is None
        }),
{
    lemma_split_shortened(h, t);
    lemma_side_groups(h);
    lemma_side_groups(t);
    if h.len() + zeros.len() + t.len() == 8 {
        assert(spread(h, t) =~= h + zeros + t);
    }
}

/// Each group is two bytes of an address, the high one first.
pub proof fn law_groups_are_byte_pairs(g: Seq<u16>, i: int)
    requires
        g.len() == 8,
        0 <= i < 8,
    ensures
        group_bytes(g).len() == 16,
        group_bytes(g)[2 * i] * 256 + group_bytes(g)[2 * i + 1] == g[i],
        groups(group_bytes(g)) == g,
{
    assert forall|j: int| 0 <= j < 8 implies group_bytes(g)[2 * j] * 256 + group_bytes(g)[2 * j
        + 1] == #[trigger] g[j] by {
        assert((2 * j) / 2 == j && (2 * j + 1) / 2 == j);
        assert((2 * j) % 2 == 0 && (2 * j + 1) % 2 == 1);
        assert(g[j] / 256 * 256 + g[j] % 256 == g[j]);
    }
    assert(groups(group_bytes(g)) =~= g);
}

/// What stands behind a percent sign is no part of an address.
pub proof fn law_zone_is_no_part_of_an_address(a: Seq<char>, zone: Seq<char>)
    requires
        free_of(a, '%'),
    ensures
        v6_bytes(a + seq!['%'] + zone) == v6_bytes(a),
{
    law_parting_at_the_first(a, '%', zone);
}

/// Of the rows of zeros in an address the first of the longest is shortened, if it is longer
/// than one group.
pub proof fn law_first_longest_row_is_shortened(b: Seq<u8>, at: int)
    requires
        0 <= at < 8,
        forall|j: int| 0 <= j < at ==> #[trigger] zero_run(groups(b), j) < zero_run(groups(b), at),
        forall|j: int|
            at <= j < 8 ==> #[trigger] zero_run(groups(b), j) <= zero_run(groups(b), at),
    ensures
        ({
            let g = groups(b);
            let n = zero_run(g, at) as int;
            &&& n >= 2 ==> v6_text(b) == group_text(g.take(at)) + seq![':', ':'] + group_text(
                g.skip(at + n),
            )
            &&& n < 2 ==> v6_text(b) == group_text(g)
        }),
{
    let g = groups(b);
    lemma_longest_run(g, 0);
    lemma_first_longest(g, 0);
    let l = longest_run(g, 0);
    if zero_run(g, at) >= 2 {
        assert(l < 8) by {
            assert(zero_run(g, 8) == 0);
        }
        if l < at {
            assert(zero_run(g, l) < zero_run(g, at));
        }
        if l > at {
            assert(zero_run(g, at) < zero_run(g, l));
        }
        assert(l == at);
    } else {
        assert(zero_run(g, l) < 2) by {
            if l < 8 {
                assert(zero_run(g, l) <= zero_run(g, at));
            }
        }
    }
}

proof fn lemma_first_longest(g: Seq<u16>, i: int)
    requires
        0 <= i <= g.len(),
    ensures
        forall|j: int|
            i <= j < longest_run(g, i) ==> #[trigger] zero_run(g, j) < zero_run(
                g,
                longest_run(g, i),
            ),
    decreases g.len() - i,
{
    if i < g.len() {
        lemma_longest_run(g, i + 1);
        lemma_first_longest(g, i + 1);
    }
}

} // verus!
