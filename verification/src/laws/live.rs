//! Who is on the network, and who is online.

use crate::clients::{any_inside, with_ip, SeenView};
use crate::laws::verdict::lemma_entry;
use crate::live::{
    all_added, all_graced, graced, inner_devices, live, merged, merged_ips, merged_seen,
    unknown_prefixes, with_holders,
};
use crate::names::{
    law_put_then_lookup, lemma_lookup_index, lemma_lookup_none, lookup, lookup_or, marked, ordered,
    put, Entries,
};
use crate::store::{device_of, fresh_view, DeviceView, StoreView};
use crate::text::{contains, lemma_less_total, less};
use crate::util::{mac_is_local, vendor_prefix};
use vstd::prelude::*;

verus! {

// ---------------------------------------------------------------------------
// Addresses
// ---------------------------------------------------------------------------

proof fn lemma_all_added(v: Seq<Seq<char>>, more: Seq<Seq<char>>, n: int)
    requires
        0 <= n <= more.len(),
    ensures
        all_added(v, more, n).len() >= v.len(),
        all_added(v, more, n).len() <= v.len() + n,
        all_added(v, more, n).take(v.len() as int) == v,
        v.no_duplicates() ==> all_added(v, more, n).no_duplicates(),
        forall|i: int|
            0 <= i < n ==> all_added(v, more, n).contains(#[trigger] more[i]),
        forall|i: int|
            v.len() <= i < all_added(v, more, n).len() ==> more.contains(
                #[trigger] all_added(v, more, n)[i],
            ),
    decreases n,
{
    if n > 0 {
        lemma_all_added(v, more, n - 1);
        let a = all_added(v, more, n - 1);
        let b = all_added(v, more, n);
        let x = more[n - 1];
        if a.contains(x) {
            assert(b == a);
        } else {
            assert(b == a.push(x));
            assert(b.take(v.len() as int) =~= a.take(v.len() as int));
            assert(b.last() == x);
            assert forall|i: int| 0 <= i < n implies b.contains(#[trigger] more[i]) by {
                if i < n - 1 {
                    let k = choose|k: int| 0 <= k < a.len() && a[k] == more[i];
                    assert(b[k] == more[i]);
                }
            }
            assert forall|i: int| v.len() <= i < b.len() implies more.contains(
                #[trigger] b[i],
            ) by {
                if i < a.len() {
                    assert(b[i] == a[i]);
                }
            }
        }
    } else {
        assert(v.take(v.len() as int) =~= v);
    }
}

/// A device has the addresses it had and those it was seen with, each once, and the new ones
/// behind; of more than four the last four are kept.
pub proof fn law_addresses_of_a_device(v: Seq<Seq<char>>, more: Seq<Seq<char>>)
    ensures
        merged_ips(v, more).len() <= 4,
        forall|i: int|
            0 <= i < merged_ips(v, more).len() ==> v.contains(#[trigger] merged_ips(v, more)[i])
                || more.contains(merged_ips(v, more)[i]),
        v.no_duplicates() ==> merged_ips(v, more).no_duplicates(),
        v.len() + more.len() <= 4 ==> merged_ips(v, more).len() >= v.len() && merged_ips(
            v,
            more,
        ).take(v.len() as int) == v && forall|i: int|
            0 <= i < more.len() ==> merged_ips(v, more).contains(#[trigger] more[i]),
        more.len() == 0 && v.len() <= 4 ==> merged_ips(v, more) == v,
        forall|a: Seq<char>|
            #![trigger v.contains(a)]
            more == seq![a] && !v.contains(a) ==> merged_ips(v, more).last() == a && merged_ips(
                v,
                more,
            ).len() == if v.len() < 4 {
                v.len() + 1
            } else {
                4
            },
{
    let n = more.len() as int;
    lemma_all_added(v, more, n);
    let all = all_added(v, more, n);
    let r = merged_ips(v, more);
    assert forall|i: int| 0 <= i < r.len() implies v.contains(#[trigger] r[i]) || more.contains(
        r[i],
    ) by {
        let k = i + all.len() - r.len();
        assert(r[i] == all[k]);
        if k < v.len() {
            assert(all.take(v.len() as int)[k] == v[k]);
        }
    }
    if more.len() == 0 {
        assert(all == v);
    }
    assert forall|a: Seq<char>|
        #![trigger v.contains(a)]
        more == seq![a] && !v.contains(a) implies r.last() == a && r.len() == if v.len() < 4 {
        v.len() + 1
    } else {
        4
    } by {
        reveal_with_fuel(all_added, 2);
        assert(all == v.push(a));
    }
}

/// An address with a colon is one of IPv6, any other one of IPv4.
pub proof fn law_address_families(s: SeenView, ip: Seq<char>)
    ensures
        contains(ip, ":"@) ==> with_ip(s, ip).ipv6.contains(ip) && with_ip(s, ip).ipv4 == s.ipv4,
        !contains(ip, ":"@) ==> with_ip(s, ip).ipv4.contains(ip) && with_ip(s, ip).ipv6 == s.ipv6,
        with_ip(s, ip).dhcp_name == s.dhcp_name,
        with_ip(s, ip).lease_expire == s.lease_expire,
        with_ip(s, ip).iface == s.iface,
        with_ip(s, ip).band == s.band,
        with_ip(s, ip).signal == s.signal,
        with_ip(s, ip).reachable == s.reachable,
        forall|a: Seq<char>|
            #![trigger s.ipv4.contains(a)]
            s.ipv4.contains(a) ==> with_ip(s, ip).ipv4.contains(a),
        forall|a: Seq<char>|
            #![trigger s.ipv6.contains(a)]
            s.ipv6.contains(a) ==> with_ip(s, ip).ipv6.contains(a),
{
    let t = with_ip(s, ip);
    if !s.ipv6.contains(ip) && contains(ip, ":"@) {
        assert(t.ipv6.last() == ip);
    }
    if !s.ipv4.contains(ip) && !contains(ip, ":"@) {
        assert(t.ipv4.last() == ip);
    }
    assert forall|a: Seq<char>| #![trigger s.ipv4.contains(a)] s.ipv4.contains(a) implies
        t.ipv4.contains(a) by {
        let i = choose|i: int| 0 <= i < s.ipv4.len() && s.ipv4[i] == a;
        assert(t.ipv4[i] == a);
    }
    assert forall|a: Seq<char>| #![trigger s.ipv6.contains(a)] s.ipv6.contains(a) implies
        t.ipv6.contains(a) by {
        let i = choose|i: int| 0 <= i < s.ipv6.len() && s.ipv6[i] == a;
        assert(t.ipv6[i] == a);
    }
}

// ---------------------------------------------------------------------------
// Online or not
// ---------------------------------------------------------------------------

/// A client is online, and was last seen now, if it answers or its lease ends after now, and
/// else is not online and was last seen when it was; its name, interface, band and signal are
/// those just seen. Nothing else of the device changes.
pub proof fn law_client_is_brought_up_to_date(
    d: DeviceView,
    s: SeenView,
    configured: Option<Seq<char>>,
    now: u64,
)
    ensures
        s.lease_expire > now ==> merged(d, s, configured, now).online,
        s.reachable ==> merged(d, s, configured, now).online,
        !s.reachable && s.lease_expire <= now ==> !merged(d, s, configured, now).online,
        merged(d, s, configured, now).online ==> merged(d, s, configured, now).last_seen == now,
        !merged(d, s, configured, now).online ==> merged(d, s, configured, now).last_seen
            == d.last_seen,
        s.dhcp_name matches Some(n) ==> merged(d, s, configured, now).dhcp_name == n,
        s.dhcp_name is None ==> merged(d, s, configured, now).dhcp_name == d.dhcp_name,
        configured matches Some(n) ==> merged(d, s, configured, now).static_name == n,
        configured is None ==> merged(d, s, configured, now).static_name == d.static_name,
        s.iface matches Some(i) ==> merged(d, s, configured, now).iface == i,
        s.iface is None ==> merged(d, s, configured, now).iface.len() == 0,
        s.band matches Some(b) ==> merged(d, s, configured, now).band == b,
        s.band is None ==> merged(d, s, configured, now).band.len() == 0,
        merged(d, s, configured, now).signal == s.signal,
        merged(d, s, configured, now).ipv4 == merged_ips(d.ipv4, s.ipv4),
        merged(d, s, configured, now).ipv6 == merged_ips(d.ipv6, s.ipv6),
        ({
            let m = merged(d, s, configured, now);
            d == (DeviceView {
                ipv4: d.ipv4,
                ipv6: d.ipv6,
                dhcp_name: d.dhcp_name,
                static_name: d.static_name,
                iface: d.iface,
                band: d.band,
                signal: d.signal,
                online: d.online,
                last_seen: d.last_seen,
                ..m
            })
        }),
{
}

/// Whether each device stands under its own hardware address.
pub open spec fn under_own_address(m: Entries<DeviceView>) -> bool {
    forall|i: int| 0 <= i < m.len() ==> (#[trigger] m[i]).1.mac == m[i].0
}

proof fn lemma_put_own(m: Entries<DeviceView>, mac: Seq<char>, d: DeviceView)
    requires
        ordered(m),
        under_own_address(m),
        d.mac == mac,
    ensures
        ordered(put(m, mac, d)),
        under_own_address(put(m, mac, d)),
{
    law_put_then_lookup(m, mac, d, mac);
    let w = put(m, mac, d);
    assert forall|i: int| 0 <= i < w.len() implies (#[trigger] w[i]).1.mac == w[i].0 by {
        lemma_entry(w, i);
        law_put_then_lookup(m, mac, d, w[i].0);
        if w[i].0 != mac {
            let k = lemma_lookup_index(m, w[i].0);
            assert(m[k].1.mac == m[k].0);
        }
    }
}

proof fn lemma_merged_seen(
    s: StoreView,
    seen: Entries<SeenView>,
    names: Entries<Seq<char>>,
    now: u64,
    n: int,
    mac: Seq<char>,
)
    requires
        ordered(s.devs),
        under_own_address(s.devs),
        ordered(seen),
        0 <= n <= seen.len(),
    ensures
        ordered(merged_seen(s, seen, names, now, n).devs),
        under_own_address(merged_seen(s, seen, names, now, n).devs),
        forall|i: int|
            0 <= i < n && (#[trigger] seen[i]).0 == mac ==> lookup(
                merged_seen(s, seen, names, now, n).devs,
                mac,
            ) == Some(
                merged(
                    lookup_or(s.devs, mac, fresh_view(mac, now)),
                    seen[i].1,
                    lookup(names, mac),
                    now,
                ),
            ),
        (forall|i: int| 0 <= i < n ==> (#[trigger] seen[i]).0 != mac) ==> lookup(
            merged_seen(s, seen, names, now, n).devs,
            mac,
        ) == lookup(s.devs, mac),
    decreases n,
{
    if n > 0 {
        lemma_merged_seen(s, seen, names, now, n - 1, mac);
        let b = merged_seen(s, seen, names, now, n - 1);
        let k = seen[n - 1].0;
        lemma_merged_seen(s, seen, names, now, n - 1, k);
        assert forall|i: int| 0 <= i < n - 1 implies (#[trigger] seen[i]).0 != k by {
            lemma_less_total(seen[i].0, k);
            assert(less(seen[i].0, seen[n - 1].0));
        }
        let old = device_of(b, k, now);
        if lookup(b.devs, k) is Some {
            let j = lemma_lookup_index(b.devs, k);
            assert(b.devs[j].1.mac == b.devs[j].0);
        }
        let d = merged(old, seen[n - 1].1, lookup(names, k), now);
        assert(d.mac == k);
        lemma_put_own(b.devs, k, d);
        law_put_then_lookup(b.devs, k, d, mac);
    }
}

proof fn lemma_graced(
    m: Entries<DeviceView>,
    seen: Entries<SeenView>,
    now: u64,
    after: u64,
    mac: Seq<char>,
)
    requires
        ordered(m),
    ensures
        ordered(all_graced(m, seen, now, after)),
        match lookup(m, mac) {
            Some(d) => lookup(all_graced(m, seen, now, after), mac) == Some(
                graced(d, seen, now, after),
            ),
            None => lookup(all_graced(m, seen, now, after), mac) is None,
        },
{
    let g = all_graced(m, seen, now, after);
    assert forall|i: int, j: int| 0 <= i < j < g.len() implies less(
        #[trigger] g[i].0,
        #[trigger] g[j].0,
    ) by {
        assert(less(m[i].0, m[j].0));
    }
    if lookup(m, mac) is Some {
        let i = lemma_lookup_index(m, mac);
        lemma_entry(g, i);
    } else {
        assert forall|j: int| 0 <= j < g.len() implies (#[trigger] g[j]).0 != mac by {
            lemma_entry(m, j);
        }
        lemma_lookup_none(g, mac);
    }
}

pub proof fn lemma_marked_lookup<V>(m: Entries<V>, keep: Seq<bool>, i: int, k: Seq<char>)
    requires
        ordered(m),
        keep.len() == m.len(),
        0 <= i <= m.len(),
    ensures
        forall|j: int|
            i <= j < m.len() && (#[trigger] m[j]).0 == k && keep[j] ==> lookup(
                marked(m, keep, i),
                k,
            ) == Some(m[j].1),
        (forall|j: int| i <= j < m.len() && (#[trigger] m[j]).0 == k ==> !keep[j]) ==> lookup(
            marked(m, keep, i),
            k,
        ) is None,
    decreases m.len() - i,
{
    if i < m.len() {
        lemma_marked_lookup(m, keep, i + 1, k);
        let rest = marked(m, keep, i + 1);
        if keep[i] {
            let w = seq![m[i]] + rest;
            assert(w.skip(1) =~= rest);
            assert(w[0] == m[i]);
            if m[i].0 == k {
                assert forall|j: int|
                    i <= j < m.len() && (#[trigger] m[j]).0 == k implies j == i by {
                    lemma_less_total(m[i].0, m[j].0);
                    if j > i {
                        assert(less(m[i].0, m[j].0));
                    }
                }
            }
        } else if m[i].0 == k {
            assert forall|j: int| i < j < m.len() implies (#[trigger] m[j]).0 != k by {
                lemma_less_total(m[i].0, m[j].0);
                assert(less(m[i].0, m[j].0));
            }
        }
    }
}

/// A client that was seen is in the store, with what it was known for and what was seen of
/// it: online if it answers or its lease ends after now. Where the own networks are known
/// it is kept only if it has no IPv4 address or one inside.
pub proof fn law_seen_client_is_in_the_store(
    s: StoreView,
    seen: Entries<SeenView>,
    names: Entries<Seq<char>>,
    nets: Seq<(u32, u32)>,
    now: u64,
    after: u64,
    i: int,
)
    requires
        ordered(s.devs),
        under_own_address(s.devs),
        ordered(seen),
        0 <= i < seen.len(),
    ensures
        ({
            let mac = seen[i].0;
            let d = merged(
                match lookup(s.devs, mac) {
                    Some(d) => d,
                    None => fresh_view(mac, now),
                },
                seen[i].1,
                lookup(names, mac),
                now,
            );
            let r = lookup(live(s, seen, names, nets, now, after).devs, mac);
            &&& nets.len() == 0 || any_inside(nets, d.ipv4) ==> r == Some(d)
            &&& nets.len() > 0 && !any_inside(nets, d.ipv4) ==> r is None
            &&& d.online == (seen[i].1.reachable || seen[i].1.lease_expire > now)
            &&& d.online ==> d.last_seen == now
        }),
{
    let mac = seen[i].0;
    let n = seen.len() as int;
    lemma_merged_seen(s, seen, names, now, n, mac);
    let a = merged_seen(s, seen, names, now, n);
    lemma_graced(a.devs, seen, now, after, mac);
    lemma_entry(seen, i);
    let d = lookup(a.devs, mac).unwrap();
    let j = lemma_lookup_index(a.devs, mac);
    assert(a.devs[j].1.mac == a.devs[j].0);
    assert(graced(d, seen, now, after) == d);
    let g = all_graced(a.devs, seen, now, after);
    if nets.len() > 0 {
        let k = lemma_lookup_index(g, mac);
        lemma_marked_lookup(g, inner_devices(nets, g), 0, mac);
        assert(g[k].1 == d);
        if !any_inside(nets, d.ipv4) {
            assert forall|j: int| 0 <= j < g.len() && (#[trigger] g[j]).0 == mac implies
                !inner_devices(nets, g)[j] by {
                lemma_entry(g, j);
            }
        }
    }
}

/// A device that was not seen stays as it was, but for being online: it is while it was last
/// seen less than the time of grace ago.
pub proof fn law_unseen_device_has_its_grace(
    s: StoreView,
    seen: Entries<SeenView>,
    names: Entries<Seq<char>>,
    nets: Seq<(u32, u32)>,
    now: u64,
    after: u64,
    mac: Seq<char>,
)
    requires
        ordered(s.devs),
        under_own_address(s.devs),
        ordered(seen),
        lookup(seen, mac) is None,
    ensures
        ({
            let r = lookup(live(s, seen, names, nets, now, after).devs, mac);
            match lookup(s.devs, mac) {
                None => r is None,
                Some(d) => {
                    &&& nets.len() == 0 || any_inside(nets, d.ipv4) ==> r == Some(
                        DeviceView {
                            online: if now < d.last_seen {
                                0 < after
                            } else {
                                now - d.last_seen < after
                            },
                            ..d
                        },
                    )
                    &&& nets.len() > 0 && !any_inside(nets, d.ipv4) ==> r is None
                },
            }
        }),
{
    let n = seen.len() as int;
    lemma_merged_seen(s, seen, names, now, n, mac);
    assert forall|i: int| 0 <= i < n implies (#[trigger] seen[i]).0 != mac by {
        lemma_entry(seen, i);
    }
    let a = merged_seen(s, seen, names, now, n);
    lemma_graced(a.devs, seen, now, after, mac);
    let g = all_graced(a.devs, seen, now, after);
    if lookup(s.devs, mac) is Some {
        let d = lookup(s.devs, mac).unwrap();
        let j = lemma_lookup_index(a.devs, mac);
        assert(a.devs[j].1.mac == a.devs[j].0);
        let e = graced(d, seen, now, after);
        if nets.len() > 0 {
            let k = lemma_lookup_index(g, mac);
            lemma_marked_lookup(g, inner_devices(nets, g), 0, mac);
            assert(g[k].1 == e);
            if !any_inside(nets, d.ipv4) {
                assert forall|j: int| 0 <= j < g.len() && (#[trigger] g[j]).0 == mac implies
                    !inner_devices(nets, g)[j] by {
                    lemma_entry(g, j);
                }
            }
        }
    } else if nets.len() > 0 {
        lemma_marked_lookup(g, inner_devices(nets, g), 0, mac);
        assert forall|j: int| 0 <= j < g.len() implies (#[trigger] g[j]).0 != mac by {
            lemma_entry(g, j);
        }
    }
}

// ---------------------------------------------------------------------------
// Who made it
// ---------------------------------------------------------------------------

/// The maker is looked up of every device with a true hardware address of which it is not
/// known, by its prefix: the first six hexadecimal digits of the address.
pub proof fn law_unknown_makers_are_wanted(m: Entries<DeviceView>, n: int, i: int)
    requires
        0 <= i < n <= m.len(),
        m[i].1.oui.len() == 0,
        !mac_is_local(m[i].1.mac),
    ensures
        lookup(unknown_prefixes(m, n), vendor_prefix(m[i].1.mac)) is Some,
        ordered(unknown_prefixes(m, n)),
    decreases n,
{
    lemma_unknown_ordered(m, n - 1);
    let p = vendor_prefix(m[n - 1].1.mac);
    law_put_then_lookup(unknown_prefixes(m, n - 1), p, true, vendor_prefix(m[i].1.mac));
    if i < n - 1 {
        law_unknown_makers_are_wanted(m, n - 1, i);
    }
}

proof fn lemma_unknown_ordered(m: Entries<DeviceView>, n: int)
    ensures
        ordered(unknown_prefixes(m, n)),
    decreases n,
{
    if n > 0 {
        lemma_unknown_ordered(m, n - 1);
        let p = vendor_prefix(m[n - 1].1.mac);
        law_put_then_lookup(unknown_prefixes(m, n - 1), p, true, p);
    }
}

/// A maker that was found is noted with the devices that have its prefix and none noted; of
/// a device nothing else changes, and no maker is replaced.
pub proof fn law_found_makers_are_noted(m: Entries<DeviceView>, found: Entries<Seq<char>>, i: int)
    requires
        0 <= i < m.len(),
    ensures
        with_holders(m, found).len() == m.len(),
        with_holders(m, found)[i].0 == m[i].0,
        ({
            let p = vendor_prefix(m[i].1.mac);
            let d = with_holders(m, found)[i].1;
            &&& m[i].1.oui.len() == 0 && lookup(found, p) is Some ==> d == (DeviceView {
                oui: lookup(found, p).unwrap(),
                ..m[i].1
            })
            &&& m[i].1.oui.len() > 0 || lookup(found, p) is None ==> d == m[i].1
        }),
{
}

} // verus!
