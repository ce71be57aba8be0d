//! Bringing what was just seen of the clients into the store.

use crate::clients::{add_text, added, any_inside, has_inside, or_empty, Seen, SeenView};
use crate::names::{
    kept_from, law_put_then_lookup, lemma_marked, lemma_views, lemma_views_marked, lookup, marked,
    ordered, put, views, Entries, NameMap,
};
use crate::store::{
    device_of, elapsed, last_of, since, with_device, Device, DeviceView, Store, StoreView,
};
use crate::text::{owned, texts};
use crate::util::{mac_is_local, opt_text, oui_prefix, vendor_prefix};
use vstd::prelude::*;

verus! {

/// How many addresses of each kind a device keeps.
pub const ADDRESS_MAX: usize = 4;

/// The list with the first `n` of `more` added where they are not in it.
pub open spec fn all_added(v: Seq<Seq<char>>, more: Seq<Seq<char>>, n: int) -> Seq<Seq<char>>
    decreases n,
{
    if n <= 0 {
        v
    } else {
        added(all_added(v, more, n - 1), more[n - 1])
    }
}

/// The addresses of a device after some were seen: the last four.
pub open spec fn merged_ips(v: Seq<Seq<char>>, more: Seq<Seq<char>>) -> Seq<Seq<char>> {
    last_of(all_added(v, more, more.len() as int), ADDRESS_MAX as int)
}

/// A device after it was seen.
pub open spec fn merged(
    d: DeviceView,
    s: SeenView,
    configured: Option<Seq<char>>,
    now: u64,
) -> DeviceView {
    let online = s.reachable || s.lease_expire > now;
    DeviceView {
        ipv4: merged_ips(d.ipv4, s.ipv4),
        ipv6: merged_ips(d.ipv6, s.ipv6),
        dhcp_name: match s.dhcp_name {
            Some(n) => n,
            None => d.dhcp_name,
        },
        static_name: match configured {
            Some(n) => n,
            None => d.static_name,
        },
        iface: or_empty(s.iface),
        band: or_empty(s.band),
        signal: s.signal,
        online,
        last_seen: if online {
            now
        } else {
            d.last_seen
        },
        ..d
    }
}

/// The store after the first `n` clients were brought in.
pub open spec fn merged_seen(
    s: StoreView,
    seen: Entries<SeenView>,
    names: Entries<Seq<char>>,
    now: u64,
    n: int,
) -> StoreView
    decreases n,
{
    if n <= 0 {
        s
    } else {
        let b = merged_seen(s, seen, names, now, n - 1);
        let mac = seen[n - 1].0;
        with_device(b, mac, merged(device_of(b, mac, now), seen[n - 1].1, lookup(names, mac), now))
    }
}

/// A device that was not seen stays online for a while.
pub open spec fn graced(
    d: DeviceView,
    seen: Entries<SeenView>,
    now: u64,
    offline_after: u64,
) -> DeviceView {
    if lookup(seen, d.mac) is Some {
        d
    } else {
        DeviceView { online: since(now, d.last_seen) < offline_after, ..d }
    }
}

/// The devices, with those that were not seen online for a while.
pub open spec fn all_graced(
    m: Entries<DeviceView>,
    seen: Entries<SeenView>,
    now: u64,
    offline_after: u64,
) -> Entries<DeviceView> {
    m.map_values(
        |e: (Seq<char>, DeviceView)| (e.0, graced(e.1, seen, now, offline_after)),
    )
}

/// Which devices belong to the inside.
pub open spec fn inner_devices(nets: Seq<(u32, u32)>, m: Entries<DeviceView>) -> Seq<bool> {
    m.map_values(|e: (Seq<char>, DeviceView)| any_inside(nets, e.1.ipv4))
}

/// The store without the devices that lie outside, where the networks are known.
pub open spec fn inner_store(s: StoreView, nets: Seq<(u32, u32)>) -> StoreView {
    if nets.len() == 0 {
        s
    } else {
        let devs = marked(s.devs, inner_devices(nets, s.devs), 0);
        StoreView { devs, dirty: s.dirty || devs.len() != s.devs.len(), ..s }
    }
}

/// The store after all that was seen was brought in.
pub open spec fn live(
    s: StoreView,
    seen: Entries<SeenView>,
    names: Entries<Seq<char>>,
    nets: Seq<(u32, u32)>,
    now: u64,
    offline_after: u64,
) -> StoreView {
    let a = merged_seen(s, seen, names, now, seen.len() as int);
    inner_store(StoreView { devs: all_graced(a.devs, seen, now, offline_after), ..a }, nets)
}

/// Adds addresses to a list and keeps the last four.
fn merge_ips(v: &mut Vec<String>, more: &Vec<String>)
    ensures
        texts(final(v)@) == merged_ips(texts(old(v)@), texts(more@)),
{
    let ghost start = texts(v@);
    let ghost list = texts(more@);
    for i in 0..more.len()
        invariant
            list == texts(more@),
            texts(v@) == all_added(start, list, i as int),
    {
        assert(list[i as int] == more@[i as int]@);
        add_text(v, more[i].as_str());
    }
    let ghost all = texts(v@);
    let ghost mut gone: int = 0;
    assert(all.skip(0) =~= all);
    while v.len() > ADDRESS_MAX
        invariant
            0 <= gone <= all.len(),
            texts(v@) == all.skip(gone),
            gone > 0 ==> all.len() - gone >= ADDRESS_MAX,
        decreases v@.len(),
    {
        let ghost before = texts(v@);
        v.remove(0);
        proof {
            gone = gone + 1;
            assert(texts(v@) =~= before.skip(1));
            assert(texts(v@) =~= all.skip(gone));
        }
    }
    assert(texts(v@).len() == v@.len());
}

/// A copy of a text that may be missing; empty where it is.
fn text_or_empty(o: &Option<String>) -> (r: String)
    ensures
        r@ == or_empty(opt_text(*o)),
{
    match o {
        Some(s) => owned(s.as_str()),
        None => {
            let r = String::new();
            assert(r@ =~= Seq::<char>::empty());
            r
        },
    }
}

impl Device {
    /// Takes in what was seen of the device.
    fn merge(&mut self, s: &Seen, configured: Option<&String>, now: u64)
        requires
            old(self).wf(),
        ensures
            final(self).wf(),
            final(self)@ == merged(
                old(self)@,
                s@,
                match configured {
                    Some(n) => Some(n@),
                    None => None,
                },
                now,
            ),
    {
        merge_ips(&mut self.ipv4, &s.ipv4);
        merge_ips(&mut self.ipv6, &s.ipv6);
        if let Some(h) = &s.dhcp_name {
            self.dhcp_name = owned(h.as_str());
        }
        if let Some(n) = configured {
            self.static_name = owned(n.as_str());
        }
        self.iface = text_or_empty(&s.iface);
        self.band = text_or_empty(&s.band);
        self.signal = s.signal;
        self.online = s.reachable || s.lease_expire > now;
        if self.online {
            self.last_seen = now;
        }
    }
}

/// Brings what was seen into the store: each client into its device, a while of
/// grace for those that were not seen, and nothing from outside. `names` are the
/// configured names and `nets` the networks of the inside.
pub fn merge_live(
    st: &mut Store,
    seen: &NameMap<Seen>,
    names: &NameMap<String>,
    nets: &[(u32, u32)],
    now: u64,
    offline_after: u64,
)
    requires
        old(st).wf(),
        seen.wf(),
        names.wf(),
    ensures
        final(st).wf(),
        final(st)@ == live(old(st)@, views(seen@), views(names@), nets@, now, offline_after),
{
    let ghost start = st@;
    let ghost sv = views(seen@);
    let ghost nv = views(names@);
    let n = seen.len();
    for i in 0..n
        invariant
            n == seen@.len(),
            names.wf(),
            sv == views(seen@),
            nv == views(names@),
            st.wf(),
            st@ == merged_seen(start, sv, nv, now, i as int),
    {
        let mac = seen.name_at(i);
        assert(sv[i as int].0 == mac@ && sv[i as int].1 == seen@[i as int].1@);
        proof {
            lemma_views(names@, mac@, arbitrary());
        }
        let configured = names.get(mac.as_str());
        let d = st.get(mac.as_str(), now);
        d.merge(seen.value_at(i), configured, now);
    }
    let ghost a = st@;
    let ghost goal = all_graced(a.devs, sv, now, offline_after);
    let m = st.devs.len();
    for i in 0..m
        invariant
            m == a.devs.len(),
            st.devs@.len() == m,
            seen.wf(),
            sv == views(seen@),
            goal == all_graced(a.devs, sv, now, offline_after),
            st.wf(),
            st.dirty == a.dirty,
            st.path@ == a.path,
            views(st.devs@) =~= goal.take(i as int) + a.devs.skip(i as int),
    {
        let ghost before = views(st.devs@);
        assert(before[i as int] == a.devs[i as int]);
        proof {
            lemma_views(seen@, a.devs[i as int].1.mac, arbitrary());
        }
        assert(st.devs@[i as int].1.wf());
        let d = st.devs.value_at_mut(i);
        if !seen.contains_key(d.mac.as_str()) {
            d.online = elapsed(now, d.last_seen) < offline_after;
        }
        assert(views(st.devs@) =~= before.update(i as int, goal[i as int]));
        assert(views(st.devs@) =~= goal.take(i + 1) + a.devs.skip(i + 1));
    }
    assert(views(st.devs@) =~= goal);
    if nets.len() > 0 {
        let ghost before = views(st.devs@);
        let mut keep: Vec<bool> = Vec::new();
        for i in 0..m
            invariant
                m == st.devs@.len(),
                before == views(st.devs@),
                keep@ == inner_devices(nets@, before).take(i as int),
        {
            let d = st.devs.value_at(i);
            assert(before[i as int].1 == d@);
            keep.push(has_inside(nets, &d.ipv4));
            assert(keep@ =~= inner_devices(nets@, before).take(i + 1));
        }
        assert(keep@ =~= inner_devices(nets@, before));
        let ghost mid = st.devs@;
        st.devs.retain_marked(&keep);
        proof {
            lemma_views_marked(mid, keep@, 0);
            lemma_marked(mid, keep@, 0);
            assert forall|i: int| 0 <= i < st.devs@.len() implies (
            #[trigger] st.devs@[i]).1.wf() by {
                let e = st.devs@[i];
                assert(kept_from(mid, keep@, 0, e));
                let k = choose|k: int| 0 <= k < mid.len() && keep@[k] && #[trigger] mid[k] == e;
                assert(mid[k].1.wf());
            }
        }
        if st.devs.len() != m {
            st.dirty = true;
        }
    }
}

// ---------------------------------------------------------------------------
// Holders of hardware prefixes
// ---------------------------------------------------------------------------

/// The hardware prefixes of the first `n` devices whose holder is not known yet.
/// A made up address has no holder.
pub open spec fn unknown_prefixes(m: Entries<DeviceView>, n: int) -> Entries<bool>
    decreases n,
{
    if n <= 0 {
        Seq::empty()
    } else {
        let d = m[n - 1].1;
        if d.oui.len() == 0 && !mac_is_local(d.mac) {
            put(unknown_prefixes(m, n - 1), vendor_prefix(d.mac), true)
        } else {
            unknown_prefixes(m, n - 1)
        }
    }
}

/// Lists the hardware prefixes whose holder is not known yet.
pub fn wanted_prefixes(st: &Store) -> (r: NameMap<bool>)
    ensures
        r.wf(),
        r@ == unknown_prefixes(st@.devs, st@.devs.len() as int),
{
    let mut out: NameMap<bool> = NameMap::new();
    let ghost devs = st@.devs;
    let n = st.devs.len();
    for i in 0..n
        invariant
            n == st.devs@.len(),
            devs == st@.devs,
            out.wf(),
            out@ == unknown_prefixes(devs, i as int),
    {
        let d = st.devs.value_at(i);
        assert(devs[i as int].1 == d@);
        if d.oui.as_str().is_empty() && !d.random_mac() {
            out.insert(oui_prefix(d.mac.as_str()), true);
        }
    }
    out
}

/// A device after holders were found.
pub open spec fn with_holder(d: DeviceView, found: Entries<Seq<char>>) -> DeviceView {
    match lookup(found, vendor_prefix(d.mac)) {
        Some(v) if d.oui.len() == 0 => DeviceView { oui: v, ..d },
        _ => d,
    }
}

/// The devices after holders were found.
pub open spec fn with_holders(
    m: Entries<DeviceView>,
    found: Entries<Seq<char>>,
) -> Entries<DeviceView> {
    m.map_values(|e: (Seq<char>, DeviceView)| (e.0, with_holder(e.1, found)))
}

/// Takes in the holders that were found.
pub fn apply_holders(st: &mut Store, found: &NameMap<String>)
    requires
        old(st).wf(),
        found.wf(),
    ensures
        final(st).wf(),
        final(st)@ == (StoreView {
            devs: with_holders(old(st)@.devs, views(found@)),
            ..old(st)@
        }),
{
    let ghost a = st@;
    let ghost fv = views(found@);
    let ghost goal = with_holders(a.devs, fv);
    let m = st.devs.len();
    for i in 0..m
        invariant
            m == a.devs.len(),
            st.devs@.len() == m,
            found.wf(),
            fv == views(found@),
            goal == with_holders(a.devs, fv),
            st.wf(),
            st.dirty == a.dirty,
            st.path@ == a.path,
            views(st.devs@) =~= goal.take(i as int) + a.devs.skip(i as int),
    {
        let ghost before = views(st.devs@);
        assert(before[i as int] == a.devs[i as int]);
        proof {
            lemma_views(found@, vendor_prefix(a.devs[i as int].1.mac), arbitrary());
        }
        assert(st.devs@[i as int].1.wf());
        let d = st.devs.value_at_mut(i);
        if d.oui.as_str().is_empty() {
            if let Some(v) = found.get(oui_prefix(d.mac.as_str()).as_str()) {
                d.oui = owned(v.as_str());
            }
        }
        assert(views(st.devs@) =~= before.update(i as int, goal[i as int]));
        assert(views(st.devs@) =~= goal.take(i + 1) + a.devs.skip(i + 1));
    }
    assert(views(st.devs@) =~= goal);
}

// ---------------------------------------------------------------------------
// Laws
// ---------------------------------------------------------------------------

/// A device never keeps more than four addresses of a kind, and of those that were
/// just seen, the last stays.
pub proof fn law_addresses_are_bounded(v: Seq<Seq<char>>, more: Seq<Seq<char>>)
    ensures
        merged_ips(v, more).len() <= ADDRESS_MAX,
        more.len() > 0 && !v.contains(more.last()) && more.no_duplicates()
            ==> merged_ips(v, more).contains(more.last()),
{
    if more.len() > 0 && !v.contains(more.last()) && more.no_duplicates() {
        let n = more.len() as int;
        lemma_not_added(v, more, n - 1);
        let all = all_added(v, more, n);
        assert(all.last() == more.last());
        let r = merged_ips(v, more);
        assert(r.last() == more.last());
    }
}

proof fn lemma_not_added(v: Seq<Seq<char>>, more: Seq<Seq<char>>, n: int)
    requires
        0 <= n < more.len(),
        !v.contains(more.last()),
        more.no_duplicates(),
    ensures
        !all_added(v, more, n).contains(more.last()),
    decreases n,
{
    if n > 0 {
        lemma_not_added(v, more, n - 1);
        let b = all_added(v, more, n - 1);
        assert(more[n - 1] != more.last());
        let a = all_added(v, more, n);
        if a.contains(more.last()) {
            let i = choose|i: int| 0 <= i < a.len() && a[i] == more.last();
            if i < b.len() {
                assert(b[i] == more.last());
            }
        }
    }
}

/// Every device that is left lies inside, where the networks are known: one with
/// IPv4 addresses has one inside.
pub proof fn law_live_devices_are_inside(s: StoreView, nets: Seq<(u32, u32)>, i: int)
    requires
        nets.len() > 0,
        0 <= i < inner_store(s, nets).devs.len(),
    ensures
        any_inside(nets, inner_store(s, nets).devs[i].1.ipv4),
{
    let keep = inner_devices(nets, s.devs);
    lemma_marked(s.devs, keep, 0);
    let e = inner_store(s, nets).devs[i];
    assert(kept_from(s.devs, keep, 0, e));
    let k = choose|k: int| 0 <= k < s.devs.len() && keep[k] && #[trigger] s.devs[k] == e;
    assert(keep[k]);
}

/// A client that was seen to answer is online, and was seen now.
pub proof fn law_answering_client_is_online(
    d: DeviceView,
    s: SeenView,
    configured: Option<Seq<char>>,
    now: u64,
)
    requires
        s.reachable,
    ensures
        merged(d, s, configured, now).online,
        merged(d, s, configured, now).last_seen == now,
{
}

/// Only prefixes of true hardware addresses are looked up, and only where the holder
/// is not known.
pub proof fn law_wanted_prefixes_are_true(m: Entries<DeviceView>, n: int, p: Seq<char>)
    requires
        n <= m.len(),
        lookup(unknown_prefixes(m, n), p) is Some,
    ensures
        exists|i: int|
            0 <= i < n && (#[trigger] m[i]).1.oui.len() == 0 && !mac_is_local(m[i].1.mac)
                && vendor_prefix(m[i].1.mac) == p,
    decreases n,
{
    if n > 0 {
        let d = m[n - 1].1;
        if d.oui.len() == 0 && !mac_is_local(d.mac) && vendor_prefix(d.mac) == p {
            assert(m[n - 1].1.oui.len() == 0);
        } else {
            lemma_unknown_ordered(m, n - 1);
            law_put_then_lookup(unknown_prefixes(m, n - 1), vendor_prefix(d.mac), true, p);
            law_wanted_prefixes_are_true(m, n - 1, p);
            let i = choose|i: int|
                0 <= i < n - 1 && (#[trigger] m[i]).1.oui.len() == 0 && !mac_is_local(
                    m[i].1.mac,
                ) && vendor_prefix(m[i].1.mac) == p;
            assert(m[i].1.oui.len() == 0);
        }
    }
}

proof fn lemma_unknown_ordered(m: Entries<DeviceView>, n: int)
    ensures
        ordered(unknown_prefixes(m, n)),
    decreases n,
{
    if n > 0 {
        lemma_unknown_ordered(m, n - 1);
        let p = vendor_prefix(m[n - 1].1.mac);
        law_put_then_lookup(unknown_prefixes(m, n - 1), p, true, p);
    }
}

} // verus!
