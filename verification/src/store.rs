//! The devices of the network: what is known of each, and the store that holds
//! them.

use crate::names::{
    kept_from, law_marked_entries_stay, lemma_lookup_index, lemma_marked, lemma_views,
    lemma_views_marked, lookup, lookup_or, marked, ordered, put, views, Entries, NameMap,
};
use crate::text::{
    begins, chars, lemma_less_total, less, lists, lower, owned, spells, starts, texts, to_lower,
};
use crate::util::{is_random_mac, mac_from_eui64, mac_is_local, opt_text, v6_mac};
use vstd::prelude::*;

verus! {

/// A conclusion fades with the time since it was last confirmed. Fading factors
/// are given by their bits as single precision numbers, which order as the
/// numbers do. This one is 0.15: what has faded below it counts no more.
pub const DECAY_MUTE: u32 = 0x3e19_999a;

/// The factor 0.05: what has faded below it is forgotten.
pub const DECAY_DROP: u32 = 0x3d4c_cccd;

/// How many source ports are remembered.
pub const PORT_RING: usize = 16;

/// How often a rule was hit, and when last; 0 where that is not known.
#[derive(Clone, Copy, PartialEq, Eq, Structural)]
pub struct Hit {
    pub n: u32,
    pub last: u64,
}

impl Hit {
    /// The age by which the hit has faded; `None` where it does not fade,
    /// because fading is switched off or its time is not known.
    pub fn decay_age(&self, now: u64, halflife: u64) -> (r: Option<u64>)
        ensures
            r == if halflife == 0 || self.last == 0 {
                None
            } else if now < self.last {
                Some(0u64)
            } else {
                Some((now - self.last) as u64)
            },
    {
        if halflife == 0 || self.last == 0 {
            None
        } else {
            Some(elapsed(now, self.last))
        }
    }
}

/// The time from `last` to `now`; 0 where `last` is later.
pub open spec fn since(now: u64, last: u64) -> u64 {
    if now < last {
        0
    } else {
        (now - last) as u64
    }
}

/// The time from `last` to `now`; 0 where `last` is later.
pub fn elapsed(now: u64, last: u64) -> (r: u64)
    ensures
        r == since(now, last),
{
    if now < last {
        0
    } else {
        now - last
    }
}

/// A device and what is known of it.
pub struct Device {
    pub mac: String,
    pub ipv4: Vec<String>,
    pub ipv6: Vec<String>,
    pub dhcp_name: String,
    pub static_name: String,
    pub mdns_name: String,
    pub mdns_model: String,
    pub mdns_services: Vec<String>,
    pub upnp_server: String,
    /// The vendor class of its DHCP requests.
    pub dhcp_vendor: String,
    /// The parameter list of its DHCP requests.
    pub dhcp_fp: String,
    pub oui: String,
    /// The name that the user gave it.
    pub note: String,
    pub first_seen: u64,
    pub last_seen: u64,
    /// The rules that its queries hit.
    pub dns_hits: NameMap<Hit>,
    /// Names that hit no rule, where these are kept.
    pub unmatched: NameMap<u32>,
    pub open_ports: Vec<u16>,
    pub banner: String,
    /// The fingerprint of its TCP stack.
    pub tcp_fp: String,
    pub http_ua: String,
    pub mqtt_id: String,
    /// The rules that the hosts it connects to hit.
    pub sni_hits: NameMap<Hit>,
    /// The rules that its long connections hit.
    pub peer_hits: NameMap<Hit>,
    /// How often it asked with each query type.
    pub qtypes: NameMap<u32>,
    /// The source ports of its last queries.
    pub dns_ports: Vec<u16>,
    /// How often A and AAAA were asked for together.
    pub dns_pair_a4: u32,
    /// How often A and HTTPS were asked for together.
    pub dns_pair_https: u32,
    pub online: bool,
    pub iface: String,
    pub band: String,
    pub signal: Option<i32>,
}

/// What is known of a device, in mathematical values.
#[verifier::ext_equal]
pub struct DeviceView {
    pub mac: Seq<char>,
    pub ipv4: Seq<Seq<char>>,
    pub ipv6: Seq<Seq<char>>,
    pub dhcp_name: Seq<char>,
    pub static_name: Seq<char>,
    pub mdns_name: Seq<char>,
    pub mdns_model: Seq<char>,
    pub mdns_services: Seq<Seq<char>>,
    pub upnp_server: Seq<char>,
    pub dhcp_vendor: Seq<char>,
    pub dhcp_fp: Seq<char>,
    pub oui: Seq<char>,
    pub note: Seq<char>,
    pub first_seen: u64,
    pub last_seen: u64,
    pub dns_hits: Entries<Hit>,
    pub unmatched: Entries<u32>,
    pub open_ports: Seq<u16>,
    pub banner: Seq<char>,
    pub tcp_fp: Seq<char>,
    pub http_ua: Seq<char>,
    pub mqtt_id: Seq<char>,
    pub sni_hits: Entries<Hit>,
    pub peer_hits: Entries<Hit>,
    pub qtypes: Entries<u32>,
    pub dns_ports: Seq<u16>,
    pub dns_pair_a4: u32,
    pub dns_pair_https: u32,
    pub online: bool,
    pub iface: Seq<char>,
    pub band: Seq<char>,
    pub signal: Option<i32>,
}

impl View for Device {
    type V = DeviceView;

    open spec fn view(&self) -> DeviceView {
        DeviceView {
            mac: self.mac@,
            ipv4: texts(self.ipv4@),
            ipv6: texts(self.ipv6@),
            dhcp_name: self.dhcp_name@,
            static_name: self.static_name@,
            mdns_name: self.mdns_name@,
            mdns_model: self.mdns_model@,
            mdns_services: texts(self.mdns_services@),
            upnp_server: self.upnp_server@,
            dhcp_vendor: self.dhcp_vendor@,
            dhcp_fp: self.dhcp_fp@,
            oui: self.oui@,
            note: self.note@,
            first_seen: self.first_seen,
            last_seen: self.last_seen,
            dns_hits: self.dns_hits@,
            unmatched: self.unmatched@,
            open_ports: self.open_ports@,
            banner: self.banner@,
            tcp_fp: self.tcp_fp@,
            http_ua: self.http_ua@,
            mqtt_id: self.mqtt_id@,
            sni_hits: self.sni_hits@,
            peer_hits: self.peer_hits@,
            qtypes: self.qtypes@,
            dns_ports: self.dns_ports@,
            dns_pair_a4: self.dns_pair_a4,
            dns_pair_https: self.dns_pair_https,
            online: self.online,
            iface: self.iface@,
            band: self.band@,
            signal: self.signal,
        }
    }
}

/// A piece of evidence, as it is shown.
pub struct Ev {
    pub source: String,
    pub detail: String,
    /// Seconds since it was last seen; 0 where that does not apply.
    pub age: u64,
    pub kind: String,
    /// Negative where it speaks against a conclusion.
    pub weight: i32,
}

/// What a device was found to be.
pub struct Ident {
    pub brand: String,
    pub os: String,
    pub dtype: String,
    pub model: String,
    pub platform: String,
    pub confidence: u32,
    pub evidence: Vec<Ev>,
}

/// From this confidence on, in percent, a device counts as identified.
pub const IDENTIFIED_FROM: u32 = 50;

impl Ident {
    /// Whether the device counts as identified.
    pub fn identified(&self) -> (r: bool)
        ensures
            r == (self.confidence >= IDENTIFIED_FROM),
    {
        self.confidence >= IDENTIFIED_FROM
    }
}

/// A number as a thirty-two bit counter shows it.
pub open spec fn wrapped(n: int) -> u32 {
    (n % 0x1_0000_0000) as u32
}

/// The sum of the first `n` counts, as a thirty-two bit counter shows it.
pub open spec fn count_sum(m: Entries<u32>, n: int) -> u32
    decreases n,
{
    if n <= 0 {
        0
    } else {
        wrapped(count_sum(m, n - 1) + m[n - 1].1)
    }
}

/// The sum of two thirty-two bit numbers, as a counter shows it.
pub fn wrap_add(a: u32, b: u32) -> (r: u32)
    ensures
        r == wrapped(a + b),
{
    let s: u64 = a as u64 + b as u64;
    (s % 0x1_0000_0000) as u32
}

/// Whether a name says nothing: an interface's name or a system's default.
pub open spec fn is_junk(n: Seq<char>) -> bool {
    let l = lower(n);
    ||| l == "android"@
    ||| l == "mac"@
    ||| l == "localhost"@
    ||| l == "localhost.localdomain"@
    ||| l == "unknown"@
    ||| l == "null"@
    ||| l == "-"@
    ||| l == "device"@
    ||| l == "wlan0"@
    ||| l == "wlan1"@
    ||| l == "eth0"@
    ||| l == "eth1"@
    ||| l == "br-lan"@
}

/// Whether a name says nothing.
pub fn junk_name(n: &str) -> (r: bool)
    ensures
        r == is_junk(n@),
{
    let c = chars(n);
    let low = to_lower(c.as_slice());
    let l = low.as_slice();
    let system = spells(l, "android") || spells(l, "mac") || spells(l, "localhost") || spells(
        l,
        "localhost.localdomain",
    );
    let filler = spells(l, "unknown") || spells(l, "null") || spells(l, "-") || spells(l, "device");
    let wired = spells(l, "eth0") || spells(l, "eth1") || spells(l, "br-lan");
    let wireless = spells(l, "wlan0") || spells(l, "wlan1");
    system || filler || wired || wireless
}

/// Whether a name can be shown.
pub open spec fn telling(n: Seq<char>) -> bool {
    n.len() > 0 && !is_junk(n)
}

/// The first address that is not link-local.
pub open spec fn routable(v: Seq<Seq<char>>) -> Option<Seq<char>>
    decreases v.len(),
{
    if v.len() == 0 {
        None
    } else if !starts(v[0], "fe80"@) {
        Some(v[0])
    } else {
        routable(v.skip(1))
    }
}

/// The address that stands in for a name: the first IPv4 one, else the first
/// IPv6 one that is not link-local, else any IPv6 one, else the hardware one.
pub open spec fn address_name(d: DeviceView) -> Seq<char> {
    if d.ipv4.len() > 0 {
        d.ipv4[0]
    } else {
        match routable(d.ipv6) {
            Some(a) => a,
            None => if d.ipv6.len() > 0 {
                d.ipv6[0]
            } else {
                d.mac
            },
        }
    }
}

/// The name under which a device is shown: the user's, whatever it is, else the
/// configured one, else its own from DHCP, else its announced one, else an address.
pub open spec fn shown_name(d: DeviceView) -> Seq<char> {
    if d.note.len() > 0 {
        d.note
    } else if telling(d.static_name) {
        d.static_name
    } else if telling(d.dhcp_name) {
        d.dhcp_name
    } else if telling(d.mdns_name) {
        d.mdns_name
    } else {
        address_name(d)
    }
}

/// The last `n` items.
pub open spec fn last_of<T>(s: Seq<T>, n: int) -> Seq<T> {
    if s.len() > n {
        s.skip(s.len() - n)
    } else {
        s
    }
}

/// A device of which only its address is known, and that it was seen `now`.
pub open spec fn fresh_view(mac: Seq<char>, now: u64) -> DeviceView {
    DeviceView {
        mac,
        ipv4: Seq::empty(),
        ipv6: Seq::empty(),
        dhcp_name: Seq::empty(),
        static_name: Seq::empty(),
        mdns_name: Seq::empty(),
        mdns_model: Seq::empty(),
        mdns_services: Seq::empty(),
        upnp_server: Seq::empty(),
        dhcp_vendor: Seq::empty(),
        dhcp_fp: Seq::empty(),
        oui: Seq::empty(),
        note: Seq::empty(),
        first_seen: now,
        last_seen: now,
        dns_hits: Seq::empty(),
        unmatched: Seq::empty(),
        open_ports: Seq::empty(),
        banner: Seq::empty(),
        tcp_fp: Seq::empty(),
        http_ua: Seq::empty(),
        mqtt_id: Seq::empty(),
        sni_hits: Seq::empty(),
        peer_hits: Seq::empty(),
        qtypes: Seq::empty(),
        dns_ports: Seq::empty(),
        dns_pair_a4: 0,
        dns_pair_https: 0,
        online: false,
        iface: Seq::empty(),
        band: Seq::empty(),
        signal: None,
    }
}

/// A device after a query was counted: its type, where known, and its source
/// port, where known. The last sixteen ports are remembered.
pub open spec fn with_shape(d: DeviceView, qtype: Seq<char>, sport: u16) -> DeviceView {
    DeviceView {
        qtypes: if qtype.len() == 0 {
            d.qtypes
        } else {
            put(d.qtypes, qtype, wrapped(lookup_or(d.qtypes, qtype, 0u32) + 1))
        },
        dns_ports: if sport == 0 {
            d.dns_ports
        } else {
            last_of(d.dns_ports.push(sport), PORT_RING as int)
        },
        ..d
    }
}

impl Default for Device {
    /// A device of which nothing is known.
    fn default() -> (r: Device)
        ensures
            r.wf(),
            r@ == fresh_view(Seq::empty(), 0),
    {
        proof {
            reveal_strlit("");
            assert(""@ =~= Seq::<char>::empty());
        }
        Device::fresh("", 0)
    }
}

/// The different ports among the first `n`.
pub open spec fn port_set(v: Seq<u16>, n: int) -> Set<u16> {
    v.take(n).to_set()
}

impl Device {
    /// Whether the device's maps are well formed.
    pub open spec fn wf(&self) -> bool {
        &&& self.dns_hits.wf()
        &&& self.unmatched.wf()
        &&& self.sni_hits.wf()
        &&& self.peer_hits.wf()
        &&& self.qtypes.wf()
    }

    /// A device that has just been seen for the first time.
    pub fn fresh(mac: &str, now: u64) -> (r: Device)
        ensures
            r.wf(),
            r@ == fresh_view(mac@, now),
    {
        let r = Device {
            mac: owned(mac),
            ipv4: Vec::new(),
            ipv6: Vec::new(),
            dhcp_name: String::new(),
            static_name: String::new(),
            mdns_name: String::new(),
            mdns_model: String::new(),
            mdns_services: Vec::new(),
            upnp_server: String::new(),
            dhcp_vendor: String::new(),
            dhcp_fp: String::new(),
            oui: String::new(),
            note: String::new(),
            first_seen: now,
            last_seen: now,
            dns_hits: NameMap::new(),
            unmatched: NameMap::new(),
            open_ports: Vec::new(),
            banner: String::new(),
            tcp_fp: String::new(),
            http_ua: String::new(),
            mqtt_id: String::new(),
            sni_hits: NameMap::new(),
            peer_hits: NameMap::new(),
            qtypes: NameMap::new(),
            dns_ports: Vec::new(),
            dns_pair_a4: 0,
            dns_pair_https: 0,
            online: false,
            iface: String::new(),
            band: String::new(),
            signal: None,
        };
        assert(r@ =~= fresh_view(mac@, now));
        r
    }

    /// The name under which the device is shown.
    pub fn best_name(&self) -> (r: String)
        ensures
            r@ == shown_name(self@),
    {
        if !self.note.as_str().is_empty() {
            return owned(self.note.as_str());
        }
        if !self.static_name.as_str().is_empty() && !junk_name(self.static_name.as_str()) {
            return owned(self.static_name.as_str());
        }
        if !self.dhcp_name.as_str().is_empty() && !junk_name(self.dhcp_name.as_str()) {
            return owned(self.dhcp_name.as_str());
        }
        if !self.mdns_name.as_str().is_empty() && !junk_name(self.mdns_name.as_str()) {
            return owned(self.mdns_name.as_str());
        }
        if self.ipv4.len() > 0 {
            return owned(self.ipv4[0].as_str());
        }
        let ghost all = texts(self.ipv6@);
        assert(all.skip(0) =~= all);
        for i in 0..self.ipv6.len()
            invariant
                all == texts(self.ipv6@),
                self.ipv4@.len() == 0,
                shown_name(self@) == address_name(self@),
                self.ipv4@.len() == self@.ipv4.len(),
                routable(all) == routable(all.skip(i as int)),
        {
            let c = chars(self.ipv6[i].as_str());
            assert(all.skip(i as int)[0] == c@);
            if !begins(c.as_slice(), "fe80") {
                return owned(self.ipv6[i].as_str());
            }
            assert(all.skip(i as int).skip(1) =~= all.skip(i + 1));
        }
        assert(all.skip(self.ipv6@.len() as int) =~= Seq::<Seq<char>>::empty());
        if self.ipv6.len() > 0 {
            owned(self.ipv6[0].as_str())
        } else {
            owned(self.mac.as_str())
        }
    }

    /// Whether the device's hardware address is one that it made up.
    pub fn random_mac(&self) -> (r: bool)
        ensures
            r == mac_is_local(self.mac@),
    {
        is_random_mac(self.mac.as_str())
    }

    /// How many queries have been counted.
    pub fn dns_samples(&self) -> (r: u32)
        ensures
            r == count_sum(self.qtypes@, self.qtypes@.len() as int),
    {
        let mut sum: u32 = 0;
        let n = self.qtypes.len();
        for i in 0..n
            invariant
                n == self.qtypes@.len(),
                sum == count_sum(self.qtypes@, i as int),
        {
            sum = wrap_add(sum, *self.qtypes.value_at(i));
        }
        sum
    }

    /// How many different source ports are remembered; `None` with fewer than
    /// eight ports.
    pub fn distinct_ports(&self) -> (r: Option<usize>)
        ensures
            r == if self.dns_ports@.len() < 8 {
                None
            } else {
                Some(self.dns_ports@.to_set().len() as usize)
            },
            r matches Some(n) ==> n == self.dns_ports@.to_set().len(),
    {
        if self.dns_ports.len() < 8 {
            return None;
        }
        let mut n: usize = 0;
        assert(self.dns_ports@.take(0).to_set() =~= Set::<u16>::empty());
        for i in 0..self.dns_ports.len()
            invariant
                port_set(self.dns_ports@, i as int).finite(),
                n == port_set(self.dns_ports@, i as int).len(),
                n <= i,
        {
            let p = self.dns_ports[i];
            let ghost before = port_set(self.dns_ports@, i as int);
            let ghost head = self.dns_ports@.take(i as int);
            let mut old = false;
            for j in 0..i
                invariant
                    i < self.dns_ports@.len(),
                    p == self.dns_ports@[i as int],
                    head == self.dns_ports@.take(i as int),
                    old <==> exists|k: int| 0 <= k < j && #[trigger] head[k] == p,
            {
                if self.dns_ports[j] == p {
                    old = true;
                    assert(head[j as int] == p);
                }
            }
            assert(old <==> before.contains(p));
            assert(self.dns_ports@.take(i + 1) =~= head.push(p));
            assert(port_set(self.dns_ports@, i + 1) =~= before.insert(p)) by {
                let next = self.dns_ports@.take(i + 1);
                assert forall|x: u16| next.to_set().contains(x) <==> before.insert(p).contains(
                    x,
                ) by {
                    if next.contains(x) {
                        let k = choose|k: int| 0 <= k < next.len() && next[k] == x;
                        if k < i {
                            assert(head[k] == x);
                        }
                    }
                    if head.contains(x) {
                        let k = choose|k: int| 0 <= k < head.len() && head[k] == x;
                        assert(next[k] == x);
                    }
                    assert(next[i as int] == p);
                }
            }
            if !old {
                n = n + 1;
            }
        }
        assert(self.dns_ports@.take(self.dns_ports@.len() as int) =~= self.dns_ports@);
        Some(n)
    }

    /// Counts a query: its type, where known, and its source port, where known.
    /// The last sixteen ports are remembered.
    pub fn record_dns_shape(&mut self, qtype: &str, sport: u16)
        requires
            old(self).wf(),
        ensures
            final(self).wf(),
            final(self)@ == with_shape(old(self)@, qtype@, sport),
    {
        if !qtype.is_empty() {
            let n = self.qtypes.entry(qtype, 0);
            *n = wrap_add(*n, 1);
        }
        if sport != 0 {
            self.dns_ports.push(sport);
            let ghost all = self.dns_ports@;
            let ghost was = *self;
            let ghost mut gone: int = 0;
            assert(all.skip(0) =~= all);
            while self.dns_ports.len() > PORT_RING
                invariant
                    *self == (Device { dns_ports: self.dns_ports, ..was }),
                    0 <= gone <= all.len(),
                    self.dns_ports@ == all.skip(gone),
                    gone > 0 ==> all.len() - gone >= PORT_RING,
                decreases self.dns_ports@.len(),
            {
                self.dns_ports.remove(0);
                proof {
                    gone = gone + 1;
                    assert(self.dns_ports@ =~= all.skip(gone));
                }
            }
        }
    }
}

/// The devices, and whether they changed since they were last written.
pub struct Store {
    pub devs: NameMap<Device>,
    pub dirty: bool,
    pub path: String,
}

/// What a store holds, in mathematical values.
pub struct StoreView {
    pub devs: Entries<DeviceView>,
    pub dirty: bool,
    pub path: Seq<char>,
}

impl View for Store {
    type V = StoreView;

    open spec fn view(&self) -> StoreView {
        StoreView { devs: views(self.devs@), dirty: self.dirty, path: self.path@ }
    }
}

/// Whether a device lists an address.
pub open spec fn has_address(d: DeviceView, ip: Seq<char>) -> bool {
    d.ipv4.contains(ip) || d.ipv6.contains(ip)
}

/// The hardware address of the first device that lists an address.
pub open spec fn holder(m: Entries<DeviceView>, ip: Seq<char>) -> Option<Seq<char>>
    decreases m.len(),
{
    if m.len() == 0 {
        None
    } else if has_address(m[0].1, ip) {
        Some(m[0].1.mac)
    } else {
        holder(m.skip(1), ip)
    }
}

/// The known device whose hardware address an IPv6 address reveals.
pub open spec fn revealed(m: Entries<DeviceView>, ip: Seq<char>) -> Option<Seq<char>> {
    match v6_mac(ip) {
        Some(mac) => if lookup(m, mac) is Some {
            Some(mac)
        } else {
            None
        },
        None => None,
    }
}

/// The hardware address of the device behind an address: the one that lists it,
/// else the known one whose hardware address it reveals.
pub open spec fn owner(m: Entries<DeviceView>, ip: Seq<char>) -> Option<Seq<char>> {
    match holder(m, ip) {
        Some(mac) => Some(mac),
        None => revealed(m, ip),
    }
}

/// The store after an address was traced: a device that an address revealed
/// lists it from then on.
pub open spec fn traced(s: StoreView, ip: Seq<char>) -> StoreView {
    if holder(s.devs, ip) is None && revealed(s.devs, ip) is Some {
        let mac = revealed(s.devs, ip).unwrap();
        let d = lookup(s.devs, mac).unwrap();
        StoreView {
            devs: put(s.devs, mac, (DeviceView { ipv6: d.ipv6.push(ip), ..d })),
            dirty: true,
            ..s
        }
    } else {
        s
    }
}

/// The device under a hardware address; a new one where it is not known.
pub open spec fn device_of(s: StoreView, mac: Seq<char>, now: u64) -> DeviceView {
    lookup_or(s.devs, mac, fresh_view(mac, now))
}

/// The store with a device put in its place.
pub open spec fn with_device(s: StoreView, mac: Seq<char>, d: DeviceView) -> StoreView {
    StoreView { devs: put(s.devs, mac, d), dirty: true, ..s }
}

/// The hits after those without a time were given the time `t`.
pub open spec fn dated(m: Entries<Hit>, t: u64) -> Entries<Hit> {
    m.map_values(
        |e: (Seq<char>, Hit)|
            (
                e.0,
                if e.1.last == 0 {
                    Hit { n: e.1.n, last: t }
                } else {
                    e.1
                },
            ),
    )
}

/// The devices after their hits without a time were given the time `t`.
pub open spec fn all_dated(m: Entries<DeviceView>, t: u64) -> Entries<DeviceView> {
    m.map_values(
        |e: (Seq<char>, DeviceView)|
            (e.0, DeviceView { dns_hits: dated(e.1.dns_hits, t), ..e.1 }),
    )
}

/// Which hits have not faded away, by their factors.
pub open spec fn unfaded(f: Seq<u32>) -> Seq<bool> {
    f.map_values(|x: u32| x >= DECAY_DROP)
}

/// A device without the hits that have faded away.
pub open spec fn thinned(d: DeviceView, f: Seq<u32>) -> DeviceView {
    DeviceView { dns_hits: marked(d.dns_hits, unfaded(f), 0), ..d }
}

/// The devices without the hits that have faded away.
pub open spec fn all_thinned(m: Entries<DeviceView>, f: Seq<Vec<u32>>) -> Entries<DeviceView> {
    Seq::new(m.len(), |i: int| (m[i].0, thinned(m[i].1, f[i]@)))
}

/// Which devices were seen at or after `cutoff`.
pub open spec fn recent(m: Entries<DeviceView>, cutoff: u64) -> Seq<bool> {
    m.map_values(|e: (Seq<char>, DeviceView)| e.1.last_seen >= cutoff)
}

/// Whether there is a factor for every hit of every device.
pub open spec fn factors_fit(m: Entries<DeviceView>, f: Seq<Vec<u32>>) -> bool {
    &&& f.len() == m.len()
    &&& forall|i: int| 0 <= i < m.len() ==> (#[trigger] f[i])@.len() == m[i].1.dns_hits.len()
}

/// Whether one of the first `n` devices loses a hit.
pub open spec fn loses_hits(m: Entries<DeviceView>, f: Seq<Vec<u32>>, n: int) -> bool
    decreases n,
{
    n > 0 && (loses_hits(m, f, n - 1) || thinned(m[n - 1].1, f[n - 1]@).dns_hits.len() != m[n
        - 1].1.dns_hits.len())
}

/// The store after forgetting the devices that were last seen before `cutoff`
/// and, of the others, the hits that have faded away.
pub open spec fn pruned(s: StoreView, f: Seq<Vec<u32>>, cutoff: u64) -> StoreView {
    let devs = marked(all_thinned(s.devs, f), recent(s.devs, cutoff), 0);
    StoreView {
        devs,
        dirty: s.dirty || loses_hits(s.devs, f, s.devs.len() as int) || devs.len() != s.devs.len(),
        ..s
    }
}

/// Marks the hits that have not faded away.
fn mark_unfaded(f: &Vec<u32>) -> (r: Vec<bool>)
    ensures
        r@ == unfaded(f@),
{
    let mut out: Vec<bool> = Vec::new();
    for i in 0..f.len()
        invariant
            out@ == unfaded(f@).take(i as int),
    {
        out.push(f[i] >= DECAY_DROP);
        assert(out@ =~= unfaded(f@).take(i + 1));
    }
    assert(out@ =~= unfaded(f@));
    out
}

impl Store {
    /// Whether the store's maps are well formed.
    pub open spec fn wf(&self) -> bool {
        self.devs.wf() && forall|i: int|
            0 <= i < self.devs@.len() ==> (#[trigger] self.devs@[i]).1.wf()
    }

    /// A store with the devices `devs`, as they were read from `path` at the
    /// time `t`. A hit without a time counts as one of this moment.
    pub fn load(devs: NameMap<Device>, path: &str, t: u64) -> (r: Store)
        requires
            devs.wf(),
            forall|i: int| 0 <= i < devs@.len() ==> (#[trigger] devs@[i]).1.wf(),
        ensures
            r.wf(),
            r@ == (StoreView { devs: all_dated(views(devs@), t), dirty: false, path: path@ }),
    {
        let ghost was = views(devs@);
        let ghost goal = all_dated(was, t);
        let mut devs = devs;
        let n = devs.len();
        for i in 0..n
            invariant
                devs.wf(),
                n == was.len(),
                devs@.len() == was.len(),
                goal == all_dated(was, t),
                forall|j: int| 0 <= j < n ==> (#[trigger] devs@[j]).1.wf(),
                views(devs@) =~= goal.take(i as int) + was.skip(i as int),
        {
            let ghost before = views(devs@);
            assert(before[i as int] == was[i as int]);
            let d = devs.value_at_mut(i);
            d.date_hits(t);
            assert(views(devs@) =~= before.update(i as int, goal[i as int]));
            assert(views(devs@) =~= goal.take(i + 1) + was.skip(i + 1));
        }
        assert(views(devs@) =~= goal);
        Store { devs, dirty: false, path: owned(path) }
    }

    /// The device with the hardware address `mac`, to be changed. Where it is not
    /// known, it is seen for the first time `now`.
    pub fn get(&mut self, mac: &str, now: u64) -> (r: &mut Device)
        requires
            old(self).wf(),
        ensures
            r.wf(),
            r@ == device_of(old(self)@, mac@, now),
            final(self)@ == with_device(old(self)@, mac@, final(r)@),
            final(r).wf() ==> final(self).wf(),
    {
        self.dirty = true;
        let ghost was = self.devs@;
        let new = Device::fresh(mac, now);
        proof {
            lemma_views(was, mac@, new);
            if lookup(was, mac@) is Some {
                let i = lemma_lookup_index(was, mac@);
                assert(was[i].1.wf());
            }
        }
        let r = self.devs.entry(mac, new);
        proof {
            lemma_put_wf(was, mac@, *final(r));
            lemma_views(was, mac@, *final(r));
        }
        r
    }

    /// The hardware address of the first device that lists the address `ip`.
    pub fn by_ip(&self, ip: &str) -> (r: Option<String>)
        ensures
            opt_text(r) == holder(self@.devs, ip@),
    {
        let n = self.devs.len();
        let ghost all = self@.devs;
        assert(all.skip(0) =~= all);
        for i in 0..n
            invariant
                n == self.devs@.len(),
                all == self@.devs,
                holder(all, ip@) == holder(all.skip(i as int), ip@),
        {
            let d = self.devs.value_at(i);
            assert(all.skip(i as int)[0].1 == d@);
            if lists(&d.ipv4, ip) || lists(&d.ipv6, ip) {
                return Some(owned(d.mac.as_str()));
            }
            assert(all.skip(i as int).skip(1) =~= all.skip(i + 1));
        }
        None
    }

    /// The hardware address of the device behind `ip`: the one that lists it,
    /// else the known one whose hardware address it reveals, which then lists it
    /// too.
    pub fn resolve_ip(&mut self, ip: &str, now: u64) -> (r: Option<String>)
        requires
            old(self).wf(),
        ensures
            final(self).wf(),
            opt_text(r) == owner(old(self)@.devs, ip@),
            final(self)@ == traced(old(self)@, ip@),
    {
        if let Some(m) = self.by_ip(ip) {
            return Some(m);
        }
        let mac = match mac_from_eui64(ip) {
            Some(m) => m,
            None => {
                return None;
            },
        };
        proof {
            lemma_views(self.devs@, mac@, arbitrary());
        }
        if !self.devs.contains_key(mac.as_str()) {
            return None;
        }
        let d = self.get(mac.as_str(), now);
        let ghost had = d@;
        d.ipv6.push(owned(ip));
        assert(d@.ipv6 =~= had.ipv6.push(ip@));
        assert(d@ == (DeviceView { ipv6: had.ipv6.push(ip@), ..had }));
        Some(mac)
    }

    /// Forgets the devices that were last seen before `max_age` ago and, of the
    /// others, the hits that have faded away. `f` gives the factor to which each
    /// hit of each device has faded.
    pub fn prune(&mut self, t: u64, max_age: u64, f: &Vec<Vec<u32>>)
        requires
            old(self).wf(),
            factors_fit(old(self)@.devs, f@),
        ensures
            final(self).wf(),
            final(self)@ == pruned(old(self)@, f@, since(t, max_age)),
    {
        let cutoff = elapsed(t, max_age);
        let ghost was = self@.devs;
        let ghost goal = all_thinned(was, f@);
        let ghost path = self.path;
        let ghost dirty = self.dirty;
        let n = self.devs.len();
        let mut alive: Vec<bool> = Vec::new();
        for i in 0..n
            invariant
                self.devs.wf(),
                self.path == path,
                factors_fit(was, f@),
                goal == all_thinned(was, f@),
                n == was.len(),
                self.devs@.len() == was.len(),
                alive@ == recent(was, cutoff).take(i as int),
                self.dirty == (dirty || loses_hits(was, f@, i as int)),
                forall|j: int| 0 <= j < n ==> (#[trigger] self.devs@[j]).1.wf(),
                views(self.devs@) =~= goal.take(i as int) + was.skip(i as int),
        {
            let ghost before = views(self.devs@);
            assert(before[i as int] == was[i as int]);
            assert(self.devs@[i as int].1@ == was[i as int].1);
            assert(f@[i as int]@.len() == was[i as int].1.dns_hits.len());
            let keep = mark_unfaded(&f[i]);
            let d = self.devs.value_at_mut(i);
            alive.push(d.last_seen >= cutoff);
            let had = d.dns_hits.len();
            d.dns_hits.retain_marked(&keep);
            let has = d.dns_hits.len();
            if had != has {
                self.dirty = true;
            }
            assert(alive@ =~= recent(was, cutoff).take(i + 1));
            assert(views(self.devs@) =~= before.update(i as int, goal[i as int]));
            assert(views(self.devs@) =~= goal.take(i + 1) + was.skip(i + 1));
        }
        assert(alive@ =~= recent(was, cutoff));
        let ghost mid = self.devs@;
        assert(views(mid) =~= goal);
        self.devs.retain_marked(&alive);
        proof {
            lemma_views_marked(mid, alive@, 0);
            lemma_marked(mid, alive@, 0);
            assert forall|i: int| 0 <= i < self.devs@.len() implies (
            #[trigger] self.devs@[i]).1.wf() by {
                let e = self.devs@[i];
                assert(kept_from(mid, alive@, 0, e));
                let k = choose|k: int| 0 <= k < mid.len() && alive@[k] && #[trigger] mid[k] == e;
                assert(mid[k].1.wf());
            }
        }
        if self.devs.len() != n {
            self.dirty = true;
        }
    }
}

proof fn lemma_put_wf(m: Entries<Device>, k: Seq<char>, d: Device)
    requires
        forall|i: int| 0 <= i < m.len() ==> (#[trigger] m[i]).1.wf(),
    ensures
        d.wf() ==> forall|i: int|
            0 <= i < put(m, k, d).len() ==> (#[trigger] put(m, k, d)[i]).1.wf(),
    decreases m.len(),
{
    reveal_with_fuel(put, 2);
    if m.len() > 0 {
        let rest = m.skip(1);
        assert forall|i: int| 0 <= i < rest.len() implies (#[trigger] rest[i]).1.wf() by {
            assert(rest[i] == m[i + 1]);
        }
        lemma_put_wf(rest, k, d);
        assert forall|i: int| d.wf() && 0 <= i < put(m, k, d).len() implies (#[trigger] put(
            m,
            k,
            d,
        )[i]).1.wf() by {
            if i > 0 && i < put(rest, k, d).len() + 1 {
                assert(put(rest, k, d)[i - 1].1.wf());
            }
        }
    }
}

impl Device {
    /// Gives the hits without a time the time `t`.
    fn date_hits(&mut self, t: u64)
        requires
            old(self).wf(),
        ensures
            final(self).wf(),
            final(self)@ == (DeviceView { dns_hits: dated(old(self)@.dns_hits, t), ..old(self)@ }),
    {
        let ghost was = self.dns_hits@;
        let ghost whole = *self;
        let n = self.dns_hits.len();
        for i in 0..n
            invariant
                n == was.len(),
                self.wf(),
                *self == (Device { dns_hits: self.dns_hits, ..whole }),
                self.dns_hits@ == dated(was, t).take(i as int) + was.skip(i as int),
        {
            let h = self.dns_hits.value_at_mut(i);
            if h.last == 0 {
                h.last = t;
            }
            assert(self.dns_hits@ =~= dated(was, t).take(i + 1) + was.skip(i + 1));
        }
        assert(self.dns_hits@ =~= dated(was, t));
    }
}

// ---------------------------------------------------------------------------
// Laws
// ---------------------------------------------------------------------------

/// An address that was traced to a device by what it reveals is found directly
/// the next time: that device lists it. One that was listed before stays with the
/// device that listed it.
pub proof fn law_traced_address_is_listed(s: StoreView, ip: Seq<char>)
    requires
        ordered(s.devs),
        owner(s.devs, ip) is Some,
    ensures
        holder(traced(s, ip).devs, ip) == if holder(s.devs, ip) is Some {
            holder(s.devs, ip)
        } else {
            Some(lookup(s.devs, revealed(s.devs, ip).unwrap()).unwrap().mac)
        },
{
    if holder(s.devs, ip) is None {
        let mac = revealed(s.devs, ip).unwrap();
        lemma_listed(s.devs, mac, lookup(s.devs, mac).unwrap(), ip);
    }
}

proof fn lemma_listed(m: Entries<DeviceView>, key: Seq<char>, d: DeviceView, ip: Seq<char>)
    requires
        ordered(m),
        holder(m, ip) is None,
        lookup(m, key) == Some(d),
    ensures
        holder(put(m, key, (DeviceView { ipv6: d.ipv6.push(ip), ..d })), ip) == Some(d.mac),
    decreases m.len(),
{
    let e = DeviceView { ipv6: d.ipv6.push(ip), ..d };
    if m.len() > 0 {
        if m[0].0 == key {
            assert(e.ipv6.last() == ip);
            assert(e.ipv6.contains(ip));
            assert(put(m, key, e)[0] == (key, e));
        } else {
            let i = lemma_lookup_index(m, key);
            assert(less(m[0].0, m[i].0));
            lemma_less_total(m[0].0, key);
            let rest = m.skip(1);
            assert(ordered(rest)) by {
                assert forall|a: int, b: int| 0 <= a < b < rest.len() implies less(
                    #[trigger] rest[a].0,
                    #[trigger] rest[b].0,
                ) by {
                    assert(rest[a] == m[a + 1] && rest[b] == m[b + 1]);
                }
            }
            lemma_listed(rest, key, d, ip);
            assert(put(m, key, e).skip(1) =~= put(rest, key, e));
            assert(put(m, key, e)[0] == m[0]);
        }
    }
}

/// Tracing an address changes nothing where it is traced again.
pub proof fn law_tracing_again_changes_nothing(s: StoreView, ip: Seq<char>)
    requires
        ordered(s.devs),
    ensures
        traced(traced(s, ip), ip) == traced(s, ip),
{
    if owner(s.devs, ip) is Some {
        law_traced_address_is_listed(s, ip);
    }
}

/// Forgetting is for those that were not seen: a device that was seen at or after
/// the cutoff stays, with the hits that have not faded away.
pub proof fn law_recent_devices_stay(s: StoreView, f: Seq<Vec<u32>>, cutoff: u64, i: int)
    requires
        factors_fit(s.devs, f),
        0 <= i < s.devs.len(),
        s.devs[i].1.last_seen >= cutoff,
    ensures
        pruned(s, f, cutoff).devs.contains((s.devs[i].0, thinned(s.devs[i].1, f[i]@))),
{
    law_marked_entries_stay(all_thinned(s.devs, f), recent(s.devs, cutoff), 0, i);
}

/// Every device that stays was seen at or after the cutoff.
pub proof fn law_old_devices_go(s: StoreView, f: Seq<Vec<u32>>, cutoff: u64, i: int)
    requires
        factors_fit(s.devs, f),
        0 <= i < pruned(s, f, cutoff).devs.len(),
    ensures
        pruned(s, f, cutoff).devs[i].1.last_seen >= cutoff,
{
    let m = all_thinned(s.devs, f);
    let keep = recent(s.devs, cutoff);
    lemma_marked(m, keep, 0);
    let e = pruned(s, f, cutoff).devs[i];
    assert(kept_from(m, keep, 0, e));
    let k = choose|k: int| 0 <= k < m.len() && keep[k] && #[trigger] m[k] == e;
    assert(keep[k]);
}

/// A hit that has not faded away is kept, and one that has is not.
pub proof fn law_faded_hits_go(m: Entries<Hit>, f: Seq<u32>, i: int)
    requires
        ordered(m),
        f.len() == m.len(),
        0 <= i < m.len(),
    ensures
        marked(m, unfaded(f), 0).contains(m[i]) <==> f[i] >= DECAY_DROP,
{
    let keep = unfaded(f);
    if f[i] >= DECAY_DROP {
        law_marked_entries_stay(m, keep, 0, i);
    } else {
        let all = marked(m, keep, 0);
        if all.contains(m[i]) {
            lemma_marked(m, keep, 0);
            let j = choose|j: int| 0 <= j < all.len() && all[j] == m[i];
            assert(kept_from(m, keep, 0, all[j]));
            let k = choose|k: int| 0 <= k < m.len() && keep[k] && #[trigger] m[k] == all[j];
            if k < i {
                assert(less(m[k].0, m[i].0));
                lemma_less_total(m[k].0, m[i].0);
            } else if i < k {
                assert(less(m[i].0, m[k].0));
                lemma_less_total(m[i].0, m[k].0);
            }
        }
    }
}

/// No more than sixteen source ports are remembered, and the last is always among
/// them.
pub proof fn law_port_ring_is_bounded(d: DeviceView, qtype: Seq<char>, sport: u16)
    requires
        sport != 0,
    ensures
        with_shape(d, qtype, sport).dns_ports.len() <= PORT_RING,
        with_shape(d, qtype, sport).dns_ports.last() == sport,
{
}

/// The user's own name for a device comes before all others, also where it is one
/// that would say nothing if the device reported it.
pub proof fn law_note_comes_first(d: DeviceView)
    requires
        d.note.len() > 0,
    ensures
        shown_name(d) == d.note,
{
}

proof fn lemma_routable(v: Seq<Seq<char>>)
    ensures
        routable(v) matches Some(a) ==> v.contains(a),
    decreases v.len(),
{
    if v.len() > 0 {
        lemma_routable(v.skip(1));
        if starts(v[0], "fe80"@) {
            if let Some(a) = routable(v.skip(1)) {
                let i = choose|i: int| 0 <= i < v.skip(1).len() && v.skip(1)[i] == a;
                assert(v[i + 1] == a);
            }
        } else {
            assert(v[0] == routable(v).unwrap());
        }
    }
}

/// A device is shown under the user's name for it, under a name that tells something,
/// or under an address of its own.
pub proof fn law_shown_name_tells_something(d: DeviceView)
    ensures
        telling(shown_name(d)) || d.ipv4.contains(shown_name(d)) || d.ipv6.contains(shown_name(d))
            || shown_name(d) == d.mac || shown_name(d) == d.note,
{
    lemma_routable(d.ipv6);
    if d.ipv4.len() > 0 {
        assert(d.ipv4[0] == address_name(d));
    } else if d.ipv6.len() > 0 && routable(d.ipv6) is None {
        assert(d.ipv6[0] == address_name(d));
    }
}

/// After loading, every hit of a rule about names has a time, and those that had one
/// kept it.
pub proof fn law_loaded_hits_are_dated(m: Entries<Hit>, t: u64, i: int)
    requires
        t > 0,
        0 <= i < m.len(),
    ensures
        dated(m, t)[i].0 == m[i].0,
        dated(m, t)[i].1.n == m[i].1.n,
        dated(m, t)[i].1.last > 0,
        m[i].1.last > 0 ==> dated(m, t)[i].1.last == m[i].1.last,
{
}

} // verus!
