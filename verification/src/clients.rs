//! Who is on the network: what the lease file, the neighbour tables, the wireless
//! drivers and the configuration say, in the formats in which they say it.

use crate::json::{
    get_list, get_text, json_read, json_tree, member, member_list, member_of, member_text, read,
    trees, whole_of, Tree,
};
use crate::names::{
    kept_from, law_put_then_lookup, law_without_then_lookup, lemma_lookup_at, lemma_lookup_none,
    lemma_marked, lemma_views, lemma_views_marked, lookup, lookup_or, marked, ordered, put, views,
    without, Entries, NameMap,
};
use crate::num::{parse_i32, parse_u64, parse_u8, signed, unsigned};
use crate::text::{
    back_trimmed, before, begins, chars, contains, count_trail, cut_suffix, first_word, is_white,
    lemma_less_total, less, line_list, lines, lists, mentions, owned, part_first, part_text, pieces,
    slices, spells, split, split_at_text, split_first, split_words, starts, strip_suffix, text,
    texts, trail, trim, trim_back, trim_of, trimmed, trimmed_of, white, word, words, Class,
};
use crate::util::{mac_normal, norm_mac, opt_text};
use vstd::prelude::*;
use vstd::slice::slice_subrange;
use vstd::utf8::encode_utf8;

verus! {

/// What was seen of a client.
pub struct Seen {
    pub ipv4: Vec<String>,
    pub ipv6: Vec<String>,
    pub dhcp_name: Option<String>,
    pub lease_expire: u64,
    pub iface: Option<String>,
    pub band: Option<String>,
    pub signal: Option<i32>,
    pub reachable: bool,
}

/// What was seen of a client, in mathematical values.
#[verifier::ext_equal]
pub struct SeenView {
    pub ipv4: Seq<Seq<char>>,
    pub ipv6: Seq<Seq<char>>,
    pub dhcp_name: Option<Seq<char>>,
    pub lease_expire: u64,
    pub iface: Option<Seq<char>>,
    pub band: Option<Seq<char>>,
    pub signal: Option<i32>,
    pub reachable: bool,
}

impl View for Seen {
    type V = SeenView;

    open spec fn view(&self) -> SeenView {
        SeenView {
            ipv4: texts(self.ipv4@),
            ipv6: texts(self.ipv6@),
            dhcp_name: opt_text(self.dhcp_name),
            lease_expire: self.lease_expire,
            iface: opt_text(self.iface),
            band: opt_text(self.band),
            signal: self.signal,
            reachable: self.reachable,
        }
    }
}

/// A client of which nothing was seen.
pub open spec fn unseen() -> SeenView {
    SeenView {
        ipv4: Seq::empty(),
        ipv6: Seq::empty(),
        dhcp_name: None,
        lease_expire: 0,
        iface: None,
        band: None,
        signal: None,
        reachable: false,
    }
}

impl Default for Seen {
    /// A client of which nothing was seen.
    fn default() -> (r: Seen)
        ensures
            r@ == unseen(),
    {
        let r = Seen {
            ipv4: Vec::new(),
            ipv6: Vec::new(),
            dhcp_name: None,
            lease_expire: 0,
            iface: None,
            band: None,
            signal: None,
            reachable: false,
        };
        assert(r@ =~= unseen());
        r
    }
}

/// The list with `s` at its end, where it was not in it.
pub open spec fn added(v: Seq<Seq<char>>, s: Seq<char>) -> Seq<Seq<char>> {
    if v.contains(s) {
        v
    } else {
        v.push(s)
    }
}

/// Adds `s` to a list where it is not in it yet.
pub fn add_text(v: &mut Vec<String>, s: &str)
    ensures
        texts(final(v)@) == added(texts(old(v)@), s@),
{
    if !lists(v, s) {
        let ghost was = texts(v@);
        v.push(owned(s));
        assert(texts(v@) =~= was.push(s@));
    }
}

/// A client with the address `ip` added: one with a colon is an IPv6 address.
pub open spec fn with_ip(s: SeenView, ip: Seq<char>) -> SeenView {
    if contains(ip, ":"@) {
        SeenView { ipv6: added(s.ipv6, ip), ..s }
    } else {
        SeenView { ipv4: added(s.ipv4, ip), ..s }
    }
}

impl Seen {
    /// Adds an address.
    fn add_ip(&mut self, ip: &[char])
        ensures
            final(self)@ == with_ip(old(self)@, ip@),
    {
        let s = text(ip);
        if mentions(ip, ":") {
            add_text(&mut self.ipv6, s.as_str());
        } else {
            add_text(&mut self.ipv4, s.as_str());
        }
        assert(self@ =~= with_ip(old(self)@, ip@));
    }
}

/// The client under a hardware address, where it was seen, to be changed.
fn ins<'a>(map: &'a mut NameMap<Seen>, mac: &str) -> (r: &'a mut Seen)
    requires
        old(map).wf(),
    ensures
        r@ == lookup_or(views(old(map)@), mac@, unseen()),
        views(final(map)@) == put(views(old(map)@), mac@, final(r)@),
        final(map).wf(),
{
    let ghost was = map@;
    let new = Seen::default();
    proof {
        lemma_views(was, mac@, new);
    }
    let r = map.entry(mac, new);
    proof {
        lemma_views(was, mac@, *final(r));
    }
    r
}

// ---------------------------------------------------------------------------
// Leases
// ---------------------------------------------------------------------------

/// The expiry that a word gives; 0 where it is no number.
pub open spec fn expiry(w: Seq<char>) -> u64 {
    match unsigned(w, 10, u64::MAX as nat) {
        Some(n) => n as u64,
        None => 0,
    }
}

/// The clients after one line of the lease file: expiry, hardware address,
/// address, name. A name of `*` is none.
pub open spec fn lease_step(m: Entries<SeenView>, line: Seq<char>) -> Entries<SeenView> {
    let f = words(line);
    if f.len() < 4 {
        m
    } else {
        match mac_normal(f[1]) {
            None => m,
            Some(mac) => {
                let s = with_ip(
                    SeenView { lease_expire: expiry(f[0]), ..lookup_or(m, mac, unseen()) },
                    f[2],
                );
                put(
                    m,
                    mac,
                    if f[3] != "*"@ && f[3].len() > 0 {
                        SeenView { dhcp_name: Some(f[3]), ..s }
                    } else {
                        s
                    },
                )
            },
        }
    }
}

/// The clients after the first `n` lines of the lease file.
pub open spec fn leases(m: Entries<SeenView>, ls: Seq<Seq<char>>, n: int) -> Entries<SeenView>
    decreases n,
{
    if n <= 0 {
        m
    } else {
        lease_step(leases(m, ls, n - 1), ls[n - 1])
    }
}

/// Reads the lease file.
pub fn from_leases(map: &mut NameMap<Seen>, txt: &str)
    requires
        old(map).wf(),
    ensures
        final(map).wf(),
        views(final(map)@) == leases(
            views(old(map)@),
            line_list(txt@),
            line_list(txt@).len() as int,
        ),
{
    let tc = chars(txt);
    let ls = lines(tc.as_slice());
    let ghost start = views(map@);
    let ghost all = line_list(txt@);
    assert(slices(ls@) == all);
    for i in 0..ls.len()
        invariant
            map.wf(),
            slices(ls@) == all,
            views(map@) == leases(start, all, i as int),
    {
        let ghost was = views(map@);
        let line = ls[i];
        assert(all[i as int] == line@);
        let f = split_words(line);
        let ghost fw = words(line@);
        assert(slices(f@) == fw);
        if f.len() >= 4 {
            assert(f@[0]@ == fw[0] && f@[1]@ == fw[1] && f@[2]@ == fw[2] && f@[3]@ == fw[3]);
            if let Some(mac) = norm_mac(text(f[1]).as_str()) {
                let e = ins(map, mac.as_str());
                e.lease_expire = match parse_u64(f[0]) {
                    Some(n) => n,
                    None => 0,
                };
                e.add_ip(f[2]);
                if !spells(f[3], "*") && f[3].len() > 0 {
                    e.dhcp_name = Some(text(f[3]));
                }
            }
        }
        assert(views(map@) == lease_step(was, line@));
    }
}

// ---------------------------------------------------------------------------
// Neighbours
// ---------------------------------------------------------------------------

/// The first place of `w` in a list.
pub open spec fn place_of(v: Seq<Seq<char>>, w: Seq<char>) -> Option<int>
    decreases v.len(),
{
    if v.len() == 0 {
        None
    } else if v[0] == w {
        Some(0)
    } else {
        match place_of(v.skip(1), w) {
            Some(i) => Some(i + 1),
            None => None,
        }
    }
}

/// The word behind the first `w`.
pub open spec fn word_behind(v: Seq<Seq<char>>, w: Seq<char>) -> Option<Seq<char>> {
    match place_of(v, w) {
        Some(i) => if i + 1 < v.len() {
            Some(v[i + 1])
        } else {
            None
        },
        None => None,
    }
}

proof fn lemma_place_of(v: Seq<Seq<char>>, w: Seq<char>, i: int)
    requires
        0 <= i <= v.len(),
        forall|j: int| 0 <= j < i ==> #[trigger] v[j] != w,
    ensures
        i == v.len() ==> place_of(v, w) is None,
        i < v.len() && v[i] == w ==> place_of(v, w) == Some(i),
    decreases v.len(),
{
    if v.len() > 0 && i > 0 {
        assert(v[0] != w);
        assert forall|j: int| 0 <= j < i - 1 implies #[trigger] v.skip(1)[j] != w by {
            assert(v.skip(1)[j] == v[j + 1]);
        }
        lemma_place_of(v.skip(1), w, i - 1);
    }
}

/// Finds the word behind the first `w`.
pub(crate) fn find_behind<'a>(v: &Vec<&'a [char]>, w: &str) -> (r: Option<&'a [char]>)
    ensures
        match r {
            Some(s) => word_behind(slices(v@), w@) == Some(s@),
            None => word_behind(slices(v@), w@) is None,
        },
{
    let ghost all = slices(v@);
    for i in 0..v.len()
        invariant
            all == slices(v@),
            forall|j: int| 0 <= j < i ==> #[trigger] all[j] != w@,
    {
        assert(all[i as int] == v@[i as int]@);
        if spells(v[i], w) {
            proof {
                lemma_place_of(all, w@, i as int);
            }
            let n = v.len();
            if i < n - 1 {
                assert(all[i + 1] == v@[i + 1]@);
                return Some(v[i + 1]);
            }
            return None;
        }
    }
    proof {
        lemma_place_of(all, w@, all.len() as int);
    }
    None
}

/// Whether a neighbour in this state answered lately.
pub open spec fn answers(state: Seq<char>) -> bool {
    state == "REACHABLE"@ || state == "DELAY"@ || state == "PROBE"@
}

/// Whether a neighbour in this state is there: it answers, or it did and may still.
pub open spec fn is_there(state: Seq<char>) -> bool {
    answers(state) || state == "STALE"@
}

/// The clients after one line of a neighbour table. One in any state but those of a
/// neighbour that is there does not count.
pub open spec fn neigh_step(m: Entries<SeenView>, line: Seq<char>) -> Entries<SeenView> {
    let f = words(line);
    if f.len() < 5 || !is_there(f.last()) {
        m
    } else {
        match word_behind(f, "lladdr"@) {
            None => m,
            Some(w) => match mac_normal(w) {
                None => m,
                Some(mac) => {
                    let s = with_ip(lookup_or(m, mac, unseen()), f[0]);
                    put(
                        m,
                        mac,
                        SeenView {
                            iface: if s.iface is None {
                                word_behind(f, "dev"@)
                            } else {
                                s.iface
                            },
                            reachable: s.reachable || answers(f.last()),
                            ..s
                        },
                    )
                },
            },
        }
    }
}

/// The clients after the first `n` lines of a neighbour table.
pub open spec fn neighbours(m: Entries<SeenView>, ls: Seq<Seq<char>>, n: int) -> Entries<SeenView>
    decreases n,
{
    if n <= 0 {
        m
    } else {
        neigh_step(neighbours(m, ls, n - 1), ls[n - 1])
    }
}

/// Reads a neighbour table.
pub fn from_neigh(map: &mut NameMap<Seen>, txt: &str)
    requires
        old(map).wf(),
    ensures
        final(map).wf(),
        views(final(map)@) == neighbours(
            views(old(map)@),
            line_list(txt@),
            line_list(txt@).len() as int,
        ),
{
    let tc = chars(txt);
    let ls = lines(tc.as_slice());
    let ghost start = views(map@);
    let ghost all = line_list(txt@);
    assert(slices(ls@) == all);
    for i in 0..ls.len()
        invariant
            map.wf(),
            slices(ls@) == all,
            views(map@) == neighbours(start, all, i as int),
    {
        let ghost was = views(map@);
        let line = ls[i];
        assert(all[i as int] == line@);
        read_neigh(map, line);
        assert(views(map@) == neigh_step(was, line@));
    }
}

/// Reads one line of a neighbour table.
fn read_neigh(map: &mut NameMap<Seen>, line: &[char])
    requires
        old(map).wf(),
    ensures
        final(map).wf(),
        views(final(map)@) == neigh_step(views(old(map)@), line@),
{
    let f = split_words(line);
    let ghost fw = words(line@);
    assert(slices(f@) == fw);
    if f.len() < 5 {
        return ;
    }
    let n = f.len();
    let state = f[n - 1];
    assert(fw.last() == state@);
    assert(fw[0] == f@[0]@);
    let mac = match find_behind(&f, "lladdr") {
        Some(w) => match norm_mac(text(w).as_str()) {
            Some(m) => m,
            None => {
                return ;
            },
        },
        None => {
            return ;
        },
    };
    let answering = spells(state, "REACHABLE") || spells(state, "DELAY") || spells(state, "PROBE");
    if !answering && !spells(state, "STALE") {
        return ;
    }
    let dev = match find_behind(&f, "dev") {
        Some(w) => Some(text(w)),
        None => None,
    };
    let e = ins(map, mac.as_str());
    e.add_ip(f[0]);
    if e.iface.is_none() {
        e.iface = dev;
    }
    if answering {
        e.reachable = true;
    }
}

// ---------------------------------------------------------------------------
// Wireless
// ---------------------------------------------------------------------------

/// The name of the radio that a line of the overview begins: the name stands at
/// the very start of a line that speaks of a network, details are indented.
pub open spec fn radio_name(line: Seq<char>) -> Option<Seq<char>> {
    if (line.len() > 0 && white(line[0])) || !contains(line, "ESSID"@) || first_word(line).len()
        == 0 {
        None
    } else {
        Some(first_word(line))
    }
}

/// The names of the radios in the first `n` lines of the overview.
pub open spec fn radio_names(ls: Seq<Seq<char>>, n: int) -> Seq<Seq<char>>
    decreases n,
{
    if n <= 0 {
        Seq::empty()
    } else {
        match radio_name(ls[n - 1]) {
            Some(name) => radio_names(ls, n - 1).push(name),
            None => radio_names(ls, n - 1),
        }
    }
}

/// Lists the radios in the overview of the wireless drivers.
pub fn wifi_names(txt: &str) -> (r: Vec<String>)
    ensures
        texts(r@) == radio_names(line_list(txt@), line_list(txt@).len() as int),
{
    let tc = chars(txt);
    let ls = lines(tc.as_slice());
    let ghost all = line_list(txt@);
    assert(slices(ls@) == all);
    let mut out: Vec<String> = Vec::new();
    assert(texts(out@) =~= Seq::<Seq<char>>::empty());
    for i in 0..ls.len()
        invariant
            slices(ls@) == all,
            texts(out@) == radio_names(all, i as int),
    {
        let line = ls[i];
        assert(all[i as int] == line@);
        let indented = line.len() > 0 && is_white(line[0]);
        if !indented && mentions(line, "ESSID") {
            let name = word(line);
            if name.len() > 0 {
                let ghost was = texts(out@);
                out.push(text(name));
                assert(texts(out@) =~= was.push(name@));
            }
        }
    }
    out
}

/// The figure before the first `GHz`.
pub open spec fn ghz_figure(info: Seq<char>) -> Option<Seq<char>> {
    match split_at_text(info, "GHz"@) {
        Some((head, _)) => {
            let t = back_trimmed(head, Class::White);
            Some(t.skip(t.len() - trail(t, Class::Decimal)))
        },
        None => None,
    }
}

/// Finds the figure before the first `GHz`.
pub fn ghz_text(info: &str) -> (r: Option<String>)
    ensures
        opt_text(r) == ghz_figure(info@),
{
    let c = chars(info);
    match part_text(c.as_slice(), "GHz") {
        Some((head, _)) => {
            let t = trim_back(head, Class::White);
            let n = count_trail(t, Class::Decimal);
            let tail = slice_subrange(t, t.len() - n, t.len());
            assert(tail@ =~= t@.skip(t@.len() - n));
            Some(text(tail))
        },
        None => None,
    }
}

/// The clients after one line of a radio's list of stations: hardware address,
/// signal.
pub open spec fn station_step(
    m: Entries<SeenView>,
    line: Seq<char>,
    dev: Seq<char>,
    band: Option<Seq<char>>,
) -> Entries<SeenView> {
    let t = trimmed(line);
    match mac_normal(first_word(t)) {
        Some(mac) if encode_utf8(first_word(t)).len() == 17 => put(
            m,
            mac,
            SeenView {
                iface: Some(dev),
                band,
                signal: if words(t).len() > 1 {
                    match signed(words(t)[1]) {
                        Some(n) => Some(n as i32),
                        None => None,
                    }
                } else {
                    None
                },
                reachable: true,
                ..lookup_or(m, mac, unseen())
            },
        ),
        _ => m,
    }
}

/// The clients after the first `n` lines of a radio's list of stations.
pub open spec fn stations(
    m: Entries<SeenView>,
    ls: Seq<Seq<char>>,
    dev: Seq<char>,
    band: Option<Seq<char>>,
    n: int,
) -> Entries<SeenView>
    decreases n,
{
    if n <= 0 {
        m
    } else {
        station_step(stations(m, ls, dev, band, n - 1), ls[n - 1], dev, band)
    }
}

/// Copies a text that may be missing.
pub fn copy_opt(o: &Option<String>) -> (r: Option<String>)
    ensures
        opt_text(r) == opt_text(*o),
{
    match o {
        Some(s) => Some(owned(s.as_str())),
        None => None,
    }
}

/// Reads a radio's list of stations.
pub fn from_wifi(map: &mut NameMap<Seen>, dev: &str, band: &Option<String>, txt: &str)
    requires
        old(map).wf(),
    ensures
        final(map).wf(),
        views(final(map)@) == stations(
            views(old(map)@),
            line_list(txt@),
            dev@,
            opt_text(*band),
            line_list(txt@).len() as int,
        ),
{
    let tc = chars(txt);
    let ls = lines(tc.as_slice());
    let ghost start = views(map@);
    let ghost all = line_list(txt@);
    assert(slices(ls@) == all);
    for i in 0..ls.len()
        invariant
            map.wf(),
            slices(ls@) == all,
            views(map@) == stations(start, all, dev@, opt_text(*band), i as int),
    {
        let ghost was = views(map@);
        let line = ls[i];
        assert(all[i as int] == line@);
        let t = trim(line);
        let first = text(word(t));
        let f = split_words(t);
        let ghost fw = words(t@);
        assert(slices(f@) == fw);
        assert(f@.len() > 1 ==> f@[1]@ == fw[1]);
        if let Some(mac) = norm_mac(first.as_str()) {
            if first.as_str().as_bytes().len() == 17 {
                let sig = if f.len() > 1 {
                    parse_i32(f[1])
                } else {
                    None
                };
                let e = ins(map, mac.as_str());
                e.iface = Some(owned(dev));
                e.band = copy_opt(band);
                e.signal = sig;
                e.reachable = true;
            }
        }
        assert(views(map@) == station_step(was, line@, dev@, opt_text(*band)));
    }
}

// ---------------------------------------------------------------------------
// Configuration
// ---------------------------------------------------------------------------

/// A line `key='value'` of the configuration, the quotes around the value taken
/// off.
pub open spec fn setting(line: Seq<char>) -> Option<(Seq<char>, Seq<char>)> {
    match split_first(line, '=') {
        Some((k, v)) => Some((k, trimmed_of(v, Class::Is('\'')))),
        None => None,
    }
}

/// Reads a line `key='value'` of the configuration.
fn read_setting<'a>(line: &'a [char]) -> (r: Option<(&'a [char], &'a [char])>)
    ensures
        match r {
            Some((k, v)) => setting(line@) == Some((k@, v@)),
            None => setting(line@) is None,
        },
{
    match part_first(line, '=') {
        Some((k, v)) => Some((k, trim_of(v, Class::Is('\'')))),
        None => None,
    }
}

/// For each section, its value of the first of two keys, and its value of the
/// second, after the first `n` lines of the configuration. A key of the first
/// kind is not taken for one of the second.
pub open spec fn sections(
    ls: Seq<Seq<char>>,
    a: Seq<char>,
    b: Seq<char>,
    n: int,
) -> (Entries<Seq<char>>, Entries<Seq<char>>)
    decreases n,
{
    if n <= 0 {
        (Seq::empty(), Seq::empty())
    } else {
        let (x, y) = sections(ls, a, b, n - 1);
        match setting(ls[n - 1]) {
            Some((k, v)) => if cut_suffix(k, a) is Some {
                (put(x, cut_suffix(k, a).unwrap(), v), y)
            } else if cut_suffix(k, b) is Some {
                (x, put(y, cut_suffix(k, b).unwrap(), v))
            } else {
                (x, y)
            },
            None => (x, y),
        }
    }
}

/// Collects the values of two keys by section.
fn read_sections(txt: &str, a: &str, b: &str) -> (r: (NameMap<String>, NameMap<String>))
    ensures
        r.0.wf(),
        r.1.wf(),
        (views(r.0@), views(r.1@)) == sections(
            line_list(txt@),
            a@,
            b@,
            line_list(txt@).len() as int,
        ),
{
    let tc = chars(txt);
    let ls = lines(tc.as_slice());
    let ghost all = line_list(txt@);
    assert(slices(ls@) == all);
    let mut x: NameMap<String> = NameMap::new();
    let mut y: NameMap<String> = NameMap::new();
    assert(views(x@) =~= Seq::<(Seq<char>, Seq<char>)>::empty());
    assert(views(y@) =~= Seq::<(Seq<char>, Seq<char>)>::empty());
    for i in 0..ls.len()
        invariant
            x.wf(),
            y.wf(),
            slices(ls@) == all,
            (views(x@), views(y@)) == sections(all, a@, b@, i as int),
    {
        let line = ls[i];
        assert(all[i as int] == line@);
        if let Some((k, v)) = read_setting(line) {
            let val = text(v);
            if let Some(sec) = strip_suffix(k, a) {
                proof {
                    lemma_views(x@, sec@, val);
                }
                x.insert(text(sec), val);
            } else if let Some(sec) = strip_suffix(k, b) {
                proof {
                    lemma_views(y@, sec@, val);
                }
                y.insert(text(sec), val);
            }
        }
    }
    (x, y)
}

/// The names of the first `n` sections that have a hardware address and a name.
/// Where two sections have the same address, the later one in the order of the
/// section names counts.
pub open spec fn names_by_mac(
    macs: Entries<Seq<char>>,
    names: Entries<Seq<char>>,
    n: int,
) -> Entries<Seq<char>>
    decreases n,
{
    if n <= 0 {
        Seq::empty()
    } else {
        let before = names_by_mac(macs, names, n - 1);
        match (mac_normal(macs[n - 1].1), lookup(names, macs[n - 1].0)) {
            (Some(mac), Some(name)) => put(before, mac, name),
            _ => before,
        }
    }
}

/// The configured names of devices, by hardware address.
pub open spec fn configured_names(txt: Seq<char>) -> Entries<Seq<char>> {
    let ls = line_list(txt);
    let (macs, names) = sections(ls, ".mac"@, ".name"@, ls.len() as int);
    names_by_mac(macs, names, macs.len() as int)
}

/// Reads the configured names of devices, by hardware address.
pub fn static_names(txt: &str) -> (r: NameMap<String>)
    ensures
        r.wf(),
        views(r@) == configured_names(txt@),
{
    let (macs, names) = read_sections(txt, ".mac", ".name");
    let mut out: NameMap<String> = NameMap::new();
    assert(views(out@) =~= Seq::<(Seq<char>, Seq<char>)>::empty());
    let n = macs.len();
    for i in 0..n
        invariant
            n == macs@.len(),
            names.wf(),
            out.wf(),
            views(out@) == names_by_mac(views(macs@), views(names@), i as int),
    {
        let ghost mv = views(macs@);
        assert(mv[i as int].0 == macs@[i as int].0 && mv[i as int].1 == macs@[i as int].1@);
        proof {
            lemma_views(names@, mv[i as int].0, arbitrary());
        }
        if let Some(mac) = norm_mac(macs.value_at(i).as_str()) {
            if let Some(name) = names.get(macs.name_at(i).as_str()) {
                let copy = owned(name.as_str());
                proof {
                    lemma_views(out@, mac@, copy);
                }
                out.insert(mac, copy);
            }
        }
    }
    out
}

/// The values of the first `n` sections that are not ignored.
pub open spec fn unignored(
    ifs: Entries<Seq<char>>,
    ignored: Entries<bool>,
    n: int,
) -> Seq<Seq<char>>
    decreases n,
{
    if n <= 0 {
        Seq::empty()
    } else if lookup(ignored, ifs[n - 1].0) is Some {
        unignored(ifs, ignored, n - 1)
    } else {
        unignored(ifs, ignored, n - 1).push(ifs[n - 1].1)
    }
}

/// For each section its interface, and the sections that are ignored, after the
/// first `n` lines. A section that was once ignored stays so.
pub open spec fn dhcp_sections(ls: Seq<Seq<char>>, n: int) -> (Entries<Seq<char>>, Entries<bool>)
    decreases n,
{
    if n <= 0 {
        (Seq::empty(), Seq::empty())
    } else {
        let (x, y) = dhcp_sections(ls, n - 1);
        match setting(ls[n - 1]) {
            Some((k, v)) => if cut_suffix(k, ".interface"@) is Some {
                (put(x, cut_suffix(k, ".interface"@).unwrap(), v), y)
            } else if cut_suffix(k, ".ignore"@) is Some && v == "1"@ {
                (x, put(y, cut_suffix(k, ".ignore"@).unwrap(), true))
            } else {
                (x, y)
            },
            None => (x, y),
        }
    }
}

/// The interfaces on which addresses are given out.
pub open spec fn served(txt: Seq<char>) -> Seq<Seq<char>> {
    let ls = line_list(txt);
    let (ifs, ignored) = dhcp_sections(ls, ls.len() as int);
    unignored(ifs, ignored, ifs.len() as int)
}

/// Lists the interfaces on which addresses are given out, in the order of their
/// sections' names.
pub fn lan_ifaces(txt: &str) -> (r: Vec<String>)
    ensures
        texts(r@) == served(txt@),
{
    let tc = chars(txt);
    let ls = lines(tc.as_slice());
    let ghost all = line_list(txt@);
    assert(slices(ls@) == all);
    let mut ifs: NameMap<String> = NameMap::new();
    let mut ignored: NameMap<bool> = NameMap::new();
    assert(views(ifs@) =~= Seq::<(Seq<char>, Seq<char>)>::empty());
    for i in 0..ls.len()
        invariant
            ifs.wf(),
            ignored.wf(),
            slices(ls@) == all,
            (views(ifs@), ignored@) == dhcp_sections(all, i as int),
    {
        let line = ls[i];
        assert(all[i as int] == line@);
        if let Some((k, v)) = read_setting(line) {
            if let Some(sec) = strip_suffix(k, ".interface") {
                let val = text(v);
                proof {
                    lemma_views(ifs@, sec@, val);
                }
                ifs.insert(text(sec), val);
            } else if let Some(sec) = strip_suffix(k, ".ignore") {
                if spells(v, "1") {
                    ignored.insert(text(sec), true);
                }
            }
        }
    }
    let mut out: Vec<String> = Vec::new();
    assert(texts(out@) =~= Seq::<Seq<char>>::empty());
    let n = ifs.len();
    for i in 0..n
        invariant
            n == ifs@.len(),
            ignored.wf(),
            texts(out@) == unignored(views(ifs@), ignored@, i as int),
    {
        let ghost iv = views(ifs@);
        assert(iv[i as int].0 == ifs@[i as int].0 && iv[i as int].1 == ifs@[i as int].1@);
        if !ignored.contains_key(ifs.name_at(i).as_str()) {
            let ghost was = texts(out@);
            out.push(owned(ifs.value_at(i).as_str()));
            assert(texts(out@) =~= was.push(iv[i as int].1));
        }
    }
    out
}

// ---------------------------------------------------------------------------
// Interfaces
// ---------------------------------------------------------------------------

/// A network interface, as far as it is read.
pub struct Iface {
    pub name: String,
    pub l3_device: Option<String>,
    pub device: Option<String>,
    /// Its IPv4 addresses, each with the length of its network mask.
    pub v4: Vec<(String, u64)>,
}

/// A network interface, in mathematical values.
pub struct IfaceView {
    pub name: Seq<char>,
    pub l3_device: Option<Seq<char>>,
    pub device: Option<Seq<char>>,
    pub v4: Seq<(Seq<char>, u64)>,
}

/// The views of a list of addresses.
pub open spec fn address_views(v: Seq<(String, u64)>) -> Seq<(Seq<char>, u64)> {
    v.map_values(|a: (String, u64)| (a.0@, a.1))
}

impl View for Iface {
    type V = IfaceView;

    open spec fn view(&self) -> IfaceView {
        IfaceView {
            name: self.name@,
            l3_device: opt_text(self.l3_device),
            device: opt_text(self.device),
            v4: address_views(self.v4@),
        }
    }
}

/// The views of a list of interfaces.
pub open spec fn iface_views(v: Seq<Iface>) -> Seq<IfaceView> {
    v.map_values(|i: Iface| i@)
}

/// A text, or none of its characters.
pub open spec fn or_empty(o: Option<Seq<char>>) -> Seq<char> {
    match o {
        Some(s) => s,
        None => Seq::empty(),
    }
}

/// An address and its mask in a dump.
pub open spec fn address_in(t: Tree) -> (Seq<char>, u64) {
    (
        or_empty(member_text(t, "address"@)),
        match member_of(t, "mask"@) {
            Some(x) => match whole_of(x) {
                Some(n) => n,
                None => 0,
            },
            None => 0,
        },
    )
}

/// An interface in a dump.
pub open spec fn iface_in(t: Tree) -> IfaceView {
    IfaceView {
        name: or_empty(member_text(t, "interface"@)),
        l3_device: member_text(t, "l3_device"@),
        device: member_text(t, "device"@),
        v4: match member_list(t, "ipv4-address"@) {
            Some(l) => l.map_values(|a: Tree| address_in(a)),
            None => Seq::empty(),
        },
    }
}

/// The interfaces in a dump; none where it is no JSON.
pub open spec fn ifaces_in(t: Option<Tree>) -> Seq<IfaceView> {
    match t {
        Some(t) => match member_list(t, "interface"@) {
            Some(l) => l.map_values(|i: Tree| iface_in(i)),
            None => Seq::empty(),
        },
        None => Seq::empty(),
    }
}

/// Copies a text that may be missing.
fn own_opt(o: Option<&str>) -> (r: Option<String>)
    ensures
        match o {
            Some(s) => opt_text(r) == Some(s@),
            None => r is None,
        },
{
    match o {
        Some(s) => Some(owned(s)),
        None => None,
    }
}

/// Reads an address and its mask.
fn read_address(v: &serde_json::Value) -> (r: (String, u64))
    ensures
        (r.0@, r.1) == address_in(json_tree(*v)),
{
    let addr = match get_text(v, "address") {
        Some(s) => owned(s),
        None => String::new(),
    };
    assert(addr@ =~= or_empty(member_text(json_tree(*v), "address"@)));
    let bits: u64 = match member(v, "mask") {
        Some(x) => match x.as_u64() {
            Some(n) => n,
            None => 0,
        },
        None => 0,
    };
    (addr, bits)
}

/// Reads an interface.
fn read_iface(v: &serde_json::Value) -> (r: Iface)
    ensures
        r@ == iface_in(json_tree(*v)),
{
    let name = match get_text(v, "interface") {
        Some(s) => owned(s),
        None => String::new(),
    };
    assert(name@ =~= or_empty(member_text(json_tree(*v), "interface"@)));
    let mut v4: Vec<(String, u64)> = Vec::new();
    assert(address_views(v4@) =~= Seq::<(Seq<char>, u64)>::empty());
    if let Some(list) = get_list(v, "ipv4-address") {
        let ghost all = trees(list@).map_values(|a: Tree| address_in(a));
        for i in 0..list.len()
            invariant
                all == trees(list@).map_values(|a: Tree| address_in(a)),
                address_views(v4@) == all.take(i as int),
        {
            let ghost was = address_views(v4@);
            let a = read_address(&list[i]);
            let ghost av = (a.0@, a.1);
            v4.push(a);
            assert(trees(list@)[i as int] == json_tree(list@[i as int]));
            assert(all[i as int] == av);
            assert(address_views(v4@) =~= was.push(av));
            assert(address_views(v4@) =~= all.take(i + 1));
        }
        assert(address_views(v4@) =~= all);
    }
    Iface {
        name,
        l3_device: own_opt(get_text(v, "l3_device")),
        device: own_opt(get_text(v, "device")),
        v4,
    }
}

/// Reads a dump of the interfaces.
pub fn read_ifaces(txt: &str) -> (r: Vec<Iface>)
    ensures
        iface_views(r@) == ifaces_in(json_read(txt@)),
{
    let mut out: Vec<Iface> = Vec::new();
    assert(iface_views(out@) =~= Seq::<IfaceView>::empty());
    if let Ok(v) = read(txt) {
        if let Some(list) = get_list(&v, "interface") {
            let ghost all = trees(list@).map_values(|i: Tree| iface_in(i));
            for i in 0..list.len()
                invariant
                    all == trees(list@).map_values(|i: Tree| iface_in(i)),
                    iface_views(out@) == all.take(i as int),
            {
                let ghost was = iface_views(out@);
                let one = read_iface(&list[i]);
                let ghost ov = one@;
                out.push(one);
                assert(trees(list@)[i as int] == json_tree(list@[i as int]));
                assert(all[i as int] == ov);
                assert(iface_views(out@) =~= was.push(ov));
                assert(iface_views(out@) =~= all.take(i + 1));
            }
            assert(iface_views(out@) =~= all);
        }
    }
    out
}

/// The devices after an interface was looked at: where it is wanted, the first of
/// its two devices that has a name and is not listed yet is added.
pub open spec fn device_step(
    out: Seq<Seq<char>>,
    want: Seq<Seq<char>>,
    i: IfaceView,
) -> Seq<Seq<char>> {
    if !want.contains(i.name) {
        out
    } else if or_empty(i.l3_device).len() > 0 && !out.contains(or_empty(i.l3_device)) {
        out.push(or_empty(i.l3_device))
    } else if or_empty(i.device).len() > 0 && !out.contains(or_empty(i.device)) {
        out.push(or_empty(i.device))
    } else {
        out
    }
}

/// The devices behind the wanted ones of the first `n` interfaces.
pub open spec fn wanted_devices(
    want: Seq<Seq<char>>,
    ifs: Seq<IfaceView>,
    n: int,
) -> Seq<Seq<char>>
    decreases n,
{
    if n <= 0 {
        Seq::empty()
    } else {
        device_step(wanted_devices(want, ifs, n - 1), want, ifs[n - 1])
    }
}

/// Whether a device has a name and is not listed yet.
fn is_new(o: &Option<String>, out: &Vec<String>) -> (r: bool)
    ensures
        r == (or_empty(opt_text(*o)).len() > 0 && !texts(out@).contains(or_empty(opt_text(*o)))),
{
    match o {
        Some(d) => !d.as_str().is_empty() && !lists(out, d.as_str()),
        None => false,
    }
}

/// Lists the devices behind the wanted interfaces.
pub fn pick_devices(want: &Vec<String>, ifs: &Vec<Iface>) -> (r: Vec<String>)
    ensures
        texts(r@) == wanted_devices(texts(want@), iface_views(ifs@), ifs@.len() as int),
{
    let mut out: Vec<String> = Vec::new();
    assert(texts(out@) =~= Seq::<Seq<char>>::empty());
    for i in 0..ifs.len()
        invariant
            texts(out@) == wanted_devices(texts(want@), iface_views(ifs@), i as int),
    {
        let f = &ifs[i];
        let ghost was = texts(out@);
        assert(iface_views(ifs@)[i as int] == f@);
        if lists(want, f.name.as_str()) {
            if is_new(&f.l3_device, &out) {
                if let Some(d) = &f.l3_device {
                    out.push(owned(d.as_str()));
                    assert(texts(out@) =~= was.push(d@));
                }
            } else if is_new(&f.device, &out) {
                if let Some(d) = &f.device {
                    out.push(owned(d.as_str()));
                    assert(texts(out@) =~= was.push(d@));
                }
            }
        }
    }
    out
}

/// Lists the devices behind the interfaces on which addresses are given out.
/// `uci` is the configuration and `dump` the dump of the interfaces.
pub fn lan_devices(uci: &str, dump: &str) -> (r: Vec<String>)
    ensures
        texts(r@) == wanted_devices(
            served(uci@),
            ifaces_in(json_read(dump@)),
            ifaces_in(json_read(dump@)).len() as int,
        ),
{
    let want = lan_ifaces(uci);
    let ifs = read_ifaces(dump);
    assert(iface_views(ifs@).len() == ifs@.len());
    pick_devices(&want, &ifs)
}

// ---------------------------------------------------------------------------
// Networks
// ---------------------------------------------------------------------------

/// The octets among the first `n` parts of a text; a part that is none is left
/// out.
pub open spec fn octets(ps: Seq<Seq<char>>, n: int) -> Seq<u8>
    decreases n,
{
    if n <= 0 {
        Seq::empty()
    } else {
        match unsigned(ps[n - 1], 10, 255) {
            Some(b) => octets(ps, n - 1).push(b as u8),
            None => octets(ps, n - 1),
        }
    }
}

/// The number that an IPv4 address is.
pub open spec fn v4_number(s: Seq<char>) -> Option<u32> {
    let p = octets(pieces(s, '.'), pieces(s, '.').len() as int);
    if p.len() == 4 {
        Some((p[0] * 0x100_0000 + p[1] * 0x1_0000 + p[2] * 0x100 + p[3]) as u32)
    } else {
        None
    }
}

/// Reads the number that an IPv4 address is.
pub fn v4_to_u32(s: &str) -> (r: Option<u32>)
    ensures
        r == v4_number(s@),
{
    let c = chars(s);
    let ps = split(c.as_slice(), '.');
    let ghost all = pieces(s@, '.');
    assert(slices(ps@) == all);
    let mut p: Vec<u8> = Vec::new();
    for i in 0..ps.len()
        invariant
            slices(ps@) == all,
            p@ == octets(all, i as int),
    {
        assert(all[i as int] == ps@[i as int]@);
        if let Some(b) = parse_u8(ps[i]) {
            p.push(b);
        }
    }
    if p.len() != 4 {
        return None;
    }
    Some(p[0] as u32 * 0x100_0000 + p[1] as u32 * 0x1_0000 + p[2] as u32 * 0x100 + p[3] as u32)
}

/// Whether an address lies in one of the networks. Without networks, and of what
/// is no address, it is taken to.
pub open spec fn inside(nets: Seq<(u32, u32)>, ip: Seq<char>) -> bool {
    nets.len() == 0 || match v4_number(ip) {
        Some(a) => exists|i: int| 0 <= i < nets.len() && a & (#[trigger] nets[i]).1 == nets[i].0,
        None => true,
    }
}

/// Whether an address lies in one of the networks.
pub fn in_lan(nets: &[(u32, u32)], ip: &str) -> (r: bool)
    ensures
        r == inside(nets@, ip@),
{
    if nets.len() == 0 {
        return true;
    }
    match v4_to_u32(ip) {
        Some(a) => {
            for i in 0..nets.len()
                invariant
                    v4_number(ip@) == Some(a),
                    forall|j: int| 0 <= j < i ==> a & (#[trigger] nets@[j]).1 != nets@[j].0,
            {
                let (net, mask) = nets[i];
                if a & mask == net {
                    assert(a & nets@[i as int].1 == nets@[i as int].0);
                    return true;
                }
            }
            false
        },
        None => true,
    }
}

/// The mask of a network whose prefix has the given length.
pub open spec fn net_mask(bits: u32) -> u32 {
    u32::MAX << ((32 - bits) as u32)
}

/// The network of an address: its number under the mask, and the mask; `None`
/// where the address is none or the length is not from 1 to 32.
pub open spec fn net_of(a: (Seq<char>, u64)) -> Option<(u32, u32)> {
    let bits = (a.1 % 0x1_0000_0000) as u32;
    match v4_number(a.0) {
        Some(ip) => if 1 <= bits <= 32 {
            Some((ip & net_mask(bits), net_mask(bits)))
        } else {
            None
        },
        None => None,
    }
}

/// The networks of the first `n` addresses.
pub open spec fn nets_of(v: Seq<(Seq<char>, u64)>, n: int) -> Seq<(u32, u32)>
    decreases n,
{
    if n <= 0 {
        Seq::empty()
    } else {
        match net_of(v[n - 1]) {
            Some(x) => nets_of(v, n - 1).push(x),
            None => nets_of(v, n - 1),
        }
    }
}

/// Whether an interface belongs to the inside: where nothing is known of the
/// configuration, by its name.
pub open spec fn is_inner(want: Seq<Seq<char>>, name: Seq<char>) -> bool {
    name != "loopback"@ && if want.len() == 0 {
        !starts(name, "wan"@) && !contains(name, "wwan"@)
    } else {
        want.contains(name)
    }
}

/// The networks of the inner ones of the first `n` interfaces.
pub open spec fn inner_nets(
    want: Seq<Seq<char>>,
    ifs: Seq<IfaceView>,
    n: int,
) -> Seq<(u32, u32)>
    decreases n,
{
    if n <= 0 {
        Seq::empty()
    } else if is_inner(want, ifs[n - 1].name) {
        inner_nets(want, ifs, n - 1) + nets_of(ifs[n - 1].v4, ifs[n - 1].v4.len() as int)
    } else {
        inner_nets(want, ifs, n - 1)
    }
}

/// Lists the networks of the inner interfaces.
pub fn pick_nets(want: &Vec<String>, ifs: &Vec<Iface>) -> (r: Vec<(u32, u32)>)
    ensures
        r@ == inner_nets(texts(want@), iface_views(ifs@), ifs@.len() as int),
{
    let mut out: Vec<(u32, u32)> = Vec::new();
    for i in 0..ifs.len()
        invariant
            out@ == inner_nets(texts(want@), iface_views(ifs@), i as int),
    {
        let f = &ifs[i];
        assert(iface_views(ifs@)[i as int] == f@);
        let name = chars(f.name.as_str());
        let n = name.as_slice();
        let keep = if want.len() == 0 {
            !begins(n, "wan") && !mentions(n, "wwan")
        } else {
            lists(want, f.name.as_str())
        };
        assert(texts(want@).len() == want@.len());
        if keep && !spells(n, "loopback") {
            let ghost was = out@;
            let ghost v4 = f@.v4;
            assert(was + Seq::<(u32, u32)>::empty() =~= was);
            for j in 0..f.v4.len()
                invariant
                    v4 == address_views(f.v4@),
                    out@ == was + nets_of(v4, j as int),
            {
                let a = &f.v4[j];
                assert(v4[j as int] == (a.0@, a.1));
                let bits = (a.1 % 0x1_0000_0000) as u32;
                if let Some(ip) = v4_to_u32(a.0.as_str()) {
                    if 1 <= bits && bits <= 32 {
                        let mask = u32::MAX << (32 - bits);
                        let ghost part = nets_of(v4, j as int);
                        out.push((ip & mask, mask));
                        assert(out@ =~= was + part.push((ip & mask, mask)));
                    }
                }
            }
        }
    }
    out
}

/// Lists the networks of the inside. `uci` is the configuration and `dump` the
/// dump of the interfaces.
pub fn lan_nets(uci: &str, dump: &str) -> (r: Vec<(u32, u32)>)
    ensures
        r@ == inner_nets(
            served(uci@),
            ifaces_in(json_read(dump@)),
            ifaces_in(json_read(dump@)).len() as int,
        ),
{
    let want = lan_ifaces(uci);
    let ifs = read_ifaces(dump);
    assert(iface_views(ifs@).len() == ifs@.len());
    pick_nets(&want, &ifs)
}

/// An address lies in the network of another exactly where they agree in the
/// leading bits that the network's length counts.
pub proof fn law_same_net(a: u32, b: u32, bits: u32)
    requires
        1 <= bits <= 32,
    ensures
        (a & net_mask(bits) == b & net_mask(bits)) <==> a >> ((32 - bits) as u32) == b >> ((32
            - bits) as u32),
{
    let s = (32 - bits) as u32;
    assert((a & (0xffff_ffffu32 << s) == b & (0xffff_ffffu32 << s)) <==> a >> s == b >> s)
        by (bit_vector)
        requires
            s < 32,
    ;
}

// ---------------------------------------------------------------------------
// All together
// ---------------------------------------------------------------------------

/// A radio, the band it works in, and what it says of its stations.
pub struct Radio {
    pub dev: String,
    pub band: Option<String>,
    pub stations: String,
}

/// The clients after the first `n` radios.
pub open spec fn radios(m: Entries<SeenView>, v: Seq<Radio>, n: int) -> Entries<SeenView>
    decreases n,
{
    if n <= 0 {
        m
    } else {
        let r = v[n - 1];
        let ls = line_list(r.stations@);
        stations(radios(m, v, n - 1), ls, r.dev@, opt_text(r.band), ls.len() as int)
    }
}

/// The hardware address of the router's own interface that a line shows.
pub open spec fn own_mac(line: Seq<char>) -> Option<Seq<char>> {
    match word_behind(words(line), "link/ether"@) {
        Some(w) => mac_normal(w),
        None => None,
    }
}

/// The clients without the router's own interfaces in the first `n` lines.
pub open spec fn without_own(m: Entries<SeenView>, ls: Seq<Seq<char>>, n: int) -> Entries<SeenView>
    decreases n,
{
    if n <= 0 {
        m
    } else {
        match own_mac(ls[n - 1]) {
            Some(mac) => without(without_own(m, ls, n - 1), mac),
            None => without_own(m, ls, n - 1),
        }
    }
}

/// Whether a list of addresses belongs to the inside: where it is empty, or one of
/// them does.
pub open spec fn any_inside(nets: Seq<(u32, u32)>, ips: Seq<Seq<char>>) -> bool {
    ips.len() == 0 || exists|i: int| 0 <= i < ips.len() && inside(nets, #[trigger] ips[i])
}

/// Which clients belong to the inside.
pub open spec fn inner_marks(nets: Seq<(u32, u32)>, m: Entries<SeenView>) -> Seq<bool> {
    m.map_values(|e: (Seq<char>, SeenView)| any_inside(nets, e.1.ipv4))
}

/// The clients of the inside; all where no network is known.
pub open spec fn inner_only(nets: Seq<(u32, u32)>, m: Entries<SeenView>) -> Entries<SeenView> {
    if nets.len() == 0 {
        m
    } else {
        marked(m, inner_marks(nets, m), 0)
    }
}

/// Whether a list of addresses belongs to the inside.
pub fn has_inside(nets: &[(u32, u32)], ips: &Vec<String>) -> (r: bool)
    ensures
        r == any_inside(nets@, texts(ips@)),
{
    let ghost all = texts(ips@);
    if ips.len() == 0 {
        return true;
    }
    for i in 0..ips.len()
        invariant
            all == texts(ips@),
            forall|j: int| 0 <= j < i ==> !inside(nets@, #[trigger] all[j]),
    {
        assert(all[i as int] == ips@[i as int]@);
        if in_lan(nets, ips[i].as_str()) {
            return true;
        }
    }
    false
}

/// All clients that were seen: in the lease file, the two neighbour tables and
/// the radios' lists, without the router itself and without what lies outside.
pub open spec fn all_seen(
    lease_file: Seq<char>,
    neigh4: Seq<char>,
    neigh6: Seq<char>,
    rs: Seq<Radio>,
    links: Seq<char>,
    nets: Seq<(u32, u32)>,
) -> Entries<SeenView> {
    let l = line_list(lease_file);
    let n4 = line_list(neigh4);
    let n6 = line_list(neigh6);
    let own = line_list(links);
    let a = leases(Seq::empty(), l, l.len() as int);
    let b = neighbours(neighbours(a, n4, n4.len() as int), n6, n6.len() as int);
    let c = radios(b, rs, rs.len() as int);
    inner_only(nets, without_own(c, own, own.len() as int))
}

/// Collects all clients that were seen.
pub fn collect(
    lease_file: &str,
    neigh4: &str,
    neigh6: &str,
    rs: &Vec<Radio>,
    links: &str,
    nets: &[(u32, u32)],
) -> (r: NameMap<Seen>)
    ensures
        r.wf(),
        views(r@) == all_seen(lease_file@, neigh4@, neigh6@, rs@, links@, nets@),
{
    let mut map: NameMap<Seen> = NameMap::new();
    assert(views(map@) =~= Seq::<(Seq<char>, SeenView)>::empty());
    from_leases(&mut map, lease_file);
    from_neigh(&mut map, neigh4);
    from_neigh(&mut map, neigh6);
    let ghost b = views(map@);
    for i in 0..rs.len()
        invariant
            map.wf(),
            views(map@) == radios(b, rs@, i as int),
    {
        from_wifi(&mut map, rs[i].dev.as_str(), &rs[i].band, rs[i].stations.as_str());
    }
    let ghost c = views(map@);
    let lc = chars(links);
    let ls = lines(lc.as_slice());
    let ghost own = line_list(links@);
    assert(slices(ls@) == own);
    for i in 0..ls.len()
        invariant
            map.wf(),
            slices(ls@) == own,
            views(map@) == without_own(c, own, i as int),
    {
        assert(own[i as int] == ls@[i as int]@);
        let f = split_words(ls[i]);
        if let Some(w) = find_behind(&f, "link/ether") {
            if let Some(mac) = norm_mac(text(w).as_str()) {
                proof {
                    lemma_views(map@, mac@, arbitrary());
                }
                let _ = map.remove(mac.as_str());
            }
        }
    }
    if nets.len() > 0 {
        let ghost before = views(map@);
        let mut keep: Vec<bool> = Vec::new();
        let n = map.len();
        for i in 0..n
            invariant
                n == map@.len(),
                before == views(map@),
                keep@ == inner_marks(nets@, before).take(i as int),
        {
            let s = map.value_at(i);
            assert(before[i as int].1 == s@);
            keep.push(has_inside(nets, &s.ipv4));
            assert(keep@ =~= inner_marks(nets@, before).take(i + 1));
        }
        assert(keep@ =~= inner_marks(nets@, before));
        proof {
            lemma_views_marked(map@, keep@, 0);
        }
        map.retain_marked(&keep);
    }
    map
}

// ---------------------------------------------------------------------------
// Laws
// ---------------------------------------------------------------------------

proof fn lemma_leases_ordered(m: Entries<SeenView>, ls: Seq<Seq<char>>, n: int)
    requires
        ordered(m),
    ensures
        ordered(leases(m, ls, n)),
    decreases n,
{
    if n > 0 {
        lemma_leases_ordered(m, ls, n - 1);
        let b = leases(m, ls, n - 1);
        let f = words(ls[n - 1]);
        if f.len() >= 4 {
            if let Some(mac) = mac_normal(f[1]) {
                let s = with_ip(
                    SeenView { lease_expire: expiry(f[0]), ..lookup_or(b, mac, unseen()) },
                    f[2],
                );
                law_put_then_lookup(b, mac, s, mac);
                law_put_then_lookup(b, mac, SeenView { dhcp_name: Some(f[3]), ..s }, mac);
            }
        }
    }
}

proof fn lemma_neighbours_ordered(m: Entries<SeenView>, ls: Seq<Seq<char>>, n: int)
    requires
        ordered(m),
    ensures
        ordered(neighbours(m, ls, n)),
    decreases n,
{
    if n > 0 {
        lemma_neighbours_ordered(m, ls, n - 1);
        let b = neighbours(m, ls, n - 1);
        let f = words(ls[n - 1]);
        if let Some(w) = word_behind(f, "lladdr"@) {
            if let Some(mac) = mac_normal(w) {
                let s = with_ip(lookup_or(b, mac, unseen()), f[0]);
                let e = SeenView {
                    iface: if s.iface is None {
                        word_behind(f, "dev"@)
                    } else {
                        s.iface
                    },
                    reachable: s.reachable || answers(f.last()),
                    ..s
                };
                law_put_then_lookup(b, mac, e, mac);
            }
        }
    }
}

proof fn lemma_stations_ordered(
    m: Entries<SeenView>,
    ls: Seq<Seq<char>>,
    dev: Seq<char>,
    band: Option<Seq<char>>,
    n: int,
)
    requires
        ordered(m),
    ensures
        ordered(stations(m, ls, dev, band, n)),
    decreases n,
{
    if n > 0 {
        lemma_stations_ordered(m, ls, dev, band, n - 1);
        let b = stations(m, ls, dev, band, n - 1);
        let t = trimmed(ls[n - 1]);
        if let Some(mac) = mac_normal(first_word(t)) {
            let e = SeenView {
                iface: Some(dev),
                band,
                signal: if words(t).len() > 1 {
                    match signed(words(t)[1]) {
                        Some(n) => Some(n as i32),
                        None => None,
                    }
                } else {
                    None
                },
                reachable: true,
                ..lookup_or(b, mac, unseen())
            };
            law_put_then_lookup(b, mac, e, mac);
        }
    }
}

proof fn lemma_radios_ordered(m: Entries<SeenView>, v: Seq<Radio>, n: int)
    requires
        ordered(m),
    ensures
        ordered(radios(m, v, n)),
    decreases n,
{
    if n > 0 {
        lemma_radios_ordered(m, v, n - 1);
        let ls = line_list(v[n - 1].stations@);
        lemma_stations_ordered(
            radios(m, v, n - 1),
            ls,
            v[n - 1].dev@,
            opt_text(v[n - 1].band),
            ls.len() as int,
        );
    }
}

proof fn lemma_without_own(
    m: Entries<SeenView>,
    ls: Seq<Seq<char>>,
    n: int,
    i: int,
    mac: Seq<char>,
)
    requires
        ordered(m),
        0 <= n <= ls.len(),
        0 <= i < ls.len(),
        own_mac(ls[i]) == Some(mac),
    ensures
        ordered(without_own(m, ls, n)),
        i < n ==> lookup(without_own(m, ls, n), mac) is None,
    decreases n,
{
    if n > 0 {
        lemma_without_own(m, ls, n - 1, i, mac);
        if let Some(gone) = own_mac(ls[n - 1]) {
            law_without_then_lookup(without_own(m, ls, n - 1), gone, mac);
        }
    }
}

proof fn lemma_marked_absent(m: Entries<SeenView>, keep: Seq<bool>, mac: Seq<char>)
    requires
        ordered(m),
        lookup(m, mac) is None,
    ensures
        lookup(marked(m, keep, 0), mac) is None,
{
    let r = marked(m, keep, 0);
    lemma_marked(m, keep, 0);
    assert forall|j: int| 0 <= j < r.len() implies (#[trigger] r[j]).0 != mac by {
        let e = r[j];
        assert(kept_from(m, keep, 0, e));
        let k = choose|k: int| 0 <= k < m.len() && keep[k] && #[trigger] m[k] == e;
        if m[k].0 == mac {
            assert forall|q: int| 0 <= q < k implies (#[trigger] m[q]).0 != mac by {
                assert(less(m[q].0, m[k].0));
                lemma_less_total(m[q].0, mac);
            }
            lemma_lookup_at(m, mac, k);
        }
    }
    lemma_lookup_none(r, mac);
}

/// The router is no client of its own: a hardware address that one of its interfaces
/// has is not among those seen.
pub proof fn law_own_interfaces_are_no_clients(
    lease_file: Seq<char>,
    neigh4: Seq<char>,
    neigh6: Seq<char>,
    rs: Seq<Radio>,
    links: Seq<char>,
    nets: Seq<(u32, u32)>,
    i: int,
)
    requires
        0 <= i < line_list(links).len(),
        own_mac(line_list(links)[i]) is Some,
    ensures
        lookup(
            all_seen(lease_file, neigh4, neigh6, rs, links, nets),
            own_mac(line_list(links)[i]).unwrap(),
        ) is None,
{
    let l = line_list(lease_file);
    let n4 = line_list(neigh4);
    let n6 = line_list(neigh6);
    let own = line_list(links);
    let mac = own_mac(own[i]).unwrap();
    let a = leases(Seq::empty(), l, l.len() as int);
    lemma_leases_ordered(Seq::empty(), l, l.len() as int);
    let b4 = neighbours(a, n4, n4.len() as int);
    lemma_neighbours_ordered(a, n4, n4.len() as int);
    let b = neighbours(b4, n6, n6.len() as int);
    lemma_neighbours_ordered(b4, n6, n6.len() as int);
    let c = radios(b, rs, rs.len() as int);
    lemma_radios_ordered(b, rs, rs.len() as int);
    let d = without_own(c, own, own.len() as int);
    lemma_without_own(c, own, own.len() as int, i, mac);
    if nets.len() > 0 {
        lemma_marked_absent(d, inner_marks(nets, d), mac);
    }
}

/// Where the networks of the inside are known, every client that is seen lies there:
/// one with IPv4 addresses has one inside.
pub proof fn law_seen_clients_are_inside(
    nets: Seq<(u32, u32)>,
    m: Entries<SeenView>,
    i: int,
)
    requires
        nets.len() > 0,
        0 <= i < inner_only(nets, m).len(),
    ensures
        any_inside(nets, inner_only(nets, m)[i].1.ipv4),
{
    let keep = inner_marks(nets, m);
    lemma_marked(m, keep, 0);
    let e = inner_only(nets, m)[i];
    assert(kept_from(m, keep, 0, e));
    let k = choose|k: int| 0 <= k < m.len() && keep[k] && #[trigger] m[k] == e;
    assert(keep[k]);
}

} // verus!
