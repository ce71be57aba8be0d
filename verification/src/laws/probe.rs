//! What the probe of ports asks, and what it makes of the answers.

use crate::event::EventView;
use crate::laws::table::law_pieces_of_an_address;
use crate::laws::text::{free_of, law_lines, law_parting_at_the_first};
use crate::names::{
    law_put_then_lookup, law_without_then_lookup, lookup, lookup_or, ordered, without, Entries,
};
use crate::num::dec;
use crate::portprobe::{
    all_open, all_tasks, answered, artifacts, banner_in, closing, control_address, found_at,
    free_address, greeting, header_bit, header_bits, header_of, identity, law_port_list_is_a_set,
    limit, nothing, ports_event, probe_reports, reports, request_text, sorted_banners, sorted_in,
    sorted_ports, times_in, title_of, FoundView, PORTS,
};
use crate::text::{
    contains, first, joined, lemma_find_contains, lemma_find_is, lower, occurs_at, parts, trimmed,
    words,
};
use crate::wire::v4_text;
use vstd::prelude::*;

verus! {

// ---------------------------------------------------------------------------
// What is asked
// ---------------------------------------------------------------------------

/// The ports that are tried.
pub proof fn law_ports_that_are_tried()
    ensures
        PORTS@ == seq![
            22u16, 23, 53, 80, 111, 135, 139, 445, 515, 548, 554, 631, 873, 902, 1883, 2049, 3260,
            3389, 3689, 5000, 5001, 5357, 5555, 5900, 5985, 7547, 8000, 8006, 8007, 8096, 8123,
            9090, 9100, 32400, 443, 8443,
        ],
{
}

/// Every port is tried at every address, and nothing else.
pub proof fn law_every_port_is_tried(ips: Seq<Seq<char>>, n: int, ip: Seq<char>, p: u16)
    requires
        0 <= n <= ips.len(),
    ensures
        all_tasks(ips, n).contains((ip, p)) <==> ips.take(n).contains(ip) && PORTS@.contains(p),
        all_tasks(ips, n).len() == 36 * n,
    decreases n,
{
    if n > 0 {
        law_every_port_is_tried(ips, n - 1, ip, p);
        let before = all_tasks(ips, n - 1);
        let more = PORTS@.map_values(|q: u16| (ips[n - 1], q));
        let all = before + more;
        if before.contains((ip, p)) {
            let j = choose|j: int| 0 <= j < before.len() && before[j] == (ip, p);
            assert(all[j] == (ip, p));
            let few = ips.take(n - 1);
            let k = choose|k: int| 0 <= k < few.len() && few[k] == ip;
            assert(ips.take(n)[k] == ip);
        }
        if ips[n - 1] == ip && PORTS@.contains(p) {
            let j = choose|j: int| 0 <= j < PORTS@.len() && PORTS@[j] == p;
            assert(all[before.len() + j] == (ip, p));
        }
        if ips.take(n).contains(ip) && ips[n - 1] != ip {
            let some = ips.take(n);
            let k = choose|k: int| 0 <= k < some.len() && some[k] == ip;
            assert(ips.take(n - 1)[k] == ip);
        }
        if all.contains((ip, p)) && !before.contains((ip, p)) {
            let j = choose|j: int| 0 <= j < all.len() && all[j] == (ip, p);
            if j < before.len() {
                assert(before[j] == (ip, p));
            }
            assert(more[j - before.len()] == (ip, p));
            assert(PORTS@[j - before.len()] == p);
            assert(ips.take(n)[n - 1] == ip);
        }
    }
}

/// The page that is asked for is the first one of the host.
pub proof fn law_first_page_is_asked_for(host: Seq<char>)
    ensures
        request_text(host) == "GET / HTTP/1.1\r\nHost: "@ + host
            + "\r\nConnection: close\r\nAccept: */*\r\n\r\n"@,
{
}

proof fn lemma_free(ips: Seq<Seq<char>>, o: Seq<u8>, last: int, k: int)
    requires
        248 <= k <= last <= 253,
        k >= 249 ==> !ips.contains(v4_text(o[0], o[1], o[2], k as u8)),
        forall|j: int|
            k < j <= last ==> ips.contains(#[trigger] v4_text(o[0], o[1], o[2], j as u8)),
    ensures
        k >= 249 ==> free_address(ips, o, last) == Some(v4_text(o[0], o[1], o[2], k as u8)),
        k == 248 ==> free_address(ips, o, last) is None,
    decreases last,
{
    if k < last {
        assert(ips.contains(v4_text(o[0], o[1], o[2], last as u8)));
        lemma_free(ips, o, last - 1, k);
    }
}

/// The control is the highest address that no target has, of five at the end of the net of
/// the first one.
pub proof fn law_control_is_a_free_address(
    ips: Seq<Seq<char>>,
    a: u8,
    b: u8,
    c: u8,
    d: u8,
    k: int,
)
    requires
        ips.len() > 0,
        ips[0] == v4_text(a, b, c, d),
        248 <= k <= 253,
        k >= 249 ==> !ips.contains(v4_text(a, b, c, k as u8)),
        forall|j: int| k < j <= 253 ==> ips.contains(#[trigger] v4_text(a, b, c, j as u8)),
    ensures
        k >= 249 ==> control_address(ips) == Some(v4_text(a, b, c, k as u8)),
        k == 248 ==> control_address(ips) is None,
{
    law_pieces_of_an_address(a, b, c, d);
    let o = seq![a, b, c, d];
    assert forall|j: int| k < j <= 253 implies ips.contains(
        #[trigger] v4_text(o[0], o[1], o[2], j as u8),
    ) by {
        assert(ips.contains(v4_text(a, b, c, j as u8)));
    }
    lemma_free(ips, o, 253, k);
}

// ---------------------------------------------------------------------------
// What is answered
// ---------------------------------------------------------------------------

/// A greeting is its first line, without the space around it, up to 120 characters.
pub proof fn law_greeting_is_the_first_line(a: Seq<char>, b: Seq<char>)
    requires
        free_of(a, '\n'),
        a.len() == 0 || a.last() != '\r',
    ensures
        greeting(a + seq!['\n'] + b) == first(trimmed(a), 120),
        a.len() > 0 ==> greeting(a) == first(trimmed(a), 120),
        greeting(Seq::empty()).len() == 0,
{
    law_lines(a, b);
}

/// Three headers tell who is there: the server, what it asks a login for, and where it sends
/// on to, each up to sixty characters; others, and empty ones, tell nothing.
pub proof fn law_telling_headers(k: Seq<char>, v: Seq<char>)
    requires
        free_of(k, ':'),
    ensures
        ({
            let bit = header_bit(k + seq![':'] + v);
            let key = lower(trimmed(k));
            let val = first(trimmed(v), 60);
            &&& trimmed(v).len() == 0 ==> bit is None
            &&& trimmed(v).len() > 0 && key == "server"@ ==> bit == Some(val)
            &&& trimmed(v).len() > 0 && key == "www-authenticate"@ ==> bit == Some(
                "realm="@ + val,
            )
            &&& trimmed(v).len() > 0 && key == "location"@ ==> bit == Some("->"@ + val)
            &&& key != "server"@ && key != "www-authenticate"@ && key != "location"@ ==> bit is None
        }),
        header_bit(k) is None,
{
    reveal_strlit("server");
    reveal_strlit("location");
    reveal_strlit("www-authenticate");
    assert("server"@.len() == 6 && "location"@.len() == 8 && "www-authenticate"@.len() == 16);
    law_parting_at_the_first(k, ':', v);
}

proof fn lemma_bits(a: Seq<Seq<char>>, b: Seq<Seq<char>>, n: int)
    requires
        n <= a.len(),
        n <= b.len(),
        forall|i: int| 0 <= i < n ==> #[trigger] a[i] == b[i],
    ensures
        header_bits(a, n) == header_bits(b, n),
    decreases n,
{
    if n > 0 {
        assert(a[n - 1] == b[n - 1]);
        lemma_bits(a, b, n - 1);
    }
}

/// What the headers tell stands in their order.
pub proof fn law_headers_in_their_order(ls: Seq<Seq<char>>, line: Seq<char>)
    ensures
        header_bits(Seq::empty(), 0).len() == 0,
        header_bits(ls.push(line), ls.len() as int + 1) == match header_bit(line) {
            Some(b) => header_bits(ls, ls.len() as int).push(b),
            None => header_bits(ls, ls.len() as int),
        },
{
    lemma_bits(ls, ls.push(line), ls.len() as int);
    assert(ls.push(line)[ls.len() as int] == line);
}

/// The headers end at the first empty line.
pub proof fn law_headers_end_at_an_empty_line(t: Seq<char>, i: int)
    ensures
        0 <= i && occurs_at(t, "\r\n\r\n"@, i) && (forall|h: int|
            0 <= h < i ==> !occurs_at(t, "\r\n\r\n"@, h)) ==> header_of(t) == t.take(i),
        !contains(t, "\r\n\r\n"@) ==> header_of(t) == t,
{
    if 0 <= i && occurs_at(t, "\r\n\r\n"@, i) && (forall|h: int|
        0 <= h < i ==> !occurs_at(t, "\r\n\r\n"@, h)) {
        lemma_find_is(t, "\r\n\r\n"@, i);
    }
    lemma_find_contains(t, "\r\n\r\n"@);
}

/// The title of a page is what stands between the end of its first opening mark and the next
/// closing one, in whatever letters they are written, with single spaces.
pub proof fn law_title_of_a_page(
    t: Seq<char>,
    a: int,
    gt: int,
    end: int,
    mark: Seq<char>,
    rest: Seq<char>,
)
    requires
        mark == lower(t).skip(a),
        rest == lower(t).skip(a + gt + 1),
        occurs_at(lower(t), "<title"@, a),
        forall|h: int| 0 <= h < a ==> !occurs_at(lower(t), "<title"@, h),
        occurs_at(mark, ">"@, gt),
        forall|h: int| 0 <= h < gt ==> !occurs_at(mark, ">"@, h),
        occurs_at(rest, "</title"@, end),
        forall|h: int| 0 <= h < end ==> !occurs_at(rest, "</title"@, h),
    ensures
        title_of(t) == Some(joined(words(t.subrange(a + gt + 1, a + gt + 1 + end)), " "@)),
{
    lemma_find_is(lower(t), "<title"@, a);
    lemma_find_is(mark, ">"@, gt);
    lemma_find_is(rest, "</title"@, end);
}

/// A page without an opening mark has no title.
pub proof fn law_page_without_a_title(t: Seq<char>)
    ensures
        !contains(lower(t), "<title"@) ==> title_of(t) is None,
{
    lemma_find_contains(lower(t), "<title"@);
}

/// What a page tells is what its headers tell and its title, up to eighty characters, all of
/// it up to 200.
pub proof fn law_what_a_page_tells(t: Seq<char>, title: Seq<char>)
    ensures
        ({
            let ls = parts(header_of(t), "\r\n"@);
            let bits = header_bits(ls, ls.len() as int);
            &&& title_of(t) == Some(title) && title.len() > 0 ==> identity(t) == first(
                joined(bits.push("title="@ + first(title, 80)), " | "@),
                200,
            )
            &&& title_of(t) is None || title_of(t) == Some(Seq::<char>::empty()) ==> identity(t)
                == first(joined(bits, " | "@), 200)
        }),
{
}

/// An answer is noted at its address: the port behind those before, and what it said if it
/// said anything. Nothing changes elsewhere.
pub proof fn law_answer_is_noted(
    m: Entries<FoundView>,
    ip: Seq<char>,
    port: u16,
    banner: Seq<char>,
    other: Seq<char>,
)
    requires
        ordered(m),
        other != ip,
    ensures
        ({
            let was = lookup_or(m, ip, nothing());
            let now = lookup_or(answered(m, ip, port, banner), ip, nothing());
            &&& now.open == was.open.push(port)
            &&& banner.len() > 0 ==> now.banners == was.banners.push((port, banner))
            &&& banner.len() == 0 ==> now.banners == was.banners
            &&& lookup(answered(m, ip, port, banner), other) == lookup(m, other)
            &&& ordered(answered(m, ip, port, banner))
            &&& nothing().open.len() == 0 && nothing().banners.len() == 0
        }),
{
    let f = lookup_or(m, ip, nothing());
    law_put_then_lookup(
        m,
        ip,
        FoundView {
            open: f.open.push(port),
            banners: if banner.len() > 0 {
                f.banners.push((port, banner))
            } else {
                f.banners
            },
        },
        other,
    );
}

// ---------------------------------------------------------------------------
// What is concluded
// ---------------------------------------------------------------------------

proof fn lemma_sorted_in(v: Seq<u16>, p: u16)
    requires
        forall|i: int, j: int| 0 <= i < j < v.len() ==> (#[trigger] v[i]) <= (#[trigger] v[j]),
    ensures
        ({
            let s = sorted_in(v, p);
            &&& s.to_multiset() == v.to_multiset().insert(p)
            &&& s.len() == v.len() + 1
            &&& forall|i: int, j: int|
                0 <= i < j < s.len() ==> (#[trigger] s[i]) <= (#[trigger] s[j])
            &&& forall|i: int| 0 <= i < s.len() ==> #[trigger] s[i] <= p || v.contains(s[i])
        }),
    decreases v.len(),
{
    broadcast use vstd::seq_lib::group_to_multiset_ensures;

    let s = sorted_in(v, p);
    if v.len() == 0 || v.last() <= p {
    } else {
        let less = v.drop_last();
        lemma_sorted_in(less, p);
        let r = sorted_in(less, p);
        assert(v =~= less.push(v.last()));
        assert(s.to_multiset() =~= v.to_multiset().insert(p));
        assert forall|i: int| 0 <= i < r.len() implies #[trigger] r[i] <= v.last() by {
            if r[i] > p {
                let k = choose|k: int| 0 <= k < less.len() && less[k] == r[i];
                assert(v[k] <= v[v.len() - 1]);
            }
        }
        assert forall|i: int| 0 <= i < s.len() implies #[trigger] s[i] <= p || v.contains(s[i]) by {
            if i < r.len() {
                assert(s[i] == r[i]);
                if r[i] > p {
                    let k = choose|k: int| 0 <= k < less.len() && less[k] == r[i];
                    assert(v[k] == s[i]);
                }
            } else {
                assert(v[v.len() - 1] == s[i]);
            }
        }
    }
}

/// The ports that are reported are those given, each as often as it was, in rising order.
pub proof fn law_reported_ports_are_sorted(v: Seq<u16>, n: int)
    requires
        0 <= n <= v.len(),
    ensures
        sorted_ports(v, n).to_multiset() == v.take(n).to_multiset(),
        forall|i: int, j: int|
            0 <= i < j < sorted_ports(v, n).len() ==> (#[trigger] sorted_ports(v, n)[i])
                <= (#[trigger] sorted_ports(v, n)[j]),
    decreases n,
{
    broadcast use vstd::seq_lib::group_to_multiset_ensures;

    if n > 0 {
        law_reported_ports_are_sorted(v, n - 1);
        lemma_sorted_in(sorted_ports(v, n - 1), v[n - 1]);
        assert(v.take(n) =~= v.take(n - 1).push(v[n - 1]));
    } else {
        assert(v.take(0) =~= Seq::<u16>::empty());
    }
}

proof fn lemma_banner_in(v: Seq<(u16, Seq<char>)>, b: (u16, Seq<char>))
    requires
        forall|i: int, j: int| 0 <= i < j < v.len() ==> (#[trigger] v[i]).0 <= (#[trigger] v[j]).0,
    ensures
        ({
            let s = banner_in(v, b);
            &&& s.to_multiset() == v.to_multiset().insert(b)
            &&& s.len() == v.len() + 1
            &&& forall|i: int, j: int|
                0 <= i < j < s.len() ==> (#[trigger] s[i]).0 <= (#[trigger] s[j]).0
            &&& forall|i: int| 0 <= i < s.len() ==> (#[trigger] s[i]).0 <= b.0 || v.contains(s[i])
        }),
    decreases v.len(),
{
    broadcast use vstd::seq_lib::group_to_multiset_ensures;

    let s = banner_in(v, b);
    if v.len() == 0 || v.last().0 <= b.0 {
    } else {
        let less = v.drop_last();
        lemma_banner_in(less, b);
        let r = banner_in(less, b);
        assert(v =~= less.push(v.last()));
        assert(s.to_multiset() =~= v.to_multiset().insert(b));
        assert forall|i: int| 0 <= i < r.len() implies (#[trigger] r[i]).0 <= v.last().0 by {
            if r[i].0 > b.0 {
                let k = choose|k: int| 0 <= k < less.len() && less[k] == r[i];
                assert(v[k].0 <= v[v.len() - 1].0);
            }
        }
        assert forall|i: int| 0 <= i < s.len() implies (#[trigger] s[i]).0 <= b.0 || v.contains(
            s[i],
        ) by {
            if i < r.len() {
                assert(s[i] == r[i]);
                if r[i].0 > b.0 {
                    let k = choose|k: int| 0 <= k < less.len() && less[k] == r[i];
                    assert(v[k] == s[i]);
                }
            } else {
                assert(v[v.len() - 1] == s[i]);
            }
        }
    }
}

/// What was said is reported in the order of the ports that said it, all of it.
pub proof fn law_banners_are_sorted(v: Seq<(u16, Seq<char>)>, n: int)
    requires
        0 <= n <= v.len(),
    ensures
        sorted_banners(v, n).to_multiset() == v.take(n).to_multiset(),
        forall|i: int, j: int|
            0 <= i < j < sorted_banners(v, n).len() ==> (#[trigger] sorted_banners(v, n)[i]).0
                <= (#[trigger] sorted_banners(v, n)[j]).0,
    decreases n,
{
    broadcast use vstd::seq_lib::group_to_multiset_ensures;

    if n > 0 {
        law_banners_are_sorted(v, n - 1);
        lemma_banner_in(sorted_banners(v, n - 1), v[n - 1]);
        assert(v.take(n) =~= v.take(n - 1).push(v[n - 1]));
    } else {
        assert(v.take(0) =~= Seq::<(u16, Seq<char>)>::empty());
    }
}

/// A report on an address lists its open ports but for those of the network itself, and what
/// was said there.
pub proof fn law_report_on_an_address(ip: Seq<char>, f: FoundView, own: Seq<u16>, p: u16)
    ensures
        ports_event(ip, f, own) matches EventView::Ports { ip: at, open, banner } && at == ip && (
        open.contains(p) <==> f.open.contains(p) && !own.contains(p)) && banner == joined(
            sorted_banners(f.banners, f.banners.len() as int).map_values(
                |b: (u16, Seq<char>)| b.1,
            ),
            " | "@,
        ),
{
    broadcast use vstd::seq_lib::group_to_multiset_ensures;

    let keep = |q: u16| !own.contains(q);
    let open = f.open.filter(keep);
    law_reported_ports_are_sorted(open, open.len() as int);
    assert(open.take(open.len() as int) =~= open);
    let s = sorted_ports(open, open.len() as int);
    assert(s.contains(p) <==> open.contains(p)) by {
        assert(s.contains(p) <==> s.to_multiset().count(p) > 0);
        assert(open.contains(p) <==> open.to_multiset().count(p) > 0);
    }
    lemma_filtered(f.open, keep, p);
}

proof fn lemma_filtered(v: Seq<u16>, keep: spec_fn(u16) -> bool, p: u16)
    ensures
        v.filter(keep).contains(p) <==> v.contains(p) && keep(p),
    decreases v.len(),
{
    reveal(Seq::filter);
    if v.len() > 0 {
        let less = v.drop_last();
        lemma_filtered(less, keep, p);
        let f = less.filter(keep);
        let g = v.filter(keep);
        if less.contains(p) {
            let j = choose|j: int| 0 <= j < less.len() && less[j] == p;
            assert(v[j] == p);
        }
        if v.contains(p) && !less.contains(p) {
            let j = choose|j: int| 0 <= j < v.len() && v[j] == p;
            if j < less.len() {
                assert(less[j] == p);
            }
            assert(v.last() == p);
        }
        if v.last() == p {
            assert(v[v.len() - 1] == p);
        }
        if keep(v.last()) {
            assert(g == f.push(v.last()));
            assert(g[f.len() as int] == v.last());
            if f.contains(p) {
                let j = choose|j: int| 0 <= j < f.len() && f[j] == p;
                assert(g[j] == p);
            }
            if g.contains(p) && v.last() != p {
                let j = choose|j: int| 0 <= j < g.len() && g[j] == p;
                assert(f[j] == p);
            }
        }
    }
}

/// How often a port is open is how often it was found so.
pub proof fn law_times_are_counted(v: Seq<u16>, p: u16)
    ensures
        times_in(v, p) == v.filter(|q: u16| q == p).len(),
    decreases v.len(),
{
    reveal(Seq::filter);
    if v.len() > 0 {
        law_times_are_counted(v.drop_last(), p);
    }
}

/// Ports that the control has open are of the network itself. If it has none, those are that
/// more than seven in ten addresses have open, and more than four, of at least five; the
/// control itself does not count.
pub proof fn law_ports_of_the_network(
    m: Entries<FoundView>,
    control: Option<Seq<char>>,
    n: nat,
    p: u16,
)
    ensures
        ({
            let own = match control {
                Some(c) => lookup_or(m, c, nothing()).open,
                None => Seq::empty(),
            };
            let rest = match control {
                Some(c) => without(m, c),
                None => m,
            };
            let all = all_open(rest, rest.len() as int);
            let times = all.filter(|q: u16| q == p).len();
            &&& own.len() > 0 ==> (artifacts(m, control, n).contains(p) <==> own.contains(p))
            &&& own.len() == 0 && n < 5 ==> artifacts(m, control, n).len() == 0
            &&& own.len() == 0 && n >= 5 ==> (artifacts(m, control, n).contains(p) <==> times > 4
                && times > n * 7 / 10)
        }),
{
    let own = match control {
        Some(c) => lookup_or(m, c, nothing()).open,
        None => Seq::empty(),
    };
    let rest = match control {
        Some(c) => without(m, c),
        None => m,
    };
    law_port_list_is_a_set(own, own.len() as int);
    assert(own.take(own.len() as int) =~= own);
    let all = all_open(rest, rest.len() as int);
    let wanted = |q: u16| times_in(all, q) > limit(n);
    let many = all.filter(wanted);
    law_port_list_is_a_set(many, many.len() as int);
    assert(many.take(many.len() as int) =~= many);
    lemma_filtered(all, wanted, p);
    law_times_are_counted(all, p);
    if times_in(all, p) > 0 {
        lemma_times(all, p);
    }
}

proof fn lemma_times(v: Seq<u16>, p: u16)
    requires
        times_in(v, p) > 0,
    ensures
        v.contains(p),
    decreases v.len(),
{
    if v.last() == p {
        assert(v[v.len() - 1] == p);
    } else {
        let less = v.drop_last();
        lemma_times(less, p);
        let j = choose|j: int| 0 <= j < less.len() && less[j] == p;
        assert(v[j] == p);
    }
}

/// All open ports are those of all addresses.
pub proof fn law_all_open_ports(m: Entries<FoundView>, n: int, p: u16)
    requires
        0 <= n <= m.len(),
    ensures
        all_open(m, n).contains(p) <==> exists|i: int|
            0 <= i < n && (#[trigger] m[i]).1.open.contains(p),
    decreases n,
{
    if n > 0 {
        law_all_open_ports(m, n - 1, p);
        let before = all_open(m, n - 1);
        let more = m[n - 1].1.open;
        let all = before + more;
        if before.contains(p) {
            let j = choose|j: int| 0 <= j < before.len() && before[j] == p;
            assert(all[j] == p);
        }
        if more.contains(p) {
            let j = choose|j: int| 0 <= j < more.len() && more[j] == p;
            assert(all[before.len() + j] == p);
        }
        if all.contains(p) {
            let j = choose|j: int| 0 <= j < all.len() && all[j] == p;
            if j < before.len() {
                assert(before[j] == p);
            } else {
                assert(more[j - before.len()] == p);
            }
        }
    }
}

proof fn lemma_still_found(m: Entries<FoundView>, ips: Seq<Seq<char>>, n: int, ip: Seq<char>)
    requires
        ordered(m),
        0 <= n <= ips.len(),
        forall|j: int| 0 <= j < n ==> #[trigger] ips[j] != ip,
    ensures
        ordered(found_at(m, ips, n)),
        lookup(found_at(m, ips, n), ip) == lookup(m, ip),
    decreases n,
{
    if n > 0 {
        lemma_still_found(m, ips, n - 1, ip);
        assert(ips[n - 1] != ip);
        law_without_then_lookup(found_at(m, ips, n - 1), ips[n - 1], ip);
    }
}

proof fn lemma_reports(
    m: Entries<FoundView>,
    ips: Seq<Seq<char>>,
    own: Seq<u16>,
    n: int,
    i: int,
)
    requires
        0 <= i < n <= ips.len(),
    ensures
        reports(m, ips, own, n).len() == n,
        reports(m, ips, own, n)[i] == ports_event(
            ips[i],
            lookup_or(found_at(m, ips, i), ips[i], nothing()),
            own,
        ),
    decreases n,
{
    if n > 1 {
        lemma_reports(m, ips, own, n - 1, if i < n - 1 {
            i
        } else {
            0
        });
    } else {
        assert(reports(m, ips, own, 0).len() == 0);
    }
}

/// The probe reports on each address what was found there, and closes with what it did.
pub proof fn law_probe_reports_what_was_found(
    m: Entries<FoundView>,
    ips: Seq<Seq<char>>,
    control: Option<Seq<char>>,
    i: int,
)
    requires
        ordered(m),
        0 <= i < ips.len(),
        forall|j: int| 0 <= j < i ==> #[trigger] ips[j] != ips[i],
        control != Some(ips[i]),
    ensures
        ({
            let own = artifacts(m, control, ips.len());
            let told = probe_reports(m, ips, control);
            &&& told.len() == ips.len() + 1
            &&& told[i] == ports_event(ips[i], lookup_or(m, ips[i], nothing()), own)
            &&& told.last() == closing(ips.len(), own)
        }),
{
    let own = artifacts(m, control, ips.len());
    let rest = match control {
        Some(c) => without(m, c),
        None => m,
    };
    if let Some(c) = control {
        law_without_then_lookup(m, c, ips[i]);
    }
    lemma_still_found(rest, ips, i, ips[i]);
    lemma_reports(rest, ips, own, ips.len() as int, i);
}

/// The closing event tells the number of addresses, and the ports of the network itself if
/// there are any.
pub proof fn law_probe_closes(n: nat, own: Seq<u16>)
    ensures
        own.len() == 0 ==> closing(n, own) == (EventView::SourceInfo {
            kind: "ports"@,
            state: "done"@,
            info: dec(n),
        }),
        own.len() > 0 ==> closing(n, own) == (EventView::SourceInfo {
            kind: "ports"@,
            state: "done_redirected"@,
            info: dec(n) + seq![';'] + joined(own.map_values(|p: u16| dec(p as nat)), ","@),
        }),
{
}

} // verus!
