//! What is read from logs, tables, messages of the system, and settings.

use crate::config::{configured, source_of, CfgView};
use crate::conns::{first_value, flow_in, no_peer, peer_in, FlowView};
use crate::dhcpev::{depth, exchange, exchange_in, split_step};
use crate::dnswatch::{
    behind_mark, consistent, dnsmasq_query, last_place, law_requests_stay_consistent, like_address,
    own_address, place_starting, qtype_normal, query_event, remembered, request_id, sender_in,
    singbox_step, LookupView, SingboxView,
};
use crate::event::EventView;
use crate::json::{member_of, member_text, Tree};
use crate::laws::rules::{leads, lemma_leads};
use crate::laws::text::{
    free_of, law_beginnings_are_cut, law_parting_at_the_first, law_parting_at_the_last,
    law_trimming,
};
use crate::names::{law_put_then_lookup, lookup, Entries};
use crate::num::{dec, law_number_roundtrip, numeral, unsigned};
use crate::oui::{is_entry, list_entry};
use crate::tail::{half_line, kept_half, observed, whole_lines, TailView};
use crate::text::{
    all_in, back_trimmed, before, contains, first_word, in_class, lemma_lead_is, lemma_trail_is,
    lower, occurs_at, split_at_text, starts, trimmed, upper, white, without_prefixes, words, Class,
};
use crate::util::{domain_normal, mac_normal, setting_bool, setting_num, setting_text};
use vstd::prelude::*;
use vstd::utf8::encode_utf8;

verus! {

// ---------------------------------------------------------------------------
// Logs of queries
// ---------------------------------------------------------------------------

/// Whether a text is spelled as addresses are.
pub open spec fn address_like(s: Seq<char>) -> bool {
    s.len() > 0 && forall|i: int|
        0 <= i < s.len() ==> {
            let c = #[trigger] s[i];
            '0' <= c <= '9' || 'a' <= c <= 'f' || 'A' <= c <= 'F' || c == '.' || c == ':'
        }
}

proof fn lemma_address_like(s: Seq<char>)
    ensures
        like_address(s) <==> address_like(s),
{
    if like_address(s) {
        assert forall|i: int| 0 <= i < s.len() implies {
            let c = #[trigger] s[i];
            '0' <= c <= '9' || 'a' <= c <= 'f' || 'A' <= c <= 'F' || c == '.' || c == ':'
        } by {
            assert(in_class(Class::Address, s[i]));
        }
    }
    if address_like(s) {
        assert forall|i: int| 0 <= i < s.len() implies in_class(
            Class::Address,
            #[trigger] s[i],
        ) by {}
    }
}

proof fn lemma_place(ws: Seq<Seq<char>>, p: Seq<char>, i: int, q: int)
    requires
        0 <= i <= q < ws.len(),
        starts(ws[q], p),
        forall|j: int| i <= j < q ==> !starts(#[trigger] ws[j], p),
    ensures
        place_starting(ws, p, i) == Some(q),
    decreases q - i,
{
    if i < q {
        assert(!starts(ws[i], p));
        lemma_place(ws, p, i + 1, q);
    }
}

proof fn lemma_no_place(ws: Seq<Seq<char>>, p: Seq<char>, i: int)
    requires
        0 <= i <= ws.len(),
        forall|j: int| i <= j < ws.len() ==> !starts(#[trigger] ws[j], p),
    ensures
        place_starting(ws, p, i) is None,
    decreases ws.len() - i,
{
    if i < ws.len() {
        assert(!starts(ws[i], p));
        lemma_no_place(ws, p, i + 1);
    }
}

proof fn lemma_last(ws: Seq<Seq<char>>, w: Seq<char>, i: int, at: int)
    requires
        0 <= i <= at < ws.len(),
        ws[at] == w,
        forall|j: int| at < j < ws.len() ==> #[trigger] ws[j] != w,
    ensures
        last_place(ws, w, i) == Some(at),
    decreases ws.len() - i,
{
    if i < at {
        lemma_last(ws, w, i + 1, at);
    } else {
        lemma_no_last(ws, w, i + 1);
    }
}

proof fn lemma_no_last(ws: Seq<Seq<char>>, w: Seq<char>, i: int)
    requires
        0 <= i,
        forall|j: int| i <= j < ws.len() ==> #[trigger] ws[j] != w,
    ensures
        last_place(ws, w, i) is None,
    decreases ws.len() - i,
{
    if i < ws.len() {
        lemma_no_last(ws, w, i + 1);
    }
}

/// The query type in the word that begins a query.
pub open spec fn query_word(w: Seq<char>, ty: Seq<char>) -> bool {
    &&& w == "query["@ + ty + seq![']']
    &&& !starts(ty + seq![']'], "query["@)
    &&& ty.len() > 0 ==> ty.last() != ']'
}

proof fn lemma_query_word(w: Seq<char>, ty: Seq<char>)
    requires
        query_word(w, ty),
    ensures
        back_trimmed(without_prefixes(w, "query["@), Class::Is(']')) == ty,
        starts(w, "query["@),
{
    reveal_strlit("query[");
    let rest = ty + seq![']'];
    assert(w =~= "query["@ + rest);
    law_beginnings_are_cut(rest, "query["@);
    lemma_leads(w, "query["@);
    assert("query["@ + rest == w);
    let k = Class::Is(']');
    assert forall|i: int| rest.len() - 1 <= i < rest.len() implies in_class(
        k,
        #[trigger] rest[i],
    ) by {}
    if ty.len() > 0 {
        assert(rest[rest.len() - 2] == ty.last());
    }
    lemma_trail_is(rest, k, 1);
    assert(rest.take(rest.len() - 1) =~= ty);
}

/// A line that logs a query tells the name and the query type, the source port behind the
/// slash in front of it, and who asked: behind the last `from`, else in front of that slash.
/// What does not look like an address asked for nothing.
pub proof fn law_logged_query_is_read(
    line: Seq<char>,
    q: int,
    ty: Seq<char>,
    from: int,
    h: Seq<char>,
    p: Seq<char>,
)
    requires
        0 <= q,
        q + 1 < words(line).len(),
        query_word(words(line)[q], ty),
        forall|j: int| 0 <= j < q ==> !leads(#[trigger] words(line)[j], "query["@),
        q > 0 ==> words(line)[q - 1] == h + seq!['/'] + p && free_of(p, '/'),
    ensures
        ({
            let ws = words(line);
            let name = domain_normal(ws[q + 1]);
            let port = if q == 0 {
                0u16
            } else {
                match unsigned(p, 10, 65535) {
                    Some(n) => n as u16,
                    None => 0,
                }
            };
            let told = q + 2 <= from && from + 1 < ws.len() && ws[from] == "from"@ && (forall|
                j: int,
            |
                from < j < ws.len() ==> #[trigger] ws[j] != "from"@);
            let untold = forall|j: int| q + 2 <= j < ws.len() ==> #[trigger] ws[j] != "from"@;
            &&& name.len() == 0 ==> dnsmasq_query(line) is None
            &&& name.len() > 0 && told && address_like(ws[from + 1]) ==> dnsmasq_query(line)
                == Some(
                LookupView {
                    ip: ws[from + 1],
                    domain: name,
                    qtype: qtype_normal(ty),
                    sport: port,
                },
            )
            &&& told && !address_like(ws[from + 1]) ==> dnsmasq_query(line) is None
            &&& name.len() > 0 && untold && q > 0 && address_like(h) ==> dnsmasq_query(line)
                == Some(LookupView { ip: h, domain: name, qtype: qtype_normal(ty), sport: port })
            &&& untold && (q == 0 || !address_like(h)) ==> dnsmasq_query(line) is None
        }),
{
    let ws = words(line);
    lemma_query_word(ws[q], ty);
    assert forall|j: int| 0 <= j < q implies !starts(#[trigger] ws[j], "query["@) by {
        lemma_leads(ws[j], "query["@);
    }
    lemma_place(ws, "query["@, 0, q);
    if q > 0 {
        law_parting_at_the_last(h, '/', p);
    }
    lemma_address_like(h);
    if q + 2 <= from && from + 1 < ws.len() && ws[from] == "from"@ && (forall|j: int|
        from < j < ws.len() ==> #[trigger] ws[j] != "from"@) {
        lemma_last(ws, "from"@, q + 2, from);
        lemma_address_like(ws[from + 1]);
    }
    if forall|j: int| q + 2 <= j < ws.len() ==> #[trigger] ws[j] != "from"@ {
        lemma_no_last(ws, "from"@, q + 2);
    }
}

/// A line without a query tells none.
pub proof fn law_other_lines_tell_no_query(line: Seq<char>)
    requires
        forall|j: int| 0 <= j < words(line).len() ==> !leads(#[trigger] words(line)[j], "query["@),
    ensures
        dnsmasq_query(line) is None,
{
    let ws = words(line);
    assert forall|j: int| 0 <= j < ws.len() implies !starts(#[trigger] ws[j], "query["@) by {
        lemma_leads(ws[j], "query["@);
    }
    lemma_no_place(ws, "query["@, 0);
}

/// The query types that are told apart are twelve, in capital letters; all others are one.
pub proof fn law_query_types_in_capitals(t: Seq<char>)
    ensures
        ({
            let u = upper(trimmed(t));
            let known = u == "A"@ || u == "AAAA"@ || u == "HTTPS"@ || u == "SVCB"@ || u == "PTR"@
                || u == "SRV"@ || u == "TXT"@ || u == "CNAME"@ || u == "NS"@ || u == "MX"@ || u
                == "SOA"@ || u == "ANY"@;
            &&& known ==> qtype_normal(t) == u
            &&& !known ==> qtype_normal(t) == "OTHER"@
        }),
{
}

/// A query is reported with who asked, for what and from which port, unless the machine
/// itself asked: its own addresses are `::1` and those that begin with `127.`.
pub proof fn law_query_is_reported(q: LookupView)
    ensures
        own_address(q.ip) <==> q.ip == "::1"@ || leads(q.ip, "127."@),
        own_address(q.ip) ==> query_event(Some(q)) is None,
        !own_address(q.ip) ==> query_event(Some(q)) == Some(
            EventView::Dns { ip: q.ip, domain: q.domain, qtype: q.qtype, sport: q.sport },
        ),
        query_event(None) is None,
{
    lemma_leads(q.ip, "127."@);
}

/// The mark of a request is the number that begins what stands in its first brackets.
pub proof fn law_request_mark_is_read(a: Seq<char>, inner: Seq<char>, b: Seq<char>)
    requires
        free_of(a, '['),
        free_of(inner, ']'),
    ensures
        ({
            let w = first_word(inner);
            let number = w.len() > 0 && forall|i: int| 0 <= i < w.len() ==> '0' <= #[trigger] w[i]
                <= '9';
            &&& number ==> request_id(a + seq!['['] + (inner + seq![']'] + b)) == Some(w)
            &&& !number ==> request_id(a + seq!['['] + (inner + seq![']'] + b)) is None
        }),
        request_id(a) is None,
{
    law_parting_at_the_first(a, '[', inner + seq![']'] + b);
    law_parting_at_the_first(inner, ']', b);
    let w = first_word(inner);
    if forall|i: int| 0 <= i < w.len() ==> '0' <= #[trigger] w[i] <= '9' {
        assert forall|i: int| 0 <= i < w.len() implies in_class(Class::Digit, #[trigger] w[i]) by {}
        assert(all_in(w, Class::Digit));
    } else {
        let i = choose|i: int| 0 <= i < w.len() && !('0' <= #[trigger] w[i] <= '9');
        assert(!in_class(Class::Digit, w[i]));
    }
}

/// The sender of a request stands behind the first ` from `: an address and a port, between
/// them a colon, the address in brackets where it has colons itself.
pub proof fn law_sender_is_read(line: Seq<char>, rest: Seq<char>, ip: Seq<char>, port: Seq<char>)
    requires
        split_at_text(line, " from "@) matches Some((_, r)) && r == rest,
        free_of(port, ':'),
        free_of(ip, ']'),
    ensures
        ({
            let n = match unsigned(port, 10, 65535) {
                Some(n) => n as u16,
                None => 0u16,
            };
            &&& first_word(rest) == ip + seq![':'] + port && (ip.len() > 0 ==> ip[0] != '[')
                && address_like(ip) ==> sender_in(line) == Some(Some((ip, n)))
            &&& first_word(rest) == seq!['['] + (ip + seq![']'] + (seq![':'] + port))
                && address_like(ip) ==> sender_in(line) == Some(Some((ip, n)))
            &&& first_word(rest) == ip + seq![':'] + port && ip.len() > 0 && ip[0] != '['
                && !address_like(ip) ==> sender_in(line) == Some(None::<(Seq<char>, u16)>)
        }),
{
    lemma_address_like(ip);
    let w = first_word(rest);
    if w == ip + seq![':'] + port {
        law_parting_at_the_last(ip, ':', port);
    }
    if w == seq!['['] + (ip + seq![']'] + (seq![':'] + port)) {
        assert(w[0] == '[');
        assert(w.skip(1) =~= ip + seq![']'] + (seq![':'] + port));
        law_parting_at_the_first(ip, ']', seq![':'] + port);
        let k = Class::Is(':');
        let t = seq![':'] + port;
        assert forall|i: int| 0 <= i < 1 implies in_class(k, #[trigger] t[i]) by {}
        if port.len() > 0 {
            assert(t[1] == port[0]);
        }
        lemma_lead_is(t, k, 1);
        assert(t.skip(1) =~= port);
    }
}

/// A line that tells no sender is not without meaning: it belongs to an earlier one.
pub proof fn law_line_without_sender(line: Seq<char>)
    ensures
        split_at_text(line, " from "@) is None ==> sender_in(line) == Some(
            None::<(Seq<char>, u16)>,
        ),
{
}

/// The name asked for stands behind one of three marks.
pub proof fn law_marks_of_queries(line: Seq<char>, a: Seq<char>, rest: Seq<char>)
    ensures
        split_at_text(line, " dns: exchange "@) == Some((a, rest)) ==> behind_mark(line) == Some(
            rest,
        ),
        split_at_text(line, " dns: exchange "@) is None && split_at_text(
            line,
            " dns: exchanged "@,
        ) == Some((a, rest)) ==> behind_mark(line) == Some(rest),
        split_at_text(line, " dns: exchange "@) is None && split_at_text(
            line,
            " dns: exchanged "@,
        ) is None && split_at_text(line, " dns: lookup "@) == Some((a, rest)) ==> behind_mark(line)
            == Some(rest),
        split_at_text(line, " dns: exchange "@) is None && split_at_text(
            line,
            " dns: exchanged "@,
        ) is None && split_at_text(line, " dns: lookup "@) is None ==> behind_mark(line) is None,
{
}

/// The sender that one line of a request tells is the one that asked for the name in a later
/// line of the same request, whatever else is remembered.
pub proof fn law_lines_of_a_request_are_joined(
    v: SingboxView,
    one: Seq<char>,
    two: Seq<char>,
    id: Seq<char>,
    who: (Seq<char>, u16),
    rest: Seq<char>,
)
    requires
        consistent(v),
        request_id(one) == Some(id),
        request_id(two) == Some(id),
        sender_in(one) == Some(Some(who)),
        sender_in(two) == Some(None::<(Seq<char>, u16)>),
        behind_mark(two) == Some(rest),
    ensures
        ({
            let name = domain_normal(first_word(rest));
            let r = singbox_step(singbox_step(v, one).0, two).1;
            &&& first_word(rest).len() > 0 && name.len() > 0 ==> r == Some(
                LookupView { ip: who.0, domain: name, qtype: Seq::empty(), sport: who.1 },
            )
            &&& first_word(rest).len() == 0 || name.len() == 0 ==> r is None
            &&& singbox_step(singbox_step(v, one).0, two).0 == singbox_step(v, one).0
        }),
{
    law_requests_stay_consistent(v, id, who);
}

/// A line without the mark of a request changes nothing and tells nothing.
pub proof fn law_line_without_a_mark(v: SingboxView, line: Seq<char>)
    ensures
        request_id(line) is None ==> singbox_step(v, line) == (v, None::<LookupView>),
        behind_mark(line) is None ==> singbox_step(v, line).1 is None,
{
}

/// The sender of a request is remembered, and replaces an earlier one of the same request;
/// of too many requests the oldest is forgotten.
pub proof fn law_senders_are_remembered(
    v: SingboxView,
    id: Seq<char>,
    who: (Seq<char>, u16),
    other: Seq<char>,
)
    requires
        consistent(v),
        other != id,
    ensures
        lookup(remembered(v, id, who).map, id) == Some(who),
        lookup(v.map, id) is Some || v.ids.len() < 4096 ==> lookup(
            remembered(v, id, who).map,
            other,
        ) == lookup(v.map, other),
        lookup(v.map, id) is None && v.ids.len() == 4096 ==> lookup(
            remembered(v, id, who).map,
            v.ids[0],
        ) is None && (other != v.ids[0] ==> lookup(remembered(v, id, who).map, other) == lookup(
            v.map,
            other,
        )),
{
    law_requests_stay_consistent(v, id, who);
    law_put_then_lookup(v.map, id, who, other);
    law_put_then_lookup(v.map, id, who, id);
    if lookup(v.map, id) is None && v.ids.len() == 4096 {
        assert(v.ids.push(id)[0] == v.ids[0]);
        let m = crate::names::put(v.map, id, who);
        crate::names::law_without_then_lookup(m, v.ids[0], v.ids[0]);
        crate::names::law_without_then_lookup(m, v.ids[0], other);
    }
}

// ---------------------------------------------------------------------------
// Files that grow
// ---------------------------------------------------------------------------

/// The lines read from a file are the complete ones, without the space at their end; what
/// stands behind the last line feed waits for the rest of its line.
pub proof fn law_complete_lines_are_read(a: Seq<char>, b: Seq<char>)
    requires
        free_of(a, '\n'),
    ensures
        whole_lines(a + seq!['\n'] + b) == seq![back_trimmed(a, Class::White)] + whole_lines(b),
        half_line(a + seq!['\n'] + b) == half_line(b),
        whole_lines(a).len() == 0,
        half_line(a) == a,
{
    law_parting_at_the_first(a, '\n', b);
}

/// A file that is another one, or shorter than what was read of it, is read from its start;
/// any other from where reading stopped.
pub proof fn law_replaced_file_is_read_anew(v: TailView, len: u64, ino: u64)
    ensures
        ino == v.ino && len >= v.pos ==> observed(v, len, ino) == v,
        ino != v.ino || len < v.pos ==> observed(v, len, ino).pos == 0 && observed(
            v,
            len,
            ino,
        ).ino == ino && observed(v, len, ino).buf.len() == 0,
{
}

/// A line that gets longer than 8192 bytes is given up.
pub proof fn law_endless_line_is_given_up(t: Seq<char>)
    ensures
        encode_utf8(t).len() <= 8192 ==> kept_half(t) == t,
        encode_utf8(t).len() > 8192 ==> kept_half(t).len() == 0,
{
}

// ---------------------------------------------------------------------------
// The connection table
// ---------------------------------------------------------------------------

proof fn lemma_first_value(ws: Seq<Seq<char>>, key: Seq<char>, i: int, val: Seq<char>)
    requires
        0 <= i < ws.len(),
        ws[i] == key + val,
        forall|j: int| 0 <= j < i ==> !leads(#[trigger] ws[j], key),
    ensures
        first_value(ws, key) == Some(val),
    decreases i,
{
    lemma_leads(ws[0], key);
    if i == 0 {
        assert(key + val == ws[0]);
        assert(leads(ws[0], key));
        assert((key + val).skip(key.len() as int) =~= val);
    } else {
        assert(!leads(ws[0], key));
        let rest = ws.skip(1);
        assert(rest[i - 1] == ws[i]);
        assert forall|j: int| 0 <= j < i - 1 implies !leads(#[trigger] rest[j], key) by {
            assert(rest[j] == ws[j + 1]);
        }
        lemma_first_value(rest, key, i - 1, val);
    }
}

/// Whether the first word of some that begins with a key goes on with a value.
pub open spec fn value_of(ws: Seq<Seq<char>>, key: Seq<char>, val: Seq<char>) -> bool {
    exists|i: int|
        0 <= i < ws.len() && #[trigger] ws[i] == key + val && forall|j: int|
            0 <= j < i ==> !leads(#[trigger] ws[j], key)
}

proof fn lemma_value(ws: Seq<Seq<char>>, key: Seq<char>, val: Seq<char>)
    requires
        value_of(ws, key, val),
    ensures
        first_value(ws, key) == Some(val),
{
    let i = choose|i: int|
        0 <= i < ws.len() && #[trigger] ws[i] == key + val && forall|j: int|
            0 <= j < i ==> !leads(#[trigger] ws[j], key);
    lemma_first_value(ws, key, i, val);
}

/// A line of the table tells who connects with whom, how and at which port, and how many
/// packets were sent: what it gives first of each is the way there. Such a connection is
/// reported once it is long, and if its far end is one.
pub proof fn law_connection_is_read(
    line: Seq<char>,
    src: Seq<char>,
    dst: Seq<char>,
    port: u16,
    packets: u64,
)
    requires
        words(line).len() >= 3,
        value_of(words(line), "src="@, src),
        value_of(words(line), "dst="@, dst),
        value_of(words(line), "dport="@, dec(port as nat)),
        value_of(words(line), "packets="@, dec(packets as nat)),
    ensures
        ({
            let proto = words(line)[2];
            &&& proto == "tcp"@ || proto == "udp"@ ==> flow_in(line) == Some(
                FlowView { src, proto, dst, port, packets },
            ) && (packets >= 20 && !no_peer(dst) ==> peer_in(line) == Some(
                EventView::Peer { ip: src, proto, remote: dst, port },
            )) && (packets < 20 || no_peer(dst) ==> peer_in(line) is None)
            &&& proto != "tcp"@ && proto != "udp"@ ==> flow_in(line) is None && peer_in(
                line,
            ) is None
        }),
{
    let ws = words(line);
    lemma_value(ws, "src="@, src);
    lemma_value(ws, "dst="@, dst);
    lemma_value(ws, "dport="@, dec(port as nat));
    lemma_value(ws, "packets="@, dec(packets as nat));
    law_number_roundtrip(port as nat, 10, 65535);
    law_number_roundtrip(packets as nat, 10, u64::MAX as nat);
}

/// No far end are the machine itself, everyone, and groups: `127.`, `255.255.255.255`, the
/// first numbers from 224 to 239, and what begins with `ff` over IPv6.
pub proof fn law_far_ends_are_single(ip: Seq<char>, n: u8, rest: Seq<char>)
    ensures
        leads(ip, "127."@) ==> no_peer(ip),
        no_peer("255.255.255.255"@),
        ip == dec(n as nat) + seq!['.'] + rest && 224 <= n <= 239 ==> no_peer(ip),
        ip == dec(n as nat) + seq!['.'] + rest && !(224 <= n <= 239) && !leads(ip, "127."@) && ip
            != "255.255.255.255"@ ==> !no_peer(ip),
        unsigned(before(ip, '.'), 10, 255) is None && leads(ip, "ff"@) ==> no_peer(ip),
        unsigned(before(ip, '.'), 10, 255) is None && !leads(ip, "ff"@) && !leads(ip, "127."@)
            && ip != "255.255.255.255"@ ==> !no_peer(ip),
{
    lemma_leads(ip, "127."@);
    lemma_leads(ip, "ff"@);
    if ip == dec(n as nat) + seq!['.'] + rest {
        crate::num::lemma_numeral(n as nat, 10);
        assert forall|i: int| 0 <= i < dec(n as nat).len() implies #[trigger] dec(n as nat)[i]
            != '.' by {
            assert(crate::num::plain_digit(numeral(n as nat, 10)[i]));
        }
        law_parting_at_the_first(dec(n as nat), '.', rest);
        law_number_roundtrip(n as nat, 10, 255);
    }
}

// ---------------------------------------------------------------------------
// DHCP requests
// ---------------------------------------------------------------------------

/// How deep a text is in braces: those opened less those closed.
pub proof fn law_depth_counts_braces(t: Seq<char>)
    ensures
        depth(t) == t.filter(|c: char| c == '{').len() - t.filter(|c: char| c == '}').len(),
    decreases t.len(),
{
    reveal(Seq::filter);
    if t.len() > 0 {
        law_depth_counts_braces(t.drop_last());
    }
}

/// Lines are gathered until every brace that was opened is closed; then what was gathered is
/// handed out, without the space around it, and gathering begins anew. What gets longer than
/// 65536 bytes is given up.
pub proof fn law_objects_are_gathered(acc: Seq<char>, line: Seq<char>)
    ensures
        ({
            let all = acc + line + seq!['\n'];
            let open = all.filter(|c: char| c == '{').len() - all.filter(|c: char| c == '}').len();
            &&& open <= 0 && trimmed(all).len() > 0 ==> split_step(acc, line).0 == Some(
                trimmed(all),
            ) && split_step(acc, line).1.len() == 0
            &&& open > 0 && encode_utf8(all).len() <= 65536 ==> split_step(acc, line) == (
                None::<Seq<char>>,
                all,
            )
            &&& open > 0 && encode_utf8(all).len() > 65536 ==> split_step(acc, line).0 is None
                && split_step(acc, line).1.len() == 0
        }),
{
    law_depth_counts_braces(acc + line + seq!['\n']);
}

/// A request is reported with the address of the device in normal form, and what it tells
/// under their names: its address, its name, its vendor class and its parameter list; what
/// it does not tell is empty. Without a valid hardware address it is no request.
pub proof fn law_request_is_reported(t: Tree, o: Tree)
    requires
        member_of(t, "whohere.dhcp"@) == Some(o),
    ensures
        ({
            let told = |k: Seq<char>|
                match member_text(o, k) {
                    Some(s) => s,
                    None => Seq::<char>::empty(),
                };
            &&& mac_normal(told("mac"@)) matches Some(mac) ==> exchange_in(Some(t)) == Some(
                EventView::Dhcp {
                    mac,
                    ip: told("ip"@),
                    host: told("host"@),
                    vendor: told("vendor"@),
                    opts: told("opts"@),
                },
            )
            &&& mac_normal(told("mac"@)) is None ==> exchange_in(Some(t)) is None
        }),
{
}

/// What is no such message is no request.
pub proof fn law_other_messages_are_no_requests(t: Tree)
    ensures
        member_of(t, "whohere.dhcp"@) is None ==> exchange_in(Some(t)) is None,
        exchange_in(None) is None,
{
}

// ---------------------------------------------------------------------------
// Settings
// ---------------------------------------------------------------------------

/// A switch is on or off in four words each, with space around them or not; anything else
/// leaves it as it is unless set.
pub proof fn law_switches(a: Seq<char>, v: Seq<char>, b: Seq<char>, dflt: bool)
    requires
        crate::laws::text::blank(a),
        crate::laws::text::blank(b),
        v.len() > 0 ==> !white(v[0]) && !white(v.last()),
    ensures
        v == "1"@ || v == "true"@ || v == "yes"@ || v == "on"@ ==> setting_bool(a + v + b, dflt),
        v == "0"@ || v == "false"@ || v == "no"@ || v == "off"@ ==> !setting_bool(
            a + v + b,
            dflt,
        ),
        v != "1"@ && v != "true"@ && v != "yes"@ && v != "on"@ && v != "0"@ && v != "false"@ && v
            != "no"@ && v != "off"@ ==> setting_bool(a + v + b, dflt) == dflt,
{
    law_trimming(a, v, b);
    reveal_strlit("1");
    reveal_strlit("true");
    reveal_strlit("yes");
    reveal_strlit("on");
    reveal_strlit("0");
    reveal_strlit("false");
    reveal_strlit("no");
    reveal_strlit("off");
    assert("1"@.len() == 1 && "0"@.len() == 1 && "1"@[0] == '1' && "0"@[0] == '0');
    assert("on"@.len() == 2 && "no"@.len() == 2 && "on"@[0] == 'o' && "no"@[0] == 'n');
    assert("yes"@.len() == 3 && "off"@.len() == 3 && "yes"@[0] == 'y' && "off"@[0] == 'o');
    assert("true"@.len() == 4 && "false"@.len() == 5);
}

/// A number is taken as it stands, but not below its least; what is no number leaves it as
/// it is unless set.
pub proof fn law_numbers(a: Seq<char>, n: u64, b: Seq<char>, v: Seq<char>, dflt: u64, min: u64)
    requires
        crate::laws::text::blank(a),
        crate::laws::text::blank(b),
    ensures
        n >= min ==> setting_num(a + dec(n as nat) + b, dflt, min) == n,
        n < min ==> setting_num(a + dec(n as nat) + b, dflt, min) == min,
        unsigned(trimmed(v), 10, u64::MAX as nat) is None && dflt >= min ==> setting_num(
            v,
            dflt,
            min,
        ) == dflt,
{
    crate::num::lemma_numeral(n as nat, 10);
    let d = dec(n as nat);
    assert(crate::num::plain_digit(numeral(n as nat, 10)[0]));
    assert(crate::num::plain_digit(numeral(n as nat, 10)[d.len() - 1]));
    law_trimming(a, d, b);
    law_number_roundtrip(n as nat, 10, u64::MAX as nat);
}

/// A text is taken without the space around it; where there is nothing, it is as it is
/// unless set.
pub proof fn law_texts(a: Seq<char>, v: Seq<char>, b: Seq<char>, dflt: Seq<char>)
    requires
        crate::laws::text::blank(a),
        crate::laws::text::blank(b),
        v.len() > 0 ==> !white(v[0]) && !white(v.last()),
    ensures
        v.len() > 0 ==> setting_text(a + v + b, dflt) == v,
        v.len() == 0 ==> setting_text(a + v + b, dflt) == dflt,
{
    law_trimming(a, v, b);
}

/// What was set under a name, or nothing.
pub open spec fn set_to(m: Entries<Seq<char>>, key: Seq<char>) -> Seq<char> {
    match lookup(m, key) {
        Some(v) => v,
        None => Seq::empty(),
    }
}

/// Each setting has its name and what it is unless set: everything listens, but for the probe
/// of ports and the keeping of names, which have to be asked for.
pub proof fn law_settings_have_their_names(m: Entries<Seq<char>>)
    ensures
        configured(m).enabled == setting_bool(set_to(m, "enabled"@), true),
        configured(m).mdns == setting_bool(set_to(m, "mdns"@), true),
        configured(m).sniff == setting_bool(set_to(m, "sniff"@), true),
        configured(m).conns == setting_bool(set_to(m, "conns"@), true),
        configured(m).ssdp == setting_bool(set_to(m, "ssdp"@), true),
        configured(m).port_probe == setting_bool(set_to(m, "port_probe"@), false),
        configured(m).keep_unmatched == setting_bool(set_to(m, "keep_unmatched"@), false),
        configured(m).dns_source == setting_text(set_to(m, "dns_source"@), "auto"@),
        configured(m).dns_log == setting_text(set_to(m, "dns_log"@), "/tmp/whohere-dns.log"@),
        configured(m).singbox_log == setting_text(
            set_to(m, "singbox_log"@),
            "/var/log/sing-box.log"@,
        ),
        configured(m).dnstap_socket == setting_text(
            set_to(m, "dnstap_socket"@),
            "/tmp/whohere-dnstap.sock"@,
        ),
        configured(m).db == setting_text(set_to(m, "db"@), "/etc/whohere/devices.json"@),
        configured(m).rules == setting_text(set_to(m, "rules"@), "/usr/share/whohere/rules.json"@),
        configured(m).oui_db == setting_text(set_to(m, "oui_db"@), "/usr/share/whohere/oui.txt"@),
        configured(m).dns_log_max_kb == setting_num(set_to(m, "dns_log_max_kb"@), 2048, 64),
        configured(m).persist_interval == setting_num(set_to(m, "persist_interval"@), 1800, 60),
        configured(m).refresh_interval == setting_num(set_to(m, "refresh_interval"@), 30, 5),
        configured(m).offline_after == setting_num(set_to(m, "offline_after"@), 600, 60),
        configured(m).max_age == setting_num(set_to(m, "max_age"@), 2_592_000, 3600),
        configured(m).evidence_halflife == setting_num(
            set_to(m, "evidence_halflife"@),
            604_800,
            0,
        ),
{
}

/// Queries come from where they are set to come from; left to itself, from the log of dnsmasq
/// if there is one, else from that of sing-box, else from a tap.
pub proof fn law_source_of_queries(c: CfgView, dns_log: bool, singbox_log: bool)
    ensures
        c.dns_source != "auto"@ ==> source_of(c, dns_log, singbox_log) == c.dns_source,
        c.dns_source == "auto"@ && dns_log ==> source_of(c, dns_log, singbox_log)
            == "dnsmasq_log"@,
        c.dns_source == "auto"@ && !dns_log && singbox_log ==> source_of(c, dns_log, singbox_log)
            == "singbox_log"@,
        c.dns_source == "auto"@ && !dns_log && !singbox_log ==> source_of(c, dns_log, singbox_log)
            == "dnstap"@,
{
}

// ---------------------------------------------------------------------------
// The list of makers
// ---------------------------------------------------------------------------

/// A line of the list of makers is a prefix and, behind the first tab, a name, both without
/// the space around them and the prefix in small letters; what begins with a hash, or has no
/// tab, is none.
pub proof fn law_maker_line_is_read(p: Seq<char>, v: Seq<char>)
    requires
        free_of(p, '\t'),
    ensures
        ({
            let line = p + seq!['\t'] + v;
            &&& p.len() == 0 || p[0] != '#' ==> list_entry(line) == Some(
                (lower(trimmed(p)), trimmed(v)),
            ) && is_entry(line)
            &&& p.len() > 0 && p[0] == '#' ==> list_entry(line) is None && !is_entry(line)
            &&& list_entry(p) is None && !is_entry(p)
        }),
{
    reveal_strlit("#");
    reveal_strlit("\t");
    let line = p + seq!['\t'] + v;
    law_parting_at_the_first(p, '\t', v);
    lemma_leads(line, "#"@);
    assert("#"@.len() == 1 && "#"@[0] == '#');
    if leads(line, "#"@) {
        let rest = choose|rest: Seq<char>| #[trigger] ("#"@ + rest) == line;
        assert(("#"@ + rest)[0] == '#');
        assert(line[0] == '#');
        assert(p.len() > 0 ==> p[0] == '#');
        assert(p.len() == 0 ==> line[0] == '\t');
    }
    if p.len() > 0 && p[0] == '#' {
        assert(line[0] == '#');
        assert("#"@ + line.skip(1) =~= line);
        assert(leads(line, "#"@));
    }
    assert("\t"@ =~= seq!['\t']);
    assert(line.subrange(p.len() as int, p.len() as int + 1) =~= "\t"@);
    assert(occurs_at(line, "\t"@, p.len() as int));
    assert(contains(line, "\t"@));
    if contains(p, "\t"@) {
        let h = choose|h: int| occurs_at(p, "\t"@, h);
        assert(p.subrange(h, h + 1)[0] == '\t');
        assert(p[h] == '\t');
    }
}

} // verus!
