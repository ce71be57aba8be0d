//! What a captured packet tells: reading undoes writing.

use crate::bpf::{
    filter_code, law_filter_accepts, run, JEQ_K, JGE_K, JSET_K, LDX_B_MSH, LD_B_ABS, LD_B_IND,
    LD_H_ABS, LD_H_IND, RET_K,
};
use crate::event::EventView;
use crate::num::dec;
use crate::sniff::{
    body_len, client_name, client_of, client_raw, extensions, fingerprint, frame_event,
    header_fields, header_len, http_names, is_request, option_names, options, payload_event,
    request_names, segment, segment_size, server_name, sni_name, sni_raw, window_scale, Opt,
    Segment,
};
use crate::text::{
    before, first, in_class, joined, kept, lower, parts, split_first, trimmed, utf8_lossy, Class,
};
use crate::util::{domain_normal, v6_text};
use crate::wire::{u16_at, v4_text};
use vstd::prelude::*;

verus! {

/// A number in two bytes, high byte first.
pub open spec fn two_bytes(n: int) -> Seq<u8> {
    seq![(n / 256) as u8, (n % 256) as u8]
}

/// Bytes behind their count in one byte.
pub open spec fn counted(b: Seq<u8>) -> Seq<u8> {
    seq![b.len() as u8] + b
}

/// Bytes behind their count in two bytes.
pub open spec fn long_counted(b: Seq<u8>) -> Seq<u8> {
    two_bytes(b.len() as int) + b
}

pub proof fn lemma_two_bytes(p: Seq<u8>, i: int, n: int)
    requires
        0 <= n < 65536,
        0 <= i,
        i + 2 <= p.len(),
        p.subrange(i, i + 2) == two_bytes(n),
    ensures
        u16_at(p, i) == n,
{
    assert(p[i] == p.subrange(i, i + 2)[0]);
    assert(p[i + 1] == p.subrange(i, i + 2)[1]);
    assert(n / 256 * 256 + n % 256 == n);
}

// ---------------------------------------------------------------------------
// Greetings of encrypted connections
// ---------------------------------------------------------------------------

/// Extensions of a greeting, each with its type and its data, as they are written.
pub open spec fn written(l: Seq<(u16, Seq<u8>)>) -> Seq<u8>
    decreases l.len(),
{
    if l.len() == 0 {
        Seq::empty()
    } else {
        two_bytes(l[0].0 as int) + long_counted(l[0].1) + written(l.skip(1))
    }
}

/// The extension that names a host: a list of one name, of the sort that host names are.
pub open spec fn naming(host: Seq<u8>) -> Seq<u8> {
    two_bytes(host.len() as int + 3) + seq![0u8] + long_counted(host)
}

/// A greeting: its fixed part, the mark of an earlier session, the ciphers and compressions
/// on offer, and its extensions.
pub open spec fn greeting(
    head: Seq<u8>,
    session: Seq<u8>,
    ciphers: Seq<u8>,
    methods: Seq<u8>,
    exts: Seq<u8>,
) -> Seq<u8> {
    head + counted(session) + long_counted(ciphers) + counted(methods) + long_counted(exts)
}

/// Whether these can be the parts of a greeting.
pub open spec fn greeting_parts(
    head: Seq<u8>,
    session: Seq<u8>,
    ciphers: Seq<u8>,
    methods: Seq<u8>,
    exts: Seq<u8>,
) -> bool {
    &&& head.len() == 43
    &&& head[0] == 0x16
    &&& head[5] == 0x01
    &&& session.len() < 256
    &&& ciphers.len() < 65536
    &&& methods.len() < 256
    &&& exts.len() < 65536
}

proof fn lemma_extensions(
    head: Seq<u8>,
    session: Seq<u8>,
    ciphers: Seq<u8>,
    methods: Seq<u8>,
    exts: Seq<u8>,
    behind: Seq<u8>,
)
    requires
        greeting_parts(head, session, ciphers, methods, exts),
    ensures
        ({
            let p = greeting(head, session, ciphers, methods, exts) + behind;
            let at = 49 + session.len() + ciphers.len() + methods.len() as int;
            extensions(p) == Some((at, at + exts.len()))
        }),
{
    let p = greeting(head, session, ciphers, methods, exts) + behind;
    let a = 44 + session.len() as int;
    let b = a + 2 + ciphers.len();
    let c = b + 1 + methods.len();
    assert(p[0] == 0x16 && p[5] == 0x01 && p[43] == session.len() as u8);
    assert(p.subrange(a, a + 2) =~= two_bytes(ciphers.len() as int));
    lemma_two_bytes(p, a, ciphers.len() as int);
    assert(p[b] == methods.len() as u8);
    assert(p.subrange(c, c + 2) =~= two_bytes(exts.len() as int));
    lemma_two_bytes(p, c, exts.len() as int);
}

/// Whether a packet holds some bytes at a place.
pub open spec fn holds_at(p: Seq<u8>, i: int, b: Seq<u8>) -> bool {
    0 <= i && i + b.len() <= p.len() && p.subrange(i, i + b.len()) == b
}

pub proof fn lemma_holds_parts(p: Seq<u8>, i: int, a: Seq<u8>, b: Seq<u8>)
    requires
        holds_at(p, i, a + b),
    ensures
        holds_at(p, i, a),
        holds_at(p, i + a.len(), b),
{
    let w = p.subrange(i, i + (a + b).len());
    assert(w =~= a + b);
    assert(p.subrange(i, i + a.len()) =~= a) by {
        assert forall|j: int| 0 <= j < a.len() implies p[i + j] == a[j] by {
            assert(w[j] == (a + b)[j]);
        }
    }
    assert(p.subrange(i + a.len(), i + a.len() + b.len()) =~= b) by {
        assert forall|j: int| 0 <= j < b.len() implies p[i + a.len() + j] == b[j] by {
            assert(w[a.len() + j] == (a + b)[a.len() + j]);
        }
    }
}

spec fn others(l: Seq<(u16, Seq<u8>)>) -> bool {
    forall|k: int| 0 <= k < l.len() ==> (#[trigger] l[k]).0 != 0 && l[k].1.len() < 65536
}

proof fn lemma_skip_others(
    p: Seq<u8>,
    i: int,
    end: int,
    l: Seq<(u16, Seq<u8>)>,
)
    requires
        others(l),
        holds_at(p, i, written(l)),
        i + written(l).len() <= end <= p.len(),
    ensures
        server_name(p, i, end) == server_name(p, i + written(l).len(), end),
    decreases l.len(),
{
    if l.len() > 0 {
        let t = l[0].0;
        let d = l[0].1;
        let rest = written(l.skip(1));
        assert(l[0].0 != 0 && l[0].1.len() < 65536);
        assert(written(l) =~= two_bytes(t as int) + (long_counted(d) + rest));
        lemma_holds_parts(p, i, two_bytes(t as int), long_counted(d) + rest);
        lemma_holds_parts(p, i + 2, long_counted(d), rest);
        lemma_holds_parts(p, i + 2, two_bytes(d.len() as int), d);
        lemma_two_bytes(p, i, t as int);
        lemma_two_bytes(p, i + 2, d.len() as int);
        assert(others(l.skip(1))) by {
            assert forall|k: int| 0 <= k < l.skip(1).len() implies (#[trigger] l.skip(1)[k]).0 != 0
                && l.skip(1)[k].1.len() < 65536 by {
                assert(l.skip(1)[k] == l[k + 1]);
            }
        }
        lemma_skip_others(p, i + 4 + d.len(), end, l.skip(1));
    }
}

/// The host that a greeting names is read, whatever session, ciphers, compressions and other
/// extensions the greeting holds, and whatever follows it.
pub proof fn law_greeting_names_its_host(
    head: Seq<u8>,
    session: Seq<u8>,
    ciphers: Seq<u8>,
    methods: Seq<u8>,
    front: Seq<(u16, Seq<u8>)>,
    host: Seq<u8>,
    back: Seq<u8>,
    behind: Seq<u8>,
)
    requires
        forall|k: int|
            0 <= k < front.len() ==> (#[trigger] front[k]).0 != 0 && front[k].1.len() < 65536,
        greeting_parts(
            head,
            session,
            ciphers,
            methods,
            written(front) + two_bytes(0) + long_counted(naming(host)) + back,
        ),
    ensures
        sni_raw(
            greeting(
                head,
                session,
                ciphers,
                methods,
                written(front) + two_bytes(0) + long_counted(naming(host)) + back,
            ) + behind,
        ) == Some(host),
        sni_name(
            greeting(
                head,
                session,
                ciphers,
                methods,
                written(front) + two_bytes(0) + long_counted(naming(host)) + back,
            ) + behind,
        ) == Some(domain_normal(utf8_lossy(host))),
{
    let exts = written(front) + two_bytes(0) + long_counted(naming(host)) + back;
    lemma_regrouped(written(front), two_bytes(0), long_counted(naming(host)), back);
    lemma_greeting_host(head, session, ciphers, methods, exts, front, host, back, behind);
}

proof fn lemma_regrouped(a: Seq<u8>, b: Seq<u8>, c: Seq<u8>, d: Seq<u8>)
    ensures
        a + b + c + d == a + (b + (c + d)),
{
    assert(a + b + c + d =~= a + (b + (c + d)));
}

proof fn lemma_greeting_host(
    head: Seq<u8>,
    session: Seq<u8>,
    ciphers: Seq<u8>,
    methods: Seq<u8>,
    exts: Seq<u8>,
    front: Seq<(u16, Seq<u8>)>,
    host: Seq<u8>,
    back: Seq<u8>,
    behind: Seq<u8>,
)
    requires
        others(front),
        greeting_parts(head, session, ciphers, methods, exts),
        exts == written(front) + (two_bytes(0) + (long_counted(naming(host)) + back)),
    ensures
        sni_raw(greeting(head, session, ciphers, methods, exts) + behind) == Some(host),
{
    let p = greeting(head, session, ciphers, methods, exts) + behind;
    let at = 49 + session.len() + ciphers.len() + methods.len() as int;
    let end = at + exts.len();
    lemma_extensions(head, session, ciphers, methods, exts, behind);
    lemma_holds_extensions(head, session, ciphers, methods, exts, behind);
    lemma_read_host(p, at, end, front, host, back);
}

proof fn lemma_read_host(
    p: Seq<u8>,
    at: int,
    end: int,
    front: Seq<(u16, Seq<u8>)>,
    host: Seq<u8>,
    back: Seq<u8>,
)
    requires
        others(front),
        extensions(p) == Some((at, end)),
        end - at < 65536,
        holds_at(
            p,
            at,
            written(front) + (two_bytes(0) + (long_counted(naming(host)) + back)),
        ),
        end == at + (written(front) + (two_bytes(0) + (long_counted(naming(host)) + back))).len(),
    ensures
        sni_raw(p) == Some(host),
{
    let own = two_bytes(0) + (long_counted(naming(host)) + back);
    lemma_holds_parts(p, at, written(front), own);
    lemma_skip_others(p, at, end, front);
    lemma_named_at(p, at + written(front).len(), end, host, back);
}

proof fn lemma_holds_extensions(
    head: Seq<u8>,
    session: Seq<u8>,
    ciphers: Seq<u8>,
    methods: Seq<u8>,
    exts: Seq<u8>,
    behind: Seq<u8>,
)
    requires
        head.len() == 43,
    ensures
        holds_at(
            greeting(head, session, ciphers, methods, exts) + behind,
            49 + session.len() + ciphers.len() + methods.len() as int,
            exts,
        ),
{
    let p = greeting(head, session, ciphers, methods, exts) + behind;
    let front = head + counted(session) + long_counted(ciphers) + counted(methods) + two_bytes(
        exts.len() as int,
    );
    assert(p =~= front + exts + behind);
    assert(p.subrange(front.len() as int, front.len() + exts.len() as int) =~= exts);
}

proof fn lemma_named_at(p: Seq<u8>, i: int, end: int, host: Seq<u8>, back: Seq<u8>)
    requires
        host.len() + 5 < 65536,
        holds_at(p, i, two_bytes(0) + (long_counted(naming(host)) + back)),
        i + (two_bytes(0) + (long_counted(naming(host)) + back)).len() == end,
    ensures
        server_name(p, i, end) == Some(host),
{
    let n = naming(host);
    let h = long_counted(host);
    lemma_holds_parts(p, i, two_bytes(0), long_counted(n) + back);
    lemma_holds_parts(p, i + 2, long_counted(n), back);
    lemma_holds_parts(p, i + 2, two_bytes(n.len() as int), n);
    lemma_two_bytes(p, i, 0);
    lemma_two_bytes(p, i + 2, n.len() as int);
    assert(n =~= two_bytes(host.len() as int + 3) + (seq![0u8] + h));
    lemma_holds_parts(p, i + 4, two_bytes(host.len() as int + 3), seq![0u8] + h);
    lemma_holds_parts(p, i + 6, seq![0u8], h);
    lemma_holds_parts(p, i + 7, two_bytes(host.len() as int), host);
    assert(p[i + 6] == p.subrange(i + 6, i + 7)[0]);
    lemma_two_bytes(p, i + 7, host.len() as int);
}

/// A greeting without the extension that names a host names none.
pub proof fn law_greeting_without_a_host(
    head: Seq<u8>,
    session: Seq<u8>,
    ciphers: Seq<u8>,
    methods: Seq<u8>,
    front: Seq<(u16, Seq<u8>)>,
    behind: Seq<u8>,
)
    requires
        forall|k: int|
            0 <= k < front.len() ==> (#[trigger] front[k]).0 != 0 && front[k].1.len() < 65536,
        greeting_parts(head, session, ciphers, methods, written(front)),
    ensures
        sni_raw(greeting(head, session, ciphers, methods, written(front)) + behind) is None,
        sni_name(greeting(head, session, ciphers, methods, written(front)) + behind) is None,
{
    let exts = written(front);
    let p = greeting(head, session, ciphers, methods, exts) + behind;
    let at = 49 + session.len() + ciphers.len() + methods.len() as int;
    let end = at + exts.len();
    lemma_extensions(head, session, ciphers, methods, exts, behind);
    assert(p.subrange(at, end) =~= exts);
    lemma_skip_others(p, at, end, front);
}

/// What is no greeting names no host.
pub proof fn law_only_greetings_name_hosts(p: Seq<u8>)
    ensures
        p.len() < 44 ==> sni_raw(p) is None,
        p.len() > 0 && p[0] != 0x16 ==> sni_raw(p) is None,
        p.len() > 5 && p[5] != 0x01 ==> sni_raw(p) is None,
{
}

// ---------------------------------------------------------------------------
// Connections to a broker
// ---------------------------------------------------------------------------

/// Whether bytes count how long the rest is, seven bits in each, the last without the
/// highest bit; and do not count zero.
pub open spec fn rest_count(c: Seq<u8>) -> bool {
    &&& 1 <= c.len() <= 4
    &&& forall|i: int| 0 <= i < c.len() - 1 ==> #[trigger] c[i] >= 128
    &&& c.last() < 128
    &&& exists|i: int| 0 <= i < c.len() && #[trigger] c[i] % 128 != 0
}

proof fn lemma_body_len(p: Seq<u8>, c: Seq<u8>, k: int, unit: int, acc: int)
    requires
        1 <= c.len() <= 4,
        forall|i: int| 0 <= i < c.len() - 1 ==> #[trigger] c[i] >= 128,
        c.last() < 128,
        0 <= k < c.len(),
        p.len() >= 1 + c.len(),
        forall|i: int| 0 <= i < c.len() ==> p[1 + i] == #[trigger] c[i],
        unit > 0,
        acc >= 0,
    ensures
        body_len(p, 1 + k, unit, acc) matches Some((n, i)) && i == 1 + c.len() && n >= acc && (acc
            > 0 || (exists|i: int| k <= i < c.len() && #[trigger] c[i] % 128 != 0) ==> n > 0),
    decreases c.len() - k,
{
    assert(p[1 + k] == c[k]);
    let u = c[k] % 128;
    assert(u * unit >= 0 && (u > 0 ==> u * unit > 0)) by (nonlinear_arith)
        requires
            unit > 0,
            u >= 0,
    ;
    if k == c.len() - 1 {
        assert(p[1 + k] < 128);
        assert(p[1 + k] * unit == u * unit) by {
            assert(c[k] % 128 == c[k]);
        }
    } else {
        assert(c[k] >= 128);
        lemma_body_len(p, c, k + 1, unit * 128, acc + p[1 + k] % 128 * unit);
        if exists|i: int| k <= i < c.len() && #[trigger] c[i] % 128 != 0 {
            let i = choose|i: int| k <= i < c.len() && #[trigger] c[i] % 128 != 0;
            if i > k {
                assert(c[i] % 128 != 0);
            } else {
                assert(u * unit > 0);
            }
        }
    }
}

/// The name that a client gives itself when it connects to a broker is read, whatever its
/// flags, its count of the rest, its protocol level and settings are, and whatever follows.
pub proof fn law_client_names_itself(
    start: u8,
    count: Seq<u8>,
    protocol: Seq<u8>,
    settings: Seq<u8>,
    name: Seq<u8>,
    behind: Seq<u8>,
)
    requires
        16 <= start < 32,
        rest_count(count),
        protocol == seq![77u8, 81u8, 84u8, 84u8] || protocol == seq![
            77u8,
            81u8,
            73u8,
            115u8,
            100u8,
            112u8,
        ],
        settings.len() == 4,
        1 <= name.len() <= 128,
    ensures
        client_raw(
            seq![start] + count + long_counted(protocol) + settings + long_counted(name) + behind,
        ) == Some(name),
        client_of(
            seq![start] + count + long_counted(protocol) + settings + long_counted(name) + behind,
        ) == client_name(utf8_lossy(name)),
{
    let p = seq![start] + count + long_counted(protocol) + settings + long_counted(name) + behind;
    assert forall|i: int| 0 <= i < count.len() implies p[1 + i] == #[trigger] count[i] by {}
    lemma_body_len(p, count, 0, 1, 0);
    let i = 1 + count.len() as int;
    assert(p.subrange(i, i + 2) =~= two_bytes(protocol.len() as int));
    lemma_two_bytes(p, i, protocol.len() as int);
    let at = i + 2 + protocol.len();
    assert(p.subrange(i + 2, at) =~= protocol);
    assert(p.subrange(at + 4, at + 6) =~= two_bytes(name.len() as int));
    lemma_two_bytes(p, at + 4, name.len() as int);
    assert(p.subrange(at + 6, at + 6 + name.len()) =~= name);
}

/// What is no such connection names no client: another sort of packet, another protocol, or
/// a name that is empty, too long, or cut off.
pub proof fn law_no_client_elsewhere(
    start: u8,
    count: Seq<u8>,
    protocol: Seq<u8>,
    settings: Seq<u8>,
    len: int,
    name: Seq<u8>,
)
    requires
        rest_count(count),
        protocol.len() < 65536,
        settings.len() == 4,
        0 <= len < 65536,
    ensures
        ({
            let p = seq![start] + count + long_counted(protocol) + settings + two_bytes(len) + name;
            &&& !(16 <= start < 32) ==> client_raw(p) is None
            &&& protocol != seq![77u8, 81u8, 84u8, 84u8] && protocol != seq![
                77u8,
                81u8,
                73u8,
                115u8,
                100u8,
                112u8,
            ] ==> client_raw(p) is None
            &&& len == 0 || len > 128 || len > name.len() ==> client_raw(p) is None
        }),
{
    let p = seq![start] + count + long_counted(protocol) + settings + two_bytes(len) + name;
    assert forall|i: int| 0 <= i < count.len() implies p[1 + i] == #[trigger] count[i] by {}
    lemma_body_len(p, count, 0, 1, 0);
    let i = 1 + count.len() as int;
    assert(p.subrange(i, i + 2) =~= two_bytes(protocol.len() as int));
    lemma_two_bytes(p, i, protocol.len() as int);
    let at = i + 2 + protocol.len();
    assert(p.subrange(i + 2, at) =~= protocol);
    assert(p.subrange(at + 4, at + 6) =~= two_bytes(len));
    lemma_two_bytes(p, at + 4, len);
}

proof fn lemma_kept_filter(s: Seq<char>, k: Class)
    ensures
        kept(s, k) == s.filter(|c: char| in_class(k, c)),
    decreases s.len(),
{
    reveal(Seq::filter);
    if s.len() > 0 {
        lemma_kept_filter(s.drop_last(), k);
    }
}

/// The name of a client is shown without control characters, and of it the first 64
/// characters; where nothing is left there is none.
pub proof fn law_client_name_is_shown_clean(t: Seq<char>)
    ensures
        ({
            let clean = t.filter(|c: char| c > '\u{1f}' && !('\u{7f}' <= c <= '\u{9f}'));
            &&& clean.len() == 0 ==> client_name(t) is None
            &&& 0 < clean.len() <= 64 ==> client_name(t) == Some(clean)
            &&& clean.len() > 64 ==> client_name(t) == Some(clean.take(64))
        }),
{
    lemma_kept_filter(t, Class::Printable);
    let p = |c: char| c > '\u{1f}' && !('\u{7f}' <= c <= '\u{9f}');
    let q = |c: char| in_class(Class::Printable, c);
    assert(p =~= q);
}

// ---------------------------------------------------------------------------
// Requests in the clear
// ---------------------------------------------------------------------------

/// Whether a packet begins with a text in ASCII.
pub open spec fn spelled(p: Seq<u8>, word: Seq<char>) -> bool {
    p.len() >= word.len() && forall|i: int|
        0 <= i < word.len() ==> p[i] as int == #[trigger] word[i] as int
}

/// A request is known by the first four characters of its method.
pub proof fn law_requests_are_known_by_their_method(p: Seq<u8>)
    ensures
        is_request(p) <==> spelled(p, "GET "@) || spelled(p, "POST"@) || spelled(p, "HEAD"@)
            || spelled(p, "PUT "@) || spelled(p, "OPTI"@) || spelled(p, "CONN"@),
        !is_request(p) ==> http_names(p) is None,
        is_request(p) && p.len() <= 2048 ==> http_names(p) == request_names(utf8_lossy(p)),
        is_request(p) && p.len() > 2048 ==> http_names(p) == request_names(
            utf8_lossy(p.take(2048)),
        ),
{
    reveal_strlit("GET ");
    reveal_strlit("POST");
    reveal_strlit("HEAD");
    reveal_strlit("PUT ");
    reveal_strlit("OPTI");
    reveal_strlit("CONN");
    lemma_spelled(p, "GET "@, 71, 69, 84, 32);
    lemma_spelled(p, "POST"@, 80, 79, 83, 84);
    lemma_spelled(p, "HEAD"@, 72, 69, 65, 68);
    lemma_spelled(p, "PUT "@, 80, 85, 84, 32);
    lemma_spelled(p, "OPTI"@, 79, 80, 84, 73);
    lemma_spelled(p, "CONN"@, 67, 79, 78, 78);
}

proof fn lemma_spelled(p: Seq<u8>, w: Seq<char>, a: u8, b: u8, c: u8, d: u8)
    requires
        w.len() == 4,
        w[0] as int == a,
        w[1] as int == b,
        w[2] as int == c,
        w[3] as int == d,
    ensures
        spelled(p, w) <==> crate::sniff::begins_with(p, a, b, c, d),
{
    if spelled(p, w) {
        assert(p[0] as int == w[0] as int);
        assert(p[1] as int == w[1] as int);
        assert(p[2] as int == w[2] as int);
        assert(p[3] as int == w[3] as int);
    }
}

/// Whether a line is a header of a name, which does not depend on the case of its letters
/// nor on the space around it.
pub open spec fn headed(line: Seq<char>, name: Seq<char>) -> bool {
    split_first(line, ':') matches Some((k, _)) && lower(trimmed(k)) == name
}

/// What stands behind the first colon of a line, without the space around it.
pub open spec fn header_value(line: Seq<char>) -> Seq<char> {
    trimmed(split_first(line, ':').unwrap().1)
}

proof fn lemma_no_host(ls: Seq<Seq<char>>, host: Seq<char>, ua: Seq<char>, i: int) -> (w: Seq<
    char,
>)
    requires
        0 <= i <= ls.len(),
        forall|j: int|
            0 <= j < i ==> (#[trigger] ls[j]).len() > 0 && !headed(ls[j], "host"@),
    ensures
        header_fields(ls, host, ua) == header_fields(ls.skip(i), host, w),
    decreases i,
{
    if i == 0 {
        assert(ls.skip(0) =~= ls);
        ua
    } else {
        let rest = ls.skip(1);
        assert(ls[0].len() > 0 && !headed(ls[0], "host"@));
        assert forall|j: int| 0 <= j < i - 1 implies (#[trigger] rest[j]).len() > 0 && !headed(
            rest[j],
            "host"@,
        ) by {
            assert(rest[j] == ls[j + 1]);
        }
        assert(rest.skip(i - 1) =~= ls.skip(i));
        let h1 = match split_first(ls[0], ':') {
            Some((k, v)) => if lower(trimmed(k)) == "host"@ && host.len() == 0 {
                domain_normal(before(trimmed(v), ':'))
            } else {
                host
            },
            None => host,
        };
        let u1 = match split_first(ls[0], ':') {
            Some((k, v)) => if lower(trimmed(k)) == "user-agent"@ && ua.len() == 0 {
                first(trimmed(v), 200)
            } else {
                ua
            },
            None => ua,
        };
        assert(header_fields(ls, host, ua) == header_fields(rest, h1, u1));
        lemma_no_host(rest, h1, u1, i - 1)
    }
}

proof fn lemma_no_agent(ls: Seq<Seq<char>>, host: Seq<char>, ua: Seq<char>, i: int) -> (w: Seq<
    char,
>)
    requires
        0 <= i <= ls.len(),
        forall|j: int|
            0 <= j < i ==> (#[trigger] ls[j]).len() > 0 && !headed(ls[j], "user-agent"@),
    ensures
        header_fields(ls, host, ua) == header_fields(ls.skip(i), w, ua),
    decreases i,
{
    if i == 0 {
        assert(ls.skip(0) =~= ls);
        host
    } else {
        let rest = ls.skip(1);
        assert(ls[0].len() > 0 && !headed(ls[0], "user-agent"@));
        assert forall|j: int| 0 <= j < i - 1 implies (#[trigger] rest[j]).len() > 0 && !headed(
            rest[j],
            "user-agent"@,
        ) by {
            assert(rest[j] == ls[j + 1]);
        }
        assert(rest.skip(i - 1) =~= ls.skip(i));
        let h1 = match split_first(ls[0], ':') {
            Some((k, v)) => if lower(trimmed(k)) == "host"@ && host.len() == 0 {
                domain_normal(before(trimmed(v), ':'))
            } else {
                host
            },
            None => host,
        };
        let u1 = match split_first(ls[0], ':') {
            Some((k, v)) => if lower(trimmed(k)) == "user-agent"@ && ua.len() == 0 {
                first(trimmed(v), 200)
            } else {
                ua
            },
            None => ua,
        };
        assert(header_fields(ls, host, ua) == header_fields(rest, h1, u1));
        lemma_no_agent(rest, h1, u1, i - 1)
    }
}

proof fn lemma_fields_kept(ls: Seq<Seq<char>>, host: Seq<char>, ua: Seq<char>)
    ensures
        host.len() > 0 ==> header_fields(ls, host, ua).0 == host,
        ua.len() > 0 ==> header_fields(ls, host, ua).1 == ua,
    decreases ls.len(),
{
    if ls.len() > 0 && ls[0].len() > 0 {
        match split_first(ls[0], ':') {
            None => {
                lemma_fields_kept(ls.skip(1), host, ua);
            },
            Some((k, v)) => {
                let key = lower(trimmed(k));
                lemma_fields_kept(
                    ls.skip(1),
                    if key == "host"@ && host.len() == 0 {
                        domain_normal(before(trimmed(v), ':'))
                    } else {
                        host
                    },
                    if key == "user-agent"@ && ua.len() == 0 {
                        first(trimmed(v), 200)
                    } else {
                        ua
                    },
                );
            },
        }
    }
}

/// The host of a request is that of its first `Host` line, without a port and in normal
/// form, and its agent is that of its first `User-Agent` line, of which the first 200
/// characters are kept. Only the lines in front of the empty one count.
pub proof fn law_request_tells_host_and_agent(ls: Seq<Seq<char>>, i: int)
    requires
        0 <= i < ls.len(),
        forall|j: int| 0 <= j <= i ==> (#[trigger] ls[j]).len() > 0,
    ensures
        headed(ls[i], "host"@) && domain_normal(before(header_value(ls[i]), ':')).len() > 0 && (
        forall|j: int| 0 <= j < i ==> !headed(#[trigger] ls[j], "host"@)) ==> header_fields(
            ls,
            Seq::empty(),
            Seq::empty(),
        ).0 == domain_normal(before(header_value(ls[i]), ':')),
        headed(ls[i], "user-agent"@) && 0 < header_value(ls[i]).len() <= 200 && (forall|j: int|
            0 <= j < i ==> !headed(#[trigger] ls[j], "user-agent"@)) ==> header_fields(
            ls,
            Seq::empty(),
            Seq::empty(),
        ).1 == header_value(ls[i]),
        headed(ls[i], "user-agent"@) && header_value(ls[i]).len() > 200 && (forall|j: int|
            0 <= j < i ==> !headed(#[trigger] ls[j], "user-agent"@)) ==> header_fields(
            ls,
            Seq::empty(),
            Seq::empty(),
        ).1 == header_value(ls[i]).take(200),
{
    let none = Seq::<char>::empty();
    let rest = ls.skip(i);
    assert(rest[0] == ls[i]);
    if headed(ls[i], "host"@) && domain_normal(before(header_value(ls[i]), ':')).len() > 0 && (
    forall|j: int| 0 <= j < i ==> !headed(#[trigger] ls[j], "host"@)) {
        let u = lemma_no_host(ls, none, none, i);
        let h1 = domain_normal(before(header_value(ls[i]), ':'));
        let u1 = if lower(trimmed(split_first(ls[i], ':').unwrap().0)) == "user-agent"@ && u.len()
            == 0 {
            first(header_value(ls[i]), 200)
        } else {
            u
        };
        assert(header_fields(rest, none, u) == header_fields(rest.skip(1), h1, u1));
        lemma_fields_kept(rest.skip(1), h1, u1);
    }
    if headed(ls[i], "user-agent"@) && header_value(ls[i]).len() > 0 && (forall|j: int|
        0 <= j < i ==> !headed(#[trigger] ls[j], "user-agent"@)) {
        let h = lemma_no_agent(ls, none, none, i);
        let u1 = first(header_value(ls[i]), 200);
        let h1 = if lower(trimmed(split_first(ls[i], ':').unwrap().0)) == "host"@ && h.len() == 0 {
            domain_normal(before(header_value(ls[i]), ':'))
        } else {
            h
        };
        assert(header_fields(rest, h, none) == header_fields(rest.skip(1), h1, u1));
        lemma_fields_kept(rest.skip(1), h1, u1);
    }
}

/// Without such a line in front of the empty one a request tells neither.
pub proof fn law_request_tells_nothing_else(ls: Seq<Seq<char>>, i: int)
    requires
        0 <= i <= ls.len(),
        forall|j: int| 0 <= j < i ==> (#[trigger] ls[j]).len() > 0,
        i < ls.len() ==> ls[i].len() == 0,
    ensures
        (forall|j: int| 0 <= j < i ==> !headed(#[trigger] ls[j], "host"@)) ==> header_fields(
            ls,
            Seq::empty(),
            Seq::empty(),
        ).0.len() == 0,
        (forall|j: int| 0 <= j < i ==> !headed(#[trigger] ls[j], "user-agent"@)) ==> header_fields(
            ls,
            Seq::empty(),
            Seq::empty(),
        ).1.len() == 0,
{
    let none = Seq::<char>::empty();
    let rest = ls.skip(i);
    if i < ls.len() {
        assert(rest[0] == ls[i]);
    }
    if forall|j: int| 0 <= j < i ==> !headed(#[trigger] ls[j], "host"@) {
        let u = lemma_no_host(ls, none, none, i);
    }
    if forall|j: int| 0 <= j < i ==> !headed(#[trigger] ls[j], "user-agent"@) {
        let h = lemma_no_agent(ls, none, none, i);
    }
}

/// The lines of a request end in carriage return and line feed, the first is not a header,
/// and a request that tells neither host nor agent tells nothing.
pub proof fn law_request_is_read_by_lines(t: Seq<char>)
    ensures
        ({
            let f = header_fields(parts(t, "\r\n"@).skip(1), Seq::empty(), Seq::empty());
            &&& f.0.len() > 0 || f.1.len() > 0 ==> request_names(t) == Some(f)
            &&& f.0.len() == 0 && f.1.len() == 0 ==> request_names(t) is None
        }),
{
}

// ---------------------------------------------------------------------------
// Fingerprints of connections
// ---------------------------------------------------------------------------

/// The options of a first segment, as they are written.
pub open spec fn option_bytes(l: Seq<Opt>, stamp: Seq<u8>) -> Seq<u8>
    decreases l.len(),
{
    if l.len() == 0 {
        Seq::empty()
    } else {
        (match l[0] {
            Opt::Eol => seq![0u8],
            Opt::Nop => seq![1u8],
            Opt::Mss(n) => seq![2u8, 4u8] + two_bytes(n as int),
            Opt::Ws(n) => seq![3u8, 3u8, n],
            Opt::Sok => seq![4u8, 2u8],
            Opt::Ts => seq![8u8, 10u8] + stamp,
            Opt::Other => seq![254u8, 2u8],
        }) + option_bytes(l.skip(1), stamp)
    }
}

/// The options of a first segment are read back in their order; an end mark ends them.
pub proof fn law_options_read_back(l: Seq<Opt>, stamp: Seq<u8>, pad: Seq<u8>)
    requires
        stamp.len() == 8,
        forall|i: int| 0 <= i < l.len() - 1 ==> !(#[trigger] l[i] is Eol),
        pad.len() > 0 ==> l.len() > 0 && l.last() is Eol,
    ensures
        options(option_bytes(l, stamp) + pad) == l,
    decreases l.len(),
{
    let o = option_bytes(l, stamp) + pad;
    if l.len() == 0 {
        assert(o =~= Seq::<u8>::empty());
        assert(options(o) =~= l);
    } else {
        let rest = l.skip(1);
        let tail = option_bytes(rest, stamp) + pad;
        assert forall|i: int| 0 <= i < rest.len() - 1 implies !(#[trigger] rest[i] is Eol) by {
            assert(rest[i] == l[i + 1]);
        }
        if l.len() > 1 {
            assert(!(l[0] is Eol));
            assert(rest.last() == l.last());
        }
        if !(l[0] is Eol) {
            law_options_read_back(rest, stamp, pad);
        }
        match l[0] {
            Opt::Eol => {
                assert(l.len() == 1);
                assert(options(o) =~= l);
            },
            Opt::Nop => {
                assert(o.skip(1) =~= tail);
                assert(options(o) =~= l);
            },
            Opt::Mss(n) => {
                assert(o.skip(4) =~= tail);
                assert(o.subrange(2, 4) =~= two_bytes(n as int));
                lemma_two_bytes(o, 2, n as int);
                assert(options(o) =~= l);
            },
            Opt::Ws(n) => {
                assert(o.skip(3) =~= tail);
                assert(options(o) =~= l);
            },
            Opt::Sok => {
                assert(o.skip(2) =~= tail);
                assert(options(o) =~= l);
            },
            Opt::Ts => {
                assert(o.skip(10) =~= tail);
                assert(options(o) =~= l);
            },
            Opt::Other => {
                assert(o.skip(2) =~= tail);
                assert(options(o) =~= l);
            },
        }
    }
}

/// The names of options in a fingerprint.
pub open spec fn names_of_options(l: Seq<Opt>) -> Seq<Seq<char>> {
    Seq::new(
        l.len(),
        |i: int|
            match l[i] {
                Opt::Eol => "eol"@,
                Opt::Nop => "nop"@,
                Opt::Mss(_) => "mss"@,
                Opt::Ws(_) => "ws"@,
                Opt::Sok => "sok"@,
                Opt::Ts => "ts"@,
                Opt::Other => "opt"@,
            },
    )
}

/// The fingerprint of a first segment gives, between colons, the hops left, the segment size
/// or 0, the window, the scale of the window or a dash, the options in their order, and how
/// the packet may be fragmented.
pub proof fn law_fingerprint_gives_what_was_sent(
    ttl: u8,
    df: Seq<char>,
    head: Seq<u8>,
    l: Seq<Opt>,
    stamp: Seq<u8>,
    pad: Seq<u8>,
    behind: Seq<u8>,
)
    requires
        head.len() == 20,
        stamp.len() == 8,
        forall|i: int| 0 <= i < l.len() - 1 ==> !(#[trigger] l[i] is Eol),
        pad.len() > 0 ==> l.len() > 0 && l.last() is Eol,
        head[12] / 16 * 4 == 20 + option_bytes(l, stamp).len() + pad.len(),
    ensures
        ({
            let fp = fingerprint(ttl, df, head + option_bytes(l, stamp) + pad + behind);
            &&& fp is Some
            &&& forall|mss: u16, scale: Seq<char>|
                ((forall|i: int| 0 <= i < l.len() ==> !(#[trigger] l[i] is Mss)) && mss == 0 || (
                exists|i: int|
                    0 <= i < l.len() && #[trigger] l[i] == Opt::Mss(mss) && (forall|j: int|
                        i < j < l.len() ==> !(#[trigger] l[j] is Mss)))) && ((forall|i: int|
                    0 <= i < l.len() ==> !(#[trigger] l[i] is Ws)) && scale == "-"@ || (exists|
                    i: int,
                    n: u8,
                |
                    0 <= i < l.len() && #[trigger] l[i] == Opt::Ws(n) && scale == #[trigger] dec(
                        n as nat,
                    ) && n != 255 && (forall|j: int|
                        i < j < l.len() ==> !(#[trigger] l[j] is Ws)))) ==> fp == Some(
                    #[trigger] dec(ttl as nat) + seq![':'] + #[trigger] dec(mss as nat) + seq![':']
                        + dec((head[14] * 256 + head[15]) as nat) + seq![':'] + #[trigger] (scale
                        + Seq::<char>::empty()) + seq![':'] + joined(names_of_options(l), ","@)
                        + seq![':'] + df,
                )
        }),
{
    let o = option_bytes(l, stamp) + pad;
    let tcp = head + option_bytes(l, stamp) + pad + behind;
    law_options_read_back(l, stamp, pad);
    assert(tcp[12] == head[12] && tcp[14] == head[14] && tcp[15] == head[15]);
    assert(tcp.subrange(20, header_len(tcp)) =~= o);
    assert(option_names(l) =~= names_of_options(l));
    assert forall|mss: u16, scale: Seq<char>|
        ((forall|i: int| 0 <= i < l.len() ==> !(#[trigger] l[i] is Mss)) && mss == 0 || (exists|
            i: int,
        |
            0 <= i < l.len() && #[trigger] l[i] == Opt::Mss(mss) && (forall|j: int|
                i < j < l.len() ==> !(#[trigger] l[j] is Mss)))) && ((forall|i: int|
            0 <= i < l.len() ==> !(#[trigger] l[i] is Ws)) && scale == "-"@ || (exists|
            i: int,
            n: u8,
        |
            0 <= i < l.len() && #[trigger] l[i] == Opt::Ws(n) && scale == #[trigger] dec(n as nat)
                && n != 255 && (forall|j: int|
                i < j < l.len() ==> !(#[trigger] l[j] is Ws)))) implies fingerprint(ttl, df, tcp)
        == Some(
        #[trigger] dec(ttl as nat) + seq![':'] + #[trigger] dec(mss as nat) + seq![':'] + dec(
            (head[14] * 256 + head[15]) as nat,
        ) + seq![':'] + #[trigger] (scale + Seq::<char>::empty()) + seq![':'] + joined(
            names_of_options(l),
            ","@,
        ) + seq![':'] + df,
    ) by {
        lemma_segment_size(l, mss);
        if forall|i: int| 0 <= i < l.len() ==> !(#[trigger] l[i] is Ws) {
            lemma_no_scale(l);
        } else {
            let (i, n) = choose|i: int, n: u8|
                0 <= i < l.len() && #[trigger] l[i] == Opt::Ws(n) && scale == #[trigger] dec(
                    n as nat,
                ) && n != 255 && (forall|j: int| i < j < l.len() ==> !(#[trigger] l[j] is Ws));
            lemma_scale(l, i, n);
        }
        assert(scale + Seq::<char>::empty() =~= scale);
    }
}

proof fn lemma_segment_size(l: Seq<Opt>, mss: u16)
    requires
        (forall|i: int| 0 <= i < l.len() ==> !(#[trigger] l[i] is Mss)) && mss == 0 || (exists|
            i: int,
        |
            0 <= i < l.len() && #[trigger] l[i] == Opt::Mss(mss) && (forall|j: int|
                i < j < l.len() ==> !(#[trigger] l[j] is Mss))),
    ensures
        segment_size(l) == mss,
    decreases l.len(),
{
    if l.len() > 0 {
        let front = l.drop_last();
        if forall|i: int| 0 <= i < l.len() ==> !(#[trigger] l[i] is Mss) {
            assert(!(l[l.len() - 1] is Mss));
            assert forall|i: int| 0 <= i < front.len() implies !(#[trigger] front[i] is Mss) by {
                assert(front[i] == l[i]);
            }
            if mss != 0 {
                let i = choose|i: int|
                    0 <= i < l.len() && #[trigger] l[i] == Opt::Mss(mss) && (forall|j: int|
                        i < j < l.len() ==> !(#[trigger] l[j] is Mss));
                assert(l[i] is Mss);
            }
            lemma_segment_size(front, mss);
        } else {
            let i = choose|i: int|
                0 <= i < l.len() && #[trigger] l[i] == Opt::Mss(mss) && (forall|j: int|
                    i < j < l.len() ==> !(#[trigger] l[j] is Mss));
            if i < l.len() - 1 {
                assert(!(l[l.len() - 1] is Mss));
                assert(front[i] == Opt::Mss(mss));
                assert forall|j: int| i < j < front.len() implies !(#[trigger] front[j] is Mss) by {
                    assert(front[j] == l[j]);
                }
                lemma_segment_size(front, mss);
            }
        }
    }
}

proof fn lemma_no_scale(l: Seq<Opt>)
    requires
        forall|i: int| 0 <= i < l.len() ==> !(#[trigger] l[i] is Ws),
    ensures
        window_scale(l) == 255,
    decreases l.len(),
{
    if l.len() > 0 {
        assert(!(l[l.len() - 1] is Ws));
        let front = l.drop_last();
        assert forall|i: int| 0 <= i < front.len() implies !(#[trigger] front[i] is Ws) by {
            assert(front[i] == l[i]);
        }
        lemma_no_scale(front);
    }
}

proof fn lemma_scale(l: Seq<Opt>, i: int, n: u8)
    requires
        0 <= i < l.len(),
        l[i] == Opt::Ws(n),
        forall|j: int| i < j < l.len() ==> !(#[trigger] l[j] is Ws),
    ensures
        window_scale(l) == n,
    decreases l.len(),
{
    if i < l.len() - 1 {
        assert(!(l[l.len() - 1] is Ws));
        let front = l.drop_last();
        assert forall|j: int| i < j < front.len() implies !(#[trigger] front[j] is Ws) by {
            assert(front[j] == l[j]);
        }
        lemma_scale(front, i, n);
    }
}

/// A segment that is cut off or gives a header shorter than the least has no fingerprint.
pub proof fn law_cut_segment_has_no_fingerprint(ttl: u8, df: Seq<char>, tcp: Seq<u8>)
    ensures
        tcp.len() < 20 ==> fingerprint(ttl, df, tcp) is None,
        tcp.len() >= 20 && tcp[12] < 80 ==> fingerprint(ttl, df, tcp) is None,
        tcp.len() >= 20 && tcp[12] / 16 * 4 > tcp.len() ==> fingerprint(ttl, df, tcp) is None,
{
}

// ---------------------------------------------------------------------------
// Frames
// ---------------------------------------------------------------------------

/// The segment in a frame over IPv4 is the one that was put there, up to the length that the
/// packet gives, with the sender, the hops left, and whether it may be fragmented.
pub proof fn law_frame_holds_its_segment(
    link: Seq<u8>,
    head: Seq<u8>,
    tcp: Seq<u8>,
    pad: Seq<u8>,
)
    requires
        link.len() == 12,
        head.len() >= 20,
        head[0] % 16 * 4 == head.len(),
        head[2] * 256 + head[3] == head.len() + tcp.len(),
        tcp.len() >= 20,
    ensures
        segment(link + seq![8u8, 0u8] + head + tcp + pad) == Some(
            Segment {
                src: v4_text(head[12], head[13], head[14], head[15]),
                ttl: head[8],
                df: if head[6] / 64 % 2 == 1 {
                    "df"@
                } else {
                    "-"@
                },
                tcp,
            },
        ),
{
    let frame = link + seq![8u8, 0u8] + head + tcp + pad;
    let ip = frame.skip(14);
    assert(ip =~= head + tcp + pad);
    assert(frame[12] == 8 && frame[13] == 0);
    assert(ip[0] == head[0] && ip[2] == head[2] && ip[3] == head[3] && ip[6] == head[6]);
    assert((head[6] * 256 + head[7]) / 16384 % 2 == head[6] / 64 % 2) by {
        assert((head[6] * 256 + head[7]) / 16384 == head[6] / 64);
    }
    assert(ip.subrange(head.len() as int, head.len() + tcp.len() as int) =~= tcp);
}

/// The segment in a frame over IPv6 is the one that was put there, with the sender and the
/// hops left.
pub proof fn law_frame_holds_its_segment_v6(
    link: Seq<u8>,
    head: Seq<u8>,
    tcp: Seq<u8>,
    pad: Seq<u8>,
)
    requires
        link.len() == 12,
        head.len() == 40,
        head[6] == 6,
        head[4] * 256 + head[5] == tcp.len(),
        tcp.len() >= 20,
    ensures
        segment(link + seq![0x86u8, 0xddu8] + head + tcp + pad) == Some(
            Segment { src: v6_text(head.subrange(8, 24)), ttl: head[7], df: "v6"@, tcp },
        ),
{
    let frame = link + seq![0x86u8, 0xddu8] + head + tcp + pad;
    let ip = frame.skip(14);
    assert(ip =~= head + tcp + pad);
    assert(frame[12] == 0x86 && frame[13] == 0xdd);
    assert(ip.subrange(8, 24) =~= head.subrange(8, 24));
    assert(ip.subrange(40, 40 + tcp.len() as int) =~= tcp);
}

/// Frames of other protocols, and those that are too short, hold no segment.
pub proof fn law_other_frames_hold_none(frame: Seq<u8>)
    ensures
        frame.len() < 34 ==> frame_event(frame) is None,
        frame.len() >= 34 && frame[12] * 256 + frame[13] != 0x0800 && frame[12] * 256 + frame[13]
            != 0x86dd ==> frame_event(frame) is None,
{
}

/// A segment that opens a connection tells its fingerprint; any other tells what its payload
/// tells, which stands behind the header.
pub proof fn law_segment_tells(s: Segment, head: Seq<u8>, payload: Seq<u8>, frame: Seq<u8>)
    requires
        s.tcp == head + payload,
        head.len() >= 20,
        head[12] / 16 * 4 == head.len(),
        segment(frame) == Some(s),
    ensures
        ({
            let syn = head[13] / 2 % 2 == 1;
            let ack = head[13] / 16 % 2 == 1;
            &&& syn && !ack ==> frame_event(frame) == match fingerprint(s.ttl, s.df, s.tcp) {
                Some(fp) => Some(EventView::TcpFp { ip: s.src, fp }),
                None => None,
            }
            &&& !(syn && !ack) && payload.len() > 0 ==> frame_event(frame) == payload_event(
                s.src,
                payload,
            )
            &&& !(syn && !ack) && payload.len() == 0 ==> frame_event(frame) is None
        }),
{
    assert(s.tcp[12] == head[12] && s.tcp[13] == head[13]);
    assert(s.tcp.skip(head.len() as int) =~= payload);
}

/// A payload tells the name of a client of a broker; else the host that a greeting names;
/// else the host and the agent of a request.
pub proof fn law_payload_tells(src: Seq<char>, p: Seq<u8>)
    ensures
        client_of(p) matches Some(id) ==> payload_event(src, p) == Some(
            EventView::Conn { ip: src, host: Seq::empty(), ua: id, via: "mqtt"@ },
        ),
        client_of(p) is None ==> (sni_name(p) matches Some(host) ==> (host.len() > 0
            ==> payload_event(src, p) == Some(
            EventView::Conn { ip: src, host, ua: Seq::empty(), via: "sni"@ },
        )) && (host.len() == 0 ==> payload_event(src, p) is None)),
        client_of(p) is None && sni_name(p) is None ==> (http_names(p) matches Some((host, ua))
            ==> payload_event(src, p) == Some(EventView::Conn { ip: src, host, ua, via: "http"@ })),
        client_of(p) is None && sni_name(p) is None && http_names(p) is None ==> payload_event(
            src,
            p,
        ) is None,
{
}

// ---------------------------------------------------------------------------
// The filter
// ---------------------------------------------------------------------------

/// The instructions of the filter have the numbers under which the kernel knows them.
pub proof fn law_instructions_have_their_numbers()
    ensures
        LD_H_ABS == 0x28 && LD_B_ABS == 0x30 && LD_H_IND == 0x48 && LD_B_IND == 0x50,
        LDX_B_MSH == 0xb1,
        JEQ_K == 0x15 && JSET_K == 0x45 && JGE_K == 0x35,
        RET_K == 0x06,
{
}

/// Whether a segment of a packet of some length is one that tells something: it opens a
/// connection, or it brings data to one of three ports in a packet that is not full.
pub open spec fn worth_reading(tcp: Seq<u8>, len: int, full: int) -> bool {
    let port = tcp[2] * 256 + tcp[3];
    tcp[13] / 2 % 2 == 1 || (tcp[13] / 8 % 2 == 1 && (port == 443 || port == 80 || port == 1883)
        && len < full)
}

/// The filter lets pass whole the frames over IPv4 that tell something, unless they are of
/// another protocol or a later fragment, and no others.
pub proof fn law_filter_passes_telling_frames(
    link: Seq<u8>,
    head: Seq<u8>,
    tcp: Seq<u8>,
    a: u32,
    x: int,
)
    requires
        link.len() == 12,
        head.len() >= 20,
        head[0] % 16 * 4 == head.len(),
        tcp.len() >= 14,
    ensures
        ({
            let passed = run(filter_code(), link + seq![8u8, 0u8] + head + tcp, 0, a, x);
            let telling = head[9] == 6 && (head[6] * 256 + head[7]) % 8192 == 0 && worth_reading(
                tcp,
                head[2] * 256 + head[3],
                1400,
            );
            &&& telling ==> passed == 262144
            &&& !telling ==> passed == 0
        }),
{
    let p = link + seq![8u8, 0u8] + head + tcp;
    law_filter_accepts(p, a, x);
    assert(p[12] == 8 && p[13] == 0);
    assert(p[14] == head[0] && p[16] == head[2] && p[17] == head[3]);
    assert(p[20] == head[6] && p[21] == head[7] && p[23] == head[9]);
    let t = 14 + head.len() as int;
    assert(p[t + 2] == tcp[2] && p[t + 3] == tcp[3] && p[t + 13] == tcp[13]);
}

/// The filter lets pass whole the frames over IPv6 that tell something, unless they are of
/// another protocol, and no others.
pub proof fn law_filter_passes_telling_frames_v6(
    link: Seq<u8>,
    head: Seq<u8>,
    tcp: Seq<u8>,
    a: u32,
    x: int,
)
    requires
        link.len() == 12,
        head.len() == 40,
        tcp.len() >= 14,
    ensures
        ({
            let passed = run(filter_code(), link + seq![0x86u8, 0xddu8] + head + tcp, 0, a, x);
            let telling = head[6] == 6 && worth_reading(tcp, head[4] * 256 + head[5], 1360);
            &&& telling ==> passed == 262144
            &&& !telling ==> passed == 0
        }),
{
    let p = link + seq![0x86u8, 0xddu8] + head + tcp;
    law_filter_accepts(p, a, x);
    assert(p[12] == 0x86 && p[13] == 0xdd);
    assert(p[18] == head[4] && p[19] == head[5] && p[20] == head[6]);
    assert(p[56] == tcp[2] && p[57] == tcp[3] && p[67] == tcp[13]);
}

/// The filter lets no frame of another sort pass.
pub proof fn law_filter_stops_other_frames(p: Seq<u8>, a: u32, x: int)
    ensures
        p.len() < 14 ==> run(filter_code(), p, 0, a, x) == 0,
        p.len() >= 14 && p[12] * 256 + p[13] != 0x0800 && p[12] * 256 + p[13] != 0x86dd ==> run(
            filter_code(),
            p,
            0,
            a,
            x,
        ) == 0,
{
    law_filter_accepts(p, a, x);
}

} // verus!
