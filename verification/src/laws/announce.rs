//! What devices announce of themselves, and what they are asked.

use crate::clients::word_behind;
use crate::discover::{
    address_in, addresses_in, announced, announcement, gathered, inserted, local_name, query_bytes,
    server_from, service_of, strict_octet, strict_v4, with_pair, with_pairs, with_record, FactsView,
};
use crate::dnsmsg::RecordView;
use crate::event::EventView;
use crate::laws::rules::{leads, lemma_leads};
use crate::laws::text::{
    free_of, law_endings_are_cut, law_parting_at_the_first, law_parting_loses_nothing, law_pieces,
};
use crate::num::{dec, law_number_roundtrip, numeral, unsigned};
use crate::text::{
    all_in, before, contains, ends, lemma_find_is, lower, occurs_at, pieces, split_first, starts,
    trimmed, words, Class,
};
use crate::util::domain_normal;
use crate::wire::v4_text;
use vstd::prelude::*;

verus! {

/// Whether a pair of a text record has a key, whatever its case, and a value that says
/// something.
pub open spec fn pair_of(kv: Seq<char>, key: Seq<char>, val: Seq<char>) -> bool {
    val.len() > 0 && exists|k: Seq<char>, v: Seq<char>|
        free_of(k, '=') && #[trigger] (k + seq!['='] + v) == kv && lower(trimmed(k)) == key
            && trimmed(v) == val
}

/// Whether a pair names a model.
pub open spec fn names_model(kv: Seq<char>, val: Seq<char>) -> bool {
    pair_of(kv, "model"@, val) || pair_of(kv, "md"@, val) || pair_of(kv, "ty"@, val) || pair_of(
        kv,
        "am"@,
        val,
    )
}

proof fn lemma_pair(kv: Seq<char>, key: Seq<char>, val: Seq<char>)
    ensures
        pair_of(kv, key, val) <==> (val.len() > 0 && (split_first(kv, '=') matches Some((k, v))
            && lower(trimmed(k)) == key && trimmed(v) == val)),
{
    law_parting_loses_nothing(kv, '=');
    if pair_of(kv, key, val) {
        let (k, v) = choose|k: Seq<char>, v: Seq<char>|
            free_of(k, '=') && #[trigger] (k + seq!['='] + v) == kv && lower(trimmed(k)) == key
                && trimmed(v) == val;
        law_parting_at_the_first(k, '=', v);
    }
}

proof fn lemma_model_step(f: FactsView, kv: Seq<char>, val: Seq<char>)
    ensures
        f.model.len() > 0 ==> with_pair(f, kv).model == f.model,
        f.model.len() == 0 && names_model(kv, val) ==> with_pair(f, kv).model == val,
        f.model.len() == 0 && (forall|w: Seq<char>| !names_model(kv, w)) ==> with_pair(
            f,
            kv,
        ).model.len() == 0,
{
    lemma_pair(kv, "model"@, val);
    lemma_pair(kv, "md"@, val);
    lemma_pair(kv, "ty"@, val);
    lemma_pair(kv, "am"@, val);
    if f.model.len() == 0 && with_pair(f, kv).model.len() > 0 {
        let w = with_pair(f, kv).model;
        lemma_pair(kv, "model"@, w);
        lemma_pair(kv, "md"@, w);
        lemma_pair(kv, "ty"@, w);
        lemma_pair(kv, "am"@, w);
        assert(names_model(kv, w));
    }
}

proof fn lemma_name_step(f: FactsView, kv: Seq<char>, val: Seq<char>)
    ensures
        f.name.len() > 0 ==> with_pair(f, kv).name == f.name,
        f.name.len() == 0 && pair_of(kv, "fn"@, val) ==> with_pair(f, kv).name == val,
        f.name.len() == 0 && (forall|w: Seq<char>| !pair_of(kv, "fn"@, w)) ==> with_pair(
            f,
            kv,
        ).name.len() == 0,
        with_pair(f, kv).services == f.services,
{
    lemma_pair(kv, "fn"@, val);
    if f.name.len() == 0 && with_pair(f, kv).name.len() > 0 {
        let w = with_pair(f, kv).name;
        lemma_pair(kv, "fn"@, w);
        assert(pair_of(kv, "fn"@, w));
    }
}

/// Whether the first of some pairs that names a model names this one.
pub open spec fn first_model(txt: Seq<Seq<char>>, val: Seq<char>) -> bool {
    exists|j: int|
        0 <= j < txt.len() && #[trigger] names_model(txt[j], val) && forall|h: int, w: Seq<char>|
            0 <= h < j ==> !#[trigger] names_model(txt[h], w)
}

/// Whether the first of some pairs that names a device names it so.
pub open spec fn first_named(txt: Seq<Seq<char>>, val: Seq<char>) -> bool {
    exists|j: int|
        0 <= j < txt.len() && #[trigger] pair_of(txt[j], "fn"@, val) && forall|h: int, w: Seq<char>|
            0 <= h < j ==> !#[trigger] pair_of(txt[h], "fn"@, w)
}

proof fn lemma_pairs(f: FactsView, txt: Seq<Seq<char>>, n: int)
    requires
        0 <= n <= txt.len(),
    ensures
        with_pairs(f, txt, n).services == f.services,
        f.model.len() > 0 ==> with_pairs(f, txt, n).model == f.model,
        f.name.len() > 0 ==> with_pairs(f, txt, n).name == f.name,
        f.model.len() == 0 && (forall|h: int, w: Seq<char>|
            0 <= h < n ==> !#[trigger] names_model(txt[h], w)) ==> with_pairs(
            f,
            txt,
            n,
        ).model.len() == 0,
        f.name.len() == 0 && (forall|h: int, w: Seq<char>|
            0 <= h < n ==> !#[trigger] pair_of(txt[h], "fn"@, w)) ==> with_pairs(
            f,
            txt,
            n,
        ).name.len() == 0,
        forall|j: int, val: Seq<char>|
            f.model.len() == 0 && 0 <= j < n && #[trigger] names_model(txt[j], val) && (forall|
                h: int,
                w: Seq<char>,
            |
                0 <= h < j ==> !#[trigger] names_model(txt[h], w)) ==> with_pairs(f, txt, n).model
                == val,
        forall|j: int, val: Seq<char>|
            f.name.len() == 0 && 0 <= j < n && #[trigger] pair_of(txt[j], "fn"@, val) && (forall|
                h: int,
                w: Seq<char>,
            |
                0 <= h < j ==> !#[trigger] pair_of(txt[h], "fn"@, w)) ==> with_pairs(f, txt, n).name
                == val,
    decreases n,
{
    if n > 0 {
        lemma_pairs(f, txt, n - 1);
        let g = with_pairs(f, txt, n - 1);
        lemma_model_step(g, txt[n - 1], Seq::empty());
        lemma_name_step(g, txt[n - 1], Seq::empty());
        assert forall|j: int, val: Seq<char>|
            f.model.len() == 0 && 0 <= j < n && #[trigger] names_model(txt[j], val) && (forall|
                h: int,
                w: Seq<char>,
            |
                0 <= h < j ==> !#[trigger] names_model(txt[h], w)) implies with_pairs(
            f,
            txt,
            n,
        ).model == val by {
            lemma_model_step(g, txt[n - 1], val);
            if j < n - 1 {
                assert(g.model == val);
                assert(val.len() > 0);
            }
        }
        assert forall|j: int, val: Seq<char>|
            f.name.len() == 0 && 0 <= j < n && #[trigger] pair_of(txt[j], "fn"@, val) && (forall|
                h: int,
                w: Seq<char>,
            |
                0 <= h < j ==> !#[trigger] pair_of(txt[h], "fn"@, w)) implies with_pairs(
            f,
            txt,
            n,
        ).name == val by {
            lemma_name_step(g, txt[n - 1], val);
            if j < n - 1 {
                assert(g.name == val);
                assert(val.len() > 0);
            }
        }
    }
}

/// Whether a record names a model: a text record, with its first pair that does.
pub open spec fn tells_model(r: RecordView, val: Seq<char>) -> bool {
    r.rtype == 16 && first_model(r.txt, val)
}

/// Whether a record names a device: one about a service by the host it runs on, a text
/// record by its first pair that does, one about an address by the name it is for.
pub open spec fn tells_name(r: RecordView, val: Seq<char>) -> bool {
    val.len() > 0 && {
        ||| r.rtype == 33 && r.target.len() > 0 && local_name(r.target) == val
        ||| r.rtype == 16 && first_named(r.txt, val)
        ||| r.rtype == 1 && ends(r.name, ".local"@) && local_name(r.name) == val
    }
}

/// Whether a record offers a service.
pub open spec fn offers(r: RecordView, s: Seq<char>) -> bool {
    ||| r.rtype == 12 && starts(r.name, "_"@) && !starts(r.name, "_services."@) && s == local_name(
        r.name,
    )
    ||| r.rtype == 33 && service_of(r.name) == Some(s)
}

proof fn lemma_no_first_model(txt: Seq<Seq<char>>)
    requires
        forall|w: Seq<char>| !first_model(txt, w),
    ensures
        forall|h: int, w: Seq<char>| 0 <= h < txt.len() ==> !#[trigger] names_model(txt[h], w),
{
    assert forall|h: int, w: Seq<char>| 0 <= h < txt.len() implies !#[trigger] names_model(
        txt[h],
        w,
    ) by {
        lemma_least_model(txt, h);
    }
}

proof fn lemma_least_model(txt: Seq<Seq<char>>, h: int)
    requires
        0 <= h < txt.len(),
        forall|w: Seq<char>| !first_model(txt, w),
    ensures
        forall|w: Seq<char>| !names_model(txt[h], w),
    decreases h,
{
    assert forall|g: int, w: Seq<char>| 0 <= g < h implies !#[trigger] names_model(txt[g], w) by {
        lemma_least_model(txt, g);
    }
    assert forall|w: Seq<char>| !names_model(txt[h], w) by {
        if names_model(txt[h], w) {
            assert(first_model(txt, w));
        }
    }
}

proof fn lemma_least_named(txt: Seq<Seq<char>>, h: int)
    requires
        0 <= h < txt.len(),
        forall|w: Seq<char>| !first_named(txt, w),
    ensures
        forall|w: Seq<char>| !pair_of(txt[h], "fn"@, w),
    decreases h,
{
    assert forall|g: int, w: Seq<char>| 0 <= g < h implies !#[trigger] pair_of(
        txt[g],
        "fn"@,
        w,
    ) by {
        lemma_least_named(txt, g);
    }
    assert forall|w: Seq<char>| !pair_of(txt[h], "fn"@, w) by {
        if pair_of(txt[h], "fn"@, w) {
            assert(first_named(txt, w));
        }
    }
}

proof fn lemma_record(f: FactsView, r: RecordView)
    ensures
        f.model.len() > 0 ==> with_record(f, r).model == f.model,
        f.model.len() == 0 && (forall|w: Seq<char>| !tells_model(r, w)) ==> with_record(
            f,
            r,
        ).model.len() == 0,
        forall|val: Seq<char>|
            f.model.len() == 0 && #[trigger] tells_model(r, val) ==> with_record(f, r).model == val
                && val.len() > 0,
        f.name.len() > 0 ==> with_record(f, r).name == f.name,
        f.name.len() == 0 && (forall|w: Seq<char>| !tells_name(r, w)) ==> with_record(
            f,
            r,
        ).name.len() == 0,
        forall|val: Seq<char>|
            f.name.len() == 0 && #[trigger] tells_name(r, val) ==> with_record(f, r).name == val,
        forall|s: Seq<char>| #[trigger]
            with_record(f, r).services.contains(s) <==> f.services.contains(s) || offers(r, s),
        f.services.no_duplicates() ==> with_record(f, r).services.no_duplicates(),
{
    let g = with_record(f, r);
    lemma_pairs(f, r.txt, r.txt.len() as int);
    if f.model.len() == 0 && r.rtype == 16 && (forall|w: Seq<char>| !tells_model(r, w)) {
        assert forall|w: Seq<char>| !first_model(r.txt, w) by {
            assert(!tells_model(r, w));
        }
        lemma_no_first_model(r.txt);
    }
    assert forall|val: Seq<char>| f.model.len() == 0 && #[trigger] tells_model(r, val) implies
        g.model == val && val.len() > 0 by {
        let j = choose|j: int|
            0 <= j < r.txt.len() && #[trigger] names_model(r.txt[j], val) && forall|
                h: int,
                w: Seq<char>,
            |
                0 <= h < j ==> !#[trigger] names_model(r.txt[h], w);
        assert(names_model(r.txt[j], val));
    }
    if f.name.len() == 0 && (forall|w: Seq<char>| !tells_name(r, w)) && g.name.len() > 0 {
        assert(!tells_name(r, g.name));
        if r.rtype == 16 {
            assert forall|w: Seq<char>| !first_named(r.txt, w) by {
                if first_named(r.txt, w) {
                    let j = choose|j: int|
                        0 <= j < r.txt.len() && #[trigger] pair_of(r.txt[j], "fn"@, w) && forall|
                            h: int,
                            u: Seq<char>,
                        |
                            0 <= h < j ==> !#[trigger] pair_of(r.txt[h], "fn"@, u);
                    assert(w.len() > 0);
                    assert(tells_name(r, w));
                }
            }
            assert forall|h: int, w: Seq<char>|
                0 <= h < r.txt.len() implies !#[trigger] pair_of(r.txt[h], "fn"@, w) by {
                lemma_least_named(r.txt, h);
            }
        }
    }
    assert forall|val: Seq<char>| f.name.len() == 0 && #[trigger] tells_name(r, val) implies g.name
        == val by {
        if r.rtype == 16 {
            let j = choose|j: int|
                0 <= j < r.txt.len() && #[trigger] pair_of(r.txt[j], "fn"@, val) && forall|
                    h: int,
                    w: Seq<char>,
                |
                    0 <= h < j ==> !#[trigger] pair_of(r.txt[h], "fn"@, w);
            assert(pair_of(r.txt[j], "fn"@, val));
        }
    }
    assert forall|s: Seq<char>| #[trigger] g.services.contains(s) <==> f.services.contains(s)
        || offers(r, s) by {
        let more = if r.rtype == 12 {
            Some(local_name(r.name))
        } else {
            service_of(r.name)
        };
        if g.services != f.services {
            let x = more.unwrap();
            assert(g.services == f.services.push(x));
            if f.services.contains(s) {
                let i = choose|i: int| 0 <= i < f.services.len() && f.services[i] == s;
                assert(g.services[i] == s);
            }
            if s == x {
                assert(g.services.last() == s);
            }
        }
    }
}

proof fn lemma_gathered(rs: Seq<RecordView>, n: int)
    requires
        0 <= n <= rs.len(),
    ensures
        (forall|h: int, w: Seq<char>| 0 <= h < n ==> !#[trigger] tells_model(rs[h], w))
            ==> gathered(rs, n).model.len() == 0,
        (forall|h: int, w: Seq<char>| 0 <= h < n ==> !#[trigger] tells_name(rs[h], w)) ==> gathered(
            rs,
            n,
        ).name.len() == 0,
        forall|i: int, val: Seq<char>|
            0 <= i < n && #[trigger] tells_model(rs[i], val) && (forall|h: int, w: Seq<char>|
                0 <= h < i ==> !#[trigger] tells_model(rs[h], w)) ==> gathered(rs, n).model == val
                && val.len() > 0,
        forall|i: int, val: Seq<char>|
            0 <= i < n && #[trigger] tells_name(rs[i], val) && (forall|h: int, w: Seq<char>|
                0 <= h < i ==> !#[trigger] tells_name(rs[h], w)) ==> gathered(rs, n).name == val,
        forall|s: Seq<char>| #[trigger]
            gathered(rs, n).services.contains(s) <==> exists|i: int|
                0 <= i < n && offers(#[trigger] rs[i], s),
        gathered(rs, n).services.no_duplicates(),
    decreases n,
{
    if n > 0 {
        lemma_gathered(rs, n - 1);
        let f = gathered(rs, n - 1);
        let r = rs[n - 1];
        lemma_record(f, r);
        if forall|h: int, w: Seq<char>| 0 <= h < n ==> !#[trigger] tells_model(rs[h], w) {
            assert forall|w: Seq<char>| !tells_model(r, w) by {
                assert(!tells_model(rs[n - 1], w));
            }
        }
        if forall|h: int, w: Seq<char>| 0 <= h < n ==> !#[trigger] tells_name(rs[h], w) {
            assert forall|w: Seq<char>| !tells_name(r, w) by {
                assert(!tells_name(rs[n - 1], w));
            }
        }
        assert forall|i: int, val: Seq<char>|
            0 <= i < n && #[trigger] tells_model(rs[i], val) && (forall|h: int, w: Seq<char>|
                0 <= h < i ==> !#[trigger] tells_model(rs[h], w)) implies gathered(rs, n).model
            == val && val.len() > 0 by {
            if i == n - 1 {
                assert(f.model.len() == 0);
            } else {
                assert(f.model == val);
            }
        }
        assert forall|i: int, val: Seq<char>|
            0 <= i < n && #[trigger] tells_name(rs[i], val) && (forall|h: int, w: Seq<char>|
                0 <= h < i ==> !#[trigger] tells_name(rs[h], w)) implies gathered(rs, n).name
            == val by {
            if i == n - 1 {
                assert(f.name.len() == 0);
            } else {
                assert(f.name == val);
            }
        }
        assert forall|s: Seq<char>| #[trigger]
            gathered(rs, n).services.contains(s) <==> exists|i: int|
                0 <= i < n && offers(#[trigger] rs[i], s) by {
            if f.services.contains(s) {
                let i = choose|i: int| 0 <= i < n - 1 && offers(#[trigger] rs[i], s);
                assert(offers(rs[i], s));
            }
            if offers(r, s) {
                assert(offers(rs[n - 1], s));
            }
            if exists|i: int| 0 <= i < n && offers(#[trigger] rs[i], s) {
                let i = choose|i: int| 0 <= i < n && offers(#[trigger] rs[i], s);
                if i < n - 1 {
                    assert(f.services.contains(s));
                }
            }
        }
    }
}

/// The model of a device is the value of the first pair in its text records whose key is
/// `model`, `md`, `ty` or `am`; without one it has none.
pub proof fn law_model_is_the_first_announced(rs: Seq<RecordView>, i: int, val: Seq<char>)
    ensures
        0 <= i < rs.len() && tells_model(rs[i], val) && (forall|h: int, w: Seq<char>|
            0 <= h < i ==> !#[trigger] tells_model(rs[h], w)) ==> announced(rs).model == val,
        (forall|h: int, w: Seq<char>| 0 <= h < rs.len() ==> !#[trigger] tells_model(rs[h], w))
            ==> announced(rs).model.len() == 0,
{
    lemma_gathered(rs, rs.len() as int);
}

/// The name of a device is that of the first record that names it, in normal form; without
/// one it has none.
pub proof fn law_name_is_the_first_announced(rs: Seq<RecordView>, i: int, val: Seq<char>)
    ensures
        0 <= i < rs.len() && tells_name(rs[i], val) && (forall|h: int, w: Seq<char>|
            0 <= h < i ==> !#[trigger] tells_name(rs[h], w)) ==> announced(rs).name
            == domain_normal(val),
        (forall|h: int, w: Seq<char>| 0 <= h < rs.len() ==> !#[trigger] tells_name(rs[h], w))
            ==> announced(rs).name.len() == 0,
{
    lemma_gathered(rs, rs.len() as int);
}

/// The services of a device are those that its records offer, each once.
pub proof fn law_services_are_those_offered(rs: Seq<RecordView>, s: Seq<char>)
    ensures
        announced(rs).services.contains(s) <==> exists|i: int|
            0 <= i < rs.len() && offers(#[trigger] rs[i], s),
        announced(rs).services.no_duplicates(),
{
    lemma_gathered(rs, rs.len() as int);
}

/// The name of an instance of a service is cut in front of the service, which begins with an
/// underscore; what is no name of a service offers none.
pub proof fn law_service_of_an_instance(inst: Seq<char>, rest: Seq<char>)
    requires
        forall|h: int| 0 <= h < inst.len() ==> !occurs_at(inst + "._"@ + rest, "._"@, h),
    ensures
        ({
            let name = inst + "._"@ + rest;
            let s = local_name(seq!['_'] + rest);
            let known = starts(name, "_"@) || contains(name, "._tcp"@) || contains(name, "._udp"@);
            &&& known && s.len() > 0 ==> service_of(name) == Some(s)
            &&& !known || s.len() == 0 ==> service_of(name) is None
        }),
{
    let name = inst + "._"@ + rest;
    reveal_strlit("._");
    assert(name.subrange(inst.len() as int, inst.len() as int + 2) =~= "._"@);
    lemma_find_is(name, "._"@, inst.len() as int);
    assert(name.skip(inst.len() as int + 1) =~= seq!['_'] + rest);
}

/// The domain of the local network is not part of a name.
pub proof fn law_local_domain_is_left_out(n: Seq<char>)
    ensures
        local_name(n + ".local"@) == local_name(n),
        !ends(n, ".local"@) ==> local_name(n) == n,
{
    reveal_strlit(".local");
    law_endings_are_cut(n, ".local"@);
}

/// An announcement that tells something is reported with all it tells, one that tells nothing
/// is not.
pub proof fn law_announcement_is_reported(ip: Seq<char>, f: FactsView)
    ensures
        f.name.len() + f.model.len() + f.services.len() > 0 ==> announcement(ip, f) == Some(
            EventView::Mdns { ip, name: f.name, model: f.model, services: f.services },
        ),
        f.name.len() + f.model.len() + f.services.len() == 0 ==> announcement(ip, f) is None,
{
}

/// Whether a line tells the server of a device.
pub open spec fn tells_server(line: Seq<char>) -> bool {
    leads(lower(line), "server:"@) || leads(lower(line), "user-agent:"@)
}

/// The server of a device is what stands behind the colon of the first line that tells it;
/// where that is nothing, or there is no such line, there is none.
pub proof fn law_server_is_the_first_told(ls: Seq<Seq<char>>, i: int)
    requires
        0 <= i < ls.len(),
        forall|j: int| 0 <= j < i ==> !tells_server(#[trigger] ls[j]),
    ensures
        tells_server(ls[i]) ==> match split_first(ls[i], ':') {
            Some((_, v)) => if trimmed(v).len() > 0 {
                server_from(ls, 0) == Some(trimmed(v))
            } else {
                server_from(ls, 0) is None
            },
            None => server_from(ls, 0) is None,
        },
        i == ls.len() - 1 && !tells_server(ls[i]) ==> server_from(ls, 0) is None,
{
    lemma_server(ls, 0, i);
    reveal_with_fuel(server_from, 2);
    lemma_leads(lower(ls[i]), "server:"@);
    lemma_leads(lower(ls[i]), "user-agent:"@);
}

proof fn lemma_server(ls: Seq<Seq<char>>, from: int, i: int)
    requires
        0 <= from <= i < ls.len(),
        forall|j: int| from <= j < i ==> !tells_server(#[trigger] ls[j]),
    ensures
        server_from(ls, from) == server_from(ls, i),
    decreases i - from,
{
    if from < i {
        lemma_leads(lower(ls[from]), "server:"@);
        lemma_leads(lower(ls[from]), "user-agent:"@);
        assert(!tells_server(ls[from]));
        lemma_server(ls, from + 1, i);
    }
}

/// An address is read back as it was written.
pub proof fn law_written_address_is_read(a: u8, b: u8, c: u8, d: u8)
    ensures
        strict_v4(v4_text(a, b, c, d)) == Some(
            (a * 0x100_0000 + b * 0x1_0000 + c * 0x100 + d) as u32,
        ),
{
    lemma_octet(a);
    lemma_octet(b);
    lemma_octet(c);
    lemma_octet(d);
    let ta = dec(a as nat);
    let tb = dec(b as nat);
    let tc = dec(c as nat);
    let td = dec(d as nat);
    let r3 = tc + seq!['.'] + td;
    let r2 = tb + seq!['.'] + r3;
    assert(v4_text(a, b, c, d) =~= ta + seq!['.'] + r2);
    law_pieces(ta, '.', r2);
    law_pieces(tb, '.', r3);
    law_pieces(tc, '.', td);
    law_pieces(td, '.', td);
    let p = pieces(v4_text(a, b, c, d), '.');
    assert(p =~= seq![ta, tb, tc, td]);
}

pub proof fn lemma_octet(a: u8)
    ensures
        free_of(dec(a as nat), '.'),
        strict_octet(dec(a as nat)),
        unsigned(dec(a as nat), 10, 255) == Some(a as nat),
{
    let n = a as nat;
    law_number_roundtrip(n, 10, 255);
    reveal_with_fuel(numeral, 4);
    let s = dec(n);
    assert(1 <= s.len() <= 3);
    assert forall|i: int| 0 <= i < s.len() implies '0' <= #[trigger] s[i] <= '9' by {}
    assert(all_in(s, Class::Digit));
    if s.len() > 1 {
        assert(n >= 10);
        assert(s[0] != '0');
    }
}

/// The own addresses are those in the lines that give one behind the word `inet`, but for
/// the ones of the machine itself; each once, in their order.
pub proof fn law_own_addresses(ls: Seq<Seq<char>>, n: int, a: u32)
    requires
        0 <= n <= ls.len(),
    ensures
        addresses_in(ls, n).contains(a) <==> a / 0x100_0000 != 127 && exists|i: int|
            0 <= i < n && (word_behind(words(#[trigger] ls[i]), "inet"@) matches Some(w)
                && strict_v4(before(w, '/')) == Some(a)),
        forall|i: int, j: int|
            0 <= i < j < addresses_in(ls, n).len() ==> #[trigger] addresses_in(ls, n)[i]
                < #[trigger] addresses_in(ls, n)[j],
    decreases n,
{
    if n > 0 {
        law_own_addresses(ls, n - 1, a);
        let v = addresses_in(ls, n - 1);
        match address_in(ls[n - 1]) {
            Some(x) => {
                lemma_inserted(v, x, a);
                if x == a {
                    assert(word_behind(words(ls[n - 1]), "inet"@) is Some);
                }
            },
            None => {},
        }
        if v.contains(a) {
            let i = choose|i: int|
                0 <= i < n - 1 && (word_behind(words(#[trigger] ls[i]), "inet"@) matches Some(w)
                    && strict_v4(before(w, '/')) == Some(a));
            assert(word_behind(words(ls[i]), "inet"@) is Some);
        }
    }
}

proof fn lemma_inserted(v: Seq<u32>, x: u32, a: u32)
    requires
        forall|i: int, j: int| 0 <= i < j < v.len() ==> #[trigger] v[i] < #[trigger] v[j],
    ensures
        inserted(v, x).contains(a) <==> v.contains(a) || a == x,
        forall|i: int, j: int|
            0 <= i < j < inserted(v, x).len() ==> #[trigger] inserted(v, x)[i]
                < #[trigger] inserted(v, x)[j],
        forall|i: int|
            0 <= i < inserted(v, x).len() ==> #[trigger] inserted(v, x)[i] == x || v.contains(
                inserted(v, x)[i],
            ),
    decreases v.len(),
{
    let w = inserted(v, x);
    if v.len() == 0 || v.last() < x {
        assert(w == v.push(x));
        assert(w.last() == x);
        if v.contains(a) {
            let i = choose|i: int| 0 <= i < v.len() && v[i] == a;
            assert(w[i] == a);
        }
        assert forall|i: int| 0 <= i < w.len() implies #[trigger] w[i] == x || v.contains(w[i]) by {
            if i < v.len() {
                assert(w[i] == v[i]);
            }
        }
    } else if v.last() == x {
        assert(v[v.len() - 1] == x);
        assert(v.contains(x));
    } else {
        let f = v.drop_last();
        lemma_inserted(f, x, a);
        let g = inserted(f, x);
        assert(w == g.push(v.last()));
        assert forall|i: int| 0 <= i < g.len() implies #[trigger] g[i] < v.last() by {
            if g[i] != x {
                let k = choose|k: int| 0 <= k < f.len() && f[k] == g[i];
                assert(v[k] == f[k]);
                assert(v[k] < v[v.len() - 1]);
            }
        }
        if v.contains(a) {
            let i = choose|i: int| 0 <= i < v.len() && v[i] == a;
            if i < f.len() {
                assert(f[i] == a);
                let k = choose|k: int| 0 <= k < g.len() && g[k] == a;
                assert(w[k] == a);
            } else {
                assert(w.last() == a);
            }
        }
        if a == x {
            let k = choose|k: int| 0 <= k < g.len() && g[k] == a;
            assert(w[k] == a);
        }
        assert forall|i: int| 0 <= i < w.len() implies #[trigger] w[i] == x || v.contains(w[i]) by {
            if i < g.len() {
                assert(w[i] == g[i]);
                if g[i] != x {
                    let k = choose|k: int| 0 <= k < f.len() && f[k] == g[i];
                    assert(v[k] == g[i]);
                }
            } else {
                assert(w[i] == v[v.len() - 1]);
            }
        }
        if w.contains(a) {
            let i = choose|i: int| 0 <= i < w.len() && w[i] == a;
            assert(w[i] == x || v.contains(w[i]));
        }
    }
}

/// A query asks one question, for pointers in the class of the net, and nothing else.
pub proof fn law_query_asks_for_pointers(qname: Seq<char>)
    ensures
        ({
            let q = query_bytes(qname);
            let n = q.len();
            &&& n >= 17
            &&& q[4] == 0 && q[5] == 1
            &&& q[0] == 0 && q[1] == 0 && q[2] == 0 && q[3] == 0
            &&& q[6] == 0 && q[7] == 0 && q[8] == 0 && q[9] == 0 && q[10] == 0 && q[11] == 0
            &&& q[n - 5] == 0
            &&& q[n - 4] == 0 && q[n - 3] == 12
            &&& q[n - 2] == 0 && q[n - 1] == 1
        }),
{
}

} // verus!
