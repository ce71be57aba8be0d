//! When a rule fits, and which of the rules that fit is taken.

use crate::names::{lookup, lookup_or};
use crate::rules::{
    behavioural, common, dns_match, dns_named, first_hit, hits, list_match, nearest, pattern_match,
    peer_match, peer_named, port_match, query_hit, rule_label, stack_hit, suffix_match,
    suffix_place, text_hit, under, DnsRule, PeerRule, PortRule, Rules, Shape, StackRule, TextRule,
};
use crate::text::{
    contains, ends, in_class, lead, lemma_lead, lower, occurs_at, split_first, starts, Class,
};
use crate::util::domain_normal;
use vstd::prelude::*;
use vstd::utf8::encode_utf8;

verus! {

/// Whether a text begins with another.
pub open spec fn leads(s: Seq<char>, p: Seq<char>) -> bool {
    exists|rest: Seq<char>| #[trigger] (p + rest) == s
}

/// Whether a text stands somewhere in another.
pub open spec fn inside(s: Seq<char>, p: Seq<char>) -> bool {
    exists|a: Seq<char>, b: Seq<char>| #[trigger] (a + p + b) == s
}

/// Whether a name is another one or lies below it.
pub open spec fn below(name: Seq<char>, end: Seq<char>) -> bool {
    name == end || exists|a: Seq<char>| #[trigger] (a + seq!['.'] + end) == name
}

pub proof fn lemma_leads(s: Seq<char>, p: Seq<char>)
    ensures
        starts(s, p) <==> leads(s, p),
{
    if starts(s, p) {
        assert(p + s.skip(p.len() as int) =~= s);
    }
    if leads(s, p) {
        let rest = choose|rest: Seq<char>| #[trigger] (p + rest) == s;
        assert(s.subrange(0, p.len() as int) =~= p);
    }
}

pub proof fn lemma_inside(s: Seq<char>, p: Seq<char>)
    ensures
        contains(s, p) <==> inside(s, p),
{
    if contains(s, p) {
        let i = choose|i: int| occurs_at(s, p, i);
        assert(s.take(i) + p + s.skip(i + p.len()) =~= s);
    }
    if inside(s, p) {
        let (a, b) = choose|a: Seq<char>, b: Seq<char>| #[trigger] (a + p + b) == s;
        let i = a.len() as int;
        assert(s.subrange(i, i + p.len()) =~= p);
        assert(occurs_at(s, p, i));
    }
}

proof fn lemma_below(name: Seq<char>, end: Seq<char>)
    ensures
        under(end, name) <==> below(name, end),
{
    let at = name.len() - end.len();
    if under(end, name) && name != end {
        assert(name.subrange(at, at + end.len()) == end);
        assert(name.take(at - 1) + seq!['.'] + end =~= name) by {
            assert forall|i: int| at <= i < name.len() implies name[i] == end[i - at] by {
                assert(name.subrange(at, at + end.len())[i - at] == name[i]);
            }
        }
    }
    if below(name, end) && name != end {
        let a = choose|a: Seq<char>| #[trigger] (a + seq!['.'] + end) == name;
        assert(name.subrange(at, at + end.len()) =~= end);
        assert(name[at - 1] == '.');
        assert(ends(name, end));
    }
}

/// A rule about a text fits the texts that begin with its value, are its value, or hold it,
/// as its mode says; the case of letters does not matter.
pub proof fn law_text_rule_fits(r: TextRule, hay: Seq<char>)
    ensures
        r.mode@ == "prefix"@ ==> (text_hit(r, hay) <==> leads(lower(hay), lower(r.value@))),
        r.mode@ == "exact"@ ==> (text_hit(r, hay) <==> lower(hay) == lower(r.value@)),
        r.mode@ != "prefix"@ && r.mode@ != "exact"@ ==> (text_hit(r, hay) <==> inside(
            lower(hay),
            lower(r.value@),
        )),
        lower(hay).len() == hay.len(),
        forall|i: int|
            0 <= i < hay.len() ==> #[trigger] lower(hay)[i] == if 'A' <= hay[i] <= 'Z' {
                (hay[i] as u32 + 32) as char
            } else {
                hay[i]
            },
{
    lemma_leads(lower(hay), lower(r.value@));
    lemma_inside(lower(hay), lower(r.value@));
    reveal_strlit("prefix");
    reveal_strlit("exact");
    assert("prefix"@.len() != "exact"@.len());
}

/// Of the rules about a text, the first that fits is taken.
pub proof fn law_first_fitting_text_rule(rs: Seq<TextRule>, hay: Seq<char>)
    ensures
        forall|i: int|
            0 <= i < rs.len() && text_hit(#[trigger] rs[i], hay) && (forall|j: int|
                0 <= j < i ==> !text_hit(#[trigger] rs[j], hay)) ==> first_hit(rs, hay) == Some(
                rs[i],
            ),
        (forall|j: int| 0 <= j < rs.len() ==> !text_hit(#[trigger] rs[j], hay)) ==> first_hit(
            rs,
            hay,
        ) is None,
    decreases rs.len(),
{
    if rs.len() > 0 {
        let rest = rs.skip(1);
        law_first_fitting_text_rule(rest, hay);
        assert forall|i: int|
            0 <= i < rs.len() && text_hit(#[trigger] rs[i], hay) && (forall|j: int|
                0 <= j < i ==> !text_hit(#[trigger] rs[j], hay)) implies first_hit(rs, hay)
            == Some(rs[i]) by {
            if i > 0 {
                assert(!text_hit(rs[0], hay));
                assert(rest[i - 1] == rs[i]);
                assert forall|j: int| 0 <= j < i - 1 implies !text_hit(#[trigger] rest[j], hay) by {
                    assert(rest[j] == rs[j + 1]);
                }
            }
        }
        if forall|j: int| 0 <= j < rs.len() ==> !text_hit(#[trigger] rs[j], hay) {
            assert(!text_hit(rs[0], hay));
            assert forall|j: int| 0 <= j < rest.len() implies !text_hit(
                #[trigger] rest[j],
                hay,
            ) by {
                assert(rest[j] == rs[j + 1]);
            }
        }
    }
}

/// Where all rules that fit a text are taken, these are the rules that fit, each as often
/// as it is there.
pub proof fn law_all_fitting_text_rules(rs: Seq<TextRule>, hay: Seq<char>)
    ensures
        forall|r: TextRule|
            #![trigger hits(rs, hay).to_multiset().count(r)]
            hits(rs, hay).to_multiset().count(r) == if text_hit(r, hay) {
                rs.to_multiset().count(r)
            } else {
                0
            },
    decreases rs.len(),
{
    reveal(Seq::filter);
    if rs.len() > 0 {
        let p = |r: TextRule| text_hit(r, hay);
        let front = rs.drop_last();
        law_all_fitting_text_rules(front, hay);
        assert(front.push(rs.last()) =~= rs);
        front.to_multiset_ensures();
        hits(front, hay).to_multiset_ensures();
        if text_hit(rs.last(), hay) {
            assert(hits(rs, hay) == hits(front, hay).push(rs.last()));
        } else {
            assert(hits(rs, hay) == hits(front, hay));
        }
    } else {
        assert(hits(rs, hay) =~= Seq::<TextRule>::empty());
        rs.to_multiset_ensures();
        hits(rs, hay).to_multiset_ensures();
        assert forall|r: TextRule| hits(rs, hay).to_multiset().count(r) == 0 by {
            assert(!hits(rs, hay).contains(r));
        }
    }
}

/// Whether a query meets every condition that a rule states, of which at least one is about
/// the name.
pub open spec fn meets(r: DnsRule, domain: Seq<char>, qtype: Seq<char>) -> bool {
    &&& r.qtype@.len() == 0 || lower(r.qtype@) == lower(qtype)
    &&& r.contains@.len() == 0 || inside(domain, r.contains@)
    &&& r.prefix@.len() == 0 || leads(domain, r.prefix@)
    &&& r.suffix@.len() == 0 || below(domain, r.suffix@)
    &&& r.contains@.len() + r.prefix@.len() + r.suffix@.len() > 0
}

/// Whether a rule states an ending and nothing else.
pub open spec fn only_ends(r: DnsRule) -> bool {
    r.contains@.len() == 0 && r.prefix@.len() == 0 && r.qtype@.len() == 0
}

proof fn lemma_meets(r: DnsRule, domain: Seq<char>, qtype: Seq<char>)
    ensures
        query_hit(r, domain, qtype) <==> meets(r, domain, qtype),
        behavioural(r) <==> !only_ends(r),
{
    lemma_inside(domain, r.contains@);
    lemma_leads(domain, r.prefix@);
    lemma_below(domain, r.suffix@);
}

proof fn lemma_pattern_is(
    rs: Seq<DnsRule>,
    domain: Seq<char>,
    qtype: Seq<char>,
    from: int,
    at: int,
)
    requires
        0 <= from <= at <= rs.len(),
        forall|j: int|
            from <= j < at ==> only_ends(#[trigger] rs[j]) || !meets(rs[j], domain, qtype),
        at < rs.len() ==> !only_ends(rs[at]) && meets(rs[at], domain, qtype),
    ensures
        pattern_match(rs, domain, qtype, from) == if at < rs.len() {
            Some(rs[at])
        } else {
            None
        },
    decreases at - from,
{
    if from < rs.len() {
        lemma_meets(rs[from], domain, qtype);
        if from < at {
            assert(only_ends(rs[from]) || !meets(rs[from], domain, qtype));
            lemma_pattern_is(rs, domain, qtype, from + 1, at);
        }
    }
}

/// A rule that tests more than an ending goes before those that test nothing else: the first
/// of them of which the query meets every condition is taken.
pub proof fn law_pattern_is_taken(rs: Seq<DnsRule>, domain: Seq<char>, qtype: Seq<char>, i: int)
    requires
        0 <= i < rs.len(),
        !only_ends(rs[i]),
        meets(rs[i], domain, qtype),
        forall|j: int| 0 <= j < i ==> only_ends(#[trigger] rs[j]) || !meets(rs[j], domain, qtype),
    ensures
        dns_match(rs, domain, qtype) == Some(rs[i]),
{
    lemma_pattern_is(rs, domain, qtype, 0, i);
}

proof fn lemma_place_is(rs: Seq<DnsRule>, key: Seq<char>, n: int)
    requires
        0 <= n <= rs.len() <= usize::MAX,
    ensures
        suffix_place(rs, key, n) matches Some(p) ==> 0 <= p < n && only_ends(rs[p as int])
            && domain_normal(rs[p as int].suffix@) == key && (forall|j: int|
            0 <= j < p ==> !only_ends(#[trigger] rs[j]) || domain_normal(rs[j].suffix@) != key),
        suffix_place(rs, key, n) is None ==> (forall|j: int|
            0 <= j < n ==> !only_ends(#[trigger] rs[j]) || domain_normal(rs[j].suffix@) != key),
    decreases n,
{
    if n > 0 {
        lemma_place_is(rs, key, n - 1);
        lemma_meets(rs[n - 1], key, key);
    }
}

proof fn lemma_below_tail(domain: Seq<char>, key: Seq<char>)
    ensures
        match split_first(domain, '.') {
            Some((_, t)) => t.len() < domain.len() && (below(domain, key) <==> domain == key
                || below(t, key)),
            None => below(domain, key) <==> domain == key,
        },
{
    let k = Class::IsNot('.');
    let n = lead(domain, k) as int;
    lemma_lead(domain, k);
    if split_first(domain, '.') is Some {
        let t = domain.skip(n + 1);
        let h = domain.take(n + 1);
        assert(domain[n] == '.');
        assert(h + t =~= domain);
        if below(t, key) {
            if t == key {
                assert(domain.take(n) + seq!['.'] + key =~= domain);
            } else {
                let a = choose|a: Seq<char>| #[trigger] (a + seq!['.'] + key) == t;
                assert((h + a) + seq!['.'] + key =~= domain);
            }
        }
        if below(domain, key) && domain != key {
            let a = choose|a: Seq<char>| #[trigger] (a + seq!['.'] + key) == domain;
            assert(domain[a.len() as int] == '.');
            if a.len() < n {
                assert(in_class(k, domain[a.len() as int]));
            }
            if a.len() == n {
                assert(t =~= key);
            } else {
                assert(a.skip(n + 1) + seq!['.'] + key =~= t);
            }
        }
    } else if below(domain, key) && domain != key {
        let a = choose|a: Seq<char>| #[trigger] (a + seq!['.'] + key) == domain;
        assert(domain[a.len() as int] == '.');
        assert(in_class(k, domain[a.len() as int]));
    }
}

proof fn lemma_below_longest(domain: Seq<char>, key: Seq<char>)
    ensures
        below(domain, key) ==> key.len() <= domain.len(),
        below(domain, key) && key.len() == domain.len() ==> key == domain,
{
    if below(domain, key) && domain != key {
        let a = choose|a: Seq<char>| #[trigger] (a + seq!['.'] + key) == domain;
        assert(domain.len() == a.len() + 1 + key.len());
    }
}

proof fn lemma_ending_is(rs: Seq<DnsRule>, domain: Seq<char>, i: int)
    requires
        0 <= i < rs.len() <= usize::MAX,
        only_ends(rs[i]),
        below(domain, domain_normal(rs[i].suffix@)),
        forall|j: int|
            0 <= j < rs.len() && only_ends(#[trigger] rs[j]) && below(
                domain,
                domain_normal(rs[j].suffix@),
            ) ==> domain_normal(rs[j].suffix@).len() < domain_normal(rs[i].suffix@).len() || (
            domain_normal(rs[j].suffix@).len() == domain_normal(rs[i].suffix@).len() && j >= i),
    ensures
        suffix_match(rs, domain) == Some(rs[i]),
    decreases domain.len(),
{
    let key = domain_normal(rs[i].suffix@);
    lemma_place_is(rs, domain, rs.len() as int);
    lemma_below_tail(domain, key);
    lemma_below_longest(domain, key);
    match suffix_place(rs, domain, rs.len() as int) {
        Some(p) => {
            assert(below(domain, domain_normal(rs[p as int].suffix@)));
            assert(key == domain);
        },
        None => {
            assert(key != domain);
            let t = split_first(domain, '.').unwrap().1;
            assert forall|j: int|
                0 <= j < rs.len() && only_ends(#[trigger] rs[j]) && below(
                    t,
                    domain_normal(rs[j].suffix@),
                ) implies domain_normal(rs[j].suffix@).len() < key.len() || (domain_normal(
                rs[j].suffix@,
            ).len() == key.len() && j >= i) by {
                lemma_below_tail(domain, domain_normal(rs[j].suffix@));
            }
            lemma_ending_is(rs, t, i);
        },
    }
}

proof fn lemma_no_ending(rs: Seq<DnsRule>, domain: Seq<char>)
    requires
        rs.len() <= usize::MAX,
        forall|j: int|
            0 <= j < rs.len() && only_ends(#[trigger] rs[j]) ==> !below(
                domain,
                domain_normal(rs[j].suffix@),
            ),
    ensures
        suffix_match(rs, domain) is None,
    decreases domain.len(),
{
    lemma_place_is(rs, domain, rs.len() as int);
    lemma_below_tail(domain, domain);
    match suffix_place(rs, domain, rs.len() as int) {
        Some(p) => {
            assert(below(domain, domain_normal(rs[p as int].suffix@)));
        },
        None => {
            if split_first(domain, '.') is Some {
                let t = split_first(domain, '.').unwrap().1;
                assert forall|j: int| 0 <= j < rs.len() && only_ends(#[trigger] rs[j]) implies
                    !below(t, domain_normal(rs[j].suffix@)) by {
                    lemma_below_tail(domain, domain_normal(rs[j].suffix@));
                }
                lemma_no_ending(rs, t);
            }
        },
    }
}

/// Where the query meets no rule that tests more than an ending, the longest ending wins,
/// and of equal ones the first.
pub proof fn law_longest_ending_is_taken(
    rs: Seq<DnsRule>,
    domain: Seq<char>,
    qtype: Seq<char>,
    i: int,
)
    requires
        0 <= i < rs.len() <= usize::MAX,
        forall|j: int|
            0 <= j < rs.len() ==> only_ends(#[trigger] rs[j]) || !meets(rs[j], domain, qtype),
        only_ends(rs[i]),
        below(domain, domain_normal(rs[i].suffix@)),
        forall|j: int|
            0 <= j < rs.len() && only_ends(#[trigger] rs[j]) && below(
                domain,
                domain_normal(rs[j].suffix@),
            ) ==> domain_normal(rs[j].suffix@).len() < domain_normal(rs[i].suffix@).len() || (
            domain_normal(rs[j].suffix@).len() == domain_normal(rs[i].suffix@).len() && j >= i),
    ensures
        dns_match(rs, domain, qtype) == Some(rs[i]),
{
    lemma_pattern_is(rs, domain, qtype, 0, rs.len() as int);
    lemma_ending_is(rs, domain, i);
}

/// A query that meets no rule falls under none.
pub proof fn law_unmet_query_has_no_rule(rs: Seq<DnsRule>, domain: Seq<char>, qtype: Seq<char>)
    requires
        rs.len() <= usize::MAX,
        forall|j: int|
            0 <= j < rs.len() ==> if only_ends(#[trigger] rs[j]) {
                !below(domain, domain_normal(rs[j].suffix@))
            } else {
                !meets(rs[j], domain, qtype)
            },
    ensures
        dns_match(rs, domain, qtype) is None,
{
    lemma_pattern_is(rs, domain, qtype, 0, rs.len() as int);
    lemma_no_ending(rs, domain);
}

proof fn lemma_pattern_source(
    rs: Seq<DnsRule>,
    domain: Seq<char>,
    qtype: Seq<char>,
    from: int,
)
    requires
        0 <= from,
    ensures
        pattern_match(rs, domain, qtype, from) matches Some(r) ==> rs.contains(r) && !only_ends(r)
            && meets(r, domain, qtype),
    decreases rs.len() - from,
{
    if from < rs.len() {
        lemma_meets(rs[from], domain, qtype);
        lemma_pattern_source(rs, domain, qtype, from + 1);
    }
}

proof fn lemma_ending_source(rs: Seq<DnsRule>, domain: Seq<char>)
    requires
        rs.len() <= usize::MAX,
    ensures
        suffix_match(rs, domain) matches Some(r) ==> rs.contains(r) && only_ends(r) && below(
            domain,
            domain_normal(r.suffix@),
        ),
    decreases domain.len(),
{
    lemma_place_is(rs, domain, rs.len() as int);
    if suffix_place(rs, domain, rs.len() as int) is None {
        lemma_below_tail(domain, domain);
        if split_first(domain, '.') is Some {
            let t = split_first(domain, '.').unwrap().1;
            lemma_ending_source(rs, t);
            if suffix_match(rs, t) is Some {
                lemma_below_tail(domain, domain_normal(suffix_match(rs, t).unwrap().suffix@));
            }
        }
    }
}

/// A rule that is taken for a query fits every condition that it states: the name lies
/// below its ending, whatever else the rule tests, and its part, its beginning and its query
/// type are those of the query.
pub proof fn law_taken_rule_fits(rs: Seq<DnsRule>, domain: Seq<char>, qtype: Seq<char>)
    requires
        rs.len() <= usize::MAX,
    ensures
        dns_match(rs, domain, qtype) matches Some(r) ==> {
            &&& rs.contains(r)
            &&& r.qtype@.len() > 0 ==> lower(r.qtype@) == lower(qtype)
            &&& r.contains@.len() > 0 ==> inside(domain, r.contains@)
            &&& r.prefix@.len() > 0 ==> leads(domain, r.prefix@)
            &&& r.suffix@.len() > 0 ==> below(domain, r.suffix@) || below(
                domain,
                domain_normal(r.suffix@),
            )
            &&& !only_ends(r) && r.suffix@.len() > 0 ==> below(domain, r.suffix@)
        },
{
    lemma_pattern_source(rs, domain, qtype, 0);
    lemma_ending_source(rs, domain);
}

/// A rule about names is found again by its mark: the first that has it.
pub proof fn law_name_rule_by_mark(rs: Seq<DnsRule>, id: Seq<char>)
    ensures
        forall|i: int|
            0 <= i < rs.len() && (#[trigger] rs[i]).id@ == id && (forall|j: int|
                0 <= j < i ==> (#[trigger] rs[j]).id@ != id) ==> dns_named(rs, id) == Some(rs[i]),
        (forall|j: int| 0 <= j < rs.len() ==> (#[trigger] rs[j]).id@ != id) ==> dns_named(
            rs,
            id,
        ) is None,
    decreases rs.len(),
{
    if rs.len() > 0 {
        let rest = rs.skip(1);
        law_name_rule_by_mark(rest, id);
        assert forall|i: int|
            0 <= i < rs.len() && (#[trigger] rs[i]).id@ == id && (forall|j: int|
                0 <= j < i ==> (#[trigger] rs[j]).id@ != id) implies dns_named(rs, id) == Some(
            rs[i],
        ) by {
            if i > 0 {
                assert(rs[0].id@ != id);
                assert(rest[i - 1] == rs[i]);
                assert forall|j: int| 0 <= j < i - 1 implies (#[trigger] rest[j]).id@ != id by {
                    assert(rest[j] == rs[j + 1]);
                }
            }
        }
        if forall|j: int| 0 <= j < rs.len() ==> (#[trigger] rs[j]).id@ != id {
            assert(rs[0].id@ != id);
            assert forall|j: int| 0 <= j < rest.len() implies (#[trigger] rest[j]).id@ != id by {
                assert(rest[j] == rs[j + 1]);
            }
        }
    }
}

/// A rule about far ends is found again by its mark: the first that has it.
pub proof fn law_far_rule_by_mark(rs: Seq<PeerRule>, id: Seq<char>)
    ensures
        forall|i: int|
            0 <= i < rs.len() && (#[trigger] rs[i]).id@ == id && (forall|j: int|
                0 <= j < i ==> (#[trigger] rs[j]).id@ != id) ==> peer_named(rs, id) == Some(rs[i]),
        (forall|j: int| 0 <= j < rs.len() ==> (#[trigger] rs[j]).id@ != id) ==> peer_named(
            rs,
            id,
        ) is None,
    decreases rs.len(),
{
    if rs.len() > 0 {
        let rest = rs.skip(1);
        law_far_rule_by_mark(rest, id);
        assert forall|i: int|
            0 <= i < rs.len() && (#[trigger] rs[i]).id@ == id && (forall|j: int|
                0 <= j < i ==> (#[trigger] rs[j]).id@ != id) implies peer_named(rs, id) == Some(
            rs[i],
        ) by {
            if i > 0 {
                assert(rs[0].id@ != id);
                assert(rest[i - 1] == rs[i]);
                assert forall|j: int| 0 <= j < i - 1 implies (#[trigger] rest[j]).id@ != id by {
                    assert(rest[j] == rs[j + 1]);
                }
            }
        }
        if forall|j: int| 0 <= j < rs.len() ==> (#[trigger] rs[j]).id@ != id {
            assert(rs[0].id@ != id);
            assert forall|j: int| 0 <= j < rest.len() implies (#[trigger] rest[j]).id@ != id by {
                assert(rest[j] == rs[j + 1]);
            }
        }
    }
}

/// Whether a far end is one that a rule is about.
pub open spec fn far_end_of(r: PeerRule, proto: Seq<char>, port: u16, remote: Seq<char>) -> bool {
    &&& port == r.port
    &&& r.proto@.len() > 0 ==> proto == r.proto@
    &&& r.prefix@.len() > 0 ==> leads(remote, r.prefix@)
}

/// Of the rules about far ends, the first is taken whose port, protocol and beginning of the
/// address are those of the far end, where it states them.
pub proof fn law_far_end_has_its_rule(
    rs: Seq<PeerRule>,
    proto: Seq<char>,
    port: u16,
    remote: Seq<char>,
)
    ensures
        forall|i: int|
            0 <= i < rs.len() && far_end_of(#[trigger] rs[i], proto, port, remote) && (forall|
                j: int,
            |
                0 <= j < i ==> !far_end_of(#[trigger] rs[j], proto, port, remote)) ==> peer_match(
                rs,
                proto,
                port,
                remote,
            ) == Some(rs[i]),
        (forall|j: int| 0 <= j < rs.len() ==> !far_end_of(#[trigger] rs[j], proto, port, remote))
            ==> peer_match(rs, proto, port, remote) is None,
    decreases rs.len(),
{
    if rs.len() > 0 {
        let rest = rs.skip(1);
        law_far_end_has_its_rule(rest, proto, port, remote);
        lemma_leads(remote, rs[0].prefix@);
        assert forall|i: int|
            0 <= i < rs.len() && far_end_of(#[trigger] rs[i], proto, port, remote) && (forall|
                j: int,
            |
                0 <= j < i ==> !far_end_of(#[trigger] rs[j], proto, port, remote)) implies peer_match(
            rs,
            proto,
            port,
            remote,
        ) == Some(rs[i]) by {
            if i > 0 {
                assert(!far_end_of(rs[0], proto, port, remote));
                assert(rest[i - 1] == rs[i]);
                assert forall|j: int| 0 <= j < i - 1 implies !far_end_of(
                    #[trigger] rest[j],
                    proto,
                    port,
                    remote,
                ) by {
                    assert(rest[j] == rs[j + 1]);
                }
            }
        }
        if forall|j: int| 0 <= j < rs.len() ==> !far_end_of(#[trigger] rs[j], proto, port, remote) {
            assert(!far_end_of(rs[0], proto, port, remote));
            assert forall|j: int| 0 <= j < rest.len() implies !far_end_of(
                #[trigger] rest[j],
                proto,
                port,
                remote,
            ) by {
                assert(rest[j] == rs[j + 1]);
            }
        }
    }
}

/// Of the rules about ports, the first about a port is taken.
pub proof fn law_port_has_its_rule(rs: Seq<PortRule>, p: u16)
    ensures
        forall|i: int|
            0 <= i < rs.len() && (#[trigger] rs[i]).port == p && (forall|j: int|
                0 <= j < i ==> (#[trigger] rs[j]).port != p) ==> port_match(rs, p) == Some(rs[i]),
        (forall|j: int| 0 <= j < rs.len() ==> (#[trigger] rs[j]).port != p) ==> port_match(
            rs,
            p,
        ) is None,
    decreases rs.len(),
{
    if rs.len() > 0 {
        let rest = rs.skip(1);
        law_port_has_its_rule(rest, p);
        assert forall|i: int|
            0 <= i < rs.len() && (#[trigger] rs[i]).port == p && (forall|j: int|
                0 <= j < i ==> (#[trigger] rs[j]).port != p) implies port_match(rs, p) == Some(
            rs[i],
        ) by {
            if i > 0 {
                assert(rs[0].port != p);
                assert(rest[i - 1] == rs[i]);
                assert forall|j: int| 0 <= j < i - 1 implies (#[trigger] rest[j]).port != p by {
                    assert(rest[j] == rs[j + 1]);
                }
            }
        }
        if forall|j: int| 0 <= j < rs.len() ==> (#[trigger] rs[j]).port != p {
            assert(rs[0].port != p);
            assert forall|j: int| 0 <= j < rest.len() implies (#[trigger] rest[j]).port != p by {
                assert(rest[j] == rs[j + 1]);
            }
        }
    }
}

/// A rule about the way of asking fits once enough was asked and every measure that it states
/// lies between its bounds, these included; a query type that was not seen has the share
/// zero, and a spread that is not known lies in no range.
pub proof fn law_way_of_asking_fits(r: StackRule, s: Shape)
    ensures
        stack_hit(r, s) <==> {
            &&& s.samples > 0
            &&& s.samples >= r.min_samples
            &&& forall|i: int|
                0 <= i < r.ratio@.len() ==> match lookup(s.ratios@, (#[trigger] r.ratio@[i]).0) {
                    Some(share) => r.ratio@[i].1.lo <= share && share <= r.ratio@[i].1.hi,
                    None => r.ratio@[i].1.lo <= 0 && 0 <= r.ratio@[i].1.hi,
                }
            &&& r.port_spread is Some ==> s.spread is Some && r.port_spread.unwrap().lo
                <= s.spread.unwrap() && s.spread.unwrap() <= r.port_spread.unwrap().hi
            &&& r.pair_a4 is Some ==> r.pair_a4.unwrap().lo <= s.pair_a4 && s.pair_a4
                <= r.pair_a4.unwrap().hi
            &&& r.pair_https is Some ==> r.pair_https.unwrap().lo <= s.pair_https && s.pair_https
                <= r.pair_https.unwrap().hi
        },
{
    assert forall|i: int| 0 <= i < r.ratio@.len() implies match lookup(
        s.ratios@,
        (#[trigger] r.ratio@[i]).0,
    ) {
        Some(share) => lookup_or(s.ratios@, r.ratio@[i].0, 0i32) == share,
        None => lookup_or(s.ratios@, r.ratio@[i].0, 0i32) == 0,
    } by {}
}

/// How far two lists agree from their start: they do up to there, and not one byte further.
pub proof fn law_common_start_is_longest(a: Seq<u8>, b: Seq<u8>)
    ensures
        common(a, b) <= a.len(),
        common(a, b) <= b.len(),
        a.take(common(a, b) as int) == b.take(common(a, b) as int),
        common(a, b) == a.len() || common(a, b) == b.len() || a[common(a, b) as int]
            != b[common(a, b) as int],
    decreases a.len(),
{
    if a.len() > 0 && b.len() > 0 && a[0] == b[0] {
        law_common_start_is_longest(a.skip(1), b.skip(1));
        let c = common(a.skip(1), b.skip(1)) as int;
        assert(a.take(c + 1) =~= seq![a[0]] + a.skip(1).take(c));
        assert(b.take(c + 1) =~= seq![b[0]] + b.skip(1).take(c));
    } else {
        assert(a.take(0) =~= b.take(0));
    }
}

/// How many bytes the list of a rule has in common with a list, from their start.
pub open spec fn shared(r: TextRule, fp: Seq<char>) -> nat {
    common(encode_utf8(r.value@), encode_utf8(fp))
}

/// Whether the list of a rule is near to a list: they share eight bytes and half of the
/// rule's own.
pub open spec fn near(r: TextRule, fp: Seq<char>) -> bool {
    shared(r, fp) >= 8 && shared(r, fp) >= encode_utf8(r.value@).len() / 2
}

proof fn lemma_nearest(rs: Seq<TextRule>, fp: Seq<char>, n: int)
    requires
        0 <= n <= rs.len(),
    ensures
        nearest(rs, fp, n) matches Some((i, c)) ==> 0 <= i < n && near(rs[i], fp) && c == shared(
            rs[i],
            fp,
        ) && (forall|j: int|
            0 <= j < n && near(#[trigger] rs[j], fp) ==> shared(rs[j], fp) < c || (shared(
                rs[j],
                fp,
            ) == c && j >= i)),
        nearest(rs, fp, n) is None ==> (forall|j: int|
            0 <= j < n ==> !near(#[trigger] rs[j], fp)),
    decreases n,
{
    if n > 0 {
        lemma_nearest(rs, fp, n - 1);
    }
}

/// A list is recognised by the first rule with the very same list; else by the one of those
/// near to it that shares the longest start, of equal ones the first; else by none.
pub proof fn law_list_has_its_rule(rs: Seq<TextRule>, fp: Seq<char>, i: int)
    requires
        0 <= i < rs.len(),
    ensures
        rs[i].value@ == fp && (forall|j: int| 0 <= j < i ==> (#[trigger] rs[j]).value@ != fp)
            ==> list_match(rs, fp) == Some(rs[i]),
        (forall|j: int| 0 <= j < rs.len() ==> (#[trigger] rs[j]).value@ != fp) && near(rs[i], fp)
            && (forall|j: int|
            0 <= j < rs.len() && near(#[trigger] rs[j], fp) ==> shared(rs[j], fp) < shared(
                rs[i],
                fp,
            ) || (shared(rs[j], fp) == shared(rs[i], fp) && j >= i)) ==> list_match(rs, fp)
            == Some(rs[i]),
        (forall|j: int|
            0 <= j < rs.len() ==> (#[trigger] rs[j]).value@ != fp && !near(rs[j], fp))
            ==> list_match(rs, fp) is None,
{
    lemma_exact(rs, fp);
    lemma_nearest(rs, fp, rs.len() as int);
}

proof fn lemma_exact(rs: Seq<TextRule>, fp: Seq<char>)
    ensures
        forall|i: int|
            0 <= i < rs.len() && (#[trigger] rs[i]).value@ == fp && (forall|j: int|
                0 <= j < i ==> (#[trigger] rs[j]).value@ != fp) ==> crate::rules::exact_list(
                rs,
                fp,
            ) == Some(rs[i]),
        (forall|j: int| 0 <= j < rs.len() ==> (#[trigger] rs[j]).value@ != fp)
            ==> crate::rules::exact_list(rs, fp) is None,
    decreases rs.len(),
{
    if rs.len() > 0 {
        let rest = rs.skip(1);
        lemma_exact(rest, fp);
        assert forall|i: int|
            0 <= i < rs.len() && (#[trigger] rs[i]).value@ == fp && (forall|j: int|
                0 <= j < i ==> (#[trigger] rs[j]).value@ != fp) implies crate::rules::exact_list(
            rs,
            fp,
        ) == Some(rs[i]) by {
            if i > 0 {
                assert(rs[0].value@ != fp);
                assert(rest[i - 1] == rs[i]);
                assert forall|j: int| 0 <= j < i - 1 implies (#[trigger] rest[j]).value@ != fp by {
                    assert(rest[j] == rs[j + 1]);
                }
            }
        }
        if forall|j: int| 0 <= j < rs.len() ==> (#[trigger] rs[j]).value@ != fp {
            assert(rs[0].value@ != fp);
            assert forall|j: int| 0 <= j < rest.len() implies (#[trigger] rest[j]).value@ != fp by {
                assert(rest[j] == rs[j + 1]);
            }
        }
    }
}

/// A rule about names is shown by what it tests: its ending; else its beginning, and a star
/// for the rest; else its part between two stars.
pub proof fn law_rule_is_shown_by_its_test(r: DnsRule)
    ensures
        r.suffix@.len() > 0 ==> rule_label(r) == r.suffix@,
        r.suffix@.len() == 0 && r.prefix@.len() > 0 ==> rule_label(r).last() == '*' && rule_label(
            r,
        ).drop_last() == r.prefix@,
        r.suffix@.len() == 0 && r.prefix@.len() == 0 ==> rule_label(r).len() == r.contains@.len()
            + 2 && rule_label(r)[0] == '*' && rule_label(r).last() == '*' && rule_label(
            r,
        ).subrange(1, rule_label(r).len() - 1) == r.contains@,
{
    if r.suffix@.len() == 0 && r.prefix@.len() > 0 {
        assert(rule_label(r).drop_last() =~= r.prefix@);
    } else if r.suffix@.len() == 0 {
        assert(rule_label(r).subrange(1, rule_label(r).len() - 1) =~= r.contains@);
    }
}

/// In merged rules every list holds the user's own rules in front of the built-in ones, and
/// all of both.
pub proof fn law_merged_rules_hold_both(m: Rules, builtin: Rules, own: Rules)
    requires
        m.merges(builtin, own),
    ensures
        own.dns@ + builtin.dns@ == m.dns@,
        own.hostname@ + builtin.hostname@ == m.hostname@,
        own.mdns_service@ + builtin.mdns_service@ == m.mdns_service@,
        own.mdns_model@ + builtin.mdns_model@ == m.mdns_model@,
        own.upnp@ + builtin.upnp@ == m.upnp@,
        own.dhcp_vendor@ + builtin.dhcp_vendor@ == m.dhcp_vendor@,
        own.dhcp_fp@ + builtin.dhcp_fp@ == m.dhcp_fp@,
        own.oui_brand@ + builtin.oui_brand@ == m.oui_brand@,
        own.stack@ + builtin.stack@ == m.stack@,
        own.tcp@ + builtin.tcp@ == m.tcp@,
        own.ua@ + builtin.ua@ == m.ua@,
        own.port@ + builtin.port@ == m.port@,
        own.banner@ + builtin.banner@ == m.banner@,
        own.subsume@ + builtin.subsume@ == m.subsume@,
        own.penalty@ + builtin.penalty@ == m.penalty@,
        own.peer@ + builtin.peer@ == m.peer@,
        own.mqtt@ + builtin.mqtt@ == m.mqtt@,
        m.version >= own.version,
        m.version >= builtin.version,
        m.version == own.version || m.version == builtin.version,
        own.forwarder is Some ==> m.forwarder == own.forwarder,
        own.forwarder is None ==> m.forwarder == builtin.forwarder,
{
}

/// Rules that are the same but for their index hold the same lists.
pub proof fn law_same_rules_hold_the_same(m: Rules, o: Rules)
    requires
        m.same_rules(o),
    ensures
        m.version == o.version && m.forwarder == o.forwarder,
        m.dns@ == o.dns@ && m.hostname@ == o.hostname@ && m.mdns_service@ == o.mdns_service@,
        m.mdns_model@ == o.mdns_model@ && m.upnp@ == o.upnp@ && m.dhcp_vendor@ == o.dhcp_vendor@,
        m.dhcp_fp@ == o.dhcp_fp@ && m.oui_brand@ == o.oui_brand@ && m.stack@ == o.stack@,
        m.tcp@ == o.tcp@ && m.ua@ == o.ua@ && m.port@ == o.port@ && m.banner@ == o.banner@,
        m.subsume@ == o.subsume@ && m.penalty@ == o.penalty@ && m.peer@ == o.peer@,
        m.mqtt@ == o.mqtt@,
{
}

} // verus!
