//! How signals are weighed against each other: forwarding, pools, leaders, penalties,
//! evidence, and the conclusion.

use crate::names::{
    law_put_then_lookup, law_without_then_lookup, lemma_lookup_at, lemma_lookup_index, lookup,
    lookup_or, names_of, ordered, Entries,
};
use crate::rules::{Forwarder, Penalty, Subsume};
use crate::score::{
    above_zero, conclusion, first_place, folded, forwarded, heartbeat_brands, heaviest,
    law_evidence_is_ranked, leader, lemma_above_zero, lemma_folded_ordered, lemma_tally, low_ports,
    penalty_sig, penalty_sigs, ranked_evidence, said, second_place, shown, shown_evidence,
    stands_alone, stood_for, strongest, suggested_brand, tally, voices, EvView, Field, Ranked,
    SigView, Weight,
};
use crate::text::{joined, texts};
use vstd::prelude::*;

verus! {

/// Whether a signal is a regular sign of life of some brand, seen in the names asked for.
pub open spec fn sign_of_life(s: SigView, brand: Seq<char>) -> bool {
    &&& s.source == "dns"@ || s.source == "sni"@
    &&& s.kind == "heartbeat"@
    &&& s.brand == brand
    &&& brand.len() > 0
}

/// The brands counted before a device is taken for a forwarder are those of which there is a
/// sign of life, each counted once.
pub proof fn law_brands_are_counted_once(v: Seq<SigView>, n: int, b: Seq<char>)
    requires
        0 <= n <= v.len(),
    ensures
        ordered(heartbeat_brands(v, n)),
        lookup(heartbeat_brands(v, n), b) is Some <==> exists|i: int|
            0 <= i < n && sign_of_life(#[trigger] v[i], b),
    decreases n,
{
    if n > 0 {
        law_brands_are_counted_once(v, n - 1, b);
        law_put_then_lookup(heartbeat_brands(v, n - 1), v[n - 1].brand, true, b);
        if sign_of_life(v[n - 1], b) {
        } else if lookup(heartbeat_brands(v, n), b) is Some {
            let i = choose|i: int| 0 <= i < n - 1 && sign_of_life(#[trigger] v[i], b);
            assert(sign_of_life(v[i], b));
        }
    }
}

/// With enough brands a device is taken for a forwarder: a signal says so and names the
/// brands, and the signals from names keep everything but what they conclude; all other
/// signals stay as they are. With fewer brands nothing changes.
pub proof fn law_forwarder_is_noticed(v: Seq<SigView>, f: Forwarder)
    ensures
        ({
            let brands = heartbeat_brands(v, v.len() as int);
            let w = forwarded(v, Some(f));
            &&& brands.len() < f.min_brands ==> w == v
            &&& brands.len() >= f.min_brands ==> {
                &&& w.len() == v.len() + 1
                &&& w.last().source == "forwarder"@ && w.last().kind == "stack"@
                &&& w.last().detail == joined(names_of(brands), "/"@)
                &&& w.last().dtype == f.dtype@ && w.last().weight == Weight::Whole(
                    f.weight as i64,
                )
                &&& w.last().brand.len() == 0 && w.last().os.len() == 0
                &&& w.last().model.len() == 0 && w.last().platform.len() == 0
                &&& w.last().age == 0
                &&& forall|i: int|
                    0 <= i < v.len() ==> {
                        &&& (#[trigger] w[i]).source == v[i].source && w[i].detail == v[i].detail
                        &&& w[i].age == v[i].age && w[i].kind == v[i].kind
                        &&& w[i].model == v[i].model && w[i].platform == v[i].platform
                        &&& w[i].weight == v[i].weight
                        &&& if v[i].source == "dns"@ || v[i].source == "sni"@ {
                            w[i].brand.len() == 0 && w[i].os.len() == 0 && w[i].dtype.len() == 0
                        } else {
                            w[i] == v[i]
                        }
                    }
            }
        }),
{
}

/// What a signal says of a field.
pub open spec fn word(s: SigView, k: Field) -> Seq<char> {
    match k {
        Field::Brand => s.brand,
        Field::Os => s.os,
        Field::Dtype => s.dtype,
    }
}

/// Whether a signal may decide by itself.
pub open spec fn decides(s: SigView) -> bool {
    s.kind != "web"@ && s.kind != "weak"@
}

/// Whether some signal that may decide by itself says a name.
pub open spec fn backed(v: Seq<SigView>, k: Field, name: Seq<char>) -> bool {
    exists|i: int| 0 <= i < v.len() && decides(#[trigger] v[i]) && word(v[i], k) == name
}

/// Whether a signal counts for a name that is backed: for a brand or a system whatever its
/// kind, for a sort of device only if it may decide by itself.
pub open spec fn counts_for(k: Field, name: Seq<char>) -> spec_fn(SigView) -> bool {
    |s: SigView| word(s, k) == name && (k is Dtype ==> decides(s))
}

proof fn lemma_tally_of(v: Seq<SigView>, k: Field, name: Seq<char>, n: int)
    requires
        0 <= n <= v.len(),
    ensures
        ordered(tally(v, k, n)),
        name.len() > 0 && backed(v, k, name) ==> lookup_or(
            tally(v, k, n),
            name,
            Seq::empty(),
        ) == v.take(n).filter(counts_for(k, name)),
        name.len() > 0 && backed(v, k, name) && v.take(n).filter(counts_for(k, name)).len() > 0
            ==> lookup(tally(v, k, n), name) is Some,
        name.len() == 0 || !backed(v, k, name) ==> lookup(tally(v, k, n), name) is None,
    decreases n,
{
    reveal(Seq::filter);
    let p = counts_for(k, name);
    if n > 0 {
        lemma_tally_of(v, k, name, n - 1);
        let x = v[n - 1];
        let before = tally(v, k, n - 1);
        assert(v.take(n).drop_last() =~= v.take(n - 1));
        assert(v.take(n).last() == x);
        assert(said(x, k) == word(x, k));
        let more = lookup_or(before, said(x, k), Seq::empty()).push(x);
        law_put_then_lookup(before, said(x, k), more, name);
        if backed(v, k, name) {
            let i = choose|i: int|
                0 <= i < v.len() && decides(#[trigger] v[i]) && word(v[i], k) == name;
            assert(stands_alone(v[i].kind) && said(v[i], k) == name);
            assert(stood_for(v, k, name));
        }
        if stood_for(v, k, name) {
            let i = choose|i: int|
                0 <= i < v.len() && stands_alone((#[trigger] v[i]).kind) && said(v[i], k) == name;
            assert(decides(v[i]) && word(v[i], k) == name);
        }
        if k is Dtype && stands_alone(x.kind) && word(x, k) == name {
            assert(decides(v[n - 1]));
            assert(backed(v, k, name));
        }
    } else {
        assert(v.take(0).filter(p) =~= Seq::<SigView>::empty());
    }
}

/// The signals that count for a name are all signals that say it, in their order, once one
/// of them may decide by itself; of a sort of device only those that may count. A name that
/// no such signal says is in no pool.
pub proof fn law_voices_of_a_name(v: Seq<SigView>, k: Field, name: Seq<char>)
    requires
        v.len() <= usize::MAX,
    ensures
        name.len() > 0 && backed(v, k, name) ==> lookup(voices(v, k), name) == Some(
            v.filter(counts_for(k, name)),
        ),
        name.len() == 0 || !backed(v, k, name) ==> lookup(voices(v, k), name) is None,
{
    lemma_tally(v, k, v.len() as int);
    lemma_tally_of(v, k, name, v.len() as int);
    assert(v.take(v.len() as int) =~= v);
    if name.len() > 0 && backed(v, k, name) {
        let i = choose|i: int|
            0 <= i < v.len() && decides(#[trigger] v[i]) && word(v[i], k) == name;
        let p = counts_for(k, name);
        assert(p(v[i]));
        v.lemma_filter_contains(p, i);
        assert(v.filter(p).contains(v[i]));
    }
}

proof fn lemma_above_places<V>(m: Entries<V>, keys: Seq<i32>, n: int)
    requires
        0 <= n <= m.len() <= usize::MAX,
        ordered(m),
    ensures
        forall|i: int|
            0 <= i < above_zero(m, keys, n).len() ==> {
                let e = #[trigger] above_zero(m, keys, n)[i];
                e.1 < n && m[e.1 as int].0 == e.0 && keys[e.1 as int] > 0
            },
        forall|p: int|
            0 <= p < n && keys[p] > 0 ==> above_zero(m, keys, n).contains(
                ((#[trigger] m[p]).0, p as usize),
            ),
    decreases n,
{
    if n > 0 {
        lemma_above_places(m, keys, n - 1);
        let a = above_zero(m, keys, n - 1);
        let b = above_zero(m, keys, n);
        assert forall|p: int| 0 <= p < n && keys[p] > 0 implies b.contains(
            ((#[trigger] m[p]).0, p as usize),
        ) by {
            if p == n - 1 {
                assert(b.last() == (m[p].0, p as usize));
            } else {
                let i = choose|i: int| 0 <= i < a.len() && a[i] == (m[p].0, p as usize);
                assert(b[i] == a[i]);
            }
        }
    }
}

pub proof fn lemma_entry<V>(m: Entries<V>, i: int)
    requires
        ordered(m),
        0 <= i < m.len(),
    ensures
        lookup(m, m[i].0) == Some(m[i].1),
{
    assert forall|j: int| 0 <= j < i implies (#[trigger] m[j]).0 != m[i].0 by {
        crate::text::lemma_less_total(m[j].0, m[i].0);
        assert(crate::text::less(m[j].0, m[i].0));
    }
    lemma_lookup_at(m, m[i].0, i);
}

proof fn lemma_left<V>(m: Entries<V>, keys: Seq<i32>, ss: Seq<Subsume>, n: int, name: Seq<char>)
    requires
        ordered(m),
        m.len() <= usize::MAX,
        0 <= n <= ss.len(),
    ensures
        ({
            let all = above_zero(m, keys, m.len() as int);
            let f = folded(all, ss, n);
            &&& lookup(f.left, name) matches Some(p) ==> lookup(all, name) == Some(p)
            &&& lookup(all, name) is Some && lookup(f.left, name) is None ==> exists|q: int|
                0 <= q < f.merges.len() && (#[trigger] f.merges[q]).1 == lookup(all, name).unwrap()
            &&& (forall|j: int|
                0 <= j < n && (#[trigger] ss[j]).generic@ == name ==> lookup(
                    all,
                    ss[j].specific@,
                ) is None) ==> lookup(f.left, name) == lookup(all, name)
            &&& forall|q: int|
                0 <= q < f.merges.len() ==> exists|j: int|
                    0 <= j < n && lookup(all, (#[trigger] ss[j]).specific@) == Some(
                        (#[trigger] f.merges[q]).0,
                    ) && lookup(all, ss[j].generic@) == Some(f.merges[q].1)
        }),
    decreases n,
{
    let all = above_zero(m, keys, m.len() as int);
    if n > 0 {
        let g = folded(all, ss, n - 1);
        let f = folded(all, ss, n);
        let r = ss[n - 1];
        lemma_left(m, keys, ss, n - 1, name);
        lemma_left(m, keys, ss, n - 1, r.specific@);
        lemma_left(m, keys, ss, n - 1, r.generic@);
        lemma_above_zero(m, keys, m.len() as int);
        lemma_folded_ordered(all, ss, n - 1);
        law_without_then_lookup(g.left, r.generic@, name);
        let to = lookup(g.left, r.specific@);
        let from = lookup(g.left, r.generic@);
        if to is Some && from is Some {
            assert(f.merges == g.merges.push((to.unwrap(), from.unwrap())));
            assert forall|q: int| 0 <= q < f.merges.len() implies exists|j: int|
                0 <= j < n && lookup(all, (#[trigger] ss[j]).specific@) == Some(
                    (#[trigger] f.merges[q]).0,
                ) && lookup(all, ss[j].generic@) == Some(f.merges[q].1) by {
                if q < g.merges.len() {
                    assert(f.merges[q] == g.merges[q]);
                    let j = choose|j: int|
                        0 <= j < n - 1 && lookup(all, (#[trigger] ss[j]).specific@) == Some(
                            (#[trigger] g.merges[q]).0,
                        ) && lookup(all, ss[j].generic@) == Some(g.merges[q].1);
                    assert(lookup(all, ss[j].specific@) == Some(f.merges[q].0));
                } else {
                    assert(lookup(all, ss[n - 1].specific@) == Some(f.merges[q].0));
                }
            }
            if lookup(all, name) is Some && lookup(f.left, name) is None {
                if name == r.generic@ {
                    assert(f.merges[g.merges.len() as int].1 == lookup(all, name).unwrap());
                } else {
                    let q = choose|q: int|
                        0 <= q < g.merges.len() && (#[trigger] g.merges[q]).1 == lookup(
                            all,
                            name,
                        ).unwrap();
                    assert(f.merges[q] == g.merges[q]);
                }
            }
        }
    }
}

/// What is left of a pool is of its names with a weight above zero. Such a name goes only if
/// a rule folds it into one that says more and is there too; then its weight is added to
/// that of the other.
pub proof fn law_names_go_only_into_others<V>(
    m: Entries<V>,
    keys: Seq<i32>,
    ss: Seq<Subsume>,
    p: int,
)
    requires
        ordered(m),
        m.len() <= usize::MAX,
        0 <= p < m.len(),
    ensures
        ({
            let f = folded(above_zero(m, keys, m.len() as int), ss, ss.len() as int);
            &&& keys[p] <= 0 ==> lookup(f.left, m[p].0) is None
            &&& lookup(f.left, m[p].0) is Some ==> lookup(f.left, m[p].0) == Some(p as usize)
            &&& keys[p] > 0 && lookup(f.left, m[p].0) is None ==> exists|q: int|
                0 <= q < f.merges.len() && (#[trigger] f.merges[q]).1 == p
            &&& keys[p] > 0 && (forall|j: int|
                0 <= j < ss.len() && (#[trigger] ss[j]).generic@ == m[p].0 ==> (forall|o: int|
                    0 <= o < m.len() && keys[o] > 0 ==> (#[trigger] m[o]).0 != ss[j].specific@))
                ==> lookup(f.left, m[p].0) == Some(p as usize)
        }),
        forall|q: int|
            0 <= q < folded(
                above_zero(m, keys, m.len() as int),
                ss,
                ss.len() as int,
            ).merges.len() ==> {
                let (to, from) = #[trigger] folded(
                    above_zero(m, keys, m.len() as int),
                    ss,
                    ss.len() as int,
                ).merges[q];
                &&& to < m.len() && from < m.len() && keys[to as int] > 0 && keys[from as int] > 0
                &&& exists|j: int|
                    0 <= j < ss.len() && m[to as int].0 == (#[trigger] ss[j]).specific@
                        && m[from as int].0 == ss[j].generic@
            },
{
    let all = above_zero(m, keys, m.len() as int);
    lemma_above_zero(m, keys, m.len() as int);
    lemma_above_places(m, keys, m.len() as int);
    let f = folded(all, ss, ss.len() as int);
    lemma_left(m, keys, ss, ss.len() as int, m[p].0);
    if keys[p] > 0 {
        let i = choose|i: int| 0 <= i < all.len() && all[i] == (m[p].0, p as usize);
        lemma_entry(all, i);
        if forall|j: int|
            0 <= j < ss.len() && (#[trigger] ss[j]).generic@ == m[p].0 ==> (forall|o: int|
                0 <= o < m.len() && keys[o] > 0 ==> (#[trigger] m[o]).0 != ss[j].specific@) {
            assert forall|j: int|
                0 <= j < ss.len() && (#[trigger] ss[j]).generic@ == m[p].0 implies lookup(
                all,
                ss[j].specific@,
            ) is None by {
                if lookup(all, ss[j].specific@) is Some {
                    let i = lemma_lookup_index(all, ss[j].specific@);
                    let e = all[i];
                    assert(m[e.1 as int].0 == ss[j].specific@);
                }
            }
        }
    } else if lookup(all, m[p].0) is Some {
        let i = lemma_lookup_index(all, m[p].0);
        let e = all[i];
        lemma_entry(m, p);
        lemma_entry(m, e.1 as int);
        if e.1 != p {
            crate::text::lemma_less_total(m[p].0, m[p].0);
            if e.1 < p {
                assert(crate::text::less(m[e.1 as int].0, m[p].0));
            } else {
                assert(crate::text::less(m[p].0, m[e.1 as int].0));
            }
        }
    }
    assert forall|q: int| 0 <= q < f.merges.len() implies {
        let (to, from) = #[trigger] f.merges[q];
        &&& to < m.len() && from < m.len() && keys[to as int] > 0 && keys[from as int] > 0
        &&& exists|j: int|
            0 <= j < ss.len() && m[to as int].0 == (#[trigger] ss[j]).specific@
                && m[from as int].0 == ss[j].generic@
    } by {
        let j = choose|j: int|
            0 <= j < ss.len() && lookup(all, (#[trigger] ss[j]).specific@) == Some(
                (#[trigger] f.merges[q]).0,
            ) && lookup(all, ss[j].generic@) == Some(f.merges[q].1);
        let a = lemma_lookup_index(all, ss[j].specific@);
        let b = lemma_lookup_index(all, ss[j].generic@);
        assert(all[a].1 == f.merges[q].0);
        assert(all[b].1 == f.merges[q].1);
    }
}

proof fn lemma_leader(left: Entries<usize>, keys: Seq<i32>, but: Option<int>, n: int)
    requires
        0 <= n <= left.len(),
    ensures
        match leader(left, keys, but, n) {
            Some(i) => 0 <= i < n && but != Some(i) && (forall|j: int|
                0 <= j < n && but != Some(j) ==> keys[(#[trigger] left[j]).1 as int]
                    <= keys[left[i].1 as int]) && (forall|j: int|
                0 <= j < i && but != Some(j) ==> keys[(#[trigger] left[j]).1 as int]
                    < keys[left[i].1 as int]),
            None => forall|j: int| 0 <= j < n ==> but == Some(j),
        },
    decreases n,
{
    if n > 0 {
        lemma_leader(left, keys, but, n - 1);
    }
}

/// The heaviest name leads, and of equal ones the first in order; the runner-up is the
/// heaviest of the others.
pub proof fn law_heaviest_name_leads(left: Entries<usize>, keys: Seq<i32>)
    ensures
        left.len() == 0 <==> first_place(left, keys) is None,
        first_place(left, keys) matches Some(i) ==> 0 <= i < left.len() && (forall|j: int|
            0 <= j < left.len() ==> keys[(#[trigger] left[j]).1 as int]
                <= keys[left[i].1 as int]) && (forall|j: int|
            0 <= j < i ==> keys[(#[trigger] left[j]).1 as int] < keys[left[i].1 as int]),
        left.len() <= 1 <==> second_place(left, keys) is None,
        second_place(left, keys) matches Some(k) ==> {
            let i = first_place(left, keys).unwrap();
            &&& 0 <= k < left.len() && k != i
            &&& forall|j: int|
                0 <= j < left.len() && j != i ==> keys[(#[trigger] left[j]).1 as int]
                    <= keys[left[k].1 as int]
            &&& forall|j: int|
                0 <= j < k && j != i ==> keys[(#[trigger] left[j]).1 as int]
                    < keys[left[k].1 as int]
        },
{
    lemma_leader(left, keys, None, left.len() as int);
    if left.len() > 0 {
        let i = first_place(left, keys).unwrap();
        lemma_leader(left, keys, Some(i), left.len() as int);
        if left.len() > 1 && second_place(left, keys) is None {
            let o: int = if i == 0 {
                1
            } else {
                0
            };
            assert(Some(i) == Some(o));
        }
    }
}

proof fn lemma_strongest(ts: Seq<Seq<char>>, keys: Seq<i32>, n: int)
    requires
        0 <= n <= ts.len(),
    ensures
        strongest(ts, keys, n).1 >= 0,
        forall|j: int|
            0 <= j < n && (#[trigger] ts[j]).len() > 0 ==> keys[j] <= strongest(ts, keys, n).1,
        strongest(ts, keys, n).0.len() == 0 ==> strongest(ts, keys, n).1 == 0,
        strongest(ts, keys, n).0.len() > 0 ==> exists|i: int|
            0 <= i < n && #[trigger] ts[i] == strongest(ts, keys, n).0 && keys[i] == strongest(
                ts,
                keys,
                n,
            ).1 && keys[i] > 0 && (forall|j: int|
                0 <= j < i && (#[trigger] ts[j]).len() > 0 ==> keys[j] < keys[i]),
    decreases n,
{
    if n > 0 {
        lemma_strongest(ts, keys, n - 1);
        let before = strongest(ts, keys, n - 1);
        if ts[n - 1].len() > 0 && keys[n - 1] > before.1 {
            assert(ts[n - 1] == strongest(ts, keys, n).0);
        } else if before.0.len() > 0 {
            let i = choose|i: int|
                0 <= i < n - 1 && #[trigger] ts[i] == before.0 && keys[i] == before.1 && keys[i]
                    > 0 && (forall|j: int|
                    0 <= j < i && (#[trigger] ts[j]).len() > 0 ==> keys[j] < keys[i]);
            assert(ts[i] == strongest(ts, keys, n).0);
        }
    }
}

/// The conclusion names the leaders of the pools of brands, of systems and of sorts; the
/// model and the platform of the heaviest signal that has one, if it weighs more than
/// nothing; and its confidence is the one given, at most 99, or none without a leading
/// brand or system.
pub proof fn law_conclusion_names_the_leaders(
    v: Seq<SigView>,
    keys: Seq<i32>,
    ws: Seq<i32>,
    brand: Ranked,
    os: Ranked,
    dtype: Ranked,
    confidence: u32,
    i: int,
)
    requires
        keys.len() == v.len(),
        0 <= i < v.len(),
    ensures
        ({
            let c = conclusion(v, keys, ws, brand, os, dtype, confidence);
            &&& c.brand == brand.name@
            &&& c.os == os.name@
            &&& c.dtype == dtype.name@
            &&& brand.first is None && os.first is None ==> c.confidence == 0
            &&& (brand.first is Some || os.first is Some) && confidence <= 99 ==> c.confidence
                == confidence
            &&& (brand.first is Some || os.first is Some) && confidence > 99 ==> c.confidence == 99
            &&& v[i].model.len() > 0 && keys[i] > 0 && (forall|j: int|
                0 <= j < v.len() && (#[trigger] v[j]).model.len() > 0 ==> keys[j] < keys[i] || (
                keys[j] == keys[i] && j >= i)) ==> c.model == v[i].model
            &&& (forall|j: int|
                0 <= j < v.len() && (#[trigger] v[j]).model.len() > 0 ==> keys[j] <= 0)
                ==> c.model.len() == 0
            &&& v[i].platform.len() > 0 && keys[i] > 0 && (forall|j: int|
                0 <= j < v.len() && (#[trigger] v[j]).platform.len() > 0 ==> keys[j] < keys[i]
                    || (keys[j] == keys[i] && j >= i)) ==> c.platform == v[i].platform
            &&& (forall|j: int|
                0 <= j < v.len() && (#[trigger] v[j]).platform.len() > 0 ==> keys[j] <= 0)
                ==> c.platform.len() == 0
        }),
{
    let ms = crate::score::models(v);
    let ps = crate::score::platforms(v);
    let n = v.len() as int;
    lemma_strongest(ms, keys, n);
    lemma_strongest(ps, keys, n);
    assert forall|j: int| 0 <= j < n implies #[trigger] ms[j] == v[j].model && ps[j]
        == v[j].platform by {}
    assert(ms[i] == v[i].model && ps[i] == v[i].platform);
    if strongest(ms, keys, n).0.len() > 0 {
        let k = choose|k: int|
            0 <= k < n && #[trigger] ms[k] == strongest(ms, keys, n).0 && keys[k] == strongest(
                ms,
                keys,
                n,
            ).1 && keys[k] > 0 && (forall|j: int|
                0 <= j < k && (#[trigger] ms[j]).len() > 0 ==> keys[j] < keys[k]);
        assert(v[k].model == ms[k]);
        if i < k {
            assert(ms[i].len() > 0 ==> keys[i] < keys[k]);
        }
    }
    if strongest(ps, keys, n).0.len() > 0 {
        let k = choose|k: int|
            0 <= k < n && #[trigger] ps[k] == strongest(ps, keys, n).0 && keys[k] == strongest(
                ps,
                keys,
                n,
            ).1 && keys[k] > 0 && (forall|j: int|
                0 <= j < k && (#[trigger] ps[j]).len() > 0 ==> keys[j] < keys[k]);
        assert(v[k].platform == ps[k]);
        if i < k {
            assert(ps[i].len() > 0 ==> keys[i] < keys[k]);
        }
    }
}

/// The evidence that is shown is the heaviest, at most twenty pieces of it: together with
/// what is left out it is one piece for each signal, with the signal's source, words, age and
/// kind, and its weight falls from first to last.
pub proof fn law_heaviest_evidence_is_shown(v: Seq<SigView>, ws: Seq<i32>) -> (rest: Seq<EvView>)
    requires
        ws.len() == v.len(),
    ensures
        ({
            let shown = shown_evidence(v, ws);
            &&& shown.len() == if v.len() < 20 {
                v.len()
            } else {
                20
            }
            &&& forall|i: int, j: int|
                0 <= i <= j < (shown + rest).len() ==> (#[trigger] (shown + rest)[i]).weight >= (
                #[trigger] (shown + rest)[j]).weight
            &&& (shown + rest).to_multiset() == Seq::new(
                v.len(),
                |i: int|
                    EvView {
                        source: v[i].source,
                        detail: v[i].detail,
                        age: v[i].age,
                        kind: v[i].kind,
                        weight: ws[i],
                    },
            ).to_multiset()
        }),
{
    let n = v.len() as int;
    law_evidence_is_ranked(v, ws, n);
    let all = ranked_evidence(v, ws, n);
    let one = Seq::new(
        v.len(),
        |i: int|
            EvView {
                source: v[i].source,
                detail: v[i].detail,
                age: v[i].age,
                kind: v[i].kind,
                weight: ws[i],
            },
    );
    assert(one =~= Seq::new(n as nat, |i: int| shown(v[i], ws[i])));
    all.to_multiset_ensures();
    one.to_multiset_ensures();
    let s = shown_evidence(v, ws);
    let rest = all.skip(s.len() as int);
    assert(s + rest =~= all);
    rest
}

proof fn lemma_heaviest(v: Seq<SigView>, keys: Seq<i32>, n: int)
    requires
        0 <= n <= v.len(),
    ensures
        match heaviest(v, keys, n) {
            Some(i) => 0 <= i < n && decides(v[i]) && v[i].brand.len() > 0 && (forall|j: int|
                0 <= j < n && decides(#[trigger] v[j]) && v[j].brand.len() > 0 ==> keys[j]
                    <= keys[i]) && (forall|j: int|
                i < j < n && decides(#[trigger] v[j]) && v[j].brand.len() > 0 ==> keys[j]
                    < keys[i]),
            None => forall|j: int|
                0 <= j < n ==> !(decides(#[trigger] v[j]) && v[j].brand.len() > 0),
        },
    decreases n,
{
    if n > 0 {
        lemma_heaviest(v, keys, n - 1);
    }
}

/// The brand for which a penalty may be softened is that of the heaviest signal that may
/// decide by itself and names one, of equal ones the last.
pub proof fn law_suggested_brand_is_the_heaviest(v: Seq<SigView>, keys: Seq<i32>, i: int)
    requires
        0 <= i < v.len(),
    ensures
        decides(v[i]) && v[i].brand.len() > 0 && (forall|j: int|
            0 <= j < v.len() && decides(#[trigger] v[j]) && v[j].brand.len() > 0 ==> keys[j]
                < keys[i] || (keys[j] == keys[i] && j <= i)) ==> suggested_brand(v, keys)
            == v[i].brand,
        (forall|j: int|
            0 <= j < v.len() ==> !(decides(#[trigger] v[j]) && v[j].brand.len() > 0))
            ==> suggested_brand(v, keys).len() == 0,
{
    lemma_heaviest(v, keys, v.len() as int);
}

proof fn lemma_low(ports: Seq<u16>)
    ensures
        low_ports(ports).len() == 0 <==> forall|i: int| 0 <= i < ports.len() ==> #[trigger] ports[i]
            >= 1024,
        forall|p: u16| low_ports(ports).contains(p) <==> ports.contains(p) && p < 1024,
    decreases ports.len(),
{
    let q = |p: u16| p < 1024;
    let l = low_ports(ports);
    assert forall|p: u16| low_ports(ports).contains(p) implies ports.contains(p) && p < 1024 by {
        let i = choose|i: int| 0 <= i < l.len() && l[i] == p;
        ports.lemma_filter_pred(q, i);
        ports.lemma_filter_contains_rev(q, p);
    }
    assert forall|p: u16| ports.contains(p) && p < 1024 implies low_ports(ports).contains(p) by {
        let i = choose|i: int| 0 <= i < ports.len() && ports[i] == p;
        ports.lemma_filter_contains(q, i);
    }
    if l.len() == 0 {
        assert forall|i: int| 0 <= i < ports.len() implies #[trigger] ports[i] >= 1024 by {
            if ports[i] < 1024 {
                assert(ports.contains(ports[i]));
                assert(l.contains(ports[i]));
            }
        }
    } else {
        assert(l.contains(l[0]));
        let q0 = l[0];
        ports.lemma_filter_pred(q, 0);
        ports.lemma_filter_contains_rev(q, q0);
        let i = choose|i: int| 0 <= i < ports.len() && ports[i] == l[0];
        assert(ports[i] < 1024);
    }
}

proof fn lemma_penalty_in(
    ps: Seq<Penalty>,
    ports: Seq<u16>,
    brand: Seq<char>,
    n: int,
    k: int,
    x: SigView,
)
    requires
        0 <= k < n <= ps.len(),
        penalty_sig(ps[k], ports, brand).contains(x),
    ensures
        penalty_sigs(ps, ports, brand, n).contains(x),
    decreases n,
{
    crate::laws::score::lemma_in(
        penalty_sigs(ps, ports, brand, n - 1),
        penalty_sig(ps[n - 1], ports, brand),
        x,
    );
    if k < n - 1 {
        lemma_penalty_in(ps, ports, brand, n - 1, k, x);
    }
}

proof fn lemma_penalty_from(ps: Seq<Penalty>, ports: Seq<u16>, brand: Seq<char>, n: int, x: SigView)
    requires
        0 <= n <= ps.len(),
        penalty_sigs(ps, ports, brand, n).contains(x),
    ensures
        exists|k: int|
            0 <= k < n && penalty_sig(#[trigger] ps[k], ports, brand).contains(x),
    decreases n,
{
    if n > 0 {
        let before = penalty_sigs(ps, ports, brand, n - 1);
        let last = penalty_sig(ps[n - 1], ports, brand);
        crate::laws::score::lemma_in(before, last, x);
        if last.contains(x) {
            assert(penalty_sig(ps[n - 1], ports, brand).contains(x));
        } else {
            lemma_penalty_from(ps, ports, brand, n - 1, x);
        }
    } else {
        assert(false);
    }
}

/// The weight that a penalty has against a device of a brand.
pub open spec fn weight_against(p: Penalty, brand: Seq<char>) -> i32 {
    if exists|j: int|
        0 <= j < p.soften_brands@.len() && (#[trigger] p.soften_brands@[j])@ == brand {
        p.soften_weight
    } else {
        p.weight
    }
}

/// An open port below 1024 speaks against what a penalty about such ports names, with its
/// weight, or with its softer weight for a brand of which that is no wonder; a weight of
/// nothing says nothing. Without such a port, or of any other condition, there is no penalty.
pub proof fn law_privileged_ports_speak_against(
    ps: Seq<Penalty>,
    ports: Seq<u16>,
    brand: Seq<char>,
)
    ensures
        (forall|i: int| 0 <= i < ports.len() ==> #[trigger] ports[i] >= 1024) ==> penalty_sigs(
            ps,
            ports,
            brand,
            ps.len() as int,
        ).len() == 0,
        forall|k: int|
            0 <= k < ps.len() && (#[trigger] ps[k]).cond@ == "privileged_port"@ && weight_against(
                ps[k],
                brand,
            ) != 0 && (exists|i: int| 0 <= i < ports.len() && #[trigger] ports[i] < 1024)
                ==> exists|j: int|
                0 <= j < penalty_sigs(ps, ports, brand, ps.len() as int).len() && {
                    let x = #[trigger] penalty_sigs(ps, ports, brand, ps.len() as int)[j];
                    &&& x.source == "penalty"@ && x.kind.len() == 0 && x.age == 0
                    &&& x.brand == ps[k].brand@ && x.os == ps[k].os@ && x.dtype == ps[k].dtype@
                    &&& x.model.len() == 0 && x.platform.len() == 0
                    &&& x.weight == Weight::Whole(weight_against(ps[k], brand) as i64)
                },
        forall|j: int|
            0 <= j < penalty_sigs(ps, ports, brand, ps.len() as int).len() ==> {
                let x = #[trigger] penalty_sigs(ps, ports, brand, ps.len() as int)[j];
                exists|k: int|
                    0 <= k < ps.len() && (#[trigger] ps[k]).cond@ == "privileged_port"@ && x.brand
                        == ps[k].brand@ && x.os == ps[k].os@ && x.dtype == ps[k].dtype@
                        && x.weight == Weight::Whole(weight_against(ps[k], brand) as i64)
            },
        penalty_sigs(ps, ports, brand, ps.len() as int).len() <= ps.len(),
{
    lemma_low(ports);
    let n = ps.len() as int;
    let v = penalty_sigs(ps, ports, brand, n);
    assert forall|k: int| 0 <= k < n implies weight_against(#[trigger] ps[k], brand) == (if texts(
        ps[k].soften_brands@,
    ).contains(brand) {
        ps[k].soften_weight
    } else {
        ps[k].weight
    }) by {
        let ts = texts(ps[k].soften_brands@);
        if ts.contains(brand) {
            let j = choose|j: int| 0 <= j < ts.len() && ts[j] == brand;
            assert(ps[k].soften_brands@[j]@ == brand);
        }
        if exists|j: int|
            0 <= j < ps[k].soften_brands@.len() && (#[trigger] ps[k].soften_brands@[j])@ == brand {
            let j = choose|j: int|
                0 <= j < ps[k].soften_brands@.len() && (#[trigger] ps[k].soften_brands@[j])@
                    == brand;
            assert(ts[j] == brand);
        }
    }
    assert forall|k: int|
        0 <= k < ps.len() && (#[trigger] ps[k]).cond@ == "privileged_port"@ && weight_against(
            ps[k],
            brand,
        ) != 0 && (exists|i: int| 0 <= i < ports.len() && #[trigger] ports[i] < 1024)
            implies exists|j: int|
        0 <= j < v.len() && {
            let x = #[trigger] v[j];
            &&& x.source == "penalty"@ && x.kind.len() == 0 && x.age == 0
            &&& x.brand == ps[k].brand@ && x.os == ps[k].os@ && x.dtype == ps[k].dtype@
            &&& x.model.len() == 0 && x.platform.len() == 0
            &&& x.weight == Weight::Whole(weight_against(ps[k], brand) as i64)
        } by {
        let x = penalty_sig(ps[k], ports, brand)[0];
        assert(penalty_sig(ps[k], ports, brand).contains(x));
        lemma_penalty_in(ps, ports, brand, n, k, x);
        let j = choose|j: int| 0 <= j < v.len() && v[j] == x;
        assert(v[j] == x);
    }
    assert forall|j: int| 0 <= j < v.len() implies {
        let x = #[trigger] v[j];
        exists|k: int|
            0 <= k < ps.len() && (#[trigger] ps[k]).cond@ == "privileged_port"@ && x.brand
                == ps[k].brand@ && x.os == ps[k].os@ && x.dtype == ps[k].dtype@ && x.weight
                == Weight::Whole(weight_against(ps[k], brand) as i64)
    } by {
        let x = v[j];
        assert(v.contains(x));
        lemma_penalty_from(ps, ports, brand, n, x);
        let k = choose|k: int|
            0 <= k < n && penalty_sig(#[trigger] ps[k], ports, brand).contains(x);
        assert(penalty_sig(ps[k], ports, brand)[0] == x);
        assert(weight_against(ps[k], brand) == weight_against(ps[k], brand));
    }
    if forall|i: int| 0 <= i < ports.len() ==> #[trigger] ports[i] >= 1024 {
        if v.len() > 0 {
            assert(v.contains(v[0]));
            lemma_penalty_from(ps, ports, brand, n, v[0]);
        }
    }
    lemma_penalty_count(ps, ports, brand, n);
}

proof fn lemma_penalty_count(ps: Seq<Penalty>, ports: Seq<u16>, brand: Seq<char>, n: int)
    requires
        0 <= n,
    ensures
        penalty_sigs(ps, ports, brand, n).len() <= n,
    decreases n,
{
    if n > 0 {
        lemma_penalty_count(ps, ports, brand, n - 1);
    }
}

} // verus!
