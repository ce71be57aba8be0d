//! A map from names to values that is walked in the order of the names.

use crate::text::{eq, lemma_less_total, lemma_less_trans, less, precedes};
use vstd::prelude::*;

verus! {

/// A map keyed by text. Its view is the sequence of its entries in the order
/// of the names.
pub struct NameMap<V> {
    entries: Vec<(String, V)>,
}

/// The entries of a map, as names and values.
pub type Entries<V> = Seq<(Seq<char>, V)>;

/// Whether the names stand in strictly ascending order, so that none occurs
/// twice.
pub open spec fn ordered<V>(m: Entries<V>) -> bool {
    forall|i: int, j: int| 0 <= i < j < m.len() ==> less(#[trigger] m[i].0, #[trigger] m[j].0)
}

/// The names of a map.
pub open spec fn names_of<V>(m: Entries<V>) -> Seq<Seq<char>> {
    m.map_values(|e: (Seq<char>, V)| e.0)
}

/// The value under the name `k`.
pub open spec fn lookup<V>(m: Entries<V>, k: Seq<char>) -> Option<V>
    decreases m.len(),
{
    if m.len() == 0 {
        None
    } else if m[0].0 == k {
        Some(m[0].1)
    } else {
        lookup(m.skip(1), k)
    }
}

/// The value under the name `k`, or `d` where there is none.
pub open spec fn lookup_or<V>(m: Entries<V>, k: Seq<char>, d: V) -> V {
    match lookup(m, k) {
        Some(v) => v,
        None => d,
    }
}

/// The entries with `v` under the name `k`: in the place of the old value, or
/// in the place where the order of the names puts it.
pub open spec fn put<V>(m: Entries<V>, k: Seq<char>, v: V) -> Entries<V>
    decreases m.len(),
{
    if m.len() == 0 {
        seq![(k, v)]
    } else if m[0].0 == k {
        seq![(k, v)] + m.skip(1)
    } else if less(k, m[0].0) {
        seq![(k, v)] + m
    } else {
        seq![m[0]] + put(m.skip(1), k, v)
    }
}

/// The entries without the one under the name `k`.
pub open spec fn without<V>(m: Entries<V>, k: Seq<char>) -> Entries<V>
    decreases m.len(),
{
    if m.len() == 0 {
        m
    } else if m[0].0 == k {
        m.skip(1)
    } else {
        seq![m[0]] + without(m.skip(1), k)
    }
}

proof fn lemma_ordered_skip<V>(m: Entries<V>)
    requires
        ordered(m),
        m.len() > 0,
    ensures
        ordered(m.skip(1)),
        forall|i: int| 0 <= i < m.skip(1).len() ==> m.skip(1)[i] == #[trigger] m[i + 1],
{
}

pub proof fn lemma_lookup_at<V>(m: Entries<V>, k: Seq<char>, i: int)
    requires
        0 <= i < m.len(),
        m[i].0 == k,
        forall|j: int| 0 <= j < i ==> (#[trigger] m[j]).0 != k,
    ensures
        lookup(m, k) == Some(m[i].1),
    decreases m.len(),
{
    if i > 0 {
        assert(m[0].0 != k);
        let t = m.skip(1);
        assert forall|j: int| 0 <= j < i - 1 implies (#[trigger] t[j]).0 != k by {
            assert(t[j] == m[j + 1]);
        }
        lemma_lookup_at(t, k, i - 1);
    }
}

pub proof fn lemma_lookup_none<V>(m: Entries<V>, k: Seq<char>)
    requires
        forall|j: int| 0 <= j < m.len() ==> (#[trigger] m[j]).0 != k,
    ensures
        lookup(m, k) is None,
    decreases m.len(),
{
    if m.len() > 0 {
        let t = m.skip(1);
        assert forall|j: int| 0 <= j < t.len() implies (#[trigger] t[j]).0 != k by {
            assert(t[j] == m[j + 1]);
        }
        lemma_lookup_none(t, k);
    }
}

/// A name that is found stands at some position.
pub proof fn lemma_lookup_index<V>(m: Entries<V>, k: Seq<char>) -> (i: int)
    requires
        lookup(m, k) is Some,
    ensures
        0 <= i < m.len(),
        m[i].0 == k,
        lookup(m, k) == Some(m[i].1),
    decreases m.len(),
{
    if m[0].0 == k {
        0
    } else {
        let i = lemma_lookup_index(m.skip(1), k);
        assert(m.skip(1)[i] == m[i + 1]);
        i + 1
    }
}

/// Where the name is present, `put` replaces its value.
pub proof fn lemma_put_at<V>(m: Entries<V>, k: Seq<char>, v: V, i: int)
    requires
        ordered(m),
        0 <= i < m.len(),
        m[i].0 == k,
    ensures
        put(m, k, v) == m.update(i, (k, v)),
        lookup(m, k) == Some(m[i].1),
    decreases m.len(),
{
    let t = m.skip(1);
    if i == 0 {
        assert(put(m, k, v) =~= m.update(i, (k, v)));
    } else {
        assert(less(m[0].0, m[i].0));
        lemma_less_total(m[0].0, k);
        lemma_ordered_skip(m);
        lemma_put_at(t, k, v, i - 1);
        assert(put(m, k, v) =~= m.update(i, (k, v)));
    }
}

/// Where the name is absent, `put` inserts it in its place.
pub proof fn lemma_put_insert<V>(m: Entries<V>, k: Seq<char>, v: V, i: int)
    requires
        ordered(m),
        0 <= i <= m.len(),
        forall|j: int| 0 <= j < i ==> less((#[trigger] m[j]).0, k),
        i < m.len() ==> less(k, m[i].0),
    ensures
        put(m, k, v) == m.insert(i, (k, v)),
        lookup(m, k) is None,
        ordered(m.insert(i, (k, v))),
    decreases m.len(),
{
    let out = m.insert(i, (k, v));
    assert forall|a: int, b: int| 0 <= a < b < out.len() implies less(
        #[trigger] out[a].0,
        #[trigger] out[b].0,
    ) by {
        let ma = if a < i { a } else { a - 1 };
        let mb = if b < i { b } else { b - 1 };
        if a == i {
            assert(out[b] == m[b - 1]);
            if b - 1 > i {
                assert(less(m[i].0, m[b - 1].0));
                lemma_less_trans(k, m[i].0, m[b - 1].0);
            }
        } else if b == i {
            assert(out[a] == m[a]);
        } else {
            assert(out[a] == m[ma] && out[b] == m[mb]);
        }
    }
    assert forall|j: int| 0 <= j < m.len() implies (#[trigger] m[j]).0 != k by {
        lemma_less_total(m[j].0, k);
        if j > i {
            assert(less(m[i].0, m[j].0));
            lemma_less_trans(k, m[i].0, m[j].0);
        }
    }
    lemma_lookup_none(m, k);
    if m.len() > 0 {
        let t = m.skip(1);
        if i == 0 {
            lemma_less_total(m[0].0, k);
            assert(put(m, k, v) =~= m.insert(i, (k, v)));
        } else {
            assert(less(m[0].0, k));
            lemma_less_total(m[0].0, k);
            lemma_ordered_skip(m);
            assert forall|j: int| 0 <= j < i - 1 implies less((#[trigger] t[j]).0, k) by {
                assert(t[j] == m[j + 1]);
            }
            lemma_put_insert(t, k, v, i - 1);
            assert(put(m, k, v) =~= m.insert(i, (k, v)));
        }
    } else {
        assert(put(m, k, v) =~= m.insert(i, (k, v)));
    }
}

/// Every name has one place in the order.
pub proof fn lemma_place<V>(m: Entries<V>, k: Seq<char>) -> (i: int)
    requires
        ordered(m),
    ensures
        0 <= i <= m.len(),
        forall|j: int| 0 <= j < i ==> less((#[trigger] m[j]).0, k),
        i < m.len() ==> m[i].0 == k || less(k, m[i].0),
    decreases m.len(),
{
    if m.len() == 0 {
        0
    } else if less(m[0].0, k) {
        lemma_ordered_skip(m);
        let t = m.skip(1);
        let i = lemma_place(t, k);
        assert forall|j: int| 0 <= j < i + 1 implies less((#[trigger] m[j]).0, k) by {
            if j > 0 {
                assert(t[j - 1] == m[j]);
            }
        }
        if i < t.len() {
            assert(t[i] == m[i + 1]);
        }
        i + 1
    } else {
        lemma_less_total(m[0].0, k);
        0
    }
}

/// What is put under a name is what is then found under it, the other names
/// keep their values, and the order is kept.
pub proof fn law_put_then_lookup<V>(m: Entries<V>, k: Seq<char>, v: V, other: Seq<char>)
    requires
        ordered(m),
    ensures
        ordered(put(m, k, v)),
        lookup(put(m, k, v), k) == Some(v),
        other != k ==> lookup(put(m, k, v), other) == lookup(m, other),
{
    let i = lemma_place(m, k);
    if i < m.len() && m[i].0 == k {
        lemma_put_at(m, k, v, i);
        assert(ordered(put(m, k, v)));
    } else {
        lemma_put_insert(m, k, v, i);
    }
    lemma_lookup_after(m, k, v, other);
}

proof fn lemma_lookup_after<V>(m: Entries<V>, k: Seq<char>, v: V, other: Seq<char>)
    ensures
        lookup(put(m, k, v), k) == Some(v),
        other != k ==> lookup(put(m, k, v), other) == lookup(m, other),
    decreases m.len(),
{
    let p = put(m, k, v);
    if m.len() == 0 {
        assert(p.skip(1) =~= m);
    } else if m[0].0 == k {
        assert(p.skip(1) =~= m.skip(1));
    } else if less(k, m[0].0) {
        assert(p.skip(1) =~= m);
    } else {
        assert(p.skip(1) =~= put(m.skip(1), k, v));
        lemma_lookup_after(m.skip(1), k, v, other);
    }
}

proof fn lemma_without_at<V>(m: Entries<V>, k: Seq<char>, i: int)
    requires
        ordered(m),
        0 <= i < m.len(),
        m[i].0 == k,
    ensures
        without(m, k) == m.remove(i),
        ordered(m.remove(i)),
    decreases m.len(),
{
    if i == 0 {
        assert(without(m, k) =~= m.remove(i));
    } else {
        assert(less(m[0].0, m[i].0));
        lemma_less_total(m[0].0, k);
        lemma_ordered_skip(m);
        lemma_without_at(m.skip(1), k, i - 1);
        assert(without(m, k) =~= m.remove(i));
    }
}

proof fn lemma_without_absent<V>(m: Entries<V>, k: Seq<char>)
    requires
        lookup(m, k) is None,
    ensures
        without(m, k) == m,
    decreases m.len(),
{
    if m.len() > 0 {
        lemma_without_absent(m.skip(1), k);
        assert(without(m, k) =~= m);
    }
}

/// A name that was removed is found no more, and the other names keep their
/// values.
pub proof fn law_without_then_lookup<V>(m: Entries<V>, k: Seq<char>, other: Seq<char>)
    requires
        ordered(m),
    ensures
        ordered(without(m, k)),
        lookup(without(m, k), k) is None,
        other != k ==> lookup(without(m, k), other) == lookup(m, other),
    decreases m.len(),
{
    if lookup(m, k) is Some {
        let i = lemma_lookup_index(m, k);
        lemma_without_at(m, k, i);
        let w = without(m, k);
        assert forall|j: int| 0 <= j < w.len() implies (#[trigger] w[j]).0 != k by {
            let a = if j < i { j } else { j + 1 };
            assert(w[j] == m[a]);
            lemma_less_total(m[a].0, m[i].0);
            if a < i {
                assert(less(m[a].0, m[i].0));
            } else {
                assert(less(m[i].0, m[a].0));
            }
        }
        lemma_lookup_none(w, k);
        lemma_without_others(m, k, other);
    } else {
        lemma_without_absent(m, k);
    }
}

proof fn lemma_without_others<V>(m: Entries<V>, k: Seq<char>, other: Seq<char>)
    ensures
        other != k ==> lookup(without(m, k), other) == lookup(m, other),
    decreases m.len(),
{
    if m.len() > 0 && m[0].0 != k {
        let w = without(m, k);
        assert(w.skip(1) =~= without(m.skip(1), k));
        lemma_without_others(m.skip(1), k, other);
    }
}

impl<V> View for NameMap<V> {
    type V = Seq<(Seq<char>, V)>;

    closed spec fn view(&self) -> Seq<(Seq<char>, V)> {
        self.entries@.map_values(|e: (String, V)| (e.0@, e.1))
    }
}

impl<V> NameMap<V> {
    /// Whether the names stand in order. Every map that this type's functions
    /// make and change is well formed.
    pub open spec fn wf(&self) -> bool {
        ordered(self@)
    }

    /// The empty map.
    pub fn new() -> (r: NameMap<V>)
        ensures
            r@ == Seq::<(Seq<char>, V)>::empty(),
            r.wf(),
    {
        let r = NameMap { entries: Vec::new() };
        assert(r@ =~= Seq::<(Seq<char>, V)>::empty());
        r
    }

    /// How many names the map holds.
    pub fn len(&self) -> (r: usize)
        ensures
            r == self@.len(),
    {
        self.entries.len()
    }

    pub fn is_empty(&self) -> (r: bool)
        ensures
            r == (self@.len() == 0),
    {
        self.entries.len() == 0
    }

    /// The name at position `i`.
    pub fn name_at(&self, i: usize) -> (r: &String)
        requires
            i < self@.len(),
        ensures
            r@ == self@[i as int].0,
    {
        &self.entries[i].0
    }

    /// The value at position `i`.
    pub fn value_at(&self, i: usize) -> (r: &V)
        requires
            i < self@.len(),
        ensures
            *r == self@[i as int].1,
    {
        &self.entries[i].1
    }

    /// The value at position `i`, to be changed.
    pub fn value_at_mut(&mut self, i: usize) -> (r: &mut V)
        requires
            i < old(self)@.len(),
        ensures
            *r == old(self)@[i as int].1,
            final(self)@ == old(self)@.update(i as int, (old(self)@[i as int].0, *final(r))),
            old(self).wf() ==> final(self).wf(),
    {
        let ghost was = self@;
        let r = &mut self.entries[i].1;
        proof {
            let now = was.update(i as int, (was[i as int].0, *final(r)));
            if ordered(was) {
                assert forall|a: int, b: int| 0 <= a < b < now.len() implies less(
                    #[trigger] now[a].0,
                    #[trigger] now[b].0,
                ) by {
                    assert(now[a].0 == was[a].0 && now[b].0 == was[b].0);
                }
            }
        }
        r
    }

    /// Where the name is, or where it would be put.
    fn place(&self, k: &str) -> (r: (usize, bool))
        requires
            self.wf(),
        ensures
            r.0 <= self@.len(),
            forall|j: int| 0 <= j < r.0 ==> less((#[trigger] self@[j]).0, k@),
            r.1 ==> r.0 < self@.len() && self@[r.0 as int].0 == k@,
            !r.1 ==> (r.0 < self@.len() ==> less(k@, self@[r.0 as int].0)),
    {
        let mut i: usize = 0;
        while i < self.entries.len()
            invariant
                i <= self@.len(),
                self@.len() == self.entries@.len(),
                forall|j: int| 0 <= j < i ==> less((#[trigger] self@[j]).0, k@),
            decreases self@.len() - i,
        {
            let name = self.entries[i].0.as_str();
            assert(name@ == self@[i as int].0);
            if eq(name, k) {
                return (i, true);
            }
            if !precedes(name, k) {
                proof {
                    lemma_less_total(name@, k@);
                }
                return (i, false);
            }
            i = i + 1;
        }
        (i, false)
    }

    /// The value under the name `k`.
    pub fn get(&self, k: &str) -> (r: Option<&V>)
        requires
            self.wf(),
        ensures
            r is Some <==> lookup(self@, k@) is Some,
            r matches Some(v) ==> lookup(self@, k@) == Some(*v),
    {
        let (i, found) = self.place(k);
        if found {
            proof {
                lemma_put_at(self@, k@, self@[i as int].1, i as int);
            }
            Some(&self.entries[i].1)
        } else {
            proof {
                if i < self@.len() {
                    lemma_put_insert(self@, k@, self@[i as int].1, i as int);
                } else {
                    assert forall|j: int| 0 <= j < self@.len() implies (#[trigger] self@[j]).0
                        != k@ by {
                        lemma_less_total(self@[j].0, k@);
                    }
                    lemma_lookup_none(self@, k@);
                }
            }
            None
        }
    }

    /// Whether the map holds the name `k`.
    pub fn contains_key(&self, k: &str) -> (r: bool)
        requires
            self.wf(),
        ensures
            r == (lookup(self@, k@) is Some),
    {
        match self.get(k) {
            Some(_) => true,
            None => false,
        }
    }

    /// Puts `v` under the name `k`.
    pub fn insert(&mut self, k: String, v: V)
        requires
            old(self).wf(),
        ensures
            final(self).wf(),
            final(self)@ == put(old(self)@, k@, v),
    {
        let (i, found) = self.place(k.as_str());
        let ghost was = self@;
        if found {
            proof {
                lemma_put_at(was, k@, v, i as int);
            }
            self.entries.set(i, (k, v));
            assert(self@ =~= was.update(i as int, (k@, v)));
        } else {
            proof {
                lemma_put_insert(was, k@, v, i as int);
            }
            self.entries.insert(i, (k, v));
            assert(self@ =~= was.insert(i as int, (k@, v)));
        }
    }

    /// The value under the name `k`, to be changed; where there is none, `v`
    /// is put there first.
    pub fn entry(&mut self, k: &str, v: V) -> (r: &mut V)
        requires
            old(self).wf(),
        ensures
            *r == lookup_or(old(self)@, k@, v),
            final(self)@ == put(old(self)@, k@, *final(r)),
            final(self).wf(),
    {
        let (i, found) = self.place(k);
        let ghost was = self@;
        if !found {
            proof {
                lemma_put_insert(was, k@, v, i as int);
            }
            self.entries.insert(i, (k.to_string(), v));
            assert(self@ =~= was.insert(i as int, (k@, v)));
        } else {
            proof {
                lemma_put_at(was, k@, v, i as int);
            }
        }
        let ghost mid = self@;
        let r = self.value_at_mut(i);
        proof {
            let last = *final(r);
            if found {
                lemma_put_at(was, k@, last, i as int);
            } else {
                lemma_put_insert(was, k@, last, i as int);
                assert(mid.update(i as int, (k@, last)) =~= was.insert(i as int, (k@, last)));
            }
        }
        r
    }

    /// The value under the name `k`, to be changed.
    pub fn get_mut(&mut self, k: &str) -> (r: Option<&mut V>)
        requires
            old(self).wf(),
        ensures
            r is Some <==> lookup(old(self)@, k@) is Some,
            r matches Some(v) ==> lookup(old(self)@, k@) == Some(*v) && final(self)@ == put(
                old(self)@,
                k@,
                *final(v),
            ),
            r is None ==> final(self)@ == old(self)@,
            final(self).wf(),
    {
        let (i, found) = self.place(k);
        let ghost was = self@;
        if !found {
            proof {
                if i < was.len() {
                    lemma_put_insert(was, k@, was[i as int].1, i as int);
                } else {
                    assert forall|j: int| 0 <= j < was.len() implies (#[trigger] was[j]).0
                        != k@ by {
                        lemma_less_total(was[j].0, k@);
                    }
                    lemma_lookup_none(was, k@);
                }
            }
            return None;
        }
        let r = self.value_at_mut(i);
        proof {
            lemma_put_at(was, k@, *final(r), i as int);
        }
        Some(r)
    }

    /// Takes the entry under the name `k` out of the map.
    pub fn remove(&mut self, k: &str) -> (r: Option<V>)
        requires
            old(self).wf(),
        ensures
            final(self).wf(),
            final(self)@ == without(old(self)@, k@),
            r == lookup(old(self)@, k@),
    {
        let (i, found) = self.place(k);
        let ghost was = self@;
        if found {
            proof {
                lemma_without_at(was, k@, i as int);
                lemma_put_at(was, k@, was[i as int].1, i as int);
            }
            let e = self.entries.remove(i);
            assert(self@ =~= was.remove(i as int));
            Some(e.1)
        } else {
            proof {
                assert forall|j: int| 0 <= j < was.len() implies (#[trigger] was[j]).0 != k@ by {
                    lemma_less_total(was[j].0, k@);
                    if j >= i {
                        lemma_less_total(k@, was[i as int].0);
                        if j > i {
                            assert(less(was[i as int].0, was[j].0));
                            lemma_less_trans(k@, was[i as int].0, was[j].0);
                        }
                    }
                }
                lemma_lookup_none(was, k@);
                lemma_without_absent(was, k@);
            }
            None
        }
    }

    /// Takes the entry at position `i` out of the map.
    pub fn remove_at(&mut self, i: usize) -> (r: V)
        requires
            i < old(self)@.len(),
        ensures
            final(self)@ == old(self)@.remove(i as int),
            old(self).wf() ==> final(self).wf(),
            r == old(self)@[i as int].1,
    {
        let ghost was = self@;
        let e = self.entries.remove(i);
        assert(self@ =~= was.remove(i as int));
        e.1
    }
}

/// The entries from position `i` on that are marked to be kept.
pub open spec fn marked<V>(m: Entries<V>, keep: Seq<bool>, i: int) -> Entries<V>
    decreases m.len() - i,
{
    if i < 0 || i >= m.len() {
        Seq::empty()
    } else if keep[i] {
        seq![m[i]] + marked(m, keep, i + 1)
    } else {
        marked(m, keep, i + 1)
    }
}

/// Whether `e` is an entry from position `i` on that is marked to be kept.
pub open spec fn kept_from<V>(m: Entries<V>, keep: Seq<bool>, i: int, e: (Seq<char>, V)) -> bool {
    exists|k: int| i <= k < m.len() && keep[k] && #[trigger] m[k] == e
}

/// Each kept entry was marked.
pub proof fn lemma_marked<V>(m: Entries<V>, keep: Seq<bool>, i: int)
    requires
        0 <= i <= m.len(),
    ensures
        marked(m, keep, i).len() <= m.len() - i,
        forall|j: int|
            0 <= j < marked(m, keep, i).len() ==> kept_from(
                m,
                keep,
                i,
                #[trigger] marked(m, keep, i)[j],
            ),
    decreases m.len() - i,
{
    if i < m.len() {
        lemma_marked(m, keep, i + 1);
        let rest = marked(m, keep, i + 1);
        let all = marked(m, keep, i);
        assert forall|j: int| 0 <= j < all.len() implies kept_from(
            m,
            keep,
            i,
            #[trigger] all[j],
        ) by {
            if keep[i] && j == 0 {
                assert(m[i] == all[j]);
            } else {
                let e = rest[if keep[i] {
                    j - 1
                } else {
                    j
                }];
                assert(all[j] == e);
                assert(kept_from(m, keep, i + 1, e));
                let k = choose|k: int| i + 1 <= k < m.len() && keep[k] && #[trigger] m[k] == e;
                assert(m[k] == all[j]);
            }
        }
    }
}

/// An entry that is marked to be kept is kept.
pub proof fn law_marked_entries_stay<V>(m: Entries<V>, keep: Seq<bool>, i: int, k: int)
    requires
        0 <= i <= k < m.len(),
        keep[k],
    ensures
        marked(m, keep, i).contains(m[k]),
    decreases m.len() - i,
{
    let all = marked(m, keep, i);
    let rest = marked(m, keep, i + 1);
    if i == k {
        assert(all[0] == m[k]);
    } else {
        law_marked_entries_stay(m, keep, i + 1, k);
        let j = choose|j: int| 0 <= j < rest.len() && rest[j] == m[k];
        if keep[i] {
            assert(all[j + 1] == m[k]);
        } else {
            assert(all[j] == m[k]);
        }
    }
}

proof fn lemma_marked_ordered<V>(m: Entries<V>, keep: Seq<bool>, i: int)
    requires
        0 <= i <= m.len(),
        ordered(m),
    ensures
        ordered(marked(m, keep, i)),
    decreases m.len() - i,
{
    if i < m.len() {
        lemma_marked_ordered(m, keep, i + 1);
        lemma_marked(m, keep, i + 1);
        let rest = marked(m, keep, i + 1);
        let all = marked(m, keep, i);
        assert forall|a: int, b: int| 0 <= a < b < all.len() implies less(
            #[trigger] all[a].0,
            #[trigger] all[b].0,
        ) by {
            if keep[i] {
                assert(all[b] == rest[b - 1]);
                if a == 0 {
                    let e = rest[b - 1];
                    assert(kept_from(m, keep, i + 1, e));
                    let k = choose|k: int| i + 1 <= k < m.len() && keep[k] && #[trigger] m[k] == e;
                    assert(less(m[i].0, m[k].0));
                } else {
                    assert(all[a] == rest[a - 1]);
                }
            }
        }
    }
}

impl<V> NameMap<V> {
    /// Keeps the marked entries.
    pub fn retain_marked(&mut self, keep: &Vec<bool>)
        requires
            old(self).wf(),
            keep@.len() == old(self)@.len(),
        ensures
            final(self).wf(),
            final(self)@ == marked(old(self)@, keep@, 0),
    {
        let ghost was = self@;
        let mut i = self.entries.len();
        assert(was.take(was.len() as int) + marked(was, keep@, was.len() as int) =~= was);
        while i > 0
            invariant
                i <= was.len(),
                keep@.len() == was.len(),
                self@ == was.take(i as int) + marked(was, keep@, i as int),
            decreases i,
        {
            i = i - 1;
            let ghost tail = marked(was, keep@, i + 1);
            let ghost before = self@;
            if !keep[i] {
                assert(self.entries@.len() == before.len());
                self.entries.remove(i);
                assert(self@ =~= before.remove(i as int));
                assert(self@ =~= was.take(i as int) + tail);
            } else {
                assert(was.take(i + 1) + tail =~= was.take(i as int) + (seq![was[i as int]]
                    + tail));
            }
        }
        assert(was.take(0) + marked(was, keep@, 0) =~= marked(was, keep@, 0));
        proof {
            lemma_marked_ordered(was, keep@, 0);
        }
    }
}

/// The entries with the views of their values.
pub open spec fn views<V: View>(m: Entries<V>) -> Entries<V::V> {
    m.map_values(|e: (Seq<char>, V)| (e.0, e.1@))
}

/// Taking views goes together with looking up, putting and removing.
pub proof fn lemma_views<V: View>(m: Entries<V>, k: Seq<char>, v: V)
    ensures
        views(put(m, k, v)) == put(views(m), k, v@),
        views(without(m, k)) == without(views(m), k),
        match lookup(m, k) {
            Some(x) => lookup(views(m), k) == Some(x@),
            None => lookup(views(m), k) is None,
        },
        ordered(m) == ordered(views(m)),
    decreases m.len(),
{
    let l = views(m);
    if m.len() > 0 {
        lemma_views(m.skip(1), k, v);
        assert(views(m.skip(1)) =~= l.skip(1));
    }
    assert(views(put(m, k, v)) =~= put(l, k, v@));
    assert(views(without(m, k)) =~= without(l, k));
    assert(ordered(m) == ordered(l)) by {
        assert(forall|i: int| 0 <= i < m.len() ==> (#[trigger] l[i]).0 == (#[trigger] m[i]).0);
        if ordered(l) {
            assert forall|a: int, b: int| 0 <= a < b < m.len() implies less(
                #[trigger] m[a].0,
                #[trigger] m[b].0,
            ) by {
                assert(less(l[a].0, l[b].0));
            }
        }
        if ordered(m) {
            assert forall|a: int, b: int| 0 <= a < b < l.len() implies less(
                #[trigger] l[a].0,
                #[trigger] l[b].0,
            ) by {
                assert(less(m[a].0, m[b].0));
            }
        }
    }
}

/// Taking views goes together with keeping the marked entries.
pub proof fn lemma_views_marked<V: View>(m: Entries<V>, keep: Seq<bool>, i: int)
    requires
        0 <= i <= m.len(),
    ensures
        views(marked(m, keep, i)) == marked(views(m), keep, i),
    decreases m.len() - i,
{
    if i < m.len() {
        lemma_views_marked(m, keep, i + 1);
    }
    assert(views(marked(m, keep, i)) =~= marked(views(m), keep, i));
}

impl<V> Default for NameMap<V> {
    fn default() -> (r: NameMap<V>)
        ensures
            r@ == Seq::<(Seq<char>, V)>::empty(),
            r.wf(),
    {
        NameMap::new()
    }
}

} // verus!
