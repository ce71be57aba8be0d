//! Who holds a hardware prefix. The list has one line for each: the prefix in six
//! hexadecimal digits, a tab, the holder's name; a line that starts with `#` is a
//! comment. It is read line by line and never held as a whole.

use crate::names::{
    law_put_then_lookup, lemma_lookup_at, lemma_lookup_index, lemma_views, lookup, names_of,
    ordered, put, views, Entries, NameMap,
};
use crate::text::{
    begins, chars, contains, lemma_less_total, less, lower, mentions, part_first, split_first,
    starts, text, texts, to_lower, trim, trimmed,
};
use vstd::prelude::*;

verus! {

/// Where the list is kept.
pub const DEFAULT_DB: &'static str = "/usr/share/whohere/oui.txt";

/// The prefix and the holder in a line.
pub open spec fn list_entry(line: Seq<char>) -> Option<(Seq<char>, Seq<char>)> {
    if starts(line, "#"@) {
        None
    } else {
        match split_first(line, '\t') {
            Some((p, v)) => Some((lower(trimmed(p)), trimmed(v))),
            None => None,
        }
    }
}

/// The holders found after one more line of the list.
pub open spec fn found_after(
    found: Entries<Seq<char>>,
    want: Entries<bool>,
    line: Seq<char>,
) -> Entries<Seq<char>> {
    match list_entry(line) {
        Some((p, v)) if lookup(want, p) is Some => put(found, p, v),
        _ => found,
    }
}

/// Whether a line names a wanted prefix.
pub open spec fn names_wanted(want: Entries<bool>, line: Seq<char>) -> bool {
    list_entry(line) matches Some((p, _)) && lookup(want, p) is Some
}

/// Looks for wanted prefixes in one line of the list, and says whether all have
/// been found with it.
fn lookup_line(found: &mut NameMap<String>, want: &NameMap<bool>, line: &str) -> (done: bool)
    requires
        old(found).wf(),
        want.wf(),
    ensures
        final(found).wf(),
        views(final(found)@) == found_after(views(old(found)@), want@, line@),
        done == (names_wanted(want@, line@) && final(found)@.len() == want@.len()),
{
    let lc = chars(line);
    let l = lc.as_slice();
    if begins(l, "#") {
        return false;
    }
    match part_first(l, '\t') {
        Some((p, v)) => {
            let low = to_lower(trim(p));
            let key = text(low.as_slice());
            if want.contains_key(key.as_str()) {
                let name = text(trim(v));
                proof {
                    lemma_views(found@, key@, name);
                }
                found.insert(key, name);
                found.len() == want.len()
            } else {
                false
            }
        },
        None => false,
    }
}

/// The holders found after the lines from `i` on, up to the one with which all
/// have been found, and whether there is such a one.
pub open spec fn found_from(
    found: Entries<Seq<char>>,
    want: Entries<bool>,
    ls: Seq<Seq<char>>,
    i: int,
) -> (Entries<Seq<char>>, bool)
    decreases ls.len() - i,
{
    if i < 0 || i >= ls.len() {
        (found, false)
    } else {
        let next = found_after(found, want, ls[i]);
        if names_wanted(want, ls[i]) && next.len() == want.len() {
            (next, true)
        } else {
            found_from(next, want, ls, i + 1)
        }
    }
}

/// Looks for wanted prefixes in some lines of the list, and says whether all have
/// been found with them. The lines behind the one that completes the search are
/// not looked at.
pub fn lookup_many(lines: &Vec<String>, want: &NameMap<bool>, found: &mut NameMap<String>) -> (done:
    bool)
    requires
        old(found).wf(),
        want.wf(),
    ensures
        final(found).wf(),
        (views(final(found)@), done) == found_from(views(old(found)@), want@, texts(lines@), 0),
{
    let ghost all = texts(lines@);
    let ghost start = views(found@);
    for i in 0..lines.len()
        invariant
            all == texts(lines@),
            start == views(old(found)@),
            want.wf(),
            found.wf(),
            found_from(start, want@, all, 0) == found_from(views(found@), want@, all, i as int),
    {
        assert(all[i as int] == lines@[i as int]@);
        if lookup_line(found, want, lines[i].as_str()) {
            assert(views(found@).len() == found@.len());
            return true;
        }
        assert(views(found@).len() == found@.len());
    }
    false
}

/// Whether a line is an entry: no comment, and with a tab.
pub open spec fn is_entry(line: Seq<char>) -> bool {
    !starts(line, "#"@) && contains(line, "\t"@)
}

/// Counts the entries among some lines of the list.
pub fn count(lines: &Vec<String>) -> (r: usize)
    ensures
        r == texts(lines@).filter(|l: Seq<char>| is_entry(l)).len(),
{
    let ghost all = texts(lines@);
    let ghost p = |l: Seq<char>| is_entry(l);
    let mut c: usize = 0;
    assert(all.take(0).filter(p).len() == 0) by {
        reveal(Seq::filter);
    }
    for i in 0..lines.len()
        invariant
            all == texts(lines@),
            p == (|l: Seq<char>| is_entry(l)),
            c == all.take(i as int).filter(p).len(),
            c <= i,
    {
        let lc = chars(lines[i].as_str());
        assert(all[i as int] == lc@);
        assert(all.take(i + 1).drop_last() =~= all.take(i as int));
        if !begins(lc.as_slice(), "#") && mentions(lc.as_slice(), "\t") {
            c = c + 1;
        }
        assert(c == all.take(i + 1).filter(p).len()) by {
            reveal(Seq::filter);
        }
    }
    assert(all.take(all.len() as int) =~= all);
    c
}

/// No prefix that was not asked for is ever found.
pub proof fn law_only_wanted_prefixes_are_found(
    found: Entries<Seq<char>>,
    want: Entries<bool>,
    line: Seq<char>,
    p: Seq<char>,
)
    requires
        ordered(found),
        lookup(found, p) is None,
        lookup(want, p) is None,
    ensures
        lookup(found_after(found, want, line), p) is None,
{
    if names_wanted(want, line) {
        let (q, v) = list_entry(line).unwrap();
        law_put_then_lookup(found, q, v, p);
    }
}

/// A list that comes in parts is searched as if it came at once: what is behind is looked
/// at only where something is still missing.
pub proof fn law_parts_are_searched_in_turn(
    found: Entries<Seq<char>>,
    want: Entries<bool>,
    a: Seq<Seq<char>>,
    b: Seq<Seq<char>>,
)
    ensures
        found_from(found, want, a + b, 0) == match found_from(found, want, a, 0) {
            (f, true) => (f, true),
            (f, false) => found_from(f, want, b, 0),
        },
{
    lemma_first_part(found, want, a, b, 0);
}

proof fn lemma_first_part(
    found: Entries<Seq<char>>,
    want: Entries<bool>,
    a: Seq<Seq<char>>,
    b: Seq<Seq<char>>,
    i: int,
)
    requires
        0 <= i <= a.len(),
    ensures
        found_from(found, want, a + b, i) == match found_from(found, want, a, i) {
            (f, true) => (f, true),
            (f, false) => found_from(f, want, b, 0),
        },
    decreases a.len() - i,
{
    if i < a.len() {
        assert((a + b)[i] == a[i]);
        lemma_first_part(found_after(found, want, a[i]), want, a, b, i + 1);
    } else {
        lemma_second_part(found, want, a, b, 0);
    }
}

proof fn lemma_second_part(
    found: Entries<Seq<char>>,
    want: Entries<bool>,
    a: Seq<Seq<char>>,
    b: Seq<Seq<char>>,
    i: int,
)
    requires
        0 <= i <= b.len(),
    ensures
        found_from(found, want, a + b, a.len() + i) == found_from(found, want, b, i),
    decreases b.len() - i,
{
    if i < b.len() {
        assert((a + b)[a.len() + i] == b[i]);
        lemma_second_part(found_after(found, want, b[i]), want, a, b, i + 1);
    }
}

/// Whether no two lines are about the same prefix.
pub open spec fn no_prefix_twice(ls: Seq<Seq<char>>) -> bool {
    forall|i: int, j: int|
        0 <= i < j < ls.len() && list_entry(#[trigger] ls[i]) is Some && list_entry(
            #[trigger] ls[j],
        ) is Some ==> list_entry(ls[i]).unwrap().0 != list_entry(ls[j]).unwrap().0
}

/// Whether a line from `i` on is about a prefix.
pub open spec fn has_line(ls: Seq<Seq<char>>, i: int, p: Seq<char>) -> bool {
    exists|j: int|
        i <= j < ls.len() && (list_entry(#[trigger] ls[j]) matches Some((q, _)) && q == p)
}

/// In a list with no prefix twice, a wanted prefix is found with the holder of its line, and
/// one without a line is not found.
pub proof fn law_wanted_prefix_has_its_holder(
    want: Entries<bool>,
    ls: Seq<Seq<char>>,
    p: Seq<char>,
)
    requires
        ordered(want),
        no_prefix_twice(ls),
        lookup(want, p) is Some,
    ensures
        forall|i: int|
            0 <= i < ls.len() && (list_entry(#[trigger] ls[i]) matches Some((q, _)) && q == p)
                ==> lookup(found_from(Seq::empty(), want, ls, 0).0, p) == Some(
                list_entry(ls[i]).unwrap().1,
            ),
        !has_line(ls, 0, p) ==> lookup(found_from(Seq::empty(), want, ls, 0).0, p) is None,
{
    assert forall|i: int|
        0 <= i < ls.len() && (list_entry(#[trigger] ls[i]) matches Some((q, _)) && q == p)
            implies lookup(found_from(Seq::empty(), want, ls, 0).0, p) == Some(
        list_entry(ls[i]).unwrap().1,
    ) by {
        lemma_found_line(Seq::empty(), want, ls, 0, i, p);
    }
    if !has_line(ls, 0, p) {
        lemma_kept(Seq::empty(), want, ls, 0, p);
    }
}

/// Whether only wanted prefixes have been found.
spec fn all_wanted(found: Entries<Seq<char>>, want: Entries<bool>) -> bool {
    forall|k: int| 0 <= k < found.len() ==> lookup(want, (#[trigger] found[k]).0) is Some
}

proof fn lemma_step(found: Entries<Seq<char>>, want: Entries<bool>, line: Seq<char>)
    requires
        ordered(found),
        all_wanted(found, want),
    ensures
        ordered(found_after(found, want, line)),
        all_wanted(found_after(found, want, line), want),
{
    if names_wanted(want, line) {
        let (q, v) = list_entry(line).unwrap();
        let next = put(found, q, v);
        law_put_then_lookup(found, q, v, q);
        assert forall|k: int| 0 <= k < next.len() implies lookup(want, (#[trigger] next[k]).0)
            is Some by {
            let n = next[k].0;
            if n != q {
                lemma_at_most_once(next, k);
                law_put_then_lookup(found, q, v, n);
                let j = lemma_lookup_index(found, n);
                assert(lookup(want, found[j].0) is Some);
            }
        }
    }
}

proof fn lemma_at_most_once<V>(m: Entries<V>, i: int)
    requires
        ordered(m),
        0 <= i < m.len(),
    ensures
        lookup(m, m[i].0) == Some(m[i].1),
        forall|j: int| 0 <= j < m.len() && j != i ==> (#[trigger] m[j]).0 != m[i].0,
{
    assert forall|j: int| 0 <= j < m.len() && j != i implies (#[trigger] m[j]).0 != m[i].0 by {
        lemma_less_total(m[i].0, m[j].0);
        if j < i {
            assert(less(m[j].0, m[i].0));
        } else {
            assert(less(m[i].0, m[j].0));
        }
    }
    lemma_lookup_at(m, m[i].0, i);
}

/// The names of a map, as a set.
spec fn name_set<V>(m: Entries<V>) -> Set<Seq<char>> {
    names_of(m).to_set()
}

proof fn lemma_name_set<V>(m: Entries<V>)
    requires
        ordered(m),
    ensures
        name_set(m).finite(),
        name_set(m).len() == m.len(),
{
    let ns = names_of(m);
    assert forall|i: int, j: int| 0 <= i < ns.len() && 0 <= j < ns.len() && i != j implies ns[i]
        != ns[j] by {
        lemma_at_most_once(m, i);
        assert(m[j].0 != m[i].0);
    }
    assert(ns.no_duplicates());
    ns.unique_seq_to_set();
}

proof fn lemma_nothing_missing(found: Entries<Seq<char>>, want: Entries<bool>, p: Seq<char>)
    requires
        ordered(found),
        ordered(want),
        all_wanted(found, want),
        found.len() == want.len(),
        lookup(want, p) is Some,
    ensures
        lookup(found, p) is Some,
{
    lemma_name_set(found);
    lemma_name_set(want);
    assert forall|n: Seq<char>| name_set(found).contains(n) implies name_set(want).contains(n) by {
        let k = choose|k: int| 0 <= k < names_of(found).len() && names_of(found)[k] == n;
        assert(found[k].0 == n);
        let j = lemma_lookup_index(want, n);
        assert(names_of(want)[j] == n);
    }
    vstd::set_lib::lemma_subset_equality(name_set(found), name_set(want));
    let j = lemma_lookup_index(want, p);
    assert(names_of(want)[j] == p);
    assert(name_set(found).contains(p));
    let k = choose|k: int| 0 <= k < names_of(found).len() && names_of(found)[k] == p;
    lemma_at_most_once(found, k);
}

proof fn lemma_kept(
    found: Entries<Seq<char>>,
    want: Entries<bool>,
    ls: Seq<Seq<char>>,
    i: int,
    p: Seq<char>,
)
    requires
        ordered(found),
        0 <= i,
        !has_line(ls, i, p),
    ensures
        lookup(found_from(found, want, ls, i).0, p) == lookup(found, p),
    decreases ls.len() - i,
{
    if i < ls.len() {
        if names_wanted(want, ls[i]) {
            let (q, v) = list_entry(ls[i]).unwrap();
            law_put_then_lookup(found, q, v, p);
        }
        lemma_kept(found_after(found, want, ls[i]), want, ls, i + 1, p);
    }
}

proof fn lemma_found_line(
    found: Entries<Seq<char>>,
    want: Entries<bool>,
    ls: Seq<Seq<char>>,
    i: int,
    at: int,
    p: Seq<char>,
)
    requires
        ordered(found),
        ordered(want),
        all_wanted(found, want),
        no_prefix_twice(ls),
        0 <= i <= at < ls.len(),
        list_entry(ls[at]) matches Some((q, _)) && q == p,
        lookup(want, p) is Some,
        lookup(found, p) is None,
    ensures
        lookup(found_from(found, want, ls, i).0, p) == Some(list_entry(ls[at]).unwrap().1),
    decreases ls.len() - i,
{
    let next = found_after(found, want, ls[i]);
    lemma_step(found, want, ls[i]);
    if i == at {
        law_put_then_lookup(found, p, list_entry(ls[at]).unwrap().1, p);
        lemma_kept(next, want, ls, i + 1, p);
    } else {
        if names_wanted(want, ls[i]) {
            let (q, v) = list_entry(ls[i]).unwrap();
            assert(q != p);
            law_put_then_lookup(found, q, v, p);
            if next.len() == want.len() {
                lemma_nothing_missing(next, want, p);
            }
        }
        lemma_found_line(next, want, ls, i + 1, at, p);
    }
}

} // verus!
