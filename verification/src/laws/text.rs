//! How texts are cut up: each cut undoes the way in which a text was put together.

use crate::text::{
    before, contains, cut_suffix, ends, first, first_word, front_trimmed, in_class, joined, kept,
    lead, lemma_find_is, lemma_lead, lemma_lead_is, lemma_trail_is, less, line_list, lower,
    occurs_at, parts, pieces, split_at_text, split_first, split_last, starts, trimmed, trimmed_of,
    upper, white, without_prefixes, without_suffixes, words, Class,
};
use vstd::prelude::*;

verus! {

/// Whether a text is nothing but white space.
pub open spec fn blank(s: Seq<char>) -> bool {
    forall|i: int| 0 <= i < s.len() ==> white(#[trigger] s[i])
}

/// Whether a text has no white space.
pub open spec fn solid(s: Seq<char>) -> bool {
    forall|i: int| 0 <= i < s.len() ==> !white(#[trigger] s[i])
}

/// Whether a character occurs nowhere in a text.
pub open spec fn free_of(s: Seq<char>, c: char) -> bool {
    forall|i: int| 0 <= i < s.len() ==> #[trigger] s[i] != c
}

/// The space, the tab and the ends of lines are white space; what is printed in ASCII is not.
pub proof fn law_white_space()
    ensures
        white(' ') && white('\t') && white('\n') && white('\r'),
        forall|c: char| '!' <= c <= '~' ==> !white(c),
{
}

/// Trimming takes the white space off both ends, and nothing else.
pub proof fn law_trimming(a: Seq<char>, s: Seq<char>, b: Seq<char>)
    requires
        blank(a),
        blank(b),
        s.len() > 0 ==> !white(s[0]) && !white(s.last()),
    ensures
        trimmed(a + s + b) == s,
{
    lemma_trimming(Class::White, a, s, b);
}

pub proof fn lemma_trimming(k: Class, a: Seq<char>, s: Seq<char>, b: Seq<char>)
    requires
        forall|i: int| 0 <= i < a.len() ==> in_class(k, #[trigger] a[i]),
        forall|i: int| 0 <= i < b.len() ==> in_class(k, #[trigger] b[i]),
        s.len() > 0 ==> !in_class(k, s[0]) && !in_class(k, s.last()),
    ensures
        trimmed_of(a + s + b, k) == s,
{
    let t = a + s + b;
    if s.len() == 0 {
        assert forall|i: int| 0 <= i < t.len() implies in_class(k, #[trigger] t[i]) by {
            if i < a.len() {
                assert(t[i] == a[i]);
            } else {
                assert(t[i] == b[i - a.len()]);
            }
        }
        lemma_lead_is(t, k, t.len() as int);
        let f = front_trimmed(t, k);
        assert(f.len() == 0);
        lemma_trail_is(f, k, 0);
        assert(trimmed_of(t, k) =~= s);
    } else {
        assert forall|i: int| 0 <= i < a.len() implies in_class(k, #[trigger] t[i]) by {
            assert(t[i] == a[i]);
        }
        assert(t[a.len() as int] == s[0]);
        lemma_lead_is(t, k, a.len() as int);
        let f = front_trimmed(t, k);
        assert(f =~= s + b);
        let n = b.len() as int;
        assert forall|i: int| f.len() - n <= i < f.len() implies in_class(k, #[trigger] f[i]) by {
            assert(f[i] == b[i - s.len()]);
        }
        assert(f[f.len() - n - 1] == s.last());
        lemma_trail_is(f, k, n);
        assert(trimmed_of(t, k) =~= s);
    }
}

/// A text is parted at the first of a character, or not at all where it has none.
pub proof fn law_parting_at_the_first(a: Seq<char>, c: char, b: Seq<char>)
    requires
        free_of(a, c),
    ensures
        split_first(a + seq![c] + b, c) == Some((a, b)),
        before(a + seq![c] + b, c) == a,
        split_first(a, c) is None,
        before(a, c) == a,
{
    let s = a + seq![c] + b;
    let k = Class::IsNot(c);
    assert forall|i: int| 0 <= i < a.len() implies in_class(k, #[trigger] s[i]) by {
        assert(s[i] == a[i]);
    }
    assert(s[a.len() as int] == c);
    lemma_lead_is(s, k, a.len() as int);
    assert(s.take(a.len() as int) =~= a);
    assert(s.skip(a.len() as int + 1) =~= b);
    lemma_lead_is(a, k, a.len() as int);
    assert(a.take(a.len() as int) =~= a);
}

/// The two parts of a text, with the character between them, are the text.
pub proof fn law_parting_loses_nothing(s: Seq<char>, c: char)
    ensures
        split_first(s, c) matches Some((a, b)) ==> s == a + seq![c] + b && free_of(a, c),
        split_first(s, c) is None ==> free_of(s, c),
{
    let k = Class::IsNot(c);
    lemma_lead(s, k);
    let n = lead(s, k) as int;
    if n < s.len() {
        assert(s[n] == c);
        assert(s.take(n) + seq![c] + s.skip(n + 1) =~= s);
        assert forall|i: int| 0 <= i < n implies #[trigger] s.take(n)[i] != c by {
            assert(in_class(k, s[i]));
        }
    } else {
        assert forall|i: int| 0 <= i < s.len() implies #[trigger] s[i] != c by {
            assert(in_class(k, s[i]));
        }
    }
}

/// A text is parted at the last of a character, or not at all where it has none.
pub proof fn law_parting_at_the_last(a: Seq<char>, c: char, b: Seq<char>)
    requires
        free_of(b, c),
    ensures
        split_last(a + seq![c] + b, c) == Some((a, b)),
        split_last(b, c) is None,
{
    let s = a + seq![c] + b;
    let k = Class::IsNot(c);
    let n = b.len() as int;
    assert forall|i: int| s.len() - n <= i < s.len() implies in_class(k, #[trigger] s[i]) by {
        assert(s[i] == b[i - a.len() - 1]);
    }
    assert(s[s.len() - n - 1] == c);
    lemma_trail_is(s, k, n);
    assert(s.take(s.len() - n - 1) =~= a);
    assert(s.skip(s.len() - n) =~= b);
    lemma_trail_is(b, k, n);
}

/// A text is parted at the first place where another stands in it.
pub proof fn law_parting_at_a_text(a: Seq<char>, p: Seq<char>, b: Seq<char>)
    requires
        forall|h: int| 0 <= h < a.len() ==> !occurs_at(a + p + b, p, h),
    ensures
        split_at_text(a + p + b, p) == Some((a, b)),
{
    let s = a + p + b;
    assert(s.subrange(a.len() as int, a.len() + p.len() as int) =~= p);
    lemma_find_is(s, p, a.len() as int);
    assert(s.take(a.len() as int) =~= a);
    assert(s.skip(a.len() + p.len() as int) =~= b);
}

/// A text is split at every one of a character: no piece has it, and between the pieces
/// there is one of them each.
pub proof fn law_pieces(a: Seq<char>, c: char, b: Seq<char>)
    requires
        free_of(a, c),
    ensures
        pieces(a + seq![c] + b, c) == seq![a] + pieces(b, c),
        pieces(a, c) == seq![a],
{
    law_parting_at_the_first(a, c, b);
    let s = a + seq![c] + b;
    let k = Class::IsNot(c);
    assert forall|i: int| 0 <= i < a.len() implies in_class(k, #[trigger] s[i]) by {
        assert(s[i] == a[i]);
    }
    assert(s[a.len() as int] == c);
    lemma_lead_is(s, k, a.len() as int);
    assert(s.take(a.len() as int) =~= a);
    assert(s.skip(a.len() as int + 1) =~= b);
    lemma_lead_is(a, k, a.len() as int);
}

/// A text is split at every place where another stands in it.
pub proof fn law_parts(a: Seq<char>, p: Seq<char>, b: Seq<char>)
    requires
        p.len() > 0,
        forall|h: int| 0 <= h < a.len() ==> !occurs_at(a + p + b, p, h),
    ensures
        parts(a + p + b, p) == seq![a] + parts(b, p),
        !contains(a, p) ==> parts(a, p) == seq![a],
{
    let s = a + p + b;
    assert(s.subrange(a.len() as int, a.len() + p.len() as int) =~= p);
    lemma_find_is(s, p, a.len() as int);
    assert(s.take(a.len() as int) =~= a);
    assert(s.skip(a.len() + p.len() as int) =~= b);
    crate::text::lemma_find_contains(a, p);
}

/// The words of a text are what stands between white space.
pub proof fn law_words(gap: Seq<char>, w: Seq<char>, rest: Seq<char>)
    requires
        blank(gap),
        solid(w),
        w.len() > 0,
        rest.len() > 0 ==> white(rest[0]),
    ensures
        words(gap + w + rest) == seq![w] + words(rest),
        words(gap).len() == 0,
        first_word(gap + w + rest) == w,
        first_word(gap).len() == 0,
{
    let s = gap + w + rest;
    let k = Class::White;
    assert forall|i: int| 0 <= i < gap.len() implies in_class(k, #[trigger] s[i]) by {
        assert(s[i] == gap[i]);
    }
    assert(s[gap.len() as int] == w[0]);
    lemma_lead_is(s, k, gap.len() as int);
    let t = front_trimmed(s, k);
    assert(t =~= w + rest);
    assert forall|i: int| 0 <= i < w.len() implies in_class(Class::Solid, #[trigger] t[i]) by {
        assert(t[i] == w[i]);
    }
    if rest.len() > 0 {
        assert(t[w.len() as int] == rest[0]);
    }
    lemma_lead_is(t, Class::Solid, w.len() as int);
    assert(t.take(w.len() as int) =~= w);
    assert(t.skip(w.len() as int) =~= rest);
    lemma_lead_is(gap, k, gap.len() as int);
    assert(front_trimmed(gap, k).len() == 0);
    lemma_lead_is(front_trimmed(gap, k), Class::Solid, 0);
}

/// The lines of a text end at its line feeds; a carriage return in front of one goes, and
/// behind the last there is a line only if there is something.
pub proof fn law_lines(a: Seq<char>, b: Seq<char>)
    requires
        free_of(a, '\n'),
    ensures
        a.len() == 0 || a.last() != '\r' ==> line_list(a + seq!['\n'] + b) == seq![a] + line_list(
            b,
        ),
        line_list(a + seq!['\r', '\n'] + b) == seq![a] + line_list(b),
        a.len() > 0 ==> line_list(a) == seq![a],
        line_list(Seq::<char>::empty()).len() == 0,
{
    let k = Class::IsNot('\n');
    let s = a + seq!['\n'] + b;
    let n = a.len() as int;
    assert forall|i: int| 0 <= i < n implies in_class(k, #[trigger] s[i]) by {
        assert(s[i] == a[i]);
    }
    assert(s[n] == '\n');
    lemma_lead_is(s, k, n);
    assert(s.take(n) =~= a);
    assert(s.skip(n + 1) =~= b);
    let r = a + seq!['\r', '\n'] + b;
    assert forall|i: int| 0 <= i < n + 1 implies in_class(k, #[trigger] r[i]) by {
        if i < n {
            assert(r[i] == a[i]);
        } else {
            assert(r[i] == '\r');
        }
    }
    assert(r[n + 1] == '\n');
    lemma_lead_is(r, k, n + 1);
    assert(r.take(n + 1) =~= a.push('\r'));
    assert(a.push('\r').drop_last() =~= a);
    assert(r.skip(n + 2) =~= b);
    lemma_lead_is(a, k, n);
}

/// Texts are joined with a separator between each two of them.
pub proof fn law_joining(v: Seq<Seq<char>>, sep: Seq<char>, last: Seq<char>)
    ensures
        joined(Seq::<Seq<char>>::empty(), sep).len() == 0,
        joined(seq![last], sep) == last,
        v.len() > 0 ==> joined(v.push(last), sep) == joined(v, sep) + sep + last,
{
    assert(v.push(last).drop_last() =~= v);
    assert(v.push(last).last() == last);
}

/// An ending is cut off as often as it is there.
pub proof fn law_endings_are_cut(s: Seq<char>, p: Seq<char>)
    requires
        p.len() > 0,
    ensures
        without_suffixes(s + p, p) == without_suffixes(s, p),
        !ends(s, p) ==> without_suffixes(s, p) == s,
        cut_suffix(s + p, p) == Some(s),
        !ends(s, p) ==> cut_suffix(s, p) is None,
{
    let t = s + p;
    assert(t.subrange(t.len() - p.len(), t.len() as int) =~= p);
    assert(ends(t, p));
    assert(t.take(t.len() - p.len()) =~= s);
}

/// A beginning is cut off as often as it is there.
pub proof fn law_beginnings_are_cut(s: Seq<char>, p: Seq<char>)
    requires
        p.len() > 0,
    ensures
        without_prefixes(p + s, p) == without_prefixes(s, p),
        !starts(s, p) ==> without_prefixes(s, p) == s,
{
    let t = p + s;
    assert(t.subrange(0, p.len() as int) =~= p);
    assert(starts(t, p));
    assert(t.skip(p.len() as int) =~= s);
}

/// Of a text at most so many characters are kept, from its start.
pub proof fn law_first_characters(s: Seq<char>, n: int)
    requires
        n >= 0,
    ensures
        s.len() <= n ==> first(s, n) == s,
        s.len() > n ==> first(s, n).len() == n && first(s, n) + s.skip(n) == s,
{
    if s.len() > n {
        assert(first(s, n) + s.skip(n) =~= s);
    }
}

/// What is kept of a text are its characters of a class, in their order.
pub proof fn law_kept_characters(s: Seq<char>, k: Class)
    ensures
        kept(s, k) == s.filter(|c: char| in_class(k, c)),
    decreases s.len(),
{
    reveal(Seq::filter);
    if s.len() > 0 {
        law_kept_characters(s.drop_last(), k);
    }
}

/// The classes of characters.
pub proof fn law_classes(c: char)
    ensures
        in_class(Class::Digit, c) <==> '0' <= c <= '9',
        in_class(Class::NonDigit, c) <==> !('0' <= c <= '9'),
        in_class(Class::Hex, c) <==> '0' <= c <= '9' || 'a' <= c <= 'f' || 'A' <= c <= 'F',
        in_class(Class::Decimal, c) <==> '0' <= c <= '9' || c == '.',
        in_class(Class::Address, c) <==> '0' <= c <= '9' || 'a' <= c <= 'f' || 'A' <= c <= 'F' || c
            == '.' || c == ':',
        in_class(Class::Solid, c) <==> !in_class(Class::White, c),
{
}

/// Capital letters become small and the other way round; nothing else changes.
pub proof fn law_letters(s: Seq<char>, i: int)
    requires
        0 <= i < s.len(),
    ensures
        lower(s).len() == s.len() && upper(s).len() == s.len(),
        'A' <= s[i] <= 'Z' ==> 'a' <= lower(s)[i] <= 'z' && lower(s)[i] as u32 - 'a' as u32
            == s[i] as u32 - 'A' as u32,
        !('A' <= s[i] <= 'Z') ==> lower(s)[i] == s[i],
        'a' <= s[i] <= 'z' ==> 'A' <= upper(s)[i] <= 'Z' && upper(s)[i] as u32 - 'A' as u32
            == s[i] as u32 - 'a' as u32,
        !('a' <= s[i] <= 'z') ==> upper(s)[i] == s[i],
{
}

/// Texts are ordered as in a dictionary: by the first character in which they differ, and
/// the shorter first where there is none.
pub proof fn law_dictionary_order(p: Seq<char>, a: Seq<char>, b: Seq<char>)
    ensures
        a.len() > 0 && b.len() > 0 && a[0] != b[0] ==> (less(p + a, p + b) <==> a[0] < b[0]),
        b.len() > 0 ==> less(p, p + b),
        !less(p + a, p),
    decreases p.len(),
{
    if p.len() > 0 {
        law_dictionary_order(p.skip(1), a, b);
        assert((p + a).skip(1) =~= p.skip(1) + a);
        assert((p + b).skip(1) =~= p.skip(1) + b);
    } else {
        assert(p + a =~= a);
        assert(p + b =~= b);
    }
}

} // verus!
