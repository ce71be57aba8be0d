//! Text as sequences of characters: classes of characters, trimming,
//! searching, splitting and joining.
//!
//! Every function here works on slices of characters and is specified over
//! `Seq<char>`, the view that `String` and `str` share, so a caller states
//! what it does to a `String` in the same words.

use vstd::prelude::*;
use vstd::slice::slice_subrange;

verus! {

/// `String::push` appends one character: the new text is the old text
/// followed by `c`.
pub assume_specification[ String::push ](s: &mut String, c: char)
    ensures
        final(s)@ == old(s)@.push(c),
;

/// What `String::from_utf8_lossy` reads out of `bytes`.
pub uninterp spec fn utf8_lossy(bytes: Seq<u8>) -> Seq<char>;

/// Decodes `bytes` with `String::from_utf8_lossy`. The result depends on the
/// bytes alone. Bytes that are valid UTF-8 come back as the text that they
/// encode; how invalid bytes are replaced is left to the name.
#[verifier::external_body]
pub(crate) fn lossy(bytes: &[u8]) -> (r: String)
    ensures
        r@ == utf8_lossy(bytes@),
        vstd::utf8::valid_utf8(bytes@) ==> r@ == vstd::utf8::decode_utf8(bytes@),
{
    String::from_utf8_lossy(bytes).into_owned()
}

// ---------------------------------------------------------------------------
// Conversion
// ---------------------------------------------------------------------------

/// The characters of `s`.
pub fn chars(s: &str) -> (r: Vec<char>)
    ensures
        r@ == s@,
{
    let mut out: Vec<char> = Vec::new();
    for c in it: s.chars()
        invariant
            it.seq() == s@,
            out@ == s@.take(it.index() as int),
    {
        out.push(c);
        assert(s@.take(it.index() + 1) == s@.take(it.index() as int).push(c));
    }
    assert(s@.take(s@.len() as int) == s@);
    out
}

/// The text that the characters spell.
pub fn text(s: &[char]) -> (r: String)
    ensures
        r@ == s@,
{
    let mut out = String::new();
    append(&mut out, s);
    assert(Seq::<char>::empty() + s@ == s@);
    out
}

/// Puts `s` behind what `out` holds.
pub fn append(out: &mut String, s: &[char])
    ensures
        final(out)@ == old(out)@ + s@,
{
    for i in 0..s.len()
        invariant
            out@ == old(out)@ + s@.take(i as int),
    {
        out.push(s[i]);
        assert(old(out)@ + s@.take(i + 1) == (old(out)@ + s@.take(i as int)).push(s@[i as int]));
    }
    assert(s@.take(s@.len() as int) == s@);
}

/// Puts the text `s` behind what `out` holds.
pub fn append_str(out: &mut String, s: &str)
    ensures
        final(out)@ == old(out)@ + s@,
{
    let cs = chars(s);
    append(out, cs.as_slice());
}

/// A copy of `s` as a `String`.
pub fn owned(s: &str) -> (r: String)
    ensures
        r@ == s@,
{
    s.to_string()
}

/// The texts of a list of strings.
pub open spec fn texts(v: Seq<String>) -> Seq<Seq<char>> {
    v.map_values(|s: String| s@)
}

/// The texts of a list of character slices.
pub open spec fn slices(v: Seq<&[char]>) -> Seq<Seq<char>> {
    v.map_values(|s: &[char]| s@)
}

// ---------------------------------------------------------------------------
// Comparing
// ---------------------------------------------------------------------------

/// Whether the two slices spell the same text.
pub fn same(a: &[char], b: &[char]) -> (r: bool)
    ensures
        r == (a@ == b@),
{
    if a.len() != b.len() {
        return false;
    }
    for i in 0..a.len()
        invariant
            a@.len() == b@.len(),
            a@.take(i as int) == b@.take(i as int),
    {
        if a[i] != b[i] {
            return false;
        }
        assert(a@.take(i + 1) == a@.take(i as int).push(a@[i as int]));
        assert(b@.take(i + 1) == b@.take(i as int).push(b@[i as int]));
    }
    assert(a@.take(a@.len() as int) == a@);
    assert(b@.take(b@.len() as int) == b@);
    true
}

/// Whether the slice spells `lit`.
pub fn spells(a: &[char], lit: &str) -> (r: bool)
    ensures
        r == (a@ == lit@),
{
    let b = chars(lit);
    same(a, b.as_slice())
}

/// Whether the two strings hold the same text.
pub fn eq(a: &str, b: &str) -> (r: bool)
    ensures
        r == (a@ == b@),
{
    let x = chars(a);
    spells(x.as_slice(), b)
}

/// Whether some string of the list holds the text `s`.
pub fn lists(v: &Vec<String>, s: &str) -> (r: bool)
    ensures
        r == texts(v@).contains(s@),
{
    for i in 0..v.len()
        invariant
            forall|j: int| 0 <= j < i ==> texts(v@)[j] != s@,
    {
        if eq(v[i].as_str(), s) {
            assert(texts(v@)[i as int] == s@);
            return true;
        }
    }
    false
}

// ---------------------------------------------------------------------------
// Classes of characters
// ---------------------------------------------------------------------------

/// A class of characters.
#[derive(Clone, Copy)]
pub enum Class {
    /// Unicode white space.
    White,
    /// Anything but white space.
    Solid,
    /// `0` to `9`.
    Digit,
    /// Anything but `0` to `9`.
    NonDigit,
    /// A hexadecimal digit of either case.
    Hex,
    /// A digit or a full stop.
    Decimal,
    /// What an address is spelled with: a hexadecimal digit, `.` or `:`.
    Address,
    /// Anything but a control character.
    Printable,
    /// One character.
    Is(char),
    /// Anything but one character.
    IsNot(char),
}

/// The characters with the Unicode property White_Space.
pub open spec fn white(c: char) -> bool {
    ||| '\u{9}' <= c <= '\u{d}'
    ||| c == '\u{20}'
    ||| c == '\u{85}'
    ||| c == '\u{a0}'
    ||| c == '\u{1680}'
    ||| '\u{2000}' <= c <= '\u{200a}'
    ||| c == '\u{2028}'
    ||| c == '\u{2029}'
    ||| c == '\u{202f}'
    ||| c == '\u{205f}'
    ||| c == '\u{3000}'
}

pub open spec fn digit(c: char) -> bool {
    '0' <= c <= '9'
}

pub open spec fn hex_digit(c: char) -> bool {
    digit(c) || 'a' <= c <= 'f' || 'A' <= c <= 'F'
}

/// The characters of the Unicode category Cc.
pub open spec fn control(c: char) -> bool {
    c <= '\u{1f}' || '\u{7f}' <= c <= '\u{9f}'
}

/// Whether `c` belongs to the class `k`.
pub open spec fn in_class(k: Class, c: char) -> bool {
    match k {
        Class::White => white(c),
        Class::Solid => !white(c),
        Class::Digit => digit(c),
        Class::NonDigit => !digit(c),
        Class::Hex => hex_digit(c),
        Class::Decimal => digit(c) || c == '.',
        Class::Address => hex_digit(c) || c == '.' || c == ':',
        Class::Printable => !control(c),
        Class::Is(x) => c == x,
        Class::IsNot(x) => c != x,
    }
}

/// Whether `c` is white space.
pub fn is_white(c: char) -> (r: bool)
    ensures
        r == white(c),
{
    ('\u{9}' <= c && c <= '\u{d}') || c == '\u{20}' || c == '\u{85}' || c == '\u{a0}'
        || c == '\u{1680}' || ('\u{2000}' <= c && c <= '\u{200a}') || c == '\u{2028}'
        || c == '\u{2029}' || c == '\u{202f}' || c == '\u{205f}' || c == '\u{3000}'
}

impl Class {
    /// Whether `c` belongs to the class.
    pub fn has(self, c: char) -> (r: bool)
        ensures
            r == in_class(self, c),
    {
        let dig = '0' <= c && c <= '9';
        let hex = dig || ('a' <= c && c <= 'f') || ('A' <= c && c <= 'F');
        match self {
            Class::White => is_white(c),
            Class::Solid => !is_white(c),
            Class::Digit => dig,
            Class::NonDigit => !dig,
            Class::Hex => hex,
            Class::Decimal => dig || c == '.',
            Class::Address => hex || c == '.' || c == ':',
            Class::Printable => !(c <= '\u{1f}' || ('\u{7f}' <= c && c <= '\u{9f}')),
            Class::Is(x) => c == x,
            Class::IsNot(x) => c != x,
        }
    }
}

/// How many characters at the front of `s` belong to `k`.
pub open spec fn lead(s: Seq<char>, k: Class) -> nat
    decreases s.len(),
{
    if s.len() > 0 && in_class(k, s[0]) {
        1 + lead(s.skip(1), k)
    } else {
        0
    }
}

/// How many characters at the back of `s` belong to `k`.
pub open spec fn trail(s: Seq<char>, k: Class) -> nat
    decreases s.len(),
{
    if s.len() > 0 && in_class(k, s.last()) {
        1 + trail(s.drop_last(), k)
    } else {
        0
    }
}

/// `lead` is the length of the longest prefix inside the class.
pub proof fn lemma_lead(s: Seq<char>, k: Class)
    ensures
        lead(s, k) <= s.len(),
        forall|i: int| 0 <= i < lead(s, k) ==> in_class(k, #[trigger] s[i]),
        lead(s, k) < s.len() ==> !in_class(k, s[lead(s, k) as int]),
    decreases s.len(),
{
    if s.len() > 0 && in_class(k, s[0]) {
        let t = s.skip(1);
        lemma_lead(t, k);
        assert forall|i: int| 0 <= i < lead(s, k) implies in_class(k, #[trigger] s[i]) by {
            if i > 0 {
                assert(s[i] == t[i - 1]);
            }
        }
        if lead(s, k) < s.len() {
            assert(s[lead(s, k) as int] == t[lead(t, k) as int]);
        }
    }
}

/// The longest prefix inside the class has one length.
pub proof fn lemma_lead_is(s: Seq<char>, k: Class, n: int)
    requires
        0 <= n <= s.len(),
        forall|i: int| 0 <= i < n ==> in_class(k, #[trigger] s[i]),
        n < s.len() ==> !in_class(k, s[n]),
    ensures
        lead(s, k) == n,
{
    lemma_lead(s, k);
    if lead(s, k) < n {
        assert(in_class(k, s[lead(s, k) as int]));
    }
}

/// `trail` is the length of the longest suffix inside the class.
pub proof fn lemma_trail(s: Seq<char>, k: Class)
    ensures
        trail(s, k) <= s.len(),
        forall|i: int| s.len() - trail(s, k) <= i < s.len() ==> in_class(k, #[trigger] s[i]),
        trail(s, k) < s.len() ==> !in_class(k, s[s.len() - trail(s, k) - 1]),
    decreases s.len(),
{
    if s.len() > 0 && in_class(k, s.last()) {
        let t = s.drop_last();
        lemma_trail(t, k);
        assert forall|i: int| s.len() - trail(s, k) <= i < s.len() implies in_class(
            k,
            #[trigger] s[i],
        ) by {
            if i < s.len() - 1 {
                assert(s[i] == t[i]);
            }
        }
    }
}

/// The longest suffix inside the class has one length.
pub proof fn lemma_trail_is(s: Seq<char>, k: Class, n: int)
    requires
        0 <= n <= s.len(),
        forall|i: int| s.len() - n <= i < s.len() ==> in_class(k, #[trigger] s[i]),
        n < s.len() ==> !in_class(k, s[s.len() - n - 1]),
    ensures
        trail(s, k) == n,
{
    lemma_trail(s, k);
    if trail(s, k) < n {
        assert(in_class(k, s[s.len() - trail(s, k) - 1]));
    }
}

/// Counts the characters at the front of `s` that belong to `k`.
pub fn count_lead(s: &[char], k: Class) -> (n: usize)
    ensures
        n == lead(s@, k),
        n <= s@.len(),
{
    let mut n: usize = 0;
    while n < s.len() && k.has(s[n])
        invariant
            n <= s@.len(),
            forall|i: int| 0 <= i < n ==> in_class(k, #[trigger] s@[i]),
        decreases s@.len() - n,
    {
        n = n + 1;
    }
    proof {
        lemma_lead_is(s@, k, n as int);
    }
    n
}

/// Counts the characters at the back of `s` that belong to `k`.
pub fn count_trail(s: &[char], k: Class) -> (n: usize)
    ensures
        n == trail(s@, k),
        n <= s@.len(),
{
    let mut n: usize = 0;
    while n < s.len() && k.has(s[s.len() - n - 1])
        invariant
            n <= s@.len(),
            forall|i: int| s@.len() - n <= i < s@.len() ==> in_class(k, #[trigger] s@[i]),
        decreases s@.len() - n,
    {
        n = n + 1;
    }
    proof {
        lemma_trail_is(s@, k, n as int);
    }
    n
}

/// Whether every character of `s` belongs to `k`.
pub open spec fn all_in(s: Seq<char>, k: Class) -> bool {
    forall|i: int| 0 <= i < s.len() ==> in_class(k, #[trigger] s[i])
}

/// Whether every character of `s` belongs to `k`.
pub fn only(s: &[char], k: Class) -> (r: bool)
    ensures
        r == all_in(s@, k),
{
    let n = count_lead(s, k);
    proof {
        lemma_lead(s@, k);
    }
    n == s.len()
}

/// The characters of `s` that belong to `k`, in order.
pub open spec fn kept(s: Seq<char>, k: Class) -> Seq<char>
    decreases s.len(),
{
    if s.len() == 0 {
        Seq::empty()
    } else if in_class(k, s.last()) {
        kept(s.drop_last(), k).push(s.last())
    } else {
        kept(s.drop_last(), k)
    }
}

/// Keeps the characters of `s` that belong to `k`.
pub fn keep(s: &[char], k: Class) -> (r: Vec<char>)
    ensures
        r@ == kept(s@, k),
{
    let mut out: Vec<char> = Vec::new();
    for i in 0..s.len()
        invariant
            out@ == kept(s@.take(i as int), k),
    {
        assert(s@.take(i + 1).drop_last() == s@.take(i as int));
        if k.has(s[i]) {
            out.push(s[i]);
        }
    }
    assert(s@.take(s@.len() as int) == s@);
    out
}

pub proof fn lemma_kept_all_in(s: Seq<char>, k: Class)
    ensures
        all_in(kept(s, k), k),
        kept(s, k).len() <= s.len(),
    decreases s.len(),
{
    if s.len() > 0 {
        lemma_kept_all_in(s.drop_last(), k);
    }
}

pub proof fn lemma_kept_same(s: Seq<char>, k: Class)
    requires
        all_in(s, k),
    ensures
        kept(s, k) == s,
    decreases s.len(),
{
    if s.len() > 0 {
        lemma_kept_same(s.drop_last(), k);
        assert(s.drop_last().push(s.last()) == s);
    }
}

// ---------------------------------------------------------------------------
// Trimming
// ---------------------------------------------------------------------------

/// `s` without the characters of `k` at its front.
pub open spec fn front_trimmed(s: Seq<char>, k: Class) -> Seq<char> {
    s.skip(lead(s, k) as int)
}

/// `s` without the characters of `k` at its back.
pub open spec fn back_trimmed(s: Seq<char>, k: Class) -> Seq<char> {
    s.take(s.len() - trail(s, k))
}

/// `s` without the characters of `k` at either end.
pub open spec fn trimmed_of(s: Seq<char>, k: Class) -> Seq<char> {
    back_trimmed(front_trimmed(s, k), k)
}

/// `s` without the white space at either end.
pub open spec fn trimmed(s: Seq<char>) -> Seq<char> {
    trimmed_of(s, Class::White)
}

pub fn trim_front(s: &[char], k: Class) -> (r: &[char])
    ensures
        r@ == front_trimmed(s@, k),
{
    let n = count_lead(s, k);
    let r = slice_subrange(s, n, s.len());
    assert(r@ == s@.skip(n as int));
    r
}

pub fn trim_back(s: &[char], k: Class) -> (r: &[char])
    ensures
        r@ == back_trimmed(s@, k),
{
    let n = count_trail(s, k);
    let r = slice_subrange(s, 0, s.len() - n);
    assert(r@ == s@.take(s@.len() - n));
    r
}

pub fn trim_of(s: &[char], k: Class) -> (r: &[char])
    ensures
        r@ == trimmed_of(s@, k),
{
    trim_back(trim_front(s, k), k)
}

pub fn trim(s: &[char]) -> (r: &[char])
    ensures
        r@ == trimmed(s@),
{
    trim_of(s, Class::White)
}

/// At most the first `n` characters of `s`.
pub open spec fn first(s: Seq<char>, n: int) -> Seq<char> {
    if s.len() <= n {
        s
    } else {
        s.take(n)
    }
}

/// At most the first `n` characters of `s`.
pub fn cut(s: &[char], n: usize) -> (r: &[char])
    ensures
        r@ == first(s@, n as int),
{
    if s.len() <= n {
        s
    } else {
        let r = slice_subrange(s, 0, n);
        assert(r@ == s@.take(n as int));
        r
    }
}

// ---------------------------------------------------------------------------
// Letter case
// ---------------------------------------------------------------------------

/// The lower case form of an ASCII letter; any other character is itself.
pub open spec fn lower_char(c: char) -> char {
    if 'A' <= c <= 'Z' {
        (c as u32 + 32) as char
    } else {
        c
    }
}

/// The upper case form of an ASCII letter; any other character is itself.
pub open spec fn upper_char(c: char) -> char {
    if 'a' <= c <= 'z' {
        (c as u32 - 32) as char
    } else {
        c
    }
}

pub open spec fn lower(s: Seq<char>) -> Seq<char> {
    s.map_values(|c: char| lower_char(c))
}

pub open spec fn upper(s: Seq<char>) -> Seq<char> {
    s.map_values(|c: char| upper_char(c))
}

/// The ASCII letters of `s` in lower case.
pub fn to_lower(s: &[char]) -> (r: Vec<char>)
    ensures
        r@ == lower(s@),
{
    let mut out: Vec<char> = Vec::new();
    for i in 0..s.len()
        invariant
            out@ == lower(s@).take(i as int),
    {
        let c = s[i];
        let d = if 'A' <= c && c <= 'Z' {
            (c as u8 + 32) as char
        } else {
            c
        };
        out.push(d);
        assert(lower(s@).take(i + 1) == lower(s@).take(i as int).push(d));
    }
    assert(lower(s@).take(s@.len() as int) == lower(s@));
    out
}

/// The ASCII letters of `s` in upper case.
pub fn to_upper(s: &[char]) -> (r: Vec<char>)
    ensures
        r@ == upper(s@),
{
    let mut out: Vec<char> = Vec::new();
    for i in 0..s.len()
        invariant
            out@ == upper(s@).take(i as int),
    {
        let c = s[i];
        let d = if 'a' <= c && c <= 'z' {
            (c as u8 - 32) as char
        } else {
            c
        };
        out.push(d);
        assert(upper(s@).take(i + 1) == upper(s@).take(i as int).push(d));
    }
    assert(upper(s@).take(s@.len() as int) == upper(s@));
    out
}

pub proof fn lemma_lower_again(s: Seq<char>)
    ensures
        lower(lower(s)) == lower(s),
        lower(s).len() == s.len(),
{
    assert(lower(lower(s)) =~= lower(s));
}

// ---------------------------------------------------------------------------
// Searching
// ---------------------------------------------------------------------------

/// Whether `p` stands in `s` at position `i`.
pub open spec fn occurs_at(s: Seq<char>, p: Seq<char>, i: int) -> bool {
    0 <= i && i + p.len() <= s.len() && s.subrange(i, i + p.len()) == p
}

/// Whether `s` begins with `p`.
pub open spec fn starts(s: Seq<char>, p: Seq<char>) -> bool {
    occurs_at(s, p, 0)
}

/// Whether `s` ends with `p`.
pub open spec fn ends(s: Seq<char>, p: Seq<char>) -> bool {
    occurs_at(s, p, s.len() - p.len())
}

/// Whether `p` stands anywhere in `s`.
pub open spec fn contains(s: Seq<char>, p: Seq<char>) -> bool {
    exists|i: int| occurs_at(s, p, i)
}

/// The first position from `i` on at which `p` stands in `s`.
pub open spec fn find_from(s: Seq<char>, p: Seq<char>, i: int) -> Option<int>
    decreases s.len() - i + 1,
{
    if i + p.len() > s.len() {
        None
    } else if occurs_at(s, p, i) {
        Some(i)
    } else {
        find_from(s, p, i + 1)
    }
}

/// The first position at which `p` stands in `s`.
pub open spec fn find(s: Seq<char>, p: Seq<char>) -> Option<int> {
    find_from(s, p, 0)
}

/// `find_from` gives the least position, and `None` only where there is none.
pub proof fn lemma_find_from(s: Seq<char>, p: Seq<char>, i: int)
    requires
        0 <= i,
    ensures
        find_from(s, p, i) matches Some(j) ==> i <= j && occurs_at(s, p, j) && (forall|h: int|
            i <= h < j ==> !occurs_at(s, p, h)),
        find_from(s, p, i) is None ==> (forall|h: int| i <= h ==> !occurs_at(s, p, h)),
    decreases s.len() - i + 1,
{
    if i + p.len() > s.len() {
    } else if occurs_at(s, p, i) {
    } else {
        lemma_find_from(s, p, i + 1);
    }
}

/// A text stands somewhere in another exactly where the search finds it.
pub proof fn lemma_find_contains(s: Seq<char>, p: Seq<char>)
    ensures
        contains(s, p) <==> find(s, p) is Some,
{
    lemma_find_from(s, p, 0);
    if find(s, p) is Some {
        assert(occurs_at(s, p, find(s, p)->0));
    }
}

/// The position found is the least one at which the text stands.
pub proof fn lemma_find_is(s: Seq<char>, p: Seq<char>, i: int)
    requires
        occurs_at(s, p, i),
        forall|h: int| 0 <= h < i ==> !occurs_at(s, p, h),
    ensures
        find(s, p) == Some(i),
{
    lemma_find_from(s, p, 0);
}

/// Whether `p` stands in `s` at position `i`.
pub fn stands_at(s: &[char], p: &[char], i: usize) -> (r: bool)
    ensures
        r == occurs_at(s@, p@, i as int),
{
    if i > s.len() || s.len() - i < p.len() {
        return false;
    }
    let part = slice_subrange(s, i, i + p.len());
    same(part, p)
}

pub fn starts_with(s: &[char], p: &[char]) -> (r: bool)
    ensures
        r == starts(s@, p@),
{
    stands_at(s, p, 0)
}

/// Whether `s` begins with the text `lit`.
pub fn begins(s: &[char], lit: &str) -> (r: bool)
    ensures
        r == starts(s@, lit@),
{
    let p = chars(lit);
    stands_at(s, p.as_slice(), 0)
}

pub fn ends_with(s: &[char], p: &[char]) -> (r: bool)
    ensures
        r == ends(s@, p@),
{
    if s.len() < p.len() {
        return false;
    }
    stands_at(s, p, s.len() - p.len())
}

/// Where `p` first stands in `s`.
pub fn position(s: &[char], p: &[char]) -> (r: Option<usize>)
    ensures
        r is Some <==> find(s@, p@) is Some,
        r matches Some(i) ==> find(s@, p@) == Some(i as int) && i + p@.len() <= s@.len(),
{
    let mut i: usize = 0;
    while i <= s.len() && s.len() - i >= p.len()
        invariant
            i <= s@.len() + 1,
            find(s@, p@) == find_from(s@, p@, i as int),
        decreases s@.len() + 1 - i,
    {
        if stands_at(s, p, i) {
            return Some(i);
        }
        if i == s.len() {
            assert(find_from(s@, p@, i + 1) is None);
            return None;
        }
        i = i + 1;
    }
    None
}

/// Whether `p` stands anywhere in `s`.
pub fn holds(s: &[char], p: &[char]) -> (r: bool)
    ensures
        r == contains(s@, p@),
{
    proof {
        lemma_find_contains(s@, p@);
    }
    match position(s, p) {
        Some(_) => true,
        None => false,
    }
}

/// Whether the text `lit` stands anywhere in `s`.
pub fn mentions(s: &[char], lit: &str) -> (r: bool)
    ensures
        r == contains(s@, lit@),
{
    let p = chars(lit);
    holds(s, p.as_slice())
}

/// Whether the character `c` occurs in `s`.
pub fn has_char(s: &[char], c: char) -> (r: bool)
    ensures
        r == s@.contains(c),
{
    let n = count_lead(s, Class::IsNot(c));
    proof {
        lemma_lead(s@, Class::IsNot(c));
    }
    if n < s.len() {
        assert(s@[n as int] == c);
        true
    } else {
        assert forall|i: int| 0 <= i < s@.len() implies s@[i] != c by {
            assert(in_class(Class::IsNot(c), s@[i]));
        }
        false
    }
}

// ---------------------------------------------------------------------------
// Splitting
// ---------------------------------------------------------------------------

/// `s` parted at the first `c`: what stands before it and what stands behind.
pub open spec fn split_first(s: Seq<char>, c: char) -> Option<(Seq<char>, Seq<char>)> {
    let n = lead(s, Class::IsNot(c)) as int;
    if n >= s.len() {
        None
    } else {
        Some((s.take(n), s.skip(n + 1)))
    }
}

/// `s` parted at the last `c`: what stands before it and what stands behind.
pub open spec fn split_last(s: Seq<char>, c: char) -> Option<(Seq<char>, Seq<char>)> {
    let n = trail(s, Class::IsNot(c)) as int;
    if n >= s.len() {
        None
    } else {
        Some((s.take(s.len() - n - 1), s.skip(s.len() - n)))
    }
}

/// `s` parted at the first occurrence of `p`.
pub open spec fn split_at_text(s: Seq<char>, p: Seq<char>) -> Option<(Seq<char>, Seq<char>)> {
    match find(s, p) {
        Some(i) => Some((s.take(i), s.skip(i + p.len()))),
        None => None,
    }
}

/// The views of a pair of slices.
pub open spec fn pair_view(r: Option<(&[char], &[char])>) -> Option<(Seq<char>, Seq<char>)> {
    match r {
        Some((a, b)) => Some((a@, b@)),
        None => None,
    }
}

pub fn part_first<'a>(s: &'a [char], c: char) -> (r: Option<(&'a [char], &'a [char])>)
    ensures
        pair_view(r) == split_first(s@, c),
{
    let n = count_lead(s, Class::IsNot(c));
    if n >= s.len() {
        None
    } else {
        let a = slice_subrange(s, 0, n);
        let b = slice_subrange(s, n + 1, s.len());
        assert(a@ == s@.take(n as int));
        assert(b@ == s@.skip(n + 1));
        Some((a, b))
    }
}

pub fn part_last<'a>(s: &'a [char], c: char) -> (r: Option<(&'a [char], &'a [char])>)
    ensures
        pair_view(r) == split_last(s@, c),
{
    let n = count_trail(s, Class::IsNot(c));
    if n >= s.len() {
        None
    } else {
        let a = slice_subrange(s, 0, s.len() - n - 1);
        let b = slice_subrange(s, s.len() - n, s.len());
        assert(a@ == s@.take(s@.len() - n - 1));
        assert(b@ == s@.skip(s@.len() - n));
        Some((a, b))
    }
}

pub fn part_text<'a>(s: &'a [char], p: &str) -> (r: Option<(&'a [char], &'a [char])>)
    ensures
        pair_view(r) == split_at_text(s@, p@),
{
    let pc = chars(p);
    let ps = pc.as_slice();
    let len = s.len();
    match position(s, ps) {
        Some(i) => {
            let a = slice_subrange(s, 0, i);
            let b = slice_subrange(s, i + ps.len(), len);
            assert(a@ == s@.take(i as int));
            assert(b@ == s@.skip(i + p@.len()));
            Some((a, b))
        },
        None => None,
    }
}

/// What stands before the first `c`; all of `s` where there is none.
pub open spec fn before(s: Seq<char>, c: char) -> Seq<char> {
    s.take(lead(s, Class::IsNot(c)) as int)
}

pub fn until(s: &[char], c: char) -> (r: &[char])
    ensures
        r@ == before(s@, c),
{
    let n = count_lead(s, Class::IsNot(c));
    let r = slice_subrange(s, 0, n);
    assert(r@ == s@.take(n as int));
    r
}

/// `s` without `p` at its end; `None` where it does not end so.
pub open spec fn cut_suffix(s: Seq<char>, p: Seq<char>) -> Option<Seq<char>> {
    if ends(s, p) {
        Some(s.take(s.len() - p.len()))
    } else {
        None
    }
}

pub fn strip_suffix<'a>(s: &'a [char], p: &str) -> (r: Option<&'a [char]>)
    ensures
        r is Some <==> cut_suffix(s@, p@) is Some,
        r matches Some(t) ==> cut_suffix(s@, p@) == Some(t@),
{
    let pc = chars(p);
    if ends_with(s, pc.as_slice()) {
        let t = slice_subrange(s, 0, s.len() - pc.len());
        assert(t@ == s@.take(s@.len() - p@.len()));
        Some(t)
    } else {
        None
    }
}

/// `s` without as many copies of `p` as stand at its end.
pub open spec fn without_suffixes(s: Seq<char>, p: Seq<char>) -> Seq<char>
    decreases s.len(),
{
    if p.len() > 0 && ends(s, p) {
        without_suffixes(s.take(s.len() - p.len()), p)
    } else {
        s
    }
}

pub fn strip_suffixes<'a>(s: &'a [char], p: &str) -> (r: &'a [char])
    ensures
        r@ == without_suffixes(s@, p@),
{
    let pc = chars(p);
    let mut r = s;
    while pc.len() > 0 && ends_with(r, pc.as_slice())
        invariant
            pc@ == p@,
            without_suffixes(s@, p@) == without_suffixes(r@, p@),
        decreases r@.len(),
    {
        let t = slice_subrange(r, 0, r.len() - pc.len());
        assert(t@ == r@.take(r@.len() - p@.len()));
        r = t;
    }
    r
}

/// `s` without as many copies of `p` as stand at its front.
pub open spec fn without_prefixes(s: Seq<char>, p: Seq<char>) -> Seq<char>
    decreases s.len(),
{
    if p.len() > 0 && starts(s, p) {
        without_prefixes(s.skip(p.len() as int), p)
    } else {
        s
    }
}

pub fn strip_prefixes<'a>(s: &'a [char], p: &str) -> (r: &'a [char])
    ensures
        r@ == without_prefixes(s@, p@),
{
    let pc = chars(p);
    let mut r = s;
    while pc.len() > 0 && starts_with(r, pc.as_slice())
        invariant
            pc@ == p@,
            without_prefixes(s@, p@) == without_prefixes(r@, p@),
        decreases r@.len(),
    {
        let t = slice_subrange(r, pc.len(), r.len());
        assert(t@ == r@.skip(p@.len() as int));
        r = t;
    }
    r
}

/// The pieces of `s` between the occurrences of `c`. There is one piece more
/// than there are occurrences.
pub open spec fn pieces(s: Seq<char>, c: char) -> Seq<Seq<char>>
    decreases s.len(),
{
    let n = lead(s, Class::IsNot(c)) as int;
    if 0 <= n < s.len() {
        seq![s.take(n)] + pieces(s.skip(n + 1), c)
    } else {
        seq![s]
    }
}

pub fn split<'a>(s: &'a [char], c: char) -> (r: Vec<&'a [char]>)
    ensures
        slices(r@) == pieces(s@, c),
        r@.len() >= 1,
{
    let mut out: Vec<&'a [char]> = Vec::new();
    let mut rest = s;
    loop
        invariant
            slices(out@) + pieces(rest@, c) == pieces(s@, c),
        decreases rest@.len(),
    {
        let n = count_lead(rest, Class::IsNot(c));
        let ghost was = slices(out@);
        if n >= rest.len() {
            out.push(rest);
            assert(slices(out@) =~= was + seq![rest@]);
            return out;
        }
        let a = slice_subrange(rest, 0, n);
        let b = slice_subrange(rest, n + 1, rest.len());
        assert(a@ == rest@.take(n as int));
        assert(b@ == rest@.skip(n + 1));
        out.push(a);
        assert(slices(out@) =~= was + seq![a@]);
        assert(was + (seq![a@] + pieces(b@, c)) =~= (was + seq![a@]) + pieces(b@, c));
        rest = b;
    }
}

/// The pieces of `s` between the occurrences of `p`.
pub open spec fn parts(s: Seq<char>, p: Seq<char>) -> Seq<Seq<char>>
    decreases s.len(),
{
    match find(s, p) {
        Some(i) => if p.len() > 0 && 0 <= i && i + p.len() <= s.len() {
            seq![s.take(i)] + parts(s.skip(i + p.len()), p)
        } else {
            seq![s]
        },
        None => seq![s],
    }
}

pub fn split_text<'a>(s: &'a [char], p: &str) -> (r: Vec<&'a [char]>)
    ensures
        slices(r@) == parts(s@, p@),
        r@.len() >= 1,
{
    let pc = chars(p);
    let mut out: Vec<&'a [char]> = Vec::new();
    let mut rest = s;
    loop
        invariant
            pc@ == p@,
            slices(out@) + parts(rest@, p@) == parts(s@, p@),
        decreases rest@.len(),
    {
        let ghost was = slices(out@);
        let ps = pc.as_slice();
        let len = rest.len();
        match position(rest, ps) {
            Some(i) if ps.len() > 0 => {
                let a = slice_subrange(rest, 0, i);
                let b = slice_subrange(rest, i + ps.len(), len);
                assert(a@ == rest@.take(i as int));
                assert(b@ == rest@.skip(i + p@.len()));
                out.push(a);
                assert(slices(out@) =~= was + seq![a@]);
                assert(was + (seq![a@] + parts(b@, p@)) =~= (was + seq![a@]) + parts(b@, p@));
                rest = b;
            },
            _ => {
                out.push(rest);
                assert(slices(out@) =~= was + seq![rest@]);
                return out;
            },
        }
    }
}

/// The maximal runs of `s` without white space.
pub open spec fn words(s: Seq<char>) -> Seq<Seq<char>>
    decreases s.len(),
    via words_decreases
{
    let t = front_trimmed(s, Class::White);
    let n = lead(t, Class::Solid) as int;
    if t.len() == 0 {
        Seq::empty()
    } else {
        seq![t.take(n)] + words(t.skip(n))
    }
}

#[via_fn]
proof fn words_decreases(s: Seq<char>) {
    let t = front_trimmed(s, Class::White);
    lemma_lead(s, Class::White);
    lemma_lead(t, Class::Solid);
    if t.len() > 0 {
        assert(t[0] == s[lead(s, Class::White) as int]);
        assert(in_class(Class::Solid, t[0]));
    }
}

pub fn split_words<'a>(s: &'a [char]) -> (r: Vec<&'a [char]>)
    ensures
        slices(r@) == words(s@),
{
    let mut out: Vec<&'a [char]> = Vec::new();
    let mut rest = s;
    loop
        invariant
            slices(out@) + words(rest@) == words(s@),
        decreases rest@.len(),
    {
        let ghost was = slices(out@);
        let t = trim_front(rest, Class::White);
        if t.len() == 0 {
            assert(was + Seq::<Seq<char>>::empty() =~= was);
            return out;
        }
        proof {
            lemma_lead(rest@, Class::White);
            lemma_lead(t@, Class::Solid);
            assert(t@[0] == rest@[lead(rest@, Class::White) as int]);
            assert(in_class(Class::Solid, t@[0]));
        }
        let n = count_lead(t, Class::Solid);
        let a = slice_subrange(t, 0, n);
        let b = slice_subrange(t, n, t.len());
        assert(a@ == t@.take(n as int));
        assert(b@ == t@.skip(n as int));
        out.push(a);
        assert(slices(out@) =~= was + seq![a@]);
        assert(was + (seq![a@] + words(b@)) =~= (was + seq![a@]) + words(b@));
        rest = b;
    }
}

/// The first word of `s`; empty where there is none.
pub open spec fn first_word(s: Seq<char>) -> Seq<char> {
    let t = front_trimmed(s, Class::White);
    t.take(lead(t, Class::Solid) as int)
}

pub fn word(s: &[char]) -> (r: &[char])
    ensures
        r@ == first_word(s@),
{
    let t = trim_front(s, Class::White);
    let n = count_lead(t, Class::Solid);
    let r = slice_subrange(t, 0, n);
    assert(r@ == t@.take(n as int));
    r
}

/// A line without the carriage return that stands before its line feed.
pub open spec fn without_return(s: Seq<char>) -> Seq<char> {
    if s.len() > 0 && s.last() == '\r' {
        s.drop_last()
    } else {
        s
    }
}

/// The lines of `s`: what stands before each line feed, without a carriage
/// return right before it, and what stands behind the last one unless that
/// is empty.
pub open spec fn line_list(s: Seq<char>) -> Seq<Seq<char>>
    decreases s.len(),
{
    let n = lead(s, Class::IsNot('\n')) as int;
    if s.len() == 0 {
        Seq::empty()
    } else if n >= s.len() {
        seq![s]
    } else {
        seq![without_return(s.take(n))] + line_list(s.skip(n + 1))
    }
}

pub fn lines<'a>(s: &'a [char]) -> (r: Vec<&'a [char]>)
    ensures
        slices(r@) == line_list(s@),
{
    let mut out: Vec<&'a [char]> = Vec::new();
    let mut rest = s;
    loop
        invariant
            slices(out@) + line_list(rest@) == line_list(s@),
        decreases rest@.len(),
    {
        let ghost was = slices(out@);
        if rest.len() == 0 {
            assert(was + Seq::<Seq<char>>::empty() =~= was);
            return out;
        }
        let n = count_lead(rest, Class::IsNot('\n'));
        if n >= rest.len() {
            out.push(rest);
            assert(slices(out@) =~= was + seq![rest@]);
            return out;
        }
        let a = slice_subrange(rest, 0, n);
        assert(a@ == rest@.take(n as int));
        let l = if a.len() > 0 && a[a.len() - 1] == '\r' {
            let l = slice_subrange(a, 0, a.len() - 1);
            assert(l@ == a@.drop_last());
            l
        } else {
            a
        };
        let b = slice_subrange(rest, n + 1, rest.len());
        assert(b@ == rest@.skip(n + 1));
        out.push(l);
        assert(slices(out@) =~= was + seq![l@]);
        assert(was + (seq![l@] + line_list(b@)) =~= (was + seq![l@]) + line_list(b@));
        rest = b;
    }
}

// ---------------------------------------------------------------------------
// Joining
// ---------------------------------------------------------------------------

/// The texts of `v` with `sep` between each two.
pub open spec fn joined(v: Seq<Seq<char>>, sep: Seq<char>) -> Seq<char>
    decreases v.len(),
{
    if v.len() == 0 {
        Seq::empty()
    } else if v.len() == 1 {
        v[0]
    } else {
        joined(v.drop_last(), sep) + sep + v.last()
    }
}

/// Joins the strings of `v` with `sep` between each two.
pub fn join(v: &Vec<String>, sep: &str) -> (r: String)
    ensures
        r@ == joined(texts(v@), sep@),
{
    let mut out = String::new();
    for i in 0..v.len()
        invariant
            out@ == joined(texts(v@).take(i as int), sep@),
    {
        let ghost was = texts(v@).take(i as int);
        let ghost now = texts(v@).take(i + 1);
        assert(now.drop_last() == was);
        assert(now.last() == v@[i as int]@);
        if i > 0 {
            append_str(&mut out, sep);
        }
        append_str(&mut out, v[i].as_str());
        if i == 0 {
            assert(now.len() == 1);
            assert(out@ =~= now[0]);
        }
    }
    assert(texts(v@).take(v@.len() as int) == texts(v@));
    out
}

/// Joins the slices of `v` with `sep` between each two.
pub fn join_slices(v: &Vec<&[char]>, sep: &str) -> (r: String)
    ensures
        r@ == joined(slices(v@), sep@),
{
    let mut out = String::new();
    for i in 0..v.len()
        invariant
            out@ == joined(slices(v@).take(i as int), sep@),
    {
        let ghost was = slices(v@).take(i as int);
        let ghost now = slices(v@).take(i + 1);
        assert(now.drop_last() == was);
        assert(now.last() == v@[i as int]@);
        if i > 0 {
            append_str(&mut out, sep);
        }
        append(&mut out, v[i]);
        if i == 0 {
            assert(now.len() == 1);
            assert(out@ =~= now[0]);
        }
    }
    assert(slices(v@).take(v@.len() as int) == slices(v@));
    out
}

// ---------------------------------------------------------------------------
// Order
// ---------------------------------------------------------------------------

/// The dictionary order of texts by the number of each character, which is
/// the order of their UTF-8 bytes.
pub open spec fn less(a: Seq<char>, b: Seq<char>) -> bool
    decreases b.len(),
{
    if b.len() == 0 {
        false
    } else if a.len() == 0 {
        true
    } else if a[0] != b[0] {
        a[0] < b[0]
    } else {
        less(a.skip(1), b.skip(1))
    }
}

/// The order is total and no text comes before itself.
pub proof fn lemma_less_total(a: Seq<char>, b: Seq<char>)
    ensures
        !less(a, a),
        !(less(a, b) && less(b, a)),
        a == b || less(a, b) || less(b, a),
    decreases a.len() + b.len(),
{
    if a.len() > 0 && b.len() > 0 {
        lemma_less_total(a.skip(1), b.skip(1));
        if a[0] == b[0] && a.skip(1) == b.skip(1) {
            assert(a =~= seq![a[0]] + a.skip(1));
            assert(b =~= seq![b[0]] + b.skip(1));
        }
    } else if a.len() > 0 {
        lemma_less_total(a.skip(1), b);
    } else if b.len() == 0 {
        assert(a =~= b);
    }
}

pub proof fn lemma_less_trans(a: Seq<char>, b: Seq<char>, c: Seq<char>)
    requires
        less(a, b),
        less(b, c),
    ensures
        less(a, c),
    decreases a.len(),
{
    if a.len() > 0 && a[0] == b[0] && b[0] == c[0] {
        lemma_less_trans(a.skip(1), b.skip(1), c.skip(1));
    }
}

/// Whether `a` comes before `b`.
pub fn precedes(a: &str, b: &str) -> (r: bool)
    ensures
        r == less(a@, b@),
{
    let x = chars(a);
    let y = chars(b);
    let mut i: usize = 0;
    assert(x@.skip(0) == x@);
    assert(y@.skip(0) == y@);
    while i < x.len() && i < y.len()
        invariant
            x@ == a@,
            y@ == b@,
            i <= x@.len(),
            i <= y@.len(),
            less(x@, y@) == less(x@.skip(i as int), y@.skip(i as int)),
        decreases x@.len() - i,
    {
        assert(x@.skip(i as int)[0] == x@[i as int]);
        assert(y@.skip(i as int)[0] == y@[i as int]);
        if x[i] != y[i] {
            return x[i] < y[i];
        }
        assert(x@.skip(i as int).skip(1) == x@.skip(i + 1));
        assert(y@.skip(i as int).skip(1) == y@.skip(i + 1));
        i = i + 1;
    }
    i < y.len()
}

pub proof fn lemma_joined_front(v: Seq<Seq<char>>, sep: Seq<char>)
    requires
        v.len() >= 2,
    ensures
        joined(v, sep) == v[0] + sep + joined(v.skip(1), sep),
    decreases v.len(),
{
    if v.len() == 2 {
        assert(v.drop_last().len() == 1);
        assert(v.skip(1).len() == 1);
        assert(joined(v.drop_last(), sep) == v[0]);
        assert(joined(v.skip(1), sep) == v[1]);
    } else {
        lemma_joined_front(v.drop_last(), sep);
        assert(v.drop_last().skip(1) =~= v.skip(1).drop_last());
        assert(v.skip(1).last() == v.last());
        assert(joined(v, sep) =~= v[0] + sep + joined(v.skip(1), sep));
    }
}

/// What was split is put together again by what it was split at.
pub proof fn law_joining_undoes_splitting(s: Seq<char>, c: char)
    ensures
        joined(pieces(s, c), seq![c]) == s,
    decreases s.len(),
{
    let n = lead(s, Class::IsNot(c)) as int;
    let ps = pieces(s, c);
    if 0 <= n < s.len() {
        let rest = s.skip(n + 1);
        law_joining_undoes_splitting(rest, c);
        lemma_lead(s, Class::IsNot(c));
        lemma_pieces_some(rest, c);
        lemma_joined_front(ps, seq![c]);
        assert(ps.skip(1) =~= pieces(rest, c));
        assert(s[n] == c);
        assert(s =~= s.take(n) + seq![c] + rest);
    }
}

proof fn lemma_pieces_some(s: Seq<char>, c: char)
    ensures
        pieces(s, c).len() > 0,
{
}

} // verus!
