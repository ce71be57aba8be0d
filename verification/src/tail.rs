//! Reading a log file as it grows: where to read on, across rotation and
//! truncation, and which lines are complete.

use crate::daemon::{after, later};
use crate::text::{
    append_str, back_trimmed, chars, lossy, part_first, split_first, text, texts, trim_back,
    utf8_lossy, Class,
};
use vstd::prelude::*;
use vstd::utf8::encode_utf8;

verus! {

/// A longer line is thrown away.
pub const MAX_LINE: usize = 8192;

/// Where a log file has been read to.
pub struct Tail {
    /// How much of the file has been read.
    pub pos: u64,
    /// Which file it was.
    pub ino: u64,
    /// The line that is not complete yet.
    pub buf: String,
}

/// Where a log file has been read to, in mathematical values.
#[verifier::ext_equal]
pub struct TailView {
    pub pos: u64,
    pub ino: u64,
    pub buf: Seq<char>,
}

impl View for Tail {
    type V = TailView;

    open spec fn view(&self) -> TailView {
        TailView { pos: self.pos, ino: self.ino, buf: self.buf@ }
    }
}

/// The complete lines of a text, without the white space at their ends.
pub open spec fn whole_lines(t: Seq<char>) -> Seq<Seq<char>>
    decreases t.len(),
{
    match split_first(t, '\n') {
        Some((line, rest)) if rest.len() < t.len() => seq![back_trimmed(line, Class::White)]
            + whole_lines(rest),
        _ => Seq::empty(),
    }
}

/// What stands behind the last complete line.
pub open spec fn half_line(t: Seq<char>) -> Seq<char>
    decreases t.len(),
{
    match split_first(t, '\n') {
        Some((_, rest)) if rest.len() < t.len() => half_line(rest),
        _ => t,
    }
}

/// The state after it was seen that the file is `ino` and `len` long.
pub open spec fn observed(v: TailView, len: u64, ino: u64) -> TailView {
    if ino != v.ino || len < v.pos {
        TailView { pos: 0, ino, buf: Seq::empty() }
    } else {
        v
    }
}

/// What is kept of a half line.
pub open spec fn kept_half(t: Seq<char>) -> Seq<char> {
    if encode_utf8(t).len() > MAX_LINE {
        Seq::empty()
    } else {
        t
    }
}

impl Tail {
    /// Begins at the end of a file: `meta` is its length and which it is, where
    /// there is one. What stands in it already is not read.
    pub fn new(meta: Option<(u64, u64)>) -> (r: Tail)
        ensures
            r@ == (match meta {
                Some((len, ino)) => TailView { pos: len, ino, buf: Seq::empty() },
                None => TailView { pos: 0, ino: 0, buf: Seq::empty() },
            }),
    {
        let (pos, ino) = match meta {
            Some(m) => m,
            None => (0, 0),
        };
        let r = Tail { pos, ino, buf: String::new() };
        assert(r@.buf =~= Seq::<char>::empty());
        r
    }

    /// Takes in the length of the file and which it is, and says from where there
    /// is something to read.
    pub fn observe(&mut self, len: u64, ino: u64) -> (r: Option<u64>)
        ensures
            final(self)@ == observed(old(self)@, len, ino),
            r == if len == final(self).pos {
                None
            } else {
                Some(final(self).pos)
            },
    {
        if ino != self.ino || len < self.pos {
            self.ino = ino;
            self.pos = 0;
            self.buf = String::new();
            assert(self@ =~= observed(old(self)@, len, ino));
        }
        if len == self.pos {
            None
        } else {
            Some(self.pos)
        }
    }

    /// Takes in text that was read, and gives the lines that are now complete.
    pub fn feed_text(&mut self, t: &str) -> (r: Vec<String>)
        ensures
            texts(r@) == whole_lines(old(self)@.buf + t@),
            final(self)@ == (TailView {
                buf: kept_half(half_line(old(self)@.buf + t@)),
                ..old(self)@
            }),
    {
        append_str(&mut self.buf, t);
        let ghost all = self.buf@;
        let c = chars(self.buf.as_str());
        let mut rest: &[char] = c.as_slice();
        let mut out: Vec<String> = Vec::new();
        assert(texts(out@) =~= Seq::<Seq<char>>::empty());
        assert(Seq::<Seq<char>>::empty() + whole_lines(all) =~= whole_lines(all));
        let mut going = true;
        while going
            invariant
                whole_lines(all) == texts(out@) + whole_lines(rest@),
                half_line(all) == half_line(rest@),
                !going ==> half_line(rest@) == rest@ && whole_lines(rest@).len() == 0,
            decreases rest@.len(), if going { 1int } else { 0int },
        {
            match part_first(rest, '\n') {
                Some((line, more)) => {
                    let ghost was = texts(out@);
                    let one = trim_back(line, Class::White);
                    out.push(text(one));
                    assert(texts(out@) =~= was.push(one@));
                    assert(was + (seq![one@] + whole_lines(more@)) =~= was.push(one@)
                        + whole_lines(more@));
                    rest = more;
                },
                None => {
                    going = false;
                },
            }
        }
        assert(texts(out@) + whole_lines(rest@) =~= texts(out@));
        let half = text(rest);
        if half.as_str().as_bytes().len() > MAX_LINE {
            self.buf = String::new();
            assert(self.buf@ =~= Seq::<char>::empty());
        } else {
            self.buf = half;
        }
        out
    }

    /// Takes in bytes that were read, and gives the lines that are now complete.
    pub fn read_lines(&mut self, chunk: &[u8]) -> (r: Vec<String>)
        ensures
            texts(r@) == whole_lines(old(self)@.buf + utf8_lossy(chunk@)),
            final(self)@ == (TailView {
                pos: later(old(self)@.pos, chunk@.len() as u64),
                ino: old(self)@.ino,
                buf: kept_half(half_line(old(self)@.buf + utf8_lossy(chunk@))),
            }),
    {
        self.pos = after(self.pos, chunk.len() as u64);
        self.feed_text(lossy(chunk).as_str())
    }

    /// Takes in that the file was emptied.
    pub fn truncate(&mut self)
        ensures
            final(self)@ == (TailView { pos: 0, buf: Seq::empty(), ..old(self)@ }),
    {
        self.pos = 0;
        self.buf = String::new();
        assert(self.buf@ =~= Seq::<char>::empty());
    }
}

/// Whether a log of `size` bytes has outgrown a limit of `max_kb` kilobytes; 0 is no
/// limit.
pub fn outgrown(size: u64, max_kb: u64) -> (r: bool)
    ensures
        r == (max_kb > 0 && size > max_kb * 1024),
{
    max_kb > 0 && size as u128 > max_kb as u128 * 1024
}

proof fn lemma_lead_same(a: Seq<char>, b: Seq<char>, c: char)
    requires
        crate::text::lead(a, Class::IsNot(c)) < a.len(),
    ensures
        crate::text::lead(a + b, Class::IsNot(c)) == crate::text::lead(a, Class::IsNot(c)),
{
    let k = Class::IsNot(c);
    let n = crate::text::lead(a, k) as int;
    crate::text::lemma_lead(a, k);
    assert forall|i: int| 0 <= i < n implies crate::text::in_class(k, #[trigger] (a + b)[i]) by {
        assert((a + b)[i] == a[i]);
        assert(crate::text::in_class(k, a[i]));
    }
    assert((a + b)[n] == a[n]);
    crate::text::lemma_lead_is(a + b, k, n);
}

/// It does not matter where a read ends: what is read in two pieces gives the same
/// lines as what is read in one, and leaves the same half line.
pub proof fn law_reading_in_pieces(a: Seq<char>, b: Seq<char>)
    ensures
        whole_lines(a + b) == whole_lines(a) + whole_lines(half_line(a) + b),
        half_line(a + b) == half_line(half_line(a) + b),
    decreases a.len(),
{
    match split_first(a, '\n') {
        Some((line, rest)) => {
            lemma_lead_same(a, b, '\n');
            law_reading_in_pieces(rest, b);
            let n = line.len() as int;
            assert((a + b).take(n) =~= line);
            assert((a + b).skip(n + 1) =~= rest + b);
            assert(split_first(a + b, '\n') == Some((line, rest + b)));
            let one = seq![back_trimmed(line, Class::White)];
            assert(one + (whole_lines(rest) + whole_lines(half_line(rest) + b)) =~= (one
                + whole_lines(rest)) + whole_lines(half_line(rest) + b));
        },
        None => {
            assert(Seq::<Seq<char>>::empty() + whole_lines(a + b) =~= whole_lines(a + b));
        },
    }
}

} // verus!
