//! Reading DNS messages: the name of the first question, and the records of a
//! multicast response. Compressed names are followed through at most sixteen
//! pointers, so a ring of pointers ends the reading instead of holding it.

use crate::discover::{fits_labels, law_query_reads_back, query_bytes};
use crate::text::{join, joined, lossy, pieces, texts, utf8_lossy};
use crate::util::{domain_normal, norm_domain, opt_text};
use crate::wire::{be16, fmt_v4, u16_at, v4_text};
use vstd::prelude::*;
use vstd::slice::{slice_subrange, slice_to_vec};
use vstd::utf8::{decode_utf8, valid_utf8};

verus! {

/// The type number of address records.
pub const T_A: u16 = 1;

/// The type number of pointer records.
pub const T_PTR: u16 = 12;

/// The type number of text records.
pub const T_TXT: u16 = 16;

/// The type number of service records.
pub const T_SRV: u16 = 33;

/// How many pointers are followed in one name.
pub const MAX_HOPS: usize = 16;

/// One resource record.
pub struct Record {
    pub name: String,
    pub rtype: u16,
    /// The name that a pointer or service record points to.
    pub target: String,
    /// The strings of a text record.
    pub txt: Vec<String>,
    /// The address of an address record.
    pub addr: String,
}

/// What a record says.
pub struct RecordView {
    pub name: Seq<char>,
    pub rtype: u16,
    pub target: Seq<char>,
    pub txt: Seq<Seq<char>>,
    pub addr: Seq<char>,
}

impl View for Record {
    type V = RecordView;

    open spec fn view(&self) -> RecordView {
        RecordView {
            name: self.name@,
            rtype: self.rtype,
            target: self.target@,
            txt: texts(self.txt@),
            addr: self.addr@,
        }
    }
}

/// The labels of the name at `off`, after `hops` pointers have been followed.
///
/// A zero byte ends the name; a byte from 192 on is the high part of a pointer
/// to where the name goes on; a byte up to 63 is the length of a label; and no
/// other byte begins a part of a name.
pub open spec fn labels_at(buf: Seq<u8>, off: int, hops: nat) -> Option<Seq<Seq<u8>>>
    decreases MAX_HOPS + 1 - hops, buf.len() - off,
{
    if off < 0 || off >= buf.len() {
        None
    } else if buf[off] == 0 {
        Some(Seq::empty())
    } else if buf[off] >= 0xc0 {
        if off + 1 >= buf.len() {
            None
        } else {
            let to = (buf[off] - 0xc0) * 256 + buf[off + 1];
            if hops >= MAX_HOPS || to >= buf.len() {
                None
            } else {
                labels_at(buf, to, hops + 1)
            }
        }
    } else if buf[off] > 63 || off + 1 + buf[off] > buf.len() {
        None
    } else {
        match labels_at(buf, off + 1 + buf[off], hops) {
            Some(rest) => Some(seq![buf.subrange(off + 1, off + 1 + buf[off])] + rest),
            None => None,
        }
    }
}

/// Where the field behind the name at `off` begins. A pointer ends a name in
/// place, wherever it leads.
pub open spec fn name_end(buf: Seq<u8>, off: int) -> int
    decreases buf.len() - off,
{
    if off < 0 || off >= buf.len() {
        off
    } else if buf[off] == 0 {
        off + 1
    } else if buf[off] >= 0xc0 {
        off + 2
    } else if off + 1 + buf[off] > buf.len() {
        off
    } else {
        name_end(buf, off + 1 + buf[off])
    }
}

/// The texts of a list of byte strings.
pub open spec fn label_texts(ls: Seq<Seq<u8>>) -> Seq<Seq<char>> {
    ls.map_values(|l: Seq<u8>| utf8_lossy(l))
}

/// Whether each of a list of byte strings is UTF-8.
pub open spec fn all_utf8(ls: Seq<Seq<u8>>) -> bool {
    forall|i: int| 0 <= i < ls.len() ==> valid_utf8(#[trigger] ls[i])
}

/// The texts that a list of byte strings encodes.
pub open spec fn decoded(ls: Seq<Seq<u8>>) -> Seq<Seq<char>> {
    ls.map_values(|l: Seq<u8>| decode_utf8(l))
}

/// The name at `off` in text.
pub open spec fn name_at(buf: Seq<u8>, off: int) -> Option<Seq<char>> {
    match labels_at(buf, off, 0) {
        Some(ls) => Some(joined(label_texts(ls), "."@)),
        None => None,
    }
}

/// The byte strings of a list of byte vectors.
pub open spec fn byte_strings(v: Seq<Vec<u8>>) -> Seq<Seq<u8>> {
    v.map_values(|l: Vec<u8>| l@)
}

proof fn lemma_name_end(buf: Seq<u8>, off: int, hops: nat)
    requires
        labels_at(buf, off, hops) is Some,
    ensures
        off < name_end(buf, off) <= buf.len(),
    decreases buf.len() - off,
{
    if buf[off] == 0 {
    } else if buf[off] >= 0xc0 {
    } else {
        lemma_name_end(buf, off + 1 + buf[off], hops);
    }
}

/// A name that can be read takes at least one byte and ends inside the message.
pub proof fn law_name_ends_inside(buf: Seq<u8>, off: int)
    requires
        labels_at(buf, off, 0) is Some,
    ensures
        off < name_end(buf, off) <= buf.len(),
{
    lemma_name_end(buf, off, 0);
}

/// Reads the labels of the name at `start`, and where the next field begins.
pub fn read_labels(buf: &[u8], start: usize) -> (r: Option<(Vec<Vec<u8>>, usize)>)
    ensures
        r is Some <==> labels_at(buf@, start as int, 0) is Some,
        r matches Some((ls, end)) ==> labels_at(buf@, start as int, 0) == Some(byte_strings(ls@))
            && end == name_end(buf@, start as int) && start < end <= buf@.len(),
{
    let mut out: Vec<Vec<u8>> = Vec::new();
    let mut off = start;
    let mut jumped = false;
    let mut after = start;
    let mut hops: usize = 0;
    let ghost whole = labels_at(buf@, start as int, 0);
    loop
        invariant
            whole == labels_at(buf@, start as int, 0),
            hops <= MAX_HOPS,
            match labels_at(buf@, off as int, hops as nat) {
                Some(rest) => whole == Some(byte_strings(out@) + rest),
                None => whole is None,
            },
            jumped ==> after == name_end(buf@, start as int),
            !jumped ==> name_end(buf@, off as int) == name_end(buf@, start as int),
        decreases MAX_HOPS + 1 - hops, buf@.len() - off,
    {
        if off >= buf.len() {
            return None;
        }
        let len = buf[off];
        if len == 0 {
            if !jumped {
                after = off + 1;
            }
            assert(byte_strings(out@) + Seq::<Seq<u8>>::empty() =~= byte_strings(out@));
            proof {
                lemma_name_end(buf@, start as int, 0);
            }
            return Some((out, after));
        }
        if len >= 0xc0 {
            if buf.len() - off < 2 {
                return None;
            }
            let to = (len - 0xc0) as usize * 256 + buf[off + 1] as usize;
            if !jumped {
                after = off + 2;
                jumped = true;
            }
            if hops >= MAX_HOPS || to >= buf.len() {
                return None;
            }
            hops = hops + 1;
            off = to;
        } else {
            if len > 63 || buf.len() - off - 1 < len as usize {
                return None;
            }
            let part = slice_subrange(buf, off + 1, off + 1 + len as usize);
            let ghost was = byte_strings(out@);
            out.push(slice_to_vec(part));
            assert(byte_strings(out@) =~= was + seq![part@]);
            off = off + 1 + len as usize;
            proof {
                match labels_at(buf@, off as int, hops as nat) {
                    Some(rest) => {
                        assert(was + (seq![part@] + rest) =~= (was + seq![part@]) + rest);
                    },
                    None => {},
                }
            }
        }
    }
}

/// Reads the name at `off`, and where the next field begins. Labels that are UTF-8 come
/// back as what they encode.
pub fn read_name(buf: &[u8], off: usize) -> (r: Option<(String, usize)>)
    ensures
        r is Some <==> name_at(buf@, off as int) is Some,
        r matches Some((name, end)) ==> name_at(buf@, off as int) == Some(name@) && end == name_end(
            buf@,
            off as int,
        ) && off < end <= buf@.len(),
        r matches Some((name, _)) ==> {
            let ls = labels_at(buf@, off as int, 0).unwrap();
            all_utf8(ls) ==> name@ == joined(decoded(ls), "."@)
        },
{
    match read_labels(buf, off) {
        Some((ls, end)) => {
            let mut v: Vec<String> = Vec::new();
            for i in 0..ls.len()
                invariant
                    texts(v@) == label_texts(byte_strings(ls@)).take(i as int),
                    all_utf8(byte_strings(ls@)) ==> texts(v@) == decoded(byte_strings(ls@)).take(
                        i as int,
                    ),
            {
                let ghost was = texts(v@);
                let one = lossy(ls[i].as_slice());
                let ghost t = one@;
                assert(byte_strings(ls@)[i as int] == ls@[i as int]@);
                v.push(one);
                assert(texts(v@) =~= was.push(t));
                assert(texts(v@) =~= label_texts(byte_strings(ls@)).take(i + 1));
                assert(all_utf8(byte_strings(ls@)) ==> texts(v@) =~= decoded(
                    byte_strings(ls@),
                ).take(i + 1));
            }
            assert(texts(v@) =~= label_texts(byte_strings(ls@)));
            assert(all_utf8(byte_strings(ls@)) ==> texts(v@) =~= decoded(byte_strings(ls@)));
            Some((join(&v, "."), end))
        },
        None => None,
    }
}

/// The normal form of the first question's name; `None` where the message is
/// too short, asks nothing or asks for the root.
pub open spec fn question_name(buf: Seq<u8>) -> Option<Seq<char>> {
    if buf.len() < 12 || u16_at(buf, 4) == 0 {
        None
    } else {
        match name_at(buf, 12) {
            Some(n) => if n.len() == 0 {
                None
            } else {
                Some(domain_normal(n))
            },
            None => None,
        }
    }
}

/// Reads the name of the first question. Of a question that was written for a name whose
/// parts fit labels, that is the name in its normal form.
pub fn first_question(buf: &[u8]) -> (r: Option<String>)
    ensures
        opt_text(r) == question_name(buf@),
        forall|q: Seq<char>|
            buf@ == #[trigger] query_bytes(q) && fits_labels(pieces(q, '.')) ==> opt_text(r)
                == Some(domain_normal(q)),
{
    proof {
        assert forall|q: Seq<char>|
            buf@ == #[trigger] query_bytes(q) && fits_labels(pieces(q, '.')) implies {
            &&& buf@.len() >= 12
            &&& u16_at(buf@, 4) == 1
            &&& labels_at(buf@, 12, 0) matches Some(ls) && all_utf8(ls) && joined(
                decoded(ls),
                "."@,
            ) == q && q.len() > 0
        } by {
            law_query_reads_back(q);
        }
    }
    if buf.len() < 12 {
        return None;
    }
    if be16(buf, 4) == 0 {
        return None;
    }
    match read_name(buf, 12) {
        Some((name, _)) => {
            if name.as_str().is_empty() {
                None
            } else {
                Some(norm_domain(name.as_str()))
            }
        },
        None => None,
    }
}

/// The strings of a text record: each is led by its length, and an empty or
/// cut off one ends the list.
pub open spec fn txt_list(d: Seq<u8>) -> Seq<Seq<u8>>
    decreases d.len(),
{
    if d.len() == 0 || d[0] == 0 || 1 + d[0] > d.len() {
        Seq::empty()
    } else {
        seq![d.subrange(1, 1 + d[0])] + txt_list(d.skip(1 + d[0]))
    }
}

/// Reads the strings of a text record.
pub fn read_txt(d: &[u8]) -> (r: Vec<String>)
    ensures
        texts(r@) == label_texts(txt_list(d@)),
{
    let mut out: Vec<String> = Vec::new();
    let mut i: usize = 0;
    assert(d@.skip(0) =~= d@);
    while i < d.len() && d[i] != 0 && d.len() - i - 1 >= d[i] as usize
        invariant
            i <= d@.len(),
            label_texts(txt_list(d@)) == texts(out@) + label_texts(txt_list(d@.skip(i as int))),
        decreases d@.len() - i,
    {
        let l = d[i] as usize;
        let part = slice_subrange(d, i + 1, i + 1 + l);
        let ghost rest = d@.skip(i as int);
        let ghost was = texts(out@);
        assert(rest[0] == d@[i as int]);
        assert(rest.subrange(1, 1 + rest[0]) =~= part@);
        assert(rest.skip(1 + rest[0]) =~= d@.skip(i + 1 + l));
        out.push(lossy(part));
        assert(texts(out@) =~= was.push(utf8_lossy(part@)));
        assert(label_texts(seq![part@] + txt_list(d@.skip(i + 1 + l))) =~= seq![
            utf8_lossy(part@),
        ] + label_texts(txt_list(d@.skip(i + 1 + l))));
        assert(was + (seq![utf8_lossy(part@)] + label_texts(txt_list(d@.skip(i + 1 + l))))
            =~= was.push(utf8_lossy(part@)) + label_texts(txt_list(d@.skip(i + 1 + l))));
        i = i + 1 + l;
    }
    proof {
        let rest = d@.skip(i as int);
        if i < d@.len() {
            assert(rest[0] == d@[i as int]);
        }
        assert(label_texts(txt_list(rest)) =~= Seq::<Seq<char>>::empty());
        assert(texts(out@) + Seq::<Seq<char>>::empty() =~= texts(out@));
    }
    out
}

/// The normal form of the name at `off`; empty where none can be read.
pub open spec fn target_at(buf: Seq<u8>, off: int) -> Seq<char> {
    match name_at(buf, off) {
        Some(n) => domain_normal(n),
        None => Seq::empty(),
    }
}

/// The record whose name is `name`, whose type is `rtype` and whose `len` bytes
/// of data begin at `at`.
pub open spec fn record_of(
    buf: Seq<u8>,
    name: Seq<char>,
    rtype: u16,
    at: int,
    len: int,
) -> RecordView {
    let d = buf.subrange(at, at + len);
    RecordView {
        name: domain_normal(name),
        rtype,
        target: if rtype == T_PTR {
            target_at(buf, at)
        } else if rtype == T_SRV && len > 6 {
            target_at(buf, at + 6)
        } else {
            Seq::empty()
        },
        txt: if rtype == T_TXT {
            label_texts(txt_list(d))
        } else {
            Seq::empty()
        },
        addr: if rtype == T_A && len == 4 {
            v4_text(d[0], d[1], d[2], d[3])
        } else {
            Seq::empty()
        },
    }
}

/// The record at `off` and where the next one begins; `None` where the message
/// ends inside it.
pub open spec fn record_at(buf: Seq<u8>, off: int) -> Option<(RecordView, int)> {
    match name_at(buf, off) {
        Some(name) => {
            let at = name_end(buf, off);
            if at + 10 > buf.len() || at + 10 + u16_at(buf, at + 8) > buf.len() {
                None
            } else {
                let len = u16_at(buf, at + 8);
                Some(
                    (
                        record_of(buf, name, u16_at(buf, at) as u16, at + 10, len),
                        at + 10 + len,
                    ),
                )
            }
        },
        None => None,
    }
}

/// At most `n` records from `off` on, up to the first that cannot be read.
pub open spec fn records_at(buf: Seq<u8>, off: int, n: nat) -> Seq<RecordView>
    decreases n,
{
    if n == 0 {
        Seq::empty()
    } else {
        match record_at(buf, off) {
            Some((rec, next)) => seq![rec] + records_at(buf, next, (n - 1) as nat),
            None => Seq::empty(),
        }
    }
}

/// Where the records begin behind `n` questions at `off`.
pub open spec fn behind_questions(buf: Seq<u8>, off: int, n: nat) -> Option<int>
    decreases n,
{
    if n == 0 {
        Some(off)
    } else {
        match name_at(buf, off) {
            Some(_) => behind_questions(buf, name_end(buf, off) + 4, (n - 1) as nat),
            None => None,
        }
    }
}

/// The records of all sections of a message.
pub open spec fn message_records(buf: Seq<u8>) -> Seq<RecordView> {
    if buf.len() < 12 {
        Seq::empty()
    } else {
        match behind_questions(buf, 12, u16_at(buf, 4) as nat) {
            Some(off) => records_at(
                buf,
                off,
                (u16_at(buf, 6) + u16_at(buf, 8) + u16_at(buf, 10)) as nat,
            ),
            None => Seq::empty(),
        }
    }
}

/// The views of a list of records.
pub open spec fn record_views(v: Seq<Record>) -> Seq<RecordView> {
    v.map_values(|r: Record| r@)
}

/// Reads the target name at `off`.
fn read_target(buf: &[u8], off: usize) -> (r: String)
    ensures
        r@ == target_at(buf@, off as int),
{
    match read_name(buf, off) {
        Some((t, _)) => norm_domain(t.as_str()),
        None => String::new(),
    }
}

/// Reads the record at `off`, and where the next one begins.
pub fn read_record(buf: &[u8], off: usize) -> (r: Option<(Record, usize)>)
    ensures
        r is Some <==> record_at(buf@, off as int) is Some,
        r matches Some((rec, next)) ==> record_at(buf@, off as int) == Some((rec@, next as int))
            && next <= buf@.len(),
{
    let (name, at) = match read_name(buf, off) {
        Some(v) => v,
        None => {
            return None;
        },
    };
    if buf.len() - at < 10 {
        return None;
    }
    let rtype = be16(buf, at);
    let len = be16(buf, at + 8) as usize;
    let start = at + 10;
    if buf.len() - start < len {
        return None;
    }
    let d = slice_subrange(buf, start, start + len);
    let mut rec = Record {
        name: norm_domain(name.as_str()),
        rtype,
        target: String::new(),
        txt: Vec::new(),
        addr: String::new(),
    };
    assert(texts(rec.txt@) =~= Seq::<Seq<char>>::empty());
    if rtype == T_PTR {
        rec.target = read_target(buf, start);
    } else if rtype == T_SRV {
        if len > 6 {
            rec.target = read_target(buf, start + 6);
        }
    } else if rtype == T_TXT {
        rec.txt = read_txt(d);
    } else if rtype == T_A {
        if len == 4 {
            rec.addr = fmt_v4(d[0], d[1], d[2], d[3]);
        }
    }
    assert(rec@ == record_of(buf@, name@, rtype, start as int, len as int));
    Some((rec, start + len))
}

/// Skips `n` questions from `off` on.
fn skip_questions(buf: &[u8], start: usize, n: u16) -> (r: Option<usize>)
    ensures
        r matches Some(off) ==> behind_questions(buf@, start as int, n as nat) == Some(off as int),
        r is None ==> match behind_questions(buf@, start as int, n as nat) {
            Some(off) => off >= buf@.len(),
            None => true,
        },
{
    let mut off = start;
    let mut left = n;
    while left > 0
        invariant
            behind_questions(buf@, start as int, n as nat) == behind_questions(
                buf@,
                off as int,
                left as nat,
            ),
        decreases left,
    {
        match read_name(buf, off) {
            Some((_, end)) => {
                let n = buf.len();
                if end > usize::MAX - 4 {
                    assert(name_at(buf@, end + 4) is None);
                    assert(match behind_questions(buf@, end + 4, (left - 1) as nat) {
                        Some(off) => off >= buf@.len(),
                        None => true,
                    });
                    return None;
                }
                off = end + 4;
                left = left - 1;
            },
            None => {
                return None;
            },
        }
    }
    Some(off)
}

/// Reads the records of all sections of a message.
pub fn parse_records(buf: &[u8]) -> (r: Vec<Record>)
    ensures
        record_views(r@) == message_records(buf@),
{
    let mut out: Vec<Record> = Vec::new();
    assert(record_views(out@) =~= Seq::<RecordView>::empty());
    if buf.len() < 12 {
        return out;
    }
    let counts: u32 = be16(buf, 6) as u32 + be16(buf, 8) as u32 + be16(buf, 10) as u32;
    let mut off = match skip_questions(buf, 12, be16(buf, 4)) {
        Some(off) => off,
        None => {
            return out;
        },
    };
    let mut left = counts;
    let ghost whole = message_records(buf@);
    while left > 0
        invariant
            whole == message_records(buf@),
            whole == record_views(out@) + records_at(buf@, off as int, left as nat),
        decreases left,
    {
        let ghost was = record_views(out@);
        match read_record(buf, off) {
            Some((rec, next)) => {
                let ghost rv = rec@;
                out.push(rec);
                assert(record_views(out@) =~= was.push(rv));
                assert(was + (seq![rv] + records_at(buf@, next as int, (left - 1) as nat))
                    =~= was.push(rv) + records_at(buf@, next as int, (left - 1) as nat));
                off = next;
                left = left - 1;
            },
            None => {
                assert(was + Seq::<RecordView>::empty() =~= was);
                return out;
            },
        }
    }
    assert(record_views(out@) + Seq::<RecordView>::empty() =~= record_views(out@));
    out
}

// ---------------------------------------------------------------------------
// Laws
// ---------------------------------------------------------------------------

/// How many records a message says that it has.
pub open spec fn record_count(buf: Seq<u8>) -> nat {
    (u16_at(buf, 6) + u16_at(buf, 8) + u16_at(buf, 10)) as nat
}

/// Where the record at `off` ends.
pub open spec fn record_end(buf: Seq<u8>, off: int) -> int {
    let at = name_end(buf, off);
    at + 10 + u16_at(buf, at + 8)
}

/// Whether the name at `off` looks at nothing behind its own end.
pub open spec fn sound_name(buf: Seq<u8>, off: int) -> bool {
    labels_at(buf.take(name_end(buf, off)), off, 0) is Some
}

/// Whether the record at `off` ends inside the message, and the names in it look at
/// nothing behind their fields.
pub open spec fn sound_record(buf: Seq<u8>, off: int) -> bool {
    let at = name_end(buf, off);
    let end = record_end(buf, off);
    &&& at + 10 <= buf.len()
    &&& end <= buf.len()
    &&& sound_name(buf, off)
    &&& u16_at(buf, at) == T_PTR ==> labels_at(buf.take(end), at + 10, 0) is Some
    &&& u16_at(buf, at) == T_SRV && u16_at(buf, at + 8) > 6 ==> labels_at(
        buf.take(end),
        at + 16,
        0,
    ) is Some
}

/// Whether that holds of `n` records from `off` on.
pub open spec fn sound_records(buf: Seq<u8>, off: int, n: nat) -> bool
    decreases n,
{
    n > 0 ==> sound_record(buf, off) && sound_records(buf, record_end(buf, off), (n - 1) as nat)
}

/// Whether `n` questions from `off` on end inside the message, and their names look at
/// nothing behind their own ends.
pub open spec fn sound_questions(buf: Seq<u8>, off: int, n: nat) -> bool
    decreases n,
{
    n > 0 ==> {
        let at = name_end(buf, off);
        &&& at + 4 <= buf.len()
        &&& sound_name(buf, off)
        &&& sound_questions(buf, at + 4, (n - 1) as nat)
    }
}

/// Whether a message is well formed: it has all the questions and records that it says
/// it has, and pointers lead back.
pub open spec fn sound_message(buf: Seq<u8>) -> bool {
    &&& buf.len() >= 12
    &&& sound_questions(buf, 12, u16_at(buf, 4) as nat)
    &&& behind_questions(buf, 12, u16_at(buf, 4) as nat) matches Some(off) && sound_records(
        buf,
        off,
        record_count(buf),
    )
}

/// How many of `n` records from `off` on end at `k` or before. Each begins where the one
/// before it ends, so these are the first ones.
pub open spec fn ending_by(buf: Seq<u8>, off: int, n: nat, k: int) -> nat
    decreases n,
{
    if n > 0 && record_end(buf, off) <= k {
        1 + ending_by(buf, record_end(buf, off), (n - 1) as nat, k)
    } else {
        0
    }
}

proof fn lemma_name_end_behind(buf: Seq<u8>, off: int)
    ensures
        off <= name_end(buf, off),
    decreases buf.len() - off,
{
    if 0 <= off < buf.len() && 0 < buf[off] < 0xc0 && off + 1 + buf[off] <= buf.len() {
        lemma_name_end_behind(buf, off + 1 + buf[off]);
    }
}

/// A name that can be read from the first `k` bytes is the same in the whole message.
proof fn lemma_name_in_whole(buf: Seq<u8>, k: int, off: int, hops: nat)
    requires
        0 <= k <= buf.len(),
        labels_at(buf.take(k), off, hops) is Some,
    ensures
        labels_at(buf, off, hops) == labels_at(buf.take(k), off, hops),
        name_end(buf, off) == name_end(buf.take(k), off),
    decreases MAX_HOPS + 1 - hops, k - off,
{
    let cut = buf.take(k);
    assert(cut[off] == buf[off]);
    if buf[off] == 0 {
    } else if buf[off] >= 0xc0 {
        let to = (buf[off] - 0xc0) * 256 + buf[off + 1];
        assert(cut[off + 1] == buf[off + 1]);
        lemma_name_in_whole(buf, k, to, hops + 1);
    } else {
        let next = off + 1 + buf[off];
        lemma_name_in_whole(buf, k, next, hops);
        assert(cut.subrange(off + 1, next) =~= buf.subrange(off + 1, next));
    }
}

/// A name that can be read from the first `j` bytes is the same in the first `k`.
proof fn lemma_name_in_more(buf: Seq<u8>, j: int, k: int, off: int)
    requires
        0 <= j <= k <= buf.len(),
        labels_at(buf.take(j), off, 0) is Some,
    ensures
        labels_at(buf.take(k), off, 0) == labels_at(buf.take(j), off, 0),
        name_end(buf.take(k), off) == name_end(buf.take(j), off),
{
    assert(buf.take(k).take(j) =~= buf.take(j));
    lemma_name_in_whole(buf.take(k), j, off, 0);
}

proof fn lemma_record_cut(buf: Seq<u8>, off: int, k: int)
    requires
        sound_record(buf, off),
        0 <= k <= buf.len(),
    ensures
        off < record_end(buf, off),
        record_at(buf, off) matches Some((_, next)) && next == record_end(buf, off),
        record_end(buf, off) <= k ==> record_at(buf.take(k), off) == record_at(buf, off),
        record_end(buf, off) > k ==> record_at(buf.take(k), off) is None,
{
    let cut = buf.take(k);
    let at = name_end(buf, off);
    let end = record_end(buf, off);
    lemma_name_end_behind(buf, off);
    lemma_name_in_whole(buf, at, off, 0);
    lemma_name_end(buf, off, 0);
    if labels_at(cut, off, 0) is Some {
        lemma_name_in_whole(buf, k, off, 0);
        if at + 10 <= k {
            assert(u16_at(cut, at + 8) == u16_at(buf, at + 8));
        }
    }
    if end <= k {
        lemma_name_in_more(buf, at, k, off);
        lemma_name_in_whole(buf, k, off, 0);
        let len = u16_at(buf, at + 8);
        assert(u16_at(cut, at) == u16_at(buf, at));
        assert(u16_at(cut, at + 8) == len);
        assert(cut.subrange(at + 10, at + 10 + len) =~= buf.subrange(at + 10, at + 10 + len));
        if u16_at(buf, at) == T_PTR {
            lemma_name_in_more(buf, end, k, at + 10);
            lemma_name_in_whole(buf, k, at + 10, 0);
        }
        if u16_at(buf, at) == T_SRV && len > 6 {
            lemma_name_in_more(buf, end, k, at + 16);
            lemma_name_in_whole(buf, k, at + 16, 0);
        }
    }
}

proof fn lemma_records_cut(buf: Seq<u8>, off: int, n: nat, k: int)
    requires
        sound_records(buf, off, n),
        0 <= k <= buf.len(),
    ensures
        records_at(buf, off, n).len() == n,
        ending_by(buf, off, n, k) <= n,
        records_at(buf.take(k), off, n) == records_at(buf, off, n).take(
            ending_by(buf, off, n, k) as int,
        ),
    decreases n,
{
    if n > 0 {
        lemma_record_cut(buf, off, k);
        let next = record_end(buf, off);
        let more = (n - 1) as nat;
        lemma_records_cut(buf, next, more, k);
        let (rec, _) = record_at(buf, off).unwrap();
        assert(records_at(buf, off, n) == seq![rec] + records_at(buf, next, more));
        if next <= k {
            let m = ending_by(buf, next, more, k) as int;
            assert((seq![rec] + records_at(buf, next, more)).take(1 + m) =~= seq![rec]
                + records_at(buf, next, more).take(m));
        } else {
            assert(records_at(buf, off, n).take(0) =~= Seq::<RecordView>::empty());
        }
    } else {
        assert(records_at(buf, off, n).take(0) =~= Seq::<RecordView>::empty());
    }
}

proof fn lemma_questions_cut(buf: Seq<u8>, off: int, n: nat, k: int)
    requires
        sound_questions(buf, off, n),
        0 <= k <= buf.len(),
    ensures
        behind_questions(buf, off, n) matches Some(end) && end >= off && if end <= k {
            behind_questions(buf.take(k), off, n) == Some(end)
        } else {
            behind_questions(buf.take(k), off, n) matches Some(e) ==> e == end
        },
    decreases n,
{
    if n > 0 {
        let cut = buf.take(k);
        let at = name_end(buf, off);
        lemma_name_end_behind(buf, off);
        lemma_name_in_whole(buf, at, off, 0);
        lemma_name_end(buf, off, 0);
        lemma_questions_cut(buf, at + 4, (n - 1) as nat, k);
        if labels_at(cut, off, 0) is Some {
            lemma_name_in_whole(buf, k, off, 0);
        } else if at <= k {
            lemma_name_in_more(buf, at, k, off);
        }
    }
}

/// A well-formed message has as many records as it says, and one that was cut off loses
/// only the records that do not end before the cut: none that does is lost or changed,
/// and none is made up.
pub proof fn law_cut_message_keeps_records(buf: Seq<u8>, k: int)
    requires
        sound_message(buf),
        0 <= k <= buf.len(),
    ensures
        message_records(buf).len() == record_count(buf),
        message_records(buf.take(k)) == message_records(buf).take(
            ending_by(
                buf,
                behind_questions(buf, 12, u16_at(buf, 4) as nat).unwrap(),
                record_count(buf),
                k,
            ) as int,
        ),
{
    let cut = buf.take(k);
    let qd = u16_at(buf, 4) as nat;
    let n = record_count(buf);
    let off = behind_questions(buf, 12, qd).unwrap();
    lemma_questions_cut(buf, 12, qd, k);
    lemma_records_cut(buf, off, n, k);
    if off > k {
        if n > 0 {
            lemma_record_cut(buf, off, k);
        }
        assert(ending_by(buf, off, n, k) == 0);
        assert(message_records(buf).take(0) =~= Seq::<RecordView>::empty());
    }
    if k >= 12 {
        assert(cut[4] == buf[4] && cut[5] == buf[5]);
        assert(cut[6] == buf[6] && cut[7] == buf[7]);
        assert(cut[8] == buf[8] && cut[9] == buf[9]);
        assert(cut[10] == buf[10] && cut[11] == buf[11]);
        assert(u16_at(cut, 4) == qd);
        assert(record_count(cut) == n);
        if off > k {
            if let Some(e) = behind_questions(cut, 12, qd) {
                assert(records_at(cut, e, n) =~= Seq::<RecordView>::empty());
            }
        }
    }
}

} // verus!
