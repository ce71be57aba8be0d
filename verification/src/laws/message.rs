//! What is read from DNS messages, and from a tap on them, is what was written there.

use crate::dnsmsg::{
    behind_questions, label_texts, labels_at, message_records, name_at, name_end, question_name,
    record_at, records_at, txt_list, RecordView,
};
use crate::dnstap::{
    address_of, answer, byte_fields, learnt, next_expected, number_bytes, place_value, query_of,
    query_parts, varint_at, varint_from, Expect,
};
use crate::dnswatch::own_address;
use crate::event::EventView;
use crate::laws::packet::{
    counted, holds_at, lemma_holds_parts, lemma_two_bytes, long_counted, two_bytes,
};
use crate::text::joined;
use crate::util::domain_normal;
use crate::wire::{u32_at, v4_text};
use vstd::prelude::*;

verus! {

// ---------------------------------------------------------------------------
// Names
// ---------------------------------------------------------------------------

/// The labels of a name as they are written: each behind its count.
pub open spec fn label_bytes(ls: Seq<Seq<u8>>) -> Seq<u8>
    decreases ls.len(),
{
    if ls.len() == 0 {
        Seq::empty()
    } else {
        counted(ls[0]) + label_bytes(ls.skip(1))
    }
}

/// Whether each of some labels is as long as a label can be.
pub open spec fn right_labels(ls: Seq<Seq<u8>>) -> bool {
    forall|i: int| 0 <= i < ls.len() ==> 0 < (#[trigger] ls[i]).len() <= 63
}

/// A name as it is written: its labels, and a zero behind them.
pub open spec fn name_bytes(ls: Seq<Seq<u8>>) -> Seq<u8> {
    label_bytes(ls) + seq![0u8]
}

proof fn lemma_labels(
    buf: Seq<u8>,
    off: int,
    ls: Seq<Seq<u8>>,
    hops: nat,
    rest: Option<Seq<Seq<u8>>>,
)
    requires
        right_labels(ls),
        holds_at(buf, off, label_bytes(ls)),
        labels_at(buf, off + label_bytes(ls).len(), hops) == rest,
    ensures
        rest matches Some(r) ==> labels_at(buf, off, hops) == Some(ls + r),
        rest is None ==> labels_at(buf, off, hops) is None,
        name_end(buf, off) == name_end(buf, off + label_bytes(ls).len()),
    decreases ls.len(),
{
    if ls.len() == 0 {
        if let Some(r) = rest {
            assert(ls + r =~= r);
        }
    } else {
        let l = ls[0];
        let more = ls.skip(1);
        lemma_holds_parts(buf, off, counted(l), label_bytes(more));
        let part = buf.subrange(off, off + counted(l).len());
        assert(part == counted(l));
        assert(buf[off] == part[0]);
        assert(buf[off] == l.len());
        assert(buf.subrange(off + 1, off + 1 + l.len()) =~= l) by {
            assert forall|j: int| 0 <= j < l.len() implies buf[off + 1 + j] == l[j] by {
                assert(part[1 + j] == buf[off + 1 + j]);
            }
        }
        assert(right_labels(more)) by {
            assert forall|i: int| 0 <= i < more.len() implies 0 < (#[trigger] more[i]).len()
                <= 63 by {
                assert(more[i] == ls[i + 1]);
            }
        }
        assert(off + label_bytes(ls).len() == off + 1 + l.len() + label_bytes(more).len());
        lemma_labels(buf, off + 1 + l.len(), more, hops, rest);
        if let Some(r) = rest {
            assert(seq![l] + (more + r) =~= ls + r);
        }
    }
}

/// A name is read back label by label, wherever in a message it stands, and what comes next
/// is behind its zero.
pub proof fn law_name_reads_back(buf: Seq<u8>, off: int, ls: Seq<Seq<u8>>)
    requires
        right_labels(ls),
        holds_at(buf, off, name_bytes(ls)),
    ensures
        labels_at(buf, off, 0) == Some(ls),
        name_at(buf, off) == Some(joined(label_texts(ls), "."@)),
        name_end(buf, off) == off + name_bytes(ls).len(),
{
    lemma_holds_parts(buf, off, label_bytes(ls), seq![0u8]);
    let e = off + label_bytes(ls).len();
    assert(buf.subrange(e, e + 1)[0] == 0u8);
    assert(buf[e] == 0);
    lemma_labels(buf, off, ls, 0, Some(Seq::empty()));
    assert(ls + Seq::<Seq<u8>>::empty() =~= ls);
}

/// A name may end in a pointer to where the rest of it stands: then it is its own labels and
/// those there, and what comes next is behind the pointer.
pub proof fn law_name_goes_on_elsewhere(
    buf: Seq<u8>,
    off: int,
    ls: Seq<Seq<u8>>,
    to: int,
    rest: Seq<Seq<u8>>,
)
    requires
        right_labels(ls),
        right_labels(rest),
        0 <= to < 0x4000,
        holds_at(buf, off, label_bytes(ls) + two_bytes(0xc000 + to)),
        holds_at(buf, to, name_bytes(rest)),
    ensures
        labels_at(buf, off, 0) == Some(ls + rest),
        name_at(buf, off) == Some(joined(label_texts(ls + rest), "."@)),
        name_end(buf, off) == off + label_bytes(ls).len() + 2,
{
    lemma_holds_parts(buf, off, label_bytes(ls), two_bytes(0xc000 + to));
    let e = off + label_bytes(ls).len();
    let two = buf.subrange(e, e + 2);
    assert(two == two_bytes(0xc000 + to));
    assert(buf[e] == two[0] && buf[e + 1] == two[1]);
    assert((0xc000 + to) / 256 == 0xc0 + to / 256);
    assert((0xc000 + to) % 256 == to % 256);
    assert(buf[e] == 0xc0 + to / 256 && buf[e + 1] == to % 256);
    assert((buf[e] - 0xc0) * 256 + buf[e + 1] == to);
    lemma_holds_parts(buf, to, label_bytes(rest), seq![0u8]);
    let z = to + label_bytes(rest).len();
    assert(buf.subrange(z, z + 1)[0] == 0u8);
    assert(buf[z] == 0);
    lemma_labels(buf, to, rest, 1, Some(Seq::empty()));
    assert(rest + Seq::<Seq<u8>>::empty() =~= rest);
    assert(labels_at(buf, e, 0) == Some(rest));
    lemma_labels(buf, off, ls, 0, Some(rest));
}

/// A name that points to itself is none.
pub proof fn law_name_does_not_run_in_circles(buf: Seq<u8>, off: int, hops: nat)
    requires
        0 <= off < 0x4000,
        holds_at(buf, off, two_bytes(0xc000 + off)),
    ensures
        labels_at(buf, off, hops) is None,
    decreases 17 - hops,
{
    let two = buf.subrange(off, off + 2);
    assert(buf[off] == two[0] && buf[off + 1] == two[1]);
    assert((0xc000 + off) / 256 == 0xc0 + off / 256);
    assert((0xc000 + off) % 256 == off % 256);
    assert((buf[off] - 0xc0) * 256 + buf[off + 1] == off);
    if hops < 16 {
        law_name_does_not_run_in_circles(buf, off, hops + 1);
    }
}

/// The first question of a message is the name behind its head, if it says that it has any.
pub proof fn law_question_is_the_first_name(buf: Seq<u8>, n: int, ls: Seq<Seq<u8>>)
    requires
        0 <= n < 65536,
        right_labels(ls),
        holds_at(buf, 4, two_bytes(n)),
        holds_at(buf, 12, name_bytes(ls)),
    ensures
        ({
            let name = joined(label_texts(ls), "."@);
            &&& n > 0 && name.len() > 0 ==> question_name(buf) == Some(domain_normal(name))
            &&& n == 0 || name.len() == 0 ==> question_name(buf) is None
        }),
{
    lemma_two_bytes(buf, 4, n);
    law_name_reads_back(buf, 12, ls);
}

// ---------------------------------------------------------------------------
// Records
// ---------------------------------------------------------------------------

/// A record as it is written: its name, what sort it is, how it is cached, and its data
/// behind their count.
pub open spec fn record_bytes(
    ls: Seq<Seq<u8>>,
    sort: u16,
    caching: Seq<u8>,
    data: Seq<u8>,
) -> Seq<u8> {
    name_bytes(ls) + (two_bytes(sort as int) + (caching + long_counted(data)))
}

/// A record is read back: its name in normal form, its sort, and of its data what the sort
/// gives. The next one begins right behind it.
pub proof fn law_record_reads_back(
    buf: Seq<u8>,
    off: int,
    ls: Seq<Seq<u8>>,
    sort: u16,
    caching: Seq<u8>,
    data: Seq<u8>,
) -> (rec: RecordView)
    requires
        right_labels(ls),
        caching.len() == 6,
        data.len() < 65536,
        holds_at(buf, off, record_bytes(ls, sort, caching, data)),
    ensures
        record_at(buf, off) == Some((rec, off + record_bytes(ls, sort, caching, data).len())),
        rec.name == domain_normal(joined(label_texts(ls), "."@)),
        rec.rtype == sort,
        sort == 1 && data.len() == 4 ==> rec.addr == v4_text(data[0], data[1], data[2], data[3]),
        sort != 1 || data.len() != 4 ==> rec.addr.len() == 0,
        sort == 16 ==> rec.txt == label_texts(txt_list(data)),
        sort != 16 ==> rec.txt.len() == 0,
        sort == 12 ==> forall|t: Seq<Seq<u8>>|
            right_labels(t) && data == #[trigger] name_bytes(t) ==> rec.target == domain_normal(
                joined(label_texts(t), "."@),
            ),
        sort == 33 && data.len() > 6 ==> forall|t: Seq<Seq<u8>>|
            right_labels(t) && data.skip(6) == #[trigger] name_bytes(t) ==> rec.target
                == domain_normal(joined(label_texts(t), "."@)),
        sort != 12 && (sort != 33 || data.len() <= 6) ==> rec.target.len() == 0,
{
    let s = two_bytes(sort as int);
    let c = long_counted(data);
    lemma_holds_parts(buf, off, name_bytes(ls), s + (caching + c));
    let at = off + name_bytes(ls).len();
    lemma_holds_parts(buf, at, s, caching + c);
    lemma_holds_parts(buf, at + 2, caching, c);
    lemma_holds_parts(buf, at + 8, two_bytes(data.len() as int), data);
    law_name_reads_back(buf, off, ls);
    lemma_two_bytes(buf, at, sort as int);
    lemma_two_bytes(buf, at + 8, data.len() as int);
    assert(buf.subrange(at + 10, at + 10 + data.len()) == data);
    assert forall|t: Seq<Seq<u8>>|
        sort == 12 && right_labels(t) && data == #[trigger] name_bytes(t) implies name_at(
        buf,
        at + 10,
    ) == Some(joined(label_texts(t), "."@)) by {
        law_name_reads_back(buf, at + 10, t);
    }
    assert forall|t: Seq<Seq<u8>>|
        sort == 33 && data.len() > 6 && right_labels(t) && data.skip(6) == #[trigger] name_bytes(
            t,
        ) implies name_at(buf, at + 16) == Some(joined(label_texts(t), "."@)) by {
        assert(buf.subrange(at + 16, at + 10 + data.len()) =~= data.skip(6)) by {
            assert forall|j: int| 0 <= j < data.len() - 6 implies buf[at + 16 + j] == data.skip(
                6,
            )[j] by {
                assert(buf.subrange(at + 10, at + 10 + data.len())[j + 6] == data[j + 6]);
            }
        }
        law_name_reads_back(buf, at + 16, t);
    }
    record_at(buf, off).unwrap().0
}

/// The texts of a record are read back, up to an empty one or the end.
pub proof fn law_texts_read_back(l: Seq<Seq<u8>>, rest: Seq<u8>)
    requires
        forall|i: int| 0 <= i < l.len() ==> 0 < (#[trigger] l[i]).len() < 256,
        rest.len() == 0 || rest[0] == 0 || rest.len() < 1 + rest[0],
    ensures
        txt_list(label_bytes(l) + rest) == l,
    decreases l.len(),
{
    if l.len() == 0 {
        assert(label_bytes(l) + rest =~= rest);
    } else {
        let d = label_bytes(l) + rest;
        let more = l.skip(1);
        assert(d =~= counted(l[0]) + (label_bytes(more) + rest));
        assert(d[0] == l[0].len());
        assert(d.subrange(1, 1 + d[0]) =~= l[0]);
        assert(d.skip(1 + d[0]) =~= label_bytes(more) + rest);
        assert forall|i: int| 0 <= i < more.len() implies 0 < (#[trigger] more[i]).len() < 256 by {
            assert(more[i] == l[i + 1]);
        }
        law_texts_read_back(more, rest);
        assert(seq![l[0]] + more =~= l);
    }
}

/// Whether a record stands at a place of some, and ends at the next place.
pub open spec fn record_stands(
    buf: Seq<u8>,
    places: Seq<int>,
    recs: Seq<RecordView>,
    k: int,
) -> bool {
    record_at(buf, places[k]) == Some((recs[k], places[k + 1]))
}

/// Whether a question stands at a place of some, and ends at the next place: a name, and four
/// bytes behind it.
pub open spec fn question_stands(buf: Seq<u8>, places: Seq<int>, k: int) -> bool {
    name_at(buf, places[k]) is Some && places[k + 1] == name_end(buf, places[k]) + 4
}

proof fn lemma_records(buf: Seq<u8>, places: Seq<int>, recs: Seq<RecordView>, i: int)
    requires
        places.len() == recs.len() + 1,
        0 <= i <= recs.len(),
        forall|k: int| 0 <= k < recs.len() ==> #[trigger] record_stands(buf, places, recs, k),
    ensures
        records_at(buf, places[i], (recs.len() - i) as nat) == recs.skip(i),
    decreases recs.len() - i,
{
    if i < recs.len() {
        lemma_records(buf, places, recs, i + 1);
        assert(record_stands(buf, places, recs, i));
        assert(seq![recs[i]] + recs.skip(i + 1) =~= recs.skip(i));
    }
}

proof fn lemma_questions(buf: Seq<u8>, places: Seq<int>, i: int)
    requires
        0 <= i < places.len(),
        forall|k: int| 0 <= k < places.len() - 1 ==> #[trigger] question_stands(buf, places, k),
    ensures
        behind_questions(buf, places[i], (places.len() - 1 - i) as nat) == Some(places.last()),
    decreases places.len() - i,
{
    if i < places.len() - 1 {
        assert(question_stands(buf, places, i));
        lemma_questions(buf, places, i + 1);
    }
}

/// A message whose head counts its questions and the records of its three sections gives all
/// of those records, in their order: the questions, each a name and four bytes, are passed
/// over.
pub proof fn law_message_gives_its_records(
    buf: Seq<u8>,
    counts: (int, int, int),
    questions: Seq<int>,
    places: Seq<int>,
    recs: Seq<RecordView>,
)
    requires
        0 < questions.len() <= 65536,
        places.len() == recs.len() + 1,
        0 <= counts.0 < 65536,
        0 <= counts.1 < 65536,
        0 <= counts.2 < 65536,
        counts.0 + counts.1 + counts.2 == recs.len(),
        buf.len() >= 12,
        holds_at(buf, 4, two_bytes(questions.len() - 1)),
        holds_at(buf, 6, two_bytes(counts.0)),
        holds_at(buf, 8, two_bytes(counts.1)),
        holds_at(buf, 10, two_bytes(counts.2)),
        questions[0] == 12,
        questions.last() == places[0],
        forall|k: int|
            0 <= k < questions.len() - 1 ==> #[trigger] question_stands(buf, questions, k),
        forall|k: int| 0 <= k < recs.len() ==> #[trigger] record_stands(buf, places, recs, k),
    ensures
        message_records(buf) == recs,
{
    lemma_two_bytes(buf, 4, questions.len() - 1);
    lemma_two_bytes(buf, 6, counts.0);
    lemma_two_bytes(buf, 8, counts.1);
    lemma_two_bytes(buf, 10, counts.2);
    lemma_questions(buf, questions, 0);
    lemma_records(buf, places, recs, 0);
    assert(recs.skip(0) =~= recs);
}

// ---------------------------------------------------------------------------
// A tap
// ---------------------------------------------------------------------------

/// A number as it is written in a tap: seven bits a byte, the lowest first, and the top bit
/// of each byte but the last set.
pub open spec fn number_parts(n: nat) -> Seq<u8>
    decreases n,
{
    if n < 128 {
        seq![n as u8]
    } else {
        seq![(n % 128 + 128) as u8] + number_parts(n / 128)
    }
}

proof fn lemma_number(b: Seq<u8>, i: int, n: nat, k: nat, acc: nat)
    requires
        k < 10,
        n < place_value((10 - k) as nat),
        holds_at(b, i, number_parts(n)),
    ensures
        varint_from(b, i, k, acc) == Some((acc + n * place_value(k), i + number_parts(n).len())),
    decreases n,
{
    let p = place_value(k);
    let part = b.subrange(i, i + number_parts(n).len());
    assert(part == number_parts(n));
    assert(b[i] == part[0]);
    if n < 128 {
        assert(b[i] == n);
        assert(b[i] % 128 == n);
    } else {
        assert(b[i] == n % 128 + 128);
        assert(b[i] % 128 == n % 128);
        lemma_holds_parts(b, i, seq![(n % 128 + 128) as u8], number_parts(n / 128));
        assert(k < 9) by {
            if k == 9 {
                assert(place_value(1) == 128) by {
                    reveal_with_fuel(place_value, 2);
                }
            }
        }
        assert(n / 128 < place_value((9 - k) as nat)) by {
            assert(place_value((10 - k) as nat) == 128 * place_value((9 - k) as nat));
        }
        let v = acc + (n % 128) * p;
        lemma_number(b, i + 1, n / 128, k + 1, v);
        assert(place_value(k + 1) == 128 * p);
        assert((n % 128) * p + (n / 128) * (128 * p) == n * p) by (nonlinear_arith)
            requires
                n == 128 * (n / 128) + n % 128,
        ;
    }
}

/// A number is read back, wherever it stands.
pub proof fn law_number_reads_back(b: Seq<u8>, i: int, n: u64)
    requires
        holds_at(b, i, number_parts(n as nat)),
    ensures
        varint_at(b, i) == Some((n, i + number_parts(n as nat).len())),
{
    assert(place_value(10) == 1180591620717411303424) by {
        reveal_with_fuel(place_value, 11);
    }
    assert(place_value(0) == 1);
    lemma_number(b, i, n as nat, 0, 0);
}

/// A field in a tap: its number and what it holds.
pub enum Field {
    Number(u32, u64),
    Eight(u32, Seq<u8>),
    Bytes(u32, Seq<u8>),
    Four(u32, Seq<u8>),
}

/// Whether a field can be written.
pub open spec fn right_field(f: Field) -> bool {
    match f {
        Field::Number(k, _) => k < 0x2000_0000,
        Field::Eight(k, b) => k < 0x2000_0000 && b.len() == 8,
        Field::Bytes(k, b) => k < 0x2000_0000 && b.len() <= u64::MAX,
        Field::Four(k, b) => k < 0x2000_0000 && b.len() == 4,
    }
}

/// A field as it is written: its number with what sort it is, and what it holds, bytes
/// behind their count.
pub open spec fn field_bytes(f: Field) -> Seq<u8> {
    match f {
        Field::Number(k, n) => number_parts((k * 8) as nat) + number_parts(n as nat),
        Field::Eight(k, b) => number_parts((k * 8 + 1) as nat) + b,
        Field::Bytes(k, b) => number_parts((k * 8 + 2) as nat) + (number_parts(b.len()) + b),
        Field::Four(k, b) => number_parts((k * 8 + 5) as nat) + b,
    }
}

/// Fields one behind the other.
pub open spec fn fields_bytes(l: Seq<Field>) -> Seq<u8>
    decreases l.len(),
{
    if l.len() == 0 {
        Seq::empty()
    } else {
        field_bytes(l[0]) + fields_bytes(l.skip(1))
    }
}

/// Those of some fields that hold bytes.
pub open spec fn holding_bytes(l: Seq<Field>) -> Seq<(u32, Seq<u8>)>
    decreases l.len(),
{
    if l.len() == 0 {
        Seq::empty()
    } else {
        match l[0] {
            Field::Bytes(k, b) => seq![(k, b)] + holding_bytes(l.skip(1)),
            _ => holding_bytes(l.skip(1)),
        }
    }
}

proof fn lemma_parts_long(n: nat)
    ensures
        number_parts(n).len() > 0,
{
}

proof fn lemma_fields(b: Seq<u8>, i: int, l: Seq<Field>)
    requires
        forall|k: int| 0 <= k < l.len() ==> right_field(#[trigger] l[k]),
        holds_at(b, i, fields_bytes(l)),
        i + fields_bytes(l).len() == b.len(),
    ensures
        byte_fields(b, i) == holding_bytes(l),
    decreases l.len(),
{
    if l.len() == 0 {
        assert(varint_at(b, i) is None);
    } else {
        let f = l[0];
        let more = l.skip(1);
        assert(right_field(l[0]));
        lemma_holds_parts(b, i, field_bytes(f), fields_bytes(more));
        assert forall|k: int| 0 <= k < more.len() implies right_field(#[trigger] more[k]) by {
            assert(more[k] == l[k + 1]);
        }
        lemma_fields(b, i + field_bytes(f).len(), more);
        match f {
            Field::Number(k, n) => {
                let key = (k * 8) as u64;
                lemma_holds_parts(b, i, number_parts(key as nat), number_parts(n as nat));
                law_number_reads_back(b, i, key);
                let at = i + number_parts(key as nat).len();
                law_number_reads_back(b, at, n);
                lemma_parts_long(key as nat);
                lemma_parts_long(n as nat);
                assert(key % 8 == 0);
            },
            Field::Eight(k, d) => {
                let key = (k * 8 + 1) as u64;
                lemma_holds_parts(b, i, number_parts(key as nat), d);
                law_number_reads_back(b, i, key);
                lemma_parts_long(key as nat);
                assert(key % 8 == 1);
            },
            Field::Four(k, d) => {
                let key = (k * 8 + 5) as u64;
                lemma_holds_parts(b, i, number_parts(key as nat), d);
                law_number_reads_back(b, i, key);
                lemma_parts_long(key as nat);
                assert(key % 8 == 5);
            },
            Field::Bytes(k, d) => {
                let key = (k * 8 + 2) as u64;
                lemma_holds_parts(b, i, number_parts(key as nat), number_parts(d.len()) + d);
                law_number_reads_back(b, i, key);
                let at = i + number_parts(key as nat).len();
                lemma_holds_parts(b, at, number_parts(d.len()), d);
                let len = d.len() as u64;
                law_number_reads_back(b, at, len);
                lemma_parts_long(key as nat);
                lemma_parts_long(d.len());
                assert(key % 8 == 2);
                assert(key / 8 == k);
                assert((key / 8) % 0x1_0000_0000 == k);
                let start = at + number_parts(d.len()).len();
                assert(b.subrange(start, start + d.len()) == d);
            },
        }
    }
}

/// Fields are read back: those that hold bytes, in their order, whatever other fields stand
/// between them.
pub proof fn law_fields_read_back(l: Seq<Field>)
    requires
        forall|k: int| 0 <= k < l.len() ==> right_field(#[trigger] l[k]),
    ensures
        byte_fields(fields_bytes(l), 0) == holding_bytes(l),
{
    let b = fields_bytes(l);
    assert(b.subrange(0, b.len() as int) =~= b);
    lemma_fields(b, 0, l);
}

proof fn lemma_parts_of_wanted(fs: Seq<(u32, Seq<u8>)>, want: Seq<u32>)
    requires
        want.contains(4u32),
        want.contains(10u32),
    ensures
        ({
            let kept = fs.filter(|f: (u32, Seq<u8>)| want.contains(f.0));
            query_parts(kept, kept.len() as int) == query_parts(fs, fs.len() as int)
        }),
    decreases fs.len(),
{
    reveal(Seq::filter);
    let wanted = |f: (u32, Seq<u8>)| want.contains(f.0);
    if fs.len() > 0 {
        let less = fs.drop_last();
        lemma_parts_of_wanted(less, want);
        lemma_parts_prefix(fs, less, less.len() as int);
        let kept = less.filter(wanted);
        if wanted(fs.last()) {
            lemma_parts_prefix(kept.push(fs.last()), kept, kept.len() as int);
            assert(fs.filter(wanted) == kept.push(fs.last()));
        }
    }
}

proof fn lemma_parts_prefix(fs: Seq<(u32, Seq<u8>)>, gs: Seq<(u32, Seq<u8>)>, n: int)
    requires
        n <= fs.len(),
        n <= gs.len(),
        forall|k: int| 0 <= k < n ==> #[trigger] fs[k] == gs[k],
    ensures
        query_parts(fs, n) == query_parts(gs, n),
    decreases n,
{
    if n > 0 {
        lemma_parts_prefix(fs, gs, n - 1);
        assert(fs[n - 1] == gs[n - 1]);
    }
}

proof fn lemma_parts(fs: Seq<(u32, Seq<u8>)>, n: int, who: int, what: int)
    requires
        0 <= who < n <= fs.len(),
        0 <= what < n,
        fs[who].0 == 4,
        fs[what].0 == 10,
        forall|k: int| who < k < n ==> (#[trigger] fs[k]).0 != 4,
        forall|k: int| what < k < n ==> (#[trigger] fs[k]).0 != 10,
    ensures
        query_parts(fs, n).0 == address_of(fs[who].1),
        query_parts(fs, n).1 == match question_name(fs[what].1) {
            Some(d) => d,
            None => Seq::empty(),
        },
    decreases n,
{
    lemma_part_who(fs, n, who);
    lemma_part_what(fs, n, what);
}

proof fn lemma_part_who(fs: Seq<(u32, Seq<u8>)>, n: int, who: int)
    requires
        0 <= who < n <= fs.len(),
        fs[who].0 == 4,
        forall|k: int| who < k < n ==> (#[trigger] fs[k]).0 != 4,
    ensures
        query_parts(fs, n).0 == address_of(fs[who].1),
    decreases n,
{
    if who < n - 1 {
        assert(fs[n - 1].0 != 4);
        lemma_part_who(fs, n - 1, who);
    }
}

proof fn lemma_part_what(fs: Seq<(u32, Seq<u8>)>, n: int, what: int)
    requires
        0 <= what < n <= fs.len(),
        fs[what].0 == 10,
        forall|k: int| what < k < n ==> (#[trigger] fs[k]).0 != 10,
    ensures
        query_parts(fs, n).1 == match question_name(fs[what].1) {
            Some(d) => d,
            None => Seq::empty(),
        },
    decreases n,
{
    if what < n - 1 {
        assert(fs[n - 1].0 != 10);
        lemma_part_what(fs, n - 1, what);
    }
}

proof fn lemma_first_wanted(fs: Seq<(u32, Seq<u8>)>, i: int)
    requires
        0 <= i < fs.len(),
        fs[i].0 == 14,
        forall|k: int| 0 <= k < i ==> (#[trigger] fs[k]).0 != 14,
    ensures
        ({
            let kept = fs.filter(|f: (u32, Seq<u8>)| seq![14u32].contains(f.0));
            kept.len() > 0 && kept[0] == fs[i]
        }),
    decreases fs.len(),
{
    reveal(Seq::filter);
    let wanted = |f: (u32, Seq<u8>)| seq![14u32].contains(f.0);
    assert(seq![14u32][0] == 14u32);
    if i < fs.len() - 1 {
        lemma_first_wanted(fs.drop_last(), i);
    } else {
        let less = fs.drop_last();
        assert(less.filter(wanted).len() == 0) by {
            assert forall|k: int| 0 <= k < less.len() implies !wanted(#[trigger] less[k]) by {
                assert(fs[k].0 != 14);
            }
            lemma_none_kept(less, wanted);
        }
    }
}

proof fn lemma_none_kept(fs: Seq<(u32, Seq<u8>)>, wanted: spec_fn((u32, Seq<u8>)) -> bool)
    requires
        forall|k: int| 0 <= k < fs.len() ==> !wanted(#[trigger] fs[k]),
    ensures
        fs.filter(wanted).len() == 0,
    decreases fs.len(),
{
    reveal(Seq::filter);
    if fs.len() > 0 {
        assert(!wanted(fs[fs.len() - 1]));
        lemma_none_kept(fs.drop_last(), wanted);
    }
}

/// A tapped query stands in field 14: who asked in its field 4, the message asked with in
/// its field 10, the last of each where there are more. It is a query if it tells an address
/// and a name.
pub proof fn law_tapped_query_is_read(
    outer: Seq<Field>,
    inner: Seq<Field>,
    at: int,
    who: int,
    what: int,
)
    requires
        forall|k: int| 0 <= k < outer.len() ==> right_field(#[trigger] outer[k]),
        forall|k: int| 0 <= k < inner.len() ==> right_field(#[trigger] inner[k]),
        0 <= at < holding_bytes(outer).len(),
        holding_bytes(outer)[at] == (14u32, fields_bytes(inner)),
        forall|k: int| 0 <= k < at ==> (#[trigger] holding_bytes(outer)[k]).0 != 14,
        0 <= who < holding_bytes(inner).len(),
        0 <= what < holding_bytes(inner).len(),
        holding_bytes(inner)[who].0 == 4,
        holding_bytes(inner)[what].0 == 10,
        forall|k: int|
            who < k < holding_bytes(inner).len() ==> (#[trigger] holding_bytes(inner)[k]).0 != 4,
        forall|k: int|
            what < k < holding_bytes(inner).len() ==> (#[trigger] holding_bytes(inner)[k]).0 != 10,
    ensures
        ({
            let ip = address_of(holding_bytes(inner)[who].1);
            let q = question_name(holding_bytes(inner)[what].1);
            &&& q matches Some(name) ==> ip.len() > 0 && name.len() > 0 ==> query_of(
                fields_bytes(outer),
            ) == Some((ip, name))
            &&& q is None || ip.len() == 0 ==> query_of(fields_bytes(outer)) is None
        }),
{
    law_fields_read_back(outer);
    law_fields_read_back(inner);
    lemma_first_wanted(holding_bytes(outer), at);
    let want = seq![4u32, 10u32];
    assert(want[0] == 4u32 && want[1] == 10u32);
    lemma_parts_of_wanted(holding_bytes(inner), want);
    lemma_parts(holding_bytes(inner), holding_bytes(inner).len() as int, who, what);
}

/// Nothing is learnt from a frame without a field 14.
pub proof fn law_other_frames_tell_no_query(outer: Seq<Field>)
    requires
        forall|k: int| 0 <= k < outer.len() ==> right_field(#[trigger] outer[k]),
        forall|k: int|
            0 <= k < holding_bytes(outer).len() ==> (#[trigger] holding_bytes(outer)[k]).0 != 14,
    ensures
        query_of(fields_bytes(outer)) is None,
{
    law_fields_read_back(outer);
    let wanted = |f: (u32, Seq<u8>)| seq![14u32].contains(f.0);
    assert forall|k: int| 0 <= k < holding_bytes(outer).len() implies !wanted(
        #[trigger] holding_bytes(outer)[k],
    ) by {
        assert(holding_bytes(outer)[k].0 != 14);
    }
    lemma_none_kept(holding_bytes(outer), wanted);
}

/// Four bytes are an address of the one sort, sixteen of the other, and any other number of
/// bytes none.
pub proof fn law_tapped_addresses(v: Seq<u8>)
    ensures
        v.len() == 4 ==> address_of(v) == v4_text(v[0], v[1], v[2], v[3]),
        v.len() == 16 ==> address_of(v) == crate::util::group_text(crate::util::groups(v)),
        v.len() != 4 && v.len() != 16 ==> address_of(v).len() == 0,
{
}

/// A number of four bytes is read back.
pub proof fn law_long_number_reads_back(n: u32)
    ensures
        u32_at(number_bytes(n), 0) == n,
{
    let b = number_bytes(n);
    let m = n as int;
    assert(m / 0x100_0000 * 0x100_0000 + m / 0x1_0000 % 0x100 * 0x1_0000 + m / 0x100 % 0x100 * 0x100
        + m % 0x100 == m);
}

/// The talk with a tap: a frame of length zero announces a control frame, any other its own
/// length, but none that is too long; a greeting is accepted, a farewell is returned and
/// ends it, and every other frame is followed by the next.
pub proof fn law_talk_with_a_tap(n: u32, rest: Seq<u8>, m: u32)
    ensures
        n == 0 ==> next_expected(Expect::Frame, number_bytes(n)) == Expect::ControlLen,
        0 < n <= 1048576 ==> next_expected(Expect::Frame, number_bytes(n)) == Expect::Data(n),
        n > 1048576 ==> next_expected(Expect::Frame, number_bytes(n)) == Expect::End,
        next_expected(Expect::ControlLen, number_bytes(n)) == Expect::Control(n),
        next_expected(Expect::Control(m), number_bytes(3) + rest) == Expect::End,
        answer(Expect::Control(m), number_bytes(3) + rest) == number_bytes(0) + number_bytes(4)
            + number_bytes(5),
        next_expected(Expect::Control(m), number_bytes(4) + rest) == Expect::Frame,
        answer(Expect::Control(m), number_bytes(4) + rest) == number_bytes(0) + number_bytes(4)
            + number_bytes(1),
        n != 3 && n != 4 ==> next_expected(Expect::Control(m), number_bytes(n) + rest)
            == Expect::Frame && answer(Expect::Control(m), number_bytes(n) + rest).len() == 0,
        rest.len() < 4 ==> next_expected(Expect::Control(m), rest) == Expect::End && answer(
            Expect::Control(m),
            rest,
        ).len() == 0,
        next_expected(Expect::Data(m), rest) == Expect::Frame,
        answer(Expect::Data(m), rest).len() == 0,
        answer(Expect::Frame, rest).len() == 0,
        answer(Expect::ControlLen, rest).len() == 0,
{
    law_long_number_reads_back(n);
    law_long_number_reads_back(3);
    law_long_number_reads_back(4);
    assert(forall|k: u32|
        #![trigger number_bytes(k)]
        u32_at(number_bytes(k) + rest, 0) == u32_at(number_bytes(k), 0)) by {
        assert forall|k: u32|
            #![trigger number_bytes(k)]
            u32_at(number_bytes(k) + rest, 0) == u32_at(number_bytes(k), 0) by {
            let b = number_bytes(k) + rest;
            assert(b[0] == number_bytes(k)[0] && b[1] == number_bytes(k)[1]);
            assert(b[2] == number_bytes(k)[2] && b[3] == number_bytes(k)[3]);
        }
    }
}

/// A tapped query is reported unless the machine itself asked; no other frame tells one.
pub proof fn law_tapped_query_is_reported(b: Seq<u8>, n: u32, ip: Seq<char>, domain: Seq<char>)
    ensures
        query_of(b) == Some((ip, domain)) && !own_address(ip) ==> learnt(Expect::Data(n), b)
            == Some(EventView::Dns { ip, domain, qtype: Seq::empty(), sport: 0 }),
        query_of(b) == Some((ip, domain)) && own_address(ip) ==> learnt(
            Expect::Data(n),
            b,
        ) is None,
        query_of(b) is None ==> learnt(Expect::Data(n), b) is None,
        learnt(Expect::Frame, b) is None,
        learnt(Expect::ControlLen, b) is None,
        learnt(Expect::Control(n), b) is None,
        learnt(Expect::End, b) is None,
{
}

} // verus!
