//! The packet filter that runs in the kernel: a small assembler with named jump
//! targets, the program itself, and the proof of which packets it lets through.

use crate::wire::u16_at;
use vstd::prelude::*;

verus! {

/// Load two bytes from a fixed place.
pub const LD_H_ABS: u16 = 0x28;

/// Load one byte from a fixed place.
pub const LD_B_ABS: u16 = 0x30;

/// Load one byte from a place behind the index register.
pub const LD_B_IND: u16 = 0x50;

/// Load two bytes from a place behind the index register.
pub const LD_H_IND: u16 = 0x48;

/// Load four times the low half of a byte into the index register.
pub const LDX_B_MSH: u16 = 0xb1;

/// Jump on equality.
pub const JEQ_K: u16 = 0x15;

/// Jump where a common bit is set.
pub const JSET_K: u16 = 0x45;

/// Jump on greater or equal.
pub const JGE_K: u16 = 0x35;

/// End the program.
pub const RET_K: u16 = 0x06;

/// How many bytes of a wanted packet are handed up.
pub const SNAP: u32 = 262144;

/// One instruction, as the kernel takes it.
#[derive(Clone, Copy, PartialEq, Eq, Structural)]
pub struct SockFilter {
    pub code: u16,
    pub jt: u8,
    pub jf: u8,
    pub k: u32,
}

/// The places of the program that have a name.
#[derive(Clone, Copy, PartialEq, Eq, Structural)]
pub enum Mark {
    Len4,
    V6,
    Len6,
}

/// Where a jump leads.
#[derive(Clone, Copy, PartialEq, Eq, Structural)]
pub enum Target {
    Accept,
    Drop,
    Next,
    To(Mark),
}

/// One instruction before its jumps are counted out.
#[derive(Clone, Copy, PartialEq, Eq, Structural)]
pub struct Line {
    pub code: u16,
    pub jt: Target,
    pub jf: Target,
    pub k: u32,
}

/// A program that is being written.
pub struct Asm {
    pub out: Vec<Line>,
    pub labels: Vec<(Mark, usize)>,
}

/// The place that a name stands for: the first that was given the name.
pub open spec fn marked(labels: Seq<(Mark, usize)>, m: Mark) -> Option<int>
    decreases labels.len(),
{
    if labels.len() == 0 {
        None
    } else if labels[0].0 == m {
        Some(labels[0].1 as int)
    } else {
        marked(labels.skip(1), m)
    }
}

/// The place that a jump of the instruction at `from` leads to, in a program of
/// `n` instructions. The two returns stand behind these.
pub open spec fn landing(labels: Seq<(Mark, usize)>, n: int, from: int, t: Target) -> Option<int> {
    match t {
        Target::Accept => Some(n),
        Target::Drop => Some(n + 1),
        Target::Next => Some(from + 1),
        Target::To(m) => marked(labels, m),
    }
}

/// Whether a jump leads forward to a place that exists.
pub open spec fn forward(labels: Seq<(Mark, usize)>, n: int, from: int, t: Target) -> bool {
    match landing(labels, n, from, t) {
        Some(to) => from < to,
        None => false,
    }
}

/// How many instructions a jump skips.
pub open spec fn skip_count(labels: Seq<(Mark, usize)>, n: int, from: int, t: Target) -> u8 {
    ((landing(labels, n, from, t).unwrap() - from - 1) % 256) as u8
}

/// The finished instruction that the line at `i` becomes.
pub open spec fn resolved(out: Seq<Line>, labels: Seq<(Mark, usize)>, i: int) -> SockFilter {
    SockFilter {
        code: out[i].code,
        jt: skip_count(labels, out.len() as int, i, out[i].jt),
        jf: skip_count(labels, out.len() as int, i, out[i].jf),
        k: out[i].k,
    }
}

/// The instruction that ends the program with `k`.
pub open spec fn ret(k: u32) -> SockFilter {
    SockFilter { code: RET_K, jt: 0, jf: 0, k }
}

/// The finished program.
pub open spec fn assembled(out: Seq<Line>, labels: Seq<(Mark, usize)>) -> Seq<SockFilter> {
    Seq::new(out.len(), |i: int| resolved(out, labels, i)) + seq![ret(SNAP), ret(0)]
}

impl Asm {
    /// An empty program.
    pub fn new() -> (r: Asm)
        ensures
            r.out@ == Seq::<Line>::empty(),
            r.labels@ == Seq::<(Mark, usize)>::empty(),
    {
        Asm { out: Vec::new(), labels: Vec::new() }
    }

    /// Names the next instruction.
    pub fn label(&mut self, name: Mark)
        ensures
            final(self).out@ == old(self).out@,
            final(self).labels@ == old(self).labels@.push((name, old(self).out@.len() as usize)),
    {
        let n = self.out.len();
        self.labels.push((name, n));
    }

    /// Adds an instruction that does not jump.
    pub fn op(&mut self, code: u16, k: u32)
        ensures
            final(self).out@ == old(self).out@.push(
                (Line { code, jt: Target::Next, jf: Target::Next, k }),
            ),
            final(self).labels@ == old(self).labels@,
    {
        self.out.push(Line { code, jt: Target::Next, jf: Target::Next, k });
    }

    /// Adds an instruction that jumps.
    pub fn jmp(&mut self, code: u16, k: u32, jt: Target, jf: Target)
        ensures
            final(self).out@ == old(self).out@.push((Line { code, jt, jf, k })),
            final(self).labels@ == old(self).labels@,
    {
        self.out.push(Line { code, jt, jf, k });
    }

    /// Finds the place that a name stands for.
    fn find(&self, m: Mark) -> (r: usize)
        requires
            marked(self.labels@, m) is Some,
        ensures
            marked(self.labels@, m) == Some(r as int),
    {
        let mut i: usize = 0;
        assert(self.labels@.skip(0) =~= self.labels@);
        while i < self.labels.len()
            invariant
                i <= self.labels@.len(),
                marked(self.labels@, m) == marked(self.labels@.skip(i as int), m),
            decreases self.labels@.len() - i,
        {
            if self.labels[i].0 == m {
                return self.labels[i].1;
            }
            assert(self.labels@.skip(i as int).skip(1) =~= self.labels@.skip(i + 1));
            i = i + 1;
        }
        0
    }

    /// Counts out a jump of the instruction at `from`.
    fn count(&self, from: usize, t: Target) -> (r: u8)
        requires
            from < self.out@.len(),
            self.out@.len() + 1 <= usize::MAX,
            forward(self.labels@, self.out@.len() as int, from as int, t),
        ensures
            r == skip_count(self.labels@, self.out@.len() as int, from as int, t),
    {
        let to: usize = match t {
            Target::Accept => self.out.len(),
            Target::Drop => self.out.len() + 1,
            Target::Next => from + 1,
            Target::To(m) => self.find(m),
        };
        ((to - from - 1) % 256) as u8
    }

    /// Counts out all jumps and adds the two returns.
    pub fn build(self) -> (r: Vec<SockFilter>)
        requires
            self.out@.len() + 1 <= usize::MAX,
            forall|i: int|
                0 <= i < self.out@.len() ==> #[trigger] forward(
                    self.labels@,
                    self.out@.len() as int,
                    i,
                    self.out@[i].jt,
                ),
            forall|i: int|
                0 <= i < self.out@.len() ==> #[trigger] forward(
                    self.labels@,
                    self.out@.len() as int,
                    i,
                    self.out@[i].jf,
                ),
        ensures
            r@ == assembled(self.out@, self.labels@),
    {
        let mut v: Vec<SockFilter> = Vec::new();
        let mut i: usize = 0;
        while i < self.out.len()
            invariant
                i <= self.out@.len(),
                self.out@.len() + 1 <= usize::MAX,
                forall|i: int|
                    0 <= i < self.out@.len() ==> #[trigger] forward(
                        self.labels@,
                        self.out@.len() as int,
                        i,
                        self.out@[i].jt,
                    ),
                forall|i: int|
                    0 <= i < self.out@.len() ==> #[trigger] forward(
                        self.labels@,
                        self.out@.len() as int,
                        i,
                        self.out@[i].jf,
                    ),
                v@ == Seq::new(i as nat, |j: int| resolved(self.out@, self.labels@, j)),
            decreases self.out@.len() - i,
        {
            let line = self.out[i];
            assert(forward(
                self.labels@,
                self.out@.len() as int,
                i as int,
                self.out@[i as int].jt,
            ));
            assert(forward(
                self.labels@,
                self.out@.len() as int,
                i as int,
                self.out@[i as int].jf,
            ));
            let jt = self.count(i, line.jt);
            let jf = self.count(i, line.jf);
            v.push(SockFilter { code: line.code, jt, jf, k: line.k });
            i = i + 1;
            assert(v@ =~= Seq::new(i as nat, |j: int| resolved(self.out@, self.labels@, j)));
        }
        v.push(SockFilter { code: RET_K, jt: 0, jf: 0, k: SNAP });
        v.push(SockFilter { code: RET_K, jt: 0, jf: 0, k: 0 });
        assert(v@ =~= assembled(self.out@, self.labels@));
        v
    }
}

/// What the kernel's machine returns for the packet `p` from the instruction at
/// `pc` on, with `a` in the accumulator and `x` in the index register: how many
/// bytes of the packet are wanted. A load beyond the packet's end wants none of
/// it, as does an instruction that is not known here.
pub open spec fn run(prog: Seq<SockFilter>, p: Seq<u8>, pc: int, a: u32, x: int) -> u32
    decreases
            if pc < prog.len() {
                prog.len() - pc
            } else {
                0
            },
{
    if pc < 0 || pc >= prog.len() {
        0
    } else {
        let ins = prog[pc];
        if ins.code == RET_K {
            ins.k
        } else if ins.code == LD_H_ABS {
            if ins.k + 2 > p.len() {
                0
            } else {
                run(prog, p, pc + 1, u16_at(p, ins.k as int) as u32, x)
            }
        } else if ins.code == LD_B_ABS {
            if ins.k + 1 > p.len() {
                0
            } else {
                run(prog, p, pc + 1, p[ins.k as int] as u32, x)
            }
        } else if ins.code == LD_H_IND {
            if x + ins.k + 2 > p.len() {
                0
            } else {
                run(prog, p, pc + 1, u16_at(p, x + ins.k) as u32, x)
            }
        } else if ins.code == LD_B_IND {
            if x + ins.k + 1 > p.len() {
                0
            } else {
                run(prog, p, pc + 1, p[x + ins.k] as u32, x)
            }
        } else if ins.code == LDX_B_MSH {
            if ins.k + 1 > p.len() {
                0
            } else {
                run(prog, p, pc + 1, a, p[ins.k as int] % 16 * 4)
            }
        } else if ins.code == JEQ_K {
            run(prog, p, pc + 1 + if a == ins.k { ins.jt as int } else { ins.jf as int }, a, x)
        } else if ins.code == JSET_K {
            run(prog, p, pc + 1 + if a & ins.k != 0 { ins.jt as int } else { ins.jf as int }, a, x)
        } else if ins.code == JGE_K {
            run(prog, p, pc + 1 + if a >= ins.k { ins.jt as int } else { ins.jf as int }, a, x)
        } else {
            0
        }
    }
}

/// Whether a TCP flag byte asks for a new connection.
pub open spec fn syn(flags: u8) -> bool {
    flags / 2 % 2 == 1
}

/// Whether a TCP flag byte pushes data.
pub open spec fn psh(flags: u8) -> bool {
    flags / 8 % 2 == 1
}

/// The ports whose first request names a host or a device.
pub open spec fn telling_port(port: int) -> bool {
    port == 443 || port == 80 || port == 1883
}

/// The packets over IPv4 that are wanted: TCP, not a later fragment, and either
/// a connection request or a short pushed segment to a telling port.
pub open spec fn wanted_v4(p: Seq<u8>) -> bool {
    let tcp = 14 + p[14] % 16 * 4;
    &&& p.len() >= 24
    &&& p[23] == 6
    &&& u16_at(p, 20) % 8192 == 0
    &&& p.len() >= tcp + 14
    &&& syn(p[tcp + 13]) || (psh(p[tcp + 13]) && telling_port(u16_at(p, tcp + 2)) && u16_at(p, 16)
        < 1400)
}

/// The packets over IPv6 that are wanted: as over IPv4, with the TCP header
/// directly behind the fixed header.
pub open spec fn wanted_v6(p: Seq<u8>) -> bool {
    &&& p.len() >= 68
    &&& p[20] == 6
    &&& syn(p[67]) || (psh(p[67]) && telling_port(u16_at(p, 56)) && u16_at(p, 18) < 1360)
}

/// The packets that are wanted.
pub open spec fn wanted(p: Seq<u8>) -> bool {
    p.len() >= 14 && if u16_at(p, 12) == 0x86dd {
        wanted_v6(p)
    } else {
        u16_at(p, 12) == 0x0800 && wanted_v4(p)
    }
}

/// An instruction that goes on with the next one.
pub open spec fn plain(code: u16, k: u32) -> SockFilter {
    SockFilter { code, jt: 0, jf: 0, k }
}

/// An instruction that jumps.
pub open spec fn jump(code: u16, k: u32, jt: u8, jf: u8) -> SockFilter {
    SockFilter { code, jt, jf, k }
}

/// The program with its jumps counted out.
pub open spec fn filter_code() -> Seq<SockFilter> {
    seq![
        plain(LD_H_ABS, 12),
        jump(JEQ_K, 0x86dd, 15, 0),
        jump(JEQ_K, 0x0800, 0, 26),
        plain(LD_B_ABS, 23),
        jump(JEQ_K, 6, 0, 24),
        plain(LD_H_ABS, 20),
        jump(JSET_K, 0x1fff, 22, 0),
        plain(LDX_B_MSH, 14),
        plain(LD_B_IND, 27),
        jump(JSET_K, 0x02, 18, 0),
        jump(JSET_K, 0x08, 0, 18),
        plain(LD_H_IND, 16),
        jump(JEQ_K, 443, 2, 0),
        jump(JEQ_K, 80, 1, 0),
        jump(JEQ_K, 1883, 0, 14),
        plain(LD_H_ABS, 16),
        jump(JGE_K, 1400, 12, 11),
        plain(LD_B_ABS, 20),
        jump(JEQ_K, 6, 0, 10),
        plain(LD_B_ABS, 67),
        jump(JSET_K, 0x02, 7, 0),
        jump(JSET_K, 0x08, 0, 7),
        plain(LD_H_ABS, 56),
        jump(JEQ_K, 443, 2, 0),
        jump(JEQ_K, 80, 1, 0),
        jump(JEQ_K, 1883, 0, 3),
        plain(LD_H_ABS, 18),
        jump(JGE_K, 1360, 1, 0),
        ret(SNAP),
        ret(0),
    ]
}

/// The condition that the program tests, in the machine's own operations.
proof fn lemma_bits(a: u8, f: u16)
    ensures
        (a as u32 & 0x02u32 != 0) == syn(a),
        (a as u32 & 0x08u32 != 0) == psh(a),
        (f as u32 & 0x1fffu32 != 0) == (f % 8192 != 0),
{
    assert((a as u32 & 0x02u32 != 0) == (a / 2 % 2 == 1)) by (bit_vector);
    assert((a as u32 & 0x08u32 != 0) == (a / 8 % 2 == 1)) by (bit_vector);
    assert((f as u32 & 0x1fffu32 != 0) == (f % 8192 != 0)) by (bit_vector);
}

proof fn lemma_v6(p: Seq<u8>, x: int)
    ensures
        run(filter_code(), p, 17, 0x86dd, x) == if wanted_v6(p) {
            SNAP
        } else {
            0
        },
{
    reveal_with_fuel(run, 12);
    if p.len() >= 68 {
        lemma_bits(p[67], 0);
    }
}

proof fn lemma_v4(p: Seq<u8>, x: int)
    ensures
        run(filter_code(), p, 3, 0x0800, x) == if wanted_v4(p) {
            SNAP
        } else {
            0
        },
{
    reveal_with_fuel(run, 15);
    if p.len() >= 24 {
        let tcp = 14 + p[14] % 16 * 4;
        lemma_bits(0, u16_at(p, 20) as u16);
        if p.len() >= tcp + 14 {
            lemma_bits(p[tcp + 13], 0);
        }
    }
}

/// The program lets through exactly the wanted packets, whatever the registers
/// hold at its start.
pub proof fn law_filter_accepts(p: Seq<u8>, a: u32, x: int)
    ensures
        run(filter_code(), p, 0, a, x) == if wanted(p) {
            SNAP
        } else {
            0
        },
{
    reveal_with_fuel(run, 4);
    if p.len() >= 14 {
        let e = u16_at(p, 12) as u32;
        lemma_v6(p, x);
        lemma_v4(p, x);
        assert(run(filter_code(), p, 0, a, x) == run(filter_code(), p, 1, e, x));
    }
}

/// Every jump of a program lands inside it.
pub open spec fn jumps_inside(prog: Seq<SockFilter>) -> bool {
    forall|i: int|
        0 <= i < prog.len() ==> (#[trigger] prog[i]).code == RET_K || (i + 1 + prog[i].jt
            < prog.len() && i + 1 + prog[i].jf < prog.len())
}

/// The program that lets through connection requests and the first requests to
/// telling ports.
pub fn filter_prog() -> (r: Vec<SockFilter>)
    ensures
        r@ == filter_code(),
        jumps_inside(r@),
        forall|p: Seq<u8>|
            #![trigger wanted(p)]
            run(r@, p, 0, 0, 0) == if wanted(p) {
                SNAP
            } else {
                0
            },
{
    let mut a = Asm::new();
    a.op(LD_H_ABS, 12);
    a.jmp(JEQ_K, 0x86dd, Target::To(Mark::V6), Target::Next);
    a.jmp(JEQ_K, 0x0800, Target::Next, Target::Drop);
    a.op(LD_B_ABS, 23);
    a.jmp(JEQ_K, 6, Target::Next, Target::Drop);
    a.op(LD_H_ABS, 20);
    a.jmp(JSET_K, 0x1fff, Target::Drop, Target::Next);
    a.op(LDX_B_MSH, 14);
    a.op(LD_B_IND, 27);
    a.jmp(JSET_K, 0x02, Target::Accept, Target::Next);
    a.jmp(JSET_K, 0x08, Target::Next, Target::Drop);
    a.op(LD_H_IND, 16);
    a.jmp(JEQ_K, 443, Target::To(Mark::Len4), Target::Next);
    a.jmp(JEQ_K, 80, Target::To(Mark::Len4), Target::Next);
    a.jmp(JEQ_K, 1883, Target::To(Mark::Len4), Target::Drop);
    a.label(Mark::Len4);
    a.op(LD_H_ABS, 16);
    a.jmp(JGE_K, 1400, Target::Drop, Target::Accept);
    a.label(Mark::V6);
    a.op(LD_B_ABS, 20);
    a.jmp(JEQ_K, 6, Target::Next, Target::Drop);
    a.op(LD_B_ABS, 67);
    a.jmp(JSET_K, 0x02, Target::Accept, Target::Next);
    a.jmp(JSET_K, 0x08, Target::Next, Target::Drop);
    a.op(LD_H_ABS, 56);
    a.jmp(JEQ_K, 443, Target::To(Mark::Len6), Target::Next);
    a.jmp(JEQ_K, 80, Target::To(Mark::Len6), Target::Next);
    a.jmp(JEQ_K, 1883, Target::To(Mark::Len6), Target::Drop);
    a.label(Mark::Len6);
    a.op(LD_H_ABS, 18);
    a.jmp(JGE_K, 1360, Target::Drop, Target::Accept);
    let ghost l = a.labels@;
    assert(a.out@.len() == 28);
    assert(l.len() == 3);
    assert(l[0] == (Mark::Len4, 15usize));
    assert(l[1] == (Mark::V6, 17usize));
    assert(l[2] == (Mark::Len6, 26usize));
    assert(marked(l, Mark::Len4) == Some(15int));
    assert(l.skip(1)[0] == l[1]);
    assert(l.skip(1).skip(1)[0] == l[2]);
    assert(marked(l, Mark::V6) == Some(17int)) by {
        reveal_with_fuel(marked, 3);
    }
    assert(marked(l, Mark::Len6) == Some(26int)) by {
        reveal_with_fuel(marked, 4);
    }
    let r = a.build();
    assert(r@ =~= filter_code());
    assert forall|p: Seq<u8>| #![trigger wanted(p)] run(r@, p, 0, 0, 0) == if wanted(p) {
        SNAP
    } else {
        0
    } by {
        law_filter_accepts(p, 0, 0);
    }
    r
}

} // verus!
