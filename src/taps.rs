//! A scan chain of several TAPs, of which one is addressed at a time as if it were alone: the
//! others are put into BYPASS and the bits shifted through them are added and dropped here.
//!
//! Position 0 of the chain is the TAP nearest TDI and the last position the TAP nearest TDO:
//! the bits of the TAPs after the addressed one come out first, and of the bits shifted in,
//! the first travel furthest, to the TAPs after the addressed one.
use vstd::prelude::*;

use crate::bits::{
    bytes_for, data_bits, last_bits, lemma_low_mask_ones, lemma_ones_bytes, lemma_padded_bits,
    low_mask, ones, padded,
};
use crate::cable::{lemma_ops_tdi_append, lemma_ops_tdi_single, ops_tdi, Cable, CableOp};
use crate::statemachine::{moves, reset_tms, JtagSM, JtagState, Register};

verus! {

/// The sum of `s`.
pub open spec fn sum(s: Seq<usize>) -> nat
    decreases s.len(),
{
    if s.len() == 0 {
        0
    } else {
        sum(s.drop_last()) + s.last() as nat
    }
}

/// The bits of the registers of the TAPs before position `k` (nearer TDI).
pub open spec fn sum_before(lens: Seq<usize>, k: nat) -> nat {
    sum(lens.subrange(0, k as int))
}

/// The bits of the registers of the TAPs after position `k` (nearer TDO).
pub open spec fn sum_after(lens: Seq<usize>, k: nat) -> nat {
    sum(lens.subrange(k as int + 1, lens.len() as int))
}

/// A buffer of `n` bytes of ones.
pub open spec fn ff_bytes(n: nat) -> Seq<u8> {
    Seq::new(n, |i: int| 0xffu8)
}

/// The operations that shift `n` ones into the instruction registers, from state `s`: whole
/// bytes of ones first, then the remaining bits.
pub open spec fn ones_ops(s: JtagState, n: nat) -> Seq<CableOp> {
    let whole = if n / 8 > 0 {
        moves(s, JtagState::ShiftIR) + seq![
            CableOp::Write { data: ff_bytes(n / 8), bits: 8, pause_after: false },
        ]
    } else {
        Seq::empty()
    };
    let s1 = if n / 8 > 0 {
        JtagState::ShiftIR
    } else {
        s
    };
    let part = if n % 8 > 0 {
        moves(s1, JtagState::ShiftIR) + seq![
            CableOp::Write {
                data: seq![low_mask((n % 8) as u8)],
                bits: (n % 8) as u8,
                pause_after: false,
            },
        ]
    } else {
        Seq::empty()
    };
    whole + part
}

/// The operations that write `ir` into the instruction register of TAP `k` of a chain with
/// instruction register lengths `lens`, from state `s`: ones for the TAPs after it, then `ir`
/// followed by ones for the TAPs before it, ending in Pause-IR, then a move to Idle.
pub open spec fn ir_write_ops(s: JtagState, lens: Seq<usize>, k: nat, ir: Seq<u8>) -> Seq<CableOp> {
    let after = sum_after(lens, k);
    let before = sum_before(lens, k);
    let n = lens[k as int] as nat;
    let s1 = if after > 0 {
        JtagState::ShiftIR
    } else {
        s
    };
    ones_ops(s, after) + moves(s1, JtagState::ShiftIR) + seq![
        CableOp::Write { data: padded(ir, n, before), bits: last_bits(n + before), pause_after: true },
    ] + moves(JtagState::PauseIR, JtagState::Idle)
}

/// A read of `n` bits whose result is dropped: nothing when `n` is 0.
pub open spec fn discard(n: nat, tdo: Seq<u8>) -> Seq<CableOp> {
    if n > 0 {
        seq![CableOp::Read { count: n, tdo }]
    } else {
        Seq::empty()
    }
}

/// A queued read of `n` bits whose result will be dropped: nothing when `n` is 0.
pub open spec fn queued_discard(n: nat, accepted: bool) -> Seq<CableOp> {
    if n > 0 {
        seq![CableOp::QueueRead { count: n, accepted }]
    } else {
        Seq::empty()
    }
}

/// The collection of a queued read of `n` bits whose result is dropped: nothing when `n` is 0.
pub open spec fn finished_discard(n: nat, tdo: Seq<u8>) -> Seq<CableOp> {
    if n > 0 {
        seq![CableOp::FinishRead { count: n, tdo }]
    } else {
        Seq::empty()
    }
}

/// The number of bits a buffer of `data` holds when `bits` bits of its last byte are used.
pub open spec fn buffer_len(data: Seq<u8>, bits: nat) -> nat {
    ((data.len() - 1) * 8 + bits) as nat
}

proof fn lemma_sum_append(a: Seq<usize>, b: Seq<usize>)
    ensures
        sum(a + b) == sum(a) + sum(b),
    decreases b.len(),
{
    if b.len() == 0 {
        assert(a + b =~= a);
    } else {
        lemma_sum_append(a, b.drop_last());
        assert((a + b).drop_last() =~= a + b.drop_last());
    }
}

proof fn lemma_sum_split(s: Seq<usize>, i: int, j: int)
    requires
        0 <= i <= j <= s.len(),
    ensures
        sum(s.subrange(0, i)) + sum(s.subrange(i, j)) + sum(s.subrange(j, s.len() as int)) == sum(s),
{
    lemma_sum_append(s.subrange(0, i), s.subrange(i, j));
    lemma_sum_append(s.subrange(0, i) + s.subrange(i, j), s.subrange(j, s.len() as int));
    assert(s.subrange(0, i) + s.subrange(i, j) + s.subrange(j, s.len() as int) =~= s);
}

/// The sum of `lens[i..j]`.
fn sum_range(lens: &Vec<usize>, i: usize, j: usize) -> (r: usize)
    requires
        i <= j <= lens@.len(),
        sum(lens@) <= usize::MAX,
    ensures
        r == sum(lens@.subrange(i as int, j as int)),
{
    proof {
        lemma_sum_split(lens@, i as int, j as int);
    }
    let mut acc: usize = 0;
    let mut x: usize = i;
    while x < j
        invariant
            i <= x <= j <= lens@.len(),
            acc == sum(lens@.subrange(i as int, x as int)),
            sum(lens@.subrange(i as int, j as int)) <= usize::MAX,
        decreases j - x,
    {
        proof {
            assert(lens@.subrange(i as int, x + 1).drop_last() =~= lens@.subrange(i as int, x as int));
            lemma_sum_split(lens@.subrange(i as int, j as int), 0, (x + 1 - i) as int);
            assert(lens@.subrange(i as int, j as int).subrange(0, (x + 1 - i) as int) =~= lens@.subrange(
                i as int,
                x + 1,
            ));
        }
        acc = acc + lens[x];
        x = x + 1;
    }
    acc
}

/// `n` bytes of ones.
fn ff_vec(n: usize) -> (r: Vec<u8>)
    ensures
        r@ == ff_bytes(n as nat),
{
    let mut r: Vec<u8> = Vec::new();
    let mut i: usize = 0;
    while i < n
        invariant
            i <= n,
            r@ =~= ff_bytes(i as nat),
        decreases n - i,
    {
        r.push(0xff);
        i += 1;
    }
    r
}

/// The buffer that holds the `this_len` bits of `input` followed by `shift` ones.
pub fn add_ones_to_end(input: &[u8], this_len: usize, shift: usize) -> (r: Vec<u8>)
    requires
        this_len >= 1,
        input@.len() == bytes_for(this_len as nat),
        this_len + shift + 7 <= usize::MAX,
    ensures
        r@ == padded(input@, this_len as nat, shift as nat),
{
    let mut output: Vec<u8> = Vec::new();
    let mut i: usize = 0;
    let end = input.len() - 1;
    while i < end
        invariant
            i <= end,
            end == input@.len() - 1,
            output@ =~= input@.subrange(0, i as int),
        decreases end - i,
    {
        output.push(input[i]);
        i += 1;
    }
    let rem = this_len % 8;
    if rem == 0 {
        output.push(input[end]);
    } else {
        let m = rem as u8;
        assert(1u8 << m >= 1) by (bit_vector)
            requires
                m < 8,
        ;
        let mask: u8 = (1u8 << m) - 1;
        output.push(input[end] | !mask);
    }
    let total = (this_len + shift + 7) / 8;
    while output.len() < total
        invariant
            input@.len() <= output@.len() <= total,
            total == bytes_for((this_len + shift) as nat),
            forall|j: int| 0 <= j < output@.len() ==> output@[j] == padded(input@, this_len as nat, shift as nat)[j],
        decreases total - output.len(),
    {
        output.push(0xff);
    }
    assert(output@ =~= padded(input@, this_len as nat, shift as nat));
    output
}

/// What a scan of the instruction register capture pattern has found after the bits `bits`,
/// first shifted out first: the length of the current run of zeros since the last one (-1
/// before the first one), the instruction register lengths found so far in the order seen,
/// and whether the scan is over.
///
/// Every instruction register captures a pattern that ends in `01` (bit 0 is 1), so a one
/// after a run of `c > 0` zeros closes a register of `c + 1` bits, and two ones in a row end
/// the chain. Zeros before the first one belong to no register and are ignored.
pub open spec fn scan(bits: Seq<bool>) -> (int, Seq<usize>, bool)
    decreases bits.len(),
{
    if bits.len() == 0 {
        (-1, Seq::empty(), false)
    } else {
        let (c, l, d) = scan(bits.drop_last());
        if d {
            (c, l, d)
        } else if bits.last() {
            (0, if c > 0 { l.push((c + 1) as usize) } else { l }, c == 0)
        } else if c >= 0 {
            (c + 1, l, false)
        } else {
            (c, l, false)
        }
    }
}

/// The 32-bit identification code made of a leading one bit and the 31 bits that follow it in
/// `rest`, least significant byte first (missing bytes count as zeros).
pub open spec fn idcode_of(rest: Seq<u8>) -> u32 {
    id_word(byte_at(rest, 0), byte_at(rest, 1), byte_at(rest, 2), byte_at(rest, 3))
}

/// Byte `i` of `s` as a word, 0 past its end.
pub open spec fn byte_at(s: Seq<u8>, i: int) -> u32 {
    if i < s.len() {
        s[i] as u32
    } else {
        0
    }
}

/// The identification code made of a leading one and the bytes `b0` to `b3`.
pub open spec fn id_word(b0: u32, b1: u32, b2: u32, b3: u32) -> u32 {
    (((b0 | (b1 << 8u32) | (b2 << 16u32) | (b3 << 24u32)) << 1u32) | 1u32) as u32
}

/// The identification code read as `first`, the answer to a one-bit read, and `rest`, the
/// answer to the 31-bit read that follows a leading one: 0 when the first bit is 0, a TAP
/// without an identification code.
pub open spec fn idcode_read(first: Seq<u8>, rest: Seq<u8>) -> u32 {
    if first.len() > 0 && first[0] != 0 {
        idcode_of(rest)
    } else {
        0
    }
}

/// The operations that read the identification codes of `firsts.len()` TAPs from Reset, the
/// TAP nearest TDO first: for each, a one-bit read answered `firsts[i]`, then, after a leading
/// one, a 31-bit read answered `rests[i]`.
pub open spec fn id_phase_ops(firsts: Seq<Seq<u8>>, rests: Seq<Seq<u8>>) -> Seq<CableOp>
    decreases firsts.len(),
{
    if firsts.len() == 0 || rests.len() != firsts.len() {
        Seq::empty()
    } else {
        let f = firsts.last();
        id_phase_ops(firsts.drop_last(), rests.drop_last()) + (if firsts.len() == 1 {
            moves(JtagState::Reset, JtagState::ShiftDR)
        } else {
            Seq::empty()
        }) + seq![CableOp::Read { count: 1, tdo: f }] + if f.len() > 0 && f[0] != 0 {
            seq![CableOp::Read { count: 31, tdo: rests.last() }]
        } else {
            Seq::empty()
        }
    }
}

/// The scan of a chain's instruction register capture pattern, fed one bit at a time.
pub struct IrScan {
    started: bool,
    zeros: usize,
    lens: Vec<usize>,
    done: bool,
    seen: Ghost<Seq<bool>>,
}

impl IrScan {
    /// The bits fed so far.
    pub closed spec fn seen(&self) -> Seq<bool> {
        self.seen@
    }

    /// The scan's invariant: its fields hold what `scan` finds in the bits seen.
    pub closed spec fn wf(&self) -> bool {
        let (c, l, d) = scan(self.seen@);
        &&& c == if self.started {
            self.zeros as int
        } else {
            -1
        }
        &&& l == self.lens@
        &&& d == self.done
        &&& sum(l) + if c > 0 {
            c as nat
        } else {
            0
        } <= self.seen@.len()
        &&& l.len() <= self.seen@.len()
    }

    /// A scan that has seen no bit.
    pub fn new() -> (r: Self)
        ensures
            r.wf(),
            r.seen() == Seq::<bool>::empty(),
    {
        IrScan { started: false, zeros: 0, lens: Vec::new(), done: false, seen: Ghost(Seq::empty()) }
    }

    /// Whether the scan is over: two ones in a row were seen.
    pub fn is_done(&self) -> (r: bool)
        requires
            self.wf(),
        ensures
            r == scan(self.seen()).2,
    {
        self.done
    }

    /// Feed the next captured bit; returns whether the scan is over.
    pub fn feed(&mut self, bit: bool) -> (r: bool)
        requires
            old(self).wf(),
            old(self).seen().len() + 16 <= usize::MAX,
        ensures
            final(self).wf(),
            final(self).seen() == old(self).seen().push(bit),
            r == scan(final(self).seen()).2,
    {
        let ghost bits = self.seen@.push(bit);
        proof {
            assert(bits.drop_last() =~= self.seen@);
        }
        if !self.done {
            if bit {
                if self.started && self.zeros > 0 {
                    proof {
                        assert(self.lens@.push((self.zeros + 1) as usize).drop_last() =~= self.lens@);
                    }
                    self.lens.push(self.zeros + 1);
                }
                if self.started && self.zeros == 0 {
                    self.done = true;
                }
                self.started = true;
                self.zeros = 0;
            } else {
                if self.started {
                    self.zeros = self.zeros + 1;
                }
            }
        }
        self.seen = Ghost(bits);
        self.done
    }

    /// The instruction register lengths found, position 0 nearest TDI: the reverse of the
    /// order in which they were seen, nearest TDO first.
    pub fn lengths(&self) -> (r: Vec<usize>)
        requires
            self.wf(),
        ensures
            r@ == scan(self.seen()).1.reverse(),
    {
        let mut r: Vec<usize> = Vec::new();
        let n = self.lens.len();
        let mut i: usize = 0;
        while i < n
            invariant
                i <= n == self.lens@.len(),
                r@ =~= Seq::new(i as nat, |j: int| self.lens@[n - 1 - j]),
            decreases n - i,
        {
            r.push(self.lens[n - 1 - i]);
            i += 1;
        }
        r
    }
}

/// The identification code whose leading one bit was read already and whose other 31 bits are
/// in `rest`, least significant byte first.
pub fn idcode_from(rest: &[u8]) -> (r: u32)
    ensures
        r == idcode_of(rest@),
{
    let mut b: [u32; 4] = [0, 0, 0, 0];
    let mut i: usize = 0;
    while i < 4 && i < rest.len()
        invariant
            i <= 4,
            forall|j: int| 0 <= j < 4 ==> b[j] == if j < i && j < rest@.len() {
                rest@[j] as u32
            } else {
                0u32
            },
        decreases 4 - i,
    {
        b.set(i, rest[i] as u32);
        i += 1;
    }
    (((b[0] | (b[1] << 8u32) | (b[2] << 16u32) | (b[3] << 24u32)) << 1u32) | 1u32)
}

/// A chain of TAPs, one of which is addressed.
pub struct Taps<C> {
    pub sm: JtagSM<C>,
    irlens: Vec<usize>,
    active: usize,
    dangling_read: bool,
    queued_reads: usize,
}

impl<C: Cable> Taps<C> {
    /// The driver of the chain.
    pub closed spec fn driver(&self) -> JtagSM<C> {
        self.sm
    }

    /// The instruction register length of each TAP, position 0 nearest TDI.
    pub closed spec fn irlens(&self) -> Seq<usize> {
        self.irlens@
    }

    /// The position of the addressed TAP.
    pub closed spec fn active(&self) -> nat {
        self.active as nat
    }

    /// Data register reads queued and not yet collected.
    pub closed spec fn queued_reads(&self) -> nat {
        self.queued_reads as nat
    }

    /// A read of the bypass bits was queued whose data read could not be.
    pub closed spec fn dangling_read(&self) -> bool {
        self.dangling_read
    }

    /// The chain's invariant: its driver's holds, and its register lengths add up to a number
    /// of bits that a buffer can hold.
    pub closed spec fn wf(&self) -> bool {
        &&& self.sm.wf()
        &&& sum(self.irlens@) + 8 <= usize::MAX
        &&& self.irlens@.len() + 8 <= usize::MAX
    }

    /// The instruction register length of the addressed TAP.
    pub open spec fn active_irlen(&self) -> nat {
        self.irlens()[self.active() as int] as nat
    }

    /// A chain with no TAPs over the driver `sm`.
    pub fn new(sm: JtagSM<C>) -> (r: Self)
        requires
            sm.wf(),
        ensures
            r.wf(),
            r.driver() == sm,
            r.irlens() == Seq::<usize>::empty(),
            r.active() == 0,
            r.queued_reads() == 0,
            !r.dangling_read(),
    {
        Taps { sm, irlens: Vec::new(), active: 0, dangling_read: false, queued_reads: 0 }
    }

    /// Add a TAP with an instruction register of `irlen` bits at the TDO end of the chain.
    pub fn add_tap(&mut self, irlen: usize)
        requires
            old(self).wf(),
            sum(old(self).irlens()) + irlen + 8 <= usize::MAX,
            old(self).irlens().len() + 9 <= usize::MAX,
        ensures
            final(self).wf(),
            final(self).irlens() == old(self).irlens().push(irlen),
            final(self).driver() == old(self).driver(),
            final(self).active() == old(self).active(),
            final(self).queued_reads() == old(self).queued_reads(),
            final(self).dangling_read() == old(self).dangling_read(),
    {
        self.irlens.push(irlen);
        proof {
            assert(self.irlens@.drop_last() =~= old(self).irlens@);
        }
    }

    /// Shift `bits` ones into the instruction registers.
    fn write_ones(&mut self, bits: usize)
        requires
            old(self).wf(),
        ensures
            final(self).wf(),
            final(self).irlens() == old(self).irlens(),
            final(self).active() == old(self).active(),
            final(self).queued_reads() == old(self).queued_reads(),
            final(self).dangling_read() == old(self).dangling_read(),
            final(self).driver().recorded() == if bits > 0 {
                JtagState::ShiftIR
            } else {
                old(self).driver().recorded()
            },
            final(self).driver().trace() == old(self).driver().trace() + ones_ops(
                old(self).driver().recorded(),
                bits as nat,
            ),
            ops_tdi(ones_ops(old(self).driver().recorded(), bits as nat)) == ones(bits as nat),
    {
        let ghost s0 = self.sm.recorded();
        let ghost t0 = self.sm.trace();
        let bytes = bits / 8;
        let rem = bits % 8;
        if bytes > 0 {
            let buf = ff_vec(bytes);
            self.sm.write_reg(Register::Instruction, buf.as_slice(), 8, false);
        }
        let ghost t1 = self.sm.trace();
        let ghost s1 = self.sm.recorded();
        if rem > 0 {
            let m = rem as u8;
            assert(1u8 << m >= 1) by (bit_vector)
                requires
                    m < 8,
            ;
            let mut buf: Vec<u8> = Vec::new();
            buf.push((1u8 << m) - 1);
            assert(buf@ =~= seq![low_mask(m)]);
            self.sm.write_reg(Register::Instruction, buf.as_slice(), m, false);
        }
        proof {
            let whole = if bytes > 0 {
                moves(s0, JtagState::ShiftIR) + seq![
                    CableOp::Write { data: ff_bytes(bytes as nat), bits: 8, pause_after: false },
                ]
            } else {
                Seq::empty()
            };
            let part = if rem > 0 {
                moves(s1, JtagState::ShiftIR) + seq![
                    CableOp::Write {
                        data: seq![low_mask(rem as u8)],
                        bits: rem as u8,
                        pause_after: false,
                    },
                ]
            } else {
                Seq::empty()
            };
            assert(t1 =~= t0 + whole);
            assert(self.sm.trace() =~= t1 + part);
            assert(ones_ops(s0, bits as nat) == whole + part);
            assert(self.sm.trace() =~= t0 + ones_ops(s0, bits as nat));
            lemma_ops_tdi_append(whole, part);
            if bytes > 0 {
                let w = CableOp::Write { data: ff_bytes(bytes as nat), bits: 8, pause_after: false };
                lemma_ops_tdi_append(moves(s0, JtagState::ShiftIR), seq![w]);
                lemma_ops_tdi_single(w);
                lemma_moves_tdi(s0, JtagState::ShiftIR);
                lemma_ones_bytes(bytes as nat);
                assert(ops_tdi(whole) =~= ones(8 * bytes as nat));
            } else {
                assert(ops_tdi(whole) =~= ones(0));
            }
            if rem > 0 {
                let w = CableOp::Write {
                    data: seq![low_mask(rem as u8)],
                    bits: rem as u8,
                    pause_after: false,
                };
                lemma_ops_tdi_append(moves(s1, JtagState::ShiftIR), seq![w]);
                lemma_ops_tdi_single(w);
                lemma_moves_tdi(s1, JtagState::ShiftIR);
                lemma_low_mask_ones(rem as u8);
                assert(ops_tdi(part) =~= ones(rem as nat));
            } else {
                assert(ops_tdi(part) =~= ones(0));
            }
            assert(ones(8 * bytes as nat) + ones(rem as nat) =~= ones(bits as nat));
        }
    }

    /// Shift `ir` into the instruction register of the addressed TAP, with the TAPs after it
    /// put into BYPASS and ones shifted through those before it; ends in Idle.
    pub fn write_ir(&mut self, ir: &[u8])
        requires
            old(self).wf(),
            old(self).active() < old(self).irlens().len(),
            old(self).active_irlen() >= 1,
            ir@.len() == bytes_for(old(self).active_irlen()),
        ensures
            final(self).wf(),
            final(self).irlens() == old(self).irlens(),
            final(self).active() == old(self).active(),
            final(self).queued_reads() == old(self).queued_reads(),
            final(self).dangling_read() == old(self).dangling_read(),
            final(self).driver().recorded() == JtagState::Idle,
            final(self).driver().trace() == old(self).driver().trace() + ir_write_ops(
                old(self).driver().recorded(),
                old(self).irlens(),
                old(self).active(),
                ir@,
            ),
            ops_tdi(
                ir_write_ops(old(self).driver().recorded(), old(self).irlens(), old(self).active(), ir@),
            ) == ones(sum_after(old(self).irlens(), old(self).active())) + data_bits(
                ir@,
                last_bits(old(self).active_irlen()),
            ) + ones(sum_before(old(self).irlens(), old(self).active())),
    {
        let ghost s0 = self.sm.recorded();
        let ghost t0 = self.sm.trace();
        let ghost lens = self.irlens@;
        let ghost k = self.active as nat;
        let this_irlen = self.irlens[self.active];
        proof {
            lemma_sum_split(lens, k as int, k as int + 1);
            assert(lens.subrange(k as int, k as int + 1).drop_last() =~= Seq::<usize>::empty());
        }
        let after_pad = sum_range(&self.irlens, self.active + 1, self.irlens.len());
        self.write_ones(after_pad);
        let ghost t1 = self.sm.trace();
        let pad_bits = sum_range(&self.irlens, 0, self.active);
        let mut total_bits = (pad_bits + this_irlen) % 8;
        if total_bits == 0 {
            total_bits = 8;
        }
        let buf = add_ones_to_end(ir, this_irlen, pad_bits);
        self.sm.write_reg(Register::Instruction, buf.as_slice(), total_bits as u8, true);
        let ghost t2 = self.sm.trace();
        self.sm.change_mode(JtagState::Idle);
        proof {
            let n = this_irlen as nat;
            let before = pad_bits as nat;
            let s1 = if after_pad > 0 {
                JtagState::ShiftIR
            } else {
                s0
            };
            let w = CableOp::Write {
                data: padded(ir@, n, before),
                bits: last_bits(n + before),
                pause_after: true,
            };
            assert(total_bits as u8 == last_bits(n + before));
            assert(self.sm.trace() =~= t0 + ir_write_ops(s0, lens, k, ir@));
            let a = ones_ops(s0, after_pad as nat);
            let b = moves(s1, JtagState::ShiftIR);
            let c = moves(JtagState::PauseIR, JtagState::Idle);
            lemma_ops_tdi_append(a, b);
            lemma_ops_tdi_append(a + b, seq![w]);
            lemma_ops_tdi_append(a + b + seq![w], c);
            lemma_moves_tdi(s1, JtagState::ShiftIR);
            lemma_moves_tdi(JtagState::PauseIR, JtagState::Idle);
            lemma_ops_tdi_single(w);
            lemma_padded_bits(ir@, n, before);
            assert(ops_tdi(ir_write_ops(s0, lens, k, ir@)) =~= ones(after_pad as nat) + data_bits(
                ir@,
                last_bits(n),
            ) + ones(before));
        }
    }

    /// Address TAP `tap`: reset the chain and write `ir` into its instruction register.
    pub fn select_tap(&mut self, tap: usize, ir: &[u8])
        requires
            old(self).wf(),
            tap < old(self).irlens().len(),
            old(self).irlens()[tap as int] >= 1,
            ir@.len() == bytes_for(old(self).irlens()[tap as int] as nat),
        ensures
            final(self).wf(),
            final(self).irlens() == old(self).irlens(),
            final(self).active() == tap,
            final(self).queued_reads() == old(self).queued_reads(),
            final(self).dangling_read() == old(self).dangling_read(),
            final(self).driver().recorded() == JtagState::Idle,
            final(self).driver().trace() == old(self).driver().trace() + seq![
                CableOp::ChangeMode { tms: reset_tms(), tdi: true },
            ] + ir_write_ops(JtagState::Reset, old(self).irlens(), tap as nat, ir@),
    {
        self.sm.mode_reset();
        self.active = tap;
        self.write_ir(ir);
    }

    /// The number of TAPs after the addressed one, each of which puts one BYPASS bit in front
    /// of the addressed TAP's data on TDO.
    pub open spec fn after_count(&self) -> nat {
        (self.irlens().len() - self.active() - 1) as nat
    }

    /// Read the instruction register of the addressed TAP: the bits of the TAPs after it are
    /// read and dropped first.
    pub fn read_ir(&mut self) -> (r: Vec<u8>)
        requires
            old(self).wf(),
            old(self).active() < old(self).irlens().len(),
        ensures
            final(self).wf(),
            final(self).irlens() == old(self).irlens(),
            final(self).active() == old(self).active(),
            final(self).queued_reads() == old(self).queued_reads(),
            final(self).dangling_read() == old(self).dangling_read(),
            final(self).driver().recorded() == JtagState::ShiftIR,
            exists|x: Seq<u8>|
                final(self).driver().trace() == old(self).driver().trace() + moves(
                    old(self).driver().recorded(),
                    JtagState::Idle,
                ) + moves(JtagState::Idle, JtagState::ShiftIR) + #[trigger] discard(
                    sum_after(old(self).irlens(), old(self).active()),
                    x,
                ) + seq![CableOp::Read { count: old(self).active_irlen(), tdo: r@ }],
    {
        let ghost t0 = self.sm.trace();
        let this_irlen = self.irlens[self.active];
        let pad_bits = sum_range(&self.irlens, self.active + 1, self.irlens.len());
        self.sm.change_mode(JtagState::Idle);
        let ghost mut x = Seq::<u8>::empty();
        if pad_bits > 0 {
            let d = self.sm.read_reg(Register::Instruction, pad_bits);
            proof {
                x = d@;
            }
        }
        let r = self.sm.read_reg(Register::Instruction, this_irlen);
        proof {
            assert(self.sm.trace() =~= t0 + moves(old(self).sm.recorded(), JtagState::Idle) + moves(
                JtagState::Idle,
                JtagState::ShiftIR,
            ) + discard(pad_bits as nat, x) + seq![CableOp::Read { count: this_irlen as nat, tdo: r@ }]);
            assert(discard(sum_after(old(self).irlens(), old(self).active()), x) == discard(pad_bits as nat, x));
        }
        r
    }

    /// Shift `dr` into the data register of the addressed TAP; `bits` (1 to 8) is how many bits
    /// of the last byte are written. One bit is added for each TAP before it; ends in Idle.
    pub fn write_dr(&mut self, dr: &[u8], bits: usize)
        requires
            old(self).wf(),
            old(self).active() < old(self).irlens().len(),
            dr@.len() > 0,
            1 <= bits <= 8,
            buffer_len(dr@, bits as nat) + old(self).active() + 8 <= usize::MAX,
        ensures
            final(self).wf(),
            final(self).irlens() == old(self).irlens(),
            final(self).active() == old(self).active(),
            final(self).queued_reads() == old(self).queued_reads(),
            final(self).dangling_read() == old(self).dangling_read(),
            final(self).driver().recorded() == JtagState::Idle,
            final(self).driver().trace() == old(self).driver().trace() + moves(
                old(self).driver().recorded(),
                JtagState::ShiftDR,
            ) + seq![
                CableOp::Write {
                    data: padded(dr@, buffer_len(dr@, bits as nat), old(self).active()),
                    bits: last_bits(buffer_len(dr@, bits as nat) + old(self).active()),
                    pause_after: true,
                },
            ] + moves(JtagState::PauseDR, JtagState::Idle),
            data_bits(
                padded(dr@, buffer_len(dr@, bits as nat), old(self).active()),
                last_bits(buffer_len(dr@, bits as nat) + old(self).active()),
            ) == data_bits(dr@, bits as u8) + ones(old(self).active()),
    {
        let ghost t0 = self.sm.trace();
        let this_len = (dr.len() - 1) * 8 + bits;
        let pad_bits = self.active;
        let mut total_bits = (pad_bits + this_len) % 8;
        if total_bits == 0 {
            total_bits = 8;
        }
        proof {
            assert(bytes_for(this_len as nat) == dr@.len());
            assert(last_bits(this_len as nat) == bits as u8);
            lemma_padded_bits(dr@, this_len as nat, pad_bits as nat);
        }
        let buf = add_ones_to_end(dr, this_len, pad_bits);
        self.sm.write_reg(Register::Data, buf.as_slice(), total_bits as u8, true);
        self.sm.change_mode(JtagState::Idle);
        proof {
            assert(self.sm.trace() =~= t0 + moves(old(self).sm.recorded(), JtagState::ShiftDR) + seq![
                CableOp::Write {
                    data: padded(dr@, this_len as nat, pad_bits as nat),
                    bits: last_bits((this_len + pad_bits) as nat),
                    pause_after: true,
                },
            ] + moves(JtagState::PauseDR, JtagState::Idle));
        }
    }

    /// As `write_dr`, returning the bits shifted out while `dr` was shifted in. The BYPASS
    /// bits of the TAPs after the addressed one are read and dropped first.
    pub fn read_write_dr(&mut self, dr: &[u8], bits: usize) -> (r: Vec<u8>)
        requires
            old(self).wf(),
            old(self).active() < old(self).irlens().len(),
            dr@.len() > 0,
            1 <= bits <= 8,
            buffer_len(dr@, bits as nat) + old(self).active() + 8 <= usize::MAX,
        ensures
            final(self).wf(),
            final(self).irlens() == old(self).irlens(),
            final(self).active() == old(self).active(),
            final(self).queued_reads() == old(self).queued_reads(),
            final(self).dangling_read() == old(self).dangling_read(),
            final(self).driver().recorded() == JtagState::Idle,
            exists|x: Seq<u8>|
                final(self).driver().trace() == old(self).driver().trace() + moves(
                    old(self).driver().recorded(),
                    JtagState::ShiftDR,
                ) + #[trigger] discard(old(self).after_count(), x) + seq![
                    CableOp::ReadWrite {
                        data: padded(dr@, buffer_len(dr@, bits as nat), old(self).active()),
                        bits: last_bits(buffer_len(dr@, bits as nat) + old(self).active()),
                        pause_after: true,
                        tdo: r@,
                    },
                ] + moves(JtagState::PauseDR, JtagState::Idle),
    {
        let ghost t0 = self.sm.trace();
        let this_len = (dr.len() - 1) * 8 + bits;
        let pad_bits = self.active;
        let discard_bits = self.irlens.len() - self.active - 1;
        let mut total_bits = (pad_bits + this_len) % 8;
        if total_bits == 0 {
            total_bits = 8;
        }
        proof {
            assert(bytes_for(this_len as nat) == dr@.len());
            lemma_padded_bits(dr@, this_len as nat, pad_bits as nat);
        }
        let buf = add_ones_to_end(dr, this_len, pad_bits);
        let ghost mut x = Seq::<u8>::empty();
        if discard_bits > 0 {
            let d = self.sm.read_reg(Register::Data, discard_bits);
            proof {
                x = d@;
            }
        }
        let data = self.sm.read_write_reg(Register::Data, buf.as_slice(), total_bits as u8, true);
        self.sm.change_mode(JtagState::Idle);
        proof {
            assert(self.sm.trace() =~= t0 + moves(old(self).sm.recorded(), JtagState::ShiftDR)
                + discard(discard_bits as nat, x) + seq![
                CableOp::ReadWrite {
                    data: padded(dr@, this_len as nat, pad_bits as nat),
                    bits: last_bits((this_len + pad_bits) as nat),
                    pause_after: true,
                    tdo: data@,
                },
            ] + moves(JtagState::PauseDR, JtagState::Idle));
            assert(discard(old(self).after_count(), x) == discard(discard_bits as nat, x));
        }
        data
    }

    /// Read `bits` bits from the data register of the addressed TAP, after reading and
    /// dropping the BYPASS bits of the TAPs after it.
    pub fn read_dr(&mut self, bits: usize) -> (r: Vec<u8>)
        requires
            old(self).wf(),
            old(self).active() < old(self).irlens().len(),
        ensures
            final(self).wf(),
            final(self).irlens() == old(self).irlens(),
            final(self).active() == old(self).active(),
            final(self).queued_reads() == old(self).queued_reads(),
            final(self).dangling_read() == old(self).dangling_read(),
            final(self).driver().recorded() == JtagState::ShiftDR,
            exists|x: Seq<u8>|
                final(self).driver().trace() == old(self).driver().trace() + moves(
                    old(self).driver().recorded(),
                    JtagState::Idle,
                ) + moves(JtagState::Idle, JtagState::ShiftDR) + #[trigger] discard(
                    old(self).after_count(),
                    x,
                ) + seq![CableOp::Read { count: bits as nat, tdo: r@ }],
    {
        let ghost t0 = self.sm.trace();
        let pad_bits = self.irlens.len() - self.active - 1;
        self.sm.change_mode(JtagState::Idle);
        let ghost mut x = Seq::<u8>::empty();
        if pad_bits > 0 {
            let d = self.sm.read_reg(Register::Data, pad_bits);
            proof {
                x = d@;
            }
        }
        let r = self.sm.read_reg(Register::Data, bits);
        proof {
            assert(self.sm.trace() =~= t0 + moves(old(self).sm.recorded(), JtagState::Idle) + moves(
                JtagState::Idle,
                JtagState::ShiftDR,
            ) + discard(pad_bits as nat, x) + seq![CableOp::Read { count: bits as nat, tdo: r@ }]);
            assert(discard(old(self).after_count(), x) == discard(pad_bits as nat, x));
        }
        r
    }

    /// Queue a read of `bits` bits from the data register of the addressed TAP, with a read of
    /// the BYPASS bits of the TAPs after it to drop; false when the cable's queue is full.
    /// When the bypass read was queued and the data read was not, the bypass read is left
    /// dangling, to be collected after the last queued data read.
    pub fn queue_dr_read(&mut self, bits: usize) -> (r: bool)
        requires
            old(self).wf(),
            old(self).active() < old(self).irlens().len(),
            old(self).active() + bits <= usize::MAX,
            old(self).queued_reads() < usize::MAX,
        ensures
            final(self).wf(),
            final(self).irlens() == old(self).irlens(),
            final(self).active() == old(self).active(),
            final(self).driver().recorded() == JtagState::ShiftDR,
            exists|a: bool|
                {
                    let pre = old(self).driver().trace() + moves(
                        old(self).driver().recorded(),
                        JtagState::Idle,
                    ) + moves(JtagState::Idle, JtagState::ShiftDR) + #[trigger] queued_discard(
                        old(self).after_count(),
                        a,
                    );
                    if old(self).after_count() > 0 && !a {
                        &&& final(self).driver().trace() == pre
                        &&& !r
                        &&& final(self).queued_reads() == old(self).queued_reads()
                        &&& final(self).dangling_read() == old(self).dangling_read()
                    } else {
                        &&& final(self).driver().trace() == pre + seq![
                            CableOp::QueueRead { count: old(self).active() + bits as nat, accepted: r },
                        ]
                        &&& final(self).queued_reads() == old(self).queued_reads() + if r {
                            1nat
                        } else {
                            0nat
                        }
                        &&& final(self).dangling_read() == (old(self).dangling_read() || (!r
                            && old(self).after_count() > 0))
                    }
                },
    {
        let ghost t0 = self.sm.trace();
        let pad_bits = self.active;
        let discard_bits = self.irlens.len() - self.active - 1;
        let total_bits = pad_bits + bits;
        self.sm.change_mode(JtagState::Idle);
        let ghost mut a = true;
        if discard_bits > 0 {
            let ok = self.sm.queue_read(Register::Data, discard_bits);
            proof {
                a = ok;
            }
            if !ok {
                assert(self.sm.trace() =~= t0 + moves(old(self).sm.recorded(), JtagState::Idle)
                    + moves(JtagState::Idle, JtagState::ShiftDR) + queued_discard(
                    discard_bits as nat,
                    a,
                ));
                assert(queued_discard(old(self).after_count(), a) == queued_discard(discard_bits as nat, a));
                return false;
            }
        }
        let ok = self.sm.queue_read(Register::Data, total_bits);
        proof {
            assert(self.sm.trace() =~= t0 + moves(old(self).sm.recorded(), JtagState::Idle) + moves(
                JtagState::Idle,
                JtagState::ShiftDR,
            ) + queued_discard(discard_bits as nat, a) + seq![
                CableOp::QueueRead { count: total_bits as nat, accepted: ok },
            ]);
            assert(queued_discard(old(self).after_count(), a) == queued_discard(discard_bits as nat, a));
        }
        if !ok {
            if discard_bits > 0 {
                self.dangling_read = true;
            }
            false
        } else {
            self.queued_reads += 1;
            true
        }
    }

    /// Collect the oldest data register read queued by `queue_dr_read`, of `bits` bits,
    /// dropping its bypass bits; after the last one, a dangling bypass read is collected too.
    pub fn finish_dr_read(&mut self, bits: usize) -> (r: Vec<u8>)
        requires
            old(self).wf(),
            old(self).active() < old(self).irlens().len(),
            old(self).active() + bits <= usize::MAX,
            old(self).queued_reads() > 0,
        ensures
            final(self).wf(),
            final(self).irlens() == old(self).irlens(),
            final(self).active() == old(self).active(),
            final(self).driver().recorded() == old(self).driver().recorded(),
            final(self).queued_reads() == old(self).queued_reads() - 1,
            final(self).dangling_read() == (old(self).dangling_read() && old(self).queued_reads()
                != 1),
            exists|x: Seq<u8>, y: Seq<u8>|
                final(self).driver().trace() == old(self).driver().trace() + #[trigger] finished_discard(
                    old(self).after_count(),
                    x,
                ) + seq![CableOp::FinishRead { count: old(self).active() + bits as nat, tdo: r@ }] + if old(
                    self,
                ).queued_reads() == 1 && old(self).dangling_read() {
                    #[trigger] finished_discard(old(self).after_count(), y)
                } else {
                    Seq::empty()
                },
    {
        let ghost t0 = self.sm.trace();
        let pad_bits = self.active;
        let discard_bits = self.irlens.len() - self.active - 1;
        let total_bits = pad_bits + bits;
        let ghost mut x = Seq::<u8>::empty();
        let ghost mut y = Seq::<u8>::empty();
        if discard_bits > 0 {
            let d = self.sm.finish_read(discard_bits);
            proof {
                x = d@;
            }
        }
        let ret = self.sm.finish_read(total_bits);
        let ghost t1 = self.sm.trace();
        self.queued_reads -= 1;
        if self.queued_reads == 0 && self.dangling_read {
            if discard_bits > 0 {
                let d = self.sm.finish_read(discard_bits);
                proof {
                    y = d@;
                }
            }
            self.dangling_read = false;
        }
        proof {
            assert(t1 =~= t0 + finished_discard(discard_bits as nat, x) + seq![
                CableOp::FinishRead { count: total_bits as nat, tdo: ret@ },
            ]);
            assert(finished_discard(old(self).after_count(), x) == finished_discard(discard_bits as nat, x));
            assert(finished_discard(old(self).after_count(), y) == finished_discard(discard_bits as nat, y));
            if old(self).queued_reads == 1 && old(self).dangling_read {
                assert(self.sm.trace() =~= t1 + finished_discard(discard_bits as nat, y));
            } else {
                assert(self.sm.trace() =~= t1 + Seq::<CableOp>::empty());
            }
        }
        ret
    }

    /// Finish detecting the chain after the instruction register scan `found`: reset the chain,
    /// read the identification code of each TAP found (0 for a TAP without one), and make the
    /// TAPs found the chain, none addressed but position 0. Returns the identification codes,
    /// position 0 nearest TDI.
    pub fn load_detected(&mut self, found: &IrScan) -> (r: Vec<u32>)
        requires
            old(self).wf(),
            found.wf(),
            found.seen().len() + 16 <= usize::MAX,
        ensures
            final(self).wf(),
            final(self).irlens() == scan(found.seen()).1.reverse(),
            final(self).active() == 0,
            final(self).queued_reads() == old(self).queued_reads(),
            final(self).dangling_read() == old(self).dangling_read(),
            r@.len() == scan(found.seen()).1.len(),
            forall|i: int| 0 <= i < r@.len() ==> r@[i] == 0 || r@[i] % 2 == 1,
            exists|firsts: Seq<Seq<u8>>, rests: Seq<Seq<u8>>|
                {
                    &&& firsts.len() == r@.len()
                    &&& rests.len() == r@.len()
                    &&& final(self).driver().trace() == old(self).driver().trace() + seq![
                        CableOp::ChangeMode { tms: reset_tms(), tdi: true },
                    ] + #[trigger] id_phase_ops(firsts, rests)
                    &&& forall|i: int|
                        0 <= i < r@.len() ==> r@[i] == idcode_read(
                            firsts[r@.len() - 1 - i],
                            rests[r@.len() - 1 - i],
                        )
                },
    {
        let lens = found.lengths();
        let n = lens.len();
        self.sm.mode_reset();
        let ghost t1 = self.sm.trace();
        let ghost mut firsts = Seq::<Seq<u8>>::empty();
        let ghost mut rests = Seq::<Seq<u8>>::empty();
        let mut ids: Vec<u32> = Vec::new();
        let mut i: usize = 0;
        while i < n
            invariant
                self.wf(),
                i <= n,
                ids@.len() == i,
                firsts.len() == i,
                rests.len() == i,
                self.queued_reads == old(self).queued_reads,
                self.dangling_read == old(self).dangling_read,
                forall|j: int| 0 <= j < ids@.len() ==> ids@[j] == 0 || ids@[j] % 2 == 1,
                forall|j: int| 0 <= j < ids@.len() ==> ids@[j] == idcode_read(firsts[j], rests[j]),
                self.sm.trace() == t1 + id_phase_ops(firsts, rests),
                self.sm.recorded() == if i == 0 {
                    JtagState::Reset
                } else {
                    JtagState::ShiftDR
                },
            decreases n - i,
        {
            let bit = self.sm.read_reg(Register::Data, 1);
            let ghost mut rest_seen = Seq::<u8>::empty();
            if bit.len() > 0 && bit[0] != 0 {
                let rest = self.sm.read_reg(Register::Data, 31);
                proof {
                    rest_seen = rest@;
                }
                let id = idcode_from(rest.as_slice());
                proof {
                    let (b0, b1, b2, b3) = (
                        byte_at(rest@, 0),
                        byte_at(rest@, 1),
                        byte_at(rest@, 2),
                        byte_at(rest@, 3),
                    );
                    lemma_id_word_odd(b0, b1, b2, b3);
                }
                ids.push(id);
            } else {
                ids.push(0);
            }
            proof {
                let f2 = firsts.push(bit@);
                let r2 = rests.push(rest_seen);
                assert(f2.drop_last() =~= firsts);
                assert(r2.drop_last() =~= rests);
                assert(self.sm.trace() =~= t1 + id_phase_ops(f2, r2));
                firsts = f2;
                rests = r2;
            }
            i += 1;
        }
        let mut r: Vec<u32> = Vec::new();
        let mut j: usize = 0;
        while j < n
            invariant
                j <= n == ids@.len(),
                r@.len() == j,
                forall|k: int| 0 <= k < ids@.len() ==> ids@[k] == 0 || ids@[k] % 2 == 1,
                forall|k: int| 0 <= k < r@.len() ==> r@[k] == 0 || r@[k] % 2 == 1,
                forall|k: int| 0 <= k < r@.len() ==> r@[k] == ids@[n - 1 - k],
            decreases n - j,
        {
            r.push(ids[n - 1 - j]);
            j += 1;
        }
        proof {
            lemma_sum_reverse(scan(found.seen()).1);
        }
        assert(r@ =~= Seq::new(n as nat, |k: int| ids@[n - 1 - k]));
        self.irlens = lens;
        self.active = 0;
        r
    }
}

proof fn lemma_id_word_odd(b0: u32, b1: u32, b2: u32, b3: u32)
    ensures
        id_word(b0, b1, b2, b3) % 2 == 1,
{
    let x = id_word(b0, b1, b2, b3);
    assert((((b0 | (b1 << 8u32) | (b2 << 16u32) | (b3 << 24u32)) << 1u32) | 1u32) % 2 == 1)
        by (bit_vector);
}

proof fn lemma_sum_reverse(s: Seq<usize>)
    ensures
        sum(s.reverse()) == sum(s),
    decreases s.len(),
{
    if s.len() > 0 {
        let d = s.drop_last();
        lemma_sum_reverse(d);
        assert(s.reverse() =~= seq![s.last()] + d.reverse());
        lemma_sum_append(seq![s.last()], d.reverse());
        assert(seq![s.last()].drop_last() =~= Seq::<usize>::empty());
        assert(sum(seq![s.last()]) == sum(Seq::<usize>::empty()) + s.last() as nat);
    }
}

proof fn lemma_moves_tdi(s: JtagState, t: JtagState)
    ensures
        ops_tdi(moves(s, t)) == Seq::<bool>::empty(),
{
    if s != t {
        lemma_ops_tdi_single(moves(s, t)[0]);
        assert(moves(s, t) =~= seq![moves(s, t)[0]]);
    }
}

} // verus!
