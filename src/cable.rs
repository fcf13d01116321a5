//! The bit-level contract that every JTAG adapter meets.
//!
//! A cable is described by the sequence of operations it has been asked to perform: its
//! `trace`. Each method appends exactly one operation to the trace, and the methods that
//! return TDO samples record them in the operation they append.
use vstd::prelude::*;

use crate::bits::data_bits;
use crate::statemachine::{run, JtagState};

verus! {

/// One operation performed by a cable, as it appears in the cable's trace.
pub enum CableOp {
    /// Clock `tms.len()` cycles, TMS taking the given values (non-zero is high), TDI held at `tdi`.
    ChangeMode { tms: Seq<usize>, tdi: bool },
    /// Shift `count` cycles with TDI high, sampling TDO.
    Read { count: nat, tdo: Seq<u8> },
    /// Shift the bits of `data` (all of each byte but the last, `bits` of the last) out on TDI.
    Write { data: Seq<u8>, bits: u8, pause_after: bool },
    /// As `Write`, also sampling TDO for the same cycles.
    ReadWrite { data: Seq<u8>, bits: u8, pause_after: bool, tdo: Seq<u8> },
    /// A read put in the adapter's queue; `accepted` is false when the queue was full.
    QueueRead { count: nat, accepted: bool },
    /// A read-write put in the adapter's queue; `accepted` is false when the queue was full.
    QueueReadWrite { data: Seq<u8>, bits: u8, pause_after: bool, accepted: bool },
    /// The answer to the oldest queued read, of `count` bits.
    FinishRead { count: nat, tdo: Seq<u8> },
    /// Hand every batched command to the adapter.
    Flush,
}

/// The state a TAP controller reaches from `s` when a shift that ends with `pause_after` is
/// completed.
pub open spec fn shift_end(s: JtagState, pause_after: bool) -> JtagState {
    if pause_after {
        match s {
            JtagState::ShiftDR => JtagState::PauseDR,
            JtagState::ShiftIR => JtagState::PauseIR,
            _ => s,
        }
    } else {
        s
    }
}

/// The TAP state after `op` is performed from state `s`.
pub open spec fn tap_after(s: JtagState, op: CableOp) -> JtagState {
    match op {
        CableOp::ChangeMode { tms, .. } => run(s, tms),
        CableOp::Write { pause_after, .. } => shift_end(s, pause_after),
        CableOp::ReadWrite { pause_after, .. } => shift_end(s, pause_after),
        CableOp::QueueReadWrite { pause_after, accepted, .. } => shift_end(s, pause_after && accepted),
        _ => s,
    }
}

/// The TAP state after the operations `ops` are performed, in order, from state `s`.
pub open spec fn tap_run(s: JtagState, ops: Seq<CableOp>) -> JtagState
    decreases ops.len(),
{
    if ops.len() == 0 {
        s
    } else {
        tap_after(tap_run(s, ops.drop_last()), ops.last())
    }
}

/// The bits that `op` drives on TDI while the TAP is in a shift state.
pub open spec fn op_tdi(op: CableOp) -> Seq<bool> {
    match op {
        CableOp::Read { count, .. } => Seq::new(count, |i: int| true),
        CableOp::Write { data, bits, .. } => data_bits(data, bits),
        CableOp::ReadWrite { data, bits, .. } => data_bits(data, bits),
        _ => Seq::empty(),
    }
}

/// The bits that the operations `ops` drive on TDI while shifting, in order.
pub open spec fn ops_tdi(ops: Seq<CableOp>) -> Seq<bool>
    decreases ops.len(),
{
    if ops.len() == 0 {
        Seq::empty()
    } else {
        ops_tdi(ops.drop_last()) + op_tdi(ops.last())
    }
}

pub proof fn lemma_ops_tdi_append(a: Seq<CableOp>, b: Seq<CableOp>)
    ensures
        ops_tdi(a + b) == ops_tdi(a) + ops_tdi(b),
    decreases b.len(),
{
    if b.len() == 0 {
        assert(a + b =~= a);
        assert(ops_tdi(a) + ops_tdi(b) =~= ops_tdi(a));
    } else {
        lemma_ops_tdi_append(a, b.drop_last());
        assert((a + b).drop_last() =~= a + b.drop_last());
        assert(ops_tdi(a) + ops_tdi(b) =~= ops_tdi(a) + ops_tdi(b.drop_last()) + op_tdi(b.last()));
    }
}

pub proof fn lemma_ops_tdi_single(op: CableOp)
    ensures
        ops_tdi(seq![op]) == op_tdi(op),
{
    let e = Seq::<CableOp>::empty();
    assert(seq![op].drop_last() =~= e);
    assert(ops_tdi(e) + op_tdi(op) =~= op_tdi(op));
}

/// A JTAG adapter: moves TMS and TDI bits out and samples TDO bits in.
pub trait Cable {
    /// Every operation performed on this cable, oldest first. The default body lets a cable
    /// written in plain Rust leave it out; proofs about a generic cable never look inside it.
    closed spec fn trace(&self) -> Seq<CableOp> {
        Seq::empty()
    }

    /// Clock out the TMS values of `tms` (zero for low, any other value for high) with TDI
    /// held at `tdo`.
    fn change_mode(&mut self, tms: &[usize], tdo: bool)
        ensures
            final(self).trace() == old(self).trace().push(
                CableOp::ChangeMode { tms: tms@, tdi: tdo },
            ),
    ;

    /// Shift in `bits` bits from TDO while clocking out ones, staying in the shift state.
    fn read_data(&mut self, bits: usize) -> (r: Vec<u8>)
        ensures
            final(self).trace() == old(self).trace().push(
                CableOp::Read { count: bits as nat, tdo: r@ },
            ),
    ;

    /// Shift `data` out on TDI; `bits` (1 to 8) is how many bits of the last byte are sent.
    /// With `pause_after` the TAP ends in the pause state of the register.
    fn write_data(&mut self, data: &[u8], bits: u8, pause_after: bool)
        requires
            data@.len() > 0,
            1 <= bits <= 8,
        ensures
            final(self).trace() == old(self).trace().push(
                CableOp::Write { data: data@, bits, pause_after },
            ),
    ;

    /// As `write_data`, returning the TDO bits sampled on the same cycles.
    fn read_write_data(&mut self, data: &[u8], bits: u8, pause_after: bool) -> (r: Vec<u8>)
        requires
            data@.len() > 0,
            1 <= bits <= 8,
        ensures
            final(self).trace() == old(self).trace().push(
                CableOp::ReadWrite { data: data@, bits, pause_after, tdo: r@ },
            ),
    ;

    /// Queue a read of `bits` bits; false when the queue is full and nothing was queued.
    fn queue_read(&mut self, bits: usize) -> (r: bool)
        ensures
            final(self).trace() == old(self).trace().push(
                CableOp::QueueRead { count: bits as nat, accepted: r },
            ),
    ;

    /// Queue a read-write; false when the queue is full and nothing was queued.
    fn queue_read_write(&mut self, data: &[u8], bits: u8, pause_after: bool) -> (r: bool)
        requires
            data@.len() > 0,
            1 <= bits <= 8,
        ensures
            final(self).trace() == old(self).trace().push(
                CableOp::QueueReadWrite { data: data@, bits, pause_after, accepted: r },
            ),
    ;

    /// Return the result of the oldest queued read, which was of `bits` bits.
    fn finish_read(&mut self, bits: usize) -> (r: Vec<u8>)
        ensures
            final(self).trace() == old(self).trace().push(
                CableOp::FinishRead { count: bits as nat, tdo: r@ },
            ),
    ;

    /// Hand every batched command to the adapter.
    fn flush(&mut self)
        ensures
            final(self).trace() == old(self).trace().push(CableOp::Flush),
    ;
}

} // verus!
