//! The command stream of an FTDI MPSSE adapter ("jtagkey" designs): commands are batched up to
//! 4 KiB, reads are queued, and the bytes the adapter sends back are cut into their results.
//! The last bit of a write goes with a TMS clocking command, the only one that drives TMS and
//! TDI on the same cycle.
use vstd::prelude::*;

use ftdi_mpsse::{ClockBits, ClockBitsOut, ClockData, ClockDataOut, ClockTMS, ClockTMSOut, MpsseCmdBuilder};

use crate::bits::{bit_of, bits_prefix, bytes_for, holds_bits};
use crate::jlink::push_bit;

verus! {

/// The most bytes of commands sent to the adapter at once, and of replies awaited.
pub const MAX_BATCH: usize = 4096;

/// A command with a one-byte count (1 to `n`) and one argument byte: nothing for a count of 0.
pub open spec fn short_command(op: u8, data: u8, len: u8) -> Seq<u8> {
    if len == 0 {
        Seq::empty()
    } else {
        seq![op, (len - 1) as u8, data]
    }
}

/// A TMS clocking command: the TMS bits `data`, with the TDI level in bit 7.
pub open spec fn tms_command(op: u8, data: u8, tdi: bool, len: u8) -> Seq<u8> {
    short_command(op, if tdi { data | 0x80u8 } else { data }, len)
}

/// A byte clocking command: the byte count less one, low byte first, then the bytes; nothing
/// for no bytes.
pub open spec fn data_command(op: u8, data: Seq<u8>) -> Seq<u8> {
    if data.len() == 0 {
        Seq::empty()
    } else {
        seq![op, ((data.len() - 1) % 256) as u8, (((data.len() - 1) / 256) % 256) as u8] + data
    }
}

/// Relies on `MpsseCmdBuilder::clock_tms_out` with `ClockTMSOut::NegEdge` (opcode 0x4B): for a
/// count of 1 to 7 it adds the opcode, the count less one and `data` with TDI in bit 7; for 0,
/// nothing. It panics on a count above 7.
#[verifier::external_body]
fn clock_tms_out(buf: &mut Vec<u8>, data: u8, tdi: bool, len: u8)
    requires
        len <= 7,
    ensures
        final(buf)@ == old(buf)@ + tms_command(0x4b, data, tdi, len),
{
    let cmd = MpsseCmdBuilder::new().clock_tms_out(ClockTMSOut::NegEdge, data, tdi, len);
    buf.extend_from_slice(cmd.as_slice());
}

/// Relies on `MpsseCmdBuilder::clock_tms` with `ClockTMS::NegTMSPosTDO` (opcode 0x6B): as
/// `clock_tms_out`, and the adapter sends back one byte with the TDO samples.
#[verifier::external_body]
fn clock_tms(buf: &mut Vec<u8>, data: u8, tdi: bool, len: u8)
    requires
        len <= 7,
    ensures
        final(buf)@ == old(buf)@ + tms_command(0x6b, data, tdi, len),
{
    let cmd = MpsseCmdBuilder::new().clock_tms(ClockTMS::NegTMSPosTDO, data, tdi, len);
    buf.extend_from_slice(cmd.as_slice());
}

/// Relies on `MpsseCmdBuilder::clock_data_out` with `ClockDataOut::LsbNeg` (opcode 0x19):
/// adds the opcode, the byte count less one as two bytes low first, then the bytes; nothing
/// for no bytes. It panics on more than 65536 bytes.
#[verifier::external_body]
fn clock_data_out(buf: &mut Vec<u8>, data: &[u8])
    requires
        data@.len() <= 65536,
    ensures
        final(buf)@ == old(buf)@ + data_command(0x19, data@),
{
    let cmd = MpsseCmdBuilder::new().clock_data_out(ClockDataOut::LsbNeg, data);
    buf.extend_from_slice(cmd.as_slice());
}

/// Relies on `MpsseCmdBuilder::clock_data` with `ClockData::LsbPosIn` (opcode 0x39): as
/// `clock_data_out`, and the adapter sends back one byte of TDO samples per byte.
#[verifier::external_body]
fn clock_data(buf: &mut Vec<u8>, data: &[u8])
    requires
        data@.len() <= 65536,
    ensures
        final(buf)@ == old(buf)@ + data_command(0x39, data@),
{
    let cmd = MpsseCmdBuilder::new().clock_data(ClockData::LsbPosIn, data);
    buf.extend_from_slice(cmd.as_slice());
}

/// Relies on `MpsseCmdBuilder::clock_bits_out` with `ClockBitsOut::LsbNeg` (opcode 0x1B): for
/// a count of 1 to 8 it adds the opcode, the count less one and `data`; for 0, nothing. It
/// panics on a count above 8.
#[verifier::external_body]
fn clock_bits_out(buf: &mut Vec<u8>, data: u8, len: u8)
    requires
        len <= 8,
    ensures
        final(buf)@ == old(buf)@ + short_command(0x1b, data, len),
{
    let cmd = MpsseCmdBuilder::new().clock_bits_out(ClockBitsOut::LsbNeg, data, len);
    buf.extend_from_slice(cmd.as_slice());
}

/// Relies on `MpsseCmdBuilder::clock_bits` with `ClockBits::LsbPosIn` (opcode 0x3B): as
/// `clock_bits_out`, and the adapter sends back one byte with the TDO samples in its top bits.
#[verifier::external_body]
fn clock_bits(buf: &mut Vec<u8>, data: u8, len: u8)
    requires
        len <= 8,
    ensures
        final(buf)@ == old(buf)@ + short_command(0x3b, data, len),
{
    let cmd = MpsseCmdBuilder::new().clock_bits(ClockBits::LsbPosIn, data, len);
    buf.extend_from_slice(cmd.as_slice());
}

/// The byte whose bits below `n` are the first `n` of `bits`, and whose other bits are 0.
pub open spec fn chunk_value(bits: Seq<bool>, n: nat) -> u8
    decreases n,
{
    if n == 0 {
        0
    } else {
        chunk_value(bits, (n - 1) as nat) | if bits[n - 1] {
            (1u8 << ((n - 1) as u8)) as u8
        } else {
            0u8
        }
    }
}

/// The TMS clocking commands (opcode 0x4B) for the TMS bits `bits` with TDI at `tdo`: seven
/// bits per command.
pub open spec fn tms_commands(bits: Seq<bool>, tdo: bool) -> Seq<u8>
    decreases bits.len(),
{
    if bits.len() < 7 {
        tms_command(0x4b, chunk_value(bits, bits.len()), tdo, bits.len() as u8)
    } else {
        tms_command(0x4b, chunk_value(bits, 7), tdo, 7) + tms_commands(bits.skip(7), tdo)
    }
}

/// The TMS bits of `tms` from `start`, `n` of them, gathered into a byte.
fn chunk(tms: &[usize], start: usize, n: usize) -> (r: u8)
    requires
        start + n <= tms@.len(),
        n <= 7,
    ensures
        r == chunk_value(tms@.skip(start as int).map_values(|x: usize| x != 0), n as nat),
{
    let ghost bits = tms@.skip(start as int).map_values(|x: usize| x != 0);
    let len = tms.len();
    let mut buf: u8 = 0;
    let mut count: usize = 0;
    while count < n
        invariant
            count <= n <= 7,
            start + n <= tms@.len() == len,
            bits == tms@.skip(start as int).map_values(|x: usize| x != 0),
            buf == chunk_value(bits, count as nat),
        decreases n - count,
    {
        assert(bits[count as int] == (tms@[start + count] != 0));
        let ghost prev = buf;
        if tms[start + count] != 0 {
            buf = buf | (1u8 << (count as u8));
        }
        proof {
            assert(prev | 0u8 == prev) by (bit_vector);
            assert(chunk_value(bits, (count + 1) as nat) == prev | if bits[count as int] {
                (1u8 << (count as u8)) as u8
            } else {
                0u8
            });
        }
        count += 1;
    }
    buf
}

/// The bytes of replies that the queued reads `q` wait for.
pub open spec fn reply_sum(q: Seq<(usize, usize, usize, usize)>) -> nat
    decreases q.len(),
{
    if q.len() == 0 {
        0
    } else {
        reply_sum(q.drop_last()) + q.last().1 as nat
    }
}

/// Sample `i` of a reply `resp` made of `full` bytes of eight samples, then, when `part > 0`,
/// one byte with `part` samples in its top bits, then bytes with one sample in bit 7.
pub open spec fn mpsse_bit(resp: Seq<u8>, full: nat, part: nat, i: int) -> bool {
    if i < 8 * full {
        bit_of(resp[i / 8], i % 8)
    } else if i < 8 * full + part {
        bit_of(resp[full as int], 8 - part + (i - 8 * full))
    } else {
        bit_of(resp[full + if part > 0 { 1int } else { 0int }], 7)
    }
}

/// A queued read of `bits` bits whose reply is `bytes` bytes laid out as `mpsse_bit` reads
/// them.
pub open spec fn entry_ok(e: (usize, usize, usize, usize)) -> bool {
    let (bits, bytes, full, part) = e;
    &&& part < 8
    &&& full <= 65536
    &&& bits <= 8 * full + part + 1
    &&& bytes >= full + (if part > 0 { 1int } else { 0int }) + (if bits > 8 * full + part { 1int } else { 0int })
    &&& bits + 16 <= usize::MAX
}

/// The commands of a write of `data`, `bits` (1 to 8) of its last byte: whole bytes, then the
/// bits of the last byte but its last, then that bit with TMS, followed with `pause_after` by
/// a low TMS cycle into the pause state.
pub open spec fn write_commands(data: Seq<u8>, bits: u8, pause_after: bool) -> Seq<u8> {
    let last = data.last();
    let last_bit = bit_of(last, bits - 1);
    data_command(0x19, data.drop_last()) + short_command(0x1b, last, (bits - 1) as u8) + if pause_after {
        tms_command(0x4b, 1, last_bit, 2)
    } else {
        tms_command(0x4b, 0, last_bit, 1)
    }
}

/// The commands of a read-write of `data`, as `write_commands` with TDO sampled.
pub open spec fn read_write_commands(data: Seq<u8>, bits: u8, pause_after: bool) -> Seq<u8> {
    let last = data.last();
    let last_bit = bit_of(last, bits - 1);
    data_command(0x39, data.drop_last()) + short_command(0x3b, last, (bits - 1) as u8) + (if pause_after {
        tms_command(0x6b, 1, last_bit, 1)
    } else {
        Seq::empty()
    }) + tms_command(0x6b, 0, last_bit, 1)
}

/// The commands of a read of `bits` bits, ones on TDI: whole bytes, then the remaining bits.
pub open spec fn read_commands(bits: nat) -> Seq<u8> {
    data_command(0x39, Seq::new(bits / 8, |i: int| 0xffu8)) + short_command(0x3b, 0xff, (bits % 8) as u8)
}

proof fn lemma_reply_sum_prefix(q: Seq<(usize, usize, usize, usize)>, i: int)
    requires
        0 <= i <= q.len(),
    ensures
        reply_sum(q.take(i)) <= reply_sum(q),
    decreases q.len(),
{
    if i < q.len() {
        lemma_reply_sum_prefix(q.drop_last(), i);
        assert(q.drop_last().take(i) =~= q.take(i));
    } else {
        assert(q.take(i) =~= q);
    }
}

/// The first `n` bytes of `data`.
fn prefix(data: &[u8], n: usize) -> (r: Vec<u8>)
    requires
        n <= data@.len(),
    ensures
        r@ == data@.subrange(0, n as int),
{
    let mut r: Vec<u8> = Vec::new();
    let mut i: usize = 0;
    while i < n
        invariant
            i <= n <= data@.len(),
            r@ =~= data@.subrange(0, i as int),
        decreases n - i,
    {
        r.push(data[i]);
        i += 1;
    }
    r
}

/// `n` bytes of ones.
fn filled_ff(n: usize) -> (r: Vec<u8>)
    ensures
        r@ == Seq::new(n as nat, |i: int| 0xffu8),
{
    let mut r: Vec<u8> = Vec::new();
    let mut i: usize = 0;
    while i < n
        invariant
            i <= n,
            r@ =~= Seq::new(i as nat, |j: int| 0xffu8),
        decreases n - i,
    {
        r.push(0xff);
        i += 1;
    }
    r
}

proof fn lemma_reply_sum_front(q: Seq<(usize, usize, usize, usize)>)
    requires
        q.len() > 0,
    ensures
        reply_sum(q) == q[0].1 + reply_sum(q.drop_first()),
    decreases q.len(),
{
    if q.len() > 1 {
        lemma_reply_sum_front(q.drop_last());
        assert(q.drop_last().drop_first() =~= q.drop_first().drop_last());
    } else {
        assert(q.drop_first() =~= Seq::<(usize, usize, usize, usize)>::empty());
        assert(q.drop_last() =~= Seq::<(usize, usize, usize, usize)>::empty());
    }
}

/// The command stream of an MPSSE adapter.
pub struct Mpsse {
    /// Commands to send to the adapter.
    buffer: Vec<u8>,
    /// Bytes received from the adapter and not yet returned.
    queued_reads: Vec<u8>,
    /// For each queued read: its bits, the bytes of its reply, the whole bytes among them, and
    /// the bits taken one at a time after those.
    queued_read_state: Vec<(usize, usize, usize, usize)>,
}

impl Mpsse {
    /// The commands waiting to be sent.
    pub closed spec fn output(&self) -> Seq<u8> {
        self.buffer@
    }

    /// The bytes received from the adapter and not yet returned.
    pub closed spec fn received(&self) -> Seq<u8> {
        self.queued_reads@
    }

    /// The queued reads, oldest first: bits, bytes of reply, whole bytes, bits after those.
    pub closed spec fn reads(&self) -> Seq<(usize, usize, usize, usize)> {
        self.queued_read_state@
    }

    /// The queue's invariant: each queued read is laid out as `mpsse_bit` reads it, and their
    /// replies fit in one batch.
    pub closed spec fn wf(&self) -> bool {
        &&& forall|i: int| 0 <= i < self.queued_read_state@.len() ==> entry_ok(#[trigger] self.queued_read_state@[i])
        &&& reply_sum(self.queued_read_state@) < MAX_BATCH
    }

    /// A queue with no command and no read.
    pub fn new() -> (r: Self)
        ensures
            r.wf(),
            r.output() == Seq::<u8>::empty(),
            r.received() == Seq::<u8>::empty(),
            r.reads() == Seq::<(usize, usize, usize, usize)>::empty(),
    {
        Mpsse { buffer: Vec::new(), queued_reads: Vec::new(), queued_read_state: Vec::new() }
    }

    /// Add the commands `cmds`; when the batch would grow past 4 KiB, the batch so far is
    /// returned, to be sent first, and `cmds` start a new one. Else nothing is returned.
    fn append(&mut self, cmds: Vec<u8>) -> (r: Vec<u8>)
        ensures
            old(self).output().len() + cmds@.len() > MAX_BATCH ==> r@ == old(self).output()
                && final(self).output() == cmds@,
            old(self).output().len() + cmds@.len() <= MAX_BATCH ==> r@ == Seq::<u8>::empty()
                && final(self).output() == old(self).output() + cmds@,
            final(self).queued_reads == old(self).queued_reads,
            final(self).queued_read_state == old(self).queued_read_state,
            old(self).wf() ==> final(self).wf(),
    {
        let mut cmds = cmds;
        let mut r: Vec<u8> = Vec::new();
        if self.buffer.len() > MAX_BATCH || cmds.len() > MAX_BATCH - self.buffer.len() {
            r.append(&mut self.buffer);
        }
        self.buffer.append(&mut cmds);
        r
    }

    /// Clock out the TMS values of `tms` (non-zero is high) with TDI at `tdo`. Returns the
    /// commands to send first when the batch is full.
    pub fn change_mode(&mut self, tms: &[usize], tdo: bool) -> (r: Vec<u8>)
        requires
            old(self).wf(),
        ensures
            final(self).wf(),
            final(self).reads() == old(self).reads(),
            final(self).received() == old(self).received(),
            ({
                let cmds = tms_commands(tms@.map_values(|x: usize| x != 0), tdo);
                &&& old(self).output().len() + cmds.len() > MAX_BATCH ==> r@ == old(self).output()
                    && final(self).output() == cmds
                &&& old(self).output().len() + cmds.len() <= MAX_BATCH ==> r@ == Seq::<u8>::empty()
                    && final(self).output() == old(self).output() + cmds
            }),
    {
        let ghost bits = tms@.map_values(|x: usize| x != 0);
        let mut cmds: Vec<u8> = Vec::new();
        let mut start: usize = 0;
        assert(bits.skip(0) =~= bits);
        assert(tms_commands(bits, tdo) =~= cmds@ + tms_commands(bits.skip(0), tdo));
        while tms.len() - start >= 7
            invariant
                start <= tms@.len(),
                bits == tms@.map_values(|x: usize| x != 0),
                tms_commands(bits, tdo) == cmds@ + tms_commands(bits.skip(start as int), tdo),
            decreases tms@.len() - start,
        {
            let b = chunk(tms, start, 7);
            proof {
                let rest = bits.skip(start as int);
                assert(tms@.skip(start as int).map_values(|x: usize| x != 0) =~= rest);
                assert(rest.skip(7) =~= bits.skip(start + 7));
            }
            clock_tms_out(&mut cmds, b, tdo, 7);
            start += 7;
        }
        let n = tms.len() - start;
        let b = chunk(tms, start, n);
        proof {
            let rest = bits.skip(start as int);
            assert(tms@.skip(start as int).map_values(|x: usize| x != 0) =~= rest);
        }
        clock_tms_out(&mut cmds, b, tdo, n as u8);
        assert(tms_commands(bits, tdo) =~= cmds@);
        self.append(cmds)
    }

    /// The bytes of replies that the queued reads wait for.
    fn reply_total(&self) -> (r: usize)
        requires
            self.wf(),
        ensures
            r == reply_sum(self.reads()),
    {
        let mut total: usize = 0;
        let mut i: usize = 0;
        let n = self.queued_read_state.len();
        while i < n
            invariant
                i <= n == self.queued_read_state@.len(),
                self.wf(),
                total == reply_sum(self.queued_read_state@.take(i as int)),
            decreases n - i,
        {
            proof {
                assert(self.queued_read_state@.take(i + 1).drop_last() =~= self.queued_read_state@.take(
                    i as int,
                ));
                lemma_reply_sum_prefix(self.queued_read_state@, i as int + 1);
            }
            total = total + self.queued_read_state[i].1;
            i += 1;
        }
        assert(self.queued_read_state@.take(n as int) =~= self.queued_read_state@);
        total
    }

    /// The number of bytes of replies the queued reads wait for, to read back when the batch is
    /// sent.
    pub fn reply_len(&self) -> (r: usize)
        requires
            self.wf(),
        ensures
            r == reply_sum(self.reads()),
    {
        self.reply_total()
    }

    /// Write `data`, `bits` (1 to 8) of its last byte, discarding TDO. Returns the commands to
    /// send first when the batch is full.
    pub fn write_data(&mut self, data: &[u8], bits: u8, pause_after: bool) -> (r: Vec<u8>)
        requires
            old(self).wf(),
            data@.len() > 0,
            data@.len() <= 65537,
            1 <= bits <= 8,
        ensures
            final(self).wf(),
            final(self).reads() == old(self).reads(),
            final(self).received() == old(self).received(),
            ({
                let cmds = write_commands(data@, bits, pause_after);
                &&& old(self).output().len() + cmds.len() > MAX_BATCH ==> r@ == old(self).output()
                    && final(self).output() == cmds
                &&& old(self).output().len() + cmds.len() <= MAX_BATCH ==> r@ == Seq::<u8>::empty()
                    && final(self).output() == old(self).output() + cmds
            }),
    {
        let mut cmds: Vec<u8> = Vec::new();
        let n = data.len();
        let head = prefix(data, n - 1);
        clock_data_out(&mut cmds, head.as_slice());
        let last_byte = data[n - 1];
        let b = bits - 1;
        clock_bits_out(&mut cmds, last_byte, b);
        let last_bit = (last_byte >> b) & 1 == 1;
        if pause_after {
            clock_tms_out(&mut cmds, 1, last_bit, 2);
        } else {
            clock_tms_out(&mut cmds, 0, last_bit, 1);
        }
        assert(data@.subrange(0, n - 1) =~= data@.drop_last());
        assert(cmds@ =~= write_commands(data@, bits, pause_after));
        self.append(cmds)
    }

    /// Queue a read of `bits` bits. Returns whether it was queued, which it is unless the
    /// replies awaited would pass 4 KiB, and the commands to send first when the batch is full.
    pub fn queue_read(&mut self, bits: usize) -> (r: (bool, Vec<u8>))
        requires
            old(self).wf(),
            bits <= 8 * 65536,
        ensures
            final(self).wf(),
            final(self).received() == old(self).received(),
            ({
                let cmds = read_commands(bits as nat);
                let entry = (bits, bytes_for(bits as nat) as usize, bits / 8, bits % 8);
                let flushed = old(self).output().len() + cmds.len() > MAX_BATCH;
                &&& r.0 == (reply_sum(old(self).reads()) + entry.1 < MAX_BATCH)
                &&& flushed ==> r.1@ == old(self).output()
                &&& !flushed ==> r.1@ == Seq::<u8>::empty()
                &&& r.0 ==> final(self).reads() == old(self).reads().push(entry)
                    && final(self).output() == (if flushed { Seq::empty() } else { old(self).output() }) + cmds
                &&& !r.0 ==> final(self).reads() == old(self).reads()
                    && final(self).output() == if flushed { Seq::empty() } else { old(self).output() }
            }),
    {
        let whole = bits / 8;
        let rem = bits % 8;
        let mut cmds: Vec<u8> = Vec::new();
        let ones = filled_ff(whole);
        clock_data(&mut cmds, ones.as_slice());
        clock_bits(&mut cmds, 0xff, rem as u8);
        let bytes = if rem > 0 {
            whole + 1
        } else {
            whole
        };
        assert(cmds@ =~= read_commands(bits as nat));
        let total = self.reply_total();
        let mut flushed: Vec<u8> = Vec::new();
        if self.buffer.len() > MAX_BATCH || cmds.len() > MAX_BATCH - self.buffer.len() {
            flushed.append(&mut self.buffer);
        }
        if total + bytes < MAX_BATCH {
            let entry = (bits, bytes, whole, rem);
            self.queued_read_state.push(entry);
            self.buffer.append(&mut cmds);
            proof {
                assert(self.queued_read_state@.drop_last() =~= old(self).queued_read_state@);
                assert forall|i: int| 0 <= i < self.queued_read_state@.len() implies entry_ok(
                    #[trigger] self.queued_read_state@[i],
                ) by {
                    if i < old(self).queued_read_state@.len() {
                        assert(self.queued_read_state@[i] == old(self).queued_read_state@[i]);
                    }
                }
            }
            (true, flushed)
        } else {
            (false, flushed)
        }
    }

    /// Queue a read-write of `data`, `bits` (1 to 8) of its last byte: TDO is sampled for the
    /// same cycles, not for the extra cycle into the pause state. Returns whether it was
    /// queued, and the commands to send first when the batch is full.
    pub fn queue_read_write(&mut self, data: &[u8], bits: u8, pause_after: bool) -> (r: (bool, Vec<u8>))
        requires
            old(self).wf(),
            data@.len() > 0,
            data@.len() <= 65537,
            1 <= bits <= 8,
        ensures
            final(self).wf(),
            final(self).received() == old(self).received(),
            ({
                let cmds = read_write_commands(data@, bits, pause_after);
                let n = data@.len();
                let total = ((n - 1) * 8 + bits) as usize;
                let bytes = (n - 1) + (if bits > 1 { 1int } else { 0int }) + (if pause_after { 1int } else { 0int }) + 1;
                let entry = (total, bytes as usize, (n - 1) as usize, (bits - 1) as usize);
                let flushed = old(self).output().len() + cmds.len() > MAX_BATCH;
                &&& r.0 == (reply_sum(old(self).reads()) + bytes < MAX_BATCH)
                &&& flushed ==> r.1@ == old(self).output()
                &&& !flushed ==> r.1@ == Seq::<u8>::empty()
                &&& r.0 ==> final(self).reads() == old(self).reads().push(entry)
                    && final(self).output() == (if flushed { Seq::empty() } else { old(self).output() }) + cmds
                &&& !r.0 ==> final(self).reads() == old(self).reads()
                    && final(self).output() == if flushed { Seq::empty() } else { old(self).output() }
            }),
    {
        let n = data.len();
        let total_bits = (n - 1) * 8 + bits as usize;
        let mut read_bytes: usize = 1;
        let mut cmds: Vec<u8> = Vec::new();
        let b = bits - 1;
        let head = prefix(data, n - 1);
        clock_data(&mut cmds, head.as_slice());
        read_bytes = read_bytes + (n - 1);
        let last_byte = data[n - 1];
        clock_bits(&mut cmds, last_byte, b);
        if b >= 1 {
            read_bytes = read_bytes + 1;
        }
        let last_bit = (last_byte >> b) & 1 == 1;
        if pause_after {
            clock_tms(&mut cmds, 1, last_bit, 1);
            read_bytes = read_bytes + 1;
        }
        clock_tms(&mut cmds, 0, last_bit, 1);
        assert(data@.subrange(0, n - 1) =~= data@.drop_last());
        assert(cmds@ =~= read_write_commands(data@, bits, pause_after));
        let total = self.reply_total();
        let mut flushed: Vec<u8> = Vec::new();
        if self.buffer.len() > MAX_BATCH || cmds.len() > MAX_BATCH - self.buffer.len() {
            flushed.append(&mut self.buffer);
        }
        if total + read_bytes < MAX_BATCH {
            let entry = (total_bits, read_bytes, n - 1, b as usize);
            self.queued_read_state.push(entry);
            self.buffer.append(&mut cmds);
            proof {
                assert(self.queued_read_state@.drop_last() =~= old(self).queued_read_state@);
                assert forall|i: int| 0 <= i < self.queued_read_state@.len() implies entry_ok(
                    #[trigger] self.queued_read_state@[i],
                ) by {
                    if i < old(self).queued_read_state@.len() {
                        assert(self.queued_read_state@[i] == old(self).queued_read_state@[i]);
                    }
                }
            }
            (true, flushed)
        } else {
            (false, flushed)
        }
    }

    /// Take the commands waiting to be sent.
    pub fn take_output(&mut self) -> (r: Vec<u8>)
        requires
            old(self).wf(),
        ensures
            final(self).wf(),
            r@ == old(self).output(),
            final(self).output() == Seq::<u8>::empty(),
            final(self).received() == old(self).received(),
            final(self).reads() == old(self).reads(),
    {
        let mut out: Vec<u8> = Vec::new();
        out.append(&mut self.buffer);
        out
    }

    /// Whether the replies to the queued reads must be fetched before the oldest is finished:
    /// none is left from the last transfer.
    pub fn transfer_needed(&self) -> (r: bool)
        ensures
            r == (self.received().len() == 0),
    {
        self.queued_reads.len() == 0
    }

    /// Whether the oldest queued read is of `bits` bits and its reply has been received, as
    /// `finish_read` asks.
    pub fn can_finish(&self, bits: usize) -> (r: bool)
        ensures
            r == (self.reads().len() > 0 && self.reads()[0].0 == bits && self.reads()[0].1
                <= self.received().len()),
    {
        self.queued_read_state.len() > 0 && self.queued_read_state[0].0 == bits
            && self.queued_read_state[0].1 <= self.queued_reads.len()
    }

    /// Record bytes received from the adapter.
    pub fn accept_reply(&mut self, reply: &[u8])
        requires
            old(self).wf(),
        ensures
            final(self).wf(),
            final(self).received() == old(self).received() + reply@,
            final(self).output() == old(self).output(),
            final(self).reads() == old(self).reads(),
    {
        let mut i: usize = 0;
        let ghost before = self.queued_reads@;
        while i < reply.len()
            invariant
                i <= reply@.len(),
                self.queued_reads@ =~= before + reply@.take(i as int),
                self.buffer == old(self).buffer,
                self.queued_read_state == old(self).queued_read_state,
            decreases reply@.len() - i,
        {
            self.queued_reads.push(reply[i]);
            i += 1;
        }
        assert(reply@.take(reply@.len() as int) =~= reply@);
    }

    /// Return the result of the oldest queued read, of `bits` bits, from the bytes received:
    /// its samples packed LSB first.
    pub fn finish_read(&mut self, bits: usize) -> (r: Vec<u8>)
        requires
            old(self).wf(),
            old(self).reads().len() > 0,
            old(self).reads()[0].0 == bits,
            old(self).reads()[0].1 <= old(self).received().len(),
        ensures
            final(self).wf(),
            holds_bits(r@, bits as nat),
            bits_prefix(r@, bits as nat) == Seq::new(
                bits as nat,
                |i: int|
                    mpsse_bit(
                        old(self).received(),
                        old(self).reads()[0].2 as nat,
                        old(self).reads()[0].3 as nat,
                        i,
                    ),
            ),
            final(self).reads() == old(self).reads().drop_first(),
            final(self).received() == old(self).received().skip(old(self).reads()[0].1 as int),
            final(self).output() == old(self).output(),
    {
        let ghost q = self.queued_read_state@;
        let entry = self.queued_read_state.remove(0);
        proof {
            assert(entry_ok(q[0]));
            lemma_reply_sum_front(q);
            assert forall|i: int| 0 <= i < self.queued_read_state@.len() implies entry_ok(
                #[trigger] self.queued_read_state@[i],
            ) by {
                assert(self.queued_read_state@[i] == q[i + 1]);
            }
        }
        let nbits = entry.0;
        let bytes = entry.1;
        let full = entry.2;
        let part = entry.3;
        let mut out: Vec<u8> = Vec::new();
        let mut i: usize = 0;
        proof {
            assert(bits_prefix(out@, 0) =~= Seq::<bool>::empty());
        }
        while i < nbits
            invariant
                i <= nbits == bits,
                entry_ok(entry),
                nbits == entry.0 && bytes == entry.1 && full == entry.2 && part == entry.3,
                entry == q[0],
                bytes <= self.queued_reads@.len(),
                self.queued_reads@ == old(self).queued_reads@,
                holds_bits(out@, i as nat),
                bits_prefix(out@, i as nat) =~= Seq::new(
                    i as nat,
                    |k: int| mpsse_bit(self.queued_reads@, full as nat, part as nat, k),
                ),
            decreases nbits - i,
        {
            assert(i < 8 * full ==> i / 8 < full);
            let sample = if i < 8 * full {
                (self.queued_reads[i / 8] >> ((i % 8) as u8)) & 1 == 1
            } else if i < 8 * full + part {
                (self.queued_reads[full] >> ((8 - part + (i - 8 * full)) as u8)) & 1 == 1
            } else {
                let at = if part > 0 {
                    full + 1
                } else {
                    full
                };
                (self.queued_reads[at] >> 7u8) & 1 == 1
            };
            push_bit(&mut out, i, sample);
            i += 1;
        }
        let mut rest: Vec<u8> = Vec::new();
        let mut j: usize = bytes;
        while j < self.queued_reads.len()
            invariant
                bytes <= j <= self.queued_reads@.len(),
                rest@ =~= self.queued_reads@.subrange(bytes as int, j as int),
            decreases self.queued_reads@.len() - j,
        {
            rest.push(self.queued_reads[j]);
            j += 1;
        }
        self.queued_reads = rest;
        out
    }
}

} // verus!
