//! The command stream of a J-Link adapter: TAP sequences are batched into `0xCD` commands, and
//! the TDO bytes they bring back are cut into the results of the reads that were queued.
use vstd::prelude::*;

use crate::bits::{
    bit_of, bits_prefix, bytes_for, data_bits, holds_bits, lemma_set_bit, lemma_zero_bit, write_tdi,
    write_tms,
};

verus! {

/// Append bits `src_skip..src_bits` of `src` to the `dst_bits` bits held in `dst`.
pub fn bit_append(dst: &mut Vec<u8>, dst_bits: usize, src: &[u8], src_bits: usize, src_skip: usize)
    requires
        holds_bits(old(dst)@, dst_bits as nat),
        src_skip <= src_bits <= 8 * src@.len(),
        dst_bits + src_bits + 8 <= usize::MAX,
    ensures
        holds_bits(final(dst)@, (dst_bits + src_bits - src_skip) as nat),
        bits_prefix(final(dst)@, (dst_bits + src_bits - src_skip) as nat) == bits_prefix(
            old(dst)@,
            dst_bits as nat,
        ) + bits_prefix(src@, src_bits as nat).subrange(src_skip as int, src_bits as int),
{
    let ghost target = bits_prefix(old(dst)@, dst_bits as nat) + bits_prefix(
        src@,
        src_bits as nat,
    ).subrange(src_skip as int, src_bits as int);
    let ghost d0 = dst_bits;
    let mut n = dst_bits;
    let mut byte: u8 = if dst.len() > 0 && n % 8 != 0 {
        dst.pop().unwrap()
    } else {
        0
    };
    proof {
        assert forall|j: int| 0 <= j < 8 implies #[trigger] bit_of(byte, j) == if j < n % 8 {
            target[8 * (n / 8) + j]
        } else {
            false
        } by {
            if n % 8 != 0 {
                assert(old(dst)@[(8 * (n / 8) + j) / 8] == byte);
            } else {
                lemma_zero_bit(j as u8);
            }
        }
        assert forall|i: int| 0 <= i < 8 * (n / 8) implies bit_of(#[trigger] dst@[i / 8], i % 8)
            == target[i] by {
            assert(dst@[i / 8] == old(dst)@[i / 8]);
        }
    }
    let mut i = src_skip;
    while i < src_bits
        invariant
            src_skip <= i <= src_bits <= 8 * src@.len(),
            n == d0 + (i - src_skip),
            d0 + src_bits + 8 <= usize::MAX,
            target.len() == d0 + src_bits - src_skip,
            target == bits_prefix(old(dst)@, d0 as nat) + bits_prefix(
                src@,
                src_bits as nat,
            ).subrange(src_skip as int, src_bits as int),
            dst@.len() == n / 8,
            forall|k: int| 0 <= k < 8 * (n / 8) ==> bit_of(#[trigger] dst@[k / 8], k % 8) == target[k],
            forall|j: int|
                0 <= j < 8 ==> #[trigger] bit_of(byte, j) == if j < n % 8 {
                    target[8 * (n / 8) + j]
                } else {
                    false
                },
        decreases src_bits - i,
    {
        let set = (src[i / 8] >> ((i % 8) as u8)) & 1 == 1;
        let ghost prev = byte;
        if set {
            byte = byte | (1u8 << ((n % 8) as u8));
        }
        proof {
            assert(target[n as int] == bit_of(src@[i as int / 8], i as int % 8));
            assert forall|j: int| 0 <= j < 8 implies #[trigger] bit_of(byte, j) == if j < n % 8 + 1 {
                target[8 * (n / 8) + j]
            } else {
                false
            } by {
                if set {
                    lemma_set_bit(prev, (n % 8) as u8, j as u8);
                }
                assert(bit_of(prev, j) == if j < n % 8 {
                    target[8 * (n / 8) + j]
                } else {
                    false
                });
            }
        }
        n = n + 1;
        if n % 8 == 0 {
            let ghost before = dst@;
            let ghost full = byte;
            dst.push(byte);
            byte = 0;
            proof {
                assert forall|k: int| 0 <= k < 8 * (n / 8) implies bit_of(#[trigger] dst@[k / 8], k % 8)
                    == target[k] by {
                    if k < 8 * ((n - 1) / 8) {
                        assert(dst@[k / 8] == before[k / 8]);
                    } else {
                        assert(dst@[k / 8] == full);
                        assert(bit_of(full, k % 8) == target[8 * ((n - 1) / 8) + k % 8]);
                    }
                }
                assert forall|j: int| 0 <= j < 8 implies #[trigger] bit_of(byte, j) == if j < n % 8 {
                    target[8 * (n / 8) + j]
                } else {
                    false
                } by {
                    lemma_zero_bit(j as u8);
                }
            }
        }
        i = i + 1;
    }
    if n % 8 != 0 {
        let ghost before = dst@;
        dst.push(byte);
        proof {
            assert forall|k: int| 0 <= k < n implies bit_of(#[trigger] dst@[k / 8], k % 8) == target[k] by {
                if k < 8 * (n / 8) {
                    assert(dst@[k / 8] == before[k / 8]);
                } else {
                    assert(bit_of(byte, k % 8) == target[8 * (n / 8) + k % 8]);
                }
            }
            assert forall|k: int| n <= k < 8 * dst@.len() implies !bit_of(#[trigger] dst@[k / 8], k % 8) by {
                assert(bit_of(byte, k % 8) == false);
            }
        }
    }
    assert(bits_prefix(dst@, n as nat) =~= target);
}


/// Append one bit to the `n` bits held in `buf`.
pub(crate) fn push_bit(buf: &mut Vec<u8>, n: usize, bit: bool)
    requires
        holds_bits(old(buf)@, n as nat),
        n + 16 <= usize::MAX,
    ensures
        holds_bits(final(buf)@, n as nat + 1),
        bits_prefix(final(buf)@, n as nat + 1) == bits_prefix(old(buf)@, n as nat).push(bit),
{
    let one: [u8; 1] = [if bit {
        1
    } else {
        0
    }];
    bit_append(buf, n, &one, 1, 0);
    proof {
        assert((1u8 >> 0u8) & 1u8 == 1u8) by (bit_vector);
        assert((0u8 >> 0u8) & 1u8 != 1u8) by (bit_vector);
        assert(bits_prefix(one@, 1).subrange(0, 1) =~= seq![bit]);
        assert(bits_prefix(old(buf)@, n as nat) + seq![bit] =~= bits_prefix(old(buf)@, n as nat).push(bit));
    }
}

/// `n` bytes of `fill`.
fn filled(n: usize, fill: u8) -> (r: Vec<u8>)
    ensures
        r@ == Seq::new(n as nat, |i: int| fill),
{
    let mut r: Vec<u8> = Vec::new();
    let mut i: usize = 0;
    while i < n
        invariant
            i <= n,
            r@ =~= Seq::new(i as nat, |j: int| fill),
        decreases n - i,
    {
        r.push(fill);
        i += 1;
    }
    r
}

/// Whether the target voltage in an adapter status, bytes 0 and 1 in millivolts little endian,
/// is high enough (1.5 V) for the target to be powered and connected.
pub fn vref_ok(status: &[u8]) -> (r: bool)
    ensures
        r == (status@.len() >= 2 && status@[0] + 256 * status@[1] >= 1500),
{
    status.len() >= 2 && (status[0] as u32) + 256 * (status[1] as u32) >= 1500
}

/// The bytes of the `0x05` command's argument: `clock` hertz in kilohertz, low byte first
/// (the adapter takes 16 bits).
pub open spec fn clock_bytes(clock: u32) -> Seq<u8> {
    let k = clock / 1000;
    seq![(k % 256) as u8, ((k / 256) % 256) as u8]
}

/// The most TAP cycles that one `0xCD` command carries: its TMS and TDI parts must each stay
/// under 390 bytes.
pub const MAX_SEQUENCE_BITS: usize = 3112;

/// The bytes of a `0xCD` command that clocks `n` cycles with the TMS bits `tms` and the TDI
/// bits `tdi`: the opcode, `n` as two bytes little endian, then the two bit buffers.
pub open spec fn sequence_command(tms: Seq<u8>, tdi: Seq<u8>, n: nat) -> Seq<u8> {
    seq![0xcdu8, (n % 256) as u8, ((n / 256) % 256) as u8] + tms + tdi
}

/// The command stream of a J-Link adapter, with the reads whose results are still to come.
pub struct JLinkQueue {
    /// Bytes to send to the adapter.
    buffer: Vec<u8>,
    /// Bytes the adapter will send back for what was sent or queued.
    recv_bytes: usize,
    /// Bytes received from the adapter and not yet consumed.
    queued_reads: Vec<u8>,
    /// For each queued read, the offset in the received bytes of the command that holds it.
    queued_read_offsets: Vec<usize>,
    /// For each queued read, the number of cycles of that command before it.
    queued_send_bits: Vec<usize>,
    /// TMS bits of the TAP sequence being gathered.
    tms_buf: Vec<u8>,
    /// TDI bits of the TAP sequence being gathered.
    tdo_buf: Vec<u8>,
    /// Cycles in the TAP sequence being gathered.
    send_bits: usize,
}

impl JLinkQueue {
    /// The bytes waiting to be sent to the adapter.
    pub closed spec fn output(&self) -> Seq<u8> {
        self.buffer@
    }

    /// The number of bytes the adapter will send back for what was queued.
    pub closed spec fn awaited(&self) -> nat {
        self.recv_bytes as nat
    }

    /// The bytes received from the adapter and not yet consumed.
    pub closed spec fn received(&self) -> Seq<u8> {
        self.queued_reads@
    }

    /// The TMS bits of the TAP sequence being gathered.
    pub closed spec fn pending_tms(&self) -> Seq<bool> {
        bits_prefix(self.tms_buf@, self.send_bits as nat)
    }

    /// The TDI bits of the TAP sequence being gathered.
    pub closed spec fn pending_tdi(&self) -> Seq<bool> {
        bits_prefix(self.tdo_buf@, self.send_bits as nat)
    }

    /// The command that the TAP sequence being gathered becomes.
    pub closed spec fn pending_command(&self) -> Seq<u8> {
        if self.send_bits > 0 {
            sequence_command(self.tms_buf@, self.tdo_buf@, self.send_bits as nat)
        } else {
            Seq::empty()
        }
    }

    /// The reads queued and not yet finished: the offset of the command that holds each in
    /// the received bytes, and the cycles of that command before it.
    pub closed spec fn reads(&self) -> Seq<(usize, usize)> {
        Seq::new(
            self.queued_read_offsets@.len(),
            |i: int| (self.queued_read_offsets@[i], self.queued_send_bits@[i]),
        )
    }

    /// The queue's invariant.
    pub closed spec fn wf(&self) -> bool {
        &&& holds_bits(self.tms_buf@, self.send_bits as nat)
        &&& holds_bits(self.tdo_buf@, self.send_bits as nat)
        &&& self.send_bits <= MAX_SEQUENCE_BITS
        &&& self.queued_read_offsets@.len() == self.queued_send_bits@.len()
        &&& forall|i: int, j: int|
            #![trigger self.queued_read_offsets@[i], self.queued_read_offsets@[j]]
            0 <= i <= j < self.queued_read_offsets@.len() ==> self.queued_read_offsets@[i]
                <= self.queued_read_offsets@[j]
        &&& forall|i: int|
            0 <= i < self.queued_read_offsets@.len() ==> #[trigger] self.queued_read_offsets@[i]
                <= self.queued_reads@.len() + self.recv_bytes
    }

    /// The bytes received and awaited from the adapter.
    pub open spec fn backlog(&self) -> nat {
        self.received().len() + self.awaited()
    }

    /// What the output holds once room for `n` cycles is made.
    pub open spec fn output_with_room(&self, n: nat) -> Seq<u8> {
        if self.has_room(n) {
            self.output()
        } else {
            self.output() + self.pending_command()
        }
    }

    /// The bytes awaited once room for `n` cycles is made.
    pub open spec fn awaited_with_room(&self, n: nat) -> nat {
        if self.has_room(n) {
            self.awaited()
        } else {
            self.awaited() + bytes_for(self.pending_tms().len())
        }
    }

    /// The pending TMS bits once room for `n` cycles is made.
    pub open spec fn tms_with_room(&self, n: nat) -> Seq<bool> {
        if self.has_room(n) {
            self.pending_tms()
        } else {
            Seq::empty()
        }
    }

    /// The pending TDI bits once room for `n` cycles is made.
    pub open spec fn tdi_with_room(&self, n: nat) -> Seq<bool> {
        if self.has_room(n) {
            self.pending_tdi()
        } else {
            Seq::empty()
        }
    }

    /// The TAP sequence being gathered has room for `n` more cycles.
    pub open spec fn has_room(&self, n: nat) -> bool {
        self.pending_tms().len() + n <= MAX_SEQUENCE_BITS
    }

    /// An empty queue.
    pub fn new() -> (r: Self)
        ensures
            r.wf(),
            r.output() == Seq::<u8>::empty(),
            r.awaited() == 0,
            r.received() == Seq::<u8>::empty(),
            r.pending_tms() == Seq::<bool>::empty(),
            r.pending_tdi() == Seq::<bool>::empty(),
            r.reads() == Seq::<(usize, usize)>::empty(),
    {
        let r = JLinkQueue {
            buffer: Vec::new(),
            recv_bytes: 0,
            queued_reads: Vec::new(),
            queued_read_offsets: Vec::new(),
            queued_send_bits: Vec::new(),
            tms_buf: Vec::new(),
            tdo_buf: Vec::new(),
            send_bits: 0,
        };
        assert(r.pending_tms() =~= Seq::<bool>::empty());
        assert(r.pending_tdi() =~= Seq::<bool>::empty());
        assert(r.reads() =~= Seq::<(usize, usize)>::empty());
        r
    }

    /// Turn the TAP sequence being gathered into a `0xCD` command, whose TDO bytes the adapter
    /// will send back.
    pub fn flush_tap_sequence(&mut self)
        requires
            old(self).wf(),
            old(self).backlog() + MAX_SEQUENCE_BITS <= usize::MAX,
        ensures
            final(self).wf(),
            final(self).output() == old(self).output() + old(self).pending_command(),
            final(self).awaited() == old(self).awaited() + bytes_for(old(self).pending_tms().len()),
            final(self).pending_tms() == Seq::<bool>::empty(),
            final(self).pending_tdi() == Seq::<bool>::empty(),
            final(self).received() == old(self).received(),
            final(self).reads() == old(self).reads(),
    {
        if self.send_bits > 0 {
            let bytes = self.tms_buf.len();
            let mut cmdbuf: Vec<u8> = Vec::new();
            cmdbuf.push(0xcd);
            cmdbuf.push((self.send_bits % 256) as u8);
            cmdbuf.push(((self.send_bits / 256) % 256) as u8);
            cmdbuf.append(&mut self.tms_buf);
            cmdbuf.append(&mut self.tdo_buf);
            self.send_bits = 0;
            self.buffer.append(&mut cmdbuf);
            self.recv_bytes = self.recv_bytes + bytes;
        }

        assert(self.pending_tms() =~= Seq::<bool>::empty());
        assert(self.pending_tdi() =~= Seq::<bool>::empty());
        assert(self.output() =~= old(self).output() + old(self).pending_command());
    }

    /// Make room for `n` more cycles in the TAP sequence being gathered, sending it off as a
    /// command if it has not.
    fn make_room(&mut self, n: usize)
        requires
            old(self).wf(),
            old(self).backlog() + MAX_SEQUENCE_BITS <= usize::MAX,
            n <= MAX_SEQUENCE_BITS,
        ensures
            final(self).wf(),
            final(self).has_room(n as nat),
            old(self).has_room(n as nat) ==> *final(self) == *old(self),
            !old(self).has_room(n as nat) ==> {
                &&& final(self).output() == old(self).output() + old(self).pending_command()
                &&& final(self).awaited() == old(self).awaited() + bytes_for(
                    old(self).pending_tms().len(),
                )
                &&& final(self).pending_tms() == Seq::<bool>::empty()
                &&& final(self).pending_tdi() == Seq::<bool>::empty()
                &&& final(self).received() == old(self).received()
                &&& final(self).reads() == old(self).reads()
            },
    {
        if self.send_bits + n > MAX_SEQUENCE_BITS {
            self.flush_tap_sequence();
        }
    }

    /// Append `bits` cycles, with the TMS bits of `tms` and the TDI bits of `tdo`, to the TAP
    /// sequence being gathered.
    fn tap_sequence(&mut self, tms: &[u8], tdo: &[u8], bits: usize)
        requires
            old(self).wf(),
            bits <= 8 * tms@.len(),
            bits <= 8 * tdo@.len(),
            old(self).has_room(bits as nat),
        ensures
            final(self).wf(),
            final(self).output() == old(self).output(),
            final(self).awaited() == old(self).awaited(),
            final(self).received() == old(self).received(),
            final(self).reads() == old(self).reads(),
            final(self).pending_tms() == old(self).pending_tms() + bits_prefix(tms@, bits as nat),
            final(self).pending_tdi() == old(self).pending_tdi() + bits_prefix(tdo@, bits as nat),
    {
        bit_append(&mut self.tms_buf, self.send_bits, tms, bits, 0);
        bit_append(&mut self.tdo_buf, self.send_bits, tdo, bits, 0);
        self.send_bits = self.send_bits + bits;
        assert(bits_prefix(tms@, bits as nat).subrange(0, bits as int) =~= bits_prefix(tms@, bits as nat));
        assert(bits_prefix(tdo@, bits as nat).subrange(0, bits as int) =~= bits_prefix(tdo@, bits as nat));
    }

    /// Clock out the TMS values of `tms` (non-zero is high) with TDI held at `tdo`.
    pub fn change_mode(&mut self, tms: &[usize], tdo: bool)
        requires
            old(self).wf(),
            tms@.len() <= MAX_SEQUENCE_BITS,
            old(self).backlog() + MAX_SEQUENCE_BITS <= usize::MAX,
        ensures
            final(self).wf(),
            final(self).output() == old(self).output_with_room(tms@.len()),
            final(self).awaited() == old(self).awaited_with_room(tms@.len()),
            final(self).received() == old(self).received(),
            final(self).reads() == old(self).reads(),
            final(self).pending_tms() == old(self).tms_with_room(tms@.len()) + tms@.map_values(
                |x: usize| x != 0,
            ),
            final(self).pending_tdi() == old(self).tdi_with_room(tms@.len()) + Seq::new(
                tms@.len(),
                |i: int| tdo,
            ),
    {
        let n = tms.len();
        let mut buf: Vec<u8> = Vec::new();
        let mut i: usize = 0;
        while i < n
            invariant
                i <= n == tms@.len() <= MAX_SEQUENCE_BITS,
                holds_bits(buf@, i as nat),
                bits_prefix(buf@, i as nat) =~= tms@.take(i as int).map_values(|x: usize| x != 0),
            decreases n - i,
        {
            push_bit(&mut buf, i, tms[i] != 0);
            i += 1;
            assert(tms@.take(i as int).map_values(|x: usize| x != 0) =~= tms@.take(i - 1).map_values(
                |x: usize| x != 0,
            ).push(tms@[i - 1] != 0));
        }
        let fill: u8 = if tdo {
            0xff
        } else {
            0
        };
        let tdo_bytes = filled(buf.len(), fill);
        proof {
            assert forall|k: int| 0 <= k < n implies #[trigger] bits_prefix(tdo_bytes@, n as nat)[k]
                == tdo by {
                if tdo {
                    crate::bits::lemma_ff_bit((k % 8) as u8);
                } else {
                    lemma_zero_bit((k % 8) as u8);
                }
            }
            assert(bits_prefix(tdo_bytes@, n as nat) =~= Seq::new(n as nat, |k: int| tdo));
            assert(tms@.take(n as int) =~= tms@);
        }
        self.make_room(n);
        self.tap_sequence(buf.as_slice(), tdo_bytes.as_slice(), n);
    }

    /// Clock out the bits of `data` on TDI, `bits` (1 to 8) of its last byte, with TMS low; with
    /// `pause_after`, TMS is high on the last bit and one more cycle, TMS low and TDI high, takes
    /// the TAP from Exit1 to Pause.
    fn send_tdo(&mut self, data: &[u8], bits: u8, pause_after: bool)
        requires
            old(self).wf(),
            data@.len() > 0,
            1 <= bits <= 8,
            (data@.len() - 1) * 8 + bits + 1 <= MAX_SEQUENCE_BITS,
            old(self).backlog() + MAX_SEQUENCE_BITS <= usize::MAX,
        ensures
            final(self).wf(),
            final(self).output() == old(self).output_with_room(write_tdi(data@, bits, pause_after).len()),
            final(self).awaited() == old(self).awaited_with_room(write_tdi(data@, bits, pause_after).len()),
            final(self).received() == old(self).received(),
            final(self).reads() == old(self).reads(),
            final(self).pending_tms() == old(self).tms_with_room(write_tdi(data@, bits, pause_after).len())
                + write_tms(((data@.len() - 1) * 8 + bits) as nat, pause_after),
            final(self).pending_tdi() == old(self).tdi_with_room(write_tdi(data@, bits, pause_after).len())
                + write_tdi(data@, bits, pause_after),
    {
        let total = (data.len() - 1) * 8 + bits as usize;
        let n = if pause_after {
            total + 1
        } else {
            total
        };
        let mut tdi: Vec<u8> = Vec::new();
        bit_append(&mut tdi, 0, data, total, 0);
        let mut tms: Vec<u8> = Vec::new();
        let mut i: usize = 0;
        while i < total - 1
            invariant
                i <= total - 1,
                total <= MAX_SEQUENCE_BITS,
                holds_bits(tms@, i as nat),
                bits_prefix(tms@, i as nat) =~= Seq::new(i as nat, |k: int| false),
            decreases total - 1 - i,
        {
            push_bit(&mut tms, i, false);
            i += 1;
        }
        push_bit(&mut tms, total - 1, pause_after);
        proof {
            assert(bits_prefix(data@, total as nat).subrange(0, total as int) =~= data_bits(data@, bits));
            assert(bits_prefix(Seq::<u8>::empty(), 0) =~= Seq::<bool>::empty());
        }
        if pause_after {
            push_bit(&mut tdi, total, true);
            push_bit(&mut tms, total, false);
        }
        proof {
            assert(bits_prefix(tdi@, n as nat) =~= write_tdi(data@, bits, pause_after));
            assert(bits_prefix(tms@, n as nat) =~= write_tms(total as nat, pause_after));
        }
        self.make_room(n);
        self.tap_sequence(tms.as_slice(), tdi.as_slice(), n);
    }

    /// Clock out `data` as `send_tdo` does, discarding TDO.
    pub fn write_data(&mut self, data: &[u8], bits: u8, pause_after: bool)
        requires
            old(self).wf(),
            data@.len() > 0,
            1 <= bits <= 8,
            (data@.len() - 1) * 8 + bits + 1 <= MAX_SEQUENCE_BITS,
            old(self).backlog() + MAX_SEQUENCE_BITS <= usize::MAX,
        ensures
            final(self).wf(),
            final(self).output() == old(self).output_with_room(write_tdi(data@, bits, pause_after).len()),
            final(self).awaited() == old(self).awaited_with_room(write_tdi(data@, bits, pause_after).len()),
            final(self).received() == old(self).received(),
            final(self).reads() == old(self).reads(),
            final(self).pending_tms() == old(self).tms_with_room(write_tdi(data@, bits, pause_after).len())
                + write_tms(((data@.len() - 1) * 8 + bits) as nat, pause_after),
            final(self).pending_tdi() == old(self).tdi_with_room(write_tdi(data@, bits, pause_after).len())
                + write_tdi(data@, bits, pause_after),
    {
        self.send_tdo(data, bits, pause_after);
    }

    /// Clock out `data` as `send_tdo` does, and queue the read of the TDO bits of the same
    /// cycles (not of the extra pause cycle). Always accepted.
    pub fn queue_read_write(&mut self, data: &[u8], bits: u8, pause_after: bool) -> (r: bool)
        requires
            old(self).wf(),
            data@.len() > 0,
            1 <= bits <= 8,
            (data@.len() - 1) * 8 + bits + 1 <= MAX_SEQUENCE_BITS,
            old(self).backlog() + 2 * MAX_SEQUENCE_BITS <= usize::MAX,
        ensures
            r,
            final(self).wf(),
            final(self).output() == old(self).output_with_room(write_tdi(data@, bits, pause_after).len()),
            final(self).awaited() == old(self).awaited_with_room(write_tdi(data@, bits, pause_after).len()),
            final(self).received() == old(self).received(),
            final(self).reads() == old(self).reads().push(
                (
                    (old(self).received().len() + old(self).awaited_with_room(
                        write_tdi(data@, bits, pause_after).len(),
                    )) as usize,
                    old(self).tms_with_room(write_tdi(data@, bits, pause_after).len()).len() as usize,
                ),
            ),
            final(self).pending_tms() == old(self).tms_with_room(write_tdi(data@, bits, pause_after).len())
                + write_tms(((data@.len() - 1) * 8 + bits) as nat, pause_after),
            final(self).pending_tdi() == old(self).tdi_with_room(write_tdi(data@, bits, pause_after).len())
                + write_tdi(data@, bits, pause_after),
    {
        let total = (data.len() - 1) * 8 + bits as usize;
        let n = if pause_after {
            total + 1
        } else {
            total
        };
        self.make_room(n);
        self.queued_read_offsets.push(self.queued_reads.len() + self.recv_bytes);
        self.queued_send_bits.push(self.send_bits);
        self.send_tdo(data, bits, pause_after);
        assert(self.reads() =~= old(self).reads().push(
            (
                (old(self).received().len() + old(self).awaited_with_room(n as nat)) as usize,
                old(self).tms_with_room(n as nat).len() as usize,
            ),
        ));
        true
    }

    /// Queue a read of `bits` bits: ones are clocked out on TDI with TMS low. Always accepted.
    pub fn queue_read(&mut self, bits: usize) -> (r: bool)
        requires
            old(self).wf(),
            bits + 1 <= MAX_SEQUENCE_BITS,
            old(self).backlog() + 2 * MAX_SEQUENCE_BITS <= usize::MAX,
        ensures
            r,
            final(self).wf(),
            final(self).output() == old(self).output_with_room(bits as nat),
            final(self).awaited() == old(self).awaited_with_room(bits as nat),
            final(self).received() == old(self).received(),
            final(self).reads() == old(self).reads().push(
                (
                    (old(self).received().len() + old(self).awaited_with_room(bits as nat)) as usize,
                    old(self).tms_with_room(bits as nat).len() as usize,
                ),
            ),
            final(self).pending_tms() == old(self).tms_with_room(bits as nat) + Seq::new(
                bits as nat,
                |i: int| false,
            ),
            final(self).pending_tdi() == old(self).tdi_with_room(bits as nat) + Seq::new(
                bits as nat,
                |i: int| true,
            ),
    {
        if bits == 0 {
            self.queued_read_offsets.push(self.queued_reads.len() + self.recv_bytes);
            self.queued_send_bits.push(self.send_bits);
            proof {
                assert(self.reads() =~= old(self).reads().push(
                    (
                        (old(self).received().len() + old(self).awaited()) as usize,
                        old(self).pending_tms().len() as usize,
                    ),
                ));
                assert(self.pending_tms() =~= self.pending_tms() + Seq::<bool>::empty());
                assert(self.pending_tdi() =~= self.pending_tdi() + Seq::<bool>::empty());
            }
            return true;
        }
        let bytes = (bits + 7) / 8;
        let buf = filled(bytes, 0xff);
        let last: u8 = if bits % 8 == 0 {
            8
        } else {
            (bits % 8) as u8
        };
        proof {
            assert forall|k: int| 0 <= k < bits implies #[trigger] data_bits(buf@, last)[k] by {
                crate::bits::lemma_ff_bit((k % 8) as u8);
            }
            assert(data_bits(buf@, last) =~= Seq::new(bits as nat, |i: int| true));
            assert(write_tms(bits as nat, false) =~= Seq::new(bits as nat, |i: int| false));
        }
        self.queue_read_write(buf.as_slice(), last, false)
    }

    /// Whether the reply holding the oldest queued read, of `bits` bits, has been received, as
    /// `finish_read` asks.
    pub fn can_finish(&self, bits: usize) -> (r: bool)
        requires
            self.wf(),
        ensures
            r == (self.reads().len() > 0 && self.reads()[0].0 + bytes_for(
                (self.reads()[0].1 + bits) as nat,
            ) <= self.received().len() && self.reads()[0].1 + bits + 16 <= usize::MAX),
    {
        if self.queued_read_offsets.len() == 0 {
            return false;
        }
        let off = self.queued_read_offsets[0];
        let skip = self.queued_send_bits[0];
        if skip > usize::MAX - 16 || bits > usize::MAX - 16 - skip {
            return false;
        }
        let need = (skip + bits + 7) / 8;
        off <= self.queued_reads.len() && need <= self.queued_reads.len() - off
    }

    /// Collect the result of the oldest queued read, of `bits` bits, from the bytes received.
    pub fn finish_read(&mut self, bits: usize) -> (r: Vec<u8>)
        requires
            old(self).wf(),
            old(self).reads().len() > 0,
            old(self).reads()[0].0 + bytes_for((old(self).reads()[0].1 + bits) as nat)
                <= old(self).received().len(),
            old(self).reads()[0].1 + bits + 16 <= usize::MAX,
        ensures
            final(self).wf(),
            holds_bits(r@, bits as nat),
            bits_prefix(r@, bits as nat) == bits_prefix(
                old(self).received().skip(old(self).reads()[0].0 as int),
                (old(self).reads()[0].1 + bits) as nat,
            ).subrange(old(self).reads()[0].1 as int, old(self).reads()[0].1 + bits as int),
            final(self).reads() == Seq::new(
                (old(self).reads().len() - 1) as nat,
                |i: int|
                    (
                        (old(self).reads()[i + 1].0 - old(self).reads()[0].0) as usize,
                        old(self).reads()[i + 1].1,
                    ),
            ),
            final(self).received() == if old(self).reads().len() == 1 {
                Seq::<u8>::empty()
            } else {
                old(self).received().skip(old(self).reads()[0].0 as int)
            },
            final(self).output() == old(self).output(),
            final(self).awaited() == old(self).awaited(),
            final(self).pending_tms() == old(self).pending_tms(),
            final(self).pending_tdi() == old(self).pending_tdi(),
    {
        let ghost offs = self.queued_read_offsets@;
        assert(old(self).reads()[0].0 == offs[0]);
        let off = self.queued_read_offsets.remove(0);
        let skip = self.queued_send_bits.remove(0);
        proof {
            assert(offs[0] <= offs[0]);
        }
        let mut i: usize = 0;
        while i < self.queued_read_offsets.len()
            invariant
                0 <= i <= self.queued_read_offsets@.len() == offs.len() - 1,
                off == offs[0],
                self.queued_reads == old(self).queued_reads,
                self.recv_bytes == old(self).recv_bytes,
                self.buffer == old(self).buffer,
                self.tms_buf == old(self).tms_buf,
                self.tdo_buf == old(self).tdo_buf,
                self.send_bits == old(self).send_bits,
                self.queued_send_bits@ == old(self).queued_send_bits@.drop_first(),
                skip == old(self).queued_send_bits@[0],
                forall|a: int, b: int|
                    #![trigger offs[a], offs[b]]
                    0 <= a <= b < offs.len() ==> offs[a] <= offs[b],
                forall|k: int|
                    0 <= k < i ==> #[trigger] self.queued_read_offsets@[k] == offs[k + 1] - off,
                forall|k: int|
                    i <= k < self.queued_read_offsets@.len() ==> #[trigger] self.queued_read_offsets@[k]
                        == offs[k + 1],
            decreases self.queued_read_offsets@.len() - i,
        {
            let v = self.queued_read_offsets[i];
            assert(offs[0] <= offs[i + 1]);
            self.queued_read_offsets.set(i, v - off);
            i += 1;
        }
        let mut rest: Vec<u8> = Vec::new();
        let mut j: usize = off;
        while j < self.queued_reads.len()
            invariant
                off <= j <= self.queued_reads@.len(),
                rest@ =~= self.queued_reads@.subrange(off as int, j as int),
            decreases self.queued_reads@.len() - j,
        {
            rest.push(self.queued_reads[j]);
            j += 1;
        }
        self.queued_reads = rest;
        let mut data: Vec<u8> = Vec::new();
        proof {
            assert(holds_bits(data@, 0));
        }
        bit_append(&mut data, 0, self.queued_reads.as_slice(), skip + bits, skip);
        if self.queued_send_bits.len() == 0 {
            self.queued_reads = Vec::new();
        }
        proof {
            assert(bits_prefix(Seq::<u8>::empty(), 0) =~= Seq::<bool>::empty());
            assert(self.reads() =~= Seq::new(
                (old(self).reads().len() - 1) as nat,
                |i: int|
                    (
                        (old(self).reads()[i + 1].0 - old(self).reads()[0].0) as usize,
                        old(self).reads()[i + 1].1,
                    ),
            ));
            assert forall|a: int, b: int|
                #![trigger self.queued_read_offsets@[a], self.queued_read_offsets@[b]]
                0 <= a <= b < self.queued_read_offsets@.len() implies self.queued_read_offsets@[a]
                <= self.queued_read_offsets@[b] by {
                assert(offs[a + 1] <= offs[b + 1]);
            }
            assert forall|a: int| 0 <= a < self.queued_read_offsets@.len() implies #[trigger] self.queued_read_offsets@[a]
                <= self.queued_reads@.len() + self.recv_bytes by {
                assert(offs[a + 1] <= old(self).queued_reads@.len() + old(self).recv_bytes);
            }
        }
        data
    }

    /// Take the bytes ready to be sent to the adapter, the TAP sequence being gathered included.
    pub fn take_output(&mut self) -> (r: Vec<u8>)
        requires
            old(self).wf(),
            old(self).backlog() + MAX_SEQUENCE_BITS <= usize::MAX,
        ensures
            final(self).wf(),
            r@ == old(self).output() + old(self).pending_command(),
            final(self).output() == Seq::<u8>::empty(),
            final(self).awaited() == old(self).awaited() + bytes_for(old(self).pending_tms().len()),
            final(self).pending_tms() == Seq::<bool>::empty(),
            final(self).pending_tdi() == Seq::<bool>::empty(),
            final(self).received() == old(self).received(),
            final(self).reads() == old(self).reads(),
    {
        self.flush_tap_sequence();
        let mut out: Vec<u8> = Vec::new();
        out.append(&mut self.buffer);
        out
    }

    /// The number of bytes the adapter still has to send back.
    pub fn pending_reply(&self) -> (r: usize)
        ensures
            r == self.awaited(),
    {
        self.recv_bytes
    }

    /// Record bytes received from the adapter.
    pub fn accept_reply(&mut self, reply: &[u8])
        requires
            old(self).wf(),
            reply@.len() <= old(self).awaited(),
        ensures
            final(self).wf(),
            final(self).received() == old(self).received() + reply@,
            final(self).awaited() == old(self).awaited() - reply@.len(),
            final(self).output() == old(self).output(),
            final(self).pending_tms() == old(self).pending_tms(),
            final(self).pending_tdi() == old(self).pending_tdi(),
            final(self).reads() == old(self).reads(),
    {
        let mut i: usize = 0;
        let ghost before = self.queued_reads@;
        while i < reply.len()
            invariant
                i <= reply@.len(),
                self.queued_reads@ =~= before + reply@.take(i as int),
                self.recv_bytes == old(self).recv_bytes,
                self.buffer == old(self).buffer,
                self.tms_buf == old(self).tms_buf,
                self.tdo_buf == old(self).tdo_buf,
                self.send_bits == old(self).send_bits,
                self.queued_read_offsets == old(self).queued_read_offsets,
                self.queued_send_bits == old(self).queued_send_bits,
            decreases reply@.len() - i,
        {
            self.queued_reads.push(reply[i]);
            i += 1;
        }
        self.recv_bytes = self.recv_bytes - reply.len();
        assert(reply@.take(reply@.len() as int) =~= reply@);
    }

    /// Queue the command `cmd` with its argument bytes `data`, after the TAP sequence being
    /// gathered.
    fn send_command(&mut self, cmd: u8, data: &[u8])
        requires
            old(self).wf(),
            old(self).backlog() + MAX_SEQUENCE_BITS <= usize::MAX,
        ensures
            final(self).wf(),
            final(self).output() == old(self).output() + old(self).pending_command() + seq![cmd]
                + data@,
            final(self).awaited() == old(self).awaited() + bytes_for(old(self).pending_tms().len()),
            final(self).pending_tms() == Seq::<bool>::empty(),
            final(self).pending_tdi() == Seq::<bool>::empty(),
            final(self).received() == old(self).received(),
            final(self).reads() == old(self).reads(),
    {
        self.flush_tap_sequence();
        let ghost mid = self.buffer@;
        self.buffer.push(cmd);
        let ghost q = *self;
        let mut i: usize = 0;
        while i < data.len()
            invariant
                i <= data@.len(),
                self.recv_bytes == q.recv_bytes,
                self.queued_reads == q.queued_reads,
                self.tms_buf == q.tms_buf,
                self.tdo_buf == q.tdo_buf,
                self.send_bits == q.send_bits,
                self.queued_read_offsets == q.queued_read_offsets,
                self.queued_send_bits == q.queued_send_bits,
                self.buffer@ =~= mid + seq![cmd] + data@.take(i as int),
            decreases data@.len() - i,
        {
            self.buffer.push(data[i]);
            i += 1;
        }
        assert(data@.take(data@.len() as int) =~= data@);
    }

    /// Queue a command whose reply of `len` bytes the caller collects with `take_reply`.
    fn expect_reply(&mut self, len: usize)
        requires
            old(self).wf(),
            old(self).backlog() + len + MAX_SEQUENCE_BITS <= usize::MAX,
        ensures
            final(self).wf(),
            final(self).awaited() == old(self).awaited() + len,
            final(self).output() == old(self).output(),
            final(self).pending_tms() == old(self).pending_tms(),
            final(self).pending_tdi() == old(self).pending_tdi(),
            final(self).received() == old(self).received(),
            final(self).reads() == old(self).reads(),
    {
        self.recv_bytes = self.recv_bytes + len;
    }

    /// Take the last `len` bytes received, the reply to a command; the bytes received before
    /// them, answers to TAP sequences whose results were not asked for, are dropped.
    pub fn take_reply(&mut self, len: usize) -> (r: Vec<u8>)
        requires
            old(self).wf(),
            old(self).reads().len() == 0,
            len <= old(self).received().len(),
        ensures
            final(self).wf(),
            r@ == old(self).received().skip(old(self).received().len() - len),
            final(self).received() == Seq::<u8>::empty(),
            final(self).awaited() == old(self).awaited(),
            final(self).output() == old(self).output(),
            final(self).pending_tms() == old(self).pending_tms(),
            final(self).pending_tdi() == old(self).pending_tdi(),
            final(self).reads() == old(self).reads(),
    {
        let start = self.queued_reads.len() - len;
        let mut r: Vec<u8> = Vec::new();
        let mut j: usize = start;
        while j < self.queued_reads.len()
            invariant
                start <= j <= self.queued_reads@.len(),
                r@ =~= self.queued_reads@.subrange(start as int, j as int),
            decreases self.queued_reads@.len() - j,
        {
            r.push(self.queued_reads[j]);
            j += 1;
        }
        self.queued_reads = Vec::new();
        r
    }

    /// Ask for the adapter's status: 8 bytes come back.
    pub fn get_status(&mut self)
        requires
            old(self).wf(),
            old(self).backlog() + 2 * MAX_SEQUENCE_BITS <= usize::MAX,
        ensures
            final(self).wf(),
            final(self).output() == old(self).output() + old(self).pending_command() + seq![0x07u8],
            final(self).awaited() == old(self).awaited() + bytes_for(old(self).pending_tms().len()) + 8,
            final(self).pending_tms() == Seq::<bool>::empty(),
            final(self).pending_tdi() == Seq::<bool>::empty(),
            final(self).received() == old(self).received(),
            final(self).reads() == old(self).reads(),
    {
        self.send_command(0x07, &[]);
        assert(old(self).output() + old(self).pending_command() + seq![0x07u8] + Seq::<u8>::empty()
            =~= old(self).output() + old(self).pending_command() + seq![0x07u8]);
        self.expect_reply(8);
    }

    /// Set the TCK frequency to `clock` hertz.
    pub fn set_clock(&mut self, clock: u32)
        requires
            old(self).wf(),
            old(self).backlog() + MAX_SEQUENCE_BITS <= usize::MAX,
        ensures
            final(self).wf(),
            final(self).output() == old(self).output() + old(self).pending_command() + seq![0x05u8]
                + clock_bytes(clock),
            final(self).awaited() == old(self).awaited() + bytes_for(old(self).pending_tms().len()),
            final(self).pending_tms() == Seq::<bool>::empty(),
            final(self).pending_tdi() == Seq::<bool>::empty(),
            final(self).received() == old(self).received(),
            final(self).reads() == old(self).reads(),
    {
        let k = clock / 1000;
        let buf: [u8; 2] = [(k % 256) as u8, ((k / 256) % 256) as u8];
        assert(buf@ =~= clock_bytes(clock));
        self.send_command(0x05, &buf);
    }

    /// Select the interface `intf` (0 for JTAG): 4 bytes come back.
    pub fn set_interface(&mut self, intf: u8)
        requires
            old(self).wf(),
            old(self).backlog() + 2 * MAX_SEQUENCE_BITS <= usize::MAX,
        ensures
            final(self).wf(),
            final(self).output() == old(self).output() + old(self).pending_command() + seq![0xc7u8, intf],
            final(self).awaited() == old(self).awaited() + bytes_for(old(self).pending_tms().len()) + 4,
            final(self).pending_tms() == Seq::<bool>::empty(),
            final(self).pending_tdi() == Seq::<bool>::empty(),
            final(self).received() == old(self).received(),
            final(self).reads() == old(self).reads(),
    {
        let buf: [u8; 1] = [intf];
        self.send_command(0xc7, &buf);
        assert(old(self).output() + old(self).pending_command() + seq![0xc7u8] + buf@ =~= old(
            self,
        ).output() + old(self).pending_command() + seq![0xc7u8, intf]);
        self.expect_reply(4);
    }

    /// Queue a command without argument or reply.
    fn simple_command(&mut self, cmd: u8)
        requires
            old(self).wf(),
            old(self).backlog() + MAX_SEQUENCE_BITS <= usize::MAX,
        ensures
            final(self).wf(),
            final(self).output() == old(self).output() + old(self).pending_command() + seq![cmd],
            final(self).awaited() == old(self).awaited() + bytes_for(old(self).pending_tms().len()),
            final(self).pending_tms() == Seq::<bool>::empty(),
            final(self).pending_tdi() == Seq::<bool>::empty(),
            final(self).received() == old(self).received(),
            final(self).reads() == old(self).reads(),
    {
        self.send_command(cmd, &[]);
        assert(old(self).output() + old(self).pending_command() + seq![cmd] + Seq::<u8>::empty()
            =~= old(self).output() + old(self).pending_command() + seq![cmd]);
    }

    /// Put the target in reset (SRST low).
    pub fn assert_srst(&mut self)
        requires
            old(self).wf(),
            old(self).backlog() + MAX_SEQUENCE_BITS <= usize::MAX,
        ensures
            final(self).wf(),
            final(self).output() == old(self).output() + old(self).pending_command() + seq![0xdcu8],
            final(self).awaited() == old(self).awaited() + bytes_for(old(self).pending_tms().len()),
            final(self).pending_tms() == Seq::<bool>::empty(),
            final(self).pending_tdi() == Seq::<bool>::empty(),
            final(self).received() == old(self).received(),
            final(self).reads() == old(self).reads(),
    {
        self.simple_command(0xdc);
    }

    /// Take the target out of reset (SRST high).
    pub fn deassert_srst(&mut self)
        requires
            old(self).wf(),
            old(self).backlog() + MAX_SEQUENCE_BITS <= usize::MAX,
        ensures
            final(self).wf(),
            final(self).output() == old(self).output() + old(self).pending_command() + seq![0xddu8],
            final(self).awaited() == old(self).awaited() + bytes_for(old(self).pending_tms().len()),
            final(self).pending_tms() == Seq::<bool>::empty(),
            final(self).pending_tdi() == Seq::<bool>::empty(),
            final(self).received() == old(self).received(),
            final(self).reads() == old(self).reads(),
    {
        self.simple_command(0xdd);
    }

    /// Put the TAPs in reset (TRST low).
    pub fn assert_trst(&mut self)
        requires
            old(self).wf(),
            old(self).backlog() + MAX_SEQUENCE_BITS <= usize::MAX,
        ensures
            final(self).wf(),
            final(self).output() == old(self).output() + old(self).pending_command() + seq![0xdeu8],
            final(self).awaited() == old(self).awaited() + bytes_for(old(self).pending_tms().len()),
            final(self).pending_tms() == Seq::<bool>::empty(),
            final(self).pending_tdi() == Seq::<bool>::empty(),
            final(self).received() == old(self).received(),
            final(self).reads() == old(self).reads(),
    {
        self.simple_command(0xde);
    }

    /// Take the TAPs out of reset (TRST high).
    pub fn deassert_trst(&mut self)
        requires
            old(self).wf(),
            old(self).backlog() + MAX_SEQUENCE_BITS <= usize::MAX,
        ensures
            final(self).wf(),
            final(self).output() == old(self).output() + old(self).pending_command() + seq![0xdfu8],
            final(self).awaited() == old(self).awaited() + bytes_for(old(self).pending_tms().len()),
            final(self).pending_tms() == Seq::<bool>::empty(),
            final(self).pending_tdi() == Seq::<bool>::empty(),
            final(self).received() == old(self).received(),
            final(self).reads() == old(self).reads(),
    {
        self.simple_command(0xdf);
    }
}

} // verus!
