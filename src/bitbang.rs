//! Bit-banged adapters, which set the JTAG lines one clock cycle at a time: each cycle is two
//! bytes of pin levels, TCK low then TCK high. The FT232R returns the pins sampled for every
//! byte written; the USB Blaster returns them only for bytes with the read flag.
use vstd::prelude::*;

use crate::bits::{bit_of, bits_prefix, data_bits, holds_bits, write_tdi, write_tms};
use crate::jlink::{bit_append, push_bit};

verus! {

/// The flag that asks a USB Blaster to send back the pins sampled on that byte.
pub const READ_CMD: u8 = 64;

/// The bit positions of the JTAG lines in a byte of pin levels.
#[derive(Clone, Copy, PartialEq, Eq, Structural, Debug)]
pub struct Pins {
    /// The input that TDO is sampled on.
    pub tdi: u8,
    /// The output that drives the target's TDI.
    pub tdo: u8,
    pub tms: u8,
    pub clk: u8,
}

/// The byte with only bit `at` set when `b`, else 0.
pub open spec fn pin(b: bool, at: u8) -> u8 {
    if b {
        (1u8 << at) as u8
    } else {
        0
    }
}

/// The pin levels that put `tms` on TMS and `tdi` on the target's TDI, with TCK low.
pub open spec fn level(p: Pins, tms: bool, tdi: bool) -> u8 {
    pin(tms, p.tms) | pin(tdi, p.tdo)
}

/// The bytes that clock the cycles whose TMS and TDI values are `tms` and `tdi`: each cycle
/// is its levels with TCK low, then with TCK high and, when `read`, the read flag.
pub open spec fn cycle_bytes(p: Pins, tms: Seq<bool>, tdi: Seq<bool>, read: bool) -> Seq<u8> {
    Seq::new(
        2 * tms.len(),
        |i: int|
            if i % 2 == 0 {
                level(p, tms[i / 2], tdi[i / 2])
            } else {
                level(p, tms[i / 2], tdi[i / 2]) | pin(true, p.clk) | if read {
                    READ_CMD
                } else {
                    0
                }
            },
    )
}

impl Pins {
    /// All four lines are bits of a byte.
    pub open spec fn valid(&self) -> bool {
        self.tdi < 8 && self.tdo < 8 && self.tms < 8 && self.clk < 8
    }

    /// The bytes that clock the cycles `tms` / `tdi`.
    fn encode(&self, tms: &Vec<bool>, tdi: &Vec<bool>, read: bool) -> (r: Vec<u8>)
        requires
            self.valid(),
            tms@.len() == tdi@.len(),
            2 * tms@.len() <= usize::MAX,
        ensures
            r@ == cycle_bytes(*self, tms@, tdi@, read),
    {
        let mut r: Vec<u8> = Vec::new();
        let mut i: usize = 0;
        while i < tms.len()
            invariant
                i <= tms@.len() == tdi@.len(),
                2 * tms@.len() <= usize::MAX,
                self.valid(),
                r@ =~= cycle_bytes(*self, tms@, tdi@, read).take(2 * i as int),
            decreases tms@.len() - i,
        {
            let t: u8 = if tms[i] {
                1u8 << self.tms
            } else {
                0
            };
            let d: u8 = if tdi[i] {
                1u8 << self.tdo
            } else {
                0
            };
            let flag: u8 = if read {
                READ_CMD
            } else {
                0
            };
            r.push(t | d);
            r.push(t | d | (1u8 << self.clk) | flag);
            i += 1;
        }
        assert(cycle_bytes(*self, tms@, tdi@, read).take(2 * tms@.len() as int) =~= cycle_bytes(
            *self,
            tms@,
            tdi@,
            read,
        ));
        r
    }

    /// The bytes that clock the TMS values `tms` (non-zero is high) with TDI held at `tdo`.
    pub fn mode_bytes(&self, tms: &[usize], tdo: bool) -> (r: Vec<u8>)
        requires
            self.valid(),
            2 * tms@.len() <= usize::MAX,
        ensures
            r@ == cycle_bytes(
                *self,
                tms@.map_values(|x: usize| x != 0),
                Seq::new(tms@.len(), |i: int| tdo),
                false,
            ),
    {
        let mut t: Vec<bool> = Vec::new();
        let mut d: Vec<bool> = Vec::new();
        let mut i: usize = 0;
        while i < tms.len()
            invariant
                i <= tms@.len(),
                t@ =~= tms@.take(i as int).map_values(|x: usize| x != 0),
                d@ =~= Seq::new(i as nat, |k: int| tdo),
            decreases tms@.len() - i,
        {
            t.push(tms[i] != 0);
            d.push(tdo);
            i += 1;
        }
        assert(tms@.take(tms@.len() as int) =~= tms@);
        self.encode(&t, &d, false)
    }

    /// The bytes that clock `bits` cycles with TMS low and TDI high, asking for TDO when
    /// `read`.
    pub fn read_bytes(&self, bits: usize, read: bool) -> (r: Vec<u8>)
        requires
            self.valid(),
            2 * bits <= usize::MAX,
        ensures
            r@ == cycle_bytes(
                *self,
                Seq::new(bits as nat, |i: int| false),
                Seq::new(bits as nat, |i: int| true),
                read,
            ),
    {
        let mut t: Vec<bool> = Vec::new();
        let mut d: Vec<bool> = Vec::new();
        let mut i: usize = 0;
        while i < bits
            invariant
                i <= bits,
                t@ =~= Seq::new(i as nat, |k: int| false),
                d@ =~= Seq::new(i as nat, |k: int| true),
            decreases bits - i,
        {
            t.push(false);
            d.push(true);
            i += 1;
        }
        self.encode(&t, &d, read)
    }

    /// The bytes that clock the bits of `data` (`bits`, 1 to 8, of its last byte) out on TDI,
    /// asking for TDO when `read`. With `pause_after`, TMS is high on the last bit and one more
    /// cycle, TMS low, takes the TAP from Exit1 to Pause.
    pub fn write_bytes(&self, data: &[u8], bits: u8, pause_after: bool, read: bool) -> (r: Vec<u8>)
        requires
            self.valid(),
            data@.len() > 0,
            1 <= bits <= 8,
            2 * (data@.len() * 8 + 1) <= usize::MAX,
        ensures
            r@ == cycle_bytes(
                *self,
                write_tms(((data@.len() - 1) * 8 + bits) as nat, pause_after),
                write_tdi(data@, bits, pause_after),
                read,
            ),
    {
        let (t, d) = write_cycles(data, bits, pause_after);
        self.encode(&t, &d, read)
    }
}

/// The TMS and TDI values, cycle by cycle, of a write of `data` with `bits` (1 to 8) bits of
/// its last byte: the data bits LSB first with TMS low, but with `pause_after` high on the last
/// bit and followed by a cycle with TMS low and TDI high, into the pause state.
pub fn write_cycles(data: &[u8], bits: u8, pause_after: bool) -> (r: (Vec<bool>, Vec<bool>))
    requires
        data@.len() > 0,
        1 <= bits <= 8,
        data@.len() * 8 + 1 <= usize::MAX,
    ensures
        r.0@ == write_tms(((data@.len() - 1) * 8 + bits) as nat, pause_after),
        r.1@ == write_tdi(data@, bits, pause_after),
{
    let total = (data.len() - 1) * 8 + bits as usize;
    let mut t: Vec<bool> = Vec::new();
    let mut d: Vec<bool> = Vec::new();
    let mut i: usize = 0;
    while i < total
        invariant
            i <= total == (data@.len() - 1) * 8 + bits,
            1 <= bits <= 8,
            t@ =~= Seq::new(i as nat, |k: int| pause_after && k == total - 1),
            d@ =~= data_bits(data@, bits).take(i as int),
        decreases total - i,
    {
        t.push(pause_after && i == total - 1);
        d.push((data[i / 8] >> ((i % 8) as u8)) & 1 == 1);
        i += 1;
    }
    if pause_after {
        t.push(false);
        d.push(true);
    }
    proof {
        assert(data_bits(data@, bits).take(total as int) =~= data_bits(data@, bits));
        assert(t@ =~= write_tms(total as nat, pause_after));
        assert(d@ =~= write_tdi(data@, bits, pause_after));
    }
    (t, d)
}

/// The bits of `samples` packed LSB first.
pub fn pack_bits(samples: &[bool]) -> (r: Vec<u8>)
    requires
        samples@.len() + 16 <= usize::MAX,
    ensures
        holds_bits(r@, samples@.len()),
        bits_prefix(r@, samples@.len()) == samples@,
{
    let mut r: Vec<u8> = Vec::new();
    let mut i: usize = 0;
    proof {
        assert(bits_prefix(r@, 0) =~= Seq::<bool>::empty());
    }
    while i < samples.len()
        invariant
            i <= samples@.len(),
            samples@.len() + 16 <= usize::MAX,
            holds_bits(r@, i as nat),
            bits_prefix(r@, i as nat) =~= samples@.take(i as int),
        decreases samples@.len() - i,
    {
        push_bit(&mut r, i, samples[i]);
        i += 1;
    }
    assert(samples@.take(samples@.len() as int) =~= samples@);
    r
}

/// Half the period, in nanoseconds, of a clock of `freq_khz` kilohertz.
pub fn half_period_ns(freq_khz: u32) -> (r: u32)
    requires
        freq_khz > 0,
    ensures
        r == (1_000_000u32 / freq_khz) / 2,
{
    let period_ns = 1_000_000 / freq_khz;
    period_ns / 2
}

/// The TDO bits sampled in `recv`, a reply of `stride` bytes per cycle whose last byte holds
/// the sample on bit `tdi`, for the first `n` cycles, packed LSB first.
pub fn select_bit(recv: &[u8], tdi: u8, stride: usize, n: usize) -> (r: Vec<u8>)
    requires
        tdi < 8,
        1 <= stride,
        stride * n <= recv@.len(),
        n + 16 <= usize::MAX,
    ensures
        holds_bits(r@, n as nat),
        bits_prefix(r@, n as nat) == Seq::new(
            n as nat,
            |i: int| bit_of(recv@[stride * i + stride - 1], tdi as int),
        ),
{
    let len = recv.len();
    let mut r: Vec<u8> = Vec::new();
    let mut i: usize = 0;
    proof {
        assert(bits_prefix(r@, 0) =~= Seq::<bool>::empty());
    }
    while i < n
        invariant
            i <= n,
            tdi < 8,
            1 <= stride,
            stride * n <= recv@.len(),
            len == recv@.len(),
            n + 16 <= usize::MAX,
            holds_bits(r@, i as nat),
            bits_prefix(r@, i as nat) =~= Seq::new(
                i as nat,
                |k: int| bit_of(recv@[stride * k + stride - 1], tdi as int),
            ),
        decreases n - i,
    {
        proof {
            assert(stride * i + stride <= stride * n) by (nonlinear_arith)
                requires
                    i < n,
                    1 <= stride,
            ;
            assert(stride * i + stride <= len);
        }
        let x = recv[stride * i + stride - 1];
        let b: u8 = if (x >> tdi) & 1 == 1 {
            1
        } else {
            0
        };
        let one: [u8; 1] = [b];
        bit_append(&mut r, i, &one, 1, 0);
        proof {
            assert((1u8 >> 0u8) & 1u8 == 1u8) by (bit_vector);
            assert((0u8 >> 0u8) & 1u8 != 1u8) by (bit_vector);
            assert(bits_prefix(one@, 1).subrange(0, 1) =~= seq![bit_of(x, tdi as int)]);
        }
        i += 1;
    }
    r
}

} // verus!
