//! Bit buffers: bytes whose bits are clocked least significant bit first, with a count of the
//! valid bits of the last byte.
use vstd::prelude::*;

verus! {

/// The value of bit `j` (0 is the least significant) of `b`.
pub open spec fn bit_of(b: u8, j: int) -> bool {
    (b >> (j as u8)) & 1u8 == 1u8
}

/// The bits of a buffer, first clocked first: every bit of each byte but the last, LSB first,
/// then the low `bits` bits of the last byte.
pub open spec fn data_bits(data: Seq<u8>, bits: u8) -> Seq<bool> {
    Seq::new(((data.len() - 1) * 8 + bits) as nat, |i: int| bit_of(data[i / 8], i % 8))
}

/// The first `n` bits of `data`, LSB first.
pub open spec fn bits_prefix(data: Seq<u8>, n: nat) -> Seq<bool> {
    Seq::new(n, |i: int| bit_of(data[i / 8], i % 8))
}

/// `data` holds `n` bits: it has the bytes for them, and its bits past them are zero.
pub open spec fn holds_bits(data: Seq<u8>, n: nat) -> bool {
    &&& data.len() == bytes_for(n)
    &&& forall|i: int| n <= i < 8 * data.len() ==> !bit_of(#[trigger] data[i / 8], i % 8)
}

pub proof fn lemma_set_bit(b: u8, k: u8, j: u8)
    by (bit_vector)
    requires
        k < 8,
        j < 8,
    ensures
        ((b | (1u8 << k)) >> j) & 1u8 == 1u8 <==> ((b >> j) & 1u8 == 1u8 || j == k),
{
}

pub proof fn lemma_zero_bit(j: u8)
    by (bit_vector)
    requires
        j < 8,
    ensures
        (0u8 >> j) & 1u8 != 1u8,
{
}

/// The TMS bits of a write of `n` data bits: low, but for a high last bit when the write ends
/// with a move to the pause state, which then takes one more low cycle.
pub open spec fn write_tms(n: nat, pause_after: bool) -> Seq<bool> {
    if pause_after {
        Seq::new((n - 1) as nat, |i: int| false) + seq![true, false]
    } else {
        Seq::new(n, |i: int| false)
    }
}

/// The TDI bits of a write of `data`: its bits, and a one for the extra cycle of a move to the
/// pause state.
pub open spec fn write_tdi(data: Seq<u8>, bits: u8, pause_after: bool) -> Seq<bool> {
    if pause_after {
        data_bits(data, bits) + seq![true]
    } else {
        data_bits(data, bits)
    }
}

/// A run of `n` ones.
pub open spec fn ones(n: nat) -> Seq<bool> {
    Seq::new(n, |i: int| true)
}

/// How many bits of the last byte a buffer of `n` bits uses: 1 to 8.
pub open spec fn last_bits(n: nat) -> u8 {
    if n % 8 == 0 {
        8
    } else {
        (n % 8) as u8
    }
}

/// The bytes, whole or partial, that hold `n` bits.
pub open spec fn bytes_for(n: nat) -> nat {
    (n + 7) / 8
}

/// A byte with its `m` low bits set.
pub open spec fn low_mask(m: u8) -> u8 {
    ((1u8 << m) - 1) as u8
}

/// The buffer that holds the `n` bits of `data` followed by `k` ones: the last byte of `data`
/// has its bits above the `n` valid ones set, and bytes of ones follow.
pub open spec fn padded(data: Seq<u8>, n: nat, k: nat) -> Seq<u8> {
    Seq::new(
        bytes_for(n + k),
        |i: int|
            if i < data.len() - 1 {
                data[i]
            } else if i == data.len() - 1 {
                if n % 8 == 0 {
                    data[i]
                } else {
                    data[i] | !low_mask((n % 8) as u8)
                }
            } else {
                0xffu8
            },
    )
}

pub proof fn lemma_mask_bit(x: u8, m: u8, j: u8)
    by (bit_vector)
    requires
        1 <= m < 8,
        j < 8,
    ensures
        ((x | !(((1u8 << m) - 1) as u8)) >> j) & 1u8 == if j < m {
            (x >> j) & 1u8
        } else {
            1u8
        },
{
}

pub proof fn lemma_ff_bit(j: u8)
    by (bit_vector)
    requires
        j < 8,
    ensures
        (0xffu8 >> j) & 1u8 == 1u8,
{
}

pub proof fn lemma_low_mask_bit(m: u8, j: u8)
    by (bit_vector)
    requires
        j < m,
        m <= 8,
    ensures
        ((((1u8 << m) - 1) as u8) >> j) & 1u8 == 1u8,
{
}

/// The padded buffer carries the `n` bits of `data`, then `k` ones.
pub proof fn lemma_padded_bits(data: Seq<u8>, n: nat, k: nat)
    requires
        n >= 1,
        data.len() == bytes_for(n),
    ensures
        padded(data, n, k).len() == bytes_for(n + k),
        data_bits(padded(data, n, k), last_bits(n + k)) =~= data_bits(data, last_bits(n))
            + ones(k),
{
    let p = padded(data, n, k);
    let l = data.len();
    assert((l - 1) * 8 + last_bits(n) == n);
    assert((p.len() - 1) * 8 + last_bits(n + k) == n + k);
    assert forall|i: int| 0 <= i < n + k implies #[trigger] data_bits(p, last_bits(n + k))[i] == (
    data_bits(data, last_bits(n)) + ones(k))[i] by {
        let j = (i % 8) as u8;
        if i / 8 == l - 1 && n % 8 != 0 {
            lemma_mask_bit(data[l - 1], (n % 8) as u8, j);
            if i < n {
                assert(j < (n % 8) as u8);
            } else {
                assert(j >= (n % 8) as u8);
            }
        } else if i / 8 >= l {
            lemma_ff_bit(j);
        }
    }
}

/// A buffer of bytes of ones carries only ones.
pub proof fn lemma_ones_bytes(m: nat)
    requires
        m >= 1,
    ensures
        data_bits(Seq::new(m, |i: int| 0xffu8), 8) =~= ones(8 * m),
{
    let d = Seq::new(m, |i: int| 0xffu8);
    assert forall|i: int| 0 <= i < 8 * m implies #[trigger] data_bits(d, 8)[i] by {
        lemma_ff_bit((i % 8) as u8);
    }
}

/// A byte with its `m` low bits set, of which `m` are clocked, carries only ones.
pub proof fn lemma_low_mask_ones(m: u8)
    requires
        1 <= m <= 8,
    ensures
        data_bits(seq![low_mask(m)], m) =~= ones(m as nat),
{
    assert forall|i: int| 0 <= i < m implies #[trigger] data_bits(seq![low_mask(m)], m)[i] by {
        lemma_low_mask_bit(m, i as u8);
    }
}

} // verus!
