//! Packing of logical bits into bytes, most significant bit first.
use vstd::prelude::*;

use bitvec::order::Msb0;
use bitvec::view::BitView;

verus! {

/// Bit `j` of `b`, counted from the most significant end.
pub open spec fn msb_bit(b: u8, j: int) -> bool {
    ((b >> ((7 - j) as u8)) & 1u8) == 1u8
}

/// The mask of bit `i` of `bits` within its byte, or zero where that bit is
/// absent or clear.
pub open spec fn bit_mask(bits: Seq<bool>, i: int) -> u8 {
    if 0 <= i < bits.len() && bits[i] {
        0x80u8 >> ((i % 8) as u8)
    } else {
        0u8
    }
}

/// Byte `k` of the packing of `bits`, from its first `m` bits only.
pub open spec fn partial_byte(bits: Seq<bool>, k: int, m: nat) -> u8
    decreases m,
{
    if m == 0 {
        0u8
    } else {
        partial_byte(bits, k, (m - 1) as nat) | bit_mask(bits, 8 * k + m - 1)
    }
}

/// Number of bytes that hold `n` bits.
pub open spec fn byte_len(n: nat) -> nat {
    (n + 7) / 8
}

/// `bits` packed eight to a byte, the first bit in the most significant place,
/// the unused low bits of the last byte zero.
pub open spec fn packed(bits: Seq<bool>) -> Seq<u8> {
    Seq::new(byte_len(bits.len()), |k: int| partial_byte(bits, k, 8))
}

/// The first `n` bits held by `bytes`, most significant bit of each byte first.
pub open spec fn unpacked(bytes: Seq<u8>, n: nat) -> Seq<bool> {
    Seq::new(n, |i: int| msb_bit(bytes[i / 8], i % 8))
}

/// Relies on bitvec's `BitSlice<u8, Msb0>` indexing of a single byte: index `j`
/// is the bit `7 - j` places above the least significant one.
#[verifier::external_body]
fn bit_of(b: u8, j: usize) -> (r: bool)
    requires
        j < 8,
    ensures
        r == msb_bit(b, j as int),
{
    b.view_bits::<Msb0>()[j]
}

/// Relies on bitvec's `BitSlice::set` on a single byte viewed in `Msb0` order:
/// sets the bit at index `j`, the one `7 - j` places above the least significant.
#[verifier::external_body]
fn with_bit_set(b: u8, j: usize) -> (r: u8)
    requires
        j < 8,
    ensures
        r == b | (0x80u8 >> (j as u8)),
{
    let mut x = b;
    x.view_bits_mut::<Msb0>().set(j, true);
    x
}

/// Packs `bits` eight to a byte, first bit most significant, padding with zeros.
pub fn pack_bits(bits: &Vec<bool>) -> (r: Vec<u8>)
    ensures
        r@ == packed(bits@),
{
    let n = bits.len();
    let nbytes: usize = n / 8 + if n % 8 != 0 {
        1
    } else {
        0
    };
    assert(nbytes == byte_len(n as nat));
    let mut out: Vec<u8> = Vec::new();
    let mut k: usize = 0;
    while k < nbytes
        invariant
            n == bits.len(),
            nbytes == byte_len(n as nat),
            k <= nbytes,
            out@ =~= packed(bits@).take(k as int),
        decreases nbytes - k,
    {
        assert(8 * k < n);
        let mut byte: u8 = 0;
        let mut m: usize = 0;
        while m < 8
            invariant
                n == bits.len(),
                k < nbytes,
                8 * k < n,
                m <= 8,
                byte == partial_byte(bits@, k as int, m as nat),
            decreases 8 - m,
        {
            let ghost b0 = byte;
            let i_in = m < n - 8 * k;
            if i_in && bits[8 * k + m] {
                byte = with_bit_set(byte, m);
            }
            proof {
                let i = 8 * k + m;
                assert(i % 8 == m as int);
                assert(b0 | 0u8 == b0) by (bit_vector);
                assert(byte == partial_byte(bits@, k as int, (m + 1) as nat));
            }
            m = m + 1;
        }
        out.push(byte);
        k = k + 1;
    }
    out
}

/// The first `n` bits held by `bytes`, most significant bit of each byte first.
pub fn unpack_bits(bytes: &Vec<u8>, n: usize) -> (r: Vec<bool>)
    requires
        n <= 8 * bytes.len(),
    ensures
        r@ == unpacked(bytes@, n as nat),
{
    let mut out: Vec<bool> = Vec::new();
    let mut i: usize = 0;
    while i < n
        invariant
            n <= 8 * bytes.len(),
            i <= n,
            out@ =~= unpacked(bytes@, n as nat).take(i as int),
        decreases n - i,
    {
        let b = bit_of(bytes[i / 8], i % 8);
        out.push(b);
        i = i + 1;
    }
    out
}

proof fn lemma_byte_bits(m0: u8, m1: u8, m2: u8, m3: u8, m4: u8, m5: u8, m6: u8, m7: u8)
    by (bit_vector)
    requires
        m0 == 0 || m0 == 0x80,
        m1 == 0 || m1 == 0x40,
        m2 == 0 || m2 == 0x20,
        m3 == 0 || m3 == 0x10,
        m4 == 0 || m4 == 0x08,
        m5 == 0 || m5 == 0x04,
        m6 == 0 || m6 == 0x02,
        m7 == 0 || m7 == 0x01,
    ensures
        (((0u8 | m0 | m1 | m2 | m3 | m4 | m5 | m6 | m7) >> 7u8) & 1u8 == 1u8) == (m0 != 0),
        (((0u8 | m0 | m1 | m2 | m3 | m4 | m5 | m6 | m7) >> 6u8) & 1u8 == 1u8) == (m1 != 0),
        (((0u8 | m0 | m1 | m2 | m3 | m4 | m5 | m6 | m7) >> 5u8) & 1u8 == 1u8) == (m2 != 0),
        (((0u8 | m0 | m1 | m2 | m3 | m4 | m5 | m6 | m7) >> 4u8) & 1u8 == 1u8) == (m3 != 0),
        (((0u8 | m0 | m1 | m2 | m3 | m4 | m5 | m6 | m7) >> 3u8) & 1u8 == 1u8) == (m4 != 0),
        (((0u8 | m0 | m1 | m2 | m3 | m4 | m5 | m6 | m7) >> 2u8) & 1u8 == 1u8) == (m5 != 0),
        (((0u8 | m0 | m1 | m2 | m3 | m4 | m5 | m6 | m7) >> 1u8) & 1u8 == 1u8) == (m6 != 0),
        (((0u8 | m0 | m1 | m2 | m3 | m4 | m5 | m6 | m7) >> 0u8) & 1u8 == 1u8) == (m7 != 0),
{
}

/// Unpacking the packing of `bits` gives `bits` back.
pub proof fn lemma_unpack_pack(bits: Seq<bool>)
    ensures
        unpacked(packed(bits), bits.len()) == bits,
{
    let p = packed(bits);
    assert forall|i: int| 0 <= i < bits.len() implies #[trigger] unpacked(p, bits.len())[i]
        == bits[i] by {
        let k = i / 8;
        let j = i % 8;
        assert(0 <= k < byte_len(bits.len()));
        let m0 = bit_mask(bits, 8 * k);
        let m1 = bit_mask(bits, 8 * k + 1);
        let m2 = bit_mask(bits, 8 * k + 2);
        let m3 = bit_mask(bits, 8 * k + 3);
        let m4 = bit_mask(bits, 8 * k + 4);
        let m5 = bit_mask(bits, 8 * k + 5);
        let m6 = bit_mask(bits, 8 * k + 6);
        let m7 = bit_mask(bits, 8 * k + 7);
        assert((8 * k) % 8 == 0);
        assert((8 * k + 1) % 8 == 1);
        assert((8 * k + 2) % 8 == 2);
        assert((8 * k + 3) % 8 == 3);
        assert((8 * k + 4) % 8 == 4);
        assert((8 * k + 5) % 8 == 5);
        assert((8 * k + 6) % 8 == 6);
        assert((8 * k + 7) % 8 == 7);
        assert(0x80u8 >> 0u8 == 0x80u8) by (bit_vector);
        assert(0x80u8 >> 1u8 == 0x40u8) by (bit_vector);
        assert(0x80u8 >> 2u8 == 0x20u8) by (bit_vector);
        assert(0x80u8 >> 3u8 == 0x10u8) by (bit_vector);
        assert(0x80u8 >> 4u8 == 0x08u8) by (bit_vector);
        assert(0x80u8 >> 5u8 == 0x04u8) by (bit_vector);
        assert(0x80u8 >> 6u8 == 0x02u8) by (bit_vector);
        assert(0x80u8 >> 7u8 == 0x01u8) by (bit_vector);
        lemma_byte_bits(m0, m1, m2, m3, m4, m5, m6, m7);
        reveal_with_fuel(partial_byte, 9);
        assert(p[k] == (0u8 | m0 | m1 | m2 | m3 | m4 | m5 | m6 | m7));
        assert(i == 8 * k + j);
    }
    assert(unpacked(p, bits.len()) =~= bits);
}

} // verus!
