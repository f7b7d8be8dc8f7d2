//! Big-endian interpretation of bytes, and the bit-level widening of a
//! single-precision IEEE-754 pattern to double precision.

use vstd::prelude::*;

verus! {

use vstd::arithmetic::power2::{pow2, lemma2_to64, lemma_pow2_unfold, lemma_pow2_strictly_increases};

/// The unsigned value of the two big-endian bytes at `pos`.
pub open spec fn be16(data: Seq<u8>, pos: int) -> int {
    data[pos] * 0x100 + data[pos + 1]
}

/// The unsigned value of the four big-endian bytes at `pos`.
pub open spec fn be32(data: Seq<u8>, pos: int) -> int {
    data[pos] * 0x1000000 + data[pos + 1] * 0x10000 + data[pos + 2] * 0x100 + data[pos + 3]
}

/// The unsigned value of the eight big-endian bytes at `pos`.
pub open spec fn be64(data: Seq<u8>, pos: int) -> int {
    data[pos] * 0x100000000000000 + data[pos + 1] * 0x1000000000000 + data[pos + 2] * 0x10000000000
        + data[pos + 3] * 0x100000000 + data[pos + 4] * 0x1000000 + data[pos + 5] * 0x10000
        + data[pos + 6] * 0x100 + data[pos + 7]
}

/// Reads the two big-endian bytes at `pos` as an unsigned 16-bit value.
pub fn read_be16(data: &[u8], pos: usize) -> (r: u16)
    requires
        pos + 2 <= data@.len(),
    ensures
        r as int == be16(data@, pos as int),
{
    (data[pos] as u16) * 0x100 + (data[pos + 1] as u16)
}

/// Reads the four big-endian bytes at `pos` as an unsigned 32-bit value.
pub fn read_be32(data: &[u8], pos: usize) -> (r: u32)
    requires
        pos + 4 <= data@.len(),
    ensures
        r as int == be32(data@, pos as int),
{
    (data[pos] as u32) * 0x1000000 + (data[pos + 1] as u32) * 0x10000 + (data[pos + 2] as u32)
        * 0x100 + (data[pos + 3] as u32)
}

/// Reads the eight big-endian bytes at `pos` as an unsigned 64-bit value.
pub fn read_be64(data: &[u8], pos: usize) -> (r: u64)
    requires
        pos + 8 <= data@.len(),
    ensures
        r as int == be64(data@, pos as int),
{
    (data[pos] as u64) * 0x100000000000000 + (data[pos + 1] as u64) * 0x1000000000000 + (data[pos
        + 2] as u64) * 0x10000000000 + (data[pos + 3] as u64) * 0x100000000 + (data[pos + 4] as u64)
        * 0x1000000 + (data[pos + 5] as u64) * 0x10000 + (data[pos + 6] as u64) * 0x100 + (data[pos
        + 7] as u64)
}

/// Shifts a subnormal single-precision fraction left until its leading bit
/// reaches the hidden-bit position, decrementing the exponent accordingly.
pub open spec fn norm_sub(f: u32, e: int) -> (u32, int)
    decreases 0x1000000 - f,
    when 0 < f < 0x800000
{
    if 2 * f >= 0x800000 {
        ((2 * f) as u32, e - 1)
    } else {
        norm_sub((2 * f) as u32, e - 1)
    }
}

/// Normalization lands the leading bit exactly in the hidden-bit position
/// and lowers the exponent by the number of doublings, at most 23.
pub proof fn lemma_norm_sub(f: u32, e: int)
    requires
        0 < f < 0x800000,
    ensures
        0x800000 <= norm_sub(f, e).0 < 0x1000000,
        e - 23 <= norm_sub(f, e).1 < e,
        norm_sub(f, e).0 == f * pow2((e - norm_sub(f, e).1) as nat),
    decreases 0x1000000 - f,
{
    let r = norm_sub(f, e);
    lemma2_to64();
    if 2 * f >= 0x800000 {
        assert(r.0 == f * pow2(1));
    } else {
        lemma_norm_sub((2 * f) as u32, e - 1);
        let k = ((e - 1) - r.1) as nat;
        lemma_pow2_unfold(k + 1);
        assert(f * pow2(k + 1) == (2 * f)
            * pow2(k)) by (nonlinear_arith)
            requires
                pow2(k + 1) == 2 * pow2(k),
        ;
        if e - r.1 > 23 {
            if e - r.1 > 24 {
                lemma_pow2_strictly_increases(24, (e - r.1) as nat);
            }
            assert(f * pow2((e - r.1) as nat)
                >= pow2((e - r.1) as nat)) by (nonlinear_arith)
                requires
                    f >= 1,
                    pow2((e - r.1) as nat) >= 0,
            ;
        }
    }
}

/// The double-precision bit pattern denoting the same number as the given
/// single-precision bit pattern: the sign moves to the top bit, the exponent
/// is rebiased from 127 to 1023, the fraction gains 29 trailing zero bits.
/// Subnormal fractions are normalized; infinities and NaNs keep the
/// all-ones exponent.
pub open spec fn widen_bits(b: u32) -> u64 {
    let sign = ((b >> 31) as u64) << 63;
    let exp = (b >> 23) & 0xff;
    let frac = b & 0x7fffff;
    if exp == 0xff {
        sign | (0x7ffu64 << 52) | ((frac as u64) << 29)
    } else if exp == 0 {
        if frac == 0 {
            sign
        } else {
            let fe = norm_sub(frac, 897);
            sign | ((fe.1 as u64) << 52) | (((fe.0 & 0x7fffff) as u64) << 29)
        }
    } else {
        sign | (((exp + 896) as u64) << 52) | ((frac as u64) << 29)
    }
}

/// Widens a single-precision bit pattern to the double-precision pattern of
/// the same number.
pub fn widen(b: u32) -> (r: u64)
    ensures
        r == widen_bits(b),
{
    let sign: u64 = ((b >> 31) as u64) << 63;
    let exp: u32 = (b >> 23) & 0xff;
    let frac: u32 = b & 0x7fffff;
    if exp == 0xff {
        sign | (0x7ffu64 << 52) | ((frac as u64) << 29)
    } else if exp == 0 {
        if frac == 0 {
            sign
        } else {
            let mut f: u32 = frac;
            let mut e: u64 = 897;
            proof {
                assert(frac < 0x800000 && frac > 0) by (bit_vector)
                    requires
                        frac == b & 0x7fffff && frac != 0,
                ;
                lemma2_to64();
                assert(frac * pow2(0) == frac);
            }
            while 2 * f < 0x800000
                invariant
                    0 < f < 0x800000,
                    875 <= e <= 897,
                    norm_sub(frac, 897) == norm_sub(f, e as int),
                    f as int == frac * pow2((897 - e) as nat),
                decreases 0x800000 - f,
            {
                proof {
                    let k = (897 - e) as nat;
                    lemma2_to64();
                    lemma_pow2_unfold(k + 1);
                    assert(2 * (frac * pow2(k)) == frac * pow2(k + 1)) by (nonlinear_arith)
                        requires
                            pow2(k + 1) == 2 * pow2(k),
                    ;
                    assert(frac * pow2(k + 1) >= pow2(k + 1)) by (nonlinear_arith)
                        requires
                            frac >= 1,
                            pow2(k + 1) >= 0,
                    ;
                    if k + 1 >= 23 {
                        if k + 1 > 23 {
                            lemma_pow2_strictly_increases(23, k + 1);
                        }
                        assert(false);
                    }
                }
                f = 2 * f;
                e = e - 1;
            }
            f = 2 * f;
            e = e - 1;
            assert((f, e as int) == norm_sub(frac, 897));
            sign | (e << 52) | (((f & 0x7fffff) as u64) << 29)
        }
    } else {
        sign | (((exp as u64) + 896) << 52) | ((frac as u64) << 29)
    }
}

} // verus!
