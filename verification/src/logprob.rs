//! Log-probabilities are stored as the bit patterns of IEEE-754 single
//! precision numbers (exactly as they appear in `.vocab` files).  Arithmetic
//! on them is done in fixed point: a log-probability stands for the integer
//! `value * 2^32`, truncated toward zero.
use vstd::prelude::*;
use vstd::arithmetic::power2::{pow2, lemma_pow2_strictly_increases, lemma_pow2_pos, lemma2_to64};
use vstd::bits::{lemma_u64_shl_is_mul, lemma_u64_shr_is_div};

verus! {

/// Largest magnitude of a fixed-point log-probability; infinities, NaNs and
/// values of magnitude at least 2^31 saturate to it.
pub const FIXED_CAP: u64 = 0x7fff_ffff_ffff_ffff;

/// Biased exponent field of an `f32` bit pattern.
pub open spec fn f32_exponent(bits: u32) -> int {
    (bits as int / 0x80_0000) % 0x100
}

/// Mantissa field of an `f32` bit pattern.
pub open spec fn f32_mantissa(bits: u32) -> int {
    bits as int % 0x80_0000
}

/// Magnitude of the fixed-point value of an `f32` bit pattern.
pub open spec fn fixed_magnitude(bits: u32) -> int {
    let e = f32_exponent(bits);
    let sig = f32_mantissa(bits) + 0x80_0000;
    if e == 0xff {
        FIXED_CAP as int
    } else if e == 0 {
        // subnormal numbers are below 2^-126 and truncate to zero
        0
    } else if e >= 118 {
        if e > 157 {
            FIXED_CAP as int
        } else {
            sig * pow2((e - 118) as nat)
        }
    } else {
        sig / pow2((118 - e) as nat) as int
    }
}

/// The value of the `f32` with bit pattern `bits`, times 2^32, truncated
/// toward zero and saturated to `±FIXED_CAP`.
pub open spec fn fixed_value(bits: u32) -> int {
    if bits >= 0x8000_0000 {
        -fixed_magnitude(bits)
    } else {
        fixed_magnitude(bits)
    }
}

/// A fixed-point log-probability lies within `±FIXED_CAP`.
pub proof fn lemma_magnitude_bound(bits: u32)
    ensures
        0 <= fixed_magnitude(bits) <= FIXED_CAP,
{
    let e = f32_exponent(bits);
    let sig = f32_mantissa(bits) + 0x80_0000;
    assert(sig < 0x100_0000);
    if e != 0xff && e != 0 {
        if e >= 118 && e <= 157 {
            lemma2_to64();
            let k = (e - 118) as nat;
            if k < 39 {
                lemma_pow2_strictly_increases(k, 39);
            }
            assert(pow2(39) == 0x80_0000_0000) by {
                vstd::arithmetic::power2::lemma2_to64_rest();
            }
            assert(sig * pow2(k) <= 0xff_ffff * pow2(39)) by (nonlinear_arith)
                requires sig <= 0xff_ffff, pow2(k) <= pow2(39);
        } else if e < 118 {
            lemma_pow2_pos((118 - e) as nat);
            assert(sig / pow2((118 - e) as nat) as int <= sig) by (nonlinear_arith)
                requires pow2((118 - e) as nat) >= 1, sig >= 0;
        }
    }
}

/// Fixed-point value of the log-probability with bit pattern `bits`.
pub fn fixed_log_prob(bits: u32) -> (r: i64)
    ensures
        r == fixed_value(bits),
{
    proof {
        lemma_magnitude_bound(bits);
    }
    let e: u32 = (bits / 0x80_0000) % 0x100;
    let m: u32 = bits % 0x80_0000;
    let sig: u64 = (m + 0x80_0000) as u64;
    let mag: u64 = if e == 0xff {
        FIXED_CAP
    } else if e == 0 {
        0
    } else if e >= 118 {
        if e > 157 {
            FIXED_CAP
        } else {
            let k: u64 = (e - 118) as u64;
            proof {
                lemma2_to64();
                vstd::arithmetic::power2::lemma2_to64_rest();
                if k < 39 {
                    lemma_pow2_strictly_increases(k as nat, 39);
                }
                assert(sig * pow2(k as nat) <= 0xff_ffff * pow2(39)) by (nonlinear_arith)
                    requires sig <= 0xff_ffff, pow2(k as nat) <= pow2(39);
                lemma_u64_shl_is_mul(sig, k);
            }
            sig << k
        }
    } else if e <= 94 {
        proof {
            let k = (118 - e) as nat;
            lemma2_to64();
            if k > 24 {
                lemma_pow2_strictly_increases(24, k);
            }
            assert((sig as int) / (pow2(k) as int) == 0) by (nonlinear_arith)
                requires sig < 0x100_0000, pow2(k) >= 0x100_0000, sig >= 0;
        }
        0
    } else {
        let k: u64 = (118 - e) as u64;
        proof {
            lemma_u64_shr_is_div(sig, k);
        }
        sig >> k
    };
    if bits >= 0x8000_0000 {
        -(mag as i64)
    } else {
        mag as i64
    }
}

} // verus!
