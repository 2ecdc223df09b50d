//! How decoded numbers become `i64` timestamps: a number is taken as a double
//! (integers rounded to the nearest double, ties to even) and then truncated
//! toward zero, saturating at the `i64` bounds.

use vstd::prelude::*;
use vstd::arithmetic::power2::{pow2, lemma_pow2_pos, lemma_pow2_adds, lemma2_to64, lemma2_to64_rest, lemma_pow2_strictly_increases};

verus! {

/// The smallest `e >= k` with `x / 2^e < 2^53` (at most 64).
pub open spec fn round_shift(x: nat, k: nat) -> nat
    decreases 64 - k,
{
    if k >= 64 || x / pow2(k) < pow2(53) {
        k
    } else {
        round_shift(x, k + 1)
    }
}

/// The double nearest to `x` (ties to even), as an integer.
pub open spec fn f64_round(x: nat) -> nat {
    let e = round_shift(x, 0);
    if e == 0 {
        x
    } else {
        let d = pow2(e);
        let q = x / d;
        let r = x % d;
        let h = pow2((e - 1) as nat);
        let q2 = if r > h || (r == h && q % 2 == 1) { q + 1 } else { q };
        q2 * d
    }
}

/// `v` clamped to the `i64` range.
pub open spec fn sat_i64(v: int) -> i64 {
    if v > i64::MAX { i64::MAX } else if v < i64::MIN { i64::MIN } else { v as i64 }
}

/// A signed integer taken as a double, then back to `i64` (saturating).
pub open spec fn int_via_f64(i: int) -> i64 {
    if i >= 0 { sat_i64(f64_round(i as nat) as int) } else { sat_i64(-(f64_round((-i) as nat) as int)) }
}

/// A double (by its bits) truncated toward zero to `i64`, saturating; NaN gives 0.
pub open spec fn double_to_i64(bits: u64) -> i64 {
    let neg = bits >= 0x8000000000000000;
    let e = (bits / 0x10000000000000) % 2048;
    let m = bits % 0x10000000000000;
    if e == 2047 && m != 0 {
        0
    } else {
        let mag: int = if e < 1023 {
            0
        } else if e >= 1075 {
            (0x10000000000000 + m) as int * pow2((e - 1075) as nat) as int
        } else {
            (0x10000000000000 + m) as int / pow2((1075 - e) as nat) as int
        };
        if neg { sat_i64(-mag) } else { sat_i64(mag) }
    }
}

proof fn lemma_shift_bound(x: u64, e: u64)
    requires
        e < 64,
        x as nat / pow2(e as nat) >= pow2(53),
    ensures
        e < 11,
{
    lemma2_to64();
    lemma2_to64_rest();
    lemma_pow2_pos(e as nat);
    let d = pow2(e as nat) as int;
    let q = x as int / d;
    vstd::arithmetic::div_mod::lemma_fundamental_div_mod(x as int, d);
    assert(q * d >= pow2(53) * d) by (nonlinear_arith)
        requires q >= pow2(53), d > 0;
    lemma_pow2_adds(53, e as nat);
    if e >= 11 {
        vstd::arithmetic::power2::lemma_pow2_strictly_increases(63, (53 + e) as nat);
        if e == 11 {
            assert(pow2(64) == 0x10000000000000000);
        }
        assert(pow2((53 + e) as nat) >= pow2(64)) by {
            if e > 11 {
                vstd::arithmetic::power2::lemma_pow2_strictly_increases(64, (53 + e) as nat);
            }
        }
        assert(x as int >= q * d) by {
            vstd::arithmetic::div_mod::lemma_mod_bound(x as int, d);
        }
        assert(false);
    }
}

/// Magnitude `x` (below 2^64) rounded to the nearest double.
fn round_mag(x: u64) -> (r: u128)
    ensures
        r == f64_round(x as nat),
{
    proof {
        lemma2_to64();
        lemma2_to64_rest();
    }
    let mut e: u64 = 0;
    while e < 64 && (x >> e) >= 0x20000000000000
        invariant
            e <= 11,
            round_shift(x as nat, 0) == round_shift(x as nat, e as nat),
            pow2(53) == 0x20000000000000,
        decreases 64 - e,
    {
        proof {
            vstd::bits::lemma_u64_shr_is_div(x, e);
            lemma_shift_bound(x, e);
        }
        e += 1;
    }
    proof {
        vstd::bits::lemma_u64_shr_is_div(x, e);
        assert(round_shift(x as nat, e as nat) == e);
    }
    if e == 0 {
        proof {
            assert(pow2(0) == 1);
        }
        return x as u128;
    }
    let q = x >> e;
    let d: u64 = 1u64 << e;
    let h: u64 = 1u64 << (e - 1);
    proof {
        vstd::bits::lemma_u64_shl_is_mul(1, e);
        vstd::bits::lemma_u64_shl_is_mul(1, (e - 1) as u64);
        lemma_pow2_pos(e as nat);
        vstd::arithmetic::div_mod::lemma_fundamental_div_mod(x as int, d as int);
        vstd::arithmetic::div_mod::lemma_mod_bound(x as int, d as int);
        assert(q * d <= x) by (nonlinear_arith)
            requires x as int == d * q + x as int % d as int, x as int % d as int >= 0;
    }
    let r = x - q * d;
    assert(r == x as nat % pow2(e as nat));
    let q2: u64 = if r > h || (r == h && q % 2 == 1) { q + 1 } else { q };
    assert(q < 0x20000000000000);
    assert(d <= 0x800) by {
        if e < 11 {
            lemma_pow2_strictly_increases(e as nat, 11);
        }
    }
    assert((q2 as u128) * (d as u128) <= 0x20000000000000 * 0x800) by (nonlinear_arith)
        requires q2 <= 0x20000000000000, d <= 0x800;
    let res = (q2 as u128) * (d as u128);
    res
}

/// An integer taken as a double, then back to `i64` (saturating).
pub fn i64_via_f64(i: i64) -> (r: i64)
    ensures
        r == int_via_f64(i as int),
{
    if i >= 0 {
        let m = round_mag(i as u64);
        if m > i64::MAX as u128 { i64::MAX } else { m as i64 }
    } else {
        let mag: u64 = ((-(i + 1)) as u64) + 1;
        let m = round_mag(mag);
        if m >= 0x8000000000000000u128 { i64::MIN } else { -(m as i64) }
    }
}

/// An unsigned integer taken as a double, then to `i64` (saturating).
pub fn u64_via_f64(u: u64) -> (r: i64)
    ensures
        r == sat_i64(f64_round(u as nat) as int),
{
    let m = round_mag(u);
    if m > i64::MAX as u128 { i64::MAX } else { m as i64 }
}

/// A double, by its bits, truncated toward zero to `i64` (saturating; NaN gives 0).
pub fn f64_bits_to_i64(bits: u64) -> (r: i64)
    ensures
        r == double_to_i64(bits),
{
    let neg = bits >= 0x8000000000000000;
    let e = (bits >> 52) & 0x7ff;
    let m = bits & 0xFFFFFFFFFFFFF;
    assert(e == (bits / 0x10000000000000) % 2048) by (bit_vector)
        requires e == (bits >> 52) & 0x7ff;
    assert(m == bits % 0x10000000000000) by (bit_vector)
        requires m == bits & 0xFFFFFFFFFFFFF;
    if e == 2047 && m != 0 {
        return 0;
    }
    let f: u64 = 0x10000000000000 + m;
    proof {
        lemma2_to64();
        lemma2_to64_rest();
    }
    let mag: u128 = if e < 1023 {
        0
    } else if e >= 1075 {
        let k = e - 1075;
        if k > 11 {
            proof {
                lemma_pow2_strictly_increases(11, k as nat);
                assert(f * pow2(k as nat) >= 0x10000000000000 * 0x801) by (nonlinear_arith)
                    requires f >= 0x10000000000000, pow2(k as nat) >= 0x801;
            }
            0x10000000000000000u128
        } else {
            proof {
                if k < 11 {
                    lemma_pow2_strictly_increases(k as nat, 11);
                }
                assert(f * pow2(k as nat) <= f * 0x800) by (nonlinear_arith)
                    requires pow2(k as nat) <= 0x800, f >= 0;
                vstd::bits::lemma_u64_shl_is_mul(f, k);
            }
            (f << k) as u128
        }
    } else {
        proof {
            vstd::bits::lemma_u64_shr_is_div(f, (1075 - e) as u64);
        }
        (f >> (1075 - e)) as u128
    };
    if neg {
        if mag >= 0x8000000000000000u128 { i64::MIN } else { -(mag as i64) }
    } else {
        if mag > 0x7fffffffffffffffu128 { i64::MAX } else { mag as i64 }
    }
}

} // verus!
