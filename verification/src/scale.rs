//! Power-of-two scaling of signed grid coordinates.
//!
//! Every change of resolution in the terrain grid is a division by a power
//! of two that rounds toward negative infinity, so that cells tile space
//! seamlessly across the origin.

use vstd::arithmetic::div_mod::{lemma_fundamental_div_mod, lemma_fundamental_div_mod_converse};
use vstd::arithmetic::power2::{
    lemma_pow2_pos,
    lemma_pow2_strictly_increases,
    lemma_pow2_unfold,
    pow2,
};
use vstd::prelude::*;

verus! {

/// The coordinate `x` seen `k` levels coarser: the floor of `x / 2^k`.
pub open spec fn shifted(x: int, k: nat) -> int {
    x / (pow2(k) as int)
}

/// Which half of its parent cell `x` falls in, `k` levels up: bit `k` of `x`
/// in two's complement, 0 for the lower half and 1 for the upper half.
pub open spec fn bit_at(x: int, k: nat) -> int {
    shifted(x, k) % 2
}

/// Shifting by zero levels changes nothing.
pub proof fn lemma_shifted_zero(x: int)
    ensures
        shifted(x, 0) == x,
{
    assert(pow2(0) == 1) by {
        vstd::arithmetic::power2::lemma2_to64();
    }
}

/// One more level is one more halving.
pub proof fn lemma_shifted_step(x: int, k: nat)
    ensures
        shifted(x, k + 1) == shifted(x, k) / 2,
        shifted(x, k) == 2 * shifted(x, k + 1) + bit_at(x, k),
        0 <= bit_at(x, k) <= 1,
{
    let p = pow2(k) as int;
    lemma_pow2_pos(k);
    lemma_pow2_unfold(k + 1);
    assert(pow2(k + 1) == 2 * p);
    let q = x / p;
    let r = x % p;
    lemma_fundamental_div_mod(x, p);
    let a = q / 2;
    let b = q % 2;
    lemma_fundamental_div_mod(q, 2);
    assert(x == a * (2 * p) + (p * b + r)) by (nonlinear_arith)
        requires
            x == p * q + r,
            q == 2 * a + b,
    ;
    assert(0 <= p * b + r < 2 * p) by (nonlinear_arith)
        requires
            0 <= r < p,
            0 <= b <= 1,
    ;
    lemma_fundamental_div_mod_converse(x, 2 * p, a, p * b + r);
}

/// Shifting by `j` levels and then by `k` is shifting by `j + k`, and the
/// bits of the shifted coordinate are the bits above those that went.
pub proof fn lemma_shifted_twice(x: int, j: nat, k: nat)
    ensures
        shifted(shifted(x, j), k) == shifted(x, j + k),
        bit_at(shifted(x, j), k) == bit_at(x, j + k),
    decreases k,
{
    if k == 0 {
        lemma_shifted_zero(shifted(x, j));
    } else {
        let k1 = (k - 1) as nat;
        lemma_shifted_twice(x, j, k1);
        lemma_shifted_step(shifted(x, j), k1);
        lemma_shifted_step(x, j + k1);
    }
}

/// The coordinates that are `q` when seen `k` levels coarser are the
/// `2^k` coordinates from `q * 2^k` on.
pub proof fn lemma_shifted_range(x: int, k: nat, q: int)
    ensures
        (shifted(x, k) == q) == (q * pow2(k) <= x < (q + 1) * pow2(k)),
{
    let p = pow2(k) as int;
    lemma_pow2_pos(k);
    lemma_fundamental_div_mod(x, p);
    assert((q + 1) * p == q * p + p) by (nonlinear_arith);
    if q * p <= x < (q + 1) * p {
        lemma_fundamental_div_mod_converse(x, p, q, x - q * p);
    }
    if x / p == q {
        assert(p * q == q * p) by (nonlinear_arith);
    }
}

/// A coordinate lies in `[-2^k, 2^k)` exactly when `k` levels up it is
/// one of the two cells that touch the origin.
pub proof fn lemma_shifted_near_origin(x: int, k: nat)
    ensures
        (shifted(x, k) == 0) == (0 <= x < pow2(k)),
        (shifted(x, k) == -1) == (-pow2(k) <= x < 0),
{
    let p = pow2(k) as int;
    lemma_pow2_pos(k);
    lemma_fundamental_div_mod(x, p);
    let q = x / p;
    let r = x % p;
    assert(0 <= r < p);
    if 0 <= x < p {
        lemma_fundamental_div_mod_converse(x, p, 0, x);
    }
    if -p <= x < 0 {
        lemma_fundamental_div_mod_converse(x, p, -1, x + p);
    }
    if q == 0 {
        assert(p * q == 0);
    }
    if q == -1 {
        assert(p * q == -p);
    }
}

/// Every 32-bit coordinate is next to the origin from 31 levels up.
pub proof fn lemma_shifted_far(x: i32, k: nat)
    requires
        k >= 31,
    ensures
        shifted(x as int, k) == if x < 0 { -1int } else { 0int },
{
    vstd::arithmetic::power2::lemma2_to64();
    if k > 31 {
        lemma_pow2_strictly_increases(31, k);
    }
    assert(pow2(k) >= 0x8000_0000);
    lemma_shifted_near_origin(x as int, k);
}

/// The arithmetic right shift of a 32-bit integer is the floor division by
/// the power of two.
pub proof fn lemma_shr_is_shifted(x: i32, k: u32)
    requires
        k < 32,
    ensures
        (x >> k) as int == shifted(x as int, k as nat),
    decreases k,
{
    if k == 0 {
        assert(x >> 0u32 == x) by (bit_vector);
        lemma_shifted_zero(x as int);
    } else {
        let j = (k - 1) as u32;
        lemma_shr_is_shifted(x, j);
        let y: i32 = x >> j;
        assert(x >> k == (x >> j) >> 1u32) by (bit_vector)
            requires
                k == j + 1,
                k < 32,
        ;
        assert(y >> 1u32 == y as int / 2) by (bit_vector);
        lemma_shifted_step(x as int, j as nat);
    }
}

/// `x` seen `k` levels coarser, for any number of levels.
pub fn floor_shift(x: i32, k: u32) -> (r: i32)
    ensures
        r == shifted(x as int, k as nat),
{
    if k >= 31 {
        proof {
            lemma_shifted_far(x, k as nat);
        }
        if x < 0 {
            -1
        } else {
            0
        }
    } else {
        proof {
            lemma_shr_is_shifted(x, k);
        }
        x >> k
    }
}

/// The coordinate `x` seen `k` levels finer, at the low end of its cell:
/// `x * 2^k`.
pub open spec fn raised(x: int, k: nat) -> int {
    x * pow2(k)
}

/// Seen `k` levels finer and then `k` levels coarser, a coordinate is
/// itself.
pub proof fn lemma_shifted_raised(x: int, k: nat)
    ensures
        shifted(raised(x, k), k) == x,
{
    let p = pow2(k) as int;
    lemma_pow2_pos(k);
    lemma_fundamental_div_mod_converse(x * p, p, x, 0);
}

/// `x` seen `k` levels finer, as far as that is a 32-bit number.
pub fn checked_raise(x: i32, k: u32) -> (r: Option<i32>)
    ensures
        match r {
            Some(v) => v == raised(x as int, k as nat),
            None => !(i32::MIN <= raised(x as int, k as nat) <= i32::MAX),
        },
{
    let ghost p = pow2(k as nat) as int;
    proof {
        lemma_pow2_pos(k as nat);
        vstd::arithmetic::power2::lemma2_to64();
    }
    if x == 0 {
        assert(0 * p == 0);
        return Some(0);
    }
    if k >= 32 {
        proof {
            if k > 32 {
                lemma_pow2_strictly_increases(32, k as nat);
            }
            assert(x * p >= 0x1_0000_0000 || x * p <= -0x1_0000_0000) by (nonlinear_arith)
                requires
                    x != 0,
                    p >= 0x1_0000_0000,
            ;
        }
        return None;
    }
    proof {
        if k < 31 {
            lemma_pow2_strictly_increases(k as nat, 31);
        }
        vstd::bits::lemma_u64_shl_is_mul(1, k as u64);
    }
    let scale: i64 = (1u64 << (k as u64)) as i64;
    assert(scale == p);
    assert(-0x8000_0000 * 0x8000_0000 <= x * scale <= 0x8000_0000 * 0x8000_0000)
        by (nonlinear_arith)
        requires
            -0x8000_0000 <= x < 0x8000_0000,
            1 <= scale <= 0x8000_0000,
    ;
    let wide: i64 = x as i64 * scale;
    if wide < i32::MIN as i64 || wide > i32::MAX as i64 {
        None
    } else {
        Some(wide as i32)
    }
}

/// Bit `k` of `x`, for any `k`.
pub fn bit_of(x: i32, k: u32) -> (r: u8)
    ensures
        r == bit_at(x as int, k as nat),
        r <= 1,
{
    let y: i32 = floor_shift(x, k);
    let low: i32 = y & 1;
    assert(y & 1 == y as int % 2) by (bit_vector);
    proof {
        lemma_shifted_step(x as int, k as nat);
    }
    if low == 0 {
        0
    } else {
        1
    }
}

} // verus!
