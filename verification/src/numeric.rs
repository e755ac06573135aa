//! Integer helpers shared by the path pipeline: integer square roots,
//! rounded division, clamping, and a fixed-point sine approximation.
//!
//! All geometry in this crate is carried in scaled integers (usually
//! thousandths), so these helpers take the place of a floating-point
//! math library.

use vstd::prelude::*;

verus! {

/// Floor of the real square root.
pub open spec fn is_sqrt_floor(n: u64, r: u64) -> bool {
    r * r <= n && n < (r + 1) * (r + 1)
}

/// The floor of the real square root, as a function.
pub open spec fn sqrt_floor(n: nat) -> nat
    decreases n,
{
    if n == 0 {
        0
    } else {
        let r = sqrt_floor((n - 1) as nat);
        if (r + 1) * (r + 1) <= n {
            r + 1
        } else {
            r
        }
    }
}

/// The ceiling of the real square root, as a function.
pub open spec fn sqrt_ceil(n: nat) -> nat {
    if sqrt_floor(n) * sqrt_floor(n) == n {
        sqrt_floor(n)
    } else {
        sqrt_floor(n) + 1
    }
}

/// `sqrt_floor` squares to at most its argument, and one more overshoots.
pub proof fn lemma_sqrt_floor_is(n: nat)
    ensures
        sqrt_floor(n) * sqrt_floor(n) <= n,
        n < (sqrt_floor(n) + 1) * (sqrt_floor(n) + 1),
    decreases n,
{
    if n > 0 {
        lemma_sqrt_floor_is((n - 1) as nat);
        let r = sqrt_floor((n - 1) as nat);
        assert(r * r <= n - 1);
        assert(n - 1 < (r + 1) * (r + 1));
        if (r + 1) * (r + 1) <= n {
            assert(sqrt_floor(n) == r + 1);
            assert(n < (r + 2) * (r + 2)) by (nonlinear_arith)
                requires
                    n - 1 < (r + 1) * (r + 1),
                    r >= 0,
                    n >= 1,
            ;
            assert((sqrt_floor(n) + 1) * (sqrt_floor(n) + 1) == (r + 2) * (r + 2));
        } else {
            assert(sqrt_floor(n) == r);
        }
    } else {
        assert(sqrt_floor(n) == 0);
        assert(sqrt_floor(n) * sqrt_floor(n) <= n) by (nonlinear_arith)
            requires sqrt_floor(n) == 0, n == 0;
        assert(n < (sqrt_floor(n) + 1) * (sqrt_floor(n) + 1)) by (nonlinear_arith)
            requires sqrt_floor(n) == 0, n == 0;
    }
}

/// Any value with the floor-square-root property is `sqrt_floor`.
pub proof fn lemma_sqrt_floor_unique(n: nat, r: nat)
    requires
        r * r <= n,
        n < (r + 1) * (r + 1),
    ensures
        r == sqrt_floor(n),
{
    lemma_sqrt_floor_is(n);
    let m = sqrt_floor(n);
    assert(r == m) by (nonlinear_arith)
        requires
            r * r <= n,
            n < (r + 1) * (r + 1),
            m * m <= n,
            n < (m + 1) * (m + 1),
            r >= 0,
            m >= 0,
    ;
}

/// Integer square root, rounded down: the largest `r` with `r * r <= n`.
pub fn isqrt(n: u64) -> (r: u64)
    ensures
        is_sqrt_floor(n, r),
        r == sqrt_floor(n as nat),
{
    let mut lo: u64 = 0;
    let mut hi: u64 = 4294967296;
    proof {
        assert(4294967296u64 * 4294967296u64 == 18446744073709551616int) by (nonlinear_arith);
    }
    // Invariant: lo * lo <= n < hi * hi, so the answer is in [lo, hi).
    while lo + 1 < hi
        invariant
            lo < hi,
            hi <= 4294967296,
            lo * lo <= n,
            n < hi * hi,
        decreases hi - lo,
    {
        let mid: u64 = lo + (hi - lo) / 2;
        proof {
            assert(mid * mid <= 18446744065119617025u64) by (nonlinear_arith)
                requires mid <= 4294967295u64;
        }
        let sq: u64 = mid * mid;
        if sq <= n {
            lo = mid;
        } else {
            hi = mid;
        }
    }
    proof {
        lemma_sqrt_floor_unique(n as nat, lo as nat);
    }
    lo
}

/// Integer square root of a 128-bit value, rounded down.
pub fn isqrt128(n: u128) -> (r: u64)
    ensures
        r == sqrt_floor(n as nat),
{
    let mut lo: u128 = 0;
    let mut hi: u128 = 0x10000000000000000;
    proof {
        assert(0x10000000000000000u128 * 0x10000000000000000u128
            == 0x100000000000000000000000000000000int) by (nonlinear_arith);
    }
    while lo + 1 < hi
        invariant
            lo < hi,
            hi <= 0x10000000000000000,
            lo * lo <= n,
            n < hi * hi,
        decreases hi - lo,
    {
        let mid: u128 = lo + (hi - lo) / 2;
        proof {
            assert(mid * mid < 0x100000000000000000000000000000000int) by (nonlinear_arith)
                requires mid <= 0xffffffffffffffffu128;
        }
        let sq: u128 = mid * mid;
        if sq <= n {
            lo = mid;
        } else {
            hi = mid;
        }
    }
    proof {
        lemma_sqrt_floor_unique(n as nat, lo as nat);
    }
    lo as u64
}

/// Ceiling of the real square root: the smallest `r` with `n <= r * r`.
pub fn ceil_sqrt(n: u64) -> (r: u64)
    ensures
        r == sqrt_ceil(n as nat),
        n == 0 ==> r == 0,
        n > 0 ==> (r - 1) * (r - 1) < n && n <= r * r,
{
    let f = isqrt(n);
    proof {
        assert(f <= 4294967295u64) by (nonlinear_arith)
            requires f * f <= 18446744073709551615int;
        assert(f * f <= 18446744065119617025u64) by (nonlinear_arith)
            requires f <= 4294967295u64;
    }
    let sq: u64 = f * f;
    proof {
        if n == 0 {
            assert(f == 0) by (nonlinear_arith)
                requires f * f <= 0int;
        }
    }
    if sq == n {
        proof {
            if n > 0 {
                assert(f != 0) by (nonlinear_arith)
                    requires f * f == n, n > 0;
                assert((f - 1) * (f - 1) < f * f) by (nonlinear_arith)
                    requires f >= 1u64;
            }
        }
        f
    } else {
        f + 1
    }
}

/// Clamp to an inclusive `u16` window.
pub fn clamp_u64_to_u16(v: u64, lo: u16, hi: u16) -> (r: u16)
    requires
        lo <= hi,
    ensures
        r == if v < lo { lo } else if v > hi { hi } else { v as u16 },
        lo <= r <= hi,
{
    if v < lo as u64 {
        lo
    } else if v > hi as u64 {
        hi
    } else {
        v as u16
    }
}

/// Clamp a signed value to the 8-bit DAC range.
pub fn clamp_i64_to_u8(v: i64) -> (r: u8)
    ensures
        r == if v < 0 { 0u8 } else if v > 255 { 255u8 } else { v as u8 },
{
    if v < 0 {
        0
    } else if v > 255 {
        255
    } else {
        v as u8
    }
}

/// Signed division rounded toward zero, the way machine division of
/// signed integers rounds.
pub open spec fn div_to_zero(a: int, b: int) -> int {
    if a >= 0 {
        a / b
    } else {
        -((-a) / b)
    }
}

/// Signed division rounded to the nearest whole, halves away from zero.
pub open spec fn div_round_half(a: int, b: int) -> int {
    if a >= 0 {
        (a + b / 2) / b
    } else {
        -(((-a) + b / 2) / b)
    }
}

/// Divide rounding toward zero.
pub fn div_to_zero_i64(a: i64, b: i64) -> (r: i64)
    requires
        b >= 1,
        a > i64::MIN,
    ensures
        r == div_to_zero(a as int, b as int),
        a >= 0 ==> 0 <= r <= a,
        a < 0 ==> a <= r <= 0,
{
    if a >= 0 {
        proof {
            vstd::arithmetic::div_mod::lemma_div_is_ordered(0, a as int, b as int);
            vstd::arithmetic::div_mod::lemma_div_nonincreasing(a as int, b as int);
        }
        ((a as u64) / (b as u64)) as i64
    } else {
        let n: i64 = -a;
        proof {
            vstd::arithmetic::div_mod::lemma_div_is_ordered(0, n as int, b as int);
            vstd::arithmetic::div_mod::lemma_div_nonincreasing(n as int, b as int);
        }
        -(((n as u64) / (b as u64)) as i64)
    }
}

/// Divide wide values rounding toward zero.
pub fn div_to_zero_i128(a: i128, b: i128) -> (r: i128)
    requires
        b >= 1,
        a > i128::MIN,
    ensures
        r == div_to_zero(a as int, b as int),
        a >= 0 ==> 0 <= r <= a,
        a < 0 ==> a <= r <= 0,
{
    if a >= 0 {
        proof {
            vstd::arithmetic::div_mod::lemma_div_is_ordered(0, a as int, b as int);
            vstd::arithmetic::div_mod::lemma_div_nonincreasing(a as int, b as int);
        }
        ((a as u128) / (b as u128)) as i128
    } else {
        let n: i128 = -a;
        proof {
            vstd::arithmetic::div_mod::lemma_div_is_ordered(0, n as int, b as int);
            vstd::arithmetic::div_mod::lemma_div_nonincreasing(n as int, b as int);
        }
        -(((n as u128) / (b as u128)) as i128)
    }
}

/// Divide rounding to the nearest whole, halves away from zero.
pub fn div_round_half_i64(a: i64, b: i64) -> (r: i64)
    requires
        b >= 1,
        -4000000000000000000 <= a <= 4000000000000000000,
        b <= 4000000000000000000,
    ensures
        r == div_round_half(a as int, b as int),
        a >= 0 ==> 0 <= r <= a + 1,
        a < 0 ==> a - 1 <= r <= 0,
{
    if a >= 0 {
        proof {
            vstd::arithmetic::div_mod::lemma_div_is_ordered(0, a + b / 2, b as int);
            vstd::arithmetic::div_mod::lemma_div_nonincreasing(a + b / 2, b as int);
            if a + b / 2 >= b {
                vstd::arithmetic::div_mod::lemma_div_is_ordered(a + b / 2, a + b, b as int);
                vstd::arithmetic::div_mod::lemma_hoist_over_denominator(a as int, 1, b as nat);
                vstd::arithmetic::div_mod::lemma_div_nonincreasing(a as int, b as int);
            } else {
                vstd::arithmetic::div_mod::lemma_basic_div(a + b / 2, b as int);
            }
        }
        (((a as u64) + (b as u64) / 2) / (b as u64)) as i64
    } else {
        let n: i64 = -a;
        proof {
            vstd::arithmetic::div_mod::lemma_div_is_ordered(0, n + b / 2, b as int);
            vstd::arithmetic::div_mod::lemma_div_nonincreasing(n + b / 2, b as int);
            if n + b / 2 >= b {
                vstd::arithmetic::div_mod::lemma_div_is_ordered(n + b / 2, n + b, b as int);
                vstd::arithmetic::div_mod::lemma_hoist_over_denominator(n as int, 1, b as nat);
                vstd::arithmetic::div_mod::lemma_div_nonincreasing(n as int, b as int);
            } else {
                vstd::arithmetic::div_mod::lemma_basic_div(n + b / 2, b as int);
            }
        }
        -((((n as u64) + (b as u64) / 2) / (b as u64)) as i64)
    }
}

/// The rational sine approximation on a half-turn, scaled by 1000, as a
/// function of the angle in milliradians.
pub open spec fn spec_sin_half(x: int) -> int {
    let u = x * (3142 - x);
    16000 * u / (49348044 - 4 * u)
}

/// The sine approximation over the full circle, scaled by 1000.
pub open spec fn spec_sin_mrad(angle: int) -> int {
    let a = angle % 6284;
    if a < 3142 {
        spec_sin_half(a)
    } else {
        -spec_sin_half(a - 3142)
    }
}

/// One half-turn in milliradians.
pub const PI_MRAD: u64 = 3142;

/// One full turn in milliradians.
pub const TAU_MRAD: u64 = 6284;

/// Sine of an angle given in milliradians, scaled by 1000, by a rational
/// approximation on each half-turn. The result always lies in
/// `[-1000, 1000]`, and a zero angle gives exactly zero.
pub fn sin_mrad(angle: u64) -> (r: i64)
    ensures
        r == spec_sin_mrad(angle as int),
        -1000 <= r <= 1000,
        angle % TAU_MRAD == 0 ==> r == 0,
{
    let a: u64 = angle % TAU_MRAD;
    if a < PI_MRAD {
        sin_half_turn(a)
    } else {
        -sin_half_turn(a - PI_MRAD)
    }
}

/// Cosine of an angle in milliradians, scaled by 1000, as the sine shifted
/// by a quarter turn.
pub fn cos_mrad(angle: u64) -> (r: i64)
    ensures
        r == spec_sin_mrad(angle as int + 1571),
        -1000 <= r <= 1000,
{
    if angle <= u64::MAX - 1571 {
        sin_mrad(angle + 1571)
    } else {
        sin_mrad((angle % TAU_MRAD) + 1571)
    }
}

/// Rational sine approximation on `[0, PI_MRAD]`, scaled by 1000:
/// `16 u / (5 pi^2 - 4 u)` with `u = x (pi - x)`, all in milliradians.
fn sin_half_turn(x: u64) -> (r: i64)
    requires
        x <= PI_MRAD,
    ensures
        r == spec_sin_half(x as int),
        0 <= r <= 1000,
        x == 0 ==> r == 0,
{
    proof {
        assert(x * (3142 - x) <= 1571 * 1571) by (nonlinear_arith)
            requires x <= 3142u64;
        assert(1571u64 * 1571u64 == 2468041int) by (nonlinear_arith);
        assert(16000u64 * (x * (3142 - x)) <= 39488656000int) by (nonlinear_arith)
            requires x * (3142 - x) <= 2468041int;
    }
    let u: u64 = x * (PI_MRAD - x);
    let num: u64 = 16000 * u;
    let den: u64 = 49348044 - 4 * u;
    let q: u64 = num / den;
    proof {
        assert(q <= 1000) by (nonlinear_arith)
            requires
                num <= 39488656000u64,
                den >= 39475880u64,
                q == num / den,
        ;
    }
    q as i64
}

} // verus!
