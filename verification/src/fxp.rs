//! Fixed-point numeric kernel.
//!
//! Angles are `u32` tick counts (one full turn = 2^32 ticks); magnitudes are
//! Q30 fixed-point (2^30 stands for 1.0). Every executable function here has
//! a contract that pins its result to a spec-level mirror of the same
//! computation, so nothing about the numerics is taken on trust.

use vstd::prelude::*;
use vstd::arithmetic::power2::{pow2, lemma2_to64, lemma2_to64_rest, lemma_pow2_unfold,
    lemma_pow2_strictly_increases, lemma_pow2_pos};
use vstd::arithmetic::div_mod::lemma_div_is_ordered_by_denominator;

verus! {

/// Q30 fixed-point one.
pub const Q30: u64 = 0x4000_0000;
/// Ticks in a full turn (2*pi), as a u64.
pub const TURN: u64 = 0x1_0000_0000;
/// Ticks in a quarter turn (pi/2).
pub const QUARTER: u32 = 0x4000_0000;
/// Ticks in a half turn (pi).
pub const HALF: u32 = 0x8000_0000;

/// Cubic coefficients for sin((pi/2)*t) on t in [0, 1], Q30 scale.
pub const SIN_A1: u64 = 1686447685;
pub const SIN_C2: u64 = 690662094;
pub const SIN_C3: u64 = 78071983;

/// Cubic coefficients for 2^g on g in [0, 1], Q30 scale; they sum to Q30
/// exactly so that 2^1 (and hence exp(0)) is exact.
pub const EXP_B1: u64 = 747298540;
pub const EXP_B2: u64 = 241048597;
pub const EXP_B3: u64 = 85394687;
/// log2(e) in Q30.
pub const LOG2E: u64 = 1549082005;
/// Arguments at or above this (Q30 scale, for exp(-m/Q30)) underflow to 0.
pub const EXP_CUT: u64 = 0x8_0000_0000;

/// Coefficients for atan on [0, 1], in ticks per unit.
pub const ATAN_A: u64 = 167268423;
pub const ATAN_B: u64 = 45320378;

/// Modular sum of two tick angles (exact arithmetic modulo one turn).
pub open spec fn add_ticks_spec(a: int, b: int) -> int {
    (a + b) % 0x1_0000_0000
}

/// Modular difference of two tick angles.
pub open spec fn sub_ticks_spec(a: int, b: int) -> int {
    (a + 0x1_0000_0000 - b) % 0x1_0000_0000
}

/// Add two angles, wrapping at a full turn.
pub fn add_ticks(a: u32, b: u32) -> (r: u32)
    ensures
        r as int == add_ticks_spec(a as int, b as int),
{
    let s: u64 = a as u64 + b as u64;
    if s < TURN {
        s as u32
    } else {
        (s - TURN) as u32
    }
}

/// Subtract two angles, wrapping at a full turn.
pub fn sub_ticks(a: u32, b: u32) -> (r: u32)
    ensures
        r as int == sub_ticks_spec(a as int, b as int),
{
    let s: u64 = a as u64 + TURN - b as u64;
    if s < TURN {
        s as u32
    } else {
        (s - TURN) as u32
    }
}

/// Reflection of the spin angle `theta` across the axis at angle `phi`:
/// 2*phi - theta, modulo one turn.
pub open spec fn reflect_axis_spec(theta: int, phi: int) -> int {
    sub_ticks_spec(add_ticks_spec(phi, phi), theta)
}

/// Reflection used by the cluster moves: pi - theta + 2*phi, modulo one turn.
pub open spec fn reflect_cluster_spec(theta: int, phi: int) -> int {
    sub_ticks_spec(add_ticks_spec(0x8000_0000, add_ticks_spec(phi, phi)), theta)
}

/// Reflect `theta` across the axis `phi` (2*phi - theta).
pub fn reflect_axis(theta: u32, phi: u32) -> (r: u32)
    ensures
        r as int == reflect_axis_spec(theta as int, phi as int),
{
    sub_ticks(add_ticks(phi, phi), theta)
}

/// The cluster-move reflection (pi - theta + 2*phi).
pub fn reflect_cluster(theta: u32, phi: u32) -> (r: u32)
    ensures
        r as int == reflect_cluster_spec(theta as int, phi as int),
{
    sub_ticks(add_ticks(HALF, add_ticks(phi, phi)), theta)
}

/// Q30 product with floor rounding.
pub open spec fn qmul_spec(a: int, b: int) -> int {
    (a * b) / 0x4000_0000
}

/// Multiply two nonnegative Q30 values, flooring the result.
pub fn qmul(a: u64, b: u64) -> (r: u64)
    requires
        a <= 0xFFFF_FFFF,
        b <= 0xFFFF_FFFF,
    ensures
        r as int == qmul_spec(a as int, b as int),
        b <= Q30 ==> r <= a,
        a <= Q30 ==> r <= b,
{
    proof {
        assert((a as int) * (b as int) <= 0xFFFF_FFFF * 0xFFFF_FFFF) by (nonlinear_arith)
            requires
                a <= 0xFFFF_FFFF,
                b <= 0xFFFF_FFFF,
        ;
        assert(b <= 0x4000_0000 ==> (a as int) * (b as int) <= (a as int) * 0x4000_0000)
            by (nonlinear_arith);
        assert(a <= 0x4000_0000 ==> (a as int) * (b as int) <= (b as int) * 0x4000_0000)
            by (nonlinear_arith);
    }
    (a * b) / Q30
}

/// Compute 2^k for small k.
pub fn pow2_u64(k: u64) -> (r: u64)
    requires
        k <= 63,
    ensures
        r as int == pow2(k as nat),
        r >= 1,
{
    proof {
        lemma2_to64();
        lemma2_to64_rest();
    }
    let mut r: u64 = 1;
    let mut i: u64 = 0;
    while i < k
        invariant
            i <= k,
            k <= 63,
            r as int == pow2(i as nat),
            1 <= r,
        decreases k - i,
    {
        proof {
            lemma2_to64();
            lemma2_to64_rest();
            if ((i as nat) < 63) {
                lemma_pow2_strictly_increases(i as nat, 63);
            }
            lemma_pow2_unfold((i + 1) as nat);
        }
        r = r * 2;
        i = i + 1;
    }
    r
}

/// Floor of the square root: the unique nonnegative root r with
/// r^2 <= x < (r+1)^2.
pub open spec fn is_floor_sqrt(r: int, x: int) -> bool {
    0 <= r && r * r <= x && x < (r + 1) * (r + 1)
}

/// The floor square root of a nonnegative integer.
pub open spec fn floor_sqrt(x: int) -> int {
    choose|r: int| is_floor_sqrt(r, x)
}

/// The floor square root is unique.
pub proof fn lemma_floor_sqrt_unique(r1: int, r2: int, x: int)
    by (nonlinear_arith)
    requires
        is_floor_sqrt(r1, x),
        is_floor_sqrt(r2, x),
    ensures
        r1 == r2,
{
}

/// Integer square root by binary expansion over the bits of the root.
pub fn isqrt_u128(x: u128) -> (r: u128)
    ensures
        is_floor_sqrt(r as int, x as int),
        r as int == floor_sqrt(x as int),
{
    proof {
        lemma2_to64();
        lemma2_to64_rest();
        assert((x as int) < pow2(64) * pow2(64)) by (nonlinear_arith)
            requires
                x as int <= 0xFFFF_FFFF_FFFF_FFFF_FFFF_FFFF_FFFF_FFFF,
                pow2(64) == 0x1_0000_0000_0000_0000,
        ;
    }
    let mut r: u128 = 0;
    let mut k: u64 = 64;
    while k > 0
        invariant
            k <= 64,
            (r as int) * (r as int) <= x as int,
            (x as int) < (r as int + pow2(k as nat)) * (r as int + pow2(k as nat)),
        decreases k,
    {
        proof {
            lemma2_to64();
            lemma2_to64_rest();
            lemma_pow2_unfold(k as nat);
            if (((k - 1) as nat) < 63) {
                lemma_pow2_strictly_increases((k - 1) as nat, 63);
            }
            // r is below 2^64, else r*r would exceed x.
            assert(r as int <= 0xFFFF_FFFF_FFFF_FFFF) by (nonlinear_arith)
                requires
                    (r as int) * (r as int) <= x as int,
                    x as int <= 0xFFFF_FFFF_FFFF_FFFF_FFFF_FFFF_FFFF_FFFF,
            ;
        }
        let b: u128 = pow2_u64(k - 1) as u128;
        let cand: u128 = r + b;
        if cand <= 0xFFFF_FFFF_FFFF_FFFF {
            proof {
                assert((cand as int) * (cand as int) <= 0xFFFF_FFFF_FFFF_FFFF
                    * 0xFFFF_FFFF_FFFF_FFFF) by (nonlinear_arith)
                    requires
                        cand <= 0xFFFF_FFFF_FFFF_FFFF,
                ;
            }
            if cand * cand <= x {
                r = cand;
                proof {
                    assert((x as int) < (r as int + pow2((k - 1) as nat)) * (r as int + pow2(
                        (k - 1) as nat,
                    )));
                }
            }
        } else {
            proof {
                if cand > 0xFFFF_FFFF_FFFF_FFFF {
                    assert((cand as int) * (cand as int) > x as int) by (nonlinear_arith)
                        requires
                            cand as int > 0xFFFF_FFFF_FFFF_FFFF,
                            x as int <= 0xFFFF_FFFF_FFFF_FFFF_FFFF_FFFF_FFFF_FFFF,
                    ;
                }
            }
        }
        k = k - 1;
    }
    proof {
        assert(pow2(0) == 1) by {
            lemma2_to64();
        }
        assert(is_floor_sqrt(r as int, x as int));
        lemma_floor_sqrt_unique(r as int, floor_sqrt(x as int), x as int);
    }
    r
}

/// Mirror of the quarter-wave sine computation: sin((pi/2)*(x/Q30)) in Q30
/// for x in [0, Q30], via an odd cubic with a final clamp to one.
pub open spec fn sinq_spec(x: int) -> int {
    let t2 = qmul_spec(x, x);
    let v = SIN_C2 - qmul_spec(t2, SIN_C3 as int);
    let y = SIN_A1 - qmul_spec(t2, v);
    let z = qmul_spec(x, y);
    if z > Q30 {
        Q30 as int
    } else {
        z
    }
}

/// Quarter-wave sine: sin((pi/2)*(x/Q30)) in Q30, for x in [0, Q30].
pub fn sinq(x: u64) -> (r: u64)
    requires
        x <= Q30,
    ensures
        r as int == sinq_spec(x as int),
        r <= Q30,
{
    let t2 = qmul(x, x);
    let u = qmul(t2, SIN_C3);
    let v = SIN_C2 - u;
    let w = qmul(t2, v);
    let y = SIN_A1 - w;
    let z = qmul(x, y);
    if z > Q30 {
        Q30
    } else {
        z
    }
}

/// Mirror of the full-circle sine: quadrant reduction over the quarter wave.
pub open spec fn sin_q30_spec(a: int) -> int {
    let q = a / 0x4000_0000;
    let x = a % 0x4000_0000;
    if q == 0 {
        sinq_spec(x)
    } else if q == 1 {
        sinq_spec(0x4000_0000 - x)
    } else if q == 2 {
        -sinq_spec(x)
    } else {
        -sinq_spec(0x4000_0000 - x)
    }
}

/// Mirror of the full-circle cosine: sine shifted by a quarter turn.
pub open spec fn cos_q30_spec(a: int) -> int {
    sin_q30_spec(add_ticks_spec(a, 0x4000_0000))
}

/// Sine of a tick angle, in Q30.
pub fn sin_q30(a: u32) -> (r: i64)
    ensures
        r as int == sin_q30_spec(a as int),
        -(Q30 as i64) <= r <= Q30 as i64,
{
    let q: u32 = a / QUARTER;
    let x: u64 = (a % QUARTER) as u64;
    if q == 0 {
        sinq(x) as i64
    } else if q == 1 {
        sinq(Q30 - x) as i64
    } else if q == 2 {
        -(sinq(x) as i64)
    } else {
        -(sinq(Q30 - x) as i64)
    }
}

/// Cosine of a tick angle, in Q30.
pub fn cos_q30(a: u32) -> (r: i64)
    ensures
        r as int == cos_q30_spec(a as int),
        -(Q30 as i64) <= r <= Q30 as i64,
{
    sin_q30(add_ticks(a, QUARTER))
}

/// Mirror of the negative exponential: exp(-m/Q30) in Q30 for m >= 0,
/// computed as 2^(-m*log2(e)) with a cubic for the fractional power of two.
pub open spec fn exp_nq30_spec(m: int) -> int {
    if m >= EXP_CUT {
        0
    } else {
        let y = (m * LOG2E) / 0x4000_0000;
        let n = y / 0x4000_0000;
        let g = 0x4000_0000 - (y % 0x4000_0000);
        let acc = Q30 + qmul_spec(g, EXP_B1 + qmul_spec(g, EXP_B2 + qmul_spec(g, EXP_B3 as int)));
        acc / (pow2((n + 1) as nat) as int)
    }
}

/// exp(-m/Q30) in Q30, for any nonnegative m (saturating to 0 for large m).
pub fn exp_nq30(m: u128) -> (r: u64)
    ensures
        r as int == exp_nq30_spec(m as int),
        r <= Q30,
{
    if m >= EXP_CUT as u128 {
        return 0;
    }
    let y128: u128 = (m * LOG2E as u128) / Q30 as u128;
    proof {
        assert(m * LOG2E <= 0x7_FFFF_FFFF * 1549082005int) by (nonlinear_arith)
            requires
                m < 0x8_0000_0000,
        ;
    }
    proof {
        assert(y128 <= 0xFFFF_FFFF_FFFF_FFFF);
    }
    let y: u64 = y128 as u64;
    let n: u64 = y / Q30;
    let f: u64 = y % Q30;
    let g: u64 = Q30 - f;
    let inner = EXP_B2 + qmul(g, EXP_B3);
    let mid = EXP_B1 + qmul(g, inner);
    let acc = Q30 + qmul(g, mid);
    let d = pow2_u64(n + 1);
    proof {
        lemma2_to64();
        lemma_pow2_unfold((n + 1) as nat);
        lemma_pow2_pos(n as nat);
        assert(d >= 2);
        lemma_div_is_ordered_by_denominator(acc as int, 2, d as int);
    }
    acc / d
}

/// exp(0) is exactly one.
pub proof fn lemma_exp_at_zero()
    ensures
        exp_nq30_spec(0) == Q30,
{
    let g: int = 0x4000_0000;
    assert(qmul_spec(g, EXP_B3 as int) == EXP_B3);
    assert(qmul_spec(g, EXP_B2 + qmul_spec(g, EXP_B3 as int)) == EXP_B2 + EXP_B3);
    assert(qmul_spec(g, EXP_B1 + qmul_spec(g, EXP_B2 + qmul_spec(g, EXP_B3 as int))) == EXP_B1
        + EXP_B2 + EXP_B3);
    assert(pow2(1) == 2) by {
        lemma2_to64();
    }
    assert(exp_nq30_spec(0) == (Q30 + Q30 as int) / (pow2(1) as int));
}

/// Mirror of the first-octant arctangent, in ticks: atan(z/Q30) for z in
/// [0, Q30], exact at both endpoints, clamped to one octant.
pub open spec fn atanq_spec(z: int) -> int {
    let w = qmul_spec(z, 0x4000_0000 - z);
    let c = ATAN_A + qmul_spec(z, ATAN_B as int);
    let s = z / 2 + qmul_spec(w, c);
    if s > 0x2000_0000 {
        0x2000_0000
    } else {
        s
    }
}

/// First-octant arctangent in ticks, for z in [0, Q30].
pub fn atanq(z: u64) -> (r: u64)
    requires
        z <= Q30,
    ensures
        r as int == atanq_spec(z as int),
        r <= 0x2000_0000,
{
    let w = qmul(z, Q30 - z);
    let c = ATAN_A + qmul(z, ATAN_B);
    let s = z / 2 + qmul(w, c);
    if s > 0x2000_0000 {
        0x2000_0000
    } else {
        s
    }
}

/// Mirror of the four-quadrant arctangent over Q30 components, in ticks.
pub open spec fn atan2_ticks_spec(y: int, x: int) -> int {
    if x == 0 && y == 0 {
        0
    } else {
        let ax = if x < 0 {
            -x
        } else {
            x
        };
        let ay = if y < 0 {
            -y
        } else {
            y
        };
        let base = if ay <= ax {
            atanq_spec((ay * 0x4000_0000) / ax)
        } else {
            0x4000_0000 - atanq_spec((ax * 0x4000_0000) / ay)
        };
        if x >= 0 && y >= 0 {
            base
        } else if x < 0 && y >= 0 {
            sub_ticks_spec(0x8000_0000, base)
        } else if x < 0 {
            add_ticks_spec(0x8000_0000, base)
        } else {
            sub_ticks_spec(0, base)
        }
    }
}

/// Four-quadrant arctangent of Q30 components, as a tick angle.
pub fn atan2_ticks(y: i128, x: i128) -> (r: u32)
    requires
        -0x1_0000_0000_0000_0000 <= y <= 0x1_0000_0000_0000_0000,
        -0x1_0000_0000_0000_0000 <= x <= 0x1_0000_0000_0000_0000,
    ensures
        r as int == atan2_ticks_spec(y as int, x as int),
{
    if x == 0 && y == 0 {
        return 0;
    }
    let ax: u128 = if x < 0 {
        (-x) as u128
    } else {
        x as u128
    };
    let ay: u128 = if y < 0 {
        (-y) as u128
    } else {
        y as u128
    };
    proof {
        assert(ax <= 0x1_0000_0000_0000_0000);
        assert(ay <= 0x1_0000_0000_0000_0000);
        assert((ax as int) * 0x4000_0000 <= 0x1_0000_0000_0000_0000 * 0x4000_0000)
            by (nonlinear_arith)
            requires
                ax <= 0x1_0000_0000_0000_0000,
        ;
        assert((ay as int) * 0x4000_0000 <= 0x1_0000_0000_0000_0000 * 0x4000_0000)
            by (nonlinear_arith)
            requires
                ay <= 0x1_0000_0000_0000_0000,
        ;
    }
    let base: u64 = if ay <= ax {
        let z: u128 = (ay * Q30 as u128) / ax;
        proof {
            lemma_ratio_at_most_one(ay as int, ax as int);
        }
        atanq(z as u64)
    } else {
        let z: u128 = (ax * Q30 as u128) / ay;
        proof {
            lemma_ratio_at_most_one(ax as int, ay as int);
        }
        Q30 - atanq(z as u64)
    };
    let b32: u32 = base as u32;
    if x >= 0 && y >= 0 {
        b32
    } else if x < 0 && y >= 0 {
        sub_ticks(HALF, b32)
    } else if x < 0 {
        add_ticks(HALF, b32)
    } else {
        sub_ticks(0, b32)
    }
}

/// For 0 <= a <= b with b positive, (a * Q30) / b is at most Q30.
proof fn lemma_ratio_at_most_one(a: int, b: int)
    by (nonlinear_arith)
    requires
        0 <= a <= b,
        0 < b,
    ensures
        0 <= (a * 0x4000_0000) / b <= 0x4000_0000,
{
}

} // verus!
