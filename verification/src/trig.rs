//! Fixed-point evaluation of the transcendental pieces the kernel table
//! needs: the sine of a fraction of a turn, and the modified Bessel
//! function the Kaiser window is built from. All arithmetic is integer;
//! every value carries an explicit binary scale.

use vstd::prelude::*;
use crate::frames::lemma_div_reaches;

verus! {

/// sin(pi/2) scaled by 2^62: degree-1 coefficient of the quarter-turn sine
/// series.
pub const SIN_C1: i128 = 7244019458077122560;
/// Degree-3 coefficient of the quarter-turn sine series, scaled 2^62.
pub const SIN_C3: i128 = -2978983596875621376;
/// Degree-5 coefficient of the quarter-turn sine series, scaled 2^62.
pub const SIN_C5: i128 = 367517370231208000;
/// Degree-7 coefficient of the quarter-turn sine series, scaled 2^62.
pub const SIN_C7: i128 = -21590780087563792;
/// Degree-9 coefficient of the quarter-turn sine series, scaled 2^62.
pub const SIN_C9: i128 = 739904368663792;
/// Degree-11 coefficient of the quarter-turn sine series, scaled 2^62.
pub const SIN_C11: i128 = -16596735030340;
/// Degree-13 coefficient of the quarter-turn sine series, scaled 2^62.
pub const SIN_C13: i128 = 262505142787;
/// Degree-15 coefficient of the quarter-turn sine series, scaled 2^62.
pub const SIN_C15: i128 = -3084311801;

/// pi scaled by 2^62.
pub const PI_U62: u128 = 14488038916154245120;

/// One in the 2^62 fixed-point scale.
pub const ONE_Q62: i64 = 0x4000_0000_0000_0000;

/// One in the 2^62 fixed-point scale, as an unsigned wide word.
pub const ONE_U62: u128 = 0x4000_0000_0000_0000;

/// Product of two 2^62-scaled values, rescaled back to 2^62 (truncated
/// toward zero). The left factor must lie in [0, 1]; the result's
/// magnitude then never exceeds the right factor's.
pub fn mul_q62(a: i128, b: i128) -> (r: i128)
    requires
        0 <= a <= ONE_U62,
        -0x2_0000_0000_0000_0000 <= b <= 0x2_0000_0000_0000_0000,
    ensures
        b >= 0 ==> r == (a * b) / (ONE_U62 as int),
        b < 0 ==> r == -((a * -b) / (ONE_U62 as int)),
        b >= 0 ==> 0 <= r <= b,
        b <= 0 ==> b <= r <= 0,
{
    let bu: u128 = if b < 0 { (-b) as u128 } else { b as u128 };
    proof {
        assert((a as u128) * bu <= 0x8000_0000_0000_0000_0000_0000_0000_0000u128)
            by (nonlinear_arith)
            requires (a as u128) <= 0x4000_0000_0000_0000u128
                && bu <= 0x2_0000_0000_0000_0000u128;
    }
    let prod: u128 = (a as u128) * bu;
    proof {
        assert(prod <= ONE_U62 * bu) by (nonlinear_arith)
            requires prod == a as u128 * bu && 0 <= a as u128 <= ONE_U62;
        assert(ONE_U62 * bu < (bu + 1) * ONE_U62) by (nonlinear_arith);
        lemma_div_reaches(prod as int, ONE_U62 as int, bu as int + 1);
    }
    let q: u128 = prod / ONE_U62;
    if b < 0 {
        -(q as i128)
    } else {
        q as i128
    }
}

/// The truncated fixed-point product `a * b / 2^62` with the sign of `b`,
/// as `mul_q62` computes it.
pub open spec fn spec_mul_q62(a: int, b: int) -> int {
    if b >= 0 {
        (a * b) / (ONE_U62 as int)
    } else {
        -((a * -b) / (ONE_U62 as int))
    }
}

/// One Horner step of the quarter-turn sine series: coefficient plus the
/// rescaled product of `v2` and the running sum.
pub open spec fn sine_horner_step(c: int, v2: int, s: int) -> int {
    c + spec_mul_q62(v2, s)
}

/// The quarter-turn sine polynomial exactly as evaluated: an eight-term
/// Horner chain over `v2 = v*v/2^62`, multiplied by `v`, clamped to one.
pub open spec fn spec_quarter_sine(v: int) -> int {
    let v2 = spec_mul_q62(v, v);
    let s = sine_horner_step(
        SIN_C1 as int,
        v2,
        sine_horner_step(
            SIN_C3 as int,
            v2,
            sine_horner_step(
                SIN_C5 as int,
                v2,
                sine_horner_step(
                    SIN_C7 as int,
                    v2,
                    sine_horner_step(
                        SIN_C9 as int,
                        v2,
                        sine_horner_step(
                            SIN_C11 as int,
                            v2,
                            sine_horner_step(SIN_C13 as int, v2, SIN_C15 as int),
                        ),
                    ),
                ),
            ),
        ),
    );
    let p = spec_mul_q62(v, s);
    if p > ONE_Q62 as int {
        ONE_Q62 as int
    } else if p < -(ONE_Q62 as int) {
        -(ONE_Q62 as int)
    } else {
        p
    }
}

/// The sine of `t / 2^32` turns in the 2^62 scale, by exact quadrant
/// folding of `spec_quarter_sine`.
pub open spec fn spec_sin_turn(t: int) -> int {
    let quad = t / 0x4000_0000;
    let v = (t % 0x4000_0000) * 0x1_0000_0000;
    if quad == 0 {
        spec_quarter_sine(v)
    } else if quad == 1 {
        spec_quarter_sine(ONE_Q62 as int - v)
    } else if quad == 2 {
        -spec_quarter_sine(v)
    } else {
        -spec_quarter_sine(ONE_Q62 as int - v)
    }
}

/// At a whole or half turn the folded sine is exactly zero: the quadrant
/// fraction is zero, and every Horner product with a zero factor vanishes.
pub proof fn lemma_sin_turn_zero(t: int)
    requires
        t == 0 || t == 0x8000_0000,
    ensures
        spec_sin_turn(t) == 0,
{
    vstd::arithmetic::div_mod::lemma_fundamental_div_mod(t, 0x4000_0000);
    assert(t % 0x4000_0000 == 0) by (nonlinear_arith)
        requires t == 0 || t == 0x8000_0000;
    assert((t % 0x4000_0000) * 0x1_0000_0000 == 0);
    lemma_quarter_sine_zero();
}

/// The quarter-turn sine polynomial vanishes at zero: every Horner step
/// with a zero squared argument reduces to its coefficient, and the final
/// product with the zero argument vanishes.
proof fn lemma_quarter_sine_zero()
    ensures
        spec_quarter_sine(0) == 0,
{
    assert forall|b: int| #[trigger] spec_mul_q62(0, b) == 0 by {
        lemma_mul_q62_zero_left(b);
    }
}

/// A fixed-point product with a zero left factor is zero.
proof fn lemma_mul_q62_zero_left(b: int)
    ensures
        spec_mul_q62(0, b) == 0,
{
    if b >= 0 {
        assert(0 * b == 0) by (nonlinear_arith);
        vstd::arithmetic::div_mod::lemma_div_of0(ONE_U62 as int);
    } else {
        assert(0 * -b == 0) by (nonlinear_arith);
        vstd::arithmetic::div_mod::lemma_div_of0(ONE_U62 as int);
    }
}

/// sin(pi/2 * v) for v in [0, 1], both in the 2^62 scale; the result is
/// clamped into [-1, 1] in the same scale.
fn quarter_sine(v: i64) -> (r: i64)
    requires
        0 <= v <= ONE_Q62,
    ensures
        r == spec_quarter_sine(v as int),
        -ONE_Q62 <= r <= ONE_Q62,
{
    let v128 = v as i128;
    let v2 = mul_q62(v128, v128);
    let mut s: i128 = SIN_C15;
    s = SIN_C13 + mul_q62(v2, s);
    s = SIN_C11 + mul_q62(v2, s);
    s = SIN_C9 + mul_q62(v2, s);
    s = SIN_C7 + mul_q62(v2, s);
    s = SIN_C5 + mul_q62(v2, s);
    s = SIN_C3 + mul_q62(v2, s);
    s = SIN_C1 + mul_q62(v2, s);
    let p = mul_q62(v128, s);
    if p > ONE_Q62 as i128 {
        ONE_Q62
    } else if p < -(ONE_Q62 as i128) {
        -ONE_Q62
    } else {
        p as i64
    }
}

/// Sine of `t / 2^32` turns, scaled by 2^62. Quadrant folding makes the
/// range reduction exact; whole and half turns come out exactly zero.
pub fn sin_turn(t: u32) -> (r: i64)
    ensures
        r == spec_sin_turn(t as int),
        -ONE_Q62 <= r <= ONE_Q62,
{
    let quad = t / 0x4000_0000;
    let frac = (t % 0x4000_0000) as u64;
    let v = (frac * 0x1_0000_0000) as i64;
    if quad == 0 {
        quarter_sine(v)
    } else if quad == 1 {
        quarter_sine(ONE_Q62 - v)
    } else if quad == 2 {
        let p = quarter_sine(v);
        -p
    } else {
        let p = quarter_sine(ONE_Q62 - v);
        -p
    }
}

/// Largest partial term the Bessel series is allowed to reach; far above
/// any value the supported window shapes produce, so the cap only serves
/// to keep the running bounds trivial.
pub const BESSEL_TERM_CAP: u128 = 0x1000_0000_0000_0000;

/// One in the 2^40 fixed-point scale.
pub const ONE_U40: u128 = 0x100_0000_0000;

/// Term `k` of the capped Bessel power series exactly as computed: each
/// term is the previous one times `a / 2^40`, divided by `k^2`, saturated
/// at the term cap.
pub open spec fn bessel_term(a: int, k: nat) -> int
    decreases k,
{
    if k == 0 {
        ONE_U40 as int
    } else {
        let next = ((bessel_term(a, (k - 1) as nat) * a) / (ONE_U40 as int))
            / ((k * k) as int);
        if next > BESSEL_TERM_CAP as int {
            BESSEL_TERM_CAP as int
        } else {
            next
        }
    }
}

/// Partial sum of the capped Bessel series through term `k`.
pub open spec fn bessel_sum(a: int, k: nat) -> int
    decreases k,
{
    if k == 0 {
        bessel_term(a, 0)
    } else {
        bessel_sum(a, (k - 1) as nat) + bessel_term(a, k)
    }
}

/// Modified Bessel function I0 evaluated by its power series: the argument
/// is `(z/2)^2` in the 2^40 scale, the result is I0(z) in the same scale —
/// exactly the sixty-term capped series sum.
pub fn bessel_i0(a: u128) -> (r: u128)
    requires
        a <= 64 * ONE_U40,
    ensures
        r == bessel_sum(a as int, 60),
        ONE_U40 <= r <= 61 * BESSEL_TERM_CAP,
{
    proof {
        assert(BESSEL_TERM_CAP == 0x1000_0000_0000_0000u128);
        assert(ONE_U40 == 0x100_0000_0000u128);
    }
    let mut term: u128 = ONE_U40;
    let mut sum: u128 = term;
    let mut k: u64 = 1;
    while k <= 60
        invariant
            1 <= k <= 61,
            a <= 64 * ONE_U40,
            term <= BESSEL_TERM_CAP,
            term == bessel_term(a as int, (k - 1) as nat),
            sum == bessel_sum(a as int, (k - 1) as nat),
            ONE_U40 <= sum <= k as u128 * BESSEL_TERM_CAP,
        decreases 61 - k,
    {
        proof {
            assert(k * k <= 3600) by (nonlinear_arith)
                requires 1 <= k <= 60;
            assert(term * a <= 0x400_0000_0000_0000_0000_0000_0000u128) by (nonlinear_arith)
                requires term <= 0x1000_0000_0000_0000u128 && a <= 0x4000_0000_0000u128;
            assert(k * k >= 1) by (nonlinear_arith)
                requires k >= 1;
        }
        let kk = (k * k) as u128;
        let mut next = ((term * a) / ONE_U40) / kk;
        if next > BESSEL_TERM_CAP {
            next = BESSEL_TERM_CAP;
        }
        term = next;
        sum = sum + term;
        k = k + 1;
    }
    sum
}

} // verus!
