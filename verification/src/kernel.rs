//! The interpolation kernel: a windowed-sinc weight table, oversampled by a
//! power of two, plus the per-output weight evaluation. The kernel is pure:
//! all mutable state lives in the converter.
//!
//! Table entries are scaled by 2^30. Entry `i` holds the kernel value at
//! distance `i / os` input frames from the interpolation point, where `os`
//! is the oversampling factor; the table covers distances up to the kernel
//! half-width, plus a zero pad so that linear interpolation may always read
//! one entry ahead.

use vstd::prelude::*;
use crate::trig::{sin_turn, bessel_i0, ONE_U62, ONE_U40, PI_U62, spec_sin_turn,
    lemma_sin_turn_zero};
use crate::frames::lemma_div_reaches;

verus! {

/// One in the 2^30 fixed-point scale of the kernel table.
pub const ONE_Q30: i64 = 0x4000_0000;

/// Bound on an interpolated kernel weight: table entries are within one,
/// and linear interpolation between entries adds at most their spread.
pub const WEIGHT_BOUND: i64 = 0xC000_0000;

/// Largest supported kernel half-width.
pub const HALF_MAX: usize = 48;

/// Largest supported table oversampling factor.
pub const OS_MAX: u64 = 4096;

/// Linear interpolation between adjacent table entries, exactly as
/// computed: entry `e` moved toward entry `e + 1` by `sub / 2^32`,
/// truncated toward entry `e`.
pub open spec fn spec_interp(t: Seq<i64>, e: int, sub: int) -> int {
    if t[e + 1] >= t[e] {
        t[e] + ((t[e + 1] - t[e]) * sub) / 0x1_0000_0000
    } else {
        t[e] - ((t[e] - t[e + 1]) * sub) / 0x1_0000_0000
    }
}

/// The weight of the input sample `i` frames left of the integer read
/// position, at fractional offset `fq32 / 2^32`: the table interpolated at
/// distance `i + fq32 / 2^32`.
pub open spec fn left_weight(t: Seq<i64>, os: int, fq32: int, i: int) -> int {
    spec_interp(t, i * os + (fq32 * os) / 0x1_0000_0000, (fq32 * os) % 0x1_0000_0000)
}

/// The weight of the input sample `i + 1` frames right of the integer read
/// position: the table interpolated at distance `i + 1 - fq32 / 2^32`.
pub open spec fn right_weight(t: Seq<i64>, os: int, fq32: int, i: int) -> int {
    spec_interp(
        t,
        (((i + 1) * 0x1_0000_0000 - fq32) * os) / 0x1_0000_0000,
        (((i + 1) * 0x1_0000_0000 - fq32) * os) % 0x1_0000_0000,
    )
}

/// A well-formed kernel table for half-width `half` at oversampling `os`.
pub open spec fn table_wf(t: Seq<i64>, half: int, os: int) -> bool {
    &&& t.len() == half * os + 2
    &&& forall|j: int| 0 <= j < t.len() ==> -ONE_Q30 <= #[trigger] t[j] <= ONE_Q30
}

/// Builds the windowed-sinc table: `sinc(pi x) * kaiser(x / half)` sampled
/// at distances `x = i / os`, in the 2^30 scale, with a trailing zero pad.
pub fn build_table(half: usize, os: u64, shape: u64) -> (t: Vec<i64>)
    requires
        1 <= half <= HALF_MAX,
        2 <= os <= OS_MAX,
        0x8000_0000u64 % os == 0,
        1 <= shape <= 64,
    ensures
        table_wf(t@, half as int, os as int),
        t@[0] == ONE_Q30,
        forall|j: int| 0 < j <= half * os && j % (os as int) == 0 ==> t@[j] == 0,
        t@[half * os + 1] == 0,
{
    proof {
        assert(half as u64 * os <= 0x3_0000) by (nonlinear_arith)
            requires half as u64 <= 48 && os <= 4096;
    }
    let n: u64 = (half as u64) * os;
    proof {
        assert(half as u64 * os >= 2) by (nonlinear_arith)
            requires half as u64 >= 1 && os >= 2;
    }
    let half_cycle: u64 = 0x8000_0000u64 / os;
    proof {
        vstd::arithmetic::div_mod::lemma_fundamental_div_mod(0x8000_0000, os as int);
        assert((os as int) * (half_cycle as int) == 0x8000_0000) by (nonlinear_arith)
            requires os as int * (0x8000_0000int / os as int) + 0x8000_0000int % (os as int)
                == 0x8000_0000 && 0x8000_0000int % (os as int) == 0
                && half_cycle as int == 0x8000_0000int / (os as int);
    }
    let wden: u128 = bessel_i0((shape as u128) * ONE_U40);
    let mut t: Vec<i64> = Vec::new();
    let mut i: u64 = 0;
    while i <= n
        invariant
            n == half as u64 * os,
            2 <= n <= 0x3_0000,
            2 <= os <= OS_MAX,
            1 <= shape <= 64,
            half_cycle == 0x8000_0000u64 / os,
            (os as int) * (half_cycle as int) == 0x8000_0000,
            wden == crate::trig::bessel_sum((shape as u128 * ONE_U40) as int, 60),
            wden >= ONE_U40,
            t@.len() == i,
            i <= n + 1,
            t@.len() > 0 ==> t@[0] == ONE_Q30,
            forall|j: int| 0 < j < t@.len() && j % (os as int) == 0 ==> #[trigger] t@[j] == 0,
            forall|j: int| 0 <= j < t@.len() ==> -ONE_Q30 <= #[trigger] t@[j] <= ONE_Q30,
        decreases n + 1 - i,
    {
        // sin of pi * (i / os), via the exact turn representation
        proof {
            assert(0x8000_0000u64 / os <= 0x4000_0000u64) by (nonlinear_arith)
                requires os >= 2;
            assert(i * half_cycle <= 0xC000_4000_0000u64) by (nonlinear_arith)
                requires i <= 0x3_0001u64 && half_cycle <= 0x4000_0000u64;
        }
        let turn: u32 = ((i * half_cycle) % 0x1_0000_0000u64) as u32;
        let s: i64 = sin_turn(turn);
        proof {
            if i == 0 {
                lemma_sin_turn_zero(0);
                assert(s == 0);
            } else if i % os == 0 {
                let q = i as int / os as int;
                vstd::arithmetic::div_mod::lemma_fundamental_div_mod(i as int, os as int);
                assert((i as int) * (half_cycle as int) == q * 0x8000_0000)
                    by (nonlinear_arith)
                    requires i as int == (os as int) * q
                        && (os as int) * (half_cycle as int) == 0x8000_0000;
                vstd::arithmetic::div_mod::lemma_fundamental_div_mod(q, 2);
                assert(q * 0x8000_0000
                    == (q / 2) * 0x1_0000_0000 + (q % 2) * 0x8000_0000)
                    by (nonlinear_arith)
                    requires q == 2 * (q / 2) + q % 2;
                vstd::arithmetic::div_mod::lemma_fundamental_div_mod_converse(
                    q * 0x8000_0000,
                    0x1_0000_0000,
                    q / 2,
                    (q % 2) * 0x8000_0000,
                );
                assert(turn as int == (q % 2) * 0x8000_0000);
                lemma_sin_turn_zero(turn as int);
                assert(s == 0);
            }
        }
        // sinc magnitude in the 2^62 scale
        let smag: u128 = if s < 0 { (-s) as u128 } else { s as u128 };
        let sinc_mag: u128 = if i == 0 {
            ONE_U62
        } else {
            let pix: u128 = (PI_U62 * (i as u128)) / (os as u128);
            proof {
                assert(PI_U62 * (i as u128) <= PI_U62 * 0x3_0000u128) by (nonlinear_arith)
                    requires 1 <= i as u128 <= 0x3_0000u128;
                assert(PI_U62 * (i as u128) >= PI_U62) by (nonlinear_arith)
                    requires i as u128 >= 1;
                lemma_div_reaches(PI_U62 as int * i as int, os as int, 1);
                assert(smag * ONE_U62 <= 0x1000_0000_0000_0000_0000_0000_0000_0000u128)
                    by (nonlinear_arith)
                    requires smag <= ONE_U62 && ONE_U62 == 0x4000_0000_0000_0000u128;
            }
            proof {
                if i % os == 0 {
                    assert(smag == 0);
                    vstd::arithmetic::div_mod::lemma_div_of0(pix as int);
                }
            }
            let q: u128 = (smag * ONE_U62) / pix;
            if q > ONE_U62 {
                ONE_U62
            } else {
                q
            }
        };
        // Kaiser window in the 2^30 scale
        proof {
            assert((i as u128) * (i as u128) <= 0x9_0006_0001u128) by (nonlinear_arith)
                requires i as u128 <= 0x3_0001u128;
            assert(1 <= (n as u128) * (n as u128) <= 0x9_0000_0000u128) by (nonlinear_arith)
                requires 1 <= n as u128 <= 0x3_0000u128;
            assert(0x9_0006_0001u128 * ONE_U40 <= 0x900_0600_0100_0000_0000_0000u128)
                by (nonlinear_arith)
                requires ONE_U40 == 0x100_0000_0000u128;
        }
        proof {
            if i == 0 {
                vstd::arithmetic::div_mod::lemma_div_of0(((n as u128) * (n as u128)) as int);
            }
        }
        let mut y2: u128 = (((i as u128) * (i as u128)) * ONE_U40) / ((n as u128) * (n as u128));
        if y2 > ONE_U40 {
            y2 = ONE_U40;
        }
        proof {
            if i == 0 {
                assert(y2 == 0);
            }
        }
        proof {
            assert((shape as u128) * (ONE_U40 - y2) <= 64 * ONE_U40) by (nonlinear_arith)
                requires shape as u128 <= 64 && ONE_U40 - y2 <= ONE_U40;
        }
        let arg: u128 = (shape as u128) * (ONE_U40 - y2);
        let wnum: u128 = bessel_i0(arg);
        proof {
            assert(wnum * 0x4000_0000u128 <= 0xF4_0000_0000_0000_0000_0000_0000u128)
                by (nonlinear_arith)
                requires wnum <= 0x3_D000_0000_0000_0000u128;
        }
        proof {
            if i == 0 {
                assert(arg == (shape as u128) * ONE_U40);
                assert(wnum == wden);
                vstd::arithmetic::div_mod::lemma_div_multiples_vanish(
                    0x4000_0000,
                    wden as int,
                );
                assert((wnum as int) * 0x4000_0000 == (wden as int) * 0x4000_0000);
            }
        }
        let mut w: u128 = (wnum * 0x4000_0000u128) / wden;
        if w > 0x4000_0000u128 {
            w = 0x4000_0000u128;
        }
        proof {
            if i == 0 {
                assert(w == 0x4000_0000u128);
            }
        }
        // combine, rescale to 2^30, and restore the sign
        proof {
            assert(sinc_mag * w <= 0x1000_0000_0000_0000_0000_0000u128) by (nonlinear_arith)
                requires sinc_mag <= 0x4000_0000_0000_0000u128 && w <= 0x4000_0000u128;
        }
        proof {
            if i == 0 {
                vstd::arithmetic::div_mod::lemma_div_multiples_vanish(
                    0x4000_0000,
                    ONE_U62 as int,
                );
                assert((sinc_mag as int) * (w as int) == (ONE_U62 as int) * 0x4000_0000);
            } else if i % os == 0 {
                assert(sinc_mag * w == 0) by (nonlinear_arith)
                    requires sinc_mag == 0;
                vstd::arithmetic::div_mod::lemma_div_of0(ONE_U62 as int);
            }
        }
        let mut emag: u128 = (sinc_mag * w) / ONE_U62;
        if emag > 0x4000_0000u128 {
            emag = 0x4000_0000u128;
        }
        let entry: i64 = if s < 0 && i > 0 {
            -(emag as i64)
        } else {
            emag as i64
        };
        proof {
            if i == 0 {
                assert(entry == ONE_Q30);
            } else if i % os == 0 {
                assert(entry == 0);
            }
        }
        t.push(entry);
        i = i + 1;
    }
    t.push(0);
    proof {
        assert(t@.len() == half as int * os as int + 2);
    }
    t
}

/// Linear interpolation between two adjacent table entries: entry `e`
/// blended toward entry `e + 1` by `sub / 2^32`.
fn interp_entry(t: &Vec<i64>, e: usize, sub: u64) -> (w: i64)
    requires
        e + 1 < t@.len(),
        sub < 0x1_0000_0000,
        forall|j: int| 0 <= j < t@.len() ==> -ONE_Q30 <= #[trigger] t@[j] <= ONE_Q30,
    ensures
        w == spec_interp(t@, e as int, sub as int),
        -WEIGHT_BOUND <= w <= WEIGHT_BOUND,
{
    let l: usize = t.len();
    let a = t[e];
    let b = t[e + 1];
    let d: i64 = b - a;
    let du: u64 = if d < 0 { (-d) as u64 } else { d as u64 };
    proof {
        assert(du * sub <= 0x1_0000_0000u64 * 0x1_0000_0000u64) by (nonlinear_arith)
            requires du <= 0x1_0000_0000u64 && sub <= 0x1_0000_0000u64;
        lemma_div_reaches(du as int * sub as int, 0x1_0000_0000, du as int + 1);
        assert(du * sub < (du + 1) * 0x1_0000_0000) by (nonlinear_arith)
            requires sub < 0x1_0000_0000u64;
    }
    let adj: u64 = (du * sub) / 0x1_0000_0000u64;
    if d < 0 {
        a - (adj as i64)
    } else {
        a + (adj as i64)
    }
}

/// Fills the per-output tap weights for fractional read offset
/// `fq32 / 2^32`: `left[i]` weights the input sample `i` frames left of the
/// integer read position, `right[i]` the sample `i + 1` frames right of it.
pub fn fill_weights(
    t: &Vec<i64>,
    half: usize,
    os: u64,
    fq32: u64,
    left: &mut Vec<i64>,
    right: &mut Vec<i64>,
)
    requires
        1 <= half <= HALF_MAX,
        2 <= os <= OS_MAX,
        fq32 < 0x1_0000_0000,
        table_wf(t@, half as int, os as int),
    ensures
        final(left)@.len() == half,
        final(right)@.len() == half,
        forall|j: int| 0 <= j < half ==>
            #[trigger] final(left)@[j] == left_weight(t@, os as int, fq32 as int, j),
        forall|j: int| 0 <= j < half ==>
            #[trigger] final(right)@[j] == right_weight(t@, os as int, fq32 as int, j),
        forall|j: int| 0 <= j < half ==>
            -WEIGHT_BOUND <= #[trigger] final(left)@[j] <= WEIGHT_BOUND,
        forall|j: int| 0 <= j < half ==>
            -WEIGHT_BOUND <= #[trigger] final(right)@[j] <= WEIGHT_BOUND,
{
    left.clear();
    right.clear();
    proof {
        assert(fq32 * os < 0x1_0000_0000u64 * 4096u64) by (nonlinear_arith)
            requires fq32 < 0x1_0000_0000u64 && os <= 4096;
        lemma_div_reaches(fq32 as int * os as int, 0x1_0000_0000, os as int);
        assert(fq32 * os < os * 0x1_0000_0000) by (nonlinear_arith)
            requires fq32 < 0x1_0000_0000u64 && os >= 1;
    }
    let eoff: usize = ((fq32 * os) / 0x1_0000_0000u64) as usize;
    let sub: u64 = (fq32 * os) % 0x1_0000_0000u64;
    let mut i: usize = 0;
    while i < half
        invariant
            i <= half,
            1 <= half <= HALF_MAX,
            2 <= os <= OS_MAX,
            eoff < os,
            sub < 0x1_0000_0000,
            table_wf(t@, half as int, os as int),
            left@.len() == i,
            eoff as int == (fq32 as int * os as int) / 0x1_0000_0000,
            sub as int == (fq32 as int * os as int) % 0x1_0000_0000,
            forall|j: int| 0 <= j < left@.len() ==>
                #[trigger] left@[j] == left_weight(t@, os as int, fq32 as int, j),
            forall|j: int| 0 <= j < left@.len() ==>
                -WEIGHT_BOUND <= #[trigger] left@[j] <= WEIGHT_BOUND,
        decreases half - i,
    {
        proof {
            assert(i as u64 * os + eoff as u64 + 1 < half as u64 * os + 1) by (nonlinear_arith)
                requires i as u64 + 1 <= half as u64 && (eoff as u64) < os && os >= 2;
            assert(half as u64 * os <= 0x3_0000u64) by (nonlinear_arith)
                requires half as u64 <= 48 && os <= 4096;
        }
        let e: usize = i * (os as usize) + eoff;
        proof {
            assert(e as int == i as int * os as int + eoff as int) by (nonlinear_arith)
                requires e as int == (i as int) * (os as int) + eoff as int;
        }
        let w = interp_entry(t, e, sub);
        left.push(w);
        i = i + 1;
    }
    let mut i: usize = 0;
    while i < half
        invariant
            i <= half,
            1 <= half <= HALF_MAX,
            2 <= os <= OS_MAX,
            fq32 < 0x1_0000_0000,
            table_wf(t@, half as int, os as int),
            right@.len() == i,
            forall|j: int| 0 <= j < right@.len() ==>
                #[trigger] right@[j] == right_weight(t@, os as int, fq32 as int, j),
            forall|j: int| 0 <= j < right@.len() ==>
                -WEIGHT_BOUND <= #[trigger] right@[j] <= WEIGHT_BOUND,
        decreases half - i,
    {
        proof {
            assert(half as u64 * os <= 0x3_0000u64) by (nonlinear_arith)
                requires half as u64 <= 48 && os <= 4096;
            assert((i as u64 + 1) * 0x1_0000_0000u64 <= half as u64 * 0x1_0000_0000u64
                && half as u64 * 0x1_0000_0000u64 <= 48 * 0x1_0000_0000u64
                && (i as u64 + 1) * 0x1_0000_0000u64 >= 0x1_0000_0000u64)
                by (nonlinear_arith)
                requires i as u64 + 1 <= half as u64 && half as u64 <= 48;
        }
        let rq: u64 = ((i as u64) + 1) * 0x1_0000_0000u64 - fq32;
        proof {
            assert(rq * os <= half as u64 * 0x1_0000_0000u64 * os
                && half as u64 * 0x1_0000_0000u64 * os == (half as u64 * os) * 0x1_0000_0000u64
                && (half as u64 * os) * 0x1_0000_0000u64 <= 0x3_0000u64 * 0x1_0000_0000u64
                && rq * os < (half as u64 * os + 1) * 0x1_0000_0000u64)
                by (nonlinear_arith)
                requires rq <= half as u64 * 0x1_0000_0000u64 && 1 <= os <= 4096
                    && half as u64 * os <= 0x3_0000u64 && half as u64 <= 48;
            lemma_div_reaches(rq as int * os as int, 0x1_0000_0000, half as int * os as int + 1);
        }
        let e: usize = ((rq * os) / 0x1_0000_0000u64) as usize;
        let sub2: u64 = (rq * os) % 0x1_0000_0000u64;
        proof {
            assert(rq as int == (i as int + 1) * 0x1_0000_0000 - fq32 as int);
        }
        let w = interp_entry(t, e, sub2);
        right.push(w);
        i = i + 1;
    }
}

} // verus!
