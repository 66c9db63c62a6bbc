//! Exact frame accounting.
//!
//! A converter with ratio `num / den` places output instant `n` at input
//! position `n * den / num` (in input frames). The position is kept as a
//! whole part plus a fractional numerator over `num`, so the read cursor is
//! exact for the whole life of the stream: repeated chunked processing and a
//! single one-shot pass land on identical positions and identical counts.

use vstd::prelude::*;
use vstd::arithmetic::div_mod::{lemma_fundamental_div_mod, lemma_fundamental_div_mod_converse};

verus! {

/// Ceiling of `a / b` for a non-negative dividend and positive divisor.
pub open spec fn ceil_div(a: int, b: int) -> int {
    (a + b - 1) / b
}

/// Total output frames owed for `fed` input frames at ratio `num / den`:
/// the number of output instants that fall strictly before the end of the
/// input, which is exactly `ceil(fed * num / den)`.
pub open spec fn total_ready(fed: int, num: int, den: int) -> int {
    ceil_div(fed * num, den)
}

/// Output frames emittable while the stream is still open: an output needs
/// `right` frames of look-ahead past its integer read position, so only
/// instants strictly before `fed - right` can be emitted.
pub open spec fn stream_ready(fed: int, right: int, num: int, den: int) -> int {
    if fed >= right {
        ceil_div((fed - right) * num, den)
    } else {
        0
    }
}

/// Whole part of the read position after `e` output frames at ratio
/// `num / den`.
pub open spec fn pos_whole(e: int, num: int, den: int) -> int {
    (e * den) / num
}

/// Fractional numerator (over `num`) of the read position after `e` output
/// frames at ratio `num / den`.
pub open spec fn pos_frac(e: int, num: int, den: int) -> int {
    (e * den) % num
}

/// The smaller of two integers.
pub open spec fn min2(a: int, b: int) -> int {
    if a <= b {
        a
    } else {
        b
    }
}

/// An integer clamped up to zero.
pub open spec fn clamp0(x: int) -> int {
    if x >= 0 {
        x
    } else {
        0
    }
}

/// For a positive divisor, the quotient reaches `t` exactly when the
/// dividend reaches `t * d`.
pub proof fn lemma_div_reaches(x: int, d: int, t: int)
    requires
        d >= 1,
    ensures
        (x / d >= t) <==> (x >= t * d),
{
    lemma_fundamental_div_mod(x, d);
    if x >= t * d {
        assert(d * (x / d) + x % d >= t * d);
        assert(d * (x / d) > d * (t - 1)) by (nonlinear_arith)
            requires d >= 1 && 0 <= x % d < d && d * (x / d) + x % d >= t * d;
        assert(x / d > t - 1) by (nonlinear_arith)
            requires d >= 1 && d * (x / d) > d * (t - 1);
    }
    if x / d >= t {
        assert(d * (x / d) >= d * t) by (nonlinear_arith)
            requires d >= 1 && x / d >= t;
        assert(x >= t * d);
    }
}

/// After `e` outputs the whole read position has reached threshold `t`
/// exactly when `e` has reached the count of outputs before `t`.
pub proof fn lemma_emit_threshold(e: int, num: int, den: int, t: int)
    requires
        num >= 1,
        den >= 1,
        t >= 0,
    ensures
        (pos_whole(e, num, den) >= t) <==> (e >= ceil_div(t * num, den)),
{
    lemma_div_reaches(e * den, num, t);
    lemma_div_reaches(t * num + den - 1, den, e + 1);
    assert((e + 1) * den == e * den + den) by (nonlinear_arith);
}

/// Advancing the exact position by one output step: adding `den` to the
/// fractional numerator and carrying into the whole part lands precisely on
/// the position of output `e + 1`.
pub proof fn lemma_pos_step(e: int, num: int, den: int)
    requires
        num >= 1,
        den >= 0,
        e >= 0,
    ensures
        pos_whole(e, num, den) + (pos_frac(e, num, den) + den) / num
            == pos_whole(e + 1, num, den),
        (pos_frac(e, num, den) + den) % num == pos_frac(e + 1, num, den),
{
    let q = pos_whole(e, num, den);
    let r = pos_frac(e, num, den);
    lemma_fundamental_div_mod(e * den, num);
    let c = (r + den) / num;
    let r2 = (r + den) % num;
    lemma_fundamental_div_mod(r + den, num);
    assert(num * (q + c) + r2 == num * q + num * c + r2) by (nonlinear_arith);
    assert((e + 1) * den == e * den + den) by (nonlinear_arith);
    lemma_fundamental_div_mod_converse((e + 1) * den, num, q + c, r2);
}

/// The whole read position is monotone in the output count.
pub proof fn lemma_pos_monotone(e1: int, e2: int, num: int, den: int)
    requires
        num >= 1,
        den >= 0,
        0 <= e1 <= e2,
    ensures
        pos_whole(e1, num, den) <= pos_whole(e2, num, den),
{
    assert(e1 * den <= e2 * den) by (nonlinear_arith)
        requires den >= 0 && e1 <= e2;
    lemma_div_reaches(e2 * den, num, pos_whole(e1, num, den));
    lemma_fundamental_div_mod(e1 * den, num);
    assert(num * pos_whole(e1, num, den) <= e1 * den) by (nonlinear_arith)
        requires num >= 1 && num * pos_whole(e1, num, den) + pos_frac(e1, num, den) == e1 * den
            && pos_frac(e1, num, den) >= 0;
    assert(pos_whole(e1, num, den) * num == num * pos_whole(e1, num, den)) by (nonlinear_arith);
}

/// The read position of any output is at or after the start of the stream.
pub proof fn lemma_pos_nonneg(e: int, num: int, den: int)
    requires
        num >= 1,
        den >= 0,
        e >= 0,
    ensures
        pos_whole(e, num, den) >= 0,
        0 <= pos_frac(e, num, den) < num,
{
    assert(e * den >= 0) by (nonlinear_arith)
        requires e >= 0 && den >= 0;
    lemma_div_reaches(e * den, num, 0);
    lemma_fundamental_div_mod(e * den, num);
}

/// Counting helper: with a supported ratio, the outputs owed never exceed
/// `RATIO_BOUND` per input frame plus one.
pub proof fn lemma_total_ready_bound(fed: int, num: int, den: int)
    requires
        1 <= num,
        1 <= den,
        num <= crate::config::RATIO_BOUND * den,
        fed >= 0,
    ensures
        0 <= total_ready(fed, num, den) <= crate::config::RATIO_BOUND * fed + 1,
{
    let b = crate::config::RATIO_BOUND as int;
    assert(fed * num <= fed * (b * den)) by (nonlinear_arith)
        requires fed >= 0 && num <= b * den;
    assert(fed * (b * den) == (b * fed) * den) by (nonlinear_arith);
    lemma_div_reaches(fed * num + den - 1, den, b * fed + 2);
    assert((b * fed + 2) * den >= b * fed * den + 2 * den) by (nonlinear_arith)
        requires den >= 1 && fed >= 0;
    assert((b * fed) * den == b * fed * den) by (nonlinear_arith);
    lemma_div_reaches(fed * num + den - 1, den, 0);
    assert(fed * num >= 0) by (nonlinear_arith)
        requires fed >= 0 && num >= 1;
}

/// Ceiling division is monotone in the dividend.
pub proof fn lemma_ceil_div_monotone(a1: int, a2: int, b: int)
    requires
        b >= 1,
        a1 <= a2,
    ensures
        ceil_div(a1, b) <= ceil_div(a2, b),
{
    vstd::arithmetic::div_mod::lemma_div_is_ordered(a1 + b - 1, a2 + b - 1, b);
}

/// Waiting for look-ahead can only hold output back: the streaming count
/// never exceeds the end-of-stream count.
pub proof fn lemma_stream_le_total(fed: int, right: int, num: int, den: int)
    requires
        num >= 1,
        den >= 1,
        right >= 0,
        fed >= 0,
        num <= crate::config::RATIO_BOUND * den,
    ensures
        stream_ready(fed, right, num, den) <= total_ready(fed, num, den),
        0 <= total_ready(fed, num, den),
{
    lemma_total_ready_bound(fed, num, den);
    if fed >= right {
        assert((fed - right) * num <= fed * num) by (nonlinear_arith)
            requires right >= 0 && num >= 1 && fed >= 0;
        lemma_ceil_div_monotone((fed - right) * num, fed * num, den);
    }
}

/// Exec ceiling division for the one-shot output length; wide enough that
/// no supported stream length or ratio can overflow it.
pub fn ceil_frames(frames: u64, num: u64, den: u64) -> (r: u128)
    requires
        1 <= den,
        frames <= crate::config::STREAM_MAX,
        num <= crate::config::RATIO_TERM_MAX,
        den <= crate::config::RATIO_TERM_MAX,
    ensures
        r == ceil_div(frames as int * num as int, den as int),
{
    proof {
        assert(frames as u128 * num as u128 <= 0x4_0000_0000_0000_0000_0000_0000u128)
            by (nonlinear_arith)
            requires frames as u128 <= 0x4_0000_0000_0000u128
                && num as u128 <= 0x100_0000_0000u128;
    }
    ((frames as u128) * (num as u128) + (den as u128) - 1) / (den as u128)
}

} // verus!
