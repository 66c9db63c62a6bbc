//! A streaming sample-rate converter for interleaved multi-channel audio.
//!
//! Samples are fixed-point PCM values (`i32`); the conversion ratio is an
//! exact rational `output_rate / input_rate`, so frame accounting never
//! drifts, no matter how long the stream runs or how it is chunked.
//!
//! The streaming API is [`Converter`]: create it, feed chunks through
//! `process`, then call `drain` until it returns zero. The one-shot
//! [`convert`] drives the same engine over a whole buffer at once.

pub mod config;
pub mod converter;
pub mod frames;
pub mod kernel;
pub mod trig;

pub use config::{ConverterType, Error};
pub use converter::Converter;

use vstd::prelude::*;
use crate::config::{config_ok, STREAM_MAX, spec_taps_right, spec_hist_frames};
use crate::converter::{oneshot_sample, stream_sample, zoh_index, linear_blend};
use crate::frames::{ceil_div, total_ready, stream_ready, ceil_frames, pos_whole, pos_frac,
    lemma_stream_le_total, lemma_emit_threshold, lemma_total_ready_bound, lemma_div_reaches,
    lemma_pos_monotone, lemma_pos_nonneg};

verus! {

/// One-shot conversion: converts `input` (interleaved, whole frames) from
/// `from_rate` to `to_rate` in a single pass, driving a transient converter
/// through `process` and a final `drain`.
///
/// The output holds exactly `ceil(frames * to_rate / from_rate)` frames:
/// the one-shot length law.
pub fn convert(
    from_rate: u32,
    to_rate: u32,
    channels: usize,
    converter_type: ConverterType,
    input: &Vec<i32>,
) -> (r: Result<Vec<i32>, Error>)
    requires
        input@.len() <= STREAM_MAX,
    ensures
        r is Ok <==> (config_ok(from_rate, to_rate, channels)
            && input@.len() as int % (channels as int) == 0
            && total_ready(
                input@.len() as int / (channels as int),
                to_rate as int,
                from_rate as int,
            ) * (channels as int) <= usize::MAX),
        r matches Ok(v) ==> v@.len() == total_ready(
            input@.len() as int / (channels as int),
            to_rate as int,
            from_rate as int,
        ) * (channels as int),
        !config_ok(from_rate, to_rate, channels) ==> r == Err::<Vec<i32>, Error>(
            Error::Configuration,
        ),
        config_ok(from_rate, to_rate, channels)
            && input@.len() as int % (channels as int) != 0
            ==> r == Err::<Vec<i32>, Error>(Error::State),
        converter_type == ConverterType::ZeroOrderHold ==> (r matches Ok(v) ==> ({
            let ch = channels as int;
            let frames = input@.len() as int / ch;
            forall|n: int, c: int|
                0 <= n < total_ready(frames, to_rate as int, from_rate as int) && 0 <= c < ch
                ==> #[trigger] v@[n * ch + c] == oneshot_sample(
                    input@,
                    ch,
                    frames,
                    zoh_index(
                        pos_whole(n, to_rate as int, from_rate as int),
                        pos_frac(n, to_rate as int, from_rate as int),
                        to_rate as int,
                    ),
                    c,
                )
        })),
        converter_type == ConverterType::Linear ==> (r matches Ok(v) ==> ({
            let ch = channels as int;
            let frames = input@.len() as int / ch;
            forall|n: int, c: int|
                0 <= n < total_ready(frames, to_rate as int, from_rate as int) && 0 <= c < ch
                ==> #[trigger] v@[n * ch + c] as int == linear_blend(
                    oneshot_sample(input@, ch, frames,
                        pos_whole(n, to_rate as int, from_rate as int), c) as int,
                    oneshot_sample(input@, ch, frames,
                        pos_whole(n, to_rate as int, from_rate as int) + 1, c) as int,
                    pos_frac(n, to_rate as int, from_rate as int),
                    to_rate as int,
                )
        })),
{
    let mut conv = match Converter::create(converter_type, from_rate, to_rate, channels) {
        Ok(c) => c,
        Err(e) => {
            return Err(e);
        },
    };
    let ch = channels;
    if input.len() % ch != 0 {
        return Err(Error::State);
    }
    let frames = (input.len() / ch) as u64;
    proof {
        assert(frames as int <= input@.len() as int) by (nonlinear_arith)
            requires frames as int == input@.len() as int / (ch as int) && (ch as int) >= 1;
    }
    let out128 = ceil_frames(frames, to_rate as u64, from_rate as u64);
    proof {
        lemma_total_ready_bound(frames as int, to_rate as int, from_rate as int);
        assert(out128 * (ch as u128) <= 0x400_0000_0000_0000_0000u128 * 0x10000u128)
            by (nonlinear_arith)
            requires out128 <= 0x400_0000_0000_0000_0000u128 && (ch as u128) <= 0x10000u128;
    }
    let total128 = out128 * (ch as u128);
    if total128 > usize::MAX as u128 {
        return Err(Error::Configuration);
    }
    proof {
        assert(out128 <= total128) by (nonlinear_arith)
            requires total128 == out128 * (ch as u128) && (ch as u128) >= 1;
    }
    let out_frames = out128 as usize;
    let total = total128 as usize;
    let mut out: Vec<i32> = Vec::new();
    let mut k: usize = 0;
    while k < total
        invariant
            out@.len() == k,
            k <= total,
        decreases total - k,
    {
        out.push(0);
        k = k + 1;
    }
    proof {
        assert((total as int) / (ch as int) == out_frames as int
            && (out_frames as int) * (ch as int) == total as int
            && (total as int) % (ch as int) == 0) by (nonlinear_arith)
            requires total as int == (out_frames as int) * (ch as int) && (ch as int) >= 1;
    }
    let ghost hist0 = conv.hist_view();
    let ghost v0 = conv@;
    let (consumed, produced) = match conv.process(input, &mut out) {
        Ok(p) => p,
        Err(e) => {
            return Err(e);
        },
    };
    proof {
        let b = spec_taps_right(converter_type);
        let sr = stream_ready(frames as int, b, to_rate as int, from_rate as int);
        lemma_stream_le_total(frames as int, b, to_rate as int, from_rate as int);
        if frames as int >= b {
            assert((frames as int - b) * (to_rate as int) >= 0) by (nonlinear_arith)
                requires frames as int - b >= 0 && to_rate as int >= 1;
            lemma_div_reaches(
                (frames as int - b) * (to_rate as int) + from_rate as int - 1,
                from_rate as int,
                0,
            );
        }
        assert(sr >= 0);
        assert(produced as int == sr);
        if frames as int >= b {
            lemma_emit_threshold(produced as int, to_rate as int, from_rate as int,
                frames as int - b);
        }
        assert(consumed == frames);
        assert(produced as int <= out_frames as int);
    }
    // flush the tail that depends only on history
    let rem_frames = out_frames - produced;
    proof {
        assert((rem_frames as int) * (ch as int) + (produced as int) * (ch as int)
            == (out_frames as int) * (ch as int)) by (nonlinear_arith)
            requires rem_frames as int == out_frames as int - produced as int;
        assert((produced as int) * (ch as int) >= 0) by (nonlinear_arith);
    }
    let rem = rem_frames * ch;
    proof {
        assert(((rem_frames as int) * (ch as int)) / (ch as int) == rem_frames as int
            && ((rem_frames as int) * (ch as int)) % (ch as int) == 0) by (nonlinear_arith)
            requires (ch as int) >= 1;
    }
    let mut scratch: Vec<i32> = Vec::new();
    let mut k: usize = 0;
    while k < rem
        invariant
            scratch@.len() == k,
            k <= rem,
        decreases rem - k,
    {
        scratch.push(0);
        k = k + 1;
    }
    let ghost conv_mid = conv@;
    let ghost hist_mid = conv.hist_view();
    let ghost out_mid = out@;
    let drained_count = conv.drain(&mut scratch);
    proof {
        assert(drained_count == rem_frames);
    }
    let mut j: usize = 0;
    let base = produced * ch;
    while j < rem
        invariant
            j <= rem,
            scratch@.len() == rem,
            out@.len() == total,
            out_mid.len() == total,
            base + rem == total,
            base == (produced as int) * (ch as int),
            forall|j2: int| 0 <= j2 < base as int ==> #[trigger] out@[j2] == out_mid[j2],
            forall|j2: int| 0 <= j2 < j as int ==> #[trigger] out@[base + j2] == scratch@[j2],
        decreases rem - j,
    {
        let v = scratch[j];
        out[base + j] = v;
        j = j + 1;
    }
    proof {
        let ch_i = ch as int;
        let fr = frames as int;
        let nn = to_rate as int;
        let dd = from_rate as int;
        let hfi = spec_hist_frames(converter_type);
        let b = spec_taps_right(converter_type);
        let prod = produced as int;
        let tot = out_frames as int;
        vstd::arithmetic::div_mod::lemma_div_of0(ch_i);
        if converter_type == ConverterType::ZeroOrderHold {
            assert forall|n: int, c: int| 0 <= n < tot && 0 <= c < ch_i
                implies #[trigger] out@[n * ch_i + c] == oneshot_sample(
                    input@,
                    ch_i,
                    fr,
                    zoh_index(pos_whole(n, nn, dd), pos_frac(n, nn, dd), nn),
                    c,
                ) by {
                lemma_pos_nonneg(n, nn, dd);
                let idx = zoh_index(pos_whole(n, nn, dd), pos_frac(n, nn, dd), nn);
                if n < prod {
                    assert(0 <= n * ch_i + c < prod * ch_i) by (nonlinear_arith)
                        requires 0 <= n < prod && 0 <= c < ch_i;
                    assert(out@[n * ch_i + c] == out_mid[n * ch_i + c]);
                    assert(out_mid[n * (v0.channels as int) + c] == stream_sample(
                        hist0,
                        input@,
                        v0.fed as int,
                        spec_hist_frames(v0.typ),
                        v0.channels as int,
                        zoh_index(
                            pos_whole(v0.emitted + n, v0.num as int, v0.den as int),
                            pos_frac(v0.emitted + n, v0.num as int, v0.den as int),
                            v0.num as int,
                        ),
                        c,
                    ));
                } else {
                    let k = n - prod;
                    lemma_pos_monotone(prod, n, nn, dd);
                    assert(n * ch_i + c == base as int + (k * ch_i + c)
                        && 0 <= k * ch_i + c < rem as int) by (nonlinear_arith)
                        requires n == prod + k && 0 <= k < tot - prod && 0 <= c < ch_i
                            && base as int == prod * ch_i
                            && rem as int == (tot - prod) * ch_i;
                    assert(out@[n * ch_i + c] == scratch@[k * ch_i + c]);
                    assert(scratch@[k * (conv_mid.channels as int) + c] == stream_sample(
                        hist_mid,
                        Seq::<i32>::empty(),
                        conv_mid.fed as int,
                        spec_hist_frames(conv_mid.typ),
                        conv_mid.channels as int,
                        zoh_index(
                            pos_whole(conv_mid.emitted + k, conv_mid.num as int,
                                conv_mid.den as int),
                            pos_frac(conv_mid.emitted + k, conv_mid.num as int,
                                conv_mid.den as int),
                            conv_mid.num as int,
                        ),
                        c,
                    ));
                    if idx < fr {
                        let f = idx + hfi - fr;
                        assert(hist_mid[f * (v0.channels as int) + c] == stream_sample(
                            hist0,
                            input@,
                            v0.fed as int,
                            spec_hist_frames(v0.typ),
                            v0.channels as int,
                            v0.fed as int - spec_hist_frames(v0.typ) + consumed as int + f,
                            c,
                        ));
                    }
                }
            }
        }
        if converter_type == ConverterType::Linear {
            assert forall|n: int, c: int| 0 <= n < tot && 0 <= c < ch_i
                implies #[trigger] out@[n * ch_i + c] as int == linear_blend(
                    oneshot_sample(input@, ch_i, fr, pos_whole(n, nn, dd), c) as int,
                    oneshot_sample(input@, ch_i, fr, pos_whole(n, nn, dd) + 1, c) as int,
                    pos_frac(n, nn, dd),
                    nn,
                ) by {
                lemma_pos_nonneg(n, nn, dd);
                let pw = pos_whole(n, nn, dd);
                if n < prod {
                    assert(0 <= n * ch_i + c < prod * ch_i) by (nonlinear_arith)
                        requires 0 <= n < prod && 0 <= c < ch_i;
                    assert(out@[n * ch_i + c] == out_mid[n * ch_i + c]);
                    assert(out_mid[n * (v0.channels as int) + c] as int == linear_blend(
                        stream_sample(
                            hist0,
                            input@,
                            v0.fed as int,
                            spec_hist_frames(v0.typ),
                            v0.channels as int,
                            pos_whole(v0.emitted + n, v0.num as int, v0.den as int),
                            c,
                        ) as int,
                        stream_sample(
                            hist0,
                            input@,
                            v0.fed as int,
                            spec_hist_frames(v0.typ),
                            v0.channels as int,
                            pos_whole(v0.emitted + n, v0.num as int, v0.den as int) + 1,
                            c,
                        ) as int,
                        pos_frac(v0.emitted + n, v0.num as int, v0.den as int),
                        v0.num as int,
                    ));
                } else {
                    let k = n - prod;
                    lemma_pos_monotone(prod, n, nn, dd);
                    assert(n * ch_i + c == base as int + (k * ch_i + c)
                        && 0 <= k * ch_i + c < rem as int) by (nonlinear_arith)
                        requires n == prod + k && 0 <= k < tot - prod && 0 <= c < ch_i
                            && base as int == prod * ch_i
                            && rem as int == (tot - prod) * ch_i;
                    assert(out@[n * ch_i + c] == scratch@[k * ch_i + c]);
                    assert(scratch@[k * (conv_mid.channels as int) + c] as int == linear_blend(
                        stream_sample(
                            hist_mid,
                            Seq::<i32>::empty(),
                            conv_mid.fed as int,
                            spec_hist_frames(conv_mid.typ),
                            conv_mid.channels as int,
                            pos_whole(conv_mid.emitted + k, conv_mid.num as int,
                                conv_mid.den as int),
                            c,
                        ) as int,
                        stream_sample(
                            hist_mid,
                            Seq::<i32>::empty(),
                            conv_mid.fed as int,
                            spec_hist_frames(conv_mid.typ),
                            conv_mid.channels as int,
                            pos_whole(conv_mid.emitted + k, conv_mid.num as int,
                                conv_mid.den as int) + 1,
                            c,
                        ) as int,
                        pos_frac(conv_mid.emitted + k, conv_mid.num as int,
                            conv_mid.den as int),
                        conv_mid.num as int,
                    ));
                    if pw < fr {
                        let f = pw + hfi - fr;
                        assert(hist_mid[f * (v0.channels as int) + c] == stream_sample(
                            hist0,
                            input@,
                            v0.fed as int,
                            spec_hist_frames(v0.typ),
                            v0.channels as int,
                            v0.fed as int - spec_hist_frames(v0.typ) + consumed as int + f,
                            c,
                        ));
                    }
                    if pw + 1 < fr {
                        let f = pw + 1 + hfi - fr;
                        assert(hist_mid[f * (v0.channels as int) + c] == stream_sample(
                            hist0,
                            input@,
                            v0.fed as int,
                            spec_hist_frames(v0.typ),
                            v0.channels as int,
                            v0.fed as int - spec_hist_frames(v0.typ) + consumed as int + f,
                            c,
                        ));
                    }
                }
            }
        }
    }
    Ok(out)
}

/// Streaming/one-shot equivalence of the produced totals.
///
/// `drain` reports completion precisely when the emitted count has reached
/// `total_ready` of the frames consumed (its contract), whatever chunk
/// sizes fed the converter. So two fixed-ratio converters that consumed
/// the same number of frames at the same ratio and were both drained to
/// completion have emitted exactly the same number of frames, and that
/// number is the one-shot output length `ceil(fed * ratio)` that
/// [`convert`] returns.
pub proof fn lemma_streaming_total_matches_one_shot(
    a: converter::ConvView,
    b: converter::ConvView,
)
    requires
        a.emitted == total_ready(a.fed as int, a.num as int, a.den as int),
        b.emitted == total_ready(b.fed as int, b.num as int, b.den as int),
        a.fed == b.fed,
        a.num == b.num,
        a.den == b.den,
    ensures
        a.emitted == b.emitted,
        a.emitted == ceil_div(a.fed as int * a.num as int, a.den as int),
{
}

/// Returns the version string of the resampling engine.
pub fn version() -> (r: &'static str)
    ensures
        r@ == "libsamplerate-0.1.9 (c) 2002-2008 Erik de Castro Lopo"@,
{
    "libsamplerate-0.1.9 (c) 2002-2008 Erik de Castro Lopo"
}

} // verus!
