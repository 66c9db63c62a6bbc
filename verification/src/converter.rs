//! The stateful streaming converter: per-channel history, exact fractional
//! read position, ratio control with smoothed changes, and the `process` /
//! `drain` lifecycle.

use vstd::prelude::*;
use crate::config::{
    ConverterType, Error, ratio_ok, config_ok, check_ratio, check_config, is_sinc,
    spec_taps_right, spec_hist_frames, spec_table_os,
    taps_right, hist_frames, sinc_half_width, table_os, window_shape,
    RATIO_BOUND, STREAM_MAX, CHANNELS_MAX, EMIT_CAP,
};
use crate::frames::{
    pos_whole, pos_frac, total_ready, stream_ready, min2, clamp0,
    lemma_div_reaches, lemma_emit_threshold, lemma_pos_step,
    lemma_total_ready_bound, lemma_stream_le_total, lemma_ceil_div_monotone,
};
use crate::kernel::{table_wf, build_table, fill_weights, WEIGHT_BOUND};

verus! {

/// Abstract state of a converter, as the contracts speak of it.
pub ghost struct ConvView {
    /// Quality tier, fixed at creation.
    pub typ: ConverterType,
    /// Interleaved channel count, fixed at creation.
    pub channels: nat,
    /// Current ratio numerator (output rate share).
    pub num: nat,
    /// Current ratio denominator (input rate share).
    pub den: nat,
    /// Whole part of the read position, in input frames.
    pub pos_w: nat,
    /// Fractional numerator (over `num`) of the read position.
    pub pos_f: nat,
    /// Total input frames consumed so far.
    pub fed: nat,
    /// Total output frames emitted so far.
    pub emitted: nat,
    /// Whether draining has begun.
    pub eos: bool,
    /// Whether the ratio has never been changed since creation or reset;
    /// in this mode the read position is an exact function of `emitted`.
    pub fixed: bool,
}

/// A converter that owes no further output for the input it has consumed.
pub open spec fn drained(v: ConvView) -> bool {
    v.pos_w >= v.fed
}

/// Channel `c` of absolute input frame `abs` of the conceptual stream: the
/// retained history window `hist` covers frames `[fed - hf, fed)`, the
/// current chunk `input` covers `[fed, fed + chunk frames)`, and everything
/// outside both — before the stream, or past its end — is silence.
pub open spec fn stream_sample(
    hist: Seq<i32>,
    input: Seq<i32>,
    fed: int,
    hf: int,
    ch: int,
    abs: int,
    c: int,
) -> i32 {
    if abs >= fed {
        if abs - fed < input.len() as int / ch {
            input[(abs - fed) * ch + c]
        } else {
            0
        }
    } else if abs + hf >= fed {
        hist[(abs + hf - fed) * ch + c]
    } else {
        0
    }
}

/// The input frame a zero-order-hold output at position `pos_w + pos_f/num`
/// repeats: the nearer of the two bracketing frames.
pub open spec fn zoh_index(pos_w: int, pos_f: int, num: int) -> int {
    if 2 * pos_f >= num {
        pos_w + 1
    } else {
        pos_w
    }
}

/// The linear blend of the two samples bracketing a read position with
/// fractional part `pos_f / num`, rounded toward the earlier sample.
pub open spec fn linear_blend(s0: int, s1: int, pos_f: int, num: int) -> int {
    if s1 >= s0 {
        s0 + ((s1 - s0) * pos_f) / num
    } else {
        s0 - ((s0 - s1) * pos_f) / num
    }
}

/// Channel `c` of absolute frame `abs` of a one-shot input buffer: the
/// buffer's own frames, silence before and after them.
pub open spec fn oneshot_sample(input: Seq<i32>, ch: int, frames: int, abs: int, c: int) -> i32 {
    if 0 <= abs < frames {
        input[abs * ch + c]
    } else {
        0
    }
}

/// A linear blend with a proper fractional weight never leaves the range
/// of its two endpoint samples.
pub proof fn lemma_blend_within(s0: int, s1: int, pos_f: int, num: int)
    requires
        1 <= num,
        0 <= pos_f < num,
    ensures
        s0 <= s1 ==> s0 <= linear_blend(s0, s1, pos_f, num) <= s1,
        s1 <= s0 ==> s1 <= linear_blend(s0, s1, pos_f, num) <= s0,
{
    if s1 >= s0 {
        let d = s1 - s0;
        assert(d * pos_f >= 0) by (nonlinear_arith)
            requires d >= 0 && pos_f >= 0;
        assert(d * pos_f < (d + 1) * num) by (nonlinear_arith)
            requires d >= 0 && 0 <= pos_f < num && num >= 1;
        lemma_div_reaches(d * pos_f, num, 0);
        lemma_div_reaches(d * pos_f, num, d + 1);
    } else {
        let d = s0 - s1;
        assert(d * pos_f >= 0) by (nonlinear_arith)
            requires d >= 0 && pos_f >= 0;
        assert(d * pos_f < (d + 1) * num) by (nonlinear_arith)
            requires d >= 0 && 0 <= pos_f < num && num >= 1;
        lemma_div_reaches(d * pos_f, num, 0);
        lemma_div_reaches(d * pos_f, num, d + 1);
    }
}

/// The immutable configuration two states share: tier, channel count and
/// current ratio.
pub open spec fn same_config(a: ConvView, b: ConvView) -> bool {
    &&& a.typ == b.typ
    &&& a.channels == b.channels
    &&& a.num == b.num
    &&& a.den == b.den
}

/// The streaming converter.
pub struct Converter {
    typ: ConverterType,
    channels: usize,
    num: u64,
    den: u64,
    pos_w: u64,
    pos_f: u64,
    fed: u64,
    emitted: u64,
    eos: bool,
    fixed: bool,
    hist: Vec<i32>,
    table: Vec<i64>,
    t_pending: bool,
    t_rem: u64,
    t_total: u64,
    t_r0: u64,
}

impl View for Converter {
    type V = ConvView;

    closed spec fn view(&self) -> ConvView {
        ConvView {
            typ: self.typ,
            channels: self.channels as nat,
            num: self.num as nat,
            den: self.den as nat,
            pos_w: self.pos_w as nat,
            pos_f: self.pos_f as nat,
            fed: self.fed as nat,
            emitted: self.emitted as nat,
            eos: self.eos,
            fixed: self.fixed,
        }
    }
}

impl Converter {
    /// The retained history window, as the value contracts speak of it.
    pub closed spec fn hist_view(&self) -> Seq<i32> {
        self.hist@
    }

    /// Internal well-formedness: ratio and counters in range, the read
    /// position an exact function of the emitted count while the ratio has
    /// never changed, history exactly one kernel window, and the kernel
    /// table well formed for the tier.
    pub closed spec fn wf(&self) -> bool {
        &&& self.wf0()
        &&& self.fixed ==> self.emitted as int <= total_ready(
            self.fed as int,
            self.num as int,
            self.den as int,
        )
    }

    /// Everything in `wf` except the bound of the emitted count by the
    /// input consumed, which is re-established only between calls.
    closed spec fn wf0(&self) -> bool {
        &&& 1 <= self.channels <= CHANNELS_MAX
        &&& ratio_ok(self.num as int, self.den as int)
        &&& (self.pos_f as int) < self.num as int
        &&& self.fed <= STREAM_MAX
        &&& self.pos_w as int <= STREAM_MAX as int + RATIO_BOUND as int + 1
        &&& self.fed as int <= self.pos_w as int + spec_taps_right(self.typ) + 1
        &&& self.emitted <= EMIT_CAP
        &&& self.hist@.len() == spec_hist_frames(self.typ) * self.channels as int
        &&& is_sinc(self.typ) ==> table_wf(
            self.table@,
            spec_taps_right(self.typ),
            spec_table_os(self.typ),
        )
        &&& self.fixed ==> {
            &&& self.pos_w as int == pos_whole(
                self.emitted as int,
                self.num as int,
                self.den as int,
            )
            &&& self.pos_f as int == pos_frac(
                self.emitted as int,
                self.num as int,
                self.den as int,
            )
            &&& !self.t_pending
            &&& self.t_rem == 0
        }
        &&& (self.t_pending || self.t_rem > 0) ==> {
            &&& 0x100_0000 <= self.t_r0 <= 0x100_0000_0000
            &&& self.t_rem <= self.t_total
        }
    }

    /// Creates a converter for the given tier, rates and channel count.
    /// Succeeds exactly on the configurations `config_ok` admits; the new
    /// converter starts at position zero with a silent history.
    pub fn create(
        converter_type: ConverterType,
        from_rate: u32,
        to_rate: u32,
        channels: usize,
    ) -> (r: Result<Converter, Error>)
        ensures
            r is Ok <==> config_ok(from_rate, to_rate, channels),
            r matches Ok(c) ==> {
                &&& c.wf()
                &&& c@ == (ConvView {
                    typ: converter_type,
                    channels: channels as nat,
                    num: to_rate as nat,
                    den: from_rate as nat,
                    pos_w: 0,
                    pos_f: 0,
                    fed: 0,
                    emitted: 0,
                    eos: false,
                    fixed: true,
                })
            },
            r matches Err(e) ==> e == Error::Configuration,
    {
        if !check_config(from_rate, to_rate, channels) {
            return Err(Error::Configuration);
        }
        let hf = hist_frames(converter_type);
        proof {
            assert(hf * channels <= 97 * 0x10000) by (nonlinear_arith)
                requires hf <= 97 && channels <= 0x10000;
        }
        let mut hist: Vec<i32> = Vec::new();
        let mut k: usize = 0;
        let hist_len = hf * channels;
        while k < hist_len
            invariant
                hist@.len() == k,
                k <= hist_len,
            decreases hist_len - k,
        {
            hist.push(0);
            k = k + 1;
        }
        let half = sinc_half_width(converter_type);
        let table: Vec<i64> = if half > 0 {
            build_table(half, table_os(converter_type), window_shape(converter_type))
        } else {
            Vec::new()
        };
        Ok(Converter {
            typ: converter_type,
            channels,
            num: to_rate as u64,
            den: from_rate as u64,
            pos_w: 0,
            pos_f: 0,
            fed: 0,
            emitted: 0,
            eos: false,
            fixed: true,
            hist,
            table,
            t_pending: false,
            t_rem: 0,
            t_total: 0,
            t_r0: 0,
        })
    }

    /// Clears the history and the read position back to the initial silent
    /// state, in place; the tier and the current ratio are kept, and exact
    /// accounting starts afresh.
    pub fn reset(&mut self)
        requires
            old(self).wf(),
        ensures
            final(self).wf(),
            final(self)@ == (ConvView {
                typ: old(self)@.typ,
                channels: old(self)@.channels,
                num: old(self)@.num,
                den: old(self)@.den,
                pos_w: 0,
                pos_f: 0,
                fed: 0,
                emitted: 0,
                eos: false,
                fixed: true,
            }),
    {
        let n = self.hist.len();
        let mut k: usize = 0;
        while k < n
            invariant
                k <= n,
                self.hist@.len() == n,
                self@ == old(self)@,
                old(self).wf(),
                self.typ == old(self).typ,
                self.channels == old(self).channels,
                self.num == old(self).num,
                self.den == old(self).den,
                self.table@ == old(self).table@,
            decreases n - k,
        {
            self.hist[k] = 0;
            k = k + 1;
        }
        self.pos_w = 0;
        self.pos_f = 0;
        self.fed = 0;
        self.emitted = 0;
        self.eos = false;
        self.fixed = true;
        self.t_pending = false;
        self.t_rem = 0;
        self.t_total = 0;
        self.t_r0 = 0;
        proof {
            assert(pos_whole(0, self.num as int, self.den as int) == 0
                && pos_frac(0, self.num as int, self.den as int) == 0);
        }
    }

    /// The current ratio in the 2^32 fixed-point scale, for smoothing.
    fn ratio_q32(&self) -> (r: u64)
        requires
            self.wf0(),
        ensures
            0x100_0000 <= r <= 0x100_0000_0000,
    {
        proof {
            assert(self.num as int * 0x1_0000_0000 < 0x100_0000_0001 * self.den as int)
                by (nonlinear_arith)
                requires self.num as int <= 256 * self.den as int && self.den as int >= 1;
            lemma_div_reaches(self.num as int * 0x1_0000_0000, self.den as int, 0x100_0000_0001);
            assert(self.num as int * 0x1_0000_0000 >= 0x100_0000 * self.den as int)
                by (nonlinear_arith)
                requires self.den as int <= 256 * self.num as int;
            lemma_div_reaches(self.num as int * 0x1_0000_0000, self.den as int, 0x100_0000);
        }
        (((self.num as u128) * 0x1_0000_0000u128) / (self.den as u128)) as u64
    }

    /// Requests a new conversion ratio `num / den`. The target takes over
    /// as the exact rational immediately for accounting, but the read-step
    /// it implies is blended in across the next processing call's output
    /// span, so the change does not land as an audible step.
    pub fn set_ratio(&mut self, num: u64, den: u64) -> (r: Result<(), Error>)
        requires
            old(self).wf(),
        ensures
            final(self).wf(),
            r is Ok <==> ratio_ok(num as int, den as int),
            r matches Ok(u) ==> {
                &&& final(self)@.typ == old(self)@.typ
                &&& final(self)@.channels == old(self)@.channels
                &&& final(self)@.num == num as nat
                &&& final(self)@.den == den as nat
                &&& final(self)@.pos_w == old(self)@.pos_w
                &&& final(self)@.pos_f as int == old(self)@.pos_f as int * (num as int) / (old(self)@.num as int)
                &&& final(self)@.fed == old(self)@.fed
                &&& final(self)@.emitted == old(self)@.emitted
                &&& final(self)@.eos == old(self)@.eos
                &&& !final(self)@.fixed
            },
            r is Err ==> final(self)@ == old(self)@ && r == Err::<(), Error>(Error::Configuration),
    {
        if !check_ratio(num, den) {
            return Err(Error::Configuration);
        }
        let r0 = self.ratio_q32();
        proof {
            assert(self.pos_f as int * num as int <= 0x1_0000_0000_0000_0000_0000)
                by (nonlinear_arith)
                requires self.pos_f as int <= 0x100_0000_0000 && num as int <= 0x100_0000_0000;
            assert(self.pos_f as int * (num as int) < num as int * self.num as int)
                by (nonlinear_arith)
                requires (self.pos_f as int) < self.num as int && num as int >= 1;
            lemma_div_reaches(self.pos_f as int * num as int, self.num as int, num as int);
        }
        let nf: u64 = (((self.pos_f as u128) * (num as u128)) / (self.num as u128)) as u64;
        self.pos_f = nf;
        self.num = num;
        self.den = den;
        self.fixed = false;
        self.t_pending = true;
        self.t_r0 = r0;
        Ok(())
    }

    /// Fractional part of the read position in the 2^32 scale.
    fn frac_q32(&self) -> (r: u64)
        requires
            self.wf0(),
        ensures
            r < 0x1_0000_0000,
    {
        proof {
            assert(self.pos_f as int * 0x1_0000_0000 < 0x1_0000_0000 * self.num as int)
                by (nonlinear_arith)
                requires (self.pos_f as int) < self.num as int;
            lemma_div_reaches(self.pos_f as int * 0x1_0000_0000, self.num as int, 0x1_0000_0000);
        }
        (((self.pos_f as u128) * 0x1_0000_0000u128) / (self.num as u128)) as u64
    }

    /// Advances the read position by one output step. In fixed-ratio mode
    /// the step is exactly `den / num`; during a ratio transition the step
    /// follows the linearly interpolated ratio of the smoothing span.
    fn advance(&mut self)
        requires
            old(self).wf0(),
            old(self)@.pos_w <= STREAM_MAX,
            old(self)@.emitted < EMIT_CAP,
        ensures
            final(self).wf0(),
            same_config(final(self)@, old(self)@),
            final(self)@.fed == old(self)@.fed,
            final(self)@.eos == old(self)@.eos,
            final(self)@.fixed == old(self)@.fixed,
            final(self)@.emitted == old(self)@.emitted + 1,
            final(self).hist_view() == old(self).hist_view(),
            old(self)@.pos_w <= final(self)@.pos_w
                <= old(self)@.pos_w + RATIO_BOUND as int + 1,
    {
        let step: u64 = if self.t_rem > 0 {
            // ratio linearly interpolated across the smoothing span
            let rt = self.ratio_q32();
            let k = self.t_total - self.t_rem;
            let n = self.t_total;
            let r0 = self.t_r0;
            let mut rk: u64;
            if rt >= r0 {
                let d = rt - r0;
                proof {
                    assert((d as u128) * ((k + 1) as u128) <= 0x100_0000_0000_0000_0000_0000_0000u128)
                        by (nonlinear_arith)
                        requires d as u128 <= 0x100_0000_0000u128
                            && (k + 1) as u128 <= 0x1_0000_0000_0000_0000u128;
                    assert((d as u128) * ((k + 1) as u128) < ((d as u128) + 1) * (n as u128))
                        by (nonlinear_arith)
                        requires (k + 1) as u128 <= n as u128 && n as u128 >= 1;
                    lemma_div_reaches(d as int * ((k + 1) as int), n as int, d as int + 1);
                }
                rk = r0 + (((d as u128) * ((k + 1) as u128)) / (n as u128)) as u64;
            } else {
                let d = r0 - rt;
                proof {
                    assert((d as u128) * ((k + 1) as u128) <= 0x100_0000_0000_0000_0000_0000_0000u128)
                        by (nonlinear_arith)
                        requires d as u128 <= 0x100_0000_0000u128
                            && (k + 1) as u128 <= 0x1_0000_0000_0000_0000u128;
                    assert((d as u128) * ((k + 1) as u128) < ((d as u128) + 1) * (n as u128))
                        by (nonlinear_arith)
                        requires (k + 1) as u128 <= n as u128 && n as u128 >= 1;
                    lemma_div_reaches(d as int * ((k + 1) as int), n as int, d as int + 1);
                }
                rk = r0 - (((d as u128) * ((k + 1) as u128)) / (n as u128)) as u64;
            }
            if rk < 0x100_0000 {
                rk = 0x100_0000;
            }
            if rk > 0x100_0000_0000 {
                rk = 0x100_0000_0000;
            }
            proof {
                assert(self.num as int * 0x1_0000_0000 < (256 * self.num as int + 1) * rk as int)
                    by (nonlinear_arith)
                    requires rk as int >= 0x100_0000 && self.num as int >= 1;
                lemma_div_reaches(self.num as int * 0x1_0000_0000, rk as int,
                    256 * self.num as int + 1);
            }
            let mut s: u64 = (((self.num as u128) * 0x1_0000_0000u128) / (rk as u128)) as u64;
            if s < 1 {
                s = 1;
            }
            self.t_rem = self.t_rem - 1;
            s
        } else {
            self.den
        };
        // step is at most RATIO_BOUND * num, so the carry is at most
        // RATIO_BOUND + 1 whole frames
        let f = self.pos_f + step;
        proof {
            assert((self.pos_f as int) + (step as int)
                < (RATIO_BOUND as int + 1) * (self.num as int) + (self.num as int))
                by (nonlinear_arith)
                requires (self.pos_f as int) < self.num as int
                    && step as int <= RATIO_BOUND as int * self.num as int
                    && self.num as int >= 1;
            lemma_div_reaches(f as int, self.num as int, RATIO_BOUND as int + 2);
            assert((RATIO_BOUND as int + 2) * self.num as int
                == (RATIO_BOUND as int + 1) * self.num as int + self.num as int)
                by (nonlinear_arith);
        }
        let carry = f / self.num;
        proof {
            if self.fixed {
                lemma_pos_step(self.emitted as int, self.num as int, self.den as int);
            }
        }
        self.pos_w = self.pos_w + carry;
        self.pos_f = f % self.num;
        self.emitted = self.emitted + 1;
    }

    /// Reads channel `c` of absolute input frame `abs` from the history
    /// window or the current chunk; anything outside both — before the
    /// start of the stream, or past the end during a drain — is silence.
    fn fetch(&self, input: &Vec<i32>, abs: u64, c: usize) -> (s: i32)
        requires
            self.wf0(),
            abs as int <= STREAM_MAX as int + RATIO_BOUND as int + 0x100,
            c < self@.channels,
            input@.len() as int % self@.channels as int == 0,
        ensures
            s == stream_sample(
                self.hist_view(),
                input@,
                self@.fed as int,
                spec_hist_frames(self@.typ),
                self@.channels as int,
                abs as int,
                c as int,
            ),
    {
        let ch = self.channels;
        let hf = hist_frames(self.typ);
        let m = input.len() / ch;
        let in_len = input.len();
        let hist_len = self.hist.len();
        if abs >= self.fed {
            let rel = abs - self.fed;
            if rel < m as u64 {
                proof {
                    assert((rel as int) * (ch as int) + (c as int) < (m as int) * (ch as int))
                        by (nonlinear_arith)
                        requires (rel as int) < m as int && (c as int) < ch as int
                            && ch as int >= 1;
                    assert((m as int) * (ch as int) <= in_len as int) by (nonlinear_arith)
                        requires m as int == in_len as int / (ch as int) && ch as int >= 1
                            && in_len as int % (ch as int) == 0;
                }
                let idx = (rel as usize) * ch + c;
                input[idx]
            } else {
                0
            }
        } else if abs + (hf as u64) >= self.fed {
            let rel = abs + (hf as u64) - self.fed;
            proof {
                assert((rel as int) * (ch as int) + (c as int) < (hf as int) * (ch as int))
                    by (nonlinear_arith)
                    requires (rel as int) < hf as int && (c as int) < ch as int
                        && ch as int >= 1;
            }
            let idx = (rel as usize) * ch + c;
            self.hist[idx]
        } else {
            0
        }
    }

    /// Computes one output frame at the current read position and writes
    /// it to frame slot `off` of the output buffer; no other slot changes.
    fn emit_frame(
        &self,
        input: &Vec<i32>,
        output: &mut Vec<i32>,
        off: usize,
        wl: &Vec<i64>,
        wr: &Vec<i64>,
    )
        requires
            self.wf0(),
            input@.len() as int % self@.channels as int == 0,
            (off + 1) * self@.channels as int <= old(output)@.len(),
            is_sinc(self@.typ) ==> {
                &&& wl@.len() == spec_taps_right(self@.typ)
                &&& wr@.len() == spec_taps_right(self@.typ)
                &&& forall|j: int| 0 <= j < wl@.len() ==>
                    -WEIGHT_BOUND <= #[trigger] wl@[j] <= WEIGHT_BOUND
                &&& forall|j: int| 0 <= j < wr@.len() ==>
                    -WEIGHT_BOUND <= #[trigger] wr@[j] <= WEIGHT_BOUND
            },
        ensures
            final(output)@.len() == old(output)@.len(),
            forall|j: int| 0 <= j < old(output)@.len()
                && !(off * self@.channels as int <= j < (off + 1) * self@.channels as int)
                ==> final(output)@[j] == old(output)@[j],
            self@.typ == ConverterType::ZeroOrderHold ==> forall|c: int|
                0 <= c < self@.channels as int
                ==> #[trigger] final(output)@[off * self@.channels as int + c]
                    == stream_sample(
                    self.hist_view(),
                    input@,
                    self@.fed as int,
                    spec_hist_frames(self@.typ),
                    self@.channels as int,
                    zoh_index(self@.pos_w as int, self@.pos_f as int, self@.num as int),
                    c,
                ),
            self@.typ == ConverterType::Linear ==> forall|c: int|
                0 <= c < self@.channels as int
                ==> #[trigger] final(output)@[off * self@.channels as int + c] as int
                    == linear_blend(
                    stream_sample(
                        self.hist_view(),
                        input@,
                        self@.fed as int,
                        spec_hist_frames(self@.typ),
                        self@.channels as int,
                        self@.pos_w as int,
                        c,
                    ) as int,
                    stream_sample(
                        self.hist_view(),
                        input@,
                        self@.fed as int,
                        spec_hist_frames(self@.typ),
                        self@.channels as int,
                        self@.pos_w as int + 1,
                        c,
                    ) as int,
                    self@.pos_f as int,
                    self@.num as int,
                ),
    {
        let olen = output.len();
        let ch = self.channels;
        let mut c: usize = 0;
        while c < ch
            invariant
                c <= ch,
                self.wf0(),
                olen == output@.len(),
                ch == self@.channels,
                input@.len() as int % self@.channels as int == 0,
                (off + 1) * (ch as int) <= output@.len(),
                output@.len() == old(output)@.len(),
                is_sinc(self@.typ) ==> {
                    &&& wl@.len() == spec_taps_right(self@.typ)
                    &&& wr@.len() == spec_taps_right(self@.typ)
                    &&& forall|j: int| 0 <= j < wl@.len() ==>
                        -WEIGHT_BOUND <= #[trigger] wl@[j] <= WEIGHT_BOUND
                    &&& forall|j: int| 0 <= j < wr@.len() ==>
                        -WEIGHT_BOUND <= #[trigger] wr@[j] <= WEIGHT_BOUND
                },
                forall|j: int| 0 <= j < old(output)@.len()
                    && !(off * (ch as int) <= j < off * (ch as int) + c)
                    ==> output@[j] == old(output)@[j],
                self@.typ == ConverterType::ZeroOrderHold ==> forall|c2: int| 0 <= c2 < c as int
                    ==> #[trigger] output@[off * (ch as int) + c2] == stream_sample(
                        self.hist_view(),
                        input@,
                        self@.fed as int,
                        spec_hist_frames(self@.typ),
                        ch as int,
                        zoh_index(self@.pos_w as int, self@.pos_f as int, self@.num as int),
                        c2,
                    ),
                self@.typ == ConverterType::Linear ==> forall|c2: int| 0 <= c2 < c as int
                    ==> #[trigger] output@[off * (ch as int) + c2] as int == linear_blend(
                        stream_sample(
                            self.hist_view(),
                            input@,
                            self@.fed as int,
                            spec_hist_frames(self@.typ),
                            ch as int,
                            self@.pos_w as int,
                            c2,
                        ) as int,
                        stream_sample(
                            self.hist_view(),
                            input@,
                            self@.fed as int,
                            spec_hist_frames(self@.typ),
                            ch as int,
                            self@.pos_w as int + 1,
                            c2,
                        ) as int,
                        self@.pos_f as int,
                        self@.num as int,
                    ),
            decreases ch - c,
        {
            let v: i32 = match self.typ {
                ConverterType::ZeroOrderHold => {
                    let up = if self.pos_f >= self.num - self.pos_f { 1u64 } else { 0u64 };
                    self.fetch(input, self.pos_w + up, c)
                },
                ConverterType::Linear => {
                    let s0 = self.fetch(input, self.pos_w, c);
                    let s1 = self.fetch(input, self.pos_w + 1, c);
                    let d: i64 = (s1 as i64) - (s0 as i64);
                    let du: u64 = if d < 0 { (-d) as u64 } else { d as u64 };
                    proof {
                        assert((du as u128) * (self.pos_f as u128)
                            <= 0x1_0000_0000u128 * 0x100_0000_0000u128) by (nonlinear_arith)
                            requires du as u128 <= 0x1_0000_0000u128
                                && self.pos_f as u128 <= 0x100_0000_0000u128;
                        assert((du as u128) * (self.pos_f as u128)
                            < ((du as u128) + 1) * (self.num as u128)) by (nonlinear_arith)
                            requires (self.pos_f as u128) < self.num as u128;
                        lemma_div_reaches(
                            du as int * (self.pos_f as int),
                            self.num as int,
                            du as int + 1,
                        );
                    }
                    let q: u64 = (((du as u128) * (self.pos_f as u128))
                        / (self.num as u128)) as u64;
                    let v64: i64 = if d < 0 {
                        (s0 as i64) - (q as i64)
                    } else {
                        (s0 as i64) + (q as i64)
                    };
                    v64 as i32
                },
                _ => {
                    let half = taps_right(self.typ);
                    let mut acc: i128 = 0;
                    let mut i: usize = 0;
                    while i < half
                        invariant
                            i <= half,
                            self.wf0(),
                            c < self@.channels,
                            input@.len() as int % self@.channels as int == 0,
                            is_sinc(self@.typ),
                            half == spec_taps_right(self@.typ),
                            half <= 48,
                            wl@.len() == half,
                            forall|j: int| 0 <= j < wl@.len() ==>
                                -WEIGHT_BOUND <= #[trigger] wl@[j] <= WEIGHT_BOUND,
                            -(i as i128) * 0x6000_0000_0000_0000i128 <= acc
                                <= (i as i128) * 0x6000_0000_0000_0000i128,
                        decreases half - i,
                    {
                        // taps before the start of the stream are silence
                        let s: i32 = if (i as u64) <= self.pos_w {
                            self.fetch(input, self.pos_w - (i as u64), c)
                        } else {
                            0
                        };
                        let w = wl[i];
                        proof {
                            assert(-0x6000_0000_0000_0000i128 <= (w as i128) * (s as i128)
                                <= 0x6000_0000_0000_0000i128) by (nonlinear_arith)
                                requires -0xC000_0000i128 <= (w as i128) <= 0xC000_0000i128
                                    && -0x8000_0000i128 <= (s as i128) <= 0x8000_0000i128;
                            assert(((i + 1) as i128) * 0x6000_0000_0000_0000i128
                                == (i as i128) * 0x6000_0000_0000_0000i128
                                    + 0x6000_0000_0000_0000i128) by (nonlinear_arith);
                        }
                        acc = acc + (w as i128) * (s as i128);
                        i = i + 1;
                    }
                    let mut i: usize = 0;
                    while i < half
                        invariant
                            i <= half,
                            self.wf0(),
                            c < self@.channels,
                            input@.len() as int % self@.channels as int == 0,
                            is_sinc(self@.typ),
                            half == spec_taps_right(self@.typ),
                            half <= 48,
                            wr@.len() == half,
                            forall|j: int| 0 <= j < wr@.len() ==>
                                -WEIGHT_BOUND <= #[trigger] wr@[j] <= WEIGHT_BOUND,
                            -((48 + i) as i128) * 0x6000_0000_0000_0000i128 <= acc
                                <= ((48 + i) as i128) * 0x6000_0000_0000_0000i128,
                        decreases half - i,
                    {
                        let s = self.fetch(input, self.pos_w + 1 + (i as u64), c);
                        let w = wr[i];
                        proof {
                            assert(-0x6000_0000_0000_0000i128 <= (w as i128) * (s as i128)
                                <= 0x6000_0000_0000_0000i128) by (nonlinear_arith)
                                requires -0xC000_0000i128 <= (w as i128) <= 0xC000_0000i128
                                    && -0x8000_0000i128 <= (s as i128) <= 0x8000_0000i128;
                            assert(((48 + i + 1) as i128) * 0x6000_0000_0000_0000i128
                                == ((48 + i) as i128) * 0x6000_0000_0000_0000i128
                                    + 0x6000_0000_0000_0000i128) by (nonlinear_arith);
                        }
                        acc = acc + (w as i128) * (s as i128);
                        i = i + 1;
                    }
                    // rescale from the 2^30 weight scale, round, and clamp
                    let neg = acc < 0;
                    let mag: u128 = if neg { (-acc) as u128 } else { acc as u128 };
                    let vm: u128 = (mag + 0x2000_0000) / 0x4000_0000;
                    if neg {
                        if vm >= 0x8000_0000 {
                            i32::MIN
                        } else {
                            -((vm as i64) as i32)
                        }
                    } else {
                        if vm >= 0x7FFF_FFFF {
                            i32::MAX
                        } else {
                            vm as i32
                        }
                    }
                },
            };
            proof {
                assert(off * (ch as int) + (c as int) < (off + 1) * (ch as int))
                    by (nonlinear_arith)
                    requires (c as int) < ch as int;
            }
            let idx = off * ch + c;
            output[idx] = v;
            c = c + 1;
        }
        proof {
            assert(off * (ch as int) + (ch as int) == (off + 1) * (ch as int))
                by (nonlinear_arith);
        }
    }

    /// Slides the history window forward over `consumed` newly accepted
    /// frames, drawing from the old window and the chunk; frames beyond
    /// both are silence.
    fn shift_history(&mut self, input: &Vec<i32>, consumed: usize)
        requires
            old(self).wf0(),
            input@.len() <= STREAM_MAX,
            input@.len() as int % old(self)@.channels as int == 0,
            consumed as int * old(self)@.channels as int <= input@.len() as int,
        ensures
            final(self).wf0(),
            final(self)@ == old(self)@,
            forall|f: int, c: int|
                0 <= f < spec_hist_frames(old(self)@.typ) && 0 <= c < old(self)@.channels as int
                ==> #[trigger] final(self).hist_view()[f * old(self)@.channels as int + c]
                    == stream_sample(
                    old(self).hist_view(),
                    input@,
                    old(self)@.fed as int,
                    spec_hist_frames(old(self)@.typ),
                    old(self)@.channels as int,
                    old(self)@.fed as int - spec_hist_frames(old(self)@.typ) + consumed + f,
                    c,
                ),
    {
        let ch = self.channels;
        let hf = hist_frames(self.typ);
        let m = input.len() / ch;
        proof {
            assert(consumed as int <= m as int) by (nonlinear_arith)
                requires consumed as int * (ch as int) <= input@.len() as int
                    && m as int == input@.len() as int / (ch as int)
                    && (ch as int) >= 1
                    && input@.len() as int % (ch as int) == 0;
            assert(m as int <= input@.len() as int) by (nonlinear_arith)
                requires m as int == input@.len() as int / (ch as int) && (ch as int) >= 1;
        }
        let hl = self.hist.len();
        let il = input.len();
        let mut f: usize = 0;
        while f < hf
            invariant
                f <= hf,
                old(self).wf0(),
                self.channels == old(self).channels,
                ch == self.channels,
                hf as int == spec_hist_frames(self.typ),
                m as int == input@.len() as int / (ch as int),
                input@.len() <= STREAM_MAX,
                consumed <= m,
                input@.len() as int % (ch as int) == 0,
                consumed as int * (ch as int) <= input@.len() as int,
                m as int <= input@.len() as int,
                input@.len() <= usize::MAX,
                self.hist@.len() <= usize::MAX,
                self.hist@.len() as int == (hf as int) * (ch as int),
                self.hist@.len() == old(self).hist@.len(),
                self.typ == old(self).typ,
                self.num == old(self).num,
                self.den == old(self).den,
                self.pos_w == old(self).pos_w,
                self.pos_f == old(self).pos_f,
                self.fed == old(self).fed,
                self.emitted == old(self).emitted,
                self.eos == old(self).eos,
                self.fixed == old(self).fixed,
                self.t_pending == old(self).t_pending,
                self.t_rem == old(self).t_rem,
                self.t_total == old(self).t_total,
                self.t_r0 == old(self).t_r0,
                self.table@ == old(self).table@,
                forall|j: int| (f as int) * (ch as int) <= j < self.hist@.len()
                    ==> #[trigger] self.hist@[j] == old(self).hist@[j],
                forall|f2: int, c2: int| 0 <= f2 < f as int && 0 <= c2 < ch as int
                    ==> #[trigger] self.hist@[f2 * (ch as int) + c2] == stream_sample(
                        old(self).hist@,
                        input@,
                        old(self)@.fed as int,
                        hf as int,
                        ch as int,
                        old(self)@.fed as int - hf as int + consumed + f2,
                        c2,
                    ),
            decreases hf - f,
        {
            let mut c: usize = 0;
            while c < ch
                invariant
                    c <= ch,
                    f < hf,
                    old(self).wf0(),
                    self.channels == old(self).channels,
                    ch == self.channels,
                    hf as int == spec_hist_frames(self.typ),
                    m as int == input@.len() as int / (ch as int),
                    input@.len() <= STREAM_MAX,
                    consumed <= m,
                    input@.len() as int % (ch as int) == 0,
                    consumed as int * (ch as int) <= input@.len() as int,
                    m as int <= input@.len() as int,
                    input@.len() <= usize::MAX,
                    self.hist@.len() <= usize::MAX,
                    self.hist@.len() as int == (hf as int) * (ch as int),
                    self.hist@.len() == old(self).hist@.len(),
                    self.typ == old(self).typ,
                    self.num == old(self).num,
                    self.den == old(self).den,
                    self.pos_w == old(self).pos_w,
                    self.pos_f == old(self).pos_f,
                    self.fed == old(self).fed,
                    self.emitted == old(self).emitted,
                    self.eos == old(self).eos,
                    self.fixed == old(self).fixed,
                    self.t_pending == old(self).t_pending,
                    self.t_rem == old(self).t_rem,
                    self.t_total == old(self).t_total,
                    self.t_r0 == old(self).t_r0,
                    self.table@ == old(self).table@,
                    forall|j: int| (f as int) * (ch as int) + (c as int) <= j < self.hist@.len()
                        ==> #[trigger] self.hist@[j] == old(self).hist@[j],
                    forall|f2: int, c2: int| 0 <= f2 < f as int && 0 <= c2 < ch as int
                        ==> #[trigger] self.hist@[f2 * (ch as int) + c2] == stream_sample(
                            old(self).hist@,
                            input@,
                            old(self)@.fed as int,
                            hf as int,
                            ch as int,
                            old(self)@.fed as int - hf as int + consumed + f2,
                            c2,
                        ),
                    forall|c2: int| 0 <= c2 < c as int
                        ==> #[trigger] self.hist@[(f as int) * (ch as int) + c2]
                            == stream_sample(
                            old(self).hist@,
                            input@,
                            old(self)@.fed as int,
                            hf as int,
                            ch as int,
                            old(self)@.fed as int - hf as int + consumed + f as int,
                            c2,
                        ),
                decreases ch - c,
            {
                let ghost abs = old(self)@.fed as int - hf as int + consumed as int + f as int;
                let g64: u64 = (f as u64) + (consumed as u64);
                let v: i32 = if g64 < hf as u64 {
                    let g = g64 as usize;
                    proof {
                        assert((g as int) * (ch as int) + (c as int)
                            < (hf as int) * (ch as int)) by (nonlinear_arith)
                            requires (g as int) < hf as int && (c as int) < ch as int
                                && ch as int >= 1;
                        assert((g as int) * (ch as int) >= (f as int) * (ch as int))
                            by (nonlinear_arith)
                            requires g as int >= f as int && ch as int >= 0;
                    }
                    self.hist[g * ch + c]
                } else if g64 - (hf as u64) < m as u64 {
                    let gh = (g64 - (hf as u64)) as usize;
                    proof {
                        assert((gh as int) * (ch as int) + (c as int)
                            < (m as int) * (ch as int)) by (nonlinear_arith)
                            requires (gh as int) < m as int && (c as int) < ch as int
                                && ch as int >= 1;
                        assert((m as int) * (ch as int) <= input@.len() as int) by (nonlinear_arith)
                            requires m as int == input@.len() as int / (ch as int) && ch as int >= 1
                                && input@.len() as int % (ch as int) == 0;
                    }
                    input[gh * ch + c]
                } else {
                    0
                };
                proof {
                    assert(v == stream_sample(
                        old(self).hist@,
                        input@,
                        old(self)@.fed as int,
                        hf as int,
                        ch as int,
                        abs,
                        c as int,
                    ));
                    assert((f as int) * (ch as int) + (c as int) < (hf as int) * (ch as int))
                        by (nonlinear_arith)
                        requires (f as int) < hf as int && (c as int) < ch as int
                            && ch as int >= 1;
                    assert forall|f2: int, c2: int| 0 <= f2 < f as int && 0 <= c2 < ch as int
                        implies #[trigger] (f2 * (ch as int) + c2)
                            < (f as int) * (ch as int) by {
                        assert(f2 * (ch as int) + c2 < (f as int) * (ch as int))
                            by (nonlinear_arith)
                            requires 0 <= f2 < f as int && 0 <= c2 < ch as int;
                    }
                }
                let idx = f * ch + c;
                self.hist[idx] = v;
                c = c + 1;
            }
            proof {
                assert(((f + 1) as int) * (ch as int) == (f as int) * (ch as int) + (ch as int))
                    by (nonlinear_arith);
            }
            f = f + 1;
        }
    }

    /// Consumes a prefix of `input` and writes converted frames into
    /// `output`, up to its capacity in whole frames (a trailing partial
    /// frame of the buffer is never touched). Returns the exact
    /// `(consumed, produced)` frame counts. The same converter fed the same
    /// stream in any chunking reaches the same positions and totals.
    pub fn process(&mut self, input: &Vec<i32>, output: &mut Vec<i32>) -> (r: Result<
        (usize, usize),
        Error,
    >)
        requires
            old(self).wf(),
            old(self)@.fed + input@.len() <= STREAM_MAX,
        ensures
            final(self).wf(),
            same_config(final(self)@, old(self)@),
            final(self)@.fixed == old(self)@.fixed,
            final(self)@.eos == old(self)@.eos,
            final(output)@.len() == old(output)@.len(),
            r is Err <==> (old(self)@.eos
                || input@.len() as int % (old(self)@.channels as int) != 0),
            r is Err ==> final(self)@ == old(self)@ && final(output)@ == old(output)@
                && r == Err::<(usize, usize), Error>(Error::State),
            r matches Ok(p) ==> ({
                let ch = old(self)@.channels as int;
                let m = input@.len() as int / ch;
                let cap = old(output)@.len() as int / ch;
                let b = spec_taps_right(old(self)@.typ);
                let fedv = old(self)@.fed + m;
                &&& p.1 <= cap
                &&& p.0 <= m
                &&& final(self)@.emitted == old(self)@.emitted + p.1
                &&& final(self)@.fed == old(self)@.fed + p.0
                &&& old(self)@.pos_w <= final(self)@.pos_w
                &&& forall|j: int| p.1 * ch <= j < old(output)@.len()
                    ==> final(output)@[j] == old(output)@[j]
                &&& (p.1 == cap || final(self)@.emitted >= EMIT_CAP
                    || final(self)@.pos_w + b >= fedv)
                &&& p.0 == (if final(self)@.pos_w + b >= fedv {
                    m
                } else if final(self)@.pos_w + b + 1 >= old(self)@.fed {
                    min2(final(self)@.pos_w + b + 1 - old(self)@.fed, m)
                } else {
                    0
                })
                &&& (old(self)@.fixed ==> p.1 == min2(
                    cap,
                    clamp0(
                        stream_ready(fedv, b, old(self)@.num as int, old(self)@.den as int)
                            - old(self)@.emitted,
                    ),
                ))
                &&& (old(self)@.fixed ==> final(self)@.pos_w == pos_whole(
                    final(self)@.emitted as int,
                    old(self)@.num as int,
                    old(self)@.den as int,
                ))
                &&& final(self)@.pos_w <= old(self)@.pos_w
                    + p.1 * (RATIO_BOUND as int + 1)
                &&& (p.1 == 0 ==> final(self)@.pos_w == old(self)@.pos_w
                    && final(self)@.pos_f == old(self)@.pos_f)
                &&& forall|f: int, c: int|
                    0 <= f < spec_hist_frames(old(self)@.typ) && 0 <= c < ch
                    ==> #[trigger] final(self).hist_view()[f * ch + c] == stream_sample(
                        old(self).hist_view(),
                        input@,
                        old(self)@.fed as int,
                        spec_hist_frames(old(self)@.typ),
                        ch,
                        old(self)@.fed as int - spec_hist_frames(old(self)@.typ) + p.0 + f,
                        c,
                    )
                &&& (old(self)@.fixed && old(self)@.typ == ConverterType::ZeroOrderHold
                    ==> forall|k: int, c: int| 0 <= k < p.1 && 0 <= c < ch
                        ==> #[trigger] final(output)@[k * ch + c] == stream_sample(
                            old(self).hist_view(),
                            input@,
                            old(self)@.fed as int,
                            spec_hist_frames(old(self)@.typ),
                            ch,
                            zoh_index(
                                pos_whole(old(self)@.emitted + k, old(self)@.num as int,
                                    old(self)@.den as int),
                                pos_frac(old(self)@.emitted + k, old(self)@.num as int,
                                    old(self)@.den as int),
                                old(self)@.num as int,
                            ),
                            c,
                        ))
                &&& (old(self)@.fixed && old(self)@.typ == ConverterType::Linear
                    ==> forall|k: int, c: int| 0 <= k < p.1 && 0 <= c < ch
                        ==> #[trigger] final(output)@[k * ch + c] as int == linear_blend(
                            stream_sample(
                                old(self).hist_view(),
                                input@,
                                old(self)@.fed as int,
                                spec_hist_frames(old(self)@.typ),
                                ch,
                                pos_whole(old(self)@.emitted + k, old(self)@.num as int,
                                    old(self)@.den as int),
                                c,
                            ) as int,
                            stream_sample(
                                old(self).hist_view(),
                                input@,
                                old(self)@.fed as int,
                                spec_hist_frames(old(self)@.typ),
                                ch,
                                pos_whole(old(self)@.emitted + k, old(self)@.num as int,
                                    old(self)@.den as int) + 1,
                                c,
                            ) as int,
                            pos_frac(old(self)@.emitted + k, old(self)@.num as int,
                                old(self)@.den as int),
                            old(self)@.num as int,
                        ))
            }),
    {
        if self.eos {
            return Err(Error::State);
        }
        let ch = self.channels;
        if input.len() % ch != 0 {
            return Err(Error::State);
        }
        let m = input.len() / ch;
        let cap = output.len() / ch;
        if self.t_pending {
            self.t_total = if cap > 0 {
                cap as u64
            } else {
                1
            };
            self.t_rem = self.t_total;
            self.t_pending = false;
        }
        let fed0 = self.fed;
        let fedv = fed0 + m as u64;
        let b = taps_right(self.typ) as u64;
        let is_sinc_tier = match self.typ {
            ConverterType::ZeroOrderHold => false,
            ConverterType::Linear => false,
            _ => true,
        };
        let half = taps_right(self.typ);
        let os = table_os(self.typ);
        let mut wl: Vec<i64> = Vec::new();
        let mut wr: Vec<i64> = Vec::new();
        let mut produced: usize = 0;
        let olen = output.len();
        proof {
            assert(m as int <= input@.len() as int) by (nonlinear_arith)
                requires m as int == input@.len() as int / (ch as int) && (ch as int) >= 1;
            assert((cap as int) * (ch as int) <= olen as int) by (nonlinear_arith)
                requires cap as int == olen as int / (ch as int) && (ch as int) >= 1;
        }
        while produced < cap && self.emitted < EMIT_CAP && self.pos_w + b < fedv
            invariant
                self.wf0(),
                produced <= cap,
                ch == self@.channels,
                b == spec_taps_right(self@.typ),
                half == spec_taps_right(self@.typ),
                os == spec_table_os(self@.typ),
                is_sinc_tier == is_sinc(self@.typ),
                same_config(self@, old(self)@),
                self@.fed == old(self)@.fed,
                fed0 == self@.fed,
                fedv == fed0 + m as int,
                fedv <= STREAM_MAX,
                self@.eos == old(self)@.eos,
                self@.fixed == old(self)@.fixed,
                self.typ == old(self).typ,
                input@.len() as int % (ch as int) == 0,
                input@.len() <= STREAM_MAX,
                m as int == input@.len() as int / (ch as int),
                cap as int == old(output)@.len() as int / (ch as int),
                (cap as int) * (ch as int) <= old(output)@.len() as int,
                olen == output@.len(),
                output@.len() == old(output)@.len(),
                self@.emitted == old(self)@.emitted + produced,
                old(self)@.pos_w <= self@.pos_w,
                forall|j: int| (produced as int) * (ch as int) <= j < old(output)@.len()
                    ==> output@[j] == old(output)@[j],
                old(self)@.fixed ==> (produced == 0 || self@.emitted <= stream_ready(
                    fedv as int,
                    b as int,
                    self@.num as int,
                    self@.den as int,
                )),
                self.hist_view() == old(self).hist_view(),
                self@.pos_w <= old(self)@.pos_w + (produced as int) * (RATIO_BOUND as int + 1),
                produced == 0 ==> self@.pos_w == old(self)@.pos_w
                    && self@.pos_f == old(self)@.pos_f,
                old(self)@.fixed && self@.typ == ConverterType::ZeroOrderHold
                    ==> forall|k: int, c: int| 0 <= k < produced as int && 0 <= c < ch as int
                        ==> #[trigger] output@[k * (ch as int) + c] == stream_sample(
                            old(self).hist_view(),
                            input@,
                            old(self)@.fed as int,
                            spec_hist_frames(old(self)@.typ),
                            ch as int,
                            zoh_index(
                                pos_whole(old(self)@.emitted + k, self@.num as int,
                                    self@.den as int),
                                pos_frac(old(self)@.emitted + k, self@.num as int,
                                    self@.den as int),
                                self@.num as int,
                            ),
                            c,
                        ),
                old(self)@.fixed && self@.typ == ConverterType::Linear
                    ==> forall|k: int, c: int| 0 <= k < produced as int && 0 <= c < ch as int
                        ==> #[trigger] output@[k * (ch as int) + c] as int == linear_blend(
                            stream_sample(
                                old(self).hist_view(),
                                input@,
                                old(self)@.fed as int,
                                spec_hist_frames(old(self)@.typ),
                                ch as int,
                                pos_whole(old(self)@.emitted + k, self@.num as int,
                                    self@.den as int),
                                c,
                            ) as int,
                            stream_sample(
                                old(self).hist_view(),
                                input@,
                                old(self)@.fed as int,
                                spec_hist_frames(old(self)@.typ),
                                ch as int,
                                pos_whole(old(self)@.emitted + k, self@.num as int,
                                    self@.den as int) + 1,
                                c,
                            ) as int,
                            pos_frac(old(self)@.emitted + k, self@.num as int,
                                self@.den as int),
                            self@.num as int,
                        ),
            decreases cap - produced,
        {
            proof {
                if self@.fixed && fedv as int >= b as int {
                    lemma_emit_threshold(
                        self@.emitted as int,
                        self@.num as int,
                        self@.den as int,
                        fedv as int - b as int,
                    );
                }
                assert((produced as int + 1) * (ch as int) <= (cap as int) * (ch as int))
                    by (nonlinear_arith)
                    requires (produced as int) < cap as int && (ch as int) >= 1;
            }
            if is_sinc_tier {
                let fq = self.frac_q32();
                fill_weights(&self.table, half, os, fq, &mut wl, &mut wr);
            }
            self.emit_frame(input, output, produced, &wl, &wr);
            self.advance();
            produced = produced + 1;
            proof {
                assert((produced as int) * (ch as int)
                    == (produced as int - 1) * (ch as int) + (ch as int)) by (nonlinear_arith);
                assert((produced as int) * (RATIO_BOUND as int + 1)
                    == (produced as int - 1) * (RATIO_BOUND as int + 1)
                        + (RATIO_BOUND as int + 1)) by (nonlinear_arith);
                assert forall|k: int, c: int| 0 <= k < produced as int - 1 && 0 <= c < ch as int
                    implies #[trigger] (k * (ch as int) + c) < (produced as int - 1) * (ch as int) by {
                    assert(k * (ch as int) + c < (produced as int - 1) * (ch as int))
                        by (nonlinear_arith)
                        requires 0 <= k < produced as int - 1 && 0 <= c < ch as int;
                }
            }
        }
        proof {
            if self@.fixed {
                // the emit cap never binds while the ratio is fixed
                lemma_total_ready_bound(fedv as int, self@.num as int, self@.den as int);
                lemma_total_ready_bound(fed0 as int, self@.num as int, self@.den as int);
                lemma_stream_le_total(fedv as int, b as int, self@.num as int, self@.den as int);
                if fedv as int >= b as int {
                    lemma_emit_threshold(
                        self@.emitted as int,
                        self@.num as int,
                        self@.den as int,
                        fedv as int - b as int,
                    );
                }
            }
        }
        let consumed: usize = if self.pos_w + b >= fedv {
            m
        } else {
            let need = self.pos_w + b + 1;
            if need <= fed0 {
                0
            } else if need - fed0 >= m as u64 {
                m
            } else {
                (need - fed0) as usize
            }
        };
        proof {
            assert((consumed as int) * (ch as int) <= (m as int) * (ch as int))
                by (nonlinear_arith)
                requires consumed as int <= m as int && (ch as int) >= 0;
            assert((m as int) * (ch as int) <= input@.len() as int) by (nonlinear_arith)
                requires m as int == input@.len() as int / (ch as int) && (ch as int) >= 1
                    && input@.len() as int % (ch as int) == 0;
        }
        self.shift_history(input, consumed);
        let ghost hist_after = self.hist_view();
        self.fed = fed0 + consumed as u64;
        proof {
            assert(self.hist_view() == hist_after);
            assert forall|f: int, c: int|
                0 <= f < spec_hist_frames(old(self)@.typ)
                    && 0 <= c < old(self)@.channels as int
                implies #[trigger] self.hist_view()[f * (old(self)@.channels as int) + c]
                    == stream_sample(
                    old(self).hist_view(),
                    input@,
                    old(self)@.fed as int,
                    spec_hist_frames(old(self)@.typ),
                    old(self)@.channels as int,
                    old(self)@.fed as int - spec_hist_frames(old(self)@.typ)
                        + consumed as int + f,
                    c,
                ) by {
                assert(hist_after[f * (old(self)@.channels as int) + c] == stream_sample(
                    old(self).hist_view(),
                    input@,
                    old(self)@.fed as int,
                    spec_hist_frames(old(self)@.typ),
                    old(self)@.channels as int,
                    old(self)@.fed as int - spec_hist_frames(old(self)@.typ)
                        + consumed as int + f,
                    c,
                ));
            }
        }
        proof {
            if self@.fixed {
                // re-establish: emitted never exceeds what the consumed
                // input owes
                if self@.pos_w < self@.fed {
                    lemma_emit_threshold(
                        self@.emitted as int,
                        self@.num as int,
                        self@.den as int,
                        self@.fed as int,
                    );
                } else {
                    assert(self@.fed == fedv);
                    if produced == 0 {
                        assert((fed0 as int) * (self@.num as int)
                            <= (fedv as int) * (self@.num as int)) by (nonlinear_arith)
                            requires fed0 as int <= fedv as int && self@.num as int >= 1;
                        lemma_ceil_div_monotone(
                            (fed0 as int) * (self@.num as int),
                            (fedv as int) * (self@.num as int),
                            self@.den as int,
                        );
                    }
                }
            }
        }
        Ok((consumed, produced))
    }

    /// Emits output that depends only on already-consumed input, feeding
    /// silence in place of further input, up to the output capacity in
    /// whole frames. A zero return with any capacity to spare means the
    /// converter holds no further undelivered output; once that point is
    /// reached every later call returns zero and changes nothing.
    pub fn drain(&mut self, output: &mut Vec<i32>) -> (r: usize)
        requires
            old(self).wf(),
        ensures
            final(self).wf(),
            same_config(final(self)@, old(self)@),
            final(self)@.fixed == old(self)@.fixed,
            final(self)@.eos,
            final(self)@.fed == old(self)@.fed,
            final(output)@.len() == old(output)@.len(),
            ({
                let ch = old(self)@.channels as int;
                let cap = old(output)@.len() as int / ch;
                &&& r <= cap
                &&& final(self)@.emitted == old(self)@.emitted + r
                &&& old(self)@.pos_w <= final(self)@.pos_w
                &&& forall|j: int| (r as int) * ch <= j < old(output)@.len()
                    ==> final(output)@[j] == old(output)@[j]
                &&& (r == cap || final(self)@.emitted >= EMIT_CAP || drained(final(self)@))
                &&& final(self)@.pos_w <= old(self)@.pos_w + (r as int) * (RATIO_BOUND as int + 1)
                &&& (drained(old(self)@) ==> r == 0 && final(self)@.pos_w == old(self)@.pos_w
                    && final(self)@.pos_f == old(self)@.pos_f)
                &&& (r == 0 <==> (cap == 0 || drained(old(self)@)
                    || old(self)@.emitted >= EMIT_CAP))
                &&& (old(self)@.fixed ==> r == min2(
                    cap,
                    clamp0(
                        total_ready(
                            old(self)@.fed as int,
                            old(self)@.num as int,
                            old(self)@.den as int,
                        ) - old(self)@.emitted,
                    ),
                ))
                &&& (old(self)@.fixed && r < cap ==> final(self)@.emitted == total_ready(
                    old(self)@.fed as int,
                    old(self)@.num as int,
                    old(self)@.den as int,
                ))
                &&& (old(self)@.fixed && old(self)@.typ == ConverterType::ZeroOrderHold
                    ==> forall|k: int, c: int| 0 <= k < r && 0 <= c < ch
                        ==> #[trigger] final(output)@[k * ch + c] == stream_sample(
                            old(self).hist_view(),
                            Seq::<i32>::empty(),
                            old(self)@.fed as int,
                            spec_hist_frames(old(self)@.typ),
                            ch,
                            zoh_index(
                                pos_whole(old(self)@.emitted + k, old(self)@.num as int,
                                    old(self)@.den as int),
                                pos_frac(old(self)@.emitted + k, old(self)@.num as int,
                                    old(self)@.den as int),
                                old(self)@.num as int,
                            ),
                            c,
                        ))
                &&& (old(self)@.fixed && old(self)@.typ == ConverterType::Linear
                    ==> forall|k: int, c: int| 0 <= k < r && 0 <= c < ch
                        ==> #[trigger] final(output)@[k * ch + c] as int == linear_blend(
                            stream_sample(
                                old(self).hist_view(),
                                Seq::<i32>::empty(),
                                old(self)@.fed as int,
                                spec_hist_frames(old(self)@.typ),
                                ch,
                                pos_whole(old(self)@.emitted + k, old(self)@.num as int,
                                    old(self)@.den as int),
                                c,
                            ) as int,
                            stream_sample(
                                old(self).hist_view(),
                                Seq::<i32>::empty(),
                                old(self)@.fed as int,
                                spec_hist_frames(old(self)@.typ),
                                ch,
                                pos_whole(old(self)@.emitted + k, old(self)@.num as int,
                                    old(self)@.den as int) + 1,
                                c,
                            ) as int,
                            pos_frac(old(self)@.emitted + k, old(self)@.num as int,
                                old(self)@.den as int),
                            old(self)@.num as int,
                        ))
            }),
    {
        let ch = self.channels;
        let cap = output.len() / ch;
        self.eos = true;
        self.t_pending = false;
        self.t_rem = 0;
        let b = taps_right(self.typ) as u64;
        let is_sinc_tier = match self.typ {
            ConverterType::ZeroOrderHold => false,
            ConverterType::Linear => false,
            _ => true,
        };
        let half = taps_right(self.typ);
        let os = table_os(self.typ);
        let empty: Vec<i32> = Vec::new();
        let mut wl: Vec<i64> = Vec::new();
        let mut wr: Vec<i64> = Vec::new();
        let mut produced: usize = 0;
        let olen = output.len();
        proof {
            assert((cap as int) * (ch as int) <= olen as int) by (nonlinear_arith)
                requires cap as int == olen as int / (ch as int) && (ch as int) >= 1;
            if self@.fixed {
                lemma_total_ready_bound(self@.fed as int, self@.num as int, self@.den as int);
            }
        }
        while produced < cap && self.emitted < EMIT_CAP && self.pos_w < self.fed
            invariant
                self.wf0(),
                produced <= cap,
                ch == self@.channels,
                half == spec_taps_right(self@.typ),
                os == spec_table_os(self@.typ),
                is_sinc_tier == is_sinc(self@.typ),
                same_config(self@, old(self)@),
                self@.fed == old(self)@.fed,
                self@.fed <= STREAM_MAX,
                self@.eos,
                self@.fixed == old(self)@.fixed,
                self.typ == old(self).typ,
                empty@.len() == 0,
                cap as int == old(output)@.len() as int / (ch as int),
                (cap as int) * (ch as int) <= old(output)@.len() as int,
                olen == output@.len(),
                output@.len() == old(output)@.len(),
                self@.emitted == old(self)@.emitted + produced,
                old(self)@.pos_w <= self@.pos_w,
                forall|j: int| (produced as int) * (ch as int) <= j < old(output)@.len()
                    ==> output@[j] == old(output)@[j],
                produced > 0 ==> !drained(old(self)@),
                produced > 0 ==> old(self)@.emitted < EMIT_CAP,
                self@.pos_w <= old(self)@.pos_w + (produced as int) * (RATIO_BOUND as int + 1),
                produced == 0 ==> self@.pos_w == old(self)@.pos_w
                    && self@.pos_f == old(self)@.pos_f,
                self@.fixed ==> self@.emitted <= total_ready(
                    self@.fed as int,
                    self@.num as int,
                    self@.den as int,
                ),
                self.hist_view() == old(self).hist_view(),
                old(self)@.fixed && self@.typ == ConverterType::ZeroOrderHold
                    ==> forall|k: int, c: int| 0 <= k < produced as int && 0 <= c < ch as int
                        ==> #[trigger] output@[k * (ch as int) + c] == stream_sample(
                            old(self).hist_view(),
                            Seq::<i32>::empty(),
                            old(self)@.fed as int,
                            spec_hist_frames(old(self)@.typ),
                            ch as int,
                            zoh_index(
                                pos_whole(old(self)@.emitted + k, self@.num as int,
                                    self@.den as int),
                                pos_frac(old(self)@.emitted + k, self@.num as int,
                                    self@.den as int),
                                self@.num as int,
                            ),
                            c,
                        ),
                old(self)@.fixed && self@.typ == ConverterType::Linear
                    ==> forall|k: int, c: int| 0 <= k < produced as int && 0 <= c < ch as int
                        ==> #[trigger] output@[k * (ch as int) + c] as int == linear_blend(
                            stream_sample(
                                old(self).hist_view(),
                                Seq::<i32>::empty(),
                                old(self)@.fed as int,
                                spec_hist_frames(old(self)@.typ),
                                ch as int,
                                pos_whole(old(self)@.emitted + k, self@.num as int,
                                    self@.den as int),
                                c,
                            ) as int,
                            stream_sample(
                                old(self).hist_view(),
                                Seq::<i32>::empty(),
                                old(self)@.fed as int,
                                spec_hist_frames(old(self)@.typ),
                                ch as int,
                                pos_whole(old(self)@.emitted + k, self@.num as int,
                                    self@.den as int) + 1,
                                c,
                            ) as int,
                            pos_frac(old(self)@.emitted + k, self@.num as int,
                                self@.den as int),
                            self@.num as int,
                        ),
            decreases cap - produced,
        {
            proof {
                if self@.fixed {
                    lemma_emit_threshold(
                        self@.emitted as int,
                        self@.num as int,
                        self@.den as int,
                        self@.fed as int,
                    );
                }
                assert((produced as int + 1) * (ch as int) <= (cap as int) * (ch as int))
                    by (nonlinear_arith)
                    requires (produced as int) < cap as int && (ch as int) >= 1;
            }
            if is_sinc_tier {
                let fq = self.frac_q32();
                fill_weights(&self.table, half, os, fq, &mut wl, &mut wr);
            }
            self.emit_frame(&empty, output, produced, &wl, &wr);
            self.advance();
            produced = produced + 1;
            proof {
                assert((produced as int) * (ch as int)
                    == (produced as int - 1) * (ch as int) + (ch as int)) by (nonlinear_arith);
                assert((produced as int) * (RATIO_BOUND as int + 1)
                    == (produced as int - 1) * (RATIO_BOUND as int + 1)
                        + (RATIO_BOUND as int + 1)) by (nonlinear_arith);
                assert forall|k: int, c: int| 0 <= k < produced as int - 1 && 0 <= c < ch as int
                    implies #[trigger] (k * (ch as int) + c)
                        < (produced as int - 1) * (ch as int) by {
                    assert(k * (ch as int) + c < (produced as int - 1) * (ch as int))
                        by (nonlinear_arith)
                        requires 0 <= k < produced as int - 1 && 0 <= c < ch as int;
                }
            }
        }
        proof {
            if self@.fixed {
                lemma_emit_threshold(
                    self@.emitted as int,
                    self@.num as int,
                    self@.den as int,
                    self@.fed as int,
                );
                lemma_total_ready_bound(self@.fed as int, self@.num as int, self@.den as int);
            }
        }
        produced
    }
}

} // verus!
