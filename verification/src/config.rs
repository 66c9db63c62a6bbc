//! Converter quality tiers, error taxonomy, and the configuration limits
//! that `create`, `convert` and `set_ratio` enforce.

use vstd::prelude::*;

verus! {

/// Interpolation quality tier of a converter. Fixed at creation.
#[derive(Clone, Copy, Debug, PartialEq, Eq, Structural)]
pub enum ConverterType {
    /// Band-limited windowed-sinc interpolation, widest kernel.
    SincBestQuality,
    /// Band-limited windowed-sinc interpolation, medium kernel.
    SincMediumQuality,
    /// Band-limited windowed-sinc interpolation, narrowest kernel.
    SincFastest,
    /// Each output sample repeats the nearest input sample.
    ZeroOrderHold,
    /// Each output sample blends the two bracketing input samples.
    Linear,
}

/// Failures reported by the conversion API.
#[derive(Clone, Copy, Debug, PartialEq, Eq, Structural)]
pub enum Error {
    /// Rejected at creation time: zero channels, a zero rate, a ratio
    /// outside the supported range, or a size beyond the machine limits.
    Configuration,
    /// A call disagrees with the converter's fixed configuration: an input
    /// buffer whose length is not a whole number of frames, or input
    /// offered after draining began.
    State,
}

/// Largest supported ratio; ratios must lie in [1/RATIO_BOUND, RATIO_BOUND].
pub const RATIO_BOUND: u64 = 256;

/// Largest numerator or denominator accepted for a conversion ratio.
pub const RATIO_TERM_MAX: u64 = 0x100_0000_0000;

/// Largest total number of input frames a converter accepts over its life.
pub const STREAM_MAX: u64 = 0x4_0000_0000_0000;

/// Largest supported channel count. The engine itself needs only
/// `channel_count >= 1`; this ceiling is a machine-scale limit that keeps
/// the history allocation and every index computation in range, and
/// configurations beyond it are rejected with a configuration error
/// rather than accepted unchecked.
pub const CHANNELS_MAX: usize = 0x10000;

/// Hard ceiling on the total number of output frames a converter emits.
pub const EMIT_CAP: u64 = 0x4000_0000_0000_0000;

/// A ratio num/den is supported when both terms are positive, not beyond
/// the machine limit, and the ratio lies within [1/RATIO_BOUND, RATIO_BOUND].
pub open spec fn ratio_ok(num: int, den: int) -> bool {
    &&& 1 <= num <= RATIO_TERM_MAX
    &&& 1 <= den <= RATIO_TERM_MAX
    &&& num <= RATIO_BOUND * den
    &&& den <= RATIO_BOUND * num
}

/// A converter configuration is accepted exactly under these conditions.
pub open spec fn config_ok(from_rate: u32, to_rate: u32, channels: usize) -> bool {
    &&& 1 <= channels <= CHANNELS_MAX
    &&& from_rate >= 1
    &&& to_rate >= 1
    &&& ratio_ok(to_rate as int, from_rate as int)
}

/// Runtime check mirroring `ratio_ok`.
pub fn check_ratio(num: u64, den: u64) -> (r: bool)
    ensures
        r == ratio_ok(num as int, den as int),
{
    num >= 1 && num <= RATIO_TERM_MAX && den >= 1 && den <= RATIO_TERM_MAX
        && num <= RATIO_BOUND * den && den <= RATIO_BOUND * num
}

/// Runtime check mirroring `config_ok`.
pub fn check_config(from_rate: u32, to_rate: u32, channels: usize) -> (r: bool)
    ensures
        r == config_ok(from_rate, to_rate, channels),
{
    channels >= 1 && channels <= CHANNELS_MAX && from_rate >= 1 && to_rate >= 1
        && check_ratio(to_rate as u64, from_rate as u64)
}

/// Number of input samples the kernel consults left of the read position.
pub open spec fn spec_taps_left(t: ConverterType) -> int {
    match t {
        ConverterType::SincBestQuality => 47,
        ConverterType::SincMediumQuality => 15,
        ConverterType::SincFastest => 7,
        ConverterType::ZeroOrderHold => 0,
        ConverterType::Linear => 0,
    }
}

/// Number of input samples the kernel consults right of the read position.
pub open spec fn spec_taps_right(t: ConverterType) -> int {
    match t {
        ConverterType::SincBestQuality => 48,
        ConverterType::SincMediumQuality => 16,
        ConverterType::SincFastest => 8,
        ConverterType::ZeroOrderHold => 1,
        ConverterType::Linear => 1,
    }
}

/// Frames of history a converter retains: the full kernel window.
pub open spec fn spec_hist_frames(t: ConverterType) -> int {
    spec_taps_left(t) + spec_taps_right(t) + 1
}

pub fn taps_left(t: ConverterType) -> (r: usize)
    ensures
        r == spec_taps_left(t),
{
    match t {
        ConverterType::SincBestQuality => 47,
        ConverterType::SincMediumQuality => 15,
        ConverterType::SincFastest => 7,
        ConverterType::ZeroOrderHold => 0,
        ConverterType::Linear => 0,
    }
}

pub fn taps_right(t: ConverterType) -> (r: usize)
    ensures
        r == spec_taps_right(t),
{
    match t {
        ConverterType::SincBestQuality => 48,
        ConverterType::SincMediumQuality => 16,
        ConverterType::SincFastest => 8,
        ConverterType::ZeroOrderHold => 1,
        ConverterType::Linear => 1,
    }
}

pub fn hist_frames(t: ConverterType) -> (r: usize)
    ensures
        r == spec_hist_frames(t),
{
    taps_left(t) + taps_right(t) + 1
}

/// Windowed-sinc kernel half-width of a tier; zero for the two
/// memoryless tiers.
pub fn sinc_half_width(t: ConverterType) -> (r: usize)
    ensures
        r == if t is ZeroOrderHold || t is Linear { 0int } else { spec_taps_right(t) },
{
    match t {
        ConverterType::SincBestQuality => 48,
        ConverterType::SincMediumQuality => 16,
        ConverterType::SincFastest => 8,
        ConverterType::ZeroOrderHold => 0,
        ConverterType::Linear => 0,
    }
}

/// Whether a tier interpolates with the windowed-sinc kernel.
pub open spec fn is_sinc(t: ConverterType) -> bool {
    t is SincBestQuality || t is SincMediumQuality || t is SincFastest
}

/// Kernel table oversampling factor of a tier.
pub open spec fn spec_table_os(t: ConverterType) -> int {
    match t {
        ConverterType::SincBestQuality => 4096,
        ConverterType::SincMediumQuality => 1024,
        ConverterType::SincFastest => 512,
        ConverterType::ZeroOrderHold => 2,
        ConverterType::Linear => 2,
    }
}

pub fn table_os(t: ConverterType) -> (r: u64)
    ensures
        r == spec_table_os(t),
{
    match t {
        ConverterType::SincBestQuality => 4096,
        ConverterType::SincMediumQuality => 1024,
        ConverterType::SincFastest => 512,
        ConverterType::ZeroOrderHold => 2,
        ConverterType::Linear => 2,
    }
}

/// Quarter of the squared Kaiser shape parameter of a tier's window.
pub fn window_shape(t: ConverterType) -> (r: u64)
    ensures
        1 <= r <= 64,
{
    match t {
        ConverterType::SincBestQuality => 64,
        ConverterType::SincMediumQuality => 25,
        ConverterType::SincFastest => 9,
        ConverterType::ZeroOrderHold => 1,
        ConverterType::Linear => 1,
    }
}

} // verus!
