use samplerate::{convert, version, Converter, ConverterType, Error};

const SCALE: f32 = 16777216.0; // 2^24: fixed-point scale used by the tests

fn to_fixed(input: &[f32]) -> Vec<i32> {
    input.iter().map(|x| (x * SCALE).round() as i32).collect()
}

fn to_float(input: &[i32]) -> Vec<f32> {
    input.iter().map(|x| *x as f32 / SCALE).collect()
}

fn sine_880_44100() -> Vec<f32> {
    let freq = std::f32::consts::PI * 880f32 / 44100f32;
    (0..44100).map(|i| (freq * i as f32).sin()).collect()
}

#[test]
fn correct_version() {
    assert_eq!(version(), "libsamplerate-0.1.9 (c) 2002-2008 Erik de Castro Lopo");
}

#[test]
fn simple_sample_rate_conversion() {
    let input = sine_880_44100();
    let fixed = to_fixed(&input);
    let resampled = convert(44100, 48000, 1, ConverterType::SincBestQuality, &fixed).unwrap();
    let output_fixed = convert(48000, 44100, 1, ConverterType::SincBestQuality, &resampled).unwrap();
    let output = to_float(&output_fixed);
    let error = input
        .iter()
        .zip(output)
        .fold(0f32, |max, (input, output)| max.max((input - output).abs()));
    assert!(error < 0.002);
}

#[test]
fn one_second_sine_gives_exactly_48000_frames() {
    let fixed = to_fixed(&sine_880_44100());
    let resampled = convert(44100, 48000, 1, ConverterType::SincBestQuality, &fixed).unwrap();
    assert_eq!(resampled.len(), 48000);
}

#[test]
fn one_shot_length_follows_ceiling_formula() {
    // length == ceil(ratio * frames) * channels, across channel counts 1, 2, 7
    for &(from, to, frames) in &[
        (44100u32, 48000u32, 997usize),
        (48000, 44100, 1000),
        (8000, 11025, 123),
        (96000, 375, 1024),
        (375, 96000, 7),
    ] {
        for &ch in &[1usize, 2, 7] {
            let input = vec![0i32; frames * ch];
            let out = convert(from, to, ch, ConverterType::Linear, &input).unwrap();
            let expected = (frames * to as usize + from as usize - 1) / from as usize;
            assert_eq!(out.len(), expected * ch, "from={} to={} ch={}", from, to, ch);
        }
    }
}

#[test]
fn create_rejects_bad_configurations() {
    assert_eq!(
        Converter::create(ConverterType::Linear, 44100, 48000, 0).err(),
        Some(Error::Configuration)
    );
    assert_eq!(
        Converter::create(ConverterType::Linear, 0, 48000, 1).err(),
        Some(Error::Configuration)
    );
    assert_eq!(
        Converter::create(ConverterType::Linear, 44100, 0, 1).err(),
        Some(Error::Configuration)
    );
    // ratio far beyond the supported range
    assert_eq!(
        Converter::create(ConverterType::Linear, 100, 48000, 1).err(),
        Some(Error::Configuration)
    );
    assert_eq!(
        Converter::create(ConverterType::Linear, 48000, 100, 1).err(),
        Some(Error::Configuration)
    );
    // boundary ratios are accepted
    assert!(Converter::create(ConverterType::Linear, 256, 1, 1).is_ok());
    assert!(Converter::create(ConverterType::Linear, 1, 256, 1).is_ok());
}

#[test]
fn convert_rejects_misaligned_input() {
    let input = vec![0i32; 7];
    assert_eq!(
        convert(44100, 48000, 2, ConverterType::Linear, &input).err(),
        Some(Error::State)
    );
}

#[test]
fn process_rejects_misaligned_input() {
    let mut c = Converter::create(ConverterType::Linear, 44100, 48000, 2).unwrap();
    let input = vec![0i32; 3];
    let mut out = vec![0i32; 16];
    assert_eq!(c.process(&input, &mut out).err(), Some(Error::State));
}

#[test]
fn process_after_drain_is_a_state_error() {
    let mut c = Converter::create(ConverterType::Linear, 44100, 48000, 1).unwrap();
    let input = vec![100i32; 50];
    let mut out = vec![0i32; 200];
    c.process(&input, &mut out).unwrap();
    while c.drain(&mut out) > 0 {}
    assert_eq!(c.process(&input, &mut out).err(), Some(Error::State));
}

#[test]
fn drain_is_idempotent_after_exhaustion() {
    let mut c = Converter::create(ConverterType::SincFastest, 44100, 48000, 1).unwrap();
    let input = vec![1000i32; 441];
    let mut out = vec![0i32; 2000];
    c.process(&input, &mut out).unwrap();
    while c.drain(&mut out) > 0 {}
    for _ in 0..5 {
        assert_eq!(c.drain(&mut out), 0);
    }
}

#[test]
fn capacity_is_respected_and_rest_untouched() {
    let mut c = Converter::create(ConverterType::SincBestQuality, 44100, 48000, 2).unwrap();
    let input = vec![12345i32; 2 * 4410];
    // capacity far below the available output; one trailing sample is not a
    // whole frame and must never be written
    let mut out = vec![77770i32; 201];
    let (consumed, produced) = c.process(&input, &mut out).unwrap();
    assert_eq!(produced, 100);
    assert!(consumed <= 4410);
    assert_eq!(out[200], 77770);
    // draining into a small buffer also stops at its capacity
    let mut small = vec![88880i32; 7];
    let drained = c.drain(&mut small);
    assert_eq!(drained, 3);
    assert_eq!(small[6], 88880);
}

#[test]
fn streaming_in_chunks_matches_one_shot() {
    let fixed = to_fixed(&sine_880_44100());
    let one_shot = convert(44100, 48000, 1, ConverterType::SincBestQuality, &fixed).unwrap();

    let mut c = Converter::create(ConverterType::SincBestQuality, 44100, 48000, 1).unwrap();
    let mut streamed: Vec<i32> = Vec::new();
    let mut buf = vec![0i32; 10000];
    for chunk in fixed.chunks(4410) {
        let mut offset = 0usize;
        while offset < chunk.len() {
            let piece: Vec<i32> = chunk[offset..].to_vec();
            let (consumed, produced) = c.process(&piece, &mut buf).unwrap();
            streamed.extend_from_slice(&buf[..produced]);
            offset += consumed;
            if consumed == 0 && produced == 0 {
                break;
            }
        }
    }
    loop {
        let produced = c.drain(&mut buf);
        if produced == 0 {
            break;
        }
        streamed.extend_from_slice(&buf[..produced]);
    }
    let diff = one_shot.len() as i64 - streamed.len() as i64;
    assert!(diff.abs() <= 1);
    assert_eq!(streamed, one_shot);
}

#[test]
fn linear_interpolates_exact_midpoints() {
    let input = vec![0i32, 100, 200];
    let out = convert(1, 2, 1, ConverterType::Linear, &input).unwrap();
    assert_eq!(out, vec![0, 50, 100, 150, 200, 100]);
}

#[test]
fn zero_order_hold_repeats_nearest_sample() {
    let input = vec![10i32, 20];
    let out = convert(1, 2, 1, ConverterType::ZeroOrderHold, &input).unwrap();
    assert_eq!(out, vec![10, 20, 20, 0]);
}

#[test]
fn unit_ratio_is_identity_after_priming() {
    // at ratio 1 with the sinc kernel, interior samples pass through exactly
    let input: Vec<i32> = (0..500).map(|i| (i * 37 % 1000) - 500).collect();
    let out = convert(44100, 44100, 1, ConverterType::SincMediumQuality, &input).unwrap();
    assert_eq!(out.len(), 500);
    // the kernel needs its look-ahead, so the output is the input delayed
    // by nothing at all: positions are integers and weights collapse
    assert_eq!(out, input);
}

#[test]
fn reset_restores_the_initial_state() {
    let input = vec![5000i32; 1000];
    let mut c = Converter::create(ConverterType::SincFastest, 44100, 48000, 1).unwrap();
    let mut out1 = vec![0i32; 2000];
    let (c1, p1) = c.process(&input, &mut out1).unwrap();
    c.reset();
    let mut out2 = vec![0i32; 2000];
    let (c2, p2) = c.process(&input, &mut out2).unwrap();
    assert_eq!((c1, p1), (c2, p2));
    assert_eq!(out1, out2);
}

#[test]
fn set_ratio_validates_and_switches() {
    let mut c = Converter::create(ConverterType::Linear, 44100, 44100, 1).unwrap();
    assert_eq!(c.set_ratio(0, 1).err(), Some(Error::Configuration));
    assert_eq!(c.set_ratio(1, 0).err(), Some(Error::Configuration));
    assert_eq!(c.set_ratio(1000, 1).err(), Some(Error::Configuration));
    assert!(c.set_ratio(2, 1).is_ok());
    let input = vec![100i32; 100];
    let mut out = vec![0i32; 500];
    let (consumed, produced) = c.process(&input, &mut out).unwrap();
    assert_eq!(consumed, 100);
    assert!(produced > 100); // the stream is now being upsampled
}

#[test]
fn multichannel_frames_stay_interleaved() {
    // two channels with constant but different values stay on their channels
    let mut input = Vec::new();
    for _ in 0..100 {
        input.push(1000i32);
        input.push(-2000i32);
    }
    let out = convert(44100, 48000, 2, ConverterType::Linear, &input).unwrap();
    assert_eq!(out.len() % 2, 0);
    // skip the leading edge, check a stable interior frame
    for f in 2..(out.len() / 2 - 2) {
        assert_eq!(out[2 * f], 1000, "frame {}", f);
        assert_eq!(out[2 * f + 1], -2000, "frame {}", f);
    }
}

#[test]
fn odd_chunks_and_tiny_capacity_reach_the_same_total() {
    let fixed = to_fixed(&sine_880_44100()[..8820]);
    let one_shot = convert(44100, 48000, 1, ConverterType::SincFastest, &fixed).unwrap();

    let mut c = Converter::create(ConverterType::SincFastest, 44100, 48000, 1).unwrap();
    let mut streamed: Vec<i32> = Vec::new();
    let mut buf = vec![0i32; 13];
    for chunk in fixed.chunks(997) {
        let mut offset = 0usize;
        loop {
            let piece: Vec<i32> = chunk[offset..].to_vec();
            let (consumed, produced) = c.process(&piece, &mut buf).unwrap();
            streamed.extend_from_slice(&buf[..produced]);
            offset += consumed;
            if offset >= chunk.len() && produced < 13 {
                break;
            }
        }
    }
    loop {
        let produced = c.drain(&mut buf);
        if produced == 0 {
            break;
        }
        streamed.extend_from_slice(&buf[..produced]);
    }
    assert_eq!(streamed, one_shot);
}

#[test]
fn drain_with_no_capacity_reports_nothing_without_losing_output() {
    let mut c = Converter::create(ConverterType::Linear, 44100, 48000, 1).unwrap();
    let input = vec![4000i32; 100];
    let mut out = vec![0i32; 400];
    c.process(&input, &mut out).unwrap();
    // an empty buffer cannot receive anything, so zero is reported ...
    let mut empty: Vec<i32> = Vec::new();
    assert_eq!(c.drain(&mut empty), 0);
    // ... but the pending output is still there for a real buffer
    assert!(c.drain(&mut out) > 0);
}
