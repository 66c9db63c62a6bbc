use samplerate::{convert, ConverterType};

const SCALE: f64 = 16777216.0; // 2^24: fixed-point scale used by the tests

#[test]
fn sine_round_trip_error_is_tiny_in_the_interior() {
    // 880 Hz sine at 44100 Hz, up to 48000 Hz and back, best quality
    let n = 44100usize;
    let freq = 2.0 * std::f64::consts::PI * 880.0 / 44100.0;
    let sine: Vec<f64> = (0..n).map(|i| (freq * i as f64).sin()).collect();
    let fixed: Vec<i32> = sine.iter().map(|x| (x * SCALE).round() as i32).collect();

    let up = convert(44100, 48000, 1, ConverterType::SincBestQuality, &fixed).unwrap();
    assert_eq!(up.len(), 48000);
    let back = convert(48000, 44100, 1, ConverterType::SincBestQuality, &up).unwrap();
    assert_eq!(back.len(), n);

    let mut max_all = 0f64;
    let mut max_interior = 0f64;
    for i in 0..n {
        let err = (back[i] as f64 / SCALE - sine[i]).abs();
        if err > max_all {
            max_all = err;
        }
        if i >= 512 && i < n - 512 && err > max_interior {
            max_interior = err;
        }
    }
    // transient bleed at the stream edges stays under the loose bound
    assert!(max_all < 0.02, "edge error {}", max_all);
    // interior samples, far from Nyquist, stay under the tight bounds
    assert!(max_interior < 0.002, "interior error {}", max_interior);
    assert!(max_interior < 1e-6, "interior error {}", max_interior);
}
