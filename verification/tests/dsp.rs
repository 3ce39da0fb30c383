use rs_deesser::dsp::{Biquad, Fir};
use std::f64::consts::PI;

const FS: f64 = 44_100.0;

// ---------------------------------------------------------------------------
// Filters to measure
// ---------------------------------------------------------------------------

fn window(u: f64) -> f64 {
    0.26526 - 0.5 * (2.0 * PI * u).cos() + 0.23474 * (4.0 * PI * u).cos()
}

/// A windowed cosine with unity gain at its centre, and that centre in Hz.
fn band_pass_taps(band_lo: f64, band_hi: f64) -> (Vec<f32>, f64) {
    let center_hz = 0.5 * (band_lo + band_hi);
    let periods = (center_hz / ((band_hi - band_lo) / 3.1502)).floor().max(1.0) as u32;
    let length_exact = FS * periods as f64 / center_hz;
    let mut taps = vec![0.0f64; length_exact.floor() as usize];
    let mut gain = 0.0f64;
    for (n, tap) in taps.iter_mut().enumerate() {
        let phase = 2.0 * PI * center_hz * n as f64 / FS;
        *tap = window(n as f64 / length_exact) * phase.cos();
        gain += *tap * phase.cos();
    }
    let sign = if periods % 2 == 1 { -1.0 } else { 1.0 };
    (taps.iter().map(|tap| (tap * sign / gain) as f32).collect(), center_hz)
}

#[derive(Clone, Copy)]
struct Coefficients {
    b0: f64,
    b1: f64,
    b2: f64,
    a1: f64,
    a2: f64,
}

fn peaking(center_hz: f64, bandwidth_octaves: f64, gain_db: f64) -> Coefficients {
    let w0 = 2.0 * PI * center_hz / FS;
    let alpha = w0.sin() * (0.5 * 2f64.ln() * bandwidth_octaves * w0 / w0.sin()).sinh();
    let a = 10f64.powf(gain_db / 40.0);
    let a0 = 1.0 + alpha / a;
    Coefficients {
        b0: (1.0 + alpha * a) / a0,
        b1: -2.0 * w0.cos() / a0,
        b2: (1.0 - alpha * a) / a0,
        a1: -2.0 * w0.cos() / a0,
        a2: (1.0 - alpha / a) / a0,
    }
}

fn equation(c: Coefficients, x: f32, x1: f64, x2: f64, y1: f64, y2: f64) -> (f64, f64, f32) {
    let x0 = x as f64;
    let y0 = c.b0 * x0 + c.b1 * x1 + c.b2 * x2 - c.a1 * y1 - c.a2 * y2;
    (x0, y0, y0 as f32)
}

/// Feeds a sinusoid through a filter and returns the peak amplitude of the
/// steady state part of the output.
fn measure_amplitude(mut filter: impl FnMut(f32) -> f32, freq: f64, samples: usize) -> f64 {
    let mut peak = 0.0f64;
    for n in 0..samples {
        let x = (2.0 * PI * freq * n as f64 / FS).sin() as f32;
        let y = filter(x);
        // Ignore the start-up transient (first half of the run).
        if n >= samples / 2 {
            peak = peak.max(y.abs() as f64);
        }
    }
    peak
}

// ---------------------------------------------------------------------------
// Measurements
// ---------------------------------------------------------------------------

#[test]
fn band_pass_has_unity_gain_at_center() {
    let (taps, center_hz) = band_pass_taps(2500.0, 2808.37);
    let multiply_add = |a: f32, b: f32, c: f32| a + b * c;
    let mut fir = Fir::new(taps, 0.0);
    let amplitude = measure_amplitude(|x| fir.process(x, 0.0, &multiply_add), center_hz, 8192);
    assert!(
        (amplitude - 1.0).abs() < 0.01,
        "expected unity gain, measured {amplitude}"
    );
}

#[test]
fn band_pass_rejects_far_away_frequencies() {
    let (taps, _center_hz) = band_pass_taps(2500.0, 2808.37);
    let multiply_add = |a: f32, b: f32, c: f32| a + b * c;
    let mut fir = Fir::new(taps, 0.0);
    // One octave below the band: should be far down the stop band.
    let amplitude = measure_amplitude(|x| fir.process(x, 0.0, &multiply_add), 1300.0, 8192);
    assert!(amplitude < 0.02, "expected strong rejection, measured {amplitude}");
}

#[test]
fn peaking_eq_reaches_the_requested_gain() {
    let mut biquad = Biquad::new(peaking(2649.70, 0.16781, -6.0), 0.0);
    let amplitude = measure_amplitude(|x| biquad.process(x, &equation), 2649.70, 8192);
    let measured_db = 20.0 * amplitude.log10();
    assert!(
        (measured_db + 6.0).abs() < 0.1,
        "expected -6 dB at the centre, measured {measured_db} dB"
    );
}

#[test]
fn peaking_eq_leaves_distant_frequencies_alone() {
    let mut biquad = Biquad::new(peaking(2649.70, 0.16781, -12.0), 0.0);
    let amplitude = measure_amplitude(|x| biquad.process(x, &equation), 500.0, 8192);
    let measured_db = 20.0 * amplitude.log10();
    assert!(
        measured_db.abs() < 0.2,
        "expected no change at 500 Hz, measured {measured_db} dB"
    );
}

// ---------------------------------------------------------------------------
// Exact values
// ---------------------------------------------------------------------------

#[test]
fn an_impulse_reads_out_the_taps() {
    let multiply_add = |a: i64, b: i64, c: i64| a + b * c;
    let mut fir = Fir::new(vec![3i64, -1, 4], 0);
    let output: Vec<i64> = [1i64, 0, 0, 0, 0]
        .iter()
        .map(|&x| fir.process(x, 0, &multiply_add))
        .collect();
    assert_eq!(output, vec![3, -1, 4, 0, 0]);
}

#[test]
fn a_fir_is_a_sum_over_the_last_samples() {
    let multiply_add = |a: i64, b: i64, c: i64| a + b * c;
    let mut fir = Fir::new(vec![1i64, 10, 100], 0);
    let output: Vec<i64> = (1i64..=6).map(|x| fir.process(x, 0, &multiply_add)).collect();
    assert_eq!(output, vec![1, 12, 123, 234, 345, 456]);
}

#[test]
fn products_are_added_from_the_newest_sample_on() {
    // A sum that remembers the order of its parts.
    let multiply_add = |a: i64, b: i64, c: i64| 100 * a + b * c;
    let mut fir = Fir::new(vec![1i64, 1, 1], 0);
    let _ = fir.process(7, 0, &multiply_add);
    let _ = fir.process(8, 0, &multiply_add);
    assert_eq!(fir.process(9, 0, &multiply_add), 90_807);
}

#[test]
fn a_biquad_is_a_difference_equation() {
    let integers = |c: (i64, i64, i64, i64, i64), x: i64, x1: i64, x2: i64, y1: i64, y2: i64| {
        let y = c.0 * x + c.1 * x1 + c.2 * x2 - c.3 * y1 - c.4 * y2;
        (x, y, y)
    };
    let mut biquad = Biquad::new((1i64, 2, 3, -1, 1), 0i64);
    let output: Vec<i64> = [1i64, 0, 0, 0].iter().map(|&x| biquad.process(x, &integers)).collect();
    assert_eq!(output, vec![1, 3, 5, 2]);
    assert_eq!((biquad.x1, biquad.x2, biquad.y1, biquad.y2), (0, 0, 2, 5));
}

#[test]
fn an_excerpt_is_filtered_from_a_zeroed_state() {
    let integers = |c: i64, x: i64, x1: i64, _x2: i64, y1: i64, _y2: i64| {
        let y = x + c * x1 + y1;
        (x, y, y)
    };
    let mut biquad = Biquad::new(10i64, 0i64);
    let mut first = vec![1i64, 2, 3];
    biquad.process_in_place(0, &mut first, &integers);
    assert_eq!(first, vec![1, 13, 36]);
    // What was filtered before does not matter.
    let mut second = vec![1i64, 2, 3];
    biquad.process_in_place(0, &mut second, &integers);
    assert_eq!(second, first);
}
