use rs_deesser::band::level_of;
use rs_deesser::deesser::{trapezoid, Action, DeEsser};
use rs_deesser::event::{Repair, BAND_COUNT};
use std::f64::consts::PI;

const SAMPLE_RATE: f64 = 44_100.0;
const THRESHOLD_DB: f64 = -20.0;

// ---------------------------------------------------------------------------
// The filter bank
// ---------------------------------------------------------------------------

struct BandDesign {
    taps: Vec<f32>,
    eq_center_hz: f64,
    eq_bandwidth_octaves: f64,
}

fn window(u: f64) -> f64 {
    0.26526 - 0.5 * (2.0 * PI * u).cos() + 0.23474 * (4.0 * PI * u).cos()
}

/// A windowed cosine with unity gain at its centre.
fn band_pass_taps(band_lo: f64, band_hi: f64) -> Vec<f32> {
    let center_hz = 0.5 * (band_lo + band_hi);
    let periods = (center_hz / ((band_hi - band_lo) / 3.1502)).floor().max(1.0) as u32;
    let length_exact = SAMPLE_RATE * periods as f64 / center_hz;
    let mut taps = vec![0.0f64; length_exact.floor() as usize];
    let mut gain = 0.0f64;
    for (n, tap) in taps.iter_mut().enumerate() {
        let phase = 2.0 * PI * center_hz * n as f64 / SAMPLE_RATE;
        *tap = window(n as f64 / length_exact) * phase.cos();
        gain += *tap * phase.cos();
    }
    let sign = if periods % 2 == 1 { -1.0 } else { 1.0 };
    taps.iter().map(|tap| (tap * sign / gain) as f32).collect()
}

fn design_bands() -> Vec<BandDesign> {
    let ratio = (8000.0f64 / 2500.0).powf(1.0 / BAND_COUNT as f64);
    (0..BAND_COUNT)
        .map(|i| {
            let low_hz = 2500.0 * ratio.powi(i as i32);
            let high_hz = 2500.0 * ratio.powi(i as i32 + 1);
            BandDesign {
                taps: band_pass_taps(low_hz, high_hz),
                eq_center_hz: (low_hz * high_hz).sqrt(),
                eq_bandwidth_octaves: (high_hz / low_hz).log2(),
            }
        })
        .collect()
}

#[derive(Clone, Copy)]
struct Coefficients {
    b0: f64,
    b1: f64,
    b2: f64,
    a1: f64,
    a2: f64,
}

fn peaking(center_hz: f64, bandwidth_octaves: f64, gain_db: f64) -> Coefficients {
    let w0 = 2.0 * PI * center_hz / SAMPLE_RATE;
    let alpha = w0.sin() * (0.5 * 2f64.ln() * bandwidth_octaves * w0 / w0.sin()).sinh();
    let a = 10f64.powf(gain_db / 40.0);
    let a0 = 1.0 + alpha / a;
    Coefficients {
        b0: (1.0 + alpha * a) / a0,
        b1: -2.0 * w0.cos() / a0,
        b2: (1.0 - alpha * a) / a0,
        a1: -2.0 * w0.cos() / a0,
        a2: (1.0 - alpha / a) / a0,
    }
}

fn equation(c: Coefficients, x: f32, x1: f64, x2: f64, y1: f64, y2: f64) -> (f64, f64, f32) {
    let x0 = x as f64;
    let y0 = c.b0 * x0 + c.b1 * x1 + c.b2 * x2 - c.a1 * y1 - c.a2 * y2;
    (x0, y0, y0 as f32)
}

fn level(sample: f32) -> u32 {
    level_of(sample.to_bits())
}

/// Sends a signal through the de-esser.
fn deess(input: &[f32]) -> Vec<f32> {
    let bands = design_bands();
    let threshold = 10f64.powf(THRESHOLD_DB / 20.0) as f32;
    let kernels: Vec<Vec<f32>> = bands.iter().map(|band| band.taps.clone()).collect();
    let multiply_add = |a: f32, b: f32, c: f32| a + b * c;
    let design = |band: usize, peak: u32| {
        let gain_db = -20.0 * ((f32::from_bits(peak) / threshold) as f64).log10();
        peaking(bands[band].eq_center_hz, bands[band].eq_bandwidth_octaves, gain_db)
    };
    let weigh = |a: f32, b: f32, n: usize, d: usize| (a - b) * (n as f32 / d as f32);
    let plus = |a: f32, b: f32| a + b;

    let mut deesser = DeEsser::new(kernels, level(threshold), 0.0f32);
    let mut source = input.iter().copied();
    let mut output = Vec::new();
    loop {
        match deesser.next() {
            Action::Emit(sample) => output.push(sample),
            Action::Repair => deesser.repair(&design, 0.0f64, &equation, &weigh, &plus),
            Action::Input => match source.next() {
                Some(sample) => deesser.push_input(sample, &multiply_add, &level),
                None => deesser.finish_stream(&multiply_add, &level),
            },
            Action::Finished => return output,
        }
    }
}

// ---------------------------------------------------------------------------
// Signals
// ---------------------------------------------------------------------------

fn sine(freq: f64, amplitude: f64, length: usize) -> Vec<f32> {
    (0..length)
        .map(|n| (amplitude * (2.0 * PI * freq * n as f64 / SAMPLE_RATE).sin()) as f32)
        .collect()
}

fn peak(samples: &[f32]) -> f32 {
    samples.iter().fold(0.0f32, |acc, s| acc.max(s.abs()))
}

/// Applies a raised cosine fade to both ends of a buffer.
///
/// A tone that starts abruptly is a click: its energy is spread over all
/// bands, so neighbouring detectors fire as well and add their own cuts.
/// That is correct behaviour, but it gets in the way when the point of the
/// test is the steady state, hence the smooth edges.
fn fade_edges(samples: &mut [f32], ramp: usize) {
    let length = samples.len();
    for index in 0..ramp.min(length / 2) {
        let gain = 0.5 - 0.5 * (PI * index as f64 / ramp as f64).cos();
        samples[index] *= gain as f32;
        samples[length - 1 - index] *= gain as f32;
    }
}

#[test]
fn quiet_signal_passes_through_unchanged() {
    // Well below the -20 dB threshold: nothing should be detected, so the
    // output must be bit identical to the input.
    let input = sine(4000.0, 0.02, 44_100);
    let output = deess(&input);
    assert_eq!(input, output);
}

#[test]
fn signal_outside_the_detection_range_passes_through_unchanged() {
    // 400 Hz at full scale: loud, but nowhere near the analysed band.
    let input = sine(400.0, 0.9, 44_100);
    let output = deess(&input);
    assert_eq!(input, output);
}

#[test]
fn length_is_preserved() {
    // Whatever happens inside, the filter must return exactly as many
    // samples as it was given - including for inputs shorter than one
    // detector step or one filter kernel.
    for length in [0usize, 1, 100, 441, 1000, 44_100, 100_000] {
        let count = deess(&sine(4000.0, 0.5, length)).len();
        assert_eq!(count, length, "input of {length} samples");
    }
}

/// Detection centre of band 5 (3981.07 .. 4472.14 Hz).  A tone here is
/// measured by exactly one band, at that band's unity gain point.
const BAND5_CENTER_HZ: f64 = 4226.60;

#[test]
fn loud_tone_at_a_band_centre_is_pushed_down_to_the_threshold() {
    // Half a second of tone: short enough to stay one single run, so the
    // whole thing is corrected by one event.  0.5 is about -6 dBFS, i.e.
    // 14 dB above the -20 dB threshold, and the correction should land the
    // steady state exactly on the threshold.
    let mut input = vec![0.0f32; 44_100];
    let mut tone = sine(BAND5_CENTER_HZ, 0.5, 22_050);
    fade_edges(&mut tone, 2205);
    input[11_000..11_000 + tone.len()].copy_from_slice(&tone);

    let output = deess(&input);
    assert_eq!(output.len(), input.len());

    // Skip the fades at both ends of the correction.
    let measured_db = 20.0 * (peak(&output[13_000..31_000]) as f64).log10();
    assert!(
        (measured_db - THRESHOLD_DB).abs() < 0.5,
        "expected about {THRESHOLD_DB} dB, measured {measured_db} dB"
    );
}

#[test]
fn sustained_tone_stays_close_to_the_threshold() {
    // A tone that never stops is split into several events, because a run
    // is cut after MAX_RUN_STEPS.  Neighbouring events overlap by two
    // crossfades and the later one is computed on top of the correction of
    // the earlier one, so the attenuation dips slightly at every seam.
    let input = sine(BAND5_CENTER_HZ, 0.5, 3 * 44_100);
    let output = deess(&input);

    let measured_db = 20.0 * (peak(&output[44_100..2 * 44_100]) as f64).log10();
    assert!(
        (measured_db - THRESHOLD_DB).abs() < 2.0,
        "expected roughly {THRESHOLD_DB} dB, measured {measured_db} dB"
    );
}

#[test]
fn loud_tone_between_two_band_centres_is_only_partly_reduced() {
    // This documents a property of the algorithm rather than a bug: the
    // cut is exact only at the centre of a band.  A tone sitting between
    // two centres is measured through the skirts of two detectors (so the
    // measured excess is smaller than the real one) and repaired by the
    // skirts of two bells, so it ends up above the threshold.
    let input = sine(4000.0, 0.5, 3 * 44_100);
    let output = deess(&input);

    let measured_db = 20.0 * (peak(&output[44_100..2 * 44_100]) as f64).log10();
    assert!(
        measured_db < -14.0,
        "expected a clear reduction, measured {measured_db} dB"
    );
    assert!(
        measured_db > THRESHOLD_DB,
        "cannot go below the threshold, measured {measured_db} dB"
    );
}

#[test]
fn a_short_burst_is_attenuated_and_its_surroundings_are_not() {
    // 100 ms of a loud tone in the middle of an otherwise silent file.
    let mut input = vec![0.0f32; 44_100];
    let burst = sine(BAND5_CENTER_HZ, 0.6, 4410);
    input[20_000..20_000 + burst.len()].copy_from_slice(&burst);

    let output = deess(&input);
    assert_eq!(output.len(), input.len());

    // The body of the burst is pushed down to the threshold.  The first
    // and last few hundred samples are skipped: that is where the
    // correction fades in and out.
    let body = 21_000..23_400;
    let before = peak(&input[body.clone()]);
    let after = peak(&output[body]);
    assert!(
        after < before * 0.25,
        "burst was not attenuated: {before} -> {after}"
    );

    // ... and the silence around it is untouched.
    assert_eq!(&output[..19_000], &input[..19_000]);
    assert_eq!(&output[26_000..], &input[26_000..]);
}

// ---------------------------------------------------------------------------
// Exact values
// ---------------------------------------------------------------------------

const STEP: usize = 441;
const QUIET: u32 = 10;

/// A sample that carries the level it has in each band.
#[derive(Clone, Copy)]
struct Sample {
    value: i64,
    levels: [u32; BAND_COUNT],
    /// In a coefficient: the band that it lets through.
    passes: Option<usize>,
}

const SILENCE: Sample = Sample { value: 0, levels: [0; BAND_COUNT], passes: None };

/// The coefficients of a filter that delays the levels of one band.
fn delay(band: usize, latency: usize) -> Vec<Sample> {
    let mut taps = vec![SILENCE; (2 * latency).max(1)];
    taps[latency].passes = Some(band);
    taps
}

fn pick(sum: Sample, tap: Sample, sample: Sample) -> Sample {
    match tap.passes {
        Some(band) => Sample { value: sample.levels[band] as i64, ..sum },
        None => sum,
    }
}

fn picked(sample: Sample) -> u32 {
    sample.value as u32
}

/// Sends `length` samples with the value `value` through a de-esser whose bands
/// lag behind by `latencies`.  `level(band, step)` is the level of a step;
/// `design` and `equation` are the repair filters.
fn run(
    latencies: [usize; BAND_COUNT],
    value: i64,
    length: usize,
    level: impl Fn(usize, usize) -> u32,
    design: impl Fn(usize, u32) -> i64,
    equation: impl Fn(i64, Sample, i64, i64, i64, i64) -> (i64, i64, Sample),
) -> (Vec<i64>, Vec<Repair>) {
    let weigh = |a: Sample, b: Sample, n: usize, d: usize| Sample {
        value: (a.value - b.value) * n as i64 / d as i64,
        ..b
    };
    let plus = |a: Sample, b: Sample| Sample { value: a.value + b.value, ..a };
    let kernels = (0..BAND_COUNT).map(|band| delay(band, latencies[band])).collect();

    let mut deesser = DeEsser::new(kernels, QUIET, SILENCE);
    let mut output = Vec::new();
    let mut repairs = Vec::new();
    let mut taken = 0;
    loop {
        match deesser.next() {
            Action::Emit(sample) => output.push(sample.value),
            Action::Repair => {
                repairs.push(deesser.next_repair().unwrap());
                deesser.repair(&design, 0i64, &equation, &weigh, &plus);
            }
            Action::Input if taken < length => {
                let mut sample = Sample { value, ..SILENCE };
                for band in 0..BAND_COUNT {
                    sample.levels[band] = level(band, taken / STEP);
                }
                deesser.push_input(sample, &pick, &picked);
                taken += 1;
            }
            Action::Input => deesser.finish_stream(&pick, &picked),
            Action::Finished => {
                assert!(deesser.next_repair().is_none());
                return (output, repairs);
            }
        }
    }
}

/// Sends a constant signal of 220 through a de-esser whose repair filters turn
/// everything into silence.
fn silence(
    latencies: [usize; BAND_COUNT],
    length: usize,
    level: impl Fn(usize, usize) -> u32,
) -> (Vec<i64>, Vec<Repair>) {
    let mute = |_c: i64, x: Sample, _x1: i64, _x2: i64, _y1: i64, _y2: i64| {
        (0, 0, Sample { value: 0, ..x })
    };
    run(latencies, 220, length, level, |_band, _level| 0, mute)
}

fn levels_of(pairs: &[(usize, u32)]) -> [u32; BAND_COUNT] {
    let mut levels = [0; BAND_COUNT];
    for &(band, level) in pairs {
        levels[band] = level;
    }
    levels
}

fn ranges(repairs: &[Repair]) -> Vec<(u64, u64)> {
    repairs.iter().map(|repair| (repair.start, repair.end)).collect()
}

#[test]
fn a_loud_step_is_repaired_and_faded() {
    let loud = |band, step| if band == 3 && step == 2 { 50 } else { QUIET };
    for latency in [0, 1, 100, 1000] {
        let (output, repairs) = silence([latency; BAND_COUNT], 10 * STEP, loud);
        assert_eq!(ranges(&repairs), vec![(662, 1543)]);
        assert_eq!(repairs[0].levels, levels_of(&[(3, 50)]));
        assert_eq!(output.len(), 10 * STEP);
        for (index, &sample) in output.iter().enumerate() {
            let expected = match index {
                0..=661 => 220,
                662..=881 => 220 - (index as i64 - 662),
                882..=1323 => 0,
                1324..=1542 => 220 - (1543 - index as i64),
                _ => 220,
            };
            assert_eq!(sample, expected, "sample {index}");
        }
    }
}

#[test]
fn clicks_that_start_together_are_repaired_together() {
    let loud = |band, step| match (band, step) {
        (2, 4) => 30,
        (2, 5) => 40,
        (8, 4) => 20,
        _ => 0,
    };
    let (_output, repairs) = silence([0; BAND_COUNT], 20 * STEP, loud);
    assert_eq!(ranges(&repairs), vec![(4 * 441 - 220, 6 * 441 + 220)]);
    assert_eq!(repairs[0].levels, levels_of(&[(2, 40), (8, 20)]));
}

#[test]
fn a_long_stretch_is_repaired_in_pieces() {
    let loud = |band, step| if band == 0 && step < 150 { 11 } else { 0 };
    let (output, repairs) = silence([0; BAND_COUNT], 160 * STEP, loud);
    assert_eq!(
        ranges(&repairs),
        vec![(0, 100 * 441 + 220), (100 * 441 - 220, 150 * 441 + 220)]
    );
    assert_eq!(output.len(), 160 * STEP);
}

#[test]
fn a_chain_of_events_is_closed_at_its_limit() {
    // Ten seconds without a pause: groups of at most two seconds.
    let loud = |band, step: usize| if step % 10 == band { 11 } else { 0 };
    let (output, repairs) = silence([0; BAND_COUNT], 1000 * STEP, loud);
    assert_eq!(repairs.len(), 1000);
    assert_eq!(output.len(), 1000 * STEP);
    assert!(output[1000..440_000].iter().all(|&sample| sample < 220));
}

#[test]
fn an_event_that_ends_late_is_repaired_in_time() {
    // The long click of band 1 starts first and is recorded last: its
    // beginning must not be handed out before it is repaired.
    let loud = |band, step| match (band, step) {
        (1, 5..=20) => 60,
        (4, 8) => 70,
        _ => 0,
    };
    let (output, repairs) = silence([0; BAND_COUNT], 40 * STEP, loud);
    assert_eq!(
        ranges(&repairs),
        vec![(5 * 441 - 220, 21 * 441 + 220), (8 * 441 - 220, 9 * 441 + 220)]
    );
    assert!(output[5 * 441..21 * 441].iter().all(|&sample| sample == 0));
    assert_eq!(output[5 * 441 - 220], 220);
    assert_eq!(output[5 * 441 - 219], 219);
}

#[test]
fn bands_may_lag_behind_each_other() {
    let loud = |_band, step| if step == 3 || step == 30 { 50 } else { 0 };
    let latencies = [224, 200, 180, 160, 140, 126, 112, 100, 88, 78];
    let (output, repairs) = silence(latencies, 40 * STEP, loud);
    assert_eq!(
        ranges(&repairs),
        vec![(3 * 441 - 220, 4 * 441 + 220), (30 * 441 - 220, 31 * 441 + 220)]
    );
    assert_eq!(repairs[0].levels, [50; BAND_COUNT]);
    assert_eq!(output.len(), 40 * STEP);
}

#[test]
fn the_last_event_ends_with_the_input() {
    // The tail is analysed as if silence followed, and the correction stops
    // where the samples stop.
    let loud = |band, step| if band == 9 && step == 2 { 50 } else { 0 };
    let (output, repairs) = silence([300; BAND_COUNT], 3 * STEP + 10, loud);
    assert_eq!(ranges(&repairs), vec![(662, 1333)]);
    assert_eq!(output.len(), 3 * STEP + 10);
}

#[test]
fn a_step_that_is_not_complete_is_analysed() {
    // Silence completes the last step.
    let loud = |band, step| if band == 9 && step == 2 { 50 } else { 0 };
    for latency in [0, 300] {
        for length in [2 * STEP + 1, 2 * STEP + 200, 3 * STEP - 1, 3 * STEP] {
            let (output, repairs) = silence([latency; BAND_COUNT], length, loud);
            assert_eq!(ranges(&repairs), vec![(662, length as u64)]);
            assert_eq!(output.len(), length);
            assert!(output[..662].iter().all(|&sample| sample == 220));
            assert!(output[882..].iter().all(|&sample| sample < 220));
        }
    }
    // So is an input that is shorter than one step.
    let (output, repairs) = silence([100; BAND_COUNT], 1, |_band, _step| 11);
    assert_eq!(ranges(&repairs), vec![(0, 1)]);
    assert_eq!(repairs[0].levels, [11; BAND_COUNT]);
    assert_eq!(output, vec![0]);
}

#[test]
fn levels_at_the_threshold_are_quiet() {
    let (output, repairs) = silence([50; BAND_COUNT], 20 * STEP, |_band, _step| QUIET);
    assert!(repairs.is_empty());
    assert_eq!(output, vec![220; 20 * STEP]);
}

#[test]
fn nothing_in_nothing_out() {
    let (output, repairs) = silence([0; BAND_COUNT], 0, |_band, _step| 99);
    assert!(output.is_empty());
    assert!(repairs.is_empty());
}

#[test]
fn a_long_latency_fits_into_the_ring() {
    let loud = |band, step: usize| if band == 0 && step % 150 < 140 { 11 } else { 0 };
    let mut latencies = [0; BAND_COUNT];
    latencies[9] = 1500;
    let (output, _repairs) = silence(latencies, 300 * STEP, loud);
    assert_eq!(output.len(), 300 * STEP);
}

#[test]
fn the_cascade_goes_from_the_lowest_band_upwards() {
    // Each filter appends its band and the last digit of its level.
    let design = |band: usize, level: u32| 10 * band as i64 + level as i64 % 10;
    let append = |c: i64, x: Sample, _x1: i64, _x2: i64, _y1: i64, _y2: i64| {
        let y = 100 * x.value + c;
        (x.value, y, Sample { value: y, ..x })
    };
    let loud = |band, step| match (band, step) {
        (7, 1) => 21,
        (2, 1) => 22,
        (5, 1) => 23,
        _ => 0,
    };
    let (output, repairs) = run([0; BAND_COUNT], 8, 3 * STEP, loud, design, append);
    assert_eq!(repairs.len(), 1);
    assert_eq!(output[STEP + 100], 8_22_53_71);
    assert_eq!(output[0], 8);
}

#[test]
fn the_band_pass_filters_are_run_over_the_input() {
    // Running sums of the last three samples: every sample is heard where it
    // is, and zeros after the last one.
    let multiply_add = |a: i64, b: i64, c: i64| a + b * c;
    let heard = std::cell::RefCell::new(Vec::new());
    let measure = |sum: i64| {
        heard.borrow_mut().push(sum);
        0
    };
    let mut deesser = DeEsser::new(vec![vec![1i64, 10, 100]; BAND_COUNT], QUIET, 0);
    for sample in 1..=4i64 {
        deesser.push_input(sample, &multiply_add, &measure);
    }
    deesser.finish_stream(&multiply_add, &measure);
    let heard = heard.into_inner();
    // Ten bands for each of the four samples, one after the other.
    for (n, sum) in [1i64, 12, 123, 234].iter().enumerate() {
        assert_eq!(heard[10 * n..10 * n + 10], [*sum; 10]);
    }
    // Then the tail of each band: one for the latency, and the rest of the step.
    let tail = &heard[40..];
    assert_eq!(tail.len(), 10 * (1 + 437));
    for band in tail.chunks(438) {
        assert_eq!(band[..4], [340, 400, 0, 0]);
        assert!(band[4..].iter().all(|&sum| sum == 0));
    }
}

#[test]
fn the_fade_is_a_trapezoid() {
    assert_eq!(trapezoid(0, 1000, 220), (0, 220));
    assert_eq!(trapezoid(1, 1000, 220), (1, 220));
    assert_eq!(trapezoid(220, 1000, 220), (220, 220));
    assert_eq!(trapezoid(221, 1000, 220), (1, 1));
    assert_eq!(trapezoid(779, 1000, 220), (1, 1));
    assert_eq!(trapezoid(780, 1000, 220), (220, 220));
    assert_eq!(trapezoid(999, 1000, 220), (1, 220));
    // Without a ramp, or without room for two, it is a rectangle.
    assert_eq!(trapezoid(3, 10, 0), (1, 1));
    assert_eq!(trapezoid(3, 440, 220), (1, 1));
    assert_eq!(trapezoid(3, 441, 220), (3, 220));
}
