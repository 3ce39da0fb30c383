use rs_deesser::band::{level_of, Band, Run, MAX_RUN_STEPS, STEP};
use rs_deesser::event::{join_group, record_click, Event, BAND_COUNT};
use std::collections::VecDeque;

/// Feeds whole steps of constant levels to a band and collects the runs.
fn runs(latency: u64, steps: &[u32], threshold: u32) -> (Vec<Run>, Band) {
    let mut band = Band::new(latency);
    let mut found = Vec::new();
    for _ in 0..latency {
        let update = band.accept(1_000_000, threshold);
        assert!(!update.step_closed);
        assert_eq!(update.finished_run, None);
    }
    for &level in steps {
        for position in 0..STEP {
            let update = band.accept(level, threshold);
            assert_eq!(update.step_closed, position == STEP - 1);
            if let Some(run) = update.finished_run {
                found.push(run);
            }
        }
    }
    (found, band)
}

#[test]
fn runs_are_the_loud_steps() {
    let (found, band) = runs(0, &[5, 10, 11, 30, 20, 10, 0, 12, 3], 10);
    assert_eq!(
        found,
        vec![
            Run { start_step: 2, steps: 3, peak: 30 },
            Run { start_step: 7, steps: 1, peak: 12 },
        ]
    );
    assert_eq!(band.steps_done, 9);
    assert_eq!(band.run, None);
}

#[test]
fn the_first_levels_are_dropped() {
    let (found, band) = runs(100, &[0, 20, 0], 10);
    assert_eq!(found, vec![Run { start_step: 1, steps: 1, peak: 20 }]);
    assert_eq!(band.warmup, 0);
}

#[test]
fn a_run_stays_open_until_a_quiet_step() {
    let (found, band) = runs(0, &[0, 20, 25], 10);
    assert!(found.is_empty());
    assert_eq!(band.run, Some(Run { start_step: 1, steps: 2, peak: 25 }));
}

#[test]
fn a_long_stretch_is_split_without_a_gap() {
    let loud = vec![20u32; 2 * MAX_RUN_STEPS as usize + 3];
    let (found, band) = runs(0, &loud, 10);
    assert_eq!(
        found,
        vec![
            Run { start_step: 0, steps: 100, peak: 20 },
            Run { start_step: 100, steps: 100, peak: 20 },
        ]
    );
    assert_eq!(band.run, Some(Run { start_step: 200, steps: 3, peak: 20 }));
}

#[test]
fn one_loud_sample_makes_a_step_loud() {
    let mut band = Band::new(0);
    for position in 0..STEP {
        let level = if position == 17 { 99 } else { 1 };
        let _ = band.accept(level, 10);
    }
    assert_eq!(band.run, Some(Run { start_step: 0, steps: 1, peak: 99 }));
    assert_eq!(band.peak, 0);
    assert_eq!(band.filled, 0);
}

#[test]
fn steps_are_closed_one_by_one() {
    let mut band = Band::new(0);
    let mut found = Vec::new();
    for (index, &peak) in [20u32, 11, 10, 30].iter().enumerate() {
        if let Some(run) = band.close_step(index as u64, peak, 10) {
            found.push(run);
        }
        assert_eq!(band.run.is_none(), peak <= 10);
    }
    assert_eq!(found, vec![Run { start_step: 0, steps: 2, peak: 20 }]);
    assert_eq!(band.run, Some(Run { start_step: 3, steps: 1, peak: 30 }));
}

#[test]
fn levels_are_ordered_like_magnitudes() {
    let magnitudes = [0.0f32, f32::MIN_POSITIVE, 1e-20, 0.099, 0.1, 0.5, 1.0, 3e38, f32::INFINITY];
    for (i, a) in magnitudes.iter().enumerate() {
        assert_eq!(level_of(a.to_bits()), a.to_bits());
        assert_eq!(level_of((-a).to_bits()), a.to_bits());
        for b in &magnitudes[i + 1..] {
            assert!(level_of(a.to_bits()) < level_of(b.to_bits()));
        }
    }
    assert_eq!(level_of(f32::NAN.to_bits()), 0);
    assert_eq!(level_of((-f32::NAN).to_bits()), 0);
}

fn starts(events: &VecDeque<Event>) -> Vec<u64> {
    events.iter().map(|event| event.start_step).collect()
}

#[test]
fn clicks_that_start_together_form_one_event() {
    let mut events = VecDeque::new();
    record_click(&mut events, 2, Run { start_step: 5, steps: 3, peak: 40 });
    record_click(&mut events, 7, Run { start_step: 5, steps: 4, peak: 30 });
    record_click(&mut events, 2, Run { start_step: 5, steps: 1, peak: 35 });
    assert_eq!(starts(&events), vec![5]);
    assert_eq!(events[0].steps, 4);
    let mut levels = [0u32; BAND_COUNT];
    levels[2] = 40;
    levels[7] = 30;
    assert_eq!(events[0].levels, levels);
}

#[test]
fn events_are_kept_in_order() {
    let mut events = VecDeque::new();
    for start_step in [9u64, 3, 12, 3, 5, 12] {
        record_click(&mut events, 0, Run { start_step, steps: 1, peak: 20 });
    }
    assert_eq!(starts(&events), vec![3, 5, 9, 12]);
}

#[test]
fn a_group_is_kept_in_order() {
    let event = |start_step| Event { start_step, steps: 1, levels: [0; BAND_COUNT] };
    let mut group = Vec::new();
    for start_step in [7u64, 5, 9] {
        join_group(&mut group, event(start_step));
    }
    let order: Vec<u64> = group.iter().map(|event: &Event| event.start_step).collect();
    assert_eq!(order, vec![5, 7, 9]);
}

#[test]
fn an_event_reaches_a_crossfade_beyond_its_steps() {
    let event = |start_step, steps| Event { start_step, steps, levels: [0; BAND_COUNT] };
    assert_eq!(event(10, 2).span(), (4190, 5512));
    // There is nothing before the first sample.
    assert_eq!(event(0, 1).span(), (0, 661));
}
