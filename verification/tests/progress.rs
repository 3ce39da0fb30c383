use rs_deesser::progress::{
    format_duration, format_line, write_backspaces, write_repeated, Notice, ProgressReport,
    BACKSPACE, CLOCK_CHECK_INTERVAL, UPDATE_INTERVAL,
};

/// Sends a stream through a report, the way the pipeline does.
fn pass(report: &mut ProgressReport, input: &[f32]) -> Vec<f32> {
    let mut output = Vec::new();
    let mut source = input.iter().copied();
    loop {
        let (passed, _notice) = report.next(source.next());
        match passed {
            Some(sample) => output.push(sample),
            None => return output,
        }
    }
}

#[test]
fn samples_pass_through_untouched() {
    let input: Vec<f32> = (0..1000).map(|i| i as f32 / 1000.0).collect();
    // `quiet` keeps the test output clean; the sample path is the same.
    let mut report = ProgressReport::new(1000, true, false);
    let output = pass(&mut report, &input);
    assert_eq!(input, output);
}

#[test]
fn durations_are_formatted_for_humans() {
    assert_eq!(format_duration(0), "0s");
    assert_eq!(format_duration(45), "45s");
    assert_eq!(format_duration(60), "1m 00s");
    assert_eq!(format_duration(130), "2m 10s");
    assert_eq!(format_duration(3600), "1h 00m");
    assert_eq!(format_duration(3900), "1h 05m");
}

#[test]
fn an_empty_stream_is_handled() {
    let empty: Vec<f32> = Vec::new();
    let mut report = ProgressReport::new(0, false, true);
    let output = pass(&mut report, &empty);
    assert!(output.is_empty());
}

#[test]
fn long_durations_are_formatted_in_hours() {
    assert_eq!(format_duration(59), "59s");
    assert_eq!(format_duration(3599), "59m 59s");
    assert_eq!(format_duration(86_399), "23h 59m");
    assert_eq!(format_duration(u64::MAX), "5124095576030431h 00m");
}

#[test]
fn the_line_is_aligned() {
    assert_eq!(format_line(0, None), "Progress:   0%");
    assert_eq!(format_line(42, Some(130)), "Progress:  42% ETA: 2m 10s");
    assert_eq!(format_line(100, Some(0)), "Progress: 100% ETA: 0s");
}

#[test]
fn repeated_bytes_are_appended() {
    let mut out = vec![1u8];
    write_repeated(&mut out, b'x', 130);
    assert_eq!(out.len(), 131);
    assert_eq!(out[0], 1);
    assert!(out[1..].iter().all(|&byte| byte == b'x'));
    let mut back = Vec::new();
    write_backspaces(&mut back, 3);
    assert_eq!(back, vec![0x08, 0x08, 0x08]);
}

/// What a terminal line shows after some bytes.
fn show(cells: &mut Vec<u8>, column: &mut usize, bytes: &[u8]) {
    for &byte in bytes {
        if byte == BACKSPACE {
            *column -= 1;
        } else {
            if *column == cells.len() {
                cells.push(byte);
            } else {
                cells[*column] = byte;
            }
            *column += 1;
        }
    }
}

#[test]
fn a_redraw_replaces_the_line() {
    let mut report = ProgressReport::new(10, false, true);
    let (mut cells, mut column) = (Vec::new(), 0);
    show(&mut cells, &mut column, &report.draw("a longer line"));
    assert_eq!(cells, b"a longer line".to_vec());
    assert_eq!(column, 13);
    // A shorter line leaves blanks behind, and the cursor right after itself.
    show(&mut cells, &mut column, &report.draw("short"));
    assert_eq!(cells, b"short        ".to_vec());
    assert_eq!(column, 5);
    show(&mut cells, &mut column, &report.draw("longer again"));
    assert_eq!(cells, b"longer again ".to_vec());
    assert_eq!(column, 12);
    show(&mut cells, &mut column, &report.clear());
    assert_eq!(cells, b"             ".to_vec());
    assert_eq!(column, 0);
    // There is nothing left to clear.
    assert!(report.clear().is_empty());
}

#[test]
fn the_exact_bytes_of_a_redraw() {
    let mut report = ProgressReport::new(10, false, true);
    assert_eq!(report.draw("abc"), b"abc".to_vec());
    assert_eq!(report.draw("x"), b"\x08\x08\x08x  \x08\x08".to_vec());
    assert_eq!(report.clear(), b"\x08 \x08".to_vec());
}

#[test]
fn the_clock_is_read_at_intervals() {
    let total = 2 * CLOCK_CHECK_INTERVAL;
    let mut report = ProgressReport::new(total, false, true);
    let mut checks = Vec::new();
    for position in 1..=total {
        let (passed, notice) = report.next(Some(position));
        assert_eq!(passed, Some(position));
        if matches!(notice, Notice::CheckClock) {
            checks.push(position);
        } else {
            assert!(matches!(notice, Notice::Nothing));
        }
    }
    assert_eq!(checks, vec![4096, 8192]);
    let (passed, notice) = report.next(None::<u64>);
    assert_eq!(passed, None);
    assert!(matches!(notice, Notice::Write(bytes) if bytes.is_empty()));
}

#[test]
fn nothing_is_reported_unless_someone_can_see_it() {
    for (total, quiet, terminal) in [(8192u64, true, true), (8192, false, false), (0, false, true)]
    {
        let mut report = ProgressReport::new(total, quiet, terminal);
        for position in 0..8192u32 {
            let (_passed, notice) = report.next(Some(position));
            assert!(matches!(notice, Notice::Nothing));
        }
        let (_passed, notice) = report.next(None::<u32>);
        assert!(matches!(notice, Notice::Nothing));
    }
}

#[test]
fn the_line_is_redrawn_when_enough_time_has_passed() {
    // The rest takes as long per sample as the part already done.
    let eta = |now: u64, remaining: u64, done: u64| now / 1_000_000_000 * remaining / done;
    let mut report = ProgressReport::new(16_384, false, true);
    for position in 0..4096u32 {
        let _ = report.next(Some(position));
    }
    assert_eq!(report.maybe_redraw(UPDATE_INTERVAL - 1, &eta), None);
    let drawn = report.maybe_redraw(10_000_000_000, &eta).unwrap();
    assert_eq!(drawn, b"Progress:  25% ETA: 30s".to_vec());
    assert_eq!(report.maybe_redraw(10_000_000_000 + UPDATE_INTERVAL - 1, &eta), None);
    let drawn = report.maybe_redraw(60_000_000_000, &eta).unwrap();
    let mut expected = vec![BACKSPACE; 23];
    expected.extend_from_slice(b"Progress:  25% ETA: 3m 00s");
    assert_eq!(drawn, expected);
    let (_passed, notice) = report.next(None::<u32>);
    assert!(matches!(notice, Notice::Write(bytes) if bytes.len() == 3 * 26));
}

#[test]
fn the_remaining_time_is_unknown_at_first() {
    let eta = |_now: u64, _remaining: u64, _done: u64| 7;
    let mut report = ProgressReport::new(100, false, true);
    let drawn = report.maybe_redraw(UPDATE_INTERVAL, &eta).unwrap();
    assert_eq!(drawn, b"Progress:   0%".to_vec());
}

#[test]
fn a_stream_may_be_longer_than_announced() {
    let eta = |_now: u64, remaining: u64, _done: u64| remaining;
    let mut report = ProgressReport::new(4000, false, true);
    for position in 0..4096u32 {
        let _ = report.next(Some(position));
    }
    let drawn = report.maybe_redraw(UPDATE_INTERVAL, &eta).unwrap();
    assert_eq!(drawn, b"Progress: 100% ETA: 0s".to_vec());
}

#[test]
fn huge_streams_are_measured_exactly() {
    let eta = |_now: u64, _remaining: u64, done: u64| done;
    let mut report = ProgressReport::new(u64::MAX, false, true);
    let _ = report.next(Some(0u8));
    let drawn = report.maybe_redraw(UPDATE_INTERVAL, &eta).unwrap();
    assert_eq!(drawn, b"Progress:   0% ETA: 1s".to_vec());
}
