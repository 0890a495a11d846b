//! How evenly reports arrive.
use flexinput_btle::cadence::{Cadence, CadenceSummary};

const MS: u64 = 1_000_000;
const HOUR: u64 = 3600 * 1000 * MS;

fn summarise(steps: &[u64]) -> CadenceSummary {
    let mut c = Cadence::new(0);
    let mut t = 0u64;
    c.tick(t, 0, HOUR);
    let mut out = None;
    for (i, ms) in steps.iter().enumerate() {
        t += *ms * MS;
        let window = if i + 1 == steps.len() { 0 } else { HOUR };
        if let Some(sum) = c.tick(t, 0, window) {
            out = Some(sum);
        }
    }
    out.expect("a summary once the window closes")
}

fn mean_ms(c: &CadenceSummary) -> f64 {
    c.sum as f64 / MS as f64 / c.samples as f64
}

fn jitter_ms(c: &CadenceSummary) -> f64 {
    c.sum_steps as f64 / MS as f64 / (c.samples as f64 - 1.0).max(1.0)
}

#[test]
fn a_steady_stream_has_no_jitter() {
    let c = summarise(&[10, 10, 10, 10]);
    assert_eq!(c.samples, 4);
    assert!((mean_ms(&c) - 10.0).abs() < 0.01, "mean {}", mean_ms(&c));
    assert!((1000.0 / mean_ms(&c) - 100.0).abs() < 0.1, "hz {}", 1000.0 / mean_ms(&c));
    assert!(jitter_ms(&c) < 0.01, "jitter {}", jitter_ms(&c));
}

#[test]
fn jitter_is_what_separates_two_streams_with_the_same_mean() {
    let steady = summarise(&[15, 15, 15, 15, 15, 15]);
    let ragged = summarise(&[5, 25, 5, 25, 5, 25]);
    assert!((mean_ms(&steady) - mean_ms(&ragged)).abs() < 0.01);
    assert!(jitter_ms(&steady) < 0.01, "steady jitter {}", jitter_ms(&steady));
    assert!(jitter_ms(&ragged) > 15.0, "ragged jitter {}", jitter_ms(&ragged));
}

#[test]
fn the_extremes_are_kept_not_averaged_away() {
    let c = summarise(&[10, 10, 40, 10]);
    let (min, max) = (c.min as f64 / MS as f64, c.max as f64 / MS as f64);
    assert!((min - 10.0).abs() < 0.01, "min {}", min);
    assert!((max - 40.0).abs() < 0.01, "max {}", max);
}

#[test]
fn a_window_that_has_not_elapsed_reports_nothing() {
    let mut c = Cadence::new(0);
    assert!(c.tick(0, 0, HOUR).is_none());
    assert!(c.tick(10 * MS, 10 * MS, HOUR).is_none());
}

#[test]
fn a_single_report_cannot_produce_an_interval() {
    let mut c = Cadence::new(0);
    assert!(c.tick(0, 0, 0).is_none());
}

#[test]
fn the_next_window_starts_from_the_last_report() {
    let mut c = Cadence::new(0);
    c.tick(0, 0, 0);
    assert!(c.tick(10, 10, 0).is_none());
    let s = c.tick(30, 30, 0).expect("two intervals");
    assert_eq!((s.samples, s.sum, s.min, s.max, s.sum_steps), (2, 30, 10, 20, 10));
    assert!(c.tick(35, 35, 0).is_none());
    let s = c.tick(40, 40, 0).expect("two more");
    assert_eq!((s.samples, s.sum), (2, 10));
}
