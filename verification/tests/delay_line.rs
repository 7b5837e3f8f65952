use rust_dsp::delay_line::{wrap_once, DelayLine, SilenceCounter, SILENCE_COUNTER_THRESHOLD};

#[test]
fn new_line_reads_zero_at_every_delay() {
    let d: DelayLine<i32> = DelayLine::new(4, 0);
    assert_eq!(d.len(), 4);
    for k in 0..4 {
        assert_eq!(d.taps(k), Some((0, 0)));
    }
    assert_eq!(d.taps(4), None);
    assert!(!d.is_silent());
}

#[test]
fn push_makes_sample_newest() {
    let mut d: DelayLine<i32> = DelayLine::new(3, 0);
    d.push(7, false);
    assert_eq!(d.taps(0), Some((7, 0)));
    d.push(8, false);
    assert_eq!(d.taps(0), Some((8, 7)));
    assert_eq!(d.taps(1), Some((7, 0)));
    // the oldest slot interpolates towards the newest sample
    assert_eq!(d.taps(2), Some((0, 8)));
}

#[test]
fn read_after_pushes_gives_sample_pushed_k_ago() {
    let mut d: DelayLine<i32> = DelayLine::new(5, -1);
    for x in 1..=12 {
        d.push(x, false);
    }
    // after pushing 1..=12 into a line of 5, delay k holds 12 - k
    for k in 0..5 {
        assert_eq!(d.taps(k).unwrap().0, 12 - k as i32);
    }
}

#[test]
fn short_run_keeps_older_entries() {
    let mut d: DelayLine<i32> = DelayLine::new(4, 9);
    d.push(1, false);
    d.push(2, false);
    assert_eq!(d.taps(0).unwrap().0, 2);
    assert_eq!(d.taps(1).unwrap().0, 1);
    assert_eq!(d.taps(2).unwrap().0, 9);
    assert_eq!(d.taps(3).unwrap().0, 9);
}

#[test]
fn taps_out_of_range_is_none() {
    let d: DelayLine<i32> = DelayLine::new(2, 0);
    assert_eq!(d.taps(2), None);
    assert_eq!(d.taps(usize::MAX), None);
    let empty: DelayLine<i32> = DelayLine::new(0, 0);
    assert_eq!(empty.len(), 0);
    assert_eq!(empty.taps(0), None);
}

#[test]
fn wrap_once_reduces_below_twice_n() {
    assert_eq!(wrap_once(0, 5), 0);
    assert_eq!(wrap_once(4, 5), 4);
    assert_eq!(wrap_once(5, 5), 0);
    assert_eq!(wrap_once(9, 5), 4);
    assert_eq!(wrap_once(1, 1), 0);
}

#[test]
fn silence_counter_needs_full_run() {
    let mut c = SilenceCounter::new();
    for _ in 0..SILENCE_COUNTER_THRESHOLD - 1 {
        c.process(true);
    }
    assert!(!c.is_silent());
    assert_eq!(c.quiet_samples(), SILENCE_COUNTER_THRESHOLD - 1);
    c.process(true);
    assert!(c.is_silent());
    c.process(true);
    assert!(c.is_silent());
}

#[test]
fn loud_sample_resets_silence() {
    let mut c = SilenceCounter::default();
    for _ in 0..SILENCE_COUNTER_THRESHOLD + 10 {
        c.process(true);
    }
    assert!(c.is_silent());
    c.process(false);
    assert!(!c.is_silent());
    assert_eq!(c.quiet_samples(), 0);
    for _ in 0..SILENCE_COUNTER_THRESHOLD - 1 {
        c.process(true);
    }
    assert!(!c.is_silent());
    c.process(true);
    assert!(c.is_silent());
}

#[test]
fn delay_line_silence_follows_pushes() {
    let mut d: DelayLine<i32> = DelayLine::new(8, 0);
    for i in 0..SILENCE_COUNTER_THRESHOLD {
        assert!(!d.is_silent());
        d.push(i as i32, true);
    }
    assert!(d.is_silent());
    assert_eq!(d.quiet_samples(), SILENCE_COUNTER_THRESHOLD);
    d.push(1, false);
    assert!(!d.is_silent());
    assert_eq!(d.quiet_samples(), 0);
}

#[test]
fn silence_threshold_value() {
    assert_eq!(SILENCE_COUNTER_THRESHOLD, 44100);
}
