use rust_dsp::delay_line::DelayLine;
use rust_dsp::flanger::{delay_line_size, fit_delay_lines};
use rust_dsp::phase_shift::{PhaseShifter, PHASE_SHIFTER_DELAY_LEN};

#[test]
fn flanger_delay_line_sizes() {
    assert_eq!(delay_line_size(false), 200 * 48000 / 1000 + 42);
    assert_eq!(delay_line_size(false), 9642);
    assert_eq!(delay_line_size(true), 200 * 64 * 48000 / 1000 + 42);
    assert_eq!(delay_line_size(true), 614442);
}

#[test]
fn fit_delay_lines_replaces_wrong_size() {
    let mut l: DelayLine<i32> = DelayLine::new(3, 1);
    let mut r: DelayLine<i32> = DelayLine::new(3, 1);
    fit_delay_lines(&mut l, &mut r, false, 0);
    assert_eq!(l.len(), 9642);
    assert_eq!(r.len(), 9642);
    assert_eq!(l.taps(0), Some((0, 0)));
    assert_eq!(r.taps(9641), Some((0, 0)));
}

#[test]
fn fit_delay_lines_keeps_right_size() {
    let mut l: DelayLine<i32> = DelayLine::new(9642, 0);
    let mut r: DelayLine<i32> = DelayLine::new(9642, 0);
    l.push(5, false);
    r.push(6, false);
    fit_delay_lines(&mut l, &mut r, false, 0);
    assert_eq!(l.taps(0).unwrap().0, 5);
    assert_eq!(r.taps(0).unwrap().0, 6);
    fit_delay_lines(&mut l, &mut r, true, 0);
    assert_eq!(l.len(), 614442);
    assert_eq!(l.taps(0).unwrap().0, 0);
}

#[test]
fn phase_shifter_line_is_200ms_at_48k() {
    assert_eq!(PHASE_SHIFTER_DELAY_LEN, 9642);
    let p: PhaseShifter<(i32, i32)> = PhaseShifter::new((0, 0));
    assert_eq!(p.delay_line.len(), 9642);
    assert_eq!(p.delay_line.taps(100), Some(((0, 0), (0, 0))));
    assert!(!p.delay_line.is_silent());
}
