//! The delay line of the phase-shift effect.

use vstd::prelude::*;
use crate::delay_line::DelayLine;

verus! {

/// Samples a phase shifter's delay line holds: 200 ms at 48 kHz plus 42
/// samples of headroom for interpolation.
pub const PHASE_SHIFTER_DELAY_LEN: usize = 200 * (48000 / 1000) + 42;

/// One channel of the phase-shift effect: a delay line whose entries pair the
/// delayed input with the delayed output.
pub struct PhaseShifter<T> {
    pub delay_line: DelayLine<T>,
}

impl<T: Copy> PhaseShifter<T> {
    /// A phase shifter whose delay line holds `PHASE_SHIFTER_DELAY_LEN`
    /// copies of `zero`.
    pub fn new(zero: T) -> (p: Self)
        ensures
            p.delay_line.wf(),
            p.delay_line@ == Seq::new(PHASE_SHIFTER_DELAY_LEN as nat, |_k: int| zero),
            p.delay_line@.len() == 9642,
            p.delay_line.silence_history() == Seq::<bool>::empty(),
    {
        PhaseShifter { delay_line: DelayLine::new(PHASE_SHIFTER_DELAY_LEN, zero) }
    }
}

} // verus!
