//! Delay-line sizing of the flanger effect.

use vstd::prelude::*;
use crate::delay_line::DelayLine;

verus! {

/// Samples a flanger delay line holds: 200 ms at 48 kHz (64 times as long
/// for the larger line) plus 42 samples of headroom for interpolation.
pub fn delay_line_size(use_larger_delay_line: bool) -> (n: usize)
    ensures
        n == delay_line_size_spec(use_larger_delay_line),
        n == if use_larger_delay_line { 614442int } else { 9642int },
{
    let ms: usize = if use_larger_delay_line { 200 * 64 } else { 200 };
    ms * 48000 / 1000 + 42
}

/// Makes sure both channel delay lines have the size `delay_line_size`
/// calls for: when the left one already has it they are kept as they are,
/// otherwise both are replaced by fresh lines of that size holding `zero`.
pub fn fit_delay_lines<T: Copy>(
    left: &mut DelayLine<T>,
    right: &mut DelayLine<T>,
    use_larger_delay_line: bool,
    zero: T,
)
    ensures
        old(left)@.len() == delay_line_size_spec(use_larger_delay_line) ==> {
            &&& *final(left) == *old(left)
            &&& *final(right) == *old(right)
        },
        old(left)@.len() != delay_line_size_spec(use_larger_delay_line) ==> {
            &&& final(left).wf()
            &&& final(right).wf()
            &&& final(left)@ == Seq::new(delay_line_size_spec(use_larger_delay_line), |_k: int| zero)
            &&& final(right)@ == Seq::new(delay_line_size_spec(use_larger_delay_line), |_k: int| zero)
            &&& final(left).silence_history() == Seq::<bool>::empty()
            &&& final(right).silence_history() == Seq::<bool>::empty()
        },
{
    let size = delay_line_size(use_larger_delay_line);
    if left.len() != size {
        *left = DelayLine::new(size, zero);
        *right = DelayLine::new(size, zero);
    }
}

/// What `delay_line_size` returns.
pub open spec fn delay_line_size_spec(use_larger_delay_line: bool) -> nat {
    ((if use_larger_delay_line { 200 * 64int } else { 200int }) * 48000 / 1000 + 42) as nat
}

} // verus!
