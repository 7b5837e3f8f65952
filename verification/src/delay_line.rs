//! A fixed-length circular delay line and the silence counter it feeds.

use vstd::prelude::*;

verus! {

/// How many consecutive quiet samples make a delay line count as silent.
pub const SILENCE_COUNTER_THRESHOLD: usize = 44100;

/// Length of the run of `true` (quiet) flags at the end of `flags`.
pub open spec fn trailing_quiet_run(flags: Seq<bool>) -> nat
    decreases flags.len(),
{
    if flags.len() == 0 {
        0
    } else if flags.last() {
        trailing_quiet_run(flags.drop_last()) + 1
    } else {
        0
    }
}

/// The last `n` flags exist and are all `true`.
pub open spec fn ends_with_quiet(flags: Seq<bool>, n: nat) -> bool {
    &&& n <= flags.len()
    &&& forall|i: int| flags.len() - n <= i < flags.len() ==> #[trigger] flags[i]
}

/// The last `SILENCE_COUNTER_THRESHOLD` samples seen were all quiet.
pub open spec fn recently_silent(flags: Seq<bool>) -> bool {
    ends_with_quiet(flags, SILENCE_COUNTER_THRESHOLD as nat)
}

/// The trailing quiet run is at least `n` long exactly when the last `n`
/// flags are all quiet.
pub proof fn lemma_quiet_run_at_least(flags: Seq<bool>, n: nat)
    ensures
        trailing_quiet_run(flags) >= n <==> ends_with_quiet(flags, n),
    decreases flags.len(),
{
    if n == 0 {
    } else if flags.len() == 0 {
    } else {
        let rest = flags.drop_last();
        lemma_quiet_run_at_least(rest, (n - 1) as nat);
        if ends_with_quiet(flags, n) {
            assert(flags[flags.len() - 1]);
            assert forall|i: int| rest.len() - (n - 1) <= i < rest.len() implies #[trigger] rest[i] by {
                assert(flags[i]);
            }
        }
        if trailing_quiet_run(flags) >= n {
            assert forall|i: int| flags.len() - n <= i < flags.len() implies #[trigger] flags[i] by {
                if i < flags.len() - 1 {
                    assert(rest[i]);
                }
            }
        }
    }
}

/// A delay line is silent exactly when its last `SILENCE_COUNTER_THRESHOLD`
/// samples were all quiet, whatever came before them.
pub proof fn lemma_silent_iff_recent_quiet(flags: Seq<bool>)
    ensures
        trailing_quiet_run(flags) >= SILENCE_COUNTER_THRESHOLD <==> recently_silent(flags),
{
    lemma_quiet_run_at_least(flags, SILENCE_COUNTER_THRESHOLD as nat);
}

/// Counts consecutive quiet samples.
pub struct SilenceCounter {
    count: usize,
    history: Ghost<Seq<bool>>,
}

impl SilenceCounter {
    /// Whether each sample seen so far was quiet, oldest first.
    pub closed spec fn history(&self) -> Seq<bool> {
        self.history@
    }

    /// Number of quiet samples since the last loud one.
    pub open spec fn quiet_run(&self) -> nat {
        trailing_quiet_run(self.history())
    }

    #[verifier::type_invariant]
    closed spec fn counts_trailing_run(self) -> bool {
        self.count == trailing_quiet_run(self.history@)
    }

    /// A counter that has seen nothing yet.
    pub fn new() -> (c: Self)
        ensures
            c.history() == Seq::<bool>::empty(),
    {
        SilenceCounter { count: 0, history: Ghost(Seq::empty()) }
    }

    /// Records one sample: `quiet` tells whether its magnitude was below the
    /// silence threshold.
    pub fn process(&mut self, quiet: bool)
        requires
            quiet ==> old(self).quiet_run() < usize::MAX,
        ensures
            final(self).history() == old(self).history().push(quiet),
            final(self).quiet_run() == if quiet { old(self).quiet_run() + 1 } else { 0 },
    {
        proof {
            use_type_invariant(&*self);
        }
        let ghost new_history = self.history@.push(quiet);
        proof {
            assert(new_history.drop_last() =~= self.history@);
        }
        let count: usize = if quiet { self.count + 1 } else { 0 };
        *self = SilenceCounter { count, history: Ghost(new_history) };
    }

    /// The number of quiet samples since the last loud one.
    pub fn quiet_samples(&self) -> (n: usize)
        ensures
            n == self.quiet_run(),
    {
        proof {
            use_type_invariant(self);
        }
        self.count
    }

    /// Whether at least `SILENCE_COUNTER_THRESHOLD` quiet samples came in a row
    /// most recently.
    pub fn is_silent(&self) -> (silent: bool)
        ensures
            silent == (self.quiet_run() >= SILENCE_COUNTER_THRESHOLD),
            silent == recently_silent(self.history()),
    {
        proof {
            use_type_invariant(self);
            lemma_silent_iff_recent_quiet(self.history());
        }
        self.count >= SILENCE_COUNTER_THRESHOLD
    }
}

impl Default for SilenceCounter {
    fn default() -> (c: Self)
        ensures
            c.history() == Seq::<bool>::empty(),
    {
        Self::new()
    }
}


/// `val` reduced into `0..n`, for a `val` below `2 * n`: `val` itself when it
/// is already below `n`, otherwise `val - n`.
pub open spec fn wrapped(val: int, n: int) -> int {
    if val < n {
        val
    } else {
        val - n
    }
}

/// Reduces `val < 2 * n` into `0..n` without a division: when `val < n` the
/// wrapping subtraction overflows to a value above `val`, and the minimum
/// keeps `val`.
pub fn wrap_once(val: usize, n: usize) -> (r: usize)
    requires
        val < 2 * n,
    ensures
        r == wrapped(val as int, n as int),
        r == val % n,
{
    proof {
        if val < n {
            vstd::arithmetic::div_mod::lemma_small_mod(val as nat, n as nat);
        } else {
            vstd::arithmetic::div_mod::lemma_small_mod((val - n) as nat, n as nat);
            vstd::arithmetic::div_mod::lemma_mod_sub_multiples_vanish(val as int, n as int);
        }
    }
    val.min(val.wrapping_sub(n))
}

/// The contents after pushing `sample`: it becomes the newest entry and the
/// oldest one falls off the end.
pub open spec fn pushed<T>(taps: Seq<T>, sample: T) -> Seq<T> {
    seq![sample] + taps.take(taps.len() - 1)
}

/// The contents after pushing every sample of `samples`, first to last.
pub open spec fn pushed_all<T>(taps: Seq<T>, samples: Seq<T>) -> Seq<T>
    decreases samples.len(),
{
    if samples.len() == 0 {
        taps
    } else {
        pushed(pushed_all(taps, samples.drop_last()), samples.last())
    }
}

/// A circular buffer of the most recent samples; `buf[index]` holds the
/// newest one and older samples follow at increasing (wrapping) positions.
pub struct DelayLine<T> {
    index: usize,
    silence_counter: SilenceCounter,
    pub buf: Vec<T>,
}

impl<T: Copy> DelayLine<T> {
    /// The write position lies inside the buffer (or is 0 for an empty one).
    pub closed spec fn wf(&self) -> bool {
        if self.buf.len() == 0 {
            self.index == 0
        } else {
            self.index < self.buf.len()
        }
    }

    /// Quietness of every sample pushed so far, oldest first.
    pub closed spec fn silence_history(&self) -> Seq<bool> {
        self.silence_counter.history()
    }

    /// Number of quiet samples pushed since the last loud one.
    pub open spec fn quiet_run(&self) -> nat {
        trailing_quiet_run(self.silence_history())
    }

    /// Position in `buf` of the sample that is `delay` pushes old.
    pub closed spec fn slot(&self, delay: int) -> int {
        wrapped(self.index + delay, self.buf.len() as int)
    }

    /// A delay line of `length` samples, all equal to `zero`.
    pub fn new(length: usize, zero: T) -> (d: Self)
        ensures
            d.wf(),
            d@ == Seq::new(length as nat, |_k: int| zero),
            d.silence_history() == Seq::<bool>::empty(),
    {
        let mut buf: Vec<T> = Vec::new();
        let mut i: usize = 0;
        while i < length
            invariant
                i <= length,
                buf@ == Seq::new(i as nat, |_k: int| zero),
            decreases length - i,
        {
            buf.push(zero);
            i += 1;
        }
        let d = DelayLine { index: 0, silence_counter: SilenceCounter::new(), buf };
        assert(d@ =~= Seq::new(length as nat, |_k: int| zero));
        d
    }

    /// Number of samples the line holds.
    pub fn len(&self) -> (n: usize)
        ensures
            n == self@.len(),
    {
        self.buf.len()
    }

    /// Stores one sample as the newest entry, overwriting the oldest.
    /// `sanitized` is the value to store (the sample with non-finite
    /// components replaced); `quiet` tells whether the incoming sample was
    /// below the silence threshold.
    pub fn push(&mut self, sanitized: T, quiet: bool)
        requires
            old(self).wf(),
            old(self)@.len() > 0,
            quiet ==> old(self).quiet_run() < usize::MAX,
        ensures
            final(self).wf(),
            final(self)@.len() == old(self)@.len(),
            final(self)@ == pushed(old(self)@, sanitized),
            final(self).silence_history() == old(self).silence_history().push(quiet),
    {
        let ghost before = self@;
        if self.index == 0 {
            self.index = self.len();
        }
        self.index -= 1;
        self.silence_counter.process(quiet);
        let i = self.index;
        self.buf.set(i, sanitized);
        assert(self@ =~= pushed(before, sanitized));
    }

    /// The samples at delay `delay` and at the next delay (wrapping to the
    /// newest sample past the oldest), or `None` when `delay` is not shorter
    /// than the line.
    pub fn taps(&self, delay: usize) -> (r: Option<(T, T)>)
        requires
            self.wf(),
            self@.len() <= usize::MAX / 2,
        ensures
            r is None <==> delay >= self@.len(),
            r matches Some((a, b)) ==> {
                &&& a == self@[delay as int]
                &&& b == self@[(delay + 1) % (self@.len() as int)]
            },
    {
        let n = self.len();
        if delay >= n {
            return None;
        }
        let index = wrap_once(self.index + delay, n);
        let next_index = wrap_once(self.index + delay + 1, n);
        proof {
            if delay + 1 < n {
                vstd::arithmetic::div_mod::lemma_small_mod((delay + 1) as nat, n as nat);
            } else {
                vstd::arithmetic::div_mod::lemma_mod_self_0(n as int);
            }
        }
        Some((self.buf[index], self.buf[next_index]))
    }

    /// Number of quiet samples pushed since the last loud one.
    pub fn quiet_samples(&self) -> (n: usize)
        ensures
            n == self.quiet_run(),
    {
        self.silence_counter.quiet_samples()
    }

    /// Whether the last `SILENCE_COUNTER_THRESHOLD` pushed samples were all
    /// quiet.
    pub fn is_silent(&self) -> (silent: bool)
        ensures
            silent == recently_silent(self.silence_history()),
    {
        self.silence_counter.is_silent()
    }
}

impl<T: Copy> View for DelayLine<T> {
    type V = Seq<T>;

    /// The stored samples by age: entry `k` was pushed `k` pushes ago.
    closed spec fn view(&self) -> Seq<T> {
        Seq::new(self.buf@.len(), |k: int| self.buf@[self.slot(k)])
    }
}

/// Pushing a sample makes it the newest entry, moves every other entry one
/// step older and drops the oldest; the length stays the same.
pub proof fn lemma_push_shifts<T>(taps: Seq<T>, sample: T)
    requires
        taps.len() > 0,
    ensures
        pushed(taps, sample).len() == taps.len(),
        pushed(taps, sample)[0] == sample,
        forall|k: int| 0 <= k < taps.len() - 1 ==> #[trigger] pushed(taps, sample)[k + 1] == taps[k],
{
}

/// After pushing a run of samples, reading at delay `k` gives the sample
/// pushed `k` pushes before the last one while the run is long enough, and
/// otherwise the entry that was `k - samples.len()` old before the run.
pub proof fn lemma_read_after_pushes<T>(taps: Seq<T>, samples: Seq<T>, k: int)
    requires
        taps.len() > 0,
        0 <= k < taps.len(),
    ensures
        pushed_all(taps, samples).len() == taps.len(),
        k < samples.len() ==> pushed_all(taps, samples)[k] == samples[samples.len() - 1 - k],
        k >= samples.len() ==> pushed_all(taps, samples)[k] == taps[k - samples.len()],
    decreases samples.len(),
{
    if samples.len() == 0 {
    } else {
        let rest = samples.drop_last();
        let before = pushed_all(taps, rest);
        lemma_read_after_pushes(taps, rest, k);
        if k > 0 {
            lemma_read_after_pushes(taps, rest, k - 1);
        }
    }
}

} // verus!
