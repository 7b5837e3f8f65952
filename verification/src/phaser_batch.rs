//! The four-sample batching of a phaser instance: samples are collected four
//! at a time so that a batch can go through the stages together, and each
//! call hands back the sample of the previous batch in the slot it fills.

use vstd::prelude::*;

verus! {

/// Batching state of one phaser instance.
pub struct SimdBatch<T> {
    legacy_behavior: bool,
    prev_simd_output: [T; 4],
    cur_simd: [T; 4],
    simd_index: u8,
}

impl<T> SimdBatch<T> {
    #[verifier::type_invariant]
    closed spec fn index_in_batch(self) -> bool {
        self.simd_index < 4
    }
}

impl<T: Copy> SimdBatch<T> {
    /// Whether samples are processed one at a time instead of in batches.
    pub closed spec fn legacy(&self) -> bool {
        self.legacy_behavior
    }

    /// Last output of the stage chain, one per lane.
    pub closed spec fn prev_output(&self) -> Seq<T> {
        self.prev_simd_output@
    }

    /// The batch being filled: slots before `slot()` hold new input samples,
    /// the others the processed samples still to be handed out.
    pub closed spec fn current(&self) -> Seq<T> {
        self.cur_simd@
    }

    /// Slot the next sample goes into.
    pub closed spec fn slot(&self) -> nat {
        self.simd_index as nat
    }

    /// A batch state with everything `zero`, not in legacy mode.
    pub fn new(zero: T) -> (b: Self)
        ensures
            !b.legacy(),
            b.prev_output() == seq![zero, zero, zero, zero],
            b.current() == seq![zero, zero, zero, zero],
            b.slot() == 0,
            b.slot() < 4,
    {
        let b = SimdBatch {
            legacy_behavior: false,
            prev_simd_output: [zero, zero, zero, zero],
            cur_simd: [zero, zero, zero, zero],
            simd_index: 0,
        };
        assert(b.prev_output() =~= seq![zero, zero, zero, zero]);
        assert(b.current() =~= seq![zero, zero, zero, zero]);
        b
    }

    /// Whether samples are processed one at a time instead of in batches.
    pub fn legacy_behavior(&self) -> (l: bool)
        ensures
            l == self.legacy(),
            self.slot() < 4,
    {
        proof {
            use_type_invariant(self);
        }
        self.legacy_behavior
    }

    /// Switches between one-at-a-time and batched processing. Nothing
    /// changes when the mode stays the same; entering legacy mode clears the
    /// batch and the previous outputs to `zero` and starts a new batch.
    pub fn set_legacy_behavior(&mut self, legacy_behavior: bool, zero: T)
        ensures
            old(self).slot() < 4,
            final(self).slot() < 4,
            final(self).legacy() == legacy_behavior,
            legacy_behavior == old(self).legacy() ==> *final(self) == *old(self),
            legacy_behavior != old(self).legacy() && !legacy_behavior ==> {
                &&& final(self).prev_output() == old(self).prev_output()
                &&& final(self).current() == old(self).current()
                &&& final(self).slot() == old(self).slot()
            },
            legacy_behavior != old(self).legacy() && legacy_behavior ==> {
                &&& final(self).prev_output() == seq![zero, zero, zero, zero]
                &&& final(self).current() == seq![zero, zero, zero, zero]
                &&& final(self).slot() == 0
            },
    {
        proof {
            use_type_invariant(&*self);
        }
        if self.legacy_behavior == legacy_behavior {
            return;
        }
        self.legacy_behavior = legacy_behavior;

        if self.legacy_behavior {
            self.prev_simd_output = [zero, zero, zero, zero];
            self.cur_simd = [zero, zero, zero, zero];
            self.simd_index = 0;
            assert(self.prev_output() =~= seq![zero, zero, zero, zero]);
            assert(self.current() =~= seq![zero, zero, zero, zero]);
        }
    }

    /// Puts `sample` into the current slot and hands back what the slot
    /// held; `batch_full` tells that this filled the batch, which is then
    /// ready to be processed, and the next sample starts a new one.
    pub fn exchange(&mut self, sample: T) -> (r: (T, bool))
        ensures
            old(self).slot() < 4,
            final(self).slot() < 4,
            r.0 == old(self).current()[old(self).slot() as int],
            r.1 == (old(self).slot() == 3),
            final(self).current() == old(self).current().update(old(self).slot() as int, sample),
            final(self).slot() == if old(self).slot() == 3 { 0 } else { old(self).slot() + 1 },
            final(self).legacy() == old(self).legacy(),
            final(self).prev_output() == old(self).prev_output(),
    {
        proof {
            use_type_invariant(&*self);
        }
        let i = self.simd_index;
        let out = self.cur_simd[i as usize];
        let mut cur = self.cur_simd;
        cur[i as usize] = sample;
        self.cur_simd = cur;
        let next: u8 = if i + 1 >= 4 { 0 } else { i + 1 };
        self.simd_index = next;
        (out, i + 1 >= 4)
    }

    /// The current batch.
    pub fn current_batch(&self) -> (c: [T; 4])
        ensures
            c@ == self.current(),
            self.slot() < 4,
    {
        proof {
            use_type_invariant(self);
        }
        self.cur_simd
    }

    /// Replaces the current batch (with its processed samples).
    pub fn set_current_batch(&mut self, batch: [T; 4])
        ensures
            final(self).current() == batch@,
            final(self).slot() == old(self).slot(),
            final(self).slot() < 4,
            final(self).legacy() == old(self).legacy(),
            final(self).prev_output() == old(self).prev_output(),
    {
        proof {
            use_type_invariant(&*self);
        }
        self.cur_simd = batch;
    }

    /// Last output of the stage chain, one per lane.
    pub fn prev_simd_output(&self) -> (p: [T; 4])
        ensures
            p@ == self.prev_output(),
            self.slot() < 4,
    {
        proof {
            use_type_invariant(self);
        }
        self.prev_simd_output
    }

    /// Replaces the last output of the stage chain.
    pub fn set_prev_simd_output(&mut self, prev: [T; 4])
        ensures
            final(self).prev_output() == prev@,
            final(self).current() == old(self).current(),
            final(self).slot() == old(self).slot(),
            final(self).slot() < 4,
            final(self).legacy() == old(self).legacy(),
    {
        proof {
            use_type_invariant(&*self);
        }
        self.prev_simd_output = prev;
    }
}

} // verus!
