//! The legacy phaser: every sample goes through the stages on its own, one
//! stage after another, with one coefficient per sample.

use vstd::prelude::*;
use crate::phaser::{constant_coefs, deterministic, run_stages, SimdMonoPhaser};

verus! {

/// A phaser that processes one sample at a time.
pub struct LegacyPhaser<T> {
    inner: SimdMonoPhaser<T>,
}

impl<T: Copy> LegacyPhaser<T> {
    /// The stage storage is consistent.
    pub closed spec fn wf(&self) -> bool {
        self.inner.wf()
    }

    /// Number of stages.
    pub closed spec fn stages(&self) -> nat {
        self.inner.stages()
    }

    /// Number of stored groups of four stages.
    pub closed spec fn groups(&self) -> nat {
        self.inner.groups()
    }

    /// Previous input of every stored stage.
    pub closed spec fn prev_input_lanes(&self) -> Seq<T> {
        self.inner.prev_input_lanes()
    }

    /// Previous output of every stored stage.
    pub closed spec fn output_lanes(&self) -> Seq<T> {
        self.inner.output_lanes()
    }

    /// A phaser with no stages.
    pub fn new() -> (p: Self)
        ensures
            p.wf(),
            p.stages() == 0,
    {
        LegacyPhaser { inner: SimdMonoPhaser::new() }
    }

    /// Changes the number of stages (see `SimdMonoPhaser::resize`).
    pub fn resize(&mut self, num_stages: usize, zero: T)
        requires
            old(self).wf(),
            num_stages <= usize::MAX - 3,
        ensures
            final(self).wf(),
            final(self).stages() == num_stages,
            num_stages == old(self).stages() ==> {
                &&& final(self).prev_input_lanes() == old(self).prev_input_lanes()
                &&& final(self).output_lanes() == old(self).output_lanes()
            },
            num_stages != old(self).stages() ==> {
                &&& final(self).prev_input_lanes() == crate::phaser::resized_lanes(
                    old(self).prev_input_lanes(),
                    num_stages as nat,
                    zero,
                )
                &&& final(self).output_lanes() == crate::phaser::resized_lanes(
                    old(self).output_lanes(),
                    num_stages as nat,
                    zero,
                )
            },
            final(self).groups() == crate::phaser::group_count(num_stages as nat),
            final(self).prev_input_lanes().len() == 4 * final(self).groups(),
            final(self).output_lanes().len() == 4 * final(self).groups(),
            // stages that exist before and after keep their state
            forall|j: int|
                #![trigger final(self).prev_input_lanes()[j]]
                #![trigger final(self).output_lanes()[j]]
                0 <= j < num_stages && j < 4 * old(self).groups() ==> final(self).prev_input_lanes()[j]
                    == old(self).prev_input_lanes()[j] && final(self).output_lanes()[j]
                    == old(self).output_lanes()[j],
            // every lane of a newly added group starts at rest
            forall|j: int|
                #![trigger final(self).prev_input_lanes()[j]]
                #![trigger final(self).output_lanes()[j]]
                4 * old(self).groups() <= j < 4 * final(self).groups() ==> final(self).prev_input_lanes()[j]
                    == zero && final(self).output_lanes()[j] == zero,
            // on a change of count, every lane past the last stage is at rest
            num_stages != old(self).stages() ==> forall|j: int|
                #![trigger final(self).prev_input_lanes()[j]]
                #![trigger final(self).output_lanes()[j]]
                num_stages <= j < 4 * final(self).groups() ==> final(self).prev_input_lanes()[j] == zero
                    && final(self).output_lanes()[j] == zero,
    {
        self.inner.resize(num_stages, zero);
    }

    /// Sends `dry` through every stage with coefficient `coef` and returns
    /// the dry sample together with the processed (wet) one.
    pub fn compute<F: Fn(T, T, T, T) -> T>(&mut self, f: &F, coef: T, dry: T) -> (r: (T, T))
        requires
            old(self).wf(),
            deterministic(*f),
        ensures
            final(self).wf(),
            final(self).stages() == old(self).stages(),
            ({
                let run = run_stages(
                    *f,
                    constant_coefs(coef, old(self).stages()),
                    old(self).prev_input_lanes(),
                    old(self).output_lanes(),
                    dry,
                    0,
                    old(self).stages() as int,
                );
                &&& r == (dry, run.2)
                &&& final(self).prev_input_lanes() == run.0
                &&& final(self).output_lanes() == run.1
            }),
    {
        let mut wet = dry;
        self.inner.compute_direct(f, coef, &mut wet);
        (dry, wet)
    }
}

impl<T: Copy> Default for LegacyPhaser<T> {
    fn default() -> (p: Self)
        ensures
            p.wf(),
            p.stages() == 0,
    {
        Self::new()
    }
}

} // verus!
