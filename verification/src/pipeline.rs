//! Mathematical model of the filter: its state as plain values, and what one
//! input sample does to it.
//!
//! The samples travel strictly forward: through the integrators in stage
//! order, then through the decimator, and, on the calls where the decimator
//! lets a value through, through the differentiators in stage order.
use vstd::prelude::*;
use crate::differentiator::Differentiator;
use crate::integrator::Integrator;

verus! {

/// The state of a filter as plain values.
#[verifier::ext_equal]
pub struct CicState {
    /// The accumulator of each integrator, in stage order.
    pub integrators: Seq<i32>,
    /// The number of samples the decimator has counted since it last let one
    /// through.
    pub counter: nat,
    /// The remembered input of each differentiator, in stage order.
    pub differentiators: Seq<i32>,
}

/// The value that enters integrator stage `stage` when `input` enters stage
/// zero of a chain whose accumulators hold `accumulators`. For `stage` equal
/// to the number of stages it is the value that leaves the chain.
pub open spec fn integrator_feed(accumulators: Seq<i32>, input: i32, stage: nat) -> i32
    decreases stage,
{
    if stage == 0 {
        input
    } else {
        Integrator::step(
            accumulators[stage - 1],
            integrator_feed(accumulators, input, (stage - 1) as nat),
        )
    }
}

/// The value that enters differentiator stage `stage` when `input` enters
/// stage zero of a chain whose stages remember `previous`. For `stage` equal
/// to the number of stages it is the value that leaves the chain.
pub open spec fn differentiator_feed(previous: Seq<i32>, input: i32, stage: nat) -> i32
    decreases stage,
{
    if stage == 0 {
        input
    } else {
        Differentiator::output(
            previous[stage - 1],
            differentiator_feed(previous, input, (stage - 1) as nat),
        )
    }
}

impl CicState {
    /// The state of a new filter of `n` stages: everything is zero.
    pub open spec fn zeroed(n: nat) -> CicState {
        CicState {
            integrators: Seq::new(n, |j: int| 0i32),
            counter: 0,
            differentiators: Seq::new(n, |j: int| 0i32),
        }
    }

    /// What holds of the state of every filter of `n` stages and decimation
    /// factor `m`: both chains have `n` stages, and the counter is below
    /// `m`.
    pub open spec fn wf(self, m: nat, n: nat) -> bool {
        &&& self.integrators.len() == n
        &&& self.differentiators.len() == n
        &&& self.counter < m
    }

    /// The accumulators after `input` went through the integrator chain:
    /// each stage has added what the stage before it passed on.
    pub open spec fn integrated(self, input: i32) -> Seq<i32> {
        Seq::new(
            self.integrators.len(),
            |j: int| integrator_feed(self.integrators, input, (j + 1) as nat),
        )
    }

    /// The value that leaves the integrator chain for `input`.
    pub open spec fn integrator_output(self, input: i32) -> i32 {
        integrator_feed(self.integrators, input, self.integrators.len())
    }

    /// What the differentiators remember after `sample` went through their
    /// chain: each stage remembers what entered it.
    pub open spec fn differentiated(self, sample: i32) -> Seq<i32> {
        Seq::new(
            self.differentiators.len(),
            |j: int| differentiator_feed(self.differentiators, sample, j as nat),
        )
    }

    /// The value that leaves the differentiator chain for `sample`.
    pub open spec fn differentiator_output(self, sample: i32) -> i32 {
        differentiator_feed(self.differentiators, sample, self.differentiators.len())
    }

    /// Whether the decimator, with decimation factor `m`, lets the next
    /// sample through.
    pub open spec fn emits(self, m: nat) -> bool {
        self.counter + 1 == m
    }

    /// The state after one input sample, and the output of that call, for a
    /// filter with decimation factor `m`.
    ///
    /// Every integrator is updated on every call. The differentiators are
    /// touched only on the calls where the decimator lets the integrated
    /// value through; the call then returns what leaves their chain.
    pub open spec fn step(self, m: nat, input: i32) -> (CicState, Option<i32>) {
        let sample = self.integrator_output(input);
        if self.emits(m) {
            (
                CicState {
                    integrators: self.integrated(input),
                    counter: 0,
                    differentiators: self.differentiated(sample),
                },
                Some(self.differentiator_output(sample)),
            )
        } else {
            (
                CicState {
                    integrators: self.integrated(input),
                    counter: self.counter + 1,
                    differentiators: self.differentiators,
                },
                None,
            )
        }
    }

    /// The state after every sample of `inputs` was fed in, in order.
    pub open spec fn run(self, m: nat, inputs: Seq<i32>) -> CicState
        decreases inputs.len(),
    {
        if inputs.len() == 0 {
            self
        } else {
            self.run(m, inputs.drop_last()).step(m, inputs.last()).0
        }
    }

    /// What a new filter of decimation factor `m` and `n` stages returns on
    /// call `k` (counted from zero) when it is fed `inputs` in order.
    pub open spec fn output_at(m: nat, n: nat, inputs: Seq<i32>, k: int) -> Option<i32>
        recommends
            0 <= k < inputs.len(),
    {
        Self::zeroed(n).run(m, inputs.take(k)).step(m, inputs[k]).1
    }

    /// A call keeps the state well-formed, and it returns a value exactly
    /// when the decimator has counted `m` samples.
    pub proof fn lemma_step_wf(self, m: nat, n: nat, input: i32)
        requires
            self.wf(m, n),
        ensures
            self.step(m, input).0.wf(m, n),
            self.step(m, input).1 is Some <==> self.counter + 1 == m,
    {
    }

    /// Any number of calls keeps the state well-formed.
    pub proof fn lemma_run_wf(self, m: nat, n: nat, inputs: Seq<i32>)
        requires
            self.wf(m, n),
        ensures
            self.run(m, inputs).wf(m, n),
        decreases inputs.len(),
    {
        if inputs.len() > 0 {
            self.lemma_run_wf(m, n, inputs.drop_last());
            self.run(m, inputs.drop_last()).lemma_step_wf(m, n, inputs.last());
        }
    }
}

} // verus!
