//! Cascaded integrator-comb (CIC) decimation filter on 32-bit fixed-point
//! samples.
//!
//! A filter with decimation factor `M` and `N` stages feeds every input
//! sample through `N` integrators, lets every `M`-th integrated value through
//! a decimator, and feeds that value through `N` differentiators. All
//! arithmetic wraps modulo 2^32. The output is not scaled: the filter has a
//! gain of `M^N`, which is left to the caller to compensate.
pub mod decimator;
pub mod differentiator;
pub mod integrator;
pub mod log2;
pub mod pipeline;
pub mod response;
pub mod signal;
pub mod wrapping;

use vstd::prelude::*;
use crate::decimator::Decimator;
use crate::differentiator::Differentiator;
use crate::integrator::Integrator;
use crate::log2::{floor_log2, ilog2};
use crate::pipeline::{differentiator_feed, integrator_feed, CicState};

verus! {

/// CIC decimation filter.
/// - `M` - Decimation factor
/// - `N` - Number of stages
///
/// Both are positive in every filter that exists; for that reason the type
/// has no `Default`.
pub struct CicDecimationFilter<const M: usize, const N: usize> {
    decimator: Decimator<M>,
    integrators: [Integrator; N],
    differentiators: [Differentiator; N],
}

impl<const M: usize, const N: usize> View for CicDecimationFilter<M, N> {
    type V = CicState;

    closed spec fn view(&self) -> CicState {
        CicState {
            integrators: Seq::new(N as nat, |j: int| self.integrators@[j]@),
            counter: self.decimator@,
            differentiators: Seq::new(N as nat, |j: int| self.differentiators@[j]@),
        }
    }
}

impl<const M: usize, const N: usize> CicDecimationFilter<M, N> {
    #[verifier::type_invariant]
    spec fn parameters_positive(&self) -> bool {
        M > 0 && N > 0
    }

    /// A filter with all of its state zeroed.
    pub fn new() -> (r: Self)
        requires
            M > 0,
            N > 0,
        ensures
            r@ == CicState::zeroed(N as nat),
            r@.wf(M as nat, N as nat),
    {
        let r = Self {
            decimator: Decimator::new(),
            integrators: [Integrator::new(); N],
            differentiators: [Differentiator::new(); N],
        };
        assert(r@.integrators =~= CicState::zeroed(N as nat).integrators);
        assert(r@.differentiators =~= CicState::zeroed(N as nat).differentiators);
        r
    }

    /// Process the input and return the output when the decimator is ready
    /// to output a value.
    ///
    /// The output range is the input range times `M^N`. For example, if the
    /// input range is +/-1, `M` is 4 and `N` is 2, the output range is
    /// +/-16.
    ///
    /// The call takes the state through [`CicState::step`] and returns what
    /// that gives. It accepts every input: sums and differences wrap.
    #[inline]
    #[must_use]
    pub fn filter(&mut self, input: &i32) -> (output: Option<i32>)
        ensures
            (final(self)@, output) == old(self)@.step(M as nat, *input),
            old(self)@.wf(M as nat, N as nat),
            final(self)@.wf(M as nat, N as nat),
    {
        proof {
            use_type_invariant(&*self);
        }
        let ghost before = self@;
        let mut sample: i32 = *input;
        let mut i: usize = 0;
        while i < N
            invariant
                M > 0,
                N > 0,
                i <= N,
                before == old(self)@,
                sample == integrator_feed(before.integrators, *input, i as nat),
                self.decimator == old(self).decimator,
                self.differentiators == old(self).differentiators,
                forall|j: int|
                    0 <= j < i ==> (#[trigger] self.integrators@[j])@ == integrator_feed(
                        before.integrators,
                        *input,
                        (j + 1) as nat,
                    ),
                forall|j: int|
                    i <= j < N ==> #[trigger] self.integrators@[j] == old(self).integrators@[j],
            decreases N - i,
        {
            let mut stage = self.integrators[i];
            sample = stage.integrate(sample);
            self.integrators[i] = stage;
            i = i + 1;
        }
        assert(self@.integrators =~= before.integrated(*input));
        match self.decimator.decimate(sample) {
            Some(ready) => {
                let mut value: i32 = ready;
                let mut i: usize = 0;
                while i < N
                    invariant
                        M > 0,
                        N > 0,
                        i <= N,
                        before == old(self)@,
                        value == differentiator_feed(before.differentiators, ready, i as nat),
                        self.decimator@ == 0,
                        self@.integrators == before.integrated(*input),
                        forall|j: int|
                            0 <= j < i ==> (#[trigger] self.differentiators@[j])@
                                == differentiator_feed(before.differentiators, ready, j as nat),
                        forall|j: int|
                            i <= j < N ==> #[trigger] self.differentiators@[j] == old(
                                self,
                            ).differentiators@[j],
                    decreases N - i,
                {
                    let mut stage = self.differentiators[i];
                    value = stage.differentiate(value);
                    self.differentiators[i] = stage;
                    i = i + 1;
                }
                assert(self@.differentiators =~= before.differentiated(ready));
                Some(value)
            },
            None => None,
        }
    }

    /// Returns the number of bits increased by passing through the CIC
    /// decimation filter: the base-2 logarithm of `M`, rounded down, times
    /// `N`.
    #[must_use]
    pub fn bit_growth(&self) -> (bits: u32)
        requires
            floor_log2(M as nat) * N <= u32::MAX,
        ensures
            bits == floor_log2(M as nat) * N,
    {
        proof {
            use_type_invariant(self);
        }
        let log: u32 = ilog2(M);
        if log == 0 {
            assert(log * N == 0) by (nonlinear_arith)
                requires
                    log == 0,
            ;
            0
        } else {
            assert(N <= u32::MAX) by (nonlinear_arith)
                requires
                    log * N <= u32::MAX,
                    log >= 1,
            ;
            log * (N as u32)
        }
    }
}

} // verus!
