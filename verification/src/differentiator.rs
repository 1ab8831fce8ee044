//! Differentiator (comb) stage: a single-pole discrete derivative.
use vstd::prelude::*;
use crate::wrapping::wrap32;

verus! {

/// Discrete derivative with wraparound arithmetic.
///
/// Its view is the input of the previous call, zero before the first one.
#[derive(Clone, Copy)]
pub struct Differentiator {
    last_input: i32,
}

impl View for Differentiator {
    type V = i32;

    closed spec fn view(&self) -> i32 {
        self.last_input
    }
}

impl Differentiator {
    /// What a stage that last saw `previous` returns for `input`.
    pub open spec fn output(previous: i32, input: i32) -> i32 {
        wrap32(input - previous)
    }

    /// The remembered input after every sample of `inputs` was fed, in
    /// order, to a stage that remembered `previous`.
    pub open spec fn run(previous: i32, inputs: Seq<i32>) -> i32 {
        if inputs.len() == 0 {
            previous
        } else {
            inputs.last()
        }
    }

    /// What a stage that remembered `previous` returns on call `k` (counted
    /// from zero) when it is fed `inputs` in order.
    pub open spec fn output_at(previous: i32, inputs: Seq<i32>, k: int) -> i32
        recommends
            0 <= k < inputs.len(),
    {
        Self::output(Self::run(previous, inputs.take(k)), inputs[k])
    }

    /// A differentiator that has seen no input: it remembers zero.
    pub fn new() -> (r: Self)
        ensures
            r@ == 0,
    {
        Self { last_input: 0 }
    }

    /// Returns `input` minus the previous input, wrapping on overflow, and
    /// remembers `input`.
    #[inline]
    pub fn differentiate(&mut self, input: i32) -> (output: i32)
        ensures
            output == Self::output(old(self)@, input),
            final(self)@ == input,
    {
        let output: i32 = input.wrapping_sub(self.last_input);
        self.last_input = input;
        output
    }

    /// On every call a differentiator returns the wrapped difference between
    /// that call's input and the previous call's input. On the first call
    /// the previous input is what the stage remembered before; for a new
    /// differentiator that is zero.
    pub proof fn lemma_output_is_wrapped_difference(previous: i32, inputs: Seq<i32>, k: int)
        requires
            0 <= k < inputs.len(),
        ensures
            Self::output_at(previous, inputs, k) == wrap32(
                inputs[k] - (if k == 0 {
                    previous
                } else {
                    inputs[k - 1]
                }),
            ),
    {
        if k > 0 {
            assert(inputs.take(k).last() == inputs[k - 1]);
        }
    }
}

impl Default for Differentiator {
    fn default() -> (r: Self)
        ensures
            r@ == 0,
    {
        Self::new()
    }
}

} // verus!
