//! Integrator stage: a single-pole running accumulator.
use vstd::prelude::*;
use crate::wrapping::{lemma_wrap32_add, lemma_wrap32_identity, wrap32};

verus! {

/// Running accumulator with wraparound arithmetic.
///
/// Its view is the accumulator, which is also the value it returned last.
#[derive(Clone, Copy)]
pub struct Integrator {
    last_output: i32,
}

impl View for Integrator {
    type V = i32;

    closed spec fn view(&self) -> i32 {
        self.last_output
    }
}

/// The exact (unbounded) sum of a sequence of samples.
pub open spec fn total(inputs: Seq<i32>) -> int
    decreases inputs.len(),
{
    if inputs.len() == 0 {
        0
    } else {
        total(inputs.drop_last()) + inputs.last()
    }
}

impl Integrator {
    /// The accumulator after `input` is added to an accumulator holding `acc`.
    pub open spec fn step(acc: i32, input: i32) -> i32 {
        wrap32(acc + input)
    }

    /// The accumulator after every sample of `inputs` was added, in order, to
    /// an accumulator that held `acc`. This is also the value returned by the
    /// last of those calls.
    pub open spec fn run(acc: i32, inputs: Seq<i32>) -> i32
        decreases inputs.len(),
    {
        if inputs.len() == 0 {
            acc
        } else {
            Self::step(Self::run(acc, inputs.drop_last()), inputs.last())
        }
    }

    /// An integrator whose accumulator is zero.
    pub fn new() -> (r: Self)
        ensures
            r@ == 0,
    {
        Self { last_output: 0 }
    }

    /// Adds `input` to the accumulator, wrapping on overflow, and returns the
    /// new accumulator.
    #[inline]
    pub fn integrate(&mut self, input: i32) -> (output: i32)
        ensures
            output == Self::step(old(self)@, input),
            final(self)@ == output,
    {
        let output: i32 = self.last_output.wrapping_add(input);
        self.last_output = output;
        output
    }

    /// After any sequence of inputs the accumulator, and so the value returned
    /// by the last call, is the exact sum of the starting value and of all the
    /// inputs, reduced modulo 2^32. For a new integrator that is the wrapped
    /// sum of the inputs alone.
    pub proof fn lemma_run_is_wrapped_sum(acc: i32, inputs: Seq<i32>)
        ensures
            Self::run(acc, inputs) == wrap32(acc + total(inputs)),
            Self::run(0, inputs) == wrap32(total(inputs)),
        decreases inputs.len(),
    {
        if inputs.len() == 0 {
            lemma_wrap32_identity(acc as int);
            lemma_wrap32_identity(0);
        } else {
            let head = inputs.drop_last();
            Self::lemma_run_is_wrapped_sum(acc, head);
            lemma_wrap32_add(acc + total(head), inputs.last() as int);
            lemma_wrap32_add(total(head), inputs.last() as int);
        }
    }
}

impl Default for Integrator {
    fn default() -> (r: Self)
        ensures
            r@ == 0,
    {
        Self::new()
    }
}

} // verus!
