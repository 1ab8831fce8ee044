//! Decimator: a modulo-`M` sample-rate divider.
use vstd::prelude::*;
use vstd::arithmetic::div_mod::{
    lemma_fundamental_div_mod,
    lemma_fundamental_div_mod_converse,
    lemma_mod_bound,
    lemma_small_mod,
};

verus! {

/// Lets every `M`-th sample through and drops the rest.
///
/// Its view is the number of samples seen since the last one that was let
/// through, which always stays below `M`. There is no decimator for
/// `M == 0`.
#[derive(Clone, Copy)]
pub struct Decimator<const M: usize> {
    counter: usize,
}

impl<const M: usize> View for Decimator<M> {
    type V = nat;

    closed spec fn view(&self) -> nat {
        self.counter as nat
    }
}

impl<const M: usize> Decimator<M> {
    #[verifier::type_invariant]
    spec fn counter_below_factor(&self) -> bool {
        self.counter < M
    }

    /// The count after one more sample, and what the call returns for it: a
    /// decimator that has counted `count` samples lets `input` through when
    /// it is the `M`-th, and starts counting again.
    pub open spec fn step(count: nat, input: i32) -> (nat, Option<i32>) {
        if count + 1 == M {
            (0, Some(input))
        } else {
            (count + 1, None)
        }
    }

    /// The count after every sample of `inputs` was fed, in order, to a
    /// decimator that had counted `count`.
    pub open spec fn run(count: nat, inputs: Seq<i32>) -> nat
        decreases inputs.len(),
    {
        if inputs.len() == 0 {
            count
        } else {
            Self::step(Self::run(count, inputs.drop_last()), inputs.last()).0
        }
    }

    /// What a decimator that had counted `count` returns on call `k`
    /// (counted from zero) when it is fed `inputs` in order.
    pub open spec fn output_at(count: nat, inputs: Seq<i32>, k: int) -> Option<i32>
        recommends
            0 <= k < inputs.len(),
    {
        Self::step(Self::run(count, inputs.take(k)), inputs[k]).1
    }

    /// A decimator that has counted no sample yet.
    pub fn new() -> (r: Self)
        requires
            M > 0,
        ensures
            r@ == 0,
    {
        Self { counter: 0 }
    }

    /// Counts `input`. Returns it if it is the `M`-th sample since the last
    /// one returned (or since the start), and nothing otherwise.
    #[inline]
    pub fn decimate(&mut self, input: i32) -> (output: Option<i32>)
        ensures
            (final(self)@, output) == Self::step(old(self)@, input),
            old(self)@ < M,
            final(self)@ < M,
        no_unwind
    {
        proof {
            use_type_invariant(&*self);
        }
        if self.counter + 1 == M {
            self.counter = 0;
            Some(input)
        } else {
            self.counter = self.counter + 1;
            None
        }
    }

    /// The count goes round modulo `M`: after `inputs` it is the count
    /// before them plus their number, modulo `M`. For a new decimator that
    /// is the number of inputs modulo `M`.
    pub proof fn lemma_count_is_modular(count: nat, inputs: Seq<i32>)
        requires
            count < M,
        ensures
            Self::run(count, inputs) == (count + inputs.len()) % (M as nat),
        decreases inputs.len(),
    {
        if inputs.len() == 0 {
            lemma_small_mod(count, M as nat);
        } else {
            let head = inputs.drop_last();
            Self::lemma_count_is_modular(count, head);
            lemma_successor_mod(count + head.len(), M as nat);
        }
    }

    /// A decimator lets through exactly the calls that bring the number of
    /// samples it has counted to a multiple of `M`, and what it returns
    /// then is the input of that very call: not the first of the `M`, nor
    /// one in between. A new decimator so returns the input of every call
    /// whose number, counted from one, is a multiple of `M`.
    pub proof fn lemma_emits_every_mth_input(count: nat, inputs: Seq<i32>, k: int)
        requires
            count < M,
            0 <= k < inputs.len(),
        ensures
            Self::output_at(count, inputs, k) == (if (count + k + 1) % (M as int) == 0 {
                Some(inputs[k])
            } else {
                None
            }),
    {
        Self::lemma_count_is_modular(count, inputs.take(k));
        lemma_successor_mod((count + k) as nat, M as nat);
    }

    /// Among any `M` consecutive calls exactly one returns a value. The
    /// calls `start..start + M` are such a window, and `due` is the one
    /// call in it that returns a value.
    pub proof fn lemma_one_output_per_window(count: nat, inputs: Seq<i32>, start: int) -> (due:
        int)
        requires
            count < M,
            0 <= start,
            start + M <= inputs.len(),
        ensures
            start <= due < start + M,
            due == start + (M - 1 - (count + start) % (M as int)),
            Self::output_at(count, inputs, due) == Some(inputs[due]),
            forall|k: int|
                start <= k < start + M && k != due ==> #[trigger] Self::output_at(
                    count,
                    inputs,
                    k,
                ) is None,
    {
        let m = M as int;
        let seen = count + start;
        let q = seen / m;
        let r = seen % m;
        lemma_fundamental_div_mod(seen, m);
        lemma_mod_bound(seen, m);
        let due = start + (m - 1 - r);
        assert(count + due + 1 == (q + 1) * m + 0) by (nonlinear_arith)
            requires
                seen == m * q + r,
                count + due + 1 == seen + m - r,
        ;
        lemma_fundamental_div_mod_converse(count + due + 1, m, q + 1, 0);
        Self::lemma_emits_every_mth_input(count, inputs, due);
        assert forall|k: int| start <= k < start + M && k != due implies #[trigger] Self::output_at(
            count,
            inputs,
            k,
        ) is None by {
            Self::lemma_emits_every_mth_input(count, inputs, k);
            let offset = k - start;
            if offset < m - 1 - r {
                assert(count + k + 1 == q * m + (r + offset + 1)) by (nonlinear_arith)
                    requires
                        seen == m * q + r,
                        count + k + 1 == seen + offset + 1,
                ;
                lemma_fundamental_div_mod_converse(count + k + 1, m, q, r + offset + 1);
            } else {
                assert(count + k + 1 == (q + 1) * m + (r + offset + 1 - m)) by (nonlinear_arith)
                    requires
                        seen == m * q + r,
                        count + k + 1 == seen + offset + 1,
                ;
                lemma_fundamental_div_mod_converse(
                    count + k + 1,
                    m,
                    q + 1,
                    r + offset + 1 - m,
                );
            }
        }
        due
    }
}

/// Counting modulo `m`: the successor of `n` leaves remainder zero exactly
/// when `n` leaves `m - 1`, and one more than `n` does otherwise.
pub proof fn lemma_successor_mod(n: nat, m: nat)
    requires
        m > 0,
    ensures
        (n + 1) % m == (if n % m + 1 == m {
            0
        } else {
            n % m + 1
        }),
{
    let q = n as int / m as int;
    let r = n as int % m as int;
    lemma_fundamental_div_mod(n as int, m as int);
    lemma_mod_bound(n as int, m as int);
    if r + 1 == m {
        assert(n + 1 == (q + 1) * m + 0) by (nonlinear_arith)
            requires
                n == m * q + r,
                r + 1 == m,
        ;
        lemma_fundamental_div_mod_converse(n as int + 1, m as int, q + 1, 0);
    } else {
        assert(n + 1 == q * m + (r + 1)) by (nonlinear_arith)
            requires
                n == m * q + r,
        ;
        lemma_fundamental_div_mod_converse(n as int + 1, m as int, q, r + 1);
    }
}

} // verus!
