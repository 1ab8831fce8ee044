//! What a filter computes, in closed form.
//!
//! Fed with a stream of samples, a new filter of `N` stages and decimation
//! factor `M` returns, on every `M`-th call, the stream put through a
//! cascade of `N` moving sums over `M` samples each, reduced modulo 2^32.
//! For an input that stayed constant long enough this is the constant times
//! the gain `M^N`.
use vstd::prelude::*;
use vstd::arithmetic::power::pow;
use crate::decimator::lemma_successor_mod;
use crate::pipeline::{differentiator_feed, integrator_feed, CicState};
use crate::signal::{
    cascade,
    combed_n,
    integrated_n,
    lemma_cascade_bounded,
    lemma_cascade_of_constant,
    lemma_combed_n_causal,
    lemma_integrated_n_causal,
    lemma_integrators_then_combs_are_cascade,
    lemma_signal_causal,
    signal,
};
use crate::wrapping::{lemma_wrap32_add, lemma_wrap32_identity, lemma_wrap32_sub, wrap32};

verus! {

/// The time of the last sample that the decimator let through among the
/// first `count` samples of a stream (times are counted from zero), or `-1`
/// if it has not let one through yet.
pub open spec fn last_emission(m: nat, count: nat) -> int {
    count - count % m - 1
}

/// The state of a new filter of `n` stages and decimation factor `m` after
/// the first `count` samples of the stream `f`:
/// - integrator `j` holds the stream summed up `j + 1` times over, as of
///   the last sample;
/// - the decimator has counted `count` modulo `m`;
/// - differentiator `i` remembers the `n`-fold sum combed `i` times over
///   with delay `m`, as of the last sample let through.
/// All of them are reduced modulo 2^32.
pub open spec fn closed_form(f: spec_fn(int) -> int, m: nat, n: nat, count: nat) -> CicState {
    CicState {
        integrators: Seq::new(
            n,
            |j: int| wrap32(integrated_n(f, (j + 1) as nat)(count - 1)),
        ),
        counter: count % m,
        differentiators: Seq::new(
            n,
            |i: int|
                wrap32(
                    combed_n(integrated_n(f, n), m as int, i as nat)(last_emission(m, count)),
                ),
        ),
    }
}

/// What enters each integrator stage, given what the stages before it hold.
proof fn lemma_integrator_feed_closed(
    f: spec_fn(int) -> int,
    accumulators: Seq<i32>,
    input: i32,
    t: int,
    stage: nat,
)
    requires
        t >= 0,
        input == f(t),
        stage <= accumulators.len(),
        forall|j: int|
            0 <= j < stage ==> #[trigger] accumulators[j] == wrap32(
                integrated_n(f, (j + 1) as nat)(t - 1),
            ),
    ensures
        integrator_feed(accumulators, input, stage) == wrap32(integrated_n(f, stage)(t)),
    decreases stage,
{
    if stage == 0 {
        lemma_wrap32_identity(input as int);
    } else {
        let below = (stage - 1) as nat;
        lemma_integrator_feed_closed(f, accumulators, input, t, below);
        assert(accumulators[below as int] == wrap32(integrated_n(f, stage)(t - 1)));
        lemma_wrap32_add(integrated_n(f, stage)(t - 1), integrated_n(f, below)(t));
    }
}

/// What enters each differentiator stage, given what the stages before it
/// remember.
proof fn lemma_differentiator_feed_closed(
    g: spec_fn(int) -> int,
    m: int,
    previous: Seq<i32>,
    sample: i32,
    t: int,
    stage: nat,
)
    requires
        sample == wrap32(g(t)),
        stage <= previous.len(),
        forall|i: int|
            0 <= i < stage ==> #[trigger] previous[i] == wrap32(combed_n(g, m, i as nat)(t - m)),
    ensures
        differentiator_feed(previous, sample, stage) == wrap32(combed_n(g, m, stage)(t)),
    decreases stage,
{
    if stage > 0 {
        let below = (stage - 1) as nat;
        lemma_differentiator_feed_closed(g, m, previous, sample, t, below);
        assert(previous[below as int] == wrap32(combed_n(g, m, below)(t - m)));
        lemma_wrap32_sub(combed_n(g, m, below)(t), combed_n(g, m, below)(t - m));
    }
}

/// One call takes the closed form for `count` samples to the closed form
/// for `count + 1`, and returns the cascade of moving sums when the
/// decimator lets the sample through.
proof fn lemma_step_closed(inputs: Seq<i32>, m: nat, n: nat, count: nat)
    requires
        m > 0,
        count < inputs.len(),
    ensures
        closed_form(signal(inputs), m, n, count).step(m, inputs[count as int]) == (
            closed_form(signal(inputs), m, n, count + 1),
            if (count + 1) % m == 0 {
                Some(wrap32(cascade(signal(inputs), m, n)(count as int)))
            } else {
                None
            },
        ),
{
    let f = signal(inputs);
    let g = integrated_n(f, n);
    let before = closed_form(f, m, n, count);
    let after = closed_form(f, m, n, count + 1);
    let input = inputs[count as int];
    let t = count as int;
    let stepped = before.step(m, input);
    lemma_successor_mod(count, m);
    assert forall|stage: nat| stage <= n implies #[trigger] integrator_feed(
        before.integrators,
        input,
        stage,
    ) == wrap32(integrated_n(f, stage)(t)) by {
        lemma_integrator_feed_closed(f, before.integrators, input, t, stage);
    }
    assert(stepped.0.integrators =~= after.integrators) by {
        assert forall|j: int| 0 <= j < n implies stepped.0.integrators[j]
            == after.integrators[j] by {
            assert(stepped.0.integrators[j] == integrator_feed(
                before.integrators,
                input,
                (j + 1) as nat,
            ));
        }
    }
    let sample = before.integrator_output(input);
    assert(sample == integrator_feed(before.integrators, input, n));
    assert(sample == wrap32(g(t)));
    if before.emits(m) {
        assert(last_emission(m, count) == t - m);
        assert(last_emission(m, count + 1) == t);
        assert forall|stage: nat| stage <= n implies #[trigger] differentiator_feed(
            before.differentiators,
            sample,
            stage,
        ) == wrap32(combed_n(g, m as int, stage)(t)) by {
            lemma_differentiator_feed_closed(g, m as int, before.differentiators, sample, t, stage);
        }
        assert(stepped.0.differentiators =~= after.differentiators) by {
            assert forall|i: int| 0 <= i < n implies stepped.0.differentiators[i]
                == after.differentiators[i] by {
                assert(stepped.0.differentiators[i] == differentiator_feed(
                    before.differentiators,
                    sample,
                    i as nat,
                ));
            }
        }
        assert(stepped.1 == Some(differentiator_feed(before.differentiators, sample, n)));
        lemma_signal_causal(inputs);
        lemma_integrators_then_combs_are_cascade(f, m, n);
    } else {
        assert(last_emission(m, count + 1) == last_emission(m, count));
        assert(stepped.0.differentiators =~= after.differentiators);
    }
}

/// The state of a new filter after the first `count` samples of `inputs` is
/// the closed form.
pub proof fn lemma_run_closed(inputs: Seq<i32>, m: nat, n: nat, count: nat)
    requires
        m > 0,
        count <= inputs.len(),
    ensures
        CicState::zeroed(n).run(m, inputs.take(count as int)) == closed_form(
            signal(inputs),
            m,
            n,
            count,
        ),
    decreases count,
{
    let f = signal(inputs);
    if count == 0 {
        let start = closed_form(f, m, n, 0);
        vstd::arithmetic::div_mod::lemma_small_mod(0, m);
        lemma_signal_causal(inputs);
        lemma_integrated_n_causal(f, n);
        assert forall|i: int| 0 <= i < n implies #[trigger] start.differentiators[i] == 0 by {
            lemma_combed_n_causal(integrated_n(f, n), m as int, i as nat);
            assert(combed_n(integrated_n(f, n), m as int, i as nat)(-1) == 0);
        }
        assert(start.integrators =~= CicState::zeroed(n).integrators);
        assert(start.differentiators =~= CicState::zeroed(n).differentiators);
    } else {
        let fewer = (count - 1) as nat;
        lemma_run_closed(inputs, m, n, fewer);
        lemma_step_closed(inputs, m, n, fewer);
        assert(inputs.take(count as int).drop_last() =~= inputs.take(fewer as int));
    }
}

/// A new filter of `n` stages and decimation factor `m` returns a value on
/// exactly the calls whose number (counted from one) is a multiple of `m`.
/// The value is the input stream put through a cascade of `n` moving sums
/// over `m` samples each, taken at that call and reduced modulo 2^32.
pub proof fn lemma_output_is_cascade_of_moving_sums(inputs: Seq<i32>, m: nat, n: nat, k: int)
    requires
        m > 0,
        0 <= k < inputs.len(),
    ensures
        CicState::output_at(m, n, inputs, k) == (if (k + 1) % (m as int) == 0 {
            Some(wrap32(cascade(signal(inputs), m, n)(k)))
        } else {
            None::<i32>
        }),
{
    lemma_run_closed(inputs, m, n, k as nat);
    lemma_step_closed(inputs, m, n, k as nat);
}

/// When the last `n * (m - 1) + 1` inputs up to and including the one of
/// call `k` all had the same value, and the filter returns a value on call
/// `k`, that value is the constant times the gain `m^n`, reduced modulo
/// 2^32. Whatever was fed in before that span has no influence.
pub proof fn lemma_constant_input_settles(inputs: Seq<i32>, m: nat, n: nat, k: int, value: i32)
    requires
        m > 0,
        0 <= k < inputs.len(),
        (k + 1) % (m as int) == 0,
        n * (m - 1) <= k,
        forall|s: int| k - n * (m - 1) <= s <= k ==> #[trigger] inputs[s] == value,
    ensures
        CicState::output_at(m, n, inputs, k) == Some(wrap32(value * pow(m as int, n))),
        i32::MIN <= value * pow(m as int, n) <= i32::MAX ==> CicState::output_at(m, n, inputs, k)
            == Some((value * pow(m as int, n)) as i32),
{
    lemma_output_is_cascade_of_moving_sums(inputs, m, n, k);
    let f = signal(inputs);
    assert forall|s: int| k - n * (m - 1) <= s <= k implies #[trigger] f(s) == value by {
        assert(inputs[s] == value);
    }
    lemma_cascade_of_constant(f, m, n, k, value as int);
    if i32::MIN <= value * pow(m as int, n) <= i32::MAX {
        lemma_wrap32_identity(value * pow(m as int, n));
    }
}

/// The output range is the input range times the gain: when the inputs
/// among the last `n * (m - 1) + 1` up to and including the one of call `k`
/// all lay within `-bound..=bound`, and `bound * m^n` fits in 32 bits, the
/// value returned on call `k` is the cascade of moving sums itself, without
/// any wraparound, and lies within `-bound * m^n..=bound * m^n`.
pub proof fn lemma_output_within_gain(inputs: Seq<i32>, m: nat, n: nat, k: int, bound: int)
    requires
        m > 0,
        0 <= k < inputs.len(),
        (k + 1) % (m as int) == 0,
        bound >= 0,
        forall|s: int|
            0 <= s <= k && k - n * (m - 1) <= s ==> -bound <= #[trigger] inputs[s] <= bound,
        bound * pow(m as int, n) <= i32::MAX,
    ensures
        CicState::output_at(m, n, inputs, k) == Some(cascade(signal(inputs), m, n)(k) as i32),
        -(bound * pow(m as int, n)) <= cascade(signal(inputs), m, n)(k) <= bound * pow(
            m as int,
            n,
        ),
{
    lemma_output_is_cascade_of_moving_sums(inputs, m, n, k);
    let f = signal(inputs);
    assert forall|s: int| k - n * (m - 1) <= s <= k implies -bound <= #[trigger] f(s)
        <= bound by {
        if 0 <= s {
            assert(-bound <= inputs[s] <= bound);
        }
    }
    lemma_cascade_bounded(f, m, n, k, bound);
    lemma_wrap32_identity(cascade(f, m, n)(k));
}

} // verus!
