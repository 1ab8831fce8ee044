//! Discrete-time signals over the unbounded integers, and the algebra of
//! running sums, delayed differences and moving sums on them.
//!
//! A signal gives a value to every integer time; the signals of interest are
//! zero before time zero.
use vstd::prelude::*;
use vstd::arithmetic::power::{lemma_pow0, pow};

verus! {

/// The signal that holds the samples of `inputs` at times `0`, `1`, ... and
/// zero at every other time.
pub open spec fn signal(inputs: Seq<i32>) -> spec_fn(int) -> int {
    |t: int|
        if 0 <= t < inputs.len() {
            inputs[t] as int
        } else {
            0
        }
}

/// A signal is causal when it is zero at every negative time.
pub open spec fn causal(f: spec_fn(int) -> int) -> bool {
    forall|t: int| t < 0 ==> #[trigger] f(t) == 0
}

/// The sum of `f` over the times `0..=t`.
pub open spec fn prefix_sum(f: spec_fn(int) -> int, t: int) -> int
    decreases
            (if t < 0 {
                0
            } else {
                t + 1
            }),
{
    if t < 0 {
        0
    } else {
        prefix_sum(f, t - 1) + f(t)
    }
}

/// The sum of `f` over the `width` times that end with `t`.
pub open spec fn window_sum(f: spec_fn(int) -> int, t: int, width: nat) -> int
    decreases width,
{
    if width == 0 {
        0
    } else {
        window_sum(f, t - 1, (width - 1) as nat) + f(t)
    }
}

/// The running sum of `f`: what an ideal integrator makes of it.
pub open spec fn integrated(f: spec_fn(int) -> int) -> spec_fn(int) -> int {
    |t: int| prefix_sum(f, t)
}

/// `f` minus `f` delayed by `delay`: what an ideal comb makes of it.
pub open spec fn combed(f: spec_fn(int) -> int, delay: int) -> spec_fn(int) -> int {
    |t: int| f(t) - f(t - delay)
}

/// The moving sum of `f` over windows of `width` samples.
pub open spec fn moving_sum(f: spec_fn(int) -> int, width: nat) -> spec_fn(int) -> int {
    |t: int| window_sum(f, t, width)
}

/// `f` integrated `times` times over.
pub open spec fn integrated_n(f: spec_fn(int) -> int, times: nat) -> spec_fn(int) -> int
    decreases times,
{
    if times == 0 {
        f
    } else {
        integrated(integrated_n(f, (times - 1) as nat))
    }
}

/// `f` combed `times` times over with the same delay.
pub open spec fn combed_n(f: spec_fn(int) -> int, delay: int, times: nat) -> spec_fn(int) -> int
    decreases times,
{
    if times == 0 {
        f
    } else {
        combed(combed_n(f, delay, (times - 1) as nat), delay)
    }
}

/// `f` put through a cascade of `times` moving sums of the same width.
pub open spec fn cascade(f: spec_fn(int) -> int, width: nat, times: nat) -> spec_fn(int) -> int
    decreases times,
{
    if times == 0 {
        f
    } else {
        moving_sum(cascade(f, width, (times - 1) as nat), width)
    }
}

/// The signal of a sample sequence is causal.
pub proof fn lemma_signal_causal(inputs: Seq<i32>)
    ensures
        causal(signal(inputs)),
{
}

/// Integrating keeps a signal causal.
pub proof fn lemma_integrated_causal(f: spec_fn(int) -> int)
    ensures
        causal(integrated(f)),
{
}

/// Combing with a delay that is not negative keeps a signal causal.
pub proof fn lemma_combed_causal(f: spec_fn(int) -> int, delay: int)
    requires
        causal(f),
        delay >= 0,
    ensures
        causal(combed(f, delay)),
{
    assert forall|t: int| t < 0 implies #[trigger] combed(f, delay)(t) == 0 by {
        assert(f(t) == 0);
        assert(f(t - delay) == 0);
    }
}

/// Repeated integration keeps a signal causal.
pub proof fn lemma_integrated_n_causal(f: spec_fn(int) -> int, times: nat)
    requires
        causal(f),
    ensures
        causal(integrated_n(f, times)),
    decreases times,
{
    if times > 0 {
        lemma_integrated_causal(integrated_n(f, (times - 1) as nat));
    }
}

/// Repeated combing keeps a signal causal.
pub proof fn lemma_combed_n_causal(f: spec_fn(int) -> int, delay: int, times: nat)
    requires
        causal(f),
        delay >= 0,
    ensures
        causal(combed_n(f, delay, times)),
    decreases times,
{
    if times > 0 {
        lemma_combed_n_causal(f, delay, (times - 1) as nat);
        lemma_combed_causal(combed_n(f, delay, (times - 1) as nat), delay);
    }
}

/// The sum over a window is the difference of two running sums.
pub proof fn lemma_window_is_difference(f: spec_fn(int) -> int, t: int, width: nat)
    requires
        causal(f),
    ensures
        window_sum(f, t, width) == prefix_sum(f, t) - prefix_sum(f, t - width),
    decreases width,
{
    if width > 0 {
        lemma_window_is_difference(f, t - 1, (width - 1) as nat);
        if t < 0 {
            assert(f(t) == 0);
        }
    }
}

/// A moving sum is an integrator followed by a comb whose delay is the
/// width of the window.
pub proof fn lemma_moving_sum_is_integrate_then_comb(f: spec_fn(int) -> int, width: nat)
    requires
        causal(f),
    ensures
        moving_sum(f, width) == combed(integrated(f), width as int),
{
    assert forall|t: int| #[trigger]
        moving_sum(f, width)(t) == combed(integrated(f), width as int)(t) by {
        lemma_window_is_difference(f, t, width);
    }
    assert(moving_sum(f, width) =~= combed(integrated(f), width as int));
}

/// A moving sum keeps a signal causal.
pub proof fn lemma_moving_sum_causal(f: spec_fn(int) -> int, width: nat)
    requires
        causal(f),
    ensures
        causal(moving_sum(f, width)),
{
    lemma_moving_sum_is_integrate_then_comb(f, width);
    lemma_integrated_causal(f);
    lemma_combed_causal(integrated(f), width as int);
}

/// A cascade of moving sums keeps a signal causal.
pub proof fn lemma_cascade_causal(f: spec_fn(int) -> int, width: nat, times: nat)
    requires
        causal(f),
    ensures
        causal(cascade(f, width, times)),
    decreases times,
{
    if times > 0 {
        lemma_cascade_causal(f, width, (times - 1) as nat);
        lemma_moving_sum_causal(cascade(f, width, (times - 1) as nat), width);
    }
}

/// The running sum of a combed signal, at one time.
proof fn lemma_prefix_sum_of_combed(f: spec_fn(int) -> int, delay: int, t: int)
    requires
        causal(f),
        delay >= 0,
    ensures
        prefix_sum(combed(f, delay), t) == prefix_sum(f, t) - prefix_sum(f, t - delay),
    decreases
            (if t < 0 {
                0
            } else {
                t + 1
            }),
{
    if t >= 0 {
        lemma_prefix_sum_of_combed(f, delay, t - 1);
        if t - delay < 0 {
            assert(f(t - delay) == 0);
        }
    }
}

/// Integrating and combing commute on causal signals.
pub proof fn lemma_integrate_comb_commute(f: spec_fn(int) -> int, delay: int)
    requires
        causal(f),
        delay >= 0,
    ensures
        integrated(combed(f, delay)) == combed(integrated(f), delay),
{
    assert forall|t: int| #[trigger]
        integrated(combed(f, delay))(t) == combed(integrated(f), delay)(t) by {
        lemma_prefix_sum_of_combed(f, delay, t);
    }
    assert(integrated(combed(f, delay)) =~= combed(integrated(f), delay));
}

/// An integrator may be moved behind any number of combs.
pub proof fn lemma_integrate_combed_n_commute(f: spec_fn(int) -> int, delay: int, times: nat)
    requires
        causal(f),
        delay >= 0,
    ensures
        combed_n(integrated(f), delay, times) == integrated(combed_n(f, delay, times)),
    decreases times,
{
    if times > 0 {
        let fewer = (times - 1) as nat;
        lemma_integrate_combed_n_commute(f, delay, fewer);
        lemma_combed_n_causal(f, delay, fewer);
        lemma_integrate_comb_commute(combed_n(f, delay, fewer), delay);
    }
}

/// `n` integrators followed by `n` combs of delay `width` are a cascade of
/// `n` moving sums of that width.
pub proof fn lemma_integrators_then_combs_are_cascade(
    f: spec_fn(int) -> int,
    width: nat,
    times: nat,
)
    requires
        causal(f),
    ensures
        combed_n(integrated_n(f, times), width as int, times) == cascade(f, width, times),
    decreases times,
{
    if times > 0 {
        let fewer = (times - 1) as nat;
        let inner = integrated_n(f, fewer);
        lemma_integrators_then_combs_are_cascade(f, width, fewer);
        lemma_integrated_n_causal(f, fewer);
        lemma_integrate_combed_n_commute(inner, width as int, fewer);
        lemma_cascade_causal(f, width, fewer);
        lemma_moving_sum_is_integrate_then_comb(cascade(f, width, fewer), width);
    }
}

/// The sum over a window on which the signal is constant.
pub proof fn lemma_window_of_constant(f: spec_fn(int) -> int, t: int, width: nat, value: int)
    requires
        forall|s: int| t - width < s <= t ==> #[trigger] f(s) == value,
    ensures
        window_sum(f, t, width) == width * value,
    decreases width,
{
    if width == 0 {
        assert(width * value == 0) by (nonlinear_arith)
            requires
                width == 0,
        ;
    } else {
        let narrower = (width - 1) as nat;
        lemma_window_of_constant(f, t - 1, narrower, value);
        assert(f(t) == value);
        assert(narrower * value + value == width * value) by (nonlinear_arith)
            requires
                narrower + 1 == width,
        ;
    }
}

/// A cascade of `times` moving sums of width `width` looks back over
/// `times * (width - 1)` earlier samples. Where the signal was constant over
/// that span, the cascade gives the constant times `width^times`.
pub proof fn lemma_cascade_of_constant(
    f: spec_fn(int) -> int,
    width: nat,
    times: nat,
    t: int,
    value: int,
)
    requires
        width > 0,
        forall|s: int| t - times * (width - 1) <= s <= t ==> #[trigger] f(s) == value,
    ensures
        cascade(f, width, times)(t) == value * pow(width as int, times),
    decreases times,
{
    if times == 0 {
        lemma_pow0(width as int);
        assert(f(t) == value);
    } else {
        let fewer = (times - 1) as nat;
        let inner = cascade(f, width, fewer);
        let settled = value * pow(width as int, fewer);
        assert forall|s: int| t - width < s <= t implies #[trigger] inner(s) == settled by {
            assert(fewer * (width - 1) + (width - 1) == times * (width - 1))
                by (nonlinear_arith)
                requires
                    fewer + 1 == times,
            ;
            lemma_cascade_of_constant(f, width, fewer, s, value);
        }
        lemma_window_of_constant(inner, t, width, settled);
        reveal(pow);
        assert(width * (value * pow(width as int, fewer)) == value * (width * pow(
            width as int,
            fewer,
        ))) by (nonlinear_arith);
    }
}

/// The sum over a window on which the signal stays within `-bound..=bound`.
pub proof fn lemma_window_bounded(f: spec_fn(int) -> int, t: int, width: nat, bound: int)
    requires
        forall|s: int| t - width < s <= t ==> -bound <= #[trigger] f(s) <= bound,
    ensures
        -(width * bound) <= window_sum(f, t, width) <= width * bound,
    decreases width,
{
    if width == 0 {
        assert(width * bound == 0) by (nonlinear_arith)
            requires
                width == 0,
        ;
    } else {
        let narrower = (width - 1) as nat;
        lemma_window_bounded(f, t - 1, narrower, bound);
        assert(-bound <= f(t) <= bound);
        assert(narrower * bound + bound == width * bound) by (nonlinear_arith)
            requires
                narrower + 1 == width,
        ;
    }
}

/// Where the signal stayed within `-bound..=bound` over the span that a
/// cascade looks back on, the cascade stays within that range times
/// `width^times`.
pub proof fn lemma_cascade_bounded(
    f: spec_fn(int) -> int,
    width: nat,
    times: nat,
    t: int,
    bound: int,
)
    requires
        width > 0,
        forall|s: int| t - times * (width - 1) <= s <= t ==> -bound <= #[trigger] f(s) <= bound,
    ensures
        -(bound * pow(width as int, times)) <= cascade(f, width, times)(t) <= bound * pow(
            width as int,
            times,
        ),
    decreases times,
{
    if times == 0 {
        lemma_pow0(width as int);
        assert(-bound <= f(t) <= bound);
    } else {
        let fewer = (times - 1) as nat;
        let inner = cascade(f, width, fewer);
        let reach = bound * pow(width as int, fewer);
        assert forall|s: int| t - width < s <= t implies -reach <= #[trigger] inner(s)
            <= reach by {
            assert(fewer * (width - 1) + (width - 1) == times * (width - 1))
                by (nonlinear_arith)
                requires
                    fewer + 1 == times,
            ;
            lemma_cascade_bounded(f, width, fewer, s, bound);
        }
        lemma_window_bounded(inner, t, width, reach);
        reveal(pow);
        assert(width * (bound * pow(width as int, fewer)) == bound * (width * pow(
            width as int,
            fewer,
        ))) by (nonlinear_arith);
    }
}

} // verus!
