//! Integer base-2 logarithm, rounded down.
use vstd::prelude::*;
use vstd::arithmetic::mul::{lemma_mul_inequality, lemma_mul_strict_inequality};
use vstd::arithmetic::power::{lemma_pow_multiplies, lemma_pow_positive, pow};
use vstd::arithmetic::power2::{lemma2_to64, lemma_pow2, lemma_pow2_unfold, pow2};

verus! {

/// The base-2 logarithm of `n`, rounded down; zero for `n == 0`.
pub open spec fn floor_log2(n: nat) -> nat
    decreases n,
{
    if n <= 1 {
        0
    } else {
        1 + floor_log2(n / 2)
    }
}

/// A positive `n` lies between two consecutive powers of two, of which
/// `floor_log2(n)` is the lower exponent: `2^l <= n < 2^(l + 1)`.
pub proof fn lemma_floor_log2_brackets(n: nat)
    requires
        n > 0,
    ensures
        pow2(floor_log2(n)) <= n < pow2(floor_log2(n) + 1),
    decreases n,
{
    lemma2_to64();
    if n > 1 {
        lemma_floor_log2_brackets(n / 2);
        lemma_pow2_unfold(floor_log2(n));
        lemma_pow2_unfold(floor_log2(n) + 1);
    }
}

/// A number below `2^k` has a logarithm below `k`.
pub proof fn lemma_floor_log2_below(n: nat, k: nat)
    requires
        k > 0,
        n < pow2(k),
    ensures
        floor_log2(n) < k,
    decreases n,
{
    if n > 1 {
        lemma_pow2_unfold(k);
        if k == 1 {
            lemma2_to64();
        } else {
            lemma_floor_log2_below(n / 2, (k - 1) as nat);
        }
    }
}

/// Raising to a power keeps the order of positive bases.
proof fn lemma_pow_base_ordered(a: int, b: int, e: nat)
    requires
        0 < a <= b,
    ensures
        0 < pow(a, e) <= pow(b, e),
        e > 0 && a < b ==> pow(a, e) < pow(b, e),
    decreases e,
{
    reveal(pow);
    if e > 0 {
        let below = (e - 1) as nat;
        lemma_pow_base_ordered(a, b, below);
        lemma_pow_positive(a, e);
        lemma_mul_inequality(pow(a, below), pow(b, below), a);
        assert(a * pow(a, below) <= a * pow(b, below)) by (nonlinear_arith)
            requires
                pow(a, below) * a <= pow(b, below) * a,
        ;
        lemma_mul_inequality(a, b, pow(b, below));
        if a < b {
            lemma_mul_strict_inequality(a, b, pow(b, below));
        }
    }
}

/// The `n`-th power of a positive `m` lies between two powers of two that
/// `floor_log2(m) * n` fixes: it is at least `2^(floor_log2(m) * n)` and,
/// for positive `n`, below `2^(floor_log2(m) * n + n)`. For `m` a power of
/// two it is `2^(floor_log2(m) * n)` exactly.
pub proof fn lemma_power_brackets(m: nat, n: nat)
    requires
        m > 0,
    ensures
        pow2(floor_log2(m) * n) <= pow(m as int, n),
        n > 0 ==> pow(m as int, n) < pow2(floor_log2(m) * n + n),
        m == pow2(floor_log2(m)) ==> pow(m as int, n) == pow2(floor_log2(m) * n),
{
    let l = floor_log2(m);
    lemma_floor_log2_brackets(m);
    lemma_pow2(l);
    lemma_pow2(l + 1);
    lemma_pow2(l * n);
    lemma_pow2(l * n + n);
    lemma_pow_multiplies(2, l, n);
    lemma_pow_multiplies(2, l + 1, n);
    assert((l + 1) * n == l * n + n) by (nonlinear_arith);
    lemma_pow_positive(2, l);
    lemma_pow_base_ordered(pow(2, l), m as int, n);
    lemma_pow_base_ordered(m as int, pow(2, l + 1), n);
}

/// The base-2 logarithm of `x`, rounded down.
pub fn ilog2(x: usize) -> (r: u32)
    requires
        x > 0,
    ensures
        r == floor_log2(x as nat),
        r < usize::BITS,
{
    proof {
        lemma2_to64();
        lemma_floor_log2_below(x as nat, 64);
        if usize::BITS == 32 {
            lemma_floor_log2_below(x as nat, 32);
        }
    }
    let mut rest: usize = x;
    let mut r: u32 = 0;
    while rest > 1
        invariant
            rest > 0,
            r + floor_log2(rest as nat) == floor_log2(x as nat),
            floor_log2(x as nat) < 64,
        decreases rest,
    {
        rest = rest / 2;
        r = r + 1;
    }
    r
}

} // verus!
