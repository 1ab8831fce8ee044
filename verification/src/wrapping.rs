//! Two's-complement reduction of mathematical integers to 32-bit samples.
//!
//! Every stage of the filter adds or subtracts with wraparound. The
//! contracts in this crate describe that with one function, [`wrap32`], which
//! maps an unbounded integer to the unique `i32` congruent to it modulo 2^32.
use vstd::prelude::*;

verus! {

/// The number of distinct 32-bit values, 2^32.
pub open spec fn modulus() -> int {
    0x1_0000_0000
}

/// The `i32` that is congruent to `v` modulo 2^32.
pub open spec fn wrap32(v: int) -> i32 {
    let r = v % modulus();
    if r > i32::MAX {
        (r - modulus()) as i32
    } else {
        r as i32
    }
}

/// A value that already fits in 32 bits is left alone.
pub proof fn lemma_wrap32_identity(v: int)
    requires
        i32::MIN <= v <= i32::MAX,
    ensures
        wrap32(v) == v,
{
}

/// `wrap32(v)` differs from `v` by a multiple of 2^32.
pub proof fn lemma_wrap32_congruent(v: int)
    ensures
        (wrap32(v) - v) % modulus() == 0,
{
}

/// Adding a multiple of 2^32 does not change the reduced value.
pub proof fn lemma_wrap32_periodic(v: int, k: int)
    ensures
        wrap32(v + k * modulus()) == wrap32(v),
{
    vstd::arithmetic::div_mod::lemma_mod_multiples_vanish(k, v, modulus());
    assert(modulus() * k + v == v + k * modulus());
}

/// The multiple of 2^32 by which `wrap32(v)` differs from `v`.
pub open spec fn wraps(v: int) -> int {
    (wrap32(v) - v) / modulus()
}

/// `wrap32(v)` is `v` plus `wraps(v)` times 2^32.
pub proof fn lemma_wrap32_decompose(v: int)
    ensures
        wrap32(v) == v + wraps(v) * modulus(),
{
    lemma_wrap32_congruent(v);
    vstd::arithmetic::div_mod::lemma_fundamental_div_mod(wrap32(v) - v, modulus());
}

/// Reducing an operand early does not change a wrapped sum.
pub proof fn lemma_wrap32_add(a: int, b: int)
    ensures
        wrap32(wrap32(a) + wrap32(b)) == wrap32(a + b),
        wrap32(wrap32(a) + b) == wrap32(a + b),
        wrap32(a + wrap32(b)) == wrap32(a + b),
{
    lemma_wrap32_decompose(a);
    lemma_wrap32_decompose(b);
    let ka = wraps(a);
    let kb = wraps(b);
    assert(wrap32(a) + wrap32(b) == (a + b) + (ka + kb) * modulus()) by (nonlinear_arith)
        requires
            wrap32(a) == a + ka * modulus(),
            wrap32(b) == b + kb * modulus(),
    ;
    lemma_wrap32_periodic(a + b, ka + kb);
    lemma_wrap32_periodic(a + b, ka);
    lemma_wrap32_periodic(a + b, kb);
}

/// Reducing an operand early does not change a wrapped difference.
pub proof fn lemma_wrap32_sub(a: int, b: int)
    ensures
        wrap32(wrap32(a) - wrap32(b)) == wrap32(a - b),
        wrap32(wrap32(a) - b) == wrap32(a - b),
        wrap32(a - wrap32(b)) == wrap32(a - b),
{
    lemma_wrap32_decompose(a);
    lemma_wrap32_decompose(b);
    let ka = wraps(a);
    let kb = wraps(b);
    assert(wrap32(a) - wrap32(b) == (a - b) + (ka - kb) * modulus()) by (nonlinear_arith)
        requires
            wrap32(a) == a + ka * modulus(),
            wrap32(b) == b + kb * modulus(),
    ;
    assert(a - wrap32(b) == (a - b) + (-kb) * modulus()) by (nonlinear_arith)
        requires
            wrap32(b) == b + kb * modulus(),
    ;
    lemma_wrap32_periodic(a - b, ka - kb);
    lemma_wrap32_periodic(a - b, ka);
    lemma_wrap32_periodic(a - b, -kb);
}

} // verus!
