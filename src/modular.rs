//! Integers modulo 2^64, represented by `i64` in two's complement.
use vstd::prelude::*;

verus! {

/// The number of distinct `i64` values.
pub open spec fn modulus() -> int {
    0x1_0000_0000_0000_0000
}

/// The one `i64` value congruent to `x` modulo 2^64: what wrap-around
/// arithmetic on `i64` keeps of the mathematical value `x`.
pub open spec fn wrap(x: int) -> int {
    let r = x % modulus();
    if r > i64::MAX {
        r - modulus()
    } else {
        r
    }
}

/// How many times the modulus `wrap` takes away from `x`.
spec fn wrap_quotient(x: int) -> int {
    if x % modulus() > i64::MAX {
        x / modulus() + 1
    } else {
        x / modulus()
    }
}

proof fn lemma_wrap_decompose(x: int)
    ensures
        wrap(x) == x - wrap_quotient(x) * modulus(),
        i64::MIN <= wrap(x) <= i64::MAX,
{
    let m = modulus();
    vstd::arithmetic::div_mod::lemma_fundamental_div_mod(x, m);
    vstd::arithmetic::div_mod::lemma_mod_bound(x, m);
    if x % m > i64::MAX {
        assert((x / m + 1) * m == (x / m) * m + m) by (nonlinear_arith);
    }
    assert(m * (x / m) == (x / m) * m) by (nonlinear_arith);
}

/// Adding a multiple of the modulus does not change the wrapped value.
pub proof fn lemma_wrap_shift(x: int, k: int)
    ensures
        wrap(x + k * modulus()) == wrap(x),
{
    let m = modulus();
    vstd::arithmetic::div_mod::lemma_mod_multiples_vanish(k, x, m);
    assert(m * k + x == x + k * m) by (nonlinear_arith);
}

/// A wrapped value is an `i64`.
pub proof fn lemma_wrap_range(x: int)
    ensures
        i64::MIN <= wrap(x) <= i64::MAX,
{
    lemma_wrap_decompose(x);
}

/// A value that is already an `i64` is left as it is.
pub proof fn lemma_wrap_small(x: int)
    requires
        i64::MIN <= x <= i64::MAX,
    ensures
        wrap(x) == x,
{
    let m = modulus();
    if x >= 0 {
        vstd::arithmetic::div_mod::lemma_small_mod(x as nat, m as nat);
    } else {
        lemma_wrap_shift(x + m, -1);
        vstd::arithmetic::div_mod::lemma_small_mod((x + m) as nat, m as nat);
    }
}

/// The `i64` congruent to `x` is unique.
pub proof fn lemma_wrap_unique(x: int, r: int, k: int)
    requires
        i64::MIN <= r <= i64::MAX,
        x == r + k * modulus(),
    ensures
        wrap(x) == r,
{
    lemma_wrap_shift(r, k);
    lemma_wrap_small(r);
}

pub proof fn lemma_wrap_idempotent(x: int)
    ensures
        wrap(wrap(x)) == wrap(x),
{
    lemma_wrap_decompose(x);
    lemma_wrap_small(wrap(x));
}

/// Wrapping commutes with addition.
pub proof fn lemma_wrap_add(a: int, b: int)
    ensures
        wrap(a + b) == wrap(wrap(a) + wrap(b)),
{
    lemma_wrap_decompose(a);
    lemma_wrap_decompose(b);
    let (qa, qb) = (wrap_quotient(a), wrap_quotient(b));
    assert(wrap(a) + wrap(b) + (qa + qb) * modulus() == a + b) by (nonlinear_arith)
        requires
            wrap(a) == a - qa * modulus(),
            wrap(b) == b - qb * modulus(),
    ;
    lemma_wrap_shift(wrap(a) + wrap(b), qa + qb);
}

/// Wrapping commutes with subtraction.
pub proof fn lemma_wrap_sub(a: int, b: int)
    ensures
        wrap(a - b) == wrap(wrap(a) - wrap(b)),
{
    lemma_wrap_decompose(a);
    lemma_wrap_decompose(b);
    let (qa, qb) = (wrap_quotient(a), wrap_quotient(b));
    assert(wrap(a) - wrap(b) + (qa - qb) * modulus() == a - b) by (nonlinear_arith)
        requires
            wrap(a) == a - qa * modulus(),
            wrap(b) == b - qb * modulus(),
    ;
    lemma_wrap_shift(wrap(a) - wrap(b), qa - qb);
}

proof fn lemma_product_expand(wa: int, wb: int, qa: int, qb: int, m: int)
    ensures
        (wa + qa * m) * (wb + qb * m) == wa * wb + (qa * wb + qb * wa + qa * qb * m) * m,
{
    let (p, q) = (qa * m, qb * m);
    assert((wa + p) * (wb + q) == wa * wb + wa * q + p * wb + p * q) by (nonlinear_arith);
    assert(wa * q == (qb * wa) * m) by (nonlinear_arith)
        requires
            q == qb * m,
    ;
    assert(p * wb == (qa * wb) * m) by (nonlinear_arith)
        requires
            p == qa * m,
    ;
    assert(p * q == (qa * qb * m) * m) by (nonlinear_arith)
        requires
            p == qa * m,
            q == qb * m,
    ;
    assert((qb * wa) * m + (qa * wb) * m + (qa * qb * m) * m == (qa * wb + qb * wa + qa * qb
        * m) * m) by (nonlinear_arith);
}

/// Wrapping commutes with multiplication.
pub proof fn lemma_wrap_mul(a: int, b: int)
    ensures
        wrap(a * b) == wrap(wrap(a) * wrap(b)),
{
    lemma_wrap_decompose(a);
    lemma_wrap_decompose(b);
    let (qa, qb) = (wrap_quotient(a), wrap_quotient(b));
    let (wa, wb, m) = (wrap(a), wrap(b), modulus());
    let k = qa * wb + qb * wa + qa * qb * m;
    lemma_product_expand(wa, wb, qa, qb, m);
    assert(a == wa + qa * m && b == wb + qb * m);
    lemma_wrap_shift(wa * wb, k);
}

/// `wrapping_add` on `i64` computes `wrap` of the sum.
pub proof fn lemma_wrapping_add(a: i64, b: i64)
    ensures
        a.wrapping_add(b) as int == wrap(a + b),
{
    let s = a + b;
    if s > i64::MAX {
        lemma_wrap_unique(s, s - modulus(), 1);
    } else if s < i64::MIN {
        lemma_wrap_unique(s, s + modulus(), -1);
    } else {
        lemma_wrap_small(s);
    }
}

/// `wrapping_sub` on `i64` computes `wrap` of the difference.
pub proof fn lemma_wrapping_sub(a: i64, b: i64)
    ensures
        a.wrapping_sub(b) as int == wrap(a - b),
{
    let s = a - b;
    if s > i64::MAX {
        lemma_wrap_unique(s, s - modulus(), 1);
    } else if s < i64::MIN {
        lemma_wrap_unique(s, s + modulus(), -1);
    } else {
        lemma_wrap_small(s);
    }
}

/// `wrapping_mul` on `i64` computes `wrap` of the product.
pub proof fn lemma_wrapping_mul(a: i64, b: i64)
    ensures
        a.wrapping_mul(b) as int == wrap(a * b),
{
    lemma_wrap_range(a * b);
}

} // verus!
