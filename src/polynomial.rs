//! Polynomials given by their coefficients, lowest degree first, and their
//! evaluation at one point by Horner's rule.
use vstd::prelude::*;
use vstd::arithmetic::power::pow;
use crate::modular::{
    lemma_wrap_add, lemma_wrap_idempotent, lemma_wrap_mul, lemma_wrap_small, lemma_wrapping_add,
    lemma_wrapping_mul, wrap,
};

verus! {

/// The one way in which building or evaluating a polynomial can fail.
#[derive(Debug, Clone, Copy, PartialEq, Eq, Structural)]
pub enum PolynomialError {
    /// The coefficient sequence was empty.
    EmptyPolynomial,
}

/// The value of the polynomial with coefficients `c` at `x`, as the sum of
/// its terms: c[0] + c[1]·x + c[2]·x² + ... .
pub open spec fn power_sum(c: Seq<i64>, x: int) -> int
    decreases c.len(),
{
    if c.len() == 0 {
        0
    } else {
        power_sum(c.drop_last(), x) + c.last() * pow(x, (c.len() - 1) as nat)
    }
}

/// The same value in nested form: c[0] + x·(c[1] + x·(c[2] + ...)).
pub open spec fn horner(c: Seq<i64>, x: int) -> int
    decreases c.len(),
{
    if c.len() == 0 {
        0
    } else {
        c[0] + x * horner(c.skip(1), x)
    }
}

/// Splitting off the constant term of the sum of terms.
proof fn lemma_power_sum_head(c: Seq<i64>, x: int)
    requires
        c.len() > 0,
    ensures
        power_sum(c, x) == c[0] + x * power_sum(c.skip(1), x),
    decreases c.len(),
{
    let n = c.len();
    if n == 1 {
        assert(c.drop_last().len() == 0);
        assert(c.skip(1).len() == 0);
        assert(pow(x, 0) == 1) by {
            reveal(pow);
        }
        assert(power_sum(c, x) == power_sum(c.drop_last(), x) + c.last() * pow(x, 0));
        assert(c.last() == c[0]);
    } else {
        let d = c.drop_last();
        lemma_power_sum_head(d, x);
        assert(c.skip(1).drop_last() =~= d.skip(1));
        assert(c.skip(1).last() == c.last());
        assert(d[0] == c[0]);
        let p = pow(x, (n - 2) as nat);
        assert(pow(x, (n - 1) as nat) == x * p) by {
            reveal(pow);
        }
        let t = power_sum(d.skip(1), x);
        assert(power_sum(c.skip(1), x) == t + c.last() * p);
        assert(power_sum(c, x) == power_sum(d, x) + c.last() * pow(x, (n - 1) as nat));
        assert(x * (t + c.last() * p) == x * t + c.last() * (x * p)) by (nonlinear_arith);
    }
}

/// Horner's nested form and the sum of terms are the same polynomial value.
pub proof fn lemma_horner_is_power_sum(c: Seq<i64>, x: int)
    ensures
        horner(c, x) == power_sum(c, x),
    decreases c.len(),
{
    if c.len() > 0 {
        lemma_horner_is_power_sum(c.skip(1), x);
        lemma_power_sum_head(c, x);
    }
}

/// Evaluating at a wrapped point gives the same wrapped value as at the point
/// itself.
pub proof fn lemma_horner_wrap_point(c: Seq<i64>, x: int)
    ensures
        wrap(horner(c, wrap(x))) == wrap(horner(c, x)),
    decreases c.len(),
{
    if c.len() > 0 {
        let w = wrap(x);
        let t = c.skip(1);
        lemma_horner_wrap_point(t, x);
        let (hw, hx) = (horner(t, w), horner(t, x));
        lemma_wrap_add(c[0] as int, w * hw);
        lemma_wrap_add(c[0] as int, x * hx);
        lemma_wrap_mul(w, hw);
        lemma_wrap_mul(x, hx);
        lemma_wrap_idempotent(x);
    }
}

/// The polynomial's value, reduced to an `i64`, is the same at a point and at
/// that point reduced to an `i64`.
pub proof fn lemma_power_sum_wrap_point(c: Seq<i64>, x: int)
    ensures
        wrap(power_sum(c, wrap(x))) == wrap(power_sum(c, x)),
{
    lemma_horner_wrap_point(c, x);
    lemma_horner_is_power_sum(c, x);
    lemma_horner_is_power_sum(c, wrap(x));
}

/// The value of the polynomial with coefficients `coefficients` at `input`,
/// by Horner's rule: one multiplication and one addition per coefficient
/// after the highest. Fails with `EmptyPolynomial` exactly when there are no
/// coefficients.
pub fn evaluate(coefficients: &[i64], input: &i64) -> (r: Result<i64, PolynomialError>)
    ensures
        coefficients@.len() == 0 ==> r == Err::<i64, PolynomialError>(
            PolynomialError::EmptyPolynomial,
        ),
        coefficients@.len() > 0 ==> r is Ok && r->Ok_0 as int == wrap(
            power_sum(coefficients@, *input as int),
        ),
{
    let n = coefficients.len();
    if n == 0 {
        return Err(PolynomialError::EmptyPolynomial);
    }
    let ghost c = coefficients@;
    let ghost x = *input as int;
    proof {
        lemma_horner_is_power_sum(c, x);
    }
    if n == 1 {
        proof {
            assert(c.skip(1).len() == 0);
            assert(horner(c.skip(1), x) == 0);
            assert(horner(c, x) == c[0]);
            lemma_wrap_small(c[0] as int);
        }
        return Ok(coefficients[0]);
    }
    let mut acc = coefficients[n - 1];
    let mut i: usize = n - 1;
    proof {
        let s = c.subrange(i as int, n as int);
        assert(s.skip(1).len() == 0);
        assert(horner(s.skip(1), x) == 0);
        assert(s[0] == c[n - 1]);
        assert(horner(s, x) == c[n - 1]);
        lemma_wrap_small(acc as int);
    }
    while i > 0
        invariant
            0 <= i < n,
            n == c.len(),
            c == coefficients@,
            x == *input as int,
            acc as int == wrap(horner(c.subrange(i as int, n as int), x)),
        decreases i,
    {
        i -= 1;
        let ghost prev = acc;
        let ghost h = horner(c.subrange(i + 1, n as int), x);
        acc = acc.wrapping_mul(*input).wrapping_add(coefficients[i]);
        proof {
            let s = c.subrange(i as int, n as int);
            assert(s.skip(1) =~= c.subrange(i + 1, n as int));
            assert(horner(s, x) == c[i as int] + x * h);
            lemma_wrapping_mul(prev, *input);
            let m = prev.wrapping_mul(*input);
            lemma_wrapping_add(m, coefficients[i as int]);
            // acc == wrap(wrap(prev * x) + c[i]) == wrap(prev * x + c[i])
            lemma_wrap_small(coefficients[i as int] as int);
            lemma_wrap_add(prev * x, c[i as int] as int);
            lemma_wrap_idempotent(prev * x);
            // prev * x wraps like h * x
            lemma_wrap_mul(h, x);
            lemma_wrap_small(x);
            lemma_wrap_small(prev as int);
            lemma_wrap_mul(prev as int, x);
            lemma_wrap_add(x * h, c[i as int] as int);
            lemma_wrap_idempotent(h * x);
            assert(x * h == h * x) by (nonlinear_arith);
            assert(prev * x == x * prev) by (nonlinear_arith);
        }
    }
    assert(c.subrange(0, n as int) =~= c);
    Ok(acc)
}

} // verus!
