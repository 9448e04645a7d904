//! Forward differences of integer sequences, and the fact that makes
//! tabulation work: a polynomial with `n` coefficients, sampled along an
//! arithmetic progression, has an `n`-th difference that is zero everywhere.
use vstd::prelude::*;
use crate::polynomial::horner;

verus! {

/// The `k`-th forward difference of `f` at `t`:
/// Δ⁰f(t) = f(t) and Δᵏ⁺¹f(t) = Δᵏf(t + 1) − Δᵏf(t).
pub open spec fn difference(f: spec_fn(int) -> int, k: nat, t: int) -> int
    decreases k,
{
    if k == 0 {
        f(t)
    } else {
        difference(f, (k - 1) as nat, t + 1) - difference(f, (k - 1) as nat, t)
    }
}

/// The sequence of first differences of `f`.
pub open spec fn delta(f: spec_fn(int) -> int) -> spec_fn(int) -> int {
    |s: int| f(s + 1) - f(s)
}

/// The polynomial `c` sampled along the progression x0, x0 + h, x0 + 2h, ...:
/// the sequence whose `t`-th term is the polynomial's value at x0 + t·h.
pub open spec fn along(c: Seq<i64>, x0: int, h: int) -> spec_fn(int) -> int {
    |t: int| horner(c, x0 + t * h)
}

spec fn sum(f: spec_fn(int) -> int, g: spec_fn(int) -> int) -> spec_fn(int) -> int {
    |s: int| f(s) + g(s)
}

spec fn constant(a: int) -> spec_fn(int) -> int {
    |s: int| a
}

/// `g` multiplied term by term with the progression a, a + b, a + 2b, ... .
spec fn linear_times(a: int, b: int, g: spec_fn(int) -> int) -> spec_fn(int) -> int {
    |s: int| (a + b * s) * g(s)
}

/// Sequences equal term by term have equal differences.
pub proof fn lemma_difference_congruent(f: spec_fn(int) -> int, g: spec_fn(int) -> int, k: nat, t: int)
    requires
        forall|s: int| #[trigger] f(s) == g(s),
    ensures
        difference(f, k, t) == difference(g, k, t),
    decreases k,
{
    if k > 0 {
        lemma_difference_congruent(f, g, (k - 1) as nat, t);
        lemma_difference_congruent(f, g, (k - 1) as nat, t + 1);
    }
}

proof fn lemma_difference_sum(f: spec_fn(int) -> int, g: spec_fn(int) -> int, k: nat, t: int)
    ensures
        difference(sum(f, g), k, t) == difference(f, k, t) + difference(g, k, t),
    decreases k,
{
    if k > 0 {
        lemma_difference_sum(f, g, (k - 1) as nat, t);
        lemma_difference_sum(f, g, (k - 1) as nat, t + 1);
    }
}

proof fn lemma_difference_constant(a: int, k: nat, t: int)
    requires
        k > 0,
    ensures
        difference(constant(a), k, t) == 0,
    decreases k,
{
    reveal_with_fuel(difference, 2);
    if k > 1 {
        lemma_difference_constant(a, (k - 1) as nat, t);
        lemma_difference_constant(a, (k - 1) as nat, t + 1);
    }
}

/// The `(k + 1)`-th difference is the `k`-th difference of the first differences.
pub proof fn lemma_difference_of_delta(f: spec_fn(int) -> int, k: nat, t: int)
    ensures
        difference(f, k + 1, t) == difference(delta(f), k, t),
    decreases k,
{
    reveal_with_fuel(difference, 2);
    if k > 0 {
        lemma_difference_of_delta(f, (k - 1) as nat, t);
        lemma_difference_of_delta(f, (k - 1) as nat, t + 1);
    }
}

/// Multiplying by a progression raises by one the order of the difference
/// that vanishes.
proof fn lemma_linear_times_vanishes(a: int, b: int, g: spec_fn(int) -> int, m: nat)
    requires
        forall|t: int| #[trigger] difference(g, m, t) == 0,
    ensures
        forall|t: int| #[trigger] difference(linear_times(a, b, g), m + 1, t) == 0,
    decreases m,
{
    let f = linear_times(a, b, g);
    if m == 0 {
        assert forall|t: int| #[trigger] difference(f, m + 1, t) == 0 by {
            reveal_with_fuel(difference, 2);
            assert(difference(g, 0, t) == 0 && difference(g, 0, t + 1) == 0);
            assert(f(t) == (a + b * t) * g(t));
            assert((a + b * t) * 0 == 0);
            assert((a + b * (t + 1)) * 0 == 0);
        }
    } else {
        let dg = delta(g);
        let m1 = (m - 1) as nat;
        assert forall|t: int| #[trigger] difference(dg, m1, t) == 0 by {
            lemma_difference_of_delta(g, m1, t);
        }
        lemma_linear_times_vanishes(a + b, b, dg, m1);
        let h1 = linear_times(a + b, b, dg);
        let h2 = linear_times(b, 0, g);
        assert forall|s: int| #[trigger] delta(f)(s) == sum(h1, h2)(s) by {
            let (g0, g1) = (g(s), g(s + 1));
            assert((a + b * (s + 1)) * g1 - (a + b * s) * g0 == (a + b + b * s) * (g1 - g0) + (b
                + 0 * s) * g0) by (nonlinear_arith);
        }
        assert forall|t: int| #[trigger] difference(f, m + 1, t) == 0 by {
            lemma_difference_of_delta(f, m, t);
            lemma_difference_congruent(delta(f), sum(h1, h2), m, t);
            lemma_difference_sum(h1, h2, m, t);
            lemma_linear_times_scaled(b, g, m, t);
            assert(m1 + 1 == m);
            assert(difference(h1, m1 + 1, t) == 0);
            assert(difference(g, m, t) == 0);
        }
    }
}

/// Multiplying by a constant multiplies every difference by it.
proof fn lemma_linear_times_scaled(b: int, g: spec_fn(int) -> int, k: nat, t: int)
    ensures
        difference(linear_times(b, 0, g), k, t) == b * difference(g, k, t),
    decreases k,
{
    if k == 0 {
        assert((b + 0 * t) * g(t) == b * g(t)) by (nonlinear_arith);
    } else {
        let k1 = (k - 1) as nat;
        lemma_linear_times_scaled(b, g, k1, t);
        lemma_linear_times_scaled(b, g, k1, t + 1);
        let (d0, d1) = (difference(g, k1, t), difference(g, k1, t + 1));
        assert(b * d1 - b * d0 == b * (d1 - d0)) by (nonlinear_arith);
    }
}

/// A polynomial with `n` coefficients, sampled along any arithmetic
/// progression, has an `n`-th difference of zero everywhere.
pub proof fn lemma_polynomial_difference_vanishes(c: Seq<i64>, x0: int, h: int)
    ensures
        forall|t: int| #[trigger] difference(along(c, x0, h), c.len(), t) == 0,
    decreases c.len(),
{
    let f = along(c, x0, h);
    let n = c.len();
    if n == 0 {
        assert forall|t: int| #[trigger] difference(f, n, t) == 0 by {}
    } else {
        let g = along(c.skip(1), x0, h);
        lemma_polynomial_difference_vanishes(c.skip(1), x0, h);
        assert(c.skip(1).len() == (n - 1) as nat);
        lemma_linear_times_vanishes(x0, h, g, (n - 1) as nat);
        let lt = linear_times(x0, h, g);
        let k = constant(c[0] as int);
        assert forall|s: int| #[trigger] f(s) == sum(k, lt)(s) by {
            assert(x0 + s * h == x0 + h * s) by (nonlinear_arith);
        }
        assert forall|t: int| #[trigger] difference(f, n, t) == 0 by {
            lemma_difference_congruent(f, sum(k, lt), n, t);
            lemma_difference_sum(k, lt, n, t);
            lemma_difference_constant(c[0] as int, n, t);
            assert(((n - 1) as nat) + 1 == n);
            assert(difference(lt, ((n - 1) as nat) + 1, t) == 0);
        }
    }
}

} // verus!
