//! The tabulation engine: a table of forward differences that is rolled
//! forward one point at a time, using additions only.
use vstd::prelude::*;
use vstd::arithmetic::power::pow;
use crate::differences::{along, difference, lemma_polynomial_difference_vanishes};
use crate::modular::{
    lemma_wrap_add, lemma_wrap_idempotent, lemma_wrap_small, lemma_wrap_sub, lemma_wrapping_add,
    lemma_wrapping_sub, wrap,
};
use crate::polynomial::{
    evaluate, horner, lemma_horner_is_power_sum, lemma_power_sum_wrap_point, power_sum,
    PolynomialError,
};

verus! {

/// The `k`-th point of the progression that starts at `x0` with step `h`,
/// as `i64` arithmetic gives it.
pub open spec fn point_at(x0: int, h: int, k: int) -> int {
    wrap(x0 + k * h)
}

/// The `k`-th pair (point, value) that tabulating the polynomial `c` from
/// `x0` with step `h` produces.
pub open spec fn pair_at(c: Seq<i64>, x0: int, h: int, k: int) -> (int, int) {
    (point_at(x0, h, k), wrap(power_sum(c, x0 + k * h)))
}

/// The `count` pairs from the `start`-th on.
pub open spec fn pairs_from(c: Seq<i64>, x0: int, h: int, start: int, count: nat) -> Seq<(int, int)> {
    Seq::new(count, |i: int| pair_at(c, x0, h, start + i))
}

/// A pair of `i64` seen as a pair of integers.
pub open spec fn pair_view(p: (i64, i64)) -> (int, int) {
    (p.0 as int, p.1 as int)
}

/// The entry that the difference table holds at `i` once the differences of
/// every order up to `order` have been taken.
spec fn partial_table(f: spec_fn(int) -> int, i: int, order: int) -> int {
    if i <= order {
        wrap(difference(f, i as nat, 0))
    } else {
        wrap(difference(f, order as nat, i - order))
    }
}

/// Yields the values of a polynomial at the points of an arithmetic
/// progression x0, x0 + h, x0 + 2h, ... . After a setup that evaluates the
/// polynomial at as many points as it has coefficients, each further value
/// costs one addition per coefficient and no multiplication.
///
/// The sequence is in principle infinite. Arithmetic wraps around as `i64`
/// arithmetic does, so every value is exact modulo 2^64.
///
/// The method is Knuth's "tabulating polynomial values" (TAOCP 4.6.4).
pub struct PolynomialEvaluator {
    state: Vec<i64>,
    first: bool,
    input: i64,
    step: i64,
    coefficients: Ghost<Seq<i64>>,
    initial: Ghost<i64>,
    pulled: Ghost<nat>,
}

impl PolynomialEvaluator {
    /// The polynomial's coefficients, lowest degree first.
    pub closed spec fn coefficients(&self) -> Seq<i64> {
        self.coefficients@
    }

    /// The first point of the progression.
    pub closed spec fn initial(&self) -> int {
        self.initial@ as int
    }

    /// The distance between successive points.
    pub closed spec fn step(&self) -> int {
        self.step as int
    }

    /// How many pairs have been pulled so far.
    pub closed spec fn pulled(&self) -> nat {
        self.pulled@
    }

    /// The index of the point that the table currently stands at.
    spec fn position(&self) -> int {
        if self.first {
            0
        } else {
            self.pulled@ - 1
        }
    }

    /// The polynomial sampled along the progression.
    spec fn samples(&self) -> spec_fn(int) -> int {
        along(self.coefficients@, self.initial@ as int, self.step as int)
    }

    /// The table holds, at each index `j`, the `j`-th difference of the
    /// samples at the current position, and the input is the current point.
    pub closed spec fn wf(&self) -> bool {
        &&& self.state.len() == self.coefficients@.len()
        &&& self.state.len() >= 1
        &&& self.first <==> self.pulled@ == 0
        &&& self.input as int == point_at(self.initial@ as int, self.step as int, self.position())
        &&& forall|j: int|
            0 <= j < self.state.len() ==> #[trigger] self.state[j] as int == wrap(
                difference(self.samples(), j as nat, self.position()),
            )
    }

    /// Builds the evaluator of the polynomial with coefficients
    /// `coefficients` on the points `initial`, `initial + step`,
    /// `initial + 2·step`, ... . Fails with `EmptyPolynomial` exactly when
    /// there are no coefficients.
    pub fn new(coefficients: &[i64], initial: i64, step: i64) -> (r: Result<Self, PolynomialError>)
        ensures
            coefficients@.len() == 0 ==> r == Err::<Self, PolynomialError>(
                PolynomialError::EmptyPolynomial,
            ),
            coefficients@.len() > 0 ==> r is Ok && ({
                let e = r->Ok_0;
                &&& e.wf()
                &&& e.coefficients() == coefficients@
                &&& e.initial() == initial as int
                &&& e.step() == step as int
                &&& e.pulled() == 0
            }),
    {
        let n = coefficients.len();
        if n == 0 {
            return Err(PolynomialError::EmptyPolynomial);
        }
        let ghost c = coefficients@;
        let ghost f = along(c, initial as int, step as int);
        let mut state: Vec<i64> = Vec::with_capacity(n);
        let mut x = initial;
        let mut k: usize = 0;
        proof {
            lemma_wrap_small(initial as int);
        }
        while k < n
            invariant
                k <= n,
                n == c.len(),
                c == coefficients@,
                f == along(c, initial as int, step as int),
                state.len() == k,
                x as int == wrap(initial + k * step),
                forall|i: int| 0 <= i < k ==> #[trigger] state[i] as int == wrap(f(i)),
            decreases n - k,
        {
            let y = match evaluate(coefficients, &x) {
                Ok(y) => y,
                Err(e) => return Err(e),
            };
            proof {
                let p = initial + k * step;
                lemma_power_sum_wrap_point(c, p);
                lemma_horner_is_power_sum(c, p);
                assert(f(k as int) == horner(c, p));
            }
            state.push(y);
            let ghost prev = x;
            x = x.wrapping_add(step);
            proof {
                let p = initial + k * step;
                lemma_wrapping_add(prev, step);
                lemma_wrap_small(step as int);
                lemma_wrap_add(p, step as int);
                lemma_wrap_idempotent(p);
                assert(p + step == initial + (k + 1) * step) by (nonlinear_arith)
                    requires
                        p == initial + k * step,
                ;
            }
            k += 1;
        }
        difference_table(&mut state, Ghost(f));
        let e = PolynomialEvaluator {
            state,
            first: true,
            input: initial,
            step,
            coefficients: Ghost(c),
            initial: Ghost(initial),
            pulled: Ghost(0),
        };
        assert(e.samples() == f);
        Ok(e)
    }

    /// The next pair (point, value). The first call gives the initial point
    /// and its value as the setup computed them; each later call rolls the
    /// table forward by one point and adds the step to the point. Never
    /// `None`: the sequence has no end.
    pub fn next(&mut self) -> (r: Option<(i64, i64)>)
        requires
            old(self).wf(),
        ensures
            final(self).wf(),
            final(self).coefficients() == old(self).coefficients(),
            final(self).initial() == old(self).initial(),
            final(self).step() == old(self).step(),
            final(self).pulled() == old(self).pulled() + 1,
            r is Some,
            pair_view(r->Some_0) == pair_at(
                old(self).coefficients(),
                old(self).initial(),
                old(self).step(),
                old(self).pulled() as int,
            ),
            r->Some_0.1 as int == wrap(power_sum(old(self).coefficients(), r->Some_0.0 as int)),
    {
        let ghost c = self.coefficients@;
        let ghost x0 = self.initial@ as int;
        let ghost h = self.step as int;
        let ghost k = self.pulled@ as int;
        if self.first {
            self.first = false;
        } else {
            let ghost t = self.position();
            let ghost f = self.samples();
            proof {
                lemma_polynomial_difference_vanishes(c, x0, h);
            }
            roll_forward(&mut self.state, Ghost(f), Ghost(t));
            let ghost prev = self.input;
            self.input = self.input.wrapping_add(self.step);
            proof {
                let p = x0 + t * h;
                lemma_wrapping_add(prev, self.step);
                lemma_wrap_small(h);
                lemma_wrap_add(p, h);
                lemma_wrap_idempotent(p);
                assert(p + h == x0 + (t + 1) * h) by (nonlinear_arith)
                    requires
                        p == x0 + t * h,
                ;
            }
        }
        self.pulled = Ghost((self.pulled@ + 1) as nat);
        proof {
            assert(self.position() == k);
            assert(self.state[0] as int == wrap(difference(self.samples(), 0, k)));
            lemma_horner_is_power_sum(c, x0 + k * h);
            lemma_pair_value_at_point(c, x0, h, k);
        }
        Some((self.input, self.state[0]))
    }

    /// The next `count` pairs, as `count` calls of `next` would give them.
    pub fn take(self, count: usize) -> (r: Vec<(i64, i64)>)
        requires
            self.wf(),
        ensures
            r@.map_values(|p: (i64, i64)| pair_view(p)) == pairs_from(
                self.coefficients(),
                self.initial(),
                self.step(),
                self.pulled() as int,
                count as nat,
            ),
    {
        let ghost c = self.coefficients();
        let ghost x0 = self.initial();
        let ghost h = self.step();
        let ghost start = self.pulled() as int;
        let mut e = self;
        let mut out: Vec<(i64, i64)> = Vec::with_capacity(count);
        let mut i: usize = 0;
        while i < count
            invariant
                i <= count,
                e.wf(),
                e.coefficients() == c,
                e.initial() == x0,
                e.step() == h,
                e.pulled() == start + i,
                out.len() == i,
                forall|j: int| 0 <= j < i ==> #[trigger] pair_view(out[j]) == pair_at(c, x0, h, start + j),
            decreases count - i,
        {
            if let Some(p) = e.next() {
                out.push(p);
            }
            i += 1;
        }
        assert(out@.map_values(|p: (i64, i64)| pair_view(p)) =~= pairs_from(c, x0, h, start, count as nat));
        out
    }
}

/// Turns the samples f(0), ..., f(n - 1) into their forward differences at
/// zero, in place: afterwards entry `j` holds the `j`-th difference.
/// Each order is taken from the top index down, so that the entry below is
/// still of the previous order when it is subtracted.
fn difference_table(state: &mut Vec<i64>, f: Ghost<spec_fn(int) -> int>)
    requires
        forall|i: int| 0 <= i < old(state).len() ==> #[trigger] old(state)[i] as int == wrap(f@(i)),
    ensures
        final(state).len() == old(state).len(),
        forall|j: int|
            0 <= j < final(state).len() ==> #[trigger] final(state)[j] as int == wrap(
                difference(f@, j as nat, 0),
            ),
{
    let n = state.len();
    let mut k: usize = 1;
    assert forall|i: int| 0 <= i < n implies #[trigger] state[i] as int == partial_table(f@, i, 0)
        by {}
    while k < n
        invariant
            1 <= k <= n || n == 0,
            state.len() == n,
            forall|i: int| 0 <= i < n ==> #[trigger] state[i] as int == partial_table(f@, i, k - 1),
        decreases n - k,
    {
        let mut j: usize = n;
        while j > k
            invariant
                1 <= k <= j <= n,
                state.len() == n,
                forall|i: int| j <= i < n ==> #[trigger] state[i] as int == partial_table(f@, i, k as int),
                forall|i: int| 0 <= i < j ==> #[trigger] state[i] as int == partial_table(f@, i, k - 1),
            decreases j,
        {
            j -= 1;
            let (hi, lo) = (state[j], state[j - 1]);
            proof {
                let a = difference(f@, (k - 1) as nat, j - k + 1);
                let b = difference(f@, (k - 1) as nat, j - k);
                assert(hi as int == wrap(a));
                assert(lo as int == wrap(b));
                assert(difference(f@, k as nat, j - k) == a - b);
                lemma_wrapping_sub(hi, lo);
                lemma_wrap_sub(a, b);
            }
            state.set(j, hi.wrapping_sub(lo));
        }
        k += 1;
    }
    assert forall|j: int| 0 <= j < n implies #[trigger] state[j] as int == wrap(difference(f@, j as nat, 0)) by {
        assert(state[j] as int == partial_table(f@, j, n - 1));
    }
}

/// Moves the table from the differences at `t` to those at `t + 1`, in
/// place: each entry takes in the one above it, from the bottom index up, so
/// that the entry above is still the one at `t` when it is added. The top
/// entry stays, as the next order of difference is zero.
fn roll_forward(state: &mut Vec<i64>, f: Ghost<spec_fn(int) -> int>, t: Ghost<int>)
    requires
        old(state).len() >= 1,
        forall|i: int|
            0 <= i < old(state).len() ==> #[trigger] old(state)[i] as int == wrap(
                difference(f@, i as nat, t@),
            ),
        forall|s: int| #[trigger] difference(f@, old(state).len() as nat, s) == 0,
    ensures
        final(state).len() == old(state).len(),
        forall|i: int|
            0 <= i < final(state).len() ==> #[trigger] final(state)[i] as int == wrap(
                difference(f@, i as nat, t@ + 1),
            ),
{
    let n = state.len();
    let mut j: usize = 0;
    while j + 1 < n
        invariant
            j < n,
            state.len() == n,
            forall|i: int| 0 <= i < j ==> #[trigger] state[i] as int == wrap(difference(f@, i as nat, t@ + 1)),
            forall|i: int| j <= i < n ==> #[trigger] state[i] as int == wrap(difference(f@, i as nat, t@)),
            forall|s: int| #[trigger] difference(f@, n as nat, s) == 0,
        decreases n - j,
    {
        let (lo, hi) = (state[j], state[j + 1]);
        proof {
            let a = difference(f@, j as nat, t@);
            let b = difference(f@, (j + 1) as nat, t@);
            assert(b == difference(f@, j as nat, t@ + 1) - a);
            lemma_wrapping_add(lo, hi);
            lemma_wrap_add(a, b);
        }
        state.set(j, lo.wrapping_add(hi));
        j += 1;
    }
    proof {
        let top = (n - 1) as nat;
        assert(difference(f@, n as nat, t@) == difference(f@, top, t@ + 1) - difference(f@, top, t@));
    }
}

/// The value in every pair is the polynomial's value at the point of that
/// pair, as `evaluate` computes it there.
pub proof fn lemma_pair_value_at_point(c: Seq<i64>, x0: int, h: int, k: int)
    ensures
        pair_at(c, x0, h, k).1 == wrap(power_sum(c, pair_at(c, x0, h, k).0)),
{
    lemma_power_sum_wrap_point(c, x0 + k * h);
}

/// A polynomial with a single coefficient tabulates to that coefficient at
/// every point, whatever the start, the step and the index.
pub proof fn lemma_constant_polynomial(c: Seq<i64>, x0: int, h: int, k: int)
    requires
        c.len() == 1,
    ensures
        pair_at(c, x0, h, k).1 == c[0],
{
    let x = x0 + k * h;
    assert(pow(x, 0) == 1) by {
        reveal(pow);
    }
    assert(c.drop_last().len() == 0);
    assert(power_sum(c, x) == power_sum(c.drop_last(), x) + c.last() * pow(x, 0));
    lemma_wrap_small(c[0] as int);
}

/// Pulling `m` pairs and then `n` more from one evaluator gives the same
/// pairs as pulling `m + n` from a freshly built one: what comes out depends
/// only on the polynomial, the start, the step and how many pairs came before.
pub proof fn lemma_pulls_concatenate(c: Seq<i64>, x0: int, h: int, m: nat, n: nat)
    ensures
        pairs_from(c, x0, h, 0, m) + pairs_from(c, x0, h, m as int, n) == pairs_from(
            c,
            x0,
            h,
            0,
            m + n,
        ),
{
    assert(pairs_from(c, x0, h, 0, m) + pairs_from(c, x0, h, m as int, n) =~= pairs_from(
        c,
        x0,
        h,
        0,
        m + n,
    ));
}

/// A live evaluator never gives an earlier pair again: two pulls of one
/// evaluator differ in their points, unless the steps between them add up to
/// a multiple of 2^64 (a step of zero, or a progression that wraps around).
pub proof fn lemma_pulls_never_repeat(c: Seq<i64>, x0: int, h: int, a: int, b: int)
    requires
        0 <= a < b,
        wrap((b - a) * h) != 0,
    ensures
        pair_at(c, x0, h, a) != pair_at(c, x0, h, b),
{
    let (pa, pb) = (x0 + a * h, x0 + b * h);
    assert(pb - pa == (b - a) * h) by (nonlinear_arith)
        requires
            pa == x0 + a * h,
            pb == x0 + b * h,
    ;
    lemma_wrap_sub(pb, pa);
    lemma_wrap_small(0);
}

} // verus!
