//! Finite sums of complex numbers, and what they keep.

use crate::complex::{negated, sum, Gaussian};
use vstd::arithmetic::div_mod::{lemma_add_mod_noop, lemma_mod_bound, lemma_small_mod};
use vstd::prelude::*;

verus! {

/// The number zero.
pub open spec fn zero() -> Gaussian {
    Gaussian { re: 0, im: 0 }
}

/// `f(0) + ... + f(n - 1)`.
pub open spec fn series(f: spec_fn(int) -> Gaussian, n: int) -> Gaussian
    decreases n,
{
    if n <= 0 {
        zero()
    } else {
        sum(series(f, n - 1), f(n - 1))
    }
}

/// Sums of functions that agree below `n` agree.
pub proof fn lemma_series_agree(f: spec_fn(int) -> Gaussian, g: spec_fn(int) -> Gaussian, n: int)
    requires
        forall|i: int| 0 <= i < n ==> #[trigger] f(i) == g(i),
    ensures
        series(f, n) == series(g, n),
    decreases n,
{
    if n > 0 {
        lemma_series_agree(f, g, n - 1);
    }
}

/// The sum of sums is the sum of the sums.
pub proof fn lemma_series_adds(f: spec_fn(int) -> Gaussian, g: spec_fn(int) -> Gaussian, n: int)
    ensures
        series(|i: int| sum(f(i), g(i)), n) == sum(series(f, n), series(g, n)),
    decreases n,
{
    if n > 0 {
        lemma_series_adds(f, g, n - 1);
    }
}

/// The sum of the opposites is the opposite of the sum.
pub proof fn lemma_series_negates(f: spec_fn(int) -> Gaussian, n: int)
    ensures
        series(|i: int| negated(f(i)), n) == negated(series(f, n)),
    decreases n,
{
    if n > 0 {
        lemma_series_negates(f, n - 1);
    }
}

/// A sum of `n` equal terms is `n` times the term.
pub proof fn lemma_series_constant(f: spec_fn(int) -> Gaussian, value: Gaussian, n: int)
    requires
        n >= 0,
        forall|i: int| 0 <= i < n ==> #[trigger] f(i) == value,
    ensures
        series(f, n) == (Gaussian { re: n * value.re, im: n * value.im }),
    decreases n,
{
    if n > 0 {
        lemma_series_constant(f, value, n - 1);
        assert(n * value.re == (n - 1) * value.re + value.re) by (nonlinear_arith);
        assert(n * value.im == (n - 1) * value.im + value.im) by (nonlinear_arith);
    } else {
        assert(0 * value.re == 0 && 0 * value.im == 0) by (nonlinear_arith);
    }
}

/// Leaving out the first term: `f(1) + ... + f(m)` and `f(0)` make
/// `f(0) + ... + f(m)`.
pub proof fn lemma_series_shifted(f: spec_fn(int) -> Gaussian, m: int)
    requires
        m >= 0,
    ensures
        sum(series(|i: int| f(i + 1), m), f(0)) == series(f, m + 1),
    decreases m,
{
    let shifted = |i: int| f(i + 1);
    if m > 0 {
        lemma_series_shifted(f, m - 1);
        assert(series(shifted, m) == sum(series(shifted, m - 1), shifted(m - 1)));
        assert(shifted(m - 1) == f(m));
        assert(series(f, m + 1) == sum(series(f, m), f(m)));
        assert(series(f, m) == sum(series(shifted, m - 1), f(0)));
    } else {
        assert(series(shifted, 0) == zero());
        assert(series(f, 1) == sum(series(f, 0), f(0)));
        assert(series(f, 0) == zero());
    }
}

/// A sum over a whole cycle does not change when the cycle is turned by one
/// place.
pub proof fn lemma_series_turned_once(f: spec_fn(int) -> Gaussian, n: int)
    requires
        n >= 1,
    ensures
        series(|i: int| f((i + 1) % n), n) == series(f, n),
{
    let turned = |i: int| f((i + 1) % n);
    let shifted = |i: int| f(i + 1);
    assert forall|i: int| 0 <= i < n - 1 implies #[trigger] turned(i) == shifted(i) by {
        lemma_small_mod((i + 1) as nat, n as nat);
    }
    lemma_series_agree(turned, shifted, n - 1);
    assert(turned(n - 1) == f(0)) by {
        assert(n % n == 0) by {
            vstd::arithmetic::div_mod::lemma_mod_self_0(n);
        }
    }
    lemma_series_shifted(f, n - 1);
}

/// A sum over a whole cycle does not change when the cycle is turned by `d`
/// places.
pub proof fn lemma_series_turned(f: spec_fn(int) -> Gaussian, n: int, d: int)
    requires
        n >= 1,
        d >= 0,
    ensures
        series(|i: int| f((i + d) % n), n) == series(f, n),
    decreases d,
{
    let turned = |i: int| f((i + d) % n);
    if d == 0 {
        assert forall|i: int| 0 <= i < n implies #[trigger] turned(i) == f(i) by {
            lemma_small_mod(i as nat, n as nat);
        }
        lemma_series_agree(turned, f, n);
    } else {
        let before = |i: int| f((i + (d - 1)) % n);
        lemma_series_turned(f, n, d - 1);
        lemma_series_turned_once(before, n);
        let again = |i: int| before((i + 1) % n);
        assert forall|i: int| 0 <= i < n implies #[trigger] turned(i) == again(i) by {
            lemma_add_mod_noop(i + 1, d - 1, n);
            lemma_mod_bound(d - 1, n);
            lemma_add_mod_noop((i + 1) % n, d - 1, n);
            vstd::arithmetic::div_mod::lemma_mod_twice(i + 1, n);
        }
        lemma_series_agree(turned, again, n);
    }
}

/// A sum over a whole cycle is zero where turning the cycle by `d` places
/// turns every term into its opposite.
pub proof fn lemma_series_cancels(f: spec_fn(int) -> Gaussian, n: int, d: int)
    requires
        n >= 1,
        d >= 0,
        forall|i: int| 0 <= i < n ==> f((i + d) % n) == negated(#[trigger] f(i)),
    ensures
        series(f, n) == zero(),
{
    let turned = |i: int| f((i + d) % n);
    let opposite = |i: int| negated(f(i));
    lemma_series_turned(f, n, d);
    assert forall|i: int| 0 <= i < n implies #[trigger] turned(i) == opposite(i) by {
        assert(f((i + d) % n) == negated(f(i)));
    }
    lemma_series_agree(turned, opposite, n);
    lemma_series_negates(f, n);
}

} // verus!
