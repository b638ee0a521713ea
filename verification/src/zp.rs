//! Arithmetic of the integers modulo `p`.
//!
//! Field elements are modelled by their canonical integer representatives, so
//! every specification of the library is a statement about integers, sums and
//! powers, read modulo `p`.
use vstd::arithmetic::div_mod::*;
use vstd::arithmetic::power::*;
use vstd::prelude::*;

verus! {

/// `a` and `b` leave the same remainder modulo `p`.
pub open spec fn eqm(p: int, a: int, b: int) -> bool {
    a % p == b % p
}

/// `b` to the power `e`, for `e >= 0`.
pub open spec fn pw(b: int, e: int) -> int {
    pow(b, e as nat)
}

/// `f(0) + f(1) + ... + f(n - 1)`.
pub open spec fn sum(n: int, f: spec_fn(int) -> int) -> int
    decreases n,
{
    if n <= 0 {
        0
    } else {
        sum(n - 1, f) + f(n - 1)
    }
}

// ---------------------------------------------------------------------------
// Congruence
// ---------------------------------------------------------------------------

pub proof fn lemma_reduce(p: int, a: int)
    requires
        p > 0,
    ensures
        eqm(p, a % p, a),
        0 <= a % p < p,
{
    lemma_mod_twice(a, p);
    lemma_mod_bound(a, p);
}

pub proof fn lemma_small(p: int, a: int)
    requires
        0 <= a < p,
    ensures
        a % p == a,
{
    lemma_small_mod(a as nat, p as nat);
}

pub proof fn lemma_eqm_add(p: int, a: int, b: int, c: int, d: int)
    requires
        p > 0,
        eqm(p, a, b),
        eqm(p, c, d),
    ensures
        eqm(p, a + c, b + d),
{
    lemma_add_mod_noop(a, c, p);
    lemma_add_mod_noop(b, d, p);
}

pub proof fn lemma_eqm_sub(p: int, a: int, b: int, c: int, d: int)
    requires
        p > 0,
        eqm(p, a, b),
        eqm(p, c, d),
    ensures
        eqm(p, a - c, b - d),
{
    lemma_sub_mod_noop(a, c, p);
    lemma_sub_mod_noop(b, d, p);
}

pub proof fn lemma_eqm_mul(p: int, a: int, b: int, c: int, d: int)
    requires
        p > 0,
        eqm(p, a, b),
        eqm(p, c, d),
    ensures
        eqm(p, a * c, b * d),
{
    lemma_mul_mod_noop_general(a, c, p);
    lemma_mul_mod_noop_general(b, d, p);
}

pub proof fn lemma_eqm_pow(p: int, a: int, b: int, e: int)
    requires
        p > 0,
        e >= 0,
        eqm(p, a, b),
    ensures
        eqm(p, pw(a, e), pw(b, e)),
{
    lemma_pow_mod_noop(a, e as nat, p);
    lemma_pow_mod_noop(b, e as nat, p);
}

/// Two inverses of one residue are congruent.
pub proof fn lemma_inverse_unique(p: int, a: int, b: int, c: int)
    requires
        p > 0,
        eqm(p, a * b, 1),
        eqm(p, a * c, 1),
    ensures
        eqm(p, b, c),
{
    // b = b * 1 = b * (a * c) = (a * b) * c = c
    lemma_eqm_mul(p, b, b, a * c, 1);
    lemma_eqm_mul(p, a * b, 1, c, c);
    assert(b * (a * c) == (a * b) * c) by (nonlinear_arith);
}

/// A factor that has an inverse can be cancelled.
pub proof fn lemma_cancel(p: int, a: int, inv: int, b: int, c: int)
    requires
        p > 0,
        eqm(p, a * inv, 1),
        eqm(p, a * b, a * c),
    ensures
        eqm(p, b, c),
{
    lemma_eqm_mul(p, a * inv, 1, b, b);
    lemma_eqm_mul(p, a * inv, 1, c, c);
    lemma_eqm_mul(p, inv, inv, a * b, a * c);
    assert((a * inv) * b == inv * (a * b)) by (nonlinear_arith);
    assert((a * inv) * c == inv * (a * c)) by (nonlinear_arith);
}

// ---------------------------------------------------------------------------
// Powers
// ---------------------------------------------------------------------------

pub proof fn lemma_pw0(b: int)
    ensures
        pw(b, 0) == 1,
{
    lemma_pow0(b);
}

pub proof fn lemma_pw1(b: int)
    ensures
        pw(b, 1) == b,
{
    lemma_pow1(b);
}

pub proof fn lemma_one_pw(e: int)
    requires
        e >= 0,
    ensures
        pw(1, e) == 1,
{
    lemma1_pow(e as nat);
}

pub proof fn lemma_pw_succ(b: int, e: int)
    requires
        e >= 0,
    ensures
        pw(b, e + 1) == pw(b, e) * b,
        pw(b, e + 1) == b * pw(b, e),
{
    lemma_pw_add(b, e, 1);
    lemma_pow1(b);
    assert(pw(b, e) * b == b * pw(b, e)) by (nonlinear_arith);
}

pub proof fn lemma_pw_add(b: int, e: int, f: int)
    requires
        e >= 0,
        f >= 0,
    ensures
        pw(b, e + f) == pw(b, e) * pw(b, f),
{
    lemma_pow_adds(b, e as nat, f as nat);
}

pub proof fn lemma_pw_pw(b: int, e: int, f: int)
    requires
        e >= 0,
        f >= 0,
    ensures
        e * f >= 0,
        pw(pw(b, e), f) == pw(b, e * f),
{
    assert(e * f >= 0) by (nonlinear_arith)
        requires
            e >= 0,
            f >= 0,
    ;
    lemma_pow_multiplies(b, e as nat, f as nat);
}

pub proof fn lemma_pw_mul(a: int, b: int, e: int)
    requires
        e >= 0,
    ensures
        pw(a * b, e) == pw(a, e) * pw(b, e),
{
    lemma_pow_distributes(a, b, e as nat);
}

/// A power of a residue that is congruent to one is congruent to one.
pub proof fn lemma_unit_pow(p: int, a: int, e: int)
    requires
        p > 0,
        e >= 0,
        eqm(p, a, 1),
    ensures
        eqm(p, pw(a, e), 1),
{
    lemma_eqm_pow(p, a, 1, e);
    lemma_one_pw(e);
}

/// The powers of two inverse residues are inverse.
pub proof fn lemma_inverse_pow(p: int, a: int, b: int, e: int)
    requires
        p > 0,
        e >= 0,
        eqm(p, a * b, 1),
    ensures
        eqm(p, pw(a, e) * pw(b, e), 1),
{
    lemma_pw_mul(a, b, e);
    lemma_unit_pow(p, a * b, e);
}

// ---------------------------------------------------------------------------
// Sums
// ---------------------------------------------------------------------------

/// Equal summands give equal sums.
pub proof fn lemma_sum_same(n: int, f: spec_fn(int) -> int, g: spec_fn(int) -> int)
    requires
        forall|i: int| 0 <= i < n ==> #[trigger] f(i) == g(i),
    ensures
        sum(n, f) == sum(n, g),
    decreases n,
{
    if n > 0 {
        lemma_sum_same(n - 1, f, g);
        assert(f(n - 1) == g(n - 1));
    }
}

/// Congruent summands give congruent sums.
pub proof fn lemma_sum_eqm(p: int, n: int, f: spec_fn(int) -> int, g: spec_fn(int) -> int)
    requires
        p > 0,
        forall|i: int| 0 <= i < n ==> eqm(p, #[trigger] f(i), g(i)),
    ensures
        eqm(p, sum(n, f), sum(n, g)),
    decreases n,
{
    if n > 0 {
        lemma_sum_eqm(p, n - 1, f, g);
        assert(eqm(p, f(n - 1), g(n - 1)));
        lemma_eqm_add(p, sum(n - 1, f), sum(n - 1, g), f(n - 1), g(n - 1));
    }
}

/// A sum of summands congruent to zero is congruent to zero.
pub proof fn lemma_sum_zero(p: int, n: int, f: spec_fn(int) -> int)
    requires
        p > 0,
        forall|i: int| 0 <= i < n ==> eqm(p, #[trigger] f(i), 0),
    ensures
        eqm(p, sum(n, f), 0),
    decreases n,
{
    if n > 0 {
        lemma_sum_zero(p, n - 1, f);
        assert(eqm(p, f(n - 1), 0));
        lemma_eqm_add(p, sum(n - 1, f), 0, f(n - 1), 0);
    }
}

pub proof fn lemma_sum_add(n: int, f: spec_fn(int) -> int, g: spec_fn(int) -> int)
    ensures
        sum(n, |i: int| f(i) + g(i)) == sum(n, f) + sum(n, g),
    decreases n,
{
    if n > 0 {
        lemma_sum_add(n - 1, f, g);
    }
}

pub proof fn lemma_sum_scale(n: int, c: int, f: spec_fn(int) -> int)
    ensures
        sum(n, |i: int| c * f(i)) == c * sum(n, f),
    decreases n,
{
    if n > 0 {
        lemma_sum_scale(n - 1, c, f);
        assert(c * (sum(n - 1, f) + f(n - 1)) == c * sum(n - 1, f) + c * f(n - 1))
            by (nonlinear_arith);
    } else {
        assert(c * 0 == 0);
    }
}

/// A constant summand is added `n` times.
pub proof fn lemma_sum_const(n: int, c: int)
    requires
        n >= 0,
    ensures
        sum(n, |i: int| c) == n * c,
    decreases n,
{
    if n > 0 {
        lemma_sum_const(n - 1, c);
        assert((n - 1) * c + c == n * c) by (nonlinear_arith);
    } else {
        assert(n * c == 0) by (nonlinear_arith)
            requires
                n == 0,
        ;
    }
}

/// A sum can be cut in two.
pub proof fn lemma_sum_split(m: int, n: int, f: spec_fn(int) -> int)
    requires
        m >= 0,
        n >= 0,
    ensures
        sum(m + n, f) == sum(m, f) + sum(n, |i: int| f(m + i)),
    decreases n,
{
    if n > 0 {
        lemma_sum_split(m, n - 1, f);
    }
}

/// A sum over `2 n` indices is the sum over the even ones plus that over the odd ones.
pub proof fn lemma_sum_even_odd(n: int, f: spec_fn(int) -> int)
    requires
        n >= 0,
    ensures
        sum(2 * n, f) == sum(n, |i: int| f(2 * i)) + sum(n, |i: int| f(2 * i + 1)),
    decreases n,
{
    if n > 0 {
        lemma_sum_even_odd(n - 1, f);
        assert(sum(2 * n, f) == sum(2 * n - 1, f) + f(2 * n - 1));
        assert(sum(2 * n - 1, f) == sum(2 * n - 2, f) + f(2 * n - 2));
    }
}

/// Only one summand differs from zero.
pub proof fn lemma_sum_single(p: int, n: int, k: int, f: spec_fn(int) -> int)
    requires
        p > 0,
        0 <= k < n,
        forall|i: int| 0 <= i < n && i != k ==> eqm(p, #[trigger] f(i), 0),
    ensures
        eqm(p, sum(n, f), f(k)),
    decreases n,
{
    if k == n - 1 {
        lemma_sum_zero(p, n - 1, f);
        lemma_eqm_add(p, sum(n - 1, f), 0, f(n - 1), f(n - 1));
    } else {
        lemma_sum_single(p, n - 1, k, f);
        assert(eqm(p, f(n - 1), 0));
        lemma_eqm_add(p, sum(n - 1, f), f(k), f(n - 1), 0);
    }
}

/// The order of a double sum does not matter.
pub proof fn lemma_sum_swap(m: int, n: int, f: spec_fn(int, int) -> int)
    requires
        m >= 0,
        n >= 0,
    ensures
        sum(m, |i: int| sum(n, |j: int| f(i, j))) == sum(n, |j: int| sum(m, |i: int| f(i, j))),
    decreases m,
{
    let row = |i: int| sum(n, |j: int| f(i, j));
    if m > 0 {
        lemma_sum_swap(m - 1, n, f);
        let a = |j: int| sum(m - 1, |i: int| f(i, j));
        let b = |j: int| f(m - 1, j);
        lemma_sum_add(n, a, b);
        let c = |j: int| sum(m, |i: int| f(i, j));
        let d = |j: int| a(j) + b(j);
        assert forall|j: int| 0 <= j < n implies #[trigger] c(j) == d(j) by {
            let g = |i: int| f(i, j);
            assert(sum(m, g) == sum(m - 1, g) + g(m - 1));
        }
        lemma_sum_same(n, c, d);
        assert(sum(m, row) == sum(m - 1, row) + row(m - 1));
    } else {
        let c = |j: int| sum(m, |i: int| f(i, j));
        let z = |j: int| 0int;
        assert forall|j: int| 0 <= j < n implies #[trigger] c(j) == z(j) by {}
        lemma_sum_same(n, c, z);
        lemma_sum_const(n, 0);
        assert(n * 0 == 0);
    }
}

} // verus!
