//! What the transforms compute, said of the polynomials behind the numbers.
use crate::column::ColumnTransform;
use crate::domain;
use crate::domain::EvaluationDomain;
use crate::fft;
use crate::field;
use crate::field::PrimeField;
use crate::interpolation;
use crate::laws;
use crate::numerator;
use crate::poly;
use crate::poly::{Coeff, ExtendedLagrangeCoeff, LagrangeCoeff, Polynomial};
use crate::roots;
use crate::zp;
use vstd::arithmetic::power2::*;
use vstd::prelude::*;

verus! {

// ---------------------------------------------------------------------------
// Points and polynomials
// ---------------------------------------------------------------------------

/// The polynomial with coefficients `c` takes the values `a` at the powers of the
/// generator of the domain of size `2^k`.
pub open spec fn on_points<F: PrimeField>(c: Seq<int>, a: Seq<int>, k: nat) -> bool {
    forall|j: int|
        0 <= j < a.len() ==> #[trigger] a[j] == roots::poly_eval(
            F::modulus(),
            c,
            zp::pw(domain::omega::<F>(k), j),
        )
}

/// The polynomial with coefficients `c` takes the values `a` at zeta times the
/// powers of the generator of the domain of size `2^e`.
pub open spec fn on_coset<F: PrimeField>(c: Seq<int>, a: Seq<int>, e: nat) -> bool {
    forall|t: int|
        0 <= t < a.len() ==> #[trigger] a[t] == roots::poly_eval(
            F::modulus(),
            c,
            F::zeta_val() * zp::pw(domain::omega::<F>(e), t),
        )
}

/// The generator of the domain of size `2^k` has exactly that order, the domain of
/// the largest size is generated by the field's root of unity, and squaring the
/// generator of a domain gives that of the domain half as large.
pub proof fn lemma_generators<F: PrimeField>(k: nat)
    requires
        k <= F::two_adicity(),
    ensures
        zp::eqm(F::modulus(), zp::pw(domain::omega::<F>(k), pow2(k) as int), 1),
        k > 0 ==> zp::eqm(
            F::modulus(),
            zp::pw(domain::omega::<F>(k), pow2((k - 1) as nat) as int),
            -1,
        ),
        k == F::two_adicity() ==> zp::eqm(
            F::modulus(),
            domain::omega::<F>(k),
            F::root_of_unity_val(),
        ),
        k > 0 ==> zp::eqm(
            F::modulus(),
            domain::omega::<F>(k) * domain::omega::<F>(k),
            domain::omega::<F>((k - 1) as nat),
        ),
{
    let p = F::modulus();
    let w = domain::omega::<F>(k);
    F::lemma_modulus();
    domain::lemma_omega::<F>(k);
    roots::lemma_root_full(p, w, k);
    lemma2_to64();
    if k == F::two_adicity() {
        zp::lemma_pw1(F::root_of_unity_val());
        zp::lemma_reduce(p, F::root_of_unity_val());
    }
    if k > 0 {
        domain::lemma_omega_power::<F>((k - 1) as nat, k);
        zp::lemma_pw_succ(w, 1);
        zp::lemma_pw1(w);
        assert(w * w == zp::pw(w, 2)) by (nonlinear_arith)
            requires
                zp::pw(w, 2) == zp::pw(w, 1) * w,
                zp::pw(w, 1) == w,
        ;
    }
}

/// The coset starts at zeta, and each point is the one before times the generator.
pub proof fn lemma_coset_steps<F: PrimeField>(e: nat, t: int)
    requires
        e <= F::two_adicity(),
        t >= 0,
    ensures
        zp::eqm(F::modulus(), domain::coset_point::<F>(e, 0), F::zeta_val()),
        zp::eqm(
            F::modulus(),
            domain::coset_point::<F>(e, t + 1),
            domain::coset_point::<F>(e, t) * domain::omega::<F>(e),
        ),
{
    let p = F::modulus();
    let (z, w) = (F::zeta_val(), domain::omega::<F>(e));
    F::lemma_modulus();
    zp::lemma_pw0(w);
    zp::lemma_reduce(p, z * zp::pw(w, 0));
    zp::lemma_reduce(p, z * zp::pw(w, t));
    zp::lemma_reduce(p, z * zp::pw(w, t + 1));
    zp::lemma_pw_succ(w, t);
    let a = zp::pw(w, t);
    assert(z * 1 == z);
    assert(z * (a * w) == (z * a) * w) by (nonlinear_arith);
    zp::lemma_eqm_mul(p, domain::coset_point::<F>(e, t), z * a, w, w);
}

/// A polynomial's value comes from its first coefficient and from the value of the
/// polynomial that the others make; the polynomial without coefficients is zero.
pub proof fn lemma_eval_first(p: int, c: Seq<int>, x: int)
    requires
        p > 1,
    ensures
        c.len() == 0 ==> roots::poly_eval(p, c, x) == 0,
        c.len() > 0 ==> roots::poly_eval(p, c, x) == (c[0] + x * roots::poly_eval(
            p,
            c.drop_first(),
            x,
        )) % p,
{
    zp::lemma_small(p, 0);
    if c.len() > 0 {
        let n = c.len() as int;
        let d = c.drop_first();
        let f = |i: int| c[i] * zp::pw(x, i);
        let g = |i: int| d[i] * zp::pw(x, i);
        let h = |i: int| f(1 + i);
        let s = |i: int| x * g(i);
        zp::lemma_sum_split(1, n - 1, f);
        zp::lemma_pw0(x);
        assert(zp::sum(1, f) == zp::sum(0, f) + f(0));
        assert(c[0] * 1 == c[0]);
        assert forall|i: int| 0 <= i < n - 1 implies #[trigger] h(i) == s(i) by {
            zp::lemma_pw_succ(x, i);
            let (u, v) = (c[1 + i], zp::pw(x, i));
            assert(zp::pw(x, 1 + i) == zp::pw(x, i + 1));
            assert(u * (v * x) == x * (u * v)) by (nonlinear_arith);
        }
        zp::lemma_sum_same(n - 1, h, s);
        zp::lemma_sum_scale(n - 1, x, g);
        let total = zp::sum(n - 1, g);
        zp::lemma_reduce(p, total);
        zp::lemma_eqm_mul(p, x, x, total, total % p);
        zp::lemma_eqm_add(p, c[0], c[0], x * total, x * (total % p));
    }
}

/// The value at `x` of the polynomial that interpolates `a` over the domain is that
/// of every polynomial with at most `2^k` coefficients which takes the values `a`
/// there.
pub proof fn lemma_value_of_interpolant<F: PrimeField>(c: Seq<int>, a: Seq<int>, k: nat, x: int)
    requires
        k <= F::two_adicity(),
        a.len() == pow2(k),
        c.len() <= pow2(k),
        on_points::<F>(c, a, k),
    ensures
        roots::interpolate_at(F::modulus(), a, domain::omega::<F>(k), k, x) == roots::poly_eval(
            F::modulus(),
            c,
            x,
        ),
{
    let p = F::modulus();
    let w = domain::omega::<F>(k);
    let n = pow2(k);
    F::lemma_modulus();
    domain::lemma_omega::<F>(k);
    let d = Seq::new(
        n,
        |i: int|
            if i < c.len() {
                c[i] % p
            } else {
                0
            },
    );
    let b = Seq::new(d.len(), |j: int| roots::poly_eval(p, d, zp::pw(w, j)));
    assert forall|j: int| 0 <= j < n implies a[j] == #[trigger] b[j] by {
        laws::lemma_padded_eval(p, c, d, zp::pw(w, j));
    }
    assert(a =~= b);
    interpolation::lemma_interpolate_unique(p, d, w, k);
    let e = roots::interpolate(p, a, w, k);
    assert forall|i: int| 0 <= i < n implies e[i] == d[i] by {
        assert(roots::interpolate(p, b, w, k)[i] == d[i] % p);
        zp::lemma_small(p, 0);
        if i < c.len() {
            zp::lemma_reduce(p, c[i]);
        }
    }
    assert(e =~= d);
    laws::lemma_padded_eval(p, c, d, x);
}

/// The polynomial that interpolates `a` over the coset has the values of every
/// polynomial with at most `2^e` coefficients which takes the values `a` there.
pub proof fn lemma_value_of_coset_interpolant<F: PrimeField>(
    c: Seq<int>,
    a: Seq<int>,
    e: nat,
    x: int,
)
    requires
        e <= F::two_adicity(),
        a.len() == pow2(e),
        c.len() <= pow2(e),
        on_coset::<F>(c, a, e),
    ensures
        roots::poly_eval(F::modulus(), domain::coset_interpolate::<F>(a, e), x)
            == roots::poly_eval(F::modulus(), c, x),
        forall|i: int|
            0 <= i < pow2(e) ==> #[trigger] domain::coset_interpolate::<F>(a, e)[i] == if i
                < c.len() {
                c[i] % F::modulus()
            } else {
                0
            },
{
    let p = F::modulus();
    let d = domain::coset_interpolate::<F>(a, e);
    F::lemma_modulus();
    assert forall|t: int| 0 <= t < a.len() implies #[trigger] a[t] == roots::poly_eval(
        p,
        c,
        domain::coset_point::<F>(e, t),
    ) by {
        lemma_coset_eval::<F>(c, e, t);
    }
    assert forall|i: int| 0 <= i < pow2(e) implies #[trigger] d[i] == if i < c.len() {
        c[i] % p
    } else {
        0
    } by {
        laws::lemma_coset_roundtrip::<F>(c, a, e, i);
    }
    laws::lemma_padded_eval(p, c, d, x);
}

/// The value at a point of the coset.
pub(crate) proof fn lemma_coset_eval<F: PrimeField>(c: Seq<int>, e: nat, t: int)
    ensures
        roots::poly_eval(F::modulus(), c, domain::coset_point::<F>(e, t)) == roots::poly_eval(
            F::modulus(),
            c,
            F::zeta_val() * zp::pw(domain::omega::<F>(e), t),
        ),
{
    let p = F::modulus();
    let x = F::zeta_val() * zp::pw(domain::omega::<F>(e), t);
    F::lemma_modulus();
    zp::lemma_reduce(p, x);
    domain::lemma_eval_eqm(p, c, x % p, x);
}

/// Values are entries that the field has reduced already.
pub(crate) proof fn lemma_vals_reduced<F: PrimeField>(a: Seq<F>, i: int)
    requires
        0 <= i < a.len(),
    ensures
        field::vals(a)[i] % F::modulus() == field::vals(a)[i],
        0 <= field::vals(a)[i] < F::modulus(),
{
    F::lemma_modulus();
    a[i].lemma_val();
    zp::lemma_small(F::modulus(), a[i].val());
}

// ---------------------------------------------------------------------------
// Polynomials entry by entry
// ---------------------------------------------------------------------------

/// Evaluating is Horner's rule: taking one more coefficient in front multiplies the
/// value by the point and adds the coefficient.
pub proof fn lemma_eval_polynomial_steps<F: PrimeField>(
    coeffs: &[F],
    rest: &[F],
    point: F,
    value: F,
    rest_value: F,
)
    requires
        coeffs@.len() > 0,
        rest@ == coeffs@.drop_first(),
        call_ensures(poly::eval_polynomial::<F>, (coeffs, point), value),
        call_ensures(poly::eval_polynomial::<F>, (rest, point), rest_value),
    ensures
        value.val() == (coeffs@[0].val() + point.val() * rest_value.val()) % F::modulus(),
        rest@.len() == 0 ==> rest_value.val() == 0,
{
    F::lemma_modulus();
    let (c, d) = (field::vals(coeffs@), field::vals(rest@));
    assert(d =~= c.drop_first());
    lemma_eval_first(F::modulus(), c, point.val());
    lemma_eval_first(F::modulus(), d, point.val());
}

/// Adding polynomials of one length adds their values everywhere, subtracting
/// subtracts them, and scaling scales them; and no entry is added or lost.
pub proof fn lemma_arithmetic_is_of_values<F: PrimeField, B>(
    a: Polynomial<F, B>,
    b: &Polynomial<F, B>,
    c: F,
    sum: Polynomial<F, B>,
    difference: Polynomial<F, B>,
    multiple: Polynomial<F, B>,
    x: int,
)
    requires
        a.values@.len() == b.values@.len(),
        call_ensures(Polynomial::<F, B>::add, (a, b), sum),
        call_ensures(Polynomial::<F, B>::sub, (a, b), difference),
        call_ensures(Polynomial::<F, B>::mul, (a, c), multiple),
    ensures
        sum.values@.len() == a.values@.len(),
        difference.values@.len() == a.values@.len(),
        multiple.values@.len() == a.values@.len(),
        roots::poly_eval(F::modulus(), sum.vals(), x) == (roots::poly_eval(
            F::modulus(),
            a.vals(),
            x,
        ) + roots::poly_eval(F::modulus(), b.vals(), x)) % F::modulus(),
        roots::poly_eval(F::modulus(), difference.vals(), x) == (roots::poly_eval(
            F::modulus(),
            a.vals(),
            x,
        ) - roots::poly_eval(F::modulus(), b.vals(), x)) % F::modulus(),
        roots::poly_eval(F::modulus(), multiple.vals(), x) == (roots::poly_eval(
            F::modulus(),
            a.vals(),
            x,
        ) * c.val()) % F::modulus(),
{
    let p = F::modulus();
    F::lemma_modulus();
    lemma_eval_combined(p, a.vals(), b.vals(), sum.vals(), 1, 1, x);
    lemma_eval_combined(p, a.vals(), b.vals(), difference.vals(), 1, -1, x);
    lemma_eval_combined(p, a.vals(), b.vals(), multiple.vals(), c.val(), 0, x);
    let (u, v) = (
        roots::poly_eval(p, a.vals(), x),
        roots::poly_eval(p, b.vals(), x),
    );
    assert(u * c.val() == c.val() * u) by (nonlinear_arith);
}

/// Values of a combination of two polynomials.
pub(crate) proof fn lemma_eval_combined(
    p: int,
    a: Seq<int>,
    b: Seq<int>,
    r: Seq<int>,
    s: int,
    t: int,
    x: int,
)
    requires
        p > 1,
        a.len() == b.len(),
        r.len() == a.len(),
        forall|i: int| 0 <= i < r.len() ==> #[trigger] r[i] == (s * a[i] + t * b[i]) % p,
    ensures
        roots::poly_eval(p, r, x) == (s * roots::poly_eval(p, a, x) + t * roots::poly_eval(p, b, x))
            % p,
{
    let cs = seq![a, b];
    let w = seq![s, t];
    laws::lemma_evaluation_is_linear(p, cs, w, a.len(), x);
    let comb = laws::combined(p, cs, w, a.len());
    assert forall|j: int| 0 <= j < r.len() implies r[j] == comb[j] by {
        let f = |i: int| w[i] * cs[i][j];
        lemma_sum_two(f);
        assert(r[j] == (s * a[j] + t * b[j]) % p);
    }
    assert(r =~= comb);
    let g = |i: int| w[i] * roots::poly_eval(p, cs[i], x);
    lemma_sum_two(g);
}

pub(crate) proof fn lemma_sum_two(f: spec_fn(int) -> int)
    ensures
        zp::sum(2, f) == f(0) + f(1),
{
    assert(zp::sum(0, f) == 0);
    assert(zp::sum(1, f) == zp::sum(0, f) + f(0));
    assert(zp::sum(2, f) == zp::sum(1, f) + f(1));
}

/// The powers start at one, and each is the one before times the base.
pub proof fn lemma_powers_steps<F: PrimeField>(alpha: F, k: usize, pows: Vec<F>, i: int)
    requires
        call_ensures(poly::powers::<F>, (alpha, k), pows),
        0 <= i < k,
    ensures
        pows@.len() == k,
        pows@[0].val() == 1,
        i + 1 < k ==> pows@[i + 1].val() == (pows@[i].val() * alpha.val()) % F::modulus(),
{
    let p = F::modulus();
    F::lemma_modulus();
    zp::lemma_pw0(alpha.val());
    zp::lemma_small(p, 1);
    assert(pows@[0].val() == zp::pw(alpha.val(), 0) % p);
    if i + 1 < k {
        let a = zp::pw(alpha.val(), i);
        zp::lemma_pw_succ(alpha.val(), i);
        zp::lemma_reduce(p, a);
        zp::lemma_eqm_mul(p, a % p, a, alpha.val(), alpha.val());
        assert(pows@[i].val() == a % p);
        assert(pows@[i + 1].val() == zp::pw(alpha.val(), i + 1) % p);
    }
}

/// The inner product is the sum of the products at equal places: taking away the
/// last place of both vectors takes away its product, and empty vectors give zero.
pub proof fn lemma_inner_product_steps<F: PrimeField>(
    a: &[F],
    b: &[F],
    a1: &[F],
    b1: &[F],
    r: F,
    r1: F,
)
    requires
        a@.len() == b@.len(),
        a@.len() > 0,
        a1@ == a@.drop_last(),
        b1@ == b@.drop_last(),
        call_ensures(numerator::inner_product::<F>, (a, b), r),
        call_ensures(numerator::inner_product::<F>, (a1, b1), r1),
    ensures
        r.val() == (r1.val() + a@.last().val() * b@.last().val()) % F::modulus(),
        a1@.len() == 0 ==> r1.val() == 0,
{
    let p = F::modulus();
    F::lemma_modulus();
    let n = a1@.len() as int;
    let f = |i: int| field::vals(a@)[i] * field::vals(b@)[i];
    let g = |i: int| field::vals(a1@)[i] * field::vals(b1@)[i];
    zp::lemma_sum_same(n, g, f);
    assert(zp::sum(n + 1, f) == zp::sum(n, f) + f(n));
    zp::lemma_reduce(p, zp::sum(n, f));
    zp::lemma_eqm_add(p, zp::sum(n, f) % p, zp::sum(n, f), f(n), f(n));
    zp::lemma_small(p, 0);
}

// ---------------------------------------------------------------------------
// Domains
// ---------------------------------------------------------------------------

/// A domain made for degree `j` has `2^k` rows and the least coset that holds
/// `(j - 1) 2^k` coefficients; the accessors give these sizes and the generators.
pub proof fn lemma_domain_sizes<F: PrimeField>(
    j: u32,
    k: u32,
    d: EvaluationDomain<F>,
    n: u64,
    extended: usize,
    log: u32,
)
    requires
        j >= 1,
        call_ensures(EvaluationDomain::<F>::new, (j, k), d),
        call_ensures(EvaluationDomain::<F>::n, (&d,), n),
        call_ensures(EvaluationDomain::<F>::extended_len, (&d,), extended),
        call_ensures(EvaluationDomain::<F>::k, (&d,), log),
    ensures
        log == k,
        d.log_n() == k,
        d.quotient_degree() == j - 1,
        n == pow2(k as nat),
        extended == pow2(d.log_ext()),
        extended >= n,
        extended >= n * (j - 1),
        extended > n ==> extended < 2 * n * (j - 1),
        exists|m: nat| #[trigger] pow2(m) * n == extended,
{
    d.lemma_sizes();
    let m = (d.log_ext() - d.log_n()) as nat;
    let q = (j - 1) as nat;
    domain::lemma_ceil_log2_least(q);
    lemma_pow2_pos(k as nat);
    assert(pow2(m) * n == extended) by (nonlinear_arith)
        requires
            pow2(d.log_n()) * pow2(m) == extended,
            n == pow2(d.log_n()),
    ;
    if m > 0 {
        lemma_pow2_unfold(m);
        assert(pow2((m - 1) as nat) < q);
        let (h, nn) = (pow2((m - 1) as nat) as int, n as int);
        assert(2 * h * nn < 2 * nn * q) by (nonlinear_arith)
            requires
                h < q,
                nn > 0,
        ;
        assert(extended == 2 * h * nn) by (nonlinear_arith)
            requires
                extended == pow2(m) * nn,
                pow2(m) == 2 * h,
        ;
    } else {
        lemma2_to64();
    }
}

/// The generators that a domain hands out: that of the rows and its inverse, and
/// that of the coset, whose power is that of the rows.
pub proof fn lemma_domain_generators<F: PrimeField>(
    d: EvaluationDomain<F>,
    omega: F,
    omega_inv: F,
    extended_omega: F,
)
    requires
        d.wf(),
        call_ensures(EvaluationDomain::<F>::get_omega, (&d,), omega),
        call_ensures(EvaluationDomain::<F>::get_omega_inv, (&d,), omega_inv),
        call_ensures(EvaluationDomain::<F>::get_extended_omega, (&d,), extended_omega),
    ensures
        zp::eqm(F::modulus(), omega.val() * omega_inv.val(), 1),
        zp::eqm(F::modulus(), zp::pw(omega.val(), pow2(d.log_n()) as int), 1),
        d.log_n() > 0 ==> zp::eqm(
            F::modulus(),
            zp::pw(omega.val(), pow2((d.log_n() - 1) as nat) as int),
            -1,
        ),
        zp::eqm(
            F::modulus(),
            zp::pw(extended_omega.val(), pow2((d.log_ext() - d.log_n()) as nat) as int),
            omega.val(),
        ),
{
    let p = F::modulus();
    let k = d.log_n();
    F::lemma_modulus();
    d.lemma_sizes();
    domain::lemma_omega::<F>(k);
    roots::lemma_root_inv(p, domain::omega::<F>(k), k);
    lemma_generators::<F>(k);
    domain::lemma_omega_power::<F>(k, d.log_ext());
}

/// Every point of the domain is recognised as a zero of the vanishing polynomial.
pub proof fn lemma_vanishes_on_domain<F: PrimeField>(
    d: EvaluationDomain<F>,
    x: F,
    i: int,
    r: bool,
)
    requires
        d.wf(),
        call_ensures(EvaluationDomain::<F>::vanishes_at, (&d, &x), r),
        0 <= i,
        zp::eqm(F::modulus(), x.val(), zp::pw(domain::omega::<F>(d.log_n()), i)),
    ensures
        r,
{
    let p = F::modulus();
    let k = d.log_n();
    let w = domain::omega::<F>(k);
    let n = pow2(k) as int;
    F::lemma_modulus();
    d.lemma_sizes();
    lemma_generators::<F>(k);
    zp::lemma_eqm_pow(p, x.val(), zp::pw(w, i), n);
    zp::lemma_pw_pw(w, i, n);
    zp::lemma_pw_pw(w, n, i);
    assert(i * n == n * i) by (nonlinear_arith);
    zp::lemma_unit_pow(p, zp::pw(w, n), i);
}

/// Coefficients found from values on the domain are those of the polynomial which
/// takes these values, and taking the values again gives them back.
pub proof fn lemma_domain_roundtrips<F: PrimeField>(
    d: EvaluationDomain<F>,
    values: Polynomial<F, LagrangeCoeff>,
    coeffs: Polynomial<F, Coeff>,
    again: Polynomial<F, LagrangeCoeff>,
)
    requires
        d.wf(),
        values.values@.len() == pow2(d.log_n()),
        call_ensures(EvaluationDomain::<F>::lagrange_to_coeff, (&d, values), coeffs),
        call_ensures(EvaluationDomain::<F>::coeff_to_lagrange, (&d, coeffs), again),
    ensures
        coeffs.values@.len() == values.values@.len(),
        on_points::<F>(coeffs.vals(), values.vals(), d.log_n()),
        again.vals() == values.vals(),
        forall|c: Seq<int>, x: int|
            c.len() <= pow2(d.log_n()) && on_points::<F>(c, values.vals(), d.log_n())
                ==> #[trigger] roots::poly_eval(F::modulus(), c, x) == roots::poly_eval(
                F::modulus(),
                coeffs.vals(),
                x,
            ),
{
    let p = F::modulus();
    let k = d.log_n();
    let w = domain::omega::<F>(k);
    F::lemma_modulus();
    d.lemma_sizes();
    domain::lemma_omega::<F>(k);
    assert forall|j: int| 0 <= j < values.vals().len() implies #[trigger] values.vals()[j]
        == roots::poly_eval(p, coeffs.vals(), zp::pw(w, j)) by {
        interpolation::lemma_interpolates(p, values.vals(), w, k, j);
        lemma_vals_reduced(values.values@, j);
    }
    assert forall|j: int| 0 <= j < values.vals().len() implies again.vals()[j]
        == values.vals()[j] by {
        assert(again.values@[j].val() == roots::poly_eval(p, coeffs.vals(), zp::pw(w, j)));
    }
    assert(again.vals() =~= values.vals());
    assert forall|c: Seq<int>, x: int|
        c.len() <= pow2(k) && on_points::<F>(c, values.vals(), k) implies (
    #[trigger] roots::poly_eval(p, c, x)) == roots::poly_eval(p, coeffs.vals(), x) by {
        lemma_value_of_interpolant::<F>(c, values.vals(), k, x);
    }
}

/// A polynomial goes to the coset and comes back, by coefficients or by its values
/// on the domain, as the same polynomial.
pub proof fn lemma_coset_roundtrips<F: PrimeField>(
    d: EvaluationDomain<F>,
    coeffs: Polynomial<F, Coeff>,
    extended: Polynomial<F, ExtendedLagrangeCoeff>,
    back: Vec<F>,
    values: Polynomial<F, LagrangeCoeff>,
    restricted: Polynomial<F, LagrangeCoeff>,
)
    requires
        d.wf(),
        coeffs.values@.len() == pow2(d.log_n()),
        call_ensures(EvaluationDomain::<F>::coeff_to_extended, (&d, coeffs), extended),
        call_ensures(EvaluationDomain::<F>::extended_to_coeff, (&d, extended), back),
        call_ensures(EvaluationDomain::<F>::coeff_to_lagrange, (&d, coeffs), values),
        call_ensures(EvaluationDomain::<F>::extended_to_lagrange, (&d, extended), restricted),
    ensures
        extended.values@.len() == pow2(d.log_ext()),
        on_coset::<F>(coeffs.vals(), extended.vals(), d.log_ext()),
        back@.len() == pow2(d.log_n()) * d.quotient_degree(),
        forall|i: int|
            0 <= i < back@.len() ==> (#[trigger] back@[i]).val() == if i < coeffs.values@.len() {
                coeffs.values@[i].val()
            } else {
                0
            },
        restricted.vals() == values.vals(),
{
    let p = F::modulus();
    let (k, e) = (d.log_n(), d.log_ext());
    F::lemma_modulus();
    d.lemma_sizes();
    let c = coeffs.vals();
    assert forall|t: int| 0 <= t < extended.vals().len() implies #[trigger] extended.vals()[t]
        == roots::poly_eval(p, c, F::zeta_val() * zp::pw(domain::omega::<F>(e), t)) by {
        assert(extended.values@[t].val() == extended.vals()[t]);
        lemma_coset_eval::<F>(c, e, t);
    }
    lemma_value_of_coset_interpolant::<F>(c, extended.vals(), e, 0);
    let count = (pow2(k) * d.quotient_degree()) as int;
    let full = domain::coset_interpolate::<F>(extended.vals(), e);
    assert(field::vals(back@).len() == count);
    assert forall|i: int| 0 <= i < back@.len() implies (#[trigger] back@[i]).val() == if i
        < coeffs.values@.len() {
        coeffs.values@[i].val()
    } else {
        0
    } by {
        assert(field::vals(back@)[i] == full[i]);
        if i < c.len() {
            lemma_vals_reduced(coeffs.values@, i);
        }
    }
    assert forall|j: int| 0 <= j < values.vals().len() implies restricted.vals()[j]
        == values.vals()[j] by {
        let x = zp::pw(domain::omega::<F>(k), j);
        lemma_value_of_coset_interpolant::<F>(c, extended.vals(), e, x);
        assert(values.values@[j].val() == roots::poly_eval(p, c, x));
        assert(restricted.values@[j].val() == roots::poly_eval(p, full, x));
    }
    assert(restricted.vals() =~= values.vals());
}

/// Whatever polynomial of at most `2^e` coefficients has the given values on the
/// coset, its values on the domain are those that are found.
pub proof fn lemma_restriction<F: PrimeField>(
    d: EvaluationDomain<F>,
    extended: Polynomial<F, ExtendedLagrangeCoeff>,
    restricted: Polynomial<F, LagrangeCoeff>,
    c: Seq<int>,
)
    requires
        d.wf(),
        extended.values@.len() == pow2(d.log_ext()),
        call_ensures(EvaluationDomain::<F>::extended_to_lagrange, (&d, extended), restricted),
        c.len() <= pow2(d.log_ext()),
        on_coset::<F>(c, extended.vals(), d.log_ext()),
    ensures
        restricted.values@.len() == pow2(d.log_n()),
        on_points::<F>(c, restricted.vals(), d.log_n()),
{
    d.lemma_sizes();
    assert forall|j: int| 0 <= j < restricted.vals().len() implies #[trigger] restricted.vals()[j]
        == roots::poly_eval(F::modulus(), c, zp::pw(domain::omega::<F>(d.log_n()), j)) by {
        assert(restricted.values@[j].val() == restricted.vals()[j]);
        lemma_value_of_coset_interpolant::<F>(
            c,
            extended.vals(),
            d.log_ext(),
            zp::pw(domain::omega::<F>(d.log_n()), j),
        );
    }
}

/// Dividing by the vanishing polynomial undoes multiplying by it: if the values are
/// those of `q` times `x^n - 1`, then the result holds the values of `q`.
pub proof fn lemma_division_undoes_vanishing<F: PrimeField>(
    d: EvaluationDomain<F>,
    a: Polynomial<F, ExtendedLagrangeCoeff>,
    r: Polynomial<F, ExtendedLagrangeCoeff>,
    q: Seq<int>,
)
    requires
        d.wf(),
        a.values@.len() == pow2(d.log_ext()),
        call_ensures(EvaluationDomain::<F>::divide_by_vanishing_poly, (&d, a), r),
        forall|t: int|
            0 <= t < a.values@.len() ==> zp::eqm(
                F::modulus(),
                (#[trigger] a.values@[t]).val(),
                roots::poly_eval(
                    F::modulus(),
                    q,
                    F::zeta_val() * zp::pw(domain::omega::<F>(d.log_ext()), t),
                ) * (zp::pw(
                    F::zeta_val() * zp::pw(domain::omega::<F>(d.log_ext()), t),
                    pow2(d.log_n()) as int,
                ) - 1),
            ),
    ensures
        r.values@.len() == a.values@.len(),
        on_coset::<F>(q, r.vals(), d.log_ext()),
{
    let p = F::modulus();
    let e = d.log_ext();
    let n = pow2(d.log_n()) as int;
    F::lemma_modulus();
    d.lemma_sizes();
    assert forall|t: int| 0 <= t < r.vals().len() implies #[trigger] r.vals()[t]
        == roots::poly_eval(p, q, F::zeta_val() * zp::pw(domain::omega::<F>(e), t)) by {
        let x = F::zeta_val() * zp::pw(domain::omega::<F>(e), t);
        let y = domain::coset_point::<F>(e, t);
        let v = roots::poly_eval(p, q, x);
        let rt = r.values@[t].val();
        let at = a.values@[t].val();
        zp::lemma_reduce(p, x);
        zp::lemma_eqm_pow(p, y, x, n);
        let (zx, zy) = (zp::pw(x, n) - 1, zp::pw(y, n) - 1);
        zp::lemma_eqm_sub(p, zp::pw(y, n), zp::pw(x, n), 1, 1);
        assert(domain::is_quotient(p, rt, at, zy));
        let u = choose|u: int| zp::eqm(p, #[trigger] (zy * u), 1);
        zp::lemma_eqm_mul(p, v, v, zx, zy);
        assert(zy * rt == rt * zy && zy * v == v * zy) by (nonlinear_arith);
        zp::lemma_cancel(p, zy, u, rt, v);
        interpolation::lemma_eval_reduced(p, q, x);
        lemma_vals_reduced(r.values@, t);
    }
}

// ---------------------------------------------------------------------------
// Transforms in place
// ---------------------------------------------------------------------------

/// With the powers of an element `v` of order `2^l` as factors, the transform of
/// coefficients holds the polynomial's values at the powers of `v`.
pub proof fn lemma_fft_evaluates<F: PrimeField>(
    a: &mut [F],
    twiddles: &[F],
    log_n: u32,
    v: int,
)
    requires
        old(a)@.len() == pow2(log_n as nat),
        log_n > 1 ==> twiddles@.len() >= pow2((log_n - 1) as nat),
        roots::is_root(F::modulus(), v, log_n as nat),
        forall|i: int|
            0 <= i < twiddles@.len() ==> (#[trigger] twiddles@[i]).val() == zp::pw(v, i)
                % F::modulus(),
        call_ensures(fft::fft_serial::<F>, (a, twiddles, log_n), ()),
    ensures
        final(a)@.len() == old(a)@.len(),
        forall|j: int|
            0 <= j < old(a)@.len() ==> (#[trigger] final(a)@[j]).val() == roots::poly_eval(
                F::modulus(),
                field::vals(old(a)@),
                zp::pw(v, j),
            ),
{
    let p = F::modulus();
    let l = log_n as nat;
    let x = field::vals(old(a)@);
    let tw = field::vals(twiddles@);
    F::lemma_modulus();
    lemma2_to64();
    if log_n == 0 {
        assert forall|j: int| 0 <= j < old(a)@.len() implies (#[trigger] final(a)@[j]).val()
            == roots::poly_eval(p, x, zp::pw(v, j)) by {
            let f = |i: int| x[i] * zp::pw(zp::pw(v, 0), i);
            zp::lemma_pw0(zp::pw(v, 0));
            assert(zp::sum(0, f) == 0);
            assert(zp::sum(1, f) == zp::sum(0, f) + f(0));
            assert(x[0] * 1 == x[0]);
            lemma_vals_reduced(old(a)@, 0);
        }
    } else {
        let h = pow2((l - 1) as nat) as int;
        assert forall|i: int| 0 <= i < h implies zp::eqm(
            p,
            #[trigger] fft::twiddle(tw, i * 1),
            zp::pw(v, i),
        ) by {
            zp::lemma_pw0(v);
            if i > 0 {
                if log_n > 1 {
                    assert(twiddles@[i].val() == tw[i]);
                    zp::lemma_reduce(p, zp::pw(v, i));
                }
            }
        }
        roots::lemma_fft_is_dft(p, x, tw, v, l, 1);
        let r = field::vals(final(a)@);
        assert forall|j: int| 0 <= j < old(a)@.len() implies (#[trigger] final(a)@[j]).val()
            == roots::poly_eval(p, x, zp::pw(v, j)) by {
            assert(zp::eqm(p, r[j], roots::dft_at(x, v, j)));
            domain::lemma_dft_is_eval(p, x, v, j);
            lemma_vals_reduced(final(a)@, j);
        }
    }
}

/// A column transform is made for the sizes of its domain: as many inputs as rows, and
/// as many outputs as points of the coset.
pub proof fn lemma_transform_sizes<F: PrimeField>(
    d: EvaluationDomain<F>,
    ct: ColumnTransform<F>,
    k: usize,
    ext_len: usize,
    n: u64,
    extended: usize,
)
    requires
        d.wf(),
        call_ensures(ColumnTransform::<F>::new, (&d,), ct),
        call_ensures(ColumnTransform::<F>::k, (&ct,), k),
        call_ensures(ColumnTransform::<F>::ext_len, (&ct,), ext_len),
        call_ensures(EvaluationDomain::<F>::n, (&d,), n),
        call_ensures(EvaluationDomain::<F>::extended_len, (&d,), extended),
    ensures
        k == n,
        ext_len == extended,
        ct.log_n() == d.log_n(),
        ct.log_ext() == d.log_ext(),
{
}

/// Interpolating a column leaves the coefficients of the polynomial that takes the
/// column's values on the domain.
pub proof fn lemma_column_interpolates<F: PrimeField>(
    ct: &ColumnTransform<F>,
    column: &mut [F],
)
    requires
        ct.wf(),
        old(column)@.len() == pow2(ct.log_n()),
        call_ensures(ColumnTransform::<F>::interpolate, (ct, column), ()),
    ensures
        final(column)@.len() == old(column)@.len(),
        on_points::<F>(field::vals(final(column)@), field::vals(old(column)@), ct.log_n()),
{
    let p = F::modulus();
    let k = ct.log_n();
    let w = domain::omega::<F>(k);
    let a = field::vals(old(column)@);
    F::lemma_modulus();
    ct.lemma_sizes();
    domain::lemma_omega::<F>(k);
    assert forall|j: int| 0 <= j < a.len() implies #[trigger] a[j] == roots::poly_eval(
        p,
        field::vals(final(column)@),
        zp::pw(w, j),
    ) by {
        interpolation::lemma_interpolates(p, a, w, k, j);
        lemma_vals_reduced(old(column)@, j);
    }
}

/// Evaluating a column's coefficients writes the values at the points of the coset,
/// each at its place, and nothing else.
pub proof fn lemma_column_evaluates<F: PrimeField>(
    ct: &ColumnTransform<F>,
    coeffs: &[F],
    buf: &mut [F],
    out: &mut [F],
)
    requires
        ct.wf(),
        coeffs@.len() == pow2(ct.log_n()),
        old(out)@.len() >= pow2(ct.log_ext()),
        call_ensures(ColumnTransform::<F>::evaluate_all, (ct, coeffs, buf, out), ()),
    ensures
        final(out)@.len() == old(out)@.len(),
        on_coset::<F>(
            field::vals(coeffs@),
            field::vals(final(out)@.take(pow2(ct.log_ext()) as int)),
            ct.log_ext(),
        ),
        final(out)@.skip(pow2(ct.log_ext()) as int) == old(out)@.skip(pow2(ct.log_ext()) as int),
{
    let p = F::modulus();
    let e = ct.log_ext();
    let m = pow2(e) as int;
    let r = field::vals(final(out)@.take(m));
    assert(coeffs@.subrange(0, pow2(ct.log_n()) as int) =~= coeffs@);
    assert forall|t: int| 0 <= t < r.len() implies #[trigger] r[t] == roots::poly_eval(
        p,
        field::vals(coeffs@),
        F::zeta_val() * zp::pw(domain::omega::<F>(e), t),
    ) by {
        assert(final(out)@[t].val() == r[t]);
        lemma_coset_eval::<F>(field::vals(coeffs@), e, t);
    }
    assert(final(out)@.skip(m) =~= old(out)@.skip(m));
}

/// Evaluating into rows writes the value at point `t` of the coset to coordinate `m` of
/// row `t`, for every point, and leaves all other coordinates and rows as they are.
pub proof fn lemma_column_fills_rows<'a, 'b, F: PrimeField>(
    ct: &ColumnTransform<F>,
    coeffs: &[F],
    buf: &mut [F],
    rows: &'a mut [&'b mut [F]],
    m: usize,
    t: int,
)
    requires
        ct.wf(),
        coeffs@.len() == pow2(ct.log_n()),
        old(rows)@.len() >= pow2(ct.log_ext()),
        call_ensures(
            ColumnTransform::<F>::evaluate_all_into_rows,
            (ct, coeffs, buf, rows, m),
            (),
        ),
        0 <= t < pow2(ct.log_ext()),
        m < old(rows)@[t]@.len(),
    ensures
        final(rows)@.len() == old(rows)@.len(),
        final(rows)@[t]@.len() == old(rows)@[t]@.len(),
        final(rows)@[t]@[m as int].val() == roots::poly_eval(
            F::modulus(),
            field::vals(coeffs@),
            F::zeta_val() * zp::pw(domain::omega::<F>(ct.log_ext()), t),
        ),
        forall|i: int|
            0 <= i < old(rows)@[t]@.len() && i != m ==> #[trigger] final(rows)@[t]@[i] == old(
                rows)@[t]@[i],
{
    let e = ct.log_ext();
    let args = (ct, coeffs, buf, rows, m);
    assert(call_ensures(ColumnTransform::<F>::evaluate_all_into_rows, args, ()));
    assert(coeffs@.subrange(0, pow2(ct.log_n()) as int) =~= coeffs@);
    lemma_coset_eval::<F>(field::vals(coeffs@), e, t);
    let (before, after) = (old(rows)@[t]@, final(rows)@[t]@);
    assert(after == before.update(m as int, after[m as int]));
}

/// The factors of a transform start at one, each is the one before times the
/// generator, and there are half as many as the transform has entries.
pub proof fn lemma_twiddles_steps<F: PrimeField>(omega: F, log_n: u32, tw: Vec<F>, i: int)
    requires
        log_n >= 1,
        call_ensures(fft::compute_twiddles::<F>, (&omega, log_n), tw),
        0 <= i < tw@.len(),
    ensures
        2 * tw@.len() == pow2(log_n as nat),
        tw@[0].val() == 1,
        i + 1 < tw@.len() ==> tw@[i + 1].val() == (tw@[i].val() * omega.val()) % F::modulus(),
{
    let p = F::modulus();
    let v = omega.val();
    F::lemma_modulus();
    lemma_pow2_unfold(log_n as nat);
    zp::lemma_pw0(v);
    zp::lemma_small(p, 1);
    assert(tw@[0].val() == zp::pw(v, 0) % p);
    if i + 1 < tw@.len() {
        let a = zp::pw(v, i);
        zp::lemma_pw_succ(v, i);
        zp::lemma_reduce(p, a);
        zp::lemma_eqm_mul(p, a % p, a, v, v);
        assert(tw@[i].val() == a % p);
        assert(tw@[i + 1].val() == zp::pw(v, i + 1) % p);
    }
}

/// An inner product only reads as far as both vectors reach.
pub proof fn lemma_inner_product_reach<F: PrimeField>(
    a: &[F],
    b: &[F],
    a1: &[F],
    b1: &[F],
    r: F,
    r1: F,
)
    requires
        a1@ == a@.take(vstd::math::min(a@.len() as int, b@.len() as int)),
        b1@ == b@.take(vstd::math::min(a@.len() as int, b@.len() as int)),
        call_ensures(numerator::inner_product::<F>, (a, b), r),
        call_ensures(numerator::inner_product::<F>, (a1, b1), r1),
    ensures
        r.val() == r1.val(),
{
    let n = vstd::math::min(a@.len() as int, b@.len() as int);
    let f = |i: int| field::vals(a@)[i] * field::vals(b@)[i];
    let g = |i: int| field::vals(a1@)[i] * field::vals(b1@)[i];
    zp::lemma_sum_same(n, f, g);
}

/// Two evaluations agree exactly if they are as long and equal everywhere; otherwise
/// a difference in length is told first, and else the first place that differs.
pub proof fn lemma_agreement<F: PrimeField>(
    fast: &[F],
    reference: &[F],
    r: Result<(), numerator::Mismatch>,
)
    requires
        call_ensures(numerator::agree::<F>, (fast, reference), r),
    ensures
        match r {
            Ok(_) => {
                &&& fast@.len() == reference@.len()
                &&& forall|i: int|
                    0 <= i < fast@.len() ==> (#[trigger] fast@[i]).val() == reference@[i].val()
            },
            Err(numerator::Mismatch::Length) => fast@.len() != reference@.len(),
            Err(numerator::Mismatch::At(t)) => {
                &&& fast@.len() == reference@.len()
                &&& t < fast@.len()
                &&& fast@[t as int].val() != reference@[t as int].val()
                &&& forall|i: int|
                    0 <= i < t ==> (#[trigger] fast@[i]).val() == reference@[i].val()
            },
        },
{
    if r is Ok {
        assert(field::vals(fast@).len() == fast@.len());
        assert(field::vals(reference@).len() == reference@.len());
        assert forall|i: int| 0 <= i < fast@.len() implies (#[trigger] fast@[i]).val()
            == reference@[i].val() by {
            assert(field::vals(fast@)[i] == field::vals(reference@)[i]);
        }
    }
}

} // verus!
