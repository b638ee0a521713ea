//! Linear combinations, and the Lagrange basis at a point.
use crate::domain;
use crate::domain::EvaluationDomain;
use crate::field;
use crate::field::PrimeField;
use crate::fq::Fq;
use crate::interpolation;
use crate::parallel::map_items;
use crate::poly::{powers, size_inverse};
use crate::roots;
use crate::zp;
use vstd::arithmetic::power2::*;
use vstd::prelude::*;

verus! {

/// Things that can be added and multiplied by a scalar, coordinate by
/// coordinate.
///
/// A value has one coordinate for each `c` that its shape has. Adding a value
/// of another shape leaves the coordinates that the other lacks as they are.
pub trait LinearSpace<F: PrimeField>: Sized {
    /// What decides which coordinates a value has.
    type Shape;

    /// A name for a coordinate.
    type Coord;

    /// The shape of a value.
    spec fn shape(self) -> Self::Shape;

    /// Whether values of a shape have a coordinate.
    spec fn has(shape: Self::Shape, c: Self::Coord) -> bool;

    /// The coordinate's value as an integer.
    spec fn at(self, c: Self::Coord) -> int;

    /// The sum, coordinate by coordinate.
    fn add(self, rhs: &Self) -> (r: Self)
        ensures
            r.shape() == self.shape(),
            forall|c: Self::Coord|
                Self::has(self.shape(), c) ==> #[trigger] r.at(c) == if Self::has(rhs.shape(), c) {
                    (self.at(c) + rhs.at(c)) % F::modulus()
                } else {
                    self.at(c)
                },
    ;

    /// The multiple by a scalar, coordinate by coordinate.
    fn mul(self, scalar: F) -> (r: Self)
        ensures
            r.shape() == self.shape(),
            forall|c: Self::Coord|
                Self::has(self.shape(), c) ==> #[trigger] r.at(c) == (self.at(c) * scalar.val())
                    % F::modulus(),
    ;
}

/// A field element has a single coordinate.
impl LinearSpace<Fq> for Fq {
    type Shape = ();

    type Coord = ();

    open spec fn shape(self) -> () {
        ()
    }

    open spec fn has(shape: (), c: ()) -> bool {
        true
    }

    open spec fn at(self, c: ()) -> int {
        self.val()
    }

    fn add(self, rhs: &Self) -> (r: Self) {
        PrimeField::add(self, *rhs)
    }

    fn mul(self, scalar: Fq) -> (r: Self) {
        PrimeField::mul(self, scalar)
    }
}

/// The coordinate's value, zero where there is none.
pub open spec fn at_or_zero<F: PrimeField, T: LinearSpace<F>>(t: T, c: T::Coord) -> int {
    if T::has(t.shape(), c) {
        t.at(c)
    } else {
        0
    }
}

/// `scalars[0] elements[0] + scalars[1] elements[1] + ...` at a coordinate.
pub open spec fn combination<F: PrimeField, T: LinearSpace<F>>(
    elements: Seq<&T>,
    scalars: Seq<int>,
    c: T::Coord,
) -> int {
    zp::sum(
        scalars.len() as int,
        |i: int| scalars[i] * at_or_zero::<F, T>(*elements[i], c),
    ) % F::modulus()
}

/// Bit `j` of `i`.
pub open spec fn bit(i: int, j: nat) -> bool {
    (i / pow2(j) as int) % 2 == 1
}

/// The product of those of the first `n` entries of `v` whose bit is set in `i`.
pub open spec fn subset_product(v: Seq<int>, i: int, n: nat) -> int
    decreases n,
{
    if n == 0 {
        1
    } else if bit(i, (n - 1) as nat) {
        subset_product(v, i, (n - 1) as nat) * v[n - 1]
    } else {
        subset_product(v, i, (n - 1) as nat)
    }
}

/// Adding the next power of two leaves the lower bits alone.
proof fn lemma_lower_bits(v: Seq<int>, i: int, m: nat, n: nat)
    requires
        n <= m,
    ensures
        subset_product(v, i + pow2(m), n) == subset_product(v, i, n),
    decreases n,
{
    if n > 0 {
        let j = (n - 1) as nat;
        lemma_lower_bits(v, i, m, j);
        let h = pow2((m - j) as nat) as int;
        let d = pow2(j) as int;
        lemma_pow2_pos(j);
        lemma_pow2_adds(j, (m - j) as nat);
        assert(i + pow2(m) == d * h + i);
        vstd::arithmetic::div_mod::lemma_hoist_over_denominator(i, h, d as nat);
        assert(h * d == d * h) by (nonlinear_arith);
        lemma_pow2_unfold((m - j) as nat);
        let half = pow2((m - j - 1) as nat) as int;
        assert((i / d + h) % 2 == (i / d) % 2) by {
            assert(h == 2 * half);
        }
    }
}

/// The highest bit below `2^(m+1)`.
proof fn lemma_top_bit(i: int, m: nat)
    requires
        0 <= i < pow2(m),
    ensures
        !bit(i, m),
        bit(i + pow2(m), m),
{
    let d = pow2(m) as int;
    lemma_pow2_pos(m);
    vstd::arithmetic::div_mod::lemma_basic_div(i, d);
    vstd::arithmetic::div_mod::lemma_fundamental_div_mod_converse(i + d, d, 1, i);
}

/// The bits of an index below `2^m` are below `m`, so that setting bit `m` only adds
/// the entry `m` to the product.
pub(crate) proof fn lemma_subset_products(v: Seq<int>, i: int, m: nat, n: nat)
    requires
        0 <= i < pow2(m),
        m < n,
    ensures
        subset_product(v, i + pow2(m), n) == subset_product(v, i, n) * v[m as int],
    decreases n,
{
    lemma_pow2_pos(m);
    if n == m + 1 {
        lemma_top_bit(i, m);
        lemma_lower_bits(v, i, m, m);
    } else {
        let j = (n - 1) as nat;
        lemma_subset_products(v, i, m, j);
        lemma_pow2_unfold((m + 1) as nat);
        if m + 1 < j {
            lemma_pow2_strictly_increases((m + 1) as nat, j);
        }
        lemma_pow2_strictly_increases(m, j);
        lemma_top_bit(i, j);
        lemma_top_bit(i + pow2(m), j);
    }
}

/// The product over no entry.
pub(crate) proof fn lemma_empty_product(v: Seq<int>, n: nat)
    ensures
        subset_product(v, 0, n) == 1,
    decreases n,
{
    if n > 0 {
        lemma_empty_product(v, (n - 1) as nat);
        lemma_pow2_pos((n - 1) as nat);
        lemma_top_bit(0, (n - 1) as nat);
    }
}

/// Computes all `2^|v|` subset-product combinations.
///
/// `pow_vec(v)[i]` is the product of `v[j]` for each bit `j` set in `i`.
pub fn pow_vec<F: PrimeField>(vector: &[F]) -> (res: Vec<F>)
    ensures
        res@.len() == pow2(vector@.len()),
        forall|i: int|
            0 <= i < res@.len() ==> (#[trigger] res@[i]).val() == subset_product(
                field::vals(vector@),
                i,
                vector@.len(),
            ) % F::modulus(),
{
    let ghost p = F::modulus();
    let ghost v = field::vals(vector@);
    proof {
        F::lemma_modulus();
        lemma2_to64();
        zp::lemma_small(p, 1);
    }
    let mut res: Vec<F> = Vec::new();
    res.push(F::one());
    let mut m: usize = 0;
    while m < vector.len()
        invariant
            m <= vector@.len(),
            p == F::modulus(),
            p > 2,
            v == field::vals(vector@),
            res@.len() == pow2(m as nat),
            forall|i: int|
                0 <= i < res@.len() ==> (#[trigger] res@[i]).val() == subset_product(
                    v,
                    i,
                    m as nat,
                ) % p,
        decreases vector@.len() - m,
    {
        let x: F = vector[m];
        let n: usize = res.len();
        let ghost res0 = res@;
        let mut i: usize = 0;
        while i < n
            invariant
                i <= n,
                n == res0.len(),
                p == F::modulus(),
                res@.len() == n + i,
                forall|j: int| 0 <= j < n ==> #[trigger] res@[j] == res0[j],
                forall|j: int|
                    0 <= j < i ==> (#[trigger] res@[n + j]).val() == (res0[j].val() * x.val()) % p,
            decreases n - i,
        {
            let e: F = res[i].mul(x);
            res.push(e);
            i = i + 1;
        }
        proof {
            let d = n as int;
            lemma_pow2_unfold((m + 1) as nat);
            assert forall|i: int| 0 <= i < res@.len() implies (#[trigger] res@[i]).val()
                == subset_product(v, i, (m + 1) as nat) % p by {
                if i < d {
                    lemma_top_bit(i, m as nat);
                    assert(res@[i] == res0[i]);
                } else {
                    let j = i - d;
                    lemma_top_bit(j, m as nat);
                    lemma_lower_bits(v, j, m as nat, m as nat);
                    assert(res@[d + j].val() == (res0[j].val() * x.val()) % p);
                    let q = subset_product(v, j, m as nat);
                    zp::lemma_reduce(p, q);
                    zp::lemma_eqm_mul(p, res0[j].val(), q, x.val(), x.val());
                }
            }
        }
        m = m + 1;
    }
    res
}

/// The linear combination `scalars[0] elements[0] + scalars[1] elements[1] + ...`
/// by Horner's method, on the shape of `buffer`; the values of `buffer` do not
/// matter.
///
/// Terms with a zero scalar are left out.
pub fn linear_combination<F: PrimeField, T: LinearSpace<F>>(
    buffer: T,
    elements: &[&T],
    scalars: &[F],
) -> (r: T)
    requires
        elements@.len() == scalars@.len(),
    ensures
        r.shape() == buffer.shape(),
        forall|c: T::Coord|
            T::has(buffer.shape(), c) ==> #[trigger] r.at(c) == combination::<F, T>(
                elements@,
                field::vals(scalars@),
                c,
            ),
{
    let ghost p = F::modulus();
    let ghost shape = buffer.shape();
    proof {
        F::lemma_modulus();
        zp::lemma_small(p, 1);
    }
    // The terms with a nonzero scalar.
    let mut kept: Vec<&T> = Vec::new();
    let mut factors: Vec<F> = Vec::new();
    let mut n: usize = 0;
    while n < elements.len()
        invariant
            n <= elements@.len(),
            elements@.len() == scalars@.len(),
            kept@.len() == factors@.len(),
            forall|i: int| 0 <= i < factors@.len() ==> (#[trigger] factors@[i]).val() != 0,
            forall|c: T::Coord| #[trigger]
                partial::<F, T>(kept@, factors@, c, kept@.len() as int) == partial::<F, T>(
                    elements@,
                    scalars@,
                    c,
                    n as int,
                ),
        decreases elements@.len() - n,
    {
        let s: F = scalars[n];
        let ghost kept0 = kept@;
        let ghost factors0 = factors@;
        if !s.is_zero() {
            kept.push(elements[n]);
            factors.push(s);
        }
        proof {
            assert forall|c: T::Coord| #[trigger]
                partial::<F, T>(kept@, factors@, c, kept@.len() as int) == partial::<F, T>(
                    elements@,
                    scalars@,
                    c,
                    n + 1,
                ) by {
                let h = kept0.len() as int;
                assert(partial::<F, T>(kept0, factors0, c, h) == partial::<F, T>(
                    elements@,
                    scalars@,
                    c,
                    n as int,
                ));
                lemma_partial_prefix::<F, T>(kept0, factors0, kept@, factors@, c, h);
                assert(0 * at_or_zero::<F, T>(*elements@[n as int], c) == 0);
            }
        }
        n = n + 1;
    }
    let k: usize = kept.len();
    let ghost nonzero = factors@;
    factors.push(F::one());
    let mut buffer = buffer;
    let mut factor: F = F::zero();
    let mut i: usize = 0;
    while i < k
        invariant
            i <= k,
            k == kept@.len(),
            factors@.len() == k + 1,
            p == F::modulus(),
            p > 2,
            shape == buffer.shape(),
            forall|j: int| 0 <= j <= k ==> (#[trigger] factors@[j]).val() != 0,
            i == 0 ==> factor.val() == 0,
            i > 0 ==> zp::eqm(p, factors@[i as int].val() * factor.val(), factors@[i - 1].val()),
            i > 0 ==> forall|c: T::Coord|
                T::has(shape, c) ==> zp::eqm(
                    p,
                    factors@[i - 1].val() * #[trigger] buffer.at(c),
                    partial::<F, T>(kept@, factors@, c, i as int),
                ),
        decreases k - i,
    {
        let ghost b0 = buffer;
        buffer = buffer.mul(factor);
        let ghost b1 = buffer;
        buffer = buffer.add(kept[i]);
        let next: F = factors[i + 1].invert().unwrap();
        let ghost factor0 = factor.val();
        factor = factors[i].mul(next);
        proof {
            let s = factors@[i as int].val();
            assert forall|c: T::Coord| T::has(shape, c) implies zp::eqm(
                p,
                s * #[trigger] buffer.at(c),
                partial::<F, T>(kept@, factors@, c, i + 1),
            ) by {
                let x = b0.at(c);
                let e = at_or_zero::<F, T>(*kept@[i as int], c);
                let y = b1.at(c);
                assert(y == (x * factor0) % p);
                zp::lemma_reduce(p, x * factor0);
                zp::lemma_reduce(p, y + e);
                zp::lemma_eqm_add(p, y, x * factor0, e, e);
                assert(zp::eqm(p, buffer.at(c), x * factor0 + e));
                zp::lemma_eqm_mul(p, s, s, buffer.at(c), x * factor0 + e);
                assert(s * (x * factor0 + e) == (s * factor0) * x + s * e) by (nonlinear_arith);
                if i == 0 {
                    assert((s * 0) * x == 0) by (nonlinear_arith);
                } else {
                    let t = factors@[i - 1].val();
                    zp::lemma_eqm_mul(p, s * factor0, t, x, x);
                    zp::lemma_eqm_add(
                        p,
                        (s * factor0) * x,
                        partial::<F, T>(kept@, factors@, c, i as int),
                        s * e,
                        s * e,
                    );
                }
            }
            let (a, u, d) = (s, next.val(), factors@[i + 1].val());
            zp::lemma_small(p, 1);
            zp::lemma_reduce(p, a * u);
            zp::lemma_eqm_mul(p, d, d, factor.val(), a * u);
            assert(d * (a * u) == a * (d * u)) by (nonlinear_arith);
            zp::lemma_eqm_mul(p, a, a, d * u, 1);
        }
        i = i + 1;
    }
    let r: T = buffer.mul(factor);
    proof {
        let vals = field::vals(scalars@);
        assert forall|c: T::Coord| T::has(shape, c) implies #[trigger] r.at(c) == combination::<
            F,
            T,
        >(elements@, vals, c) by {
            let f = |i: int| scalars@[i].val() * at_or_zero::<F, T>(*elements@[i], c);
            let g = |i: int| vals[i] * at_or_zero::<F, T>(*elements@[i], c);
            zp::lemma_sum_same(n as int, f, g);
            lemma_partial_prefix::<F, T>(kept@, nonzero, kept@, factors@, c, k as int);
            assert(partial::<F, T>(kept@, nonzero, c, k as int) == partial::<F, T>(
                elements@,
                scalars@,
                c,
                n as int,
            ));
            let x = buffer.at(c);
            if k == 0 {
                assert(x * 0 == 0);
            } else {
                let t = factors@[k - 1].val();
                assert(1 * factor.val() == factor.val());
                zp::lemma_eqm_mul(p, x, x, factor.val(), t);
                assert(x * t == t * x) by (nonlinear_arith);
            }
        }
    }
    r
}

/// The sum of the first `n` terms of a combination, not reduced.
spec fn partial<F: PrimeField, T: LinearSpace<F>>(
    elements: Seq<&T>,
    scalars: Seq<F>,
    c: T::Coord,
    n: int,
) -> int {
    zp::sum(n, |i: int| scalars[i].val() * at_or_zero::<F, T>(*elements[i], c))
}

/// A partial sum only depends on the terms it sums.
proof fn lemma_partial_prefix<F: PrimeField, T: LinearSpace<F>>(
    e: Seq<&T>,
    s: Seq<F>,
    e1: Seq<&T>,
    s1: Seq<F>,
    c: T::Coord,
    n: int,
)
    requires
        forall|i: int| 0 <= i < n ==> e[i] == e1[i] && s[i] == s1[i],
    ensures
        partial::<F, T>(e, s, c, n) == partial::<F, T>(e1, s1, c, n),
{
    let f = |i: int| s[i].val() * at_or_zero::<F, T>(*e[i], c);
    let g = |i: int| s1[i].val() * at_or_zero::<F, T>(*e1[i], c);
    zp::lemma_sum_same(n, f, g);
}

/// `fixed wi / (beta - wi)`.
fn lagrange_term<F: PrimeField>(fixed: F, wi: F, beta: F) -> (r: F)
    requires
        !zp::eqm(F::modulus(), beta.val(), wi.val()),
    ensures
        domain::is_quotient(
            F::modulus(),
            r.val(),
            fixed.val() * wi.val(),
            beta.val() - wi.val(),
        ),
{
    let ghost p = F::modulus();
    let ghost d = beta.val() - wi.val();
    let diff: F = beta.sub(wi);
    proof {
        F::lemma_modulus();
        zp::lemma_small(p, 1);
        zp::lemma_reduce(p, d);
        if diff.val() == 0 {
            zp::lemma_small(p, 0);
            zp::lemma_eqm_add(p, d, 0, wi.val(), wi.val());
            assert(false);
        }
    }
    let inv: F = diff.invert().unwrap();
    let scaled: F = fixed.mul(wi);
    let r: F = scaled.mul(inv);
    proof {
        let (a, u) = (fixed.val() * wi.val(), inv.val());
        zp::lemma_eqm_mul(p, diff.val(), d, u, u);
        assert(zp::eqm(p, d * u, 1));
        zp::lemma_reduce(p, a);
        zp::lemma_reduce(p, scaled.val() * u);
        zp::lemma_eqm_mul(p, scaled.val(), a, u, u);
        zp::lemma_eqm_mul(p, r.val(), a * u, d, d);
        assert((a * u) * d == a * (d * u)) by (nonlinear_arith);
        zp::lemma_eqm_mul(p, a, a, d * u, 1);
    }
    r
}

/// A value that satisfies the closed form of the Lagrange basis is its value.
proof fn lemma_lagrange_quotient<F: PrimeField>(l: nat, i: int, x: int, fixed: int, wi: int, r: int)
    requires
        l <= F::two_adicity(),
        0 <= i < pow2(l),
        0 <= r < F::modulus(),
        zp::eqm(F::modulus(), wi, zp::pw(domain::omega::<F>(l), i)),
        zp::eqm(F::modulus(), pow2(l) * fixed, zp::pw(x, pow2(l) as int) - 1),
        domain::is_quotient(F::modulus(), r, fixed * wi, x - wi),
    ensures
        r == roots::lagrange(F::modulus(), domain::omega::<F>(l), l, i, x),
{
    let p = F::modulus();
    let w = domain::omega::<F>(l);
    let n = pow2(l) as int;
    let wp = zp::pw(w, i);
    let z = zp::pw(x, n) - 1;
    let big = roots::lagrange(p, w, l, i, x);
    F::lemma_modulus();
    domain::lemma_omega::<F>(l);
    interpolation::lemma_lagrange_closed_form(p, w, l, i, x);
    interpolation::lemma_eval_reduced(
        p,
        roots::interpolate(p, roots::unit(pow2(l), i), w, l),
        x,
    );
    roots::lemma_size_inv(p, l);
    let ninv = roots::size_inv(p, l);
    let d = x - wp;
    zp::lemma_eqm_sub(p, x, x, wi, wp);
    let u = choose|u: int| zp::eqm(p, #[trigger] ((x - wi) * u), 1);
    zp::lemma_eqm_mul(p, x - wi, d, u, u);
    assert(zp::eqm(p, d * u, 1));
    let a = n * d;
    assert(a * (ninv * u) == (n * ninv) * (d * u)) by (nonlinear_arith)
        requires
            a == n * d,
    ;
    zp::lemma_eqm_mul(p, n * ninv, 1, d * u, 1);
    // n d r = n (fixed wi) = z wp
    zp::lemma_eqm_mul(p, r, r, x - wi, d);
    zp::lemma_eqm_mul(p, n, n, r * d, fixed * wi);
    assert(a * r == n * (r * d)) by (nonlinear_arith)
        requires
            a == n * d,
    ;
    assert(n * (fixed * wi) == (n * fixed) * wi) by (nonlinear_arith);
    zp::lemma_eqm_mul(p, n * fixed, z, wi, wp);
    zp::lemma_cancel(p, a, ninv * u, r, big);
    zp::lemma_small(p, r);
    zp::lemma_small(p, big);
}

/// Evaluates the Lagrange basis polynomials of `domain` at `beta`, which must
/// not lie in the domain.
///
/// Entry `i` is `(beta^n - 1) w^i / (n (beta - w^i))`.
pub fn eval_lagrange_on_beta<F: PrimeField>(domain: &EvaluationDomain<F>, beta: &F) -> (r: Vec<F>)
    requires
        domain.wf(),
        forall|i: int|
            0 <= i < pow2(domain.log_n()) ==> !zp::eqm(
                F::modulus(),
                beta.val(),
                #[trigger] zp::pw(domain::omega::<F>(domain.log_n()), i),
            ),
    ensures
        r@.len() == pow2(domain.log_n()),
        forall|i: int|
            0 <= i < r@.len() ==> (#[trigger] r@[i]).val() == roots::lagrange(
                F::modulus(),
                domain::omega::<F>(domain.log_n()),
                domain.log_n(),
                i,
                beta.val(),
            ),
{
    let ghost p = F::modulus();
    let ghost l = domain.log_n();
    let ghost w = domain::omega::<F>(l);
    proof {
        F::lemma_modulus();
        domain.lemma_sizes();
    }
    let n: u64 = domain.n();
    let omega: F = domain.get_omega();
    let one: F = F::one();
    let power: F = beta.pow(n);
    let vanishing: F = power.sub(one);
    let n_inv: F = size_inverse(n as usize, Ghost(l));
    let fixed: F = vanishing.mul(n_inv);
    let point: F = *beta;
    let omegas: Vec<F> = powers(omega, n as usize);
    proof {
        assert forall|i: int| 0 <= i < omegas@.len() implies !zp::eqm(
            p,
            point.val(),
            (#[trigger] omegas@[i]).val(),
        ) by {
            zp::lemma_reduce(p, zp::pw(w, i));
        }
    }
    let ghost omegas0 = omegas@;
    let term = |wi: F| -> (t: F)
        requires
            !zp::eqm(F::modulus(), point.val(), wi.val()),
        ensures
            domain::is_quotient(
                F::modulus(),
                t.val(),
                fixed.val() * wi.val(),
                point.val() - wi.val(),
            ),
    {
        lagrange_term(fixed, wi, point)
    };
    let r: Vec<F> = map_items(omegas, true, term);
    proof {
        let x = point.val();
        let z = zp::pw(x, n as int) - 1;
        let ninv = n_inv.val();
        roots::lemma_size_inv(p, l);
        zp::lemma_reduce(p, zp::pw(x, n as int));
        zp::lemma_eqm_sub(p, power.val(), zp::pw(x, n as int), 1, 1);
        zp::lemma_reduce(p, power.val() - 1);
        zp::lemma_reduce(p, vanishing.val() * ninv);
        zp::lemma_eqm_mul(p, vanishing.val(), z, ninv, ninv);
        zp::lemma_eqm_mul(p, n as int, n as int, fixed.val(), z * ninv);
        assert(n * (z * ninv) == z * (n * ninv)) by (nonlinear_arith);
        zp::lemma_eqm_mul(p, z, z, n * ninv, 1);
        assert(z * 1 == z);
        assert forall|i: int| 0 <= i < r@.len() implies (#[trigger] r@[i]).val()
            == roots::lagrange(p, w, l, i, x) by {
            zp::lemma_reduce(p, zp::pw(w, i));
            r@[i].lemma_val();
            lemma_lagrange_quotient::<F>(
                l,
                i,
                x,
                fixed.val(),
                omegas0[i].val(),
                r@[i].val(),
            );
        }
    }
    r
}

} // verus!
