//! Laws of interpolation over the subgroup that a root of unity generates.
use crate::roots;
use crate::zp;
use vstd::arithmetic::power2::*;
use vstd::prelude::*;

verus! {

/// `1 + y + y^2 + ...` for `y = x v^i`, with `2^l` summands: the Lagrange basis
/// polynomial without its leading factor.
spec fn geometric(v: int, n: int, i: int, x: int) -> int {
    zp::sum(n, |m: int| zp::pw(v, i * m) * zp::pw(x, m))
}

/// The interpolant is a linear combination of the values, with factors that
/// depend on the point alone.
proof fn lemma_interpolate_kernel(p: int, a: Seq<int>, w: int, l: nat, x: int)
    requires
        p > 1,
        p % 2 == 1,
        a.len() <= pow2(l),
    ensures
        zp::eqm(
            p,
            roots::interpolate_at(p, a, w, l, x),
            zp::sum(
                a.len() as int,
                |i: int|
                    a[i] * (roots::size_inv(p, l) * geometric(
                        roots::root_inv(p, w, l),
                        a.len() as int,
                        i,
                        x,
                    )),
            ),
        ),
{
    let n = a.len() as int;
    let v = roots::root_inv(p, w, l);
    let k = roots::size_inv(p, l);
    let c = roots::interpolate(p, a, w, l);
    let term = |m: int| c[m] * zp::pw(x, m);
    let g = |m: int, i: int| (k * a[i]) * (zp::pw(v, i * m) * zp::pw(x, m));
    let rows = |m: int| zp::sum(n, |i: int| g(m, i));
    assert forall|m: int| 0 <= m < n implies zp::eqm(p, #[trigger] term(m), rows(m)) by {
        let inner = |i: int| a[i] * zp::pw(v, i * m);
        let d = zp::sum(n, inner);
        zp::lemma_reduce(p, k * d);
        zp::lemma_eqm_mul(p, c[m], k * d, zp::pw(x, m), zp::pw(x, m));
        let f = k * zp::pw(x, m);
        assert((k * d) * zp::pw(x, m) == f * d) by (nonlinear_arith)
            requires
                f == k * zp::pw(x, m),
        ;
        zp::lemma_sum_scale(n, f, inner);
        let fi = |i: int| f * inner(i);
        let gi = |i: int| g(m, i);
        assert forall|i: int| 0 <= i < n implies #[trigger] fi(i) == gi(i) by {
            let (ai, vi, xm) = (a[i], zp::pw(v, i * m), zp::pw(x, m));
            assert((k * xm) * (ai * vi) == (k * ai) * (vi * xm)) by (nonlinear_arith);
        }
        zp::lemma_sum_same(n, fi, gi);
    }
    zp::lemma_sum_eqm(p, n, term, rows);
    zp::lemma_reduce(p, zp::sum(n, term));
    zp::lemma_sum_swap(n, n, g);
    let cols = |i: int| zp::sum(n, |m: int| g(m, i));
    let goal = |i: int| a[i] * (k * geometric(v, n, i, x));
    assert forall|i: int| 0 <= i < n implies #[trigger] cols(i) == goal(i) by {
        let s = |m: int| zp::pw(v, i * m) * zp::pw(x, m);
        zp::lemma_sum_scale(n, k * a[i], s);
        let ks = |m: int| (k * a[i]) * s(m);
        let gm = |m: int| g(m, i);
        assert forall|m: int| 0 <= m < n implies #[trigger] ks(m) == gm(m) by {}
        zp::lemma_sum_same(n, ks, gm);
        let (ai, z) = (a[i], zp::sum(n, s));
        assert((k * ai) * z == ai * (k * z)) by (nonlinear_arith);
    }
    zp::lemma_sum_same(n, cols, goal);
}

proof fn lemma_lagrange_kernel(p: int, w: int, l: nat, i: int, x: int)
    requires
        p > 1,
        p % 2 == 1,
        0 <= i < pow2(l),
    ensures
        zp::eqm(
            p,
            roots::lagrange(p, w, l, i, x),
            roots::size_inv(p, l) * geometric(roots::root_inv(p, w, l), pow2(l) as int, i, x),
        ),
{
    let n = pow2(l) as int;
    let v = roots::root_inv(p, w, l);
    let k = roots::size_inv(p, l);
    let e = roots::unit(n as nat, i);
    lemma_interpolate_kernel(p, e, w, l, x);
    let f = |j: int| e[j] * (k * geometric(v, n, j, x));
    assert forall|j: int| 0 <= j < n && j != i implies zp::eqm(p, #[trigger] f(j), 0) by {
        assert(0 * (k * geometric(v, n, j, x)) == 0);
    }
    zp::lemma_sum_single(p, n, i, f);
    assert(1 * (k * geometric(v, n, i, x)) == k * geometric(v, n, i, x));
}

/// Interpolation is the combination of the values with the Lagrange basis:
/// `W(x) = L_0(x) a[0] + L_1(x) a[1] + ...`.
pub proof fn lemma_interpolation_is_lagrange(p: int, a: Seq<int>, w: int, l: nat, x: int)
    requires
        p > 1,
        p % 2 == 1,
        a.len() == pow2(l),
    ensures
        roots::interpolate_at(p, a, w, l, x) == zp::sum(
            a.len() as int,
            |i: int| roots::lagrange(p, w, l, i, x) * a[i],
        ) % p,
{
    let n = a.len() as int;
    let v = roots::root_inv(p, w, l);
    let k = roots::size_inv(p, l);
    lemma_interpolate_kernel(p, a, w, l, x);
    let f = |i: int| a[i] * (k * geometric(v, n, i, x));
    let g = |i: int| roots::lagrange(p, w, l, i, x) * a[i];
    assert forall|i: int| 0 <= i < n implies zp::eqm(p, #[trigger] f(i), g(i)) by {
        lemma_lagrange_kernel(p, w, l, i, x);
        let z = k * geometric(v, n, i, x);
        zp::lemma_eqm_mul(p, z, roots::lagrange(p, w, l, i, x), a[i], a[i]);
        assert(z * a[i] == a[i] * z) by (nonlinear_arith);
    }
    zp::lemma_sum_eqm(p, n, f, g);
    lemma_eval_reduced(p, roots::interpolate(p, a, w, l), x);
}

/// A value of a polynomial is a canonical residue.
pub proof fn lemma_eval_reduced(p: int, c: Seq<int>, x: int)
    requires
        p > 0,
    ensures
        0 <= roots::poly_eval(p, c, x) < p,
        roots::poly_eval(p, c, x) % p == roots::poly_eval(p, c, x),
{
    zp::lemma_reduce(p, zp::sum(c.len() as int, |i: int| c[i] * zp::pw(x, i)));
}

/// The powers of `w^a / w^b` add up to the group order when `a = b`, else to zero.
proof fn lemma_orthogonal(p: int, w: int, v: int, l: nat, a: int, b: int)
    requires
        p > 1,
        roots::is_root(p, w, l),
        zp::eqm(p, w * v, 1),
        0 <= a < pow2(l),
        0 <= b < pow2(l),
    ensures
        zp::eqm(
            p,
            zp::sum(pow2(l) as int, |m: int| zp::pw(v, b * m) * zp::pw(zp::pw(w, a), m)),
            if a == b {
                pow2(l) as int
            } else {
                0
            },
        ),
{
    let n = pow2(l) as int;
    let f = |m: int| zp::pw(v, b * m) * zp::pw(zp::pw(w, a), m);
    if a == b {
        let one = |m: int| 1int;
        assert forall|m: int| 0 <= m < n implies zp::eqm(p, #[trigger] f(m), one(m)) by {
            zp::lemma_pw_pw(w, a, m);
            zp::lemma_inverse_pow(p, w, v, a * m);
            assert(zp::pw(v, a * m) * zp::pw(w, a * m) == zp::pw(w, a * m) * zp::pw(v, a * m))
                by (nonlinear_arith);
        }
        zp::lemma_sum_eqm(p, n, f, one);
        zp::lemma_sum_const(n, 1);
        assert(n * 1 == n);
    } else if a > b {
        let d = a - b;
        let g = |m: int| zp::pw(w, d * m);
        assert forall|m: int| 0 <= m < n implies zp::eqm(p, #[trigger] f(m), g(m)) by {
            assert(a * m == b * m + d * m && b * m >= 0 && d * m >= 0) by (nonlinear_arith)
                requires
                    a == b + d,
                    m >= 0,
                    b >= 0,
                    d >= 0,
            ;
            zp::lemma_pw_pw(w, a, m);
            zp::lemma_pw_add(w, b * m, d * m);
            zp::lemma_inverse_pow(p, w, v, b * m);
            let (s, t, u) = (zp::pw(v, b * m), zp::pw(w, b * m), zp::pw(w, d * m));
            assert(s * (t * u) == (t * s) * u) by (nonlinear_arith);
            zp::lemma_eqm_mul(p, t * s, 1, u, u);
            assert(1 * u == u);
        }
        zp::lemma_sum_eqm(p, n, f, g);
        roots::lemma_root_sum(p, w, l, d);
    } else {
        let d = b - a;
        let g = |m: int| zp::pw(v, d * m);
        roots::lemma_root_inv_is_root(p, w, v, l);
        assert forall|m: int| 0 <= m < n implies zp::eqm(p, #[trigger] f(m), g(m)) by {
            assert(b * m == a * m + d * m && a * m >= 0 && d * m >= 0) by (nonlinear_arith)
                requires
                    b == a + d,
                    m >= 0,
                    a >= 0,
                    d >= 0,
            ;
            zp::lemma_pw_pw(w, a, m);
            zp::lemma_pw_add(v, a * m, d * m);
            zp::lemma_inverse_pow(p, w, v, a * m);
            let (s, t, u) = (zp::pw(v, a * m), zp::pw(w, a * m), zp::pw(v, d * m));
            assert((s * u) * t == (t * s) * u) by (nonlinear_arith);
            zp::lemma_eqm_mul(p, t * s, 1, u, u);
            assert(1 * u == u);
        }
        zp::lemma_sum_eqm(p, n, f, g);
        roots::lemma_root_sum(p, v, l, d);
    }
}

/// The `i`-th Lagrange basis polynomial is one at `w^i` and zero at the other
/// powers of `w`.
pub proof fn lemma_lagrange_on_domain(p: int, w: int, l: nat, i: int, k: int)
    requires
        p > 1,
        p % 2 == 1,
        roots::is_root(p, w, l),
        0 <= i < pow2(l),
        0 <= k < pow2(l),
    ensures
        roots::lagrange(p, w, l, i, zp::pw(w, k)) == if i == k {
            1int
        } else {
            0
        },
{
    let n = pow2(l) as int;
    let v = roots::root_inv(p, w, l);
    let s = roots::size_inv(p, l);
    let x = zp::pw(w, k);
    roots::lemma_root_inv(p, w, l);
    roots::lemma_size_inv(p, l);
    lemma_lagrange_kernel(p, w, l, i, x);
    lemma_orthogonal(p, w, v, l, k, i);
    let g = geometric(v, n, i, x);
    let r = if i == k {
        n
    } else {
        0
    };
    zp::lemma_eqm_mul(p, s, s, g, r);
    assert(s * n == n * s) by (nonlinear_arith);
    assert(s * 0 == 0);
    lemma_eval_reduced(p, roots::interpolate(p, roots::unit(n as nat, i), w, l), x);
    zp::lemma_small(p, 1);
    zp::lemma_small(p, 0);
}

/// The interpolant takes the given values: `W(w^k) = a[k]`.
pub proof fn lemma_interpolates(p: int, a: Seq<int>, w: int, l: nat, k: int)
    requires
        p > 1,
        p % 2 == 1,
        roots::is_root(p, w, l),
        a.len() == pow2(l),
        0 <= k < a.len(),
    ensures
        roots::interpolate_at(p, a, w, l, zp::pw(w, k)) == a[k] % p,
{
    let n = a.len() as int;
    let x = zp::pw(w, k);
    lemma_interpolation_is_lagrange(p, a, w, l, x);
    let f = |i: int| roots::lagrange(p, w, l, i, x) * a[i];
    assert forall|i: int| 0 <= i < n && i != k implies zp::eqm(p, #[trigger] f(i), 0) by {
        lemma_lagrange_on_domain(p, w, l, i, k);
        assert(0 * a[i] == 0);
    }
    lemma_lagrange_on_domain(p, w, l, k, k);
    zp::lemma_sum_single(p, n, k, f);
    assert(1 * a[k] == a[k]);
}

/// A polynomial of degree less than `2^l` is determined by its values at the
/// powers of `w`: interpolating them gives its coefficients back.
pub proof fn lemma_interpolate_unique(p: int, c: Seq<int>, w: int, l: nat)
    requires
        p > 1,
        p % 2 == 1,
        roots::is_root(p, w, l),
        c.len() == pow2(l),
    ensures
        ({
            let a = Seq::new(c.len(), |j: int| roots::poly_eval(p, c, zp::pw(w, j)));
            forall|i: int|
                0 <= i < c.len() ==> #[trigger] roots::interpolate(p, a, w, l)[i] == c[i] % p
        }),
{
    let n = c.len() as int;
    let v = roots::root_inv(p, w, l);
    let s = roots::size_inv(p, l);
    let a = Seq::new(c.len(), |j: int| roots::poly_eval(p, c, zp::pw(w, j)));
    roots::lemma_root_inv(p, w, l);
    roots::lemma_size_inv(p, l);
    assert forall|i: int| 0 <= i < n implies #[trigger] roots::interpolate(p, a, w, l)[i] == c[i]
        % p by {
        // sum over j of a[j] v^(j i), with a[j] = sum over m of c[m] w^(j m)
        let outer = |j: int| a[j] * zp::pw(v, j * i);
        let g = |j: int, m: int| c[m] * (zp::pw(v, i * j) * zp::pw(zp::pw(w, m), j));
        let rows = |j: int| zp::sum(n, |m: int| g(j, m));
        assert forall|j: int| 0 <= j < n implies zp::eqm(p, #[trigger] outer(j), rows(j)) by {
            let inner = |m: int| c[m] * zp::pw(zp::pw(w, j), m);
            let d = zp::sum(n, inner);
            zp::lemma_reduce(p, d);
            let q = zp::pw(v, j * i);
            zp::lemma_eqm_mul(p, a[j], d, q, q);
            assert(d * q == q * d) by (nonlinear_arith);
            zp::lemma_sum_scale(n, q, inner);
            let qi = |m: int| q * inner(m);
            let gm = |m: int| g(j, m);
            assert(i * j == j * i) by (nonlinear_arith);
            assert forall|m: int| 0 <= m < n implies #[trigger] qi(m) == gm(m) by {
                zp::lemma_pw_pw(w, j, m);
                zp::lemma_pw_pw(w, m, j);
                assert(j * m == m * j) by (nonlinear_arith);
                let (x, y) = (c[m], zp::pw(w, j * m));
                assert(q * (x * y) == x * (q * y)) by (nonlinear_arith);
            }
            zp::lemma_sum_same(n, qi, gm);
        }
        zp::lemma_sum_eqm(p, n, outer, rows);
        zp::lemma_sum_swap(n, n, g);
        let cols = |m: int| zp::sum(n, |j: int| g(j, m));
        assert forall|m: int| 0 <= m < n implies zp::eqm(
            p,
            #[trigger] cols(m),
            if m == i {
                c[m] * n
            } else {
                0
            },
        ) by {
            let f = |j: int| zp::pw(v, i * j) * zp::pw(zp::pw(w, m), j);
            zp::lemma_sum_scale(n, c[m], f);
            let cf = |j: int| c[m] * f(j);
            let gj = |j: int| g(j, m);
            assert forall|j: int| 0 <= j < n implies #[trigger] cf(j) == gj(j) by {}
            zp::lemma_sum_same(n, cf, gj);
            lemma_orthogonal(p, w, v, l, m, i);
            zp::lemma_eqm_mul(
                p,
                c[m],
                c[m],
                zp::sum(n, f),
                if m == i {
                    n
                } else {
                    0
                },
            );
            assert(c[m] * 0 == 0);
        }
        zp::lemma_sum_single(p, n, i, cols);
        zp::lemma_eqm_mul(p, s, s, roots::dft_at(a, v, i), c[i] * n);
        assert(s * (c[i] * n) == (n * s) * c[i]) by (nonlinear_arith);
        zp::lemma_eqm_mul(p, n * s, 1, c[i], c[i]);
        assert(1 * c[i] == c[i]);
    }
}

/// The closed form of the Lagrange basis:
/// `2^l (x - w^i) L_i(x) = (x^(2^l) - 1) w^i`.
pub proof fn lemma_lagrange_closed_form(p: int, w: int, l: nat, i: int, x: int)
    requires
        p > 1,
        p % 2 == 1,
        roots::is_root(p, w, l),
        0 <= i < pow2(l),
    ensures
        zp::eqm(
            p,
            (pow2(l) * (x - zp::pw(w, i))) * roots::lagrange(p, w, l, i, x),
            (zp::pw(x, pow2(l) as int) - 1) * zp::pw(w, i),
        ),
{
    let n = pow2(l) as int;
    let v = roots::root_inv(p, w, l);
    let s = roots::size_inv(p, l);
    let wi = zp::pw(w, i);
    let vi = zp::pw(v, i);
    let y = vi * x;
    lemma_pow2_pos(l);
    roots::lemma_root_inv(p, w, l);
    roots::lemma_root_inv_is_root(p, w, v, l);
    roots::lemma_size_inv(p, l);
    roots::lemma_root_full(p, v, l);
    lemma_lagrange_kernel(p, w, l, i, x);
    let g = geometric(v, n, i, x);
    let f = |m: int| zp::pw(v, i * m) * zp::pw(x, m);
    let h = |m: int| zp::pw(y, m);
    assert forall|m: int| 0 <= m < n implies #[trigger] f(m) == h(m) by {
        zp::lemma_pw_pw(v, i, m);
        zp::lemma_pw_mul(vi, x, m);
    }
    zp::lemma_sum_same(n, f, h);
    lemma_geometric(y, n);
    // y^n = x^n
    zp::lemma_pw_mul(vi, x, n);
    zp::lemma_pw_pw(v, i, n);
    zp::lemma_pw_pw(v, n, i);
    assert(i * n == n * i) by (nonlinear_arith);
    zp::lemma_unit_pow(p, zp::pw(v, n), i);
    let xn = zp::pw(x, n);
    zp::lemma_eqm_mul(p, zp::pw(vi, n), 1, xn, xn);
    assert(1 * xn == xn);
    zp::lemma_eqm_sub(p, zp::pw(y, n), xn, 1, 1);
    // w^i (y - 1) = x - w^i
    zp::lemma_inverse_pow(p, w, v, i);
    zp::lemma_eqm_mul(p, wi * vi, 1, x, x);
    assert(wi * (y - 1) == (wi * vi) * x - wi) by (nonlinear_arith)
        requires
            y == vi * x,
    ;
    assert(1 * x == x);
    zp::lemma_eqm_sub(p, (wi * vi) * x, x, wi, wi);
    // n s = 1
    let lag = roots::lagrange(p, w, l, i, x);
    let d = x - wi;
    zp::lemma_eqm_mul(p, n * d, n * d, lag, s * g);
    assert((n * d) * (s * g) == (n * s) * (d * g)) by (nonlinear_arith);
    zp::lemma_eqm_mul(p, n * s, 1, d * g, d * g);
    assert(1 * (d * g) == d * g);
    zp::lemma_eqm_mul(p, d, wi * (y - 1), g, g);
    assert((wi * (y - 1)) * g == ((y - 1) * g) * wi) by (nonlinear_arith);
    zp::lemma_eqm_mul(p, (y - 1) * g, xn - 1, wi, wi);
}

/// `(y - 1) (1 + y + ... + y^(n-1)) = y^n - 1`.
proof fn lemma_geometric(y: int, n: int)
    requires
        n >= 0,
    ensures
        (y - 1) * zp::sum(n, |m: int| zp::pw(y, m)) == zp::pw(y, n) - 1,
    decreases n,
{
    let h = |m: int| zp::pw(y, m);
    if n == 0 {
        zp::lemma_pw0(y);
        assert((y - 1) * 0 == 0);
    } else {
        lemma_geometric(y, n - 1);
        zp::lemma_pw_succ(y, n - 1);
        let (a, b) = (zp::sum(n - 1, h), zp::pw(y, n - 1));
        assert((y - 1) * (a + b) == (y - 1) * a + y * b - b) by (nonlinear_arith);
    }
}

} // verus!
