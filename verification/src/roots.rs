//! Roots of unity, the discrete Fourier transform and interpolation over the
//! subgroup that a root of unity generates.
use crate::fft;
use crate::zp;
use vstd::arithmetic::power2::*;
use vstd::prelude::*;

verus! {

/// `w` has multiplicative order `2^l` modulo `p`.
pub open spec fn is_root(p: int, w: int, l: nat) -> bool {
    if l == 0 {
        zp::eqm(p, w, 1)
    } else {
        zp::eqm(p, zp::pw(w, pow2((l - 1) as nat) as int), -1)
    }
}

/// `x[0] + x[1] v^j + x[2] v^(2 j) + ...`.
pub open spec fn dft_at(x: Seq<int>, v: int, j: int) -> int {
    zp::sum(x.len() as int, |i: int| x[i] * zp::pw(v, i * j))
}

/// The value at `x` of the polynomial with coefficients `c`, constant first.
pub open spec fn poly_eval(p: int, c: Seq<int>, x: int) -> int {
    zp::sum(c.len() as int, |i: int| c[i] * zp::pw(x, i)) % p
}

/// The inverse of an element `w` of order `2^l`.
pub open spec fn root_inv(p: int, w: int, l: nat) -> int {
    zp::pw(w, pow2(l) - 1) % p
}

/// The inverse of `2^l`, for odd `p`.
pub open spec fn size_inv(p: int, l: nat) -> int {
    zp::pw((p + 1) / 2, l as int) % p
}

/// The coefficients of the polynomial of degree less than `2^l` that takes the
/// value `a[j]` at `w^j`.
pub open spec fn interpolate(p: int, a: Seq<int>, w: int, l: nat) -> Seq<int> {
    Seq::new(
        a.len(),
        |i: int| (size_inv(p, l) * dft_at(a, root_inv(p, w, l), i)) % p,
    )
}

/// The value at `x` of the polynomial that interpolates `a` over the powers of `w`.
pub open spec fn interpolate_at(p: int, a: Seq<int>, w: int, l: nat, x: int) -> int {
    poly_eval(p, interpolate(p, a, w, l), x)
}

/// One at index `i` and zero elsewhere.
pub open spec fn unit(n: nat, i: int) -> Seq<int> {
    Seq::new(n, |j: int| if j == i { 1int } else { 0int })
}

/// The value at `x` of the `i`-th Lagrange basis polynomial over the powers of
/// `w`: the polynomial of degree less than `2^l` that is one at `w^i` and zero
/// at the other powers.
pub open spec fn lagrange(p: int, w: int, l: nat, i: int, x: int) -> int {
    interpolate_at(p, unit(pow2(l), i), w, l, x)
}

// ---------------------------------------------------------------------------
// Roots of unity
// ---------------------------------------------------------------------------

/// The full power of a root is one.
pub proof fn lemma_root_full(p: int, w: int, l: nat)
    requires
        p > 1,
        is_root(p, w, l),
    ensures
        zp::eqm(p, zp::pw(w, pow2(l) as int), 1),
{
    if l == 0 {
        lemma2_to64();
        zp::lemma_pw1(w);
    } else {
        let h = pow2((l - 1) as nat) as int;
        lemma_pow2_unfold(l);
        zp::lemma_pw_add(w, h, h);
        zp::lemma_eqm_mul(p, zp::pw(w, h), -1, zp::pw(w, h), -1);
    }
}

/// The square of a root is a root of half the order.
pub proof fn lemma_root_square(p: int, w: int, l: nat)
    requires
        p > 1,
        l >= 1,
        is_root(p, w, l),
    ensures
        is_root(p, w * w, (l - 1) as nat),
        zp::pw(w, 2) == w * w,
{
    zp::lemma_pw1(w);
    zp::lemma_pw_succ(w, 1);
    if l == 1 {
        lemma2_to64();
        zp::lemma_eqm_mul(p, w, -1, w, -1);
    } else {
        let h = pow2((l - 2) as nat) as int;
        lemma_pow2_unfold((l - 1) as nat);
        zp::lemma_pw_pw(w, 2, h);
    }
}

/// Raising a root to the power `2^m` divides its order by `2^m`.
pub proof fn lemma_root_power(p: int, w: int, l: nat, m: nat)
    requires
        p > 1,
        m <= l,
        is_root(p, w, l),
    ensures
        is_root(p, zp::pw(w, pow2(m) as int), (l - m) as nat),
    decreases m,
{
    if m == 0 {
        lemma2_to64();
        zp::lemma_pw1(w);
    } else {
        lemma_root_power(p, w, l, (m - 1) as nat);
        let h = pow2((m - 1) as nat) as int;
        lemma_root_square(p, zp::pw(w, h), (l - m + 1) as nat);
        lemma_pow2_unfold(m);
        zp::lemma_pw_add(w, h, h);
    }
}

/// Being a root only depends on the residue.
pub proof fn lemma_root_eqm(p: int, w: int, v: int, l: nat)
    requires
        p > 1,
        is_root(p, w, l),
        zp::eqm(p, w, v),
    ensures
        is_root(p, v, l),
{
    if l > 0 {
        zp::lemma_eqm_pow(p, w, v, pow2((l - 1) as nat) as int);
    }
}

/// `root_inv` is an inverse.
pub proof fn lemma_root_inv(p: int, w: int, l: nat)
    requires
        p > 1,
        is_root(p, w, l),
    ensures
        zp::eqm(p, w * root_inv(p, w, l), 1),
        0 <= root_inv(p, w, l) < p,
{
    let n = pow2(l) as int;
    lemma_pow2_pos(l);
    lemma_root_full(p, w, l);
    zp::lemma_pw_succ(w, n - 1);
    zp::lemma_reduce(p, zp::pw(w, n - 1));
    zp::lemma_eqm_mul(p, w, w, root_inv(p, w, l), zp::pw(w, n - 1));
}

/// The inverse of a root is a root of the same order.
pub proof fn lemma_root_inv_is_root(p: int, w: int, v: int, l: nat)
    requires
        p > 1,
        is_root(p, w, l),
        zp::eqm(p, w * v, 1),
    ensures
        is_root(p, v, l),
{
    if l == 0 {
        zp::lemma_eqm_mul(p, w, 1, v, v);
        assert(1 * v == v);
    } else {
        let h = pow2((l - 1) as nat) as int;
        zp::lemma_inverse_pow(p, w, v, h);
        // w^h = -1 and w^h v^h = 1
        zp::lemma_eqm_mul(p, zp::pw(w, h), -1, zp::pw(v, h), zp::pw(v, h));
        let u = zp::pw(v, h);
        assert((-1) * u == -u);
        zp::lemma_eqm_mul(p, -u, 1, -1, -1);
        assert((-u) * (-1) == u);
    }
}

/// `size_inv` is the inverse of `2^l`.
pub proof fn lemma_size_inv(p: int, l: nat)
    requires
        p > 1,
        p % 2 == 1,
    ensures
        zp::eqm(p, pow2(l) * size_inv(p, l), 1),
        0 <= size_inv(p, l) < p,
{
    let h = (p + 1) / 2;
    assert(2 * h == p + 1);
    vstd::arithmetic::div_mod::lemma_mod_add_multiples_vanish(1, p);
    zp::lemma_inverse_pow(p, 2, h, l as int);
    lemma_pow2(l);
    zp::lemma_reduce(p, zp::pw(h, l as int));
    zp::lemma_eqm_mul(
        p,
        pow2(l) as int,
        pow2(l) as int,
        size_inv(p, l),
        zp::pw(h, l as int),
    );
}

/// The powers of a power of a root of order `2^l` with exponent `0 < d < 2^l` add up to zero.
pub proof fn lemma_root_sum(p: int, w: int, l: nat, d: int)
    requires
        p > 1,
        is_root(p, w, l),
        0 < d < pow2(l),
    ensures
        zp::eqm(p, zp::sum(pow2(l) as int, |j: int| zp::pw(w, d * j)), 0),
    decreases l,
{
    lemma2_to64();
    assert(l > 0);
    let h = pow2((l - 1) as nat) as int;
    lemma_pow2_unfold(l);
    lemma_pow2_pos((l - 1) as nat);
    let f = |j: int| zp::pw(w, d * j);
    zp::lemma_sum_split(h, h, f);
    let g = |j: int| f(h + j);
    if d % 2 == 1 {
        let e = (d - 1) / 2;
        let g2 = |j: int| (-1) * f(j);
        assert forall|j: int| 0 <= j < h implies zp::eqm(p, #[trigger] g(j), g2(j)) by {
            assert(d * (h + j) == d * h + d * j) by (nonlinear_arith);
            assert(d * h >= 0 && d * j >= 0) by (nonlinear_arith)
                requires
                    d > 0,
                    h > 0,
                    j >= 0,
            ;
            zp::lemma_pw_add(w, d * h, d * j);
            // w^(d h) = (w^h)^d = (-1)^d = -1
            zp::lemma_pw_pw(w, h, d);
            assert(h * d == d * h) by (nonlinear_arith);
            zp::lemma_eqm_pow(p, zp::pw(w, h), -1, d);
            zp::lemma_pw_pw(-1, 2, e);
            zp::lemma_pw1(-1);
            zp::lemma_pw_succ(-1, 1);
            zp::lemma_one_pw(e);
            zp::lemma_pw_succ(-1, 2 * e);
            assert(zp::pw(-1, d) == -1);
            zp::lemma_eqm_mul(p, zp::pw(w, d * h), -1, zp::pw(w, d * j), zp::pw(w, d * j));
        }
        zp::lemma_sum_eqm(p, h, g, g2);
        zp::lemma_sum_scale(h, -1, f);
        zp::lemma_eqm_add(
            p,
            zp::sum(h, f),
            zp::sum(h, f),
            zp::sum(h, g),
            (-1) * zp::sum(h, f),
        );
    } else {
        let e = d / 2;
        let v = w * w;
        lemma_root_square(p, w, l);
        lemma_root_sum(p, v, (l - 1) as nat, e);
        lemma_root_full(p, v, (l - 1) as nat);
        let k = |j: int| zp::pw(v, e * j);
        assert forall|j: int| 0 <= j < h implies #[trigger] f(j) == k(j) by {
            assert(e * j >= 0) by (nonlinear_arith)
                requires
                    e > 0,
                    j >= 0,
            ;
            zp::lemma_pw_pw(w, 2, e * j);
            assert(2 * (e * j) == d * j) by (nonlinear_arith)
                requires
                    d == 2 * e,
            ;
        }
        zp::lemma_sum_same(h, f, k);
        assert forall|j: int| 0 <= j < h implies zp::eqm(p, #[trigger] g(j), k(j)) by {
            assert(e * (h + j) >= 0 && e * h >= 0 && e * j >= 0) by (nonlinear_arith)
                requires
                    e > 0,
                    h > 0,
                    j >= 0,
            ;
            assert(e * (h + j) == e * h + e * j) by (nonlinear_arith);
            assert(h * e == e * h) by (nonlinear_arith);
            zp::lemma_pw_pw(w, 2, e * (h + j));
            assert(2 * (e * (h + j)) == d * (h + j)) by (nonlinear_arith)
                requires
                    d == 2 * e,
            ;
            zp::lemma_pw_add(v, e * h, e * j);
            zp::lemma_pw_pw(v, h, e);
            zp::lemma_unit_pow(p, zp::pw(v, h), e);
            zp::lemma_eqm_mul(p, zp::pw(v, e * h), 1, zp::pw(v, e * j), zp::pw(v, e * j));
            assert(1 * zp::pw(v, e * j) == zp::pw(v, e * j));
        }
        zp::lemma_sum_eqm(p, h, g, k);
        zp::lemma_eqm_add(p, zp::sum(h, f), 0, zp::sum(h, g), 0);
    }
}

// ---------------------------------------------------------------------------
// The fast transform computes the discrete Fourier transform
// ---------------------------------------------------------------------------

/// Every `stride`-th entry of the table is a power of `v`.
pub open spec fn are_powers(p: int, tw: Seq<int>, v: int, stride: int, count: int) -> bool {
    forall|i: int|
        0 <= i < count ==> zp::eqm(p, #[trigger] fft::twiddle(tw, i * stride), zp::pw(v, i))
}

/// With the powers of a root as factors, the fast transform is the discrete
/// Fourier transform.
pub proof fn lemma_fft_is_dft(p: int, x: Seq<int>, tw: Seq<int>, v: int, l: nat, stride: int)
    requires
        p > 1,
        x.len() == pow2(l),
        is_root(p, v, l),
        l > 0 ==> are_powers(p, tw, v, stride, pow2((l - 1) as nat) as int),
    ensures
        fft::fft(p, x, tw, stride).len() == x.len(),
        forall|j: int|
            0 <= j < x.len() ==> zp::eqm(p, #[trigger] fft::fft(p, x, tw, stride)[j], dft_at(x, v, j)),
    decreases l,
{
    lemma2_to64();
    if l == 0 {
        assert forall|j: int| 0 <= j < x.len() implies zp::eqm(
            p,
            #[trigger] fft::fft(p, x, tw, stride)[j],
            dft_at(x, v, j),
        ) by {
            let f = |i: int| x[i] * zp::pw(v, i * j);
            assert(zp::sum(1, f) == zp::sum(0, f) + f(0));
            assert(0 * j == 0);
            zp::lemma_pw0(v);
            assert(x[0] * 1 == x[0]);
        }
    } else {
        let h = pow2((l - 1) as nat) as int;
        lemma_pow2_unfold(l);
        lemma_pow2_pos((l - 1) as nat);
        let ev = fft::every(x, 0, 2, h);
        let od = fft::every(x, 1, 2, h);
        let v2 = v * v;
        lemma_root_square(p, v, l);
        if l > 1 {
            let q = pow2((l - 2) as nat) as int;
            lemma_pow2_unfold((l - 1) as nat);
            assert(are_powers(p, tw, v2, 2 * stride, q)) by {
                assert forall|i: int| 0 <= i < q implies zp::eqm(
                    p,
                    #[trigger] fft::twiddle(tw, i * (2 * stride)),
                    zp::pw(v2, i),
                ) by {
                    assert(i * (2 * stride) == (2 * i) * stride) by (nonlinear_arith);
                    assert(zp::eqm(p, fft::twiddle(tw, (2 * i) * stride), zp::pw(v, 2 * i)));
                    zp::lemma_pw_pw(v, 2, i);
                }
            }
        }
        lemma_fft_is_dft(p, ev, tw, v2, (l - 1) as nat, 2 * stride);
        lemma_fft_is_dft(p, od, tw, v2, (l - 1) as nat, 2 * stride);
        let e = fft::fft(p, ev, tw, 2 * stride);
        let o = fft::fft(p, od, tw, 2 * stride);
        let t = fft::fft(p, x, tw, stride);
        assert forall|j: int| 0 <= j < x.len() implies zp::eqm(p, #[trigger] t[j], dft_at(x, v, j)) by {
            let k = if j < h {
                j
            } else {
                j - h
            };
            lemma_dft_halves(p, x, v, l, k);
            let w = fft::twiddle(tw, k * stride);
            assert(zp::eqm(p, w, zp::pw(v, k)));
            zp::lemma_eqm_mul(p, w, zp::pw(v, k), o[k], dft_at(od, v2, k));
            let a = e[k];
            let b = w * o[k];
            let a2 = dft_at(ev, v2, k);
            let b2 = zp::pw(v, k) * dft_at(od, v2, k);
            if j < h {
                zp::lemma_eqm_add(p, a, a2, b, b2);
                zp::lemma_reduce(p, a + b);
            } else {
                zp::lemma_eqm_sub(p, a, a2, b, b2);
                zp::lemma_reduce(p, a - b);
            }
        }
    }
}

/// The transform splits into the transforms of the even and the odd entries.
proof fn lemma_dft_halves(p: int, x: Seq<int>, v: int, l: nat, k: int)
    requires
        p > 1,
        l >= 1,
        x.len() == pow2(l),
        is_root(p, v, l),
        0 <= k < pow2((l - 1) as nat),
    ensures
        ({
            let h = pow2((l - 1) as nat) as int;
            let e = dft_at(fft::every(x, 0, 2, h), v * v, k);
            let o = zp::pw(v, k) * dft_at(fft::every(x, 1, 2, h), v * v, k);
            zp::eqm(p, dft_at(x, v, k), e + o) && zp::eqm(p, dft_at(x, v, h + k), e - o)
        }),
{
    let h = pow2((l - 1) as nat) as int;
    lemma_pow2_unfold(l);
    lemma_pow2_pos((l - 1) as nat);
    let ev = fft::every(x, 0, 2, h);
    let od = fft::every(x, 1, 2, h);
    let v2 = v * v;
    lemma_root_square(p, v, l);
    lemma_root_full(p, v, l);
    let e = |i: int| ev[i] * zp::pw(v2, i * k);
    let o = |i: int| od[i] * zp::pw(v2, i * k);
    let c = zp::pw(v, k);
    let co = |i: int| c * o(i);
    zp::lemma_sum_scale(h, c, o);

    let f = |i: int| x[i] * zp::pw(v, i * k);
    zp::lemma_sum_even_odd(h, f);
    let fe = |i: int| f(2 * i);
    let fo = |i: int| f(2 * i + 1);
    assert forall|i: int| 0 <= i < h implies #[trigger] fe(i) == e(i) by {
        assert(i * k >= 0) by (nonlinear_arith)
            requires
                i >= 0,
                k >= 0,
        ;
        zp::lemma_pw_pw(v, 2, i * k);
        assert(2 * (i * k) == (2 * i) * k) by (nonlinear_arith);
    }
    zp::lemma_sum_same(h, fe, e);
    assert forall|i: int| 0 <= i < h implies #[trigger] fo(i) == co(i) by {
        assert(i * k >= 0) by (nonlinear_arith)
            requires
                i >= 0,
                k >= 0,
        ;
        zp::lemma_pw_pw(v, 2, i * k);
        zp::lemma_pw_add(v, 2 * (i * k), k);
        assert(2 * (i * k) + k == (2 * i + 1) * k) by (nonlinear_arith);
        assert(od[i] == x[1 + 2 * i]);
        let q = zp::pw(v2, i * k);
        assert(od[i] * (q * c) == c * (od[i] * q)) by (nonlinear_arith);
    }
    zp::lemma_sum_same(h, fo, co);
    assert(dft_at(x, v, k) == zp::sum(h, e) + c * zp::sum(h, o));

    let g = |i: int| x[i] * zp::pw(v, i * (h + k));
    zp::lemma_sum_even_odd(h, g);
    let ge = |i: int| g(2 * i);
    let go = |i: int| g(2 * i + 1);
    let no = |i: int| (-1) * co(i);
    zp::lemma_sum_scale(h, -1, co);
    assert forall|i: int| 0 <= i < h implies zp::eqm(p, #[trigger] ge(i), e(i)) by {
        lemma_shift_even(p, v, l, i, k);
        zp::lemma_eqm_mul(
            p,
            ev[i],
            ev[i],
            zp::pw(v, (2 * i) * (h + k)),
            zp::pw(v2, i * k),
        );
    }
    zp::lemma_sum_eqm(p, h, ge, e);
    assert forall|i: int| 0 <= i < h implies zp::eqm(p, #[trigger] go(i), no(i)) by {
        lemma_shift_even(p, v, l, i, k);
        let q = zp::pw(v2, i * k);
        let r = zp::pw(v, (2 * i) * (h + k));
        assert((2 * i) * (h + k) >= 0) by (nonlinear_arith)
            requires
                i >= 0,
                h >= 0,
                k >= 0,
        ;
        assert((2 * i + 1) * (h + k) == (2 * i) * (h + k) + (h + k)) by (nonlinear_arith);
        zp::lemma_pw_add(v, (2 * i) * (h + k), h + k);
        zp::lemma_pw_add(v, h, k);
        zp::lemma_eqm_mul(p, zp::pw(v, h), -1, c, c);
        zp::lemma_eqm_mul(p, r, q, zp::pw(v, h + k), (-1) * c);
        zp::lemma_eqm_mul(p, od[i], od[i], zp::pw(v, (2 * i + 1) * (h + k)), q * ((-1) * c));
        assert(od[i] == x[1 + 2 * i]);
        assert(od[i] * (q * ((-1) * c)) == (-1) * (c * (od[i] * q))) by (nonlinear_arith);
    }
    zp::lemma_sum_eqm(p, h, go, no);
    zp::lemma_eqm_add(
        p,
        zp::sum(h, ge),
        zp::sum(h, e),
        zp::sum(h, go),
        (-1) * (c * zp::sum(h, o)),
    );
}

/// `v^(2 i (h + k)) = (v^2)^(i k)` for `h` half the order of `v`.
proof fn lemma_shift_even(p: int, v: int, l: nat, i: int, k: int)
    requires
        p > 1,
        l >= 1,
        is_root(p, v, l),
        i >= 0,
        k >= 0,
    ensures
        zp::eqm(
            p,
            zp::pw(v, (2 * i) * (pow2((l - 1) as nat) + k)),
            zp::pw(v * v, i * k),
        ),
{
    let h = pow2((l - 1) as nat) as int;
    lemma_pow2_unfold(l);
    lemma_root_full(p, v, l);
    lemma_root_square(p, v, l);
    assert(i * k >= 0 && (2 * h) * i >= 0) by (nonlinear_arith)
        requires
            i >= 0,
            k >= 0,
            h >= 0,
    ;
    assert((2 * i) * (h + k) == (2 * h) * i + 2 * (i * k)) by (nonlinear_arith);
    zp::lemma_pw_add(v, (2 * h) * i, 2 * (i * k));
    zp::lemma_pw_pw(v, 2 * h, i);
    zp::lemma_unit_pow(p, zp::pw(v, 2 * h), i);
    zp::lemma_pw_pw(v, 2, i * k);
    let q = zp::pw(v, 2 * (i * k));
    zp::lemma_eqm_mul(p, zp::pw(v, (2 * h) * i), 1, q, q);
    assert(1 * q == q);
}

} // verus!
