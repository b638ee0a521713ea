//! Evaluation domains: the powers of a root of unity, and the coset that
//! extends them.
use crate::fft;
use crate::fft::{compute_twiddles, fft_serial, power_of_two};
use crate::field::PrimeField;
use crate::field;
use crate::poly;
use crate::poly::{Coeff, ExtendedLagrangeCoeff, LagrangeCoeff, Polynomial};
use crate::roots;
use crate::zp;
use vstd::arithmetic::power2::*;
use vstd::prelude::*;

verus! {

/// The element of order `2^k` that generates a domain of that size.
pub open spec fn omega<F: PrimeField>(k: nat) -> int {
    zp::pw(F::root_of_unity_val(), pow2((F::two_adicity() - k) as nat) as int) % F::modulus()
}

/// The `t`-th point of the coset of size `2^e`: zeta times the `t`-th power of
/// the coset's generator.
pub open spec fn coset_point<F: PrimeField>(e: nat, t: int) -> int {
    (F::zeta_val() * zp::pw(omega::<F>(e), t)) % F::modulus()
}

/// The least `m` such that `2^m >= q`.
pub open spec fn ceil_log2(q: nat) -> nat
    decreases q,
{
    if q <= 1 {
        0
    } else {
        ceil_log2(((q + 1) / 2) as nat) + 1
    }
}

/// The size exponent of the coset on which polynomials of degree less than
/// `(j - 1) 2^k` are represented.
pub open spec fn extended_log(j: nat, k: nat) -> nat {
    k + ceil_log2((j - 1) as nat)
}

/// The coefficients of the polynomial that takes the values `e` on the coset
/// of size `2^l`.
pub open spec fn coset_interpolate<F: PrimeField>(e: Seq<int>, l: nat) -> Seq<int> {
    let c = roots::interpolate(F::modulus(), e, omega::<F>(l), l);
    Seq::new(
        e.len(),
        |i: int| (c[i] * zp::pw(F::zeta_val() * F::zeta_val(), i)) % F::modulus(),
    )
}

/// A domain of size `2^k` and the coset that extends it.
#[derive(Debug)]
pub struct EvaluationDomain<F> {
    n: u64,
    k: u32,
    extended_k: u32,
    quotient_poly_degree: u64,
    omega: F,
    omega_inv: F,
    n_inv: F,
    extended_omega: F,
    extended_omega_inv: F,
    extended_n_inv: F,
}

proof fn lemma_ceil_log2(q: nat, m: nat)
    requires
        q <= pow2(m),
        m == 0 || pow2((m - 1) as nat) < q,
    ensures
        ceil_log2(q) == m,
    decreases q,
{
    lemma2_to64();
    if m == 0 {
    } else {
        lemma_pow2_unfold(m);
        lemma_pow2_pos((m - 1) as nat);
        if m > 1 {
            lemma_pow2_unfold((m - 1) as nat);
        }
        lemma_ceil_log2(((q + 1) / 2) as nat, (m - 1) as nat);
    }
}

/// `2^ceil_log2(q)` is the least power of two that is at least `q`.
pub proof fn lemma_ceil_log2_least(q: nat)
    ensures
        q <= pow2(ceil_log2(q)),
        ceil_log2(q) == 0 || pow2((ceil_log2(q) - 1) as nat) < q,
    decreases q,
{
    lemma2_to64();
    if q > 1 {
        let h = ((q + 1) / 2) as nat;
        lemma_ceil_log2_least(h);
        lemma_pow2_unfold(ceil_log2(q));
        if ceil_log2(h) > 0 {
            lemma_pow2_unfold(ceil_log2(h));
        }
    }
}

/// The generator of a domain has the order it should have.
pub proof fn lemma_omega<F: PrimeField>(k: nat)
    requires
        k <= F::two_adicity(),
    ensures
        roots::is_root(F::modulus(), omega::<F>(k), k),
        0 <= omega::<F>(k) < F::modulus(),
{
    let p = F::modulus();
    let s = F::two_adicity() as nat;
    let r = F::root_of_unity_val();
    F::lemma_modulus();
    F::lemma_root_of_unity();
    assert(roots::is_root(p, r, s));
    let m = (s - k) as nat;
    roots::lemma_root_power(p, r, s, m);
    zp::lemma_reduce(p, zp::pw(r, pow2(m) as int));
    roots::lemma_root_eqm(p, zp::pw(r, pow2(m) as int), omega::<F>(k), k);
}

/// A power of the larger domain's generator is the smaller domain's generator:
/// `omega_e^(2^(e-k)) = omega_k`.
pub proof fn lemma_omega_power<F: PrimeField>(k: nat, e: nat)
    requires
        k <= e <= F::two_adicity(),
    ensures
        zp::eqm(
            F::modulus(),
            zp::pw(omega::<F>(e), pow2((e - k) as nat) as int),
            omega::<F>(k),
        ),
{
    let p = F::modulus();
    let s = F::two_adicity() as nat;
    let r = F::root_of_unity_val();
    F::lemma_modulus();
    let a = pow2((s - e) as nat) as int;
    let b = pow2((e - k) as nat) as int;
    zp::lemma_reduce(p, zp::pw(r, a));
    zp::lemma_eqm_pow(p, omega::<F>(e), zp::pw(r, a), b);
    zp::lemma_pw_pw(r, a, b);
    lemma_pow2_adds((s - e) as nat, (e - k) as nat);
    zp::lemma_reduce(p, zp::pw(r, a * b));
}

/// The vanishing polynomial of the domain has no zero on the coset.
pub proof fn lemma_vanishing_nonzero<F: PrimeField>(k: nat, e: nat, t: int)
    requires
        k <= e <= F::two_adicity(),
        t >= 0,
    ensures
        !zp::eqm(F::modulus(), zp::pw(coset_point::<F>(e, t), pow2(k) as int), 1),
{
    let p = F::modulus();
    let z = F::zeta_val();
    let w = omega::<F>(e);
    let x = coset_point::<F>(e, t);
    let n = pow2(k) as int;
    let m = pow2((e - k) as nat) as int;
    let big = pow2(e) as int;
    F::lemma_modulus();
    F::lemma_zeta();
    lemma_omega::<F>(e);
    if zp::eqm(p, zp::pw(x, n), 1) {
        lemma_pow2_adds(k, (e - k) as nat);
        zp::lemma_pw_pw(x, n, m);
        zp::lemma_unit_pow(p, zp::pw(x, n), m);
        // x^big = z^big (w^big)^t = z^big
        zp::lemma_reduce(p, z * zp::pw(w, t));
        zp::lemma_eqm_pow(p, x, z * zp::pw(w, t), big);
        zp::lemma_pw_mul(z, zp::pw(w, t), big);
        zp::lemma_pw_pw(w, t, big);
        zp::lemma_pw_pw(w, big, t);
        assert(t * big == big * t) by (nonlinear_arith);
        roots::lemma_root_full(p, w, e);
        zp::lemma_unit_pow(p, zp::pw(w, big), t);
        let zb = zp::pw(z, big);
        zp::lemma_eqm_mul(p, zb, zb, zp::pw(zp::pw(w, t), big), 1);
        assert(zb * 1 == zb);
        assert(zp::eqm(p, zb, 1));
        // big is no multiple of three
        lemma_pow2_mod3(e);
        let a = big / 3;
        let r = big % 3;
        lemma_pow2_pos(e);
        zp::lemma_pw_add(z, 3 * a, r);
        zp::lemma_pw_pw(z, 3, a);
        zp::lemma_unit_pow(p, zp::pw(z, 3), a);
        let zr = zp::pw(z, r);
        zp::lemma_eqm_mul(p, zp::pw(z, 3 * a), 1, zr, zr);
        assert(1 * zr == zr);
        zp::lemma_pw1(z);
        zp::lemma_pw_succ(z, 2);
        if r == 2 {
            zp::lemma_eqm_mul(p, zp::pw(z, 2), 1, z, z);
            assert(1 * z == z);
        }
        zp::lemma_small(p, z);
        zp::lemma_small(p, 1);
        assert(false);
    }
}

/// Where the vanishing polynomial of the domain is not zero, there is no point
/// of the domain.
pub proof fn lemma_outside_domain<F: PrimeField>(k: nat, x: int)
    requires
        k <= F::two_adicity(),
        !zp::eqm(F::modulus(), zp::pw(x, pow2(k) as int), 1),
    ensures
        forall|i: int|
            0 <= i < pow2(k) ==> !zp::eqm(
                F::modulus(),
                x,
                #[trigger] zp::pw(omega::<F>(k), i),
            ),
{
    let p = F::modulus();
    let n = pow2(k) as int;
    let w = omega::<F>(k);
    F::lemma_modulus();
    lemma_omega::<F>(k);
    roots::lemma_root_full(p, w, k);
    assert forall|i: int| 0 <= i < n implies !zp::eqm(p, x, #[trigger] zp::pw(w, i)) by {
        if zp::eqm(p, x, zp::pw(w, i)) {
            zp::lemma_eqm_pow(p, x, zp::pw(w, i), n);
            zp::lemma_pw_pw(w, i, n);
            zp::lemma_pw_pw(w, n, i);
            assert(i * n == n * i) by (nonlinear_arith);
            zp::lemma_unit_pow(p, zp::pw(w, n), i);
        }
    }
}

proof fn lemma_pow2_mod3(e: nat)
    ensures
        pow2(e) % 3 == 1 || pow2(e) % 3 == 2,
    decreases e,
{
    if e == 0 {
        lemma2_to64();
    } else {
        lemma_pow2_mod3((e - 1) as nat);
        lemma_pow2_unfold(e);
    }
}

/// A transform at the powers of `v` evaluates the polynomial at them.
pub proof fn lemma_dft_is_eval(p: int, c: Seq<int>, v: int, j: int)
    requires
        j >= 0,
    ensures
        roots::dft_at(c, v, j) % p == roots::poly_eval(p, c, zp::pw(v, j)),
{
    let n = c.len() as int;
    let f = |i: int| c[i] * zp::pw(v, i * j);
    let g = |i: int| c[i] * zp::pw(zp::pw(v, j), i);
    assert forall|i: int| 0 <= i < n implies #[trigger] f(i) == g(i) by {
        zp::lemma_pw_pw(v, j, i);
        assert(j * i == i * j) by (nonlinear_arith);
    }
    zp::lemma_sum_same(n, f, g);
}

/// A transform of the coefficients, twisted by the powers of `g` and padded
/// with zeros, evaluates the polynomial at `g v^t`.
pub proof fn lemma_twisted_dft(p: int, c: Seq<int>, d: Seq<int>, g: int, v: int, t: int, x: int)
    requires
        p > 1,
        c.len() <= d.len(),
        forall|i: int| 0 <= i < c.len() ==> zp::eqm(p, #[trigger] d[i], c[i] * zp::pw(g, i)),
        forall|i: int| c.len() <= i < d.len() ==> #[trigger] d[i] == 0,
        t >= 0,
        zp::eqm(p, x, g * zp::pw(v, t)),
    ensures
        roots::dft_at(d, v, t) % p == roots::poly_eval(p, c, x),
{
    let n = c.len() as int;
    let m = d.len() as int;
    let f = |i: int| d[i] * zp::pw(v, i * t);
    let h = |i: int| c[i] * zp::pw(x, i);
    assert forall|i: int| 0 <= i < n implies zp::eqm(p, #[trigger] f(i), h(i)) by {
        let vi = zp::pw(v, i * t);
        zp::lemma_eqm_mul(p, d[i], c[i] * zp::pw(g, i), vi, vi);
        zp::lemma_pw_pw(v, t, i);
        assert(t * i == i * t) by (nonlinear_arith);
        zp::lemma_pw_mul(g, zp::pw(v, t), i);
        let (a, b) = (c[i], zp::pw(g, i));
        assert((a * b) * vi == a * (b * vi)) by (nonlinear_arith);
        zp::lemma_eqm_pow(p, x, g * zp::pw(v, t), i);
        zp::lemma_eqm_mul(p, a, a, zp::pw(x, i), b * vi);
    }
    zp::lemma_sum_eqm(p, n, f, h);
    zp::lemma_sum_split(n, m - n, f);
    let tail = |i: int| f(n + i);
    assert forall|i: int| 0 <= i < m - n implies zp::eqm(p, #[trigger] tail(i), 0) by {
        assert(0 * zp::pw(v, (n + i) * t) == 0);
    }
    zp::lemma_sum_zero(p, m - n, tail);
    zp::lemma_eqm_add(p, zp::sum(n, f), zp::sum(n, h), zp::sum(m - n, tail), 0);
}

/// A table of the powers of a root drives a transform that is the discrete
/// Fourier transform.
pub proof fn lemma_table_transform<F: PrimeField>(
    x: Seq<int>,
    tw: Seq<F>,
    y: Seq<F>,
    v: int,
    l: nat,
)
    requires
        roots::is_root(F::modulus(), v, l),
        x.len() == pow2(l),
        l > 0 ==> tw.len() == pow2((l - 1) as nat) && forall|i: int|
            0 <= i < tw.len() ==> (#[trigger] tw[i]).val() == zp::pw(v, i) % F::modulus(),
        field::vals(y) == fft::fft(F::modulus(), x, field::vals(tw), 1),
    ensures
        y.len() == x.len(),
        forall|j: int|
            0 <= j < y.len() ==> (#[trigger] y[j]).val() == roots::dft_at(x, v, j) % F::modulus(),
{
    let p = F::modulus();
    F::lemma_modulus();
    if l > 0 {
        assert forall|i: int| 0 <= i < pow2((l - 1) as nat) implies zp::eqm(
            p,
            #[trigger] fft::twiddle(field::vals(tw), i * 1),
            zp::pw(v, i),
        ) by {
            assert(i * 1 == i);
            zp::lemma_pw0(v);
            zp::lemma_reduce(p, zp::pw(v, i));
        }
    }
    roots::lemma_fft_is_dft(p, x, field::vals(tw), v, l, 1);
    assert(field::vals(y).len() == y.len());
    assert forall|j: int| 0 <= j < y.len() implies (#[trigger] y[j]).val() == roots::dft_at(x, v, j)
        % p by {
        assert(field::vals(y)[j] == y[j].val());
        y[j].lemma_val();
        zp::lemma_small(p, y[j].val());
    }
}

/// The discrete Fourier transform of `a` at the powers of `w`.
fn transform<F: PrimeField>(a: &mut Vec<F>, w: F, log_n: u32)
    requires
        old(a)@.len() == pow2(log_n as nat),
        roots::is_root(F::modulus(), w.val(), log_n as nat),
    ensures
        final(a)@.len() == old(a)@.len(),
        forall|j: int|
            0 <= j < old(a)@.len() ==> (#[trigger] final(a)@[j]).val() == roots::dft_at(
                field::vals(old(a)@),
                w.val(),
                j,
            ) % F::modulus(),
{
    let ghost x = field::vals(a@);
    let n: usize = a.len();
    assert(pow2(log_n as nat) == n);
    let tw: Vec<F> = if log_n == 0 {
        Vec::new()
    } else {
        compute_twiddles(&w, log_n)
    };
    fft_serial(a.as_mut_slice(), tw.as_slice(), log_n);
    proof {
        lemma2_to64();
        lemma_table_transform(x, tw@, a@, w.val(), log_n as nat);
    }
}

/// Multiplies entry `i` of `a` by `g^i`.
fn distribute_powers<F: PrimeField>(a: &mut Vec<F>, g: F)
    ensures
        final(a)@.len() == old(a)@.len(),
        forall|i: int|
            0 <= i < old(a)@.len() ==> (#[trigger] final(a)@[i]).val() == (old(a)@[i].val()
                * zp::pw(g.val(), i)) % F::modulus(),
{
    let ghost a0 = a@;
    let ghost p = F::modulus();
    proof {
        F::lemma_modulus();
        zp::lemma_pw0(g.val());
        zp::lemma_small(p, 1);
    }
    let mut power: F = F::one();
    let mut i: usize = 0;
    while i < a.len()
        invariant
            i <= a@.len(),
            a@.len() == a0.len(),
            p == F::modulus(),
            p > 2,
            power.val() == zp::pw(g.val(), i as int) % p,
            forall|k: int|
                0 <= k < i ==> (#[trigger] a@[k]).val() == (a0[k].val() * zp::pw(g.val(), k)) % p,
            forall|k: int| i <= k < a@.len() ==> #[trigger] a@[k] == a0[k],
        decreases a@.len() - i,
    {
        let x: F = a[i];
        proof {
            let q = zp::pw(g.val(), i as int);
            zp::lemma_pw_succ(g.val(), i as int);
            zp::lemma_reduce(p, q);
            zp::lemma_eqm_mul(p, power.val(), q, g.val(), g.val());
            zp::lemma_eqm_mul(p, x.val(), x.val(), power.val(), q);
        }
        a[i] = x.mul(power);
        power = power.mul(g);
        i = i + 1;
    }
}

/// The least `m` such that `2^m >= q`.
pub(crate) fn log2_ceil(q: u64) -> (m: u32)
    requires
        q <= u32::MAX,
    ensures
        m == ceil_log2(q as nat),
        m <= 32,
{
    let mut m: u32 = 0;
    let mut size: u64 = 1;
    proof {
        lemma2_to64();
    }
    while size < q
        invariant
            q <= u32::MAX,
            size == pow2(m as nat),
            m <= 32,
            m == 0 || pow2((m - 1) as nat) < q,
        decreases 32 - m,
    {
        proof {
            lemma2_to64();
            if m == 32 {
                assert(false);
            }
            lemma_pow2_unfold((m + 1) as nat);
        }
        m = m + 1;
        size = 2 * size;
    }
    proof {
        lemma_ceil_log2(q as nat, m as nat);
    }
    m
}

/// Whether `2^e` things can be addressed.
pub(crate) fn addressable(e: u32) -> (r: bool)
    ensures
        r == (pow2(e as nat) <= usize::MAX),
{
    let mut i: u32 = 0;
    let mut size: usize = 1;
    proof {
        lemma2_to64();
    }
    while i < e
        invariant
            i <= e,
            size == pow2(i as nat),
        decreases e - i,
    {
        proof {
            lemma_pow2_unfold((i + 1) as nat);
            if i + 1 < e {
                lemma_pow2_strictly_increases((i + 1) as nat, e as nat);
            }
        }
        if size > usize::MAX / 2 {
            return false;
        }
        size = 2 * size;
        i = i + 1;
    }
    true
}

impl<F: PrimeField> EvaluationDomain<F> {
    /// The size exponent of the domain.
    pub closed spec fn log_n(&self) -> nat {
        self.k as nat
    }

    /// The size exponent of the coset.
    pub closed spec fn log_ext(&self) -> nat {
        self.extended_k as nat
    }

    /// How many times larger than the domain's size a quotient's degree may be.
    pub closed spec fn quotient_degree(&self) -> nat {
        self.quotient_poly_degree as nat
    }

    /// The stored elements are the generators and inverses they are named after.
    pub closed spec fn wf(&self) -> bool {
        let p = F::modulus();
        let k = self.k as nat;
        let e = self.extended_k as nat;
        &&& e == k + ceil_log2(self.quotient_poly_degree as nat)
        &&& e <= F::two_adicity()
        &&& pow2(e) <= usize::MAX
        &&& self.n == pow2(k)
        &&& self.omega.val() == omega::<F>(k)
        &&& self.omega_inv.val() == roots::root_inv(p, omega::<F>(k), k)
        &&& self.n_inv.val() == roots::size_inv(p, k)
        &&& self.extended_omega.val() == omega::<F>(e)
        &&& self.extended_omega_inv.val() == roots::root_inv(p, omega::<F>(e), e)
        &&& self.extended_n_inv.val() == roots::size_inv(p, e)
    }

    /// The sizes of a domain and its coset.
    pub proof fn lemma_sizes(&self)
        requires
            self.wf(),
        ensures
            self.log_n() <= self.log_ext() <= F::two_adicity() < 64,
            self.log_ext() == self.log_n() + ceil_log2(self.quotient_degree()),
            1 <= pow2(self.log_n()) <= pow2(self.log_ext()) <= usize::MAX,
            pow2(self.log_ext()) == pow2(self.log_n()) * pow2(
                (self.log_ext() - self.log_n()) as nat,
            ),
            pow2(self.log_n()) * self.quotient_degree() <= pow2(self.log_ext()),
    {
        F::lemma_modulus();
        let k = self.log_n();
        let e = self.log_ext();
        let m = (e - k) as nat;
        lemma_pow2_adds(k, m);
        lemma_pow2_pos(k);
        lemma_pow2_pos(m);
        lemma_ceil_log2_least(self.quotient_degree());
        let (a, b, q) = (pow2(k) as int, pow2(m) as int, self.quotient_degree() as int);
        assert(a * 1 <= a * b) by (nonlinear_arith)
            requires
                a >= 1,
                b >= 1,
        ;
        assert(a * q <= a * b) by (nonlinear_arith)
            requires
                a >= 1,
                q <= b,
        ;
    }

    /// The inverse of an element that has one.
    fn inverse_of(a: F, Ghost(inv): Ghost<int>) -> (r: F)
        requires
            zp::eqm(F::modulus(), a.val() * inv, 1),
            0 <= inv < F::modulus(),
        ensures
            r.val() == inv,
    {
        let ghost p = F::modulus();
        proof {
            F::lemma_modulus();
            zp::lemma_small(p, 1);
            zp::lemma_small(p, 0);
            assert(0 * inv == 0);
            assert(a.val() != 0);
        }
        let r: F = a.invert().unwrap();
        proof {
            zp::lemma_inverse_unique(p, a.val(), r.val(), inv);
            r.lemma_val();
            zp::lemma_small(p, r.val());
            zp::lemma_small(p, inv);
        }
        r
    }

    /// The `2^times`-th power.
    fn squared(a: F, times: u32) -> (r: F)
        ensures
            r.val() == zp::pw(a.val(), pow2(times as nat) as int) % F::modulus(),
    {
        let ghost p = F::modulus();
        proof {
            lemma2_to64();
            zp::lemma_pw1(a.val());
            a.lemma_val();
            zp::lemma_small(p, a.val());
        }
        let mut r: F = a;
        let mut i: u32 = 0;
        while i < times
            invariant
                i <= times,
                p == F::modulus(),
                r.val() == zp::pw(a.val(), pow2(i as nat) as int) % p,
            decreases times - i,
        {
            proof {
                F::lemma_modulus();
                let h = pow2(i as nat) as int;
                let q = zp::pw(a.val(), h);
                lemma_pow2_unfold((i + 1) as nat);
                zp::lemma_pw_add(a.val(), h, h);
                zp::lemma_reduce(p, q);
                zp::lemma_eqm_mul(p, r.val(), q, r.val(), q);
            }
            r = r.mul(r);
            i = i + 1;
        }
        r
    }

    /// The domain of size `2^k` whose coset represents polynomials of degree
    /// less than `(j - 1) 2^k`.
    pub fn new(j: u32, k: u32) -> (d: Self)
        requires
            j >= 1,
            extended_log(j as nat, k as nat) <= F::two_adicity(),
            pow2(extended_log(j as nat, k as nat)) <= usize::MAX,
        ensures
            d.wf(),
            d.log_n() == k,
            d.log_ext() == extended_log(j as nat, k as nat),
            d.quotient_degree() == j - 1,
    {
        let ghost p = F::modulus();
        let ghost kn = k as nat;
        let ghost en = extended_log(j as nat, kn);
        let quotient_poly_degree: u64 = (j - 1) as u64;
        let ghost q = quotient_poly_degree as nat;
        proof {
            F::lemma_modulus();
            lemma2_to64();
            lemma2_to64_rest();
            lemma_ceil_log2_least(q);
            if en < 63 {
                lemma_pow2_strictly_increases(en, 63);
            }
            if kn < en {
                lemma_pow2_strictly_increases(kn, en);
            }
        }
        let extended_k: u32 = k + log2_ceil(quotient_poly_degree);
        proof {
            lemma_omega::<F>(kn);
            lemma_omega::<F>(en);
            roots::lemma_root_inv(p, omega::<F>(kn), kn);
            roots::lemma_root_inv(p, omega::<F>(en), en);
            roots::lemma_size_inv(p, kn);
            roots::lemma_size_inv(p, en);
        }
        let n: usize = power_of_two(k);
        let extended_n: usize = power_of_two(extended_k);
        let extended_omega: F = Self::squared(F::root_of_unity(), F::s() - extended_k);
        let om: F = Self::squared(extended_omega, extended_k - k);
        proof {
            lemma_omega_power::<F>(kn, en);
            om.lemma_val();
            zp::lemma_small(p, omega::<F>(kn));
        }
        let omega_inv: F = Self::inverse_of(om, Ghost(roots::root_inv(p, omega::<F>(kn), kn)));
        let extended_omega_inv: F = Self::inverse_of(
            extended_omega,
            Ghost(roots::root_inv(p, omega::<F>(en), en)),
        );
        let n_fe: F = F::from_u64(n as u64);
        let extended_n_fe: F = F::from_u64(extended_n as u64);
        proof {
            let (a, b) = (roots::size_inv(p, kn), roots::size_inv(p, en));
            zp::lemma_reduce(p, n as int);
            zp::lemma_reduce(p, extended_n as int);
            zp::lemma_eqm_mul(p, n_fe.val(), n as int, a, a);
            zp::lemma_eqm_mul(p, extended_n_fe.val(), extended_n as int, b, b);
        }
        let n_inv: F = Self::inverse_of(n_fe, Ghost(roots::size_inv(p, kn)));
        let extended_n_inv: F = Self::inverse_of(
            extended_n_fe,
            Ghost(roots::size_inv(p, en)),
        );
        EvaluationDomain {
            n: n as u64,
            k,
            extended_k,
            quotient_poly_degree,
            omega: om,
            omega_inv,
            n_inv,
            extended_omega,
            extended_omega_inv,
            extended_n_inv,
        }
    }

    /// The size exponent of the domain.
    pub fn k(&self) -> (r: u32)
        ensures
            r == self.log_n(),
    {
        self.k
    }

    /// The size of the domain.
    pub fn n(&self) -> (r: u64)
        requires
            self.wf(),
        ensures
            r == pow2(self.log_n()),
    {
        self.n
    }

    /// The size of the coset.
    pub fn extended_len(&self) -> (r: usize)
        requires
            self.wf(),
        ensures
            r == pow2(self.log_ext()),
    {
        power_of_two(self.extended_k)
    }

    /// The generator of the domain.
    pub fn get_omega(&self) -> (r: F)
        requires
            self.wf(),
        ensures
            r.val() == omega::<F>(self.log_n()),
    {
        self.omega
    }

    /// The inverse of the generator of the domain.
    pub fn get_omega_inv(&self) -> (r: F)
        requires
            self.wf(),
        ensures
            r.val() == roots::root_inv(F::modulus(), omega::<F>(self.log_n()), self.log_n()),
    {
        self.omega_inv
    }

    /// The generator of the coset.
    pub fn get_extended_omega(&self) -> (r: F)
        requires
            self.wf(),
        ensures
            r.val() == omega::<F>(self.log_ext()),
    {
        self.extended_omega
    }

    /// Whether the vanishing polynomial of the domain is zero at `x`; where it is
    /// not, `x` does not lie in the domain.
    pub fn vanishes_at(&self, x: &F) -> (r: bool)
        requires
            self.wf(),
        ensures
            r == zp::eqm(F::modulus(), zp::pw(x.val(), pow2(self.log_n()) as int), 1),
            !r ==> forall|i: int|
                0 <= i < pow2(self.log_n()) ==> !zp::eqm(
                    F::modulus(),
                    x.val(),
                    #[trigger] zp::pw(omega::<F>(self.log_n()), i),
                ),
    {
        let one: F = F::one();
        let power: F = x.pow(self.n);
        proof {
            F::lemma_modulus();
            self.lemma_sizes();
            zp::lemma_small(F::modulus(), 1);
            if !zp::eqm(F::modulus(), zp::pw(x.val(), pow2(self.log_n()) as int), 1) {
                lemma_outside_domain::<F>(self.log_n(), x.val());
            }
        }
        power.equals(one)
    }

    /// The zero polynomial, by its values on the domain.
    pub fn empty_lagrange(&self) -> (r: Polynomial<F, LagrangeCoeff>)
        requires
            self.wf(),
        ensures
            poly::is_zero(r.values@, pow2(self.log_n())),
    {
        proof {
            self.lemma_sizes();
        }
        Polynomial::zero(self.n as usize)
    }

    /// The coefficients of the polynomial with the given values on the domain.
    pub fn lagrange_to_coeff(&self, a: Polynomial<F, LagrangeCoeff>) -> (r: Polynomial<F, Coeff>)
        requires
            self.wf(),
            a.values@.len() == pow2(self.log_n()),
        ensures
            r.vals() == roots::interpolate(
                F::modulus(),
                a.vals(),
                omega::<F>(self.log_n()),
                self.log_n(),
            ),
            r.values@.len() == a.values@.len(),
    {
        let ghost p = F::modulus();
        let ghost x = a.vals();
        let ghost k = self.log_n();
        let ghost w = omega::<F>(k);
        let ghost v = roots::root_inv(p, w, k);
        let mut values: Vec<F> = a.values;
        proof {
            F::lemma_modulus();
            self.lemma_sizes();
            lemma_omega::<F>(k);
            roots::lemma_root_inv(p, w, k);
            roots::lemma_root_inv_is_root(p, w, v, k);
        }
        transform(&mut values, self.omega_inv, self.k);
        let ghost y = values@;
        poly::scale_in_place(&mut values, self.n_inv);
        proof {
            let s = roots::size_inv(p, k);
            let c = roots::interpolate(p, x, w, k);
            assert forall|i: int| 0 <= i < c.len() implies field::vals(values@)[i]
                == #[trigger] c[i] by {
                let d = roots::dft_at(x, v, i);
                assert(values@[i].val() == (y[i].val() * s) % p);
                assert(y[i].val() == d % p);
                zp::lemma_reduce(p, d);
                zp::lemma_eqm_mul(p, y[i].val(), d, s, s);
                assert(d * s == s * d) by (nonlinear_arith);
            }
            assert(field::vals(values@) =~= c);
        }
        Polynomial::new(values)
    }

    /// The values on the domain of the polynomial with the given coefficients.
    pub fn coeff_to_lagrange(&self, a: Polynomial<F, Coeff>) -> (r: Polynomial<F, LagrangeCoeff>)
        requires
            self.wf(),
            a.values@.len() == pow2(self.log_n()),
        ensures
            r.values@.len() == a.values@.len(),
            forall|j: int|
                0 <= j < r.values@.len() ==> (#[trigger] r.values@[j]).val() == roots::poly_eval(
                    F::modulus(),
                    a.vals(),
                    zp::pw(omega::<F>(self.log_n()), j),
                ),
    {
        let ghost x = a.vals();
        let ghost w = omega::<F>(self.log_n());
        let mut values: Vec<F> = a.values;
        proof {
            self.lemma_sizes();
            lemma_omega::<F>(self.log_n());
        }
        transform(&mut values, self.omega, self.k);
        proof {
            assert forall|j: int| 0 <= j < values@.len() implies (#[trigger] values@[j]).val()
                == roots::poly_eval(F::modulus(), x, zp::pw(w, j)) by {
                lemma_dft_is_eval(F::modulus(), x, w, j);
            }
        }
        Polynomial::new(values)
    }

    /// The values on the coset of the polynomial with the given coefficients.
    pub fn coeff_to_extended(&self, a: Polynomial<F, Coeff>) -> (r: Polynomial<
        F,
        ExtendedLagrangeCoeff,
    >)
        requires
            self.wf(),
            a.values@.len() == pow2(self.log_n()),
        ensures
            r.values@.len() == pow2(self.log_ext()),
            forall|t: int|
                0 <= t < r.values@.len() ==> (#[trigger] r.values@[t]).val() == roots::poly_eval(
                    F::modulus(),
                    a.vals(),
                    coset_point::<F>(self.log_ext(), t),
                ),
    {
        let ghost p = F::modulus();
        let ghost c = a.vals();
        let ghost e = self.log_ext();
        let ghost w = omega::<F>(e);
        let mut values: Vec<F> = a.values;
        let ghost a0 = values@;
        proof {
            F::lemma_modulus();
            self.lemma_sizes();
            lemma_omega::<F>(e);
        }
        distribute_powers(&mut values, F::zeta());
        let ghost twisted = values@;
        let ghost n = values@.len();
        let len: usize = self.extended_len();
        while values.len() < len
            invariant
                len == pow2(e),
                n <= values@.len() <= len,
                twisted.len() == n,
                forall|i: int| 0 <= i < n ==> #[trigger] values@[i] == twisted[i],
                forall|i: int| n <= i < values@.len() ==> (#[trigger] values@[i]).val() == 0,
            decreases len - values@.len(),
        {
            values.push(F::zero());
        }
        let ghost d = field::vals(values@);
        transform(&mut values, self.extended_omega, self.extended_k);
        proof {
            let z = F::zeta_val();
            assert forall|i: int| 0 <= i < c.len() implies zp::eqm(
                p,
                #[trigger] d[i],
                c[i] * zp::pw(z, i),
            ) by {
                assert(d[i] == twisted[i].val());
                zp::lemma_reduce(p, c[i] * zp::pw(z, i));
            }
            assert forall|t: int| 0 <= t < values@.len() implies (#[trigger] values@[t]).val()
                == roots::poly_eval(p, c, coset_point::<F>(e, t)) by {
                zp::lemma_reduce(p, z * zp::pw(w, t));
                lemma_twisted_dft(p, c, d, z, w, t, coset_point::<F>(e, t));
            }
        }
        Polynomial::new(values)
    }

    /// The coefficients of the polynomial with the given values on the coset.
    fn coset_to_coeff(&self, a: Polynomial<F, ExtendedLagrangeCoeff>) -> (r: Vec<F>)
        requires
            self.wf(),
            a.values@.len() == pow2(self.log_ext()),
        ensures
            field::vals(r@) == coset_interpolate::<F>(a.vals(), self.log_ext()),
            r@.len() == pow2(self.log_ext()),
    {
        let ghost p = F::modulus();
        let ghost x = a.vals();
        let ghost e = self.log_ext();
        let ghost w = omega::<F>(e);
        let ghost v = roots::root_inv(p, w, e);
        let ghost s = roots::size_inv(p, e);
        let mut values: Vec<F> = a.values;
        proof {
            F::lemma_modulus();
            self.lemma_sizes();
            lemma_omega::<F>(e);
            roots::lemma_root_inv(p, w, e);
            roots::lemma_root_inv_is_root(p, w, v, e);
        }
        transform(&mut values, self.extended_omega_inv, self.extended_k);
        let ghost y = values@;
        poly::scale_in_place(&mut values, self.extended_n_inv);
        let ghost scaled = values@;
        let zeta: F = F::zeta();
        let zeta_inv: F = zeta.mul(zeta);
        distribute_powers(&mut values, zeta_inv);
        proof {
            let z2 = F::zeta_val() * F::zeta_val();
            let c = roots::interpolate(p, x, w, e);
            let goal = coset_interpolate::<F>(x, e);
            zp::lemma_reduce(p, z2);
            assert forall|i: int| 0 <= i < c.len() implies field::vals(values@)[i]
                == #[trigger] goal[i] by {
                let d = roots::dft_at(x, v, i);
                assert(y[i].val() == d % p);
                assert(scaled[i].val() == (y[i].val() * s) % p);
                zp::lemma_reduce(p, d);
                zp::lemma_eqm_mul(p, y[i].val(), d, s, s);
                assert(d * s == s * d) by (nonlinear_arith);
                assert(scaled[i].val() == c[i]);
                zp::lemma_eqm_pow(p, zeta_inv.val(), z2, i);
                zp::lemma_eqm_mul(
                    p,
                    c[i],
                    c[i],
                    zp::pw(zeta_inv.val(), i),
                    zp::pw(z2, i),
                );
            }
            assert(field::vals(values@) =~= goal);
        }
        values
    }

    /// The first `n (j - 1)` coefficients of the polynomial with the given
    /// values on the coset.
    pub fn extended_to_coeff(&self, a: Polynomial<F, ExtendedLagrangeCoeff>) -> (r: Vec<F>)
        requires
            self.wf(),
            a.values@.len() == pow2(self.log_ext()),
        ensures
            field::vals(r@) == coset_interpolate::<F>(a.vals(), self.log_ext()).subrange(
                0,
                (pow2(self.log_n()) * self.quotient_degree()) as int,
            ),
    {
        let mut r: Vec<F> = self.coset_to_coeff(a);
        proof {
            self.lemma_sizes();
        }
        let ghost full = r@;
        let keep: usize = (self.n * self.quotient_poly_degree) as usize;
        r.truncate(keep);
        proof {
            assert(field::vals(r@) =~= field::vals(full).subrange(0, keep as int));
        }
        r
    }

    /// The values on the domain of the polynomial with the given values on the
    /// coset.
    pub fn extended_to_lagrange(&self, a: Polynomial<F, ExtendedLagrangeCoeff>) -> (r: Polynomial<
        F,
        LagrangeCoeff,
    >)
        requires
            self.wf(),
            a.values@.len() == pow2(self.log_ext()),
        ensures
            r.values@.len() == pow2(self.log_n()),
            forall|j: int|
                0 <= j < r.values@.len() ==> (#[trigger] r.values@[j]).val() == roots::poly_eval(
                    F::modulus(),
                    coset_interpolate::<F>(a.vals(), self.log_ext()),
                    zp::pw(omega::<F>(self.log_n()), j),
                ),
    {
        let ghost p = F::modulus();
        let ghost k = self.log_n();
        let ghost e = self.log_ext();
        let ghost w = omega::<F>(e);
        proof {
            F::lemma_modulus();
            self.lemma_sizes();
            lemma_omega::<F>(e);
            lemma_omega_power::<F>(k, e);
        }
        let ghost x = a.vals();
        let mut values: Vec<F> = self.coset_to_coeff(a);
        let ghost c = field::vals(values@);
        transform(&mut values, self.extended_omega, self.extended_k);
        let s: usize = power_of_two_ratio(self.extended_k, self.k);
        let n: usize = self.n as usize;
        let mut r: Vec<F> = Vec::with_capacity(n);
        while r.len() < n
            invariant
                r@.len() <= n,
                n == pow2(k),
                s == pow2((e - k) as nat),
                values@.len() == n * s,
                n * s <= usize::MAX,
                s >= 1,
                forall|j: int| 0 <= j < r@.len() ==> #[trigger] r@[j] == values@[j * s],
            decreases n - r@.len(),
        {
            proof {
                assert(r@.len() * s < n * s) by (nonlinear_arith)
                    requires
                        r@.len() < n,
                        s >= 1,
                ;
            }
            let t: usize = r.len() * s;
            r.push(values[t]);
        }
        proof {
            assert forall|j: int| 0 <= j < r@.len() implies (#[trigger] r@[j]).val()
                == roots::poly_eval(p, c, zp::pw(omega::<F>(k), j)) by {
                let t = j * s;
                assert(0 <= t < n * s) by (nonlinear_arith)
                    requires
                        0 <= j < n,
                        s >= 1,
                        t == j * s,
                ;
                assert(r@[j] == values@[t]);
                lemma_dft_is_eval(p, c, w, t);
                zp::lemma_pw_pw(w, s as int, j);
                assert(s * j == t) by (nonlinear_arith)
                    requires
                        t == j * s,
                ;
                zp::lemma_eqm_pow(p, zp::pw(w, s as int), omega::<F>(k), j);
                lemma_eval_eqm(p, c, zp::pw(w, t), zp::pw(omega::<F>(k), j));
            }
        }
        Polynomial::new(r)
    }

    /// The quotient by the vanishing polynomial of the domain, by values on the
    /// coset.
    pub fn divide_by_vanishing_poly(
        &self,
        a: Polynomial<F, ExtendedLagrangeCoeff>,
    ) -> (r: Polynomial<F, ExtendedLagrangeCoeff>)
        requires
            self.wf(),
            a.values@.len() == pow2(self.log_ext()),
        ensures
            r.values@.len() == a.values@.len(),
            forall|t: int|
                0 <= t < r.values@.len() ==> is_quotient(
                    F::modulus(),
                    (#[trigger] r.values@[t]).val(),
                    a.values@[t].val(),
                    zp::pw(
                        coset_point::<F>(self.log_ext(), t),
                        pow2(self.log_n()) as int,
                    ) - 1,
                ),
    {
        let ghost p = F::modulus();
        let ghost k = self.log_n();
        let ghost e = self.log_ext();
        let ghost w = omega::<F>(e);
        let ghost n = pow2(k) as int;
        let ghost z = F::zeta_val();
        let ghost a0 = a.values@;
        proof {
            F::lemma_modulus();
            self.lemma_sizes();
            lemma_omega::<F>(e);
        }
        let mut values: Vec<F> = a.values;
        let one: F = F::one();
        let mut x: F = F::zeta();
        let mut t: usize = 0;
        proof {
            zp::lemma_pw0(w);
            F::lemma_zeta();
            zp::lemma_small(p, z);
            assert(z * 1 == z);
        }
        while t < values.len()
            invariant
                self.wf(),
                k == self.log_n(),
                e == self.log_ext(),
                k <= e <= F::two_adicity(),
                p == F::modulus(),
                p > 2,
                n == pow2(k),
                w == omega::<F>(e),
                z == F::zeta_val(),
                one.val() == 1,
                t <= values@.len(),
                values@.len() == a0.len(),
                x.val() == coset_point::<F>(e, t as int),
                forall|i: int| t <= i < values@.len() ==> #[trigger] values@[i] == a0[i],
                forall|i: int|
                    0 <= i < t ==> is_quotient(
                        p,
                        (#[trigger] values@[i]).val(),
                        a0[i].val(),
                        zp::pw(coset_point::<F>(e, i), n) - 1,
                    ),
            decreases values@.len() - t,
        {
            let xn: F = x.pow(self.n);
            let v: F = xn.sub(one);
            proof {
                let y = zp::pw(x.val(), n);
                lemma_vanishing_nonzero::<F>(k, e, t as int);
                zp::lemma_reduce(p, y);
                zp::lemma_eqm_sub(p, xn.val(), y, 1, 1);
                zp::lemma_reduce(p, xn.val() - 1);
                if v.val() == 0 {
                    zp::lemma_eqm_add(p, y - 1, 0, 1, 1);
                    assert(false);
                }
            }
            let inv: F = v.invert().unwrap();
            let h: F = values[t];
            values[t] = h.mul(inv);
            proof {
                let y = zp::pw(x.val(), n) - 1;
                let (b, u, q) = (h.val(), inv.val(), values@[t as int].val());
                zp::lemma_small(p, 1);
                // q (v) = (h inv) v = h
                zp::lemma_eqm_mul(p, v.val(), y, u, u);
                zp::lemma_reduce(p, b * u);
                zp::lemma_eqm_mul(p, q, b * u, y, y);
                assert((b * u) * y == b * (y * u)) by (nonlinear_arith);
                zp::lemma_eqm_mul(p, b, b, y * u, 1);
                assert(b * 1 == b);
                assert(zp::eqm(p, y * u, 1));
                // the next point
                let wt = zp::pw(w, t as int);
                zp::lemma_reduce(p, z * wt);
                zp::lemma_eqm_mul(p, x.val(), z * wt, w, w);
                zp::lemma_pw_succ(w, t as int);
                assert((z * wt) * w == z * (wt * w)) by (nonlinear_arith);
            }
            x = x.mul(self.extended_omega);
            t = t + 1;
        }
        Polynomial::new(values)
    }
}

/// `q` is the residue with `q d = a`, for an invertible `d`.
pub open spec fn is_quotient(p: int, q: int, a: int, d: int) -> bool {
    &&& zp::eqm(p, q * d, a)
    &&& exists|u: int| zp::eqm(p, #[trigger] (d * u), 1)
}

/// `2^(a-b)`.
fn power_of_two_ratio(a: u32, b: u32) -> (r: usize)
    requires
        b <= a,
        pow2(a as nat) <= usize::MAX,
    ensures
        r == pow2((a - b) as nat),
        r >= 1,
{
    proof {
        lemma_pow2_pos((a - b) as nat);
        if b > 0 {
            lemma_pow2_strictly_increases((a - b) as nat, a as nat);
        }
    }
    power_of_two(a - b)
}

/// A value of a polynomial only depends on the residue of the point.
pub proof fn lemma_eval_eqm(p: int, c: Seq<int>, x: int, y: int)
    requires
        p > 1,
        zp::eqm(p, x, y),
    ensures
        roots::poly_eval(p, c, x) == roots::poly_eval(p, c, y),
{
    let n = c.len() as int;
    let f = |i: int| c[i] * zp::pw(x, i);
    let g = |i: int| c[i] * zp::pw(y, i);
    assert forall|i: int| 0 <= i < n implies zp::eqm(p, #[trigger] f(i), g(i)) by {
        zp::lemma_eqm_pow(p, x, y, i);
        zp::lemma_eqm_mul(p, c[i], c[i], zp::pw(x, i), zp::pw(y, i));
    }
    zp::lemma_sum_eqm(p, n, f, g);
}

} // verus!
