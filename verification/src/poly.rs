//! Polynomials in the three forms the prover keeps them in.
use crate::field::PrimeField;
use crate::field;
use crate::roots;
use crate::zp;
use std::marker::PhantomData;
use vstd::arithmetic::power2::pow2;
use vstd::prelude::*;

verus! {

/// Coefficients, constant first.
#[derive(Debug)]
pub struct Coeff;

/// Values at the powers of the domain's root of unity.
#[derive(Debug)]
pub struct LagrangeCoeff;

/// Values at the points of the extended coset.
#[derive(Debug)]
pub struct ExtendedLagrangeCoeff;

/// A polynomial in the form `B`.
#[derive(Debug)]
pub struct Polynomial<F, B> {
    pub values: Vec<F>,
    pub _marker: PhantomData<B>,
}

/// `r` is `a` plus `b`, entry by entry; entries that `b` lacks stay as they are.
pub open spec fn added<F: PrimeField>(a: Seq<F>, b: Seq<F>, r: Seq<F>) -> bool {
    &&& r.len() == a.len()
    &&& forall|m: int|
        0 <= m < a.len() ==> (#[trigger] r[m]).val() == if m < b.len() {
            (a[m].val() + b[m].val()) % F::modulus()
        } else {
            a[m].val()
        }
}

/// `r` is `a` minus `b`, entry by entry; entries that `b` lacks stay as they are.
pub open spec fn subtracted<F: PrimeField>(a: Seq<F>, b: Seq<F>, r: Seq<F>) -> bool {
    &&& r.len() == a.len()
    &&& forall|m: int|
        0 <= m < a.len() ==> (#[trigger] r[m]).val() == if m < b.len() {
            (a[m].val() - b[m].val()) % F::modulus()
        } else {
            a[m].val()
        }
}

/// `r` is `a` times `c`, entry by entry.
pub open spec fn scaled<F: PrimeField>(a: Seq<F>, c: int, r: Seq<F>) -> bool {
    &&& r.len() == a.len()
    &&& forall|m: int|
        0 <= m < a.len() ==> (#[trigger] r[m]).val() == (a[m].val() * c) % F::modulus()
}

/// `n` zeros.
pub open spec fn is_zero<F: PrimeField>(a: Seq<F>, n: nat) -> bool {
    &&& a.len() == n
    &&& forall|m: int| 0 <= m < n ==> (#[trigger] a[m]).val() == 0
}

/// The field elements of a slice.
pub fn copy_of<F: PrimeField>(s: &[F]) -> (v: Vec<F>)
    ensures
        v@ == s@,
{
    let mut v: Vec<F> = Vec::with_capacity(s.len());
    let mut i: usize = 0;
    while i < s.len()
        invariant
            i <= s@.len(),
            v@ == s@.subrange(0, i as int),
        decreases s@.len() - i,
    {
        v.push(s[i]);
        i = i + 1;
    }
    proof {
        assert(s@.subrange(0, s@.len() as int) =~= s@);
    }
    v
}

/// `n` zeros.
pub fn zero_vec<F: PrimeField>(n: usize) -> (v: Vec<F>)
    ensures
        is_zero(v@, n as nat),
{
    let zero: F = F::zero();
    let mut v: Vec<F> = Vec::with_capacity(n);
    while v.len() < n
        invariant
            zero.val() == 0,
            v@.len() <= n,
            forall|i: int| 0 <= i < v@.len() ==> (#[trigger] v@[i]).val() == 0,
        decreases n - v@.len(),
    {
        v.push(zero);
    }
    v
}

/// Adds `b` to `a` entry by entry, as far as both reach.
pub fn add_into<F: PrimeField>(a: &mut Vec<F>, b: &Vec<F>)
    ensures
        added(old(a)@, b@, final(a)@),
{
    let ghost a0 = a@;
    let ghost p = F::modulus();
    let mut i: usize = 0;
    while i < a.len() && i < b.len()
        invariant
            i <= a@.len(),
            i <= b@.len(),
            a@.len() == a0.len(),
            p == F::modulus(),
            forall|k: int|
                0 <= k < i ==> (#[trigger] a@[k]).val() == (a0[k].val() + b@[k].val()) % p,
            forall|k: int| i <= k < a@.len() ==> #[trigger] a@[k] == a0[k],
        decreases a@.len() - i,
    {
        let x: F = a[i];
        a[i] = x.add(b[i]);
        i = i + 1;
    }
}

/// Multiplies every entry of `a` by `c`.
pub fn scale_in_place<F: PrimeField>(a: &mut Vec<F>, c: F)
    ensures
        scaled(old(a)@, c.val(), final(a)@),
{
    let ghost a0 = a@;
    let ghost p = F::modulus();
    proof {
        F::lemma_modulus();
        zp::lemma_small(p, 0);
    }
    if c.equals(F::one()) {
        proof {
            assert forall|m: int| 0 <= m < a0.len() implies (#[trigger] a0[m]).val() == (
            a0[m].val() * 1) % p by {
                a0[m].lemma_val();
                zp::lemma_small(p, a0[m].val());
            }
        }
        return;
    }
    if c.is_zero() {
        let n: usize = a.len();
        *a = zero_vec(n);
        proof {
            assert forall|m: int| 0 <= m < a0.len() implies (#[trigger] a@[m]).val() == (
            a0[m].val() * 0) % p by {
                assert(a0[m].val() * 0 == 0);
            }
        }
        return;
    }
    let mut i: usize = 0;
    while i < a.len()
        invariant
            i <= a@.len(),
            a@.len() == a0.len(),
            p == F::modulus(),
            forall|k: int| 0 <= k < i ==> (#[trigger] a@[k]).val() == (a0[k].val() * c.val()) % p,
            forall|k: int| i <= k < a@.len() ==> #[trigger] a@[k] == a0[k],
        decreases a@.len() - i,
    {
        let x: F = a[i];
        a[i] = x.mul(c);
        i = i + 1;
    }
}

/// The powers `alpha^0, ..., alpha^(k-1)`.
pub fn powers<F: PrimeField>(alpha: F, k: usize) -> (pows: Vec<F>)
    ensures
        pows@.len() == k,
        forall|i: int|
            0 <= i < k ==> (#[trigger] pows@[i]).val() == zp::pw(alpha.val(), i)
                % F::modulus(),
{
    let ghost p = F::modulus();
    proof {
        F::lemma_modulus();
        zp::lemma_pw0(alpha.val());
        zp::lemma_small(p, 1);
    }
    let mut pows: Vec<F> = Vec::with_capacity(k);
    let mut power: F = F::one();
    while pows.len() < k
        invariant
            pows@.len() <= k,
            p == F::modulus(),
            p > 2,
            power.val() == zp::pw(alpha.val(), pows@.len() as int) % p,
            forall|i: int|
                0 <= i < pows@.len() ==> (#[trigger] pows@[i]).val() == zp::pw(alpha.val(), i)
                    % p,
        decreases k - pows@.len(),
    {
        proof {
            let q = zp::pw(alpha.val(), pows@.len() as int);
            zp::lemma_pw_succ(alpha.val(), pows@.len() as int);
            zp::lemma_reduce(p, q);
            zp::lemma_eqm_mul(p, power.val(), q, alpha.val(), alpha.val());
        }
        pows.push(power);
        power = power.mul(alpha);
    }
    pows
}

/// The inverse of the field element `k = 2^l`.
pub(crate) fn size_inverse<F: PrimeField>(k: usize, Ghost(l): Ghost<nat>) -> (r: F)
    requires
        k == pow2(l),
        k <= u64::MAX,
    ensures
        r.val() == roots::size_inv(F::modulus(), l),
{
    let ghost p = F::modulus();
    let ghost inv = roots::size_inv(p, l);
    let k_fe: F = F::from_u64(k as u64);
    proof {
        F::lemma_modulus();
        roots::lemma_size_inv(p, l);
        zp::lemma_reduce(p, k as int);
        zp::lemma_eqm_mul(p, k_fe.val(), k as int, inv, inv);
        zp::lemma_small(p, 1);
        zp::lemma_small(p, 0);
        assert(0 * inv == 0);
    }
    let r: F = k_fe.invert().unwrap();
    proof {
        zp::lemma_inverse_unique(p, k_fe.val(), r.val(), inv);
        r.lemma_val();
        zp::lemma_small(p, r.val());
        zp::lemma_small(p, inv);
    }
    r
}

impl<F: PrimeField, B> Polynomial<F, B> {
    /// The integers that the entries stand for.
    pub open spec fn vals(self) -> Seq<int> {
        field::vals(self.values@)
    }

    /// A polynomial with the given entries.
    pub fn new(values: Vec<F>) -> (r: Self)
        ensures
            r.values == values,
    {
        Polynomial { values, _marker: PhantomData }
    }

    /// A polynomial of `n` zero entries.
    pub fn zero(n: usize) -> (r: Self)
        ensures
            is_zero(r.values@, n as nat),
    {
        Polynomial { values: zero_vec(n), _marker: PhantomData }
    }

    /// The sum, entry by entry; entries that `rhs` lacks stay as they are.
    pub fn add(self, rhs: &Self) -> (r: Self)
        ensures
            added(self.values@, rhs.values@, r.values@),
    {
        let mut values: Vec<F> = self.values;
        add_into(&mut values, &rhs.values);
        Polynomial { values, _marker: PhantomData }
    }

    /// The difference, entry by entry; entries that `rhs` lacks stay as they are.
    pub fn sub(self, rhs: &Self) -> (r: Self)
        ensures
            subtracted(self.values@, rhs.values@, r.values@),
    {
        let ghost p = F::modulus();
        let ghost a0 = self.values@;
        let mut values: Vec<F> = self.values;
        let mut i: usize = 0;
        while i < values.len() && i < rhs.values.len()
            invariant
                i <= values@.len(),
                i <= rhs.values@.len(),
                values@.len() == a0.len(),
                p == F::modulus(),
                forall|k: int|
                    0 <= k < i ==> (#[trigger] values@[k]).val() == (a0[k].val()
                        - rhs.values@[k].val()) % p,
                forall|k: int| i <= k < values@.len() ==> #[trigger] values@[k] == a0[k],
            decreases values@.len() - i,
        {
            let x: F = values[i];
            values[i] = x.sub(rhs.values[i]);
            i = i + 1;
        }
        Polynomial { values, _marker: PhantomData }
    }

    /// The multiple by a scalar.
    pub fn mul(self, scalar: F) -> (r: Self)
        ensures
            scaled(self.values@, scalar.val(), r.values@),
    {
        let mut values: Vec<F> = self.values;
        scale_in_place(&mut values, scalar);
        Polynomial { values, _marker: PhantomData }
    }
}

impl<F: PrimeField, B> Clone for Polynomial<F, B> {
    fn clone(&self) -> (r: Self)
        ensures
            r.values@ == self.values@,
    {
        Polynomial { values: copy_of(self.values.as_slice()), _marker: PhantomData }
    }
}

/// The value at `point` of the polynomial with the given coefficients.
pub fn eval_polynomial<F: PrimeField>(coeffs: &[F], point: F) -> (r: F)
    ensures
        r.val() == roots::poly_eval(F::modulus(), field::vals(coeffs@), point.val()),
{
    let ghost p = F::modulus();
    let ghost c = field::vals(coeffs@);
    let ghost x = point.val();
    let ghost n = coeffs@.len() as int;
    proof {
        F::lemma_modulus();
        zp::lemma_small(p, 0);
    }
    let mut acc: F = F::zero();
    let mut i: usize = coeffs.len();
    while i > 0
        invariant
            i <= coeffs@.len(),
            n == coeffs@.len(),
            c == field::vals(coeffs@),
            x == point.val(),
            p == F::modulus(),
            p > 2,
            zp::eqm(p, acc.val(), zp::sum(n - i, |k: int| c[i + k] * zp::pw(x, k))),
        decreases i,
    {
        i = i - 1;
        proof {
            // c[i] + x (c[i+1] + c[i+2] x + ...)
            let f = |k: int| c[i + 1 + k] * zp::pw(x, k);
            let g = |k: int| c[i + k] * zp::pw(x, k);
            let m = n - i - 1;
            zp::lemma_sum_split(1, m, g);
            let g1 = |k: int| g(1 + k);
            assert(zp::sum(1, g) == zp::sum(0, g) + g(0));
            zp::lemma_pw0(x);
            assert(c[i + 0] * 1 == c[i as int]);
            zp::lemma_sum_scale(m, x, f);
            let xf = |k: int| x * f(k);
            assert forall|k: int| 0 <= k < m implies #[trigger] g1(k) == xf(k) by {
                zp::lemma_pw_succ(x, k);
                let (a, b) = (c[i + 1 + k], zp::pw(x, k));
                assert(a * (b * x) == x * (a * b)) by (nonlinear_arith);
            }
            zp::lemma_sum_same(m, g1, xf);
            let s = zp::sum(m, f);
            zp::lemma_eqm_mul(p, acc.val(), s, x, x);
            zp::lemma_reduce(p, acc.val() * x);
            assert(s * x == x * s) by (nonlinear_arith);
            let t = (acc.val() * x) % p;
            zp::lemma_eqm_add(p, t, x * s, c[i as int], c[i as int]);
            zp::lemma_reduce(p, t + c[i as int]);
        }
        acc = acc.mul(point).add(coeffs[i]);
    }
    proof {
        let f = |k: int| c[i + k] * zp::pw(x, k);
        let g = |k: int| c[k] * zp::pw(x, k);
        zp::lemma_sum_same(n, f, g);
        acc.lemma_val();
        zp::lemma_small(p, acc.val());
    }
    acc
}

} // verus!
