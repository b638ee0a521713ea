//! The column transform: interpolate one coordinate of the input traces over
//! the domain and evaluate the interpolant on the whole coset.
//!
//! The coset splits into `s` translates of the domain, and evaluating a
//! polynomial of degree less than `k` on one of them is a twist of its
//! coefficients followed by a transform of size `k`.
use crate::domain;
use crate::domain::EvaluationDomain;
use crate::fft::{compute_twiddles, fft_serial, power_of_two};
use crate::field;
use crate::field::PrimeField;
use crate::poly::{powers, size_inverse};
use crate::roots;
use crate::zp;
use vstd::arithmetic::power2::*;
use vstd::prelude::*;

verus! {

/// The value of an interpolant at the `t`-th point of the coset.
pub open spec fn lifted<F: PrimeField>(column: Seq<int>, k: nat, e: nat, t: int) -> int {
    roots::interpolate_at(
        F::modulus(),
        column,
        domain::omega::<F>(k),
        k,
        domain::coset_point::<F>(e, t),
    )
}

/// The value at the `t`-th point of the coset of the polynomial with the first
/// `n` of the given coefficients.
pub open spec fn value_on_coset<F: PrimeField>(coeffs: Seq<F>, n: int, e: nat, t: int) -> int {
    roots::poly_eval(
        F::modulus(),
        field::vals(coeffs.subrange(0, n)),
        domain::coset_point::<F>(e, t),
    )
}

/// Point `r + j s` of the coset is point `r` times the `j`-th power of the
/// domain's generator.
pub proof fn lemma_coset_decomposition<F: PrimeField>(k: nat, e: nat, r: int, j: int)
    requires
        k <= e <= F::two_adicity(),
        r >= 0,
        j >= 0,
    ensures
        j * pow2((e - k) as nat) >= 0,
        zp::eqm(
            F::modulus(),
            domain::coset_point::<F>(e, r + j * pow2((e - k) as nat)),
            domain::coset_point::<F>(e, r) * zp::pw(domain::omega::<F>(k), j),
        ),
{
    let p = F::modulus();
    let s = pow2((e - k) as nat) as int;
    let we = domain::omega::<F>(e);
    let w = domain::omega::<F>(k);
    let z = F::zeta_val();
    F::lemma_modulus();
    domain::lemma_omega_power::<F>(k, e);
    zp::lemma_pw_pw(we, s, j);
    assert(s * j == j * s) by (nonlinear_arith);
    zp::lemma_pw_add(we, r, j * s);
    zp::lemma_eqm_pow(p, zp::pw(we, s), w, j);
    let (a, b, c) = (zp::pw(we, r), zp::pw(we, j * s), zp::pw(w, j));
    assert(z * (a * b) == (z * a) * b) by (nonlinear_arith);
    zp::lemma_reduce(p, z * (a * b));
    zp::lemma_reduce(p, z * a);
    zp::lemma_eqm_mul(p, (z * a) % p, z * a, c, b);
}

/// Precomputed data for the column transform of a domain.
pub struct ColumnTransform<F> {
    log_k: u32,
    k: usize,
    ext_len: usize,
    /// Number of translates of the domain that cover the coset.
    s: usize,
    omega_tw: Vec<F>,
    omega_inv_tw: Vec<F>,
    k_inv: F,
    /// `twist[r][i]` is the `i`-th power of the coset's point `r`.
    twist: Vec<Vec<F>>,
    /// The size exponent of the coset.
    log_ext: Ghost<nat>,
}

impl<F: PrimeField> ColumnTransform<F> {
    /// The size exponent of the domain.
    pub closed spec fn log_n(&self) -> nat {
        self.log_k as nat
    }

    /// The size exponent of the coset.
    pub closed spec fn log_ext(&self) -> nat {
        self.log_ext@
    }

    /// The stored number of input values.
    pub closed spec fn input_count(&self) -> int {
        self.k as int
    }

    /// The stored number of points of the coset.
    pub closed spec fn point_count(&self) -> int {
        self.ext_len as int
    }

    /// The stored number of translates of the domain that cover the coset.
    pub closed spec fn translate_count(&self) -> int {
        self.s as int
    }

    /// The stored factors of the transform that evaluates.
    pub closed spec fn omega_table(&self) -> Seq<int> {
        field::vals(self.omega_tw@)
    }

    /// The stored factors of the transform that interpolates.
    pub closed spec fn omega_inv_table(&self) -> Seq<int> {
        field::vals(self.omega_inv_tw@)
    }

    /// The stored inverse of the number of input values.
    pub closed spec fn count_inverse(&self) -> int {
        self.k_inv.val()
    }

    /// The stored twists.
    pub closed spec fn twist_table(&self) -> Seq<Seq<int>> {
        Seq::new(self.twist@.len(), |r: int| field::vals(self.twist@[r]@))
    }

    /// What the tables hold: the sizes, the inverse of the number of inputs, the
    /// powers of each translate's first point, and half of the powers of the
    /// domain's generator and of its inverse.
    pub open spec fn tables_hold(&self) -> bool {
        let p = F::modulus();
        let l = self.log_n();
        let w = domain::omega::<F>(l);
        let we = domain::omega::<F>(self.log_ext());
        let (k, s) = (self.input_count(), self.translate_count());
        &&& k == pow2(l)
        &&& self.point_count() == pow2(self.log_ext())
        &&& self.point_count() == s * k
        &&& zp::eqm(p, self.count_inverse() * k, 1)
        &&& self.twist_table().len() == s
        &&& forall|r: int| 0 <= r < s ==> (#[trigger] self.twist_table()[r]).len() == k
        &&& forall|r: int, i: int|
            0 <= r < s && 0 <= i < k ==> #[trigger] self.twist_table()[r][i] == zp::pw(
                F::zeta_val() * zp::pw(we, r),
                i,
            ) % p
        &&& self.omega_table().len() == k / 2
        &&& self.omega_inv_table().len() == k / 2
        &&& forall|i: int|
            0 <= i < k / 2 ==> #[trigger] self.omega_table()[i] == zp::pw(w, i) % p
        &&& forall|i: int|
            0 <= i < k / 2 ==> {
                &&& 0 <= #[trigger] self.omega_inv_table()[i] < p
                &&& zp::eqm(p, self.omega_inv_table()[i] * zp::pw(w, i), 1)
            }
        &&& zp::eqm(p, zp::pw(we, s), w)
    }

    /// The first `n` powers of point `r` of the coset.
    spec fn are_twists(row: Seq<F>, e: nat, r: int, n: int) -> bool {
        &&& row.len() == n
        &&& forall|i: int|
            0 <= i < n ==> (#[trigger] row[i]).val() == zp::pw(domain::coset_point::<F>(e, r), i)
                % F::modulus()
    }

    /// The first half of the powers of `v`; none for a domain of one point.
    spec fn are_twiddles(tw: Seq<F>, v: int, l: nat) -> bool {
        &&& l == 0 ==> tw.len() == 0
        &&& l > 0 ==> tw.len() == pow2((l - 1) as nat)
        &&& forall|i: int|
            0 <= i < tw.len() ==> (#[trigger] tw[i]).val() == zp::pw(v, i) % F::modulus()
    }

    /// The tables hold the powers they are named after.
    pub closed spec fn wf(&self) -> bool {
        let p = F::modulus();
        let l = self.log_k as nat;
        let e = self.log_ext@;
        let w = domain::omega::<F>(l);
        &&& l <= e <= F::two_adicity()
        &&& self.k == pow2(l)
        &&& self.ext_len == pow2(e)
        &&& self.s == pow2((e - l) as nat)
        &&& Self::are_twiddles(self.omega_tw@, w, l)
        &&& Self::are_twiddles(self.omega_inv_tw@, roots::root_inv(p, w, l), l)
        &&& self.k_inv.val() == roots::size_inv(p, l)
        &&& self.twist@.len() == self.s
        &&& forall|r: int|
            0 <= r < self.s ==> Self::are_twists((#[trigger] self.twist@[r])@, e, r, self.k as int)
    }

    /// The sizes of the domain and of the coset.
    pub proof fn lemma_sizes(&self)
        requires
            self.wf(),
        ensures
            self.log_n() <= self.log_ext() <= F::two_adicity(),
            1 <= pow2(self.log_n()) <= pow2(self.log_ext()) <= usize::MAX,
            pow2(self.log_n()) * pow2((self.log_ext() - self.log_n()) as nat) == pow2(
                self.log_ext(),
            ),
            1 <= pow2((self.log_ext() - self.log_n()) as nat),
    {
        let (k, e) = (self.log_n(), self.log_ext());
        lemma_pow2_adds(k, (e - k) as nat);
        lemma_pow2_pos(k);
        lemma_pow2_pos((e - k) as nat);
        if k < e {
            lemma_pow2_strictly_increases(k, e);
        }
    }

    /// The tables of every transform hold what they should; in particular both
    /// lists of factors are empty for a domain of one point.
    pub proof fn lemma_tables(&self)
        requires
            self.wf(),
        ensures
            self.tables_hold(),
            self.log_n() == 0 ==> self.omega_table().len() == 0 && self.omega_inv_table().len()
                == 0,
    {
        let p = F::modulus();
        let l = self.log_n();
        let e = self.log_ext();
        let w = domain::omega::<F>(l);
        let we = domain::omega::<F>(e);
        let v = roots::root_inv(p, w, l);
        let z = F::zeta_val();
        let (k, s) = (self.input_count(), self.translate_count());
        F::lemma_modulus();
        self.lemma_sizes();
        lemma2_to64();
        if l > 0 {
            lemma_pow2_unfold(l);
        }
        domain::lemma_omega::<F>(l);
        domain::lemma_omega_power::<F>(l, e);
        roots::lemma_root_inv(p, w, l);
        roots::lemma_size_inv(p, l);
        assert(s * k == k * s && self.count_inverse() * k == k * self.count_inverse())
            by (nonlinear_arith);
        assert forall|r: int| 0 <= r < s implies (#[trigger] self.twist_table()[r]).len() == k by {
            assert(Self::are_twists(self.twist@[r]@, e, r, k));
        }
        assert forall|r: int, i: int| 0 <= r < s && 0 <= i < k implies
            #[trigger] self.twist_table()[r][i] == zp::pw(z * zp::pw(we, r), i) % p by {
            assert(Self::are_twists(self.twist@[r]@, e, r, k));
            assert(self.twist@[r]@[i].val() == self.twist_table()[r][i]);
            zp::lemma_reduce(p, z * zp::pw(we, r));
            zp::lemma_eqm_pow(p, domain::coset_point::<F>(e, r), z * zp::pw(we, r), i);
        }
        assert forall|i: int| 0 <= i < k / 2 implies #[trigger] self.omega_table()[i] == zp::pw(
            w,
            i,
        ) % p by {
            assert(self.omega_tw@[i].val() == self.omega_table()[i]);
        }
        assert forall|i: int| 0 <= i < k / 2 implies {
            &&& 0 <= #[trigger] self.omega_inv_table()[i] < p
            &&& zp::eqm(p, self.omega_inv_table()[i] * zp::pw(w, i), 1)
        } by {
            let (a, b) = (zp::pw(v, i), zp::pw(w, i));
            assert(self.omega_inv_tw@[i].val() == self.omega_inv_table()[i]);
            zp::lemma_reduce(p, a);
            zp::lemma_inverse_pow(p, w, v, i);
            zp::lemma_eqm_mul(p, a % p, a, b, b);
            assert(a * b == b * a) by (nonlinear_arith);
        }
    }

    /// The number of input values of a column.
    pub fn k(&self) -> (r: usize)
        requires
            self.wf(),
        ensures
            r == pow2(self.log_n()),
    {
        self.k
    }

    /// The number of points of the coset.
    pub fn ext_len(&self) -> (r: usize)
        requires
            self.wf(),
        ensures
            r == pow2(self.log_ext()),
    {
        self.ext_len
    }

    /// Precomputes the tables for a domain and its coset.
    pub fn new(dk_domain: &EvaluationDomain<F>) -> (ct: Self)
        requires
            dk_domain.wf(),
        ensures
            ct.wf(),
            ct.log_n() == dk_domain.log_n(),
            ct.log_ext() == dk_domain.log_ext(),
            ct.tables_hold(),
            dk_domain.log_n() == 0 ==> ct.omega_table().len() == 0 && ct.omega_inv_table().len()
                == 0,
    {
        let ghost p = F::modulus();
        let ghost l = dk_domain.log_n();
        let ghost e = dk_domain.log_ext();
        let ghost w = domain::omega::<F>(l);
        let ghost we = domain::omega::<F>(e);
        let ghost z = F::zeta_val();
        proof {
            F::lemma_modulus();
            F::lemma_zeta();
            dk_domain.lemma_sizes();
            lemma_pow2_pos((e - l) as nat);
        }
        let log_k: u32 = dk_domain.k();
        let k: usize = power_of_two(log_k);
        let ext_len: usize = dk_domain.extended_len();
        let s: usize = ext_len / k;
        proof {
            vstd::arithmetic::div_mod::lemma_div_multiples_vanish(
                pow2((e - l) as nat) as int,
                k as int,
            );
        }
        let mut omega_tw: Vec<F> = Vec::new();
        let mut omega_inv_tw: Vec<F> = Vec::new();
        if log_k > 0 {
            omega_tw = compute_twiddles(&dk_domain.get_omega(), log_k);
            omega_inv_tw = compute_twiddles(&dk_domain.get_omega_inv(), log_k);
        }
        let omega_e: F = dk_domain.get_extended_omega();
        let mut alpha: F = F::zeta();
        let mut twist: Vec<Vec<F>> = Vec::with_capacity(s);
        proof {
            zp::lemma_pw0(we);
            zp::lemma_small(p, z);
            assert(z * 1 == z);
        }
        while twist.len() < s
            invariant
                twist@.len() <= s,
                p == F::modulus(),
                p > 2,
                we == omega_e.val(),
                we == domain::omega::<F>(e),
                z == F::zeta_val(),
                alpha.val() == domain::coset_point::<F>(e, twist@.len() as int),
                forall|r: int|
                    0 <= r < twist@.len() ==> Self::are_twists(
                        (#[trigger] twist@[r])@,
                        e,
                        r,
                        k as int,
                    ),
            decreases s - twist@.len(),
        {
            let pows: Vec<F> = powers(alpha, k);
            let ghost r0 = twist@.len() as int;
            twist.push(pows);
            proof {
                let q = zp::pw(we, r0);
                zp::lemma_reduce(p, z * q);
                zp::lemma_eqm_mul(p, alpha.val(), z * q, we, we);
                zp::lemma_pw_succ(we, r0);
                assert((z * q) * we == z * (q * we)) by (nonlinear_arith);
            }
            alpha = alpha.mul(omega_e);
        }
        let k_inv: F = size_inverse(k, Ghost(l));
        let ct = ColumnTransform {
            log_k,
            k,
            ext_len,
            s,
            omega_tw,
            omega_inv_tw,
            k_inv,
            twist,
            log_ext: Ghost(e),
        };
        proof {
            ct.lemma_tables();
        }
        ct
    }

    /// Interpolates `column` (the `k` input values of one coordinate) over the
    /// domain, leaving its coefficients in `column`.
    pub fn interpolate(&self, column: &mut [F])
        requires
            self.wf(),
            old(column)@.len() == pow2(self.log_n()),
        ensures
            field::vals(final(column)@) == roots::interpolate(
                F::modulus(),
                field::vals(old(column)@),
                domain::omega::<F>(self.log_n()),
                self.log_n(),
            ),
            final(column)@.len() == old(column)@.len(),
    {
        let ghost p = F::modulus();
        let ghost l = self.log_n();
        let ghost w = domain::omega::<F>(l);
        let ghost v = roots::root_inv(p, w, l);
        let ghost s = roots::size_inv(p, l);
        let ghost x = field::vals(column@);
        proof {
            F::lemma_modulus();
            lemma2_to64();
            domain::lemma_omega::<F>(l);
            roots::lemma_root_inv(p, w, l);
            roots::lemma_root_inv_is_root(p, w, v, l);
        }
        fft_serial(column, self.omega_inv_tw.as_slice(), self.log_k);
        let ghost y = column@;
        proof {
            domain::lemma_table_transform(x, self.omega_inv_tw@, y, v, l);
        }
        let n: usize = column.len();
        let mut i: usize = 0;
        while i < n
            invariant
                i <= n,
                n == column@.len(),
                column@.len() == y.len(),
                p == F::modulus(),
                s == self.k_inv.val(),
                forall|k: int| 0 <= k < i ==> (#[trigger] column@[k]).val() == (y[k].val() * s) % p,
                forall|k: int| i <= k < n ==> #[trigger] column@[k] == y[k],
            decreases n - i,
        {
            let c: F = column[i];
            column[i] = c.mul(self.k_inv);
            i = i + 1;
        }
        proof {
            let c = roots::interpolate(p, x, w, l);
            assert forall|i: int| 0 <= i < c.len() implies field::vals(column@)[i]
                == #[trigger] c[i] by {
                let d = roots::dft_at(x, v, i);
                assert(column@[i].val() == (y[i].val() * s) % p);
                assert(y[i].val() == d % p);
                zp::lemma_reduce(p, d);
                zp::lemma_eqm_mul(p, y[i].val(), d, s, s);
                assert(d * s == s * d) by (nonlinear_arith);
            }
            assert(field::vals(column@) =~= c);
        }
    }

    /// Evaluates the polynomial with the given coefficients on translate `r` of
    /// the domain, leaving the values in `buf`.
    fn evaluate_coset(&self, coeffs: &[F], buf: &mut [F], r: usize)
        requires
            self.wf(),
            r < pow2((self.log_ext() - self.log_n()) as nat),
            coeffs@.len() >= pow2(self.log_n()),
            old(buf)@.len() == pow2(self.log_n()),
        ensures
            final(buf)@.len() == old(buf)@.len(),
            forall|j: int|
                0 <= j < final(buf)@.len() ==> (#[trigger] final(buf)@[j]).val()
                    == value_on_coset(
                    coeffs@,
                    pow2(self.log_n()) as int,
                    self.log_ext(),
                    r + j * pow2((self.log_ext() - self.log_n()) as nat),
                ),
    {
        let ghost p = F::modulus();
        let ghost l = self.log_n();
        let ghost e = self.log_ext();
        let ghost w = domain::omega::<F>(l);
        let ghost g = domain::coset_point::<F>(e, r as int);
        proof {
            F::lemma_modulus();
            lemma2_to64();
            domain::lemma_omega::<F>(l);
            assert(Self::are_twists(self.twist@[r as int]@, e, r as int, self.k as int));
        }
        let tw: &Vec<F> = &self.twist[r];
        let mut i: usize = 0;
        while i < self.k
            invariant
                i <= self.k,
                self.k == buf@.len(),
                self.k <= coeffs@.len(),
                tw@.len() == self.k,
                p == F::modulus(),
                forall|k: int|
                    0 <= k < i ==> (#[trigger] buf@[k]).val() == (coeffs@[k].val() * tw@[k].val())
                        % p,
            decreases self.k - i,
        {
            buf[i] = coeffs[i].mul(tw[i]);
            i = i + 1;
        }
        let ghost twisted = buf@;
        fft_serial(buf, self.omega_tw.as_slice(), self.log_k);
        proof {
            let n = self.k as int;
            let c = field::vals(coeffs@.subrange(0, n));
            let d = field::vals(twisted);
            domain::lemma_table_transform(d, self.omega_tw@, buf@, w, l);
            assert forall|i: int| 0 <= i < c.len() implies zp::eqm(
                p,
                #[trigger] d[i],
                c[i] * zp::pw(g, i),
            ) by {
                assert(twisted[i].val() == (coeffs@[i].val() * tw@[i].val()) % p);
                let q = zp::pw(g, i);
                assert(tw@[i].val() == q % p);
                zp::lemma_reduce(p, q);
                zp::lemma_reduce(p, coeffs@[i].val() * tw@[i].val());
                zp::lemma_eqm_mul(p, c[i], c[i], tw@[i].val(), q);
            }
            assert forall|j: int| 0 <= j < buf@.len() implies (#[trigger] buf@[j]).val()
                == value_on_coset(coeffs@, n, e, r + j * pow2((e - l) as nat)) by {
                lemma_coset_decomposition::<F>(l, e, r as int, j);
                domain::lemma_twisted_dft(
                    p,
                    c,
                    d,
                    g,
                    w,
                    j,
                    domain::coset_point::<F>(e, r + j * pow2((e - l) as nat)),
                );
            }
        }
    }

    /// Evaluates the interpolant whose coefficients are in `coeffs` on the whole
    /// coset, writing its value at point `t` to `out[t]`.
    ///
    /// `buf` is scratch of length `k`; it is left with the values on the last
    /// translate of the domain.
    pub fn evaluate_all(&self, coeffs: &[F], buf: &mut [F], out: &mut [F])
        requires
            self.wf(),
            coeffs@.len() >= pow2(self.log_n()),
            old(buf)@.len() == pow2(self.log_n()),
            old(out)@.len() >= pow2(self.log_ext()),
        ensures
            final(out)@.len() == old(out)@.len(),
            forall|t: int|
                0 <= t < pow2(self.log_ext()) ==> (#[trigger] final(out)@[t]).val()
                    == value_on_coset(
                    coeffs@,
                    pow2(self.log_n()) as int,
                    self.log_ext(),
                    t,
                ),
            forall|t: int|
                pow2(self.log_ext()) <= t < old(out)@.len() ==> #[trigger] final(out)@[t] == old(out)@[t],
            final(buf)@.len() == old(buf)@.len(),
            forall|j: int|
                0 <= j < final(buf)@.len() ==> (#[trigger] final(buf)@[j]).val()
                    == value_on_coset(
                    coeffs@,
                    pow2(self.log_n()) as int,
                    self.log_ext(),
                    pow2((self.log_ext() - self.log_n()) as nat) - 1 + j * pow2(
                        (self.log_ext() - self.log_n()) as nat,
                    ),
                ),
    {
        let ghost k = self.k as int;
        let ghost s = self.s as int;
        let ghost e = self.log_ext();
        let ghost out0 = out@;
        proof {
            self.lemma_sizes();
        }
        let mut r: usize = 0;
        while r < self.s
            invariant
                self.wf(),
                r <= self.s,
                self.s >= 1,
                k == self.k,
                s == self.s,
                e == self.log_ext(),
                k == pow2(self.log_n()),
                s == pow2((e - self.log_n()) as nat),
                k * s == pow2(e),
                pow2(e) <= usize::MAX,
                coeffs@.len() >= k,
                buf@.len() == k,
                out@.len() == out0.len(),
                out0.len() >= pow2(e),
                forall|t: int|
                    pow2(e) <= t < out0.len() ==> #[trigger] out@[t] == out0[t],
                forall|t: int|
                    0 <= t < pow2(e) && t % s < r ==> (#[trigger] out@[t]).val() == value_on_coset(
                        coeffs@,
                        k,
                        e,
                        t,
                    ),
                r > 0 ==> forall|j: int|
                    0 <= j < k ==> (#[trigger] buf@[j]).val() == value_on_coset(
                        coeffs@,
                        k,
                        e,
                        r - 1 + j * s,
                    ),
            decreases self.s - r,
        {
            self.evaluate_coset(coeffs, buf, r);
            let mut j: usize = 0;
            while j < self.k
                invariant
                    r < self.s,
                    j <= self.k,
                    k == self.k,
                    s == self.s,
                    k * s == pow2(e),
                    pow2(e) <= usize::MAX,
                    buf@.len() == k,
                    forall|j: int|
                        0 <= j < k ==> (#[trigger] buf@[j]).val() == value_on_coset(
                            coeffs@,
                            k,
                            e,
                            r + j * s,
                        ),
                    out@.len() == out0.len(),
                    out0.len() >= pow2(e),
                    forall|t: int|
                        pow2(e) <= t < out0.len() ==> #[trigger] out@[t] == out0[t],
                    forall|t: int|
                        0 <= t < pow2(e) && (t % s < r || t % s == r && t / s < j)
                            ==> (#[trigger] out@[t]).val() == value_on_coset(coeffs@, k, e, t),
                decreases self.k - j,
            {
                proof {
                    lemma_scatter(r as int, j as int, s, k);
                    lemma_scatter_unique(r as int, j as int, s, k);
                }
                out[r + j * self.s] = buf[j];
                j = j + 1;
            }
            proof {
                assert forall|t: int| 0 <= t < pow2(e) && t % s < r + 1 implies (
                #[trigger] out@[t]).val() == value_on_coset(coeffs@, k, e, t) by {
                    lemma_gather(t, s, k);
                }
            }
            r = r + 1;
        }
        proof {
            assert forall|t: int| 0 <= t < pow2(e) implies (#[trigger] out@[t]).val()
                == value_on_coset(coeffs@, k, e, t) by {
                lemma_gather(t, s, k);
            }
        }
    }

    /// As [`Self::evaluate_all`], but scattering straight into the output rows
    /// at coordinate `m`.
    pub fn evaluate_all_into_rows(
        &self,
        coeffs: &[F],
        buf: &mut [F],
        rows: &mut [&mut [F]],
        m: usize,
    )
        requires
            self.wf(),
            coeffs@.len() >= pow2(self.log_n()),
            old(buf)@.len() == pow2(self.log_n()),
            old(rows)@.len() >= pow2(self.log_ext()),
            forall|t: int| 0 <= t < pow2(self.log_ext()) ==> m < old(rows)@[t]@.len(),
        ensures
            final(rows)@.len() == old(rows)@.len(),
            forall|t: int|
                0 <= t < pow2(self.log_ext()) ==> row_set(
                    old(rows)@[t]@,
                    #[trigger] final(rows)@[t]@,
                    m as int,
                    value_on_coset(coeffs@, pow2(self.log_n()) as int, self.log_ext(), t),
                ),
            forall|t: int|
                pow2(self.log_ext()) <= t < old(rows)@.len() ==> #[trigger] final(rows)@[t] == old(rows)@[t],
            forall|t: int|
                0 <= t < old(rows)@.len() ==> final(#[trigger] final(rows)@[t])@ == final(old(rows)@[t])@,
            final(buf)@.len() == old(buf)@.len(),
            forall|j: int|
                0 <= j < final(buf)@.len() ==> (#[trigger] final(buf)@[j]).val()
                    == value_on_coset(
                    coeffs@,
                    pow2(self.log_n()) as int,
                    self.log_ext(),
                    pow2((self.log_ext() - self.log_n()) as nat) - 1 + j * pow2(
                        (self.log_ext() - self.log_n()) as nat,
                    ),
                ),
    {
        let ghost k = self.k as int;
        let ghost s = self.s as int;
        let ghost e = self.log_ext();
        let ghost rows0 = rows@;
        proof {
            self.lemma_sizes();
        }
        let mut r: usize = 0;
        while r < self.s
            invariant
                self.wf(),
                r <= self.s,
                self.s >= 1,
                k == self.k,
                s == self.s,
                e == self.log_ext(),
                k == pow2(self.log_n()),
                s == pow2((e - self.log_n()) as nat),
                k * s == pow2(e),
                pow2(e) <= usize::MAX,
                coeffs@.len() >= k,
                buf@.len() == k,
                rows@.len() == rows0.len(),
                rows0.len() >= pow2(e),
                forall|t: int| 0 <= t < pow2(e) ==> m < rows0[t]@.len(),
                forall|t: int|
                    0 <= t < rows0.len() ==> final(#[trigger] rows@[t])@ == final(rows0[t])@,
                forall|t: int|
                    0 <= t < rows0.len() && (t >= pow2(e) || t % s >= r) ==> #[trigger] rows@[t]
                        == rows0[t],
                forall|t: int|
                    0 <= t < pow2(e) && t % s < r ==> row_set(
                        rows0[t]@,
                        #[trigger] rows@[t]@,
                        m as int,
                        value_on_coset(coeffs@, k, e, t),
                    ),
                r > 0 ==> forall|j: int|
                    0 <= j < k ==> (#[trigger] buf@[j]).val() == value_on_coset(
                        coeffs@,
                        k,
                        e,
                        r - 1 + j * s,
                    ),
            decreases self.s - r,
        {
            self.evaluate_coset(coeffs, buf, r);
            let mut j: usize = 0;
            while j < self.k
                invariant
                    r < self.s,
                    j <= self.k,
                    k == self.k,
                    s == self.s,
                    k * s == pow2(e),
                    pow2(e) <= usize::MAX,
                    buf@.len() == k,
                    forall|j: int|
                        0 <= j < k ==> (#[trigger] buf@[j]).val() == value_on_coset(
                            coeffs@,
                            k,
                            e,
                            r + j * s,
                        ),
                    rows@.len() == rows0.len(),
                    rows0.len() >= pow2(e),
                    forall|t: int| 0 <= t < pow2(e) ==> m < rows0[t]@.len(),
                    forall|t: int|
                        0 <= t < rows0.len() ==> final(#[trigger] rows@[t])@ == final(rows0[t])@,
                    forall|t: int|
                        0 <= t < rows0.len() && (t >= pow2(e) || t % s > r || t % s == r && t / s
                            >= j) ==> #[trigger] rows@[t] == rows0[t],
                    forall|t: int|
                        0 <= t < pow2(e) && (t % s < r || t % s == r && t / s < j) ==> row_set(
                            rows0[t]@,
                            #[trigger] rows@[t]@,
                            m as int,
                            value_on_coset(coeffs@, k, e, t),
                        ),
                decreases self.k - j,
            {
                proof {
                    lemma_scatter(r as int, j as int, s, k);
                    lemma_scatter_unique(r as int, j as int, s, k);
                }
                let t: usize = r + j * self.s;
                assert(rows@[t as int] == rows0[t as int]);
                rows[t][m] = buf[j];
                j = j + 1;
            }
            proof {
                assert forall|t: int| 0 <= t < pow2(e) && t % s < r + 1 implies row_set(
                    rows0[t]@,
                    #[trigger] rows@[t]@,
                    m as int,
                    value_on_coset(coeffs@, k, e, t),
                ) by {
                    lemma_gather(t, s, k);
                }
            }
            r = r + 1;
        }
        proof {
            assert forall|t: int| 0 <= t < pow2(e) implies row_set(
                rows0[t]@,
                #[trigger] rows@[t]@,
                m as int,
                value_on_coset(coeffs@, k, e, t),
            ) by {
                lemma_gather(t, s, k);
            }
        }
    }
}

/// `after` is `before` with the entry at `m` replaced by an element of value `v`.
pub open spec fn row_set<F: PrimeField>(before: Seq<F>, after: Seq<F>, m: int, v: int) -> bool {
    &&& after == before.update(m, after[m])
    &&& after[m].val() == v
}

proof fn lemma_scatter(r: int, j: int, s: int, k: int)
    requires
        0 <= r < s,
        0 <= j < k,
    ensures
        0 <= r + j * s < k * s,
        0 <= j * s,
        (r + j * s) % s == r,
        (r + j * s) / s == j,
{
    assert(0 <= j * s) by (nonlinear_arith)
        requires
            j >= 0,
            s >= 0,
    ;
    assert(j * s + s <= k * s) by (nonlinear_arith)
        requires
            j + 1 <= k,
            s >= 0,
    ;
    vstd::arithmetic::div_mod::lemma_fundamental_div_mod_converse(r + j * s, s, j, r);
}

/// Only `r + j s` has remainder `r` and quotient `j`.
proof fn lemma_scatter_unique(r: int, j: int, s: int, k: int)
    requires
        0 <= r < s,
        0 <= j < k,
    ensures
        forall|t: int| 0 <= t && #[trigger] (t % s) == r && t / s == j ==> t == r + j * s,
{
    assert forall|t: int| 0 <= t && #[trigger] (t % s) == r && t / s == j implies t == r + j
        * s by {
        vstd::arithmetic::div_mod::lemma_fundamental_div_mod(t, s);
        assert(s * j == j * s) by (nonlinear_arith);
    }
}

proof fn lemma_gather(t: int, s: int, k: int)
    requires
        s >= 1,
        0 <= t < k * s,
    ensures
        0 <= t % s < s,
        0 <= t / s < k,
{
    vstd::arithmetic::div_mod::lemma_fundamental_div_mod(t, s);
    vstd::arithmetic::div_mod::lemma_mod_bound(t, s);
    let q = t / s;
    assert(q < k) by (nonlinear_arith)
        requires
            s >= 1,
            s * q <= t,
            t < k * s,
    ;
    assert(q >= 0) by (nonlinear_arith)
        requires
            s >= 1,
            t == s * q + t % s,
            t % s < s,
            t >= 0,
    ;
}

} // verus!
