use protogalaxy::bits::bit_reverse;
use protogalaxy::column::ColumnTransform;
use protogalaxy::combine::{eval_lagrange_on_beta, pow_vec};
use protogalaxy::domain::EvaluationDomain;
use protogalaxy::fft::{compute_twiddles, fft_serial};
use protogalaxy::field::PrimeField;
use protogalaxy::fq::Fq;
use protogalaxy::poly::{eval_polynomial, Coeff, ExtendedLagrangeCoeff, LagrangeCoeff, Polynomial};

fn fe(v: u64) -> Fq {
    Fq::from_u64(v)
}

fn fes(vs: &[u64]) -> Vec<Fq> {
    vs.iter().map(|v| fe(*v)).collect()
}

/// The generator of the domain of size `2^k`.
fn omega(k: u32) -> Fq {
    Fq::root_of_unity().pow(1 << (32 - k))
}

/// Point `t` of the coset of size `2^e`.
fn coset_point(e: u32, t: u64) -> Fq {
    Fq::zeta().mul(omega(e).pow(t))
}

#[test]
fn bits_are_reversed() {
    assert_eq!(bit_reverse(0b001, 3), 0b100);
    assert_eq!(bit_reverse(0b110, 3), 0b011);
    assert_eq!(bit_reverse(5, 0), 0);
    let all: Vec<usize> = (0..8).map(|i| bit_reverse(i, 3)).collect();
    assert_eq!(all, vec![0, 4, 2, 6, 1, 5, 3, 7]);
}

#[test]
fn subset_products() {
    assert_eq!(pow_vec::<Fq>(&[]), fes(&[1]));
    assert_eq!(pow_vec(&fes(&[2])), fes(&[1, 2]));
    assert_eq!(pow_vec(&fes(&[2, 3, 5])), fes(&[1, 2, 3, 6, 5, 10, 15, 30]));
}

#[test]
fn fft_is_the_fourier_transform() {
    for log_n in 0u32..=4 {
        let n = 1usize << log_n;
        let w = omega(log_n);
        let x: Vec<Fq> = (0..n).map(|i| fe(3 * i as u64 + 1)).collect();
        let tw = if log_n == 0 { vec![] } else { compute_twiddles(&w, log_n) };
        let mut a = x.clone();
        fft_serial(&mut a, &tw, log_n);
        for (j, v) in a.iter().enumerate() {
            assert_eq!(*v, eval_polynomial(&x, w.pow(j as u64)), "size {n}, entry {j}");
        }
    }
}

#[test]
fn fft_of_size_two() {
    let tw = compute_twiddles(&omega(1), 1);
    assert_eq!(tw, fes(&[1]));
    let mut a = fes(&[5, 3]);
    fft_serial(&mut a, &tw, 1);
    assert_eq!(a, fes(&[8, 2]));
}

#[test]
fn polynomials_are_evaluated() {
    assert_eq!(eval_polynomial(&fes(&[1, 2, 3]), fe(10)), fe(321));
    assert_eq!(eval_polynomial::<Fq>(&[], fe(10)), fe(0));
}

#[test]
fn polynomial_operators() {
    let a: Polynomial<Fq, Coeff> = Polynomial::new(fes(&[1, 2, 3]));
    let b: Polynomial<Fq, Coeff> = Polynomial::new(fes(&[10, 20]));
    assert_eq!(a.clone().add(&b).values, fes(&[11, 22, 3]));
    assert_eq!(b.clone().sub(&a).values, fes(&[9, 18]));
    assert_eq!(a.mul(fe(5)).values, fes(&[5, 10, 15]));
    let z: Polynomial<Fq, Coeff> = Polynomial::zero(2);
    assert_eq!(z.values, fes(&[0, 0]));
}

#[test]
fn domain_sizes() {
    // degree, log of the size, size of the coset
    for (j, k, ext_len) in
        [(1u32, 3u32, 8usize), (2, 3, 8), (3, 3, 16), (4, 3, 32), (5, 3, 32), (6, 0, 8), (9, 4, 128)]
    {
        let d = EvaluationDomain::<Fq>::new(j, k);
        assert_eq!(d.k(), k);
        assert_eq!(d.n(), 1 << k);
        assert_eq!(d.extended_len(), ext_len);
        assert_eq!(d.get_omega(), omega(k));
        assert_eq!(d.get_omega().mul(d.get_omega_inv()), fe(1));
        assert_eq!(d.get_extended_omega(), omega(ext_len.trailing_zeros()));
    }
}

#[test]
fn values_and_coefficients_are_inverse() {
    let d = EvaluationDomain::<Fq>::new(3, 3);
    let c = fes(&[3, 1, 4, 1, 5, 9, 2, 6]);
    let v = d.coeff_to_lagrange(Polynomial::new(c.clone()));
    for (j, x) in v.values.iter().enumerate() {
        assert_eq!(*x, eval_polynomial(&c, omega(3).pow(j as u64)));
    }
    assert_eq!(d.lagrange_to_coeff(v).values, c);
}

#[test]
fn coset_values_and_coefficients_are_inverse() {
    let d = EvaluationDomain::<Fq>::new(4, 2);
    let c = fes(&[7, 0, 2, 5]);
    let ext = d.coeff_to_extended(Polynomial::new(c.clone()));
    assert_eq!(ext.values.len(), 16);
    for (t, x) in ext.values.iter().enumerate() {
        assert_eq!(*x, eval_polynomial(&c, coset_point(4, t as u64)));
    }
    // Cut off at three times the size of the domain.
    let back = d.extended_to_coeff(ext.clone());
    let mut padded = c.clone();
    padded.resize(12, fe(0));
    assert_eq!(back, padded);
    // The values on the domain of the same polynomial.
    let direct = d.coeff_to_lagrange(Polynomial::new(c));
    assert_eq!(d.extended_to_lagrange(ext).values, direct.values);
}

#[test]
fn division_by_the_vanishing_polynomial() {
    let d = EvaluationDomain::<Fq>::new(3, 2);
    // (x^4 - 1) (5 + x), by its values on the coset.
    let values: Vec<Fq> = (0..8)
        .map(|t| {
            let x = coset_point(3, t);
            x.pow(4).sub(fe(1)).mul(fe(5).add(x))
        })
        .collect();
    let q: Polynomial<Fq, ExtendedLagrangeCoeff> =
        d.divide_by_vanishing_poly(Polynomial::new(values));
    assert_eq!(d.extended_to_coeff(q), fes(&[5, 1, 0, 0, 0, 0, 0, 0]));
}

#[test]
fn vanishing_polynomial_is_zero_on_the_domain_only() {
    let d = EvaluationDomain::<Fq>::new(3, 2);
    for i in 0..4 {
        assert!(d.vanishes_at(&omega(2).pow(i)));
    }
    assert!(!d.vanishes_at(&fe(0)));
    assert!(!d.vanishes_at(&fe(2)));
    assert!(!d.vanishes_at(&omega(3)));
}

#[test]
fn lagrange_basis_at_a_point() {
    let d = EvaluationDomain::<Fq>::new(3, 2);
    let beta = fe(12345);
    let l = eval_lagrange_on_beta(&d, &beta);
    assert_eq!(l.len(), 4);
    for (i, li) in l.iter().enumerate() {
        let mut unit: Polynomial<Fq, LagrangeCoeff> = d.empty_lagrange();
        unit.values[i] = fe(1);
        assert_eq!(*li, eval_polynomial(&d.lagrange_to_coeff(unit).values, beta));
        // (beta^4 - 1) w^i / (4 (beta - w^i))
        let wi = omega(2).pow(i as u64);
        let closed = beta
            .pow(4)
            .sub(fe(1))
            .mul(wi)
            .mul(fe(4).mul(beta.sub(wi)).invert().unwrap());
        assert_eq!(*li, closed);
    }
    // The basis interpolates: the sum of f(w^i) L_i(beta) is f(beta).
    let f = fes(&[2, 7, 1, 8]);
    let v = d.coeff_to_lagrange(Polynomial::new(f.clone()));
    let sum = v.values.iter().zip(l.iter()).fold(fe(0), |acc, (x, y)| acc.add(x.mul(*y)));
    assert_eq!(sum, eval_polynomial(&f, beta));
}

#[test]
fn lagrange_basis_of_a_single_point() {
    let d = EvaluationDomain::<Fq>::new(2, 0);
    assert_eq!(eval_lagrange_on_beta(&d, &fe(9)), fes(&[1]));
}

#[test]
fn column_transform_evaluates_the_interpolant() {
    for (degree, log_k) in [(2u32, 0u32), (5, 0), (2, 2), (3, 2), (9, 1)] {
        let d = EvaluationDomain::<Fq>::new(degree, log_k);
        let ct = ColumnTransform::new(&d);
        let (k, ext_len) = (ct.k(), ct.ext_len());
        assert_eq!(k, 1 << log_k);
        assert_eq!(ext_len, d.extended_len());
        let values: Vec<Fq> = (0..k).map(|i| fe(11 + 5 * i as u64)).collect();

        let mut column = values.clone();
        ct.interpolate(&mut column);
        for (i, v) in values.iter().enumerate() {
            assert_eq!(*v, eval_polynomial(&column, omega(log_k).pow(i as u64)));
        }

        let mut buf = vec![fe(0); k];
        let mut out = vec![fe(77); ext_len + 2];
        ct.evaluate_all(&column, &mut buf, &mut out);
        let e = ext_len.trailing_zeros();
        for (t, v) in out[..ext_len].iter().enumerate() {
            assert_eq!(*v, eval_polynomial(&column, coset_point(e, t as u64)));
        }
        assert_eq!(out[ext_len..], [fe(77), fe(77)]);

        let mut storage: Vec<Vec<Fq>> = (0..ext_len).map(|_| vec![fe(1); 3]).collect();
        let mut rows: Vec<&mut [Fq]> = storage.iter_mut().map(|r| r.as_mut_slice()).collect();
        ct.evaluate_all_into_rows(&column, &mut buf, &mut rows, 1);
        for (t, row) in storage.iter().enumerate() {
            assert_eq!(*row, vec![fe(1), out[t], fe(1)]);
        }
    }
}

/// Point `r + j s` of the coset is point `r` times the `j`-th power of the
/// domain's generator.
#[test]
fn coset_splits_into_translates_of_the_domain() {
    let (k, e) = (2u32, 4u32);
    let s = 1u64 << (e - k);
    for r in 0..s {
        for j in 0..1u64 << k {
            assert_eq!(coset_point(e, r + j * s), coset_point(e, r).mul(omega(k).pow(j)));
        }
    }
}

#[test]
fn coset_points_are_distinct() {
    let points: Vec<Fq> = (0..16).map(|t| coset_point(4, t)).collect();
    for t in 0..16 {
        for u in 0..t {
            assert_ne!(points[t], points[u]);
        }
    }
}

#[test]
fn powers_of_zeta_repeat_after_three() {
    for i in 0..9 {
        assert_eq!(Fq::zeta().pow(i), Fq::zeta().pow(i % 3));
    }
    assert_ne!(Fq::zeta().pow(2), Fq::zeta());
}

/// Combining coefficients and then taking values is combining values.
#[test]
fn evaluation_is_linear() {
    let (a, b) = (fes(&[1, 2, 3]), fes(&[4, 0, 9]));
    let combined: Vec<Fq> =
        a.iter().zip(b.iter()).map(|(x, y)| fe(5).mul(*x).add(fe(7).mul(*y))).collect();
    let x = fe(11);
    assert_eq!(
        eval_polynomial(&combined, x),
        fe(5).mul(eval_polynomial(&a, x)).add(fe(7).mul(eval_polynomial(&b, x)))
    );
}
