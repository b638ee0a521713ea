use protogalaxy::batch::{
    batch_traces, batch_traces_fft, fold_challenges, fold_traces, traces_compatible,
};
use protogalaxy::column::ColumnTransform;
use protogalaxy::combine::eval_lagrange_on_beta;
use protogalaxy::domain::EvaluationDomain;
use protogalaxy::field::PrimeField;
use protogalaxy::fq::Fq;
use protogalaxy::poly::{LagrangeCoeff, Polynomial};
use protogalaxy::trace::{FoldingLogupTrace, FoldingProverTrace};

/// Dimensions of a synthetic trace.
#[derive(Clone, Copy)]
struct Shape {
    n: usize,
    advice: usize,
    instance: usize,
    lookups: usize,
    helpers_per_lookup: usize,
    trash: usize,
    perm_sets: usize,
    n_theta: usize,
    n_y: usize,
}

/// A source of dense field values: an in-field linear recurrence.
struct Values {
    state: Fq,
}

impl Values {
    fn new(seed: u64) -> Self {
        let s = Fq::from_u64(seed);
        Values { state: s.mul(s).add(Fq::from_u64(0x9e37_79b9_7f4a_7c15)) }
    }

    fn take(&mut self, len: usize) -> Vec<Fq> {
        let mult = Fq::from_u64(0x5851_f42d_4c95_7f2d);
        let incr = Fq::from_u64(0x1405_7b7e_f767_814f);
        (0..len)
            .map(|_| {
                self.state = self.state.mul(mult).add(incr);
                self.state
            })
            .collect()
    }

    fn poly(&mut self, n: usize) -> Polynomial<Fq, LagrangeCoeff> {
        Polynomial::new(self.take(n))
    }

    fn polys(&mut self, count: usize, n: usize) -> Vec<Polynomial<Fq, LagrangeCoeff>> {
        (0..count).map(|_| self.poly(n)).collect()
    }
}

/// A trace of the given shape filled with pseudorandom values.
fn pseudorandom(shape: &Shape, seed: u64) -> FoldingProverTrace<Fq> {
    let mut vals = Values::new(seed);
    FoldingProverTrace {
        advice_polys: vals.polys(shape.advice, shape.n),
        instance_polys: vals.polys(shape.instance, shape.n),
        lookups: (0..shape.lookups)
            .map(|_| FoldingLogupTrace {
                multiplicities: vals.poly(shape.n),
                helper_polys: vals.polys(shape.helpers_per_lookup, shape.n),
                aggregator_poly: vals.poly(shape.n),
            })
            .collect(),
        trash_polys: vals.polys(shape.trash, shape.n),
        perm_polys: vals.polys(shape.perm_sets, shape.n),
        beta: vals.take(1)[0],
        gamma: vals.take(1)[0],
        theta: vals.take(shape.n_theta),
        trash_challenge: vals.take(1)[0],
        y: vals.take(shape.n_y),
    }
}

/// Assert two traces are equal coordinate by coordinate.
fn assert_traces_eq(a: &FoldingProverTrace<Fq>, b: &FoldingProverTrace<Fq>, ctx: &str) {
    let (pa, pb) = (a.poly_values(), b.poly_values());
    assert_eq!(pa.len(), pb.len(), "{ctx}: number of polynomials differs");
    for (p, (sa, sb)) in pa.iter().zip(pb.iter()).enumerate() {
        assert_eq!(sa.len(), sb.len(), "{ctx}: length of polynomial {p} differs");
        for (m, (x, y)) in sa.iter().zip(sb.iter()).enumerate() {
            assert!(x == y, "{ctx}: polynomial {p} differs at coordinate {m}");
        }
    }
    let (ca, cb) = (a.challenges(), b.challenges());
    assert_eq!(ca.len(), cb.len(), "{ctx}: number of challenges differs");
    for (c, (x, y)) in ca.iter().zip(cb.iter()).enumerate() {
        assert!(x == y, "{ctx}: challenge {c} differs");
    }
}

/// The transform by columns must agree with the dense one exactly.
///
/// The degrees are chosen to sweep the number of translates of the domain over
/// 1, 2, 4 and 8.
#[test]
fn batch_traces_fft_matches_batch_traces() {
    let shapes = [
        Shape {
            n: 32,
            advice: 4,
            instance: 2,
            lookups: 2,
            helpers_per_lookup: 3,
            trash: 1,
            perm_sets: 3,
            n_theta: 4,
            n_y: 24,
        },
        // No lookups, no trashcans, and empty challenge vectors.
        Shape {
            n: 16,
            advice: 3,
            instance: 1,
            lookups: 0,
            helpers_per_lookup: 0,
            trash: 0,
            perm_sets: 1,
            n_theta: 0,
            n_y: 0,
        },
    ];

    for (si, shape) in shapes.iter().enumerate() {
        for degree in [2u32, 3, 5, 9] {
            for log_k in 1u32..=4 {
                let k = 1usize << log_k;
                let dk_domain = EvaluationDomain::<Fq>::new(degree, log_k);
                let ext_len = dk_domain.extended_len();

                let traces: Vec<FoldingProverTrace<Fq>> =
                    (0..k).map(|i| pseudorandom(shape, 1 + i as u64)).collect();
                let refs: Vec<&FoldingProverTrace<Fq>> = traces.iter().collect();

                let dense = batch_traces(&dk_domain, &refs);
                let fast = batch_traces_fft(&dk_domain, &refs);

                assert_eq!(dense.len(), ext_len, "dense returned the wrong count");
                assert_eq!(fast.len(), ext_len, "fft returned the wrong count");

                for (t, (d, f)) in dense.iter().zip(fast.iter()).enumerate() {
                    let ctx = format!(
                        "shape {si}, degree {degree}, k {k}, s {}, point {t}",
                        ext_len / k
                    );
                    assert_traces_eq(d, f, &ctx);
                }
            }
        }
    }
}

fn small_shape() -> Shape {
    Shape {
        n: 4,
        advice: 1,
        instance: 1,
        lookups: 1,
        helpers_per_lookup: 1,
        trash: 1,
        perm_sets: 1,
        n_theta: 1,
        n_y: 2,
    }
}

#[test]
fn folding_at_a_domain_point_gives_the_trace_back() {
    let dk_domain = EvaluationDomain::<Fq>::new(3, 2);
    let traces: Vec<FoldingProverTrace<Fq>> =
        (0..4).map(|i| pseudorandom(&small_shape(), 10 + i)).collect();
    let refs: Vec<&FoldingProverTrace<Fq>> = traces.iter().collect();
    for i in 0..4 {
        let point = dk_domain.get_omega().pow(i as u64);
        let folded = fold_traces(&dk_domain, &refs, &point);
        assert_traces_eq(&folded, &traces[i], &format!("point {i}"));
    }
}

/// Two traces at zero: the constant coefficient is the mean of the values.
#[test]
fn folding_two_traces_at_zero_is_their_mean() {
    let dk_domain = EvaluationDomain::<Fq>::new(2, 1);
    let (a, b) = (pseudorandom(&small_shape(), 1), pseudorandom(&small_shape(), 2));
    let folded = fold_traces(&dk_domain, &[&a, &b], &Fq::zero());
    let half = Fq::from_u64(2).invert().unwrap();
    assert_eq!(folded.beta, a.beta.add(b.beta).mul(half));
    assert_eq!(
        folded.perm_polys[0].values[3],
        a.perm_polys[0].values[3].add(b.perm_polys[0].values[3]).mul(half)
    );
}

/// Coefficients of the folded trace are folded coefficients.
#[test]
fn folding_commutes_with_the_change_of_basis() {
    let domain = EvaluationDomain::<Fq>::new(3, 2);
    let dk_domain = EvaluationDomain::<Fq>::new(3, 1);
    let gamma = Fq::from_u64(31337);
    let (a, b) = (pseudorandom(&small_shape(), 5), pseudorandom(&small_shape(), 6));
    let coeffs = |t: &FoldingProverTrace<Fq>| domain.lagrange_to_coeff(t.trash_polys[0].clone()).values;
    let folded = coeffs(&fold_traces(&dk_domain, &[&a, &b], &gamma));
    let l = eval_lagrange_on_beta(&dk_domain, &gamma);
    for (m, c) in folded.iter().enumerate() {
        assert_eq!(*c, l[0].mul(coeffs(&a)[m]).add(l[1].mul(coeffs(&b)[m])));
    }
}

/// Fewer traces than the domain has points: the missing ones count as zero.
#[test]
fn dense_batching_of_fewer_traces() {
    let dk_domain = EvaluationDomain::<Fq>::new(3, 2);
    let traces: Vec<FoldingProverTrace<Fq>> =
        (0..3).map(|i| pseudorandom(&small_shape(), 20 + i)).collect();
    let zero = FoldingProverTrace::zero_like(&traces[0]);
    let three: Vec<&FoldingProverTrace<Fq>> = traces.iter().collect();
    let four = vec![&traces[0], &traces[1], &traces[2], &zero];
    let dense = batch_traces(&dk_domain, &three);
    let fast = batch_traces_fft(&dk_domain, &four);
    assert_eq!(dense.len(), fast.len());
    for (d, f) in dense.iter().zip(fast.iter()) {
        assert_traces_eq(d, f, "three of four");
    }
}

/// A single trace is constant over the coset.
#[test]
fn batching_a_single_trace() {
    let dk_domain = EvaluationDomain::<Fq>::new(5, 0);
    let t = pseudorandom(&small_shape(), 3);
    let fast = batch_traces_fft(&dk_domain, &[&t]);
    assert_eq!(fast.len(), 4);
    for f in &fast {
        assert_traces_eq(f, &t, "single");
    }
}

#[test]
fn incompatible_traces_are_recognised() {
    let shape = small_shape();
    let t = pseudorandom(&shape, 1);
    assert!(traces_compatible(&[&t, &pseudorandom(&shape, 2)]));
    let wider = pseudorandom(&Shape { perm_sets: 2, ..shape }, 2);
    assert!(traces_compatible(&[&t, &wider]));
    assert!(!traces_compatible(&[&wider, &t]));
    assert!(!traces_compatible(&[&t, &pseudorandom(&Shape { n: 8, ..shape }, 2)]));
    assert!(!traces_compatible(&[&t, &pseudorandom(&Shape { n_y: 1, ..shape }, 2)]));
    let mut uneven = pseudorandom(&shape, 4);
    uneven.trash_polys[0].values.pop();
    assert!(!traces_compatible(&[&uneven]));
}

/// Traces beyond the domain's points do not matter, whatever their shape.
#[test]
fn challenges_of_the_first_traces_are_folded() {
    let shape = Shape {
        n: 2,
        advice: 1,
        instance: 0,
        lookups: 0,
        helpers_per_lookup: 0,
        trash: 0,
        perm_sets: 0,
        n_theta: 2,
        n_y: 1,
    };
    let short = Shape { n_theta: 0, n_y: 0, ..shape };
    let dk_domain = EvaluationDomain::<Fq>::new(3, 1);
    let ct = ColumnTransform::new(&dk_domain);
    let traces = [pseudorandom(&shape, 1), pseudorandom(&shape, 2), pseudorandom(&short, 3)];
    let refs: Vec<&FoldingProverTrace<Fq>> = traces.iter().collect();
    let expected = batch_traces_fft(&dk_domain, &refs[..2]);
    assert_eq!(expected.len(), 4);
    // One output more than the coset has points.
    let mut out: Vec<_> = (0..5).map(|_| FoldingProverTrace::zero_like(&traces[0])).collect();
    fold_challenges(&ct, &refs, &mut out);
    for (t, e) in expected.iter().enumerate() {
        assert_eq!(out[t].challenges(), e.challenges());
        assert_eq!(out[t].advice_polys[0].values, vec![Fq::from_u64(0); 2]);
    }
    assert_eq!(out[4].challenges(), vec![Fq::from_u64(0); 6]);
}
