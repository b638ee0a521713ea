use protogalaxy::domain::EvaluationDomain;
use protogalaxy::field::PrimeField;
use protogalaxy::fq::Fq;
use protogalaxy::numerator::{agree, inner_product, FoldingKey, LagrangeKey, Mismatch};
use protogalaxy::plonk::{
    into_prover_trace, lift_trace, LogupCommitted, PermutationCommitted, PermutationCommittedSet,
    RawTrace, TrashCommitted,
};
use protogalaxy::poly::{eval_polynomial, Coeff, LagrangeCoeff, Polynomial};
use protogalaxy::prover::{
    all_queries, correct_numerator, evaluate_g, k_at_gamma, k_polynomial, Action, Event, FoldError,
    ProtogalaxyProver, Stage,
};
use protogalaxy::trace::FoldingProverTrace;

const LOG_N: u32 = 3;
const N: usize = 8;
const DEGREE: u32 = 3;

fn fe(v: u64) -> Fq {
    Fq::from_u64(v)
}

fn fes(vs: &[u64]) -> Vec<Fq> {
    vs.iter().map(|v| fe(*v)).collect()
}

fn omega(k: u32) -> Fq {
    Fq::root_of_unity().pow(1 << (32 - k))
}

/// Dense values from a recurrence.
fn dense(seed: u64, len: usize) -> Vec<Fq> {
    let mut state = fe(seed).mul(fe(0x9e37_79b9_7f4a_7c15));
    (0..len)
        .map(|_| {
            state = state.mul(fe(0x5851_f42d_4c95_7f2d)).add(fe(0x1405_7b7e_f767_814f));
            state
        })
        .collect()
}

fn key() -> FoldingKey<Fq> {
    let domain = EvaluationDomain::<Fq>::new(DEGREE, LOG_N);
    let ext = |seed: u64| domain.coeff_to_extended(Polynomial::new(dense(seed, N)));
    let (l0, l_last, l_active_row) = (ext(101), ext(102), ext(103));
    FoldingKey {
        domain,
        degree: DEGREE,
        fixed_values: vec![Polynomial::new(dense(104, N))],
        l0,
        l_last,
        l_active_row,
        permutation_polys: vec![Polynomial::new(dense(105, N)), Polynomial::new(dense(106, N))],
    }
}

/// A raw trace whose second column is the square of the first.
fn raw(seed: u64) -> RawTrace<Fq> {
    let a = dense(seed, N);
    let squares: Vec<Fq> = a.iter().map(|x| x.mul(*x)).collect();
    RawTrace {
        advice_lagrange: vec![Polynomial::new(a), Polynomial::new(squares)],
        instance_values: vec![Polynomial::new(dense(seed + 1, N))],
        lookups: vec![LogupCommitted {
            multiplicities: Polynomial::new(dense(seed + 2, N)),
            helper_polys: vec![Polynomial::new(dense(seed + 3, N))],
            aggregator_poly: Polynomial::new(dense(seed + 4, N)),
        }],
        trashcans: vec![TrashCommitted { trash_poly: Polynomial::new(dense(seed + 5, N)) }],
        permutations: PermutationCommitted {
            sets: vec![PermutationCommittedSet {
                permutation_product_poly: Polynomial::new(dense(seed + 6, N)),
            }],
        },
        beta: fe(seed + 7),
        gamma: fe(seed + 8),
        theta: fes(&[seed + 9]),
        trash_challenge: fe(seed + 10),
        y: fes(&[seed + 11, seed + 12]),
    }
}

/// The constraint that the second column is the square of the first.
fn numerator(t: &FoldingProverTrace<Fq>) -> Polynomial<Fq, LagrangeCoeff> {
    let (a, b) = (&t.advice_polys[0].values, &t.advice_polys[1].values);
    Polynomial::new(a.iter().zip(b.iter()).map(|(x, y)| x.mul(*x).sub(*y)).collect())
}

type Prover = ProtogalaxyProver<Fq, 4>;

fn step(prover: Prover, event: Event<Fq>) -> Prover {
    assert!(prover.can_take(&event));
    let (next, action) = prover.fold(event);
    assert_eq!(format!("{:?}", action), format!("{:?}", next.action()));
    next
}

/// A prover that has all four traces.
fn traced() -> Prover {
    let mut prover = Prover::new(key());
    for i in 0..4u64 {
        assert!(matches!(prover.action(), Action::ComputeTrace(j) if j as u64 == i));
        prover = step(prover, Event::RawTrace(raw(1000 * (i + 1))));
    }
    prover
}

#[test]
fn a_fold_runs_to_its_end() {
    let (beta, gamma, x) = (fe(987_654_321), fe(123_456_789), fe(555_555));
    let prover = traced();
    assert!(matches!(prover.action(), Action::SqueezeChallenge));

    let prover = step(prover, Event::Challenge(beta));
    assert!(matches!(prover.action(), Action::EvaluateNumerators));
    let Stage::Lifted { lifted, beta_coeffs, .. } = prover.stage() else {
        panic!("the traces are not lifted");
    };
    assert_eq!(lifted.len(), 8);
    let nus: Vec<_> = lifted.iter().map(numerator).collect();
    let g = evaluate_g(&nus, beta_coeffs);
    assert_eq!(g[5], inner_product(&nus[5].values, beta_coeffs));

    let prover = step(prover, Event::Numerators(nus));
    assert!(matches!(prover.action(), Action::CommitK));
    let Stage::Quotient { k_poly, .. } = prover.stage() else {
        panic!("there is no quotient");
    };
    let k_poly = k_poly.values.clone();
    assert_eq!(k_poly.len(), 8);
    // K Z = G on the coset.
    for (t, gt) in g.iter().enumerate() {
        let point = Fq::zeta().mul(omega(3).pow(t as u64));
        let z = point.pow(4).sub(fe(1));
        assert_eq!(eval_polynomial(&k_poly, point).mul(z), *gt);
    }

    let prover = step(prover, Event::Done);
    assert!(matches!(prover.action(), Action::SqueezeChallenge));
    let prover = step(prover, Event::Challenge(gamma));
    assert!(matches!(prover.action(), Action::EvaluateFolded));
    let Stage::Folded { folded, .. } = prover.stage() else {
        panic!("the traces are not folded");
    };
    let error = numerator(folded);
    let folded_advice = folded.advice_polys[0].values.clone();

    let prover = step(prover, Event::Numerator(error.clone()));
    let Action::WriteScalar(k_gamma) = prover.action() else {
        panic!("no scalar is written");
    };
    // The input traces satisfy the constraint, so K is not aliased.
    assert_eq!(k_gamma, eval_polynomial(&k_poly, gamma));
    // K(gamma) Z(gamma) = E(beta).
    let error_poly = prover.key().domain.lagrange_to_coeff(error.clone());
    assert_eq!(
        k_gamma.mul(gamma.pow(4).sub(fe(1))),
        eval_polynomial(&error_poly.values, beta)
    );

    let prover = step(prover, Event::Done);
    assert!(matches!(prover.action(), Action::CommitError));
    let Stage::CommittingError { error: committed, error_coeff, .. } = prover.stage() else {
        panic!("no error polynomial");
    };
    assert_eq!(committed.values, error.values);
    assert_eq!(error_coeff.values, error_poly.values);

    let prover = step(prover, Event::Done);
    assert!(matches!(prover.action(), Action::ComputeNu));
    let Stage::AwaitingNu { opening } = prover.stage() else {
        panic!("no trace to open");
    };
    assert_eq!(opening.beta_pg, beta);
    let a = &opening.trace.advice_polys[0].values;
    let b = &opening.trace.advice_polys[1].values;
    assert_eq!(eval_polynomial(a, omega(LOG_N).pow(3)), folded_advice[3]);
    let nu: Vec<Fq> = (0..16)
        .map(|t| {
            let point = Fq::zeta().mul(omega(4).pow(t));
            let v = eval_polynomial(a, point);
            v.mul(v).sub(eval_polynomial(b, point))
        })
        .collect();

    let prover = step(prover, Event::Nu(Polynomial::new(nu)));
    assert!(matches!(prover.action(), Action::CommitQuotient));
    let Stage::Corrected { nu_corrected, .. } = prover.stage() else {
        panic!("the numerator is not corrected");
    };
    // The corrected numerator vanishes on the domain.
    let on_domain = prover.key().domain.extended_to_lagrange(nu_corrected.clone());
    assert_eq!(on_domain.values, vec![fe(0); N]);

    let prover = step(prover, Event::Done);
    assert!(matches!(prover.action(), Action::SqueezeChallenge));
    let prover = step(prover, Event::Challenge(x));
    assert!(matches!(prover.action(), Action::WriteEvals(p) if p == x));
    let prover = step(prover, Event::Done);
    let Action::WriteScalar(error_at_x) = prover.action() else {
        panic!("no scalar is written");
    };
    assert_eq!(error_at_x, eval_polynomial(&error_poly.values, x));

    let prover = step(prover, Event::Done);
    assert!(matches!(prover.action(), Action::EvaluateKey(p) if p == x));
    let prover = step(prover, Event::Done);
    assert!(matches!(prover.action(), Action::EvaluatePermutations(p) if p == x));
    let prover = step(prover, Event::Done);
    assert!(matches!(prover.action(), Action::EvaluateLookup(0, p) if p == x));
    let prover = step(prover, Event::Done);
    assert!(matches!(prover.action(), Action::EvaluateTrash(0, p) if p == x));
    let prover = step(prover, Event::Done);
    assert!(matches!(prover.action(), Action::Open));
    let Stage::OpeningAll { opening, splitting_factor, xn, .. } = prover.stage() else {
        panic!("nothing to open");
    };
    assert_eq!(*splitting_factor, x.pow(7));
    assert_eq!(*xn, x.pow(8));
    let other: Polynomial<Fq, Coeff> = Polynomial::new(dense(200, N));
    let queries = all_queries(vec![(fe(11), &other), (fe(12), &opening.error_coeff)], opening, x);
    let points: Vec<Fq> = queries.iter().map(|q| q.0).collect();
    assert_eq!(points, vec![fe(11), fe(12), x, beta]);
    assert_eq!(queries[0].1.values, other.values);
    assert_eq!(queries[2].1.values, error_poly.values);
    assert_eq!(queries[3].1.values, error_poly.values);
    let alone = all_queries(vec![], opening, x);
    assert_eq!(alone.len(), 2);
    assert_eq!((alone[0].0, alone[1].0), (x, beta));

    // Only the opening's outcome ends the fold.
    let prover = step(prover, Event::Done);
    assert!(matches!(prover.action(), Action::Open));
    let prover = step(prover, Event::Opened(true));
    assert!(matches!(prover.action(), Action::Finish(Ok(()))));
    let prover = step(prover, Event::Opened(false));
    assert!(matches!(prover.stage(), Stage::Finished { result: Ok(()) }));
}

/// A prover that has just written the error polynomial's evaluation.
fn error_written<const NB: usize>(traces: Vec<RawTrace<Fq>>) -> ProtogalaxyProver<Fq, NB> {
    let mut prover = ProtogalaxyProver::<Fq, NB>::new(key());
    for t in traces {
        prover = prover.fold(Event::RawTrace(t)).0;
    }
    let lifted = 2 * NB as u64;
    let nus: Vec<_> = (0..lifted).map(|i| Polynomial::new(dense(i, N))).collect();
    for event in [
        Event::Challenge(fe(5)),
        Event::Numerators(nus),
        Event::Done,
        Event::Challenge(fe(6)),
        Event::Numerator(Polynomial::new(dense(31, N))),
        Event::Done,
        Event::Done,
        Event::Nu(Polynomial::new(dense(32, 2 * N))),
        Event::Done,
        Event::Challenge(fe(7)),
        Event::Done,
        Event::Done,
    ] {
        assert!(prover.can_take(&event));
        prover = prover.fold(event).0;
    }
    prover
}

#[test]
fn evaluations_are_written_in_order() {
    let mut t = raw(60);
    t.lookups.extend(raw(61).lookups);
    t.trashcans.extend(raw(62).trashcans);
    t.trashcans.extend(raw(63).trashcans);
    let mut prover = error_written::<1>(vec![t]);
    let mut asked = Vec::new();
    while !matches!(prover.action(), Action::Open) {
        asked.push(match prover.action() {
            Action::EvaluateKey(x) => (0, 0, x),
            Action::EvaluatePermutations(x) => (1, 0, x),
            Action::EvaluateLookup(i, x) => (2, i, x),
            Action::EvaluateTrash(i, x) => (3, i, x),
            other => panic!("{:?}", other),
        });
        prover = prover.fold(Event::Done).0;
    }
    let expected = [(0, 0), (1, 0), (2, 0), (2, 1), (3, 0), (3, 1), (3, 2)];
    assert_eq!(asked, expected.map(|(what, i)| (what, i, fe(7))).to_vec());
}

#[test]
fn arguments_that_are_not_there_are_not_evaluated() {
    let mut t = raw(60);
    t.lookups.clear();
    let prover = error_written::<1>(vec![t]);
    let prover = prover.fold(Event::Done).0.fold(Event::Done).0;
    assert!(matches!(prover.action(), Action::EvaluateTrash(0, _)));

    let mut t = raw(60);
    t.lookups.clear();
    t.trashcans.clear();
    let prover = error_written::<1>(vec![t]);
    let prover = prover.fold(Event::Done).0.fold(Event::Done).0;
    assert!(matches!(prover.action(), Action::Open));
}

#[test]
fn a_failed_opening_is_a_constraint_system_failure() {
    let mut prover = error_written::<2>(vec![raw(60), raw(61)]);
    while !matches!(prover.action(), Action::Open) {
        prover = prover.fold(Event::Done).0;
    }
    let (prover, action) = prover.fold(Event::Opened(false));
    assert!(matches!(action, Action::Finish(Err(FoldError::ConstraintSystemFailure))));
    let Stage::Finished { result } = prover.stage() else {
        panic!("the fold is not over");
    };
    assert_eq!(*result, Err(FoldError::ConstraintSystemFailure));
}

#[test]
fn keys_are_checked_before_a_fold() {
    assert!(ProtogalaxyProver::<Fq, 1>::can_start(&key()));
    assert!(ProtogalaxyProver::<Fq, 64>::can_start(&key()));
    assert!(!ProtogalaxyProver::<Fq, 0>::can_start(&key()));
    assert!(!ProtogalaxyProver::<Fq, 3>::can_start(&key()));
    assert!(!ProtogalaxyProver::<Fq, { usize::MAX }>::can_start(&key()));
    // A degree of three takes a coset twice as large as the domain.
    assert!(ProtogalaxyProver::<Fq, 0x8000_0000>::can_start(&key()));
    assert!(!ProtogalaxyProver::<Fq, 0x1_0000_0000>::can_start(&key()));
    assert!(!ProtogalaxyProver::<Fq, 0x8000_0000_0000_0000>::can_start(&key()));

    let mut k = key();
    k.degree = 0;
    assert!(!Prover::can_start(&k));
    k.degree = 1;
    assert!(Prover::can_start(&k));
    assert!(ProtogalaxyProver::<Fq, 0x1_0000_0000>::can_start(&k));
    k.degree = u32::MAX;
    assert!(!Prover::can_start(&k));
    assert!(ProtogalaxyProver::<Fq, 1>::can_start(&k));

    let mut k = key();
    k.l0.values.pop();
    assert!(!Prover::can_start(&k));
    let mut k = key();
    k.l_last.values.push(fe(0));
    assert!(!Prover::can_start(&k));
    let mut k = key();
    k.l_active_row.values.clear();
    assert!(!Prover::can_start(&k));
    let mut k = key();
    k.permutation_polys[1].values.pop();
    assert!(!Prover::can_start(&k));
}

/// The committed polynomial and the scalar that is written, for a cubic constraint
/// and a key of the given degree.
fn committed_and_written(degree: u32, beta: Fq, gamma: Fq) -> (Vec<Fq>, Fq) {
    let cubic = |t: &FoldingProverTrace<Fq>| -> Polynomial<Fq, LagrangeCoeff> {
        let (a, b) = (&t.advice_polys[0].values, &t.advice_polys[1].values);
        Polynomial::new(a.iter().zip(b.iter()).map(|(x, y)| x.pow(3).sub(*y)).collect())
    };
    let mut k = key();
    k.degree = degree;
    assert!(Prover::can_start(&k));
    let mut prover = Prover::new(k);
    for i in 0..4u64 {
        let mut t = raw(500 * (i + 1));
        let cubes = t.advice_lagrange[0].values.iter().map(|x| x.pow(3)).collect();
        t.advice_lagrange[1] = Polynomial::new(cubes);
        prover = step(prover, Event::RawTrace(t));
    }
    let prover = step(prover, Event::Challenge(beta));
    let Stage::Lifted { lifted, .. } = prover.stage() else {
        panic!("the traces are not lifted");
    };
    let nus = lifted.iter().map(cubic).collect();
    let prover = step(prover, Event::Numerators(nus));
    let Stage::Quotient { k_poly, .. } = prover.stage() else {
        panic!("there is no quotient");
    };
    let k_poly = k_poly.values.clone();
    let prover = step(step(prover, Event::Done), Event::Challenge(gamma));
    let Stage::Folded { folded, .. } = prover.stage() else {
        panic!("the traces are not folded");
    };
    let error = cubic(folded);
    let prover = step(prover, Event::Numerator(error));
    let Action::WriteScalar(written) = prover.action() else {
        panic!("no scalar is written");
    };
    (k_poly, written)
}

/// What is written is the value at gamma of the whole quotient, also where the
/// committed polynomial has lost coefficients of it.
#[test]
fn the_written_scalar_is_the_quotient_at_gamma() {
    let (beta, gamma) = (fe(31_337), fe(271_828));
    let (whole, written) = committed_and_written(4, beta, gamma);
    assert_eq!(whole.len(), 12);
    assert_eq!(written, eval_polynomial(&whole, gamma));
    // The quotient has degree five; four coefficients are kept here.
    assert_eq!(whole[6..].to_vec(), vec![fe(0); 6]);
    assert_ne!(whole[5], fe(0));
    let (cut, also_written) = committed_and_written(2, beta, gamma);
    assert_eq!(cut.len(), 4);
    assert_eq!(also_written, written);
    assert_ne!(also_written, eval_polynomial(&cut, gamma));
}

#[test]
fn other_events_change_nothing() {
    let prover = Prover::new(key());
    let prover = step(prover, Event::Done);
    assert!(matches!(prover.action(), Action::ComputeTrace(0)));
    let prover = step(prover, Event::Challenge(fe(3)));
    assert!(matches!(prover.action(), Action::ComputeTrace(0)));
    let prover = step(prover, Event::RawTrace(raw(1)));
    assert!(matches!(prover.action(), Action::ComputeTrace(1)));
}

#[test]
fn traces_of_the_wrong_size_are_refused() {
    let prover = Prover::new(key());
    let mut t = raw(1);
    t.trashcans[0].trash_poly.values.pop();
    assert!(!prover.can_take(&Event::RawTrace(t)));
    let mut t = raw(1);
    t.advice_lagrange[1].values.push(fe(1));
    assert!(!prover.can_take(&Event::RawTrace(t)));
    let mut t = raw(1);
    t.lookups[0].helper_polys[0].values.pop();
    assert!(!prover.can_take(&Event::RawTrace(t)));
    let mut t = raw(1);
    t.permutations.sets[0].permutation_product_poly.values.clear();
    assert!(!prover.can_take(&Event::RawTrace(t)));
    let mut t = raw(1);
    t.instance_values[0].values.clear();
    assert!(!prover.can_take(&Event::RawTrace(t)));
    assert!(prover.can_take(&Event::RawTrace(raw(1))));
}

#[test]
fn challenges_in_a_domain_are_refused() {
    let prover = traced();
    assert!(!prover.can_take(&Event::Challenge(fe(1))));
    assert!(!prover.can_take(&Event::Challenge(omega(LOG_N))));
    assert!(prover.can_take(&Event::Challenge(omega(4))));
    let prover = step(prover, Event::Challenge(fe(5)));
    assert!(!prover.can_take(&Event::Numerators(vec![])));
    let nus: Vec<_> = (0..8).map(|i| Polynomial::new(dense(i, N))).collect();
    let prover = step(prover, Event::Numerators(nus));
    let prover = step(prover, Event::Done);
    assert!(!prover.can_take(&Event::Challenge(omega(2))));
    assert!(prover.can_take(&Event::Challenge(omega(LOG_N))));
    let prover = step(prover, Event::Challenge(fe(6)));
    assert!(!prover.can_take(&Event::Numerator(Polynomial::new(dense(1, N + 1)))));
    let prover = step(prover, Event::Numerator(Polynomial::new(dense(1, N))));
    let prover = step(prover, Event::Done);
    let prover = step(prover, Event::Done);
    assert!(!prover.can_take(&Event::Nu(Polynomial::new(dense(1, N)))));
    assert!(prover.can_take(&Event::Nu(Polynomial::new(dense(1, 2 * N)))));
}

#[test]
fn traces_of_different_shapes_are_refused() {
    let mut prover = Prover::new(key());
    for i in 0..4u64 {
        let mut t = raw(i);
        if i == 2 {
            t.y.pop();
        }
        prover = step(prover, Event::RawTrace(t));
    }
    assert!(!prover.can_take(&Event::Challenge(fe(5))));
}

#[test]
fn a_single_instance_can_be_folded() {
    let prover = ProtogalaxyProver::<Fq, 1>::new(key());
    let (prover, action) = prover.fold(Event::RawTrace(raw(9)));
    assert!(matches!(action, Action::SqueezeChallenge));
    let (prover, _) = prover.fold(Event::Challenge(fe(77)));
    let Stage::Lifted { lifted, traces, .. } = prover.stage() else {
        panic!("the traces are not lifted");
    };
    assert_eq!(lifted.len(), 2);
    assert_eq!(lifted[1].advice_polys[1].values, traces[0].advice_polys[1].values);
    assert_eq!(lifted[1].challenges(), traces[0].challenges());
}

/// Lifting a trace and bringing it back gives the coefficients it came with.
#[test]
fn change_of_basis_round_trip() {
    let k = key();
    let t = lift_trace(&k.domain, raw(40));
    assert_eq!(
        t.trash_polys[0].values[5],
        eval_polynomial(&raw(40).trashcans[0].trash_poly.values, omega(LOG_N).pow(5))
    );
    let back = into_prover_trace(&k.domain, t);
    let r = raw(40);
    assert_eq!(back.instance_values[0].values, r.instance_values[0].values);
    assert_eq!(back.lookups[0].multiplicities.values, r.lookups[0].multiplicities.values);
    assert_eq!(back.lookups[0].helper_polys[0].values, r.lookups[0].helper_polys[0].values);
    assert_eq!(back.lookups[0].aggregator_poly.values, r.lookups[0].aggregator_poly.values);
    assert_eq!(back.trashcans[0].trash_poly.values, r.trashcans[0].trash_poly.values);
    assert_eq!(
        back.permutations.sets[0].permutation_product_poly.values,
        r.permutations.sets[0].permutation_product_poly.values
    );
    for (i, v) in r.advice_lagrange[1].values.iter().enumerate() {
        assert_eq!(*v, eval_polynomial(&back.advice_polys[1].values, omega(LOG_N).pow(i as u64)));
    }
    assert_eq!((back.beta, back.theta, back.y), (r.beta, r.theta, r.y));
}

#[test]
fn numerator_inputs_are_assembled() {
    let prover = traced();
    let ctx = prover.nu_context();
    let Stage::AwaitingBeta { traces } = prover.stage() else {
        panic!("the traces are not there");
    };
    let t = &traces[2];
    let inputs = ctx.numerator(t);
    assert_eq!(inputs.common.advice[0].values, t.advice_polys[0].values);
    assert_eq!(inputs.common.fixed[0].values, dense(104, N));
    assert_eq!(inputs.common.gamma, t.gamma);
    assert_eq!(inputs.lookups[0].helpers[0].values, t.lookups[0].helper_polys[0].values);
    assert_eq!(inputs.trash[0].values, t.trash_polys[0].values);

    let reference = ctx.numerator_reference(t);
    let given = raw(3000);
    assert_eq!(
        reference.lookups[0].aggregator_poly.values,
        given.lookups[0].aggregator_poly.values
    );
    assert_eq!(reference.trashcans[0].trash_poly.values, given.trashcans[0].trash_poly.values);
    assert_eq!(
        reference.permutations.sets[0].permutation_product_poly.values,
        given.permutations.sets[0].permutation_product_poly.values
    );
    assert_eq!(reference.common.theta, inputs.common.theta);
}

#[test]
fn key_polynomials_are_restricted_to_the_domain() {
    let k = key();
    let lagrange = LagrangeKey::new(&k);
    for j in 0..N {
        let point = omega(LOG_N).pow(j as u64);
        assert_eq!(lagrange.l0.values[j], eval_polynomial(&dense(101, N), point));
        assert_eq!(lagrange.l_last.values[j], eval_polynomial(&dense(102, N), point));
        assert_eq!(lagrange.l_active.values[j], eval_polynomial(&dense(103, N), point));
        assert_eq!(lagrange.perm_pk[1].values[j], eval_polynomial(&dense(106, N), point));
    }
}

#[test]
fn inner_products_stop_at_the_shorter_vector() {
    assert_eq!(inner_product(&fes(&[1, 2, 3]), &fes(&[10, 100])), fe(210));
    assert_eq!(inner_product::<Fq>(&[], &fes(&[10])), fe(0));
}

#[test]
fn evaluations_are_compared() {
    assert_eq!(agree(&fes(&[1, 2]), &fes(&[1, 2])), Ok(()));
    assert_eq!(agree(&fes(&[1]), &fes(&[1, 2])), Err(Mismatch::Length));
    assert_eq!(agree(&fes(&[1, 2, 3]), &fes(&[1, 5, 6])), Err(Mismatch::At(1)));
    assert_eq!(agree::<Fq>(&[], &[]), Ok(()));
}

#[test]
fn quotient_and_its_value_at_gamma() {
    let dk = EvaluationDomain::<Fq>::new(2, 1);
    // G = 3 (x^2 - 1) on the coset of size two.
    let g: Vec<Fq> = (0..2)
        .map(|t| Fq::zeta().mul(omega(1).pow(t)).pow(2).sub(fe(1)).mul(fe(3)))
        .collect();
    let k: Polynomial<Fq, Coeff> = k_polynomial(&dk, g);
    assert_eq!(k.values, fes(&[3, 0]));
    // (2 * 5 + 4 * 7) / (3^2 - 1)
    let r = k_at_gamma(&dk, &fes(&[2, 4]), &fes(&[5, 7]), fe(3));
    assert_eq!(r.mul(fe(8)), fe(38));
}

#[test]
fn numerators_are_corrected_on_the_coset() {
    let d = EvaluationDomain::<Fq>::new(2, 1);
    let error: Polynomial<Fq, Coeff> = Polynomial::new(fes(&[4, 9]));
    let r = correct_numerator(&d, Polynomial::new(fes(&[100, 200])), &error);
    for (t, nu) in [100u64, 200].iter().enumerate() {
        let point = Fq::zeta().mul(omega(1).pow(t as u64));
        assert_eq!(r.values[t], fe(*nu).sub(fe(4).add(fe(9).mul(point))));
    }
}

/// Three quarters of the coset's coefficients are kept; a quotient that fits is
/// found exactly.
#[test]
fn quotient_with_coefficients_cut_off() {
    let dk = EvaluationDomain::<Fq>::new(4, 1);
    let expected = fes(&[5, 0, 0, 0, 0, 2]);
    let g: Vec<Fq> = (0..8)
        .map(|t| {
            let x = Fq::zeta().mul(omega(3).pow(t));
            x.pow(2).sub(fe(1)).mul(eval_polynomial(&expected, x))
        })
        .collect();
    assert_eq!(k_polynomial(&dk, g).values, expected);
}
