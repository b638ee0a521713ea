//! Traces as the rest of the prover exchanges them, and their change of basis.
use crate::domain;
use crate::domain::EvaluationDomain;
use crate::field;
use crate::field::PrimeField;
use crate::interpolation;
use crate::poly::{Coeff, LagrangeCoeff, Polynomial};
use crate::roots;
use crate::trace;
use crate::trace::{FoldingLogupTrace, FoldingProverTrace};
use crate::zp;
use vstd::arithmetic::power2::pow2;
use vstd::prelude::*;

verus! {

/// The polynomials of a lookup argument, by coefficients.
#[derive(Debug)]
pub struct LogupCommitted<F> {
    pub multiplicities: Polynomial<F, Coeff>,
    pub helper_polys: Vec<Polynomial<F, Coeff>>,
    pub aggregator_poly: Polynomial<F, Coeff>,
}

/// The polynomial of a trash argument, by coefficients.
#[derive(Debug)]
pub struct TrashCommitted<F> {
    pub trash_poly: Polynomial<F, Coeff>,
}

/// The product polynomial of one permutation set, by coefficients.
#[derive(Debug)]
pub struct PermutationCommittedSet<F> {
    pub permutation_product_poly: Polynomial<F, Coeff>,
}

/// The polynomials of the permutation argument.
#[derive(Debug)]
pub struct PermutationCommitted<F> {
    pub sets: Vec<PermutationCommittedSet<F>>,
}

/// A trace as it comes out of circuit synthesis: columns by values, auxiliary
/// polynomials by coefficients.
#[derive(Debug)]
pub struct RawTrace<F> {
    pub advice_lagrange: Vec<Polynomial<F, LagrangeCoeff>>,
    pub instance_values: Vec<Polynomial<F, LagrangeCoeff>>,
    pub lookups: Vec<LogupCommitted<F>>,
    pub trashcans: Vec<TrashCommitted<F>>,
    pub permutations: PermutationCommitted<F>,
    pub beta: F,
    pub gamma: F,
    pub theta: Vec<F>,
    pub trash_challenge: F,
    pub y: Vec<F>,
}

/// A trace as the openings need it: every polynomial by coefficients.
#[derive(Debug)]
pub struct ProverTrace<F> {
    pub advice_polys: Vec<Polynomial<F, Coeff>>,
    pub instance_polys: Vec<Polynomial<F, Coeff>>,
    pub instance_values: Vec<Polynomial<F, LagrangeCoeff>>,
    pub lookups: Vec<LogupCommitted<F>>,
    pub trashcans: Vec<TrashCommitted<F>>,
    pub permutations: PermutationCommitted<F>,
    pub beta: F,
    pub gamma: F,
    pub theta: Vec<F>,
    pub trash_challenge: F,
    pub y: Vec<F>,
}

/// `v` holds the values on the domain of size `2^k` of the polynomial with
/// coefficients `c`.
pub open spec fn values_of<F: PrimeField>(c: Seq<F>, v: Seq<F>, k: nat) -> bool {
    &&& v.len() == c.len()
    &&& forall|j: int|
        0 <= j < v.len() ==> (#[trigger] v[j]).val() == roots::poly_eval(
            F::modulus(),
            field::vals(c),
            zp::pw(domain::omega::<F>(k), j),
        )
}

/// `c` holds the coefficients of the polynomial with values `v` on the domain
/// of size `2^k`.
pub open spec fn coefficients_of<F: PrimeField>(v: Seq<F>, c: Seq<F>, k: nat) -> bool {
    &&& c.len() == v.len()
    &&& field::vals(c) == roots::interpolate(
        F::modulus(),
        field::vals(v),
        domain::omega::<F>(k),
        k,
    )
}

/// The values of each polynomial on the domain.
pub open spec fn all_values_of<F: PrimeField>(cs: Seq<Seq<F>>, vs: Seq<Seq<F>>, k: nat) -> bool {
    &&& vs.len() == cs.len()
    &&& forall|i: int| 0 <= i < vs.len() ==> values_of(cs[i], #[trigger] vs[i], k)
}

/// The coefficients of each polynomial.
pub open spec fn all_coefficients_of<F: PrimeField>(
    vs: Seq<Seq<F>>,
    cs: Seq<Seq<F>>,
    k: nat,
) -> bool {
    &&& cs.len() == vs.len()
    &&& forall|i: int| 0 <= i < cs.len() ==> coefficients_of(vs[i], #[trigger] cs[i], k)
}

/// Every buffer has length `n`.
pub open spec fn all_of_len<F>(bs: Seq<Seq<F>>, n: nat) -> bool {
    forall|i: int| 0 <= i < bs.len() ==> (#[trigger] bs[i]).len() == n
}

/// The coefficients of each trash polynomial.
pub open spec fn trash_bufs<F>(ts: Seq<TrashCommitted<F>>) -> Seq<Seq<F>> {
    Seq::new(ts.len(), |i: int| ts[i].trash_poly.values@)
}

/// The coefficients of each permutation product polynomial.
pub open spec fn perm_bufs<F>(ps: Seq<PermutationCommittedSet<F>>) -> Seq<Seq<F>> {
    Seq::new(ps.len(), |i: int| ps[i].permutation_product_poly.values@)
}

impl<F: PrimeField> LogupCommitted<F> {
    /// Every polynomial has `n` coefficients.
    pub open spec fn sized(self, n: nat) -> bool {
        &&& self.multiplicities.values@.len() == n
        &&& all_of_len(trace::bufs(self.helper_polys@), n)
        &&& self.aggregator_poly.values@.len() == n
    }

    /// `v` holds the values on the domain of these polynomials.
    pub open spec fn has_values(self, v: FoldingLogupTrace<F>, k: nat) -> bool {
        &&& values_of(self.multiplicities.values@, v.multiplicities.values@, k)
        &&& all_values_of(trace::bufs(self.helper_polys@), trace::bufs(v.helper_polys@), k)
        &&& values_of(self.aggregator_poly.values@, v.aggregator_poly.values@, k)
    }

    /// These are the coefficients of the polynomials with values `v`.
    pub open spec fn has_coefficients(self, v: FoldingLogupTrace<F>, k: nat) -> bool {
        &&& coefficients_of(v.multiplicities.values@, self.multiplicities.values@, k)
        &&& all_coefficients_of(
            trace::bufs(v.helper_polys@),
            trace::bufs(self.helper_polys@),
            k,
        )
        &&& coefficients_of(v.aggregator_poly.values@, self.aggregator_poly.values@, k)
    }
}

impl<F: PrimeField> RawTrace<F> {
    /// Every auxiliary polynomial has `n` coefficients.
    pub open spec fn sized(self, n: nat) -> bool {
        &&& forall|l: int| 0 <= l < self.lookups@.len() ==> (#[trigger] self.lookups@[l]).sized(n)
        &&& all_of_len(trash_bufs(self.trashcans@), n)
        &&& all_of_len(perm_bufs(self.permutations.sets@), n)
    }

    /// `t` is this trace with every auxiliary polynomial by its values on the
    /// domain of size `2^k`.
    pub open spec fn lifts_to(self, t: FoldingProverTrace<F>, k: nat) -> bool {
        &&& t.advice_polys == self.advice_lagrange
        &&& t.instance_polys == self.instance_values
        &&& t.lookups@.len() == self.lookups@.len()
        &&& forall|l: int|
            0 <= l < self.lookups@.len() ==> self.lookups@[l].has_values(
                #[trigger] t.lookups@[l],
                k,
            )
        &&& all_values_of(trash_bufs(self.trashcans@), trace::bufs(t.trash_polys@), k)
        &&& all_values_of(perm_bufs(self.permutations.sets@), trace::bufs(t.perm_polys@), k)
        &&& t.beta == self.beta
        &&& t.gamma == self.gamma
        &&& t.theta == self.theta
        &&& t.trash_challenge == self.trash_challenge
        &&& t.y == self.y
    }
}

impl<F: PrimeField> ProverTrace<F> {
    /// This is the trace `t` with every polynomial by coefficients, the domain
    /// being of size `2^k`.
    pub open spec fn comes_from(self, t: FoldingProverTrace<F>, k: nat) -> bool {
        &&& all_coefficients_of(trace::bufs(t.advice_polys@), trace::bufs(self.advice_polys@), k)
        &&& all_coefficients_of(
            trace::bufs(t.instance_polys@),
            trace::bufs(self.instance_polys@),
            k,
        )
        &&& trace::bufs(self.instance_values@) == trace::bufs(t.instance_polys@)
        &&& self.lookups@.len() == t.lookups@.len()
        &&& forall|l: int|
            0 <= l < t.lookups@.len() ==> (#[trigger] self.lookups@[l]).has_coefficients(
                t.lookups@[l],
                k,
            )
        &&& all_coefficients_of(trace::bufs(t.trash_polys@), trash_bufs(self.trashcans@), k)
        &&& all_coefficients_of(
            trace::bufs(t.perm_polys@),
            perm_bufs(self.permutations.sets@),
            k,
        )
        &&& self.beta == t.beta
        &&& self.gamma == t.gamma
        &&& self.theta == t.theta
        &&& self.trash_challenge == t.trash_challenge
        &&& self.y == t.y
    }
}

/// Every polynomial of the trace has `n` values.
pub open spec fn trace_sized<F>(t: FoldingProverTrace<F>, n: nat) -> bool {
    &&& all_of_len(trace::bufs(t.advice_polys@), n)
    &&& all_of_len(trace::bufs(t.instance_polys@), n)
    &&& forall|l: int|
        0 <= l < t.lookups@.len() ==> {
            &&& (#[trigger] t.lookups@[l]).multiplicities.values@.len() == n
            &&& all_of_len(trace::bufs(t.lookups@[l].helper_polys@), n)
            &&& t.lookups@[l].aggregator_poly.values@.len() == n
        }
    &&& all_of_len(trace::bufs(t.trash_polys@), n)
    &&& all_of_len(trace::bufs(t.perm_polys@), n)
}

/// Whether every polynomial has `n` entries.
pub(crate) fn polys_sized<F, B>(ps: &Vec<Polynomial<F, B>>, n: usize) -> (r: bool)
    ensures
        r == all_of_len(trace::bufs(ps@), n as nat),
{
    let mut i: usize = 0;
    while i < ps.len()
        invariant
            i <= ps@.len(),
            forall|j: int| 0 <= j < i ==> (#[trigger] trace::bufs(ps@)[j]).len() == n,
        decreases ps@.len() - i,
    {
        assert(trace::bufs(ps@)[i as int] == ps@[i as int].values@);
        if ps[i].values.len() != n {
            return false;
        }
        i = i + 1;
    }
    true
}

impl<F: PrimeField> RawTrace<F> {
    /// Whether every polynomial of the trace has `n` entries.
    pub fn has_size(&self, n: usize) -> (r: bool)
        ensures
            r == {
                &&& self.sized(n as nat)
                &&& all_of_len(trace::bufs(self.advice_lagrange@), n as nat)
                &&& all_of_len(trace::bufs(self.instance_values@), n as nat)
            },
    {
        let mut i: usize = 0;
        while i < self.lookups.len()
            invariant
                i <= self.lookups@.len(),
                forall|j: int| 0 <= j < i ==> (#[trigger] self.lookups@[j]).sized(n as nat),
            decreases self.lookups@.len() - i,
        {
            let l: &LogupCommitted<F> = &self.lookups[i];
            if l.multiplicities.values.len() != n || !polys_sized(&l.helper_polys, n)
                || l.aggregator_poly.values.len() != n {
                assert(!self.lookups@[i as int].sized(n as nat));
                return false;
            }
            i = i + 1;
        }
        let mut i: usize = 0;
        while i < self.trashcans.len()
            invariant
                i <= self.trashcans@.len(),
                forall|j: int|
                    0 <= j < i ==> (#[trigger] trash_bufs(self.trashcans@)[j]).len() == n,
            decreases self.trashcans@.len() - i,
        {
            assert(trash_bufs(self.trashcans@)[i as int]
                == self.trashcans@[i as int].trash_poly.values@);
            if self.trashcans[i].trash_poly.values.len() != n {
                return false;
            }
            i = i + 1;
        }
        let mut i: usize = 0;
        while i < self.permutations.sets.len()
            invariant
                i <= self.permutations.sets@.len(),
                forall|j: int|
                    0 <= j < i ==> (#[trigger] perm_bufs(self.permutations.sets@)[j]).len() == n,
            decreases self.permutations.sets@.len() - i,
        {
            assert(perm_bufs(self.permutations.sets@)[i as int]
                == self.permutations.sets@[i as int].permutation_product_poly.values@);
            if self.permutations.sets[i].permutation_product_poly.values.len() != n {
                return false;
            }
            i = i + 1;
        }
        polys_sized(&self.advice_lagrange, n) && polys_sized(&self.instance_values, n)
    }
}

/// The values of a polynomial on the domain.
fn to_lagrange<F: PrimeField>(domain: &EvaluationDomain<F>, q: Polynomial<F, Coeff>) -> (r:
    Polynomial<F, LagrangeCoeff>)
    requires
        domain.wf(),
        q.values@.len() == pow2(domain.log_n()),
    ensures
        values_of(q.values@, r.values@, domain.log_n()),
{
    domain.coeff_to_lagrange(q)
}

/// The coefficients of a polynomial.
pub(crate) fn to_coeff<F: PrimeField>(
    domain: &EvaluationDomain<F>,
    q: Polynomial<F, LagrangeCoeff>,
) -> (r: Polynomial<F, Coeff>)
    requires
        domain.wf(),
        q.values@.len() == pow2(domain.log_n()),
    ensures
        coefficients_of(q.values@, r.values@, domain.log_n()),
{
    domain.lagrange_to_coeff(q)
}

/// The values of each polynomial on the domain.
pub(crate) fn all_to_lagrange<F: PrimeField>(
    domain: &EvaluationDomain<F>,
    qs: Vec<Polynomial<F, Coeff>>,
) -> (r: Vec<Polynomial<F, LagrangeCoeff>>)
    requires
        domain.wf(),
        all_of_len(trace::bufs(qs@), pow2(domain.log_n())),
    ensures
        all_values_of(trace::bufs(qs@), trace::bufs(r@), domain.log_n()),
{
    let ghost k = domain.log_n();
    let ghost qs0 = qs@;
    let mut r: Vec<Polynomial<F, LagrangeCoeff>> = Vec::with_capacity(qs.len());
    for q in it: qs
        invariant
            domain.wf(),
            k == domain.log_n(),
            it.seq() == qs0,
            r@.len() == it.index(),
            all_of_len(trace::bufs(qs0), pow2(k)),
            forall|i: int|
                0 <= i < r@.len() ==> values_of(qs0[i].values@, (#[trigger] r@[i]).values@, k),
    {
        assert(trace::bufs(qs0)[r@.len() as int] == q.values@);
        r.push(to_lagrange(domain, q));
    }
    r
}

/// The coefficients of each polynomial.
pub(crate) fn all_to_coeff<F: PrimeField>(
    domain: &EvaluationDomain<F>,
    qs: &Vec<Polynomial<F, LagrangeCoeff>>,
) -> (r: Vec<Polynomial<F, Coeff>>)
    requires
        domain.wf(),
        all_of_len(trace::bufs(qs@), pow2(domain.log_n())),
    ensures
        all_coefficients_of(trace::bufs(qs@), trace::bufs(r@), domain.log_n()),
{
    let ghost k = domain.log_n();
    let mut r: Vec<Polynomial<F, Coeff>> = Vec::with_capacity(qs.len());
    while r.len() < qs.len()
        invariant
            domain.wf(),
            k == domain.log_n(),
            r@.len() <= qs@.len(),
            all_of_len(trace::bufs(qs@), pow2(k)),
            forall|i: int|
                0 <= i < r@.len() ==> coefficients_of(
                    qs@[i].values@,
                    (#[trigger] r@[i]).values@,
                    k,
                ),
        decreases qs@.len() - r@.len(),
    {
        let i: usize = r.len();
        assert(trace::bufs(qs@)[i as int] == qs@[i as int].values@);
        r.push(to_coeff(domain, qs[i].clone()));
    }
    r
}

/// Brings every auxiliary polynomial of a trace into values on the domain.
pub fn lift_trace<F: PrimeField>(domain: &EvaluationDomain<F>, raw: RawTrace<F>) -> (t:
    FoldingProverTrace<F>)
    requires
        domain.wf(),
        raw.sized(pow2(domain.log_n())),
    ensures
        raw.lifts_to(t, domain.log_n()),
{
    let ghost k = domain.log_n();
    let ghost raw0 = raw;
    let mut lookups: Vec<FoldingLogupTrace<F>> = Vec::with_capacity(raw.lookups.len());
    for l in it: raw.lookups
        invariant
            domain.wf(),
            k == domain.log_n(),
            it.seq() == raw0.lookups@,
            raw0.sized(pow2(k)),
            lookups@.len() == it.index(),
            forall|i: int|
                0 <= i < lookups@.len() ==> raw0.lookups@[i].has_values(#[trigger] lookups@[i], k),
    {
        assert(raw0.lookups@[lookups@.len() as int].sized(pow2(k)));
        lookups.push(
            FoldingLogupTrace {
                multiplicities: to_lagrange(domain, l.multiplicities),
                helper_polys: all_to_lagrange(domain, l.helper_polys),
                aggregator_poly: to_lagrange(domain, l.aggregator_poly),
            },
        );
    }
    let mut trash_polys: Vec<Polynomial<F, LagrangeCoeff>> = Vec::with_capacity(
        raw.trashcans.len(),
    );
    for t in it: raw.trashcans
        invariant
            domain.wf(),
            k == domain.log_n(),
            it.seq() == raw0.trashcans@,
            raw0.sized(pow2(k)),
            trash_polys@.len() == it.index(),
            forall|i: int|
                0 <= i < trash_polys@.len() ==> values_of(
                    raw0.trashcans@[i].trash_poly.values@,
                    (#[trigger] trash_polys@[i]).values@,
                    k,
                ),
    {
        assert(trash_bufs(raw0.trashcans@)[trash_polys@.len() as int] == t.trash_poly.values@);
        trash_polys.push(to_lagrange(domain, t.trash_poly));
    }
    let mut perm_polys: Vec<Polynomial<F, LagrangeCoeff>> = Vec::with_capacity(
        raw.permutations.sets.len(),
    );
    for s in it: raw.permutations.sets
        invariant
            domain.wf(),
            k == domain.log_n(),
            it.seq() == raw0.permutations.sets@,
            raw0.sized(pow2(k)),
            perm_polys@.len() == it.index(),
            forall|i: int|
                0 <= i < perm_polys@.len() ==> values_of(
                    raw0.permutations.sets@[i].permutation_product_poly.values@,
                    (#[trigger] perm_polys@[i]).values@,
                    k,
                ),
    {
        assert(perm_bufs(raw0.permutations.sets@)[perm_polys@.len() as int]
            == s.permutation_product_poly.values@);
        perm_polys.push(to_lagrange(domain, s.permutation_product_poly));
    }
    FoldingProverTrace {
        advice_polys: raw.advice_lagrange,
        instance_polys: raw.instance_values,
        lookups,
        trash_polys,
        perm_polys,
        beta: raw.beta,
        gamma: raw.gamma,
        theta: raw.theta,
        trash_challenge: raw.trash_challenge,
        y: raw.y,
    }
}

/// The lookups of a trace by coefficients.
pub(crate) fn lookups_to_coeff<F: PrimeField>(
    domain: &EvaluationDomain<F>,
    ls: &Vec<FoldingLogupTrace<F>>,
    Ghost(t): Ghost<FoldingProverTrace<F>>,
) -> (r: Vec<LogupCommitted<F>>)
    requires
        domain.wf(),
        *ls == t.lookups,
        trace_sized(t, pow2(domain.log_n())),
    ensures
        r@.len() == ls@.len(),
        forall|l: int|
            0 <= l < ls@.len() ==> (#[trigger] r@[l]).has_coefficients(ls@[l], domain.log_n()),
{
    let ghost k = domain.log_n();
    let mut r: Vec<LogupCommitted<F>> = Vec::with_capacity(ls.len());
    while r.len() < ls.len()
        invariant
            domain.wf(),
            k == domain.log_n(),
            *ls == t.lookups,
            trace_sized(t, pow2(k)),
            r@.len() <= ls@.len(),
            forall|l: int|
                0 <= l < r@.len() ==> (#[trigger] r@[l]).has_coefficients(ls@[l], k),
        decreases ls@.len() - r@.len(),
    {
        let i: usize = r.len();
        assert(t.lookups@[i as int].multiplicities.values@.len() == pow2(k));
        r.push(
            LogupCommitted {
                multiplicities: to_coeff(domain, ls[i].multiplicities.clone()),
                helper_polys: all_to_coeff(domain, &ls[i].helper_polys),
                aggregator_poly: to_coeff(domain, ls[i].aggregator_poly.clone()),
            },
        );
    }
    r
}

/// The trash polynomials of a trace by coefficients.
pub(crate) fn trash_to_coeff<F: PrimeField>(
    domain: &EvaluationDomain<F>,
    qs: &Vec<Polynomial<F, LagrangeCoeff>>,
) -> (r: Vec<TrashCommitted<F>>)
    requires
        domain.wf(),
        all_of_len(trace::bufs(qs@), pow2(domain.log_n())),
    ensures
        all_coefficients_of(trace::bufs(qs@), trash_bufs(r@), domain.log_n()),
{
    let ghost k = domain.log_n();
    let mut r: Vec<TrashCommitted<F>> = Vec::with_capacity(qs.len());
    while r.len() < qs.len()
        invariant
            domain.wf(),
            k == domain.log_n(),
            r@.len() <= qs@.len(),
            all_of_len(trace::bufs(qs@), pow2(k)),
            forall|i: int|
                0 <= i < r@.len() ==> coefficients_of(
                    qs@[i].values@,
                    (#[trigger] r@[i]).trash_poly.values@,
                    k,
                ),
        decreases qs@.len() - r@.len(),
    {
        let i: usize = r.len();
        assert(trace::bufs(qs@)[i as int] == qs@[i as int].values@);
        r.push(TrashCommitted { trash_poly: to_coeff(domain, qs[i].clone()) });
    }
    r
}

/// The permutation product polynomials of a trace by coefficients.
pub(crate) fn perm_to_coeff<F: PrimeField>(
    domain: &EvaluationDomain<F>,
    qs: &Vec<Polynomial<F, LagrangeCoeff>>,
) -> (r: PermutationCommitted<F>)
    requires
        domain.wf(),
        all_of_len(trace::bufs(qs@), pow2(domain.log_n())),
    ensures
        all_coefficients_of(trace::bufs(qs@), perm_bufs(r.sets@), domain.log_n()),
{
    let ghost k = domain.log_n();
    let mut sets: Vec<PermutationCommittedSet<F>> = Vec::with_capacity(qs.len());
    while sets.len() < qs.len()
        invariant
            domain.wf(),
            k == domain.log_n(),
            sets@.len() <= qs@.len(),
            all_of_len(trace::bufs(qs@), pow2(k)),
            forall|i: int|
                0 <= i < sets@.len() ==> coefficients_of(
                    qs@[i].values@,
                    (#[trigger] sets@[i]).permutation_product_poly.values@,
                    k,
                ),
        decreases qs@.len() - sets@.len(),
    {
        let i: usize = sets.len();
        assert(trace::bufs(qs@)[i as int] == qs@[i as int].values@);
        sets.push(
            PermutationCommittedSet { permutation_product_poly: to_coeff(domain, qs[i].clone()) },
        );
    }
    PermutationCommitted { sets }
}

/// Converts a folded trace to the form that the openings need.
pub fn into_prover_trace<F: PrimeField>(
    domain: &EvaluationDomain<F>,
    folded: FoldingProverTrace<F>,
) -> (r: ProverTrace<F>)
    requires
        domain.wf(),
        trace_sized(folded, pow2(domain.log_n())),
    ensures
        r.comes_from(folded, domain.log_n()),
{
    let advice_polys = all_to_coeff(domain, &folded.advice_polys);
    let instance_polys = all_to_coeff(domain, &folded.instance_polys);
    let lookups = lookups_to_coeff(domain, &folded.lookups, Ghost(folded));
    let trashcans = trash_to_coeff(domain, &folded.trash_polys);
    let permutations = perm_to_coeff(domain, &folded.perm_polys);
    ProverTrace {
        advice_polys,
        instance_polys,
        instance_values: folded.instance_polys,
        lookups,
        trashcans,
        permutations,
        beta: folded.beta,
        gamma: folded.gamma,
        theta: folded.theta,
        trash_challenge: folded.trash_challenge,
        y: folded.y,
    }
}

/// Taking values on the domain and interpolating them gives the coefficients
/// back.
pub proof fn lemma_basis_roundtrip<F: PrimeField>(c: Seq<F>, v: Seq<F>, d: Seq<F>, k: nat)
    requires
        k <= F::two_adicity(),
        c.len() == pow2(k),
        values_of(c, v, k),
        coefficients_of(v, d, k),
    ensures
        field::vals(d) == field::vals(c),
{
    let p = F::modulus();
    let w = domain::omega::<F>(k);
    F::lemma_modulus();
    domain::lemma_omega::<F>(k);
    interpolation::lemma_interpolate_unique(p, field::vals(c), w, k);
    let a = Seq::new(
        field::vals(c).len(),
        |j: int| roots::poly_eval(p, field::vals(c), zp::pw(w, j)),
    );
    assert(field::vals(v) =~= a);
    assert forall|i: int| 0 <= i < c.len() implies field::vals(d)[i] == field::vals(c)[i] by {
        c[i].lemma_val();
        zp::lemma_small(p, c[i].val());
    }
    assert(field::vals(d) =~= field::vals(c));
}

/// Interpolating values on the domain and evaluating the polynomial there gives
/// the values back.
pub proof fn lemma_values_roundtrip<F: PrimeField>(v: Seq<F>, c: Seq<F>, u: Seq<F>, k: nat)
    requires
        k <= F::two_adicity(),
        v.len() == pow2(k),
        coefficients_of(v, c, k),
        values_of(c, u, k),
    ensures
        field::vals(u) == field::vals(v),
{
    let p = F::modulus();
    let w = domain::omega::<F>(k);
    F::lemma_modulus();
    domain::lemma_omega::<F>(k);
    assert forall|j: int| 0 <= j < v.len() implies field::vals(u)[j] == field::vals(v)[j] by {
        interpolation::lemma_interpolates(p, field::vals(v), w, k, j);
        v[j].lemma_val();
        zp::lemma_small(p, v[j].val());
        assert(u[j].val() == roots::poly_eval(p, field::vals(c), zp::pw(w, j)));
    }
    assert(field::vals(u) =~= field::vals(v));
}

/// A trace whose polynomials all have `n` values keeps its shape when it is
/// zeroed, and every trace of that shape has `n` values per polynomial.
pub proof fn lemma_sized_dims<F>(a: FoldingProverTrace<F>, b: FoldingProverTrace<F>, n: nat)
    requires
        trace_sized(a, n),
        b.dims() == a.dims().with_len(a.dims().first_len()),
    ensures
        trace_sized(b, n),
        b.dims() == a.dims(),
        forall|i: int| 0 <= i < a.flat().len() ==> (#[trigger] a.flat()[i]).len() == n,
        a.flat().len() > 0 ==> a.dims().first_len() == n,
{
    lemma_sized_flat(a, n);
    trace::lemma_flat_lens(a);
    assert(trace::lens_of(a.flat()).len() == a.flat().len());
    if a.flat().len() > 0 {
        assert(trace::lens_of(a.flat())[0] == a.flat()[0].len());
        trace::lemma_uniform_dims(a, n);
    } else {
        trace::lemma_uniform_dims(a, 0);
    }
    lemma_sized_by_dims(a, b, n);
}

/// The buffers of a sized trace, in canonical order.
proof fn lemma_sized_flat<F>(a: FoldingProverTrace<F>, n: nat)
    requires
        trace_sized(a, n),
    ensures
        forall|i: int| 0 <= i < a.flat().len() ==> (#[trigger] a.flat()[i]).len() == n,
{
    lemma_sized_lookups(a, a.lookups@.len(), n);
    let (x, y, z, u, v) = (
        trace::bufs(a.advice_polys@),
        trace::bufs(a.instance_polys@),
        trace::lookup_bufs(a.lookups@, a.lookups@.len()),
        trace::bufs(a.trash_polys@),
        trace::bufs(a.perm_polys@),
    );
    assert forall|i: int| 0 <= i < a.flat().len() implies (#[trigger] a.flat()[i]).len() == n by {
        let (b1, b2, b3, b4) = (
            x.len() as int,
            x.len() + y.len() as int,
            x.len() + y.len() + z.len() as int,
            x.len() + y.len() + z.len() + u.len() as int,
        );
        if i < b1 {
            assert(a.flat()[i] == x[i]);
        } else if i < b2 {
            assert(a.flat()[i] == y[i - b1]);
        } else if i < b3 {
            assert(a.flat()[i] == z[i - b2]);
        } else if i < b4 {
            assert(a.flat()[i] == u[i - b3]);
        } else {
            assert(a.flat()[i] == v[i - b4]);
        }
    }
}

proof fn lemma_sized_lookups<F>(a: FoldingProverTrace<F>, m: nat, n: nat)
    requires
        trace_sized(a, n),
        m <= a.lookups@.len(),
    ensures
        all_of_len(trace::lookup_bufs(a.lookups@, m), n),
    decreases m,
{
    if m > 0 {
        lemma_sized_lookups(a, (m - 1) as nat, n);
        let l = a.lookups@[m - 1];
        let head = trace::lookup_bufs(a.lookups@, (m - 1) as nat);
        let all = trace::lookup_bufs(a.lookups@, m);
        let h = trace::bufs(l.helper_polys@);
        assert forall|i: int| 0 <= i < all.len() implies (#[trigger] all[i]).len() == n by {
            if i < head.len() {
                assert(all[i] == head[i]);
            } else {
                let j = i - head.len();
                assert(all[i] == l.bufs()[j]);
                if 1 <= j < 1 + h.len() {
                    assert(l.bufs()[j] == h[j - 1]);
                }
            }
        }
    }
}

/// Buffers of the same lengths.
proof fn lemma_same_lens<F>(a: Seq<Seq<F>>, b: Seq<Seq<F>>, n: nat)
    requires
        all_of_len(a, n),
        trace::lens_of(b) == trace::lens_of(a),
    ensures
        all_of_len(b, n),
{
    assert(trace::lens_of(a).len() == a.len() && trace::lens_of(b).len() == b.len());
    assert forall|i: int| 0 <= i < b.len() implies (#[trigger] b[i]).len() == n by {
        assert(trace::lens_of(b)[i] == b[i].len());
        assert(trace::lens_of(a)[i] == a[i].len());
    }
}

/// Whether a trace is sized only depends on its shape.
proof fn lemma_sized_by_dims<F>(a: FoldingProverTrace<F>, b: FoldingProverTrace<F>, n: nat)
    requires
        trace_sized(a, n),
        b.dims() == a.dims(),
    ensures
        trace_sized(b, n),
{
    let (d, e) = (a.dims(), b.dims());
    assert(d.advice == e.advice && d.instance == e.instance && d.trash == e.trash && d.perm
        == e.perm && d.lookups == e.lookups);
    lemma_same_lens(trace::bufs(a.advice_polys@), trace::bufs(b.advice_polys@), n);
    lemma_same_lens(trace::bufs(a.instance_polys@), trace::bufs(b.instance_polys@), n);
    lemma_same_lens(trace::bufs(a.trash_polys@), trace::bufs(b.trash_polys@), n);
    lemma_same_lens(trace::bufs(a.perm_polys@), trace::bufs(b.perm_polys@), n);
    assert(a.lookups@.len() == d.lookups.len() && b.lookups@.len() == e.lookups.len());
    assert forall|l: int| 0 <= l < b.lookups@.len() implies {
        &&& (#[trigger] b.lookups@[l]).multiplicities.values@.len() == n
        &&& all_of_len(trace::bufs(b.lookups@[l].helper_polys@), n)
        &&& b.lookups@[l].aggregator_poly.values@.len() == n
    } by {
        assert(d.lookups[l] == a.lookups@[l].logup_shape());
        assert(e.lookups[l] == b.lookups@[l].logup_shape());
        lemma_same_lens(
            trace::bufs(a.lookups@[l].helper_polys@),
            trace::bufs(b.lookups@[l].helper_polys@),
            n,
        );
    }
}

} // verus!
