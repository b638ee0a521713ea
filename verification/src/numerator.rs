//! What the evaluation of a trace's constraint numerator reads.
use crate::domain;
use crate::domain::EvaluationDomain;
use crate::field;
use crate::field::PrimeField;
use crate::plonk;
use crate::plonk::{
    all_to_lagrange, lookups_to_coeff, perm_to_coeff, trash_to_coeff, LogupCommitted,
    PermutationCommitted, TrashCommitted,
};
use crate::poly::{Coeff, ExtendedLagrangeCoeff, LagrangeCoeff, Polynomial};
use crate::roots;
use crate::trace;
use crate::trace::FoldingProverTrace;
use crate::zp;
use vstd::arithmetic::power2::pow2;
use vstd::prelude::*;

verus! {

/// The parts of a proving key that folding reads.
#[derive(Debug)]
pub struct FoldingKey<F> {
    /// The domain of the circuit's rows.
    pub domain: EvaluationDomain<F>,
    /// The degree of the constraint system.
    pub degree: u32,
    pub fixed_values: Vec<Polynomial<F, LagrangeCoeff>>,
    pub l0: Polynomial<F, ExtendedLagrangeCoeff>,
    pub l_last: Polynomial<F, ExtendedLagrangeCoeff>,
    pub l_active_row: Polynomial<F, ExtendedLagrangeCoeff>,
    pub permutation_polys: Vec<Polynomial<F, Coeff>>,
}

impl<F: PrimeField> FoldingKey<F> {
    /// The polynomials have the sizes of the domain and its coset.
    pub open spec fn wf(self) -> bool {
        &&& self.domain.wf()
        &&& self.l0.values@.len() == pow2(self.domain.log_ext())
        &&& self.l_last.values@.len() == pow2(self.domain.log_ext())
        &&& self.l_active_row.values@.len() == pow2(self.domain.log_ext())
        &&& plonk::all_of_len(
            trace::bufs(self.permutation_polys@),
            pow2(self.domain.log_n()),
        )
    }
}

/// Proving-key polynomials by their values on the domain.
#[derive(Debug)]
pub struct LagrangeKey<F> {
    pub l0: Polynomial<F, LagrangeCoeff>,
    pub l_last: Polynomial<F, LagrangeCoeff>,
    pub l_active: Polynomial<F, LagrangeCoeff>,
    pub perm_pk: Vec<Polynomial<F, LagrangeCoeff>>,
}

/// `v` holds the values on the domain of size `2^k` of the polynomial with
/// values `ext` on the coset of size `2^e`.
pub open spec fn restricted<F: PrimeField>(ext: Seq<F>, v: Seq<F>, k: nat, e: nat) -> bool {
    &&& v.len() == pow2(k)
    &&& forall|j: int|
        0 <= j < v.len() ==> (#[trigger] v[j]).val() == roots::poly_eval(
            F::modulus(),
            domain::coset_interpolate::<F>(field::vals(ext), e),
            zp::pw(domain::omega::<F>(k), j),
        )
}

impl<F: PrimeField> LagrangeKey<F> {
    /// These are the polynomials of `key`.
    pub open spec fn matches_key(self, key: FoldingKey<F>) -> bool {
        let (k, e) = (key.domain.log_n(), key.domain.log_ext());
        &&& restricted(key.l0.values@, self.l0.values@, k, e)
        &&& restricted(key.l_last.values@, self.l_last.values@, k, e)
        &&& restricted(key.l_active_row.values@, self.l_active.values@, k, e)
        &&& plonk::all_values_of(
            trace::bufs(key.permutation_polys@),
            trace::bufs(self.perm_pk@),
            k,
        )
    }

    /// Precomputes the values on the domain.
    pub fn new(key: &FoldingKey<F>) -> (r: Self)
        requires
            key.wf(),
        ensures
            r.matches_key(*key),
    {
        let mut perm: Vec<Polynomial<F, Coeff>> = Vec::with_capacity(key.permutation_polys.len());
        while perm.len() < key.permutation_polys.len()
            invariant
                perm@.len() <= key.permutation_polys@.len(),
                forall|i: int|
                    0 <= i < perm@.len() ==> (#[trigger] perm@[i]).values@
                        == key.permutation_polys@[i].values@,
            decreases key.permutation_polys@.len() - perm@.len(),
        {
            let i: usize = perm.len();
            perm.push(key.permutation_polys[i].clone());
        }
        proof {
            assert(trace::bufs(perm@) =~= trace::bufs(key.permutation_polys@));
        }
        LagrangeKey {
            l0: key.domain.extended_to_lagrange(key.l0.clone()),
            l_last: key.domain.extended_to_lagrange(key.l_last.clone()),
            l_active: key.domain.extended_to_lagrange(key.l_active_row.clone()),
            perm_pk: all_to_lagrange(&key.domain, perm),
        }
    }
}

/// The auxiliary polynomials of a lookup, by values.
#[derive(Debug)]
pub struct LookupAux<'a, F> {
    pub helpers: &'a Vec<Polynomial<F, LagrangeCoeff>>,
    pub aggregator: &'a Polynomial<F, LagrangeCoeff>,
    pub multiplicities: &'a Polynomial<F, LagrangeCoeff>,
}

/// What both ways of evaluating a numerator read: the columns and challenges of
/// the trace, and the key.
#[derive(Debug)]
pub struct NumeratorCommon<'a, F> {
    pub domain: &'a EvaluationDomain<F>,
    pub advice: &'a Vec<Polynomial<F, LagrangeCoeff>>,
    pub instance: &'a Vec<Polynomial<F, LagrangeCoeff>>,
    pub fixed: &'a Vec<Polynomial<F, LagrangeCoeff>>,
    pub y: &'a Vec<F>,
    pub beta: F,
    pub gamma: F,
    pub theta: &'a Vec<F>,
    pub trash_challenge: F,
    pub l0: &'a Polynomial<F, LagrangeCoeff>,
    pub l_last: &'a Polynomial<F, LagrangeCoeff>,
    pub l_active: &'a Polynomial<F, LagrangeCoeff>,
    pub perm_pk: &'a Vec<Polynomial<F, LagrangeCoeff>>,
}

/// The inputs of a numerator whose auxiliary polynomials are already by values.
#[derive(Debug)]
pub struct NumeratorInputs<'a, F> {
    pub common: NumeratorCommon<'a, F>,
    pub lookups: Vec<LookupAux<'a, F>>,
    pub trash: &'a Vec<Polynomial<F, LagrangeCoeff>>,
    pub permutations: &'a Vec<Polynomial<F, LagrangeCoeff>>,
}

/// The inputs of a numerator whose auxiliary polynomials are by coefficients.
#[derive(Debug)]
pub struct ReferenceInputs<'a, F> {
    pub common: NumeratorCommon<'a, F>,
    pub lookups: Vec<LogupCommitted<F>>,
    pub trashcans: Vec<TrashCommitted<F>>,
    pub permutations: PermutationCommitted<F>,
}

/// Everything that the evaluation of a numerator needs besides the trace itself.
#[derive(Debug)]
pub struct NuContext<'a, F> {
    pub key: &'a FoldingKey<F>,
    pub lagrange: &'a LagrangeKey<F>,
}

impl<'a, F: PrimeField> NumeratorCommon<'a, F> {
    /// The parts come from the context and the trace that they are named after.
    pub open spec fn assembled(self, ctx: NuContext<'a, F>, t: FoldingProverTrace<F>) -> bool {
        &&& *self.domain == ctx.key.domain
        &&& *self.advice == t.advice_polys
        &&& *self.instance == t.instance_polys
        &&& *self.fixed == ctx.key.fixed_values
        &&& *self.y == t.y
        &&& self.beta == t.beta
        &&& self.gamma == t.gamma
        &&& *self.theta == t.theta
        &&& self.trash_challenge == t.trash_challenge
        &&& *self.l0 == ctx.lagrange.l0
        &&& *self.l_last == ctx.lagrange.l_last
        &&& *self.l_active == ctx.lagrange.l_active
        &&& *self.perm_pk == ctx.lagrange.perm_pk
    }
}

impl<'a, F: PrimeField> NumeratorInputs<'a, F> {
    /// The inputs are the context and the trace, part by part.
    pub open spec fn made_from(self, ctx: NuContext<'a, F>, t: FoldingProverTrace<F>) -> bool {
        &&& self.common.assembled(ctx, t)
        &&& self.lookups@.len() == t.lookups@.len()
        &&& forall|l: int|
            0 <= l < self.lookups@.len() ==> {
                &&& *(#[trigger] self.lookups@[l]).helpers == t.lookups@[l].helper_polys
                &&& *self.lookups@[l].aggregator == t.lookups@[l].aggregator_poly
                &&& *self.lookups@[l].multiplicities == t.lookups@[l].multiplicities
            }
        &&& *self.trash == t.trash_polys
        &&& *self.permutations == t.perm_polys
    }
}

impl<'a, F: PrimeField> ReferenceInputs<'a, F> {
    /// The inputs are the context and the trace, part by part, with the auxiliary
    /// polynomials by coefficients.
    pub open spec fn made_from(self, ctx: NuContext<'a, F>, t: FoldingProverTrace<F>) -> bool {
        let k = ctx.key.domain.log_n();
        &&& self.common.assembled(ctx, t)
        &&& self.lookups@.len() == t.lookups@.len()
        &&& forall|l: int|
            0 <= l < self.lookups@.len() ==> (#[trigger] self.lookups@[l]).has_coefficients(
                t.lookups@[l],
                k,
            )
        &&& plonk::all_coefficients_of(
            trace::bufs(t.trash_polys@),
            plonk::trash_bufs(self.trashcans@),
            k,
        )
        &&& plonk::all_coefficients_of(
            trace::bufs(t.perm_polys@),
            plonk::perm_bufs(self.permutations.sets@),
            k,
        )
    }
}

impl<'a, F: PrimeField> NuContext<'a, F> {
    /// The columns and challenges of the trace, and the key.
    fn common(&self, trace: &'a FoldingProverTrace<F>) -> (r: NumeratorCommon<'a, F>)
        ensures
            r.assembled(*self, *trace),
    {
        NumeratorCommon {
            domain: &self.key.domain,
            advice: &trace.advice_polys,
            instance: &trace.instance_polys,
            fixed: &self.key.fixed_values,
            y: &trace.y,
            beta: trace.beta,
            gamma: trace.gamma,
            theta: &trace.theta,
            trash_challenge: trace.trash_challenge,
            l0: &self.lagrange.l0,
            l_last: &self.lagrange.l_last,
            l_active: &self.lagrange.l_active,
            perm_pk: &self.lagrange.perm_pk,
        }
    }

    /// The trace is already by values, so its numerator is evaluated with no
    /// change of basis at all.
    pub fn numerator(&self, trace: &'a FoldingProverTrace<F>) -> (r: NumeratorInputs<'a, F>)
        ensures
            r.made_from(*self, *trace),
    {
        let mut lookups: Vec<LookupAux<'a, F>> = Vec::with_capacity(trace.lookups.len());
        while lookups.len() < trace.lookups.len()
            invariant
                lookups@.len() <= trace.lookups@.len(),
                forall|l: int|
                    0 <= l < lookups@.len() ==> {
                        &&& *(#[trigger] lookups@[l]).helpers == trace.lookups@[l].helper_polys
                        &&& *lookups@[l].aggregator == trace.lookups@[l].aggregator_poly
                        &&& *lookups@[l].multiplicities == trace.lookups@[l].multiplicities
                    },
            decreases trace.lookups@.len() - lookups@.len(),
        {
            let l: usize = lookups.len();
            lookups.push(
                LookupAux {
                    helpers: &trace.lookups[l].helper_polys,
                    aggregator: &trace.lookups[l].aggregator_poly,
                    multiplicities: &trace.lookups[l].multiplicities,
                },
            );
        }
        NumeratorInputs {
            common: self.common(trace),
            lookups,
            trash: &trace.trash_polys,
            permutations: &trace.perm_polys,
        }
    }

    /// The same numerator with the auxiliary polynomials brought back to
    /// coefficients, one transform per polynomial; only used to check
    /// [`Self::numerator`].
    pub fn numerator_reference(&self, trace: &'a FoldingProverTrace<F>) -> (r: ReferenceInputs<
        'a,
        F,
    >)
        requires
            self.key.domain.wf(),
            plonk::trace_sized(*trace, pow2(self.key.domain.log_n())),
        ensures
            r.made_from(*self, *trace),
    {
        let domain: &EvaluationDomain<F> = &self.key.domain;
        ReferenceInputs {
            common: self.common(trace),
            lookups: lookups_to_coeff(domain, &trace.lookups, Ghost(*trace)),
            trashcans: trash_to_coeff(domain, &trace.trash_polys),
            permutations: perm_to_coeff(domain, &trace.perm_polys),
        }
    }
}

/// The sum of the products of entries at equal places, as far as both reach.
pub open spec fn dot(p: int, a: Seq<int>, b: Seq<int>) -> int {
    zp::sum(vstd::math::min(a.len() as int, b.len() as int), |i: int| a[i] * b[i]) % p
}

/// The inner product of two vectors, as far as both reach.
pub fn inner_product<F: PrimeField>(a: &[F], b: &[F]) -> (r: F)
    ensures
        r.val() == dot(F::modulus(), field::vals(a@), field::vals(b@)),
{
    let ghost p = F::modulus();
    let ghost f = |i: int| field::vals(a@)[i] * field::vals(b@)[i];
    proof {
        F::lemma_modulus();
        zp::lemma_small(p, 0);
    }
    let mut acc: F = F::zero();
    let mut i: usize = 0;
    while i < a.len() && i < b.len()
        invariant
            i <= a@.len(),
            i <= b@.len(),
            p == F::modulus(),
            p > 2,
            f == (|i: int| field::vals(a@)[i] * field::vals(b@)[i]),
            zp::eqm(p, acc.val(), zp::sum(i as int, f)),
        decreases a@.len() - i,
    {
        let term: F = a[i].mul(b[i]);
        proof {
            let t = a@[i as int].val() * b@[i as int].val();
            zp::lemma_reduce(p, t);
            zp::lemma_eqm_add(p, acc.val(), zp::sum(i as int, f), term.val(), t);
            zp::lemma_reduce(p, acc.val() + term.val());
        }
        acc = acc.add(term);
        i = i + 1;
    }
    proof {
        acc.lemma_val();
        zp::lemma_small(p, acc.val());
    }
    acc
}

/// How two evaluations that should agree differ.
#[derive(Debug, PartialEq, Eq)]
pub enum Mismatch {
    Length,
    At(usize),
}

/// Compares the fast evaluation with the reference one: the lengths first, then
/// entry by entry.
pub fn agree<F: PrimeField>(fast: &[F], reference: &[F]) -> (r: Result<(), Mismatch>)
    ensures
        r is Ok <==> field::vals(fast@) == field::vals(reference@),
        r == Err::<(), Mismatch>(Mismatch::Length) <==> fast@.len() != reference@.len(),
        r matches Err(Mismatch::At(t)) ==> {
            &&& t < fast@.len()
            &&& fast@[t as int].val() != reference@[t as int].val()
            &&& forall|i: int| 0 <= i < t ==> (#[trigger] fast@[i]).val() == reference@[i].val()
        },
{
    if fast.len() != reference.len() {
        assert(field::vals(fast@).len() != field::vals(reference@).len());
        return Err(Mismatch::Length);
    }
    let mut i: usize = 0;
    while i < fast.len()
        invariant
            i <= fast@.len(),
            fast@.len() == reference@.len(),
            forall|j: int| 0 <= j < i ==> (#[trigger] fast@[j]).val() == reference@[j].val(),
        decreases fast@.len() - i,
    {
        if !fast[i].equals(reference[i]) {
            assert(field::vals(fast@)[i as int] != field::vals(reference@)[i as int]);
            return Err(Mismatch::At(i));
        }
        i = i + 1;
    }
    assert(field::vals(fast@) =~= field::vals(reference@));
    Ok(())
}

} // verus!
