//! The folding prover: what it computes and in which order it talks to the rest
//! of the proof system.
//!
//! The prover is a state machine. Circuit synthesis, constraint evaluation, the
//! commitment scheme and the transcript are outside; the machine says what to do
//! next and takes the answer as an event.
use crate::batch;
use crate::batch::{batch_traces_fft, fold_traces, traces_compatible};
use crate::combine::eval_lagrange_on_beta;
use crate::domain;
use crate::domain::{addressable, log2_ceil, EvaluationDomain};
use crate::field;
use crate::field::PrimeField;
use crate::interpolation;
use crate::numerator;
use crate::numerator::{inner_product, FoldingKey, LagrangeKey, NuContext};
use crate::plonk;
use crate::plonk::{into_prover_trace, lift_trace, polys_sized, ProverTrace, RawTrace};
use crate::poly::{eval_polynomial, Coeff, ExtendedLagrangeCoeff, LagrangeCoeff, Polynomial};
use crate::roots;
use crate::trace;
use crate::trace::FoldingProverTrace;
use crate::zp;
use vstd::arithmetic::power2::*;
use vstd::prelude::*;

verus! {

// ---------------------------------------------------------------------------
// The computations
// ---------------------------------------------------------------------------

/// `G(x_t)` for each point of the coset: the inner product of the numerator at
/// that point with the Lagrange basis at beta.
pub fn evaluate_g<F: PrimeField>(
    numerators: &Vec<Polynomial<F, LagrangeCoeff>>,
    beta_coeffs: &Vec<F>,
) -> (g: Vec<F>)
    ensures
        is_g(numerators@, beta_coeffs@, field::vals(g@)),
{
    let ghost p = F::modulus();
    let mut g: Vec<F> = Vec::with_capacity(numerators.len());
    while g.len() < numerators.len()
        invariant
            p == F::modulus(),
            g@.len() <= numerators@.len(),
            forall|t: int|
                0 <= t < g@.len() ==> (#[trigger] g@[t]).val() == numerator::dot(
                    p,
                    numerators@[t].vals(),
                    field::vals(beta_coeffs@),
                ),
        decreases numerators@.len() - g@.len(),
    {
        let t: usize = g.len();
        g.push(inner_product(numerators[t].values.as_slice(), beta_coeffs.as_slice()));
    }
    g
}

/// `g` holds the inner product of each numerator with the Lagrange basis at beta.
pub open spec fn is_g<F: PrimeField>(
    numerators: Seq<Polynomial<F, LagrangeCoeff>>,
    beta_coeffs: Seq<F>,
    g: Seq<int>,
) -> bool {
    &&& g.len() == numerators.len()
    &&& forall|t: int|
        0 <= t < g.len() ==> #[trigger] g[t] == numerator::dot(
            F::modulus(),
            numerators[t].vals(),
            field::vals(beta_coeffs),
        )
}

/// `q` holds the values on the coset of size `2^e` of `g` divided by the
/// vanishing polynomial of the domain of size `2^k`.
pub open spec fn is_divided<F: PrimeField>(g: Seq<int>, q: Seq<int>, k: nat, e: nat) -> bool {
    &&& q.len() == g.len()
    &&& forall|t: int|
        0 <= t < q.len() ==> {
            &&& 0 <= #[trigger] q[t] < F::modulus()
            &&& domain::is_quotient(
                F::modulus(),
                q[t],
                g[t],
                zp::pw(domain::coset_point::<F>(e, t), pow2(k) as int) - 1,
            )
        }
}

/// `c` holds the first `count` coefficients of the polynomial with values
/// `g / Z` on the coset of size `2^e`, where `Z` vanishes on the domain of size
/// `2^k`.
pub open spec fn is_k_poly<F: PrimeField>(
    g: Seq<int>,
    c: Seq<int>,
    k: nat,
    e: nat,
    count: int,
) -> bool {
    exists|q: Seq<int>| #[trigger]
        is_divided::<F>(g, q, k, e) && c == domain::coset_interpolate::<F>(q, e).subrange(0, count)
}

/// The quotient `K = G / Z` by coefficients.
pub fn k_polynomial<F: PrimeField>(dk_domain: &EvaluationDomain<F>, g: Vec<F>) -> (k: Polynomial<
    F,
    Coeff,
>)
    requires
        dk_domain.wf(),
        g@.len() == pow2(dk_domain.log_ext()),
    ensures
        is_k_poly::<F>(
            field::vals(g@),
            k.vals(),
            dk_domain.log_n(),
            dk_domain.log_ext(),
            (pow2(dk_domain.log_n()) * dk_domain.quotient_degree()) as int,
        ),
{
    let ghost g0 = g@;
    let g_ext: Polynomial<F, ExtendedLagrangeCoeff> = Polynomial::new(g);
    let k_ext: Polynomial<F, ExtendedLagrangeCoeff> = dk_domain.divide_by_vanishing_poly(g_ext);
    let ghost q = k_ext.vals();
    proof {
        assert forall|t: int| 0 <= t < q.len() implies {
            &&& 0 <= #[trigger] q[t] < F::modulus()
            &&& domain::is_quotient(
                F::modulus(),
                q[t],
                field::vals(g0)[t],
                zp::pw(
                    domain::coset_point::<F>(dk_domain.log_ext(), t),
                    pow2(dk_domain.log_n()) as int,
                ) - 1,
            )
        } by {
            k_ext.values@[t].lemma_val();
        }
        assert(is_divided::<F>(field::vals(g0), q, dk_domain.log_n(), dk_domain.log_ext()));
    }
    Polynomial::new(dk_domain.extended_to_coeff(k_ext))
}

/// `K(gamma) = E(beta) / Z(gamma)`, derived from the error terms, which must be
/// known exactly: the coefficients of `K` may be aliased.
///
/// `gamma` must not be a zero of the vanishing polynomial.
pub fn k_at_gamma<F: PrimeField>(
    dk_domain: &EvaluationDomain<F>,
    error_terms: &[F],
    beta_coeffs: &[F],
    gamma: F,
) -> (r: F)
    requires
        dk_domain.wf(),
        !zp::eqm(
            F::modulus(),
            zp::pw(gamma.val(), pow2(dk_domain.log_n()) as int),
            1,
        ),
    ensures
        domain::is_quotient(
            F::modulus(),
            r.val(),
            numerator::dot(F::modulus(), field::vals(error_terms@), field::vals(beta_coeffs@)),
            zp::pw(gamma.val(), pow2(dk_domain.log_n()) as int) - 1,
        ),
{
    let ghost p = F::modulus();
    let n: u64 = dk_domain.n();
    let one: F = F::one();
    let power: F = gamma.pow(n);
    let z: F = power.sub(one);
    let ghost d = zp::pw(gamma.val(), n as int) - 1;
    proof {
        F::lemma_modulus();
        zp::lemma_small(p, 1);
        zp::lemma_reduce(p, zp::pw(gamma.val(), n as int));
        zp::lemma_eqm_sub(p, power.val(), zp::pw(gamma.val(), n as int), 1, 1);
        zp::lemma_reduce(p, power.val() - 1);
        if z.val() == 0 {
            zp::lemma_small(p, 0);
            zp::lemma_eqm_add(p, d, 0, 1, 1);
            assert(false);
        }
    }
    let e_at_beta: F = inner_product(error_terms, beta_coeffs);
    let inv: F = z.invert().unwrap();
    let r: F = e_at_beta.mul(inv);
    proof {
        let (a, u) = (e_at_beta.val(), inv.val());
        zp::lemma_eqm_mul(p, z.val(), d, u, u);
        assert(zp::eqm(p, d * u, 1));
        zp::lemma_reduce(p, a * u);
        zp::lemma_eqm_mul(p, r.val(), a * u, d, d);
        assert((a * u) * d == a * (d * u)) by (nonlinear_arith);
        zp::lemma_eqm_mul(p, a, a, d * u, 1);
        assert(a * 1 == a);
    }
    r
}

/// `r` is `nu` minus the values on the coset of size `2^e` of the polynomial
/// with coefficients `c`.
pub open spec fn is_corrected<F: PrimeField>(nu: Seq<F>, c: Seq<F>, r: Seq<F>, e: nat) -> bool {
    &&& r.len() == nu.len()
    &&& forall|t: int|
        0 <= t < r.len() ==> (#[trigger] r[t]).val() == (nu[t].val() - roots::poly_eval(
            F::modulus(),
            field::vals(c),
            domain::coset_point::<F>(e, t),
        )) % F::modulus()
}

/// Subtracts the error polynomial from the numerator of the folded trace.
pub fn correct_numerator<F: PrimeField>(
    domain: &EvaluationDomain<F>,
    nu: Polynomial<F, ExtendedLagrangeCoeff>,
    error_coeff: &Polynomial<F, Coeff>,
) -> (r: Polynomial<F, ExtendedLagrangeCoeff>)
    requires
        domain.wf(),
        nu.values@.len() == pow2(domain.log_ext()),
        error_coeff.values@.len() == pow2(domain.log_n()),
    ensures
        is_corrected(nu.values@, error_coeff.values@, r.values@, domain.log_ext()),
{
    let error_ext: Polynomial<F, ExtendedLagrangeCoeff> = domain.coeff_to_extended(
        error_coeff.clone(),
    );
    nu.sub(&error_ext)
}

/// References to the traces.
pub open spec fn refs<'a, F>(traces: Seq<FoldingProverTrace<F>>) -> Seq<&'a FoldingProverTrace<F>> {
    Seq::new(traces.len(), |i: int| &traces[i])
}

fn borrow_all<'a, F>(traces: &'a Vec<FoldingProverTrace<F>>) -> (r: Vec<&'a FoldingProverTrace<F>>)
    ensures
        r@ == refs(traces@),
{
    let mut r: Vec<&'a FoldingProverTrace<F>> = Vec::with_capacity(traces.len());
    while r.len() < traces.len()
        invariant
            r@.len() <= traces@.len(),
            forall|i: int| 0 <= i < r@.len() ==> #[trigger] r@[i] == traces@[i],
        decreases traces@.len() - r@.len(),
    {
        let i: usize = r.len();
        r.push(&traces[i]);
    }
    proof {
        assert(r@ =~= refs(traces@));
    }
    r
}

// ---------------------------------------------------------------------------
// The machine
// ---------------------------------------------------------------------------

/// What is left once the folded trace is fixed: to prove it, corrected by the
/// error polynomial.
#[derive(Debug)]
pub struct Opening<F> {
    pub trace: ProverTrace<F>,
    pub beta_pg: F,
    pub error_coeff: Polynomial<F, Coeff>,
}

/// The polynomials to open: those of the folded trace's own proof, then the error
/// polynomial at the evaluation point and at beta.
pub fn all_queries<'a, F: PrimeField>(
    base: Vec<(F, &'a Polynomial<F, Coeff>)>,
    opening: &'a Opening<F>,
    x: F,
) -> (r: Vec<(F, &'a Polynomial<F, Coeff>)>)
    ensures
        r@ == base@ + seq![
            (x, &opening.error_coeff),
            (opening.beta_pg, &opening.error_coeff),
        ],
{
    let mut r: Vec<(F, &'a Polynomial<F, Coeff>)> = base;
    r.push((x, &opening.error_coeff));
    r.push((opening.beta_pg, &opening.error_coeff));
    proof {
        assert(r@ =~= base@ + seq![
            (x, &opening.error_coeff),
            (opening.beta_pg, &opening.error_coeff),
        ]);
    }
    r
}

/// Why a fold ends without a proof.
#[derive(Clone, Copy, Debug, PartialEq, Eq)]
pub enum FoldError {
    /// The polynomials could not be opened.
    ConstraintSystemFailure,
}

/// How far the fold has come.
#[derive(Debug)]
pub enum Stage<F> {
    /// Some traces are missing.
    Tracing { traces: Vec<FoldingProverTrace<F>> },
    /// All traces are there.
    AwaitingBeta { traces: Vec<FoldingProverTrace<F>> },
    /// The traces are lifted to the coset of the folding domain.
    Lifted {
        traces: Vec<FoldingProverTrace<F>>,
        beta_pg: F,
        beta_coeffs: Vec<F>,
        lifted: Vec<FoldingProverTrace<F>>,
    },
    /// The quotient `K` is known.
    Quotient {
        traces: Vec<FoldingProverTrace<F>>,
        beta_pg: F,
        beta_coeffs: Vec<F>,
        k_poly: Polynomial<F, Coeff>,
    },
    /// The commitment to `K` is written.
    AwaitingGamma { traces: Vec<FoldingProverTrace<F>>, beta_pg: F, beta_coeffs: Vec<F> },
    /// The traces are folded at gamma.
    Folded { beta_pg: F, beta_coeffs: Vec<F>, gamma: F, folded: FoldingProverTrace<F> },
    /// The error terms and `K(gamma)` are known.
    WritingK {
        beta_pg: F,
        gamma: F,
        folded: FoldingProverTrace<F>,
        error: Polynomial<F, LagrangeCoeff>,
        k_at_gamma: F,
    },
    /// `K(gamma)` is written.
    CommittingError {
        beta_pg: F,
        folded: FoldingProverTrace<F>,
        error: Polynomial<F, LagrangeCoeff>,
        error_coeff: Polynomial<F, Coeff>,
    },
    /// The commitment to the error polynomial is written.
    AwaitingNu { opening: Opening<F> },
    /// The numerator of the folded trace is corrected.
    Corrected { opening: Opening<F>, nu_corrected: Polynomial<F, ExtendedLagrangeCoeff> },
    /// The quotient limbs are committed to.
    AwaitingX { opening: Opening<F> },
    /// The evaluation point is known.
    WritingEvals { opening: Opening<F>, x: F },
    /// The column evaluations are written.
    WritingError { opening: Opening<F>, x: F, error_at_x: F },
    /// The error polynomial's evaluation is written.
    EvaluatingKey { opening: Opening<F>, x: F },
    /// The key's permutation evaluations are written.
    EvaluatingPermutations { opening: Opening<F>, x: F },
    /// The evaluations of the permutation argument and of some lookups are written.
    EvaluatingLookups { opening: Opening<F>, x: F, written: usize },
    /// The evaluations of all lookups and of some trash arguments are written.
    EvaluatingTrash { opening: Opening<F>, x: F, written: usize },
    /// All evaluations are written.
    OpeningAll { opening: Opening<F>, x: F, splitting_factor: F, xn: F },
    /// The fold is over.
    Finished { result: Result<(), FoldError> },
}

/// The answer to an action.
#[derive(Debug)]
pub enum Event<F> {
    /// The trace of the circuit that was asked for.
    RawTrace(RawTrace<F>),
    /// A challenge squeezed from the transcript.
    Challenge(F),
    /// The numerator of each lifted trace, in order.
    Numerators(Vec<Polynomial<F, LagrangeCoeff>>),
    /// The numerator of the folded trace, by values on the domain.
    Numerator(Polynomial<F, LagrangeCoeff>),
    /// The numerator of the folded trace, by values on the coset.
    Nu(Polynomial<F, ExtendedLagrangeCoeff>),
    /// Whether the polynomials could be opened.
    Opened(bool),
    /// What was asked for is done.
    Done,
}

/// What is to be done next.
#[derive(Debug)]
pub enum Action<F> {
    /// Compute the trace of the circuit with this index.
    ComputeTrace(usize),
    /// Squeeze a challenge from the transcript.
    SqueezeChallenge,
    /// Evaluate the numerator of each lifted trace.
    EvaluateNumerators,
    /// Commit to `K` and write the commitment.
    CommitK,
    /// Evaluate the numerator of the folded trace on the domain.
    EvaluateFolded,
    /// Write a scalar to the transcript.
    WriteScalar(F),
    /// Commit to the error polynomial and write the commitment.
    CommitError,
    /// Evaluate the numerator of the folded trace on the coset.
    ComputeNu,
    /// Divide the corrected numerator and commit to the quotient's limbs.
    CommitQuotient,
    /// Write the column evaluations at this point.
    WriteEvals(F),
    /// Write the key's permutation evaluations at this point.
    EvaluateKey(F),
    /// Write the permutation argument's evaluations at this point.
    EvaluatePermutations(F),
    /// Write the evaluations of the lookup with this index at this point.
    EvaluateLookup(usize, F),
    /// Write the evaluation of the trash argument with this index at this point.
    EvaluateTrash(usize, F),
    /// Linearise the identities and open all polynomials.
    Open,
    /// Nothing; this is how the fold ended.
    Finish(Result<(), FoldError>),
}

/// What the prover asks for at a stage.
pub open spec fn action_of<F>(stage: Stage<F>) -> Action<F> {
    match stage {
        Stage::Tracing { traces } => Action::ComputeTrace(traces@.len() as usize),
        Stage::AwaitingBeta { .. } => Action::SqueezeChallenge,
        Stage::Lifted { .. } => Action::EvaluateNumerators,
        Stage::Quotient { .. } => Action::CommitK,
        Stage::AwaitingGamma { .. } => Action::SqueezeChallenge,
        Stage::Folded { .. } => Action::EvaluateFolded,
        Stage::WritingK { k_at_gamma, .. } => Action::WriteScalar(k_at_gamma),
        Stage::CommittingError { .. } => Action::CommitError,
        Stage::AwaitingNu { .. } => Action::ComputeNu,
        Stage::Corrected { .. } => Action::CommitQuotient,
        Stage::AwaitingX { .. } => Action::SqueezeChallenge,
        Stage::WritingEvals { x, .. } => Action::WriteEvals(x),
        Stage::WritingError { error_at_x, .. } => Action::WriteScalar(error_at_x),
        Stage::EvaluatingKey { x, .. } => Action::EvaluateKey(x),
        Stage::EvaluatingPermutations { x, .. } => Action::EvaluatePermutations(x),
        Stage::EvaluatingLookups { x, written, .. } => Action::EvaluateLookup(written, x),
        Stage::EvaluatingTrash { x, written, .. } => Action::EvaluateTrash(written, x),
        Stage::OpeningAll { .. } => Action::Open,
        Stage::Finished { result } => Action::Finish(result),
    }
}

/// The stage after the evaluations of the permutation argument, of `lookups`
/// lookups and of `trash` trash arguments are written: what is missing comes in
/// that order, and then everything is opened.
pub open spec fn after_evaluations<F: PrimeField>(
    opening: Opening<F>,
    x: F,
    lookups: int,
    trash: int,
    k: nat,
    next: Stage<F>,
) -> bool {
    if lookups < opening.trace.lookups@.len() {
        next == (Stage::EvaluatingLookups { opening, x, written: lookups as usize })
    } else if trash < opening.trace.trashcans@.len() {
        next == (Stage::EvaluatingTrash { opening, x, written: trash as usize })
    } else {
        &&& next matches Stage::OpeningAll { opening: o, x: x1, splitting_factor, xn }
        &&& o == opening
        &&& x1 == x
        &&& splitting_factor.val() == zp::pw(x.val(), pow2(k) - 1) % F::modulus()
        &&& xn.val() == zp::pw(x.val(), pow2(k) as int) % F::modulus()
    }
}

/// Every trace has `n` values per polynomial.
pub open spec fn all_sized<F>(traces: Seq<FoldingProverTrace<F>>, n: nat) -> bool {
    forall|i: int| 0 <= i < traces.len() ==> plonk::trace_sized(#[trigger] traces[i], n)
}

/// `coeffs` are the values at `beta` of the Lagrange basis of the domain of size
/// `2^k`.
pub open spec fn is_basis_at<F: PrimeField>(coeffs: Seq<F>, beta: F, k: nat) -> bool {
    &&& coeffs.len() == pow2(k)
    &&& forall|i: int|
        0 <= i < coeffs.len() ==> (#[trigger] coeffs[i]).val() == roots::lagrange(
            F::modulus(),
            domain::omega::<F>(k),
            k,
            i,
            beta.val(),
        )
}

/// The value at `x` of the polynomial with values `v` on the domain of size
/// `2^k`.
pub open spec fn value_at<F: PrimeField>(v: Seq<F>, k: nat, x: F) -> int {
    roots::interpolate_at(F::modulus(), field::vals(v), domain::omega::<F>(k), k, x.val())
}

/// The folding prover: folds `NB_FOLDED` instances into a single proof.
#[derive(Debug)]
pub struct ProtogalaxyProver<F, const NB_FOLDED: usize> {
    key: FoldingKey<F>,
    lagrange: LagrangeKey<F>,
    /// The domain over which the traces are interpolated.
    dk_domain: EvaluationDomain<F>,
    stage: Stage<F>,
}

impl<F: PrimeField, const NB_FOLDED: usize> ProtogalaxyProver<F, NB_FOLDED> {
    /// The parts of the proving key that folding reads.
    pub closed spec fn folding_key(self) -> FoldingKey<F> {
        self.key
    }

    /// The key's polynomials by their values on the domain.
    pub closed spec fn lagrange_key(self) -> LagrangeKey<F> {
        self.lagrange
    }

    /// The domain over which the traces are interpolated.
    pub closed spec fn folding_domain(self) -> EvaluationDomain<F> {
        self.dk_domain
    }

    /// How far the fold has come.
    pub closed spec fn current(self) -> Stage<F> {
        self.stage
    }

    /// Whether a fold with this key can start: the key's polynomials have the sizes
    /// of its domain, the number of instances is a power of two, and the folding
    /// domain's coset exists in the field and can be addressed.
    pub open spec fn startable(key: FoldingKey<F>) -> bool {
        &&& key.wf()
        &&& key.degree >= 1
        &&& exists|l: nat|
            {
                &&& NB_FOLDED == #[trigger] pow2(l)
                &&& domain::extended_log(key.degree as nat, l) <= F::two_adicity()
                &&& pow2(domain::extended_log(key.degree as nat, l)) <= usize::MAX
            }
    }

    /// The key, the domains and what the stage holds fit together.
    pub open spec fn wf(self) -> bool {
        let k = self.folding_key().domain.log_n();
        let n = pow2(k);
        &&& self.folding_key().wf()
        &&& self.lagrange_key().matches_key(self.folding_key())
        &&& self.folding_domain().wf()
        &&& NB_FOLDED == pow2(self.folding_domain().log_n())
        &&& self.folding_domain().quotient_degree() == self.folding_key().degree - 1
        &&& match self.current() {
            Stage::Tracing { traces } => traces@.len() < NB_FOLDED && all_sized(traces@, n),
            Stage::AwaitingBeta { traces } => traces@.len() == NB_FOLDED && all_sized(traces@, n),
            Stage::Lifted { traces, beta_pg, beta_coeffs, lifted } => {
                &&& traces@.len() == NB_FOLDED
                &&& all_sized(traces@, n)
                &&& is_basis_at(beta_coeffs@, beta_pg, k)
                &&& lifted@.len() == pow2(self.folding_domain().log_ext())
            },
            Stage::Quotient { traces, beta_pg, beta_coeffs, .. } => {
                &&& traces@.len() == NB_FOLDED
                &&& all_sized(traces@, n)
                &&& is_basis_at(beta_coeffs@, beta_pg, k)
            },
            Stage::AwaitingGamma { traces, beta_pg, beta_coeffs } => {
                &&& traces@.len() == NB_FOLDED
                &&& all_sized(traces@, n)
                &&& is_basis_at(beta_coeffs@, beta_pg, k)
            },
            Stage::Folded { beta_pg, beta_coeffs, gamma, folded } => {
                &&& is_basis_at(beta_coeffs@, beta_pg, k)
                &&& plonk::trace_sized(folded, n)
                &&& !zp::eqm(F::modulus(), zp::pw(gamma.val(), NB_FOLDED as int), 1)
            },
            Stage::WritingK { beta_pg, gamma, folded, error, k_at_gamma } => {
                &&& plonk::trace_sized(folded, n)
                &&& error.values@.len() == n
                &&& domain::is_quotient(
                    F::modulus(),
                    k_at_gamma.val(),
                    value_at(error.values@, k, beta_pg),
                    zp::pw(gamma.val(), NB_FOLDED as int) - 1,
                )
            },
            Stage::CommittingError { folded, error, error_coeff, .. } => {
                &&& plonk::trace_sized(folded, n)
                &&& error.values@.len() == n
                &&& plonk::coefficients_of(error.values@, error_coeff.values@, k)
            },
            Stage::AwaitingNu { opening } => opening.error_coeff.values@.len() == n,
            Stage::Corrected { opening, .. } => opening.error_coeff.values@.len() == n,
            Stage::AwaitingX { opening } => opening.error_coeff.values@.len() == n,
            Stage::WritingEvals { opening, .. } => opening.error_coeff.values@.len() == n,
            Stage::WritingError { opening, .. } => opening.error_coeff.values@.len() == n,
            Stage::EvaluatingKey { opening, .. } => opening.error_coeff.values@.len() == n,
            Stage::EvaluatingPermutations { opening, .. } => opening.error_coeff.values@.len() == n,
            Stage::EvaluatingLookups { opening, written, .. } => {
                &&& opening.error_coeff.values@.len() == n
                &&& written < opening.trace.lookups@.len()
            },
            Stage::EvaluatingTrash { opening, written, .. } => {
                &&& opening.error_coeff.values@.len() == n
                &&& written < opening.trace.trashcans@.len()
            },
            Stage::OpeningAll { opening, .. } => opening.error_coeff.values@.len() == n,
            Stage::Finished { .. } => true,
        }
    }

    /// What an answer must satisfy for the fold to go on with it.
    pub open spec fn accepts(self, event: Event<F>) -> bool {
        let n = pow2(self.folding_key().domain.log_n());
        match (self.current(), event) {
            (Stage::Tracing { .. }, Event::RawTrace(raw)) => {
                &&& raw.sized(n)
                &&& plonk::all_of_len(trace::bufs(raw.advice_lagrange@), n)
                &&& plonk::all_of_len(trace::bufs(raw.instance_values@), n)
            },
            (Stage::AwaitingBeta { traces }, Event::Challenge(beta)) => {
                &&& batch::compatible(refs(traces@))
                &&& !zp::eqm(F::modulus(), zp::pw(beta.val(), n as int), 1)
            },
            (Stage::Lifted { lifted, .. }, Event::Numerators(nus)) => nus@.len() == lifted@.len(),
            (Stage::AwaitingGamma { .. }, Event::Challenge(gamma)) => !zp::eqm(
                F::modulus(),
                zp::pw(gamma.val(), NB_FOLDED as int),
                1,
            ),
            (Stage::Folded { .. }, Event::Numerator(nu)) => nu.values@.len() == n,
            (Stage::AwaitingNu { .. }, Event::Nu(nu)) => nu.values@.len() == pow2(
                self.folding_key().domain.log_ext(),
            ),
            _ => true,
        }
    }

    /// Where an answer leads.
    pub open spec fn leads_to(self, event: Event<F>, next: Stage<F>) -> bool {
        let k = self.folding_key().domain.log_n();
        let (dk, de) = (self.folding_domain().log_n(), self.folding_domain().log_ext());
        match (self.current(), event) {
            (Stage::Tracing { traces }, Event::RawTrace(raw)) => {
                let more = |ts: Seq<FoldingProverTrace<F>>|
                    {
                        &&& ts.len() == traces@.len() + 1
                        &&& ts.drop_last() == traces@
                        &&& raw.lifts_to(ts.last(), k)
                    };
                if traces@.len() + 1 < NB_FOLDED {
                    next matches Stage::Tracing { traces: ts } && more(ts@)
                } else {
                    next matches Stage::AwaitingBeta { traces: ts } && more(ts@)
                }
            },
            (Stage::AwaitingBeta { traces }, Event::Challenge(beta)) => {
                &&& next matches Stage::Lifted { traces: ts, beta_pg, beta_coeffs, lifted }
                &&& ts == traces
                &&& beta_pg == beta
                &&& is_basis_at(beta_coeffs@, beta, k)
                &&& lifted@.len() == pow2(de)
                &&& forall|t: int|
                    0 <= t < lifted@.len() ==> {
                        &&& (#[trigger] lifted@[t]).dims() == traces@[0].dims()
                        &&& batch::slots_lifted(refs(traces@), lifted@[t], dk, de, t)
                        &&& batch::challenges_lifted(refs(traces@), lifted@[t], dk, de, t)
                    }
            },
            (Stage::Lifted { traces, beta_pg, beta_coeffs, .. }, Event::Numerators(nus)) => {
                &&& next matches Stage::Quotient { traces: ts, beta_pg: b, beta_coeffs: cs, k_poly }
                &&& ts == traces
                &&& b == beta_pg
                &&& cs == beta_coeffs
                &&& exists|g: Seq<int>| #[trigger]
                    is_g(nus@, beta_coeffs@, g) && is_k_poly::<F>(
                        g,
                        k_poly.vals(),
                        dk,
                        de,
                        NB_FOLDED * (self.folding_key().degree - 1),
                    )
            },
            (Stage::Quotient { traces, beta_pg, beta_coeffs, .. }, Event::Done) => {
                next == (Stage::AwaitingGamma { traces, beta_pg, beta_coeffs })
            },
            (
                Stage::AwaitingGamma { traces, beta_pg, beta_coeffs },
                Event::Challenge(gamma),
            ) => {
                &&& next matches Stage::Folded { beta_pg: b, beta_coeffs: cs, gamma: g, folded }
                &&& b == beta_pg
                &&& cs == beta_coeffs
                &&& g == gamma
                &&& batch::folded_at(refs(traces@), folded, dk, gamma.val())
            },
            (Stage::Folded { beta_pg, beta_coeffs, gamma, folded }, Event::Numerator(nu)) => {
                &&& next matches Stage::WritingK {
                    beta_pg: b,
                    gamma: g,
                    folded: f,
                    error,
                    k_at_gamma,
                }
                &&& b == beta_pg
                &&& g == gamma
                &&& f == folded
                &&& error == nu
                &&& domain::is_quotient(
                    F::modulus(),
                    k_at_gamma.val(),
                    numerator::dot(F::modulus(), nu.vals(), field::vals(beta_coeffs@)),
                    zp::pw(gamma.val(), NB_FOLDED as int) - 1,
                )
            },
            (Stage::WritingK { beta_pg, folded, error, .. }, Event::Done) => {
                &&& next matches Stage::CommittingError {
                    beta_pg: b,
                    folded: f,
                    error: err,
                    error_coeff,
                }
                &&& b == beta_pg
                &&& f == folded
                &&& err == error
                &&& plonk::coefficients_of(error.values@, error_coeff.values@, k)
            },
            (Stage::CommittingError { beta_pg, folded, error_coeff, .. }, Event::Done) => {
                &&& next matches Stage::AwaitingNu { opening }
                &&& opening.trace.comes_from(folded, k)
                &&& opening.beta_pg == beta_pg
                &&& opening.error_coeff == error_coeff
            },
            (Stage::AwaitingNu { opening }, Event::Nu(nu)) => {
                &&& next matches Stage::Corrected { opening: o, nu_corrected }
                &&& o == opening
                &&& is_corrected(
                    nu.values@,
                    opening.error_coeff.values@,
                    nu_corrected.values@,
                    self.folding_key().domain.log_ext(),
                )
            },
            (Stage::Corrected { opening, .. }, Event::Done) => {
                next == (Stage::AwaitingX { opening })
            },
            (Stage::AwaitingX { opening }, Event::Challenge(x)) => {
                next == (Stage::WritingEvals { opening, x })
            },
            (Stage::WritingEvals { opening, x }, Event::Done) => {
                &&& next matches Stage::WritingError { opening: o, x: x1, error_at_x }
                &&& o == opening
                &&& x1 == x
                &&& error_at_x.val() == roots::poly_eval(
                    F::modulus(),
                    opening.error_coeff.vals(),
                    x.val(),
                )
            },
            (Stage::WritingError { opening, x, .. }, Event::Done) => {
                next == (Stage::EvaluatingKey { opening, x })
            },
            (Stage::EvaluatingKey { opening, x }, Event::Done) => {
                next == (Stage::EvaluatingPermutations { opening, x })
            },
            (Stage::EvaluatingPermutations { opening, x }, Event::Done) => {
                after_evaluations(opening, x, 0, 0, k, next)
            },
            (Stage::EvaluatingLookups { opening, x, written }, Event::Done) => {
                after_evaluations(opening, x, written + 1, 0, k, next)
            },
            (Stage::EvaluatingTrash { opening, x, written }, Event::Done) => {
                after_evaluations(
                    opening,
                    x,
                    opening.trace.lookups@.len() as int,
                    written + 1,
                    k,
                    next,
                )
            },
            (Stage::OpeningAll { .. }, Event::Opened(success)) => {
                next == (Stage::<F>::Finished {
                    result: if success {
                        Ok(())
                    } else {
                        Err(FoldError::ConstraintSystemFailure)
                    },
                })
            },
            _ => next == self.current(),
        }
    }

    /// Whether a prover is where an answer leads that this one accepts.
    pub open spec fn takes(self, event: Event<F>, next: Self) -> bool {
        &&& self.wf()
        &&& self.accepts(event)
        &&& self.leads_to(event, next.current())
        &&& next.wf()
        &&& next.folding_key() == self.folding_key()
        &&& next.lagrange_key() == self.lagrange_key()
        &&& next.folding_domain() == self.folding_domain()
    }

    /// What is to be done next.
    pub fn action(&self) -> (r: Action<F>)
        ensures
            r == action_of(self.current()),
    {
        match &self.stage {
            Stage::Tracing { traces } => Action::ComputeTrace(traces.len()),
            Stage::AwaitingBeta { .. } => Action::SqueezeChallenge,
            Stage::Lifted { .. } => Action::EvaluateNumerators,
            Stage::Quotient { .. } => Action::CommitK,
            Stage::AwaitingGamma { .. } => Action::SqueezeChallenge,
            Stage::Folded { .. } => Action::EvaluateFolded,
            Stage::WritingK { k_at_gamma, .. } => Action::WriteScalar(*k_at_gamma),
            Stage::CommittingError { .. } => Action::CommitError,
            Stage::AwaitingNu { .. } => Action::ComputeNu,
            Stage::Corrected { .. } => Action::CommitQuotient,
            Stage::AwaitingX { .. } => Action::SqueezeChallenge,
            Stage::WritingEvals { x, .. } => Action::WriteEvals(*x),
            Stage::WritingError { error_at_x, .. } => Action::WriteScalar(*error_at_x),
            Stage::EvaluatingKey { x, .. } => Action::EvaluateKey(*x),
            Stage::EvaluatingPermutations { x, .. } => Action::EvaluatePermutations(*x),
            Stage::EvaluatingLookups { x, written, .. } => Action::EvaluateLookup(*written, *x),
            Stage::EvaluatingTrash { x, written, .. } => Action::EvaluateTrash(*written, *x),
            Stage::OpeningAll { .. } => Action::Open,
            Stage::Finished { result } => Action::Finish(*result),
        }
    }

    /// How far the fold has come.
    pub fn stage(&self) -> (r: &Stage<F>)
        ensures
            *r == self.current(),
    {
        &self.stage
    }

    /// The parts of the proving key that folding reads.
    pub fn key(&self) -> (r: &FoldingKey<F>)
        ensures
            *r == self.folding_key(),
    {
        &self.key
    }

    /// Whether a fold with this key can start.
    pub fn can_start(key: &FoldingKey<F>) -> (r: bool)
        requires
            key.domain.wf(),
        ensures
            r == Self::startable(*key),
    {
        let ext_len: usize = key.domain.extended_len();
        proof {
            key.domain.lemma_sizes();
        }
        if key.l0.values.len() != ext_len || key.l_last.values.len() != ext_len
            || key.l_active_row.values.len() != ext_len {
            return false;
        }
        if !polys_sized(&key.permutation_polys, key.domain.n() as usize) {
            return false;
        }
        if key.degree == 0 {
            return false;
        }
        let log: u32 = match exact_log2(NB_FOLDED) {
            Some(log) => log,
            None => return false,
        };
        let extended_k: u32 = log + log2_ceil((key.degree - 1) as u64);
        proof {
            assert forall|l: nat| NB_FOLDED == #[trigger] pow2(l) implies l == log by {
                lemma_pow2_injective(l, log as nat);
            }
            assert(NB_FOLDED == pow2(log as nat));
        }
        extended_k <= F::s() && addressable(extended_k)
    }

    /// A prover that has seen no trace yet.
    pub fn new(key: FoldingKey<F>) -> (r: Self)
        requires
            Self::startable(key),
        ensures
            r.wf(),
            r.folding_key() == key,
            r.current() matches Stage::Tracing { traces } && traces@.len() == 0,
    {
        let log: u32 = exact_log2(NB_FOLDED).unwrap();
        proof {
            assert forall|l: nat| NB_FOLDED == #[trigger] pow2(l) implies l == log by {
                lemma_pow2_injective(l, log as nat);
            }
            lemma_pow2_pos(log as nat);
        }
        let lagrange: LagrangeKey<F> = LagrangeKey::new(&key);
        let dk_domain: EvaluationDomain<F> = EvaluationDomain::new(key.degree, log);
        ProtogalaxyProver { key, lagrange, dk_domain, stage: Stage::Tracing { traces: Vec::new() } }
    }

    /// What the evaluation of numerators needs besides the traces.
    pub fn nu_context(&self) -> (r: NuContext<'_, F>)
        ensures
            *r.key == self.folding_key(),
            *r.lagrange == self.lagrange_key(),
    {
        NuContext { key: &self.key, lagrange: &self.lagrange }
    }

    /// Whether the fold can go on with an answer: polynomials must have the sizes of
    /// the domains, traces must fit together, and the first two challenges must
    /// not be zeros of the vanishing polynomials they are used with.
    pub fn can_take(&self, event: &Event<F>) -> (r: bool)
        requires
            self.wf(),
        ensures
            r == self.accepts(*event),
    {
        proof {
            self.key.domain.lemma_sizes();
            lemma_pow2_pos(self.dk_domain.log_n());
        }
        match (&self.stage, event) {
            (Stage::Tracing { .. }, Event::RawTrace(raw)) => {
                raw.has_size(self.key.domain.n() as usize)
            },
            (Stage::AwaitingBeta { traces }, Event::Challenge(beta)) => {
                let traces_refs: Vec<&FoldingProverTrace<F>> = borrow_all(traces);
                traces_compatible(traces_refs.as_slice()) && !self.key.domain.vanishes_at(beta)
            },
            (Stage::Lifted { lifted, .. }, Event::Numerators(nus)) => nus.len() == lifted.len(),
            (Stage::AwaitingGamma { .. }, Event::Challenge(gamma)) => {
                !self.dk_domain.vanishes_at(gamma)
            },
            (Stage::Folded { .. }, Event::Numerator(nu)) => {
                nu.values.len() == self.key.domain.n() as usize
            },
            (Stage::AwaitingNu { .. }, Event::Nu(nu)) => {
                nu.values.len() == self.key.domain.extended_len()
            },
            _ => true,
        }
    }

    /// Takes the answer to the pending action, and returns the prover after it
    /// and the next action.
    ///
    /// An event that does not answer the pending action changes nothing.
    pub fn fold(self, event: Event<F>) -> (r: (Self, Action<F>))
        requires
            self.wf(),
            self.accepts(event),
        ensures
            self.takes(event, r.0),
            r.1 == action_of(r.0.current()),
    {
        let ghost start = self;
        let ghost k = self.key.domain.log_n();
        let ghost n = pow2(k);
        let ProtogalaxyProver { key, lagrange, dk_domain, stage } = self;
        proof {
            F::lemma_modulus();
            key.domain.lemma_sizes();
            dk_domain.lemma_sizes();
            lemma_pow2_pos(dk_domain.log_n());
        }
        let stage: Stage<F> = match (stage, event) {
            (Stage::Tracing { traces }, Event::RawTrace(raw)) => {
                let mut traces: Vec<FoldingProverTrace<F>> = traces;
                let ghost traces0 = traces@;
                let t: FoldingProverTrace<F> = lift_trace(&key.domain, raw);
                proof {
                    lemma_lifted_sized(raw, t, k);
                }
                traces.push(t);
                proof {
                    assert(traces@.drop_last() =~= traces0);
                }
                if traces.len() < NB_FOLDED {
                    Stage::Tracing { traces }
                } else {
                    Stage::AwaitingBeta { traces }
                }
            },
            (Stage::AwaitingBeta { traces }, Event::Challenge(beta_pg)) => {
                proof {
                    domain::lemma_outside_domain::<F>(k, beta_pg.val());
                }
                let beta_coeffs: Vec<F> = eval_lagrange_on_beta(&key.domain, &beta_pg);
                let traces_refs: Vec<&FoldingProverTrace<F>> = borrow_all(&traces);
                let lifted: Vec<FoldingProverTrace<F>> = batch_traces_fft(
                    &dk_domain,
                    traces_refs.as_slice(),
                );
                Stage::Lifted { traces, beta_pg, beta_coeffs, lifted }
            },
            (Stage::Lifted { traces, beta_pg, beta_coeffs, lifted }, Event::Numerators(nus)) => {
                let g: Vec<F> = evaluate_g(&nus, &beta_coeffs);
                let ghost gv = field::vals(g@);
                proof {
                    assert(gv.len() == g@.len());
                    assert(is_g(nus@, beta_coeffs@, gv));
                }
                let k_poly: Polynomial<F, Coeff> = k_polynomial(&dk_domain, g);
                Stage::Quotient { traces, beta_pg, beta_coeffs, k_poly }
            },
            (Stage::Quotient { traces, beta_pg, beta_coeffs, .. }, Event::Done) => {
                Stage::AwaitingGamma { traces, beta_pg, beta_coeffs }
            },
            (Stage::AwaitingGamma { traces, beta_pg, beta_coeffs }, Event::Challenge(gamma)) => {
                let traces_refs: Vec<&FoldingProverTrace<F>> = borrow_all(&traces);
                let folded: FoldingProverTrace<F> = fold_traces(
                    &dk_domain,
                    traces_refs.as_slice(),
                    &gamma,
                );
                proof {
                    assert(plonk::trace_sized(traces@[0], n));
                    plonk::lemma_sized_dims(traces@[0], folded, n);
                }
                Stage::Folded { beta_pg, beta_coeffs, gamma, folded }
            },
            (Stage::Folded { beta_pg, beta_coeffs, gamma, folded }, Event::Numerator(error)) => {
                let k_at_gamma: F = k_at_gamma(
                    &dk_domain,
                    error.values.as_slice(),
                    beta_coeffs.as_slice(),
                    gamma,
                );
                proof {
                    lemma_dot_is_value(error.values@, beta_coeffs@, beta_pg, k);
                }
                Stage::WritingK { beta_pg, gamma, folded, error, k_at_gamma }
            },
            (Stage::WritingK { beta_pg, folded, error, .. }, Event::Done) => {
                let error_coeff: Polynomial<F, Coeff> = key.domain.lagrange_to_coeff(
                    error.clone(),
                );
                Stage::CommittingError { beta_pg, folded, error, error_coeff }
            },
            (Stage::CommittingError { beta_pg, folded, error_coeff, .. }, Event::Done) => {
                let trace: ProverTrace<F> = into_prover_trace(&key.domain, folded);
                Stage::AwaitingNu { opening: Opening { trace, beta_pg, error_coeff } }
            },
            (Stage::AwaitingNu { opening }, Event::Nu(nu)) => {
                let nu_corrected: Polynomial<F, ExtendedLagrangeCoeff> = correct_numerator(
                    &key.domain,
                    nu,
                    &opening.error_coeff,
                );
                Stage::Corrected { opening, nu_corrected }
            },
            (Stage::Corrected { opening, .. }, Event::Done) => Stage::AwaitingX { opening },
            (Stage::AwaitingX { opening }, Event::Challenge(x)) => {
                Stage::WritingEvals { opening, x }
            },
            (Stage::WritingEvals { opening, x }, Event::Done) => {
                let error_at_x: F = eval_polynomial(opening.error_coeff.values.as_slice(), x);
                Stage::WritingError { opening, x, error_at_x }
            },
            (Stage::WritingError { opening, x, .. }, Event::Done) => {
                Stage::EvaluatingKey { opening, x }
            },
            (Stage::EvaluatingKey { opening, x }, Event::Done) => {
                Stage::EvaluatingPermutations { opening, x }
            },
            (Stage::EvaluatingPermutations { opening, x }, Event::Done) => {
                next_evaluation(opening, x, 0, 0, key.domain.n(), Ghost(k))
            },
            (Stage::EvaluatingLookups { opening, x, written }, Event::Done) => {
                assert(written < opening.trace.lookups.len());
                next_evaluation(opening, x, written + 1, 0, key.domain.n(), Ghost(k))
            },
            (Stage::EvaluatingTrash { opening, x, written }, Event::Done) => {
                assert(written < opening.trace.trashcans.len());
                let lookups: usize = opening.trace.lookups.len();
                next_evaluation(opening, x, lookups, written + 1, key.domain.n(), Ghost(k))
            },
            (Stage::OpeningAll { .. }, Event::Opened(success)) => {
                if success {
                    Stage::Finished { result: Ok(()) }
                } else {
                    Stage::Finished { result: Err(FoldError::ConstraintSystemFailure) }
                }
            },
            (stage, _) => stage,
        };
        let next = ProtogalaxyProver { key, lagrange, dk_domain, stage };
        let action: Action<F> = next.action();
        (next, action)
    }
}

/// The stage in which the first missing evaluation is asked for.
fn next_evaluation<F: PrimeField>(
    opening: Opening<F>,
    x: F,
    lookups: usize,
    trash: usize,
    n: u64,
    Ghost(k): Ghost<nat>,
) -> (next: Stage<F>)
    requires
        n == pow2(k),
    ensures
        after_evaluations(opening, x, lookups as int, trash as int, k, next),
{
    if lookups < opening.trace.lookups.len() {
        return Stage::EvaluatingLookups { opening, x, written: lookups };
    }
    if trash < opening.trace.trashcans.len() {
        return Stage::EvaluatingTrash { opening, x, written: trash };
    }
    proof {
        lemma_pow2_pos(k);
    }
    let splitting_factor: F = x.pow(n - 1);
    let xn: F = splitting_factor.mul(x);
    proof {
        let p = F::modulus();
        let a = zp::pw(x.val(), n - 1);
        F::lemma_modulus();
        zp::lemma_pw_succ(x.val(), n - 1);
        zp::lemma_reduce(p, a);
        zp::lemma_eqm_mul(p, splitting_factor.val(), a, x.val(), x.val());
    }
    Stage::OpeningAll { opening, x, splitting_factor, xn }
}

/// Different exponents give different powers of two.
proof fn lemma_pow2_injective(a: nat, b: nat)
    requires
        pow2(a) == pow2(b),
    ensures
        a == b,
{
    if a < b {
        lemma_pow2_strictly_increases(a, b);
    } else if b < a {
        lemma_pow2_strictly_increases(b, a);
    }
}

/// The exponent of a power of two; other numbers have none.
fn exact_log2(n: usize) -> (r: Option<u32>)
    ensures
        match r {
            Some(l) => n == pow2(l as nat) && l <= 64,
            None => forall|l: nat| n != #[trigger] pow2(l),
        },
{
    let mut log: u32 = 0;
    let mut size: usize = 1;
    proof {
        lemma2_to64();
        lemma2_to64_rest();
    }
    while size < n
        invariant
            size == pow2(log as nat),
            log < 64,
            log == 0 || size <= n,
        decreases n - size,
    {
        proof {
            lemma_pow2_unfold((log + 1) as nat);
            lemma_pow2_pos(log as nat);
            lemma2_to64_rest();
            assert forall|l: nat| size > n / 2 implies n != #[trigger] pow2(l) by {
                if l < log {
                    lemma_pow2_strictly_increases(l, log as nat);
                } else if l > log + 1 {
                    lemma_pow2_strictly_increases((log + 1) as nat, l);
                }
            }
            if log == 63 {
                assert(size > n / 2);
            }
        }
        if size > n / 2 {
            return None;
        }
        log = log + 1;
        size = 2 * size;
    }
    if size == n {
        return Some(log);
    }
    proof {
        // The powers pass no number but zero.
        assert forall|l: nat| n != #[trigger] pow2(l) by {
            lemma_pow2_pos(l);
        }
    }
    None
}

/// The lifted form of a sized trace is sized.
proof fn lemma_lifted_sized<F: PrimeField>(raw: RawTrace<F>, t: FoldingProverTrace<F>, k: nat)
    requires
        raw.lifts_to(t, k),
        raw.sized(pow2(k)),
        plonk::all_of_len(trace::bufs(raw.advice_lagrange@), pow2(k)),
        plonk::all_of_len(trace::bufs(raw.instance_values@), pow2(k)),
    ensures
        plonk::trace_sized(t, pow2(k)),
{
    let n = pow2(k);
    assert forall|l: int| 0 <= l < t.lookups@.len() implies {
        &&& (#[trigger] t.lookups@[l]).multiplicities.values@.len() == n
        &&& plonk::all_of_len(trace::bufs(t.lookups@[l].helper_polys@), n)
        &&& t.lookups@[l].aggregator_poly.values@.len() == n
    } by {
        assert(raw.lookups@[l].has_values(t.lookups@[l], k));
        assert(raw.lookups@[l].sized(n));
        let (a, b) = (
            trace::bufs(raw.lookups@[l].helper_polys@),
            trace::bufs(t.lookups@[l].helper_polys@),
        );
        assert forall|i: int| 0 <= i < b.len() implies (#[trigger] b[i]).len() == n by {
            assert(plonk::values_of(a[i], b[i], k));
            assert(a[i].len() == n);
        }
    }
    let (a, b) = (plonk::trash_bufs(raw.trashcans@), trace::bufs(t.trash_polys@));
    assert forall|i: int| 0 <= i < b.len() implies (#[trigger] b[i]).len() == n by {
        assert(plonk::values_of(a[i], b[i], k));
        assert(a[i].len() == n);
    }
    let (c, d) = (plonk::perm_bufs(raw.permutations.sets@), trace::bufs(t.perm_polys@));
    assert forall|i: int| 0 <= i < d.len() implies (#[trigger] d[i]).len() == n by {
        assert(plonk::values_of(c[i], d[i], k));
        assert(c[i].len() == n);
    }
}

/// The inner product of values on the domain with the Lagrange basis at beta is
/// the polynomial's value at beta.
pub proof fn lemma_dot_is_value<F: PrimeField>(v: Seq<F>, basis: Seq<F>, beta: F, k: nat)
    requires
        k <= F::two_adicity(),
        v.len() == pow2(k),
        is_basis_at(basis, beta, k),
    ensures
        numerator::dot(F::modulus(), field::vals(v), field::vals(basis)) == value_at(v, k, beta),
{
    let p = F::modulus();
    let w = domain::omega::<F>(k);
    let (a, b) = (field::vals(v), field::vals(basis));
    F::lemma_modulus();
    interpolation::lemma_interpolation_is_lagrange(p, a, w, k, beta.val());
    let f = |i: int| a[i] * b[i];
    let g = |i: int| roots::lagrange(p, w, k, i, beta.val()) * a[i];
    assert forall|i: int| 0 <= i < a.len() implies #[trigger] f(i) == g(i) by {
        assert(basis[i].val() == roots::lagrange(p, w, k, i, beta.val()));
        let (x, y) = (a[i], b[i]);
        assert(x * y == y * x) by (nonlinear_arith);
    }
    zp::lemma_sum_same(a.len() as int, f, g);
}

} // verus!
