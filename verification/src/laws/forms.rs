//! What changing the form of a trace keeps, and what a numerator is handed.
use crate::domain;
use crate::domain::EvaluationDomain;
use crate::field;
use crate::field::PrimeField;
use crate::fq;
use crate::fq::Fq;
use crate::interpolation;
use crate::laws::transforms;
use crate::numerator;
use crate::numerator::{
    FoldingKey, LagrangeKey, NuContext, NumeratorCommon, NumeratorInputs, ReferenceInputs,
};
use crate::plonk;
use crate::plonk::{into_prover_trace, lift_trace, LogupCommitted, ProverTrace, RawTrace};
use crate::poly::{Coeff, LagrangeCoeff, Polynomial};
use crate::prover::ProtogalaxyProver;
use crate::roots;
use crate::trace;
use crate::trace::{FoldingLogupTrace, FoldingProverTrace};
use crate::zp;
use vstd::arithmetic::power2::*;
use vstd::prelude::*;

verus! {

/// The polynomial by coefficients takes the values on the domain of size `2^k`, one
/// for each point.
pub open spec fn same_poly<F: PrimeField>(
    c: Polynomial<F, Coeff>,
    v: Polynomial<F, LagrangeCoeff>,
    k: nat,
) -> bool {
    &&& c.values@.len() == pow2(k)
    &&& v.values@.len() == pow2(k)
    &&& transforms::on_points::<F>(c.vals(), v.vals(), k)
}

/// The polynomials are as many, and the same at each place.
pub open spec fn same_polys<F: PrimeField>(
    cs: Seq<Polynomial<F, Coeff>>,
    vs: Seq<Polynomial<F, LagrangeCoeff>>,
    k: nat,
) -> bool {
    &&& cs.len() == vs.len()
    &&& forall|i: int| 0 <= i < cs.len() ==> same_poly(#[trigger] cs[i], vs[i], k)
}

/// Both forms of a lookup hold the same polynomials under the same names.
pub open spec fn same_lookup<F: PrimeField>(
    c: LogupCommitted<F>,
    v: FoldingLogupTrace<F>,
    k: nat,
) -> bool {
    &&& same_poly(c.multiplicities, v.multiplicities, k)
    &&& same_polys(c.helper_polys@, v.helper_polys@, k)
    &&& same_poly(c.aggregator_poly, v.aggregator_poly, k)
}

/// The auxiliary polynomials of a trace in both forms.
pub open spec fn same_auxiliary<F: PrimeField>(
    lookups: Seq<LogupCommitted<F>>,
    trashcans: Seq<plonk::TrashCommitted<F>>,
    sets: Seq<plonk::PermutationCommittedSet<F>>,
    t: FoldingProverTrace<F>,
    k: nat,
) -> bool {
    &&& lookups.len() == t.lookups@.len()
    &&& forall|l: int|
        0 <= l < lookups.len() ==> same_lookup(#[trigger] lookups[l], t.lookups@[l], k)
    &&& trashcans.len() == t.trash_polys@.len()
    &&& forall|i: int|
        0 <= i < trashcans.len() ==> same_poly(
            (#[trigger] trashcans[i]).trash_poly,
            t.trash_polys@[i],
            k,
        )
    &&& sets.len() == t.perm_polys@.len()
    &&& forall|i: int|
        0 <= i < sets.len() ==> same_poly(
            (#[trigger] sets[i]).permutation_product_poly,
            t.perm_polys@[i],
            k,
        )
}

/// A raw trace and its lifted form hold the same columns, auxiliary polynomials and
/// challenges, each under its name.
#[verifier::opaque]
pub open spec fn same_raw<F: PrimeField>(
    raw: RawTrace<F>,
    t: FoldingProverTrace<F>,
    k: nat,
) -> bool {
    &&& t.advice_polys == raw.advice_lagrange
    &&& t.instance_polys == raw.instance_values
    &&& same_auxiliary(raw.lookups@, raw.trashcans@, raw.permutations.sets@, t, k)
    &&& t.beta == raw.beta
    &&& t.gamma == raw.gamma
    &&& t.theta == raw.theta
    &&& t.trash_challenge == raw.trash_challenge
    &&& t.y == raw.y
}

/// A folded trace and the form that the openings need hold the same columns,
/// auxiliary polynomials and challenges, each under its name.
#[verifier::opaque]
pub open spec fn same_opened<F: PrimeField>(
    r: ProverTrace<F>,
    t: FoldingProverTrace<F>,
    k: nat,
) -> bool {
    &&& same_polys(r.advice_polys@, t.advice_polys@, k)
    &&& same_polys(r.instance_polys@, t.instance_polys@, k)
    &&& r.instance_values@.len() == t.instance_polys@.len()
    &&& forall|i: int|
        0 <= i < r.instance_values@.len() ==> (#[trigger] r.instance_values@[i]).values@
            == t.instance_polys@[i].values@
    &&& same_auxiliary(r.lookups@, r.trashcans@, r.permutations.sets@, t, k)
    &&& r.beta == t.beta
    &&& r.gamma == t.gamma
    &&& r.theta == t.theta
    &&& r.trash_challenge == t.trash_challenge
    &&& r.y == t.y
}

// ---------------------------------------------------------------------------
// Changes of form
// ---------------------------------------------------------------------------

proof fn lemma_values<F: PrimeField>(
    c: Polynomial<F, Coeff>,
    v: Polynomial<F, LagrangeCoeff>,
    k: nat,
)
    requires
        c.values@.len() == pow2(k),
        plonk::values_of(c.values@, v.values@, k),
    ensures
        same_poly(c, v, k),
{
    assert forall|j: int| 0 <= j < v.vals().len() implies #[trigger] v.vals()[j]
        == roots::poly_eval(F::modulus(), c.vals(), zp::pw(domain::omega::<F>(k), j)) by {
        assert(v.values@[j].val() == v.vals()[j]);
    }
}

pub(crate) proof fn lemma_coefficients<F: PrimeField>(
    c: Polynomial<F, Coeff>,
    v: Polynomial<F, LagrangeCoeff>,
    k: nat,
)
    requires
        k <= F::two_adicity(),
        v.values@.len() == pow2(k),
        plonk::coefficients_of(v.values@, c.values@, k),
    ensures
        same_poly(c, v, k),
{
    let p = F::modulus();
    let w = domain::omega::<F>(k);
    F::lemma_modulus();
    domain::lemma_omega::<F>(k);
    assert forall|j: int| 0 <= j < v.vals().len() implies #[trigger] v.vals()[j]
        == roots::poly_eval(p, c.vals(), zp::pw(w, j)) by {
        interpolation::lemma_interpolates(p, v.vals(), w, k, j);
        transforms::lemma_vals_reduced(v.values@, j);
    }
}

proof fn lemma_all_coefficients<F: PrimeField>(
    cs: Seq<Polynomial<F, Coeff>>,
    vs: Seq<Polynomial<F, LagrangeCoeff>>,
    k: nat,
)
    requires
        k <= F::two_adicity(),
        plonk::all_of_len(trace::bufs(vs), pow2(k)),
        plonk::all_coefficients_of(trace::bufs(vs), trace::bufs(cs), k),
    ensures
        same_polys(cs, vs, k),
{
    assert(trace::bufs(cs).len() == cs.len() && trace::bufs(vs).len() == vs.len());
    assert forall|i: int| 0 <= i < cs.len() implies same_poly(#[trigger] cs[i], vs[i], k) by {
        assert(trace::bufs(cs)[i] == cs[i].values@);
        assert(trace::bufs(vs)[i] == vs[i].values@);
        lemma_coefficients(cs[i], vs[i], k);
    }
}

/// The auxiliary polynomials by coefficients, from those by values.
proof fn lemma_auxiliary<F: PrimeField>(
    lookups: Seq<LogupCommitted<F>>,
    trashcans: Seq<plonk::TrashCommitted<F>>,
    sets: Seq<plonk::PermutationCommittedSet<F>>,
    t: FoldingProverTrace<F>,
    k: nat,
)
    requires
        k <= F::two_adicity(),
        plonk::trace_sized(t, pow2(k)),
        lookups.len() == t.lookups@.len(),
        forall|l: int|
            0 <= l < lookups.len() ==> (#[trigger] lookups[l]).has_coefficients(t.lookups@[l], k),
        plonk::all_coefficients_of(trace::bufs(t.trash_polys@), plonk::trash_bufs(trashcans), k),
        plonk::all_coefficients_of(trace::bufs(t.perm_polys@), plonk::perm_bufs(sets), k),
    ensures
        same_auxiliary(lookups, trashcans, sets, t, k),
{
    assert forall|l: int| 0 <= l < lookups.len() implies same_lookup(
        #[trigger] lookups[l],
        t.lookups@[l],
        k,
    ) by {
        let (c, v) = (lookups[l], t.lookups@[l]);
        assert(c.has_coefficients(v, k));
        lemma_coefficients(c.multiplicities, v.multiplicities, k);
        lemma_coefficients(c.aggregator_poly, v.aggregator_poly, k);
        lemma_all_coefficients(c.helper_polys@, v.helper_polys@, k);
    }
    let tv = trace::bufs(t.trash_polys@);
    assert(plonk::trash_bufs(trashcans).len() == trashcans.len() && tv.len()
        == t.trash_polys@.len());
    assert forall|i: int| 0 <= i < trashcans.len() implies same_poly(
        (#[trigger] trashcans[i]).trash_poly,
        t.trash_polys@[i],
        k,
    ) by {
        assert(plonk::trash_bufs(trashcans)[i] == trashcans[i].trash_poly.values@);
        assert(tv[i] == t.trash_polys@[i].values@);
        lemma_coefficients(trashcans[i].trash_poly, t.trash_polys@[i], k);
    }
    let pv = trace::bufs(t.perm_polys@);
    assert(plonk::perm_bufs(sets).len() == sets.len() && pv.len() == t.perm_polys@.len());
    assert forall|i: int| 0 <= i < sets.len() implies same_poly(
        (#[trigger] sets[i]).permutation_product_poly,
        t.perm_polys@[i],
        k,
    ) by {
        assert(plonk::perm_bufs(sets)[i] == sets[i].permutation_product_poly.values@);
        assert(pv[i] == t.perm_polys@[i].values@);
        lemma_coefficients(sets[i].permutation_product_poly, t.perm_polys@[i], k);
    }
}

/// Lifting keeps every polynomial and challenge under its name.
pub(crate) proof fn lemma_lifts_to<F: PrimeField>(
    raw: RawTrace<F>,
    t: FoldingProverTrace<F>,
    k: nat,
)
    requires
        raw.sized(pow2(k)),
        raw.lifts_to(t, k),
    ensures
        same_raw(raw, t, k),
{
    reveal(same_raw);
    assert forall|l: int| 0 <= l < raw.lookups@.len() implies same_lookup(
        #[trigger] raw.lookups@[l],
        t.lookups@[l],
        k,
    ) by {
        let (c, v) = (raw.lookups@[l], t.lookups@[l]);
        assert(c.sized(pow2(k)) && c.has_values(v, k));
        lemma_values(c.multiplicities, v.multiplicities, k);
        lemma_values(c.aggregator_poly, v.aggregator_poly, k);
        let (ch, vh) = (trace::bufs(c.helper_polys@), trace::bufs(v.helper_polys@));
        assert(ch.len() == c.helper_polys@.len() && vh.len() == v.helper_polys@.len());
        assert forall|i: int| 0 <= i < c.helper_polys@.len() implies same_poly(
            #[trigger] c.helper_polys@[i],
            v.helper_polys@[i],
            k,
        ) by {
            assert(ch[i] == c.helper_polys@[i].values@ && vh[i] == v.helper_polys@[i].values@);
            lemma_values(c.helper_polys@[i], v.helper_polys@[i], k);
        }
    }
    let (tc, tv) = (plonk::trash_bufs(raw.trashcans@), trace::bufs(t.trash_polys@));
    assert(tc.len() == raw.trashcans@.len() && tv.len() == t.trash_polys@.len());
    assert forall|i: int| 0 <= i < raw.trashcans@.len() implies same_poly(
        (#[trigger] raw.trashcans@[i]).trash_poly,
        t.trash_polys@[i],
        k,
    ) by {
        assert(tc[i] == raw.trashcans@[i].trash_poly.values@ && tv[i]
            == t.trash_polys@[i].values@);
        lemma_values(raw.trashcans@[i].trash_poly, t.trash_polys@[i], k);
    }
    let sets = raw.permutations.sets@;
    let (pc, pv) = (plonk::perm_bufs(sets), trace::bufs(t.perm_polys@));
    assert(pc.len() == sets.len() && pv.len() == t.perm_polys@.len());
    assert forall|i: int| 0 <= i < sets.len() implies same_poly(
        (#[trigger] sets[i]).permutation_product_poly,
        t.perm_polys@[i],
        k,
    ) by {
        assert(pc[i] == sets[i].permutation_product_poly.values@ && pv[i]
            == t.perm_polys@[i].values@);
        lemma_values(sets[i].permutation_product_poly, t.perm_polys@[i], k);
    }
}

/// Bringing a trace to coefficients keeps every polynomial and challenge under its
/// name.
pub(crate) proof fn lemma_comes_from<F: PrimeField>(
    r: ProverTrace<F>,
    t: FoldingProverTrace<F>,
    k: nat,
)
    requires
        k <= F::two_adicity(),
        plonk::trace_sized(t, pow2(k)),
        r.comes_from(t, k),
    ensures
        same_opened(r, t, k),
{
    reveal(same_opened);
    lemma_all_coefficients(r.advice_polys@, t.advice_polys@, k);
    lemma_all_coefficients(r.instance_polys@, t.instance_polys@, k);
    lemma_auxiliary(r.lookups@, r.trashcans@, r.permutations.sets@, t, k);
    let (a, b) = (trace::bufs(r.instance_values@), trace::bufs(t.instance_polys@));
    assert(a.len() == r.instance_values@.len() && b.len() == t.instance_polys@.len());
    assert forall|i: int| 0 <= i < r.instance_values@.len() implies (
    #[trigger] r.instance_values@[i]).values@ == t.instance_polys@[i].values@ by {
        assert(a[i] == r.instance_values@[i].values@ && b[i] == t.instance_polys@[i].values@);
    }
}

/// Lifting a raw trace: columns and challenges stay, and each auxiliary polynomial is
/// replaced by its values on the domain, all under their names.
pub proof fn lemma_lift_trace<F: PrimeField>(
    d: EvaluationDomain<F>,
    raw: RawTrace<F>,
    t: FoldingProverTrace<F>,
)
    requires
        d.wf(),
        raw.sized(pow2(d.log_n())),
        call_ensures(lift_trace::<F>, (&d, raw), t),
    ensures
        same_raw(raw, t, d.log_n()),
{
    lemma_lifts_to(raw, t, d.log_n());
}

/// Opening a folded trace: each polynomial is replaced by the coefficients of the
/// polynomial with its values, and the challenges stay, all under their names.
pub proof fn lemma_into_prover_trace<F: PrimeField>(
    d: EvaluationDomain<F>,
    folded: FoldingProverTrace<F>,
    r: ProverTrace<F>,
)
    requires
        d.wf(),
        plonk::trace_sized(folded, pow2(d.log_n())),
        call_ensures(into_prover_trace::<F>, (&d, folded), r),
    ensures
        same_opened(r, folded, d.log_n()),
{
    d.lemma_sizes();
    lemma_comes_from(r, folded, d.log_n());
}

/// Two polynomials of `2^k` coefficients with the same values on the domain are one.
proof fn lemma_same_coefficients<F: PrimeField>(
    a: Polynomial<F, Coeff>,
    v: Polynomial<F, LagrangeCoeff>,
    b: Polynomial<F, Coeff>,
    k: nat,
)
    requires
        k <= F::two_adicity(),
        same_poly(a, v, k),
        same_poly(b, v, k),
    ensures
        a.vals() == b.vals(),
{
    let p = F::modulus();
    let w = domain::omega::<F>(k);
    F::lemma_modulus();
    domain::lemma_omega::<F>(k);
    let av = Seq::new(a.vals().len(), |j: int| roots::poly_eval(p, a.vals(), zp::pw(w, j)));
    let bv = Seq::new(b.vals().len(), |j: int| roots::poly_eval(p, b.vals(), zp::pw(w, j)));
    assert forall|j: int| 0 <= j < av.len() implies av[j] == bv[j] by {
        assert(v.vals()[j] == av[j]);
    }
    assert(av =~= bv);
    interpolation::lemma_interpolate_unique(p, a.vals(), w, k);
    interpolation::lemma_interpolate_unique(p, b.vals(), w, k);
    assert forall|i: int| 0 <= i < a.vals().len() implies a.vals()[i] == b.vals()[i] by {
        assert(roots::interpolate(p, av, w, k)[i] == a.vals()[i] % p);
        assert(roots::interpolate(p, bv, w, k)[i] == b.vals()[i] % p);
        transforms::lemma_vals_reduced(a.values@, i);
        transforms::lemma_vals_reduced(b.values@, i);
    }
    assert(a.vals() =~= b.vals());
}

/// Lifting a raw trace and bringing it back gives back every challenge, column and
/// auxiliary polynomial that it came with, each under its name.
pub proof fn lemma_raw_trace_returns<F: PrimeField>(
    d: EvaluationDomain<F>,
    raw: RawTrace<F>,
    t: FoldingProverTrace<F>,
    back: ProverTrace<F>,
)
    requires
        d.wf(),
        raw.sized(pow2(d.log_n())),
        plonk::all_of_len(trace::bufs(raw.advice_lagrange@), pow2(d.log_n())),
        plonk::all_of_len(trace::bufs(raw.instance_values@), pow2(d.log_n())),
        call_ensures(lift_trace::<F>, (&d, raw), t),
        call_ensures(into_prover_trace::<F>, (&d, t), back),
    ensures
        back.beta == raw.beta,
        back.gamma == raw.gamma,
        back.theta == raw.theta,
        back.trash_challenge == raw.trash_challenge,
        back.y == raw.y,
        same_polys(back.advice_polys@, raw.advice_lagrange@, d.log_n()),
        same_polys(back.instance_polys@, raw.instance_values@, d.log_n()),
        back.instance_values@.len() == raw.instance_values@.len(),
        forall|i: int|
            0 <= i < back.instance_values@.len() ==> (#[trigger] back.instance_values@[i]).values@
                == raw.instance_values@[i].values@,
        back.lookups@.len() == raw.lookups@.len(),
        forall|l: int|
            0 <= l < back.lookups@.len() ==> {
                let (b, a) = (#[trigger] back.lookups@[l], raw.lookups@[l]);
                &&& b.multiplicities.vals() == a.multiplicities.vals()
                &&& b.aggregator_poly.vals() == a.aggregator_poly.vals()
                &&& b.helper_polys@.len() == a.helper_polys@.len()
                &&& forall|h: int|
                    0 <= h < b.helper_polys@.len() ==> (#[trigger] b.helper_polys@[h]).vals()
                        == a.helper_polys@[h].vals()
            },
        back.trashcans@.len() == raw.trashcans@.len(),
        forall|i: int|
            0 <= i < back.trashcans@.len() ==> (#[trigger] back.trashcans@[i]).trash_poly.vals()
                == raw.trashcans@[i].trash_poly.vals(),
        back.permutations.sets@.len() == raw.permutations.sets@.len(),
        forall|i: int|
            0 <= i < back.permutations.sets@.len() ==> (
            #[trigger] back.permutations.sets@[i]).permutation_product_poly.vals()
                == raw.permutations.sets@[i].permutation_product_poly.vals(),
{
    reveal(same_raw);
    reveal(same_opened);
    let k = d.log_n();
    d.lemma_sizes();
    lemma_lifts_to(raw, t, k);
    lemma_lifted_is_sized(raw, t, k);
    lemma_comes_from(back, t, k);
    assert forall|l: int| 0 <= l < back.lookups@.len() implies {
        let (b, a) = (#[trigger] back.lookups@[l], raw.lookups@[l]);
        &&& b.multiplicities.vals() == a.multiplicities.vals()
        &&& b.aggregator_poly.vals() == a.aggregator_poly.vals()
        &&& b.helper_polys@.len() == a.helper_polys@.len()
        &&& forall|h: int|
            0 <= h < b.helper_polys@.len() ==> (#[trigger] b.helper_polys@[h]).vals()
                == a.helper_polys@[h].vals()
    } by {
        let (b, v, a) = (back.lookups@[l], t.lookups@[l], raw.lookups@[l]);
        assert(same_lookup(b, v, k) && same_lookup(a, v, k));
        lemma_same_coefficients(b.multiplicities, v.multiplicities, a.multiplicities, k);
        lemma_same_coefficients(b.aggregator_poly, v.aggregator_poly, a.aggregator_poly, k);
        assert forall|h: int| 0 <= h < b.helper_polys@.len() implies (
        #[trigger] b.helper_polys@[h]).vals() == a.helper_polys@[h].vals() by {
            assert(same_poly(a.helper_polys@[h], v.helper_polys@[h], k));
            lemma_same_coefficients(b.helper_polys@[h], v.helper_polys@[h], a.helper_polys@[h], k);
        }
    }
    assert forall|i: int| 0 <= i < back.trashcans@.len() implies (
    #[trigger] back.trashcans@[i]).trash_poly.vals() == raw.trashcans@[i].trash_poly.vals() by {
        assert(same_poly(raw.trashcans@[i].trash_poly, t.trash_polys@[i], k));
        lemma_same_coefficients(
            back.trashcans@[i].trash_poly,
            t.trash_polys@[i],
            raw.trashcans@[i].trash_poly,
            k,
        );
    }
    let (bs, rs) = (back.permutations.sets@, raw.permutations.sets@);
    assert forall|i: int| 0 <= i < bs.len() implies (
    #[trigger] bs[i]).permutation_product_poly.vals() == rs[i].permutation_product_poly.vals() by {
        assert(same_poly(rs[i].permutation_product_poly, t.perm_polys@[i], k));
        lemma_same_coefficients(
            bs[i].permutation_product_poly,
            t.perm_polys@[i],
            rs[i].permutation_product_poly,
            k,
        );
    }
}

/// The lifted form of a raw trace has one value for each point of the domain.
pub(crate) proof fn lemma_lifted_is_sized<F: PrimeField>(
    raw: RawTrace<F>,
    t: FoldingProverTrace<F>,
    k: nat,
)
    requires
        same_raw(raw, t, k),
        plonk::all_of_len(trace::bufs(raw.advice_lagrange@), pow2(k)),
        plonk::all_of_len(trace::bufs(raw.instance_values@), pow2(k)),
    ensures
        plonk::trace_sized(t, pow2(k)),
{
    reveal(same_raw);
    let n = pow2(k);
    assert forall|l: int| 0 <= l < t.lookups@.len() implies {
        &&& (#[trigger] t.lookups@[l]).multiplicities.values@.len() == n
        &&& plonk::all_of_len(trace::bufs(t.lookups@[l].helper_polys@), n)
        &&& t.lookups@[l].aggregator_poly.values@.len() == n
    } by {
        let (a, v) = (raw.lookups@[l], t.lookups@[l]);
        assert(same_lookup(a, v, k));
        assert forall|i: int| 0 <= i < trace::bufs(v.helper_polys@).len() implies (
        #[trigger] trace::bufs(v.helper_polys@)[i]).len() == n by {
            assert(same_poly(a.helper_polys@[i], v.helper_polys@[i], k));
        }
    }
    assert forall|i: int| 0 <= i < trace::bufs(t.trash_polys@).len() implies (
    #[trigger] trace::bufs(t.trash_polys@)[i]).len() == n by {
        assert(same_poly(raw.trashcans@[i].trash_poly, t.trash_polys@[i], k));
    }
    assert forall|i: int| 0 <= i < trace::bufs(t.perm_polys@).len() implies (
    #[trigger] trace::bufs(t.perm_polys@)[i]).len() == n by {
        assert(same_poly(
            raw.permutations.sets@[i].permutation_product_poly,
            t.perm_polys@[i],
            k,
        ));
    }
}

// ---------------------------------------------------------------------------
// What numerators are handed
// ---------------------------------------------------------------------------

/// What both evaluations read is what the key and the trace hold under the same
/// names: the selectors and permutation polynomials by their values on the domain,
/// everything else as it is.
pub open spec fn reads<'a, F: PrimeField>(
    common: NumeratorCommon<'a, F>,
    key: FoldingKey<F>,
    t: FoldingProverTrace<F>,
) -> bool {
    let (k, e) = (key.domain.log_n(), key.domain.log_ext());
    &&& common.l0.values@.len() == pow2(k)
    &&& common.l_last.values@.len() == pow2(k)
    &&& common.l_active.values@.len() == pow2(k)
    &&& forall|c: Seq<int>|
        c.len() <= pow2(e) && #[trigger] transforms::on_coset::<F>(c, key.l0.vals(), e)
            ==> transforms::on_points::<F>(c, common.l0.vals(), k)
    &&& forall|c: Seq<int>|
        c.len() <= pow2(e) && #[trigger] transforms::on_coset::<F>(c, key.l_last.vals(), e)
            ==> transforms::on_points::<F>(c, common.l_last.vals(), k)
    &&& forall|c: Seq<int>|
        c.len() <= pow2(e) && #[trigger] transforms::on_coset::<F>(c, key.l_active_row.vals(), e)
            ==> transforms::on_points::<F>(c, common.l_active.vals(), k)
    &&& same_polys(key.permutation_polys@, common.perm_pk@, k)
    &&& *common.fixed == key.fixed_values
    &&& *common.domain == key.domain
    &&& *common.advice == t.advice_polys
    &&& *common.instance == t.instance_polys
    &&& common.beta == t.beta
    &&& common.gamma == t.gamma
    &&& *common.theta == t.theta
    &&& common.trash_challenge == t.trash_challenge
    &&& *common.y == t.y
}

proof fn lemma_restricted<F: PrimeField>(
    ext: Seq<F>,
    v: Seq<F>,
    k: nat,
    e: nat,
    c: Seq<int>,
)
    requires
        k <= e <= F::two_adicity(),
        ext.len() == pow2(e),
        numerator::restricted(ext, v, k, e),
        c.len() <= pow2(e),
        transforms::on_coset::<F>(c, field::vals(ext), e),
    ensures
        transforms::on_points::<F>(c, field::vals(v), k),
{
    let vv = field::vals(v);
    assert forall|j: int| 0 <= j < vv.len() implies #[trigger] vv[j] == roots::poly_eval(
        F::modulus(),
        c,
        zp::pw(domain::omega::<F>(k), j),
    ) by {
        assert(v[j].val() == vv[j]);
        transforms::lemma_value_of_coset_interpolant::<F>(
            c,
            field::vals(ext),
            e,
            zp::pw(domain::omega::<F>(k), j),
        );
    }
}

proof fn lemma_reads<'a, F: PrimeField>(
    common: NumeratorCommon<'a, F>,
    ctx: NuContext<'a, F>,
    t: FoldingProverTrace<F>,
)
    requires
        ctx.key.wf(),
        ctx.lagrange.matches_key(*ctx.key),
        common.assembled(ctx, t),
    ensures
        reads(common, *ctx.key, t),
{
    let key = *ctx.key;
    let lag = *ctx.lagrange;
    let (k, e) = (key.domain.log_n(), key.domain.log_ext());
    key.domain.lemma_sizes();
    assert forall|c: Seq<int>|
        c.len() <= pow2(e) && #[trigger] transforms::on_coset::<F>(c, key.l0.vals(), e) implies
    transforms::on_points::<F>(c, common.l0.vals(), k) by {
        lemma_restricted(key.l0.values@, common.l0.values@, k, e, c);
    }
    assert forall|c: Seq<int>|
        c.len() <= pow2(e) && #[trigger] transforms::on_coset::<F>(
            c,
            key.l_last.vals(),
            e,
        ) implies transforms::on_points::<F>(c, common.l_last.vals(), k) by {
        lemma_restricted(key.l_last.values@, common.l_last.values@, k, e, c);
    }
    assert forall|c: Seq<int>|
        c.len() <= pow2(e) && #[trigger] transforms::on_coset::<F>(
            c,
            key.l_active_row.vals(),
            e,
        ) implies transforms::on_points::<F>(c, common.l_active.vals(), k) by {
        lemma_restricted(key.l_active_row.values@, common.l_active.values@, k, e, c);
    }
    let (ks, ls) = (trace::bufs(key.permutation_polys@), trace::bufs(common.perm_pk@));
    assert(ks.len() == key.permutation_polys@.len() && ls.len() == common.perm_pk@.len());
    assert forall|i: int| 0 <= i < key.permutation_polys@.len() implies same_poly(
        #[trigger] key.permutation_polys@[i],
        common.perm_pk@[i],
        k,
    ) by {
        assert(ks[i] == key.permutation_polys@[i].values@ && ls[i] == common.perm_pk@[i].values@);
        lemma_values(key.permutation_polys@[i], common.perm_pk@[i], k);
    }
}

/// The polynomials of the key that a fold precomputes are those that numerators of a
/// trace are handed, under the key's names, and the trace's polynomials and
/// challenges under the trace's.
pub proof fn lemma_numerator_reads<'a, F: PrimeField>(
    key: &'a FoldingKey<F>,
    lagrange: &'a LagrangeKey<F>,
    ctx: NuContext<'a, F>,
    t: &'a FoldingProverTrace<F>,
    r: NumeratorInputs<'a, F>,
)
    requires
        key.wf(),
        call_ensures(LagrangeKey::<F>::new, (key,), *lagrange),
        ctx.key == key,
        ctx.lagrange == lagrange,
        call_ensures(NuContext::<'a, F>::numerator, (&ctx, t), r),
    ensures
        reads(r.common, *key, *t),
        handed(r, *t),
{
    lemma_reads(r.common, ctx, *t);
}

/// The auxiliary polynomials that the fast evaluation is handed are the trace's,
/// under their names.
pub open spec fn handed<'a, F: PrimeField>(
    r: NumeratorInputs<'a, F>,
    t: FoldingProverTrace<F>,
) -> bool {
    &&& r.lookups@.len() == t.lookups@.len()
    &&& forall|l: int|
        0 <= l < r.lookups@.len() ==> {
            &&& *(#[trigger] r.lookups@[l]).multiplicities == t.lookups@[l].multiplicities
            &&& *r.lookups@[l].helpers == t.lookups@[l].helper_polys
            &&& *r.lookups@[l].aggregator == t.lookups@[l].aggregator_poly
        }
    &&& *r.trash == t.trash_polys
    &&& *r.permutations == t.perm_polys
}

/// The numerators of a prover read the prover's own key.
pub proof fn lemma_prover_numerator_reads<'a, F: PrimeField, const NB_FOLDED: usize>(
    prover: &'a ProtogalaxyProver<F, NB_FOLDED>,
    ctx: NuContext<'a, F>,
    t: &'a FoldingProverTrace<F>,
    r: NumeratorInputs<'a, F>,
)
    requires
        prover.wf(),
        call_ensures(ProtogalaxyProver::<F, NB_FOLDED>::nu_context, (prover,), ctx),
        call_ensures(NuContext::<'a, F>::numerator, (&ctx, t), r),
    ensures
        reads(r.common, prover.folding_key(), *t),
        handed(r, *t),
{
    lemma_reads(r.common, ctx, *t);
}

/// The reference evaluation reads the same, with each auxiliary polynomial replaced by
/// the coefficients of the polynomial that has its values on the domain.
pub proof fn lemma_reference_reads<'a, F: PrimeField, const NB_FOLDED: usize>(
    prover: &'a ProtogalaxyProver<F, NB_FOLDED>,
    ctx: NuContext<'a, F>,
    t: &'a FoldingProverTrace<F>,
    r: ReferenceInputs<'a, F>,
)
    requires
        prover.wf(),
        plonk::trace_sized(*t, pow2(prover.folding_key().domain.log_n())),
        call_ensures(ProtogalaxyProver::<F, NB_FOLDED>::nu_context, (prover,), ctx),
        call_ensures(NuContext::<'a, F>::numerator_reference, (&ctx, t), r),
    ensures
        reads(r.common, prover.folding_key(), *t),
        same_auxiliary(
            r.lookups@,
            r.trashcans@,
            r.permutations.sets@,
            *t,
            prover.folding_key().domain.log_n(),
        ),
{
    let k = prover.folding_key().domain.log_n();
    ctx.key.domain.lemma_sizes();
    lemma_reads(r.common, ctx, *t);
    lemma_auxiliary(r.lookups@, r.trashcans@, r.permutations.sets@, *t, k);
}

// ---------------------------------------------------------------------------
// Bytes
// ---------------------------------------------------------------------------

/// The bytes of an element give the element back, and bytes that give an element are
/// its bytes.
pub proof fn lemma_bytes_roundtrip(
    x: Fq,
    bytes: [u8; 32],
    again: Option<Fq>,
    given: [u8; 32],
    read: Option<Fq>,
    written: [u8; 32],
)
    requires
        call_ensures(Fq::to_repr, (x,), bytes),
        call_ensures(Fq::from_repr, (bytes,), again),
        call_ensures(Fq::from_repr, (given,), read),
        read is Some ==> call_ensures(Fq::to_repr, (read->0,), written),
    ensures
        again is Some,
        again->0.val() == x.val(),
        read is Some ==> written@ == given@,
{
    x.lemma_val();
    if read is Some {
        fq::lemma_spelled_injective(written@, given@);
    }
}

} // verus!
