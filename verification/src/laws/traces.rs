//! What the operations on traces do to every polynomial and challenge, by name.
use crate::batch;
use crate::batch::{
    batch_traces, batch_traces_fft, fold_block, fold_challenges, fold_traces, traces_compatible,
};
use crate::blocks;
use crate::blocks::{block_size, regroup_by_slot, split_into_blocks};
use crate::column;
use crate::column::ColumnTransform;
use crate::combine;
use crate::combine::{eval_lagrange_on_beta, linear_combination, pow_vec, LinearSpace};
use crate::domain;
use crate::domain::EvaluationDomain;
use crate::field;
use crate::field::PrimeField;
use crate::fq::Fq;
use crate::interpolation;
use crate::laws;
use crate::laws::transforms;
use crate::poly::{LagrangeCoeff, Polynomial};
use crate::roots;
use crate::trace;
use crate::trace::{Coord, FoldingProverTrace, Slot};
use crate::zp;
use vstd::arithmetic::power2::*;
use vstd::prelude::*;

verus! {

/// The integers that one scalar has in each trace.
pub open spec fn across<F: PrimeField>(
    traces: Seq<&FoldingProverTrace<F>>,
    pick: spec_fn(FoldingProverTrace<F>) -> F,
) -> Seq<int> {
    Seq::new(traces.len(), |i: int| pick(*traces[i]).val())
}

/// The polynomials that `polys` picks of `out` are as many as those of the first
/// trace and as long, and each value is `f` of the values at the same place in the
/// traces.
pub open spec fn polys_by_name<F: PrimeField>(
    traces: Seq<&FoldingProverTrace<F>>,
    out: FoldingProverTrace<F>,
    f: spec_fn(Seq<int>) -> int,
    polys: spec_fn(FoldingProverTrace<F>) -> Seq<Polynomial<F, LagrangeCoeff>>,
) -> bool {
    &&& polys(out).len() == polys(*traces[0]).len()
    &&& forall|i: int|
        0 <= i < polys(out).len() ==> (#[trigger] polys(out)[i]).values@.len() == polys(
            *traces[0],
        )[i].values@.len()
    &&& forall|i: int, m: int|
        0 <= i < polys(out).len() && 0 <= m < polys(out)[i].values@.len() ==> (
        #[trigger] polys(out)[i].values@[m]).val() == f(
            across(traces, |t: FoldingProverTrace<F>| polys(t)[i].values@[m]),
        )
}

/// Every scalar of `out` is `f` of the scalars of the same name in the traces.
#[verifier::opaque]
pub open spec fn by_name<F: PrimeField>(
    traces: Seq<&FoldingProverTrace<F>>,
    out: FoldingProverTrace<F>,
    f: spec_fn(Seq<int>) -> int,
) -> bool {
    &&& polys_by_name(traces, out, f, |t: FoldingProverTrace<F>| t.advice_polys@)
    &&& polys_by_name(traces, out, f, |t: FoldingProverTrace<F>| t.instance_polys@)
    &&& polys_by_name(traces, out, f, |t: FoldingProverTrace<F>| t.trash_polys@)
    &&& polys_by_name(traces, out, f, |t: FoldingProverTrace<F>| t.perm_polys@)
    &&& out.lookups@.len() == traces[0].lookups@.len()
    &&& forall|l: int|
        #![trigger out.lookups@[l]]
        0 <= l < out.lookups@.len() ==> {
            &&& polys_by_name(
                traces,
                out,
                f,
                |t: FoldingProverTrace<F>| seq![t.lookups@[l].multiplicities],
            )
            &&& polys_by_name(
                traces,
                out,
                f,
                |t: FoldingProverTrace<F>| t.lookups@[l].helper_polys@,
            )
            &&& polys_by_name(
                traces,
                out,
                f,
                |t: FoldingProverTrace<F>| seq![t.lookups@[l].aggregator_poly],
            )
        }
    &&& out.beta.val() == f(across(traces, |t: FoldingProverTrace<F>| t.beta))
    &&& out.gamma.val() == f(across(traces, |t: FoldingProverTrace<F>| t.gamma))
    &&& out.trash_challenge.val() == f(
        across(traces, |t: FoldingProverTrace<F>| t.trash_challenge),
    )
    &&& out.theta@.len() == traces[0].theta@.len()
    &&& forall|i: int|
        0 <= i < out.theta@.len() ==> (#[trigger] out.theta@[i]).val() == f(
            across(traces, |t: FoldingProverTrace<F>| t.theta@[i]),
        )
    &&& out.y@.len() == traces[0].y@.len()
    &&& forall|i: int|
        0 <= i < out.y@.len() ==> (#[trigger] out.y@[i]).val() == f(
            across(traces, |t: FoldingProverTrace<F>| t.y@[i]),
        )
}

/// What holds at every coordinate holds by name.
proof fn lemma_by_name<F: PrimeField>(
    traces: Seq<&FoldingProverTrace<F>>,
    out: FoldingProverTrace<F>,
    f: spec_fn(Seq<int>) -> int,
)
    requires
        traces.len() >= 1,
        out.dims() == traces[0].dims(),
        forall|c: Coord|
            out.dims().has_coord(c) ==> #[trigger] out.at(c) == f(laws::scalars_at(traces, c)),
    ensures
        by_name(traces, out, f),
{
    reveal(by_name);
    let first = *traces[0];
    let (d, e) = (out.dims(), first.dims());
    assert(d.advice == e.advice && d.instance == e.instance && d.trash == e.trash && d.perm
        == e.perm && d.lookups == e.lookups);
    let advice = |t: FoldingProverTrace<F>| t.advice_polys@;
    let instance = |t: FoldingProverTrace<F>| t.instance_polys@;
    let trash = |t: FoldingProverTrace<F>| t.trash_polys@;
    let perm = |t: FoldingProverTrace<F>| t.perm_polys@;
    lemma_lens_by_name(d.advice, advice(out), advice(first));
    lemma_lens_by_name(d.instance, instance(out), instance(first));
    lemma_lens_by_name(d.trash, trash(out), trash(first));
    lemma_lens_by_name(d.perm, perm(out), perm(first));
    assert forall|i: int, m: int|
        0 <= i < advice(out).len() && 0 <= m < advice(out)[i].values@.len() implies (
    #[trigger] advice(out)[i].values@[m]).val() == f(
        across(traces, |t: FoldingProverTrace<F>| advice(t)[i].values@[m]),
    ) by {
        let c = Coord::Value(Slot::Advice(i), m);
        assert(d.advice[i] == trace::bufs(out.advice_polys@)[i].len());
        assert(laws::scalars_at(traces, c) =~= across(
            traces,
            |t: FoldingProverTrace<F>| advice(t)[i].values@[m],
        ));
        assert(out.at(c) == f(laws::scalars_at(traces, c)));
    }
    assert forall|i: int, m: int|
        0 <= i < instance(out).len() && 0 <= m < instance(out)[i].values@.len() implies (
    #[trigger] instance(out)[i].values@[m]).val() == f(
        across(traces, |t: FoldingProverTrace<F>| instance(t)[i].values@[m]),
    ) by {
        let c = Coord::Value(Slot::Instance(i), m);
        assert(d.instance[i] == trace::bufs(out.instance_polys@)[i].len());
        assert(laws::scalars_at(traces, c) =~= across(
            traces,
            |t: FoldingProverTrace<F>| instance(t)[i].values@[m],
        ));
        assert(out.at(c) == f(laws::scalars_at(traces, c)));
    }
    assert forall|i: int, m: int|
        0 <= i < trash(out).len() && 0 <= m < trash(out)[i].values@.len() implies (
    #[trigger] trash(out)[i].values@[m]).val() == f(
        across(traces, |t: FoldingProverTrace<F>| trash(t)[i].values@[m]),
    ) by {
        let c = Coord::Value(Slot::Trash(i), m);
        assert(d.trash[i] == trace::bufs(out.trash_polys@)[i].len());
        assert(laws::scalars_at(traces, c) =~= across(
            traces,
            |t: FoldingProverTrace<F>| trash(t)[i].values@[m],
        ));
        assert(out.at(c) == f(laws::scalars_at(traces, c)));
    }
    assert forall|i: int, m: int|
        0 <= i < perm(out).len() && 0 <= m < perm(out)[i].values@.len() implies (
    #[trigger] perm(out)[i].values@[m]).val() == f(
        across(traces, |t: FoldingProverTrace<F>| perm(t)[i].values@[m]),
    ) by {
        let c = Coord::Value(Slot::Perm(i), m);
        assert(d.perm[i] == trace::bufs(out.perm_polys@)[i].len());
        assert(laws::scalars_at(traces, c) =~= across(
            traces,
            |t: FoldingProverTrace<F>| perm(t)[i].values@[m],
        ));
        assert(out.at(c) == f(laws::scalars_at(traces, c)));
    }
    assert(out.lookups@.len() == d.lookups.len() && first.lookups@.len() == e.lookups.len());
    assert forall|l: int| #![trigger out.lookups@[l]] 0 <= l < out.lookups@.len() implies {
        &&& polys_by_name(
            traces,
            out,
            f,
            |t: FoldingProverTrace<F>| seq![t.lookups@[l].multiplicities],
        )
        &&& polys_by_name(traces, out, f, |t: FoldingProverTrace<F>| t.lookups@[l].helper_polys@)
        &&& polys_by_name(
            traces,
            out,
            f,
            |t: FoldingProverTrace<F>| seq![t.lookups@[l].aggregator_poly],
        )
    } by {
        lemma_lookup_by_name(traces, out, f, l);
    }
    assert(laws::scalars_at(traces, Coord::Beta) =~= across(
        traces,
        |t: FoldingProverTrace<F>| t.beta,
    ));
    assert(out.at(Coord::Beta) == f(laws::scalars_at(traces, Coord::Beta)));
    assert(laws::scalars_at(traces, Coord::Gamma) =~= across(
        traces,
        |t: FoldingProverTrace<F>| t.gamma,
    ));
    assert(out.at(Coord::Gamma) == f(laws::scalars_at(traces, Coord::Gamma)));
    assert(laws::scalars_at(traces, Coord::TrashChallenge) =~= across(
        traces,
        |t: FoldingProverTrace<F>| t.trash_challenge,
    ));
    assert(out.at(Coord::TrashChallenge) == f(laws::scalars_at(traces, Coord::TrashChallenge)));
    assert forall|i: int| 0 <= i < out.theta@.len() implies (#[trigger] out.theta@[i]).val() == f(
        across(traces, |t: FoldingProverTrace<F>| t.theta@[i]),
    ) by {
        let c = Coord::Theta(i);
        assert(laws::scalars_at(traces, c) =~= across(
            traces,
            |t: FoldingProverTrace<F>| t.theta@[i],
        ));
        assert(out.at(c) == f(laws::scalars_at(traces, c)));
    }
    assert forall|i: int| 0 <= i < out.y@.len() implies (#[trigger] out.y@[i]).val() == f(
        across(traces, |t: FoldingProverTrace<F>| t.y@[i]),
    ) by {
        let c = Coord::Y(i);
        assert(laws::scalars_at(traces, c) =~= across(
            traces,
            |t: FoldingProverTrace<F>| t.y@[i],
        ));
        assert(out.at(c) == f(laws::scalars_at(traces, c)));
    }
}

proof fn lemma_lens_by_name<F>(
    lens: Seq<nat>,
    a: Seq<Polynomial<F, LagrangeCoeff>>,
    b: Seq<Polynomial<F, LagrangeCoeff>>,
)
    requires
        trace::lens_of(trace::bufs(a)) == lens,
        trace::lens_of(trace::bufs(b)) == lens,
    ensures
        a.len() == b.len(),
        forall|i: int|
            0 <= i < a.len() ==> (#[trigger] a[i]).values@.len() == b[i].values@.len(),
{
    let (u, v) = (trace::bufs(a), trace::bufs(b));
    assert(u.len() == a.len() && v.len() == b.len());
    assert(trace::lens_of(u).len() == u.len() && trace::lens_of(v).len() == v.len());
    assert forall|i: int| 0 <= i < a.len() implies (#[trigger] a[i]).values@.len()
        == b[i].values@.len() by {
        assert(u[i] == a[i].values@ && v[i] == b[i].values@);
        assert(trace::lens_of(u)[i] == u[i].len() && trace::lens_of(v)[i] == v[i].len());
    }
}

proof fn lemma_lookup_by_name<F: PrimeField>(
    traces: Seq<&FoldingProverTrace<F>>,
    out: FoldingProverTrace<F>,
    f: spec_fn(Seq<int>) -> int,
    l: int,
)
    requires
        traces.len() >= 1,
        out.dims() == traces[0].dims(),
        0 <= l < out.lookups@.len(),
        forall|c: Coord|
            out.dims().has_coord(c) ==> #[trigger] out.at(c) == f(laws::scalars_at(traces, c)),
    ensures
        polys_by_name(
            traces,
            out,
            f,
            |t: FoldingProverTrace<F>| seq![t.lookups@[l].multiplicities],
        ),
        polys_by_name(traces, out, f, |t: FoldingProverTrace<F>| t.lookups@[l].helper_polys@),
        polys_by_name(
            traces,
            out,
            f,
            |t: FoldingProverTrace<F>| seq![t.lookups@[l].aggregator_poly],
        ),
{
    let first = *traces[0];
    let (d, e) = (out.dims(), first.dims());
    assert(d.lookups == e.lookups);
    assert(out.lookups@.len() == d.lookups.len() && first.lookups@.len() == e.lookups.len());
    assert(d.lookups[l] == out.lookups@[l].logup_shape());
    assert(e.lookups[l] == first.lookups@[l].logup_shape());
    let mult = |t: FoldingProverTrace<F>| seq![t.lookups@[l].multiplicities];
    let helpers = |t: FoldingProverTrace<F>| t.lookups@[l].helper_polys@;
    let aggr = |t: FoldingProverTrace<F>| seq![t.lookups@[l].aggregator_poly];
    lemma_lens_by_name(d.lookups[l].helpers, helpers(out), helpers(first));
    assert forall|i: int, m: int|
        0 <= i < helpers(out).len() && 0 <= m < helpers(out)[i].values@.len() implies (
    #[trigger] helpers(out)[i].values@[m]).val() == f(
        across(traces, |t: FoldingProverTrace<F>| helpers(t)[i].values@[m]),
    ) by {
        let c = Coord::Value(Slot::Helper(l, i), m);
        assert(d.lookups[l].helpers[i] == trace::bufs(out.lookups@[l].helper_polys@)[i].len());
        assert(laws::scalars_at(traces, c) =~= across(
            traces,
            |t: FoldingProverTrace<F>| helpers(t)[i].values@[m],
        ));
        assert(out.at(c) == f(laws::scalars_at(traces, c)));
    }
    assert forall|i: int, m: int|
        0 <= i < mult(out).len() && 0 <= m < mult(out)[i].values@.len() implies (
    #[trigger] mult(out)[i].values@[m]).val() == f(
        across(traces, |t: FoldingProverTrace<F>| mult(t)[i].values@[m]),
    ) by {
        let c = Coord::Value(Slot::Multiplicities(l), m);
        assert(laws::scalars_at(traces, c) =~= across(
            traces,
            |t: FoldingProverTrace<F>| mult(t)[i].values@[m],
        ));
        assert(out.at(c) == f(laws::scalars_at(traces, c)));
    }
    assert forall|i: int, m: int|
        0 <= i < aggr(out).len() && 0 <= m < aggr(out)[i].values@.len() implies (
    #[trigger] aggr(out)[i].values@[m]).val() == f(
        across(traces, |t: FoldingProverTrace<F>| aggr(t)[i].values@[m]),
    ) by {
        let c = Coord::Value(Slot::Aggregator(l), m);
        assert(laws::scalars_at(traces, c) =~= across(
            traces,
            |t: FoldingProverTrace<F>| aggr(t)[i].values@[m],
        ));
        assert(out.at(c) == f(laws::scalars_at(traces, c)));
    }
}

// ---------------------------------------------------------------------------
// Folding
// ---------------------------------------------------------------------------

/// Folding at `x`: every scalar of the folded trace is the value at `x` of the
/// polynomial which takes the traces' scalars of that name on the domain.
pub proof fn lemma_folded_by_name<F: PrimeField>(
    traces: Seq<&FoldingProverTrace<F>>,
    folded: FoldingProverTrace<F>,
    k: nat,
    x: int,
)
    requires
        k <= F::two_adicity(),
        traces.len() == pow2(k),
        laws::same_shape(traces),
        batch::compatible(traces),
        batch::folded_at(traces, folded, k, x),
    ensures
        by_name(
            traces,
            folded,
            |a: Seq<int>| roots::interpolate_at(F::modulus(), a, domain::omega::<F>(k), k, x),
        ),
{
    let f = |a: Seq<int>| roots::interpolate_at(F::modulus(), a, domain::omega::<F>(k), k, x);
    lemma_pow2_pos(k);
    trace::lemma_uniform_dims(*traces[0], traces[0].dims().first_len());
    assert forall|c: Coord| folded.dims().has_coord(c) implies #[trigger] folded.at(c) == f(
        laws::scalars_at(traces, c),
    ) by {
        laws::lemma_combination_interpolates(traces, c, k, x);
    }
    lemma_by_name(traces, folded, f);
}

/// Folding traces of one shape gives, in every scalar, the value at gamma of the
/// polynomial through the traces' scalars of that name.
pub proof fn lemma_fold_traces<F: PrimeField>(
    d: EvaluationDomain<F>,
    traces: &[&FoldingProverTrace<F>],
    gamma: F,
    folded: FoldingProverTrace<F>,
)
    requires
        d.wf(),
        traces@.len() == pow2(d.log_n()),
        laws::same_shape(traces@),
        batch::compatible(traces@),
        call_ensures(fold_traces::<F>, (&d, traces, &gamma), folded),
    ensures
        by_name(
            traces@,
            folded,
            |a: Seq<int>|
                roots::interpolate_at(
                    F::modulus(),
                    a,
                    domain::omega::<F>(d.log_n()),
                    d.log_n(),
                    gamma.val(),
                ),
        ),
{
    d.lemma_sizes();
    lemma_folded_by_name(traces@, folded, d.log_n(), gamma.val());
}

/// Both ways of lifting give, for each point of the coset and in every scalar, the
/// value at that point of the polynomial through the traces' scalars of that name.
pub proof fn lemma_batch_traces<F: PrimeField>(
    d: EvaluationDomain<F>,
    traces: &[&FoldingProverTrace<F>],
    fast: Vec<FoldingProverTrace<F>>,
    dense: Vec<FoldingProverTrace<F>>,
    t: int,
)
    requires
        d.wf(),
        traces@.len() == pow2(d.log_n()),
        laws::same_shape(traces@),
        batch::compatible(traces@),
        call_ensures(batch_traces_fft::<F>, (&d, traces), fast),
        call_ensures(batch_traces::<F>, (&d, traces), dense),
        0 <= t < pow2(d.log_ext()),
    ensures
        fast@.len() == pow2(d.log_ext()),
        dense@.len() == pow2(d.log_ext()),
        by_name(
            traces@,
            fast@[t],
            |a: Seq<int>|
                roots::interpolate_at(
                    F::modulus(),
                    a,
                    domain::omega::<F>(d.log_n()),
                    d.log_n(),
                    domain::coset_point::<F>(d.log_ext(), t),
                ),
        ),
        by_name(
            traces@,
            dense@[t],
            |a: Seq<int>|
                roots::interpolate_at(
                    F::modulus(),
                    a,
                    domain::omega::<F>(d.log_n()),
                    d.log_n(),
                    domain::coset_point::<F>(d.log_ext(), t),
                ),
        ),
{
    let (k, e) = (d.log_n(), d.log_ext());
    d.lemma_sizes();
    assert(fast@[t].dims() == traces@[0].dims());
    laws::lemma_lifting_is_folding(traces@, fast@[t], k, e, t);
    lemma_folded_by_name(traces@, fast@[t], k, domain::coset_point::<F>(e, t));
    assert(batch::folded_at(traces@, dense@[t], k, domain::coset_point::<F>(e, t)));
    lemma_folded_by_name(traces@, dense@[t], k, domain::coset_point::<F>(e, t));
}

/// Lifting traces that are compatible but need not be of one shape goes by place: the
/// buffers and challenges of each lifted trace, in the order in which they are listed,
/// hold the values at its point of the polynomials through what the traces hold at the
/// same places.
pub proof fn lemma_batch_by_place<F: PrimeField>(
    d: EvaluationDomain<F>,
    traces: &[&FoldingProverTrace<F>],
    out: Vec<FoldingProverTrace<F>>,
    t: int,
    buffers: Seq<Vec<&[F]>>,
    challenges: Seq<Vec<F>>,
    out_buffers: Vec<&[F]>,
    out_challenges: Vec<F>,
)
    requires
        d.wf(),
        traces@.len() == pow2(d.log_n()),
        batch::compatible(traces@),
        call_ensures(batch_traces_fft::<F>, (&d, traces), out),
        0 <= t < pow2(d.log_ext()),
        buffers.len() == traces@.len(),
        challenges.len() == traces@.len(),
        forall|i: int|
            #![trigger traces@[i]]
            0 <= i < traces@.len() ==> {
                &&& call_ensures(
                    FoldingProverTrace::<F>::poly_values,
                    (traces@[i],),
                    buffers[i],
                )
                &&& call_ensures(
                    FoldingProverTrace::<F>::challenges,
                    (traces@[i],),
                    challenges[i],
                )
            },
        call_ensures(FoldingProverTrace::<F>::poly_values, (&out@[t],), out_buffers),
        call_ensures(FoldingProverTrace::<F>::challenges, (&out@[t],), out_challenges),
    ensures
        ({
            let f = |a: Seq<int>|
                roots::interpolate_at(
                    F::modulus(),
                    a,
                    domain::omega::<F>(d.log_n()),
                    d.log_n(),
                    domain::coset_point::<F>(d.log_ext(), t),
                );
            &&& out_buffers@.len() == buffers[0]@.len()
            &&& forall|p: int, m: int|
                0 <= p < out_buffers@.len() && 0 <= m < out_buffers@[p]@.len() ==> (
                #[trigger] out_buffers@[p]@[m]).val() == f(
                    Seq::new(traces@.len(), |i: int| buffers[i]@[p]@[m].val()),
                )
            &&& out_challenges@.len() == challenges[0]@.len()
            &&& forall|c: int|
                0 <= c < out_challenges@.len() ==> (#[trigger] out_challenges@[c]).val() == f(
                    Seq::new(traces@.len(), |i: int| challenges[i]@[c].val()),
                )
        }),
{
    let (k, e) = (d.log_n(), d.log_ext());
    d.lemma_sizes();
    let o = out@[t];
    assert(batch::slots_lifted(traces@, o, k, e, t));
    assert(batch::challenges_lifted(traces@, o, k, e, t));
    assert(trace::slices(out_buffers@).len() == out_buffers@.len());
    let first = traces@[0];
    assert(trace::slices(buffers[0]@) == first.flat());
    assert(trace::slices(buffers[0]@).len() == buffers[0]@.len());
    assert forall|p: int, m: int|
        0 <= p < out_buffers@.len() && 0 <= m < out_buffers@[p]@.len() implies (
    #[trigger] out_buffers@[p]@[m]).val() == roots::interpolate_at(
        F::modulus(),
        Seq::new(traces@.len(), |i: int| buffers[i]@[p]@[m].val()),
        domain::omega::<F>(k),
        k,
        domain::coset_point::<F>(e, t),
    ) by {
        assert(trace::slices(out_buffers@)[p] == out_buffers@[p]@);
        let a = Seq::new(traces@.len(), |i: int| buffers[i]@[p]@[m].val());
        let b = batch::column_at(batch::slot_of(traces@, p), m);
        assert forall|i: int| 0 <= i < traces@.len() implies a[i] == b[i] by {
            let u = traces@[i];
            assert(u.flat().len() >= first.flat().len());
            assert(trace::slices(buffers[i]@) == u.flat());
            assert(trace::slices(buffers[i]@)[p] == buffers[i]@[p]@);
        }
        assert(a =~= b);
        assert(o.flat()[p][m] == out_buffers@[p]@[m]);
    }
    assert(challenges[0]@ == first.challenge_seq());
    assert forall|c: int| 0 <= c < out_challenges@.len() implies (
    #[trigger] out_challenges@[c]).val() == roots::interpolate_at(
        F::modulus(),
        Seq::new(traces@.len(), |i: int| challenges[i]@[c].val()),
        domain::omega::<F>(k),
        k,
        domain::coset_point::<F>(e, t),
    ) by {
        let a = Seq::new(traces@.len(), |i: int| challenges[i]@[c].val());
        let b = batch::column_at(batch::challenges_of(traces@), c);
        assert forall|i: int| 0 <= i < traces@.len() implies a[i] == b[i] by {
            let u = traces@[i];
            assert(challenges[i]@ == u.challenge_seq());
        }
        assert(a =~= b);
        assert(o.challenge_seq()[c] == out_challenges@[c]);
    }
}

/// The challenges of the first traces are folded by name, and no polynomial changes.
pub proof fn lemma_fold_challenges<F: PrimeField>(
    ct: &ColumnTransform<F>,
    traces: &[&FoldingProverTrace<F>],
    out: &mut [FoldingProverTrace<F>],
    t: int,
    x: int,
)
    requires
        ct.wf(),
        traces@.len() >= pow2(ct.log_n()),
        call_ensures(fold_challenges::<F>, (ct, traces, out), ()),
        forall|i: int|
            0 <= i < pow2(ct.log_n()) ==> {
                &&& (#[trigger] traces@[i]).theta@.len() == old(out)@[t].theta@.len()
                &&& traces@[i].y@.len() == old(out)@[t].y@.len()
            },
        0 <= t < old(out)@.len(),
        t < pow2(ct.log_ext()),
        x == domain::coset_point::<F>(ct.log_ext(), t),
    ensures
        final(out)@.len() == old(out)@.len(),
        ({
            let first = traces@.take(pow2(ct.log_n()) as int);
            let f = |a: Seq<int>|
                roots::interpolate_at(
                    F::modulus(),
                    a,
                    domain::omega::<F>(ct.log_n()),
                    ct.log_n(),
                    x,
                );
            let (before, after) = (old(out)@[t], final(out)@[t]);
            &&& after.beta.val() == f(across(first, |u: FoldingProverTrace<F>| u.beta))
            &&& after.gamma.val() == f(across(first, |u: FoldingProverTrace<F>| u.gamma))
            &&& after.trash_challenge.val() == f(
                across(first, |u: FoldingProverTrace<F>| u.trash_challenge),
            )
            &&& after.theta@.len() == before.theta@.len()
            &&& forall|i: int|
                0 <= i < after.theta@.len() ==> (#[trigger] after.theta@[i]).val() == f(
                    across(first, |u: FoldingProverTrace<F>| u.theta@[i]),
                )
            &&& after.y@.len() == before.y@.len()
            &&& forall|i: int|
                0 <= i < after.y@.len() ==> (#[trigger] after.y@[i]).val() == f(
                    across(first, |u: FoldingProverTrace<F>| u.y@[i]),
                )
            &&& after.advice_polys == before.advice_polys
            &&& after.instance_polys == before.instance_polys
            &&& after.lookups == before.lookups
            &&& after.trash_polys == before.trash_polys
            &&& after.perm_polys == before.perm_polys
        }),
{
    let (k, e) = (ct.log_n(), ct.log_ext());
    let first = traces@.take(pow2(k) as int);
    let after = final(out)@[t];
    let cs = batch::challenges_of(first);
    ct.lemma_sizes();
    trace::lemma_challenge_order(after);
    assert(after.dims().theta == old(out)@[t].dims().theta);
    assert(after.dims().y == old(out)@[t].dims().y);
    assert forall|i: int| 0 <= i < first.len() implies {
        &&& #[trigger] first[i] == traces@[i]
        &&& first[i].theta@.len() == after.theta@.len()
        &&& first[i].y@.len() == after.y@.len()
    } by {
        assert(traces@[i].theta@.len() == old(out)@[t].theta@.len());
    }
    let (nt, ny) = (after.theta@.len() as int, after.y@.len() as int);
    assert forall|i: int| 0 <= i < first.len() implies {
        &&& (#[trigger] cs[i])[0] == first[i].beta
        &&& cs[i][1] == first[i].gamma
        &&& cs[i][2 + nt] == first[i].trash_challenge
    } by {
        trace::lemma_challenge_order(*first[i]);
    }
    assert(batch::column_at(cs, 0) =~= across(first, |u: FoldingProverTrace<F>| u.beta));
    assert(batch::column_at(cs, 1) =~= across(first, |u: FoldingProverTrace<F>| u.gamma));
    assert(batch::column_at(cs, 2 + nt) =~= across(
        first,
        |u: FoldingProverTrace<F>| u.trash_challenge,
    ));
    assert(after.challenge_seq()[0].val() == after.beta.val());
    assert(after.challenge_seq()[1].val() == after.gamma.val());
    assert(after.challenge_seq()[2 + nt].val() == after.trash_challenge.val());
    assert forall|i: int| 0 <= i < nt implies (#[trigger] after.theta@[i]).val()
        == roots::interpolate_at(
        F::modulus(),
        across(first, |u: FoldingProverTrace<F>| u.theta@[i]),
        domain::omega::<F>(k),
        k,
        x,
    ) by {
        let a = across(first, |u: FoldingProverTrace<F>| u.theta@[i]);
        assert forall|j: int| 0 <= j < first.len() implies batch::column_at(cs, 2 + i)[j]
            == a[j] by {
            trace::lemma_challenge_order(*first[j]);
            assert(first[j].challenge_seq()[2 + i] == first[j].theta@[i]);
        }
        assert(batch::column_at(cs, 2 + i) =~= a);
        assert(after.challenge_seq()[2 + i].val() == after.theta@[i].val());
    }
    assert forall|i: int| 0 <= i < ny implies (#[trigger] after.y@[i]).val()
        == roots::interpolate_at(
        F::modulus(),
        across(first, |u: FoldingProverTrace<F>| u.y@[i]),
        domain::omega::<F>(k),
        k,
        x,
    ) by {
        let a = across(first, |u: FoldingProverTrace<F>| u.y@[i]);
        assert forall|j: int| 0 <= j < first.len() implies batch::column_at(cs, 3 + nt + i)[j]
            == a[j] by {
            trace::lemma_challenge_order(*first[j]);
            assert(first[j].challenge_seq()[3 + nt + i] == first[j].y@[i]);
        }
        assert(batch::column_at(cs, 3 + nt + i) =~= a);
        assert(after.challenge_seq()[3 + nt + i].val() == after.y@[i].val());
    }
}

/// Traces of one shape whose polynomials all have one length can be batched.
pub proof fn lemma_one_shape_is_compatible<F: PrimeField>(
    traces: &[&FoldingProverTrace<F>],
    n: nat,
    r: bool,
)
    requires
        traces@.len() >= 1,
        laws::same_shape(traces@),
        forall|i: int, s: Slot|
            0 <= i < traces@.len() && (#[trigger] traces@[i]).dims().has_slot(s)
                ==> (#[trigger] traces@[i].buffer(s)).len() == n,
        call_ensures(traces_compatible::<F>, (traces,), r),
    ensures
        r,
{
    lemma_compatible(traces@, n);
}

/// Traces of one shape whose polynomials all have one length are compatible.
pub(crate) proof fn lemma_compatible<F: PrimeField>(
    traces: Seq<&FoldingProverTrace<F>>,
    n: nat,
)
    requires
        traces.len() >= 1,
        laws::same_shape(traces),
        forall|i: int, s: Slot|
            0 <= i < traces.len() && (#[trigger] traces[i]).dims().has_slot(s)
                ==> (#[trigger] traces[i].buffer(s)).len() == n,
    ensures
        batch::compatible(traces),
{
    let d = traces[0].dims();
    let lens = d.lens();
    assert forall|s: Slot| d.has_slot(s) implies #[trigger] d.slot_len(s) == n by {
        trace::lemma_index_of(*traces[0], s);
        assert(traces[0].buffer(s).len() == n);
    }
    lemma_lens_all(d, n);
    assert forall|i: int| 0 <= i < traces.len() implies {
        &&& (#[trigger] traces[i]).flat().len() == traces[0].flat().len()
        &&& traces[i].challenge_seq().len() == traces[0].challenge_seq().len()
        &&& traces[i].dims() == d
        &&& trace::lens_of(traces[i].flat()) == lens
    } by {
        trace::lemma_flat_lens(*traces[i]);
        trace::lemma_flat_lens(*traces[0]);
        trace::lemma_challenge_order(*traces[i]);
        trace::lemma_challenge_order(*traces[0]);
        assert(trace::lens_of(traces[i].flat()).len() == traces[i].flat().len());
        assert(trace::lens_of(traces[0].flat()).len() == traces[0].flat().len());
    }
    assert forall|i: int, p: int|
        0 <= i < traces.len() && 0 <= p < traces[0].flat().len() implies (
    #[trigger] traces[i].flat()[p]).len() == d.first_len() by {
        assert(traces[i].dims() == d);
        assert(traces[0].dims() == d);
        assert(trace::lens_of(traces[i].flat())[p] == traces[i].flat()[p].len());
        assert(trace::lens_of(traces[0].flat()).len() == traces[0].flat().len());
        assert(lens[p] == n && lens[0] == n);
    }
}

proof fn lemma_lens_all(d: trace::TraceShape, n: nat)
    requires
        forall|s: Slot| d.has_slot(s) ==> #[trigger] d.slot_len(s) == n,
    ensures
        forall|p: int| 0 <= p < d.lens().len() ==> #[trigger] d.lens()[p] == n,
{
    let c = trace::lookup_lens(d.lookups, d.lookups.len());
    lemma_lookup_lens_all(d, n, d.lookups.len());
    let (n1, n2, n3, n4) = (
        d.advice.len() as int,
        d.advice.len() + d.instance.len() as int,
        d.advice.len() + d.instance.len() + c.len() as int,
        d.advice.len() + d.instance.len() + c.len() + d.trash.len() as int,
    );
    assert forall|p: int| 0 <= p < d.lens().len() implies #[trigger] d.lens()[p] == n by {
        if p < n1 {
            assert(d.slot_len(Slot::Advice(p)) == n);
        } else if p < n2 {
            assert(d.slot_len(Slot::Instance(p - n1)) == n);
        } else if p < n3 {
            assert(c[p - n2] == n);
        } else if p < n4 {
            assert(d.slot_len(Slot::Trash(p - n3)) == n);
        } else {
            assert(d.slot_len(Slot::Perm(p - n4)) == n);
        }
    }
}

proof fn lemma_lookup_lens_all(d: trace::TraceShape, n: nat, m: nat)
    requires
        m <= d.lookups.len(),
        forall|s: Slot| d.has_slot(s) ==> #[trigger] d.slot_len(s) == n,
    ensures
        forall|p: int|
            0 <= p < trace::lookup_lens(d.lookups, m).len() ==> #[trigger] trace::lookup_lens(
                d.lookups,
                m,
            )[p] == n,
    decreases m,
{
    if m > 0 {
        lemma_lookup_lens_all(d, n, (m - 1) as nat);
        let head = trace::lookup_lens(d.lookups, (m - 1) as nat);
        let all = trace::lookup_lens(d.lookups, m);
        let l = d.lookups[m - 1];
        assert forall|p: int| 0 <= p < all.len() implies #[trigger] all[p] == n by {
            if p < head.len() {
                assert(all[p] == head[p]);
            } else {
                let q = p - head.len();
                assert(all[p] == l.lens()[q]);
                if q == 0 {
                    assert(d.slot_len(Slot::Multiplicities(m - 1)) == n);
                } else if q < 1 + l.helpers.len() {
                    assert(d.slot_len(Slot::Helper(m - 1, q - 1)) == n);
                } else {
                    assert(d.slot_len(Slot::Aggregator(m - 1)) == n);
                }
            }
        }
    }
}

// ---------------------------------------------------------------------------
// Arithmetic of traces
// ---------------------------------------------------------------------------

/// Adding two traces of one shape adds every scalar to the one of its name.
pub proof fn lemma_add_by_name<F: PrimeField>(
    a: FoldingProverTrace<F>,
    b: FoldingProverTrace<F>,
    r: FoldingProverTrace<F>,
)
    requires
        a.dims() == b.dims(),
        call_ensures(<FoldingProverTrace<F> as LinearSpace<F>>::add, (a, &b), r),
    ensures
        by_name(seq![&a, &b], r, |s: Seq<int>| (s[0] + s[1]) % F::modulus()),
{
    let traces = seq![&a, &b];
    let f = |s: Seq<int>| (s[0] + s[1]) % F::modulus();
    assert forall|c: Coord| r.dims().has_coord(c) implies #[trigger] r.at(c) == f(
        laws::scalars_at(traces, c),
    ) by {
        assert(laws::scalars_at(traces, c)[0] == a.at(c));
        assert(laws::scalars_at(traces, c)[1] == b.at(c));
    }
    lemma_by_name(traces, r, f);
}

/// Scaling a trace scales every scalar.
pub proof fn lemma_mul_by_name<F: PrimeField>(
    a: FoldingProverTrace<F>,
    s: F,
    r: FoldingProverTrace<F>,
)
    requires
        call_ensures(<FoldingProverTrace<F> as LinearSpace<F>>::mul, (a, s), r),
    ensures
        by_name(seq![&a], r, |v: Seq<int>| (v[0] * s.val()) % F::modulus()),
{
    let traces = seq![&a];
    let f = |v: Seq<int>| (v[0] * s.val()) % F::modulus();
    assert forall|c: Coord| r.dims().has_coord(c) implies #[trigger] r.at(c) == f(
        laws::scalars_at(traces, c),
    ) by {
        assert(laws::scalars_at(traces, c)[0] == a.at(c));
    }
    lemma_by_name(traces, r, f);
}

/// The zero trace has every polynomial and challenge of the other, all zero.
pub proof fn lemma_zero_like_by_name<F: PrimeField>(
    other: FoldingProverTrace<F>,
    r: FoldingProverTrace<F>,
)
    requires
        forall|i: int|
            0 <= i < other.flat().len() ==> (#[trigger] other.flat()[i]).len()
                == other.dims().first_len(),
        call_ensures(FoldingProverTrace::<F>::zero_like, (&other,), r),
    ensures
        by_name(seq![&other], r, |v: Seq<int>| 0int),
{
    trace::lemma_uniform_dims(other, other.dims().first_len());
    lemma_by_name(seq![&other], r, |v: Seq<int>| 0int);
}

/// A linear combination of traces of one shape combines every scalar with those of
/// its name, whatever the buffer held.
pub proof fn lemma_linear_combination_by_name<F: PrimeField>(
    buffer: FoldingProverTrace<F>,
    elements: &[&FoldingProverTrace<F>],
    scalars: &[F],
    r: FoldingProverTrace<F>,
)
    requires
        elements@.len() == scalars@.len(),
        elements@.len() >= 1,
        laws::same_shape(elements@),
        buffer.dims() == elements@[0].dims(),
        call_ensures(
            linear_combination::<F, FoldingProverTrace<F>>,
            (buffer, elements, scalars),
            r,
        ),
    ensures
        by_name(
            elements@,
            r,
            |v: Seq<int>|
                zp::sum(scalars@.len() as int, |i: int| scalars@[i].val() * v[i]) % F::modulus(),
        ),
{
    let f = |v: Seq<int>|
        zp::sum(scalars@.len() as int, |i: int| scalars@[i].val() * v[i]) % F::modulus();
    assert forall|c: Coord| r.dims().has_coord(c) implies #[trigger] r.at(c) == f(
        laws::scalars_at(elements@, c),
    ) by {
        let v = laws::scalars_at(elements@, c);
        let sv = field::vals(scalars@);
        let g = |i: int| sv[i] * combine::at_or_zero::<F, FoldingProverTrace<F>>(*elements@[i], c);
        let h = |i: int| scalars@[i].val() * v[i];
        assert forall|i: int| 0 <= i < scalars@.len() implies #[trigger] g(i) == h(i) by {
            assert(elements@[i].dims() == elements@[0].dims());
        }
        zp::lemma_sum_same(scalars@.len() as int, g, h);
    }
    lemma_by_name(elements@, r, f);
}

/// A linear combination of field elements.
pub proof fn lemma_linear_combination_of_elements(
    buffer: Fq,
    elements: &[&Fq],
    scalars: &[Fq],
    r: Fq,
)
    requires
        elements@.len() == scalars@.len(),
        call_ensures(linear_combination::<Fq, Fq>, (buffer, elements, scalars), r),
    ensures
        r.val() == zp::sum(
            scalars@.len() as int,
            |i: int| scalars@[i].val() * elements@[i].val(),
        ) % Fq::modulus(),
{
    let sv = field::vals(scalars@);
    let g = |i: int| sv[i] * combine::at_or_zero::<Fq, Fq>(*elements@[i], ());
    let h = |i: int| scalars@[i].val() * elements@[i].val();
    assert(r.at(()) == combine::combination::<Fq, Fq>(elements@, sv, ()));
    zp::lemma_sum_same(scalars@.len() as int, g, h);
}

/// The subset products double with each entry: those with the entry are those
/// without it times the entry, and the empty product is one.
pub proof fn lemma_pow_vec_doubles<F: PrimeField>(vector: &[F], r: Vec<F>, i: int, m: nat)
    requires
        call_ensures(pow_vec::<F>, (vector,), r),
        m < vector@.len(),
        0 <= i < pow2(m),
    ensures
        r@.len() == pow2(vector@.len()),
        r@[0].val() == 1,
        i + pow2(m) < r@.len(),
        r@[i + pow2(m)].val() == (r@[i].val() * vector@[m as int].val()) % F::modulus(),
{
    let p = F::modulus();
    let v = field::vals(vector@);
    let n = vector@.len();
    F::lemma_modulus();
    lemma_pow2_pos(n);
    combine::lemma_subset_products(v, i, m, n);
    combine::lemma_empty_product(v, n);
    zp::lemma_small(p, 1);
    lemma_pow2_unfold((m + 1) as nat);
    if m + 1 < n {
        lemma_pow2_strictly_increases((m + 1) as nat, n);
    }
    let a = combine::subset_product(v, i, n);
    zp::lemma_reduce(p, a);
    zp::lemma_eqm_mul(p, a % p, a, v[m as int], v[m as int]);
    assert(r@[0].val() == combine::subset_product(v, 0, n) % p);
    assert(r@[i].val() == a % p);
    assert(r@[i + pow2(m)].val() == combine::subset_product(v, i + pow2(m), n) % p);
}

/// The Lagrange basis at beta evaluates polynomials from their values: combining the
/// values that a polynomial of at most `n` coefficients takes on the domain gives its
/// value at beta.
pub proof fn lemma_lagrange_evaluates<F: PrimeField>(
    d: EvaluationDomain<F>,
    beta: F,
    basis: Vec<F>,
    c: Seq<int>,
    a: Seq<int>,
)
    requires
        d.wf(),
        call_ensures(eval_lagrange_on_beta::<F>, (&d, &beta), basis),
        c.len() <= pow2(d.log_n()),
        a.len() == pow2(d.log_n()),
        transforms::on_points::<F>(c, a, d.log_n()),
    ensures
        basis@.len() == pow2(d.log_n()),
        zp::sum(a.len() as int, |i: int| basis@[i].val() * a[i]) % F::modulus()
            == roots::poly_eval(F::modulus(), c, beta.val()),
{
    let p = F::modulus();
    let k = d.log_n();
    let w = domain::omega::<F>(k);
    F::lemma_modulus();
    d.lemma_sizes();
    transforms::lemma_value_of_interpolant::<F>(c, a, k, beta.val());
    interpolation::lemma_interpolation_is_lagrange(p, a, w, k, beta.val());
    let f = |i: int| basis@[i].val() * a[i];
    let g = |i: int| roots::lagrange(p, w, k, i, beta.val()) * a[i];
    zp::lemma_sum_same(a.len() as int, f, g);
}

// ---------------------------------------------------------------------------
// Canonical order
// ---------------------------------------------------------------------------

/// Where the polynomials of lookup `l` begin: behind the advice and instance
/// columns, and behind the helpers and the two further polynomials of each lookup
/// before it.
pub open spec fn lookup_start<F>(t: FoldingProverTrace<F>, l: int) -> int {
    t.advice_polys@.len() + t.instance_polys@.len() + zp::sum(
        l,
        |i: int| t.lookups@[i].helper_polys@.len() + 2int,
    )
}

/// `v` lists the polynomials of `t` as advice, instance, then for each lookup its
/// multiplicities, helpers and aggregator, then trash, then permutation.
pub open spec fn in_order<F>(t: FoldingProverTrace<F>, v: Seq<Seq<F>>) -> bool {
    let a = t.advice_polys@.len() as int;
    let b = lookup_start(t, t.lookups@.len() as int);
    let c = b + t.trash_polys@.len();
    &&& v.len() == c + t.perm_polys@.len()
    &&& forall|i: int| 0 <= i < a ==> v[i] == (#[trigger] t.advice_polys@[i]).values@
    &&& forall|i: int|
        0 <= i < t.instance_polys@.len() ==> v[a + i] == (#[trigger] t.instance_polys@[i]).values@
    &&& forall|l: int|
        0 <= l < t.lookups@.len() ==> {
            let s = lookup_start(t, l);
            let u = #[trigger] t.lookups@[l];
            &&& v[s] == u.multiplicities.values@
            &&& forall|h: int|
                0 <= h < u.helper_polys@.len() ==> v[s + 1 + h] == (
                #[trigger] u.helper_polys@[h]).values@
            &&& v[s + 1 + u.helper_polys@.len()] == u.aggregator_poly.values@
        }
    &&& forall|i: int|
        0 <= i < t.trash_polys@.len() ==> v[b + i] == (#[trigger] t.trash_polys@[i]).values@
    &&& forall|i: int|
        0 <= i < t.perm_polys@.len() ==> v[c + i] == (#[trigger] t.perm_polys@[i]).values@
}

proof fn lemma_lookup_start<F>(t: FoldingProverTrace<F>, l: nat)
    requires
        l <= t.lookups@.len(),
    ensures
        trace::lookup_lens(t.dims().lookups, l).len() == zp::sum(
            l as int,
            |i: int| t.lookups@[i].helper_polys@.len() + 2int,
        ),
    decreases l,
{
    if l > 0 {
        lemma_lookup_start(t, (l - 1) as nat);
        let u = t.lookups@[l - 1];
        assert(t.dims().lookups[l - 1] == u.logup_shape());
        assert(u.logup_shape().helpers.len() == u.helper_polys@.len());
    }
}

/// The flat list of buffers is in canonical order.
pub(crate) proof fn lemma_flat_in_order<F>(t: FoldingProverTrace<F>)
    ensures
        in_order(t, t.flat()),
{
    let d = t.dims();
    let n = t.lookups@.len();
    lemma_lookup_start(t, n);
    trace::lemma_flat_lens(t);
    assert(trace::lens_of(t.flat()).len() == t.flat().len());
    assert(d.advice.len() == t.advice_polys@.len());
    assert(d.instance.len() == t.instance_polys@.len());
    assert(d.trash.len() == t.trash_polys@.len());
    assert(d.perm.len() == t.perm_polys@.len());
    assert(d.lookups.len() == n);
    assert forall|i: int| 0 <= i < t.advice_polys@.len() implies t.flat()[i] == (
    #[trigger] t.advice_polys@[i]).values@ by {
        trace::lemma_index_of(t, Slot::Advice(i));
    }
    assert forall|i: int| 0 <= i < t.instance_polys@.len() implies t.flat()[t.advice_polys@.len()
        + i] == (#[trigger] t.instance_polys@[i]).values@ by {
        trace::lemma_index_of(t, Slot::Instance(i));
    }
    assert forall|l: int| 0 <= l < n implies {
        let s = lookup_start(t, l);
        let u = #[trigger] t.lookups@[l];
        &&& t.flat()[s] == u.multiplicities.values@
        &&& forall|h: int|
            0 <= h < u.helper_polys@.len() ==> t.flat()[s + 1 + h] == (
            #[trigger] u.helper_polys@[h]).values@
        &&& t.flat()[s + 1 + u.helper_polys@.len()] == u.aggregator_poly.values@
    } by {
        let s = lookup_start(t, l);
        let u = t.lookups@[l];
        lemma_lookup_start(t, l as nat);
        assert(d.lookups[l] == u.logup_shape());
        assert(u.logup_shape().helpers.len() == u.helper_polys@.len());
        trace::lemma_index_of(t, Slot::Multiplicities(l));
        trace::lemma_index_of(t, Slot::Aggregator(l));
        assert forall|h: int| 0 <= h < u.helper_polys@.len() implies t.flat()[s + 1 + h] == (
        #[trigger] u.helper_polys@[h]).values@ by {
            trace::lemma_index_of(t, Slot::Helper(l, h));
        }
    }
    let b = lookup_start(t, n as int);
    assert forall|i: int| 0 <= i < t.trash_polys@.len() implies t.flat()[b + i] == (
    #[trigger] t.trash_polys@[i]).values@ by {
        trace::lemma_index_of(t, Slot::Trash(i));
    }
    assert forall|i: int| 0 <= i < t.perm_polys@.len() implies t.flat()[b + t.trash_polys@.len()
        + i] == (#[trigger] t.perm_polys@[i]).values@ by {
        trace::lemma_index_of(t, Slot::Perm(i));
    }
}

/// The buffers are listed in canonical order, for reading.
pub proof fn lemma_poly_values_order<F: PrimeField>(t: FoldingProverTrace<F>, v: Vec<&[F]>)
    requires
        call_ensures(FoldingProverTrace::<F>::poly_values, (&t,), v),
    ensures
        in_order(t, trace::slices(v@)),
{
    lemma_flat_in_order(t);
}

/// The buffers are listed in canonical order for writing too: what they held and
/// what is written to them are the polynomials before and after.
pub proof fn lemma_poly_values_mut_order<F: PrimeField>(
    t: &mut FoldingProverTrace<F>,
    v: Vec<&mut [F]>,
    before: Seq<Seq<F>>,
    after: Seq<Seq<F>>,
)
    requires
        call_ensures(FoldingProverTrace::<F>::poly_values_mut, (t,), v),
        before == Seq::new(v@.len(), |i: int| v@[i]@),
        after == Seq::new(v@.len(), |i: int| final(v@[i])@),
    ensures
        in_order(*old(t), before),
        in_order(*final(t), after),
        final(t).beta == old(t).beta,
        final(t).gamma == old(t).gamma,
        final(t).theta == old(t).theta,
        final(t).trash_challenge == old(t).trash_challenge,
        final(t).y == old(t).y,
{
    lemma_flat_in_order(*old(t));
    lemma_flat_in_order(*final(t));
    assert(before =~= old(t).flat());
    assert(after =~= final(t).flat());
}

/// The challenges are listed as beta, gamma, theta, trash challenge, y.
pub proof fn lemma_challenges_order<F: PrimeField>(t: FoldingProverTrace<F>, v: Vec<F>)
    requires
        call_ensures(FoldingProverTrace::<F>::challenges, (&t,), v),
    ensures
        v@ == seq![t.beta, t.gamma] + t.theta@ + seq![t.trash_challenge] + t.y@,
{
    trace::lemma_challenge_order(t);
    let w = seq![t.beta, t.gamma] + t.theta@ + seq![t.trash_challenge] + t.y@;
    let nt = t.theta@.len() as int;
    assert forall|i: int| 0 <= i < w.len() implies v@[i] == w[i] by {
        if 2 <= i < 2 + nt {
            assert(t.challenge_seq()[2 + (i - 2)] == t.theta@[i - 2]);
        } else if i > 2 + nt {
            assert(t.challenge_seq()[3 + nt + (i - 3 - nt)] == t.y@[i - 3 - nt]);
        }
    }
    assert(v@ =~= w);
}

/// Setting challenges puts each at its name, in the order in which they are listed,
/// and changes nothing else.
pub proof fn lemma_set_challenges_order<F: PrimeField>(t: &mut FoldingProverTrace<F>, c: &[F])
    requires
        c@.len() == 3 + old(t).theta@.len() + old(t).y@.len(),
        call_ensures(FoldingProverTrace::<F>::set_challenges, (t, c), ()),
    ensures
        final(t).beta == c@[0],
        final(t).gamma == c@[1],
        final(t).theta@ == c@.subrange(2, 2 + old(t).theta@.len() as int),
        final(t).trash_challenge == c@[2 + old(t).theta@.len() as int],
        final(t).y@ == c@.subrange(3 + old(t).theta@.len() as int, c@.len() as int),
        final(t).advice_polys == old(t).advice_polys,
        final(t).instance_polys == old(t).instance_polys,
        final(t).lookups == old(t).lookups,
        final(t).trash_polys == old(t).trash_polys,
        final(t).perm_polys == old(t).perm_polys,
{
    let after = *final(t);
    trace::lemma_challenge_order(after);
    assert(after.dims().theta == old(t).dims().theta);
    assert(after.dims().y == old(t).dims().y);
    let nt = after.theta@.len() as int;
    assert forall|i: int| 0 <= i < nt implies after.theta@[i] == c@[2 + i] by {
        assert(after.challenge_seq()[2 + i] == after.theta@[i]);
    }
    assert(after.theta@ =~= c@.subrange(2, 2 + nt));
    assert forall|i: int| 0 <= i < after.y@.len() implies after.y@[i] == c@[3 + nt + i] by {
        assert(after.challenge_seq()[3 + nt + i] == after.y@[i]);
    }
    assert(after.y@ =~= c@.subrange(3 + nt, c@.len() as int));
}

// ---------------------------------------------------------------------------
// Traces of different shapes
// ---------------------------------------------------------------------------

/// The polynomials that `polys` picks of `r` are those of `a` with those of `b` added,
/// entry by entry, wherever `b` has the entry.
pub open spec fn polys_added<F: PrimeField>(
    a: Seq<Polynomial<F, LagrangeCoeff>>,
    b: Seq<Polynomial<F, LagrangeCoeff>>,
    r: Seq<Polynomial<F, LagrangeCoeff>>,
) -> bool {
    &&& r.len() == a.len()
    &&& forall|i: int| 0 <= i < r.len() ==> (#[trigger] r[i]).values@.len() == a[i].values@.len()
    &&& forall|i: int, m: int|
        0 <= i < r.len() && 0 <= m < r[i].values@.len() ==> (#[trigger] r[i].values@[m]).val()
            == if i < b.len() && m < b[i].values@.len() {
            (a[i].values@[m].val() + b[i].values@[m].val()) % F::modulus()
        } else {
            a[i].values@[m].val()
        }
}

/// Adding a trace of another shape keeps the polynomials and challenges of the first,
/// and adds to them what the other has at the same places.
pub proof fn lemma_add_other_shape<F: PrimeField>(
    a: FoldingProverTrace<F>,
    b: FoldingProverTrace<F>,
    r: FoldingProverTrace<F>,
)
    requires
        call_ensures(<FoldingProverTrace<F> as LinearSpace<F>>::add, (a, &b), r),
    ensures
        polys_added(a.advice_polys@, b.advice_polys@, r.advice_polys@),
        polys_added(a.instance_polys@, b.instance_polys@, r.instance_polys@),
        polys_added(a.trash_polys@, b.trash_polys@, r.trash_polys@),
        polys_added(a.perm_polys@, b.perm_polys@, r.perm_polys@),
        r.lookups@.len() == a.lookups@.len(),
        r.theta@.len() == a.theta@.len(),
        forall|i: int|
            0 <= i < r.theta@.len() ==> (#[trigger] r.theta@[i]).val() == if i < b.theta@.len() {
                (a.theta@[i].val() + b.theta@[i].val()) % F::modulus()
            } else {
                a.theta@[i].val()
            },
        r.y@.len() == a.y@.len(),
        forall|i: int|
            0 <= i < r.y@.len() ==> (#[trigger] r.y@[i]).val() == if i < b.y@.len() {
                (a.y@[i].val() + b.y@[i].val()) % F::modulus()
            } else {
                a.y@[i].val()
            },
        r.beta.val() == (a.beta.val() + b.beta.val()) % F::modulus(),
        r.gamma.val() == (a.gamma.val() + b.gamma.val()) % F::modulus(),
        r.trash_challenge.val() == (a.trash_challenge.val() + b.trash_challenge.val())
            % F::modulus(),
{
    let (d, e) = (r.dims(), b.dims());
    let o = a.dims();
    assert(d == o);
    assert(d.advice == o.advice && d.instance == o.instance && d.trash == o.trash && d.perm
        == o.perm);
    lemma_lens_by_name(d.advice, r.advice_polys@, a.advice_polys@);
    lemma_lens_by_name(d.instance, r.instance_polys@, a.instance_polys@);
    lemma_lens_by_name(d.trash, r.trash_polys@, a.trash_polys@);
    lemma_lens_by_name(d.perm, r.perm_polys@, a.perm_polys@);
    assert(r.lookups@.len() == d.lookups.len() && a.lookups@.len() == o.lookups.len());
    assert forall|i: int, m: int|
        0 <= i < r.advice_polys@.len() && 0 <= m < r.advice_polys@[i].values@.len() implies (
    #[trigger] r.advice_polys@[i].values@[m]).val() == if i < b.advice_polys@.len() && m
        < b.advice_polys@[i].values@.len() {
        (a.advice_polys@[i].values@[m].val() + b.advice_polys@[i].values@[m].val()) % F::modulus()
    } else {
        a.advice_polys@[i].values@[m].val()
    } by {
        let c = Coord::Value(Slot::Advice(i), m);
        assert(d.has_coord(c));
        assert(r.at(c) == r.advice_polys@[i].values@[m].val());
    }
    assert forall|i: int, m: int|
        0 <= i < r.instance_polys@.len() && 0 <= m < r.instance_polys@[i].values@.len() implies (
    #[trigger] r.instance_polys@[i].values@[m]).val() == if i < b.instance_polys@.len() && m
        < b.instance_polys@[i].values@.len() {
        (a.instance_polys@[i].values@[m].val() + b.instance_polys@[i].values@[m].val())
            % F::modulus()
    } else {
        a.instance_polys@[i].values@[m].val()
    } by {
        let c = Coord::Value(Slot::Instance(i), m);
        assert(d.has_coord(c));
        assert(r.at(c) == r.instance_polys@[i].values@[m].val());
    }
    assert forall|i: int, m: int|
        0 <= i < r.trash_polys@.len() && 0 <= m < r.trash_polys@[i].values@.len() implies (
    #[trigger] r.trash_polys@[i].values@[m]).val() == if i < b.trash_polys@.len() && m
        < b.trash_polys@[i].values@.len() {
        (a.trash_polys@[i].values@[m].val() + b.trash_polys@[i].values@[m].val()) % F::modulus()
    } else {
        a.trash_polys@[i].values@[m].val()
    } by {
        let c = Coord::Value(Slot::Trash(i), m);
        assert(d.has_coord(c));
        assert(r.at(c) == r.trash_polys@[i].values@[m].val());
    }
    assert forall|i: int, m: int|
        0 <= i < r.perm_polys@.len() && 0 <= m < r.perm_polys@[i].values@.len() implies (
    #[trigger] r.perm_polys@[i].values@[m]).val() == if i < b.perm_polys@.len() && m
        < b.perm_polys@[i].values@.len() {
        (a.perm_polys@[i].values@[m].val() + b.perm_polys@[i].values@[m].val()) % F::modulus()
    } else {
        a.perm_polys@[i].values@[m].val()
    } by {
        let c = Coord::Value(Slot::Perm(i), m);
        assert(d.has_coord(c));
        assert(r.at(c) == r.perm_polys@[i].values@[m].val());
    }
    assert forall|i: int| 0 <= i < r.theta@.len() implies (#[trigger] r.theta@[i]).val() == if i
        < b.theta@.len() {
        (a.theta@[i].val() + b.theta@[i].val()) % F::modulus()
    } else {
        a.theta@[i].val()
    } by {
        assert(d.has_coord(Coord::Theta(i)));
        assert(r.at(Coord::Theta(i)) == r.theta@[i].val());
    }
    assert forall|i: int| 0 <= i < r.y@.len() implies (#[trigger] r.y@[i]).val() == if i
        < b.y@.len() {
        (a.y@[i].val() + b.y@[i].val()) % F::modulus()
    } else {
        a.y@[i].val()
    } by {
        assert(d.has_coord(Coord::Y(i)));
        assert(r.at(Coord::Y(i)) == r.y@[i].val());
    }
    assert(r.at(Coord::Beta) == r.beta.val());
    assert(r.at(Coord::Gamma) == r.gamma.val());
    assert(r.at(Coord::TrashChallenge) == r.trash_challenge.val());
}

// ---------------------------------------------------------------------------
// Blocks
// ---------------------------------------------------------------------------

/// Every coordinate of a row lies in exactly one block, at its distance from where the
/// block begins; what it held is there, and what is written there ends up in the row.
pub proof fn lemma_blocks_cover<'a, F>(
    rows: Vec<&'a mut [F]>,
    len: usize,
    block: usize,
    split: Vec<(usize, Vec<&'a mut [F]>)>,
    r: int,
    m: int,
)
    requires
        block > 0,
        call_ensures(split_into_blocks::<F>, (rows, len, block), split),
        0 <= r < rows@.len(),
        0 <= m < len,
        len <= rows@[r]@.len(),
        forall|b: int|
            0 <= b < split@.len() ==> final((#[trigger] split@[b]).1@[r])@.len()
                == split@[b].1@[r]@.len(),
    ensures
        ({
            let b = m / block as int;
            &&& 0 <= b < split@.len()
            &&& split@[b].1@.len() == rows@.len()
            &&& split@[b].0 <= m < split@[b].0 + split@[b].1@[r]@.len()
            &&& split@[b].1@[r]@[m - split@[b].0] == rows@[r]@[m]
            &&& final(rows@[r])@.len() == rows@[r]@.len()
            &&& final(rows@[r])@[m] == final(split@[b].1@[r])@[m - split@[b].0]
            &&& forall|c: int|
                0 <= c < split@.len() && (#[trigger] split@[c]).0 <= m < split@[c].0
                    + split@[c].1@[r]@.len() ==> c == b
        }),
{
    let (n, s) = (len as int, block as int);
    let b = m / s;
    batch::lemma_block_of(n, s, m);
    assert forall|c: int| 0 <= c < split@.len() implies final((#[trigger] split@[c]).1@[r])@.len()
        == blocks::block_end(n, s, c) - c * s by {
        batch::lemma_block_bounds(n, s, c);
        assert(split@[c].1@[r]@ == rows@[r]@.subrange(c * s, blocks::block_end(n, s, c)));
    }
    assert(split@[b].1@[r]@ == rows@[r]@.subrange(b * s, blocks::block_end(n, s, b)));
    batch::lemma_block_bounds(n, s, b);
    assert(final(split@[b].1@[r])@ == final(rows@[r])@.subrange(
        b * s,
        blocks::block_end(n, s, b),
    ));
    assert forall|c: int|
        0 <= c < split@.len() && (#[trigger] split@[c]).0 <= m < split@[c].0
            + split@[c].1@[r]@.len() implies c == b by {
        batch::lemma_block_bounds(n, s, c);
        assert(split@[c].1@[r]@ == rows@[r]@.subrange(c * s, blocks::block_end(n, s, c)));
        assert((c + 1) * s == c * s + s) by (nonlinear_arith);
        vstd::arithmetic::div_mod::lemma_fundamental_div_mod_converse(m, s, c, m - c * s);
    }
}

/// The blocks have as many coordinates as fit the target size in all rows, and at
/// least one.
pub proof fn lemma_block_size<F>(ext_len: usize, r: usize)
    requires
        ext_len > 0,
        vstd::layout::size_of::<F>() > 0,
        call_ensures(block_size::<F>, (ext_len,), r),
    ensures
        ({
            let row = ext_len * vstd::layout::size_of::<F>();
            &&& r >= 1
            &&& r > 1 ==> r * row <= blocks::BLOCK_TARGET_BYTES
            &&& (r + 1) * row > blocks::BLOCK_TARGET_BYTES
        }),
{
    let row = ext_len * vstd::layout::size_of::<F>();
    let t = blocks::BLOCK_TARGET_BYTES as int;
    assert(row > 0) by (nonlinear_arith)
        requires
            ext_len > 0,
            vstd::layout::size_of::<F>() > 0,
            row == ext_len * vstd::layout::size_of::<F>(),
    ;
    vstd::arithmetic::div_mod::lemma_fundamental_div_mod(t, row);
    vstd::arithmetic::div_mod::lemma_mod_bound(t, row);
    let q = t / row;
    let rr = r as int;
    assert((q + 1) * row > t) by (nonlinear_arith)
        requires
            t == row * q + t % row,
            t % row < row,
    ;
    assert(q * row <= t) by (nonlinear_arith)
        requires
            t == row * q + t % row,
            t % row >= 0,
    ;
    if rr > q {
        assert((rr + 1) * row >= (q + 1) * row) by (nonlinear_arith)
            requires
                rr > q,
                row > 0,
        ;
    }
}

/// The buffers are regrouped in canonical order: those at place `t` of each group are
/// the polynomials of trace `t`, before and after.
pub proof fn lemma_regrouped_in_order<'a, F: PrimeField>(
    out: &'a mut [FoldingProverTrace<F>],
    n_slots: usize,
    groups: Vec<Vec<&'a mut [F]>>,
    t: int,
    before: Seq<Seq<F>>,
    after: Seq<Seq<F>>,
)
    requires
        forall|u: int|
            0 <= u < old(out)@.len() ==> (#[trigger] old(out)@[u]).flat().len() == n_slots,
        call_ensures(regroup_by_slot::<F>, (out, n_slots), groups),
        0 <= t < old(out)@.len(),
        before == Seq::new(groups@.len(), |p: int| groups@[p]@[t]@),
        after == Seq::new(groups@.len(), |p: int| final(groups@[p]@[t])@),
    ensures
        groups@.len() == n_slots,
        in_order(old(out)@[t], before),
        in_order(final(out)@[t], after),
{
    lemma_flat_in_order(old(out)@[t]);
    lemma_flat_in_order(final(out)@[t]);
    assert(old(out)@[t].flat().len() == n_slots);
    assert(trace::same_frame(old(out)@[t], final(out)@[t]));
    assert(before =~= old(out)@[t].flat());
    assert forall|p: int| 0 <= p < n_slots implies after[p] == final(out)@[t].flat()[p] by {
        assert(final(out)@[t].flat()[p] == final(groups@[p]@[t])@);
    }
    assert(after =~= final(out)@[t].flat());
}

/// A block of rows is filled with the interpolants' values: at coordinate `m` of row
/// `t`, the value at point `t` of the coset of the polynomial through the inputs at
/// coordinate `off + m`.
pub proof fn lemma_block_is_folded<F: PrimeField>(
    ct: &ColumnTransform<F>,
    inputs: &Vec<&[F]>,
    off: usize,
    rows: Vec<&mut [F]>,
    t: int,
    m: int,
    c: Seq<int>,
)
    requires
        ct.wf(),
        inputs@.len() == pow2(ct.log_n()),
        call_ensures(fold_block::<F>, (ct, inputs, off, rows), ()),
        0 <= t < rows@.len(),
        0 <= m < rows@[t]@.len(),
        c.len() <= pow2(ct.log_n()),
        transforms::on_points::<F>(
            c,
            Seq::new(inputs@.len(), |i: int| inputs@[i]@[off + m].val()),
            ct.log_n(),
        ),
    ensures
        final(rows@[t])@.len() == rows@[t]@.len(),
        final(rows@[t])@[m].val() == roots::poly_eval(
            F::modulus(),
            c,
            F::zeta_val() * zp::pw(domain::omega::<F>(ct.log_ext()), t),
        ),
{
    let a = Seq::new(inputs@.len(), |i: int| inputs@[i]@[off + m].val());
    let args = (ct, inputs, off, rows);
    assert(call_ensures(fold_block::<F>, args, ()));
    assert(args.3@[t] == rows@[t]);
    ct.lemma_sizes();
    assert(batch::column_at(trace::slices(inputs@), off + m) =~= a);
    transforms::lemma_value_of_interpolant::<F>(
        c,
        a,
        ct.log_n(),
        domain::coset_point::<F>(ct.log_ext(), t),
    );
    transforms::lemma_coset_eval::<F>(c, ct.log_ext(), t);
    assert(final(rows@[t])@[m].val() == column::lifted::<F>(a, ct.log_n(), ct.log_ext(), t));
}

/// Traces can be batched exactly if each has at least as many buffers and challenges as
/// the first, in canonical order, and those buffers are as long as the first of all.
pub proof fn lemma_compatible_buffers<F: PrimeField>(traces: &[&FoldingProverTrace<F>], r: bool)
    requires
        traces@.len() >= 1,
        traces@[0].flat().len() > 0,
        call_ensures(traces_compatible::<F>, (traces,), r),
    ensures
        r <==> {
            &&& forall|i: int|
                0 <= i < traces@.len() ==> {
                    &&& (#[trigger] traces@[i]).flat().len() >= traces@[0].flat().len()
                    &&& traces@[i].challenge_seq().len() >= traces@[0].challenge_seq().len()
                }
            &&& forall|i: int, p: int|
                0 <= i < traces@.len() && 0 <= p < traces@[0].flat().len() ==> (
                #[trigger] traces@[i].flat()[p]).len() == traces@[0].flat()[0].len()
        },
{
    let first = *traces@[0];
    trace::lemma_flat_lens(first);
    assert(trace::lens_of(first.flat()).len() == first.flat().len());
    assert(trace::lens_of(first.flat())[0] == first.flat()[0].len());
    assert(first.dims().first_len() == first.flat()[0].len());
}

/// Folding any number of traces up to the domain's size, of one shape: every scalar of
/// the result is the sum of the traces' scalars of that name, each times the value at
/// the point of the Lagrange polynomial of the trace's place.
pub proof fn lemma_fold_some_traces<F: PrimeField>(
    d: EvaluationDomain<F>,
    traces: &[&FoldingProverTrace<F>],
    gamma: F,
    folded: FoldingProverTrace<F>,
    dense: Vec<FoldingProverTrace<F>>,
    t: int,
)
    requires
        d.wf(),
        1 <= traces@.len() <= pow2(d.log_n()),
        laws::same_shape(traces@),
        forall|i: int|
            0 <= i < traces@[0].flat().len() ==> (#[trigger] traces@[0].flat()[i]).len()
                == traces@[0].dims().first_len(),
        call_ensures(fold_traces::<F>, (&d, traces, &gamma), folded),
        call_ensures(batch_traces::<F>, (&d, traces), dense),
        0 <= t < pow2(d.log_ext()),
    ensures
        dense@.len() == pow2(d.log_ext()),
        by_name(traces@, folded, |a: Seq<int>| lagrange_sum::<F>(a, d.log_n(), gamma.val())),
        by_name(
            traces@,
            dense@[t],
            |a: Seq<int>|
                lagrange_sum::<F>(
                    a,
                    d.log_n(),
                    domain::coset_point::<F>(d.log_ext(), t),
                ),
        ),
{
    lemma_lagrange_sum_by_name(traces@, folded, d.log_n(), gamma.val());
    assert(batch::folded_at(
        traces@,
        dense@[t],
        d.log_n(),
        domain::coset_point::<F>(d.log_ext(), t),
    ));
    lemma_lagrange_sum_by_name(
        traces@,
        dense@[t],
        d.log_n(),
        domain::coset_point::<F>(d.log_ext(), t),
    );
}

/// The sum of the values, each times the value at `x` of the Lagrange polynomial of its
/// place over the domain of size `2^k`.
pub open spec fn lagrange_sum<F: PrimeField>(a: Seq<int>, k: nat, x: int) -> int {
    zp::sum(
        a.len() as int,
        |i: int| roots::lagrange(F::modulus(), domain::omega::<F>(k), k, i, x) * a[i],
    ) % F::modulus()
}

proof fn lemma_lagrange_sum_by_name<F: PrimeField>(
    traces: Seq<&FoldingProverTrace<F>>,
    out: FoldingProverTrace<F>,
    k: nat,
    x: int,
)
    requires
        traces.len() >= 1,
        laws::same_shape(traces),
        forall|i: int|
            0 <= i < traces[0].flat().len() ==> (#[trigger] traces[0].flat()[i]).len()
                == traces[0].dims().first_len(),
        batch::folded_at(traces, out, k, x),
    ensures
        by_name(traces, out, |a: Seq<int>| lagrange_sum::<F>(a, k, x)),
{
    let f = |a: Seq<int>| lagrange_sum::<F>(a, k, x);
    trace::lemma_uniform_dims(*traces[0], traces[0].dims().first_len());
    assert forall|c: Coord| out.dims().has_coord(c) implies #[trigger] out.at(c) == f(
        laws::scalars_at(traces, c),
    ) by {
        let a = laws::scalars_at(traces, c);
        let basis = batch::basis_at::<F>(k, traces.len(), x);
        let g = |i: int|
            basis[i] * combine::at_or_zero::<F, FoldingProverTrace<F>>(*traces[i], c);
        let h = |i: int| roots::lagrange(F::modulus(), domain::omega::<F>(k), k, i, x) * a[i];
        assert forall|i: int| 0 <= i < traces.len() implies #[trigger] g(i) == h(i) by {
            assert(traces[i].dims() == traces[0].dims());
        }
        zp::lemma_sum_same(traces.len() as int, g, h);
    }
    lemma_by_name(traces, out, f);
}

/// The zero trace has as many polynomials and challenges of each kind as the other, and
/// each polynomial has as many entries as the first buffer of the other, all zero.
pub proof fn lemma_zero_like_any<F: PrimeField>(
    other: FoldingProverTrace<F>,
    buffers: Vec<&[F]>,
    r: FoldingProverTrace<F>,
    n: nat,
)
    requires
        call_ensures(FoldingProverTrace::<F>::poly_values, (&other,), buffers),
        n == if buffers@.len() == 0 {
            0
        } else {
            buffers@[0]@.len()
        },
        call_ensures(FoldingProverTrace::<F>::zero_like, (&other,), r),
    ensures
        zero_polys(r.advice_polys@, other.advice_polys@.len(), n),
        zero_polys(r.instance_polys@, other.instance_polys@.len(), n),
        zero_polys(r.trash_polys@, other.trash_polys@.len(), n),
        zero_polys(r.perm_polys@, other.perm_polys@.len(), n),
        r.lookups@.len() == other.lookups@.len(),
        forall|l: int|
            0 <= l < r.lookups@.len() ==> {
                &&& zero_polys(
                    seq![(#[trigger] r.lookups@[l]).multiplicities, r.lookups@[l].aggregator_poly],
                    2,
                    n,
                )
                &&& zero_polys(
                    r.lookups@[l].helper_polys@,
                    other.lookups@[l].helper_polys@.len(),
                    n,
                )
            },
        r.beta.val() == 0,
        r.gamma.val() == 0,
        r.trash_challenge.val() == 0,
        r.theta@.len() == other.theta@.len(),
        forall|i: int| 0 <= i < r.theta@.len() ==> (#[trigger] r.theta@[i]).val() == 0,
        r.y@.len() == other.y@.len(),
        forall|i: int| 0 <= i < r.y@.len() ==> (#[trigger] r.y@[i]).val() == 0,
{
    let d = r.dims();
    let o = other.dims();
    trace::lemma_flat_lens(other);
    assert(trace::lens_of(other.flat()).len() == other.flat().len());
    assert(trace::slices(buffers@).len() == buffers@.len());
    if buffers@.len() > 0 {
        assert(trace::slices(buffers@)[0] == buffers@[0]@);
        assert(trace::lens_of(other.flat())[0] == other.flat()[0].len());
    }
    assert(o.first_len() == n);
    assert(d.advice == trace::all_len(o.advice, n) && d.instance == trace::all_len(o.instance, n)
        && d.trash == trace::all_len(o.trash, n) && d.perm == trace::all_len(o.perm, n));
    lemma_zero_lens(r.advice_polys@, d.advice, n);
    lemma_zero_lens(r.instance_polys@, d.instance, n);
    lemma_zero_lens(r.trash_polys@, d.trash, n);
    lemma_zero_lens(r.perm_polys@, d.perm, n);
    assert(o.advice.len() == other.advice_polys@.len());
    assert(o.instance.len() == other.instance_polys@.len());
    assert(o.trash.len() == other.trash_polys@.len());
    assert(o.perm.len() == other.perm_polys@.len());
    assert forall|i: int, m: int|
        0 <= i < r.advice_polys@.len() && 0 <= m < n implies (
    #[trigger] r.advice_polys@[i].values@[m]).val() == 0 by {
        assert(r.scalar(Coord::Value(Slot::Advice(i), m)) == r.advice_polys@[i].values@[m]);
        assert(d.has_coord(Coord::Value(Slot::Advice(i), m)));
    }
    assert forall|i: int, m: int|
        0 <= i < r.instance_polys@.len() && 0 <= m < n implies (
    #[trigger] r.instance_polys@[i].values@[m]).val() == 0 by {
        assert(r.scalar(Coord::Value(Slot::Instance(i), m)) == r.instance_polys@[i].values@[m]);
        assert(d.has_coord(Coord::Value(Slot::Instance(i), m)));
    }
    assert forall|i: int, m: int|
        0 <= i < r.trash_polys@.len() && 0 <= m < n implies (
    #[trigger] r.trash_polys@[i].values@[m]).val() == 0 by {
        assert(r.scalar(Coord::Value(Slot::Trash(i), m)) == r.trash_polys@[i].values@[m]);
        assert(d.has_coord(Coord::Value(Slot::Trash(i), m)));
    }
    assert forall|i: int, m: int|
        0 <= i < r.perm_polys@.len() && 0 <= m < n implies (
    #[trigger] r.perm_polys@[i].values@[m]).val() == 0 by {
        assert(r.scalar(Coord::Value(Slot::Perm(i), m)) == r.perm_polys@[i].values@[m]);
        assert(d.has_coord(Coord::Value(Slot::Perm(i), m)));
    }
    assert(r.lookups@.len() == d.lookups.len() && other.lookups@.len() == o.lookups.len());
    assert forall|l: int| 0 <= l < r.lookups@.len() implies {
        &&& zero_polys(
            seq![(#[trigger] r.lookups@[l]).multiplicities, r.lookups@[l].aggregator_poly],
            2,
            n,
        )
        &&& zero_polys(r.lookups@[l].helper_polys@, other.lookups@[l].helper_polys@.len(), n)
    } by {
        let u = r.lookups@[l];
        assert(d.lookups[l] == u.logup_shape());
        assert(o.lookups[l] == other.lookups@[l].logup_shape());
        assert(d.lookups[l] == o.lookups[l].with_len(n));
        lemma_zero_lens(u.helper_polys@, d.lookups[l].helpers, n);
        assert(o.lookups[l].helpers.len() == other.lookups@[l].helper_polys@.len());
        assert forall|i: int, m: int|
            0 <= i < u.helper_polys@.len() && 0 <= m < n implies (
        #[trigger] u.helper_polys@[i].values@[m]).val() == 0 by {
            let c = Coord::Value(Slot::Helper(l, i), m);
            assert(r.scalar(c) == u.helper_polys@[i].values@[m]);
            assert(d.has_coord(c));
        }
        let two = seq![u.multiplicities, u.aggregator_poly];
        assert forall|i: int, m: int| 0 <= i < 2 && 0 <= m < n implies (
        #[trigger] two[i].values@[m]).val() == 0 by {
            let c = if i == 0 {
                Coord::Value(Slot::Multiplicities(l), m)
            } else {
                Coord::Value(Slot::Aggregator(l), m)
            };
            assert(r.scalar(c) == two[i].values@[m]);
            assert(d.has_coord(c));
        }
    }
    assert(r.scalar(Coord::Beta) == r.beta && d.has_coord(Coord::Beta));
    assert(r.scalar(Coord::Gamma) == r.gamma && d.has_coord(Coord::Gamma));
    assert(r.scalar(Coord::TrashChallenge) == r.trash_challenge && d.has_coord(
        Coord::TrashChallenge,
    ));
    assert forall|i: int| 0 <= i < r.theta@.len() implies (#[trigger] r.theta@[i]).val() == 0 by {
        assert(r.scalar(Coord::Theta(i)) == r.theta@[i] && d.has_coord(Coord::Theta(i)));
    }
    assert forall|i: int| 0 <= i < r.y@.len() implies (#[trigger] r.y@[i]).val() == 0 by {
        assert(r.scalar(Coord::Y(i)) == r.y@[i] && d.has_coord(Coord::Y(i)));
    }
}

/// There are `count` polynomials of `n` zeros each.
pub open spec fn zero_polys<F: PrimeField>(
    ps: Seq<Polynomial<F, LagrangeCoeff>>,
    count: nat,
    n: nat,
) -> bool {
    &&& ps.len() == count
    &&& forall|i: int| 0 <= i < ps.len() ==> (#[trigger] ps[i]).values@.len() == n
    &&& forall|i: int, m: int|
        0 <= i < ps.len() && 0 <= m < n ==> (#[trigger] ps[i].values@[m]).val() == 0
}

proof fn lemma_zero_lens<F>(ps: Seq<Polynomial<F, LagrangeCoeff>>, lens: Seq<nat>, n: nat)
    requires
        trace::lens_of(trace::bufs(ps)) == lens,
        forall|i: int| 0 <= i < lens.len() ==> lens[i] == n,
    ensures
        ps.len() == lens.len(),
        forall|i: int| 0 <= i < ps.len() ==> (#[trigger] ps[i]).values@.len() == n,
{
    let bs = trace::bufs(ps);
    assert(bs.len() == ps.len() && trace::lens_of(bs).len() == bs.len());
    assert forall|i: int| 0 <= i < ps.len() implies (#[trigger] ps[i]).values@.len() == n by {
        assert(trace::lens_of(bs)[i] == bs[i].len());
        assert(bs[i] == ps[i].values@);
    }
}

} // verus!
