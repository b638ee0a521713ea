//! Properties that relate several operations of the library.
use crate::batch;
use crate::combine;
use crate::combine::LinearSpace;
use crate::domain;
use crate::field;
use crate::field::PrimeField;
use crate::interpolation;
use crate::numerator;
use crate::numerator::{NuContext, NumeratorCommon, NumeratorInputs, ReferenceInputs};
use crate::plonk;
use crate::poly::{LagrangeCoeff, Polynomial};
use crate::prover;
use crate::prover::{Event, FoldError, ProtogalaxyProver, Stage};
use crate::roots;
use crate::trace;
use crate::trace::{Coord, FoldingProverTrace, Slot};
use crate::zp;
use vstd::arithmetic::power2::*;
use vstd::prelude::*;

pub mod forms;
pub mod run;
pub mod traces;
pub mod transforms;

verus! {

// ---------------------------------------------------------------------------
// Folding
// ---------------------------------------------------------------------------

/// All traces have the same shape.
pub open spec fn same_shape<F>(traces: Seq<&FoldingProverTrace<F>>) -> bool {
    forall|i: int| 0 <= i < traces.len() ==> (#[trigger] traces[i]).dims() == traces[0].dims()
}

/// The scalars of the traces at a coordinate.
pub open spec fn scalars_at<F: PrimeField>(
    traces: Seq<&FoldingProverTrace<F>>,
    c: Coord,
) -> Seq<int> {
    Seq::new(traces.len(), |i: int| traces[i].at(c))
}

/// At a coordinate that all traces have, the combination with the Lagrange basis
/// at `x` is the value at `x` of the polynomial that interpolates the traces'
/// scalars over the domain.
pub proof fn lemma_combination_interpolates<F: PrimeField>(
    traces: Seq<&FoldingProverTrace<F>>,
    c: Coord,
    k: nat,
    x: int,
)
    requires
        k <= F::two_adicity(),
        traces.len() == pow2(k),
        same_shape(traces),
        traces[0].dims().has_coord(c),
    ensures
        combine::combination::<F, FoldingProverTrace<F>>(
            traces,
            batch::basis_at::<F>(k, traces.len(), x),
            c,
        ) == roots::interpolate_at(
            F::modulus(),
            scalars_at(traces, c),
            domain::omega::<F>(k),
            k,
            x,
        ),
{
    let p = F::modulus();
    let w = domain::omega::<F>(k);
    let n = traces.len() as int;
    let a = scalars_at(traces, c);
    let basis = batch::basis_at::<F>(k, traces.len(), x);
    F::lemma_modulus();
    interpolation::lemma_interpolation_is_lagrange(p, a, w, k, x);
    let f = |i: int|
        basis[i] * combine::at_or_zero::<F, FoldingProverTrace<F>>(*traces[i], c);
    let g = |i: int| roots::lagrange(p, w, k, i, x) * a[i];
    assert forall|i: int| 0 <= i < n implies #[trigger] f(i) == g(i) by {
        assert(traces[i].dims() == traces[0].dims());
    }
    zp::lemma_sum_same(n, f, g);
}

/// On traces of one shape, lifting to a point of the coset is folding there.
pub proof fn lemma_lifting_is_folding<F: PrimeField>(
    traces: Seq<&FoldingProverTrace<F>>,
    out: FoldingProverTrace<F>,
    k: nat,
    e: nat,
    t: int,
)
    requires
        k <= F::two_adicity(),
        traces.len() == pow2(k),
        same_shape(traces),
        batch::compatible(traces),
        out.dims() == traces[0].dims(),
        batch::slots_lifted(traces, out, k, e, t),
        batch::challenges_lifted(traces, out, k, e, t),
    ensures
        batch::folded_at(traces, out, k, domain::coset_point::<F>(e, t)),
{
    let x = domain::coset_point::<F>(e, t);
    let d = traces[0].dims();
    let basis = batch::basis_at::<F>(k, traces.len(), x);
    lemma_pow2_pos(k);
    trace::lemma_uniform_dims(*traces[0], d.first_len());
    assert forall|c: Coord| out.dims().has_coord(c) implies #[trigger] out.at(c)
        == combine::combination::<F, FoldingProverTrace<F>>(traces, basis, c) by {
        lemma_combination_interpolates(traces, c, k, x);
        let a = scalars_at(traces, c);
        match c {
            Coord::Value(s, m) => {
                let p = d.index_of(s);
                trace::lemma_index_of(out, s);
                let b = batch::column_at(batch::slot_of(traces, p), m);
                assert forall|i: int| 0 <= i < traces.len() implies a[i] == b[i] by {
                    assert(traces[i].dims() == d);
                    trace::lemma_index_of(*traces[i], s);
                }
                assert(a =~= b);
                assert(out.flat()[p][m] == out.scalar(c));
            },
            _ => {
                let j = challenge_index(d, c);
                let b = batch::column_at(batch::challenges_of(traces), j);
                lemma_challenge_index(out, c);
                assert forall|i: int| 0 <= i < traces.len() implies a[i] == b[i] by {
                    assert(traces[i].dims() == d);
                    lemma_challenge_index(*traces[i], c);
                }
                assert(a =~= b);
            },
        }
    }
}

/// On traces of one shape, batching by columns and dense batching give the same
/// trace at every point of the coset.
pub proof fn lemma_batches_agree<F: PrimeField>(
    traces: Seq<&FoldingProverTrace<F>>,
    fast: FoldingProverTrace<F>,
    dense: FoldingProverTrace<F>,
    k: nat,
    e: nat,
    t: int,
)
    requires
        k <= F::two_adicity(),
        traces.len() == pow2(k),
        same_shape(traces),
        batch::compatible(traces),
        fast.dims() == traces[0].dims(),
        batch::slots_lifted(traces, fast, k, e, t),
        batch::challenges_lifted(traces, fast, k, e, t),
        batch::folded_at(traces, dense, k, domain::coset_point::<F>(e, t)),
    ensures
        fast.dims() == dense.dims(),
        forall|c: Coord| fast.dims().has_coord(c) ==> #[trigger] fast.at(c) == dense.at(c),
{
    lemma_lifting_is_folding(traces, fast, k, e, t);
}

/// The place of a challenge in the canonical order.
pub open spec fn challenge_index(d: trace::TraceShape, c: Coord) -> int {
    match c {
        Coord::Beta => 0,
        Coord::Gamma => 1,
        Coord::Theta(i) => 2 + i,
        Coord::TrashChallenge => 2 + d.theta as int,
        Coord::Y(i) => 3 + d.theta + i,
        Coord::Value(_, _) => -1,
    }
}

pub(crate) proof fn lemma_challenge_index<F>(t: FoldingProverTrace<F>, c: Coord)
    requires
        !(c is Value),
        t.dims().has_coord(c),
    ensures
        0 <= challenge_index(t.dims(), c) < t.challenge_seq().len(),
        t.challenge_seq()[challenge_index(t.dims(), c)] == t.scalar(c),
{
    trace::lemma_challenge_order(t);
}

/// Folding at the `i`-th point of the domain gives trace `i` back.
pub proof fn lemma_fold_at_domain_point<F: PrimeField>(
    traces: Seq<&FoldingProverTrace<F>>,
    folded: FoldingProverTrace<F>,
    k: nat,
    x: int,
    i: int,
)
    requires
        k <= F::two_adicity(),
        traces.len() == pow2(k),
        same_shape(traces),
        0 <= i < traces.len(),
        zp::eqm(F::modulus(), x, zp::pw(domain::omega::<F>(k), i)),
        batch::folded_at(traces, folded, k, x),
    ensures
        forall|c: Coord|
            folded.dims().has_coord(c) && traces[i].dims().has_coord(c) ==> #[trigger] folded.at(c)
                == traces[i].at(c),
{
    let p = F::modulus();
    let w = domain::omega::<F>(k);
    F::lemma_modulus();
    domain::lemma_omega::<F>(k);
    assert forall|c: Coord|
        folded.dims().has_coord(c) && traces[i].dims().has_coord(c) implies #[trigger] folded.at(c)
        == traces[i].at(c) by {
        assert(traces[i].dims() == traces[0].dims());
        lemma_combination_interpolates(traces, c, k, x);
        let a = scalars_at(traces, c);
        domain::lemma_eval_eqm(p, roots::interpolate(p, a, w, k), x, zp::pw(w, i));
        interpolation::lemma_interpolates(p, a, w, k, i);
        traces[i].scalar(c).lemma_val();
        zp::lemma_small(p, a[i]);
    }
}

/// Reading the challenges of a trace and setting them again changes no scalar.
pub proof fn lemma_challenges_roundtrip<F>(before: FoldingProverTrace<F>, after: FoldingProverTrace<F>)
    requires
        after.challenge_seq() == before.challenge_seq(),
        after.dims() == before.dims(),
        trace::same_polys(before, after),
    ensures
        forall|c: Coord| before.dims().has_coord(c) ==> #[trigger] after.scalar(c) == before.scalar(c),
{
    assert forall|c: Coord| before.dims().has_coord(c) implies #[trigger] after.scalar(c)
        == before.scalar(c) by {
        if !(c is Value) {
            lemma_challenge_index(before, c);
            lemma_challenge_index(after, c);
        }
    }
}

// ---------------------------------------------------------------------------
// Change of basis
// ---------------------------------------------------------------------------

/// `s[0] vs[0] + s[1] vs[1] + ...`, entry by entry.
pub open spec fn combined(p: int, vs: Seq<Seq<int>>, s: Seq<int>, n: nat) -> Seq<int> {
    Seq::new(n, |j: int| zp::sum(s.len() as int, |i: int| s[i] * vs[i][j]) % p)
}

/// A weighted sum of a combination is the combination of the weighted sums.
proof fn lemma_weighted_sum(
    p: int,
    vs: Seq<Seq<int>>,
    s: Seq<int>,
    n: nat,
    weight: spec_fn(int) -> int,
)
    requires
        p > 1,
    ensures
        zp::eqm(
            p,
            zp::sum(n as int, |j: int| combined(p, vs, s, n)[j] * weight(j)),
            zp::sum(
                s.len() as int,
                |i: int| s[i] * zp::sum(n as int, |j: int| vs[i][j] * weight(j)),
            ),
        ),
{
    let m = s.len() as int;
    let a = combined(p, vs, s, n);
    let f = |j: int| a[j] * weight(j);
    let h = |i: int, j: int| (s[i] * vs[i][j]) * weight(j);
    let inner = |j: int| zp::sum(m, |i: int| h(i, j));
    assert forall|j: int| 0 <= j < n implies zp::eqm(p, #[trigger] f(j), inner(j)) by {
        let term = |i: int| s[i] * vs[i][j];
        let wj = weight(j);
        let scaled = |i: int| wj * term(i);
        let hj = |i: int| h(i, j);
        zp::lemma_sum_scale(m, wj, term);
        assert forall|i: int| 0 <= i < m implies #[trigger] hj(i) == scaled(i) by {
            let x = term(i);
            assert(x * wj == wj * x) by (nonlinear_arith);
        }
        zp::lemma_sum_same(m, hj, scaled);
        let total = zp::sum(m, term);
        zp::lemma_reduce(p, total);
        zp::lemma_eqm_mul(p, a[j], total, wj, wj);
        assert(total * wj == wj * total) by (nonlinear_arith);
    }
    zp::lemma_sum_eqm(p, n as int, f, inner);
    zp::lemma_sum_swap(m, n as int, h);
    let left = |i: int| zp::sum(n as int, |j: int| h(i, j));
    let right = |i: int| s[i] * zp::sum(n as int, |j: int| vs[i][j] * weight(j));
    assert forall|i: int| 0 <= i < m implies #[trigger] left(i) == right(i) by {
        let g = |j: int| vs[i][j] * weight(j);
        let si = s[i];
        let scaled = |j: int| si * g(j);
        let hi = |j: int| h(i, j);
        zp::lemma_sum_scale(n as int, si, g);
        assert forall|j: int| 0 <= j < n implies #[trigger] hi(j) == scaled(j) by {
            let (x, y) = (vs[i][j], weight(j));
            assert((si * x) * y == si * (x * y)) by (nonlinear_arith);
        }
        zp::lemma_sum_same(n as int, hi, scaled);
    }
    zp::lemma_sum_same(m, left, right);
}

/// Evaluating a linear combination of polynomials gives the combination of their
/// values: combining coefficients and then taking values is combining values.
pub proof fn lemma_evaluation_is_linear(
    p: int,
    cs: Seq<Seq<int>>,
    s: Seq<int>,
    n: nat,
    x: int,
)
    requires
        p > 1,
        forall|i: int| 0 <= i < s.len() ==> (#[trigger] cs[i]).len() == n,
    ensures
        roots::poly_eval(p, combined(p, cs, s, n), x) == zp::sum(
            s.len() as int,
            |i: int| s[i] * roots::poly_eval(p, cs[i], x),
        ) % p,
{
    let m = s.len() as int;
    let weight = |j: int| zp::pw(x, j);
    lemma_weighted_sum(p, cs, s, n, weight);
    let a = combined(p, cs, s, n);
    let f = |j: int| a[j] * weight(j);
    let f1 = |j: int| a[j] * zp::pw(x, j);
    zp::lemma_sum_same(n as int, f, f1);
    let left = |i: int| s[i] * zp::sum(n as int, |j: int| cs[i][j] * weight(j));
    let right = |i: int| s[i] * roots::poly_eval(p, cs[i], x);
    assert forall|i: int| 0 <= i < m implies zp::eqm(p, #[trigger] left(i), right(i)) by {
        let g = |j: int| cs[i][j] * weight(j);
        let g1 = |j: int| cs[i][j] * zp::pw(x, j);
        zp::lemma_sum_same(n as int, g, g1);
        assert(cs[i].len() == n);
        let total = zp::sum(n as int, g1);
        zp::lemma_reduce(p, total);
        zp::lemma_eqm_mul(p, s[i], s[i], total, roots::poly_eval(p, cs[i], x));
    }
    zp::lemma_sum_eqm(p, m, left, right);
}

/// Interpolating a linear combination of values gives the combination of the
/// interpolated coefficients: folding and the change of basis commute.
pub proof fn lemma_interpolation_is_linear(
    p: int,
    vs: Seq<Seq<int>>,
    s: Seq<int>,
    n: nat,
    w: int,
    l: nat,
    m: int,
)
    requires
        p > 1,
        forall|i: int| 0 <= i < s.len() ==> (#[trigger] vs[i]).len() == n,
        0 <= m < n,
    ensures
        roots::interpolate(p, combined(p, vs, s, n), w, l)[m] == zp::sum(
            s.len() as int,
            |i: int| s[i] * roots::interpolate(p, vs[i], w, l)[m],
        ) % p,
{
    let v = roots::root_inv(p, w, l);
    let c = roots::size_inv(p, l);
    let k = s.len() as int;
    let weight = |j: int| zp::pw(v, j * m);
    lemma_weighted_sum(p, vs, s, n, weight);
    let a = combined(p, vs, s, n);
    let f = |j: int| a[j] * weight(j);
    let f1 = |j: int| a[j] * zp::pw(v, j * m);
    zp::lemma_sum_same(n as int, f, f1);
    let left = |i: int| s[i] * zp::sum(n as int, |j: int| vs[i][j] * weight(j));
    let right = |i: int| s[i] * roots::interpolate(p, vs[i], w, l)[m];
    let scaled = |i: int| c * left(i);
    zp::lemma_eqm_mul(p, c, c, zp::sum(n as int, f), zp::sum(k, left));
    zp::lemma_sum_scale(k, c, left);
    assert forall|i: int| 0 <= i < k implies zp::eqm(p, #[trigger] scaled(i), right(i)) by {
        let g = |j: int| vs[i][j] * weight(j);
        let g1 = |j: int| vs[i][j] * zp::pw(v, j * m);
        zp::lemma_sum_same(n as int, g, g1);
        assert(vs[i].len() == n);
        let d = roots::dft_at(vs[i], v, m);
        let si = s[i];
        zp::lemma_reduce(p, c * d);
        zp::lemma_eqm_mul(p, si, si, (c * d) % p, c * d);
        assert(c * (si * d) == si * (c * d)) by (nonlinear_arith);
    }
    zp::lemma_sum_eqm(p, k, scaled, right);
}

/// Folding and the change of basis commute: the coefficients of a polynomial of
/// the folded trace are the combination, with the Lagrange basis at `x`, of the
/// coefficients of that polynomial in each trace.
pub proof fn lemma_fold_commutes_with_basis_change<F: PrimeField>(
    traces: Seq<&FoldingProverTrace<F>>,
    folded: FoldingProverTrace<F>,
    dk: nat,
    x: int,
    s: Slot,
    k: nat,
    m: int,
)
    requires
        traces.len() >= 1,
        same_shape(traces),
        batch::folded_at(traces, folded, dk, x),
        folded.dims() == traces[0].dims(),
        folded.dims().has_slot(s),
        folded.dims().slot_len(s) == pow2(k),
        0 <= m < pow2(k),
    ensures
        roots::interpolate(
            F::modulus(),
            field::vals(folded.buffer(s)),
            domain::omega::<F>(k),
            k,
        )[m] == zp::sum(
            traces.len() as int,
            |i: int|
                batch::basis_at::<F>(dk, traces.len(), x)[i] * roots::interpolate(
                    F::modulus(),
                    field::vals(traces[i].buffer(s)),
                    domain::omega::<F>(k),
                    k,
                )[m],
        ) % F::modulus(),
{
    let p = F::modulus();
    let w = domain::omega::<F>(k);
    let n = pow2(k);
    let basis = batch::basis_at::<F>(dk, traces.len(), x);
    let vs = Seq::new(traces.len(), |i: int| field::vals(traces[i].buffer(s)));
    F::lemma_modulus();
    trace::lemma_index_of(folded, s);
    assert forall|i: int| 0 <= i < traces.len() implies (#[trigger] vs[i]).len() == n by {
        assert(traces[i].dims() == traces[0].dims());
        trace::lemma_index_of(*traces[i], s);
    }
    let all = combined(p, vs, basis, n);
    let v = field::vals(folded.buffer(s));
    assert forall|j: int| 0 <= j < n implies v[j] == #[trigger] all[j] by {
        let c = Coord::Value(s, j);
        assert(folded.at(c) == v[j]);
        let f = |i: int|
            basis[i] * combine::at_or_zero::<F, FoldingProverTrace<F>>(*traces[i], c);
        let g = |i: int| basis[i] * vs[i][j];
        assert forall|i: int| 0 <= i < traces.len() implies #[trigger] f(i) == g(i) by {
            assert(traces[i].dims() == traces[0].dims());
            trace::lemma_index_of(*traces[i], s);
        }
        zp::lemma_sum_same(traces.len() as int, f, g);
    }
    assert(v =~= all);
    lemma_interpolation_is_linear(p, vs, basis, n, w, k, m);
    let f = |i: int| basis[i] * roots::interpolate(p, vs[i], w, k)[m];
    let g = |i: int|
        basis[i] * roots::interpolate(p, field::vals(traces[i].buffer(s)), w, k)[m];
    zp::lemma_sum_same(traces.len() as int, f, g);
}

/// Lifting a raw trace and bringing it back to coefficients gives the auxiliary
/// polynomials it came with.
pub proof fn lemma_trace_roundtrip<F: PrimeField>(
    raw: plonk::RawTrace<F>,
    t: FoldingProverTrace<F>,
    back: plonk::ProverTrace<F>,
    k: nat,
)
    requires
        k <= F::two_adicity(),
        raw.sized(pow2(k)),
        raw.lifts_to(t, k),
        back.comes_from(t, k),
    ensures
        trace::bufs(back.instance_values@) == trace::bufs(raw.instance_values@),
        same_vals(plonk::trash_bufs(raw.trashcans@), plonk::trash_bufs(back.trashcans@)),
        same_vals(
            plonk::perm_bufs(raw.permutations.sets@),
            plonk::perm_bufs(back.permutations.sets@),
        ),
        back.lookups@.len() == raw.lookups@.len(),
        forall|l: int|
            0 <= l < raw.lookups@.len() ==> {
                let (a, b) = (raw.lookups@[l], #[trigger] back.lookups@[l]);
                &&& b.multiplicities.vals() == a.multiplicities.vals()
                &&& same_vals(trace::bufs(a.helper_polys@), trace::bufs(b.helper_polys@))
                &&& b.aggregator_poly.vals() == a.aggregator_poly.vals()
            },
{
    lemma_bufs_roundtrip(
        plonk::trash_bufs(raw.trashcans@),
        trace::bufs(t.trash_polys@),
        plonk::trash_bufs(back.trashcans@),
        k,
    );
    lemma_bufs_roundtrip(
        plonk::perm_bufs(raw.permutations.sets@),
        trace::bufs(t.perm_polys@),
        plonk::perm_bufs(back.permutations.sets@),
        k,
    );
    assert forall|l: int| 0 <= l < raw.lookups@.len() implies {
        let (a, b) = (raw.lookups@[l], #[trigger] back.lookups@[l]);
        &&& b.multiplicities.vals() == a.multiplicities.vals()
        &&& same_vals(trace::bufs(a.helper_polys@), trace::bufs(b.helper_polys@))
        &&& b.aggregator_poly.vals() == a.aggregator_poly.vals()
    } by {
        let (a, v, b) = (raw.lookups@[l], t.lookups@[l], back.lookups@[l]);
        assert(a.sized(pow2(k)) && a.has_values(v, k) && b.has_coefficients(v, k));
        plonk::lemma_basis_roundtrip(
            a.multiplicities.values@,
            v.multiplicities.values@,
            b.multiplicities.values@,
            k,
        );
        plonk::lemma_basis_roundtrip(
            a.aggregator_poly.values@,
            v.aggregator_poly.values@,
            b.aggregator_poly.values@,
            k,
        );
        lemma_bufs_roundtrip(
            trace::bufs(a.helper_polys@),
            trace::bufs(v.helper_polys@),
            trace::bufs(b.helper_polys@),
            k,
        );
    }
}

/// The buffers stand for the same integers.
pub open spec fn same_vals<F: PrimeField>(a: Seq<Seq<F>>, b: Seq<Seq<F>>) -> bool {
    &&& a.len() == b.len()
    &&& forall|i: int| 0 <= i < a.len() ==> field::vals(a[i]) == field::vals(#[trigger] b[i])
}

proof fn lemma_bufs_roundtrip<F: PrimeField>(
    cs: Seq<Seq<F>>,
    vs: Seq<Seq<F>>,
    ds: Seq<Seq<F>>,
    k: nat,
)
    requires
        k <= F::two_adicity(),
        plonk::all_of_len(cs, pow2(k)),
        plonk::all_values_of(cs, vs, k),
        plonk::all_coefficients_of(vs, ds, k),
    ensures
        same_vals(cs, ds),
{
    assert forall|i: int| 0 <= i < cs.len() implies field::vals(cs[i]) == field::vals(
        #[trigger] ds[i],
    ) by {
        assert(cs[i].len() == pow2(k));
        assert(plonk::values_of(cs[i], vs[i], k));
        assert(plonk::coefficients_of(vs[i], ds[i], k));
        plonk::lemma_basis_roundtrip(cs[i], vs[i], ds[i], k);
    }
}

// ---------------------------------------------------------------------------
// The coset
// ---------------------------------------------------------------------------

/// The powers of zeta squared undo those of zeta.
proof fn lemma_zeta_cancels<F: PrimeField>(i: int)
    requires
        i >= 0,
    ensures
        zp::eqm(
            F::modulus(),
            zp::pw(F::zeta_val() * F::zeta_val(), i) * zp::pw(F::zeta_val(), i),
            1,
        ),
{
    let p = F::modulus();
    let z = F::zeta_val();
    F::lemma_modulus();
    F::lemma_zeta();
    zp::lemma_pw_mul(z * z, z, i);
    zp::lemma_pw1(z);
    zp::lemma_pw_succ(z, 1);
    zp::lemma_pw_succ(z, 2);
    assert((z * z) * z == zp::pw(z, 3));
    zp::lemma_unit_pow(p, (z * z) * z, i);
}

/// The powers of zeta repeat after three.
pub proof fn lemma_zeta_powers_repeat<F: PrimeField>(i: int)
    requires
        i >= 0,
    ensures
        zp::eqm(F::modulus(), zp::pw(F::zeta_val(), i), zp::pw(F::zeta_val(), i % 3)),
{
    let p = F::modulus();
    let z = F::zeta_val();
    F::lemma_modulus();
    F::lemma_zeta();
    let (a, r) = (i / 3, i % 3);
    zp::lemma_pw_add(z, 3 * a, r);
    zp::lemma_pw_pw(z, 3, a);
    zp::lemma_unit_pow(p, zp::pw(z, 3), a);
    zp::lemma_eqm_mul(p, zp::pw(z, 3 * a), 1, zp::pw(z, r), zp::pw(z, r));
    assert(1 * zp::pw(z, r) == zp::pw(z, r));
}

/// A proper power of a generator is not one.
proof fn lemma_power_is_not_one<F: PrimeField>(e: nat, d: int)
    requires
        e <= F::two_adicity(),
        0 < d < pow2(e),
    ensures
        !zp::eqm(F::modulus(), zp::pw(domain::omega::<F>(e), d), 1),
{
    let p = F::modulus();
    let w = domain::omega::<F>(e);
    let n = pow2(e) as int;
    F::lemma_modulus();
    domain::lemma_omega::<F>(e);
    if zp::eqm(p, zp::pw(w, d), 1) {
        roots::lemma_root_sum(p, w, e, d);
        let f = |j: int| zp::pw(w, d * j);
        let one = |j: int| 1int;
        assert forall|j: int| 0 <= j < n implies zp::eqm(p, #[trigger] f(j), one(j)) by {
            zp::lemma_pw_pw(w, d, j);
            zp::lemma_unit_pow(p, zp::pw(w, d), j);
        }
        zp::lemma_sum_eqm(p, n, f, one);
        zp::lemma_sum_const(n, 1);
        roots::lemma_size_inv(p, e);
        let inv = roots::size_inv(p, e);
        zp::lemma_eqm_mul(p, n, 0, inv, inv);
        assert(0 * inv == 0);
        zp::lemma_small(p, 0);
        zp::lemma_small(p, 1);
        assert(false);
    }
}

/// The points of the coset are distinct, so its translates of the domain are
/// disjoint.
pub proof fn lemma_coset_points_distinct<F: PrimeField>(e: nat, t: int, u: int)
    requires
        e <= F::two_adicity(),
        0 <= t < u < pow2(e),
    ensures
        domain::coset_point::<F>(e, t) != domain::coset_point::<F>(e, u),
{
    let p = F::modulus();
    let z = F::zeta_val();
    let w = domain::omega::<F>(e);
    let v = roots::root_inv(p, w, e);
    let (a, b) = (zp::pw(w, t), zp::pw(w, u));
    F::lemma_modulus();
    domain::lemma_omega::<F>(e);
    roots::lemma_root_inv(p, w, e);
    if domain::coset_point::<F>(e, t) == domain::coset_point::<F>(e, u) {
        lemma_zeta_cancels::<F>(1);
        zp::lemma_pw1(z * z);
        zp::lemma_pw1(z);
        assert((z * z) * z == z * (z * z)) by (nonlinear_arith);
        zp::lemma_cancel(p, z, z * z, a, b);
        let d = u - t;
        zp::lemma_pw_add(w, t, d);
        zp::lemma_inverse_pow(p, w, v, t);
        assert(a * 1 == a);
        zp::lemma_cancel(p, a, zp::pw(v, t), 1, zp::pw(w, d));
        lemma_power_is_not_one::<F>(e, d);
        assert(false);
    }
}

/// The polynomial that interpolates values on the coset takes them there.
pub proof fn lemma_coset_interpolates<F: PrimeField>(a: Seq<int>, e: nat, t: int)
    requires
        e <= F::two_adicity(),
        a.len() == pow2(e),
        0 <= t < a.len(),
    ensures
        roots::poly_eval(
            F::modulus(),
            domain::coset_interpolate::<F>(a, e),
            domain::coset_point::<F>(e, t),
        ) == a[t] % F::modulus(),
{
    let p = F::modulus();
    let z = F::zeta_val();
    let w = domain::omega::<F>(e);
    let wt = zp::pw(w, t);
    let x = domain::coset_point::<F>(e, t);
    let n = a.len() as int;
    let c = roots::interpolate(p, a, w, e);
    let b = domain::coset_interpolate::<F>(a, e);
    F::lemma_modulus();
    domain::lemma_omega::<F>(e);
    let f = |i: int| b[i] * zp::pw(x, i);
    let g = |i: int| c[i] * zp::pw(wt, i);
    assert forall|i: int| 0 <= i < n implies zp::eqm(p, #[trigger] f(i), g(i)) by {
        let (u, v, y) = (zp::pw(z * z, i), zp::pw(z, i), zp::pw(wt, i));
        zp::lemma_reduce(p, c[i] * u);
        zp::lemma_reduce(p, z * wt);
        zp::lemma_eqm_pow(p, x, z * wt, i);
        zp::lemma_pw_mul(z, wt, i);
        zp::lemma_eqm_mul(p, b[i], c[i] * u, zp::pw(x, i), v * y);
        let ci = c[i];
        assert((ci * u) * (v * y) == (u * v) * (ci * y)) by (nonlinear_arith);
        lemma_zeta_cancels::<F>(i);
        zp::lemma_eqm_mul(p, u * v, 1, ci * y, ci * y);
        assert(1 * (ci * y) == ci * y);
    }
    zp::lemma_sum_eqm(p, n, f, g);
    interpolation::lemma_interpolates(p, a, w, e, t);
}

/// Evaluating a polynomial on the coset and interpolating gives its coefficients
/// back, followed by zeros.
pub proof fn lemma_coset_roundtrip<F: PrimeField>(c: Seq<int>, a: Seq<int>, e: nat, i: int)
    requires
        e <= F::two_adicity(),
        c.len() <= pow2(e),
        a.len() == pow2(e),
        forall|t: int|
            0 <= t < a.len() ==> #[trigger] a[t] == roots::poly_eval(
                F::modulus(),
                c,
                domain::coset_point::<F>(e, t),
            ),
        0 <= i < pow2(e),
    ensures
        domain::coset_interpolate::<F>(a, e)[i] == if i < c.len() {
            c[i] % F::modulus()
        } else {
            0
        },
{
    let p = F::modulus();
    let z = F::zeta_val();
    let w = domain::omega::<F>(e);
    let n = pow2(e);
    F::lemma_modulus();
    domain::lemma_omega::<F>(e);
    zp::lemma_small(p, 0);
    let d = Seq::new(
        n,
        |i: int|
            if i < c.len() {
                c[i] * zp::pw(z, i)
            } else {
                0
            },
    );
    let b = Seq::new(d.len(), |t: int| roots::poly_eval(p, d, zp::pw(w, t)));
    assert forall|t: int| 0 <= t < n implies a[t] == #[trigger] b[t] by {
        zp::lemma_reduce(p, z * zp::pw(w, t));
        domain::lemma_twisted_dft(p, c, d, z, w, t, domain::coset_point::<F>(e, t));
        domain::lemma_dft_is_eval(p, d, w, t);
    }
    assert(a =~= b);
    interpolation::lemma_interpolate_unique(p, d, w, e);
    let u = zp::pw(z * z, i);
    assert(roots::interpolate(p, a, w, e)[i] == d[i] % p);
    zp::lemma_reduce(p, d[i]);
    zp::lemma_eqm_mul(p, d[i] % p, d[i], u, u);
    if i < c.len() {
        let (x, v) = (c[i], zp::pw(z, i));
        assert((x * v) * u == x * (u * v)) by (nonlinear_arith);
        lemma_zeta_cancels::<F>(i);
        zp::lemma_eqm_mul(p, x, x, u * v, 1);
        assert(x * 1 == x);
    } else {
        assert(0 * u == 0);
    }
}

/// On the coset, the quotient `K` times the vanishing polynomial is `G`, provided
/// that no coefficient of `K` was cut off.
pub proof fn lemma_k_times_vanishing<F: PrimeField>(
    g: Seq<int>,
    c: Seq<int>,
    k: nat,
    e: nat,
    t: int,
)
    requires
        k <= e <= F::two_adicity(),
        g.len() == pow2(e),
        prover::is_k_poly::<F>(g, c, k, e, pow2(e) as int),
        0 <= t < g.len(),
    ensures
        zp::eqm(
            F::modulus(),
            roots::poly_eval(F::modulus(), c, domain::coset_point::<F>(e, t)) * (zp::pw(
                domain::coset_point::<F>(e, t),
                pow2(k) as int,
            ) - 1),
            g[t],
        ),
{
    let q = choose|q: Seq<int>| #[trigger]
        prover::is_divided::<F>(g, q, k, e) && c == domain::coset_interpolate::<F>(
            q,
            e,
        ).subrange(0, pow2(e) as int);
    assert(c =~= domain::coset_interpolate::<F>(q, e));
    lemma_coset_interpolates::<F>(q, e, t);
    assert(0 <= q[t] < F::modulus());
    zp::lemma_small(F::modulus(), q[t]);
}

/// Whenever `G` is the vanishing polynomial times a polynomial that has at most
/// as many coefficients as are kept, that polynomial is the quotient `K`.
pub proof fn lemma_k_poly_exact<F: PrimeField>(
    g: Seq<int>,
    c: Seq<int>,
    k0: Seq<int>,
    k: nat,
    e: nat,
    count: int,
    i: int,
)
    requires
        k <= e <= F::two_adicity(),
        g.len() == pow2(e),
        k0.len() <= count <= pow2(e),
        prover::is_k_poly::<F>(g, c, k, e, count),
        forall|t: int|
            0 <= t < g.len() ==> zp::eqm(
                F::modulus(),
                roots::poly_eval(F::modulus(), k0, domain::coset_point::<F>(e, t)) * (zp::pw(
                    domain::coset_point::<F>(e, t),
                    pow2(k) as int,
                ) - 1),
                #[trigger] g[t],
            ),
        0 <= i < count,
    ensures
        c.len() == count,
        c[i] == if i < k0.len() {
            k0[i] % F::modulus()
        } else {
            0
        },
{
    let p = F::modulus();
    F::lemma_modulus();
    let q = choose|q: Seq<int>| #[trigger]
        prover::is_divided::<F>(g, q, k, e) && c == domain::coset_interpolate::<F>(
            q,
            e,
        ).subrange(0, count);
    assert forall|t: int| 0 <= t < q.len() implies #[trigger] q[t] == roots::poly_eval(
        p,
        k0,
        domain::coset_point::<F>(e, t),
    ) by {
        let x = domain::coset_point::<F>(e, t);
        let z = zp::pw(x, pow2(k) as int) - 1;
        let v = roots::poly_eval(p, k0, x);
        assert(domain::is_quotient(p, q[t], g[t], z));
        assert(zp::eqm(p, v * z, g[t]));
        let u = choose|u: int| zp::eqm(p, #[trigger] (z * u), 1);
        let qt = q[t];
        assert(z * qt == qt * z && z * v == v * z) by (nonlinear_arith);
        zp::lemma_cancel(p, z, u, qt, v);
        interpolation::lemma_eval_reduced(p, k0, x);
        zp::lemma_small(p, qt);
        zp::lemma_small(p, v);
    }
    lemma_coset_roundtrip::<F>(k0, q, e, i);
}

// ---------------------------------------------------------------------------
// The two ways of evaluating a numerator
// ---------------------------------------------------------------------------

/// The values on the domain of the auxiliary polynomials of a lookup.
#[verifier::ext_equal]
pub struct LookupValues {
    pub multiplicities: Seq<int>,
    pub helpers: Seq<Seq<int>>,
    pub aggregator: Seq<int>,
}

/// The values on the domain of the auxiliary polynomials of a trace.
#[verifier::ext_equal]
pub struct AuxValues {
    pub lookups: Seq<LookupValues>,
    pub trash: Seq<Seq<int>>,
    pub permutations: Seq<Seq<int>>,
}

/// The integers that each buffer stands for.
pub open spec fn all_vals<F: PrimeField>(bs: Seq<Seq<F>>) -> Seq<Seq<int>> {
    Seq::new(bs.len(), |i: int| field::vals(bs[i]))
}

/// The values on the domain of size `2^k` of the polynomial with coefficients `c`.
pub open spec fn on_domain<F: PrimeField>(c: Seq<F>, k: nat) -> Seq<int> {
    Seq::new(
        c.len(),
        |j: int|
            roots::poly_eval(
                F::modulus(),
                field::vals(c),
                zp::pw(domain::omega::<F>(k), j),
            ),
    )
}

/// The values on the domain of each polynomial.
pub open spec fn all_on_domain<F: PrimeField>(cs: Seq<Seq<F>>, k: nat) -> Seq<Seq<int>> {
    Seq::new(cs.len(), |i: int| on_domain(cs[i], k))
}

/// The auxiliary values that the fast evaluation is handed.
pub open spec fn fast_values<F: PrimeField>(inputs: NumeratorInputs<'_, F>) -> AuxValues {
    AuxValues {
        lookups: Seq::new(
            inputs.lookups@.len(),
            |l: int|
                LookupValues {
                    multiplicities: inputs.lookups@[l].multiplicities.vals(),
                    helpers: all_vals(trace::bufs(inputs.lookups@[l].helpers@)),
                    aggregator: inputs.lookups@[l].aggregator.vals(),
                },
        ),
        trash: all_vals(trace::bufs(inputs.trash@)),
        permutations: all_vals(trace::bufs(inputs.permutations@)),
    }
}

/// The auxiliary values that the coefficients handed to the reference evaluation
/// stand for.
pub open spec fn reference_values<F: PrimeField>(
    inputs: ReferenceInputs<'_, F>,
    k: nat,
) -> AuxValues {
    AuxValues {
        lookups: Seq::new(
            inputs.lookups@.len(),
            |l: int|
                LookupValues {
                    multiplicities: on_domain(inputs.lookups@[l].multiplicities.values@, k),
                    helpers: all_on_domain(trace::bufs(inputs.lookups@[l].helper_polys@), k),
                    aggregator: on_domain(inputs.lookups@[l].aggregator_poly.values@, k),
                },
        ),
        trash: all_on_domain(plonk::trash_bufs(inputs.trashcans@), k),
        permutations: all_on_domain(plonk::perm_bufs(inputs.permutations.sets@), k),
    }
}

proof fn lemma_on_domain<F: PrimeField>(v: Seq<F>, c: Seq<F>, k: nat)
    requires
        k <= F::two_adicity(),
        v.len() == pow2(k),
        plonk::coefficients_of(v, c, k),
    ensures
        on_domain(c, k) == field::vals(v),
{
    let p = F::modulus();
    let w = domain::omega::<F>(k);
    F::lemma_modulus();
    domain::lemma_omega::<F>(k);
    assert forall|j: int| 0 <= j < v.len() implies on_domain(c, k)[j] == field::vals(v)[j] by {
        interpolation::lemma_interpolates(p, field::vals(v), w, k, j);
        v[j].lemma_val();
        zp::lemma_small(p, v[j].val());
    }
    assert(on_domain(c, k) =~= field::vals(v));
}

proof fn lemma_all_on_domain<F: PrimeField>(vs: Seq<Seq<F>>, cs: Seq<Seq<F>>, k: nat)
    requires
        k <= F::two_adicity(),
        plonk::all_of_len(vs, pow2(k)),
        plonk::all_coefficients_of(vs, cs, k),
    ensures
        all_on_domain(cs, k) == all_vals(vs),
{
    assert forall|i: int| 0 <= i < vs.len() implies all_on_domain(cs, k)[i] == all_vals(
        vs,
    )[i] by {
        assert(vs[i].len() == pow2(k));
        assert(plonk::coefficients_of(vs[i], cs[i], k));
        lemma_on_domain(vs[i], cs[i], k);
    }
    assert(all_on_domain(cs, k) =~= all_vals(vs));
}

/// The fast and the reference evaluation of a numerator are handed the same key,
/// columns and challenges, and the same auxiliary polynomials; so every
/// evaluation that depends on those polynomials' values on the domain gives the
/// same numerator on both paths.
pub proof fn lemma_reference_agrees<'a, F: PrimeField>(
    ctx: NuContext<'a, F>,
    t: FoldingProverTrace<F>,
    fast: NumeratorInputs<'a, F>,
    reference: ReferenceInputs<'a, F>,
    evaluate: spec_fn(NumeratorCommon<'a, F>, AuxValues) -> Seq<int>,
)
    requires
        ctx.key.domain.wf(),
        plonk::trace_sized(t, pow2(ctx.key.domain.log_n())),
        fast.made_from(ctx, t),
        reference.made_from(ctx, t),
    ensures
        fast.common == reference.common,
        fast_values(fast) == reference_values(reference, ctx.key.domain.log_n()),
        evaluate(fast.common, fast_values(fast)) == evaluate(
            reference.common,
            reference_values(reference, ctx.key.domain.log_n()),
        ),
{
    let k = ctx.key.domain.log_n();
    ctx.key.domain.lemma_sizes();
    let (x, y) = (fast_values(fast), reference_values(reference, k));
    lemma_all_on_domain(
        trace::bufs(t.trash_polys@),
        plonk::trash_bufs(reference.trashcans@),
        k,
    );
    lemma_all_on_domain(
        trace::bufs(t.perm_polys@),
        plonk::perm_bufs(reference.permutations.sets@),
        k,
    );
    assert forall|l: int| 0 <= l < x.lookups.len() implies x.lookups[l] == y.lookups[l] by {
        let (a, c) = (t.lookups@[l], reference.lookups@[l]);
        assert(fast.lookups@[l].helpers == a.helper_polys);
        assert(c.has_coefficients(a, k));
        assert(a.multiplicities.values@.len() == pow2(k));
        lemma_on_domain(a.multiplicities.values@, c.multiplicities.values@, k);
        lemma_on_domain(a.aggregator_poly.values@, c.aggregator_poly.values@, k);
        lemma_all_on_domain(
            trace::bufs(a.helper_polys@),
            trace::bufs(c.helper_polys@),
            k,
        );
    }
    assert(x.lookups =~= y.lookups);
}

// ---------------------------------------------------------------------------
// The prover
// ---------------------------------------------------------------------------

/// Whether an event is the kind of answer that a stage waits for.
pub open spec fn answers<F>(stage: Stage<F>, event: Event<F>) -> bool {
    match stage {
        Stage::Tracing { .. } => event is RawTrace,
        Stage::AwaitingBeta { .. } => event is Challenge,
        Stage::Lifted { .. } => event is Numerators,
        Stage::AwaitingGamma { .. } => event is Challenge,
        Stage::Folded { .. } => event is Numerator,
        Stage::AwaitingNu { .. } => event is Nu,
        Stage::AwaitingX { .. } => event is Challenge,
        Stage::OpeningAll { .. } => event is Opened,
        Stage::Finished { .. } => false,
        _ => event is Done,
    }
}

/// The number of answers that a fold of `nb` instances has taken before it is over.
pub open spec fn answers_taken<F>(stage: Stage<F>, nb: int) -> int {
    match stage {
        Stage::Tracing { traces } => traces@.len() as int,
        Stage::AwaitingBeta { .. } => nb,
        Stage::Lifted { .. } => nb + 1,
        Stage::Quotient { .. } => nb + 2,
        Stage::AwaitingGamma { .. } => nb + 3,
        Stage::Folded { .. } => nb + 4,
        Stage::WritingK { .. } => nb + 5,
        Stage::CommittingError { .. } => nb + 6,
        Stage::AwaitingNu { .. } => nb + 7,
        Stage::Corrected { .. } => nb + 8,
        Stage::AwaitingX { .. } => nb + 9,
        Stage::WritingEvals { .. } => nb + 10,
        Stage::WritingError { .. } => nb + 11,
        Stage::EvaluatingKey { .. } => nb + 12,
        Stage::EvaluatingPermutations { .. } => nb + 13,
        Stage::EvaluatingLookups { written, .. } => nb + 14 + written,
        Stage::EvaluatingTrash { opening, written, .. } => nb + 14 + opening.trace.lookups@.len()
            + written,
        Stage::OpeningAll { opening, .. } => nb + 14 + opening.trace.lookups@.len()
            + opening.trace.trashcans@.len(),
        Stage::Finished { .. } => -1,
    }
}

/// Every answer takes the fold one step further, and nothing else changes it: the
/// opening comes last, after one answer for each instance, lookup and trash
/// argument and fourteen more, and ends the fold.
pub proof fn lemma_fold_progresses<F: PrimeField, const NB_FOLDED: usize>(
    before: ProtogalaxyProver<F, NB_FOLDED>,
    event: Event<F>,
    after: Stage<F>,
)
    requires
        before.wf(),
        before.leads_to(event, after),
    ensures
        !answers(before.current(), event) ==> after == before.current(),
        answers(before.current(), event) && !(before.current() is OpeningAll) ==> {
            &&& !(after is Finished)
            &&& answers_taken(after, NB_FOLDED as int) == answers_taken(
                before.current(),
                NB_FOLDED as int,
            ) + 1
        },
        answers(before.current(), event) && before.current() is OpeningAll ==> after is Finished,
{
    match before.current() {
        Stage::EvaluatingLookups { opening, written, .. } => {
            assert(written < opening.trace.lookups.len());
        },
        Stage::EvaluatingTrash { opening, written, .. } => {
            assert(written < opening.trace.trashcans.len());
        },
        _ => {},
    }
}

/// The fold ends well exactly if the opening did, and with a constraint system
/// failure otherwise.
pub proof fn lemma_fold_result<F: PrimeField, const NB_FOLDED: usize>(
    before: ProtogalaxyProver<F, NB_FOLDED>,
    success: bool,
    after: Stage<F>,
)
    requires
        before.current() is OpeningAll,
        before.leads_to(Event::Opened(success), after),
    ensures
        after matches Stage::Finished { result } && result == (if success {
            Ok::<(), FoldError>(())
        } else {
            Err(FoldError::ConstraintSystemFailure)
        }),
{
}

/// `G`, the inner product of the Lagrange basis at `beta` with the numerator of
/// the traces folded at a point, is everywhere the polynomial with coefficients
/// `k0` times the vanishing polynomial of the folding domain.
///
/// The numerator of a trace is `nu`, by its values on the domain of size `2^k`;
/// the folding domain has size `2^dk`.
pub open spec fn is_quotient_of_g<F: PrimeField>(
    traces: Seq<&FoldingProverTrace<F>>,
    nu: spec_fn(FoldingProverTrace<F>) -> Seq<int>,
    beta: int,
    k: nat,
    dk: nat,
    k0: Seq<int>,
) -> bool {
    forall|t: FoldingProverTrace<F>, x: int| #[trigger]
        batch::folded_at(traces, t, dk, x) ==> zp::eqm(
            F::modulus(),
            numerator::dot(F::modulus(), nu(t), batch::basis_at::<F>(k, pow2(k), beta)),
            roots::poly_eval(F::modulus(), k0, x) * (zp::pw(x, pow2(dk) as int) - 1),
        )
}

/// The Lagrange basis at beta that the prover holds.
proof fn lemma_basis<F: PrimeField>(coeffs: Seq<F>, beta: F, k: nat)
    requires
        prover::is_basis_at(coeffs, beta, k),
    ensures
        field::vals(coeffs) == batch::basis_at::<F>(k, pow2(k), beta.val()),
{
    let b = batch::basis_at::<F>(k, pow2(k), beta.val());
    assert forall|i: int| 0 <= i < coeffs.len() implies field::vals(coeffs)[i] == b[i] by {
        assert(coeffs[i].val() == b[i]);
    }
    assert(field::vals(coeffs) =~= b);
}

/// `E(beta) = G(gamma) = K(gamma) Z(gamma)`: if `G` is `Z` times a polynomial
/// `k0`, then the scalar that is written after the traces are folded at gamma is
/// the value of `k0` at gamma, of whatever degree `k0` is.
pub proof fn lemma_written_is_k_at_gamma<F: PrimeField, const NB_FOLDED: usize>(
    before: ProtogalaxyProver<F, NB_FOLDED>,
    gamma: F,
    folding: ProtogalaxyProver<F, NB_FOLDED>,
    error: Polynomial<F, LagrangeCoeff>,
    after: Stage<F>,
    nu: spec_fn(FoldingProverTrace<F>) -> Seq<int>,
    k0: Seq<int>,
)
    requires
        before.current() is AwaitingGamma,
        before.takes(Event::Challenge(gamma), folding),
        folding.accepts(Event::Numerator(error)),
        folding.leads_to(Event::Numerator(error), after),
        error.vals() == nu(folding.current()->Folded_folded),
        is_quotient_of_g(
            prover::refs(before.current()->AwaitingGamma_traces@),
            nu,
            before.current()->AwaitingGamma_beta_pg.val(),
            before.folding_key().domain.log_n(),
            before.folding_domain().log_n(),
            k0,
        ),
    ensures
        ({
            let p = F::modulus();
            let k = before.folding_key().domain.log_n();
            let beta = before.current()->AwaitingGamma_beta_pg;
            let folded = folding.current()->Folded_folded;
            let e_at_beta = prover::value_at(error.values@, k, beta);
            let k_at_gamma = roots::poly_eval(p, k0, gamma.val());
            &&& e_at_beta == numerator::dot(
                p,
                nu(folded),
                batch::basis_at::<F>(k, pow2(k), beta.val()),
            )
            &&& zp::eqm(
                p,
                e_at_beta,
                k_at_gamma * (zp::pw(gamma.val(), NB_FOLDED as int) - 1),
            )
            &&& after is WritingK
            &&& after->k_at_gamma.val() == k_at_gamma
        }),
{
    let p = F::modulus();
    let k = before.folding_key().domain.log_n();
    F::lemma_modulus();
    before.folding_key().domain.lemma_sizes();
    let traces = prover::refs(before.current()->AwaitingGamma_traces@);
    let beta = before.current()->AwaitingGamma_beta_pg;
    let coeffs = before.current()->AwaitingGamma_beta_coeffs@;
    let folded = folding.current()->Folded_folded;
    let dk = before.folding_domain().log_n();
    lemma_basis(coeffs, beta, k);
    prover::lemma_dot_is_value(error.values@, coeffs, beta, k);
    assert(batch::folded_at(traces, folded, dk, gamma.val()));
    let z = zp::pw(gamma.val(), NB_FOLDED as int) - 1;
    let v = roots::poly_eval(p, k0, gamma.val());
    let r = after->k_at_gamma.val();
    let u = choose|u: int| zp::eqm(p, #[trigger] (z * u), 1);
    assert(z * r == r * z && z * v == v * z) by (nonlinear_arith);
    zp::lemma_cancel(p, z, u, r, v);
    after->k_at_gamma.lemma_val();
    interpolation::lemma_eval_reduced(p, k0, gamma.val());
    zp::lemma_small(p, r);
    zp::lemma_small(p, v);
}

/// Reduced coefficients and zeros behind them do not change a polynomial's values.
pub(crate) proof fn lemma_padded_eval(p: int, c: Seq<int>, d: Seq<int>, x: int)
    requires
        p > 1,
        c.len() <= d.len(),
        forall|i: int|
            0 <= i < d.len() ==> #[trigger] d[i] == if i < c.len() {
                c[i] % p
            } else {
                0
            },
    ensures
        roots::poly_eval(p, d, x) == roots::poly_eval(p, c, x),
{
    let (m, n) = (c.len() as int, d.len() as int);
    let f = |i: int| d[i] * zp::pw(x, i);
    let g = |i: int| c[i] * zp::pw(x, i);
    let rest = |i: int| f(m + i);
    zp::lemma_sum_split(m, n - m, f);
    assert forall|i: int| 0 <= i < n - m implies #[trigger] rest(i) == 0 by {
        assert(d[m + i] == 0);
        assert(0 * zp::pw(x, m + i) == 0);
    }
    let zero = |i: int| 0int;
    zp::lemma_sum_same(n - m, rest, zero);
    zp::lemma_sum_const(n - m, 0);
    assert forall|i: int| 0 <= i < m implies zp::eqm(p, #[trigger] f(i), g(i)) by {
        zp::lemma_reduce(p, c[i]);
        zp::lemma_eqm_mul(p, d[i], c[i], zp::pw(x, i), zp::pw(x, i));
    }
    zp::lemma_sum_eqm(p, m, f, g);
}

/// If all traces have one shape, and `G` is `Z` times a polynomial `k0` that has
/// at most as many coefficients as are kept, then the polynomial that is committed
/// to has the values of `k0`, and the scalar that is written is its value at gamma.
pub proof fn lemma_written_is_committed_at_gamma<F: PrimeField, const NB_FOLDED: usize>(
    traced: ProtogalaxyProver<F, NB_FOLDED>,
    beta: F,
    lifting: ProtogalaxyProver<F, NB_FOLDED>,
    nus: Vec<Polynomial<F, LagrangeCoeff>>,
    quotient: ProtogalaxyProver<F, NB_FOLDED>,
    committed: ProtogalaxyProver<F, NB_FOLDED>,
    gamma: F,
    folding: ProtogalaxyProver<F, NB_FOLDED>,
    error: Polynomial<F, LagrangeCoeff>,
    after: Stage<F>,
    nu: spec_fn(FoldingProverTrace<F>) -> Seq<int>,
    k0: Seq<int>,
)
    requires
        traced.current() is AwaitingBeta,
        same_shape(prover::refs(traced.current()->AwaitingBeta_traces@)),
        traced.takes(Event::Challenge(beta), lifting),
        lifting.takes(Event::Numerators(nus), quotient),
        quotient.takes(Event::Done, committed),
        committed.takes(Event::Challenge(gamma), folding),
        folding.accepts(Event::Numerator(error)),
        folding.leads_to(Event::Numerator(error), after),
        forall|t: int|
            0 <= t < nus@.len() ==> (#[trigger] nus@[t]).vals() == nu(
                lifting.current()->lifted@[t],
            ),
        error.vals() == nu(folding.current()->Folded_folded),
        is_quotient_of_g(
            prover::refs(traced.current()->AwaitingBeta_traces@),
            nu,
            beta.val(),
            traced.folding_key().domain.log_n(),
            traced.folding_domain().log_n(),
            k0,
        ),
        k0.len() <= NB_FOLDED * (traced.folding_key().degree - 1),
    ensures
        quotient.current() is Quotient,
        forall|x: int| #[trigger]
            roots::poly_eval(F::modulus(), quotient.current()->k_poly.vals(), x)
                == roots::poly_eval(F::modulus(), k0, x),
        after is WritingK,
        after->k_at_gamma.val() == roots::poly_eval(
            F::modulus(),
            quotient.current()->k_poly.vals(),
            gamma.val(),
        ),
{
    let p = F::modulus();
    let k = traced.folding_key().domain.log_n();
    let (dk, de) = (traced.folding_domain().log_n(), traced.folding_domain().log_ext());
    let count = NB_FOLDED * (traced.folding_key().degree - 1);
    F::lemma_modulus();
    traced.folding_domain().lemma_sizes();
    let traces = prover::refs(traced.current()->AwaitingBeta_traces@);
    let coeffs = lifting.current()->Lifted_beta_coeffs@;
    let lifted = lifting.current()->lifted@;
    let c = quotient.current()->k_poly.vals();
    lemma_basis(coeffs, beta, k);
    let g = choose|g: Seq<int>| #[trigger]
        prover::is_g(nus@, coeffs, g) && prover::is_k_poly::<F>(g, c, dk, de, count);
    assert forall|t: int| 0 <= t < g.len() implies zp::eqm(
        p,
        roots::poly_eval(p, k0, domain::coset_point::<F>(de, t)) * (zp::pw(
            domain::coset_point::<F>(de, t),
            pow2(dk) as int,
        ) - 1),
        #[trigger] g[t],
    ) by {
        assert(lifted[t].dims() == traces[0].dims());
        lemma_lifting_is_folding(traces, lifted[t], dk, de, t);
        assert(nus@[t].vals() == nu(lifted[t]));
    }
    assert forall|i: int| 0 <= i < count implies c.len() == count && #[trigger] c[i] == if i
        < k0.len() {
        k0[i] % p
    } else {
        0
    } by {
        lemma_k_poly_exact::<F>(g, c, k0, dk, de, count, i);
    }
    assert(c.len() == count);
    assert forall|x: int| #[trigger] roots::poly_eval(p, c, x) == roots::poly_eval(p, k0, x) by {
        lemma_padded_eval(p, k0, c, x);
    }
    lemma_written_is_k_at_gamma(committed, gamma, folding, error, after, nu, k0);
}

/// If the numerator of the folded trace takes the error terms on the domain, then
/// subtracting the error polynomial leaves a polynomial that vanishes there.
pub proof fn lemma_correction_vanishes<F: PrimeField>(
    nu: Seq<int>,
    error: Seq<F>,
    error_coeff: Seq<F>,
    k: nat,
    j: int,
)
    requires
        k <= F::two_adicity(),
        error.len() == pow2(k),
        plonk::coefficients_of(error, error_coeff, k),
        0 <= j < error.len(),
        roots::poly_eval(F::modulus(), nu, zp::pw(domain::omega::<F>(k), j)) == error[j].val(),
    ensures
        roots::poly_eval(F::modulus(), nu, zp::pw(domain::omega::<F>(k), j)) - roots::poly_eval(
            F::modulus(),
            field::vals(error_coeff),
            zp::pw(domain::omega::<F>(k), j),
        ) == 0,
{
    let p = F::modulus();
    let w = domain::omega::<F>(k);
    F::lemma_modulus();
    domain::lemma_omega::<F>(k);
    interpolation::lemma_interpolates(p, field::vals(error), w, k, j);
    error[j].lemma_val();
    zp::lemma_small(p, error[j].val());
}

} // verus!
