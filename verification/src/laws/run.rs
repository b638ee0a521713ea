//! What a whole fold asks for, computes and hands on, answer by answer.
use crate::batch;
use crate::domain;
use crate::domain::EvaluationDomain;
use crate::field;
use crate::field::PrimeField;
use crate::interpolation;
use crate::laws;
use crate::laws::forms;
use crate::laws::traces;
use crate::laws::transforms;
use crate::numerator;
use crate::numerator::FoldingKey;
use crate::plonk;
use crate::plonk::RawTrace;
use crate::poly::{Coeff, ExtendedLagrangeCoeff, LagrangeCoeff, Polynomial};
use crate::prover;
use crate::prover::{
    all_queries, correct_numerator, evaluate_g, k_at_gamma, k_polynomial, Action, Event, FoldError,
    Opening, ProtogalaxyProver, Stage,
};
use crate::roots;
use crate::trace;
use crate::trace::{FoldingProverTrace, Slot};
use crate::zp;
use vstd::arithmetic::power2::*;
use vstd::prelude::*;

verus! {

// ---------------------------------------------------------------------------
// Runs
// ---------------------------------------------------------------------------

/// A fold with `key` from its start: prover `i + 1` and its action are what prover
/// `i` gives for the event `i`.
#[verifier::opaque]
pub open spec fn is_run<F: PrimeField, const NB_FOLDED: usize>(
    key: FoldingKey<F>,
    run: Seq<ProtogalaxyProver<F, NB_FOLDED>>,
    events: Seq<Event<F>>,
    actions: Seq<Action<F>>,
) -> bool {
    &&& run.len() == events.len() + 1
    &&& actions.len() == run.len()
    &&& call_ensures(ProtogalaxyProver::<F, NB_FOLDED>::new, (key,), run[0])
    &&& call_ensures(ProtogalaxyProver::<F, NB_FOLDED>::action, (&run[0],), actions[0])
    &&& forall|i: int|
        #![trigger run[i]]
        0 <= i < events.len() ==> call_ensures(
            ProtogalaxyProver::<F, NB_FOLDED>::fold,
            (run[i], events[i]),
            (run[i + 1], actions[i + 1]),
        )
}

/// The traces that a prover holds before beta.
pub open spec fn held<F>(stage: Stage<F>) -> Seq<FoldingProverTrace<F>> {
    match stage {
        Stage::Tracing { traces } => traces@,
        Stage::AwaitingBeta { traces } => traces@,
        _ => Seq::empty(),
    }
}

/// The number of traces among the first `i` events.
pub open spec fn traces_given<F>(events: Seq<Event<F>>, i: int) -> int
    decreases i,
{
    if i <= 0 {
        0
    } else if events[i - 1] is RawTrace {
        traces_given(events, i - 1) + 1
    } else {
        traces_given(events, i - 1)
    }
}

/// `after` is what `before` becomes with the event.
#[verifier::opaque]
spec fn stepped<F: PrimeField, const NB_FOLDED: usize>(
    before: ProtogalaxyProver<F, NB_FOLDED>,
    event: Event<F>,
    after: ProtogalaxyProver<F, NB_FOLDED>,
) -> bool {
    before.takes(event, after)
}

/// One step of a run.
proof fn lemma_step<F: PrimeField, const NB_FOLDED: usize>(
    key: FoldingKey<F>,
    run: Seq<ProtogalaxyProver<F, NB_FOLDED>>,
    events: Seq<Event<F>>,
    actions: Seq<Action<F>>,
    i: int,
)
    requires
        is_run(key, run, events, actions),
        0 <= i < events.len(),
    ensures
        run.len() == events.len() + 1,
        actions.len() == run.len(),
        stepped(run[i], events[i], run[i + 1]),
        actions[i + 1] == prover::action_of(run[i + 1].current()),
        run[i + 1].folding_key() == run[i].folding_key(),
        run[i + 1].lagrange_key() == run[i].lagrange_key(),
        run[i + 1].folding_domain() == run[i].folding_domain(),
{
    reveal(is_run);
    reveal(stepped);
    assert(call_ensures(
        ProtogalaxyProver::<F, NB_FOLDED>::fold,
        (run[i], events[i]),
        (run[i + 1], actions[i + 1]),
    ));
}

/// A fold keeps its key, its domain and what it derived from them.
pub proof fn lemma_key_is_kept<F: PrimeField, const NB_FOLDED: usize>(
    key: FoldingKey<F>,
    run: Seq<ProtogalaxyProver<F, NB_FOLDED>>,
    events: Seq<Event<F>>,
    actions: Seq<Action<F>>,
    i: int,
    kept: &FoldingKey<F>,
)
    requires
        is_run(key, run, events, actions),
        0 <= i < run.len(),
        call_ensures(ProtogalaxyProver::<F, NB_FOLDED>::key, (&run[i],), kept),
    ensures
        *kept == key,
        run[i].wf(),
        run[i].folding_key() == key,
        run[i].lagrange_key() == run[0].lagrange_key(),
        run[i].folding_domain() == run[0].folding_domain(),
        pow2(run[i].folding_domain().log_n()) == NB_FOLDED,
        run[i].folding_domain().quotient_degree() == key.degree - 1,
{
    lemma_kept(key, run, events, actions, i);
    lemma_wf(key, run, events, actions, i);
}

proof fn lemma_wf<F: PrimeField, const NB_FOLDED: usize>(
    key: FoldingKey<F>,
    run: Seq<ProtogalaxyProver<F, NB_FOLDED>>,
    events: Seq<Event<F>>,
    actions: Seq<Action<F>>,
    i: int,
)
    requires
        is_run(key, run, events, actions),
        0 <= i < run.len(),
    ensures
        run[i].wf(),
{
    reveal(is_run);
    if i > 0 {
        lemma_step(key, run, events, actions, i - 1);
        reveal(stepped);
    }
}

proof fn lemma_kept<F: PrimeField, const NB_FOLDED: usize>(
    key: FoldingKey<F>,
    run: Seq<ProtogalaxyProver<F, NB_FOLDED>>,
    events: Seq<Event<F>>,
    actions: Seq<Action<F>>,
    i: int,
)
    requires
        is_run(key, run, events, actions),
        0 <= i < run.len(),
    ensures
        run.len() == events.len() + 1,
        actions.len() == run.len(),
        run[i].folding_key() == key,
        run[i].lagrange_key() == run[0].lagrange_key(),
        run[i].folding_domain() == run[0].folding_domain(),
        key.domain.wf(),
        run[i].folding_domain().wf(),
        pow2(run[i].folding_domain().log_n()) == NB_FOLDED,
        run[i].folding_domain().quotient_degree() == key.degree - 1,
        actions[i] == prover::action_of(run[i].current()),
    decreases i,
{
    if i > 0 {
        assert(run.len() == events.len() + 1) by {
            reveal(is_run);
        }
        lemma_kept(key, run, events, actions, i - 1);
        lemma_step(key, run, events, actions, i - 1);
    } else {
        reveal(is_run);
    }
}

proof fn lemma_tracing<F: PrimeField, const NB_FOLDED: usize>(
    key: FoldingKey<F>,
    run: Seq<ProtogalaxyProver<F, NB_FOLDED>>,
    events: Seq<Event<F>>,
    actions: Seq<Action<F>>,
    i: int,
)
    requires
        is_run(key, run, events, actions),
        0 <= i < run.len(),
    ensures
        traces_given(events, i) >= 0,
        run[i].current() is Tracing <==> traces_given(events, i) < NB_FOLDED,
        run[i].current() matches Stage::Tracing { traces } ==> traces@.len() == traces_given(
            events,
            i,
        ),
    decreases i,
{
    lemma_kept(key, run, events, actions, i);
    if i == 0 {
        lemma_pow2_pos(run[0].folding_domain().log_n());
        reveal(is_run);
    } else {
        lemma_tracing(key, run, events, actions, i - 1);
        lemma_step(key, run, events, actions, i - 1);
        lemma_trace_step(run[i - 1], events[i - 1], run[i]);
    }
}

/// Only a trace answers a prover that misses some.
proof fn lemma_trace_step<F: PrimeField, const NB_FOLDED: usize>(
    before: ProtogalaxyProver<F, NB_FOLDED>,
    event: Event<F>,
    after: ProtogalaxyProver<F, NB_FOLDED>,
)
    requires
        stepped(before, event, after),
    ensures
        !(before.current() is Tracing) ==> !(after.current() is Tracing),
        before.current() is Tracing && !(event is RawTrace) ==> after.current()
            == before.current(),
        before.current() is Tracing && event is RawTrace ==> {
            let taken = held(before.current()).len() + 1;
            &&& held(before.current()).len() < NB_FOLDED
            &&& held(after.current()).len() == taken
            &&& taken < NB_FOLDED ==> after.current() is Tracing
            &&& taken == NB_FOLDED ==> after.current() is AwaitingBeta
        },
{
    reveal(stepped);
}

/// While traces are missing, the circuit that is asked for is the one whose place is
/// the number of traces given so far, whatever other events came; afterwards none is
/// asked for. So the circuits are traced one after the other, each once.
pub proof fn lemma_circuits_in_order<F: PrimeField, const NB_FOLDED: usize>(
    key: FoldingKey<F>,
    run: Seq<ProtogalaxyProver<F, NB_FOLDED>>,
    events: Seq<Event<F>>,
    actions: Seq<Action<F>>,
    i: int,
    asked: Action<F>,
)
    requires
        is_run(key, run, events, actions),
        0 <= i < run.len(),
        call_ensures(ProtogalaxyProver::<F, NB_FOLDED>::action, (&run[i],), asked),
    ensures
        actions[i] == asked,
        traces_given(events, i) < NB_FOLDED ==> (asked matches Action::ComputeTrace(c) && c
            == traces_given(events, i)),
        traces_given(events, i) >= NB_FOLDED ==> !(asked is ComputeTrace),
{
    lemma_kept(key, run, events, actions, i);
    lemma_tracing(key, run, events, actions, i);
}

// ---------------------------------------------------------------------------
// The pieces
// ---------------------------------------------------------------------------

/// The queries of the folded trace's own proof stay in front, and exactly two come
/// behind them: the error polynomial at the evaluation point, then at beta.
pub proof fn lemma_queries<'a, F: PrimeField>(
    base: Vec<(F, &'a Polynomial<F, Coeff>)>,
    opening: &'a Opening<F>,
    x: F,
    r: Vec<(F, &'a Polynomial<F, Coeff>)>,
)
    requires
        call_ensures(all_queries::<F>, (base, opening, x), r),
    ensures
        r@.len() == base@.len() + 2,
        r@.take(base@.len() as int) == base@,
        r@[base@.len() as int].0 == x,
        *r@[base@.len() as int].1 == opening.error_coeff,
        r@[base@.len() + 1int].0 == opening.beta_pg,
        *r@[base@.len() + 1int].1 == opening.error_coeff,
{
    assert(r@.take(base@.len() as int) =~= base@);
}

/// The difference of two polynomials, one entry for each of `n`.
pub open spec fn difference(p: int, a: Seq<int>, b: Seq<int>, n: nat) -> Seq<int> {
    Seq::new(
        n,
        |i: int|
            ((if i < a.len() {
                a[i]
            } else {
                0
            }) - (if i < b.len() {
                b[i]
            } else {
                0
            })) % p,
    )
}

proof fn lemma_difference(p: int, a: Seq<int>, b: Seq<int>, n: nat, x: int)
    requires
        p > 1,
        a.len() <= n,
        b.len() <= n,
    ensures
        roots::poly_eval(p, difference(p, a, b, n), x) == (roots::poly_eval(p, a, x)
            - roots::poly_eval(p, b, x)) % p,
{
    let u = Seq::new(
        n,
        |i: int|
            if i < a.len() {
                a[i] % p
            } else {
                0
            },
    );
    let v = Seq::new(
        n,
        |i: int|
            if i < b.len() {
                b[i] % p
            } else {
                0
            },
    );
    laws::lemma_padded_eval(p, a, u, x);
    laws::lemma_padded_eval(p, b, v, x);
    let d = difference(p, a, b, n);
    assert forall|i: int| 0 <= i < n implies #[trigger] d[i] == (1 * u[i] + (-1) * v[i]) % p by {
        let s = if i < a.len() {
            a[i]
        } else {
            0
        };
        let t = if i < b.len() {
            b[i]
        } else {
            0
        };
        zp::lemma_reduce(p, s);
        zp::lemma_reduce(p, t);
        zp::lemma_small(p, 0);
        zp::lemma_eqm_sub(p, u[i], s, v[i], t);
    }
    transforms::lemma_eval_combined(p, u, v, d, 1, -1, x);
}

/// The corrected numerator is a polynomial: where the numerator holds the values on
/// the coset of a polynomial `big` of at most as many coefficients as there are
/// points, every such polynomial through the corrected numerator has everywhere the
/// value of `big` minus that of the error polynomial.
pub(crate) proof fn lemma_corrected<F: PrimeField>(
    nu: Seq<F>,
    error_coeff: Seq<F>,
    r: Seq<F>,
    k: nat,
    e: nat,
    big: Seq<int>,
)
    requires
        k <= e <= F::two_adicity(),
        nu.len() == pow2(e),
        error_coeff.len() == pow2(k),
        pow2(k) <= pow2(e),
        prover::is_corrected(nu, error_coeff, r, e),
        big.len() <= pow2(e),
        transforms::on_coset::<F>(big, field::vals(nu), e),
    ensures
        is_difference_on_coset::<F>(big, field::vals(error_coeff), field::vals(r), e),
{
    let p = F::modulus();
    let n = pow2(e);
    let ec = field::vals(error_coeff);
    let d = difference(p, big, ec, n);
    let rv = field::vals(r);
    F::lemma_modulus();
    assert forall|t: int| 0 <= t < rv.len() implies #[trigger] rv[t] == roots::poly_eval(
        p,
        d,
        F::zeta_val() * zp::pw(domain::omega::<F>(e), t),
    ) by {
        let y = F::zeta_val() * zp::pw(domain::omega::<F>(e), t);
        assert(r[t].val() == rv[t]);
        assert(nu[t].val() == field::vals(nu)[t]);
        transforms::lemma_coset_eval::<F>(ec, e, t);
        lemma_difference(p, big, ec, n, y);
    }
    assert forall|c: Seq<int>, x: int|
        c.len() <= n && transforms::on_coset::<F>(c, rv, e) implies #[trigger] roots::poly_eval(
        p,
        c,
        x,
    ) == (roots::poly_eval(p, big, x) - roots::poly_eval(p, ec, x)) % p by {
        transforms::lemma_value_of_coset_interpolant::<F>(c, rv, e, x);
        transforms::lemma_value_of_coset_interpolant::<F>(d, rv, e, x);
        lemma_difference(p, big, ec, n, x);
    }
    assert(transforms::on_coset::<F>(d, rv, e));
}

/// `r` holds one value for each point of the coset; there is a polynomial of at most
/// as many coefficients with these values, and every one has everywhere the value of
/// `a` minus that of `b`.
pub open spec fn is_difference_on_coset<F: PrimeField>(
    a: Seq<int>,
    b: Seq<int>,
    r: Seq<int>,
    e: nat,
) -> bool {
    &&& r.len() == pow2(e)
    &&& exists|c: Seq<int>| c.len() <= pow2(e) && #[trigger] transforms::on_coset::<F>(c, r, e)
    &&& forall|c: Seq<int>, x: int|
        c.len() <= pow2(e) && transforms::on_coset::<F>(c, r, e) ==> #[trigger] roots::poly_eval(
            F::modulus(),
            c,
            x,
        ) == (roots::poly_eval(F::modulus(), a, x) - roots::poly_eval(F::modulus(), b, x))
            % F::modulus()
}

/// Correcting a numerator subtracts the error polynomial from it, on a coset of any
/// size.
pub proof fn lemma_correction_subtracts<F: PrimeField>(
    d: EvaluationDomain<F>,
    nu: Polynomial<F, ExtendedLagrangeCoeff>,
    error_coeff: Polynomial<F, Coeff>,
    r: Polynomial<F, ExtendedLagrangeCoeff>,
    big: Seq<int>,
)
    requires
        d.wf(),
        nu.values@.len() == pow2(d.log_ext()),
        error_coeff.values@.len() == pow2(d.log_n()),
        call_ensures(correct_numerator::<F>, (&d, nu, &error_coeff), r),
        big.len() <= pow2(d.log_ext()),
        transforms::on_coset::<F>(big, nu.vals(), d.log_ext()),
    ensures
        is_difference_on_coset::<F>(big, error_coeff.vals(), r.vals(), d.log_ext()),
{
    d.lemma_sizes();
    lemma_corrected(
        nu.values@,
        error_coeff.values@,
        r.values@,
        d.log_n(),
        d.log_ext(),
        big,
    );
}

/// Where the numerator takes the error terms on the domain, the corrected numerator,
/// brought from the coset to the domain, is zero at every row.
pub proof fn lemma_corrected_vanishes_on_domain<F: PrimeField>(
    d: EvaluationDomain<F>,
    nu: Polynomial<F, ExtendedLagrangeCoeff>,
    error: Polynomial<F, LagrangeCoeff>,
    error_coeff: Polynomial<F, Coeff>,
    corrected: Polynomial<F, ExtendedLagrangeCoeff>,
    rows: Polynomial<F, LagrangeCoeff>,
    big: Seq<int>,
)
    requires
        d.wf(),
        nu.values@.len() == pow2(d.log_ext()),
        error.values@.len() == pow2(d.log_n()),
        call_ensures(EvaluationDomain::<F>::lagrange_to_coeff, (&d, error), error_coeff),
        call_ensures(correct_numerator::<F>, (&d, nu, &error_coeff), corrected),
        call_ensures(EvaluationDomain::<F>::extended_to_lagrange, (&d, corrected), rows),
        big.len() <= pow2(d.log_ext()),
        transforms::on_coset::<F>(big, nu.vals(), d.log_ext()),
        transforms::on_points::<F>(big, error.vals(), d.log_n()),
    ensures
        rows.values@.len() == pow2(d.log_n()),
        forall|j: int| 0 <= j < rows.values@.len() ==> (#[trigger] rows.values@[j]).val() == 0,
{
    let p = F::modulus();
    let (k, e) = (d.log_n(), d.log_ext());
    let w = domain::omega::<F>(k);
    F::lemma_modulus();
    d.lemma_sizes();
    domain::lemma_omega::<F>(k);
    lemma_correction_subtracts(d, nu, error_coeff, corrected, big);
    let c = choose|c: Seq<int>|
        c.len() <= pow2(e) && #[trigger] transforms::on_coset::<F>(c, corrected.vals(), e);
    transforms::lemma_restriction(d, corrected, rows, c);
    assert forall|j: int| 0 <= j < rows.values@.len() implies (#[trigger] rows.values@[j]).val()
        == 0 by {
        let x = zp::pw(w, j);
        assert(rows.vals()[j] == roots::poly_eval(p, c, x));
        assert(error.vals()[j] == roots::poly_eval(p, big, x));
        interpolation::lemma_interpolates(p, error.vals(), w, k, j);
        transforms::lemma_vals_reduced(error.values@, j);
        zp::lemma_small(p, 0);
    }
}

// ---------------------------------------------------------------------------
// The script of a fold
// ---------------------------------------------------------------------------

/// What is answered in a fold.
pub struct Answers<F> {
    pub raws: Seq<RawTrace<F>>,
    pub beta: F,
    pub nus: Vec<Polynomial<F, LagrangeCoeff>>,
    pub gamma: F,
    pub error: Polynomial<F, LagrangeCoeff>,
    pub nu: Polynomial<F, ExtendedLagrangeCoeff>,
    pub x: F,
    pub opened: bool,
}

impl<F> Answers<F> {
    /// The number of answers after the traces: fifteen, and one for each lookup and
    /// each trash argument of the circuit.
    pub open spec fn rest(self) -> int {
        15int + self.raws[0].lookups@.len() + self.raws[0].trashcans@.len()
    }

    /// The answers in order.
    pub open spec fn events(self) -> Seq<Event<F>> {
        let nb = self.raws.len() as int;
        Seq::new(
            (nb + self.rest()) as nat,
            |i: int|
                if i < nb {
                    Event::RawTrace(self.raws[i])
                } else if i == nb {
                    Event::Challenge(self.beta)
                } else if i == nb + 1 {
                    Event::Numerators(self.nus)
                } else if i == nb + 3 {
                    Event::Challenge(self.gamma)
                } else if i == nb + 4 {
                    Event::Numerator(self.error)
                } else if i == nb + 7 {
                    Event::Nu(self.nu)
                } else if i == nb + 9 {
                    Event::Challenge(self.x)
                } else if i == nb + self.rest() - 1 {
                    Event::Opened(self.opened)
                } else {
                    Event::Done
                },
        )
    }
}

/// The raw traces have as many polynomials and challenges of each kind.
pub open spec fn one_circuit<F>(raws: Seq<RawTrace<F>>) -> bool {
    forall|i: int|
        0 <= i < raws.len() ==> {
            &&& (#[trigger] raws[i]).advice_lagrange@.len() == raws[0].advice_lagrange@.len()
            &&& raws[i].instance_values@.len() == raws[0].instance_values@.len()
            &&& raws[i].lookups@.len() == raws[0].lookups@.len()
            &&& forall|l: int|
                0 <= l < raws[0].lookups@.len() ==> (
                #[trigger] raws[i].lookups@[l]).helper_polys@.len()
                    == raws[0].lookups@[l].helper_polys@.len()
            &&& raws[i].trashcans@.len() == raws[0].trashcans@.len()
            &&& raws[i].permutations.sets@.len() == raws[0].permutations.sets@.len()
            &&& raws[i].theta@.len() == raws[0].theta@.len()
            &&& raws[i].y@.len() == raws[0].y@.len()
        }
}

/// A fold of instances of one circuit, all answers given.
pub open spec fn is_script<F: PrimeField, const NB_FOLDED: usize>(
    key: FoldingKey<F>,
    answers: Answers<F>,
    run: Seq<ProtogalaxyProver<F, NB_FOLDED>>,
    actions: Seq<Action<F>>,
) -> bool {
    &&& answers.raws.len() == NB_FOLDED
    &&& one_circuit(answers.raws)
    &&& is_run(key, run, answers.events(), actions)
}

/// The traces of a prover that has all of them.
pub open spec fn taken<F: PrimeField, const NB_FOLDED: usize>(
    run: Seq<ProtogalaxyProver<F, NB_FOLDED>>,
) -> Seq<FoldingProverTrace<F>> {
    held(run[NB_FOLDED as int].current())
}

proof fn lemma_traces_kept<F: PrimeField, const NB_FOLDED: usize>(
    key: FoldingKey<F>,
    answers: Answers<F>,
    run: Seq<ProtogalaxyProver<F, NB_FOLDED>>,
    actions: Seq<Action<F>>,
    i: int,
)
    requires
        is_script(key, answers, run, actions),
        0 <= i <= NB_FOLDED,
    ensures
        i < NB_FOLDED ==> run[i].current() is Tracing,
        i == NB_FOLDED ==> run[i].current() is AwaitingBeta,
        held(run[i].current()).len() == i,
        forall|j: int|
            0 <= j < i ==> {
                &&& forms::same_raw(
                    answers.raws[j],
                    #[trigger] held(run[i].current())[j],
                    key.domain.log_n(),
                )
                &&& plonk::trace_sized(held(run[i].current())[j], pow2(key.domain.log_n()))
            },
    decreases i,
{
    let k = key.domain.log_n();
    let events = answers.events();
    lemma_kept_len(key, run, events, actions);
    lemma_kept(key, run, events, actions, i);
    if i == 0 {
        lemma_pow2_pos(run[0].folding_domain().log_n());
        reveal(is_run);
    } else {
        lemma_traces_kept(key, answers, run, actions, i - 1);
        lemma_kept(key, run, events, actions, i - 1);
        lemma_step(key, run, events, actions, i - 1);
        let raw = answers.raws[i - 1];
        assert(events[i - 1] == Event::RawTrace(raw));
        let before = held(run[i - 1].current());
        let ts = held(run[i].current());
        lemma_trace_taken(run[i - 1], raw, run[i]);
        assert forall|j: int| 0 <= j < i implies {
            &&& forms::same_raw(answers.raws[j], #[trigger] ts[j], k)
            &&& plonk::trace_sized(ts[j], pow2(k))
        } by {
            if j < i - 1 {
                assert(ts[j] == ts.drop_last()[j]);
                assert(ts[j] == before[j]);
            }
        }
    }
}

proof fn lemma_trace_taken<F: PrimeField, const NB_FOLDED: usize>(
    before: ProtogalaxyProver<F, NB_FOLDED>,
    raw: RawTrace<F>,
    after: ProtogalaxyProver<F, NB_FOLDED>,
)
    requires
        before.current() is Tracing,
        stepped(before, Event::RawTrace(raw), after),
    ensures
        held(before.current()).len() + 1 < NB_FOLDED ==> after.current() is Tracing,
        held(before.current()).len() + 1 == NB_FOLDED ==> after.current() is AwaitingBeta,
        held(after.current()).len() == held(before.current()).len() + 1,
        held(after.current()).drop_last() == held(before.current()),
        forms::same_raw(
            raw,
            held(after.current()).last(),
            before.folding_key().domain.log_n(),
        ),
        plonk::trace_sized(
            held(after.current()).last(),
            pow2(before.folding_key().domain.log_n()),
        ),
{
    reveal(stepped);
    let k = before.folding_key().domain.log_n();
    let t = held(after.current()).last();
    assert(raw.lifts_to(t, k));
    forms::lemma_lifts_to(raw, t, k);
    forms::lemma_lifted_is_sized(raw, t, k);
}

/// Trace by trace, the circuits are asked for in order, and once all are there the
/// prover holds the lifted form of each raw trace at its place.
pub proof fn lemma_script_traces<F: PrimeField, const NB_FOLDED: usize>(
    key: FoldingKey<F>,
    answers: Answers<F>,
    run: Seq<ProtogalaxyProver<F, NB_FOLDED>>,
    actions: Seq<Action<F>>,
)
    requires
        is_script(key, answers, run, actions),
    ensures
        forall|i: int|
            0 <= i < NB_FOLDED ==> (#[trigger] actions[i] matches Action::ComputeTrace(c) && c
                == i),
        run[NB_FOLDED as int].current() is AwaitingBeta,
        taken(run).len() == NB_FOLDED,
        forall|i: int|
            0 <= i < NB_FOLDED ==> forms::same_raw(
                answers.raws[i],
                #[trigger] taken(run)[i],
                key.domain.log_n(),
            ),
        laws::same_shape(prover::refs(taken(run))),
{
    lemma_kept_len(key, run, answers.events(), actions);
    lemma_traces_kept(key, answers, run, actions, NB_FOLDED as int);
    assert forall|i: int| 0 <= i < NB_FOLDED implies (
    #[trigger] actions[i] matches Action::ComputeTrace(c) && c == i) by {
        lemma_kept(key, run, answers.events(), actions, i);
        lemma_traces_kept(key, answers, run, actions, i);
        let ts = run[i].current()->Tracing_traces;
        assert(ts.len() == i);
    }
    let ts = held(run[NB_FOLDED as int].current());
    let refs = prover::refs(ts);
    assert forall|i: int| 0 <= i < refs.len() implies (#[trigger] refs[i]).dims()
        == refs[0].dims() by {
        assert(forms::same_raw(answers.raws[i], ts[i], key.domain.log_n()));
        assert(forms::same_raw(answers.raws[0], ts[0], key.domain.log_n()));
        lemma_one_shape(
            answers.raws,
            ts[i],
            ts[0],
            i,
            key.domain.log_n(),
        );
    }
}

proof fn lemma_one_shape<F: PrimeField>(
    raws: Seq<RawTrace<F>>,
    a: FoldingProverTrace<F>,
    b: FoldingProverTrace<F>,
    i: int,
    k: nat,
)
    requires
        one_circuit(raws),
        0 <= i < raws.len(),
        forms::same_raw(raws[i], a, k),
        forms::same_raw(raws[0], b, k),
        plonk::trace_sized(a, pow2(k)),
        plonk::trace_sized(b, pow2(k)),
    ensures
        a.dims() == b.dims(),
{
    reveal(forms::same_raw);
    let n = pow2(k);
    assert(raws[i].lookups@.len() == raws[0].lookups@.len());
    lemma_same_lens(a.advice_polys@, b.advice_polys@, n);
    lemma_same_lens(a.instance_polys@, b.instance_polys@, n);
    lemma_same_lens(a.trash_polys@, b.trash_polys@, n);
    lemma_same_lens(a.perm_polys@, b.perm_polys@, n);
    let (d, e) = (a.dims(), b.dims());
    assert forall|l: int| 0 <= l < d.lookups.len() implies d.lookups[l] == e.lookups[l] by {
        assert(raws[i].lookups@[l].helper_polys@.len() == raws[0].lookups@[l].helper_polys@.len());
        assert(forms::same_lookup(raws[i].lookups@[l], a.lookups@[l], k));
        assert(forms::same_lookup(raws[0].lookups@[l], b.lookups@[l], k));
        lemma_same_lens(a.lookups@[l].helper_polys@, b.lookups@[l].helper_polys@, n);
    }
    assert(d.lookups =~= e.lookups);
}

proof fn lemma_same_lens<F: PrimeField>(
    a: Seq<Polynomial<F, LagrangeCoeff>>,
    b: Seq<Polynomial<F, LagrangeCoeff>>,
    n: nat,
)
    requires
        a.len() == b.len(),
        plonk::all_of_len(trace::bufs(a), n),
        plonk::all_of_len(trace::bufs(b), n),
    ensures
        trace::lens_of(trace::bufs(a)) == trace::lens_of(trace::bufs(b)),
{
    let (u, v) = (trace::bufs(a), trace::bufs(b));
    assert forall|i: int| 0 <= i < a.len() implies trace::lens_of(u)[i] == trace::lens_of(v)[i] by {
        assert(u[i].len() == n && v[i].len() == n);
    }
    assert(trace::lens_of(u) =~= trace::lens_of(v));
}

/// The part of a fold from beta to the traces folded at gamma.
///
/// Beta is squeezed once all traces are there; then the numerators of the lifted
/// traces are asked for, one trace for each point of the folding domain's coset, in
/// which every scalar is the value there of the polynomial through the traces'
/// scalars of its name. Then `K` is committed to, gamma is squeezed, and the
/// numerator of the traces folded at gamma is asked for.
pub proof fn lemma_script_folds<F: PrimeField, const NB_FOLDED: usize>(
    key: FoldingKey<F>,
    answers: Answers<F>,
    run: Seq<ProtogalaxyProver<F, NB_FOLDED>>,
    actions: Seq<Action<F>>,
)
    requires
        is_script(key, answers, run, actions),
    ensures
        ({
            let nb = NB_FOLDED as int;
            let refs = prover::refs(taken(run));
            let (dk, de) = (run[0].folding_domain().log_n(), run[0].folding_domain().log_ext());
            let lifted = run[nb + 1].current()->lifted@;
            let folded = run[nb + 4].current()->Folded_folded;
            &&& actions[nb] is SqueezeChallenge
            &&& actions[nb + 1] is EvaluateNumerators
            &&& actions[nb + 2] is CommitK
            &&& actions[nb + 3] is SqueezeChallenge
            &&& actions[nb + 4] is EvaluateFolded
            &&& run[nb + 1].current() is Lifted
            &&& lifted.len() == pow2(de)
            &&& pow2(dk) == nb
            &&& forall|t: int|
                0 <= t < lifted.len() ==> traces::by_name(
                    refs,
                    #[trigger] lifted[t],
                    |a: Seq<int>|
                        roots::interpolate_at(
                            F::modulus(),
                            a,
                            domain::omega::<F>(dk),
                            dk,
                            domain::coset_point::<F>(de, t),
                        ),
                )
            &&& run[nb + 4].current() is Folded
            &&& traces::by_name(
                refs,
                folded,
                |a: Seq<int>|
                    roots::interpolate_at(
                        F::modulus(),
                        a,
                        domain::omega::<F>(dk),
                        dk,
                        answers.gamma.val(),
                    ),
            )
        }),
{
    let nb = NB_FOLDED as int;
    lemma_kept_len(key, run, answers.events(), actions);
    lemma_script_traces(key, answers, run, actions);
    lemma_kept(key, run, answers.events(), actions, 0);
    lemma_chain(key, answers, run, actions);
    lemma_beta_step(run[nb], answers.beta, run[nb + 1]);
    lemma_numerators_step(run[nb + 1], answers.nus, run[nb + 2]);
    lemma_commit_step(run[nb + 2], run[nb + 3]);
    lemma_gamma_step(run[nb + 3], answers.gamma, run[nb + 4]);
}

/// The first steps after the traces.
proof fn lemma_chain<F: PrimeField, const NB_FOLDED: usize>(
    key: FoldingKey<F>,
    answers: Answers<F>,
    run: Seq<ProtogalaxyProver<F, NB_FOLDED>>,
    actions: Seq<Action<F>>,
)
    requires
        is_script(key, answers, run, actions),
    ensures
        ({
            let nb = NB_FOLDED as int;
            &&& run.len() >= nb + 16
            &&& stepped(run[nb], Event::Challenge(answers.beta), run[nb + 1])
            &&& stepped(run[nb + 1], Event::Numerators(answers.nus), run[nb + 2])
            &&& stepped(run[nb + 2], Event::Done, run[nb + 3])
            &&& stepped(run[nb + 3], Event::Challenge(answers.gamma), run[nb + 4])
            &&& stepped(run[nb + 4], Event::Numerator(answers.error), run[nb + 5])
            &&& stepped(run[nb + 5], Event::Done, run[nb + 6])
            &&& stepped(run[nb + 6], Event::Done, run[nb + 7])
            &&& stepped(run[nb + 7], Event::Nu(answers.nu), run[nb + 8])
            &&& stepped(run[nb + 8], Event::Done, run[nb + 9])
            &&& stepped(run[nb + 9], Event::Challenge(answers.x), run[nb + 10])
            &&& forall|i: int|
                0 <= i < run.len() ==> {
                    &&& (#[trigger] run[i]).folding_key() == key
                    &&& run[i].folding_domain() == run[0].folding_domain()
                    &&& actions[i] == prover::action_of(run[i].current())
                }
            &&& key.domain.wf()
            &&& run[0].folding_domain().wf()
            &&& pow2(run[0].folding_domain().log_n()) == nb
        }),
{
    let nb = NB_FOLDED as int;
    let events = answers.events();
    lemma_kept_len(key, run, events, actions);
    lemma_kept(key, run, events, actions, 0);
    lemma_step(key, run, events, actions, nb);
    lemma_step(key, run, events, actions, nb + 1);
    lemma_step(key, run, events, actions, nb + 2);
    lemma_step(key, run, events, actions, nb + 3);
    lemma_step(key, run, events, actions, nb + 4);
    lemma_step(key, run, events, actions, nb + 5);
    lemma_step(key, run, events, actions, nb + 6);
    lemma_step(key, run, events, actions, nb + 7);
    lemma_step(key, run, events, actions, nb + 8);
    lemma_step(key, run, events, actions, nb + 9);
    assert forall|i: int| 0 <= i < run.len() implies {
        &&& (#[trigger] run[i]).folding_key() == key
        &&& run[i].folding_domain() == run[0].folding_domain()
        &&& actions[i] == prover::action_of(run[i].current())
    } by {
        lemma_kept(key, run, events, actions, i);
    }
}

proof fn lemma_kept_len<F: PrimeField, const NB_FOLDED: usize>(
    key: FoldingKey<F>,
    run: Seq<ProtogalaxyProver<F, NB_FOLDED>>,
    events: Seq<Event<F>>,
    actions: Seq<Action<F>>,
)
    requires
        is_run(key, run, events, actions),
    ensures
        run.len() == events.len() + 1,
        actions.len() == run.len(),
{
    reveal(is_run);
}

proof fn lemma_beta_step<F: PrimeField, const NB_FOLDED: usize>(
    before: ProtogalaxyProver<F, NB_FOLDED>,
    beta: F,
    after: ProtogalaxyProver<F, NB_FOLDED>,
)
    requires
        stepped(before, Event::Challenge(beta), after),
        before.current() is AwaitingBeta,
        laws::same_shape(prover::refs(held(before.current()))),
    ensures
        after.current() is Lifted,
        after.current()->Lifted_traces@ == held(before.current()),
        after.current()->Lifted_beta_pg == beta,
        prover::is_basis_at(
            after.current()->Lifted_beta_coeffs@,
            beta,
            before.folding_key().domain.log_n(),
        ),
        batch::compatible(prover::refs(held(before.current()))),
        after.current()->lifted@.len() == pow2(before.folding_domain().log_ext()),
        ({
            let (dk, de) = (before.folding_domain().log_n(), before.folding_domain().log_ext());
            forall|t: int|
                0 <= t < after.current()->lifted@.len() ==> traces::by_name(
                    prover::refs(held(before.current())),
                    #[trigger] after.current()->lifted@[t],
                    |a: Seq<int>|
                        roots::interpolate_at(
                            F::modulus(),
                            a,
                            domain::omega::<F>(dk),
                            dk,
                            domain::coset_point::<F>(de, t),
                        ),
                )
        }),
{
    reveal(stepped);
    let (dk, de) = (before.folding_domain().log_n(), before.folding_domain().log_ext());
    let refs = prover::refs(held(before.current()));
    before.folding_domain().lemma_sizes();
    let lifted = after.current()->lifted@;
    assert forall|t: int| 0 <= t < lifted.len() implies traces::by_name(
        refs,
        #[trigger] lifted[t],
        |a: Seq<int>|
            roots::interpolate_at(
                F::modulus(),
                a,
                domain::omega::<F>(dk),
                dk,
                domain::coset_point::<F>(de, t),
            ),
    ) by {
        assert(lifted[t].dims() == refs[0].dims());
        laws::lemma_lifting_is_folding(refs, lifted[t], dk, de, t);
        traces::lemma_folded_by_name(refs, lifted[t], dk, domain::coset_point::<F>(de, t));
    }
}

proof fn lemma_numerators_step<F: PrimeField, const NB_FOLDED: usize>(
    before: ProtogalaxyProver<F, NB_FOLDED>,
    nus: Vec<Polynomial<F, LagrangeCoeff>>,
    after: ProtogalaxyProver<F, NB_FOLDED>,
)
    requires
        stepped(before, Event::Numerators(nus), after),
        before.current() is Lifted,
    ensures
        after.current() is Quotient,
        after.current()->Quotient_traces == before.current()->Lifted_traces,
        after.current()->Quotient_beta_pg == before.current()->Lifted_beta_pg,
        after.current()->Quotient_beta_coeffs == before.current()->Lifted_beta_coeffs,
        nus@.len() == before.current()->lifted@.len(),
        exists|g: Seq<int>| #[trigger]
            prover::is_g(nus@, before.current()->Lifted_beta_coeffs@, g) && prover::is_k_poly::<F>(
                g,
                after.current()->k_poly.vals(),
                before.folding_domain().log_n(),
                before.folding_domain().log_ext(),
                NB_FOLDED * (before.folding_key().degree - 1),
            ),
{
    reveal(stepped);
}

proof fn lemma_commit_step<F: PrimeField, const NB_FOLDED: usize>(
    before: ProtogalaxyProver<F, NB_FOLDED>,
    after: ProtogalaxyProver<F, NB_FOLDED>,
)
    requires
        stepped(before, Event::Done, after),
        before.current() is Quotient,
    ensures
        after.current() is AwaitingGamma,
        after.current()->AwaitingGamma_traces == before.current()->Quotient_traces,
        after.current()->AwaitingGamma_beta_pg == before.current()->Quotient_beta_pg,
        after.current()->AwaitingGamma_beta_coeffs == before.current()->Quotient_beta_coeffs,
{
    reveal(stepped);
}

proof fn lemma_gamma_step<F: PrimeField, const NB_FOLDED: usize>(
    before: ProtogalaxyProver<F, NB_FOLDED>,
    gamma: F,
    after: ProtogalaxyProver<F, NB_FOLDED>,
)
    requires
        stepped(before, Event::Challenge(gamma), after),
        before.current() is AwaitingGamma,
        laws::same_shape(prover::refs(before.current()->AwaitingGamma_traces@)),
        batch::compatible(prover::refs(before.current()->AwaitingGamma_traces@)),
    ensures
        after.current() is Folded,
        after.current()->Folded_beta_pg == before.current()->AwaitingGamma_beta_pg,
        after.current()->Folded_beta_coeffs == before.current()->AwaitingGamma_beta_coeffs,
        after.current()->Folded_gamma == gamma,
        ({
            let dk = before.folding_domain().log_n();
            traces::by_name(
                prover::refs(before.current()->AwaitingGamma_traces@),
                after.current()->Folded_folded,
                |a: Seq<int>|
                    roots::interpolate_at(
                        F::modulus(),
                        a,
                        domain::omega::<F>(dk),
                        dk,
                        gamma.val(),
                    ),
            )
        }),
{
    reveal(stepped);
    let dk = before.folding_domain().log_n();
    before.folding_domain().lemma_sizes();
    traces::lemma_folded_by_name(
        prover::refs(before.current()->AwaitingGamma_traces@),
        after.current()->Folded_folded,
        dk,
        gamma.val(),
    );
}

/// The value at `x` of the polynomial through the values of `v` on the rows.
pub open spec fn at_row_point<F: PrimeField>(
    v: Polynomial<F, LagrangeCoeff>,
    k: nat,
    x: F,
) -> int {
    roots::interpolate_at(F::modulus(), v.vals(), domain::omega::<F>(k), k, x.val())
}

/// The polynomial `K` that is committed to: it has as many coefficients as the
/// degree allows for, and if some polynomial `q` of no more coefficients, times the
/// vanishing polynomial, takes at every point of the coset the value at beta of that
/// point's numerator, then `K` is `q`.
pub proof fn lemma_script_quotient<F: PrimeField, const NB_FOLDED: usize>(
    key: FoldingKey<F>,
    answers: Answers<F>,
    run: Seq<ProtogalaxyProver<F, NB_FOLDED>>,
    actions: Seq<Action<F>>,
    q: Seq<int>,
)
    requires
        is_script(key, answers, run, actions),
        q.len() <= NB_FOLDED * (key.degree - 1),
        forall|t: int|
            0 <= t < answers.nus@.len() ==> {
                let e = run[0].folding_domain().log_ext();
                let y = F::zeta_val() * zp::pw(domain::omega::<F>(e), t);
                &&& (#[trigger] answers.nus@[t]).values@.len() == pow2(key.domain.log_n())
                &&& zp::eqm(
                    F::modulus(),
                    at_row_point(answers.nus@[t], key.domain.log_n(), answers.beta),
                    roots::poly_eval(F::modulus(), q, y) * (zp::pw(y, NB_FOLDED as int) - 1),
                )
            },
    ensures
        run[NB_FOLDED + 2].current() is Quotient,
        run[NB_FOLDED + 2].current()->k_poly.values@.len() == NB_FOLDED * (key.degree - 1),
        forall|x: int| #[trigger]
            roots::poly_eval(F::modulus(), run[NB_FOLDED + 2].current()->k_poly.vals(), x)
                == roots::poly_eval(F::modulus(), q, x),
{
    let p = F::modulus();
    let nb = NB_FOLDED as int;
    let k = key.domain.log_n();
    let events = answers.events();
    F::lemma_modulus();
    lemma_script_traces(key, answers, run, actions);
    lemma_chain(key, answers, run, actions);
    lemma_kept(key, run, events, actions, 0);
    run[0].folding_domain().lemma_sizes();
    key.domain.lemma_sizes();
    let (dk, de) = (run[0].folding_domain().log_n(), run[0].folding_domain().log_ext());
    lemma_beta_step(run[nb], answers.beta, run[nb + 1]);
    lemma_numerators_step(run[nb + 1], answers.nus, run[nb + 2]);
    let coeffs = run[nb + 1].current()->Lifted_beta_coeffs@;
    let c = run[nb + 2].current()->k_poly.vals();
    let count = nb * (key.degree - 1);
    let g = choose|g: Seq<int>| #[trigger]
        prover::is_g(answers.nus@, coeffs, g) && prover::is_k_poly::<F>(g, c, dk, de, count);
    assert forall|t: int| 0 <= t < g.len() implies zp::eqm(
        p,
        roots::poly_eval(p, q, domain::coset_point::<F>(de, t)) * (zp::pw(
            domain::coset_point::<F>(de, t),
            pow2(dk) as int,
        ) - 1),
        #[trigger] g[t],
    ) by {
        let y = F::zeta_val() * zp::pw(domain::omega::<F>(de), t);
        let z = domain::coset_point::<F>(de, t);
        assert(answers.nus@[t].values@.len() == pow2(k));
        prover::lemma_dot_is_value(answers.nus@[t].values@, coeffs, answers.beta, k);
        transforms::lemma_coset_eval::<F>(q, de, t);
        zp::lemma_reduce(p, y);
        zp::lemma_eqm_pow(p, z, y, nb);
        zp::lemma_eqm_sub(p, zp::pw(z, nb), zp::pw(y, nb), 1, 1);
        let v = roots::poly_eval(p, q, y);
        zp::lemma_eqm_mul(p, v, v, zp::pw(z, nb) - 1, zp::pw(y, nb) - 1);
    }
    assert forall|i: int| 0 <= i < count implies c.len() == count && #[trigger] c[i] == if i
        < q.len() {
        q[i] % p
    } else {
        0
    } by {
        laws::lemma_k_poly_exact::<F>(g, c, q, dk, de, count, i);
    }
    assert(c.len() == count);
    assert forall|x: int| #[trigger] roots::poly_eval(p, c, x) == roots::poly_eval(p, q, x) by {
        laws::lemma_padded_eval(p, q, c, x);
    }
}

/// The part of a fold from the numerator of the folded trace to its proof.
///
/// The scalar that is written, times the vanishing polynomial at gamma, is the value
/// at beta of the error terms. Then the error terms are committed to as they were
/// answered; the folded trace and the error polynomial, both by coefficients, and
/// beta are what the proof opens; the numerator on the coset is asked for and
/// corrected, the quotient committed to, and the evaluation point squeezed.
pub proof fn lemma_script_corrects<F: PrimeField, const NB_FOLDED: usize>(
    key: FoldingKey<F>,
    answers: Answers<F>,
    run: Seq<ProtogalaxyProver<F, NB_FOLDED>>,
    actions: Seq<Action<F>>,
)
    requires
        is_script(key, answers, run, actions),
    ensures
        ({
            let nb = NB_FOLDED as int;
            let k = key.domain.log_n();
            let folded = run[nb + 4].current()->Folded_folded;
            let opening = run[nb + 7].current()->AwaitingNu_opening;
            let corrected = run[nb + 8].current()->nu_corrected;
            &&& (actions[nb + 5] matches Action::WriteScalar(v) && zp::eqm(
                F::modulus(),
                v.val() * (zp::pw(answers.gamma.val(), nb) - 1),
                at_row_point(answers.error, k, answers.beta),
            ))
            &&& actions[nb + 6] is CommitError
            &&& run[nb + 6].current() is CommittingError
            &&& run[nb + 6].current()->CommittingError_error == answers.error
            &&& actions[nb + 7] is ComputeNu
            &&& run[nb + 7].current() is AwaitingNu
            &&& forms::same_opened(opening.trace, folded, k)
            &&& forms::same_poly(opening.error_coeff, answers.error, k)
            &&& opening.beta_pg == answers.beta
            &&& actions[nb + 8] is CommitQuotient
            &&& run[nb + 8].current() is Corrected
            &&& run[nb + 8].current()->Corrected_opening == opening
            &&& corrected.values@.len() == pow2(key.domain.log_ext())
            &&& forall|big: Seq<int>|
                big.len() <= pow2(key.domain.log_ext()) && #[trigger] transforms::on_coset::<F>(
                    big,
                    answers.nu.vals(),
                    key.domain.log_ext(),
                ) ==> is_difference_on_coset::<F>(
                    big,
                    opening.error_coeff.vals(),
                    corrected.vals(),
                    key.domain.log_ext(),
                )
            &&& actions[nb + 9] is SqueezeChallenge
            &&& actions[nb + 10] == Action::WriteEvals(answers.x)
            &&& run[nb + 10].current() == (Stage::WritingEvals { opening, x: answers.x })
        }),
{
    lemma_script_error(key, answers, run, actions);
    lemma_script_nu(key, answers, run, actions);
}

proof fn lemma_script_error<F: PrimeField, const NB_FOLDED: usize>(
    key: FoldingKey<F>,
    answers: Answers<F>,
    run: Seq<ProtogalaxyProver<F, NB_FOLDED>>,
    actions: Seq<Action<F>>,
)
    requires
        is_script(key, answers, run, actions),
    ensures
        ({
            let nb = NB_FOLDED as int;
            let k = key.domain.log_n();
            let folded = run[nb + 4].current()->Folded_folded;
            let opening = run[nb + 7].current()->AwaitingNu_opening;
            &&& (actions[nb + 5] matches Action::WriteScalar(v) && zp::eqm(
                F::modulus(),
                v.val() * (zp::pw(answers.gamma.val(), nb) - 1),
                at_row_point(answers.error, k, answers.beta),
            ))
            &&& actions[nb + 6] is CommitError
            &&& run[nb + 6].current() is CommittingError
            &&& run[nb + 6].current()->CommittingError_error == answers.error
            &&& actions[nb + 7] is ComputeNu
            &&& run[nb + 7].current() is AwaitingNu
            &&& forms::same_opened(opening.trace, folded, k)
            &&& forms::same_poly(opening.error_coeff, answers.error, k)
            &&& opening.beta_pg == answers.beta
        }),
{
    let nb = NB_FOLDED as int;
    lemma_beta_kept(key, answers, run, actions);
    lemma_chain(key, answers, run, actions);
    lemma_error_step(run[nb + 4], answers.error, run[nb + 5]);
    lemma_write_step(run[nb + 5], run[nb + 6]);
    lemma_open_step(run[nb + 6], run[nb + 7]);
}

proof fn lemma_error_step<F: PrimeField, const NB_FOLDED: usize>(
    before: ProtogalaxyProver<F, NB_FOLDED>,
    error: Polynomial<F, LagrangeCoeff>,
    after: ProtogalaxyProver<F, NB_FOLDED>,
)
    requires
        stepped(before, Event::Numerator(error), after),
        before.current() is Folded,
        prover::is_basis_at(
            before.current()->Folded_beta_coeffs@,
            before.current()->Folded_beta_pg,
            before.folding_key().domain.log_n(),
        ),
    ensures
        after.current() is WritingK,
        after.current()->WritingK_beta_pg == before.current()->Folded_beta_pg,
        after.current()->WritingK_folded == before.current()->Folded_folded,
        after.current()->WritingK_error == error,
        zp::eqm(
            F::modulus(),
            after.current()->k_at_gamma.val() * (zp::pw(
                before.current()->Folded_gamma.val(),
                NB_FOLDED as int,
            ) - 1),
            at_row_point(
                error,
                before.folding_key().domain.log_n(),
                before.current()->Folded_beta_pg,
            ),
        ),
{
    reveal(stepped);
    before.folding_key().domain.lemma_sizes();
    prover::lemma_dot_is_value(
        error.values@,
        before.current()->Folded_beta_coeffs@,
        before.current()->Folded_beta_pg,
        before.folding_key().domain.log_n(),
    );
}

proof fn lemma_write_step<F: PrimeField, const NB_FOLDED: usize>(
    before: ProtogalaxyProver<F, NB_FOLDED>,
    after: ProtogalaxyProver<F, NB_FOLDED>,
)
    requires
        stepped(before, Event::Done, after),
        before.current() is WritingK,
    ensures
        after.current() is CommittingError,
        after.current()->CommittingError_beta_pg == before.current()->WritingK_beta_pg,
        after.current()->CommittingError_folded == before.current()->WritingK_folded,
        after.current()->CommittingError_error == before.current()->WritingK_error,
        forms::same_poly(
            after.current()->CommittingError_error_coeff,
            before.current()->WritingK_error,
            before.folding_key().domain.log_n(),
        ),
{
    reveal(stepped);
    before.folding_key().domain.lemma_sizes();
    forms::lemma_coefficients(
        after.current()->CommittingError_error_coeff,
        before.current()->WritingK_error,
        before.folding_key().domain.log_n(),
    );
}

proof fn lemma_open_step<F: PrimeField, const NB_FOLDED: usize>(
    before: ProtogalaxyProver<F, NB_FOLDED>,
    after: ProtogalaxyProver<F, NB_FOLDED>,
)
    requires
        stepped(before, Event::Done, after),
        before.current() is CommittingError,
    ensures
        after.current() is AwaitingNu,
        after.current()->AwaitingNu_opening.beta_pg == before.current()->CommittingError_beta_pg,
        after.current()->AwaitingNu_opening.error_coeff
            == before.current()->CommittingError_error_coeff,
        forms::same_opened(
            after.current()->AwaitingNu_opening.trace,
            before.current()->CommittingError_folded,
            before.folding_key().domain.log_n(),
        ),
{
    reveal(stepped);
    before.folding_key().domain.lemma_sizes();
    forms::lemma_comes_from(
        after.current()->AwaitingNu_opening.trace,
        before.current()->CommittingError_folded,
        before.folding_key().domain.log_n(),
    );
}

proof fn lemma_script_nu<F: PrimeField, const NB_FOLDED: usize>(
    key: FoldingKey<F>,
    answers: Answers<F>,
    run: Seq<ProtogalaxyProver<F, NB_FOLDED>>,
    actions: Seq<Action<F>>,
)
    requires
        is_script(key, answers, run, actions),
        run[NB_FOLDED + 7].current() is AwaitingNu,
    ensures
        ({
            let nb = NB_FOLDED as int;
            let opening = run[nb + 7].current()->AwaitingNu_opening;
            let corrected = run[nb + 8].current()->nu_corrected;
            &&& actions[nb + 8] is CommitQuotient
            &&& run[nb + 8].current() is Corrected
            &&& run[nb + 8].current()->Corrected_opening == opening
            &&& corrected.values@.len() == pow2(key.domain.log_ext())
            &&& forall|big: Seq<int>|
                big.len() <= pow2(key.domain.log_ext()) && #[trigger] transforms::on_coset::<F>(
                    big,
                    answers.nu.vals(),
                    key.domain.log_ext(),
                ) ==> is_difference_on_coset::<F>(
                    big,
                    opening.error_coeff.vals(),
                    corrected.vals(),
                    key.domain.log_ext(),
                )
            &&& actions[nb + 9] is SqueezeChallenge
            &&& actions[nb + 10] == Action::WriteEvals(answers.x)
            &&& run[nb + 10].current() == (Stage::WritingEvals { opening, x: answers.x })
        }),
{
    let nb = NB_FOLDED as int;
    lemma_chain(key, answers, run, actions);
    lemma_nu_step(run[nb + 7], answers.nu, run[nb + 8]);
    lemma_quotient_step(run[nb + 8], run[nb + 9]);
    lemma_x_step(run[nb + 9], answers.x, run[nb + 10]);
}

proof fn lemma_nu_step<F: PrimeField, const NB_FOLDED: usize>(
    before: ProtogalaxyProver<F, NB_FOLDED>,
    nu: Polynomial<F, ExtendedLagrangeCoeff>,
    after: ProtogalaxyProver<F, NB_FOLDED>,
)
    requires
        stepped(before, Event::Nu(nu), after),
        before.current() is AwaitingNu,
    ensures
        ({
            let e = before.folding_key().domain.log_ext();
            let opening = before.current()->AwaitingNu_opening;
            let corrected = after.current()->nu_corrected;
            &&& after.current() is Corrected
            &&& after.current()->Corrected_opening == opening
            &&& corrected.values@.len() == pow2(e)
            &&& forall|big: Seq<int>|
                big.len() <= pow2(e) && #[trigger] transforms::on_coset::<F>(big, nu.vals(), e)
                    ==> is_difference_on_coset::<F>(
                    big,
                    opening.error_coeff.vals(),
                    corrected.vals(),
                    e,
                )
        }),
{
    reveal(stepped);
    let (k, e) = (before.folding_key().domain.log_n(), before.folding_key().domain.log_ext());
    before.folding_key().domain.lemma_sizes();
    let opening = before.current()->AwaitingNu_opening;
    let corrected = after.current()->nu_corrected;
    assert forall|big: Seq<int>|
        big.len() <= pow2(e) && #[trigger] transforms::on_coset::<F>(
            big,
            nu.vals(),
            e,
        ) implies is_difference_on_coset::<F>(
        big,
        opening.error_coeff.vals(),
        corrected.vals(),
        e,
    ) by {
        lemma_corrected(
            nu.values@,
            opening.error_coeff.values@,
            corrected.values@,
            k,
            e,
            big,
        );
    }
}

proof fn lemma_quotient_step<F: PrimeField, const NB_FOLDED: usize>(
    before: ProtogalaxyProver<F, NB_FOLDED>,
    after: ProtogalaxyProver<F, NB_FOLDED>,
)
    requires
        stepped(before, Event::Done, after),
        before.current() is Corrected,
    ensures
        after.current() is AwaitingX,
        after.current()->AwaitingX_opening == before.current()->Corrected_opening,
{
    reveal(stepped);
}

proof fn lemma_x_step<F: PrimeField, const NB_FOLDED: usize>(
    before: ProtogalaxyProver<F, NB_FOLDED>,
    x: F,
    after: ProtogalaxyProver<F, NB_FOLDED>,
)
    requires
        stepped(before, Event::Challenge(x), after),
        before.current() is AwaitingX,
    ensures
        after.current() == (Stage::WritingEvals {
            opening: before.current()->AwaitingX_opening,
            x,
        }),
{
    reveal(stepped);
}

/// Beta and the basis at beta stay until they are used.
proof fn lemma_beta_kept<F: PrimeField, const NB_FOLDED: usize>(
    key: FoldingKey<F>,
    answers: Answers<F>,
    run: Seq<ProtogalaxyProver<F, NB_FOLDED>>,
    actions: Seq<Action<F>>,
)
    requires
        is_script(key, answers, run, actions),
    ensures
        run[NB_FOLDED + 4].current() is Folded,
        run[NB_FOLDED + 4].current()->Folded_beta_pg == answers.beta,
        run[NB_FOLDED + 4].current()->Folded_gamma == answers.gamma,
        prover::is_basis_at(
            run[NB_FOLDED + 4].current()->Folded_beta_coeffs@,
            answers.beta,
            key.domain.log_n(),
        ),
{
    let nb = NB_FOLDED as int;
    lemma_script_traces(key, answers, run, actions);
    lemma_chain(key, answers, run, actions);
    lemma_beta_step(run[nb], answers.beta, run[nb + 1]);
    lemma_numerators_step(run[nb + 1], answers.nus, run[nb + 2]);
    lemma_commit_step(run[nb + 2], run[nb + 3]);
    lemma_gamma_step(run[nb + 3], answers.gamma, run[nb + 4]);
}

/// The folded trace has the lookups and trash arguments of the circuit.
proof fn lemma_counts<F: PrimeField>(
    raw: RawTrace<F>,
    first: FoldingProverTrace<F>,
    refs: Seq<&FoldingProverTrace<F>>,
    folded: FoldingProverTrace<F>,
    f: spec_fn(Seq<int>) -> int,
    opened: plonk::ProverTrace<F>,
    k: nat,
)
    requires
        forms::same_raw(raw, first, k),
        refs.len() > 0,
        *refs[0] == first,
        traces::by_name(refs, folded, f),
        forms::same_opened(opened, folded, k),
    ensures
        opened.lookups@.len() == raw.lookups@.len(),
        opened.trashcans@.len() == raw.trashcans@.len(),
{
    reveal(forms::same_raw);
    reveal(forms::same_opened);
    reveal(traces::by_name);
    let trash = |t: FoldingProverTrace<F>| t.trash_polys@;
    assert(traces::polys_by_name(refs, folded, f, trash));
    assert(trash(folded).len() == trash(first).len());
}

/// A step of the evaluations.
proof fn lemma_evaluation_step<F: PrimeField, const NB_FOLDED: usize>(
    before: ProtogalaxyProver<F, NB_FOLDED>,
    event: Event<F>,
    after: ProtogalaxyProver<F, NB_FOLDED>,
)
    requires
        stepped(before, event, after),
    ensures
        before.current() is WritingEvals && event is Done ==> {
            let s = before.current();
            &&& after.current() is WritingError
            &&& after.current()->WritingError_opening == s->WritingEvals_opening
            &&& after.current()->WritingError_x == s->WritingEvals_x
            &&& after.current()->error_at_x.val() == roots::poly_eval(
                F::modulus(),
                s->WritingEvals_opening.error_coeff.vals(),
                s->WritingEvals_x.val(),
            )
        },
        before.current() is WritingError && event is Done ==> after.current()
            == (Stage::EvaluatingKey {
            opening: before.current()->WritingError_opening,
            x: before.current()->WritingError_x,
        }),
        before.current() is EvaluatingKey && event is Done ==> after.current()
            == (Stage::EvaluatingPermutations {
            opening: before.current()->EvaluatingKey_opening,
            x: before.current()->EvaluatingKey_x,
        }),
        before.current() is EvaluatingPermutations && event is Done ==> prover::after_evaluations(
            before.current()->EvaluatingPermutations_opening,
            before.current()->EvaluatingPermutations_x,
            0,
            0,
            before.folding_key().domain.log_n(),
            after.current(),
        ),
        before.current() is EvaluatingLookups && event is Done ==> prover::after_evaluations(
            before.current()->EvaluatingLookups_opening,
            before.current()->EvaluatingLookups_x,
            before.current()->EvaluatingLookups_written + 1,
            0,
            before.folding_key().domain.log_n(),
            after.current(),
        ),
        before.current() is EvaluatingTrash && event is Done ==> prover::after_evaluations(
            before.current()->EvaluatingTrash_opening,
            before.current()->EvaluatingTrash_x,
            before.current()->EvaluatingTrash_opening.trace.lookups@.len() as int,
            before.current()->EvaluatingTrash_written + 1,
            before.folding_key().domain.log_n(),
            after.current(),
        ),
        before.current() is OpeningAll && event is Opened ==> after.current() is Finished
            && after.current()->result == (if event->Opened_0 {
            Ok::<(), FoldError>(())
        } else {
            Err(FoldError::ConstraintSystemFailure)
        }),
{
    reveal(stepped);
}

/// Where the evaluations have come to, `j` steps after the permutation argument's are
/// asked for.
spec fn evaluating<F: PrimeField>(
    stage: Stage<F>,
    opening: Opening<F>,
    x: F,
    j: int,
    k: nat,
) -> bool {
    let lookups = opening.trace.lookups@.len() as int;
    let trash = opening.trace.trashcans@.len() as int;
    if j == 0 {
        stage == (Stage::EvaluatingPermutations { opening, x })
    } else if j <= lookups {
        &&& stage is EvaluatingLookups
        &&& stage->EvaluatingLookups_opening == opening
        &&& stage->EvaluatingLookups_x == x
        &&& stage->EvaluatingLookups_written == j - 1
    } else if j <= lookups + trash {
        &&& stage is EvaluatingTrash
        &&& stage->EvaluatingTrash_opening == opening
        &&& stage->EvaluatingTrash_x == x
        &&& stage->EvaluatingTrash_written == j - 1 - lookups
    } else {
        &&& stage is OpeningAll
        &&& stage->OpeningAll_opening == opening
        &&& stage->OpeningAll_x == x
        &&& stage->splitting_factor.val() == zp::pw(x.val(), pow2(k) - 1) % F::modulus()
        &&& stage->xn.val() == zp::pw(x.val(), pow2(k) as int) % F::modulus()
    }
}

proof fn lemma_evaluations<F: PrimeField, const NB_FOLDED: usize>(
    key: FoldingKey<F>,
    answers: Answers<F>,
    run: Seq<ProtogalaxyProver<F, NB_FOLDED>>,
    actions: Seq<Action<F>>,
    opening: Opening<F>,
    j: int,
)
    requires
        is_script(key, answers, run, actions),
        run[NB_FOLDED + 13].current() == (Stage::EvaluatingPermutations {
            opening,
            x: answers.x,
        }),
        opening.trace.lookups@.len() == answers.raws[0].lookups@.len(),
        opening.trace.trashcans@.len() == answers.raws[0].trashcans@.len(),
        0 <= j <= opening.trace.lookups@.len() + opening.trace.trashcans@.len() + 1,
    ensures
        evaluating(
            run[NB_FOLDED + 13 + j].current(),
            opening,
            answers.x,
            j,
            key.domain.log_n(),
        ),
    decreases j,
{
    if j > 0 {
        let i = NB_FOLDED + 13 + j - 1;
        let events = answers.events();
        lemma_evaluations(key, answers, run, actions, opening, j - 1);
        lemma_kept_len(key, run, events, actions);
        lemma_kept(key, run, events, actions, i);
        lemma_step(key, run, events, actions, i);
        assert(events[i] == Event::<F>::Done);
        lemma_evaluation_step(run[i], events[i], run[i + 1]);
        assert(opening.trace.lookups.len() == opening.trace.lookups@.len());
        assert(opening.trace.trashcans.len() == opening.trace.trashcans@.len());
    }
}

/// The last part of a fold: after the column evaluations the error polynomial's value
/// at the evaluation point is written, then the evaluations of the key's
/// permutations, of the permutation argument, of each lookup and of each trash
/// argument in order, all at that point; then everything is opened, and the fold ends
/// well exactly if the opening succeeds.
pub proof fn lemma_script_ends<F: PrimeField, const NB_FOLDED: usize>(
    key: FoldingKey<F>,
    answers: Answers<F>,
    run: Seq<ProtogalaxyProver<F, NB_FOLDED>>,
    actions: Seq<Action<F>>,
)
    requires
        is_script(key, answers, run, actions),
    ensures
        ({
            let nb = NB_FOLDED as int;
            let lookups = answers.raws[0].lookups@.len() as int;
            let trash = answers.raws[0].trashcans@.len() as int;
            let last = nb + 14 + lookups + trash;
            let opening = run[nb + 7].current()->AwaitingNu_opening;
            let stage = run[last].current();
            let n = pow2(key.domain.log_n()) as int;
            &&& (actions[nb + 11] matches Action::WriteScalar(v) && v.val() == roots::poly_eval(
                F::modulus(),
                opening.error_coeff.vals(),
                answers.x.val(),
            ))
            &&& actions[nb + 12] == Action::EvaluateKey(answers.x)
            &&& actions[nb + 13] == Action::EvaluatePermutations(answers.x)
            &&& forall|i: int|
                0 <= i < lookups ==> (#[trigger] actions[nb + 14
                    + i] matches Action::EvaluateLookup(l, x) && l == i && x == answers.x)
            &&& forall|i: int|
                0 <= i < trash ==> (#[trigger] actions[nb + 14 + lookups
                    + i] matches Action::EvaluateTrash(l, x) && l == i && x == answers.x)
            &&& actions[last] is Open
            &&& stage is OpeningAll
            &&& stage->OpeningAll_opening == opening
            &&& stage->OpeningAll_x == answers.x
            &&& zp::eqm(F::modulus(), stage->xn.val(), zp::pw(answers.x.val(), n))
            &&& zp::eqm(
                F::modulus(),
                stage->splitting_factor.val() * answers.x.val(),
                stage->xn.val(),
            )
            &&& n > 1 ==> zp::eqm(
                F::modulus(),
                stage->splitting_factor.val(),
                zp::pw(answers.x.val(), n - 2) * answers.x.val(),
            )
            &&& actions[last + 1] == Action::<F>::Finish(
                if answers.opened {
                    Ok(())
                } else {
                    Err(FoldError::ConstraintSystemFailure)
                },
            )
            &&& run.len() == last + 2
        }),
{
    let p = F::modulus();
    let nb = NB_FOLDED as int;
    let k = key.domain.log_n();
    let events = answers.events();
    let lookups = answers.raws[0].lookups@.len() as int;
    let trash = answers.raws[0].trashcans@.len() as int;
    let last = nb + 14 + lookups + trash;
    lemma_kept_len(key, run, events, actions);
    lemma_script_corrects(key, answers, run, actions);
    lemma_script_folds(key, answers, run, actions);
    lemma_script_traces(key, answers, run, actions);
    lemma_chain(key, answers, run, actions);
    lemma_pow2_pos(run[0].folding_domain().log_n());
    let opening = run[nb + 7].current()->AwaitingNu_opening;
    let dk = run[0].folding_domain().log_n();
    lemma_counts(
        answers.raws[0],
        taken(run)[0],
        prover::refs(taken(run)),
        run[nb + 4].current()->Folded_folded,
        |a: Seq<int>|
            roots::interpolate_at(
                F::modulus(),
                a,
                domain::omega::<F>(dk),
                dk,
                answers.gamma.val(),
            ),
        opening.trace,
        k,
    );
    lemma_step(key, run, events, actions, nb + 10);
    lemma_evaluation_step(run[nb + 10], events[nb + 10], run[nb + 11]);
    lemma_step(key, run, events, actions, nb + 11);
    lemma_evaluation_step(run[nb + 11], events[nb + 11], run[nb + 12]);
    lemma_step(key, run, events, actions, nb + 12);
    lemma_evaluation_step(run[nb + 12], events[nb + 12], run[nb + 13]);
    assert forall|i: int| 0 <= i < lookups implies (
    #[trigger] actions[nb + 14 + i] matches Action::EvaluateLookup(l, x) && l == i && x
        == answers.x) by {
        lemma_evaluations(key, answers, run, actions, opening, i + 1);
        assert(run[nb + 14 + i] == run[nb + 13 + (i + 1)]);
    }
    assert forall|i: int| 0 <= i < trash implies (
    #[trigger] actions[nb + 14 + lookups + i] matches Action::EvaluateTrash(l, x) && l == i && x
        == answers.x) by {
        lemma_evaluations(key, answers, run, actions, opening, lookups + i + 1);
        assert(run[nb + 14 + lookups + i] == run[nb + 13 + (lookups + i + 1)]);
    }
    lemma_evaluations(key, answers, run, actions, opening, lookups + trash + 1);
    assert(run[last] == run[nb + 13 + (lookups + trash + 1)]);
    lemma_step(key, run, events, actions, last);
    assert(events[last] == Event::<F>::Opened(answers.opened));
    lemma_evaluation_step(run[last], events[last], run[last + 1]);
    lemma_splitting(run[last].current(), answers.x, k);
}

proof fn lemma_splitting<F: PrimeField>(stage: Stage<F>, x: F, k: nat)
    requires
        stage is OpeningAll,
        stage->splitting_factor.val() == zp::pw(x.val(), pow2(k) - 1) % F::modulus(),
        stage->xn.val() == zp::pw(x.val(), pow2(k) as int) % F::modulus(),
    ensures
        zp::eqm(F::modulus(), stage->xn.val(), zp::pw(x.val(), pow2(k) as int)),
        zp::eqm(F::modulus(), stage->splitting_factor.val() * x.val(), stage->xn.val()),
        pow2(k) > 1 ==> zp::eqm(
            F::modulus(),
            stage->splitting_factor.val(),
            zp::pw(x.val(), pow2(k) - 2) * x.val(),
        ),
{
    let p = F::modulus();
    let n = pow2(k) as int;
    let v = x.val();
    F::lemma_modulus();
    lemma_pow2_pos(k);
    zp::lemma_pw_succ(v, n - 1);
    zp::lemma_reduce(p, zp::pw(v, n));
    zp::lemma_reduce(p, zp::pw(v, n - 1));
    zp::lemma_eqm_mul(p, stage->splitting_factor.val(), zp::pw(v, n - 1), v, v);
    if n > 1 {
        zp::lemma_pw_succ(v, n - 2);
    }
}

// ---------------------------------------------------------------------------
// What can be taken, and when a fold can start
// ---------------------------------------------------------------------------

/// Every polynomial of the list has `n` entries.
pub open spec fn all_have<F, B>(ps: Seq<Polynomial<F, B>>, n: nat) -> bool {
    forall|i: int| 0 <= i < ps.len() ==> (#[trigger] ps[i]).values@.len() == n
}

/// Every polynomial of a raw trace has `n` entries.
pub open spec fn raw_has<F>(raw: RawTrace<F>, n: nat) -> bool {
    &&& all_have(raw.advice_lagrange@, n)
    &&& all_have(raw.instance_values@, n)
    &&& forall|l: int|
        0 <= l < raw.lookups@.len() ==> {
            &&& (#[trigger] raw.lookups@[l]).multiplicities.values@.len() == n
            &&& all_have(raw.lookups@[l].helper_polys@, n)
            &&& raw.lookups@[l].aggregator_poly.values@.len() == n
        }
    &&& forall|i: int|
        0 <= i < raw.trashcans@.len() ==> (#[trigger] raw.trashcans@[i]).trash_poly.values@.len()
            == n
    &&& forall|i: int|
        0 <= i < raw.permutations.sets@.len() ==> (
        #[trigger] raw.permutations.sets@[i]).permutation_product_poly.values@.len() == n
}

proof fn lemma_all_have<F, B>(ps: Seq<Polynomial<F, B>>, n: nat)
    ensures
        plonk::all_of_len(trace::bufs(ps), n) == all_have(ps, n),
{
    let bs = trace::bufs(ps);
    assert(bs.len() == ps.len());
    if plonk::all_of_len(bs, n) {
        assert forall|i: int| 0 <= i < ps.len() implies (#[trigger] ps[i]).values@.len() == n by {
            assert(bs[i].len() == n);
        }
    }
    if all_have(ps, n) {
        assert forall|i: int| 0 <= i < bs.len() implies (#[trigger] bs[i]).len() == n by {
            assert(ps[i].values@.len() == n);
        }
    }
}

/// A raw trace has a size exactly if each of its polynomials has it.
pub proof fn lemma_raw_size<F: PrimeField>(raw: RawTrace<F>, n: usize, r: bool)
    requires
        call_ensures(RawTrace::<F>::has_size, (&raw, n), r),
    ensures
        r == raw_has(raw, n as nat),
{
    lemma_raw_has(raw, n as nat);
}

proof fn lemma_raw_has<F: PrimeField>(raw: RawTrace<F>, n: nat)
    ensures
        raw_has(raw, n) == {
            &&& raw.sized(n)
            &&& plonk::all_of_len(trace::bufs(raw.advice_lagrange@), n)
            &&& plonk::all_of_len(trace::bufs(raw.instance_values@), n)
        },
{
    lemma_all_have(raw.advice_lagrange@, n);
    lemma_all_have(raw.instance_values@, n);
    let (tb, pb) = (plonk::trash_bufs(raw.trashcans@), plonk::perm_bufs(raw.permutations.sets@));
    assert(tb.len() == raw.trashcans@.len() && pb.len() == raw.permutations.sets@.len());
    if raw_has(raw, n) {
        assert forall|l: int| 0 <= l < raw.lookups@.len() implies (
        #[trigger] raw.lookups@[l]).sized(n) by {
            assert(raw.lookups@[l].multiplicities.values@.len() == n);
            lemma_all_have(raw.lookups@[l].helper_polys@, n);
        }
        assert forall|i: int| 0 <= i < tb.len() implies (#[trigger] tb[i]).len() == n by {
            assert(raw.trashcans@[i].trash_poly.values@.len() == n);
        }
        assert forall|i: int| 0 <= i < pb.len() implies (#[trigger] pb[i]).len() == n by {
            assert(raw.permutations.sets@[i].permutation_product_poly.values@.len() == n);
        }
        assert(raw.sized(n));
    }
    if raw.sized(n) {
        assert forall|l: int| 0 <= l < raw.lookups@.len() implies {
            &&& (#[trigger] raw.lookups@[l]).multiplicities.values@.len() == n
            &&& all_have(raw.lookups@[l].helper_polys@, n)
            &&& raw.lookups@[l].aggregator_poly.values@.len() == n
        } by {
            assert(raw.lookups@[l].sized(n));
            lemma_all_have(raw.lookups@[l].helper_polys@, n);
        }
        assert forall|i: int| 0 <= i < raw.trashcans@.len() implies (
        #[trigger] raw.trashcans@[i]).trash_poly.values@.len() == n by {
            assert(tb[i].len() == n);
        }
        assert forall|i: int| 0 <= i < raw.permutations.sets@.len() implies (
        #[trigger] raw.permutations.sets@[i]).permutation_product_poly.values@.len() == n by {
            assert(pb[i].len() == n);
        }
    }
}

/// Which answers a fold goes on with: traces whose polynomials have one entry for
/// each row; a beta with `beta^n != 1`, once the traces are of one shape; a numerator
/// for each lifted trace; a gamma with `gamma^NB_FOLDED != 1`; numerators with a value
/// for each row, or for each point of the coset; and anything else that comes.
pub proof fn lemma_can_take<F: PrimeField, const NB_FOLDED: usize>(
    prover: ProtogalaxyProver<F, NB_FOLDED>,
    event: Event<F>,
    r: bool,
)
    requires
        prover.wf(),
        call_ensures(ProtogalaxyProver::<F, NB_FOLDED>::can_take, (&prover, &event), r),
        prover.current() is AwaitingBeta ==> laws::same_shape(
            prover::refs(held(prover.current())),
        ),
    ensures
        ({
            let p = F::modulus();
            let n = pow2(prover.folding_key().domain.log_n());
            r == match (prover.current(), event) {
                (Stage::Tracing { .. }, Event::RawTrace(raw)) => raw_has(raw, n),
                (Stage::AwaitingBeta { .. }, Event::Challenge(beta)) => !zp::eqm(
                    p,
                    zp::pw(beta.val(), n as int),
                    1,
                ),
                (Stage::Lifted { lifted, .. }, Event::Numerators(nus)) => nus@.len()
                    == lifted@.len(),
                (Stage::AwaitingGamma { .. }, Event::Challenge(gamma)) => !zp::eqm(
                    p,
                    zp::pw(gamma.val(), NB_FOLDED as int),
                    1,
                ),
                (Stage::Folded { .. }, Event::Numerator(nu)) => nu.values@.len() == n,
                (Stage::AwaitingNu { .. }, Event::Nu(nu)) => nu.values@.len() == pow2(
                    prover.folding_key().domain.log_ext(),
                ),
                _ => true,
            }
        }),
{
    let n = pow2(prover.folding_key().domain.log_n());
    match (prover.current(), event) {
        (Stage::Tracing { .. }, Event::RawTrace(raw)) => {
            lemma_raw_has(raw, n);
        },
        (Stage::AwaitingBeta { traces: ts }, Event::Challenge(_)) => {
            let refs = prover::refs(held(prover.current()));
            lemma_pow2_pos(prover.folding_domain().log_n());
            assert(refs.len() == NB_FOLDED);
            assert forall|i: int, s: Slot|
                0 <= i < refs.len() && (#[trigger] refs[i]).dims().has_slot(s) implies (
            #[trigger] refs[i].buffer(s)).len() == n by {
                assert(plonk::trace_sized(ts@[i], n));
                lemma_sized_slot(ts@[i], n, s);
            }
            traces::lemma_compatible(refs, n);
        },
        _ => {},
    }
}

proof fn lemma_sized_slot<F>(t: FoldingProverTrace<F>, n: nat, s: Slot)
    requires
        plonk::trace_sized(t, n),
        t.dims().has_slot(s),
    ensures
        t.buffer(s).len() == n,
{
    match s {
        Slot::Advice(i) => {
            assert(trace::bufs(t.advice_polys@)[i].len() == n);
        },
        Slot::Instance(i) => {
            assert(trace::bufs(t.instance_polys@)[i].len() == n);
        },
        Slot::Multiplicities(l) => {
            assert(t.lookups@[l].multiplicities.values@.len() == n);
        },
        Slot::Helper(l, h) => {
            assert(t.dims().lookups[l] == t.lookups@[l].logup_shape());
            assert(trace::bufs(t.lookups@[l].helper_polys@)[h].len() == n);
        },
        Slot::Aggregator(l) => {
            assert(t.lookups@[l].aggregator_poly.values@.len() == n);
        },
        Slot::Trash(i) => {
            assert(trace::bufs(t.trash_polys@)[i].len() == n);
        },
        Slot::Perm(i) => {
            assert(trace::bufs(t.perm_polys@)[i].len() == n);
        },
    }
}

/// A fold can start exactly if the key's polynomials have the sizes of its domain, the
/// number of instances is a power of two, and some power of two no less than the
/// degree minus one, times that number, is the size of a domain of the field that can
/// be addressed.
pub proof fn lemma_can_start<F: PrimeField, const NB_FOLDED: usize>(key: FoldingKey<F>, r: bool)
    requires
        key.domain.wf(),
        call_ensures(ProtogalaxyProver::<F, NB_FOLDED>::can_start, (&key,), r),
    ensures
        ({
            let (n, e) = (pow2(key.domain.log_n()), pow2(key.domain.log_ext()));
            r <==> {
                &&& key.l0.values@.len() == e
                &&& key.l_last.values@.len() == e
                &&& key.l_active_row.values@.len() == e
                &&& all_have(key.permutation_polys@, n)
                &&& key.degree >= 1
                &&& exists|l: nat, m: nat|
                    {
                        &&& NB_FOLDED == #[trigger] pow2(l)
                        &&& key.degree - 1 <= #[trigger] pow2(m)
                        &&& l + m <= F::two_adicity()
                        &&& pow2(l) * pow2(m) <= usize::MAX
                    }
            }
        }),
{
    lemma_all_have(key.permutation_polys@, pow2(key.domain.log_n()));
    if key.degree >= 1 {
        let q = (key.degree - 1) as nat;
        let c = domain::ceil_log2(q);
        domain::lemma_ceil_log2_least(q);
        assert forall|l: nat, m: nat|
            NB_FOLDED == #[trigger] pow2(l) && q <= #[trigger] pow2(m) && l + m
                <= F::two_adicity() && pow2(l) * pow2(m) <= usize::MAX implies {
            &&& domain::extended_log(key.degree as nat, l) <= F::two_adicity()
            &&& pow2(domain::extended_log(key.degree as nat, l)) <= usize::MAX
        } by {
            if m < c {
                if m < c - 1 {
                    lemma_pow2_strictly_increases(m, (c - 1) as nat);
                }
                assert(false);
            }
            lemma_pow2_adds(l, m);
            lemma_pow2_adds(l, c);
            if c < m {
                lemma_pow2_strictly_increases((l + c) as nat, (l + m) as nat);
            }
        }
        assert forall|l: nat|
            NB_FOLDED == #[trigger] pow2(l) && domain::extended_log(key.degree as nat, l)
                <= F::two_adicity() && pow2(domain::extended_log(key.degree as nat, l))
                <= usize::MAX implies exists|m: nat|
            {
                &&& q <= #[trigger] pow2(m)
                &&& l + m <= F::two_adicity()
                &&& pow2(l) * pow2(m) <= usize::MAX
            } by {
            lemma_pow2_adds(l, c);
            assert(q <= pow2(c));
        }
    }
}

// ---------------------------------------------------------------------------
// The quotient
// ---------------------------------------------------------------------------

/// `G` holds, for each numerator, the value at beta of the polynomial through its
/// values on the rows.
pub proof fn lemma_g_is_value_at_beta<F: PrimeField>(
    d: EvaluationDomain<F>,
    numerators: Vec<Polynomial<F, LagrangeCoeff>>,
    beta: F,
    basis: Vec<F>,
    g: Vec<F>,
    t: int,
)
    requires
        d.wf(),
        call_ensures(crate::combine::eval_lagrange_on_beta::<F>, (&d, &beta), basis),
        call_ensures(evaluate_g::<F>, (&numerators, &basis), g),
        0 <= t < numerators@.len(),
        numerators@[t].values@.len() == pow2(d.log_n()),
    ensures
        g@.len() == numerators@.len(),
        g@[t].val() == at_row_point(numerators@[t], d.log_n(), beta),
{
    d.lemma_sizes();
    assert(field::vals(g@).len() == g@.len());
    assert(field::vals(g@)[t] == g@[t].val());
    prover::lemma_dot_is_value(numerators@[t].values@, basis@, beta, d.log_n());
}

/// If `G` is, on the coset, a polynomial `q` times the vanishing polynomial, and `q` has
/// no more coefficients than are kept, then `K` is `q`.
pub proof fn lemma_k_polynomial<F: PrimeField>(
    d: EvaluationDomain<F>,
    g: Vec<F>,
    r: Polynomial<F, Coeff>,
    q: Seq<int>,
)
    requires
        d.wf(),
        g@.len() == pow2(d.log_ext()),
        call_ensures(k_polynomial::<F>, (&d, g), r),
        q.len() <= pow2(d.log_n()) * d.quotient_degree(),
        forall|t: int|
            0 <= t < g@.len() ==> {
                let y = F::zeta_val() * zp::pw(domain::omega::<F>(d.log_ext()), t);
                zp::eqm(
                    F::modulus(),
                    (#[trigger] g@[t]).val(),
                    roots::poly_eval(F::modulus(), q, y) * (zp::pw(y, pow2(d.log_n()) as int) - 1),
                )
            },
    ensures
        r.values@.len() == pow2(d.log_n()) * d.quotient_degree(),
        forall|x: int| #[trigger]
            roots::poly_eval(F::modulus(), r.vals(), x) == roots::poly_eval(F::modulus(), q, x),
{
    let p = F::modulus();
    let (k, e) = (d.log_n(), d.log_ext());
    let gv = field::vals(g@);
    let count = (pow2(k) * d.quotient_degree()) as int;
    let c = r.vals();
    F::lemma_modulus();
    d.lemma_sizes();
    assert forall|t: int| 0 <= t < gv.len() implies zp::eqm(
        p,
        roots::poly_eval(p, q, domain::coset_point::<F>(e, t)) * (zp::pw(
            domain::coset_point::<F>(e, t),
            pow2(k) as int,
        ) - 1),
        #[trigger] gv[t],
    ) by {
        let n = pow2(k) as int;
        let y = F::zeta_val() * zp::pw(domain::omega::<F>(e), t);
        let z = domain::coset_point::<F>(e, t);
        assert(g@[t].val() == gv[t]);
        transforms::lemma_coset_eval::<F>(q, e, t);
        zp::lemma_reduce(p, y);
        zp::lemma_eqm_pow(p, z, y, n);
        zp::lemma_eqm_sub(p, zp::pw(z, n), zp::pw(y, n), 1, 1);
        let v = roots::poly_eval(p, q, y);
        zp::lemma_eqm_mul(p, v, v, zp::pw(z, n) - 1, zp::pw(y, n) - 1);
    }
    assert forall|i: int| 0 <= i < count implies c.len() == count && #[trigger] c[i] == if i
        < q.len() {
        q[i] % p
    } else {
        0
    } by {
        laws::lemma_k_poly_exact::<F>(gv, c, q, k, e, count, i);
    }
    let s = choose|s: Seq<int>| #[trigger]
        prover::is_divided::<F>(gv, s, k, e) && c == domain::coset_interpolate::<F>(
            s,
            e,
        ).subrange(0, count);
    assert(c.len() == count);
    assert forall|x: int| #[trigger] roots::poly_eval(p, c, x) == roots::poly_eval(p, q, x) by {
        laws::lemma_padded_eval(p, q, c, x);
    }
}

/// `K(gamma)` times `gamma^n - 1` is the value at beta of the error terms.
pub proof fn lemma_k_at_gamma<F: PrimeField>(
    rows: EvaluationDomain<F>,
    d: EvaluationDomain<F>,
    error: Polynomial<F, LagrangeCoeff>,
    beta: F,
    basis: Vec<F>,
    terms: &[F],
    coeffs: &[F],
    gamma: F,
    r: F,
)
    requires
        rows.wf(),
        d.wf(),
        error.values@.len() == pow2(rows.log_n()),
        call_ensures(crate::combine::eval_lagrange_on_beta::<F>, (&rows, &beta), basis),
        terms@ == error.values@,
        coeffs@ == basis@,
        call_ensures(k_at_gamma::<F>, (&d, terms, coeffs, gamma), r),
    ensures
        zp::eqm(
            F::modulus(),
            r.val() * (zp::pw(gamma.val(), pow2(d.log_n()) as int) - 1),
            at_row_point(error, rows.log_n(), beta),
        ),
{
    rows.lemma_sizes();
    prover::lemma_dot_is_value(error.values@, basis@, beta, rows.log_n());
}

} // verus!
