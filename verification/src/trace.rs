//! Prover traces in the form in which they are folded.
use crate::combine::LinearSpace;
use crate::field::PrimeField;
use crate::parallel::map_items;
use crate::poly;
use crate::poly::{add_into, copy_of, scale_in_place, zero_vec, LagrangeCoeff, Polynomial};
use vstd::prelude::*;

verus! {

/// The lengths of a lookup's polynomials.
#[verifier::ext_equal]
pub struct LogupShape {
    pub multiplicities: nat,
    pub helpers: Seq<nat>,
    pub aggregator: nat,
}

/// The lengths of a trace's polynomials and challenge vectors.
#[verifier::ext_equal]
pub struct TraceShape {
    pub advice: Seq<nat>,
    pub instance: Seq<nat>,
    pub lookups: Seq<LogupShape>,
    pub trash: Seq<nat>,
    pub perm: Seq<nat>,
    pub theta: nat,
    pub y: nat,
}

/// A polynomial of a trace.
pub enum Slot {
    Advice(int),
    Instance(int),
    Multiplicities(int),
    Helper(int, int),
    Aggregator(int),
    Trash(int),
    Perm(int),
}

/// A scalar of a trace: a value of one of its polynomials, or a challenge.
pub enum Coord {
    Value(Slot, int),
    Beta,
    Gamma,
    Theta(int),
    TrashChallenge,
    Y(int),
}

/// `s` with every length replaced by `n`.
pub open spec fn all_len(s: Seq<nat>, n: nat) -> Seq<nat> {
    Seq::new(s.len(), |i: int| n)
}

impl LogupShape {
    /// The same polynomials, each of length `n`.
    pub open spec fn with_len(self, n: nat) -> LogupShape {
        LogupShape { multiplicities: n, helpers: all_len(self.helpers, n), aggregator: n }
    }

    /// The lengths, in canonical order.
    pub open spec fn lens(self) -> Seq<nat> {
        seq![self.multiplicities] + self.helpers + seq![self.aggregator]
    }
}

/// The lengths of the first `n` lookups' polynomials, in canonical order.
pub open spec fn lookup_lens(ls: Seq<LogupShape>, n: nat) -> Seq<nat>
    decreases n,
{
    if n == 0 {
        Seq::empty()
    } else {
        lookup_lens(ls, (n - 1) as nat) + ls[n - 1].lens()
    }
}

impl TraceShape {
    /// Whether a trace of this shape has the polynomial.
    pub open spec fn has_slot(self, s: Slot) -> bool {
        match s {
            Slot::Advice(i) => 0 <= i < self.advice.len(),
            Slot::Instance(i) => 0 <= i < self.instance.len(),
            Slot::Multiplicities(l) => 0 <= l < self.lookups.len(),
            Slot::Helper(l, h) => 0 <= l < self.lookups.len() && 0 <= h
                < self.lookups[l].helpers.len(),
            Slot::Aggregator(l) => 0 <= l < self.lookups.len(),
            Slot::Trash(i) => 0 <= i < self.trash.len(),
            Slot::Perm(i) => 0 <= i < self.perm.len(),
        }
    }

    /// The number of values of a polynomial.
    pub open spec fn slot_len(self, s: Slot) -> nat {
        match s {
            Slot::Advice(i) => self.advice[i],
            Slot::Instance(i) => self.instance[i],
            Slot::Multiplicities(l) => self.lookups[l].multiplicities,
            Slot::Helper(l, h) => self.lookups[l].helpers[h],
            Slot::Aggregator(l) => self.lookups[l].aggregator,
            Slot::Trash(i) => self.trash[i],
            Slot::Perm(i) => self.perm[i],
        }
    }

    /// Whether a trace of this shape has the scalar.
    pub open spec fn has_coord(self, c: Coord) -> bool {
        match c {
            Coord::Value(s, m) => self.has_slot(s) && 0 <= m < self.slot_len(s),
            Coord::Theta(i) => 0 <= i < self.theta,
            Coord::Y(i) => 0 <= i < self.y,
            _ => true,
        }
    }

    /// The lengths of the polynomials, in canonical order: advice, instance,
    /// lookups, trash, permutation.
    pub open spec fn lens(self) -> Seq<nat> {
        self.advice + self.instance + lookup_lens(self.lookups, self.lookups.len()) + self.trash
            + self.perm
    }

    /// The place of a polynomial in the canonical order.
    pub open spec fn index_of(self, s: Slot) -> int {
        let a = self.advice.len() as int;
        let b = a + self.instance.len();
        let c = b + lookup_lens(self.lookups, self.lookups.len()).len();
        match s {
            Slot::Advice(i) => i,
            Slot::Instance(i) => a + i,
            Slot::Multiplicities(l) => b + lookup_lens(self.lookups, l as nat).len(),
            Slot::Helper(l, h) => b + lookup_lens(self.lookups, l as nat).len() + 1 + h,
            Slot::Aggregator(l) => b + lookup_lens(self.lookups, l as nat).len() + 1
                + self.lookups[l].helpers.len(),
            Slot::Trash(i) => c + i,
            Slot::Perm(i) => c + self.trash.len() + i,
        }
    }

    /// The number of challenges.
    pub open spec fn n_challenges(self) -> nat {
        3 + self.theta + self.y
    }

    /// The length of the first polynomial, zero if there is none.
    pub open spec fn first_len(self) -> nat {
        if self.lens().len() == 0 {
            0
        } else {
            self.lens()[0]
        }
    }

    /// The same polynomials and challenges, each polynomial of length `n`.
    pub open spec fn with_len(self, n: nat) -> TraceShape {
        TraceShape {
            advice: all_len(self.advice, n),
            instance: all_len(self.instance, n),
            lookups: Seq::new(self.lookups.len(), |i: int| self.lookups[i].with_len(n)),
            trash: all_len(self.trash, n),
            perm: all_len(self.perm, n),
            theta: self.theta,
            y: self.y,
        }
    }
}

/// A single lookup trace in folding form: polynomials by their values.
#[derive(Debug)]
pub struct FoldingLogupTrace<F> {
    pub multiplicities: Polynomial<F, LagrangeCoeff>,
    pub helper_polys: Vec<Polynomial<F, LagrangeCoeff>>,
    pub aggregator_poly: Polynomial<F, LagrangeCoeff>,
}

/// A single prover trace lifted for folding.
///
/// Every polynomial is kept by its values on the domain. Folding is a linear
/// combination and the change of basis is linear, so the two commute: coefficient
/// form is only needed for the single folded trace.
#[derive(Debug)]
pub struct FoldingProverTrace<F> {
    pub advice_polys: Vec<Polynomial<F, LagrangeCoeff>>,
    pub instance_polys: Vec<Polynomial<F, LagrangeCoeff>>,
    pub lookups: Vec<FoldingLogupTrace<F>>,
    pub trash_polys: Vec<Polynomial<F, LagrangeCoeff>>,
    /// Flattened permutation product polynomials (one per set).
    pub perm_polys: Vec<Polynomial<F, LagrangeCoeff>>,
    pub beta: F,
    pub gamma: F,
    pub theta: Vec<F>,
    pub trash_challenge: F,
    pub y: Vec<F>,
}

/// The values of each polynomial.
pub open spec fn bufs<F, B>(ps: Seq<Polynomial<F, B>>) -> Seq<Seq<F>> {
    Seq::new(ps.len(), |i: int| ps[i].values@)
}

/// The length of each buffer.
pub open spec fn lens_of<F>(bs: Seq<Seq<F>>) -> Seq<nat> {
    Seq::new(bs.len(), |i: int| bs[i].len())
}

/// The contents of each slice.
pub open spec fn slices<F>(v: Seq<&[F]>) -> Seq<Seq<F>> {
    Seq::new(v.len(), |i: int| v[i]@)
}

/// The buffers of the first `n` lookups, in canonical order.
pub open spec fn lookup_bufs<F>(ls: Seq<FoldingLogupTrace<F>>, n: nat) -> Seq<Seq<F>>
    decreases n,
{
    if n == 0 {
        Seq::empty()
    } else {
        lookup_bufs(ls, (n - 1) as nat) + ls[n - 1].bufs()
    }
}

impl<F> FoldingLogupTrace<F> {
    /// The lengths of the polynomials.
    pub open spec fn logup_shape(self) -> LogupShape {
        LogupShape {
            multiplicities: self.multiplicities.values@.len(),
            helpers: lens_of(bufs(self.helper_polys@)),
            aggregator: self.aggregator_poly.values@.len(),
        }
    }

    /// The buffers, in canonical order.
    pub open spec fn bufs(self) -> Seq<Seq<F>> {
        seq![self.multiplicities.values@] + bufs(self.helper_polys@) + seq![
            self.aggregator_poly.values@,
        ]
    }
}

impl<F> FoldingProverTrace<F> {
    /// The lengths of the polynomials and challenge vectors.
    pub open spec fn dims(self) -> TraceShape {
        TraceShape {
            advice: lens_of(bufs(self.advice_polys@)),
            instance: lens_of(bufs(self.instance_polys@)),
            lookups: Seq::new(self.lookups@.len(), |i: int| self.lookups@[i].logup_shape()),
            trash: lens_of(bufs(self.trash_polys@)),
            perm: lens_of(bufs(self.perm_polys@)),
            theta: self.theta@.len(),
            y: self.y@.len(),
        }
    }

    /// The values of a polynomial.
    pub open spec fn buffer(self, s: Slot) -> Seq<F> {
        match s {
            Slot::Advice(i) => self.advice_polys@[i].values@,
            Slot::Instance(i) => self.instance_polys@[i].values@,
            Slot::Multiplicities(l) => self.lookups@[l].multiplicities.values@,
            Slot::Helper(l, h) => self.lookups@[l].helper_polys@[h].values@,
            Slot::Aggregator(l) => self.lookups@[l].aggregator_poly.values@,
            Slot::Trash(i) => self.trash_polys@[i].values@,
            Slot::Perm(i) => self.perm_polys@[i].values@,
        }
    }

    /// The scalar at a coordinate.
    pub open spec fn scalar(self, c: Coord) -> F {
        match c {
            Coord::Value(s, m) => self.buffer(s)[m],
            Coord::Beta => self.beta,
            Coord::Gamma => self.gamma,
            Coord::Theta(i) => self.theta@[i],
            Coord::TrashChallenge => self.trash_challenge,
            Coord::Y(i) => self.y@[i],
        }
    }

    /// Every buffer of the trace, in canonical order: advice, instance, lookups,
    /// trash, permutation.
    pub open spec fn flat(self) -> Seq<Seq<F>> {
        bufs(self.advice_polys@) + bufs(self.instance_polys@) + lookup_bufs(
            self.lookups@,
            self.lookups@.len(),
        ) + bufs(self.trash_polys@) + bufs(self.perm_polys@)
    }

    /// The challenges, in canonical order.
    pub open spec fn challenge_seq(self) -> Seq<F> {
        seq![self.beta, self.gamma] + self.theta@ + seq![self.trash_challenge] + self.y@
    }
}

proof fn lemma_lookup_lens<F>(t: FoldingProverTrace<F>, n: nat)
    requires
        n <= t.lookups@.len(),
    ensures
        lens_of(lookup_bufs(t.lookups@, n)) == lookup_lens(t.dims().lookups, n),
    decreases n,
{
    if n > 0 {
        lemma_lookup_lens(t, (n - 1) as nat);
        let b = lookup_bufs(t.lookups@, (n - 1) as nat);
        let l = t.lookups@[n - 1];
        assert(t.dims().lookups[n - 1] == l.logup_shape());
        assert(lens_of(l.bufs()) =~= l.logup_shape().lens());
        assert(lens_of(b + l.bufs()) =~= lens_of(b) + lens_of(l.bufs()));
    }
    assert(lens_of(lookup_bufs(t.lookups@, n)) =~= lookup_lens(t.dims().lookups, n));
}

/// Traces of the same shape flatten to the same sequence of buffer lengths.
pub proof fn lemma_flat_lens<F>(t: FoldingProverTrace<F>)
    ensures
        lens_of(t.flat()) == t.dims().lens(),
{
    let n = t.lookups@.len();
    lemma_lookup_lens(t, n);
    let (a, b, c, d, e) = (
        bufs(t.advice_polys@),
        bufs(t.instance_polys@),
        lookup_bufs(t.lookups@, n),
        bufs(t.trash_polys@),
        bufs(t.perm_polys@),
    );
    assert(lens_of(a + b) =~= lens_of(a) + lens_of(b));
    assert(lens_of(a + b + c) =~= lens_of(a + b) + lens_of(c));
    assert(lens_of(a + b + c + d) =~= lens_of(a + b + c) + lens_of(d));
    assert(lens_of(a + b + c + d + e) =~= lens_of(a + b + c + d) + lens_of(e));
}

/// The buffers of lookup `l` stand behind those of the lookups before it.
proof fn lemma_lookup_index<F>(ls: Seq<FoldingLogupTrace<F>>, l: nat, n: nat, k: int)
    requires
        l < n <= ls.len(),
        0 <= k < ls[l as int].bufs().len(),
    ensures
        lookup_bufs(ls, l).len() + ls[l as int].bufs().len() <= lookup_bufs(ls, n).len(),
        lookup_bufs(ls, n)[lookup_bufs(ls, l).len() + k] == ls[l as int].bufs()[k],
    decreases n,
{
    if l < n - 1 {
        lemma_lookup_index(ls, l, (n - 1) as nat, k);
    }
}

/// A polynomial stands at its place in the canonical order.
pub proof fn lemma_index_of<F>(t: FoldingProverTrace<F>, s: Slot)
    requires
        t.dims().has_slot(s),
    ensures
        0 <= t.dims().index_of(s) < t.flat().len(),
        t.flat()[t.dims().index_of(s)] == t.buffer(s),
        t.buffer(s).len() == t.dims().slot_len(s),
{
    let n = t.lookups@.len();
    lemma_lookup_lens(t, n);
    assert(lens_of(lookup_bufs(t.lookups@, n)).len() == lookup_bufs(t.lookups@, n).len());
    match s {
        Slot::Multiplicities(l) => {
            lemma_lookup_lens(t, l as nat);
            assert(lens_of(lookup_bufs(t.lookups@, l as nat)).len() == lookup_bufs(
                t.lookups@,
                l as nat,
            ).len());
            lemma_lookup_index(t.lookups@, l as nat, n, 0);
        },
        Slot::Helper(l, h) => {
            lemma_lookup_lens(t, l as nat);
            assert(lens_of(lookup_bufs(t.lookups@, l as nat)).len() == lookup_bufs(
                t.lookups@,
                l as nat,
            ).len());
            lemma_lookup_index(t.lookups@, l as nat, n, 1 + h);
        },
        Slot::Aggregator(l) => {
            lemma_lookup_lens(t, l as nat);
            assert(lens_of(lookup_bufs(t.lookups@, l as nat)).len() == lookup_bufs(
                t.lookups@,
                l as nat,
            ).len());
            lemma_lookup_index(
                t.lookups@,
                l as nat,
                n,
                1 + t.lookups@[l].helper_polys@.len() as int,
            );
        },
        _ => {},
    }
}

/// A challenge stands at its place in the canonical order.
pub proof fn lemma_challenge_order<F>(t: FoldingProverTrace<F>)
    ensures
        t.challenge_seq().len() == t.dims().n_challenges(),
        t.challenge_seq()[0] == t.beta,
        t.challenge_seq()[1] == t.gamma,
        forall|i: int| 0 <= i < t.theta@.len() ==> t.challenge_seq()[2 + i] == #[trigger] t.theta@[i],
        t.challenge_seq()[2 + t.theta@.len() as int] == t.trash_challenge,
        forall|i: int|
            0 <= i < t.y@.len() ==> t.challenge_seq()[3 + t.theta@.len() + i] == #[trigger] t.y@[i],
{
}

/// The two traces have the same polynomials and equal challenges; only what the
/// polynomials hold may differ.
pub open spec fn same_frame<F>(a: FoldingProverTrace<F>, b: FoldingProverTrace<F>) -> bool {
    &&& a.advice_polys@.len() == b.advice_polys@.len()
    &&& a.instance_polys@.len() == b.instance_polys@.len()
    &&& a.lookups@.len() == b.lookups@.len()
    &&& forall|l: int|
        0 <= l < a.lookups@.len() ==> (#[trigger] a.lookups@[l]).helper_polys@.len()
            == b.lookups@[l].helper_polys@.len()
    &&& a.trash_polys@.len() == b.trash_polys@.len()
    &&& a.perm_polys@.len() == b.perm_polys@.len()
    &&& a.beta == b.beta
    &&& a.gamma == b.gamma
    &&& a.theta == b.theta
    &&& a.trash_challenge == b.trash_challenge
    &&& a.y == b.y
}

/// The two traces hold the same polynomials.
pub open spec fn same_polys<F>(a: FoldingProverTrace<F>, b: FoldingProverTrace<F>) -> bool {
    &&& a.advice_polys == b.advice_polys
    &&& a.instance_polys == b.instance_polys
    &&& a.lookups == b.lookups
    &&& a.trash_polys == b.trash_polys
    &&& a.perm_polys == b.perm_polys
}

/// The number of buffers only depends on the number of polynomials.
proof fn lemma_lookup_count(a: Seq<LogupShape>, b: Seq<LogupShape>, n: nat)
    requires
        n <= a.len(),
        a.len() == b.len(),
        forall|l: int|
            0 <= l < a.len() ==> (#[trigger] a[l]).helpers.len() == b[l].helpers.len(),
    ensures
        lookup_lens(a, n).len() == lookup_lens(b, n).len(),
    decreases n,
{
    if n > 0 {
        lemma_lookup_count(a, b, (n - 1) as nat);
        assert(a[n - 1].helpers.len() == b[n - 1].helpers.len());
    }
}

/// A trace's shape is known from its polynomials' lengths in canonical order.
proof fn lemma_dims_by_lens<F>(a: FoldingProverTrace<F>, d: TraceShape)
    requires
        a.dims().advice.len() == d.advice.len(),
        a.dims().instance.len() == d.instance.len(),
        a.dims().lookups.len() == d.lookups.len(),
        forall|l: int|
            0 <= l < d.lookups.len() ==> (#[trigger] a.dims().lookups[l]).helpers.len()
                == d.lookups[l].helpers.len(),
        a.dims().trash.len() == d.trash.len(),
        a.dims().perm.len() == d.perm.len(),
        a.dims().theta == d.theta,
        a.dims().y == d.y,
        forall|s: Slot|
            a.dims().has_slot(s) ==> (#[trigger] a.buffer(s)).len() == d.slot_len(s),
    ensures
        a.dims() == d,
{
    let e = a.dims();
    assert forall|i: int| 0 <= i < e.advice.len() implies e.advice[i] == d.advice[i] by {
        assert(a.buffer(Slot::Advice(i)).len() == d.slot_len(Slot::Advice(i)));
    }
    assert(e.advice =~= d.advice);
    assert forall|i: int| 0 <= i < e.instance.len() implies e.instance[i] == d.instance[i] by {
        assert(a.buffer(Slot::Instance(i)).len() == d.slot_len(Slot::Instance(i)));
    }
    assert(e.instance =~= d.instance);
    assert forall|i: int| 0 <= i < e.trash.len() implies e.trash[i] == d.trash[i] by {
        assert(a.buffer(Slot::Trash(i)).len() == d.slot_len(Slot::Trash(i)));
    }
    assert(e.trash =~= d.trash);
    assert forall|i: int| 0 <= i < e.perm.len() implies e.perm[i] == d.perm[i] by {
        assert(a.buffer(Slot::Perm(i)).len() == d.slot_len(Slot::Perm(i)));
    }
    assert(e.perm =~= d.perm);
    assert forall|l: int| 0 <= l < e.lookups.len() implies #[trigger] e.lookups[l]
        == d.lookups[l] by {
        let (x, y) = (e.lookups[l], d.lookups[l]);
        assert(a.buffer(Slot::Multiplicities(l)).len() == d.slot_len(Slot::Multiplicities(l)));
        assert(a.buffer(Slot::Aggregator(l)).len() == d.slot_len(Slot::Aggregator(l)));
        assert forall|h: int| 0 <= h < x.helpers.len() implies x.helpers[h] == y.helpers[h] by {
            assert(a.buffer(Slot::Helper(l, h)).len() == d.slot_len(Slot::Helper(l, h)));
        }
        assert(x.helpers =~= y.helpers);
    }
    assert(e.lookups =~= d.lookups);
}

/// Traces with the same polynomials and the same buffer lengths have the same
/// shape.
pub proof fn lemma_same_dims<F>(a: FoldingProverTrace<F>, b: FoldingProverTrace<F>)
    requires
        same_frame(a, b),
        lens_of(a.flat()) == lens_of(b.flat()),
    ensures
        b.dims() == a.dims(),
{
    let (d, e) = (a.dims(), b.dims());
    assert forall|l: int| 0 <= l < d.lookups.len() implies (#[trigger] e.lookups[l]).helpers.len()
        == d.lookups[l].helpers.len() by {
        assert(a.lookups@[l].helper_polys@.len() == b.lookups@[l].helper_polys@.len());
    }
    assert forall|s: Slot| e.has_slot(s) implies (#[trigger] b.buffer(s)).len() == d.slot_len(
        s,
    ) by {
        lemma_lookup_count(d.lookups, e.lookups, d.lookups.len());
        match s {
            Slot::Multiplicities(l) => lemma_lookup_count(d.lookups, e.lookups, l as nat),
            Slot::Helper(l, h) => {
                assert(e.lookups[l].helpers.len() == d.lookups[l].helpers.len());
                lemma_lookup_count(d.lookups, e.lookups, l as nat);
            },
            Slot::Aggregator(l) => {
                assert(e.lookups[l].helpers.len() == d.lookups[l].helpers.len());
                lemma_lookup_count(d.lookups, e.lookups, l as nat);
            },
            _ => {},
        }
        assert(d.index_of(s) == e.index_of(s));
        lemma_index_of(a, s);
        lemma_index_of(b, s);
        let i = d.index_of(s);
        assert(lens_of(a.flat())[i] == a.buffer(s).len());
        assert(lens_of(b.flat())[i] == b.buffer(s).len());
    }
    lemma_dims_by_lens(b, d);
}

/// Setting every length to the one that all buffers already have changes
/// nothing.
pub proof fn lemma_uniform_dims<F>(a: FoldingProverTrace<F>, n: nat)
    requires
        forall|i: int| 0 <= i < a.flat().len() ==> (#[trigger] a.flat()[i]).len() == n,
    ensures
        a.dims().with_len(n) == a.dims(),
{
    let d = a.dims().with_len(n);
    assert forall|s: Slot| a.dims().has_slot(s) implies (#[trigger] a.buffer(s)).len()
        == d.slot_len(s) by {
        lemma_index_of(a, s);
    }
    lemma_dims_by_lens(a, d);
}

/// Traces with the same polynomials have the same buffers.
pub proof fn lemma_same_polys<F>(a: FoldingProverTrace<F>, b: FoldingProverTrace<F>)
    requires
        same_polys(a, b),
    ensures
        a.flat() == b.flat(),
        a.theta@.len() == b.theta@.len() && a.y@.len() == b.y@.len() ==> a.dims() == b.dims(),
{
}

// ---------------------------------------------------------------------------
// Families of polynomials
// ---------------------------------------------------------------------------

/// The length from which on polynomials are worth handing out to threads.
const PARALLEL_LEN: usize = 1024;

/// Each buffer of `r` is that of `a` plus that of `b`, as far as `b` reaches.
pub open spec fn added_all<F: PrimeField>(a: Seq<Seq<F>>, b: Seq<Seq<F>>, r: Seq<Seq<F>>) -> bool {
    &&& r.len() == a.len()
    &&& forall|i: int|
        0 <= i < a.len() ==> if i < b.len() {
            poly::added(a[i], b[i], #[trigger] r[i])
        } else {
            r[i] == a[i]
        }
}

/// Each buffer of `r` is that of `a` times `c`.
pub open spec fn scaled_all<F: PrimeField>(a: Seq<Seq<F>>, c: int, r: Seq<Seq<F>>) -> bool {
    &&& r.len() == a.len()
    &&& forall|i: int| 0 <= i < a.len() ==> poly::scaled(a[i], c, #[trigger] r[i])
}

/// The sum of two polynomials, the first alone if there is no second.
fn add_pair<F: PrimeField>(
    a: Polynomial<F, LagrangeCoeff>,
    b: Option<&Polynomial<F, LagrangeCoeff>>,
) -> (r: Polynomial<F, LagrangeCoeff>)
    ensures
        match b {
            Some(q) => poly::added(a.values@, q.values@, r.values@),
            None => r.values@ == a.values@,
        },
{
    match b {
        Some(q) => a.add(q),
        None => a,
    }
}

/// Adds the polynomials of `b` to those of `a`, as far as both reach.
fn add_polys<F: PrimeField>(
    a: Vec<Polynomial<F, LagrangeCoeff>>,
    b: &Vec<Polynomial<F, LagrangeCoeff>>,
) -> (r: Vec<Polynomial<F, LagrangeCoeff>>)
    ensures
        added_all(bufs(a@), bufs(b@), bufs(r@)),
{
    let ghost a0 = a@;
    let worthwhile: bool = a.len() > 0 && a[0].values.len() >= PARALLEL_LEN;
    let mut pairs: Vec<(Polynomial<F, LagrangeCoeff>, Option<&Polynomial<F, LagrangeCoeff>>)> =
        Vec::with_capacity(a.len());
    for p in it: a
        invariant
            it.seq() == a0,
            pairs@.len() == it.index(),
            forall|i: int|
                0 <= i < pairs@.len() ==> (#[trigger] pairs@[i]).0 == a0[i] && match pairs@[i].1 {
                    Some(q) => i < b@.len() && *q == b@[i],
                    None => i >= b@.len(),
                },
    {
        let i: usize = pairs.len();
        if i < b.len() {
            pairs.push((p, Some(&b[i])));
        } else {
            pairs.push((p, None));
        }
    }
    let ghost pairs0 = pairs@;
    let add = |pair: (
        Polynomial<F, LagrangeCoeff>,
        Option<&Polynomial<F, LagrangeCoeff>>,
    )| -> (r: Polynomial<F, LagrangeCoeff>)
        ensures
            match pair.1 {
                Some(q) => poly::added(pair.0.values@, q.values@, r.values@),
                None => r.values@ == pair.0.values@,
            },
    {
        add_pair(pair.0, pair.1)
    };
    let r: Vec<Polynomial<F, LagrangeCoeff>> = map_items(pairs, worthwhile, add);
    proof {
        assert forall|i: int| 0 <= i < bufs(a0).len() implies if i < bufs(b@).len() {
            poly::added(bufs(a0)[i], bufs(b@)[i], #[trigger] bufs(r@)[i])
        } else {
            bufs(r@)[i] == bufs(a0)[i]
        } by {
            assert(pairs0[i].0 == a0[i]);
        }
    }
    r
}

/// Multiplies every polynomial by `c`.
fn scale_polys<F: PrimeField>(a: Vec<Polynomial<F, LagrangeCoeff>>, c: F) -> (r: Vec<
    Polynomial<F, LagrangeCoeff>,
>)
    ensures
        scaled_all(bufs(a@), c.val(), bufs(r@)),
{
    let ghost a0 = a@;
    let worthwhile: bool = a.len() > 0 && a[0].values.len() >= PARALLEL_LEN;
    let scale = |p: Polynomial<F, LagrangeCoeff>| -> (r: Polynomial<F, LagrangeCoeff>)
        ensures
            poly::scaled(p.values@, c.val(), r.values@),
    {
        p.mul(c)
    };
    let r: Vec<Polynomial<F, LagrangeCoeff>> = map_items(a, worthwhile, scale);
    proof {
        assert forall|i: int| 0 <= i < bufs(a0).len() implies poly::scaled(
            bufs(a0)[i],
            c.val(),
            #[trigger] bufs(r@)[i],
        ) by {
            assert(r@[i].values@ == bufs(r@)[i]);
        }
    }
    r
}

/// `count` zero polynomials of length `n`.
fn zero_polys<F: PrimeField>(count: usize, n: usize) -> (r: Vec<Polynomial<F, LagrangeCoeff>>)
    ensures
        r@.len() == count,
        forall|i: int| 0 <= i < count ==> poly::is_zero(#[trigger] bufs(r@)[i], n as nat),
{
    let mut r: Vec<Polynomial<F, LagrangeCoeff>> = Vec::with_capacity(count);
    while r.len() < count
        invariant
            r@.len() <= count,
            forall|i: int| 0 <= i < r@.len() ==> poly::is_zero((#[trigger] r@[i]).values@, n as nat),
        decreases count - r@.len(),
    {
        r.push(Polynomial::zero(n));
    }
    r
}

/// Appends the buffers of `ps` to `v`.
fn push_slices<'a, F>(v: &mut Vec<&'a [F]>, ps: &'a Vec<Polynomial<F, LagrangeCoeff>>)
    ensures
        slices(final(v)@) == slices(old(v)@) + bufs(ps@),
{
    let ghost v0 = v@;
    let mut i: usize = 0;
    while i < ps.len()
        invariant
            i <= ps@.len(),
            slices(v@) == slices(v0) + bufs(ps@).subrange(0, i as int),
        decreases ps@.len() - i,
    {
        let ghost v1 = v@;
        v.push(ps[i].values.as_slice());
        proof {
            assert(slices(v@) =~= slices(v1).push(ps@[i as int].values@));
            assert(bufs(ps@).subrange(0, i + 1) =~= bufs(ps@).subrange(0, i as int).push(
                ps@[i as int].values@,
            ));
        }
        i = i + 1;
    }
    proof {
        assert(bufs(ps@).subrange(0, ps@.len() as int) =~= bufs(ps@));
    }
}

/// Appends one buffer to `v`.
fn push_slice<'a, F>(v: &mut Vec<&'a [F]>, p: &'a Polynomial<F, LagrangeCoeff>)
    ensures
        slices(final(v)@) == slices(old(v)@) + seq![p.values@],
{
    v.push(p.values.as_slice());
    proof {
        assert(slices(v@) =~= slices(old(v)@) + seq![p.values@]);
    }
}

/// The buffers of `ps`, for writing.
fn slices_mut<'a, F>(ps: &'a mut Vec<Polynomial<F, LagrangeCoeff>>) -> (v: Vec<&'a mut [F]>)
    ensures
        v@.len() == old(ps)@.len(),
        final(ps)@.len() == old(ps)@.len(),
        forall|i: int| 0 <= i < v@.len() ==> v@[i]@ == bufs(old(ps)@)[i],
        forall|i: int| 0 <= i < v@.len() ==> #[trigger] bufs(final(ps)@)[i] == final(v@[i])@,
{
    let ghost n = ps@.len();
    let mut v: Vec<&'a mut [F]> = Vec::new();
    let mut rest: &'a mut [Polynomial<F, LagrangeCoeff>] = ps.as_mut_slice();
    let ghost all = rest@;
    let ghost last = final(rest)@;
    while rest.len() > 0
        invariant
            v@.len() + rest@.len() == n,
            all.len() == n,
            rest@ == all.subrange(v@.len() as int, n as int),
            forall|i: int| 0 <= i < v@.len() ==> v@[i]@ == all[i].values@,
            last.len() == v@.len() + final(rest)@.len(),
            last.subrange(v@.len() as int, last.len() as int) == final(rest)@,
            forall|i: int| 0 <= i < v@.len() ==> (#[trigger] last[i]).values@ == final(v@[i])@,
        decreases rest@.len(),
    {
        let ghost here = final(rest)@;
        let ghost k = v@.len() as int;
        let (first, tail) = rest.split_at_mut(1);
        let p: &'a mut Polynomial<F, LagrangeCoeff> = &mut first[0];
        v.push(p.values.as_mut_slice());
        rest = tail;
        proof {
            assert(here.len() == 1 + final(rest)@.len());
            assert(last[k] == here[0]);
            assert(last.subrange(k + 1, last.len() as int) =~= here.subrange(
                1,
                here.len() as int,
            ));
            assert(here.subrange(1, here.len() as int) =~= final(rest)@);
        }
    }
    v
}

/// The buffers of a lookup, in canonical order, for writing.
fn lookup_slices_mut<'a, F>(l: &'a mut FoldingLogupTrace<F>) -> (v: Vec<&'a mut [F]>)
    ensures
        v@.len() == old(l).bufs().len(),
        final(l).helper_polys@.len() == old(l).helper_polys@.len(),
        forall|i: int| 0 <= i < v@.len() ==> v@[i]@ == old(l).bufs()[i],
        forall|i: int| 0 <= i < v@.len() ==> #[trigger] final(l).bufs()[i] == final(v@[i])@,
{
    let mut v: Vec<&'a mut [F]> = Vec::new();
    v.push(l.multiplicities.values.as_mut_slice());
    let mut helpers: Vec<&'a mut [F]> = slices_mut(&mut l.helper_polys);
    v.append(&mut helpers);
    v.push(l.aggregator_poly.values.as_mut_slice());
    v
}

/// The buffers of all lookups, in canonical order, for writing.
fn all_lookup_slices_mut<'a, F>(ls: &'a mut Vec<FoldingLogupTrace<F>>) -> (v: Vec<&'a mut [F]>)
    ensures
        v@.len() == lookup_bufs(old(ls)@, old(ls)@.len()).len(),
        final(ls)@.len() == old(ls)@.len(),
        forall|l: int|
            0 <= l < old(ls)@.len() ==> (#[trigger] final(ls)@[l]).helper_polys@.len() == old(
                ls)@[l].helper_polys@.len(),
        lookup_bufs(final(ls)@, final(ls)@.len()).len() == v@.len(),
        forall|i: int|
            0 <= i < v@.len() ==> v@[i]@ == lookup_bufs(old(ls)@, old(ls)@.len())[i],
        forall|i: int|
            0 <= i < v@.len() ==> #[trigger] lookup_bufs(final(ls)@, final(ls)@.len())[i]
                == final(v@[i])@,
{
    let ghost n = ls@.len();
    let mut v: Vec<&'a mut [F]> = Vec::new();
    let mut rest: &'a mut [FoldingLogupTrace<F>] = ls.as_mut_slice();
    let ghost all = rest@;
    let ghost last = final(rest)@;
    let ghost mut done: nat = 0;
    while rest.len() > 0
        invariant
            done + rest@.len() == n,
            all.len() == n,
            rest@ == all.subrange(done as int, n as int),
            last.len() == done + final(rest)@.len(),
            last.subrange(done as int, last.len() as int) == final(rest)@,
            v@.len() == lookup_bufs(all, done).len(),
            v@.len() == lookup_bufs(last, done).len(),
            forall|l: int|
                0 <= l < done ==> (#[trigger] last[l]).helper_polys@.len()
                    == all[l].helper_polys@.len(),
            forall|i: int| 0 <= i < v@.len() ==> v@[i]@ == lookup_bufs(all, done)[i],
            forall|i: int|
                0 <= i < v@.len() ==> #[trigger] lookup_bufs(last, done)[i] == final(v@[i])@,
        decreases rest@.len(),
    {
        let ghost here = final(rest)@;
        let (first, tail) = rest.split_at_mut(1);
        let l: &'a mut FoldingLogupTrace<F> = &mut first[0];
        let mut one: Vec<&'a mut [F]> = lookup_slices_mut(l);
        v.append(&mut one);
        rest = tail;
        proof {
            assert(here.len() == 1 + final(rest)@.len());
            assert(last[done as int] == here[0]);
            assert(last.subrange(done as int + 1, last.len() as int) =~= here.subrange(
                1,
                here.len() as int,
            ));
            assert(here.subrange(1, here.len() as int) =~= final(rest)@);
            done = done + 1;
        }
    }
    v
}

impl<F: PrimeField> FoldingProverTrace<F> {
    /// A zero-valued trace with the same dimensions as `other`.
    ///
    /// All buffers share the domain size, which is taken from the first buffer.
    pub fn zero_like(other: &Self) -> (r: Self)
        ensures
            r.dims() == other.dims().with_len(other.dims().first_len()),
            forall|c: Coord| r.dims().has_coord(c) ==> (#[trigger] r.scalar(c)).val() == 0,
    {
        let slots: Vec<&[F]> = other.poly_values();
        let mut n: usize = 0;
        if slots.len() > 0 {
            n = slots[0].len();
        }
        proof {
            lemma_flat_lens(*other);
            let lens = other.dims().lens();
            assert(lens_of(slices(slots@)).len() == slots@.len());
            if slots@.len() > 0 {
                assert(lens_of(slices(slots@))[0] == slots@[0]@.len());
            }
            assert(n == other.dims().first_len());
        }
        let mut lookups: Vec<FoldingLogupTrace<F>> = Vec::with_capacity(other.lookups.len());
        while lookups.len() < other.lookups.len()
            invariant
                lookups@.len() <= other.lookups@.len(),
                forall|l: int|
                    0 <= l < lookups@.len() ==> {
                        let z = #[trigger] lookups@[l];
                        &&& poly::is_zero(z.multiplicities.values@, n as nat)
                        &&& poly::is_zero(z.aggregator_poly.values@, n as nat)
                        &&& z.helper_polys@.len() == other.lookups@[l].helper_polys@.len()
                        &&& forall|h: int|
                            0 <= h < z.helper_polys@.len() ==> poly::is_zero(
                                #[trigger] bufs(z.helper_polys@)[h],
                                n as nat,
                            )
                    },
            decreases other.lookups@.len() - lookups@.len(),
        {
            let l: usize = lookups.len();
            lookups.push(
                FoldingLogupTrace {
                    multiplicities: Polynomial::zero(n),
                    helper_polys: zero_polys(other.lookups[l].helper_polys.len(), n),
                    aggregator_poly: Polynomial::zero(n),
                },
            );
        }
        let r = FoldingProverTrace {
            advice_polys: zero_polys(other.advice_polys.len(), n),
            instance_polys: zero_polys(other.instance_polys.len(), n),
            lookups,
            trash_polys: zero_polys(other.trash_polys.len(), n),
            perm_polys: zero_polys(other.perm_polys.len(), n),
            beta: F::zero(),
            gamma: F::zero(),
            theta: zero_vec(other.theta.len()),
            trash_challenge: F::zero(),
            y: zero_vec(other.y.len()),
        };
        proof {
            let goal = other.dims().with_len(n as nat);
            assert(r.dims().advice =~= goal.advice);
            assert(r.dims().instance =~= goal.instance);
            assert(r.dims().trash =~= goal.trash);
            assert(r.dims().perm =~= goal.perm);
            assert forall|l: int| 0 <= l < r.dims().lookups.len() implies #[trigger] r.dims().lookups[l]
                == goal.lookups[l] by {
                assert(r.dims().lookups[l].helpers =~= goal.lookups[l].helpers);
            }
            assert(r.dims().lookups =~= goal.lookups);
            assert forall|c: Coord| r.dims().has_coord(c) implies (#[trigger] r.scalar(c)).val()
                == 0 by {
                match c {
                    Coord::Value(s, m) => {
                        match s {
                            Slot::Advice(i) => {
                                assert(poly::is_zero(bufs(r.advice_polys@)[i], n as nat));
                            },
                            Slot::Instance(i) => {
                                assert(poly::is_zero(bufs(r.instance_polys@)[i], n as nat));
                            },
                            Slot::Helper(l, h) => {
                                assert(poly::is_zero(bufs(r.lookups@[l].helper_polys@)[h], n as nat));
                            },
                            Slot::Trash(i) => {
                                assert(poly::is_zero(bufs(r.trash_polys@)[i], n as nat));
                            },
                            Slot::Perm(i) => {
                                assert(poly::is_zero(bufs(r.perm_polys@)[i], n as nat));
                            },
                            _ => {},
                        }
                    },
                    _ => {},
                }
            }
        }
        r
    }

    /// Every polynomial value buffer of the trace, in a fixed canonical order.
    pub fn poly_values(&self) -> (v: Vec<&[F]>)
        ensures
            slices(v@) == self.flat(),
    {
        let mut v: Vec<&[F]> = Vec::new();
        push_slices(&mut v, &self.advice_polys);
        push_slices(&mut v, &self.instance_polys);
        proof {
            assert(slices(Seq::<&[F]>::empty()) =~= Seq::empty());
            assert(Seq::empty() + bufs(self.advice_polys@) =~= bufs(self.advice_polys@));
        }
        let ghost head = slices(v@);
        let mut l: usize = 0;
        proof {
            assert(head =~= head + lookup_bufs(self.lookups@, 0));
        }
        while l < self.lookups.len()
            invariant
                l <= self.lookups@.len(),
                slices(v@) == head + lookup_bufs(self.lookups@, l as nat),
            decreases self.lookups@.len() - l,
        {
            let lookup: &FoldingLogupTrace<F> = &self.lookups[l];
            push_slice(&mut v, &lookup.multiplicities);
            push_slices(&mut v, &lookup.helper_polys);
            push_slice(&mut v, &lookup.aggregator_poly);
            proof {
                assert(slices(v@) =~= head + (lookup_bufs(self.lookups@, l as nat)
                    + lookup.bufs()));
            }
            l = l + 1;
        }
        push_slices(&mut v, &self.trash_polys);
        push_slices(&mut v, &self.perm_polys);
        v
    }

    /// Mutable counterpart of [`Self::poly_values`], in the same order.
    pub fn poly_values_mut(&mut self) -> (v: Vec<&mut [F]>)
        ensures
            same_frame(*old(self), *final(self)),
            v@.len() == old(self).flat().len(),
            final(self).flat().len() == v@.len(),
            forall|i: int| 0 <= i < v@.len() ==> v@[i]@ == old(self).flat()[i],
            forall|i: int| 0 <= i < v@.len() ==> #[trigger] final(self).flat()[i] == final(v@[i])@,
    {
        let mut v: Vec<&mut [F]> = Vec::new();
        let mut advice: Vec<&mut [F]> = slices_mut(&mut self.advice_polys);
        let mut instance: Vec<&mut [F]> = slices_mut(&mut self.instance_polys);
        let mut lookups: Vec<&mut [F]> = all_lookup_slices_mut(&mut self.lookups);
        let mut trash: Vec<&mut [F]> = slices_mut(&mut self.trash_polys);
        let mut perm: Vec<&mut [F]> = slices_mut(&mut self.perm_polys);
        v.append(&mut advice);
        v.append(&mut instance);
        v.append(&mut lookups);
        v.append(&mut trash);
        v.append(&mut perm);
        v
    }

    /// The scalar challenges of the trace, in a fixed canonical order.
    pub fn challenges(&self) -> (v: Vec<F>)
        ensures
            v@ == self.challenge_seq(),
    {
        let mut v: Vec<F> = Vec::new();
        v.push(self.beta);
        v.push(self.gamma);
        let mut theta: Vec<F> = copy_of(self.theta.as_slice());
        v.append(&mut theta);
        v.push(self.trash_challenge);
        let mut y: Vec<F> = copy_of(self.y.as_slice());
        v.append(&mut y);
        proof {
            assert(v@ =~= self.challenge_seq());
        }
        v
    }

    /// Inverse of [`Self::challenges`].
    pub fn set_challenges(&mut self, c: &[F])
        requires
            c@.len() == old(self).dims().n_challenges(),
        ensures
            final(self).challenge_seq() == c@,
            final(self).dims() == old(self).dims(),
            same_polys(*old(self), *final(self)),
    {
        let n_theta: usize = self.theta.len();
        let n_y: usize = self.y.len();
        let n: usize = c.len();
        self.beta = c[0];
        self.gamma = c[1];
        let mut theta: Vec<F> = Vec::with_capacity(n_theta);
        while theta.len() < n_theta
            invariant
                theta@.len() <= n_theta,
                3 + n_theta + n_y == n,
                n == c@.len(),
                theta@ == c@.subrange(2, 2 + theta@.len() as int),
            decreases n_theta - theta@.len(),
        {
            let i: usize = 2 + theta.len();
            theta.push(c[i]);
        }
        self.theta = theta;
        self.trash_challenge = c[2 + n_theta];
        let mut y: Vec<F> = Vec::with_capacity(n_y);
        while y.len() < n_y
            invariant
                y@.len() <= n_y,
                3 + n_theta + n_y == n,
                n == c@.len(),
                y@ == c@.subrange(3 + n_theta, 3 + n_theta + y@.len()),
            decreases n_y - y@.len(),
        {
            let i: usize = 3 + n_theta + y.len();
            y.push(c[i]);
        }
        self.y = y;
        proof {
            assert(self.challenge_seq() =~= c@);
        }
    }
}

impl<F: PrimeField> LinearSpace<F> for FoldingProverTrace<F> {
    type Shape = TraceShape;

    type Coord = Coord;

    open spec fn shape(self) -> TraceShape {
        self.dims()
    }

    open spec fn has(shape: TraceShape, c: Coord) -> bool {
        shape.has_coord(c)
    }

    open spec fn at(self, c: Coord) -> int {
        self.scalar(c).val()
    }

    fn add(self, rhs: &Self) -> (r: Self) {
        let ghost a = self;
        let ghost lookups0 = self.lookups@;
        let mut lookups: Vec<FoldingLogupTrace<F>> = Vec::with_capacity(self.lookups.len());
        for l in it: self.lookups
            invariant
                it.seq() == lookups0,
                lookups@.len() == it.index(),
                forall|i: int|
                    0 <= i < lookups@.len() ==> if i < rhs.lookups@.len() {
                        lookup_added(lookups0[i], rhs.lookups@[i], #[trigger] lookups@[i])
                    } else {
                        lookups@[i] == lookups0[i]
                    },
        {
            let i: usize = lookups.len();
            if i < rhs.lookups.len() {
                lookups.push(add_lookup(l, &rhs.lookups[i]));
            } else {
                lookups.push(l);
            }
        }
        let r = FoldingProverTrace {
            advice_polys: add_polys(self.advice_polys, &rhs.advice_polys),
            instance_polys: add_polys(self.instance_polys, &rhs.instance_polys),
            lookups,
            trash_polys: add_polys(self.trash_polys, &rhs.trash_polys),
            perm_polys: add_polys(self.perm_polys, &rhs.perm_polys),
            beta: self.beta.add(rhs.beta),
            gamma: self.gamma.add(rhs.gamma),
            theta: add_challenges(self.theta, &rhs.theta),
            trash_challenge: self.trash_challenge.add(rhs.trash_challenge),
            y: add_challenges(self.y, &rhs.y),
        };
        proof {
            lemma_added_lens(bufs(a.advice_polys@), bufs(rhs.advice_polys@), bufs(r.advice_polys@));
            lemma_added_lens(
                bufs(a.instance_polys@),
                bufs(rhs.instance_polys@),
                bufs(r.instance_polys@),
            );
            lemma_added_lens(bufs(a.trash_polys@), bufs(rhs.trash_polys@), bufs(r.trash_polys@));
            lemma_added_lens(bufs(a.perm_polys@), bufs(rhs.perm_polys@), bufs(r.perm_polys@));
            assert forall|i: int| 0 <= i < a.lookups@.len() implies (
            #[trigger] r.lookups@[i]).logup_shape() == a.lookups@[i].logup_shape() by {
                if i < rhs.lookups@.len() {
                    lemma_added_lens(
                        bufs(a.lookups@[i].helper_polys@),
                        bufs(rhs.lookups@[i].helper_polys@),
                        bufs(r.lookups@[i].helper_polys@),
                    );
                }
            }
            assert(r.dims().lookups =~= a.dims().lookups);
            assert(r.dims() == a.dims());
            assert forall|c: Coord| a.dims().has_coord(c) implies #[trigger] r.at(c)
                == if rhs.dims().has_coord(c) {
                (a.at(c) + rhs.at(c)) % F::modulus()
            } else {
                a.at(c)
            } by {
                match c {
                    Coord::Value(s, m) => {
                        match s {
                            Slot::Advice(i) => {
                                assert(bufs(r.advice_polys@)[i] == r.buffer(s));
                            },
                            Slot::Instance(i) => {
                                assert(bufs(r.instance_polys@)[i] == r.buffer(s));
                            },
                            Slot::Helper(l, h) => {
                                assert(bufs(r.lookups@[l].helper_polys@)[h] == r.buffer(s));
                            },
                            Slot::Multiplicities(l) => {
                                assert(r.lookups@[l].multiplicities.values@ == r.buffer(s));
                            },
                            Slot::Aggregator(l) => {
                                assert(r.lookups@[l].aggregator_poly.values@ == r.buffer(s));
                            },
                            Slot::Trash(i) => {
                                assert(bufs(r.trash_polys@)[i] == r.buffer(s));
                            },
                            Slot::Perm(i) => {
                                assert(bufs(r.perm_polys@)[i] == r.buffer(s));
                            },
                        }
                    },
                    _ => {},
                }
            }
        }
        r
    }

    fn mul(self, scalar: F) -> (r: Self) {
        let ghost a = self;
        let ghost lookups0 = self.lookups@;
        let mut lookups: Vec<FoldingLogupTrace<F>> = Vec::with_capacity(self.lookups.len());
        for l in it: self.lookups
            invariant
                it.seq() == lookups0,
                lookups@.len() == it.index(),
                forall|i: int|
                    0 <= i < lookups@.len() ==> lookup_scaled(
                        lookups0[i],
                        scalar.val(),
                        #[trigger] lookups@[i],
                    ),
        {
            lookups.push(
                FoldingLogupTrace {
                    multiplicities: l.multiplicities.mul(scalar),
                    helper_polys: scale_polys(l.helper_polys, scalar),
                    aggregator_poly: l.aggregator_poly.mul(scalar),
                },
            );
        }
        let r = FoldingProverTrace {
            advice_polys: scale_polys(self.advice_polys, scalar),
            instance_polys: scale_polys(self.instance_polys, scalar),
            lookups,
            trash_polys: scale_polys(self.trash_polys, scalar),
            perm_polys: scale_polys(self.perm_polys, scalar),
            beta: self.beta.mul(scalar),
            gamma: self.gamma.mul(scalar),
            theta: scale_challenges(self.theta, scalar),
            trash_challenge: self.trash_challenge.mul(scalar),
            y: scale_challenges(self.y, scalar),
        };
        proof {
            let k = scalar.val();
            lemma_scaled_lens(bufs(a.advice_polys@), k, bufs(r.advice_polys@));
            lemma_scaled_lens(bufs(a.instance_polys@), k, bufs(r.instance_polys@));
            lemma_scaled_lens(bufs(a.trash_polys@), k, bufs(r.trash_polys@));
            lemma_scaled_lens(bufs(a.perm_polys@), k, bufs(r.perm_polys@));
            assert forall|i: int| 0 <= i < a.lookups@.len() implies (
            #[trigger] r.lookups@[i]).logup_shape() == a.lookups@[i].logup_shape() by {
                lemma_scaled_lens(
                    bufs(a.lookups@[i].helper_polys@),
                    k,
                    bufs(r.lookups@[i].helper_polys@),
                );
            }
            assert(r.dims().lookups =~= a.dims().lookups);
            assert(r.dims() == a.dims());
            assert forall|c: Coord| a.dims().has_coord(c) implies #[trigger] r.at(c) == (a.at(c)
                * k) % F::modulus() by {
                match c {
                    Coord::Value(s, m) => {
                        match s {
                            Slot::Advice(i) => {
                                assert(bufs(r.advice_polys@)[i] == r.buffer(s));
                            },
                            Slot::Instance(i) => {
                                assert(bufs(r.instance_polys@)[i] == r.buffer(s));
                            },
                            Slot::Helper(l, h) => {
                                assert(bufs(r.lookups@[l].helper_polys@)[h] == r.buffer(s));
                            },
                            Slot::Multiplicities(l) => {
                                assert(r.lookups@[l].multiplicities.values@ == r.buffer(s));
                            },
                            Slot::Aggregator(l) => {
                                assert(r.lookups@[l].aggregator_poly.values@ == r.buffer(s));
                            },
                            Slot::Trash(i) => {
                                assert(bufs(r.trash_polys@)[i] == r.buffer(s));
                            },
                            Slot::Perm(i) => {
                                assert(bufs(r.perm_polys@)[i] == r.buffer(s));
                            },
                        }
                    },
                    _ => {},
                }
            }
        }
        r
    }
}

/// `r` is the lookup `a` plus the lookup `b`.
spec fn lookup_added<F: PrimeField>(
    a: FoldingLogupTrace<F>,
    b: FoldingLogupTrace<F>,
    r: FoldingLogupTrace<F>,
) -> bool {
    &&& poly::added(a.multiplicities.values@, b.multiplicities.values@, r.multiplicities.values@)
    &&& added_all(bufs(a.helper_polys@), bufs(b.helper_polys@), bufs(r.helper_polys@))
    &&& poly::added(a.aggregator_poly.values@, b.aggregator_poly.values@, r.aggregator_poly.values@)
}

/// `r` is the lookup `a` times `c`.
spec fn lookup_scaled<F: PrimeField>(
    a: FoldingLogupTrace<F>,
    c: int,
    r: FoldingLogupTrace<F>,
) -> bool {
    &&& poly::scaled(a.multiplicities.values@, c, r.multiplicities.values@)
    &&& scaled_all(bufs(a.helper_polys@), c, bufs(r.helper_polys@))
    &&& poly::scaled(a.aggregator_poly.values@, c, r.aggregator_poly.values@)
}

proof fn lemma_added_lens<F: PrimeField>(a: Seq<Seq<F>>, b: Seq<Seq<F>>, r: Seq<Seq<F>>)
    requires
        added_all(a, b, r),
    ensures
        lens_of(r) == lens_of(a),
{
    assert forall|i: int| 0 <= i < a.len() implies (#[trigger] r[i]).len() == a[i].len() by {}
    assert(lens_of(r) =~= lens_of(a));
}

proof fn lemma_scaled_lens<F: PrimeField>(a: Seq<Seq<F>>, c: int, r: Seq<Seq<F>>)
    requires
        scaled_all(a, c, r),
    ensures
        lens_of(r) == lens_of(a),
{
    assert forall|i: int| 0 <= i < a.len() implies (#[trigger] r[i]).len() == a[i].len() by {}
    assert(lens_of(r) =~= lens_of(a));
}

/// The sum of two lookups.
fn add_lookup<F: PrimeField>(a: FoldingLogupTrace<F>, b: &FoldingLogupTrace<F>) -> (r:
    FoldingLogupTrace<F>)
    ensures
        lookup_added(a, *b, r),
{
    FoldingLogupTrace {
        multiplicities: add_pair(a.multiplicities, Some(&b.multiplicities)),
        helper_polys: add_polys(a.helper_polys, &b.helper_polys),
        aggregator_poly: add_pair(a.aggregator_poly, Some(&b.aggregator_poly)),
    }
}

/// Adds challenges, as far as both reach.
fn add_challenges<F: PrimeField>(a: Vec<F>, b: &Vec<F>) -> (r: Vec<F>)
    ensures
        poly::added(a@, b@, r@),
{
    let mut r: Vec<F> = a;
    add_into(&mut r, b);
    r
}

/// Multiplies challenges by a scalar.
fn scale_challenges<F: PrimeField>(a: Vec<F>, c: F) -> (r: Vec<F>)
    ensures
        poly::scaled(a@, c.val(), r@),
{
    let mut r: Vec<F> = a;
    scale_in_place(&mut r, c);
    r
}

} // verus!
