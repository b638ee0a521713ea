//! Lifting traces to the coset and folding them at a point.
//!
//! Lifting computes, at every point `x` of the coset, the trace
//! `L_0(x) w_0 + L_1(x) w_1 + ...` that interpolates the input traces over the
//! domain. Each output scalar only depends on the input scalars at the same
//! coordinate, so the computation is one column transform per coordinate.
use crate::blocks;
use crate::blocks::{block_size, regroup_by_slot, split_into_blocks};
use crate::column;
use crate::column::ColumnTransform;
use crate::combine;
use crate::combine::{linear_combination, LinearSpace};
use crate::domain;
use crate::domain::EvaluationDomain;
use crate::field;
use crate::field::PrimeField;
use crate::parallel::map_items;
use crate::poly::{eval_polynomial, zero_vec, Coeff, ExtendedLagrangeCoeff, LagrangeCoeff, Polynomial};
use crate::roots;
use crate::trace;
use crate::trace::FoldingProverTrace;
use vstd::arithmetic::power2::*;
use vstd::prelude::*;

verus! {

/// The values of several buffers at one coordinate.
pub open spec fn column_at<F: PrimeField>(bs: Seq<Seq<F>>, m: int) -> Seq<int> {
    Seq::new(bs.len(), |i: int| bs[i][m].val())
}

/// The buffer of slot `p` in each trace.
pub open spec fn slot_of<F>(traces: Seq<&FoldingProverTrace<F>>, p: int) -> Seq<Seq<F>> {
    Seq::new(traces.len(), |i: int| traces[i].flat()[p])
}

/// The challenges of each trace.
pub open spec fn challenges_of<F>(traces: Seq<&FoldingProverTrace<F>>) -> Seq<Seq<F>> {
    Seq::new(traces.len(), |i: int| traces[i].challenge_seq())
}

/// Applies the column transform to every coordinate of one block of output rows,
/// which starts at coordinate `off` of the inputs.
pub fn fold_block<F: PrimeField>(
    ct: &ColumnTransform<F>,
    inputs: &Vec<&[F]>,
    off: usize,
    rows: Vec<&mut [F]>,
)
    requires
        ct.wf(),
        inputs@.len() == pow2(ct.log_n()),
        rows@.len() == pow2(ct.log_ext()),
        forall|t: int|
            #![trigger rows@[t]]
            0 <= t < rows@.len() ==> rows@[t]@.len() == rows@[0]@.len(),
        forall|i: int|
            0 <= i < inputs@.len() ==> (#[trigger] inputs@[i])@.len() >= off + rows@[0]@.len(),
    ensures
        forall|t: int|
            #![trigger rows@[t]]
            0 <= t < rows@.len() ==> {
                &&& final(rows@[t])@.len() == rows@[t]@.len()
                &&& forall|m: int|
                    0 <= m < rows@[t]@.len() ==> (#[trigger] final(rows@[t])@[m]).val()
                        == column::lifted::<F>(
                        column_at(trace::slices(inputs@), off + m),
                        ct.log_n(),
                        ct.log_ext(),
                        t,
                    )
            },
{
    let ghost rows0 = rows@;
    let ghost k = ct.log_n();
    let ghost e = ct.log_ext();
    let ghost bs = trace::slices(inputs@);
    proof {
        ct.lemma_sizes();
    }
    let mut rows: Vec<&mut [F]> = rows;
    let mut column: Vec<F> = zero_vec(ct.k());
    let mut buf: Vec<F> = zero_vec(ct.k());
    let n_local: usize = rows[0].len();
    let mut m: usize = 0;
    while m < n_local
        invariant
            ct.wf(),
            k == ct.log_n(),
            e == ct.log_ext(),
            bs == trace::slices(inputs@),
            inputs@.len() == pow2(k),
            column@.len() == pow2(k),
            buf@.len() == pow2(k),
            m <= n_local,
            rows@.len() == rows0.len(),
            rows0.len() == pow2(e),
            forall|i: int|
                0 <= i < inputs@.len() ==> (#[trigger] inputs@[i])@.len() >= off + n_local,
            forall|t: int| 0 <= t < rows0.len() ==> rows0[t]@.len() == n_local,
            forall|t: int|
                #![trigger rows@[t]]
                0 <= t < rows0.len() ==> {
                    &&& rows@[t]@.len() == n_local
                    &&& final(rows@[t])@ == final(rows0[t])@
                    &&& forall|j: int|
                        0 <= j < m ==> (#[trigger] rows@[t]@[j]).val() == column::lifted::<F>(
                            column_at(bs, off + j),
                            k,
                            e,
                            t,
                        )
                },
        decreases n_local - m,
    {
        let n: usize = column.len();
        let mut i: usize = 0;
        while i < n
            invariant
                i <= n,
                n == column@.len(),
                n == inputs@.len(),
                m < n_local,
                forall|i: int|
                    0 <= i < inputs@.len() ==> (#[trigger] inputs@[i])@.len() >= off + n_local,
                forall|j: int| 0 <= j < i ==> #[trigger] column@[j] == inputs@[j]@[off + m],
            decreases n - i,
        {
            let input: &[F] = inputs[i];
            let len: usize = input.len();
            column[i] = input[off + m];
            i = i + 1;
        }
        proof {
            assert(field::vals(column@) =~= column_at(bs, off + m));
        }
        ct.interpolate(column.as_mut_slice());
        let ghost rows1 = rows@;
        ct.evaluate_all_into_rows(column.as_slice(), buf.as_mut_slice(), rows.as_mut_slice(), m);
        proof {
            let n = pow2(k) as int;
            assert(column@.subrange(0, n) =~= column@);
            assert forall|t: int|
                #![trigger rows@[t]]
                0 <= t < rows0.len() implies {
                &&& rows@[t]@.len() == n_local
                &&& final(rows@[t])@ == final(rows0[t])@
                &&& forall|j: int|
                    0 <= j < m + 1 ==> (#[trigger] rows@[t]@[j]).val() == column::lifted::<F>(
                        column_at(bs, off + j),
                        k,
                        e,
                        t,
                    )
            } by {
                assert(rows1[t]@.len() == n_local);
                assert(column::row_set(
                    rows1[t]@,
                    rows@[t]@,
                    m as int,
                    column::value_on_coset(column@, n, e, t),
                ));
                assert forall|j: int| 0 <= j < m + 1 implies (#[trigger] rows@[t]@[j]).val()
                    == column::lifted::<F>(column_at(bs, off + j), k, e, t) by {
                    if j < m {
                        assert(rows@[t]@[j] == rows1[t]@[j]);
                    }
                }
            }
        }
        m = m + 1;
    }
    proof {
        assert forall|t: int|
            #![trigger rows0[t]]
            0 <= t < rows0.len() implies final(rows0[t])@ == rows@[t]@ by {
            assert(has_resolved(rows@[t]));
        }
    }
}

/// A block lies inside the buffer.
pub(crate) proof fn lemma_block_bounds(len: int, block: int, b: int)
    requires
        block > 0,
        len >= 0,
        0 <= b < blocks::block_count(len, block),
    ensures
        0 <= b * block < blocks::block_end(len, block, b) <= len,
{
    let c = blocks::block_count(len, block);
    vstd::arithmetic::div_mod::lemma_fundamental_div_mod(len + block - 1, block);
    vstd::arithmetic::div_mod::lemma_mod_bound(len + block - 1, block);
    assert((b + 1) * block == b * block + block) by (nonlinear_arith);
    assert((b + 1) * block <= block * c) by (nonlinear_arith)
        requires
            b + 1 <= c,
            block > 0,
    ;
    assert(0 <= b * block) by (nonlinear_arith)
        requires
            b >= 0,
            block > 0,
    ;
}

/// Every coordinate lies in a block.
pub(crate) proof fn lemma_block_of(len: int, block: int, m: int)
    requires
        block > 0,
        0 <= m < len,
    ensures
        0 <= m / block < blocks::block_count(len, block),
        (m / block) * block <= m < blocks::block_end(len, block, m / block),
{
    let b = m / block;
    vstd::arithmetic::div_mod::lemma_fundamental_div_mod(m, block);
    vstd::arithmetic::div_mod::lemma_mod_bound(m, block);
    assert(block * b == b * block) by (nonlinear_arith);
    assert((b + 1) * block == b * block + block) by (nonlinear_arith);
    vstd::arithmetic::div_mod::lemma_div_pos_is_pos(m, block);
    vstd::arithmetic::div_mod::lemma_fundamental_div_mod(len + block - 1, block);
    vstd::arithmetic::div_mod::lemma_mod_bound(len + block - 1, block);
    let c = blocks::block_count(len, block);
    assert(b < c) by (nonlinear_arith)
        requires
            block > 0,
            b * block <= len - 1,
            len + block - 1 < block * c + block,
    ;
}

/// Applies the column transform to every coordinate of one polynomial slot,
/// block by block.
fn fold_slot<F: PrimeField>(
    ct: &ColumnTransform<F>,
    inputs: &Vec<&[F]>,
    rows: Vec<&mut [F]>,
    len: usize,
    block: usize,
)
    requires
        ct.wf(),
        block > 0,
        inputs@.len() == pow2(ct.log_n()),
        rows@.len() == pow2(ct.log_ext()),
        forall|t: int| #![trigger rows@[t]] 0 <= t < rows@.len() ==> rows@[t]@.len() == len,
        forall|i: int| 0 <= i < inputs@.len() ==> (#[trigger] inputs@[i])@.len() == len,
    ensures
        forall|t: int|
            #![trigger rows@[t]]
            0 <= t < rows@.len() ==> {
                &&& final(rows@[t])@.len() == len
                &&& forall|m: int|
                    0 <= m < len ==> (#[trigger] final(rows@[t])@[m]).val() == column::lifted::<F>(
                        column_at(trace::slices(inputs@), m),
                        ct.log_n(),
                        ct.log_ext(),
                        t,
                    )
            },
{
    let ghost rows0 = rows@;
    let ghost bs = trace::slices(inputs@);
    let ghost n = len as int;
    let ghost size = block as int;
    let ghost k = ct.log_n();
    let ghost e = ct.log_ext();
    proof {
        ct.lemma_sizes();
    }
    let blocks: Vec<(usize, Vec<&mut [F]>)> = split_into_blocks(rows, len, block);
    let ghost blocks0 = blocks@;
    let fold = |b: (usize, Vec<&mut [F]>)| -> (u: ())
        requires
            b.1@.len() == pow2(ct.log_ext()),
            forall|t: int|
                #![trigger b.1@[t]]
                0 <= t < b.1@.len() ==> b.1@[t]@.len() == b.1@[0]@.len(),
            b.0 + b.1@[0]@.len() <= len,
        ensures
            forall|t: int|
                #![trigger b.1@[t]]
                0 <= t < b.1@.len() ==> {
                    &&& final(b.1@[t])@.len() == b.1@[t]@.len()
                    &&& forall|m: int|
                        0 <= m < b.1@[t]@.len() ==> (#[trigger] final(b.1@[t])@[m]).val()
                            == column::lifted::<F>(
                            column_at(trace::slices(inputs@), b.0 + m),
                            ct.log_n(),
                            ct.log_ext(),
                            t,
                        )
                },
    {
        fold_block(ct, inputs, b.0, b.1)
    };
    proof {
        assert forall|b: int| 0 <= b < blocks@.len() implies call_requires(
            fold,
            (#[trigger] blocks@[b],),
        ) by {
            lemma_block_bounds(n, size, b);
        }
    }
    let done: Vec<()> = map_items(blocks, true, fold);
    proof {
        assert forall|t: int|
            #![trigger rows0[t]]
            0 <= t < rows0.len() implies {
            &&& final(rows0[t])@.len() == len
            &&& forall|m: int|
                0 <= m < len ==> (#[trigger] final(rows0[t])@[m]).val() == column::lifted::<F>(
                    column_at(bs, m),
                    k,
                    e,
                    t,
                )
        } by {
            assert forall|b: int| 0 <= b < blocks0.len() implies final(
                (#[trigger] blocks0[b]).1@[t])@.len() == blocks::block_end(n, size, b) - b
                * size by {
                lemma_block_bounds(n, size, b);
                let args = (blocks0[b],);
                assert(args.0 == blocks0[b]);
                assert(call_ensures(fold, args, done@[b]));
                assert(args.0.1@[t]@.len() == blocks::block_end(n, size, b) - b * size);
            }
            let whole = final(rows0[t])@;
            assert forall|m: int| 0 <= m < len implies (#[trigger] whole[m]).val()
                == column::lifted::<F>(column_at(bs, m), k, e, t) by {
                lemma_block_of(n, size, m);
                let b = m / size;
                lemma_block_bounds(n, size, b);
                let args = (blocks0[b],);
                assert(args.0 == blocks0[b]);
                assert(call_ensures(fold, args, done@[b]));
                assert(final(blocks0[b].1@[t])@ == whole.subrange(
                    b * size,
                    blocks::block_end(n, size, b),
                ));
                assert(final(blocks0[b].1@[t])@[m - b * size] == whole[m]);
            }
        }
    }
}

/// Folds the scalar challenges of the traces through the column transform,
/// setting those of output trace `t` to their values at point `t` of the coset.
///
/// Only as many input traces as the domain has points are looked at. Output traces
/// beyond the coset's size are left alone.
pub fn fold_challenges<F: PrimeField>(
    ct: &ColumnTransform<F>,
    traces: &[&FoldingProverTrace<F>],
    out_traces: &mut [FoldingProverTrace<F>],
)
    requires
        ct.wf(),
        traces@.len() >= pow2(ct.log_n()),
        forall|i: int|
            0 <= i < pow2(ct.log_n()) ==> (#[trigger] traces@[i]).challenge_seq().len()
                >= traces@[0].challenge_seq().len(),
        forall|t: int|
            0 <= t < old(out_traces)@.len() && t < pow2(ct.log_ext()) ==> (#[trigger] old(
                out_traces)@[t]).challenge_seq().len() == traces@[0].challenge_seq().len(),
    ensures
        final(out_traces)@.len() == old(out_traces)@.len(),
        forall|t: int|
            0 <= t < old(out_traces)@.len() && t < pow2(ct.log_ext()) ==> {
                &&& challenges_lifted(
                    traces@.take(pow2(ct.log_n()) as int),
                    #[trigger] final(out_traces)@[t],
                    ct.log_n(),
                    ct.log_ext(),
                    t,
                )
                &&& trace::same_polys(old(out_traces)@[t], final(out_traces)@[t])
                &&& final(out_traces)@[t].dims() == old(out_traces)@[t].dims()
            },
        forall|t: int|
            pow2(ct.log_ext()) <= t < old(out_traces)@.len() ==> #[trigger] final(out_traces)@[t]
                == old(out_traces)@[t],
{
    let ghost k = ct.log_n();
    let ghost e = ct.log_ext();
    let ghost first = traces@.take(pow2(k) as int);
    let ghost cs = challenges_of(first);
    proof {
        ct.lemma_sizes();
    }
    let n_traces: usize = ct.k();
    let mut per_trace: Vec<Vec<F>> = Vec::with_capacity(n_traces);
    while per_trace.len() < n_traces
        invariant
            per_trace@.len() <= n_traces <= traces@.len(),
            forall|i: int|
                0 <= i < per_trace@.len() ==> (#[trigger] per_trace@[i])@
                    == traces@[i].challenge_seq(),
        decreases n_traces - per_trace@.len(),
    {
        let i: usize = per_trace.len();
        per_trace.push(traces[i].challenges());
    }
    let n_ch: usize = per_trace[0].len();
    let ext_len: usize = ct.ext_len();
    let mut column: Vec<F> = zero_vec(ct.k());
    let mut buf: Vec<F> = zero_vec(ct.k());
    let mut out: Vec<F> = zero_vec(ext_len);
    let mut folded: Vec<Vec<F>> = Vec::with_capacity(ext_len);
    while folded.len() < ext_len
        invariant
            folded@.len() <= ext_len,
            forall|t: int| 0 <= t < folded@.len() ==> (#[trigger] folded@[t])@.len() == n_ch,
        decreases ext_len - folded@.len(),
    {
        folded.push(zero_vec(n_ch));
    }
    let mut c: usize = 0;
    while c < n_ch
        invariant
            ct.wf(),
            k == ct.log_n(),
            e == ct.log_ext(),
            cs == challenges_of(first),
            ext_len == pow2(e),
            c <= n_ch,
            first == traces@.take(pow2(k) as int),
            n_traces == pow2(k),
            n_traces <= traces@.len(),
            per_trace@.len() == n_traces,
            column@.len() == pow2(k),
            buf@.len() == pow2(k),
            out@.len() == pow2(e),
            folded@.len() == pow2(e),
            forall|i: int|
                0 <= i < n_traces ==> (#[trigger] traces@[i]).challenge_seq().len() >= n_ch,
            forall|i: int|
                0 <= i < per_trace@.len() ==> (#[trigger] per_trace@[i])@
                    == traces@[i].challenge_seq(),
            forall|t: int|
                0 <= t < folded@.len() ==> {
                    &&& (#[trigger] folded@[t])@.len() == n_ch
                    &&& forall|d: int|
                        0 <= d < c ==> (#[trigger] folded@[t]@[d]).val() == column::lifted::<F>(
                            column_at(cs, d),
                            k,
                            e,
                            t,
                        )
                },
        decreases n_ch - c,
    {
        let n: usize = column.len();
        let mut i: usize = 0;
        while i < n
            invariant
                i <= n,
                n == column@.len(),
                n == per_trace@.len(),
                n == n_traces,
                n_traces <= traces@.len(),
                c < n_ch,
                forall|i: int|
                    0 <= i < n_traces ==> (#[trigger] traces@[i]).challenge_seq().len()
                        >= n_ch,
                forall|i: int|
                    0 <= i < per_trace@.len() ==> (#[trigger] per_trace@[i])@
                        == traces@[i].challenge_seq(),
                forall|j: int|
                    0 <= j < i ==> #[trigger] column@[j] == traces@[j].challenge_seq()[c as int],
            decreases n - i,
        {
            assert(per_trace@[i as int]@ == traces@[i as int].challenge_seq());
            column[i] = per_trace[i][c];
            i = i + 1;
        }
        proof {
            assert(field::vals(column@) =~= column_at(cs, c as int));
        }
        ct.interpolate(column.as_mut_slice());
        ct.evaluate_all(column.as_slice(), buf.as_mut_slice(), out.as_mut_slice());
        proof {
            assert(column@.subrange(0, pow2(k) as int) =~= column@);
        }
        let ghost folded0 = folded@;
        let mut t: usize = 0;
        while t < ext_len
            invariant
                t <= ext_len,
                c < n_ch,
                folded@.len() == ext_len,
                folded0.len() == ext_len,
                out@.len() == ext_len,
                forall|u: int| 0 <= u < ext_len ==> (#[trigger] folded0[u])@.len() == n_ch,
                forall|u: int|
                    0 <= u < t ==> (#[trigger] folded@[u])@ == folded0[u]@.update(
                        c as int,
                        out@[u],
                    ),
                forall|u: int| t <= u < ext_len ==> #[trigger] folded@[u] == folded0[u],
            decreases ext_len - t,
        {
            let v: F = out[t];
            let ghost before = folded@;
            folded[t].set(c, v);
            proof {
                assert forall|u: int| 0 <= u < t + 1 implies (#[trigger] folded@[u])@
                    == folded0[u]@.update(c as int, out@[u]) by {
                    if u < t {
                        assert(folded@[u] == before[u]);
                    }
                }
                assert forall|u: int| t + 1 <= u < ext_len implies #[trigger] folded@[u]
                    == folded0[u] by {
                    assert(folded@[u] == before[u]);
                }
            }
            t = t + 1;
        }
        proof {
            assert forall|t: int| 0 <= t < folded@.len() implies {
                &&& (#[trigger] folded@[t])@.len() == n_ch
                &&& forall|d: int|
                    0 <= d < c + 1 ==> (#[trigger] folded@[t]@[d]).val() == column::lifted::<F>(
                        column_at(cs, d),
                        k,
                        e,
                        t,
                    )
            } by {
                assert(folded0[t]@.len() == n_ch);
                assert forall|d: int| 0 <= d < c + 1 implies (#[trigger] folded@[t]@[d]).val()
                    == column::lifted::<F>(column_at(cs, d), k, e, t) by {
                    if d < c {
                        assert(folded@[t]@[d] == folded0[t]@[d]);
                    } else {
                        assert(folded@[t]@[d] == out@[t]);
                    }
                }
            }
        }
        c = c + 1;
    }
    let n_out: usize = out_traces.len();
    let ghost out0 = out_traces@;
    let mut t: usize = 0;
    while t < n_out && t < ext_len
        invariant
            t <= n_out,
            t <= ext_len,
            ext_len == pow2(e),
            cs == challenges_of(first),
            n_ch == first[0].challenge_seq().len(),
            folded@.len() == ext_len,
            n_out == out0.len(),
            out_traces@.len() == out0.len(),
            forall|u: int|
                0 <= u < out0.len() && u < ext_len ==> (#[trigger] out0[u]).challenge_seq().len()
                    == n_ch,
            forall|u: int|
                0 <= u < ext_len ==> {
                    &&& (#[trigger] folded@[u])@.len() == n_ch
                    &&& forall|d: int|
                        0 <= d < n_ch ==> (#[trigger] folded@[u]@[d]).val() == column::lifted::<F>(
                            column_at(cs, d),
                            k,
                            e,
                            u,
                        )
                },
            forall|u: int|
                0 <= u < t ==> {
                    &&& challenges_lifted(first, #[trigger] out_traces@[u], k, e, u)
                    &&& trace::same_polys(out0[u], out_traces@[u])
                    &&& out_traces@[u].dims() == out0[u].dims()
                },
            forall|u: int| t <= u < out0.len() ==> #[trigger] out_traces@[u] == out0[u],
        decreases n_out - t,
    {
        let ghost before = out_traces@;
        proof {
            trace::lemma_challenge_order(out0[t as int]);
        }
        out_traces[t].set_challenges(folded[t].as_slice());
        proof {
            assert forall|u: int| 0 <= u < t + 1 implies {
                &&& challenges_lifted(first, #[trigger] out_traces@[u], k, e, u)
                &&& trace::same_polys(out0[u], out_traces@[u])
                &&& out_traces@[u].dims() == out0[u].dims()
            } by {
                if u < t {
                    assert(out_traces@[u] == before[u]);
                } else {
                    assert(out_traces@[u].challenge_seq() == folded@[u]@);
                }
            }
            assert forall|u: int| t + 1 <= u < out0.len() implies #[trigger] out_traces@[u]
                == out0[u] by {
                assert(out_traces@[u] == before[u]);
            }
        }
        t = t + 1;
    }
}

/// The challenges of `out` are those of the traces, lifted to point `t`.
pub open spec fn challenges_lifted<F: PrimeField>(
    traces: Seq<&FoldingProverTrace<F>>,
    out: FoldingProverTrace<F>,
    k: nat,
    e: nat,
    t: int,
) -> bool {
    &&& out.challenge_seq().len() == traces[0].challenge_seq().len()
    &&& forall|c: int|
        0 <= c < out.challenge_seq().len() ==> (#[trigger] out.challenge_seq()[c]).val()
            == column::lifted::<F>(column_at(challenges_of(traces), c), k, e, t)
}

/// The polynomials of `out` are those of the traces, lifted to point `t`.
pub open spec fn slots_lifted<F: PrimeField>(
    traces: Seq<&FoldingProverTrace<F>>,
    out: FoldingProverTrace<F>,
    k: nat,
    e: nat,
    t: int,
) -> bool {
    &&& out.flat().len() == traces[0].flat().len()
    &&& forall|p: int, m: int|
        0 <= p < out.flat().len() && 0 <= m < out.flat()[p].len() ==> (
        #[trigger] out.flat()[p][m]).val() == column::lifted::<F>(
            column_at(slot_of(traces, p), m),
            k,
            e,
            t,
        )
}

/// Traces that can be batched: every trace has at least the polynomials and
/// challenges of the first, in canonical order, and those polynomials all have
/// the same length.
pub open spec fn compatible<F: PrimeField>(traces: Seq<&FoldingProverTrace<F>>) -> bool {
    &&& forall|i: int|
        0 <= i < traces.len() ==> {
            &&& (#[trigger] traces[i]).flat().len() >= traces[0].flat().len()
            &&& traces[i].challenge_seq().len() >= traces[0].challenge_seq().len()
        }
    &&& forall|i: int, p: int|
        0 <= i < traces.len() && 0 <= p < traces[0].flat().len() ==> (
        #[trigger] traces[i].flat()[p]).len() == traces[0].dims().first_len()
}

/// Whether traces can be batched.
pub fn traces_compatible<F: PrimeField>(traces: &[&FoldingProverTrace<F>]) -> (r: bool)
    requires
        traces@.len() >= 1,
    ensures
        r == compatible(traces@),
{
    let first: Vec<&[F]> = traces[0].poly_values();
    let n_slots: usize = first.len();
    let n_ch: usize = traces[0].challenges().len();
    let mut len: usize = 0;
    if n_slots > 0 {
        len = first[0].len();
    }
    let ghost flat0 = traces@[0].flat();
    proof {
        assert(trace::slices(first@).len() == n_slots);
        trace::lemma_flat_lens(*traces@[0]);
        assert(trace::lens_of(flat0).len() == flat0.len());
        if n_slots > 0 {
            assert(trace::slices(first@)[0] == first@[0]@);
            assert(trace::lens_of(flat0)[0] == flat0[0].len());
        }
        assert(n_slots > 0 ==> len == traces@[0].dims().first_len());
    }
    let mut i: usize = 0;
    while i < traces.len()
        invariant
            i <= traces@.len(),
            traces@.len() >= 1,
            flat0 == traces@[0].flat(),
            n_slots == flat0.len(),
            n_ch == traces@[0].challenge_seq().len(),
            n_slots > 0 ==> len == traces@[0].dims().first_len(),
            forall|j: int|
                0 <= j < i ==> {
                    &&& (#[trigger] traces@[j]).flat().len() >= n_slots
                    &&& traces@[j].challenge_seq().len() >= n_ch
                },
            forall|j: int, p: int|
                0 <= j < i && 0 <= p < n_slots ==> (#[trigger] traces@[j].flat()[p]).len() == len,
        decreases traces@.len() - i,
    {
        let slots: Vec<&[F]> = traces[i].poly_values();
        let challenges: Vec<F> = traces[i].challenges();
        let ghost flat = traces@[i as int].flat();
        assert(trace::slices(slots@) == flat);
        assert(trace::slices(slots@).len() == slots@.len());
        if slots.len() < n_slots || challenges.len() < n_ch {
            return false;
        }
        let mut p: usize = 0;
        while p < n_slots
            invariant
                p <= n_slots,
                n_slots <= slots@.len(),
                i < traces@.len(),
                flat0 == traces@[0].flat(),
                n_slots == flat0.len(),
                n_slots > 0 ==> len == traces@[0].dims().first_len(),
                flat == traces@[i as int].flat(),
                trace::slices(slots@) == flat,
                forall|q: int| 0 <= q < p ==> (#[trigger] flat[q]).len() == len,
            decreases n_slots - p,
        {
            assert(trace::slices(slots@)[p as int] == slots@[p as int]@);
            if slots[p].len() != len {
                assert(traces@[i as int].flat()[p as int].len() != len);
                return false;
            }
            p = p + 1;
        }
        i = i + 1;
    }
    true
}

/// Interpolates `k` traces over the domain, returning one trace per point of the
/// coset.
///
/// Same result as [`batch_traces`] on traces of one shape, but each input scalar
/// is read once, and the per-coordinate combination is done with fast
/// transforms.
pub fn batch_traces_fft<F: PrimeField>(
    dk_domain: &EvaluationDomain<F>,
    traces: &[&FoldingProverTrace<F>],
) -> (out_traces: Vec<FoldingProverTrace<F>>)
    requires
        dk_domain.wf(),
        traces@.len() == pow2(dk_domain.log_n()),
        compatible(traces@),
    ensures
        out_traces@.len() == pow2(dk_domain.log_ext()),
        forall|t: int|
            0 <= t < out_traces@.len() ==> {
                let (k, e) = (dk_domain.log_n(), dk_domain.log_ext());
                &&& (#[trigger] out_traces@[t]).dims() == traces@[0].dims()
                &&& slots_lifted(traces@, out_traces@[t], k, e, t)
                &&& challenges_lifted(traces@, out_traces@[t], k, e, t)
            },
{
    let ghost k = dk_domain.log_n();
    let ghost e = dk_domain.log_ext();
    let ghost n = traces@[0].dims().first_len();
    let ct: ColumnTransform<F> = ColumnTransform::new(dk_domain);
    proof {
        ct.lemma_sizes();
        trace::lemma_uniform_dims(*traces@[0], n);
    }
    let mut inputs: Vec<Vec<&[F]>> = Vec::with_capacity(traces.len());
    while inputs.len() < traces.len()
        invariant
            inputs@.len() <= traces@.len(),
            forall|i: int|
                0 <= i < inputs@.len() ==> trace::slices((#[trigger] inputs@[i])@)
                    == traces@[i].flat(),
        decreases traces@.len() - inputs@.len(),
    {
        let i: usize = inputs.len();
        inputs.push(traces[i].poly_values());
    }
    let n_slots: usize = inputs[0].len();
    // A field has more than one element, so an element takes up space.
    let block: usize = if core::mem::size_of::<F>() > 0 {
        block_size::<F>(ct.ext_len())
    } else {
        1
    };
    let ext_len: usize = ct.ext_len();
    let mut out_traces: Vec<FoldingProverTrace<F>> = Vec::with_capacity(ext_len);
    while out_traces.len() < ext_len
        invariant
            traces@.len() >= 1,
            n == traces@[0].dims().first_len(),
            traces@[0].dims().with_len(n) == traces@[0].dims(),
            out_traces@.len() <= ext_len,
            forall|t: int|
                0 <= t < out_traces@.len() ==> (#[trigger] out_traces@[t]).dims()
                    == traces@[0].dims(),
        decreases ext_len - out_traces@.len(),
    {
        out_traces.push(FoldingProverTrace::zero_like(traces[0]));
    }
    let ghost blank = out_traces@;
    proof {
        assert(trace::slices(inputs@[0]@) == traces@[0].flat());
        assert(trace::slices(inputs@[0]@).len() == n_slots);
        trace::lemma_flat_lens(*traces@[0]);
        assert forall|t: int| 0 <= t < blank.len() implies {
            &&& (#[trigger] blank[t]).flat().len() == n_slots
            &&& trace::lens_of(blank[t].flat()) == trace::lens_of(traces@[0].flat())
        } by {
            trace::lemma_flat_lens(blank[t]);
            assert(trace::lens_of(blank[t].flat()).len() == blank[t].flat().len());
            assert(trace::lens_of(traces@[0].flat()).len() == n_slots);
        }
    }
    let per_slot: Vec<Vec<&mut [F]>> = regroup_by_slot(out_traces.as_mut_slice(), n_slots);
    let ghost groups = per_slot@;
    let mut p: usize = 0;
    for rows in it: per_slot
        invariant
            ct.wf(),
            k == ct.log_n(),
            e == ct.log_ext(),
            n == traces@[0].dims().first_len(),
            ext_len == pow2(e),
            block > 0,
            compatible(traces@),
            traces@.len() == pow2(k),
            traces@.len() >= 1,
            inputs@.len() == traces@.len(),
            n_slots == traces@[0].flat().len(),
            blank.len() == ext_len,
            it.seq() == groups,
            groups.len() == n_slots,
            p == it.index(),
            forall|i: int|
                0 <= i < inputs@.len() ==> trace::slices((#[trigger] inputs@[i])@)
                    == traces@[i].flat(),
            forall|t: int|
                0 <= t < ext_len ==> trace::lens_of((#[trigger] blank[t]).flat())
                    == trace::lens_of(traces@[0].flat()),
            forall|q: int| 0 <= q < n_slots ==> (#[trigger] groups[q])@.len() == ext_len,
            forall|q: int, t: int|
                0 <= q < n_slots && 0 <= t < ext_len ==> (groups[q]@[t])@ == blank[t].flat()[q],
            forall|q: int, t: int|
                #![trigger groups[q]@[t]]
                0 <= q < p && 0 <= t < ext_len ==> {
                    &&& final(groups[q]@[t])@.len() == n
                    &&& forall|m: int|
                        0 <= m < n ==> (#[trigger] final(groups[q]@[t])@[m]).val()
                            == column::lifted::<F>(column_at(slot_of(traces@, q), m), k, e, t)
                },
    {
        let mut slot_inputs: Vec<&[F]> = Vec::with_capacity(traces.len());
        while slot_inputs.len() < traces.len()
            invariant
                compatible(traces@),
                n == traces@[0].dims().first_len(),
                inputs@.len() == traces@.len(),
                traces@.len() >= 1,
                p < n_slots,
                n_slots == traces@[0].flat().len(),
                slot_inputs@.len() <= traces@.len(),
                forall|i: int|
                    0 <= i < inputs@.len() ==> trace::slices((#[trigger] inputs@[i])@)
                        == traces@[i].flat(),
                forall|i: int|
                    0 <= i < slot_inputs@.len() ==> {
                        &&& (#[trigger] slot_inputs@[i])@ == traces@[i].flat()[p as int]
                        &&& slot_inputs@[i]@.len() == n
                    },
            decreases traces@.len() - slot_inputs@.len(),
        {
            let i: usize = slot_inputs.len();
            proof {
                let flat = trace::slices(inputs@[i as int]@);
                assert(flat == traces@[i as int].flat());
                assert(flat.len() == inputs@[i as int]@.len());
                assert(flat[p as int] == inputs@[i as int]@[p as int]@);
                assert(traces@[i as int].flat()[p as int].len() == n);
            }
            slot_inputs.push(inputs[i][p]);
        }
        let len: usize = slot_inputs[0].len();
        proof {
            let pi = p as int;
            assert(trace::slices(slot_inputs@) =~= slot_of(traces@, pi));
            assert forall|t: int|
                #![trigger rows@[t]]
                0 <= t < rows@.len() implies rows@[t]@.len() == len by {
                assert(groups[pi]@[t]@ == blank[t].flat()[pi]);
                assert(trace::lens_of(blank[t].flat()).len() == blank[t].flat().len());
                assert(trace::lens_of(blank[t].flat())[pi] == blank[t].flat()[pi].len());
                assert(trace::lens_of(traces@[0].flat())[pi] == traces@[0].flat()[pi].len());
            }
        }
        fold_slot(&ct, &slot_inputs, rows, len, block);
        p = p + 1;
    }
    let ghost lifted = out_traces@;
    proof {
        assert forall|t: int| 0 <= t < ext_len implies {
            &&& (#[trigger] lifted[t]).dims() == traces@[0].dims()
            &&& slots_lifted(traces@, lifted[t], k, e, t)
        } by {
            assert(trace::same_frame(blank[t], lifted[t]));
            assert forall|q: int| 0 <= q < n_slots implies lifted[t].flat()[q].len() == n by {
                assert(lifted[t].flat()[q] == final(groups[q]@[t])@);
            }
            assert forall|q: int| 0 <= q < n_slots implies blank[t].flat()[q].len() == n by {
                assert(trace::lens_of(blank[t].flat())[q] == blank[t].flat()[q].len());
                assert(trace::lens_of(traces@[0].flat())[q] == traces@[0].flat()[q].len());
            }
            assert(trace::lens_of(lifted[t].flat()) =~= trace::lens_of(blank[t].flat()));
            trace::lemma_same_dims(blank[t], lifted[t]);
            assert forall|q: int, m: int|
                0 <= q < lifted[t].flat().len() && 0 <= m < lifted[t].flat()[q].len() implies (
            #[trigger] lifted[t].flat()[q][m]).val() == column::lifted::<F>(
                column_at(slot_of(traces@, q), m),
                k,
                e,
                t,
            ) by {
                assert(lifted[t].flat()[q] == final(groups[q]@[t])@);
            }
            trace::lemma_challenge_order(lifted[t]);
            trace::lemma_challenge_order(*traces@[0]);
        }
        assert forall|t: int| 0 <= t < ext_len implies (#[trigger] lifted[t]).challenge_seq().len()
            == traces@[0].challenge_seq().len() by {
            trace::lemma_challenge_order(lifted[t]);
            trace::lemma_challenge_order(*traces@[0]);
        }
    }
    fold_challenges(&ct, traces, out_traces.as_mut_slice());
    proof {
        assert(traces@.take(pow2(k) as int) =~= traces@);
        assert forall|t: int| 0 <= t < out_traces@.len() implies {
            &&& (#[trigger] out_traces@[t]).dims() == traces@[0].dims()
            &&& slots_lifted(traces@, out_traces@[t], k, e, t)
            &&& challenges_lifted(traces@, out_traces@[t], k, e, t)
        } by {
            assert(trace::same_polys(lifted[t], out_traces@[t]));
            trace::lemma_same_polys(lifted[t], out_traces@[t]);
        }
    }
    out_traces
}

/// The values at `x` of the first `count` Lagrange basis polynomials over the
/// domain of size `2^k`.
pub open spec fn basis_at<F: PrimeField>(k: nat, count: nat, x: int) -> Seq<int> {
    Seq::new(
        count,
        |i: int| roots::lagrange(F::modulus(), domain::omega::<F>(k), k, i, x),
    )
}

/// `out` is the combination of the traces with the values at `x` of the
/// Lagrange basis, in the shape of an all-zero copy of the first.
pub open spec fn folded_at<F: PrimeField>(
    traces: Seq<&FoldingProverTrace<F>>,
    out: FoldingProverTrace<F>,
    k: nat,
    x: int,
) -> bool {
    &&& out.dims() == traces[0].dims().with_len(traces[0].dims().first_len())
    &&& forall|c: trace::Coord|
        out.dims().has_coord(c) ==> #[trigger] out.at(c) == combine::combination::<
            F,
            FoldingProverTrace<F>,
        >(traces, basis_at::<F>(k, traces.len(), x), c)
}

/// The first `count` Lagrange basis polynomials of the domain, by coefficients.
fn lagrange_basis<F: PrimeField>(dk_domain: &EvaluationDomain<F>, count: usize) -> (basis: Vec<
    Polynomial<F, Coeff>,
>)
    requires
        dk_domain.wf(),
        count <= pow2(dk_domain.log_n()),
    ensures
        basis@.len() == count,
        forall|i: int|
            0 <= i < count ==> {
                &&& (#[trigger] basis@[i]).values@.len() == pow2(dk_domain.log_n())
                &&& basis@[i].vals() == roots::interpolate(
                    F::modulus(),
                    roots::unit(pow2(dk_domain.log_n()), i),
                    domain::omega::<F>(dk_domain.log_n()),
                    dk_domain.log_n(),
                )
            },
{
    let ghost k = dk_domain.log_n();
    let mut basis: Vec<Polynomial<F, Coeff>> = Vec::with_capacity(count);
    while basis.len() < count
        invariant
            dk_domain.wf(),
            k == dk_domain.log_n(),
            basis@.len() <= count,
            count <= pow2(k),
            forall|i: int|
                0 <= i < basis@.len() ==> {
                    &&& (#[trigger] basis@[i]).values@.len() == pow2(k)
                    &&& basis@[i].vals() == roots::interpolate(
                        F::modulus(),
                        roots::unit(pow2(k), i),
                        domain::omega::<F>(k),
                        k,
                    )
                },
        decreases count - basis@.len(),
    {
        let i: usize = basis.len();
        let mut l: Polynomial<F, LagrangeCoeff> = dk_domain.empty_lagrange();
        let ghost l0 = l;
        l.values.set(i, F::one());
        proof {
            assert forall|j: int| 0 <= j < pow2(k) implies l.vals()[j] == #[trigger] roots::unit(
                pow2(k),
                i as int,
            )[j] by {
                if j != i {
                    assert(l.values@[j] == l0.values@[j]);
                }
            }
            assert(l.vals() =~= roots::unit(pow2(k), i as int));
        }
        basis.push(dk_domain.lagrange_to_coeff(l));
    }
    basis
}

/// Interpolates traces over the domain, returning one trace per point of the
/// coset.
///
/// At point `x` of the coset, the returned trace is
/// `L_0(x) traces[0] + L_1(x) traces[1] + ...`. [`batch_traces_fft`] computes
/// the same thing faster; this is the plain statement of what the transform is.
pub fn batch_traces<F: PrimeField>(
    dk_domain: &EvaluationDomain<F>,
    traces: &[&FoldingProverTrace<F>],
) -> (out_traces: Vec<FoldingProverTrace<F>>)
    requires
        dk_domain.wf(),
        1 <= traces@.len() <= pow2(dk_domain.log_n()),
    ensures
        out_traces@.len() == pow2(dk_domain.log_ext()),
        forall|t: int|
            0 <= t < out_traces@.len() ==> folded_at(
                traces@,
                #[trigger] out_traces@[t],
                dk_domain.log_n(),
                domain::coset_point::<F>(dk_domain.log_ext(), t),
            ),
{
    let ghost p = F::modulus();
    let ghost k = dk_domain.log_n();
    let ghost e = dk_domain.log_ext();
    let ghost w = domain::omega::<F>(k);
    let basis: Vec<Polynomial<F, Coeff>> = lagrange_basis(dk_domain, traces.len());
    let mut lagrange_polys: Vec<Polynomial<F, ExtendedLagrangeCoeff>> = Vec::with_capacity(
        traces.len(),
    );
    while lagrange_polys.len() < traces.len()
        invariant
            dk_domain.wf(),
            p == F::modulus(),
            k == dk_domain.log_n(),
            e == dk_domain.log_ext(),
            w == domain::omega::<F>(k),
            lagrange_polys@.len() <= traces@.len(),
            basis@.len() == traces@.len(),
            forall|i: int|
                0 <= i < basis@.len() ==> {
                    &&& (#[trigger] basis@[i]).values@.len() == pow2(k)
                    &&& basis@[i].vals() == roots::interpolate(p, roots::unit(pow2(k), i), w, k)
                },
            forall|i: int|
                0 <= i < lagrange_polys@.len() ==> {
                    &&& (#[trigger] lagrange_polys@[i]).values@.len() == pow2(e)
                    &&& forall|t: int|
                        0 <= t < pow2(e) ==> (#[trigger] lagrange_polys@[i].values@[t]).val()
                            == roots::lagrange(p, w, k, i, domain::coset_point::<F>(e, t))
                },
        decreases traces@.len() - lagrange_polys@.len(),
    {
        let i: usize = lagrange_polys.len();
        lagrange_polys.push(dk_domain.coeff_to_extended(basis[i].clone()));
    }
    let ext_len: usize = lagrange_polys[0].values.len();
    let mut out_traces: Vec<FoldingProverTrace<F>> = Vec::with_capacity(ext_len);
    while out_traces.len() < ext_len
        invariant
            p == F::modulus(),
            w == domain::omega::<F>(k),
            ext_len == pow2(e),
            traces@.len() >= 1,
            lagrange_polys@.len() == traces@.len(),
            forall|i: int|
                0 <= i < lagrange_polys@.len() ==> {
                    &&& (#[trigger] lagrange_polys@[i]).values@.len() == pow2(e)
                    &&& forall|t: int|
                        0 <= t < pow2(e) ==> (#[trigger] lagrange_polys@[i].values@[t]).val()
                            == roots::lagrange(p, w, k, i, domain::coset_point::<F>(e, t))
                },
            out_traces@.len() <= ext_len,
            forall|t: int|
                0 <= t < out_traces@.len() ==> folded_at(
                    traces@,
                    #[trigger] out_traces@[t],
                    k,
                    domain::coset_point::<F>(e, t),
                ),
        decreases ext_len - out_traces@.len(),
    {
        let t: usize = out_traces.len();
        let buf: FoldingProverTrace<F> = FoldingProverTrace::zero_like(traces[0]);
        let mut coeffs: Vec<F> = Vec::with_capacity(lagrange_polys.len());
        while coeffs.len() < lagrange_polys.len()
            invariant
                coeffs@.len() <= lagrange_polys@.len(),
                t < ext_len,
                ext_len == pow2(e),
                forall|i: int|
                    0 <= i < lagrange_polys@.len() ==> (
                    #[trigger] lagrange_polys@[i]).values@.len() == pow2(e),
                forall|i: int|
                    0 <= i < coeffs@.len() ==> #[trigger] coeffs@[i]
                        == lagrange_polys@[i].values@[t as int],
            decreases lagrange_polys@.len() - coeffs@.len(),
        {
            let i: usize = coeffs.len();
            coeffs.push(lagrange_polys[i].values[t]);
        }
        proof {
            let x = domain::coset_point::<F>(e, t as int);
            let basis_vals = basis_at::<F>(k, traces@.len(), x);
            assert forall|i: int| 0 <= i < traces@.len() implies field::vals(coeffs@)[i]
                == #[trigger] basis_vals[i] by {
                assert(coeffs@[i] == lagrange_polys@[i].values@[t as int]);
            }
            assert(field::vals(coeffs@) =~= basis_vals);
        }
        out_traces.push(linear_combination(buf, traces, coeffs.as_slice()));
    }
    out_traces
}

/// Folds `traces` into a single trace at `gamma` via Lagrange interpolation.
pub fn fold_traces<F: PrimeField>(
    dk_domain: &EvaluationDomain<F>,
    traces: &[&FoldingProverTrace<F>],
    gamma: &F,
) -> (folded: FoldingProverTrace<F>)
    requires
        dk_domain.wf(),
        1 <= traces@.len() <= pow2(dk_domain.log_n()),
    ensures
        folded_at(traces@, folded, dk_domain.log_n(), gamma.val()),
{
    let ghost k = dk_domain.log_n();
    let lagrange_polys: Vec<Polynomial<F, Coeff>> = lagrange_basis(dk_domain, traces.len());
    let mut lagrange_at_gamma: Vec<F> = Vec::with_capacity(traces.len());
    while lagrange_at_gamma.len() < lagrange_polys.len()
        invariant
            lagrange_at_gamma@.len() <= lagrange_polys@.len(),
            forall|i: int|
                0 <= i < lagrange_polys@.len() ==> (#[trigger] lagrange_polys@[i]).vals()
                    == roots::interpolate(
                    F::modulus(),
                    roots::unit(pow2(k), i),
                    domain::omega::<F>(k),
                    k,
                ),
            forall|i: int|
                0 <= i < lagrange_at_gamma@.len() ==> (#[trigger] lagrange_at_gamma@[i]).val()
                    == roots::lagrange(
                    F::modulus(),
                    domain::omega::<F>(k),
                    k,
                    i,
                    gamma.val(),
                ),
        decreases lagrange_polys@.len() - lagrange_at_gamma@.len(),
    {
        let i: usize = lagrange_at_gamma.len();
        lagrange_at_gamma.push(eval_polynomial(lagrange_polys[i].values.as_slice(), *gamma));
    }
    let buf: FoldingProverTrace<F> = FoldingProverTrace::zero_like(traces[0]);
    proof {
        assert(field::vals(lagrange_at_gamma@) =~= basis_at::<F>(
            k,
            traces@.len(),
            gamma.val(),
        ));
    }
    linear_combination(buf, traces, lagrange_at_gamma.as_slice())
}

} // verus!
