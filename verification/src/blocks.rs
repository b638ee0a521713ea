//! Cutting the output buffers into views that can be processed independently.
use crate::field::PrimeField;
use crate::trace;
use crate::trace::FoldingProverTrace;
use vstd::prelude::*;

verus! {

/// Target working-set size for one coordinate block, in bytes.
///
/// A block of `b` coordinates touches `b` scalars in each output row; keeping
/// those resident while the block is processed turns the scatter into
/// sequential writes per output row.
pub const BLOCK_TARGET_BYTES: usize = 256 * 1024;

/// The number of blocks of `block` coordinates that cover `len` coordinates.
pub open spec fn block_count(len: int, block: int) -> int {
    (len + block - 1) / block
}

/// Where block `b` ends.
pub open spec fn block_end(len: int, block: int, b: int) -> int {
    if (b + 1) * block <= len {
        (b + 1) * block
    } else {
        len
    }
}

/// Number of coordinates per block, given `ext_len` output rows.
pub fn block_size<F>(ext_len: usize) -> (r: usize)
    requires
        ext_len > 0,
        vstd::layout::size_of::<F>() > 0,
    ensures
        r == vstd::math::max(
            BLOCK_TARGET_BYTES as int / (ext_len * vstd::layout::size_of::<F>()),
            1,
        ),
{
    let size: usize = core::mem::size_of::<F>();
    let ghost row = ext_len * size;
    proof {
        assert(row > 0) by (nonlinear_arith)
            requires
                ext_len > 0,
                size > 0,
                row == ext_len * size,
        ;
        if row > usize::MAX {
            vstd::arithmetic::div_mod::lemma_basic_div(BLOCK_TARGET_BYTES as int, row);
        }
    }
    let fitting: usize = match ext_len.checked_mul(size) {
        Some(bytes) => BLOCK_TARGET_BYTES / bytes,
        None => 0,
    };
    if fitting > 1 {
        fitting
    } else {
        1
    }
}

/// Splits `rows` (the output buffers of one polynomial slot) into
/// per-coordinate-block views, so that blocks can be processed in parallel
/// while each thread holds an exclusive reference into every row.
///
/// Block `b` starts at coordinate `b block`, and all but the last have `block`
/// coordinates. What is written through the blocks, which cannot change their
/// lengths, ends up in the rows; coordinates from `len` on stay as they are.
pub fn split_into_blocks<'a, F>(rows: Vec<&'a mut [F]>, len: usize, block: usize) -> (blocks: Vec<
    (usize, Vec<&'a mut [F]>),
>)
    requires
        block > 0,
        forall|r: int| 0 <= r < rows@.len() ==> rows@[r]@.len() >= len,
    ensures
        blocks@.len() == block_count(len as int, block as int),
        forall|b: int|
            0 <= b < blocks@.len() ==> {
                &&& (#[trigger] blocks@[b]).0 == b * block
                &&& blocks@[b].1@.len() == rows@.len()
            },
        forall|b: int, r: int|
            0 <= b < blocks@.len() && 0 <= r < rows@.len() ==> (blocks@[b].1@[r])@
                == rows@[r]@.subrange(b * block, block_end(len as int, block as int, b)),
        forall|r: int|
            #![trigger rows@[r]]
            0 <= r < rows@.len() && (forall|b: int|
                0 <= b < blocks@.len() ==> final((#[trigger] blocks@[b]).1@[r])@.len()
                    == block_end(len as int, block as int, b) - b * block) ==> {
                &&& final(rows@[r])@.len() == rows@[r]@.len()
                &&& final(rows@[r])@.subrange(len as int, rows@[r]@.len() as int)
                    == rows@[r]@.subrange(len as int, rows@[r]@.len() as int)
                &&& forall|b: int|
                    0 <= b < blocks@.len() ==> final((#[trigger] blocks@[b]).1@[r])@ == final(
                        rows@[r])@.subrange(b * block, block_end(len as int, block as int, b))
            },
{
    let ghost rows0 = rows@;
    let ghost n = len as int;
    let ghost size = block as int;
    let mut blocks: Vec<(usize, Vec<&'a mut [F]>)> = Vec::new();
    let mut rest: Vec<&'a mut [F]> = rows;
    let mut off: usize = 0;
    proof {
        assert(0 * size == 0 && -1 * size < 0);
    }
    while off < len
        invariant
            size == block,
            n == len,
            size > 0,
            off <= len,
            rest@.len() == rows0.len(),
            off == n || off == blocks@.len() * size,
            off > (blocks@.len() - 1) * size,
            off <= blocks@.len() * size,
            forall|r: int| 0 <= r < rows0.len() ==> rows0[r]@.len() >= n,
            forall|r: int|
                0 <= r < rows0.len() ==> rest@[r]@ == rows0[r]@.subrange(
                    off as int,
                    rows0[r]@.len() as int,
                ),
            forall|b: int|
                0 <= b < blocks@.len() ==> {
                    &&& (#[trigger] blocks@[b]).0 == b * size
                    &&& blocks@[b].1@.len() == rows0.len()
                    &&& 0 <= b * size <= block_end(n, size, b) <= off
                },
            forall|b: int, r: int|
                0 <= b < blocks@.len() && 0 <= r < rows0.len() ==> (blocks@[b].1@[r])@
                    == rows0[r]@.subrange(b * size, block_end(n, size, b)),
            forall|r: int|
                #![trigger rows0[r]]
                0 <= r < rows0.len() && (forall|b: int|
                    0 <= b < blocks@.len() ==> final((#[trigger] blocks@[b]).1@[r])@.len()
                        == block_end(n, size, b) - b * size) ==> {
                    &&& final(rows0[r])@.len() == off + final(rest@[r])@.len()
                    &&& final(rest@[r])@ == final(rows0[r])@.subrange(
                        off as int,
                        final(rows0[r])@.len() as int,
                    )
                    &&& forall|b: int|
                        0 <= b < blocks@.len() ==> final((#[trigger] blocks@[b]).1@[r])@ == final(
                            rows0[r])@.subrange(b * size, block_end(n, size, b))
                },
        decreases len - off,
    {
        let left: usize = len - off;
        let take: usize = if block < left {
            block
        } else {
            left
        };
        let mut here: Vec<&'a mut [F]> = Vec::with_capacity(rest.len());
        let mut next: Vec<&'a mut [F]> = Vec::with_capacity(rest.len());
        let ghost rest0 = rest@;
        for r in it: rest
            invariant
                it.seq() == rest0,
                take <= left,
                forall|i: int| 0 <= i < rest0.len() ==> rest0[i]@.len() >= left,
                here@.len() == it.index(),
                next@.len() == it.index(),
                forall|i: int|
                    0 <= i < here@.len() ==> here@[i]@ == rest0[i]@.subrange(0, take as int),
                forall|i: int|
                    0 <= i < here@.len() ==> next@[i]@ == rest0[i]@.subrange(
                        take as int,
                        rest0[i]@.len() as int,
                    ),
                forall|i: int|
                    0 <= i < here@.len() ==> final(#[trigger] rest0[i])@ == final(here@[i])@
                        + final(next@[i])@,
        {
            let (a, b) = r.split_at_mut(take);
            here.push(a);
            next.push(b);
        }
        let ghost blocks0 = blocks@;
        let ghost nb = blocks@.len() as int;
        let ghost end = off + take;
        let ghost start = off as int;
        let ghost here0 = here@;
        blocks.push((off, here));
        rest = next;
        off = off + take;
        proof {
            assert((nb + 1) * size == nb * size + size) by (nonlinear_arith);
            assert(block_end(n, size, nb) == end);
            assert forall|b: int| 0 <= b < blocks@.len() implies {
                &&& (#[trigger] blocks@[b]).0 == b * size
                &&& blocks@[b].1@.len() == rows0.len()
                &&& 0 <= b * size <= block_end(n, size, b) <= off
            } by {
                if b < nb {
                    assert(blocks@[b] == blocks0[b]);
                }
            }
            assert forall|b: int, r: int|
                0 <= b < blocks@.len() && 0 <= r < rows0.len() implies (blocks@[b].1@[r])@
                == rows0[r]@.subrange(b * size, block_end(n, size, b)) by {
                if b == nb {
                    assert(here0[r]@ =~= rows0[r]@.subrange(start, end));
                }
            }
            assert forall|r: int| 0 <= r < rows0.len() implies rest@[r]@ == rows0[r]@.subrange(
                off as int,
                rows0[r]@.len() as int,
            ) by {
                assert(rest@[r]@ =~= rows0[r]@.subrange(end, rows0[r]@.len() as int));
            }
            assert forall|r: int|
                #![trigger rows0[r]]
                0 <= r < rows0.len() && (forall|b: int|
                    0 <= b < blocks@.len() ==> final((#[trigger] blocks@[b]).1@[r])@.len()
                        == block_end(n, size, b) - b * size) implies {
                &&& final(rows0[r])@.len() == off + final(rest@[r])@.len()
                &&& final(rest@[r])@ == final(rows0[r])@.subrange(
                    off as int,
                    final(rows0[r])@.len() as int,
                )
                &&& forall|b: int|
                    0 <= b < blocks@.len() ==> final((#[trigger] blocks@[b]).1@[r])@ == final(
                        rows0[r])@.subrange(b * size, block_end(n, size, b))
            } by {
                assert(final(blocks@[nb].1@[r])@.len() == take);
                assert forall|b: int| 0 <= b < blocks0.len() implies final(
                    (#[trigger] blocks0[b]).1@[r])@.len() == block_end(n, size, b) - b * size by {
                    assert(blocks0[b] == blocks@[b]);
                }
                let whole = final(rows0[r])@;
                let old_rest = final(rest0[r])@;
                assert(old_rest == whole.subrange(start, whole.len() as int));
                assert(old_rest == final(here0[r])@ + final(rest@[r])@);
                assert(final(rest@[r])@ =~= old_rest.subrange(take as int, old_rest.len() as int));
                assert(final(rest@[r])@ =~= whole.subrange(end, whole.len() as int));
                assert(final(here0[r])@ =~= whole.subrange(start, end));
                assert forall|b: int| 0 <= b < blocks@.len() implies final(
                    (#[trigger] blocks@[b]).1@[r])@ == whole.subrange(
                    b * size,
                    block_end(n, size, b),
                ) by {
                    if b < nb {
                        assert(blocks0[b] == blocks@[b]);
                    }
                }
            }
        }
    }
    proof {
        let nb = blocks@.len() as int;
        assert((nb - 1) * size == nb * size - size) by (nonlinear_arith);
        vstd::arithmetic::div_mod::lemma_fundamental_div_mod_converse(
            n + size - 1,
            size,
            nb,
            n + size - 1 - nb * size,
        );
    }
    blocks
}

/// Re-groups the polynomial buffers of the output traces by slot: `result[p][t]`
/// is the buffer of slot `p` in output trace `t`.
pub fn regroup_by_slot<'a, F: PrimeField>(
    out_traces: &'a mut [FoldingProverTrace<F>],
    n_slots: usize,
) -> (per_slot: Vec<Vec<&'a mut [F]>>)
    requires
        forall|t: int|
            0 <= t < old(out_traces)@.len() ==> (#[trigger] old(out_traces)@[t]).flat().len()
                == n_slots,
    ensures
        per_slot@.len() == n_slots,
        final(out_traces)@.len() == old(out_traces)@.len(),
        forall|p: int|
            0 <= p < n_slots ==> (#[trigger] per_slot@[p])@.len() == old(out_traces)@.len(),
        forall|p: int, t: int|
            0 <= p < n_slots && 0 <= t < old(out_traces)@.len() ==> (per_slot@[p]@[t])@ == old(
                out_traces)@[t].flat()[p],
        forall|t: int|
            0 <= t < old(out_traces)@.len() ==> {
                &&& trace::same_frame(old(out_traces)@[t], #[trigger] final(out_traces)@[t])
                &&& final(out_traces)@[t].flat().len() == n_slots
            },
        forall|p: int, t: int|
            0 <= p < n_slots && 0 <= t < old(out_traces)@.len() ==> #[trigger] final(
                out_traces)@[t].flat()[p] == final(per_slot@[p]@[t])@,
{
    let ghost total = out_traces@.len();
    let mut per_slot: Vec<Vec<&'a mut [F]>> = Vec::with_capacity(n_slots);
    while per_slot.len() < n_slots
        invariant
            per_slot@.len() <= n_slots,
            forall|p: int| 0 <= p < per_slot@.len() ==> (#[trigger] per_slot@[p])@.len() == 0,
        decreases n_slots - per_slot@.len(),
    {
        per_slot.push(Vec::new());
    }
    let mut rest: &'a mut [FoldingProverTrace<F>] = out_traces;
    let ghost all = rest@;
    let ghost last = final(rest)@;
    let ghost mut done: int = 0;
    while rest.len() > 0
        invariant
            0 <= done,
            done + rest@.len() == total,
            all.len() == total,
            per_slot@.len() == n_slots,
            rest@ == all.subrange(done, total as int),
            last.len() == done + final(rest)@.len(),
            last.subrange(done, last.len() as int) == final(rest)@,
            forall|t: int| 0 <= t < total ==> (#[trigger] all[t]).flat().len() == n_slots,
            forall|p: int| 0 <= p < n_slots ==> (#[trigger] per_slot@[p])@.len() == done,
            forall|p: int, t: int|
                0 <= p < n_slots && 0 <= t < done ==> (per_slot@[p]@[t])@ == all[t].flat()[p],
            forall|t: int|
                0 <= t < done ==> {
                    &&& trace::same_frame(all[t], #[trigger] last[t])
                    &&& last[t].flat().len() == n_slots
                },
            forall|p: int, t: int|
                0 <= p < n_slots && 0 <= t < done ==> #[trigger] last[t].flat()[p] == final(
                    per_slot@[p]@[t])@,
        decreases rest@.len(),
    {
        let ghost here = final(rest)@;
        let (first, tail) = rest.split_at_mut(1);
        let out_trace: &'a mut FoldingProverTrace<F> = &mut first[0];
        let slots: Vec<&'a mut [F]> = out_trace.poly_values_mut();
        let ghost slots0 = slots@;
        let ghost per_slot0 = per_slot@;
        let mut p: usize = 0;
        for slice in it: slots
            invariant
                it.seq() == slots0,
                p == it.index(),
                slots0.len() == n_slots,
                per_slot@.len() == n_slots,
                per_slot0.len() == n_slots,
                forall|q: int|
                    p <= q < n_slots ==> #[trigger] per_slot@[q] == per_slot0[q],
                forall|q: int|
                    0 <= q < p ==> {
                        &&& (#[trigger] per_slot@[q])@.len() == per_slot0[q]@.len() + 1
                        &&& per_slot@[q]@.drop_last() == per_slot0[q]@
                        &&& per_slot@[q]@.last()@ == slots0[q]@
                        &&& final(per_slot@[q]@.last())@ == final(slots0[q])@
                    },
        {
            per_slot[p].push(slice);
            p = p + 1;
        }
        rest = tail;
        proof {
            assert(here.len() == 1 + final(rest)@.len());
            assert(last[done] == here[0]);
            assert(last.subrange(done + 1, last.len() as int) =~= here.subrange(
                1,
                here.len() as int,
            ));
            assert(here.subrange(1, here.len() as int) =~= final(rest)@);
            done = done + 1;
        }
    }
    per_slot
}

} // verus!
