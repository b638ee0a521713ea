use protogalaxy::blocks::{block_size, regroup_by_slot, split_into_blocks};
use protogalaxy::combine::{linear_combination, LinearSpace};
use protogalaxy::field::PrimeField;
use protogalaxy::fq::Fq;
use protogalaxy::poly::{LagrangeCoeff, Polynomial};
use protogalaxy::trace::{FoldingLogupTrace, FoldingProverTrace};

fn fe(v: u64) -> Fq {
    Fq::from_u64(v)
}

fn fes(vs: &[u64]) -> Vec<Fq> {
    vs.iter().map(|v| fe(*v)).collect()
}

fn poly(vs: &[u64]) -> Polynomial<Fq, LagrangeCoeff> {
    Polynomial::new(fes(vs))
}

/// A small trace in which every scalar is different.
fn sample() -> FoldingProverTrace<Fq> {
    FoldingProverTrace {
        advice_polys: vec![poly(&[1, 2]), poly(&[3, 4])],
        instance_polys: vec![poly(&[5, 6])],
        lookups: vec![FoldingLogupTrace {
            multiplicities: poly(&[7, 8]),
            helper_polys: vec![poly(&[9, 10]), poly(&[11, 12])],
            aggregator_poly: poly(&[13, 14]),
        }],
        trash_polys: vec![poly(&[15, 16])],
        perm_polys: vec![poly(&[17, 18])],
        beta: fe(19),
        gamma: fe(20),
        theta: fes(&[21, 22]),
        trash_challenge: fe(23),
        y: fes(&[24]),
    }
}

/// A trace without any polynomial or optional challenge.
fn bare() -> FoldingProverTrace<Fq> {
    FoldingProverTrace {
        advice_polys: vec![],
        instance_polys: vec![],
        lookups: vec![],
        trash_polys: vec![],
        perm_polys: vec![],
        beta: fe(1),
        gamma: fe(2),
        theta: vec![],
        trash_challenge: fe(3),
        y: vec![],
    }
}

fn flat(t: &FoldingProverTrace<Fq>) -> Vec<Vec<Fq>> {
    t.poly_values().iter().map(|s| s.to_vec()).collect()
}

#[test]
fn buffers_come_in_canonical_order() {
    let expected: Vec<Vec<Fq>> =
        (0..9).map(|i| fes(&[2 * i + 1, 2 * i + 2])).collect();
    assert_eq!(flat(&sample()), expected);
    assert_eq!(flat(&bare()).len(), 0);
}

#[test]
fn mutable_buffers_come_in_the_same_order() {
    let mut t = sample();
    let expected = flat(&t);
    for (p, slice) in t.poly_values_mut().into_iter().enumerate() {
        assert_eq!(slice.to_vec(), expected[p]);
        slice[0] = fe(100 + p as u64);
    }
    let firsts: Vec<Fq> = flat(&t).iter().map(|b| b[0]).collect();
    assert_eq!(firsts, fes(&[100, 101, 102, 103, 104, 105, 106, 107, 108]));
    assert_eq!(t.lookups[0].aggregator_poly.values, fes(&[106, 14]));
    assert_eq!(t.challenges(), sample().challenges());
}

#[test]
fn challenges_come_in_canonical_order() {
    assert_eq!(sample().challenges(), fes(&[19, 20, 21, 22, 23, 24]));
    assert_eq!(bare().challenges(), fes(&[1, 2, 3]));
}

#[test]
fn set_challenges_undoes_challenges() {
    let mut t = sample();
    t.set_challenges(&fes(&[1, 2, 3, 4, 5, 6]));
    assert_eq!((t.beta, t.gamma, t.trash_challenge), (fe(1), fe(2), fe(5)));
    assert_eq!(t.theta, fes(&[3, 4]));
    assert_eq!(t.y, fes(&[6]));
    assert_eq!(t.challenges(), fes(&[1, 2, 3, 4, 5, 6]));
    assert_eq!(flat(&t), flat(&sample()));
    let mut u = bare();
    u.set_challenges(&fes(&[7, 8, 9]));
    assert_eq!(u.challenges(), fes(&[7, 8, 9]));
}

#[test]
fn zero_like_keeps_the_dimensions() {
    let z = FoldingProverTrace::zero_like(&sample());
    assert_eq!(flat(&z), vec![fes(&[0, 0]); 9]);
    assert_eq!(z.challenges(), fes(&[0; 6]));
    assert_eq!(z.lookups[0].helper_polys.len(), 2);
    let b = FoldingProverTrace::zero_like(&bare());
    assert_eq!(flat(&b).len(), 0);
    assert_eq!(b.challenges(), fes(&[0, 0, 0]));
}

/// A trace need not have advice columns: the size comes from the first buffer.
#[test]
fn zero_like_takes_the_size_from_the_first_buffer() {
    let mut t = sample();
    t.advice_polys = vec![];
    t.instance_polys = vec![];
    t.lookups = vec![];
    t.trash_polys = vec![poly(&[1, 2, 3])];
    let z = FoldingProverTrace::zero_like(&t);
    assert_eq!(flat(&z), vec![fes(&[0, 0, 0]), fes(&[0, 0, 0])]);
}

#[test]
fn traces_are_added_and_scaled() {
    let doubled = LinearSpace::add(sample(), &sample());
    let scaled = LinearSpace::mul(sample(), fe(2));
    let expected: Vec<Vec<Fq>> =
        (0..9).map(|i| fes(&[4 * i + 2, 4 * i + 4])).collect();
    assert_eq!(flat(&doubled), expected);
    assert_eq!(flat(&scaled), expected);
    assert_eq!(doubled.challenges(), fes(&[38, 40, 42, 44, 46, 48]));
    assert_eq!(scaled.challenges(), doubled.challenges());
}

/// What the other trace lacks stays as it is.
#[test]
fn adding_a_smaller_trace() {
    let sum = LinearSpace::add(sample(), &bare());
    assert_eq!(flat(&sum), flat(&sample()));
    assert_eq!(sum.challenges(), fes(&[20, 22, 21, 22, 26, 24]));
    let other = LinearSpace::add(bare(), &sample());
    assert_eq!(flat(&other).len(), 0);
    assert_eq!(other.challenges(), fes(&[20, 22, 26]));
}

#[test]
fn linear_combinations() {
    let (a, b, c) = (sample(), LinearSpace::mul(sample(), fe(10)), bare());
    // A zero scalar leaves its term out; the buffer's own values do not matter.
    let r = linear_combination(sample(), &[&a, &c, &b], &fes(&[3, 0, 5]));
    let expected: Vec<Vec<Fq>> =
        (0..9).map(|i| fes(&[53 * (2 * i + 1), 53 * (2 * i + 2)])).collect();
    assert_eq!(flat(&r), expected);
    assert_eq!(r.beta, fe(53 * 19));
    // No term at all.
    let z = linear_combination(sample(), &[], &fes(&[]));
    assert_eq!(flat(&z), vec![fes(&[0, 0]); 9]);
    assert_eq!(z.challenges(), fes(&[0; 6]));
    let z = linear_combination(sample(), &[&a, &b], &fes(&[0, 0]));
    assert_eq!(z.challenges(), fes(&[0; 6]));
}

#[test]
fn linear_combinations_of_field_elements() {
    let (a, b, c) = (fe(2), fe(3), fe(4));
    assert_eq!(linear_combination(fe(99), &[&a, &b, &c], &fes(&[5, 0, 7])), fe(38));
    assert_eq!(linear_combination(fe(99), &[&a, &b], &fes(&[0, 0])), fe(0));
    assert_eq!(linear_combination::<Fq, Fq>(fe(99), &[], &[]), fe(0));
    assert_eq!(LinearSpace::add(a, &b), fe(5));
    assert_eq!(LinearSpace::mul(b, c), fe(12));
}

#[test]
fn block_sizes() {
    assert_eq!(std::mem::size_of::<Fq>(), 32);
    assert_eq!(block_size::<Fq>(8), 1024);
    assert_eq!(block_size::<Fq>(8192), 1);
    assert_eq!(block_size::<Fq>(100_000), 1);
    assert_eq!(block_size::<u8>(1), 256 * 1024);
    assert_eq!(block_size::<u64>(usize::MAX), 1);
}

#[test]
fn blocks_partition_the_rows() {
    let mut storage: Vec<Vec<u64>> = (0..3).map(|r| (0..8).map(|m| 10 * r + m).collect()).collect();
    let rows: Vec<&mut [u64]> = storage.iter_mut().map(|r| r.as_mut_slice()).collect();
    let blocks = split_into_blocks(rows, 7, 3);
    assert_eq!(blocks.iter().map(|b| b.0).collect::<Vec<_>>(), vec![0, 3, 6]);
    assert_eq!(blocks.iter().map(|b| b.1[0].len()).collect::<Vec<_>>(), vec![3, 3, 1]);
    assert_eq!(blocks[1].1[2].to_vec(), vec![23, 24, 25]);
    for (off, rows) in blocks {
        for row in rows {
            for x in row.iter_mut() {
                *x += 1000 * (off as u64 + 1);
            }
        }
    }
    assert_eq!(
        storage[1],
        vec![1010, 1011, 1012, 4013, 4014, 4015, 7016, 17]
    );
}

#[test]
fn no_blocks_for_empty_rows() {
    let mut storage = [[1u64, 2]];
    let rows: Vec<&mut [u64]> = storage.iter_mut().map(|r| r.as_mut_slice()).collect();
    assert_eq!(split_into_blocks(rows, 0, 4).len(), 0);
    let blocks = split_into_blocks(Vec::<&mut [u64]>::new(), 5, 4);
    assert_eq!(blocks.len(), 2);
    assert_eq!(blocks[1].0, 4);
    assert_eq!(blocks[1].1.len(), 0);
}

#[test]
fn buffers_are_grouped_by_slot() {
    let mut traces = vec![sample(), LinearSpace::mul(sample(), fe(3))];
    let groups = regroup_by_slot(&mut traces, 9);
    assert_eq!(groups.len(), 9);
    assert_eq!(groups[2][0].to_vec(), fes(&[5, 6]));
    assert_eq!(groups[2][1].to_vec(), fes(&[15, 18]));
    for (p, group) in groups.into_iter().enumerate() {
        for (t, slice) in group.into_iter().enumerate() {
            slice[1] = fe(10 * p as u64 + t as u64);
        }
    }
    assert_eq!(traces[0].perm_polys[0].values, fes(&[17, 80]));
    assert_eq!(traces[1].lookups[0].multiplicities.values, fes(&[21, 31]));
}
