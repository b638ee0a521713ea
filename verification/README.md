# protogalaxy

Folding of PLONK prover traces in the manner of Protogalaxy, verified with Verus.

Several instances of one circuit are traced, the traces are folded into one, and
that one is proved as a single PLONK proof which is corrected by an error
polynomial.

## Layout

| Module | Contents |
|---|---|
| `zp`, `roots`, `interpolation` | integers modulo the field's modulus, roots of unity, interpolation over their powers |
| `field`, `fq`, `fq_roots` | the field interface, and the BLS12-381 scalar field behind it |
| `bits`, `fft` | the serial radix-2 transform |
| `poly`, `domain` | polynomials by coefficients or values, and the changes of basis |
| `column` | the transform of one coordinate: interpolate over the domain, evaluate on the coset |
| `trace`, `blocks` | prover traces, their canonical flattening, and disjoint views into them |
| `combine`, `batch` | linear combinations, lifting traces to the coset, folding them at a point |
| `plonk`, `numerator` | traces and keys as the rest of the prover exchanges them |
| `prover` | the folding prover as a state machine |
| `laws` | properties that relate several of these |

Field elements are modelled by their canonical integers, so that every contract is
a statement about integers, sums and powers modulo the modulus.

`app/` drives the state machine against a proof system: circuit synthesis,
constraint evaluation, commitments and the transcript.

## What is trusted

The arithmetic of `midnight_curves::Fq` (`fq`) and the parallel map of `rayon`
(`parallel`). Everything else under `src/` is proved.
