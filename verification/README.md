# msm

Multi-scalar multiplication on elliptic curves: the sum of every point times its scalar. The
library is written in Verus, and its proofs show that every algorithm computes that sum. One
exception is stated in the contracts: windows of more than 24 bits, which only tables can have,
may miss bits of a scalar.

- `booth` encodes scalars as signed digits, `window` chooses how many bits a digit spans.
- `serial` sorts points into buckets by digit, `parallel` gives every thread a part of the
  points, and `precompute` looks multiples up in a table.
- `affine`, `batch`, `schedule` and `independent` add points by their coordinates, in batches
  that share one inversion. That works for points which are independent of each other.
- `algebra` and `buckets` hold the mathematics, `curve` what is asked of a curve.
- `tiny` is a curve of five points, for which everything that `curve` asks is proved.

What the proofs rest on, besides the laws that a curve has to prove, are the contracts of two
functions of rayon. Both stand at the top of `parallel`.

`app/` connects the library to the curves of `pasta_curves`, and to every other curve with the
traits of that crate. The laws of these curves are not proved.
