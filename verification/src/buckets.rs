//! The bucket method: the mathematics of sorting points by digit and of summing the
//! buckets by parts.
use vstd::prelude::*;
use vstd::arithmetic::div_mod::*;
use vstd::arithmetic::mul::*;
use vstd::arithmetic::power2::*;

use crate::algebra;
use crate::algebra::AbelianGroup;
use crate::booth;
use crate::curve::{CurveAffine, Group, PrimeField};

verus! {

/// The smaller of two lengths.
pub open spec fn min_len(a: nat, b: nat) -> nat {
    if a < b {
        a
    } else {
        b
    }
}

/// The integers that scalars stand for.
pub open spec fn values<F: PrimeField>(coeffs: Seq<F>) -> Seq<int> {
    Seq::new(coeffs.len(), |i: int| coeffs[i].value() as int)
}

/// The multi-scalar multiplication: the sum of every point times its scalar. Points
/// without a scalar, and scalars without a point, do not count.
pub open spec fn msm<C: CurveAffine>(coeffs: Seq<C::Scalar>, bases: Seq<C>) -> C {
    algebra::lincomb(values(coeffs), bases, min_len(coeffs.len(), bases.len()))
}

/// Coefficients count modulo the order of the scalar field.
proof fn lemma_smul_mod<C: CurveAffine>(k: int, p: C)
    requires
        C::Scalar::modulus() > 0,
    ensures
        algebra::smul(k % (C::Scalar::modulus() as int), p) == algebra::smul(k, p),
{
    let m = C::Scalar::modulus() as int;
    let q = k / m;
    lemma_fundamental_div_mod(k, m);
    lemma_mul_is_commutative(m, q);
    C::law_order(p);
    algebra::lemma_smul_mul(q, m, p);
    algebra::lemma_smul_zero::<C>(q);
    algebra::lemma_smul_add(q * m, k % m, p);
    algebra::lemma_zero_left(algebra::smul(k % m, p));
}

/// Multi-scalar multiplication is linear in the scalars: by the differences of two lists it gives
/// the difference of what it gives by each.
pub proof fn law_msm_of_differences<C: CurveAffine>(
    a: Seq<C::Scalar>,
    b: Seq<C::Scalar>,
    diff: Seq<C::Scalar>,
    bases: Seq<C>,
)
    requires
        a.len() == diff.len(),
        b.len() == diff.len(),
        forall|i: int|
            0 <= i < diff.len() ==> (#[trigger] diff[i]).value() == (a[i].value() - b[i].value()) % (
            C::Scalar::modulus() as int),
    ensures
        msm(diff, bases) == msm(a, bases).plus(msm(b, bases).minus()),
{
    let n = min_len(diff.len(), bases.len());
    let (va, vb) = (values(a), values(b));
    let opposite = Seq::new(n, |i: int| -1 * vb[i]);
    let exact = Seq::new(n, |i: int| va[i] - vb[i]);
    assert forall|i: int| 0 <= i < n implies #[trigger] algebra::smul(values(diff)[i], bases[i])
        == algebra::smul(exact[i], bases[i]) by {
        C::Scalar::law_value(diff[i]);
        lemma_smul_mod(exact[i], bases[i]);
    }
    algebra::lemma_lincomb_congruent(values(diff), bases, exact, bases, n);
    algebra::lemma_lincomb_scale(-1, vb, opposite, bases, n);
    algebra::lemma_smul_one(algebra::lincomb(vb, bases, n));
    algebra::lemma_lincomb_add(va, opposite, exact, bases, n);
}

/// One scalar and one point give the multiple.
pub proof fn law_msm_of_one<C: CurveAffine>(coeffs: Seq<C::Scalar>, bases: Seq<C>)
    requires
        coeffs.len() == 1,
        bases.len() == 1,
    ensures
        msm(coeffs, bases) == algebra::smul(coeffs[0].value() as int, bases[0]),
{
    let vs = values(coeffs);
    assert(algebra::lincomb(vs, bases, 1) == algebra::lincomb(vs, bases, 0).plus(
        algebra::smul(vs[0], bases[0]),
    ));
    algebra::lemma_zero_left(algebra::smul(vs[0], bases[0]));
}

/// Scalars without points, and points without scalars, give nothing.
pub proof fn law_msm_of_none<C: CurveAffine>(coeffs: Seq<C::Scalar>, bases: Seq<C>)
    requires
        coeffs.len() == 0 || bases.len() == 0,
    ensures
        msm(coeffs, bases) == C::zero(),
{
}

/// The windows of `c` bits reach one bit beyond a scalar, and one window less would not.
pub proof fn law_window_count(num_bits: nat, c: nat)
    requires
        1 <= c,
    ensures
        c * window_count(num_bits, c) > num_bits,
        c * (window_count(num_bits, c) - 1) <= num_bits,
{
    let q = num_bits / c;
    lemma_fundamental_div_mod(num_bits as int, c as int);
    lemma_mod_bound(num_bits as int, c as int);
    lemma_mul_is_distributive_add(c as int, q as int, 1);
}

/// How many windows of `c` bits reach one bit beyond a scalar.
pub open spec fn window_count(num_bits: nat, c: nat) -> nat {
    num_bits / c + 1
}

/// The bytes of scalars.
pub open spec fn are_reprs<F: PrimeField>(reprs: Seq<Vec<u8>>, coeffs: Seq<F>) -> bool {
    &&& reprs.len() == coeffs.len()
    &&& forall|i: int|
        0 <= i < reprs.len() ==> (#[trigger] reprs[i])@ == F::repr(coeffs[i].value())
}

/// The digits of scalars in one window.
pub open spec fn digits(reprs: Seq<Vec<u8>>, c: nat, window: nat) -> Seq<int> {
    Seq::new(reprs.len(), |i: int| booth::booth_index(window, c, reprs[i]@))
}

/// Every scalar has its own digit.
pub proof fn law_digits(reprs: Seq<Vec<u8>>, c: nat, window: nat, i: int)
    ensures
        digits(reprs, c, window).len() == reprs.len(),
        0 <= i < reprs.len() ==> digits(reprs, c, window)[i] == booth::booth_index(
            window,
            c,
            reprs[i]@,
        ),
{
}

/// How often a digit counts in bucket `b`, which is the one for digits `b + 1`
/// and, with the opposite sign, `-(b + 1)`.
pub open spec fn weight(digit: int, b: int) -> int {
    if digit == b + 1 {
        1
    } else if digit == -(b + 1) {
        -1
    } else {
        0
    }
}

pub open spec fn weights(ds: Seq<int>, b: int) -> Seq<int> {
    Seq::new(ds.len(), |i: int| weight(ds[i], b))
}

/// How often a digit counts in the buckets from `b` on.
pub open spec fn run(digit: int, b: int) -> int {
    if digit > b {
        1
    } else if digit < -b {
        -1
    } else {
        0
    }
}

pub open spec fn runs(ds: Seq<int>, b: int) -> Seq<int> {
    Seq::new(ds.len(), |i: int| run(ds[i], b))
}

/// What of a digit lies beyond `b`.
pub open spec fn tail(digit: int, b: int) -> int {
    if digit > b {
        digit - b
    } else if digit < -b {
        digit + b
    } else {
        0
    }
}

pub open spec fn tails(ds: Seq<int>, b: int) -> Seq<int> {
    Seq::new(ds.len(), |i: int| tail(ds[i], b))
}

/// Every digit has a bucket among the first `b`.
pub open spec fn bounded(ds: Seq<int>, b: int) -> bool {
    forall|i: int| 0 <= i < ds.len() ==> -b <= #[trigger] ds[i] <= b
}

/// No digit counts beyond the last bucket.
pub proof fn lemma_parts_start<A: AbelianGroup>(ds: Seq<int>, p: Seq<A>, n: nat, b: int)
    requires
        n <= ds.len(),
        bounded(ds, b),
    ensures
        algebra::lincomb(runs(ds, b), p, n) == A::zero(),
        algebra::lincomb(tails(ds, b), p, n) == A::zero(),
{
    assert forall|i: int| 0 <= i < n implies #[trigger] runs(ds, b)[i] == 0 by {
        assert(-b <= ds[i] <= b);
    }
    assert forall|i: int| 0 <= i < n implies #[trigger] tails(ds, b)[i] == 0 by {
        assert(-b <= ds[i] <= b);
    }
    algebra::lemma_lincomb_zero(runs(ds, b), p, n);
    algebra::lemma_lincomb_zero(tails(ds, b), p, n);
}

/// Summation by parts takes in bucket `b`.
pub proof fn lemma_parts_step<A: AbelianGroup>(ds: Seq<int>, p: Seq<A>, n: nat, b: int)
    requires
        n <= ds.len(),
        0 <= b,
    ensures
        algebra::lincomb(runs(ds, b), p, n) == algebra::lincomb(runs(ds, b + 1), p, n).plus(
            algebra::lincomb(weights(ds, b), p, n),
        ),
        algebra::lincomb(tails(ds, b), p, n) == algebra::lincomb(tails(ds, b + 1), p, n).plus(
            algebra::lincomb(runs(ds, b), p, n),
        ),
{
    algebra::lemma_lincomb_add(runs(ds, b + 1), weights(ds, b), runs(ds, b), p, n);
    algebra::lemma_lincomb_add(tails(ds, b + 1), runs(ds, b), tails(ds, b), p, n);
}

/// Once every bucket is in, every point has been counted as often as its digit says.
pub proof fn lemma_parts_end<A: AbelianGroup>(ds: Seq<int>, p: Seq<A>, n: nat)
    requires
        n <= ds.len(),
    ensures
        algebra::lincomb(tails(ds, 0), p, n) == algebra::lincomb(ds, p, n),
{
    assert(tails(ds, 0) =~= ds);
}

/// One point more in the buckets. A bucket that the point does not belong to stays as it is.
pub proof fn lemma_bucket_step<A: AbelianGroup>(ds: Seq<int>, p: Seq<A>, i: nat, b: int)
    requires
        i < ds.len(),
    ensures
        algebra::lincomb(weights(ds, b), p, i + 1) == (if ds[i as int] == b + 1 {
            algebra::lincomb(weights(ds, b), p, i).plus(p[i as int])
        } else if ds[i as int] == -(b + 1) {
            algebra::lincomb(weights(ds, b), p, i).plus(p[i as int].minus())
        } else {
            algebra::lincomb(weights(ds, b), p, i)
        }),
{
    algebra::lemma_smul_one(p[i as int]);
    A::law_zero(algebra::lincomb(weights(ds, b), p, i));
    assert(weights(ds, b)[i as int] == weight(ds[i as int], b));
}

/// One window more in Horner's rule.
pub proof fn lemma_horner_step<A: AbelianGroup>(
    start: A,
    e: nat,
    c: nat,
    coarse: Seq<int>,
    ds: Seq<int>,
    fine: Seq<int>,
    p: Seq<A>,
    n: nat,
)
    requires
        forall|i: int| 0 <= i < n ==> #[trigger] fine[i] == pow2(c) * coarse[i] + ds[i],
    ensures
        algebra::smul(pow2(c) as int, algebra::smul(pow2(e) as int, start).plus(algebra::lincomb(coarse, p, n))).plus(
            algebra::lincomb(ds, p, n),
        ) == algebra::smul(pow2(e + c) as int, start).plus(algebra::lincomb(fine, p, n)),
{
    let m = pow2(c) as int;
    let scaled = Seq::new(n, |i: int| m * coarse[i]);
    algebra::lemma_lincomb_scale(m, coarse, scaled, p, n);
    algebra::lemma_lincomb_add(scaled, ds, fine, p, n);
    algebra::lemma_smul_plus(m, algebra::smul(pow2(e) as int, start), algebra::lincomb(coarse, p, n));
    algebra::lemma_smul_mul(m, pow2(e) as int, start);
    lemma_pow2_adds(e, c);
    assert(m * pow2(e) == pow2(e + c)) by (nonlinear_arith)
        requires
            m == pow2(c),
            pow2(e) * pow2(c) == pow2(e + c),
    ;
    A::law_assoc(algebra::smul(pow2(e + c) as int, start), algebra::lincomb(scaled, p, n), algebra::lincomb(ds, p, n));
}

/// Doubles a group element `c` times.
pub fn double_times<C: CurveAffine>(acc: &mut C::Curve, c: usize)
    ensures
        final(acc).point() == algebra::smul(pow2(c as nat) as int, old(acc).point()),
{
    let ghost start = acc.point();
    let mut j: usize = 0;
    proof {
        lemma2_to64();
        algebra::lemma_smul_one(start);
    }
    while j < c
        invariant
            j <= c,
            acc.point() == algebra::smul(pow2(j as nat) as int, start),
        decreases c - j,
    {
        *acc = acc.double();
        proof {
            lemma_pow2_unfold((j + 1) as nat);
            algebra::lemma_smul_add(pow2(j as nat) as int, pow2(j as nat) as int, start);
        }
        j = j + 1;
    }
}

/// The bytes of every scalar.
pub fn to_reprs<F: PrimeField>(coeffs: &[F]) -> (r: Vec<Vec<u8>>)
    ensures
        are_reprs(r@, coeffs@),
        r@.len() == coeffs@.len(),
        forall|i: int| 0 <= i < r@.len() ==> (#[trigger] r@[i])@ == F::repr(coeffs@[i].value()),
{
    let mut r: Vec<Vec<u8>> = Vec::new();
    let mut i: usize = 0;
    while i < coeffs.len()
        invariant
            i <= coeffs.len(),
            r.len() == i,
            forall|j: int| 0 <= j < i ==> (#[trigger] r@[j])@ == F::repr(coeffs@[j].value()),
        decreases coeffs.len() - i,
    {
        r.push(coeffs[i].to_repr());
        i = i + 1;
    }
    r
}

} // verus!
