//! Multi-scalar multiplication on one thread.
use vstd::prelude::*;
use vstd::arithmetic::div_mod::*;
use vstd::arithmetic::mul::*;
use vstd::arithmetic::power2::*;

use crate::algebra;
use crate::algebra::AbelianGroup;
use crate::booth;
use crate::booth::get_booth_index;
use crate::buckets;
use crate::buckets::{double_times, to_reprs};
use crate::curve::{CurveAffine, Group, PrimeField};
use crate::window;
use crate::window::window_size;

verus! {

/// The sum of the points with one digit. It stays in affine form until there is
/// something to add.
pub enum SerialBucket<C: CurveAffine> {
    Empty,
    Affine(C),
    Projective(C::Curve),
}

impl<C: CurveAffine> Copy for SerialBucket<C> {}

impl<C: CurveAffine> Clone for SerialBucket<C> {
    fn clone(&self) -> (r: Self)
        ensures
            r == *self,
    {
        *self
    }
}

impl<C: CurveAffine> SerialBucket<C> {
    /// The sum in the bucket.
    pub open spec fn point(self) -> C {
        match self {
            SerialBucket::Empty => C::zero(),
            SerialBucket::Affine(a) => a,
            SerialBucket::Projective(a) => a.point(),
        }
    }

    /// Puts a point into the bucket.
    pub fn add_assign(&mut self, other: &C)
        ensures
            *old(self) is Empty ==> *final(self) == SerialBucket::Affine(*other),
            *old(self) !is Empty ==> *final(self) is Projective,
            *old(self) matches SerialBucket::Affine(a) ==> final(self)->Projective_0.point()
                == a.plus(*other),
            *old(self) matches SerialBucket::Projective(a) ==> final(self)->Projective_0.point()
                == a.point().plus(*other),
            final(self).point() == old(self).point().plus(*other),
    {
        proof {
            algebra::lemma_zero_left(*other);
        }
        *self = match *self {
            SerialBucket::Empty => SerialBucket::Affine(*other),
            SerialBucket::Affine(a) => SerialBucket::Projective(a.to_curve().add_affine(other)),
            SerialBucket::Projective(a) => SerialBucket::Projective(a.add_affine(other)),
        };
    }

    /// Adds what is in the bucket to a group element.
    pub fn add(self, other: C::Curve) -> (r: C::Curve)
        ensures
            self is Empty ==> r.point() == other.point(),
            self matches SerialBucket::Affine(a) ==> r.point() == other.point().plus(a),
            self matches SerialBucket::Projective(a) ==> r.point() == other.point().plus(a.point()),
            r.point() == other.point().plus(self.point()),
    {
        proof {
            C::law_zero(other.point());
        }
        match self {
            SerialBucket::Empty => other,
            SerialBucket::Affine(a) => other.add_affine(&a),
            SerialBucket::Projective(a) => other.add(&a),
        }
    }
}

/// Sorts the points into buckets by their digits in one window.
fn fill_buckets<C: CurveAffine>(
    reprs: &Vec<Vec<u8>>,
    bases: &[C],
    c: usize,
    window: usize,
) -> (buckets: Vec<SerialBucket<C>>)
    requires
        1 <= c <= 23,
        window * c <= usize::MAX,
    ensures
        buckets.len() == pow2((c - 1) as nat),
        forall|b: int|
            0 <= b < buckets.len() ==> (#[trigger] buckets@[b]).point() == algebra::lincomb(
                buckets::weights(buckets::digits(reprs@, c as nat, window as nat), b),
                bases@,
                buckets::min_len(reprs@.len(), bases@.len()),
            ),
{
    let ghost ds = buckets::digits(reprs@, c as nat, window as nat);
    proof {
        vstd::bits::lemma_usize_pow2_no_overflow((c - 1) as nat);
        vstd::bits::lemma_usize_shl_is_mul(1, (c - 1) as usize);
    }
    let count: usize = 1usize << (c - 1);
    let mut buckets: Vec<SerialBucket<C>> = Vec::new();
    let mut k: usize = 0;
    while k < count
        invariant
            k <= count,
            buckets.len() == k,
            forall|b: int|
                0 <= b < k ==> (#[trigger] buckets@[b]).point() == algebra::lincomb(
                    buckets::weights(ds, b),
                    bases@,
                    0,
                ),
        decreases count - k,
    {
        buckets.push(SerialBucket::Empty);
        k = k + 1;
    }
    let n: usize = if reprs.len() < bases.len() {
        reprs.len()
    } else {
        bases.len()
    };
    let mut i: usize = 0;
    while i < n
        invariant
            1 <= c <= 23,
            window * c <= usize::MAX,
            ds == buckets::digits(reprs@, c as nat, window as nat),
            i <= n,
            n <= reprs.len(),
            n <= bases.len(),
            buckets.len() == count,
            count == pow2((c - 1) as nat),
            forall|b: int|
                0 <= b < count ==> (#[trigger] buckets@[b]).point() == algebra::lincomb(
                    buckets::weights(ds, b),
                    bases@,
                    i as nat,
                ),
        decreases n - i,
    {
        let ghost before = buckets@;
        let digit: i32 = get_booth_index(window, c, reprs[i].as_slice());
        proof {
            booth::law_booth_bounded(window as nat, c as nat, reprs@[i as int]@);
            assert(ds[i as int] == digit);
            lemma2_to64();
            if c < 23 {
                lemma_pow2_strictly_increases((c - 1) as nat, 22);
            }
        }
        if digit > 0 {
            let b: usize = digit as usize - 1;
            let mut bucket = buckets[b];
            bucket.add_assign(&bases[i]);
            buckets.set(b, bucket);
        }
        if digit < 0 {
            let b: usize = (-digit) as usize - 1;
            let mut bucket = buckets[b];
            bucket.add_assign(&bases[i].neg());
            buckets.set(b, bucket);
        }
        proof {
            assert forall|b: int| 0 <= b < count implies (#[trigger] buckets@[b]).point()
                == algebra::lincomb(buckets::weights(ds, b), bases@, (i + 1) as nat) by {
                assert(before[b].point() == algebra::lincomb(
                    buckets::weights(ds, b),
                    bases@,
                    i as nat,
                ));
                buckets::lemma_bucket_step(ds, bases@, i as nat, b);
            }
        }
        i = i + 1;
    }
    buckets
}

/// Adds the sum of the points, each times its digit in one window.
pub fn add_window<C: CurveAffine>(
    reprs: &Vec<Vec<u8>>,
    bases: &[C],
    c: usize,
    window: usize,
    acc: &mut C::Curve,
)
    requires
        1 <= c <= 23,
        window * c <= usize::MAX,
    ensures
        final(acc).point() == old(acc).point().plus(
            algebra::lincomb(
                buckets::digits(reprs@, c as nat, window as nat),
                bases@,
                buckets::min_len(reprs@.len(), bases@.len()),
            ),
        ),
{
    let ghost ds = buckets::digits(reprs@, c as nat, window as nat);
    let ghost n = buckets::min_len(reprs@.len(), bases@.len());
    let ghost start = acc.point();
    let buckets = fill_buckets(reprs, bases, c, window);

    // Summation by parts
    // e.g. 3a + 2b + 1c = a +
    //                    (a) + b +
    //                    ((a) + b) + c
    let mut running_sum = C::Curve::identity();
    let mut b: usize = buckets.len();
    proof {
        assert forall|i: int| 0 <= i < ds.len() implies -b <= #[trigger] ds[i] <= b by {
            booth::law_booth_bounded(window as nat, c as nat, reprs@[i]@);
        }
        buckets::lemma_parts_start(ds, bases@, n, b as int);
        C::law_zero(start);
    }
    while b > 0
        invariant
            b <= buckets.len(),
            n <= ds.len(),
            running_sum.point() == algebra::lincomb(buckets::runs(ds, b as int), bases@, n),
            acc.point() == start.plus(
                algebra::lincomb(buckets::tails(ds, b as int), bases@, n),
            ),
            forall|k: int|
                0 <= k < buckets.len() ==> (#[trigger] buckets@[k]).point() == algebra::lincomb(
                    buckets::weights(ds, k),
                    bases@,
                    n,
                ),
        decreases b,
    {
        b = b - 1;
        running_sum = buckets[b].add(running_sum);
        *acc = acc.add(&running_sum);
        proof {
            buckets::lemma_parts_step(ds, bases@, n, b as int);
            C::law_assoc(
                start,
                algebra::lincomb(buckets::tails(ds, b + 1), bases@, n),
                algebra::lincomb(buckets::runs(ds, b as int), bases@, n),
            );
        }
    }
    proof {
        buckets::lemma_parts_end(ds, bases@, n);
    }
}

/// What is left of scalars above a window, rounded.
pub open spec fn rounds<F: PrimeField>(coeffs: Seq<F>, c: nat, window: nat) -> Seq<int> {
    Seq::new(
        coeffs.len(),
        |i: int| booth::booth_round(coeffs[i].value(), window, c) as int,
    )
}

/// No scalar reaches beyond the last window, and below the first nothing is cut off.
pub proof fn lemma_rounds_ends<F: PrimeField>(coeffs: Seq<F>, c: nat)
    requires
        1 <= c,
    ensures
        forall|i: int|
            0 <= i < coeffs.len() ==> #[trigger] rounds(
                coeffs,
                c,
                buckets::window_count(F::NUM_BITS as nat, c),
            )[i] == 0,
        rounds(coeffs, c, 0) == buckets::values(coeffs),
{
    let n = buckets::window_count(F::NUM_BITS as nat, c);
    assert forall|i: int| 0 <= i < coeffs.len() implies #[trigger] rounds(coeffs, c, n)[i]
        == 0 by {
        F::law_value(coeffs[i]);
        lemma_windows_cover::<F>(coeffs[i].value(), c);
        booth::lemma_booth_round_top(coeffs[i].value(), n, c);
    }
    assert forall|i: int| 0 <= i < coeffs.len() implies #[trigger] rounds(coeffs, c, 0)[i]
        == coeffs[i].value() by {
        lemma2_to64();
        assert(c * 0 == 0);
        lemma_div_basics((2 * coeffs[i].value()) as int);
    }
    assert(rounds(coeffs, c, 0) =~= buckets::values(coeffs));
}

/// Twice a scalar lies within the windows.
pub proof fn lemma_windows_cover<F: PrimeField>(value: nat, c: nat)
    requires
        1 <= c,
        value < F::modulus(),
    ensures
        2 * value < pow2(c * buckets::window_count(F::NUM_BITS as nat, c)),
{
    let bits = F::NUM_BITS as nat;
    let n = buckets::window_count(bits, c);
    F::law_modulus();
    lemma_fundamental_div_mod(bits as int, c as int);
    lemma_mod_bound(bits as int, c as int);
    lemma_mul_is_distributive_add(c as int, (bits / c) as int, 1);
    assert(bits + 1 <= c * n);
    lemma_pow2_unfold(bits + 1);
    if bits + 1 < c * n {
        lemma_pow2_strictly_increases(bits + 1, c * n);
    }
}

/// Rounding at a window is the rounding at the next, scaled, and the digit.
pub proof fn lemma_rounds_step<F: PrimeField>(
    reprs: Seq<Vec<u8>>,
    coeffs: Seq<F>,
    c: nat,
    window: nat,
)
    requires
        buckets::are_reprs(reprs, coeffs),
        1 <= c <= booth::MAX_EXACT_WINDOW,
    ensures
        forall|i: int|
            0 <= i < coeffs.len() ==> #[trigger] rounds(coeffs, c, window)[i] == pow2(c)
                * rounds(coeffs, c, window + 1)[i] + buckets::digits(reprs, c, window)[i],
{
    assert forall|i: int| 0 <= i < coeffs.len() implies #[trigger] rounds(coeffs, c, window)[i]
        == pow2(c) * rounds(coeffs, c, window + 1)[i] + buckets::digits(reprs, c, window)[i] by {
        assert(reprs[i]@ == F::repr(coeffs[i].value()));
        F::law_value(coeffs[i]);
        F::law_repr(coeffs[i].value());
        booth::lemma_windows_exact(c, reprs[i]@, window + 1, window);
        booth::lemma_booth_telescopes(window, c, reprs[i]@);
    }
}

/// Every window of a scalar starts at a bit that is counted.
pub proof fn lemma_window_fits(num_bits: nat, c: nat, window: nat)
    requires
        1 <= c,
        window < buckets::window_count(num_bits, c),
    ensures
        window * c <= num_bits,
{
    lemma_fundamental_div_mod(num_bits as int, c as int);
    lemma_mod_bound(num_bits as int, c as int);
    assert(window * c <= (num_bits / c) * c) by (nonlinear_arith)
        requires
            window <= num_bits / c,
    ;
    lemma_mul_is_commutative((num_bits / c) as int, c as int);
}

/// Doubles `acc` once for every bit of the windows and adds the sum of every point times its
/// scalar.
pub fn multiexp_serial<C: CurveAffine>(coeffs: &[C::Scalar], bases: &[C], acc: &mut C::Curve)
    requires
        window::has_window(bases@.len()),
    ensures
        ({
            let c = window::window_size_for(bases@.len());
            let windows = buckets::window_count(C::Scalar::NUM_BITS as nat, c);
            final(acc).point() == algebra::smul(
                pow2(c * windows) as int,
                old(acc).point(),
            ).plus(buckets::msm(coeffs@, bases@))
        }),
{
    let ghost start = acc.point();
    let ghost n = buckets::min_len(coeffs@.len(), bases@.len());
    let reprs = to_reprs(coeffs);
    let c: usize = window_size(bases.len());
    proof {
        window::lemma_window_size_bounds(bases@.len());
        C::Scalar::law_modulus();
        lemma_div_is_ordered_by_denominator(C::Scalar::NUM_BITS as int, 1, c as int);
    }
    let number_of_windows: usize = C::Scalar::NUM_BITS as usize / c + 1;
    proof {
        assert(number_of_windows == buckets::window_count(
            C::Scalar::NUM_BITS as nat,
            c as nat,
        ));
        lemma_rounds_ends(coeffs@, c as nat);
        algebra::lemma_lincomb_zero(
            rounds(coeffs@, c as nat, number_of_windows as nat),
            bases@,
            n,
        );
        lemma2_to64();
        assert(c * (number_of_windows - number_of_windows) == 0);
        algebra::lemma_smul_one(start);
        C::law_zero(start);
    }
    let mut window: usize = number_of_windows;
    while window > 0
        invariant
            1 <= c <= 23,
            window <= number_of_windows,
            number_of_windows == buckets::window_count(C::Scalar::NUM_BITS as nat, c as nat),
            buckets::are_reprs(reprs@, coeffs@),
            n == buckets::min_len(coeffs@.len(), bases@.len()),
            acc.point() == algebra::smul(
                pow2((c * (number_of_windows - window)) as nat) as int,
                start,
            ).plus(algebra::lincomb(rounds(coeffs@, c as nat, window as nat), bases@, n)),
        decreases window,
    {
        let ghost e = (c * (number_of_windows - window)) as nat;
        window = window - 1;
        double_times::<C>(acc, c);
        proof {
            lemma_window_fits(C::Scalar::NUM_BITS as nat, c as nat, window as nat);
        }
        add_window(&reprs, bases, c, window, acc);
        proof {
            lemma_rounds_step(reprs@, coeffs@, c as nat, window as nat);
            buckets::lemma_horner_step(
                start,
                e,
                c as nat,
                rounds(coeffs@, c as nat, (window + 1) as nat),
                buckets::digits(reprs@, c as nat, window as nat),
                rounds(coeffs@, c as nat, window as nat),
                bases@,
                n,
            );
            assert(e + c == c * (number_of_windows - window)) by (nonlinear_arith)
                requires
                    e == c * (number_of_windows - (window + 1)),
            ;
        }
    }
}

} // verus!
