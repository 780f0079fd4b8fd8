//! Multi-scalar multiplication of many points, none of which is a sum or difference of others
//! in their buckets: additions are made in batches that share an inversion.
use vstd::prelude::*;
use vstd::arithmetic::div_mod::*;
use vstd::arithmetic::power2::*;

use crate::affine;
use crate::affine::{Affine, Bucket, BucketAffine};
use crate::algebra;
use crate::algebra::AbelianGroup;
use crate::batch;
use crate::batch::SchedulePoint;
use crate::booth;
use crate::booth::get_booth_index;
use crate::buckets;
use crate::buckets::double_times;
use crate::curve::{CurveAffine, Field, Group, PrimeField};
use crate::parallel;
use crate::parallel::{best_multiexp, par_map};
use crate::schedule;
use crate::schedule::{Plan, Schedule};
use crate::serial;
use crate::window;
use crate::window::window_size;

verus! {

/// From this window size on additions are made in batches.
pub const BATCH_WINDOW: usize = 10;

/// The digits of scalars in one window.
pub open spec fn scalar_digits<F: PrimeField>(coeffs: Seq<F>, c: nat, window: nat) -> Seq<int> {
    Seq::new(
        coeffs.len(),
        |i: int| booth::booth_index(window, c, F::repr(coeffs[i].value())),
    )
}

/// The bucket for a digit.
pub open spec fn bucket_of(digit: int) -> int {
    if digit > 0 {
        digit - 1
    } else {
        -digit - 1
    }
}

/// Whether a point is added to its bucket at once, not through the schedule: an addition to
/// that bucket waits already, or it is bucket 0.
pub open spec fn at_once<C: CurveAffine>(plan: Plan<C>, digit: int) -> bool {
    bucket_of(digit) == 0 || plan.waiting.contains(bucket_of(digit))
}

/// The plan after a point with its digit.
pub open spec fn plan_point<C: CurveAffine>(plan: Plan<C>, p: C, digit: int) -> Plan<C> {
    if digit == 0 || at_once(plan, digit) {
        plan
    } else {
        schedule::plan_add(plan, bucket_of(digit), affine::signed(p, digit > 0))
    }
}

/// The plan after the first `i` points.
pub open spec fn plan_points<C: CurveAffine>(
    bases: Seq<C>,
    ds: Seq<int>,
    buckets: nat,
    i: nat,
) -> Plan<C>
    decreases i,
{
    if i == 0 {
        schedule::plan_empty(buckets)
    } else {
        plan_point(plan_points(bases, ds, buckets, (i - 1) as nat), bases[i - 1], ds[i - 1])
    }
}

/// A point that goes through the schedule has another abscissa than the sum in its bucket.
pub open spec fn clear<C: CurveAffine>(plan: Plan<C>, p: C, digit: int) -> bool {
    digit != 0 && !at_once(plan, digit) ==> (plan.sums[bucket_of(digit)] matches Some(sum)
        ==> sum.xy().unwrap().0 != p.xy().unwrap().0)
}

/// No point meets itself or its inverse in a bucket.
pub open spec fn all_clear<C: CurveAffine>(bases: Seq<C>, ds: Seq<int>, buckets: nat) -> bool {
    forall|i: int|
        0 <= i < bases.len() ==> clear(
            plan_points(bases, ds, buckets, i as nat),
            #[trigger] bases[i],
            ds[i],
        )
}

/// The points have coordinates, and in no window does one meet itself or its inverse in a
/// bucket.
pub open spec fn batches<C: CurveAffine>(
    coeffs: Seq<C::Scalar>,
    bases: Seq<C>,
    c: nat,
) -> bool {
    &&& forall|i: int| 0 <= i < bases.len() ==> (#[trigger] bases[i]).xy() is Some
    &&& forall|w: nat|
        w < buckets::window_count(C::Scalar::NUM_BITS as nat, c) ==> all_clear(
            bases,
            #[trigger] scalar_digits(coeffs, c, w),
            pow2((c - 1) as nat),
        )
}

/// Bare coordinates stand for points.
pub open spec fn are_coordinates<C: CurveAffine>(locals: Seq<Affine<C>>, bases: Seq<C>) -> bool {
    &&& locals.len() == bases.len()
    &&& forall|i: int|
        0 <= i < bases.len() ==> bases[i].xy() == Some(
            ((#[trigger] locals[i]).x, locals[i].y),
        )
}

/// Puts a point into the bucket for its digit, at once or by way of the schedule. Fails if it
/// meets itself or its inverse there.
#[verifier::spinoff_prover]
#[verifier::rlimit(60)]
fn place_point<C: CurveAffine>(
    bases: &[C],
    locals: &[Affine<C>],
    i: usize,
    digit: i32,
    j_bucks: &mut Vec<Bucket<C>>,
    sched: &mut Schedule<C>,
) -> (r: bool)
    requires
        are_coordinates(locals@, bases@),
        i < bases@.len(),
        i32::MIN < digit,
        -old(j_bucks)@.len() <= digit <= old(j_bucks)@.len(),
        old(sched).buckets@.len() == old(j_bucks)@.len(),
        old(sched).wf(locals@),
        old(sched).ready(locals@),
    ensures
        r <==> clear(old(sched).plan(locals@), bases@[i as int], digit as int),
        r ==> {
            &&& final(j_bucks)@.len() == old(j_bucks)@.len()
            &&& final(sched).wf(locals@)
            &&& final(sched).ready(locals@)
            &&& final(sched).plan(locals@) == plan_point(
                old(sched).plan(locals@),
                bases@[i as int],
                digit as int,
            )
            &&& forall|b: int|
                0 <= b < final(j_bucks)@.len() ==> (#[trigger] final(j_bucks)@[b]).point().plus(
                    schedule::sum_or_zero(final(sched).plan(locals@).sums[b]),
                ) == (if digit != 0 && b == bucket_of(digit as int) {
                    old(j_bucks)@[b].point().plus(
                        schedule::sum_or_zero(old(sched).plan(locals@).sums[b]),
                    ).plus(affine::signed(bases@[i as int], digit > 0))
                } else {
                    old(j_bucks)@[b].point().plus(
                        schedule::sum_or_zero(old(sched).plan(locals@).sums[b]),
                    )
                })
        },
{
    let ghost old_bucks = j_bucks@;
    let ghost before = *sched;
    let ghost old_plan = sched.plan(locals@);
    let ghost p = affine::signed(bases@[i as int], digit > 0);
    if digit == 0 {
        return true;
    }
    let sign: bool = digit > 0;
    let b: usize = if sign {
        digit as usize - 1
    } else {
        (-digit) as usize - 1
    };
    proof {
        affine::lemma_point(locals@[i as int], bases@[i as int]);
        let (jp, sp) = (old_bucks[b as int].point(), schedule::sum_or_zero(old_plan.sums[b as int]));
        C::law_assoc(jp, p, sp);
        C::law_comm(p, sp);
        C::law_assoc(jp, sp, p);
        algebra::lemma_zero_left(p);
    }
    if sched.contains(b) {
        let mut bucket = j_bucks[b];
        bucket.add_assign(&bases[i], sign);
        j_bucks.set(b, bucket);
        return true;
    }
    proof {
        lemma_own_abscissa(*sched, locals@, b as int);
    }
    let meets: bool = match sched.buckets[b] {
        BucketAffine::Empty => false,
        BucketAffine::Point(a) => {
            proof {
                C::Base::law_sub_zero(a.x, locals@[i as int].x);
            }
            a.x.sub(&locals[i].x).is_zero()
        },
    };
    if meets {
        return false;
    }
    sched.add(locals, i, b, sign);
    proof {
        lemma_still_ready(before, *sched, locals@, i, b, sign);
    }
    true
}

/// Sorts the points into buckets by their digits in one window, most of them by way of a
/// schedule. Both kinds of buckets together hold the sums. Fails if a point meets itself or its
/// inverse in a bucket.
#[verifier::spinoff_prover]
#[verifier::rlimit(60)]
fn fill_schedule<C: CurveAffine>(
    reprs: &Vec<Vec<u8>>,
    bases: &[C],
    locals: &[Affine<C>],
    c: usize,
    window: usize,
) -> (r: Option<(Vec<Bucket<C>>, Schedule<C>)>)
    requires
        1 <= c <= 23,
        window * c <= usize::MAX,
        reprs@.len() == bases@.len(),
        are_coordinates(locals@, bases@),
    ensures
        r is Some <==> all_clear(
            bases@,
            buckets::digits(reprs@, c as nat, window as nat),
            pow2((c - 1) as nat),
        ),
        r matches Some((j_bucks, sched)) ==> {
            &&& j_bucks@.len() == pow2((c - 1) as nat)
            &&& sched.buckets@.len() == pow2((c - 1) as nat)
            &&& forall|b: int|
                0 <= b < pow2((c - 1) as nat) ==> {
                    &&& (#[trigger] sched.buckets@[b]).valid()
                    &&& j_bucks@[b].point().plus(sched.buckets@[b].point()) == algebra::lincomb(
                        buckets::weights(buckets::digits(reprs@, c as nat, window as nat), b),
                        bases@,
                        bases@.len(),
                    )
                }
        },
{
    let ghost ds = buckets::digits(reprs@, c as nat, window as nat);
    let ghost nb = pow2((c - 1) as nat);
    proof {
        vstd::bits::lemma_usize_pow2_no_overflow((c - 1) as nat);
        vstd::bits::lemma_usize_shl_is_mul(1, (c - 1) as usize);
    }
    let count: usize = 1usize << (c - 1);
    let mut j_bucks: Vec<Bucket<C>> = Vec::new();
    let mut k: usize = 0;
    while k < count
        invariant
            k <= count,
            j_bucks.len() == k,
            forall|b: int| 0 <= b < k ==> #[trigger] j_bucks@[b] is Empty,
        decreases count - k,
    {
        j_bucks.push(Bucket::Empty);
        k = k + 1;
    }
    let mut sched: Schedule<C> = Schedule::new(c);
    assert(sched.wf(locals@));
    assert(sched.plan(locals@) == plan_points(bases@, ds, nb, 0));
    proof {
        C::law_zero(C::zero());
    }
    let mut i: usize = 0;
    while i < reprs.len()
        invariant
            1 <= c <= 23,
            window * c <= usize::MAX,
            i <= reprs@.len(),
            reprs@.len() == bases@.len(),
            are_coordinates(locals@, bases@),
            ds == buckets::digits(reprs@, c as nat, window as nat),
            nb == pow2((c - 1) as nat),
            forall|j: int|
                0 <= j < i ==> clear(
                    plan_points(bases@, ds, nb, j as nat),
                    #[trigger] bases@[j],
                    ds[j],
                ),
            j_bucks@.len() == nb,
            sched.wf(locals@),
            sched.ready(locals@),
            sched.plan(locals@) == plan_points(bases@, ds, nb, i as nat),
            sched.plan(locals@).sums.len() == nb,
            forall|b: int|
                0 <= b < nb ==> (#[trigger] j_bucks@[b]).point().plus(
                    schedule::sum_or_zero(sched.plan(locals@).sums[b]),
                ) == algebra::lincomb(buckets::weights(ds, b), bases@, i as nat),
        decreases reprs.len() - i,
    {
        let ghost old_bucks = j_bucks@;
        let ghost old_plan = sched.plan(locals@);
        let digit: i32 = get_booth_index(window, c, reprs[i].as_slice());
        proof {
            booth::law_booth_bounded(window as nat, c as nat, reprs@[i as int]@);
            assert(ds[i as int] == digit);
            lemma2_to64();
            if c < 23 {
                lemma_pow2_strictly_increases((c - 1) as nat, 22);
            }
        }
        if !place_point(bases, locals, i, digit, &mut j_bucks, &mut sched) {
            assert(!clear(
                plan_points(bases@, ds, nb, i as nat),
                bases@[i as int],
                ds[i as int],
            ));
            return None;
        }
        proof {
            assert(clear(old_plan, bases@[i as int], ds[i as int]));
            assert forall|b: int| 0 <= b < nb implies (#[trigger] j_bucks@[b]).point().plus(
                schedule::sum_or_zero(sched.plan(locals@).sums[b]),
            ) == algebra::lincomb(buckets::weights(ds, b), bases@, (i + 1) as nat) by {
                assert(old_bucks[b].point().plus(schedule::sum_or_zero(old_plan.sums[b]))
                    == algebra::lincomb(buckets::weights(ds, b), bases@, i as nat));
                buckets::lemma_bucket_step(ds, bases@, i as nat, b);
            }
        }
        i = i + 1;
    }
    sched.execute(locals);
    proof {
        let plan = plan_points(bases@, ds, nb, bases@.len());
        assert forall|b: int| 0 <= b < nb implies {
            &&& (#[trigger] sched.buckets@[b]).valid()
            &&& j_bucks@[b].point().plus(sched.buckets@[b].point()) == algebra::lincomb(
                buckets::weights(ds, b),
                bases@,
                bases@.len(),
            )
        } by {
            assert(sched.plan(locals@).sums[b] == plan.sums[b]);
            assert(sched.plan(locals@).waiting.len() == 0);
            assert(j_bucks@[b].point().plus(schedule::sum_or_zero(plan.sums[b])) == algebra::lincomb(
                buckets::weights(ds, b),
                bases@,
                bases@.len(),
            ));
        }
    }
    Some((j_bucks, sched))
}

/// A point with another abscissa than its bucket can be added with the others.
proof fn lemma_still_ready<C: CurveAffine>(
    before: Schedule<C>,
    after: Schedule<C>,
    locals: Seq<Affine<C>>,
    base_idx: usize,
    buck_idx: usize,
    sign: bool,
)
    requires
        before.ready(locals),
        before.ptr < schedule::BATCH_SIZE,
        base_idx < locals.len(),
        buck_idx < before.buckets@.len(),
        before.buckets@[buck_idx as int] matches BucketAffine::Point(a) ==> a.x
            != locals[base_idx as int].x,
        before.buckets@[buck_idx as int] is Empty ==> {
            &&& after.buckets@ == before.buckets@.update(
                buck_idx as int,
                after.buckets@[buck_idx as int],
            )
            &&& after.set@ == before.set@
            &&& after.ptr == before.ptr
        },
        before.buckets@[buck_idx as int] is Point && before.ptr + 1 < schedule::BATCH_SIZE ==> {
            &&& after.buckets@ == before.buckets@
            &&& after.set@ == before.set@.update(
                before.ptr as int,
                (SchedulePoint { base_idx, buck_idx, sign }),
            )
            &&& after.ptr == before.ptr + 1
        },
        before.buckets@[buck_idx as int] is Point && before.ptr + 1 == schedule::BATCH_SIZE
            ==> after.ptr == 0,
    ensures
        after.ready(locals),
{
    assert forall|k: int| 0 <= k < after.ptr && k < schedule::BATCH_SIZE implies batch::addable(
        after.buckets@,
        #[trigger] after.set@[k],
        locals,
    ) by {
        if k < before.ptr {
            assert(batch::addable(before.buckets@, before.set@[k], locals));
        }
    }
}

/// Where no addition waits for a bucket, its abscissa is that of the sum in the plan.
proof fn lemma_own_abscissa<C: CurveAffine>(sched: Schedule<C>, locals: Seq<Affine<C>>, b: int)
    requires
        sched.wf(locals),
        0 <= b < sched.buckets@.len(),
        !sched.plan(locals).waiting.contains(b),
    ensures
        sched.buckets@[b] matches BucketAffine::Point(a) ==> {
            &&& sched.plan(locals).sums[b] is Some
            &&& sched.plan(locals).sums[b]->0.xy() == Some((a.x, a.y))
        },
{
    schedule::lemma_waiting_at(sched.set@, sched.ptr as nat, b);
    let k = schedule::waiting_at(sched.set@, sched.ptr as nat, b);
    if k >= 0 {
        assert(sched.plan(locals).waiting[k] == b);
    }
    assert(sched.buckets@[b].valid());
}

/// The part of a multi-scalar multiplication that one window makes up. Fails if a point meets
/// itself or its inverse in a bucket.
#[verifier::spinoff_prover]
#[verifier::rlimit(60)]
pub fn independent_window<C: CurveAffine>(
    reprs: &Vec<Vec<u8>>,
    bases: &[C],
    locals: &[Affine<C>],
    c: usize,
    window: usize,
) -> (r: Option<C::Curve>)
    requires
        1 <= c <= 23,
        window * c <= usize::MAX,
        reprs@.len() == bases@.len(),
        are_coordinates(locals@, bases@),
    ensures
        r is Some <==> all_clear(
            bases@,
            buckets::digits(reprs@, c as nat, window as nat),
            pow2((c - 1) as nat),
        ),
        r matches Some(part) ==> part.point() == algebra::smul(
            pow2((window * c) as nat) as int,
            algebra::lincomb(
                buckets::digits(reprs@, c as nat, window as nat),
                bases@,
                bases@.len(),
            ),
        ),
{
    let ghost ds = buckets::digits(reprs@, c as nat, window as nat);
    let ghost n = bases@.len();
    let (j_bucks, sched) = match fill_schedule(reprs, bases, locals, c, window) {
        None => {
            return None;
        },
        Some(filled) => filled,
    };

    // summation by parts
    // e.g. 3a + 2b + 1c = a +
    //                    (a) + b +
    //                    ((a) + b) + c
    let mut acc = C::Curve::identity();
    let mut running_sum = C::Curve::identity();
    let mut b: usize = j_bucks.len();
    proof {
        assert forall|i: int| 0 <= i < ds.len() implies -b <= #[trigger] ds[i] <= b by {
            booth::law_booth_bounded(window as nat, c as nat, reprs@[i]@);
        }
        buckets::lemma_parts_start(ds, bases@, n, b as int);
    }
    while b > 0
        invariant
            b <= j_bucks@.len(),
            n <= ds.len(),
            j_bucks@.len() == sched.buckets@.len(),
            running_sum.point() == algebra::lincomb(buckets::runs(ds, b as int), bases@, n),
            acc.point() == algebra::lincomb(buckets::tails(ds, b as int), bases@, n),
            forall|k: int|
                0 <= k < j_bucks@.len() ==> {
                    &&& (#[trigger] sched.buckets@[k]).valid()
                    &&& j_bucks@[k].point().plus(sched.buckets@[k].point()) == algebra::lincomb(
                        buckets::weights(ds, k),
                        bases@,
                        n,
                    )
                },
        decreases b,
    {
        b = b - 1;
        assert(sched.buckets@[b as int].valid());
        running_sum = running_sum.add(&j_bucks[b].add(&sched.buckets[b]));
        acc = acc.add(&running_sum);
        proof {
            buckets::lemma_parts_step(ds, bases@, n, b as int);
        }
    }
    proof {
        buckets::lemma_parts_end(ds, bases@, n);
    }

    // shift to the position of the window
    double_times::<C>(&mut acc, window * c);
    Some(acc)
}

/// The numbers that the lowest `k` digits of scalars denote.
spec fn booth_values<F: PrimeField>(coeffs: Seq<F>, c: nat, k: nat) -> Seq<int> {
    Seq::new(coeffs.len(), |i: int| booth::booth_value(c, F::repr(coeffs[i].value()), k))
}

/// One window more counts in the sum of the windows.
proof fn lemma_window_sum<C: CurveAffine>(
    coeffs: Seq<C::Scalar>,
    bases: Seq<C>,
    c: nat,
    window: nat,
)
    requires
        coeffs.len() == bases.len(),
    ensures
        algebra::lincomb(booth_values(coeffs, c, window + 1), bases, bases.len())
            == algebra::lincomb(booth_values(coeffs, c, window), bases, bases.len()).plus(
            algebra::smul(
                pow2(c * window) as int,
                algebra::lincomb(scalar_digits(coeffs, c, window), bases, bases.len()),
            ),
        ),
{
    let n = bases.len();
    let m = pow2(c * window) as int;
    let ds = scalar_digits(coeffs, c, window);
    let scaled = Seq::new(n, |i: int| m * ds[i]);
    algebra::lemma_lincomb_scale(m, ds, scaled, bases, n);
    assert forall|i: int| 0 <= i < n implies #[trigger] booth_values(coeffs, c, window + 1)[i]
        == booth_values(coeffs, c, window)[i] + scaled[i] by {}
    algebra::lemma_lincomb_add(
        booth_values(coeffs, c, window),
        scaled,
        booth_values(coeffs, c, window + 1),
        bases,
        n,
    );
}

/// All windows together denote the scalars.
proof fn lemma_window_sum_end<F: PrimeField>(coeffs: Seq<F>, c: nat)
    requires
        1 <= c <= booth::MAX_EXACT_WINDOW,
    ensures
        booth_values(coeffs, c, buckets::window_count(F::NUM_BITS as nat, c))
            == buckets::values(coeffs),
{
    let windows = buckets::window_count(F::NUM_BITS as nat, c);
    assert forall|i: int| 0 <= i < coeffs.len() implies #[trigger] booth_values(
        coeffs,
        c,
        windows,
    )[i] == coeffs[i].value() by {
        F::law_value(coeffs[i]);
        F::law_repr(coeffs[i].value());
        serial::lemma_windows_cover::<F>(coeffs[i].value(), c);
        booth::law_booth_reconstructs(c, F::repr(coeffs[i].value()), windows);
    }
    assert(booth_values(coeffs, c, windows) =~= buckets::values(coeffs));
}

/// Whether a value is the part of a multi-scalar multiplication that one window makes up. There
/// is none if a point meets itself or its inverse in a bucket.
pub open spec fn is_window_part<C: CurveAffine>(
    r: Option<C::Curve>,
    coeffs: Seq<C::Scalar>,
    bases: Seq<C>,
    c: usize,
    w: usize,
) -> bool {
    let ds = scalar_digits(coeffs, c as nat, w as nat);
    &&& r is Some <==> all_clear(bases, ds, pow2((c - 1) as nat))
    &&& r matches Some(part) ==> part.point() == algebra::smul(
        pow2(c as nat * w as nat) as int,
        algebra::lincomb(ds, bases, bases.len()),
    )
}

/// Multi-scalar multiplication of points that are independent of each other. There are as many
/// scalars as points. Where there are enough points for large windows, additions
/// are made in batches; that fails if a point is the identity, or meets itself or its
/// inverse in a bucket.
#[verifier::spinoff_prover]
#[verifier::rlimit(60)]
pub fn try_multiexp_independent_points<C: CurveAffine>(
    coeffs: &[C::Scalar],
    bases: &[C],
) -> (r: Option<C::Curve>)
    requires
        coeffs@.len() == bases@.len(),
        !window::has_large_window(bases@.len()) ==> parallel::always_splits(bases@.len()),
    ensures
        r is Some <==> (window::has_large_window(bases@.len()) ==> batches(
            coeffs@,
            bases@,
            window::window_size_for(bases@.len()),
        )),
        bases@.len() <= 8103 ==> r is Some,
        r matches Some(sum) ==> sum.point() == buckets::msm(coeffs@, bases@),
{
    let c: usize = window_size(bases.len());
    proof {
        window::lemma_window_size_bounds(bases@.len());
    }
    if c < BATCH_WINDOW {
        return Some(best_multiexp(coeffs, bases));
    }
    let n: usize = bases.len();
    let mut i: usize = 0;
    while i < n
        invariant
            i <= n,
            n == bases@.len(),
            forall|j: int| 0 <= j < i ==> (#[trigger] bases@[j]).xy() is Some,
            window::has_large_window(n as nat),
        decreases n - i,
    {
        if bases[i].coordinates().is_none() {
            assert(bases@[i as int].xy() is None);
            return None;
        }
        i = i + 1;
    }

    let repr_job = |i: usize| -> (r: Vec<u8>)
        requires
            i < n,
        ensures
            r@ == C::Scalar::repr(coeffs@[i as int].value()),
    {
        coeffs[i].to_repr()
    };
    let reprs = par_map(n, repr_job);

    let local_job = |i: usize| -> (r: Affine<C>)
        requires
            i < n,
        ensures
            bases@[i as int].xy() == Some((r.x, r.y)),
    {
        assert(bases@[i as int].xy() is Some);
        Affine::from(&bases[i])
    };
    let locals = par_map(n, local_job);

    proof {
        C::Scalar::law_modulus();
        lemma_div_is_ordered_by_denominator(C::Scalar::NUM_BITS as int, 1, c as int);
    }
    let number_of_windows: usize = C::Scalar::NUM_BITS as usize / c + 1;
    let window_job = |w: usize| -> (r: Option<C::Curve>)
        requires
            w < number_of_windows,
        ensures
            is_window_part(r, coeffs@, bases@, c, w),
    {
        proof {
            let ds = buckets::digits(reprs@, c as nat, w as nat);
            assert(ds =~= scalar_digits(coeffs@, c as nat, w as nat));
            serial::lemma_window_fits(C::Scalar::NUM_BITS as nat, c as nat, w as nat);
            assert(w * c == c * w) by (nonlinear_arith);
        }
        independent_window(&reprs, bases, locals.as_slice(), c, w)
    };
    let parts = par_map(number_of_windows, window_job);

    let mut acc = C::Curve::identity();
    let mut w: usize = 0;
    proof {
        algebra::lemma_lincomb_zero(booth_values(coeffs@, c as nat, 0), bases@, n as nat);
    }
    while w < number_of_windows
        invariant
            w <= number_of_windows,
            number_of_windows == buckets::window_count(C::Scalar::NUM_BITS as nat, c as nat),
            c == window::window_size_for(n as nat),
            window::has_large_window(n as nat),
            n == bases@.len(),
            coeffs@.len() == bases@.len(),
            parts@.len() == number_of_windows,
            forall|k: int|
                0 <= k < number_of_windows ==> is_window_part(
                    #[trigger] parts@[k],
                    coeffs@,
                    bases@,
                    c,
                    k as usize,
                ),
            forall|k: nat|
                k < w ==> all_clear(
                    bases@,
                    #[trigger] scalar_digits(coeffs@, c as nat, k),
                    pow2((c - 1) as nat),
                ),
            acc.point() == algebra::lincomb(
                booth_values(coeffs@, c as nat, w as nat),
                bases@,
                n as nat,
            ),
        decreases number_of_windows - w,
    {
        assert(is_window_part(parts@[w as int], coeffs@, bases@, c, w));
        match parts[w] {
            None => {
                assert(!all_clear(
                    bases@,
                    scalar_digits(coeffs@, c as nat, w as nat),
                    pow2((c - 1) as nat),
                ));
                return None;
            },
            Some(part) => {
                acc = acc.add(&part);
            },
        }
        proof {
            lemma_window_sum(coeffs@, bases@, c as nat, w as nat);
        }
        w = w + 1;
    }
    proof {
        lemma_window_sum_end(coeffs@, c as nat);
    }
    Some(acc)
}

/// Multi-scalar multiplication of points that are independent of each other. There are as many
/// scalars as points. Where there are enough points for large windows, additions
/// are made in batches; then no point may be the identity, nor meet itself or its
/// inverse in a bucket.
pub fn best_multiexp_independent_points<C: CurveAffine>(
    coeffs: &[C::Scalar],
    bases: &[C],
) -> (r: C::Curve)
    requires
        coeffs@.len() == bases@.len(),
        !window::has_large_window(bases@.len()) ==> parallel::always_splits(bases@.len()),
        window::has_large_window(bases@.len()) ==> batches(
            coeffs@,
            bases@,
            window::window_size_for(bases@.len()),
        ),
    ensures
        r.point() == buckets::msm(coeffs@, bases@),
{
    try_multiexp_independent_points(coeffs, bases).unwrap()
}

/// A choice of points, each with a sign, that is not empty.
pub open spec fn signed_choice(e: Seq<int>, n: nat) -> bool {
    &&& e.len() == n
    &&& forall|i: int| 0 <= i < n ==> -1 <= #[trigger] e[i] <= 1
    &&& exists|i: int| 0 <= i < n && #[trigger] e[i] != 0
}

/// No sums and differences of some of the points cancel.
pub open spec fn independent<C: CurveAffine>(bases: Seq<C>) -> bool {
    forall|e: Seq<int>| #[trigger]
        signed_choice(e, bases.len()) ==> algebra::lincomb(e, bases, bases.len()) != C::zero()
}

/// A sum of some of the first `i` points, each with a sign.
spec fn is_signed_sum<C: CurveAffine>(sum: C, e: Seq<int>, bases: Seq<C>, i: nat) -> bool {
    &&& signed_choice(e, bases.len())
    &&& forall|k: int| i <= k < bases.len() ==> #[trigger] e[k] == 0
    &&& sum == algebra::lincomb(e, bases, bases.len())
}

/// Every sum in a plan for the first `i` points is one of those.
spec fn has_signed_sums<C: CurveAffine>(plan: Plan<C>, bases: Seq<C>, i: nat) -> bool {
    forall|b: int|
        0 <= b < plan.sums.len() ==> (#[trigger] plan.sums[b] matches Some(sum)
            ==> exists|e: Seq<int>| is_signed_sum(sum, e, bases, i))
}

/// A coefficient that was zero becomes another.
proof fn lemma_lincomb_update<A: AbelianGroup>(k: Seq<int>, p: Seq<A>, n: nat, i: int, v: int)
    requires
        n <= k.len(),
        0 <= i < n,
        k[i] == 0,
    ensures
        algebra::lincomb(k.update(i, v), p, n) == algebra::lincomb(k, p, n).plus(
            algebra::smul(v, p[i]),
        ),
    decreases n,
{
    let m = (n - 1) as nat;
    if i == m {
        assert forall|j: int| 0 <= j < m implies #[trigger] algebra::smul(
            k.update(i, v)[j],
            p[j],
        ) == algebra::smul(k[j], p[j]) by {}
        algebra::lemma_lincomb_congruent(k.update(i, v), p, k, p, m);
        A::law_zero(algebra::lincomb(k, p, m));
    } else {
        lemma_lincomb_update(k, p, m, i, v);
        let (l, x, y) = (
            algebra::lincomb(k, p, m),
            algebra::smul(v, p[i]),
            algebra::smul(k[m as int], p[m as int]),
        );
        A::law_assoc(l, x, y);
        A::law_comm(x, y);
        A::law_assoc(l, y, x);
    }
}

/// A point that a signed sum does not use yet can be added to it or subtracted from it.
proof fn lemma_signed_sum_step<C: CurveAffine>(
    sum: C,
    e: Seq<int>,
    bases: Seq<C>,
    i: nat,
    sign: bool,
)
    requires
        i < bases.len(),
        is_signed_sum(sum, e, bases, i),
    ensures
        is_signed_sum(
            sum.plus(affine::signed(bases[i as int], sign)),
            e.update(
                i as int,
                if sign {
                    1
                } else {
                    -1
                },
            ),
            bases,
            i + 1,
        ),
{
    let v: int = if sign {
        1
    } else {
        -1
    };
    let e1 = e.update(i as int, v);
    assert(e1[i as int] != 0);
    assert(e[i as int] == 0);
    lemma_lincomb_update(e, bases, bases.len(), i as int, v);
    algebra::lemma_smul_one(bases[i as int]);
}

/// One point, with its sign, is a signed sum.
proof fn lemma_signed_sum_first<C: CurveAffine>(bases: Seq<C>, i: nat, sign: bool) -> (e: Seq<
    int,
>)
    requires
        i < bases.len(),
    ensures
        is_signed_sum(affine::signed(bases[i as int], sign), e, bases, i + 1),
{
    let n = bases.len();
    let v: int = if sign {
        1
    } else {
        -1
    };
    let zeros = Seq::new(n, |k: int| 0int);
    let e = zeros.update(i as int, v);
    algebra::lemma_lincomb_zero(zeros, bases, n);
    lemma_lincomb_update(zeros, bases, n, i as int, v);
    algebra::lemma_smul_one(bases[i as int]);
    algebra::lemma_zero_left(affine::signed(bases[i as int], sign));
    assert(e[i as int] != 0);
    e
}

/// The sums of a plan for independent points are signed sums of them.
#[verifier::spinoff_prover]
proof fn lemma_plan_signed_sums<C: CurveAffine>(
    bases: Seq<C>,
    ds: Seq<int>,
    nb: nat,
    i: nat,
)
    requires
        i <= bases.len(),
        ds.len() == bases.len(),
        buckets::bounded(ds, nb as int),
    ensures
        plan_points(bases, ds, nb, i).sums.len() == nb,
        has_signed_sums(plan_points(bases, ds, nb, i), bases, i),
    decreases i,
{
    if i > 0 {
        let j = (i - 1) as nat;
        lemma_plan_signed_sums(bases, ds, nb, j);
        let before = plan_points(bases, ds, nb, j);
        let after = plan_points(bases, ds, nb, i);
        let digit = ds[j as int];
        assert(-nb <= digit <= nb);
        assert forall|b: int| 0 <= b < after.sums.len() && #[trigger] after.sums[b] is Some
            implies exists|e: Seq<int>| is_signed_sum(after.sums[b]->0, e, bases, i) by {
            assert(before.sums[b] matches Some(sum) ==> exists|e: Seq<int>|
                is_signed_sum(sum, e, bases, j));
            if after.sums[b] == before.sums[b] {
                let e = choose|e: Seq<int>| is_signed_sum(before.sums[b]->0, e, bases, j);
                assert(is_signed_sum(before.sums[b]->0, e, bases, j));
                assert(is_signed_sum(after.sums[b]->0, e, bases, i));
            } else {
                assert(b == bucket_of(digit));
                let p = affine::signed(bases[j as int], digit > 0);
                if before.sums[b] is None {
                    assert(after.sums[b] == Some(p));
                    let e = lemma_signed_sum_first(bases, j, digit > 0);
                    assert(is_signed_sum(after.sums[b]->0, e, bases, i));
                } else {
                    let sum = before.sums[b]->0;
                    assert(after.sums[b] == Some(sum.plus(p)));
                    let e = choose|e: Seq<int>| is_signed_sum(sum, e, bases, j);
                    let v: int = if digit > 0 {
                        1
                    } else {
                        -1
                    };
                    lemma_signed_sum_step(sum, e, bases, j, digit > 0);
                    assert(is_signed_sum(after.sums[b]->0, e.update(j as int, v), bases, i));
                }
            }
        }
    }
}

/// Independent points can always be added in batches, whatever their scalars and the window
/// size.
pub proof fn law_independent_points_batch<C: CurveAffine>(
    coeffs: Seq<C::Scalar>,
    bases: Seq<C>,
    c: nat,
)
    requires
        coeffs.len() == bases.len(),
        1 <= c,
        independent(bases),
    ensures
        batches(coeffs, bases, c),
{
    let n = bases.len();
    assert forall|i: int| 0 <= i < n implies (#[trigger] bases[i]).xy() is Some by {
        let e = lemma_signed_sum_first(bases, i as nat, true);
        assert(signed_choice(e, n));
        C::law_xy_zero(bases[i]);
    }
    assert forall|w: nat|
        w < buckets::window_count(C::Scalar::NUM_BITS as nat, c) implies all_clear(
        bases,
        #[trigger] scalar_digits(coeffs, c, w),
        pow2((c - 1) as nat),
    ) by {
        let ds = scalar_digits(coeffs, c, w);
        let nb = pow2((c - 1) as nat);
        assert forall|i: int| 0 <= i < n implies -nb <= #[trigger] ds[i] <= nb by {
            booth::law_booth_bounded(w, c, C::Scalar::repr(coeffs[i].value()));
        }
        assert forall|i: int| 0 <= i < n implies clear(
            plan_points(bases, ds, nb, i as nat),
            #[trigger] bases[i],
            ds[i],
        ) by {
            let plan = plan_points(bases, ds, nb, i as nat);
            let b = bucket_of(ds[i]);
            lemma_plan_signed_sums(bases, ds, nb, i as nat);
            assert(-nb <= ds[i] <= nb);
            if ds[i] != 0 && !at_once(plan, ds[i]) && plan.sums[b] is Some {
                let sum = plan.sums[b]->0;
                let k = i as nat;
                let e = choose|e: Seq<int>| is_signed_sum(sum, e, bases, k);
                C::law_xy_zero(sum);
                if sum.xy().unwrap().0 == bases[i].xy().unwrap().0 {
                    C::law_xy_parallel(sum, bases[i]);
                    lemma_signed_sum_step(sum, e, bases, i as nat, true);
                    lemma_signed_sum_step(sum, e, bases, i as nat, false);
                    C::law_inverse(bases[i]);
                    C::law_comm(bases[i], bases[i].minus());
                }
            }
        }
    }
}

} // verus!
