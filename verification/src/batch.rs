//! Additions of points that share one inversion.
use vstd::prelude::*;

use crate::affine;
use crate::affine::{Affine, BucketAffine};
use crate::algebra::AbelianGroup;
use crate::buckets;
use crate::curve;
use crate::curve::{CurveAffine, Field};

verus! {

/// A point to be added to a bucket, or subtracted from it.
pub struct SchedulePoint {
    pub base_idx: usize,
    pub buck_idx: usize,
    pub sign: bool,
}

impl Copy for SchedulePoint {}

impl Clone for SchedulePoint {
    fn clone(&self) -> (r: Self)
        ensures
            r == *self,
    {
        *self
    }
}

impl Default for SchedulePoint {
    fn default() -> (r: Self)
        ensures
            r == SchedulePoint::nothing(),
            r.base_idx == 0 && r.buck_idx == 0 && !r.sign,
    {
        SchedulePoint { base_idx: 0, buck_idx: 0, sign: false }
    }
}

impl SchedulePoint {
    /// What stands in a free place of the schedule.
    pub open spec fn nothing() -> SchedulePoint {
        SchedulePoint { base_idx: 0, buck_idx: 0, sign: false }
    }

    pub fn new(base_idx: usize, buck_idx: usize, sign: bool) -> (r: Self)
        ensures
            r == (SchedulePoint { base_idx, buck_idx, sign }),
    {
        SchedulePoint { base_idx, buck_idx, sign }
    }
}

/// Bucket and point of an addition exist, and the bucket is occupied.
pub open spec fn placed<C: CurveAffine>(
    buckets: Seq<BucketAffine<C>>,
    point: SchedulePoint,
    bases: nat,
) -> bool {
    &&& point.buck_idx < buckets.len()
    &&& point.base_idx < bases
    &&& buckets[point.buck_idx as int] is Point
}

/// The line through bucket and point of an addition has a slope: their abscissas differ.
pub open spec fn addable<C: CurveAffine>(
    buckets: Seq<BucketAffine<C>>,
    point: SchedulePoint,
    bases: Seq<Affine<C>>,
) -> bool {
    &&& placed(buckets, point, bases.len())
    &&& buckets[point.buck_idx as int]->Point_0.x != bases[point.base_idx as int].x
}

/// Bucket and point of an addition are on the curve.
pub open spec fn genuine<C: CurveAffine>(
    buckets: Seq<BucketAffine<C>>,
    point: SchedulePoint,
    bases: Seq<Affine<C>>,
) -> bool {
    &&& buckets[point.buck_idx as int].valid()
    &&& bases[point.base_idx as int].on_curve()
}

/// No other of the first `n` additions goes to the bucket of addition `k`.
pub open spec fn alone(points: Seq<SchedulePoint>, n: nat, k: int) -> bool {
    forall|l: int| 0 <= l < n && l != k ==> (#[trigger] points[l]).buck_idx != points[k].buck_idx
}

/// The difference of the ordinates of a bucket and of the point that is added to it.
pub open spec fn rise<C: CurveAffine>(
    buckets: Seq<BucketAffine<C>>,
    point: SchedulePoint,
    bases: Seq<Affine<C>>,
) -> C::Base {
    let y = buckets[point.buck_idx as int]->Point_0.y;
    if point.sign {
        y.f_sub(bases[point.base_idx as int].y)
    } else {
        y.f_add(bases[point.base_idx as int].y)
    }
}

/// The slope of the line through bucket and point of an addition.
pub open spec fn is_slope<C: CurveAffine>(
    buckets: Seq<BucketAffine<C>>,
    point: SchedulePoint,
    bases: Seq<Affine<C>>,
    slope: C::Base,
) -> bool {
    slope.f_mul(
        buckets[point.buck_idx as int]->Point_0.x.f_sub(bases[point.base_idx as int].x),
    ) == rise(buckets, point, bases)
}

/// The coordinates that the chord rule gives for a slope.
pub open spec fn chord_sum<C: CurveAffine>(
    bucket: Affine<C>,
    base: Affine<C>,
    sign: bool,
    slope: C::Base,
) -> Affine<C> {
    let x = curve::chord_x(slope, bucket.x, base.x);
    let along = slope.f_mul(base.x.f_sub(x));
    Affine {
        x,
        y: if sign {
            along.f_sub(base.y)
        } else {
            along.f_add(base.y)
        },
    }
}

/// The slopes of the first `n` additions, all of them for the buckets as they were.
pub open spec fn are_slopes<C: CurveAffine>(
    before: Seq<BucketAffine<C>>,
    points: Seq<SchedulePoint>,
    n: nat,
    bases: Seq<Affine<C>>,
    slopes: Seq<C::Base>,
) -> bool {
    forall|k: int| 0 <= k < n ==> is_slope(before, #[trigger] points[k], bases, slopes[k])
}

/// The buckets after additions `k` to `n - 1`, the last one first.
pub open spec fn chords<C: CurveAffine>(
    before: Seq<BucketAffine<C>>,
    points: Seq<SchedulePoint>,
    n: nat,
    bases: Seq<Affine<C>>,
    slopes: Seq<C::Base>,
    k: nat,
) -> Seq<BucketAffine<C>>
    decreases n - k,
{
    if k >= n {
        before
    } else {
        let rest = chords(before, points, n, bases, slopes, k + 1);
        let point = points[k as int];
        let (b, i) = (point.buck_idx as int, point.base_idx as int);
        rest.update(
            b,
            BucketAffine::Point(
                chord_sum(rest[b]->Point_0, bases[i], point.sign, slopes[k as int]),
            ),
        )
    }
}

/// The bucket of an addition holds the sum.
pub open spec fn added<C: CurveAffine>(
    before: Seq<BucketAffine<C>>,
    after: Seq<BucketAffine<C>>,
    point: SchedulePoint,
    bases: Seq<Affine<C>>,
) -> bool {
    let (b, i) = (point.buck_idx as int, point.base_idx as int);
    &&& after[b] is Point
    &&& after[b].valid()
    &&& after[b].point() == before[b].point().plus(affine::signed(bases[i].point(), point.sign))
}

/// The first `n` additions have been made by the chord rule, the last one first. What no
/// addition goes to stays, and where a bucket has one of them to itself, on the curve, it holds
/// the sum.
pub open spec fn batch_made<C: CurveAffine>(
    before: Seq<BucketAffine<C>>,
    after: Seq<BucketAffine<C>>,
    points: Seq<SchedulePoint>,
    n: nat,
    bases: Seq<Affine<C>>,
) -> bool {
    &&& exists|slopes: Seq<C::Base>| #[trigger]
        are_slopes(before, points, n, bases, slopes) && after == chords(
            before,
            points,
            n,
            bases,
            slopes,
            0,
        )
    &&& after.len() == before.len()
    &&& forall|b: int|
        0 <= b < before.len() && !targets(points, n, b) ==> #[trigger] after[b] == before[b]
    &&& forall|b: int|
        0 <= b < before.len() && before[b] is Point ==> #[trigger] after[b] is Point
    &&& forall|k: int|
        0 <= k < n && alone(points, n, k) && genuine(before, points[k], bases) ==> added(
            before,
            after,
            #[trigger] points[k],
            bases,
        )
}

/// One of the first `n` additions goes to a bucket.
pub open spec fn targets(points: Seq<SchedulePoint>, n: nat, b: int) -> bool {
    exists|k: int| 0 <= k < n && (#[trigger] points[k]).buck_idx == b
}

/// The product of the first `k` elements.
spec fn product<F: Field>(z: Seq<F>, k: nat) -> F
    decreases k,
{
    if k == 0 {
        F::f_one()
    } else {
        product(z, (k - 1) as nat).f_mul(z[k - 1])
    }
}

/// From the inverse of a product of `k + 1` factors come that of the first `k` and the quotient
/// by the last.
proof fn lemma_uninvert<F: Field>(inverse: F, before: F, z: F, dy: F)
    requires
        inverse.f_mul(before.f_mul(z)) == F::f_one(),
    ensures
        inverse.f_mul(z).f_mul(before) == F::f_one(),
        inverse.f_mul(before.f_mul(dy)).f_mul(z) == dy,
{
    F::law_mul_comm(before, z);
    F::law_mul_assoc(inverse, z, before);
    // (inverse * (before * dy)) * z == (inverse * (before * z)) * dy
    F::law_mul_assoc(inverse, before.f_mul(dy), z);
    F::law_mul_assoc(before, dy, z);
    F::law_mul_comm(dy, z);
    F::law_mul_assoc(before, z, dy);
    F::law_mul_assoc(inverse, before.f_mul(z), dy);
    F::law_mul_comm(F::f_one(), dy);
    F::law_mul_one(dy);
}

/// The chord rule for a bucket and a point or its inverse.
proof fn lemma_chord<C: CurveAffine>(
    buckets: Seq<BucketAffine<C>>,
    point: SchedulePoint,
    bases: Seq<Affine<C>>,
    slope: C::Base,
)
    requires
        addable(buckets, point, bases),
        genuine(buckets, point, bases),
        is_slope(buckets, point, bases, slope),
    ensures
        ({
            let (b, i) = (point.buck_idx as int, point.base_idx as int);
            let sum = chord_sum(buckets[b]->Point_0, bases[i], point.sign, slope);
            &&& sum.on_curve()
            &&& sum.point() == buckets[b].point().plus(
                affine::signed(bases[i].point(), point.sign),
            )
        }),
{
    let bucket = buckets[point.buck_idx as int]->Point_0;
    let base = bases[point.base_idx as int];
    let sum = chord_sum(bucket, base, point.sign, slope);
    let p = bucket.point();
    let q = affine::signed(base.point(), point.sign);
    if !point.sign {
        C::law_xy_minus(base.point());
        C::Base::law_sub_neg(bucket.y, base.y);
        C::Base::law_sub_neg(slope.f_mul(base.x.f_sub(sum.x)), base.y);
    }
    C::law_xy_chord(p, q, slope);
    affine::lemma_point(sum, p.plus(q));
}

/// Makes the first `size` additions, or all that there are, with a single inversion.
pub fn batch_add<C: CurveAffine>(
    size: usize,
    buckets: &mut Vec<BucketAffine<C>>,
    points: &[SchedulePoint],
    bases: &[Affine<C>],
)
    requires
        forall|k: int|
            0 <= k < size && k < points@.len() ==> addable(
                old(buckets)@,
                #[trigger] points@[k],
                bases@,
            ),
    ensures
        batch_made(
            old(buckets)@,
            final(buckets)@,
            points@,
            buckets::min_len(size as nat, points@.len()),
            bases@,
        ),
{
    let ghost before = buckets@;
    let n: usize = if size < points.len() {
        size
    } else {
        points.len()
    };
    let mut t: Vec<C::Base> = Vec::new();
    let mut z: Vec<C::Base> = Vec::new();
    let mut acc = C::Base::one();
    let mut k: usize = 0;
    proof {
        C::Base::law_one_not_zero();
    }
    while k < n
        invariant
            k <= n,
            n <= points@.len(),
            buckets@ == before,
            forall|j: int| 0 <= j < n ==> addable(before, #[trigger] points@[j], bases@),
            t.len() == k,
            z.len() == k,
            acc == product(z@, k as nat),
            acc != C::Base::f_zero(),
            forall|j: int|
                #![trigger points@[j]]
                0 <= j < k ==> z@[j] == before[points@[j].buck_idx as int]->Point_0.x.f_sub(
                    bases@[points@[j].base_idx as int].x,
                ),
            forall|j: int|
                #![trigger points@[j]]
                0 <= j < k ==> t@[j] == product(z@, j as nat).f_mul(
                    rise(before, points@[j], bases@),
                ),
        decreases n - k,
    {
        let point = points[k];
        assert(addable(before, points@[k as int], bases@));
        let bucket = buckets[point.buck_idx];
        let base = bases[point.base_idx];
        let dx = bucket.x().sub(&base.x);
        let dy = if point.sign {
            bucket.y().sub(&base.y)
        } else {
            bucket.y().add(&base.y)
        };
        let ghost z0 = z@;
        t.push(acc.mul(&dy));
        z.push(dx);
        proof {
            C::Base::law_sub_zero(bucket->Point_0.x, base.x);
            C::Base::law_mul_zero(acc, dx);
            assert forall|j: nat| j <= k implies #[trigger] product(z@, j) == product(z0, j) by {
                lemma_product_prefix(z0, z@, j);
            }
            assert(product(z@, (k + 1) as nat) == product(z@, k as nat).f_mul(dx));
        }
        acc = acc.mul(&dx);
        k = k + 1;
    }

    acc = acc.invert().unwrap();
    proof {
        C::Base::law_mul_comm(acc, product(z@, n as nat));
    }
    let ghost mut slopes: Seq<C::Base> = z@;

    while k > 0
        invariant
            k <= n,
            n <= points@.len(),
            forall|j: int| 0 <= j < n ==> addable(before, #[trigger] points@[j], bases@),
            t.len() == n,
            z.len() == n,
            acc.f_mul(product(z@, k as nat)) == C::Base::f_one(),
            forall|j: int|
                #![trigger points@[j]]
                0 <= j < n ==> z@[j] == before[points@[j].buck_idx as int]->Point_0.x.f_sub(
                    bases@[points@[j].base_idx as int].x,
                ),
            forall|j: int|
                #![trigger points@[j]]
                0 <= j < n ==> t@[j] == product(z@, j as nat).f_mul(
                    rise(before, points@[j], bases@),
                ),
            slopes.len() == n,
            forall|j: int|
                k <= j < n ==> is_slope(before, #[trigger] points@[j], bases@, slopes[j]),
            buckets@ == chords(before, points@, n as nat, bases@, slopes, k as nat),
            buckets@.len() == before.len(),
            forall|b: int|
                0 <= b < before.len() && !targets(points@, n as nat, b)
                    ==> #[trigger] buckets@[b] == before[b],
            forall|b: int|
                0 <= b < before.len() && before[b] is Point ==> #[trigger] buckets@[b] is Point,
            forall|j: int|
                0 <= j < k && alone(points@, n as nat, j) ==> buckets@[(
                #[trigger] points@[j]).buck_idx as int] == before[points@[j].buck_idx as int],
            forall|j: int|
                k <= j < n && alone(points@, n as nat, j) && genuine(before, points@[j], bases@)
                    ==> added(before, buckets@, #[trigger] points@[j], bases@),
        decreases k,
    {
        k = k - 1;
        let ghost old_buckets = buckets@;
        let point = points[k];
        assert(addable(before, points@[k as int], bases@));
        let mut bucket = buckets[point.buck_idx];
        let base = bases[point.base_idx];
        proof {
            lemma_uninvert(
                acc,
                product(z@, k as nat),
                z@[k as int],
                rise(before, point, bases@),
            );
        }
        let lambda = acc.mul(&t[k]);
        acc = acc.mul(&z[k]);

        let x = lambda.square().sub(&bucket.x().add(&base.x));
        let along = lambda.mul(&base.x.sub(&x));
        let y = if point.sign {
            along.sub(&base.y)
        } else {
            along.add(&base.y)
        };
        bucket.set_y(&y);
        bucket.set_x(&x);
        buckets.set(point.buck_idx, bucket);
        proof {
            assert(targets(points@, n as nat, point.buck_idx as int));
            assert(is_slope(before, point, bases@, lambda));
            let old_slopes = slopes;
            slopes = slopes.update(k as int, lambda);
            lemma_chords_congruent(
                before,
                points@,
                n as nat,
                bases@,
                old_slopes,
                slopes,
                (k + 1) as nat,
            );
            if alone(points@, n as nat, k as int) {
                assert(old_buckets[point.buck_idx as int] == before[point.buck_idx as int]);
                if genuine(before, point, bases@) {
                    lemma_chord(before, point, bases@, lambda);
                }
            }
            assert forall|j: int| k < j < n && alone(points@, n as nat, j) implies buckets@[(
            #[trigger] points@[j]).buck_idx as int] == old_buckets[points@[j].buck_idx as int] by {
                assert(points@[k as int].buck_idx != points@[j].buck_idx);
            }
        }
    }
    assert(are_slopes(before, points@, n as nat, bases@, slopes));
}

/// What it means that additions have been made, for the buckets: one that none of them goes to
/// stays as it was, and one that only addition `k` goes to holds the sum, if `p` was the point in
/// the bucket and `q` is the point to be added.
pub proof fn law_batch_sums<C: CurveAffine>(
    before: Seq<BucketAffine<C>>,
    after: Seq<BucketAffine<C>>,
    points: Seq<SchedulePoint>,
    n: nat,
    bases: Seq<Affine<C>>,
    k: int,
    p: C,
    q: C,
)
    requires
        batch_made(before, after, points, n, bases),
    ensures
        after.len() == before.len(),
        forall|b: int|
            0 <= b < before.len() && (forall|j: int|
                0 <= j < n ==> (#[trigger] points[j]).buck_idx != b) ==> #[trigger] after[b]
                == before[b],
        0 <= k < n && before[points[k].buck_idx as int] is Point && p.xy() == Some(
            (
                before[points[k].buck_idx as int]->Point_0.x,
                before[points[k].buck_idx as int]->Point_0.y,
            ),
        ) && q.xy() == Some(
            (bases[points[k].base_idx as int].x, bases[points[k].base_idx as int].y),
        ) && (forall|j: int|
            0 <= j < n && j != k ==> (#[trigger] points[j]).buck_idx != points[k].buck_idx) ==> {
            &&& after[points[k].buck_idx as int] is Point
            &&& (if points[k].sign {
                p.plus(q)
            } else {
                p.plus(q.minus())
            }).xy() == Some(
                (
                    after[points[k].buck_idx as int]->Point_0.x,
                    after[points[k].buck_idx as int]->Point_0.y,
                ),
            )
        },
{
    assert forall|b: int|
        0 <= b < before.len() && (forall|j: int|
            0 <= j < n ==> (#[trigger] points[j]).buck_idx != b) implies #[trigger] after[b]
        == before[b] by {
        assert(!targets(points, n, b));
    }
    if 0 <= k < n && before[points[k].buck_idx as int] is Point && p.xy() == Some(
        (
            before[points[k].buck_idx as int]->Point_0.x,
            before[points[k].buck_idx as int]->Point_0.y,
        ),
    ) && q.xy() == Some((bases[points[k].base_idx as int].x, bases[points[k].base_idx as int].y))
        && (forall|j: int|
        0 <= j < n && j != k ==> (#[trigger] points[j]).buck_idx != points[k].buck_idx) {
        let point = points[k];
        affine::lemma_point(before[point.buck_idx as int]->Point_0, p);
        affine::lemma_point(bases[point.base_idx as int], q);
        assert(alone(points, n, k));
        assert(genuine(before, point, bases));
        assert(added(before, after, point, bases));
        let sum = after[point.buck_idx as int]->Point_0;
        assert(sum.on_curve());
        assert(sum.point().xy() == Some((sum.x, sum.y)));
    }
}

/// How additions are made, on the curve or off it: with the slopes of the lines through the points
/// and the buckets as they were at first, from the last addition to the first. `states[k]` are
/// the buckets before addition `k - 1`, and `states[0]` what is left in the end.
pub proof fn law_batch_steps<C: CurveAffine>(
    before: Seq<BucketAffine<C>>,
    after: Seq<BucketAffine<C>>,
    points: Seq<SchedulePoint>,
    n: nat,
    bases: Seq<Affine<C>>,
) -> (r: (Seq<C::Base>, Seq<Seq<BucketAffine<C>>>))
    requires
        batch_made(before, after, points, n, bases),
    ensures
        ({
            let (slopes, states) = r;
            &&& states.len() == n + 1
            &&& states[n as int] == before
            &&& states[0] == after
            &&& forall|k: int|
                0 <= k < n ==> {
                    let point = #[trigger] points[k];
                    let b = point.buck_idx as int;
                    let base = bases[point.base_idx as int];
                    let first = before[b]->Point_0;
                    let now = states[k + 1][b]->Point_0;
                    let s = slopes[k];
                    let x = s.f_mul(s).f_sub(now.x.f_add(base.x));
                    let along = s.f_mul(base.x.f_sub(x));
                    &&& s.f_mul(first.x.f_sub(base.x)) == (if point.sign {
                        first.y.f_sub(base.y)
                    } else {
                        first.y.f_add(base.y)
                    })
                    &&& states[k] == states[k + 1].update(
                        b,
                        BucketAffine::Point(
                            (Affine {
                                x,
                                y: if point.sign {
                                    along.f_sub(base.y)
                                } else {
                                    along.f_add(base.y)
                                },
                            }),
                        ),
                    )
                }
        }),
{
    let slopes = choose|slopes: Seq<C::Base>| #[trigger]
        are_slopes(before, points, n, bases, slopes) && after == chords(
            before,
            points,
            n,
            bases,
            slopes,
            0,
        );
    let states = Seq::new(
        n + 1,
        |k: int| chords(before, points, n, bases, slopes, k as nat),
    );
    assert forall|k: int| 0 <= k < n implies is_slope(before, #[trigger] points[k], bases, slopes[k])
        && states[k] == chords(before, points, n, bases, slopes, k as nat) && states[k + 1]
        == chords(before, points, n, bases, slopes, (k + 1) as nat) by {}
    (slopes, states)
}

/// Only the slopes of the additions that are made matter.
proof fn lemma_chords_congruent<C: CurveAffine>(
    before: Seq<BucketAffine<C>>,
    points: Seq<SchedulePoint>,
    n: nat,
    bases: Seq<Affine<C>>,
    a: Seq<C::Base>,
    b: Seq<C::Base>,
    k: nat,
)
    requires
        forall|j: int| k <= j < n ==> a[j] == b[j],
    ensures
        chords(before, points, n, bases, a, k) == chords(before, points, n, bases, b, k),
    decreases n - k,
{
    if k < n {
        lemma_chords_congruent(before, points, n, bases, a, b, k + 1);
    }
}

/// Further elements do not change a product of the first ones.
proof fn lemma_product_prefix<F: Field>(a: Seq<F>, b: Seq<F>, k: nat)
    requires
        k <= a.len() <= b.len(),
        forall|i: int| 0 <= i < a.len() ==> a[i] == b[i],
    ensures
        product(a, k) == product(b, k),
    decreases k,
{
    if k > 0 {
        lemma_product_prefix(a, b, (k - 1) as nat);
    }
}

} // verus!
