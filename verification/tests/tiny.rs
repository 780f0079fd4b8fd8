//! Every part on a group of five elements, where results can be worked out by hand.

use msm::affine::{Affine, Bucket, BucketAffine};
use msm::batch::{batch_add, SchedulePoint};
use msm::independent::independent_window;
use msm::precompute::table_suffices;
use msm::schedule::Schedule;
use msm::serial::SerialBucket;
use msm::tiny::{TinyCurve, TinyField, TinyPoint};
use msm::{
    best_multiexp, best_multiexp_precompute_serial, multiexp_precompute,
    multiexp_precompute_serial, multiexp_serial, CurveAffine, Field, Group, PrimeField,
};

fn f(n: u8) -> TinyField {
    TinyField::from_u8(n)
}

fn p(n: u8) -> TinyPoint {
    TinyPoint::from_u8(n)
}

fn c(n: u8) -> TinyCurve {
    TinyCurve { affine: p(n) }
}

#[test]
fn field_of_five() {
    assert_eq!(Field::add(&f(3), &f(4)), f(2));
    assert_eq!(Field::sub(&f(3), &f(4)), f(4));
    assert_eq!(f(3).mul(&f(4)), f(2));
    assert_eq!(f(3).square(), f(4));
    assert_eq!(Field::neg(&f(1)), f(4));
    assert_eq!(f(0).invert(), None);
    for n in 1..5 {
        assert_eq!(f(n).mul(&f(n).invert().unwrap()), <TinyField as Field>::one());
    }
    assert_eq!(PrimeField::sub(&<TinyField as PrimeField>::zero(), &f(2)), f(3));
    assert_eq!(f(3).to_repr(), vec![3]);
}

#[test]
fn points_are_on_the_curve() {
    assert_eq!(p(0).coordinates(), None);
    for n in 1..5 {
        let (x, y) = p(n).coordinates().unwrap();
        let right = x.square().mul(&x).add(&f(3).mul(&x)).add(&f(2));
        assert_eq!(y.square(), right);
        assert_eq!(TinyPoint::from_xy(x, y), Some(p(n)));
        assert_eq!(CurveAffine::neg(&p(n)), p(5 - n));
    }
    assert_eq!(TinyPoint::from_xy(f(0), f(0)), None);
    assert_eq!(c(3).double(), c(1));
    assert_eq!(c(3).add(&c(4)), c(2));
    assert_eq!(c(3).add_affine(&p(1)), c(4));
    assert_eq!(Group::neg(&c(2)), c(3));
}

#[test]
fn serial_buckets_add_up() {
    let mut b: SerialBucket<TinyPoint> = SerialBucket::Empty;
    assert_eq!(b.add(c(2)), c(2));
    b.add_assign(&p(1));
    assert_eq!(b.add(c(2)), c(3));
    b.add_assign(&p(1));
    b.add_assign(&p(1));
    assert_eq!(b.add(c(0)), c(3));
}

#[test]
fn affine_coordinates() {
    let a = Affine::from(&p(2));
    assert_eq!((a.x, a.y), (f(2), f(1)));
    let n = a.neg();
    assert_eq!((n.x, n.y), (f(2), f(4)));
    assert_eq!(n.eval(), p(3));
}

#[test]
fn affine_buckets_are_assigned_once() {
    let mut b: BucketAffine<TinyPoint> = BucketAffine::Empty;
    assert!(b.assign(&Affine::from(&p(1)), false));
    assert_eq!((b.x(), b.y()), (f(1), f(4)));
    assert!(!b.assign(&Affine::from(&p(2)), true));
    assert_eq!((b.x(), b.y()), (f(1), f(4)));
    b.set_x(&f(2));
    b.set_y(&f(1));
    assert_eq!((b.x(), b.y()), (f(2), f(1)));
}

#[test]
fn buckets_of_both_kinds() {
    let mut b: Bucket<TinyPoint> = Bucket::Empty;
    let mut a: BucketAffine<TinyPoint> = BucketAffine::Empty;
    assert_eq!(b.add(&a), c(0));
    a.assign(&Affine::from(&p(2)), true);
    assert_eq!(b.add(&a), c(2));
    b.add_assign(&p(1), false);
    assert_eq!(b.add(&BucketAffine::Empty), c(4));
    assert_eq!(b.add(&a), c(1));
    b.add_assign(&p(4), true);
    b.add_assign(&p(1), false);
    assert_eq!(b.add(&a), c(4));
}

#[test]
fn buckets_keep_their_form() {
    // an addition makes a point even of the identity
    let mut b: Bucket<TinyPoint> = Bucket::Empty;
    b.add_assign(&p(0), true);
    assert!(matches!(b, Bucket::Point(x) if x == c(0)));
    b.add_assign(&p(2), true);
    b.add_assign(&p(2), false);
    assert!(matches!(b, Bucket::Point(x) if x == c(0)));

    let mut s: SerialBucket<TinyPoint> = SerialBucket::Empty;
    s.add_assign(&p(0));
    assert!(matches!(s, SerialBucket::Affine(x) if x == p(0)));
    s.add_assign(&p(3));
    assert!(matches!(s, SerialBucket::Projective(x) if x == c(3)));
}

#[test]
fn batch_with_two_additions_to_one_bucket() {
    let bases = [Affine::from(&p(2))];
    let mut buckets: Vec<BucketAffine<TinyPoint>> = vec![BucketAffine::Empty; 2];
    buckets[0].assign(&Affine::from(&p(1)), true);
    let points = [SchedulePoint::new(0, 0, true), SchedulePoint::new(0, 0, false)];
    batch_add(5, &mut buckets, &points, &bases);
    // the second gives (1, 4) by the slope 3, the first from there (2, 4) by the slope 0
    assert_eq!((buckets[0].x(), buckets[0].y()), (f(2), f(4)));
    assert!(matches!(buckets[1], BucketAffine::Empty));
    batch_add(0, &mut buckets, &points, &bases);
    assert_eq!((buckets[0].x(), buckets[0].y()), (f(2), f(4)));
}

#[test]
fn schedule_takes_what_cannot_be_added_yet() {
    let bases: Vec<Affine<TinyPoint>> = (1..5).map(|n| Affine::from(&p(n))).collect();
    let mut schedule: Schedule<TinyPoint> = Schedule::new(2);
    schedule.add(&bases, 2, 1, false);
    assert_eq!((schedule.buckets[1].x(), schedule.buckets[1].y()), (f(2), f(1)));
    assert_eq!(schedule.ptr, 0);
    // the same abscissa, and twice the same bucket
    schedule.add(&bases, 1, 1, true);
    schedule.add(&bases, 0, 1, false);
    assert_eq!(schedule.ptr, 2);
    let (a, b) = (schedule.set[0], schedule.set[1]);
    assert_eq!((a.base_idx, a.buck_idx, a.sign), (1, 1, true));
    assert_eq!((b.base_idx, b.buck_idx, b.sign), (0, 1, false));
    assert_eq!((schedule.buckets[1].x(), schedule.buckets[1].y()), (f(2), f(1)));
}

#[test]
fn a_window_fails_where_a_point_meets_itself() {
    // both have the digit 2 in the lowest window of three bits
    let reprs = vec![vec![2], vec![2]];
    let bases = [p(1), p(1)];
    let locals: Vec<Affine<TinyPoint>> = bases.iter().map(Affine::from).collect();
    assert_eq!(independent_window(&reprs, &bases, &locals, 3, 0), None);
    // in bucket 0 nothing waits
    let reprs = vec![vec![1], vec![1]];
    assert_eq!(independent_window(&reprs, &bases, &locals, 3, 0), Some(c(2)));
}

#[test]
fn batch_makes_the_first_additions() {
    let bases: Vec<Affine<TinyPoint>> = (1..5).map(|n| Affine::from(&p(n))).collect();
    let mut buckets = vec![BucketAffine::Empty; 4];
    for b in 0..3 {
        buckets[b].assign(&Affine::from(&p(1)), true);
    }
    let points = [
        SchedulePoint::new(1, 2, true),
        SchedulePoint::new(1, 0, false),
        SchedulePoint::new(2, 1, true),
    ];
    batch_add(2, &mut buckets, &points, &bases);
    // 1 + 2, 1 - 2, and what was not reached
    assert_eq!(Bucket::Empty.add(&buckets[2]), c(3));
    assert_eq!(Bucket::Empty.add(&buckets[0]), c(4));
    assert_eq!(Bucket::Empty.add(&buckets[1]), c(1));
    assert_eq!(Bucket::Empty.add(&buckets[3]), c(0));
}

#[test]
fn schedule_flushes_full_batches() {
    let bases: Vec<Affine<TinyPoint>> = (1..5).map(|n| Affine::from(&p(n))).collect();
    let mut schedule: Schedule<TinyPoint> = Schedule::new(8);
    assert_eq!(schedule.buckets.len(), 128);
    // free places name bucket 0
    assert!(schedule.contains(0));
    assert!(!schedule.contains(1));
    for b in 1..65 {
        schedule.add(&bases, 0, b, true);
        assert_eq!(schedule.ptr, 0);
    }
    for b in 1..64 {
        schedule.add(&bases, 1, b, b % 2 == 0);
        assert_eq!(schedule.ptr, b);
        assert!(schedule.contains(b));
        assert!(!schedule.contains(b + 1));
        assert_eq!(Bucket::Empty.add(&schedule.buckets[b]), c(1));
    }
    schedule.add(&bases, 1, 64, true);
    assert_eq!(schedule.ptr, 0);
    for b in 1..65 {
        assert!(!schedule.contains(b));
        let wanted = if b % 2 == 0 { 3 } else { 4 };
        assert_eq!(Bucket::Empty.add(&schedule.buckets[b]), c(wanted));
    }
    schedule.add(&bases, 1, 1, true);
    assert_eq!(schedule.ptr, 1);
    schedule.execute(&bases);
    assert_eq!(schedule.ptr, 0);
    assert_eq!(Bucket::Empty.add(&schedule.buckets[1]), c(1));
    schedule.execute(&bases);
    assert_eq!(Bucket::Empty.add(&schedule.buckets[1]), c(1));
}

#[test]
fn serial_exact_values() {
    // three points: windows of one bit, of which three bits need four
    let mut acc = c(1);
    multiexp_serial(&[f(2), f(3), f(4)], &[p(1), p(2), p(3)], &mut acc);
    // 2^4 * 1 + 2 * 1 + 3 * 2 + 4 * 3
    assert_eq!(acc, c(36 % 5));

    // five points: windows of three bits, two of them
    let mut acc = c(1);
    multiexp_serial(&[f(1); 5], &[p(1), p(2), p(3), p(4), p(0)], &mut acc);
    // 2^6 * 1 + 10
    assert_eq!(acc, c(74 % 5));
}

#[test]
fn serial_stops_at_the_shorter_list() {
    let mut acc = c(0);
    multiexp_serial(&[f(2), f(3), f(4)], &[p(1)], &mut acc);
    assert_eq!(acc, c(2));
    let mut acc = c(0);
    multiexp_serial(&[f(4)], &[p(1), p(2)], &mut acc);
    assert_eq!(acc, c(4));
}

#[test]
fn table_of_multiples() {
    let table = multiexp_precompute(&[p(1), p(3)], 3);
    assert_eq!(table, vec![c(1), c(3), c(2), c(1), c(3), c(4), c(4), c(2)]);
    assert_eq!(multiexp_precompute::<TinyPoint>(&[], 3), vec![]);
    assert_eq!(multiexp_precompute(&[p(2)], 1), vec![c(2)]);
}

#[test]
fn precompute_serial_adds_to_what_was_there() {
    let table = multiexp_precompute(&[p(1), p(3)], 2);
    let mut acc = c(2);
    multiexp_precompute_serial::<TinyPoint>(&[f(3), f(4)], &table, 2, &mut acc);
    // two windows of two bits: 2^4 * 2 + 3 * 1 + 4 * 3
    assert_eq!(acc, c(47 % 5));
    let r = best_multiexp_precompute_serial(&[f(3), f(4)], &[p(1), p(3)], &table, 2);
    assert_eq!(r, c(0));
}

#[test]
fn precompute_serial_takes_the_entries_as_they_are() {
    // the scalar 4 is used as minus the scalar 1, whose one digit is 1
    let mut acc = c(0);
    multiexp_precompute_serial::<TinyPoint>(&[f(4)], &[c(3)], 3, &mut acc);
    assert_eq!(acc, c(2));
    // a zero needs no entry
    let mut acc = c(1);
    multiexp_precompute_serial::<TinyPoint>(&[f(0)], &[], 3, &mut acc);
    assert_eq!(acc, c(64 % 5));
}

#[test]
fn one_wide_window_is_exact() {
    // the scalar 1 is used as minus the scalar 4
    let table = [c(1), c(2), c(3), c(4)];
    let r = best_multiexp_precompute_serial(&[f(1)], &[p(1)], &table, 30);
    assert_eq!(r, c(1));
}

#[test]
fn without_scalars_any_window_will_do() {
    let mut acc = c(1);
    multiexp_precompute_serial::<TinyPoint>(&[], &[], 41, &mut acc);
    // 2^41, and 2^4 is 1
    assert_eq!(acc, c(2));
}

#[test]
fn tables_that_suffice() {
    assert!(table_suffices(&[f(1)], 4, 30));
    assert!(!table_suffices(&[f(1)], 3, 30));
    assert!(table_suffices(&[f(4)], 1, 3));
    assert!(!table_suffices(&[f(4)], 0, 3));
    assert!(table_suffices(&[f(0), f(0)], 0, 3));
    assert!(table_suffices::<TinyField>(&[], 0, 100));
    // the second of two points needs the second place of a row
    assert!(!table_suffices(&[f(0), f(4)], 1, 3));
    assert!(table_suffices(&[f(0), f(4)], 2, 3));
}

#[test]
fn best_multiexp_on_many_small_points() {
    let coeffs: Vec<TinyField> = (0..200u8).map(f).collect();
    let bases: Vec<TinyPoint> = (0..200u8).map(|n| p(n / 3)).collect();
    let mut wanted: u32 = 0;
    for n in 0..200u32 {
        wanted += (n % 5) * ((n / 3) % 5);
    }
    assert_eq!(best_multiexp(&coeffs, &bases), c((wanted % 5) as u8));
    assert_eq!(best_multiexp::<TinyPoint>(&[], &[]), c(0));
}

#[test]
fn one_window_by_hand() {
    // digits of the lowest window of three bits: 2, -1 for 7 in a longer scalar, 3
    let reprs = vec![vec![2], vec![7], vec![3]];
    let bases = [p(1), p(2), p(1)];
    let locals: Vec<Affine<TinyPoint>> = bases.iter().map(Affine::from).collect();
    // 2 * 1 - 1 * 2 + 3 * 1
    assert_eq!(independent_window(&reprs, &bases, &locals, 3, 0), Some(c(3)));
    // the next window has the digits 0, 1, 0 and weighs 8
    assert_eq!(independent_window(&reprs, &bases, &locals, 3, 1), Some(c(16 % 5)));
}
