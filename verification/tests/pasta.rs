//! The algorithms on a curve of cryptographic size.
//!
//! Of the members of the traits some exist for specifications only. They are never called.

use ff::{Field as _, PrimeField as _};
use group::{Curve as _, Group as _};
use msm::affine::Affine;
use msm::curve::{ByteSeq, Natural};
use msm::independent::independent_window;
use msm::parallel::multiexp_threads;
use msm::{
    best_multiexp, best_multiexp_independent_points, best_multiexp_precompute_serial,
    get_booth_index, multiexp_precompute, multiexp_serial, try_multiexp_independent_points,
    window_size,
};
use pasta_curves::arithmetic::CurveAffine as Outer;
use pasta_curves::pallas;
use rand_core::OsRng;
use std::ops::Neg;

struct Coordinate<C: Outer>(C::Base);

impl<C: Outer> Copy for Coordinate<C> {}

impl<C: Outer> Clone for Coordinate<C> {
    fn clone(&self) -> Self {
        *self
    }
}

impl<C: Outer> msm::Field for Coordinate<C> {
    fn f_zero() -> Self {
        unreachable!()
    }

    fn f_one() -> Self {
        unreachable!()
    }

    fn f_add(self, _: Self) -> Self {
        unreachable!()
    }

    fn f_sub(self, _: Self) -> Self {
        unreachable!()
    }

    fn f_mul(self, _: Self) -> Self {
        unreachable!()
    }

    fn f_neg(self) -> Self {
        unreachable!()
    }

    fn law_mul_assoc(_: Self, _: Self, _: Self) {}

    fn law_mul_comm(_: Self, _: Self) {}

    fn law_mul_one(_: Self) {}

    fn law_mul_zero(_: Self, _: Self) {}

    fn law_one_not_zero() {}

    fn law_sub_zero(_: Self, _: Self) {}

    fn law_sub_neg(_: Self, _: Self) {}

    fn one() -> Self {
        Coordinate(C::Base::ONE)
    }

    fn add(&self, other: &Self) -> Self {
        Coordinate(self.0 + other.0)
    }

    fn sub(&self, other: &Self) -> Self {
        Coordinate(self.0 - other.0)
    }

    fn mul(&self, other: &Self) -> Self {
        Coordinate(self.0 * other.0)
    }

    fn square(&self) -> Self {
        Coordinate(self.0.square())
    }

    fn neg(&self) -> Self {
        Coordinate(-self.0)
    }

    fn is_zero(&self) -> bool {
        bool::from(self.0.is_zero())
    }

    fn invert(&self) -> Option<Self> {
        Option::<C::Base>::from(self.0.invert()).map(Coordinate)
    }
}

struct Scalar<C: Outer>(C::ScalarExt);

impl<C: Outer> Copy for Scalar<C> {}

impl<C: Outer> Clone for Scalar<C> {
    fn clone(&self) -> Self {
        *self
    }
}

impl<C: Outer> msm::PrimeField for Scalar<C> {
    const NUM_BITS: u32 = <C::ScalarExt as ff::PrimeField>::NUM_BITS;

    fn modulus() -> Natural {
        unreachable!()
    }

    fn value(self) -> Natural {
        unreachable!()
    }

    fn repr(_: Natural) -> ByteSeq {
        unreachable!()
    }

    fn law_modulus() {}

    fn law_value(_: Self) {}

    fn law_repr(_: Natural) {}

    fn zero() -> Self {
        Scalar(C::ScalarExt::ZERO)
    }

    fn sub(&self, other: &Self) -> Self {
        Scalar(self.0 - other.0)
    }

    fn to_repr(&self) -> Vec<u8> {
        self.0.to_repr().as_ref().to_vec()
    }
}

struct Projective<C: Outer>(C::CurveExt);

impl<C: Outer> Copy for Projective<C> {}

impl<C: Outer> Clone for Projective<C> {
    fn clone(&self) -> Self {
        *self
    }
}

impl<C: Outer> msm::Group<Point<C>> for Projective<C> {
    fn point(self) -> Point<C> {
        unreachable!()
    }

    fn identity() -> Self {
        Projective(C::CurveExt::identity())
    }

    fn double(&self) -> Self {
        Projective(self.0.double())
    }

    fn neg(&self) -> Self {
        Projective(-self.0)
    }

    fn add(&self, other: &Self) -> Self {
        Projective(self.0 + other.0)
    }

    fn add_affine(&self, other: &Point<C>) -> Self {
        Projective(self.0 + other.0)
    }
}

struct Point<C: Outer>(C);

impl<C: Outer> Copy for Point<C> {}

impl<C: Outer> Clone for Point<C> {
    fn clone(&self) -> Self {
        *self
    }
}

impl<C: Outer> msm::AbelianGroup for Point<C> {
    fn zero() -> Self {
        unreachable!()
    }

    fn plus(self, _: Self) -> Self {
        unreachable!()
    }

    fn minus(self) -> Self {
        unreachable!()
    }

    fn law_assoc(_: Self, _: Self, _: Self) {}

    fn law_comm(_: Self, _: Self) {}

    fn law_zero(_: Self) {}

    fn law_inverse(_: Self) {}
}

impl<C: Outer> msm::CurveAffine for Point<C> {
    type Base = Coordinate<C>;
    type Scalar = Scalar<C>;
    type Curve = Projective<C>;

    fn xy(self) -> Option<(Coordinate<C>, Coordinate<C>)> {
        unreachable!()
    }

    fn law_order(_: Self) {}

    fn law_xy_zero(_: Self) {}

    fn law_xy_injective(_: Self, _: Self) {}

    fn law_xy_minus(_: Self) {}

    fn law_xy_parallel(_: Self, _: Self) {}

    fn law_xy_chord(_: Self, _: Self, _: Coordinate<C>) {}

    fn coordinates(&self) -> Option<(Coordinate<C>, Coordinate<C>)> {
        Option::<pasta_curves::arithmetic::Coordinates<C>>::from(self.0.coordinates())
            .map(|c| (Coordinate(*c.x()), Coordinate(*c.y())))
    }

    fn from_xy(x: Coordinate<C>, y: Coordinate<C>) -> Option<Self> {
        Option::<C>::from(C::from_xy(x.0, y.0)).map(Point)
    }

    fn to_curve(&self) -> Projective<C> {
        Projective(self.0.to_curve())
    }

    fn neg(&self) -> Self {
        Point(-self.0)
    }
}

fn scalars_of<C: Outer>(scalars: &[C::ScalarExt]) -> Vec<Scalar<C>> {
    scalars.iter().map(|s| Scalar(*s)).collect()
}

fn points_of<C: Outer>(points: &[C]) -> Vec<Point<C>> {
    points.iter().map(|p| Point(*p)).collect()
}

#[test]
fn test_booth_encoding() {
    fn mul(scalar: &pallas::Scalar, point: &pallas::Affine, window: usize) -> pallas::Affine {
        let u = scalar.to_repr();
        let n = pallas::Scalar::NUM_BITS as usize / window + 1;

        let table = (0..=1 << (window - 1))
            .map(|i| point * pallas::Scalar::from(i as u64))
            .collect::<Vec<_>>();

        let mut acc = pallas::Point::identity();
        for i in (0..n).rev() {
            for _ in 0..window {
                acc = acc.double();
            }

            let idx = get_booth_index(i, window, u.as_ref());

            if idx.is_negative() {
                acc += table[idx.unsigned_abs() as usize].neg();
            }
            if idx.is_positive() {
                acc += table[idx.unsigned_abs() as usize];
            }
        }

        acc.to_affine()
    }

    let (scalars, points): (Vec<_>, Vec<_>) = (0..10)
        .map(|_| {
            let scalar = pallas::Scalar::random(OsRng);
            let point = pallas::Point::random(OsRng).to_affine();
            (scalar, point)
        })
        .unzip();

    for window in 1..10 {
        for (scalar, point) in scalars.iter().zip(points.iter()) {
            let c0 = mul(scalar, point, window);
            let c1 = point * scalar;
            assert_eq!(c0, c1.to_affine());
        }
    }
}

fn run_msm_cross<C: Outer>(min_k: usize, max_k: usize) {
    let points = (0..1 << max_k)
        .map(|_| C::CurveExt::random(OsRng))
        .collect::<Vec<_>>();
    let mut affine_points = vec![C::identity(); 1 << max_k];
    C::CurveExt::batch_normalize(&points[..], &mut affine_points[..]);
    let points = points_of(&affine_points);

    let mut scalars = (0..1 << max_k)
        .map(|_| C::ScalarExt::random(OsRng))
        .collect::<Vec<_>>();

    for idx in 0..1 << max_k {
        let scalar = scalars[idx];
        scalars[idx] -= scalar.double();
    }
    let scalars = scalars_of::<C>(&scalars);

    for k in min_k..=max_k {
        let points = &points[..1 << k];
        let scalars = &scalars[..1 << k];

        let e0 = best_multiexp_independent_points(scalars, points);

        let e1 = best_multiexp(scalars, points);

        // best_multiexp_precompute_serial
        let pre = 8;
        let pre_bases = multiexp_precompute(points, pre);
        let e2 = best_multiexp_precompute_serial(scalars, points, &pre_bases, pre);

        assert_eq!(e0.0, e1.0);
        assert_eq!(e1.0, e2.0);
    }
}

#[test]
fn test_msm_cross() {
    run_msm_cross::<pallas::Affine>(5, 6);
}

/// The multiples `2^i * G`, no signed sums of which cancel.
fn doubling_chain(n: usize) -> Vec<pallas::Affine> {
    let mut p = pallas::Point::generator();
    let mut points = Vec::new();
    for _ in 0..n {
        points.push(p);
        p = p.double();
    }
    let mut affine = vec![pallas::Affine::default(); n];
    pallas::Point::batch_normalize(&points, &mut affine);
    affine
}

/// Scalars of full size.
fn scalar_chain(n: usize) -> Vec<pallas::Scalar> {
    let step = pallas::Scalar::from(0x1234_5678_9abc_def1).square().square();
    let mut s = step;
    let mut scalars = Vec::new();
    for _ in 0..n {
        scalars.push(s);
        s = s * step + pallas::Scalar::ONE;
    }
    scalars
}

/// `sum of s[i] * 2^i * G`, by Horner's rule on the scalars.
fn expected(scalars: &[pallas::Scalar]) -> pallas::Point {
    let mut s = pallas::Scalar::ZERO;
    for scalar in scalars.iter().rev() {
        s = s.double() + scalar;
    }
    pallas::Point::generator() * s
}

#[test]
fn msm_is_the_sum_of_the_products() {
    for n in [0, 1, 3, 4, 31, 32, 55, 150] {
        let scalars = scalar_chain(n);
        let wanted = expected(&scalars);
        let coeffs = scalars_of::<pallas::Affine>(&scalars);
        let bases = points_of(&doubling_chain(n));

        assert_eq!(best_multiexp(&coeffs, &bases).0, wanted);
        let table = multiexp_precompute(&bases, 5);
        let e = best_multiexp_precompute_serial(&coeffs, &bases, &table, 5);
        assert_eq!(e.0, wanted);
    }
}

#[test]
fn number_of_threads_does_not_matter() {
    let scalars = scalar_chain(50);
    let wanted = expected(&scalars);
    let coeffs = scalars_of::<pallas::Affine>(&scalars);
    let bases = points_of(&doubling_chain(50));
    for threads in [1, 2, 3, 7, 16, 49, 50, 51, 1000] {
        assert_eq!(multiexp_threads(&coeffs, &bases, threads).0, wanted);
    }
}

#[test]
fn parts_sum_to_the_whole() {
    let coeffs = scalars_of::<pallas::Affine>(&scalar_chain(60));
    let bases = points_of(&doubling_chain(60));
    let whole = best_multiexp(&coeffs, &bases).0;
    for k in [0, 1, 17, 59, 60] {
        let first = best_multiexp(&coeffs[..k], &bases[..k]).0;
        let rest = best_multiexp(&coeffs[k..], &bases[k..]).0;
        assert_eq!(first + rest, whole);
    }
}

#[test]
fn differences_of_scalars_give_the_difference() {
    let a = scalar_chain(40);
    let b: Vec<pallas::Scalar> = a.iter().map(|s| s.square()).collect();
    let diff: Vec<pallas::Scalar> = a.iter().zip(b.iter()).map(|(s, t)| s - t).collect();
    let bases = points_of(&doubling_chain(40));
    let msm_by = |s: &[pallas::Scalar]| best_multiexp(&scalars_of::<pallas::Affine>(s), &bases).0;
    assert_eq!(msm_by(&diff), msm_by(&a) - msm_by(&b));
}

#[test]
fn serial_doubles_what_was_there() {
    let scalars = scalar_chain(5);
    let coeffs = scalars_of::<pallas::Affine>(&scalars);
    let bases = points_of(&doubling_chain(5));
    let mut acc = Projective::<pallas::Affine>(pallas::Point::generator());
    multiexp_serial(&coeffs, &bases, &mut acc);
    let c = window_size(5);
    let bits = (c * (pallas::Scalar::NUM_BITS as usize / c + 1)) as u64;
    let shift = pallas::Scalar::from(2).pow([bits, 0, 0, 0]);
    assert_eq!(acc.0, pallas::Point::generator() * shift + expected(&scalars));
}

#[test]
fn precomputed_tables_of_many_widths() {
    let scalars = scalar_chain(2);
    let wanted = expected(&scalars);
    let coeffs = scalars_of::<pallas::Affine>(&scalars);
    let bases = points_of(&doubling_chain(2));
    for pre in 1..12 {
        let table = multiexp_precompute(&bases, pre);
        assert_eq!(table.len(), (1 << (pre - 1)) * 2);
        let e = best_multiexp_precompute_serial(&coeffs, &bases, &table, pre);
        assert_eq!(e.0, wanted);
    }
}

#[test]
fn windows_with_batches_sum_to_the_product() {
    let n = 200;
    let scalars = scalar_chain(n);
    let coeffs = scalars_of::<pallas::Affine>(&scalars);
    let bases = points_of(&doubling_chain(n));
    let reprs: Vec<Vec<u8>> = coeffs.iter().map(msm::PrimeField::to_repr).collect();
    let locals: Vec<Affine<Point<pallas::Affine>>> = bases.iter().map(Affine::from).collect();
    for c in [3, 6, 10] {
        let mut sum = pallas::Point::identity();
        for w in 0..pallas::Scalar::NUM_BITS as usize / c + 1 {
            sum += independent_window(&reprs, &bases, &locals, c, w).unwrap().0;
        }
        assert_eq!(sum, expected(&scalars));
    }
}

#[test]
fn many_independent_points() {
    let n = 8200;
    assert_eq!(window_size(n), 10);
    let scalars = scalar_chain(n);
    let coeffs = scalars_of::<pallas::Affine>(&scalars);
    let bases = points_of(&doubling_chain(n));
    let e = best_multiexp_independent_points(&coeffs, &bases);
    assert_eq!(e.0, expected(&scalars));
}

#[test]
fn batches_need_coordinates() {
    let n = 8200;
    let coeffs = scalars_of::<pallas::Affine>(&scalar_chain(n));
    let mut bases = points_of(&doubling_chain(n));
    bases[n - 1] = Point(pallas::Affine::default());
    assert!(try_multiexp_independent_points(&coeffs, &bases).is_none());
}

#[test]
fn a_point_must_not_meet_itself() {
    let n = 8200;
    let mut coeffs = scalars_of::<pallas::Affine>(&scalar_chain(n));
    let mut bases = points_of(&doubling_chain(n));
    coeffs[1] = coeffs[0];
    bases[1] = bases[0];
    assert!(try_multiexp_independent_points(&coeffs, &bases).is_none());
    // its inverse will not do either
    bases[1] = Point(-bases[0].0);
    assert!(try_multiexp_independent_points(&coeffs, &bases).is_none());
}

#[test]
fn few_points_may_depend_on_each_other() {
    let coeffs = scalars_of::<pallas::Affine>(&scalar_chain(40));
    let g = pallas::Point::generator().to_affine();
    let bases = points_of(&vec![g; 40]);
    let wanted = scalar_chain(40).iter().fold(pallas::Scalar::ZERO, |a, b| a + b);
    let e = try_multiexp_independent_points(&coeffs, &bases).unwrap();
    assert_eq!(e.0, pallas::Point::generator() * wanted);
}
