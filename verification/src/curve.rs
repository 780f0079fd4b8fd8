//! What the algorithms need of an elliptic curve: its two fields, its group, and
//! the rule by which coordinates are added.
//!
//! The traits are for the owner of a curve to implement. Each pairs executable
//! operations with the mathematics they compute, and asks for a proof of every
//! algebraic law that the algorithms use.
use vstd::prelude::*;
use vstd::arithmetic::power2::*;

use crate::algebra;
use crate::algebra::AbelianGroup;

verus! {

/// The number that little-endian bytes denote.
pub open spec fn le_value(bytes: Seq<u8>) -> nat
    decreases bytes.len(),
{
    if bytes.len() == 0 {
        0
    } else {
        bytes[0] as nat + 256 * le_value(bytes.drop_first())
    }
}

/// A byte denotes itself, and bytes after others count for as much more as the others have bits.
pub proof fn law_le_value(a: Seq<u8>, b: Seq<u8>)
    ensures
        le_value(a + b) == le_value(a) + pow2(8 * a.len()) * le_value(b),
        a.len() == 1 ==> le_value(a) == a[0],
    decreases a.len(),
{
    lemma2_to64();
    if a.len() == 0 {
        assert(a + b =~= b);
        assert(8 * a.len() == 0);
    } else {
        let rest = a.drop_first();
        law_le_value(rest, b);
        assert((a + b).drop_first() =~= rest + b);
        assert((a + b)[0] == a[0]);
        lemma_pow2_adds(8, 8 * rest.len());
        assert(8 + 8 * rest.len() == 8 * a.len());
        let (p, v) = (pow2(8 * rest.len()), le_value(b));
        assert(256 * (p * v) == (256 * p) * v) by (nonlinear_arith);
        if a.len() == 1 {
            assert(rest =~= Seq::<u8>::empty());
            assert(le_value(rest) == 0);
        }
    }
}

/// The type of the numbers in specifications, under a name for implementations in plain Rust.
pub type Natural = nat;

/// The type of the byte strings in specifications, under a name for implementations in plain
/// Rust.
pub type ByteSeq = Seq<u8>;

/// An element of the field over which a curve is defined. Equal elements are
/// equal values.
pub trait Field: Sized + Copy + Send + Sync {
    spec fn f_zero() -> Self;

    spec fn f_one() -> Self;

    spec fn f_add(self, other: Self) -> Self;

    spec fn f_sub(self, other: Self) -> Self;

    spec fn f_mul(self, other: Self) -> Self;

    spec fn f_neg(self) -> Self;

    proof fn law_mul_assoc(a: Self, b: Self, c: Self)
        ensures
            a.f_mul(b).f_mul(c) == a.f_mul(b.f_mul(c)),
    ;

    proof fn law_mul_comm(a: Self, b: Self)
        ensures
            a.f_mul(b) == b.f_mul(a),
    ;

    proof fn law_mul_one(a: Self)
        ensures
            a.f_mul(Self::f_one()) == a,
    ;

    /// There are no zero divisors.
    proof fn law_mul_zero(a: Self, b: Self)
        ensures
            a.f_mul(b) == Self::f_zero() <==> a == Self::f_zero() || b == Self::f_zero(),
    ;

    proof fn law_one_not_zero()
        ensures
            Self::f_one() != Self::f_zero(),
    ;

    proof fn law_sub_zero(a: Self, b: Self)
        ensures
            a.f_sub(b) == Self::f_zero() <==> a == b,
    ;

    proof fn law_sub_neg(a: Self, b: Self)
        ensures
            a.f_sub(b.f_neg()) == a.f_add(b),
    ;

    fn one() -> (r: Self)
        ensures
            r == Self::f_one(),
    ;

    fn add(&self, other: &Self) -> (r: Self)
        ensures
            r == self.f_add(*other),
    ;

    fn sub(&self, other: &Self) -> (r: Self)
        ensures
            r == self.f_sub(*other),
    ;

    fn mul(&self, other: &Self) -> (r: Self)
        ensures
            r == self.f_mul(*other),
    ;

    fn square(&self) -> (r: Self)
        ensures
            r == self.f_mul(*self),
    ;

    fn neg(&self) -> (r: Self)
        ensures
            r == self.f_neg(),
    ;

    fn is_zero(&self) -> (r: bool)
        ensures
            r <==> *self == Self::f_zero(),
    ;

    /// The multiplicative inverse; zero has none.
    fn invert(&self) -> (r: Option<Self>)
        ensures
            r is None <==> *self == Self::f_zero(),
            r matches Some(i) ==> self.f_mul(i) == Self::f_one(),
    ;
}

/// An element of the field of scalars: an integer modulo the order of the group.
pub trait PrimeField: Sized + Copy + Send + Sync {
    /// How many bits suffice for every element.
    const NUM_BITS: u32;

    /// The order of the field.
    spec fn modulus() -> nat;

    /// The integer, below the modulus, that this element stands for.
    spec fn value(self) -> nat;

    /// The bytes of an integer below the modulus.
    spec fn repr(value: nat) -> Seq<u8>;

    proof fn law_modulus()
        ensures
            Self::modulus() <= pow2(Self::NUM_BITS as nat),
            Self::NUM_BITS < u32::MAX,
    ;

    proof fn law_value(a: Self)
        ensures
            a.value() < Self::modulus(),
    ;

    /// The bytes are little-endian, and there is at least one.
    proof fn law_repr(value: nat)
        requires
            value < Self::modulus(),
        ensures
            Self::repr(value).len() > 0,
            le_value(Self::repr(value)) == value,
    ;

    fn zero() -> (r: Self)
        ensures
            r.value() == 0,
    ;

    fn sub(&self, other: &Self) -> (r: Self)
        ensures
            r.value() == (self.value() - other.value()) % (Self::modulus() as int),
    ;

    fn to_repr(&self) -> (r: Vec<u8>)
        ensures
            r@ == Self::repr(self.value()),
    ;
}

/// A group element in the form that is fast to compute with. Several values may
/// stand for one element.
pub trait Group<A: AbelianGroup>: Sized + Copy + Send + Sync {
    /// The group element that this value stands for.
    spec fn point(self) -> A;

    fn identity() -> (r: Self)
        ensures
            r.point() == A::zero(),
    ;

    fn double(&self) -> (r: Self)
        ensures
            r.point() == self.point().plus(self.point()),
    ;

    fn neg(&self) -> (r: Self)
        ensures
            r.point() == self.point().minus(),
    ;

    fn add(&self, other: &Self) -> (r: Self)
        ensures
            r.point() == self.point().plus(other.point()),
    ;

    fn add_affine(&self, other: &A) -> (r: Self)
        ensures
            r.point() == self.point().plus(*other),
    ;
}

/// The abscissa of a sum of two points, from the slope of the line through them.
pub open spec fn chord_x<F: Field>(slope: F, x1: F, x2: F) -> F {
    slope.f_mul(slope).f_sub(x1.f_add(x2))
}

/// The ordinate of a sum of two points, from the slope of the line through them, the
/// abscissa of the sum, and the second point.
pub open spec fn chord_y<F: Field>(slope: F, x3: F, x2: F, y2: F) -> F {
    slope.f_mul(x2.f_sub(x3)).f_sub(y2)
}

/// A point of an elliptic curve group of prime order, in affine form. Equal points
/// are equal values.
pub trait CurveAffine: AbelianGroup + Copy + Send + Sync {
    /// The field of coordinates.
    type Base: Field;

    /// The field of scalars.
    type Scalar: PrimeField;

    /// The form of the group that is fast to compute with.
    type Curve: Group<Self>;

    /// The coordinates; the neutral element has none.
    spec fn xy(self) -> Option<(Self::Base, Self::Base)>;

    /// The order of the scalar field annihilates the group.
    proof fn law_order(a: Self)
        ensures
            algebra::smul(Self::Scalar::modulus() as int, a) == Self::zero(),
    ;

    proof fn law_xy_zero(a: Self)
        ensures
            a.xy() is None <==> a == Self::zero(),
    ;

    /// Coordinates determine a point.
    proof fn law_xy_injective(a: Self, b: Self)
        ensures
            a.xy() == b.xy() ==> a == b,
    ;

    /// The inverse is the reflection.
    proof fn law_xy_minus(a: Self)
        ensures
            a.xy() matches Some(p) ==> a.minus().xy() == Some((p.0, p.1.f_neg())),
    ;

    /// A line parallel to the ordinates meets the curve in a point and its reflection.
    proof fn law_xy_parallel(a: Self, b: Self)
        requires
            a.xy() is Some,
            b.xy() is Some,
            a.xy().unwrap().0 == b.xy().unwrap().0,
        ensures
            a == b || a == b.minus(),
    ;

    /// The chord rule: any other line through two points gives their sum.
    proof fn law_xy_chord(a: Self, b: Self, slope: Self::Base)
        requires
            a.xy() is Some,
            b.xy() is Some,
            a.xy().unwrap().0 != b.xy().unwrap().0,
            slope.f_mul(a.xy().unwrap().0.f_sub(b.xy().unwrap().0)) == a.xy().unwrap().1.f_sub(b.xy().unwrap().1),
        ensures
            ({
                let x3 = chord_x(slope, a.xy().unwrap().0, b.xy().unwrap().0);
                a.plus(b).xy() == Some((x3, chord_y(slope, x3, b.xy().unwrap().0, b.xy().unwrap().1)))
            }),
    ;

    fn coordinates(&self) -> (r: Option<(Self::Base, Self::Base)>)
        ensures
            r == self.xy(),
    ;

    /// The point with the given coordinates, if there is one.
    fn from_xy(x: Self::Base, y: Self::Base) -> (r: Option<Self>)
        ensures
            forall|p: Self| #[trigger] p.xy() == Some((x, y)) ==> r == Some(p),
    ;

    fn to_curve(&self) -> (r: Self::Curve)
        ensures
            r.point() == *self,
    ;

    fn neg(&self) -> (r: Self)
        ensures
            r == self.minus(),
    ;
}

} // verus!
