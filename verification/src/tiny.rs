//! A curve small enough to be checked by hand: `y^2 = x^3 + 3x + 2` over the field of five
//! elements. Its group has five elements too, so that one field serves for coordinates and for
//! scalars.
//!
//! It shows that the laws which the traits ask for can be met together.
use vstd::prelude::*;
use vstd::arithmetic::div_mod::*;
use vstd::arithmetic::power2::*;

use crate::algebra;
use crate::algebra::AbelianGroup;
use crate::curve;
use crate::curve::{CurveAffine, Field, Group, PrimeField};

verus! {

/// An integer modulo five.
#[derive(Clone, Copy, Debug, PartialEq, Eq, Structural)]
pub enum TinyField {
    Zero,
    One,
    Two,
    Three,
    Four,
}

impl TinyField {
    /// The integer from 0 to 4.
    pub open spec fn int_value(self) -> int {
        match self {
            TinyField::Zero => 0,
            TinyField::One => 1,
            TinyField::Two => 2,
            TinyField::Three => 3,
            TinyField::Four => 4,
        }
    }

    /// The class of an integer.
    pub open spec fn of(n: int) -> TinyField {
        if n % 5 == 0 {
            TinyField::Zero
        } else if n % 5 == 1 {
            TinyField::One
        } else if n % 5 == 2 {
            TinyField::Two
        } else if n % 5 == 3 {
            TinyField::Three
        } else {
            TinyField::Four
        }
    }

    /// The integer from 0 to 4.
    pub fn to_u8(self) -> (r: u8)
        ensures
            r == self.int_value(),
            r < 5,
    {
        match self {
            TinyField::Zero => 0,
            TinyField::One => 1,
            TinyField::Two => 2,
            TinyField::Three => 3,
            TinyField::Four => 4,
        }
    }

    /// The class of an integer.
    pub fn from_u8(n: u8) -> (r: TinyField)
        ensures
            r == TinyField::of(n as int),
            r.int_value() == n % 5,
    {
        match n % 5 {
            0 => TinyField::Zero,
            1 => TinyField::One,
            2 => TinyField::Two,
            3 => TinyField::Three,
            _ => TinyField::Four,
        }
    }
}

impl Field for TinyField {
    open spec fn f_zero() -> Self {
        TinyField::Zero
    }

    open spec fn f_one() -> Self {
        TinyField::One
    }

    open spec fn f_add(self, other: Self) -> Self {
        TinyField::of(self.int_value() + other.int_value())
    }

    open spec fn f_sub(self, other: Self) -> Self {
        TinyField::of(self.int_value() - other.int_value())
    }

    open spec fn f_mul(self, other: Self) -> Self {
        TinyField::of(self.int_value() * other.int_value())
    }

    open spec fn f_neg(self) -> Self {
        TinyField::of(-self.int_value())
    }

    proof fn law_mul_assoc(a: Self, b: Self, c: Self) {
        let (x, y, z) = (a.int_value(), b.int_value(), c.int_value());
        lemma_mul_mod_noop_left(x * y, z, 5);
        lemma_mul_mod_noop_right(x, y * z, 5);
        assert((x * y) * z == x * (y * z)) by (nonlinear_arith);
    }

    proof fn law_mul_comm(a: Self, b: Self) {
        let (x, y) = (a.int_value(), b.int_value());
        assert(x * y == y * x) by (nonlinear_arith);
    }

    proof fn law_mul_one(a: Self) {
    }

    proof fn law_mul_zero(a: Self, b: Self) {
        match a {
            TinyField::Zero => {},
            TinyField::One => {},
            TinyField::Two => {},
            TinyField::Three => {},
            TinyField::Four => {},
        }
    }

    proof fn law_one_not_zero() {
    }

    proof fn law_sub_zero(a: Self, b: Self) {
    }

    proof fn law_sub_neg(a: Self, b: Self) {
    }

    fn one() -> (r: Self) {
        TinyField::One
    }

    fn add(&self, other: &Self) -> (r: Self) {
        TinyField::from_u8(self.to_u8() + other.to_u8())
    }

    fn sub(&self, other: &Self) -> (r: Self) {
        TinyField::from_u8(5 + self.to_u8() - other.to_u8())
    }

    fn mul(&self, other: &Self) -> (r: Self) {
        let (a, b): (u8, u8) = (self.to_u8(), other.to_u8());
        assert(a * b <= 16) by (nonlinear_arith)
            requires
                a <= 4,
                b <= 4,
        ;
        TinyField::from_u8(a * b)
    }

    fn square(&self) -> (r: Self) {
        self.mul(self)
    }

    fn neg(&self) -> (r: Self) {
        TinyField::from_u8(5 - self.to_u8())
    }

    fn is_zero(&self) -> (r: bool) {
        *self == TinyField::Zero
    }

    fn invert(&self) -> (r: Option<Self>) {
        match *self {
            TinyField::Zero => None,
            TinyField::One => Some(TinyField::One),
            TinyField::Two => Some(TinyField::Three),
            TinyField::Three => Some(TinyField::Two),
            TinyField::Four => Some(TinyField::Four),
        }
    }
}

impl PrimeField for TinyField {
    const NUM_BITS: u32 = 3;

    open spec fn modulus() -> nat {
        5
    }

    open spec fn value(self) -> nat {
        self.int_value() as nat
    }

    open spec fn repr(value: nat) -> Seq<u8> {
        seq![value as u8]
    }

    proof fn law_modulus() {
        lemma2_to64();
    }

    proof fn law_value(a: Self) {
    }

    proof fn law_repr(value: nat) {
        let bytes = seq![value as u8];
        assert(bytes.drop_first().len() == 0);
        reveal_with_fuel(curve::le_value, 2);
    }

    fn zero() -> (r: Self) {
        TinyField::Zero
    }

    fn sub(&self, other: &Self) -> (r: Self) {
        Field::sub(self, other)
    }

    fn to_repr(&self) -> (r: Vec<u8>) {
        let mut r: Vec<u8> = Vec::new();
        r.push(self.to_u8());
        assert(r@ =~= seq![self.value() as u8]);
        r
    }
}

/// A point of the curve.
#[derive(Clone, Copy, Debug, PartialEq, Eq, Structural)]
pub enum TinyPoint {
    Identity,
    /// `(1, 1)`
    Once,
    /// `(2, 1)`
    Twice,
    /// `(2, 4)`
    Thrice,
    /// `(1, 4)`
    FourTimes,
}

impl TinyPoint {
    /// Which multiple of `(1, 1)` it is.
    pub open spec fn multiple(self) -> int {
        match self {
            TinyPoint::Identity => 0,
            TinyPoint::Once => 1,
            TinyPoint::Twice => 2,
            TinyPoint::Thrice => 3,
            TinyPoint::FourTimes => 4,
        }
    }

    /// A multiple of `(1, 1)`.
    pub open spec fn of(n: int) -> TinyPoint {
        if n % 5 == 0 {
            TinyPoint::Identity
        } else if n % 5 == 1 {
            TinyPoint::Once
        } else if n % 5 == 2 {
            TinyPoint::Twice
        } else if n % 5 == 3 {
            TinyPoint::Thrice
        } else {
            TinyPoint::FourTimes
        }
    }

    /// Which multiple of `(1, 1)` it is.
    pub fn to_u8(self) -> (r: u8)
        ensures
            r == self.multiple(),
            r < 5,
    {
        match self {
            TinyPoint::Identity => 0,
            TinyPoint::Once => 1,
            TinyPoint::Twice => 2,
            TinyPoint::Thrice => 3,
            TinyPoint::FourTimes => 4,
        }
    }

    /// A multiple of `(1, 1)`.
    pub fn from_u8(n: u8) -> (r: TinyPoint)
        ensures
            r == TinyPoint::of(n as int),
            r.multiple() == n % 5,
    {
        match n % 5 {
            0 => TinyPoint::Identity,
            1 => TinyPoint::Once,
            2 => TinyPoint::Twice,
            3 => TinyPoint::Thrice,
            _ => TinyPoint::FourTimes,
        }
    }
}

impl AbelianGroup for TinyPoint {
    open spec fn zero() -> Self {
        TinyPoint::Identity
    }

    open spec fn plus(self, other: Self) -> Self {
        TinyPoint::of(self.multiple() + other.multiple())
    }

    open spec fn minus(self) -> Self {
        TinyPoint::of(-self.multiple())
    }

    proof fn law_assoc(a: Self, b: Self, c: Self) {
    }

    proof fn law_comm(a: Self, b: Self) {
    }

    proof fn law_zero(a: Self) {
    }

    proof fn law_inverse(a: Self) {
    }
}

/// A point in the form for computations, which is the same here.
#[derive(Clone, Copy, Debug, PartialEq, Eq, Structural)]
pub struct TinyCurve {
    pub affine: TinyPoint,
}

impl Group<TinyPoint> for TinyCurve {
    open spec fn point(self) -> TinyPoint {
        self.affine
    }

    fn identity() -> (r: Self) {
        TinyCurve { affine: TinyPoint::Identity }
    }

    fn double(&self) -> (r: Self) {
        self.add(self)
    }

    fn neg(&self) -> (r: Self) {
        TinyCurve { affine: TinyPoint::from_u8(5 - self.affine.to_u8()) }
    }

    fn add(&self, other: &Self) -> (r: Self) {
        TinyCurve { affine: TinyPoint::from_u8(self.affine.to_u8() + other.affine.to_u8()) }
    }

    fn add_affine(&self, other: &TinyPoint) -> (r: Self) {
        TinyCurve { affine: TinyPoint::from_u8(self.affine.to_u8() + other.to_u8()) }
    }
}

impl CurveAffine for TinyPoint {
    type Base = TinyField;

    type Scalar = TinyField;

    type Curve = TinyCurve;

    open spec fn xy(self) -> Option<(TinyField, TinyField)> {
        match self {
            TinyPoint::Identity => None,
            TinyPoint::Once => Some((TinyField::One, TinyField::One)),
            TinyPoint::Twice => Some((TinyField::Two, TinyField::One)),
            TinyPoint::Thrice => Some((TinyField::Two, TinyField::Four)),
            TinyPoint::FourTimes => Some((TinyField::One, TinyField::Four)),
        }
    }

    proof fn law_order(a: Self) {
        reveal_with_fuel(algebra::smul, 6);
    }

    proof fn law_xy_zero(a: Self) {
    }

    proof fn law_xy_injective(a: Self, b: Self) {
    }

    proof fn law_xy_minus(a: Self) {
    }

    proof fn law_xy_parallel(a: Self, b: Self) {
    }

    proof fn law_xy_chord(a: Self, b: Self, slope: TinyField) {
        match slope {
            TinyField::Zero => {},
            TinyField::One => {},
            TinyField::Two => {},
            TinyField::Three => {},
            TinyField::Four => {},
        }
    }

    fn coordinates(&self) -> (r: Option<(TinyField, TinyField)>) {
        match *self {
            TinyPoint::Identity => None,
            TinyPoint::Once => Some((TinyField::One, TinyField::One)),
            TinyPoint::Twice => Some((TinyField::Two, TinyField::One)),
            TinyPoint::Thrice => Some((TinyField::Two, TinyField::Four)),
            TinyPoint::FourTimes => Some((TinyField::One, TinyField::Four)),
        }
    }

    fn from_xy(x: TinyField, y: TinyField) -> (r: Option<Self>) {
        match (x, y) {
            (TinyField::One, TinyField::One) => Some(TinyPoint::Once),
            (TinyField::Two, TinyField::One) => Some(TinyPoint::Twice),
            (TinyField::Two, TinyField::Four) => Some(TinyPoint::Thrice),
            (TinyField::One, TinyField::Four) => Some(TinyPoint::FourTimes),
            _ => None,
        }
    }

    fn to_curve(&self) -> (r: TinyCurve) {
        TinyCurve { affine: *self }
    }

    fn neg(&self) -> (r: Self) {
        TinyPoint::from_u8(5 - self.to_u8())
    }
}

} // verus!
