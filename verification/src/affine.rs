//! Points as bare coordinates, and the buckets in which they are summed.
use vstd::prelude::*;

use crate::algebra;
use crate::algebra::AbelianGroup;
use crate::curve::{CurveAffine, Field, Group};

verus! {

/// The coordinates of a point, without the check that they are on the curve.
pub struct Affine<C: CurveAffine> {
    pub x: C::Base,
    pub y: C::Base,
}

impl<C: CurveAffine> Copy for Affine<C> {}

impl<C: CurveAffine> Clone for Affine<C> {
    fn clone(&self) -> (r: Self)
        ensures
            r == *self,
    {
        *self
    }
}

/// A point, or its inverse.
pub open spec fn signed<A: AbelianGroup>(p: A, sign: bool) -> A {
    if sign {
        p
    } else {
        p.minus()
    }
}

/// Coordinates, or those of the inverse.
pub open spec fn signed_coordinates<C: CurveAffine>(a: Affine<C>, sign: bool) -> Affine<C> {
    if sign {
        a
    } else {
        Affine { x: a.x, y: a.y.f_neg() }
    }
}

impl<C: CurveAffine> Affine<C> {
    /// Whether the coordinates are those of a point.
    pub open spec fn on_curve(self) -> bool {
        exists|p: C| #[trigger] p.xy() == Some((self.x, self.y))
    }

    /// The point that has these coordinates.
    pub open spec fn point(self) -> C {
        choose|p: C| #[trigger] p.xy() == Some((self.x, self.y))
    }

    /// The coordinates of a point that is not the identity.
    pub fn from(point: &C) -> (r: Self)
        requires
            point.xy() is Some,
        ensures
            point.xy() == Some((r.x, r.y)),
            r.on_curve(),
            r.point() == *point,
    {
        let coords = point.coordinates().unwrap();
        let r = Affine { x: coords.0, y: coords.1 };
        proof {
            lemma_point(r, *point);
        }
        r
    }

    /// The coordinates of the inverse.
    pub fn neg(&self) -> (r: Self)
        ensures
            r.x == self.x,
            r.y == self.y.f_neg(),
            self.on_curve() ==> r.on_curve() && r.point() == self.point().minus(),
    {
        let r = Affine { x: self.x, y: self.y.neg() };
        proof {
            if self.on_curve() {
                C::law_xy_minus(self.point());
                lemma_point(r, self.point().minus());
            }
        }
        r
    }

    /// The point that has these coordinates.
    pub fn eval(&self) -> (r: C)
        requires
            self.on_curve(),
        ensures
            r == self.point(),
            r.xy() == Some((self.x, self.y)),
    {
        let p = C::from_xy(self.x, self.y);
        assert(self.point().xy() == Some((self.x, self.y)));
        p.unwrap()
    }
}

/// Coordinates of a point are on the curve, and of no other point.
pub proof fn lemma_point<C: CurveAffine>(a: Affine<C>, p: C)
    requires
        p.xy() == Some((a.x, a.y)),
    ensures
        a.on_curve(),
        a.point() == p,
{
    C::law_xy_injective(a.point(), p);
}

/// The sum of the points with one digit, as coordinates. An empty bucket has none.
pub enum BucketAffine<C: CurveAffine> {
    Empty,
    Point(Affine<C>),
}

impl<C: CurveAffine> Copy for BucketAffine<C> {}

impl<C: CurveAffine> Clone for BucketAffine<C> {
    fn clone(&self) -> (r: Self)
        ensures
            r == *self,
    {
        *self
    }
}

impl<C: CurveAffine> BucketAffine<C> {
    /// Coordinates in the bucket are on the curve.
    pub open spec fn valid(self) -> bool {
        self matches BucketAffine::Point(a) ==> a.on_curve()
    }

    /// The sum in the bucket.
    pub open spec fn point(self) -> C {
        match self {
            BucketAffine::Empty => C::zero(),
            BucketAffine::Point(a) => a.point(),
        }
    }

    /// Puts a point, or its inverse, into an empty bucket. Says whether it was empty.
    pub fn assign(&mut self, point: &Affine<C>, sign: bool) -> (r: bool)
        ensures
            r <==> *old(self) is Empty,
            r ==> *final(self) == BucketAffine::Point(signed_coordinates(*point, sign)),
            r ==> final(self)->Point_0.x == point.x && final(self)->Point_0.y == (if sign {
                point.y
            } else {
                point.y.f_neg()
            }),
            r && point.on_curve() ==> final(self).valid() && final(self).point() == signed(
                point.point(),
                sign,
            ),
            !r ==> *final(self) == *old(self),
    {
        match *self {
            BucketAffine::Empty => {
                *self = BucketAffine::Point(
                    if sign {
                        *point
                    } else {
                        point.neg()
                    },
                );
                true
            },
            BucketAffine::Point(_) => false,
        }
    }

    pub fn x(&self) -> (r: C::Base)
        requires
            *self is Point,
        ensures
            r == self->Point_0.x,
    {
        match *self {
            BucketAffine::Point(a) => a.x,
            BucketAffine::Empty => vstd::pervasive::unreached(),
        }
    }

    pub fn y(&self) -> (r: C::Base)
        requires
            *self is Point,
        ensures
            r == self->Point_0.y,
    {
        match *self {
            BucketAffine::Point(a) => a.y,
            BucketAffine::Empty => vstd::pervasive::unreached(),
        }
    }

    pub fn set_x(&mut self, x: &C::Base)
        requires
            *old(self) is Point,
        ensures
            *final(self) == BucketAffine::Point(Affine::<C> { x: *x, y: old(self)->Point_0.y }),
    {
        match *self {
            BucketAffine::Point(a) => {
                *self = BucketAffine::Point(Affine { x: *x, y: a.y });
            },
            BucketAffine::Empty => vstd::pervasive::unreached(),
        }
    }

    pub fn set_y(&mut self, y: &C::Base)
        requires
            *old(self) is Point,
        ensures
            *final(self) == BucketAffine::Point(Affine::<C> { x: old(self)->Point_0.x, y: *y }),
    {
        match *self {
            BucketAffine::Point(a) => {
                *self = BucketAffine::Point(Affine { x: a.x, y: *y });
            },
            BucketAffine::Empty => vstd::pervasive::unreached(),
        }
    }
}

/// The sum of the points with one digit that could not wait for a batch.
pub enum Bucket<C: CurveAffine> {
    Empty,
    Point(C::Curve),
}

impl<C: CurveAffine> Copy for Bucket<C> {}

impl<C: CurveAffine> Clone for Bucket<C> {
    fn clone(&self) -> (r: Self)
        ensures
            r == *self,
    {
        *self
    }
}

impl<C: CurveAffine> Bucket<C> {
    /// The sum in the bucket.
    pub open spec fn point(self) -> C {
        match self {
            Bucket::Empty => C::zero(),
            Bucket::Point(a) => a.point(),
        }
    }

    /// Puts a point, or its inverse, into the bucket.
    pub fn add_assign(&mut self, point: &C, sign: bool)
        ensures
            *final(self) is Point,
            *old(self) is Empty ==> final(self)->Point_0.point() == (if sign {
                *point
            } else {
                point.minus()
            }),
            *old(self) matches Bucket::Point(a) ==> final(self)->Point_0.point() == (if sign {
                a.point().plus(*point)
            } else {
                a.point().plus(point.minus())
            }),
            final(self).point() == old(self).point().plus(signed(*point, sign)),
    {
        proof {
            algebra::lemma_zero_left(*point);
            algebra::lemma_zero_left(point.minus());
        }
        *self = match *self {
            Bucket::Empty => Bucket::Point(
                if sign {
                    point.to_curve()
                } else {
                    point.to_curve().neg()
                },
            ),
            Bucket::Point(a) => Bucket::Point(
                if sign {
                    a.add_affine(point)
                } else {
                    a.add_affine(&point.neg())
                },
            ),
        };
    }

    /// The sum in this bucket and in another for the same digit.
    pub fn add(&self, other: &BucketAffine<C>) -> (r: C::Curve)
        requires
            other.valid(),
        ensures
            *self is Empty && *other is Empty ==> r.point() == C::zero(),
            *self is Empty && *other is Point ==> r.point().xy() == Some(
                (other->Point_0.x, other->Point_0.y),
            ),
            *self is Point && *other is Empty ==> r.point() == self->Point_0.point(),
            forall|q: C|
                *self is Point && *other is Point && #[trigger] q.xy() == Some(
                    (other->Point_0.x, other->Point_0.y),
                ) ==> r.point() == self->Point_0.point().plus(q),
            r.point() == self.point().plus(other.point()),
    {
        proof {
            algebra::lemma_zero_left(other.point());
            C::law_zero(self.point());
        }
        proof {
            assert forall|q: C|
                *other is Point && #[trigger] q.xy() == Some(
                    (other->Point_0.x, other->Point_0.y),
                ) implies q == other.point() by {
                lemma_point(other->Point_0, q);
            }
        }
        match (*self, *other) {
            (Bucket::Point(this), BucketAffine::Point(that)) => this.add_affine(&that.eval()),
            (Bucket::Point(this), BucketAffine::Empty) => this,
            (Bucket::Empty, BucketAffine::Point(that)) => that.eval().to_curve(),
            (Bucket::Empty, BucketAffine::Empty) => C::Curve::identity(),
        }
    }
}

} // verus!
