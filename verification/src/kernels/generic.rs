use vstd::prelude::*;
use core::marker::PhantomData;
use crate::traits::kernel::Kernel2D;
use crate::traits::kernel::Operations2D;
use crate::traits::kernel::RealOperations2D;
use crate::traits::number::FieldNumber;
use crate::traits::number::RealFieldNumber;
use crate::traits::point2d::Point2D;

verus! {

/// The kernel of any point type that hands out its coordinates: the
/// primitives are computed from the coordinates in the points' own scalar.
pub struct GenericKernel2D<V>(PhantomData<V>);

impl<V: Point2D> Kernel2D for GenericKernel2D<V> {
    type Point = V;

    type Field = V::Scalar;
}

impl<V: Point2D> Operations2D for GenericKernel2D<V> where V::Scalar: FieldNumber {
    open spec fn length_sqr_value(a: V) -> V::Scalar {
        a.x_value().product(a.x_value()).sum(a.y_value().product(a.y_value()))
    }

    open spec fn distance_sqr_value(a: V, b: V) -> V::Scalar {
        let dx = a.x_value().difference(b.x_value());
        let dy = a.y_value().difference(b.y_value());
        dx.product(dx).sum(dy.product(dy))
    }

    open spec fn dot_value(a: V, b: V) -> V::Scalar {
        a.x_value().product(b.x_value()).sum(a.y_value().product(b.y_value()))
    }

    open spec fn dot_with_origin_value(a: V, b: V, origin: V) -> V::Scalar {
        let adx = a.x_value().difference(origin.x_value());
        let ady = a.y_value().difference(origin.y_value());
        let bdx = b.x_value().difference(origin.x_value());
        let bdy = b.y_value().difference(origin.y_value());
        adx.product(bdx).sum(ady.product(bdy))
    }

    open spec fn cross_value(a: V, b: V) -> V::Scalar {
        a.x_value().product(b.y_value()).difference(a.y_value().product(b.x_value()))
    }

    open spec fn cross_with_origin_value(a: V, b: V, origin: V) -> V::Scalar {
        let adx = a.x_value().difference(origin.x_value());
        let ady = a.y_value().difference(origin.y_value());
        let bdx = b.x_value().difference(origin.x_value());
        let bdy = b.y_value().difference(origin.y_value());
        adx.product(bdy).difference(ady.product(bdx))
    }

    fn length_sqr(a: &V) -> (r: V::Scalar) {
        let dx = a.x();
        let dy = a.y();
        dx.times(&dx).plus(&dy.times(&dy))
    }

    fn distance_sqr(a: &V, b: &V) -> (r: V::Scalar) {
        let dx = a.x().minus(&b.x());
        let dy = a.y().minus(&b.y());
        dx.times(&dx).plus(&dy.times(&dy))
    }

    fn dot(a: &V, b: &V) -> (r: V::Scalar) {
        a.x().times(&b.x()).plus(&a.y().times(&b.y()))
    }

    fn dot_with_origin(a: &V, b: &V, origin: &V) -> (r: V::Scalar) {
        let adx = a.x().minus(&origin.x());
        let ady = a.y().minus(&origin.y());
        let bdx = b.x().minus(&origin.x());
        let bdy = b.y().minus(&origin.y());
        adx.times(&bdx).plus(&ady.times(&bdy))
    }

    fn cross(a: &V, b: &V) -> (r: V::Scalar) {
        a.x().times(&b.y()).minus(&a.y().times(&b.x()))
    }

    fn cross_with_origin(a: &V, b: &V, origin: &V) -> (r: V::Scalar) {
        let adx = a.x().minus(&origin.x());
        let ady = a.y().minus(&origin.y());
        let bdx = b.x().minus(&origin.x());
        let bdy = b.y().minus(&origin.y());
        adx.times(&bdy).minus(&ady.times(&bdx))
    }
}

impl<V: Point2D> RealOperations2D for GenericKernel2D<V> where V::Scalar: RealFieldNumber {
    type RealField = V::Scalar;

    open spec fn real_value(v: V::Scalar) -> V::Scalar {
        v
    }

    open spec fn length_value(a: V) -> V::Scalar {
        Self::length_sqr_value(a).root()
    }

    open spec fn distance_value(a: V, b: V) -> V::Scalar {
        Self::distance_sqr_value(a, b).root()
    }

    fn to_real(v: V::Scalar) -> (r: V::Scalar) {
        v
    }

    fn length(a: &V) -> (r: V::Scalar) {
        Self::length_sqr(a).sqrt()
    }

    fn distance(a: &V, b: &V) -> (r: V::Scalar) {
        Self::distance_sqr(a, b).sqrt()
    }
}

} // verus!
