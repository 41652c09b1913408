use vstd::prelude::*;
use crate::primitives::polygon::Polygon;
use crate::primitives::polygon::area_of;
use crate::primitives::polygon::perimeter_of;
use crate::traits::kernel::Kernel2D;
use crate::traits::kernel::Operations2D;
use crate::traits::kernel::RealOperations2D;
use crate::traits::number::FieldNumber;

verus! {

/// A polygon that its maker vouches to be convex, with its corners in
/// counter-clockwise order.
pub struct ConvexPolygon<K: Kernel2D> {
    pub polygon: Polygon<K>,
}

impl<K: Kernel2D> ConvexPolygon<K> {
    /// The convex polygon with these corners. Nothing is asked of them.
    pub fn from_points_unchecked(points: Vec<K::Point>) -> (convex: Self)
        ensures
            convex.polygon.points == points,
    {
        ConvexPolygon { polygon: Polygon::from_points_unchecked(points) }
    }

    /// The polygon, without the claim that it is convex.
    pub fn into_polygon(self) -> (polygon: Polygon<K>)
        ensures
            polygon == self.polygon,
    {
        self.polygon
    }
}

impl<K: Operations2D> ConvexPolygon<K> where K::Field: FieldNumber {
    /// The area of the polygon.
    pub fn area(&self) -> (area: K::Field)
        ensures
            area == area_of::<K>(self.polygon.points@),
    {
        self.polygon.area()
    }
}

impl<K: RealOperations2D> ConvexPolygon<K> {
    /// The length of the boundary of the polygon.
    pub fn perimeter(&self) -> (perimeter: K::RealField)
        ensures
            perimeter == perimeter_of::<K>(self.polygon.points@),
    {
        self.polygon.perimeter()
    }
}

} // verus!
