use vstd::prelude::*;
use crate::traits::kernel::Kernel2D;
use crate::traits::kernel::Operations2D;
use crate::traits::kernel::RealOperations2D;
use crate::traits::number::FieldNumber;
use crate::traits::number::two;

verus! {

/// The signed area of the triangle `origin`, `a`, `b`: half the cross product.
pub open spec fn triangle_area<K: Operations2D>(a: K::Point, b: K::Point, origin: K::Point) -> K::Field where
    K::Field: FieldNumber,
 {
    K::cross_with_origin_value(a, b, origin).quotient(two::<K::Field>())
}

/// The sum of the signed areas of the first `n - 1` triangles of the fan from
/// the first corner: those with the corners `0`, `i`, `i + 1` for `i` from 1
/// up to `n - 1`.
pub open spec fn fan_area<K: Operations2D>(corners: Seq<K::Point>, n: int) -> K::Field where
    K::Field: FieldNumber,

    decreases n,
{
    if n <= 1 {
        K::Field::zero_value()
    } else {
        fan_area::<K>(corners, n - 1).sum(
            triangle_area::<K>(corners[n - 1], corners[n], corners[0]),
        )
    }
}

/// The signed area enclosed by the corners, taken in order.
pub open spec fn area_of<K: Operations2D>(corners: Seq<K::Point>) -> K::Field where
    K::Field: FieldNumber,
 {
    fan_area::<K>(corners, corners.len() - 1)
}

/// The sum of the lengths of the first `n` edges: the edge `i` runs from
/// corner `i` to the next one, the last edge back to the first corner.
pub open spec fn edge_length_sum<K: RealOperations2D>(corners: Seq<K::Point>, n: int) -> K::RealField
    decreases n,
{
    if n <= 0 {
        K::RealField::zero_value()
    } else {
        edge_length_sum::<K>(corners, n - 1).sum(
            K::distance_value(corners[n - 1], corners[n % corners.len() as int]),
        )
    }
}

/// The length of the closed path through the corners, taken in order.
pub open spec fn perimeter_of<K: RealOperations2D>(corners: Seq<K::Point>) -> K::RealField {
    edge_length_sum::<K>(corners, corners.len() as int)
}

/// A polygon, given by its corners in order.
pub struct Polygon<K: Kernel2D> {
    pub points: Vec<K::Point>,
}

impl<K: Kernel2D> Polygon<K> {
    /// The polygon with these corners. Nothing is asked of them.
    pub fn from_points_unchecked(points: Vec<K::Point>) -> (polygon: Self)
        ensures
            polygon.points == points,
    {
        Polygon { points }
    }

    /// The number of corners.
    pub fn len(&self) -> (n: usize)
        ensures
            n == self.points.len(),
    {
        self.points.len()
    }

    /// Whether the polygon has no corner.
    pub fn is_empty(&self) -> (b: bool)
        ensures
            b == (self.points.len() == 0),
    {
        self.len() == 0
    }

    /// The corner at `index`.
    pub fn get(&self, index: usize) -> (corner: &K::Point)
        requires
            index < self.points.len(),
        ensures
            *corner == self.points[index as int],
    {
        &self.points[index]
    }
}

impl<K: Operations2D> Polygon<K> where K::Field: FieldNumber {
    /// The signed area of the polygon: the sum of the signed areas of the
    /// triangles of the fan from the first corner. It is the enclosed area
    /// where the polygon is convex and its corners run counter-clockwise.
    pub fn area(&self) -> (area: K::Field)
        ensures
            area == area_of::<K>(self.points@),
    {
        let one = K::Field::one();
        let half_of = one.plus(&one);
        let mut area = K::Field::zero();
        let n = self.points.len();
        if n >= 3 {
            let mut i: usize = 1;
            while i < n - 1
                invariant
                    1 <= i <= n - 1,
                    n == self.points.len(),
                    half_of == two::<K::Field>(),
                    area == fan_area::<K>(self.points@, i as int),
                decreases n - i,
            {
                let cross = K::cross_with_origin(
                    &self.points[i],
                    &self.points[i + 1],
                    &self.points[0],
                );
                area = area.plus(&cross.over(&half_of));
                i = i + 1;
            }
        }
        area
    }
}

impl<K: RealOperations2D> Polygon<K> {
    /// The length of the boundary of the polygon.
    pub fn perimeter(&self) -> (perimeter: K::RealField)
        ensures
            perimeter == perimeter_of::<K>(self.points@),
    {
        let mut perimeter = K::RealField::zero();
        let n = self.points.len();
        let mut i: usize = 0;
        while i < n
            invariant
                i <= n,
                n == self.points.len(),
                perimeter == edge_length_sum::<K>(self.points@, i as int),
            decreases n - i,
        {
            let next = if i + 1 < n {
                i + 1
            } else {
                0
            };
            proof {
                if i + 1 < n {
                    assert((i + 1) % (n as int) == i + 1) by (nonlinear_arith)
                        requires
                            0 <= i + 1 < n,
                    ;
                } else {
                    assert((i + 1) % (n as int) == 0) by (nonlinear_arith)
                        requires
                            i + 1 == n,
                            n > 0,
                    ;
                }
            }
            perimeter = perimeter.plus(&K::distance(&self.points[i], &self.points[next]));
            i = i + 1;
        }
        perimeter
    }
}

} // verus!
