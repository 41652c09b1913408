use vstd::prelude::*;
use crate::common::orientation::Comparison;
use crate::common::orientation::Orientation2D;
use crate::common::plane::Position;
use crate::traits::kernel::DefaultExactKernel;
use crate::traits::kernel::DefaultKernel;
use crate::traits::kernel::ExactPredicates2D;
use crate::traits::kernel::Kernel2D;

verus! {

/// The exact kernel of points with integer coordinates, held as pairs of
/// `i32`. Its predicates are computed in 128-bit integers, which hold every
/// intermediate value.
pub struct GridKernel2D;

/// The difference of two coordinates.
fn delta(a: i32, b: i32) -> (d: i128)
    ensures
        d == a - b,
        -0x1_0000_0000 < d < 0x1_0000_0000,
{
    a as i128 - b as i128
}

/// The product of two coordinate differences.
fn product(a: i128, b: i128) -> (p: i128)
    requires
        -0x1_0000_0000 < a < 0x1_0000_0000,
        -0x1_0000_0000 < b < 0x1_0000_0000,
    ensures
        p == a * b,
        -0x1_0000_0000_0000_0000 < p < 0x1_0000_0000_0000_0000,
{
    assert(-0x1_0000_0000_0000_0000 < a * b < 0x1_0000_0000_0000_0000) by (nonlinear_arith)
        requires
            -0x1_0000_0000 < a < 0x1_0000_0000,
            -0x1_0000_0000 < b < 0x1_0000_0000,
    ;
    a * b
}

/// The order of two integers.
fn order(x: i128, y: i128) -> (o: Comparison)
    ensures
        o == crate::common::plane::order_of(x as int, y as int),
{
    if x < y {
        Comparison::Less
    } else if x > y {
        Comparison::Greater
    } else {
        Comparison::Equal
    }
}

impl Kernel2D for GridKernel2D {
    type Point = (i32, i32);

    type Field = i32;
}

impl ExactPredicates2D for GridKernel2D {
    open spec fn position(p: (i32, i32)) -> Position {
        Position { x: p.0 as int, y: p.1 as int }
    }

    fn is_same_point(a: &(i32, i32), b: &(i32, i32)) -> (same: bool) {
        a.0 == b.0 && a.1 == b.1
    }

    fn compare_distance(a: &(i32, i32), b: &(i32, i32), to: &(i32, i32)) -> (order: Comparison) {
        let ax = delta(a.0, to.0);
        let ay = delta(a.1, to.1);
        let bx = delta(b.0, to.0);
        let by = delta(b.1, to.1);
        let da = product(ax, ax) + product(ay, ay);
        let db = product(bx, bx) + product(by, by);
        order(da, db)
    }

    fn compare_length(a: &(i32, i32), b: &(i32, i32)) -> (order: Comparison) {
        let ax = delta(a.0, 0);
        let ay = delta(a.1, 0);
        let bx = delta(b.0, 0);
        let by = delta(b.1, 0);
        let da = product(ax, ax) + product(ay, ay);
        let db = product(bx, bx) + product(by, by);
        order(da, db)
    }

    fn orientation(a: &(i32, i32), b: &(i32, i32), c: &(i32, i32)) -> (turn: Orientation2D) {
        let ax = delta(a.0, c.0);
        let ay = delta(a.1, c.1);
        let bx = delta(b.0, c.0);
        let by = delta(b.1, c.1);
        let cross = product(ax, by) - product(ay, bx);
        if cross > 0 {
            Orientation2D::CounterClockwise
        } else if cross < 0 {
            Orientation2D::Clockwise
        } else {
            Orientation2D::Collinear
        }
    }
}

impl DefaultKernel for (i32, i32) {
    type Kernel = GridKernel2D;
}

impl DefaultExactKernel for (i32, i32) {
    type Kernel = GridKernel2D;
}

} // verus!
