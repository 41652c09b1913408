use bevy_math::Vec2;
use geom2d::algorithms::convex_hull;
use geom2d::algorithms::farthest_points;
use geom2d::common::is_same_cycle;
use geom2d::traits::DefaultKernel;
use geom2d::traits::FieldNumber;
use geom2d::traits::Kernel2D;
use geom2d::traits::Operations2D;
use geom2d::traits::Point2D;
use geom2d::traits::RealFieldNumber;
use geom2d::traits::RealOperations2D;

/// A 32-bit float as a scalar. All NaN results are mapped to one NaN, so that
/// every operation is a function of its operands.
#[derive(Clone, Copy, Debug, PartialEq)]
struct Real32(f32);

fn tidy(v: f32) -> Real32 {
    if v.is_nan() {
        Real32(f32::NAN)
    } else {
        Real32(v)
    }
}

impl FieldNumber for Real32 {
    fn valid(self) -> bool {
        self.is_valid()
    }

    fn exact() -> bool {
        false
    }

    fn zero_value() -> Self {
        Real32(0.0)
    }

    fn one_value() -> Self {
        Real32(1.0)
    }

    fn sum(self, rhs: Self) -> Self {
        self.plus(&rhs)
    }

    fn difference(self, rhs: Self) -> Self {
        self.minus(&rhs)
    }

    fn product(self, rhs: Self) -> Self {
        self.times(&rhs)
    }

    fn quotient(self, rhs: Self) -> Self {
        self.over(&rhs)
    }

    fn below(self, rhs: Self) -> bool {
        self.less_than(&rhs)
    }

    fn is_valid(&self) -> bool {
        !self.0.is_nan() && !self.0.is_infinite()
    }

    fn is_exact() -> bool {
        false
    }

    fn zero() -> Self {
        Real32(0.0)
    }

    fn one() -> Self {
        Real32(1.0)
    }

    fn plus(&self, rhs: &Self) -> Self {
        tidy(self.0 + rhs.0)
    }

    fn minus(&self, rhs: &Self) -> Self {
        tidy(self.0 - rhs.0)
    }

    fn times(&self, rhs: &Self) -> Self {
        tidy(self.0 * rhs.0)
    }

    fn over(&self, rhs: &Self) -> Self {
        tidy(self.0 / rhs.0)
    }

    fn less_than(&self, rhs: &Self) -> bool {
        self.0 < rhs.0
    }
}

impl RealFieldNumber for Real32 {
    fn root(self) -> Self {
        self.sqrt()
    }

    fn magnitude(self) -> Self {
        self.abs()
    }

    fn larger(self, rhs: Self) -> Self {
        self.max(&rhs)
    }

    fn epsilon_value() -> Self {
        Real32(f32::EPSILON)
    }

    fn sqrt(&self) -> Self {
        tidy(self.0.sqrt())
    }

    fn abs(&self) -> Self {
        tidy(self.0.abs())
    }

    fn max(&self, rhs: &Self) -> Self {
        tidy(self.0.max(rhs.0))
    }

    fn epsilon() -> Self {
        Real32(f32::EPSILON)
    }
}

/// A vector of `bevy_math` as a point.
#[derive(Clone, Copy, Debug, PartialEq)]
struct BevyPoint(Vec2);

/// The kernel whose primitives are the vectors' own methods.
struct BevyVec2Kernel;

impl Point2D for BevyPoint {
    type Scalar = Real32;

    fn x_value(self) -> Real32 {
        self.x()
    }

    fn y_value(self) -> Real32 {
        self.y()
    }

    fn x(&self) -> Real32 {
        Real32(self.0.x)
    }

    fn y(&self) -> Real32 {
        Real32(self.0.y)
    }
}

impl Kernel2D for BevyVec2Kernel {
    type Point = BevyPoint;
    type Field = Real32;
}

impl Operations2D for BevyVec2Kernel {
    fn length_sqr_value(a: BevyPoint) -> Real32 {
        Self::length_sqr(&a)
    }

    fn distance_sqr_value(a: BevyPoint, b: BevyPoint) -> Real32 {
        Self::distance_sqr(&a, &b)
    }

    fn dot_value(a: BevyPoint, b: BevyPoint) -> Real32 {
        Self::dot(&a, &b)
    }

    fn dot_with_origin_value(a: BevyPoint, b: BevyPoint, origin: BevyPoint) -> Real32 {
        Self::dot_with_origin(&a, &b, &origin)
    }

    fn cross_value(a: BevyPoint, b: BevyPoint) -> Real32 {
        Self::cross(&a, &b)
    }

    fn cross_with_origin_value(a: BevyPoint, b: BevyPoint, origin: BevyPoint) -> Real32 {
        Self::cross_with_origin(&a, &b, &origin)
    }

    fn length_sqr(a: &BevyPoint) -> Real32 {
        tidy(a.0.length_squared())
    }

    fn distance_sqr(a: &BevyPoint, b: &BevyPoint) -> Real32 {
        tidy(a.0.distance_squared(b.0))
    }

    fn dot(a: &BevyPoint, b: &BevyPoint) -> Real32 {
        tidy(a.0.dot(b.0))
    }

    fn dot_with_origin(a: &BevyPoint, b: &BevyPoint, origin: &BevyPoint) -> Real32 {
        tidy((a.0 - origin.0).dot(b.0 - origin.0))
    }

    fn cross(a: &BevyPoint, b: &BevyPoint) -> Real32 {
        tidy(a.0.perp_dot(b.0))
    }

    fn cross_with_origin(a: &BevyPoint, b: &BevyPoint, origin: &BevyPoint) -> Real32 {
        tidy((a.0 - origin.0).perp_dot(b.0 - origin.0))
    }
}

impl RealOperations2D for BevyVec2Kernel {
    type RealField = Real32;

    fn real_value(v: Real32) -> Real32 {
        v
    }

    fn length_value(a: BevyPoint) -> Real32 {
        Self::length(&a)
    }

    fn distance_value(a: BevyPoint, b: BevyPoint) -> Real32 {
        Self::distance(&a, &b)
    }

    fn to_real(v: Real32) -> Real32 {
        v
    }

    fn length(a: &BevyPoint) -> Real32 {
        tidy(a.0.length())
    }

    fn distance(a: &BevyPoint, b: &BevyPoint) -> Real32 {
        tidy(a.0.distance(b.0))
    }
}

impl DefaultKernel for BevyPoint {
    type Kernel = BevyVec2Kernel;
}

#[test]
fn bevy_kernel_simple_test() {
    let points = [
        BevyPoint(Vec2::new(0.1, 0.2)),
        BevyPoint(Vec2::new(10.0, -1.0)),
        BevyPoint(Vec2::new(5.0, 2.0)),
        BevyPoint(Vec2::new(7.0, 7.0)),
    ];
    let result = convex_hull(&points);
    assert!(is_same_cycle(result.unwrap().hull_indices(), &vec![0, 1, 3]));
}

#[test]
fn bevy_kernel_square() {
    let points = [
        BevyPoint(Vec2::new(0.0, 0.0)),
        BevyPoint(Vec2::new(1.0, 1.0)),
        BevyPoint(Vec2::new(1.0, 0.0)),
        BevyPoint(Vec2::new(0.0, 1.0)),
    ];
    let hull = convex_hull(&points).unwrap();
    assert!(is_same_cycle(hull.hull_indices(), &vec![0, 2, 1, 3]));
    assert_eq!(hull.area(), Real32(1.0));
    assert_eq!(hull.perimeter(), Real32(4.0));
    assert_eq!(farthest_points::<BevyVec2Kernel>(&points).unwrap(), (1, 0));
}
