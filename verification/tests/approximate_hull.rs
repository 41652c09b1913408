use geom2d::algorithms::convex_hull;
use geom2d::algorithms::convex_hull::convex_hull_impl::convex_hull_impl;
use geom2d::algorithms::convex_hull::convex_hull_impl::hull_tolerance;
use geom2d::algorithms::farthest_points;
use geom2d::algorithms::farthest_points::farthest_points_impl::farthest_pair_on_hull;
use geom2d::algorithms::farthest_points::farthest_points_impl::farthest_points_impl;
use geom2d::algorithms::ConvexHull2D;
use geom2d::common::is_same_cycle;
use geom2d::common::Comparison;
use geom2d::common::GeometryError;
use geom2d::common::Orientation2D;
use geom2d::common::Position;
use geom2d::kernels::GenericKernel2D;
use geom2d::primitives::ConvexPolygon;
use geom2d::primitives::Polygon;
use geom2d::traits::DefaultKernel;
use geom2d::traits::ExactPredicates2D;
use geom2d::traits::FieldNumber;
use geom2d::traits::Kernel2D;
use geom2d::traits::Operations2D;
use geom2d::traits::Point2D;
use geom2d::traits::RealFieldNumber;
use geom2d::traits::RealOperations2D;

/// A 32-bit float as a scalar. All NaN results are mapped to one NaN, so that
/// every operation is a function of its operands.
#[derive(Clone, Copy, Debug, PartialEq)]
struct Real32(f32);

fn tidy(v: f32) -> Real32 {
    if v.is_nan() {
        Real32(f32::NAN)
    } else {
        Real32(v)
    }
}

impl FieldNumber for Real32 {
    fn valid(self) -> bool {
        self.is_valid()
    }

    fn exact() -> bool {
        false
    }

    fn zero_value() -> Self {
        Real32(0.0)
    }

    fn one_value() -> Self {
        Real32(1.0)
    }

    fn sum(self, rhs: Self) -> Self {
        self.plus(&rhs)
    }

    fn difference(self, rhs: Self) -> Self {
        self.minus(&rhs)
    }

    fn product(self, rhs: Self) -> Self {
        self.times(&rhs)
    }

    fn quotient(self, rhs: Self) -> Self {
        self.over(&rhs)
    }

    fn below(self, rhs: Self) -> bool {
        self.less_than(&rhs)
    }

    fn is_valid(&self) -> bool {
        !self.0.is_nan() && !self.0.is_infinite()
    }

    fn is_exact() -> bool {
        false
    }

    fn zero() -> Self {
        Real32(0.0)
    }

    fn one() -> Self {
        Real32(1.0)
    }

    fn plus(&self, rhs: &Self) -> Self {
        tidy(self.0 + rhs.0)
    }

    fn minus(&self, rhs: &Self) -> Self {
        tidy(self.0 - rhs.0)
    }

    fn times(&self, rhs: &Self) -> Self {
        tidy(self.0 * rhs.0)
    }

    fn over(&self, rhs: &Self) -> Self {
        tidy(self.0 / rhs.0)
    }

    fn less_than(&self, rhs: &Self) -> bool {
        self.0 < rhs.0
    }
}

impl RealFieldNumber for Real32 {
    fn root(self) -> Self {
        self.sqrt()
    }

    fn magnitude(self) -> Self {
        self.abs()
    }

    fn larger(self, rhs: Self) -> Self {
        self.max(&rhs)
    }

    fn epsilon_value() -> Self {
        Real32(f32::EPSILON)
    }

    fn sqrt(&self) -> Self {
        tidy(self.0.sqrt())
    }

    fn abs(&self) -> Self {
        tidy(self.0.abs())
    }

    fn max(&self, rhs: &Self) -> Self {
        tidy(self.0.max(rhs.0))
    }

    fn epsilon() -> Self {
        Real32(f32::EPSILON)
    }
}

#[derive(Clone, Copy, Debug, PartialEq)]
struct Point32 {
    x: Real32,
    y: Real32,
}

impl Point2D for Point32 {
    type Scalar = Real32;

    fn x_value(self) -> Real32 {
        self.x
    }

    fn y_value(self) -> Real32 {
        self.y
    }

    fn x(&self) -> Real32 {
        self.x
    }

    fn y(&self) -> Real32 {
        self.y
    }
}

impl DefaultKernel for Point32 {
    type Kernel = GenericKernel2D<Point32>;
}

fn points_of(coordinates: &[(f32, f32)]) -> Vec<Point32> {
    coordinates.iter().map(|(x, y)| Point32 { x: Real32(*x), y: Real32(*y) }).collect()
}

fn assert_eq_cycle(a: Vec<usize>, b: Vec<usize>) {
    assert!(!a.is_empty());
    assert!(!b.is_empty());
    let offset = a.iter().position(|x| *x == b[0]).unwrap();
    let rotated: Vec<usize> = a[offset..].iter().chain(a[..offset].iter()).cloned().collect();
    assert_eq!(rotated, b);
}

fn assert_convex_hull_f32(coordinates: &[(f32, f32)], expected: &[usize]) {
    let points = points_of(coordinates);
    let hull = convex_hull_impl::<GenericKernel2D<Point32>>(&points);
    assert!(hull.is_ok());
    let (hull, degenerate) = hull.unwrap();
    if expected.len() <= 2 {
        assert!(degenerate);
        assert_eq!(hull.len(), expected.len());
        return;
    }
    assert_eq_cycle(hull, expected.to_vec());
}

fn assert_hull_indices_f32(coordinates: &[(f32, f32)], expected: &[usize]) {
    let points = points_of(coordinates);
    let hull = convex_hull(&points);
    assert!(hull.is_ok());
    let hull = hull.unwrap();
    let hull_indices = hull.hull_indices();
    assert_eq!(hull_indices.len(), expected.len());
    if expected.len() == 1 {
        return;
    }
    assert_eq_cycle(hull_indices.clone(), expected.to_vec());
}

#[test]
fn convex_hull_impl_simple_triangle() {
    assert_convex_hull_f32(&[(0.1, 0.2), (10.0, -1.0), (5.0, 2.0), (7.0, 7.0)], &[0, 1, 3]);
}

#[test]
fn convex_hull_impl_collinear() {
    assert_convex_hull_f32(&[(0.1, 0.3), (0.01, 0.03), (1., 3.), (0.3, 0.9)], &[1, 2]);
}

#[test]
fn convex_hull_impl_relatively_close_together() {
    assert_convex_hull_f32(&[(1000000.1, 0.0), (1000000.2, 0.0), (1000000.1, 0.1)], &[0]);
}

#[test]
fn convex_hull_impl_square() {
    assert_convex_hull_f32(&[(0.0, 0.0), (1.0, 1.0), (1.0, 0.0), (0.0, 1.0)], &[0, 2, 1, 3]);
}

#[test]
fn convex_hull_simple_triangle() {
    assert_hull_indices_f32(&[(0.1, 0.2), (10.0, -1.0), (5.0, 2.0), (7.0, 7.0)], &[0, 1, 3]);
}

#[test]
fn convex_hull_relatively_close_together() {
    assert_hull_indices_f32(&[(1000000.1, 0.0), (1000000.2, 0.0), (1000000.1, 0.1)], &[0]);
}

#[test]
fn mod_simple_triangle() {
    assert_hull_indices_f32(&[(0.1, 0.2), (10.0, -1.0), (5.0, 2.0), (7.0, 7.0)], &[0, 1, 3]);
}

#[test]
fn mod_relatively_close_together() {
    assert_hull_indices_f32(&[(1000000.1, 0.0), (1000000.2, 0.0), (1000000.1, 0.1)], &[0]);
}

#[test]
fn collinear_points_give_the_two_ends() {
    let points = points_of(&[(0.1, 0.3), (0.01, 0.03), (1., 3.), (0.3, 0.9)]);
    let (hull, degenerate) = convex_hull_impl::<GenericKernel2D<Point32>>(&points).unwrap();
    assert_eq!(hull, vec![2, 1]);
    assert!(degenerate);
}

#[test]
fn approximate_single_point() {
    let points = points_of(&[(3.5, -2.0)]);
    let (hull, degenerate) = convex_hull_impl::<GenericKernel2D<Point32>>(&points).unwrap();
    assert_eq!(hull, vec![0]);
    assert!(degenerate);
}

#[test]
fn approximate_points_at_the_origin() {
    let points = points_of(&[(0.0, 0.0), (0.0, 0.0)]);
    let (hull, degenerate) = convex_hull_impl::<GenericKernel2D<Point32>>(&points).unwrap();
    assert_eq!(hull, vec![0]);
    assert!(degenerate);
}

#[test]
fn approximate_empty_input() {
    let none: Vec<Point32> = vec![];
    assert!(matches!(
        convex_hull_impl::<GenericKernel2D<Point32>>(&none),
        Err(GeometryError::InputIsEmpty)
    ));
    assert!(matches!(convex_hull(&none), Err(GeometryError::InputIsEmpty)));
    assert!(matches!(
        ConvexHull2D::<GenericKernel2D<Point32>>::from_points_owned(none),
        Err(GeometryError::InputIsEmpty)
    ));
}

#[test]
fn approximate_invalid_coordinate() {
    let with_nan = points_of(&[(0.0, 0.0), (1.0, f32::NAN), (2.0, 1.0)]);
    assert!(matches!(
        convex_hull_impl::<GenericKernel2D<Point32>>(&with_nan),
        Err(GeometryError::InputValueInvalidForField)
    ));
    let with_infinity = points_of(&[(f32::INFINITY, 0.0)]);
    assert!(matches!(
        convex_hull(&with_infinity),
        Err(GeometryError::InputValueInvalidForField)
    ));
}

#[test]
fn approximate_hull_exact_order() {
    let points = points_of(&[(0.0, 0.0), (1.0, 1.0), (1.0, 0.0), (0.0, 1.0)]);
    let (hull, degenerate) = convex_hull_impl::<GenericKernel2D<Point32>>(&points).unwrap();
    assert_eq!(hull, vec![1, 3, 0, 2]);
    assert!(!degenerate);
}

#[test]
fn approximate_hull_accessors() {
    let points = points_of(&[(0.0, 0.0), (4.0, 0.0), (4.0, 4.0), (0.0, 4.0), (2.0, 2.0), (1.0, 3.0)]);
    let hull = convex_hull(&points).unwrap();
    assert!(!hull.is_degenerate());
    assert_eq!(hull.hull_size(), 4);
    assert!(!hull.is_hull_only());
    assert_eq_cycle(hull.hull_indices().clone(), vec![0, 1, 2, 3]);
    assert_eq!(hull.inside_indices(), vec![4, 5]);
    let inside: Vec<Point32> = hull.inside_points().into_iter().cloned().collect();
    assert_eq!(inside, vec![points[4], points[5]]);
    let boundary: Vec<Point32> = hull.hull_points().into_iter().cloned().collect();
    assert_eq!(boundary.len(), 4);
    let owned = hull.to_owned();
    assert_eq!(owned.inside_indices(), vec![4, 5]);
    assert_eq!(owned.hull_size(), 4);
}

fn assert_farthest_points_f32(coordinates: &[(f32, f32)], expected: (usize, usize)) {
    let points = points_of(coordinates);
    let (i, j) = farthest_points_impl::<GenericKernel2D<Point32>>(&points).unwrap();
    let dist_ij = GenericKernel2D::<Point32>::distance_sqr(&points[i], &points[j]);
    let dist_expected =
        GenericKernel2D::<Point32>::distance_sqr(&points[expected.0], &points[expected.1]);
    assert_eq!(dist_ij, dist_expected);
}

#[test]
fn test_simple() {
    assert_farthest_points_f32(&[(0.1, 0.2), (10.0, -1.0), (5.0, 2.0), (7.0, 7.0)], (0, 1));
}

#[test]
fn test_square() {
    let points = [(0.0, 0.0), (1.0, 0.0), (1.0, 1.0), (0.0, 1.0)];
    assert_farthest_points_f32(&points, (0, 2));
}

#[test]
fn farthest_points_exact_pair() {
    let points = points_of(&[(0.1, 0.2), (10.0, -1.0), (5.0, 2.0), (7.0, 7.0)]);
    let pair = farthest_points::<GenericKernel2D<Point32>>(&points).unwrap();
    assert_eq!(pair, (1, 0));
}

#[test]
fn farthest_points_of_one_place() {
    let one = points_of(&[(2.0, 2.0)]);
    assert!(matches!(
        farthest_points::<GenericKernel2D<Point32>>(&one),
        Err(GeometryError::InputHasTooFewPoints)
    ));
    let none: Vec<Point32> = vec![];
    assert!(matches!(
        farthest_points::<GenericKernel2D<Point32>>(&none),
        Err(GeometryError::InputIsEmpty)
    ));
}

#[test]
fn farthest_pair_on_a_given_hull() {
    let points = points_of(&[(0.0, 0.0), (3.0, 0.0), (3.0, 1.0), (0.0, 1.0)]);
    let pair = farthest_pair_on_hull::<GenericKernel2D<Point32>>(&points, &vec![0, 1, 2, 3]);
    assert_eq!(pair, (0, 2));
}

// The two tests that follow ask for the two ends of the line, which are the
// points at the indices 1 and 2.
#[test]
fn colinear() {
    let points = points_of(&[(0.1, 0.3), (0.01, 0.03), (1., 3.), (0.3, 0.9)]);
    let hull = convex_hull(&points).unwrap();
    assert_eq!(hull.hull_indices().len(), 2);
    assert!(is_same_cycle(hull.hull_indices(), &vec![1, 2]));
    assert!(hull.is_degenerate());
}

#[test]
fn mod_collinear() {
    let points = points_of(&[(0.1, 0.3), (0.01, 0.03), (1., 3.), (0.3, 0.9)]);
    let hull = convex_hull(&points).unwrap();
    assert_eq!(hull.hull_indices().len(), 2);
    assert!(is_same_cycle(hull.hull_indices(), &vec![1, 2]));
    assert!(hull.is_degenerate());
}

#[test]
fn unit_square_area_and_perimeter() {
    let points = points_of(&[(0.0, 0.0), (1.0, 1.0), (1.0, 0.0), (0.0, 1.0)]);
    let hull = convex_hull(&points).unwrap();
    assert!(is_same_cycle(hull.hull_indices(), &vec![0, 2, 1, 3]));
    assert!(!hull.is_degenerate());
    assert_eq!(hull.area(), Real32(1.0));
    assert_eq!(hull.perimeter(), Real32(4.0));
    let polygon = hull.to_convex_polygon().unwrap();
    assert_eq!(polygon.area(), Real32(1.0));
    assert_eq!(polygon.perimeter(), Real32(4.0));
    let plain = polygon.into_polygon();
    assert_eq!(plain.len(), 4);
    assert!(!plain.is_empty());
    assert_eq!(plain.area(), Real32(1.0));
    assert_eq!(plain.perimeter(), Real32(4.0));
}

#[test]
fn degenerate_hull_is_no_polygon() {
    let points = points_of(&[(0.0, 0.0), (1.0, 1.0), (2.0, 2.0)]);
    let hull = convex_hull(&points).unwrap();
    assert!(hull.is_degenerate());
    assert!(matches!(hull.to_convex_polygon(), Err(GeometryError::DegenerateGeometry)));
    assert_eq!(hull.area(), Real32(0.0));
}

#[test]
fn polygon_of_few_corners() {
    let none = Polygon::<GenericKernel2D<Point32>>::from_points_unchecked(vec![]);
    assert!(none.is_empty());
    assert_eq!(none.area(), Real32(0.0));
    assert_eq!(none.perimeter(), Real32(0.0));
    let triangle = ConvexPolygon::<GenericKernel2D<Point32>>::from_points_unchecked(points_of(&[
        (0.0, 0.0),
        (4.0, 0.0),
        (0.0, 3.0),
    ]));
    assert_eq!(triangle.area(), Real32(6.0));
    assert_eq!(triangle.perimeter(), Real32(12.0));
    assert_eq!(*triangle.polygon.get(1), Point32 { x: Real32(4.0), y: Real32(0.0) });
}

#[test]
fn generic_kernel_primitives() {
    let a = Point32 { x: Real32(3.0), y: Real32(4.0) };
    let b = Point32 { x: Real32(1.0), y: Real32(1.0) };
    let o = Point32 { x: Real32(1.0), y: Real32(0.0) };
    type K = GenericKernel2D<Point32>;
    assert_eq!(K::length_sqr(&a), Real32(25.0));
    assert_eq!(K::length(&a), Real32(5.0));
    assert_eq!(K::distance_sqr(&a, &b), Real32(13.0));
    assert_eq!(K::distance(&a, &o), Real32(20.0f32.sqrt()));
    assert_eq!(K::dot(&a, &b), Real32(7.0));
    assert_eq!(K::cross(&a, &b), Real32(-1.0));
    assert_eq!(K::dot_with_origin(&a, &b, &o), Real32(4.0));
    assert_eq!(K::cross_with_origin(&a, &b, &o), Real32(2.0));
    assert_eq!(K::to_real(Real32(2.5)), Real32(2.5));
}

/// The predicates of the plane on the same points, computed in `f64`, in
/// which the products of the coordinates used here are exact.
struct WidePredicates;

impl Kernel2D for WidePredicates {
    type Point = Point32;
    type Field = Real32;
}

fn ordered(a: f64, b: f64) -> Comparison {
    if a < b {
        Comparison::Less
    } else if a > b {
        Comparison::Greater
    } else {
        Comparison::Equal
    }
}

fn wide(p: &Point32) -> (f64, f64) {
    (p.x.0 as f64, p.y.0 as f64)
}

impl ExactPredicates2D for WidePredicates {
    fn position(_p: Point32) -> Position {
        unreachable!("positions exist in proofs only")
    }

    fn is_same_point(a: &Point32, b: &Point32) -> bool {
        wide(a) == wide(b)
    }

    fn compare_distance(a: &Point32, b: &Point32, to: &Point32) -> Comparison {
        let (a, b, to) = (wide(a), wide(b), wide(to));
        let da = (a.0 - to.0) * (a.0 - to.0) + (a.1 - to.1) * (a.1 - to.1);
        let db = (b.0 - to.0) * (b.0 - to.0) + (b.1 - to.1) * (b.1 - to.1);
        ordered(da, db)
    }

    fn compare_length(a: &Point32, b: &Point32) -> Comparison {
        let (a, b) = (wide(a), wide(b));
        ordered(a.0 * a.0 + a.1 * a.1, b.0 * b.0 + b.1 * b.1)
    }

    fn orientation(a: &Point32, b: &Point32, c: &Point32) -> Orientation2D {
        let (a, b, c) = (wide(a), wide(b), wide(c));
        let val = (b.0 - a.0) * (c.1 - a.1) - (b.1 - a.1) * (c.0 - a.0);
        if val > 0.0 {
            Orientation2D::CounterClockwise
        } else if val < 0.0 {
            Orientation2D::Clockwise
        } else {
            Orientation2D::Collinear
        }
    }
}

impl Operations2D for WidePredicates {
    fn length_sqr_value(a: Point32) -> Real32 {
        GenericKernel2D::<Point32>::length_sqr(&a)
    }

    fn distance_sqr_value(a: Point32, b: Point32) -> Real32 {
        GenericKernel2D::<Point32>::distance_sqr(&a, &b)
    }

    fn dot_value(a: Point32, b: Point32) -> Real32 {
        GenericKernel2D::<Point32>::dot(&a, &b)
    }

    fn dot_with_origin_value(a: Point32, b: Point32, origin: Point32) -> Real32 {
        GenericKernel2D::<Point32>::dot_with_origin(&a, &b, &origin)
    }

    fn cross_value(a: Point32, b: Point32) -> Real32 {
        GenericKernel2D::<Point32>::cross(&a, &b)
    }

    fn cross_with_origin_value(a: Point32, b: Point32, origin: Point32) -> Real32 {
        GenericKernel2D::<Point32>::cross_with_origin(&a, &b, &origin)
    }

    fn length_sqr(a: &Point32) -> Real32 {
        GenericKernel2D::<Point32>::length_sqr(a)
    }

    fn distance_sqr(a: &Point32, b: &Point32) -> Real32 {
        GenericKernel2D::<Point32>::distance_sqr(a, b)
    }

    fn dot(a: &Point32, b: &Point32) -> Real32 {
        GenericKernel2D::<Point32>::dot(a, b)
    }

    fn dot_with_origin(a: &Point32, b: &Point32, origin: &Point32) -> Real32 {
        GenericKernel2D::<Point32>::dot_with_origin(a, b, origin)
    }

    fn cross(a: &Point32, b: &Point32) -> Real32 {
        GenericKernel2D::<Point32>::cross(a, b)
    }

    fn cross_with_origin(a: &Point32, b: &Point32, origin: &Point32) -> Real32 {
        GenericKernel2D::<Point32>::cross_with_origin(a, b, origin)
    }
}

impl RealOperations2D for WidePredicates {
    type RealField = Real32;

    fn real_value(v: Real32) -> Real32 {
        v
    }

    fn length_value(a: Point32) -> Real32 {
        GenericKernel2D::<Point32>::length(&a)
    }

    fn distance_value(a: Point32, b: Point32) -> Real32 {
        GenericKernel2D::<Point32>::distance(&a, &b)
    }

    fn to_real(v: Real32) -> Real32 {
        v
    }

    fn length(a: &Point32) -> Real32 {
        GenericKernel2D::<Point32>::length(a)
    }

    fn distance(a: &Point32, b: &Point32) -> Real32 {
        GenericKernel2D::<Point32>::distance(a, b)
    }
}

#[test]
fn exact_and_approximate_hulls_agree_on_separated_points() {
    let points = points_of(&[
        (0.0, 0.0),
        (8.0, 1.0),
        (10.0, 6.0),
        (4.0, 9.0),
        (-2.0, 5.0),
        (4.0, 4.0),
        (6.0, 3.0),
        (1.0, 4.0),
    ]);
    let approximate = ConvexHull2D::<WidePredicates>::from_points(&points).unwrap();
    let exact = ConvexHull2D::<WidePredicates>::from_points_exact(&points, false).unwrap();
    assert!(is_same_cycle(approximate.hull_indices(), exact.hull_indices()));
    assert!(is_same_cycle(exact.hull_indices(), &vec![0, 1, 2, 3, 4]));
    assert_eq!(approximate.inside_indices(), exact.inside_indices());
    let tolerance = 1e-5 * approximate.perimeter().0;
    assert!((approximate.area().0 - exact.area().0).abs() < tolerance);
    assert!((approximate.perimeter().0 - exact.perimeter().0).abs() < tolerance);
    assert_eq!(exact.area(), Real32(71.0));
}

#[test]
fn hull_is_the_same_on_every_run() {
    let points = points_of(&[(0.1, 0.2), (10.0, -1.0), (5.0, 2.0), (7.0, 7.0), (3.0, 3.0)]);
    let first = convex_hull_impl::<GenericKernel2D<Point32>>(&points).unwrap();
    let second = convex_hull_impl::<GenericKernel2D<Point32>>(&points).unwrap();
    assert_eq!(first, second);
    assert_eq!(first, (vec![1, 3, 0], false));
}

#[test]
fn scalar_operations_are_the_float_operations() {
    let a = Real32(6.0);
    let b = Real32(1.5);
    assert_eq!(a.plus(&b), Real32(7.5));
    assert_eq!(a.minus(&b), Real32(4.5));
    assert_eq!(a.times(&b), Real32(9.0));
    assert_eq!(a.over(&b), Real32(4.0));
    assert!(b.less_than(&a));
    assert!(!a.less_than(&a));
    assert_eq!(Real32(-2.0).abs(), Real32(2.0));
    assert_eq!(Real32(9.0).sqrt(), Real32(3.0));
    assert_eq!(a.max(&b), a);
    assert!(!Real32::is_exact());
    assert!(!Real32(f32::NAN).is_valid());
}

#[test]
fn approximate_triangle_with_a_point_inside_is_not_degenerate() {
    let points = points_of(&[(0.1, 0.2), (10.0, -1.0), (5.0, 2.0), (7.0, 7.0)]);
    let hull = convex_hull(&points).unwrap();
    assert!(is_same_cycle(hull.hull_indices(), &vec![0, 1, 3]));
    assert!(!hull.is_degenerate());
    assert_eq!(hull.inside_indices(), vec![2]);
}

#[test]
fn clustered_points_differ_between_the_two_constructions() {
    let points = points_of(&[(1000000.1, 0.0), (1000000.2, 0.0), (1000000.1, 0.1)]);
    let approximate = ConvexHull2D::<WidePredicates>::from_points(&points).unwrap();
    assert_eq!(approximate.hull_size(), 1);
    assert!(approximate.is_degenerate());
    let exact = ConvexHull2D::<WidePredicates>::from_points_exact(&points, true).unwrap();
    assert_eq!(exact.hull_size(), 3);
    assert!(!exact.is_degenerate());
}

#[test]
fn points_on_a_parabola_are_all_corners() {
    let count = 61;
    let mut coordinates: Vec<(f32, f32)> = Vec::new();
    for i in 0..count {
        let x = i as f32 - 30.0;
        coordinates.push((x, x * x));
    }
    let points = points_of(&coordinates);
    let hull = convex_hull(&points).unwrap();
    assert!(!hull.is_degenerate());
    assert_eq!(hull.hull_size(), count);
    assert!(hull.is_hull_only());
    assert!(hull.inside_indices().is_empty());
    let indices = hull.hull_indices();
    let start = indices.iter().position(|i| *i == 0).unwrap();
    for step in 0..count {
        assert_eq!(indices[(start + step) % count], step);
    }
}

#[test]
fn a_chain_of_ever_closer_corners() {
    // Each corner lies far to one side of all that follow, so that every
    // split leaves all candidates on one side.
    let mut coordinates: Vec<(f32, f32)> = vec![(0.0, 0.0), (1.0, 0.0)];
    let mut x = 1.0f32;
    let mut y = 0.0f32;
    let mut step = 0.5f32;
    for _ in 0..18 {
        y += step;
        x -= step * step;
        step *= 0.5;
        coordinates.push((x, y));
    }
    let points = points_of(&coordinates);
    let hull = convex_hull(&points).unwrap();
    assert!(!hull.is_degenerate());
    assert!(hull.hull_size() >= 3);
    let mut seen = hull.hull_indices().clone();
    seen.sort();
    seen.dedup();
    assert_eq!(seen.len(), hull.hull_size());
}

#[test]
fn tolerance_of_a_set_of_points() {
    let points = points_of(&[(3.0, 4.0), (0.0, 0.0), (1.0, 1.0)]);
    let tolerance = hull_tolerance::<GenericKernel2D<Point32>>(&points, 0, 1);
    assert_eq!(tolerance.0, (5.0f32 * 3.0f32.sqrt()).max(5.0) * f32::EPSILON * 2.0);
    let far = points_of(&[(300.0, 400.0), (300.0, 401.0)]);
    let tolerance = hull_tolerance::<GenericKernel2D<Point32>>(&far, 0, 1);
    assert_eq!(tolerance.0, 500.0 * f32::EPSILON * 2.0);
}

#[test]
fn degenerate_means_less_than_three_corners() {
    let inputs: Vec<Vec<(f32, f32)>> = vec![
        vec![(1.0, 1.0)],
        vec![(0.0, 0.0), (0.0, 0.0)],
        vec![(0.0, 0.0), (5.0, 5.0)],
        vec![(0.0, 0.0), (1.0, 1.0), (2.0, 2.0), (3.0, 3.0)],
        vec![(0.0, 0.0), (4.0, 0.0), (0.0, 3.0), (2.0, 0.0)],
        vec![(0.0, 0.0), (4.0, 0.0), (4.0, 4.0), (0.0, 4.0), (2.0, 2.0)],
        vec![(1000000.1, 0.0), (1000000.2, 0.0), (1000000.1, 0.1)],
    ];
    for coordinates in inputs {
        let points = points_of(&coordinates);
        let hull = convex_hull(&points).unwrap();
        assert_eq!(hull.is_degenerate(), hull.hull_size() < 3);
        assert_eq!(hull.inside_indices().len(), points.len() - hull.hull_size());
        assert_eq!(hull.inside_points().len(), points.len() - hull.hull_size());
    }
}
