use geom2d::algorithms::convex_hull::convex_hull_exact_impl::convex_hull_exact_impl;
use geom2d::algorithms::convex_hull_exact;
use geom2d::algorithms::ConvexHull2D;
use geom2d::common::is_same_cycle;
use geom2d::common::Comparison;
use geom2d::common::GeometryError;
use geom2d::common::Orientation2D;
use geom2d::common::Position;
use geom2d::kernels::GridKernel2D;
use geom2d::traits::ExactPredicates2D;
use geom2d::traits::Kernel2D;

/// Predicates on `f64` pairs, computed in `f64`: exact as long as no
/// intermediate value is rounded, which holds for the inputs used here up to
/// the sign of each result.
struct PlainKernel;

impl Kernel2D for PlainKernel {
    type Point = (f64, f64);
    type Field = f64;
}

fn ordered(a: f64, b: f64) -> Comparison {
    if a < b {
        Comparison::Less
    } else if a > b {
        Comparison::Greater
    } else {
        Comparison::Equal
    }
}

impl ExactPredicates2D for PlainKernel {
    fn position(_p: (f64, f64)) -> Position {
        unreachable!("positions exist in proofs only")
    }

    fn is_same_point(a: &(f64, f64), b: &(f64, f64)) -> bool {
        a == b
    }

    fn compare_distance(a: &(f64, f64), b: &(f64, f64), to: &(f64, f64)) -> Comparison {
        let da = (a.0 - to.0) * (a.0 - to.0) + (a.1 - to.1) * (a.1 - to.1);
        let db = (b.0 - to.0) * (b.0 - to.0) + (b.1 - to.1) * (b.1 - to.1);
        ordered(da, db)
    }

    fn compare_length(a: &(f64, f64), b: &(f64, f64)) -> Comparison {
        ordered(a.0 * a.0 + a.1 * a.1, b.0 * b.0 + b.1 * b.1)
    }

    fn orientation(a: &(f64, f64), b: &(f64, f64), c: &(f64, f64)) -> Orientation2D {
        let val = (b.0 - a.0) * (c.1 - a.1) - (b.1 - a.1) * (c.0 - a.0);
        if val > 0.0 {
            Orientation2D::CounterClockwise
        } else if val < 0.0 {
            Orientation2D::Clockwise
        } else {
            Orientation2D::Collinear
        }
    }
}

fn assert_eq_cycle(a: Vec<usize>, b: Vec<usize>) {
    assert!(!a.is_empty());
    assert!(!b.is_empty());
    let offset = a.iter().position(|x| *x == b[0]).unwrap();
    let rotated: Vec<usize> = a[offset..].iter().chain(a[..offset].iter()).cloned().collect();
    assert_eq!(rotated, b);
}

fn assert_convex_hull_f64(points: &[(f64, f64)], expected: &[usize], include_collinear: bool) {
    let hull = convex_hull_exact_impl::<PlainKernel>(points, include_collinear);
    assert!(hull.is_ok());
    let (hull, degenerate) = hull.unwrap();
    if expected.len() <= 2 {
        assert!(degenerate);
        assert_eq!(hull.len(), expected.len());
        return;
    }
    assert_eq_cycle(hull, expected.to_vec());
}

fn assert_convex_hull_grid(points: &[(i32, i32)], expected: &[usize], include_collinear: bool) {
    let (hull, degenerate) =
        convex_hull_exact_impl::<GridKernel2D>(points, include_collinear).unwrap();
    if expected.len() <= 2 {
        assert!(degenerate);
        assert_eq!(hull.len(), expected.len());
        return;
    }
    assert_eq_cycle(hull, expected.to_vec());
}

#[test]
fn convex_hull_exact_impl_simple_triangle() {
    assert_convex_hull_f64(
        &[(0.1, 0.2), (10.0, -1.0), (5.0, 2.0), (7.0, 7.0)],
        &[0, 1, 3],
        true,
    );
}

#[test]
fn convex_hull_exact_impl_collinear() {
    assert_convex_hull_f64(
        &[(0.125, 0.25), (0.5, 1.0), (1., 2.), (0.25, 0.5)],
        &[0, 2],
        false,
    );
    assert_convex_hull_f64(
        &[(0.125, 0.25), (0.5, 1.0), (1., 2.), (0.25, 0.5)],
        &[2, 1, 3, 0],
        true,
    );
}

#[test]
fn convex_hull_exact_impl_relatively_close_together() {
    assert_convex_hull_f64(
        &[(1000000.1, 0.0), (1000000.2, 0.0), (1000000.1, 0.1)],
        &[0, 1, 2],
        true,
    );
}

#[test]
fn convex_hull_exact_impl_square() {
    assert_convex_hull_f64(
        &[(0.0, 0.0), (1.0, 1.0), (1.0, 0.0), (0.0, 1.0)],
        &[0, 2, 1, 3],
        true,
    );
}

#[test]
fn grid_simple_triangle() {
    let points = [(1, 2), (100, -10), (50, 20), (70, 70)];
    assert_convex_hull_grid(&points, &[0, 1, 3], true);
    let (hull, degenerate) = convex_hull_exact_impl::<GridKernel2D>(&points, false).unwrap();
    assert_eq!(hull, vec![1, 3, 0]);
    assert!(!degenerate);
}

#[test]
fn grid_collinear_keeps_the_two_ends() {
    let points = [(1, 2), (4, 8), (8, 16), (2, 4)];
    let (hull, degenerate) = convex_hull_exact_impl::<GridKernel2D>(&points, false).unwrap();
    assert_eq!(hull, vec![2, 0]);
    assert!(degenerate);
}

#[test]
fn grid_collinear_keeps_all_when_asked() {
    let points = [(1, 2), (4, 8), (8, 16), (2, 4)];
    let (hull, degenerate) = convex_hull_exact_impl::<GridKernel2D>(&points, true).unwrap();
    assert_eq!(hull, vec![2, 1, 3, 0]);
    assert!(degenerate);
}

#[test]
fn grid_square() {
    let points = [(0, 0), (1, 1), (1, 0), (0, 1)];
    let (hull, degenerate) = convex_hull_exact_impl::<GridKernel2D>(&points, true).unwrap();
    assert_eq!(hull, vec![1, 3, 0, 2]);
    assert!(!degenerate);
}

#[test]
fn grid_close_together_is_a_triangle() {
    let points = [(10000001, 0), (10000002, 0), (10000001, 1)];
    assert_convex_hull_grid(&points, &[0, 1, 2], true);
    let (_, degenerate) = convex_hull_exact_impl::<GridKernel2D>(&points, true).unwrap();
    assert!(!degenerate);
}

#[test]
fn grid_single_point() {
    let (hull, degenerate) = convex_hull_exact_impl::<GridKernel2D>(&[(5, -7)], false).unwrap();
    assert_eq!(hull, vec![0]);
    assert!(degenerate);
}

#[test]
fn grid_coincident_points() {
    let points = [(3, 3), (3, 3), (3, 3)];
    let (hull, degenerate) = convex_hull_exact_impl::<GridKernel2D>(&points, true).unwrap();
    assert_eq!(hull.len(), 1);
    assert!(degenerate);
}

#[test]
fn grid_points_in_line_on_the_last_ray() {
    // Two candidates share a ray from the pivot that is not the first ray.
    let points = [(0, 0), (10, 0), (9, -1), (8, -2)];
    let result = convex_hull_exact_impl::<GridKernel2D>(&points, true);
    assert!(result.is_ok());
    let (hull, degenerate) = result.unwrap();
    assert_eq!(hull, vec![1, 0, 3, 2]);
    assert!(!degenerate);
}

#[test]
fn exact_empty_input() {
    let none: [(i32, i32); 0] = [];
    assert!(matches!(
        convex_hull_exact_impl::<GridKernel2D>(&none, false),
        Err(GeometryError::InputIsEmpty)
    ));
    assert!(matches!(convex_hull_exact(&none, true), Err(GeometryError::InputIsEmpty)));
}

#[test]
fn exact_hull_accessors() {
    let points = [(0, 0), (4, 0), (4, 4), (0, 4), (2, 2), (1, 3)];
    let hull = convex_hull_exact(&points, false).unwrap();
    assert!(!hull.is_degenerate());
    assert_eq!(hull.hull_size(), 4);
    assert!(!hull.is_hull_only());
    assert_eq_cycle(hull.hull_indices().clone(), vec![0, 1, 2, 3]);
    let boundary: Vec<(i32, i32)> = hull.hull_points().into_iter().cloned().collect();
    assert_eq!(boundary.len(), 4);
    let owned = ConvexHull2D::<GridKernel2D>::from_points_owned_exact(points.to_vec(), false)
        .unwrap();
    assert_eq!(owned.hull_indices(), hull.hull_indices());
}

/// Predicates that contradict one another: every turn is clockwise.
struct AllClockwise;

impl Kernel2D for AllClockwise {
    type Point = (f64, f64);
    type Field = f64;
}

impl ExactPredicates2D for AllClockwise {
    fn position(_p: (f64, f64)) -> Position {
        unreachable!("positions exist in proofs only")
    }

    fn is_same_point(a: &(f64, f64), b: &(f64, f64)) -> bool {
        a == b
    }

    fn compare_distance(a: &(f64, f64), b: &(f64, f64), to: &(f64, f64)) -> Comparison {
        PlainKernel::compare_distance(a, b, to)
    }

    fn compare_length(a: &(f64, f64), b: &(f64, f64)) -> Comparison {
        PlainKernel::compare_length(a, b)
    }

    fn orientation(_a: &(f64, f64), _b: &(f64, f64), _c: &(f64, f64)) -> Orientation2D {
        Orientation2D::Clockwise
    }
}

/// Predicates that contradict one another: a turn is counter-clockwise if it
/// starts at the origin and goes on to another point, and straight else.
struct LeftFromTheOrigin;

impl Kernel2D for LeftFromTheOrigin {
    type Point = (f64, f64);
    type Field = f64;
}

impl ExactPredicates2D for LeftFromTheOrigin {
    fn position(_p: (f64, f64)) -> Position {
        unreachable!("positions exist in proofs only")
    }

    fn is_same_point(a: &(f64, f64), b: &(f64, f64)) -> bool {
        a == b
    }

    fn compare_distance(a: &(f64, f64), b: &(f64, f64), to: &(f64, f64)) -> Comparison {
        PlainKernel::compare_distance(a, b, to)
    }

    fn compare_length(a: &(f64, f64), b: &(f64, f64)) -> Comparison {
        PlainKernel::compare_length(a, b)
    }

    fn orientation(a: &(f64, f64), b: &(f64, f64), _c: &(f64, f64)) -> Orientation2D {
        if *a == (0.0, 0.0) && *b != (0.0, 0.0) {
            Orientation2D::CounterClockwise
        } else {
            Orientation2D::Collinear
        }
    }
}

/// Predicates that contradict one another: a turn is counter-clockwise if it
/// goes on to the origin, and straight else.
struct LeftToTheOrigin;

impl Kernel2D for LeftToTheOrigin {
    type Point = (f64, f64);
    type Field = f64;
}

impl ExactPredicates2D for LeftToTheOrigin {
    fn position(_p: (f64, f64)) -> Position {
        unreachable!("positions exist in proofs only")
    }

    fn is_same_point(a: &(f64, f64), b: &(f64, f64)) -> bool {
        a == b
    }

    fn compare_distance(a: &(f64, f64), b: &(f64, f64), to: &(f64, f64)) -> Comparison {
        PlainKernel::compare_distance(a, b, to)
    }

    fn compare_length(a: &(f64, f64), b: &(f64, f64)) -> Comparison {
        PlainKernel::compare_length(a, b)
    }

    fn orientation(_a: &(f64, f64), b: &(f64, f64), _c: &(f64, f64)) -> Orientation2D {
        if *b == (0.0, 0.0) {
            Orientation2D::CounterClockwise
        } else {
            Orientation2D::Collinear
        }
    }
}

fn conflict_text(result: Result<(Vec<usize>, bool), GeometryError>) -> String {
    match result {
        Err(GeometryError::ExactPredicateReturnedConflictingResult(text)) => text,
        other => panic!("expected contradicting predicates, got {:?}", other),
    }
}

#[test]
fn contradicting_predicates_in_the_scan_clockwise() {
    let points = [(0.0, 0.0), (10.0, 0.0), (9.0, 1.0), (8.0, 3.0)];
    let text = conflict_text(convex_hull_exact_impl::<AllClockwise>(&points, false));
    assert_eq!(text, "Convex Hull: Graham Scan loop: Clockwise case.");
}

#[test]
fn contradicting_predicates_in_the_scan_collinear() {
    let points = [(0.0, 0.0), (10.0, 0.0), (9.0, 0.0), (8.0, 0.0)];
    let text = conflict_text(convex_hull_exact_impl::<LeftFromTheOrigin>(&points, false));
    assert_eq!(text, "Convex Hull: Graham Scan loop: Collinear case.");
}

#[test]
fn contradicting_predicates_in_the_sort() {
    let points = [(0.0, 0.0), (5.0, 0.0), (1.0, 0.0), (2.0, 0.0)];
    let text = conflict_text(convex_hull_exact_impl::<LeftToTheOrigin>(&points, false));
    assert_eq!(text, "Convex Hull: Graham Scan sorting: Clockwise compared to rightmost.");
}

#[test]
fn error_messages() {
    assert_eq!(
        GeometryError::InputIsEmpty.message(),
        "Input is empty. Expected at least one element."
    );
    assert_eq!(
        GeometryError::InputValueInvalidForField.message(),
        "Input contains an invalid value (Most likely NaN or infinite value)"
    );
    assert_eq!(
        GeometryError::ExactPredicateReturnedConflictingResult("scan".to_string()).message(),
        "Exact predicate evaluation returned conflicting results. Details: scan"
    );
    assert_eq!(
        GeometryError::DegenerateGeometry.message(),
        "The geometry is degenerate and cannot be processed."
    );
    assert_eq!(
        GeometryError::NotConvexGeometry.message(),
        "The geometry is not convex, which is required for this operation."
    );
    assert_eq!(
        GeometryError::InputHasTooFewPoints.message(),
        "Input has too few points for this operation."
    );
}

#[test]
fn same_cycle_up_to_the_starting_place() {
    assert!(is_same_cycle(&vec![1, 3, 0, 2], &vec![0, 2, 1, 3]));
    assert!(is_same_cycle(&vec![4], &vec![4]));
    assert!(is_same_cycle(&vec![], &vec![]));
    assert!(!is_same_cycle(&vec![1, 3, 0, 2], &vec![0, 1, 2, 3]));
    assert!(!is_same_cycle(&vec![1, 2], &vec![1, 2, 3]));
    assert!(is_same_cycle(&vec![1, 2, 1, 3], &vec![1, 3, 1, 2]));
}

#[test]
fn grid_predicates() {
    assert_eq!(
        GridKernel2D::orientation(&(0, 0), &(1, 0), &(0, 1)),
        Orientation2D::CounterClockwise
    );
    assert_eq!(GridKernel2D::orientation(&(0, 0), &(0, 1), &(1, 0)), Orientation2D::Clockwise);
    assert_eq!(GridKernel2D::orientation(&(0, 0), &(2, 2), &(5, 5)), Orientation2D::Collinear);
    assert_eq!(
        GridKernel2D::orientation(
            &(i32::MIN, i32::MIN),
            &(i32::MAX, i32::MIN),
            &(i32::MAX, i32::MAX)
        ),
        Orientation2D::CounterClockwise
    );
    assert_eq!(GridKernel2D::compare_distance(&(1, 1), &(3, 0), &(0, 0)), Comparison::Less);
    assert_eq!(GridKernel2D::compare_distance(&(3, 4), &(5, 0), &(0, 0)), Comparison::Equal);
    assert_eq!(
        GridKernel2D::compare_distance(&(i32::MIN, 0), &(0, 0), &(i32::MAX, 0)),
        Comparison::Greater
    );
    assert_eq!(GridKernel2D::compare_length(&(0, -7), &(6, 0)), Comparison::Greater);
    assert!(GridKernel2D::is_same_point(&(2, 3), &(2, 3)));
    assert!(!GridKernel2D::is_same_point(&(2, 3), &(3, 2)));
    assert_eq!(Orientation2D::Clockwise.reverse(), Orientation2D::CounterClockwise);
    assert_eq!(Comparison::Less.reverse(), Comparison::Greater);
}

#[test]
fn grid_hull_without_collinear_points_drops_them_on_the_closing_edge() {
    let points = [(0, 0), (10, 0), (9, -1), (8, -2)];
    let (hull, degenerate) = convex_hull_exact_impl::<GridKernel2D>(&points, false).unwrap();
    assert_eq!(hull, vec![1, 0, 3]);
    assert!(!degenerate);
    let points = [(0, 0), (4, 0), (0, 3), (2, 0)];
    let (hull, degenerate) = convex_hull_exact_impl::<GridKernel2D>(&points, false).unwrap();
    assert!(is_same_cycle(&hull, &vec![0, 1, 2]));
    assert!(!degenerate);
    let (kept, _) = convex_hull_exact_impl::<GridKernel2D>(&points, true).unwrap();
    assert!(is_same_cycle(&kept, &vec![0, 3, 1, 2]));
    let points = [(0, 0), (8, 0), (0, 6), (6, 0), (4, 0), (2, 0), (4, 0)];
    let (hull, _) = convex_hull_exact_impl::<GridKernel2D>(&points, false).unwrap();
    assert!(is_same_cycle(&hull, &vec![0, 1, 2]));
}

#[test]
fn grid_hull_of_a_larger_set() {
    let points = [
        (0, 0),
        (8, 1),
        (10, 6),
        (4, 9),
        (-2, 5),
        (4, 4),
        (6, 3),
        (1, 4),
        (4, 9),
        (9, 3),
        (3, 6),
    ];
    let hull = convex_hull_exact(&points, false).unwrap();
    assert!(is_same_cycle(hull.hull_indices(), &vec![0, 1, 9, 2, 3, 4]));
    assert_eq!(hull.inside_indices(), vec![5, 6, 7, 8, 10]);
    let kept = convex_hull_exact(&points, true).unwrap();
    assert!(is_same_cycle(kept.hull_indices(), &vec![0, 1, 9, 2, 3, 4]));
}

#[test]
fn exact_hull_is_the_same_on_every_run() {
    let points = [(1, 2), (100, -10), (50, 20), (70, 70), (30, 30)];
    let first = convex_hull_exact_impl::<GridKernel2D>(&points, false).unwrap();
    let second = convex_hull_exact_impl::<GridKernel2D>(&points, false).unwrap();
    assert_eq!(first, second);
}

fn cross(a: (i32, i32), b: (i32, i32), c: (i32, i32)) -> i64 {
    let (ax, ay) = ((a.0 - c.0) as i64, (a.1 - c.1) as i64);
    let (bx, by) = ((b.0 - c.0) as i64, (b.1 - c.1) as i64);
    ax * by - ay * bx
}

fn dot(a: (i32, i32), b: (i32, i32), c: (i32, i32)) -> i64 {
    let (ax, ay) = ((a.0 - c.0) as i64, (a.1 - c.1) as i64);
    let (bx, by) = ((b.0 - c.0) as i64, (b.1 - c.1) as i64);
    ax * bx + ay * by
}

#[test]
fn exact_hull_leaves_no_point_outside() {
    let mut points: Vec<(i32, i32)> = Vec::new();
    let mut seed: i64 = 12345;
    for _ in 0..200 {
        seed = (seed * 1103515245 + 12345) % 2147483648;
        let x = (seed % 41) as i32 - 20;
        seed = (seed * 1103515245 + 12345) % 2147483648;
        let y = (seed % 41) as i32 - 20;
        points.push((x, y));
    }
    for include_collinear in [false, true] {
        let (hull, degenerate) =
            convex_hull_exact_impl::<GridKernel2D>(&points, include_collinear).unwrap();
        assert!(!degenerate);
        assert!(hull.len() >= 3);
        let m = hull.len();
        for q in 0..points.len() {
            let mut on_boundary = false;
            let mut strictly_inside = true;
            for i in 0..m {
                let a = points[hull[i]];
                let b = points[hull[(i + 1) % m]];
                let side = cross(a, b, points[q]);
                assert!(side >= 0);
                if side == 0 {
                    strictly_inside = false;
                    if dot(a, b, points[q]) <= 0 {
                        on_boundary = true;
                    }
                }
            }
            assert!(on_boundary || strictly_inside);
        }
        for i in 0..m {
            let turn =
                cross(points[hull[(i + m - 1) % m]], points[hull[i]], points[hull[(i + 1) % m]]);
            if include_collinear {
                assert!(turn >= 0);
            } else {
                assert!(turn > 0);
            }
        }
        if !include_collinear {
            for k in 0..m {
                for i in 0..m {
                    for j in 0..m {
                        if i != k && j != k && i != j {
                            let (a, b, c) = (points[hull[i]], points[hull[j]], points[hull[k]]);
                            assert!(!(cross(a, b, c) == 0 && dot(a, b, c) <= 0));
                        }
                    }
                }
            }
        }
        let mut seen = hull.clone();
        seen.sort();
        seen.dedup();
        assert_eq!(seen.len(), hull.len());
    }
}

#[test]
fn exact_triangle_with_a_point_inside_is_not_degenerate() {
    let points = [(0.1, 0.2), (10.0, -1.0), (5.0, 2.0), (7.0, 7.0)];
    let (hull, degenerate) = convex_hull_exact_impl::<PlainKernel>(&points, false).unwrap();
    assert!(is_same_cycle(&hull, &vec![0, 1, 3]));
    assert!(!degenerate);
}

fn lies_on_boundary(points: &[(i32, i32)], hull: &[usize], q: usize) -> bool {
    let m = hull.len();
    (0..m).any(|i| {
        let a = points[hull[i]];
        let b = points[hull[(i + 1) % m]];
        cross(a, b, points[q]) == 0 && dot(a, b, points[q]) <= 0
    })
}

#[test]
fn exact_hull_with_collinear_points_holds_the_whole_boundary() {
    let mut seed: i64 = 777;
    for round in 0..60 {
        let side = 3 + (round % 5) as i64;
        let count = 5 + (round % 17);
        let mut points: Vec<(i32, i32)> = Vec::new();
        for _ in 0..count {
            seed = (seed * 1103515245 + 12345) % 2147483648;
            let x = (seed % side) as i32;
            seed = (seed * 1103515245 + 12345) % 2147483648;
            let y = (seed % side) as i32;
            points.push((x, y));
        }
        let (hull, degenerate) = convex_hull_exact_impl::<GridKernel2D>(&points, true).unwrap();
        let (small, same_mark) = convex_hull_exact_impl::<GridKernel2D>(&points, false).unwrap();
        assert_eq!(degenerate, same_mark);
        for q in 0..points.len() {
            if degenerate || lies_on_boundary(&points, &hull, q) {
                assert!(hull.iter().any(|h| points[*h] == points[q]));
            }
            if !degenerate {
                assert_eq!(
                    lies_on_boundary(&points, &hull, q),
                    lies_on_boundary(&points, &small, q)
                );
            }
        }
        if degenerate {
            assert!(small.len() <= 2);
        } else {
            let m = small.len();
            for i in 0..m {
                let turn = cross(
                    points[small[(i + m - 1) % m]],
                    points[small[i]],
                    points[small[(i + 1) % m]],
                );
                assert!(turn > 0);
            }
        }
        for h in &small {
            assert!(hull.iter().any(|k| points[*k] == points[*h]));
        }
    }
}
