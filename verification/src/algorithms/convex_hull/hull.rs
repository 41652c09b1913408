use vstd::prelude::*;
use crate::algorithms::convex_hull::approximate_model::all_valid;
use crate::algorithms::convex_hull::approximate_model::approximate_degenerate;
use crate::algorithms::convex_hull::approximate_model::approximate_hull;
use crate::algorithms::convex_hull::convex_hull_exact_impl::convex_hull_exact_impl;
use crate::algorithms::convex_hull::convex_hull_impl::convex_hull_impl;
use crate::algorithms::convex_hull::exact_model::is_exact_hull_of;
use crate::algorithms::convex_hull::exact_model::positions;
use crate::algorithms::convex_hull::hull_shape::is_index_list;
use crate::common::error::GeometryError;
use crate::primitives::convex_polygon::ConvexPolygon;
use crate::primitives::polygon::area_of;
use crate::primitives::polygon::edge_length_sum;
use crate::primitives::polygon::fan_area;
use crate::primitives::polygon::perimeter_of;
use crate::traits::kernel::DefaultKernel;
use crate::traits::kernel::ExactPredicates2D;
use crate::traits::kernel::Kernel2D;
use crate::traits::kernel::Operations2D;
use crate::traits::kernel::RealOperations2D;
use crate::traits::number::FieldNumber;
use crate::traits::number::two;
use crate::traits::point2d::Point2D;
use std::borrow::Cow;

verus! {

/// The indices below `n` that `hull` does not hold, in increasing order.
pub open spec fn inside_upto(hull: Seq<usize>, n: int) -> Seq<usize>
    decreases n,
{
    if n <= 0 {
        Seq::empty()
    } else if hull.contains((n - 1) as usize) {
        inside_upto(hull, n - 1)
    } else {
        inside_upto(hull, n - 1).push((n - 1) as usize)
    }
}

/// The inside indices are increasing, and they are exactly the indices below
/// `n` that the hull does not hold.
pub proof fn lemma_inside_upto(hull: Seq<usize>, n: int)
    requires
        0 <= n <= usize::MAX,
    ensures
        inside_upto(hull, n).len() <= n,
        forall|i: int, j: int|
            0 <= i < j < inside_upto(hull, n).len() ==> #[trigger] inside_upto(hull, n)[i]
                < #[trigger] inside_upto(hull, n)[j],
        forall|k: int|
            0 <= k < inside_upto(hull, n).len() ==> #[trigger] inside_upto(hull, n)[k] < n
                && !hull.contains(inside_upto(hull, n)[k]),
        forall|i: usize|
            i < n ==> (#[trigger] inside_upto(hull, n).contains(i) <==> !hull.contains(i)),
    decreases n,
{
    if n > 0 {
        lemma_inside_upto(hull, n - 1);
        let rest = inside_upto(hull, n - 1);
        let all = inside_upto(hull, n);
        assert forall|i: usize| i < n implies (#[trigger] all.contains(i) <==> !hull.contains(
            i,
        )) by {
            if i < n - 1 {
                if rest.contains(i) {
                    let at = choose|at: int| 0 <= at < rest.len() && rest[at] == i;
                    assert(all[at] == i);
                }
                if all.contains(i) {
                    let at = choose|at: int| 0 <= at < all.len() && all[at] == i;
                    assert(rest[at] == i);
                }
            } else {
                if !hull.contains(i) {
                    assert(all[all.len() - 1] == i);
                }
                if all.contains(i) {
                    let at = choose|at: int| 0 <= at < all.len() && all[at] == i;
                    if hull.contains(i) {
                        assert(rest[at] < n - 1);
                    }
                }
            }
        }
    }
}

/// Which indices are left inside depends only on which indices below `n` the
/// hull holds.
pub proof fn lemma_inside_by_entries(a: Seq<usize>, b: Seq<usize>, n: int)
    requires
        forall|k: usize| k < n ==> (a.contains(k) <==> b.contains(k)),
    ensures
        inside_upto(a, n) == inside_upto(b, n),
    decreases n,
{
    if n > 0 {
        lemma_inside_by_entries(a, b, n - 1);
    }
}

/// A list of indices below `n`, none twice, leaves inside as many of the
/// indices below `n` as it does not hold: `n` less its length.
pub proof fn lemma_inside_count(hull: Seq<usize>, n: int)
    requires
        0 <= n <= usize::MAX,
        hull.no_duplicates(),
        forall|i: int| 0 <= i < hull.len() ==> #[trigger] hull[i] < n,
    ensures
        inside_upto(hull, n).len() == n - hull.len(),
    decreases n,
{
    if n == 0 {
        if hull.len() > 0 {
            assert(hull[0] < 0);
        }
    } else {
        let top = (n - 1) as usize;
        if hull.contains(top) {
            let at = choose|at: int| 0 <= at < hull.len() && hull[at] == top;
            let rest = hull.remove(at);
            assert forall|i: int| 0 <= i < rest.len() implies #[trigger] rest[i] < n - 1 by {
                if i < at {
                    assert(rest[i] == hull[i]);
                } else {
                    assert(rest[i] == hull[i + 1]);
                }
            }
            assert(rest.no_duplicates()) by {
                assert forall|i: int, j: int|
                    0 <= i < rest.len() && 0 <= j < rest.len() && i != j implies rest[i]
                    != rest[j] by {
                    let x = if i < at {
                        i
                    } else {
                        i + 1
                    };
                    let y = if j < at {
                        j
                    } else {
                        j + 1
                    };
                    assert(rest[i] == hull[x]);
                    assert(rest[j] == hull[y]);
                }
            }
            assert forall|k: usize| k < n - 1 implies (hull.contains(k) <==> rest.contains(
                k,
            )) by {
                if hull.contains(k) {
                    let i = choose|i: int| 0 <= i < hull.len() && hull[i] == k;
                    if i < at {
                        assert(rest[i] == k);
                    } else {
                        assert(rest[i - 1] == k);
                    }
                }
                if rest.contains(k) {
                    let i = choose|i: int| 0 <= i < rest.len() && rest[i] == k;
                    if i < at {
                        assert(hull[i] == k);
                    } else {
                        assert(hull[i + 1] == k);
                    }
                }
            }
            lemma_inside_by_entries(hull, rest, n - 1);
            lemma_inside_count(rest, n - 1);
        } else {
            assert forall|i: int| 0 <= i < hull.len() implies #[trigger] hull[i] < n - 1 by {
                if hull[i] == top {
                    assert(hull.contains(top));
                }
            }
            lemma_inside_count(hull, n - 1);
        }
    }
}

/// The points that a hull holds, lent or kept, in their order.
pub open spec fn held<'a, P: Clone>(points: Cow<'a, [P]>) -> Seq<P> {
    match points {
        Cow::Borrowed(lent) => lent@,
        Cow::Owned(kept) => kept@,
    }
}

/// The points that a hull holds, as a slice.
fn as_slice<'a, 'b, P: Clone>(points: &'b Cow<'a, [P]>) -> (slice: &'b [P])
    ensures
        slice@ == held(*points),
{
    match points {
        Cow::Borrowed(lent) => lent,
        Cow::Owned(kept) => kept.as_slice(),
    }
}

/// The convex hull of a set of points: the points, the indices of those on
/// the boundary of the hull, counter-clockwise, and whether the hull is
/// degenerate (all points on one line or in one place).
pub struct ConvexHull2D<'a, K: Kernel2D> where K::Point: Clone {
    hull_indices: Vec<usize>,
    points: Cow<'a, [K::Point]>,
    degenerate: bool,
}

impl<'a, K: Kernel2D> ConvexHull2D<'a, K> where K::Point: Clone {
    /// The hull is a non-empty list of indices into the points, none twice.
    #[verifier::type_invariant]
    spec fn well_formed(self) -> bool {
        is_index_list(self.hull_indices@, held(self.points).len() as int)
    }

    /// The points that the hull was built from.
    pub closed spec fn points(self) -> Seq<K::Point> {
        held(self.points)
    }

    /// The indices of the points on the boundary of the hull, in order.
    pub closed spec fn indices(self) -> Seq<usize> {
        self.hull_indices@
    }

    /// Whether the hull is degenerate.
    pub closed spec fn degenerate(self) -> bool {
        self.degenerate
    }

    /// The points on the boundary of the hull, in order.
    pub open spec fn corners(self) -> Seq<K::Point> {
        Seq::new(self.indices().len(), |i: int| self.points()[self.indices()[i] as int])
    }

    /// The number of points on the boundary of the hull.
    pub fn hull_size(&self) -> (n: usize)
        ensures
            n == self.indices().len(),
            n >= 1,
    {
        proof {
            use_type_invariant(self);
        }
        self.hull_indices.len()
    }

    /// Whether every point is on the boundary of the hull.
    pub fn is_hull_only(&self) -> (b: bool)
        ensures
            b == (self.indices().len() == self.points().len()),
    {
        self.hull_indices.len() == as_slice(&self.points).len()
    }

    /// The indices of the points on the boundary of the hull, in order: a
    /// non-empty list of indices into the points in which none occurs twice.
    pub fn hull_indices(&self) -> (indices: &Vec<usize>)
        ensures
            indices@ == self.indices(),
            is_index_list(indices@, self.points().len() as int),
            self.points().len() <= usize::MAX,
    {
        proof {
            use_type_invariant(self);
        }
        let count = as_slice(&self.points).len();
        &self.hull_indices
    }

    /// Whether the hull is degenerate.
    pub fn is_degenerate(&self) -> (b: bool)
        ensures
            b == self.degenerate(),
    {
        self.degenerate
    }

    /// The points on the boundary of the hull, in order.
    pub fn hull_points(&self) -> (boundary: Vec<&K::Point>)
        ensures
            boundary.len() == self.indices().len(),
            forall|i: int|
                0 <= i < boundary.len() ==> *#[trigger] boundary[i] == self.points()[self.indices()[i] as int],
    {
        proof {
            use_type_invariant(self);
        }
        let points = as_slice(&self.points);
        let mut boundary: Vec<&K::Point> = Vec::new();
        let mut i: usize = 0;
        while i < self.hull_indices.len()
            invariant
                i <= self.hull_indices.len(),
                points@ == held(self.points),
                is_index_list(self.hull_indices@, held(self.points).len() as int),
                boundary.len() == i,
                forall|j: int|
                    0 <= j < i ==> *#[trigger] boundary[j] == held(self.points)[self.hull_indices@[j] as int],
            decreases self.hull_indices.len() - i,
        {
            boundary.push(&points[self.hull_indices[i]]);
            i = i + 1;
        }
        boundary
    }

    /// The indices of the points that are not on the boundary of the hull,
    /// in increasing order. They are computed anew by every call.
    pub fn inside_indices(&self) -> (inside: Vec<usize>)
        ensures
            inside@ == inside_upto(self.indices(), self.points().len() as int),
            inside.len() == self.points().len() - self.indices().len(),
            self.points().len() <= usize::MAX,
    {
        proof {
            use_type_invariant(self);
        }
        let n = as_slice(&self.points).len();
        proof {
            lemma_inside_count(self.hull_indices@, n as int);
        }
        let mut on_hull: Vec<bool> = Vec::new();
        let mut i: usize = 0;
        while i < n
            invariant
                i <= n,
                on_hull.len() == i,
                forall|j: int| 0 <= j < i ==> !#[trigger] on_hull[j],
            decreases n - i,
        {
            on_hull.push(false);
            i = i + 1;
        }
        let mut k: usize = 0;
        while k < self.hull_indices.len()
            invariant
                k <= self.hull_indices.len(),
                on_hull.len() == n,
                n == held(self.points).len(),
                is_index_list(self.hull_indices@, n as int),
                forall|j: int|
                    0 <= j < n ==> (#[trigger] on_hull[j] <==> self.hull_indices@.take(
                        k as int,
                    ).contains(j as usize)),
            decreases self.hull_indices.len() - k,
        {
            let ghost marked = self.hull_indices@.take(k as int);
            let ghost next = self.hull_indices@.take(k + 1);
            let index = self.hull_indices[k];
            on_hull.set(index, true);
            proof {
                assert(next =~= marked.push(index));
                assert forall|j: int| 0 <= j < n implies (#[trigger] on_hull[j] <==> next.contains(
                    j as usize,
                )) by {
                    if j == index {
                        assert(next[k as int] == index);
                    } else if marked.contains(j as usize) {
                        let at = choose|at: int| 0 <= at < marked.len() && marked[at] == j as usize;
                        assert(next[at] == j as usize);
                    } else if next.contains(j as usize) {
                        let at = choose|at: int| 0 <= at < next.len() && next[at] == j as usize;
                        assert(marked[at] == j as usize);
                    }
                }
            }
            k = k + 1;
        }
        proof {
            assert(self.hull_indices@.take(k as int) =~= self.hull_indices@);
        }
        let mut inside: Vec<usize> = Vec::new();
        let mut i: usize = 0;
        while i < n
            invariant
                i <= n,
                on_hull.len() == n,
                n == held(self.points).len(),
                forall|j: int|
                    0 <= j < n ==> (#[trigger] on_hull[j] <==> self.hull_indices@.contains(
                        j as usize,
                    )),
                inside@ == inside_upto(self.hull_indices@, i as int),
            decreases n - i,
        {
            if !on_hull[i] {
                inside.push(i);
            }
            i = i + 1;
        }
        inside
    }

    /// The points that are not on the boundary of the hull, in the order of
    /// their indices.
    pub fn inside_points(&self) -> (inside: Vec<&K::Point>)
        ensures
            inside.len() == inside_upto(self.indices(), self.points().len() as int).len(),
            forall|k: int|
                0 <= k < inside.len() ==> *#[trigger] inside[k] == self.points()[inside_upto(
                    self.indices(),
                    self.points().len() as int,
                )[k] as int],
    {
        let indices = self.inside_indices();
        let points = as_slice(&self.points);
        let n = points.len();
        proof {
            lemma_inside_upto(self.hull_indices@, n as int);
        }
        let mut inside: Vec<&K::Point> = Vec::new();
        let mut k: usize = 0;
        while k < indices.len()
            invariant
                k <= indices.len(),
                points@ == held(self.points),
                inside.len() == k,
                forall|j: int| 0 <= j < indices.len() ==> #[trigger] indices[j] < points@.len(),
                forall|j: int| 0 <= j < k ==> *#[trigger] inside[j] == points@[indices[j] as int],
            decreases indices.len() - k,
        {
            inside.push(&points[indices[k]]);
            k = k + 1;
        }
        inside
    }
}

impl<'a, K: Operations2D> ConvexHull2D<'a, K> where K::Field: FieldNumber, K::Point: Clone {
    /// The area of the hull: the sum of the signed areas of the triangles of
    /// the fan from the first point on the boundary.
    pub fn area(&self) -> (area: K::Field)
        ensures
            area == area_of::<K>(self.corners()),
    {
        proof {
            use_type_invariant(self);
        }
        let points = as_slice(&self.points);
        let one = K::Field::one();
        let half_of = one.plus(&one);
        let mut area = K::Field::zero();
        let n = self.hull_indices.len();
        if n >= 3 {
            let mut i: usize = 1;
            while i < n - 1
                invariant
                    1 <= i <= n - 1,
                    n == self.hull_indices.len(),
                    points@ == held(self.points),
                    is_index_list(self.hull_indices@, held(self.points).len() as int),
                    half_of == two::<K::Field>(),
                    area == fan_area::<K>(self.corners(), i as int),
                decreases n - i,
            {
                let a = &points[self.hull_indices[i]];
                let b = &points[self.hull_indices[i + 1]];
                let origin = &points[self.hull_indices[0]];
                area = area.plus(&K::cross_with_origin(a, b, origin).over(&half_of));
                i = i + 1;
            }
        }
        area
    }
}

impl<'a, K: RealOperations2D> ConvexHull2D<'a, K> where K::Point: Clone {
    /// The length of the boundary of the hull.
    pub fn perimeter(&self) -> (perimeter: K::RealField)
        ensures
            perimeter == perimeter_of::<K>(self.corners()),
    {
        proof {
            use_type_invariant(self);
        }
        let points = as_slice(&self.points);
        let mut perimeter = K::RealField::zero();
        let n = self.hull_indices.len();
        let mut i: usize = 0;
        while i < n
            invariant
                i <= n,
                n == self.hull_indices.len(),
                points@ == held(self.points),
                is_index_list(self.hull_indices@, held(self.points).len() as int),
                perimeter == edge_length_sum::<K>(self.corners(), i as int),
            decreases n - i,
        {
            let next = if i + 1 < n {
                i + 1
            } else {
                0
            };
            proof {
                if i + 1 < n {
                    assert((i + 1) % (n as int) == i + 1) by (nonlinear_arith)
                        requires
                            0 <= i + 1 < n,
                    ;
                } else {
                    assert((i + 1) % (n as int) == 0) by (nonlinear_arith)
                        requires
                            i + 1 == n,
                            n > 0,
                    ;
                }
            }
            let a = &points[self.hull_indices[i]];
            let b = &points[self.hull_indices[next]];
            perimeter = perimeter.plus(&K::distance(a, b));
            i = i + 1;
        }
        perimeter
    }
}

impl<'a, K: Kernel2D> ConvexHull2D<'a, K> where K::Point: Clone {
    /// The hull as a convex polygon, with copies of the points on its
    /// boundary as corners. A degenerate hull is no polygon.
    pub fn to_convex_polygon(&self) -> (r: Result<ConvexPolygon<K>, GeometryError>)
        ensures
            self.degenerate() ==> (r matches Err(e) && e is DegenerateGeometry),
            !self.degenerate() ==> (r matches Ok(convex) && convex.polygon.points.len()
                == self.indices().len() && forall|i: int|
                0 <= i < self.indices().len() ==> cloned(
                    #[trigger] self.corners()[i],
                    convex.polygon.points[i],
                )),
    {
        proof {
            use_type_invariant(self);
        }
        if self.degenerate {
            return Err(GeometryError::DegenerateGeometry);
        }
        let points = as_slice(&self.points);
        let mut corners: Vec<K::Point> = Vec::new();
        let mut i: usize = 0;
        while i < self.hull_indices.len()
            invariant
                i <= self.hull_indices.len(),
                points@ == held(self.points),
                is_index_list(self.hull_indices@, held(self.points).len() as int),
                corners.len() == i,
                forall|j: int| 0 <= j < i ==> cloned(#[trigger] self.corners()[j], corners@[j]),
            decreases self.hull_indices.len() - i,
        {
            corners.push(points[self.hull_indices[i]].clone());
            i = i + 1;
        }
        Ok(ConvexPolygon::from_points_unchecked(corners))
    }

    /// The same hull, with a copy of the points in place of borrowed ones.
    pub fn to_owned(self) -> (owned: ConvexHull2D<'static, K>)
        ensures
            owned.indices() == self.indices(),
            owned.degenerate() == self.degenerate(),
            owned.points().len() == self.points().len(),
            forall|i: int|
                0 <= i < self.points().len() ==> cloned(
                    #[trigger] self.points()[i],
                    owned.points()[i],
                ),
    {
        proof {
            use_type_invariant(&self);
        }
        let ConvexHull2D { hull_indices, points, degenerate } = self;
        let kept: Vec<K::Point> = match points {
            Cow::Owned(kept) => kept,
            Cow::Borrowed(lent) => {
                let mut kept: Vec<K::Point> = Vec::new();
                let mut i: usize = 0;
                while i < lent.len()
                    invariant
                        i <= lent.len(),
                        kept.len() == i,
                        forall|j: int| 0 <= j < i ==> cloned(#[trigger] lent@[j], kept@[j]),
                    decreases lent.len() - i,
                {
                    kept.push(lent[i].clone());
                    i = i + 1;
                }
                kept
            },
        };
        ConvexHull2D { hull_indices, points: Cow::Owned(kept), degenerate }
    }
}

impl<'a, K: RealOperations2D> ConvexHull2D<'a, K> where
    K::Field: FieldNumber,
    K::Point: Point2D<Scalar = K::Field> + Clone,
 {
    /// This is the approximate hull of `points`, with its mark of a
    /// degenerate hull.
    pub open spec fn is_approximate_hull_of(self, points: Seq<K::Point>) -> bool {
        &&& self.points() == points
        &&& self.indices() == approximate_hull::<K>(points)
        &&& self.degenerate() == approximate_degenerate::<K>(points)
        &&& self.degenerate() == (self.indices().len() < 3)
    }

    /// The approximate hull of the points of a slice, which the result keeps
    /// borrowed.
    pub fn from_points(points: &'a [K::Point]) -> (r: Result<Self, GeometryError>)
        ensures
            points.len() == 0 ==> (r matches Err(e) && e is InputIsEmpty),
            points.len() > 0 && !all_valid(points@) ==> (r matches Err(e)
                && e is InputValueInvalidForField),
            points.len() > 0 && all_valid(points@) ==> (r matches Ok(hull)
                && hull.is_approximate_hull_of(points@)),
    {
        match convex_hull_impl::<K>(points) {
            Ok((hull_indices, degenerate)) => {
                Ok(ConvexHull2D { hull_indices, points: Cow::Borrowed(points), degenerate })
            },
            Err(e) => Err(e),
        }
    }

    /// The approximate hull of the points of a vector, which the result
    /// keeps.
    pub fn from_points_owned(points: Vec<K::Point>) -> (r: Result<Self, GeometryError>)
        ensures
            points.len() == 0 ==> (r matches Err(e) && e is InputIsEmpty),
            points.len() > 0 && !all_valid(points@) ==> (r matches Err(e)
                && e is InputValueInvalidForField),
            points.len() > 0 && all_valid(points@) ==> (r matches Ok(hull)
                && hull.is_approximate_hull_of(points@)),
    {
        match convex_hull_impl::<K>(points.as_slice()) {
            Ok((hull_indices, degenerate)) => {
                Ok(ConvexHull2D { hull_indices, points: Cow::Owned(points), degenerate })
            },
            Err(e) => Err(e),
        }
    }
}

impl<'a, K: ExactPredicates2D> ConvexHull2D<'a, K> where K::Point: Clone {
    /// This is the exact hull of `points`, marked as it should be.
    pub open spec fn is_exact_hull_of(
        self,
        points: Seq<K::Point>,
        include_collinear: bool,
    ) -> bool {
        &&& self.points() == points
        &&& is_exact_hull_of(
            positions::<K>(points),
            include_collinear,
            self.indices(),
            self.degenerate(),
        )
    }

    /// The exact hull of the points of a slice, which the result keeps
    /// borrowed.
    pub fn from_points_exact(points: &'a [K::Point], include_collinear: bool) -> (r: Result<
        Self,
        GeometryError,
    >)
        ensures
            points.len() == 0 ==> (r matches Err(e) && e is InputIsEmpty),
            points.len() > 0 ==> (r matches Ok(hull) && hull.is_exact_hull_of(
                points@,
                include_collinear,
            )),
    {
        match convex_hull_exact_impl::<K>(points, include_collinear) {
            Ok((hull_indices, degenerate)) => {
                Ok(ConvexHull2D { hull_indices, points: Cow::Borrowed(points), degenerate })
            },
            Err(e) => Err(e),
        }
    }

    /// The exact hull of the points of a vector, which the result keeps.
    pub fn from_points_owned_exact(points: Vec<K::Point>, include_collinear: bool) -> (r: Result<
        Self,
        GeometryError,
    >)
        ensures
            points.len() == 0 ==> (r matches Err(e) && e is InputIsEmpty),
            points.len() > 0 ==> (r matches Ok(hull) && hull.is_exact_hull_of(
                points@,
                include_collinear,
            )),
    {
        match convex_hull_exact_impl::<K>(points.as_slice(), include_collinear) {
            Ok((hull_indices, degenerate)) => {
                Ok(ConvexHull2D { hull_indices, points: Cow::Owned(points), degenerate })
            },
            Err(e) => Err(e),
        }
    }
}

/// The approximate hull of the points of a slice, by the kernel that their
/// type names.
pub fn convex_hull<'a, V>(points: &'a [V]) -> (r: Result<
    ConvexHull2D<'a, V::Kernel>,
    GeometryError,
>) where
    V: DefaultKernel + Point2D<Scalar = <V::Kernel as Kernel2D>::Field> + Clone,
    V::Kernel: RealOperations2D,
    <V::Kernel as Kernel2D>::Field: FieldNumber,

    ensures
        points.len() == 0 ==> (r matches Err(e) && e is InputIsEmpty),
        points.len() > 0 && !all_valid(points@) ==> (r matches Err(e)
            && e is InputValueInvalidForField),
        points.len() > 0 && all_valid(points@) ==> (r matches Ok(hull)
            && hull.is_approximate_hull_of(points@)),
{
    ConvexHull2D::<V::Kernel>::from_points(points)
}

/// The exact hull of the points of a slice, by the kernel that their type
/// names.
pub fn convex_hull_exact<'a, V>(points: &'a [V], include_collinear: bool) -> (r: Result<
    ConvexHull2D<'a, V::Kernel>,
    GeometryError,
>) where V: DefaultKernel + Clone, V::Kernel: ExactPredicates2D
    ensures
        points.len() == 0 ==> (r matches Err(e) && e is InputIsEmpty),
        points.len() > 0 ==> (r matches Ok(hull) && hull.is_exact_hull_of(
            points@,
            include_collinear,
        )),
{
    ConvexHull2D::<V::Kernel>::from_points_exact(points, include_collinear)
}

} // verus!
