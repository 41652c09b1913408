use vstd::prelude::*;
use crate::common::orientation::Comparison;
use crate::common::orientation::Orientation2D;

verus! {

/// Exact position of a point, on the integer grid.
pub struct Position {
    pub x: int,
    pub y: int,
}

/// Cross product `(a - o) x (b - o)`.
pub open spec fn cross_of(a: Position, b: Position, o: Position) -> int {
    (a.x - o.x) * (b.y - o.y) - (a.y - o.y) * (b.x - o.x)
}

/// Dot product `(a - o) . (b - o)`.
pub open spec fn dot_of(a: Position, b: Position, o: Position) -> int {
    (a.x - o.x) * (b.x - o.x) + (a.y - o.y) * (b.y - o.y)
}

/// Squared distance between `a` and `b`.
pub open spec fn dist_sqr_of(a: Position, b: Position) -> int {
    (a.x - b.x) * (a.x - b.x) + (a.y - b.y) * (a.y - b.y)
}

/// Squared distance of `a` from the origin of the grid.
pub open spec fn length_sqr_of(a: Position) -> int {
    a.x * a.x + a.y * a.y
}

/// Classification of an integer by its sign: positive is counter-clockwise.
pub open spec fn turn_of_sign(d: int) -> Orientation2D {
    if d > 0 {
        Orientation2D::CounterClockwise
    } else if d < 0 {
        Orientation2D::Clockwise
    } else {
        Orientation2D::Collinear
    }
}

/// Orientation of the triple `a`, `b`, `c`: the sign of `(a - c) x (b - c)`,
/// which is also the sign of `(b - a) x (c - a)`.
pub open spec fn turn_of(a: Position, b: Position, c: Position) -> Orientation2D {
    turn_of_sign(cross_of(a, b, c))
}

/// Order of two integers.
pub open spec fn order_of(x: int, y: int) -> Comparison {
    if x < y {
        Comparison::Less
    } else if x > y {
        Comparison::Greater
    } else {
        Comparison::Equal
    }
}

/// Which of `a` and `b` is closer to `to`: `Less` when `a` is.
pub open spec fn closer_of(a: Position, b: Position, to: Position) -> Comparison {
    order_of(dist_sqr_of(a, to), dist_sqr_of(b, to))
}


/// The three cross products of three vectors around a common origin, each
/// weighted by the dot product of the remaining vector with a fourth, cancel.
pub proof fn lemma_cross_dot_cycle(a: Position, b: Position, c: Position, d: Position, o: Position)
    ensures
        cross_of(a, b, o) * dot_of(c, d, o) + cross_of(b, c, o) * dot_of(a, d, o) + cross_of(
            c,
            a,
            o,
        ) * dot_of(b, d, o) == 0,
{
    let ax = a.x - o.x;
    let ay = a.y - o.y;
    let bx = b.x - o.x;
    let by = b.y - o.y;
    let cx = c.x - o.x;
    let cy = c.y - o.y;
    let dx = d.x - o.x;
    let dy = d.y - o.y;
    let x = ax * by - ay * bx;
    let y = bx * cy - by * cx;
    let z = cx * ay - cy * ax;
    assert(x * cx + y * ax + z * bx == 0) by (nonlinear_arith)
        requires
            x == ax * by - ay * bx,
            y == bx * cy - by * cx,
            z == cx * ay - cy * ax,
    ;
    assert(x * cy + y * ay + z * by == 0) by (nonlinear_arith)
        requires
            x == ax * by - ay * bx,
            y == bx * cy - by * cx,
            z == cx * ay - cy * ax,
    ;
    let sx = x * cx + y * ax + z * bx;
    let sy = x * cy + y * ay + z * by;
    assert(x * (cx * dx + cy * dy) == (x * cx) * dx + (x * cy) * dy) by (nonlinear_arith);
    assert(y * (ax * dx + ay * dy) == (y * ax) * dx + (y * ay) * dy) by (nonlinear_arith);
    assert(z * (bx * dx + by * dy) == (z * bx) * dx + (z * by) * dy) by (nonlinear_arith);
    assert(sx * dx == (x * cx) * dx + (y * ax) * dx + (z * bx) * dx) by (nonlinear_arith)
        requires
            sx == x * cx + y * ax + z * bx,
    ;
    assert(sy * dy == (x * cy) * dy + (y * ay) * dy + (z * by) * dy) by (nonlinear_arith)
        requires
            sy == x * cy + y * ay + z * by,
    ;
    assert(sx * dx == 0 && sy * dy == 0) by (nonlinear_arith)
        requires
            sx == 0,
            sy == 0,
    ;
}

/// Swapping the two points of a cross product negates it.
pub proof fn lemma_cross_swap(a: Position, b: Position, o: Position)
    ensures
        cross_of(a, b, o) == -cross_of(b, a, o),
{
    let ax = a.x - o.x;
    let ay = a.y - o.y;
    let bx = b.x - o.x;
    let by = b.y - o.y;
    assert(ax * by - ay * bx == -(bx * ay - by * ax)) by (nonlinear_arith);
}

/// The cross product does not depend on which of the three points is taken as
/// the origin, as long as their cyclic order is kept.
pub proof fn lemma_cross_rotate(a: Position, b: Position, c: Position)
    ensures
        cross_of(a, b, c) == cross_of(b, c, a),
{
    assert((a.x - c.x) * (b.y - c.y) - (a.y - c.y) * (b.x - c.x) == (b.x - a.x) * (c.y - a.y) - (
    b.y - a.y) * (c.x - a.x)) by (nonlinear_arith);
}

/// A point that is no farther from `far_from` than `p` is, and is not `p`,
/// lies strictly on the side of `p` that faces `far_from`.
pub proof fn lemma_half_plane(q: Position, p: Position, far_from: Position)
    requires
        dist_sqr_of(q, far_from) <= dist_sqr_of(p, far_from),
        q != p,
    ensures
        dot_of(q, far_from, p) > 0,
{
    let qx = q.x - p.x;
    let qy = q.y - p.y;
    let fx = far_from.x - p.x;
    let fy = far_from.y - p.y;
    assert(qx != 0 || qy != 0);
    assert(qx * qx + qy * qy > 0) by (nonlinear_arith)
        requires
            qx != 0 || qy != 0,
    ;
    assert(dist_sqr_of(q, far_from) == (qx - fx) * (qx - fx) + (qy - fy) * (qy - fy));
    assert(dist_sqr_of(p, far_from) == fx * fx + fy * fy) by (nonlinear_arith)
        requires
            fx == far_from.x - p.x,
            fy == far_from.y - p.y,
            dist_sqr_of(p, far_from) == (p.x - far_from.x) * (p.x - far_from.x) + (p.y
                - far_from.y) * (p.y - far_from.y),
    ;
    assert((qx - fx) * (qx - fx) + (qy - fy) * (qy - fy) == qx * qx + qy * qy - 2 * (qx * fx + qy
        * fy) + fx * fx + fy * fy) by (nonlinear_arith);
}

/// Among directions that point into one open half-plane, "not clockwise of"
/// is transitive.
pub proof fn lemma_wedge_transitive(a: Position, b: Position, c: Position, d: Position, o: Position)
    requires
        dot_of(a, d, o) > 0,
        dot_of(b, d, o) > 0,
        dot_of(c, d, o) > 0,
        cross_of(a, b, o) >= 0,
        cross_of(b, c, o) >= 0,
    ensures
        cross_of(a, c, o) >= 0,
        (cross_of(a, b, o) > 0 || cross_of(b, c, o) > 0) ==> cross_of(a, c, o) > 0,
{
    lemma_cross_dot_cycle(a, b, c, d, o);
    lemma_cross_swap(a, c, o);
    let ab = cross_of(a, b, o);
    let bc = cross_of(b, c, o);
    let ac = cross_of(a, c, o);
    let da = dot_of(a, d, o);
    let db = dot_of(b, d, o);
    let dc = dot_of(c, d, o);
    assert(ac * db == ab * dc + bc * da) by (nonlinear_arith)
        requires
            ab * dc + bc * da + (-ac) * db == 0,
    ;
    assert(ab * dc >= 0) by (nonlinear_arith)
        requires
            ab >= 0,
            dc > 0,
    ;
    assert(bc * da >= 0) by (nonlinear_arith)
        requires
            bc >= 0,
            da > 0,
    ;
    assert(ac >= 0) by (nonlinear_arith)
        requires
            ac * db >= 0,
            db > 0,
    ;
    if ab > 0 || bc > 0 {
        assert(ab * dc + bc * da > 0) by (nonlinear_arith)
            requires
                ab >= 0,
                bc >= 0,
                ab > 0 || bc > 0,
                dc > 0,
                da > 0,
        ;
        assert(ac > 0) by (nonlinear_arith)
            requires
                ac * db > 0,
                db > 0,
        ;
    }
}


/// A cross product in which one of the two points is the origin, or both are
/// the same point, is zero.
pub proof fn lemma_cross_trivial(a: Position, o: Position)
    ensures
        cross_of(a, o, o) == 0,
        cross_of(o, a, o) == 0,
        cross_of(a, a, o) == 0,
{
    let ax = a.x - o.x;
    let ay = a.y - o.y;
    assert(ax * 0 - ay * 0 == 0) by (nonlinear_arith);
    assert(0 * ay - 0 * ax == 0) by (nonlinear_arith);
    assert(ax * ay - ay * ax == 0) by (nonlinear_arith);
}

/// A point other than the origin has a positive dot product with itself.
pub proof fn lemma_dot_self(a: Position, o: Position)
    requires
        a != o,
    ensures
        dot_of(a, a, o) > 0,
        dist_sqr_of(a, o) > 0,
        dist_sqr_of(a, o) == dot_of(a, a, o),
{
    let ax = a.x - o.x;
    let ay = a.y - o.y;
    assert(ax != 0 || ay != 0);
    assert(ax * ax + ay * ay > 0) by (nonlinear_arith)
        requires
            ax != 0 || ay != 0,
    ;
}

/// Two points at distance zero are the same point.
pub proof fn lemma_dist_zero(a: Position, b: Position)
    requires
        dist_sqr_of(a, b) <= 0,
    ensures
        a == b,
{
    let ax = a.x - b.x;
    let ay = a.y - b.y;
    assert(ax == 0 && ay == 0) by (nonlinear_arith)
        requires
            ax * ax + ay * ay <= 0,
    ;
}

/// Lying on one line through the origin carries over: if `a` is in line with
/// `b` and with `c`, and `a` points into an open half-plane, then `b` is in
/// line with `c`.
pub proof fn lemma_collinear_through(a: Position, b: Position, c: Position, d: Position, o: Position)
    requires
        dot_of(a, d, o) > 0,
        cross_of(a, b, o) == 0,
        cross_of(a, c, o) == 0,
    ensures
        cross_of(b, c, o) == 0,
{
    lemma_cross_dot_cycle(b, a, c, d, o);
    lemma_cross_swap(a, b, o);
    lemma_cross_swap(b, c, o);
    let ba = cross_of(b, a, o);
    let ac = cross_of(a, c, o);
    let cb = cross_of(c, b, o);
    let da = dot_of(a, d, o);
    let db = dot_of(b, d, o);
    let dc = dot_of(c, d, o);
    assert(cb * da == 0) by (nonlinear_arith)
        requires
            ba * dc + ac * db + cb * da == 0,
            ba == 0,
            ac == 0,
    ;
    assert(cb == 0) by (nonlinear_arith)
        requires
            cb * da == 0,
            da > 0,
    ;
}


/// `q` lies on the segment from `a` to `b`.
pub open spec fn is_between(a: Position, b: Position, q: Position) -> bool {
    cross_of(a, b, q) == 0 && dot_of(a, b, q) <= 0
}

/// For two points in line with the origin, dot products can be traded:
/// `(a . z) (b . b) == (a . b) (b . z)`, all taken around the origin.
pub proof fn lemma_parallel_dot(a: Position, b: Position, z: Position, o: Position)
    requires
        cross_of(a, b, o) == 0,
    ensures
        dot_of(a, z, o) * dot_of(b, b, o) == dot_of(a, b, o) * dot_of(b, z, o),
{
    let bx = b.x - o.x;
    let by = b.y - o.y;
    let ax = a.x - o.x;
    let ay = a.y - o.y;
    let turned = Position { x: o.x - by, y: o.y + bx };
    lemma_cross_dot_cycle(a, b, turned, z, o);
    assert(cross_of(b, turned, o) == dot_of(b, b, o)) by (nonlinear_arith)
        requires
            cross_of(b, turned, o) == bx * (turned.y - o.y) - by * (turned.x - o.x),
            turned.y - o.y == bx,
            turned.x - o.x == -by,
            dot_of(b, b, o) == bx * bx + by * by,
    ;
    assert(cross_of(turned, a, o) == -dot_of(a, b, o)) by (nonlinear_arith)
        requires
            cross_of(turned, a, o) == (turned.x - o.x) * ay - (turned.y - o.y) * ax,
            turned.y - o.y == bx,
            turned.x - o.x == -by,
            dot_of(a, b, o) == ax * bx + ay * by,
    ;
    let ab = cross_of(a, b, o);
    let tz = dot_of(turned, z, o);
    let bb = dot_of(b, b, o);
    let az = dot_of(a, z, o);
    let dab = dot_of(a, b, o);
    let bz = dot_of(b, z, o);
    assert(az * bb == dab * bz) by (nonlinear_arith)
        requires
            ab * tz + bb * az + (-dab) * bz == 0,
            ab == 0,
    ;
}

/// Two points in line with the origin that both point into one open
/// half-plane lie on the same side of the origin.
pub proof fn lemma_same_ray(a: Position, b: Position, d: Position, o: Position)
    requires
        cross_of(a, b, o) == 0,
        dot_of(a, d, o) > 0,
        dot_of(b, d, o) > 0,
        b != o,
    ensures
        dot_of(a, b, o) > 0,
{
    lemma_dot_self(b, o);
    lemma_parallel_dot(a, b, d, o);
    let ad = dot_of(a, d, o);
    let bd = dot_of(b, d, o);
    let ab = dot_of(a, b, o);
    let bb = dot_of(b, b, o);
    assert(ad * bb > 0) by (nonlinear_arith)
        requires
            ad > 0,
            bb > 0,
    ;
    assert(ab > 0) by (nonlinear_arith)
        requires
            ab * bd > 0,
            bd > 0,
    ;
}

/// On a ray from the origin, a point that is no farther from the origin than
/// another lies between the origin and that other point.
pub proof fn lemma_between_on_ray(q: Position, e: Position, o: Position)
    requires
        cross_of(q, e, o) == 0,
        dot_of(q, e, o) > 0,
        dist_sqr_of(q, o) <= dist_sqr_of(e, o),
    ensures
        is_between(o, e, q),
{
    let ux = q.x - o.x;
    let uy = q.y - o.y;
    let vx = e.x - o.x;
    let vy = e.y - o.y;
    let uv = dot_of(q, e, o);
    let uu = dot_of(q, q, o);
    let vv = dot_of(e, e, o);
    lemma_parallel_dot(q, e, q, o);
    assert(uu * vv == uv * uv) by (nonlinear_arith)
        requires
            uu * vv == uv * dot_of(e, q, o),
            dot_of(e, q, o) == vx * ux + vy * uy,
            uv == ux * vx + uy * vy,
    ;
    assert(uu >= 0) by (nonlinear_arith)
        requires
            uu == ux * ux + uy * uy,
    ;
    assert(uu * vv >= uu * uu) by (nonlinear_arith)
        requires
            uu >= 0,
            vv >= uu,
    ;
    assert(uv >= uu) by (nonlinear_arith)
        requires
            uv * uv >= uu * uu,
            uv > 0,
            uu >= 0,
    ;
    assert(dot_of(o, e, q) == (0 - ux) * (vx - ux) + (0 - uy) * (vy - uy));
    assert((0 - ux) * (vx - ux) + (0 - uy) * (vy - uy) == uu - uv) by (nonlinear_arith)
        requires
            uv == ux * vx + uy * vy,
            uu == ux * ux + uy * uy,
    ;
    lemma_cross_rotate(q, e, o);
    lemma_cross_rotate(e, o, q);
    lemma_cross_swap(o, e, q);
}


/// The three cross products of three vectors around a common origin, each
/// weighted by the cross product of the remaining vector with a fourth,
/// cancel.
pub proof fn lemma_cross_cycle(a: Position, b: Position, c: Position, e: Position, o: Position)
    ensures
        cross_of(a, b, o) * cross_of(c, e, o) + cross_of(b, c, o) * cross_of(a, e, o) + cross_of(
            c,
            a,
            o,
        ) * cross_of(b, e, o) == 0,
{
    let ex = e.x - o.x;
    let ey = e.y - o.y;
    let turned = Position { x: o.x + ey, y: o.y - ex };
    lemma_cross_dot_cycle(a, b, c, turned, o);
    assert(dot_of(a, turned, o) == cross_of(a, e, o)) by (nonlinear_arith)
        requires
            dot_of(a, turned, o) == (a.x - o.x) * (turned.x - o.x) + (a.y - o.y) * (turned.y
                - o.y),
            turned.x - o.x == ey,
            turned.y - o.y == -ex,
            cross_of(a, e, o) == (a.x - o.x) * ey - (a.y - o.y) * ex,
    ;
    assert(dot_of(b, turned, o) == cross_of(b, e, o)) by (nonlinear_arith)
        requires
            dot_of(b, turned, o) == (b.x - o.x) * (turned.x - o.x) + (b.y - o.y) * (turned.y
                - o.y),
            turned.x - o.x == ey,
            turned.y - o.y == -ex,
            cross_of(b, e, o) == (b.x - o.x) * ey - (b.y - o.y) * ex,
    ;
    assert(dot_of(c, turned, o) == cross_of(c, e, o)) by (nonlinear_arith)
        requires
            dot_of(c, turned, o) == (c.x - o.x) * (turned.x - o.x) + (c.y - o.y) * (turned.y
                - o.y),
            turned.x - o.x == ey,
            turned.y - o.y == -ex,
            cross_of(c, e, o) == (c.x - o.x) * ey - (c.y - o.y) * ex,
    ;
}

/// For two points in line with the origin, a cross product with a third
/// point can be traded: `(y x f) (p . p) == (f . p) (y x p)`, all taken
/// around the origin.
pub proof fn lemma_parallel_cross(f: Position, p: Position, y: Position, o: Position)
    requires
        cross_of(f, p, o) == 0,
    ensures
        cross_of(y, f, o) * dot_of(p, p, o) == dot_of(f, p, o) * cross_of(y, p, o),
{
    let yx = y.x - o.x;
    let yy = y.y - o.y;
    let turned = Position { x: o.x + yy, y: o.y - yx };
    lemma_parallel_dot(f, p, turned, o);
    assert(dot_of(f, turned, o) == -cross_of(y, f, o)) by (nonlinear_arith)
        requires
            dot_of(f, turned, o) == (f.x - o.x) * (turned.x - o.x) + (f.y - o.y) * (turned.y
                - o.y),
            turned.x - o.x == yy,
            turned.y - o.y == -yx,
            cross_of(y, f, o) == yx * (f.y - o.y) - yy * (f.x - o.x),
    ;
    assert(dot_of(p, turned, o) == -cross_of(y, p, o)) by (nonlinear_arith)
        requires
            dot_of(p, turned, o) == (p.x - o.x) * (turned.x - o.x) + (p.y - o.y) * (turned.y
                - o.y),
            turned.x - o.x == yy,
            turned.y - o.y == -yx,
            cross_of(y, p, o) == yx * (p.y - o.y) - yy * (p.x - o.x),
    ;
    let a = cross_of(y, f, o);
    let b = cross_of(y, p, o);
    let pp = dot_of(p, p, o);
    let fp = dot_of(f, p, o);
    assert(a * pp == fp * b) by (nonlinear_arith)
        requires
            (-a) * pp == fp * (-b),
    ;
}

/// A point between `p` and `s` lies, seen from `s`, in the direction of `p`.
pub proof fn lemma_between_dot(p: Position, s: Position, q: Position)
    requires
        is_between(p, s, q),
    ensures
        cross_of(q, p, s) == 0,
        dot_of(q, p, s) >= 0,
        q != s ==> dot_of(q, p, s) > 0,
{
    lemma_cross_rotate(p, s, q);
    lemma_cross_rotate(s, q, p);
    let ux = q.x - s.x;
    let uy = q.y - s.y;
    let wx = p.x - q.x;
    let wy = p.y - q.y;
    assert(dot_of(q, p, s) == ux * (wx + ux) + uy * (wy + uy));
    assert(dot_of(p, s, q) == wx * (0 - ux) + wy * (0 - uy));
    assert(ux * (wx + ux) + uy * (wy + uy) == (ux * ux + uy * uy) - (wx * (0 - ux) + wy * (0
        - uy))) by (nonlinear_arith);
    assert(ux * ux + uy * uy >= 0) by (nonlinear_arith);
    if q != s {
        assert(ux != 0 || uy != 0);
        assert(ux * ux + uy * uy > 0) by (nonlinear_arith)
            requires
                ux != 0 || uy != 0,
        ;
    }
}

/// Seen from `s`, a point `q` between `p` and `s` lies on the same side of
/// any line through `s` as `p` does, or on the line.
pub proof fn lemma_between_left(p: Position, s: Position, q: Position, y: Position)
    requires
        is_between(p, s, q),
        p != s,
    ensures
        cross_of(y, p, s) >= 0 ==> cross_of(y, q, s) >= 0,
        cross_of(y, p, s) <= 0 ==> cross_of(y, q, s) <= 0,
        q != s && cross_of(y, q, s) >= 0 ==> cross_of(y, p, s) >= 0,
        q != s && cross_of(y, q, s) <= 0 ==> cross_of(y, p, s) <= 0,
{
    lemma_between_dot(p, s, q);
    lemma_parallel_cross(q, p, y, s);
    lemma_dot_self(p, s);
    let yq = cross_of(y, q, s);
    let yp = cross_of(y, p, s);
    let pp = dot_of(p, p, s);
    let qp = dot_of(q, p, s);
    if yp >= 0 {
        assert(yq >= 0) by (nonlinear_arith)
            requires
                yq * pp == qp * yp,
                pp > 0,
                qp >= 0,
                yp >= 0,
        ;
    }
    if yp <= 0 {
        assert(yq <= 0) by (nonlinear_arith)
            requires
                yq * pp == qp * yp,
                pp > 0,
                qp >= 0,
                yp <= 0,
        ;
    }
    if q != s && yq >= 0 {
        assert(yp >= 0) by (nonlinear_arith)
            requires
                yq * pp == qp * yp,
                pp > 0,
                qp > 0,
                yq >= 0,
        ;
    }
    if q != s && yq <= 0 {
        assert(yp <= 0) by (nonlinear_arith)
            requires
                yq * pp == qp * yp,
                pp > 0,
                qp > 0,
                yq <= 0,
        ;
    }
}

/// Three points that are each in line with `p` and `r` lie on one line.
pub proof fn lemma_three_on_line(p: Position, r: Position, i: Position, j: Position, k: Position)
    requires
        r != p,
        cross_of(r, i, p) == 0,
        cross_of(r, j, p) == 0,
        cross_of(r, k, p) == 0,
    ensures
        cross_of(i, j, k) == 0,
{
    lemma_dot_self(r, p);
    lemma_collinear_through(r, i, j, r, p);
    lemma_collinear_through(r, i, k, r, p);
    lemma_collinear_through(r, k, j, r, p);
    let ix = i.x - p.x;
    let iy = i.y - p.y;
    let jx = j.x - p.x;
    let jy = j.y - p.y;
    let kx = k.x - p.x;
    let ky = k.y - p.y;
    assert((ix - kx) * (jy - ky) - (iy - ky) * (jx - kx) == (ix * jy - iy * jx) - (ix * ky - iy
        * kx) - (kx * jy - ky * jx)) by (nonlinear_arith);
    assert(cross_of(i, j, k) == (ix - kx) * (jy - ky) - (iy - ky) * (jx - kx));
}

/// Two points that each lie between `p` and the other are one point.
pub proof fn lemma_between_both(p: Position, a: Position, b: Position)
    requires
        is_between(p, b, a),
        is_between(p, a, b),
    ensures
        a == b,
{
    let ux = b.x - a.x;
    let uy = b.y - a.y;
    let wx = p.x - a.x;
    let wy = p.y - a.y;
    assert(dot_of(p, b, a) == wx * ux + wy * uy);
    assert(dot_of(p, a, b) == (wx - ux) * (0 - ux) + (wy - uy) * (0 - uy));
    assert((wx * ux + wy * uy) + ((wx - ux) * (0 - ux) + (wy - uy) * (0 - uy)) == ux * ux + uy
        * uy) by (nonlinear_arith);
    assert(ux == 0 && uy == 0) by (nonlinear_arith)
        requires
            ux * ux + uy * uy <= 0,
    ;
}


/// Two edges that meet and point in opposite directions along one line
/// leave room on their left only on that line.
pub proof fn lemma_no_fold_back(a: Position, b: Position, c: Position, x: Position)
    requires
        a != b,
        cross_of(a, b, c) == 0,
        dot_of(c, a, b) > 0,
        cross_of(a, b, x) >= 0,
        cross_of(b, c, x) >= 0,
    ensures
        cross_of(a, b, x) == 0,
{
    lemma_cross_rotate(a, b, c);
    lemma_cross_rotate(b, c, a);
    lemma_parallel_cross(c, a, x, b);
    lemma_dot_self(a, b);
    lemma_cross_rotate(a, b, x);
    lemma_cross_rotate(b, x, a);
    lemma_cross_rotate(b, c, x);
    lemma_cross_swap(x, c, b);
    let xcb = cross_of(x, c, b);
    let xab = cross_of(x, a, b);
    let aa = dot_of(a, a, b);
    let ca = dot_of(c, a, b);
    assert(xab == 0) by (nonlinear_arith)
        requires
            xcb * aa == ca * xab,
            xcb <= 0,
            xab >= 0,
            aa > 0,
            ca > 0,
    ;
}

/// A point on the line through two points lies between them, or beyond the
/// second, or before the first.
#[verifier::rlimit(50)]
pub proof fn lemma_line_trichotomy(a: Position, b: Position, q: Position)
    requires
        a != b,
        cross_of(a, b, q) == 0,
    ensures
        is_between(a, b, q) || dot_of(a, q, b) < 0 || dot_of(b, q, a) < 0,
{
    let ax = a.x - q.x;
    let ay = a.y - q.y;
    let bx = b.x - q.x;
    let by = b.y - q.y;
    let ab = dot_of(a, b, q);
    let aa = dot_of(a, a, q);
    let bb = dot_of(b, b, q);
    if ab > 0 {
        lemma_parallel_dot(a, b, a, q);
        assert(dot_of(b, a, q) == ab) by (nonlinear_arith)
            requires
                dot_of(b, a, q) == bx * ax + by * ay,
                ab == ax * bx + ay * by,
        ;
        assert(aa * bb == ab * ab);
        assert(ax - bx != 0 || ay - by != 0);
        assert((ax - bx) * (ax - bx) + (ay - by) * (ay - by) > 0) by (nonlinear_arith)
            requires
                ax - bx != 0 || ay - by != 0,
        ;
        assert((ax - bx) * (ax - bx) + (ay - by) * (ay - by) == aa - 2 * ab + bb)
            by (nonlinear_arith)
            requires
                aa == ax * ax + ay * ay,
                bb == bx * bx + by * by,
                ab == ax * bx + ay * by,
        ;
        if ab <= bb && ab <= aa {
            assert((aa - ab) * (bb - ab) >= 0) by (nonlinear_arith)
                requires
                    aa - ab >= 0,
                    bb - ab >= 0,
            ;
            assert((aa - ab) * (bb - ab) == aa * bb - ab * (aa + bb) + ab * ab)
                by (nonlinear_arith);
            assert(ab * (2 * ab - aa - bb) >= 0) by (nonlinear_arith)
                requires
                    aa * bb - ab * (aa + bb) + ab * ab >= 0,
                    aa * bb == ab * ab,
            ;
            assert(2 * ab - aa - bb >= 0) by (nonlinear_arith)
                requires
                    ab * (2 * ab - aa - bb) >= 0,
                    ab > 0,
            ;
            assert(false);
        }
        assert(dot_of(a, q, b) == (ax - bx) * (0 - bx) + (ay - by) * (0 - by));
        assert((ax - bx) * (0 - bx) + (ay - by) * (0 - by) == bb - ab) by (nonlinear_arith)
            requires
                bb == bx * bx + by * by,
                ab == ax * bx + ay * by,
        ;
        assert(dot_of(b, q, a) == (bx - ax) * (0 - ax) + (by - ay) * (0 - ay));
        assert((bx - ax) * (0 - ax) + (by - ay) * (0 - ay) == aa - ab) by (nonlinear_arith)
            requires
                aa == ax * ax + ay * ay,
                ab == ax * bx + ay * by,
        ;
    }
}

/// Of two points in line with a third and apart from it, neither lies at a
/// right angle to the other: their dot product around the third is not zero.
pub proof fn lemma_parallel_not_square(c: Position, a: Position, o: Position)
    requires
        c != o,
        a != o,
        cross_of(c, a, o) == 0,
    ensures
        dot_of(c, a, o) != 0,
{
    lemma_parallel_dot(c, a, c, o);
    lemma_dot_self(c, o);
    lemma_dot_self(a, o);
    let cc = dot_of(c, c, o);
    let aa = dot_of(a, a, o);
    let ca = dot_of(c, a, o);
    let ac = dot_of(a, c, o);
    assert(cc * aa > 0) by (nonlinear_arith)
        requires
            cc > 0,
            aa > 0,
    ;
    if ca == 0 {
        assert(ca * ac == 0) by (nonlinear_arith)
            requires
                ca == 0,
        ;
    }
}

/// A point moves closer to `q` when it moves from `b` to a point `c` that
/// lies strictly between `b` and `q`.
pub proof fn lemma_closer_between(b: Position, c: Position, q: Position)
    requires
        dot_of(b, q, c) < 0,
    ensures
        dist_sqr_of(q, c) < dist_sqr_of(q, b),
{
    let ux = q.x - c.x;
    let uy = q.y - c.y;
    let wx = b.x - c.x;
    let wy = b.y - c.y;
    assert(dist_sqr_of(q, b) == (ux - wx) * (ux - wx) + (uy - wy) * (uy - wy));
    assert((ux - wx) * (ux - wx) + (uy - wy) * (uy - wy) == (ux * ux + uy * uy) - 2 * (wx * ux
        + wy * uy) + (wx * wx + wy * wy)) by (nonlinear_arith);
    assert(wx * wx + wy * wy >= 0) by (nonlinear_arith);
}

/// A step forward along the boundary: a point `q` on the line of the edge
/// from `a` to `b`, beyond `b`, and left of the next edge from `b` to `c`,
/// lies on the line of that edge, either between `b` and `c` or beyond `c`
/// and then closer to `c` than to `b`.
#[verifier::rlimit(50)]
pub proof fn lemma_beyond_step(a: Position, b: Position, c: Position, q: Position)
    requires
        a != b,
        b != c,
        cross_of(a, b, q) == 0,
        dot_of(a, q, b) < 0,
        cross_of(a, b, c) >= 0,
        cross_of(b, c, q) >= 0,
        !(cross_of(a, b, c) == 0 && dot_of(c, a, b) > 0),
    ensures
        cross_of(b, c, q) == 0,
        is_between(b, c, q) || (dot_of(b, q, c) < 0 && dist_sqr_of(q, c) < dist_sqr_of(q, b)),
{
    lemma_cross_rotate(a, b, q);
    lemma_cross_rotate(b, q, a);
    lemma_parallel_cross(q, a, c, b);
    lemma_dot_self(a, b);
    lemma_cross_rotate(b, c, q);
    lemma_cross_rotate(a, b, c);
    lemma_cross_rotate(b, c, a);
    let cqb = cross_of(c, q, b);
    let cab = cross_of(c, a, b);
    let aa = dot_of(a, a, b);
    let qa = dot_of(q, a, b);
    assert(qa == dot_of(a, q, b)) by (nonlinear_arith)
        requires
            qa == (q.x - b.x) * (a.x - b.x) + (q.y - b.y) * (a.y - b.y),
            dot_of(a, q, b) == (a.x - b.x) * (q.x - b.x) + (a.y - b.y) * (q.y - b.y),
    ;
    assert(cqb == 0 && cab == 0) by (nonlinear_arith)
        requires
            cqb * aa == qa * cab,
            cqb >= 0,
            cab >= 0,
            aa > 0,
            qa < 0,
    ;
    lemma_parallel_not_square(c, a, b);
    lemma_parallel_dot(q, a, c, b);
    let qc = dot_of(q, c, b);
    let ac = dot_of(a, c, b);
    assert(ac == dot_of(c, a, b)) by (nonlinear_arith)
        requires
            ac == (a.x - b.x) * (c.x - b.x) + (a.y - b.y) * (c.y - b.y),
            dot_of(c, a, b) == (c.x - b.x) * (a.x - b.x) + (c.y - b.y) * (a.y - b.y),
    ;
    assert(qc > 0) by (nonlinear_arith)
        requires
            qc * aa == qa * ac,
            aa > 0,
            qa < 0,
            ac < 0,
    ;
    lemma_line_trichotomy(b, c, q);
    assert(dot_of(c, q, b) == qc) by (nonlinear_arith)
        requires
            qc == (q.x - b.x) * (c.x - b.x) + (q.y - b.y) * (c.y - b.y),
            dot_of(c, q, b) == (c.x - b.x) * (q.x - b.x) + (c.y - b.y) * (q.y - b.y),
    ;
    if dot_of(b, q, c) < 0 {
        lemma_closer_between(b, c, q);
    }
}

/// A step backward along the boundary: a point `q` on the line of the edge
/// from `a` to `b`, before `a`, and left of the edge before it from `z` to
/// `a`, lies on the line of that edge, either between `z` and `a` or before
/// `z` and then closer to `z` than to `a`.
#[verifier::rlimit(50)]
pub proof fn lemma_before_step(z: Position, a: Position, b: Position, q: Position)
    requires
        z != a,
        a != b,
        cross_of(a, b, q) == 0,
        dot_of(b, q, a) < 0,
        cross_of(z, a, b) >= 0,
        cross_of(z, a, q) >= 0,
        !(cross_of(z, a, b) == 0 && dot_of(b, z, a) > 0),
    ensures
        cross_of(z, a, q) == 0,
        is_between(z, a, q) || (dot_of(a, q, z) < 0 && dist_sqr_of(q, z) < dist_sqr_of(q, a)),
{
    lemma_cross_rotate(a, b, q);
    lemma_cross_swap(q, b, a);
    lemma_parallel_cross(q, b, z, a);
    lemma_dot_self(b, a);
    lemma_cross_rotate(z, a, q);
    lemma_cross_rotate(a, q, z);
    lemma_cross_swap(z, q, a);
    lemma_cross_rotate(z, a, b);
    lemma_cross_rotate(a, b, z);
    lemma_cross_swap(z, b, a);
    let zqa = cross_of(z, q, a);
    let zba = cross_of(z, b, a);
    let bb = dot_of(b, b, a);
    let qb = dot_of(q, b, a);
    assert(qb == dot_of(b, q, a)) by (nonlinear_arith)
        requires
            qb == (q.x - a.x) * (b.x - a.x) + (q.y - a.y) * (b.y - a.y),
            dot_of(b, q, a) == (b.x - a.x) * (q.x - a.x) + (b.y - a.y) * (q.y - a.y),
    ;
    assert(zqa == 0 && zba == 0) by (nonlinear_arith)
        requires
            zqa * bb == qb * zba,
            zqa <= 0,
            zba <= 0,
            bb > 0,
            qb < 0,
    ;
    lemma_cross_swap(b, z, a);
    lemma_parallel_not_square(b, z, a);
    lemma_parallel_dot(q, b, z, a);
    let qz = dot_of(q, z, a);
    let bz = dot_of(b, z, a);
    assert(qz > 0) by (nonlinear_arith)
        requires
            qz * bb == qb * bz,
            bb > 0,
            qb < 0,
            bz < 0,
    ;
    lemma_line_trichotomy(z, a, q);
    assert(dot_of(z, q, a) == qz) by (nonlinear_arith)
        requires
            qz == (q.x - a.x) * (z.x - a.x) + (q.y - a.y) * (z.y - a.y),
            dot_of(z, q, a) == (z.x - a.x) * (q.x - a.x) + (z.y - a.y) * (q.y - a.y),
    ;
    if dot_of(a, q, z) < 0 {
        lemma_closer_between(a, z, q);
    }
}

} // verus!

verus! {

/// Lying between two points does not depend on the order in which the two
/// are named.
pub proof fn lemma_between_symmetric(a: Position, b: Position, q: Position)
    requires
        is_between(a, b, q),
    ensures
        is_between(b, a, q),
{
    lemma_cross_swap(a, b, q);
    assert(dot_of(b, a, q) == dot_of(a, b, q)) by (nonlinear_arith)
        requires
            dot_of(b, a, q) == (b.x - q.x) * (a.x - q.x) + (b.y - q.y) * (a.y - q.y),
            dot_of(a, b, q) == (a.x - q.x) * (b.x - q.x) + (a.y - q.y) * (b.y - q.y),
    ;
}

/// A point that lies between a point `s` and each of two points, of which
/// `s` lies between, is `s`.
pub proof fn lemma_squeezed(s: Position, u: Position, v: Position, q: Position)
    requires
        is_between(u, v, s),
        is_between(s, u, q),
        is_between(s, v, q),
    ensures
        q == s,
{
    lemma_between_symmetric(s, u, q);
    lemma_between_symmetric(s, v, q);
    lemma_between_dot(u, s, q);
    lemma_between_dot(v, s, q);
    // around s: q is in line with u and with v, and points their way
    lemma_cross_swap(q, u, s);
    lemma_parallel_dot(u, q, v, s);
    let uv = dot_of(u, v, s);
    let qq = dot_of(q, q, s);
    let uq = dot_of(u, q, s);
    let qv = dot_of(q, v, s);
    let qx = q.x - s.x;
    let qy = q.y - s.y;
    assert(uq == dot_of(q, u, s)) by (nonlinear_arith)
        requires
            uq == (u.x - s.x) * (q.x - s.x) + (u.y - s.y) * (q.y - s.y),
            dot_of(q, u, s) == (q.x - s.x) * (u.x - s.x) + (q.y - s.y) * (u.y - s.y),
    ;
    // q lies between s and u: the dot product of q and u is at least that of q and q
    let wx = u.x - q.x;
    let wy = u.y - q.y;
    assert(dot_of(s, u, q) == (0 - qx) * wx + (0 - qy) * wy);
    assert(uq == qq + (qx * wx + qy * wy)) by (nonlinear_arith)
        requires
            uq == (u.x - s.x) * qx + (u.y - s.y) * qy,
            u.x - s.x == wx + qx,
            u.y - s.y == wy + qy,
            qq == qx * qx + qy * qy,
    ;
    assert((0 - qx) * wx + (0 - qy) * wy == -(qx * wx + qy * wy)) by (nonlinear_arith);
    assert(uq >= qq);
    let zx = v.x - q.x;
    let zy = v.y - q.y;
    assert(dot_of(s, v, q) == (0 - qx) * zx + (0 - qy) * zy);
    assert(qv == qq + (qx * zx + qy * zy)) by (nonlinear_arith)
        requires
            qv == qx * (v.x - s.x) + qy * (v.y - s.y),
            v.x - s.x == zx + qx,
            v.y - s.y == zy + qy,
            qq == qx * qx + qy * qy,
    ;
    assert((0 - qx) * zx + (0 - qy) * zy == -(qx * zx + qy * zy)) by (nonlinear_arith);
    assert(qv >= qq);
    assert(qq >= 0) by (nonlinear_arith)
        requires
            qq == qx * qx + qy * qy,
    ;
    assert(uq * qv >= qq * qq) by (nonlinear_arith)
        requires
            uq >= qq,
            qv >= qq,
            qq >= 0,
    ;
    assert(uv * qq <= 0) by (nonlinear_arith)
        requires
            uv <= 0,
            qq >= 0,
    ;
    assert(qq == 0) by (nonlinear_arith)
        requires
            qq * qq <= 0,
            qq >= 0,
    ;
    assert(qx == 0 && qy == 0) by (nonlinear_arith)
        requires
            qx * qx + qy * qy == 0,
    ;
}

/// A point between `a` and `b`, where `a` lies between `p` and `b`, lies
/// between `p` and `b`.
pub proof fn lemma_between_transitive(p: Position, a: Position, b: Position, c: Position)
    requires
        is_between(p, b, a),
        is_between(a, b, c),
    ensures
        is_between(p, b, c),
{
    if a == b {
        lemma_squeezed(b, b, b, c);
    } else {
        lemma_between_symmetric(p, b, a);
        lemma_between_symmetric(a, b, c);
        lemma_between_dot(p, b, a);
        lemma_between_dot(a, b, c);
        lemma_dot_self(a, b);
        // around b: a is in line with p, and c is in line with a
        lemma_cross_swap(c, a, b);
        lemma_collinear_through(a, p, c, a, b);
        lemma_parallel_dot(c, a, p, b);
        let cp = dot_of(c, p, b);
        let aa = dot_of(a, a, b);
        let ca = dot_of(c, a, b);
        let ap = dot_of(a, p, b);
        let cc = dot_of(c, c, b);
        let cx = c.x - b.x;
        let cy = c.y - b.y;
        assert(cc >= 0) by (nonlinear_arith)
            requires
                cc == cx * cx + cy * cy,
        ;
        // a lies between p and b: a . p >= a . a; c lies between a and b: c . a >= c . c
        let wx = p.x - a.x;
        let wy = p.y - a.y;
        let ax = a.x - b.x;
        let ay = a.y - b.y;
        assert(dot_of(b, p, a) == (0 - ax) * wx + (0 - ay) * wy);
        assert(dot_of(b, p, a) <= 0);
        assert(ap == aa + (ax * wx + ay * wy)) by (nonlinear_arith)
            requires
                ap == ax * (p.x - b.x) + ay * (p.y - b.y),
                p.x - b.x == wx + ax,
                p.y - b.y == wy + ay,
                aa == ax * ax + ay * ay,
        ;
        assert((0 - ax) * wx + (0 - ay) * wy == -(ax * wx + ay * wy)) by (nonlinear_arith);
        assert(ap >= aa);
        let zx = a.x - c.x;
        let zy = a.y - c.y;
        assert(dot_of(b, a, c) == (0 - cx) * zx + (0 - cy) * zy);
        assert(dot_of(b, a, c) <= 0);
        assert(ca == cc + (cx * zx + cy * zy)) by (nonlinear_arith)
            requires
                ca == cx * ax + cy * ay,
                ax == zx + cx,
                ay == zy + cy,
                cc == cx * cx + cy * cy,
        ;
        assert((0 - cx) * zx + (0 - cy) * zy == -(cx * zx + cy * zy)) by (nonlinear_arith);
        assert(ca >= cc);
        assert(ca * ap >= ca * aa) by (nonlinear_arith)
            requires
                ca >= 0,
                ap >= aa,
        ;
        assert(cp >= ca) by (nonlinear_arith)
            requires
                cp * aa == ca * ap,
                ca * ap >= ca * aa,
                aa > 0,
        ;
        // back to the form of lying between p and b
        let vx = p.x - c.x;
        let vy = p.y - c.y;
        assert(dot_of(p, b, c) == vx * (0 - cx) + vy * (0 - cy));
        assert(cp == cc + (cx * vx + cy * vy)) by (nonlinear_arith)
            requires
                cp == cx * (p.x - b.x) + cy * (p.y - b.y),
                p.x - b.x == vx + cx,
                p.y - b.y == vy + cy,
                cc == cx * cx + cy * cy,
        ;
        assert(vx * (0 - cx) + vy * (0 - cy) == -(cx * vx + cy * vy)) by (nonlinear_arith);
        lemma_cross_rotate(p, b, c);
        lemma_cross_rotate(b, c, p);
        lemma_cross_swap(p, c, b);
    }
}

/// Two different lines through `b` meet in `b` alone: a point in line with
/// `a` and `b` and with `p` and `b`, where `a`, `b`, `p` are not in line, is
/// `b`.
pub proof fn lemma_lines_meet(a: Position, p: Position, b: Position, c: Position)
    requires
        cross_of(a, b, c) == 0,
        cross_of(p, b, c) == 0,
        cross_of(a, b, p) != 0,
    ensures
        c == b,
{
    lemma_cross_dot_cycle(a, p, c, c, b);
    lemma_cross_rotate(a, b, c);
    lemma_cross_rotate(b, c, a);
    lemma_cross_rotate(p, b, c);
    lemma_cross_rotate(b, c, p);
    lemma_cross_swap(p, c, b);
    lemma_cross_rotate(a, b, p);
    lemma_cross_rotate(b, p, a);
    lemma_cross_swap(a, p, b);
    let ap = cross_of(a, p, b);
    let cc = dot_of(c, c, b);
    let cx = c.x - b.x;
    let cy = c.y - b.y;
    assert(cc == 0) by (nonlinear_arith)
        requires
            ap * cc + cross_of(p, c, b) * dot_of(a, c, b) + cross_of(c, a, b) * dot_of(p, c, b)
                == 0,
            cross_of(p, c, b) == 0,
            cross_of(c, a, b) == 0,
            ap != 0,
    ;
    assert(cx == 0 && cy == 0) by (nonlinear_arith)
        requires
            cx * cx + cy * cy == 0,
    ;
}

} // verus!
