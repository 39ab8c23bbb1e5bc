//! Geometric primitives: points with exact integer coordinates, circumcircles
//! with exact rational centers, and the open-disk point-in-circle test.
//!
//! All arithmetic is exact. A circumcircle's center is a rational point
//! `(num_x / den, num_y / den)` with `den > 0`, and its squared radius is
//! `radius_sq_num / den^2`, so every predicate below is decided without
//! rounding. Coordinates are bounded so that every intermediate product of
//! the determinant formulas fits in `i128`.

use vstd::arithmetic::mul::lemma_mul_is_associative;
use vstd::arithmetic::mul::lemma_mul_is_commutative;
use vstd::arithmetic::mul::lemma_mul_is_distributive_add;
use vstd::arithmetic::mul::lemma_mul_is_distributive_add_other_way;
use vstd::arithmetic::mul::lemma_mul_is_distributive_sub;
use vstd::arithmetic::mul::lemma_mul_unary_negation;
use vstd::prelude::*;

verus! {

/// Largest magnitude allowed for a caller-supplied coordinate.
pub const COORD_LIMIT: i64 = 100_000;

/// Largest magnitude of any coordinate the geometry routines accept; the
/// triangulation builder's sentinel points stay within this bound.
pub const WORK_LIMIT: i64 = 600_000;

/// A point of the plane with exact integer coordinates.
#[derive(Clone, Copy, PartialEq, Eq, Structural, Debug)]
pub struct Point {
    pub x: i64,
    pub y: i64,
}

impl Point {
    pub fn new(x: i64, y: i64) -> (r: Self)
        ensures
            r.x == x,
            r.y == y,
    {
        Self { x, y }
    }

    pub fn origin() -> (r: Self)
        ensures
            r.x == 0,
            r.y == 0,
    {
        Self { x: 0, y: 0 }
    }
}

/// The coordinates both fit the caller-facing bound.
pub open spec fn in_coord_range(p: Point) -> bool {
    -COORD_LIMIT <= p.x <= COORD_LIMIT && -COORD_LIMIT <= p.y <= COORD_LIMIT
}

/// The coordinates fit the working bound of the geometry routines.
pub open spec fn in_work_range(p: Point) -> bool {
    -WORK_LIMIT <= p.x <= WORK_LIMIT && -WORK_LIMIT <= p.y <= WORK_LIMIT
}

/// Squared distance of `p` from the origin.
pub open spec fn sq_norm(p: Point) -> int {
    p.x * p.x + p.y * p.y
}

/// Twice the signed area of the triangle `(p1, p2, p3)`; zero exactly when
/// the three points are collinear.
pub open spec fn det_a(p1: Point, p2: Point, p3: Point) -> int {
    p1.x * p2.y + p3.x * p1.y + p2.x * p3.y - p3.x * p2.y - p2.x * p1.y - p1.x * p3.y
}

/// The x coefficient of the circumcircle equation.
pub open spec fn det_bx(p1: Point, p2: Point, p3: Point) -> int {
    -sq_norm(p1) * p2.y - sq_norm(p2) * p3.y - sq_norm(p3) * p1.y + sq_norm(p3) * p2.y
        + sq_norm(p2) * p1.y + sq_norm(p1) * p3.y
}

/// The y coefficient of the circumcircle equation.
pub open spec fn det_by(p1: Point, p2: Point, p3: Point) -> int {
    sq_norm(p1) * p2.x + sq_norm(p2) * p3.x + sq_norm(p3) * p1.x - sq_norm(p3) * p2.x
        - sq_norm(p2) * p1.x - sq_norm(p1) * p3.x
}

/// The constant coefficient of the circumcircle equation.
pub open spec fn det_c(p1: Point, p2: Point, p3: Point) -> int {
    -sq_norm(p1) * p2.x * p3.y - p1.x * p2.y * sq_norm(p3) - sq_norm(p2) * p3.x * p1.y
        + sq_norm(p3) * p2.x * p1.y + p3.x * p2.y * sq_norm(p1) + sq_norm(p2) * p1.x * p3.y
}

/// The discriminant `bx^2 + by^2 - 4 a c`; it equals `(2 a r)^2` for the
/// circumradius `r`, and is therefore never negative.
pub open spec fn discriminant(p1: Point, p2: Point, p3: Point) -> int {
    det_bx(p1, p2, p3) * det_bx(p1, p2, p3) + det_by(p1, p2, p3) * det_by(p1, p2, p3)
        - 4 * det_a(p1, p2, p3) * det_c(p1, p2, p3)
}

/// `1` when `det_a(p1, p2, p3) >= 0`, else `-1`: the factor that normalizes
/// the circumcenter's denominator to a positive value.
pub open spec fn circum_sign(p1: Point, p2: Point, p3: Point) -> int {
    if det_a(p1, p2, p3) >= 0 {
        1
    } else {
        -1
    }
}

/// The circumcenter of `(p1, p2, p3)` as a rational point
/// `(num_x, num_y, den)`, meaning `(num_x / den, num_y / den)`, with
/// `den > 0` whenever the points are not collinear.
pub open spec fn circum_center(p1: Point, p2: Point, p3: Point) -> (int, int, int) {
    (
        -circum_sign(p1, p2, p3) * det_bx(p1, p2, p3),
        -circum_sign(p1, p2, p3) * det_by(p1, p2, p3),
        circum_sign(p1, p2, p3) * 2 * det_a(p1, p2, p3),
    )
}

/// `p` lies exactly on the circle with rational center `c` and squared
/// radius `r2 / c.2^2`.
pub open spec fn on_circle(c: (int, int, int), r2: int, p: Point) -> bool {
    (p.x * c.2 - c.0) * (p.x * c.2 - c.0) + (p.y * c.2 - c.1) * (p.y * c.2 - c.1) == r2
}

/// `p` lies strictly inside the circle with rational center `c` and squared
/// radius `r2 / c.2^2` (open disk: the boundary is excluded).
pub open spec fn in_circle(c: (int, int, int), r2: int, p: Point) -> bool {
    (p.x * c.2 - c.0) * (p.x * c.2 - c.0) + (p.y * c.2 - c.1) * (p.y * c.2 - c.1) < r2
}

/// Index of a point in a triangulation's point array.
pub type PointIndex = usize;

/// Index of a triangle in a triangulation's triangle array.
pub type TriangleIndex = usize;

/// An unordered edge between two points, stored smaller index first.
pub type Edge = (PointIndex, PointIndex);

/// An unordered triangle, stored as three point indices in ascending order.
pub type Triangle = (PointIndex, PointIndex, PointIndex);

/// `v` is a vertex of `t`.
pub open spec fn tri_has(t: Triangle, v: PointIndex) -> bool {
    v == t.0 || v == t.1 || v == t.2
}

/// Both endpoints of `e` are vertices of `t`.
pub open spec fn tri_has_edge(t: Triangle, e: Edge) -> bool {
    tri_has(t, e.0) && tri_has(t, e.1)
}

/// The ascending arrangement of three indices: the canonical identity of a
/// triangle, independent of the order in which its vertices were found.
pub open spec fn sort3(i: usize, j: usize, k: usize) -> Triangle {
    if i < j {
        if j < k {
            (i, j, k)
        } else if i < k {
            (i, k, j)
        } else {
            (k, i, j)
        }
    } else {
        if i < k {
            (j, i, k)
        } else if j < k {
            (j, k, i)
        } else {
            (k, j, i)
        }
    }
}

/// Canonicalizes three point indices into ascending order, so that the same
/// three vertices always yield the same triangle value.
pub fn makeTriangle(i: usize, j: usize, k: usize) -> (r: Triangle)
    ensures
        r == sort3(i, j, k),
        tri_has(r, i) && tri_has(r, j) && tri_has(r, k),
        i != j && j != k && i != k ==> r.0 < r.1 && r.1 < r.2,
{
    if i < j {
        if j < k {
            (i, j, k)
        } else if i < k {
            (i, k, j)
        } else {
            (k, i, j)
        }
    } else {
        if i < k {
            (j, i, k)
        } else if j < k {
            (j, k, i)
        } else {
            (k, j, i)
        }
    }
}

/// Canonicalization does not depend on the order in which the three vertex
/// indices are given.
pub proof fn lemma_makeTriangle_order_independent(i: usize, j: usize, k: usize)
    requires
        i != j,
        j != k,
        i != k,
    ensures
        sort3(i, j, k) == sort3(i, k, j),
        sort3(i, j, k) == sort3(j, i, k),
        sort3(i, j, k) == sort3(j, k, i),
        sort3(i, j, k) == sort3(k, i, j),
        sort3(i, j, k) == sort3(k, j, i),
{
}

/// True iff both endpoints of `edge` are vertices of `triangle`.
pub fn edgeInTriangle(edge: Edge, triangle: Triangle) -> (r: bool)
    ensures
        r == tri_has_edge(triangle, edge),
{
    (edge.0 == triangle.0 || edge.0 == triangle.1 || edge.0 == triangle.2) && (edge.1 == triangle.0
        || edge.1 == triangle.1 || edge.1 == triangle.2)
}

/// The three points are not collinear and `q` lies strictly inside their
/// circumcircle: the "bad triangle" test of the incremental builder.
pub open spec fn point_in_circumcircle(p1: Point, p2: Point, p3: Point, q: Point) -> bool {
    det_a(p1, p2, p3) != 0 && in_circle(
        circum_center(p1, p2, p3),
        discriminant(p1, p2, p3),
        q,
    )
}

/// A rational point: the value `(num_x / den, num_y / den)`.
///
/// Equality is exact field comparison; the builder produces each value in a
/// single canonical way (`den > 0`), so equal cells compare equal.
#[derive(Clone, Copy, PartialEq, Eq, Structural, Debug)]
pub struct RationalPoint {
    pub num_x: i128,
    pub num_y: i128,
    pub den: i128,
}

impl View for RationalPoint {
    type V = (int, int, int);

    open spec fn view(&self) -> (int, int, int) {
        (self.num_x as int, self.num_y as int, self.den as int)
    }
}

/// A Voronoi cell boundary: an ordered sequence of circumcenters.
pub type Polygon = Vec<RationalPoint>;

/// A circle with exact rational center and squared radius
/// `radius_sq_num / center.den^2`.
#[derive(Clone, Copy, PartialEq, Eq, Structural, Debug)]
pub struct Circle {
    pub center: RationalPoint,
    pub radius_sq_num: i128,
}

/// Bounds under which the point-in-circle test cannot overflow, established
/// by `circumCircle` for points in the working range.
pub open spec fn circle_wf(c: Circle) -> bool {
    &&& 0 < c.center.den <= 4_320_000_000_000int
    &&& -2_592_000_000_000_000_000int <= c.center.num_x <= 2_592_000_000_000_000_000int
    &&& -2_592_000_000_000_000_000int <= c.center.num_y <= 2_592_000_000_000_000_000int
    &&& 0 <= c.radius_sq_num <= 26_873_856_000_000_000_000_000_000_000_000_000_000int
}

proof fn lemma_mul_bounds(x: int, y: int, bx: int, by: int)
    by (nonlinear_arith)
    requires
        -bx <= x <= bx,
        -by <= y <= by,
    ensures
        -(bx * by) <= x * y <= bx * by,
{
}

/// Multiplies two bounded values; the ghost bounds make the `i128`
/// overflow check linear at every call site.
fn mul_b(x: i128, y: i128, bound_x: Ghost<int>, bound_y: Ghost<int>) -> (r: i128)
    requires
        -bound_x@ <= x <= bound_x@,
        -bound_y@ <= y <= bound_y@,
        bound_x@ * bound_y@ <= 0x7fff_ffff_ffff_ffff_ffff_ffff_ffff_ffffint,
    ensures
        r == x * y,
        -(bound_x@ * bound_y@) <= r <= bound_x@ * bound_y@,
{
    proof {
        lemma_mul_bounds(x as int, y as int, bound_x@, bound_y@);
    }
    x * y
}

/// Factored form of the six-term x coefficient.
proof fn lemma_bx_factor(s1: int, s2: int, s3: int, a1: int, a2: int, a3: int)
    by (nonlinear_arith)
    ensures
        -s1 * a2 - s2 * a3 - s3 * a1 + s3 * a2 + s2 * a1 + s1 * a3 == s1 * (a3 - a2) + s2 * (a1
            - a3) + s3 * (a2 - a1),
{
}

/// Factored form of the six-term y coefficient.
proof fn lemma_by_factor(s1: int, s2: int, s3: int, b1: int, b2: int, b3: int)
    by (nonlinear_arith)
    ensures
        s1 * b2 + s2 * b3 + s3 * b1 - s3 * b2 - s2 * b1 - s1 * b3 == s1 * (b2 - b3) + s2 * (b3
            - b1) + s3 * (b1 - b2),
{
}

/// Factored form of the six-term constant coefficient.
proof fn lemma_c_factor(
    s1: int,
    s2: int,
    s3: int,
    x1: int,
    y1: int,
    x2: int,
    y2: int,
    x3: int,
    y3: int,
)
    ensures
        -s1 * x2 * y3 - x1 * y2 * s3 - s2 * x3 * y1 + s3 * x2 * y1 + x3 * y2 * s1 + s2 * x1 * y3
            == s1 * (x3 * y2 - x2 * y3) + s2 * (x1 * y3 - x3 * y1) + s3 * (x2 * y1 - x1 * y2),
{
    lemma_mul_unary_negation(s1, x2);
    lemma_mul_unary_negation(s1 * x2, y3);
    lemma_mul_is_associative(s1, x2, y3);
    lemma_mul_is_distributive_sub(s1, x3 * y2, x2 * y3);
    lemma_mul_is_commutative(s1, x3 * y2);
    lemma_mul_is_distributive_sub(s2, x1 * y3, x3 * y1);
    lemma_mul_is_associative(s2, x1, y3);
    lemma_mul_is_associative(s2, x3, y1);
    lemma_mul_is_distributive_sub(s3, x2 * y1, x1 * y2);
    lemma_mul_is_associative(s3, x2, y1);
    lemma_mul_is_commutative(s3, x1 * y2);
}

/// `(qy - by) qx + (bx - qx) qy + (qx by - bx qy)` vanishes, in both sign
/// conventions: the line determinant of a pair with a repeated point.
proof fn lemma_degenerate_line(qx: int, qy: int, bx: int, by: int)
    by (nonlinear_arith)
    ensures
        (qy - by) * qx + (bx - qx) * qy + (qx * by - bx * qy) == 0,
        (by - qy) * qx + (qx - bx) * qy + (bx * qy - qx * by) == 0,
{
}

/// Multiplying a vanishing four-term sum by `s` term-wise still vanishes.
proof fn lemma_mul_sum_zero4(s: int, u1: int, u2: int, u3: int, u4: int)
    by (nonlinear_arith)
    requires
        u1 + u2 + u3 + u4 == 0,
    ensures
        s * u1 + s * u2 + s * u3 + s * u4 == 0,
{
}

/// Multiplying a vanishing three-term sum by `s` term-wise still vanishes.
proof fn lemma_mul_sum_zero3(s: int, u1: int, u2: int, u3: int)
    by (nonlinear_arith)
    requires
        u1 + u2 + u3 == 0,
    ensures
        s * u1 + s * u2 + s * u3 == 0,
{
}

/// The three-point sum `A` plus the first point's own group vanishes.
proof fn lemma_inner_first(x1: int, y1: int, x2: int, y2: int, x3: int, y3: int)
    by (nonlinear_arith)
    ensures
        (x1 * y2 + x3 * y1 + x2 * y3 - x3 * y2 - x2 * y1 - x1 * y3) + (y3 - y2) * x1 + (x2 - x3)
            * y1 + (x3 * y2 - x2 * y3) == 0,
{
}

/// The three-point sum `A` plus the second point's own group vanishes.
proof fn lemma_inner_second(x1: int, y1: int, x2: int, y2: int, x3: int, y3: int)
    by (nonlinear_arith)
    ensures
        (x1 * y2 + x3 * y1 + x2 * y3 - x3 * y2 - x2 * y1 - x1 * y3) + (y1 - y3) * x2 + (x3 - x1)
            * y2 + (x1 * y3 - x3 * y1) == 0,
{
}

/// The three-point sum `A` plus the third point's own group vanishes.
proof fn lemma_inner_third(x1: int, y1: int, x2: int, y2: int, x3: int, y3: int)
    by (nonlinear_arith)
    ensures
        (x1 * y2 + x3 * y1 + x2 * y3 - x3 * y2 - x2 * y1 - x1 * y3) + (y2 - y1) * x3 + (x1 - x2)
            * y3 + (x2 * y1 - x1 * y2) == 0,
{
}

/// Distributes the factored coefficient sums over a target coordinate pair.
proof fn lemma_distribute_groups(
    s1: int,
    s2: int,
    s3: int,
    x1: int,
    y1: int,
    x2: int,
    y2: int,
    x3: int,
    y3: int,
    tx: int,
    ty: int,
)
    ensures
        (s1 * (y3 - y2) + s2 * (y1 - y3) + s3 * (y2 - y1)) * tx == s1 * ((y3 - y2) * tx) + s2 * ((
        y1 - y3) * tx) + s3 * ((y2 - y1) * tx),
        (s1 * (x2 - x3) + s2 * (x3 - x1) + s3 * (x1 - x2)) * ty == s1 * ((x2 - x3) * ty) + s2 * ((
        x3 - x1) * ty) + s3 * ((x1 - x2) * ty),
{
    lemma_mul_is_distributive_add_other_way(
        tx,
        s1 * (y3 - y2) + s2 * (y1 - y3),
        s3 * (y2 - y1),
    );
    lemma_mul_is_distributive_add_other_way(tx, s1 * (y3 - y2), s2 * (y1 - y3));
    lemma_mul_is_associative(s1, y3 - y2, tx);
    lemma_mul_is_associative(s2, y1 - y3, tx);
    lemma_mul_is_associative(s3, y2 - y1, tx);
    lemma_mul_is_distributive_add_other_way(
        ty,
        s1 * (x2 - x3) + s2 * (x3 - x1),
        s3 * (x1 - x2),
    );
    lemma_mul_is_distributive_add_other_way(ty, s1 * (x2 - x3), s2 * (x3 - x1));
    lemma_mul_is_associative(s1, x2 - x3, ty);
    lemma_mul_is_associative(s2, x3 - x1, ty);
    lemma_mul_is_associative(s3, x1 - x2, ty);
}

/// The circle identity at the first point, over the factored coefficients.
proof fn lemma_ident_at_first(
    s1: int,
    s2: int,
    s3: int,
    x1: int,
    y1: int,
    x2: int,
    y2: int,
    x3: int,
    y3: int,
)
    ensures
        (x1 * y2 + x3 * y1 + x2 * y3 - x3 * y2 - x2 * y1 - x1 * y3) * s1 + (s1 * (y3 - y2) + s2 * (
        y1 - y3) + s3 * (y2 - y1)) * x1 + (s1 * (x2 - x3) + s2 * (x3 - x1) + s3 * (x1 - x2)) * y1
            + (s1 * (x3 * y2 - x2 * y3) + s2 * (x1 * y3 - x3 * y1) + s3 * (x2 * y1 - x1 * y2))
            == 0,
{
    let aa = x1 * y2 + x3 * y1 + x2 * y3 - x3 * y2 - x2 * y1 - x1 * y3;
    lemma_mul_is_commutative(aa, s1);
    lemma_distribute_groups(s1, s2, s3, x1, y1, x2, y2, x3, y3, x1, y1);
    lemma_inner_first(x1, y1, x2, y2, x3, y3);
    lemma_mul_sum_zero4(s1, aa, (y3 - y2) * x1, (x2 - x3) * y1, x3 * y2 - x2 * y3);
    lemma_degenerate_line(x1, y1, x3, y3);
    lemma_mul_sum_zero3(s2, (y1 - y3) * x1, (x3 - x1) * y1, x1 * y3 - x3 * y1);
    lemma_degenerate_line(x1, y1, x2, y2);
    lemma_mul_sum_zero3(s3, (y2 - y1) * x1, (x1 - x2) * y1, x2 * y1 - x1 * y2);
}

/// The circle identity at the second point, over the factored coefficients.
proof fn lemma_ident_at_second(
    s1: int,
    s2: int,
    s3: int,
    x1: int,
    y1: int,
    x2: int,
    y2: int,
    x3: int,
    y3: int,
)
    ensures
        (x1 * y2 + x3 * y1 + x2 * y3 - x3 * y2 - x2 * y1 - x1 * y3) * s2 + (s1 * (y3 - y2) + s2 * (
        y1 - y3) + s3 * (y2 - y1)) * x2 + (s1 * (x2 - x3) + s2 * (x3 - x1) + s3 * (x1 - x2)) * y2
            + (s1 * (x3 * y2 - x2 * y3) + s2 * (x1 * y3 - x3 * y1) + s3 * (x2 * y1 - x1 * y2))
            == 0,
{
    let aa = x1 * y2 + x3 * y1 + x2 * y3 - x3 * y2 - x2 * y1 - x1 * y3;
    lemma_mul_is_commutative(aa, s2);
    lemma_distribute_groups(s1, s2, s3, x1, y1, x2, y2, x3, y3, x2, y2);
    lemma_degenerate_line(x2, y2, x3, y3);
    lemma_mul_sum_zero3(s1, (y3 - y2) * x2, (x2 - x3) * y2, x3 * y2 - x2 * y3);
    lemma_inner_second(x1, y1, x2, y2, x3, y3);
    lemma_mul_sum_zero4(s2, aa, (y1 - y3) * x2, (x3 - x1) * y2, x1 * y3 - x3 * y1);
    lemma_degenerate_line(x2, y2, x1, y1);
    lemma_mul_sum_zero3(s3, (y2 - y1) * x2, (x1 - x2) * y2, x2 * y1 - x1 * y2);
}

/// The circle identity at the third point, over the factored coefficients.
proof fn lemma_ident_at_third(
    s1: int,
    s2: int,
    s3: int,
    x1: int,
    y1: int,
    x2: int,
    y2: int,
    x3: int,
    y3: int,
)
    ensures
        (x1 * y2 + x3 * y1 + x2 * y3 - x3 * y2 - x2 * y1 - x1 * y3) * s3 + (s1 * (y3 - y2) + s2 * (
        y1 - y3) + s3 * (y2 - y1)) * x3 + (s1 * (x2 - x3) + s2 * (x3 - x1) + s3 * (x1 - x2)) * y3
            + (s1 * (x3 * y2 - x2 * y3) + s2 * (x1 * y3 - x3 * y1) + s3 * (x2 * y1 - x1 * y2))
            == 0,
{
    let aa = x1 * y2 + x3 * y1 + x2 * y3 - x3 * y2 - x2 * y1 - x1 * y3;
    lemma_mul_is_commutative(aa, s3);
    lemma_distribute_groups(s1, s2, s3, x1, y1, x2, y2, x3, y3, x3, y3);
    lemma_degenerate_line(x3, y3, x2, y2);
    lemma_mul_sum_zero3(s1, (y3 - y2) * x3, (x2 - x3) * y3, x3 * y2 - x2 * y3);
    lemma_degenerate_line(x3, y3, x1, y1);
    lemma_mul_sum_zero3(s2, (y1 - y3) * x3, (x3 - x1) * y3, x1 * y3 - x3 * y1);
    lemma_inner_third(x1, y1, x2, y2, x3, y3);
    lemma_mul_sum_zero4(s3, aa, (y2 - y1) * x3, (x1 - x2) * y3, x2 * y1 - x1 * y2);
}

/// The defining identity of the circumcircle coefficients: each of the three
/// points satisfies `a * (x^2 + y^2) + bx * x + by * y + c == 0`.
proof fn lemma_circum_identity(p1: Point, p2: Point, p3: Point)
    ensures
        det_a(p1, p2, p3) * sq_norm(p1) + det_bx(p1, p2, p3) * p1.x + det_by(p1, p2, p3) * p1.y
            + det_c(p1, p2, p3) == 0,
        det_a(p1, p2, p3) * sq_norm(p2) + det_bx(p1, p2, p3) * p2.x + det_by(p1, p2, p3) * p2.y
            + det_c(p1, p2, p3) == 0,
        det_a(p1, p2, p3) * sq_norm(p3) + det_bx(p1, p2, p3) * p3.x + det_by(p1, p2, p3) * p3.y
            + det_c(p1, p2, p3) == 0,
{
    let s1 = sq_norm(p1);
    let s2 = sq_norm(p2);
    let s3 = sq_norm(p3);
    let (x1, y1) = (p1.x as int, p1.y as int);
    let (x2, y2) = (p2.x as int, p2.y as int);
    let (x3, y3) = (p3.x as int, p3.y as int);
    lemma_bx_factor(s1, s2, s3, y1, y2, y3);
    lemma_by_factor(s1, s2, s3, x1, x2, x3);
    lemma_c_factor(s1, s2, s3, x1, y1, x2, y2, x3, y3);
    assert(det_bx(p1, p2, p3) == s1 * (y3 - y2) + s2 * (y1 - y3) + s3 * (y2 - y1));
    assert(det_by(p1, p2, p3) == s1 * (x2 - x3) + s2 * (x3 - x1) + s3 * (x1 - x2));
    assert(det_c(p1, p2, p3) == s1 * (x3 * y2 - x2 * y3) + s2 * (x1 * y3 - x3 * y1) + s3 * (x2 * y1
        - x1 * y2));
    lemma_ident_at_first(s1, s2, s3, x1, y1, x2, y2, x3, y3);
    lemma_ident_at_second(s1, s2, s3, x1, y1, x2, y2, x3, y3);
    lemma_ident_at_third(s1, s2, s3, x1, y1, x2, y2, x3, y3);
    assert(det_a(p1, p2, p3) * s1 == (x1 * y2 + x3 * y1 + x2 * y3 - x3 * y2 - x2 * y1 - x1 * y3)
        * s1);
    assert(det_a(p1, p2, p3) * s2 == (x1 * y2 + x3 * y1 + x2 * y3 - x3 * y2 - x2 * y1 - x1 * y3)
        * s2);
    assert(det_a(p1, p2, p3) * s3 == (x1 * y2 + x3 * y1 + x2 * y3 - x3 * y2 - x2 * y1 - x1 * y3)
        * s3);
}

/// `(2 w + b)^2` expanded into monomials.
proof fn lemma_square_shift(w: int, b: int)
    by (nonlinear_arith)
    ensures
        (2 * w + b) * (2 * w + b) == 4 * (w * w) + 4 * (w * b) + b * b,
{
}

/// Renormalizes the square of a product: `(a x)(a x) == a (a (x x))`.
proof fn lemma_product_square(a: int, x: int)
    ensures
        (a * x) * (a * x) == a * (a * (x * x)),
        (a * x) * (a * x) == (a * a) * (x * x),
{
    lemma_mul_is_associative(a, x, a * x);
    lemma_mul_is_associative(x, a, x);
    lemma_mul_is_commutative(x, a);
    lemma_mul_is_associative(a, x, x);
    lemma_mul_is_associative(a, a, x * x);
}

/// Expands the discriminant with the constant coefficient eliminated
/// through the circle identity at the point `(x, y)`.
proof fn lemma_disc_expand(a: int, bx: int, by: int, x: int, y: int)
    ensures
        bx * bx + by * by - 4 * a * (-(a * (x * x + y * y) + bx * x + by * y)) == (2 * a * x + bx)
            * (2 * a * x + bx) + (2 * a * y + by) * (2 * a * y + by),
{
    let s = a * (x * x + y * y) + bx * x + by * y;
    lemma_mul_unary_negation(4 * a, s);
    lemma_mul_is_associative(4, a, s);
    lemma_mul_is_distributive_add(a, a * (x * x + y * y) + bx * x, by * y);
    lemma_mul_is_distributive_add(a, a * (x * x + y * y), bx * x);
    lemma_mul_is_distributive_add(a, x * x, y * y);
    lemma_mul_is_distributive_add(a, a * (x * x), a * (y * y));
    lemma_square_shift(a * x, bx);
    lemma_square_shift(a * y, by);
    lemma_mul_is_associative(2, a, x);
    lemma_mul_is_associative(2, a, y);
    lemma_product_square(a, x);
    lemma_product_square(a, y);
    lemma_mul_is_associative(a, x, bx);
    lemma_mul_is_commutative(x, bx);
    lemma_mul_is_associative(a, bx, x);
    lemma_mul_is_associative(a, y, by);
    lemma_mul_is_commutative(y, by);
    lemma_mul_is_associative(a, by, y);
}

/// Rewrites the discriminant through the circle identity at a point.
proof fn lemma_disc_from_identity(a: int, bx: int, by: int, c: int, x: int, y: int)
    requires
        a * (x * x + y * y) + bx * x + by * y + c == 0,
    ensures
        bx * bx + by * by - 4 * a * c == (2 * a * x + bx) * (2 * a * x + bx) + (2 * a * y + by) * (
        2 * a * y + by),
{
    lemma_disc_expand(a, bx, by, x, y);
    assert(c == -(a * (x * x + y * y) + bx * x + by * y));
}

/// Multiplication by a unit sign, in the shapes of `circum_center`.
proof fn lemma_unit_sign_mul(s: int, u: int)
    by (nonlinear_arith)
    requires
        s == 1 || s == -1,
    ensures
        s == 1 ==> -s * u == -u && s * 2 * u == 2 * u,
        s == -1 ==> -s * u == u && s * 2 * u == -(2 * u),
{
}

/// A square is never negative.
proof fn lemma_square_nonneg(x: int)
    by (nonlinear_arith)
    ensures
        0 <= x * x,
{
}

/// Squaring forgets a sign flip.
proof fn lemma_square_sign(s: int, u: int, v: int)
    by (nonlinear_arith)
    requires
        s == 1 || s == -1,
        v == s * u,
    ensures
        v * v == u * u,
{
}

/// The discriminant is a sum of two squares, hence never negative.
pub proof fn lemma_discriminant_nonneg(p1: Point, p2: Point, p3: Point)
    ensures
        discriminant(p1, p2, p3) >= 0,
{
    lemma_circum_identity(p1, p2, p3);
    lemma_disc_from_identity(
        det_a(p1, p2, p3),
        det_bx(p1, p2, p3),
        det_by(p1, p2, p3),
        det_c(p1, p2, p3),
        p1.x as int,
        p1.y as int,
    );
    lemma_square_nonneg(2 * det_a(p1, p2, p3) * p1.x + det_bx(p1, p2, p3));
    lemma_square_nonneg(2 * det_a(p1, p2, p3) * p1.y + det_by(p1, p2, p3));
}

/// For any three non-collinear points the circumcircle is exactly
/// equidistant from all three: each lies on its boundary.
pub proof fn lemma_circumcircle_equidistant(p1: Point, p2: Point, p3: Point)
    requires
        det_a(p1, p2, p3) != 0,
    ensures
        on_circle(circum_center(p1, p2, p3), discriminant(p1, p2, p3), p1),
        on_circle(circum_center(p1, p2, p3), discriminant(p1, p2, p3), p2),
        on_circle(circum_center(p1, p2, p3), discriminant(p1, p2, p3), p3),
{
    lemma_circum_identity(p1, p2, p3);
    lemma_on_boundary_at(p1, p2, p3, p1);
    lemma_on_boundary_at(p1, p2, p3, p2);
    lemma_on_boundary_at(p1, p2, p3, p3);
}

/// A point satisfying the circle identity lies on the canonical circle.
proof fn lemma_on_boundary_at(p1: Point, p2: Point, p3: Point, q: Point)
    requires
        det_a(p1, p2, p3) * sq_norm(q) + det_bx(p1, p2, p3) * q.x + det_by(p1, p2, p3) * q.y
            + det_c(p1, p2, p3) == 0,
    ensures
        on_circle(circum_center(p1, p2, p3), discriminant(p1, p2, p3), q),
{
    let a = det_a(p1, p2, p3);
    let bx = det_bx(p1, p2, p3);
    let by = det_by(p1, p2, p3);
    let c = det_c(p1, p2, p3);
    let s = circum_sign(p1, p2, p3);
    lemma_disc_from_identity(a, bx, by, c, q.x as int, q.y as int);
    assert(q.x * (s * 2 * a) - (-s * bx) == s * (2 * a * q.x + bx)) by (nonlinear_arith);
    assert(q.y * (s * 2 * a) - (-s * by) == s * (2 * a * q.y + by)) by (nonlinear_arith);
    lemma_square_sign(s, 2 * a * q.x + bx, s * (2 * a * q.x + bx));
    lemma_square_sign(s, 2 * a * q.y + by, s * (2 * a * q.y + by));
}

impl Circle {
    /// True iff `p` lies strictly inside this circle (open disk): the
    /// squared distance from the center is less than the squared radius.
    pub fn enclose(&self, p: &Point) -> (r: bool)
        requires
            circle_wf(*self),
            in_work_range(*p),
        ensures
            r == in_circle(self.center@, self.radius_sq_num as int, *p),
    {
        let px: i128 = p.x as i128;
        let py: i128 = p.y as i128;
        let tx: i128 = mul_b(px, self.center.den, Ghost(600_000int), Ghost(4_320_000_000_000int))
            - self.center.num_x;
        let ty: i128 = mul_b(py, self.center.den, Ghost(600_000int), Ghost(4_320_000_000_000int))
            - self.center.num_y;
        let dx: i128 = mul_b(
            tx,
            tx,
            Ghost(5_184_000_000_000_000_000int),
            Ghost(5_184_000_000_000_000_000int),
        );
        let dy: i128 = mul_b(
            ty,
            ty,
            Ghost(5_184_000_000_000_000_000int),
            Ghost(5_184_000_000_000_000_000int),
        );
        self.radius_sq_num > dx + dy
    }
}

/// Computes the circle through three points with the standard determinant
/// formulas, exactly. Returns `None` exactly when the points are collinear
/// (`det_a == 0`), the degenerate case in which no such circle exists.
pub fn circumCircle(p1: &Point, p2: &Point, p3: &Point) -> (r: Option<Circle>)
    requires
        in_work_range(*p1),
        in_work_range(*p2),
        in_work_range(*p3),
    ensures
        match r {
            Some(c) => det_a(*p1, *p2, *p3) != 0 && c.center@ == circum_center(*p1, *p2, *p3)
                && c.radius_sq_num == discriminant(*p1, *p2, *p3) && circle_wf(c),
            None => det_a(*p1, *p2, *p3) == 0,
        },
{
    let ghost wl: int = 600_000int;
    let ghost sqb: int = 720_000_000_000int;
    let ghost xyb: int = 360_000_000_000int;
    let ghost bxb: int = 2_592_000_000_000_000_000int;
    let ghost tcb: int = 432_000_000_000_000_000int;
    let ghost cb: int = 1_555_200_000_000_000_000_000_000int;
    let x1: i128 = p1.x as i128;
    let y1: i128 = p1.y as i128;
    let x2: i128 = p2.x as i128;
    let y2: i128 = p2.y as i128;
    let x3: i128 = p3.x as i128;
    let y3: i128 = p3.y as i128;
    let sq1: i128 = mul_b(x1, x1, Ghost(wl), Ghost(wl)) + mul_b(y1, y1, Ghost(wl), Ghost(wl));
    let sq2: i128 = mul_b(x2, x2, Ghost(wl), Ghost(wl)) + mul_b(y2, y2, Ghost(wl), Ghost(wl));
    let sq3: i128 = mul_b(x3, x3, Ghost(wl), Ghost(wl)) + mul_b(y3, y3, Ghost(wl), Ghost(wl));
    let a: i128 = mul_b(x1, y2, Ghost(wl), Ghost(wl)) + mul_b(x3, y1, Ghost(wl), Ghost(wl)) + mul_b(
        x2,
        y3,
        Ghost(wl),
        Ghost(wl),
    ) - mul_b(x3, y2, Ghost(wl), Ghost(wl)) - mul_b(x2, y1, Ghost(wl), Ghost(wl)) - mul_b(
        x1,
        y3,
        Ghost(wl),
        Ghost(wl),
    );
    let bx: i128 = -mul_b(sq1, y2, Ghost(sqb), Ghost(wl)) - mul_b(sq2, y3, Ghost(sqb), Ghost(wl))
        - mul_b(sq3, y1, Ghost(sqb), Ghost(wl)) + mul_b(sq3, y2, Ghost(sqb), Ghost(wl)) + mul_b(
        sq2,
        y1,
        Ghost(sqb),
        Ghost(wl),
    ) + mul_b(sq1, y3, Ghost(sqb), Ghost(wl));
    let by: i128 = mul_b(sq1, x2, Ghost(sqb), Ghost(wl)) + mul_b(sq2, x3, Ghost(sqb), Ghost(wl))
        + mul_b(sq3, x1, Ghost(sqb), Ghost(wl)) - mul_b(sq3, x2, Ghost(sqb), Ghost(wl)) - mul_b(
        sq2,
        x1,
        Ghost(sqb),
        Ghost(wl),
    ) - mul_b(sq1, x3, Ghost(sqb), Ghost(wl));
    let c: i128 = -mul_b(mul_b(sq1, x2, Ghost(sqb), Ghost(wl)), y3, Ghost(tcb), Ghost(wl)) - mul_b(
        mul_b(x1, y2, Ghost(wl), Ghost(wl)),
        sq3,
        Ghost(xyb),
        Ghost(sqb),
    ) - mul_b(mul_b(sq2, x3, Ghost(sqb), Ghost(wl)), y1, Ghost(tcb), Ghost(wl)) + mul_b(
        mul_b(sq3, x2, Ghost(sqb), Ghost(wl)),
        y1,
        Ghost(tcb),
        Ghost(wl),
    ) + mul_b(mul_b(x3, y2, Ghost(wl), Ghost(wl)), sq1, Ghost(xyb), Ghost(sqb)) + mul_b(
        mul_b(sq2, x1, Ghost(sqb), Ghost(wl)),
        y3,
        Ghost(tcb),
        Ghost(wl),
    );
    if a == 0 {
        None
    } else {
        let disc: i128 = mul_b(bx, bx, Ghost(bxb), Ghost(bxb)) + mul_b(by, by, Ghost(bxb), Ghost(bxb))
            - 4 * mul_b(a, c, Ghost(2_160_000_000_000int), Ghost(cb));
        proof {
            lemma_discriminant_nonneg(*p1, *p2, *p3);
            lemma_mul_unary_negation(sq_norm(*p1), p2.y as int);
            lemma_mul_unary_negation(sq_norm(*p1), p2.x as int);
            lemma_mul_unary_negation(sq_norm(*p1) * (p2.x as int), p3.y as int);
            lemma_mul_is_associative(4, det_a(*p1, *p2, *p3), det_c(*p1, *p2, *p3));
            assert(bx as int == det_bx(*p1, *p2, *p3));
            assert(by as int == det_by(*p1, *p2, *p3));
            assert(c as int == det_c(*p1, *p2, *p3));
            assert(disc as int == discriminant(*p1, *p2, *p3));
            lemma_unit_sign_mul(circum_sign(*p1, *p2, *p3), det_bx(*p1, *p2, *p3));
            lemma_unit_sign_mul(circum_sign(*p1, *p2, *p3), det_by(*p1, *p2, *p3));
            lemma_unit_sign_mul(circum_sign(*p1, *p2, *p3), det_a(*p1, *p2, *p3));
        }
        let center = if a > 0 {
            RationalPoint { num_x: -bx, num_y: -by, den: 2 * a }
        } else {
            RationalPoint { num_x: bx, num_y: by, den: -(2 * a) }
        };
        Some(Circle { center, radius_sq_num: disc })
    }
}

} // verus!
