//! The Voronoi diagram as the dual of a triangulation: for every input
//! point, the ordered polygon of circumcenters of its incident triangles.

use vstd::prelude::*;

use crate::error::Error;
use crate::geometry::Point;
use crate::geometry::PointIndex;
use crate::geometry::Polygon;
use crate::geometry::RationalPoint;
use crate::geometry::TriangleIndex;
use crate::geometry::circumCircle;
use crate::geometry::circum_center;
use crate::geometry::det_a;
use crate::triangulation::Triangulation;
use crate::triangulation::incident_count;

verus! {

/// A cell polygon, abstractly: each vertex as a rational-point triple.
pub open spec fn poly_model(c: Seq<RationalPoint>) -> Seq<(int, int, int)> {
    c.map_values(|q: RationalPoint| q@)
}

/// The circumcenter of the triangle at `ti` of `t`, as a rational point.
pub open spec fn tri_center_model(t: Triangulation, ti: int) -> (int, int, int) {
    let tri = t.triangles@[ti];
    circum_center(
        t.points@[tri.0 as int],
        t.points@[tri.1 as int],
        t.points@[tri.2 as int],
    )
}

/// The corners of the triangle at `ti` of `t` are not collinear.
pub open spec fn tri_nondegenerate(t: Triangulation, ti: int) -> bool {
    det_a(
        t.points@[t.triangles@[ti].0 as int],
        t.points@[t.triangles@[ti].1 as int],
        t.points@[t.triangles@[ti].2 as int],
    ) != 0
}

/// The dual diagram is defined: every retained triangle has a circumcircle,
/// every point has an incident triangle, and every fan walk succeeds.
pub open spec fn voronoi_ok(t: Triangulation) -> bool {
    &&& forall|ti: int| 0 <= ti < t.triangles@.len() ==> tri_nondegenerate(t, ti)
    &&& forall|pi: int|
        0 <= pi < t.points@.len() ==> incident_count(t.triangles@, pi as PointIndex) >= 1 && (
        #[trigger] t.ordered_fan(pi as PointIndex)) is Some
}

/// The cell of point `pi`: its ordered fan mapped to circumcenters.
pub open spec fn cell_model(t: Triangulation, pi: PointIndex) -> Seq<(int, int, int)> {
    match t.ordered_fan(pi) {
        Some(fan) => fan.map_values(|ti: TriangleIndex| tri_center_model(t, ti as int)),
        None => Seq::empty(),
    }
}

/// `v` is exactly the Voronoi diagram of `t`: same points, one cell per
/// point, each cell the image of that point's ordered fan.
pub open spec fn voronoi_matches(v: Voronoi, t: Triangulation) -> bool {
    &&& v.points@ == t.points@
    &&& v.polygons@.len() == t.points@.len()
    &&& forall|pi: int|
        0 <= pi < v.polygons@.len() ==> poly_model((#[trigger] v.polygons@[pi])@) == cell_model(
            t,
            pi as PointIndex,
        )
}

/// A Voronoi diagram: the input points and, for each, the ordered sequence
/// of circumcenters bounding its cell. Immutable once built.
pub struct Voronoi {
    pub points: Vec<Point>,
    pub polygons: Vec<Polygon>,
}

impl Voronoi {
    /// Builds the dual of `trian`, consuming it: one circumcenter per
    /// retained triangle, then one cell polygon per point, in the cyclic or
    /// linear order of that point's fan. An interior point's cell has
    /// exactly as many vertices as the point has incident triangles; a
    /// degenerate retained triangle or a failed fan walk is a fatal
    /// internal-invariant violation, reported as an error.
    pub fn fromTriangulation(trian: Triangulation) -> (r: Result<Self, Error>)
        requires
            trian.wf(),
        ensures
            match r {
                Ok(v) => voronoi_ok(trian) && voronoi_matches(v, trian) && forall|pi: int|
                    0 <= pi < v.polygons@.len() ==> (#[trigger] v.polygons@[pi])@.len()
                        == incident_count(trian.triangles@, pi as PointIndex),
                Err(_) => !voronoi_ok(trian),
            },
    {
        let mut centers: Vec<RationalPoint> = Vec::new();
        let mut ti: usize = 0;
        while ti < trian.triangles.len()
            invariant
                trian.wf(),
                0 <= ti <= trian.triangles@.len(),
                centers@.len() == ti,
                forall|j: int| 0 <= j < ti ==> (#[trigger] centers@[j])@ == tri_center_model(trian, j),
                forall|j: int| 0 <= j < ti ==> tri_nondegenerate(trian, j),
            decreases trian.triangles@.len() - ti,
        {
            let t = trian.triangles[ti];
            match circumCircle(&trian.points[t.0], &trian.points[t.1], &trian.points[t.2]) {
                Some(c) => {
                    centers.push(c.center);
                },
                None => {
                    proof {
                        assert(!tri_nondegenerate(trian, ti as int));
                        assert(!voronoi_ok(trian));
                    }
                    return Err(
                        Error::RuntimeError(
                            "a retained triangle has collinear corners".to_owned(),
                        ),
                    );
                },
            }
            ti = ti + 1;
        }
        let mut polys: Vec<Polygon> = Vec::new();
        let mut pi: usize = 0;
        while pi < trian.points.len()
            invariant
                trian.wf(),
                0 <= pi <= trian.points@.len(),
                centers@.len() == trian.triangles@.len(),
                forall|j: int|
                    0 <= j < centers@.len() ==> (#[trigger] centers@[j])@ == tri_center_model(
                        trian,
                        j,
                    ),
                forall|j: int| 0 <= j < trian.triangles@.len() ==> tri_nondegenerate(trian, j),
                polys@.len() == pi,
                forall|j: int|
                    0 <= j < pi ==> poly_model((#[trigger] polys@[j])@) == cell_model(
                        trian,
                        j as PointIndex,
                    ) && polys@[j]@.len() == incident_count(trian.triangles@, j as PointIndex)
                        && incident_count(trian.triangles@, j as PointIndex) >= 1 && trian.ordered_fan(
                        j as PointIndex,
                    ) is Some,
            decreases trian.points@.len() - pi,
        {
            let cnt = trian.incidentCount(pi);
            if cnt == 0 {
                proof {
                    assert(incident_count(trian.triangles@, pi as PointIndex) < 1);
                    assert(!voronoi_ok(trian));
                }
                return Err(
                    Error::RuntimeError("a point has no incident triangle".to_owned()),
                );
            }
            match trian.trisWithPointOrdered(pi) {
                Err(e) => {
                    proof {
                        assert(trian.ordered_fan(pi as PointIndex) is None);
                        assert(!voronoi_ok(trian));
                    }
                    return Err(e);
                },
                Ok(fan) => {
                    let mut cell: Polygon = Vec::new();
                    let mut fi: usize = 0;
                    while fi < fan.len()
                        invariant
                            0 <= fi <= fan@.len(),
                            cell@.len() == fi,
                            centers@.len() == trian.triangles@.len(),
                            forall|m: int|
                                0 <= m < fan@.len() ==> #[trigger] fan@[m]
                                    < trian.triangles@.len(),
                            forall|m: int|
                                0 <= m < fi ==> #[trigger] cell@[m] == centers@[fan@[m] as int],
                        decreases fan@.len() - fi,
                    {
                        let c = centers[fan[fi]];
                        cell.push(c);
                        fi = fi + 1;
                    }
                    proof {
                        assert(poly_model(cell@) =~= cell_model(trian, pi as PointIndex));
                    }
                    polys.push(cell);
                },
            }
            pi = pi + 1;
        }
        proof {
            assert forall|j: int|
                0 <= j < trian.points@.len() implies incident_count(
                trian.triangles@,
                j as PointIndex,
            ) >= 1 && (#[trigger] trian.ordered_fan(j as PointIndex)) is Some by {
                assert(poly_model(polys@[j]@) == cell_model(trian, j as PointIndex));
            }
            assert(voronoi_ok(trian));
        }
        Ok(Voronoi { points: trian.points, polygons: polys })
    }

    /// The number of cells: one per input point.
    pub fn count(&self) -> (r: usize)
        ensures
            r == self.points@.len(),
    {
        self.points.len()
    }
}

/// Rebuilding a Voronoi diagram from the same triangulation twice yields
/// identical polygons: the diagram is a function of the triangulation, so
/// two faithful results agree cell by cell, vertex by vertex.
pub proof fn lemma_voronoi_idempotent(t: Triangulation, v1: Voronoi, v2: Voronoi)
    requires
        voronoi_matches(v1, t),
        voronoi_matches(v2, t),
    ensures
        v1.points@ == v2.points@,
        v1.polygons@.len() == v2.polygons@.len(),
        forall|pi: int|
            0 <= pi < v1.polygons@.len() ==> (#[trigger] v1.polygons@[pi])@ == v2.polygons@[pi]@,
{
    assert forall|pi: int|
        0 <= pi < v1.polygons@.len() implies (#[trigger] v1.polygons@[pi])@
        == v2.polygons@[pi]@ by {
        let s1 = v1.polygons@[pi]@;
        let s2 = v2.polygons@[pi]@;
        assert(poly_model(s1) == cell_model(t, pi as PointIndex));
        assert(poly_model(s2) == cell_model(t, pi as PointIndex));
        assert(s1.len() == poly_model(s1).len() && s2.len() == poly_model(s2).len());
        assert forall|j: int| 0 <= j < s1.len() implies s1[j] == s2[j] by {
            assert(poly_model(s1)[j] == s1[j]@ && poly_model(s2)[j] == s2[j]@);
            assert(s1[j]@ == s2[j]@);
            assert(s1[j].num_x == s2[j].num_x && s1[j].num_y == s2[j].num_y && s1[j].den
                == s2[j].den);
        }
        assert(s1 =~= s2);
    }
}

} // verus!
