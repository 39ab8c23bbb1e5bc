//! The incremental Bowyer-Watson builder: from a point sequence to an
//! immutable triangulation with an edge-to-triangles adjacency index, and
//! the ordered-fan query over that index.

use vstd::prelude::*;

use crate::error::Error;
use crate::geometry::COORD_LIMIT;
use crate::geometry::Edge;
use crate::geometry::Point;
use crate::geometry::PointIndex;
use crate::geometry::Triangle;
use crate::geometry::TriangleIndex;
use crate::geometry::circle_wf;
use crate::geometry::circumCircle;
use crate::geometry::edgeInTriangle;
use crate::geometry::in_coord_range;
use crate::geometry::in_work_range;
use crate::geometry::makeTriangle;
use crate::geometry::point_in_circumcircle;
use crate::geometry::sort3;
use crate::geometry::tri_has;
use crate::geometry::tri_has_edge;

verus! {

/// The ordered arrangement of two indices, mirroring `makeEdge`.
pub open spec fn sort2(p1: PointIndex, p2: PointIndex) -> Edge {
    if p1 < p2 {
        (p1, p2)
    } else {
        (p2, p1)
    }
}

/// Canonicalizes an edge: the smaller point index comes first, so the same
/// two endpoints always yield the same edge value.
pub fn makeEdge(p1: PointIndex, p2: PointIndex) -> (r: Edge)
    ensures
        r == sort2(p1, p2),
        r.0 <= r.1,
        (r.0 == p1 && r.1 == p2) || (r.0 == p2 && r.1 == p1),
{
    if p1 < p2 {
        (p1, p2)
    } else {
        (p2, p1)
    }
}

/// An axis-aligned rectangle: its lower corner and its extents.
pub struct Rect {
    pub p0: Point,
    pub width: i64,
    pub height: i64,
}

/// Least x coordinate among the first `n` points.
pub open spec fn min_x(ps: Seq<Point>, n: int) -> int
    decreases n,
{
    if n <= 1 {
        ps[0].x as int
    } else {
        let prev = min_x(ps, n - 1);
        if ps[n - 1].x < prev {
            ps[n - 1].x as int
        } else {
            prev
        }
    }
}

/// Greatest x coordinate among the first `n` points.
pub open spec fn max_x(ps: Seq<Point>, n: int) -> int
    decreases n,
{
    if n <= 1 {
        ps[0].x as int
    } else {
        let prev = max_x(ps, n - 1);
        if ps[n - 1].x > prev {
            ps[n - 1].x as int
        } else {
            prev
        }
    }
}

/// Least y coordinate among the first `n` points.
pub open spec fn min_y(ps: Seq<Point>, n: int) -> int
    decreases n,
{
    if n <= 1 {
        ps[0].y as int
    } else {
        let prev = min_y(ps, n - 1);
        if ps[n - 1].y < prev {
            ps[n - 1].y as int
        } else {
            prev
        }
    }
}

/// Greatest y coordinate among the first `n` points.
pub open spec fn max_y(ps: Seq<Point>, n: int) -> int
    decreases n,
{
    if n <= 1 {
        ps[0].y as int
    } else {
        let prev = max_y(ps, n - 1);
        if ps[n - 1].y > prev {
            ps[n - 1].y as int
        } else {
            prev
        }
    }
}

impl Rect {
    pub fn new(p0: Point, width: i64, height: i64) -> (r: Self)
        ensures
            r.p0 == p0,
            r.width == width,
            r.height == height,
    {
        Self { p0, width, height }
    }

    /// The bounding rectangle of a non-empty point sequence.
    pub fn bboxOfPoints(ps: &Vec<Point>) -> (r: Self)
        requires
            ps@.len() >= 1,
            forall|i: int| 0 <= i < ps@.len() ==> in_coord_range(#[trigger] ps@[i]),
        ensures
            r.p0.x == min_x(ps@, ps@.len() as int),
            r.p0.y == min_y(ps@, ps@.len() as int),
            r.width == max_x(ps@, ps@.len() as int) - min_x(ps@, ps@.len() as int),
            r.height == max_y(ps@, ps@.len() as int) - min_y(ps@, ps@.len() as int),
            in_coord_range(r.p0),
            0 <= r.width <= 2 * COORD_LIMIT,
            0 <= r.height <= 2 * COORD_LIMIT,
            r.p0.x + r.width <= COORD_LIMIT,
            r.p0.y + r.height <= COORD_LIMIT,
    {
        let mut xmin: i64 = ps[0].x;
        let mut xmax: i64 = ps[0].x;
        let mut ymin: i64 = ps[0].y;
        let mut ymax: i64 = ps[0].y;
        let mut i: usize = 1;
        while i < ps.len()
            invariant
                1 <= i <= ps@.len(),
                forall|j: int| 0 <= j < ps@.len() ==> in_coord_range(#[trigger] ps@[j]),
                xmin == min_x(ps@, i as int),
                xmax == max_x(ps@, i as int),
                ymin == min_y(ps@, i as int),
                ymax == max_y(ps@, i as int),
                -COORD_LIMIT <= xmin <= xmax <= COORD_LIMIT,
                -COORD_LIMIT <= ymin <= ymax <= COORD_LIMIT,
            decreases ps@.len() - i,
        {
            if ps[i].x < xmin {
                xmin = ps[i].x;
            }
            if ps[i].x > xmax {
                xmax = ps[i].x;
            }
            if ps[i].y < ymin {
                ymin = ps[i].y;
            }
            if ps[i].y > ymax {
                ymax = ps[i].y;
            }
            i = i + 1;
        }
        Self::new(Point::new(xmin, ymin), xmax - xmin, ymax - ymin)
    }
}

/// A triangle's indices are strictly ascending and point into an array of
/// `n` points.
pub open spec fn tri_wf(t: Triangle, n: int) -> bool {
    t.0 < t.1 && t.1 < t.2 && t.2 < n
}

/// Every triangle is well formed and no triangle occurs twice.
pub open spec fn tris_wf(ts: Seq<Triangle>, n: int) -> bool {
    &&& forall|i: int| 0 <= i < ts.len() ==> tri_wf(#[trigger] ts[i], n)
    &&& forall|i: int, j: int| 0 <= i < j < ts.len() ==> ts[i] != ts[j]
}

/// First position at or after `i` whose key equals `e`, or `-1`.
pub open spec fn es_index_of(es: Seq<(Edge, Vec<TriangleIndex>)>, e: Edge, i: int) -> int
    decreases es.len() - i,
{
    if i < 0 || i >= es.len() {
        -1
    } else if es[i].0 == e {
        i
    } else {
        es_index_of(es, e, i + 1)
    }
}

/// What `es_index_of` returns: the first match, if any.
pub proof fn lemma_es_index_of(es: Seq<(Edge, Vec<TriangleIndex>)>, e: Edge, i: int)
    requires
        0 <= i <= es.len(),
    ensures
        es_index_of(es, e, i) == -1 || i <= es_index_of(es, e, i) < es.len(),
        es_index_of(es, e, i) == -1 ==> forall|j: int| i <= j < es.len() ==> es[j].0 != e,
        es_index_of(es, e, i) >= 0 ==> i <= es_index_of(es, e, i) < es.len() && es[es_index_of(
            es,
            e,
            i,
        )].0 == e && forall|j: int| i <= j < es_index_of(es, e, i) ==> es[j].0 != e,
    decreases es.len() - i,
{
    if i < es.len() && es[i].0 != e {
        lemma_es_index_of(es, e, i + 1);
    }
}

/// An entry of the adjacency index maps one canonical edge to the one or two
/// triangles that own it, in ascending order.
pub open spec fn entry_wf(entry: (Edge, Vec<TriangleIndex>), ts: Seq<Triangle>) -> bool {
    &&& entry.0.0 < entry.0.1
    &&& 1 <= entry.1@.len() <= 2
    &&& forall|k: int|
        0 <= k < entry.1@.len() ==> entry.1@[k] < ts.len() && tri_has_edge(
            ts[#[trigger] entry.1@[k] as int],
            entry.0,
        )
    &&& entry.1@.len() == 2 ==> entry.1@[0] < entry.1@[1]
}

/// The triangle at position `i` is registered under each of its three edges.
pub open spec fn tri_edges_indexed(
    t: Triangle,
    es: Seq<(Edge, Vec<TriangleIndex>)>,
    i: int,
) -> bool {
    &&& es_has_owner(es, (t.0, t.1), i)
    &&& es_has_owner(es, (t.0, t.2), i)
    &&& es_has_owner(es, (t.1, t.2), i)
}

/// The index has an entry for `e` whose owner list contains `ti`.
pub open spec fn es_has_owner(es: Seq<(Edge, Vec<TriangleIndex>)>, e: Edge, ti: int) -> bool {
    let k = es_index_of(es, e, 0);
    k >= 0 && es[k].1@.contains(ti as TriangleIndex)
}

/// An immutable triangulation: the point array, the triangle set (as index
/// triples), and an edge-to-owning-triangles adjacency index built once
/// after construction.
pub struct Triangulation {
    pub points: Vec<Point>,
    pub triangles: Vec<Triangle>,
    pub edge_sharing: Vec<(Edge, Vec<TriangleIndex>)>,
}

impl Triangulation {
    /// The invariants of the public parts: points are in range, triangles
    /// are canonical, distinct, and reference only real points.
    pub open spec fn base_wf(self) -> bool {
        &&& forall|i: int| 0 <= i < self.points@.len() ==> in_coord_range(#[trigger] self.points@[i])
        &&& tris_wf(self.triangles@, self.points@.len() as int)
    }

    /// The invariants of the adjacency index: every edge maps to one or two
    /// owning triangles, keys are unique, and every triangle is registered
    /// under each of its three edges.
    pub open spec fn index_wf(self) -> bool {
        &&& forall|k: int|
            0 <= k < self.edge_sharing@.len() ==> entry_wf(
                #[trigger] self.edge_sharing@[k],
                self.triangles@,
            )
        &&& forall|k1: int, k2: int|
            0 <= k1 < k2 < self.edge_sharing@.len() ==> self.edge_sharing@[k1].0
                != self.edge_sharing@[k2].0
        &&& forall|i: int|
            0 <= i < self.triangles@.len() ==> tri_edges_indexed(
                #[trigger] self.triangles@[i],
                self.edge_sharing@,
                i,
            )
    }

    /// A triangulation as the builder returns it.
    pub open spec fn wf(self) -> bool {
        self.base_wf() && self.index_wf()
    }

    /// The adjacency index, abstractly: each entry is a canonical edge and
    /// the list of triangle positions that own it.
    pub open spec fn adjacency(self) -> Seq<(Edge, Seq<TriangleIndex>)> {
        es_view(self.edge_sharing@)
    }

    /// Every edge of the adjacency index maps to one or two triangles, each
    /// of which really owns the edge; never zero and never more than two.
    pub proof fn lemma_adjacency_counts(self)
        requires
            self.wf(),
        ensures
            forall|k: int|
                0 <= k < self.adjacency().len() ==> 1 <= (#[trigger] self.adjacency()[k]).1.len()
                    <= 2,
            forall|k: int, o: int|
                #![trigger self.adjacency()[k].1[o]]
                0 <= k < self.adjacency().len() && 0 <= o < self.adjacency()[k].1.len()
                    ==> self.adjacency()[k].1[o] < self.triangles@.len() && tri_has_edge(
                    self.triangles@[self.adjacency()[k].1[o] as int],
                    self.adjacency()[k].0,
                ),
    {
        assert(forall|k: int|
            0 <= k < self.edge_sharing@.len() ==> (#[trigger] self.adjacency()[k]).1
                == self.edge_sharing@[k].1@ && self.adjacency()[k].0 == self.edge_sharing@[k].0);
    }

    /// The number of edges in the adjacency index.
    pub fn edgeCount(&self) -> (r: usize)
        ensures
            r == self.adjacency().len(),
    {
        self.edge_sharing.len()
    }

    /// The canonical edges of the triangulation, in index order.
    pub fn edges(&self) -> (r: Vec<Edge>)
        ensures
            r@.len() == self.adjacency().len(),
            forall|k: int| 0 <= k < r@.len() ==> r@[k] == self.adjacency()[k].0,
    {
        let mut out: Vec<Edge> = Vec::new();
        let mut k: usize = 0;
        while k < self.edge_sharing.len()
            invariant
                0 <= k <= self.edge_sharing@.len(),
                out@.len() == k,
                forall|j: int| 0 <= j < k ==> out@[j] == self.adjacency()[j].0,
            decreases self.edge_sharing@.len() - k,
        {
            out.push(self.edge_sharing[k].0);
            k = k + 1;
        }
        out
    }

    /// How many triangles own the edge at position `k` of the index.
    pub fn edgeOwnerCount(&self, k: usize) -> (r: usize)
        requires
            k < self.adjacency().len(),
        ensures
            r == self.adjacency()[k as int].1.len(),
    {
        self.edge_sharing[k].1.len()
    }
}

/// The positions (ascending) of the triangles of `ts` that have `p` as a
/// vertex, among the first `n`.
pub open spec fn incident_upto(ts: Seq<Triangle>, p: PointIndex, n: int) -> Seq<TriangleIndex>
    decreases n,
{
    if n <= 0 {
        Seq::empty()
    } else {
        let prev = incident_upto(ts, p, n - 1);
        if tri_has(ts[n - 1], p) {
            prev.push((n - 1) as TriangleIndex)
        } else {
            prev
        }
    }
}

/// How many triangles of `ts` have `p` as a vertex.
pub open spec fn incident_count(ts: Seq<Triangle>, p: PointIndex) -> int {
    incident_upto(ts, p, ts.len() as int).len() as int
}

/// The incident list is strictly ascending and holds exactly the positions
/// of the triangles that contain `p`.
pub proof fn lemma_incident_props(ts: Seq<Triangle>, p: PointIndex, n: int)
    requires
        0 <= n <= ts.len(),
        ts.len() <= usize::MAX,
    ensures
        forall|a: int|
            0 <= a < incident_upto(ts, p, n).len() ==> #[trigger] incident_upto(ts, p, n)[a] < n
                && tri_has(ts[incident_upto(ts, p, n)[a] as int], p),
        forall|a: int, b: int|
            0 <= a < b < incident_upto(ts, p, n).len() ==> incident_upto(ts, p, n)[a]
                < incident_upto(ts, p, n)[b],
        forall|t: int|
            0 <= t < n && tri_has(ts[t], p) ==> incident_upto(ts, p, n).contains(
                t as TriangleIndex,
            ),
    decreases n,
{
    if n > 0 {
        lemma_incident_props(ts, p, n - 1);
        let prev = incident_upto(ts, p, n - 1);
        let curr = incident_upto(ts, p, n);
        assert forall|t: int| 0 <= t < n && tri_has(ts[t], p) implies curr.contains(
            t as TriangleIndex,
        ) by {
            if t < n - 1 {
                assert(prev.contains(t as TriangleIndex));
                let a = choose|a: int| 0 <= a < prev.len() && prev[a] == t as TriangleIndex;
                assert(curr[a] == t as TriangleIndex);
            } else {
                assert(tri_has(ts[n - 1], p));
                assert(curr[curr.len() - 1] == t as TriangleIndex);
            }
        }
        if tri_has(ts[n - 1], p) {
            assert(curr == prev.push((n - 1) as TriangleIndex));
            assert forall|a: int| 0 <= a < curr.len() implies #[trigger] curr[a] < n && tri_has(
                ts[curr[a] as int],
                p,
            ) by {
                if a < prev.len() {
                    assert(curr[a] == prev[a]);
                } else {
                    assert(curr[a] == (n - 1) as TriangleIndex);
                }
            }
            assert forall|a: int, b: int| 0 <= a < b < curr.len() implies curr[a] < curr[b] by {
                if b < prev.len() {
                    assert(curr[a] == prev[a] && curr[b] == prev[b]);
                } else {
                    assert(curr[b] == (n - 1) as TriangleIndex);
                    assert(curr[a] == prev[a]);
                    assert(prev[a] < n - 1);
                }
            }
        } else {
            assert(curr == prev);
        }
    }
}

/// When no incident triangle offers a free edge through `p`, every edge
/// through `p` of every incident triangle has an owner count other than one.
proof fn lemma_seed_none(
    es: Seq<(Edge, Vec<TriangleIndex>)>,
    ts: Seq<Triangle>,
    tris: Seq<TriangleIndex>,
    p: PointIndex,
    i: int,
)
    requires
        0 <= i,
        seed_from(es, ts, tris, p, i) is None,
    ensures
        forall|j: int|
            i <= j < tris.len() ==> es_count(
                es,
                edges_at_point(ts[#[trigger] tris[j] as int], p).0,
            ) != 1 && es_count(es, edges_at_point(ts[tris[j] as int], p).1) != 1,
    decreases tris.len() - i,
{
    if i < tris.len() {
        lemma_seed_none(es, ts, tris, p, i + 1);
    }
}

/// No triangle position occurs twice.
pub open spec fn distinct_idx(s: Seq<TriangleIndex>) -> bool {
    forall|a: int, b: int| 0 <= a < b < s.len() ==> s[a] != s[b]
}

/// The two edges through `p` of a triangle containing `p`, in canonical
/// form, ordered by the remaining vertices.
pub open spec fn edges_at_point(t: Triangle, p: PointIndex) -> (Edge, Edge) {
    if t.0 == p {
        (sort2(p, t.1), sort2(p, t.2))
    } else if t.1 == p {
        (sort2(p, t.0), sort2(p, t.2))
    } else {
        (sort2(p, t.0), sort2(p, t.1))
    }
}

/// The edge through `p` of `t` other than `ein`.
pub open spec fn other_edge_at(t: Triangle, p: PointIndex, ein: Edge) -> Edge {
    let pair = edges_at_point(t, p);
    if pair.0 == ein {
        pair.1
    } else {
        pair.0
    }
}

/// How many triangles own `e` according to the index: the length of its
/// owner list, or zero for an unknown edge.
pub open spec fn es_count(es: Seq<(Edge, Vec<TriangleIndex>)>, e: Edge) -> int {
    let k = es_index_of(es, e, 0);
    if k >= 0 {
        es[k].1@.len() as int
    } else {
        0
    }
}

/// Two triangles share an edge through `p`.
pub open spec fn fan_adjacent(ts: Seq<Triangle>, t1: TriangleIndex, t2: TriangleIndex, p: PointIndex) -> bool {
    exists|v: PointIndex|
        v != p && tri_has(ts[t1 as int], p) && tri_has(ts[t2 as int], p) && #[trigger] tri_has(
            ts[t1 as int],
            v,
        ) && tri_has(ts[t2 as int], v)
}

/// The rest of the fan from triangle `cur`, entered through `ein`: at each
/// step the walk leaves through the other edge at `p`, stops when it
/// returns to `start_edge` or reaches an edge owned by `cur` alone, and
/// fails on an inconsistent index or when `fuel` runs out.
pub open spec fn fan_walk(
    es: Seq<(Edge, Vec<TriangleIndex>)>,
    ts: Seq<Triangle>,
    p: PointIndex,
    start_edge: Edge,
    cur: TriangleIndex,
    ein: Edge,
    fuel: nat,
) -> Option<Seq<TriangleIndex>>
    decreases fuel,
{
    let eout = other_edge_at(ts[cur as int], p, ein);
    if eout == start_edge {
        Some(Seq::empty())
    } else {
        let k = es_index_of(es, eout, 0);
        if k < 0 {
            None
        } else {
            let owners = es[k].1@;
            if owners.len() == 1 {
                if owners[0] == cur {
                    Some(Seq::empty())
                } else {
                    None
                }
            } else if owners.len() == 2 {
                if owners[0] != cur && owners[1] != cur {
                    None
                } else {
                    let next = if owners[0] == cur {
                        owners[1]
                    } else {
                        owners[0]
                    };
                    if fuel == 0 {
                        None
                    } else {
                        match fan_walk(es, ts, p, start_edge, next, eout, (fuel - 1) as nat) {
                            Some(rest) => Some(seq![next] + rest),
                            None => None,
                        }
                    }
                }
            } else {
                None
            }
        }
    }
}

/// The first incident triangle, scanning from position `i`, with a free
/// edge through `p` (owned by a single triangle), together with that edge.
pub open spec fn seed_from(
    es: Seq<(Edge, Vec<TriangleIndex>)>,
    ts: Seq<Triangle>,
    tris: Seq<TriangleIndex>,
    p: PointIndex,
    i: int,
) -> Option<(int, Edge)>
    decreases tris.len() - i,
{
    if i < 0 || i >= tris.len() {
        None
    } else {
        let pair = edges_at_point(ts[tris[i] as int], p);
        if es_count(es, pair.0) == 1 {
            Some((i, pair.0))
        } else if es_count(es, pair.1) == 1 {
            Some((i, pair.1))
        } else {
            seed_from(es, ts, tris, p, i + 1)
        }
    }
}

impl Triangulation {
    /// No incident triangle of `p` has a free edge through `p`: the point
    /// is interior, so its fan closes into a cycle.
    pub open spec fn interior_point(self, p: PointIndex) -> bool {
        seed_from(
            self.edge_sharing@,
            self.triangles@,
            incident_upto(self.triangles@, p, self.triangles@.len() as int),
            p,
            0,
        ) is None
    }

    /// The ordered fan of `p`: the incident triangles in cyclic or linear
    /// walk order, or `None` where the walk cannot cover them all. This is
    /// the exact value `trisWithPointOrdered` computes.
    pub open spec fn ordered_fan(self, p: PointIndex) -> Option<Seq<TriangleIndex>> {
        let ts = self.triangles@;
        let es = self.edge_sharing@;
        let tris = incident_upto(ts, p, ts.len() as int);
        if tris.len() == 0 {
            None
        } else {
            let seed = seed_from(es, ts, tris, p, 0);
            let sidx = match seed {
                Some(s) => s.0,
                None => 0,
            };
            let sedge = match seed {
                Some(s) => s.1,
                None => edges_at_point(ts[tris[0] as int], p).0,
            };
            let start_ti = tris[sidx];
            match fan_walk(es, ts, p, sedge, start_ti, sedge, tris.len() as nat) {
                Some(rest) => {
                    let full = seq![start_ti] + rest;
                    if full.len() == tris.len() && distinct_idx(full) {
                        Some(full)
                    } else {
                        None
                    }
                },
                None => None,
            }
        }
    }
}

/// A vertex index the builder may use while inserting point `i`: an already
/// inserted point, or one of the three sentinels at `n`, `n + 1`, `n + 2`.
spec fn vert_ok(v: PointIndex, i: int, n: int) -> bool {
    v < i || n <= v < n + 3
}

/// A working triangle during insertion of point `i`: strictly ascending
/// vertices, all usable at this stage.
spec fn tri_ok(t: Triangle, i: int, n: int) -> bool {
    t.0 < t.1 && t.1 < t.2 && vert_ok(t.0, i, n) && vert_ok(t.1, i, n) && vert_ok(t.2, i, n)
}

/// Every triangle of the working set is usable at stage `i`.
spec fn tris_elems_ok(ts: Seq<Triangle>, i: int, n: int) -> bool {
    forall|k: int| 0 <= k < ts.len() ==> tri_ok(#[trigger] ts[k], i, n)
}

/// No element occurs twice.
spec fn distinct_seq(s: Seq<Triangle>) -> bool {
    forall|a: int, b: int| 0 <= a < b < s.len() ==> s[a] != s[b]
}

/// A cavity edge: two distinct usable vertices.
spec fn edge_ok(e: Edge, i: int, n: int) -> bool {
    e.0 != e.1 && vert_ok(e.0, i, n) && vert_ok(e.1, i, n)
}

/// No triangle of `ts` other than the one at `j` owns the edge `e`.
pub open spec fn edge_free(ts: Seq<Triangle>, j: int, e: Edge) -> bool {
    forall|k: int| 0 <= k < ts.len() && k != j ==> !tri_has_edge(#[trigger] ts[k], e)
}

/// The triangle `t` of the working point array `ps` is "bad" for the
/// point `q`: its circumcircle strictly encloses `q`.
pub open spec fn tri_bad(ps: Seq<Point>, t: Triangle, q: Point) -> bool {
    point_in_circumcircle(ps[t.0 as int], ps[t.1 as int], ps[t.2 as int], q)
}

/// The bad triangles for `q` among the first `n` of the working set, in
/// order.
pub open spec fn bad_upto(ps: Seq<Point>, ts: Seq<Triangle>, q: Point, n: int) -> Seq<Triangle>
    decreases n,
{
    if n <= 0 {
        Seq::empty()
    } else {
        let prev = bad_upto(ps, ts, q, n - 1);
        if tri_bad(ps, ts[n - 1], q) {
            prev.push(ts[n - 1])
        } else {
            prev
        }
    }
}

/// The cavity boundary contributed by the first `j` bad triangles: each of
/// a triangle's three directed edges, collected exactly when no other bad
/// triangle owns it; edges interior to the cavity are dropped.
pub open spec fn free_upto(ts: Seq<Triangle>, j: int) -> Seq<Edge>
    decreases j,
{
    if j <= 0 {
        Seq::empty()
    } else {
        let prev = free_upto(ts, j - 1);
        let t = ts[j - 1];
        let s1 = if edge_free(ts, j - 1, (t.0, t.1)) {
            prev.push((t.0, t.1))
        } else {
            prev
        };
        let s2 = if edge_free(ts, j - 1, (t.1, t.2)) {
            s1.push((t.1, t.2))
        } else {
            s1
        };
        if edge_free(ts, j - 1, (t.2, t.0)) {
            s2.push((t.2, t.0))
        } else {
            s2
        }
    }
}

/// `e` is one of the three directed edges of `t`, as the cavity scan
/// enumerates them.
pub open spec fn directed_edge_of(t: Triangle, e: Edge) -> bool {
    e == (t.0, t.1) || e == (t.1, t.2) || e == (t.2, t.0)
}

/// Some triangle among the first `n` has `e` as a directed edge and no
/// other triangle of `ts` owns `e`'s endpoints.
pub open spec fn boundary_edge(ts: Seq<Triangle>, e: Edge, n: int) -> bool {
    exists|j: int| 0 <= j < n && #[trigger] directed_edge_of(ts[j], e) && edge_free(ts, j, e)
}

/// The cavity boundary holds exactly the edges owned by a single bad
/// triangle: an edge is collected iff its owning triangle alone has both
/// endpoints, and it is then collected once, in one orientation. Edges
/// shared by two or more bad triangles are dropped.
pub proof fn lemma_cavity_boundary(ts: Seq<Triangle>, n: int)
    requires
        0 <= n <= ts.len(),
        forall|j: int| 0 <= j < ts.len() ==> (#[trigger] ts[j]).0 < ts[j].1 && ts[j].1 < ts[j].2,
    ensures
        forall|e: Edge| #[trigger] free_upto(ts, n).contains(e) <==> boundary_edge(ts, e, n),
        forall|x: int, y: int|
            0 <= x < y < free_upto(ts, n).len() ==> free_upto(ts, n)[x] != free_upto(ts, n)[y]
                && free_upto(ts, n)[x] != ((free_upto(ts, n)[y].1, free_upto(ts, n)[y].0)),
    decreases n,
{
    if n > 0 {
        lemma_cavity_boundary(ts, n - 1);
        let prev = free_upto(ts, n - 1);
        let cur = free_upto(ts, n);
        let t = ts[n - 1];
        // `cur` extends `prev` by the free directed edges of `t`.
        assert(forall|idx: int| 0 <= idx < prev.len() ==> cur[idx] == prev[idx]);
        assert(forall|idx: int|
            prev.len() <= idx < cur.len() ==> directed_edge_of(t, #[trigger] cur[idx])
                && edge_free(ts, n - 1, cur[idx]));
        assert forall|e: Edge| #[trigger] cur.contains(e) implies boundary_edge(ts, e, n) by {
            let idx = choose|idx: int| 0 <= idx < cur.len() && cur[idx] == e;
            if idx < prev.len() {
                assert(prev.contains(e));
                assert(boundary_edge(ts, e, n - 1));
                let j = choose|j: int|
                    0 <= j < n - 1 && #[trigger] directed_edge_of(ts[j], e) && edge_free(ts, j, e);
                assert(0 <= j < n && directed_edge_of(ts[j], e) && edge_free(ts, j, e));
            } else {
                assert(directed_edge_of(ts[n - 1], e) && edge_free(ts, n - 1, e));
            }
        }
        assert forall|e: Edge| boundary_edge(ts, e, n) implies #[trigger] cur.contains(e) by {
            let j = choose|j: int|
                0 <= j < n && #[trigger] directed_edge_of(ts[j], e) && edge_free(ts, j, e);
            if j < n - 1 {
                assert(boundary_edge(ts, e, n - 1));
                assert(prev.contains(e));
                let idx = choose|idx: int| 0 <= idx < prev.len() && prev[idx] == e;
                assert(cur[idx] == e);
            } else {
                // one of the three conditional pushes appended e
                let s1 = if edge_free(ts, n - 1, (t.0, t.1)) {
                    prev.push((t.0, t.1))
                } else {
                    prev
                };
                let s2 = if edge_free(ts, n - 1, (t.1, t.2)) {
                    s1.push((t.1, t.2))
                } else {
                    s1
                };
                if e == (t.0, t.1) {
                    assert(s1[prev.len() as int] == e);
                    assert(s2[prev.len() as int] == e);
                    assert(cur[prev.len() as int] == e);
                } else if e == (t.1, t.2) {
                    assert(s2[s1.len() as int] == e);
                    assert(cur[s1.len() as int] == e);
                } else {
                    assert(cur[s2.len() as int] == e);
                }
            }
        }
        assert forall|x: int, y: int| 0 <= x < y < cur.len() implies cur[x] != cur[y] && cur[x]
            != ((cur[y].1, cur[y].0)) by {
            if y < prev.len() {
                // both inherited
            } else if x < prev.len() {
                // an inherited edge against a newly pushed edge of t
                let e_old = cur[x];
                let e_new = cur[y];
                assert(prev.contains(e_old));
                assert(boundary_edge(ts, e_old, n - 1));
                let j = choose|j: int|
                    0 <= j < n - 1 && #[trigger] directed_edge_of(ts[j], e_old) && edge_free(
                        ts,
                        j,
                        e_old,
                    );
                assert(tri_has_edge(ts[j], e_old));
                assert(edge_free(ts, n - 1, e_new));
                if e_old == e_new || e_old == ((e_new.1, e_new.0)) {
                    assert(tri_has_edge(ts[j], e_new));
                    assert(j != n - 1);
                }
            } else {
                // two distinct directed edges of the sorted triangle t
                assert(directed_edge_of(t, cur[x]) && directed_edge_of(t, cur[y]));
                assert(cur[x] != cur[y]) by {
                    if cur[x] == cur[y] {
                        let s1 = if edge_free(ts, n - 1, (t.0, t.1)) {
                            prev.push((t.0, t.1))
                        } else {
                            prev
                        };
                        let s2 = if edge_free(ts, n - 1, (t.1, t.2)) {
                            s1.push((t.1, t.2))
                        } else {
                            s1
                        };
                        assert(false);
                    }
                };
            }
        }
    }
}

/// The working triangles kept after removing the bad set, among the first
/// `n`, in order.
pub open spec fn keep_upto(ts: Seq<Triangle>, bad: Seq<Triangle>, n: int) -> Seq<Triangle>
    decreases n,
{
    if n <= 0 {
        Seq::empty()
    } else {
        let prev = keep_upto(ts, bad, n - 1);
        if bad.contains(ts[n - 1]) {
            prev
        } else {
            prev.push(ts[n - 1])
        }
    }
}

/// The cavity refilled: one canonical triangle joining point `i` to each of
/// the first `m` boundary edges, deduplicated.
pub open spec fn add_upto(ts: Seq<Triangle>, poly: Seq<Edge>, i: PointIndex, m: int) -> Seq<
    Triangle,
>
    decreases m,
{
    if m <= 0 {
        ts
    } else {
        let prev = add_upto(ts, poly, i, m - 1);
        let nt = sort3(i, poly[m - 1].0, poly[m - 1].1);
        if prev.contains(nt) {
            prev
        } else {
            prev.push(nt)
        }
    }
}

/// One insertion step of the incremental builder: evict the triangles whose
/// circumcircle strictly encloses point `i`, then refill the cavity from
/// its boundary edges.
pub open spec fn insert_step(ps: Seq<Point>, ts: Seq<Triangle>, i: PointIndex) -> Seq<Triangle> {
    let bad = bad_upto(ps, ts, ps[i as int], ts.len() as int);
    let poly = free_upto(bad, bad.len() as int);
    add_upto(keep_upto(ts, bad, ts.len() as int), poly, i, poly.len() as int)
}

/// The working triangle set after inserting the first `n` points.
pub open spec fn insert_upto(ps: Seq<Point>, init: Seq<Triangle>, n: int) -> Seq<Triangle>
    decreases n,
{
    if n <= 0 {
        init
    } else {
        insert_step(ps, insert_upto(ps, init, n - 1), (n - 1) as PointIndex)
    }
}

/// The three sentinel points, strictly outside the bounding rectangle of
/// `ps`: one full rectangle extent beyond its corners, and ten more.
pub open spec fn sentinel_points(ps: Seq<Point>) -> Seq<Point> {
    let n = ps.len() as int;
    let x0 = min_x(ps, n);
    let y0 = min_y(ps, n);
    let w = max_x(ps, n) - x0;
    let h = max_y(ps, n) - y0;
    seq![
        Point { x: (x0 - 10) as i64, y: (y0 - 10) as i64 },
        Point { x: (x0 - 10) as i64, y: (y0 + h + h + 10) as i64 },
        Point { x: (x0 + w + w + 10) as i64, y: (y0 - 10) as i64 },
    ]
}

/// The working point array: the input points followed by the sentinels.
pub open spec fn with_sentinels(ps: Seq<Point>) -> Seq<Point> {
    ps + sentinel_points(ps)
}

/// The initial triangle set: one super-triangle spanning the sentinels.
pub open spec fn initial_tris(n: PointIndex) -> Seq<Triangle> {
    seq![(n, (n + 1) as PointIndex, (n + 2) as PointIndex)]
}

/// The retained non-sentinel triangles among the first `k`, in order.
pub open spec fn real_upto(ts: Seq<Triangle>, pc: PointIndex, k: int) -> Seq<Triangle>
    decreases k,
{
    if k <= 0 {
        Seq::empty()
    } else {
        let prev = real_upto(ts, pc, k - 1);
        let t = ts[k - 1];
        if t.0 < pc && t.1 < pc && t.2 < pc {
            prev.push(t)
        } else {
            prev
        }
    }
}

/// The triangle array the builder computes for `ps`: the full incremental
/// construction over the sentinel-extended point array, with sentinel
/// triangles discarded at the end.
pub open spec fn bw_tris(ps: Seq<Point>) -> Seq<Triangle> {
    let pc = ps.len() as PointIndex;
    let work = with_sentinels(ps);
    let raw = insert_upto(work, initial_tris(pc), ps.len() as int);
    real_upto(raw, pc, raw.len() as int)
}

/// The bounding rectangle of `ps` has no width or no height.
pub open spec fn degenerate_bbox(ps: Seq<Point>) -> bool {
    max_x(ps, ps.len() as int) == min_x(ps, ps.len() as int) || max_y(ps, ps.len() as int) == min_y(
        ps,
        ps.len() as int,
    )
}

/// The Delaunay property: no point of `ps` lies strictly inside the
/// circumcircle of a triangle of `ts` it is not a vertex of.
pub open spec fn delaunay_ok(ts: Seq<Triangle>, ps: Seq<Point>) -> bool {
    forall|ti: int, pi: int|
        #![trigger ts[ti], ps[pi]]
        0 <= ti < ts.len() && 0 <= pi < ps.len() && !tri_has(ts[ti], pi as PointIndex)
            ==> !tri_bad(ps, ts[ti], ps[pi])
}

/// First position at or after `i` whose key equals `e`, in the abstract
/// index.
pub open spec fn aes_index_of(aes: Seq<(Edge, Seq<TriangleIndex>)>, e: Edge, i: int) -> int
    decreases aes.len() - i,
{
    if i < 0 || i >= aes.len() {
        -1
    } else if aes[i].0 == e {
        i
    } else {
        aes_index_of(aes, e, i + 1)
    }
}

/// Registers one owner in the abstract index: appends to the entry of `e`,
/// or opens a new single-owner entry.
pub open spec fn aes_add(aes: Seq<(Edge, Seq<TriangleIndex>)>, e: Edge, ti: TriangleIndex) -> Seq<
    (Edge, Seq<TriangleIndex>),
> {
    let k = aes_index_of(aes, e, 0);
    if k >= 0 {
        aes.update(k, (e, aes[k].1.push(ti)))
    } else {
        aes.push((e, seq![ti]))
    }
}

/// The adjacency index of the first `n` triangles: each registered under
/// its three canonical edges, in order.
pub open spec fn index_upto(ts: Seq<Triangle>, n: int) -> Seq<(Edge, Seq<TriangleIndex>)>
    decreases n,
{
    if n <= 0 {
        Seq::empty()
    } else {
        let prev = index_upto(ts, n - 1);
        let t = ts[n - 1];
        let ti = (n - 1) as TriangleIndex;
        aes_add(
            aes_add(aes_add(prev, sort2(t.0, t.1), ti), sort2(t.0, t.2), ti),
            sort2(t.1, t.2),
            ti,
        )
    }
}

/// The concrete index, abstractly: each owner vector as a sequence.
pub open spec fn es_view(es: Seq<(Edge, Vec<TriangleIndex>)>) -> Seq<(Edge, Seq<TriangleIndex>)> {
    es.map_values(|entry: (Edge, Vec<TriangleIndex>)| (entry.0, entry.1@))
}

/// An abstract index entry is well formed: a canonical edge with one or two
/// valid, ascending owners, each really owning it.
pub open spec fn aentry_wf(entry: (Edge, Seq<TriangleIndex>), ts: Seq<Triangle>) -> bool {
    &&& entry.0.0 < entry.0.1
    &&& 1 <= entry.1.len() <= 2
    &&& forall|k: int|
        0 <= k < entry.1.len() ==> entry.1[k] < ts.len() && tri_has_edge(
            ts[#[trigger] entry.1[k] as int],
            entry.0,
        )
    &&& entry.1.len() == 2 ==> entry.1[0] < entry.1[1]
}

/// The abstract index has an entry for `e` whose owners contain `ti`.
pub open spec fn aes_has_owner(aes: Seq<(Edge, Seq<TriangleIndex>)>, e: Edge, ti: int) -> bool {
    let k = aes_index_of(aes, e, 0);
    k >= 0 && aes[k].1.contains(ti as TriangleIndex)
}

/// The triangle at position `i` is registered under its three edges in the
/// abstract index.
pub open spec fn atri_indexed(t: Triangle, aes: Seq<(Edge, Seq<TriangleIndex>)>, i: int) -> bool {
    &&& aes_has_owner(aes, (t.0, t.1), i)
    &&& aes_has_owner(aes, (t.0, t.2), i)
    &&& aes_has_owner(aes, (t.1, t.2), i)
}

/// The whole abstract index is well formed: every entry is, no key occurs
/// twice, and every triangle is registered under each of its three edges.
pub open spec fn aindex_wf(aes: Seq<(Edge, Seq<TriangleIndex>)>, ts: Seq<Triangle>) -> bool {
    &&& forall|k: int| 0 <= k < aes.len() ==> aentry_wf(#[trigger] aes[k], ts)
    &&& forall|k1: int, k2: int| 0 <= k1 < k2 < aes.len() ==> aes[k1].0 != aes[k2].0
    &&& forall|i: int| 0 <= i < ts.len() ==> atri_indexed(#[trigger] ts[i], aes, i)
}

/// The abstract and concrete first-match positions agree.
proof fn lemma_aes_index_view(es: Seq<(Edge, Vec<TriangleIndex>)>, e: Edge, i: int)
    requires
        0 <= i <= es.len(),
    ensures
        aes_index_of(es_view(es), e, i) == es_index_of(es, e, i),
    decreases es.len() - i,
{
    assert(es_view(es).len() == es.len());
    if i < es.len() {
        assert(es_view(es)[i] == (es[i].0, es[i].1@));
        if es[i].0 != e {
            lemma_aes_index_view(es, e, i + 1);
        }
    }
}

/// One registration in the concrete index advances its abstract view by
/// one `aes_add`.
proof fn lemma_add_view(
    before: Seq<(Edge, Vec<TriangleIndex>)>,
    after: Seq<(Edge, Vec<TriangleIndex>)>,
    key: Edge,
    value: TriangleIndex,
)
    requires
        ({
            let k = es_index_of(before, key, 0);
            if k >= 0 {
                &&& after.len() == before.len()
                &&& after[k].0 == key
                &&& after[k].1@ == before[k].1@.push(value)
                &&& forall|j: int| 0 <= j < before.len() && j != k ==> after[j] == before[j]
            } else {
                &&& after.len() == before.len() + 1
                &&& forall|j: int| 0 <= j < before.len() ==> after[j] == before[j]
                &&& after[before.len() as int].0 == key
                &&& after[before.len() as int].1@ == seq![value]
            }
        }),
    ensures
        es_view(after) == aes_add(es_view(before), key, value),
{
    lemma_aes_index_view(before, key, 0);
    let k = es_index_of(before, key, 0);
    lemma_es_index_of(before, key, 0);
    if k >= 0 {
        let target = es_view(before).update(k, (key, es_view(before)[k].1.push(value)));
        assert forall|j: int| 0 <= j < after.len() implies es_view(after)[j] == target[j] by {
            assert(es_view(after)[j] == (after[j].0, after[j].1@));
            if j != k {
                assert(es_view(before)[j] == (before[j].0, before[j].1@));
            } else {
                assert(es_view(before)[k] == (before[k].0, before[k].1@));
            }
        }
        assert(es_view(after) =~= target);
    } else {
        let target = es_view(before).push((key, seq![value]));
        assert forall|j: int| 0 <= j < after.len() implies es_view(after)[j] == target[j] by {
            assert(es_view(after)[j] == (after[j].0, after[j].1@));
            if j < before.len() {
                assert(es_view(before)[j] == (before[j].0, before[j].1@));
            }
        }
        assert(es_view(after) =~= target);
    }
}

/// True iff no triangle other than the one at position `j` owns `edge`.
fn isFreeEdge(tris: &Vec<Triangle>, j: usize, edge: Edge) -> (r: bool)
    ensures
        r == edge_free(tris@, j as int, edge),
{
    let mut k: usize = 0;
    while k < tris.len()
        invariant
            0 <= k <= tris@.len(),
            forall|m: int| 0 <= m < k && m != j ==> !tri_has_edge(#[trigger] tris@[m], edge),
        decreases tris@.len() - k,
    {
        if k != j && edgeInTriangle(edge, tris[k]) {
            return false;
        }
        k = k + 1;
    }
    true
}

/// Component-wise equality of two edges.
#[inline]
fn eqEdge(a: Edge, b: Edge) -> (r: bool)
    ensures
        r == (a == b),
{
    a.0 == b.0 && a.1 == b.1
}

/// Component-wise equality of two triangles.
#[inline]
fn eqTri(a: Triangle, b: Triangle) -> (r: bool)
    ensures
        r == (a == b),
{
    a.0 == b.0 && a.1 == b.1 && a.2 == b.2
}

/// Membership test for a triangle in a vector.
fn containsTri(v: &Vec<Triangle>, t: Triangle) -> (r: bool)
    ensures
        r == v@.contains(t),
{
    let mut k: usize = 0;
    while k < v.len()
        invariant
            0 <= k <= v@.len(),
            forall|m: int| 0 <= m < k ==> v@[m] != t,
        decreases v@.len() - k,
    {
        if eqTri(v[k], t) {
            return true;
        }
        k = k + 1;
    }
    false
}

/// Membership test for a triangle index in a vector.
fn containsIdx(v: &Vec<TriangleIndex>, x: TriangleIndex) -> (r: bool)
    ensures
        r == v@.contains(x),
{
    let mut k: usize = 0;
    while k < v.len()
        invariant
            0 <= k <= v@.len(),
            forall|m: int| 0 <= m < k ==> v@[m] != x,
        decreases v@.len() - k,
    {
        if v[k] == x {
            return true;
        }
        k = k + 1;
    }
    false
}

/// Finds the entry of the adjacency index keyed by `e`, if any.
fn esFind(es: &Vec<(Edge, Vec<TriangleIndex>)>, e: Edge) -> (r: Option<usize>)
    ensures
        match r {
            Some(k) => k < es@.len() && es@[k as int].0 == e && es_index_of(es@, e, 0) == k,
            None => es_index_of(es@, e, 0) == -1,
        },
{
    let mut k: usize = 0;
    while k < es.len()
        invariant
            0 <= k <= es@.len(),
            forall|m: int| 0 <= m < k ==> es@[m].0 != e,
        decreases es@.len() - k,
    {
        if eqEdge(es[k].0, e) {
            proof {
                lemma_es_index_of(es@, e, 0);
                let r = es_index_of(es@, e, 0);
                if r == -1 {
                    assert(es@[k as int].0 != e);
                } else if r < k {
                    assert(es@[r].0 != e);
                } else if r > k {
                    assert(es@[k as int].0 != e);
                }
            }
            return Some(k);
        }
        k = k + 1;
    }
    proof {
        lemma_es_index_of(es@, e, 0);
        let r = es_index_of(es@, e, 0);
        if r >= 0 {
            assert(es@[r].0 != e);
        }
    }
    None
}

/// Registers `value` under `key`: appends it to the key's list, or starts a
/// new single-element list for a new key. No other entry changes and none
/// is ever removed.
fn addToMapOfVecs(map: &mut Vec<(Edge, Vec<TriangleIndex>)>, key: Edge, value: TriangleIndex)
    ensures
        ({
            let k = es_index_of(old(map)@, key, 0);
            if k >= 0 {
                &&& final(map)@.len() == old(map)@.len()
                &&& final(map)@[k].0 == key
                &&& final(map)@[k].1@ == old(map)@[k].1@.push(value)
                &&& forall|j: int|
                    0 <= j < old(map)@.len() && j != k ==> final(map)@[j] == old(map)@[j]
            } else {
                &&& final(map)@.len() == old(map)@.len() + 1
                &&& forall|j: int| 0 <= j < old(map)@.len() ==> final(map)@[j] == old(map)@[j]
                &&& final(map)@[old(map)@.len() as int].0 == key
                &&& final(map)@[old(map)@.len() as int].1@ == seq![value]
            }
        }),
{
    match esFind(map, key) {
        Some(k) => {
            let mut owners: Vec<TriangleIndex> = Vec::new();
            let mut q: usize = 0;
            while q < map[k].1.len()
                invariant
                    k < map@.len(),
                    0 <= q <= map@[k as int].1@.len(),
                    owners@ == map@[k as int].1@.take(q as int),
                decreases map@[k as int].1@.len() - q,
            {
                let o = map[k].1[q];
                owners.push(o);
                proof {
                    assert(map@[k as int].1@.take(q + 1) =~= map@[k as int].1@.take(q as int).push(
                        map@[k as int].1@[q as int],
                    ));
                }
                q = q + 1;
            }
            owners.push(value);
            map.set(k, (key, owners));
        },
        None => {
            let mut owners: Vec<TriangleIndex> = Vec::new();
            owners.push(value);
            map.push((key, owners));
        },
    }
}

/// Checks that every entry of the index is well formed: one or two owners,
/// ascending, each really owning the edge.
fn validateEntries(es: &Vec<(Edge, Vec<TriangleIndex>)>, ts: &Vec<Triangle>) -> (r: bool)
    ensures
        r == forall|k: int| 0 <= k < es@.len() ==> entry_wf(#[trigger] es@[k], ts@),
{
    let mut k: usize = 0;
    while k < es.len()
        invariant
            0 <= k <= es@.len(),
            forall|j: int| 0 <= j < k ==> entry_wf(#[trigger] es@[j], ts@),
        decreases es@.len() - k,
    {
        let key = es[k].0;
        let olen = es[k].1.len();
        if !(key.0 < key.1) {
            return false;
        }
        if olen < 1 || olen > 2 {
            return false;
        }
        if olen == 2 && !(es[k].1[0] < es[k].1[1]) {
            return false;
        }
        let mut o: usize = 0;
        while o < olen
            invariant
                k < es@.len(),
                olen == es@[k as int].1@.len(),
                key == es@[k as int].0,
                0 <= o <= olen,
                forall|m: int|
                    0 <= m < o ==> es@[k as int].1@[m] < ts@.len() && tri_has_edge(
                        ts@[#[trigger] es@[k as int].1@[m] as int],
                        key,
                    ),
            decreases olen - o,
        {
            let owner = es[k].1[o];
            if owner >= ts.len() {
                return false;
            }
            if !edgeInTriangle(key, ts[owner]) {
                return false;
            }
            o = o + 1;
        }
        k = k + 1;
    }
    true
}

/// Checks that no edge occurs twice as a key of the index.
fn validateKeysUnique(es: &Vec<(Edge, Vec<TriangleIndex>)>) -> (r: bool)
    ensures
        r == forall|k1: int, k2: int| 0 <= k1 < k2 < es@.len() ==> es@[k1].0 != es@[k2].0,
{
    let mut k1: usize = 0;
    while k1 < es.len()
        invariant
            0 <= k1 <= es@.len(),
            forall|a: int, b: int| 0 <= a < b < es@.len() && a < k1 ==> es@[a].0 != es@[b].0,
        decreases es@.len() - k1,
    {
        let mut k2: usize = k1 + 1;
        while k2 < es.len()
            invariant
                0 <= k1 < k2 <= es@.len() || (k1 < es@.len() && k2 == k1 + 1),
                k1 < k2,
                forall|b: int| k1 < b < k2 ==> es@[k1 as int].0 != es@[b].0,
            decreases es@.len() - k2,
        {
            if eqEdge(es[k1].0, es[k2].0) {
                return false;
            }
            k2 = k2 + 1;
        }
        k1 = k1 + 1;
    }
    true
}

/// Checks that every triangle is registered under each of its three edges.
fn validateCoverage(es: &Vec<(Edge, Vec<TriangleIndex>)>, ts: &Vec<Triangle>) -> (r: bool)
    ensures
        r == forall|i: int|
            0 <= i < ts@.len() ==> tri_edges_indexed(#[trigger] ts@[i], es@, i),
{
    let mut i: usize = 0;
    while i < ts.len()
        invariant
            0 <= i <= ts@.len(),
            forall|j: int| 0 <= j < i ==> tri_edges_indexed(#[trigger] ts@[j], es@, j),
        decreases ts@.len() - i,
    {
        let t = ts[i];
        if !hasOwner(es, (t.0, t.1), i) {
            return false;
        }
        if !hasOwner(es, (t.0, t.2), i) {
            return false;
        }
        if !hasOwner(es, (t.1, t.2), i) {
            return false;
        }
        i = i + 1;
    }
    true
}

/// Checks that the index lists `ti` among the owners of `e`.
fn hasOwner(es: &Vec<(Edge, Vec<TriangleIndex>)>, e: Edge, ti: TriangleIndex) -> (r: bool)
    ensures
        r == es_has_owner(es@, e, ti as int),
{
    match esFind(es, e) {
        Some(k) => containsIdx(&es[k].1, ti),
        None => false,
    }
}

/// Checks the Delaunay property: no input point lies strictly inside the
/// circumcircle of a retained triangle it is not a vertex of.
fn validateDelaunay(ts: &Vec<Triangle>, ps: &Vec<Point>) -> (r: bool)
    requires
        forall|i: int| 0 <= i < ts@.len() ==> tri_wf(#[trigger] ts@[i], ps@.len() as int),
        forall|i: int| 0 <= i < ps@.len() ==> in_coord_range(#[trigger] ps@[i]),
    ensures
        r == delaunay_ok(ts@, ps@),
{
    let mut ti: usize = 0;
    while ti < ts.len()
        invariant
            0 <= ti <= ts@.len(),
            forall|i: int| 0 <= i < ts@.len() ==> tri_wf(#[trigger] ts@[i], ps@.len() as int),
            forall|i: int| 0 <= i < ps@.len() ==> in_coord_range(#[trigger] ps@[i]),
            forall|a: int, b: int|
                #![trigger ts@[a], ps@[b]]
                0 <= a < ti && 0 <= b < ps@.len() && !tri_has(ts@[a], b as PointIndex)
                    ==> !tri_bad(ps@, ts@[a], ps@[b]),
        decreases ts@.len() - ti,
    {
        let t = ts[ti];
        match circumCircle(&ps[t.0], &ps[t.1], &ps[t.2]) {
            None => {
                // collinear corners: the triangle encloses no point at all
            },
            Some(c) => {
                let mut pi: usize = 0;
                while pi < ps.len()
                    invariant
                        0 <= pi <= ps@.len(),
                        ti < ts@.len(),
                        t == ts@[ti as int],
                        forall|i: int|
                            0 <= i < ps@.len() ==> in_coord_range(#[trigger] ps@[i]),
                        circle_wf(c),
                        c.center@ == crate::geometry::circum_center(
                            ps@[t.0 as int],
                            ps@[t.1 as int],
                            ps@[t.2 as int],
                        ),
                        c.radius_sq_num == crate::geometry::discriminant(
                            ps@[t.0 as int],
                            ps@[t.1 as int],
                            ps@[t.2 as int],
                        ),
                        crate::geometry::det_a(ps@[t.0 as int], ps@[t.1 as int], ps@[t.2 as int])
                            != 0,
                        t.0 < ps@.len() && t.1 < ps@.len() && t.2 < ps@.len(),
                        forall|b: int|
                            0 <= b < pi && !tri_has(t, b as PointIndex) ==> !tri_bad(
                                ps@,
                                t,
                                #[trigger] ps@[b],
                            ),
                    decreases ps@.len() - pi,
                {
                    if !(t.0 == pi || t.1 == pi || t.2 == pi) {
                        if c.enclose(&ps[pi]) {
                            return false;
                        }
                    }
                    pi = pi + 1;
                }
            },
        }
        ti = ti + 1;
    }
    true
}

/// Builds the Delaunay triangulation of `points` with the incremental
/// Bowyer-Watson algorithm: a super-triangle of three sentinel points seeds
/// the set; each point in turn evicts the triangles whose circumcircle
/// strictly encloses it and retriangulates the cavity from its free edges;
/// sentinel triangles are discarded, the Delaunay property of the result
/// is checked, and the edge adjacency index is built and checked. The
/// returned triangle array is exactly `bw_tris(points)`, the mirrored
/// construction; the call fails exactly on fewer than three points, a
/// degenerate bounding box, or a construction whose result violates one of
/// its intended invariants.
#[verifier::rlimit(100)]
pub fn triBowyerWatson(points: Vec<Point>) -> (r: Result<Triangulation, Error>)
    requires
        forall|i: int| 0 <= i < points@.len() ==> in_coord_range(#[trigger] points@[i]),
        points@.len() + 3 <= usize::MAX,
    ensures
        match r {
            Ok(t) => {
                &&& t.wf()
                &&& t.points@ == points@
                &&& t.triangles@ == bw_tris(points@)
                &&& t.adjacency() == index_upto(t.triangles@, t.triangles@.len() as int)
                &&& t.triangles@.len() >= 1
                &&& delaunay_ok(t.triangles@, points@)
            },
            Err(_) => true,
        },
        r is Err <==> points@.len() < 3 || degenerate_bbox(points@) || bw_tris(points@).len() == 0
            || !aindex_wf(
            index_upto(bw_tris(points@), bw_tris(points@).len() as int),
            bw_tris(points@),
        ) || !delaunay_ok(bw_tris(points@), points@),
{
    let point_count = points.len();
    if point_count < 3 {
        return Err(Error::RuntimeError("a triangulation needs at least 3 points".to_owned()));
    }
    let region = Rect::bboxOfPoints(&points);
    if region.width == 0 || region.height == 0 {
        proof {
            assert(degenerate_bbox(points@));
        }
        return Err(Error::RuntimeError("the points' bounding box is degenerate".to_owned()));
    }
    // The working point array: the input points followed by three sentinel
    // points strictly outside the bounding rectangle.
    let mut ps: Vec<Point> = Vec::new();
    let mut i0: usize = 0;
    while i0 < point_count
        invariant
            0 <= i0 <= point_count == points@.len(),
            ps@ == points@.take(i0 as int),
            forall|j: int| 0 <= j < points@.len() ==> in_coord_range(#[trigger] points@[j]),
        decreases point_count - i0,
    {
        let p = points[i0];
        ps.push(p);
        proof {
            assert(points@.take(i0 + 1) =~= points@.take(i0 as int).push(points@[i0 as int]));
        }
        i0 = i0 + 1;
    }
    proof {
        assert(points@.take(point_count as int) =~= points@);
    }
    ps.push(Point::new(region.p0.x - 10, region.p0.y - 10));
    ps.push(
        Point::new(region.p0.x - 10, region.p0.y + region.height + region.height + 10),
    );
    ps.push(
        Point::new(region.p0.x + region.width + region.width + 10, region.p0.y - 10),
    );
    let ghost psv = ps@;
    proof {
        assert(sentinel_points(points@).len() == 3);
        assert(psv =~= with_sentinels(points@));
    }
    let mut tris: Vec<Triangle> = Vec::new();
    tris.push(makeTriangle(point_count, point_count + 1, point_count + 2));
    let ghost init = tris@;
    proof {
        assert(init =~= initial_tris(point_count));
    }

    let mut i: usize = 0;
    while i < point_count
        invariant
            0 <= i <= point_count == points@.len(),
            point_count + 3 <= usize::MAX,
            ps@.len() == point_count + 3,
            forall|j: int| 0 <= j < ps@.len() ==> in_work_range(#[trigger] ps@[j]),
            ps@ == psv,
            tris@ == insert_upto(psv, init, i as int),
            tris_elems_ok(tris@, i as int, point_count as int),
            distinct_seq(tris@),
        decreases point_count - i,
    {
        // Scan for bad triangles: those whose circumcircle encloses point i.
        let mut bad: Vec<Triangle> = Vec::new();
        let mut k: usize = 0;
        while k < tris.len()
            invariant
                0 <= k <= tris@.len(),
                i < point_count,
                ps@.len() == point_count + 3,
                forall|j: int| 0 <= j < ps@.len() ==> in_work_range(#[trigger] ps@[j]),
                ps@ == psv,
                tris_elems_ok(tris@, i as int, point_count as int),
                tris_elems_ok(bad@, i as int, point_count as int),
                bad@ == bad_upto(psv, tris@, psv[i as int], k as int),
            decreases tris@.len() - k,
        {
            let t = tris[k];
            match circumCircle(&ps[t.0], &ps[t.1], &ps[t.2]) {
                Some(circ) => {
                    if circ.enclose(&ps[i]) {
                        proof {
                            assert(tri_bad(psv, tris@[k as int], psv[i as int]));
                        }
                        bad.push(t);
                    } else {
                        proof {
                            assert(!tri_bad(psv, tris@[k as int], psv[i as int]));
                        }
                    }
                },
                None => {
                    proof {
                        assert(!tri_bad(psv, tris@[k as int], psv[i as int]));
                    }
                },
            }
            k = k + 1;
        }
        // The cavity boundary: edges owned by exactly one bad triangle.
        let mut poly: Vec<Edge> = Vec::new();
        let mut j: usize = 0;
        while j < bad.len()
            invariant
                0 <= j <= bad@.len(),
                i < point_count,
                tris_elems_ok(bad@, i as int, point_count as int),
                forall|m: int| 0 <= m < poly@.len() ==> edge_ok(#[trigger] poly@[m], i as int, point_count as int),
                poly@ == free_upto(bad@, j as int),
            decreases bad@.len() - j,
        {
            let t = bad[j];
            if isFreeEdge(&bad, j, (t.0, t.1)) {
                poly.push((t.0, t.1));
            }
            if isFreeEdge(&bad, j, (t.1, t.2)) {
                poly.push((t.1, t.2));
            }
            if isFreeEdge(&bad, j, (t.2, t.0)) {
                poly.push((t.2, t.0));
            }
            j = j + 1;
        }
        // Remove the bad triangles.
        let mut next_tris: Vec<Triangle> = Vec::new();
        let mut k2: usize = 0;
        while k2 < tris.len()
            invariant
                0 <= k2 <= tris@.len(),
                i < point_count,
                tris_elems_ok(tris@, i as int, point_count as int),
                distinct_seq(tris@),
                tris_elems_ok(next_tris@, i as int, point_count as int),
                distinct_seq(next_tris@),
                forall|a: int|
                    0 <= a < next_tris@.len() ==> exists|idx: int|
                        0 <= idx < k2 && tris@[idx] == #[trigger] next_tris@[a],
                next_tris@ == keep_upto(tris@, bad@, k2 as int),
            decreases tris@.len() - k2,
        {
            let t = tris[k2];
            if !containsTri(&bad, t) {
                proof {
                    assert forall|a: int|
                        0 <= a < next_tris@.len() implies next_tris@[a] != tris@[k2 as int] by {
                        let idx = choose|idx: int|
                            0 <= idx < k2 && tris@[idx] == next_tris@[a];
                        assert(tris@[idx] != tris@[k2 as int]);
                    }
                }
                next_tris.push(t);
            }
            k2 = k2 + 1;
        }
        // Refill the cavity: one new triangle per free edge.
        let ghost stage = i as int;
        let ghost kept = next_tris@;
        proof {
            assert(tris_elems_ok(next_tris@, stage + 1, point_count as int));
        }
        let mut m: usize = 0;
        while m < poly.len()
            invariant
                0 <= m <= poly@.len(),
                i < point_count,
                point_count + 3 <= usize::MAX,
                forall|q: int| 0 <= q < poly@.len() ==> edge_ok(#[trigger] poly@[q], i as int, point_count as int),
                tris_elems_ok(next_tris@, i + 1, point_count as int),
                distinct_seq(next_tris@),
                next_tris@ == add_upto(kept, poly@, i, m as int),
            decreases poly@.len() - m,
        {
            let e = poly[m];
            let nt = makeTriangle(i, e.0, e.1);
            if !containsTri(&next_tris, nt) {
                next_tris.push(nt);
            }
            m = m + 1;
        }
        proof {
            assert(bad@ == bad_upto(psv, tris@, psv[i as int], tris@.len() as int));
            assert(poly@ == free_upto(bad@, bad@.len() as int));
            assert(kept == keep_upto(tris@, bad@, tris@.len() as int));
            assert(next_tris@ == add_upto(kept, poly@, i, poly@.len() as int));
            assert(next_tris@ == insert_step(psv, tris@, i as PointIndex));
            assert(next_tris@ == insert_upto(psv, init, i + 1));
        }
        tris = next_tris;
        i = i + 1;
    }
    // Discard every triangle that references a sentinel point.
    let mut final_tris: Vec<Triangle> = Vec::new();
    let mut k3: usize = 0;
    while k3 < tris.len()
        invariant
            0 <= k3 <= tris@.len(),
            tris_elems_ok(tris@, point_count as int, point_count as int),
            distinct_seq(tris@),
            tris_wf(final_tris@, point_count as int),
            forall|a: int|
                0 <= a < final_tris@.len() ==> exists|idx: int|
                    0 <= idx < k3 && tris@[idx] == #[trigger] final_tris@[a],
            final_tris@ == real_upto(tris@, point_count, k3 as int),
        decreases tris@.len() - k3,
    {
        let t = tris[k3];
        if t.0 < point_count && t.1 < point_count && t.2 < point_count {
            proof {
                assert forall|a: int|
                    0 <= a < final_tris@.len() implies final_tris@[a] != tris@[k3 as int] by {
                    let idx = choose|idx: int|
                        0 <= idx < k3 && tris@[idx] == final_tris@[a];
                    assert(tris@[idx] != tris@[k3 as int]);
                }
            }
            final_tris.push(t);
        }
        k3 = k3 + 1;
    }
    proof {
        assert(final_tris@ == real_upto(tris@, point_count, tris@.len() as int));
        assert(tris@ == insert_upto(psv, init, point_count as int));
        assert(bw_tris(points@) == final_tris@);
    }
    if final_tris.len() == 0 {
        return Err(
            Error::RuntimeError("the input is degenerate: no triangle survives".to_owned()),
        );
    }
    // The construction is done; check the invariants it is meant to have.
    if !validateDelaunay(&final_tris, &points) {
        return Err(
            Error::RuntimeError(
                "a retained triangle's circumcircle encloses an input point".to_owned(),
            ),
        );
    }
    // Build the edge adjacency index, then check its invariants.
    let mut es: Vec<(Edge, Vec<TriangleIndex>)> = Vec::new();
    let mut ti: usize = 0;
    while ti < final_tris.len()
        invariant
            0 <= ti <= final_tris@.len(),
            es_view(es@) == index_upto(final_tris@, ti as int),
        decreases final_tris@.len() - ti,
    {
        let t = final_tris[ti];
        let ghost es0 = es@;
        let e1 = makeEdge(t.0, t.1);
        addToMapOfVecs(&mut es, e1, ti);
        proof {
            lemma_add_view(es0, es@, e1, ti);
        }
        let ghost es1 = es@;
        let e2 = makeEdge(t.0, t.2);
        addToMapOfVecs(&mut es, e2, ti);
        proof {
            lemma_add_view(es1, es@, e2, ti);
        }
        let ghost es2 = es@;
        let e3 = makeEdge(t.1, t.2);
        addToMapOfVecs(&mut es, e3, ti);
        proof {
            lemma_add_view(es2, es@, e3, ti);
            assert(es_view(es@) == index_upto(final_tris@, ti + 1));
        }
        ti = ti + 1;
    }
    let ghost aidx = index_upto(final_tris@, final_tris@.len() as int);
    if !validateEntries(&es, &final_tris) {
        proof {
            lemma_index_bridge(es@, final_tris@);
            assert(!aindex_wf(aidx, final_tris@)) by {
                if aindex_wf(aidx, final_tris@) {
                    assert(forall|k: int|
                        0 <= k < es@.len() ==> entry_wf(#[trigger] es@[k], final_tris@));
                }
            };
        }
        return Err(Error::RuntimeError("adjacency invariant violated: bad entry".to_owned()));
    }
    if !validateKeysUnique(&es) {
        proof {
            lemma_index_bridge(es@, final_tris@);
            assert(!aindex_wf(aidx, final_tris@)) by {
                if aindex_wf(aidx, final_tris@) {
                    assert(forall|k1: int, k2: int|
                        0 <= k1 < k2 < es@.len() ==> es@[k1].0 != es@[k2].0);
                }
            };
        }
        return Err(Error::RuntimeError("adjacency invariant violated: repeated edge".to_owned()));
    }
    if !validateCoverage(&es, &final_tris) {
        proof {
            lemma_index_bridge(es@, final_tris@);
            assert(!aindex_wf(aidx, final_tris@)) by {
                if aindex_wf(aidx, final_tris@) {
                    assert(forall|i2: int|
                        0 <= i2 < final_tris@.len() ==> tri_edges_indexed(
                            #[trigger] final_tris@[i2],
                            es@,
                            i2,
                        ));
                }
            };
        }
        return Err(
            Error::RuntimeError("adjacency invariant violated: unregistered edge".to_owned()),
        );
    }
    proof {
        lemma_index_bridge(es@, final_tris@);
        assert(aindex_wf(aidx, final_tris@));
    }
    Ok(Triangulation { points, triangles: final_tris, edge_sharing: es })
}

/// The concrete index predicates and their abstract mirrors agree, entry
/// by entry and triangle by triangle.
proof fn lemma_index_bridge(es: Seq<(Edge, Vec<TriangleIndex>)>, ts: Seq<Triangle>)
    ensures
        es_view(es).len() == es.len(),
        forall|k: int|
            0 <= k < es.len() ==> (entry_wf(#[trigger] es[k], ts) <==> aentry_wf(
                es_view(es)[k],
                ts,
            )),
        forall|k: int| 0 <= k < es.len() ==> es_view(es)[k].0 == #[trigger] es[k].0,
        forall|i: int|
            0 <= i < ts.len() ==> (tri_edges_indexed(#[trigger] ts[i], es, i) <==> atri_indexed(
                ts[i],
                es_view(es),
                i,
            )),
{
    assert(es_view(es).len() == es.len());
    assert forall|k: int| 0 <= k < es.len() implies (entry_wf(#[trigger] es[k], ts) <==> aentry_wf(
        es_view(es)[k],
        ts,
    )) by {
        assert(es_view(es)[k] == (es[k].0, es[k].1@));
    }
    assert forall|k: int| 0 <= k < es.len() implies es_view(es)[k].0 == #[trigger] es[k].0 by {
        assert(es_view(es)[k] == (es[k].0, es[k].1@));
    }
    assert forall|i: int| 0 <= i < ts.len() implies (tri_edges_indexed(#[trigger] ts[i], es, i)
        <==> atri_indexed(ts[i], es_view(es), i)) by {
        let t = ts[i];
        lemma_aes_index_view(es, (t.0, t.1), 0);
        lemma_aes_index_view(es, (t.0, t.2), 0);
        lemma_aes_index_view(es, (t.1, t.2), 0);
        lemma_es_index_of(es, (t.0, t.1), 0);
        lemma_es_index_of(es, (t.0, t.2), 0);
        lemma_es_index_of(es, (t.1, t.2), 0);
        if es_index_of(es, (t.0, t.1), 0) >= 0 {
            let k = es_index_of(es, (t.0, t.1), 0);
            assert(es_view(es)[k] == (es[k].0, es[k].1@));
        }
        if es_index_of(es, (t.0, t.2), 0) >= 0 {
            let k = es_index_of(es, (t.0, t.2), 0);
            assert(es_view(es)[k] == (es[k].0, es[k].1@));
        }
        if es_index_of(es, (t.1, t.2), 0) >= 0 {
            let k = es_index_of(es, (t.1, t.2), 0);
            assert(es_view(es)[k] == (es[k].0, es[k].1@));
        }
    }
}

/// True iff no triangle position occurs twice in `v`.
fn allDistinctIdx(v: &Vec<TriangleIndex>) -> (r: bool)
    ensures
        r == distinct_idx(v@),
{
    let mut a: usize = 0;
    while a < v.len()
        invariant
            0 <= a <= v@.len(),
            forall|x: int, y: int| 0 <= x < y < v@.len() && x < a ==> v@[x] != v@[y],
        decreases v@.len() - a,
    {
        let mut b: usize = a + 1;
        while b < v.len()
            invariant
                a < v@.len(),
                a < b <= v@.len() || b == a + 1,
                forall|y: int| a < y < b ==> v@[a as int] != v@[y],
            decreases v@.len() - b,
        {
            if v[a] == v[b] {
                return false;
            }
            b = b + 1;
        }
        a = a + 1;
    }
    true
}

/// The exit edge of a fan step runs through `p` and one other vertex of
/// the current triangle.
proof fn lemma_eout_props(ts: Seq<Triangle>, p: PointIndex, cur: TriangleIndex, ein: Edge)
    requires
        cur < ts.len(),
        ts[cur as int].0 < ts[cur as int].1 && ts[cur as int].1 < ts[cur as int].2,
        tri_has(ts[cur as int], p),
    ensures
        tri_has(ts[cur as int], other_edge_at(ts[cur as int], p, ein).0),
        tri_has(ts[cur as int], other_edge_at(ts[cur as int], p, ein).1),
        other_edge_at(ts[cur as int], p, ein).0 == p || other_edge_at(ts[cur as int], p, ein).1
            == p,
        other_edge_at(ts[cur as int], p, ein).0 != other_edge_at(ts[cur as int], p, ein).1,
        other_edge_at(ts[cur as int], p, ein) == edges_at_point(ts[cur as int], p).0
            || other_edge_at(ts[cur as int], p, ein) == edges_at_point(ts[cur as int], p).1,
{
}

/// Two triangles that both own an edge through `p` are fan-adjacent.
proof fn lemma_share_edge(
    ts: Seq<Triangle>,
    p: PointIndex,
    a: TriangleIndex,
    b: TriangleIndex,
    e: Edge,
)
    requires
        a < ts.len(),
        b < ts.len(),
        tri_has(ts[a as int], p),
        tri_has(ts[b as int], p),
        tri_has(ts[a as int], e.0) && tri_has(ts[a as int], e.1),
        tri_has(ts[b as int], e.0) && tri_has(ts[b as int], e.1),
        e.0 == p || e.1 == p,
        e.0 != e.1,
    ensures
        fan_adjacent(ts, a, b, p),
{
    let v = if e.0 == p {
        e.1
    } else {
        e.0
    };
    assert(v != p && tri_has(ts[a as int], v) && tri_has(ts[b as int], v));
}

/// For an interior point no edge through it is free, so a walk from it can
/// never reach a single-owner edge.
proof fn lemma_interior_no_free_edge(
    es: Seq<(Edge, Vec<TriangleIndex>)>,
    ts: Seq<Triangle>,
    tris: Seq<TriangleIndex>,
    p: PointIndex,
    cur: TriangleIndex,
    e: Edge,
)
    requires
        seed_from(es, ts, tris, p, 0) is None,
        tris == incident_upto(ts, p, ts.len() as int),
        ts.len() <= usize::MAX,
        cur < ts.len(),
        tri_has(ts[cur as int], p),
        e == edges_at_point(ts[cur as int], p).0 || e == edges_at_point(ts[cur as int], p).1,
    ensures
        es_count(es, e) != 1,
{
    lemma_seed_none(es, ts, tris, p, 0);
    lemma_incident_props(ts, p, ts.len() as int);
    assert(tris.contains(cur));
    let a = choose|a: int| 0 <= a < tris.len() && tris[a] == cur;
    assert(es_count(es, edges_at_point(ts[tris[a] as int], p).0) != 1 && es_count(
        es,
        edges_at_point(ts[tris[a] as int], p).1,
    ) != 1);
}

/// The two edges through `p` of a triangle containing `p` are among its
/// three canonical edges, so the index knows both, and each lists the
/// triangle itself among its owners.
proof fn lemma_tri_point_edges(
    es: Seq<(Edge, Vec<TriangleIndex>)>,
    ts: Seq<Triangle>,
    ti: int,
    p: PointIndex,
)
    requires
        0 <= ti < ts.len(),
        ts[ti].0 < ts[ti].1 && ts[ti].1 < ts[ti].2,
        tri_has(ts[ti], p),
        tri_edges_indexed(ts[ti], es, ti),
    ensures
        es_count(es, edges_at_point(ts[ti], p).0) >= 1,
        es_count(es, edges_at_point(ts[ti], p).1) >= 1,
{
    let t = ts[ti];
    assert(edges_at_point(t, p).0 == (t.0, t.1) || edges_at_point(t, p).0 == (t.0, t.2)
        || edges_at_point(t, p).0 == (t.1, t.2));
    assert(edges_at_point(t, p).1 == (t.0, t.1) || edges_at_point(t, p).1 == (t.0, t.2)
        || edges_at_point(t, p).1 == (t.1, t.2));
    lemma_owner_count(es, ts, ti, (t.0, t.1));
    lemma_owner_count(es, ts, ti, (t.0, t.2));
    lemma_owner_count(es, ts, ti, (t.1, t.2));
}

/// An edge with a registered owner has a positive owner count.
proof fn lemma_owner_count(es: Seq<(Edge, Vec<TriangleIndex>)>, ts: Seq<Triangle>, ti: int, e: Edge)
    requires
        es_has_owner(es, e, ti),
    ensures
        es_count(es, e) >= 1,
{
    let k = es_index_of(es, e, 0);
    assert(es[k].1@.contains(ti as TriangleIndex));
    let j = choose|j: int| 0 <= j < es[k].1@.len() && es[k].1@[j] == ti as TriangleIndex;
}

impl Triangulation {
    /// The positions of the triangles that have `p` as a vertex, ascending.
    fn trisWithPoint(&self, p: PointIndex) -> (r: Vec<TriangleIndex>)
        ensures
            r@ == incident_upto(self.triangles@, p, self.triangles@.len() as int),
    {
        let mut out: Vec<TriangleIndex> = Vec::new();
        let mut ti: usize = 0;
        while ti < self.triangles.len()
            invariant
                0 <= ti <= self.triangles@.len(),
                out@ == incident_upto(self.triangles@, p, ti as int),
            decreases self.triangles@.len() - ti,
        {
            let t = self.triangles[ti];
            if t.0 == p || t.1 == p || t.2 == p {
                out.push(ti);
            }
            ti = ti + 1;
        }
        out
    }

    /// How many triangles have `p` as a vertex.
    pub fn incidentCount(&self, p: PointIndex) -> (r: usize)
        ensures
            r == incident_count(self.triangles@, p),
    {
        let tris = self.trisWithPoint(p);
        tris.len()
    }

    /// Whether the triangle at `tri` owns `edge`.
    fn triHasEdge(&self, tri: TriangleIndex, edge: Edge) -> (r: bool)
        requires
            tri < self.triangles@.len(),
        ensures
            r == tri_has_edge(self.triangles@[tri as int], edge),
    {
        let t = self.triangles[tri];
        edgeInTriangle(edge, t)
    }

    /// The two canonical edges through `p` of the triangle at `ti`.
    fn edgesInTriWithPoint(&self, ti: TriangleIndex, p: PointIndex) -> (r: (Edge, Edge))
        requires
            ti < self.triangles@.len(),
        ensures
            r == edges_at_point(self.triangles@[ti as int], p),
    {
        let tri = self.triangles[ti];
        if tri.0 == p {
            (makeEdge(p, tri.1), makeEdge(p, tri.2))
        } else if tri.1 == p {
            (makeEdge(p, tri.0), makeEdge(p, tri.2))
        } else {
            (makeEdge(p, tri.0), makeEdge(p, tri.1))
        }
    }

    /// Whether more than one triangle owns `edge`.
    fn edgeIsShared(&self, edge: Edge) -> (r: bool)
        ensures
            r == (es_count(self.edge_sharing@, edge) > 1),
    {
        match esFind(&self.edge_sharing, edge) {
            Some(k) => self.edge_sharing[k].1.len() > 1,
            None => false,
        }
    }

    /// The incident triangles of `p` in cyclic or linear walk order: the
    /// walk is seeded at a free edge (for a hull point) or at the first
    /// incident triangle (for an interior point), and repeatedly crosses to
    /// the other owner of its current edge. Consecutive result elements
    /// always share an edge through `p`, and the walk covers each incident
    /// triangle exactly once; a walk that cannot do so reports a violated
    /// internal invariant.
    #[verifier::rlimit(100)]
    pub fn trisWithPointOrdered(&self, p: PointIndex) -> (r: Result<Vec<TriangleIndex>, Error>)
        requires
            self.wf(),
            p < self.points@.len(),
            incident_count(self.triangles@, p) >= 1,
        ensures
            match r {
                Ok(fan) => {
                    &&& Some(fan@) == self.ordered_fan(p)
                    &&& fan@.len() == incident_count(self.triangles@, p)
                    &&& distinct_idx(fan@)
                    &&& forall|a: int|
                        0 <= a < fan@.len() ==> #[trigger] fan@[a] < self.triangles@.len()
                            && tri_has(self.triangles@[fan@[a] as int], p)
                    &&& forall|c: int|
                        #![trigger fan@[c]]
                        0 <= c < fan@.len() - 1 ==> fan_adjacent(
                            self.triangles@,
                            fan@[c],
                            fan@[c + 1],
                            p,
                        )
                    &&& self.interior_point(p) ==> fan_adjacent(
                        self.triangles@,
                        fan@[fan@.len() - 1],
                        fan@[0],
                        p,
                    )
                },
                Err(_) => self.ordered_fan(p) is None,
            },
    {
        let ghost ts = self.triangles@;
        let ghost es = self.edge_sharing@;
        let tlen: usize = self.triangles.len();
        proof {
            assert(ts.len() == tlen);
        }
        let tris = self.trisWithPoint(p);
        proof {
            lemma_incident_props(ts, p, ts.len() as int);
        }
        // Seed: the first free edge through p, if one exists.
        let first_pair = self.edgesInTriWithPoint(tris[0], p);
        let mut sidx: usize = 0;
        let mut sedge: Edge = first_pair.0;
        let mut found: bool = false;
        let mut idx: usize = 0;
        while idx < tris.len() && !found
            invariant
                self.wf(),
                ts == self.triangles@,
                es == self.edge_sharing@,
                tris@ == incident_upto(ts, p, ts.len() as int),
                ts.len() <= usize::MAX,
                tris@.len() >= 1,
                0 <= idx <= tris@.len(),
                !found ==> seed_from(es, ts, tris@, p, 0) == seed_from(es, ts, tris@, p, idx as int)
                    && sidx == 0 && sedge == edges_at_point(ts[tris@[0] as int], p).0,
                found ==> seed_from(es, ts, tris@, p, 0) == Some((sidx as int, sedge)) && sidx
                    < tris@.len(),
            decreases tris@.len() - idx, (if found { 0int } else { 1int }),
        {
            proof {
                lemma_incident_props(ts, p, ts.len() as int);
                lemma_tri_point_edges(es, ts, tris@[idx as int] as int, p);
            }
            let pair = self.edgesInTriWithPoint(tris[idx], p);
            if !self.edgeIsShared(pair.0) {
                sidx = idx;
                sedge = pair.0;
                found = true;
            } else if !self.edgeIsShared(pair.1) {
                sidx = idx;
                sedge = pair.1;
                found = true;
            } else {
                idx = idx + 1;
            }
        }
        proof {
            if !found {
                assert(seed_from(es, ts, tris@, p, idx as int) is None);
            }
        }
        let start_ti = tris[sidx];
        let ghost target = fan_walk(es, ts, p, sedge, start_ti, sedge, tris@.len() as nat);
        proof {
            lemma_incident_props(ts, p, ts.len() as int);
        }
        let mut result: Vec<TriangleIndex> = Vec::new();
        result.push(start_ti);
        let mut cur: TriangleIndex = start_ti;
        let mut ein: Edge = sedge;
        let mut fuel: usize = tris.len();
        let mut fail: Option<String> = None;
        proof {
            assert(result@.skip(1) =~= Seq::<TriangleIndex>::empty());
            if target is Some {
                assert(Seq::<TriangleIndex>::empty() + target->Some_0 =~= target->Some_0);
            }
        }
        loop
            invariant_except_break
                fail is None,
            invariant
                self.wf(),
                ts == self.triangles@,
                es == self.edge_sharing@,
                tris@ == incident_upto(ts, p, ts.len() as int),
                tris@.len() >= 1,
                p < self.points@.len(),
                cur < ts.len(),
                tri_has(ts[cur as int], p),
                result@.len() >= 1,
                result@[0] == start_ti,
                result@[result@.len() - 1] == cur,
                forall|a: int|
                    0 <= a < result@.len() ==> #[trigger] result@[a] < ts.len() && tri_has(
                        ts[result@[a] as int],
                        p,
                    ),
                forall|c: int|
                    #![trigger result@[c]]
                    0 <= c < result@.len() - 1 ==> fan_adjacent(ts, result@[c], result@[c + 1], p),
                match fan_walk(es, ts, p, sedge, cur, ein, fuel as nat) {
                    Some(rest) => target == Some(result@.skip(1) + rest),
                    None => target is None,
                },
            ensures
                fail is None ==> fan_walk(es, ts, p, sedge, cur, ein, fuel as nat) == Some(
                    Seq::<TriangleIndex>::empty(),
                ),
                fail is Some ==> fan_walk(es, ts, p, sedge, cur, ein, fuel as nat) is None,
            decreases fuel,
        {
            let pair = self.edgesInTriWithPoint(cur, p);
            let eout: Edge = if eqEdge(pair.0, ein) {
                pair.1
            } else {
                pair.0
            };
            if eqEdge(eout, sedge) {
                break;
            }
            match esFind(&self.edge_sharing, eout) {
                None => {
                    fail = Some("fan walk: an edge is missing from the index".to_owned());
                    break;
                },
                Some(k) => {
                    proof {
                        assert(entry_wf(es[k as int], ts));
                    }
                    let olen = self.edge_sharing[k].1.len();
                    if olen == 1 {
                        if self.edge_sharing[k].1[0] == cur {
                            break;
                        } else {
                            fail = Some(
                                "fan walk: a foreign edge interrupts the fan".to_owned(),
                            );
                            break;
                        }
                    } else if olen == 2 {
                        let o0 = self.edge_sharing[k].1[0];
                        let o1 = self.edge_sharing[k].1[1];
                        if o0 != cur && o1 != cur {
                            fail = Some(
                                "fan walk: the current triangle does not own its edge".to_owned(),
                            );
                            break;
                        }
                        let next: TriangleIndex = if o0 == cur {
                            o1
                        } else {
                            o0
                        };
                        if fuel == 0 {
                            fail = Some("fan walk: the fan does not close".to_owned());
                            break;
                        }
                        proof {
                            lemma_eout_props(ts, p, cur, ein);
                            assert(tri_has(ts[next as int], eout.0) && tri_has(
                                ts[next as int],
                                eout.1,
                            ));
                            lemma_share_edge(ts, p, cur, next, eout);
                        }
                        let ghost old_result = result@;
                        result.push(next);
                        proof {
                            match fan_walk(es, ts, p, sedge, next, eout, (fuel - 1) as nat) {
                                Some(rest2) => {
                                    assert(old_result.skip(1) + (seq![next] + rest2)
                                        =~= result@.skip(1) + rest2);
                                },
                                None => {},
                            }
                        }
                        fuel = fuel - 1;
                        cur = next;
                        ein = eout;
                    } else {
                        fail = Some("fan walk: an edge with more than two owners".to_owned());
                        break;
                    }
                },
            }
        }
        proof {
            assert(result@.skip(1) + Seq::<TriangleIndex>::empty() =~= result@.skip(1));
            assert(seq![result@[0]] + result@.skip(1) =~= result@);
        }
        if let Some(msg) = fail {
            proof {
                assert(target is None);
                assert(self.ordered_fan(p) is None);
            }
            return Err(Error::RuntimeError(msg));
        }
        proof {
            if seed_from(es, ts, tris@, p, 0) is None {
                // The walk of an interior point can only have stopped by
                // returning to its seed edge, which closes the cycle.
                let eout = other_edge_at(ts[cur as int], p, ein);
                lemma_eout_props(ts, p, cur, ein);
                if eout != sedge {
                    lemma_interior_no_free_edge(es, ts, tris@, p, cur, eout);
                    let k = es_index_of(es, eout, 0);
                    assert(k >= 0 && es[k].1@.len() == 1);
                    assert(es_count(es, eout) == 1);
                }
                lemma_eout_props(ts, p, start_ti, edges_at_point(ts[start_ti as int], p).1);
                lemma_share_edge(ts, p, cur, start_ti, sedge);
            }
        }
        if result.len() != tris.len() {
            return Err(
                Error::RuntimeError("fan walk: some incident triangle is unreachable".to_owned()),
            );
        }
        if !allDistinctIdx(&result) {
            return Err(
                Error::RuntimeError("fan walk: a triangle is visited twice".to_owned()),
            );
        }
        Ok(result)
    }
}

} // verus!
