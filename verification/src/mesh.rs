//! The mesh: vertices, convex polygons, and point location.

use crate::helpers::{on_segment, on_side, side, within_segment, EdgeSide, Point};
use crate::numeric::{COORD_MAX, UNIT};
use vstd::prelude::*;

verus! {

/// A vertex of the mesh.
#[derive(Debug)]
pub struct Vertex {
    pub x: i64,
    pub y: i64,
    /// Indices of the polygons around the vertex; `-1` stands for an obstacle.
    pub polygons: Vec<isize>,
    /// The vertex touches an obstacle, so that a path may turn around it.
    pub is_corner: bool,
}

impl Vertex {
    /// Position of the vertex.
    pub open spec fn position(self) -> Point {
        Point { x: self.x, y: self.y }
    }

    /// A vertex at the whole world coordinates `(x, y)`, surrounded by the
    /// polygons `poly`.
    pub fn new(x: u32, y: u32, poly: Vec<isize>) -> (v: Vertex)
        ensures
            v.x == x * UNIT,
            v.y == y * UNIT,
            v.polygons@ == poly@,
            v.is_corner == poly@.contains(-1isize),
    {
        let mut is_corner = false;
        let mut k: usize = 0;
        while k < poly.len()
            invariant
                k <= poly.len(),
                is_corner == poly@.subrange(0, k as int).contains(-1isize),
            decreases poly.len() - k,
        {
            proof {
                let before = poly@.subrange(0, k as int);
                let after = poly@.subrange(0, k + 1);
                assert(after == before.push(poly@[k as int]));
                if poly@[k as int] == -1isize {
                    assert(after[k as int] == -1isize);
                } else if before.contains(-1isize) {
                    let j = choose|j: int| 0 <= j < before.len() && before[j] == -1isize;
                    assert(after[j] == -1isize);
                }
            }
            if poly[k] == -1 {
                is_corner = true;
            }
            k += 1;
        }
        assert(poly@.subrange(0, poly.len() as int) == poly@);
        Vertex { x: x as i64 * UNIT, y: y as i64 * UNIT, polygons: poly, is_corner }
    }

    /// Position of the vertex.
    pub fn p(&self) -> (p: Point)
        ensures
            p == self.position(),
    {
        Point { x: self.x, y: self.y }
    }
}

/// A convex polygon of the mesh.
#[derive(Debug)]
pub struct Polygon {
    /// Indices of the vertices, counter-clockwise.
    pub vertices: Vec<usize>,
    /// At most one edge leads to another polygon.
    pub is_one_way: bool,
}

/// At most one of the neighbours is a polygon: no two entries differ from
/// `-1`.
pub open spec fn one_way(neighbours: Seq<isize>) -> bool {
    forall|a: int, b: int|
        0 <= a < b < neighbours.len() ==> neighbours[a] == -1 || neighbours[b] == -1
}

/// A vertex index as a polygon line gives it, read as an unsigned number.
pub open spec fn vertex_index(v: isize) -> usize {
    #[verifier::truncate]
    (v as usize)
}

/// Position `k` of a cycle of length `n` walked up to twice.
pub proof fn lemma_cyclic(k: int, n: int)
    by (nonlinear_arith)
    requires
        0 <= k < 2 * n,
    ensures
        k % n == (if k >= n {
            k - n
        } else {
            k
        }),
{
}

/// The `k`-th edge of the cycle of vertices `vs`, counted cyclically.
pub open spec fn edge_at(vs: Seq<usize>, k: int) -> [usize; 2] {
    [vs[k % vs.len() as int], vs[(k + 1) % vs.len() as int]]
}

impl Polygon {
    /// Edges of the polygon in order: from each vertex to the next, the last
    /// one back to the first.
    pub open spec fn edges(self) -> Seq<[usize; 2]> {
        Seq::new(self.vertices@.len(), |k: int| edge_at(self.vertices@, k))
    }

    /// The edges of the polygon listed twice over.
    pub open spec fn double_edges(self) -> Seq<[usize; 2]> {
        self.edges() + self.edges()
    }

    /// In the doubled list, the edge at place `k` is the `k`-th edge of the
    /// cycle, counted cyclically.
    pub proof fn lemma_double_edge_at(self, k: int)
        requires
            0 <= k < 2 * self.vertices@.len(),
        ensures
            self.double_edges()[k] == edge_at(self.vertices@, k),
    {
        let n = self.vertices@.len() as int;
        lemma_cyclic(k, n);
        if k + 1 < 2 * n {
            lemma_cyclic(k + 1, n);
        } else {
            assert((k + 1) % n == 0) by (nonlinear_arith)
                requires
                    k + 1 == 2 * n,
                    n > 0,
            ;
        }
        if k >= n {
            lemma_cyclic(k - n, n);
            lemma_cyclic(k - n + 1, n);
        }
    }

    /// A polygon of `nb` vertices from `data`: the vertex indices, followed
    /// by as many neighbour indices, `-1` for an obstacle.
    pub fn new(nb: usize, data: Vec<isize>) -> (p: Polygon)
        requires
            data.len() == 2 * nb,
        ensures
            p.vertices@.len() == nb,
            forall|k: int| 0 <= k < nb ==> p.vertices@[k] == vertex_index(data@[k]),
            p.is_one_way == one_way(data@.subrange(nb as int, 2 * nb)),
    {
        let mut vertices: Vec<usize> = Vec::with_capacity(nb);
        let mut k: usize = 0;
        while k < nb
            invariant
                k <= nb,
                data.len() == 2 * nb,
                vertices@.len() == k,
                forall|j: int| 0 <= j < k ==> vertices@[j] == vertex_index(data@[j]),
            decreases nb - k,
        {
            vertices.push(#[verifier::truncate] (data[k] as usize));
            k += 1;
        }
        let ghost neighbours = data@.subrange(nb as int, 2 * nb);
        let mut found_trav = false;
        let mut is_one_way = true;
        let mut k: usize = nb;
        while k < data.len()
            invariant
                nb <= k <= data.len(),
                data.len() == 2 * nb,
                neighbours == data@.subrange(nb as int, 2 * nb),
                is_one_way == one_way(neighbours.subrange(0, k - nb)),
                found_trav == exists|j: int| 0 <= j < k - nb && neighbours[j] != -1,
            decreases data.len() - k,
        {
            let ghost before = neighbours.subrange(0, k - nb);
            let ghost after = neighbours.subrange(0, k - nb + 1);
            if data[k] != -1 {
                if found_trav {
                    proof {
                        let j = choose|j: int| 0 <= j < k - nb && neighbours[j] != -1;
                        assert(after[j] != -1 && after[k - nb] != -1);
                    }
                    is_one_way = false;
                } else {
                    proof {
                        if is_one_way {
                            assert forall|a: int, b: int| 0 <= a < b < after.len() implies after[a]
                                == -1 || after[b] == -1 by {
                                assert(neighbours[a] == -1);
                            }
                        } else {
                            let (a, b) = choose|a: int, b: int|
                                0 <= a < b < before.len() && !(before[a] == -1 || before[b] == -1);
                            assert(after[a] != -1 && after[b] != -1);
                        }
                    }
                    assert(neighbours[k - nb] != -1);
                    found_trav = true;
                }
            } else {
                proof {
                    if found_trav {
                        let j = choose|j: int| 0 <= j < k - nb && neighbours[j] != -1;
                        assert(0 <= j < k - nb + 1 && neighbours[j] != -1);
                    }
                    if is_one_way {
                        assert forall|a: int, b: int| 0 <= a < b < after.len() implies after[a]
                            == -1 || after[b] == -1 by {
                            if b < before.len() {
                                assert(before[a] == -1 || before[b] == -1);
                            }
                        }
                    } else {
                        let (a, b) = choose|a: int, b: int|
                            0 <= a < b < before.len() && !(before[a] == -1 || before[b] == -1);
                        assert(after[a] != -1 && after[b] != -1);
                    }
                }
            }
            k += 1;
        }
        assert(neighbours.subrange(0, nb as int) == neighbours);
        Polygon { vertices, is_one_way }
    }

    /// Edges of the polygon in order.
    pub fn edges_index(&self) -> (edges: Vec<[usize; 2]>)
        requires
            self.vertices@.len() >= 1,
        ensures
            edges@ == self.edges(),
    {
        let n = self.vertices.len();
        let mut edges: Vec<[usize; 2]> = Vec::with_capacity(n / 2);
        let mut k: usize = 0;
        while k < n
            invariant
                k <= n,
                n == self.vertices@.len(),
                n >= 1,
                edges@.len() == k,
                forall|j: int| 0 <= j < k ==> edges@[j] == edge_at(self.vertices@, j),
            decreases n - k,
        {
            let next = if k + 1 == n {
                0
            } else {
                k + 1
            };
            proof {
                lemma_cyclic(k as int, n as int);
                lemma_cyclic(k + 1, n as int);
            }
            edges.push([self.vertices[k], self.vertices[next]]);
            k += 1;
        }
        assert(edges@ =~= self.edges());
        edges
    }

    /// The edges of the polygon listed twice over, so that a window that
    /// starts after any edge and runs once around needs no wrapping.
    pub fn double_edges_index(&self) -> (edges: Vec<[usize; 2]>)
        requires
            1 <= self.vertices@.len() <= usize::MAX / 2,
        ensures
            edges@ == self.double_edges(),
    {
        let n = self.vertices.len();
        let mut edges: Vec<[usize; 2]> = Vec::with_capacity(n);
        let mut k: usize = 0;
        while k < 2 * n
            invariant
                k <= 2 * n,
                n == self.vertices@.len(),
                1 <= n <= usize::MAX / 2,
                edges@.len() == k,
                forall|j: int| 0 <= j < k ==> edges@[j] == edge_at(self.vertices@, j),
            decreases 2 * n - k,
        {
            let here = if k >= n {
                k - n
            } else {
                k
            };
            let next = if here + 1 == n {
                0
            } else {
                here + 1
            };
            proof {
                lemma_cyclic(k as int, n as int);
                if k + 1 < 2 * n {
                    lemma_cyclic(k + 1, n as int);
                } else {
                    assert((k + 1) % (n as int) == 0) by (nonlinear_arith)
                        requires
                            k + 1 == 2 * n,
                            n > 0,
                    ;
                }
            }
            edges.push([self.vertices[here], self.vertices[next]]);
            k += 1;
        }
        assert(edges@ =~= self.double_edges()) by {
            assert forall|j: int| 0 <= j < 2 * n implies edges@[j] == self.double_edges()[j] by {
                self.lemma_double_edge_at(j);
            }
        }
        edges
    }
}

/// The polygon index that stands for "outside the mesh".
pub const OUTSIDE: usize = usize::MAX;

/// Size of the nudge applied to a query point that no polygon holds: a tenth
/// of a world unit.
pub const NUDGE: i64 = 100_000;

/// Horizontal part of the `n`-th of the nine nudges.
pub open spec fn nudge_x(n: int) -> int {
    if n == 1 || n == 2 || n == 8 {
        NUDGE as int
    } else if n == 4 || n == 5 || n == 6 {
        -NUDGE
    } else {
        0
    }
}

/// Vertical part of the `n`-th of the nine nudges.
pub open spec fn nudge_y(n: int) -> int {
    if n == 2 || n == 3 || n == 4 {
        NUDGE as int
    } else if n == 6 || n == 7 || n == 8 {
        -NUDGE
    } else {
        0
    }
}

/// The point moved by the `n`-th nudge; the nudge of number zero leaves it
/// in place.
pub open spec fn nudged(point: Point, n: int) -> Point {
    Point { x: (point.x + nudge_x(n)) as i64, y: (point.y + nudge_y(n)) as i64 }
}

/// The point moved by the `n`-th nudge.
fn nudge(point: Point, n: usize) -> (p: Point)
    requires
        point.in_range(),
        n < 9,
    ensures
        p == nudged(point, n as int),
        p.in_reach(),
{
    let dx: i64 = if n == 1 || n == 2 || n == 8 {
        NUDGE
    } else if n == 4 || n == 5 || n == 6 {
        -NUDGE
    } else {
        0
    };
    let dy: i64 = if n == 2 || n == 3 || n == 4 {
        NUDGE
    } else if n == 6 || n == 7 || n == 8 {
        -NUDGE
    } else {
        0
    };
    Point { x: point.x + dx, y: point.y + dy }
}

/// A planar navigation mesh.
#[derive(Debug, Default)]
pub struct Mesh {
    pub vertices: Vec<Vertex>,
    pub polygons: Vec<Polygon>,
}

impl Mesh {
    /// Polygon `k` has at least one vertex, and all its vertices exist.
    pub open spec fn polygon_wf(self, k: int) -> bool {
        let vs = self.polygons@[k].vertices@;
        &&& 1 <= vs.len() <= usize::MAX / 2
        &&& forall|j: int| 0 <= j < vs.len() ==> vs[j] < self.vertices@.len()
    }

    /// The entry `q` of the polygons around vertex `v` is an obstacle, or a
    /// polygon that has `v` among its vertices.
    pub open spec fn incident_wf(self, v: int, q: isize) -> bool {
        q == -1 || (0 <= q < self.polygons@.len() && self.polygons@[q as int].vertices@.contains(
            v as usize,
        ))
    }

    /// Vertex `v` lies within the coordinate limit, is a corner exactly when
    /// it touches an obstacle, and belongs to each polygon that it names.
    pub open spec fn vertex_wf(self, v: int) -> bool {
        let vx = self.vertices@[v];
        &&& vx.position().in_range()
        &&& vx.is_corner == vx.polygons@.contains(-1isize)
        &&& forall|j: int| 0 <= j < vx.polygons@.len() ==> self.incident_wf(v, vx.polygons@[j])
    }

    /// The two arenas refer to each other consistently.
    pub open spec fn wf(self) -> bool {
        &&& self.polygons@.len() <= isize::MAX
        &&& forall|k: int| 0 <= k < self.polygons@.len() ==> self.polygon_wf(k)
        &&& forall|v: int| 0 <= v < self.vertices@.len() ==> self.vertex_wf(v)
    }

    /// Endpoints of the `j`-th edge of polygon `k`.
    pub open spec fn edge_points(self, k: int, j: int) -> [Point; 2] {
        let e = edge_at(self.polygons@[k].vertices@, j);
        [self.vertices@[e[0] as int].position(), self.vertices@[e[1] as int].position()]
    }

    /// The point is inside polygon `k`: to the left of every edge, or on
    /// some edge.
    pub open spec fn contains_point(self, k: int, point: Point) -> bool {
        let n = self.polygons@[k].vertices@.len();
        ||| forall|j: int|
            0 <= j < n ==> side(point, #[trigger] self.edge_points(k, j)) == EdgeSide::Left
        ||| exists|j: int| 0 <= j < n && within_segment(point, #[trigger] self.edge_points(k, j))
    }

    /// First polygon from index `from` on that contains the point;
    /// [`OUTSIDE`] when there is none.
    pub open spec fn first_polygon(self, point: Point, from: int) -> usize
        decreases self.polygons@.len() - from,
    {
        if from < 0 || from >= self.polygons@.len() {
            OUTSIDE
        } else if self.contains_point(from, point) {
            from as usize
        } else {
            self.first_polygon(point, from + 1)
        }
    }

    /// First polygon that contains the point exactly as given.
    pub open spec fn locate_unit(self, point: Point) -> usize {
        self.first_polygon(point, 0)
    }

    /// Polygon of the first of the nudges from number `n` on that lands in
    /// a polygon; [`OUTSIDE`] when none does.
    pub open spec fn locate_from(self, point: Point, n: int) -> usize
        decreases 9 - n,
    {
        if n < 0 || n >= 9 {
            OUTSIDE
        } else if self.locate_unit(nudged(point, n)) != OUTSIDE {
            self.locate_unit(nudged(point, n))
        } else {
            self.locate_from(point, n + 1)
        }
    }

    /// Polygon that holds the point, or a point nudged from it;
    /// [`OUTSIDE`] when the point is outside the mesh.
    pub open spec fn locate(self, point: Point) -> usize {
        self.locate_from(point, 0)
    }

    fn polygon_has_vertex(&self, q: usize, v: usize) -> (b: bool)
        requires
            q < self.polygons@.len(),
        ensures
            b == self.polygons@[q as int].vertices@.contains(v),
    {
        let vs = &self.polygons[q].vertices;
        let mut j: usize = 0;
        while j < vs.len()
            invariant
                j <= vs@.len(),
                vs@ == self.polygons@[q as int].vertices@,
                forall|a: int| 0 <= a < j ==> vs@[a] != v,
            decreases vs@.len() - j,
        {
            if vs[j] == v {
                assert(vs@[j as int] == v);
                return true;
            }
            j += 1;
        }
        false
    }

    fn polygon_is_wf(&self, k: usize) -> (b: bool)
        requires
            k < self.polygons@.len(),
        ensures
            b == self.polygon_wf(k as int),
    {
        let vs = &self.polygons[k].vertices;
        if vs.len() < 1 || vs.len() > usize::MAX / 2 {
            return false;
        }
        let mut j: usize = 0;
        while j < vs.len()
            invariant
                j <= vs@.len(),
                vs@ == self.polygons@[k as int].vertices@,
                forall|a: int| 0 <= a < j ==> vs@[a] < self.vertices@.len(),
            decreases vs@.len() - j,
        {
            if vs[j] >= self.vertices.len() {
                return false;
            }
            j += 1;
        }
        true
    }

    fn vertex_is_wf(&self, v: usize) -> (b: bool)
        requires
            v < self.vertices@.len(),
        ensures
            b == self.vertex_wf(v as int),
    {
        let vx = &self.vertices[v];
        if !vx.p().is_in_range() {
            return false;
        }
        let qs = &vx.polygons;
        let mut touches = false;
        let mut j: usize = 0;
        while j < qs.len()
            invariant
                j <= qs@.len(),
                qs@ == self.vertices@[v as int].polygons@,
                v < self.vertices@.len(),
                touches == exists|a: int| 0 <= a < j && qs@[a] == -1,
                forall|a: int| 0 <= a < j ==> self.incident_wf(v as int, qs@[a]),
            decreases qs@.len() - j,
        {
            let q = qs[j];
            if q == -1 {
                touches = true;
            } else {
                if q < 0 || q as usize >= self.polygons.len() {
                    assert(!self.incident_wf(v as int, qs@[j as int]));
                    return false;
                }
                if !self.polygon_has_vertex(q as usize, v) {
                    assert(!self.incident_wf(v as int, qs@[j as int]));
                    return false;
                }
                proof {
                    if touches {
                        let a = choose|a: int| 0 <= a < j && qs@[a] == -1;
                        assert(0 <= a < j + 1 && qs@[a] == -1);
                    }
                }
            }
            j += 1;
        }
        touches == vx.is_corner
    }

    /// Tells whether the two arenas refer to each other consistently.
    pub fn is_well_formed(&self) -> (ok: bool)
        ensures
            ok == self.wf(),
    {
        if self.polygons.len() > isize::MAX as usize {
            return false;
        }
        let mut k: usize = 0;
        while k < self.polygons.len()
            invariant
                k <= self.polygons@.len(),
                forall|a: int| 0 <= a < k ==> self.polygon_wf(a),
            decreases self.polygons@.len() - k,
        {
            if !self.polygon_is_wf(k) {
                return false;
            }
            k += 1;
        }
        let mut v: usize = 0;
        while v < self.vertices.len()
            invariant
                v <= self.vertices@.len(),
                forall|a: int| 0 <= a < v ==> self.vertex_wf(a),
            decreases self.vertices@.len() - v,
        {
            if !self.vertex_is_wf(v) {
                return false;
            }
            v += 1;
        }
        true
    }

    /// Tells whether polygon `k` contains the point.
    fn polygon_contains(&self, k: usize, point: Point) -> (b: bool)
        requires
            self.wf(),
            k < self.polygons@.len(),
            point.in_reach(),
        ensures
            b == self.contains_point(k as int, point),
    {
        assert(self.polygon_wf(k as int));
        let edges = self.polygons[k].edges_index();
        let ghost n = self.polygons@[k as int].vertices@.len() as int;
        let mut all_left = true;
        let mut j: usize = 0;
        while j < edges.len()
            invariant
                j <= n,
                self.wf(),
                k < self.polygons@.len(),
                point.in_reach(),
                n == self.polygons@[k as int].vertices@.len(),
                edges@ == self.polygons@[k as int].edges(),
                all_left == forall|a: int|
                    0 <= a < j ==> side(point, #[trigger] self.edge_points(k as int, a))
                        == EdgeSide::Left,
                forall|a: int|
                    0 <= a < j ==> !within_segment(point, #[trigger] self.edge_points(k as int, a)),
            decreases n - j,
        {
            let edge = edges[j];
            proof {
                lemma_cyclic(j as int, n);
                lemma_cyclic(j + 1, n);
                assert(self.polygon_wf(k as int));
                assert(edge == edge_at(self.polygons@[k as int].vertices@, j as int));
                assert(self.vertex_wf(edge[0] as int));
                assert(self.vertex_wf(edge[1] as int));
            }
            let ends = [self.vertices[edge[0]].p(), self.vertices[edge[1]].p()];
            assert(ends == self.edge_points(k as int, j as int));
            if on_segment(point, ends) {
                return true;
            }
            if on_side(point, ends) != EdgeSide::Left {
                all_left = false;
            }
            j += 1;
        }
        all_left
    }

    /// First polygon that contains the point exactly as given, or
    /// [`OUTSIDE`].
    pub fn point_in_polygon_unit(&self, point: Point) -> (k: usize)
        requires
            self.wf(),
            point.in_reach(),
        ensures
            k == self.locate_unit(point),
            k == OUTSIDE || k < self.polygons@.len(),
    {
        let mut k: usize = 0;
        while k < self.polygons.len()
            invariant
                k <= self.polygons@.len(),
                self.wf(),
                point.in_reach(),
                self.locate_unit(point) == self.first_polygon(point, k as int),
            decreases self.polygons@.len() - k,
        {
            if self.polygon_contains(k, point) {
                return k;
            }
            k += 1;
        }
        OUTSIDE
    }

    /// Polygon that holds the point or, failing that, the first of eight
    /// points nudged from it that lands in a polygon; [`OUTSIDE`] when none
    /// does.
    pub fn point_in_polygon(&self, point: Point) -> (k: usize)
        requires
            self.wf(),
            point.in_range(),
        ensures
            k == self.locate(point),
            k == OUTSIDE || k < self.polygons@.len(),
    {
        let mut n: usize = 0;
        while n < 9
            invariant
                n <= 9,
                self.wf(),
                point.in_range(),
                self.locate(point) == self.locate_from(point, n as int),
            decreases 9 - n,
        {
            let k = self.point_in_polygon_unit(nudge(point, n));
            if k != OUTSIDE {
                return k;
            }
            n += 1;
        }
        OUTSIDE
    }

    /// Tells whether the point, or a point nudged from it, lies in a polygon
    /// of the mesh.
    pub fn point_in_mesh(&self, point: Point) -> (b: bool)
        requires
            self.wf(),
            point.in_range(),
        ensures
            b == (self.locate(point) != OUTSIDE),
    {
        self.point_in_polygon(point) != OUTSIDE
    }
}

} // verus!
