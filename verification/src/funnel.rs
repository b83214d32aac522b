//! The successor generator: the far edges of a polygon, cut by the two rays
//! of a funnel into stretches of one kind each.

use crate::helpers::{
    distance, distance_between, line_intersect_segment, meeting_point, on_side, side, EdgeSide, Point,
};
use crate::mesh::{edge_at, lemma_cyclic, Mesh};
use crate::node::{NodeView, SearchNode, Successor, SuccessorType};
use vstd::prelude::*;

verus! {

/// Two points closer than this are one point where an edge is cut: a
/// thousandth of a world unit.
pub const SPLIT_TOLERANCE: i64 = 1_000;

/// Position in `vs` of the first occurrence of `x`.
pub open spec fn is_first_position(vs: Seq<usize>, x: usize, k: int) -> bool {
    &&& 0 <= k < vs.len()
    &&& vs[k] == x
    &&& forall|j: int| 0 <= j < k ==> vs[j] != x
}

/// Position in `vs` of the first occurrence of `x`, for a cycle that
/// contains it.
pub open spec fn first_position(vs: Seq<usize>, x: usize) -> int {
    choose|k: int| is_first_position(vs, x, k)
}

/// The edges of the cycle `vs` other than the one that starts at `left`, in
/// order, beginning after that one: the far edges of a polygon entered
/// across the edge that ends, seen from outside, at `left`.
pub open spec fn far_edges(vs: Seq<usize>, left: usize) -> Seq<[usize; 2]> {
    Seq::new(
        (vs.len() - 1) as nat,
        |k: int| edge_at(vs, first_position(vs, left) + 1 + k),
    )
}

/// What the right ray does to an edge: the stretch cut off beyond it, if
/// any, where the rest of the edge starts, and the kind from there on.
pub struct RightCut {
    pub beyond: Option<Successor>,
    pub start: Point,
    pub ty: SuccessorType,
}

/// The edge from `s` to `e` against the right ray, which runs from `r`
/// through `right`.
pub open spec fn right_cut(
    r: Point,
    right: Point,
    s: Point,
    e: Point,
    edge: [usize; 2],
    ty: SuccessorType,
) -> RightCut {
    match side(s, [r, right]) {
        EdgeSide::Right => match meeting_point([r, right], [s, e]) {
            Some(x) => {
                let next = if distance(x, e) > SPLIT_TOLERANCE {
                    SuccessorType::Observable
                } else {
                    ty
                };
                if distance(x, s) > SPLIT_TOLERANCE && distance(x, e) > SPLIT_TOLERANCE {
                    RightCut {
                        beyond: Some(
                            Successor {
                                interval: [s, x],
                                edge,
                                ty: SuccessorType::RightNonObservable,
                            },
                        ),
                        start: x,
                        ty: next,
                    }
                } else {
                    RightCut { beyond: None, start: s, ty: next }
                }
            },
            None => RightCut { beyond: None, start: s, ty },
        },
        EdgeSide::Left => RightCut {
            beyond: None,
            start: s,
            ty: if ty == SuccessorType::RightNonObservable {
                SuccessorType::Observable
            } else {
                ty
            },
        },
        EdgeSide::Edge => RightCut {
            beyond: None,
            start: s,
            ty: if side(e, [r, right]) == EdgeSide::Right {
                ty
            } else {
                SuccessorType::Observable
            },
        },
    }
}

/// What the left ray does to an edge: whether it meets the edge, and where
/// it cuts it, if it does so away from the end.
pub struct LeftCut {
    pub found: bool,
    pub split: Option<Point>,
}

/// The edge from `s` to `e` against the left ray, which runs from `r`
/// through `left`.
pub open spec fn left_cut(r: Point, left: Point, s: Point, e: Point) -> LeftCut {
    if side(e, [r, left]) == EdgeSide::Left {
        match meeting_point([r, left], [s, e]) {
            Some(x) => LeftCut {
                found: true,
                split: if distance(x, e) > SPLIT_TOLERANCE {
                    Some(x)
                } else {
                    None
                },
            },
            None => LeftCut { found: false, split: None },
        }
    } else {
        LeftCut { found: false, split: None }
    }
}

/// The kind that holds after an edge that ends at `e`.
pub open spec fn kind_after(r: Point, i: [Point; 2], e: Point, found: bool, ty: SuccessorType)
    -> SuccessorType {
    match side(e, [r, i[1]]) {
        EdgeSide::Left => if found {
            SuccessorType::LeftNonObservable
        } else {
            ty
        },
        EdgeSide::Edge => if side(e, [r, i[0]]) == EdgeSide::Right {
            ty
        } else {
            SuccessorType::LeftNonObservable
        },
        EdgeSide::Right => ty,
    }
}

/// The stretches of one edge, and the kind that holds after it.
pub struct EdgeCut {
    pub out: Seq<Successor>,
    pub ty: SuccessorType,
}

/// The edge from `s` to `e`, seen through the interval `i` from the root
/// `r`, when the kind `ty` holds at its start: at most one stretch beyond
/// the right ray, the stretch in the middle, and at most one beyond the left
/// ray.
pub open spec fn edge_cut(
    r: Point,
    i: [Point; 2],
    s: Point,
    e: Point,
    edge: [usize; 2],
    ty: SuccessorType,
) -> EdgeCut {
    let right = right_cut(r, i[0], s, e, edge, ty);
    let left = left_cut(r, i[1], s, e);
    let after = kind_after(r, i, e, left.found, right.ty);
    let head = match right.beyond {
        Some(b) => seq![b],
        None => Seq::<Successor>::empty(),
    };
    let middle = Successor {
        interval: [
            right.start,
            match left.split {
                Some(x) => x,
                None => e,
            },
        ],
        edge,
        ty: right.ty,
    };
    let tail = match left.split {
        Some(x) => seq![Successor { interval: [x, e], edge, ty: after }],
        None => Seq::<Successor>::empty(),
    };
    EdgeCut { out: head.push(middle) + tail, ty: after }
}

/// The stretches of the first `n` of the edges `edges`, seen through the
/// interval `i` from the root `r`.  Before the first edge the kind is
/// "beyond the right ray".
pub open spec fn walk(mesh: Mesh, r: Point, i: [Point; 2], edges: Seq<[usize; 2]>, n: int)
    -> EdgeCut
    decreases n,
{
    if n <= 0 {
        EdgeCut { out: Seq::empty(), ty: SuccessorType::RightNonObservable }
    } else {
        let before = walk(mesh, r, i, edges, n - 1);
        let edge = edges[n - 1];
        let cut = edge_cut(
            r,
            i,
            mesh.vertices@[edge[0] as int].position(),
            mesh.vertices@[edge[1] as int].position(),
            edge,
            before.ty,
        );
        EdgeCut { out: before.out + cut.out, ty: cut.ty }
    }
}

/// The successors of a node: the far edges of the polygon it enters, from
/// right to left as seen from its root, each cut by the two rays.
pub open spec fn successors_of(mesh: Mesh, node: NodeView) -> Seq<Successor> {
    let edges = far_edges(mesh.polygons@[node.polygon_to as int].vertices@, node.i_index[1]);
    walk(mesh, node.r, node.i, edges, edges.len() as int).out
}

/// A successor lies on an edge of the mesh, within the coordinate limit.
pub open spec fn successor_wf(mesh: Mesh, s: Successor) -> bool {
    &&& s.edge[0] < mesh.vertices@.len()
    &&& s.edge[1] < mesh.vertices@.len()
    &&& s.interval[0].in_range()
    &&& s.interval[1].in_range()
}

/// Cuts the edge from `s` to `e` and appends its stretches to `out`.
fn cut_edge(
    r: Point,
    i: [Point; 2],
    s: Point,
    e: Point,
    edge: [usize; 2],
    ty: SuccessorType,
    out: &mut Vec<Successor>,
) -> (after: SuccessorType)
    requires
        r.in_range(),
        i[0].in_range(),
        i[1].in_range(),
        s.in_range(),
        e.in_range(),
    ensures
        final(out)@ == old(out)@ + edge_cut(r, i, s, e, edge, ty).out,
        after == edge_cut(r, i, s, e, edge, ty).ty,
        forall|k: int|
            old(out)@.len() <= k < final(out)@.len() ==> {
                &&& (#[trigger] final(out)@[k]).edge == edge
                &&& final(out)@[k].interval[0].in_range()
                &&& final(out)@[k].interval[1].in_range()
            },
{
    let mut kind = ty;
    let mut start_p = s;
    let ghost right = right_cut(r, i[0], s, e, edge, ty);
    let ghost left = left_cut(r, i[1], s, e);
    match on_side(s, [r, i[0]]) {
        EdgeSide::Right => {
            if let Some(intersect) = line_intersect_segment([r, i[0]], [s, e]) {
                if distance_between(intersect, s) > SPLIT_TOLERANCE && distance_between(
                    intersect,
                    e,
                ) > SPLIT_TOLERANCE {
                    out.push(
                        Successor {
                            interval: [s, intersect],
                            edge,
                            ty: SuccessorType::RightNonObservable,
                        },
                    );
                    start_p = intersect;
                }
                if distance_between(intersect, e) > SPLIT_TOLERANCE {
                    kind = SuccessorType::Observable;
                }
            }
        },
        EdgeSide::Left => {
            if kind == SuccessorType::RightNonObservable {
                kind = SuccessorType::Observable;
            }
        },
        EdgeSide::Edge => match on_side(e, [r, i[0]]) {
            EdgeSide::Edge | EdgeSide::Left => {
                kind = SuccessorType::Observable;
            },
            _ => (),
        },
    }
    assert(start_p == right.start && kind == right.ty);
    let ghost head = match right.beyond {
        Some(b) => seq![b],
        None => Seq::<Successor>::empty(),
    };
    assert(out@ =~= old(out)@ + head);
    let mut end_intersection_p: Option<Point> = None;
    let mut found_intersection = false;
    if on_side(e, [r, i[1]]) == EdgeSide::Left {
        if let Some(intersect) = line_intersect_segment([r, i[1]], [s, e]) {
            if distance_between(intersect, e) > SPLIT_TOLERANCE {
                end_intersection_p = Some(intersect);
            }
            found_intersection = true;
        }
    }
    assert(end_intersection_p == left.split && found_intersection == left.found);
    let end_p = match end_intersection_p {
        Some(x) => x,
        None => e,
    };
    out.push(Successor { interval: [start_p, end_p], edge, ty: kind });
    let ghost cut = edge_cut(r, i, s, e, edge, ty);
    let ghost middle = Successor {
        interval: [
            right.start,
            match left.split {
                Some(x) => x,
                None => e,
            },
        ],
        edge,
        ty: right.ty,
    };
    assert(middle.interval == [start_p, end_p]);
    assert(out@ =~= old(out)@ + head.push(middle));
    let ghost mid_out = out@;
    match on_side(e, [r, i[1]]) {
        EdgeSide::Left => {
            if found_intersection {
                kind = SuccessorType::LeftNonObservable;
            }
            if let Some(intersect) = end_intersection_p {
                out.push(Successor { interval: [intersect, e], edge, ty: kind });
            }
        },
        EdgeSide::Edge => match on_side(e, [r, i[0]]) {
            EdgeSide::Edge | EdgeSide::Left => {
                kind = SuccessorType::LeftNonObservable;
            },
            _ => (),
        },
        _ => (),
    }
    assert(kind == cut.ty);
    let ghost tail = match left.split {
        Some(x) => seq![Successor { interval: [x, e], edge, ty: cut.ty }],
        None => Seq::<Successor>::empty(),
    };
    assert(out@ =~= mid_out + tail);
    assert(cut.out == head.push(middle) + tail);
    assert(out@ =~= old(out)@ + cut.out);
    kind
}

impl Mesh {
    /// The successors of a node: the far edges of the polygon it enters, cut
    /// by the rays from its root through the ends of its interval.
    pub fn edges_between(&self, node: &SearchNode) -> (successors: Vec<Successor>)
        requires
            self.wf(),
            node@.wf(*self),
        ensures
            successors@ == successors_of(*self, node@),
            forall|k: int|
                0 <= k < successors@.len() ==> successor_wf(*self, #[trigger] successors@[k]),
    {
        let mut successors: Vec<Successor> = Vec::new();
        let polygon = &self.polygons[node.polygon_to as usize];
        let n = polygon.vertices.len();
        let ghost vs = polygon.vertices@;
        let ghost found = choose|c: int| 0 <= c < vs.len() && vs[c] == node.i_index[1];
        assert(self.polygon_wf(node.polygon_to as int));
        let mut temp: usize = 0;
        while polygon.vertices[temp] != node.i_index[1]
            invariant
                vs == polygon.vertices@,
                n == vs.len(),
                0 <= temp <= found < vs.len(),
                vs[found] == node.i_index[1],
                forall|j: int| 0 <= j < temp ==> vs[j] != node.i_index[1],
            decreases vs.len() - temp,
        {
            assert(vs[temp as int] != node.i_index[1]);
            temp += 1;
        }
        proof {
            assert(is_first_position(vs, node.i_index[1], temp as int));
            let other = first_position(vs, node.i_index[1]);
            assert(is_first_position(vs, node.i_index[1], other));
            assert(other == temp);
        }
        let ghost edges = far_edges(vs, node.i_index[1]);
        let double = polygon.double_edges_index();
        let mut ty = SuccessorType::RightNonObservable;
        let mut k: usize = temp + 1;
        while k < n + temp
            invariant
                self.wf(),
                node@.wf(*self),
                polygon == &self.polygons@[node.polygon_to as int],
                vs == polygon.vertices@,
                n == vs.len(),
                1 <= n <= usize::MAX / 2,
                temp < n,
                temp + 1 <= k <= n + temp,
                double@ == polygon.double_edges(),
                edges == far_edges(vs, node.i_index[1]),
                first_position(vs, node.i_index[1]) == temp,
                successors@ == walk(*self, node.r, node.i, edges, k - temp - 1).out,
                ty == walk(*self, node.r, node.i, edges, k - temp - 1).ty,
                forall|j: int|
                    0 <= j < successors@.len() ==> successor_wf(*self, #[trigger] successors@[j]),
            decreases n + temp - k,
        {
            let edge = double[k];
            proof {
                polygon.lemma_double_edge_at(k as int);
                assert(edge == edge_at(vs, k as int));
                assert(edges[k - temp - 1] == edge);
                lemma_cyclic(k as int, n as int);
                if k + 1 < 2 * n {
                    lemma_cyclic(k + 1, n as int);
                } else {
                    assert((k + 1) % (n as int) == 0) by (nonlinear_arith)
                        requires
                            k + 1 == 2 * n,
                            n > 0,
                    ;
                }
                assert(self.polygon_wf(node.polygon_to as int));
                assert(self.vertex_wf(edge[0] as int));
                assert(self.vertex_wf(edge[1] as int));
            }
            let start = self.vertices[edge[0]].p();
            let end = self.vertices[edge[1]].p();
            ty = cut_edge(node.r, node.i, start, end, edge, ty, &mut successors);
            k += 1;
        }
        successors
    }
}

} // verus!
