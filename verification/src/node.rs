//! The values of a search: successors, search nodes and the resulting path.

use crate::helpers::Point;
use crate::mesh::Mesh;
use vstd::prelude::*;

verus! {

/// How a stretch of a far edge is seen from the root of a funnel.
#[derive(Debug, PartialEq, Eq, Structural, Clone, Copy)]
pub enum SuccessorType {
    /// Beyond the left ray: reached only around the left end of the interval.
    LeftNonObservable,
    /// Between the two rays: reached along a straight line from the root.
    Observable,
    /// Beyond the right ray: reached only around the right end of the
    /// interval.
    RightNonObservable,
}

/// A stretch of an edge on the far side of a polygon.
#[derive(Debug, PartialEq, Clone, Copy)]
pub struct Successor {
    /// The two ends of the stretch, in the direction of the edge.
    pub interval: [Point; 2],
    /// Vertex indices of the edge that holds the stretch.
    pub edge: [usize; 2],
    pub ty: SuccessorType,
}

/// A funnel: the root, the interval it looks through, and what the way to
/// the root has cost.
#[derive(Debug, PartialEq)]
pub struct SearchNode {
    /// Roots passed on the way, the start of the query first.
    pub path: Vec<Point>,
    /// The root: apex of the funnel.
    pub r: Point,
    /// The interval: `i[0]` to the right and `i[1]` to the left, seen from
    /// the root.
    pub i: [Point; 2],
    /// Vertex indices of the edge that holds the interval.
    pub i_index: [usize; 2],
    pub polygon_from: isize,
    /// The polygon that the funnel enters.
    pub polygon_to: isize,
    /// Length of the way from the start of the query to the root.
    pub f: i64,
    /// Lower bound on the length of the way from the root to the goal.
    pub g: i64,
}

/// A search node as a mathematical value.
pub struct NodeView {
    pub path: Seq<Point>,
    pub r: Point,
    pub i: [Point; 2],
    pub i_index: [usize; 2],
    pub polygon_from: isize,
    pub polygon_to: isize,
    pub f: i64,
    pub g: i64,
}

impl View for SearchNode {
    type V = NodeView;

    open spec fn view(&self) -> NodeView {
        NodeView {
            path: self.path@,
            r: self.r,
            i: self.i,
            i_index: self.i_index,
            polygon_from: self.polygon_from,
            polygon_to: self.polygon_to,
            f: self.f,
            g: self.g,
        }
    }
}

impl NodeView {
    /// Estimated length of the whole way through this node: the key by
    /// which nodes are ordered, smaller first.
    pub open spec fn total(self) -> int {
        self.f + self.g
    }

    /// The node can be expanded on the mesh: its polygon exists and has the
    /// left end of the entry edge among its vertices, its points are within
    /// the coordinate limit, and its costs are not negative and add up
    /// within `i64`.
    pub open spec fn wf(self, mesh: Mesh) -> bool {
        &&& 0 <= self.polygon_to < mesh.polygons@.len()
        &&& mesh.polygons@[self.polygon_to as int].vertices@.contains(self.i_index[1])
        &&& self.i_index[0] < mesh.vertices@.len()
        &&& self.i_index[1] < mesh.vertices@.len()
        &&& self.r.in_range()
        &&& self.i[0].in_range()
        &&& self.i[1].in_range()
        &&& 0 <= self.f
        &&& 0 <= self.g
        &&& self.f + self.g <= i64::MAX
    }
}

/// The views of a sequence of nodes.
pub open spec fn views(nodes: Seq<SearchNode>) -> Seq<NodeView> {
    nodes.map_values(|n: SearchNode| n@)
}

/// A path: its length and its turning points, the goal last.  A length of
/// minus one world unit with no points says that there is no path.
#[derive(Debug, PartialEq)]
pub struct Path {
    pub len: i64,
    pub path: Vec<Point>,
}

/// A path as a mathematical value.
pub struct PathView {
    pub len: i64,
    pub path: Seq<Point>,
}

impl View for Path {
    type V = PathView;

    open spec fn view(&self) -> PathView {
        PathView { len: self.len, path: self.path@ }
    }
}

} // verus!
