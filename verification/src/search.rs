//! The search driver: candidate nodes, the root history, the queue, and the
//! best-first loop that ends at the goal polygon.

use crate::funnel::{successor_wf, successors_of};
use crate::helpers::{
    distance, distance_between, heuristic, heuristic_value, turning_on, turning_point, Point,
};
use crate::history::{
    history_entries, history_get, history_insert, history_with_capacity, key_of, root_key,
    RootHistory,
};
use crate::mesh::{lemma_cyclic, Mesh, OUTSIDE};
use crate::node::{views, NodeView, Path, PathView, SearchNode, Successor, SuccessorType};
use crate::numeric::UNIT;
use vstd::prelude::*;

verus! {

/// The polygon index that stands for "no polygon across this edge".
pub const NO_POLYGON: isize = isize::MAX;

/// A non-observable successor has its root at an end of the interval only
/// if the two lie within this distance: a hundred-thousandth of a world
/// unit.
pub const SNAP_TOLERANCE: i64 = 10;

/// Number of expansions after which a query gives up.
pub const EXPANSION_LIMIT: u64 = u64::MAX;

/// What a query searches for, and where.
pub struct Query {
    pub mesh: Mesh,
    /// The goal.
    pub to: Point,
    /// The polygon that holds the goal; `-1` when none does.
    pub polygon_to: isize,
}

/// The state of a search as a mathematical value.
pub struct SearchState {
    /// Nodes that wait to be popped, in the order in which they came.
    pub queue: Seq<NodeView>,
    /// Nodes that an expansion has produced and not yet handed to the queue.
    pub buffer: Seq<NodeView>,
    /// Least cost at which each cell was reached as a root.
    pub history: Map<(i32, i32), i64>,
    /// Expansions left.
    pub budget: nat,
}

/// Among the first `n` polygons around the first vertex, the last one that
/// is a polygon, is not `current`, and is also around the second vertex;
/// [`NO_POLYGON`] when there is none.
pub open spec fn across_upto(sp: Seq<isize>, ep: Seq<isize>, current: isize, n: int) -> isize
    decreases n,
{
    if n <= 0 {
        NO_POLYGON
    } else if sp[n - 1] != -1 && sp[n - 1] != current && ep.contains(sp[n - 1]) {
        sp[n - 1]
    } else {
        across_upto(sp, ep, current, n - 1)
    }
}

/// The polygon on the other side of an edge of the polygon `current`:
/// the one that both ends of the edge name besides `current`.
pub open spec fn other_side(mesh: Mesh, edge: [usize; 2], current: isize) -> isize {
    let sp = mesh.vertices@[edge[0] as int].polygons@;
    let ep = mesh.vertices@[edge[1] as int].polygons@;
    across_upto(sp, ep, current, sp.len() as int)
}

/// The node that crossing an interval would make, if it is worth making:
/// none across an obstacle, none into a one-way polygon that does not hold
/// the goal, none when the heuristic is undefined or the estimated total
/// does not fit in an `i64`.
pub open spec fn candidate(
    q: Query,
    root: Point,
    other_side: isize,
    start: (Point, usize),
    end: (Point, usize),
    parent: NodeView,
) -> Option<NodeView> {
    if other_side == NO_POLYGON {
        None
    } else if q.polygon_to != other_side && q.mesh.polygons@[other_side as int].is_one_way {
        None
    } else {
        match heuristic_value(root, q.to, [start.0, end.0]) {
            None => None,
            Some(g) => {
                let f = parent.f + distance(parent.r, root);
                if f + g > i64::MAX {
                    None
                } else {
                    Some(
                        NodeView {
                            path: if root != parent.r {
                                parent.path.push(parent.r)
                            } else {
                                parent.path
                            },
                            r: root,
                            i: [start.0, end.0],
                            i_index: [start.1, end.1],
                            polygon_from: parent.polygon_to,
                            polygon_to: other_side,
                            f: f as i64,
                            g: g as i64,
                        },
                    )
                }
            },
        }
    }
}

/// The root history lets the node in: its cell is new, or was never
/// reached at a smaller cost.
pub open spec fn admitted(history: Map<(i32, i32), i64>, node: NodeView) -> bool {
    !history.contains_key(root_key(node.r)) || history[root_key(node.r)] >= node.f
}

/// The state after a candidate has been offered: an admitted node joins
/// the buffer and its cost is recorded for its cell; anything else leaves
/// the state as it was.
pub open spec fn offer(st: SearchState, node: Option<NodeView>) -> SearchState {
    match node {
        Some(n) => if admitted(st.history, n) {
            SearchState {
                queue: st.queue,
                buffer: st.buffer.push(n),
                history: st.history.insert(root_key(n.r), n.f),
                budget: st.budget,
            }
        } else {
            st
        },
        None => st,
    }
}

/// `k` is the place in the queue of the node to pop: none has a smaller
/// total, and none before it has the same.
pub open spec fn is_best(queue: Seq<NodeView>, k: int) -> bool {
    &&& 0 <= k < queue.len()
    &&& forall|j: int| 0 <= j < queue.len() ==> queue[k].total() <= (#[trigger] queue[j]).total()
    &&& forall|j: int| 0 <= j < k ==> queue[k].total() < (#[trigger] queue[j]).total()
}

/// Place in the queue of the node to pop, for a queue that is not empty.
pub open spec fn best_index(queue: Seq<NodeView>) -> int {
    choose|k: int| is_best(queue, k)
}

/// The place of the node to pop is unique.
pub proof fn lemma_best_unique(queue: Seq<NodeView>, k: int)
    requires
        is_best(queue, k),
    ensures
        best_index(queue) == k,
{
    let other = best_index(queue);
    assert(is_best(queue, other));
    if other < k {
        assert(queue[k].total() < queue[other].total());
        assert(queue[other].total() <= queue[k].total());
    }
    if k < other {
        assert(queue[other].total() < queue[k].total());
        assert(queue[k].total() <= queue[other].total());
    }
}

/// The root of the node that a successor makes, if it makes one.  What is
/// seen from the root keeps the root.  What lies beyond a ray starts a new
/// funnel at that end of the interval, and only if the stretch begins at
/// that end of its edge and the end is a corner of the mesh.
pub open spec fn successor_root(mesh: Mesh, node: NodeView, s: Successor) -> Option<Point> {
    match s.ty {
        SuccessorType::Observable => Some(node.r),
        SuccessorType::RightNonObservable => {
            let corner = mesh.vertices@[node.i_index[0] as int];
            if distance(s.interval[0], mesh.vertices@[s.edge[0] as int].position())
                > SNAP_TOLERANCE {
                None
            } else if corner.is_corner && distance(corner.position(), node.i[0]) < SNAP_TOLERANCE {
                Some(node.i[0])
            } else {
                None
            }
        },
        SuccessorType::LeftNonObservable => {
            let corner = mesh.vertices@[node.i_index[1] as int];
            if distance(s.interval[1], mesh.vertices@[s.edge[1] as int].position())
                > SNAP_TOLERANCE {
                None
            } else if corner.is_corner && distance(corner.position(), node.i[1]) < SNAP_TOLERANCE {
                Some(node.i[1])
            } else {
                None
            }
        },
    }
}

/// The state after one successor of `node` has been considered.
pub open spec fn consider(q: Query, st: SearchState, node: NodeView, s: Successor) -> SearchState {
    match successor_root(q.mesh, node, s) {
        None => st,
        Some(root) => offer(
            st,
            candidate(
                q,
                root,
                other_side(q.mesh, s.edge, node.polygon_to),
                (s.interval[0], s.edge[0]),
                (s.interval[1], s.edge[1]),
                node,
            ),
        ),
    }
}

/// The state after the first `n` of the successors `succ` of `node` have
/// been considered in turn.
pub open spec fn expand_upto(
    q: Query,
    st: SearchState,
    node: NodeView,
    succ: Seq<Successor>,
    n: int,
) -> SearchState
    decreases n,
{
    if n <= 0 {
        st
    } else {
        consider(q, expand_upto(q, st, node, succ, n - 1), node, succ[n - 1])
    }
}

/// The state after all successors of `node` have been considered.
pub open spec fn expand(q: Query, st: SearchState, node: NodeView) -> SearchState {
    let succ = successors_of(q.mesh, node);
    expand_upto(q, st, node, succ, succ.len() as int)
}

/// The state after `node` has been expanded, and after it every node that
/// was the only one its parent produced and does not enter the goal
/// polygon: such a node is expanded at once, without a turn in the queue.
/// Each expansion takes one from the budget.  At the end the buffer is
/// handed to the queue.
pub open spec fn chase(q: Query, st: SearchState, node: NodeView) -> SearchState
    decreases st.budget,
{
    if st.budget == 0 {
        st
    } else {
        let grown = expand(q, st, node);
        let left = (st.budget - 1) as nat;
        if left > 0 && grown.buffer.len() == 1 && grown.buffer[0].polygon_to != q.polygon_to {
            chase(
                q,
                SearchState {
                    queue: grown.queue,
                    buffer: Seq::empty(),
                    history: grown.history,
                    budget: left,
                },
                grown.buffer[0],
            )
        } else {
            SearchState {
                queue: grown.queue + grown.buffer,
                buffer: Seq::empty(),
                history: grown.history,
                budget: left,
            }
        }
    }
}

/// Considering a successor leaves queue and budget alone.
pub proof fn lemma_expand_keeps(q: Query, st: SearchState, node: NodeView, succ: Seq<Successor>, n: int)
    ensures
        expand_upto(q, st, node, succ, n).queue == st.queue,
        expand_upto(q, st, node, succ, n).budget == st.budget,
    decreases n,
{
    if n > 0 {
        lemma_expand_keeps(q, st, node, succ, n - 1);
    }
}

/// An expansion with budget left uses some of it.
pub proof fn lemma_chase_spends(q: Query, st: SearchState, node: NodeView)
    requires
        st.budget > 0,
    ensures
        chase(q, st, node).budget < st.budget,
    decreases st.budget,
{
    let succ = successors_of(q.mesh, node);
    lemma_expand_keeps(q, st, node, succ, succ.len() as int);
    let grown = expand(q, st, node);
    let left = (st.budget - 1) as nat;
    if left > 0 && grown.buffer.len() == 1 && grown.buffer[0].polygon_to != q.polygon_to {
        lemma_chase_spends(
            q,
            SearchState {
                queue: grown.queue,
                buffer: Seq::empty(),
                history: grown.history,
                budget: left,
            },
            grown.buffer[0],
        );
    }
}

/// The queue in the order in which its nodes would be popped.
pub open spec fn drain(queue: Seq<NodeView>) -> Seq<NodeView>
    decreases queue.len(),
{
    if queue.len() == 0 {
        Seq::empty()
    } else {
        let k = best_index(queue);
        if 0 <= k < queue.len() {
            seq![queue[k]] + drain(queue.remove(k))
        } else {
            Seq::empty()
        }
    }
}

/// The result that says that there is no path: a length of minus one
/// world unit, and no turning point.
pub open spec fn no_path() -> PathView {
    PathView { len: (-UNIT) as i64, path: Seq::empty() }
}

/// The path that a node that enters the goal polygon stands for: the roots
/// passed after the start, the root of the node unless it is the start, the
/// end of the interval around which the last leg turns, if it does, and
/// the goal; its length is the estimated total of the node.
pub open spec fn assemble(from: Point, to: Point, node: NodeView) -> PathView {
    let passed = if node.path.len() > 0 {
        node.path.subrange(1, node.path.len() as int)
    } else {
        node.path
    };
    let rooted = if node.r != from {
        passed.push(node.r)
    } else {
        passed
    };
    let turned = match turning_point(node.r, to, node.i) {
        Some(turn) => rooted.push(turn),
        None => rooted,
    };
    PathView { len: (node.f + node.g) as i64, path: turned.push(to) }
}

/// The node at which the best-first loop from the state `st` ends: pop the
/// node with the least total; if it enters the goal polygon, it is the one;
/// otherwise expand it and go on.  There is none when the queue runs dry,
/// or the budget does.
pub open spec fn found(q: Query, st: SearchState) -> Option<NodeView>
    decreases st.budget,
{
    if st.budget == 0 || st.queue.len() == 0 {
        None
    } else {
        let k = best_index(st.queue);
        let node = st.queue[k];
        if node.polygon_to == q.polygon_to {
            Some(node)
        } else {
            let next = chase(
                q,
                SearchState {
                    queue: st.queue.remove(k),
                    buffer: st.buffer,
                    history: st.history,
                    budget: st.budget,
                },
                node,
            );
            if next.budget < st.budget {
                found(q, next)
            } else {
                None
            }
        }
    }
}

/// The result of the best-first loop from the state `st`: the path of the
/// node at which it ends, if it ends at one.
pub open spec fn search(q: Query, from: Point, st: SearchState) -> PathView {
    match found(q, st) {
        Some(node) => assemble(from, q.to, node),
        None => no_path(),
    }
}

/// The parent of the first nodes of a query: a node at the start, with no
/// way behind it.
pub open spec fn start_node(from: Point, polygon: isize) -> NodeView {
    NodeView {
        path: Seq::empty(),
        r: from,
        i: [Point { x: 0, y: 0 }, Point { x: 0, y: 0 }],
        i_index: [0, 0],
        polygon_from: -1isize,
        polygon_to: polygon,
        f: 0,
        g: 0,
    }
}

/// The state after the first `n` edges of the start polygon have been
/// offered, each as an interval seen from the start.
pub open spec fn seed_upto(q: Query, st: SearchState, from: Point, polygon: usize, n: int)
    -> SearchState
    decreases n,
{
    if n <= 0 {
        st
    } else {
        let edge = q.mesh.polygons@[polygon as int].edges()[n - 1];
        offer(
            seed_upto(q, st, from, polygon, n - 1),
            candidate(
                q,
                from,
                other_side(q.mesh, edge, polygon as isize),
                (q.mesh.vertices@[edge[0] as int].position(), edge[0]),
                (q.mesh.vertices@[edge[1] as int].position(), edge[1]),
                start_node(from, polygon as isize),
            ),
        )
    }
}

/// The state in which the best-first loop begins: the start is in the root
/// history at no cost, and the edges of the start polygon are in the queue.
pub open spec fn seeded(q: Query, from: Point, polygon: usize) -> SearchState {
    let fresh = SearchState {
        queue: Seq::empty(),
        buffer: Seq::empty(),
        history: Map::<(i32, i32), i64>::empty().insert(root_key(from), 0),
        budget: EXPANSION_LIMIT as nat,
    };
    let sown = seed_upto(
        q,
        fresh,
        from,
        polygon,
        q.mesh.polygons@[polygon as int].vertices@.len() as int,
    );
    SearchState {
        queue: sown.queue + sown.buffer,
        buffer: Seq::empty(),
        history: sown.history,
        budget: sown.budget,
    }
}

/// A polygon index as a search node holds it: `-1` for [`OUTSIDE`].
pub open spec fn polygon_number(k: usize) -> isize {
    if k == OUTSIDE {
        -1isize
    } else {
        k as isize
    }
}

/// A search under way on a mesh.
pub struct SearchInstance<'m> {
    pub queue: Vec<SearchNode>,
    pub node_buffer: Vec<SearchNode>,
    pub root_history: RootHistory,
    pub to: Point,
    pub polygon_to: isize,
    pub mesh: &'m Mesh,
    /// Expansions left before the search gives up.
    pub budget: u64,
}

fn copy_points(points: &Vec<Point>) -> (copy: Vec<Point>)
    ensures
        copy@ == points@,
{
    let mut copy: Vec<Point> = Vec::with_capacity(points.len());
    let mut k: usize = 0;
    while k < points.len()
        invariant
            k <= points@.len(),
            copy@ == points@.subrange(0, k as int),
        decreases points@.len() - k,
    {
        copy.push(points[k]);
        assert(copy@ =~= points@.subrange(0, k + 1));
        k += 1;
    }
    assert(points@.subrange(0, points@.len() as int) =~= points@);
    copy
}

fn list_contains(list: &Vec<isize>, q: isize) -> (b: bool)
    ensures
        b == list@.contains(q),
{
    let mut k: usize = 0;
    while k < list.len()
        invariant
            k <= list@.len(),
            forall|j: int| 0 <= j < k ==> list@[j] != q,
        decreases list@.len() - k,
    {
        if list[k] == q {
            assert(list@[k as int] == q);
            return true;
        }
        k += 1;
    }
    false
}

impl Mesh {
    /// The polygon on the other side of an edge of the polygon `current`,
    /// or [`NO_POLYGON`].
    pub fn other_side(&self, edge: [usize; 2], current: isize) -> (q: isize)
        requires
            self.wf(),
            edge[0] < self.vertices@.len(),
            edge[1] < self.vertices@.len(),
        ensures
            q == other_side(*self, edge, current),
            q == NO_POLYGON || {
                &&& 0 <= q < self.polygons@.len()
                &&& self.polygons@[q as int].vertices@.contains(edge[0])
                &&& self.polygons@[q as int].vertices@.contains(edge[1])
            },
    {
        let start = &self.vertices[edge[0]];
        let end = &self.vertices[edge[1]];
        let mut q: isize = NO_POLYGON;
        let mut k: usize = 0;
        assert(self.vertex_wf(edge[0] as int));
        assert(self.vertex_wf(edge[1] as int));
        while k < start.polygons.len()
            invariant
                k <= start.polygons@.len(),
                self.wf(),
                edge[0] < self.vertices@.len(),
                edge[1] < self.vertices@.len(),
                start == &self.vertices@[edge[0] as int],
                end == &self.vertices@[edge[1] as int],
                q == across_upto(start.polygons@, end.polygons@, current, k as int),
                q == NO_POLYGON || {
                    &&& 0 <= q < self.polygons@.len()
                    &&& self.polygons@[q as int].vertices@.contains(edge[0])
                    &&& self.polygons@[q as int].vertices@.contains(edge[1])
                },
            decreases start.polygons@.len() - k,
        {
            let i = start.polygons[k];
            if i != -1 && i != current && list_contains(&end.polygons, i) {
                proof {
                    assert(self.vertex_wf(edge[0] as int));
                    assert(self.vertex_wf(edge[1] as int));
                    assert(self.incident_wf(edge[0] as int, start.polygons@[k as int]));
                    let j = choose|j: int| 0 <= j < end.polygons@.len() && end.polygons@[j] == i;
                    assert(self.incident_wf(edge[1] as int, end.polygons@[j]));
                }
                q = i;
            }
            k += 1;
        }
        q
    }
}

impl<'m> SearchInstance<'m> {
    /// What the search is after.
    pub open spec fn query(&self) -> Query {
        Query { mesh: *self.mesh, to: self.to, polygon_to: self.polygon_to }
    }

    /// The state of the search.
    pub open spec fn state(&self) -> SearchState {
        SearchState {
            queue: views(self.queue@),
            buffer: views(self.node_buffer@),
            history: history_entries(self.root_history),
            budget: self.budget as nat,
        }
    }

    /// The mesh is consistent, the goal is within the coordinate limit,
    /// and every node that waits can be expanded.
    pub open spec fn wf(&self) -> bool {
        &&& self.mesh.wf()
        &&& self.to.in_range()
        &&& forall|k: int|
            0 <= k < self.queue@.len() ==> (#[trigger] self.queue@[k])@.wf(*self.mesh)
        &&& forall|k: int|
            0 <= k < self.node_buffer@.len() ==> (#[trigger] self.node_buffer@[k])@.wf(*self.mesh)
    }

    /// A search for `to` on `mesh` that has not begun: nothing waits, the
    /// root history is empty, and the whole budget is left.
    pub fn new(mesh: &'m Mesh, to: Point) -> (search: SearchInstance<'m>)
        requires
            mesh.wf(),
            to.in_range(),
        ensures
            search.wf(),
            search.query() == (Query {
                mesh: *mesh,
                to,
                polygon_to: polygon_number(mesh.locate(to)),
            }),
            search.state() == (SearchState {
                queue: Seq::empty(),
                buffer: Seq::empty(),
                history: Map::empty(),
                budget: EXPANSION_LIMIT as nat,
            }),
            search.node_buffer@.len() == 0,
            search.queue@.len() == 0,
    {
        let search = SearchInstance {
            queue: Vec::with_capacity(15),
            node_buffer: Vec::with_capacity(10),
            root_history: history_with_capacity(10),
            to,
            polygon_to: polygon_number_of(mesh.point_in_polygon(to)),
            mesh,
            budget: EXPANSION_LIMIT,
        };
        assert(search.state().queue =~= Seq::<NodeView>::empty());
        assert(search.state().buffer =~= Seq::<NodeView>::empty());
        search
    }

    /// The successors of a node on the mesh of this search.
    pub fn edges_between(&self, node: &SearchNode) -> (successors: Vec<Successor>)
        requires
            self.mesh.wf(),
            node@.wf(*self.mesh),
        ensures
            successors@ == successors_of(*self.mesh, node@),
            forall|k: int|
                0 <= k < successors@.len() ==> successor_wf(*self.mesh, #[trigger] successors@[k]),
    {
        self.mesh.edges_between(node)
    }

    /// Offers the node that crossing the interval from `start` to `end`
    /// into the polygon `other_side` makes, with `root` as its root and
    /// `node` as its parent.  The node joins the buffer unless it is pruned
    /// or the root history turns it down.
    pub fn add_node(
        &mut self,
        root: Point,
        other_side: isize,
        start: (Point, usize),
        end: (Point, usize),
        node: &SearchNode,
    )
        requires
            old(self).wf(),
            root.in_range(),
            start.0.in_range(),
            end.0.in_range(),
            start.1 < old(self).mesh.vertices@.len(),
            end.1 < old(self).mesh.vertices@.len(),
            other_side == NO_POLYGON || {
                &&& 0 <= other_side < old(self).mesh.polygons@.len()
                &&& old(self).mesh.polygons@[other_side as int].vertices@.contains(end.1)
            },
            node.r.in_range(),
            0 <= node.f,
        ensures
            final(self).wf(),
            final(self).query() == old(self).query(),
            final(self).state() == offer(
                old(self).state(),
                candidate(old(self).query(), root, other_side, start, end, node@),
            ),
    {
        if other_side == NO_POLYGON {
            return ;
        }
        if self.polygon_to != other_side && self.mesh.polygons[other_side as usize].is_one_way {
            return ;
        }
        let g = match heuristic(root, self.to, [start.0, end.0]) {
            Some(g) => g,
            None => {
                return ;
            },
        };
        let step = distance_between(node.r, root);
        if node.f > i64::MAX - step || node.f + step > i64::MAX - g {
            return ;
        }
        let mut path = copy_points(&node.path);
        if root != node.r {
            path.push(node.r);
        }
        let new_node = SearchNode {
            path,
            r: root,
            i: [start.0, end.0],
            i_index: [start.1, end.1],
            polygon_from: node.polygon_to,
            polygon_to: other_side,
            f: node.f + step,
            g,
        };
        let ghost made = candidate(old(self).query(), root, other_side, start, end, node@);
        assert(made == Some(new_node@));
        let key = key_of(root);
        let welcome = match history_get(&self.root_history, key) {
            Some(cost) => cost >= new_node.f,
            None => true,
        };
        if welcome {
            history_insert(&mut self.root_history, key, new_node.f);
            self.node_buffer.push(new_node);
            assert(views(self.node_buffer@) =~= views(old(self).node_buffer@).push(new_node@));
        }
    }

    /// Hands the buffered nodes to the queue.
    pub fn flush_nodes(&mut self)
        requires
            old(self).wf(),
        ensures
            final(self).wf(),
            final(self).query() == old(self).query(),
            final(self).state() == (SearchState {
                queue: old(self).state().queue + old(self).state().buffer,
                buffer: Seq::empty(),
                history: old(self).state().history,
                budget: old(self).state().budget,
            }),
            final(self).node_buffer@.len() == 0,
    {
        self.queue.append(&mut self.node_buffer);
        assert(views(self.queue@) =~= views(old(self).queue@) + views(old(self).node_buffer@));
        assert(views(self.node_buffer@) =~= Seq::<NodeView>::empty());
    }

    /// Takes the node with the least total out of the queue; of several
    /// such nodes, the one that came first.
    pub fn pop_best(&mut self) -> (best: Option<SearchNode>)
        requires
            old(self).wf(),
        ensures
            final(self).wf(),
            final(self).query() == old(self).query(),
            final(self).state().buffer == old(self).state().buffer,
            final(self).state().history == old(self).state().history,
            final(self).state().budget == old(self).state().budget,
            final(self).node_buffer@.len() == old(self).node_buffer@.len(),
            best is Some ==> final(self).queue@.len() + 1 == old(self).queue@.len(),
            match best {
                None => old(self).state().queue.len() == 0 && final(self).state().queue == old(
                    self,
                ).state().queue,
                Some(node) => {
                    &&& is_best(old(self).state().queue, best_index(old(self).state().queue))
                    &&& node@ == old(self).state().queue[best_index(old(self).state().queue)]
                    &&& final(self).state().queue == old(self).state().queue.remove(
                        best_index(old(self).state().queue),
                    )
                    &&& node@.wf(*old(self).mesh)
                },
            },
    {
        if self.queue.len() == 0 {
            return None;
        }
        let ghost queue = views(self.queue@);
        let mut at: usize = 0;
        let mut k: usize = 1;
        while k < self.queue.len()
            invariant
                self.wf(),
                queue == views(self.queue@),
                0 <= at < k <= self.queue@.len(),
                forall|j: int| 0 <= j < k ==> queue[at as int].total() <= (#[trigger] queue[j]).total(),
                forall|j: int| 0 <= j < at ==> queue[at as int].total() < (#[trigger] queue[j]).total(),
            decreases self.queue@.len() - k,
        {
            assert(self.queue@[k as int]@.wf(*self.mesh));
            assert(self.queue@[at as int]@.wf(*self.mesh));
            assert(queue[k as int] == self.queue@[k as int]@);
            assert(queue[at as int] == self.queue@[at as int]@);
            if self.queue[k].f + self.queue[k].g < self.queue[at].f + self.queue[at].g {
                at = k;
            }
            k += 1;
        }
        proof {
            lemma_best_unique(queue, at as int);
        }
        let node = self.queue.remove(at);
        assert(views(self.queue@) =~= queue.remove(at as int));
        Some(node)
    }

    /// The root of the node that a successor of `node` makes, if it makes
    /// one.
    fn root_for(&self, node: &SearchNode, successor: &Successor) -> (root: Option<Point>)
        requires
            self.mesh.wf(),
            node@.wf(*self.mesh),
            successor_wf(*self.mesh, *successor),
        ensures
            root == successor_root(*self.mesh, node@, *successor),
            root matches Some(p) ==> p.in_range(),
    {
        match successor.ty {
            SuccessorType::RightNonObservable => {
                assert(self.mesh.vertex_wf(successor.edge[0] as int));
                assert(self.mesh.vertex_wf(node.i_index[0] as int));
                let start = &self.mesh.vertices[successor.edge[0]];
                if distance_between(successor.interval[0], start.p()) > SNAP_TOLERANCE {
                    return None;
                }
                let vertex = &self.mesh.vertices[node.i_index[0]];
                if vertex.is_corner && distance_between(vertex.p(), node.i[0]) < SNAP_TOLERANCE {
                    Some(node.i[0])
                } else {
                    None
                }
            },
            SuccessorType::Observable => Some(node.r),
            SuccessorType::LeftNonObservable => {
                assert(self.mesh.vertex_wf(successor.edge[1] as int));
                assert(self.mesh.vertex_wf(node.i_index[1] as int));
                let end = &self.mesh.vertices[successor.edge[1]];
                if distance_between(successor.interval[1], end.p()) > SNAP_TOLERANCE {
                    return None;
                }
                let vertex = &self.mesh.vertices[node.i_index[1]];
                if vertex.is_corner && distance_between(vertex.p(), node.i[1]) < SNAP_TOLERANCE {
                    Some(node.i[1])
                } else {
                    None
                }
            },
        }
    }

    /// Considers every successor of `node` in turn.
    fn expand(&mut self, node: &SearchNode)
        requires
            old(self).wf(),
            node@.wf(*old(self).mesh),
        ensures
            final(self).wf(),
            final(self).query() == old(self).query(),
            final(self).state() == expand(old(self).query(), old(self).state(), node@),
    {
        let successors = self.edges_between(node);
        let ghost q = self.query();
        let ghost st = self.state();
        let mut k: usize = 0;
        while k < successors.len()
            invariant
                k <= successors@.len(),
                self.wf(),
                self.query() == q,
                node@.wf(*self.mesh),
                successors@ == successors_of(q.mesh, node@),
                forall|j: int|
                    0 <= j < successors@.len() ==> successor_wf(
                        *self.mesh,
                        #[trigger] successors@[j],
                    ),
                self.state() == expand_upto(q, st, node@, successors@, k as int),
            decreases successors@.len() - k,
        {
            let successor = successors[k];
            assert(successor_wf(*self.mesh, successors@[k as int]));
            let other_side = self.mesh.other_side(successor.edge, node.polygon_to);
            if let Some(root) = self.root_for(node, &successor) {
                self.add_node(
                    root,
                    other_side,
                    (successor.interval[0], successor.edge[0]),
                    (successor.interval[1], successor.edge[1]),
                    node,
                );
            }
            k += 1;
        }
    }

    /// Expands `node`, goes on with its only child for as long as there is
    /// exactly one and it does not enter the goal polygon, and hands what
    /// is buffered at the end to the queue.
    pub fn successors(&mut self, node: SearchNode)
        requires
            old(self).wf(),
            old(self).node_buffer@.len() == 0,
            old(self).budget > 0,
            node@.wf(*old(self).mesh),
        ensures
            final(self).wf(),
            final(self).query() == old(self).query(),
            final(self).state() == chase(old(self).query(), old(self).state(), node@),
            final(self).node_buffer@.len() == 0,
            final(self).budget < old(self).budget,
    {
        let mut node = node;
        let ghost q = self.query();
        let ghost goal = chase(q, self.state(), node@);
        proof {
            lemma_chase_spends(q, self.state(), node@);
        }
        loop
            invariant_except_break
                self.budget > 0,
                self.node_buffer@.len() == 0,
                node@.wf(*self.mesh),
                goal == chase(q, self.state(), node@),
            invariant
                self.wf(),
                self.query() == q,
                self.budget <= old(self).budget,
            ensures
                self.budget < old(self).budget,
                goal == (SearchState {
                    queue: self.state().queue + self.state().buffer,
                    buffer: Seq::empty(),
                    history: self.state().history,
                    budget: self.state().budget,
                }),
            decreases self.budget,
        {
            let ghost before = self.state();
            assert(before.buffer =~= Seq::<NodeView>::empty());
            self.expand(&node);
            proof {
                let succ = successors_of(q.mesh, node@);
                lemma_expand_keeps(q, before, node@, succ, succ.len() as int);
            }
            self.budget = self.budget - 1;
            if self.budget > 0 && self.node_buffer.len() == 1 && self.node_buffer[0].polygon_to
                != self.polygon_to {
                let ghost only = self.node_buffer@[0];
                assert(only@.wf(*self.mesh));
                assert(views(self.node_buffer@)[0] == only@);
                node = self.node_buffer.pop().unwrap();
                assert(views(self.node_buffer@) =~= Seq::<NodeView>::empty());
            } else {
                assert(self.node_buffer@.len() == 1 ==> views(self.node_buffer@)[0]
                    == self.node_buffer@[0]@);
                break ;
            }
        }
        self.flush_nodes();
    }
}

fn polygon_number_of(k: usize) -> (n: isize)
    requires
        k == OUTSIDE || k <= isize::MAX,
    ensures
        n == polygon_number(k),
{
    if k == OUTSIDE {
        -1
    } else {
        k as isize
    }
}

/// The path that a node that enters the goal polygon stands for.
fn finish(from: Point, to: Point, node: SearchNode) -> (p: Path)
    requires
        to.in_range(),
        node.r.in_range(),
        node.i[0].in_range(),
        node.i[1].in_range(),
        0 <= node.f,
        0 <= node.g,
        node.f + node.g <= i64::MAX,
    ensures
        p@ == assemble(from, to, node@),
        p.len >= 0,
        p.path@.len() >= 1,
        p.path@.last() == to,
{
    let mut path: Vec<Point> = Vec::new();
    let mut k: usize = 1;
    while k < node.path.len()
        invariant
            1 <= k,
            k <= node.path@.len() || node.path@.len() == 0,
            node.path@.len() > 0 ==> path@ == node.path@.subrange(1, k as int),
            node.path@.len() == 0 ==> path@ == node.path@,
        decreases node.path@.len() - k,
    {
        path.push(node.path[k]);
        assert(path@ =~= node.path@.subrange(1, k + 1));
        k += 1;
    }
    if node.r != from {
        path.push(node.r);
    }
    if let Some(turn) = turning_on(node.r, to, node.i) {
        path.push(turn);
    }
    path.push(to);
    Path { path, len: node.f + node.g }
}

impl Mesh {
    /// What a query from `from` to `to` returns.  Two points in one polygon
    /// are joined by the straight segment.  A point outside the mesh has
    /// no path to or from it.  Otherwise the result is that of the
    /// best-first search from the edges of the start polygon.
    pub open spec fn shortest(self, from: Point, to: Point) -> PathView {
        let start = self.locate(from);
        let end = self.locate(to);
        if start == OUTSIDE || end == OUTSIDE {
            no_path()
        } else if start == end {
            PathView { len: distance(from, to) as i64, path: seq![to] }
        } else {
            let q = Query { mesh: self, to, polygon_to: end as isize };
            search(q, from, seeded(q, from, start))
        }
    }

    /// The nodes that expanding `node` leaves in the queue of a fresh
    /// search for `to`, in the order in which they would be popped.
    pub open spec fn expansion(self, node: NodeView, to: Point) -> Seq<NodeView> {
        drain(
            chase(
                Query { mesh: self, to, polygon_to: polygon_number(self.locate(to)) },
                SearchState {
                    queue: Seq::empty(),
                    buffer: Seq::empty(),
                    history: Map::empty(),
                    budget: EXPANSION_LIMIT as nat,
                },
                node,
            ).queue,
        )
    }

    /// A shortest path from `from` to `to` across the mesh: its length and
    /// its turning points, `to` last.
    pub fn path(&self, from: Point, to: Point) -> (p: Path)
        requires
            self.wf(),
            from.in_range(),
            to.in_range(),
        ensures
            p@ == self.shortest(from, to),
            self.locate(from) == self.locate(to) && self.locate(from) != OUTSIDE ==> p.len
                == distance(from, to) && p.path@ == seq![to],
            self.locate(from) == OUTSIDE || self.locate(to) == OUTSIDE ==> p@ == no_path(),
            p@ == no_path() || (p.len >= 0 && p.path@.len() >= 1 && p.path@.last() == to),
    {
        let starting_polygon_index = self.point_in_polygon(from);
        let ending_polygon = self.point_in_polygon(to);
        if starting_polygon_index == OUTSIDE || ending_polygon == OUTSIDE {
            return Path { path: Vec::new(), len: -UNIT };
        }
        if starting_polygon_index == ending_polygon {
            let mut path: Vec<Point> = Vec::new();
            path.push(to);
            return Path { len: distance_between(from, to), path };
        }
        let goal_polygon = ending_polygon as isize;
        let mut search_instance = SearchInstance {
            queue: Vec::with_capacity(15),
            node_buffer: Vec::with_capacity(10),
            root_history: history_with_capacity(10),
            to,
            polygon_to: goal_polygon,
            mesh: self,
            budget: EXPANSION_LIMIT,
        };
        history_insert(&mut search_instance.root_history, key_of(from), 0);
        let empty_node = SearchNode {
            path: Vec::new(),
            r: from,
            i: [Point { x: 0, y: 0 }, Point { x: 0, y: 0 }],
            i_index: [0, 0],
            polygon_from: -1,
            polygon_to: starting_polygon_index as isize,
            f: 0,
            g: 0,
        };
        let ghost q = search_instance.query();
        let ghost fresh = search_instance.state();
        assert(fresh.queue =~= Seq::<NodeView>::empty());
        assert(fresh.buffer =~= Seq::<NodeView>::empty());
        assert(self.polygon_wf(starting_polygon_index as int));
        let edges = self.polygons[starting_polygon_index].edges_index();
        let ghost n = self.polygons@[starting_polygon_index as int].vertices@.len() as int;
        let mut k: usize = 0;
        while k < edges.len()
            invariant
                k <= n,
                n == edges@.len(),
                n == self.polygons@[starting_polygon_index as int].vertices@.len(),
                self.wf(),
                search_instance.wf(),
                search_instance.query() == q,
                q.mesh == *self,
                from.in_range(),
                starting_polygon_index < self.polygons@.len(),
                edges@ == self.polygons@[starting_polygon_index as int].edges(),
                empty_node@ == start_node(from, starting_polygon_index as isize),
                search_instance.state() == seed_upto(
                    q,
                    fresh,
                    from,
                    starting_polygon_index,
                    k as int,
                ),
            decreases n - k,
        {
            let edge = edges[k];
            proof {
                lemma_cyclic(k as int, n);
                lemma_cyclic(k + 1, n);
                assert(self.polygon_wf(starting_polygon_index as int));
                assert(self.vertex_wf(edge[0] as int));
                assert(self.vertex_wf(edge[1] as int));
            }
            let start = self.vertices[edge[0]].p();
            let end = self.vertices[edge[1]].p();
            let other_side = self.other_side(edge, starting_polygon_index as isize);
            search_instance.add_node(from, other_side, (start, edge[0]), (end, edge[1]), &empty_node);
            k += 1;
        }
        search_instance.flush_nodes();
        assert(search_instance.state() == seeded(q, from, starting_polygon_index));
        while search_instance.budget > 0
            invariant
                search_instance.wf(),
                search_instance.query() == q,
                q.to == to,
                q.polygon_to == goal_polygon,
                search_instance.node_buffer@.len() == 0,
                self.locate(from) != OUTSIDE,
                self.locate(to) != OUTSIDE,
                self.locate(from) != self.locate(to),
                self.shortest(from, to) == search(q, from, search_instance.state()),
            decreases search_instance.budget,
        {
            let ghost before = search_instance.state();
            match search_instance.pop_best() {
                None => {
                    return Path { path: Vec::new(), len: -UNIT };
                },
                Some(next) => {
                    if next.polygon_to == goal_polygon {
                        return finish(from, to, next);
                    }
                    proof {
                        let popped = SearchState {
                            queue: before.queue.remove(best_index(before.queue)),
                            buffer: before.buffer,
                            history: before.history,
                            budget: before.budget,
                        };
                        assert(search_instance.state() == popped);
                        lemma_chase_spends(q, popped, next@);
                    }
                    search_instance.successors(next);
                },
            }
        }
        Path { path: Vec::new(), len: -UNIT }
    }

    /// Expands `node` in a fresh search for `to` and returns the nodes that
    /// this leaves in the queue, best first.
    pub fn successors(&self, node: SearchNode, to: Point) -> (nodes: Vec<SearchNode>)
        requires
            self.wf(),
            node@.wf(*self),
            to.in_range(),
        ensures
            views(nodes@) == self.expansion(node@, to),
    {
        let mut search_instance = SearchInstance::new(self, to);
        search_instance.successors(node);
        let mut nodes: Vec<SearchNode> = Vec::new();
        let ghost all = search_instance.state().queue;
        assert(views(nodes@) =~= Seq::<NodeView>::empty());
        while search_instance.queue.len() > 0
            invariant
                search_instance.wf(),
                drain(all) == views(nodes@) + drain(search_instance.state().queue),
            decreases search_instance.queue@.len(),
        {
            let ghost before = search_instance.state().queue;
            let ghost sofar = views(nodes@);
            match search_instance.pop_best() {
                None => {
                    assert(false);
                },
                Some(next) => {
                    assert(before.len() > 0);
                    nodes.push(next);
                    assert(views(nodes@) =~= sofar.push(next@));
                    assert(sofar.push(next@) + drain(search_instance.state().queue) =~= sofar + (
                    seq![next@] + drain(search_instance.state().queue)));
                },
            }
        }
        assert(search_instance.state().queue.len() == 0);
        assert(views(nodes@) + Seq::<NodeView>::empty() =~= views(nodes@));
        nodes
    }
}

} // verus!
