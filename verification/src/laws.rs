//! What holds of every query: the boundary cases of a path, the heuristic
//! at an end of its interval, and the invariant that ties the cost of every
//! waiting node to the roots behind it and to the root history.

use crate::funnel::{edge_cut, successors_of};
use crate::helpers::{
    cross, distance, distance_squared, heuristic_value, lemma_distance_nonnegative,
    lemma_heuristic_nonnegative, side, EdgeSide, Point,
};
use crate::history::root_key;
use crate::mesh::{Mesh, OUTSIDE};
use crate::node::{NodeView, PathView, Successor, SuccessorType};
use crate::numeric::{is_sqrt_floor, lemma_sqrt_floor_unique, sqrt_floor};
use crate::search::{
    across_upto, admitted, assemble, best_index, candidate, chase, consider, expand, expand_upto, found,
    is_best, offer, other_side, seed_upto, seeded, start_node, successor_root, Query, SearchState,
};
use vstd::prelude::*;

verus! {

/// A point is at distance zero from itself.
pub proof fn lemma_distance_to_self(p: Point)
    ensures
        distance(p, p) == 0,
{
    assert(distance_squared(p, p) == 0) by (nonlinear_arith)
        requires
            distance_squared(p, p) == (p.x - p.x) * (p.x - p.x) + (p.y - p.y) * (p.y - p.y),
    ;
    assert(is_sqrt_floor(0, 0));
    lemma_sqrt_floor_unique(0, 0);
}

/// Two points in one polygon of the mesh are joined by the straight
/// segment: the path is the goal alone, and its length is the distance.
pub proof fn lemma_same_polygon(mesh: Mesh, from: Point, to: Point)
    requires
        mesh.locate(from) == mesh.locate(to),
        mesh.locate(from) != OUTSIDE,
    ensures
        mesh.shortest(from, to) == (PathView { len: distance(from, to) as i64, path: seq![to] }),
{
}

/// A query from a point of the mesh to itself has length zero and the
/// point as its only turning point.
pub proof fn lemma_same_point(mesh: Mesh, p: Point)
    requires
        mesh.locate(p) != OUTSIDE,
    ensures
        mesh.shortest(p, p) == (PathView { len: 0, path: seq![p] }),
{
    lemma_distance_to_self(p);
}

/// A root at an end of its interval lies on the line of the interval.
pub proof fn lemma_endpoint_on_edge(r: Point, i: [Point; 2])
    requires
        r == i[0] || r == i[1],
    ensures
        side(r, i) == EdgeSide::Edge,
{
    assert(cross(r, i[0], i[1]) == 0) by (nonlinear_arith)
        requires
            r == i[0] || r == i[1],
            cross(r, i[0], i[1]) == (r.y - i[0].y) * (i[1].x - i[0].x) - (r.x - i[0].x) * (i[1].y
                - i[0].y),
    ;
}

/// From a root at an end of its interval the heuristic does not mirror a
/// goal that lies off the line of the interval: it is the straight
/// distance to the goal.
pub proof fn lemma_heuristic_at_endpoint(r: Point, to: Point, i: [Point; 2])
    requires
        r == i[0] || r == i[1],
        side(to, i) != EdgeSide::Edge,
    ensures
        heuristic_value(r, to, i) == Some(distance(r, to)),
{
    lemma_endpoint_on_edge(r, i);
}

/// Length of the polyline through the points, in order.
pub open spec fn polyline(points: Seq<Point>) -> int
    decreases points.len(),
{
    if points.len() <= 1 {
        0
    } else {
        polyline(points.drop_last()) + distance(points[points.len() - 2], points.last())
    }
}

/// The way behind a node: the roots passed, then its own root.
pub open spec fn trail(n: NodeView) -> Seq<Point> {
    n.path.push(n.r)
}

/// The node accounts for its cost: the way behind it begins at `from`, no
/// two roots in a row on it are equal, and its cost is the length of the
/// polyline through them.
pub open spec fn traced(from: Point, n: NodeView) -> bool {
    &&& trail(n)[0] == from
    &&& forall|k: int| 0 < k < trail(n).len() ==> trail(n)[k - 1] != #[trigger] trail(n)[k]
    &&& n.f == polyline(trail(n))
}

/// The root history holds the cell of the node's root, at a cost that is
/// not above the node's.
pub open spec fn recorded(history: Map<(i32, i32), i64>, n: NodeView) -> bool {
    history.contains_key(root_key(n.r)) && history[root_key(n.r)] <= n.f
}

/// Every node that waits, in the queue or in the buffer, accounts for its
/// cost and is recorded in the root history.
pub open spec fn sound(from: Point, st: SearchState) -> bool {
    &&& forall|k: int|
        0 <= k < st.queue.len() ==> traced(from, #[trigger] st.queue[k]) && recorded(
            st.history,
            st.queue[k],
        )
    &&& forall|k: int|
        0 <= k < st.buffer.len() ==> traced(from, #[trigger] st.buffer[k]) && recorded(
            st.history,
            st.buffer[k],
        )
}

/// The root history only ever lowers the cost of a cell.
pub open spec fn lowered(before: Map<(i32, i32), i64>, after: Map<(i32, i32), i64>) -> bool {
    forall|key: (i32, i32)| #[trigger]
        before.contains_key(key) ==> after.contains_key(key) && after[key] <= before[key]
}

/// A node made from a parent that accounts for its cost accounts for its
/// own: its cost is that of the parent and the distance between the roots.
pub proof fn lemma_candidate_traced(
    q: Query,
    from: Point,
    root: Point,
    other_side: isize,
    start: (Point, usize),
    end: (Point, usize),
    parent: NodeView,
)
    requires
        traced(from, parent),
        0 <= parent.f,
    ensures
        candidate(q, root, other_side, start, end, parent) matches Some(n) ==> traced(from, n)
            && n.f == parent.f + distance(parent.r, root),
{
    if let Some(n) = candidate(q, root, other_side, start, end, parent) {
        lemma_distance_nonnegative(parent.r, root);
        lemma_heuristic_nonnegative(root, q.to, [start.0, end.0]);
        if root != parent.r {
            assert(trail(n) == trail(parent).push(root));
            assert(trail(n).drop_last() == trail(parent));
            assert(trail(n)[0] == trail(parent)[0]);
            assert forall|k: int| 0 < k < trail(n).len() implies trail(n)[k - 1] != #[trigger] trail(
                n,
            )[k] by {
                if k < trail(parent).len() {
                    assert(trail(parent)[k - 1] != trail(parent)[k]);
                }
            }
        } else {
            lemma_distance_to_self(root);
            assert(trail(n) == trail(parent));
        }
    }
}

/// Root deduplication: a node joins the buffer only if its cell is new or
/// was never reached at a smaller cost, the history then holds its cost for
/// its cell, and no cell ever gets a larger cost.  Every waiting node stays
/// recorded.
pub proof fn lemma_offer_sound(from: Point, st: SearchState, node: Option<NodeView>)
    requires
        sound(from, st),
        node matches Some(n) ==> traced(from, n),
    ensures
        sound(from, offer(st, node)),
        lowered(st.history, offer(st, node).history),
        offer(st, node).queue == st.queue,
        offer(st, node).budget == st.budget,
        match node {
            Some(n) => if admitted(st.history, n) {
                offer(st, node).buffer == st.buffer.push(n) && offer(st, node).history[root_key(
                    n.r,
                )] == n.f
            } else {
                offer(st, node) == st && st.history[root_key(n.r)] < n.f
            },
            None => offer(st, node) == st,
        },
{
    let after = offer(st, node);
    if let Some(n) = node {
        if admitted(st.history, n) {
            assert forall|k: int| 0 <= k < after.queue.len() implies traced(
                from,
                #[trigger] after.queue[k],
            ) && recorded(after.history, after.queue[k]) by {
                assert(recorded(st.history, st.queue[k]));
            }
            assert forall|k: int| 0 <= k < after.buffer.len() implies traced(
                from,
                #[trigger] after.buffer[k],
            ) && recorded(after.history, after.buffer[k]) by {
                if k < st.buffer.len() {
                    assert(recorded(st.history, st.buffer[k]));
                }
            }
        }
    }
}

/// The history is lowered step by step.
pub proof fn lemma_lowered_chain(
    a: Map<(i32, i32), i64>,
    b: Map<(i32, i32), i64>,
    c: Map<(i32, i32), i64>,
)
    requires
        lowered(a, b),
        lowered(b, c),
    ensures
        lowered(a, c),
{
    assert forall|key: (i32, i32)| #[trigger] a.contains_key(key) implies c.contains_key(key)
        && c[key] <= a[key] by {
        assert(b.contains_key(key));
    }
}

/// Considering the successors of a node keeps the state sound.
pub proof fn lemma_expand_sound(
    q: Query,
    from: Point,
    st: SearchState,
    node: NodeView,
    succ: Seq<Successor>,
    n: int,
)
    requires
        sound(from, st),
        traced(from, node),
        0 <= node.f,
    ensures
        sound(from, expand_upto(q, st, node, succ, n)),
        lowered(st.history, expand_upto(q, st, node, succ, n).history),
        expand_upto(q, st, node, succ, n).queue == st.queue,
        expand_upto(q, st, node, succ, n).budget == st.budget,
    decreases n,
{
    if n > 0 {
        lemma_expand_sound(q, from, st, node, succ, n - 1);
        let before = expand_upto(q, st, node, succ, n - 1);
        let s = succ[n - 1];
        match successor_root(q.mesh, node, s) {
            None => {},
            Some(root) => {
                let made = candidate(
                    q,
                    root,
                    other_side(q.mesh, s.edge, node.polygon_to),
                    (s.interval[0], s.edge[0]),
                    (s.interval[1], s.edge[1]),
                    node,
                );
                lemma_candidate_traced(
                    q,
                    from,
                    root,
                    other_side(q.mesh, s.edge, node.polygon_to),
                    (s.interval[0], s.edge[0]),
                    (s.interval[1], s.edge[1]),
                    node,
                );
                lemma_offer_sound(from, before, made);
                lemma_lowered_chain(st.history, before.history, offer(before, made).history);
            },
        }
    }
}

/// A node that an expansion puts in the buffer has a cost that is not
/// negative.
pub proof fn lemma_expand_costs(
    q: Query,
    st: SearchState,
    node: NodeView,
    succ: Seq<Successor>,
    n: int,
)
    requires
        0 <= node.f,
        forall|k: int| 0 <= k < st.buffer.len() ==> 0 <= (#[trigger] st.buffer[k]).f,
    ensures
        forall|k: int|
            0 <= k < expand_upto(q, st, node, succ, n).buffer.len() ==> 0 <= (
            #[trigger] expand_upto(q, st, node, succ, n).buffer[k]).f,
    decreases n,
{
    if n > 0 {
        lemma_expand_costs(q, st, node, succ, n - 1);
        let before = expand_upto(q, st, node, succ, n - 1);
        let s = succ[n - 1];
        match successor_root(q.mesh, node, s) {
            None => {},
            Some(root) => {
                lemma_distance_nonnegative(node.r, root);
                lemma_heuristic_nonnegative(
                    root,
                    q.to,
                    [s.interval[0], s.interval[1]],
                );
            },
        }
    }
}

/// Expanding a node, and after it its only children, keeps the state
/// sound.
pub proof fn lemma_chase_sound(q: Query, from: Point, st: SearchState, node: NodeView)
    requires
        sound(from, st),
        st.buffer.len() == 0,
        traced(from, node),
        0 <= node.f,
    ensures
        sound(from, chase(q, st, node)),
        lowered(st.history, chase(q, st, node).history),
        chase(q, st, node).buffer.len() == 0,
    decreases st.budget,
{
    if st.budget > 0 {
        let succ = successors_of(q.mesh, node);
        lemma_expand_sound(q, from, st, node, succ, succ.len() as int);
        lemma_expand_costs(q, st, node, succ, succ.len() as int);
        let grown = expand(q, st, node);
        let left = (st.budget - 1) as nat;
        if left > 0 && grown.buffer.len() == 1 && grown.buffer[0].polygon_to != q.polygon_to {
            let next = SearchState {
                queue: grown.queue,
                buffer: Seq::empty(),
                history: grown.history,
                budget: left,
            };
            lemma_chase_sound(q, from, next, grown.buffer[0]);
            lemma_lowered_chain(st.history, grown.history, chase(q, next, grown.buffer[0]).history);
        } else {
            let done = chase(q, st, node);
            assert forall|k: int| 0 <= k < done.queue.len() implies traced(
                from,
                #[trigger] done.queue[k],
            ) && recorded(done.history, done.queue[k]) by {
                if k < grown.queue.len() {
                    assert(done.queue[k] == grown.queue[k]);
                } else {
                    assert(done.queue[k] == grown.buffer[k - grown.queue.len()]);
                }
            }
        }
    } else {
        assert(lowered(st.history, st.history));
    }
}

/// The first nodes of a query account for their cost, which is zero.
pub proof fn lemma_seed_sound(q: Query, from: Point, st: SearchState, polygon: usize, n: int)
    requires
        sound(from, st),
    ensures
        sound(from, seed_upto(q, st, from, polygon, n)),
        seed_upto(q, st, from, polygon, n).queue == st.queue,
    decreases n,
{
    if n > 0 {
        lemma_seed_sound(q, from, st, polygon, n - 1);
        let before = seed_upto(q, st, from, polygon, n - 1);
        let edge = q.mesh.polygons@[polygon as int].edges()[n - 1];
        let parent = start_node(from, polygon as isize);
        assert(trail(parent) == seq![from]);
        assert(polyline(trail(parent)) == 0);
        lemma_candidate_traced(
            q,
            from,
            from,
            other_side(q.mesh, edge, polygon as isize),
            (q.mesh.vertices@[edge[0] as int].position(), edge[0]),
            (q.mesh.vertices@[edge[1] as int].position(), edge[1]),
            parent,
        );
        lemma_offer_sound(
            from,
            before,
            candidate(
                q,
                from,
                other_side(q.mesh, edge, polygon as isize),
                (q.mesh.vertices@[edge[0] as int].position(), edge[0]),
                (q.mesh.vertices@[edge[1] as int].position(), edge[1]),
                parent,
            ),
        );
    }
}

/// The state in which the best-first loop begins is sound.
pub proof fn lemma_seeded_sound(q: Query, from: Point, polygon: usize)
    ensures
        sound(from, seeded(q, from, polygon)),
        seeded(q, from, polygon).buffer.len() == 0,
{
    let fresh = SearchState {
        queue: Seq::empty(),
        buffer: Seq::empty(),
        history: Map::<(i32, i32), i64>::empty().insert(root_key(from), 0),
        budget: crate::search::EXPANSION_LIMIT as nat,
    };
    let n = q.mesh.polygons@[polygon as int].vertices@.len() as int;
    lemma_seed_sound(q, from, fresh, polygon, n);
    let sown = seed_upto(q, fresh, from, polygon, n);
    let done = seeded(q, from, polygon);
    assert forall|k: int| 0 <= k < done.queue.len() implies traced(from, #[trigger] done.queue[k])
        && recorded(done.history, done.queue[k]) by {
        assert(done.queue[k] == sown.buffer[k]);
    }
}

/// The first nodes of a query cost nothing.
pub proof fn lemma_seed_costs(q: Query, st: SearchState, from: Point, polygon: usize, n: int)
    requires
        forall|k: int| 0 <= k < st.buffer.len() ==> 0 <= (#[trigger] st.buffer[k]).f,
    ensures
        forall|k: int|
            0 <= k < seed_upto(q, st, from, polygon, n).buffer.len() ==> 0 <= (
            #[trigger] seed_upto(q, st, from, polygon, n).buffer[k]).f,
    decreases n,
{
    if n > 0 {
        lemma_seed_costs(q, st, from, polygon, n - 1);
        let before = seed_upto(q, st, from, polygon, n - 1);
        let edge = q.mesh.polygons@[polygon as int].edges()[n - 1];
        let start = (q.mesh.vertices@[edge[0] as int].position(), edge[0]);
        let end = (q.mesh.vertices@[edge[1] as int].position(), edge[1]);
        let made = candidate(
            q,
            from,
            other_side(q.mesh, edge, polygon as isize),
            start,
            end,
            start_node(from, polygon as isize),
        );
        lemma_distance_nonnegative(from, from);
        lemma_heuristic_nonnegative(from, q.to, [start.0, end.0]);
        let after = offer(before, made);
        assert(after == seed_upto(q, st, from, polygon, n));
        assert forall|k: int| 0 <= k < after.buffer.len() implies 0 <= (
        #[trigger] after.buffer[k]).f by {
            if k < before.buffer.len() {
                assert(0 <= before.buffer[k].f);
            }
        }
    }
}

/// The node at which a search from a sound state ends enters the goal
/// polygon and accounts for its cost.
pub proof fn lemma_found_sound(q: Query, from: Point, st: SearchState)
    requires
        sound(from, st),
        st.buffer.len() == 0,
        forall|k: int| 0 <= k < st.queue.len() ==> 0 <= (#[trigger] st.queue[k]).f,
    ensures
        found(q, st) matches Some(n) ==> n.polygon_to == q.polygon_to && traced(from, n),
    decreases st.budget,
{
    if st.budget > 0 && st.queue.len() > 0 {
        let k = best_index(st.queue);
        if 0 <= k < st.queue.len() {
            let node = st.queue[k];
            if node.polygon_to != q.polygon_to {
                let popped = SearchState {
                    queue: st.queue.remove(k),
                    buffer: st.buffer,
                    history: st.history,
                    budget: st.budget,
                };
                assert forall|j: int| 0 <= j < popped.queue.len() implies traced(
                    from,
                    #[trigger] popped.queue[j],
                ) && recorded(popped.history, popped.queue[j]) && 0 <= popped.queue[j].f by {
                    if j < k {
                        assert(popped.queue[j] == st.queue[j]);
                    } else {
                        assert(popped.queue[j] == st.queue[j + 1]);
                    }
                }
                lemma_chase_sound(q, from, popped, node);
                lemma_chase_costs(q, popped, node);
                let next = chase(q, popped, node);
                if next.budget < st.budget {
                    lemma_found_sound(q, from, next);
                }
            }
        } else {
            lemma_found_needs_best(q, st);
        }
    }
}

/// A queue that is not empty has a node to pop.
proof fn lemma_found_needs_best(q: Query, st: SearchState)
    requires
        st.queue.len() > 0,
    ensures
        0 <= best_index(st.queue) < st.queue.len(),
{
    let n = st.queue.len() as int;
    lemma_best_exists(st.queue, n);
    let k = choose|k: int| is_best_upto(st.queue, n, k);
    assert(is_best(st.queue, k));
}

/// `k` is the place of the best among the first `n` nodes.
pub open spec fn is_best_upto(queue: Seq<NodeView>, n: int, k: int) -> bool {
    &&& 0 <= k < n
    &&& forall|j: int| 0 <= j < n ==> queue[k].total() <= (#[trigger] queue[j]).total()
    &&& forall|j: int| 0 <= j < k ==> queue[k].total() < (#[trigger] queue[j]).total()
}

/// Among any first nodes of a queue there is a best one.
pub proof fn lemma_best_exists(queue: Seq<NodeView>, n: int)
    requires
        0 < n <= queue.len(),
    ensures
        exists|k: int| is_best_upto(queue, n, k),
    decreases n,
{
    if n == 1 {
        assert(is_best_upto(queue, 1, 0));
    } else {
        let m = n - 1;
        lemma_best_exists(queue, m);
        let k = choose|k: int| is_best_upto(queue, m, k);
        if queue[n - 1].total() < queue[k].total() {
            assert(is_best_upto(queue, n, n - 1));
        } else {
            assert(is_best_upto(queue, n, k));
        }
    }
}

/// After an expansion every node in the queue has a cost that is not
/// negative, if that was so before.
pub proof fn lemma_chase_costs(q: Query, st: SearchState, node: NodeView)
    requires
        st.buffer.len() == 0,
        0 <= node.f,
        forall|k: int| 0 <= k < st.queue.len() ==> 0 <= (#[trigger] st.queue[k]).f,
    ensures
        forall|k: int|
            0 <= k < chase(q, st, node).queue.len() ==> 0 <= (#[trigger] chase(
                q,
                st,
                node,
            ).queue[k]).f,
    decreases st.budget,
{
    if st.budget > 0 {
        let succ = successors_of(q.mesh, node);
        crate::search::lemma_expand_keeps(q, st, node, succ, succ.len() as int);
        lemma_expand_costs(q, st, node, succ, succ.len() as int);
        let grown = expand(q, st, node);
        assert(grown == expand_upto(q, st, node, succ, succ.len() as int));
        assert(grown.queue == st.queue);
        let left = (st.budget - 1) as nat;
        if left > 0 && grown.buffer.len() == 1 && grown.buffer[0].polygon_to != q.polygon_to {
            let next = SearchState {
                queue: grown.queue,
                buffer: Seq::empty(),
                history: grown.history,
                budget: left,
            };
            assert(0 <= grown.buffer[0].f);
            lemma_chase_costs(q, next, grown.buffer[0]);
            assert(chase(q, st, node) == chase(q, next, grown.buffer[0]));
        } else {
            let done = chase(q, st, node);
            assert forall|k: int| 0 <= k < done.queue.len() implies 0 <= (
            #[trigger] done.queue[k]).f by {
                if k < grown.queue.len() {
                    assert(done.queue[k] == grown.queue[k]);
                    assert(0 <= st.queue[k].f);
                } else {
                    assert(done.queue[k] == grown.buffer[k - grown.queue.len()]);
                    assert(0 <= grown.buffer[k - grown.queue.len()].f);
                }
            }
        }
    }
}

/// The length of an assembled path: the polyline from the start through
/// the roots that the path names, and from the last root the estimate of
/// the node.  Stated for a node whose root is not the start, or that has no
/// roots behind it.
pub proof fn lemma_assemble_length(from: Point, to: Point, node: NodeView)
    requires
        traced(from, node),
        0 <= node.f,
        0 <= node.g,
        node.f + node.g <= i64::MAX,
        node.r != from || node.path.len() == 0,
    ensures
        assemble(from, to, node).path.len() >= 1,
        assemble(from, to, node).path.last() == to,
        assemble(from, to, node).len == polyline(trail(node)) + node.g,
        node.r != from ==> seq![from] + assemble(from, to, node).path.subrange(
            0,
            node.path.len() as int,
        ) == trail(node),
{
    if node.r != from {
        assert(node.path.len() > 0);
        let passed = node.path.subrange(1, node.path.len() as int);
        let rooted = passed.push(node.r);
        let out = assemble(from, to, node).path;
        assert(out.subrange(0, node.path.len() as int) =~= rooted);
        assert(seq![from] + rooted =~= trail(node));
    }
}

/// Where the two ends of a query lie in different polygons of the mesh,
/// a path that is found ends a way that begins at the start, passes from
/// root to root, and costs the length of the polyline through the roots:
/// the path is assembled from a node that enters the goal polygon and
/// accounts for its cost.
pub proof fn lemma_shortest_traced(mesh: Mesh, from: Point, to: Point)
    requires
        mesh.locate(from) != OUTSIDE,
        mesh.locate(to) != OUTSIDE,
        mesh.locate(from) != mesh.locate(to),
    ensures
        ({
            let q = Query { mesh, to, polygon_to: mesh.locate(to) as isize };
            match found(q, seeded(q, from, mesh.locate(from))) {
                Some(n) => n.polygon_to == q.polygon_to && traced(from, n) && mesh.shortest(
                    from,
                    to,
                ) == assemble(from, to, n),
                None => mesh.shortest(from, to) == crate::search::no_path(),
            }
        }),
{
    let q = Query { mesh, to, polygon_to: mesh.locate(to) as isize };
    let polygon = mesh.locate(from);
    lemma_seeded_sound(q, from, polygon);
    let fresh = SearchState {
        queue: Seq::empty(),
        buffer: Seq::empty(),
        history: Map::<(i32, i32), i64>::empty().insert(root_key(from), 0),
        budget: crate::search::EXPANSION_LIMIT as nat,
    };
    let n = q.mesh.polygons@[polygon as int].vertices@.len() as int;
    lemma_seed_costs(q, fresh, from, polygon, n);
    lemma_seed_sound(q, from, fresh, polygon, n);
    let sown = seed_upto(q, fresh, from, polygon, n);
    let st = seeded(q, from, polygon);
    assert forall|k: int| 0 <= k < st.queue.len() implies 0 <= (#[trigger] st.queue[k]).f by {
        assert(st.queue[k] == sown.buffer[k]);
    }
    lemma_found_sound(q, from, st);
}

/// An entry of the polygons around a vertex counts for the other side of
/// an edge: it is a polygon, it is not the polygon on this side, and it is
/// also around the other vertex.
pub open spec fn qualifies(ep: Seq<isize>, current: isize, q: isize) -> bool {
    q != -1 && q != current && ep.contains(q)
}

/// Where no polygon besides `current` is around both ends of an edge,
/// there is no polygon on the other side.
pub proof fn lemma_across_none(sp: Seq<isize>, ep: Seq<isize>, current: isize, n: int)
    requires
        0 <= n <= sp.len(),
        forall|k: int| 0 <= k < n ==> !qualifies(ep, current, #[trigger] sp[k]),
    ensures
        across_upto(sp, ep, current, n) == crate::search::NO_POLYGON,
    decreases n,
{
    if n > 0 {
        lemma_across_none(sp, ep, current, n - 1);
        assert(!qualifies(ep, current, sp[n - 1]));
    }
}

/// Where exactly one polygon besides `current` is around both ends of an
/// edge, it is the polygon on the other side.
pub proof fn lemma_across_unique(sp: Seq<isize>, ep: Seq<isize>, current: isize, n: int, q: isize)
    requires
        0 <= n <= sp.len(),
        qualifies(ep, current, q),
        exists|k: int| 0 <= k < n && #[trigger] sp[k] == q,
        forall|k: int| 0 <= k < n && qualifies(ep, current, #[trigger] sp[k]) ==> sp[k] == q,
    ensures
        across_upto(sp, ep, current, n) == q,
    decreases n,
{
    if n > 0 && !qualifies(ep, current, sp[n - 1]) {
        let k = choose|k: int| 0 <= k < n && #[trigger] sp[k] == q;
        assert(k < n - 1);
        lemma_across_unique(sp, ep, current, n - 1, q);
    }
}

/// The stretches of an edge cover it: there are one to three of them, all
/// on that edge, the first begins where the edge begins, each begins where
/// the one before it ends, and the last ends where the edge ends.
pub proof fn lemma_edge_cut_covers(
    r: Point,
    i: [Point; 2],
    s: Point,
    e: Point,
    edge: [usize; 2],
    ty: SuccessorType,
)
    ensures
        1 <= edge_cut(r, i, s, e, edge, ty).out.len() <= 3,
        edge_cut(r, i, s, e, edge, ty).out.first().interval[0] == s,
        edge_cut(r, i, s, e, edge, ty).out.last().interval[1] == e,
        forall|k: int|
            0 <= k < edge_cut(r, i, s, e, edge, ty).out.len() ==> (#[trigger] edge_cut(
                r,
                i,
                s,
                e,
                edge,
                ty,
            ).out[k]).edge == edge,
        forall|k: int|
            0 < k < edge_cut(r, i, s, e, edge, ty).out.len() ==> edge_cut(
                r,
                i,
                s,
                e,
                edge,
                ty,
            ).out[k - 1].interval[1] == (#[trigger] edge_cut(r, i, s, e, edge, ty).out[k]).interval[0],
{
}

} // verus!
