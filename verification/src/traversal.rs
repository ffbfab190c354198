use vstd::prelude::*;
use vstd::set_lib::{lemma_int_range, lemma_len_subset, set_int_range};
use crate::backend::{
    bfs_limit, bfs_new, bfs_next, bfs_queue, bfs_seen, discover, edge_ends, incoming, neighbors,
    node_weights, outgoing,
};
use crate::graph::{adjacent, as_ints, joins, simple_edges, CountryGraph, GraphError, GraphView};

verus! {

/// Whether `path` is a walk along the edges: it has a first node, and every
/// node of it is joined to the next by an edge.
pub open spec fn is_path(edges: Seq<(int, int)>, path: Seq<int>) -> bool {
    &&& path.len() > 0
    &&& forall|i: int| 0 <= i < path.len() - 1 ==> adjacent(edges, #[trigger] path[i], path[i + 1])
}

/// Whether a walk along the edges leads from `a` to `b`. Every node is
/// reachable from itself.
pub open spec fn reachable(edges: Seq<(int, int)>, a: int, b: int) -> bool {
    exists|path: Seq<int>| #[trigger] is_path(edges, path) && path.first() == a && path.last() == b
}

/// The order in which a breadth-first traversal visits the nodes when
/// `queue` holds the nodes that wait, `seen` those discovered so far, and
/// at most `steps` nodes are still to be visited: the node at the front of
/// the queue is visited, those of its neighbours that are new are
/// discovered and queued in the order of [`neighbors`], and so on until the
/// queue is empty.
pub open spec fn bfs_trace(edges: Seq<(int, int)>, queue: Seq<int>, seen: Set<int>, steps: nat) -> Seq<
    int,
>
    decreases steps,
{
    if steps == 0 || queue.len() == 0 {
        Seq::empty()
    } else {
        let next = discover(neighbors(edges, queue.first()), queue.drop_first(), seen);
        seq![queue.first()] + bfs_trace(edges, next.0, next.1, (steps - 1) as nat)
    }
}

impl GraphView {
    /// Whether a walk along the edges of the graph leads from `a` to `b`.
    pub open spec fn reachable(self, a: int, b: int) -> bool {
        reachable(self.edges, a, b)
    }

    /// The breadth-first order of the nodes that can be reached from
    /// `start`: `start` first, and after each node those of its neighbours
    /// that were not discovered before, in the order of
    /// [`GraphView::neighbors`]. No traversal visits more nodes than the
    /// graph has.
    pub open spec fn bfs_from(self, start: int) -> Seq<int> {
        bfs_trace(self.edges, seq![start], set![start], self.nodes.len())
    }
}

/// The far ends of the edges that start at `a` are the nodes `b` for which
/// an edge was given as `(a, b)`.
proof fn lemma_outgoing_contains(edges: Seq<(int, int)>, a: int, b: int)
    ensures
        outgoing(edges, a).contains(b) <==> exists|k: int|
            0 <= k < edges.len() && #[trigger] edges[k] == (a, b),
    decreases edges.len(),
{
    if edges.len() > 0 {
        let earlier = edges.drop_last();
        let last = edges.last();
        let before = outgoing(earlier, a);
        let now = outgoing(edges, a);
        lemma_outgoing_contains(earlier, a, b);
        if now.contains(b) {
            let at = choose|at: int| 0 <= at < now.len() && now[at] == b;
            if last.0 == a && at == 0 {
                assert(edges[edges.len() - 1] == (a, b));
            } else {
                if last.0 == a {
                    assert(before[at - 1] == b);
                }
                assert(before.contains(b));
                let k = choose|k: int| 0 <= k < earlier.len() && #[trigger] earlier[k] == (a, b);
                assert(edges[k] == (a, b));
            }
        }
        if exists|k: int| 0 <= k < edges.len() && #[trigger] edges[k] == (a, b) {
            let k = choose|k: int| 0 <= k < edges.len() && #[trigger] edges[k] == (a, b);
            if k == edges.len() - 1 {
                assert(now[0] == b);
            } else {
                assert(earlier[k] == (a, b));
                let at = choose|at: int| 0 <= at < before.len() && before[at] == b;
                if last.0 == a {
                    assert(now[at + 1] == b);
                } else {
                    assert(now[at] == b);
                }
            }
        }
    }
}

/// The near ends of the edges that end at `a` are the other nodes `b` for
/// which an edge was given as `(b, a)`.
proof fn lemma_incoming_contains(edges: Seq<(int, int)>, a: int, b: int)
    ensures
        incoming(edges, a).contains(b) <==> b != a && exists|k: int|
            0 <= k < edges.len() && #[trigger] edges[k] == (b, a),
    decreases edges.len(),
{
    if edges.len() > 0 {
        let earlier = edges.drop_last();
        let last = edges.last();
        let before = incoming(earlier, a);
        let now = incoming(edges, a);
        let counted = last.1 == a && last.0 != a;
        lemma_incoming_contains(earlier, a, b);
        if now.contains(b) {
            let at = choose|at: int| 0 <= at < now.len() && now[at] == b;
            if counted && at == 0 {
                assert(edges[edges.len() - 1] == (b, a));
            } else {
                if counted {
                    assert(before[at - 1] == b);
                }
                assert(before.contains(b));
                let k = choose|k: int| 0 <= k < earlier.len() && #[trigger] earlier[k] == (b, a);
                assert(edges[k] == (b, a));
            }
        }
        if b != a && exists|k: int| 0 <= k < edges.len() && #[trigger] edges[k] == (b, a) {
            let k = choose|k: int| 0 <= k < edges.len() && #[trigger] edges[k] == (b, a);
            if k == edges.len() - 1 {
                assert(now[0] == b);
            } else {
                assert(earlier[k] == (b, a));
                let at = choose|at: int| 0 <= at < before.len() && before[at] == b;
                if counted {
                    assert(now[at + 1] == b);
                } else {
                    assert(now[at] == b);
                }
            }
        }
    }
}

/// The neighbours of a node are the nodes that an edge joins it to.
pub proof fn lemma_neighbors_are_adjacent(edges: Seq<(int, int)>, a: int, b: int)
    ensures
        neighbors(edges, a).contains(b) <==> adjacent(edges, a, b),
{
    lemma_outgoing_contains(edges, a, b);
    lemma_incoming_contains(edges, a, b);
    let out = outgoing(edges, a);
    let inc = incoming(edges, a);
    if neighbors(edges, a).contains(b) {
        let at = choose|at: int| 0 <= at < (out + inc).len() && (out + inc)[at] == b;
        if at < out.len() {
            assert(out[at] == b);
            let k = choose|k: int| 0 <= k < edges.len() && #[trigger] edges[k] == (a, b);
            assert(joins(edges[k], a, b));
        } else {
            assert(inc[at - out.len()] == b);
            let k = choose|k: int| 0 <= k < edges.len() && #[trigger] edges[k] == (b, a);
            assert(joins(edges[k], a, b));
        }
    }
    if adjacent(edges, a, b) {
        let k = choose|k: int| 0 <= k < edges.len() && joins(#[trigger] edges[k], a, b);
        if edges[k] == (a, b) {
            let at = choose|at: int| 0 <= at < out.len() && out[at] == b;
            assert((out + inc)[at] == b);
        } else {
            assert(b != a);
            let at = choose|at: int| 0 <= at < inc.len() && inc[at] == b;
            assert((out + inc)[out.len() + at] == b);
        }
    }
}

/// Whether `seen` has exactly the members of `listed`.
spec fn same_members(seen: Set<int>, listed: Seq<int>) -> bool {
    forall|v: int| seen.contains(v) <==> listed.contains(v)
}

/// Whether every member of `listed` is a node index below `n`.
spec fn below(listed: Seq<int>, n: int) -> bool {
    forall|k: int| 0 <= k < listed.len() ==> 0 <= #[trigger] listed[k] < n
}

/// Whether `seen` has every node that an edge joins to a member of `done`.
spec fn closed_around(edges: Seq<(int, int)>, done: Seq<int>, seen: Set<int>) -> bool {
    forall|k: int, w: int|
        0 <= k < done.len() && #[trigger] adjacent(edges, done[k], w) ==> seen.contains(w)
}

/// Whether every member of `seen` can be reached from `start`.
spec fn within_reach(edges: Seq<(int, int)>, start: int, seen: Set<int>) -> bool {
    forall|v: int| seen.contains(v) ==> reachable(edges, start, v)
}

/// What holds while a traversal from `start` is under way, of the nodes
/// `done` that it has visited, the nodes `queue` that wait, and the nodes
/// `seen` that it has discovered: the discovered nodes are the visited and
/// the waiting ones, each listed once; all of them are nodes that can be
/// reached from `start`; and every neighbour of a visited node is
/// discovered.
spec fn under_way(
    edges: Seq<(int, int)>,
    n: int,
    start: int,
    done: Seq<int>,
    queue: Seq<int>,
    seen: Set<int>,
) -> bool {
    &&& simple_edges(edges, n)
    &&& below(done + queue, n)
    &&& (done + queue).no_duplicates()
    &&& same_members(seen, done + queue)
    &&& closed_around(edges, done, seen)
    &&& within_reach(edges, start, seen)
    &&& seen.contains(start)
}

/// What discovering the nodes `around` does when `seen` has the members of
/// `done` and `queue`, none of them twice: the new members of `seen` are
/// those of `around`, and they stand, each once, at the back of the queue.
proof fn lemma_discover(around: Seq<int>, queue: Seq<int>, seen: Set<int>, done: Seq<int>)
    requires
        (done + queue).no_duplicates(),
        same_members(seen, done + queue),
    ensures
        (done + discover(around, queue, seen).0).no_duplicates(),
        same_members(discover(around, queue, seen).1, done + discover(around, queue, seen).0),
        forall|v: int|
            discover(around, queue, seen).1.contains(v) <==> seen.contains(v) || around.contains(
                v,
            ),
    decreases around.len(),
{
    if around.len() > 0 {
        let head = around.first();
        let rest = around.drop_first();
        if seen.contains(head) {
            lemma_discover(rest, queue, seen, done);
            let after = discover(rest, queue, seen).1;
            assert forall|v: int| after.contains(v) <==> seen.contains(v) || around.contains(
                v,
            ) by {
                if rest.contains(v) {
                    let at = choose|at: int| 0 <= at < rest.len() && rest[at] == v;
                    assert(around[at + 1] == v);
                }
                if around.contains(v) {
                    let at = choose|at: int| 0 <= at < around.len() && around[at] == v;
                    if at > 0 {
                        assert(rest[at - 1] == v);
                    }
                }
            }
        } else {
            let longer = queue.push(head);
            let wider = seen.insert(head);
            assert(done + longer =~= (done + queue).push(head));
            assert((done + longer).no_duplicates()) by {
                assert forall|i: int, j: int|
                    0 <= i < (done + longer).len() && 0 <= j < (done + longer).len() && i
                        != j implies (done + longer)[i] != (done + longer)[j] by {
                    let old_len = (done + queue).len();
                    if i < old_len && j < old_len {
                        assert((done + queue)[i] != (done + queue)[j]);
                    } else if i < old_len {
                        assert((done + queue).contains((done + queue)[i]));
                    } else {
                        assert((done + queue).contains((done + queue)[j]));
                    }
                }
            }
            assert(same_members(wider, done + longer)) by {
                assert forall|v: int| wider.contains(v) <==> (done + longer).contains(v) by {
                    if (done + longer).contains(v) {
                        let at = choose|at: int|
                            0 <= at < (done + longer).len() && (done + longer)[at] == v;
                        if at < (done + queue).len() {
                            assert((done + queue)[at] == v);
                        }
                    }
                    if seen.contains(v) {
                        let at = choose|at: int|
                            0 <= at < (done + queue).len() && (done + queue)[at] == v;
                        assert((done + longer)[at] == v);
                    }
                    if v == head {
                        assert((done + longer)[(done + queue).len() as int] == v);
                    }
                }
            }
            lemma_discover(rest, longer, wider, done);
            let after = discover(rest, longer, wider).1;
            assert forall|v: int| after.contains(v) <==> seen.contains(v) || around.contains(
                v,
            ) by {
                if rest.contains(v) {
                    let at = choose|at: int| 0 <= at < rest.len() && rest[at] == v;
                    assert(around[at + 1] == v);
                }
                if around.contains(v) {
                    let at = choose|at: int| 0 <= at < around.len() && around[at] == v;
                    if at > 0 {
                        assert(rest[at - 1] == v);
                    }
                }
                if v == head {
                    assert(around[0] == v);
                }
            }
        }
    }
}

/// Node indices below `n` that are listed without repetition are at most
/// `n`.
proof fn lemma_distinct_indices_are_few(listed: Seq<int>, n: int)
    requires
        0 <= n,
        listed.no_duplicates(),
        below(listed, n),
    ensures
        listed.len() <= n,
{
    listed.unique_seq_to_set();
    lemma_int_range(0, n);
    assert(listed.to_set().subset_of(set_int_range(0, n))) by {
        assert forall|v: int| listed.to_set().contains(v) implies set_int_range(0, n).contains(
            v,
        ) by {
            let at = choose|at: int| 0 <= at < listed.len() && listed[at] == v;
            assert(0 <= listed[at] < n);
        }
    }
    lemma_len_subset(listed.to_set(), set_int_range(0, n));
}

/// A walk that is continued along one more edge is a walk.
pub proof fn lemma_reach_one_more(edges: Seq<(int, int)>, a: int, b: int, c: int)
    requires
        reachable(edges, a, b),
        adjacent(edges, b, c),
    ensures
        reachable(edges, a, c),
{
    let path = choose|path: Seq<int>| #[trigger]
        is_path(edges, path) && path.first() == a && path.last() == b;
    let longer = path.push(c);
    assert forall|i: int| 0 <= i < longer.len() - 1 implies adjacent(
        edges,
        #[trigger] longer[i],
        longer[i + 1],
    ) by {
        if i < path.len() - 1 {
            assert(adjacent(edges, path[i], path[i + 1]));
        }
    }
    assert(is_path(edges, longer) && longer.first() == a && longer.last() == c);
}

/// Every node is reachable from itself.
pub proof fn lemma_reach_self(edges: Seq<(int, int)>, a: int)
    ensures
        reachable(edges, a, a),
{
    let path = seq![a];
    assert(is_path(edges, path) && path.first() == a && path.last() == a);
}

/// Edges run both ways: what joins `a` to `b` joins `b` to `a`.
pub proof fn lemma_adjacent_is_symmetric(edges: Seq<(int, int)>, a: int, b: int)
    requires
        adjacent(edges, a, b),
    ensures
        adjacent(edges, b, a),
{
    let k = choose|k: int| 0 <= k < edges.len() && joins(#[trigger] edges[k], a, b);
    assert(joins(edges[k], b, a));
}

/// A walk can be walked back: where `b` can be reached from `a`, `a` can be
/// reached from `b`.
pub proof fn lemma_reach_is_symmetric(edges: Seq<(int, int)>, a: int, b: int)
    requires
        reachable(edges, a, b),
    ensures
        reachable(edges, b, a),
{
    let path = choose|path: Seq<int>| #[trigger]
        is_path(edges, path) && path.first() == a && path.last() == b;
    let back = path.reverse();
    assert forall|i: int| 0 <= i < back.len() - 1 implies adjacent(
        edges,
        #[trigger] back[i],
        back[i + 1],
    ) by {
        let at = path.len() - 2 - i;
        assert(adjacent(edges, path[at], path[at + 1]));
        lemma_adjacent_is_symmetric(edges, path[at], path[at + 1]);
    }
    assert(is_path(edges, back) && back.first() == b && back.last() == a);
}

/// Walks can be joined: where `b` can be reached from `a` and `c` from `b`,
/// `c` can be reached from `a`.
pub proof fn lemma_reach_is_transitive(edges: Seq<(int, int)>, a: int, b: int, c: int)
    requires
        reachable(edges, a, b),
        reachable(edges, b, c),
    ensures
        reachable(edges, a, c),
{
    let first = choose|path: Seq<int>| #[trigger]
        is_path(edges, path) && path.first() == a && path.last() == b;
    let second = choose|path: Seq<int>| #[trigger]
        is_path(edges, path) && path.first() == b && path.last() == c;
    let whole = first + second.drop_first();
    assert forall|i: int| 0 <= i < whole.len() - 1 implies adjacent(
        edges,
        #[trigger] whole[i],
        whole[i + 1],
    ) by {
        if i < first.len() - 1 {
            assert(adjacent(edges, first[i], first[i + 1]));
        } else {
            let at = i - first.len() + 1;
            assert(adjacent(edges, second[at], second[at + 1]));
        }
    }
    assert(is_path(edges, whole) && whole.first() == a && whole.last() == c);
}

/// A set of nodes that has every neighbour of each of its members has every
/// node to which a walk leads from one of its members.
proof fn lemma_closed_set_holds_walk(edges: Seq<(int, int)>, members: Set<int>, path: Seq<int>)
    requires
        is_path(edges, path),
        members.contains(path.first()),
        forall|v: int, w: int|
            members.contains(v) && #[trigger] adjacent(edges, v, w) ==> members.contains(w),
    ensures
        members.contains(path.last()),
    decreases path.len(),
{
    if path.len() > 1 {
        let shorter = path.drop_last();
        assert forall|i: int| 0 <= i < shorter.len() - 1 implies adjacent(
            edges,
            #[trigger] shorter[i],
            shorter[i + 1],
        ) by {
            assert(adjacent(edges, path[i], path[i + 1]));
        }
        lemma_closed_set_holds_walk(edges, members, shorter);
        assert(adjacent(edges, path[path.len() - 2], path[path.len() - 2 + 1]));
    }
}

/// A traversal is under way when it starts.
proof fn lemma_bfs_start(edges: Seq<(int, int)>, n: int, start: int)
    requires
        simple_edges(edges, n),
        0 <= start < n,
    ensures
        under_way(edges, n, start, Seq::empty(), seq![start], set![start]),
{
    let done = Seq::<int>::empty();
    let queue = seq![start];
    assert(done + queue =~= queue);
    lemma_reach_self(edges, start);
    assert forall|v: int| set![start].contains(v) <==> queue.contains(v) by {
        if v == start {
            assert(queue[0] == v);
        }
    }
}

/// A traversal that is under way with a node waiting has not yet visited
/// every node, and is under way after it has visited the node at the front
/// of its queue.
proof fn lemma_bfs_step(
    edges: Seq<(int, int)>,
    n: int,
    start: int,
    done: Seq<int>,
    queue: Seq<int>,
    seen: Set<int>,
)
    requires
        0 <= n,
        under_way(edges, n, start, done, queue, seen),
        queue.len() > 0,
    ensures
        done.len() < n,
        under_way(
            edges,
            n,
            start,
            done.push(queue.first()),
            discover(neighbors(edges, queue.first()), queue.drop_first(), seen).0,
            discover(neighbors(edges, queue.first()), queue.drop_first(), seen).1,
        ),
{
    let v = queue.first();
    let around = neighbors(edges, v);
    let waiting = queue.drop_first();
    let longer = done.push(v);
    let queue2 = discover(around, waiting, seen).0;
    let seen2 = discover(around, waiting, seen).1;
    lemma_distinct_indices_are_few(done + queue, n);
    assert(longer + waiting =~= done + queue);
    assert((done + queue)[done.len() as int] == v);
    assert(seen.contains(v));
    lemma_discover(around, waiting, seen, longer);
    assert(below(longer + queue2, n)) by {
        assert forall|k: int| 0 <= k < (longer + queue2).len() implies 0 <= (#[trigger] (longer
            + queue2)[k]) < n by {
            let w = (longer + queue2)[k];
            assert((longer + queue2).contains(w));
            assert(seen2.contains(w));
            if seen.contains(w) {
                let at = choose|at: int| 0 <= at < (done + queue).len() && (done + queue)[at] == w;
                assert(0 <= (done + queue)[at] < n);
            } else {
                assert(around.contains(w));
                lemma_neighbors_are_adjacent(edges, v, w);
                let e = choose|e: int| 0 <= e < edges.len() && joins(#[trigger] edges[e], v, w);
                assert(0 <= edges[e].0 < n && 0 <= edges[e].1 < n);
            }
        }
    }
    assert(closed_around(edges, longer, seen2)) by {
        assert forall|k: int, w: int|
            0 <= k < longer.len() && #[trigger] adjacent(edges, longer[k], w) implies seen2.contains(
            w,
        ) by {
            if k < done.len() {
                assert(adjacent(edges, done[k], w));
                assert(seen.contains(w));
            } else {
                lemma_neighbors_are_adjacent(edges, v, w);
            }
        }
    }
    assert(within_reach(edges, start, seen2)) by {
        assert forall|w: int| seen2.contains(w) implies reachable(edges, start, w) by {
            if !seen.contains(w) {
                assert(around.contains(w));
                lemma_neighbors_are_adjacent(edges, v, w);
                lemma_reach_one_more(edges, start, v, w);
            }
        }
    }
}

/// A traversal that is under way with no node waiting has visited, each
/// once, the nodes that can be reached from its start.
proof fn lemma_bfs_end(edges: Seq<(int, int)>, n: int, start: int, done: Seq<int>, seen: Set<int>)
    requires
        under_way(edges, n, start, done, Seq::empty(), seen),
    ensures
        done.no_duplicates(),
        below(done, n),
        forall|v: int| done.contains(v) <==> reachable(edges, start, v),
{
    assert(done + Seq::<int>::empty() =~= done);
    assert forall|v: int| done.contains(v) <==> reachable(edges, start, v) by {
        if reachable(edges, start, v) {
            let path = choose|path: Seq<int>| #[trigger]
                is_path(edges, path) && path.first() == start && path.last() == v;
            assert forall|x: int, w: int| seen.contains(x) && #[trigger] adjacent(
                edges,
                x,
                w,
            ) implies seen.contains(w) by {
                let k = choose|k: int| 0 <= k < done.len() && done[k] == x;
                assert(adjacent(edges, done[k], w));
            }
            lemma_closed_set_holds_walk(edges, seen, path);
        }
    }
}

/// A traversal that is under way and may still visit as many nodes as it
/// has not visited goes on to visit, each once, the nodes that can be
/// reached from its start.
proof fn lemma_bfs_rest(
    edges: Seq<(int, int)>,
    n: int,
    start: int,
    done: Seq<int>,
    queue: Seq<int>,
    seen: Set<int>,
)
    requires
        0 <= n,
        under_way(edges, n, start, done, queue, seen),
        done.len() <= n,
    ensures
        (done + bfs_trace(edges, queue, seen, (n - done.len()) as nat)).no_duplicates(),
        below(done + bfs_trace(edges, queue, seen, (n - done.len()) as nat), n),
        forall|v: int|
            (done + bfs_trace(edges, queue, seen, (n - done.len()) as nat)).contains(v)
                <==> reachable(edges, start, v),
    decreases n - done.len(),
{
    let steps = (n - done.len()) as nat;
    if queue.len() == 0 {
        assert(queue =~= Seq::<int>::empty());
        assert(done + bfs_trace(edges, queue, seen, steps) =~= done);
        lemma_bfs_end(edges, n, start, done, seen);
    } else {
        lemma_bfs_step(edges, n, start, done, queue, seen);
        let next = discover(neighbors(edges, queue.first()), queue.drop_first(), seen);
        let longer = done.push(queue.first());
        lemma_bfs_rest(edges, n, start, longer, next.0, next.1);
        assert(longer + bfs_trace(edges, next.0, next.1, (n - longer.len()) as nat) =~= done
            + bfs_trace(edges, queue, seen, steps));
    }
}

/// The breadth-first order from a node of a graph holds, each once, the
/// nodes to which a walk along the edges leads from that node, and no other:
/// it lists the connected component of the node.
pub proof fn lemma_bfs_from_is_component(graph: GraphView, start: int)
    requires
        graph.wf(),
        graph.has_node(start),
    ensures
        graph.bfs_from(start).no_duplicates(),
        forall|v: int| graph.bfs_from(start).contains(v) <==> graph.reachable(start, v),
        forall|v: int| graph.bfs_from(start).contains(v) ==> graph.has_node(v),
        graph.bfs_from(start).first() == start,
{
    let n = graph.nodes.len() as int;
    let done = Seq::<int>::empty();
    lemma_bfs_start(graph.edges, n, start);
    lemma_bfs_rest(graph.edges, n, start, done, seq![start], set![start]);
    assert(done + graph.bfs_from(start) =~= graph.bfs_from(start));
    assert forall|v: int| graph.bfs_from(start).contains(v) implies graph.has_node(v) by {
        let at = choose|at: int|
            0 <= at < graph.bfs_from(start).len() && graph.bfs_from(start)[at] == v;
        assert(0 <= graph.bfs_from(start)[at] < n);
    }
}

/// The nodes in breadth-first order from `start`: `start` first, then the
/// nodes that an edge joins to it, then those joined to these, and so on.
///
/// The order holds every node that a walk along the edges reaches from
/// `start`, each once, and no other node. A node is followed by its newly
/// discovered neighbours in the order in which the graph lists them. A
/// graph that has no node `start` answers `InvalidNode`.
pub fn bfs_order(graph: &CountryGraph, start: usize) -> (outcome: Result<Vec<usize>, GraphError>)
    requires
        graph.wf(),
    ensures
        match outcome {
            Ok(order) => {
                &&& graph@.has_node(start as int)
                &&& as_ints(order@) == graph@.bfs_from(start as int)
                &&& order@.no_duplicates()
                &&& forall|v: int|
                    as_ints(order@).contains(v) <==> graph@.reachable(start as int, v)
            },
            Err(error) => !graph@.has_node(start as int) && error == GraphError::InvalidNode,
        },
{
    let n: usize = graph.node_count();
    if start >= n {
        return Err(GraphError::InvalidNode);
    }
    let raw = graph.raw();
    let ghost edges = graph@.edges;
    let mut walk = bfs_new(raw, start);
    let mut order: Vec<usize> = Vec::new();
    proof {
        lemma_bfs_start(edges, n as int, start as int);
        assert(as_ints(order@) =~= Seq::<int>::empty());
        assert(as_ints(order@) + graph@.bfs_from(start as int) =~= graph@.bfs_from(start as int));
    }
    loop
        invariant
            edges == graph@.edges,
            edges == edge_ends(*raw),
            n == graph@.nodes.len(),
            n == node_weights(*raw).len(),
            bfs_limit(walk) == n,
            order@.len() <= n,
            under_way(
                edges,
                n as int,
                start as int,
                as_ints(order@),
                bfs_queue(walk),
                bfs_seen(walk),
            ),
            as_ints(order@) + bfs_trace(
                edges,
                bfs_queue(walk),
                bfs_seen(walk),
                (n - order@.len()) as nat,
            ) == graph@.bfs_from(start as int),
        ensures
            bfs_queue(walk).len() == 0,
        decreases n - order@.len(),
    {
        let ghost done = as_ints(order@);
        let ghost queue = bfs_queue(walk);
        let ghost seen = bfs_seen(walk);
        match bfs_next(&mut walk, raw) {
            None => {
                break ;
            },
            Some(node) => {
                order.push(node);
                proof {
                    lemma_bfs_step(edges, n as int, start as int, done, queue, seen);
                    let longer = done.push(node as int);
                    assert(as_ints(order@) =~= longer);
                    assert(longer + bfs_trace(
                        edges,
                        bfs_queue(walk),
                        bfs_seen(walk),
                        (n - longer.len()) as nat,
                    ) =~= done + bfs_trace(edges, queue, seen, (n - done.len()) as nat));
                }
            },
        }
    }
    proof {
        let done = as_ints(order@);
        assert(bfs_trace(edges, bfs_queue(walk), bfs_seen(walk), (n - order@.len()) as nat)
            =~= Seq::<int>::empty());
        assert(done =~= graph@.bfs_from(start as int));
        lemma_bfs_from_is_component(graph@, start as int);
        assert forall|i: int, j: int|
            0 <= i < order@.len() && 0 <= j < order@.len() && i != j implies order@[i]
            != order@[j] by {
            assert(done[i] != done[j]);
        }
    }
    Ok(order)
}

} // verus!
