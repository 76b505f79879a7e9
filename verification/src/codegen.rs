//! The evaluation-order engine.
//!
//! Given a graph and a starting node identifier, [`push_eval_steps`] produces
//! the ordered [`EvalStep`] sequence needed to evaluate that node and its
//! transitive dependents: a depth-first traversal over outgoing edges in
//! insertion order, appending each node on first visit (standard depth-first
//! preorder). This is deliberately *not* a global topological sort: a node
//! reached via one branch can be appended before an unrelated dependency
//! reached via a sibling branch completes. That quirk is part of the
//! contract; [`push_order`] pins it down exactly.
//!
//! Per visited node, each incoming edge records which (producer, output)
//! feeds which input slot; of several edges into one slot the last
//! enumerated silently wins. Of all outgoing edges sharing one (node,
//! output), every edge but the last enumerated is flagged as requiring a
//! clone: exactly one consumer may take the produced value directly.

use vstd::prelude::*;
use crate::graph::{EdgeRec, Graph, NodeKind, NodeKindView};
use crate::node::{EvalFn, Output};

verus! {

/// The traversal's running state: which nodes have been visited, and the
/// visit order so far.
pub struct DfsState {
    /// One flag per node identifier.
    pub visited: Seq<bool>,
    /// The identifiers visited, in first-visit order.
    pub order: Seq<usize>,
}

/// How many nodes are flagged visited.
pub open spec fn count_visited(v: Seq<bool>) -> int
    decreases v.len(),
{
    if v.len() == 0 {
        0
    } else {
        count_visited(v.drop_last()) + if v.last() {
            1int
        } else {
            0int
        }
    }
}

proof fn lemma_count_bounds(v: Seq<bool>)
    ensures
        0 <= count_visited(v) <= v.len(),
    decreases v.len(),
{
    if v.len() > 0 {
        lemma_count_bounds(v.drop_last());
    }
}

proof fn lemma_count_update_true(v: Seq<bool>, k: int)
    requires
        0 <= k < v.len(),
        !v[k],
    ensures
        count_visited(v.update(k, true)) == count_visited(v) + 1,
    decreases v.len(),
{
    let u = v.update(k, true);
    if k == v.len() - 1 {
        assert(u.drop_last() =~= v.drop_last());
    } else {
        assert(u.drop_last() =~= v.drop_last().update(k, true));
        lemma_count_update_true(v.drop_last(), k);
    }
}

/// Mark a node visited and append it to the order.
pub open spec fn mark(st: DfsState, d: usize) -> DfsState {
    DfsState { visited: st.visited.update(d as int, true), order: st.order.push(d) }
}

/// How many edge positions one traversal frame still has to examine.
pub open spec fn frame_weight(edges_len: int, f: (usize, int)) -> int {
    if f.1 < edges_len {
        edges_len - f.1
    } else {
        0
    }
}

/// The total number of edge positions the whole frame stack still has to
/// examine.
pub open spec fn stack_weight(edges_len: int, stack: Seq<(usize, int)>) -> int
    decreases stack.len(),
{
    if stack.len() == 0 {
        0
    } else {
        stack_weight(edges_len, stack.drop_last()) + frame_weight(edges_len, stack.last())
    }
}

proof fn lemma_stack_weight_nonneg(edges_len: int, stack: Seq<(usize, int)>)
    ensures
        stack_weight(edges_len, stack) >= 0,
    decreases stack.len(),
{
    if stack.len() > 0 {
        lemma_stack_weight_nonneg(edges_len, stack.drop_last());
    }
}

proof fn lemma_stack_weight_push(edges_len: int, stack: Seq<(usize, int)>, f: (usize, int))
    ensures
        stack_weight(edges_len, stack.push(f)) == stack_weight(edges_len, stack) + frame_weight(
            edges_len,
            f,
        ),
{
    assert(stack.push(f).drop_last() =~= stack);
}

/// One depth-first traversal, run to completion from the given frame stack.
///
/// Each frame is a node identifier paired with the next edge position to
/// examine. The top frame advances over the whole edge list in insertion
/// order; an edge leaving the frame's node whose destination exists and is
/// unvisited pushes a fresh frame for the destination, which is marked and
/// appended to the order at that moment (depth-first preorder).
pub open spec fn dfs_run(edges: Seq<EdgeRec>, stack: Seq<(usize, int)>, st: DfsState) -> DfsState
    decreases st.visited.len() - count_visited(st.visited),
        stack_weight(edges.len() as int, stack),
        stack.len(),
    via dfs_run_decreases
{
    if stack.len() == 0 {
        st
    } else {
        let n = stack.last().0;
        let i = stack.last().1;
        if i >= edges.len() {
            dfs_run(edges, stack.drop_last(), st)
        } else if edges[i as int].src == n && edges[i as int].dst < st.visited.len()
            && !st.visited[edges[i as int].dst as int] {
            let d = edges[i as int].dst;
            dfs_run(
                edges,
                stack.drop_last().push((n, i + 1)).push((d, 0int)),
                mark(st, d),
            )
        } else {
            dfs_run(edges, stack.drop_last().push((n, i + 1)), st)
        }
    }
}

#[via_fn]
proof fn dfs_run_decreases(edges: Seq<EdgeRec>, stack: Seq<(usize, int)>, st: DfsState) {
    lemma_count_bounds(st.visited);
    lemma_stack_weight_nonneg(edges.len() as int, stack);
    if stack.len() > 0 {
        let n = stack.last().0;
        let i = stack.last().1;
        lemma_stack_weight_nonneg(edges.len() as int, stack.drop_last());
        if i >= edges.len() {
        } else if edges[i as int].src == n && edges[i as int].dst < st.visited.len()
            && !st.visited[edges[i as int].dst as int] {
            let d = edges[i as int].dst;
            lemma_count_update_true(st.visited, d as int);
            lemma_stack_weight_push(edges.len() as int, stack.drop_last(), (n, i + 1));
            lemma_stack_weight_push(
                edges.len() as int,
                stack.drop_last().push((n, i + 1)),
                (d, 0int),
            );
            lemma_count_bounds(mark(st, d).visited);
        } else {
            lemma_stack_weight_push(edges.len() as int, stack.drop_last(), (n, i + 1));
        }
    }
}

/// The blank traversal state for a graph with the given node count.
pub open spec fn initial_state(nodes_len: nat) -> DfsState {
    DfsState { visited: Seq::new(nodes_len, |i: int| false), order: Seq::empty() }
}

/// The order in which a push traversal from `start` visits nodes: standard
/// depth-first preorder over outgoing edges in insertion order.
pub open spec fn push_order(nodes_len: nat, edges: Seq<EdgeRec>, start: usize) -> Seq<usize> {
    if start < nodes_len {
        dfs_run(
            edges,
            seq![(start, 0int)],
            mark(initial_state(nodes_len), start),
        ).order
    } else {
        Seq::empty()
    }
}

/// The traversal only ever grows the state: the visit order is extended, the
/// appended identifiers are exactly the freshly visited nodes, none is
/// appended twice, and a flag once set stays set.
pub proof fn lemma_dfs_run_mono(edges: Seq<EdgeRec>, stack: Seq<(usize, int)>, st: DfsState)
    requires
        st.visited.len() <= usize::MAX,
    ensures
        ({
            let r = dfs_run(edges, stack, st);
            &&& r.visited.len() == st.visited.len()
            &&& st.order.len() <= r.order.len()
            &&& r.order.take(st.order.len() as int) == st.order
            &&& forall|j: int|
                st.order.len() <= j < r.order.len() ==> (#[trigger] r.order[j]) < st.visited.len()
                    && !st.visited[r.order[j] as int]
            &&& forall|j1: int, j2: int|
                st.order.len() <= j1 < j2 < r.order.len() ==> #[trigger] r.order[j1]
                    != #[trigger] r.order[j2]
            &&& forall|k: int|
                0 <= k < st.visited.len() ==> ((#[trigger] r.visited[k]) <==> st.visited[k]
                    || r.order.skip(st.order.len() as int).contains(k as usize))
        }),
    decreases st.visited.len() - count_visited(st.visited),
        stack_weight(edges.len() as int, stack),
        stack.len(),
{
    lemma_count_bounds(st.visited);
    lemma_stack_weight_nonneg(edges.len() as int, stack);
    if stack.len() == 0 {
        let r = dfs_run(edges, stack, st);
        assert(r.order.take(st.order.len() as int) =~= st.order);
        assert forall|k: int| 0 <= k < st.visited.len() implies ((#[trigger] r.visited[k])
            <==> st.visited[k] || r.order.skip(st.order.len() as int).contains(k as usize)) by {
            if r.order.skip(st.order.len() as int).contains(k as usize) {
                let w = choose|w: int|
                    0 <= w < r.order.skip(st.order.len() as int).len() && r.order.skip(
                        st.order.len() as int,
                    )[w] == k as usize;
                assert(false);
            }
        }
    } else {
        let n = stack.last().0;
        let i = stack.last().1;
        lemma_stack_weight_nonneg(edges.len() as int, stack.drop_last());
        if i >= edges.len() {
            lemma_dfs_run_mono(edges, stack.drop_last(), st);
        } else if edges[i as int].src == n && edges[i as int].dst < st.visited.len()
            && !st.visited[edges[i as int].dst as int] {
            let d = edges[i as int].dst;
            let st1 = mark(st, d);
            let stack1 = stack.drop_last().push((n, i + 1)).push((d, 0int));
            lemma_count_update_true(st.visited, d as int);
            lemma_stack_weight_push(edges.len() as int, stack.drop_last(), (n, i + 1));
            lemma_stack_weight_push(
                edges.len() as int,
                stack.drop_last().push((n, i + 1)),
                (d, 0int),
            );
            lemma_count_bounds(st1.visited);
            lemma_dfs_run_mono(edges, stack1, st1);
            let r = dfs_run(edges, stack, st);
            assert(r == dfs_run(edges, stack1, st1));
            assert(st1.order == st.order.push(d));
            assert(st1.order.take(st.order.len() as int) =~= st.order);
            assert(r.order.take(st.order.len() as int) =~= st.order);
            assert(st1.order[st.order.len() as int] == d);
            assert(r.order[st.order.len() as int] == d);
            assert forall|k: int| 0 <= k < st.visited.len() implies ((#[trigger] r.visited[k])
                <==> st.visited[k] || r.order.skip(st.order.len() as int).contains(k as usize)) by {
                let delta1 = r.order.skip(st1.order.len() as int);
                let delta = r.order.skip(st.order.len() as int);
                assert(r.visited[k] <==> st1.visited[k] || delta1.contains(k as usize));
                if k == d as int {
                    assert(delta[0] == d);
                    assert(delta.contains(d));
                } else {
                    assert(st1.visited[k] == st.visited[k]);
                    assert forall|w: int| 0 <= w < delta.len() && delta[w] == k as usize implies
                        delta1.contains(k as usize) by {
                        assert(delta[w] == r.order[st.order.len() + w]);
                        assert(delta[0] == r.order[st.order.len() as int]);
                        assert(delta[0] == d);
                        assert(w != 0);
                        assert(delta1[w - 1] == r.order[st1.order.len() + (w - 1)]);
                    }
                    assert forall|w: int| 0 <= w < delta1.len() && delta1[w] == k as usize implies
                        delta.contains(k as usize) by {
                        assert(delta[w + 1] == r.order[st.order.len() + w + 1]);
                    }
                }
            }
        } else {
            let stack1 = stack.drop_last().push((n, i + 1));
            lemma_stack_weight_push(edges.len() as int, stack.drop_last(), (n, i + 1));
            lemma_dfs_run_mono(edges, stack1, st);
        }
    }
}

/// Consecutive entries of `p` are joined by an edge.
pub open spec fn is_path(edges: Seq<EdgeRec>, p: Seq<usize>) -> bool {
    forall|k: int|
        0 <= k < p.len() - 1 ==> exists|e: int|
            0 <= e < edges.len() && (#[trigger] edges[e]).src == (#[trigger] p[k]) && edges[e].dst
                == p[k + 1]
}

/// `b` can be reached from `a` by following edges in their direction.
pub open spec fn reachable(edges: Seq<EdgeRec>, a: usize, b: usize) -> bool {
    exists|p: Seq<usize>| #[trigger] is_path(edges, p) && p.len() >= 1 && p[0] == a && p.last() == b
}

/// Every node reaches itself.
pub proof fn lemma_reachable_refl(edges: Seq<EdgeRec>, a: usize)
    ensures
        reachable(edges, a, a),
{
    let p = seq![a];
    assert(is_path(edges, p));
    assert(p[0] == a && p.last() == a);
}

/// Reachability extends along any edge out of a reached node.
pub proof fn lemma_reachable_step(edges: Seq<EdgeRec>, a: usize, b: usize, e: int)
    requires
        reachable(edges, a, b),
        0 <= e < edges.len(),
        edges[e].src == b,
    ensures
        reachable(edges, a, edges[e].dst),
{
    let p = choose|p: Seq<usize>| #[trigger] is_path(edges, p) && p.len() >= 1 && p[0] == a
        && p.last() == b;
    let q = p.push(edges[e].dst);
    assert forall|k: int| 0 <= k < q.len() - 1 implies exists|e2: int|
        0 <= e2 < edges.len() && (#[trigger] edges[e2]).src == (#[trigger] q[k]) && edges[e2].dst
            == q[k + 1] by {
        if k < p.len() - 1 {
            assert(q[k] == p[k] && q[k + 1] == p[k + 1]);
            assert(exists|e2: int|
                0 <= e2 < edges.len() && (#[trigger] edges[e2]).src == p[k] && edges[e2].dst == p[
                    k + 1
                ]);
        } else {
            assert(q[k] == b && q[k + 1] == edges[e].dst);
        }
    }
    assert(is_path(edges, q) && q.len() >= 1 && q[0] == a && q.last() == edges[e].dst);
}

/// Every identifier the traversal appends is reachable from `start`,
/// provided every frame's node is.
proof fn lemma_dfs_run_sound(edges: Seq<EdgeRec>, stack: Seq<(usize, int)>, st: DfsState, start: usize)
    requires
        st.visited.len() <= usize::MAX,
        forall|j: int| 0 <= j < stack.len() ==> (#[trigger] stack[j]).1 >= 0,
        forall|j: int| 0 <= j < stack.len() ==> reachable(edges, start, (#[trigger] stack[j]).0),
    ensures
        ({
            let r = dfs_run(edges, stack, st);
            forall|j: int|
                st.order.len() <= j < r.order.len() ==> reachable(
                    edges,
                    start,
                    #[trigger] r.order[j],
                )
        }),
    decreases st.visited.len() - count_visited(st.visited),
        stack_weight(edges.len() as int, stack),
        stack.len(),
{
    lemma_count_bounds(st.visited);
    lemma_stack_weight_nonneg(edges.len() as int, stack);
    if stack.len() == 0 {
    } else {
        let n = stack.last().0;
        let i = stack.last().1;
        lemma_stack_weight_nonneg(edges.len() as int, stack.drop_last());
        if i >= edges.len() {
            assert forall|j: int| 0 <= j < stack.drop_last().len() implies reachable(
                edges,
                start,
                (#[trigger] stack.drop_last()[j]).0,
            ) && (#[trigger] stack.drop_last()[j]).1 >= 0 by {
                assert(stack.drop_last()[j] == stack[j]);
            }
            lemma_dfs_run_sound(edges, stack.drop_last(), st, start);
            assert(dfs_run(edges, stack, st) == dfs_run(edges, stack.drop_last(), st));
        } else if edges[i as int].src == n && edges[i as int].dst < st.visited.len()
            && !st.visited[edges[i as int].dst as int] {
            let d = edges[i as int].dst;
            let st1 = mark(st, d);
            let stack1 = stack.drop_last().push((n, i + 1)).push((d, 0int));
            lemma_count_update_true(st.visited, d as int);
            lemma_count_bounds(st1.visited);
            lemma_stack_weight_push(edges.len() as int, stack.drop_last(), (n, i + 1));
            lemma_stack_weight_push(
                edges.len() as int,
                stack.drop_last().push((n, i + 1)),
                (d, 0int),
            );
            assert(reachable(edges, start, n)) by {
                assert(stack[stack.len() - 1].0 == n);
            }
            assert(i >= 0) by {
                assert(stack[stack.len() - 1].1 == i);
            }
            lemma_reachable_step(edges, start, n, i);
            assert forall|j: int| 0 <= j < stack1.len() implies reachable(
                edges,
                start,
                (#[trigger] stack1[j]).0,
            ) && (#[trigger] stack1[j]).1 >= 0 by {
                if j < stack.len() - 1 {
                    assert(stack1[j] == stack[j]);
                } else if j == stack.len() - 1 {
                    assert(stack1[j].0 == n && stack1[j].1 == i + 1);
                } else {
                    assert(stack1[j].0 == d && stack1[j].1 == 0);
                }
            }
            lemma_dfs_run_sound(edges, stack1, st1, start);
            lemma_dfs_run_mono(edges, stack1, st1);
            let r = dfs_run(edges, stack, st);
            assert(r == dfs_run(edges, stack1, st1));
            assert(st1.order == st.order.push(d));
            assert(r.order.take(st1.order.len() as int) == st1.order);
            assert(r.order.take(st1.order.len() as int)[st.order.len() as int] == st1.order[st.order.len() as int]);
            assert(r.order[st.order.len() as int] == d);
            assert forall|j: int| st.order.len() <= j < r.order.len() implies reachable(
                edges,
                start,
                #[trigger] r.order[j],
            ) by {
                if j == st.order.len() as int {
                    assert(r.order[j] == d);
                } else {
                    assert(st1.order.len() <= j < r.order.len());
                }
            }
        } else {
            let stack1 = stack.drop_last().push((n, i + 1));
            lemma_stack_weight_push(edges.len() as int, stack.drop_last(), (n, i + 1));
            assert forall|j: int| 0 <= j < stack1.len() implies reachable(
                edges,
                start,
                (#[trigger] stack1[j]).0,
            ) && (#[trigger] stack1[j]).1 >= 0 by {
                if j < stack.len() - 1 {
                    assert(stack1[j] == stack[j]);
                } else {
                    assert(stack1[j].0 == n && stack1[j].1 == i + 1);
                    assert(stack[stack.len() - 1].0 == n);
                    assert(stack[stack.len() - 1].1 == i);
                }
            }
            lemma_dfs_run_sound(edges, stack1, st, start);
            assert(dfs_run(edges, stack, st) == dfs_run(edges, stack1, st));
        }
    }
}

/// The destinations of the first `upto` edges leaving `m` are all visited.
pub open spec fn edges_processed(
    edges: Seq<EdgeRec>,
    visited: Seq<bool>,
    m: usize,
    upto: int,
) -> bool {
    forall|e: int|
        0 <= e < upto && e < edges.len() && (#[trigger] edges[e]).src == m && edges[e].dst
            < visited.len() ==> visited[edges[e].dst as int]
}

/// The destinations of all edges leaving `m` are visited.
pub open spec fn node_done(edges: Seq<EdgeRec>, visited: Seq<bool>, m: usize) -> bool {
    edges_processed(edges, visited, m, edges.len() as int)
}

/// Every visited node is either fully processed or has a frame recording how
/// far its outgoing edges have been examined.
spec fn dfs_inv(edges: Seq<EdgeRec>, visited: Seq<bool>, stack: Seq<(usize, int)>) -> bool {
    forall|k: int|
        0 <= k < visited.len() && (#[trigger] visited[k]) ==> node_done(edges, visited, k as usize)
            || exists|j: int|
            0 <= j < stack.len() && (#[trigger] stack[j]).0 == k as usize && edges_processed(
                edges,
                visited,
                k as usize,
                stack[j].1,
            )
}

/// When the traversal finishes, every visited node is fully processed: all
/// its successors are visited too.
proof fn lemma_dfs_run_closed(edges: Seq<EdgeRec>, stack: Seq<(usize, int)>, st: DfsState)
    requires
        st.visited.len() <= usize::MAX,
        forall|j: int| 0 <= j < stack.len() ==> (#[trigger] stack[j]).1 >= 0,
        dfs_inv(edges, st.visited, stack),
    ensures
        ({
            let r = dfs_run(edges, stack, st);
            forall|k: int|
                0 <= k < r.visited.len() && (#[trigger] r.visited[k]) ==> node_done(
                    edges,
                    r.visited,
                    k as usize,
                )
        }),
    decreases st.visited.len() - count_visited(st.visited),
        stack_weight(edges.len() as int, stack),
        stack.len(),
{
    lemma_count_bounds(st.visited);
    lemma_stack_weight_nonneg(edges.len() as int, stack);
    if stack.len() == 0 {
    } else {
        let n = stack.last().0;
        let i = stack.last().1;
        lemma_stack_weight_nonneg(edges.len() as int, stack.drop_last());
        if i >= edges.len() {
            assert(dfs_inv(edges, st.visited, stack.drop_last())) by {
                assert forall|k: int|
                    0 <= k < st.visited.len() && (#[trigger] st.visited[k]) implies node_done(
                    edges,
                    st.visited,
                    k as usize,
                ) || exists|j: int|
                    0 <= j < stack.drop_last().len() && (#[trigger] stack.drop_last()[j]).0 == k
                        as usize && edges_processed(
                        edges,
                        st.visited,
                        k as usize,
                        stack.drop_last()[j].1,
                    ) by {
                    if !node_done(edges, st.visited, k as usize) {
                        let j = choose|j: int|
                            0 <= j < stack.len() && (#[trigger] stack[j]).0 == k as usize
                                && edges_processed(edges, st.visited, k as usize, stack[j].1);
                        if j == stack.len() - 1 {
                            assert(edges_processed(edges, st.visited, k as usize, i));
                            assert(node_done(edges, st.visited, k as usize));
                        } else {
                            assert(stack.drop_last()[j] == stack[j]);
                        }
                    }
                }
            }
            assert forall|j: int| 0 <= j < stack.drop_last().len() implies (#[trigger] stack.drop_last()[
                j
            ]).1 >= 0 by {
                assert(stack.drop_last()[j] == stack[j]);
            }
            lemma_dfs_run_closed(edges, stack.drop_last(), st);
            assert(dfs_run(edges, stack, st) == dfs_run(edges, stack.drop_last(), st));
        } else if edges[i as int].src == n && edges[i as int].dst < st.visited.len()
            && !st.visited[edges[i as int].dst as int] {
            let d = edges[i as int].dst;
            let st1 = mark(st, d);
            let stack1 = stack.drop_last().push((n, i + 1)).push((d, 0int));
            lemma_count_update_true(st.visited, d as int);
            lemma_count_bounds(st1.visited);
            lemma_stack_weight_push(edges.len() as int, stack.drop_last(), (n, i + 1));
            lemma_stack_weight_push(
                edges.len() as int,
                stack.drop_last().push((n, i + 1)),
                (d, 0int),
            );
            assert(dfs_inv(edges, st1.visited, stack1)) by {
                assert forall|k: int|
                    0 <= k < st1.visited.len() && (#[trigger] st1.visited[k]) implies node_done(
                    edges,
                    st1.visited,
                    k as usize,
                ) || exists|j: int|
                    0 <= j < stack1.len() && (#[trigger] stack1[j]).0 == k as usize
                        && edges_processed(edges, st1.visited, k as usize, stack1[j].1) by {
                    if k == d as int {
                        assert(stack1[stack1.len() - 1].0 == d);
                        assert(edges_processed(edges, st1.visited, d, 0));
                    } else {
                        assert(st.visited[k]);
                        if !node_done(edges, st.visited, k as usize) {
                            let j = choose|j: int|
                                0 <= j < stack.len() && (#[trigger] stack[j]).0 == k as usize
                                    && edges_processed(edges, st.visited, k as usize, stack[j].1);
                            if j == stack.len() - 1 {
                                assert(stack1[stack.len() - 1].0 == n);
                                assert(edges_processed(edges, st1.visited, k as usize, i + 1));
                            } else {
                                assert(stack1[j] == stack[j]);
                                assert(edges_processed(edges, st1.visited, k as usize, stack[j].1));
                            }
                        } else {
                            assert(node_done(edges, st1.visited, k as usize));
                        }
                    }
                }
            }
            assert forall|j: int| 0 <= j < stack1.len() implies (#[trigger] stack1[j]).1 >= 0 by {
                if j < stack.len() - 1 {
                    assert(stack1[j] == stack[j]);
                } else if j == stack.len() - 1 {
                    assert(stack1[j].1 == i + 1);
                    assert(stack[stack.len() - 1].1 == i);
                } else {
                    assert(stack1[j].1 == 0);
                }
            }
            lemma_dfs_run_closed(edges, stack1, st1);
            assert(dfs_run(edges, stack, st) == dfs_run(edges, stack1, st1));
        } else {
            let stack1 = stack.drop_last().push((n, i + 1));
            lemma_stack_weight_push(edges.len() as int, stack.drop_last(), (n, i + 1));
            assert(dfs_inv(edges, st.visited, stack1)) by {
                assert forall|k: int|
                    0 <= k < st.visited.len() && (#[trigger] st.visited[k]) implies node_done(
                    edges,
                    st.visited,
                    k as usize,
                ) || exists|j: int|
                    0 <= j < stack1.len() && (#[trigger] stack1[j]).0 == k as usize
                        && edges_processed(edges, st.visited, k as usize, stack1[j].1) by {
                    if !node_done(edges, st.visited, k as usize) {
                        let j = choose|j: int|
                            0 <= j < stack.len() && (#[trigger] stack[j]).0 == k as usize
                                && edges_processed(edges, st.visited, k as usize, stack[j].1);
                        if j == stack.len() - 1 {
                            assert(stack1[stack1.len() - 1].0 == n);
                            assert(edges_processed(edges, st.visited, k as usize, i + 1));
                        } else {
                            assert(stack1[j] == stack[j]);
                        }
                    }
                }
            }
            assert forall|j: int| 0 <= j < stack1.len() implies (#[trigger] stack1[j]).1 >= 0 by {
                if j < stack.len() - 1 {
                    assert(stack1[j] == stack[j]);
                } else {
                    assert(stack1[j].1 == i + 1);
                    assert(stack[stack.len() - 1].1 == i);
                }
            }
            lemma_dfs_run_closed(edges, stack1, st);
            assert(dfs_run(edges, stack, st) == dfs_run(edges, stack1, st));
        }
    }
}

/// In a fully processed visited set, a path starting at a visited node ends
/// at a visited node.
proof fn lemma_path_visited(edges: Seq<EdgeRec>, visited: Seq<bool>, p: Seq<usize>)
    requires
        is_path(edges, p),
        p.len() >= 1,
        p[0] < visited.len(),
        visited[p[0] as int],
        forall|k: int|
            0 <= k < visited.len() && (#[trigger] visited[k]) ==> node_done(
                edges,
                visited,
                k as usize,
            ),
        forall|e: int| 0 <= e < edges.len() ==> (#[trigger] edges[e]).dst < visited.len(),
    ensures
        p.last() < visited.len() && visited[p.last() as int],
    decreases p.len(),
{
    if p.len() == 1 {
    } else {
        let e = choose|e: int|
            0 <= e < edges.len() && (#[trigger] edges[e]).src == p[0] && edges[e].dst == p[1];
        assert(node_done(edges, visited, p[0]));
        assert(visited[p[1] as int]);
        let q = p.skip(1);
        assert forall|k: int| 0 <= k < q.len() - 1 implies exists|e2: int|
            0 <= e2 < edges.len() && (#[trigger] edges[e2]).src == (#[trigger] q[k]) && edges[
                e2
            ].dst == q[k + 1] by {
            assert(q[k] == p[k + 1] && q[k + 1] == p[k + 2]);
            assert(exists|e2: int|
                0 <= e2 < edges.len() && (#[trigger] edges[e2]).src == p[k + 1] && edges[e2].dst
                    == p[k + 2]);
        }
        assert(q.last() == p.last());
        lemma_path_visited(edges, visited, q);
    }
}

/// Push traversal law: the push order from `start` lists exactly the nodes
/// reachable from `start` along outgoing edges, each exactly once.
pub proof fn lemma_push_order_reaches(nodes_len: nat, edges: Seq<EdgeRec>, start: usize)
    requires
        start < nodes_len,
        nodes_len <= usize::MAX,
        forall|e: int|
            0 <= e < edges.len() ==> (#[trigger] edges[e]).src < nodes_len && edges[e].dst
                < nodes_len,
    ensures
        ({
            let order = push_order(nodes_len, edges, start);
            &&& forall|m: usize| #[trigger] order.contains(m) <==> reachable(edges, start, m)
            &&& forall|j1: int, j2: int|
                0 <= j1 < j2 < order.len() ==> #[trigger] order[j1] != #[trigger] order[j2]
            &&& forall|j: int| 0 <= j < order.len() ==> (#[trigger] order[j]) < nodes_len
        }),
{
    let st0 = mark(initial_state(nodes_len), start);
    let stack0 = seq![(start, 0int)];
    let r = dfs_run(edges, stack0, st0);
    let order = push_order(nodes_len, edges, start);
    assert(order == r.order);
    lemma_dfs_run_mono(edges, stack0, st0);
    assert forall|j: int| 0 <= j < stack0.len() implies (#[trigger] stack0[j]).1 >= 0 by {
        assert(stack0[j].1 == 0);
    }
    assert(st0.order == Seq::<usize>::empty().push(start));
    assert(st0.order[0] == start);
    assert(r.order.take(st0.order.len() as int)[0] == st0.order[0]);
    assert(r.order[0] == start);
    lemma_reachable_refl(edges, start);
    assert forall|j: int| 0 <= j < stack0.len() implies reachable(
        edges,
        start,
        (#[trigger] stack0[j]).0,
    ) by {
        assert(stack0[j].0 == start);
    }
    lemma_dfs_run_sound(edges, stack0, st0, start);
    assert(dfs_inv(edges, st0.visited, stack0)) by {
        assert forall|k: int|
            0 <= k < st0.visited.len() && (#[trigger] st0.visited[k]) implies node_done(
            edges,
            st0.visited,
            k as usize,
        ) || exists|j: int|
            0 <= j < stack0.len() && (#[trigger] stack0[j]).0 == k as usize && edges_processed(
                edges,
                st0.visited,
                k as usize,
                stack0[j].1,
            ) by {
            assert(k == start as int);
            assert(stack0[0].0 == start);
            assert(edges_processed(edges, st0.visited, start, 0));
        }
    }
    lemma_dfs_run_closed(edges, stack0, st0);

    // Each appended identifier is reachable; each reachable identifier is
    // visited, and visited exactly means listed in the order.
    assert forall|m: usize| #[trigger] order.contains(m) implies reachable(edges, start, m) by {
        let j = choose|j: int| 0 <= j < order.len() && order[j] == m;
        if j == 0 {
            assert(m == start);
        } else {
            assert(st0.order.len() <= j < r.order.len());
        }
    }
    assert forall|m: usize| reachable(edges, start, m) implies #[trigger] order.contains(m) by {
        let p = choose|p: Seq<usize>| #[trigger] is_path(edges, p) && p.len() >= 1 && p[0] == start
            && p.last() == m;
        lemma_path_visited(edges, r.visited, p);
        assert(r.visited[m as int]);
        assert(st0.visited[m as int] || r.order.skip(st0.order.len() as int).contains(m));
        if st0.visited[m as int] {
            assert(m == start);
            assert(order[0] == start);
        } else {
            let w = choose|w: int|
                0 <= w < r.order.skip(1).len() && #[trigger] r.order.skip(1)[w] == m;
            assert(order[w + 1] == m);
        }
    }
    assert forall|j1: int, j2: int| 0 <= j1 < j2 < order.len() implies #[trigger] order[j1]
        != #[trigger] order[j2] by {
        if j1 == 0 {
            assert(order[j1] == start);
            assert(st0.order.len() <= j2 < r.order.len());
            assert(!st0.visited[order[j2] as int]);
        }
    }
    assert forall|j: int| 0 <= j < order.len() implies (#[trigger] order[j]) < nodes_len by {
        if j > 0 {
            assert(st0.order.len() <= j < r.order.len());
        }
    }
}

/// An argument to a node's generated call: the producing node, the producing
/// output, and whether using the value here requires cloning it.
#[derive(Copy, Clone, Debug, PartialEq, Eq, Hash, Structural)]
pub struct ExprInput {
    /// The node from which the value was generated.
    pub node: usize,
    /// The output on the source node associated with the generated value.
    pub output: Output,
    /// Whether or not using the value in this argument requires cloning.
    pub requires_clone: bool,
}

impl View for ExprInput {
    type V = ExprInput;

    open spec fn view(&self) -> ExprInput {
        *self
    }
}

impl DeepView for ExprInput {
    type V = ExprInput;

    open spec fn deep_view(&self) -> ExprInput {
        *self
    }
}

/// An evaluation step, ready for translation to code: the node to evaluate
/// and one argument slot per declared input, each either unconnected or
/// resolved to a producer.
#[derive(Clone, Debug, PartialEq, Eq)]
pub struct EvalStep {
    /// The node to be evaluated.
    pub node: usize,
    /// Arguments to the node's generated call; the length always equals the
    /// node's declared input arity.
    pub args: Vec<Option<ExprInput>>,
}

/// The mathematical value of an [`EvalStep`].
pub struct EvalStepView {
    pub node: usize,
    pub args: Seq<Option<ExprInput>>,
}

impl View for EvalStep {
    type V = EvalStepView;

    open spec fn view(&self) -> EvalStepView {
        EvalStepView { node: self.node, args: self.args.deep_view() }
    }
}

impl DeepView for EvalStep {
    type V = EvalStepView;

    open spec fn deep_view(&self) -> EvalStepView {
        self.view()
    }
}

/// Whether the edge at `ei` must deliver a clone: some later-enumerated edge
/// shares its source output, so this consumer cannot take the value itself.
pub open spec fn requires_clone_spec(edges: Seq<EdgeRec>, ei: int) -> bool {
    exists|j: int|
        ei < j < edges.len() && (#[trigger] edges[j]).src == edges[ei].src && edges[j].edge.output
            == edges[ei].edge.output
}

/// The index of the last edge before position `upto` entering input `slot`
/// of node `m`, if any: of several edges into one slot, the last enumerated
/// silently wins.
pub open spec fn last_writer(edges: Seq<EdgeRec>, m: usize, slot: u32, upto: int) -> Option<int>
    decreases upto,
{
    if upto <= 0 {
        None
    } else if upto <= edges.len() && edges[upto - 1].dst == m && edges[upto - 1].edge.input.0
        == slot {
        Some(upto - 1)
    } else {
        last_writer(edges, m, slot, upto - 1)
    }
}

/// What fills input `slot` of node `m`, counting only edges before `upto`
/// for the choice of producer, while clone flags are judged against the full
/// edge list.
pub open spec fn slot_spec_upto(edges: Seq<EdgeRec>, m: usize, slot: u32, upto: int) -> Option<
    ExprInput,
> {
    match last_writer(edges, m, slot, upto) {
        None => None,
        Some(ei) => Some(
            ExprInput {
                node: edges[ei].src,
                output: edges[ei].edge.output,
                requires_clone: requires_clone_spec(edges, ei),
            },
        ),
    }
}

/// What fills input `slot` of node `m`.
pub open spec fn slot_spec(edges: Seq<EdgeRec>, m: usize, slot: u32) -> Option<ExprInput> {
    slot_spec_upto(edges, m, slot, edges.len() as int)
}

/// The argument slots of node `m` with `n_in` declared inputs, one per
/// input. An edge addressing an input at or beyond `n_in` is ignored, so a
/// node with no declared inputs always receives an empty argument list,
/// whatever incoming edges were attached to it.
pub open spec fn step_args_upto(edges: Seq<EdgeRec>, m: usize, n_in: nat, upto: int) -> Seq<
    Option<ExprInput>,
> {
    Seq::new(n_in, |s: int| slot_spec_upto(edges, m, s as u32, upto))
}

/// The evaluation step for node `m`.
pub open spec fn step_view(nodes: Seq<NodeKindView>, edges: Seq<EdgeRec>, m: usize) -> EvalStepView {
    EvalStepView {
        node: m,
        args: step_args_upto(
            edges,
            m,
            if (m as int) < nodes.len() {
                nodes[m as int].n_inputs() as nat
            } else {
                0
            },
            edges.len() as int,
        ),
    }
}

/// The evaluation steps for a visit order.
pub open spec fn steps_spec(
    nodes: Seq<NodeKindView>,
    edges: Seq<EdgeRec>,
    order: Seq<usize>,
) -> Seq<EvalStepView> {
    order.map_values(|m: usize| step_view(nodes, edges, m))
}

/// The evaluation steps a push traversal from `start` produces.
pub open spec fn push_steps_spec(
    nodes: Seq<NodeKindView>,
    edges: Seq<EdgeRec>,
    start: usize,
) -> Seq<EvalStepView> {
    steps_spec(nodes, edges, push_order(nodes.len(), edges, start))
}

/// Argument-slot law: every evaluation step carries exactly as many argument
/// slots as its node declares inputs — and so a node with no declared inputs
/// always receives an empty argument list, regardless of any incorrectly
/// attached incoming edges.
pub proof fn lemma_steps_arity(nodes: Seq<NodeKindView>, edges: Seq<EdgeRec>, start: usize)
    requires
        start < nodes.len(),
        nodes.len() <= usize::MAX,
        forall|e: int|
            0 <= e < edges.len() ==> (#[trigger] edges[e]).src < nodes.len() && edges[e].dst
                < nodes.len(),
    ensures
        ({
            let steps = push_steps_spec(nodes, edges, start);
            forall|k: int|
                0 <= k < steps.len() ==> (#[trigger] steps[k]).node < nodes.len() && steps[
                    k
                ].args.len() == nodes[steps[k].node as int].n_inputs()
        }),
{
    lemma_push_order_reaches(nodes.len(), edges, start);
    let order = push_order(nodes.len(), edges, start);
    let steps = push_steps_spec(nodes, edges, start);
    assert forall|k: int| 0 <= k < steps.len() implies (#[trigger] steps[k]).node < nodes.len()
        && steps[k].args.len() == nodes[steps[k].node as int].n_inputs() by {
        assert(steps[k] == step_view(nodes, edges, order[k]));
        assert(order[k] < nodes.len());
    }
}

/// The indices before `upto` of the edges leaving output `o` of node `s`, in
/// enumeration order.
pub open spec fn output_group(edges: Seq<EdgeRec>, s: usize, o: Output, upto: int) -> Seq<int>
    decreases upto,
{
    if upto <= 0 {
        Seq::empty()
    } else if upto <= edges.len() && edges[upto - 1].src == s && edges[upto - 1].edge.output == o {
        output_group(edges, s, o, upto - 1).push(upto - 1)
    } else {
        output_group(edges, s, o, upto - 1)
    }
}

proof fn lemma_output_group_props(edges: Seq<EdgeRec>, s: usize, o: Output, upto: int)
    requires
        upto <= edges.len(),
    ensures
        ({
            let g = output_group(edges, s, o, upto);
            &&& forall|w: int|
                0 <= w < g.len() ==> 0 <= (#[trigger] g[w]) < upto && edges[g[w]].src == s
                    && edges[g[w]].edge.output == o
            &&& forall|w1: int, w2: int|
                0 <= w1 < w2 < g.len() ==> #[trigger] g[w1] < #[trigger] g[w2]
            &&& forall|j: int|
                0 <= j < upto && (#[trigger] edges[j]).src == s && edges[j].edge.output == o
                    ==> g.contains(j)
        }),
    decreases upto,
{
    if upto > 0 {
        lemma_output_group_props(edges, s, o, upto - 1);
        let g0 = output_group(edges, s, o, upto - 1);
        let g = output_group(edges, s, o, upto);
        if upto <= edges.len() && edges[upto - 1].src == s && edges[upto - 1].edge.output == o {
            assert forall|j: int|
                0 <= j < upto && (#[trigger] edges[j]).src == s && edges[j].edge.output == o
                    implies g.contains(j) by {
                if j < upto - 1 {
                    let w = choose|w: int| 0 <= w < g0.len() && g0[w] == j;
                    assert(g[w] == j);
                } else {
                    assert(g[g.len() - 1] == j);
                }
            }
        } else {
            assert forall|j: int|
                0 <= j < upto && (#[trigger] edges[j]).src == s && edges[j].edge.output == o
                    implies g.contains(j) by {
                assert(j != upto - 1);
                let w = choose|w: int| 0 <= w < g0.len() && g0[w] == j;
                assert(g[w] == j);
            }
        }
    }
}

/// Clone-flag law: of the `k` edges leaving one source output, listed in
/// enumeration order, exactly the first `k - 1` require a clone and the last
/// does not; in particular a single-consumer output is never flagged.
pub proof fn lemma_clone_flag_law(edges: Seq<EdgeRec>, s: usize, o: Output)
    ensures
        ({
            let g = output_group(edges, s, o, edges.len() as int);
            forall|w: int|
                0 <= w < g.len() ==> (requires_clone_spec(edges, #[trigger] g[w]) <==> w < g.len()
                    - 1)
        }),
{
    lemma_output_group_props(edges, s, o, edges.len() as int);
    let g = output_group(edges, s, o, edges.len() as int);
    assert forall|w: int| 0 <= w < g.len() implies (requires_clone_spec(edges, #[trigger] g[w])
        <==> w < g.len() - 1) by {
        if w < g.len() - 1 {
            assert(g[w] < g[w + 1] < edges.len());
            assert(edges[g[w + 1]].src == s && edges[g[w + 1]].edge.output == o);
            assert(edges[g[w]].src == s && edges[g[w]].edge.output == o);
            assert(requires_clone_spec(edges, g[w]));
        } else {
            if requires_clone_spec(edges, g[w]) {
                let j = choose|j: int|
                    g[w] < j < edges.len() && (#[trigger] edges[j]).src == edges[g[w]].src && edges[
                        j
                    ].edge.output == edges[g[w]].edge.output;
                assert(g.contains(j));
                let w2 = choose|w2: int| 0 <= w2 < g.len() && g[w2] == j;
                assert(w2 > w);
                assert(false);
            }
        }
    }
}

/// The exec traversal stack, as the ghost frame stack it stands for.
pub open spec fn stack_view(s: Seq<(usize, usize)>) -> Seq<(usize, int)> {
    s.map_values(|f: (usize, usize)| (f.0, f.1 as int))
}

/// Extend a traversal by one seed: if the seed is unvisited, mark it and
/// walk depth-first from it; otherwise leave the state unchanged.
pub fn traverse_from(
    edges: &Vec<EdgeRec>,
    visited: &mut Vec<bool>,
    order: &mut Vec<usize>,
    start: usize,
)
    requires
        start < old(visited)@.len(),
    ensures
        final(visited)@.len() == old(visited)@.len(),
        ({
            let st0 = DfsState { visited: old(visited)@, order: old(order)@ };
            let st1 = DfsState { visited: final(visited)@, order: final(order)@ };
            st1 == if !old(visited)@[start as int] {
                dfs_run(edges@, seq![(start, 0int)], mark(st0, start))
            } else {
                st0
            }
        }),
{
    if visited[start] {
        return;
    }
    let ghost st0 = mark(DfsState { visited: old(visited)@, order: old(order)@ }, start);
    let ghost target = dfs_run(edges@, seq![(start, 0int)], st0);
    let nn = visited.len();
    let mut stack: Vec<(usize, usize)> = Vec::new();
    visited.set(start, true);
    order.push(start);
    stack.push((start, 0));
    proof {
        assert(visited@ =~= st0.visited);
        assert(order@ =~= st0.order);
        assert(stack_view(stack@) =~= seq![(start, 0int)]);
    }

    while stack.len() > 0
        invariant
            visited@.len() == nn,
            dfs_run(edges@, stack_view(stack@), DfsState { visited: visited@, order: order@ })
                == target,
        decreases visited@.len() - count_visited(visited@),
            stack_weight(edges@.len() as int, stack_view(stack@)),
            stack@.len(),
    {
        let ghost pre_stack = stack_view(stack@);
        let ghost pre_st = DfsState { visited: visited@, order: order@ };
        proof {
            lemma_count_bounds(visited@);
            lemma_stack_weight_nonneg(edges@.len() as int, pre_stack);
            lemma_stack_weight_nonneg(edges@.len() as int, pre_stack.drop_last());
        }
        let top = stack[stack.len() - 1];
        let cn = top.0;
        let ci = top.1;
        stack.pop();
        proof {
            assert(pre_stack.last() == (cn, ci as int));
            assert(stack_view(stack@) =~= pre_stack.drop_last());
        }
        if ci >= edges.len() {
            proof {
                assert(dfs_run(edges@, pre_stack, pre_st) == dfs_run(
                    edges@,
                    pre_stack.drop_last(),
                    pre_st,
                ));
            }
        } else {
            let e = edges[ci];
            proof {
                assert(e == edges@[ci as int]);
            }
            if e.src == cn && e.dst < nn && !visited[e.dst] {
                stack.push((cn, ci + 1));
                stack.push((e.dst, 0));
                visited.set(e.dst, true);
                order.push(e.dst);
                proof {
                    lemma_count_update_true(pre_st.visited, e.dst as int);
                    lemma_stack_weight_push(
                        edges@.len() as int,
                        pre_stack.drop_last(),
                        (cn, ci + 1),
                    );
                    lemma_stack_weight_push(
                        edges@.len() as int,
                        pre_stack.drop_last().push((cn, ci + 1)),
                        (e.dst, 0int),
                    );
                    assert(stack_view(stack@) =~= pre_stack.drop_last().push((cn, ci + 1)).push(
                        (e.dst, 0int),
                    ));
                    assert(DfsState { visited: visited@, order: order@ } == mark(pre_st, e.dst));
                    assert(dfs_run(edges@, pre_stack, pre_st) == dfs_run(
                        edges@,
                        stack_view(stack@),
                        mark(pre_st, e.dst),
                    ));
                }
            } else {
                stack.push((cn, ci + 1));
                proof {
                    lemma_stack_weight_push(
                        edges@.len() as int,
                        pre_stack.drop_last(),
                        (cn, ci + 1),
                    );
                    assert(stack_view(stack@) =~= pre_stack.drop_last().push((cn, ci + 1)));
                    assert(dfs_run(edges@, pre_stack, pre_st) == dfs_run(
                        edges@,
                        stack_view(stack@),
                        pre_st,
                    ));
                }
            }
        }
        proof {
            lemma_count_bounds(visited@);
            lemma_stack_weight_nonneg(edges@.len() as int, stack_view(stack@));
        }
    }
    proof {
        assert(stack_view(stack@) =~= Seq::<(usize, int)>::empty());
        assert(dfs_run(edges@, stack_view(stack@), DfsState { visited: visited@, order: order@ })
            == DfsState { visited: visited@, order: order@ });
    }
}

/// Run the traversal from each seed in turn over one shared state.
pub open spec fn seed_run(edges: Seq<EdgeRec>, starts: Seq<usize>, st: DfsState) -> DfsState
    decreases starts.len(),
{
    if starts.len() == 0 {
        st
    } else {
        let st1 = if starts[0] < st.visited.len() && !st.visited[starts[0] as int] {
            dfs_run(edges, seq![(starts[0], 0int)], mark(st, starts[0]))
        } else {
            st
        };
        seed_run(edges, starts.skip(1), st1)
    }
}

/// The order in which a traversal seeded at each listed node in turn visits
/// nodes.
pub open spec fn multi_order(nodes_len: nat, edges: Seq<EdgeRec>, starts: Seq<usize>) -> Seq<
    usize,
> {
    seed_run(edges, starts, initial_state(nodes_len)).order
}

/// Seeded traversals grow the state the same way single walks do: the order
/// is extended by fresh identifiers only, none twice.
pub proof fn lemma_seed_run_mono(edges: Seq<EdgeRec>, starts: Seq<usize>, st: DfsState)
    requires
        st.visited.len() <= usize::MAX,
    ensures
        ({
            let r = seed_run(edges, starts, st);
            &&& r.visited.len() == st.visited.len()
            &&& st.order.len() <= r.order.len()
            &&& r.order.take(st.order.len() as int) == st.order
            &&& forall|j: int|
                st.order.len() <= j < r.order.len() ==> (#[trigger] r.order[j]) < st.visited.len()
                    && !st.visited[r.order[j] as int]
            &&& forall|j1: int, j2: int|
                st.order.len() <= j1 < j2 < r.order.len() ==> #[trigger] r.order[j1]
                    != #[trigger] r.order[j2]
        }),
    decreases starts.len(),
{
    if starts.len() > 0 {
        let st1 = if starts[0] < st.visited.len() && !st.visited[starts[0] as int] {
            dfs_run(edges, seq![(starts[0], 0int)], mark(st, starts[0]))
        } else {
            st
        };
        if starts[0] < st.visited.len() && !st.visited[starts[0] as int] {
            lemma_dfs_run_mono(edges, seq![(starts[0], 0int)], mark(st, starts[0]));
            assert(mark(st, starts[0]).order == st.order.push(starts[0]));
            assert(st1.order.take(st.order.len() as int + 1) == mark(st, starts[0]).order);
            assert(st1.order.take(st.order.len() as int + 1)[st.order.len() as int] == starts[0]);
            assert(st1.order[st.order.len() as int] == starts[0]);
            assert(st1.order.take(st.order.len() as int) =~= st.order);
        }
        lemma_seed_run_mono(edges, starts.skip(1), st1);
        let r = seed_run(edges, starts, st);
        assert(r == seed_run(edges, starts.skip(1), st1));
        assert forall|j: int| st.order.len() <= j < r.order.len() implies (#[trigger] r.order[j])
            < st.visited.len() && !st.visited[r.order[j] as int] by {
            if j < st1.order.len() {
                assert(r.order[j] == st1.order[j]);
            }
        }
        assert forall|i: int| 0 <= i < st.order.len() implies r.order[i] == st.order[i] by {
            assert(r.order.take(st1.order.len() as int)[i] == st1.order[i]);
            assert(st1.order.take(st.order.len() as int)[i] == st.order[i]);
        }
        assert(r.order.take(st.order.len() as int) =~= st.order);
        assert forall|j1: int, j2: int|
            st.order.len() <= j1 < j2 < r.order.len() implies #[trigger] r.order[j1]
            != #[trigger] r.order[j2] by {
            let seeded = starts[0] < st.visited.len() && !st.visited[starts[0] as int];
            if j2 < st1.order.len() {
                assert(seeded);
                let m0 = mark(st, starts[0]);
                assert(r.order.take(st1.order.len() as int)[j1] == st1.order[j1]);
                assert(r.order.take(st1.order.len() as int)[j2] == st1.order[j2]);
                if j1 == st.order.len() {
                    assert(st1.order[j1] == starts[0]);
                    assert(m0.order.len() <= j2 < st1.order.len());
                    assert(!m0.visited[st1.order[j2] as int]);
                    assert(m0.visited[starts[0] as int]);
                }
            } else if j1 < st1.order.len() {
                assert(seeded);
                let m0 = mark(st, starts[0]);
                assert(r.order.take(st1.order.len() as int)[j1] == st1.order[j1]);
                assert(!st1.visited[r.order[j2] as int]);
                if j1 == st.order.len() {
                    assert(st1.order[j1] == starts[0]);
                    assert(m0.visited[starts[0] as int]);
                    assert(st1.visited[starts[0] as int]);
                } else {
                    let w = j1 - m0.order.len();
                    assert(st1.order.skip(m0.order.len() as int)[w] == st1.order[j1]);
                    assert(st1.order.skip(m0.order.len() as int).contains(st1.order[j1]));
                    assert(st1.visited[st1.order[j1] as int]);
                }
            }
        }
    }
}

/// The evaluation steps for the nodes of a visit order: one step per entry,
/// with one argument slot per declared input.
pub fn steps_for_order(kinds: &Vec<NodeKind>, edges: &Vec<EdgeRec>, order: &Vec<usize>) -> (r: Vec<
    EvalStep,
>)
    requires
        forall|j: int| 0 <= j < order@.len() ==> (#[trigger] order@[j]) < kinds.deep_view().len(),
    ensures
        r.deep_view() == steps_spec(kinds.deep_view(), edges@, order@),
{
    let ghost nodes_v = kinds.deep_view();
    let ghost order_v = order@;
    let mut steps: Vec<EvalStep> = Vec::new();
    let mut k: usize = 0;
    while k < order.len()
        invariant
            k <= order.len(),
            order@ == order_v,
            kinds.deep_view() == nodes_v,
            forall|j: int| 0 <= j < order_v.len() ==> (#[trigger] order_v[j]) < nodes_v.len(),
            steps.deep_view() =~= steps_spec(nodes_v, edges@, order_v.take(k as int)),
        decreases order.len() - k,
    {
        let m = order[k];
        let n_in = kinds[m].n_inputs();
        proof {
            assert(kinds.deep_view()[m as int] == nodes_v[m as int]);
        }
        let mut args: Vec<Option<ExprInput>> = vec![None; n_in as usize];
        proof {
            assert forall|s: int| 0 <= s < n_in as usize implies args@[s] == slot_spec_upto(
                edges@,
                m,
                s as u32,
                0,
            ) by {
                assert(args@[s] is None);
            }
        }
        let mut ei: usize = 0;
        while ei < edges.len()
            invariant
                ei <= edges.len(),
                args@.len() == n_in as usize,
                forall|s: int|
                    0 <= s < n_in as usize ==> #[trigger] args@[s] == slot_spec_upto(
                        edges@,
                        m,
                        s as u32,
                        ei as int,
                    ),
            decreases edges.len() - ei,
        {
            let e = edges[ei];
            proof {
                assert(e == edges@[ei as int]);
            }
            if e.dst == m && e.edge.input.0 < n_in {
                let mut flag = false;
                let mut j = ei + 1;
                while j < edges.len()
                    invariant
                        ei < j <= edges.len(),
                        e == edges@[ei as int],
                        flag == exists|jj: int|
                            ei < jj < j && (#[trigger] edges@[jj]).src == e.src && edges@[
                                jj
                            ].edge.output == e.edge.output,
                    decreases edges.len() - j,
                {
                    if edges[j].src == e.src && edges[j].edge.output == e.edge.output {
                        flag = true;
                        proof {
                            assert((edges@[j as int]).src == e.src && edges@[
                                j as int
                            ].edge.output == e.edge.output);
                        }
                    }
                    j = j + 1;
                }
                proof {
                    assert(flag == requires_clone_spec(edges@, ei as int));
                }
                let ghost args_pre = args@;
                args.set(
                    e.edge.input.0 as usize,
                    Some(ExprInput { node: e.src, output: e.edge.output, requires_clone: flag }),
                );
                proof {
                    assert forall|s: int| 0 <= s < n_in as usize implies #[trigger] args@[s]
                        == slot_spec_upto(edges@, m, s as u32, ei + 1) by {
                        if s == e.edge.input.0 as int {
                            assert(last_writer(edges@, m, s as u32, ei + 1) == Some(ei as int));
                        } else {
                            assert(last_writer(edges@, m, s as u32, ei + 1) == last_writer(
                                edges@,
                                m,
                                s as u32,
                                ei as int,
                            ));
                            assert(args@[s] == args_pre[s]);
                        }
                    }
                }
            } else {
                proof {
                    assert forall|s: int| 0 <= s < n_in as usize implies #[trigger] args@[s]
                        == slot_spec_upto(edges@, m, s as u32, ei + 1) by {
                        assert(last_writer(edges@, m, s as u32, ei + 1) == last_writer(
                            edges@,
                            m,
                            s as u32,
                            ei as int,
                        ));
                    }
                }
            }
            ei = ei + 1;
        }
        let ghost steps_pre = steps.deep_view();
        steps.push(EvalStep { node: m, args });
        proof {
            assert(steps.deep_view() =~= steps_pre.push(
                (EvalStep { node: m, args: args }).deep_view(),
            ));
            assert((EvalStep { node: m, args: args }).deep_view().args =~= step_view(
                nodes_v,
                edges@,
                m,
            ).args);
            assert((EvalStep { node: m, args: args }).deep_view() == step_view(
                nodes_v,
                edges@,
                m,
            ));
            assert(order_v.take(k + 1) =~= order_v.take(k as int).push(order_v[k as int]));
            assert(steps_spec(nodes_v, edges@, order_v.take(k + 1)) =~= steps_spec(
                nodes_v,
                edges@,
                order_v.take(k as int),
            ).push(step_view(nodes_v, edges@, order_v[k as int])));
        }
        k = k + 1;
    }
    proof {
        assert(order_v.take(order_v.len() as int) =~= order_v);
        assert(steps.deep_view() =~= steps_spec(nodes_v, edges@, order_v));
    }
    steps
}

/// Push evaluation from the specified node.
///
/// Produces the ordered evaluation steps for the node and its transitive
/// dependents; the order is standard depth-first preorder over outgoing
/// edges in insertion order.
pub fn push_eval_steps(g: &Graph, n: usize) -> (r: Vec<EvalStep>)
    requires
        g.wf(),
        n < g.nodes().len(),
    ensures
        r.deep_view() == push_steps_spec(g.nodes(), g.edges(), n),
        forall|k: int|
            0 <= k < r.deep_view().len() ==> (#[trigger] r.deep_view()[k]).node < g.nodes().len()
                && r.deep_view()[k].args.len() == g.nodes()[
                r.deep_view()[k].node as int
            ].n_inputs(),
{
    let ghost nodes_v = g.nodes();
    let kinds = g.node_list();
    let edges = g.edge_list();
    let nn = kinds.len();
    proof {
        assert(nn == nodes_v.len());
        lemma_push_order_reaches(nodes_v.len() as nat, g.edges(), n);
    }
    let mut visited: Vec<bool> = vec![false; nn];
    let mut order: Vec<usize> = Vec::new();
    proof {
        assert(visited@ =~= initial_state(nodes_v.len() as nat).visited);
        assert(order@ =~= initial_state(nodes_v.len() as nat).order);
        assert(DfsState { visited: visited@, order: order@ } == initial_state(
            nodes_v.len() as nat,
        ));
    }
    traverse_from(&edges, &mut visited, &mut order, n);
    proof {
        assert(order@ == push_order(nodes_v.len() as nat, g.edges(), n));
    }
    let steps = steps_for_order(&kinds, &edges, &order);
    proof {
        lemma_steps_arity(nodes_v, g.edges(), n);
    }
    steps
}

/// The identifiers below `upto` of nodes that declare a push entry, in
/// ascending order.
pub open spec fn push_ids(nodes: Seq<NodeKindView>, upto: int) -> Seq<usize>
    decreases upto,
{
    if upto <= 0 {
        Seq::empty()
    } else if upto <= nodes.len() && nodes[upto - 1].node_view().push_eval is Some {
        push_ids(nodes, upto - 1).push((upto - 1) as usize)
    } else {
        push_ids(nodes, upto - 1)
    }
}

/// The identifiers below `upto` of nodes that declare a pull entry, in
/// ascending order.
pub open spec fn pull_ids(nodes: Seq<NodeKindView>, upto: int) -> Seq<usize>
    decreases upto,
{
    if upto <= 0 {
        Seq::empty()
    } else if upto <= nodes.len() && nodes[upto - 1].node_view().pull_eval is Some {
        pull_ids(nodes, upto - 1).push((upto - 1) as usize)
    } else {
        pull_ids(nodes, upto - 1)
    }
}

/// The entry list `push_nodes` builds from the first `upto` identifiers:
/// one entry per node declaring a push entry, in order, carrying its
/// descriptor.
pub open spec fn pushes_ok_upto(
    nodes: Seq<NodeKindView>,
    pushes: Seq<(usize, EvalFn)>,
    upto: int,
) -> bool {
    let ids = push_ids(nodes, upto);
    &&& pushes.len() == ids.len()
    &&& forall|k: int|
        0 <= k < pushes.len() ==> (#[trigger] pushes[k]).0 == ids[k] && ids[k] < nodes.len()
            && pushes[k].1@ == nodes[ids[k] as int].node_view().push_eval.unwrap()
}

/// The identifiers of the nodes that require push evaluation, each with its
/// entry descriptor, in identifier order.
pub fn push_nodes(g: &Graph) -> (r: Vec<(usize, EvalFn)>)
    ensures
        pushes_ok_upto(g.nodes(), r@, g.nodes().len() as int),
{
    let ghost nodes_v = g.nodes();
    let kinds = g.node_list();
    let mut r: Vec<(usize, EvalFn)> = Vec::new();
    let mut m: usize = 0;
    while m < kinds.len()
        invariant
            m <= kinds.len(),
            kinds.deep_view() == nodes_v,
            nodes_v == g.nodes(),
            pushes_ok_upto(nodes_v, r@, m as int),
        decreases kinds.len() - m,
    {
        proof {
            assert(kinds.deep_view()[m as int] == nodes_v[m as int]);
        }
        let ghost r0 = r@;
        match kinds[m].push_eval() {
            Some(f) => {
                r.push((m, f));
            },
            None => {},
        }
        proof {
            let ids0 = push_ids(nodes_v, m as int);
            let ids1 = push_ids(nodes_v, m as int + 1);
            if nodes_v[m as int].node_view().push_eval is Some {
                assert(ids1 == ids0.push(m));
                assert forall|k: int| 0 <= k < r@.len() implies (#[trigger] r@[k]).0 == ids1[k]
                    && ids1[k] < nodes_v.len() && r@[k].1@ == nodes_v[
                    ids1[k] as int
                ].node_view().push_eval.unwrap() by {
                    if k < r0.len() {
                        assert(r@[k] == r0[k]);
                        assert(ids1[k] == ids0[k]);
                    } else {
                        assert(k == ids0.len());
                        assert(ids1[k] == m);
                    }
                }
            } else {
                assert(ids1 == ids0);
                assert(r@ == r0);
            }
        }
        m = m + 1;
    }
    proof {
        assert(m == nodes_v.len());
    }
    r
}

/// The entry list `pull_nodes` builds from the first `upto` identifiers.
pub open spec fn pulls_ok_upto(
    nodes: Seq<NodeKindView>,
    pulls: Seq<(usize, EvalFn)>,
    upto: int,
) -> bool {
    let ids = pull_ids(nodes, upto);
    &&& pulls.len() == ids.len()
    &&& forall|k: int|
        0 <= k < pulls.len() ==> (#[trigger] pulls[k]).0 == ids[k] && ids[k] < nodes.len()
            && pulls[k].1@ == nodes[ids[k] as int].node_view().pull_eval.unwrap()
}

/// The identifiers of the nodes that request pull evaluation, each with its
/// entry descriptor, in identifier order. Pull evaluation is reserved: the
/// descriptors are reported but nothing is generated for them.
pub fn pull_nodes(g: &Graph) -> (r: Vec<(usize, EvalFn)>)
    ensures
        pulls_ok_upto(g.nodes(), r@, g.nodes().len() as int),
{
    let ghost nodes_v = g.nodes();
    let kinds = g.node_list();
    let mut r: Vec<(usize, EvalFn)> = Vec::new();
    let mut m: usize = 0;
    while m < kinds.len()
        invariant
            m <= kinds.len(),
            kinds.deep_view() == nodes_v,
            nodes_v == g.nodes(),
            pulls_ok_upto(nodes_v, r@, m as int),
        decreases kinds.len() - m,
    {
        proof {
            assert(kinds.deep_view()[m as int] == nodes_v[m as int]);
        }
        let ghost r0 = r@;
        match kinds[m].pull_eval() {
            Some(f) => {
                r.push((m, f));
            },
            None => {},
        }
        proof {
            let ids0 = pull_ids(nodes_v, m as int);
            let ids1 = pull_ids(nodes_v, m as int + 1);
            if nodes_v[m as int].node_view().pull_eval is Some {
                assert(ids1 == ids0.push(m));
                assert forall|k: int| 0 <= k < r@.len() implies (#[trigger] r@[k]).0 == ids1[k]
                    && ids1[k] < nodes_v.len() && r@[k].1@ == nodes_v[
                    ids1[k] as int
                ].node_view().pull_eval.unwrap() by {
                    if k < r0.len() {
                        assert(r@[k] == r0[k]);
                        assert(ids1[k] == ids0[k]);
                    } else {
                        assert(k == ids0.len());
                        assert(ids1[k] == m);
                    }
                }
            } else {
                assert(ids1 == ids0);
                assert(r@ == r0);
            }
        }
        m = m + 1;
    }
    proof {
        assert(m == nodes_v.len());
    }
    r
}

} // verus!
