//! The walk that lists every node under a root once, and every operand edge.
use vstd::prelude::*;
use std::collections::HashSet;
use crate::graph::{graph_wf, has_node, node_wf, Graph, NodeModel, Value};

verus! {

broadcast use vstd::std_specs::hash::group_hash_axioms;

/// What a walk has listed so far: nodes in the order of their first visit, and
/// edges as (operand, consumer) pairs in the order they were followed.
pub struct Walk {
    pub nodes: Seq<Value>,
    pub edges: Seq<(Value, Value)>,
}

/// Visiting `v` after `w`: a node already listed changes nothing; a new one is
/// listed and its operands are followed from left to right.
pub open spec fn visit(g: Seq<NodeModel>, v: Value, w: Walk) -> Walk
    decreases v.index, 1int, 0int,
    when graph_wf(g) && has_node(g, v)
{
    if w.nodes.contains(v) {
        w
    } else {
        visit_operands(g, v, 0, Walk { nodes: w.nodes.push(v), edges: w.edges })
    }
}

/// Following the operands of `v` from position `i` on: each one adds its edge
/// to `v` and is then visited, before the next operand is looked at.
pub open spec fn visit_operands(g: Seq<NodeModel>, v: Value, i: int, w: Walk) -> Walk
    decreases v.index, 0int, g[v.index as int].children.len() - i,
    when graph_wf(g) && has_node(g, v) && 0 <= i
    via visit_operands_terminates
{
    let operands = g[v.index as int].children;
    if i >= operands.len() {
        w
    } else {
        let c = operands[i];
        visit_operands(
            g,
            v,
            i + 1,
            visit(g, c, Walk { nodes: w.nodes, edges: w.edges.push((c, v)) }),
        )
    }
}

#[via_fn]
proof fn visit_operands_terminates(g: Seq<NodeModel>, v: Value, i: int, w: Walk) {
    assert(node_wf(g, v.index as int));
}

/// The depth-first, pre-order walk from `root`.
pub open spec fn walk(g: Seq<NodeModel>, root: Value) -> Walk {
    visit(g, root, Walk { nodes: Seq::empty(), edges: Seq::empty() })
}

/// Every listed node, and both ends of every listed edge, is a node of `g`.
pub open spec fn walk_within(g: Seq<NodeModel>, w: Walk) -> bool {
    &&& forall|k: int| 0 <= k < w.nodes.len() ==> has_node(g, #[trigger] w.nodes[k])
    &&& forall|k: int|
        0 <= k < w.edges.len() ==> has_node(g, (#[trigger] w.edges[k]).0) && has_node(
            g,
            w.edges[k].1,
        )
}

/// The visited set holds exactly the positions of the listed nodes.
spec fn marks_agree(seen: Set<usize>, nodes: Seq<Value>) -> bool {
    forall|i: usize| seen.contains(i) <==> nodes.contains(Value { index: i })
}

proof fn lemma_mark(seen: Set<usize>, nodes: Seq<Value>, v: Value)
    requires
        marks_agree(seen, nodes),
    ensures
        marks_agree(seen.insert(v.index), nodes.push(v)),
{
    let after = nodes.push(v);
    assert forall|i: usize| seen.insert(v.index).contains(i) <==> after.contains(
        Value { index: i },
    ) by {
        let h = Value { index: i };
        if nodes.contains(h) {
            let k = choose|k: int| 0 <= k < nodes.len() && nodes[k] == h;
            assert(after[k] == h);
        }
        if i == v.index {
            assert(after[nodes.len() as int] == h);
        }
    }
}

fn build(
    g: &Graph,
    v: Value,
    nodes: &mut Vec<Value>,
    edges: &mut Vec<(Value, Value)>,
    seen: &mut HashSet<usize>,
)
    requires
        g.wf(),
        g.contains(v),
        marks_agree(old(seen)@, old(nodes)@),
    ensures
        marks_agree(final(seen)@, final(nodes)@),
        (Walk { nodes: final(nodes)@, edges: final(edges)@ }) == visit(
            g@,
            v,
            (Walk { nodes: old(nodes)@, edges: old(edges)@ }),
        ),
    decreases v.index,
{
    let ghost before = Walk { nodes: nodes@, edges: edges@ };
    let ghost marks = seen@;
    if !seen.insert(v.index) {
        assert(seen@ =~= marks);
        return;
    }
    nodes.push(v);
    proof {
        lemma_mark(marks, before.nodes, v);
    }
    let ghost listed = Walk { nodes: nodes@, edges: edges@ };
    let children = g.children(v);
    let mut i: usize = 0;
    while i < children.len()
        invariant
            g.wf(),
            g.contains(v),
            children@ == g@[v.index as int].children,
            i <= children.len(),
            marks_agree(seen@, nodes@),
            visit_operands(g@, v, i as int, (Walk { nodes: nodes@, edges: edges@ }))
                == visit_operands(g@, v, 0, listed),
        decreases children.len() - i,
    {
        let c = children[i];
        assert(node_wf(g@, v.index as int));
        edges.push((c, v));
        build(g, c, nodes, edges, seen);
        i += 1;
    }
}

/// Lists every node that `root` depends on, `root` first, each node once
/// however many handles lead to it, and every operand edge as
/// (operand, consumer): the depth-first, pre-order walk from `root`.
pub fn trace(g: &Graph, root: Value) -> (r: (Vec<Value>, Vec<(Value, Value)>))
    requires
        g.wf(),
        g.contains(root),
    ensures
        r.0@ == walk(g@, root).nodes,
        r.1@ == walk(g@, root).edges,
        walk_within(g@, walk(g@, root)),
        r.0@.len() >= 1 && r.0@[0] == root,
        r.0@.no_duplicates(),
        r.1@.len() == operand_total(g@, r.0@),
{
    let mut nodes: Vec<Value> = Vec::new();
    let mut edges: Vec<(Value, Value)> = Vec::new();
    let mut seen: HashSet<usize> = HashSet::new();
    build(g, root, &mut nodes, &mut edges, &mut seen);
    proof {
        lemma_walk_lists_each_node_once(g@, root);
        lemma_walk_edge_count(g@, root);
    }
    (nodes, edges)
}

/// The walk from a leaf lists the leaf alone and no edge.
pub proof fn lemma_leaf_walk(g: Seq<NodeModel>, v: Value)
    requires
        graph_wf(g),
        has_node(g, v),
        g[v.index as int].operation is None,
    ensures
        walk(g, v) == (Walk { nodes: seq![v], edges: Seq::empty() }),
{
    assert(node_wf(g, v.index as int));
    let start = Walk { nodes: Seq::empty(), edges: Seq::empty() };
    let listed = Walk { nodes: start.nodes.push(v), edges: start.edges };
    assert(listed.nodes =~= seq![v]);
}

/// The number of operands of the listed nodes, summed.
pub open spec fn operand_total(g: Seq<NodeModel>, nodes: Seq<Value>) -> nat
    decreases nodes.len(),
{
    if nodes.len() == 0 {
        0
    } else {
        operand_total(g, nodes.drop_last()) + g[nodes.last().index as int].children.len()
    }
}

/// Every operand of `x` is among `nodes`.
pub open spec fn operands_listed(g: Seq<NodeModel>, x: Value, nodes: Seq<Value>) -> bool {
    forall|k: int|
        0 <= k < g[x.index as int].children.len() ==> nodes.contains(
            #[trigger] g[x.index as int].children[k],
        )
}

/// `r` continues `w`: it keeps what `w` listed, in place.
spec fn grows(w: Walk, r: Walk) -> bool {
    &&& w.nodes.len() <= r.nodes.len()
    &&& forall|k: int| 0 <= k < w.nodes.len() ==> r.nodes[k] == w.nodes[k]
}

/// What one step of the walk, from `w` to `r`, keeps true. `pending` is the
/// number of edges the step added for operands of a node listed before it.
spec fn sound_step(g: Seq<NodeModel>, w: Walk, r: Walk, pending: int) -> bool {
    &&& grows(w, r)
    &&& r.nodes.no_duplicates()
    &&& walk_within(g, r)
    &&& forall|x: Value|
        #[trigger] r.nodes.contains(x) && !w.nodes.contains(x) ==> operands_listed(g, x, r.nodes)
    &&& r.edges.len() - w.edges.len() == operand_total(g, r.nodes) - operand_total(g, w.nodes)
        + pending
}

proof fn lemma_grows_contains(w: Walk, r: Walk, x: Value)
    requires
        grows(w, r),
        w.nodes.contains(x),
    ensures
        r.nodes.contains(x),
{
    let k = choose|k: int| 0 <= k < w.nodes.len() && w.nodes[k] == x;
    assert(r.nodes[k] == x);
}

proof fn lemma_grows_listed(g: Seq<NodeModel>, w: Walk, r: Walk, x: Value)
    requires
        grows(w, r),
        operands_listed(g, x, w.nodes),
    ensures
        operands_listed(g, x, r.nodes),
{
    assert forall|k: int| 0 <= k < g[x.index as int].children.len() implies r.nodes.contains(
        #[trigger] g[x.index as int].children[k],
    ) by {
        lemma_grows_contains(w, r, g[x.index as int].children[k]);
    }
}

proof fn lemma_visit(g: Seq<NodeModel>, v: Value, w: Walk)
    requires
        graph_wf(g),
        has_node(g, v),
        w.nodes.no_duplicates(),
        walk_within(g, w),
    ensures
        sound_step(g, w, visit(g, v, w), 0),
        visit(g, v, w).nodes.contains(v),
        !w.nodes.contains(v) ==> visit(g, v, w).nodes[w.nodes.len() as int] == v,
    decreases v.index, 1int, 0int,
{
    if w.nodes.contains(v) {
    } else {
        let listed = Walk { nodes: w.nodes.push(v), edges: w.edges };
        assert(listed.nodes.drop_last() =~= w.nodes);
        assert(listed.nodes.last() == v);
        assert(listed.nodes[w.nodes.len() as int] == v);
        lemma_visit_operands(g, v, 0, listed);
        let r = visit_operands(g, v, 0, listed);
        assert(r.nodes[w.nodes.len() as int] == v);
        assert forall|x: Value| #[trigger] r.nodes.contains(x) && !w.nodes.contains(
            x,
        ) implies operands_listed(g, x, r.nodes) by {
            if listed.nodes.contains(x) {
                let k = choose|k: int| 0 <= k < listed.nodes.len() && listed.nodes[k] == x;
                if k < w.nodes.len() {
                    assert(w.nodes[k] == x);
                }
                assert(x == v);
            }
        }
    }
}

proof fn lemma_visit_operands(g: Seq<NodeModel>, v: Value, i: int, w: Walk)
    requires
        graph_wf(g),
        has_node(g, v),
        0 <= i <= g[v.index as int].children.len(),
        w.nodes.no_duplicates(),
        walk_within(g, w),
    ensures
        sound_step(
            g,
            w,
            visit_operands(g, v, i, w),
            g[v.index as int].children.len() - i,
        ),
        forall|k: int|
            i <= k < g[v.index as int].children.len() ==> visit_operands(
                g,
                v,
                i,
                w,
            ).nodes.contains(#[trigger] g[v.index as int].children[k]),
    decreases v.index, 0int, g[v.index as int].children.len() - i,
{
    let operands = g[v.index as int].children;
    assert(node_wf(g, v.index as int));
    if i < operands.len() {
        let c = operands[i];
        let w1 = Walk { nodes: w.nodes, edges: w.edges.push((c, v)) };
        lemma_visit(g, c, w1);
        let w2 = visit(g, c, w1);
        lemma_visit_operands(g, v, i + 1, w2);
        let r = visit_operands(g, v, i + 1, w2);
        assert(r == visit_operands(g, v, i, w));
        assert forall|x: Value| #[trigger] r.nodes.contains(x) && !w.nodes.contains(
            x,
        ) implies operands_listed(g, x, r.nodes) by {
            if w2.nodes.contains(x) {
                lemma_grows_listed(g, w2, r, x);
            }
        }
        assert forall|k: int| i <= k < operands.len() implies r.nodes.contains(
            #[trigger] operands[k],
        ) by {
            if k == i {
                lemma_grows_contains(w2, r, c);
            }
        }
    }
}

/// The walk lists the root first, lists no node twice, and stays inside the arena.
pub proof fn lemma_walk_lists_each_node_once(g: Seq<NodeModel>, root: Value)
    requires
        graph_wf(g),
        has_node(g, root),
    ensures
        walk(g, root).nodes.len() >= 1,
        walk(g, root).nodes[0] == root,
        walk(g, root).nodes.no_duplicates(),
        walk_within(g, walk(g, root)),
{
    lemma_visit(g, root, Walk { nodes: Seq::empty(), edges: Seq::empty() });
}

/// Whatever a listed node depends on is listed too: all of its operands are
/// among the walk's nodes.
pub proof fn lemma_walk_is_closed(g: Seq<NodeModel>, root: Value, x: Value)
    requires
        graph_wf(g),
        has_node(g, root),
        walk(g, root).nodes.contains(x),
    ensures
        operands_listed(g, x, walk(g, root).nodes),
{
    lemma_visit(g, root, Walk { nodes: Seq::empty(), edges: Seq::empty() });
}

/// The walk lists one edge for every operand slot of every listed node.
pub proof fn lemma_walk_edge_count(g: Seq<NodeModel>, root: Value)
    requires
        graph_wf(g),
        has_node(g, root),
    ensures
        walk(g, root).edges.len() == operand_total(g, walk(g, root).nodes),
{
    lemma_visit(g, root, Walk { nodes: Seq::empty(), edges: Seq::empty() });
}

/// The operands that `edges` gives to consumer `x`, in the order of the edges.
pub open spec fn operands_drawn(edges: Seq<(Value, Value)>, x: Value) -> Seq<Value>
    decreases edges.len(),
{
    if edges.len() == 0 {
        Seq::empty()
    } else if edges.last().1 == x {
        operands_drawn(edges.drop_last(), x).push(edges.last().0)
    } else {
        operands_drawn(edges.drop_last(), x)
    }
}

/// Every edge ends at a listed node.
spec fn consumers_listed(w: Walk) -> bool {
    forall|k: int| 0 <= k < w.edges.len() ==> w.nodes.contains((#[trigger] w.edges[k]).1)
}

spec fn added(w: Walk, r: Walk, x: Value) -> bool {
    r.nodes.contains(x) && !w.nodes.contains(x)
}

proof fn lemma_drawn_push(edges: Seq<(Value, Value)>, e: (Value, Value), x: Value)
    ensures
        operands_drawn(edges.push(e), x) == if e.1 == x {
            operands_drawn(edges, x).push(e.0)
        } else {
            operands_drawn(edges, x)
        },
{
    assert(edges.push(e).drop_last() =~= edges);
}

proof fn lemma_nothing_drawn(edges: Seq<(Value, Value)>, nodes: Seq<Value>, x: Value)
    requires
        forall|k: int| 0 <= k < edges.len() ==> nodes.contains((#[trigger] edges[k]).1),
        !nodes.contains(x),
    ensures
        operands_drawn(edges, x) == Seq::<Value>::empty(),
    decreases edges.len(),
{
    if edges.len() > 0 {
        let rest = edges.drop_last();
        assert forall|k: int| 0 <= k < rest.len() implies nodes.contains(
            (#[trigger] rest[k]).1,
        ) by {
            assert(rest[k] == edges[k]);
        }
        lemma_nothing_drawn(rest, nodes, x);
        assert(nodes.contains(edges[edges.len() - 1].1));
    }
}

proof fn lemma_visit_draws(g: Seq<NodeModel>, v: Value, w: Walk)
    requires
        graph_wf(g),
        has_node(g, v),
        w.nodes.no_duplicates(),
        walk_within(g, w),
        consumers_listed(w),
    ensures
        consumers_listed(visit(g, v, w)),
        forall|x: Value| #[trigger]
            operands_drawn(visit(g, v, w).edges, x) == if added(w, visit(g, v, w), x) {
                g[x.index as int].children
            } else {
                operands_drawn(w.edges, x)
            },
    decreases v.index, 1int, 0int,
{
    if !w.nodes.contains(v) {
        let listed = Walk { nodes: w.nodes.push(v), edges: w.edges };
        assert(listed.nodes[w.nodes.len() as int] == v);
        assert(listed.nodes.drop_last() =~= w.nodes);
        assert forall|k: int| 0 <= k < listed.edges.len() implies listed.nodes.contains(
            (#[trigger] listed.edges[k]).1,
        ) by {
            lemma_grows_contains(w, listed, w.edges[k].1);
        }
        assert(walk_within(g, listed));
        lemma_visit_operands(g, v, 0, listed);
        lemma_visit_operands_draws(g, v, 0, listed);
        let r = visit_operands(g, v, 0, listed);
        lemma_nothing_drawn(w.edges, w.nodes, v);
        lemma_grows_contains(listed, r, v);
        let operands = g[v.index as int].children;
        assert(operands.subrange(0, operands.len() as int) =~= operands);
        assert(Seq::<Value>::empty() + operands =~= operands);
        assert forall|x: Value| #[trigger]
            operands_drawn(r.edges, x) == if added(w, r, x) {
                g[x.index as int].children
            } else {
                operands_drawn(w.edges, x)
            } by {
            if x != v {
                if listed.nodes.contains(x) {
                    let k = choose|k: int| 0 <= k < listed.nodes.len() && listed.nodes[k] == x;
                    assert(w.nodes[k] == x);
                }
                if w.nodes.contains(x) {
                    lemma_grows_contains(w, listed, x);
                }
            }
        }
    }
}

proof fn lemma_visit_operands_draws(g: Seq<NodeModel>, v: Value, i: int, w: Walk)
    requires
        graph_wf(g),
        has_node(g, v),
        0 <= i <= g[v.index as int].children.len(),
        w.nodes.no_duplicates(),
        walk_within(g, w),
        consumers_listed(w),
        w.nodes.contains(v),
    ensures
        consumers_listed(visit_operands(g, v, i, w)),
        forall|x: Value| #[trigger]
            operands_drawn(visit_operands(g, v, i, w).edges, x) == if x == v {
                operands_drawn(w.edges, v) + g[v.index as int].children.subrange(
                    i,
                    g[v.index as int].children.len() as int,
                )
            } else if added(w, visit_operands(g, v, i, w), x) {
                g[x.index as int].children
            } else {
                operands_drawn(w.edges, x)
            },
    decreases v.index, 0int, g[v.index as int].children.len() - i,
{
    let operands = g[v.index as int].children;
    let n = operands.len() as int;
    assert(node_wf(g, v.index as int));
    if i < n {
        let c = operands[i];
        let w1 = Walk { nodes: w.nodes, edges: w.edges.push((c, v)) };
        assert(consumers_listed(w1));
        lemma_visit(g, c, w1);
        lemma_visit_draws(g, c, w1);
        let w2 = visit(g, c, w1);
        lemma_grows_contains(w1, w2, v);
        lemma_visit_operands(g, v, i + 1, w2);
        lemma_visit_operands_draws(g, v, i + 1, w2);
        let r = visit_operands(g, v, i + 1, w2);
        assert(r == visit_operands(g, v, i, w));
        assert forall|x: Value| #[trigger]
            operands_drawn(r.edges, x) == if x == v {
                operands_drawn(w.edges, v) + operands.subrange(i, n)
            } else if added(w, r, x) {
                g[x.index as int].children
            } else {
                operands_drawn(w.edges, x)
            } by {
            lemma_drawn_push(w.edges, (c, v), x);
            if x == v {
                assert(operands_drawn(w2.edges, v) == operands_drawn(w1.edges, v));
                assert(operands_drawn(w.edges, v).push(c) + operands.subrange(i + 1, n)
                    =~= operands_drawn(w.edges, v) + operands.subrange(i, n));
            } else {
                if w2.nodes.contains(x) {
                    lemma_grows_contains(w2, r, x);
                }
                if w.nodes.contains(x) {
                    lemma_grows_contains(w1, w2, x);
                }
            }
        }
    } else {
        assert(operands.subrange(i, n) =~= Seq::<Value>::empty());
        assert forall|x: Value| #[trigger]
            operands_drawn(w.edges, x) == if x == v {
                operands_drawn(w.edges, v) + operands.subrange(i, n)
            } else if added(w, w, x) {
                g[x.index as int].children
            } else {
                operands_drawn(w.edges, x)
            } by {
            assert(operands_drawn(w.edges, v) + Seq::<Value>::empty() =~= operands_drawn(
                w.edges,
                v,
            ));
        }
    }
}

/// The edges into a listed node are its operands, one edge per operand slot,
/// in operand order; a node that is not listed receives no edge.
pub proof fn lemma_walk_keeps_operand_order(g: Seq<NodeModel>, root: Value, x: Value)
    requires
        graph_wf(g),
        has_node(g, root),
    ensures
        operands_drawn(walk(g, root).edges, x) == if walk(g, root).nodes.contains(x) {
            g[x.index as int].children
        } else {
            Seq::empty()
        },
{
    let start = Walk { nodes: Seq::empty(), edges: Seq::empty() };
    lemma_visit_draws(g, root, start);
    assert(operands_drawn(start.edges, x) == Seq::<Value>::empty());
}

/// Node `v` depends on node `x`: they are the same node, or an operand of `v`
/// depends on `x`.
pub open spec fn depends_on(g: Seq<NodeModel>, v: Value, x: Value) -> bool
    decreases v.index,
{
    v == x || exists|k: int|
        0 <= k < g[v.index as int].children.len() && (#[trigger] g[v.index as int].children[k]).index
            < v.index && depends_on(g, g[v.index as int].children[k], x)
}

proof fn lemma_visit_reaches(g: Seq<NodeModel>, v: Value, w: Walk)
    requires
        graph_wf(g),
        has_node(g, v),
    ensures
        forall|x: Value| #[trigger] added(w, visit(g, v, w), x) ==> depends_on(g, v, x),
    decreases v.index, 1int, 0int,
{
    if !w.nodes.contains(v) {
        let listed = Walk { nodes: w.nodes.push(v), edges: w.edges };
        lemma_visit_operands_reaches(g, v, 0, listed);
        let r = visit_operands(g, v, 0, listed);
        assert forall|x: Value| #[trigger] added(w, r, x) implies depends_on(g, v, x) by {
            if x != v {
                if listed.nodes.contains(x) {
                    let k = choose|k: int| 0 <= k < listed.nodes.len() && listed.nodes[k] == x;
                    assert(w.nodes[k] == x);
                }
                assert(added(listed, r, x));
            }
        }
    }
}

proof fn lemma_visit_operands_reaches(g: Seq<NodeModel>, v: Value, i: int, w: Walk)
    requires
        graph_wf(g),
        has_node(g, v),
        0 <= i <= g[v.index as int].children.len(),
    ensures
        forall|x: Value| #[trigger]
            added(w, visit_operands(g, v, i, w), x) ==> depends_on(g, v, x),
    decreases v.index, 0int, g[v.index as int].children.len() - i,
{
    let operands = g[v.index as int].children;
    assert(node_wf(g, v.index as int));
    if i < operands.len() {
        let c = operands[i];
        let w1 = Walk { nodes: w.nodes, edges: w.edges.push((c, v)) };
        lemma_visit_reaches(g, c, w1);
        let w2 = visit(g, c, w1);
        lemma_visit_operands_reaches(g, v, i + 1, w2);
        let r = visit_operands(g, v, i + 1, w2);
        assert(r == visit_operands(g, v, i, w));
        assert forall|x: Value| #[trigger] added(w, r, x) implies depends_on(g, v, x) by {
            if w2.nodes.contains(x) {
                assert(added(w1, w2, x));
                assert(depends_on(g, operands[i], x));
            } else {
                assert(added(w2, r, x));
            }
        }
    }
}

proof fn lemma_closed_holds_dependencies(
    g: Seq<NodeModel>,
    nodes: Seq<Value>,
    v: Value,
    x: Value,
)
    requires
        graph_wf(g),
        has_node(g, v),
        nodes.contains(v),
        forall|y: Value| #[trigger] nodes.contains(y) ==> operands_listed(g, y, nodes),
        depends_on(g, v, x),
    ensures
        nodes.contains(x),
    decreases v.index,
{
    if v != x {
        let operands = g[v.index as int].children;
        let k = choose|k: int|
            0 <= k < operands.len() && (#[trigger] operands[k]).index < v.index && depends_on(
                g,
                operands[k],
                x,
            );
        assert(operands_listed(g, v, nodes));
        assert(nodes.contains(operands[k]));
        lemma_closed_holds_dependencies(g, nodes, operands[k], x);
    }
}

/// The walk lists exactly the nodes that the root depends on.
pub proof fn lemma_walk_lists_dependencies(g: Seq<NodeModel>, root: Value, x: Value)
    requires
        graph_wf(g),
        has_node(g, root),
    ensures
        walk(g, root).nodes.contains(x) <==> depends_on(g, root, x),
{
    let start = Walk { nodes: Seq::empty(), edges: Seq::empty() };
    lemma_visit(g, root, start);
    lemma_visit_reaches(g, root, start);
    let r = walk(g, root);
    if r.nodes.contains(x) {
        assert(added(start, r, x));
    }
    if depends_on(g, root, x) {
        lemma_closed_holds_dependencies(g, r.nodes, root, x);
    }
}

/// Two arenas give every node up to position `last` the same operands.
pub open spec fn same_operands(g1: Seq<NodeModel>, g2: Seq<NodeModel>, last: int) -> bool {
    forall|i: int| 0 <= i <= last ==> (#[trigger] g1[i]).children == g2[i].children
}

proof fn lemma_visit_agrees(g1: Seq<NodeModel>, g2: Seq<NodeModel>, v: Value, w: Walk)
    requires
        graph_wf(g1),
        graph_wf(g2),
        has_node(g1, v),
        has_node(g2, v),
        same_operands(g1, g2, v.index as int),
    ensures
        visit(g1, v, w) == visit(g2, v, w),
    decreases v.index, 1int, 0int,
{
    if !w.nodes.contains(v) {
        lemma_visit_operands_agrees(
            g1,
            g2,
            v,
            0,
            Walk { nodes: w.nodes.push(v), edges: w.edges },
        );
    }
}

proof fn lemma_visit_operands_agrees(
    g1: Seq<NodeModel>,
    g2: Seq<NodeModel>,
    v: Value,
    i: int,
    w: Walk,
)
    requires
        graph_wf(g1),
        graph_wf(g2),
        has_node(g1, v),
        has_node(g2, v),
        same_operands(g1, g2, v.index as int),
        0 <= i,
    ensures
        visit_operands(g1, v, i, w) == visit_operands(g2, v, i, w),
    decreases v.index, 0int, g1[v.index as int].children.len() - i,
{
    let operands = g1[v.index as int].children;
    assert(operands == g2[v.index as int].children);
    assert(node_wf(g1, v.index as int));
    if i < operands.len() {
        let c = operands[i];
        let w1 = Walk { nodes: w.nodes, edges: w.edges.push((c, v)) };
        lemma_visit_agrees(g1, g2, c, w1);
        lemma_visit_operands_agrees(g1, g2, v, i + 1, visit(g1, c, w1));
    }
}

/// The walk from `root` reads nothing but the operands of the nodes created
/// up to `root`: nodes created later, and new labels, scalars or accumulators
/// anywhere, leave it as it was.
pub proof fn lemma_walk_reads_operands_only(g1: Seq<NodeModel>, g2: Seq<NodeModel>, root: Value)
    requires
        graph_wf(g1),
        graph_wf(g2),
        has_node(g1, root),
        has_node(g2, root),
        same_operands(g1, g2, root.index as int),
    ensures
        walk(g1, root) == walk(g2, root),
{
    lemma_visit_agrees(g1, g2, root, Walk { nodes: Seq::empty(), edges: Seq::empty() });
}

} // verus!
