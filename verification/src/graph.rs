//! The dependency graph of a list of descriptors, as a mathematical object:
//! edges, paths, cycles and topological orders, with the facts about them that
//! the sorter's contracts rest on.

use vstd::prelude::*;

verus! {

/// What the graph knows of one descriptor: the name it is produced under and
/// the names it depends on.
pub struct Node {
    pub name: Seq<char>,
    pub children: Seq<Seq<char>>,
}

/// Node `from` depends on node `to`: the name of `to` is among the children of
/// `from`. A child that names no node of the graph is no edge.
pub open spec fn edge(g: Seq<Node>, from: int, to: int) -> bool {
    &&& 0 <= from < g.len()
    &&& 0 <= to < g.len()
    &&& g[from].children.contains(g[to].name)
}

/// The `k`-th step of `p` follows an edge.
pub open spec fn hop(g: Seq<Node>, p: Seq<int>, k: int) -> bool {
    edge(g, p[k], p[k + 1])
}

/// `p` is a walk through the graph: at least one node, each depending on the next.
pub open spec fn is_path(g: Seq<Node>, p: Seq<int>) -> bool {
    &&& p.len() >= 1
    &&& 0 <= p[0] < g.len()
    &&& forall|k: int| 0 <= k < p.len() - 1 ==> #[trigger] hop(g, p, k)
}

/// `p` is a path that starts at `from` and ends at `to`.
pub open spec fn connects(g: Seq<Node>, p: Seq<int>, from: int, to: int) -> bool {
    &&& is_path(g, p)
    &&& p[0] == from
    &&& p[p.len() - 1] == to
}

/// `to` is `from` itself or one of its direct or indirect dependencies.
pub open spec fn reaches(g: Seq<Node>, from: int, to: int) -> bool {
    exists|p: Seq<int>| connects(g, p, from, to)
}

/// Node `x` depends on itself, directly or through others.
pub open spec fn on_cycle(g: Seq<Node>, x: int) -> bool {
    exists|p: Seq<int>| p.len() >= 2 && #[trigger] connects(g, p, x, x)
}

/// Some node of the graph depends on itself.
pub open spec fn has_cycle(g: Seq<Node>) -> bool {
    exists|x: int| on_cycle(g, x)
}

/// `j` stands in `out` before position `a`.
pub open spec fn placed_before(out: Seq<int>, a: int, j: int) -> bool {
    exists|b: int| 0 <= b < a && #[trigger] out[b] == j
}

/// Whatever a member of `out` depends on stands earlier in `out`.
pub open spec fn dependencies_first(g: Seq<Node>, out: Seq<int>) -> bool {
    forall|a: int, j: int|
        0 <= a < out.len() && #[trigger] edge(g, out[a], j) ==> placed_before(out, a, j)
}

/// `out` lists nodes of the graph, none of them twice.
pub open spec fn distinct_nodes(g: Seq<Node>, out: Seq<int>) -> bool {
    &&& forall|k: int| 0 <= k < out.len() ==> 0 <= #[trigger] out[k] < g.len()
    &&& forall|a: int, b: int| 0 <= a < b < out.len() ==> out[a] != out[b]
}

/// `order` lists every node of the graph exactly once, each after all the
/// nodes it depends on.
pub open spec fn is_topological_order(g: Seq<Node>, order: Seq<int>) -> bool {
    &&& order.len() == g.len()
    &&& distinct_nodes(g, order)
    &&& forall|i: int| 0 <= i < g.len() ==> order.contains(i)
    &&& dependencies_first(g, order)
}

/// Every node reaches itself.
pub proof fn lemma_reaches_self(g: Seq<Node>, i: int)
    requires
        0 <= i < g.len(),
    ensures
        reaches(g, i, i),
{
    let p = seq![i];
    assert(connects(g, p, i, i));
}

/// A path ends at a node of the graph.
pub proof fn lemma_path_ends_inside(g: Seq<Node>, p: Seq<int>)
    requires
        is_path(g, p),
    ensures
        0 <= p[p.len() - 1] < g.len(),
{
    if p.len() >= 2 {
        assert(hop(g, p, p.len() - 2));
    }
}

/// What a node reaches is a node of the graph.
pub proof fn lemma_reached_inside(g: Seq<Node>, n: int, x: int)
    requires
        reaches(g, n, x),
    ensures
        0 <= n < g.len(),
        0 <= x < g.len(),
{
    let p = choose|p: Seq<int>| connects(g, p, n, x);
    lemma_path_ends_inside(g, p);
}

/// An edge in front of a path is a path.
pub proof fn lemma_prepend(g: Seq<Node>, i: int, p: Seq<int>)
    requires
        is_path(g, p),
        edge(g, i, p[0]),
    ensures
        is_path(g, seq![i] + p),
        (seq![i] + p).len() == p.len() + 1,
        (seq![i] + p)[0] == i,
        (seq![i] + p)[p.len() as int] == p[p.len() - 1],
{
    let q = seq![i] + p;
    assert forall|k: int| 0 <= k < q.len() - 1 implies #[trigger] hop(g, q, k) by {
        if k == 0 {
            assert(q[0] == i && q[1] == p[0]);
        } else {
            assert(hop(g, p, k - 1));
            assert(q[k] == p[k - 1] && q[k + 1] == p[k]);
        }
    }
}

/// What a dependency reaches, the dependent reaches too.
pub proof fn lemma_reaches_step(g: Seq<Node>, i: int, m: int, j: int)
    requires
        edge(g, i, m),
        reaches(g, m, j),
    ensures
        reaches(g, i, j),
{
    let p = choose|p: Seq<int>| connects(g, p, m, j);
    lemma_prepend(g, i, p);
    assert(connects(g, seq![i] + p, i, j));
}

/// A node that one of its dependencies reaches lies on a cycle.
pub proof fn lemma_cycle_closes(g: Seq<Node>, n: int, m: int)
    requires
        edge(g, n, m),
        reaches(g, m, n),
    ensures
        on_cycle(g, n),
{
    let p = choose|p: Seq<int>| connects(g, p, m, n);
    lemma_prepend(g, n, p);
    let q = seq![n] + p;
    assert(q.len() >= 2 && connects(g, q, n, n));
}

/// Along a path that starts at a member of `out`, every step leads to an
/// earlier member: the path's end stands at least as many places before its
/// start as the path has edges.
pub proof fn lemma_descend(g: Seq<Node>, out: Seq<int>, p: Seq<int>, a: int) -> (b: int)
    requires
        dependencies_first(g, out),
        is_path(g, p),
        0 <= a < out.len(),
        out[a] == p[0],
    ensures
        0 <= b,
        b + (p.len() - 1) <= a,
        out[b] == p[p.len() - 1],
    decreases p.len(),
{
    if p.len() == 1 {
        a
    } else {
        let q = p.drop_last();
        assert forall|k: int| 0 <= k < q.len() - 1 implies #[trigger] hop(g, q, k) by {
            assert(hop(g, p, k));
        }
        let c = lemma_descend(g, out, q, a);
        assert(hop(g, p, p.len() - 2));
        assert(edge(g, out[c], p[p.len() - 1]));
        assert(placed_before(out, c, p[p.len() - 1]));
        let b = choose|b: int| 0 <= b < c && #[trigger] out[b] == p[p.len() - 1];
        b
    }
}

/// A member of `out` reaches members of `out` only.
pub proof fn lemma_members_closed(g: Seq<Node>, out: Seq<int>, a: int, j: int)
    requires
        dependencies_first(g, out),
        0 <= a < out.len(),
        reaches(g, out[a], j),
    ensures
        out.contains(j),
{
    let p = choose|p: Seq<int>| connects(g, p, out[a], j);
    let b = lemma_descend(g, out, p, a);
    assert(out[b] == j);
}

/// No member of `out` lies on a cycle.
pub proof fn lemma_members_acyclic(g: Seq<Node>, out: Seq<int>, a: int)
    requires
        distinct_nodes(g, out),
        dependencies_first(g, out),
        0 <= a < out.len(),
    ensures
        !on_cycle(g, out[a]),
{
    if on_cycle(g, out[a]) {
        let p = choose|p: Seq<int>| p.len() >= 2 && #[trigger] connects(g, p, out[a], out[a]);
        let b = lemma_descend(g, out, p, a);
        assert(b < a);
        assert(out[b] == out[a]);
        assert(false);
    }
}

/// A graph that has a topological order has no cycle.
pub proof fn lemma_ordered_is_acyclic(g: Seq<Node>, order: Seq<int>)
    requires
        is_topological_order(g, order),
    ensures
        !has_cycle(g),
{
    if has_cycle(g) {
        let x = choose|x: int| on_cycle(g, x);
        let p = choose|p: Seq<int>| p.len() >= 2 && #[trigger] connects(g, p, x, x);
        assert(0 <= x < g.len());
        assert(order.contains(x));
        let a = choose|a: int| 0 <= a < order.len() && order[a] == x;
        lemma_members_acyclic(g, order, a);
        assert(false);
    }
}

/// `order` with the node at position `k` moved to the front.
pub open spec fn moved_to_front(order: Seq<int>, k: int) -> Seq<int> {
    seq![order[k]] + order.remove(k)
}

/// A node without children may stand first: moving it to the front of a
/// topological order gives a topological order again.
pub proof fn lemma_leaf_may_be_first(g: Seq<Node>, order: Seq<int>, k: int)
    requires
        is_topological_order(g, order),
        0 <= k < order.len(),
        g[order[k]].children.len() == 0,
    ensures
        is_topological_order(g, moved_to_front(order, k)),
        moved_to_front(order, k)[0] == order[k],
{
    let moved = moved_to_front(order, k);
    assert(moved.len() == order.len());
    assert(moved[0] == order[k]);
    assert forall|a: int| 1 <= a < moved.len() implies #[trigger] moved[a] == (if a <= k {
        order[a - 1]
    } else {
        order[a]
    }) by {
        assert(moved[a] == order.remove(k)[a - 1]);
    }
    assert forall|a: int| 0 <= a < moved.len() implies 0 <= #[trigger] moved[a] < g.len() by {
        if a >= 1 {
            if a <= k {
                assert(0 <= order[a - 1] < g.len());
            } else {
                assert(0 <= order[a] < g.len());
            }
        }
    }
    assert forall|a: int, b: int| 0 <= a < b < moved.len() implies moved[a] != moved[b] by {
        let x = if a == 0 {
            k
        } else if a <= k {
            a - 1
        } else {
            a
        };
        let y = if b <= k {
            b - 1
        } else {
            b
        };
        assert(moved[a] == order[x] && moved[b] == order[y]);
        if x < y {
            assert(order[x] != order[y]);
        } else {
            assert(y < x);
            assert(order[y] != order[x]);
        }
    }
    assert forall|i: int| 0 <= i < g.len() implies moved.contains(i) by {
        assert(order.contains(i));
        let x = choose|x: int| 0 <= x < order.len() && order[x] == i;
        let a = if x == k {
            0
        } else if x < k {
            x + 1
        } else {
            x
        };
        assert(moved[a] == i);
    }
    assert forall|a: int, j: int| 0 <= a < moved.len() && #[trigger] edge(g, moved[a], j) implies placed_before(
        moved,
        a,
        j,
    ) by {
        if a == 0 {
            assert(g[order[k]].children.contains(g[j].name));
            assert(false);
        } else {
            let x = if a <= k {
                a - 1
            } else {
                a
            };
            assert(moved[a] == order[x]);
            assert(edge(g, order[x], j));
            assert(placed_before(order, x, j));
            let y = choose|y: int| 0 <= y < x && #[trigger] order[y] == j;
            let b = if y == k {
                0
            } else if y < k {
                y + 1
            } else {
                y
            };
            assert(moved[b] == j);
            assert(b < a);
        }
    }
}

} // verus!
