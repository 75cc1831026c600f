//! Ordering descriptors so that each comes after everything it depends on.
//!
//! The sorter walks the dependency graph depth first. Every node carries a
//! mark; a node is emitted once all that it depends on has been emitted, and
//! meeting a node that is still in progress means that the walk has come back
//! to where it started: a cycle.

use vstd::prelude::*;

use crate::descriptor::{graph_of, IDepData};
use crate::error::DepsError;
use crate::graph::{
    connects, dependencies_first, distinct_nodes, edge, has_cycle, is_topological_order,
    lemma_cycle_closes, lemma_members_acyclic, lemma_members_closed, lemma_reached_inside,
    lemma_reaches_self, lemma_reaches_step, on_cycle, placed_before, reaches, Node,
};
use crate::text::lists_name;

verus! {

/// How far the walk has come with one node.
#[derive(Clone, Copy, Debug, PartialEq, Eq, Structural)]
pub enum Mark {
    /// Not met yet.
    Unvisited,
    /// Met, and the walk is still below it.
    InProgress,
    /// Emitted, after all that it depends on.
    Done,
}

/// How many nodes the walk has not met yet.
pub open spec fn count_unvisited(marks: Seq<Mark>) -> nat
    decreases marks.len(),
{
    if marks.len() == 0 {
        0
    } else {
        count_unvisited(marks.drop_last()) + if marks.last() is Unvisited {
            1nat
        } else {
            0nat
        }
    }
}

/// A walk that starts at `n` cannot finish: `n` reaches a node that is in
/// progress or one that lies on a cycle.
pub open spec fn doomed(g: Seq<Node>, marks: Seq<Mark>, n: int) -> bool {
    exists|x: int| #[trigger] reaches(g, n, x) && (marks[x] is InProgress || on_cycle(g, x))
}

/// From `before` to `after` a mark changed only where the node was unvisited
/// and `n` reaches it.
pub open spec fn advanced_from(g: Seq<Node>, before: Seq<Mark>, after: Seq<Mark>, n: int) -> bool {
    &&& after.len() == before.len()
    &&& forall|i: int|
        0 <= i < before.len() && #[trigger] after[i] != before[i] ==> before[i] is Unvisited
            && reaches(g, n, i)
}

/// `after` is `before` with every unvisited node that `n` reaches done.
pub open spec fn settled_from(g: Seq<Node>, before: Seq<Mark>, after: Seq<Mark>, n: int) -> bool {
    &&& after.len() == before.len()
    &&& forall|i: int|
        0 <= i < before.len() ==> #[trigger] after[i] == if before[i] is Unvisited && reaches(
            g,
            n,
            i,
        ) {
            Mark::Done
        } else {
            before[i]
        }
}

/// The state of a walk below `n`: `n` is in progress, and every other mark is
/// as it was or went from unvisited to done at a node that `n` reaches.
spec fn in_flight(g: Seq<Node>, before: Seq<Mark>, now: Seq<Mark>, n: int) -> bool {
    &&& now.len() == before.len()
    &&& 0 <= n < before.len()
    &&& before[n] is Unvisited
    &&& now[n] is InProgress
    &&& forall|i: int|
        0 <= i < before.len() && i != n ==> #[trigger] now[i] == before[i] || (before[i] is Unvisited
            && now[i] is Done && reaches(g, n, i))
}

/// Changing one mark changes the count by what that mark contributes.
proof fn lemma_count_update(marks: Seq<Mark>, i: int, m: Mark)
    requires
        0 <= i < marks.len(),
    ensures
        count_unvisited(marks.update(i, m)) + (if marks[i] is Unvisited {
            1nat
        } else {
            0nat
        }) == count_unvisited(marks) + (if m is Unvisited {
            1nat
        } else {
            0nat
        }),
    decreases marks.len(),
{
    let after = marks.update(i, m);
    if i == marks.len() - 1 {
        assert(after.drop_last() =~= marks.drop_last());
    } else {
        assert(after.drop_last() =~= marks.drop_last().update(i, m));
        lemma_count_update(marks.drop_last(), i, m);
    }
}

/// Marks that only leave the unvisited state never raise the count.
proof fn lemma_count_monotone(before: Seq<Mark>, after: Seq<Mark>)
    requires
        after.len() == before.len(),
        forall|i: int| 0 <= i < before.len() && #[trigger] after[i] is Unvisited ==> before[i] is Unvisited,
    ensures
        count_unvisited(after) <= count_unvisited(before),
    decreases before.len(),
{
    if before.len() > 0 {
        let b = before.drop_last();
        let a = after.drop_last();
        assert forall|i: int| 0 <= i < b.len() && #[trigger] a[i] is Unvisited implies b[i] is Unvisited by {
            assert(a[i] == after[i]);
        }
        lemma_count_monotone(b, a);
        assert(after[after.len() - 1] is Unvisited ==> before[before.len() - 1] is Unvisited);
    }
}

/// With no node in progress a walk from `n` is doomed exactly when `n`
/// reaches a cycle, so some walk is doomed exactly when the graph has one.
proof fn lemma_fresh_doom(g: Seq<Node>, marks: Seq<Mark>)
    requires
        marks.len() == g.len(),
        forall|i: int| 0 <= i < marks.len() ==> !(#[trigger] marks[i] is InProgress),
    ensures
        has_cycle(g) <==> exists|i: int| 0 <= i < g.len() && #[trigger] doomed(g, marks, i),
{
    if has_cycle(g) {
        let x = choose|x: int| on_cycle(g, x);
        let p = choose|p: Seq<int>| p.len() >= 2 && #[trigger] connects(g, p, x, x);
        assert(p[0] == x);
        lemma_reaches_self(g, x);
        assert(doomed(g, marks, x));
    }
    if exists|i: int| 0 <= i < g.len() && #[trigger] doomed(g, marks, i) {
        let i = choose|i: int| 0 <= i < g.len() && #[trigger] doomed(g, marks, i);
        let x = choose|x: int| #[trigger] reaches(g, i, x) && (marks[x] is InProgress || on_cycle(g, x));
        lemma_reached_inside(g, i, x);
        assert(on_cycle(g, x));
    }
}

/// A list of positions, as the graph counts them.
pub open spec fn indices(list: Seq<usize>) -> Seq<int> {
    Seq::new(list.len(), |k: int| list[k] as int)
}

/// The marks moved only from unvisited to done.
spec fn only_done_since(before: Seq<Mark>, now: Seq<Mark>) -> bool {
    &&& now.len() == before.len()
    &&& forall|i: int|
        0 <= i < before.len() ==> #[trigger] now[i] == before[i] || (before[i] is Unvisited
            && now[i] is Done)
}

/// Some node that the walk has not met yet cannot be finished.
pub open spec fn some_walk_doomed(g: Seq<Node>, marks: Seq<Mark>) -> bool {
    exists|i: int| 0 <= i < marks.len() && marks[i] is Unvisited && #[trigger] doomed(g, marks, i)
}

/// `items` taken in the order that `order` gives.
pub open spec fn arranged<DP>(items: Seq<DP>, order: Seq<int>) -> Seq<DP> {
    Seq::new(order.len(), |k: int| items[order[k]])
}

/// `sorted` holds the descriptors of `items`, each once, in a topological
/// order of their graph.
pub open spec fn is_sorted_arrangement<DP: IDepData>(items: Seq<DP>, sorted: Seq<DP>) -> bool {
    exists|order: Seq<int>|
        is_topological_order(graph_of(items), order) && sorted == #[trigger] arranged(items, order)
}

/// The walk over one list of descriptors: the marks of its nodes and the
/// nodes emitted so far.
pub struct Sorter<'a, DP: IDepData> {
    nodes: &'a Vec<DP>,
    sorted: Vec<usize>,
    marks: Vec<Mark>,
}

impl<'a, DP: IDepData> Sorter<'a, DP> {
    /// The graph that is walked.
    pub closed spec fn graph(&self) -> Seq<Node> {
        graph_of(self.nodes@)
    }

    /// The mark of each node.
    pub closed spec fn marks(&self) -> Seq<Mark> {
        self.marks@
    }

    /// The nodes emitted so far, in the order of their emission.
    pub closed spec fn emitted(&self) -> Seq<int> {
        indices(self.sorted@)
    }

    /// The marks and the emitted nodes agree: a node is done exactly when it
    /// has been emitted, no node was emitted twice, and whatever an emitted
    /// node depends on was emitted before it.
    pub open spec fn wf(&self) -> bool {
        &&& self.marks().len() == self.graph().len()
        &&& distinct_nodes(self.graph(), self.emitted())
        &&& dependencies_first(self.graph(), self.emitted())
        &&& forall|i: int|
            0 <= i < self.marks().len() ==> (#[trigger] self.marks()[i] is Done
                <==> self.emitted().contains(i))
    }

    /// A walk that has not started: every node unvisited, nothing emitted.
    pub fn new(nodes: &'a Vec<DP>) -> (sorter: Self)
        ensures
            sorter.wf(),
            sorter.graph() == graph_of(nodes@),
            sorter.marks().len() == nodes@.len(),
            forall|i: int| 0 <= i < nodes@.len() ==> sorter.marks()[i] is Unvisited,
            sorter.emitted().len() == 0,
    {
        let mut marks: Vec<Mark> = Vec::new();
        let mut i: usize = 0;
        while i < nodes.len()
            invariant
                i <= nodes@.len(),
                marks@.len() == i,
                forall|k: int| 0 <= k < i ==> marks@[k] is Unvisited,
            decreases nodes@.len() - i,
        {
            marks.push(Mark::Unvisited);
            i = i + 1;
        }
        let sorter = Sorter { nodes, sorted: Vec::new(), marks };
        assert(sorter.emitted() =~= Seq::<int>::empty());
        sorter
    }

    /// Whether node `n` names node `m` among its children.
    fn depends_on(&self, n: usize, m: usize) -> (found: bool)
        requires
            n < self.graph().len(),
            m < self.graph().len(),
        ensures
            found == edge(self.graph(), n as int, m as int),
    {
        let children = self.nodes[n].children();
        let name = self.nodes[m].name();
        lists_name(children, name)
    }

    /// Emits node `n` after everything it depends on, unless the walk from it
    /// is doomed. An index beyond the list names nothing and is left alone.
    pub fn visit(&mut self, n: usize) -> (r: Result<(), DepsError>)
        requires
            old(self).wf(),
        ensures
            final(self).wf(),
            final(self).graph() == old(self).graph(),
            r is Err <==> doomed(old(self).graph(), old(self).marks(), n as int),
            r is Err ==> r == Err::<(), DepsError>(DepsError::CyclicDependency),
            advanced_from(old(self).graph(), old(self).marks(), final(self).marks(), n as int),
            r is Ok ==> settled_from(old(self).graph(), old(self).marks(), final(self).marks(), n as int),
            old(self).emitted().is_prefix_of(final(self).emitted()),
        decreases count_unvisited(old(self).marks()),
    {
        let ghost g = self.graph();
        let ghost before = self.marks@;
        let ghost out0 = self.emitted();
        if n >= self.nodes.len() {
            proof {
                if doomed(g, before, n as int) {
                    let x = choose|x: int| #[trigger] reaches(g, n as int, x) && (before[x] is InProgress || on_cycle(g, x));
                    lemma_reached_inside(g, n as int, x);
                }
                assert forall|i: int| 0 <= i < before.len() implies !reaches(g, n as int, i) by {
                    if reaches(g, n as int, i) {
                        lemma_reached_inside(g, n as int, i);
                    }
                }
            }
            return Ok(());
        }
        match self.marks[n] {
            Mark::Done => {
                proof {
                    let a = choose|a: int| 0 <= a < out0.len() && out0[a] == n as int;
                    Self::lemma_done_is_settled(g, before, out0, a);
                }
                return Ok(());
            },
            Mark::InProgress => {
                proof {
                    lemma_reaches_self(g, n as int);
                }
                return Err(DepsError::CyclicDependency);
            },
            Mark::Unvisited => {},
        }
        self.marks.set(n, Mark::InProgress);
        proof {
            lemma_count_update(before, n as int, Mark::InProgress);
            lemma_reaches_self(g, n as int);
        }
        let mut m: usize = 0;
        while m < self.nodes.len()
            invariant
                self.wf(),
                self.graph() == g,
                g.len() == self.nodes@.len(),
                self.nodes@.len() == before.len(),
                n < before.len(),
                m <= before.len(),
                in_flight(g, before, self.marks@, n as int),
                forall|j: int| 0 <= j < m && edge(g, n as int, j) ==> self.marks@[j] is Done,
                out0.is_prefix_of(self.emitted()),
                count_unvisited(self.marks@) < count_unvisited(before),
                before == old(self).marks(),
                g == old(self).graph(),
                out0 == old(self).emitted(),
            decreases before.len() - m,
        {
            if self.depends_on(n, m) {
                let ghost s1 = self.marks@;
                let ghost e1 = self.emitted();
                let r = self.visit(m);
                let ghost s2 = self.marks@;
                proof {
                    assert(e1.is_prefix_of(self.emitted()));
                    assert forall|i: int| 0 <= i < s1.len() && #[trigger] s2[i] is Unvisited implies s1[i] is Unvisited by {}
                    lemma_count_monotone(s1, s2);
                }
                match r {
                    Err(e) => {
                        proof {
                            let x = choose|x: int| #[trigger] reaches(g, m as int, x) && (s1[x] is InProgress || on_cycle(g, x));
                            lemma_reaches_step(g, n as int, m as int, x);
                            lemma_reached_inside(g, m as int, x);
                            if on_cycle(g, x) {
                                assert(doomed(g, before, n as int));
                            } else if x == n as int {
                                lemma_cycle_closes(g, n as int, m as int);
                                assert(reaches(g, n as int, n as int));
                                assert(doomed(g, before, n as int));
                            } else {
                                assert(s1[x] == before[x]);
                                assert(doomed(g, before, n as int));
                            }
                            assert forall|i: int|
                                0 <= i < before.len() && #[trigger] s2[i] != before[i] implies before[i] is Unvisited
                                && reaches(g, n as int, i) by {
                                if i == n as int {
                                    lemma_reaches_self(g, n as int);
                                } else if s2[i] != s1[i] {
                                    assert(s1[i] is Unvisited && reaches(g, m as int, i));
                                    lemma_reaches_step(g, n as int, m as int, i);
                                    assert(s1[i] == before[i]);
                                } else {
                                    assert(s1[i] != before[i]);
                                }
                            }
                        }
                        return Err(e);
                    },
                    Ok(()) => {
                        proof {
                            lemma_reaches_self(g, m as int);
                            assert(s2[m as int] is Done) by {
                                if s1[m as int] is InProgress {
                                    assert(doomed(g, s1, m as int));
                                }
                            }
                            assert forall|i: int| 0 <= i < before.len() && i != n as int implies #[trigger] s2[i]
                                == before[i] || (before[i] is Unvisited && s2[i] is Done && reaches(
                                g,
                                n as int,
                                i,
                            )) by {
                                if s2[i] != s1[i] {
                                    lemma_reaches_step(g, n as int, m as int, i);
                                    assert(s1[i] == before[i]);
                                } else {
                                    assert(s1[i] == before[i] || (before[i] is Unvisited && s1[i] is Done
                                        && reaches(g, n as int, i)));
                                }
                            }
                            assert forall|j: int| 0 <= j < m + 1 && edge(g, n as int, j) implies s2[j] is Done by {
                                if j < m {
                                    assert(s1[j] is Done);
                                    assert(s2[j] == s1[j]);
                                }
                            }
                        }
                    },
                }
            }
            m = m + 1;
        }
        let ghost s3 = self.marks@;
        let ghost e3 = self.emitted();
        self.marks.set(n, Mark::Done);
        self.sorted.push(n);
        proof {
            let s4 = self.marks@;
            let e4 = self.emitted();
            assert(e4 =~= e3.push(n as int));
            assert(s4 == s3.update(n as int, Mark::Done));
            assert(!e3.contains(n as int));
            assert forall|a: int, j: int| 0 <= a < e4.len() && #[trigger] edge(g, e4[a], j) implies placed_before(
                e4,
                a,
                j,
            ) by {
                if a < e3.len() {
                    assert(edge(g, e3[a], j));
                    assert(placed_before(e3, a, j));
                    let b = choose|b: int| 0 <= b < a && #[trigger] e3[b] == j;
                    assert(e4[b] == j);
                } else {
                    assert(s3[j] is Done);
                    assert(e3.contains(j));
                    let b = choose|b: int| 0 <= b < e3.len() && e3[b] == j;
                    assert(e4[b] == j);
                }
            }
            assert forall|i: int| 0 <= i < s4.len() implies (#[trigger] s4[i] is Done <==> e4.contains(i)) by {
                if i == n as int {
                    assert(e4[e3.len() as int] == i);
                } else {
                    assert(s4[i] == s3[i]);
                    if e3.contains(i) {
                        let b = choose|b: int| 0 <= b < e3.len() && e3[b] == i;
                        assert(e4[b] == i);
                    }
                    if e4.contains(i) {
                        let b = choose|b: int| 0 <= b < e4.len() && e4[b] == i;
                        assert(e3[b] == i);
                    }
                }
            }
            assert(distinct_nodes(g, e4));
            assert(self.wf());
            Self::lemma_done_is_settled(g, s4, e4, e3.len() as int);
            assert forall|i: int| 0 <= i < before.len() implies #[trigger] s4[i] == if before[i] is Unvisited
                && reaches(g, n as int, i) {
                Mark::Done
            } else {
                before[i]
            } by {
                if i != n as int {
                    assert(s4[i] == s3[i]);
                    assert(s3[i] == before[i] || (before[i] is Unvisited && s3[i] is Done && reaches(
                        g,
                        n as int,
                        i,
                    )));
                }
            }
            if doomed(g, before, n as int) {
                let x = choose|x: int| #[trigger] reaches(g, n as int, x) && (before[x] is InProgress || on_cycle(g, x));
                lemma_reached_inside(g, n as int, x);
                assert(!doomed(g, s4, n as int));
                assert(s4[x] is Done);
                assert(s4[x] == s3[x]);
                assert(false);
            }
            lemma_count_update(s3, n as int, Mark::Done);
        }
        Ok(())
    }

    /// Visits every node that has not been met yet, in the order of the list.
    /// It fails exactly when one of them cannot be finished; otherwise all of
    /// them are done afterwards.
    pub fn sort(&mut self) -> (r: Result<(), DepsError>)
        requires
            old(self).wf(),
        ensures
            final(self).wf(),
            final(self).graph() == old(self).graph(),
            r is Err <==> some_walk_doomed(old(self).graph(), old(self).marks()),
            r is Err ==> r == Err::<(), DepsError>(DepsError::CyclicDependency),
            final(self).marks().len() == old(self).marks().len(),
            forall|i: int|
                0 <= i < old(self).marks().len() && #[trigger] final(self).marks()[i] != old(
                    self,
                ).marks()[i] ==> old(self).marks()[i] is Unvisited,
            r is Ok ==> forall|i: int|
                0 <= i < old(self).marks().len() ==> #[trigger] final(self).marks()[i] == if old(
                    self,
                ).marks()[i] is Unvisited {
                    Mark::Done
                } else {
                    old(self).marks()[i]
                },
            old(self).emitted().is_prefix_of(final(self).emitted()),
    {
        let ghost g = self.graph();
        let ghost before = self.marks@;
        let ghost out0 = self.emitted();
        let mut i: usize = 0;
        while i < self.nodes.len()
            invariant
                self.wf(),
                self.graph() == g,
                g.len() == self.nodes@.len(),
                self.nodes@.len() == before.len(),
                i <= before.len(),
                only_done_since(before, self.marks@),
                forall|k: int| 0 <= k < i && before[k] is Unvisited ==> self.marks@[k] is Done,
                out0.is_prefix_of(self.emitted()),
                before == old(self).marks(),
                g == old(self).graph(),
                out0 == old(self).emitted(),
            decreases before.len() - i,
        {
            if let Mark::Unvisited = self.marks[i] {
                let ghost s1 = self.marks@;
                let r = self.visit(i);
                let ghost s2 = self.marks@;
                match r {
                    Err(e) => {
                        proof {
                            let x = choose|x: int| #[trigger]
                                reaches(g, i as int, x) && (s1[x] is InProgress || on_cycle(g, x));
                            lemma_reached_inside(g, i as int, x);
                            assert(s1[x] is InProgress ==> s1[x] == before[x]);
                            assert(doomed(g, before, i as int));
                            assert(s1[i as int] == before[i as int]);
                            assert(some_walk_doomed(g, before));
                            assert forall|k: int|
                                0 <= k < before.len() && #[trigger] s2[k] != before[k] implies before[k] is Unvisited by {
                                if s2[k] != s1[k] {
                                    assert(s1[k] is Unvisited);
                                    assert(s1[k] == before[k]);
                                } else {
                                    assert(s1[k] != before[k]);
                                }
                            }
                        }
                        return Err(e);
                    },
                    Ok(()) => {
                        proof {
                            lemma_reaches_self(g, i as int);
                            assert(s2[i as int] is Done);
                            assert forall|k: int| 0 <= k < before.len() implies #[trigger] s2[k] == before[k] || (
                            before[k] is Unvisited && s2[k] is Done) by {
                                if s2[k] != s1[k] {
                                    assert(s1[k] == before[k]);
                                } else {
                                    assert(s1[k] == before[k] || (before[k] is Unvisited && s1[k] is Done));
                                }
                            }
                            assert forall|k: int| 0 <= k < i + 1 && before[k] is Unvisited implies s2[k] is Done by {
                                if k < i {
                                    assert(s1[k] is Done);
                                    assert(s2[k] == s1[k]);
                                }
                            }
                        }
                    },
                }
            }
            i = i + 1;
        }
        proof {
            let now = self.marks@;
            let out = self.emitted();
            if some_walk_doomed(g, before) {
                let k = choose|k: int| 0 <= k < before.len() && before[k] is Unvisited && #[trigger] doomed(g, before, k);
                let x = choose|x: int| #[trigger] reaches(g, k, x) && (before[x] is InProgress || on_cycle(g, x));
                lemma_reached_inside(g, k, x);
                assert(now[k] is Done);
                let a = choose|a: int| 0 <= a < out.len() && out[a] == k;
                Self::lemma_done_is_settled(g, now, out, a);
                assert(now[x] is Done);
                assert(now[x] == before[x] || (before[x] is Unvisited && now[x] is Done));
                assert(doomed(g, now, k));
                assert(false);
            }
            assert forall|k: int| 0 <= k < before.len() implies #[trigger] now[k] == if before[k] is Unvisited {
                Mark::Done
            } else {
                before[k]
            } by {
                assert(now[k] == before[k] || (before[k] is Unvisited && now[k] is Done));
            }
        }
        Ok(())
    }

    /// Ends the walk and hands out the nodes emitted, in the order of their
    /// emission.
    pub fn into_sorted(self) -> (order: Vec<usize>)
        ensures
            indices(order@) == self.emitted(),
    {
        self.sorted
    }

    /// From a node that is done the walk has nothing left to do: all that it
    /// reaches is done, and none of it lies on a cycle.
    proof fn lemma_done_is_settled(g: Seq<Node>, marks: Seq<Mark>, out: Seq<int>, a: int)
        requires
            marks.len() == g.len(),
            distinct_nodes(g, out),
            dependencies_first(g, out),
            forall|i: int| 0 <= i < marks.len() ==> (#[trigger] marks[i] is Done <==> out.contains(i)),
            0 <= a < out.len(),
        ensures
            !doomed(g, marks, out[a]),
            forall|i: int| reaches(g, out[a], i) ==> 0 <= i < marks.len() && marks[i] is Done,
    {
        assert forall|i: int| reaches(g, out[a], i) implies 0 <= i < marks.len() && marks[i] is Done by {
            lemma_reached_inside(g, out[a], i);
            lemma_members_closed(g, out, a, i);
        }
        if doomed(g, marks, out[a]) {
            let x = choose|x: int| #[trigger] reaches(g, out[a], x) && (marks[x] is InProgress || on_cycle(g, x));
            assert(marks[x] is Done);
            let b = choose|b: int| 0 <= b < out.len() && out[b] == x;
            lemma_members_acyclic(g, out, b);
            assert(false);
        }
    }
}

/// Orders descriptors for construction.
pub struct GraphSorter;

/// In `g` every node stands after all the nodes it depends on.
pub open spec fn dependencies_precede(g: Seq<Node>) -> bool {
    forall|a: int, b: int| #[trigger] edge(g, a, b) ==> b < a
}

/// Descriptors taken in a topological order stand after all that they depend on.
pub proof fn lemma_arranged_precede<DP: IDepData>(items: Seq<DP>, order: Seq<int>)
    requires
        is_topological_order(graph_of(items), order),
    ensures
        dependencies_precede(graph_of(arranged(items, order))),
{
    let g = graph_of(items);
    let h = graph_of(arranged(items, order));
    assert forall|a: int, b: int| #[trigger] edge(h, a, b) implies b < a by {
        assert(h[a] == g[order[a]]);
        assert(h[b] == g[order[b]]);
        assert(edge(g, order[a], order[b]));
        assert(placed_before(order, a, order[b]));
        let c = choose|c: int| 0 <= c < a && #[trigger] order[c] == order[b];
        if c < b {
            assert(order[c] != order[b]);
        } else if b < c {
            assert(order[b] != order[c]);
        }
    }
}

/// A walk that has emitted every node has emitted a topological order.
proof fn lemma_all_done_is_order(g: Seq<Node>, marks: Seq<Mark>, out: Seq<int>)
    requires
        marks.len() == g.len(),
        distinct_nodes(g, out),
        dependencies_first(g, out),
        forall|i: int| 0 <= i < marks.len() ==> (#[trigger] marks[i] is Done <==> out.contains(i)),
        forall|i: int| 0 <= i < marks.len() ==> #[trigger] marks[i] is Done,
    ensures
        is_topological_order(g, out),
{
    assert forall|i: int| 0 <= i < g.len() implies out.contains(i) by {
        assert(marks[i] is Done);
    }
    assert(out.no_duplicates());
    out.unique_seq_to_set();
    vstd::set_lib::lemma_int_range(0, g.len() as int);
    assert(out.to_set() =~= vstd::set_lib::set_int_range(0, g.len() as int)) by {
        assert forall|i: int| out.to_set().contains(i) <==> vstd::set_lib::set_int_range(
            0,
            g.len() as int,
        ).contains(i) by {
            if out.to_set().contains(i) {
                let b = choose|b: int| 0 <= b < out.len() && out[b] == i;
                assert(0 <= out[b] < g.len());
            }
            if 0 <= i < g.len() {
                assert(out.contains(i));
            }
        }
    }
}

impl GraphSorter {
    /// The positions of the descriptors in an order in which they can be
    /// built: each after all that it depends on. Fails exactly when the
    /// descriptors depend on each other in a circle.
    pub fn order<DP: IDepData>(dep_datas: &Vec<DP>) -> (r: Result<Vec<usize>, DepsError>)
        ensures
            r is Err <==> has_cycle(graph_of(dep_datas@)),
            r is Err ==> r == Err::<Vec<usize>, DepsError>(DepsError::CyclicDependency),
            r matches Ok(order) ==> is_topological_order(graph_of(dep_datas@), indices(order@)),
    {
        let ghost g = graph_of(dep_datas@);
        let mut sorter = Sorter::new(dep_datas);
        let ghost fresh = sorter.marks();
        proof {
            lemma_fresh_doom(g, fresh);
            if has_cycle(g) {
                let i = choose|i: int| 0 <= i < g.len() && #[trigger] doomed(g, fresh, i);
                assert(some_walk_doomed(g, fresh));
            }
        }
        match sorter.sort() {
            Err(e) => Err(e),
            Ok(()) => {
                proof {
                    lemma_all_done_is_order(g, sorter.marks(), sorter.emitted());
                }
                Ok(sorter.into_sorted())
            },
        }
    }

    /// Hands out the items in the order given: the item at the first position
    /// named comes first.
    fn arrange<DP>(items: Vec<DP>, order: &Vec<usize>) -> (out: Vec<DP>)
        requires
            forall|k: int| 0 <= k < order@.len() ==> order@[k] < items@.len(),
            forall|a: int, b: int| 0 <= a < b < order@.len() ==> order@[a] != order@[b],
        ensures
            out@ == arranged(items@, indices(order@)),
    {
        let ghost orig = items@;
        let n = items.len();
        let mut items = items;
        let mut slots: Vec<Option<DP>> = Vec::new();
        while items.len() > 0
            invariant
                items@.len() + slots@.len() == n,
                n == orig.len(),
                forall|j: int| 0 <= j < items@.len() ==> items@[j] == orig[j],
                forall|j: int| 0 <= j < slots@.len() ==> slots@[j] == Some(orig[n - 1 - j]),
            decreases items@.len(),
        {
            let item = items.pop();
            slots.push(item);
        }
        let mut out: Vec<DP> = Vec::new();
        let mut k: usize = 0;
        while k < order.len()
            invariant
                k <= order@.len(),
                n == orig.len(),
                slots@.len() == n,
                forall|i: int| 0 <= i < order@.len() ==> order@[i] < n,
                forall|a: int, b: int| 0 <= a < b < order@.len() ==> order@[a] != order@[b],
                forall|j: int|
                    0 <= j < n ==> #[trigger] slots@[j] == if exists|i: int|
                        0 <= i < k && order@[i] == n - 1 - j {
                        None::<DP>
                    } else {
                        Some(orig[n - 1 - j])
                    },
                out@.len() == k,
                forall|i: int| 0 <= i < k ==> out@[i] == orig[order@[i] as int],
            decreases order@.len() - k,
        {
            let at = order[k];
            if at < n {
                let ghost was = slots@;
                let slot = &mut slots[n - 1 - at];
                let taken = slot.take();
                proof {
                    if exists|i: int| 0 <= i < k && order@[i] == n - 1 - (n - 1 - at) {
                        let i = choose|i: int| 0 <= i < k && order@[i] == n - 1 - (n - 1 - at);
                        assert(order@[i] != order@[k as int]);
                    }
                    assert(was[n - 1 - at] == Some(orig[at as int]));
                }
                match taken {
                    Some(item) => {
                        out.push(item);
                    },
                    None => {},
                }
                proof {
                    assert forall|j: int| 0 <= j < n implies #[trigger] slots@[j] == if exists|i: int|
                        0 <= i < k + 1 && order@[i] == n - 1 - j {
                        None::<DP>
                    } else {
                        Some(orig[n - 1 - j])
                    } by {
                        if j == n - 1 - at {
                            assert(order@[k as int] == n - 1 - j);
                        } else {
                            assert(slots@[j] == was[j]);
                            if exists|i: int| 0 <= i < k + 1 && order@[i] == n - 1 - j {
                                let i = choose|i: int| 0 <= i < k + 1 && order@[i] == n - 1 - j;
                                assert(i < k);
                            }
                        }
                    }
                }
            }
            k = k + 1;
        }
        assert(out@ =~= arranged(orig, indices(order@)));
        out
    }

    /// The descriptors in an order in which they can be built: each after all
    /// that it depends on. Fails exactly when the descriptors depend on each
    /// other in a circle.
    pub fn sort<DP: IDepData>(dep_datas: Vec<DP>) -> (r: Result<Vec<DP>, DepsError>)
        ensures
            r is Err <==> has_cycle(graph_of(dep_datas@)),
            r is Err ==> r == Err::<Vec<DP>, DepsError>(DepsError::CyclicDependency),
            r matches Ok(sorted) ==> is_sorted_arrangement(dep_datas@, sorted@)
                && dependencies_precede(graph_of(sorted@)),
    {
        match Self::order(&dep_datas) {
            Err(e) => Err(e),
            Ok(order) => {
                let ghost items = dep_datas@;
                proof {
                    let o = indices(order@);
                    assert forall|a: int, b: int| 0 <= a < b < order@.len() implies order@[a] != order@[b] by {
                        assert(o[a] != o[b]);
                    }
                    assert forall|k: int| 0 <= k < order@.len() implies order@[k] < items.len() by {
                        assert(0 <= o[k] < graph_of(items).len());
                    }
                    lemma_arranged_precede(items, o);
                }
                let sorted = Self::arrange(dep_datas, &order);
                Ok(sorted)
            },
        }
    }
}

} // verus!
