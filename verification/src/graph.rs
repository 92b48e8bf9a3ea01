//! A node/edge graph built as an owning arena.
//!
//! The graph owns every node; a node carries its value, its outgoing
//! weighted edges, and a back-reference to its own slot in the arena. Both
//! the back-reference and the edge targets are arena slots, never
//! addresses, so growing the arena cannot invalidate them: the
//! well-formedness invariant says that every node's back-reference
//! resolves, within the graph that allocated it, to that very node, and
//! that every edge points at an existing node.

use vstd::prelude::*;

use crate::common::{Error, Node};

verus! {

/// A directed connection to another node of the same graph, carrying an
/// unsigned weight. The target names the other node by its arena slot.
pub struct Edge {
    weight: usize,
    target: usize,
}

impl Edge {
    /// The weight, at the spec level.
    pub closed spec fn spec_weight(&self) -> usize {
        self.weight
    }

    /// The target slot, at the spec level.
    pub closed spec fn spec_target(&self) -> usize {
        self.target
    }

    /// The edge's weight.
    pub fn weight(&self) -> (r: usize)
        ensures
            r == self.spec_weight(),
    {
        self.weight
    }

    /// The arena slot of the node the edge points to.
    pub fn target(&self) -> (r: usize)
        ensures
            r == self.spec_target(),
    {
        self.target
    }
}

/// A node owned by a graph's arena: a value, the ordered list of the
/// node's outgoing edges, and the non-owning back-reference to the slot
/// the node occupies in its owner.
pub struct GraphNode<T> {
    value: T,
    edges: Vec<Edge>,
    parent: usize,
}

impl<T> GraphNode<T> {
    /// The carried value, at the spec level.
    pub closed spec fn val(&self) -> T {
        self.value
    }

    /// The outgoing edges, at the spec level.
    pub closed spec fn spec_edges(&self) -> Seq<Edge> {
        self.edges@
    }

    /// The back-reference, at the spec level.
    pub closed spec fn spec_parent(&self) -> usize {
        self.parent
    }

    /// The slot in the owning arena through which the owner reaches this
    /// node. The graph's invariant guarantees that resolving it in the
    /// graph that allocated the node yields this node again; the
    /// back-reference never owns or outlives the graph.
    pub fn get_parent(&self) -> (r: usize)
        ensures
            r == self.spec_parent(),
    {
        self.parent
    }

    /// The node's outgoing edges, in insertion order.
    pub fn edges(&self) -> (r: &Vec<Edge>)
        ensures
            r@ == self.spec_edges(),
    {
        &self.edges
    }
}

impl<T> Node for GraphNode<T> {
    type Output = T;

    open spec fn spec_value(&self) -> T {
        self.val()
    }

    fn value(&self) -> (r: &T) {
        &self.value
    }
}

/// An owning arena of graph nodes. Nodes are appended by `spawn` and are
/// never moved or individually destroyed, so slots handed out earlier stay
/// valid until the whole graph is dropped.
pub struct Graph<T> {
    nodes: Vec<GraphNode<T>>,
}

impl<T> Graph<T> {
    /// The values held by the arena, in spawn order.
    pub closed spec fn view(&self) -> Seq<T> {
        self.nodes@.map_values(|n: GraphNode<T>| n.value)
    }

    /// The nodes of the arena, in spawn order.
    pub closed spec fn spec_nodes(&self) -> Seq<GraphNode<T>> {
        self.nodes@
    }

    /// Every node's back-reference resolves to its own slot, and every
    /// edge targets an existing node.
    pub closed spec fn wf(&self) -> bool {
        &&& forall|i: int|
            0 <= i < self.nodes@.len() ==> (#[trigger] self.nodes@[i]).parent == i
        &&& forall|i: int, k: int|
            0 <= i < self.nodes@.len() && 0 <= k < self.nodes@[i].edges@.len() ==> (
            #[trigger] self.nodes@[i].edges@[k]).target < self.nodes@.len()
    }

    /// An arena with no nodes.
    pub fn new() -> (r: Self)
        ensures
            r.wf(),
            r@ == Seq::<T>::empty(),
            r.spec_nodes() == Seq::<GraphNode<T>>::empty(),
    {
        let r = Graph { nodes: Vec::new() };
        proof {
            assert(r@ =~= Seq::<T>::empty());
        }
        r
    }

    /// The number of nodes spawned so far.
    pub fn len(&self) -> (r: usize)
        ensures
            r == self@.len(),
    {
        self.nodes.len()
    }

    /// Appends a fresh node holding `value` to the arena and returns its
    /// slot. The slot is usable immediately, for lookup as well as for
    /// edge construction to or from nodes spawned earlier; nodes already
    /// in the arena are left exactly as they were.
    pub fn spawn(&mut self, value: T) -> (idx: usize)
        requires
            old(self).wf(),
        ensures
            final(self).wf(),
            idx == old(self)@.len(),
            final(self)@ == old(self)@.push(value),
            final(self).spec_nodes().len() == old(self).spec_nodes().len() + 1,
            final(self).spec_nodes()[idx as int].val() == value,
            final(self).spec_nodes()[idx as int].spec_parent() == idx,
            final(self).spec_nodes()[idx as int].spec_edges() == Seq::<Edge>::empty(),
            forall|i: int|
                0 <= i < old(self)@.len() ==> final(self).spec_nodes()[i] == old(
                    self,
                ).spec_nodes()[i],
    {
        let idx = self.nodes.len();
        let node = GraphNode { value, edges: Vec::new(), parent: idx };
        self.nodes.push(node);
        proof {
            assert(self@ =~= old(self)@.push(value));
            assert forall|i: int, k: int|
                0 <= i < self.nodes@.len() && 0 <= k < self.nodes@[i].edges@.len() implies (
            #[trigger] self.nodes@[i].edges@[k]).target < self.nodes@.len() by {
                if i < old(self).nodes@.len() {
                    assert(self.nodes@[i] == old(self).nodes@[i]);
                    assert(old(self).nodes@[i].edges@[k].target < old(self).nodes@.len());
                } else {
                    assert(self.nodes@[i].edges@.len() == 0);
                }
            }
        }
        idx
    }

    /// A shared reference to the node in `slot`, or `IndexOutOfBounds`
    /// when the slot is past the arena.
    pub fn get_node(&self, slot: usize) -> (r: Result<&GraphNode<T>, Error>)
        ensures
            match r {
                Result::Ok(n) => slot < self.spec_nodes().len() && *n == self.spec_nodes()[slot as int],
                Result::Err(e) => slot >= self.spec_nodes().len() && e == Error::IndexOutOfBounds,
            },
    {
        if slot < self.nodes.len() {
            Ok(&self.nodes[slot])
        } else {
            Err(Error::IndexOutOfBounds)
        }
    }

    /// Appends a directed edge of the given weight to the outgoing list of
    /// the node in `from`, targeting the node in `to`. Fails with
    /// `IndexOutOfBounds`, leaving the graph untouched, when either slot
    /// is past the arena.
    pub fn add_edge(&mut self, from: usize, to: usize, weight: usize) -> (r: Result<(), Error>)
        requires
            old(self).wf(),
        ensures
            final(self).wf(),
            match r {
                Result::Ok(u) => {
                    &&& from < old(self).spec_nodes().len()
                    &&& to < old(self).spec_nodes().len()
                    &&& final(self)@ == old(self)@
                    &&& final(self).spec_nodes().len() == old(self).spec_nodes().len()
                    &&& final(self).spec_nodes()[from as int].val() == old(
                        self,
                    ).spec_nodes()[from as int].val()
                    &&& final(self).spec_nodes()[from as int].spec_parent() == old(
                        self,
                    ).spec_nodes()[from as int].spec_parent()
                    &&& final(self).spec_nodes()[from as int].spec_edges().len() == old(
                        self,
                    ).spec_nodes()[from as int].spec_edges().len() + 1
                    &&& final(self).spec_nodes()[from as int].spec_edges().drop_last() == old(
                        self,
                    ).spec_nodes()[from as int].spec_edges()
                    &&& final(self).spec_nodes()[from as int].spec_edges().last().spec_weight()
                        == weight
                    &&& final(self).spec_nodes()[from as int].spec_edges().last().spec_target()
                        == to
                    &&& forall|i: int|
                        0 <= i < old(self).spec_nodes().len() && i != from
                            ==> final(self).spec_nodes()[i] == old(self).spec_nodes()[i]
                },
                Result::Err(e) => {
                    &&& (from >= old(self).spec_nodes().len() || to >= old(
                        self,
                    ).spec_nodes().len())
                    &&& e == Error::IndexOutOfBounds
                    &&& *final(self) == *old(self)
                },
            },
    {
        if from >= self.nodes.len() || to >= self.nodes.len() {
            return Err(Error::IndexOutOfBounds);
        }
        let edge = Edge { weight, target: to };
        self.nodes[from].edges.push(edge);
        proof {
            assert(self.nodes@[from as int].edges@.drop_last()
                =~= old(self).nodes@[from as int].edges@);
            assert(self@ =~= old(self)@);
            assert forall|i: int|
                0 <= i < self.nodes@.len() implies (#[trigger] self.nodes@[i]).parent == i by {
                if i != from {
                    assert(self.nodes@[i] == old(self).nodes@[i]);
                }
            }
            assert forall|i: int, k: int|
                0 <= i < self.nodes@.len() && 0 <= k < self.nodes@[i].edges@.len() implies (
            #[trigger] self.nodes@[i].edges@[k]).target < self.nodes@.len() by {
                if i != from {
                    assert(self.nodes@[i] == old(self).nodes@[i]);
                    assert(old(self).nodes@[i].edges@[k].target < old(self).nodes@.len());
                } else {
                    if k < self.nodes@[i].edges@.len() - 1 {
                        assert(self.nodes@[i].edges@[k] == old(self).nodes@[i].edges@[k]);
                        assert(old(self).nodes@[i].edges@[k].target < old(self).nodes@.len());
                    } else {
                        assert(self.nodes@[i].edges@[k] == edge);
                    }
                }
            }
        }
        Ok(())
    }
}

} // verus!