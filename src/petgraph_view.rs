//! `petgraph::Graph` seen as a `DirectedGraphView`.
use vstd::prelude::*;
use crate::graph_view::{successors_in_range, successors_of, DirectedGraphView};

verus! {

#[verifier::external_type_specification]
#[verifier::external_body]
#[verifier::reject_recursive_types(N)]
#[verifier::reject_recursive_types(E)]
#[verifier::reject_recursive_types(Ty)]
#[verifier::reject_recursive_types(Ix)]
pub struct ExGraph<N, E, Ty, Ix>(petgraph::Graph<N, E, Ty, Ix>);

#[verifier::external_type_specification]
#[verifier::external_body]
pub struct ExDirected(petgraph::Directed);

/// The outgoing adjacency of a petgraph graph: entry `i` lists, in the order
/// in which `neighbors_directed(i, Outgoing)` yields them, the targets of the
/// edges leaving node `i`; its length is the number of nodes.
pub uninterp spec fn petgraph_successor_lists(g: petgraph::Graph<(), ()>) -> Seq<Seq<usize>>;

/// Relies on petgraph's `Graph::node_count`: the number of nodes, which is the
/// length of the adjacency; `add_edge` refuses endpoints that are not nodes
/// and `remove_node` drops the edges of the node it removes, so every edge
/// leads to a node below that count.
#[verifier::external_body]
fn petgraph_node_count(g: &petgraph::Graph<(), ()>) -> (r: usize)
    ensures
        r == petgraph_successor_lists(*g).len(),
        forall|i: int, j: int|
            0 <= i < r && 0 <= j < petgraph_successor_lists(*g)[i].len()
                ==> #[trigger] petgraph_successor_lists(*g)[i][j] < r,
{
    g.node_count()
}

/// Relies on petgraph's `Graph::neighbors_directed` with `Outgoing`: the
/// targets of the edges leaving `node`, in the graph's enumeration order.
#[verifier::external_body]
fn petgraph_outgoing(g: &petgraph::Graph<(), ()>, node: usize) -> (r: Vec<usize>)
    requires
        node < petgraph_successor_lists(*g).len(),
    ensures
        r@ == petgraph_successor_lists(*g)[node as int],
{
    g.neighbors_directed(petgraph::graph::NodeIndex::new(node), petgraph::Direction::Outgoing)
        .map(|n| n.index())
        .collect()
}

impl DirectedGraphView for petgraph::Graph<(), ()> {
    open spec fn successor_lists(&self) -> Seq<Seq<usize>> {
        petgraph_successor_lists(*self)
    }

    fn num_nodes(&self) -> (r: usize) {
        let r = petgraph_node_count(self);
        assert(successors_in_range(self.successor_lists()));
        r
    }

    fn successors(&self, node: usize) -> (r: Vec<usize>) {
        if node < petgraph_node_count(self) {
            petgraph_outgoing(self, node)
        } else {
            Vec::new()
        }
    }
}

} // verus!
