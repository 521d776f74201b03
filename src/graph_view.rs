//! The capability a graph offers to the traversal: a node count and, for each
//! node, its outgoing neighbours in a fixed order.
use vstd::prelude::*;

verus! {

/// The outgoing neighbours of `node` in the adjacency model `adj`: the node's
/// own list when it is a node of the graph, and nothing otherwise.
pub open spec fn successors_of(adj: Seq<Seq<usize>>, node: usize) -> Seq<usize> {
    if node < adj.len() {
        adj[node as int]
    } else {
        Seq::empty()
    }
}

/// Every edge of `adj` leads to a node of `adj`.
pub open spec fn successors_in_range(adj: Seq<Seq<usize>>) -> bool {
    forall|i: int, j: int|
        0 <= i < adj.len() && 0 <= j < adj[i].len() ==> #[trigger] adj[i][j] < adj.len()
}

/// A directed graph whose nodes are the indices `0..num_nodes()`.
///
/// Its model is `successor_lists()`: entry `i` lists the targets of the
/// edges leaving node `i`, in the order in which the graph enumerates them.
pub trait DirectedGraphView {
    spec fn successor_lists(&self) -> Seq<Seq<usize>>;

    /// The number of nodes.
    fn num_nodes(&self) -> (r: usize)
        ensures
            r == self.successor_lists().len(),
            successors_in_range(self.successor_lists()),
    ;

    /// The outgoing neighbours of `node`, in enumeration order; empty when
    /// `node` is not a node of the graph.
    fn successors(&self, node: usize) -> (r: Vec<usize>)
        ensures
            r@ == successors_of(self.successor_lists(), node),
    ;
}

} // verus!
