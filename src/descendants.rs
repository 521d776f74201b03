//! The nodes at an exact forward distance from a source, by breadth-first
//! layer expansion.
use vstd::prelude::*;
use crate::graph_view::{successors_in_range, successors_of, DirectedGraphView};
use crate::visited::{visited_nodes, VisitedSet, CAPACITY_HINT_LIMIT};

verus! {

/// Offers the nodes of `candidates`, in order, to a layer under construction:
/// a node that is not in `seen` yet is appended to `layer` and added to
/// `seen`; a node already seen is passed over.
pub open spec fn absorb(layer: Seq<usize>, seen: Set<usize>, candidates: Seq<usize>) -> (Seq<
    usize,
>, Set<usize>)
    decreases candidates.len(),
{
    if candidates.len() == 0 {
        (layer, seen)
    } else {
        let (l, s) = absorb(layer, seen, candidates.drop_last());
        let c = candidates.last();
        if s.contains(c) {
            (l, s)
        } else {
            (l.push(c), s.insert(c))
        }
    }
}

/// The layer that follows `layer`, with the seen set after it: the
/// successors of the nodes of `layer`, node by node and each in enumeration
/// order, that were not seen before.
pub open spec fn expand(adj: Seq<Seq<usize>>, layer: Seq<usize>, seen: Set<usize>) -> (Seq<
    usize,
>, Set<usize>)
    decreases layer.len(),
{
    if layer.len() == 0 {
        (Seq::empty(), seen)
    } else {
        let (l, s) = expand(adj, layer.drop_last(), seen);
        absorb(l, s, successors_of(adj, layer.last()))
    }
}

/// Layer `k` of the expansion from `source`, with every node seen by the
/// time it is complete. Layer 0 is the source alone.
pub open spec fn layer_at(adj: Seq<Seq<usize>>, source: usize, k: nat) -> (Seq<usize>, Set<
    usize,
>)
    decreases k,
{
    if k == 0 {
        (seq![source], set![source])
    } else {
        let (l, s) = layer_at(adj, source, (k - 1) as nat);
        expand(adj, l, s)
    }
}

/// The nodes found at `distance` layers from `source`, in discovery order.
pub open spec fn descendants_at(adj: Seq<Seq<usize>>, source: usize, distance: nat) -> Seq<usize> {
    layer_at(adj, source, distance).0
}

/// Every node discovered while expanding `distance` layers from `source`,
/// the source included.
pub open spec fn visited_within(adj: Seq<Seq<usize>>, source: usize, distance: nat) -> Set<usize> {
    layer_at(adj, source, distance).1
}

/// Some node of `layer` has an edge to `v`.
pub open spec fn feeds(adj: Seq<Seq<usize>>, layer: Seq<usize>, v: usize) -> bool {
    exists|k: int| 0 <= k < layer.len() && #[trigger] successors_of(adj, layer[k]).contains(v)
}

proof fn lemma_drop_last_contains(q: Seq<usize>)
    requires
        q.len() > 0,
    ensures
        forall|x: usize| q.contains(x) <==> q.drop_last().contains(x) || x == q.last(),
{
    assert forall|x: usize| q.contains(x) <==> q.drop_last().contains(x) || x == q.last() by {
        if q.contains(x) {
            let k = choose|k: int| 0 <= k < q.len() && q[k] == x;
            if k < q.len() - 1 {
                assert(q.drop_last()[k] == x);
            }
        }
        if q.drop_last().contains(x) {
            let k = choose|k: int| 0 <= k < q.drop_last().len() && q.drop_last()[k] == x;
            assert(q[k] == x);
        }
        if x == q.last() {
            assert(q[q.len() - 1] == x);
        }
    }
}

proof fn lemma_absorb(layer: Seq<usize>, seen: Set<usize>, candidates: Seq<usize>)
    requires
        layer.no_duplicates(),
        seen.finite(),
        forall|x: usize| layer.contains(x) ==> seen.contains(x),
    ensures
        ({
            let (l, s) = absorb(layer, seen, candidates);
            &&& l.no_duplicates()
            &&& s.finite()
            &&& forall|x: usize| l.contains(x) ==> s.contains(x)
            &&& forall|x: usize| s.contains(x) <==> seen.contains(x) || candidates.contains(x)
            &&& forall|x: usize|
                l.contains(x) <==> layer.contains(x) || (candidates.contains(x) && !seen.contains(
                    x,
                ))
        }),
    decreases candidates.len(),
{
    if candidates.len() > 0 {
        lemma_absorb(layer, seen, candidates.drop_last());
        lemma_drop_last_contains(candidates);
        let (l, s) = absorb(layer, seen, candidates.drop_last());
        let c = candidates.last();
        if !s.contains(c) {
            lemma_drop_last_contains(l.push(c));
            assert(l.push(c).drop_last() =~= l);
            assert forall|i: int, j: int|
                0 <= i < l.push(c).len() && 0 <= j < l.push(c).len() && i != j implies l.push(
                    c,
                )[i] != l.push(c)[j] by {
                if i < l.len() && j < l.len() {
                } else if i < l.len() {
                    assert(l.contains(l[i]));
                } else {
                    assert(l.contains(l[j]));
                }
            }
        }
    }
}

proof fn lemma_expand(adj: Seq<Seq<usize>>, layer: Seq<usize>, seen: Set<usize>)
    requires
        seen.finite(),
    ensures
        ({
            let (l, s) = expand(adj, layer, seen);
            &&& l.no_duplicates()
            &&& s.finite()
            &&& forall|x: usize| l.contains(x) ==> s.contains(x)
            &&& forall|x: usize| s.contains(x) <==> seen.contains(x) || feeds(adj, layer, x)
            &&& forall|x: usize| l.contains(x) <==> !seen.contains(x) && feeds(adj, layer, x)
        }),
    decreases layer.len(),
{
    if layer.len() > 0 {
        let front = layer.drop_last();
        let u = layer.last();
        lemma_expand(adj, front, seen);
        let (l, s) = expand(adj, front, seen);
        lemma_absorb(l, s, successors_of(adj, u));
        assert forall|x: usize|
            feeds(adj, layer, x) <==> feeds(adj, front, x) || successors_of(adj, u).contains(
                x,
            ) by {
            if feeds(adj, layer, x) {
                let k = choose|k: int|
                    0 <= k < layer.len() && #[trigger] successors_of(adj, layer[k]).contains(x);
                if k < front.len() {
                    assert(successors_of(adj, front[k]).contains(x));
                }
            }
            if feeds(adj, front, x) {
                let k = choose|k: int|
                    0 <= k < front.len() && #[trigger] successors_of(adj, front[k]).contains(x);
                assert(successors_of(adj, layer[k]).contains(x));
            }
            if successors_of(adj, u).contains(x) {
                assert(successors_of(adj, layer[layer.len() - 1]).contains(x));
            }
        }
    }
}

/// Each layer lists distinct nodes, all of them seen, and the seen set is a
/// finite set that holds the source.
pub proof fn lemma_layer_shape(adj: Seq<Seq<usize>>, source: usize, k: nat)
    ensures
        ({
            let (l, s) = layer_at(adj, source, k);
            &&& l.no_duplicates()
            &&& s.finite()
            &&& s.contains(source)
            &&& forall|x: usize| l.contains(x) ==> s.contains(x)
        }),
    decreases k,
{
    if k == 0 {
        assert(seq![source].contains(source) ==> seq![source][0] == source);
        assert forall|x: usize| seq![source].contains(x) implies set![source].contains(x) by {
            let i = choose|i: int| 0 <= i < seq![source].len() && seq![source][i] == x;
        }
    } else {
        lemma_layer_shape(adj, source, (k - 1) as nat);
        let (l, s) = layer_at(adj, source, (k - 1) as nat);
        lemma_expand(adj, l, s);
    }
}

/// Each node of `p` but the last has an edge to the next one.
pub open spec fn is_walk(adj: Seq<Seq<usize>>, p: Seq<usize>) -> bool {
    forall|i: int| 0 <= i < p.len() - 1 ==> #[trigger] successors_of(adj, p[i]).contains(p[i + 1])
}

/// There is a walk of exactly `k` forward edges from `source` to `v`.
pub open spec fn walk_of_length(adj: Seq<Seq<usize>>, source: usize, v: usize, k: nat) -> bool {
    exists|p: Seq<usize>|
        #[trigger] is_walk(adj, p) && p.len() == k + 1 && p[0] == source && p[k as int] == v
}

proof fn lemma_walk_zero(adj: Seq<Seq<usize>>, source: usize, v: usize)
    ensures
        walk_of_length(adj, source, v, 0) <==> v == source,
{
    if v == source {
        assert(is_walk(adj, seq![source]));
    }
}

/// A walk to `u` followed by an edge from `u` to `v` is a walk to `v`.
proof fn lemma_walk_step(adj: Seq<Seq<usize>>, source: usize, u: usize, v: usize, k: nat)
    requires
        walk_of_length(adj, source, u, k),
        successors_of(adj, u).contains(v),
    ensures
        walk_of_length(adj, source, v, k + 1),
{
    let p = choose|p: Seq<usize>|
        #[trigger] is_walk(adj, p) && p.len() == k + 1 && p[0] == source && p[k as int] == u;
    let q = p.push(v);
    assert forall|i: int| 0 <= i < q.len() - 1 implies #[trigger] successors_of(adj, q[i]).contains(
        q[i + 1],
    ) by {
        if i < k {
            assert(successors_of(adj, p[i]).contains(p[i + 1]));
        }
    }
    assert(is_walk(adj, q));
}

/// The last edge of a walk of positive length comes from a node that the
/// rest of the walk reaches.
proof fn lemma_walk_last_edge(adj: Seq<Seq<usize>>, source: usize, v: usize, k: nat) -> (u: usize)
    requires
        k > 0,
        walk_of_length(adj, source, v, k),
    ensures
        walk_of_length(adj, source, u, (k - 1) as nat),
        successors_of(adj, u).contains(v),
{
    let p = choose|p: Seq<usize>|
        #[trigger] is_walk(adj, p) && p.len() == k + 1 && p[0] == source && p[k as int] == v;
    let q = p.take(k as int);
    assert forall|i: int| 0 <= i < q.len() - 1 implies #[trigger] successors_of(adj, q[i]).contains(
        q[i + 1],
    ) by {
        assert(successors_of(adj, p[i]).contains(p[i + 1]));
    }
    assert(is_walk(adj, q));
    assert(successors_of(adj, p[k - 1]).contains(p[k - 1 + 1]));
    p[k - 1]
}

/// The shortest forward walk from `source` to `v` has exactly `k` edges.
pub open spec fn at_distance(adj: Seq<Seq<usize>>, source: usize, v: usize, k: nat) -> bool {
    &&& walk_of_length(adj, source, v, k)
    &&& forall|j: nat| j < k ==> !#[trigger] walk_of_length(adj, source, v, j)
}

/// Some forward walk from `source` to `v` has at most `k` edges.
pub open spec fn within_distance(adj: Seq<Seq<usize>>, source: usize, v: usize, k: nat) -> bool {
    exists|j: nat| j <= k && #[trigger] walk_of_length(adj, source, v, j)
}

/// Layer `k` holds exactly the nodes at distance `k` from the source, and
/// the nodes seen by then are exactly those within distance `k`.
pub proof fn lemma_layer_meaning(adj: Seq<Seq<usize>>, source: usize, k: nat)
    ensures
        forall|v: usize| #[trigger]
            layer_at(adj, source, k).0.contains(v) <==> at_distance(adj, source, v, k),
        forall|v: usize| #[trigger]
            layer_at(adj, source, k).1.contains(v) <==> within_distance(adj, source, v, k),
    decreases k,
{
    if k == 0 {
        assert forall|v: usize| #[trigger] seq![source].contains(v) <==> v == source by {
            if v == source {
                assert(seq![source][0] == v);
            }
        }
        assert forall|v: usize| within_distance(adj, source, v, 0) <==> v == source by {
            lemma_walk_zero(adj, source, v);
            if within_distance(adj, source, v, 0) {
                let j = choose|j: nat| j <= 0 && #[trigger] walk_of_length(adj, source, v, j);
                assert(j == 0);
            }
        }
        assert forall|v: usize| at_distance(adj, source, v, 0) <==> v == source by {
            lemma_walk_zero(adj, source, v);
        }
    } else {
        let k1 = (k - 1) as nat;
        lemma_layer_meaning(adj, source, k1);
        lemma_layer_shape(adj, source, k1);
        let (l0, s0) = layer_at(adj, source, k1);
        lemma_expand(adj, l0, s0);
        assert forall|v: usize| feeds(adj, l0, v) implies walk_of_length(adj, source, v, k) by {
            let i = choose|i: int| 0 <= i < l0.len() && #[trigger] successors_of(adj, l0[i]).contains(v);
            assert(l0.contains(l0[i]));
            lemma_walk_step(adj, source, l0[i], v, k1);
        }
        assert forall|v: usize| at_distance(adj, source, v, k) implies feeds(adj, l0, v)
            && !s0.contains(v) by {
            let u = lemma_walk_last_edge(adj, source, v, k);
            assert forall|j: nat| j < k1 implies !#[trigger] walk_of_length(adj, source, u, j) by {
                if walk_of_length(adj, source, u, j) {
                    lemma_walk_step(adj, source, u, v, j);
                }
            }
            assert(l0.contains(u));
            let i = choose|i: int| 0 <= i < l0.len() && l0[i] == u;
            assert(successors_of(adj, l0[i]).contains(v));
            if s0.contains(v) {
                let j = choose|j: nat| j <= k1 && #[trigger] walk_of_length(adj, source, v, j);
            }
        }
        assert forall|v: usize| within_distance(adj, source, v, k) implies within_distance(
            adj,
            source,
            v,
            k1,
        ) || at_distance(adj, source, v, k) by {
            let j = choose|j: nat| j <= k && #[trigger] walk_of_length(adj, source, v, j);
            if !within_distance(adj, source, v, k1) {
                assert(j == k);
            }
        }
    }
}

/// Once a layer is empty, every later layer is empty and nothing more is seen.
proof fn lemma_empty_layer_stays(adj: Seq<Seq<usize>>, source: usize, k: nat, m: nat)
    requires
        k <= m,
        layer_at(adj, source, k).0.len() == 0,
    ensures
        layer_at(adj, source, m) == layer_at(adj, source, k),
    decreases m - k,
{
    if k < m {
        lemma_empty_layer_stays(adj, source, k, (m - 1) as nat);
    }
}

/// Layer 0 is the source alone.
pub proof fn law_distance_zero_is_source(adj: Seq<Seq<usize>>, source: usize)
    ensures
        descendants_at(adj, source, 0) == seq![source],
{
}

/// When the source has no outgoing edge, every layer past the first is empty.
pub proof fn law_no_successors_no_descendants(adj: Seq<Seq<usize>>, source: usize, distance: nat)
    requires
        successors_of(adj, source).len() == 0,
        distance >= 1,
    ensures
        descendants_at(adj, source, distance) == Seq::<usize>::empty(),
{
    let l0 = seq![source];
    assert(l0.drop_last() =~= Seq::<usize>::empty());
    assert(successors_of(adj, source) =~= Seq::<usize>::empty());
    assert(expand(adj, l0.drop_last(), set![source]) == (Seq::<usize>::empty(), set![source]));
    assert(absorb(Seq::<usize>::empty(), set![source], successors_of(adj, source)) == (
    Seq::<usize>::empty(), set![source]));
    assert(l0.last() == source);
    assert(layer_at(adj, source, 0) == (l0, set![source]));
    assert(expand(adj, l0, set![source]) == (Seq::<usize>::empty(), set![source]));
    assert(layer_at(adj, source, 1).0 =~= Seq::<usize>::empty());
    lemma_empty_layer_stays(adj, source, 1, distance);
}

/// In a graph with no nodes, nothing lies at a positive distance from any source.
pub proof fn law_empty_graph(adj: Seq<Seq<usize>>, source: usize, distance: nat)
    requires
        adj.len() == 0,
        distance >= 1,
    ensures
        descendants_at(adj, source, distance) == Seq::<usize>::empty(),
{
    law_no_successors_no_descendants(adj, source, distance);
}

/// In a graph of one node and no edges, nothing lies at a positive distance
/// from any source.
pub proof fn law_single_isolated_node(adj: Seq<Seq<usize>>, source: usize, distance: nat)
    requires
        adj.len() == 1,
        adj[0].len() == 0,
        distance >= 1,
    ensures
        descendants_at(adj, source, distance) == Seq::<usize>::empty(),
{
    law_no_successors_no_descendants(adj, source, distance);
}

/// The layer depends on the adjacency, the source and the distance alone:
/// the same inputs give the same nodes in the same order.
pub proof fn law_same_inputs_same_layer(
    adj1: Seq<Seq<usize>>,
    adj2: Seq<Seq<usize>>,
    source: usize,
    distance: nat,
)
    requires
        adj1 == adj2,
    ensures
        descendants_at(adj1, source, distance) == descendants_at(adj2, source, distance),
{
}

/// No layer lists a node twice.
pub proof fn law_no_duplicates(adj: Seq<Seq<usize>>, source: usize, distance: nat)
    ensures
        descendants_at(adj, source, distance).no_duplicates(),
{
    lemma_layer_shape(adj, source, distance);
}

/// Whatever the distance, and on graphs with cycles too, the nodes visited
/// are the source and nodes of the graph, each once: when the source is a
/// node, there are at most as many as the graph has nodes, and the layer
/// returned is no longer.
pub proof fn law_visited_bounded(adj: Seq<Seq<usize>>, source: usize, distance: nat)
    requires
        successors_in_range(adj),
        adj.len() <= usize::MAX,
    ensures
        visited_within(adj, source, distance).subset_of(
            Set::<usize>::range(0, adj.len() as usize).insert(source),
        ),
        source < adj.len() ==> visited_within(adj, source, distance).len() <= adj.len(),
        source < adj.len() ==> descendants_at(adj, source, distance).len() <= adj.len(),
{
    let n = adj.len() as usize;
    let (l, s) = layer_at(adj, source, distance);
    lemma_layer_meaning(adj, source, distance);
    lemma_layer_shape(adj, source, distance);
    assert forall|x: usize| s.contains(x) implies Set::<usize>::range(0, n).insert(
        source,
    ).contains(x) by {
        let j = choose|j: nat| j <= distance && #[trigger] walk_of_length(adj, source, x, j);
        if j == 0 {
            lemma_walk_zero(adj, source, x);
        } else {
            let u = lemma_walk_last_edge(adj, source, x, j);
            let i = choose|i: int| 0 <= i < successors_of(adj, u).len() && successors_of(adj, u)[i] == x;
            assert(adj[u as int][i] < adj.len());
        }
    }
    if source < adj.len() {
        vstd::set_lib::range_set_properties::<usize>(0, n);
        assert(Set::<usize>::range(0, n).insert(source) =~= Set::<usize>::range(0, n));
        vstd::set_lib::lemma_len_subset(s, Set::<usize>::range(0, n));
        l.unique_seq_to_set();
        vstd::set_lib::lemma_len_subset(l.to_set(), s);
    }
}

/// Returns the nodes whose shortest forward distance from `source` is
/// `distance`, in the order in which the layer expansion discovers them.
///
/// For `distance == 0` this is `[source]`: the source is its own layer 0.
/// The name speaks of descendants, yet that case returns the source itself;
/// a caller that wants proper descendants only asks for positive distances.
/// A `source` that is not a node of the graph has no outgoing edges.
pub fn descendants_at_distance<G: DirectedGraphView>(graph: &G, source: usize, distance: usize) -> (r:
    Vec<usize>)
    ensures
        r@ == descendants_at(graph.successor_lists(), source, distance as nat),
        forall|v: usize|
            r@.contains(v) <==> at_distance(graph.successor_lists(), source, v, distance as nat),
        r@.no_duplicates(),
        distance == 0 ==> r@ == seq![source],
        source < graph.successor_lists().len() ==> r@.len() <= graph.successor_lists().len(),
{
    let ghost adj = graph.successor_lists();
    let node_count = graph.num_nodes();
    assert(successors_in_range(adj));
    let capacity = if node_count <= CAPACITY_HINT_LIMIT {
        node_count
    } else {
        CAPACITY_HINT_LIMIT
    };
    let mut current_layer: Vec<usize> = vec![source];
    let mut layers: usize = 0;
    let mut visited = VisitedSet::with_capacity(capacity);
    visited.insert(source);
    assert(visited_nodes(visited) =~= set![source]);
    while current_layer.len() > 0 && layers < distance
        invariant
            layers <= distance,
            adj == graph.successor_lists(),
            successors_in_range(adj),
            (current_layer@, visited_nodes(visited)) == layer_at(adj, source, layers as nat),
        decreases distance - layers,
    {
        let ghost seen0 = visited_nodes(visited);
        let mut next_layer: Vec<usize> = Vec::new();
        let mut i: usize = 0;
        while i < current_layer.len()
            invariant
                i <= current_layer.len(),
                adj == graph.successor_lists(),
                (next_layer@, visited_nodes(visited)) == expand(
                    adj,
                    current_layer@.take(i as int),
                    seen0,
                ),
            decreases current_layer.len() - i,
        {
            let node = current_layer[i];
            let children = graph.successors(node);
            let ghost layer0 = next_layer@;
            let ghost seen1 = visited_nodes(visited);
            let mut j: usize = 0;
            while j < children.len()
                invariant
                    j <= children.len(),
                    (next_layer@, visited_nodes(visited)) == absorb(
                        layer0,
                        seen1,
                        children@.take(j as int),
                    ),
                decreases children.len() - j,
            {
                let child = children[j];
                if !visited.contains(child) {
                    visited.insert(child);
                    next_layer.push(child);
                }
                assert(children@.take(j + 1).drop_last() =~= children@.take(j as int));
                j += 1;
            }
            assert(children@.take(j as int) =~= children@);
            assert(current_layer@.take(i + 1).drop_last() =~= current_layer@.take(i as int));
            i += 1;
        }
        assert(current_layer@.take(i as int) =~= current_layer@);
        current_layer = next_layer;
        layers += 1;
    }
    proof {
        if layers < distance {
            lemma_empty_layer_stays(adj, source, layers as nat, distance as nat);
        }
        lemma_layer_meaning(adj, source, distance as nat);
        law_no_duplicates(adj, source, distance as nat);
        law_visited_bounded(adj, source, distance as nat);
    }
    current_layer
}

} // verus!
