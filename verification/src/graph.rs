//! The bipartite graph that a set of keys defines, and its cycles.

use crate::bits;
use crate::siphash::SipKeys;
use vstd::arithmetic::power2;
use vstd::prelude::*;

verus! {

/// A graph with `2^edge_bits` edges.  Edge `e` joins one node of side 0 with
/// one node of side 1.  Two edges meet on a side where their nodes are mates:
/// equal but for the lowest bit.
#[derive(Debug, Clone, Copy)]
pub struct Graph {
    pub keys: SipKeys,
    pub edge_bits: u8,
}

impl Graph {
    /// The node of `edge` on one side.
    pub open spec fn node(self, edge: u64, side: int) -> u32 {
        crate::siphash::node(self.keys, self.edge_bits, edge, side)
    }

    /// The number of edges.
    pub open spec fn edge_count(self) -> nat {
        power2::pow2(self.edge_bits as nat)
    }

    /// Whether two edges meet on a side.
    pub open spec fn meet(self, a: u64, b: u64, side: int) -> bool {
        self.node(b, side) == bits::mate(self.node(a, side))
    }

    /// Whether some edge of `edges` meets `edge` on a side.
    pub open spec fn has_partner(self, edges: Set<u64>, edge: u64, side: int) -> bool {
        exists|other: u64| #[trigger] edges.contains(other) && self.meet(edge, other, side)
    }

    /// Whether every edge of `edges` meets another one of them on both sides.
    pub open spec fn is_closed(self, edges: Set<u64>) -> bool {
        forall|edge: u64, side: int|
            #![trigger self.node(edge, side)]
            edges.contains(edge) && 0 <= side < 2 ==> self.has_partner(edges, edge, side)
    }

    /// Whether `order` lists the edges of one cycle as they follow each other:
    /// edge `k` meets the next one on side `k % 2`, the last one meets the
    /// first, and no other two of them meet.
    pub open spec fn is_cycle(self, order: Seq<u64>) -> bool {
        &&& order.len() > 0
        &&& order.len() % 2 == 0
        &&& forall|i: int, j: int, side: int|
            #![trigger self.node(order[i], side), self.node(order[j], side)]
            0 <= i < order.len() && 0 <= j < order.len() && 0 <= side < 2 ==> (self.meet(
                order[i],
                order[j],
                side,
            ) <==> j == cycle_neighbour(order.len(), i, side))
    }
}

/// The position in a cycle of `len` edges that edge `i` meets on a side.
pub open spec fn cycle_neighbour(len: nat, i: int, side: int) -> int {
    if i % 2 == side {
        if i + 1 == len {
            0
        } else {
            i + 1
        }
    } else {
        if i == 0 {
            len - 1
        } else {
            i - 1
        }
    }
}

/// Meeting is mutual, and no edge meets itself.
pub proof fn lemma_meet_is_symmetric(graph: Graph, a: u64, b: u64, side: int)
    requires
        graph.meet(a, b, side),
    ensures
        graph.meet(b, a, side),
        a != b,
{
    bits::lemma_mate_is_involution(graph.node(a, side));
}

/// The edges of a cycle are distinct.
pub proof fn lemma_cycle_has_no_repeats(graph: Graph, order: Seq<u64>)
    requires
        graph.is_cycle(order),
    ensures
        order.no_duplicates(),
{
    assert forall|i: int, j: int| 0 <= i < order.len() && 0 <= j < order.len() && i != j implies
        order[i] != order[j] by {
        if order[i] == order[j] {
            let n = order.len();
            let a = cycle_neighbour(n, i, 0);
            let b = cycle_neighbour(n, i, 1);
            let c = cycle_neighbour(n, j, 0);
            let d = cycle_neighbour(n, j, 1);
            assert(graph.node(order[i], 0) == graph.node(order[j], 0));
            assert(graph.node(order[i], 1) == graph.node(order[j], 1));
            assert(graph.node(order[a], 0) == graph.node(order[a], 0));
            assert(graph.node(order[b], 1) == graph.node(order[b], 1));
            assert(graph.meet(order[i], order[a], 0));
            assert(graph.meet(order[j], order[a], 0));
            assert(a == c);
        }
    }
}

/// The edges of a cycle form a closed set.
pub proof fn lemma_cycle_is_closed(graph: Graph, order: Seq<u64>)
    requires
        graph.is_cycle(order),
    ensures
        graph.is_closed(order.to_set()),
{
    let edges = order.to_set();
    assert forall|edge: u64, side: int|
        #![trigger graph.node(edge, side)]
        edges.contains(edge) && 0 <= side < 2 implies graph.has_partner(edges, edge, side) by {
        let i = choose|i: int| 0 <= i < order.len() && order[i] == edge;
        let j = cycle_neighbour(order.len(), i, side);
        assert(graph.node(order[j], side) == graph.node(order[j], side));
        assert(graph.meet(order[i], order[j], side));
        assert(edges.contains(order[j]));
    }
}

impl Graph {
    /// Whether an edge lies in some closed set of the given edges.
    pub open spec fn in_core(self, edges: Set<u64>, edge: u64) -> bool {
        exists|part: Set<u64>| #[trigger]
            self.is_closed(part) && part.subset_of(edges) && part.contains(edge)
    }

    /// The two-core of the given edges: all that lie in some closed set of them.
    pub open spec fn two_core(self, edges: Set<u64>) -> Set<u64> {
        Set::new(|edge: u64| self.in_core(edges, edge))
    }
}

/// The core is itself closed, and holds every closed set of the given edges:
/// it is the largest one.
pub proof fn lemma_core_is_largest_closed_set(graph: Graph, edges: Set<u64>)
    ensures
        graph.two_core(edges).subset_of(edges),
        graph.is_closed(graph.two_core(edges)),
        forall|part: Set<u64>| #[trigger]
            graph.is_closed(part) && part.subset_of(edges) ==> part.subset_of(graph.two_core(edges)),
{
    let largest = graph.two_core(edges);
    assert forall|edge: u64, side: int|
        #![trigger graph.node(edge, side)]
        largest.contains(edge) && 0 <= side < 2 implies graph.has_partner(largest, edge, side) by {
        let part = choose|part: Set<u64>| #[trigger]
            graph.is_closed(part) && part.subset_of(edges) && part.contains(edge);
        assert(graph.has_partner(part, edge, side));
        let other = choose|other: u64| #[trigger]
            part.contains(other) && graph.meet(edge, other, side);
        assert(largest.contains(other));
    }
}

/// The core of a closed set is the set.
pub proof fn lemma_core_of_closed_set(graph: Graph, edges: Set<u64>)
    requires
        graph.is_closed(edges),
    ensures
        graph.two_core(edges) == edges,
{
    lemma_core_is_largest_closed_set(graph, edges);
    assert(graph.two_core(edges) =~= edges);
}

/// Taking the core again changes nothing.
pub proof fn lemma_core_is_idempotent(graph: Graph, edges: Set<u64>)
    ensures
        graph.two_core(graph.two_core(edges)) == graph.two_core(edges),
{
    lemma_core_is_largest_closed_set(graph, edges);
    lemma_core_of_closed_set(graph, graph.two_core(edges));
}

/// Edges outside the core can be left out first without a change to the core.
pub proof fn lemma_core_ignores_other_edges(graph: Graph, edges: Set<u64>, fewer: Set<u64>)
    requires
        fewer.subset_of(edges),
        graph.two_core(edges).subset_of(fewer),
    ensures
        graph.two_core(fewer) == graph.two_core(edges),
{
    lemma_core_is_largest_closed_set(graph, edges);
    lemma_core_is_largest_closed_set(graph, fewer);
    assert(graph.two_core(fewer).subset_of(edges));
    assert(graph.two_core(fewer) =~= graph.two_core(edges));
}

} // verus!
