//! Proofs of work: their form, their check and their difficulty.

use crate::bits;
use crate::graph::Graph;
use crate::keys;
use crate::siphash::{endpoint, SipKeys};
use crate::text;
use std::collections::HashMap;
use vstd::arithmetic::power2;
use vstd::prelude::*;

verus! {

/// The edges of a claimed cycle.
#[derive(Debug, Clone, PartialEq, Eq)]
pub struct Proof {
    pub nonces: Vec<u64>,
}

/// Whether no number is smaller than the one before it.
pub open spec fn is_ascending(values: Seq<u64>) -> bool {
    forall|i: int, j: int| 0 <= i < j < values.len() ==> values[i] <= values[j]
}

/// Whether every number is larger than the one before it.
pub open spec fn is_strictly_ascending(values: Seq<u64>) -> bool {
    forall|i: int, j: int| 0 <= i < j < values.len() ==> values[i] < values[j]
}

/// The same numbers in ascending order.
pub open spec fn sorted_values(values: Seq<u64>) -> Seq<u64> {
    values.sort_by(|a: u64, b: u64| a <= b)
}

/// Calls `<[u64]>::sort_unstable`.  Trusted: the result is in ascending order
/// and holds the same numbers, each as often as before.
#[verifier::external_body]
fn sort_values(values: &mut Vec<u64>)
    ensures
        is_ascending(final(values)@),
        final(values)@.to_multiset() == old(values)@.to_multiset(),
{
    values.sort_unstable()
}

/// A sequence in ascending order is the sorted form of every sequence with the
/// same numbers.
pub proof fn lemma_sorted_values(values: Seq<u64>, sorted: Seq<u64>)
    requires
        is_ascending(sorted),
        sorted.to_multiset() == values.to_multiset(),
    ensures
        sorted == sorted_values(values),
{
    let leq = |a: u64, b: u64| a <= b;
    assert(vstd::relations::total_ordering(leq));
    values.lemma_sort_by_ensures(leq);
    assert(vstd::relations::sorted_by(sorted, leq));
    vstd::seq_lib::lemma_sorted_unique(sorted, values.sort_by(leq), leq);
}

impl Proof {
    /// A proof of the given edges in ascending order.
    pub fn sorted(nonces: Vec<u64>) -> (proof: Proof)
        ensures
            proof.nonces@ == sorted_values(nonces@),
            is_ascending(proof.nonces@),
            proof.nonces@.to_multiset() == nonces@.to_multiset(),
    {
        let mut values = nonces;
        sort_values(&mut values);
        proof {
            lemma_sorted_values(nonces@, values@);
        }
        Proof { nonces: values }
    }
}

/// Why a proof was refused.
#[derive(Debug, Clone, Copy, PartialEq, Eq, Structural)]
pub enum VerifyError {
    BadEdgeBits,
    BadProofSize { expected: usize, actual: usize },
    Range,
    NotSortedDistinct,
    EndpointDegree,
    NotSingleCycle,
}

impl VerifyError {
    /// What `message` returns.
    pub open spec fn message_text(self) -> Seq<char> {
        match self {
            VerifyError::BadEdgeBits => "edge_bits must be in 1..=32"@,
            VerifyError::BadProofSize { expected, actual } => "proof has "@ + text::decimal(
                actual as nat,
            ) + " edges, expected "@ + text::decimal(expected as nat),
            VerifyError::Range => "proof nonce is outside the graph"@,
            VerifyError::NotSortedDistinct => "proof nonces are not strictly sorted and distinct"@,
            VerifyError::EndpointDegree =>
                "an endpoint does not have exactly one complementary mate"@,
            VerifyError::NotSingleCycle => "proof is not one exact cycle"@,
        }
    }

    /// The error in words.
    pub fn message(&self) -> (message: String)
        ensures
            message@ == self.message_text(),
    {
        match self {
            VerifyError::BadEdgeBits => String::from_str("edge_bits must be in 1..=32"),
            VerifyError::BadProofSize { expected, actual } => {
                let mut message = text::around_decimal(
                    "proof has ",
                    *actual as u64,
                    " edges, expected ",
                );
                text::append_decimal(&mut message, *expected as u64);
                message
            },
            VerifyError::Range => String::from_str("proof nonce is outside the graph"),
            VerifyError::NotSortedDistinct => String::from_str(
                "proof nonces are not strictly sorted and distinct",
            ),
            VerifyError::EndpointDegree => String::from_str(
                "an endpoint does not have exactly one complementary mate",
            ),
            VerifyError::NotSingleCycle => String::from_str("proof is not one exact cycle"),
        }
    }
}

/// Whether the first `n` nonces are edges of the graph, in strictly ascending
/// order.
pub open spec fn in_order(limit: nat, nonces: Seq<u64>, n: int) -> bool {
    &&& forall|i: int| 0 <= i < n ==> #[trigger] nonces[i] < limit
    &&& forall|i: int, j: int| 0 <= i < j < n ==> nonces[i] < nonces[j]
}

/// Whether the nonces at two positions meet on a side.
pub open spec fn partners(graph: Graph, nonces: Seq<u64>, i: int, j: int, side: int) -> bool {
    0 <= j < nonces.len() && graph.meet(nonces[i], nonces[j], side)
}

/// Whether exactly one nonce meets the one at position `i` on a side.
pub open spec fn has_one_partner(graph: Graph, nonces: Seq<u64>, i: int, side: int) -> bool {
    exists|j: int|
        {
            &&& #[trigger] partners(graph, nonces, i, j, side)
            &&& forall|k: int| #[trigger] partners(graph, nonces, i, k, side) ==> k == j
        }
}

/// The position of the nonce that meets the one at position `i` on a side.
pub open spec fn partner(graph: Graph, nonces: Seq<u64>, i: int, side: int) -> int {
    choose|j: int| #[trigger] partners(graph, nonces, i, j, side)
}

/// Whether every nonce has exactly one partner on either side.
pub open spec fn all_paired(graph: Graph, nonces: Seq<u64>) -> bool {
    forall|i: int, side: int|
        0 <= i < nonces.len() && 0 <= side < 2 ==> #[trigger] has_one_partner(
            graph,
            nonces,
            i,
            side,
        )
}

/// The position reached from position 0 after `k` steps from partner to
/// partner, on side 0 first and on the other side at each further step.
pub open spec fn walk(graph: Graph, nonces: Seq<u64>, k: nat) -> int
    decreases k,
{
    if k == 0 {
        0
    } else {
        partner(graph, nonces, walk(graph, nonces, (k - 1) as nat), (k - 1) % 2)
    }
}

/// Whether the walk from position 0 comes back to it after one step per nonce,
/// on the side it started from, and meets no position twice before.
pub open spec fn walks_round(graph: Graph, nonces: Seq<u64>) -> bool {
    &&& nonces.len() % 2 == 0
    &&& walk(graph, nonces, nonces.len()) == 0
    &&& forall|i: int, j: int|
        #![trigger walk(graph, nonces, i as nat), walk(graph, nonces, j as nat)]
        0 <= i < j < nonces.len() ==> walk(graph, nonces, i as nat) != walk(
            graph,
            nonces,
            j as nat,
        )
}

/// What the check of a proof returns: the first failure in the order in which
/// they are listed here, and of two bad nonces that of the earlier one.
#[verifier::opaque]
pub open spec fn verdict(graph: Graph, cycle_length: usize, nonces: Seq<u64>) -> Result<
    (),
    VerifyError,
> {
    if !(1 <= graph.edge_bits <= 32) {
        Err(VerifyError::BadEdgeBits)
    } else if nonces.len() != cycle_length {
        Err(VerifyError::BadProofSize { expected: cycle_length, actual: nonces.len() as usize })
    } else if exists|i: int|
        0 <= i < nonces.len() && nonces[i] >= graph.edge_count() && #[trigger] in_order(
            graph.edge_count(),
            nonces,
            i,
        ) {
        Err(VerifyError::Range)
    } else if !in_order(graph.edge_count(), nonces, nonces.len() as int) {
        Err(VerifyError::NotSortedDistinct)
    } else if !all_paired(graph, nonces) {
        Err(VerifyError::EndpointDegree)
    } else if !walks_round(graph, nonces) {
        Err(VerifyError::NotSingleCycle)
    } else {
        Ok(())
    }
}

/// What is known of a proof that is accepted.
pub proof fn lemma_accepted_shape(graph: Graph, cycle_length: usize, nonces: Seq<u64>)
    requires
        verdict(graph, cycle_length, nonces) is Ok,
    ensures
        1 <= graph.edge_bits <= 32,
        nonces.len() == cycle_length,
        in_order(graph.edge_count(), nonces, nonces.len() as int),
        is_strictly_ascending(nonces),
        nonces.no_duplicates(),
        all_paired(graph, nonces),
        walks_round(graph, nonces),
{
    reveal(verdict);
}

/// The nodes of each edge on both sides.
pub fn edge_nodes(keys: SipKeys, edge_bits: u8, edges: &[u64]) -> (nodes: Vec<[u32; 2]>)
    requires
        edges.len() > 0 ==> edge_bits < 64,
    ensures
        nodes.len() == edges.len(),
        forall|i: int, side: int|
            0 <= i < edges.len() && 0 <= side < 2 ==> #[trigger] nodes@[i]@[side] == (Graph {
                keys,
                edge_bits,
            }).node(edges[i], side),
{
    let mut nodes: Vec<[u32; 2]> = Vec::with_capacity(edges.len());
    let mut i: usize = 0;
    while i < edges.len()
        invariant
            edges.len() > 0 ==> edge_bits < 64,
            nodes.len() == i <= edges.len(),
            forall|k: int, side: int|
                0 <= k < i && 0 <= side < 2 ==> #[trigger] nodes@[k]@[side] == (Graph {
                    keys,
                    edge_bits,
                }).node(edges[k], side),
        decreases edges.len() - i,
    {
        let pair = [
            endpoint(keys, edge_bits, edges[i], 0),
            endpoint(keys, edge_bits, edges[i], 1),
        ];
        nodes.push(pair);
        i = i + 1;
    }
    nodes
}

fn first_failure(limit: u64, nonces: &Vec<u64>) -> (failure: Option<VerifyError>)
    ensures
        failure == (if exists|i: int|
            0 <= i < nonces@.len() && nonces@[i] >= limit && #[trigger] in_order(
                limit as nat,
                nonces@,
                i,
            ) {
            Some(VerifyError::Range)
        } else if !in_order(limit as nat, nonces@, nonces@.len() as int) {
            Some(VerifyError::NotSortedDistinct)
        } else {
            None
        }),
{
    let mut i: usize = 0;
    while i < nonces.len()
        invariant
            i <= nonces.len(),
            in_order(limit as nat, nonces@, i as int),
        decreases nonces.len() - i,
    {
        if nonces[i] >= limit {
            return Some(VerifyError::Range);
        }
        if i > 0 && nonces[i - 1] >= nonces[i] {
            return Some(VerifyError::NotSortedDistinct);
        }
        i = i + 1;
    }
    None
}

/// The one position that meets position `i` on a side, if there is exactly one.
fn find_partner(nodes: &Vec<[u32; 2]>, i: usize, side: usize) -> (found: Option<usize>)
    requires
        i < nodes.len(),
        side < 2,
    ensures
        match found {
            Some(j) => {
                &&& j < nodes.len()
                &&& nodes@[j as int]@[side as int] == bits::mate(nodes@[i as int]@[side as int])
                &&& forall|k: int|
                    0 <= k < nodes.len() && #[trigger] nodes@[k]@[side as int] == bits::mate(
                        nodes@[i as int]@[side as int],
                    ) ==> k == j
            },
            None => forall|j: int|
                #![trigger nodes@[j]]
                0 <= j < nodes.len() && nodes@[j]@[side as int] == bits::mate(
                    nodes@[i as int]@[side as int],
                ) ==> exists|k: int|
                    0 <= k < nodes.len() && k != j && #[trigger] nodes@[k]@[side as int]
                        == bits::mate(nodes@[i as int]@[side as int]),
        },
{
    let wanted = bits::flip(nodes[i][side]);
    let mut found: Option<usize> = None;
    let mut j: usize = 0;
    while j < nodes.len()
        invariant
            j <= nodes.len(),
            i < nodes.len(),
            side < 2,
            wanted == bits::mate(nodes@[i as int]@[side as int]),
            match found {
                Some(f) => {
                    &&& f < j
                    &&& nodes@[f as int]@[side as int] == wanted
                    &&& forall|k: int|
                        0 <= k < j && #[trigger] nodes@[k]@[side as int] == wanted ==> k == f
                },
                None => forall|k: int| 0 <= k < j ==> #[trigger] nodes@[k]@[side as int] != wanted,
            },
        decreases nodes.len() - j,
    {
        if nodes[j][side] == wanted {
            match found {
                Some(f) => {
                    assert forall|a: int|
                        #![trigger nodes@[a]]
                        0 <= a < nodes.len() && nodes@[a]@[side as int] == wanted implies exists|
                        k: int,
                    |
                        0 <= k < nodes.len() && k != a && #[trigger] nodes@[k]@[side as int]
                            == wanted by {
                        if a == f {
                            assert(nodes@[j as int]@[side as int] == wanted);
                        } else {
                            assert(nodes@[f as int]@[side as int] == wanted);
                        }
                    }
                    return None;
                },
                None => {
                    found = Some(j);
                },
            }
        }
        j = j + 1;
    }
    found
}

proof fn lemma_walk_step(graph: Graph, nonces: Seq<u64>, k: nat, next: int)
    requires
        partners(graph, nonces, walk(graph, nonces, k), next, k as int % 2),
        forall|j: int|
            #[trigger] partners(graph, nonces, walk(graph, nonces, k), j, k as int % 2) ==> j
                == next,
    ensures
        walk(graph, nonces, k + 1) == next,
{
    let here = walk(graph, nonces, k);
    let chosen = partner(graph, nonces, here, k as int % 2);
    assert(partners(graph, nonces, here, chosen, k as int % 2));
}

/// Checks that a proof is one exact cycle of the graph.
pub fn verify_cycle(keys: SipKeys, edge_bits: u8, cycle_length: usize, proof: &Proof) -> (result:
    Result<(), VerifyError>)
    ensures
        result == verdict(Graph { keys, edge_bits }, cycle_length, proof.nonces@),
{
    reveal(verdict);
    let ghost graph = Graph { keys, edge_bits };
    let ghost nonces = proof.nonces@;
    if !(1 <= edge_bits && edge_bits <= 32) {
        return Err(VerifyError::BadEdgeBits);
    }
    if proof.nonces.len() != cycle_length {
        return Err(
            VerifyError::BadProofSize { expected: cycle_length, actual: proof.nonces.len() },
        );
    }
    let limit = bits::power_of_two(edge_bits);
    match first_failure(limit, &proof.nonces) {
        Some(error) => {
            return Err(error);
        },
        None => {},
    }
    let nodes = edge_nodes(keys, edge_bits, proof.nonces.as_slice());
    let mut even: Vec<usize> = Vec::with_capacity(cycle_length);
    let mut odd: Vec<usize> = Vec::with_capacity(cycle_length);
    let mut i: usize = 0;
    while i < cycle_length
        invariant
            i <= cycle_length == nonces.len() == nodes.len(),
            graph == (Graph { keys, edge_bits }),
            nonces == proof.nonces@,
            even.len() == i,
            odd.len() == i,
            forall|k: int, side: int|
                0 <= k < nonces.len() && 0 <= side < 2 ==> #[trigger] nodes@[k]@[side]
                    == graph.node(nonces[k], side),
            forall|k: int|
                0 <= k < i ==> {
                    &&& partners(graph, nonces, k, #[trigger] even@[k] as int, 0)
                    &&& forall|j: int| #[trigger]
                        partners(graph, nonces, k, j, 0) ==> j == even@[k]
                },
            forall|k: int|
                0 <= k < i ==> {
                    &&& partners(graph, nonces, k, #[trigger] odd@[k] as int, 1)
                    &&& forall|j: int| #[trigger]
                        partners(graph, nonces, k, j, 1) ==> j == odd@[k]
                },
            verdict(graph, cycle_length, nonces) == if !all_paired(graph, nonces) {
                Err(VerifyError::EndpointDegree)
            } else if !walks_round(graph, nonces) {
                Err(VerifyError::NotSingleCycle)
            } else {
                Ok(())
            },
        decreases cycle_length - i,
    {
        let found = find_partner(&nodes, i, 0);
        match found {
            Some(j) => {
                assert forall|k: int| #[trigger]
                    partners(graph, nonces, i as int, k, 0) implies k == j by {
                    assert(nodes@[k]@[0] == graph.node(nonces[k], 0));
                }
                assert(nodes@[j as int]@[0] == graph.node(nonces[j as int], 0));
                even.push(j);
            },
            None => {
                assert(!has_one_partner(graph, nonces, i as int, 0)) by {
                    lemma_no_single_partner(graph, nonces, nodes@, i as int, 0);
                }
                return Err(VerifyError::EndpointDegree);
            },
        }
        let found = find_partner(&nodes, i, 1);
        match found {
            Some(j) => {
                assert forall|k: int| #[trigger]
                    partners(graph, nonces, i as int, k, 1) implies k == j by {
                    assert(nodes@[k]@[1] == graph.node(nonces[k], 1));
                }
                assert(nodes@[j as int]@[1] == graph.node(nonces[j as int], 1));
                odd.push(j);
            },
            None => {
                assert(!has_one_partner(graph, nonces, i as int, 1)) by {
                    lemma_no_single_partner(graph, nonces, nodes@, i as int, 1);
                }
                return Err(VerifyError::EndpointDegree);
            },
        }
        i = i + 1;
    }
    assert(all_paired(graph, nonces)) by {
        assert forall|k: int, side: int| 0 <= k < nonces.len() && 0 <= side < 2 implies
            #[trigger] has_one_partner(graph, nonces, k, side) by {
            assert(partners(graph, nonces, k, even@[k] as int, 0));
            assert(partners(graph, nonces, k, odd@[k] as int, 1));
        }
    }
    let round = goes_round(&even, &odd, Ghost(graph), Ghost(nonces));
    if round {
        Ok(())
    } else {
        Err(VerifyError::NotSingleCycle)
    }
}

proof fn lemma_no_single_partner(
    graph: Graph,
    nonces: Seq<u64>,
    nodes: Seq<[u32; 2]>,
    i: int,
    side: int,
)
    requires
        0 <= i < nonces.len(),
        0 <= side < 2,
        nodes.len() == nonces.len(),
        forall|k: int, s: int|
            0 <= k < nonces.len() && 0 <= s < 2 ==> #[trigger] nodes[k]@[s] == graph.node(
                nonces[k],
                s,
            ),
        forall|j: int|
            #![trigger nodes[j]]
            0 <= j < nodes.len() && nodes[j]@[side] == bits::mate(nodes[i]@[side]) ==> exists|
                k: int,
            |
                0 <= k < nodes.len() && k != j && #[trigger] nodes[k]@[side] == bits::mate(
                    nodes[i]@[side],
                ),
    ensures
        !has_one_partner(graph, nonces, i, side),
{
    if has_one_partner(graph, nonces, i, side) {
        let j = choose|j: int|
            {
                &&& #[trigger] partners(graph, nonces, i, j, side)
                &&& forall|k: int| #[trigger] partners(graph, nonces, i, k, side) ==> k == j
            };
        assert(nodes[j]@[side] == graph.node(nonces[j], side));
        assert(nodes[i]@[side] == graph.node(nonces[i], side));
        let k = choose|k: int|
            0 <= k < nodes.len() && k != j && #[trigger] nodes[k]@[side] == bits::mate(
                nodes[i]@[side],
            );
        assert(nodes[k]@[side] == graph.node(nonces[k], side));
        assert(partners(graph, nonces, i, k, side));
    }
}

/// Walks from position 0 along the partners, on alternating sides.
fn goes_round(
    even: &Vec<usize>,
    odd: &Vec<usize>,
    Ghost(graph): Ghost<Graph>,
    Ghost(nonces): Ghost<Seq<u64>>,
) -> (round: bool)
    requires
        even.len() == nonces.len(),
        odd.len() == nonces.len(),
        forall|k: int|
            0 <= k < nonces.len() ==> {
                &&& partners(graph, nonces, k, #[trigger] even@[k] as int, 0)
                &&& forall|j: int| #[trigger] partners(graph, nonces, k, j, 0) ==> j == even@[k]
            },
        forall|k: int|
            0 <= k < nonces.len() ==> {
                &&& partners(graph, nonces, k, #[trigger] odd@[k] as int, 1)
                &&& forall|j: int| #[trigger] partners(graph, nonces, k, j, 1) ==> j == odd@[k]
            },
    ensures
        round == walks_round(graph, nonces),
{
    let n: usize = even.len();
    let mut visited: Vec<bool> = vec![false; n];
    let mut at: usize = 0;
    let mut step: usize = 0;
    while step < n
        invariant
            step <= n == nonces.len() == even.len() == odd.len() == visited.len(),
            n > 0 ==> at < n,
            at == walk(graph, nonces, step as nat),
            forall|k: int|
                0 <= k < nonces.len() ==> {
                    &&& partners(graph, nonces, k, #[trigger] even@[k] as int, 0)
                    &&& forall|j: int| #[trigger]
                        partners(graph, nonces, k, j, 0) ==> j == even@[k]
                },
            forall|k: int|
                0 <= k < nonces.len() ==> {
                    &&& partners(graph, nonces, k, #[trigger] odd@[k] as int, 1)
                    &&& forall|j: int| #[trigger]
                        partners(graph, nonces, k, j, 1) ==> j == odd@[k]
                },
            forall|k: int|
                0 <= k < n ==> (#[trigger] visited@[k] <==> exists|s: int|
                    0 <= s < step && k == #[trigger] walk(graph, nonces, s as nat)),
            forall|a: int, b: int|
                #![trigger walk(graph, nonces, a as nat), walk(graph, nonces, b as nat)]
                0 <= a < b < step ==> walk(graph, nonces, a as nat) != walk(
                    graph,
                    nonces,
                    b as nat,
                ),
        decreases n - step,
    {
        if visited[at] {
            proof {
                let s = choose|s: int|
                    0 <= s < step && at == #[trigger] walk(graph, nonces, s as nat);
                let here = step as int;
                assert(walk(graph, nonces, s as nat) == walk(graph, nonces, here as nat));
            }
            return false;
        }
        let ghost before = visited@;
        visited.set(at, true);
        let next: usize = if step % 2 == 0 {
            even[at]
        } else {
            odd[at]
        };
        proof {
            assert(partners(graph, nonces, at as int, next as int, step as int % 2));
            lemma_walk_step(graph, nonces, step as nat, next as int);
            assert forall|k: int| 0 <= k < n implies (#[trigger] visited@[k] <==> exists|s: int|
                0 <= s < step + 1 && k == #[trigger] walk(graph, nonces, s as nat)) by {
                if visited@[k] {
                    if k == at {
                        assert(k == walk(graph, nonces, step as nat));
                    } else {
                        assert(before[k]);
                        let s = choose|s: int|
                            0 <= s < step && k == #[trigger] walk(graph, nonces, s as nat);
                        assert(0 <= s < step + 1 && k == walk(graph, nonces, s as nat));
                    }
                }
            }
        }
        at = next;
        step = step + 1;
    }
    at == 0 && n % 2 == 0
}

proof fn lemma_one_partner(graph: Graph, nonces: Seq<u64>, i: int, side: int)
    requires
        has_one_partner(graph, nonces, i, side),
    ensures
        partners(graph, nonces, i, partner(graph, nonces, i, side), side),
        forall|k: int| #[trigger]
            partners(graph, nonces, i, k, side) ==> k == partner(graph, nonces, i, side),
{
}

/// Every step of the walk stays inside the proof and goes to a partner.
pub proof fn lemma_walk_goes_to_partners(graph: Graph, nonces: Seq<u64>, k: nat)
    requires
        nonces.len() > 0,
        all_paired(graph, nonces),
    ensures
        0 <= walk(graph, nonces, k) < nonces.len(),
        partners(graph, nonces, walk(graph, nonces, k), walk(graph, nonces, k + 1), k as int % 2),
    decreases k,
{
    if k > 0 {
        lemma_walk_goes_to_partners(graph, nonces, (k - 1) as nat);
    }
    let here = walk(graph, nonces, k);
    assert(has_one_partner(graph, nonces, here, k as int % 2));
    lemma_one_partner(graph, nonces, here, k as int % 2);
}

/// The edges of an accepted proof in the order of the walk.
pub open spec fn walk_order(graph: Graph, nonces: Seq<u64>) -> Seq<u64> {
    Seq::new(nonces.len(), |k: int| nonces[walk(graph, nonces, k as nat)])
}

/// A proof that is accepted, and is not empty, is one cycle: its edges can be
/// listed so that each meets the next, the last meets the first, and no other
/// two meet.
pub proof fn lemma_accepted_proof_is_cycle(graph: Graph, cycle_length: usize, nonces: Seq<u64>)
    requires
        verdict(graph, cycle_length, nonces) is Ok,
        nonces.len() > 0,
    ensures
        graph.is_cycle(walk_order(graph, nonces)),
        walk_order(graph, nonces).len() == cycle_length,
        walk_order(graph, nonces).to_set() =~= nonces.to_set(),
{
    lemma_accepted_shape(graph, cycle_length, nonces);
    let order = walk_order(graph, nonces);
    let n = nonces.len();
    lemma_walk_covers(graph, nonces);
    assert forall|i: int, j: int, side: int|
        #![trigger graph.node(order[i], side), graph.node(order[j], side)]
        0 <= i < n && 0 <= j < n && 0 <= side < 2 implies (graph.meet(order[i], order[j], side)
        <==> j == crate::graph::cycle_neighbour(n, i, side)) by {
        let m = crate::graph::cycle_neighbour(n, i, side);
        let a = walk(graph, nonces, i as nat);
        let b = walk(graph, nonces, j as nat);
        let c = walk(graph, nonces, m as nat);
        lemma_walk_goes_to_partners(graph, nonces, i as nat);
        lemma_walk_goes_to_partners(graph, nonces, j as nat);
        lemma_walk_goes_to_partners(graph, nonces, m as nat);
        // The neighbour of position `i` is its partner.
        if i % 2 == side {
            assert(i + 1 == n ==> walk(graph, nonces, n) == 0);
            assert(walk(graph, nonces, (i + 1) as nat) == c);
            assert(partners(graph, nonces, a, c, side));
        } else {
            assert(m % 2 == side);
            assert(i == 0 ==> walk(graph, nonces, n) == 0);
            assert(walk(graph, nonces, (m + 1) as nat) == a);
            assert(partners(graph, nonces, c, a, side));
            crate::graph::lemma_meet_is_symmetric(graph, nonces[c], nonces[a], side);
            assert(partners(graph, nonces, a, c, side));
        }
        assert(has_one_partner(graph, nonces, a, side));
        if graph.meet(order[i], order[j], side) {
            assert(partners(graph, nonces, a, b, side));
            assert(b == c);
            assert(j == m);
        }
    }
    assert forall|e: u64| order.to_set().contains(e) implies nonces.to_set().contains(e) by {
        let i = choose|i: int| 0 <= i < order.len() && order[i] == e;
        lemma_walk_goes_to_partners(graph, nonces, i as nat);
        assert(nonces[walk(graph, nonces, i as nat)] == e);
    }
    assert forall|e: u64| nonces.to_set().contains(e) implies order.to_set().contains(e) by {
        let p = choose|p: int| 0 <= p < nonces.len() && nonces[p] == e;
        assert(is_passed(graph, nonces, p));
        let k = choose|k: int|
            0 <= k < nonces.len() && p == #[trigger] walk(graph, nonces, k as nat);
        assert(order[k] == e);
    }
}

/// Whether the walk passes a position in its first round.
spec fn is_passed(graph: Graph, nonces: Seq<u64>, p: int) -> bool {
    exists|k: int| 0 <= k < nonces.len() && p == #[trigger] walk(graph, nonces, k as nat)
}

/// A walk that goes round passes every position.
proof fn lemma_walk_covers(graph: Graph, nonces: Seq<u64>)
    requires
        nonces.len() > 0,
        all_paired(graph, nonces),
        walks_round(graph, nonces),
    ensures
        forall|p: int| 0 <= p < nonces.len() ==> #[trigger] is_passed(graph, nonces, p),
{
    let n = nonces.len();
    let positions = Seq::new(n, |k: int| walk(graph, nonces, k as nat));
    let all = vstd::set_lib::set_int_range(0, n as int);
    vstd::set_lib::lemma_int_range(0, n as int);
    assert(positions.no_duplicates()) by {
        assert forall|i: int, j: int| 0 <= i < n && 0 <= j < n && i != j implies positions[i]
            != positions[j] by {
            assert(walk(graph, nonces, i as nat) != walk(graph, nonces, j as nat));
        }
    }
    positions.unique_seq_to_set();
    assert forall|p: int| positions.to_set().contains(p) implies all.contains(p) by {
        let k = choose|k: int| 0 <= k < positions.len() && positions[k] == p;
        lemma_walk_goes_to_partners(graph, nonces, k as nat);
    }
    vstd::set_lib::lemma_subset_equality(positions.to_set(), all);
    assert forall|p: int| 0 <= p < nonces.len() implies #[trigger] is_passed(graph, nonces, p) by {
        assert(all.contains(p));
        assert(positions.to_set().contains(p));
        let k = choose|k: int| 0 <= k < positions.len() && positions[k] == p;
        assert(p == walk(graph, nonces, k as nat));
    }
}

/// The position after `k` steps along a cycle of `len` edges from position
/// `start`, on side 0 first.
spec fn turned(len: nat, start: int, k: int) -> int {
    if start % 2 == 0 {
        if start + k < len {
            start + k
        } else {
            start + k - len
        }
    } else {
        if start - k >= 0 {
            start - k
        } else {
            start - k + len
        }
    }
}

proof fn lemma_walk_follows_cycle(
    graph: Graph,
    nonces: Seq<u64>,
    order: Seq<u64>,
    start: int,
    k: nat,
)
    requires
        graph.is_cycle(order),
        nonces.len() == order.len(),
        nonces.no_duplicates(),
        order.to_set() == nonces.to_set(),
        0 <= start < order.len(),
        order[start] == nonces[0],
        k <= nonces.len(),
    ensures
        0 <= walk(graph, nonces, k) < nonces.len(),
        nonces[walk(graph, nonces, k)] == order[turned(order.len(), start, k as int)],
    decreases k,
{
    if k > 0 {
        let n = order.len();
        let j = (k - 1) as nat;
        lemma_walk_follows_cycle(graph, nonces, order, start, j);
        let side = j as int % 2;
        let p = turned(n, start, j as int);
        let q = turned(n, start, k as int);
        assert(p % 2 == if start % 2 == 0 {
            side
        } else {
            1 - side
        });
        assert(q == crate::graph::cycle_neighbour(n, p, side));
        let here = walk(graph, nonces, j);
        assert(order.to_set().contains(order[q]));
        let target = choose|t: int| 0 <= t < nonces.len() && nonces[t] == order[q];
        assert(graph.node(order[p], side) == graph.node(order[p], side));
        assert(graph.node(order[q], side) == graph.node(order[q], side));
        assert(graph.meet(order[p], order[q], side));
        assert(partners(graph, nonces, here, target, side));
        assert forall|t: int| #[trigger] partners(graph, nonces, here, t, side) implies t
            == target by {
            lemma_cycle_partner(graph, nonces, order, p, t, side);
        }
        lemma_walk_step(graph, nonces, j, target);
    }
}

/// What meets an edge of a cycle, among the same edges, is its neighbour.
proof fn lemma_cycle_partner(
    graph: Graph,
    nonces: Seq<u64>,
    order: Seq<u64>,
    p: int,
    t: int,
    side: int,
)
    requires
        graph.is_cycle(order),
        order.to_set() == nonces.to_set(),
        0 <= p < order.len(),
        0 <= side < 2,
        0 <= t < nonces.len(),
        graph.meet(order[p], nonces[t], side),
    ensures
        nonces[t] == order[crate::graph::cycle_neighbour(order.len(), p, side)],
{
    assert(nonces.to_set().contains(nonces[t]));
    let q = choose|q: int| 0 <= q < order.len() && order[q] == nonces[t];
    assert(graph.node(order[p], side) == graph.node(order[p], side));
    assert(graph.node(order[q], side) == graph.node(order[q], side));
}

/// Every cycle of the graph is accepted: the edges of a cycle, in strictly
/// ascending order, pass the check.
pub proof fn lemma_cycle_is_accepted(
    graph: Graph,
    cycle_length: usize,
    order: Seq<u64>,
    nonces: Seq<u64>,
)
    requires
        1 <= graph.edge_bits <= 32,
        graph.is_cycle(order),
        order.len() == cycle_length,
        forall|i: int| 0 <= i < order.len() ==> #[trigger] order[i] < graph.edge_count(),
        is_strictly_ascending(nonces),
        nonces.to_set() == order.to_set(),
    ensures
        verdict(graph, cycle_length, nonces) is Ok,
{
    reveal(verdict);
    crate::graph::lemma_cycle_has_no_repeats(graph, order);
    assert(nonces.no_duplicates());
    order.unique_seq_to_set();
    nonces.unique_seq_to_set();
    let n = order.len();
    assert forall|i: int| 0 <= i < nonces.len() implies #[trigger] nonces[i]
        < graph.edge_count() by {
        assert(nonces.to_set().contains(nonces[i]));
        let q = choose|q: int| 0 <= q < order.len() && order[q] == nonces[i];
        assert(order[q] < graph.edge_count());
    }
    assert(in_order(graph.edge_count(), nonces, nonces.len() as int));
    assert forall|i: int, side: int| 0 <= i < nonces.len() && 0 <= side < 2 implies
        #[trigger] has_one_partner(graph, nonces, i, side) by {
        assert(nonces.to_set().contains(nonces[i]));
        let p = choose|p: int| 0 <= p < order.len() && order[p] == nonces[i];
        let q = crate::graph::cycle_neighbour(n, p, side);
        assert(graph.node(order[p], side) == graph.node(order[p], side));
        assert(graph.node(order[q], side) == graph.node(order[q], side));
        assert(order.to_set().contains(order[q]));
        let t = choose|t: int| 0 <= t < nonces.len() && nonces[t] == order[q];
        assert(partners(graph, nonces, i, t, side));
        assert forall|k: int| #[trigger] partners(graph, nonces, i, k, side) implies k == t by {
            lemma_cycle_partner(graph, nonces, order, p, k, side);
        }
    }
    assert(nonces.to_set().contains(nonces[0]));
    let start = choose|p: int| 0 <= p < order.len() && order[p] == nonces[0];
    assert forall|i: int, j: int|
        #![trigger walk(graph, nonces, i as nat), walk(graph, nonces, j as nat)]
        0 <= i < j < nonces.len() implies walk(graph, nonces, i as nat) != walk(
        graph,
        nonces,
        j as nat,
    ) by {
        lemma_walk_follows_cycle(graph, nonces, order, start, i as nat);
        lemma_walk_follows_cycle(graph, nonces, order, start, j as nat);
        assert(turned(n, start, i) != turned(n, start, j));
    }
    lemma_walk_follows_cycle(graph, nonces, order, start, n);
    assert(turned(n, start, n as int) == start);
    assert(walks_round(graph, nonces));
}

/// The edges of an accepted proof form a closed set.
pub proof fn lemma_accepted_proof_is_closed(graph: Graph, cycle_length: usize, nonces: Seq<u64>)
    requires
        verdict(graph, cycle_length, nonces) is Ok,
    ensures
        graph.is_closed(nonces.to_set()),
{
    if nonces.len() > 0 {
        lemma_accepted_proof_is_cycle(graph, cycle_length, nonces);
        crate::graph::lemma_cycle_is_closed(graph, walk_order(graph, nonces));
    }
}

/// The height at which graphs of 31 edge bits start to lose weight.
pub const YEAR_HEIGHT: u64 = 524_160;

/// The blocks after which such graphs lose one more step of weight.
pub const WEEK_HEIGHT: u64 = 10_080;

/// The smallest graph size with a weight.
pub const BASE_EDGE_BITS: u8 = 24;

/// The size that counts for the weight of a graph at a height.
pub open spec fn weighed_bits(height: u64, edge_bits: u8) -> nat {
    if edge_bits == 31 && height >= YEAR_HEIGHT {
        let lost = 1 + (height - YEAR_HEIGHT) / (WEEK_HEIGHT as int);
        if lost <= 31 {
            (31 - lost) as nat
        } else {
            0
        }
    } else {
        edge_bits as nat
    }
}

/// The weight of a graph size at a height.
pub open spec fn weight(height: u64, edge_bits: u8) -> nat {
    if edge_bits < BASE_EDGE_BITS {
        0
    } else {
        power2::pow2((edge_bits - BASE_EDGE_BITS + 1) as nat) * weighed_bits(height, edge_bits)
    }
}

/// The weight of a graph size at a height.  Sizes above 80 have weights that
/// do not fit 64 bits.
pub fn graph_weight(height: u64, edge_bits: u8) -> (result: u64)
    requires
        edge_bits <= 80,
    ensures
        result == weight(height, edge_bits),
{
    if edge_bits < BASE_EDGE_BITS {
        return 0;
    }
    let mut adjusted: u64 = edge_bits as u64;
    if edge_bits == 31 && height >= YEAR_HEIGHT {
        adjusted = adjusted.saturating_sub(1 + (height - YEAR_HEIGHT) / WEEK_HEIGHT);
    }
    let exponent: u8 = edge_bits - BASE_EDGE_BITS + 1;
    let scale = bits::power_of_two(exponent);
    proof {
        power2::lemma2_to64();
        power2::lemma2_to64_rest();
        if exponent < 57 {
            power2::lemma_pow2_strictly_increases(exponent as nat, 57);
        }
        assert(scale * adjusted <= u64::MAX) by (nonlinear_arith)
            requires
                scale <= 0x200_0000_0000_0000,
                adjusted <= 80,
        ;
    }
    scale * adjusted
}

/// Bit `p` of the nonces written one after the other, each in `edge_bits`
/// bits with its lowest bit first.
pub open spec fn packed_bit(nonces: Seq<u64>, edge_bits: u8, p: int) -> bool {
    &&& p < nonces.len() * edge_bits
    &&& nonces[p / edge_bits as int] as nat / power2::pow2((p % edge_bits as int) as nat) % 2 == 1
}

/// One if a bit is set, otherwise zero.
pub open spec fn bit_value(bit: bool) -> int {
    if bit {
        1
    } else {
        0
    }
}

/// Byte `b` of the packed nonces.
pub open spec fn packed_byte(nonces: Seq<u64>, edge_bits: u8, b: int) -> int {
    bit_value(packed_bit(nonces, edge_bits, 8 * b)) + 2 * bit_value(
        packed_bit(nonces, edge_bits, 8 * b + 1),
    ) + 4 * bit_value(packed_bit(nonces, edge_bits, 8 * b + 2)) + 8 * bit_value(
        packed_bit(nonces, edge_bits, 8 * b + 3),
    ) + 16 * bit_value(packed_bit(nonces, edge_bits, 8 * b + 4)) + 32 * bit_value(
        packed_bit(nonces, edge_bits, 8 * b + 5),
    ) + 64 * bit_value(packed_bit(nonces, edge_bits, 8 * b + 6)) + 128 * bit_value(
        packed_bit(nonces, edge_bits, 8 * b + 7),
    )
}

/// The nonces packed into bytes, the last one filled up with zero bits.
pub open spec fn packed_nonces(nonces: Seq<u64>, edge_bits: u8) -> Seq<u8> {
    Seq::new(
        ((nonces.len() * edge_bits + 7) / 8) as nat,
        |b: int| packed_byte(nonces, edge_bits, b) as u8,
    )
}

fn bit_at(nonces: &Vec<u64>, edge_bits: u8, bit_len: usize, byte: usize, k: u8) -> (bit: u8)
    requires
        0 < edge_bits <= 64,
        bit_len == nonces.len() * edge_bits,
        8 * byte < bit_len,
        k < 8,
    ensures
        bit == bit_value(packed_bit(nonces@, edge_bits, 8 * byte + k)),
{
    if (k as usize) < bit_len - 8 * byte {
        let p: usize = 8 * byte + k as usize;
        let width: usize = edge_bits as usize;
        let shift: u64 = (p % width) as u64;
        assert(p / width < nonces.len()) by (nonlinear_arith)
            requires
                0 < width == edge_bits,
                p < nonces.len() * edge_bits,
        ;
        assert(p % width < width) by (nonlinear_arith)
            requires
                width > 0,
        ;
        let nonce: u64 = nonces[p / width];
        let shifted: u64 = nonce >> shift;
        proof {
            vstd::bits::lemma_u64_shr_is_div(nonce, shift);
            assert(shifted & 1 == shifted % 2) by (bit_vector);
        }
        (shifted & 1) as u8
    } else {
        0
    }
}

/// The nonces of a proof packed into bytes: each in `edge_bits` bits, lowest
/// bit first, one after the other.
pub fn pack_nonces(proof: &Proof, edge_bits: u8) -> (packed: Vec<u8>)
    requires
        edge_bits <= 64,
        proof.nonces.len() * edge_bits <= usize::MAX,
    ensures
        packed@ == packed_nonces(proof.nonces@, edge_bits),
{
    let bit_len: usize = proof.nonces.len() * edge_bits as usize;
    let mut packed: Vec<u8> = Vec::new();
    if edge_bits == 0 {
        assert(proof.nonces.len() * edge_bits == 0) by (nonlinear_arith)
            requires
                edge_bits == 0,
        ;
        assert(packed@ =~= packed_nonces(proof.nonces@, edge_bits));
        return packed;
    }
    let count: usize = bit_len / 8 + if bit_len % 8 == 0 {
        0usize
    } else {
        1usize
    };
    let mut b: usize = 0;
    while b < count
        invariant
            0 < edge_bits <= 64,
            bit_len == proof.nonces.len() * edge_bits,
            b <= count,
            8 * count < bit_len + 8,
            packed.len() == b,
            forall|i: int|
                0 <= i < b ==> #[trigger] packed@[i] == packed_byte(
                    proof.nonces@,
                    edge_bits,
                    i,
                ) as u8,
        decreases count - b,
    {
        let nonces = &proof.nonces;
        let low: u8 = bit_at(nonces, edge_bits, bit_len, b, 0) + 2 * bit_at(
            nonces,
            edge_bits,
            bit_len,
            b,
            1,
        ) + 4 * bit_at(nonces, edge_bits, bit_len, b, 2) + 8 * bit_at(
            nonces,
            edge_bits,
            bit_len,
            b,
            3,
        );
        let high: u8 = bit_at(nonces, edge_bits, bit_len, b, 4) + 2 * bit_at(
            nonces,
            edge_bits,
            bit_len,
            b,
            5,
        ) + 4 * bit_at(nonces, edge_bits, bit_len, b, 6) + 8 * bit_at(
            nonces,
            edge_bits,
            bit_len,
            b,
            7,
        );
        packed.push(low + 16 * high);
        b = b + 1;
    }
    assert(packed@ =~= packed_nonces(proof.nonces@, edge_bits));
    packed
}

/// BLAKE2b-256 of the packed nonces of a proof.
pub fn proof_hash(proof: &Proof, edge_bits: u8) -> (hash: [u8; 32])
    requires
        edge_bits <= 64,
        proof.nonces.len() * edge_bits <= usize::MAX,
    ensures
        hash@ == keys::blake2b_256(packed_nonces(proof.nonces@, edge_bits)),
{
    let packed = pack_nonces(proof, edge_bits);
    keys::blake2b(packed.as_slice())
}

/// The difficulty of a hash: 2^64 times the scale, divided by the first eight
/// bytes of the hash, at most what 64 bits hold.  A hash that starts with
/// eight zero bytes counts as one.
pub open spec fn scaled_difficulty(hash: Seq<u8>, scale: nat) -> nat {
    let prefix = bits::be_value(hash.take(8));
    let quotient = 0x1_0000_0000_0000_0000 * scale / (if prefix == 0 {
        1
    } else {
        prefix
    });
    if quotient <= u64::MAX {
        quotient
    } else {
        u64::MAX as nat
    }
}

/// The difficulty of a hash at a scale.
pub fn hash_difficulty(hash: &[u8; 32], scale: u64) -> (difficulty: u64)
    ensures
        difficulty == scaled_difficulty(hash@, scale as nat),
{
    let prefix = bits::read_be(hash);
    let denominator: u64 = if prefix == 0 {
        1
    } else {
        prefix
    };
    let numerator: u128 = scale as u128 * 0x1_0000_0000_0000_0000u128;
    let quotient: u128 = numerator / (denominator as u128);
    if quotient <= u64::MAX as u128 {
        quotient as u64
    } else {
        u64::MAX
    }
}

/// The difficulty of a proof, scaled by the weight of its graph.
pub fn proof_difficulty(proof: &Proof, edge_bits: u8, height: u64) -> (difficulty: u64)
    requires
        edge_bits <= 64,
        proof.nonces.len() * edge_bits <= usize::MAX,
    ensures
        difficulty == scaled_difficulty(
            keys::blake2b_256(packed_nonces(proof.nonces@, edge_bits)),
            weight(height, edge_bits),
        ),
{
    let hash = proof_hash(proof, edge_bits);
    hash_difficulty(&hash, graph_weight(height, edge_bits))
}

/// The difficulty of a proof without the weight of its graph.
pub fn unscaled_proof_difficulty(proof: &Proof, edge_bits: u8) -> (difficulty: u64)
    requires
        edge_bits <= 64,
        proof.nonces.len() * edge_bits <= usize::MAX,
    ensures
        difficulty == scaled_difficulty(
            keys::blake2b_256(packed_nonces(proof.nonces@, edge_bits)),
            1,
        ),
{
    let hash = proof_hash(proof, edge_bits);
    hash_difficulty(&hash, 1)
}

/// A larger scale never lowers the difficulty of a hash.
pub proof fn lemma_difficulty_grows_with_scale(hash: Seq<u8>, low: nat, high: nat)
    requires
        low <= high,
    ensures
        scaled_difficulty(hash, low) <= scaled_difficulty(hash, high),
{
    let prefix = bits::be_value(hash.take(8));
    let d = (if prefix == 0 {
        1
    } else {
        prefix
    }) as int;
    vstd::arithmetic::div_mod::lemma_div_is_ordered(
        0x1_0000_0000_0000_0000 * low as int,
        0x1_0000_0000_0000_0000 * high as int,
        d,
    );
}

/// A hash whose first eight bytes write a smaller number is at least as
/// difficult.
pub proof fn lemma_smaller_hash_is_harder(small: Seq<u8>, large: Seq<u8>, scale: nat)
    requires
        bits::be_value(small.take(8)) <= bits::be_value(large.take(8)),
    ensures
        scaled_difficulty(small, scale) >= scaled_difficulty(large, scale),
{
    let a = bits::be_value(small.take(8));
    let b = bits::be_value(large.take(8));
    let x = (if a == 0 {
        1
    } else {
        a
    }) as int;
    let y = (if b == 0 {
        1
    } else {
        b
    }) as int;
    vstd::arithmetic::div_mod::lemma_div_is_ordered_by_denominator(
        0x1_0000_0000_0000_0000 * scale as int,
        x,
        y,
    );
}

/// The positions at which a node occurs in a list of nodes, in ascending order.
pub open spec fn lists_positions(positions: Seq<usize>, nodes: Seq<u32>, node: u32) -> bool {
    &&& forall|a: int, b: int| 0 <= a < b < positions.len() ==> positions[a] < positions[b]
    &&& forall|a: int|
        0 <= a < positions.len() ==> (#[trigger] positions[a]) < nodes.len()
            && nodes[positions[a] as int] == node
    &&& forall|i: int|
        0 <= i < nodes.len() && #[trigger] nodes[i] == node ==> positions.contains(i as usize)
}

/// Whether a lookup table gives for each node its positions in `nodes`, and
/// nothing for a node that is not there.
pub open spec fn indexes(lookup: Map<u32, Vec<usize>>, nodes: Seq<u32>) -> bool {
    &&& forall|node: u32| #[trigger]
        lookup.contains_key(node) ==> nodes.contains(node) && lists_positions(
            lookup[node]@,
            nodes,
            node,
        )
    &&& forall|i: int| 0 <= i < nodes.len() ==> lookup.contains_key(#[trigger] nodes[i])
}

/// The nodes of the listed edges on one side.
pub open spec fn side_nodes(graph: Graph, edges: Seq<u64>, side: int) -> Seq<u32> {
    Seq::new(edges.len(), |i: int| graph.node(edges[i], side))
}

/// The positions of edges by their nodes on both sides.
pub struct EndpointIndex {
    even: HashMap<u32, Vec<usize>>,
    odd: HashMap<u32, Vec<usize>>,
}

impl EndpointIndex {
    /// Whether the index holds the given nodes of side 0 and side 1.
    pub closed spec fn holds(self, even: Seq<u32>, odd: Seq<u32>) -> bool {
        indexes(self.even@, even) && indexes(self.odd@, odd)
    }

    /// The positions of a node on a side, or nothing where it does not occur.
    pub(crate) fn positions(
        &self,
        side: usize,
        node: u32,
        Ghost(even): Ghost<Seq<u32>>,
        Ghost(odd): Ghost<Seq<u32>>,
    ) -> (found: Option<&Vec<usize>>)
        requires
            self.holds(even, odd),
            side < 2,
        ensures
            ({
                let nodes = if side == 0 {
                    even
                } else {
                    odd
                };
                match found {
                    Some(positions) => nodes.contains(node) && lists_positions(
                        positions@,
                        nodes,
                        node,
                    ),
                    None => !nodes.contains(node),
                }
            }),
    {
        broadcast use vstd::std_specs::hash::group_hash_axioms;

        if side == 0 {
            self.even.get(&node)
        } else {
            self.odd.get(&node)
        }
    }
}

fn add_position(
    lookup: &mut HashMap<u32, Vec<usize>>,
    node: u32,
    position: usize,
    Ghost(nodes): Ghost<Seq<u32>>,
)
    requires
        indexes(old(lookup)@, nodes),
        position == nodes.len(),
    ensures
        indexes(final(lookup)@, nodes.push(node)),
{
    broadcast use vstd::std_specs::hash::group_hash_axioms;

    let ghost grown = nodes.push(node);
    let ghost before = lookup@;
    let mut positions: Vec<usize> = match lookup.remove(&node) {
        Some(positions) => positions,
        None => Vec::new(),
    };
    let ghost listed = positions@;
    assert(lists_positions(listed, nodes, node)) by {
        if !before.contains_key(node) {
            assert(listed =~= Seq::<usize>::empty());
            assert forall|i: int| 0 <= i < nodes.len() && #[trigger] nodes[i] == node implies
                listed.contains(i as usize) by {
                assert(before.contains_key(nodes[i]));
            }
        }
    }
    positions.push(position);
    assert(lists_positions(positions@, grown, node)) by {
        assert forall|i: int| 0 <= i < grown.len() && #[trigger] grown[i] == node implies
            positions@.contains(i as usize) by {
            if i < nodes.len() {
                assert(nodes[i] == node);
                let k = choose|k: int| 0 <= k < listed.len() && listed[k] == i as usize;
                assert(positions@[k] == i as usize);
            } else {
                assert(positions@[listed.len() as int] == i as usize);
            }
        }
    }
    lookup.insert(node, positions);
    proof {
        assert forall|v: u32| #[trigger] lookup@.contains_key(v) implies grown.contains(v)
            && lists_positions(lookup@[v]@, grown, v) by {
            if v == node {
                assert(grown[nodes.len() as int] == v);
            } else {
                assert(before.contains_key(v));
                let i = choose|i: int| 0 <= i < nodes.len() && nodes[i] == v;
                assert(grown[i] == v);
                assert(lookup@[v] == before[v]);
                let list = before[v]@;
                assert forall|i: int| 0 <= i < grown.len() && #[trigger] grown[i] == v implies
                    list.contains(i as usize) by {
                    assert(nodes[i] == v);
                }
            }
        }
        assert forall|i: int| 0 <= i < grown.len() implies lookup@.contains_key(
            #[trigger] grown[i],
        ) by {
            if i < nodes.len() {
                assert(before.contains_key(nodes[i]));
            }
        }
    }
}

/// Builds the lookup tables that the survivor search works on.
pub fn endpoint_index(keys: SipKeys, edge_bits: u8, edges: &[u64]) -> (result: (
    Vec<[u32; 2]>,
    EndpointIndex,
))
    requires
        edges.len() > 0 ==> edge_bits < 64,
    ensures
        ({
            let graph = Graph { keys, edge_bits };
            let (nodes, index) = result;
            &&& nodes.len() == edges.len()
            &&& forall|i: int, side: int|
                0 <= i < edges.len() && 0 <= side < 2 ==> #[trigger] nodes@[i]@[side]
                    == graph.node(edges[i], side)
            &&& index.holds(side_nodes(graph, edges@, 0), side_nodes(graph, edges@, 1))
        }),
{
    let ghost graph = Graph { keys, edge_bits };
    let nodes = edge_nodes(keys, edge_bits, edges);
    let mut even: HashMap<u32, Vec<usize>> = HashMap::new();
    let mut odd: HashMap<u32, Vec<usize>> = HashMap::new();
    let mut i: usize = 0;
    assert(side_nodes(graph, edges@, 0).take(0) =~= Seq::<u32>::empty());
    assert(side_nodes(graph, edges@, 1).take(0) =~= Seq::<u32>::empty());
    while i < edges.len()
        invariant
            i <= edges.len() == nodes.len(),
            graph == (Graph { keys, edge_bits }),
            forall|k: int, side: int|
                0 <= k < edges.len() && 0 <= side < 2 ==> #[trigger] nodes@[k]@[side]
                    == graph.node(edges[k], side),
            indexes(even@, side_nodes(graph, edges@, 0).take(i as int)),
            indexes(odd@, side_nodes(graph, edges@, 1).take(i as int)),
        decreases edges.len() - i,
    {
        let ghost zero = side_nodes(graph, edges@, 0);
        let ghost one = side_nodes(graph, edges@, 1);
        add_position(&mut even, nodes[i][0], i, Ghost(zero.take(i as int)));
        add_position(&mut odd, nodes[i][1], i, Ghost(one.take(i as int)));
        assert(nodes@[i as int]@[0] == zero[i as int]);
        assert(nodes@[i as int]@[1] == one[i as int]);
        assert(zero.take(i as int).push(zero[i as int]) =~= zero.take(i + 1));
        assert(one.take(i as int).push(one[i as int]) =~= one.take(i + 1));
        i = i + 1;
    }
    assert(side_nodes(graph, edges@, 0).take(i as int) =~= side_nodes(graph, edges@, 0));
    assert(side_nodes(graph, edges@, 1).take(i as int) =~= side_nodes(graph, edges@, 1));
    (nodes, EndpointIndex { even, odd })
}

/// The number that the first eight bytes write, the highest byte first.
pub open spec fn first_word(bytes: Seq<u8>) -> nat {
    (bytes[7] + bytes[6] * 0x100 + bytes[5] * 0x1_0000 + bytes[4] * 0x100_0000 + bytes[3]
        * 0x1_0000_0000 + bytes[2] * 0x100_0000_0000 + bytes[1] * 0x1_0000_0000_0000 + bytes[0]
        * 0x100_0000_0000_0000) as nat
}

proof fn be_value_is_first_word(bytes: Seq<u8>)
    requires
        bytes.len() >= 8,
    ensures
        bits::be_value(bytes.take(8)) == first_word(bytes),
{
    let b = bytes.take(8);
    reveal_with_fuel(bits::be_value, 9);
    assert(b.drop_last() =~= b.take(7));
    assert(b.take(7).drop_last() =~= b.take(6));
    assert(b.take(6).drop_last() =~= b.take(5));
    assert(b.take(5).drop_last() =~= b.take(4));
    assert(b.take(4).drop_last() =~= b.take(3));
    assert(b.take(3).drop_last() =~= b.take(2));
    assert(b.take(2).drop_last() =~= b.take(1));
    assert(b.take(1).drop_last() =~= b.take(0));
}

/// A difficulty is the largest number that, times the first eight bytes of the
/// hash, does not pass 2^64 times the scale, as far as 64 bits hold it.
pub proof fn lemma_difficulty_is_a_quotient(hash: Seq<u8>, scale: nat)
    requires
        hash.len() >= 8,
    ensures
        ({
            let prefix = first_word(hash);
            let difficulty = scaled_difficulty(hash, scale);
            let top = 0x1_0000_0000_0000_0000 * scale;
            &&& difficulty <= u64::MAX
            &&& difficulty < u64::MAX && prefix > 0 ==> difficulty * prefix <= top < (difficulty
                + 1) * prefix
            &&& difficulty == u64::MAX && prefix > 0 ==> u64::MAX * prefix <= top
            &&& prefix == 0 ==> difficulty == if scale == 0 {
                0
            } else {
                u64::MAX as nat
            }
        }),
{
    be_value_is_first_word(hash);
    let prefix = first_word(hash) as int;
    let top = 0x1_0000_0000_0000_0000 * scale as int;
    if prefix > 0 {
        let quotient = top / prefix;
        assert(quotient * prefix <= top < (quotient + 1) * prefix) by (nonlinear_arith)
            requires
                prefix > 0,
                top >= 0,
                quotient == top / prefix,
        ;
        assert(quotient >= u64::MAX ==> u64::MAX * prefix <= quotient * prefix) by (nonlinear_arith)
            requires
                prefix > 0,
        ;
    }
}

proof fn bits_of_a_sum(a: int, b: int, c: int, d: int, e: int, f: int, g: int, h: int)
    requires
        0 <= a < 2,
        0 <= b < 2,
        0 <= c < 2,
        0 <= d < 2,
        0 <= e < 2,
        0 <= f < 2,
        0 <= g < 2,
        0 <= h < 2,
    ensures
        ({
            let byte = a + 2 * b + 4 * c + 8 * d + 16 * e + 32 * f + 64 * g + 128 * h;
            &&& 0 <= byte < 256
            &&& byte % 2 == a
            &&& byte / 2 % 2 == b
            &&& byte / 4 % 2 == c
            &&& byte / 8 % 2 == d
            &&& byte / 16 % 2 == e
            &&& byte / 32 % 2 == f
            &&& byte / 64 % 2 == g
            &&& byte / 128 % 2 == h
        }),
{
    let byte = a + 2 * b + 4 * c + 8 * d + 16 * e + 32 * f + 64 * g + 128 * h;
    let r7 = h;
    let r6 = g + 2 * r7;
    let r5 = f + 2 * r6;
    let r4 = e + 2 * r5;
    let r3 = d + 2 * r4;
    let r2 = c + 2 * r3;
    let r1 = b + 2 * r2;
    assert(byte / 2 == r1);
    assert(byte / 4 == r2);
    assert(byte / 8 == r3);
    assert(byte / 16 == r4);
    assert(byte / 32 == r5);
    assert(byte / 64 == r6);
    assert(byte / 128 == r7);
}

/// The bytes that a proof is hashed as hold every bit of every edge in its
/// place: bit `j` of edge `k` is bit `edge_bits * k + j`, counted from the lowest
/// bit of the first byte.
pub proof fn lemma_packing_keeps_every_bit(nonces: Seq<u64>, edge_bits: u8, k: int, j: int)
    requires
        0 <= k < nonces.len(),
        0 <= j < edge_bits,
    ensures
        ({
            let p = edge_bits * k + j;
            let packed = packed_nonces(nonces, edge_bits);
            &&& 0 <= p / 8 < packed.len()
            &&& packed[p / 8] as nat / power2::pow2((p % 8) as nat) % 2 == nonces[k] as nat
                / power2::pow2(j as nat) % 2
            &&& 8 * packed.len() < nonces.len() * edge_bits + 8
            &&& 8 * packed.len() >= nonces.len() * edge_bits
        }),
{
    let width = edge_bits as int;
    let p = width * k + j;
    let total = nonces.len() * width;
    assert(p < total && p >= 0 && p / width == k && p % width == j) by (nonlinear_arith)
        requires
            p == width * k + j,
            0 <= j < width,
            0 <= k < nonces.len(),
            total == nonces.len() * width,
    ;
    let b = p / 8;
    let bit = |i: int| bit_value(packed_bit(nonces, edge_bits, 8 * b + i));
    bits_of_a_sum(bit(0), bit(1), bit(2), bit(3), bit(4), bit(5), bit(6), bit(7));
    power2::lemma2_to64();
    let i = p % 8;
    let set = bit_value(packed_bit(nonces, edge_bits, p));
    let byte = packed_byte(nonces, edge_bits, b);
    assert(8 * b + i == p);
    assert(bit(i) == set);
    assert(byte / power2::pow2(i as nat) as int % 2 == set) by {
        if i == 0 {
            assert(power2::pow2(0) == 1);
            assert(byte / 1 % 2 == bit(0));
        } else if i == 1 {
            assert(power2::pow2(1) == 2);
            assert(byte / 2 % 2 == bit(1));
        } else if i == 2 {
            assert(power2::pow2(2) == 4);
            assert(byte / 4 % 2 == bit(2));
        } else if i == 3 {
            assert(power2::pow2(3) == 8);
            assert(byte / 8 % 2 == bit(3));
        } else if i == 4 {
            assert(power2::pow2(4) == 16);
            assert(byte / 16 % 2 == bit(4));
        } else if i == 5 {
            assert(power2::pow2(5) == 32);
            assert(byte / 32 % 2 == bit(5));
        } else if i == 6 {
            assert(power2::pow2(6) == 64);
            assert(byte / 64 % 2 == bit(6));
        } else {
            assert(power2::pow2(7) == 128);
            assert(byte / 128 % 2 == bit(7));
        }
    }
    assert(packed_nonces(nonces, edge_bits)[b] == byte);
    let value = nonces[k] as nat / power2::pow2(j as nat);
    assert(set == value % 2);
}

/// Edges of one size that are packed alike are the same edges.
pub proof fn lemma_packing_loses_nothing(a: Seq<u64>, b: Seq<u64>, edge_bits: u8, k: int, j: int)
    requires
        a.len() == b.len(),
        packed_nonces(a, edge_bits) == packed_nonces(b, edge_bits),
        0 <= k < a.len(),
        0 <= j < edge_bits,
    ensures
        a[k] as nat / power2::pow2(j as nat) % 2 == b[k] as nat / power2::pow2(j as nat) % 2,
{
    lemma_packing_keeps_every_bit(a, edge_bits, k, j);
    lemma_packing_keeps_every_bit(b, edge_bits, k, j);
}

/// A graph weighs twice its edge bits for each node bit above the smallest size
/// that counts, doubled at each further bit; graphs of 31 bits lose one bit of
/// that a year after the start and one more each week.
pub proof fn lemma_weights(height: u64, edge_bits: u8)
    requires
        edge_bits <= 80,
    ensures
        edge_bits < 24 ==> weight(height, edge_bits) == 0,
        edge_bits >= 24 && (edge_bits != 31 || height < 524_160) ==> weight(height, edge_bits)
            == power2::pow2((edge_bits - 23) as nat) * edge_bits,
        height >= 524_160 && height - 524_160 >= 30 * 10_080 ==> weight(height, 31) == 0,
        height >= 524_160 && height - 524_160 < 30 * 10_080 ==> weight(height, 31) == 256 * (30 - (
        height - 524_160) / 10_080),
{
    power2::lemma2_to64();
    if height >= 524_160 {
        let weeks = (height - 524_160) / 10_080;
        let bits = weighed_bits(height, 31);
        assert(weight(height, 31) == 256 * bits);
        assert(weeks >= 30 ==> bits == 0);
        assert(weeks < 30 ==> bits == 30 - weeks);
    }
}

/// What each refusal of a proof means.
pub proof fn lemma_refusals_have_reasons(graph: Graph, cycle_length: usize, nonces: Seq<u64>)
    requires
        nonces.len() <= usize::MAX,
    ensures
        ({
            let result = verdict(graph, cycle_length, nonces);
            let sized = 1 <= graph.edge_bits <= 32 && nonces.len() == cycle_length;
            &&& result == Err::<(), VerifyError>(VerifyError::BadEdgeBits) <==> !(1
                <= graph.edge_bits <= 32)
            &&& 1 <= graph.edge_bits <= 32 && nonces.len() != cycle_length ==> result == Err::<
                (),
                VerifyError,
            >(
                VerifyError::BadProofSize {
                    expected: cycle_length,
                    actual: nonces.len() as usize,
                },
            )
            &&& result matches Err(VerifyError::BadProofSize { .. }) ==> nonces.len()
                != cycle_length
            &&& result == Err::<(), VerifyError>(VerifyError::Range) ==> sized && exists|i: int|
                0 <= i < nonces.len() && #[trigger] nonces[i] >= power2::pow2(
                    graph.edge_bits as nat,
                )
            &&& result == Err::<(), VerifyError>(VerifyError::NotSortedDistinct) ==> sized
                && exists|i: int, j: int|
                0 <= i < j < nonces.len() && #[trigger] nonces[i] >= #[trigger] nonces[j]
            &&& result == Err::<(), VerifyError>(VerifyError::EndpointDegree) ==> sized
                && exists|i: int, side: int|
                0 <= i < nonces.len() && 0 <= side < 2 && !#[trigger] has_one_partner(
                    graph,
                    nonces,
                    i,
                    side,
                )
            &&& result == Err::<(), VerifyError>(VerifyError::NotSingleCycle) ==> sized && (
            forall|i: int, side: int|
                0 <= i < nonces.len() && 0 <= side < 2 ==> #[trigger] has_one_partner(
                    graph,
                    nonces,
                    i,
                    side,
                ))
        }),
{
    reveal(verdict);
    let limit = graph.edge_count();
    if verdict(graph, cycle_length, nonces) == Err::<(), VerifyError>(VerifyError::Range) {
        let i = choose|i: int|
            0 <= i < nonces.len() && nonces[i] >= limit && #[trigger] in_order(limit, nonces, i);
        assert(nonces[i] >= power2::pow2(graph.edge_bits as nat));
    }
    if verdict(graph, cycle_length, nonces) == Err::<(), VerifyError>(
        VerifyError::NotSortedDistinct,
    ) {
        not_in_order(limit, nonces, nonces.len() as int);
    }
}

/// Edges that are not in order are out of the graph before they are out of
/// order, or two of them are not in ascending order.
proof fn not_in_order(limit: nat, nonces: Seq<u64>, n: int)
    requires
        0 <= n <= nonces.len(),
        !in_order(limit, nonces, n),
        !(exists|i: int|
            0 <= i < nonces.len() && nonces[i] >= limit && #[trigger] in_order(limit, nonces, i)),
    ensures
        exists|i: int, j: int|
            0 <= i < j < nonces.len() && #[trigger] nonces[i] >= #[trigger] nonces[j],
    decreases n,
{
    if n > 0 && !in_order(limit, nonces, n - 1) {
        not_in_order(limit, nonces, n - 1);
    } else if n > 0 {
        assert(nonces[n - 1] < limit);
    }
}

} // verus!
