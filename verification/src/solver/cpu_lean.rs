//! The reference backend: trimming and exact search on the CPU.

use crate::bitmap;
use crate::bits;
use crate::graph::Graph;
use crate::siphash::{self, endpoint};
use crate::solver::search::{self, find_cycle, Search};
use crate::solver::{
    self, BackendCapabilities, ErrorKind, GraphParams, OutcomeView, SolveError, SolveOutcome,
    SolveRequest, Solver,
};
use crate::text;
use crate::verify::{self, Proof};
use std::sync::atomic::AtomicBool;
use vstd::prelude::*;

verus! {

/// All edges of a graph.
pub open spec fn all_edges(graph: Graph) -> Set<u64> {
    Set::new(|edge: u64| edge < graph.edge_count())
}

/// The edges that meet another one of them on a side.
pub open spec fn trimmed_once(graph: Graph, alive: Set<u64>, side: int) -> Set<u64> {
    Set::new(|edge: u64| alive.contains(edge) && graph.has_partner(alive, edge, side))
}

/// The edges left by the rounds from `round` on.  Each round trims one side, in
/// turn.  The rounds end early after one that takes nothing away.
pub open spec fn trimmed(graph: Graph, alive: Set<u64>, round: nat, rounds: nat) -> Set<u64>
    decreases rounds - round,
{
    if round >= rounds {
        alive
    } else {
        let next = trimmed_once(graph, alive, round as int % 2);
        if next == alive {
            alive
        } else {
            trimmed(graph, next, round + 1, rounds)
        }
    }
}

/// Whether `edges` lists a set in ascending order.
pub open spec fn lists(edges: Seq<u64>, set: Set<u64>) -> bool {
    &&& verify::is_strictly_ascending(edges)
    &&& forall|edge: u64| #[trigger] edges.contains(edge) <==> set.contains(edge)
}

/// Why a graph is not trimmed on the CPU, if it is not.
pub open spec fn trim_error(request: GraphParams, max_edge_bits: u8) -> Option<
    (ErrorKind, Seq<char>),
> {
    if request.edge_bits > max_edge_bits {
        Some(
            (
                ErrorKind::Unsupported,
                "CPU backend is capped at edge_bits="@ + text::decimal(max_edge_bits as nat)
                    + "; use --backend wgpu for C32"@,
            ),
        )
    } else if (request.graph().edge_count() + 63) / 64 > usize::MAX {
        Some((ErrorKind::Unsupported, "graph does not fit this CPU address space"@))
    } else {
        None
    }
}

/// The set that a bitmap holds, of the first `count` numbers.
spec fn bitmap_set(words: Seq<u64>, count: u64) -> Set<u64> {
    Set::new(|edge: u64| edge < count && bitmap::bit(words, edge as int))
}

/// Marks the nodes that living edges touch on a side.
fn mark_nodes(
    request: GraphParams,
    alive: &Vec<u64>,
    occupied: &mut Vec<u64>,
    count: u64,
    side: u8,
)
    requires
        request.edge_bits < 64,
        count == request.graph().edge_count(),
        count <= 64 * alive.len(),
        old(occupied).len() == alive.len(),
        side < 2,
    ensures
        final(occupied).len() == alive.len(),
        forall|v: int|
            0 <= v < 64 * alive.len() ==> (#[trigger] bitmap::bit(final(occupied)@, v) <==> exists|
                edge: u64,
            | #[trigger]
                bitmap_set(alive@, count).contains(edge) && request.graph().node(edge, side as int)
                    == v),
{
    bitmap::clear_all(occupied);
    let ghost graph = request.graph();
    let ghost set = bitmap_set(alive@, count);
    let mut edge: u64 = 0;
    while edge < count
        invariant
            request.edge_bits < 64,
            graph == request.graph(),
            count == graph.edge_count(),
            set == bitmap_set(alive@, count),
            count <= 64 * alive.len(),
            occupied.len() == alive.len(),
            edge <= count,
            side < 2,
            forall|v: int|
                0 <= v < 64 * alive.len() ==> (#[trigger] bitmap::bit(occupied@, v) <==> exists|
                    e: u64,
                |
                    e < edge && #[trigger] set.contains(e) && graph.node(e, side as int) == v),
        decreases count - edge,
    {
        let ghost before = occupied@;
        if bitmap::get(alive, edge) {
            let node = endpoint(request.keys, request.edge_bits, edge, side);
            proof {
                lemma_node_fits(graph, edge, side as int);
            }
            bitmap::set(occupied, node as u64);
            assert(set.contains(edge));
        }
        assert forall|v: int| 0 <= v < 64 * alive.len() implies (#[trigger] bitmap::bit(
            occupied@,
            v,
        ) <==> exists|e: u64|
            e < edge + 1 && #[trigger] set.contains(e) && graph.node(e, side as int) == v) by {
            if bitmap::bit(before, v) {
                let e = choose|e: u64|
                    e < edge && #[trigger] set.contains(e) && graph.node(e, side as int) == v;
                assert(e < edge + 1 && set.contains(e));
            }
            if bitmap::bit(occupied@, v) && !bitmap::bit(before, v) {
                assert(set.contains(edge) && graph.node(edge, side as int) == v);
            }
            if exists|e: u64|
                e < edge + 1 && #[trigger] set.contains(e) && graph.node(e, side as int) == v {
                let e = choose|e: u64|
                    e < edge + 1 && #[trigger] set.contains(e) && graph.node(e, side as int) == v;
                if e < edge {
                    assert(bitmap::bit(before, v));
                }
            }
        }
        edge = edge + 1;
    }
    assert forall|v: int| 0 <= v < 64 * alive.len() implies (#[trigger] bitmap::bit(occupied@, v)
        <==> exists|e: u64| #[trigger] set.contains(e) && graph.node(e, side as int) == v) by {
        if exists|e: u64| #[trigger] set.contains(e) && graph.node(e, side as int) == v {
            let e = choose|e: u64| #[trigger] set.contains(e) && graph.node(e, side as int) == v;
            assert(e < edge && set.contains(e));
        }
    }
}

/// A node, and its mate, have a bit in a bitmap with one bit per edge.
proof fn lemma_node_fits(graph: Graph, edge: u64, side: int)
    requires
        graph.edge_bits < 64,
    ensures
        graph.node(edge, side) < graph.edge_count(),
        graph.edge_bits > 0 ==> bits::mate(graph.node(edge, side)) < graph.edge_count(),
        graph.edge_bits == 0 ==> bits::mate(graph.node(edge, side)) == 1,
{
    siphash::lemma_node_bound(graph.keys, graph.edge_bits, edge, side);
    bits::lemma_pow2_fits(graph.edge_bits as nat);
    vstd::arithmetic::power2::lemma2_to64();
    if graph.edge_bits > 32 {
        vstd::arithmetic::power2::lemma_pow2_strictly_increases(32, graph.edge_bits as nat);
    }
    if graph.edge_bits > 0 {
        bits::lemma_mate_below(graph.node(edge, side), graph.edge_count());
    }
}

/// Takes the living edges away that meet no marked node.  Says whether there
/// were any.
fn sweep_edges(
    request: GraphParams,
    alive: &mut Vec<u64>,
    occupied: &Vec<u64>,
    count: u64,
    side: u8,
) -> (killed: bool)
    requires
        request.edge_bits < 64,
        count == request.graph().edge_count(),
        count <= 64 * old(alive).len(),
        old(alive).len() > 0,
        occupied.len() == old(alive).len(),
        side < 2,
        forall|v: int|
            0 <= v < 64 * old(alive).len() ==> (#[trigger] bitmap::bit(occupied@, v) <==> exists|
                edge: u64,
            | #[trigger]
                bitmap_set(old(alive)@, count).contains(edge) && request.graph().node(
                    edge,
                    side as int,
                ) == v),
    ensures
        final(alive).len() == old(alive).len(),
        bitmap_set(final(alive)@, count) == trimmed_once(
            request.graph(),
            bitmap_set(old(alive)@, count),
            side as int,
        ),
        killed <==> bitmap_set(final(alive)@, count) != bitmap_set(old(alive)@, count),
{
    let ghost graph = request.graph();
    let ghost start = alive@;
    let ghost set = bitmap_set(start, count);
    let ghost next = trimmed_once(graph, set, side as int);
    let mut killed = false;
    let mut edge: u64 = 0;
    while edge < count
        invariant
            request.edge_bits < 64,
            graph == request.graph(),
            count == graph.edge_count(),
            set == bitmap_set(start, count),
            next == trimmed_once(graph, set, side as int),
            alive.len() == start.len() == occupied.len(),
            alive.len() > 0,
            count <= 64 * alive.len(),
            edge <= count,
            side < 2,
            forall|v: int|
                0 <= v < 64 * start.len() ==> (#[trigger] bitmap::bit(occupied@, v) <==> exists|
                    e: u64,
                | #[trigger]
                    set.contains(e) && graph.node(e, side as int) == v),
            forall|e: int|
                edge <= e < count ==> (#[trigger] bitmap::bit(alive@, e) <==> bitmap::bit(start, e)),
            forall|e: int|
                0 <= e < edge ==> (#[trigger] bitmap::bit(alive@, e) <==> next.contains(e as u64)),
            killed <==> exists|e: u64| e < edge && #[trigger] set.contains(e) && !next.contains(e),
        decreases count - edge,
    {
        let ghost before = killed;
        if bitmap::get(alive, edge) {
            assert(bitmap::bit(alive@, edge as int));
            assert(set.contains(edge));
            let mate = bits::flip(endpoint(request.keys, request.edge_bits, edge, side));
            proof {
                lemma_node_fits(graph, edge, side as int);
                if graph.edge_bits == 0 {
                    assert(mate < 64 * alive.len());
                }
            }
            let found = bitmap::get(occupied, mate as u64);
            assert(found <==> graph.has_partner(set, edge, side as int)) by {
                if found {
                    let e = choose|e: u64| #[trigger]
                        set.contains(e) && graph.node(e, side as int) == mate as int;
                    assert(set.contains(e) && graph.meet(edge, e, side as int));
                }
                if graph.has_partner(set, edge, side as int) {
                    let e = choose|e: u64| #[trigger]
                        set.contains(e) && graph.meet(edge, e, side as int);
                    assert(set.contains(e) && graph.node(e, side as int) == mate as int);
                }
            }
            if !found {
                bitmap::clear(alive, edge);
                killed = true;
                assert(set.contains(edge) && !next.contains(edge));
            }
        } else {
            assert(!bitmap::bit(start, edge as int));
            assert(!set.contains(edge));
        }
        assert(killed <==> exists|e: u64|
            e < edge + 1 && #[trigger] set.contains(e) && !next.contains(e)) by {
            if before {
                let e = choose|e: u64|
                    e < edge && #[trigger] set.contains(e) && !next.contains(e);
                assert(e < edge + 1 && set.contains(e));
            }
        }
        edge = edge + 1;
    }
    assert(bitmap_set(alive@, count) =~= next) by {
        assert forall|e: u64| bitmap_set(alive@, count).contains(e) <==> next.contains(e) by {
            if e < count {
                assert(bitmap::bit(alive@, e as int) <==> next.contains(e));
            }
        }
    }
    proof {
        if killed {
            let e = choose|e: u64| e < edge && #[trigger] set.contains(e) && !next.contains(e);
            assert(set.contains(e) != next.contains(e));
        } else {
            assert forall|e: u64| set.contains(e) <==> next.contains(e) by {}
            assert(next =~= set);
        }
    }
    killed
}

/// The numbers that a bitmap holds, in ascending order.
fn list_edges(alive: &Vec<u64>, count: u64) -> (edges: Vec<u64>)
    requires
        count <= 64 * alive.len(),
    ensures
        lists(edges@, bitmap_set(alive@, count)),
{
    let ghost set = bitmap_set(alive@, count);
    let mut edges: Vec<u64> = Vec::new();
    let mut edge: u64 = 0;
    while edge < count
        invariant
            edge <= count <= 64 * alive.len(),
            set == bitmap_set(alive@, count),
            verify::is_strictly_ascending(edges@),
            forall|i: int| 0 <= i < edges.len() ==> #[trigger] edges@[i] < edge,
            forall|e: u64| #[trigger] edges@.contains(e) <==> set.contains(e) && e < edge,
        decreases count - edge,
    {
        if bitmap::get(alive, edge) {
            let ghost before = edges@;
            edges.push(edge);
            assert forall|e: u64| #[trigger] edges@.contains(e) <==> set.contains(e) && e < edge
                + 1 by {
                if edges@.contains(e) && e != edge {
                    let i = choose|i: int| 0 <= i < edges@.len() && edges@[i] == e;
                    assert(before[i] == e);
                    assert(before.contains(e));
                }
                if before.contains(e) {
                    let i = choose|i: int| 0 <= i < before.len() && before[i] == e;
                    assert(edges@[i] == e);
                }
                if e == edge {
                    assert(edges@[before.len() as int] == e);
                }
            }
        }
        edge = edge + 1;
    }
    edges
}

/// Trims a graph, unless the flag is found set before a round.
fn trim_edges(request: GraphParams, max_edge_bits: u8, cancel: Option<&AtomicBool>) -> (result:
    Result<Option<Vec<u64>>, SolveError>)
    requires
        request.edge_bits <= max_edge_bits ==> request.edge_bits < 64,
    ensures
        match result {
            Ok(Some(survivors)) => {
                &&& trim_error(request, max_edge_bits) is None
                &&& lists(
                    survivors@,
                    trimmed(
                        request.graph(),
                        all_edges(request.graph()),
                        0,
                        request.rounds as nat,
                    ),
                )
                &&& cancel matches Some(flag) ==> request.rounds > 0 ==> solver::is_reading(
                    flag,
                    false,
                )
            },
            Ok(None) => {
                &&& trim_error(request, max_edge_bits) is None
                &&& cancel matches Some(flag) && solver::is_reading(flag, true)
            },
            Err(error) => trim_error(request, max_edge_bits) == Some(error@),
        },
{
    if request.edge_bits > max_edge_bits {
        return Err(
            SolveError::Unsupported(
                text::around_decimal(
                    "CPU backend is capped at edge_bits=",
                    max_edge_bits as u64,
                    "; use --backend wgpu for C32",
                ),
            ),
        );
    }
    let count = bits::power_of_two(request.edge_bits);
    proof {
        bits::lemma_pow2_fits(request.edge_bits as nat);
    }
    let word_count: u64 = (count + 63) / 64;
    if word_count > usize::MAX as u64 {
        return Err(solver::unsupported("graph does not fit this CPU address space"));
    }
    let ghost graph = request.graph();
    let mut alive = bitmap::full(word_count as usize);
    let mut occupied = bitmap::full(word_count as usize);
    assert(bitmap_set(alive@, count) =~= all_edges(graph));
    let ghost goal = trimmed(graph, all_edges(graph), 0, request.rounds as nat);
    let mut round: u32 = 0;
    let mut stable = false;
    while round < request.rounds && !stable
        invariant
            request.edge_bits < 64,
            graph == request.graph(),
            count == graph.edge_count(),
            0 < count <= 64 * alive.len(),
            alive.len() == occupied.len(),
            trim_error(request, max_edge_bits) is None,
            round <= request.rounds,
            stable ==> round > 0,
            cancel matches Some(flag) ==> round > 0 ==> solver::is_reading(flag, false),
            stable ==> goal == bitmap_set(alive@, count),
            !stable ==> goal == trimmed(
                graph,
                bitmap_set(alive@, count),
                round as nat,
                request.rounds as nat,
            ),
        decreases request.rounds - round,
    {
        if solver::is_cancelled(cancel) {
            return Ok(None);
        }
        let side: u8 = (round % 2) as u8;
        mark_nodes(request, &alive, &mut occupied, count, side);
        let killed = sweep_edges(request, &mut alive, &occupied, count, side);
        if !killed {
            stable = true;
        }
        round = round + 1;
    }
    Ok(Some(list_edges(&alive, count)))
}

/// The edges that the rounds leave, in ascending order, unless the flag is
/// found set before a round.
pub fn trim_survivors_cancellable(
    request: GraphParams,
    max_edge_bits: u8,
    cancel: &AtomicBool,
) -> (result: Result<Option<Vec<u64>>, SolveError>)
    requires
        request.edge_bits <= max_edge_bits ==> request.edge_bits < 64,
    ensures
        match result {
            Ok(Some(survivors)) => {
                &&& trim_error(request, max_edge_bits) is None
                &&& lists(
                    survivors@,
                    trimmed(
                        request.graph(),
                        all_edges(request.graph()),
                        0,
                        request.rounds as nat,
                    ),
                )
                &&& request.rounds > 0 ==> solver::is_reading(cancel, false)
            },
            Ok(None) => trim_error(request, max_edge_bits) is None && solver::is_reading(
                cancel,
                true,
            ),
            Err(error) => trim_error(request, max_edge_bits) == Some(error@),
        },
{
    trim_edges(request, max_edge_bits, Some(cancel))
}

/// The edges that the rounds leave, in ascending order.
pub fn trim_survivors(request: GraphParams, max_edge_bits: u8) -> (result: Result<
    Vec<u64>,
    SolveError,
>)
    requires
        request.edge_bits <= max_edge_bits ==> request.edge_bits < 64,
    ensures
        match result {
            Ok(survivors) => {
                &&& trim_error(request, max_edge_bits) is None
                &&& lists(
                    survivors@,
                    trimmed(
                        request.graph(),
                        all_edges(request.graph()),
                        0,
                        request.rounds as nat,
                    ),
                )
            },
            Err(error) => trim_error(request, max_edge_bits) == Some(error@),
        },
{
    match trim_edges(request, max_edge_bits, None) {
        Ok(Some(survivors)) => Ok(survivors),
        Ok(None) => Err(
            solver::unsupported("non-cancellable trim was unexpectedly cancelled"),
        ),
        Err(error) => Err(error),
    }
}

/// Trimming only takes edges away.
pub proof fn lemma_trimming_shrinks(graph: Graph, alive: Set<u64>, round: nat, rounds: nat)
    ensures
        trimmed(graph, alive, round, rounds).subset_of(alive),
    decreases rounds - round,
{
    if round < rounds {
        let next = trimmed_once(graph, alive, round as int % 2);
        lemma_trimming_shrinks(graph, next, round + 1, rounds);
    }
}

/// Trimming never takes an edge out of a closed set.
pub proof fn lemma_trimming_keeps_closed_sets(
    graph: Graph,
    part: Set<u64>,
    alive: Set<u64>,
    round: nat,
    rounds: nat,
)
    requires
        graph.is_closed(part),
        part.subset_of(alive),
    ensures
        part.subset_of(trimmed(graph, alive, round, rounds)),
    decreases rounds - round,
{
    if round < rounds {
        let side = round as int % 2;
        let next = trimmed_once(graph, alive, side);
        assert forall|edge: u64| part.contains(edge) implies next.contains(edge) by {
            assert(graph.node(edge, side) == graph.node(edge, side));
            assert(graph.has_partner(part, edge, side));
            let other = choose|other: u64| #[trigger]
                part.contains(other) && graph.meet(edge, other, side);
            assert(alive.contains(other));
        }
        lemma_trimming_keeps_closed_sets(graph, part, next, round + 1, rounds);
    }
}

/// However many rounds are run, the edges of every cycle of the graph survive.
pub proof fn lemma_trimming_keeps_proofs(
    graph: Graph,
    cycle_length: usize,
    nonces: Seq<u64>,
    rounds: nat,
)
    requires
        verify::verdict(graph, cycle_length, nonces) is Ok,
    ensures
        nonces.to_set().subset_of(trimmed(graph, all_edges(graph), 0, rounds)),
{
    verify::lemma_accepted_proof_is_closed(graph, cycle_length, nonces);
    verify::lemma_accepted_shape(graph, cycle_length, nonces);
    assert forall|edge: u64| nonces.to_set().contains(edge) implies all_edges(graph).contains(
        edge,
    ) by {
        let i = choose|i: int| 0 <= i < nonces.len() && nonces[i] == edge;
        assert(nonces[i] < graph.edge_count());
    }
    lemma_trimming_keeps_closed_sets(graph, nonces.to_set(), all_edges(graph), 0, rounds);
}

/// A further round never brings an edge back.
pub proof fn lemma_more_rounds_trim_more(graph: Graph, alive: Set<u64>, round: nat, rounds: nat)
    ensures
        trimmed(graph, alive, round, rounds + 1).subset_of(trimmed(graph, alive, round, rounds)),
    decreases rounds - round,
{
    if round < rounds {
        let next = trimmed_once(graph, alive, round as int % 2);
        lemma_more_rounds_trim_more(graph, next, round + 1, rounds);
    } else if round == rounds {
        lemma_trimming_shrinks(graph, alive, round, rounds + 1);
    }
}

/// Trimming does not change the core.
pub proof fn lemma_trimming_keeps_core(graph: Graph, alive: Set<u64>, round: nat, rounds: nat)
    ensures
        graph.two_core(trimmed(graph, alive, round, rounds)) == graph.two_core(alive),
{
    crate::graph::lemma_core_is_largest_closed_set(graph, alive);
    lemma_trimming_shrinks(graph, alive, round, rounds);
    lemma_trimming_keeps_closed_sets(graph, graph.two_core(alive), alive, round, rounds);
    crate::graph::lemma_core_ignores_other_edges(
        graph,
        alive,
        trimmed(graph, alive, round, rounds),
    );
}

/// Edges that a round on neither side takes away are their own core: trimming
/// that has settled on both sides has reached the core of the graph.
pub proof fn lemma_settled_edges_are_core(graph: Graph, alive: Set<u64>, rounds: nat)
    requires
        trimmed_once(graph, trimmed(graph, alive, 0, rounds), 0) == trimmed(
            graph,
            alive,
            0,
            rounds,
        ),
        trimmed_once(graph, trimmed(graph, alive, 0, rounds), 1) == trimmed(
            graph,
            alive,
            0,
            rounds,
        ),
    ensures
        trimmed(graph, alive, 0, rounds) == graph.two_core(alive),
{
    lemma_settled_edges_are_closed(graph, trimmed(graph, alive, 0, rounds));
    crate::graph::lemma_core_of_closed_set(graph, trimmed(graph, alive, 0, rounds));
    lemma_trimming_keeps_core(graph, alive, 0, rounds);
}

proof fn lemma_settled_edges_are_closed(graph: Graph, left: Set<u64>)
    requires
        trimmed_once(graph, left, 0) == left,
        trimmed_once(graph, left, 1) == left,
    ensures
        graph.is_closed(left),
{
    assert forall|edge: u64, side: int|
        #![trigger graph.node(edge, side)]
        left.contains(edge) && 0 <= side < 2 implies graph.has_partner(left, edge, side) by {
        if side == 0 {
            assert(trimmed_once(graph, left, 0).contains(edge));
        } else {
            assert(trimmed_once(graph, left, 1).contains(edge));
        }
    }
}

/// A set has one listing.
pub proof fn lemma_listing_is_unique(a: Seq<u64>, b: Seq<u64>, set: Set<u64>)
    requires
        lists(a, set),
        lists(b, set),
    ensures
        a == b,
{
    assert(a.to_set() =~= b.to_set()) by {
        assert forall|e: u64| a.to_set().contains(e) <==> b.to_set().contains(e) by {
            assert(a.contains(e) <==> set.contains(e));
            assert(b.contains(e) <==> set.contains(e));
        }
    }
    search::lemma_same_set_sorts_alike(a, b);
    verify::lemma_sorted_values(a, a);
    verify::lemma_sorted_values(a, b);
}

/// The largest graph that the CPU takes by default.
pub const DEFAULT_MAX_EDGE_BITS: u8 = 28;

/// The CPU backend.
pub struct CpuLeanSolver {
    max_edge_bits: u8,
}

impl Default for CpuLeanSolver {
    fn default() -> (solver: CpuLeanSolver)
        ensures
            solver.limit() == DEFAULT_MAX_EDGE_BITS,
    {
        CpuLeanSolver { max_edge_bits: DEFAULT_MAX_EDGE_BITS }
    }
}

/// What a search means as an answer.
pub open spec fn search_answer(ending: Search) -> OutcomeView {
    match ending {
        Search::Found(nonces) => OutcomeView::Proof(nonces),
        Search::Nothing(_) => OutcomeView::NoCycle,
        Search::Limit => OutcomeView::Inconclusive(
            "more than 100000000 branches in generic cycle search"@,
        ),
    }
}

/// Turns the result of a search into an answer: a search that gave up is
/// inconclusive, any other failure stays one.
pub fn search_outcome(result: Result<Option<Proof>, SolveError>) -> (outcome: Result<
    SolveOutcome,
    SolveError,
>)
    ensures
        match result {
            Ok(Some(proof)) => outcome matches Ok(answer) && answer@ == OutcomeView::Proof(
                proof.nonces@,
            ),
            Ok(None) => outcome matches Ok(answer) && answer@ == OutcomeView::NoCycle,
            Err(error) => if error@.0 == ErrorKind::SearchLimit {
                outcome matches Ok(answer) && answer@ == OutcomeView::Inconclusive(error@.1)
            } else {
                outcome matches Err(kept) && kept == error
            },
        },
{
    match result {
        Ok(Some(proof)) => Ok(SolveOutcome::Proof(proof)),
        Ok(None) => Ok(SolveOutcome::NoCycle),
        Err(SolveError::SearchLimit(reason)) => Ok(SolveOutcome::Inconclusive(reason)),
        Err(error) => Err(error),
    }
}

/// Searches what a trim left, unless the work has been cancelled.
pub fn answer_survivors(params: GraphParams, survivors: &[u64], cancelled: bool) -> (result: Result<
    SolveOutcome,
    SolveError,
>)
    requires
        0 < survivors.len() && params.cycle_length <= survivors.len() ==> params.edge_bits < 64,
    ensures
        result matches Ok(outcome) && outcome@ == (if cancelled {
            OutcomeView::Cancelled
        } else {
            search_answer(params.space(survivors@).search())
        }),
{
    if cancelled {
        return Ok(SolveOutcome::Cancelled);
    }
    search_outcome(find_cycle(params, survivors))
}

impl CpuLeanSolver {
    /// The largest graph that this backend takes.
    pub closed spec fn limit(self) -> u8 {
        self.max_edge_bits
    }

    /// What this backend takes.
    pub open spec fn takes(self) -> BackendCapabilities {
        BackendCapabilities { min_edge_bits: 1, max_edge_bits: self.limit(), cycle_length: 42 }
    }

    /// A backend that takes graphs up to the given size.
    pub fn with_max_edge_bits(max_edge_bits: u8) -> (solver: CpuLeanSolver)
        ensures
            solver.limit() == max_edge_bits,
    {
        CpuLeanSolver { max_edge_bits }
    }
}

impl Solver for CpuLeanSolver {
    fn name(&self) -> (name: &'static str)
        ensures
            name@ == "cpu-lean"@,
    {
        "cpu-lean"
    }

    fn capabilities(&self) -> (capabilities: BackendCapabilities)
        ensures
            capabilities == self.takes(),
    {
        BackendCapabilities { min_edge_bits: 1, max_edge_bits: self.max_edge_bits, cycle_length: 42 }
    }

    /// Trims the requested graph and searches what is left.  The flag is read
    /// before each round and before the search, and may end the work there.
    fn solve(&mut self, request: SolveRequest, cancel: &AtomicBool) -> (result: Result<
        SolveOutcome,
        SolveError,
    >)
        ensures
            *final(self) == *old(self),
            match solver::request_error(request, old(self).takes()) {
                Some(refusal) => result matches Err(error) && error@ == refusal,
                None => match trim_error(request.params(), old(self).limit()) {
                    Some(refusal) => result matches Err(error) && error@ == refusal,
                    None => {
                        let graph = request.params().graph();
                        let left = trimmed(graph, all_edges(graph), 0, request.rounds as nat);
                        &&& result matches Ok(outcome)
                        &&& solver::is_reading(cancel, outcome@ == OutcomeView::Cancelled)
                        &&& outcome@ != OutcomeView::Cancelled ==> forall|survivors: Seq<u64>|
                            #[trigger] lists(survivors, left) ==> outcome@ == search_answer(
                                request.params().space(survivors).search(),
                            )
                    },
                },
            },
    {
        let capabilities = self.capabilities();
        match solver::validate_request(&request, capabilities) {
            Ok(()) => {},
            Err(error) => {
                return Err(error);
            },
        }
        let params = request.graph_params();
        let survivors = match trim_survivors_cancellable(params, self.max_edge_bits, cancel) {
            Ok(Some(survivors)) => survivors,
            Ok(None) => {
                return Ok(SolveOutcome::Cancelled);
            },
            Err(error) => {
                return Err(error);
            },
        };
        let cancelled = solver::is_cancelled(Some(cancel));
        let outcome = answer_survivors(params, survivors.as_slice(), cancelled);
        proof {
            let graph = params.graph();
            let left = trimmed(graph, all_edges(graph), 0, request.rounds as nat);
            assert forall|others: Seq<u64>| #[trigger] lists(others, left) implies others
                == survivors@ by {
                lemma_listing_is_unique(others, survivors@, left);
            }
        }
        outcome
    }
}

/// The answer for a graph can be relied on: a proof in it passes the check, and
/// where it says that there is no cycle, no proof of that length passes.
pub proof fn lemma_answers_are_right(params: GraphParams, survivors: Seq<u64>, nonces: Seq<u64>)
    requires
        lists(survivors, trimmed(params.graph(), all_edges(params.graph()), 0, params.rounds as nat)),
        survivors.len() <= usize::MAX,
        params.cycle_length > 0,
    ensures
        search_answer(params.space(survivors).search()) matches OutcomeView::Proof(found)
            ==> verify::verdict(params.graph(), params.cycle_length, found) is Ok,
        search_answer(params.space(survivors).search()) == OutcomeView::NoCycle
            ==> verify::verdict(params.graph(), params.cycle_length, nonces) is Err,
{
    let graph = params.graph();
    let space = params.space(survivors);
    search::lemma_search_is_sound(space);
    if space.search() is Nothing && verify::verdict(graph, params.cycle_length, nonces) is Ok {
        lemma_trimming_keeps_proofs(graph, params.cycle_length, nonces, params.rounds as nat);
        assert forall|k: int| 0 <= k < nonces.len() implies survivors.contains(
            #[trigger] nonces[k],
        ) by {
            assert(nonces.to_set().contains(nonces[k]));
        }
        search::lemma_search_is_complete(space, nonces);
    }
}

/// A round takes an edge away exactly where no living edge has the other node of
/// its pair: two nodes are a pair where they differ in the lowest bit alone.
pub proof fn lemma_rounds_keep_paired_edges(graph: Graph, alive: Set<u64>, side: int, edge: u64)
    ensures
        trimmed_once(graph, alive, side).contains(edge) <==> alive.contains(edge) && exists|
            other: u64,
        | #[trigger]
            alive.contains(other) && graph.node(other, side) / 2 == graph.node(edge, side) / 2
                && graph.node(other, side) != graph.node(edge, side),
{
    if trimmed_once(graph, alive, side).contains(edge) {
        let other = choose|other: u64| #[trigger]
            alive.contains(other) && graph.meet(edge, other, side);
        assert(alive.contains(other));
    }
    if alive.contains(edge) && exists|other: u64| #[trigger]
        alive.contains(other) && graph.node(other, side) / 2 == graph.node(edge, side) / 2
            && graph.node(other, side) != graph.node(edge, side) {
        let other = choose|other: u64| #[trigger]
            alive.contains(other) && graph.node(other, side) / 2 == graph.node(edge, side) / 2
                && graph.node(other, side) != graph.node(edge, side);
        assert(graph.meet(edge, other, side));
    }
}

/// Trimming runs its rounds on alternating sides, the even ones on side 0, until
/// they are all run or one takes nothing away.
pub proof fn lemma_trimming_alternates(graph: Graph, alive: Set<u64>, round: nat, rounds: nat)
    ensures
        round >= rounds ==> trimmed(graph, alive, round, rounds) == alive,
        round < rounds ==> {
            let side: int = if round % 2 == 0 {
                0
            } else {
                1
            };
            let next = trimmed_once(graph, alive, side);
            trimmed(graph, alive, round, rounds) == if next == alive {
                alive
            } else {
                trimmed(graph, next, round + 1, rounds)
            }
        },
{
}

/// All numbers below 2^edge_bits are edges.
pub proof fn lemma_all_edges_are_numbered(graph: Graph, edge: u64)
    ensures
        all_edges(graph).contains(edge) <==> edge < vstd::arithmetic::power2::pow2(
            graph.edge_bits as nat,
        ),
{
}

/// The answer for a graph is decided wherever its survivors can be searched to
/// the end, which is where they make no more than a hundred million branches:
/// a proof where the whole graph has a cycle of that length, and else that it
/// has none.
pub proof fn lemma_answers_are_decided(params: GraphParams, survivors: Seq<u64>)
    requires
        lists(survivors, trimmed(params.graph(), all_edges(params.graph()), 0, params.rounds as nat)),
        survivors.len() <= usize::MAX,
        params.cycle_length > 0,
        survivors.len() < params.cycle_length || params.space(survivors).branches().len()
            <= 100_000_000,
    ensures
        (exists|nonces: Seq<u64>|
            #[trigger] verify::verdict(params.graph(), params.cycle_length, nonces) is Ok) ==> (
        search_answer(params.space(survivors).search()) matches OutcomeView::Proof(found)
            && verify::verdict(params.graph(), params.cycle_length, found) is Ok),
        !(exists|nonces: Seq<u64>|
            #[trigger] verify::verdict(params.graph(), params.cycle_length, nonces) is Ok)
            ==> search_answer(params.space(survivors).search()) == OutcomeView::NoCycle,
{
    let space = params.space(survivors);
    if survivors.len() >= params.cycle_length {
        search::lemma_search_tries_every_branch(space);
    }
    lemma_answers_are_right(params, survivors, Seq::empty());
    if exists|nonces: Seq<u64>|
        #[trigger] verify::verdict(params.graph(), params.cycle_length, nonces) is Ok {
        let nonces = choose|nonces: Seq<u64>|
            #[trigger] verify::verdict(params.graph(), params.cycle_length, nonces) is Ok;
        lemma_answers_are_right(params, survivors, nonces);
    }
}

/// The answer for a graph is inconclusive only where more than a hundred million
/// branches were there to try.
pub proof fn lemma_inconclusive_answers_have_a_reason(params: GraphParams, survivors: Seq<u64>)
    requires
        survivors.len() <= usize::MAX,
        params.cycle_length > 0,
        search_answer(params.space(survivors).search()) is Inconclusive,
    ensures
        params.space(survivors).branches().len() > 100_000_000,
        survivors.len() >= params.cycle_length,
{
    if survivors.len() >= params.cycle_length {
        search::lemma_search_tries_every_branch(params.space(survivors));
    }
}

/// The CPU trims every graph up to its limit whose bitmap can be addressed, and
/// no other.
pub proof fn lemma_graphs_up_to_the_limit_are_trimmed(request: GraphParams, max_edge_bits: u8)
    ensures
        trim_error(request, max_edge_bits) is None <==> {
            &&& request.edge_bits <= max_edge_bits
            &&& (request.graph().edge_count() + 63) / 64 <= usize::MAX
        },
        trim_error(request, max_edge_bits) matches Some((kind, _)) ==> kind
            == ErrorKind::Unsupported,
{
}

} // verus!
