//! The answer for a graph that a GPU has trimmed.

use crate::graph::{self, Graph};
use crate::solver::cpu_lean::{self, search_outcome};
use crate::solver::d2::{self, find_cycle_d2};
use crate::solver::device;
use crate::solver::gpu_rounds::EARLY_VERDICT_ROUND;
use crate::solver::peel::{self, peel_two_core};
use crate::solver::search::{self, Search};
use crate::solver::{self, ErrorKind, GraphParams, OutcomeView, SolveError, SolveOutcome};
use crate::verify;
use std::sync::atomic::AtomicBool;
use vstd::prelude::*;

verus! {

/// How a trim ended.
#[derive(Debug)]
pub enum TrimOutcome {
    Survivors(Vec<u64>),
    Cancelled,
    Diagnostic(&'static str),
}

/// What the exact search of peeled edges means as an answer.
pub open spec fn d2_answer(request: GraphParams, edges: Seq<u64>) -> Result<
    OutcomeView,
    (ErrorKind, Seq<char>),
> {
    let space = request.space(edges);
    if edges.len() < request.cycle_length {
        Ok(OutcomeView::NoCycle)
    } else if request.cycle_length != 42 {
        Ok(cpu_lean::search_answer(space.search()))
    } else if edges.len() > u32::MAX {
        Err((ErrorKind::Unsupported, "D2 survivor index exceeds u32"@))
    } else if space.all_arcs(edges.len()).len() > d2::ARC_CAP {
        Ok(OutcomeView::Inconclusive("D2 adjacency exceeded 16777216 arcs"@))
    } else {
        Ok(
            match space.ring_search_from(0, 0) {
                Search::Found(nonces) => OutcomeView::Proof(nonces),
                Search::Nothing(_) => OutcomeView::NoCycle,
                Search::Limit => OutcomeView::Inconclusive(
                    "more than 100000000 branches in D2 search"@,
                ),
            },
        )
    }
}

/// What the edges that a trim left mean as an answer: they are peeled to their
/// core, and the core is searched.
pub open spec fn survivors_answer(request: GraphParams, survivors: Seq<u64>) -> Result<
    OutcomeView,
    (ErrorKind, Seq<char>),
> {
    if survivors.len() > u32::MAX {
        Err((ErrorKind::Unsupported, "2-core survivor index exceeds u32"@))
    } else {
        d2_answer(request, peel::core_of(request.graph(), survivors))
    }
}

/// Whether a result says what an answer says.
pub open spec fn says(
    result: Result<SolveOutcome, SolveError>,
    answer: Result<OutcomeView, (ErrorKind, Seq<char>)>,
) -> bool {
    match answer {
        Ok(outcome) => result matches Ok(given) && given@ == outcome,
        Err(refusal) => result matches Err(error) && error@ == refusal,
    }
}

/// Whether the work was ended before there was an answer.
pub open spec fn was_cancelled(result: Result<SolveOutcome, SolveError>) -> bool {
    result matches Ok(given) && given@ == OutcomeView::Cancelled
}

/// Whether the edges that a trim left were searched, or not where the flag was
/// found set before.
pub open spec fn finished(
    result: Result<SolveOutcome, SolveError>,
    request: GraphParams,
    survivors: Seq<u64>,
    cancel: &AtomicBool,
) -> bool {
    let answered = says(result, survivors_answer(request, survivors));
    if survivors.len() > u32::MAX {
        answered
    } else {
        ||| solver::is_reading(cancel, false) && answered
        ||| solver::is_reading(cancel, true) && was_cancelled(result)
    }
}

/// Searches a core, unless the work has been cancelled.
pub fn answer_core(request: GraphParams, core: &[u64], cancelled: bool) -> (result: Result<
    SolveOutcome,
    SolveError,
>)
    requires
        0 < core.len() && request.cycle_length <= core.len() ==> request.edge_bits < 64,
    ensures
        if cancelled {
            was_cancelled(result)
        } else {
            says(result, d2_answer(request, core@))
        },
{
    if cancelled {
        return Ok(SolveOutcome::Cancelled);
    }
    search_outcome(find_cycle_d2(request, core))
}

/// Peels the edges that a trim left and searches their core.  The flag is read
/// once, between the two, and may end the work there.
pub fn finish_search(request: GraphParams, survivors: &[u64], cancel: &AtomicBool) -> (result:
    Result<SolveOutcome, SolveError>)
    requires
        survivors.len() > 0 ==> request.edge_bits < 64,
    ensures
        finished(result, request, survivors@, cancel),
{
    let peeled = match peel_two_core(request, survivors) {
        Ok(peeled) => peeled,
        Err(error) => {
            return Err(error);
        },
    };
    proof {
        peel::lemma_peeling_shrinks(request.graph(), survivors@);
    }
    let cancelled = solver::is_cancelled(Some(cancel));
    answer_core(request, peeled.as_slice(), cancelled)
}

/// The answer that a trim leads to.
pub fn verdict_of(request: GraphParams, outcome: TrimOutcome, cancel: &AtomicBool) -> (result:
    Result<SolveOutcome, SolveError>)
    requires
        outcome matches TrimOutcome::Survivors(survivors) ==> survivors.len() > 0
            ==> request.edge_bits < 64,
    ensures
        match outcome {
            TrimOutcome::Survivors(survivors) => finished(result, request, survivors@, cancel),
            TrimOutcome::Cancelled => was_cancelled(result),
            TrimOutcome::Diagnostic(message) => result matches Ok(given) && given@
                == OutcomeView::Inconclusive(message@),
        },
{
    match outcome {
        TrimOutcome::Survivors(survivors) => finish_search(request, survivors.as_slice(), cancel),
        TrimOutcome::Cancelled => Ok(SolveOutcome::Cancelled),
        TrimOutcome::Diagnostic(message) => Ok(
            SolveOutcome::Inconclusive(String::from_str(message)),
        ),
    }
}

/// The rounds that are tried first.
pub open spec fn early_rounds(rounds: u32) -> u32 {
    if rounds <= EARLY_VERDICT_ROUND {
        rounds
    } else {
        EARLY_VERDICT_ROUND
    }
}

/// The rounds that are tried first.
pub fn first_rounds(rounds: u32) -> (early: u32)
    ensures
        early == early_rounds(rounds),
{
    if rounds <= EARLY_VERDICT_ROUND {
        rounds
    } else {
        EARLY_VERDICT_ROUND
    }
}

/// Whether an early verdict is tried again with all rounds: only one that
/// decided nothing, where no diagnostic asked for just that, and where there
/// are more rounds to run.
pub open spec fn tries_again(verdict: OutcomeView, result_only: bool, rounds: u32) -> bool {
    verdict is Inconclusive && !result_only && rounds > early_rounds(rounds)
}

/// Whether an early verdict is tried again with all rounds.
pub fn needs_all_rounds(verdict: &SolveOutcome, result_only: bool, rounds: u32) -> (result: bool)
    ensures
        result == tries_again(verdict@, result_only, rounds),
{
    let inconclusive = match verdict {
        SolveOutcome::Inconclusive(_) => true,
        _ => false,
    };
    inconclusive && !result_only && rounds > EARLY_VERDICT_ROUND
}

proof fn peeled_edges_are_core(graph: Graph, rounds: nat, survivors: Seq<u64>)
    requires
        survivors.to_set() == device::every_round(graph, cpu_lean::all_edges(graph), 0, rounds),
    ensures
        peel::core_of(graph, survivors).to_set() == graph.two_core(cpu_lean::all_edges(graph)),
{
    peel::lemma_peeling_leaves_core(graph, survivors);
    device::lemma_every_round_keeps_core(graph, cpu_lean::all_edges(graph), 0, rounds);
}

proof fn proofs_lie_in_core(graph: Graph, cycle_length: usize, nonces: Seq<u64>)
    requires
        verify::verdict(graph, cycle_length, nonces) is Ok,
    ensures
        nonces.to_set().subset_of(graph.two_core(cpu_lean::all_edges(graph))),
{
    let all = cpu_lean::all_edges(graph);
    verify::lemma_accepted_proof_is_closed(graph, cycle_length, nonces);
    cpu_lean::lemma_trimming_keeps_proofs(graph, cycle_length, nonces, 0);
    graph::lemma_core_is_largest_closed_set(graph, all);
}

proof fn d2_answers_are_right(request: GraphParams, edges: Seq<u64>, nonces: Seq<u64>)
    requires
        request.cycle_length > 0,
        edges.len() <= u32::MAX,
    ensures
        d2_answer(request, edges) matches Ok(OutcomeView::Proof(found)) ==> search::is_answer(
            request.space(edges),
            found,
        ),
        d2_answer(request, edges) matches Ok(OutcomeView::NoCycle) ==> !search::is_answer(
            request.space(edges),
            nonces,
        ),
{
    let space = request.space(edges);
    if edges.len() < request.cycle_length || request.cycle_length != 42 {
        search::lemma_search_is_sound(space);
        if space.search() is Nothing || edges.len() < request.cycle_length {
            search::lemma_search_is_complete(space, nonces);
        }
    } else {
        d2::lemma_ring_search_is_sound(space, 0, 0);
        if space.ring_search_from(0, 0) is Nothing {
            d2::lemma_ring_search_is_complete(space, nonces);
        }
    }
}

/// The answer for a trimmed graph can be relied on: a proof in it passes the
/// check, and where it says that there is no cycle, no proof of that length
/// passes.  It takes any number of rounds, and the edges in any order.
pub proof fn lemma_verdicts_are_right(
    request: GraphParams,
    rounds: nat,
    survivors: Seq<u64>,
    nonces: Seq<u64>,
)
    requires
        survivors.to_set() == device::every_round(
            request.graph(),
            cpu_lean::all_edges(request.graph()),
            0,
            rounds,
        ),
        request.cycle_length > 0,
    ensures
        survivors_answer(request, survivors) matches Ok(OutcomeView::Proof(found))
            ==> verify::verdict(request.graph(), request.cycle_length, found) is Ok,
        survivors_answer(request, survivors) == Ok::<OutcomeView, (ErrorKind, Seq<char>)>(
            OutcomeView::NoCycle,
        ) ==> verify::verdict(request.graph(), request.cycle_length, nonces) is Err,
{
    let graph = request.graph();
    let peeled = peel::core_of(graph, survivors);
    if survivors.len() <= u32::MAX {
        peel::lemma_peeling_shrinks(graph, survivors);
        d2_answers_are_right(request, peeled, nonces);
    }
    if verify::verdict(graph, request.cycle_length, nonces) is Ok {
        peeled_edges_are_core(graph, rounds, survivors);
        proofs_lie_in_core(graph, request.cycle_length, nonces);
        assert forall|k: int| 0 <= k < nonces.len() implies peeled.contains(
            #[trigger] nonces[k],
        ) by {
            assert(nonces.to_set().contains(nonces[k]));
            assert(peeled.to_set().contains(nonces[k]));
        }
        assert(search::is_answer(request.space(peeled), nonces));
    }
}

/// The answer for a trimmed graph is decided wherever its core can be searched
/// to the end: a proof where the whole graph has a cycle of that length, and else
/// that it has none.
pub proof fn lemma_verdicts_are_decided(request: GraphParams, rounds: nat, survivors: Seq<u64>)
    requires
        survivors.to_set() == device::every_round(
            request.graph(),
            cpu_lean::all_edges(request.graph()),
            0,
            rounds,
        ),
        request.cycle_length > 0,
        survivors.len() <= 0xffff_ffff,
        ({
            let core = peel::core_of(request.graph(), survivors);
            let space = request.space(core);
            core.len() >= request.cycle_length ==> if request.cycle_length == 42 {
                space.double_steps().len() <= 16_777_216 && space.ring_branches().len()
                    <= 100_000_000
            } else {
                space.branches().len() <= 100_000_000
            }
        }),
    ensures
        (exists|nonces: Seq<u64>|
            #[trigger] verify::verdict(request.graph(), request.cycle_length, nonces) is Ok) ==> (
        survivors_answer(request, survivors) matches Ok(OutcomeView::Proof(found))
            && verify::verdict(request.graph(), request.cycle_length, found) is Ok),
        !(exists|nonces: Seq<u64>|
            #[trigger] verify::verdict(request.graph(), request.cycle_length, nonces) is Ok)
            ==> survivors_answer(request, survivors) == Ok::<OutcomeView, (ErrorKind, Seq<char>)>(
            OutcomeView::NoCycle,
        ),
{
    let graph = request.graph();
    let core = peel::core_of(graph, survivors);
    let space = request.space(core);
    peel::lemma_peeling_shrinks(graph, survivors);
    if core.len() >= request.cycle_length {
        if request.cycle_length == 42 {
            d2::lemma_ring_search_tries_every_branch(space);
            d2::lemma_arcs_are_all_double_steps(space);
        } else {
            search::lemma_search_tries_every_branch(space);
        }
    }
    lemma_verdicts_are_right(request, rounds, survivors, Seq::empty());
    if exists|nonces: Seq<u64>|
        #[trigger] verify::verdict(graph, request.cycle_length, nonces) is Ok {
        let nonces = choose|nonces: Seq<u64>|
            #[trigger] verify::verdict(graph, request.cycle_length, nonces) is Ok;
        lemma_verdicts_are_right(request, rounds, survivors, nonces);
    }
}

/// The first verdict comes after 128 rounds, or after all of them where there are
/// fewer.  It is tried again after the rest exactly where it was open, rounds are
/// left, and no diagnostic asked for just that result.
pub proof fn lemma_verdicts_are_tried_twice_at_most(
    verdict: OutcomeView,
    result_only: bool,
    rounds: u32,
)
    ensures
        early_rounds(rounds) <= rounds,
        rounds <= 128 ==> early_rounds(rounds) == rounds,
        rounds > 128 ==> early_rounds(rounds) == 128,
        tries_again(verdict, result_only, rounds) <==> {
            &&& verdict is Inconclusive
            &&& !result_only
            &&& rounds > 128
        },
{
}

} // verus!
