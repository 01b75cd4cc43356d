//! A whole trim on the portable backend: however the rounds are run, every one
//! of them is run once, and the edges that are left do not depend on how.

use crate::bits;
use crate::graph::Graph;
use crate::solver::cpu_lean;
use crate::solver::device::{self, Device, Machine};
use crate::solver::gpu_diagnostics::Diagnostics;
use crate::solver::gpu_fine::{self, FineRound, FineRun, FineStep, FineTransition};
use crate::solver::gpu_rounds::{self, RoundAction, RoundPlan};
use crate::solver::gpu_wgpu::{
    self, AdapterLimits, BucketLayout, GpuWgpuConfig, MemoryReadings, SleanSizing, TrimOptions,
    TrimSetup,
};
use crate::solver::{ErrorKind, GraphParams};
use vstd::prelude::*;

verus! {

/// A trim as it was prepared: the graph, the order of its rounds, and how the
/// buffers are cut.
pub struct PortableTrim {
    pub graph: Graph,
    pub plan: RoundPlan,
    pub sizing: SleanSizing,
    pub layout: BucketLayout,
    pub chunk_edges: u64,
    pub groups: u32,
}

/// One action of a trim: the device before it, after the nodes were marked and
/// after the edges were taken away, the overflow that was read then, and the
/// device after the round was finished.
pub struct Turn {
    pub start: Device,
    pub marked: Device,
    pub trimmed: Device,
    pub overflow: u32,
    pub end: Device,
}

impl PortableTrim {
    /// The trim that was prepared for a request.
    pub open spec fn of(
        request: GraphParams,
        layout: BucketLayout,
        setup: TrimSetup,
        live_work: bool,
    ) -> PortableTrim {
        PortableTrim {
            graph: request.graph(),
            plan: RoundPlan::of(setup.modes, setup.diagnostics, live_work),
            sizing: setup.sizing,
            layout,
            chunk_edges: setup.chunk_edges,
            groups: setup.groups,
        }
    }

    /// The chunks of a bucketed round.
    pub open spec fn chunks(self) -> u64 {
        bits::ceil_div(self.graph.edge_count() as int, self.chunk_edges as int) as u64
    }

    /// Whether the buffers are meant for the graph.
    pub open spec fn valid(self) -> bool {
        &&& self.graph.edge_bits <= 32
        &&& self.plan.modes.slean ==> device::cuts(self.sizing, self.graph)
        &&& self.plan.modes.bucketed_mark && !self.plan.modes.slean ==> device::cuts_chunks(
            self.graph,
            self.chunk_edges,
            self.layout,
            self.chunks(),
        )
        &&& self.plan.modes.fine ==> self.plan.fine_end_round == self.plan.rounds
    }

    /// Whether an action may take this turn.  The overflow is that of all arenas
    /// together: it is zero where everything found room.
    pub open spec fn takes(self, action: RoundAction, turn: Turn) -> bool {
        let parts = Machine::in_parts(self.graph, self.sizing);
        let chunks = Machine::in_chunks(self.graph, self.chunk_edges, self.layout);
        match action {
            RoundAction::Dense(round) => {
                &&& parts.runs(
                    gpu_rounds::slean_mark(round, self.sizing),
                    turn.start,
                    turn.marked,
                )
                &&& parts.runs(
                    gpu_rounds::slean_trim(round, self.sizing),
                    turn.marked,
                    turn.trimmed,
                )
                &&& turn.overflow == 0 <==> turn.trimmed.fitted()
                &&& parts.runs(
                    gpu_rounds::slean_finish(round, self.groups, turn.overflow),
                    turn.trimmed,
                    turn.end,
                )
            },
            RoundAction::Bucketed(round) => {
                &&& chunks.runs(
                    gpu_rounds::bucket_mark(round, self.layout.header_words, self.chunks()),
                    turn.start,
                    turn.marked,
                )
                &&& chunks.runs(
                    gpu_rounds::bucket_trim(round, self.chunks()),
                    turn.marked,
                    turn.trimmed,
                )
                &&& turn.overflow == 0 <==> turn.trimmed.fitted()
                &&& chunks.runs(
                    gpu_rounds::bucket_finish(round, self.groups, turn.overflow),
                    turn.trimmed,
                    turn.end,
                )
            },
            RoundAction::Lean(first, end) => {
                &&& turn.overflow == 0
                &&& parts.runs(
                    gpu_rounds::lean_rounds(first, end, self.groups),
                    turn.start,
                    turn.end,
                )
            },
            RoundAction::Finish(_) => false,
        }
    }

    /// The rounds that are complete after so many turns.
    pub open spec fn reached(self, round: u32, turns: nat) -> u32
        decreases turns,
    {
        if turns == 0 {
            round
        } else {
            self.reached(
                self.plan.done_after(self.plan.action(round)) as u32,
                (turns - 1) as nat,
            )
        }
    }

    /// Whether turns lead from one state of the device to another, from a round
    /// on to the last one, or to the one after which compact arenas take over.
    pub open spec fn follows(self, turns: Seq<Turn>, round: u32, a: Device, b: Device) -> bool
        decreases turns.len(),
    {
        if turns.len() == 0 {
            a == b && (round >= self.plan.rounds || self.plan.goes_fine(round))
        } else {
            &&& round < self.plan.rounds
            &&& !self.plan.goes_fine(round)
            &&& turns.first().start == a
            &&& self.takes(self.plan.action(round), turns.first())
            &&& self.follows(
                turns.drop_first(),
                self.plan.done_after(self.plan.action(round)) as u32,
                turns.first().end,
                b,
            )
        }
    }

    /// Whether every edge found room in bucketed rounds.  Rounds in parts need
    /// not fit: they keep the edges to run the round again.
    pub open spec fn buckets_fitted(self, turns: Seq<Turn>) -> bool {
        self.plan.modes.slean || forall|i: int|
            0 <= i < turns.len() ==> (#[trigger] turns[i]).overflow == 0
    }
}

/// How a round in a compact arena went.
pub enum FineEvent {
    /// The fixed buckets did not do; the arena is as it was.
    FellBack,
    /// The round left so many edges.
    Trimmed(u32),
}

/// Whether a trim in compact arenas, from a state on to its last round, leads
/// from one set of listed edges to another.  A round in an arena that is not
/// given up leaves of the listed edges what a round of trimming leaves.
pub open spec fn fine_follows(
    graph: Graph,
    run: FineRun,
    events: Seq<FineEvent>,
    a: Set<u64>,
    b: Set<u64>,
) -> bool
    decreases events.len(),
{
    if events.len() == 0 {
        a == b && run.step(false) is Finish
    } else {
        match (run.step(false), events.first()) {
            (FineStep::Trim(FineRound::Fixed, _), FineEvent::FellBack) => fine_follows(
                graph,
                FineRun { fell_back: true, ..run },
                events.drop_first(),
                a,
                b,
            ),
            (FineStep::Trim(_, side), FineEvent::Trimmed(survivors)) => fine_follows(
                graph,
                FineRun { round: (run.round + 1) as u32, survivors, fell_back: false, ..run },
                events.drop_first(),
                cpu_lean::trimmed_once(graph, a, side as int),
                b,
            ),
            _ => false,
        }
    }
}

/// A trim in compact arenas runs every round once, however often the fixed
/// buckets do not do.
pub proof fn lemma_fine_run_runs_every_round(
    graph: Graph,
    run: FineRun,
    events: Seq<FineEvent>,
    a: Set<u64>,
    b: Set<u64>,
)
    requires
        run.valid(),
        fine_follows(graph, run, events, a, b),
    ensures
        b == device::every_round(graph, a, run.round as nat, run.transition.end_round as nat),
    decreases events.len(),
{
    if events.len() > 0 {
        match events.first() {
            FineEvent::FellBack => {
                lemma_fine_run_runs_every_round(
                    graph,
                    FineRun { fell_back: true, ..run },
                    events.drop_first(),
                    a,
                    b,
                );
            },
            FineEvent::Trimmed(survivors) => {
                lemma_fine_run_runs_every_round(
                    graph,
                    FineRun {
                        round: (run.round + 1) as u32,
                        survivors,
                        fell_back: false,
                        ..run
                    },
                    events.drop_first(),
                    cpu_lean::trimmed_once(graph, a, run.round as int % 2),
                    b,
                );
            },
        }
    }
}

proof fn rounds_stay_in_graph(graph: Graph, alive: Set<u64>, round: nat, rounds: nat)
    ensures
        device::every_round(graph, alive, round, rounds).subset_of(alive),
    decreases rounds - round,
{
    if round < rounds {
        rounds_stay_in_graph(
            graph,
            cpu_lean::trimmed_once(graph, alive, round as int % 2),
            round + 1,
            rounds,
        );
    }
}

/// One action of a trim runs its rounds.
proof fn turn_trims(trim: PortableTrim, round: u32, turn: Turn)
    requires
        trim.valid(),
        round < trim.plan.rounds,
        turn.start.formed(),
        turn.start.edges == device::every_round(
            trim.graph,
            cpu_lean::all_edges(trim.graph),
            0,
            round as nat,
        ),
        trim.takes(trim.plan.action(round), turn),
        trim.plan.modes.slean || turn.overflow == 0,
    ensures
        turn.end.formed(),
        turn.end.edges == device::every_round(
            trim.graph,
            turn.start.edges,
            round as nat,
            trim.plan.done_after(trim.plan.action(round)) as nat,
        ),
{
    let all = cpu_lean::all_edges(trim.graph);
    let parts = Machine::in_parts(trim.graph, trim.sizing);
    let chunks = Machine::in_chunks(trim.graph, trim.chunk_edges, trim.layout);
    rounds_stay_in_graph(trim.graph, all, 0, round as nat);
    reveal_with_fuel(device::every_round, 2);
    match trim.plan.action(round) {
        RoundAction::Dense(_) => {
            device::lemma_round_in_parts_trims(
                trim.graph,
                trim.sizing,
                round,
                trim.groups,
                turn.overflow,
                turn.start,
                turn.marked,
                turn.trimmed,
                turn.end,
            );
            device::lemma_buffers_stay_formed(
                parts,
                gpu_rounds::slean_mark(round, trim.sizing),
                turn.start,
                turn.marked,
            );
            device::lemma_buffers_stay_formed(
                parts,
                gpu_rounds::slean_trim(round, trim.sizing),
                turn.marked,
                turn.trimmed,
            );
            device::lemma_buffers_stay_formed(
                parts,
                gpu_rounds::slean_finish(round, trim.groups, turn.overflow),
                turn.trimmed,
                turn.end,
            );
        },
        RoundAction::Bucketed(_) => {
            device::lemma_bucketed_round_trims(
                trim.graph,
                trim.chunk_edges,
                trim.layout,
                trim.chunks(),
                round,
                turn.start,
                turn.marked,
                turn.trimmed,
            );
            device::empty_run(chunks, turn.trimmed, turn.end);
            device::lemma_buffers_stay_formed(
                chunks,
                gpu_rounds::bucket_mark(round, trim.layout.header_words, trim.chunks()),
                turn.start,
                turn.marked,
            );
            device::lemma_buffers_stay_formed(
                chunks,
                gpu_rounds::bucket_trim(round, trim.chunks()),
                turn.marked,
                turn.trimmed,
            );
        },
        RoundAction::Lean(first, end) => {
            device::lemma_lean_rounds_trim(parts, first, end, trim.groups, turn.start, turn.end);
            device::lemma_buffers_stay_formed(
                parts,
                gpu_rounds::lean_rounds(first, end, trim.groups),
                turn.start,
                turn.end,
            );
        },
        RoundAction::Finish(_) => {},
    }
}

/// The rounds before compact arenas take over, or all of them, are run once.
pub proof fn lemma_turns_run_every_round(
    trim: PortableTrim,
    turns: Seq<Turn>,
    round: u32,
    a: Device,
    b: Device,
)
    requires
        trim.valid(),
        round <= trim.plan.rounds,
        a.formed(),
        a.edges == device::every_round(
            trim.graph,
            cpu_lean::all_edges(trim.graph),
            0,
            round as nat,
        ),
        trim.follows(turns, round, a, b),
        trim.buckets_fitted(turns),
    ensures
        ({
            let end = trim.reached(round, turns.len());
            &&& round <= end <= trim.plan.rounds
            &&& end == trim.plan.rounds || trim.plan.goes_fine(end)
            &&& b.edges == device::every_round(
                trim.graph,
                cpu_lean::all_edges(trim.graph),
                0,
                end as nat,
            )
        }),
    decreases turns.len(),
{
    if turns.len() > 0 {
        let turn = turns.first();
        let next = trim.plan.done_after(trim.plan.action(round)) as u32;
        gpu_rounds::lemma_rounds_advance(trim.plan, round);
        assert(turn == turns[0]);
        turn_trims(trim, round, turn);
        device::lemma_rounds_compose(
            trim.graph,
            cpu_lean::all_edges(trim.graph),
            0,
            round as nat,
            next as nat,
        );
        assert(trim.buckets_fitted(turns.drop_first())) by {
            assert forall|i: int|
                !trim.plan.modes.slean && 0 <= i < turns.drop_first().len() implies (
            #[trigger] turns.drop_first()[i]).overflow == 0 by {
                assert(turns[i + 1].overflow == 0);
            }
        }
        lemma_turns_run_every_round(trim, turns.drop_first(), next, turn.end, b);
    }
}

/// A trim from its first round to the survivors that are read.  `seeded`,
/// `events` and `left` are for compact arenas.
pub struct Trace {
    pub start: Device,
    pub turns: Seq<Turn>,
    pub end: Device,
    pub seeded: Set<u64>,
    pub count: u32,
    pub events: Seq<FineEvent>,
    pub left: Set<u64>,
    pub survivors: Seq<u64>,
}

impl PortableTrim {
    /// The rounds that are complete when the bitmap is read, or when compact
    /// arenas take over.
    pub open spec fn direct_end(self, trace: Trace) -> u32 {
        self.reached(0, trace.turns.len())
    }

    /// The state in which compact arenas take over.  The seed lists the living
    /// edges, or in two halves those that its own round leaves.
    pub open spec fn fine_start(self, trace: Trace) -> FineRun {
        let transition = FineTransition::of(self.plan, self.direct_end(trace));
        FineRun {
            transition,
            round: transition.loop_start,
            survivors: trace.count,
            fell_back: false,
        }
    }

    /// Whether a trim that is not overtaken may go like this.  It starts with
    /// all edges alive.  The survivors are the edges in the bitmap, or those in
    /// the last arena, which lists each of them once.
    pub open spec fn goes(self, trace: Trace) -> bool {
        &&& trace.start.formed()
        &&& trace.start.edges == cpu_lean::all_edges(self.graph)
        &&& self.follows(trace.turns, 0, trace.start, trace.end)
        &&& if self.plan.goes_fine(self.direct_end(trace)) {
            let run = self.fine_start(trace);
            &&& trace.seeded == device::every_round(
                self.graph,
                trace.end.edges,
                self.direct_end(trace) as nat,
                run.round as nat,
            )
            &&& fine_follows(self.graph, run, trace.events, trace.seeded, trace.left)
            &&& trace.survivors.no_duplicates()
            &&& trace.survivors.to_set() == trace.left
        } else {
            cpu_lean::lists(trace.survivors, trace.end.edges)
        }
    }
}

/// A whole trim leaves the edges that running every round leaves, each of them
/// once: whether its first rounds are direct, bucketed or in parts, also where
/// a round in parts did not find room and was run again, and whether or not
/// compact arenas take over.
pub proof fn lemma_portable_trim_runs_every_round(trim: PortableTrim, trace: Trace)
    requires
        trim.valid(),
        !trim.plan.fine_csr,
        trim.goes(trace),
        trim.buckets_fitted(trace.turns),
    ensures
        trace.survivors.no_duplicates(),
        trace.survivors.to_set() == device::every_round(
            trim.graph,
            cpu_lean::all_edges(trim.graph),
            0,
            trim.plan.rounds as nat,
        ),
{
    let graph = trim.graph;
    let all = cpu_lean::all_edges(graph);
    let end = trim.direct_end(trace);
    lemma_turns_run_every_round(trim, trace.turns, 0, trace.start, trace.end);
    if trim.plan.goes_fine(end) {
        let run = trim.fine_start(trace);
        lemma_fine_run_runs_every_round(graph, run, trace.events, trace.seeded, trace.left);
        gpu_fine::lemma_fine_rounds_are_complete(trim.plan, end, graph, trace.end.edges);
        device::lemma_rounds_compose(
            graph,
            all,
            0,
            end as nat,
            run.transition.end_round as nat,
        );
    } else {
        assert(trace.survivors.to_set() =~= trace.end.edges) by {
            assert forall|edge: u64|
                trace.survivors.to_set().contains(edge) <==> trace.end.edges.contains(edge) by {
                assert(trace.survivors.contains(edge) <==> trace.end.edges.contains(edge));
            }
        }
    }
}

/// The way of marking makes no difference: two trims of the same graph with the
/// same rounds leave the same edges, and neither lists one twice.
pub proof fn lemma_marking_modes_agree(
    first: PortableTrim,
    second: PortableTrim,
    one: Trace,
    other: Trace,
)
    requires
        first.valid(),
        second.valid(),
        first.graph == second.graph,
        first.plan.rounds == second.plan.rounds,
        !first.plan.fine_csr,
        !second.plan.fine_csr,
        first.goes(one),
        second.goes(other),
        first.buckets_fitted(one.turns),
        second.buckets_fitted(other.turns),
    ensures
        one.survivors.to_set() == other.survivors.to_set(),
        one.survivors.no_duplicates(),
        other.survivors.no_duplicates(),
{
    lemma_portable_trim_runs_every_round(first, one);
    lemma_portable_trim_runs_every_round(second, other);
}

/// The buffers of a trim that was prepared are meant for its graph, and where
/// compact arenas take over they run to the last round.
pub proof fn lemma_prepared_trim_is_valid(
    config: GpuWgpuConfig,
    limits: AdapterLimits,
    layout: BucketLayout,
    diagnostics: Diagnostics,
    request: GraphParams,
    options: TrimOptions,
    memory: MemoryReadings,
    overflowing: bool,
    setup: TrimSetup,
    live_work: bool,
)
    requires
        config.refusal() is None,
        limits.max_workgroup_storage > 0,
        layout.separates(),
        gpu_wgpu::setup_result(
            config,
            limits,
            layout,
            diagnostics,
            request,
            options,
            memory,
            overflowing,
        ) == Ok::<TrimSetup, (ErrorKind, Seq<char>)>(setup),
    ensures
        PortableTrim::of(request, layout, setup, live_work).valid(),
        PortableTrim::of(request, layout, setup, live_work).plan.rounds == diagnostics.rounds,
{
    gpu_wgpu::lemma_graph_size(request.edge_bits);
    let total = request.graph().edge_count() as int;
    bits::lemma_ceil_div(total, setup.chunk_edges as int);
    let chunks = bits::ceil_div(total, setup.chunk_edges as int);
    assert(0 <= chunks <= total) by (nonlinear_arith)
        requires
            chunks == (total + setup.chunk_edges - 1) / (setup.chunk_edges as int),
            setup.chunk_edges >= 1,
            total >= 1,
    ;
    if setup.modes.slean {
        device::lemma_prepared_parts_cut_graph(
            config,
            limits,
            layout,
            diagnostics,
            request,
            options,
            memory,
            overflowing,
            setup,
        );
    }
}

} // verus!
