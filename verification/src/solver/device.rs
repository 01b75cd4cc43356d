//! A model of the device: what the entry points of the shaders do to the
//! buffers, and that the commands of a round trim the graph.
//!
//! A buffer of edges or nodes is a set here.  The arenas that list edges have
//! room for a fixed number of them; where an arena was too small, its overflow
//! word is set and nothing is said of what the arena holds.

use crate::bits;
use crate::graph::Graph;
use crate::solver::cpu_lean;
use crate::solver::gpu_diagnostics::Diagnostics;
use crate::solver::gpu_rounds::{self, Binding, Buffer, Command, Kernel, RoundPlan};
use crate::solver::gpu_wgpu::{
    self, AdapterLimits, BucketLayout, EdgeRange, GpuWgpuConfig, GraphSize, MemoryReadings,
    SleanSizing, TrimOptions, TrimSetup, BUCKETED_MARK_BUCKETS,
};
use crate::solver::{ErrorKind, GraphParams};
use vstd::prelude::*;

verus! {

/// The edges left by the rounds from `round` on, where no round is left out.
pub open spec fn every_round(graph: Graph, alive: Set<u64>, round: nat, rounds: nat) -> Set<u64>
    decreases rounds - round,
{
    if round >= rounds {
        alive
    } else {
        every_round(
            graph,
            cpu_lean::trimmed_once(graph, alive, round as int % 2),
            round + 1,
            rounds,
        )
    }
}

/// Rounds can be run in two goes.
pub proof fn lemma_rounds_compose(
    graph: Graph,
    alive: Set<u64>,
    first: nat,
    middle: nat,
    end: nat,
)
    requires
        first <= middle <= end,
    ensures
        every_round(graph, every_round(graph, alive, first, middle), middle, end) == every_round(
            graph,
            alive,
            first,
            end,
        ),
    decreases middle - first,
{
    if first < middle {
        lemma_rounds_compose(
            graph,
            cpu_lean::trimmed_once(graph, alive, first as int % 2),
            first + 1,
            middle,
            end,
        );
    }
}

/// A second round on the same side takes nothing more away.
pub proof fn lemma_side_is_trimmed_once(graph: Graph, alive: Set<u64>, side: int)
    ensures
        cpu_lean::trimmed_once(graph, cpu_lean::trimmed_once(graph, alive, side), side)
            == cpu_lean::trimmed_once(graph, alive, side),
{
    let left = cpu_lean::trimmed_once(graph, alive, side);
    assert forall|edge: u64| left.contains(edge) implies graph.has_partner(left, edge, side) by {
        let other = choose|other: u64| #[trigger]
            alive.contains(other) && graph.meet(edge, other, side);
        crate::graph::lemma_meet_is_symmetric(graph, edge, other, side);
        assert(alive.contains(edge) && graph.meet(other, edge, side));
        assert(left.contains(other));
    }
    assert(cpu_lean::trimmed_once(graph, left, side) =~= left);
}

proof fn lemma_settled_rounds(graph: Graph, alive: Set<u64>, round: nat, rounds: nat)
    requires
        cpu_lean::trimmed_once(graph, alive, 0) == alive,
        cpu_lean::trimmed_once(graph, alive, 1) == alive,
    ensures
        every_round(graph, alive, round, rounds) == alive,
    decreases rounds - round,
{
    if round < rounds {
        lemma_settled_rounds(graph, alive, round + 1, rounds);
    }
}

proof fn lemma_early_stop_is_exact(graph: Graph, alive: Set<u64>, round: nat, rounds: nat)
    requires
        round > 0,
        cpu_lean::trimmed_once(graph, alive, (round + 1) as int % 2) == alive,
    ensures
        cpu_lean::trimmed(graph, alive, round, rounds) == every_round(graph, alive, round, rounds),
    decreases rounds - round,
{
    if round < rounds {
        let next = cpu_lean::trimmed_once(graph, alive, round as int % 2);
        if next == alive {
            lemma_settled_rounds(graph, alive, round, rounds);
        } else {
            lemma_side_is_trimmed_once(graph, alive, round as int % 2);
            assert((round + 1 + 1) as int % 2 == round as int % 2);
            lemma_early_stop_is_exact(graph, next, round + 1, rounds);
        }
    }
}

/// Running every round leaves what the reference leaves, which stops after a
/// round that takes nothing away: but for a first round that takes nothing
/// away, that stop loses nothing.
pub proof fn lemma_every_round_matches_reference(graph: Graph, alive: Set<u64>, rounds: nat)
    requires
        rounds > 1 ==> cpu_lean::trimmed_once(graph, alive, 0) != alive,
    ensures
        every_round(graph, alive, 0, rounds) == cpu_lean::trimmed(graph, alive, 0, rounds),
{
    reveal_with_fuel(every_round, 2);
    reveal_with_fuel(cpu_lean::trimmed, 2);
    if rounds > 1 {
        lemma_side_is_trimmed_once(graph, alive, 0);
        lemma_early_stop_is_exact(graph, cpu_lean::trimmed_once(graph, alive, 0), 1, rounds);
    }
}

/// Whatever the rounds, the edges of every closed set stay.
pub proof fn lemma_every_round_keeps_core(graph: Graph, alive: Set<u64>, round: nat, rounds: nat)
    ensures
        graph.two_core(every_round(graph, alive, round, rounds)) == graph.two_core(alive),
    decreases rounds - round,
{
    if round < rounds {
        let next = cpu_lean::trimmed_once(graph, alive, round as int % 2);
        lemma_every_round_keeps_core(graph, next, round + 1, rounds);
        cpu_lean::lemma_trimming_keeps_core(graph, alive, round, round + 1);
        reveal_with_fuel(cpu_lean::trimmed, 2);
    }
}

/// The nodes that edges touch on a side.
pub open spec fn nodes_of(graph: Graph, edges: Set<u64>, side: int) -> Set<u32> {
    Set::new(|node: u32| exists|edge: u64| #[trigger]
        edges.contains(edge) && graph.node(edge, side) == node)
}

/// The nodes of two sets of edges together.
pub proof fn nodes_of_union(graph: Graph, a: Set<u64>, b: Set<u64>, side: int)
    ensures
        nodes_of(graph, a.union(b), side) == nodes_of(graph, a, side).union(
            nodes_of(graph, b, side),
        ),
{
    let whole = nodes_of(graph, a.union(b), side);
    let parts = nodes_of(graph, a, side).union(nodes_of(graph, b, side));
    assert forall|node: u32| parts.contains(node) implies whole.contains(node) by {
        let edge = if nodes_of(graph, a, side).contains(node) {
            choose|edge: u64| #[trigger] a.contains(edge) && graph.node(edge, side) == node
        } else {
            choose|edge: u64| #[trigger] b.contains(edge) && graph.node(edge, side) == node
        };
        assert(a.union(b).contains(edge));
    }
    assert(whole =~= parts);
}

/// The edges whose mates are not marked.
pub open spec fn unmatched(graph: Graph, edges: Set<u64>, nodes: Set<u32>, side: int) -> Set<u64> {
    Set::new(
        |edge: u64| edges.contains(edge) && !nodes.contains(bits::mate(graph.node(edge, side))),
    )
}

/// Taking the edges away whose mates nobody marked is one round of trimming.
pub proof fn lemma_unmatched_edges_are_trimmed(graph: Graph, edges: Set<u64>, side: int)
    ensures
        edges.difference(unmatched(graph, edges, nodes_of(graph, edges, side), side))
            == cpu_lean::trimmed_once(graph, edges, side),
{
    let marked = nodes_of(graph, edges, side);
    let left = edges.difference(unmatched(graph, edges, marked, side));
    assert forall|edge: u64| left.contains(edge) <==> cpu_lean::trimmed_once(
        graph,
        edges,
        side,
    ).contains(edge) by {
        if left.contains(edge) {
            let other = choose|other: u64| #[trigger]
                edges.contains(other) && graph.node(other, side) == bits::mate(
                    graph.node(edge, side),
                );
            assert(graph.meet(edge, other, side));
        }
        if cpu_lean::trimmed_once(graph, edges, side).contains(edge) {
            let other = choose|other: u64| #[trigger]
                edges.contains(other) && graph.meet(edge, other, side);
            assert(marked.contains(bits::mate(graph.node(edge, side))));
        }
    }
    assert(left =~= cpu_lean::trimmed_once(graph, edges, side));
}

/// The edges of a range.
pub open spec fn in_range(range: EdgeRange) -> Set<u64> {
    Set::new(|edge: u64| range.base <= edge < range.base + range.count)
}

/// The buffers of the device.
pub struct Device {
    pub edges: Set<u64>,
    pub nodes: Set<u32>,
    pub backup: Set<u64>,
    pub arenas: Seq<Set<u64>>,
    pub dead: Set<u64>,
    pub overflowed: Set<Buffer>,
}

/// What a command depends on besides the buffers: the graph, how its edges are
/// cut, and where the overflow words stand.
pub struct Machine {
    pub graph: Graph,
    pub slice: u64,
    pub overflow_at: u64,
    pub dead_overflow_at: u64,
}

/// The arena in a buffer.
pub open spec fn arena_index(buffer: Buffer) -> Option<int> {
    match buffer {
        Buffer::Scratch => Some(0),
        Buffer::Second => Some(1),
        Buffer::Third => Some(2),
        Buffer::Fourth => Some(3),
        _ => None,
    }
}

/// The buffer of an arena.
pub open spec fn arena_buffer(index: int) -> Buffer {
    if index == 0 {
        Buffer::Scratch
    } else if index == 1 {
        Buffer::Second
    } else if index == 2 {
        Buffer::Third
    } else {
        Buffer::Fourth
    }
}

impl Device {
    /// All edges that the four arenas list.
    pub open spec fn listed(self) -> Set<u64> {
        Set::new(
            |edge: u64|
                exists|i: int| 0 <= i < 4 && #[trigger] self.arenas[i].contains(edge),
        )
    }
}

impl Machine {
    /// The edges that a binding speaks of.
    pub open spec fn bound(self, binding: Binding) -> Set<u64> {
        let ranges = gpu_wgpu::edge_ranges(self.graph.edge_count() as int, self.slice as int);
        match binding {
            Binding::Part(_, part) => in_range(ranges[part as int]),
            Binding::Chunk(_, chunk) => in_range(ranges[chunk as int]),
            _ => cpu_lean::all_edges(self.graph),
        }
    }

    /// The arena that an edge is listed in: the nodes are cut into four.
    pub open spec fn quarter(self, edge: u64, side: int) -> int {
        self.graph.node(edge, side) as int * 4 / self.graph.edge_count() as int
    }

    /// The bucket that an edge is listed in.
    pub open spec fn bucket(self, edge: u64, side: int) -> int {
        self.graph.node(edge, side) as int * BUCKETED_MARK_BUCKETS / self.graph.edge_count() as int
    }

    /// The edges that an entry point lists.
    pub open spec fn to_list(self, kernel: Kernel, binding: Binding, edges: Set<u64>) -> Set<u64> {
        match kernel {
            Kernel::SleanScatterDense
            | Kernel::BucketScatterDenseStaged
            | Kernel::BucketScatterDensePairsStaged => self.bound(binding),
            _ => self.bound(binding).intersect(edges),
        }
    }

    /// Listing edges in the four arenas.
    pub open spec fn lists(self, new: Set<u64>, side: int, a: Device, b: Device) -> bool {
        &&& b == (Device { arenas: b.arenas, overflowed: b.overflowed, ..a })
        &&& b.arenas.len() == 4
        &&& a.overflowed.subset_of(b.overflowed)
        &&& forall|buffer: Buffer| #[trigger]
            b.overflowed.contains(buffer) ==> a.overflowed.contains(buffer) || arena_index(
                buffer,
            ) is Some
        &&& forall|i: int|
            0 <= i < 4 && !b.overflowed.contains(arena_buffer(i)) ==> #[trigger] b.arenas[i]
                == a.arenas[i].union(
                Set::new(|edge: u64| new.contains(edge) && self.quarter(edge, side) == i),
            )
    }

    /// Listing edges in the scratch buffer.
    pub open spec fn lists_chunk(self, new: Set<u64>, a: Device, b: Device) -> bool {
        &&& b == (Device { arenas: b.arenas, overflowed: b.overflowed, ..a })
        &&& b.arenas.len() == 4
        &&& a.overflowed.subset_of(b.overflowed)
        &&& b.overflowed.subset_of(a.overflowed.insert(Buffer::Scratch))
        &&& !b.overflowed.contains(Buffer::Scratch) ==> b.arenas[0] == a.arenas[0].union(new)
    }

    /// Listing dead edges.
    pub open spec fn buries(self, new: Set<u64>, a: Device, b: Device) -> bool {
        &&& b == (Device { dead: b.dead, overflowed: b.overflowed, ..a })
        &&& a.overflowed.subset_of(b.overflowed)
        &&& b.overflowed.subset_of(a.overflowed.insert(Buffer::Dead))
        &&& !b.overflowed.contains(Buffer::Dead) ==> b.dead == a.dead.union(new)
    }

    /// What an entry point may do.
    pub open spec fn kernel_step(self, kernel: Kernel, binding: Binding, a: Device, b: Device) -> bool {
        let graph = self.graph;
        match (kernel, binding) {
            (Kernel::ClearNodes, Binding::Side(_)) => b == (Device { nodes: Set::empty(), ..a }),
            (Kernel::MarkNodes, Binding::Side(side)) => b == (Device {
                nodes: a.nodes.union(nodes_of(graph, a.edges, side as int)),
                ..a
            }),
            (Kernel::TrimEdges, Binding::Side(side)) => b == (Device {
                edges: a.edges.difference(unmatched(graph, a.edges, a.nodes, side as int)),
                ..a
            }),
            (Kernel::SleanScatterDense, Binding::Part(side, _))
            | (Kernel::SleanScatterAlive, Binding::Part(side, _)) => self.lists(
                self.to_list(kernel, binding, a.edges),
                side as int,
                a,
                b,
            ),
            (Kernel::SleanMark, Binding::Part(side, _)) => b == (Device {
                nodes: a.nodes.union(nodes_of(graph, a.listed(), side as int)),
                ..a
            }),
            (Kernel::SleanTrim, Binding::Part(side, _)) => self.buries(
                unmatched(graph, a.listed(), a.nodes, side as int),
                a,
                b,
            ),
            (Kernel::SleanMarkAndTrimFinal, Binding::Part(side, _)) => {
                let nodes = a.nodes.union(nodes_of(graph, a.listed(), side as int));
                self.buries(
                    unmatched(graph, a.listed(), nodes, side as int),
                    Device { nodes, ..a },
                    b,
                )
            },
            (Kernel::SleanApplyDeaths, Binding::Part(_, _)) => b == (Device {
                edges: a.edges.difference(a.dead),
                ..a
            }),
            (Kernel::BucketScatterDenseStaged, Binding::Chunk(_, _))
            | (Kernel::BucketScatterAlive, Binding::Chunk(_, _))
            | (Kernel::BucketScatterDensePairsStaged, Binding::Chunk(_, _))
            | (Kernel::BucketScatterAlivePairs, Binding::Chunk(_, _)) => self.lists_chunk(
                self.to_list(kernel, binding, a.edges),
                a,
                b,
            ),
            (Kernel::BucketMark, Binding::Bucket(side, bucket)) => b == (Device {
                nodes: a.nodes.union(
                    nodes_of(graph, self.of_bucket(a.arenas[0], side, bucket), side as int),
                ),
                ..a
            }),
            (Kernel::BucketTrimPairs, Binding::Bucket(side, bucket)) => b == (Device {
                edges: a.edges.difference(
                    unmatched(
                        graph,
                        self.of_bucket(a.arenas[0], side, bucket),
                        a.nodes,
                        side as int,
                    ),
                ),
                ..a
            }),
            _ => false,
        }
    }

    /// The listed edges of one bucket.
    pub open spec fn of_bucket(self, listed: Set<u64>, side: u32, bucket: u32) -> Set<u64> {
        Set::new(|edge: u64| listed.contains(edge) && self.bucket(edge, side as int) == bucket)
    }

    /// What a command may do.
    pub open spec fn step(self, command: Command, a: Device, b: Device) -> bool {
        match command {
            Command::Clear(Buffer::Nodes) => b == (Device { nodes: Set::empty(), ..a }),
            Command::ClearBytes(Buffer::Dead, bytes) => b == (Device {
                dead: Set::empty(),
                overflowed: if bytes > self.dead_overflow_at {
                    a.overflowed.remove(Buffer::Dead)
                } else {
                    a.overflowed
                },
                ..a
            }),
            Command::ClearBytes(buffer, bytes) => match arena_index(buffer) {
                Some(i) => b == (Device {
                    arenas: a.arenas.update(i, Set::empty()),
                    overflowed: if bytes > self.overflow_at {
                        a.overflowed.remove(buffer)
                    } else {
                        a.overflowed
                    },
                    ..a
                }),
                None => false,
            },
            Command::Copy(Buffer::Edges, Buffer::Backup) => b == (Device { backup: a.edges, ..a }),
            Command::Copy(Buffer::Backup, Buffer::Edges) => b == (Device { edges: a.backup, ..a }),
            Command::Run(kernel, binding, _) => self.kernel_step(kernel, binding, a, b),
            Command::Poll | Command::Submit => b == a,
            _ => false,
        }
    }

    /// Whether each state of the device may follow the one before.
    pub open spec fn follows(self, commands: Seq<Command>, states: Seq<Device>) -> bool {
        &&& states.len() == commands.len() + 1
        &&& forall|i: int|
            0 <= i < commands.len() ==> self.step(#[trigger] commands[i], states[i], states[i + 1])
    }

    /// Whether commands, run one after the other, can lead from one state of
    /// the device to another.
    pub open spec fn runs(self, commands: Seq<Command>, a: Device, b: Device) -> bool {
        exists|states: Seq<Device>| #[trigger]
            self.follows(commands, states) && states.first() == a && states.last() == b
    }
}

proof fn split_run(
    machine: Machine,
    first: Seq<Command>,
    second: Seq<Command>,
    a: Device,
    b: Device,
) -> (middle: Device)
    requires
        machine.runs(first + second, a, b),
    ensures
        machine.runs(first, a, middle),
        machine.runs(second, middle, b),
{
    let all = first + second;
    let states = choose|states: Seq<Device>| #[trigger]
        machine.follows(all, states) && states.first() == a && states.last() == b;
    let n = first.len() as int;
    let early = states.take(n + 1);
    let late = states.skip(n);
    assert(machine.follows(first, early)) by {
        assert forall|i: int| 0 <= i < first.len() implies machine.step(
            #[trigger] first[i],
            early[i],
            early[i + 1],
        ) by {
            assert(all[i] == first[i]);
        }
    }
    assert(machine.follows(second, late)) by {
        assert forall|i: int| 0 <= i < second.len() implies machine.step(
            #[trigger] second[i],
            late[i],
            late[i + 1],
        ) by {
            assert(all[n + i] == second[i]);
        }
    }
    assert(early.first() == a && late.last() == b && early.last() == states[n] && late.first()
        == states[n]);
    states[n]
}

proof fn last_step(machine: Machine, commands: Seq<Command>, command: Command, a: Device, b: Device)
    -> (middle: Device)
    requires
        machine.runs(commands.push(command), a, b),
    ensures
        machine.runs(commands, a, middle),
        machine.step(command, middle, b),
{
    assert(commands.push(command) =~= commands + seq![command]);
    let middle = split_run(machine, commands, seq![command], a, b);
    single_step(machine, command, middle, b);
    middle
}

proof fn single_step(machine: Machine, command: Command, a: Device, b: Device)
    requires
        machine.runs(seq![command], a, b),
    ensures
        machine.step(command, a, b),
{
    let states = choose|states: Seq<Device>| #[trigger]
        machine.follows(seq![command], states) && states.first() == a && states.last() == b;
    assert(seq![command][0] == command);
}

/// Nothing changes where no command is run.
pub proof fn empty_run(machine: Machine, a: Device, b: Device)
    requires
        machine.runs(Seq::empty(), a, b),
    ensures
        a == b,
{
}

/// A direct round trims its side.
pub proof fn lemma_lean_round_trims(
    machine: Machine,
    round: u32,
    groups: u32,
    a: Device,
    b: Device,
)
    requires
        machine.runs(gpu_rounds::lean_round(round, groups), a, b),
    ensures
        b.edges == cpu_lean::trimmed_once(machine.graph, a.edges, round as int % 2),
{
    let side = Binding::Side(gpu_rounds::side_of(round));
    let one = Command::Run(Kernel::ClearNodes, side, groups);
    let two = Command::Run(Kernel::MarkNodes, side, groups);
    let three = Command::Run(Kernel::TrimEdges, side, groups);
    assert(gpu_rounds::lean_round(round, groups) =~= seq![one, two].push(three));
    let marked = last_step(machine, seq![one, two], three, a, b);
    assert(seq![one, two] =~= seq![one].push(two));
    let cleared = last_step(machine, seq![one], two, a, marked);
    single_step(machine, one, a, cleared);
    let s = round as int % 2;
    assert(Set::<u32>::empty().union(nodes_of(machine.graph, a.edges, s)) =~= nodes_of(
        machine.graph,
        a.edges,
        s,
    ));
    lemma_unmatched_edges_are_trimmed(machine.graph, a.edges, s);
}

/// Direct rounds trim their sides in turn.
pub proof fn lemma_lean_rounds_trim(
    machine: Machine,
    first: u32,
    end: u32,
    groups: u32,
    a: Device,
    b: Device,
)
    requires
        first <= end,
        machine.runs(gpu_rounds::lean_rounds(first, end, groups), a, b),
    ensures
        b.edges == every_round(machine.graph, a.edges, first as nat, end as nat),
    decreases end - first,
{
    if first < end {
        let last = (end - 1) as u32;
        let middle = split_run(
            machine,
            gpu_rounds::lean_rounds(first, last, groups),
            gpu_rounds::lean_round(last, groups),
            a,
            b,
        );
        lemma_lean_rounds_trim(machine, first, last, groups, a, middle);
        lemma_lean_round_trims(machine, last, groups, middle, b);
        lemma_rounds_compose(machine.graph, a.edges, first as nat, last as nat, end as nat);
        reveal_with_fuel(every_round, 2);
    } else {
        empty_run(machine, a, b);
    }
}

proof fn clear_arenas_run(machine: Machine, bytes: u64, a: Device, b: Device)
    requires
        machine.runs(gpu_rounds::clear_arenas(bytes), a, b),
        a.arenas.len() == 4,
    ensures
        b == (Device { arenas: b.arenas, overflowed: b.overflowed, ..a }),
        b.arenas.len() == 4,
        forall|i: int| 0 <= i < 4 ==> #[trigger] b.arenas[i] == Set::<u64>::empty(),
        bytes <= machine.overflow_at ==> b.overflowed == a.overflowed,
        bytes > machine.overflow_at ==> b.overflowed.subset_of(
            a.overflowed,
        ) && forall|i: int| 0 <= i < 4 ==> !b.overflowed.contains(#[trigger] arena_buffer(i)),
{
    let one = Command::ClearBytes(Buffer::Scratch, bytes);
    let two = Command::ClearBytes(Buffer::Second, bytes);
    let three = Command::ClearBytes(Buffer::Third, bytes);
    let four = Command::ClearBytes(Buffer::Fourth, bytes);
    assert(gpu_rounds::clear_arenas(bytes) =~= seq![one, two, three].push(four));
    let z = last_step(machine, seq![one, two, three], four, a, b);
    assert(seq![one, two, three] =~= seq![one, two].push(three));
    let y = last_step(machine, seq![one, two], three, a, z);
    assert(seq![one, two] =~= seq![one].push(two));
    let x = last_step(machine, seq![one], two, a, y);
    single_step(machine, one, a, x);
}

/// Listed edges, each in its quarter, are all listed.
proof fn listing_is_whole(machine: Machine, new: Set<u64>, side: int, a: Device, b: Device)
    requires
        machine.lists(new, side, a, b),
        a.arenas.len() == 4,
        forall|i: int| 0 <= i < 4 ==> #[trigger] a.arenas[i] == Set::<u64>::empty(),
        forall|i: int| 0 <= i < 4 ==> !b.overflowed.contains(#[trigger] arena_buffer(i)),
        machine.graph.edge_bits <= 32,
    ensures
        b.listed() == new,
{
    let graph = machine.graph;
    assert forall|edge: u64| b.listed().contains(edge) <==> new.contains(edge) by {
        let i = machine.quarter(edge, side);
        crate::siphash::lemma_node_bound(graph.keys, graph.edge_bits, edge, side);
        let node = graph.node(edge, side) as int;
        let count = graph.edge_count() as int;
        assert(0 <= node * 4 / count < 4) by (nonlinear_arith)
            requires
                0 <= node < count,
        ;
        assert(b.arenas[i] == a.arenas[i].union(
            Set::new(|e: u64| new.contains(e) && machine.quarter(e, side) == i),
        ));
        if new.contains(edge) {
            assert(b.arenas[i].contains(edge));
        }
        if b.listed().contains(edge) {
            let k = choose|k: int| 0 <= k < 4 && #[trigger] b.arenas[k].contains(edge);
            assert(b.arenas[k] == a.arenas[k].union(
                Set::new(|e: u64| new.contains(e) && machine.quarter(e, side) == k),
            ));
        }
    }
    assert(b.listed() =~= new);
}

impl Device {
    /// Whether everything found room.
    pub open spec fn fitted(self) -> bool {
        self.overflowed == Set::<Buffer>::empty()
    }
}

impl Machine {
    /// The machine that runs rounds in parts.
    pub open spec fn in_parts(graph: Graph, sizing: SleanSizing) -> Machine {
        Machine {
            graph,
            slice: sizing.part_edges,
            overflow_at: sizing.count_bytes(),
            dead_overflow_at: sizing.dead_count_bytes(),
        }
    }

    /// The edges that are listed for a part.
    pub open spec fn part_list(self, round: u32, part: int, edges: Set<u64>) -> Set<u64> {
        self.to_list(
            gpu_rounds::part_scatter(round),
            Binding::Part(gpu_rounds::side_of(round), part as u64),
            edges,
        )
    }
}

/// Whether the buffers of a round in parts are meant for a graph: there is one
/// range of edges for each part.
pub open spec fn cuts(sizing: SleanSizing, graph: Graph) -> bool {
    &&& graph.edge_bits <= 32
    &&& sizing.runs()
    &&& sizing.part_edges > 0
    &&& bits::ceil_div(graph.edge_count() as int, sizing.part_edges as int) == sizing.parts
}

proof fn seed_part_run(
    graph: Graph,
    sizing: SleanSizing,
    round: u32,
    part: int,
    a: Device,
    b: Device,
)
    requires
        cuts(sizing, graph),
        a.arenas.len() == 4,
        Machine::in_parts(graph, sizing).runs(
            gpu_rounds::clear_arenas(sizing.count_bytes()).push(
                Command::Run(
                    gpu_rounds::part_scatter(round),
                    Binding::Part(gpu_rounds::side_of(round), part as u64),
                    gpu_wgpu::DISPATCH_GROUPS,
                ),
            ),
            a,
            b,
        ),
    ensures
        b == (Device { arenas: b.arenas, overflowed: b.overflowed, ..a }),
        b.arenas.len() == 4,
        a.overflowed.subset_of(b.overflowed),
        b.fitted() ==> b.listed() == Machine::in_parts(graph, sizing).part_list(
            round,
            part,
            a.edges,
        ),
{
    let machine = Machine::in_parts(graph, sizing);
    let run = Command::Run(
        gpu_rounds::part_scatter(round),
        Binding::Part(gpu_rounds::side_of(round), part as u64),
        gpu_wgpu::DISPATCH_GROUPS,
    );
    let cleared = last_step(
        machine,
        gpu_rounds::clear_arenas(sizing.count_bytes()),
        run,
        a,
        b,
    );
    clear_arenas_run(machine, sizing.count_bytes(), a, cleared);
    if b.fitted() {
        listing_is_whole(
            machine,
            machine.part_list(round, part, a.edges),
            gpu_rounds::side_of(round) as int,
            cleared,
            b,
        );
    }
}

proof fn mark_part_run(
    graph: Graph,
    sizing: SleanSizing,
    round: u32,
    part: int,
    a: Device,
    b: Device,
)
    requires
        cuts(sizing, graph),
        a.arenas.len() == 4,
        Machine::in_parts(graph, sizing).runs(gpu_rounds::mark_part(round, sizing, part), a, b),
    ensures
        b.edges == a.edges,
        b.arenas.len() == 4,
        a.overflowed.subset_of(b.overflowed),
        b.fitted() ==> ({
            let new = Machine::in_parts(graph, sizing).part_list(round, part, a.edges);
            if part + 1 == sizing.parts {
                b.nodes == a.nodes && b.listed() == new
            } else {
                b.nodes == a.nodes.union(nodes_of(graph, new, round as int % 2))
            }
        }),
{
    let machine = Machine::in_parts(graph, sizing);
    let binding = Binding::Part(gpu_rounds::side_of(round), part as u64);
    let seeding = gpu_rounds::clear_arenas(sizing.count_bytes()).push(
        Command::Run(gpu_rounds::part_scatter(round), binding, gpu_wgpu::DISPATCH_GROUPS),
    );
    if part + 1 == sizing.parts {
        let seeded = last_step(machine, seeding, Command::Poll, a, b);
        seed_part_run(graph, sizing, round, part, a, seeded);
    } else {
        let mark = Command::Run(Kernel::SleanMark, binding, sizing.bucket_count as u32);
        let marked = last_step(machine, seeding.push(mark), Command::Poll, a, b);
        let seeded = last_step(machine, seeding, mark, a, marked);
        seed_part_run(graph, sizing, round, part, a, seeded);
    }
}

/// The edges listed for the first parts.
spec fn first_parts(machine: Machine, round: u32, edges: Set<u64>, end: int) -> Set<u64> {
    Set::new(
        |edge: u64|
            exists|part: int|
                0 <= part < end && #[trigger] machine.part_list(round, part, edges).contains(edge),
    )
}

proof fn mark_parts_run(
    graph: Graph,
    sizing: SleanSizing,
    round: u32,
    end: int,
    a: Device,
    b: Device,
)
    requires
        cuts(sizing, graph),
        0 <= end <= sizing.parts,
        a.arenas.len() == 4,
        Machine::in_parts(graph, sizing).runs(gpu_rounds::mark_parts(round, sizing, end), a, b),
    ensures
        b.edges == a.edges,
        b.arenas.len() == 4,
        a.overflowed.subset_of(b.overflowed),
        b.fitted() ==> ({
            let machine = Machine::in_parts(graph, sizing);
            let marked = if end == sizing.parts {
                end - 1
            } else {
                end
            };
            &&& b.nodes == a.nodes.union(
                nodes_of(
                    graph,
                    first_parts(machine, round, a.edges, marked),
                    round as int % 2,
                ),
            )
            &&& end == sizing.parts ==> b.listed() == machine.part_list(round, end - 1, a.edges)
        }),
    decreases end,
{
    let machine = Machine::in_parts(graph, sizing);
    let side = round as int % 2;
    if end == 0 {
        empty_run(machine, a, b);
        assert(nodes_of(graph, first_parts(machine, round, a.edges, 0), side) =~= Set::empty());
        assert(a.nodes.union(Set::empty()) =~= a.nodes);
    } else {
        let middle = split_run(
            machine,
            gpu_rounds::mark_parts(round, sizing, end - 1),
            gpu_rounds::mark_part(round, sizing, end - 1),
            a,
            b,
        );
        mark_parts_run(graph, sizing, round, end - 1, a, middle);
        mark_part_run(graph, sizing, round, end - 1, middle, b);
        if b.fitted() {
            assert(middle.overflowed =~= Set::empty());
            if end < sizing.parts {
                let before = first_parts(machine, round, a.edges, end - 1);
                let new = machine.part_list(round, end - 1, a.edges);
                let after = first_parts(machine, round, a.edges, end);
                assert forall|edge: u64| after.contains(edge) <==> before.contains(edge)
                    || new.contains(edge) by {
                    if before.contains(edge) {
                        let part = choose|part: int|
                            0 <= part < end - 1 && #[trigger] machine.part_list(
                                round,
                                part,
                                a.edges,
                            ).contains(edge);
                        assert(machine.part_list(round, part, a.edges).contains(edge));
                    }
                    if new.contains(edge) {
                        assert(machine.part_list(round, end - 1, a.edges).contains(edge));
                    }
                }
                assert(nodes_of(graph, after, side) =~= nodes_of(graph, before, side).union(
                    nodes_of(graph, new, side),
                ));
                assert(b.nodes =~= a.nodes.union(nodes_of(graph, after, side)));
            }
        }
    }
}

/// Each edge lies in exactly one part.
proof fn parts_hold_each_edge_once(graph: Graph, sizing: SleanSizing, side: u32, edge: u64)
    requires
        cuts(sizing, graph),
    ensures
        ({
            let machine = Machine::in_parts(graph, sizing);
            let home = edge as int / sizing.part_edges as int;
            forall|part: int|
                0 <= part < sizing.parts ==> (#[trigger] machine.bound(
                    Binding::Part(side, part as u64),
                ).contains(edge) <==> part == home && edge < graph.edge_count())
        }),
        edge < graph.edge_count() ==> 0 <= (edge as int / (sizing.part_edges as int)) < sizing.parts,
{
    let machine = Machine::in_parts(graph, sizing);
    let total = graph.edge_count() as int;
    let size = sizing.part_edges as int;
    bits::lemma_pow2_fits(graph.edge_bits as nat);
    bits::lemma_ceil_div(total, size);
    let ranges = gpu_wgpu::edge_ranges(total, size);
    if edge < total {
        gpu_wgpu::lemma_ranges_partition(total as u64, sizing.part_edges, edge);
    }
    assert forall|part: int| 0 <= part < sizing.parts implies (#[trigger] machine.bound(
        Binding::Part(side, part as u64),
    ).contains(edge) <==> part == edge as int / size && edge < total) by {
        assert(part * size < total);
        assert(part * size >= 0) by (nonlinear_arith)
            requires
                part >= 0,
                size > 0,
        ;
        assert(ranges[part] == gpu_wgpu::range_at(total, size, part));
        assert(machine.bound(Binding::Part(side, part as u64)).contains(edge) <==> ranges[part].base
            <= edge < ranges[part].base + ranges[part].count);
    }
}

proof fn trim_last_run(graph: Graph, sizing: SleanSizing, round: u32, a: Device, b: Device)
    requires
        cuts(sizing, graph),
        a.arenas.len() == 4,
        Machine::in_parts(graph, sizing).runs(gpu_rounds::trim_last_part(round, sizing), a, b),
    ensures
        b.backup == a.edges,
        b.arenas.len() == 4,
        a.overflowed.subset_of(b.overflowed),
        b.fitted() ==> ({
            let side = round as int % 2;
            &&& b.nodes == a.nodes.union(nodes_of(graph, a.listed(), side))
            &&& b.edges == a.edges.difference(unmatched(graph, a.listed(), b.nodes, side))
        }),
{
    let machine = Machine::in_parts(graph, sizing);
    let binding = Binding::Part(gpu_rounds::side_of(round), (sizing.parts - 1) as u64);
    let one = Command::Copy(Buffer::Edges, Buffer::Backup);
    let two = Command::ClearBytes(Buffer::Dead, sizing.dead_count_bytes());
    let three = Command::Run(Kernel::SleanMarkAndTrimFinal, binding, sizing.bucket_count as u32);
    let four = Command::Run(Kernel::SleanApplyDeaths, binding, sizing.dead_bucket_count as u32);
    assert(gpu_rounds::trim_last_part(round, sizing) =~= seq![one, two, three].push(four));
    let z = last_step(machine, seq![one, two, three], four, a, b);
    assert(seq![one, two, three] =~= seq![one, two].push(three));
    let y = last_step(machine, seq![one, two], three, a, z);
    assert(seq![one, two] =~= seq![one].push(two));
    let x = last_step(machine, seq![one], two, a, y);
    single_step(machine, one, a, x);
    assert(y.listed() == a.listed());
    if b.fitted() {
        let gone = unmatched(graph, a.listed(), z.nodes, round as int % 2);
        assert(Set::<u64>::empty().union(gone) =~= gone);
    }
}

proof fn trim_part_run(
    graph: Graph,
    sizing: SleanSizing,
    round: u32,
    part: int,
    a: Device,
    b: Device,
)
    requires
        cuts(sizing, graph),
        a.arenas.len() == 4,
        Machine::in_parts(graph, sizing).runs(gpu_rounds::trim_part(round, sizing, part), a, b),
    ensures
        b.backup == a.backup,
        b.nodes == a.nodes,
        b.arenas.len() == 4,
        a.overflowed.subset_of(b.overflowed),
        b.fitted() ==> b.edges == a.edges.difference(
            unmatched(
                graph,
                Machine::in_parts(graph, sizing).part_list(round, part, a.edges),
                a.nodes,
                round as int % 2,
            ),
        ),
{
    let machine = Machine::in_parts(graph, sizing);
    let binding = Binding::Part(gpu_rounds::side_of(round), part as u64);
    let clearing = gpu_rounds::clear_arenas(sizing.count_bytes());
    let one = Command::ClearBytes(Buffer::Dead, sizing.dead_count_bytes());
    let two = Command::Run(gpu_rounds::part_scatter(round), binding, gpu_wgpu::DISPATCH_GROUPS);
    let three = Command::Run(Kernel::SleanTrim, binding, sizing.bucket_count as u32);
    let four = Command::Run(Kernel::SleanApplyDeaths, binding, sizing.dead_bucket_count as u32);
    let rest = seq![one, two, three, four];
    assert(gpu_rounds::trim_part(round, sizing, part) =~= (clearing + rest).push(Command::Poll));
    let z = last_step(machine, clearing + rest, Command::Poll, a, b);
    let w = split_run(machine, clearing, rest, a, z);
    clear_arenas_run(machine, sizing.count_bytes(), a, w);
    assert(rest =~= seq![one, two, three].push(four));
    let y = last_step(machine, seq![one, two, three], four, w, z);
    assert(seq![one, two, three] =~= seq![one, two].push(three));
    let x = last_step(machine, seq![one, two], three, w, y);
    assert(seq![one, two] =~= seq![one].push(two));
    let v = last_step(machine, seq![one], two, w, x);
    single_step(machine, one, w, v);
    if b.fitted() {
        assert(x.overflowed =~= Set::empty());
        let new = machine.part_list(round, part, a.edges);
        listing_is_whole(machine, new, gpu_rounds::side_of(round) as int, v, x);
        let gone = unmatched(graph, new, a.nodes, round as int % 2);
        assert(Set::<u64>::empty().union(gone) =~= gone);
    }
}

proof fn trim_parts_run(
    graph: Graph,
    sizing: SleanSizing,
    round: u32,
    end: int,
    a: Device,
    b: Device,
)
    requires
        cuts(sizing, graph),
        0 <= end <= sizing.parts,
        a.arenas.len() == 4,
        Machine::in_parts(graph, sizing).runs(gpu_rounds::trim_parts(round, sizing, end), a, b),
    ensures
        b.backup == a.backup,
        b.nodes == a.nodes,
        b.arenas.len() == 4,
        a.overflowed.subset_of(b.overflowed),
        b.fitted() ==> b.edges == a.edges.difference(
            unmatched(
                graph,
                first_parts(Machine::in_parts(graph, sizing), round, a.edges, end),
                a.nodes,
                round as int % 2,
            ),
        ),
    decreases end,
{
    let machine = Machine::in_parts(graph, sizing);
    let side = round as int % 2;
    if end == 0 {
        empty_run(machine, a, b);
        assert(first_parts(machine, round, a.edges, 0) =~= Set::empty());
        assert(b.edges =~= a.edges.difference(
            unmatched(graph, first_parts(machine, round, a.edges, 0), a.nodes, side),
        ));
    } else {
        let middle = split_run(
            machine,
            gpu_rounds::trim_parts(round, sizing, end - 1),
            gpu_rounds::trim_part(round, sizing, end - 1),
            a,
            b,
        );
        trim_parts_run(graph, sizing, round, end - 1, a, middle);
        trim_part_run(graph, sizing, round, end - 1, middle, b);
        if b.fitted() {
            assert(middle.overflowed =~= Set::empty());
            let before = first_parts(machine, round, a.edges, end - 1);
            let new = machine.part_list(round, end - 1, a.edges);
            let after = first_parts(machine, round, a.edges, end);
            assert forall|edge: u64|
                after.contains(edge) <==> before.contains(edge) || new.contains(edge) by {
                if before.contains(edge) {
                    let part = choose|part: int|
                        0 <= part < end - 1 && #[trigger] machine.part_list(
                            round,
                            part,
                            a.edges,
                        ).contains(edge);
                    assert(machine.part_list(round, part, a.edges).contains(edge));
                }
                if new.contains(edge) {
                    assert(machine.part_list(round, end - 1, a.edges).contains(edge));
                }
            }
            assert(machine.part_list(round, end - 1, middle.edges) =~= new) by {
                assert forall|edge: u64| new.contains(edge) implies middle.edges.contains(edge)
                    == a.edges.contains(edge) by {
                    parts_hold_each_edge_once(
                        graph,
                        sizing,
                        gpu_rounds::side_of(round),
                        edge,
                    );
                    if before.contains(edge) {
                        let part = choose|part: int|
                            0 <= part < end - 1 && #[trigger] machine.part_list(
                                round,
                                part,
                                a.edges,
                            ).contains(edge);
                        assert(machine.bound(
                            Binding::Part(gpu_rounds::side_of(round), part as u64),
                        ).contains(edge));
                        assert(machine.bound(
                            Binding::Part(gpu_rounds::side_of(round), (end - 1) as u64),
                        ).contains(edge));
                    }
                }
            }
            assert(b.edges =~= a.edges.difference(unmatched(graph, after, a.nodes, side)));
        }
    }
}

impl Device {
    /// Whether the buffers are those of a round: four arenas, and no overflow
    /// words but theirs and that of the dead edges.
    pub open spec fn formed(self) -> bool {
        &&& self.arenas.len() == 4
        &&& !self.overflowed.contains(Buffer::Edges)
        &&& !self.overflowed.contains(Buffer::Nodes)
        &&& !self.overflowed.contains(Buffer::Backup)
    }
}

/// Whatever runs on the device, its buffers stay those of a round.
pub proof fn lemma_buffers_stay_formed(
    machine: Machine,
    commands: Seq<Command>,
    a: Device,
    b: Device,
)
    requires
        a.formed(),
        machine.runs(commands, a, b),
    ensures
        b.formed(),
    decreases commands.len(),
{
    if commands.len() == 0 {
        assert(commands =~= Seq::empty());
        empty_run(machine, a, b);
    } else {
        assert(commands =~= commands.drop_last().push(commands.last()));
        let middle = last_step(machine, commands.drop_last(), commands.last(), a, b);
        lemma_buffers_stay_formed(machine, commands.drop_last(), a, middle);
    }
}

proof fn mark_start_run(graph: Graph, sizing: SleanSizing, a: Device, b: Device)
    requires
        cuts(sizing, graph),
        a.formed(),
        Machine::in_parts(graph, sizing).runs(gpu_rounds::mark_start(sizing), a, b),
    ensures
        b.edges == a.edges,
        b.nodes == Set::<u32>::empty(),
        b.arenas.len() == 4,
        b.fitted(),
{
    let machine = Machine::in_parts(graph, sizing);
    let one = Command::Clear(Buffer::Nodes);
    let bytes = (sizing.count_bytes() + 4) as u64;
    let clearing = gpu_rounds::clear_arenas(bytes);
    let last = Command::ClearBytes(Buffer::Dead, (sizing.dead_count_bytes() + 4) as u64);
    assert(gpu_rounds::mark_start(sizing) =~= (seq![one] + clearing).push(last));
    let z = last_step(machine, seq![one] + clearing, last, a, b);
    let y = split_run(machine, seq![one], clearing, a, z);
    single_step(machine, one, a, y);
    clear_arenas_run(machine, bytes, y, z);
    assert forall|buffer: Buffer| !b.overflowed.contains(buffer) by {
        match buffer {
            Buffer::Scratch => {
                assert(!z.overflowed.contains(arena_buffer(0)));
            },
            Buffer::Second => {
                assert(!z.overflowed.contains(arena_buffer(1)));
            },
            Buffer::Third => {
                assert(!z.overflowed.contains(arena_buffer(2)));
            },
            Buffer::Fourth => {
                assert(!z.overflowed.contains(arena_buffer(3)));
            },
            _ => {},
        }
    }
    assert(b.overflowed =~= Set::empty());
}

/// The parts together list the living edges.
proof fn parts_list_everything(graph: Graph, sizing: SleanSizing, round: u32, edges: Set<u64>)
    requires
        cuts(sizing, graph),
        edges.subset_of(cpu_lean::all_edges(graph)),
        round == 0 ==> edges == cpu_lean::all_edges(graph),
    ensures
        first_parts(Machine::in_parts(graph, sizing), round, edges, sizing.parts as int) == edges,
{
    let machine = Machine::in_parts(graph, sizing);
    let side = gpu_rounds::side_of(round);
    let all = first_parts(machine, round, edges, sizing.parts as int);
    assert forall|edge: u64| all.contains(edge) <==> edges.contains(edge) by {
        parts_hold_each_edge_once(graph, sizing, side, edge);
        if all.contains(edge) {
            let part = choose|part: int|
                0 <= part < sizing.parts && #[trigger] machine.part_list(
                    round,
                    part,
                    edges,
                ).contains(edge);
            assert(machine.bound(Binding::Part(side, part as u64)).contains(edge));
        }
        if edges.contains(edge) {
            let home = edge as int / sizing.part_edges as int;
            assert(cpu_lean::all_edges(graph).contains(edge));
            assert(machine.bound(Binding::Part(side, home as u64)).contains(edge));
            assert(machine.part_list(round, home, edges).contains(edge));
        }
    }
    assert(all =~= edges);
}

proof fn fitted_round_in_parts(
    graph: Graph,
    sizing: SleanSizing,
    round: u32,
    a: Device,
    b: Device,
    c: Device,
)
    requires
        cuts(sizing, graph),
        a.formed(),
        a.edges.subset_of(cpu_lean::all_edges(graph)),
        round == 0 ==> a.edges == cpu_lean::all_edges(graph),
        Machine::in_parts(graph, sizing).runs(gpu_rounds::slean_mark(round, sizing), a, b),
        Machine::in_parts(graph, sizing).runs(gpu_rounds::slean_trim(round, sizing), b, c),
    ensures
        c.backup == a.edges,
        c.fitted() ==> c.edges == cpu_lean::trimmed_once(graph, a.edges, round as int % 2),
{
    let machine = Machine::in_parts(graph, sizing);
    let side = round as int % 2;
    let n = sizing.parts as int;
    let start = gpu_rounds::mark_start(sizing);
    let parts = gpu_rounds::mark_parts(round, sizing, n);
    assert(gpu_rounds::slean_mark(round, sizing) =~= (start + parts).push(Command::Submit));
    let b1 = last_step(machine, start + parts, Command::Submit, a, b);
    let b0 = split_run(machine, start, parts, a, b1);
    mark_start_run(graph, sizing, a, b0);
    mark_parts_run(graph, sizing, round, n, b0, b1);

    let last = gpu_rounds::trim_last_part(round, sizing);
    let earlier = gpu_rounds::trim_parts(round, sizing, n - 1);
    assert(gpu_rounds::slean_trim(round, sizing) =~= (last + earlier).push(Command::Submit));
    let c1 = last_step(machine, last + earlier, Command::Submit, b, c);
    let c0 = split_run(machine, last, earlier, b, c1);
    trim_last_run(graph, sizing, round, b, c0);
    trim_parts_run(graph, sizing, round, n - 1, c0, c1);

    if c.fitted() {
        assert(c0.overflowed =~= Set::empty());
        assert(b.overflowed =~= Set::empty());
        let edges = a.edges;
        let final_part = machine.part_list(round, n - 1, edges);
        let first = first_parts(machine, round, edges, n - 1);
        let all = first_parts(machine, round, edges, n);
        parts_list_everything(graph, sizing, round, edges);
        assert forall|edge: u64| all.contains(edge) <==> first.contains(edge)
            || final_part.contains(edge) by {
            if first.contains(edge) {
                let part = choose|part: int|
                    0 <= part < n - 1 && #[trigger] machine.part_list(
                        round,
                        part,
                        edges,
                    ).contains(edge);
                assert(machine.part_list(round, part, edges).contains(edge));
            }
            if final_part.contains(edge) {
                assert(machine.part_list(round, n - 1, edges).contains(edge));
            }
        }
        assert(c0.nodes =~= nodes_of(graph, edges, side)) by {
            assert(nodes_of(graph, edges, side) =~= nodes_of(graph, first, side).union(
                nodes_of(graph, final_part, side),
            ));
        }
        let again = first_parts(machine, round, c0.edges, n - 1);
        assert forall|edge: u64| again.contains(edge) <==> first.contains(edge) by {
            parts_hold_each_edge_once(graph, sizing, gpu_rounds::side_of(round), edge);
            if again.contains(edge) {
                let part = choose|part: int|
                    0 <= part < n - 1 && #[trigger] machine.part_list(
                        round,
                        part,
                        c0.edges,
                    ).contains(edge);
                assert(machine.part_list(round, part, edges).contains(edge));
            }
            if first.contains(edge) {
                let part = choose|part: int|
                    0 <= part < n - 1 && #[trigger] machine.part_list(
                        round,
                        part,
                        edges,
                    ).contains(edge);
                assert(machine.bound(
                    Binding::Part(gpu_rounds::side_of(round), part as u64),
                ).contains(edge));
                assert(!machine.bound(
                    Binding::Part(gpu_rounds::side_of(round), (n - 1) as u64),
                ).contains(edge));
                assert(!final_part.contains(edge));
                assert(machine.part_list(round, part, c0.edges).contains(edge));
            }
        }
        assert(again =~= first);
        assert(c.edges =~= edges.difference(
            unmatched(graph, edges, nodes_of(graph, edges, side), side),
        ));
        lemma_unmatched_edges_are_trimmed(graph, edges, side);
    }
}

/// A round in parts trims its side, whether or not every edge found room: where
/// one did not, the round is run again on the saved edges.
pub proof fn lemma_round_in_parts_trims(
    graph: Graph,
    sizing: SleanSizing,
    round: u32,
    groups: u32,
    overflow: u32,
    a: Device,
    b: Device,
    c: Device,
    d: Device,
)
    requires
        cuts(sizing, graph),
        a.formed(),
        a.edges.subset_of(cpu_lean::all_edges(graph)),
        round == 0 ==> a.edges == cpu_lean::all_edges(graph),
        Machine::in_parts(graph, sizing).runs(gpu_rounds::slean_mark(round, sizing), a, b),
        Machine::in_parts(graph, sizing).runs(gpu_rounds::slean_trim(round, sizing), b, c),
        overflow == 0 <==> c.fitted(),
        Machine::in_parts(graph, sizing).runs(
            gpu_rounds::slean_finish(round, groups, overflow),
            c,
            d,
        ),
    ensures
        d.edges == cpu_lean::trimmed_once(graph, a.edges, round as int % 2),
{
    let machine = Machine::in_parts(graph, sizing);
    fitted_round_in_parts(graph, sizing, round, a, b, c);
    if overflow == 0 {
        empty_run(machine, c, d);
    } else {
        let one = Command::Copy(Buffer::Backup, Buffer::Edges);
        let direct = gpu_rounds::lean_round(round, groups);
        assert(gpu_rounds::slean_finish(round, groups, overflow) =~= (seq![one] + direct).push(
            Command::Submit,
        ));
        let z = last_step(machine, seq![one] + direct, Command::Submit, c, d);
        let y = split_run(machine, seq![one], direct, c, z);
        single_step(machine, one, c, y);
        lemma_lean_round_trims(machine, round, groups, y, z);
    }
}

impl Machine {
    /// The machine that runs bucketed rounds.
    pub open spec fn in_chunks(graph: Graph, chunk_edges: u64, layout: BucketLayout) -> Machine {
        Machine {
            graph,
            slice: chunk_edges,
            overflow_at: (layout.overflow_word * 4) as u64,
            dead_overflow_at: 0,
        }
    }

    /// The edges that are listed for the first chunks.
    pub open spec fn first_chunks(
        self,
        scatter: Kernel,
        side: u32,
        edges: Set<u64>,
        end: int,
    ) -> Set<u64> {
        Set::new(
            |edge: u64|
                exists|chunk: int|
                    0 <= chunk < end && #[trigger] self.to_list(
                        scatter,
                        Binding::Chunk(side, chunk as u64),
                        edges,
                    ).contains(edge),
        )
    }
}

/// Whether a graph is cut into the given number of chunks.
pub open spec fn cuts_chunks(graph: Graph, chunk_edges: u64, layout: BucketLayout, chunks: u64) -> bool {
    &&& graph.edge_bits <= 32
    &&& layout.separates()
    &&& chunk_edges > 0
    &&& bits::ceil_div(graph.edge_count() as int, chunk_edges as int) == chunks
}

/// Whether an entry point lists the edges of a chunk.
pub open spec fn lists_chunks(kernel: Kernel) -> bool {
    match kernel {
        Kernel::BucketScatterDenseStaged
        | Kernel::BucketScatterAlive
        | Kernel::BucketScatterDensePairsStaged
        | Kernel::BucketScatterAlivePairs => true,
        _ => false,
    }
}

/// The listed edges of the first buckets.
spec fn of_first_buckets(machine: Machine, listed: Set<u64>, side: u32, end: int) -> Set<u64> {
    Set::new(
        |edge: u64| listed.contains(edge) && machine.bucket(edge, side as int) < end,
    )
}

proof fn buckets_mark_run(machine: Machine, side: u32, end: int, a: Device, b: Device)
    requires
        machine.graph.edge_bits <= 32,
        0 <= end <= BUCKETED_MARK_BUCKETS,
        machine.runs(gpu_rounds::for_buckets(Kernel::BucketMark, side, end), a, b),
    ensures
        b == (Device {
            nodes: a.nodes.union(
                nodes_of(
                    machine.graph,
                    of_first_buckets(machine, a.arenas[0], side, end),
                    side as int,
                ),
            ),
            ..a
        }),
    decreases end,
{
    let graph = machine.graph;
    let kernel = Kernel::BucketMark;
    let marked = of_first_buckets(machine, a.arenas[0], side, end);
    if end == 0 {
        assert(gpu_rounds::for_buckets(kernel, side, end) =~= Seq::empty());
        empty_run(machine, a, b);
        assert forall|edge: u64| !marked.contains(edge) by {
            bucket_bound(machine, side, edge);
        }
        assert(nodes_of(graph, marked, side as int) =~= Set::empty());
        assert(a.nodes.union(Set::empty()) =~= a.nodes);
    } else {
        let bucket = (end - 1) as u32;
        let run = Command::Run(kernel, Binding::Bucket(side, bucket), gpu_wgpu::DISPATCH_GROUPS);
        assert(gpu_rounds::for_buckets(kernel, side, end) =~= gpu_rounds::for_buckets(
            kernel,
            side,
            end - 1,
        ).push(run));
        let middle = last_step(
            machine,
            gpu_rounds::for_buckets(kernel, side, end - 1),
            run,
            a,
            b,
        );
        buckets_mark_run(machine, side, end - 1, a, middle);
        let before = of_first_buckets(machine, a.arenas[0], side, end - 1);
        let new = machine.of_bucket(a.arenas[0], side, bucket);
        assert(marked =~= before.union(new));
        nodes_of_union(graph, before, new, side as int);
        assert(b.nodes =~= a.nodes.union(nodes_of(graph, marked, side as int)));
    }
}

proof fn bucket_bound(machine: Machine, side: u32, edge: u64)
    requires
        machine.graph.edge_bits <= 32,
    ensures
        0 <= machine.bucket(edge, side as int) < BUCKETED_MARK_BUCKETS,
{
    let graph = machine.graph;
    crate::siphash::lemma_node_bound(graph.keys, graph.edge_bits, edge, side as int);
    let node = graph.node(edge, side as int) as int;
    let count = graph.edge_count() as int;
    assert(0 <= node * 64 / count < 64) by (nonlinear_arith)
        requires
            0 <= node < count,
    ;
}

proof fn buckets_trim_run(machine: Machine, side: u32, end: int, a: Device, b: Device)
    requires
        machine.graph.edge_bits <= 32,
        0 <= end <= BUCKETED_MARK_BUCKETS,
        machine.runs(gpu_rounds::for_buckets(Kernel::BucketTrimPairs, side, end), a, b),
    ensures
        b == (Device {
            edges: a.edges.difference(
                unmatched(
                    machine.graph,
                    of_first_buckets(machine, a.arenas[0], side, end),
                    a.nodes,
                    side as int,
                ),
            ),
            ..a
        }),
    decreases end,
{
    let graph = machine.graph;
    let kernel = Kernel::BucketTrimPairs;
    let done = of_first_buckets(machine, a.arenas[0], side, end);
    if end == 0 {
        assert(gpu_rounds::for_buckets(kernel, side, end) =~= Seq::empty());
        empty_run(machine, a, b);
        assert forall|edge: u64| !done.contains(edge) by {
            bucket_bound(machine, side, edge);
        }
        assert(a.edges.difference(unmatched(graph, done, a.nodes, side as int)) =~= a.edges);
    } else {
        let bucket = (end - 1) as u32;
        let run = Command::Run(kernel, Binding::Bucket(side, bucket), gpu_wgpu::DISPATCH_GROUPS);
        assert(gpu_rounds::for_buckets(kernel, side, end) =~= gpu_rounds::for_buckets(
            kernel,
            side,
            end - 1,
        ).push(run));
        let middle = last_step(
            machine,
            gpu_rounds::for_buckets(kernel, side, end - 1),
            run,
            a,
            b,
        );
        buckets_trim_run(machine, side, end - 1, a, middle);
        let before = of_first_buckets(machine, a.arenas[0], side, end - 1);
        let new = machine.of_bucket(a.arenas[0], side, bucket);
        assert(done =~= before.union(new));
        assert(b.edges =~= a.edges.difference(unmatched(graph, done, a.nodes, side as int)));
    }
}

proof fn all_buckets(machine: Machine, listed: Set<u64>, side: u32)
    requires
        machine.graph.edge_bits <= 32,
    ensures
        of_first_buckets(machine, listed, side, BUCKETED_MARK_BUCKETS as int) == listed,
{
    assert forall|edge: u64| listed.contains(edge) implies machine.bucket(edge, side as int)
        < BUCKETED_MARK_BUCKETS by {
        bucket_bound(machine, side, edge);
    }
    assert(of_first_buckets(machine, listed, side, BUCKETED_MARK_BUCKETS as int) =~= listed);
}

/// What happens to a chunk, up to the run through the buckets.
proof fn chunk_run(
    graph: Graph,
    chunk_edges: u64,
    layout: BucketLayout,
    scatter: Kernel,
    through: Kernel,
    side: u32,
    chunk: int,
    a: Device,
    b: Device,
) -> (listed: Device)
    requires
        graph.edge_bits <= 32,
        layout.separates(),
        lists_chunks(scatter),
        a.arenas.len() == 4,
        Machine::in_chunks(graph, chunk_edges, layout).runs(
            gpu_rounds::chunk_commands(scatter, through, side, chunk),
            a,
            b,
        ),
    ensures
        listed == (Device { arenas: listed.arenas, overflowed: listed.overflowed, ..a }),
        listed.arenas.len() == 4,
        a.overflowed.subset_of(listed.overflowed),
        listed.fitted() ==> listed.arenas[0] == Machine::in_chunks(
            graph,
            chunk_edges,
            layout,
        ).to_list(scatter, Binding::Chunk(side, chunk as u64), a.edges),
        Machine::in_chunks(graph, chunk_edges, layout).runs(
            gpu_rounds::for_buckets(through, side, BUCKETED_MARK_BUCKETS as int),
            listed,
            b,
        ),
{
    let machine = Machine::in_chunks(graph, chunk_edges, layout);
    let one = Command::ClearBytes(Buffer::Scratch, gpu_rounds::BUCKET_COUNT_BYTES);
    let two = Command::Run(
        scatter,
        Binding::Chunk(side, chunk as u64),
        gpu_wgpu::DISPATCH_GROUPS,
    );
    let buckets = gpu_rounds::for_buckets(through, side, BUCKETED_MARK_BUCKETS as int);
    let start = seq![one, two];
    assert(gpu_rounds::chunk_commands(scatter, through, side, chunk) =~= (start + buckets).push(
        Command::Submit,
    ).push(Command::Poll));
    let z = last_step(
        machine,
        (start + buckets).push(Command::Submit),
        Command::Poll,
        a,
        b,
    );
    let y = last_step(machine, start + buckets, Command::Submit, a, z);
    let listed = split_run(machine, start, buckets, a, y);
    assert(start =~= seq![one].push(two));
    let cleared = last_step(machine, seq![one], two, a, listed);
    single_step(machine, one, a, cleared);
    let new = machine.to_list(scatter, Binding::Chunk(side, chunk as u64), a.edges);
    assert(Set::<u64>::empty().union(new) =~= new);
    listed
}

proof fn first_chunks_grow(
    machine: Machine,
    scatter: Kernel,
    side: u32,
    edges: Set<u64>,
    end: int,
)
    requires
        end > 0,
    ensures
        machine.first_chunks(scatter, side, edges, end) == machine.first_chunks(
            scatter,
            side,
            edges,
            end - 1,
        ).union(machine.to_list(scatter, Binding::Chunk(side, (end - 1) as u64), edges)),
{
    let before = machine.first_chunks(scatter, side, edges, end - 1);
    let new = machine.to_list(scatter, Binding::Chunk(side, (end - 1) as u64), edges);
    let after = machine.first_chunks(scatter, side, edges, end);
    assert forall|edge: u64| after.contains(edge) <==> before.union(new).contains(edge) by {
        if before.contains(edge) {
            let chunk = choose|chunk: int|
                0 <= chunk < end - 1 && #[trigger] machine.to_list(
                    scatter,
                    Binding::Chunk(side, chunk as u64),
                    edges,
                ).contains(edge);
            assert(machine.to_list(scatter, Binding::Chunk(side, chunk as u64), edges).contains(
                edge,
            ));
        }
        if new.contains(edge) {
            assert(machine.to_list(
                scatter,
                Binding::Chunk(side, (end - 1) as u64),
                edges,
            ).contains(edge));
        }
    }
    assert(after =~= before.union(new));
}

proof fn chunks_mark_run(
    graph: Graph,
    chunk_edges: u64,
    layout: BucketLayout,
    scatter: Kernel,
    side: u32,
    end: int,
    a: Device,
    b: Device,
)
    requires
        graph.edge_bits <= 32,
        layout.separates(),
        lists_chunks(scatter),
        0 <= end,
        a.arenas.len() == 4,
        Machine::in_chunks(graph, chunk_edges, layout).runs(
            gpu_rounds::chunks_commands(scatter, Kernel::BucketMark, side, end),
            a,
            b,
        ),
    ensures
        b.edges == a.edges,
        b.arenas.len() == 4,
        a.overflowed.subset_of(b.overflowed),
        b.fitted() ==> b.nodes == a.nodes.union(
            nodes_of(
                graph,
                Machine::in_chunks(graph, chunk_edges, layout).first_chunks(
                    scatter,
                    side,
                    a.edges,
                    end,
                ),
                side as int,
            ),
        ),
    decreases end,
{
    let machine = Machine::in_chunks(graph, chunk_edges, layout);
    let after = machine.first_chunks(scatter, side, a.edges, end);
    if end == 0 {
        empty_run(machine, a, b);
        assert(nodes_of(graph, after, side as int) =~= Set::empty());
        assert(a.nodes.union(Set::empty()) =~= a.nodes);
    } else {
        let through = Kernel::BucketMark;
        let middle = split_run(
            machine,
            gpu_rounds::chunks_commands(scatter, through, side, end - 1),
            gpu_rounds::chunk_commands(scatter, through, side, end - 1),
            a,
            b,
        );
        chunks_mark_run(graph, chunk_edges, layout, scatter, side, end - 1, a, middle);
        let listed = chunk_run(
            graph,
            chunk_edges,
            layout,
            scatter,
            through,
            side,
            end - 1,
            middle,
            b,
        );
        buckets_mark_run(machine, side, BUCKETED_MARK_BUCKETS as int, listed, b);
        if b.fitted() {
            assert(middle.overflowed =~= Set::empty());
            all_buckets(machine, listed.arenas[0], side);
            first_chunks_grow(machine, scatter, side, a.edges, end);
            nodes_of_union(
                graph,
                machine.first_chunks(scatter, side, a.edges, end - 1),
                listed.arenas[0],
                side as int,
            );
            assert(b.nodes =~= a.nodes.union(nodes_of(graph, after, side as int)));
        }
    }
}

/// Each edge lies in exactly one chunk.
proof fn chunks_hold_each_edge_once(
    graph: Graph,
    chunk_edges: u64,
    layout: BucketLayout,
    chunks: u64,
    side: u32,
    edge: u64,
)
    requires
        cuts_chunks(graph, chunk_edges, layout, chunks),
    ensures
        forall|chunk: int|
            0 <= chunk < chunks ==> (#[trigger] Machine::in_chunks(
                graph,
                chunk_edges,
                layout,
            ).bound(Binding::Chunk(side, chunk as u64)).contains(edge) <==> chunk == edge as int
                / (chunk_edges as int) && edge < graph.edge_count()),
        edge < graph.edge_count() ==> 0 <= (edge as int / (chunk_edges as int)) < chunks,
{
    let machine = Machine::in_chunks(graph, chunk_edges, layout);
    let total = graph.edge_count() as int;
    let size = chunk_edges as int;
    bits::lemma_pow2_fits(graph.edge_bits as nat);
    bits::lemma_ceil_div(total, size);
    let ranges = gpu_wgpu::edge_ranges(total, size);
    if edge < total {
        gpu_wgpu::lemma_ranges_partition(total as u64, chunk_edges, edge);
    }
    assert forall|chunk: int| 0 <= chunk < chunks implies (#[trigger] machine.bound(
        Binding::Chunk(side, chunk as u64),
    ).contains(edge) <==> chunk == edge as int / size && edge < total) by {
        assert(chunk * size < total);
        assert(chunk * size >= 0) by (nonlinear_arith)
            requires
                chunk >= 0,
                size > 0,
        ;
        assert(ranges[chunk] == gpu_wgpu::range_at(total, size, chunk));
        assert(machine.bound(Binding::Chunk(side, chunk as u64)).contains(edge)
            <==> ranges[chunk].base <= edge < ranges[chunk].base + ranges[chunk].count);
    }
}

proof fn chunks_trim_run(
    graph: Graph,
    chunk_edges: u64,
    layout: BucketLayout,
    chunks: u64,
    scatter: Kernel,
    side: u32,
    end: int,
    a: Device,
    b: Device,
)
    requires
        cuts_chunks(graph, chunk_edges, layout, chunks),
        lists_chunks(scatter),
        0 <= end <= chunks,
        a.arenas.len() == 4,
        Machine::in_chunks(graph, chunk_edges, layout).runs(
            gpu_rounds::chunks_commands(scatter, Kernel::BucketTrimPairs, side, end),
            a,
            b,
        ),
    ensures
        b.nodes == a.nodes,
        b.arenas.len() == 4,
        a.overflowed.subset_of(b.overflowed),
        b.fitted() ==> b.edges == a.edges.difference(
            unmatched(
                graph,
                Machine::in_chunks(graph, chunk_edges, layout).first_chunks(
                    scatter,
                    side,
                    a.edges,
                    end,
                ),
                a.nodes,
                side as int,
            ),
        ),
    decreases end,
{
    let machine = Machine::in_chunks(graph, chunk_edges, layout);
    let after = machine.first_chunks(scatter, side, a.edges, end);
    if end == 0 {
        empty_run(machine, a, b);
        assert(b.edges =~= a.edges.difference(unmatched(graph, after, a.nodes, side as int)));
    } else {
        let through = Kernel::BucketTrimPairs;
        let middle = split_run(
            machine,
            gpu_rounds::chunks_commands(scatter, through, side, end - 1),
            gpu_rounds::chunk_commands(scatter, through, side, end - 1),
            a,
            b,
        );
        chunks_trim_run(graph, chunk_edges, layout, chunks, scatter, side, end - 1, a, middle);
        let listed = chunk_run(
            graph,
            chunk_edges,
            layout,
            scatter,
            through,
            side,
            end - 1,
            middle,
            b,
        );
        buckets_trim_run(machine, side, BUCKETED_MARK_BUCKETS as int, listed, b);
        if b.fitted() {
            assert(middle.overflowed =~= Set::empty());
            all_buckets(machine, listed.arenas[0], side);
            first_chunks_grow(machine, scatter, side, a.edges, end);
            let before = machine.first_chunks(scatter, side, a.edges, end - 1);
            let here = Binding::Chunk(side, (end - 1) as u64);
            let new = machine.to_list(scatter, here, a.edges);
            assert(machine.to_list(scatter, here, middle.edges) =~= new) by {
                assert forall|edge: u64| new.contains(edge) implies middle.edges.contains(edge)
                    == a.edges.contains(edge) by {
                    chunks_hold_each_edge_once(graph, chunk_edges, layout, chunks, side, edge);
                    if before.contains(edge) {
                        let chunk = choose|chunk: int|
                            0 <= chunk < end - 1 && #[trigger] machine.to_list(
                                scatter,
                                Binding::Chunk(side, chunk as u64),
                                a.edges,
                            ).contains(edge);
                        assert(machine.bound(Binding::Chunk(side, chunk as u64)).contains(edge));
                        assert(machine.bound(here).contains(edge));
                    }
                }
            }
            assert(b.edges =~= a.edges.difference(unmatched(graph, after, a.nodes, side as int)));
        }
    }
}

/// The chunks together list the living edges.
proof fn chunks_list_everything(
    graph: Graph,
    chunk_edges: u64,
    layout: BucketLayout,
    chunks: u64,
    scatter: Kernel,
    side: u32,
    edges: Set<u64>,
)
    requires
        cuts_chunks(graph, chunk_edges, layout, chunks),
        lists_chunks(scatter),
        edges.subset_of(cpu_lean::all_edges(graph)),
        scatter == Kernel::BucketScatterAlive || scatter == Kernel::BucketScatterAlivePairs || edges
            == cpu_lean::all_edges(graph),
    ensures
        Machine::in_chunks(graph, chunk_edges, layout).first_chunks(
            scatter,
            side,
            edges,
            chunks as int,
        ) == edges,
{
    let machine = Machine::in_chunks(graph, chunk_edges, layout);
    let all = machine.first_chunks(scatter, side, edges, chunks as int);
    assert forall|edge: u64| all.contains(edge) <==> edges.contains(edge) by {
        chunks_hold_each_edge_once(graph, chunk_edges, layout, chunks, side, edge);
        if all.contains(edge) {
            let chunk = choose|chunk: int|
                0 <= chunk < chunks && #[trigger] machine.to_list(
                    scatter,
                    Binding::Chunk(side, chunk as u64),
                    edges,
                ).contains(edge);
            assert(machine.bound(Binding::Chunk(side, chunk as u64)).contains(edge));
        }
        if edges.contains(edge) {
            let home = edge as int / (chunk_edges as int);
            assert(cpu_lean::all_edges(graph).contains(edge));
            assert(machine.bound(Binding::Chunk(side, home as u64)).contains(edge));
            assert(machine.to_list(scatter, Binding::Chunk(side, home as u64), edges).contains(
                edge,
            ));
        }
    }
    assert(all =~= edges);
}

/// A bucketed round in which every edge found room trims its side.
pub proof fn lemma_bucketed_round_trims(
    graph: Graph,
    chunk_edges: u64,
    layout: BucketLayout,
    chunks: u64,
    round: u32,
    a: Device,
    b: Device,
    c: Device,
)
    requires
        cuts_chunks(graph, chunk_edges, layout, chunks),
        a.formed(),
        a.edges.subset_of(cpu_lean::all_edges(graph)),
        round == 0 ==> a.edges == cpu_lean::all_edges(graph),
        Machine::in_chunks(graph, chunk_edges, layout).runs(
            gpu_rounds::bucket_mark(round, layout.header_words, chunks),
            a,
            b,
        ),
        Machine::in_chunks(graph, chunk_edges, layout).runs(
            gpu_rounds::bucket_trim(round, chunks),
            b,
            c,
        ),
        c.fitted(),
    ensures
        c.edges == cpu_lean::trimmed_once(graph, a.edges, round as int % 2),
{
    let machine = Machine::in_chunks(graph, chunk_edges, layout);
    let side = gpu_rounds::side_of(round);
    let one = Command::Clear(Buffer::Nodes);
    let two = Command::ClearBytes(Buffer::Scratch, (layout.header_words * 4) as u64);
    let start = seq![one, two, Command::Submit];
    let chunks_part = gpu_rounds::chunks_commands(
        gpu_rounds::chunk_scatter(round),
        Kernel::BucketMark,
        side,
        chunks as int,
    );
    let cleared = split_run(machine, start, chunks_part, a, b);
    assert(start =~= seq![one, two].push(Command::Submit));
    let y = last_step(machine, seq![one, two], Command::Submit, a, cleared);
    assert(seq![one, two] =~= seq![one].push(two));
    let x = last_step(machine, seq![one], two, a, y);
    single_step(machine, one, a, x);
    chunks_mark_run(
        graph,
        chunk_edges,
        layout,
        gpu_rounds::chunk_scatter(round),
        side,
        chunks as int,
        cleared,
        b,
    );
    chunks_trim_run(
        graph,
        chunk_edges,
        layout,
        chunks,
        gpu_rounds::chunk_pair_scatter(round),
        side,
        chunks as int,
        b,
        c,
    );
    assert(b.overflowed =~= Set::empty());
    chunks_list_everything(
        graph,
        chunk_edges,
        layout,
        chunks,
        gpu_rounds::chunk_scatter(round),
        side,
        a.edges,
    );
    chunks_list_everything(
        graph,
        chunk_edges,
        layout,
        chunks,
        gpu_rounds::chunk_pair_scatter(round),
        side,
        a.edges,
    );
    assert(b.nodes =~= nodes_of(graph, a.edges, side as int));
    lemma_unmatched_edges_are_trimmed(graph, a.edges, side as int);
}

/// The buffers that were prepared for rounds in parts are meant for the graph
/// that they were asked for.
pub proof fn lemma_prepared_parts_cut_graph(
    config: GpuWgpuConfig,
    limits: AdapterLimits,
    layout: BucketLayout,
    diagnostics: Diagnostics,
    request: GraphParams,
    options: TrimOptions,
    memory: MemoryReadings,
    overflowing: bool,
    setup: TrimSetup,
)
    requires
        config.refusal() is None,
        limits.max_workgroup_storage > 0,
        gpu_wgpu::setup_result(
            config,
            limits,
            layout,
            diagnostics,
            request,
            options,
            memory,
            overflowing,
        ) == Ok::<TrimSetup, (ErrorKind, Seq<char>)>(setup),
        setup.modes.slean,
    ensures
        cuts(setup.sizing, request.graph()),
{
    let graph = GraphSize::of(request.edge_bits);
    gpu_wgpu::lemma_graph_size(request.edge_bits);
    let parts = gpu_wgpu::asked_parts(config, true, memory.first, memory.second);
    let local = gpu_wgpu::local_bytes(config, limits, graph.bitmap_bytes);
    let bucket_count = bits::ceil_div(graph.bitmap_bytes as int, local);
    bits::lemma_ceil_div(graph.bitmap_bytes as int, local);
    gpu_wgpu::lemma_fitted_sizing_fits(
        limits,
        graph.edge_count,
        bucket_count,
        local,
        parts as nat,
        overflowing,
    );
    vstd::arithmetic::power2::lemma2_to64();
    assert(2 == vstd::arithmetic::power2::pow2(1));
    assert(4 == vstd::arithmetic::power2::pow2(2));
    assert(bits::is_power_of_two(parts as nat));
    let sizing = setup.sizing;
    let exponent = choose|exponent: nat|
        sizing.parts as nat == #[trigger] vstd::arithmetic::power2::pow2(exponent);
    if exponent > request.edge_bits {
        vstd::arithmetic::power2::lemma_pow2_strictly_increases(
            request.edge_bits as nat,
            exponent,
        );
    }
    gpu_wgpu::lemma_parts_come_out_even(request.edge_bits as nat, exponent);
    let part_edges = bits::ceil_div(graph.edge_count as int, sizing.parts as int);
    bits::lemma_ceil_div(graph.edge_count as int, sizing.parts as int);
    assert(0 < part_edges <= graph.edge_count) by (nonlinear_arith)
        requires
            part_edges * sizing.parts == graph.edge_count,
            part_edges > 0,
            sizing.parts >= 1,
    ;
    let eighth = bits::ceil_div(part_edges, 8);
    bits::lemma_ceil_div(part_edges, 8);
    bits::lemma_ceil_div(eighth, local);
    let raw = bits::ceil_div(eighth, local);
    assert(raw <= eighth) by (nonlinear_arith)
        requires
            local >= 1,
            raw == (eighth + local - 1) / local,
            eighth >= 0,
    ;
}

/// The edges that are left once a plan has been followed from a round on, where
/// each of its actions runs its rounds.
pub open spec fn plan_result(
    plan: RoundPlan,
    graph: Graph,
    alive: Set<u64>,
    round: u32,
) -> Set<u64>
    decreases plan.rounds - round,
{
    let next = plan.done_after(plan.action(round));
    if round >= plan.rounds || next <= round || next > plan.rounds {
        alive
    } else {
        plan_result(
            plan,
            graph,
            every_round(graph, alive, round as nat, next as nat),
            next as u32,
        )
    }
}

/// However its rounds are bundled, a plan runs every round once.
pub proof fn lemma_plan_runs_every_round(
    plan: RoundPlan,
    graph: Graph,
    alive: Set<u64>,
    round: u32,
)
    requires
        round <= plan.rounds,
    ensures
        plan_result(plan, graph, alive, round) == every_round(
            graph,
            alive,
            round as nat,
            plan.rounds as nat,
        ),
    decreases plan.rounds - round,
{
    if round < plan.rounds {
        gpu_rounds::lemma_rounds_advance(plan, round);
        let next = plan.done_after(plan.action(round)) as u32;
        let after = every_round(graph, alive, round as nat, next as nat);
        lemma_plan_runs_every_round(plan, graph, after, next);
        lemma_rounds_compose(graph, alive, round as nat, next as nat, plan.rounds as nat);
    }
}

} // verus!
