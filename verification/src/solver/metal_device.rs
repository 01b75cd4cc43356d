//! A model of the native device: what its kernels do to the buffers, and that
//! the kernels of a trim trim the graph.
//!
//! A buffer of edges or nodes is a set here.  An arena keeps its edges in
//! buckets by their nodes on one side, so a kernel that looks for mates needs
//! an arena of its own side.  Where an arena was too small the overflow word is
//! set, and nothing is said of what the arena holds.

use crate::bits;
use crate::graph::Graph;
use crate::siphash::SipKeys;
use crate::solver::cpu_lean;
use crate::solver::device;
use crate::solver::gpu_metal::{
    self, Arena, ArenaRounds, Dispatch, EndpointParams, MetalKernel, MetalLayout, THREADS,
};
use vstd::arithmetic::power2;
use vstd::prelude::*;

verus! {

/// The buffers of the device.
pub struct MetalDevice {
    pub edges: Set<u64>,
    pub nodes: Set<u32>,
    pub source: Set<u64>,
    pub source_side: int,
    pub destination: Set<u64>,
    pub destination_side: int,
    pub dead: Set<u64>,
    pub survivors: Set<u64>,
    pub overflow: bool,
}

impl MetalDevice {
    /// The edges that an arena lists.
    pub open spec fn listed(self, arena: Arena) -> Set<u64> {
        match arena {
            Arena::Source => self.source,
            Arena::Destination => self.destination,
        }
    }

    /// The side by which an arena is bucketed.
    pub open spec fn side(self, arena: Arena) -> int {
        match arena {
            Arena::Source => self.source_side,
            Arena::Destination => self.destination_side,
        }
    }

    /// The same buffers with another arena.
    pub open spec fn with_arena(self, arena: Arena, edges: Set<u64>, side: int) -> MetalDevice {
        match arena {
            Arena::Source => MetalDevice { source: edges, source_side: side, ..self },
            Arena::Destination => MetalDevice {
                destination: edges,
                destination_side: side,
                ..self
            },
        }
    }
}

/// The graph that a kernel works on.
pub open spec fn graph_of(params: EndpointParams) -> Graph {
    Graph {
        keys: SipKeys { k0: params.k0, k1: params.k1, k2: params.k2, k3: params.k3 },
        edge_bits: params.edge_bits as u8,
    }
}

/// The edges that a kernel is told of.
pub open spec fn told(params: EndpointParams) -> Set<u64> {
    Set::new(|edge: u64| params.edge_base <= edge < params.edge_base + params.edge_count)
}

/// The buckets of an arena.
pub open spec fn bucket_count(params: EndpointParams) -> int {
    power2::pow2((params.edge_bits - 18) as nat) as int
}

/// The ranges of dead edges.
pub open spec fn range_count(params: EndpointParams) -> int {
    if params.edge_count as int / gpu_metal::RANGE_EDGES as int >= 1 {
        params.edge_count as int / gpu_metal::RANGE_EDGES as int
    } else {
        1
    }
}

/// Whether a kernel has a thread, or a threadgroup, for all that it has to do,
/// and finds the words that it reads where it looks for them.
pub open spec fn covers(dispatch: Dispatch, a: MetalDevice) -> bool {
    let params = dispatch.params;
    let threads = dispatch.groups * THREADS;
    match dispatch.kernel {
        MetalKernel::ClearNodes => threads * 32 >= power2::pow2(params.edge_bits as nat),
        MetalKernel::ClearCounts(_) => threads >= bucket_count(params),
        MetalKernel::ClearDeadCounts => threads >= range_count(params),
        MetalKernel::SeedAlive(_) => threads * 32 >= params.edge_count && params.edge_base % 32
            == 0,
        MetalKernel::Mark(arena)
        | MetalKernel::TrimToBitmap(arena)
        | MetalKernel::PingPong(arena)
        | MetalKernel::CollectDead(arena) => dispatch.groups == bucket_count(params) && a.side(
            arena,
        ) == params.side,
        MetalKernel::ApplyDead => dispatch.groups == range_count(params),
    }
}

/// The buffers that a kernel writes to: all others stay, and an overflow word
/// that is set stays set.
pub open spec fn frame(kernel: MetalKernel, a: MetalDevice, b: MetalDevice) -> bool {
    &&& a.overflow ==> b.overflow
    &&& b == match kernel {
        MetalKernel::ClearNodes | MetalKernel::Mark(_) => MetalDevice { nodes: b.nodes, ..a },
        MetalKernel::ClearCounts(arena) => a.with_arena(arena, b.listed(arena), b.side(arena)),
        MetalKernel::ClearDeadCounts => MetalDevice { dead: b.dead, ..a },
        MetalKernel::SeedAlive(arena) => (MetalDevice {
            overflow: b.overflow,
            ..a
        }).with_arena(arena, b.listed(arena), b.side(arena)),
        MetalKernel::CollectDead(_) => MetalDevice { overflow: b.overflow, dead: b.dead, ..a },
        MetalKernel::ApplyDead => MetalDevice { edges: b.edges, ..a },
        MetalKernel::TrimToBitmap(_) => MetalDevice { survivors: b.survivors, ..a },
        MetalKernel::PingPong(arena) => (MetalDevice {
            overflow: b.overflow,
            ..a
        }).with_arena(
            arena.opposite(),
            b.listed(arena.opposite()),
            b.side(arena.opposite()),
        ),
    }
}

/// What a kernel writes that covers its work, where everything finds room.
pub open spec fn effect(dispatch: Dispatch, a: MetalDevice, b: MetalDevice) -> bool {
    let params = dispatch.params;
    let graph = graph_of(params);
    let side = params.side as int;
    match dispatch.kernel {
        MetalKernel::ClearNodes => b.nodes == Set::<u32>::empty(),
        MetalKernel::ClearCounts(arena) => b.listed(arena) == Set::<u64>::empty(),
        MetalKernel::ClearDeadCounts => b.dead == Set::<u64>::empty(),
        MetalKernel::SeedAlive(arena) => a.listed(arena) == Set::<u64>::empty() || a.side(arena)
            == side ==> b.listed(arena) == a.listed(arena).union(
            told(params).intersect(a.edges),
        ) && b.side(arena) == side,
        MetalKernel::Mark(arena) => b.nodes == a.nodes.union(
            device::nodes_of(graph, a.listed(arena), side),
        ),
        MetalKernel::CollectDead(arena) => b.dead == a.dead.union(
            device::unmatched(graph, a.listed(arena), a.nodes, side),
        ),
        MetalKernel::ApplyDead => b.edges == a.edges.difference(a.dead),
        MetalKernel::TrimToBitmap(arena) => b.survivors == a.survivors.union(
            a.listed(arena).difference(device::unmatched(graph, a.listed(arena), a.nodes, side)),
        ),
        MetalKernel::PingPong(arena) => {
            let from = a.listed(arena);
            let to = arena.opposite();
            let marked = device::nodes_of(graph, from, side);
            a.listed(to) == Set::<u64>::empty() ==> b.listed(to) == from.difference(
                device::unmatched(graph, from, marked, side),
            ) && b.side(to) == 1 - side
        },
    }
}

/// Whether a state of the device may follow another.
pub open spec fn step(dispatch: Dispatch, a: MetalDevice, b: MetalDevice) -> bool {
    &&& frame(dispatch.kernel, a, b)
    &&& covers(dispatch, a) && !b.overflow ==> effect(dispatch, a, b)
}

/// Whether each state of the device may follow the one before.
pub open spec fn follows(dispatches: Seq<Dispatch>, states: Seq<MetalDevice>) -> bool {
    &&& states.len() == dispatches.len() + 1
    &&& forall|i: int|
        0 <= i < dispatches.len() ==> step(#[trigger] dispatches[i], states[i], states[i + 1])
}

/// Whether kernels, run one after the other, can lead from one state of the
/// device to another.
pub open spec fn runs(dispatches: Seq<Dispatch>, a: MetalDevice, b: MetalDevice) -> bool {
    exists|states: Seq<MetalDevice>| #[trigger]
        follows(dispatches, states) && states.first() == a && states.last() == b
}

proof fn split_run(
    first: Seq<Dispatch>,
    second: Seq<Dispatch>,
    a: MetalDevice,
    b: MetalDevice,
) -> (middle: MetalDevice)
    requires
        runs(first + second, a, b),
    ensures
        runs(first, a, middle),
        runs(second, middle, b),
{
    let all = first + second;
    let states = choose|states: Seq<MetalDevice>| #[trigger]
        follows(all, states) && states.first() == a && states.last() == b;
    let n = first.len() as int;
    let early = states.take(n + 1);
    let late = states.skip(n);
    assert(follows(first, early)) by {
        assert forall|i: int| 0 <= i < first.len() implies step(
            #[trigger] first[i],
            early[i],
            early[i + 1],
        ) by {
            assert(all[i] == first[i]);
        }
    }
    assert(follows(second, late)) by {
        assert forall|i: int| 0 <= i < second.len() implies step(
            #[trigger] second[i],
            late[i],
            late[i + 1],
        ) by {
            assert(all[n + i] == second[i]);
        }
    }
    assert(early.first() == a && late.last() == b && early.last() == states[n] && late.first()
        == states[n]);
    states[n]
}

proof fn single_step(dispatch: Dispatch, a: MetalDevice, b: MetalDevice)
    requires
        runs(seq![dispatch], a, b),
    ensures
        step(dispatch, a, b),
{
    let states = choose|states: Seq<MetalDevice>| #[trigger]
        follows(seq![dispatch], states) && states.first() == a && states.last() == b;
    assert(seq![dispatch][0] == dispatch);
}

proof fn last_step(dispatches: Seq<Dispatch>, dispatch: Dispatch, a: MetalDevice, b: MetalDevice)
    -> (middle: MetalDevice)
    requires
        runs(dispatches.push(dispatch), a, b),
    ensures
        runs(dispatches, a, middle),
        step(dispatch, middle, b),
{
    assert(dispatches.push(dispatch) =~= dispatches + seq![dispatch]);
    let middle = split_run(dispatches, seq![dispatch], a, b);
    single_step(dispatch, middle, b);
    middle
}

proof fn empty_run(a: MetalDevice, b: MetalDevice)
    requires
        runs(Seq::empty(), a, b),
    ensures
        a == b,
{
}

/// Whether a layout cuts a graph into parts that kernels can be told of: whole
/// words, and fewer than 2^32 edges.
pub open spec fn aligned(layout: MetalLayout) -> bool {
    &&& layout.valid()
    &&& layout.part_edges % 32 == 0
    &&& 0 < layout.part_edges < 0x1_0000_0000
}

/// The graph of a layout.
pub open spec fn graph_with(layout: MetalLayout, keys: SipKeys) -> Graph {
    Graph { keys, edge_bits: layout.edge_bits }
}

/// The edges of a part.
pub open spec fn part_edges(layout: MetalLayout, part: int) -> Set<u64> {
    Set::new(
        |edge: u64| part * layout.part_edges <= edge < (part + 1) * layout.part_edges,
    )
}

proof fn lemma_parts_come_out_even(layout: MetalLayout)
    requires
        aligned(layout),
    ensures
        layout.parts * layout.part_edges == layout.edge_count,
        layout.edge_count == power2::pow2(layout.edge_bits as nat),
        layout.edge_count <= 0x1_0000_0000,
        layout.word_count * 32 == layout.edge_count,
        layout.buckets == power2::pow2((layout.edge_bits - 18) as nat),
        0 < layout.buckets <= 0x4000,
{
    gpu_metal::lemma_layout_bounds(layout.edge_bits, layout.parts);
    let exponent = choose|exponent: nat| layout.parts as nat == #[trigger] power2::pow2(exponent);
    let bits = layout.edge_bits as nat;
    let edges = power2::pow2(bits) as int;
    let parts = layout.parts as int;
    if exponent > bits {
        power2::lemma_pow2_strictly_increases(bits, exponent);
        assert(edges / parts == 0) by (nonlinear_arith)
            requires
                0 <= edges < parts,
        ;
    }
    let rest = (bits - exponent) as nat;
    power2::lemma_pow2_adds(exponent, rest);
    power2::lemma_pow2_pos(exponent);
    let quotient = power2::pow2(rest) as int;
    assert(quotient * parts == edges) by (nonlinear_arith)
        requires
            edges == parts * quotient,
    ;
    vstd::arithmetic::div_mod::lemma_fundamental_div_mod_converse(edges, parts, quotient, 0);
    assert(parts * quotient == edges) by (nonlinear_arith)
        requires
            quotient * parts == edges,
    ;
    power2::lemma_pow2_adds((layout.edge_bits - 5) as nat, 5);
    power2::lemma2_to64();
}

proof fn lemma_part_facts(
    layout: MetalLayout,
    keys: SipKeys,
    side: u32,
    part: int,
    capacity: u64,
    room: u64,
)
    requires
        aligned(layout),
        0 <= part < layout.parts,
    ensures
        ({
            let params = layout.params(keys, side, part, capacity, room);
            &&& graph_of(params) == graph_with(layout, keys)
            &&& params.side == side
            &&& params.edge_base == part * layout.part_edges
            &&& params.edge_base % 32 == 0
            &&& params.edge_count == layout.part_edges
            &&& told(params) == part_edges(layout, part)
            &&& bucket_count(params) == layout.buckets
            &&& range_count(params) == layout.dead_bucket_count
            &&& params.edge_bits == layout.edge_bits
        }),
        MetalLayout::groups_for(layout.buckets as int) * THREADS >= layout.buckets,
        MetalLayout::groups_for(layout.dead_bucket_count as int) * THREADS
            >= layout.dead_bucket_count,
        MetalLayout::groups_for(layout.word_count as int) * THREADS * 32 >= layout.edge_count,
        layout.seed_groups() * THREADS * 32 >= layout.part_edges,
{
    lemma_parts_come_out_even(layout);
    let pe = layout.part_edges as int;
    let parts = layout.parts as int;
    assert(0 <= part * pe && part * pe + pe <= parts * pe && part * pe < 0x1_0000_0000 && (part
        + 1) * pe == part * pe + pe) by (nonlinear_arith)
        requires
            0 <= part < parts,
            pe > 0,
            parts * pe <= 0x1_0000_0000,
    ;
    vstd::arithmetic::div_mod::lemma_mul_mod_noop_right(part, pe, 32);
    let params = layout.params(keys, side, part, capacity, room);
    assert(layout.told_edges() == pe);
    assert(params.edge_base == part * pe);
    assert(told(params) =~= part_edges(layout, part));
    bits::lemma_ceil_div(layout.buckets as int, THREADS as int);
    bits::lemma_ceil_div(layout.dead_bucket_count as int, THREADS as int);
    bits::lemma_ceil_div(layout.word_count as int, THREADS as int);
    bits::lemma_ceil_div(pe, 32);
    bits::lemma_ceil_div(bits::ceil_div(pe, 32), THREADS as int);
}

/// The living edges of the first parts.
spec fn in_first_parts(layout: MetalLayout, edges: Set<u64>, end: int) -> Set<u64> {
    Set::new(|edge: u64| edges.contains(edge) && edge < end * layout.part_edges)
}

proof fn list_part_run(
    layout: MetalLayout,
    keys: SipKeys,
    round: u32,
    part: int,
    a: MetalDevice,
    b: MetalDevice,
)
    requires
        aligned(layout),
        0 <= part < layout.parts,
        runs(layout.dense_part(keys, round, part, false).take(2), a, b),
    ensures
        b == (MetalDevice {
            overflow: b.overflow,
            source: b.source,
            source_side: b.source_side,
            ..a
        }),
        a.overflow ==> b.overflow,
        !b.overflow ==> b.source == part_edges(layout, part).intersect(a.edges) && b.source_side
            == round as int % 2,
{
    let params = layout.params(keys, round % 2, part, layout.capacity, layout.dead_capacity);
    lemma_part_facts(layout, keys, round % 2, part, layout.capacity, layout.dead_capacity);
    lemma_parts_come_out_even(layout);
    let one = Dispatch {
        kernel: MetalKernel::ClearCounts(Arena::Source),
        params,
        groups: MetalLayout::groups_for(layout.buckets as int),
    };
    let two = Dispatch {
        kernel: MetalKernel::SeedAlive(Arena::Source),
        params,
        groups: layout.seed_groups(),
    };
    assert(layout.dense_part(keys, round, part, false).take(2) =~= seq![one].push(two));
    let cleared = last_step(seq![one], two, a, b);
    single_step(one, a, cleared);
    let new = part_edges(layout, part).intersect(a.edges);
    assert(Set::<u64>::empty().union(new) =~= new);
}

proof fn mark_part_run(
    layout: MetalLayout,
    keys: SipKeys,
    round: u32,
    part: int,
    a: MetalDevice,
    b: MetalDevice,
)
    requires
        aligned(layout),
        0 <= part < layout.parts,
        runs(layout.dense_part(keys, round, part, false), a, b),
    ensures
        b.edges == a.edges,
        a.overflow ==> b.overflow,
        !b.overflow ==> b.nodes == a.nodes.union(
            device::nodes_of(
                graph_with(layout, keys),
                part_edges(layout, part).intersect(a.edges),
                round as int % 2,
            ),
        ),
{
    let params = layout.params(keys, round % 2, part, layout.capacity, layout.dead_capacity);
    lemma_part_facts(layout, keys, round % 2, part, layout.capacity, layout.dead_capacity);
    let all = layout.dense_part(keys, round, part, false);
    let three = Dispatch {
        kernel: MetalKernel::Mark(Arena::Source),
        params,
        groups: layout.buckets,
    };
    assert(all =~= all.take(2).push(three));
    let listed = last_step(all.take(2), three, a, b);
    list_part_run(layout, keys, round, part, a, listed);
}

proof fn no_first_parts(layout: MetalLayout, edges: Set<u64>)
    ensures
        in_first_parts(layout, edges, 0) == Set::<u64>::empty(),
{
    assert(0 * layout.part_edges == 0);
    assert(in_first_parts(layout, edges, 0) =~= Set::empty());
}

proof fn first_parts_grow(layout: MetalLayout, edges: Set<u64>, end: int)
    requires
        aligned(layout),
        0 < end <= layout.parts,
    ensures
        in_first_parts(layout, edges, end) == in_first_parts(layout, edges, end - 1).union(
            part_edges(layout, end - 1).intersect(edges),
        ),
{
    let pe = layout.part_edges as int;
    assert(0 <= (end - 1) * pe <= end * pe) by (nonlinear_arith)
        requires
            end > 0,
            pe > 0,
    ;
    assert(in_first_parts(layout, edges, end) =~= in_first_parts(layout, edges, end - 1).union(
        part_edges(layout, end - 1).intersect(edges),
    ));
}

proof fn mark_parts_run(
    layout: MetalLayout,
    keys: SipKeys,
    round: u32,
    end: int,
    a: MetalDevice,
    b: MetalDevice,
)
    requires
        aligned(layout),
        0 <= end <= layout.parts,
        runs(layout.dense_parts(keys, round, end, false), a, b),
    ensures
        b.edges == a.edges,
        a.overflow ==> b.overflow,
        !b.overflow ==> b.nodes == a.nodes.union(
            device::nodes_of(
                graph_with(layout, keys),
                in_first_parts(layout, a.edges, end),
                round as int % 2,
            ),
        ),
    decreases end,
{
    let graph = graph_with(layout, keys);
    let side = round as int % 2;
    let done = in_first_parts(layout, a.edges, end);
    if end == 0 {
        empty_run(a, b);
        no_first_parts(layout, a.edges);
        assert(device::nodes_of(graph, done, side) =~= Set::empty());
        assert(a.nodes.union(Set::empty()) =~= a.nodes);
    } else {
        let middle = split_run(
            layout.dense_parts(keys, round, end - 1, false),
            layout.dense_part(keys, round, end - 1, false),
            a,
            b,
        );
        mark_parts_run(layout, keys, round, end - 1, a, middle);
        mark_part_run(layout, keys, round, end - 1, middle, b);
        if !b.overflow {
            let before = in_first_parts(layout, a.edges, end - 1);
            let new = part_edges(layout, end - 1).intersect(a.edges);
            first_parts_grow(layout, a.edges, end);
            device::nodes_of_union(graph, before, new, side);
            assert(b.nodes =~= a.nodes.union(device::nodes_of(graph, done, side)));
        }
    }
}

proof fn trim_part_run(
    layout: MetalLayout,
    keys: SipKeys,
    round: u32,
    part: int,
    a: MetalDevice,
    b: MetalDevice,
)
    requires
        aligned(layout),
        0 <= part < layout.parts,
        runs(layout.dense_part(keys, round, part, true), a, b),
    ensures
        b.nodes == a.nodes,
        b.survivors == a.survivors,
        a.overflow ==> b.overflow,
        !b.overflow ==> b.edges == a.edges.difference(
            device::unmatched(
                graph_with(layout, keys),
                part_edges(layout, part).intersect(a.edges),
                a.nodes,
                round as int % 2,
            ),
        ),
{
    let params = layout.params(keys, round % 2, part, layout.capacity, layout.dead_capacity);
    lemma_part_facts(layout, keys, round % 2, part, layout.capacity, layout.dead_capacity);
    let all = layout.dense_part(keys, round, part, true);
    let start = layout.dense_part(keys, round, part, false).take(2);
    let three = Dispatch {
        kernel: MetalKernel::ClearDeadCounts,
        params,
        groups: MetalLayout::groups_for(layout.dead_bucket_count as int),
    };
    let four = Dispatch {
        kernel: MetalKernel::CollectDead(Arena::Source),
        params,
        groups: layout.buckets,
    };
    let five = Dispatch {
        kernel: MetalKernel::ApplyDead,
        params,
        groups: layout.dead_bucket_count,
    };
    assert(all =~= start.push(three).push(four).push(five));
    let z = last_step(start.push(three).push(four), five, a, b);
    let y = last_step(start.push(three), four, a, z);
    let listed = last_step(start, three, a, y);
    list_part_run(layout, keys, round, part, a, listed);
    if !b.overflow {
        let gone = device::unmatched(
            graph_with(layout, keys),
            part_edges(layout, part).intersect(a.edges),
            a.nodes,
            round as int % 2,
        );
        assert(Set::<u64>::empty().union(gone) =~= gone);
    }
}

proof fn trim_parts_run(
    layout: MetalLayout,
    keys: SipKeys,
    round: u32,
    end: int,
    a: MetalDevice,
    b: MetalDevice,
)
    requires
        aligned(layout),
        0 <= end <= layout.parts,
        runs(layout.dense_parts(keys, round, end, true), a, b),
    ensures
        b.nodes == a.nodes,
        a.overflow ==> b.overflow,
        !b.overflow ==> b.edges == a.edges.difference(
            device::unmatched(
                graph_with(layout, keys),
                in_first_parts(layout, a.edges, end),
                a.nodes,
                round as int % 2,
            ),
        ),
    decreases end,
{
    let graph = graph_with(layout, keys);
    let side = round as int % 2;
    let done = in_first_parts(layout, a.edges, end);
    if end == 0 {
        empty_run(a, b);
        no_first_parts(layout, a.edges);
        assert(b.edges =~= a.edges.difference(device::unmatched(graph, done, a.nodes, side)));
    } else {
        let middle = split_run(
            layout.dense_parts(keys, round, end - 1, true),
            layout.dense_part(keys, round, end - 1, true),
            a,
            b,
        );
        trim_parts_run(layout, keys, round, end - 1, a, middle);
        trim_part_run(layout, keys, round, end - 1, middle, b);
        if !b.overflow {
            first_parts_grow(layout, a.edges, end);
            let new = part_edges(layout, end - 1).intersect(a.edges);
            assert(part_edges(layout, end - 1).intersect(middle.edges) =~= new);
            assert(b.edges =~= a.edges.difference(device::unmatched(graph, done, a.nodes, side)));
        }
    }
}

/// A round on the bitmap in which every edge found room trims its side.
pub proof fn lemma_dense_round_trims(
    layout: MetalLayout,
    keys: SipKeys,
    round: u32,
    a: MetalDevice,
    b: MetalDevice,
)
    requires
        aligned(layout),
        a.edges.subset_of(cpu_lean::all_edges(graph_with(layout, keys))),
        runs(layout.dense_round(keys, round), a, b),
        !b.overflow,
    ensures
        b.edges == cpu_lean::trimmed_once(graph_with(layout, keys), a.edges, round as int % 2),
{
    let graph = graph_with(layout, keys);
    let side = round as int % 2;
    let n = layout.parts as int;
    let marks = layout.dense_parts(keys, round, n, false);
    let trims = layout.dense_parts(keys, round, n, true);
    let z = split_run(layout.dense_start(keys, round) + marks, trims, a, b);
    let y = split_run(layout.dense_start(keys, round), marks, a, z);
    lemma_parts_come_out_even(layout);
    lemma_part_facts(layout, keys, round % 2, 0, layout.capacity, layout.dead_capacity);
    single_step(layout.dense_start(keys, round)[0], a, y);
    assert(layout.dense_start(keys, round) =~= seq![layout.dense_start(keys, round)[0]]);
    mark_parts_run(layout, keys, round, n, y, z);
    trim_parts_run(layout, keys, round, n, z, b);
    assert(in_first_parts(layout, a.edges, n) =~= a.edges) by {
        assert forall|edge: u64| a.edges.contains(edge) implies edge < n * layout.part_edges by {
            assert(cpu_lean::all_edges(graph).contains(edge));
        }
    }
    assert(z.nodes =~= device::nodes_of(graph, a.edges, side));
    device::lemma_unmatched_edges_are_trimmed(graph, a.edges, side);
}

proof fn seed_run(run: ArenaRounds, keys: SipKeys, end: int, a: MetalDevice, b: MetalDevice)
    requires
        run.valid(),
        aligned(run.layout),
        0 <= end <= run.layout.parts,
        a.source == Set::<u64>::empty(),
        runs(run.seed(keys, end), a, b),
    ensures
        b.edges == a.edges,
        a.overflow ==> b.overflow,
        !b.overflow ==> b.source == in_first_parts(run.layout, a.edges, end) && (end > 0
            ==> b.source_side == run.start_round as int % 2),
    decreases end,
{
    let layout = run.layout;
    if end == 0 {
        assert(run.seed(keys, 0) =~= Seq::empty());
        empty_run(a, b);
        no_first_parts(layout, a.edges);
    } else {
        let last = Dispatch {
            kernel: MetalKernel::SeedAlive(Arena::Source),
            params: run.params(keys, run.start_round, end - 1),
            groups: layout.seed_groups(),
        };
        assert(run.seed(keys, end) =~= run.seed(keys, end - 1).push(last));
        let middle = last_step(run.seed(keys, end - 1), last, a, b);
        seed_run(run, keys, end - 1, a, middle);
        lemma_part_facts(
            layout,
            keys,
            run.start_round % 2,
            end - 1,
            run.capacity,
            run.capacity,
        );
        if !b.overflow {
            if end == 1 {
                no_first_parts(layout, a.edges);
            }
            first_parts_grow(layout, a.edges, end);
        }
    }
}

/// Where every living edge found room, the first arena lists them all.
pub proof fn lemma_seed_lists_living_edges(
    run: ArenaRounds,
    keys: SipKeys,
    a: MetalDevice,
    b: MetalDevice,
)
    requires
        run.valid(),
        aligned(run.layout),
        a.edges.subset_of(cpu_lean::all_edges(graph_with(run.layout, keys))),
        a.source == Set::<u64>::empty(),
        runs(run.seed(keys, run.layout.parts as int), a, b),
        !b.overflow,
    ensures
        b.source == a.edges,
        b.source_side == run.start_round as int % 2,
{
    let layout = run.layout;
    let n = layout.parts as int;
    lemma_parts_come_out_even(layout);
    seed_run(run, keys, n, a, b);
    assert(in_first_parts(layout, a.edges, n) =~= a.edges) by {
        assert forall|edge: u64| a.edges.contains(edge) implies edge < n * layout.part_edges by {
            assert(cpu_lean::all_edges(graph_with(layout, keys)).contains(edge));
        }
    }
}

proof fn middle_rounds_run(
    run: ArenaRounds,
    keys: SipKeys,
    end: u32,
    a: MetalDevice,
    b: MetalDevice,
)
    requires
        run.valid(),
        aligned(run.layout),
        run.start_round <= end < run.rounds,
        a.source_side == run.start_round as int % 2,
        runs(run.middle_rounds(keys, end), a, b),
    ensures
        b.survivors == a.survivors,
        a.overflow ==> b.overflow,
        !b.overflow ==> b.listed(run.from(end)) == device::every_round(
            graph_with(run.layout, keys),
            a.source,
            run.start_round as nat,
            end as nat,
        ) && b.side(run.from(end)) == end as int % 2,
    decreases end,
{
    let layout = run.layout;
    let graph = graph_with(layout, keys);
    if end == run.start_round {
        empty_run(a, b);
    } else {
        let round = (end - 1) as u32;
        let middle = split_run(
            run.middle_rounds(keys, round),
            run.middle_round(keys, round),
            a,
            b,
        );
        middle_rounds_run(run, keys, round, a, middle);
        let params = run.params(keys, round, 0);
        lemma_part_facts(layout, keys, round % 2, 0, run.capacity, run.capacity);
        lemma_parts_come_out_even(layout);
        let one = Dispatch {
            kernel: MetalKernel::ClearCounts(run.from(round).opposite()),
            params,
            groups: MetalLayout::groups_for(layout.buckets as int),
        };
        let two = Dispatch {
            kernel: MetalKernel::PingPong(run.from(round)),
            params,
            groups: layout.buckets,
        };
        assert(run.middle_round(keys, round) =~= seq![one].push(two));
        let cleared = last_step(seq![one], two, middle, b);
        single_step(one, middle, cleared);
        assert(run.from(end) == run.from(round).opposite());
        if !b.overflow {
            let before = middle.listed(run.from(round));
            device::lemma_unmatched_edges_are_trimmed(graph, before, round as int % 2);
            device::lemma_rounds_compose(
                graph,
                a.source,
                run.start_round as nat,
                round as nat,
                end as nat,
            );
            reveal_with_fuel(device::every_round, 2);
        }
    }
}

/// Rounds in arenas in which every edge found room trim their sides in turn.
pub proof fn lemma_arena_rounds_trim(
    run: ArenaRounds,
    keys: SipKeys,
    a: MetalDevice,
    b: MetalDevice,
)
    requires
        run.valid(),
        aligned(run.layout),
        a.source_side == run.start_round as int % 2,
        a.survivors == Set::<u64>::empty(),
        runs(run.all_rounds(keys), a, b),
        !b.overflow,
    ensures
        b.survivors == device::every_round(
            graph_with(run.layout, keys),
            a.source,
            run.start_round as nat,
            run.rounds as nat,
        ),
{
    let layout = run.layout;
    let graph = graph_with(layout, keys);
    let last = (run.rounds - 1) as u32;
    let middle = split_run(run.middle_rounds(keys, last), run.last_round(keys), a, b);
    middle_rounds_run(run, keys, last, a, middle);
    let params = run.params(keys, last, 0);
    let from = run.from(last);
    lemma_part_facts(layout, keys, last % 2, 0, run.capacity, run.capacity);
    lemma_parts_come_out_even(layout);
    let one = Dispatch {
        kernel: MetalKernel::ClearNodes,
        params,
        groups: MetalLayout::groups_for(layout.word_count as int),
    };
    let two = Dispatch { kernel: MetalKernel::Mark(from), params, groups: layout.buckets };
    let three = Dispatch {
        kernel: MetalKernel::TrimToBitmap(from),
        params,
        groups: layout.buckets,
    };
    assert(run.last_round(keys) =~= seq![one, two].push(three));
    let z = last_step(seq![one, two], three, middle, b);
    assert(seq![one, two] =~= seq![one].push(two));
    let y = last_step(seq![one], two, middle, z);
    single_step(one, middle, y);
    let edges = middle.listed(from);
    let side = last as int % 2;
    assert(Set::<u32>::empty().union(device::nodes_of(graph, edges, side)) =~= device::nodes_of(
        graph,
        edges,
        side,
    ));
    device::lemma_unmatched_edges_are_trimmed(graph, edges, side);
    let left = cpu_lean::trimmed_once(graph, edges, side);
    assert(Set::<u64>::empty().union(left) =~= left);
    device::lemma_rounds_compose(
        graph,
        a.source,
        run.start_round as nat,
        last as nat,
        run.rounds as nat,
    );
    reveal_with_fuel(device::every_round, 2);
}

/// Rounds on the bitmap, one after the other, trim their sides in turn.
pub proof fn lemma_dense_rounds_trim(
    layout: MetalLayout,
    keys: SipKeys,
    before: Seq<MetalDevice>,
    after: Seq<MetalDevice>,
)
    requires
        aligned(layout),
        before.len() == after.len(),
        0 < after.len() <= gpu_metal::DENSE_ROUNDS,
        before[0].edges == cpu_lean::all_edges(graph_with(layout, keys)),
        forall|r: int|
            0 <= r < after.len() ==> runs(
                layout.dense_round(keys, r as u32),
                before[r],
                #[trigger] after[r],
            ) && !after[r].overflow,
        forall|r: int| 0 < r < before.len() ==> (#[trigger] before[r]).edges == after[r - 1].edges,
    ensures
        after.last().edges == device::every_round(
            graph_with(layout, keys),
            cpu_lean::all_edges(graph_with(layout, keys)),
            0,
            after.len(),
        ),
        after.last().edges.subset_of(cpu_lean::all_edges(graph_with(layout, keys))),
    decreases after.len(),
{
    let graph = graph_with(layout, keys);
    let all = cpu_lean::all_edges(graph);
    let n = after.len();
    let last = (n - 1) as nat;
    if n > 1 {
        let shorter = after.drop_last();
        assert forall|r: int| 0 <= r < shorter.len() implies runs(
            layout.dense_round(keys, r as u32),
            before.drop_last()[r],
            #[trigger] shorter[r],
        ) && !shorter[r].overflow by {
            assert(shorter[r] == after[r]);
        }
        assert forall|r: int| 0 < r < before.drop_last().len() implies (
        #[trigger] before.drop_last()[r]).edges == shorter[r - 1].edges by {
            assert(before[r].edges == after[r - 1].edges);
        }
        lemma_dense_rounds_trim(layout, keys, before.drop_last(), shorter);
        assert(before[n - 1].edges == after[n - 2].edges);
    }
    assert(runs(layout.dense_round(keys, last as u32), before[n - 1], after[n - 1]));
    lemma_dense_round_trims(layout, keys, last as u32, before[n - 1], after[n - 1]);
    device::lemma_rounds_compose(graph, all, 0, last, n);
    reveal_with_fuel(device::every_round, 2);
}

/// A whole trim in which every edge found room runs every round once: the
/// rounds on the bitmap, then those in arenas.
pub proof fn lemma_native_trim_runs_every_round(
    run: ArenaRounds,
    keys: SipKeys,
    a: MetalDevice,
    seeded: MetalDevice,
    b: MetalDevice,
    c: MetalDevice,
)
    requires
        run.valid(),
        aligned(run.layout),
        ({
            let graph = graph_with(run.layout, keys);
            &&& a.edges == device::every_round(
                graph,
                cpu_lean::all_edges(graph),
                0,
                run.start_round as nat,
            )
            &&& a.edges.subset_of(cpu_lean::all_edges(graph))
        }),
        a.source == Set::<u64>::empty(),
        runs(run.seed(keys, run.layout.parts as int), a, seeded),
        !seeded.overflow,
        b == (MetalDevice { survivors: Set::empty(), ..seeded }),
        runs(run.all_rounds(keys), b, c),
        !c.overflow,
    ensures
        c.survivors == device::every_round(
            graph_with(run.layout, keys),
            cpu_lean::all_edges(graph_with(run.layout, keys)),
            0,
            run.rounds as nat,
        ),
{
    let graph = graph_with(run.layout, keys);
    lemma_seed_lists_living_edges(run, keys, a, seeded);
    lemma_arena_rounds_trim(run, keys, b, c);
    device::lemma_rounds_compose(
        graph,
        cpu_lean::all_edges(graph),
        0,
        run.start_round as nat,
        run.rounds as nat,
    );
}

} // verus!
