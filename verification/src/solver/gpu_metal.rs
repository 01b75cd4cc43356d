//! The native macOS backend: how it cuts a graph, and the kernels that it runs.

use crate::bits;
use crate::siphash::SipKeys;
use crate::solver::gpu_wgpu::GpuWgpuConfig;
use crate::solver::{
    invalid, unsupported, BackendCapabilities, ErrorKind, SolveError, TrimmingMode,
};
use crate::text;
use vstd::arithmetic::power2;
use vstd::prelude::*;

verus! {

/// The threads of a threadgroup.
pub const THREADS: u64 = 256;

/// The bits of a node that a threadgroup keeps in its own memory.
pub const LOCAL_BITS: u8 = 18;

/// The edges whose deaths one threadgroup applies: 2^18.
pub const RANGE_EDGES: u64 = 262_144;

/// The deaths that a range has room for: 38 of 100 edges.
pub const DEAD_ROOM: u64 = 99_614;

/// The rounds that run on the whole bitmap.
pub const DENSE_ROUNDS: u32 = 3;

/// What a kernel is told.
#[derive(Debug, Clone, Copy, PartialEq, Eq, Structural)]
pub struct EndpointParams {
    pub k0: u64,
    pub k1: u64,
    pub k2: u64,
    pub k3: u64,
    pub edge_bits: u32,
    pub side: u32,
    pub edge_base: u32,
    pub edge_count: u32,
    pub capacity: u32,
    pub destination_capacity: u32,
}

/// The arenas that list living edges.
#[derive(Debug, Clone, Copy, PartialEq, Eq, Structural)]
pub enum Arena {
    Source,
    Destination,
}

/// The kernels.
#[derive(Debug, Clone, Copy, PartialEq, Eq, Structural)]
pub enum MetalKernel {
    /// Clears the bitmap of occupied nodes.
    ClearNodes,
    /// Empties an arena.
    ClearCounts(Arena),
    /// Empties the arena of dead edges.
    ClearDeadCounts,
    /// Lists the living edges of a part in an arena.
    SeedAlive(Arena),
    /// Marks the nodes of the edges in an arena.
    Mark(Arena),
    /// Lists the edges in an arena whose mates are not marked.
    CollectDead(Arena),
    /// Takes the listed dead edges out of the bitmap of living edges.
    ApplyDead,
    /// Sets the edges in an arena whose mates are marked in the bitmap of
    /// survivors.
    TrimToBitmap(Arena),
    /// Trims an arena into the other one.
    PingPong(Arena),
}

/// A kernel, what it is told, and its threadgroups.
#[derive(Debug, Clone, Copy, PartialEq, Eq, Structural)]
pub struct Dispatch {
    pub kernel: MetalKernel,
    pub params: EndpointParams,
    pub groups: u64,
}

impl Arena {
    /// The other arena.
    pub open spec fn opposite(self) -> Arena {
        match self {
            Arena::Source => Arena::Destination,
            Arena::Destination => Arena::Source,
        }
    }

    /// The other arena.
    pub fn other(&self) -> (arena: Arena)
        ensures
            arena == self.opposite(),
    {
        match self {
            Arena::Source => Arena::Destination,
            Arena::Destination => Arena::Source,
        }
    }
}

/// How a graph is cut.
#[derive(Debug, Clone, Copy, PartialEq, Eq, Structural)]
pub struct MetalLayout {
    pub edge_bits: u8,
    pub parts: u32,
    pub buckets: u64,
    pub edge_count: u64,
    pub word_count: u64,
    pub part_edges: u64,
    pub capacity: u64,
    pub dead_bucket_count: u64,
    pub dead_capacity: u64,
}

impl MetalLayout {
    /// How a graph is cut into parts.
    pub open spec fn of(edge_bits: u8, parts: u32) -> MetalLayout {
        let buckets = power2::pow2((edge_bits - LOCAL_BITS) as nat) as int;
        let edge_count = power2::pow2(edge_bits as nat) as int;
        let part_edges = edge_count / parts as int;
        MetalLayout {
            edge_bits,
            parts,
            buckets: buckets as u64,
            edge_count: edge_count as u64,
            word_count: (edge_count / 32) as u64,
            part_edges: part_edges as u64,
            capacity: (part_edges / buckets * 105 / 100 / 4 * 4) as u64,
            dead_bucket_count: (if part_edges / RANGE_EDGES as int >= 1 {
                part_edges / RANGE_EDGES as int
            } else {
                1
            }) as u64,
            dead_capacity: (DEAD_ROOM as int / parts as int * parts) as u64,
        }
    }

    /// Whether a graph can be cut so.
    pub open spec fn accepts(edge_bits: u8, parts: u32) -> bool {
        18 <= edge_bits <= 32 && parts > 0 && bits::is_power_of_two(parts as nat)
    }

    /// Whether this is how some graph is cut.
    pub open spec fn valid(self) -> bool {
        MetalLayout::accepts(self.edge_bits, self.parts) && self == MetalLayout::of(
            self.edge_bits,
            self.parts,
        )
    }

    /// How a graph is cut into parts, in 2^18 nodes per bucket.
    pub fn new(edge_bits: u8, parts: u32) -> (result: Result<MetalLayout, SolveError>)
        ensures
            match result {
                Ok(layout) => MetalLayout::accepts(edge_bits, parts) && layout == MetalLayout::of(
                    edge_bits,
                    parts,
                ),
                Err(error) => !MetalLayout::accepts(edge_bits, parts) && error@ == (
                    ErrorKind::InvalidConfig,
                    "native Metal requires edge_bits 18..=32 and power-of-two parts"@,
                ),
            },
    {
        if edge_bits < 18 || edge_bits > 32 || parts == 0 || !bits::check_power_of_two(
            parts as u64,
        ) {
            return Err(
                invalid("native Metal requires edge_bits 18..=32 and power-of-two parts"),
            );
        }
        proof {
            lemma_layout_bounds(edge_bits, parts);
        }
        let buckets = bits::power_of_two(edge_bits - LOCAL_BITS);
        let edge_count = bits::power_of_two(edge_bits);
        let part_edges: u64 = edge_count / parts as u64;
        let capacity: u64 = part_edges / buckets * 105 / 100 / 4 * 4;
        let dead_buckets: u64 = part_edges / RANGE_EDGES;
        Ok(
            MetalLayout {
                edge_bits,
                parts,
                buckets,
                edge_count,
                word_count: edge_count / 32,
                part_edges,
                capacity,
                dead_bucket_count: if dead_buckets >= 1 {
                    dead_buckets
                } else {
                    1
                },
                dead_capacity: DEAD_ROOM / parts as u64 * parts as u64,
            },
        )
    }
}

/// The numbers of a layout are small.
pub proof fn lemma_layout_bounds(edge_bits: u8, parts: u32)
    requires
        18 <= edge_bits <= 32,
        parts > 0,
    ensures
        ({
            let buckets = power2::pow2((edge_bits - LOCAL_BITS) as nat) as int;
            let edge_count = power2::pow2(edge_bits as nat) as int;
            let part_edges = edge_count / parts as int;
            &&& 1 <= buckets <= 0x4000
            &&& 0x4_0000 <= edge_count <= 0x1_0000_0000
            &&& edge_count == buckets * 0x4_0000
            &&& 0 <= part_edges <= edge_count
            &&& part_edges * parts <= edge_count
            &&& 0 <= part_edges / buckets <= 0x4_0000
            &&& 0 <= DEAD_ROOM as int / parts as int * parts <= DEAD_ROOM
        }),
{
    power2::lemma2_to64();
    power2::lemma_pow2_adds((edge_bits - 18) as nat, 18);
    power2::lemma_pow2_pos((edge_bits - 18) as nat);
    if edge_bits < 32 {
        power2::lemma_pow2_strictly_increases(edge_bits as nat, 32);
        power2::lemma_pow2_strictly_increases((edge_bits - 18) as nat, 14);
    }
    let buckets = power2::pow2((edge_bits - LOCAL_BITS) as nat) as int;
    let edge_count = power2::pow2(edge_bits as nat) as int;
    let part_edges = edge_count / parts as int;
    assert(0 <= part_edges <= edge_count && part_edges * parts <= edge_count) by (nonlinear_arith)
        requires
            part_edges == edge_count / parts as int,
            parts > 0,
            edge_count >= 0,
    ;
    assert(0 <= part_edges / buckets <= 0x4_0000) by (nonlinear_arith)
        requires
            0 <= part_edges <= edge_count,
            edge_count == buckets * 0x4_0000,
            buckets >= 1,
    ;
    assert(0 <= DEAD_ROOM as int / parts as int * parts <= DEAD_ROOM) by (nonlinear_arith)
        requires
            parts > 0,
    ;
}

impl MetalLayout {
    /// The edges of a part as a kernel is told: 32 bits wide.
    pub open spec fn told_edges(self) -> u32 {
        (self.part_edges % 0x1_0000_0000) as u32
    }

    /// What a kernel is told of a part.
    pub open spec fn params(
        self,
        keys: SipKeys,
        side: u32,
        part: int,
        capacity: u64,
        destination_capacity: u64,
    ) -> EndpointParams {
        EndpointParams {
            k0: keys.k0,
            k1: keys.k1,
            k2: keys.k2,
            k3: keys.k3,
            edge_bits: self.edge_bits as u32,
            side,
            edge_base: (part * self.told_edges()) as u32,
            edge_count: self.told_edges(),
            capacity: capacity as u32,
            destination_capacity: destination_capacity as u32,
        }
    }

    fn part_params(
        &self,
        keys: &SipKeys,
        side: u32,
        part: u32,
        capacity: u64,
        destination_capacity: u64,
    ) -> (params: EndpointParams)
        requires
            self.valid(),
            part < self.parts,
            capacity <= u32::MAX,
            destination_capacity <= u32::MAX,
        ensures
            params == self.params(*keys, side, part as int, capacity, destination_capacity),
    {
        let told: u32 = (self.part_edges % 0x1_0000_0000) as u32;
        proof {
            lemma_layout_bounds(self.edge_bits, self.parts);
            let parts = self.parts as int;
            let edges = self.part_edges as int;
            assert(0 <= part * told <= u32::MAX) by (nonlinear_arith)
                requires
                    0 <= part < parts,
                    0 <= told <= edges,
                    told <= u32::MAX,
                    edges * parts <= 0x1_0000_0000,
            ;
        }
        EndpointParams {
            k0: keys.k0,
            k1: keys.k1,
            k2: keys.k2,
            k3: keys.k3,
            edge_bits: self.edge_bits as u32,
            side,
            edge_base: part * told,
            edge_count: told,
            capacity: capacity as u32,
            destination_capacity: destination_capacity as u32,
        }
    }

    /// The threadgroups with a thread for each of so many items.
    pub open spec fn groups_for(items: int) -> u64 {
        bits::ceil_div(items, THREADS as int) as u64
    }

    /// The threadgroups that list a part.
    pub open spec fn seed_groups(self) -> u64 {
        MetalLayout::groups_for(bits::ceil_div(self.part_edges as int, 32))
    }

    /// What a round on the bitmap does with one part: it lists the part, and
    /// then marks its nodes, or takes its dead edges away.
    pub open spec fn dense_part(self, keys: SipKeys, round: u32, part: int, trims: bool) -> Seq<
        Dispatch,
    > {
        let params = self.params(keys, round % 2, part, self.capacity, self.dead_capacity);
        let listed = seq![
            Dispatch {
                kernel: MetalKernel::ClearCounts(Arena::Source),
                params,
                groups: MetalLayout::groups_for(self.buckets as int),
            },
            Dispatch {
                kernel: MetalKernel::SeedAlive(Arena::Source),
                params,
                groups: self.seed_groups(),
            },
        ];
        if trims {
            listed + seq![
                Dispatch {
                    kernel: MetalKernel::ClearDeadCounts,
                    params,
                    groups: MetalLayout::groups_for(self.dead_bucket_count as int),
                },
                Dispatch {
                    kernel: MetalKernel::CollectDead(Arena::Source),
                    params,
                    groups: self.buckets,
                },
                Dispatch {
                    kernel: MetalKernel::ApplyDead,
                    params,
                    groups: self.dead_bucket_count,
                },
            ]
        } else {
            listed + seq![
                Dispatch {
                    kernel: MetalKernel::Mark(Arena::Source),
                    params,
                    groups: self.buckets,
                },
            ]
        }
    }

    /// What a round on the bitmap does with the first parts.
    pub open spec fn dense_parts(self, keys: SipKeys, round: u32, end: int, trims: bool) -> Seq<
        Dispatch,
    >
        decreases end,
    {
        if end <= 0 {
            Seq::empty()
        } else {
            self.dense_parts(keys, round, end - 1, trims) + self.dense_part(
                keys,
                round,
                end - 1,
                trims,
            )
        }
    }

    /// The start of a round on the bitmap.
    pub open spec fn dense_start(self, keys: SipKeys, round: u32) -> Seq<Dispatch> {
        seq![
            Dispatch {
                kernel: MetalKernel::ClearNodes,
                params: self.params(keys, round % 2, 0, self.capacity, self.dead_capacity),
                groups: MetalLayout::groups_for(self.word_count as int),
            },
        ]
    }

    /// A round on the bitmap: all parts are marked, then all are trimmed.
    pub open spec fn dense_round(self, keys: SipKeys, round: u32) -> Seq<Dispatch> {
        self.dense_start(keys, round) + self.dense_parts(keys, round, self.parts as int, false)
            + self.dense_parts(keys, round, self.parts as int, true)
    }

    fn push_dense_parts(
        &self,
        dispatches: &mut Vec<Dispatch>,
        keys: &SipKeys,
        round: u32,
        trims: bool,
    )
        requires
            self.valid(),
        ensures
            final(dispatches)@ == old(dispatches)@ + self.dense_parts(
                *keys,
                round,
                self.parts as int,
                trims,
            ),
    {
        let count_groups = bits::div_ceil(self.buckets, THREADS);
        let seed_groups = bits::div_ceil(bits::div_ceil(self.part_edges, 32), THREADS);
        let dead_groups = bits::div_ceil(self.dead_bucket_count, THREADS);
        proof {
            lemma_layout_bounds(self.edge_bits, self.parts);
        }
        let mut part: u32 = 0;
        assert(dispatches@ =~= old(dispatches)@ + self.dense_parts(*keys, round, 0, trims));
        while part < self.parts
            invariant
                self.valid(),
                part <= self.parts,
                self.capacity <= u32::MAX,
                self.dead_capacity <= u32::MAX,
                count_groups == MetalLayout::groups_for(self.buckets as int),
                seed_groups == self.seed_groups(),
                dead_groups == MetalLayout::groups_for(self.dead_bucket_count as int),
                dispatches@ == old(dispatches)@ + self.dense_parts(
                    *keys,
                    round,
                    part as int,
                    trims,
                ),
            decreases self.parts - part,
        {
            let ghost before = dispatches@;
            let params = self.part_params(
                keys,
                round % 2,
                part,
                self.capacity,
                self.dead_capacity,
            );
            dispatches.push(
                Dispatch {
                    kernel: MetalKernel::ClearCounts(Arena::Source),
                    params,
                    groups: count_groups,
                },
            );
            dispatches.push(
                Dispatch {
                    kernel: MetalKernel::SeedAlive(Arena::Source),
                    params,
                    groups: seed_groups,
                },
            );
            if trims {
                dispatches.push(
                    Dispatch { kernel: MetalKernel::ClearDeadCounts, params, groups: dead_groups },
                );
                dispatches.push(
                    Dispatch {
                        kernel: MetalKernel::CollectDead(Arena::Source),
                        params,
                        groups: self.buckets,
                    },
                );
                dispatches.push(
                    Dispatch {
                        kernel: MetalKernel::ApplyDead,
                        params,
                        groups: self.dead_bucket_count,
                    },
                );
            } else {
                dispatches.push(
                    Dispatch {
                        kernel: MetalKernel::Mark(Arena::Source),
                        params,
                        groups: self.buckets,
                    },
                );
            }
            assert(dispatches@ =~= before + self.dense_part(*keys, round, part as int, trims));
            part = part + 1;
            assert(dispatches@ =~= old(dispatches)@ + self.dense_parts(
                *keys,
                round,
                part as int,
                trims,
            ));
        }
    }

    /// The kernels of a round on the bitmap: all parts are marked, then all are
    /// trimmed.
    pub fn encode_dense_round(&self, keys: &SipKeys, round: u32) -> (dispatches: Vec<Dispatch>)
        requires
            self.valid(),
        ensures
            dispatches@ == self.dense_round(*keys, round),
    {
        proof {
            lemma_layout_bounds(self.edge_bits, self.parts);
        }
        let mut dispatches: Vec<Dispatch> = Vec::new();
        dispatches.push(
            Dispatch {
                kernel: MetalKernel::ClearNodes,
                params: self.part_params(keys, round % 2, 0, self.capacity, self.dead_capacity),
                groups: bits::div_ceil(self.word_count, THREADS),
            },
        );
        assert(dispatches@ =~= self.dense_start(*keys, round));
        self.push_dense_parts(&mut dispatches, keys, round, false);
        self.push_dense_parts(&mut dispatches, keys, round, true);
        dispatches
    }
}

/// The rounds that run in arenas, once a graph has thinned out.
#[derive(Debug, Clone, Copy, PartialEq, Eq, Structural)]
pub struct ArenaRounds {
    pub layout: MetalLayout,
    pub start_round: u32,
    pub rounds: u32,
    pub capacity: u64,
}

/// The room that a bucket gets: an even share of the living edges, 15 of 100
/// more, and 1024, as a multiple of four.
pub open spec fn bucket_room(alive: int, buckets: int) -> int {
    (bits::ceil_div(alive, buckets) * 115 / 100 + 1024 + 3) / 4 * 4
}

impl ArenaRounds {
    /// Whether the rounds can be run: the room is that of some number of edges
    /// of the graph, and there is a round.
    pub open spec fn valid(self) -> bool {
        &&& self.layout.valid()
        &&& self.start_round < self.rounds
        &&& self.capacity <= 0x8_0000
    }

    /// The rounds that are left once so many edges live.
    pub fn new(layout: &MetalLayout, start_round: u32, rounds: u32, alive: u64) -> (run:
        ArenaRounds)
        requires
            layout.valid(),
            start_round < rounds,
            alive <= layout.edge_count,
        ensures
            run.valid(),
            run.layout == *layout,
            run.start_round == start_round,
            run.rounds == rounds,
            run.capacity == bucket_room(alive as int, layout.buckets as int),
    {
        proof {
            lemma_layout_bounds(layout.edge_bits, layout.parts);
            bits::lemma_ceil_div(alive as int, layout.buckets as int);
            let share = bits::ceil_div(alive as int, layout.buckets as int);
            let buckets = layout.buckets as int;
            assert(share <= 0x4_0000) by (nonlinear_arith)
                requires
                    share == (alive + buckets - 1) / buckets,
                    alive <= buckets * 0x4_0000,
                    buckets >= 1,
            ;
        }
        let share = bits::div_ceil(alive, layout.buckets);
        let capacity: u64 = (share * 115 / 100 + 1024 + 3) / 4 * 4;
        ArenaRounds { layout: *layout, start_round, rounds, capacity }
    }

    /// What a kernel is told in a round.
    pub open spec fn params(self, keys: SipKeys, round: u32, part: int) -> EndpointParams {
        self.layout.params(keys, round % 2, part, self.capacity, self.capacity)
    }

    /// What lists the first parts.
    pub open spec fn seed(self, keys: SipKeys, end: int) -> Seq<Dispatch> {
        Seq::new(
            end as nat,
            |part: int|
                Dispatch {
                    kernel: MetalKernel::SeedAlive(Arena::Source),
                    params: self.params(keys, self.start_round, part),
                    groups: self.layout.seed_groups(),
                },
        )
    }

    /// The kernels that list all living edges in the first arena.
    pub fn encode_seed(&self, keys: &SipKeys) -> (dispatches: Vec<Dispatch>)
        requires
            self.valid(),
        ensures
            dispatches@ == self.seed(*keys, self.layout.parts as int),
    {
        let groups = bits::div_ceil(bits::div_ceil(self.layout.part_edges, 32), THREADS);
        let mut dispatches: Vec<Dispatch> = Vec::new();
        let mut part: u32 = 0;
        while part < self.layout.parts
            invariant
                self.valid(),
                part <= self.layout.parts,
                groups == self.layout.seed_groups(),
                dispatches@ == self.seed(*keys, part as int),
            decreases self.layout.parts - part,
        {
            let params = self.layout.part_params(
                keys,
                self.start_round % 2,
                part,
                self.capacity,
                self.capacity,
            );
            dispatches.push(
                Dispatch { kernel: MetalKernel::SeedAlive(Arena::Source), params, groups },
            );
            part = part + 1;
            assert(dispatches@ =~= self.seed(*keys, part as int));
        }
        dispatches
    }

    /// The arena that a round starts from.
    pub open spec fn from(self, round: u32) -> Arena {
        if (round - self.start_round) % 2 == 0 {
            Arena::Source
        } else {
            Arena::Destination
        }
    }

    /// A round that is not the last one: an arena is trimmed into the other.
    pub open spec fn middle_round(self, keys: SipKeys, round: u32) -> Seq<Dispatch> {
        let params = self.params(keys, round, 0);
        seq![
            Dispatch {
                kernel: MetalKernel::ClearCounts(self.from(round).opposite()),
                params,
                groups: MetalLayout::groups_for(self.layout.buckets as int),
            },
            Dispatch {
                kernel: MetalKernel::PingPong(self.from(round)),
                params,
                groups: self.layout.buckets,
            },
        ]
    }

    /// The last round: the survivors are set in a bitmap.
    pub open spec fn last_round(self, keys: SipKeys) -> Seq<Dispatch> {
        let round = (self.rounds - 1) as u32;
        let params = self.params(keys, round, 0);
        seq![
            Dispatch {
                kernel: MetalKernel::ClearNodes,
                params,
                groups: MetalLayout::groups_for(self.layout.word_count as int),
            },
            Dispatch {
                kernel: MetalKernel::Mark(self.from(round)),
                params,
                groups: self.layout.buckets,
            },
            Dispatch {
                kernel: MetalKernel::TrimToBitmap(self.from(round)),
                params,
                groups: self.layout.buckets,
            },
        ]
    }

    /// The rounds before `end`, none of which is the last one.
    pub open spec fn middle_rounds(self, keys: SipKeys, end: u32) -> Seq<Dispatch>
        decreases end,
    {
        if end <= self.start_round {
            Seq::empty()
        } else {
            self.middle_rounds(keys, (end - 1) as u32) + self.middle_round(
                keys,
                (end - 1) as u32,
            )
        }
    }

    /// The kernels of one round.
    pub open spec fn arena_round(self, keys: SipKeys, round: u32) -> Seq<Dispatch> {
        if round + 1 == self.rounds {
            self.last_round(keys)
        } else {
            self.middle_round(keys, round)
        }
    }

    /// The kernels of the rounds before `end`.
    pub open spec fn encoded(self, keys: SipKeys, end: u32) -> Seq<Dispatch>
        decreases end,
    {
        if end <= self.start_round {
            Seq::empty()
        } else {
            self.encoded(keys, (end - 1) as u32) + self.arena_round(keys, (end - 1) as u32)
        }
    }

    /// All rounds.
    pub open spec fn all_rounds(self, keys: SipKeys) -> Seq<Dispatch> {
        self.middle_rounds(keys, (self.rounds - 1) as u32) + self.last_round(keys)
    }

    fn from_arena(&self, round: u32) -> (arena: Arena)
        requires
            round >= self.start_round,
        ensures
            arena == self.from(round),
    {
        if (round - self.start_round) % 2 == 0 {
            Arena::Source
        } else {
            Arena::Destination
        }
    }

    /// Adds the kernels of one round: the living edges go from one arena to the
    /// other, or the last round sets the survivors in a bitmap.
    pub fn encode_round(&self, keys: &SipKeys, round: u32, dispatches: &mut Vec<Dispatch>)
        requires
            self.valid(),
            self.start_round <= round < self.rounds,
        ensures
            final(dispatches)@ == old(dispatches)@ + self.arena_round(*keys, round),
    {
        let buckets = self.layout.buckets;
        let params = self.layout.part_params(keys, round % 2, 0, self.capacity, self.capacity);
        let from = self.from_arena(round);
        if round + 1 == self.rounds {
            let groups = bits::div_ceil(self.layout.word_count, THREADS);
            dispatches.push(Dispatch { kernel: MetalKernel::ClearNodes, params, groups });
            dispatches.push(
                Dispatch { kernel: MetalKernel::Mark(from), params, groups: buckets },
            );
            dispatches.push(
                Dispatch { kernel: MetalKernel::TrimToBitmap(from), params, groups: buckets },
            );
        } else {
            let groups = bits::div_ceil(buckets, THREADS);
            dispatches.push(
                Dispatch { kernel: MetalKernel::ClearCounts(from.other()), params, groups },
            );
            dispatches.push(
                Dispatch { kernel: MetalKernel::PingPong(from), params, groups: buckets },
            );
        }
        assert(dispatches@ =~= old(dispatches)@ + self.arena_round(*keys, round));
    }
}

/// The rounds that are encoded one after the other are all rounds.
pub proof fn lemma_encoding_gives_all_rounds(run: ArenaRounds, keys: SipKeys)
    requires
        run.valid(),
    ensures
        run.encoded(keys, run.rounds) == run.all_rounds(keys),
{
    encoded_rounds_come_before_the_last(run, keys, (run.rounds - 1) as u32);
}

proof fn encoded_rounds_come_before_the_last(run: ArenaRounds, keys: SipKeys, end: u32)
    requires
        end < run.rounds,
    ensures
        run.encoded(keys, end) == run.middle_rounds(keys, end),
    decreases end,
{
    if end > run.start_round {
        encoded_rounds_come_before_the_last(run, keys, (end - 1) as u32);
    }
}

/// The rounds that run on the bitmap.
pub open spec fn dense_of(rounds: u32) -> u32 {
    if rounds <= DENSE_ROUNDS {
        rounds
    } else {
        DENSE_ROUNDS
    }
}

/// The rounds that run on the bitmap.
pub fn dense_rounds(rounds: u32) -> (dense: u32)
    ensures
        dense == dense_of(rounds),
{
    if rounds <= DENSE_ROUNDS {
        rounds
    } else {
        DENSE_ROUNDS
    }
}

/// What a native trim does next.
#[derive(Debug, Clone, Copy, PartialEq, Eq, Structural)]
pub enum NativeStep {
    /// Newer work has come: the trim ends without survivors.
    Stop,
    /// Run a round on the bitmap.
    Dense(u32),
    /// List the living edges in the first arena.
    Seed,
    /// Add the kernels of a round in arenas to those that are to run.
    Encode(u32),
    /// Run the rounds in arenas.
    Rounds,
    /// Read the survivors from the bitmap of living edges.
    ReadEdges,
    /// Read the survivors that the last round in arenas wrote.
    ReadSurvivors,
}

/// A native trim on its way: how many of its steps are done.
#[derive(Debug, Clone, Copy, PartialEq, Eq, Structural)]
pub struct NativeRun {
    pub rounds: u32,
    pub steps: u64,
}

impl NativeRun {
    /// A native trim before its first round.
    pub fn new(rounds: u32) -> (run: NativeRun)
        ensures
            run == (NativeRun { rounds, steps: 0 }),
    {
        NativeRun { rounds, steps: 0 }
    }

    /// What comes next: the rounds on the bitmap, then where there are more the
    /// seed and the rounds in arenas, which are encoded one by one and run
    /// together, and at the end the survivors.
    pub open spec fn planned(self) -> NativeStep {
        let dense = dense_of(self.rounds);
        if self.steps < dense {
            NativeStep::Dense(self.steps as u32)
        } else if self.rounds == dense {
            NativeStep::ReadEdges
        } else if self.steps == dense {
            NativeStep::Seed
        } else if self.steps <= self.rounds {
            NativeStep::Encode((self.steps - 1) as u32)
        } else if self.steps == self.rounds + 1 {
            NativeStep::Rounds
        } else {
            NativeStep::ReadSurvivors
        }
    }

    /// What comes next, given whether newer work has come.  That is looked at
    /// before every round on the bitmap, and before every round in arenas is
    /// encoded.
    pub open spec fn step(self, cancelled: bool) -> NativeStep {
        let planned = self.planned();
        if cancelled && (planned is Dense || planned is Encode) {
            NativeStep::Stop
        } else {
            planned
        }
    }

    /// What comes next, given whether newer work has come.
    pub fn next(&self, cancelled: bool) -> (step: NativeStep)
        ensures
            step == self.step(cancelled),
    {
        let dense = dense_rounds(self.rounds);
        if self.steps < dense as u64 {
            if cancelled {
                NativeStep::Stop
            } else {
                NativeStep::Dense(self.steps as u32)
            }
        } else if self.rounds == dense {
            NativeStep::ReadEdges
        } else if self.steps == dense as u64 {
            NativeStep::Seed
        } else if self.steps <= self.rounds as u64 {
            if cancelled {
                NativeStep::Stop
            } else {
                NativeStep::Encode((self.steps - 1) as u32)
            }
        } else if self.steps == self.rounds as u64 + 1 {
            NativeStep::Rounds
        } else {
            NativeStep::ReadSurvivors
        }
    }

    /// Takes a step as done.
    pub fn done(&mut self)
        requires
            !(old(self).planned() is ReadEdges),
            !(old(self).planned() is ReadSurvivors),
        ensures
            *final(self) == (NativeRun { steps: (old(self).steps + 1) as u64, ..*old(self) }),
    {
        self.steps = self.steps + 1;
    }
}

/// A native trim reads its survivors exactly where all its steps are done, and
/// it gets there: after the rounds on the bitmap, or where rounds in arenas
/// follow after these, the seed and the run.
pub proof fn lemma_native_trim_reads_at_the_end(run: NativeRun)
    ensures
        ({
            let dense = dense_of(run.rounds);
            let total: int = if run.rounds == dense {
                dense as int
            } else {
                run.rounds + 2
            };
            run.planned() is ReadEdges || run.planned() is ReadSurvivors <==> run.steps >= total
        }),
{
}

/// A native trim that newer work overtakes ends without survivors: it begins no
/// round on the bitmap any more, and while a round in arenas is still to be
/// encoded none of them has run or will.
pub proof fn lemma_overtaken_native_trim_stops(run: NativeRun, round: u32)
    requires
        round < run.rounds,
    ensures
        run.planned() == NativeStep::Dense(round) || run.planned() == NativeStep::Encode(round)
            ==> run.step(true) is Stop && run.step(false) == run.planned(),
        run.planned() == NativeStep::Encode(round) <==> round >= dense_of(run.rounds) && run.steps
            == round + 1,
        run.planned() is Rounds ==> run.steps > round + 1,
{
}

/// Where edges can find no room.
#[derive(Debug, Clone, Copy, PartialEq, Eq, Structural)]
pub enum Stage {
    /// In a round on the bitmap.
    Dense(u32),
    /// Where the first arena is filled.
    Seed,
    /// In the rounds in arenas.
    Loop,
    /// Where a part is listed on its own.
    Part(u32),
    /// Where the check of the buckets lists its part.
    Check,
}

impl Stage {
    /// What is said where edges found no room.
    pub open spec fn complaint(self, overflow: u32) -> Seq<char> {
        match self {
            Stage::Dense(round) => "native round "@ + text::decimal((round + 1) as nat)
                + " bucket overflowed by "@ + text::decimal(overflow as nat) + " edges"@,
            Stage::Seed => "hybrid seed overflowed by "@ + text::decimal(overflow as nat)
                + " edges"@,
            Stage::Loop => "hybrid loop overflowed by "@ + text::decimal(overflow as nat)
                + " edges"@,
            Stage::Part(part) => "native seed part "@ + text::decimal(part as nat)
                + " overflowed by "@ + text::decimal(overflow as nat) + " edges"@,
            Stage::Check => "native bucket oracle overflowed by "@ + text::decimal(
                overflow as nat,
            ) + " edges"@,
        }
    }

    /// Fails where edges found no room.
    pub fn check(&self, overflow: u32) -> (result: Result<(), SolveError>)
        ensures
            match result {
                Ok(()) => overflow == 0,
                Err(error) => overflow != 0 && error@ == (
                    ErrorKind::Gpu,
                    self.complaint(overflow),
                ),
            },
    {
        if overflow == 0 {
            return Ok(());
        }
        let reason = match self {
            Stage::Dense(round) => {
                let mut reason = text::around_decimal(
                    "native round ",
                    *round as u64 + 1,
                    " bucket overflowed by ",
                );
                text::append_decimal(&mut reason, overflow as u64);
                reason.append(" edges");
                reason
            },
            Stage::Seed => text::around_decimal(
                "hybrid seed overflowed by ",
                overflow as u64,
                " edges",
            ),
            Stage::Loop => text::around_decimal(
                "hybrid loop overflowed by ",
                overflow as u64,
                " edges",
            ),
            Stage::Part(part) => {
                let mut reason = text::around_decimal(
                    "native seed part ",
                    *part as u64,
                    " overflowed by ",
                );
                text::append_decimal(&mut reason, overflow as u64);
                reason.append(" edges");
                reason
            },
            Stage::Check => text::around_decimal(
                "native bucket oracle overflowed by ",
                overflow as u64,
                " edges",
            ),
        };
        Err(SolveError::Gpu(reason))
    }
}

/// The native backend, once it is known to be there.
#[derive(Debug, Clone, Copy, PartialEq, Eq, Structural)]
pub struct GpuMetalSolver {
    pub config: GpuWgpuConfig,
}

impl GpuMetalSolver {
    /// The native backend with a configuration.  `native` says whether the
    /// program runs on macOS.
    pub fn new(config: GpuWgpuConfig, native: bool) -> (result: Result<GpuMetalSolver, SolveError>)
        ensures
            match result {
                Ok(solver) => native && config.trimming != TrimmingMode::Lean && solver.config
                    == config,
                Err(error) => if native {
                    config.trimming == TrimmingMode::Lean && error@ == (
                        ErrorKind::Unsupported,
                        "native Metal supports slean trimming; use --backend gpu for lean"@,
                    )
                } else {
                    error@ == (
                        ErrorKind::Unsupported,
                        "the Metal backend is available only on macOS; use --backend auto or gpu"@,
                    )
                },
            },
    {
        if !native {
            return Err(
                unsupported(
                    "the Metal backend is available only on macOS; use --backend auto or gpu",
                ),
            );
        }
        if config.trimming == TrimmingMode::Lean {
            return Err(
                unsupported("native Metal supports slean trimming; use --backend gpu for lean"),
            );
        }
        Ok(GpuMetalSolver { config })
    }

    /// Whether the backend can run under an operating system.
    pub fn is_native(system: &str) -> (native: bool)
        ensures
            native == (system@ == "macos"@),
    {
        let macos = String::from_str("macos");
        String::from_str(system).eq(&macos)
    }

    /// What the backend is called.
    pub fn name(&self) -> (name: &'static str)
        ensures
            name@ == "metal-native"@,
    {
        "metal-native"
    }

    /// What the backend takes.
    pub open spec fn takes() -> BackendCapabilities {
        BackendCapabilities { min_edge_bits: 18, max_edge_bits: 32, cycle_length: 42 }
    }

    /// What the backend takes.
    pub fn capabilities(&self) -> (capabilities: BackendCapabilities)
        ensures
            capabilities == GpuMetalSolver::takes(),
    {
        BackendCapabilities { min_edge_bits: 18, max_edge_bits: 32, cycle_length: 42 }
    }
}

/// The buckets of a part have room for five in a hundred above an even share, in
/// whole fours, and the dead edges have as much of their room as the parts can
/// share.
pub proof fn lemma_layouts_use_their_room(edge_bits: u8, parts: u32)
    requires
        18 <= edge_bits <= 32,
        parts > 0,
    ensures
        ({
            let layout = MetalLayout::of(edge_bits, parts);
            let share = layout.part_edges as int / layout.buckets as int;
            &&& layout.edge_bits == edge_bits
            &&& layout.parts == parts
            &&& layout.edge_count == power2::pow2(edge_bits as nat)
            &&& layout.buckets * 0x4_0000 == layout.edge_count
            &&& layout.word_count * 32 == layout.edge_count
            &&& layout.part_edges * parts <= layout.edge_count < (layout.part_edges + 1) * parts
            &&& layout.capacity % 4 == 0
            &&& 100 * layout.capacity <= 105 * share < 100 * (layout.capacity + 4)
            &&& layout.dead_bucket_count >= 1
            &&& layout.dead_capacity <= 99_614 < layout.dead_capacity + parts
        }),
{
    lemma_layout_bounds(edge_bits, parts);
    let buckets = power2::pow2((edge_bits - LOCAL_BITS) as nat) as int;
    let edge_count = power2::pow2(edge_bits as nat) as int;
    let part_edges = edge_count / parts as int;
    let share = part_edges / buckets;
    assert(edge_count < (part_edges + 1) * parts) by (nonlinear_arith)
        requires
            part_edges == edge_count / parts as int,
            parts > 0,
    ;
    assert(99_614 < 99_614int / parts as int * parts + parts) by (nonlinear_arith)
        requires
            parts > 0,
    ;
    assert(0 <= share * 105 / 100 / 4 * 4 <= share * 105);
}

/// A bucket of an arena has room for fifteen in a hundred above an even share of
/// the living edges, and 1024 besides, rounded up to whole fours.
pub proof fn lemma_arena_buckets_have_room(alive: int, buckets: int)
    requires
        alive >= 0,
        buckets > 0,
    ensures
        ({
            let share = bits::ceil_div(alive, buckets);
            let room = bucket_room(alive, buckets);
            &&& share * buckets >= alive
            &&& room % 4 == 0
            &&& 100 * (room - 1024) > 115 * share - 100
            &&& 100 * (room - 1028) <= 115 * share
        }),
{
    bits::lemma_ceil_div(alive, buckets);
}

/// The first three rounds are dense, or all of them where there are fewer.
pub proof fn lemma_first_rounds_are_dense(rounds: u32)
    ensures
        dense_of(rounds) <= 3,
        dense_of(rounds) <= rounds,
        dense_of(rounds) == 3 || dense_of(rounds) == rounds,
{
}

} // verus!
