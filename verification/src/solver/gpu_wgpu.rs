//! The portable GPU backend: what it allocates and what its shaders are told.

use crate::bits;
use crate::siphash::GpuSipKeys;
use crate::solver::gpu_diagnostics::{DiagnosticEnv, Diagnostics};
use crate::solver::{
    invalid, unsupported, BackendCapabilities, ErrorKind, GraphParams, SolveError, TrimmingMode,
};
use crate::text;
use vstd::arithmetic::power2;
use vstd::prelude::*;

verus! {

/// The threads of a workgroup.
pub const WORKGROUP_SIZE: u64 = 256;

/// The most workgroups of a dispatch that loops over its work.
pub const DISPATCH_GROUPS: u32 = 4096;

/// The edges that one chunk of a bucketed round takes.
pub const BUCKET_CHUNK_EDGES: u64 = 268_435_456;

/// The buckets of a bucketed round.
pub const BUCKETED_MARK_BUCKETS: u32 = 64;

/// The rounds that are bucketed where no compact arena follows them.
pub const BUCKETED_MARK_ROUNDS: u32 = 4;

/// The smallest graph whose early rounds are bucketed.
pub const BUCKETED_MARK_MIN_EDGE_BITS: u8 = 24;

/// The free memory that two parts need: 18 GiB.
pub const SLEAN_PARTS_TWO_AVAILABLE_MEMORY: u64 = 19_327_352_832;

const MIB: u64 = 1_048_576;

/// How the GPU trims.
#[derive(Debug, Clone, Copy, PartialEq, Eq, Structural)]
pub struct GpuWgpuConfig {
    pub trimming: TrimmingMode,
    pub slean_parts: u32,
    pub local_ram_kib: u32,
}

impl Default for GpuWgpuConfig {
    fn default() -> (config: GpuWgpuConfig)
        ensures
            config == (GpuWgpuConfig {
                trimming: TrimmingMode::Lean,
                slean_parts: 4,
                local_ram_kib: 32,
            }),
    {
        GpuWgpuConfig { trimming: TrimmingMode::Lean, slean_parts: 4, local_ram_kib: 32 }
    }
}

impl GpuWgpuConfig {
    /// What is wrong with a configuration.
    pub open spec fn refusal(self) -> Option<Seq<char>> {
        if self.slean_parts < 2 || !bits::is_power_of_two(self.slean_parts as nat) {
            Some("slean_parts must be a power of two and at least 2"@)
        } else if self.local_ram_kib < 2 || !bits::is_power_of_two(self.local_ram_kib as nat) {
            Some("local_ram_kib must be a power of two and at least 2"@)
        } else {
            None
        }
    }

    /// Checks a configuration before a device is asked for.
    pub fn validate(&self) -> (result: Result<(), SolveError>)
        ensures
            match self.refusal() {
                None => result is Ok,
                Some(reason) => result matches Err(error) && error@ == (
                    ErrorKind::InvalidConfig,
                    reason,
                ),
            },
    {
        if self.slean_parts < 2 || !bits::check_power_of_two(self.slean_parts as u64) {
            return Err(invalid("slean_parts must be a power of two and at least 2"));
        }
        if self.local_ram_kib < 2 || !bits::check_power_of_two(self.local_ram_kib as u64) {
            return Err(invalid("local_ram_kib must be a power of two and at least 2"));
        }
        Ok(())
    }
}

/// What an adapter can hold.
#[derive(Debug)]
pub struct AdapterLimits {
    pub name: String,
    pub max_buffer_size: u64,
    pub max_storage_binding: u64,
    pub max_workgroup_storage: u32,
}

impl AdapterLimits {
    /// Whether a buffer of a size can be made and bound.
    pub open spec fn holds(self, bytes: int) -> bool {
        bytes <= self.max_buffer_size && bytes <= self.max_storage_binding
    }

    /// Whether a buffer of a size can be made and bound.
    pub fn can_hold(&self, bytes: u64) -> (result: bool)
        ensures
            result == self.holds(bytes as int),
    {
        bytes <= self.max_buffer_size && bytes <= self.max_storage_binding
    }
}

/// The size of a graph and of its bitmaps.
#[derive(Debug, Clone, Copy, PartialEq, Eq, Structural)]
pub struct GraphSize {
    pub edge_count: u64,
    pub word_count: u64,
    pub bitmap_bytes: u64,
}

impl GraphSize {
    /// The size of a graph with `2^edge_bits` edges.
    pub open spec fn of(edge_bits: u8) -> GraphSize {
        let edges = power2::pow2(edge_bits as nat) as int;
        GraphSize {
            edge_count: edges as u64,
            word_count: bits::ceil_div(edges, 32) as u64,
            bitmap_bytes: (4 * bits::ceil_div(edges, 32)) as u64,
        }
    }

    /// Whether this is the size of a graph that can be asked for.
    pub open spec fn valid(self) -> bool {
        exists|edge_bits: u8| 1 <= edge_bits <= 32 && self == #[trigger] GraphSize::of(edge_bits)
    }

    /// Why a graph does not fit an adapter.
    pub open spec fn refusal(limits: AdapterLimits, request: GraphParams) -> Option<
        (ErrorKind, Seq<char>),
    > {
        if !(1 <= request.edge_bits <= 32) {
            Some((ErrorKind::InvalidConfig, "edge_bits must be in 1..=32"@))
        } else if request.cycle_length == 0 || request.cycle_length % 2 != 0 {
            Some((ErrorKind::InvalidConfig, "cycle_length must be positive and even"@))
        } else if !limits.holds(GraphSize::of(request.edge_bits).bitmap_bytes as int) {
            Some(
                (
                    ErrorKind::Unsupported,
                    limits.name@ + " exposes max storage buffer "@ + text::decimal(
                        (limits.max_storage_binding / 1_048_576) as nat,
                    ) + " MiB, but C"@ + text::decimal(request.edge_bits as nat) + " needs "@
                        + text::decimal(
                        (GraphSize::of(request.edge_bits).bitmap_bytes / 1_048_576) as nat,
                    ) + " MiB per bitmap"@,
                ),
            )
        } else {
            None
        }
    }

    /// The size of the requested graph, if its bitmaps fit the adapter.
    pub fn new(limits: &AdapterLimits, request: GraphParams) -> (result: Result<
        GraphSize,
        SolveError,
    >)
        ensures
            match GraphSize::refusal(*limits, request) {
                None => {
                    &&& result == Ok::<GraphSize, SolveError>(GraphSize::of(request.edge_bits))
                    &&& GraphSize::of(request.edge_bits).valid()
                },
                Some(refusal) => result matches Err(error) && error@ == refusal,
            },
    {
        if request.edge_bits == 0 || request.edge_bits > 32 {
            return Err(invalid("edge_bits must be in 1..=32"));
        }
        if request.cycle_length == 0 || request.cycle_length % 2 != 0 {
            return Err(invalid("cycle_length must be positive and even"));
        }
        proof {
            lemma_graph_size(request.edge_bits);
        }
        let edge_count = bits::power_of_two(request.edge_bits);
        let word_count = bits::div_ceil(edge_count, 32);
        let bitmap_bytes: u64 = word_count * 4;
        if !limits.can_hold(bitmap_bytes) {
            let mut reason = limits.name.clone();
            reason.append(" exposes max storage buffer ");
            text::append_decimal(&mut reason, limits.max_storage_binding / MIB);
            reason.append(" MiB, but C");
            text::append_decimal(&mut reason, request.edge_bits as u64);
            reason.append(" needs ");
            text::append_decimal(&mut reason, bitmap_bytes / MIB);
            reason.append(" MiB per bitmap");
            return Err(SolveError::Unsupported(reason));
        }
        Ok(GraphSize { edge_count, word_count, bitmap_bytes })
    }
}

/// The bounds of a graph's size.
pub proof fn lemma_graph_size(edge_bits: u8)
    requires
        1 <= edge_bits <= 32,
    ensures
        GraphSize::of(edge_bits).edge_count == power2::pow2(edge_bits as nat),
        2 <= GraphSize::of(edge_bits).edge_count <= 0x1_0000_0000,
        GraphSize::of(edge_bits).word_count == bits::ceil_div(
            GraphSize::of(edge_bits).edge_count as int,
            32,
        ),
        1 <= GraphSize::of(edge_bits).word_count <= 0x800_0000,
        GraphSize::of(edge_bits).bitmap_bytes == 4 * GraphSize::of(edge_bits).word_count,
{
    bits::lemma_pow2_fits(edge_bits as nat);
    power2::lemma2_to64();
    if edge_bits > 1 {
        power2::lemma_pow2_strictly_increases(1, edge_bits as nat);
    }
}

/// The workgroups that go over all words of a bitmap.
pub open spec fn word_groups(word_count: int) -> int {
    let groups = bits::ceil_div(word_count, WORKGROUP_SIZE as int);
    if groups <= DISPATCH_GROUPS {
        groups
    } else {
        DISPATCH_GROUPS as int
    }
}

/// The workgroups that go over all words of a bitmap.
pub fn groups_for_words(word_count: u64) -> (groups: u32)
    ensures
        groups == word_groups(word_count as int),
{
    let groups = bits::div_ceil(word_count, WORKGROUP_SIZE);
    if groups <= DISPATCH_GROUPS as u64 {
        groups as u32
    } else {
        DISPATCH_GROUPS
    }
}

/// The parts that the edges are cut into, before they are fitted to the
/// adapter: what was asked for, or with automatic trimming two where there is
/// memory for them and else four.  Two are taken only with enough memory.
pub open spec fn asked_parts(
    config: GpuWgpuConfig,
    enabled: bool,
    first: Option<u64>,
    second: Option<u64>,
) -> u64 {
    let asked = if enabled && config.trimming == TrimmingMode::Auto && first is Some {
        if first->0 >= SLEAN_PARTS_TWO_AVAILABLE_MEMORY {
            2u64
        } else {
            4u64
        }
    } else {
        config.slean_parts as u64
    };
    if enabled && asked == 2 && !(second is Some && second->0 >= SLEAN_PARTS_TWO_AVAILABLE_MEMORY) {
        4
    } else {
        asked
    }
}

/// The parts that the edges are cut into, given two readings of the available
/// memory: one for the automatic choice, one for the check of two parts.
pub fn selected_slean_parts(
    config: &GpuWgpuConfig,
    enabled: bool,
    first: Option<u64>,
    second: Option<u64>,
) -> (parts: u64)
    ensures
        parts == asked_parts(*config, enabled, first, second),
{
    let mut parts: u64 = config.slean_parts as u64;
    if enabled && config.trimming == TrimmingMode::Auto {
        match first {
            Some(available) => {
                parts = if available >= SLEAN_PARTS_TWO_AVAILABLE_MEMORY {
                    2
                } else {
                    4
                };
            },
            None => {},
        }
    }
    if enabled && parts == 2 {
        let enough = match second {
            Some(available) => available >= SLEAN_PARTS_TWO_AVAILABLE_MEMORY,
            None => false,
        };
        if !enough {
            parts = 4;
        }
    }
    parts
}

/// Two parts are never taken without the memory for them.
pub proof fn lemma_two_parts_have_memory(
    config: GpuWgpuConfig,
    first: Option<u64>,
    second: Option<u64>,
)
    requires
        asked_parts(config, true, first, second) == 2,
    ensures
        second is Some,
        second->0 >= SLEAN_PARTS_TWO_AVAILABLE_MEMORY,
{
}

/// The buffers of partitioned trimming.
#[derive(Debug, Clone, Copy, PartialEq, Eq, Structural)]
pub struct SleanSizing {
    pub bucket_count: u64,
    pub parts: u64,
    pub part_edges: u64,
    pub capacity: u64,
    pub scratch_bytes: u64,
    pub dead_bucket_count: u64,
    pub dead_scratch_bytes: u64,
}

/// The bytes of a node bitmap that a workgroup holds.
pub open spec fn local_bytes(config: GpuWgpuConfig, limits: AdapterLimits, bitmap_bytes: u64) -> int {
    let asked = config.local_ram_kib * 1024;
    let fitted = if asked <= limits.max_workgroup_storage {
        asked
    } else {
        limits.max_workgroup_storage as int
    };
    if fitted <= bitmap_bytes {
        fitted
    } else {
        bitmap_bytes as int
    }
}

/// The edges of one bucket of a part, with a margin of a twentieth and 64.
pub open spec fn bucket_capacity(part_edges: int, bucket_count: int) -> int {
    let base = bits::ceil_div(part_edges, bucket_count);
    base + bits::ceil_div(base, 20) + 64
}

/// The bytes of one of the four arenas: a count per bucket, one for what did
/// not fit, and the buckets.
pub open spec fn arena_bytes(bucket_count: int, capacity: int) -> int {
    (bucket_count / 4 + 1 + bucket_count / 4 * capacity) * 4
}

/// The buckets of dying edges of a part.
pub open spec fn dead_buckets(part_edges: int, local: int) -> int {
    let count = bits::ceil_div(bits::ceil_div(part_edges, 8), local);
    if count >= 1 {
        count
    } else {
        1
    }
}

/// The bytes of the arena of dying edges: each bucket has room for 45 of 100 of
/// its edges, and 64.
pub open spec fn dead_bytes(part_edges: int, dead_count: int) -> int {
    let capacity = bits::ceil_div(bits::ceil_div(part_edges, dead_count) * 45, 100) + 64;
    (dead_count + 1 + dead_count * capacity) * 4
}

/// The buffers for a number of parts.
pub open spec fn sizing_of(
    edge_count: u64,
    bucket_count: int,
    local: int,
    parts: nat,
    overflowing: bool,
) -> SleanSizing {
    let part_edges = bits::ceil_div(edge_count as int, parts as int);
    let capacity = if overflowing {
        1
    } else {
        bucket_capacity(part_edges, bucket_count)
    };
    let dead_count = dead_buckets(part_edges, local);
    SleanSizing {
        bucket_count: bucket_count as u64,
        parts: parts as u64,
        part_edges: part_edges as u64,
        capacity: capacity as u64,
        scratch_bytes: arena_bytes(bucket_count, capacity) as u64,
        dead_bucket_count: dead_count as u64,
        dead_scratch_bytes: dead_bytes(part_edges, dead_count) as u64,
    }
}

/// The buffers for the first number of parts, from `parts` on by doubling,
/// whose buffers the adapter holds; nothing where even one edge per part does
/// not fit.
pub open spec fn fitted_sizing(
    limits: AdapterLimits,
    edge_count: u64,
    bucket_count: int,
    local: int,
    parts: nat,
    overflowing: bool,
) -> Option<SleanSizing>
    decreases 2 * edge_count + 1 - parts,
{
    let sizing = sizing_of(edge_count, bucket_count, local, parts, overflowing);
    if parts > edge_count || parts == 0 {
        None
    } else if limits.holds(sizing.scratch_bytes as int) && limits.holds(
        sizing.dead_scratch_bytes as int,
    ) {
        Some(sizing)
    } else {
        fitted_sizing(limits, edge_count, bucket_count, local, 2 * parts, overflowing)
    }
}

fn size_parts(
    edge_count: u64,
    bucket_count: u64,
    local: u64,
    parts: u64,
    overflowing: bool,
) -> (sizing: SleanSizing)
    requires
        0 < edge_count <= 0x1_0000_0000,
        0 < bucket_count <= 0x2000_0000,
        local > 0,
        parts > 0,
    ensures
        sizing == sizing_of(
            edge_count,
            bucket_count as int,
            local as int,
            parts as nat,
            overflowing,
        ),
{
    let part_edges = bits::div_ceil(edge_count, parts);
    proof {
        bits::lemma_ceil_div(edge_count as int, parts as int);
        bits::lemma_ceil_div(part_edges as int, bucket_count as int);
    }
    let base = bits::div_ceil(part_edges, bucket_count);
    let capacity: u64 = if overflowing {
        1
    } else {
        base + bits::div_ceil(base, 20) + 64
    };
    let per_buffer: u64 = bucket_count / 4;
    assert(per_buffer * capacity <= 0x800_0000 * 0x2_0000_0000) by (nonlinear_arith)
        requires
            per_buffer <= 0x800_0000,
            capacity <= 0x2_0000_0000,
    ;
    let scratch_bytes: u64 = (per_buffer + 1 + per_buffer * capacity) * 4;
    let eighth = bits::div_ceil(part_edges, 8);
    proof {
        bits::lemma_ceil_div(eighth as int, local as int);
    }
    let raw_count = bits::div_ceil(eighth, local);
    let dead_bucket_count: u64 = if raw_count >= 1 {
        raw_count
    } else {
        1
    };
    proof {
        bits::lemma_ceil_div(part_edges as int, dead_bucket_count as int);
    }
    let dead_base = bits::div_ceil(part_edges, dead_bucket_count);
    let dead_capacity: u64 = bits::div_ceil(dead_base * 45, 100) + 64;
    assert(dead_bucket_count * dead_capacity <= 0x2000_0001 * 0x8000_0000) by (nonlinear_arith)
        requires
            dead_bucket_count <= 0x2000_0001,
            dead_capacity <= 0x8000_0000,
    ;
    let dead_scratch_bytes: u64 = (dead_bucket_count + 1 + dead_bucket_count * dead_capacity) * 4;
    SleanSizing {
        bucket_count,
        parts,
        part_edges,
        capacity,
        scratch_bytes,
        dead_bucket_count,
        dead_scratch_bytes,
    }
}

/// What `slean_sizing` returns.
pub open spec fn sizing_result(
    config: GpuWgpuConfig,
    limits: AdapterLimits,
    enabled: bool,
    graph: GraphSize,
    parts: u64,
    overflowing: bool,
) -> Result<SleanSizing, (ErrorKind, Seq<char>)> {
    let local = local_bytes(config, limits, graph.bitmap_bytes);
    let bucket_count = bits::ceil_div(graph.bitmap_bytes as int, local);
    let too_small = (
        ErrorKind::Unsupported,
        "slean cannot fit one part in the adapter's storage binding limit"@,
    );
    if !enabled {
        if parts > graph.edge_count {
            Err(too_small)
        } else {
            Ok(sizing_of(graph.edge_count, bucket_count, local, parts as nat, overflowing))
        }
    } else if !bits::is_power_of_two(bucket_count as nat) || bucket_count > u16::MAX {
        Err(
            (
                ErrorKind::Unsupported,
                "slean requires a power-of-two bucket count fitting u16, got "@ + text::decimal(
                    bucket_count as nat,
                ),
            ),
        )
    } else {
        match fitted_sizing(
            limits,
            graph.edge_count,
            bucket_count,
            local,
            parts as nat,
            overflowing,
        ) {
            Some(sizing) => Ok(sizing),
            None => Err(too_small),
        }
    }
}

/// Whether a result is what a model says: the same value, or an error with the
/// same kind and words.
pub open spec fn matches_model<T>(
    result: Result<T, SolveError>,
    model: Result<T, (ErrorKind, Seq<char>)>,
) -> bool {
    match model {
        Ok(value) => result == Ok::<T, SolveError>(value),
        Err(refusal) => result matches Err(error) && error@ == refusal,
    }
}

/// The buffers of partitioned trimming.  Where it is on, they are fitted to the
/// adapter with as few parts as that takes; where it is off, they are only
/// computed.
pub fn slean_sizing(
    config: &GpuWgpuConfig,
    limits: &AdapterLimits,
    enabled: bool,
    graph: GraphSize,
    parts: u64,
    overflowing: bool,
) -> (result: Result<SleanSizing, SolveError>)
    requires
        graph.valid(),
        config.local_ram_kib > 0,
        limits.max_workgroup_storage > 0,
        parts > 0,
    ensures
        matches_model(
            result,
            sizing_result(*config, *limits, enabled, graph, parts, overflowing),
        ),
{
    proof {
        let edge_bits = choose|edge_bits: u8|
            1 <= edge_bits <= 32 && graph == #[trigger] GraphSize::of(edge_bits);
        lemma_graph_size(edge_bits);
    }
    let asked: u64 = config.local_ram_kib as u64 * 1024;
    let adapter: u64 = limits.max_workgroup_storage as u64;
    let fitted: u64 = if asked <= adapter {
        asked
    } else {
        adapter
    };
    let local: u64 = if fitted <= graph.bitmap_bytes {
        fitted
    } else {
        graph.bitmap_bytes
    };
    proof {
        bits::lemma_ceil_div(graph.bitmap_bytes as int, local as int);
    }
    let bucket_count = bits::div_ceil(graph.bitmap_bytes, local);
    if enabled && (!bits::check_power_of_two(bucket_count) || bucket_count > u16::MAX as u64) {
        let mut reason = String::from_str(
            "slean requires a power-of-two bucket count fitting u16, got ",
        );
        text::append_decimal(&mut reason, bucket_count);
        return Err(SolveError::Unsupported(reason));
    }
    let ghost goal = fitted_sizing(
        *limits,
        graph.edge_count,
        bucket_count as int,
        local as int,
        parts as nat,
        overflowing,
    );
    let mut tried: u64 = parts;
    while tried <= graph.edge_count
        invariant
            0 < graph.edge_count <= 0x1_0000_0000,
            0 < bucket_count <= 0x2000_0000,
            local > 0,
            tried > 0,
            tried == parts || enabled,
            enabled ==> goal == fitted_sizing(
                *limits,
                graph.edge_count,
                bucket_count as int,
                local as int,
                tried as nat,
                overflowing,
            ),
            local == local_bytes(*config, *limits, graph.bitmap_bytes),
            bucket_count == bits::ceil_div(graph.bitmap_bytes as int, local as int),
            enabled ==> bits::is_power_of_two(bucket_count as nat) && bucket_count <= u16::MAX,
            goal == fitted_sizing(
                *limits,
                graph.edge_count,
                bucket_count as int,
                local as int,
                parts as nat,
                overflowing,
            ),
        decreases 2 * graph.edge_count + 1 - tried,
    {
        let sizing = size_parts(graph.edge_count, bucket_count, local, tried, overflowing);
        if !enabled || (limits.can_hold(sizing.scratch_bytes) && limits.can_hold(
            sizing.dead_scratch_bytes,
        )) {
            return Ok(sizing);
        }
        tried = tried * 2;
    }
    Err(unsupported("slean cannot fit one part in the adapter's storage binding limit"))
}

/// Buffers that were fitted to an adapter fit it, and are cut into the number
/// of parts that was asked for or that number doubled some times.
pub proof fn lemma_fitted_sizing_fits(
    limits: AdapterLimits,
    edge_count: u64,
    bucket_count: int,
    local: int,
    parts: nat,
    overflowing: bool,
)
    requires
        fitted_sizing(limits, edge_count, bucket_count, local, parts, overflowing) is Some,
    ensures
        ({
            let sizing = fitted_sizing(
                limits,
                edge_count,
                bucket_count,
                local,
                parts,
                overflowing,
            )->0;
            &&& limits.holds(sizing.scratch_bytes as int)
            &&& limits.holds(sizing.dead_scratch_bytes as int)
            &&& parts <= sizing.parts <= edge_count
            &&& sizing == sizing_of(
                edge_count,
                bucket_count,
                local,
                sizing.parts as nat,
                overflowing,
            )
            &&& bits::is_power_of_two(parts) ==> bits::is_power_of_two(sizing.parts as nat)
        }),
    decreases 2 * edge_count + 1 - parts,
{
    let sizing = sizing_of(edge_count, bucket_count, local, parts, overflowing);
    if !(limits.holds(sizing.scratch_bytes as int) && limits.holds(
        sizing.dead_scratch_bytes as int,
    )) {
        lemma_fitted_sizing_fits(limits, edge_count, bucket_count, local, 2 * parts, overflowing);
        if bits::is_power_of_two(parts) {
            let exponent = choose|exponent: nat| parts == #[trigger] power2::pow2(exponent);
            power2::lemma_pow2_unfold(exponent + 1);
            assert(2 * parts == power2::pow2(exponent + 1));
        }
    }
}

/// A run of consecutive edges.
#[derive(Debug, Clone, Copy, PartialEq, Eq, Structural)]
pub struct EdgeRange {
    pub base: u64,
    pub count: u64,
}

/// The range at position `i` where `total` edges are cut into ranges of `size`.
pub open spec fn range_at(total: int, size: int, i: int) -> EdgeRange {
    EdgeRange {
        base: (i * size) as u64,
        count: (if size <= total - i * size {
            size
        } else {
            total - i * size
        }) as u64,
    }
}

/// `total` edges cut into ranges of `size`, the last one shorter where they do
/// not come out even.
pub open spec fn edge_ranges(total: int, size: int) -> Seq<EdgeRange> {
    Seq::new(bits::ceil_div(total, size) as nat, |i: int| range_at(total, size, i))
}

/// Cuts `total` edges into ranges of `size`.
pub fn split_edges(total: u64, size: u64) -> (ranges: Vec<EdgeRange>)
    requires
        size > 0,
    ensures
        ranges@ == edge_ranges(total as int, size as int),
{
    let mut ranges: Vec<EdgeRange> = Vec::new();
    let mut base: u64 = 0;
    proof {
        bits::lemma_ceil_div(total as int, size as int);
    }
    let ghost count = bits::ceil_div(total as int, size as int);
    let ghost mut i: int = 0;
    let mut left: u64 = total;
    while left > 0
        invariant
            size > 0,
            count == bits::ceil_div(total as int, size as int),
            forall|k: int| 0 <= k < count ==> #[trigger] (k * size) < total,
            count * size >= total,
            0 <= i <= count,
            ranges.len() == i,
            left > 0 ==> base == i * size,
            left == (if i * size <= total {
                total - i * size
            } else {
                0
            }),
            left == 0 ==> i == count,
            forall|k: int|
                0 <= k < i ==> #[trigger] ranges@[k] == range_at(total as int, size as int, k),
        decreases left,
    {
        let taken: u64 = if size <= left {
            size
        } else {
            left
        };
        ranges.push(EdgeRange { base, count: taken });
        proof {
            assert((i + 1) * size == i * size + size) by (nonlinear_arith);
            assert(i < count) by (nonlinear_arith)
                requires
                    i * size < total,
                    count * size >= total,
                    size > 0,
            ;
            if left <= size {
                if i + 1 < count {
                    assert((i + 1) * size < total);
                }
            }
            i = i + 1;
        }
        left = left - taken;
        if left > 0 {
            base = base + taken;
        }
    }
    assert(ranges@ =~= edge_ranges(total as int, size as int));
    ranges
}

/// The ranges hold every edge exactly once.
pub proof fn lemma_ranges_partition(total: u64, size: u64, edge: u64)
    requires
        size > 0,
        edge < total,
    ensures
        ({
            let ranges = edge_ranges(total as int, size as int);
            let home = edge as int / size as int;
            &&& 0 <= home < ranges.len()
            &&& forall|i: int|
                0 <= i < ranges.len() ==> (i == home <==> (#[trigger] ranges[i]).base <= edge
                    < ranges[i].base + ranges[i].count)
        }),
{
    let ranges = edge_ranges(total as int, size as int);
    let s = size as int;
    let home = edge as int / s;
    bits::lemma_ceil_div(total as int, s);
    vstd::arithmetic::div_mod::lemma_fundamental_div_mod(edge as int, s);
    vstd::arithmetic::div_mod::lemma_mod_bound(edge as int, s);
    assert(s * home == home * s) by (nonlinear_arith);
    let n = bits::ceil_div(total as int, s);
    assert(0 <= home < n) by (nonlinear_arith)
        requires
            home * s <= edge,
            edge < total,
            n * s >= total,
            s > 0,
            home * s + s > 0,
            edge < home * s + s,
            edge >= 0,
    ;
    assert forall|i: int| 0 <= i < ranges.len() implies (i == home <==> (#[trigger] ranges[i]).base
        <= edge < ranges[i].base + ranges[i].count) by {
        assert(i * s < total);
        assert(i * s >= 0) by (nonlinear_arith)
            requires
                i >= 0,
                s > 0,
        ;
        if i < home {
            assert(i * s + s <= home * s) by (nonlinear_arith)
                requires
                    i + 1 <= home,
                    s > 0,
            ;
        } else if i > home {
            assert(home * s + s <= i * s) by (nonlinear_arith)
                requires
                    home + 1 <= i,
                    s > 0,
            ;
        }
    }
}

/// Cutting a power of two into a smaller power of two of parts comes out even:
/// there are as many ranges as parts.
pub proof fn lemma_parts_come_out_even(edge_bits: nat, exponent: nat)
    requires
        exponent <= edge_bits,
    ensures
        ({
            let edges = power2::pow2(edge_bits) as int;
            let parts = power2::pow2(exponent) as int;
            let size = bits::ceil_div(edges, parts);
            &&& size > 0
            &&& size * parts == edges
            &&& bits::ceil_div(edges, size) == parts
        }),
{
    let rest = (edge_bits - exponent) as nat;
    power2::lemma_pow2_adds(exponent, rest);
    power2::lemma_pow2_pos(exponent);
    power2::lemma_pow2_pos(rest);
    let edges = power2::pow2(edge_bits) as int;
    let parts = power2::pow2(exponent) as int;
    let quotient = power2::pow2(rest) as int;
    assert(quotient * parts == parts * quotient) by (nonlinear_arith);
    vstd::arithmetic::div_mod::lemma_fundamental_div_mod_converse(
        edges + parts - 1,
        parts,
        quotient,
        parts - 1,
    );
    vstd::arithmetic::div_mod::lemma_fundamental_div_mod_converse(
        edges + quotient - 1,
        quotient,
        parts,
        quotient - 1,
    );
}

/// How a trim was asked for.
#[derive(Debug, Clone, Copy, PartialEq, Eq, Structural)]
pub struct TrimOptions {
    pub bucketed_mark: bool,
    pub slean: bool,
    pub fine_end: Option<u32>,
}

/// Which kinds of rounds a trim uses.
#[derive(Debug, Clone, Copy, PartialEq, Eq, Structural)]
pub struct ProductionModes {
    pub fine: bool,
    pub bucketed_mark: bool,
    pub slean: bool,
}

/// Which kinds of rounds a trim uses: bucketed ones for graphs from a size on,
/// partitioned ones among them where they were asked for, and a compact arena
/// after them where enough rounds follow.  Diagnostics that replace the search
/// switch the last two off.
pub open spec fn modes_of(
    edge_bits: u8,
    diagnostics: Diagnostics,
    options: TrimOptions,
) -> ProductionModes {
    let large = options.bucketed_mark && edge_bits >= BUCKETED_MARK_MIN_EDGE_BITS;
    let bucketed_mark = large && diagnostics.exclusives() == 0;
    ProductionModes {
        fine: large && diagnostics.rounds > BUCKETED_MARK_ROUNDS && !diagnostics.replaces_search(),
        bucketed_mark,
        slean: options.slean && bucketed_mark && !diagnostics.replaces_search(),
    }
}

/// Which kinds of rounds a trim uses.
pub fn production_modes(edge_bits: u8, diagnostics: &Diagnostics, options: TrimOptions) -> (modes:
    ProductionModes)
    ensures
        modes == modes_of(edge_bits, *diagnostics, options),
{
    let large = options.bucketed_mark && edge_bits >= BUCKETED_MARK_MIN_EDGE_BITS;
    let bucketed_mark = large && !diagnostics.has_exclusive();
    ProductionModes {
        fine: large && diagnostics.rounds > BUCKETED_MARK_ROUNDS && !diagnostics.result_only(),
        bucketed_mark,
        slean: options.slean && bucketed_mark && !diagnostics.result_only(),
    }
}

/// How the scratch buffer of a bucketed round is laid out: the words before the
/// buckets, the room that each bucket has beyond an even share, and the word
/// that counts what did not fit.
#[derive(Debug, Clone, Copy)]
pub struct BucketLayout {
    pub header_words: u64,
    pub margin: u64,
    pub overflow_word: u64,
}

impl BucketLayout {
    /// Whether the words can be counted in 64 bits.
    pub open spec fn valid(self) -> bool {
        self.header_words <= u32::MAX && self.margin <= u32::MAX && self.overflow_word <= u32::MAX
    }

    /// Whether the overflow word stands behind the counts and in the header, so
    /// that clearing the counts keeps it and clearing the header does not.
    pub open spec fn separates(self) -> bool {
        self.valid() && BUCKETED_MARK_BUCKETS <= self.overflow_word < self.header_words
    }
}

/// The edges that one chunk takes.
pub open spec fn chunk_edges_of(graph: GraphSize) -> u64 {
    if graph.edge_count <= BUCKET_CHUNK_EDGES {
        graph.edge_count
    } else {
        BUCKET_CHUNK_EDGES
    }
}

/// The buckets that the scratch buffer is laid out for.
pub open spec fn scratch_buckets(diagnostics: Diagnostics) -> u32 {
    if diagnostics.bucket_round0 {
        diagnostics.bucket_count
    } else {
        BUCKETED_MARK_BUCKETS
    }
}

/// The bytes of the scratch buffer.
pub open spec fn scratch_bytes_of(
    layout: BucketLayout,
    graph: GraphSize,
    diagnostics: Diagnostics,
    modes: ProductionModes,
    sizing: SleanSizing,
) -> int {
    let buckets = scratch_buckets(diagnostics);
    let capacity = bits::ceil_div(chunk_edges_of(graph) as int, buckets as int) + layout.margin;
    let payload = buckets * capacity;
    if modes.slean {
        sizing.scratch_bytes as int
    } else if diagnostics.bucket_round0 || modes.bucketed_mark {
        (layout.header_words + (if modes.bucketed_mark {
            2 * payload
        } else {
            payload
        })) * 4
    } else {
        4
    }
}

/// What `bucket_scratch_size` returns.
pub open spec fn scratch_result(
    limits: AdapterLimits,
    layout: BucketLayout,
    edge_bits: u8,
    graph: GraphSize,
    diagnostics: Diagnostics,
    modes: ProductionModes,
    sizing: SleanSizing,
) -> Result<u64, (ErrorKind, Seq<char>)> {
    let bytes = scratch_bytes_of(layout, graph, diagnostics, modes, sizing);
    if limits.holds(bytes) {
        Ok(bytes as u64)
    } else {
        Err(
            (
                ErrorKind::Unsupported,
                limits.name@ + " exposes max storage buffer "@ + text::decimal(
                    (limits.max_storage_binding / 1_048_576) as nat,
                ) + " MiB, but bucketed C"@ + text::decimal(edge_bits as nat)
                    + " marking needs "@ + text::decimal((bytes / 1_048_576) as nat)
                    + " MiB scratch"@,
            ),
        )
    }
}

/// The bytes of the scratch buffer, if the adapter holds them.
pub fn bucket_scratch_size(
    limits: &AdapterLimits,
    layout: &BucketLayout,
    edge_bits: u8,
    graph: GraphSize,
    diagnostics: &Diagnostics,
    modes: ProductionModes,
    sizing: &SleanSizing,
) -> (result: Result<u64, SolveError>)
    requires
        layout.valid(),
        0 < scratch_buckets(*diagnostics) <= 128,
    ensures
        matches_model(
            result,
            scratch_result(*limits, *layout, edge_bits, graph, *diagnostics, modes, *sizing),
        ),
{
    let buckets: u32 = if diagnostics.bucket_round0 {
        diagnostics.bucket_count
    } else {
        BUCKETED_MARK_BUCKETS
    };
    let chunk: u64 = if graph.edge_count <= BUCKET_CHUNK_EDGES {
        graph.edge_count
    } else {
        BUCKET_CHUNK_EDGES
    };
    proof {
        bits::lemma_ceil_div(chunk as int, buckets as int);
    }
    let capacity: u64 = bits::div_ceil(chunk, buckets as u64) + layout.margin;
    assert(buckets * capacity <= 128 * 0x1_1000_0000) by (nonlinear_arith)
        requires
            buckets <= 128,
            capacity <= 0x1_1000_0000,
    ;
    let payload: u64 = buckets as u64 * capacity;
    let words: u64 = if modes.bucketed_mark {
        2 * payload
    } else {
        payload
    };
    let bytes: u64 = if modes.slean {
        sizing.scratch_bytes
    } else if diagnostics.bucket_round0 || modes.bucketed_mark {
        (layout.header_words + words) * 4
    } else {
        4
    };
    if !limits.can_hold(bytes) {
        let mut reason = limits.name.clone();
        reason.append(" exposes max storage buffer ");
        text::append_decimal(&mut reason, limits.max_storage_binding / MIB);
        reason.append(" MiB, but bucketed C");
        text::append_decimal(&mut reason, edge_bits as u64);
        reason.append(" marking needs ");
        text::append_decimal(&mut reason, bytes / MIB);
        reason.append(" MiB scratch");
        return Err(SolveError::Unsupported(reason));
    }
    Ok(bytes)
}

/// What a shader is told of a graph and of its part of the work.
#[derive(Debug, Clone, Copy)]
pub struct Params {
    pub key_words: [u32; 8],
    pub edge_bits: u32,
    pub side: u32,
    pub edge_count_lo: u32,
    pub word_count: u32,
    pub node_mask: u32,
    pub chunk_base: u32,
    pub chunk_count: u32,
    pub bucket: u32,
}

impl Params {
    /// Whether these are the parameters of one side of a graph, as a whole.
    pub open spec fn is_for_side(
        self,
        request: GraphParams,
        diagnostics: Diagnostics,
        side: u32,
    ) -> bool {
        let graph = GraphSize::of(request.edge_bits);
        &&& self.key_words@ == crate::siphash::gpu_words(request.keys)
        &&& self.edge_bits == request.edge_bits
        &&& self.side == side
        &&& self.edge_count_lo == graph.edge_count % 0x1_0000_0000
        &&& self.word_count == graph.word_count
        &&& self.node_mask == power2::pow2(
            diagnostics.masked_bits(request.edge_bits) as nat,
        ) - 1
        &&& self.chunk_base == 0
        &&& self.chunk_count == 0
        &&& self.bucket == 0
    }

    /// Whether these are the parameters of another set, but for a range of
    /// edges and a bucket word.
    pub open spec fn narrows(self, whole: Params, range: EdgeRange, bucket: u32) -> bool {
        self == (Params {
            chunk_base: range.base as u32,
            chunk_count: range.count as u32,
            bucket,
            ..whole
        })
    }
}

/// The parameters of one side of a graph.
pub fn side_params(request: &GraphParams, diagnostics: &Diagnostics, side: u32) -> (params: Params)
    requires
        1 <= request.edge_bits <= 32,
        diagnostics.masked_bits(request.edge_bits) <= 32,
    ensures
        params.is_for_side(*request, *diagnostics, side),
{
    proof {
        lemma_graph_size(request.edge_bits);
    }
    let edge_count = bits::power_of_two(request.edge_bits);
    let word_count = bits::div_ceil(edge_count, 32);
    let key_words = GpuSipKeys::from(request.keys).words;
    assert(key_words@ =~= crate::siphash::gpu_words(request.keys));
    Params {
        key_words,
        edge_bits: request.edge_bits as u32,
        side,
        edge_count_lo: (edge_count % 0x1_0000_0000) as u32,
        word_count: word_count as u32,
        node_mask: diagnostics.node_mask(request.edge_bits),
        chunk_base: 0,
        chunk_count: 0,
        bucket: 0,
    }
}

/// A bucket word: the number of buckets in its upper half, a bucket or a flag
/// in its lower half.
pub open spec fn bucket_word(bucket_count: int, low: int) -> int {
    bucket_count * 0x1_0000 + low
}

/// The parameters of every part of a side.
pub fn part_params(whole: &Params, sizing: &SleanSizing, edge_count: u64, overflowing: bool) -> (
    params: Vec<Params>)
    requires
        sizing.part_edges > 0,
        edge_count <= 0x1_0000_0000,
        sizing.part_edges < 0x1_0000_0000,
        sizing.bucket_count <= u16::MAX,
    ensures
        ({
            let ranges = edge_ranges(edge_count as int, sizing.part_edges as int);
            let word = bucket_word(sizing.bucket_count as int, if overflowing {
                1
            } else {
                0
            }) as u32;
            &&& params.len() == ranges.len()
            &&& forall|i: int|
                0 <= i < ranges.len() ==> (#[trigger] params@[i]).narrows(*whole, ranges[i], word)
        }),
{
    let ranges = split_edges(edge_count, sizing.part_edges);
    let low: u32 = if overflowing {
        1
    } else {
        0
    };
    let word: u32 = sizing.bucket_count as u32 * 0x1_0000 + low;
    range_params(whole, &ranges, word)
}

fn range_params(whole: &Params, ranges: &Vec<EdgeRange>, word: u32) -> (params: Vec<Params>)
    ensures
        params.len() == ranges.len(),
        forall|i: int|
            0 <= i < ranges.len() ==> (#[trigger] params@[i]).narrows(*whole, ranges@[i], word),
{
    let mut params: Vec<Params> = Vec::with_capacity(ranges.len());
    let mut i: usize = 0;
    while i < ranges.len()
        invariant
            i <= ranges.len(),
            params.len() == i,
            forall|k: int|
                0 <= k < i ==> (#[trigger] params@[k]).narrows(*whole, ranges@[k], word),
        decreases ranges.len() - i,
    {
        let range = ranges[i];
        let narrowed = Params {
            chunk_base: range.base as u32,
            chunk_count: range.count as u32,
            bucket: word,
            ..*whole
        };
        params.push(narrowed);
        i = i + 1;
    }
    params
}

/// The parameters of every chunk that a side is scattered in.
pub fn scatter_params(whole: &Params, edge_count: u64, chunk_edges: u64, bucket_count: u32) -> (
    params: Vec<Params>)
    requires
        0 < chunk_edges <= BUCKET_CHUNK_EDGES,
        edge_count <= 0x1_0000_0000,
        bucket_count <= u16::MAX,
    ensures
        ({
            let ranges = edge_ranges(edge_count as int, chunk_edges as int);
            let word = bucket_word(bucket_count as int, 0) as u32;
            &&& params.len() == ranges.len()
            &&& forall|i: int|
                0 <= i < ranges.len() ==> (#[trigger] params@[i]).narrows(*whole, ranges[i], word)
        }),
{
    let ranges = split_edges(edge_count, chunk_edges);
    range_params(whole, &ranges, bucket_count * 0x1_0000)
}

/// The parameters of every bucket of a bucketed round.
pub fn mark_params(whole: &Params, chunk_edges: u64, bucket_count: u32) -> (params: Vec<Params>)
    requires
        chunk_edges <= BUCKET_CHUNK_EDGES,
        bucket_count <= u16::MAX,
    ensures
        params.len() == bucket_count,
        forall|bucket: int|
            0 <= bucket < bucket_count ==> #[trigger] params@[bucket] == (Params {
                chunk_count: chunk_edges as u32,
                bucket: bucket_word(bucket_count as int, bucket) as u32,
                ..*whole
            }),
{
    let mut params: Vec<Params> = Vec::new();
    let mut bucket: u32 = 0;
    while bucket < bucket_count
        invariant
            bucket <= bucket_count <= u16::MAX,
            params.len() == bucket,
            forall|k: int|
                0 <= k < bucket ==> #[trigger] params@[k] == (Params {
                    chunk_count: chunk_edges as u32,
                    bucket: bucket_word(bucket_count as int, k) as u32,
                    ..*whole
                }),
        decreases bucket_count - bucket,
    {
        params.push(
            Params {
                chunk_count: chunk_edges as u32,
                bucket: bucket_count * 0x1_0000 + bucket,
                ..*whole
            },
        );
        bucket = bucket + 1;
    }
    params
}

/// The words of scratch that the diagnostic of the first round needs.
pub open spec fn round0_bytes(layout: BucketLayout, bucket_count: u32) -> int {
    let capacity = bits::ceil_div(BUCKET_CHUNK_EDGES as int, bucket_count as int) + layout.margin;
    (layout.header_words + bucket_count * capacity) * 4
}

/// Checks that the diagnostic of the first round has the scratch that it needs.
pub fn check_round0_scratch(layout: &BucketLayout, bucket_count: u32, available: u64) -> (result:
    Result<(), SolveError>)
    requires
        layout.valid(),
        0 < bucket_count <= u16::MAX,
    ensures
        match result {
            Ok(()) => round0_bytes(*layout, bucket_count) <= available,
            Err(error) => round0_bytes(*layout, bucket_count) > available && error@ == (
                ErrorKind::Unsupported,
                "round-0 bucket diagnostic needs "@ + text::decimal(
                    (round0_bytes(*layout, bucket_count) / 1_048_576) as nat,
                ) + " MiB of scratch, but only "@ + text::decimal(
                    (available / 1_048_576) as nat,
                ) + " MiB are available"@,
            ),
        },
{
    proof {
        bits::lemma_ceil_div(BUCKET_CHUNK_EDGES as int, bucket_count as int);
        let share = bits::ceil_div(BUCKET_CHUNK_EDGES as int, bucket_count as int);
        assert(0 <= share <= BUCKET_CHUNK_EDGES) by (nonlinear_arith)
            requires
                bucket_count >= 1,
                share == (BUCKET_CHUNK_EDGES + bucket_count - 1) / bucket_count as int,
                BUCKET_CHUNK_EDGES == 268_435_456,
        ;
        let capacity = share + layout.margin;
        assert(0 <= bucket_count * capacity <= 0xffff * 0x1_1000_0000) by (nonlinear_arith)
            requires
                0 <= bucket_count <= 0xffff,
                0 <= capacity <= 0x1_1000_0000,
        ;
    }
    let capacity: u64 = bits::div_ceil(BUCKET_CHUNK_EDGES, bucket_count as u64) + layout.margin;
    let bytes: u64 = (layout.header_words + bucket_count as u64 * capacity) * 4;
    if bytes <= available {
        return Ok(());
    }
    let mut reason = text::around_decimal(
        "round-0 bucket diagnostic needs ",
        bytes / MIB,
        " MiB of scratch, but only ",
    );
    text::append_decimal(&mut reason, available / MIB);
    reason.append(" MiB are available");
    Err(SolveError::Unsupported(reason))
}

/// What the portable backend is called.
pub fn backend_name() -> (name: &'static str)
    ensures
        name@ == "gpu-wgpu"@,
{
    "gpu-wgpu"
}

/// What the portable backend takes.
pub open spec fn backend_takes() -> BackendCapabilities {
    BackendCapabilities { min_edge_bits: 1, max_edge_bits: 32, cycle_length: 42 }
}

/// What the portable backend takes.
pub fn backend_capabilities() -> (capabilities: BackendCapabilities)
    ensures
        capabilities == backend_takes(),
{
    BackendCapabilities { min_edge_bits: 1, max_edge_bits: 32, cycle_length: 42 }
}

/// The readings of the available memory.
#[derive(Debug, Clone, Copy)]
pub struct MemoryReadings {
    pub first: Option<u64>,
    pub second: Option<u64>,
}

/// What a trim allocates and how it runs.
#[derive(Debug, Clone, Copy, PartialEq, Eq, Structural)]
pub struct TrimSetup {
    pub diagnostics: Diagnostics,
    pub modes: ProductionModes,
    pub graph: GraphSize,
    pub sizing: SleanSizing,
    pub scratch_bytes: u64,
    pub chunk_edges: u64,
    pub groups: u32,
}

/// What `prepare_trim` returns once the diagnostics are known.
pub open spec fn setup_result(
    config: GpuWgpuConfig,
    limits: AdapterLimits,
    layout: BucketLayout,
    diagnostics: Diagnostics,
    request: GraphParams,
    options: TrimOptions,
    memory: MemoryReadings,
    overflowing: bool,
) -> Result<TrimSetup, (ErrorKind, Seq<char>)> {
    match GraphSize::refusal(limits, request) {
        Some(refusal) => Err(refusal),
        None => {
            let graph = GraphSize::of(request.edge_bits);
            let modes = modes_of(request.edge_bits, diagnostics, options);
            let parts = asked_parts(config, modes.slean, memory.first, memory.second);
            match sizing_result(config, limits, modes.slean, graph, parts, overflowing) {
                Err(refusal) => Err(refusal),
                Ok(sizing) => match scratch_result(
                    limits,
                    layout,
                    request.edge_bits,
                    graph,
                    diagnostics,
                    modes,
                    sizing,
                ) {
                    Err(refusal) => Err(refusal),
                    Ok(scratch_bytes) => Ok(
                        TrimSetup {
                            diagnostics,
                            modes,
                            graph,
                            sizing,
                            scratch_bytes,
                            chunk_edges: chunk_edges_of(graph),
                            groups: word_groups(graph.word_count as int) as u32,
                        },
                    ),
                },
            }
        },
    }
}

/// What `prepare_trim` returns.
pub open spec fn prepare_result(
    config: GpuWgpuConfig,
    limits: AdapterLimits,
    env: DiagnosticEnv,
    layout: BucketLayout,
    request: GraphParams,
    rounds: u32,
    options: TrimOptions,
    memory: MemoryReadings,
    overflowing: bool,
) -> Result<TrimSetup, (ErrorKind, Seq<char>)> {
    match Diagnostics::from_env_result(env, request.edge_bits, rounds, options.fine_end) {
        Err(reason) => Err((ErrorKind::InvalidConfig, reason)),
        Ok(diagnostics) => setup_result(
            config,
            limits,
            layout,
            diagnostics,
            request,
            options,
            memory,
            overflowing,
        ),
    }
}

/// Decides what a trim allocates and how it runs.
pub fn prepare_trim(
    config: &GpuWgpuConfig,
    limits: &AdapterLimits,
    env: &DiagnosticEnv,
    layout: &BucketLayout,
    request: &GraphParams,
    rounds: u32,
    options: TrimOptions,
    memory: MemoryReadings,
    overflowing: bool,
) -> (result: Result<TrimSetup, SolveError>)
    requires
        config.refusal() is None,
        limits.max_workgroup_storage > 0,
        layout.valid(),
    ensures
        matches_model(
            result,
            prepare_result(
                *config,
                *limits,
                *env,
                *layout,
                *request,
                rounds,
                options,
                memory,
                overflowing,
            ),
        ),
{
    let diagnostics = match Diagnostics::from_env(
        env,
        request.edge_bits,
        rounds,
        options.fine_end,
    ) {
        Ok(diagnostics) => diagnostics,
        Err(error) => {
            return Err(error);
        },
    };
    let graph = match GraphSize::new(limits, *request) {
        Ok(graph) => graph,
        Err(error) => {
            return Err(error);
        },
    };
    let modes = production_modes(request.edge_bits, &diagnostics, options);
    let parts = selected_slean_parts(config, modes.slean, memory.first, memory.second);
    let sizing = match slean_sizing(config, limits, modes.slean, graph, parts, overflowing) {
        Ok(sizing) => sizing,
        Err(error) => {
            return Err(error);
        },
    };
    let scratch_bytes = match bucket_scratch_size(
        limits,
        layout,
        request.edge_bits,
        graph,
        &diagnostics,
        modes,
        &sizing,
    ) {
        Ok(scratch_bytes) => scratch_bytes,
        Err(error) => {
            return Err(error);
        },
    };
    let chunk_edges: u64 = if graph.edge_count <= BUCKET_CHUNK_EDGES {
        graph.edge_count
    } else {
        BUCKET_CHUNK_EDGES
    };
    let groups = groups_for_words(graph.word_count);
    Ok(TrimSetup { diagnostics, modes, graph, sizing, scratch_bytes, chunk_edges, groups })
}

/// Numbers of parts are tried from the one asked for, doubled each time, and the
/// first whose buffers fit is taken: where some doubling up to the number of edges
/// fits, there are buffers, and of no more parts than that doubling.
pub proof fn lemma_first_fitting_doubling_is_taken(
    limits: AdapterLimits,
    edge_count: u64,
    bucket_count: int,
    local: int,
    parts: nat,
    overflowing: bool,
    doublings: nat,
)
    requires
        parts > 0,
        parts * power2::pow2(doublings) <= edge_count,
        ({
            let sizing = sizing_of(
                edge_count,
                bucket_count,
                local,
                parts * power2::pow2(doublings),
                overflowing,
            );
            limits.holds(sizing.scratch_bytes as int) && limits.holds(
                sizing.dead_scratch_bytes as int,
            )
        }),
    ensures
        ({
            let fitted = fitted_sizing(
                limits,
                edge_count,
                bucket_count,
                local,
                parts,
                overflowing,
            );
            fitted is Some && fitted->0.parts <= parts * power2::pow2(doublings)
        }),
    decreases doublings,
{
    power2::lemma2_to64();
    power2::lemma_pow2_pos(doublings);
    assert(parts <= parts * power2::pow2(doublings)) by (nonlinear_arith)
        requires
            power2::pow2(doublings) > 0,
    ;
    if doublings == 0 {
        assert(parts * 1 == parts);
    } else {
        power2::lemma_pow2_unfold(doublings);
        let half = power2::pow2((doublings - 1) as nat);
        assert(parts * (2 * half) == (2 * parts) * half) by (nonlinear_arith);
        lemma_first_fitting_doubling_is_taken(
            limits,
            edge_count,
            bucket_count,
            local,
            2 * parts,
            overflowing,
            (doublings - 1) as nat,
        );
    }
}

/// The parts that were asked for are kept where nothing speaks against them.  The
/// automatic choice takes two where 18 GiB were free both times they were read,
/// and four where they were not; two that were asked for become four without that
/// memory.
pub proof fn lemma_parts_follow_the_memory(
    config: GpuWgpuConfig,
    first: Option<u64>,
    second: Option<u64>,
)
    ensures
        asked_parts(config, false, first, second) == config.slean_parts,
        config.trimming != TrimmingMode::Auto && config.slean_parts != 2 ==> asked_parts(
            config,
            true,
            first,
            second,
        ) == config.slean_parts,
        config.trimming != TrimmingMode::Auto && config.slean_parts == 2 ==> asked_parts(
            config,
            true,
            first,
            second,
        ) == if second is Some && second->0 >= 19_327_352_832 {
            2u64
        } else {
            4u64
        },
        config.trimming == TrimmingMode::Auto && first is Some ==> asked_parts(
            config,
            true,
            first,
            second,
        ) == if first->0 >= 19_327_352_832 && second is Some && second->0 >= 19_327_352_832 {
            2u64
        } else {
            4u64
        },
{
}

/// A workgroup holds as much of a bitmap as was asked for, as it has memory for
/// and as there is: the least of the three.
pub proof fn lemma_workgroups_hold_the_least(
    config: GpuWgpuConfig,
    limits: AdapterLimits,
    bitmap_bytes: u64,
)
    ensures
        local_bytes(config, limits, bitmap_bytes) <= config.local_ram_kib * 1024,
        local_bytes(config, limits, bitmap_bytes) <= limits.max_workgroup_storage,
        local_bytes(config, limits, bitmap_bytes) <= bitmap_bytes,
        ({
            let bytes = local_bytes(config, limits, bitmap_bytes);
            bytes == config.local_ram_kib * 1024 || bytes == limits.max_workgroup_storage || bytes
                == bitmap_bytes
        }),
{
}

/// The buckets of a part have room for a twentieth more edges than an even share,
/// and 64 besides, and for no more than that.
pub proof fn lemma_buckets_have_a_twentieth_to_spare(part_edges: int, bucket_count: int)
    requires
        part_edges >= 0,
        bucket_count > 0,
    ensures
        ({
            let share = bits::ceil_div(part_edges, bucket_count);
            let room = bucket_capacity(part_edges, bucket_count) - 64;
            &&& share * bucket_count >= part_edges
            &&& 20 * room >= 21 * share
            &&& 20 * room < 21 * share + 20
        }),
{
    let share = bits::ceil_div(part_edges, bucket_count);
    bits::lemma_ceil_div(part_edges, bucket_count);
    bits::lemma_ceil_div(share, 20);
}

/// The dead edges of a part go to as few buckets as cover its bitmap, one at
/// least, and each has room for 45 in a hundred of an even share, and 64 besides.
pub proof fn lemma_dead_buckets_cover_their_part(part_edges: int, local: int)
    requires
        part_edges >= 0,
        local > 0,
    ensures
        ({
            let count = dead_buckets(part_edges, local);
            let bytes = bits::ceil_div(part_edges, 8);
            let share = bits::ceil_div(part_edges, count);
            let room = bits::ceil_div(45 * share, 100);
            &&& count >= 1
            &&& count * local >= bytes
            &&& count > 1 ==> (count - 1) * local < bytes
            &&& 100 * room >= 45 * share
            &&& dead_bytes(part_edges, count) == 4 * (count * (room + 65) + 1)
        }),
{
    let bytes = bits::ceil_div(part_edges, 8);
    bits::lemma_ceil_div(part_edges, 8);
    bits::lemma_ceil_div(bytes, local);
    let count = dead_buckets(part_edges, local);
    let share = bits::ceil_div(part_edges, count);
    bits::lemma_ceil_div(part_edges, count);
    assert(share * 45 == 45 * share);
    bits::lemma_ceil_div(45 * share, 100);
    let room = bits::ceil_div(45 * share, 100);
    assert(count * (room + 65) == count + count * (room + 64)) by (nonlinear_arith);
    if bits::ceil_div(bytes, local) < 1 {
        assert(bytes == 0);
        assert(count * local >= 0) by (nonlinear_arith)
            requires
                count == 1,
                local > 0,
        ;
    }
}

/// As many groups are started as the words need, up to 4096.
pub proof fn lemma_groups_reach_every_word(word_count: int)
    requires
        word_count >= 0,
    ensures
        0 <= word_groups(word_count) <= 4096,
        word_count <= 4096 * 256 ==> word_groups(word_count) * 256 >= word_count,
        word_groups(word_count) > 0 ==> (word_groups(word_count) - 1) * 256 < word_count,
        word_count > 4096 * 256 ==> word_groups(word_count) == 4096,
{
    bits::lemma_ceil_div(word_count, 256);
}

/// A graph is taken exactly where its size and its cycle length make sense and
/// the adapter can hold one bit for each of its edges.
pub proof fn lemma_graphs_that_fit_are_taken(limits: AdapterLimits, request: GraphParams)
    ensures
        GraphSize::refusal(limits, request) is None <==> {
            &&& 1 <= request.edge_bits <= 32
            &&& request.cycle_length > 0
            &&& request.cycle_length % 2 == 0
            &&& GraphSize::of(request.edge_bits).bitmap_bytes <= limits.max_buffer_size
            &&& GraphSize::of(request.edge_bits).bitmap_bytes <= limits.max_storage_binding
        },
{
}

/// Marking is bucketed for graphs of at least 24 edge bits where that was asked
/// for, and the rest builds on it.  No diagnostic leaves a partitioned or a fine
/// trim whose survivors are searched.
pub proof fn lemma_modes_follow_the_size(
    edge_bits: u8,
    diagnostics: Diagnostics,
    options: TrimOptions,
)
    ensures
        ({
            let modes = modes_of(edge_bits, diagnostics, options);
            &&& modes.bucketed_mark <==> options.bucketed_mark && edge_bits >= 24
                && !diagnostics.siphash_only && !diagnostics.bucket_round0
                && diagnostics.mask_bits is None
            &&& modes.slean <==> options.slean && modes.bucketed_mark
                && !diagnostics.survivor_counts && !diagnostics.fine_csr
            &&& modes.fine <==> modes.bucketed_mark && diagnostics.rounds > 4
                && !diagnostics.survivor_counts && !diagnostics.fine_csr
        }),
{
}

/// A chunk is the whole graph up to 2^28 edges, and never more.
pub proof fn lemma_chunks_are_bounded(graph: GraphSize)
    ensures
        chunk_edges_of(graph) <= 268_435_456,
        chunk_edges_of(graph) <= graph.edge_count,
        chunk_edges_of(graph) == 268_435_456 || chunk_edges_of(graph) == graph.edge_count,
{
}

/// Buffers that were sized for a number of parts have that number of parts, which
/// cover the graph, and a quarter of the buckets to each arena, with a count for
/// each and one word for what overflowed.
pub proof fn lemma_sizes_cover_the_graph(
    edge_count: u64,
    bucket_count: int,
    local: int,
    parts: nat,
)
    requires
        0 < parts <= edge_count <= 0x1_0000_0000,
        0 < bucket_count <= 0x1_0000,
        0 < local,
    ensures
        ({
            let sizing = sizing_of(edge_count, bucket_count, local, parts, false);
            &&& sizing.parts == parts
            &&& sizing.bucket_count == bucket_count
            &&& sizing.parts * sizing.part_edges >= edge_count
            &&& (sizing.part_edges - 1) * sizing.parts < edge_count
            &&& sizing.bucket_count * sizing.capacity >= sizing.part_edges
            &&& arena_bytes(bucket_count, sizing.capacity as int) == 4 * (bucket_count / 4 * (
            sizing.capacity + 1) + 1)
        }),
{
    let part_edges = bits::ceil_div(edge_count as int, parts as int);
    bits::lemma_ceil_div(edge_count as int, parts as int);
    lemma_buckets_have_a_twentieth_to_spare(part_edges, bucket_count);
    let capacity = bucket_capacity(part_edges, bucket_count);
    let share = bits::ceil_div(part_edges, bucket_count);
    bits::lemma_ceil_div(part_edges, bucket_count);
    assert(share <= part_edges);
    assert(capacity >= share);
    assert(bucket_count * capacity >= share * bucket_count) by (nonlinear_arith)
        requires
            capacity >= share,
            bucket_count > 0,
    ;
    assert(parts * part_edges == part_edges * parts) by (nonlinear_arith);
    let sizing = sizing_of(edge_count, bucket_count, local, parts, false);
    assert(sizing.capacity == capacity);
    let quarter = bucket_count / 4;
    assert(quarter + quarter * capacity == quarter * (capacity + 1)) by (nonlinear_arith);
}

/// Scratch memory has a header and room for each bucket of a chunk, with the
/// margin, four bytes to an edge, and twice that where edges are kept in pairs.
/// Without buckets one word is enough.
pub proof fn lemma_scratch_has_room_for_a_chunk(
    layout: BucketLayout,
    graph: GraphSize,
    diagnostics: Diagnostics,
    modes: ProductionModes,
    sizing: SleanSizing,
)
    requires
        scratch_buckets(diagnostics) > 0,
    ensures
        ({
            let buckets = scratch_buckets(diagnostics) as int;
            let bytes = scratch_bytes_of(layout, graph, diagnostics, modes, sizing);
            let room = bytes - 4 * layout.header_words;
            let edges = chunk_edges_of(graph) + buckets * layout.margin;
            &&& modes.slean ==> bytes == sizing.scratch_bytes
            &&& !modes.slean && !modes.bucketed_mark && !diagnostics.bucket_round0 ==> bytes == 4
            &&& !modes.slean && modes.bucketed_mark ==> 8 * edges <= room < 8 * (edges + buckets)
            &&& !modes.slean && !modes.bucketed_mark && diagnostics.bucket_round0 ==> 4 * edges
                <= room < 4 * (edges + buckets)
        }),
{
    let buckets = scratch_buckets(diagnostics) as int;
    let chunk = chunk_edges_of(graph) as int;
    let share = bits::ceil_div(chunk, buckets);
    bits::lemma_ceil_div(chunk, buckets);
    assert(buckets * (share + layout.margin) == share * buckets + buckets * layout.margin)
        by (nonlinear_arith);
    assert((share - 1) * buckets == share * buckets - buckets) by (nonlinear_arith);
    if chunk == 0 {
        assert(share == 0);
        assert(share * buckets == 0) by (nonlinear_arith)
            requires
                share == 0,
        ;
    }
}

/// A word that names buckets holds their number in its upper half and the rest in
/// its lower one.
pub proof fn lemma_bucket_words_hold_both_halves(bucket_count: int, low: int)
    requires
        0 <= low < 0x1_0000,
    ensures
        bucket_word(bucket_count, low) / 0x1_0000 == bucket_count,
        bucket_word(bucket_count, low) % 0x1_0000 == low,
{
}

/// The scratch memory of the bucket diagnostic has its header and room for a chunk
/// of 2^28 edges, with the margin, four bytes to an edge.
pub proof fn lemma_bucket_diagnostic_has_room_for_a_chunk(layout: BucketLayout, bucket_count: u32)
    requires
        bucket_count > 0,
    ensures
        ({
            let room = round0_bytes(layout, bucket_count) - 4 * layout.header_words;
            let edges = 268_435_456 + bucket_count * layout.margin;
            4 * edges <= room < 4 * (edges + bucket_count)
        }),
{
    let buckets = bucket_count as int;
    let share = bits::ceil_div(268_435_456, buckets);
    bits::lemma_ceil_div(268_435_456, buckets);
    assert(buckets * (share + layout.margin) == share * buckets + buckets * layout.margin)
        by (nonlinear_arith);
    assert((share - 1) * buckets == share * buckets - buckets) by (nonlinear_arith);
}

/// A trim that was set up is for the graph that was asked for, in the modes that
/// fit it, with buffers that fit the adapter; and it is set up wherever the graph
/// is taken and its buffers fit.
pub proof fn lemma_trims_are_set_up_where_they_fit(
    config: GpuWgpuConfig,
    limits: AdapterLimits,
    layout: BucketLayout,
    diagnostics: Diagnostics,
    request: GraphParams,
    options: TrimOptions,
    memory: MemoryReadings,
)
    ensures
        ({
            let graph = GraphSize::of(request.edge_bits);
            let modes = modes_of(request.edge_bits, diagnostics, options);
            let parts = asked_parts(config, modes.slean, memory.first, memory.second);
            let sizing = sizing_result(config, limits, modes.slean, graph, parts, false);
            let setup = setup_result(
                config,
                limits,
                layout,
                diagnostics,
                request,
                options,
                memory,
                false,
            );
            &&& setup matches Ok(setup) ==> {
                &&& setup.diagnostics == diagnostics
                &&& setup.modes == modes
                &&& setup.graph == graph
                &&& sizing matches Ok(fitted) && setup.sizing == fitted
                &&& setup.chunk_edges == chunk_edges_of(graph)
                &&& setup.groups == word_groups(graph.word_count as int) as u32
                &&& scratch_bytes_of(layout, graph, diagnostics, modes, setup.sizing)
                    <= limits.max_buffer_size
                &&& scratch_bytes_of(layout, graph, diagnostics, modes, setup.sizing)
                    <= limits.max_storage_binding
                &&& setup.scratch_bytes == scratch_bytes_of(
                    layout,
                    graph,
                    diagnostics,
                    modes,
                    setup.sizing,
                ) as u64
            }
            &&& setup is Ok <==> {
                &&& GraphSize::refusal(limits, request) is None
                &&& sizing is Ok
                &&& scratch_bytes_of(layout, graph, diagnostics, modes, sizing->Ok_0)
                    <= limits.max_buffer_size
                &&& scratch_bytes_of(layout, graph, diagnostics, modes, sizing->Ok_0)
                    <= limits.max_storage_binding
            }
        }),
{
}

} // verus!
