use grin_cuckatoo_miner::keys::derive_keys;
use grin_cuckatoo_miner::siphash::{endpoint, GpuSipKeys, SipKeys};
use grin_cuckatoo_miner::solver::cpu_lean::trim_survivors;
use grin_cuckatoo_miner::solver::edge_bitmap::bitmap_survivors;
use grin_cuckatoo_miner::solver::gpu_diagnostics::{DiagnosticEnv, Diagnostics, Variable};
use grin_cuckatoo_miner::solver::gpu_rounds::{
    combined_overflow, encode_bucket_finish, encode_bucket_mark, encode_bucket_trim,
    encode_lean_rounds, encode_slean_finish, encode_slean_mark, encode_slean_trim,
    replacing_diagnostic, AfterAction, Binding, Buffer, Command, Ending, Kernel, RoundAction,
    RoundPlan, TrimRun, TrimStep,
};
use grin_cuckatoo_miner::solver::gpu_wgpu::{
    backend_capabilities, backend_name, bucket_scratch_size, check_round0_scratch,
    groups_for_words, mark_params, part_params, prepare_trim, production_modes, scatter_params,
    selected_slean_parts, side_params, slean_sizing, split_edges, AdapterLimits, BucketLayout,
    EdgeRange, GpuWgpuConfig, GraphSize, MemoryReadings, Params, ProductionModes, SleanSizing,
    TrimOptions,
};
use grin_cuckatoo_miner::solver::{GraphParams, TrimmingMode};

const GIB: u64 = 1 << 30;

fn limits() -> AdapterLimits {
    AdapterLimits {
        name: "test adapter".to_string(),
        max_buffer_size: 16 * GIB,
        max_storage_binding: 4 * GIB,
        max_workgroup_storage: 32_768,
    }
}

fn config(trimming: TrimmingMode, slean_parts: u32) -> GpuWgpuConfig {
    GpuWgpuConfig {
        trimming,
        slean_parts,
        local_ram_kib: 32,
    }
}

fn request(edge_bits: u8, rounds: u32) -> GraphParams {
    GraphParams {
        keys: derive_keys(&[0], 7),
        edge_bits,
        cycle_length: 42,
        rounds,
    }
}

fn env() -> DiagnosticEnv {
    DiagnosticEnv {
        enabled: true,
        node_mask_bits: Variable::Unset,
        siphash_only: Variable::Unset,
        per_round: Variable::Unset,
        early_phases: Variable::Unset,
        bucket_round0: Variable::Unset,
        buckets: Variable::Unset,
        survivor_counts: Variable::Unset,
        fine_csr: Variable::Unset,
        fine_end_round: Variable::Unset,
        slean_phases: Variable::Unset,
    }
}

fn on() -> Variable {
    Variable::Text("1".to_string())
}

fn layout() -> BucketLayout {
    BucketLayout {
        header_words: 256,
        margin: 65_536,
        overflow_word: 128,
    }
}

/// The entry points, run one thread after the other.  The arenas keep edges by
/// the range that their nodes fall into.
struct Device {
    keys: SipKeys,
    edge_bits: u8,
    edges: Vec<u32>,
    nodes: Vec<u32>,
    backup: Vec<u32>,
    arena: Vec<Vec<u32>>,
    dead: Vec<u32>,
    overflow: u32,
    capacity: usize,
    ranges: Vec<EdgeRange>,
    submitted: usize,
}

fn bit(words: &[u32], i: u32) -> bool {
    words[i as usize / 32] >> (i % 32) & 1 == 1
}

impl Device {
    fn new(request: GraphParams, buckets: u64, capacity: u64, ranges: Vec<EdgeRange>) -> Device {
        let words = (1usize << request.edge_bits) / 32;
        Device {
            keys: request.keys,
            edge_bits: request.edge_bits,
            edges: vec![u32::MAX; words],
            nodes: vec![0; words],
            backup: vec![0; words],
            arena: vec![Vec::new(); buckets as usize],
            dead: Vec::new(),
            overflow: 0,
            capacity: capacity as usize,
            ranges,
            submitted: 0,
        }
    }

    fn node(&self, edge: u32, side: u32) -> u32 {
        endpoint(self.keys, self.edge_bits, u64::from(edge), side as u8)
    }

    fn scatter(&mut self, side: u32, index: u64, only_alive: bool) {
        let range = self.ranges[index as usize];
        for edge in range.base as u32..(range.base + range.count) as u32 {
            if only_alive && !bit(&self.edges, edge) {
                continue;
            }
            let node = u64::from(self.node(edge, side));
            let bucket = (node * self.arena.len() as u64) >> self.edge_bits;
            if self.arena[bucket as usize].len() < self.capacity {
                self.arena[bucket as usize].push(edge);
            } else {
                self.overflow += 1;
            }
        }
    }

    fn mark(&mut self, bucket: usize, side: u32) {
        for edge in self.arena[bucket].clone() {
            let node = self.node(edge, side);
            self.nodes[node as usize / 32] |= 1 << (node % 32);
        }
    }

    fn collect_dead(&mut self, bucket: usize, side: u32) {
        for edge in self.arena[bucket].clone() {
            if !bit(&self.nodes, self.node(edge, side) ^ 1) {
                self.dead.push(edge);
            }
        }
    }

    fn bury(&mut self) {
        for edge in std::mem::take(&mut self.dead) {
            self.edges[edge as usize / 32] &= !(1 << (edge % 32));
        }
    }

    fn run(&mut self, kernel: Kernel, binding: Binding) {
        match (kernel, binding) {
            (Kernel::ClearNodes, Binding::Side(_)) => self.nodes.fill(0),
            (Kernel::MarkNodes, Binding::Side(side)) => {
                for edge in 0..1u32 << self.edge_bits {
                    if bit(&self.edges, edge) {
                        let node = self.node(edge, side);
                        self.nodes[node as usize / 32] |= 1 << (node % 32);
                    }
                }
            }
            (Kernel::TrimEdges, Binding::Side(side)) => {
                for edge in 0..1u32 << self.edge_bits {
                    if bit(&self.edges, edge) && !bit(&self.nodes, self.node(edge, side) ^ 1) {
                        self.edges[edge as usize / 32] &= !(1 << (edge % 32));
                    }
                }
            }
            (Kernel::SleanScatterDense, Binding::Part(side, part)) => {
                self.scatter(side, part, false)
            }
            (Kernel::SleanScatterAlive, Binding::Part(side, part)) => {
                self.scatter(side, part, true)
            }
            (Kernel::SleanMark, Binding::Part(side, _)) => {
                (0..self.arena.len()).for_each(|bucket| self.mark(bucket, side))
            }
            (Kernel::SleanMarkAndTrimFinal, Binding::Part(side, _)) => {
                for bucket in 0..self.arena.len() {
                    self.mark(bucket, side);
                    self.collect_dead(bucket, side);
                }
            }
            (Kernel::SleanTrim, Binding::Part(side, _)) => {
                (0..self.arena.len()).for_each(|bucket| self.collect_dead(bucket, side))
            }
            (Kernel::SleanApplyDeaths, Binding::Part(..)) => self.bury(),
            (Kernel::BucketScatterDenseStaged, Binding::Chunk(side, chunk))
            | (Kernel::BucketScatterDensePairsStaged, Binding::Chunk(side, chunk)) => {
                self.scatter(side, chunk, false)
            }
            (Kernel::BucketScatterAlive, Binding::Chunk(side, chunk))
            | (Kernel::BucketScatterAlivePairs, Binding::Chunk(side, chunk)) => {
                self.scatter(side, chunk, true)
            }
            (Kernel::BucketMark, Binding::Bucket(side, bucket)) => {
                self.mark(bucket as usize, side)
            }
            (Kernel::BucketTrimPairs, Binding::Bucket(side, bucket)) => {
                self.collect_dead(bucket as usize, side);
                self.bury();
            }
            _ => panic!("an entry point with parameters of another"),
        }
    }

    fn execute(&mut self, commands: &[Command]) {
        for command in commands {
            match *command {
                Command::Clear(Buffer::Nodes) => self.nodes.fill(0),
                Command::ClearBytes(Buffer::Scratch, _) => {
                    self.arena.iter_mut().for_each(Vec::clear)
                }
                Command::ClearBytes(Buffer::Dead, _) => self.dead.clear(),
                Command::ClearBytes(..) => {}
                Command::Copy(Buffer::Edges, Buffer::Backup) => self.backup = self.edges.clone(),
                Command::Copy(Buffer::Backup, Buffer::Edges) => self.edges = self.backup.clone(),
                Command::Run(kernel, binding, groups) => {
                    assert!(groups > 0);
                    self.run(kernel, binding);
                }
                Command::Poll => {}
                Command::Submit => self.submitted += 1,
                _ => panic!("a command that no round has"),
            }
        }
    }

    fn survivors(&self) -> Vec<u64> {
        bitmap_survivors(&self.edges, 1 << self.edge_bits)
    }
}

#[test]
fn direct_rounds_match_cpu() {
    for rounds in 1..=8 {
        let request = request(12, rounds);
        let mut device = Device::new(request, 1, 0, Vec::new());
        let half = rounds / 2;
        device.execute(&encode_lean_rounds(0, half, 1));
        device.execute(&encode_lean_rounds(half, rounds, 1));
        assert_eq!(device.survivors(), trim_survivors(request, 12).unwrap());
    }
    assert!(encode_lean_rounds(3, 3, 1).is_empty());
    assert_eq!(
        encode_lean_rounds(1, 2, 9),
        [
            Command::Run(Kernel::ClearNodes, Binding::Side(1), 9),
            Command::Run(Kernel::MarkNodes, Binding::Side(1), 9),
            Command::Run(Kernel::TrimEdges, Binding::Side(1), 9),
        ]
    );
}

fn trim_in_parts(request: GraphParams, parts: u64, overflowing: bool) -> (Vec<u64>, u32) {
    let small = AdapterLimits {
        max_workgroup_storage: 64,
        ..limits()
    };
    let graph = GraphSize::new(&small, request).unwrap();
    let config = config(TrimmingMode::Slean, 4);
    let sizing = slean_sizing(&config, &small, true, graph, parts, overflowing).unwrap();
    let ranges = split_edges(graph.edge_count, sizing.part_edges);
    assert_eq!(ranges.len() as u64, sizing.parts);
    let mut device = Device::new(request, sizing.bucket_count, sizing.capacity, ranges);
    let mut overflows = 0;
    for round in 0..request.rounds {
        device.overflow = 0;
        device.execute(&encode_slean_mark(round, &sizing));
        device.execute(&encode_slean_trim(round, &sizing));
        let overflow = combined_overflow(&vec![device.overflow, 0, 0, 0]);
        overflows += u32::from(overflow > 0);
        device.execute(&encode_slean_finish(round, 1, overflow));
    }
    (device.survivors(), overflows)
}

#[test]
fn rounds_in_parts_match_cpu() {
    for parts in [1, 2, 4] {
        let request = request(14, 6);
        let expected = trim_survivors(request, 14).unwrap();
        assert_eq!(trim_in_parts(request, parts, false), (expected, 0));
    }
}

#[test]
fn overflow_restores_and_falls_back_exactly() {
    let request = request(12, 5);
    let (survivors, overflows) = trim_in_parts(request, 4, true);
    assert!(overflows > 0);
    assert_eq!(survivors, trim_survivors(request, 12).unwrap());
}

#[test]
fn marking_modes_leave_the_same_edges() {
    let request = request(13, 5);
    let mut direct = Device::new(request, 1, 0, Vec::new());
    direct.execute(&encode_lean_rounds(0, 5, 1));
    let ranges = split_edges(1 << 13, 1 << 11);
    let chunks = ranges.len() as u64;
    let mut mixed = Device::new(request, 64, 1 << 11, ranges);
    for round in 0..3 {
        mixed.execute(&encode_bucket_mark(round, 256, chunks));
        mixed.execute(&encode_bucket_trim(round, chunks));
        assert_eq!(mixed.overflow, 0);
    }
    mixed.execute(&encode_lean_rounds(3, 5, 1));
    let expected = direct.survivors();
    assert!(!expected.is_empty());
    assert_eq!(mixed.survivors(), expected);
    assert_eq!(trim_in_parts(request, 4, false).0, expected);
    assert_eq!(trim_in_parts(request, 4, true).0, expected);
}

#[test]
fn bucketed_rounds_match_cpu() {
    let request = request(13, 5);
    let ranges = split_edges(1 << 13, 1 << 11);
    let chunks = ranges.len() as u64;
    let mut device = Device::new(request, 64, 1 << 11, ranges);
    for round in 0..request.rounds {
        device.execute(&encode_bucket_mark(round, 256, chunks));
        device.execute(&encode_bucket_trim(round, chunks));
        assert_eq!(device.overflow, 0);
        assert!(encode_bucket_finish(round, 1, device.overflow).is_empty());
    }
    assert_eq!(device.survivors(), trim_survivors(request, 13).unwrap());
    assert_eq!(device.submitted, 5 * (1 + 4 + 4));
    assert_eq!(encode_bucket_finish(3, 7, 2).len(), 4);
    assert_eq!(encode_bucket_finish(3, 7, 2)[3], Command::Submit);
}

#[test]
fn commands_of_a_round_in_parts() {
    let sizing = SleanSizing {
        bucket_count: 8,
        parts: 2,
        part_edges: 1 << 11,
        capacity: 300,
        scratch_bytes: 2_412,
        dead_bucket_count: 3,
        dead_scratch_bytes: 4_000,
    };
    let mark = encode_slean_mark(0, &sizing);
    assert_eq!(mark.len(), 6 + 7 + 6 + 1);
    assert_eq!(mark[1], Command::ClearBytes(Buffer::Scratch, 12));
    assert_eq!(mark[5], Command::ClearBytes(Buffer::Dead, 16));
    assert_eq!(mark[6], Command::ClearBytes(Buffer::Scratch, 8));
    assert_eq!(
        mark[10],
        Command::Run(Kernel::SleanScatterDense, Binding::Part(0, 0), 4096)
    );
    assert_eq!(
        mark[11],
        Command::Run(Kernel::SleanMark, Binding::Part(0, 0), 8)
    );
    assert_eq!(mark[18], Command::Poll);
    let trim = encode_slean_trim(1, &sizing);
    assert_eq!(trim.len(), 4 + 9 + 1);
    assert_eq!(trim[0], Command::Copy(Buffer::Edges, Buffer::Backup));
    assert_eq!(
        trim[2],
        Command::Run(Kernel::SleanMarkAndTrimFinal, Binding::Part(1, 1), 8)
    );
    assert_eq!(
        trim[9],
        Command::Run(Kernel::SleanScatterAlive, Binding::Part(1, 0), 4096)
    );
    assert_eq!(
        trim[11],
        Command::Run(Kernel::SleanApplyDeaths, Binding::Part(1, 0), 3)
    );
    let finish = encode_slean_finish(1, 5, 1);
    assert_eq!(finish[0], Command::Copy(Buffer::Backup, Buffer::Edges));
    assert_eq!(finish.len(), 5);
    assert!(encode_slean_finish(1, 5, 0).is_empty());
    assert_eq!(combined_overflow(&vec![u32::MAX, 1, 0, 3]), u32::MAX);
    assert_eq!(combined_overflow(&vec![1, 2, 3, 4]), 10);
    assert_eq!(combined_overflow(&Vec::new()), 0);
}

#[test]
fn configuration_is_checked() {
    assert_eq!(
        GpuWgpuConfig::default(),
        GpuWgpuConfig {
            trimming: TrimmingMode::Lean,
            slean_parts: 4,
            local_ram_kib: 32,
        }
    );
    assert!(GpuWgpuConfig::default().validate().is_ok());
    for slean_parts in [0, 1, 3, 12] {
        assert_eq!(
            config(TrimmingMode::Slean, slean_parts)
                .validate()
                .unwrap_err()
                .message(),
            "invalid configuration: slean_parts must be a power of two and at least 2"
        );
    }
    let wrong = GpuWgpuConfig {
        local_ram_kib: 48,
        ..GpuWgpuConfig::default()
    };
    assert_eq!(
        wrong.validate().unwrap_err().message(),
        "invalid configuration: local_ram_kib must be a power of two and at least 2"
    );
    assert_eq!(backend_name(), "gpu-wgpu");
    let takes = backend_capabilities();
    assert_eq!((takes.min_edge_bits, takes.max_edge_bits), (1, 32));
    assert_eq!(takes.cycle_length, 42);
}

#[test]
fn graph_sizes() {
    assert_eq!(
        GraphSize::new(&limits(), request(32, 1)).unwrap(),
        GraphSize {
            edge_count: 1 << 32,
            word_count: 1 << 27,
            bitmap_bytes: 1 << 29,
        }
    );
    assert_eq!(
        GraphSize::new(&limits(), request(1, 1)).unwrap(),
        GraphSize {
            edge_count: 2,
            word_count: 1,
            bitmap_bytes: 4,
        }
    );
    assert_eq!(
        GraphSize::new(&limits(), request(33, 1))
            .unwrap_err()
            .message(),
        "invalid configuration: edge_bits must be in 1..=32"
    );
    let odd = GraphParams {
        cycle_length: 3,
        ..request(12, 1)
    };
    assert_eq!(
        GraphSize::new(&limits(), odd).unwrap_err().message(),
        "invalid configuration: cycle_length must be positive and even"
    );
    let small = AdapterLimits {
        max_storage_binding: 128 << 20,
        ..limits()
    };
    assert_eq!(
        GraphSize::new(&small, request(32, 1)).unwrap_err().message(),
        "backend cannot solve this request: test adapter exposes max storage buffer 128 MiB, but C32 needs 512 MiB per bitmap"
    );
    assert!(small.can_hold(128 << 20));
    assert!(!small.can_hold((128 << 20) + 1));
    assert_eq!(groups_for_words(1), 1);
    assert_eq!(groups_for_words(257), 2);
    assert_eq!(groups_for_words(1 << 27), 4096);
}

#[test]
fn parts_follow_the_available_memory() {
    let auto = config(TrimmingMode::Auto, 8);
    let two = config(TrimmingMode::Slean, 2);
    let enough = Some(18 * GIB);
    let scarce = Some(18 * GIB - 1);
    assert_eq!(selected_slean_parts(&auto, true, enough, enough), 2);
    assert_eq!(selected_slean_parts(&auto, true, enough, scarce), 4);
    assert_eq!(selected_slean_parts(&auto, true, scarce, enough), 4);
    assert_eq!(selected_slean_parts(&auto, true, None, None), 8);
    assert_eq!(selected_slean_parts(&auto, false, enough, enough), 8);
    assert_eq!(selected_slean_parts(&two, true, None, enough), 2);
    assert_eq!(selected_slean_parts(&two, true, enough, None), 4);
    assert_eq!(selected_slean_parts(&two, false, None, None), 2);
}

#[test]
fn sizing_of_the_largest_graph() {
    let graph = GraphSize::new(&limits(), request(32, 1)).unwrap();
    let config = config(TrimmingMode::Slean, 4);
    let sizing = slean_sizing(&config, &limits(), true, graph, 4, false).unwrap();
    assert_eq!(
        sizing,
        SleanSizing {
            bucket_count: 16_384,
            parts: 4,
            part_edges: 1 << 30,
            capacity: 68_877,
            scratch_bytes: (4_096 + 1 + 4_096 * 68_877) * 4,
            dead_bucket_count: 4_096,
            dead_scratch_bytes: (4_096 + 1 + 4_096 * 118_029) * 4,
        }
    );
    let tight = AdapterLimits {
        max_storage_binding: GIB,
        ..limits()
    };
    let fitted = slean_sizing(&config, &tight, true, graph, 4, false).unwrap();
    assert_eq!(fitted.parts, 8);
    assert!(tight.can_hold(fitted.scratch_bytes));
    assert!(tight.can_hold(fitted.dead_scratch_bytes));
    assert_eq!(
        slean_sizing(&config, &tight, false, graph, 4, false)
            .unwrap()
            .parts,
        4
    );
}

#[test]
fn sizing_refuses_adapters() {
    let graph = GraphSize::new(&limits(), request(24, 1)).unwrap();
    let config = config(TrimmingMode::Slean, 4);
    let odd = AdapterLimits {
        max_workgroup_storage: 3_000,
        ..limits()
    };
    assert_eq!(
        slean_sizing(&config, &odd, true, graph, 4, false)
            .unwrap_err()
            .message(),
        "backend cannot solve this request: slean requires a power-of-two bucket count fitting u16, got 700"
    );
    assert_eq!(
        slean_sizing(&config, &odd, false, graph, 4, false)
            .unwrap()
            .bucket_count,
        700
    );
    let tiny = AdapterLimits {
        max_buffer_size: 64,
        ..limits()
    };
    let message = "backend cannot solve this request: slean cannot fit one part in the adapter's storage binding limit";
    assert_eq!(
        slean_sizing(&config, &tiny, true, graph, 4, false)
            .unwrap_err()
            .message(),
        message
    );
    assert_eq!(
        slean_sizing(&config, &limits(), false, graph, 1 << 25, false)
            .unwrap_err()
            .message(),
        message
    );
}

#[test]
fn ranges_hold_every_edge_once() {
    assert_eq!(
        split_edges(10, 4),
        [
            EdgeRange { base: 0, count: 4 },
            EdgeRange { base: 4, count: 4 },
            EdgeRange { base: 8, count: 2 },
        ]
    );
    assert!(split_edges(0, 4).is_empty());
    assert_eq!(split_edges(1 << 32, 1 << 30).len(), 4);
}

fn whole() -> Params {
    let none = Diagnostics::from_env(&env(), 32, 128, None).unwrap();
    side_params(&request(32, 128), &none, 1)
}

#[test]
fn shader_parameters() {
    let whole = whole();
    assert_eq!(whole.key_words, GpuSipKeys::from(derive_keys(&[0], 7)).words);
    assert_eq!(whole.edge_bits, 32);
    assert_eq!(whole.side, 1);
    assert_eq!(whole.edge_count_lo, 0);
    assert_eq!(whole.word_count, 1 << 27);
    assert_eq!(whole.node_mask, u32::MAX);
    assert_eq!((whole.chunk_base, whole.chunk_count, whole.bucket), (0, 0, 0));
    let graph = GraphSize::new(&limits(), request(32, 1)).unwrap();
    let config = config(TrimmingMode::Slean, 4);
    let sizing = slean_sizing(&config, &limits(), true, graph, 4, false).unwrap();
    let parts = part_params(&whole, &sizing, 1 << 32, false);
    assert_eq!(parts.len(), 4);
    assert_eq!(parts[3].chunk_base, 3 << 30);
    assert_eq!(parts[3].chunk_count, 1 << 30);
    assert_eq!(parts[3].bucket, 16_384 << 16);
    assert_eq!(part_params(&whole, &sizing, 1 << 32, true)[0].bucket, (16_384 << 16) + 1);
    let chunks = scatter_params(&whole, 1 << 32, 1 << 28, 64);
    assert_eq!(chunks.len(), 16);
    assert_eq!(chunks[15].chunk_base, 15 << 28);
    assert_eq!(chunks[15].bucket, 64 << 16);
    let buckets = mark_params(&whole, 1 << 28, 64);
    assert_eq!(buckets.len(), 64);
    assert_eq!(buckets[63].bucket, (64 << 16) + 63);
    assert_eq!(buckets[63].chunk_base, 0);
    assert_eq!(buckets[63].chunk_count, 1 << 28);
    assert_eq!(buckets[63].side, 1);
}

fn options(slean: bool) -> TrimOptions {
    TrimOptions {
        bucketed_mark: true,
        slean,
        fine_end: None,
    }
}

#[test]
fn modes_of_a_trim() {
    let none = Diagnostics::from_env(&env(), 32, 128, None).unwrap();
    assert_eq!(
        production_modes(32, &none, options(true)),
        ProductionModes {
            fine: true,
            bucketed_mark: true,
            slean: true,
        }
    );
    assert_eq!(
        production_modes(23, &none, options(true)),
        ProductionModes {
            fine: false,
            bucketed_mark: false,
            slean: false,
        }
    );
    let few = Diagnostics::from_env(&env(), 32, 4, None).unwrap();
    assert!(!production_modes(32, &few, options(true)).fine);
    let masked = DiagnosticEnv {
        node_mask_bits: Variable::Text("20".to_string()),
        ..env()
    };
    let masked = Diagnostics::from_env(&masked, 32, 128, None).unwrap();
    let modes = production_modes(32, &masked, options(true));
    assert!(!modes.fine && !modes.bucketed_mark && !modes.slean);
    let counted = DiagnosticEnv {
        survivor_counts: on(),
        ..env()
    };
    let counted = Diagnostics::from_env(&counted, 32, 128, None).unwrap();
    let modes = production_modes(32, &counted, options(true));
    assert!(!modes.fine && modes.bucketed_mark && !modes.slean);
}

#[test]
fn scratch_sizes() {
    let graph = GraphSize::new(&limits(), request(24, 1)).unwrap();
    let none = Diagnostics::from_env(&env(), 24, 64, None).unwrap();
    let config = config(TrimmingMode::Slean, 4);
    let sizing = slean_sizing(&config, &limits(), true, graph, 4, false).unwrap();
    let size = |limits: &AdapterLimits, bucketed_mark: bool, slean: bool| {
        let modes = ProductionModes {
            fine: false,
            bucketed_mark,
            slean,
        };
        bucket_scratch_size(limits, &layout(), 24, graph, &none, modes, &sizing)
    };
    assert_eq!(size(&limits(), true, true).unwrap(), sizing.scratch_bytes);
    let words = 256 + 2 * 64 * (262_144 + 65_536);
    assert_eq!(size(&limits(), true, false).unwrap(), words * 4);
    assert_eq!(size(&limits(), false, false).unwrap(), 4);
    let small = AdapterLimits {
        max_storage_binding: 100 << 20,
        ..limits()
    };
    assert_eq!(
        size(&small, true, false).unwrap_err().message(),
        "backend cannot solve this request: test adapter exposes max storage buffer 100 MiB, but bucketed C24 marking needs 160 MiB scratch"
    );
    let bytes = (256 + 16 * (16_777_216 + 65_536)) * 4;
    assert!(check_round0_scratch(&layout(), 16, bytes).is_ok());
    assert_eq!(
        check_round0_scratch(&layout(), 16, 4 << 20)
            .unwrap_err()
            .message(),
        "backend cannot solve this request: round-0 bucket diagnostic needs 1028 MiB of scratch, but only 4 MiB are available"
    );
}

#[test]
fn a_trim_is_prepared() {
    let config = config(TrimmingMode::Auto, 4);
    let memory = MemoryReadings {
        first: Some(20 * GIB),
        second: Some(20 * GIB),
    };
    let prepare = |limits: &AdapterLimits, env: &DiagnosticEnv| {
        prepare_trim(
            &config,
            limits,
            env,
            &layout(),
            &request(32, 128),
            128,
            options(true),
            memory,
            false,
        )
    };
    let setup = prepare(&limits(), &env()).unwrap();
    assert_eq!(setup.sizing.parts, 2);
    assert_eq!(setup.scratch_bytes, setup.sizing.scratch_bytes);
    assert_eq!(setup.chunk_edges, 1 << 28);
    assert_eq!(setup.groups, 4096);
    assert_eq!(setup.diagnostics.rounds, 128);
    assert!(setup.modes.slean && setup.modes.fine);
    let wrong = DiagnosticEnv {
        buckets: on(),
        ..env()
    };
    assert_eq!(
        prepare(&limits(), &wrong).unwrap_err().message(),
        "invalid configuration: GRIN_MINER_DIAGNOSTIC_BUCKETS requires GRIN_MINER_DIAGNOSTIC_BUCKET_ROUND0"
    );
    let small = AdapterLimits {
        max_storage_binding: 1 << 20,
        ..limits()
    };
    assert!(prepare(&small, &env())
        .unwrap_err()
        .message()
        .ends_with("needs 512 MiB per bitmap"));
}

/// The actions of a trim from its first round to its end.
fn actions(plan: &RoundPlan) -> Vec<RoundAction> {
    let mut run = TrimRun::new(*plan);
    let mut actions = Vec::new();
    loop {
        let TrimStep::Go(action) = run.next(false) else {
            panic!("nothing was cancelled");
        };
        actions.push(action);
        if let RoundAction::Finish(_) = action {
            return actions;
        }
        match run.acted(true, false) {
            AfterAction::Stop => panic!("nothing was cancelled"),
            AfterAction::Completed { start_fine, .. } => {
                if start_fine {
                    return actions;
                }
            }
        }
    }
}

#[test]
fn newer_work_stops_a_trim() {
    let plain = ProductionModes {
        fine: false,
        bucketed_mark: false,
        slean: false,
    };
    let rounds = Diagnostics::from_env(&env(), 20, 20, None).unwrap();
    let mut run = TrimRun::new(RoundPlan::new(plain, &rounds, false));
    assert_eq!(run.next(true), TrimStep::Stop);
    assert_eq!(
        run.acted(true, false),
        AfterAction::Completed {
            round: 16,
            count_survivors: false,
            start_fine: false,
        }
    );
    assert_eq!(run.acted(false, false), AfterAction::Stop);
    assert_eq!(run.round, 16);
    assert_eq!(run.acted(true, true), AfterAction::Stop);
    assert_eq!(run.round, 20);
    assert_eq!(
        run.next(true),
        TrimStep::Go(RoundAction::Finish(Ending::Survivors))
    );
}

#[test]
fn rounds_follow_the_plan() {
    let plain = ProductionModes {
        fine: false,
        bucketed_mark: false,
        slean: false,
    };
    let rounds = Diagnostics::from_env(&env(), 20, 40, None).unwrap();
    assert_eq!(
        actions(&RoundPlan::new(plain, &rounds, false)),
        [
            RoundAction::Lean(0, 16),
            RoundAction::Lean(16, 32),
            RoundAction::Lean(32, 40),
            RoundAction::Finish(Ending::Survivors),
        ]
    );
    let watched = actions(&RoundPlan::new(plain, &rounds, true));
    assert_eq!(watched.len(), 41);
    assert_eq!(watched[39], RoundAction::Lean(39, 40));
    let bucketed = ProductionModes {
        bucketed_mark: true,
        ..plain
    };
    let bucketed = actions(&RoundPlan::new(bucketed, &rounds, false));
    assert_eq!(bucketed[3], RoundAction::Bucketed(3));
    assert_eq!(bucketed[4], RoundAction::Lean(4, 20));
    let fine = ProductionModes {
        fine: true,
        bucketed_mark: true,
        slean: true,
    };
    let plan = RoundPlan::new(fine, &rounds, false);
    assert_eq!(
        actions(&plan),
        [
            RoundAction::Dense(0),
            RoundAction::Dense(1),
            RoundAction::Dense(2),
        ]
    );
    assert!(!plan.sharded_fine_seed);
    assert_eq!(plan.fine_end_round, 40);
    let sharded = RoundPlan::new(
        ProductionModes {
            slean: false,
            ..fine
        },
        &rounds,
        false,
    );
    assert!(sharded.sharded_fine_seed);
    assert_eq!(
        actions(&sharded),
        [RoundAction::Bucketed(0), RoundAction::Bucketed(1)]
    );
}

#[test]
fn diagnostics_end_the_plan() {
    let plain = ProductionModes {
        fine: false,
        bucketed_mark: false,
        slean: false,
    };
    let last = |env: &DiagnosticEnv| {
        let diagnostics = Diagnostics::from_env(env, 32, 20, None).unwrap();
        assert_eq!(replacing_diagnostic(&diagnostics), None);
        let plan = RoundPlan::new(plain, &diagnostics, false);
        plan.next(diagnostics.rounds)
    };
    let counts = DiagnosticEnv {
        survivor_counts: on(),
        ..env()
    };
    assert_eq!(last(&counts), RoundAction::Finish(Ending::SurvivorCounts));
    let fine = DiagnosticEnv {
        fine_csr: on(),
        ..env()
    };
    assert_eq!(last(&fine), RoundAction::Finish(Ending::FineCsr));
    let mask = DiagnosticEnv {
        node_mask_bits: Variable::Text("12".to_string()),
        ..env()
    };
    assert_eq!(last(&mask), RoundAction::Finish(Ending::NodeMask));
    let counted = Diagnostics::from_env(&counts, 32, 20, None).unwrap();
    let plan = RoundPlan::new(plain, &counted, false);
    let after: Vec<u32> = (0..=8).filter(|&n| plan.counts_survivors(n)).collect();
    assert_eq!(after, [1, 2, 3, 4, 6, 8]);
    let replaced = |env: &DiagnosticEnv| {
        replacing_diagnostic(&Diagnostics::from_env(env, 32, 20, None).unwrap()).unwrap()
    };
    let hashes = DiagnosticEnv {
        siphash_only: on(),
        ..env()
    };
    assert_eq!(replaced(&hashes), Ending::SipHash);
    let first = DiagnosticEnv {
        bucket_round0: on(),
        ..env()
    };
    assert_eq!(replaced(&first), Ending::BucketRound0);
}

#[test]
fn endings_have_messages() {
    let message = |ending: Ending| ending.message().unwrap_or("none");
    assert_eq!(message(Ending::Survivors), "none");
    assert_eq!(
        message(Ending::SurvivorCounts),
        "round-4/6/8 survivor-count diagnostic complete"
    );
    assert_eq!(
        message(Ending::FineCsr),
        "round-6 compact fine-CSR diagnostic complete"
    );
    assert_eq!(
        message(Ending::NodeMask),
        "node-mask locality diagnostic complete"
    );
    assert_eq!(message(Ending::SipHash), "SipHash-only diagnostic complete");
    assert_eq!(
        message(Ending::BucketRound0),
        "chunked round-0 bucket marking diagnostic complete"
    );
}
