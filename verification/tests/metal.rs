use grin_cuckatoo_miner::keys::derive_keys;
use grin_cuckatoo_miner::siphash::{endpoint, SipKeys};
use grin_cuckatoo_miner::solver::cpu_lean::trim_survivors;
use grin_cuckatoo_miner::solver::edge_bitmap::{bitmap_survivors, count_alive};
use grin_cuckatoo_miner::solver::gpu_metal::{
    dense_rounds, Arena, ArenaRounds, Dispatch, GpuMetalSolver, MetalKernel, MetalLayout,
    NativeRun, NativeStep, Stage,
};
use grin_cuckatoo_miner::solver::gpu_wgpu::GpuWgpuConfig;
use grin_cuckatoo_miner::solver::self_check::{
    check_endpoints, check_marks, check_probe, check_round, expected_probe, keys_for_checks,
    node_bitmap, round_bitmap, SeededRange,
};
use grin_cuckatoo_miner::solver::{GraphParams, TrimmingMode};

/// The kernels, run one thread after the other.
struct Device {
    keys: SipKeys,
    edge_bits: u8,
    edges: Vec<u32>,
    nodes: Vec<u32>,
    arenas: [Vec<Vec<u32>>; 2],
    dead: Vec<u32>,
    survivors: Vec<u32>,
    overflow: u32,
}

fn bit(words: &[u32], i: usize) -> bool {
    words[i / 32] >> (i % 32) & 1 == 1
}

fn set(words: &mut [u32], i: usize) {
    words[i / 32] |= 1 << (i % 32);
}

impl Device {
    fn new(keys: SipKeys, layout: &MetalLayout) -> Device {
        let words = layout.word_count as usize;
        let buckets = vec![Vec::new(); layout.buckets as usize];
        Device {
            keys,
            edge_bits: layout.edge_bits,
            edges: vec![u32::MAX; words],
            nodes: vec![0; words],
            arenas: [buckets.clone(), buckets],
            dead: Vec::new(),
            survivors: vec![0; words],
            overflow: 0,
        }
    }

    fn put(&mut self, arena: usize, edge: u32, side: u32, capacity: u32) {
        let node = self.node(edge, side);
        let bucket = &mut self.arenas[arena][node as usize >> 18];
        if bucket.len() < capacity as usize {
            bucket.push(edge);
        } else {
            self.overflow += 1;
        }
    }

    fn node(&self, edge: u32, side: u32) -> u32 {
        endpoint(self.keys, self.edge_bits, u64::from(edge), side as u8)
    }

    fn run(&mut self, dispatch: &Dispatch) {
        let params = dispatch.params;
        let index = |arena: Arena| match arena {
            Arena::Source => 0,
            Arena::Destination => 1,
        };
        match dispatch.kernel {
            MetalKernel::ClearNodes => self.nodes.fill(0),
            MetalKernel::ClearCounts(arena) => {
                self.arenas[index(arena)].iter_mut().for_each(Vec::clear)
            }
            MetalKernel::ClearDeadCounts => self.dead.clear(),
            MetalKernel::SeedAlive(arena) => {
                assert!(dispatch.groups * 256 * 32 >= u64::from(params.edge_count));
                for edge in params.edge_base..params.edge_base + params.edge_count {
                    if bit(&self.edges, edge as usize) {
                        self.put(index(arena), edge, params.side, params.capacity);
                    }
                }
            }
            MetalKernel::Mark(arena) => {
                for edge in self.arenas[index(arena)].concat() {
                    let node = self.node(edge, params.side);
                    set(&mut self.nodes, node as usize);
                }
            }
            MetalKernel::CollectDead(arena) => {
                for edge in self.arenas[index(arena)].concat() {
                    let mate = self.node(edge, params.side) ^ 1;
                    if !bit(&self.nodes, mate as usize) {
                        self.dead.push(edge);
                    }
                }
            }
            MetalKernel::ApplyDead => {
                for &edge in &self.dead {
                    self.edges[edge as usize / 32] &= !(1 << (edge % 32));
                }
            }
            MetalKernel::TrimToBitmap(arena) => {
                for edge in self.arenas[index(arena)].concat() {
                    let mate = self.node(edge, params.side) ^ 1;
                    if bit(&self.nodes, mate as usize) {
                        set(&mut self.survivors, edge as usize);
                    }
                }
            }
            MetalKernel::PingPong(arena) => {
                let to = index(arena.other());
                for bucket in self.arenas[index(arena)].clone() {
                    let seen: std::collections::HashSet<u32> =
                        bucket.iter().map(|&e| self.node(e, params.side)).collect();
                    for edge in bucket {
                        if seen.contains(&(self.node(edge, params.side) ^ 1)) {
                            self.put(to, edge, params.side ^ 1, params.destination_capacity);
                        }
                    }
                }
            }
        }
    }
}

fn native_trim(params: GraphParams, parts: u32) -> Vec<u64> {
    let layout = MetalLayout::new(params.edge_bits, parts).unwrap();
    let mut device = Device::new(params.keys, &layout);
    let mut run = NativeRun::new(params.rounds);
    let mut arenas = None;
    let mut encoded = Vec::new();
    loop {
        match run.next(false) {
            NativeStep::Stop => panic!("nothing was cancelled"),
            NativeStep::Dense(round) => {
                device.overflow = 0;
                for dispatch in &layout.encode_dense_round(&params.keys, round) {
                    device.run(dispatch);
                }
                Stage::Dense(round).check(device.overflow).unwrap();
            }
            NativeStep::Seed => {
                let alive = count_alive(&device.edges);
                let dense = dense_rounds(params.rounds);
                let rounds = ArenaRounds::new(&layout, dense, params.rounds, alive);
                device.arenas[0].iter_mut().for_each(Vec::clear);
                for dispatch in &rounds.encode_seed(&params.keys) {
                    device.run(dispatch);
                }
                Stage::Seed.check(device.overflow).unwrap();
                arenas = Some(rounds);
            }
            NativeStep::Encode(round) => {
                arenas
                    .unwrap()
                    .encode_round(&params.keys, round, &mut encoded);
            }
            NativeStep::Rounds => {
                for dispatch in &encoded {
                    device.run(dispatch);
                }
                Stage::Loop.check(device.overflow).unwrap();
            }
            NativeStep::ReadEdges => return bitmap_survivors(&device.edges, layout.edge_count),
            NativeStep::ReadSurvivors => {
                return bitmap_survivors(&device.survivors, layout.edge_count)
            }
        }
        run.done();
    }
}

#[test]
fn newer_work_stops_a_native_trim() {
    let mut run = NativeRun::new(5);
    assert_eq!(run.next(true), NativeStep::Stop);
    for round in 0..3 {
        assert_eq!(run.next(false), NativeStep::Dense(round));
        run.done();
    }
    assert_eq!(run.next(true), NativeStep::Seed);
    run.done();
    for round in 3..5 {
        assert_eq!(run.next(true), NativeStep::Stop);
        assert_eq!(run.next(false), NativeStep::Encode(round));
        run.done();
    }
    assert_eq!(run.next(true), NativeStep::Rounds);
    run.done();
    assert_eq!(run.next(true), NativeStep::ReadSurvivors);
    let mut short = NativeRun::new(1);
    short.done();
    assert_eq!(short.next(true), NativeStep::ReadEdges);
}

#[test]
fn native_multi_round_ping_pong_matches_cpu() {
    let params = GraphParams {
        keys: derive_keys(&[0], 9),
        edge_bits: 18,
        cycle_length: 42,
        rounds: 12,
    };
    let native = native_trim(params, 4);
    let cpu = trim_survivors(params, params.edge_bits).unwrap();
    assert_eq!(native, cpu);
}

#[test]
fn native_trim_matches_cpu_for_every_number_of_rounds() {
    for rounds in 1..=6 {
        for parts in [1, 2, 8] {
            let params = GraphParams {
                keys: derive_keys(&[1], 5),
                edge_bits: 19,
                cycle_length: 42,
                rounds,
            };
            let cpu = trim_survivors(params, params.edge_bits).unwrap();
            assert_eq!(native_trim(params, parts), cpu);
        }
    }
}

#[test]
fn layout_of_the_largest_graph() {
    let layout = MetalLayout::new(32, 4).unwrap();
    assert_eq!(layout.buckets, 16_384);
    assert_eq!(layout.part_edges, 1 << 30);
    assert_eq!(layout.capacity, 68_812);
    assert_eq!(layout.dead_bucket_count, 4_096);
    assert_eq!(layout.dead_capacity, 99_612);
    let run = ArenaRounds::new(&layout, 3, 128, 500_000_000);
    assert_eq!(run.capacity, 36_120);
    let round = layout.encode_dense_round(&keys_for_checks(), 1);
    assert_eq!(round.len(), 1 + 4 * 3 + 4 * 5);
    assert_eq!(round[0].groups, 1 << 19);
    assert_eq!(round[10].params.edge_base, 3 << 30);
    assert_eq!(round[10].params.side, 1);
}

#[test]
fn layout_refuses_other_graphs() {
    for (edge_bits, parts) in [(17, 4), (33, 4), (20, 0), (20, 3)] {
        assert_eq!(
            MetalLayout::new(edge_bits, parts).unwrap_err().message(),
            "invalid configuration: native Metal requires edge_bits 18..=32 and power-of-two parts"
        );
    }
}

#[test]
fn overflow_is_reported() {
    let message = |stage: Stage| stage.check(3).unwrap_err().message();
    assert_eq!(
        message(Stage::Dense(1)),
        "GPU error: native round 2 bucket overflowed by 3 edges"
    );
    assert_eq!(
        message(Stage::Seed),
        "GPU error: hybrid seed overflowed by 3 edges"
    );
    assert_eq!(
        message(Stage::Loop),
        "GPU error: hybrid loop overflowed by 3 edges"
    );
    assert_eq!(
        message(Stage::Part(2)),
        "GPU error: native seed part 2 overflowed by 3 edges"
    );
    assert_eq!(
        message(Stage::Check),
        "GPU error: native bucket oracle overflowed by 3 edges"
    );
    assert!(Stage::Seed.check(0).is_ok());
}

#[test]
fn backend_needs_macos_and_slean() {
    let with = |trimming: TrimmingMode| GpuWgpuConfig {
        trimming,
        slean_parts: 4,
        local_ram_kib: 32,
    };
    let solver = GpuMetalSolver::new(with(TrimmingMode::Slean), true).unwrap();
    assert_eq!(solver.name(), "metal-native");
    let takes = solver.capabilities();
    assert_eq!((takes.min_edge_bits, takes.max_edge_bits), (18, 32));
    assert_eq!(takes.cycle_length, 42);
    assert_eq!(
        GpuMetalSolver::new(with(TrimmingMode::Lean), true)
            .unwrap_err()
            .message(),
        "backend cannot solve this request: native Metal supports slean trimming; use --backend gpu for lean"
    );
    assert_eq!(
        GpuMetalSolver::new(with(TrimmingMode::Lean), false)
            .unwrap_err()
            .message(),
        "backend cannot solve this request: the Metal backend is available only on macOS; use --backend auto or gpu"
    );
    assert!(GpuMetalSolver::is_native("macos"));
    assert!(!GpuMetalSolver::is_native("linux"));
}

#[test]
fn probe_is_checked() {
    let mut words = expected_probe(256);
    assert_eq!(words[0], 1_013_904_223);
    assert_eq!(
        words[255],
        255u32
            .wrapping_mul(1_664_525)
            .wrapping_add(1_013_904_223)
            .wrapping_add(255)
    );
    assert!(check_probe(&words).is_ok());
    words[3] = 0x1a;
    let expected = 3u32
        .wrapping_mul(1_664_525)
        .wrapping_add(1_013_904_223)
        .wrapping_add(3);
    assert_eq!(
        check_probe(&words).unwrap_err().message(),
        format!("GPU error: native probe mismatch at 3: 0x1a != {expected:#x}")
    );
}

#[test]
fn endpoints_are_checked() {
    let keys = keys_for_checks();
    assert_eq!(keys, derive_keys(&[0], 0));
    for side in 0..2 {
        let mut nodes: Vec<u32> = (997..997 + 4096)
            .map(|edge| endpoint(keys, 12, edge, side as u8))
            .collect();
        assert!(check_endpoints(keys, 12, side, 997, &nodes).is_ok());
        nodes[10] ^= 1;
        let expected = nodes[10] ^ 1;
        assert_eq!(
            check_endpoints(keys, 12, side, 997, &nodes)
                .unwrap_err()
                .message(),
            format!(
                "GPU error: native endpoint mismatch side={side} edge=1007: {:#x} != {expected:#x}",
                nodes[10]
            )
        );
    }
}

fn seeded() -> (SeededRange, Vec<u32>, Vec<u32>) {
    let range = SeededRange {
        keys: keys_for_checks(),
        edge_bits: 20,
        side: 1,
        base: 2 << 18,
        count: 1 << 18,
        shift: 18,
        buckets: 4,
    };
    let capacity = 68_812;
    let mut counts = vec![0u32; 4];
    let mut arena = vec![0u32; 4 * capacity];
    for edge in (range.base..range.base + range.count).rev() {
        let bucket = (endpoint(range.keys, 20, edge, 1) >> 18) as usize;
        arena[bucket * capacity + counts[bucket] as usize] = edge as u32;
        counts[bucket] += 1;
    }
    (range, counts, arena)
}

#[test]
fn buckets_are_checked() {
    let (range, counts, mut arena) = seeded();
    assert!(range.check_buckets(&counts, &arena, 68_812).is_ok());
    let mut wrong = counts.clone();
    wrong[1] += 1;
    assert_eq!(
        range
            .check_buckets(&wrong, &arena, 68_812)
            .unwrap_err()
            .message(),
        format!(
            "GPU error: native bucket 1 count mismatch: {} != {}",
            wrong[1], counts[1]
        )
    );
    arena[2 * 68_812] += 1;
    assert_eq!(
        range
            .check_buckets(&counts, &arena, 68_812)
            .unwrap_err()
            .message(),
        "GPU error: native bucket 2 payload differs from CPU oracle"
    );
}

#[test]
fn arenas_are_checked() {
    let (range, counts, flat) = seeded();
    let capacity = 68_812;
    let mut arenas: Vec<Vec<u32>> = (0..4)
        .map(|i| {
            let mut words = vec![counts[i], 0];
            words.extend_from_slice(&flat[i * capacity..(i + 1) * capacity]);
            words
        })
        .collect();
    assert!(range.check_arenas(&arenas, capacity).is_ok());
    arenas[3][2] ^= 1;
    assert_eq!(
        range.check_arenas(&arenas, capacity).unwrap_err().message(),
        "GPU error: slean GPU seed buckets differ from the CPU oracle"
    );
    arenas[0][1] = 1;
    assert_eq!(
        range.check_arenas(&arenas, capacity).unwrap_err().message(),
        "GPU error: slean seed oracle overflowed"
    );
}

#[test]
fn marks_are_checked() {
    let keys = keys_for_checks();
    let mut words = node_bitmap(keys, 20, 1, 2 << 18, 1 << 18);
    assert_eq!(words.len(), 1 << 15);
    let node = endpoint(keys, 20, 2 << 18, 1) as usize;
    assert!(bit(&words, node));
    assert!(check_marks(keys, 20, 1, 2 << 18, 1 << 18, &words).is_ok());
    let before = words[7];
    words[7] = !before;
    assert_eq!(
        check_marks(keys, 20, 1, 2 << 18, 1 << 18, &words)
            .unwrap_err()
            .message(),
        format!(
            "GPU error: native bucket mark differs at word 7: {:#x} != {before:#x}",
            !before
        )
    );
}

#[test]
fn rounds_are_checked() {
    let keys = keys_for_checks();
    let mut words = round_bitmap(keys, 16, 0);
    let params = GraphParams {
        keys,
        edge_bits: 16,
        cycle_length: 42,
        rounds: 1,
    };
    assert_eq!(
        bitmap_survivors(&words, 1 << 16),
        trim_survivors(params, 16).unwrap()
    );
    assert!(check_round(keys, 16, 0, &words).is_ok());
    let before = words[0];
    words[0] ^= 1 << 31;
    assert_eq!(
        check_round(keys, 16, 0, &words).unwrap_err().message(),
        format!(
            "GPU error: native four-part trim differs at word 0: {:#x} != {before:#x}",
            words[0]
        )
    );
}

#[test]
fn bitmaps_list_their_edges() {
    let words = vec![0x8000_0001, 0, 6];
    assert_eq!(bitmap_survivors(&words, 96), [0, 31, 65, 66]);
    assert_eq!(bitmap_survivors(&words, 66), [0, 31, 65]);
    assert_eq!(count_alive(&words), 4);
}
