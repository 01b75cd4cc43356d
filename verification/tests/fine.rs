use std::sync::atomic::AtomicBool;

use grin_cuckatoo_miner::keys::derive_keys;
use grin_cuckatoo_miner::memory::{parse_meminfo, parse_vm_stat};
use grin_cuckatoo_miner::shader::{shader_source, without_diagnostic_kernels};
use grin_cuckatoo_miner::solver::cpu_lean::{
    answer_survivors, trim_survivors, trim_survivors_cancellable, CpuLeanSolver,
};
use grin_cuckatoo_miner::solver::d2::find_cycle_d2;
use grin_cuckatoo_miner::solver::gpu_diagnostics::{DiagnosticEnv, Diagnostics, Variable};
use grin_cuckatoo_miner::solver::gpu_fine::{
    arena_bytes, arena_survivors, bucket_offsets, check_against_direct, check_cursors,
    check_entries, check_histogram, comparison_batch_end, filled_buckets, fixed_offsets,
    fixed_outcome, max_count, prepare_fixed, shard_counts, sum_counts, ArenaUse, FineRound,
    FineRun, FineStep, FineTransition, FixedArena,
};
use grin_cuckatoo_miner::solver::gpu_rounds::RoundPlan;
use grin_cuckatoo_miner::solver::gpu_wgpu::{AdapterLimits, ProductionModes};
use grin_cuckatoo_miner::solver::peel::peel_two_core;
use grin_cuckatoo_miner::solver::search::find_cycle;
use grin_cuckatoo_miner::solver::verdict::{
    answer_core, finish_search, first_rounds, needs_all_rounds, verdict_of, TrimOutcome,
};
use grin_cuckatoo_miner::solver::{GraphParams, SolveError, SolveOutcome, SolveRequest, Solver};
use grin_cuckatoo_miner::verify::verify_cycle;

const C18_CYCLE: [u64; 42] = [
    10314, 14021, 15134, 30319, 33503, 33645, 34282, 38657, 46697, 51560, 78930, 82234, 89639,
    104092, 104555, 105565, 106157, 127348, 132671, 138459, 153192, 153214, 157224, 160279, 161096,
    164039, 166165, 176219, 177336, 180942, 189572, 190168, 194849, 197668, 214343, 224188, 230161,
    236195, 244331, 251293, 254432, 261863,
];

fn c18(nonce: u64, rounds: u32) -> GraphParams {
    GraphParams {
        keys: derive_keys(&[0], nonce),
        edge_bits: 18,
        cycle_length: 42,
        rounds,
    }
}

fn limits() -> AdapterLimits {
    AdapterLimits {
        name: "test adapter".to_string(),
        max_buffer_size: 1 << 30,
        max_storage_binding: 1 << 28,
        max_workgroup_storage: 32_768,
    }
}

#[test]
fn all_searches_find_the_known_cycle() {
    let params = c18(69, 64);
    let survivors = trim_survivors(params, 28).unwrap();
    for edge in C18_CYCLE {
        assert!(survivors.contains(&edge));
    }
    let peeled = peel_two_core(params, &survivors).unwrap();
    let by_path = find_cycle(params, &peeled).unwrap().unwrap();
    let by_ring = find_cycle_d2(params, &peeled).unwrap().unwrap();
    assert_eq!(by_path.nonces, C18_CYCLE);
    assert_eq!(by_ring.nonces, C18_CYCLE);
    verify_cycle(params.keys, 18, 42, &by_ring).unwrap();
    let never = AtomicBool::new(false);
    match finish_search(params, &survivors, &never).unwrap() {
        SolveOutcome::Proof(found) => assert_eq!(found.nonces, C18_CYCLE),
        other => panic!("no proof: {other:?}"),
    }
}

#[test]
fn searches_agree_that_there_is_no_cycle() {
    let never = AtomicBool::new(false);
    for nonce in 0..4 {
        let params = c18(nonce, 64);
        let survivors = trim_survivors(params, 28).unwrap();
        let peeled = peel_two_core(params, &survivors).unwrap();
        assert!(find_cycle(params, &peeled).unwrap().is_none());
        assert!(find_cycle_d2(params, &peeled).unwrap().is_none());
        assert!(matches!(
            finish_search(params, &survivors, &never).unwrap(),
            SolveOutcome::NoCycle
        ));
    }
}

#[test]
fn cpu_solver_finds_the_known_cycle() {
    let request = SolveRequest {
        pre_pow: vec![0],
        nonce: 69,
        live_work: true,
        edge_bits: 18,
        cycle_length: 42,
        rounds: 64,
    };
    let mut solver = CpuLeanSolver::default();
    assert_eq!(solver.name(), "cpu-lean");
    match solver.solve(request, &AtomicBool::new(false)).unwrap() {
        SolveOutcome::Proof(found) => assert_eq!(found.nonces, C18_CYCLE),
        other => panic!("no proof: {other:?}"),
    }
}

#[test]
fn cpu_solver_has_a_limit() {
    let mut solver = CpuLeanSolver::with_max_edge_bits(10);
    assert_eq!(solver.capabilities().max_edge_bits, 10);
    let request = SolveRequest {
        pre_pow: vec![0],
        nonce: 0,
        live_work: false,
        edge_bits: 11,
        cycle_length: 42,
        rounds: 1,
    };
    assert_eq!(
        solver
            .solve(request, &AtomicBool::new(false))
            .unwrap_err()
            .message(),
        "backend cannot solve this request: backend supports edge_bits 1..=10, requested 11"
    );
    assert_eq!(
        trim_survivors(c18(0, 1), 17).unwrap_err().message(),
        "backend cannot solve this request: CPU backend is capped at edge_bits=17; use --backend wgpu for C32"
    );
    let huge = GraphParams {
        edge_bits: 200,
        ..c18(0, 1)
    };
    assert!(trim_survivors(huge, 28).is_err());
}

#[test]
fn a_set_flag_ends_the_work() {
    let set = AtomicBool::new(true);
    let params = c18(69, 8);
    assert!(trim_survivors_cancellable(params, 28, &set)
        .unwrap()
        .is_none());
    let survivors = trim_survivors(params, 28).unwrap();
    assert!(matches!(
        finish_search(params, &survivors, &set).unwrap(),
        SolveOutcome::Cancelled
    ));
    let peeled = peel_two_core(params, &survivors).unwrap();
    for cancelled in [true, false] {
        let answers = [
            answer_core(params, &peeled, cancelled).unwrap(),
            answer_survivors(params, &peeled, cancelled).unwrap(),
        ];
        for answer in answers {
            match answer {
                SolveOutcome::Cancelled => assert!(cancelled),
                SolveOutcome::Proof(found) => {
                    assert!(!cancelled);
                    assert_eq!(found.nonces, C18_CYCLE);
                }
                other => panic!("neither: {other:?}"),
            }
        }
    }
}

#[test]
fn verdicts_follow_the_trim() {
    let never = AtomicBool::new(false);
    let params = c18(69, 8);
    assert!(matches!(
        verdict_of(params, TrimOutcome::Cancelled, &never).unwrap(),
        SolveOutcome::Cancelled
    ));
    match verdict_of(params, TrimOutcome::Diagnostic("measured"), &never).unwrap() {
        SolveOutcome::Inconclusive(message) => assert_eq!(message, "measured"),
        other => panic!("not inconclusive: {other:?}"),
    }
    let survivors = trim_survivors(params, 28).unwrap();
    assert!(matches!(
        verdict_of(params, TrimOutcome::Survivors(survivors), &never).unwrap(),
        SolveOutcome::Proof(_)
    ));
    assert!(matches!(
        verdict_of(params, TrimOutcome::Survivors(Vec::new()), &never).unwrap(),
        SolveOutcome::NoCycle
    ));
}

#[test]
fn an_early_verdict_may_be_tried_again() {
    assert_eq!(first_rounds(64), 64);
    assert_eq!(first_rounds(128), 128);
    assert_eq!(first_rounds(400), 128);
    let open = SolveOutcome::Inconclusive("limit".to_string());
    assert!(needs_all_rounds(&open, false, 129));
    assert!(!needs_all_rounds(&open, false, 128));
    assert!(!needs_all_rounds(&open, true, 129));
    assert!(!needs_all_rounds(&SolveOutcome::NoCycle, false, 129));
    assert!(!needs_all_rounds(&SolveOutcome::Cancelled, false, 129));
}

#[test]
fn offsets_follow_the_counts() {
    let counts = vec![3, 0, 5];
    assert_eq!(sum_counts(&counts), 8);
    assert_eq!(max_count(&counts), 5);
    assert_eq!(filled_buckets(&counts), 2);
    assert_eq!(max_count(&Vec::new()), 0);
    assert_eq!(
        bucket_offsets(&counts, ArenaUse::Seed).unwrap(),
        [0, 3, 3, 8]
    );
    let too_many = vec![u32::MAX, 1];
    let message = |used_for: ArenaUse| bucket_offsets(&too_many, used_for).unwrap_err().message();
    assert_eq!(
        message(ArenaUse::Seed),
        "backend cannot solve this request: fine CSR offset exceeds the u32 arena index"
    );
    assert_eq!(
        message(ArenaUse::TrimOutput),
        "backend cannot solve this request: fine trim output exceeds u32 arena indexing"
    );
    assert_eq!(
        message(ArenaUse::SeedShard),
        "backend cannot solve this request: fine seed shard exceeds u32 indexing"
    );
    assert_eq!(arena_bytes(0), 4);
    assert_eq!(arena_bytes(7), 28);
    assert_eq!(arena_bytes(u32::MAX), 17_179_869_180);
}

#[test]
fn arenas_are_held_against_the_adapter() {
    let narrow = AdapterLimits {
        max_buffer_size: 1 << 20,
        ..limits()
    };
    assert!(!ArenaUse::Seed.takes(&narrow, 1 << 21));
    assert!(ArenaUse::TrimOutput.takes(&narrow, 1 << 21));
    assert!(ArenaUse::SeedShard.takes(&narrow, 1 << 28));
    assert!(!ArenaUse::SeedShard.takes(&narrow, (1 << 28) + 4));
}

#[test]
fn arena_contents_are_checked() {
    let counts = vec![2, 3];
    assert!(check_histogram(&counts, 5, false).is_ok());
    assert_eq!(
        check_histogram(&counts, 6, false).unwrap_err().message(),
        "GPU error: fine histogram counted 5 edges, expected 6"
    );
    assert_eq!(
        check_histogram(&counts, 6, true).unwrap_err().message(),
        "GPU error: sharded fine histogram counted 5, expected 6"
    );
    assert!(check_cursors(&vec![2, 3], &counts, ArenaUse::Seed).is_ok());
    assert_eq!(
        check_cursors(&vec![2, 2], &counts, ArenaUse::Seed)
            .unwrap_err()
            .message(),
        "GPU error: fine CSR scatter cursor totals differ from histogram counts"
    );
    assert_eq!(
        check_cursors(&vec![2], &counts, ArenaUse::TrimOutput)
            .unwrap_err()
            .message(),
        "GPU error: fine trim output cursors differ from counted survivors"
    );
    assert!(check_entries(0, ArenaUse::Seed).is_ok());
    assert_eq!(
        check_entries(2, ArenaUse::Seed).unwrap_err().message(),
        "GPU error: fine CSR verification found 2 invalid arena entries"
    );
    assert_eq!(
        check_entries(3, ArenaUse::TrimOutput).unwrap_err().message(),
        "GPU error: fine trim output verification found 3 invalid entries"
    );
}

#[test]
fn fixed_buckets_have_room() {
    let counts = vec![100, 936, 7];
    let arena = prepare_fixed(&counts, &limits()).unwrap();
    assert_eq!(
        arena,
        FixedArena {
            capacity: 1_000,
            bytes: 131_072_000,
        }
    );
    let offsets = fixed_offsets(&arena);
    assert_eq!(offsets.len(), 32_769);
    assert_eq!(offsets[1], 1_000);
    assert_eq!(offsets[32_768], 32_768_000);
    assert!(prepare_fixed(&vec![2_000], &limits()).is_none());
    let wide = AdapterLimits {
        max_buffer_size: u64::MAX,
        max_storage_binding: u64::MAX,
        ..limits()
    };
    assert!(prepare_fixed(&vec![131_007], &wide).is_some());
    assert!(prepare_fixed(&vec![131_008], &wide).is_none());
}

#[test]
fn fixed_rounds_are_read() {
    let outcome = fixed_outcome(&vec![0, 4, 5], 9).unwrap().unwrap();
    assert_eq!(outcome.counts, [4, 5]);
    assert_eq!(outcome.survivors, 9);
    assert!(fixed_outcome(&vec![1, 4, 5], 9).unwrap().is_none());
    assert_eq!(
        fixed_outcome(&vec![0, 4, 5], 8).unwrap_err().message(),
        "GPU error: fine fixed trim increased the survivor population"
    );
}

#[test]
fn shards_hold_all_counts() {
    let counts: Vec<u32> = (0..32_768).collect();
    let mut both = shard_counts(&counts, 0);
    assert_eq!(both.len(), 16_384);
    both.extend(shard_counts(&counts, 1));
    assert_eq!(both, counts);
    assert_eq!(arena_survivors(&vec![9, u32::MAX]), [9, 4_294_967_295]);
}

fn unset() -> DiagnosticEnv {
    DiagnosticEnv {
        enabled: true,
        node_mask_bits: Variable::Unset,
        siphash_only: Variable::Unset,
        per_round: Variable::Unset,
        early_phases: Variable::Unset,
        bucket_round0: Variable::Unset,
        buckets: Variable::Unset,
        survivor_counts: Variable::Unset,
        fine_csr: Variable::Unset,
        fine_end_round: Variable::Unset,
        slean_phases: Variable::Unset,
    }
}

#[test]
fn fine_rounds_follow_the_seed() {
    let diagnostics = Diagnostics::from_env(&unset(), 24, 64, None).unwrap();
    let modes = ProductionModes {
        fine: true,
        bucketed_mark: true,
        slean: false,
    };
    let plan = RoundPlan::new(modes, &diagnostics, false);
    let transition = FineTransition::new(&plan, 2);
    assert_eq!((transition.loop_start, transition.end_round), (3, 64));
    assert!(transition.production && transition.sharded_seed && !transition.validate_output);
    assert_eq!(transition.round_kind(3), FineRound::Fixed);
    assert_eq!(transition.round_kind(62), FineRound::Fixed);
    assert_eq!(transition.round_kind(63), FineRound::Compact);
    let slean = ProductionModes {
        slean: true,
        ..modes
    };
    let whole = FineTransition::new(&RoundPlan::new(slean, &diagnostics, false), 3);
    assert_eq!((whole.loop_start, whole.sharded_seed), (3, false));
    let compared = Diagnostics::from_env(&unset(), 24, 64, Some(64)).unwrap();
    let plain = ProductionModes {
        fine: false,
        bucketed_mark: true,
        slean: false,
    };
    let plan = RoundPlan::new(plain, &compared, false);
    assert!(plan.starts_fine(6));
    let transition = FineTransition::new(&plan, 6);
    assert_eq!((transition.loop_start, transition.end_round), (6, 64));
    assert!(transition.validate_output);
    assert_eq!(transition.round_kind(7), FineRound::Compact);
}

#[test]
fn fine_rounds_fall_back_once() {
    let diagnostics = Diagnostics::from_env(&unset(), 24, 6, None).unwrap();
    let modes = ProductionModes {
        fine: true,
        bucketed_mark: true,
        slean: true,
    };
    let transition = FineTransition::new(&RoundPlan::new(modes, &diagnostics, false), 3);
    let mut run = FineRun::new(transition, 100);
    assert_eq!(run.next(true), FineStep::Stop);
    assert_eq!(run.next(false), FineStep::Trim(FineRound::Fixed, 1));
    run.fixed_done(None);
    assert_eq!(run.next(true), FineStep::Trim(FineRound::Compact, 1));
    run.compact_done(90);
    assert_eq!(run.next(false), FineStep::Trim(FineRound::Fixed, 0));
    let outcome = fixed_outcome(&vec![0, 40, 30], 90).unwrap();
    run.fixed_done(outcome.as_ref());
    assert_eq!((run.round, run.survivors), (5, 70));
    assert_eq!(run.next(false), FineStep::Trim(FineRound::Compact, 1));
    run.compact_done(60);
    assert_eq!(run.next(true), FineStep::Finish);
    assert_eq!(run.survivors, 60);
}

#[test]
fn compact_rounds_are_held_against_direct_ones() {
    assert_eq!(comparison_batch_end(6, 64), 22);
    assert_eq!(comparison_batch_end(54, 64), 64);
    assert!(check_against_direct(10, 10, 0).is_ok());
    assert_eq!(
        check_against_direct(10, 11, 1).unwrap_err().message(),
        "GPU error: fine/direct mismatch: fine=10 direct=11 mismatched_words=1"
    );
    assert!(matches!(
        check_against_direct(10, 10, 1),
        Err(SolveError::Gpu(_))
    ));
}

#[test]
fn linux_memory_is_read() {
    let report = "MemTotal:       16384 kB\nMemFree: 1 kB\nMemAvailable:    2048 kB\nCached: 5 kB\n";
    assert_eq!(parse_meminfo(report), Some(2_097_152));
    assert_eq!(parse_meminfo("MemAvailable: +7 kB"), Some(7_168));
    assert_eq!(parse_meminfo("MemAvailable:\nMemAvailable: 5"), None);
    assert_eq!(parse_meminfo(" MemAvailable: 5"), None);
    assert_eq!(parse_meminfo("MemAvailable: many kB"), None);
    assert_eq!(parse_meminfo("MemAvailable: 18446744073709551615 kB"), None);
    assert_eq!(parse_meminfo(""), None);
}

#[test]
fn macos_memory_is_read() {
    let report = "Mach Virtual Memory Statistics: (page size of 16384 bytes)\n\
                  Pages free:                               10.\n\
                  Pages active:                           1000.\n\
                  Pages inactive:                           20.\n\
                  Pages speculative:                        30.\n\
                  Pages throttled:                           0.\n\
                  Pages purgeable:                          40.\n\
                  Pages free but unreadable:                 5.\n";
    assert_eq!(parse_vm_stat(report), Some(100 * 16_384));
    assert_eq!(parse_vm_stat("page size of 8 bytes"), Some(0));
    assert_eq!(parse_vm_stat("page size of 8 bytes\nPages free: x."), Some(0));
    assert_eq!(parse_vm_stat("pages\nPages free: 3."), None);
    assert_eq!(
        parse_vm_stat("page size of 2\nPages free: 18446744073709551615."),
        None
    );
    assert_eq!(parse_vm_stat(""), None);
}

#[test]
fn native_node_function_is_spliced_in() {
    let source = "a\n// SIPHASH_ENDPOINT_BEGIN\nportable\n// SIPHASH_ENDPOINT_END\nb";
    assert_eq!(shader_source(source, "native\n", false).unwrap(), source);
    assert_eq!(
        shader_source(source, "native\n", true).unwrap(),
        "a\n// SIPHASH_ENDPOINT_BEGIN\nnative\n// SIPHASH_ENDPOINT_END\nb"
    );
    assert_eq!(
        shader_source("a", "native", true).unwrap_err().message(),
        "GPU error: missing SipHash begin marker"
    );
    assert_eq!(
        shader_source("// SIPHASH_ENDPOINT_BEGIN", "native", true)
            .unwrap_err()
            .message(),
        "GPU error: missing SipHash end marker"
    );
}

#[test]
fn diagnostic_kernels_are_left_out() {
    let source = "a\n// DIAGNOSTIC_KERNEL_BEGIN\nx\n// DIAGNOSTIC_KERNEL_END\nb\n// DIAGNOSTIC_KERNEL_BEGIN\ny\n// DIAGNOSTIC_KERNEL_END\nc";
    assert_eq!(
        without_diagnostic_kernels(source.to_string()).unwrap(),
        "a\n\nb\n\nc"
    );
    assert_eq!(without_diagnostic_kernels("a".to_string()).unwrap(), "a");
    assert_eq!(
        without_diagnostic_kernels("// DIAGNOSTIC_KERNEL_BEGIN x".to_string()),
        None
    );
}

#[test]
fn recovery_leaves_the_cpu_as_it_is() {
    let mut solver = CpuLeanSolver::with_max_edge_bits(20);
    assert!(solver.recover().is_ok());
    assert_eq!(solver.capabilities().max_edge_bits, 20);
}
