use std::sync::atomic::AtomicBool;

use grin_cuckatoo_miner::keys::derive_keys;
use grin_cuckatoo_miner::solver::cpu_lean::{trim_survivors, CpuLeanSolver};
use grin_cuckatoo_miner::solver::peel::peel_two_core;
use grin_cuckatoo_miner::solver::radix::{equal_range, radix_order};
use grin_cuckatoo_miner::solver::{
    validate_request, BackendCapabilities, GraphParams, SolveError, SolveOutcome, SolveRequest,
    Solver,
};
use grin_cuckatoo_miner::verify::verify_cycle;

fn capabilities() -> BackendCapabilities {
    BackendCapabilities {
        min_edge_bits: 1,
        max_edge_bits: 32,
        cycle_length: 42,
    }
}

#[test]
fn rejects_invalid_work() {
    let mut request = SolveRequest {
        pre_pow: vec![0],
        nonce: 0,
        live_work: false,
        edge_bits: 32,
        cycle_length: 42,
        rounds: 0,
    };
    assert!(matches!(
        validate_request(&request, capabilities()),
        Err(SolveError::InvalidConfig(_))
    ));
    request.rounds = 64;
    request.cycle_length = 1_000;
    assert!(matches!(
        validate_request(&request, capabilities()),
        Err(SolveError::InvalidConfig(_))
    ));
}

#[test]
fn work_request_derives_keys() {
    let request = SolveRequest {
        pre_pow: vec![0],
        nonce: 45,
        live_work: true,
        edge_bits: 32,
        cycle_length: 42,
        rounds: 128,
    };
    assert_eq!(request.sip_keys(), derive_keys(&[0], 45));
}

#[test]
fn small_graph_proofs_verify() {
    let request = SolveRequest {
        pre_pow: vec![0],
        nonce: 0,
        live_work: false,
        edge_bits: 12,
        cycle_length: 4,
        rounds: 20,
    };
    let params = request.graph_params();
    let result = CpuLeanSolver::default()
        .solve(request, &AtomicBool::new(false))
        .unwrap();
    if let SolveOutcome::Proof(proof) = result {
        verify_cycle(params.keys, params.edge_bits, params.cycle_length, &proof).unwrap();
    }
}

#[test]
fn rejects_edge_bits_before_allocating() {
    let request = SolveRequest {
        pre_pow: vec![0],
        nonce: 0,
        live_work: false,
        edge_bits: 0,
        cycle_length: 42,
        rounds: 160,
    };
    assert!(matches!(
        CpuLeanSolver::default().solve(request, &AtomicBool::new(false)),
        Err(SolveError::InvalidConfig(_))
    ));
}

#[test]
fn pre_cancel_returns_cancelled() {
    let request = SolveRequest {
        pre_pow: vec![0],
        nonce: 0,
        live_work: false,
        edge_bits: 12,
        cycle_length: 4,
        rounds: 20,
    };
    let cancel = AtomicBool::new(true);
    assert!(matches!(
        CpuLeanSolver::default().solve(request, &cancel).unwrap(),
        SolveOutcome::Cancelled
    ));
}

#[test]
fn radix_matches_sort() {
    let keys = [7, 1, u32::MAX, 7, 0, 65_537, 1];
    let order = radix_order(&keys);
    let sorted: Vec<_> = order.iter().map(|&i| keys[i as usize]).collect();
    let mut expected = keys.to_vec();
    expected.sort_unstable();
    assert_eq!(sorted, expected);
    assert_eq!(equal_range(&order, &keys, 7), (3, 5));
}

#[test]
fn peel_reaches_a_fixed_core() {
    let request = GraphParams {
        keys: derive_keys(&[0], 7),
        edge_bits: 12,
        cycle_length: 4,
        rounds: 4,
    };
    let survivors = trim_survivors(request, 12).unwrap();
    let peeled = peel_two_core(request, &survivors).unwrap();
    assert!(peeled.len() <= survivors.len());
    assert_eq!(peel_two_core(request, &peeled).unwrap(), peeled);

    let converged = trim_survivors(
        GraphParams {
            rounds: 200,
            ..request
        },
        12,
    )
    .unwrap();
    assert_eq!(peeled, converged);
}
