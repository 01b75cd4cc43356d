use clap::{Arg, Command};
use grin_cuckatoo_miner::cli::{
    first_attempt, next_attempt, parse_power_of_two, Attempt, Backend, SolverArgs,
};
use grin_cuckatoo_miner::solver::gpu_diagnostics::{DiagnosticEnv, Diagnostics, Variable};
use grin_cuckatoo_miner::solver::TrimmingMode;

fn backend(name: &str) -> Result<Backend, String> {
    Backend::from_name(name).ok_or_else(|| format!("unknown backend {name}"))
}

#[test]
fn gpu_is_a_wgpu_alias() {
    for name in ["wgpu", "gpu"] {
        let gate = Command::new("gate").arg(
            Arg::new("backend")
                .long("backend")
                .value_parser(backend),
        );
        let matches = Command::new("miner")
            .subcommand(gate)
            .try_get_matches_from(["miner", "gate", "--backend", name])
            .unwrap();
        let Some(("gate", args)) = matches.subcommand() else {
            unreachable!();
        };
        assert!(matches!(
            args.get_one::<Backend>("backend"),
            Some(Backend::Wgpu)
        ));
    }
}

#[test]
fn backends_have_names() {
    assert_eq!(Backend::from_name("auto"), Some(Backend::Auto));
    assert_eq!(Backend::from_name("metal"), Some(Backend::Metal));
    assert_eq!(Backend::from_name("cpu"), Some(Backend::Cpu));
    assert_eq!(Backend::from_name("Wgpu"), None);
    assert_eq!(Backend::from_name(""), None);
}

#[test]
fn power_of_two_arguments() {
    assert_eq!(parse_power_of_two("2"), Ok(2));
    assert_eq!(parse_power_of_two("+64"), Ok(64));
    assert_eq!(parse_power_of_two("2147483648"), Ok(2_147_483_648));
    let message = "value must be a power of two and at least 2";
    assert_eq!(parse_power_of_two("1"), Err(message.to_string()));
    assert_eq!(parse_power_of_two("0"), Err(message.to_string()));
    assert_eq!(parse_power_of_two("12"), Err(message.to_string()));
    for bad in ["", "x", "-4", "4294967296", "+", "4 "] {
        let error = bad.parse::<u32>().unwrap_err();
        assert_eq!(
            parse_power_of_two(bad),
            Err(format!("expected an integer: {error}"))
        );
    }
}

fn solver_args(backend: Backend, edge_bits: u8, trimming: TrimmingMode) -> SolverArgs {
    SolverArgs {
        backend,
        edge_bits,
        cycle_length: 42,
        rounds: 128,
        trimming,
        slean_parts: 4,
        local_ram_kib: 32,
    }
}

#[test]
fn automatic_backend_falls_back() {
    let small = solver_args(Backend::Auto, 28, TrimmingMode::Auto);
    assert_eq!(first_attempt(&small, true), Attempt::Metal);
    assert_eq!(first_attempt(&small, false), Attempt::Wgpu);
    assert_eq!(next_attempt(&small, Attempt::Metal), Some(Attempt::Wgpu));
    assert_eq!(next_attempt(&small, Attempt::Wgpu), Some(Attempt::Cpu));
    assert_eq!(next_attempt(&small, Attempt::Cpu), None);

    let large = solver_args(Backend::Auto, 29, TrimmingMode::Lean);
    assert_eq!(first_attempt(&large, true), Attempt::Wgpu);
    assert_eq!(next_attempt(&large, Attempt::Wgpu), None);

    let tiny = solver_args(Backend::Auto, 17, TrimmingMode::Slean);
    assert_eq!(first_attempt(&tiny, true), Attempt::Wgpu);
}

#[test]
fn named_backend_has_no_fallback() {
    for (name, attempt) in [
        (Backend::Metal, Attempt::Metal),
        (Backend::Wgpu, Attempt::Wgpu),
        (Backend::Cpu, Attempt::Cpu),
    ] {
        let args = solver_args(name, 20, TrimmingMode::Auto);
        assert_eq!(first_attempt(&args, true), attempt);
        assert_eq!(next_attempt(&args, attempt), None);
    }
}

fn quiet() -> DiagnosticEnv {
    DiagnosticEnv {
        enabled: true,
        node_mask_bits: Variable::Unset,
        siphash_only: Variable::Unset,
        per_round: Variable::Unset,
        early_phases: Variable::Unset,
        bucket_round0: Variable::Unset,
        buckets: Variable::Unset,
        survivor_counts: Variable::Unset,
        fine_csr: Variable::Unset,
        fine_end_round: Variable::Unset,
        slean_phases: Variable::Unset,
    }
}

fn on() -> Variable {
    Variable::Text("1".to_string())
}

#[test]
fn diagnostics_are_off_by_default() {
    assert!(!quiet().forbids_mining());
    assert!(!Diagnostics::result_only_from_env(&quiet()));
    let diagnostics = Diagnostics::from_env(&quiet(), 32, 128, None).unwrap();
    assert_eq!(diagnostics.rounds, 128);
    assert!(!diagnostics.result_only());
    assert!(!diagnostics.has_exclusive());
    assert_eq!(diagnostics.node_mask(32), u32::MAX);
    assert_eq!(diagnostics.node_mask(20), (1 << 20) - 1);
}

#[test]
fn diagnostics_forbid_mining() {
    let mut env = quiet();
    env.slean_phases = Variable::NotText;
    assert!(env.forbids_mining());
}

#[test]
fn node_mask_diagnostic() {
    let mut env = quiet();
    env.node_mask_bits = Variable::Text("12".to_string());
    let diagnostics = Diagnostics::from_env(&env, 24, 10, None).unwrap();
    assert_eq!(diagnostics.node_mask(24), 0xfff);
    assert!(diagnostics.has_exclusive());
    assert!(diagnostics.result_only());
    env.node_mask_bits = Variable::Text("25".to_string());
    assert_eq!(
        Diagnostics::from_env(&env, 24, 10, None).unwrap_err().message(),
        "invalid configuration: GRIN_MINER_DIAGNOSTIC_NODE_MASK_BITS must be in 1..=24"
    );
    env.node_mask_bits = Variable::Text("many".to_string());
    let error = "many".parse::<u8>().unwrap_err();
    assert_eq!(
        Diagnostics::from_env(&env, 24, 10, None).unwrap_err().message(),
        format!(
            "invalid configuration: GRIN_MINER_DIAGNOSTIC_NODE_MASK_BITS must be an integer: {error}"
        )
    );
}

#[test]
fn diagnostics_that_do_not_mix() {
    let mut env = quiet();
    env.siphash_only = on();
    env.bucket_round0 = on();
    assert_eq!(
        Diagnostics::from_env(&env, 32, 10, None).unwrap_err().message(),
        "invalid configuration: SIPHASH_ONLY, BUCKET_ROUND0, and NODE_MASK_BITS diagnostics cannot be combined"
    );
    env.siphash_only = Variable::Unset;
    assert_eq!(
        Diagnostics::from_env(&env, 31, 10, None).unwrap_err().message(),
        "invalid configuration: GRIN_MINER_DIAGNOSTIC_BUCKET_ROUND0 currently requires edge_bits=32"
    );
    env.buckets = Variable::Text("48".to_string());
    assert_eq!(
        Diagnostics::from_env(&env, 32, 10, None).unwrap_err().message(),
        "invalid configuration: GRIN_MINER_DIAGNOSTIC_BUCKETS must be one of 16, 32, 64, or 128"
    );
    env.buckets = Variable::Text("128".to_string());
    assert_eq!(
        Diagnostics::from_env(&env, 32, 10, None).unwrap().bucket_count,
        128
    );
}

#[test]
fn builds_without_diagnostics_ignore_the_variables() {
    let mut env = quiet();
    env.enabled = false;
    env.siphash_only = on();
    env.node_mask_bits = Variable::Text("many".to_string());
    let diagnostics = Diagnostics::from_env(&env, 24, 10, None).unwrap();
    assert!(!diagnostics.result_only());
    assert_eq!(diagnostics.rounds, 10);
    assert!(!Diagnostics::result_only_from_env(&env));
    assert!(env.forbids_mining());
}

#[test]
fn survivor_counts_run_eight_rounds() {
    let mut env = quiet();
    env.survivor_counts = on();
    assert_eq!(Diagnostics::from_env(&env, 24, 64, None).unwrap().rounds, 8);
    assert_eq!(
        Diagnostics::from_env(&env, 24, 7, None).unwrap_err().message(),
        "invalid configuration: GRIN_MINER_DIAGNOSTIC_SURVIVOR_COUNTS requires at least 8 rounds"
    );
    env.fine_csr = on();
    assert_eq!(
        Diagnostics::from_env(&env, 24, 64, None).unwrap_err().message(),
        "invalid configuration: FINE_CSR cannot be combined with another result-only GPU diagnostic"
    );
}

#[test]
fn fine_csr_diagnostic() {
    let mut env = quiet();
    env.fine_csr = on();
    let diagnostics = Diagnostics::from_env(&env, 24, 6, Some(64)).unwrap();
    assert_eq!((diagnostics.rounds, diagnostics.fine_end_round), (6, 64));
    assert_eq!(
        Diagnostics::from_env(&env, 24, 5, None).unwrap_err().message(),
        "invalid configuration: GRIN_MINER_DIAGNOSTIC_FINE_CSR requires at least 6 rounds"
    );
    env.fine_end_round = Variable::Text("65".to_string());
    assert_eq!(
        Diagnostics::from_env(&env, 24, 6, None).unwrap_err().message(),
        "invalid configuration: GRIN_MINER_DIAGNOSTIC_FINE_END_ROUND must be in 7..=64"
    );
    env.fine_csr = Variable::Unset;
    assert_eq!(
        Diagnostics::from_env(&env, 24, 6, None).unwrap_err().message(),
        "invalid configuration: GRIN_MINER_DIAGNOSTIC_FINE_END_ROUND requires GRIN_MINER_DIAGNOSTIC_FINE_CSR"
    );
}
