use blake2::digest::consts::U32;
use blake2::{Blake2b, Digest};
use grin_cuckatoo_miner::cli::{Backend, GateArgs, SolverArgs};
use grin_cuckatoo_miner::coordinator::{
    check_config, job_is_stale, next_nonce, Backoff, MineConfig, MineError, Miner, Note,
    Recovery, RecoveryEvent, RecoveryStep, Step, Watch,
};
use grin_cuckatoo_miner::gate::{gate_header, GateError, GateNote, GateRun};
use grin_cuckatoo_miner::keys::derive_keys;
use grin_cuckatoo_miner::solver::{SolveError, SolveOutcome, TrimmingMode};
use grin_cuckatoo_miner::stratum::{Job, RpcError, SubmitOutcome};
use grin_cuckatoo_miner::verify::{
    graph_weight, proof_difficulty, proof_hash, unscaled_proof_difficulty, verify_cycle, Proof,
    VerifyError,
};

const C18_PROOF: [u64; 42] = [
    10314, 14021, 15134, 30319, 33503, 33645, 34282, 38657, 46697, 51560, 78930, 82234, 89639,
    104092, 104555, 105565, 106157, 127348, 132671, 138459, 153192, 153214, 157224, 160279,
    161096, 164039, 166165, 176219, 177336, 180942, 189572, 190168, 194849, 197668, 214343,
    224188, 230161, 236195, 244331, 251293, 254432, 261863,
];

fn job(height: u64, job_id: u64, pre_pow: &str) -> Job {
    Job {
        height,
        job_id,
        difficulty: 1,
        pre_pow: pre_pow.into(),
    }
}

fn c18_proof() -> Proof {
    Proof {
        nonces: C18_PROOF.to_vec(),
    }
}

fn mine_config(max_graphs: u64) -> MineConfig {
    MineConfig {
        edge_bits: 18,
        cycle_length: 42,
        rounds: 128,
        max_graphs,
        nonce_start: 69,
    }
}

fn rejected(code: i64) -> SubmitOutcome {
    SubmitOutcome::Rejected(RpcError {
        code,
        message: "too late".to_string(),
        data: None,
    })
}

#[test]
fn same_height_job_stays_valid() {
    let current = job(10, 0, "aa");
    assert!(!job_is_stale(&current, &job(10, 3, "bb")));
    assert!(job_is_stale(&current, &job(11, 0, "cc")));
}

#[test]
fn nonce_exhaustion_is_explicit() {
    assert_eq!(next_nonce(41).unwrap(), 42);
    assert!(next_nonce(u64::MAX).is_err());
}

#[test]
fn job_push_cancels_without_polling() {
    let current = job(10, 0, "00");
    let next = job(11, 0, "01");
    let mut watch = Watch::new();
    assert!(!watch.job_changed(&current, Some(&job(10, 1, "00"))));
    assert!(!watch.cancelled);
    assert!(watch.job_changed(&current, Some(&next)));
    assert!(watch.cancelled);
    assert!(!watch.job_changed(&current, Some(&next)));

    let mut config = mine_config(1);
    config.rounds = 1;
    config.nonce_start = 0;
    let mut miner = Miner::start(config, current, None).unwrap();
    assert_eq!(miner.request().unwrap().nonce, 0);
    let step = miner.solved(Ok(SolveOutcome::Cancelled), true, Some(next));
    assert!(matches!(step, Step::Switched));
    assert_eq!(miner.job().height, 11);
    assert!(miner.request().is_none());
}

#[test]
fn rejection_keeps_mining() {
    let mut miner = Miner::start(mine_config(2), job(10, 0, "00"), None).unwrap();
    assert_eq!(miner.request().unwrap().nonce, 69);
    let Step::Submit(share) = miner.solved(Ok(SolveOutcome::Proof(c18_proof())), true, None) else {
        panic!("the proof is good enough");
    };
    assert_eq!((share.height, share.job_id, share.nonce), (10, 0, 69));
    assert_eq!(share.pow, C18_PROOF);
    let step = miner.submitted(Some(rejected(-32503)));
    assert!(matches!(step, Step::Next(Note::Rejected(_))));
    assert_eq!(miner.request().unwrap().nonce, 70);
    let step = miner.solved(Ok(SolveOutcome::NoCycle), true, None);
    assert!(matches!(step, Step::Next(Note::NoCycle)));
    assert!(miner.request().is_none());
}

#[test]
fn lost_submit_is_not_repeated() {
    let mut miner = Miner::start(mine_config(1), job(10, 0, "00"), None).unwrap();
    let step = miner.solved(Ok(SolveOutcome::Proof(c18_proof())), true, None);
    assert!(matches!(step, Step::Submit(_)));
    assert!(matches!(miner.submitted(None), Step::Reconnect));
    miner.restart(job(11, 0, "01")).unwrap();
    assert_eq!(miner.job().height, 11);
    assert!(miner.request().is_none());
}

#[test]
fn lost_share_is_not_sent_for_an_unchanged_job() {
    let mut miner = Miner::start(mine_config(0), job(10, 0, "00"), None).unwrap();
    let step = miner.solved(Ok(SolveOutcome::Proof(c18_proof())), true, None);
    assert!(matches!(step, Step::Submit(_)));
    assert!(matches!(miner.submitted(None), Step::Reconnect));
    miner.restart(job(10, 0, "00")).unwrap();
    assert_eq!(miner.request().unwrap().nonce, 69);
    let step = miner.solved(Ok(SolveOutcome::Proof(c18_proof())), true, None);
    assert!(matches!(step, Step::Next(Note::Undelivered)));
    assert_eq!(miner.request().unwrap().nonce, 70);
    let step = miner.solved(Ok(SolveOutcome::NoCycle), false, None);
    assert!(matches!(step, Step::Reconnect));
    miner.restart(job(10, 3, "00")).unwrap();
    let step = miner.solved(Ok(SolveOutcome::Proof(c18_proof())), true, None);
    assert!(matches!(step, Step::Next(Note::Undelivered)));
}

#[test]
fn answered_share_is_not_held_back() {
    let mut miner = Miner::start(mine_config(0), job(10, 0, "00"), None).unwrap();
    let step = miner.solved(Ok(SolveOutcome::Proof(c18_proof())), true, None);
    assert!(matches!(step, Step::Submit(_)));
    let accepted = SubmitOutcome::Accepted("\"ok\"".to_string());
    assert!(matches!(
        miner.submitted(Some(accepted)),
        Step::Next(Note::Accepted(_))
    ));
    assert!(matches!(miner.submitted(None), Step::Reconnect));
    miner.restart(job(10, 0, "00")).unwrap();
    let step = miner.solved(Ok(SolveOutcome::Proof(c18_proof())), true, None);
    assert!(matches!(step, Step::Submit(_)));
}

#[test]
fn reconnecting_never_gives_up() {
    let mut recovery = Recovery::new();
    for (attempt, wait) in [1, 2, 4, 8, 16, 30, 30, 30].into_iter().enumerate() {
        let step = if attempt % 2 == 0 {
            recovery.after(RecoveryEvent::ConnectFailed)
        } else {
            let step = recovery.after(RecoveryEvent::Connected);
            assert!(matches!(step, RecoveryStep::AskForJob));
            recovery.after(RecoveryEvent::JobFailed)
        };
        assert!(matches!(step, RecoveryStep::Wait(seconds) if seconds == wait));
        let step = recovery.after(RecoveryEvent::Waited);
        assert!(matches!(step, RecoveryStep::Connect));
    }
    let step = recovery.after(RecoveryEvent::Connected);
    assert!(matches!(step, RecoveryStep::AskForJob));
    let step = recovery.after(RecoveryEvent::Job(job(7, 1, "00")));
    assert!(matches!(step, RecoveryStep::Done(job) if job.height == 7));
}

#[test]
fn recovery_goes_on_with_the_next_nonce() {
    let failure = || Err(SolveError::Gpu("test failure".into()));
    let mut miner = Miner::start(mine_config(1), job(10, 0, "00"), None).unwrap();
    assert!(matches!(miner.solved(failure(), true, None), Step::Recover));
    miner.recovered().unwrap();
    assert_eq!(miner.nonce(), 70);
    assert!(matches!(miner.solved(failure(), true, None), Step::Recover));
    miner.recovered().unwrap();
    let step = miner.solved(failure(), true, None);
    let Step::Fail(error) = step else {
        panic!("the third failure ends the run");
    };
    assert_eq!(error.message(), "solver failed three times in a row");
}

#[test]
fn success_forgets_failures() {
    let failure = || Err(SolveError::Gpu("test failure".into()));
    let mut miner = Miner::start(mine_config(0), job(10, 0, "00"), None).unwrap();
    for _ in 0..5 {
        assert!(matches!(miner.solved(failure(), true, None), Step::Recover));
        miner.recovered().unwrap();
        assert!(matches!(miner.solved(failure(), true, None), Step::Recover));
        miner.recovered().unwrap();
        let step = miner.solved(Ok(SolveOutcome::NoCycle), true, None);
        assert!(matches!(step, Step::Next(Note::NoCycle)));
    }
}

#[test]
fn other_failures_end_the_run() {
    let mut miner = Miner::start(mine_config(1), job(10, 0, "00"), None).unwrap();
    let error = SolveError::Unsupported("no".into());
    let Step::Fail(error) = miner.solved(Err(error), true, None) else {
        panic!("the run ends");
    };
    assert_eq!(error.message(), "solving nonce 69");
    assert!(matches!(error, MineError::Solving(69, _)));
}

#[test]
fn lost_connection_discards_the_answer() {
    let mut miner = Miner::start(mine_config(2), job(10, 0, "00"), None).unwrap();
    let step = miner.solved(Ok(SolveOutcome::Proof(c18_proof())), false, None);
    assert!(matches!(step, Step::Reconnect));
    miner.restart(job(10, 1, "00")).unwrap();
    assert_eq!(miner.request().unwrap().nonce, 69);
}

#[test]
fn stale_proof_is_discarded() {
    let mut miner = Miner::start(mine_config(0), job(10, 0, "00"), None).unwrap();
    let step = miner.solved(
        Ok(SolveOutcome::Proof(c18_proof())),
        true,
        Some(job(12, 4, "02")),
    );
    assert!(matches!(step, Step::Switched));
    assert_eq!(miner.request().unwrap().pre_pow, vec![2]);
}

#[test]
fn hard_jobs_are_not_submitted() {
    let mut hard = job(10, 0, "00");
    hard.difficulty = u64::MAX;
    let mut miner = Miner::start(mine_config(0), hard, None).unwrap();
    let expected = unscaled_proof_difficulty(&c18_proof(), 18);
    let step = miner.solved(Ok(SolveOutcome::Proof(c18_proof())), true, None);
    let Step::Next(Note::BelowDifficulty(difficulty)) = step else {
        panic!("the proof is not good enough");
    };
    assert_eq!(difficulty, expected);
    assert_eq!(miner.nonce(), 70);
}

#[test]
fn wrong_proof_ends_the_run() {
    let mut wrong = c18_proof();
    wrong.nonces[0] += 1;
    let mut miner = Miner::start(mine_config(0), job(10, 0, "00"), None).unwrap();
    let Step::Fail(error) = miner.solved(Ok(SolveOutcome::Proof(wrong)), true, None) else {
        panic!("the proof is wrong");
    };
    assert_eq!(
        error.message(),
        "solver returned an invalid proof; refusing submission"
    );
}

#[test]
fn unexpected_rejection_ends_the_run() {
    let mut miner = Miner::start(mine_config(0), job(10, 0, "00"), None).unwrap();
    let Step::Fail(error) = miner.submitted(Some(rejected(-32502))) else {
        panic!("the run ends");
    };
    assert_eq!(
        error.message(),
        "verified share rejected with code -32502: too late"
    );
}

#[test]
fn runs_end_at_the_last_nonce() {
    let mut config = mine_config(0);
    config.nonce_start = u64::MAX;
    let mut miner = Miner::start(config, job(10, 0, "00"), None).unwrap();
    let Step::Fail(error) = miner.solved(Ok(SolveOutcome::NoCycle), true, None) else {
        panic!("no nonce is left");
    };
    assert_eq!(error.message(), "nonce space exhausted at u64::MAX");
}

#[test]
fn inconclusive_graphs_are_passed() {
    let mut miner = Miner::start(mine_config(0), job(10, 0, "00"), None).unwrap();
    let reason = "more than 100000000 branches in D2 search".to_string();
    let step = miner.solved(Ok(SolveOutcome::Inconclusive(reason.clone())), true, None);
    assert!(matches!(step, Step::Next(Note::Inconclusive(kept)) if kept == reason));
    assert_eq!(miner.nonce(), 70);
}

#[test]
fn runs_start_on_the_latest_job() {
    let miner = Miner::start(mine_config(1), job(10, 0, "00"), Some(job(11, 0, "01"))).unwrap();
    assert_eq!(miner.job().height, 11);
    let miner = Miner::start(mine_config(1), job(10, 0, "00"), Some(job(10, 5, "01"))).unwrap();
    assert_eq!(miner.job().job_id, 0);
    let error = match Miner::start(mine_config(1), job(10, 0, "0x"), None) {
        Ok(_) => panic!("the header is wrong"),
        Err(error) => error,
    };
    assert_eq!(error.message(), "job contains invalid pre_pow hex");
}

#[test]
fn only_long_cycles_are_mined() {
    let mut config = mine_config(1);
    config.cycle_length = 4;
    assert_eq!(
        check_config(&config).unwrap_err().message(),
        "Grin Stratum submission requires --cycle-length 42"
    );
}

#[test]
fn waits_double_up_to_half_a_minute() {
    let mut backoff = Backoff::new();
    let waits: Vec<u64> = (0..8).map(|_| backoff.failed()).collect();
    assert_eq!(waits, [1, 2, 4, 8, 16, 30, 30, 30]);
}

#[test]
fn watch_stops_for_every_loss() {
    let mut watch = Watch::new();
    watch.connection_changed(true);
    assert!(!watch.cancelled);
    watch.connection_changed(false);
    assert!(watch.cancelled && watch.connection_open);
    let mut watch = Watch::new();
    watch.connection_closed();
    assert!(watch.cancelled && !watch.connection_open && watch.jobs_open);
    let mut watch = Watch::new();
    watch.jobs_closed();
    assert!(watch.cancelled && watch.connection_open && !watch.jobs_open);
}

fn gate_args(edge_bits: u8, pre_pow: &str, nonce_start: u64, count: u64) -> GateArgs {
    GateArgs {
        solver: SolverArgs {
            backend: Backend::Cpu,
            edge_bits,
            cycle_length: 42,
            rounds: 128,
            trimming: TrimmingMode::Auto,
            slean_parts: 4,
            local_ram_kib: 32,
        },
        pre_pow: pre_pow.to_string(),
        nonce_start,
        count,
    }
}

#[test]
fn gate_checks_its_header() {
    assert_eq!(gate_header("0001").unwrap(), vec![0, 1]);
    assert_eq!(
        gate_header("").unwrap_err().message(),
        "--pre-pow must not be empty"
    );
    assert_eq!(
        gate_header("zz").unwrap_err().message(),
        "invalid --pre-pow hex"
    );
    let args = gate_args(18, "00", u64::MAX, 1);
    let error = match GateRun::start(&args, vec![0]) {
        Ok(_) => panic!("the range is too long"),
        Err(error) => error,
    };
    assert_eq!(error.message(), "--nonce-start + --count overflows u64");
}

#[test]
fn gate_collects_nonces() {
    let args = gate_args(18, "00", 68, 3);
    let mut run = GateRun::start(&args, vec![0]).unwrap();
    assert_eq!(run.request().unwrap().nonce, 68);
    assert!(matches!(
        run.solved(Ok(SolveOutcome::NoCycle)),
        Ok(GateNote::Nothing)
    ));
    assert!(matches!(
        run.solved(Ok(SolveOutcome::Proof(c18_proof()))),
        Ok(GateNote::Found(found)) if found == c18_proof()
    ));
    assert!(matches!(
        run.solved(Ok(SolveOutcome::Inconclusive("why".into()))),
        Ok(GateNote::Inconclusive(why)) if why == "why"
    ));
    assert!(run.request().is_none());
    assert_eq!(run.found(), &vec![69]);
    assert!(run.finish().is_ok());
}

#[test]
fn gate_refuses_wrong_answers() {
    let args = gate_args(18, "00", 68, 1);
    let mut run = GateRun::start(&args, vec![0]).unwrap();
    let error = run.solved(Ok(SolveOutcome::Proof(c18_proof()))).unwrap_err();
    assert_eq!(error.message(), "gate backend returned invalid proof");
    let mut run = GateRun::start(&args, vec![0]).unwrap();
    let error = run.solved(Ok(SolveOutcome::Cancelled)).unwrap_err();
    assert_eq!(error.message(), "offline gate was unexpectedly cancelled");
    let mut run = GateRun::start(&args, vec![0]).unwrap();
    let error = run
        .solved(Err(SolveError::Gpu("lost".into())))
        .unwrap_err();
    assert_eq!(error.message(), "GPU error: lost");
}

#[test]
fn full_gate_must_find_the_known_nonces() {
    let args = gate_args(32, "00", 0, 100);
    let mut run = GateRun::start(&args, vec![0]).unwrap();
    for _ in 0..100 {
        assert!(run.finish().is_err());
        run.solved(Ok(SolveOutcome::NoCycle)).unwrap();
    }
    assert!(matches!(run.finish(), Err(GateError::Acceptance)));
    let other = gate_args(32, "00", 1, 100);
    let run = GateRun::start(&other, vec![0]).unwrap();
    assert!(run.finish().is_ok());
}

#[test]
fn known_proof_passes() {
    let keys = derive_keys(&[0], 69);
    assert_eq!(verify_cycle(keys, 18, 42, &c18_proof()), Ok(()));
    let other = derive_keys(&[0], 68);
    assert!(verify_cycle(other, 18, 42, &c18_proof()).is_err());
}

#[test]
fn every_refusal_has_a_proof_that_meets_it() {
    let keys = derive_keys(&[0], 69);
    assert_eq!(
        verify_cycle(keys, 0, 42, &c18_proof()),
        Err(VerifyError::BadEdgeBits)
    );
    assert_eq!(
        verify_cycle(keys, 18, 40, &c18_proof()),
        Err(VerifyError::BadProofSize {
            expected: 40,
            actual: 42
        })
    );
    assert_eq!(
        verify_cycle(keys, 17, 42, &c18_proof()),
        Err(VerifyError::Range)
    );
    let mut swapped = c18_proof();
    swapped.nonces.swap(0, 1);
    assert_eq!(
        verify_cycle(keys, 18, 42, &swapped),
        Err(VerifyError::NotSortedDistinct)
    );
    let mut loose = c18_proof();
    loose.nonces[41] = 261_864;
    assert_eq!(
        verify_cycle(keys, 18, 42, &loose),
        Err(VerifyError::EndpointDegree)
    );
}

#[test]
fn weights_of_graphs() {
    assert_eq!(graph_weight(0, 32), 16_384);
    assert_eq!(graph_weight(u64::MAX, 32), 16_384);
    assert_eq!(graph_weight(524_159, 31), 7_936);
    assert_eq!(graph_weight(524_160, 31), 7_680);
    assert_eq!(graph_weight(524_160 + 10_080, 31), 7_424);
    assert_eq!(graph_weight(u64::MAX, 31), 0);
    assert_eq!(graph_weight(0, 24), 48);
    assert_eq!(graph_weight(0, 23), 0);
}

#[test]
fn difficulties_of_proofs() {
    let hash = proof_hash(&c18_proof(), 18);
    let top = u64::from_be_bytes(hash[..8].try_into().unwrap()).max(1);
    let scaled = |scale: u64| {
        ((u128::from(scale) << 64) / u128::from(top)).min(u128::from(u64::MAX)) as u64
    };
    assert_eq!(unscaled_proof_difficulty(&c18_proof(), 18), scaled(1));
    assert_eq!(proof_difficulty(&c18_proof(), 18, 0), 0);
    let hash = proof_hash(&c18_proof(), 32);
    let top = u64::from_be_bytes(hash[..8].try_into().unwrap()).max(1);
    let scaled = |scale: u64| {
        ((u128::from(scale) << 64) / u128::from(top)).min(u128::from(u64::MAX)) as u64
    };
    assert_eq!(proof_difficulty(&c18_proof(), 32, 0), scaled(16_384));
}

#[test]
fn hash_is_of_the_packed_edges() {
    let mut packed = vec![0u8; (42 * 18 + 7) / 8];
    for (i, nonce) in C18_PROOF.iter().enumerate() {
        for bit in 0..18 {
            if (nonce >> bit) & 1 == 1 {
                packed[(i * 18 + bit) / 8] |= 1 << ((i * 18 + bit) % 8);
            }
        }
    }
    let expected: [u8; 32] = Blake2b::<U32>::digest(&packed).into();
    assert_eq!(proof_hash(&c18_proof(), 18), expected);
}
