//! The decisions of a mining run.  The caller moves the bytes, runs the solver
//! and waits; every step it is told to take comes from here.

use crate::graph::Graph;
use crate::hex_text::{self, HexError};
use crate::keys;
use crate::siphash::SipKeys;
use crate::solver::self_check::same_values;
use crate::solver::{ErrorKind, SolveError, SolveOutcome, SolveRequest};
use crate::stratum::{self, Job, RpcError, SubmitOutcome};
use crate::text;
use crate::verify::{self, unscaled_proof_difficulty, verify_cycle, Proof, VerifyError};
use vstd::arithmetic::power2;
use vstd::prelude::*;

verus! {

/// What a mining run is set to.
#[derive(Debug, Clone, Copy)]
pub struct MineConfig {
    pub edge_bits: u8,
    pub cycle_length: usize,
    pub rounds: u32,
    pub max_graphs: u64,
    pub nonce_start: u64,
}

/// Why a mining run ended.
#[derive(Debug)]
pub enum MineError {
    /// The run was set to cycles that cannot be submitted.
    CycleLength,
    /// The job has no header.
    BadHeader(HexError),
    /// There is no further nonce.
    NonceExhausted,
    /// The backend failed three times without a success in between.
    SolverFailed(SolveError),
    /// The backend refused the request.
    Solving(u64, SolveError),
    /// The backend returned a proof that does not pass the check.
    InvalidProof(VerifyError),
    /// The server refused a share that passed the check.
    ShareRejected(RpcError),
}

/// A signed number in decimal.
pub open spec fn signed_decimal(n: i64) -> Seq<char> {
    if n < 0 {
        "-"@ + text::decimal((-(n as int)) as nat)
    } else {
        text::decimal(n as nat)
    }
}

fn append_signed(out: &mut String, n: i64)
    ensures
        final(out)@ == old(out)@ + signed_decimal(n),
{
    if n < 0 {
        out.append("-");
        let size: u64 = (-(n as i128)) as u64;
        text::append_decimal(out, size);
        assert(out@ =~= old(out)@ + signed_decimal(n));
    } else {
        text::append_decimal(out, n as u64);
    }
}

impl MineError {
    /// What `message` returns.
    pub open spec fn message_text(self) -> Seq<char> {
        match self {
            MineError::CycleLength => "Grin Stratum submission requires --cycle-length 42"@,
            MineError::BadHeader(_) => "job contains invalid pre_pow hex"@,
            MineError::NonceExhausted => "nonce space exhausted at u64::MAX"@,
            MineError::SolverFailed(_) => "solver failed three times in a row"@,
            MineError::Solving(nonce, _) => "solving nonce "@ + text::decimal(nonce as nat),
            MineError::InvalidProof(_) =>
                "solver returned an invalid proof; refusing submission"@,
            MineError::ShareRejected(error) => "verified share rejected with code "@
                + signed_decimal(error.code) + ": "@ + error.message@,
        }
    }

    /// The error in words, without its cause.
    pub fn message(&self) -> (message: String)
        ensures
            message@ == self.message_text(),
    {
        match self {
            MineError::CycleLength => String::from_str(
                "Grin Stratum submission requires --cycle-length 42",
            ),
            MineError::BadHeader(_) => String::from_str("job contains invalid pre_pow hex"),
            MineError::NonceExhausted => String::from_str("nonce space exhausted at u64::MAX"),
            MineError::SolverFailed(_) => String::from_str("solver failed three times in a row"),
            MineError::Solving(nonce, _) => {
                let mut message = String::from_str("solving nonce ");
                text::append_decimal(&mut message, *nonce);
                message
            },
            MineError::InvalidProof(_) => String::from_str(
                "solver returned an invalid proof; refusing submission",
            ),
            MineError::ShareRejected(error) => {
                let mut message = String::from_str("verified share rejected with code ");
                append_signed(&mut message, error.code);
                message.append(": ");
                message.append(error.message.as_str());
                message
            },
        }
    }
}

/// Whether work on one job is void once another is known.  Templates of the
/// same height stay valid until the chain advances.
pub fn job_is_stale(current: &Job, latest: &Job) -> (stale: bool)
    ensures
        stale == (latest.height != current.height),
{
    latest.height != current.height
}

/// The nonce after a nonce.
pub fn next_nonce(nonce: u64) -> (result: Result<u64, MineError>)
    ensures
        match result {
            Ok(next) => next == nonce + 1,
            Err(error) => nonce == u64::MAX && error is NonceExhausted,
        },
        nonce < u64::MAX ==> result is Ok,
{
    match nonce.checked_add(1) {
        Some(next) => Ok(next),
        None => Err(MineError::NonceExhausted),
    }
}

/// The longest wait between two attempts to connect, in seconds.
pub const MAX_DELAY: u64 = 30;

/// Twice a wait, but no more than the longest.
pub open spec fn longer_delay(seconds: nat) -> nat {
    if 2 * seconds <= MAX_DELAY {
        2 * seconds
    } else {
        MAX_DELAY as nat
    }
}

/// The wait after a number of failed attempts to connect, in seconds.
pub open spec fn delay_after(failures: nat) -> nat
    decreases failures,
{
    if failures == 0 {
        1
    } else {
        longer_delay(delay_after((failures - 1) as nat))
    }
}

/// The waits between attempts to connect.
pub struct Backoff {
    seconds: u64,
}

impl Backoff {
    /// The wait after the next failed attempt.
    pub closed spec fn seconds(self) -> u64 {
        self.seconds
    }

    /// Whether this is the state after a number of failed attempts.
    pub open spec fn is_after(self, failures: nat) -> bool {
        self.seconds() == delay_after(failures)
    }

    /// The state before any attempt.
    pub fn new() -> (backoff: Backoff)
        ensures
            backoff.is_after(0),
    {
        Backoff { seconds: 1 }
    }

    /// How long to wait after a failed attempt.
    pub fn failed(&mut self) -> (wait: u64)
        requires
            1 <= old(self).seconds() <= MAX_DELAY,
        ensures
            wait == old(self).seconds(),
            final(self).seconds() == longer_delay(old(self).seconds() as nat),
            1 <= final(self).seconds() <= MAX_DELAY,
            forall|failures: nat| #[trigger]
                old(self).is_after(failures) ==> final(self).is_after(failures + 1),
    {
        let wait = self.seconds;
        let doubled: u64 = wait * 2;
        self.seconds = if doubled <= MAX_DELAY {
            doubled
        } else {
            MAX_DELAY
        };
        wait
    }
}

/// However often connecting fails, the wait is between one second and the
/// longest wait.
pub proof fn lemma_delay_is_capped(failures: nat)
    ensures
        1 <= delay_after(failures) <= MAX_DELAY,
    decreases failures,
{
    if failures > 0 {
        lemma_delay_is_capped((failures - 1) as nat);
    }
}

/// A failed attempt never shortens the wait.
pub proof fn lemma_delay_grows(failures: nat)
    ensures
        delay_after(failures) <= delay_after(failures + 1),
{
    lemma_delay_is_capped(failures);
}

/// The waits double until they reach the longest.
pub proof fn lemma_delay_doubles(failures: nat)
    ensures
        delay_after(failures) == if power2::pow2(failures) <= MAX_DELAY {
            power2::pow2(failures)
        } else {
            MAX_DELAY as nat
        },
    decreases failures,
{
    power2::lemma2_to64();
    if failures > 0 {
        lemma_delay_doubles((failures - 1) as nat);
        power2::lemma_pow2_unfold(failures);
    }
}

/// What happens while a run is without a connection.
#[derive(Debug)]
pub enum RecoveryEvent {
    /// The connection stands.
    Connected,
    /// There is no connection.
    ConnectFailed,
    /// The server has sent a job.
    Job(Job),
    /// The server has sent no job that can be mined.
    JobFailed,
    /// The wait is over.
    Waited,
}

/// What a run without a connection does next.
#[derive(Debug)]
pub enum RecoveryStep {
    /// Connect to the server.
    Connect,
    /// Ask the server for a job.
    AskForJob,
    /// Wait so many seconds.
    Wait(u64),
    /// Go on with the job.
    Done(Job),
}

/// What follows an event, after a number of failed attempts.
pub open spec fn recovery_step(failures: nat, event: RecoveryEvent) -> RecoveryStep {
    match event {
        RecoveryEvent::Connected => RecoveryStep::AskForJob,
        RecoveryEvent::Job(job) => RecoveryStep::Done(job),
        RecoveryEvent::ConnectFailed | RecoveryEvent::JobFailed => RecoveryStep::Wait(
            delay_after(failures) as u64,
        ),
        RecoveryEvent::Waited => RecoveryStep::Connect,
    }
}

/// The failed attempts, one event later.
pub open spec fn failures_after(failures: nat, event: RecoveryEvent) -> nat {
    match event {
        RecoveryEvent::ConnectFailed | RecoveryEvent::JobFailed => failures + 1,
        _ => failures,
    }
}

/// How a run gets back to a job.  It begins with an attempt to connect.
pub struct Recovery {
    failures: Ghost<nat>,
    backoff: Backoff,
}

impl Recovery {
    /// How many attempts have failed.
    pub closed spec fn failures(self) -> nat {
        self.failures@
    }

    /// Whether the next wait is the one that the failed attempts call for.
    pub closed spec fn valid(self) -> bool {
        self.backoff.is_after(self.failures@)
    }

    /// The state before any attempt.
    pub fn new() -> (recovery: Recovery)
        ensures
            recovery.valid(),
            recovery.failures() == 0,
    {
        Recovery { failures: Ghost(0), backoff: Backoff::new() }
    }

    /// What to do next.  A job is asked for once a connection stands, either
    /// failure leads to a wait and another attempt, and only a job ends it.
    pub fn after(&mut self, event: RecoveryEvent) -> (step: RecoveryStep)
        requires
            old(self).valid(),
        ensures
            final(self).valid(),
            step == recovery_step(old(self).failures(), event),
            final(self).failures() == failures_after(old(self).failures(), event),
    {
        proof {
            lemma_delay_is_capped(self.failures@);
        }
        match event {
            RecoveryEvent::Connected => RecoveryStep::AskForJob,
            RecoveryEvent::Job(job) => RecoveryStep::Done(job),
            RecoveryEvent::ConnectFailed | RecoveryEvent::JobFailed => {
                let wait = self.backoff.failed();
                self.failures = Ghost(self.failures@ + 1);
                RecoveryStep::Wait(wait)
            },
            RecoveryEvent::Waited => RecoveryStep::Connect,
        }
    }
}

/// A job is asked for only where a connection has just come to stand, and only a
/// job ends the attempts.
pub proof fn lemma_jobs_need_a_connection(failures: nat, event: RecoveryEvent)
    ensures
        recovery_step(failures, event) is AskForJob <==> event is Connected,
        recovery_step(failures, event) is Done <==> event is Job,
{
}

/// What comes of an attempt to get back to a job: whether the connection stood,
/// and the job that then came, if one did.
pub enum Attempt {
    NoConnection,
    NoJob,
    Success(Job),
}

impl Attempt {
    /// The events of an attempt.
    pub open spec fn events(self) -> Seq<RecoveryEvent> {
        match self {
            Attempt::NoConnection => seq![RecoveryEvent::ConnectFailed, RecoveryEvent::Waited],
            Attempt::NoJob => seq![
                RecoveryEvent::Connected,
                RecoveryEvent::JobFailed,
                RecoveryEvent::Waited,
            ],
            Attempt::Success(job) => seq![RecoveryEvent::Connected, RecoveryEvent::Job(job)],
        }
    }

    /// What a run does in an attempt, once it has begun to connect, where so
    /// many attempts failed before.
    pub open spec fn steps(self, failures: nat) -> Seq<RecoveryStep> {
        let wait = RecoveryStep::Wait(
            if power2::pow2(failures) <= MAX_DELAY {
                power2::pow2(failures) as u64
            } else {
                MAX_DELAY
            },
        );
        match self {
            Attempt::NoConnection => seq![wait, RecoveryStep::Connect],
            Attempt::NoJob => seq![RecoveryStep::AskForJob, wait, RecoveryStep::Connect],
            Attempt::Success(job) => seq![RecoveryStep::AskForJob, RecoveryStep::Done(job)],
        }
    }
}

/// The failed attempts after some events.
pub open spec fn failures_after_all(failures: nat, events: Seq<RecoveryEvent>) -> nat
    decreases events.len(),
{
    if events.len() == 0 {
        failures
    } else {
        failures_after(failures_after_all(failures, events.drop_last()), events.last())
    }
}

/// What follows each of some events.
pub open spec fn recovery_steps(failures: nat, events: Seq<RecoveryEvent>) -> Seq<RecoveryStep> {
    Seq::new(
        events.len(),
        |i: int| recovery_step(failures_after_all(failures, events.take(i)), events[i]),
    )
}

/// The events of attempts, one after the other.
pub open spec fn all_events(attempts: Seq<Attempt>) -> Seq<RecoveryEvent>
    decreases attempts.len(),
{
    if attempts.len() == 0 {
        Seq::empty()
    } else {
        all_events(attempts.drop_last()) + attempts.last().events()
    }
}

/// What a run does in attempts, one after the other.
pub open spec fn all_steps(attempts: Seq<Attempt>) -> Seq<RecoveryStep>
    decreases attempts.len(),
{
    if attempts.len() == 0 {
        Seq::empty()
    } else {
        all_steps(attempts.drop_last()) + attempts.last().steps((attempts.len() - 1) as nat)
    }
}

proof fn failures_add_up(failures: nat, first: Seq<RecoveryEvent>, second: Seq<RecoveryEvent>)
    ensures
        failures_after_all(failures, first + second) == failures_after_all(
            failures_after_all(failures, first),
            second,
        ),
    decreases second.len(),
{
    if second.len() == 0 {
        assert(first + second =~= first);
    } else {
        assert((first + second).drop_last() =~= first + second.drop_last());
        failures_add_up(failures, first, second.drop_last());
    }
}

proof fn steps_add_up(failures: nat, first: Seq<RecoveryEvent>, second: Seq<RecoveryEvent>)
    ensures
        recovery_steps(failures, first + second) == recovery_steps(failures, first)
            + recovery_steps(failures_after_all(failures, first), second),
{
    let whole = recovery_steps(failures, first + second);
    let parts = recovery_steps(failures, first) + recovery_steps(
        failures_after_all(failures, first),
        second,
    );
    assert forall|i: int| 0 <= i < whole.len() implies whole[i] == parts[i] by {
        if i < first.len() {
            assert((first + second).take(i) =~= first.take(i));
        } else {
            let j = i - first.len();
            assert((first + second).take(i) =~= first + second.take(j));
            failures_add_up(failures, first, second.take(j));
        }
    }
    assert(whole =~= parts);
}

proof fn attempt_steps(failures: nat, attempt: Attempt)
    ensures
        recovery_steps(failures, attempt.events()) == attempt.steps(failures),
        failures_after_all(failures, attempt.events()) == if attempt is Success {
            failures
        } else {
            failures + 1
        },
{
    lemma_delay_doubles(failures);
    reveal_with_fuel(failures_after_all, 4);
    let events = attempt.events();
    assert(events.take(0) =~= Seq::empty());
    assert(events.take(1).drop_last() =~= Seq::empty());
    assert(events.take(2).drop_last() =~= events.take(1));
    assert(events.drop_last() =~= events.take(events.len() - 1));
    assert(recovery_steps(failures, events) =~= attempt.steps(failures));
}

/// While no attempt succeeds, a run goes on for ever: it waits 1, 2, 4, 8, 16
/// and then always 30 seconds, connects again, and asks for a job only where a
/// connection stands.  The first attempt that succeeds ends it with its job.
pub proof fn lemma_recovery_never_gives_up(attempts: Seq<Attempt>)
    requires
        forall|k: int| 0 <= k < attempts.len() - 1 ==> !(#[trigger] attempts[k] is Success),
    ensures
        recovery_steps(0, all_events(attempts)) == all_steps(attempts),
        attempts.len() > 0 ==> (attempts.last() matches Attempt::Success(job) ==> all_steps(
            attempts,
        ).last() == RecoveryStep::Done(job)),
        attempts.len() > 0 && !(attempts.last() is Success) ==> all_steps(attempts).last()
            == RecoveryStep::Connect && failures_after_all(0, all_events(attempts))
            == attempts.len(),
    decreases attempts.len(),
{
    if attempts.len() == 0 {
        assert(recovery_steps(0, all_events(attempts)) =~= all_steps(attempts));
    } else {
        let earlier = attempts.drop_last();
        let last = attempts.len() - 1;
        assert forall|k: int| 0 <= k < earlier.len() implies !(#[trigger] earlier[k]
            is Success) by {
            assert(!(attempts[k] is Success));
        }
        lemma_recovery_never_gives_up(earlier);
        assert(failures_after_all(0, all_events(earlier)) == last);
        failures_add_up(0, all_events(earlier), attempts.last().events());
        steps_add_up(0, all_events(earlier), attempts.last().events());
        attempt_steps(last as nat, attempts.last());
    }
}

/// Whether a newer job makes work on the current one void.
pub open spec fn supersedes(latest: Option<Job>, current: Job) -> bool {
    latest is Some && latest->0.height != current.height
}

/// What makes a share: the header and the nonce of its graph, and the proof.
pub type ShareKey = (Seq<u8>, u64, Seq<u64>);

/// The state of a mining run between two graphs.
#[verifier::ext_equal]
pub struct MinerState {
    pub config: MineConfig,
    pub job: Job,
    pub header: Seq<u8>,
    pub nonce: u64,
    pub graphs: u64,
    pub failures: u8,
    /// The proof in the share that was sent and not answered yet.
    pub sent: Option<Seq<u64>>,
    /// The shares that were sent and never answered.
    pub undelivered: Set<ShareKey>,
}

impl MinerState {
    /// Whether the state is one that a run can be in.
    pub open spec fn valid(self) -> bool {
        &&& self.config.cycle_length == 42
        &&& stratum::header_bytes(self.job.pre_pow@) == Some(self.header)
        &&& self.failures < 3
        &&& self.config.max_graphs > 0 ==> self.graphs <= self.config.max_graphs
    }

    /// Whether the run has searched as many graphs as it was set to.
    pub open spec fn is_done(self) -> bool {
        self.config.max_graphs != 0 && self.graphs >= self.config.max_graphs
    }

    /// The graph at the current nonce.
    pub open spec fn graph(self) -> Graph {
        Graph {
            keys: keys::graph_keys(self.header, self.nonce),
            edge_bits: self.config.edge_bits,
        }
    }

    /// The state after a graph was searched.
    pub open spec fn counted(self) -> MinerState {
        MinerState {
            graphs: if self.graphs < u64::MAX {
                (self.graphs + 1) as u64
            } else {
                u64::MAX
            },
            failures: 0,
            sent: None,
            ..self
        }
    }

    /// The share that a proof makes at the current nonce.
    pub open spec fn share_key(self, nonces: Seq<u64>) -> ShareKey {
        (self.header, self.nonce, nonces)
    }

    /// The state once a share was sent.
    pub open spec fn sending(self, nonces: Seq<u64>) -> MinerState {
        MinerState { sent: Some(nonces), ..self }
    }

    /// The state once the share that was sent is answered.
    pub open spec fn answered(self) -> MinerState {
        MinerState { sent: None, ..self }
    }

    /// The state once it is clear that no answer will come.
    pub open spec fn unanswered(self) -> MinerState {
        MinerState {
            sent: None,
            undelivered: match self.sent {
                Some(nonces) => self.undelivered.insert(self.share_key(nonces)),
                None => self.undelivered,
            },
            ..self
        }
    }

    /// The state at the next nonce.
    pub open spec fn advanced(self) -> MinerState {
        MinerState { nonce: (self.nonce + 1) as u64, ..self }
    }

    /// The state at the start of a job.
    pub open spec fn switched(self, job: Job) -> MinerState {
        MinerState {
            job,
            header: stratum::header_bytes(job.pre_pow@)->0,
            nonce: self.config.nonce_start,
            ..self
        }
    }
}

/// A share that is worth submitting.
#[derive(Debug)]
pub struct Share {
    pub edge_bits: u8,
    pub height: u64,
    pub job_id: u64,
    pub nonce: u64,
    pub pow: Vec<u64>,
    pub difficulty: u64,
}

/// What is worth saying of a step.
#[derive(Debug)]
pub enum Note {
    BelowDifficulty(u64),
    /// The share was sent before and never answered.
    Undelivered,
    NoCycle,
    Cancelled,
    Inconclusive(String),
    Accepted(String),
    Rejected(RpcError),
}

/// What a mining run does next.
#[derive(Debug)]
pub enum Step {
    /// End the run.
    Fail(MineError),
    /// Let the backend recover, then go on with `recovered`.
    Recover,
    /// Connect again and ask for a job, then go on with `restart`.  What was
    /// found is discarded.
    Reconnect,
    /// Search the first graph of the newer job.  What was found is discarded.
    Switched,
    /// Submit the share, then go on with `submitted`.
    Submit(Share),
    /// Search the next graph.
    Next(Note),
}

/// A share that was sent and never answered.
struct Undelivered {
    header: Vec<u8>,
    nonce: u64,
    pow: Vec<u64>,
}

impl Undelivered {
    spec fn key(self) -> ShareKey {
        (self.header@, self.nonce, self.pow@)
    }

    fn is(&self, header: &Vec<u8>, nonce: u64, pow: &Vec<u64>) -> (same: bool)
        ensures
            same == (self.key() == (header@, nonce, pow@)),
    {
        self.nonce == nonce && same_bytes(&self.header, header) && same_values(&self.pow, pow)
    }
}

fn same_bytes(a: &Vec<u8>, b: &Vec<u8>) -> (same: bool)
    ensures
        same == (a@ == b@),
{
    if a.len() != b.len() {
        return false;
    }
    let mut i: usize = 0;
    while i < a.len()
        invariant
            i <= a.len() == b.len(),
            forall|k: int| 0 <= k < i ==> #[trigger] a@[k] == b@[k],
        decreases a.len() - i,
    {
        if a[i] != b[i] {
            return false;
        }
        i = i + 1;
    }
    assert(a@ =~= b@);
    true
}

/// A mining run.
pub struct Miner {
    config: MineConfig,
    job: Job,
    pre_pow: Vec<u8>,
    nonce: u64,
    graphs: u64,
    failures: u8,
    sent: Option<Vec<u64>>,
    undelivered: Vec<Undelivered>,
}

/// Checks what a run is set to, before anything is asked of the server.
pub fn check_config(config: &MineConfig) -> (result: Result<(), MineError>)
    ensures
        match result {
            Ok(()) => config.cycle_length == 42,
            Err(error) => config.cycle_length != 42 && error is CycleLength,
        },
{
    if config.cycle_length != 42 {
        Err(MineError::CycleLength)
    } else {
        Ok(())
    }
}

/// Whether a step goes on at the next nonce, or ends the run where there is none.
pub open spec fn goes_on(before: MinerState, step: Step, after: MinerState) -> bool {
    if before.nonce == u64::MAX {
        step matches Step::Fail(error) && error is NonceExhausted
    } else {
        step is Next && after == before.advanced()
    }
}

/// Whether a step is the right one once the backend has failed.
pub open spec fn answers_failure(
    before: MinerState,
    error: SolveError,
    step: Step,
    after: MinerState,
) -> bool {
    if error@.0 != ErrorKind::Gpu {
        step == Step::Fail(MineError::Solving(before.nonce, error))
    } else if before.failures >= 2 {
        step == Step::Fail(MineError::SolverFailed(error))
    } else {
        step is Recover && after == (MinerState { failures: (before.failures + 1) as u8, ..before })
    }
}

/// Whether a step is the right one once a job takes over.
pub open spec fn answers_job(before: MinerState, job: Job, step: Step, after: MinerState) -> bool {
    if stratum::header_bytes(job.pre_pow@) is None {
        step matches Step::Fail(MineError::BadHeader(error)) && hex_text::is_failure(
            hex_text::text_bytes(job.pre_pow@),
            error,
        )
    } else {
        step is Switched && after == before.switched(job)
    }
}

/// Whether a step is the right one for a proof.
pub open spec fn answers_proof(
    before: MinerState,
    nonces: Seq<u64>,
    step: Step,
    after: MinerState,
) -> bool {
    let difficulty = share_difficulty(nonces, before.config.edge_bits);
    match verify::verdict(before.graph(), 42, nonces) {
        Err(error) => step == Step::Fail(MineError::InvalidProof(error)),
        Ok(()) => if difficulty < before.job.difficulty {
            &&& goes_on(before, step, after)
            &&& step matches Step::Next(note) ==> note == Note::BelowDifficulty(difficulty as u64)
        } else if before.undelivered.contains(before.share_key(nonces)) {
            &&& goes_on(before, step, after)
            &&& step matches Step::Next(note) ==> note == Note::Undelivered
        } else {
            &&& step matches Step::Submit(share)
            &&& share.edge_bits == before.config.edge_bits
            &&& share.height == before.job.height
            &&& share.job_id == before.job.job_id
            &&& share.nonce == before.nonce
            &&& share.pow@ == nonces
            &&& share.difficulty == difficulty
            &&& after == before.sending(nonces)
        },
    }
}

/// Whether a step is the right one for an answer of the backend.
pub open spec fn answers_outcome(
    before: MinerState,
    outcome: SolveOutcome,
    step: Step,
    after: MinerState,
) -> bool {
    match outcome {
        SolveOutcome::Proof(proof) => answers_proof(before, proof.nonces@, step, after),
        SolveOutcome::NoCycle => {
            &&& goes_on(before, step, after)
            &&& step matches Step::Next(note) ==> note is NoCycle
        },
        SolveOutcome::Cancelled => step == Step::Next(Note::Cancelled) && after == before,
        SolveOutcome::Inconclusive(reason) => {
            &&& goes_on(before, step, after)
            &&& step matches Step::Next(note) ==> note == Note::Inconclusive(reason)
        },
    }
}

/// Whether a step is the right one for what the backend returned, given whether
/// the connection still stands and which job is the latest.
pub open spec fn answers_result(
    before: MinerState,
    result: Result<SolveOutcome, SolveError>,
    connected: bool,
    latest: Option<Job>,
    step: Step,
    after: MinerState,
) -> bool {
    match result {
        Err(error) => answers_failure(before, error, step, after),
        Ok(outcome) => if !connected {
            step is Reconnect && after == before.counted()
        } else if supersedes(latest, before.job) {
            answers_job(before.counted(), latest->0, step, after)
        } else {
            answers_outcome(before.counted(), outcome, step, after)
        },
    }
}

/// Whether a step is the right one for the reply to a share, or where no reply
/// will come.
pub open spec fn answers_reply(
    before: MinerState,
    reply: Option<SubmitOutcome>,
    step: Step,
    after: MinerState,
) -> bool {
    match reply {
        None => step is Reconnect && after == before.unanswered(),
        Some(SubmitOutcome::Accepted(json)) => {
            &&& goes_on(before.answered(), step, after)
            &&& step matches Step::Next(note) ==> note == Note::Accepted(json)
        },
        Some(SubmitOutcome::Rejected(error)) => if error.is_expected() {
            &&& goes_on(before.answered(), step, after)
            &&& step matches Step::Next(note) ==> note == Note::Rejected(error)
        } else {
            step == Step::Fail(MineError::ShareRejected(error))
        },
    }
}

/// The difficulty of a proof of 42 edges, once it passes the check.
fn checked_difficulty(sip_keys: SipKeys, edge_bits: u8, proof: &Proof) -> (result: Result<
    u64,
    VerifyError,
>)
    ensures
        match verify::verdict(Graph { keys: sip_keys, edge_bits }, 42, proof.nonces@) {
            Ok(()) => result matches Ok(difficulty) && difficulty == share_difficulty(
                proof.nonces@,
                edge_bits,
            ),
            Err(error) => result == Err::<u64, VerifyError>(error),
        },
{
    reveal(share_difficulty);
    match verify_cycle(sip_keys, edge_bits, 42, proof) {
        Ok(()) => {
            proof {
                verify::lemma_accepted_shape(
                    Graph { keys: sip_keys, edge_bits },
                    42,
                    proof.nonces@,
                );
                assert(proof.nonces@.len() * edge_bits <= 42 * 32) by (nonlinear_arith)
                    requires
                        proof.nonces@.len() == 42,
                        edge_bits <= 32,
                ;
            }
            Ok(unscaled_proof_difficulty(proof, edge_bits))
        },
        Err(error) => Err(error),
    }
}

/// The difficulty that the server counts for a proof: that of its hash, without
/// the weight of the graph.
#[verifier::opaque]
pub open spec fn share_difficulty(nonces: Seq<u64>, edge_bits: u8) -> nat {
    verify::scaled_difficulty(keys::blake2b_256(verify::packed_nonces(nonces, edge_bits)), 1)
}

impl Miner {
    /// The state of the run.
    pub closed spec fn state(self) -> MinerState {
        MinerState {
            config: self.config,
            job: self.job,
            header: self.pre_pow@,
            nonce: self.nonce,
            graphs: self.graphs,
            failures: self.failures,
            sent: match self.sent {
                Some(nonces) => Some(nonces@),
                None => None,
            },
            undelivered: Set::new(
                |key: ShareKey|
                    exists|i: int|
                        0 <= i < self.undelivered.len() && (#[trigger] self.undelivered[i]).key()
                            == key,
            ),
        }
    }

    /// Whether the state is one that a run can be in.
    pub open spec fn valid(self) -> bool {
        self.state().valid()
    }

    /// Starts a run on the first job, or on the latest one where that is for
    /// another height.
    pub fn start(config: MineConfig, first: Job, latest: Option<Job>) -> (result: Result<
        Miner,
        MineError,
    >)
        ensures
            ({
                let job = if supersedes(latest, first) {
                    latest->0
                } else {
                    first
                };
                if config.cycle_length != 42 {
                    result matches Err(error) && error is CycleLength
                } else if stratum::header_bytes(job.pre_pow@) is None {
                    result matches Err(MineError::BadHeader(error)) && hex_text::is_failure(
                        hex_text::text_bytes(job.pre_pow@),
                        error,
                    )
                } else {
                    &&& result matches Ok(miner)
                    &&& miner.valid()
                    &&& miner.state() == (MinerState {
                        config,
                        job,
                        header: stratum::header_bytes(job.pre_pow@)->0,
                        nonce: config.nonce_start,
                        graphs: 0,
                        failures: 0,
                        sent: None,
                        undelivered: Set::empty(),
                    })
                }
            }),
    {
        match check_config(&config) {
            Ok(()) => {},
            Err(error) => {
                return Err(error);
            },
        }
        let job = match latest {
            Some(latest) => if job_is_stale(&first, &latest) {
                latest
            } else {
                first
            },
            None => first,
        };
        match job.pre_pow_bytes() {
            Ok(pre_pow) => Ok(
                Miner {
                    config,
                    nonce: config.nonce_start,
                    job,
                    pre_pow,
                    graphs: 0,
                    failures: 0,
                    sent: None,
                    undelivered: Vec::new(),
                },
            ),
            Err(error) => Err(MineError::BadHeader(error)),
        }
    }

    /// The job that is mined.
    pub fn job(&self) -> (job: &Job)
        ensures
            *job == self.state().job,
    {
        &self.job
    }

    /// The nonce of the graph that is searched.
    pub fn nonce(&self) -> (nonce: u64)
        ensures
            nonce == self.state().nonce,
    {
        self.nonce
    }

    /// The next graph to search, or nothing where the run is done.
    pub fn request(&self) -> (request: Option<SolveRequest>)
        ensures
            match request {
                Some(request) => {
                    &&& !self.state().is_done()
                    &&& request.pre_pow@ == self.state().header
                    &&& request.nonce == self.state().nonce
                    &&& request.live_work
                    &&& request.edge_bits == self.state().config.edge_bits
                    &&& request.cycle_length == self.state().config.cycle_length
                    &&& request.rounds == self.state().config.rounds
                },
                None => self.state().is_done(),
            },
    {
        if self.config.max_graphs != 0 && self.graphs >= self.config.max_graphs {
            return None;
        }
        let mut pre_pow: Vec<u8> = Vec::new();
        pre_pow.extend_from_slice(self.pre_pow.as_slice());
        assert(pre_pow@ =~= self.pre_pow@);
        Some(
            SolveRequest {
                pre_pow,
                nonce: self.nonce,
                live_work: true,
                edge_bits: self.config.edge_bits,
                cycle_length: self.config.cycle_length,
                rounds: self.config.rounds,
            },
        )
    }

    fn advance(&mut self, note: Note) -> (step: Step)
        requires
            old(self).valid(),
        ensures
            goes_on(old(self).state(), step, final(self).state()),
            step matches Step::Next(kept) ==> kept == note,
            step matches Step::Next(_) ==> final(self).valid(),
    {
        match next_nonce(self.nonce) {
            Ok(nonce) => {
                self.nonce = nonce;
                Step::Next(note)
            },
            Err(error) => Step::Fail(error),
        }
    }

    fn switch(&mut self, job: Job) -> (step: Step)
        requires
            old(self).valid(),
        ensures
            answers_job(old(self).state(), job, step, final(self).state()),
            step is Switched ==> final(self).valid(),
            step is Switched || step is Fail,
    {
        match job.pre_pow_bytes() {
            Ok(pre_pow) => {
                self.pre_pow = pre_pow;
                self.job = job;
                self.nonce = self.config.nonce_start;
                Step::Switched
            },
            Err(error) => Step::Fail(MineError::BadHeader(error)),
        }
    }

    /// Whether a share was sent and never answered.
    fn is_undelivered(&self, pow: &Vec<u64>) -> (result: bool)
        ensures
            result == self.state().undelivered.contains(self.state().share_key(pow@)),
    {
        let mut i: usize = 0;
        while i < self.undelivered.len()
            invariant
                i <= self.undelivered.len(),
                forall|k: int|
                    0 <= k < i ==> (#[trigger] self.undelivered[k]).key()
                        != self.state().share_key(pow@),
            decreases self.undelivered.len() - i,
        {
            if self.undelivered[i].is(&self.pre_pow, self.nonce, pow) {
                return true;
            }
            i = i + 1;
        }
        false
    }

    /// Notes that the share that was sent is not answered.
    fn note_unanswered(&mut self)
        requires
            old(self).valid(),
        ensures
            final(self).valid(),
            final(self).state() == old(self).state().unanswered(),
    {
        let ghost before = self.undelivered@;
        match self.sent.take() {
            Some(pow) => {
                let mut header: Vec<u8> = Vec::new();
                header.extend_from_slice(self.pre_pow.as_slice());
                assert(header@ =~= self.pre_pow@);
                let share = Undelivered { header, nonce: self.nonce, pow };
                let ghost key = share.key();
                self.undelivered.push(share);
                assert forall|other: ShareKey|
                    self.state().undelivered.contains(other) <==> old(
                        self,
                    ).state().undelivered.insert(key).contains(other) by {
                    if old(self).state().undelivered.contains(other) {
                        let i = choose|i: int|
                            0 <= i < before.len() && (#[trigger] before[i]).key() == other;
                        assert(self.undelivered@[i].key() == other);
                    }
                    if other == key {
                        assert(self.undelivered@[before.len() as int].key() == other);
                    }
                }
            },
            None => {},
        }
        assert(self.state() =~= old(self).state().unanswered());
    }

    /// Checks a proof and weighs it against the job.
    fn weigh(&mut self, proof: Proof) -> (step: Step)
        requires
            old(self).valid(),
        ensures
            answers_proof(old(self).state(), proof.nonces@, step, final(self).state()),
            step is Fail || final(self).valid(),
            step is Fail || step is Submit || step is Next,
    {
        let sip_keys = keys::derive_keys(self.pre_pow.as_slice(), self.nonce);
        let difficulty = match checked_difficulty(sip_keys, self.config.edge_bits, &proof) {
            Ok(difficulty) => difficulty,
            Err(error) => {
                return Step::Fail(MineError::InvalidProof(error));
            },
        };
        if difficulty < self.job.difficulty {
            return self.advance(Note::BelowDifficulty(difficulty));
        }
        if self.is_undelivered(&proof.nonces) {
            return self.advance(Note::Undelivered);
        }
        let mut sent: Vec<u64> = Vec::new();
        sent.extend_from_slice(proof.nonces.as_slice());
        assert(sent@ =~= proof.nonces@);
        self.sent = Some(sent);
        assert(self.state() =~= old(self).state().sending(proof.nonces@));
        Step::Submit(
            Share {
                edge_bits: self.config.edge_bits,
                height: self.job.height,
                job_id: self.job.job_id,
                nonce: self.nonce,
                pow: proof.nonces,
                difficulty,
            },
        )
    }

    /// What to do with the answer of the backend, given whether the connection
    /// still stands and which job is the latest.
    pub fn solved(
        &mut self,
        result: Result<SolveOutcome, SolveError>,
        connected: bool,
        latest: Option<Job>,
    ) -> (step: Step)
        requires
            old(self).valid(),
            !old(self).state().is_done(),
        ensures
            step is Fail || final(self).valid(),
            answers_result(
                old(self).state(),
                result,
                connected,
                latest,
                step,
                final(self).state(),
            ),
    {
        let outcome = match result {
            Ok(outcome) => outcome,
            Err(SolveError::Gpu(reason)) => {
                if self.failures >= 2 {
                    return Step::Fail(MineError::SolverFailed(SolveError::Gpu(reason)));
                }
                self.failures = self.failures + 1;
                return Step::Recover;
            },
            Err(error) => {
                return Step::Fail(MineError::Solving(self.nonce, error));
            },
        };
        self.failures = 0;
        self.sent = None;
        self.graphs = self.graphs.saturating_add(1);
        assert(self.state() =~= old(self).state().counted());
        if !connected {
            return Step::Reconnect;
        }
        match latest {
            Some(latest) => {
                if job_is_stale(&self.job, &latest) {
                    return self.switch(latest);
                }
            },
            None => {},
        }
        match outcome {
            SolveOutcome::Proof(proof) => self.weigh(proof),
            SolveOutcome::NoCycle => self.advance(Note::NoCycle),
            SolveOutcome::Cancelled => Step::Next(Note::Cancelled),
            SolveOutcome::Inconclusive(reason) => self.advance(Note::Inconclusive(reason)),
        }
    }

    /// Goes on after the backend was let recover: with the next graph, also
    /// where the recovery failed.
    pub fn recovered(&mut self) -> (result: Result<(), MineError>)
        requires
            old(self).valid(),
        ensures
            match result {
                Ok(()) => {
                    &&& old(self).state().nonce < u64::MAX
                    &&& final(self).valid()
                    &&& final(self).state() == old(self).state().advanced()
                },
                Err(error) => old(self).state().nonce == u64::MAX && error is NonceExhausted,
            },
    {
        match next_nonce(self.nonce) {
            Ok(nonce) => {
                self.nonce = nonce;
                Ok(())
            },
            Err(error) => Err(error),
        }
    }

    /// Goes on with the job that a new connection brought.
    pub fn restart(&mut self, job: Job) -> (result: Result<(), MineError>)
        requires
            old(self).valid(),
        ensures
            match result {
                Ok(()) => {
                    &&& stratum::header_bytes(job.pre_pow@) is Some
                    &&& final(self).valid()
                    &&& final(self).state() == old(self).state().switched(job)
                },
                Err(error) => {
                    &&& stratum::header_bytes(job.pre_pow@) is None
                    &&& error matches MineError::BadHeader(cause)
                    &&& hex_text::is_failure(hex_text::text_bytes(job.pre_pow@), cause)
                },
            },
    {
        match job.pre_pow_bytes() {
            Ok(pre_pow) => {
                self.pre_pow = pre_pow;
                self.job = job;
                self.nonce = self.config.nonce_start;
                Ok(())
            },
            Err(error) => Err(MineError::BadHeader(error)),
        }
    }

    /// What to do once a share was submitted.  Without a reply it is not known
    /// whether the server has it, so the run keeps it in mind and does not send
    /// it again.
    pub fn submitted(&mut self, reply: Option<SubmitOutcome>) -> (step: Step)
        requires
            old(self).valid(),
        ensures
            step is Fail || final(self).valid(),
            answers_reply(old(self).state(), reply, step, final(self).state()),
    {
        if reply.is_none() {
            self.note_unanswered();
            return Step::Reconnect;
        }
        self.sent = None;
        assert(self.state() =~= old(self).state().answered());
        match reply {
            None => Step::Reconnect,
            Some(SubmitOutcome::Accepted(json)) => self.advance(Note::Accepted(json)),
            Some(SubmitOutcome::Rejected(error)) => {
                if error.is_expected_share_rejection() {
                    self.advance(Note::Rejected(error))
                } else {
                    Step::Fail(MineError::ShareRejected(error))
                }
            },
        }
    }
}

/// What is watched while a graph is searched, and whether the search has been
/// told to stop.
#[derive(Debug, Clone, Copy)]
pub struct Watch {
    pub jobs_open: bool,
    pub connection_open: bool,
    pub cancelled: bool,
}

impl Watch {
    /// The state at the start of a search.
    pub fn new() -> (watch: Watch)
        ensures
            watch == (Watch { jobs_open: true, connection_open: true, cancelled: false }),
    {
        Watch { jobs_open: true, connection_open: true, cancelled: false }
    }

    /// Stops the search where the latest job is for another height.  Says
    /// whether this is the first reason to stop.
    pub fn job_changed(&mut self, current: &Job, latest: Option<&Job>) -> (first: bool)
        ensures
            ({
                let stale = latest is Some && latest->0.height != current.height;
                &&& first == (stale && !old(self).cancelled)
                &&& *final(self) == (Watch {
                    cancelled: old(self).cancelled || stale,
                    ..*old(self)
                })
            }),
    {
        match latest {
            Some(latest) => {
                let first = job_is_stale(current, latest) && !self.cancelled;
                if first {
                    self.cancelled = true;
                }
                first
            },
            None => false,
        }
    }

    /// Stops the search where no further job can come.
    pub fn jobs_closed(&mut self)
        ensures
            *final(self) == (Watch { jobs_open: false, cancelled: true, ..*old(self) }),
    {
        self.jobs_open = false;
        self.cancelled = true;
    }

    /// Stops the search where the connection is lost.
    pub fn connection_changed(&mut self, connected: bool)
        ensures
            *final(self) == (Watch { cancelled: old(self).cancelled || !connected, ..*old(self) }),
    {
        if !connected {
            self.cancelled = true;
        }
    }

    /// Stops the search where nothing more is heard of the connection.
    pub fn connection_closed(&mut self)
        ensures
            *final(self) == (Watch { connection_open: false, cancelled: true, ..*old(self) }),
    {
        self.connection_open = false;
        self.cancelled = true;
    }
}

/// Nothing is submitted that does not pass the check, or is below the
/// difficulty of its job, and what is submitted is for the job and the nonce
/// that were searched.
pub proof fn lemma_only_good_shares_are_submitted(
    before: MinerState,
    outcome: SolveOutcome,
    share: Share,
    after: MinerState,
)
    requires
        answers_outcome(before, outcome, Step::Submit(share), after),
    ensures
        verify::verdict(before.graph(), 42, share.pow@) is Ok,
        share.difficulty >= before.job.difficulty,
        share.height == before.job.height,
        share.job_id == before.job.job_id,
        share.nonce == before.nonce,
        outcome matches SolveOutcome::Proof(proof) && proof.nonces@ == share.pow@,
{
}

/// An answer without a proof never leads to a submission.
pub proof fn lemma_no_submission_without_proof(
    before: MinerState,
    outcome: SolveOutcome,
    step: Step,
    after: MinerState,
)
    requires
        answers_outcome(before, outcome, step, after),
        !(outcome is Proof),
    ensures
        !(step is Submit),
{
}

/// A search that goes on stays on its job and moves to the next nonce.
pub proof fn lemma_going_on_moves_one_nonce(before: MinerState, step: Step, after: MinerState)
    requires
        goes_on(before, step, after),
        step is Next,
    ensures
        after.nonce == before.nonce + 1,
        after.job == before.job,
        after.header == before.header,
        after.graphs == before.graphs,
{
}

/// A share that was sent and never answered is not sent again.
pub proof fn lemma_lost_share_is_never_resent(
    before: MinerState,
    outcome: SolveOutcome,
    share: Share,
    after: MinerState,
)
    requires
        answers_outcome(before, outcome, Step::Submit(share), after),
    ensures
        !before.undelivered.contains((before.header, share.nonce, share.pow@)),
        after.sent == Some(share.pow@),
        after.unanswered().undelivered.contains((before.header, share.nonce, share.pow@)),
{
}

/// Something that happens in a mining run.
pub enum Event {
    Solved(Result<SolveOutcome, SolveError>, bool, Option<Job>, Step),
    Recovered,
    Restarted(Job),
    Answered(Option<SubmitOutcome>, Step),
}

/// Whether a run goes from one state to another where something happens, and
/// does not end there.
pub open spec fn follows(before: MinerState, event: Event, after: MinerState) -> bool {
    match event {
        Event::Solved(result, connected, latest, step) => !(step is Fail) && answers_result(
            before,
            result,
            connected,
            latest,
            step,
            after,
        ),
        Event::Recovered => after == before.advanced(),
        Event::Restarted(job) => after == before.switched(job),
        Event::Answered(reply, step) => !(step is Fail) && answers_reply(
            before,
            reply,
            step,
            after,
        ),
    }
}

/// Whether a run goes through states in turn.
pub open spec fn is_history(events: Seq<Event>, states: Seq<MinerState>) -> bool {
    &&& states.len() == events.len() + 1
    &&& forall|i: int|
        0 <= i < events.len() ==> follows(states[i], #[trigger] events[i], states[i + 1])
}

/// Whatever happens in a run, it forgets no share that was never answered.
pub proof fn lemma_losses_are_remembered(events: Seq<Event>, states: Seq<MinerState>)
    requires
        is_history(events, states),
    ensures
        states.first().undelivered.subset_of(states.last().undelivered),
    decreases events.len(),
{
    if events.len() > 0 {
        let earlier = events.drop_last();
        let before = states.drop_last();
        assert(is_history(earlier, before)) by {
            assert forall|i: int| 0 <= i < earlier.len() implies follows(
                before[i],
                #[trigger] earlier[i],
                before[i + 1],
            ) by {
                assert(earlier[i] == events[i]);
            }
        }
        lemma_losses_are_remembered(earlier, before);
        let last = events.len() - 1;
        assert(follows(states[last], events[last], states[last + 1]));
    }
}

/// Once a share got no answer it is never sent again, whatever happens in
/// between: also not where the same job comes back and its first graphs are
/// searched anew.
pub proof fn lemma_unanswered_share_stays_unsent(
    sending: MinerState,
    events: Seq<Event>,
    states: Seq<MinerState>,
    result: Result<SolveOutcome, SolveError>,
    connected: bool,
    latest: Option<Job>,
    share: Share,
    after: MinerState,
)
    requires
        is_history(events, states),
        states.first() == sending.unanswered(),
        answers_result(states.last(), result, connected, latest, Step::Submit(share), after),
    ensures
        sending.sent is Some ==> (states.last().header, share.nonce, share.pow@)
            != sending.share_key(sending.sent->0),
{
    lemma_losses_are_remembered(events, states);
    lemma_lost_share_is_never_resent(states.last().counted(), result->Ok_0, share, after);
    if sending.sent is Some {
        assert(states.first().undelivered.contains(sending.share_key(sending.sent->0)));
    }
}

/// A proof that passes the check, is as difficult as its job asks and was not
/// sent before is submitted, whole and for the job and the nonce it was found
/// for, and the run waits for the answer.
pub proof fn lemma_good_shares_are_submitted(
    before: MinerState,
    proof: Proof,
    connected: bool,
    latest: Option<Job>,
    step: Step,
    after: MinerState,
)
    requires
        answers_result(before, Ok(SolveOutcome::Proof(proof)), connected, latest, step, after),
        connected,
        latest is None || latest->0.height == before.job.height,
        verify::verdict(before.graph(), 42, proof.nonces@) is Ok,
        share_difficulty(proof.nonces@, before.config.edge_bits) >= before.job.difficulty,
        !before.undelivered.contains((before.header, before.nonce, proof.nonces@)),
    ensures
        step matches Step::Submit(share) && share.edge_bits == before.config.edge_bits
            && share.height == before.job.height && share.job_id == before.job.job_id
            && share.nonce == before.nonce && share.pow@ == proof.nonces@ && share.difficulty
            == share_difficulty(proof.nonces@, before.config.edge_bits),
        after.sent == Some(proof.nonces@),
        after.nonce == before.nonce,
        after.job == before.job,
        after.header == before.header,
        after.config == before.config,
        after.undelivered == before.undelivered,
        after.failures == 0,
        before.graphs < u64::MAX ==> after.graphs == before.graphs + 1,
{
}

/// What keeps a proof from being submitted: it does not pass the check, it is
/// less difficult than its job asks, it was sent before without an answer, the
/// connection is gone, or a job for another height has come.
pub proof fn lemma_proofs_are_held_back_for_a_reason(
    before: MinerState,
    proof: Proof,
    connected: bool,
    latest: Option<Job>,
    step: Step,
    after: MinerState,
)
    requires
        answers_result(before, Ok(SolveOutcome::Proof(proof)), connected, latest, step, after),
        !(step is Submit),
    ensures
        ({
            let difficulty = share_difficulty(proof.nonces@, before.config.edge_bits);
            &&& !connected || (latest is Some && latest->0.height != before.job.height)
                || verify::verdict(before.graph(), 42, proof.nonces@) is Err || difficulty
                < before.job.difficulty || before.undelivered.contains(
                (before.header, before.nonce, proof.nonces@),
            )
            &&& step == Step::Next(Note::BelowDifficulty(difficulty as u64)) ==> difficulty
                < before.job.difficulty
        }),
{
    assert(before.counted().graph() == before.graph());
    reveal(share_difficulty);
}

/// A graph without a cycle, or one that was not decided, is counted, and the
/// run goes on with the next nonce of the same job.  A search that was cancelled
/// is counted too, and its nonce is searched again.
pub proof fn lemma_graphs_without_proofs_are_passed(
    before: MinerState,
    outcome: SolveOutcome,
    latest: Option<Job>,
    step: Step,
    after: MinerState,
)
    requires
        answers_result(before, Ok(outcome), true, latest, step, after),
        !(outcome is Proof),
        latest is None || latest->0.height == before.job.height,
        before.nonce < u64::MAX,
    ensures
        step is Next,
        outcome is NoCycle ==> step == Step::Next(Note::NoCycle),
        outcome is Cancelled ==> step == Step::Next(Note::Cancelled),
        outcome matches SolveOutcome::Inconclusive(reason) ==> step == Step::Next(
            Note::Inconclusive(reason),
        ),
        after.nonce == if outcome is Cancelled {
            before.nonce as int
        } else {
            before.nonce + 1
        },
        before.graphs < u64::MAX ==> after.graphs == before.graphs + 1,
        after.failures == 0,
        after.job == before.job,
        after.header == before.header,
        after.config == before.config,
        after.undelivered == before.undelivered,
{
}

/// A run is at the end of its nonces only after the last one.
pub proof fn lemma_nonces_run_out_only_at_the_last(
    before: MinerState,
    result: Result<SolveOutcome, SolveError>,
    connected: bool,
    latest: Option<Job>,
    after: MinerState,
)
    requires
        answers_result(
            before,
            result,
            connected,
            latest,
            Step::Fail(MineError::NonceExhausted),
            after,
        ),
    ensures
        before.nonce == u64::MAX,
{
}

/// Where the connection is gone the run connects again, with the answer of the
/// backend thrown away.  Where a job for another height has come it is taken at
/// its first nonce, with the answer thrown away too.  A job for the same height
/// changes nothing.
pub proof fn lemma_jobs_are_switched_for_another_height(
    before: MinerState,
    outcome: SolveOutcome,
    connected: bool,
    latest: Option<Job>,
    step: Step,
    after: MinerState,
)
    requires
        answers_result(before, Ok(outcome), connected, latest, step, after),
        before.graphs < u64::MAX,
    ensures
        step is Reconnect <==> !connected,
        step is Switched ==> connected && latest is Some && latest->0.height != before.job.height,
        connected && latest is Some && latest->0.height != before.job.height
            && stratum::header_bytes(latest->0.pre_pow@) is Some ==> step is Switched,
        step is Reconnect ==> after.job == before.job && after.nonce == before.nonce
            && after.header == before.header,
        step is Switched ==> after.job == latest->0 && after.nonce == before.config.nonce_start
            && Some(after.header) == stratum::header_bytes(latest->0.pre_pow@),
        step is Reconnect || step is Switched ==> after.graphs == before.graphs + 1
            && after.failures == 0 && after.config == before.config && after.undelivered
            == before.undelivered,
{
}

/// A backend that fails is let recover twice in a row and ends the run at the
/// third time.  Any other refusal ends the run at once.
pub proof fn lemma_third_failure_ends_the_run(
    before: MinerState,
    error: SolveError,
    connected: bool,
    latest: Option<Job>,
    step: Step,
    after: MinerState,
)
    requires
        answers_result(before, Err(error), connected, latest, step, after),
    ensures
        !(error is Gpu) ==> step == Step::Fail(MineError::Solving(before.nonce, error)),
        error is Gpu && before.failures < 2 ==> step is Recover && after.failures
            == before.failures + 1 && after.nonce == before.nonce && after.job == before.job
            && after.header == before.header && after.graphs == before.graphs && after.config
            == before.config && after.undelivered == before.undelivered,
        error is Gpu && before.failures >= 2 ==> step == Step::Fail(
            MineError::SolverFailed(error),
        ),
{
}

/// A share that the server accepts, or refuses for a reason that is expected, is
/// done with: the run goes on with the next nonce.  An answer that never comes
/// makes the run connect again, and it keeps the share in mind.
pub proof fn lemma_answers_to_shares_lead_on(
    before: MinerState,
    reply: Option<SubmitOutcome>,
    step: Step,
    after: MinerState,
)
    requires
        answers_reply(before, reply, step, after),
        before.nonce < u64::MAX,
    ensures
        reply is None ==> step is Reconnect && after.nonce == before.nonce,
        reply is None && before.sent is Some ==> after.undelivered == before.undelivered.insert(
            (before.header, before.nonce, before.sent->0),
        ),
        reply matches Some(SubmitOutcome::Accepted(json)) ==> step == Step::Next(
            Note::Accepted(json),
        ) && after.nonce == before.nonce + 1 && after.undelivered == before.undelivered,
        reply matches Some(SubmitOutcome::Rejected(error)) ==> if error.code == -32501
            || error.code == -32503 {
            step == Step::Next(Note::Rejected(error)) && after.nonce == before.nonce + 1
                && after.undelivered == before.undelivered
        } else {
            step == Step::Fail(MineError::ShareRejected(error))
        },
        !(step is Fail) ==> after.job == before.job && after.header == before.header
            && after.graphs == before.graphs && after.config == before.config && after.failures
            == before.failures && after.sent is None,
{
}

/// A run is done exactly where it was set to a number of graphs and has searched
/// as many.
pub proof fn lemma_runs_are_done_after_their_graphs(state: MinerState)
    ensures
        state.is_done() <==> state.config.max_graphs > 0 && state.graphs
            >= state.config.max_graphs,
{
}

/// After a reconnection the run starts over with the new job, and what it has
/// counted and kept in mind stays.
pub proof fn lemma_restarts_keep_what_was_counted(before: MinerState, job: Job)
    ensures
        before.switched(job).job == job,
        before.switched(job).nonce == before.config.nonce_start,
        stratum::header_bytes(job.pre_pow@) is Some ==> Some(before.switched(job).header)
            == stratum::header_bytes(job.pre_pow@),
        before.switched(job).graphs == before.graphs,
        before.switched(job).failures == before.failures,
        before.switched(job).config == before.config,
        before.switched(job).undelivered == before.undelivered,
        before.advanced().nonce as int == before.nonce + 1 || before.nonce == u64::MAX,
        before.advanced().job == before.job,
        before.advanced().graphs == before.graphs,
        before.advanced().failures == before.failures,
{
}

/// The difficulty of a share comes from the hash of its packed edges: it is the
/// largest number that, times the first eight bytes of the hash, does not pass
/// 2^64, as far as 64 bits hold it.
pub proof fn lemma_share_difficulty_is_a_quotient(nonces: Seq<u64>, edge_bits: u8)
    ensures
        ({
            let hash = keys::blake2b_256(verify::packed_nonces(nonces, edge_bits));
            let prefix = verify::first_word(hash);
            let difficulty = share_difficulty(nonces, edge_bits);
            hash.len() == 32 ==> if prefix <= 1 {
                difficulty == u64::MAX
            } else {
                difficulty * prefix <= 0x1_0000_0000_0000_0000 < (difficulty + 1) * prefix
            }
        }),
{
    reveal(share_difficulty);
    let hash = keys::blake2b_256(verify::packed_nonces(nonces, edge_bits));
    if hash.len() == 32 {
        verify::lemma_difficulty_is_a_quotient(hash, 1);
        let prefix = verify::first_word(hash);
        let difficulty = share_difficulty(nonces, edge_bits);
        if prefix == 1 {
            assert((difficulty + 1) * prefix == difficulty + 1) by (nonlinear_arith)
                requires
                    prefix == 1,
            ;
        } else if prefix >= 2 {
            assert(u64::MAX * prefix > 0x1_0000_0000_0000_0000) by (nonlinear_arith)
                requires
                    prefix >= 2,
            ;
        }
    }
}

/// A code is written with a minus sign exactly where it is negative, and then its
/// digits.
pub proof fn lemma_codes_are_written_with_their_sign(n: i64)
    ensures
        n >= 0 ==> text::digits_value(signed_decimal(n)) == n,
        n < 0 ==> signed_decimal(n).len() > 1 && signed_decimal(n)[0] == '-' && text::digits_value(
            signed_decimal(n).skip(1),
        ) == -n,
{
    reveal_strlit("-");
    if n < 0 {
        let size = (-(n as int)) as nat;
        text::lemma_decimal_digits(size);
        assert(signed_decimal(n).skip(1) =~= text::decimal(size));
    } else {
        text::lemma_decimal_digits(n as nat);
    }
}

} // verus!
