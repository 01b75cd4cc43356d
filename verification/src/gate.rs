//! Running a fixed range of nonces without a server.

use crate::cli::GateArgs;
use crate::graph::Graph;
use crate::hex_text::{self, HexError};
use crate::keys;
use crate::solver::{SolveError, SolveOutcome, SolveRequest};
use crate::stratum;
use crate::verify::{self, verify_cycle, Proof, VerifyError};
use vstd::prelude::*;

verus! {

/// Why a run over a range ended.
#[derive(Debug)]
pub enum GateError {
    /// The header is not hexadecimal.
    BadHeader(HexError),
    /// The header is empty.
    EmptyHeader,
    /// The end of the range does not fit 64 bits.
    RangeOverflow,
    /// The backend failed.
    Solving(SolveError),
    /// The backend returned a proof that does not pass the check.
    InvalidProof(VerifyError),
    /// The backend was cancelled.
    Cancelled,
    /// The full range did not give the known nonces.
    Acceptance,
}

impl GateError {
    /// What `message` returns.
    pub open spec fn message_text(self) -> Seq<char> {
        match self {
            GateError::BadHeader(_) => "invalid --pre-pow hex"@,
            GateError::EmptyHeader => "--pre-pow must not be empty"@,
            GateError::RangeOverflow => "--nonce-start + --count overflows u64"@,
            GateError::Solving(error) => error.message_text(),
            GateError::InvalidProof(_) => "gate backend returned invalid proof"@,
            GateError::Cancelled => "offline gate was unexpectedly cancelled"@,
            GateError::Acceptance => "C32 acceptance gate failed: expected nonces [45, 74]"@,
        }
    }

    /// The error in words, without its cause.
    pub fn message(&self) -> (message: String)
        ensures
            message@ == self.message_text(),
    {
        match self {
            GateError::BadHeader(_) => String::from_str("invalid --pre-pow hex"),
            GateError::EmptyHeader => String::from_str("--pre-pow must not be empty"),
            GateError::RangeOverflow => String::from_str("--nonce-start + --count overflows u64"),
            GateError::Solving(error) => error.message(),
            GateError::InvalidProof(_) => String::from_str("gate backend returned invalid proof"),
            GateError::Cancelled => String::from_str("offline gate was unexpectedly cancelled"),
            GateError::Acceptance => String::from_str(
                "C32 acceptance gate failed: expected nonces [45, 74]",
            ),
        }
    }
}

/// The header that the command line gives.
pub fn gate_header(pre_pow: &str) -> (result: Result<Vec<u8>, GateError>)
    ensures
        match stratum::header_bytes(pre_pow@) {
            None => result matches Err(GateError::BadHeader(error)) && hex_text::is_failure(
                hex_text::text_bytes(pre_pow@),
                error,
            ),
            Some(bytes) => if bytes.len() == 0 {
                result matches Err(error) && error is EmptyHeader
            } else {
                result matches Ok(header) && header@ == bytes
            },
        },
{
    match hex_text::decode(pre_pow) {
        Err(error) => Err(GateError::BadHeader(error)),
        Ok(header) => {
            if header.len() == 0 {
                Err(GateError::EmptyHeader)
            } else {
                Ok(header)
            }
        },
    }
}

/// What is worth saying of a nonce.
#[derive(Debug)]
pub enum GateNote {
    Found(Proof),
    Nothing,
    Inconclusive(String),
}

/// A run over a range of nonces.
pub struct GateRun {
    edge_bits: u8,
    cycle_length: usize,
    rounds: u32,
    header: Vec<u8>,
    start: u64,
    nonce: u64,
    end: u64,
    is_reference: bool,
    found: Vec<u64>,
}

/// The state of a run over a range.
pub struct GateState {
    pub edge_bits: u8,
    pub cycle_length: usize,
    pub rounds: u32,
    pub header: Seq<u8>,
    pub start: u64,
    pub nonce: u64,
    pub end: u64,
    pub is_reference: bool,
    pub found: Seq<u64>,
}

impl GateState {
    /// Whether the state is one that a run can be in.
    pub open spec fn valid(self) -> bool {
        &&& self.start <= self.nonce <= self.end
        &&& verify::is_strictly_ascending(self.found)
        &&& forall|i: int|
            0 <= i < self.found.len() ==> self.start <= #[trigger] self.found[i] < self.nonce
    }

    /// The graph at the current nonce.
    pub open spec fn graph(self) -> Graph {
        Graph { keys: keys::graph_keys(self.header, self.nonce), edge_bits: self.edge_bits }
    }

    /// The state at the next nonce.
    pub open spec fn passed(self) -> GateState {
        GateState { nonce: (self.nonce + 1) as u64, ..self }
    }

    /// The state at the next nonce, with a cycle at this one.
    pub open spec fn found_here(self) -> GateState {
        GateState {
            nonce: (self.nonce + 1) as u64,
            found: self.found.push(self.nonce),
            ..self
        }
    }
}

/// Whether a run is the one whose nonces are known: all of the first hundred
/// graphs of the largest size for the header of one zero byte.
pub open spec fn is_reference_run(args: GateArgs) -> bool {
    &&& args.solver.edge_bits == 32
    &&& args.pre_pow@ == "00"@
    &&& args.nonce_start == 0
    &&& args.count == 100
}

impl GateRun {
    /// The state of the run.
    pub closed spec fn state(self) -> GateState {
        GateState {
            edge_bits: self.edge_bits,
            cycle_length: self.cycle_length,
            rounds: self.rounds,
            header: self.header@,
            start: self.start,
            nonce: self.nonce,
            end: self.end,
            is_reference: self.is_reference,
            found: self.found@,
        }
    }

    /// Whether the state is one that a run can be in.
    pub open spec fn valid(self) -> bool {
        self.state().valid()
    }

    /// Starts a run over the range that the command line asks for.
    pub fn start(args: &GateArgs, header: Vec<u8>) -> (result: Result<GateRun, GateError>)
        ensures
            if args.nonce_start + args.count > u64::MAX {
                result matches Err(error) && error is RangeOverflow
            } else {
                &&& result matches Ok(run)
                &&& run.valid()
                &&& run.state().is_reference <==> args.solver.edge_bits == 32 && args.pre_pow@
                    == "00"@ && args.nonce_start == 0 && args.count == 100
                &&& run.state() == (GateState {
                    edge_bits: args.solver.edge_bits,
                    cycle_length: args.solver.cycle_length,
                    rounds: args.solver.rounds,
                    header: header@,
                    start: args.nonce_start,
                    nonce: args.nonce_start,
                    end: (args.nonce_start + args.count) as u64,
                    is_reference: is_reference_run(*args),
                    found: Seq::empty(),
                })
            },
    {
        let end = match args.nonce_start.checked_add(args.count) {
            Some(end) => end,
            None => {
                return Err(GateError::RangeOverflow);
            },
        };
        let is_reference = args.solver.edge_bits == 32 && args.pre_pow.eq(&String::from_str("00"))
            && args.nonce_start == 0 && args.count == 100;
        let run = GateRun {
            edge_bits: args.solver.edge_bits,
            cycle_length: args.solver.cycle_length,
            rounds: args.solver.rounds,
            header,
            start: args.nonce_start,
            nonce: args.nonce_start,
            end,
            is_reference,
            found: Vec::new(),
        };
        assert(run.state().found =~= Seq::<u64>::empty());
        Ok(run)
    }

    /// The nonce of the graph that is searched.
    pub fn nonce(&self) -> (nonce: u64)
        ensures
            nonce == self.state().nonce,
    {
        self.nonce
    }

    /// The nonces with a cycle so far.
    pub fn found(&self) -> (found: &Vec<u64>)
        ensures
            found@ == self.state().found,
    {
        &self.found
    }

    /// The next graph to search, or nothing at the end of the range.
    pub fn request(&self) -> (request: Option<SolveRequest>)
        ensures
            match request {
                Some(request) => {
                    &&& self.state().nonce < self.state().end
                    &&& request.pre_pow@ == self.state().header
                    &&& request.nonce == self.state().nonce
                    &&& !request.live_work
                    &&& request.edge_bits == self.state().edge_bits
                    &&& request.cycle_length == self.state().cycle_length
                    &&& request.rounds == self.state().rounds
                },
                None => self.state().nonce >= self.state().end,
            },
    {
        if self.nonce >= self.end {
            return None;
        }
        let mut pre_pow: Vec<u8> = Vec::new();
        pre_pow.extend_from_slice(self.header.as_slice());
        assert(pre_pow@ =~= self.header@);
        Some(
            SolveRequest {
                pre_pow,
                nonce: self.nonce,
                live_work: false,
                edge_bits: self.edge_bits,
                cycle_length: self.cycle_length,
                rounds: self.rounds,
            },
        )
    }

    /// Takes the answer of the backend and goes on to the next nonce.
    pub fn solved(&mut self, result: Result<SolveOutcome, SolveError>) -> (note: Result<
        GateNote,
        GateError,
    >)
        requires
            old(self).valid(),
            old(self).state().nonce < old(self).state().end,
        ensures
            note is Ok ==> final(self).valid(),
            note is Ok ==> final(self).state().nonce == old(self).state().nonce + 1
                && final(self).state().end == old(self).state().end,
            note is Ok <==> match result {
                Ok(SolveOutcome::Proof(proof)) => verify::verdict(
                    old(self).state().graph(),
                    old(self).state().cycle_length,
                    proof.nonces@,
                ) is Ok,
                Ok(SolveOutcome::NoCycle) | Ok(SolveOutcome::Inconclusive(_)) => true,
                _ => false,
            },
            match result {
                Err(error) => note == Err::<GateNote, GateError>(GateError::Solving(error)),
                Ok(SolveOutcome::Proof(proof)) => match verify::verdict(
                    old(self).state().graph(),
                    old(self).state().cycle_length,
                    proof.nonces@,
                ) {
                    Ok(()) => {
                        &&& note == Ok::<GateNote, GateError>(GateNote::Found(proof))
                        &&& final(self).state() == old(self).state().found_here()
                    },
                    Err(error) => note == Err::<GateNote, GateError>(
                        GateError::InvalidProof(error),
                    ),
                },
                Ok(SolveOutcome::NoCycle) => {
                    &&& note == Ok::<GateNote, GateError>(GateNote::Nothing)
                    &&& final(self).state() == old(self).state().passed()
                },
                Ok(SolveOutcome::Cancelled) => note == Err::<GateNote, GateError>(
                    GateError::Cancelled,
                ),
                Ok(SolveOutcome::Inconclusive(reason)) => {
                    &&& note == Ok::<GateNote, GateError>(GateNote::Inconclusive(reason))
                    &&& final(self).state() == old(self).state().passed()
                },
            },
    {
        match result {
            Err(error) => Err(GateError::Solving(error)),
            Ok(SolveOutcome::Proof(proof)) => {
                let sip_keys = keys::derive_keys(self.header.as_slice(), self.nonce);
                match verify_cycle(sip_keys, self.edge_bits, self.cycle_length, &proof) {
                    Ok(()) => {
                        self.found.push(self.nonce);
                        self.nonce = self.nonce + 1;
                        Ok(GateNote::Found(proof))
                    },
                    Err(error) => Err(GateError::InvalidProof(error)),
                }
            },
            Ok(SolveOutcome::NoCycle) => {
                self.nonce = self.nonce + 1;
                Ok(GateNote::Nothing)
            },
            Ok(SolveOutcome::Cancelled) => Err(GateError::Cancelled),
            Ok(SolveOutcome::Inconclusive(reason)) => {
                self.nonce = self.nonce + 1;
                Ok(GateNote::Inconclusive(reason))
            },
        }
    }

    /// The verdict at the end of the range: the run whose nonces are known must
    /// have found exactly 45 and 74.
    pub fn finish(&self) -> (result: Result<(), GateError>)
        ensures
            match result {
                Ok(()) => !self.state().is_reference || self.state().found == seq![45u64, 74u64],
                Err(error) => {
                    &&& self.state().is_reference
                    &&& self.state().found != seq![45u64, 74u64]
                    &&& error is Acceptance
                },
            },
    {
        let exact = self.found.len() == 2 && self.found[0] == 45 && self.found[1] == 74;
        assert(exact <==> self.found@ == seq![45u64, 74u64]) by {
            if exact {
                assert(self.found@ =~= seq![45u64, 74u64]);
            }
        }
        if self.is_reference && !exact {
            Err(GateError::Acceptance)
        } else {
            Ok(())
        }
    }
}

/// Whether a run goes from one state to another with an answer of the backend,
/// and does not end there.
pub open spec fn goes_on(
    before: GateState,
    result: Result<SolveOutcome, SolveError>,
    after: GateState,
) -> bool {
    before.nonce < before.end && match result {
        Ok(SolveOutcome::Proof(proof)) => verify::verdict(
            before.graph(),
            before.cycle_length,
            proof.nonces@,
        ) is Ok && after == before.found_here(),
        Ok(SolveOutcome::NoCycle) | Ok(SolveOutcome::Inconclusive(_)) => after == before.passed(),
        _ => false,
    }
}

/// An answer that does not end a run leads to the next nonce, whatever it is:
/// the nonce that was searched is kept where it had a cycle, and nothing else
/// changes.
pub proof fn lemma_every_answer_leads_to_the_next_nonce(
    before: GateState,
    result: Result<SolveOutcome, SolveError>,
    after: GateState,
)
    requires
        goes_on(before, result, after),
    ensures
        after.nonce == before.nonce + 1,
        after.start == before.start,
        after.end == before.end,
        after.header == before.header,
        after.edge_bits == before.edge_bits,
        after.cycle_length == before.cycle_length,
        after.rounds == before.rounds,
        after.is_reference == before.is_reference,
        result matches Ok(SolveOutcome::Proof(_)) ==> after.found.len() == before.found.len() + 1
            && after.found.last() == before.nonce && after.found.drop_last() == before.found,
        !(result matches Ok(SolveOutcome::Proof(_))) ==> after.found == before.found,
{
    if result matches Ok(SolveOutcome::Proof(_)) {
        assert(after.found.drop_last() =~= before.found);
    }
}

/// Whether a run goes through states in turn, one for each answer.
pub open spec fn is_history(
    states: Seq<GateState>,
    results: Seq<Result<SolveOutcome, SolveError>>,
) -> bool {
    &&& states.len() == results.len() + 1
    &&& forall|i: int|
        0 <= i < results.len() ==> goes_on(states[i], #[trigger] results[i], states[i + 1])
}

proof fn history_begins(
    states: Seq<GateState>,
    results: Seq<Result<SolveOutcome, SolveError>>,
)
    requires
        is_history(states, results),
        results.len() > 0,
    ensures
        is_history(states.drop_last(), results.drop_last()),
        states.drop_last()[0] == states[0],
        goes_on(states[results.len() - 1], results[results.len() - 1], states[results.len() as int]),
        states[results.len() - 1].nonce < states[results.len() - 1].end,
{
    let earlier = results.drop_last();
    let before = states.drop_last();
    assert(is_history(before, earlier)) by {
        assert forall|i: int| 0 <= i < earlier.len() implies goes_on(
            before[i],
            #[trigger] earlier[i],
            before[i + 1],
        ) by {
            assert(earlier[i] == results[i]);
        }
    }
    assert(results[results.len() - 1] == results.last());
}

/// A run searches its nonces one after the other, each of them once: after `n`
/// answers it is at the start plus `n`, and where it has come to the end of its
/// range there was one answer for each nonce.
pub proof fn lemma_run_searches_every_nonce_once(
    states: Seq<GateState>,
    results: Seq<Result<SolveOutcome, SolveError>>,
)
    requires
        is_history(states, results),
        states[0].nonce == states[0].start <= states[0].end,
    ensures
        states.last().nonce == states[0].start + results.len(),
        states.last().start == states[0].start,
        states.last().end == states[0].end,
        states.last().header == states[0].header,
        results.len() <= states[0].end - states[0].start,
        states.last().nonce >= states.last().end <==> results.len() == states[0].end
            - states[0].start,
    decreases results.len(),
{
    if results.len() > 0 {
        let last = results.len() - 1;
        history_begins(states, results);
        lemma_run_searches_every_nonce_once(states.drop_last(), results.drop_last());
        assert(states.drop_last().last() == states[last]);
        lemma_every_answer_leads_to_the_next_nonce(states[last], results[last], states[last + 1]);
    }
}

/// The nonces that a run has found are exactly those whose answer was a proof.
pub proof fn lemma_run_finds_the_nonces_with_proofs(
    states: Seq<GateState>,
    results: Seq<Result<SolveOutcome, SolveError>>,
    nonce: u64,
)
    requires
        is_history(states, results),
        states[0].nonce == states[0].start <= states[0].end,
        states[0].found.len() == 0,
    ensures
        states.last().found.contains(nonce) <==> states[0].start <= nonce < states[0].start
            + results.len() && results[nonce - states[0].start] matches Ok(SolveOutcome::Proof(_)),
    decreases results.len(),
{
    if results.len() > 0 {
        let last = results.len() - 1;
        let before = states[last].found;
        let after = states[last + 1].found;
        history_begins(states, results);
        lemma_run_searches_every_nonce_once(states.drop_last(), results.drop_last());
        lemma_run_finds_the_nonces_with_proofs(states.drop_last(), results.drop_last(), nonce);
        assert(states.drop_last().last() == states[last]);
        lemma_every_answer_leads_to_the_next_nonce(states[last], results[last], states[last + 1]);
        if results[last] matches Ok(SolveOutcome::Proof(_)) {
            assert(after =~= before.push(states[last].nonce));
            assert(after.contains(nonce) <==> before.contains(nonce) || nonce
                == states[last].nonce) by {
                if nonce == states[last].nonce {
                    assert(after[before.len() as int] == nonce);
                }
                if before.contains(nonce) {
                    let k = choose|k: int| 0 <= k < before.len() && before[k] == nonce;
                    assert(after[k] == nonce);
                }
            }
        }
        if states[0].start <= nonce < states[0].start + last {
            assert(results.drop_last()[nonce - states[0].start] == results[nonce
                - states[0].start]);
        }
    }
}

} // verus!
