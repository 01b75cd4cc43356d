//! What a backend is asked, what it answers, and the backends themselves.

pub mod cpu_lean;
pub mod d2;
pub mod device;
pub mod edge_bitmap;
pub mod gpu_diagnostics;
pub mod gpu_fine;
pub mod gpu_metal;
pub mod gpu_rounds;
pub mod gpu_wgpu;
pub mod metal_device;
pub mod peel;
pub mod portable;
pub mod radix;
pub mod search;
pub mod self_check;
pub mod verdict;

use crate::graph::Graph;
use crate::keys;
use crate::siphash::SipKeys;
use crate::text;
use crate::verify::Proof;
use std::sync::atomic::{AtomicBool, Ordering};
use vstd::prelude::*;

verus! {

/// How a backend stores the edges that are still alive.
#[derive(Debug, Clone, Copy, PartialEq, Eq, Structural)]
pub enum TrimmingMode {
    Auto,
    Lean,
    Slean,
}

/// One graph to search.
#[derive(Debug, Clone)]
pub struct SolveRequest {
    pub pre_pow: Vec<u8>,
    pub nonce: u64,
    pub live_work: bool,
    pub edge_bits: u8,
    pub cycle_length: usize,
    pub rounds: u32,
}

/// What defines the search of one graph.
#[derive(Debug, Clone, Copy)]
pub struct GraphParams {
    pub keys: SipKeys,
    pub edge_bits: u8,
    pub cycle_length: usize,
    pub rounds: u32,
}

impl GraphParams {
    /// The graph that is searched.
    pub open spec fn graph(self) -> Graph {
        Graph { keys: self.keys, edge_bits: self.edge_bits }
    }
}

impl SolveRequest {
    /// The keys of the requested graph.
    pub fn sip_keys(&self) -> (result: SipKeys)
        ensures
            result == keys::graph_keys(self.pre_pow@, self.nonce),
    {
        keys::derive_keys(self.pre_pow.as_slice(), self.nonce)
    }

    /// The parameters of the requested graph.
    pub open spec fn params(self) -> GraphParams {
        GraphParams {
            keys: keys::graph_keys(self.pre_pow@, self.nonce),
            edge_bits: self.edge_bits,
            cycle_length: self.cycle_length,
            rounds: self.rounds,
        }
    }

    /// The parameters of the requested graph.
    pub fn graph_params(&self) -> (params: GraphParams)
        ensures
            params == self.params(),
    {
        GraphParams {
            keys: self.sip_keys(),
            edge_bits: self.edge_bits,
            cycle_length: self.cycle_length,
            rounds: self.rounds,
        }
    }
}

/// The graphs that a backend takes.
#[derive(Debug, Clone, Copy)]
pub struct BackendCapabilities {
    pub min_edge_bits: u8,
    pub max_edge_bits: u8,
    pub cycle_length: usize,
}

/// The answer to a request.
#[derive(Debug)]
pub enum SolveOutcome {
    Proof(Proof),
    NoCycle,
    Cancelled,
    Inconclusive(String),
}

/// An answer with its contents as plain sequences.
#[verifier::ext_equal]
pub enum OutcomeView {
    Proof(Seq<u64>),
    NoCycle,
    Cancelled,
    Inconclusive(Seq<char>),
}

impl View for SolveOutcome {
    type V = OutcomeView;

    open spec fn view(&self) -> OutcomeView {
        match self {
            SolveOutcome::Proof(proof) => OutcomeView::Proof(proof.nonces@),
            SolveOutcome::NoCycle => OutcomeView::NoCycle,
            SolveOutcome::Cancelled => OutcomeView::Cancelled,
            SolveOutcome::Inconclusive(reason) => OutcomeView::Inconclusive(reason@),
        }
    }
}

/// Why a request was not answered.
#[derive(Debug)]
pub enum SolveError {
    InvalidConfig(String),
    Unsupported(String),
    Gpu(String),
    SearchLimit(String),
}

/// The kinds of `SolveError`.
#[derive(Debug, Clone, Copy, PartialEq, Eq, Structural)]
pub enum ErrorKind {
    InvalidConfig,
    Unsupported,
    Gpu,
    SearchLimit,
}

impl View for SolveError {
    type V = (ErrorKind, Seq<char>);

    open spec fn view(&self) -> (ErrorKind, Seq<char>) {
        match self {
            SolveError::InvalidConfig(reason) => (ErrorKind::InvalidConfig, reason@),
            SolveError::Unsupported(reason) => (ErrorKind::Unsupported, reason@),
            SolveError::Gpu(reason) => (ErrorKind::Gpu, reason@),
            SolveError::SearchLimit(reason) => (ErrorKind::SearchLimit, reason@),
        }
    }
}

impl SolveError {
    /// What `message` returns.
    pub open spec fn message_text(self) -> Seq<char> {
        let (kind, reason) = self@;
        (match kind {
            ErrorKind::InvalidConfig => "invalid configuration: "@,
            ErrorKind::Unsupported => "backend cannot solve this request: "@,
            ErrorKind::Gpu => "GPU error: "@,
            ErrorKind::SearchLimit => "exact cycle search exceeded its resource limit: "@,
        }) + reason
    }

    /// The error in words.
    pub fn message(&self) -> (message: String)
        ensures
            message@ == self.message_text(),
    {
        match self {
            SolveError::InvalidConfig(reason) => String::from_str("invalid configuration: ").concat(
                reason.as_str(),
            ),
            SolveError::Unsupported(reason) => String::from_str(
                "backend cannot solve this request: ",
            ).concat(reason.as_str()),
            SolveError::Gpu(reason) => String::from_str("GPU error: ").concat(reason.as_str()),
            SolveError::SearchLimit(reason) => String::from_str(
                "exact cycle search exceeded its resource limit: ",
            ).concat(reason.as_str()),
        }
    }
}

/// An `InvalidConfig` error with the given reason.
pub fn invalid(reason: &str) -> (error: SolveError)
    ensures
        error@ == (ErrorKind::InvalidConfig, reason@),
{
    SolveError::InvalidConfig(String::from_str(reason))
}

/// An `Unsupported` error with the given reason.
pub fn unsupported(reason: &str) -> (error: SolveError)
    ensures
        error@ == (ErrorKind::Unsupported, reason@),
{
    SolveError::Unsupported(String::from_str(reason))
}

/// Why a request cannot be given to a backend, if it cannot: the first reason
/// in the order in which they are listed here.
pub open spec fn request_error(
    request: SolveRequest,
    capabilities: BackendCapabilities,
) -> Option<(ErrorKind, Seq<char>)> {
    if request.pre_pow@.len() == 0 {
        Some((ErrorKind::InvalidConfig, "pre_pow must not be empty"@))
    } else if !(1 <= request.edge_bits <= 32) {
        Some((ErrorKind::InvalidConfig, "edge_bits must be in 1..=32"@))
    } else if !(capabilities.min_edge_bits <= request.edge_bits <= capabilities.max_edge_bits) {
        Some(
            (
                ErrorKind::Unsupported,
                "backend supports edge_bits "@ + text::decimal(capabilities.min_edge_bits as nat)
                    + "..="@ + text::decimal(capabilities.max_edge_bits as nat) + ", requested "@
                    + text::decimal(request.edge_bits as nat),
            ),
        )
    } else if !(2 <= request.cycle_length <= 64 && request.cycle_length % 2 == 0) {
        Some((ErrorKind::InvalidConfig, "cycle_length must be even and in 2..=64"@))
    } else if request.live_work && request.cycle_length != capabilities.cycle_length {
        Some(
            (
                ErrorKind::Unsupported,
                "live backend requires cycle_length "@ + text::decimal(
                    capabilities.cycle_length as nat,
                ),
            ),
        )
    } else if request.rounds == 0 {
        Some((ErrorKind::InvalidConfig, "rounds must be at least 1"@))
    } else {
        None
    }
}

/// Checks a request against what a backend can do.
pub fn validate_request(request: &SolveRequest, capabilities: BackendCapabilities) -> (result:
    Result<(), SolveError>)
    ensures
        match result {
            Ok(()) => request_error(*request, capabilities) is None,
            Err(error) => request_error(*request, capabilities) == Some(error@),
        },
{
    if request.pre_pow.len() == 0 {
        return Err(invalid("pre_pow must not be empty"));
    }
    if request.edge_bits == 0 || request.edge_bits > 32 {
        return Err(invalid("edge_bits must be in 1..=32"));
    }
    if request.edge_bits < capabilities.min_edge_bits || request.edge_bits
        > capabilities.max_edge_bits {
        let mut reason = text::around_decimal(
            "backend supports edge_bits ",
            capabilities.min_edge_bits as u64,
            "..=",
        );
        text::append_decimal(&mut reason, capabilities.max_edge_bits as u64);
        reason.append(", requested ");
        text::append_decimal(&mut reason, request.edge_bits as u64);
        return Err(SolveError::Unsupported(reason));
    }
    if request.cycle_length == 0 || request.cycle_length % 2 != 0 || request.cycle_length > 64 {
        return Err(invalid("cycle_length must be even and in 2..=64"));
    }
    if request.live_work && request.cycle_length != capabilities.cycle_length {
        let mut reason = String::from_str("live backend requires cycle_length ");
        text::append_decimal(&mut reason, capabilities.cycle_length as u64);
        return Err(SolveError::Unsupported(reason));
    }
    if request.rounds == 0 {
        return Err(invalid("rounds must be at least 1"));
    }
    Ok(())
}

/// Whether a value is one that a read of a flag can give.  Other threads may
/// change the flag, so two reads can differ.
pub open spec fn is_reading(flag: &AtomicBool, value: bool) -> bool {
    call_ensures(AtomicBool::load, (flag, Ordering::Relaxed), value)
}

/// Reads a cancellation flag.  Without a flag nothing is ever cancelled.
pub(crate) fn is_cancelled(cancel: Option<&AtomicBool>) -> (cancelled: bool)
    ensures
        match cancel {
            Some(flag) => is_reading(flag, cancelled),
            None => !cancelled,
        },
{
    match cancel {
        Some(flag) => flag.load(Ordering::Relaxed),
        None => false,
    }
}

/// A backend that searches graphs for cycles.
pub trait Solver: Send {
    fn name(&self) -> &'static str;

    fn capabilities(&self) -> BackendCapabilities;

    /// Brings the backend back to work after a failure.  A backend that has
    /// nothing to do for that succeeds and stays as it is.
    fn recover(&mut self) -> (result: Result<(), SolveError>)
        default_ensures
            result == Ok::<(), SolveError>(()),
            &*final(self) == &*old(self),
    {
        Ok(())
    }

    fn solve(&mut self, request: SolveRequest, cancel: &AtomicBool) -> Result<
        SolveOutcome,
        SolveError,
    >;
}

/// A backend is given exactly the requests with a header, an edge size that both
/// the format and the backend know, an even cycle length up to 64, for live work
/// the one that the backend solves, and at least one round.  A refusal blames the
/// backend only where another backend could take the request.
pub proof fn lemma_sound_requests_are_taken(
    request: SolveRequest,
    capabilities: BackendCapabilities,
)
    ensures
        request_error(request, capabilities) is None <==> {
            &&& request.pre_pow@.len() > 0
            &&& 1 <= request.edge_bits <= 32
            &&& capabilities.min_edge_bits <= request.edge_bits <= capabilities.max_edge_bits
            &&& 2 <= request.cycle_length <= 64
            &&& request.cycle_length % 2 == 0
            &&& request.live_work ==> request.cycle_length == capabilities.cycle_length
            &&& request.rounds > 0
        },
        request_error(request, capabilities) matches Some((kind, _)) ==> kind
            == ErrorKind::InvalidConfig || kind == ErrorKind::Unsupported,
        request_error(request, capabilities) matches Some((ErrorKind::Unsupported, _)) ==> {
            ||| request.edge_bits < capabilities.min_edge_bits
            ||| request.edge_bits > capabilities.max_edge_bits
            ||| request.live_work && request.cycle_length != capabilities.cycle_length
        },
{
}

/// A request is searched as it was made: on the graph of its whole header and its
/// nonce, with its size, cycle length and rounds.
pub proof fn lemma_requests_are_searched_as_made(request: SolveRequest)
    ensures
        request.params().keys == keys::graph_keys(request.pre_pow@, request.nonce),
        request.params().edge_bits == request.edge_bits,
        request.params().cycle_length == request.cycle_length,
        request.params().rounds == request.rounds,
        request.params().graph().keys == request.params().keys,
        request.params().graph().edge_bits == request.edge_bits,
{
}

} // verus!
