//! The development-only diagnostics of the GPU backends.

use crate::bits;
use crate::solver::{invalid, ErrorKind, SolveError};
use crate::text;
use vstd::arithmetic::power2;
use vstd::prelude::*;

verus! {

/// An environment variable: not set, set to something that is no text, or set
/// to a text.
#[derive(Debug)]
pub enum Variable {
    Unset,
    NotText,
    Text(String),
}

impl Variable {
    /// Whether the variable is set.
    pub open spec fn set(self) -> bool {
        !(self is Unset)
    }

    /// Whether the variable is set.
    pub fn is_set(&self) -> (result: bool)
        ensures
            result == self.set(),
    {
        match self {
            Variable::Unset => false,
            _ => true,
        }
    }
}

/// The variables that switch diagnostics on, and whether this build has them.
#[derive(Debug)]
pub struct DiagnosticEnv {
    pub enabled: bool,
    pub node_mask_bits: Variable,
    pub siphash_only: Variable,
    pub per_round: Variable,
    pub early_phases: Variable,
    pub bucket_round0: Variable,
    pub buckets: Variable,
    pub survivor_counts: Variable,
    pub fine_csr: Variable,
    pub fine_end_round: Variable,
    pub slean_phases: Variable,
}

impl DiagnosticEnv {
    /// Whether any of the variables is set.
    pub open spec fn any_set(self) -> bool {
        self.node_mask_bits.set() || self.siphash_only.set() || self.per_round.set()
            || self.early_phases.set() || self.bucket_round0.set() || self.buckets.set()
            || self.survivor_counts.set() || self.fine_csr.set() || self.fine_end_round.set()
            || self.slean_phases.set()
    }

    /// Whether mining is refused: it is where any of the variables is set, also
    /// in a build that has no diagnostics.
    pub fn forbids_mining(&self) -> (forbidden: bool)
        ensures
            forbidden == self.any_set(),
    {
        self.node_mask_bits.is_set() || self.siphash_only.is_set() || self.per_round.is_set()
            || self.early_phases.is_set() || self.bucket_round0.is_set() || self.buckets.is_set()
            || self.survivor_counts.is_set() || self.fine_csr.is_set()
            || self.fine_end_round.is_set() || self.slean_phases.is_set()
    }
}

/// What is diagnosed.
#[derive(Debug, Clone, Copy, PartialEq, Eq, Structural)]
pub struct Diagnostics {
    pub per_round: bool,
    pub siphash_only: bool,
    pub bucket_round0: bool,
    pub survivor_counts: bool,
    pub early_phases: bool,
    pub slean_phases: bool,
    pub fine_csr: bool,
    pub fine_end_round: u32,
    pub bucket_count: u32,
    pub mask_bits: Option<u8>,
    pub rounds: u32,
}

/// The number that a variable holds, or what is wrong with it.
pub open spec fn variable_number(name: Seq<char>, variable: Variable, max: u64) -> Result<
    Option<u64>,
    Seq<char>,
> {
    match variable {
        Variable::Text(value) => match text::parsed(value@, max) {
            Ok(number) => Ok(Some(number)),
            Err(failure) => Err(name + " must be an integer: "@ + failure.message_text()),
        },
        _ => Ok(None),
    }
}

fn parse_env(name: &str, variable: &Variable, max: u64) -> (result: Result<
    Option<u64>,
    SolveError,
>)
    ensures
        match variable_number(name@, *variable, max) {
            Ok(number) => result == Ok::<Option<u64>, SolveError>(number),
            Err(reason) => result matches Err(error) && error@ == (
                ErrorKind::InvalidConfig,
                reason,
            ),
        },
        result matches Ok(Some(number)) ==> number <= max,
{
    match variable {
        Variable::Text(value) => match text::parse_unsigned(value.as_str(), max) {
            Ok(number) => {
                proof {
                    text::lemma_parsed_fits(value@, max);
                }
                Ok(Some(number))
            },
            Err(failure) => {
                let mut reason = String::from_str(name);
                reason.append(" must be an integer: ");
                reason.append(failure.message());
                Err(SolveError::InvalidConfig(reason))
            },
        },
        _ => Ok(None),
    }
}

/// What the environment and the request ask to be diagnosed, before it is
/// checked.
pub open spec fn asked_diagnostics(
    env: DiagnosticEnv,
    rounds: u32,
    fine_end_override: Option<u32>,
    fine_end: Option<u64>,
    buckets: Option<u64>,
    mask_bits: Option<u64>,
) -> Diagnostics {
    let fine_csr = fine_end_override is Some || env.fine_csr.set();
    Diagnostics {
        per_round: env.per_round.set(),
        siphash_only: env.siphash_only.set(),
        bucket_round0: env.bucket_round0.set(),
        survivor_counts: env.survivor_counts.set(),
        early_phases: env.early_phases.set(),
        slean_phases: env.slean_phases.set(),
        fine_csr,
        fine_end_round: match fine_end_override {
            Some(round) => round,
            None => match fine_end {
                Some(round) => round as u32,
                None => 64,
            },
        },
        bucket_count: match buckets {
            Some(count) => count as u32,
            None => 16,
        },
        mask_bits: match mask_bits {
            Some(bits) => Some(bits as u8),
            None => None,
        },
        rounds: if env.survivor_counts.set() {
            8
        } else if fine_csr {
            6
        } else {
            rounds
        },
    }
}

/// The diagnostics of a build without them.
pub open spec fn no_diagnostics(rounds: u32, fine_end_override: Option<u32>) -> Diagnostics {
    Diagnostics {
        per_round: false,
        siphash_only: false,
        bucket_round0: false,
        survivor_counts: false,
        early_phases: false,
        slean_phases: false,
        fine_csr: false,
        fine_end_round: match fine_end_override {
            Some(round) => round,
            None => 64,
        },
        bucket_count: 16,
        mask_bits: None,
        rounds,
    }
}

impl Diagnostics {
    /// Whether the environment asks for a diagnostic that replaces the search.
    pub fn result_only_from_env(env: &DiagnosticEnv) -> (result: bool)
        ensures
            result == (env.enabled && (env.node_mask_bits.set() || env.siphash_only.set()
                || env.bucket_round0.set() || env.survivor_counts.set() || env.fine_csr.set())),
    {
        if !env.enabled {
            return false;
        }
        env.node_mask_bits.is_set() || env.siphash_only.is_set() || env.bucket_round0.is_set()
            || env.survivor_counts.is_set() || env.fine_csr.is_set()
    }

    /// How many diagnostics are on that exclude each other.
    pub open spec fn exclusives(self) -> nat {
        (if self.siphash_only {
            1nat
        } else {
            0nat
        }) + (if self.bucket_round0 {
            1nat
        } else {
            0nat
        }) + (if self.mask_bits is Some {
            1nat
        } else {
            0nat
        })
    }

    fn exclusive_count(&self) -> (count: u8)
        ensures
            count == self.exclusives(),
    {
        let mut count: u8 = 0;
        if self.siphash_only {
            count = count + 1;
        }
        if self.bucket_round0 {
            count = count + 1;
        }
        if self.mask_bits.is_some() {
            count = count + 1;
        }
        count
    }

    /// Whether a diagnostic is on that replaces the search.
    pub open spec fn replaces_search(self) -> bool {
        self.siphash_only || self.bucket_round0 || self.survivor_counts || self.fine_csr
            || self.mask_bits is Some
    }

    /// Whether a diagnostic is on that replaces the search.
    pub fn result_only(&self) -> (result: bool)
        ensures
            result == self.replaces_search(),
    {
        self.siphash_only || self.bucket_round0 || self.survivor_counts || self.fine_csr
            || self.mask_bits.is_some()
    }

    /// Whether a diagnostic is on that excludes others.
    pub fn has_exclusive(&self) -> (result: bool)
        ensures
            result == (self.exclusives() != 0),
    {
        self.exclusive_count() != 0
    }

    /// The bits of a node that the shaders keep.
    pub open spec fn masked_bits(self, edge_bits: u8) -> u8 {
        match self.mask_bits {
            Some(bits) => bits,
            None => edge_bits,
        }
    }

    /// The mask that the shaders lay over a node.
    pub fn node_mask(&self, edge_bits: u8) -> (mask: u32)
        requires
            self.masked_bits(edge_bits) <= 32,
        ensures
            mask == power2::pow2(self.masked_bits(edge_bits) as nat) - 1,
    {
        let kept: u8 = match self.mask_bits {
            Some(kept) => kept,
            None => edge_bits,
        };
        proof {
            bits::lemma_pow2_fits(kept as nat);
            power2::lemma2_to64();
        }
        (bits::power_of_two(kept) - 1) as u32
    }

    /// What is wrong with a combination of diagnostics: the first reason in the
    /// order in which they are listed here.
    pub open spec fn refusal(
        self,
        env: DiagnosticEnv,
        edge_bits: u8,
        requested_rounds: u32,
    ) -> Option<Seq<char>> {
        if self.exclusives() > 1 {
            Some(
                "SIPHASH_ONLY, BUCKET_ROUND0, and NODE_MASK_BITS diagnostics cannot be combined"@,
            )
        } else if self.survivor_counts && self.exclusives() != 0 {
            Some(
                "SURVIVOR_COUNTS cannot be combined with SIPHASH_ONLY, BUCKET_ROUND0, or NODE_MASK_BITS"@,
            )
        } else if self.fine_csr && (self.exclusives() != 0 || self.survivor_counts) {
            Some("FINE_CSR cannot be combined with another result-only GPU diagnostic"@)
        } else if !self.fine_csr && env.fine_end_round.set() {
            Some(
                "GRIN_MINER_DIAGNOSTIC_FINE_END_ROUND requires GRIN_MINER_DIAGNOSTIC_FINE_CSR"@,
            )
        } else if self.fine_csr && !(7 <= self.fine_end_round <= 64) {
            Some("GRIN_MINER_DIAGNOSTIC_FINE_END_ROUND must be in 7..=64"@)
        } else if self.survivor_counts && requested_rounds < 8 {
            Some("GRIN_MINER_DIAGNOSTIC_SURVIVOR_COUNTS requires at least 8 rounds"@)
        } else if self.fine_csr && requested_rounds < 6 {
            Some("GRIN_MINER_DIAGNOSTIC_FINE_CSR requires at least 6 rounds"@)
        } else if self.bucket_round0 && edge_bits != 32 {
            Some("GRIN_MINER_DIAGNOSTIC_BUCKET_ROUND0 currently requires edge_bits=32"@)
        } else if !self.bucket_round0 && env.buckets.set() {
            Some("GRIN_MINER_DIAGNOSTIC_BUCKETS requires GRIN_MINER_DIAGNOSTIC_BUCKET_ROUND0"@)
        } else if self.bucket_round0 && !(self.bucket_count == 16 || self.bucket_count == 32
            || self.bucket_count == 64 || self.bucket_count == 128) {
            Some("GRIN_MINER_DIAGNOSTIC_BUCKETS must be one of 16, 32, 64, or 128"@)
        } else if self.mask_bits matches Some(bits) && (bits == 0 || bits > edge_bits) {
            Some(
                "GRIN_MINER_DIAGNOSTIC_NODE_MASK_BITS must be in 1..="@ + text::decimal(
                    edge_bits as nat,
                ),
            )
        } else {
            None
        }
    }

    fn validate(&self, env: &DiagnosticEnv, edge_bits: u8, requested_rounds: u32) -> (result:
        Result<(), SolveError>)
        ensures
            match self.refusal(*env, edge_bits, requested_rounds) {
                None => result is Ok,
                Some(reason) => result matches Err(error) && error@ == (
                    ErrorKind::InvalidConfig,
                    reason,
                ),
            },
    {
        let exclusive = self.exclusive_count();
        if exclusive > 1 {
            return Err(
                invalid(
                    "SIPHASH_ONLY, BUCKET_ROUND0, and NODE_MASK_BITS diagnostics cannot be combined",
                ),
            );
        }
        if self.survivor_counts && exclusive != 0 {
            return Err(
                invalid(
                    "SURVIVOR_COUNTS cannot be combined with SIPHASH_ONLY, BUCKET_ROUND0, or NODE_MASK_BITS",
                ),
            );
        }
        if self.fine_csr && (exclusive != 0 || self.survivor_counts) {
            return Err(
                invalid("FINE_CSR cannot be combined with another result-only GPU diagnostic"),
            );
        }
        if !self.fine_csr && env.fine_end_round.is_set() {
            return Err(
                invalid(
                    "GRIN_MINER_DIAGNOSTIC_FINE_END_ROUND requires GRIN_MINER_DIAGNOSTIC_FINE_CSR",
                ),
            );
        }
        if self.fine_csr && !(7 <= self.fine_end_round && self.fine_end_round <= 64) {
            return Err(invalid("GRIN_MINER_DIAGNOSTIC_FINE_END_ROUND must be in 7..=64"));
        }
        if self.survivor_counts && requested_rounds < 8 {
            return Err(
                invalid("GRIN_MINER_DIAGNOSTIC_SURVIVOR_COUNTS requires at least 8 rounds"),
            );
        }
        if self.fine_csr && requested_rounds < 6 {
            return Err(invalid("GRIN_MINER_DIAGNOSTIC_FINE_CSR requires at least 6 rounds"));
        }
        if self.bucket_round0 && edge_bits != 32 {
            return Err(
                invalid("GRIN_MINER_DIAGNOSTIC_BUCKET_ROUND0 currently requires edge_bits=32"),
            );
        }
        if !self.bucket_round0 && env.buckets.is_set() {
            return Err(
                invalid(
                    "GRIN_MINER_DIAGNOSTIC_BUCKETS requires GRIN_MINER_DIAGNOSTIC_BUCKET_ROUND0",
                ),
            );
        }
        if self.bucket_round0 && !(self.bucket_count == 16 || self.bucket_count == 32
            || self.bucket_count == 64 || self.bucket_count == 128) {
            return Err(
                invalid("GRIN_MINER_DIAGNOSTIC_BUCKETS must be one of 16, 32, 64, or 128"),
            );
        }
        match self.mask_bits {
            Some(kept) => {
                if kept == 0 || kept > edge_bits {
                    let mut reason = String::from_str(
                        "GRIN_MINER_DIAGNOSTIC_NODE_MASK_BITS must be in 1..=",
                    );
                    text::append_decimal(&mut reason, edge_bits as u64);
                    return Err(SolveError::InvalidConfig(reason));
                }
            },
            None => {},
        }
        Ok(())
    }

    /// What `from_env` returns: the numbers are read in the order of the names
    /// here, and the first that cannot be read is the error.
    pub open spec fn from_env_result(
        env: DiagnosticEnv,
        edge_bits: u8,
        rounds: u32,
        fine_end_override: Option<u32>,
    ) -> Result<Diagnostics, Seq<char>> {
        if !env.enabled {
            Ok(no_diagnostics(rounds, fine_end_override))
        } else {
            match variable_number(
                "GRIN_MINER_DIAGNOSTIC_FINE_END_ROUND"@,
                env.fine_end_round,
                u32::MAX as u64,
            ) {
                Err(reason) => Err(reason),
                Ok(fine_end) => match variable_number(
                    "GRIN_MINER_DIAGNOSTIC_BUCKETS"@,
                    env.buckets,
                    u32::MAX as u64,
                ) {
                    Err(reason) => Err(reason),
                    Ok(buckets) => match variable_number(
                        "GRIN_MINER_DIAGNOSTIC_NODE_MASK_BITS"@,
                        env.node_mask_bits,
                        u8::MAX as u64,
                    ) {
                        Err(reason) => Err(reason),
                        Ok(mask_bits) => {
                            let asked = asked_diagnostics(
                                env,
                                rounds,
                                fine_end_override,
                                fine_end,
                                buckets,
                                mask_bits,
                            );
                            match asked.refusal(env, edge_bits, rounds) {
                                Some(reason) => Err(reason),
                                None => Ok(asked),
                            }
                        },
                    },
                },
            }
        }
    }

    /// Reads what the environment asks to be diagnosed, and checks it.
    pub fn from_env(
        env: &DiagnosticEnv,
        edge_bits: u8,
        rounds: u32,
        fine_end_override: Option<u32>,
    ) -> (result: Result<Diagnostics, SolveError>)
        ensures
            match Diagnostics::from_env_result(*env, edge_bits, rounds, fine_end_override) {
                Ok(diagnostics) => result == Ok::<Diagnostics, SolveError>(diagnostics),
                Err(reason) => result matches Err(error) && error@ == (
                    ErrorKind::InvalidConfig,
                    reason,
                ),
            },
    {
        if !env.enabled {
            let fine_end_round: u32 = match fine_end_override {
                Some(round) => round,
                None => 64,
            };
            return Ok(
                Diagnostics {
                    per_round: false,
                    siphash_only: false,
                    bucket_round0: false,
                    survivor_counts: false,
                    early_phases: false,
                    slean_phases: false,
                    fine_csr: false,
                    fine_end_round,
                    bucket_count: 16,
                    mask_bits: None,
                    rounds,
                },
            );
        }
        let fine_csr = fine_end_override.is_some() || env.fine_csr.is_set();
        let fine_end = match parse_env(
            "GRIN_MINER_DIAGNOSTIC_FINE_END_ROUND",
            &env.fine_end_round,
            u32::MAX as u64,
        ) {
            Ok(fine_end) => fine_end,
            Err(error) => {
                return Err(error);
            },
        };
        let buckets = match parse_env(
            "GRIN_MINER_DIAGNOSTIC_BUCKETS",
            &env.buckets,
            u32::MAX as u64,
        ) {
            Ok(buckets) => buckets,
            Err(error) => {
                return Err(error);
            },
        };
        let mask_bits = match parse_env(
            "GRIN_MINER_DIAGNOSTIC_NODE_MASK_BITS",
            &env.node_mask_bits,
            u8::MAX as u64,
        ) {
            Ok(mask_bits) => mask_bits,
            Err(error) => {
                return Err(error);
            },
        };
        let survivor_counts = env.survivor_counts.is_set();
        let diagnostics = Diagnostics {
            per_round: env.per_round.is_set(),
            siphash_only: env.siphash_only.is_set(),
            bucket_round0: env.bucket_round0.is_set(),
            survivor_counts,
            early_phases: env.early_phases.is_set(),
            slean_phases: env.slean_phases.is_set(),
            fine_csr,
            fine_end_round: match fine_end_override {
                Some(round) => round,
                None => match fine_end {
                    Some(round) => round as u32,
                    None => 64,
                },
            },
            bucket_count: match buckets {
                Some(count) => count as u32,
                None => 16,
            },
            mask_bits: match mask_bits {
                Some(kept) => Some(kept as u8),
                None => None,
            },
            rounds: if survivor_counts {
                8
            } else if fine_csr {
                6
            } else {
                rounds
            },
        };
        match diagnostics.validate(env, edge_bits, rounds) {
            Ok(()) => Ok(diagnostics),
            Err(error) => Err(error),
        }
    }
}

/// Where mining is allowed, no diagnostic is on.
pub proof fn lemma_mining_has_no_diagnostics(env: DiagnosticEnv, edge_bits: u8, rounds: u32)
    requires
        !env.any_set(),
    ensures
        Diagnostics::from_env_result(env, edge_bits, rounds, None) == Ok::<
            Diagnostics,
            Seq<char>,
        >(no_diagnostics(rounds, None)),
{
    let asked = asked_diagnostics(env, rounds, None, None, None, None);
    assert(asked == no_diagnostics(rounds, None));
    assert(asked.refusal(env, edge_bits, rounds) is None);
}

/// Diagnostics that were accepted keep a mask that fits the graph.
pub proof fn lemma_accepted_mask_fits(
    env: DiagnosticEnv,
    edge_bits: u8,
    rounds: u32,
    fine_end_override: Option<u32>,
)
    ensures
        Diagnostics::from_env_result(env, edge_bits, rounds, fine_end_override) matches Ok(
            diagnostics,
        ) ==> diagnostics.masked_bits(edge_bits) <= edge_bits,
{
}

/// Diagnostics are taken exactly where they can run together: one that replaces
/// the search at most, a fine end round from 7 to 64 and only with the fine trim,
/// rounds enough to look at, buckets only for the bucket diagnostic of the largest
/// graph and of a known number, and a mask within the node.
pub proof fn lemma_diagnostics_that_agree_are_taken(
    asked: Diagnostics,
    env: DiagnosticEnv,
    edge_bits: u8,
    rounds: u32,
)
    ensures
        asked.refusal(env, edge_bits, rounds) is None <==> {
            &&& !(asked.siphash_only && asked.bucket_round0)
            &&& !(asked.siphash_only && asked.mask_bits is Some)
            &&& !(asked.bucket_round0 && asked.mask_bits is Some)
            &&& asked.survivor_counts || asked.fine_csr ==> !asked.siphash_only
                && !asked.bucket_round0 && asked.mask_bits is None
            &&& !(asked.survivor_counts && asked.fine_csr)
            &&& env.fine_end_round.set() ==> asked.fine_csr
            &&& asked.fine_csr ==> 7 <= asked.fine_end_round <= 64 && rounds >= 6
            &&& asked.survivor_counts ==> rounds >= 8
            &&& asked.bucket_round0 ==> edge_bits == 32
            &&& env.buckets.set() ==> asked.bucket_round0
            &&& asked.bucket_round0 ==> asked.bucket_count == 16 || asked.bucket_count == 32
                || asked.bucket_count == 64 || asked.bucket_count == 128
            &&& asked.mask_bits is Some ==> 0 < asked.mask_bits->0 <= edge_bits
        },
{
}

/// Diagnostics that were taken are those that the environment asks for, and only
/// survivor counts and the fine trim shorten the trim.
pub proof fn lemma_diagnostics_are_those_asked_for(
    env: DiagnosticEnv,
    edge_bits: u8,
    rounds: u32,
    fine_end: Option<u32>,
)
    requires
        env.enabled,
    ensures
        Diagnostics::from_env_result(env, edge_bits, rounds, fine_end) matches Ok(taken) ==> {
            &&& taken.per_round == env.per_round.set()
            &&& taken.siphash_only == env.siphash_only.set()
            &&& taken.bucket_round0 == env.bucket_round0.set()
            &&& taken.survivor_counts == env.survivor_counts.set()
            &&& taken.early_phases == env.early_phases.set()
            &&& taken.slean_phases == env.slean_phases.set()
            &&& taken.fine_csr == (fine_end is Some || env.fine_csr.set())
            &&& fine_end is Some ==> taken.fine_end_round == fine_end->0
            &&& !taken.survivor_counts && !taken.fine_csr ==> taken.rounds == rounds
            &&& taken.survivor_counts ==> taken.rounds == 8
            &&& taken.fine_csr ==> taken.rounds == 6
        },
{
}

/// The numbers of diagnostics that were taken are those that the environment
/// writes: 16 buckets and the fine end at round 64 where it writes none, and no
/// mask.
pub proof fn lemma_diagnostic_numbers_are_read(
    env: DiagnosticEnv,
    edge_bits: u8,
    rounds: u32,
    fine_end: Option<u32>,
)
    requires
        env.enabled,
    ensures
        Diagnostics::from_env_result(env, edge_bits, rounds, fine_end) matches Ok(taken) ==> {
            &&& match env.buckets {
                Variable::Text(value) => text::parsed(value@, u32::MAX as u64) == Ok::<
                    u64,
                    text::ParseFailure,
                >(taken.bucket_count as u64),
                _ => taken.bucket_count == 16,
            }
            &&& match env.node_mask_bits {
                Variable::Text(value) => taken.mask_bits is Some && text::parsed(
                    value@,
                    u8::MAX as u64,
                ) == Ok::<u64, text::ParseFailure>(taken.mask_bits->0 as u64),
                _ => taken.mask_bits is None,
            }
            &&& fine_end is None ==> match env.fine_end_round {
                Variable::Text(value) => text::parsed(value@, u32::MAX as u64) == Ok::<
                    u64,
                    text::ParseFailure,
                >(taken.fine_end_round as u64),
                _ => taken.fine_end_round == 64,
            }
        },
{
    match env.buckets {
        Variable::Text(value) => text::lemma_parsed_fits(value@, u32::MAX as u64),
        _ => {},
    }
    match env.node_mask_bits {
        Variable::Text(value) => text::lemma_parsed_fits(value@, u8::MAX as u64),
        _ => {},
    }
    match env.fine_end_round {
        Variable::Text(value) => text::lemma_parsed_fits(value@, u32::MAX as u64),
        _ => {},
    }
}

} // verus!
