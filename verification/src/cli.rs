//! What the command line asks for.

use crate::bits;
use crate::solver::TrimmingMode;
use crate::text;
use vstd::arithmetic::power2;
use vstd::prelude::*;

verus! {

/// The backends that can be asked for.
#[derive(Debug, Clone, Copy, PartialEq, Eq, Structural)]
pub enum Backend {
    Auto,
    Metal,
    Cpu,
    Wgpu,
}

impl Backend {
    /// The backend of a name.
    pub open spec fn named(name: Seq<char>) -> Option<Backend> {
        if name == "auto"@ {
            Some(Backend::Auto)
        } else if name == "metal"@ {
            Some(Backend::Metal)
        } else if name == "cpu"@ {
            Some(Backend::Cpu)
        } else if name == "wgpu"@ || name == "gpu"@ {
            Some(Backend::Wgpu)
        } else {
            None
        }
    }

    /// The backend of a name, if there is one.  `gpu` is another name of `wgpu`.
    pub fn from_name(name: &str) -> (backend: Option<Backend>)
        ensures
            backend == Backend::named(name@),
    {
        let name = String::from_str(name);
        if name.eq(&String::from_str("auto")) {
            Some(Backend::Auto)
        } else if name.eq(&String::from_str("metal")) {
            Some(Backend::Metal)
        } else if name.eq(&String::from_str("cpu")) {
            Some(Backend::Cpu)
        } else if name.eq(&String::from_str("wgpu")) || name.eq(&String::from_str("gpu")) {
            Some(Backend::Wgpu)
        } else {
            None
        }
    }
}

/// The command line.
#[derive(Debug)]
pub struct Cli {
    pub command: Command,
}

/// What to do.
#[derive(Debug)]
pub enum Command {
    /// Mine jobs from a Grin Stratum V1 server.
    Mine(MineArgs),
    /// Run a deterministic pre_pow/nonce range without Stratum.
    Gate(GateArgs),
}

/// How graphs are searched.
#[derive(Debug, Clone, Copy)]
pub struct SolverArgs {
    pub backend: Backend,
    pub edge_bits: u8,
    pub cycle_length: usize,
    pub rounds: u32,
    pub trimming: TrimmingMode,
    pub slean_parts: u32,
    pub local_ram_kib: u32,
}

/// How to mine.
#[derive(Debug)]
pub struct MineArgs {
    pub solver: SolverArgs,
    pub node_host: String,
    pub node_port: u16,
    pub login: String,
    pub password: String,
    pub max_graphs: u64,
    pub nonce_start: u64,
}

/// Which range of nonces to run.
#[derive(Debug)]
pub struct GateArgs {
    pub solver: SolverArgs,
    pub pre_pow: String,
    pub nonce_start: u64,
    pub count: u64,
}

/// What is wrong with a text that should be a power of two, at least 2.
pub open spec fn power_of_two_error(value: Seq<char>) -> Option<Seq<char>> {
    match text::parsed(value, u32::MAX as u64) {
        Err(failure) => Some("expected an integer: "@ + failure.message_text()),
        Ok(parsed) => if parsed < 2 || !bits::is_power_of_two(parsed as nat) {
            Some("value must be a power of two and at least 2"@)
        } else {
            None
        },
    }
}

/// Reads a power of two that is at least 2.
pub fn parse_power_of_two(value: &str) -> (result: Result<u32, String>)
    ensures
        match result {
            Ok(parsed) => {
                &&& power_of_two_error(value@) is None
                &&& text::parsed(value@, u32::MAX as u64) == Ok::<u64, text::ParseFailure>(
                    parsed as u64,
                )
            },
            Err(message) => power_of_two_error(value@) == Some(message@),
        },
{
    match text::parse_unsigned(value, u32::MAX as u64) {
        Err(failure) => Err(String::from_str("expected an integer: ").concat(failure.message())),
        Ok(parsed) => {
            if parsed < 2 || !bits::check_power_of_two(parsed) {
                return Err(String::from_str("value must be a power of two and at least 2"));
            }
            Ok(parsed as u32)
        },
    }
}

/// The largest graph that is left to the CPU where no GPU can be used.
pub const CPU_FALLBACK_EDGE_BITS: u8 = 28;

/// The smallest graph that native Metal is chosen for by itself.
pub const METAL_MIN_EDGE_BITS: u8 = 18;

/// A backend that is tried.
#[derive(Debug, Clone, Copy, PartialEq, Eq, Structural)]
pub enum Attempt {
    Metal,
    Wgpu,
    Cpu,
}

/// The backend that is tried first.
pub open spec fn tried_first(args: SolverArgs, native_metal: bool) -> Attempt {
    match args.backend {
        Backend::Auto => if native_metal && args.edge_bits >= METAL_MIN_EDGE_BITS && args.trimming
            != TrimmingMode::Lean {
            Attempt::Metal
        } else {
            Attempt::Wgpu
        },
        Backend::Metal => Attempt::Metal,
        Backend::Cpu => Attempt::Cpu,
        Backend::Wgpu => Attempt::Wgpu,
    }
}

/// The backend that is tried first, given whether this machine has native
/// Metal.
pub fn first_attempt(args: &SolverArgs, native_metal: bool) -> (attempt: Attempt)
    ensures
        attempt == tried_first(*args, native_metal),
{
    match args.backend {
        Backend::Auto => {
            if native_metal && args.edge_bits >= METAL_MIN_EDGE_BITS && args.trimming
                != TrimmingMode::Lean {
                Attempt::Metal
            } else {
                Attempt::Wgpu
            }
        },
        Backend::Metal => Attempt::Metal,
        Backend::Cpu => Attempt::Cpu,
        Backend::Wgpu => Attempt::Wgpu,
    }
}

/// The backend that is tried once another has failed.
pub open spec fn tried_after(args: SolverArgs, failed: Attempt) -> Option<Attempt> {
    if args.backend != Backend::Auto {
        None
    } else {
        match failed {
            Attempt::Metal => Some(Attempt::Wgpu),
            Attempt::Wgpu => if args.edge_bits <= CPU_FALLBACK_EDGE_BITS {
                Some(Attempt::Cpu)
            } else {
                None
            },
            Attempt::Cpu => None,
        }
    }
}

/// The backend that is tried once another has failed.  Only the automatic
/// choice has one, and it leaves to the CPU only what fits it.
pub fn next_attempt(args: &SolverArgs, failed: Attempt) -> (attempt: Option<Attempt>)
    ensures
        attempt == tried_after(*args, failed),
{
    if args.backend != Backend::Auto {
        return None;
    }
    match failed {
        Attempt::Metal => Some(Attempt::Wgpu),
        Attempt::Wgpu => {
            if args.edge_bits <= CPU_FALLBACK_EDGE_BITS {
                Some(Attempt::Cpu)
            } else {
                None
            }
        },
        Attempt::Cpu => None,
    }
}

/// A backend that was asked for by name is the only one that is tried.
pub proof fn lemma_named_backend_is_kept(args: SolverArgs, native_metal: bool)
    requires
        args.backend != Backend::Auto,
    ensures
        tried_after(args, tried_first(args, native_metal)) is None,
{
}

/// The automatic choice never gives the CPU a graph above its limit.
pub proof fn lemma_cpu_gets_small_graphs(args: SolverArgs, native_metal: bool, failed: Attempt)
    requires
        args.backend == Backend::Auto,
        args.edge_bits > CPU_FALLBACK_EDGE_BITS,
    ensures
        tried_first(args, native_metal) != Attempt::Cpu,
        tried_after(args, failed) != Some(Attempt::Cpu),
{
}

/// Native Metal is never chosen for lean trimming by itself.
pub proof fn lemma_metal_is_not_chosen_for_lean(args: SolverArgs, native_metal: bool)
    requires
        args.backend == Backend::Auto,
        args.trimming == TrimmingMode::Lean,
    ensures
        tried_first(args, native_metal) == Attempt::Wgpu,
{
}

/// The automatic choice tries a GPU first: native Metal where there is one, the
/// graph has at least 18 edge bits and the trimming is not lean, and else wgpu.
/// After Metal it tries wgpu, and after wgpu the CPU exactly for graphs of up to
/// 28 edge bits.
pub proof fn lemma_automatic_choice_tries_what_fits(args: SolverArgs, native_metal: bool)
    requires
        args.backend == Backend::Auto,
    ensures
        tried_first(args, native_metal) == Attempt::Metal <==> native_metal && args.edge_bits >= 18
            && args.trimming != TrimmingMode::Lean,
        tried_first(args, native_metal) != Attempt::Metal ==> tried_first(args, native_metal)
            == Attempt::Wgpu,
        tried_after(args, Attempt::Metal) == Some(Attempt::Wgpu),
        tried_after(args, Attempt::Wgpu) == Some(Attempt::Cpu) <==> args.edge_bits <= 28,
        tried_after(args, Attempt::Wgpu) is None <==> args.edge_bits > 28,
        tried_after(args, Attempt::Cpu) is None,
{
}

/// A backend that was asked for by name is the one that is tried.
pub proof fn lemma_named_backend_is_tried(args: SolverArgs, native_metal: bool)
    ensures
        args.backend == Backend::Metal ==> tried_first(args, native_metal) == Attempt::Metal,
        args.backend == Backend::Cpu ==> tried_first(args, native_metal) == Attempt::Cpu,
        args.backend == Backend::Wgpu ==> tried_first(args, native_metal) == Attempt::Wgpu,
{
}

/// Exactly the powers of two from 2 to 2^31 are taken where one is asked for, in
/// decimal.
pub proof fn lemma_every_power_of_two_is_taken(value: u32)
    ensures
        power_of_two_error(text::decimal(value as nat)) is None <==> exists|k: nat|
            0 < k < 32 && value == #[trigger] power2::pow2(k),
{
    text::lemma_decimal_round_trip(value as u64, u32::MAX as u64);
    power2::lemma2_to64();
    if value >= 2 && bits::is_power_of_two(value as nat) {
        let k = choose|k: nat| value as nat == #[trigger] power2::pow2(k);
        if k >= 32 {
            if k > 32 {
                power2::lemma_pow2_strictly_increases(32, k);
            }
            assert(false);
        }
        assert(0 < k < 32 && value == power2::pow2(k));
    }
    assert forall|k: nat| 0 < k < 32 && value == #[trigger] power2::pow2(k) implies value >= 2
        && bits::is_power_of_two(value as nat) by {
        power2::lemma_pow2_unfold(k);
        power2::lemma_pow2_pos((k - 1) as nat);
    }
}

/// The backends have the names `auto`, `metal`, `cpu` and `wgpu`, the last one
/// `gpu` too, and there are no others.
pub proof fn lemma_backends_have_their_names(name: Seq<char>)
    ensures
        Backend::named(name) == Some(Backend::Auto) <==> name == "auto"@,
        Backend::named(name) == Some(Backend::Metal) <==> name == "metal"@,
        Backend::named(name) == Some(Backend::Cpu) <==> name == "cpu"@,
        Backend::named(name) == Some(Backend::Wgpu) <==> name == "wgpu"@ || name == "gpu"@,
{
    reveal_strlit("auto");
    reveal_strlit("metal");
    reveal_strlit("cpu");
    reveal_strlit("wgpu");
    reveal_strlit("gpu");
    assert("auto"@[0] != "wgpu"@[0]);
    assert("cpu"@[0] != "gpu"@[0]);
}

} // verus!
