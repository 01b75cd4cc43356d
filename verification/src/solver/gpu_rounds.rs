//! The order of the portable GPU backend's work: which rounds it runs, and the
//! commands of each.

use crate::solver::gpu_diagnostics::Diagnostics;
use crate::solver::gpu_wgpu::{
    ProductionModes, SleanSizing, BUCKETED_MARK_BUCKETS, BUCKETED_MARK_ROUNDS, DISPATCH_GROUPS,
};
use vstd::prelude::*;

verus! {

/// The rounds that are sent to the device at once where nothing watches them.
pub const ROUNDS_PER_SUBMISSION: u32 = 16;

/// The round after which a verdict is tried first.
pub const EARLY_VERDICT_ROUND: u32 = 128;

/// How the rounds of a trim follow each other.
#[derive(Debug, Clone, Copy, PartialEq, Eq, Structural)]
pub struct RoundPlan {
    pub rounds: u32,
    pub modes: ProductionModes,
    pub bucket_rounds: u32,
    pub fine_transition_round: u32,
    pub fine_end_round: u32,
    pub sharded_fine_seed: bool,
    pub one_at_a_time: bool,
    pub survivor_counts: bool,
    pub fine_csr: bool,
    pub node_mask: bool,
}

impl RoundPlan {
    /// The plan of a trim.
    pub open spec fn of(
        modes: ProductionModes,
        diagnostics: Diagnostics,
        live_work: bool,
    ) -> RoundPlan {
        let transition: u32 = if modes.fine {
            if modes.slean {
                3
            } else {
                2
            }
        } else {
            6
        };
        RoundPlan {
            rounds: diagnostics.rounds,
            modes,
            bucket_rounds: if modes.fine {
                transition
            } else {
                BUCKETED_MARK_ROUNDS
            },
            fine_transition_round: transition,
            fine_end_round: if modes.fine {
                diagnostics.rounds
            } else {
                diagnostics.fine_end_round
            },
            sharded_fine_seed: modes.fine && transition == 2,
            one_at_a_time: diagnostics.per_round || diagnostics.survivor_counts
                || diagnostics.fine_csr || live_work,
            survivor_counts: diagnostics.survivor_counts,
            fine_csr: diagnostics.fine_csr,
            node_mask: diagnostics.mask_bits is Some,
        }
    }

    /// The plan of a trim.
    pub fn new(modes: ProductionModes, diagnostics: &Diagnostics, live_work: bool) -> (plan:
        RoundPlan)
        ensures
            plan == RoundPlan::of(modes, *diagnostics, live_work),
    {
        let transition: u32 = if modes.fine {
            if modes.slean {
                3
            } else {
                2
            }
        } else {
            6
        };
        RoundPlan {
            rounds: diagnostics.rounds,
            modes,
            bucket_rounds: if modes.fine {
                transition
            } else {
                BUCKETED_MARK_ROUNDS
            },
            fine_transition_round: transition,
            fine_end_round: if modes.fine {
                diagnostics.rounds
            } else {
                diagnostics.fine_end_round
            },
            sharded_fine_seed: modes.fine && transition == 2,
            one_at_a_time: diagnostics.per_round || diagnostics.survivor_counts
                || diagnostics.fine_csr || live_work,
            survivor_counts: diagnostics.survivor_counts,
            fine_csr: diagnostics.fine_csr,
            node_mask: diagnostics.mask_bits.is_some(),
        }
    }
}

/// What a trim does next.
#[derive(Debug, Clone, Copy, PartialEq, Eq, Structural)]
pub enum RoundAction {
    /// One round in parts.
    Dense(u32),
    /// One bucketed round.
    Bucketed(u32),
    /// Direct rounds from the first up to the second.
    Lean(u32, u32),
    /// All rounds are done.
    Finish(Ending),
}

/// What a trim ends with.
#[derive(Debug, Clone, Copy, PartialEq, Eq, Structural)]
pub enum Ending {
    /// The bitmap of living edges is read.
    Survivors,
    /// The survivor counts have been reported.
    SurvivorCounts,
    /// The compact arena has been compared.
    FineCsr,
    /// The effect of a node mask has been measured.
    NodeMask,
    /// Only hashes were computed.
    SipHash,
    /// Only the first marking was measured.
    BucketRound0,
}

impl Ending {
    /// What a diagnostic that replaced the search says.
    pub open spec fn message_text(self) -> Option<Seq<char>> {
        match self {
            Ending::Survivors => None,
            Ending::SurvivorCounts => Some("round-4/6/8 survivor-count diagnostic complete"@),
            Ending::FineCsr => Some("round-6 compact fine-CSR diagnostic complete"@),
            Ending::NodeMask => Some("node-mask locality diagnostic complete"@),
            Ending::SipHash => Some("SipHash-only diagnostic complete"@),
            Ending::BucketRound0 => Some("chunked round-0 bucket marking diagnostic complete"@),
        }
    }

    /// What a diagnostic that replaced the search says.
    pub fn message(&self) -> (message: Option<&'static str>)
        ensures
            match message {
                Some(message) => self.message_text() == Some(message@),
                None => self.message_text() is None,
            },
    {
        match self {
            Ending::Survivors => None,
            Ending::SurvivorCounts => Some("round-4/6/8 survivor-count diagnostic complete"),
            Ending::FineCsr => Some("round-6 compact fine-CSR diagnostic complete"),
            Ending::NodeMask => Some("node-mask locality diagnostic complete"),
            Ending::SipHash => Some("SipHash-only diagnostic complete"),
            Ending::BucketRound0 => Some("chunked round-0 bucket marking diagnostic complete"),
        }
    }
}

/// The diagnostic that is run in place of all rounds.
pub open spec fn replacement(diagnostics: Diagnostics) -> Option<Ending> {
    if diagnostics.siphash_only {
        Some(Ending::SipHash)
    } else if diagnostics.bucket_round0 {
        Some(Ending::BucketRound0)
    } else {
        None
    }
}

/// The diagnostic that is run in place of all rounds.
pub fn replacing_diagnostic(diagnostics: &Diagnostics) -> (ending: Option<Ending>)
    ensures
        ending == replacement(*diagnostics),
{
    if diagnostics.siphash_only {
        Some(Ending::SipHash)
    } else if diagnostics.bucket_round0 {
        Some(Ending::BucketRound0)
    } else {
        None
    }
}

impl RoundPlan {
    /// The end of a batch of direct rounds.
    pub open spec fn batch_end(self, first: u32) -> u32 {
        let size: int = if self.one_at_a_time {
            1
        } else {
            ROUNDS_PER_SUBMISSION as int
        };
        if first + size <= self.rounds {
            (first + size) as u32
        } else {
            self.rounds
        }
    }

    /// What is done once `round` rounds are complete.
    pub open spec fn action(self, round: u32) -> RoundAction {
        if round >= self.rounds {
            RoundAction::Finish(
                if self.survivor_counts {
                    Ending::SurvivorCounts
                } else if self.fine_csr {
                    Ending::FineCsr
                } else if self.node_mask {
                    Ending::NodeMask
                } else {
                    Ending::Survivors
                },
            )
        } else if self.modes.slean && round < self.bucket_rounds {
            RoundAction::Dense(round)
        } else if self.modes.bucketed_mark && !self.modes.slean && round < self.bucket_rounds {
            RoundAction::Bucketed(round)
        } else {
            RoundAction::Lean(round, self.batch_end(round))
        }
    }

    /// What is done once `round` rounds are complete.
    pub fn next(&self, round: u32) -> (action: RoundAction)
        ensures
            action == self.action(round),
    {
        if round >= self.rounds {
            let ending = if self.survivor_counts {
                Ending::SurvivorCounts
            } else if self.fine_csr {
                Ending::FineCsr
            } else if self.node_mask {
                Ending::NodeMask
            } else {
                Ending::Survivors
            };
            return RoundAction::Finish(ending);
        }
        if self.modes.slean && round < self.bucket_rounds {
            return RoundAction::Dense(round);
        }
        if self.modes.bucketed_mark && !self.modes.slean && round < self.bucket_rounds {
            return RoundAction::Bucketed(round);
        }
        let size: u32 = if self.one_at_a_time {
            1
        } else {
            ROUNDS_PER_SUBMISSION
        };
        let end: u32 = if self.rounds - round >= size {
            round + size
        } else {
            self.rounds
        };
        RoundAction::Lean(round, end)
    }

    /// The rounds that are complete after an action.
    pub open spec fn done_after(self, action: RoundAction) -> int {
        match action {
            RoundAction::Dense(round) => round + 1,
            RoundAction::Bucketed(round) => round + 1,
            RoundAction::Lean(_, end) => end as int,
            RoundAction::Finish(_) => self.rounds as int,
        }
    }

    /// Whether the survivors are counted after a round.
    pub open spec fn counts_after(self, completed: u32) -> bool {
        self.survivor_counts && (completed == 1 || completed == 2 || completed == 3 || completed
            == 4 || completed == 6 || completed == 8)
    }

    /// Whether the survivors are counted after a round.
    pub fn counts_survivors(&self, completed: u32) -> (result: bool)
        ensures
            result == self.counts_after(completed),
    {
        self.survivor_counts && (completed == 1 || completed == 2 || completed == 3 || completed
            == 4 || completed == 6 || completed == 8)
    }

    /// Whether the trim goes on in a compact arena after a round.
    pub open spec fn goes_fine(self, completed: u32) -> bool {
        (self.fine_csr || self.modes.fine) && completed == self.fine_transition_round && completed
            < self.fine_end_round
    }

    /// Whether the trim goes on in a compact arena after a round.
    pub fn starts_fine(&self, completed: u32) -> (result: bool)
        ensures
            result == self.goes_fine(completed),
    {
        (self.fine_csr || self.modes.fine) && completed == self.fine_transition_round && completed
            < self.fine_end_round
    }
}

/// Every action before the end completes at least one further round and never
/// goes past the last.
pub proof fn lemma_rounds_advance(plan: RoundPlan, round: u32)
    requires
        round < plan.rounds,
    ensures
        !(plan.action(round) is Finish),
        round < plan.done_after(plan.action(round)) <= plan.rounds,
{
}

/// A trim that watches for newer work, or reports each round, never runs two
/// rounds at once.
pub proof fn lemma_watched_rounds_are_single(
    modes: ProductionModes,
    diagnostics: Diagnostics,
    round: u32,
)
    requires
        round < diagnostics.rounds,
    ensures
        RoundPlan::of(modes, diagnostics, true).done_after(
            RoundPlan::of(modes, diagnostics, true).action(round),
        ) == round + 1,
{
}

/// Where a compact arena takes over, the trim gets there: no batch of direct
/// rounds jumps over the round after which it does.
pub proof fn lemma_transition_is_met(modes: ProductionModes, diagnostics: Diagnostics, round: u32)
    requires
        modes.fine,
        modes.bucketed_mark,
        diagnostics.rounds > BUCKETED_MARK_ROUNDS,
        round < RoundPlan::of(modes, diagnostics, false).fine_transition_round,
    ensures
        ({
            let plan = RoundPlan::of(modes, diagnostics, false);
            &&& plan.done_after(plan.action(round)) == round + 1
            &&& plan.goes_fine(plan.fine_transition_round)
        }),
{
}

/// What a trim does before its next action.
#[derive(Debug, Clone, Copy, PartialEq, Eq, Structural)]
pub enum TrimStep {
    /// Newer work has come: the trim ends without survivors.
    Stop,
    /// Go on with an action.
    Go(RoundAction),
}

/// What follows an action.
#[derive(Debug, Clone, Copy, PartialEq, Eq, Structural)]
pub enum AfterAction {
    /// Newer work has come: the trim ends without survivors.
    Stop,
    /// The rounds so far are complete: what is counted and whether the trim
    /// goes on in a compact arena.
    Completed { round: u32, count_survivors: bool, start_fine: bool },
}

/// A trim on its way through its rounds.
#[derive(Debug, Clone, Copy, PartialEq, Eq, Structural)]
pub struct TrimRun {
    pub plan: RoundPlan,
    pub round: u32,
}

impl TrimRun {
    /// A trim before its first round.
    pub fn new(plan: RoundPlan) -> (run: TrimRun)
        ensures
            run == (TrimRun { plan, round: 0 }),
    {
        TrimRun { plan, round: 0 }
    }

    /// What comes next, given whether newer work has come.  It is not asked for
    /// any more once all rounds are complete.
    pub open spec fn step(self, cancelled: bool) -> TrimStep {
        if cancelled && self.round < self.plan.rounds {
            TrimStep::Stop
        } else {
            TrimStep::Go(self.plan.action(self.round))
        }
    }

    /// What comes next, given whether newer work has come.
    pub fn next(&self, cancelled: bool) -> (step: TrimStep)
        ensures
            step == self.step(cancelled),
    {
        if cancelled && self.round < self.plan.rounds {
            TrimStep::Stop
        } else {
            TrimStep::Go(self.plan.next(self.round))
        }
    }

    /// Takes an action as done, given whether it ran to its end and whether
    /// newer work has come.
    pub fn acted(&mut self, finished: bool, cancelled: bool) -> (after: AfterAction)
        requires
            old(self).round < old(self).plan.rounds,
        ensures
            final(self).plan == old(self).plan,
            ({
                let done = old(self).plan.done_after(old(self).plan.action(old(self).round));
                if !finished {
                    after is Stop && final(self).round == old(self).round
                } else {
                    &&& final(self).round == done
                    &&& after == (if cancelled {
                        AfterAction::Stop
                    } else {
                        AfterAction::Completed {
                            round: done as u32,
                            count_survivors: old(self).plan.counts_after(done as u32),
                            start_fine: old(self).plan.goes_fine(done as u32),
                        }
                    })
                }
            }),
            old(self).round <= final(self).round <= final(self).plan.rounds,
            after is Completed ==> old(self).round < final(self).round,
    {
        if !finished {
            return AfterAction::Stop;
        }
        proof {
            lemma_rounds_advance(self.plan, self.round);
        }
        self.round = match self.plan.next(self.round) {
            RoundAction::Dense(round) => round + 1,
            RoundAction::Bucketed(round) => round + 1,
            RoundAction::Lean(_, end) => end,
            RoundAction::Finish(_) => self.plan.rounds,
        };
        if cancelled {
            return AfterAction::Stop;
        }
        AfterAction::Completed {
            round: self.round,
            count_survivors: self.plan.counts_survivors(self.round),
            start_fine: self.plan.starts_fine(self.round),
        }
    }
}

/// A trim that newer work overtakes ends without survivors: before its last
/// round is complete it neither begins a further action nor reads what is left.
pub proof fn lemma_cancelled_trim_stops(run: TrimRun)
    requires
        run.round < run.plan.rounds,
    ensures
        run.step(true) is Stop,
        !(run.step(false) is Stop),
        forall|ending: Ending| run.step(false) != TrimStep::Go(RoundAction::Finish(ending)),
{
}

/// The buffers that the commands speak of.  The scratch buffer is also the
/// first of the four arenas of a round in parts.
#[derive(Debug, Clone, Copy, PartialEq, Eq, Structural)]
pub enum Buffer {
    Edges,
    Nodes,
    Backup,
    Scratch,
    Second,
    Third,
    Fourth,
    Dead,
}

/// The shader entry points that the commands run.
#[derive(Debug, Clone, Copy, PartialEq, Eq, Structural)]
pub enum Kernel {
    ClearNodes,
    MarkNodes,
    TrimEdges,
    BucketScatterDenseStaged,
    BucketScatterAlive,
    BucketScatterDensePairsStaged,
    BucketScatterAlivePairs,
    BucketMark,
    BucketTrimPairs,
    SleanScatterDense,
    SleanScatterAlive,
    SleanMark,
    SleanTrim,
    SleanMarkAndTrimFinal,
    SleanApplyDeaths,
}

/// The parameters that a command runs with.
#[derive(Debug, Clone, Copy, PartialEq, Eq, Structural)]
pub enum Binding {
    /// The whole of a side.
    Side(u32),
    /// A part of a side.
    Part(u32, u64),
    /// A chunk of a side.
    Chunk(u32, u64),
    /// A bucket of a side.
    Bucket(u32, u32),
}

/// One thing to do on the device.
#[derive(Debug, Clone, Copy, PartialEq, Eq, Structural)]
pub enum Command {
    /// Fill a buffer with zeros.
    Clear(Buffer),
    /// Fill the first bytes of a buffer with zeros.
    ClearBytes(Buffer, u64),
    /// Copy a bitmap from one buffer to another.
    Copy(Buffer, Buffer),
    /// Run an entry point with so many workgroups.
    Run(Kernel, Binding, u32),
    /// Stop here where newer work has come.
    Poll,
    /// Send the commands so far to the device.
    Submit,
}

/// The side that a round trims.
pub open spec fn side_of(round: u32) -> u32 {
    round % 2
}

/// The commands of one direct round.
pub open spec fn lean_round(round: u32, groups: u32) -> Seq<Command> {
    let side = Binding::Side(side_of(round));
    seq![
        Command::Run(Kernel::ClearNodes, side, groups),
        Command::Run(Kernel::MarkNodes, side, groups),
        Command::Run(Kernel::TrimEdges, side, groups),
    ]
}

/// The commands of direct rounds.
pub open spec fn lean_rounds(first: u32, end: u32, groups: u32) -> Seq<Command>
    decreases end - first,
{
    if first >= end {
        Seq::empty()
    } else {
        lean_rounds(first, (end - 1) as u32, groups) + lean_round((end - 1) as u32, groups)
    }
}

fn push_lean_round(commands: &mut Vec<Command>, round: u32, groups: u32)
    ensures
        final(commands)@ == old(commands)@ + lean_round(round, groups),
{
    let side = Binding::Side(round % 2);
    commands.push(Command::Run(Kernel::ClearNodes, side, groups));
    commands.push(Command::Run(Kernel::MarkNodes, side, groups));
    commands.push(Command::Run(Kernel::TrimEdges, side, groups));
    assert(commands@ =~= old(commands)@ + lean_round(round, groups));
}

/// The commands of direct rounds: each clears the node bitmap, marks the nodes
/// of the living edges and takes the edges away that meet no mark.
pub fn encode_lean_rounds(first: u32, end: u32, groups: u32) -> (commands: Vec<Command>)
    ensures
        commands@ == lean_rounds(first, end, groups),
{
    let mut commands: Vec<Command> = Vec::new();
    let mut round: u32 = first;
    while round < end
        invariant
            first <= round,
            first <= end ==> round <= end,
            first >= end ==> round == first,
            commands@ == lean_rounds(first, round, groups),
        decreases end - round,
    {
        push_lean_round(&mut commands, round, groups);
        round = round + 1;
    }
    commands
}

/// The entry point that lists the edges of a part.
pub open spec fn part_scatter(round: u32) -> Kernel {
    if round == 0 {
        Kernel::SleanScatterDense
    } else {
        Kernel::SleanScatterAlive
    }
}

fn part_scatter_of(round: u32) -> (kernel: Kernel)
    ensures
        kernel == part_scatter(round),
{
    if round == 0 {
        Kernel::SleanScatterDense
    } else {
        Kernel::SleanScatterAlive
    }
}

/// Commands that clear the start of all four arenas.
pub open spec fn clear_arenas(bytes: u64) -> Seq<Command> {
    seq![
        Command::ClearBytes(Buffer::Scratch, bytes),
        Command::ClearBytes(Buffer::Second, bytes),
        Command::ClearBytes(Buffer::Third, bytes),
        Command::ClearBytes(Buffer::Fourth, bytes),
    ]
}

fn push_clear_arenas(commands: &mut Vec<Command>, bytes: u64)
    ensures
        final(commands)@ == old(commands)@ + clear_arenas(bytes),
{
    commands.push(Command::ClearBytes(Buffer::Scratch, bytes));
    commands.push(Command::ClearBytes(Buffer::Second, bytes));
    commands.push(Command::ClearBytes(Buffer::Third, bytes));
    commands.push(Command::ClearBytes(Buffer::Fourth, bytes));
    assert(commands@ =~= old(commands)@ + clear_arenas(bytes));
}

impl SleanSizing {
    /// The bytes of the bucket counts of an arena.
    pub open spec fn count_bytes(self) -> u64 {
        (self.bucket_count / 4 * 4) as u64
    }

    /// The bytes of the bucket counts of the arena of dead edges.
    pub open spec fn dead_count_bytes(self) -> u64 {
        (self.dead_bucket_count * 4) as u64
    }

    /// Whether a round in parts can run: there is a part, and the buckets can
    /// be dispatched.
    pub open spec fn runs(self) -> bool {
        &&& self.parts > 0
        &&& self.bucket_count <= u16::MAX
        &&& self.dead_bucket_count < u32::MAX
    }
}

/// What marks the nodes of one part.  The nodes of the last part are marked
/// where it is trimmed.
pub open spec fn mark_part(round: u32, sizing: SleanSizing, part: int) -> Seq<Command> {
    let binding = Binding::Part(side_of(round), part as u64);
    let seeded = clear_arenas(sizing.count_bytes()).push(
        Command::Run(part_scatter(round), binding, DISPATCH_GROUPS),
    );
    if part + 1 == sizing.parts {
        seeded.push(Command::Poll)
    } else {
        seeded.push(Command::Run(Kernel::SleanMark, binding, sizing.bucket_count as u32)).push(
            Command::Poll,
        )
    }
}

/// What marks the nodes of the first parts.
pub open spec fn mark_parts(round: u32, sizing: SleanSizing, end: int) -> Seq<Command>
    decreases end,
{
    if end <= 0 {
        Seq::empty()
    } else {
        mark_parts(round, sizing, end - 1) + mark_part(round, sizing, end - 1)
    }
}

/// What starts a round in parts.
pub open spec fn mark_start(sizing: SleanSizing) -> Seq<Command> {
    seq![Command::Clear(Buffer::Nodes)] + clear_arenas((sizing.count_bytes() + 4) as u64) + seq![
        Command::ClearBytes(Buffer::Dead, (sizing.dead_count_bytes() + 4) as u64),
    ]
}

/// The commands that mark the nodes in a round in parts.
pub open spec fn slean_mark(round: u32, sizing: SleanSizing) -> Seq<Command> {
    mark_start(sizing) + mark_parts(round, sizing, sizing.parts as int) + seq![Command::Submit]
}

/// The commands that mark the nodes in a round in parts: one part after the
/// other is listed and, but for the last one, marked.
pub fn encode_slean_mark(round: u32, sizing: &SleanSizing) -> (commands: Vec<Command>)
    requires
        sizing.runs(),
    ensures
        commands@ == slean_mark(round, *sizing),
{
    let mut commands: Vec<Command> = Vec::new();
    let side: u32 = round % 2;
    let count_bytes: u64 = sizing.bucket_count / 4 * 4;
    let dead_count_bytes: u64 = sizing.dead_bucket_count * 4;
    commands.push(Command::Clear(Buffer::Nodes));
    push_clear_arenas(&mut commands, count_bytes + 4);
    commands.push(Command::ClearBytes(Buffer::Dead, dead_count_bytes + 4));
    assert(commands@ =~= mark_start(*sizing));
    let scatter = part_scatter_of(round);
    let mut part: u64 = 0;
    while part < sizing.parts
        invariant
            sizing.runs(),
            part <= sizing.parts,
            side == side_of(round),
            scatter == part_scatter(round),
            count_bytes == sizing.count_bytes(),
            commands@ == mark_start(*sizing) + mark_parts(round, *sizing, part as int),
        decreases sizing.parts - part,
    {
        let ghost before = commands@;
        let binding = Binding::Part(side, part);
        push_clear_arenas(&mut commands, count_bytes);
        commands.push(Command::Run(scatter, binding, DISPATCH_GROUPS));
        if part + 1 != sizing.parts {
            commands.push(Command::Run(Kernel::SleanMark, binding, sizing.bucket_count as u32));
        }
        commands.push(Command::Poll);
        assert(commands@ =~= before + mark_part(round, *sizing, part as int));
        part = part + 1;
        assert(commands@ =~= mark_start(*sizing) + mark_parts(round, *sizing, part as int));
    }
    commands.push(Command::Submit);
    assert(commands@ =~= slean_mark(round, *sizing));
    commands
}

/// What trims the last part, which is still listed.
pub open spec fn trim_last_part(round: u32, sizing: SleanSizing) -> Seq<Command> {
    let binding = Binding::Part(side_of(round), (sizing.parts - 1) as u64);
    seq![
        Command::Copy(Buffer::Edges, Buffer::Backup),
        Command::ClearBytes(Buffer::Dead, sizing.dead_count_bytes()),
        Command::Run(Kernel::SleanMarkAndTrimFinal, binding, sizing.bucket_count as u32),
        Command::Run(Kernel::SleanApplyDeaths, binding, sizing.dead_bucket_count as u32),
    ]
}

/// What trims an earlier part, which is listed again.
pub open spec fn trim_part(round: u32, sizing: SleanSizing, part: int) -> Seq<Command> {
    let binding = Binding::Part(side_of(round), part as u64);
    clear_arenas(sizing.count_bytes()) + seq![
        Command::ClearBytes(Buffer::Dead, sizing.dead_count_bytes()),
        Command::Run(part_scatter(round), binding, DISPATCH_GROUPS),
        Command::Run(Kernel::SleanTrim, binding, sizing.bucket_count as u32),
        Command::Run(Kernel::SleanApplyDeaths, binding, sizing.dead_bucket_count as u32),
        Command::Poll,
    ]
}

/// What trims the first parts.
pub open spec fn trim_parts(round: u32, sizing: SleanSizing, end: int) -> Seq<Command>
    decreases end,
{
    if end <= 0 {
        Seq::empty()
    } else {
        trim_parts(round, sizing, end - 1) + trim_part(round, sizing, end - 1)
    }
}

/// The commands that take dead edges away in a round in parts.
pub open spec fn slean_trim(round: u32, sizing: SleanSizing) -> Seq<Command> {
    trim_last_part(round, sizing) + trim_parts(round, sizing, sizing.parts - 1) + seq![
        Command::Submit,
    ]
}

/// The commands that take dead edges away in a round in parts: the living edges
/// are saved, then each part is trimmed, the last one first.
pub fn encode_slean_trim(round: u32, sizing: &SleanSizing) -> (commands: Vec<Command>)
    requires
        sizing.runs(),
    ensures
        commands@ == slean_trim(round, *sizing),
{
    let mut commands: Vec<Command> = Vec::new();
    let side: u32 = round % 2;
    let count_bytes: u64 = sizing.bucket_count / 4 * 4;
    let dead_count_bytes: u64 = sizing.dead_bucket_count * 4;
    let buckets: u32 = sizing.bucket_count as u32;
    let dead_buckets: u32 = sizing.dead_bucket_count as u32;
    let last: u64 = sizing.parts - 1;
    let last_binding = Binding::Part(side, last);
    commands.push(Command::Copy(Buffer::Edges, Buffer::Backup));
    commands.push(Command::ClearBytes(Buffer::Dead, dead_count_bytes));
    commands.push(Command::Run(Kernel::SleanMarkAndTrimFinal, last_binding, buckets));
    commands.push(Command::Run(Kernel::SleanApplyDeaths, last_binding, dead_buckets));
    assert(commands@ =~= trim_last_part(round, *sizing));
    let scatter = part_scatter_of(round);
    let mut part: u64 = 0;
    while part < last
        invariant
            sizing.runs(),
            last == sizing.parts - 1,
            part <= last,
            side == side_of(round),
            scatter == part_scatter(round),
            count_bytes == sizing.count_bytes(),
            dead_count_bytes == sizing.dead_count_bytes(),
            buckets == sizing.bucket_count,
            dead_buckets == sizing.dead_bucket_count,
            commands@ == trim_last_part(round, *sizing) + trim_parts(round, *sizing, part as int),
        decreases last - part,
    {
        let ghost before = commands@;
        let binding = Binding::Part(side, part);
        push_clear_arenas(&mut commands, count_bytes);
        commands.push(Command::ClearBytes(Buffer::Dead, dead_count_bytes));
        commands.push(Command::Run(scatter, binding, DISPATCH_GROUPS));
        commands.push(Command::Run(Kernel::SleanTrim, binding, buckets));
        commands.push(Command::Run(Kernel::SleanApplyDeaths, binding, dead_buckets));
        commands.push(Command::Poll);
        assert(commands@ =~= before + trim_part(round, *sizing, part as int));
        part = part + 1;
        assert(commands@ =~= trim_last_part(round, *sizing) + trim_parts(
            round,
            *sizing,
            part as int,
        ));
    }
    commands.push(Command::Submit);
    assert(commands@ =~= slean_trim(round, *sizing));
    commands
}

/// The edges that found no room, over all arenas.  The sum stops at the
/// largest number of 32 bits.
pub open spec fn total_overflow(words: Seq<u32>) -> u32
    decreases words.len(),
{
    if words.len() == 0 {
        0
    } else if total_overflow(words.drop_last()) + words.last() > u32::MAX {
        u32::MAX
    } else {
        (total_overflow(words.drop_last()) + words.last()) as u32
    }
}

/// Adds up the overflow words of the arenas.
pub fn combined_overflow(words: &Vec<u32>) -> (total: u32)
    ensures
        total == total_overflow(words@),
{
    let mut total: u32 = 0;
    let mut i: usize = 0;
    while i < words.len()
        invariant
            i <= words.len(),
            total == total_overflow(words@.take(i as int)),
        decreases words.len() - i,
    {
        assert(words@.take(i + 1).drop_last() =~= words@.take(i as int));
        total = total.saturating_add(words[i]);
        i = i + 1;
    }
    assert(words@.take(words.len() as int) =~= words@);
    total
}

/// The sum is zero only where every word is.
pub proof fn lemma_no_overflow_anywhere(words: Seq<u32>)
    ensures
        total_overflow(words) == 0 <==> forall|i: int|
            0 <= i < words.len() ==> #[trigger] words[i] == 0,
    decreases words.len(),
{
    if words.len() > 0 {
        lemma_no_overflow_anywhere(words.drop_last());
        if total_overflow(words.drop_last()) == 0 && words.last() == 0 {
            assert forall|i: int| 0 <= i < words.len() implies #[trigger] words[i] == 0 by {
                if i < words.len() - 1 {
                    assert(words.drop_last()[i] == 0);
                }
            }
        }
        if forall|i: int| 0 <= i < words.len() ==> #[trigger] words[i] == 0 {
            assert(words[words.len() - 1] == 0);
            assert forall|i: int| 0 <= i < words.len() - 1 implies #[trigger] words.drop_last()[i]
                == 0 by {
                assert(words[i] == 0);
            }
        }
    }
}

/// What follows a round in parts once its overflow is known.
pub open spec fn slean_finish(round: u32, groups: u32, overflow: u32) -> Seq<Command> {
    if overflow == 0 {
        Seq::empty()
    } else {
        seq![Command::Copy(Buffer::Backup, Buffer::Edges)] + lean_round(round, groups) + seq![
            Command::Submit,
        ]
    }
}

/// The commands that follow a round in parts.  Where edges found no room, the
/// saved edges are brought back and the round is run directly.
pub fn encode_slean_finish(round: u32, groups: u32, overflow: u32) -> (commands: Vec<Command>)
    ensures
        commands@ == slean_finish(round, groups, overflow),
{
    let mut commands: Vec<Command> = Vec::new();
    if overflow != 0 {
        commands.push(Command::Copy(Buffer::Backup, Buffer::Edges));
        assert(commands@ =~= seq![Command::Copy(Buffer::Backup, Buffer::Edges)]);
        push_lean_round(&mut commands, round, groups);
        commands.push(Command::Submit);
        assert(commands@ =~= slean_finish(round, groups, overflow));
    }
    assert(commands@ =~= slean_finish(round, groups, overflow));
    commands
}

/// The entry point that lists the nodes of a chunk.
pub open spec fn chunk_scatter(round: u32) -> Kernel {
    if round == 0 {
        Kernel::BucketScatterDenseStaged
    } else {
        Kernel::BucketScatterAlive
    }
}

/// The entry point that lists the edges of a chunk with their nodes.
pub open spec fn chunk_pair_scatter(round: u32) -> Kernel {
    if round == 0 {
        Kernel::BucketScatterDensePairsStaged
    } else {
        Kernel::BucketScatterAlivePairs
    }
}

/// The bytes of the bucket counts in the scratch buffer.
pub const BUCKET_COUNT_BYTES: u64 = 256;

/// One run of an entry point for each of the first buckets.
pub open spec fn for_buckets(kernel: Kernel, side: u32, end: int) -> Seq<Command> {
    Seq::new(
        end as nat,
        |bucket: int|
            Command::Run(kernel, Binding::Bucket(side, bucket as u32), DISPATCH_GROUPS),
    )
}

fn push_for_buckets(commands: &mut Vec<Command>, kernel: Kernel, side: u32)
    ensures
        final(commands)@ == old(commands)@ + for_buckets(
            kernel,
            side,
            BUCKETED_MARK_BUCKETS as int,
        ),
{
    let mut bucket: u32 = 0;
    assert(commands@ =~= old(commands)@ + for_buckets(kernel, side, 0));
    while bucket < BUCKETED_MARK_BUCKETS
        invariant
            bucket <= BUCKETED_MARK_BUCKETS,
            commands@ == old(commands)@ + for_buckets(kernel, side, bucket as int),
        decreases BUCKETED_MARK_BUCKETS - bucket,
    {
        commands.push(Command::Run(kernel, Binding::Bucket(side, bucket), DISPATCH_GROUPS));
        bucket = bucket + 1;
        assert(commands@ =~= old(commands)@ + for_buckets(kernel, side, bucket as int));
    }
}

/// What a bucketed round does with one chunk: list it, then go through the
/// buckets.
pub open spec fn chunk_commands(
    scatter: Kernel,
    through: Kernel,
    side: u32,
    chunk: int,
) -> Seq<Command> {
    seq![
        Command::ClearBytes(Buffer::Scratch, BUCKET_COUNT_BYTES),
        Command::Run(scatter, Binding::Chunk(side, chunk as u64), DISPATCH_GROUPS),
    ] + for_buckets(through, side, BUCKETED_MARK_BUCKETS as int) + seq![
        Command::Submit,
        Command::Poll,
    ]
}

/// What a bucketed round does with the first chunks.
pub open spec fn chunks_commands(
    scatter: Kernel,
    through: Kernel,
    side: u32,
    end: int,
) -> Seq<Command>
    decreases end,
{
    if end <= 0 {
        Seq::empty()
    } else {
        chunks_commands(scatter, through, side, end - 1) + chunk_commands(
            scatter,
            through,
            side,
            end - 1,
        )
    }
}

fn push_chunks(
    commands: &mut Vec<Command>,
    scatter: Kernel,
    through: Kernel,
    side: u32,
    chunks: u64,
)
    ensures
        final(commands)@ == old(commands)@ + chunks_commands(
            scatter,
            through,
            side,
            chunks as int,
        ),
{
    let mut chunk: u64 = 0;
    assert(commands@ =~= old(commands)@ + chunks_commands(scatter, through, side, 0));
    while chunk < chunks
        invariant
            chunk <= chunks,
            commands@ == old(commands)@ + chunks_commands(scatter, through, side, chunk as int),
        decreases chunks - chunk,
    {
        let ghost before = commands@;
        commands.push(Command::ClearBytes(Buffer::Scratch, BUCKET_COUNT_BYTES));
        commands.push(Command::Run(scatter, Binding::Chunk(side, chunk), DISPATCH_GROUPS));
        push_for_buckets(commands, through, side);
        commands.push(Command::Submit);
        commands.push(Command::Poll);
        assert(commands@ =~= before + chunk_commands(scatter, through, side, chunk as int));
        chunk = chunk + 1;
        assert(commands@ =~= old(commands)@ + chunks_commands(
            scatter,
            through,
            side,
            chunk as int,
        ));
    }
}

/// The commands that mark the nodes in a bucketed round.
pub open spec fn bucket_mark(round: u32, header_words: u64, chunks: u64) -> Seq<Command> {
    seq![
        Command::Clear(Buffer::Nodes),
        Command::ClearBytes(Buffer::Scratch, (header_words * 4) as u64),
        Command::Submit,
    ] + chunks_commands(chunk_scatter(round), Kernel::BucketMark, side_of(round), chunks as int)
}

/// The commands that mark the nodes in a bucketed round, chunk by chunk.
pub fn encode_bucket_mark(round: u32, header_words: u64, chunks: u64) -> (commands: Vec<Command>)
    requires
        header_words <= u32::MAX,
    ensures
        commands@ == bucket_mark(round, header_words, chunks),
{
    let mut commands: Vec<Command> = Vec::new();
    commands.push(Command::Clear(Buffer::Nodes));
    commands.push(Command::ClearBytes(Buffer::Scratch, header_words * 4));
    commands.push(Command::Submit);
    let scatter = if round == 0 {
        Kernel::BucketScatterDenseStaged
    } else {
        Kernel::BucketScatterAlive
    };
    push_chunks(&mut commands, scatter, Kernel::BucketMark, round % 2, chunks);
    assert(commands@ =~= bucket_mark(round, header_words, chunks));
    commands
}

/// The commands that take dead edges away in a bucketed round.
pub open spec fn bucket_trim(round: u32, chunks: u64) -> Seq<Command> {
    chunks_commands(
        chunk_pair_scatter(round),
        Kernel::BucketTrimPairs,
        side_of(round),
        chunks as int,
    )
}

/// The commands that take dead edges away in a bucketed round, chunk by chunk.
pub fn encode_bucket_trim(round: u32, chunks: u64) -> (commands: Vec<Command>)
    ensures
        commands@ == bucket_trim(round, chunks),
{
    let mut commands: Vec<Command> = Vec::new();
    let scatter = if round == 0 {
        Kernel::BucketScatterDensePairsStaged
    } else {
        Kernel::BucketScatterAlivePairs
    };
    push_chunks(&mut commands, scatter, Kernel::BucketTrimPairs, round % 2, chunks);
    assert(commands@ =~= bucket_trim(round, chunks));
    commands
}

/// What follows a bucketed round once its overflow is known.
pub open spec fn bucket_finish(round: u32, groups: u32, overflow: u32) -> Seq<Command> {
    if overflow == 0 {
        Seq::empty()
    } else {
        lean_round(round, groups).push(Command::Submit)
    }
}

/// The commands that follow a bucketed round.  Where nodes found no room, the
/// round is run directly.
pub fn encode_bucket_finish(round: u32, groups: u32, overflow: u32) -> (commands: Vec<Command>)
    ensures
        commands@ == bucket_finish(round, groups, overflow),
{
    let mut commands: Vec<Command> = Vec::new();
    if overflow != 0 {
        push_lean_round(&mut commands, round, groups);
        commands.push(Command::Submit);
    }
    assert(commands@ =~= bucket_finish(round, groups, overflow));
    commands
}

/// Rounds of the plain kind go in batches of sixteen, or one by one where each is
/// watched, and never past the last.
pub proof fn lemma_batches_are_full(plan: RoundPlan, first: u32)
    requires
        first < plan.rounds,
    ensures
        first < plan.batch_end(first) <= plan.rounds,
        plan.one_at_a_time ==> plan.batch_end(first) == first + 1,
        !plan.one_at_a_time ==> plan.batch_end(first) == first + 16 || plan.batch_end(first)
            == plan.rounds,
        !plan.one_at_a_time && first + 16 <= plan.rounds ==> plan.batch_end(first) == first + 16,
{
}

/// A plan without diagnostics runs all rounds that were asked for and ends with
/// the survivors.
pub proof fn lemma_plain_plans_end_with_survivors(
    modes: ProductionModes,
    diagnostics: Diagnostics,
    live_work: bool,
    round: u32,
)
    requires
        !diagnostics.survivor_counts,
        !diagnostics.fine_csr,
        diagnostics.mask_bits is None,
    ensures
        ({
            let plan = RoundPlan::of(modes, diagnostics, live_work);
            &&& plan.rounds == diagnostics.rounds
            &&& plan.modes == modes
            &&& plan.action(round) is Finish <==> round >= diagnostics.rounds
            &&& round >= diagnostics.rounds ==> plan.action(round) == RoundAction::Finish(
                Ending::Survivors,
            )
            &&& live_work ==> plan.one_at_a_time
            &&& modes.fine ==> plan.fine_end_round == diagnostics.rounds
        }),
{
}

/// Edges that did not fit are reported as long as any word counts some.
pub proof fn lemma_overflow_is_never_lost(words: Seq<u32>, i: int)
    requires
        0 <= i < words.len(),
    ensures
        total_overflow(words) >= words[i],
    decreases words.len(),
{
    if i < words.len() - 1 {
        lemma_overflow_is_never_lost(words.drop_last(), i);
    }
}

/// Whether a command runs with the groups that its kernel needs: one for each
/// bucket it works through, one for each bucket of dead edges, and else as many as
/// are started for the whole.
pub open spec fn has_its_groups(command: Command, sizing: SleanSizing, groups: u32) -> bool {
    match command {
        Command::Run(Kernel::SleanMark, _, run)
        | Command::Run(Kernel::SleanTrim, _, run)
        | Command::Run(Kernel::SleanMarkAndTrimFinal, _, run) => run == sizing.bucket_count,
        Command::Run(Kernel::SleanApplyDeaths, _, run) => run == sizing.dead_bucket_count,
        Command::Run(Kernel::ClearNodes, _, run)
        | Command::Run(Kernel::MarkNodes, _, run)
        | Command::Run(Kernel::TrimEdges, _, run) => run == groups,
        Command::Run(_, _, run) => run == 4096,
        _ => true,
    }
}

/// Whether all commands run with the groups that they need.
pub open spec fn have_their_groups(
    commands: Seq<Command>,
    sizing: SleanSizing,
    groups: u32,
) -> bool {
    forall|i: int| 0 <= i < commands.len() ==> has_its_groups(#[trigger] commands[i], sizing, groups)
}

/// How often commands look for newer work.
pub open spec fn polls(commands: Seq<Command>) -> nat
    decreases commands.len(),
{
    if commands.len() == 0 {
        0
    } else {
        polls(commands.drop_last()) + (if commands.last() == Command::Poll {
            1nat
        } else {
            0nat
        })
    }
}

proof fn polls_add(a: Seq<Command>, b: Seq<Command>)
    ensures
        polls(a + b) == polls(a) + polls(b),
    decreases b.len(),
{
    if b.len() == 0 {
        assert(a + b =~= a);
    } else {
        polls_add(a, b.drop_last());
        assert((a + b).drop_last() =~= a + b.drop_last());
    }
}

proof fn no_polls(commands: Seq<Command>)
    requires
        forall|i: int| 0 <= i < commands.len() ==> #[trigger] commands[i] != Command::Poll,
    ensures
        polls(commands) == 0,
    decreases commands.len(),
{
    if commands.len() > 0 {
        let shorter = commands.drop_last();
        assert forall|i: int| 0 <= i < shorter.len() implies #[trigger] shorter[i]
            != Command::Poll by {
            assert(shorter[i] == commands[i]);
        }
        no_polls(shorter);
        assert(commands[commands.len() - 1] != Command::Poll);
    }
}

proof fn polls_once(commands: Seq<Command>)
    requires
        commands.len() > 0,
        commands.last() == Command::Poll,
        forall|i: int| 0 <= i < commands.len() - 1 ==> #[trigger] commands[i] != Command::Poll,
    ensures
        polls(commands) == 1,
{
    let shorter = commands.drop_last();
    assert forall|i: int| 0 <= i < shorter.len() implies #[trigger] shorter[i]
        != Command::Poll by {
        assert(shorter[i] == commands[i]);
    }
    no_polls(shorter);
}

proof fn parts_are_dispatched(round: u32, sizing: SleanSizing, groups: u32, end: int)
    requires
        sizing.runs(),
        0 <= end <= sizing.parts,
    ensures
        have_their_groups(mark_parts(round, sizing, end), sizing, groups),
        have_their_groups(trim_parts(round, sizing, end), sizing, groups),
        polls(mark_parts(round, sizing, end)) == end,
        polls(trim_parts(round, sizing, end)) == end,
    decreases end,
{
    if end > 0 {
        parts_are_dispatched(round, sizing, groups, end - 1);
        let mark = mark_part(round, sizing, end - 1);
        let trim = trim_part(round, sizing, end - 1);
        polls_once(mark);
        polls_once(trim);
        polls_add(mark_parts(round, sizing, end - 1), mark);
        polls_add(trim_parts(round, sizing, end - 1), trim);
    }
}

/// A round in parts runs every kernel with as many groups as there are buckets,
/// looks for newer work after each part that it lists, and sends what it has
/// gathered.
pub proof fn lemma_parts_are_dispatched_in_full(round: u32, sizing: SleanSizing, groups: u32)
    requires
        sizing.runs(),
    ensures
        have_their_groups(slean_mark(round, sizing), sizing, groups),
        have_their_groups(slean_trim(round, sizing), sizing, groups),
        polls(slean_mark(round, sizing)) == sizing.parts,
        polls(slean_trim(round, sizing)) == sizing.parts - 1,
        slean_mark(round, sizing).last() == Command::Submit,
        slean_trim(round, sizing).last() == Command::Submit,
{
    parts_are_dispatched(round, sizing, groups, sizing.parts as int);
    parts_are_dispatched(round, sizing, groups, sizing.parts - 1);
    let sent = seq![Command::Submit];
    no_polls(sent);
    no_polls(mark_start(sizing));
    no_polls(trim_last_part(round, sizing));
    polls_add(mark_start(sizing), mark_parts(round, sizing, sizing.parts as int));
    polls_add(
        mark_start(sizing) + mark_parts(round, sizing, sizing.parts as int),
        sent,
    );
    polls_add(trim_last_part(round, sizing), trim_parts(round, sizing, sizing.parts - 1));
    polls_add(
        trim_last_part(round, sizing) + trim_parts(round, sizing, sizing.parts - 1),
        sent,
    );
}

/// Plain rounds run each kernel with the groups they are given, three kernels to
/// a round.
pub proof fn lemma_plain_rounds_are_dispatched_in_full(
    first: u32,
    end: u32,
    sizing: SleanSizing,
    groups: u32,
)
    requires
        first <= end,
    ensures
        have_their_groups(lean_rounds(first, end, groups), sizing, groups),
        lean_rounds(first, end, groups).len() == 3 * (end - first),
    decreases end - first,
{
    if first < end {
        lemma_plain_rounds_are_dispatched_in_full(first, (end - 1) as u32, sizing, groups);
    }
}

proof fn chunks_are_dispatched(
    scatter: Kernel,
    through: Kernel,
    side: u32,
    sizing: SleanSizing,
    groups: u32,
    end: int,
)
    requires
        0 <= end,
        has_its_groups(Command::Run(scatter, Binding::Chunk(side, 0), 4096), sizing, groups),
        has_its_groups(Command::Run(through, Binding::Bucket(side, 0), 4096), sizing, groups),
    ensures
        have_their_groups(chunks_commands(scatter, through, side, end), sizing, groups),
        polls(chunks_commands(scatter, through, side, end)) == end,
    decreases end,
{
    if end > 0 {
        chunks_are_dispatched(scatter, through, side, sizing, groups, end - 1);
        let chunk = chunk_commands(scatter, through, side, end - 1);
        polls_once(chunk);
        polls_add(chunks_commands(scatter, through, side, end - 1), chunk);
        assert(have_their_groups(chunk, sizing, groups));
    }
}

/// A bucketed round runs every kernel with all groups and looks for newer work
/// after each chunk, both when it marks and when it trims.
pub proof fn lemma_chunks_are_dispatched_in_full(
    round: u32,
    header_words: u64,
    chunks: u64,
    sizing: SleanSizing,
    groups: u32,
)
    ensures
        have_their_groups(bucket_mark(round, header_words, chunks), sizing, groups),
        have_their_groups(bucket_trim(round, chunks), sizing, groups),
        polls(bucket_mark(round, header_words, chunks)) == chunks,
        polls(bucket_trim(round, chunks)) == chunks,
{
    let start = seq![
        Command::Clear(Buffer::Nodes),
        Command::ClearBytes(Buffer::Scratch, (header_words * 4) as u64),
        Command::Submit,
    ];
    no_polls(start);
    let side = side_of(round);
    chunks_are_dispatched(
        chunk_scatter(round),
        Kernel::BucketMark,
        side,
        sizing,
        groups,
        chunks as int,
    );
    chunks_are_dispatched(
        chunk_pair_scatter(round),
        Kernel::BucketTrimPairs,
        side,
        sizing,
        groups,
        chunks as int,
    );
    polls_add(
        start,
        chunks_commands(chunk_scatter(round), Kernel::BucketMark, side, chunks as int),
    );
}

/// The fine trim begins at its transition, as long as any round is left for it,
/// and nowhere else.  Survivors are counted after rounds 1, 2, 3, 4, 6 and 8.
pub proof fn lemma_fine_trim_begins_at_its_transition(plan: RoundPlan, completed: u32)
    ensures
        plan.goes_fine(completed) ==> plan.fine_csr || plan.modes.fine,
        plan.fine_csr || plan.modes.fine ==> (plan.goes_fine(completed) <==> completed
            == plan.fine_transition_round && plan.fine_end_round >= completed + 1),
        plan.counts_after(completed) <==> plan.survivor_counts && 1 <= completed <= 8 && completed
            != 5 && completed != 7,
{
}

/// The fine trim takes over after two rounds in buckets, or three in parts; the
/// former begins with shards.  Without it four rounds are bucketed.
pub proof fn lemma_fine_trim_follows_the_buckets(
    modes: ProductionModes,
    diagnostics: Diagnostics,
    live_work: bool,
)
    ensures
        ({
            let plan = RoundPlan::of(modes, diagnostics, live_work);
            &&& modes.fine && modes.slean ==> plan.fine_transition_round == 3
            &&& modes.fine && !modes.slean ==> plan.fine_transition_round == 2
            &&& modes.fine ==> plan.bucket_rounds == plan.fine_transition_round
            &&& !modes.fine ==> plan.fine_transition_round == 6 && plan.bucket_rounds == 4
            &&& plan.sharded_fine_seed <==> modes.fine && !modes.slean
            &&& plan.one_at_a_time <==> live_work || diagnostics.per_round
                || diagnostics.survivor_counts || diagnostics.fine_csr
        }),
{
}

} // verus!
