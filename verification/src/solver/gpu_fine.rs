//! Trimming in compact arenas: the edges of each fine bucket stand together, and
//! a table says where each bucket begins.

use crate::graph::Graph;
use crate::solver::device;
use crate::solver::gpu_rounds::{RoundPlan, ROUNDS_PER_SUBMISSION};
use crate::solver::gpu_wgpu::AdapterLimits;
use crate::solver::self_check;
use crate::solver::{unsupported, ErrorKind, SolveError};
use crate::text;
use vstd::prelude::*;

verus! {

/// The fine buckets.
pub const FINE_BUCKETS: u32 = 32_768;

/// The room that a bucket of fixed size has beyond the fullest one.
pub const FINE_FIXED_MIN_MARGIN: u64 = 64;

/// The sum of counts.
pub open spec fn total(counts: Seq<u32>) -> nat
    decreases counts.len(),
{
    if counts.len() == 0 {
        0
    } else {
        total(counts.drop_last()) + counts.last() as nat
    }
}

proof fn lemma_total_step(counts: Seq<u32>, i: int)
    requires
        0 <= i < counts.len(),
    ensures
        total(counts.take(i + 1)) == total(counts.take(i)) + counts[i],
{
    assert(counts.take(i + 1).drop_last() =~= counts.take(i));
}

proof fn lemma_total_grows(counts: Seq<u32>, i: int, j: int)
    requires
        0 <= i <= j <= counts.len(),
    ensures
        total(counts.take(i)) <= total(counts.take(j)),
    decreases j - i,
{
    if i < j {
        lemma_total_step(counts, j - 1);
        lemma_total_grows(counts, i, j - 1);
    }
}

/// The sum of counts.
pub fn sum_counts(counts: &Vec<u32>) -> (sum: u64)
    requires
        counts.len() <= u32::MAX,
    ensures
        sum == total(counts@),
{
    let mut sum: u64 = 0;
    let mut i: usize = 0;
    while i < counts.len()
        invariant
            i <= counts.len() <= u32::MAX,
            sum == total(counts@.take(i as int)),
            sum <= i * u32::MAX,
        decreases counts.len() - i,
    {
        proof {
            lemma_total_step(counts@, i as int);
            let n = i as int;
            assert((n + 1) * u32::MAX == n * u32::MAX + u32::MAX) by (nonlinear_arith);
            assert(n * u32::MAX <= 0xffff_fffe * u32::MAX) by (nonlinear_arith)
                requires
                    0 <= n <= 0xffff_fffe,
            ;
        }
        sum = sum + counts[i] as u64;
        i = i + 1;
    }
    assert(counts@.take(counts.len() as int) =~= counts@);
    sum
}

/// What an arena is for.
#[derive(Debug, Clone, Copy, PartialEq, Eq, Structural)]
pub enum ArenaUse {
    /// The living edges that the rounds start from.
    Seed,
    /// The edges that a round leaves.
    TrimOutput,
    /// Half of the living edges that the rounds start from.
    SeedShard,
}

impl ArenaUse {
    /// What is said where an arena would have too many places.
    pub open spec fn too_large_text(self) -> Seq<char> {
        match self {
            ArenaUse::Seed => "fine CSR offset exceeds the u32 arena index"@,
            ArenaUse::TrimOutput => "fine trim output exceeds u32 arena indexing"@,
            ArenaUse::SeedShard => "fine seed shard exceeds u32 indexing"@,
        }
    }

    fn too_large(&self) -> (text: &'static str)
        ensures
            text@ == self.too_large_text(),
    {
        match self {
            ArenaUse::Seed => "fine CSR offset exceeds the u32 arena index",
            ArenaUse::TrimOutput => "fine trim output exceeds u32 arena indexing",
            ArenaUse::SeedShard => "fine seed shard exceeds u32 indexing",
        }
    }

    /// Whether the adapter takes an arena of so many bytes.  Only the arena
    /// that the rounds start from is held against the largest buffer too.
    pub open spec fn fits(self, limits: AdapterLimits, bytes: int) -> bool {
        match self {
            ArenaUse::Seed => limits.holds(bytes),
            _ => bytes <= limits.max_storage_binding,
        }
    }

    /// Whether the adapter takes an arena of so many bytes.
    pub fn takes(&self, limits: &AdapterLimits, bytes: u64) -> (result: bool)
        ensures
            result == self.fits(*limits, bytes as int),
    {
        match self {
            ArenaUse::Seed => limits.can_hold(bytes),
            _ => bytes <= limits.max_storage_binding,
        }
    }
}

/// Where the buckets begin, and behind them the end.
pub open spec fn offsets_of(counts: Seq<u32>) -> Seq<u32> {
    Seq::new(counts.len() + 1, |i: int| total(counts.take(i)) as u32)
}

/// Where the buckets begin, and behind them the end.
pub fn bucket_offsets(counts: &Vec<u32>, used_for: ArenaUse) -> (result: Result<
    Vec<u32>,
    SolveError,
>)
    ensures
        match result {
            Ok(offsets) => total(counts@) <= u32::MAX && offsets@ == offsets_of(counts@),
            Err(error) => total(counts@) > u32::MAX && error@ == (
                ErrorKind::Unsupported,
                used_for.too_large_text(),
            ),
        },
{
    let mut offsets: Vec<u32> = Vec::new();
    offsets.push(0);
    let mut sum: u64 = 0;
    let mut i: usize = 0;
    assert(counts@.take(0) =~= Seq::empty());
    while i < counts.len()
        invariant
            i <= counts.len(),
            offsets.len() == i + 1,
            sum == total(counts@.take(i as int)),
            sum <= u32::MAX,
            forall|k: int|
                0 <= k <= i ==> #[trigger] offsets@[k] == total(counts@.take(k)) as u32,
        decreases counts.len() - i,
    {
        proof {
            lemma_total_step(counts@, i as int);
            lemma_total_grows(counts@, i + 1, counts.len() as int);
            assert(counts@.take(counts.len() as int) =~= counts@);
        }
        sum = sum + counts[i] as u64;
        if sum > 0xffff_ffff {
            return Err(unsupported(used_for.too_large()));
        }
        offsets.push(sum as u32);
        i = i + 1;
    }
    proof {
        assert(counts@.take(counts.len() as int) =~= counts@);
        assert(offsets@ =~= offsets_of(counts@));
    }
    Ok(offsets)
}

/// Every place of an arena belongs to exactly one bucket.
pub proof fn lemma_places_belong_to_one_bucket(counts: Seq<u32>, place: u32)
    requires
        total(counts) <= u32::MAX,
        place < total(counts),
    ensures
        exists|b: int|
            0 <= b < counts.len() && (#[trigger] offsets_of(counts)[b]) <= place < offsets_of(
                counts,
            )[b + 1],
        forall|b: int, c: int|
            0 <= b < counts.len() && 0 <= c < counts.len() && (#[trigger] offsets_of(counts)[b])
                <= place < offsets_of(counts)[b + 1] && (#[trigger] offsets_of(counts)[c]) <= place
                < offsets_of(counts)[c + 1] ==> b == c,
        forall|b: int|
            0 <= b < counts.len() ==> (#[trigger] offsets_of(counts)[b]) + counts[b] == offsets_of(
                counts,
            )[b + 1],
{
    let n = counts.len() as int;
    assert(counts.take(n) =~= counts);
    assert(counts.take(0) =~= Seq::empty());
    assert forall|b: int| 0 <= b <= n implies #[trigger] offsets_of(counts)[b] == total(
        counts.take(b),
    ) && total(counts.take(b)) <= u32::MAX by {
        lemma_total_grows(counts, b, n);
    }
    assert forall|b: int| 0 <= b < n implies (#[trigger] offsets_of(counts)[b]) + counts[b]
        == offsets_of(counts)[b + 1] by {
        lemma_total_step(counts, b);
    }
    let b = find_bucket(counts, place, n);
    assert(offsets_of(counts)[b] <= place < offsets_of(counts)[b + 1]);
    assert forall|b: int, c: int|
        0 <= b < n && 0 <= c < n && (#[trigger] offsets_of(counts)[b]) <= place < offsets_of(
            counts,
        )[b + 1] && (#[trigger] offsets_of(counts)[c]) <= place < offsets_of(counts)[c
            + 1] implies b == c by {
        if b < c {
            lemma_total_grows(counts, b + 1, c);
        } else if c < b {
            lemma_total_grows(counts, c + 1, b);
        }
    }
}

proof fn find_bucket(counts: Seq<u32>, place: u32, end: int) -> (bucket: int)
    requires
        0 <= end <= counts.len(),
        place < total(counts.take(end)),
    ensures
        0 <= bucket < end,
        total(counts.take(bucket)) <= place < total(counts.take(bucket + 1)),
    decreases end,
{
    assert(counts.take(0) =~= Seq::empty());
    if place >= total(counts.take(end - 1)) {
        end - 1
    } else {
        find_bucket(counts, place, end - 1)
    }
}

/// The bytes of an arena of so many edges: four each, and never none.
pub open spec fn arena_size(edges: int) -> int {
    if edges >= 1 {
        edges * 4
    } else {
        4
    }
}

/// The bytes of an arena of so many edges.
pub fn arena_bytes(edges: u32) -> (bytes: u64)
    ensures
        bytes == arena_size(edges as int),
{
    if edges >= 1 {
        edges as u64 * 4
    } else {
        4
    }
}

/// What is said where a histogram missed edges.
pub open spec fn histogram_complaint(sharded: bool, counted: nat, expected: u64) -> Seq<char> {
    if sharded {
        "sharded fine histogram counted "@ + text::decimal(counted) + ", expected "@
            + text::decimal(expected as nat)
    } else {
        "fine histogram counted "@ + text::decimal(counted) + " edges, expected "@ + text::decimal(
            expected as nat,
        )
    }
}

/// Checks that a histogram counted every living edge.
pub fn check_histogram(counts: &Vec<u32>, expected: u64, sharded: bool) -> (result: Result<
    (),
    SolveError,
>)
    requires
        counts.len() <= u32::MAX,
    ensures
        match result {
            Ok(()) => total(counts@) == expected,
            Err(error) => total(counts@) != expected && error@ == (
                ErrorKind::Gpu,
                histogram_complaint(sharded, total(counts@), expected),
            ),
        },
{
    let counted = sum_counts(counts);
    if counted == expected {
        return Ok(());
    }
    let mut reason = if sharded {
        text::around_decimal("sharded fine histogram counted ", counted, ", expected ")
    } else {
        text::around_decimal("fine histogram counted ", counted, " edges, expected ")
    };
    text::append_decimal(&mut reason, expected);
    Err(SolveError::Gpu(reason))
}

fn same_words(a: &Vec<u32>, b: &Vec<u32>) -> (same: bool)
    ensures
        same == (a@ == b@),
{
    if a.len() != b.len() {
        return false;
    }
    let mut i: usize = 0;
    while i < a.len()
        invariant
            i <= a.len() == b.len(),
            forall|k: int| 0 <= k < i ==> #[trigger] a@[k] == b@[k],
        decreases a.len() - i,
    {
        if a[i] != b[i] {
            return false;
        }
        i = i + 1;
    }
    assert(a@ =~= b@);
    true
}

/// Checks that every edge that was counted was also written: the cursors end
/// where the counts say.
pub fn check_cursors(cursors: &Vec<u32>, counts: &Vec<u32>, used_for: ArenaUse) -> (result: Result<
    (),
    SolveError,
>)
    ensures
        match result {
            Ok(()) => cursors@ == counts@,
            Err(error) => cursors@ != counts@ && error@ == (
                ErrorKind::Gpu,
                (if used_for == ArenaUse::TrimOutput {
                    "fine trim output cursors differ from counted survivors"@
                } else {
                    "fine CSR scatter cursor totals differ from histogram counts"@
                }),
            ),
        },
{
    if same_words(cursors, counts) {
        return Ok(());
    }
    let text = match used_for {
        ArenaUse::TrimOutput => "fine trim output cursors differ from counted survivors",
        _ => "fine CSR scatter cursor totals differ from histogram counts",
    };
    Err(SolveError::Gpu(String::from_str(text)))
}

/// What is said where an arena holds wrong edges.
pub open spec fn entries_complaint(used_for: ArenaUse, errors: u32) -> Seq<char> {
    if used_for == ArenaUse::TrimOutput {
        "fine trim output verification found "@ + text::decimal(errors as nat)
            + " invalid entries"@
    } else {
        "fine CSR verification found "@ + text::decimal(errors as nat) + " invalid arena entries"@
    }
}

/// Checks that the device found no wrong edges in an arena.
pub fn check_entries(errors: u32, used_for: ArenaUse) -> (result: Result<(), SolveError>)
    ensures
        match result {
            Ok(()) => errors == 0,
            Err(error) => errors != 0 && error@ == (
                ErrorKind::Gpu,
                entries_complaint(used_for, errors),
            ),
        },
{
    if errors == 0 {
        return Ok(());
    }
    let reason = match used_for {
        ArenaUse::TrimOutput => text::around_decimal(
            "fine trim output verification found ",
            errors as u64,
            " invalid entries",
        ),
        _ => text::around_decimal(
            "fine CSR verification found ",
            errors as u64,
            " invalid arena entries",
        ),
    };
    Err(SolveError::Gpu(reason))
}

/// The largest count, or nothing of none.
pub open spec fn largest(counts: Seq<u32>) -> u32
    decreases counts.len(),
{
    if counts.len() == 0 {
        0
    } else if counts.last() >= largest(counts.drop_last()) {
        counts.last()
    } else {
        largest(counts.drop_last())
    }
}

/// No count is larger than the largest.
pub proof fn lemma_largest(counts: Seq<u32>, i: int)
    requires
        0 <= i < counts.len(),
    ensures
        counts[i] <= largest(counts),
    decreases counts.len(),
{
    if i < counts.len() - 1 {
        lemma_largest(counts.drop_last(), i);
    }
}

/// The largest count.
pub fn max_count(counts: &Vec<u32>) -> (max: u32)
    ensures
        max == largest(counts@),
{
    let mut max: u32 = 0;
    let mut i: usize = 0;
    while i < counts.len()
        invariant
            i <= counts.len(),
            max == largest(counts@.take(i as int)),
        decreases counts.len() - i,
    {
        assert(counts@.take(i + 1).drop_last() =~= counts@.take(i as int));
        if counts[i] >= max {
            max = counts[i];
        }
        i = i + 1;
    }
    assert(counts@.take(counts.len() as int) =~= counts@);
    max
}

/// The buckets that hold anything.
pub open spec fn filled(counts: Seq<u32>) -> nat
    decreases counts.len(),
{
    if counts.len() == 0 {
        0
    } else {
        filled(counts.drop_last()) + (if counts.last() != 0 {
            1nat
        } else {
            0nat
        })
    }
}

/// The buckets that hold anything.
pub fn filled_buckets(counts: &Vec<u32>) -> (count: usize)
    ensures
        count == filled(counts@),
{
    let mut count: usize = 0;
    let mut i: usize = 0;
    while i < counts.len()
        invariant
            i <= counts.len(),
            count <= i,
            count == filled(counts@.take(i as int)),
        decreases counts.len() - i,
    {
        assert(counts@.take(i + 1).drop_last() =~= counts@.take(i as int));
        if counts[i] != 0 {
            count = count + 1;
        }
        i = i + 1;
    }
    assert(counts@.take(counts.len() as int) =~= counts@);
    count
}

/// An arena whose buckets all have the same room.
#[derive(Debug, Clone, Copy, PartialEq, Eq, Structural)]
pub struct FixedArena {
    pub capacity: u64,
    pub bytes: u64,
}

/// The arena of fixed buckets that the edges of a round go to: nothing where
/// its places cannot be counted in 32 bits or the adapter does not hold it.
pub open spec fn fixed_arena_of(counts: Seq<u32>, limits: AdapterLimits) -> Option<FixedArena> {
    let capacity = largest(counts) + FINE_FIXED_MIN_MARGIN;
    let slots = capacity * FINE_BUCKETS;
    if slots > u32::MAX || !limits.holds(slots * 4) {
        None
    } else {
        Some(FixedArena { capacity: capacity as u64, bytes: (slots * 4) as u64 })
    }
}

/// The arena of fixed buckets that the edges of a round go to.
pub fn prepare_fixed(counts: &Vec<u32>, limits: &AdapterLimits) -> (arena: Option<FixedArena>)
    ensures
        arena == fixed_arena_of(counts@, *limits),
{
    let capacity: u64 = max_count(counts) as u64 + FINE_FIXED_MIN_MARGIN;
    let slots: u64 = capacity * 32_768;
    if slots > 0xffff_ffff || !limits.can_hold(slots * 4) {
        return None;
    }
    Some(FixedArena { capacity, bytes: slots * 4 })
}

/// A bucket has room for as many edges as any bucket held before the round.
pub proof fn lemma_fixed_buckets_have_room(counts: Seq<u32>, limits: AdapterLimits, i: int)
    requires
        fixed_arena_of(counts, limits) is Some,
        0 <= i < counts.len(),
    ensures
        counts[i] + FINE_FIXED_MIN_MARGIN <= (fixed_arena_of(counts, limits)->0).capacity,
{
    lemma_largest(counts, i);
}

/// Where buckets of fixed size begin, and behind them the end.
pub open spec fn fixed_offsets_of(capacity: u64) -> Seq<u32> {
    Seq::new((FINE_BUCKETS + 1) as nat, |bucket: int| (bucket * capacity) as u32)
}

/// Where buckets of fixed size begin, and behind them the end.
pub fn fixed_offsets(arena: &FixedArena) -> (offsets: Vec<u32>)
    requires
        arena.capacity * FINE_BUCKETS <= u32::MAX,
    ensures
        offsets@ == fixed_offsets_of(arena.capacity),
{
    let mut offsets: Vec<u32> = Vec::new();
    let mut bucket: u64 = 0;
    while bucket <= 32_768
        invariant
            bucket <= 32_769,
            arena.capacity * 32_768 <= u32::MAX,
            offsets.len() == bucket,
            forall|k: int|
                0 <= k < bucket ==> #[trigger] offsets@[k] == (k * arena.capacity) as u32,
        decreases 32_769 - bucket,
    {
        proof {
            let capacity = arena.capacity as int;
            assert(0 <= bucket * capacity <= capacity * 32_768) by (nonlinear_arith)
                requires
                    0 <= bucket <= 32_768,
                    capacity >= 0,
            ;
        }
        offsets.push((bucket * arena.capacity) as u32);
        bucket = bucket + 1;
    }
    assert(offsets@ =~= fixed_offsets_of(arena.capacity));
    offsets
}

/// The edges that a round in fixed buckets left.
#[derive(Debug)]
pub struct FixedOutcome {
    pub counts: Vec<u32>,
    pub survivors: u32,
}

/// Reads what a round in fixed buckets wrote: the overflow word, then the
/// counts.  Where something did not fit, the round counts for nothing.
pub fn fixed_outcome(words: &Vec<u32>, input: u32) -> (result: Result<
    Option<FixedOutcome>,
    SolveError,
>)
    requires
        1 <= words.len() <= u32::MAX,
    ensures
        match result {
            Ok(None) => words@[0] != 0,
            Ok(Some(outcome)) => {
                &&& words@[0] == 0
                &&& outcome.counts@ == words@.skip(1)
                &&& outcome.survivors == total(words@.skip(1))
                &&& outcome.survivors <= input
            },
            Err(error) => {
                &&& words@[0] == 0
                &&& total(words@.skip(1)) > input
                &&& error@ == (
                    ErrorKind::Gpu,
                    "fine fixed trim increased the survivor population"@,
                )
            },
        },
{
    if words[0] != 0 {
        return Ok(None);
    }
    let mut counts: Vec<u32> = Vec::new();
    let mut i: usize = 1;
    while i < words.len()
        invariant
            1 <= i <= words.len(),
            counts@ == words@.subrange(1, i as int),
        decreases words.len() - i,
    {
        counts.push(words[i]);
        i = i + 1;
        assert(counts@ =~= words@.subrange(1, i as int));
    }
    assert(counts@ =~= words@.skip(1));
    let survivors = sum_counts(&counts);
    if survivors > input as u64 {
        return Err(
            SolveError::Gpu(
                String::from_str("fine fixed trim increased the survivor population"),
            ),
        );
    }
    Ok(Some(FixedOutcome { counts, survivors: survivors as u32 }))
}

/// The counts of one half of the buckets.
pub fn shard_counts(counts: &Vec<u32>, half: usize) -> (shard: Vec<u32>)
    requires
        counts.len() == FINE_BUCKETS,
        half < 2,
    ensures
        shard@ == counts@.subrange(half * 16_384, half * 16_384 + 16_384),
{
    let start: usize = half * 16_384;
    let mut shard: Vec<u32> = Vec::new();
    let mut i: usize = 0;
    while i < 16_384
        invariant
            i <= 16_384,
            start == half * 16_384,
            half < 2,
            counts.len() == FINE_BUCKETS,
            shard@ == counts@.subrange(start as int, start + i),
        decreases 16_384 - i,
    {
        shard.push(counts[start + i]);
        i = i + 1;
        assert(shard@ =~= counts@.subrange(start as int, start + i));
    }
    shard
}

/// The two halves hold all counts.
pub proof fn lemma_shards_hold_all_counts(counts: Seq<u32>)
    requires
        counts.len() == FINE_BUCKETS,
    ensures
        counts.subrange(0, 16_384) + counts.subrange(16_384, 32_768) == counts,
{
    assert(counts.subrange(0, 16_384) + counts.subrange(16_384, 32_768) =~= counts);
}

/// The edges that an arena lists, as they are searched.
pub fn arena_survivors(words: &Vec<u32>) -> (survivors: Vec<u64>)
    ensures
        survivors@ == self_check::widened(words@),
{
    let mut survivors: Vec<u64> = Vec::new();
    let mut i: usize = 0;
    while i < words.len()
        invariant
            i <= words.len(),
            survivors@ == self_check::widened(words@.take(i as int)),
        decreases words.len() - i,
    {
        survivors.push(words[i] as u64);
        i = i + 1;
        assert(survivors@ =~= self_check::widened(words@.take(i as int)));
    }
    assert(words@.take(words.len() as int) =~= words@);
    survivors
}

/// How one round in a compact arena is run.
#[derive(Debug, Clone, Copy, PartialEq, Eq, Structural)]
pub enum FineRound {
    /// Into buckets of fixed size, where they fit.
    Fixed,
    /// Counted first, then written without gaps.
    Compact,
}

/// How the trim goes on in compact arenas after a round.
#[derive(Debug, Clone, Copy, PartialEq, Eq, Structural)]
pub struct FineTransition {
    pub completed_round: u32,
    pub loop_start: u32,
    pub end_round: u32,
    pub production: bool,
    pub sharded_seed: bool,
    pub validate_output: bool,
}

impl FineTransition {
    /// How a plan goes on in compact arenas.  A seed in two halves is trimmed
    /// where it is put together, which takes one round.
    pub open spec fn of(plan: RoundPlan, completed_round: u32) -> FineTransition {
        FineTransition {
            completed_round,
            loop_start: if plan.sharded_fine_seed {
                (completed_round + 1) as u32
            } else {
                completed_round
            },
            end_round: plan.fine_end_round,
            production: plan.modes.fine,
            sharded_seed: plan.sharded_fine_seed,
            validate_output: plan.fine_csr,
        }
    }

    /// How a plan goes on in compact arenas.
    pub fn new(plan: &RoundPlan, completed_round: u32) -> (transition: FineTransition)
        requires
            plan.goes_fine(completed_round),
        ensures
            transition == FineTransition::of(*plan, completed_round),
    {
        let loop_start: u32 = if plan.sharded_fine_seed {
            completed_round + 1
        } else {
            completed_round
        };
        FineTransition {
            completed_round,
            loop_start,
            end_round: plan.fine_end_round,
            production: plan.modes.fine,
            sharded_seed: plan.sharded_fine_seed,
            validate_output: plan.fine_csr,
        }
    }

    /// How a round is run: into fixed buckets, but for the last one and where
    /// the arenas are only compared.
    pub open spec fn round(self, round: u32) -> FineRound {
        if self.production && round + 1 < self.end_round {
            FineRound::Fixed
        } else {
            FineRound::Compact
        }
    }

    /// How a round is run.
    pub fn round_kind(&self, round: u32) -> (kind: FineRound)
        requires
            round < self.end_round,
        ensures
            kind == self.round(round),
    {
        if self.production && round + 1 < self.end_round {
            FineRound::Fixed
        } else {
            FineRound::Compact
        }
    }
}

/// What a trim in compact arenas does next.
#[derive(Debug, Clone, Copy, PartialEq, Eq, Structural)]
pub enum FineStep {
    /// Newer work has come: the trim ends without survivors.
    Stop,
    /// Trim a side in the given way.
    Trim(FineRound, u32),
    /// All rounds are complete.
    Finish,
}

/// A trim on its way through its rounds in compact arenas.
#[derive(Debug, Clone, Copy, PartialEq, Eq, Structural)]
pub struct FineRun {
    pub transition: FineTransition,
    pub round: u32,
    pub survivors: u32,
    pub fell_back: bool,
}

impl FineRun {
    /// Whether this is a state between the first and the last round.
    pub open spec fn valid(self) -> bool {
        &&& self.transition.loop_start <= self.round
        &&& self.round <= self.transition.end_round
        &&& self.fell_back ==> self.round < self.transition.end_round && self.transition.round(
            self.round,
        ) == FineRound::Fixed
    }

    /// A trim that begins with a seed of so many edges.
    pub fn new(transition: FineTransition, survivors: u32) -> (run: FineRun)
        requires
            transition.loop_start <= transition.end_round,
        ensures
            run.valid(),
            run == (FineRun {
                transition,
                round: transition.loop_start,
                survivors,
                fell_back: false,
            }),
    {
        FineRun { transition, round: transition.loop_start, survivors, fell_back: false }
    }

    /// What comes next, given whether newer work has come.  A round whose fixed
    /// buckets did not do is run again without them, without a further look.
    pub open spec fn step(self, cancelled: bool) -> FineStep {
        if self.round >= self.transition.end_round {
            FineStep::Finish
        } else if self.fell_back {
            FineStep::Trim(FineRound::Compact, self.round % 2)
        } else if cancelled {
            FineStep::Stop
        } else {
            FineStep::Trim(self.transition.round(self.round), self.round % 2)
        }
    }

    /// What comes next, given whether newer work has come.
    pub fn next(&self, cancelled: bool) -> (step: FineStep)
        ensures
            step == self.step(cancelled),
    {
        if self.round >= self.transition.end_round {
            FineStep::Finish
        } else if self.fell_back {
            FineStep::Trim(FineRound::Compact, self.round % 2)
        } else if cancelled {
            FineStep::Stop
        } else {
            FineStep::Trim(self.transition.round_kind(self.round), self.round % 2)
        }
    }

    /// Takes what a round in fixed buckets left, or that they did not do.
    pub fn fixed_done(&mut self, outcome: Option<&FixedOutcome>)
        requires
            old(self).valid(),
            old(self).round < old(self).transition.end_round,
            old(self).transition.round(old(self).round) == FineRound::Fixed,
        ensures
            final(self).valid(),
            *final(self) == (match outcome {
                Some(outcome) => FineRun {
                    round: (old(self).round + 1) as u32,
                    survivors: outcome.survivors,
                    fell_back: false,
                    ..*old(self)
                },
                None => FineRun { fell_back: true, ..*old(self) },
            }),
    {
        match outcome {
            Some(outcome) => {
                self.round = self.round + 1;
                self.survivors = outcome.survivors;
                self.fell_back = false;
            },
            None => {
                self.fell_back = true;
            },
        }
    }

    /// Takes what a counted round left.
    pub fn compact_done(&mut self, survivors: u32)
        requires
            old(self).valid(),
            old(self).round < old(self).transition.end_round,
        ensures
            final(self).valid(),
            *final(self) == (FineRun {
                round: (old(self).round + 1) as u32,
                survivors,
                fell_back: false,
                ..*old(self)
            }),
    {
        self.round = self.round + 1;
        self.survivors = survivors;
        self.fell_back = false;
    }
}

/// Whatever the fixed buckets do, a trim that is not overtaken completes a
/// round with at most two tries, and the last round without gaps.
pub proof fn lemma_fine_round_completes(run: FineRun)
    requires
        run.valid(),
        run.round < run.transition.end_round,
        !run.fell_back,
    ensures
        run.step(false) is Trim,
        (FineRun { fell_back: true, ..run }).step(false) == FineStep::Trim(
            FineRound::Compact,
            run.round % 2,
        ),
        run.round + 1 == run.transition.end_round ==> run.step(false) == FineStep::Trim(
            FineRound::Compact,
            run.round % 2,
        ),
{
}

/// The last round leaves the survivors without gaps, so that they can be read
/// from the start of the arena.
pub proof fn lemma_last_round_is_compact(transition: FineTransition)
    requires
        transition.end_round > 0,
    ensures
        transition.round((transition.end_round - 1) as u32) == FineRound::Compact,
{
}

/// The seed and the rounds behind it run every round once, from the one after
/// the completed rounds to the last.
pub proof fn lemma_fine_rounds_are_complete(
    plan: RoundPlan,
    completed_round: u32,
    graph: Graph,
    alive: Set<u64>,
)
    requires
        plan.goes_fine(completed_round),
    ensures
        ({
            let transition = FineTransition::of(plan, completed_round);
            let seeded = device::every_round(
                graph,
                alive,
                completed_round as nat,
                transition.loop_start as nat,
            );
            &&& completed_round <= transition.loop_start <= transition.end_round
            &&& device::every_round(
                graph,
                seeded,
                transition.loop_start as nat,
                transition.end_round as nat,
            ) == device::every_round(
                graph,
                alive,
                completed_round as nat,
                transition.end_round as nat,
            )
        }),
{
    let transition = FineTransition::of(plan, completed_round);
    device::lemma_rounds_compose(
        graph,
        alive,
        completed_round as nat,
        transition.loop_start as nat,
        transition.end_round as nat,
    );
}

/// The end of a batch of direct rounds that a compact arena is compared with.
pub fn comparison_batch_end(round: u32, end_round: u32) -> (end: u32)
    requires
        round < end_round,
    ensures
        end == (if round + ROUNDS_PER_SUBMISSION <= end_round {
            round + ROUNDS_PER_SUBMISSION
        } else {
            end_round as int
        }),
        round < end <= end_round,
{
    if end_round - round >= ROUNDS_PER_SUBMISSION {
        round + ROUNDS_PER_SUBMISSION
    } else {
        end_round
    }
}

/// What is said where compact and direct rounds left different edges.
pub open spec fn mismatch_text(fine: u64, direct: u64, words: u32) -> Seq<char> {
    "fine/direct mismatch: fine="@ + text::decimal(fine as nat) + " direct="@ + text::decimal(
        direct as nat,
    ) + " mismatched_words="@ + text::decimal(words as nat)
}

/// Checks that compact and direct rounds left the same edges.
pub fn check_against_direct(fine: u64, direct: u64, mismatched_words: u32) -> (result: Result<
    (),
    SolveError,
>)
    ensures
        match result {
            Ok(()) => fine == direct && mismatched_words == 0,
            Err(error) => (fine != direct || mismatched_words != 0) && error@ == (
                ErrorKind::Gpu,
                mismatch_text(fine, direct, mismatched_words),
            ),
        },
{
    if fine == direct && mismatched_words == 0 {
        return Ok(());
    }
    let mut reason = text::around_decimal("fine/direct mismatch: fine=", fine, " direct=");
    text::append_decimal(&mut reason, direct);
    reason.append(" mismatched_words=");
    text::append_decimal(&mut reason, mismatched_words as u64);
    Err(SolveError::Gpu(reason))
}

/// The largest count is one of the counts.
pub proof fn lemma_largest_is_reached(counts: Seq<u32>)
    requires
        counts.len() > 0,
    ensures
        exists|i: int| 0 <= i < counts.len() && #[trigger] counts[i] == largest(counts),
    decreases counts.len(),
{
    let head = counts.drop_last();
    if head.len() == 0 || counts.last() >= largest(head) {
        assert(largest(head) == 0 || head.len() > 0);
        assert(counts[counts.len() - 1] == largest(counts));
    } else {
        lemma_largest_is_reached(head);
        let i = choose|i: int| 0 <= i < head.len() && #[trigger] head[i] == largest(head);
        assert(counts[i] == head[i]);
    }
}

/// The filled buckets are those whose count is not zero.
pub proof fn lemma_filled_buckets_are_counted(counts: Seq<u32>)
    ensures
        filled(counts) == counts.filter(|count: u32| count != 0).len(),
    decreases counts.len(),
{
    reveal(Seq::filter);
    if counts.len() > 0 {
        lemma_filled_buckets_are_counted(counts.drop_last());
    }
}

/// Counts that are put together count together.
pub proof fn lemma_totals_add_up(a: Seq<u32>, b: Seq<u32>)
    ensures
        total(a + b) == total(a) + total(b),
    decreases b.len(),
{
    if b.len() == 0 {
        assert(a + b =~= a);
    } else {
        lemma_totals_add_up(a, b.drop_last());
        assert((a + b).drop_last() =~= a + b.drop_last());
    }
}

/// Buckets of fixed size have room for 64 edges above the largest count, and
/// there is an arena of 32768 of them exactly where its places can be numbered
/// and the adapter can hold it.
pub proof fn lemma_fixed_arenas_are_made_where_they_fit(counts: Seq<u32>, limits: AdapterLimits)
    ensures
        ({
            let places = 32_768 * (largest(counts) + 64);
            &&& fixed_arena_of(counts, limits) is Some <==> {
                &&& places <= u32::MAX
                &&& 4 * places <= limits.max_buffer_size
                &&& 4 * places <= limits.max_storage_binding
            }
            &&& fixed_arena_of(counts, limits) matches Some(arena) ==> arena.capacity == largest(
                counts,
            ) + 64 && arena.bytes == 4 * places
        }),
{
}

/// An arena has four bytes for each edge, and four where there is none.
pub proof fn lemma_arenas_have_a_word_for_each_edge(edges: nat)
    ensures
        edges > 0 ==> arena_size(edges as int) == 4 * edges,
        arena_size(0) == 4,
{
}

/// Buckets of fixed size follow one another without a gap, from the start of the
/// arena to its end.
pub proof fn lemma_fixed_buckets_follow_one_another(capacity: u64, bucket: int)
    requires
        capacity * 32_768 <= u32::MAX,
        0 <= bucket < 32_768,
    ensures
        fixed_offsets_of(capacity).len() == 32_769,
        fixed_offsets_of(capacity)[0] == 0,
        fixed_offsets_of(capacity)[bucket + 1] == fixed_offsets_of(capacity)[bucket] + capacity,
        fixed_offsets_of(capacity)[32_768] == 32_768 * capacity,
{
    assert(0 <= bucket * capacity && (bucket + 1) * capacity <= capacity * 32_768
        && (bucket + 1) * capacity == bucket * capacity + capacity) by (nonlinear_arith)
        requires
            0 <= bucket < 32_768,
            capacity >= 0,
    ;
}

/// All rounds of a fine trim in production but the last go to buckets of fixed
/// size, and every other round is compact.
pub proof fn lemma_rounds_before_the_last_are_fixed(transition: FineTransition, round: u32)
    requires
        round < transition.end_round,
    ensures
        transition.round(round) == FineRound::Fixed <==> transition.production && round
            != transition.end_round - 1,
{
}

} // verus!
