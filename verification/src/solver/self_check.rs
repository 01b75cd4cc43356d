//! The checks that a device passes before its results are used: small pieces of
//! work whose results are computed here too.

use crate::bits;
use crate::graph::Graph;
use crate::siphash::{endpoint, SipKeys};
use crate::solver::cpu_lean;
use crate::solver::edge_bitmap;
use crate::solver::{ErrorKind, SolveError};
use crate::text;
use crate::verify::{self, Proof};
use vstd::arithmetic::power2;
use vstd::prelude::*;

verus! {

/// The keys that the checks use.
pub open spec fn check_keys() -> SipKeys {
    SipKeys {
        k0: 0xf2f4_1b02_a8b7_8751,
        k1: 0xe1ec_cf54_3aea_04c0,
        k2: 0x6323_4d62_c711_4f75,
        k3: 0x1e44_d1dd_4fcf_f4c7,
    }
}

/// The keys that the checks use.
pub fn keys_for_checks() -> (keys: SipKeys)
    ensures
        keys == check_keys(),
{
    SipKeys {
        k0: 0xf2f4_1b02_a8b7_8751,
        k1: 0xe1ec_cf54_3aea_04c0,
        k2: 0x6323_4d62_c711_4f75,
        k3: 0x1e44_d1dd_4fcf_f4c7,
    }
}

/// Whether `index` is the first place where two runs of words differ.
pub open spec fn first_difference(actual: Seq<u32>, expected: Seq<u32>, index: int) -> bool {
    &&& 0 <= index < actual.len()
    &&& actual[index] != expected[index]
    &&& forall|i: int| 0 <= i < index ==> #[trigger] actual[i] == expected[i]
}

/// What is said of two words that differ.
pub open spec fn differ_text(actual: u32, expected: u32) -> Seq<char> {
    ": 0x"@ + text::hexadecimal(actual as nat) + " != 0x"@ + text::hexadecimal(expected as nat)
}

fn append_difference(out: &mut String, actual: u32, expected: u32)
    ensures
        final(out)@ == old(out)@ + differ_text(actual, expected),
{
    out.append(": 0x");
    text::append_hexadecimal(out, actual as u64);
    out.append(" != 0x");
    text::append_hexadecimal(out, expected as u64);
    assert(out@ =~= old(out)@ + differ_text(actual, expected));
}

/// Whether a comparison of words succeeds where they are equal, and else names
/// the first difference.
pub open spec fn compared(
    result: Result<(), SolveError>,
    actual: Seq<u32>,
    expected: Seq<u32>,
    label: Seq<char>,
) -> bool {
    match result {
        Ok(()) => actual == expected,
        Err(error) => exists|index: int| #[trigger]
            first_difference(actual, expected, index) && error@ == (
                ErrorKind::Gpu,
                label + text::decimal(index as nat) + differ_text(actual[index], expected[index]),
            ),
    }
}

/// Compares words.
pub fn compare_words(actual: &Vec<u32>, expected: &Vec<u32>, label: &str) -> (result: Result<
    (),
    SolveError,
>)
    requires
        actual.len() == expected.len(),
    ensures
        compared(result, actual@, expected@, label@),
{
    let mut i: usize = 0;
    while i < actual.len()
        invariant
            i <= actual.len() == expected.len(),
            forall|k: int| 0 <= k < i ==> #[trigger] actual@[k] == expected@[k],
        decreases actual.len() - i,
    {
        if actual[i] != expected[i] {
            let mut reason = text::around_decimal(label, i as u64, "");
            proof {
                reveal_strlit("");
                assert(reason@ =~= label@ + text::decimal(i as nat));
                assert(first_difference(actual@, expected@, i as int));
            }
            append_difference(&mut reason, actual[i], expected[i]);
            return Err(SolveError::Gpu(reason));
        }
        i = i + 1;
    }
    assert(actual@ =~= expected@);
    Ok(())
}

/// What the probe kernel writes at an index that held the index.
pub open spec fn probe_value(index: int) -> u32 {
    ((index * 1_664_525 + 1_013_904_223 + index) % 0x1_0000_0000) as u32
}

/// What the probe kernel writes at the first `count` indexes.
pub open spec fn probe_values(count: nat) -> Seq<u32> {
    Seq::new(count, |i: int| probe_value(i))
}

/// What the probe kernel writes at the first `count` indexes.
pub fn expected_probe(count: u32) -> (words: Vec<u32>)
    ensures
        words@ == probe_values(count as nat),
{
    let mut words: Vec<u32> = Vec::new();
    let mut i: u32 = 0;
    while i < count
        invariant
            i <= count,
            words@ == probe_values(i as nat),
        decreases count - i,
    {
        let wide: u64 = i as u64;
        let word: u32 = ((wide * 1_664_525 + 1_013_904_223 + wide) % 0x1_0000_0000) as u32;
        words.push(word);
        i = i + 1;
        assert(words@ =~= probe_values(i as nat));
    }
    words
}

/// Checks what the probe kernel wrote.
pub fn check_probe(words: &Vec<u32>) -> (result: Result<(), SolveError>)
    requires
        words.len() <= u32::MAX,
    ensures
        compared(result, words@, probe_values(words@.len()), "native probe mismatch at "@),
{
    let expected = expected_probe(words.len() as u32);
    compare_words(words, &expected, "native probe mismatch at ")
}

/// The edge at an offset from a base, in 32 bits.
pub open spec fn edge_at(base: u32, offset: int) -> u64 {
    ((base + offset) % 0x1_0000_0000) as u64
}

/// What is said of a wrong node.
pub open spec fn node_complaint(
    graph: Graph,
    side: u32,
    base: u32,
    nodes: Seq<u32>,
    offset: int,
) -> Seq<char> {
    let edge = edge_at(base, offset);
    "native endpoint mismatch side="@ + text::decimal(side as nat) + " edge="@ + text::decimal(
        edge as nat,
    ) + differ_text(nodes[offset], graph.node(edge, side as int))
}

/// Whether `offset` is the first place with a wrong node.
pub open spec fn first_wrong_node(
    graph: Graph,
    side: u32,
    base: u32,
    nodes: Seq<u32>,
    offset: int,
) -> bool {
    &&& 0 <= offset < nodes.len()
    &&& nodes[offset] != graph.node(edge_at(base, offset), side as int)
    &&& forall|i: int|
        0 <= i < offset ==> #[trigger] nodes[i] == graph.node(edge_at(base, i), side as int)
}

/// Checks the nodes that a device computed for consecutive edges.
pub fn check_endpoints(
    keys: SipKeys,
    edge_bits: u8,
    side: u32,
    base: u32,
    nodes: &Vec<u32>,
) -> (result: Result<(), SolveError>)
    requires
        edge_bits < 64,
        side < 2,
        nodes.len() <= u32::MAX,
    ensures
        ({
            let graph = Graph { keys, edge_bits };
            match result {
                Ok(()) => forall|i: int|
                    0 <= i < nodes.len() ==> #[trigger] nodes@[i] == graph.node(
                        edge_at(base, i),
                        side as int,
                    ),
                Err(error) => exists|offset: int| #[trigger]
                    first_wrong_node(graph, side, base, nodes@, offset) && error@ == (
                        ErrorKind::Gpu,
                        node_complaint(graph, side, base, nodes@, offset),
                    ),
            }
        }),
{
    let ghost graph = Graph { keys, edge_bits };
    let mut i: usize = 0;
    while i < nodes.len()
        invariant
            edge_bits < 64,
            side < 2,
            graph == (Graph { keys, edge_bits }),
            i <= nodes.len() <= u32::MAX,
            forall|k: int|
                0 <= k < i ==> #[trigger] nodes@[k] == graph.node(edge_at(base, k), side as int),
        decreases nodes.len() - i,
    {
        let edge: u64 = (base as u64 + i as u64) % 0x1_0000_0000;
        let expected: u32 = endpoint(keys, edge_bits, edge, side as u8);
        if nodes[i] != expected {
            let mut reason = text::around_decimal(
                "native endpoint mismatch side=",
                side as u64,
                " edge=",
            );
            text::append_decimal(&mut reason, edge);
            append_difference(&mut reason, nodes[i], expected);
            assert(first_wrong_node(graph, side, base, nodes@, i as int));
            return Err(SolveError::Gpu(reason));
        }
        i = i + 1;
    }
    Ok(())
}

/// A run of edges that a device has put into buckets by their nodes.
#[derive(Debug, Clone, Copy)]
pub struct SeededRange {
    pub keys: SipKeys,
    pub edge_bits: u8,
    pub side: u32,
    pub base: u64,
    pub count: u64,
    /// The low bits of a node that do not choose its bucket.
    pub shift: u8,
    pub buckets: usize,
}

impl SeededRange {
    /// The graph of the edges.
    pub open spec fn graph(self) -> Graph {
        Graph { keys: self.keys, edge_bits: self.edge_bits }
    }

    /// Whether there is a bucket for each node.
    pub open spec fn valid(self) -> bool {
        &&& self.edge_bits <= 32
        &&& self.shift <= 32
        &&& self.side < 2
        &&& self.base + self.count <= 0x1_0000_0000
        &&& self.graph().edge_count() <= self.buckets * power2::pow2(self.shift as nat)
    }

    /// The bucket of an edge.
    pub open spec fn bucket(self, edge: u64) -> int {
        self.graph().node(edge, self.side as int) as int / power2::pow2(self.shift as nat) as int
    }

    /// The first edges.
    pub open spec fn first_edges(self, end: int) -> Seq<u64> {
        Seq::new(end as nat, |i: int| (self.base + i) as u64)
    }

    /// The edges of a bucket among the first ones, in ascending order.
    pub open spec fn first_of_bucket(self, end: int, bucket: int) -> Seq<u64> {
        self.first_edges(end).filter(|edge: u64| self.bucket(edge) == bucket)
    }

    /// The edges of a bucket, in ascending order.
    pub open spec fn edges_of_bucket(self, bucket: int) -> Seq<u64> {
        self.first_of_bucket(self.count as int, bucket)
    }

    proof fn lemma_bucket_bound(self, edge: u64)
        requires
            self.valid(),
        ensures
            0 <= self.bucket(edge) < self.buckets,
    {
        let graph = self.graph();
        crate::siphash::lemma_node_bound(graph.keys, graph.edge_bits, edge, self.side as int);
        power2::lemma_pow2_pos(self.shift as nat);
        let node = graph.node(edge, self.side as int) as int;
        let size = power2::pow2(self.shift as nat) as int;
        let buckets = self.buckets as int;
        assert(0 <= node / size < buckets) by (nonlinear_arith)
            requires
                0 <= node < buckets * size,
                size > 0,
        ;
    }

    /// The edges of each bucket, in ascending order.
    pub fn expected_buckets(&self) -> (lists: Vec<Vec<u64>>)
        requires
            self.valid(),
        ensures
            lists.len() == self.buckets,
            forall|b: int|
                0 <= b < self.buckets ==> (#[trigger] lists@[b])@ == self.edges_of_bucket(b),
    {
        let mut lists: Vec<Vec<u64>> = Vec::new();
        while lists.len() < self.buckets
            invariant
                lists.len() <= self.buckets,
                forall|b: int|
                    0 <= b < lists.len() ==> (#[trigger] lists@[b])@ == Seq::<u64>::empty(),
            decreases self.buckets - lists.len(),
        {
            lists.push(Vec::new());
        }
        let size = bits::power_of_two(self.shift);
        proof {
            power2::lemma_pow2_pos(self.shift as nat);
            assert forall|b: int| 0 <= b < self.buckets implies (#[trigger] lists@[b])@
                == self.first_of_bucket(0, b) by {
                reveal(Seq::filter);
                assert(self.first_of_bucket(0, b) =~= Seq::empty());
            }
        }
        let mut i: u64 = 0;
        while i < self.count
            invariant
                self.valid(),
                i <= self.count,
                size == power2::pow2(self.shift as nat),
                size > 0,
                lists.len() == self.buckets,
                forall|b: int|
                    0 <= b < self.buckets ==> (#[trigger] lists@[b])@ == self.first_of_bucket(
                        i as int,
                        b,
                    ),
            decreases self.count - i,
        {
            let edge: u64 = self.base + i;
            let node = endpoint(self.keys, self.edge_bits, edge, self.side as u8);
            proof {
                self.lemma_bucket_bound(edge);
            }
            let bucket: usize = (node as u64 / size) as usize;
            let ghost before = lists@;
            lists[bucket].push(edge);
            proof {
                assert(self.first_edges(i + 1) =~= self.first_edges(i as int).push(edge));
                assert forall|b: int| 0 <= b < self.buckets implies (#[trigger] lists@[b])@
                    == self.first_of_bucket(i + 1, b) by {
                    self.first_edges(i as int).lemma_filter_push(
                        edge,
                        |e: u64| self.bucket(e) == b,
                    );
                    assert(before[b]@ == self.first_of_bucket(i as int, b));
                    if b == bucket {
                        assert(lists@[b]@ =~= before[b]@.push(edge));
                    } else {
                        assert(lists@[b] == before[b]);
                    }
                }
            }
            i = i + 1;
        }
        lists
    }
}

/// Words as wider numbers.
pub open spec fn widened(words: Seq<u32>) -> Seq<u64> {
    words.map_values(|word: u32| word as u64)
}

/// The words of a run in ascending order.
fn sorted_run(words: &Vec<u32>, start: usize, count: usize) -> (sorted: Vec<u64>)
    requires
        start + count <= words.len(),
    ensures
        sorted@ == verify::sorted_values(widened(words@.subrange(start as int, start + count))),
{
    let mut wide: Vec<u64> = Vec::new();
    let mut i: usize = 0;
    while i < count
        invariant
            i <= count,
            start + count <= words.len(),
            wide@ == widened(words@.subrange(start as int, start + i)),
        decreases count - i,
    {
        wide.push(words[start + i] as u64);
        i = i + 1;
        assert(wide@ =~= widened(words@.subrange(start as int, start + i)));
    }
    Proof::sorted(wide).nonces
}

pub(crate) fn same_values(a: &Vec<u64>, b: &Vec<u64>) -> (same: bool)
    ensures
        same == (a@ == b@),
{
    if a.len() != b.len() {
        return false;
    }
    let mut i: usize = 0;
    while i < a.len()
        invariant
            i <= a.len() == b.len(),
            forall|k: int| 0 <= k < i ==> #[trigger] a@[k] == b@[k],
        decreases a.len() - i,
    {
        if a[i] != b[i] {
            return false;
        }
        i = i + 1;
    }
    assert(a@ =~= b@);
    true
}

impl SeededRange {
    /// What is wrong with a bucket, if anything is.
    pub open spec fn bucket_complaint(
        self,
        counts: Seq<u32>,
        arena: Seq<u32>,
        capacity: int,
        bucket: int,
    ) -> Option<Seq<char>> {
        let count = counts[bucket] as int;
        let expected = self.edges_of_bucket(bucket);
        let start = bucket * capacity;
        if count > capacity || count != expected.len() {
            Some(
                "native bucket "@ + text::decimal(bucket as nat) + " count mismatch: "@
                    + text::decimal(count as nat) + " != "@ + text::decimal(expected.len()),
            )
        } else if verify::sorted_values(widened(arena.subrange(start, start + count)))
            != expected {
            Some(
                "native bucket "@ + text::decimal(bucket as nat)
                    + " payload differs from CPU oracle"@,
            )
        } else {
            None
        }
    }

    /// Whether `bucket` is the first one with something wrong.
    pub open spec fn first_wrong_bucket(
        self,
        counts: Seq<u32>,
        arena: Seq<u32>,
        capacity: int,
        bucket: int,
    ) -> bool {
        &&& 0 <= bucket < self.buckets
        &&& self.bucket_complaint(counts, arena, capacity, bucket) is Some
        &&& forall|b: int|
            0 <= b < bucket ==> #[trigger] self.bucket_complaint(counts, arena, capacity, b) is None
    }

    /// Checks the buckets that a device has filled: each holds the edges whose
    /// nodes lie in it, in any order.
    pub fn check_buckets(&self, counts: &Vec<u32>, arena: &Vec<u32>, capacity: usize) -> (result:
        Result<(), SolveError>)
        requires
            self.valid(),
            counts.len() == self.buckets,
            arena.len() == self.buckets * capacity,
        ensures
            match result {
                Ok(()) => forall|b: int|
                    0 <= b < self.buckets ==> #[trigger] self.bucket_complaint(
                        counts@,
                        arena@,
                        capacity as int,
                        b,
                    ) is None,
                Err(error) => exists|b: int| #[trigger]
                    self.first_wrong_bucket(counts@, arena@, capacity as int, b) && error@ == (
                        ErrorKind::Gpu,
                        self.bucket_complaint(counts@, arena@, capacity as int, b)->0,
                    ),
            },
    {
        let lists = self.expected_buckets();
        let mut bucket: usize = 0;
        while bucket < self.buckets
            invariant
                self.valid(),
                bucket <= self.buckets,
                counts.len() == self.buckets,
                arena.len() == self.buckets * capacity,
                lists.len() == self.buckets,
                forall|b: int|
                    0 <= b < self.buckets ==> (#[trigger] lists@[b])@ == self.edges_of_bucket(b),
                forall|b: int|
                    0 <= b < bucket ==> #[trigger] self.bucket_complaint(
                        counts@,
                        arena@,
                        capacity as int,
                        b,
                    ) is None,
            decreases self.buckets - bucket,
        {
            let count: u32 = counts[bucket];
            let expected = &lists[bucket];
            assert(expected@ == self.edges_of_bucket(bucket as int));
            let complaint = self.bucket_reason(bucket, count, arena, capacity, expected);
            match complaint {
                Some(reason) => {
                    assert(self.first_wrong_bucket(
                        counts@,
                        arena@,
                        capacity as int,
                        bucket as int,
                    ));
                    return Err(SolveError::Gpu(reason));
                },
                None => {},
            }
            bucket = bucket + 1;
        }
        Ok(())
    }

    fn bucket_reason(
        &self,
        bucket: usize,
        count: u32,
        arena: &Vec<u32>,
        capacity: usize,
        expected: &Vec<u64>,
    ) -> (reason: Option<String>)
        requires
            bucket < self.buckets,
            arena.len() == self.buckets * capacity,
            expected@ == self.edges_of_bucket(bucket as int),
        ensures
            forall|counts: Seq<u32>|
                #![trigger self.bucket_complaint(counts, arena@, capacity as int, bucket as int)]
                counts[bucket as int] == count ==> match reason {
                    Some(reason) => self.bucket_complaint(
                        counts,
                        arena@,
                        capacity as int,
                        bucket as int,
                    ) == Some(reason@),
                    None => self.bucket_complaint(
                        counts,
                        arena@,
                        capacity as int,
                        bucket as int,
                    ) is None,
                },
    {
        if count as u64 > capacity as u64 || count as u64 != expected.len() as u64 {
            let mut reason = text::around_decimal(
                "native bucket ",
                bucket as u64,
                " count mismatch: ",
            );
            text::append_decimal(&mut reason, count as u64);
            reason.append(" != ");
            text::append_decimal(&mut reason, expected.len() as u64);
            return Some(reason);
        }
        proof {
            let buckets = self.buckets as int;
            let cap = capacity as int;
            assert(bucket * cap + cap <= buckets * cap && bucket * cap >= 0) by (nonlinear_arith)
                requires
                    0 <= bucket < buckets,
                    cap >= 0,
            ;
        }
        let start: usize = bucket * capacity;
        let actual = sorted_run(arena, start, count as usize);
        if !same_values(&actual, expected) {
            return Some(
                text::around_decimal(
                    "native bucket ",
                    bucket as u64,
                    " payload differs from CPU oracle",
                ),
            );
        }
        None
    }
}

/// Whether words are the bitmap of the nodes that a run of edges touches.
pub open spec fn is_node_bitmap(
    graph: Graph,
    side: int,
    base: int,
    end: int,
    words: Seq<u32>,
) -> bool {
    &&& words.len() * 32 == graph.edge_count()
    &&& forall|node: int|
        0 <= node < graph.edge_count() ==> (#[trigger] edge_bitmap::edge_bit(words, node)
            <==> exists|edge: u64|
            base <= edge < end && #[trigger] graph.node(edge, side) == node)
}

/// The bitmap of the nodes that a run of edges touches.
pub fn node_bitmap(keys: SipKeys, edge_bits: u8, side: u32, base: u64, count: u64) -> (words: Vec<
    u32,
>)
    requires
        5 <= edge_bits <= 32,
        side < 2,
        base + count <= u64::MAX,
    ensures
        is_node_bitmap(
            Graph { keys, edge_bits },
            side as int,
            base as int,
            base + count,
            words@,
        ),
{
    let ghost graph = Graph { keys, edge_bits };
    let edge_count = bits::power_of_two(edge_bits);
    proof {
        power2::lemma_pow2_adds((edge_bits - 5) as nat, 5);
        power2::lemma2_to64();
        crate::siphash::lemma_node_bound(keys, edge_bits, 0, 0);
    }
    let mut words = edge_bitmap::cleared((edge_count / 32) as usize);
    let mut i: u64 = 0;
    while i < count
        invariant
            graph == (Graph { keys, edge_bits }),
            5 <= edge_bits <= 32,
            side < 2,
            i <= count,
            base + count <= u64::MAX,
            is_node_bitmap(graph, side as int, base as int, base + i, words@),
        decreases count - i,
    {
        let edge: u64 = base + i;
        let node = endpoint(keys, edge_bits, edge, side as u8);
        proof {
            crate::siphash::lemma_node_bound(keys, edge_bits, edge, side as int);
        }
        let ghost before = words@;
        edge_bitmap::set_bit(&mut words, node as u64);
        proof {
            assert forall|v: int| 0 <= v < graph.edge_count() implies (
            #[trigger] edge_bitmap::edge_bit(words@, v) <==> exists|e: u64|
                base <= e < base + i + 1 && #[trigger] graph.node(e, side as int) == v) by {
                assert(edge_bitmap::edge_bit(words@, v) <==> (v == node || edge_bitmap::edge_bit(
                    before,
                    v,
                )));
                if edge_bitmap::edge_bit(before, v) {
                    let e = choose|e: u64|
                        base <= e < base + i && #[trigger] graph.node(e, side as int) == v;
                    assert(base <= e < base + i + 1 && graph.node(e, side as int) == v);
                }
                if v == node {
                    assert(base <= edge < base + i + 1 && graph.node(edge, side as int) == v);
                }
            }
        }
        i = i + 1;
    }
    words
}

/// Checks the nodes that a device has marked for a run of edges.
pub fn check_marks(
    keys: SipKeys,
    edge_bits: u8,
    side: u32,
    base: u64,
    count: u64,
    actual: &Vec<u32>,
) -> (result: Result<(), SolveError>)
    requires
        5 <= edge_bits <= 32,
        side < 2,
        base + count <= u64::MAX,
        actual.len() * 32 == (Graph { keys, edge_bits }).edge_count(),
    ensures
        exists|expected: Seq<u32>| #[trigger]
            is_node_bitmap(
                Graph { keys, edge_bits },
                side as int,
                base as int,
                base + count,
                expected,
            ) && compared(result, actual@, expected, "native bucket mark differs at word "@),
{
    let expected = node_bitmap(keys, edge_bits, side, base, count);
    compare_words(actual, &expected, "native bucket mark differs at word ")
}

/// Whether words are the bitmap of the edges that a round on a side leaves of a
/// whole graph.
pub open spec fn is_round_bitmap(graph: Graph, side: int, words: Seq<u32>) -> bool {
    &&& words.len() * 32 == graph.edge_count()
    &&& edge_bitmap::edge_set(words, graph.edge_count() as int) == cpu_lean::trimmed_once(
        graph,
        cpu_lean::all_edges(graph),
        side,
    )
}

/// The bitmap of the edges that a round on a side leaves of a whole graph.
pub fn round_bitmap(keys: SipKeys, edge_bits: u8, side: u32) -> (words: Vec<u32>)
    requires
        5 <= edge_bits <= 32,
        side < 2,
    ensures
        is_round_bitmap(Graph { keys, edge_bits }, side as int, words@),
{
    let ghost graph = Graph { keys, edge_bits };
    let ghost all = cpu_lean::all_edges(graph);
    let ghost s = side as int;
    let edge_count = bits::power_of_two(edge_bits);
    let occupied = node_bitmap(keys, edge_bits, side, 0, edge_count);
    let mut words = edge_bitmap::cleared(occupied.len());
    let mut edge: u64 = 0;
    while edge < edge_count
        invariant
            graph == (Graph { keys, edge_bits }),
            all == cpu_lean::all_edges(graph),
            s == side as int,
            5 <= edge_bits <= 32,
            side < 2,
            edge_count == graph.edge_count(),
            edge <= edge_count,
            words.len() == occupied.len(),
            words.len() * 32 == edge_count,
            is_node_bitmap(graph, s, 0, edge_count as int, occupied@),
            forall|e: int|
                0 <= e < edge_count ==> (#[trigger] edge_bitmap::edge_bit(words@, e) <==> e < edge
                    && graph.has_partner(all, e as u64, s)),
        decreases edge_count - edge,
    {
        let node = endpoint(keys, edge_bits, edge, side as u8);
        let mate = bits::flip(node);
        let ghost before = words@;
        proof {
            crate::siphash::lemma_node_bound(keys, edge_bits, edge, s);
            power2::lemma_pow2_adds(1, (edge_bits - 1) as nat);
            power2::lemma2_to64();
            bits::lemma_mate_below(node, graph.edge_count());
        }
        let taken = edge_bitmap::is_set(&occupied, mate as u64);
        proof {
            assert(taken <==> graph.has_partner(all, edge, s)) by {
                if taken {
                    let other = choose|other: u64|
                        0 <= other < edge_count && #[trigger] graph.node(other, s) == mate;
                    assert(all.contains(other) && graph.meet(edge, other, s));
                }
                if graph.has_partner(all, edge, s) {
                    let other = choose|other: u64| #[trigger]
                        all.contains(other) && graph.meet(edge, other, s);
                    assert(0 <= other < edge_count && graph.node(other, s) == mate);
                }
            }
        }
        if taken {
            edge_bitmap::set_bit(&mut words, edge);
        }
        edge = edge + 1;
    }
    assert(edge_bitmap::edge_set(words@, graph.edge_count() as int) =~= cpu_lean::trimmed_once(
        graph,
        all,
        s,
    ));
    words
}

/// Checks the edges that a device left of a whole graph after one round.
pub fn check_round(keys: SipKeys, edge_bits: u8, side: u32, actual: &Vec<u32>) -> (result: Result<
    (),
    SolveError,
>)
    requires
        5 <= edge_bits <= 32,
        side < 2,
        actual.len() * 32 == (Graph { keys, edge_bits }).edge_count(),
    ensures
        exists|expected: Seq<u32>| #[trigger]
            is_round_bitmap(Graph { keys, edge_bits }, side as int, expected) && compared(
                result,
                actual@,
                expected,
                "native four-part trim differs at word "@,
            ),
{
    let expected = round_bitmap(keys, edge_bits, side);
    compare_words(actual, &expected, "native four-part trim differs at word ")
}

impl SeededRange {
    /// The edges that four arenas list for a bucket.
    pub open spec fn listed_in_arenas(
        self,
        arenas: Seq<Vec<u32>>,
        capacity: int,
        bucket: int,
    ) -> Seq<u32> {
        let width = self.buckets as int / 4;
        let words = arenas[bucket / width]@;
        let local = bucket % width;
        let count = if words[local] <= capacity {
            words[local] as int
        } else {
            capacity
        };
        let start = width + 1 + local * capacity;
        words.subrange(start, start + count)
    }

    /// Whether four arenas list the right edges for a bucket.
    pub open spec fn bucket_is_right(
        self,
        arenas: Seq<Vec<u32>>,
        capacity: int,
        bucket: int,
    ) -> bool {
        verify::sorted_values(widened(self.listed_in_arenas(arenas, capacity, bucket)))
            == self.edges_of_bucket(bucket)
    }

    /// Whether some arena had too little room.
    pub open spec fn some_overflow(self, arenas: Seq<Vec<u32>>) -> bool {
        exists|i: int| 0 <= i < 4 && (#[trigger] arenas[i])@[self.buckets as int / 4] != 0
    }

    /// Checks the four arenas that a device has filled.  Each holds a quarter of
    /// the buckets: their counts, the overflow word, and their edges.
    pub fn check_arenas(&self, arenas: &Vec<Vec<u32>>, capacity: usize) -> (result: Result<
        (),
        SolveError,
    >)
        requires
            self.valid(),
            self.buckets >= 4,
            self.buckets % 4 == 0,
            arenas.len() == 4,
            forall|i: int|
                0 <= i < 4 ==> (#[trigger] arenas@[i]).len() == self.buckets / 4 + 1 + self.buckets
                    / 4 * capacity,
        ensures
            match result {
                Ok(()) => !self.some_overflow(arenas@) && forall|b: int|
                    0 <= b < self.buckets ==> #[trigger] self.bucket_is_right(
                        arenas@,
                        capacity as int,
                        b,
                    ),
                Err(error) => if self.some_overflow(arenas@) {
                    error@ == (ErrorKind::Gpu, "slean seed oracle overflowed"@)
                } else {
                    &&& error@ == (
                        ErrorKind::Gpu,
                        "slean GPU seed buckets differ from the CPU oracle"@,
                    )
                    &&& exists|b: int|
                        0 <= b < self.buckets && !#[trigger] self.bucket_is_right(
                            arenas@,
                            capacity as int,
                            b,
                        )
                },
            },
    {
        let width: usize = self.buckets / 4;
        let mut index: usize = 0;
        while index < 4
            invariant
                index <= 4,
                width == self.buckets / 4,
                arenas.len() == 4,
                forall|i: int|
                    0 <= i < 4 ==> (#[trigger] arenas@[i]).len() == width + 1 + width * capacity,
                forall|i: int| 0 <= i < index ==> (#[trigger] arenas@[i])@[width as int] == 0,
            decreases 4 - index,
        {
            let words = &arenas[index];
            assert(words.len() == width + 1 + width * capacity);
            assert(width * capacity >= 0) by (nonlinear_arith);
            if words[width] != 0 {
                assert(arenas@[index as int]@[width as int] != 0);
                return Err(SolveError::Gpu(String::from_str("slean seed oracle overflowed")));
            }
            index = index + 1;
        }
        assert(!self.some_overflow(arenas@));
        let lists = self.expected_buckets();
        let mut bucket: usize = 0;
        while bucket < self.buckets
            invariant
                self.valid(),
                self.buckets % 4 == 0,
                width == self.buckets / 4,
                width > 0,
                bucket <= self.buckets,
                arenas.len() == 4,
                forall|i: int|
                    0 <= i < 4 ==> (#[trigger] arenas@[i]).len() == width + 1 + width * capacity,
                lists.len() == self.buckets,
                forall|b: int|
                    0 <= b < self.buckets ==> (#[trigger] lists@[b])@ == self.edges_of_bucket(b),
                forall|b: int|
                    0 <= b < bucket ==> #[trigger] self.bucket_is_right(
                        arenas@,
                        capacity as int,
                        b,
                    ),
                !self.some_overflow(arenas@),
            decreases self.buckets - bucket,
        {
            let shard: usize = bucket / width;
            let local: usize = bucket % width;
            proof {
                let b = bucket as int;
                let w = width as int;
                let cap = capacity as int;
                assert(0 <= b / w < 4 && 0 <= b % w < w) by (nonlinear_arith)
                    requires
                        0 <= b < 4 * w,
                        w > 0,
                ;
                assert(local * cap + cap <= w * cap && local * cap >= 0) by (nonlinear_arith)
                    requires
                        0 <= local < w,
                        cap >= 0,
                ;
            }
            let words = &arenas[shard];
            assert(words.len() == width + 1 + width * capacity);
            let count: usize = if words[local] as u64 <= capacity as u64 {
                words[local] as usize
            } else {
                capacity
            };
            let start: usize = width + 1 + local * capacity;
            let actual = sorted_run(words, start, count);
            if !same_values(&actual, &lists[bucket]) {
                assert(lists@[bucket as int]@ == self.edges_of_bucket(bucket as int));
                assert(!self.bucket_is_right(arenas@, capacity as int, bucket as int));
                return Err(
                    SolveError::Gpu(
                        String::from_str("slean GPU seed buckets differ from the CPU oracle"),
                    ),
                );
            }
            assert(lists@[bucket as int]@ == self.edges_of_bucket(bucket as int));
            bucket = bucket + 1;
        }
        Ok(())
    }
}

/// The values of a probe are those of one step after the other: each is the last
/// one plus a fixed number, in 32 bits.
pub proof fn lemma_probe_values_advance_evenly(index: nat)
    ensures
        probe_value(0) == 1_013_904_223,
        (probe_value(index as int) + 1_664_526) % 0x1_0000_0000 == probe_value(
            index as int + 1,
        ),
{
    let here = index as int * 1_664_525 + 1_013_904_223 + index;
    let next = (index + 1) * 1_664_525 + 1_013_904_223 + (index + 1);
    assert(next == here + 1_664_526);
    vstd::arithmetic::div_mod::lemma_add_mod_noop(here, 1_664_526, 0x1_0000_0000);
}

proof fn first_of_bucket_is_all(range: SeededRange, end: int, bucket: int)
    requires
        0 <= end <= range.count,
        range.base + range.count <= 0x1_0000_0000,
    ensures
        verify::is_strictly_ascending(range.first_of_bucket(end, bucket)),
        forall|edge: u64| #[trigger]
            range.first_of_bucket(end, bucket).contains(edge) <==> range.base <= edge < range.base
                + end && range.bucket(edge) == bucket,
    decreases end,
{
    reveal(Seq::filter);
    let all = range.first_edges(end);
    let list = range.first_of_bucket(end, bucket);
    if end > 0 {
        first_of_bucket_is_all(range, end - 1, bucket);
        assert(all.drop_last() =~= range.first_edges(end - 1));
        let before = range.first_of_bucket(end - 1, bucket);
        let last = (range.base + end - 1) as u64;
        assert(list == if range.bucket(last) == bucket {
            before.push(last)
        } else {
            before
        });
        assert forall|i: int| 0 <= i < before.len() implies #[trigger] before[i] < last by {
            assert(before.contains(before[i]));
        }
        assert forall|edge: u64| #[trigger] list.contains(edge) <==> range.base <= edge < range.base
            + end && range.bucket(edge) == bucket by {
            if range.bucket(last) == bucket {
                assert(list[before.len() as int] == last);
                if before.contains(edge) {
                    let i = choose|i: int| 0 <= i < before.len() && before[i] == edge;
                    assert(list[i] == edge);
                }
                if list.contains(edge) && edge != last {
                    let i = choose|i: int| 0 <= i < list.len() && list[i] == edge;
                    assert(before[i] == edge);
                }
            }
        }
    }
}

/// The edges of a bucket are all those of the range whose node falls into it, in
/// ascending order.
pub proof fn lemma_buckets_hold_their_edges(range: SeededRange, bucket: int, edge: u64)
    requires
        range.valid(),
    ensures
        verify::is_strictly_ascending(range.edges_of_bucket(bucket)),
        range.edges_of_bucket(bucket).contains(edge) <==> range.base <= edge < range.base
            + range.count && range.graph().node(edge, range.side as int) as int / power2::pow2(
            range.shift as nat,
        ) as int == bucket,
{
    first_of_bucket_is_all(range, range.count as int, bucket);
}

proof fn sorting_keeps_values(values: Seq<u64>, value: u64)
    ensures
        verify::sorted_values(values).contains(value) <==> values.contains(value),
{
    broadcast use vstd::seq_lib::group_to_multiset_ensures;

    let leq = |a: u64, b: u64| a <= b;
    assert(vstd::relations::total_ordering(leq));
    values.lemma_sort_by_ensures(leq);
    assert(verify::sorted_values(values).to_multiset().count(value) == values.to_multiset().count(
        value,
    ));
}

/// A bucket that is not complained of holds exactly its edges, and one that holds
/// its edges, in whatever order, is not complained of.
pub proof fn lemma_right_buckets_hold_their_edges(
    range: SeededRange,
    counts: Seq<u32>,
    arena: Seq<u32>,
    capacity: int,
    bucket: int,
    edge: u32,
)
    requires
        range.valid(),
        0 <= bucket < counts.len(),
        0 <= capacity,
        bucket * capacity + capacity <= arena.len(),
        0 <= bucket * capacity,
    ensures
        range.bucket_complaint(counts, arena, capacity, bucket) is None ==> {
            &&& counts[bucket] <= capacity
            &&& counts[bucket] == range.edges_of_bucket(bucket).len()
            &&& arena.subrange(bucket * capacity, bucket * capacity + counts[bucket]).contains(edge)
                <==> range.base <= edge < range.base + range.count && range.bucket(edge as u64)
                == bucket
        },
        counts[bucket] <= capacity && widened(
            arena.subrange(bucket * capacity, bucket * capacity + counts[bucket]),
        ).to_multiset() == range.edges_of_bucket(bucket).to_multiset()
            ==> range.bucket_complaint(counts, arena, capacity, bucket) is None,
{
    let start = bucket * capacity;
    let count = counts[bucket] as int;
    let list = range.edges_of_bucket(bucket);
    lemma_buckets_hold_their_edges(range, bucket, edge as u64);
    if count <= capacity {
        let run = arena.subrange(start, start + count);
        let wide = widened(run);
        sorting_keeps_values(wide, edge as u64);
        assert(run.contains(edge) <==> wide.contains(edge as u64)) by {
            if run.contains(edge) {
                let i = choose|i: int| 0 <= i < run.len() && run[i] == edge;
                assert(wide[i] == edge as u64);
            }
            if wide.contains(edge as u64) {
                let i = choose|i: int| 0 <= i < wide.len() && wide[i] == edge as u64;
                assert(run[i] == edge);
            }
        }
        if wide.to_multiset() == list.to_multiset() {
            broadcast use vstd::seq_lib::group_to_multiset_ensures;

            assert(wide.len() == wide.to_multiset().len());
            assert(list.len() == list.to_multiset().len());
            verify::lemma_sorted_values(wide, list);
        }
    }
}

/// Four arenas that are right list exactly the edges of a bucket, in the arena of
/// its quarter.
pub proof fn lemma_right_arenas_list_their_edges(
    range: SeededRange,
    arenas: Seq<Vec<u32>>,
    capacity: int,
    bucket: int,
    edge: u32,
)
    requires
        range.valid(),
        range.bucket_is_right(arenas, capacity, bucket),
    ensures
        range.listed_in_arenas(arenas, capacity, bucket).contains(edge) <==> range.base <= edge
            < range.base + range.count && range.bucket(edge as u64) == bucket,
{
    let run = range.listed_in_arenas(arenas, capacity, bucket);
    let wide = widened(run);
    lemma_buckets_hold_their_edges(range, bucket, edge as u64);
    sorting_keeps_values(wide, edge as u64);
    if run.contains(edge) {
        let i = choose|i: int| 0 <= i < run.len() && run[i] == edge;
        assert(wide[i] == edge as u64);
    }
    if wide.contains(edge as u64) {
        let i = choose|i: int| 0 <= i < wide.len() && wide[i] == edge as u64;
        assert(run[i] == edge);
    }
}

} // verus!
