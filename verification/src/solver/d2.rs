//! Search for cycles of 42 edges, two edges at a step.

use crate::bits;
use crate::siphash::endpoint;
use crate::solver::radix::{self, equal_range, radix_order};
use crate::solver::search::{self, find_cycle, Search, Space, MAX_SEARCH_BRANCHES};
use crate::solver::{ErrorKind, GraphParams, SolveError};
use crate::verify::{self, verify_cycle, Proof};
use vstd::prelude::*;

verus! {

/// The largest number of arcs that are kept.
pub const ARC_CAP: usize = 16_777_216;

/// The number of arcs in a cycle of 42 edges.
pub const RING: usize = 21;

/// Two edges on from some position: over `mid` to `dst`.
#[derive(Debug, Clone, Copy, PartialEq, Eq, Structural)]
pub struct Arc {
    pub dst: u32,
    pub mid: u32,
}

impl Space {
    /// The arcs from `src` over `mid` to positions below `end`, in the order of
    /// their ends.
    pub open spec fn arcs_over(self, src: u32, mid: u32, end: nat) -> Seq<Arc>
        decreases end,
    {
        if end == 0 {
            Seq::empty()
        } else {
            let before = self.arcs_over(src, mid, (end - 1) as nat);
            let dst = (end - 1) as u32;
            if self.joined(mid as usize, dst as usize, 1) && dst != src {
                before.push(Arc { dst, mid })
            } else {
                before
            }
        }
    }

    /// The arcs from `src` over positions below `end`, in their order.
    pub open spec fn arcs_below(self, src: u32, end: nat) -> Seq<Arc>
        decreases end,
    {
        if end == 0 {
            Seq::empty()
        } else {
            let before = self.arcs_below(src, (end - 1) as nat);
            let mid = (end - 1) as u32;
            if self.joined(src as usize, mid as usize, 0) {
                before + self.arcs_over(src, mid, self.edges.len())
            } else {
                before
            }
        }
    }

    /// The arcs from `src`.
    pub open spec fn arcs(self, src: u32) -> Seq<Arc> {
        self.arcs_below(src, self.edges.len())
    }

    /// The arcs from all positions below `end`.
    pub open spec fn all_arcs(self, end: nat) -> Seq<Arc>
        decreases end,
    {
        if end == 0 {
            Seq::empty()
        } else {
            self.all_arcs((end - 1) as nat) + self.arcs((end - 1) as u32)
        }
    }

    /// The edges on a ring of arcs.
    pub open spec fn ring_edges(self, path: Seq<u32>, mids: Seq<u32>) -> Seq<u64> {
        Seq::new(
            42,
            |k: int|
                if k % 2 == 0 {
                    self.edges[path[k / 2] as int]
                } else {
                    self.edges[mids[k / 2] as int]
                },
        )
    }

    /// The proof that a ring gives, if it passes the check.
    pub open spec fn accepted_ring(self, path: Seq<u32>, mids: Seq<u32>) -> Option<Seq<u64>> {
        let nonces = verify::sorted_values(self.ring_edges(path, mids));
        if verify::verdict(self.graph, 42, nonces) is Ok {
            Some(nonces)
        } else {
            None
        }
    }

    /// The search of all continuations of a path that take arc `at` of its end,
    /// or a later one.  Every arc counts as a branch.
    pub open spec fn follow(self, path: Seq<u32>, mids: Seq<u32>, at: nat, branches: nat) -> Search
        decreases RING - path.len(), self.arcs(path.last()).len() - at,
    {
        let arcs = self.arcs(path.last());
        if at >= arcs.len() {
            Search::Nothing(branches)
        } else if branches >= MAX_SEARCH_BRANCHES {
            Search::Limit
        } else {
            let arc = arcs[at as int];
            if arc.dst == path[0] {
                if path.len() == RING && self.accepted_ring(path, mids.push(arc.mid)) is Some {
                    Search::Found(self.accepted_ring(path, mids.push(arc.mid))->0)
                } else {
                    self.follow(path, mids, at + 1, branches + 1)
                }
            } else if path.len() >= RING || path.contains(arc.dst) {
                self.follow(path, mids, at + 1, branches + 1)
            } else {
                match self.follow(path.push(arc.dst), mids.push(arc.mid), 0, branches + 1) {
                    Search::Nothing(used) => self.follow(path, mids, at + 1, used),
                    end => end,
                }
            }
        }
    }

    /// The search of all rings that start at position `start` or later.
    pub open spec fn ring_search_from(self, start: nat, branches: nat) -> Search
        decreases self.edges.len() - start,
    {
        if start >= self.edges.len() {
            Search::Nothing(branches)
        } else {
            match self.follow(seq![start as u32], seq![], 0, branches) {
                Search::Nothing(used) => self.ring_search_from(start + 1, used),
                end => end,
            }
        }
    }
}

/// What a search for rings of 42 edges returns.
pub open spec fn ring_result(space: Space, result: Result<Option<Proof>, SolveError>) -> bool {
    if space.edges.len() > u32::MAX {
        result matches Err(error) && error@ == (
            ErrorKind::Unsupported,
            "D2 survivor index exceeds u32"@,
        )
    } else if space.all_arcs(space.edges.len()).len() > ARC_CAP {
        result matches Err(error) && error@ == (
            ErrorKind::SearchLimit,
            "D2 adjacency exceeded 16777216 arcs"@,
        )
    } else {
        search::reports(
            result,
            space.ring_search_from(0, 0),
            "more than 100000000 branches in D2 search"@,
        )
    }
}

/// What a search for cycles of the requested length returns.
pub open spec fn d2_result(
    request: GraphParams,
    edges: Seq<u64>,
    result: Result<Option<Proof>, SolveError>,
) -> bool {
    let space = request.space(edges);
    if edges.len() < request.cycle_length {
        result matches Ok(None)
    } else if request.cycle_length != 42 {
        search::reports(
            result,
            space.search(),
            "more than 100000000 branches in generic cycle search"@,
        )
    } else {
        ring_result(space, result)
    }
}

/// The nodes of the searched edges and their order on both sides.
struct Orders {
    even: Vec<u32>,
    odd: Vec<u32>,
    even_order: Vec<u32>,
    odd_order: Vec<u32>,
}

impl Orders {
    spec fn valid(self, space: Space) -> bool {
        &&& self.even@ == verify::side_nodes(space.graph, space.edges, 0)
        &&& self.odd@ == verify::side_nodes(space.graph, space.edges, 1)
        &&& radix::is_sorted_order(self.even_order@, self.even@)
        &&& radix::is_sorted_order(self.odd_order@, self.odd@)
    }
}

fn order_edges(request: GraphParams, survivors: &[u64]) -> (orders: Orders)
    requires
        request.edge_bits < 64,
        survivors.len() <= u32::MAX,
    ensures
        orders.valid(request.space(survivors@)),
{
    let ghost graph = request.graph();
    let mut even: Vec<u32> = Vec::with_capacity(survivors.len());
    let mut odd: Vec<u32> = Vec::with_capacity(survivors.len());
    let mut i: usize = 0;
    while i < survivors.len()
        invariant
            request.edge_bits < 64,
            graph == request.graph(),
            i <= survivors.len(),
            even.len() == i,
            odd.len() == i,
            forall|k: int| 0 <= k < i ==> #[trigger] even@[k] == graph.node(survivors@[k], 0),
            forall|k: int| 0 <= k < i ==> #[trigger] odd@[k] == graph.node(survivors@[k], 1),
        decreases survivors.len() - i,
    {
        even.push(endpoint(request.keys, request.edge_bits, survivors[i], 0));
        odd.push(endpoint(request.keys, request.edge_bits, survivors[i], 1));
        i = i + 1;
    }
    let even_order = radix_order(even.as_slice());
    let odd_order = radix_order(odd.as_slice());
    assert(even@ =~= verify::side_nodes(graph, survivors@, 0));
    assert(odd@ =~= verify::side_nodes(graph, survivors@, 1));
    Orders { even, odd, even_order, odd_order }
}

/// A range of a sorted order that holds exactly the places of one key.
spec fn is_run(order: Seq<u32>, keys: Seq<u32>, wanted: u32, begin: int, end: int) -> bool {
    &&& radix::is_sorted_order(order, keys)
    &&& 0 <= begin <= end <= order.len() <= u32::MAX
    &&& forall|a: int| 0 <= a < begin ==> keys[#[trigger] order[a] as int] < wanted
    &&& forall|a: int| begin <= a < end ==> keys[#[trigger] order[a] as int] == wanted
    &&& forall|a: int| end <= a < order.len() ==> keys[#[trigger] order[a] as int] > wanted
}

/// Between two neighbours in a run the key does not occur.
proof fn lemma_run_gap(order: Seq<u32>, keys: Seq<u32>, wanted: u32, begin: int, end: int, at: int)
    requires
        is_run(order, keys, wanted, begin, end),
        begin <= at <= end,
    ensures
        forall|i: int|
            (if at == begin {
                0
            } else {
                order[at - 1] + 1
            }) <= i < (if at == end {
                keys.len() as int
            } else {
                order[at] as int
            }) ==> #[trigger] keys[i] != wanted,
        at > begin ==> order[at - 1] < keys.len(),
        begin < at < end ==> order[at - 1] < order[at],
{
    if at > begin {
        assert(order[at - 1] < keys.len());
    }
    if at < end {
        assert(order[at] < keys.len());
    }
    if begin < at < end {
        assert(keys[order[at - 1] as int] == keys[order[at] as int]);
    }
    assert forall|i: int|
        (if at == begin {
            0
        } else {
            order[at - 1] + 1
        }) <= i < (if at == end {
            keys.len() as int
        } else {
            order[at] as int
        }) implies #[trigger] keys[i] != wanted by {
        if keys[i] == wanted {
            radix::lemma_order_is_complete(order, keys, i);
            let a = choose|a: int| 0 <= a < order.len() && order[a] == i as u32;
            assert(keys[order[a] as int] == wanted);
            assert(begin <= a < end);
            if a < at {
                if a < at - 1 {
                    assert(order[a] < order[at - 1]);
                }
            } else if a > at {
                assert(order[at] < order[a]);
            }
        }
    }
}

fn find_run(order: &Vec<u32>, keys: &Vec<u32>, wanted: u32) -> (range: (usize, usize))
    requires
        radix::is_sorted_order(order@, keys@),
        keys.len() <= u32::MAX,
    ensures
        is_run(order@, keys@, wanted, range.0 as int, range.1 as int),
{
    equal_range(order.as_slice(), keys.as_slice(), wanted)
}

proof fn lemma_no_arcs_over(space: Space, src: u32, mid: u32, from: nat, to: nat)
    requires
        from <= to <= space.edges.len() <= u32::MAX,
        forall|i: nat|
            from <= i < to ==> !space.joined(mid as usize, #[trigger] (i as usize), 1) || i == src,
    ensures
        space.arcs_over(src, mid, to) == space.arcs_over(src, mid, from),
    decreases to - from,
{
    if from < to {
        let last = (to - 1) as nat;
        assert(last as u32 as usize == last as usize);
        assert(!space.joined(mid as usize, last as usize, 1) || last == src);
        lemma_no_arcs_over(space, src, mid, from, last);
    }
}

proof fn lemma_no_arcs_below(space: Space, src: u32, from: nat, to: nat)
    requires
        from <= to <= space.edges.len() <= u32::MAX,
        forall|i: nat|
            from <= i < to ==> !space.joined(src as usize, #[trigger] (i as usize), 0),
    ensures
        space.arcs_below(src, to) == space.arcs_below(src, from),
    decreases to - from,
{
    if from < to {
        let last = (to - 1) as nat;
        assert(last as u32 as usize == last as usize);
        assert(!space.joined(src as usize, last as usize, 0));
        lemma_no_arcs_below(space, src, from, last);
    }
}

proof fn lemma_arcs_over_grow(space: Space, src: u32, mid: u32, from: nat, to: nat)
    requires
        from <= to,
    ensures
        space.arcs_over(src, mid, from).len() <= space.arcs_over(src, mid, to).len(),
    decreases to - from,
{
    if from < to {
        lemma_arcs_over_grow(space, src, mid, from, (to - 1) as nat);
    }
}

proof fn lemma_arcs_below_grow(space: Space, src: u32, from: nat, to: nat)
    requires
        from <= to,
    ensures
        space.arcs_below(src, from).len() <= space.arcs_below(src, to).len(),
    decreases to - from,
{
    if from < to {
        lemma_arcs_below_grow(space, src, from, (to - 1) as nat);
    }
}

proof fn lemma_all_arcs_grow(space: Space, from: nat, to: nat)
    requires
        from <= to,
    ensures
        space.all_arcs(from).len() <= space.all_arcs(to).len(),
    decreases to - from,
{
    if from < to {
        lemma_all_arcs_grow(space, from, (to - 1) as nat);
    }
}

/// Appends the arcs from `src` over `mid`, unless there would be too many.
fn push_arcs_over(
    orders: &Orders,
    arcs: &mut Vec<Arc>,
    src: u32,
    mid: u32,
    Ghost(space): Ghost<Space>,
) -> (fits: bool)
    requires
        orders.valid(space),
        space.edges.len() <= u32::MAX,
        src < space.edges.len(),
        mid < space.edges.len(),
        old(arcs).len() <= ARC_CAP,
    ensures
        fits <==> old(arcs).len() + space.arcs_over(src, mid, space.edges.len()).len() <= ARC_CAP,
        fits ==> final(arcs)@ == old(arcs)@ + space.arcs_over(src, mid, space.edges.len()),
{
    let ghost n = space.edges.len();
    let ghost start = arcs@;
    let wanted = bits::flip(orders.odd[mid as usize]);
    let (begin, end) = find_run(&orders.odd_order, &orders.odd, wanted);
    let mut at: usize = begin;
    let ghost mut from: nat = 0;
    assert(arcs@ =~= start + space.arcs_over(src, mid, 0));
    while at < end
        invariant
            orders.valid(space),
            n == space.edges.len() <= u32::MAX,
            mid < n,
            wanted == bits::mate(orders.odd@[mid as int]),
            is_run(orders.odd_order@, orders.odd@, wanted, begin as int, end as int),
            begin <= at <= end,
            from == if at == begin {
                0
            } else {
                orders.odd_order@[at - 1] as nat + 1
            },
            from <= n,
            arcs.len() <= ARC_CAP,
            start == old(arcs)@,
            arcs@ == start + space.arcs_over(src, mid, from),
        decreases end - at,
    {
        let dst: u32 = orders.odd_order[at];
        proof {
            lemma_run_gap(
                orders.odd_order@,
                orders.odd@,
                wanted,
                begin as int,
                end as int,
                at as int,
            );
            assert(dst < n) by {
                assert(orders.odd_order@[at as int] < orders.odd@.len());
            }
            assert forall|i: nat| from <= i < dst implies !space.joined(
                mid as usize,
                #[trigger] (i as usize),
                1,
            ) || i == src by {
                assert(orders.odd@[i as int] != wanted);
            }
            lemma_no_arcs_over(space, src, mid, from, dst as nat);
            assert(orders.odd@[dst as int] == wanted);
            let next = dst as nat + 1;
            assert((next - 1) as u32 == dst);
            assert(space.joined(mid as usize, dst as usize, 1));
        }
        if dst != src {
            if arcs.len() == ARC_CAP {
                proof {
                    lemma_arcs_over_grow(space, src, mid, dst as nat + 1, n);
                }
                return false;
            }
            arcs.push(Arc { dst, mid });
        }
        proof {
            from = dst as nat + 1;
            assert(arcs@ =~= start + space.arcs_over(src, mid, from));
        }
        at = at + 1;
    }
    proof {
        lemma_run_gap(orders.odd_order@, orders.odd@, wanted, begin as int, end as int, end as int);
        assert forall|i: nat| from <= i < n implies !space.joined(
            mid as usize,
            #[trigger] (i as usize),
            1,
        ) || i == src by {
            assert(orders.odd@[i as int] != wanted);
        }
        lemma_no_arcs_over(space, src, mid, from, n);
    }
    true
}

/// Appends the arcs from `src`, unless there would be too many.
fn push_arcs(orders: &Orders, arcs: &mut Vec<Arc>, src: u32, Ghost(space): Ghost<Space>) -> (fits:
    bool)
    requires
        orders.valid(space),
        space.edges.len() <= u32::MAX,
        src < space.edges.len(),
        old(arcs).len() <= ARC_CAP,
    ensures
        fits <==> old(arcs).len() + space.arcs(src).len() <= ARC_CAP,
        fits ==> final(arcs)@ == old(arcs)@ + space.arcs(src),
{
    let ghost n = space.edges.len();
    let ghost start = arcs@;
    let wanted = bits::flip(orders.even[src as usize]);
    let (begin, end) = find_run(&orders.even_order, &orders.even, wanted);
    let mut at: usize = begin;
    let ghost mut from: nat = 0;
    assert(arcs@ =~= start + space.arcs_below(src, 0));
    while at < end
        invariant
            orders.valid(space),
            n == space.edges.len() <= u32::MAX,
            src < n,
            wanted == bits::mate(orders.even@[src as int]),
            is_run(orders.even_order@, orders.even@, wanted, begin as int, end as int),
            begin <= at <= end,
            from == if at == begin {
                0
            } else {
                orders.even_order@[at - 1] as nat + 1
            },
            from <= n,
            arcs.len() <= ARC_CAP,
            start == old(arcs)@,
            arcs@ == start + space.arcs_below(src, from),
        decreases end - at,
    {
        let mid: u32 = orders.even_order[at];
        proof {
            lemma_run_gap(
                orders.even_order@,
                orders.even@,
                wanted,
                begin as int,
                end as int,
                at as int,
            );
            assert(mid < n) by {
                assert(orders.even_order@[at as int] < orders.even@.len());
            }
            assert forall|i: nat| from <= i < mid implies !space.joined(
                src as usize,
                #[trigger] (i as usize),
                0,
            ) by {
                assert(orders.even@[i as int] != wanted);
            }
            lemma_no_arcs_below(space, src, from, mid as nat);
            assert(orders.even@[mid as int] == wanted);
            let next = mid as nat + 1;
            assert((next - 1) as u32 == mid);
            assert(space.joined(src as usize, mid as usize, 0));
        }
        let ghost before = arcs@;
        if !push_arcs_over(orders, arcs, src, mid, Ghost(space)) {
            proof {
                lemma_arcs_below_grow(space, src, mid as nat + 1, n);
            }
            return false;
        }
        proof {
            from = mid as nat + 1;
            assert(arcs@ =~= start + space.arcs_below(src, from));
        }
        at = at + 1;
    }
    proof {
        lemma_run_gap(
            orders.even_order@,
            orders.even@,
            wanted,
            begin as int,
            end as int,
            end as int,
        );
        assert forall|i: nat| from <= i < n implies !space.joined(
            src as usize,
            #[trigger] (i as usize),
            0,
        ) by {
            assert(orders.even@[i as int] != wanted);
        }
        lemma_no_arcs_below(space, src, from, n);
    }
    true
}

/// The arcs of all positions, and where those of each position begin.
struct ArcTable {
    offsets: Vec<u32>,
    arcs: Vec<Arc>,
}

impl ArcTable {
    spec fn valid(self, space: Space) -> bool {
        let n = space.edges.len();
        &&& n <= u32::MAX
        &&& self.arcs@ == space.all_arcs(n)
        &&& self.arcs.len() <= ARC_CAP
        &&& self.offsets.len() == n + 1
        &&& forall|i: int|
            0 <= i <= n ==> #[trigger] self.offsets@[i] == space.all_arcs(i as nat).len()
    }
}

fn build_arcs(orders: &Orders, count: u32, Ghost(space): Ghost<Space>) -> (table: Option<ArcTable>)
    requires
        orders.valid(space),
        count == space.edges.len(),
    ensures
        match table {
            Some(table) => table.valid(space),
            None => space.all_arcs(space.edges.len()).len() > ARC_CAP,
        },
{
    let mut offsets: Vec<u32> = Vec::new();
    let mut arcs: Vec<Arc> = Vec::new();
    let mut src: u32 = 0;
    while src < count
        invariant
            orders.valid(space),
            src <= count == space.edges.len(),
            arcs.len() <= ARC_CAP,
            arcs@ == space.all_arcs(src as nat),
            offsets.len() == src,
            forall|i: int|
                0 <= i < src ==> #[trigger] offsets@[i] == space.all_arcs(i as nat).len(),
        decreases count - src,
    {
        offsets.push(arcs.len() as u32);
        let ghost next = src as nat + 1;
        assert((next - 1) as u32 == src);
        if !push_arcs(orders, &mut arcs, src, Ghost(space)) {
            proof {
                lemma_all_arcs_grow(space, next, space.edges.len());
            }
            return None;
        }
        assert(arcs@ =~= space.all_arcs(next));
        src = src + 1;
    }
    offsets.push(arcs.len() as u32);
    Some(ArcTable { offsets, arcs })
}

proof fn lemma_all_arcs_prefix(space: Space, from: nat, to: nat)
    requires
        from <= to,
    ensures
        space.all_arcs(from).len() <= space.all_arcs(to).len(),
        space.all_arcs(to).take(space.all_arcs(from).len() as int) == space.all_arcs(from),
    decreases to - from,
{
    if from < to {
        let before = space.all_arcs((to - 1) as nat);
        lemma_all_arcs_prefix(space, from, (to - 1) as nat);
        assert(space.all_arcs(to).take(space.all_arcs(from).len() as int) =~= before.take(
            space.all_arcs(from).len() as int,
        ));
    } else {
        assert(space.all_arcs(to).take(space.all_arcs(from).len() as int) =~= space.all_arcs(from));
    }
}

/// The arcs of a position stand together in the table.
proof fn lemma_table_range(table: ArcTable, space: Space, src: u32)
    requires
        table.valid(space),
        src < space.edges.len(),
    ensures
        table.offsets@[src as int] <= table.offsets@[src + 1] <= table.arcs.len(),
        table.arcs@.subrange(
            table.offsets@[src as int] as int,
            table.offsets@[src + 1] as int,
        ) == space.arcs(src),
{
    let n = space.edges.len();
    let next = src as nat + 1;
    assert((next - 1) as u32 == src);
    lemma_all_arcs_prefix(space, src as nat, n);
    lemma_all_arcs_prefix(space, next, n);
    let begin = table.offsets@[src as int] as int;
    let end = table.offsets@[src + 1] as int;
    assert(end == space.all_arcs(next).len());
    assert(table.arcs@.subrange(begin, end) =~= space.all_arcs(n).take(end).skip(begin));
    assert(space.all_arcs(next).skip(begin) =~= space.arcs(src));
}

proof fn lemma_arcs_stay_inside(space: Space, src: u32, end: nat)
    requires
        end <= space.edges.len() <= u32::MAX,
    ensures
        forall|k: int|
            0 <= k < space.arcs_below(src, end).len() ==> {
                let arc = #[trigger] space.arcs_below(src, end)[k];
                arc.mid < space.edges.len() && arc.dst < space.edges.len()
            },
    decreases end,
{
    if end > 0 {
        let before = space.arcs_below(src, (end - 1) as nat);
        let over = space.arcs_over(src, (end - 1) as u32, space.edges.len());
        let list = space.arcs_below(src, end);
        lemma_arcs_stay_inside(space, src, (end - 1) as nat);
        lemma_arcs_over_stay_inside(space, src, (end - 1) as u32, space.edges.len());
        assert forall|k: int| 0 <= k < list.len() implies (#[trigger] list[k]).mid
            < space.edges.len() && list[k].dst < space.edges.len() by {
            if k < before.len() {
                assert(list[k] == before[k]);
            } else {
                assert(list[k] == over[k - before.len()]);
            }
        }
    }
}

proof fn lemma_arcs_over_stay_inside(space: Space, src: u32, mid: u32, end: nat)
    requires
        end <= space.edges.len() <= u32::MAX,
        mid < space.edges.len(),
    ensures
        forall|k: int|
            0 <= k < space.arcs_over(src, mid, end).len() ==> {
                let arc = #[trigger] space.arcs_over(src, mid, end)[k];
                arc.mid == mid && arc.dst < space.edges.len()
            },
    decreases end,
{
    if end > 0 {
        let before = space.arcs_over(src, mid, (end - 1) as nat);
        let list = space.arcs_over(src, mid, end);
        lemma_arcs_over_stay_inside(space, src, mid, (end - 1) as nat);
        assert forall|k: int| 0 <= k < list.len() implies (#[trigger] list[k]).mid == mid
            && list[k].dst < space.edges.len() by {
            if k < before.len() {
                assert(list[k] == before[k]);
            }
        }
    }
}

/// Whether `on_path` marks exactly the positions of a path.
spec fn marks(on_path: Seq<bool>, path: Seq<u32>, n: nat) -> bool {
    &&& on_path.len() == n
    &&& forall|i: int| 0 <= i < n ==> (#[trigger] on_path[i] <==> path.contains(i as u32))
}

spec fn is_ring_path(path: Seq<u32>, mids: Seq<u32>, n: nat) -> bool {
    &&& 0 < path.len() <= RING
    &&& mids.len() + 1 == path.len()
    &&& forall|k: int| 0 <= k < path.len() ==> #[trigger] path[k] < n
    &&& forall|k: int| 0 <= k < mids.len() ==> #[trigger] mids[k] < n
}

/// The check at the end of a ring.
fn finish_ring(request: GraphParams, survivors: &[u64], path: &Vec<u32>, mids: &Vec<u32>) -> (found:
    Option<Proof>)
    requires
        path.len() == RING,
        mids.len() == RING,
        forall|k: int| 0 <= k < path.len() ==> #[trigger] path@[k] < survivors.len(),
        forall|k: int| 0 <= k < mids.len() ==> #[trigger] mids@[k] < survivors.len(),
    ensures
        match request.space(survivors@).accepted_ring(path@, mids@) {
            Some(nonces) => found matches Some(proof) && proof.nonces@ == nonces,
            None => found is None,
        },
{
    let ghost ring = request.space(survivors@).ring_edges(path@, mids@);
    let mut nonces: Vec<u64> = Vec::with_capacity(42);
    let mut i: usize = 0;
    while i < RING
        invariant
            i <= RING,
            path.len() == RING,
            mids.len() == RING,
            forall|k: int| 0 <= k < path.len() ==> #[trigger] path@[k] < survivors.len(),
            forall|k: int| 0 <= k < mids.len() ==> #[trigger] mids@[k] < survivors.len(),
            nonces.len() == 2 * i,
            ring == request.space(survivors@).ring_edges(path@, mids@),
            forall|k: int| 0 <= k < 2 * i ==> #[trigger] nonces@[k] == ring[k],
        decreases RING - i,
    {
        nonces.push(survivors[path[i] as usize]);
        nonces.push(survivors[mids[i] as usize]);
        i = i + 1;
    }
    assert(nonces@ =~= ring);
    let proof = Proof::sorted(nonces);
    match verify_cycle(request.keys, request.edge_bits, 42, &proof) {
        Ok(()) => Some(proof),
        Err(_) => None,
    }
}

/// Searches all continuations of the path.  Without a proof the path and its
/// marks are as before.
fn dfs(
    request: GraphParams,
    survivors: &[u64],
    table: &ArcTable,
    path: &mut Vec<u32>,
    mids: &mut Vec<u32>,
    on_path: &mut Vec<bool>,
    branches: &mut u64,
) -> (result: Result<Option<Proof>, ()>)
    requires
        table.valid(request.space(survivors@)),
        is_ring_path(old(path)@, old(mids)@, survivors.len() as nat),
        marks(old(on_path)@, old(path)@, survivors.len() as nat),
        *old(branches) <= MAX_SEARCH_BRANCHES,
    ensures
        match request.space(survivors@).follow(old(path)@, old(mids)@, 0, *old(branches) as nat) {
            Search::Found(nonces) => result matches Ok(Some(proof)) && proof.nonces@ == nonces,
            Search::Nothing(count) => {
                &&& result matches Ok(None)
                &&& *final(branches) == count
                &&& *final(branches) <= MAX_SEARCH_BRANCHES
                &&& final(path)@ == old(path)@
                &&& final(mids)@ == old(mids)@
                &&& final(on_path)@ == old(on_path)@
            },
            Search::Limit => result matches Err(()),
        },
    decreases RING - old(path).len(),
{
    let ghost space = request.space(survivors@);
    let ghost n = survivors.len() as nat;
    let ghost begun = path@;
    let ghost over = mids@;
    let ghost marked = on_path@;
    let current: u32 = path[path.len() - 1];
    let start: u32 = path[0];
    assert(begun[begun.len() - 1] < n);
    proof {
        lemma_table_range(*table, space, current);
        lemma_arcs_stay_inside(space, current, n);
    }
    let begin: usize = table.offsets[current as usize] as usize;
    let end: usize = table.offsets[current as usize + 1] as usize;
    let steps: usize = path.len();
    let ghost arcs = space.arcs(current);
    let ghost goal = space.follow(begun, over, 0, *branches as nat);
    let mut at: usize = begin;
    while at < end
        invariant
            space == request.space(survivors@),
            table.valid(space),
            n == survivors.len(),
            begun == old(path)@,
            over == old(mids)@,
            marked == old(on_path)@,
            path@ == begun,
            mids@ == over,
            on_path@ == marked,
            is_ring_path(begun, over, n),
            marks(marked, begun, n),
            current == begun.last(),
            start == begun[0],
            steps == begun.len(),
            arcs == space.arcs(current),
            begin <= at <= end <= table.arcs.len(),
            table.arcs@.subrange(begin as int, end as int) == arcs,
            forall|k: int|
                0 <= k < arcs.len() ==> (#[trigger] arcs[k]).mid < n && arcs[k].dst < n,
            *branches <= MAX_SEARCH_BRANCHES,
            goal == space.follow(begun, over, (at - begin) as nat, *branches as nat),
            goal == space.follow(old(path)@, old(mids)@, 0, *old(branches) as nat),
        decreases end - at,
    {
        let ghost k = at - begin;
        let arc = table.arcs[at];
        assert(arc == arcs[k]);
        if *branches >= MAX_SEARCH_BRANCHES {
            return Err(());
        }
        *branches = *branches + 1;
        if arc.dst == start {
            if steps == RING {
                mids.push(arc.mid);
                assert(mids@ =~= over.push(arc.mid));
                let found = finish_ring(request, survivors, path, mids);
                if found.is_some() {
                    return Ok(found);
                }
                mids.pop();
                assert(mids@ =~= over);
            }
        } else if steps == RING || on_path[arc.dst as usize] {
            assert(path@.len() >= RING || begun.contains(arc.dst)) by {
                if steps != RING {
                    assert(marked[arc.dst as int]);
                    let wide = arc.dst as int;
                    assert(wide as u32 == arc.dst);
                }
            }
        } else {
            assert(!begun.contains(arc.dst)) by {
                assert(!marked[arc.dst as int]);
                let wide = arc.dst as int;
                assert(wide as u32 == arc.dst);
            }
            mids.push(arc.mid);
            path.push(arc.dst);
            on_path.set(arc.dst as usize, true);
            assert(marks(on_path@, path@, n)) by {
                assert forall|i: int| 0 <= i < n implies (#[trigger] on_path@[i]
                    <==> path@.contains(i as u32)) by {
                    if i == arc.dst {
                        assert(path@[begun.len() as int] == i as u32);
                    } else {
                        if begun.contains(i as u32) {
                            let j = choose|j: int| 0 <= j < begun.len() && begun[j] == i as u32;
                            assert(path@[j] == i as u32);
                        }
                        if path@.contains(i as u32) {
                            let j = choose|j: int|
                                0 <= j < path@.len() && path@[j] == i as u32;
                            assert(begun[j] == i as u32);
                        }
                    }
                }
            }
            match dfs(request, survivors, table, path, mids, on_path, branches) {
                Ok(Some(proof)) => {
                    return Ok(Some(proof));
                },
                Ok(None) => {},
                Err(()) => {
                    return Err(());
                },
            }
            path.pop();
            mids.pop();
            on_path.set(arc.dst as usize, false);
            assert(path@ =~= begun);
            assert(mids@ =~= over);
            assert(on_path@ =~= marked);
        }
        at = at + 1;
    }
    Ok(None)
}

fn ring_limit() -> (error: SolveError)
    ensures
        error@ == (ErrorKind::SearchLimit, "more than 100000000 branches in D2 search"@),
{
    SolveError::SearchLimit(String::from_str("more than 100000000 branches in D2 search"))
}

fn search_rings(request: GraphParams, survivors: &[u64], table: &ArcTable) -> (result: Result<
    Option<Proof>,
    SolveError,
>)
    requires
        table.valid(request.space(survivors@)),
    ensures
        search::reports(
            result,
            request.space(survivors@).ring_search_from(0, 0),
            "more than 100000000 branches in D2 search"@,
        ),
{
    let ghost space = request.space(survivors@);
    let ghost n = survivors.len() as nat;
    let count: u32 = survivors.len() as u32;
    let mut path: Vec<u32> = Vec::with_capacity(RING);
    let mut mids: Vec<u32> = Vec::with_capacity(RING);
    let mut on_path: Vec<bool> = vec![false; survivors.len()];
    let mut branches: u64 = 0;
    let mut start: u32 = 0;
    while start < count
        invariant
            space == request.space(survivors@),
            table.valid(space),
            count == survivors.len(),
            n == survivors.len(),
            start <= count,
            mids.len() == 0,
            on_path.len() == n,
            forall|i: int| 0 <= i < n ==> !#[trigger] on_path@[i],
            branches <= MAX_SEARCH_BRANCHES,
            space.ring_search_from(0, 0) == space.ring_search_from(start as nat, branches as nat),
        decreases count - start,
    {
        let ghost unmarked = on_path@;
        path.clear();
        path.push(start);
        on_path.set(start as usize, true);
        assert(path@ =~= seq![start]);
        assert(mids@ =~= Seq::<u32>::empty());
        assert(marks(on_path@, path@, n)) by {
            assert(path@[0] == start);
        }
        let whole: Ghost<nat> = Ghost(start as nat);
        assert(whole@ as u32 == start);
        match dfs(
            request,
            survivors,
            table,
            &mut path,
            &mut mids,
            &mut on_path,
            &mut branches,
        ) {
            Ok(Some(proof)) => {
                return Ok(Some(proof));
            },
            Ok(None) => {},
            Err(()) => {
                return Err(ring_limit());
            },
        }
        on_path.set(start as usize, false);
        assert(on_path@ =~= unmarked);
        start = start + 1;
    }
    Ok(None)
}

/// Finds an exact cycle in the trimmed graph.
pub fn find_cycle_d2(request: GraphParams, survivors: &[u64]) -> (result: Result<
    Option<Proof>,
    SolveError,
>)
    requires
        0 < survivors.len() && request.cycle_length <= survivors.len() ==> request.edge_bits < 64,
    ensures
        d2_result(request, survivors@, result),
{
    if survivors.len() < request.cycle_length {
        return Ok(None);
    }
    if request.cycle_length != 42 {
        return find_cycle(request, survivors);
    }
    if survivors.len() as u64 > u32::MAX as u64 {
        return Err(crate::solver::unsupported("D2 survivor index exceeds u32"));
    }
    let orders = order_edges(request, survivors);
    match build_arcs(&orders, survivors.len() as u32, Ghost(request.space(survivors@))) {
        Some(table) => search_rings(request, survivors, &table),
        None => Err(
            SolveError::SearchLimit(String::from_str("D2 adjacency exceeded 16777216 arcs")),
        ),
    }
}

proof fn lemma_accepted_ring_is_answer(space: Space, path: Seq<u32>, mids: Seq<u32>)
    requires
        space.cycle_length == 42,
        path.len() == RING,
        mids.len() == RING,
        forall|k: int| 0 <= k < path.len() ==> #[trigger] path[k] < space.edges.len(),
        forall|k: int| 0 <= k < mids.len() ==> #[trigger] mids[k] < space.edges.len(),
        space.accepted_ring(path, mids) is Some,
    ensures
        search::is_answer(space, space.accepted_ring(path, mids)->0),
{
    let edges = space.ring_edges(path, mids);
    let nonces = verify::sorted_values(edges);
    edges.lemma_sort_by_ensures(|a: u64, b: u64| a <= b);
    assert forall|k: int| 0 <= k < nonces.len() implies space.edges.contains(
        #[trigger] nonces[k],
    ) by {
        broadcast use vstd::seq_lib::group_to_multiset_ensures;

        assert(nonces.contains(nonces[k]));
        assert(nonces.to_multiset().count(nonces[k]) > 0);
        assert(edges.contains(nonces[k]));
        let j = choose|j: int| 0 <= j < edges.len() && edges[j] == nonces[k];
        if j % 2 == 0 {
            assert(path[j / 2] < space.edges.len());
        } else {
            assert(mids[j / 2] < space.edges.len());
        }
    }
}

proof fn lemma_follow_is_sound(
    space: Space,
    path: Seq<u32>,
    mids: Seq<u32>,
    at: nat,
    branches: nat,
)
    requires
        space.cycle_length == 42,
        space.edges.len() <= u32::MAX,
        is_ring_path(path, mids, space.edges.len()),
    ensures
        space.follow(path, mids, at, branches) matches Search::Found(nonces) ==> search::is_answer(
            space,
            nonces,
        ),
    decreases RING - path.len(), space.arcs(path.last()).len() - at,
{
    let arcs = space.arcs(path.last());
    if at < arcs.len() && branches < MAX_SEARCH_BRANCHES {
        let arc = arcs[at as int];
        lemma_arcs_stay_inside(space, path.last(), space.edges.len());
        assert(arc.mid < space.edges.len() && arc.dst < space.edges.len());
        if arc.dst == path[0] {
            if path.len() == RING && space.accepted_ring(path, mids.push(arc.mid)) is Some {
                lemma_accepted_ring_is_answer(space, path, mids.push(arc.mid));
            } else {
                lemma_follow_is_sound(space, path, mids, at + 1, branches + 1);
            }
        } else if path.len() >= RING || path.contains(arc.dst) {
            lemma_follow_is_sound(space, path, mids, at + 1, branches + 1);
        } else {
            let longer = path.push(arc.dst);
            let over = mids.push(arc.mid);
            assert(is_ring_path(longer, over, space.edges.len()));
            lemma_follow_is_sound(space, longer, over, 0, branches + 1);
            if let Search::Nothing(used) = space.follow(longer, over, 0, branches + 1) {
                lemma_follow_is_sound(space, path, mids, at + 1, used);
            }
        }
    }
}

/// What a search for rings finds passes the check and is made of the searched
/// edges.
pub proof fn lemma_ring_search_is_sound(space: Space, start: nat, branches: nat)
    requires
        space.cycle_length == 42,
        space.edges.len() <= u32::MAX,
    ensures
        space.ring_search_from(start, branches) matches Search::Found(nonces)
            ==> search::is_answer(space, nonces),
    decreases space.edges.len() - start,
{
    if start < space.edges.len() {
        let path = seq![start as u32];
        assert(is_ring_path(path, seq![], space.edges.len()));
        lemma_follow_is_sound(space, path, seq![], 0, branches);
        if let Search::Nothing(used) = space.follow(path, seq![], 0, branches) {
            lemma_ring_search_is_sound(space, start + 1, used);
        }
    }
}

proof fn lemma_arc_is_over(space: Space, src: u32, mid: u32, dst: u32, end: nat)
    requires
        space.joined(mid as usize, dst as usize, 1),
        dst != src,
        dst < end <= space.edges.len() <= u32::MAX,
    ensures
        space.arcs_over(src, mid, end).contains(Arc { dst, mid }),
    decreases end,
{
    let list = space.arcs_over(src, mid, end);
    let before = space.arcs_over(src, mid, (end - 1) as nat);
    if dst == end - 1 {
        assert(list[before.len() as int] == (Arc { dst, mid }));
    } else {
        lemma_arc_is_over(space, src, mid, dst, (end - 1) as nat);
        let k = choose|k: int| 0 <= k < before.len() && before[k] == (Arc { dst, mid });
        assert(list[k] == (Arc { dst, mid }));
    }
}

/// Two edges that follow a position are one of its arcs.
proof fn lemma_arc_is_listed(space: Space, src: u32, mid: u32, dst: u32, end: nat)
    requires
        space.joined(src as usize, mid as usize, 0),
        space.joined(mid as usize, dst as usize, 1),
        dst != src,
        dst < space.edges.len() <= u32::MAX,
        mid < end <= space.edges.len(),
    ensures
        space.arcs_below(src, end).contains(Arc { dst, mid }),
    decreases end,
{
    let list = space.arcs_below(src, end);
    let before = space.arcs_below(src, (end - 1) as nat);
    if mid == end - 1 {
        lemma_arc_is_over(space, src, mid, dst, space.edges.len());
        let over = space.arcs_over(src, mid, space.edges.len());
        let k = choose|k: int| 0 <= k < over.len() && over[k] == (Arc { dst, mid });
        assert(list[before.len() + k] == (Arc { dst, mid }));
    } else {
        lemma_arc_is_listed(space, src, mid, dst, (end - 1) as nat);
        let k = choose|k: int| 0 <= k < before.len() && before[k] == (Arc { dst, mid });
        assert(list[k] == (Arc { dst, mid }));
    }
}

/// Whether a full ring goes along arcs and comes back to its start.
spec fn is_ring(space: Space, path: Seq<u32>, mids: Seq<u32>) -> bool {
    &&& path.len() == RING
    &&& mids.len() == RING
    &&& path.no_duplicates()
    &&& forall|k: int|
        0 <= k < RING ==> space.arcs(#[trigger] path[k]).contains(
            Arc { dst: path[if k + 1 == RING {
                0
            } else {
                k + 1
            }], mid: mids[k] },
        )
}

/// The next edge of a ring lengthens a path that has followed it so far.
proof fn ring_goes_on(space: Space, full: Seq<u32>, over: Seq<u32>, end: int) -> (next: int)
    requires
        is_ring(space, full, over),
        0 < end < RING,
    ensures
        full[end] != full[0],
        !full.take(end).contains(full[end]),
        full.take(end).push(full[end]) == full.take(end + 1),
        over.take(end - 1).push(over[end - 1]) == over.take(end),
        0 <= next < space.arcs(full[end]).len(),
        space.arcs(full[end])[next] == (Arc {
            dst: full[if end + 1 == RING {
                0
            } else {
                end + 1
            }],
            mid: over[end],
        }),
{
    let path = full.take(end);
    assert(!path.contains(full[end])) by {
        if path.contains(full[end]) {
            let k = choose|k: int| 0 <= k < path.len() && path[k] == full[end];
            assert(full[k] == full[end]);
        }
    }
    assert(path.push(full[end]) =~= full.take(end + 1));
    assert(over.take(end - 1).push(over[end - 1]) =~= over.take(end));
    let step = Arc {
        dst: full[if end + 1 == RING {
            0
        } else {
            end + 1
        }],
        mid: over[end],
    };
    assert(space.arcs(full[end]).contains(step));
    choose|k: int| 0 <= k < space.arcs(full[end]).len() && space.arcs(full[end])[k] == step
}

#[verifier::rlimit(40)]
proof fn lemma_follow_is_complete(
    space: Space,
    path: Seq<u32>,
    mids: Seq<u32>,
    at: nat,
    branches: nat,
    full: Seq<u32>,
    over: Seq<u32>,
    taken: int,
)
    requires
        is_ring(space, full, over),
        0 < path.len() <= RING,
        path == full.take(path.len() as int),
        mids == over.take(path.len() - 1),
        at <= taken < space.arcs(path.last()).len(),
        space.arcs(path.last())[taken] == (Arc {
            dst: full[if path.len() == RING {
                0
            } else {
                path.len() as int
            }],
            mid: over[path.len() - 1],
        }),
        space.follow(path, mids, at, branches) is Nothing,
    ensures
        space.accepted_ring(full, over) is None,
    decreases RING - path.len(), space.arcs(path.last()).len() - at,
{
    let arcs = space.arcs(path.last());
    let arc = arcs[at as int];
    let end = path.len() as int;
    if at == taken {
        if path.len() == RING {
            assert(path =~= full);
            assert(mids.push(arc.mid) =~= over);
        } else {
            let longer = path.push(arc.dst);
            let longer_mids = mids.push(arc.mid);
            assert(arc.dst == full[end]);
            let next = ring_goes_on(space, full, over, end);
            lemma_follow_is_complete(
                space,
                longer,
                longer_mids,
                0,
                branches + 1,
                full,
                over,
                next,
            );
        }
    } else if arc.dst == path[0] {
        lemma_follow_is_complete(space, path, mids, at + 1, branches + 1, full, over, taken);
    } else if path.len() >= RING || path.contains(arc.dst) {
        lemma_follow_is_complete(space, path, mids, at + 1, branches + 1, full, over, taken);
    } else {
        let used = space.follow(path.push(arc.dst), mids.push(arc.mid), 0, branches + 1)->Nothing_0;
        lemma_follow_is_complete(space, path, mids, at + 1, used, full, over, taken);
    }
}

proof fn lemma_ring_search_from_is_complete(
    space: Space,
    start: nat,
    branches: nat,
    full: Seq<u32>,
    over: Seq<u32>,
)
    requires
        is_ring(space, full, over),
        start <= full[0] < space.edges.len() <= u32::MAX,
        space.ring_search_from(start, branches) is Nothing,
    ensures
        space.accepted_ring(full, over) is None,
    decreases space.edges.len() - start,
{
    let path = seq![start as u32];
    let none = Seq::<u32>::empty();
    if full[0] == start {
        assert(path =~= full.take(1));
        assert(none =~= over.take(0));
        let step = Arc { dst: full[1], mid: over[0] };
        assert(space.arcs(full[0]).contains(step));
        let next = choose|k: int|
            0 <= k < space.arcs(full[0]).len() && space.arcs(full[0])[k] == step;
        lemma_follow_is_complete(space, path, none, 0, branches, full, over, next);
    } else {
        let used = space.follow(path, none, 0, branches)->Nothing_0;
        lemma_ring_search_from_is_complete(space, start + 1, used, full, over);
    }
}

/// A search for rings that ends with nothing shows that there is nothing: no
/// proof of 42 of the searched edges passes the check.
pub proof fn lemma_ring_search_is_complete(space: Space, nonces: Seq<u64>)
    requires
        space.cycle_length == 42,
        space.edges.len() <= u32::MAX,
        space.ring_search_from(0, 0) is Nothing,
    ensures
        !search::is_answer(space, nonces),
{
    if search::is_answer(space, nonces) {
        let graph = space.graph;
        let order = verify::walk_order(graph, nonces);
        verify::lemma_accepted_shape(graph, 42, nonces);
        verify::lemma_accepted_proof_is_cycle(graph, 42, nonces);
        crate::graph::lemma_cycle_has_no_repeats(graph, order);
        let at = Seq::new(42, |k: int| space.edges.index_of(order[k]) as u32);
        assert forall|k: int| 0 <= k < 42 implies #[trigger] at[k] < space.edges.len()
            && space.edges[at[k] as int] == order[k] by {
            assert(order.to_set().contains(order[k]));
            assert(nonces.contains(order[k]));
            assert(space.edges.contains(order[k]));
        }
        let full = Seq::new(21, |k: int| at[2 * k]);
        let over = Seq::new(21, |k: int| at[2 * k + 1]);
        assert(full.no_duplicates()) by {
            assert forall|i: int, j: int| 0 <= i < 21 && 0 <= j < 21 && i != j implies full[i]
                != full[j] by {
                assert(order[2 * i] != order[2 * j]);
                assert(at[2 * i] < space.edges.len() && at[2 * j] < space.edges.len());
            }
        }
        assert forall|k: int| 0 <= k < RING implies space.arcs(#[trigger] full[k]).contains(
            Arc { dst: full[if k + 1 == RING {
                0
            } else {
                k + 1
            }], mid: over[k] },
        ) by {
            let next = if k + 1 == RING {
                0
            } else {
                k + 1
            };
            let a = 2 * k;
            let b = 2 * k + 1;
            let c = 2 * next;
            assert(at[a] < space.edges.len() && at[b] < space.edges.len());
            assert(at[c] < space.edges.len());
            assert(crate::graph::cycle_neighbour(42, a, 0) == b);
            assert(crate::graph::cycle_neighbour(42, b, 1) == c);
            assert(graph.node(order[a], 0) == graph.node(order[a], 0));
            assert(graph.node(order[b], 0) == graph.node(order[b], 0));
            assert(graph.node(order[b], 1) == graph.node(order[b], 1));
            assert(graph.node(order[c], 1) == graph.node(order[c], 1));
            assert(space.joined(full[k] as usize, over[k] as usize, 0));
            assert(space.joined(over[k] as usize, full[next] as usize, 1));
            assert(order[a] != order[c]);
            lemma_arc_is_listed(space, full[k], over[k], full[next], space.edges.len());
        }
        assert(at[0] < space.edges.len());
        lemma_ring_search_from_is_complete(space, 0, 0, full, over);
        let edges = space.ring_edges(full, over);
        assert(edges =~= order) by {
            assert forall|k: int| 0 <= k < 42 implies edges[k] == order[k] by {
                assert(at[k] < space.edges.len());
                if k % 2 == 0 {
                    assert(full[k / 2] == at[k]);
                } else {
                    assert(over[k / 2] == at[k]);
                }
            }
        }
        search::lemma_same_set_sorts_alike(nonces, order);
        verify::lemma_sorted_values(order, nonces);
    }
}

/// Whatever way the edges are searched, a proof that comes back passes the
/// check and is made of the searched edges, and where none comes back there is
/// none.
pub proof fn lemma_d2_answers_are_right(
    request: GraphParams,
    edges: Seq<u64>,
    result: Result<Option<Proof>, SolveError>,
    nonces: Seq<u64>,
)
    requires
        d2_result(request, edges, result),
        edges.len() <= usize::MAX,
        request.cycle_length > 0,
    ensures
        result matches Ok(Some(proof)) ==> search::is_answer(
            request.space(edges),
            proof.nonces@,
        ),
        result matches Ok(None) ==> !search::is_answer(request.space(edges), nonces),
{
    let space = request.space(edges);
    search::lemma_search_is_sound(space);
    if result matches Ok(None) {
        if edges.len() < request.cycle_length || request.cycle_length != 42 {
            search::lemma_search_is_complete(space, nonces);
        } else {
            lemma_ring_search_is_complete(space, nonces);
        }
    }
    if request.cycle_length == 42 && edges.len() <= u32::MAX {
        lemma_ring_search_is_sound(space, 0, 0);
    }
}

impl Space {
    /// Whether two edges lead on from a position: over `mid` to `dst`.
    pub open spec fn leads(self, src: u32, mid: u32, dst: u32) -> bool {
        &&& src < self.edges.len()
        &&& mid < self.edges.len()
        &&& dst < self.edges.len()
        &&& dst != src
        &&& self.graph.meet(self.edges[src as int], self.edges[mid as int], 0)
        &&& self.graph.meet(self.edges[mid as int], self.edges[dst as int], 1)
    }

    /// All ways of going two edges on.
    pub open spec fn double_steps(self) -> Set<(u32, u32, u32)> {
        Set::new(|step: (u32, u32, u32)| self.leads(step.0, step.1, step.2))
    }

    /// Whether positions make a branch of a search for rings: a path of at most
    /// 21 different positions, two edges from each to the next, and one further
    /// position two edges from its end.
    pub open spec fn is_ring_branch(self, path: Seq<u32>, mids: Seq<u32>) -> bool {
        &&& 2 <= path.len() <= 22
        &&& mids.len() == path.len() - 1
        &&& path.drop_last().no_duplicates()
        &&& forall|k: int|
            0 <= k < mids.len() ==> self.leads(path[k], #[trigger] mids[k], path[k + 1])
    }

    /// All branches that a search for rings can try.
    pub open spec fn ring_branches(self) -> Set<(Seq<u32>, Seq<u32>)> {
        Set::new(|branch: (Seq<u32>, Seq<u32>)| self.is_ring_branch(branch.0, branch.1))
    }

    /// The branches that go on from a path with arc `at` of its end or a later
    /// one.
    spec fn rings_beyond(self, path: Seq<u32>, mids: Seq<u32>, at: nat) -> Set<
        (Seq<u32>, Seq<u32>),
    > {
        Set::new(
            |branch: (Seq<u32>, Seq<u32>)|
                self.is_ring_branch(branch.0, branch.1) && branch.0.len() > path.len()
                    && branch.0.take(path.len() as int) == path && branch.1.take(mids.len() as int)
                    == mids && self.arcs(path.last()).skip(at as int).contains(
                    Arc { dst: branch.0[path.len() as int], mid: branch.1[mids.len() as int] },
                ),
        )
    }

    /// The branches that start at `start` or a later position.
    spec fn rings_starting(self, start: nat) -> Set<(Seq<u32>, Seq<u32>)> {
        Set::new(
            |branch: (Seq<u32>, Seq<u32>)|
                self.is_ring_branch(branch.0, branch.1) && branch.0[0] >= start,
        )
    }
}

proof fn arcs_over_lead(space: Space, src: u32, mid: u32, end: nat)
    requires
        src < space.edges.len(),
        mid < space.edges.len(),
        end <= space.edges.len() <= u32::MAX,
        space.joined(src as usize, mid as usize, 0),
    ensures
        space.arcs_over(src, mid, end).no_duplicates(),
        forall|k: int|
            0 <= k < space.arcs_over(src, mid, end).len() ==> {
                let arc = #[trigger] space.arcs_over(src, mid, end)[k];
                arc.mid == mid && arc.dst < end && space.leads(src, mid, arc.dst)
            },
    decreases end,
{
    if end > 0 {
        let before = space.arcs_over(src, mid, (end - 1) as nat);
        let list = space.arcs_over(src, mid, end);
        arcs_over_lead(space, src, mid, (end - 1) as nat);
        assert forall|k: int| 0 <= k < list.len() implies (#[trigger] list[k]).mid == mid
            && list[k].dst < end && space.leads(src, mid, list[k].dst) && (k < before.len()
            ==> list[k].dst < end - 1) by {
            if k < before.len() {
                assert(list[k] == before[k]);
            }
        }
        assert(list.no_duplicates()) by {
            assert forall|i: int, j: int| 0 <= i < j < list.len() implies list[i] != list[j] by {
                assert(list[i] == before[i]);
                if j < before.len() {
                    assert(list[j] == before[j]);
                }
            }
        }
    }
}

proof fn arcs_below_lead(space: Space, src: u32, end: nat)
    requires
        src < space.edges.len(),
        end <= space.edges.len() <= u32::MAX,
    ensures
        space.arcs_below(src, end).no_duplicates(),
        forall|k: int|
            0 <= k < space.arcs_below(src, end).len() ==> {
                let arc = #[trigger] space.arcs_below(src, end)[k];
                arc.mid < end && space.leads(src, arc.mid, arc.dst)
            },
    decreases end,
{
    if end > 0 {
        let before = space.arcs_below(src, (end - 1) as nat);
        let mid = (end - 1) as u32;
        let list = space.arcs_below(src, end);
        let over = space.arcs_over(src, mid, space.edges.len());
        arcs_below_lead(space, src, (end - 1) as nat);
        if space.joined(src as usize, mid as usize, 0) {
            arcs_over_lead(space, src, mid, space.edges.len());
            assert forall|k: int| 0 <= k < list.len() implies (#[trigger] list[k]).mid < end
                && space.leads(src, list[k].mid, list[k].dst) by {
                if k < before.len() {
                    assert(list[k] == before[k]);
                } else {
                    assert(list[k] == over[k - before.len()]);
                }
            }
            assert(list.no_duplicates()) by {
                assert forall|i: int, j: int| 0 <= i < j < list.len() implies list[i]
                    != list[j] by {
                    if j < before.len() {
                        assert(list[i] == before[i] && list[j] == before[j]);
                    } else {
                        assert(list[j] == over[j - before.len()]);
                        if i < before.len() {
                            assert(list[i] == before[i]);
                        } else {
                            assert(list[i] == over[i - before.len()]);
                        }
                    }
                }
            }
        }
    }
}

/// The arcs from a position are the ways of going two edges on from it, each of
/// them once.
pub proof fn lemma_arcs_are_double_steps(space: Space, src: u32)
    requires
        src < space.edges.len() <= u32::MAX,
    ensures
        space.arcs(src).no_duplicates(),
        forall|arc: Arc| #[trigger]
            space.arcs(src).contains(arc) <==> space.leads(src, arc.mid, arc.dst),
{
    arcs_below_lead(space, src, space.edges.len());
    assert forall|arc: Arc| #[trigger] space.arcs(src).contains(arc) <==> space.leads(
        src,
        arc.mid,
        arc.dst,
    ) by {
        if space.leads(src, arc.mid, arc.dst) {
            lemma_arc_is_listed(space, src, arc.mid, arc.dst, space.edges.len());
        }
    }
}

/// Whether a path follows arcs and visits no position twice.
spec fn follows_arcs(space: Space, path: Seq<u32>, mids: Seq<u32>) -> bool {
    &&& is_ring_path(path, mids, space.edges.len())
    &&& path.no_duplicates()
    &&& forall|k: int|
        0 <= k < mids.len() ==> space.leads(path[k], #[trigger] mids[k], path[k + 1])
}

proof fn longer_follows_arcs(space: Space, path: Seq<u32>, mids: Seq<u32>, arc: Arc)
    requires
        follows_arcs(space, path, mids),
        space.leads(path.last(), arc.mid, arc.dst),
    ensures
        space.is_ring_branch(path.push(arc.dst), mids.push(arc.mid)),
        path.len() < RING && !path.contains(arc.dst) ==> follows_arcs(
            space,
            path.push(arc.dst),
            mids.push(arc.mid),
        ),
{
    let longer = path.push(arc.dst);
    let over = mids.push(arc.mid);
    assert(longer.drop_last() =~= path);
    assert forall|k: int| 0 <= k < over.len() implies space.leads(
        longer[k],
        #[trigger] over[k],
        longer[k + 1],
    ) by {
        if k < mids.len() {
            assert(space.leads(path[k], mids[k], path[k + 1]));
        }
    }
}

/// The branches beyond a path are those with the next arc, and the rest.
proof fn rings_beyond_split(space: Space, path: Seq<u32>, mids: Seq<u32>, at: nat)
    requires
        follows_arcs(space, path, mids),
        space.edges.len() <= u32::MAX,
        at < space.arcs(path.last()).len(),
    ensures
        ({
            let arc = space.arcs(path.last())[at as int];
            let rest = space.rings_beyond(path, mids, at + 1);
            let longer = path.push(arc.dst);
            let over = mids.push(arc.mid);
            let further = space.rings_beyond(longer, over, 0);
            &&& space.leads(path.last(), arc.mid, arc.dst)
            &&& space.rings_beyond(path, mids, at) == if path.len() >= RING || path.contains(
                arc.dst,
            ) {
                rest.insert((longer, over))
            } else {
                rest.union(further.insert((longer, over)))
            }
            &&& !rest.contains((longer, over))
            &&& !further.contains((longer, over))
            &&& rest.disjoint(further.insert((longer, over)))
        }),
{
    let arcs = space.arcs(path.last());
    let arc = arcs[at as int];
    let n = path.len() as int;
    let m = mids.len() as int;
    let longer = path.push(arc.dst);
    let over = mids.push(arc.mid);
    let rest = space.rings_beyond(path, mids, at + 1);
    let further = space.rings_beyond(longer, over, 0);
    let now = arcs.skip(at as int);
    let later = arcs.skip(at as int + 1);
    assert(path[n - 1] < space.edges.len());
    lemma_arcs_are_double_steps(space, path.last());
    assert(arcs.contains(arc));
    longer_follows_arcs(space, path, mids, arc);
    assert(longer.take(n) =~= path);
    assert(over.take(m) =~= mids);
    assert(now[0] == arc);
    assert(!later.contains(arc)) by {
        if later.contains(arc) {
            let k = choose|k: int|
                0 <= k < later.len() && later[k] == arc;
            assert(arcs[at + 1 + k] == arcs[at as int]);
        }
    }
    assert forall|other: Arc| now.contains(other) <==> other == arc || later.contains(other) by {
        if now.contains(other) && other != arc {
            let k = choose|k: int|
                0 <= k < now.len() && now[k] == other;
            assert(later[k - 1] == other);
        }
        if later.contains(other) {
            let k = choose|k: int|
                0 <= k < later.len() && later[k] == other;
            assert(now[k + 1] == other);
        }
    }
    assert forall|branch: (Seq<u32>, Seq<u32>)| further.contains(branch) implies branch.0.take(n)
        == path && branch.1.take(m) == mids && branch.0[n] == arc.dst && branch.1[m]
        == arc.mid by {
        assert(branch.0.take(n) =~= branch.0.take(n + 1).take(n));
        assert(branch.0.take(n + 1)[n] == branch.0[n]);
        assert(branch.1.take(m) =~= branch.1.take(m + 1).take(m));
        assert(branch.1.take(m + 1)[m] == branch.1[m]);
    }
    assert forall|branch: (Seq<u32>, Seq<u32>)|
        space.rings_beyond(path, mids, at).contains(branch) && branch.0[n] == arc.dst
            && branch.1[m] == arc.mid implies branch == (longer, over) || (path.len() < RING
        && !path.contains(arc.dst) && further.contains(branch)) by {
        assert(branch.0.take(n + 1) =~= longer);
        assert(branch.1.take(m + 1) =~= over);
        if branch.0.len() == n + 1 {
            assert(branch.0 =~= longer);
            assert(branch.1 =~= over);
        } else {
            assert(branch.0.drop_last()[n] == arc.dst);
            if path.contains(arc.dst) {
                let k = choose|k: int| 0 <= k < path.len() && path[k] == arc.dst;
                assert(branch.0.take(n)[k] == branch.0[k]);
                assert(branch.0.drop_last()[k] == branch.0[k]);
            }
            assert(space.leads(branch.0[m + 1], branch.1[m + 1], branch.0[m + 2]));
            lemma_arcs_are_double_steps(space, arc.dst);
            let next = Arc { dst: branch.0[n + 1], mid: branch.1[m + 1] };
            assert(space.arcs(arc.dst).contains(next));
            assert(space.arcs(arc.dst).skip(0) =~= space.arcs(arc.dst));
        }
    }
    let parts = if path.len() >= RING || path.contains(arc.dst) {
        rest.insert((longer, over))
    } else {
        rest.union(further.insert((longer, over)))
    };
    assert forall|branch: (Seq<u32>, Seq<u32>)| space.rings_beyond(path, mids, at).contains(branch)
        <==> parts.contains(branch) by {
        let step = Arc { dst: branch.0[n], mid: branch.1[m] };
        assert(now.contains(step) <==> step == arc || later.contains(step));
        assert(now.contains(arc));
        let whole = space.rings_beyond(path, mids, at);
        if whole.contains(branch) {
            if step == arc {
                assert(branch == (longer, over) || further.contains(branch));
            } else {
                assert(rest.contains(branch));
            }
        }
        if rest.contains(branch) {
            assert(whole.contains(branch));
        }
        if further.contains(branch) {
            assert(step == arc);
            assert(whole.contains(branch));
        }
        if branch == (longer, over) {
            assert(step == arc);
            assert(whole.contains(branch));
        }
    }
    assert(space.rings_beyond(path, mids, at) =~= parts);
}

proof fn no_rings_beyond(space: Space, path: Seq<u32>, mids: Seq<u32>, at: nat)
    requires
        at == space.arcs(path.last()).len(),
    ensures
        space.rings_beyond(path, mids, at) == Set::<(Seq<u32>, Seq<u32>)>::empty(),
{
    let none = space.arcs(path.last()).skip(at as int);
    assert(none =~= Seq::empty());
    assert forall|branch: (Seq<u32>, Seq<u32>)| !space.rings_beyond(path, mids, at).contains(
        branch,
    ) by {}
    assert(space.rings_beyond(path, mids, at) =~= Set::empty());
}

proof fn rings_beyond_are_finite(space: Space, path: Seq<u32>, mids: Seq<u32>, at: nat)
    requires
        follows_arcs(space, path, mids),
        space.edges.len() <= u32::MAX,
        at <= space.arcs(path.last()).len(),
    ensures
        space.rings_beyond(path, mids, at).finite(),
    decreases RING - path.len(), space.arcs(path.last()).len() - at,
{
    let arcs = space.arcs(path.last());
    if at == arcs.len() {
        no_rings_beyond(space, path, mids, at);
    } else {
        let arc = arcs[at as int];
        rings_beyond_split(space, path, mids, at);
        rings_beyond_are_finite(space, path, mids, at + 1);
        if path.len() < RING && !path.contains(arc.dst) {
            longer_follows_arcs(space, path, mids, arc);
            rings_beyond_are_finite(space, path.push(arc.dst), mids.push(arc.mid), 0);
        }
    }
}

/// Whether the end of a part of a search agrees with the branches that it had.
spec fn counts(end: Search, before: nat, had: nat) -> bool {
    match end {
        Search::Found(_) => true,
        Search::Nothing(used) => used == before + had && used <= MAX_SEARCH_BRANCHES,
        Search::Limit => before + had > MAX_SEARCH_BRANCHES,
    }
}

proof fn follow_counts(space: Space, path: Seq<u32>, mids: Seq<u32>, at: nat, branches: nat)
    requires
        follows_arcs(space, path, mids),
        space.edges.len() <= u32::MAX,
        at <= space.arcs(path.last()).len(),
        branches <= MAX_SEARCH_BRANCHES,
    ensures
        counts(
            space.follow(path, mids, at, branches),
            branches,
            space.rings_beyond(path, mids, at).len(),
        ),
    decreases RING - path.len(), space.arcs(path.last()).len() - at,
{
    let arcs = space.arcs(path.last());
    if at == arcs.len() {
        no_rings_beyond(space, path, mids, at);
    } else {
        let arc = arcs[at as int];
        let longer = path.push(arc.dst);
        let over = mids.push(arc.mid);
        let rest = space.rings_beyond(path, mids, at + 1);
        rings_beyond_split(space, path, mids, at);
        rings_beyond_are_finite(space, path, mids, at + 1);
        if path.len() >= RING || path.contains(arc.dst) {
            if branches < MAX_SEARCH_BRANCHES {
                follow_counts(space, path, mids, at + 1, branches + 1);
            }
        } else {
            longer_follows_arcs(space, path, mids, arc);
            rings_beyond_are_finite(space, longer, over, 0);
            let further = space.rings_beyond(longer, over, 0);
            vstd::set_lib::lemma_set_disjoint_lens(rest, further.insert((longer, over)));
            assert(path.contains(path[0]));
            if branches < MAX_SEARCH_BRANCHES {
                follow_counts(space, longer, over, 0, branches + 1);
                if let Search::Nothing(used) = space.follow(longer, over, 0, branches + 1) {
                    follow_counts(space, path, mids, at + 1, used);
                }
            }
        }
        if arc.dst == path[0] {
            assert(path.contains(path[0]));
        }
    }
}

proof fn ring_search_counts(space: Space, start: nat, branches: nat)
    requires
        space.edges.len() <= u32::MAX,
        branches <= MAX_SEARCH_BRANCHES,
    ensures
        space.rings_starting(start).finite(),
        counts(
            space.ring_search_from(start, branches),
            branches,
            space.rings_starting(start).len(),
        ),
    decreases space.edges.len() - start,
{
    if start >= space.edges.len() {
        assert forall|branch: (Seq<u32>, Seq<u32>)| !space.rings_starting(start).contains(
            branch,
        ) by {
            if space.is_ring_branch(branch.0, branch.1) {
                assert(space.leads(branch.0[0], branch.1[0], branch.0[1]));
            }
        }
        assert(space.rings_starting(start) =~= Set::empty());
    } else {
        let path = seq![start as u32];
        let none = Seq::<u32>::empty();
        let here = space.rings_beyond(path, none, 0);
        let rest = space.rings_starting(start + 1);
        assert(follows_arcs(space, path, none));
        lemma_arcs_are_double_steps(space, start as u32);
        assert(space.arcs(start as u32).skip(0) =~= space.arcs(start as u32));
        rings_beyond_are_finite(space, path, none, 0);
        assert forall|branch: (Seq<u32>, Seq<u32>)| space.rings_starting(start).contains(branch)
            <==> here.union(rest).contains(branch) by {
            if space.is_ring_branch(branch.0, branch.1) {
                assert(space.leads(branch.0[0], branch.1[0], branch.0[1]));
                assert(branch.0.take(1)[0] == branch.0[0]);
                assert(branch.1.take(0) =~= none);
                if branch.0[0] == start {
                    assert(branch.0.take(1) =~= path);
                    assert(space.arcs(start as u32).contains(
                        Arc { dst: branch.0[1], mid: branch.1[0] },
                    ));
                }
            }
        }
        assert(space.rings_starting(start) =~= here.union(rest));
        assert(here.disjoint(rest)) by {
            assert forall|branch: (Seq<u32>, Seq<u32>)| here.contains(branch) implies
                !rest.contains(branch) by {
                assert(branch.0.take(1)[0] == branch.0[0]);
            }
        }
        follow_counts(space, path, none, 0, branches);
        match space.follow(path, none, 0, branches) {
            Search::Nothing(used) => {
                ring_search_counts(space, start + 1, used);
            },
            _ => {
                ring_search_counts(space, start + 1, 0);
            },
        }
        vstd::set_lib::lemma_set_disjoint_lens(here, rest);
    }
}

/// A search for rings gives up only once it has tried a hundred million branches
/// and there is another one, and one that ends with nothing has tried all.
pub proof fn lemma_ring_search_tries_every_branch(space: Space)
    requires
        space.edges.len() <= u32::MAX,
    ensures
        space.ring_branches().finite(),
        space.ring_search_from(0, 0) is Limit ==> space.ring_branches().len() > 100_000_000,
        space.ring_search_from(0, 0) matches Search::Nothing(tried) ==> tried
            == space.ring_branches().len() <= 100_000_000,
{
    ring_search_counts(space, 0, 0);
    assert(space.ring_branches() =~= space.rings_starting(0));
}

/// The double steps from positions below `end`.
spec fn steps_below(space: Space, end: nat) -> Set<(u32, u32, u32)> {
    Set::new(|step: (u32, u32, u32)| space.leads(step.0, step.1, step.2) && step.0 < end)
}

proof fn arcs_count_steps(space: Space, end: nat)
    requires
        end <= space.edges.len() <= u32::MAX,
    ensures
        steps_below(space, end).finite(),
        steps_below(space, end).len() == space.all_arcs(end).len(),
    decreases end,
{
    if end == 0 {
        assert(steps_below(space, end) =~= Set::empty());
    } else {
        let src = (end - 1) as u32;
        let before = steps_below(space, (end - 1) as nat);
        let arcs = space.arcs(src);
        let list = Seq::new(arcs.len(), |k: int| (src, arcs[k].mid, arcs[k].dst));
        arcs_count_steps(space, (end - 1) as nat);
        lemma_arcs_are_double_steps(space, src);
        assert(list.no_duplicates()) by {
            assert forall|i: int, j: int| 0 <= i < list.len() && 0 <= j < list.len() && i != j
                implies list[i] != list[j] by {
                assert(arcs[i] != arcs[j]);
            }
        }
        list.unique_seq_to_set();
        assert forall|step: (u32, u32, u32)| steps_below(space, end).contains(step)
            <==> before.union(list.to_set()).contains(step) by {
            if step.0 == src && space.leads(step.0, step.1, step.2) {
                let arc = Arc { dst: step.2, mid: step.1 };
                assert(arcs.contains(arc));
                let k = choose|k: int| 0 <= k < arcs.len() && arcs[k] == arc;
                assert(list[k] == step);
            }
            if list.to_set().contains(step) {
                let k = choose|k: int| 0 <= k < list.len() && list[k] == step;
                assert(arcs.contains(arcs[k]));
            }
        }
        assert(steps_below(space, end) =~= before.union(list.to_set()));
        assert(before.disjoint(list.to_set())) by {
            assert forall|step: (u32, u32, u32)| list.to_set().contains(step) implies
                !before.contains(step) by {
                let k = choose|k: int| 0 <= k < list.len() && list[k] == step;
            }
        }
        vstd::set_lib::lemma_set_disjoint_lens(before, list.to_set());
    }
}

/// There are as many arcs as ways of going two edges on.
pub proof fn lemma_arcs_are_all_double_steps(space: Space)
    requires
        space.edges.len() <= u32::MAX,
    ensures
        space.double_steps().finite(),
        space.all_arcs(space.edges.len()).len() == space.double_steps().len(),
{
    arcs_count_steps(space, space.edges.len());
    assert(space.double_steps() =~= steps_below(space, space.edges.len()));
}

/// Where the edges are few enough to be searched to the end, a search decides:
/// it finds a proof where there is one, and else says that there is none.  For
/// cycles of 42 edges that is where there are no more double steps than are
/// kept, and no more branches than a hundred million.
pub proof fn lemma_d2_decides(
    request: GraphParams,
    edges: Seq<u64>,
    result: Result<Option<Proof>, SolveError>,
)
    requires
        d2_result(request, edges, result),
        request.cycle_length > 0,
        edges.len() <= u32::MAX,
        edges.len() >= request.cycle_length ==> if request.cycle_length == 42 {
            request.space(edges).double_steps().len() <= 16_777_216 && request.space(
                edges,
            ).ring_branches().len() <= 100_000_000
        } else {
            request.space(edges).branches().len() <= 100_000_000
        },
    ensures
        result is Ok,
        (exists|nonces: Seq<u64>| #[trigger] search::is_answer(request.space(edges), nonces)) ==> (
        result->Ok_0 matches Some(proof) && search::is_answer(request.space(edges), proof.nonces@)),
        !(exists|nonces: Seq<u64>| #[trigger] search::is_answer(request.space(edges), nonces))
            ==> result->Ok_0 is None,
{
    let space = request.space(edges);
    if edges.len() >= request.cycle_length {
        if request.cycle_length == 42 {
            lemma_ring_search_tries_every_branch(space);
            lemma_arcs_are_all_double_steps(space);
        } else {
            search::lemma_search_tries_every_branch(space);
        }
    }
    assert forall|nonces: Seq<u64>| result matches Ok(None) implies !#[trigger] search::is_answer(
        space,
        nonces,
    ) by {
        lemma_d2_answers_are_right(request, edges, result, nonces);
    }
    lemma_d2_answers_are_right(request, edges, result, Seq::empty());
}

/// A search that ends without an answer had a reason: more edges than can be
/// numbered, more double steps than are kept, or more branches than a hundred
/// million.
pub proof fn lemma_d2_has_a_reason_to_give_up(
    request: GraphParams,
    edges: Seq<u64>,
    result: Result<Option<Proof>, SolveError>,
)
    requires
        d2_result(request, edges, result),
        request.cycle_length > 0,
        edges.len() <= usize::MAX,
        result is Err,
    ensures
        edges.len() >= request.cycle_length,
        request.cycle_length != 42 ==> request.space(edges).branches().len() > 100_000_000,
        request.cycle_length == 42 ==> edges.len() > 0xffff_ffff || request.space(
            edges,
        ).double_steps().len() > 16_777_216 || request.space(edges).ring_branches().len()
            > 100_000_000,
{
    let space = request.space(edges);
    if request.cycle_length != 42 {
        if edges.len() >= request.cycle_length {
            search::lemma_search_tries_every_branch(space);
        }
    } else if edges.len() <= u32::MAX {
        lemma_ring_search_tries_every_branch(space);
        lemma_arcs_are_all_double_steps(space);
    }
}

} // verus!
