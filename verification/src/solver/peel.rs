//! Peeling a set of edges down to its two-core.

use crate::bits;
use crate::graph::Graph;
use crate::siphash::endpoint;
use crate::solver::cpu_lean;
use crate::solver::radix::{self, radix_order};
use crate::solver::{ErrorKind, GraphParams, SolveError};
use crate::verify;
use std::collections::VecDeque;
use vstd::prelude::*;

verus! {

/// The edges of a list that lie in the two-core of all of them.
pub open spec fn core_of(graph: Graph, edges: Seq<u64>) -> Seq<u64> {
    edges.filter(|edge: u64| graph.in_core(edges.to_set(), edge))
}

/// How many of the positions at places `begin..end` are alive.
spec fn alive_in(alive: Seq<bool>, order: Seq<u32>, begin: int, end: int) -> nat
    decreases end - begin,
{
    if end <= begin {
        0
    } else {
        alive_in(alive, order, begin, end - 1) + (if alive[order[end - 1] as int] {
            1nat
        } else {
            0nat
        })
    }
}

/// Whether no position at places `begin..end` is alive.
spec fn all_dead(alive: Seq<bool>, order: Seq<u32>, begin: int, end: int) -> bool {
    forall|a: int| begin <= a < end ==> !alive[#[trigger] order[a] as int]
}

proof fn lemma_none_alive(alive: Seq<bool>, order: Seq<u32>, begin: int, end: int)
    requires
        0 <= begin <= end <= order.len(),
    ensures
        alive_in(alive, order, begin, end) == 0 <==> all_dead(alive, order, begin, end),
    decreases end - begin,
{
    if begin < end {
        lemma_none_alive(alive, order, begin, end - 1);
        if alive_in(alive, order, begin, end) == 0 {
            assert forall|a: int| begin <= a < end implies !alive[#[trigger] order[a] as int] by {
                if a < end - 1 {
                    assert(all_dead(alive, order, begin, end - 1));
                }
            }
        }
        if all_dead(alive, order, begin, end) {
            assert(!alive[order[end - 1] as int]);
        }
    }
}

proof fn lemma_all_alive(alive: Seq<bool>, order: Seq<u32>, begin: int, end: int)
    requires
        0 <= begin <= end <= order.len(),
        forall|a: int| begin <= a < end ==> alive[#[trigger] order[a] as int],
    ensures
        alive_in(alive, order, begin, end) == end - begin,
    decreases end - begin,
{
    if begin < end {
        lemma_all_alive(alive, order, begin, end - 1);
        assert(alive[order[end - 1] as int]);
    }
}

/// A death elsewhere changes no count.
proof fn lemma_death_elsewhere(
    alive: Seq<bool>,
    order: Seq<u32>,
    begin: int,
    end: int,
    position: int,
)
    requires
        0 <= begin <= end <= order.len(),
        0 <= position < alive.len(),
        forall|a: int|
            begin <= a < end ==> #[trigger] order[a] != position && order[a] < alive.len(),
    ensures
        alive_in(alive.update(position, false), order, begin, end) == alive_in(
            alive,
            order,
            begin,
            end,
        ),
    decreases end - begin,
{
    if begin < end {
        lemma_death_elsewhere(alive, order, begin, end - 1, position);
        assert(order[end - 1] != position);
    }
}

/// A death inside lowers the count by one.
proof fn lemma_death_inside(
    alive: Seq<bool>,
    order: Seq<u32>,
    begin: int,
    end: int,
    place: int,
)
    requires
        0 <= begin <= place < end <= order.len(),
        forall|a: int| begin <= a < end ==> #[trigger] order[a] < alive.len(),
        forall|a: int| begin <= a < end && a != place ==> #[trigger] order[a] != order[place],
        alive[order[place] as int],
    ensures
        alive_in(alive, order, begin, end) > 0,
        alive_in(alive.update(order[place] as int, false), order, begin, end) == alive_in(
            alive,
            order,
            begin,
            end,
        ) - 1,
    decreases end - begin,
{
    if place == end - 1 {
        lemma_death_elsewhere(alive, order, begin, end - 1, order[place] as int);
    } else {
        lemma_death_inside(alive, order, begin, end - 1, place);
        assert(order[end - 1] != order[place]);
    }
}

/// How many flags are not set.
spec fn unset(flags: Seq<bool>) -> nat
    decreases flags.len(),
{
    if flags.len() == 0 {
        0
    } else {
        unset(flags.drop_last()) + (if flags.last() {
            0nat
        } else {
            1nat
        })
    }
}

proof fn lemma_set_one(flags: Seq<bool>, i: int)
    requires
        0 <= i < flags.len(),
        !flags[i],
    ensures
        unset(flags) == unset(flags.update(i, true)) + 1,
    decreases flags.len(),
{
    let after = flags.update(i, true);
    if i == flags.len() - 1 {
        assert(after.drop_last() =~= flags.drop_last());
    } else {
        lemma_set_one(flags.drop_last(), i);
        assert(after.drop_last() =~= flags.drop_last().update(i, true));
    }
}

/// The edges grouped by their node on one side, with what is known of each
/// group: where its edges stand, which group has the mate node, how many of its
/// edges live, and whether it has been queued for removal.
struct Side {
    nodes: Vec<u32>,
    order: Vec<u32>,
    keys: Vec<u32>,
    starts: Vec<u32>,
    group: Vec<u32>,
    mate: Vec<Option<u32>>,
    live: Vec<u32>,
    queued: Vec<bool>,
}

/// Whether places are split into groups of equal nodes.
spec fn is_grouping(
    nodes: Seq<u32>,
    order: Seq<u32>,
    keys: Seq<u32>,
    starts: Seq<u32>,
    group: Seq<u32>,
) -> bool {
    &&& radix::is_sorted_order(order, nodes)
    &&& nodes.len() <= u32::MAX
    &&& starts.len() == keys.len() + 1
    &&& group.len() == nodes.len()
    &&& forall|g: int, h: int| 0 <= g < h < starts.len() ==> starts[g] < starts[h]
    &&& starts[keys.len() as int] == nodes.len()
    &&& forall|g: int, h: int| 0 <= g < h < keys.len() ==> keys[g] < keys[h]
    &&& forall|a: int|
        0 <= a < order.len() ==> {
            let g = group[#[trigger] order[a] as int];
            &&& g < keys.len()
            &&& starts[g as int] <= a < starts[g + 1]
            &&& nodes[order[a] as int] == keys[g as int]
        }
}

/// A place between two starts belongs to that group.
proof fn lemma_group_of_place(
    nodes: Seq<u32>,
    order: Seq<u32>,
    keys: Seq<u32>,
    starts: Seq<u32>,
    group: Seq<u32>,
    g: int,
    a: int,
)
    requires
        is_grouping(nodes, order, keys, starts, group),
        0 <= g < keys.len(),
        starts[g] <= a < starts[g + 1],
    ensures
        0 <= a < order.len(),
        group[order[a] as int] == g,
        nodes[order[a] as int] == keys[g],
{
    let last = keys.len() as int;
    assert(g + 1 == last || starts[g + 1] < starts[last]);
    let f = group[order[a] as int] as int;
    assert(starts[f] <= a < starts[f + 1]);
    if f < g {
        assert(f + 1 == g || starts[f + 1] < starts[g]);
    } else if g < f {
        assert(g + 1 == f || starts[g + 1] < starts[f]);
    }
}

impl Side {
    spec fn fixed(self) -> bool {
        &&& is_grouping(self.nodes@, self.order@, self.keys@, self.starts@, self.group@)
        &&& self.mate.len() == self.keys.len()
        &&& self.live.len() == self.keys.len()
        &&& self.queued.len() == self.keys.len()
        &&& forall|g: int|
            0 <= g < self.keys.len() ==> match #[trigger] self.mate@[g] {
                Some(h) => h < self.keys.len() && self.keys@[h as int] == bits::mate(self.keys@[g]),
                None => !self.keys@.contains(bits::mate(self.keys@[g])),
            }
    }

    spec fn same_groups(self, other: Side) -> bool {
        &&& self.nodes@ == other.nodes@
        &&& self.order@ == other.order@
        &&& self.keys@ == other.keys@
        &&& self.starts@ == other.starts@
        &&& self.group@ == other.group@
        &&& self.mate@ == other.mate@
    }

    spec fn counts(self, alive: Seq<bool>) -> bool {
        forall|g: int|
            0 <= g < self.keys.len() ==> #[trigger] self.live@[g] == alive_in(
                alive,
                self.order@,
                self.starts@[g] as int,
                self.starts@[g + 1] as int,
            )
    }

    /// Whether nothing alive meets the edges of a group.
    spec fn doomed(self, g: int) -> bool {
        match self.mate@[g] {
            Some(h) => self.live@[h as int] == 0,
            None => true,
        }
    }

    spec fn flags(self) -> bool {
        forall|g: int| 0 <= g < self.keys.len() ==> (#[trigger] self.queued@[g] <==> self.doomed(g))
    }

    spec fn group_dead(self, alive: Seq<bool>, g: int) -> bool {
        all_dead(alive, self.order@, self.starts@[g] as int, self.starts@[g + 1] as int)
    }

    /// Whether every queued group, but for the one at work, still waits or has
    /// lost all its edges.
    spec fn settled(
        self,
        odd: bool,
        alive: Seq<bool>,
        queue: Seq<(bool, u32)>,
        at_work: Option<(bool, u32)>,
    ) -> bool {
        forall|g: int|
            0 <= g < self.keys.len() && #[trigger] self.queued@[g] && at_work != Some(
                (odd, g as u32),
            ) ==> queue.contains((odd, g as u32)) || self.group_dead(alive, g)
    }

    /// What holds of a side between any two deaths.
    spec fn stands(
        self,
        odd: bool,
        alive: Seq<bool>,
        queue: Seq<(bool, u32)>,
        at_work: Option<(bool, u32)>,
    ) -> bool {
        &&& self.fixed()
        &&& alive.len() == self.nodes.len()
        &&& self.counts(alive)
        &&& self.flags()
        &&& self.settled(odd, alive, queue, at_work)
        &&& forall|k: int|
            0 <= k < queue.len() && (#[trigger] queue[k]).0 == odd ==> queue[k].1
                < self.keys.len() && self.queued@[queue[k].1 as int]
    }
}

/// The groups of equal nodes: their keys, where they start, and the group of
/// each position.
fn group_nodes(nodes: &Vec<u32>, order: &Vec<u32>) -> (groups: (Vec<u32>, Vec<u32>, Vec<u32>))
    requires
        radix::is_sorted_order(order@, nodes@),
        nodes.len() <= u32::MAX,
    ensures
        is_grouping(nodes@, order@, groups.0@, groups.1@, groups.2@),
{
    let n: usize = order.len();
    let mut keys: Vec<u32> = Vec::new();
    let mut starts: Vec<u32> = Vec::new();
    let mut group: Vec<u32> = vec![0u32; n];
    let mut a: usize = 0;
    while a < n
        invariant
            radix::is_sorted_order(order@, nodes@),
            n == order.len() == nodes.len() == group.len(),
            n <= u32::MAX,
            a <= n,
            starts.len() == keys.len() <= a,
            a > 0 ==> keys.len() > 0,
            forall|g: int, h: int| 0 <= g < h < keys.len() ==> starts@[g] < starts@[h],
            forall|g: int| 0 <= g < keys.len() ==> #[trigger] starts@[g] < a,
            forall|g: int, h: int| 0 <= g < h < keys.len() ==> keys@[g] < keys@[h],
            a > 0 ==> keys@[keys.len() - 1] == nodes@[order@[a - 1] as int],
            forall|b: int|
                0 <= b < a ==> {
                    let g = group@[#[trigger] order@[b] as int];
                    &&& g < keys.len()
                    &&& starts@[g as int] <= b
                    &&& g + 1 < keys.len() ==> b < starts@[g + 1]
                    &&& nodes@[order@[b] as int] == keys@[g as int]
                },
        decreases n - a,
    {
        let position: u32 = order[a];
        assert(order@[a as int] < nodes.len());
        let node: u32 = nodes[position as usize];
        let ghost old_keys = keys@;
        let ghost old_starts = starts@;
        let ghost old_group = group@;
        let fresh: bool = if a == 0 {
            true
        } else {
            assert(order@[a - 1] < nodes.len());
            nodes[order[a - 1] as usize] != node
        };
        if fresh {
            assert(forall|g: int| 0 <= g < old_keys.len() ==> old_keys[g] < node) by {
                if a > 0 {
                    let before = a - 1;
                    assert(nodes@[order@[before] as int] < node) by {
                        assert(order@[before] != order@[a as int]);
                    }
                    assert forall|g: int| 0 <= g < old_keys.len() implies old_keys[g] < node by {
                        if g < old_keys.len() - 1 {
                            assert(old_keys[g] < old_keys[old_keys.len() - 1]);
                        }
                    }
                }
            }
            keys.push(node);
            starts.push(a as u32);
        }
        group.set(position as usize, (keys.len() - 1) as u32);
        assert forall|b: int| 0 <= b < a + 1 implies ({
            let g = group@[#[trigger] order@[b] as int];
            &&& g < keys.len()
            &&& starts@[g as int] <= b
            &&& g + 1 < keys.len() ==> b < starts@[g + 1]
            &&& nodes@[order@[b] as int] == keys@[g as int]
        }) by {
            if b < a {
                assert(order@[b] != order@[a as int]);
                assert(group@[order@[b] as int] == old_group[order@[b] as int]);
            } else {
                assert(order@[b] == position);
            }
        }
        a = a + 1;
    }
    let ghost open_starts = starts@;
    starts.push(n as u32);
    assert forall|b: int| 0 <= b < order.len() implies ({
        let g = group@[#[trigger] order@[b] as int];
        &&& g < keys.len()
        &&& starts@[g as int] <= b < starts@[g + 1]
        &&& nodes@[order@[b] as int] == keys@[g as int]
    }) by {
        let g = group@[order@[b] as int];
        assert(starts@[g as int] == open_starts[g as int]);
    }
    (keys, starts, group)
}

/// For each group the one with the mate node.  Sorted keys put it next door.
fn mate_groups(keys: &Vec<u32>) -> (mates: Vec<Option<u32>>)
    requires
        keys.len() <= u32::MAX,
        forall|g: int, h: int| 0 <= g < h < keys.len() ==> keys@[g] < keys@[h],
    ensures
        mates.len() == keys.len(),
        forall|g: int|
            0 <= g < keys.len() ==> match #[trigger] mates@[g] {
                Some(h) => h < keys.len() && keys@[h as int] == bits::mate(keys@[g]),
                None => !keys@.contains(bits::mate(keys@[g])),
            },
{
    let mut mates: Vec<Option<u32>> = Vec::with_capacity(keys.len());
    let mut g: usize = 0;
    while g < keys.len()
        invariant
            keys.len() <= u32::MAX,
            forall|a: int, b: int| 0 <= a < b < keys.len() ==> keys@[a] < keys@[b],
            g <= keys.len(),
            mates.len() == g,
            forall|f: int|
                0 <= f < g ==> match #[trigger] mates@[f] {
                    Some(h) => h < keys.len() && keys@[h as int] == bits::mate(keys@[f]),
                    None => !keys@.contains(bits::mate(keys@[f])),
                },
        decreases keys.len() - g,
    {
        let wanted = bits::flip(keys[g]);
        let neighbour: Option<usize> = if keys[g] % 2 == 0 {
            if g + 1 < keys.len() {
                Some(g + 1)
            } else {
                None
            }
        } else if g > 0 {
            Some(g - 1)
        } else {
            None
        };
        let found: Option<u32> = match neighbour {
            Some(h) => if keys[h] == wanted {
                Some(h as u32)
            } else {
                None
            },
            None => None,
        };
        proof {
            if found is None && keys@.contains(wanted) {
                let h = choose|h: int| 0 <= h < keys.len() && keys@[h] == wanted;
                if keys@[g as int] % 2 == 0 {
                    assert(g < h);
                    if h > g + 1 {
                        assert(keys@[g as int] < keys@[g + 1] < keys@[h]);
                    }
                } else {
                    assert(h < g);
                    if h < g - 1 {
                        assert(keys@[h] < keys@[g - 1] < keys@[g as int]);
                    }
                }
            }
        }
        mates.push(found);
        g = g + 1;
    }
    mates
}

/// Groups the edges by their nodes on one side and queues the groups that
/// nothing meets.
fn build_side(nodes: Vec<u32>, odd: bool, queue: &mut VecDeque<(bool, u32)>) -> (side: Side)
    requires
        nodes.len() <= u32::MAX,
        forall|k: int| 0 <= k < old(queue)@.len() ==> (#[trigger] old(queue)@[k]).0 != odd,
    ensures
        side.nodes@ == nodes@,
        side.stands(odd, Seq::new(nodes@.len(), |i: int| true), final(queue)@, None),
        old(queue)@.len() <= final(queue)@.len(),
        final(queue)@.take(old(queue)@.len() as int) == old(queue)@,
        forall|k: int|
            old(queue)@.len() <= k < final(queue)@.len() ==> (#[trigger] final(queue)@[k]).0 == odd,
{
    let order = radix_order(nodes.as_slice());
    let (keys, starts, group) = group_nodes(&nodes, &order);
    let ghost alive = Seq::new(nodes@.len(), |i: int| true);
    let ghost before = queue@;
    proof {
        lemma_group_count(nodes@, order@, keys@, starts@, group@);
    }
    let mate = mate_groups(&keys);
    let mut live: Vec<u32> = Vec::with_capacity(keys.len());
    let mut queued: Vec<bool> = Vec::with_capacity(keys.len());
    let mut g: usize = 0;
    while g < keys.len()
        invariant
            is_grouping(nodes@, order@, keys@, starts@, group@),
            keys.len() <= u32::MAX,
            mate.len() == keys.len(),
            g <= keys.len(),
            live.len() == g,
            queued.len() == g,
            alive == Seq::new(nodes@.len(), |i: int| true),
            before == old(queue)@,
            forall|k: int| 0 <= k < before.len() ==> (#[trigger] before[k]).0 != odd,
            before.len() <= queue@.len(),
            queue@.take(before.len() as int) == before,
            forall|k: int|
                before.len() <= k < queue@.len() ==> {
                    &&& (#[trigger] queue@[k]).0 == odd
                    &&& queue@[k].1 < g
                    &&& queued@[queue@[k].1 as int]
                },
            forall|f: int|
                0 <= f < g ==> #[trigger] live@[f] == alive_in(
                    alive,
                    order@,
                    starts@[f] as int,
                    starts@[f + 1] as int,
                ) && live@[f] > 0,
            forall|f: int|
                0 <= f < g ==> (#[trigger] queued@[f] <==> mate@[f] is None) && (queued@[f]
                    ==> queue@.contains((odd, f as u32))),
        decreases keys.len() - g,
    {
        let ghost old_queue = queue@;
        assert(starts@[g as int] < starts@[g + 1]);
        proof {
            let last = keys.len() as int;
            assert(g + 1 == last || starts@[g + 1] < starts@[last]);
            assert forall|a: int| starts@[g as int] <= a < starts@[g + 1] implies alive[
                #[trigger] order@[a] as int
            ] by {
                assert(order@[a] < nodes.len());
            }
            lemma_all_alive(alive, order@, starts@[g as int] as int, starts@[g + 1] as int);
        }
        live.push(starts[g + 1] - starts[g]);
        if mate[g].is_none() {
            queued.push(true);
            queue.push_back((odd, g as u32));
            assert(queue@[old_queue.len() as int] == (odd, g as u32));
        } else {
            queued.push(false);
        }
        assert(queue@.take(before.len() as int) =~= old_queue.take(before.len() as int));
        assert forall|f: int| 0 <= f < g + 1 && queued@[f] implies queue@.contains(
            (odd, f as u32),
        ) by {
            if f < g {
                assert(queued@[f]);
                let k = choose|k: int| 0 <= k < old_queue.len() && old_queue[k] == (odd, f as u32);
                assert(queue@[k] == (odd, f as u32));
            }
        }
        g = g + 1;
    }
    let side = Side { nodes, order, keys, starts, group, mate, live, queued };
    proof {
        assert(side.flags()) by {
            assert forall|f: int| 0 <= f < side.keys.len() implies (#[trigger] side.queued@[f]
                <==> side.doomed(f)) by {
                if let Some(h) = side.mate@[f] {
                    assert(side.live@[h as int] > 0);
                }
            }
        }
        assert forall|k: int| 0 <= k < queue@.len() && (#[trigger] queue@[k]).0 == odd implies
            queue@[k].1 < side.keys.len() && side.queued@[queue@[k].1 as int] by {
            if k < before.len() {
                assert(queue@.take(before.len() as int)[k] == before[k]);
            }
        }
    }
    side
}

/// There are no more groups than positions.
proof fn lemma_group_count(
    nodes: Seq<u32>,
    order: Seq<u32>,
    keys: Seq<u32>,
    starts: Seq<u32>,
    group: Seq<u32>,
)
    requires
        is_grouping(nodes, order, keys, starts, group),
    ensures
        keys.len() <= nodes.len(),
{
    lemma_starts_climb(starts, keys.len() as int);
}

proof fn lemma_starts_climb(starts: Seq<u32>, g: int)
    requires
        0 <= g < starts.len(),
        forall|a: int, b: int| 0 <= a < b < starts.len() ==> starts[a] < starts[b],
    ensures
        g <= starts[g],
    decreases g,
{
    if g > 0 {
        lemma_starts_climb(starts, g - 1);
        assert(starts[g - 1] < starts[g]);
    }
}

/// A longer queue with the same beginning settles as much.
proof fn lemma_queue_grows(
    side: Side,
    odd: bool,
    alive: Seq<bool>,
    queue: Seq<(bool, u32)>,
    longer: Seq<(bool, u32)>,
    at_work: Option<(bool, u32)>,
)
    requires
        side.stands(odd, alive, queue, at_work),
        queue.len() <= longer.len(),
        longer.take(queue.len() as int) == queue,
        forall|k: int| queue.len() <= k < longer.len() ==> (#[trigger] longer[k]).0 != odd,
    ensures
        side.stands(odd, alive, longer, at_work),
{
    assert forall|g: int|
        0 <= g < side.keys.len() && #[trigger] side.queued@[g] && at_work != Some(
            (odd, g as u32),
        ) implies longer.contains((odd, g as u32)) || side.group_dead(alive, g) by {
        if queue.contains((odd, g as u32)) {
            let k = choose|k: int| 0 <= k < queue.len() && queue[k] == (odd, g as u32);
            assert(longer.take(queue.len() as int)[k] == (odd, g as u32));
            assert(longer[k] == (odd, g as u32));
        }
    }
    assert forall|k: int| 0 <= k < longer.len() && (#[trigger] longer[k]).0 == odd implies
        longer[k].1 < side.keys.len() && side.queued@[longer[k].1 as int] by {
        assert(longer.take(queue.len() as int)[k] == longer[k]);
        assert(queue[k] == longer[k]);
    }
}

/// Two groups are each other's mates or neither is.
proof fn lemma_mates_are_mutual(side: Side, f: int, g: int)
    requires
        side.fixed(),
        0 <= f < side.keys.len(),
        0 <= g < side.keys.len(),
        side.mate@[f] == Some(g as u32),
    ensures
        side.mate@[g] == Some(f as u32),
{
    let n = side.keys.len() as int;
    lemma_group_count(side.nodes@, side.order@, side.keys@, side.starts@, side.group@);
    let wide = g as u32;
    assert(wide as int == g);
    bits::lemma_mate_is_involution(side.keys@[f]);
    assert(side.keys@[g] == bits::mate(side.keys@[f]));
    assert(bits::mate(side.keys@[g]) == side.keys@[f]);
    assert(side.keys@.contains(bits::mate(side.keys@[g])));
    let h = side.mate@[g]->0 as int;
    assert(side.mate@[g] is Some);
    assert(side.keys@[h] == side.keys@[f]);
    if h < f {
        assert(side.keys@[h] < side.keys@[f]);
    } else if f < h {
        assert(side.keys@[f] < side.keys@[h]);
    }
}

/// The counts of the groups after a death.
proof fn lemma_counts_after_death(side: Side, alive: Seq<bool>, position: int, f: int)
    requires
        side.fixed(),
        alive.len() == side.nodes.len(),
        0 <= position < alive.len(),
        alive[position],
        0 <= f < side.keys.len(),
    ensures
        side.group@[position] < side.keys.len(),
        ({
            let before = alive_in(
                alive,
                side.order@,
                side.starts@[f] as int,
                side.starts@[f + 1] as int,
            );
            let after = alive_in(
                alive.update(position, false),
                side.order@,
                side.starts@[f] as int,
                side.starts@[f + 1] as int,
            );
            if f == side.group@[position] {
                before > 0 && after == before - 1
            } else {
                after == before
            }
        }),
{
    let order = side.order@;
    let begin = side.starts@[f] as int;
    let end = side.starts@[f + 1] as int;
    radix::lemma_order_is_complete(order, side.nodes@, position);
    let place = choose|a: int| 0 <= a < order.len() && order[a] == position as u32;
    let g = side.group@[order[place] as int] as int;
    let last = side.keys.len() as int;
    assert(f + 1 == last || side.starts@[f + 1] < side.starts@[last]);
    assert(side.starts@[f] < side.starts@[f + 1]);
    assert forall|a: int| begin <= a < end implies #[trigger] order[a] < alive.len() by {}
    if f == g {
        assert forall|a: int| begin <= a < end && a != place implies #[trigger] order[a]
            != order[place] by {
            if a < place {
                assert(order[a] != order[place]);
            } else {
                assert(order[place] != order[a]);
            }
        }
        lemma_death_inside(alive, order, begin, end, place);
    } else {
        assert forall|a: int| begin <= a < end implies #[trigger] order[a] != position by {
            lemma_group_of_place(
                side.nodes@,
                side.order@,
                side.keys@,
                side.starts@,
                side.group@,
                f,
                a,
            );
        }
        lemma_death_elsewhere(alive, order, begin, end, position);
    }
}

/// Takes a dying edge out of its group, and queues the group that met it last.
fn drop_edge(
    side: &mut Side,
    odd: bool,
    position: usize,
    queue: &mut VecDeque<(bool, u32)>,
    Ghost(alive): Ghost<Seq<bool>>,
    Ghost(at_work): Ghost<Option<(bool, u32)>>,
)
    requires
        old(side).stands(odd, alive, old(queue)@, at_work),
        position < alive.len(),
        alive[position as int],
    ensures
        final(side).same_groups(*old(side)),
        final(side).stands(
            odd,
            alive.update(position as int, false),
            final(queue)@,
            at_work,
        ),
        forall|g: int|
            0 <= g < old(side).keys.len() && #[trigger] old(side).queued@[g]
                ==> final(side).queued@[g],
        old(queue)@.len() <= final(queue)@.len(),
        final(queue)@.take(old(queue)@.len() as int) == old(queue)@,
        forall|k: int|
            old(queue)@.len() <= k < final(queue)@.len() ==> (#[trigger] final(queue)@[k]).0 == odd,
        unset(final(side).queued@) + final(queue)@.len() == unset(old(side).queued@) + old(
            queue,
        )@.len(),
{
    let ghost start = *side;
    let ghost waiting = queue@;
    let ghost after = alive.update(position as int, false);
    let g: usize = side.group[position] as usize;
    proof {
        lemma_group_count(start.nodes@, start.order@, start.keys@, start.starts@, start.group@);
        let place = lemma_find_place(start, position as int);
        lemma_counts_after_death(start, alive, position as int, g as int);
    }
    let count: u32 = side.live[g];
    side.live.set(g, count - 1);
    let ghost counted = *side;
    assert(counted.counts(after)) by {
        assert forall|f: int| 0 <= f < counted.keys.len() implies #[trigger] counted.live@[f]
            == alive_in(
            after,
            counted.order@,
            counted.starts@[f] as int,
            counted.starts@[f + 1] as int,
        ) by {
            lemma_counts_after_death(start, alive, position as int, f);
            assert(start.live@[f] == alive_in(
                alive,
                start.order@,
                start.starts@[f] as int,
                start.starts@[f + 1] as int,
            ));
        }
    }
    if count - 1 == 0 {
        match side.mate[g] {
            Some(mate) => {
                let h: usize = mate as usize;
                proof {
                    lemma_mates_are_mutual(start, g as int, h as int);
                    assert(!start.doomed(h as int));
                    assert(!start.queued@[h as int]);
                }
                if !side.queued[h] {
                    proof {
                        lemma_set_one(side.queued@, h as int);
                    }
                    side.queued.set(h, true);
                    queue.push_back((odd, mate));
                    assert(queue@[waiting.len() as int] == (odd, mate));
                }
            },
            None => {},
        }
    }
    proof {
        let end = *side;
        assert(queue@.take(waiting.len() as int) =~= waiting);
        assert(end.fixed());
        assert(end.counts(after));
        assert forall|f: int| 0 <= f < end.keys.len() implies (#[trigger] end.queued@[f]
            <==> end.doomed(f)) by {
            assert(start.queued@[f] <==> start.doomed(f));
            if let Some(m) = start.mate@[f] {
                if m == g {
                    lemma_mates_are_mutual(start, f, g as int);
                }
            }
        }
        assert(end.flags());
        assert forall|f: int|
            0 <= f < end.keys.len() && #[trigger] end.queued@[f] && at_work != Some(
                (odd, f as u32),
            ) implies queue@.contains((odd, f as u32)) || end.group_dead(after, f) by {
            if start.queued@[f] {
                if waiting.contains((odd, f as u32)) {
                    let k = choose|k: int|
                        0 <= k < waiting.len() && waiting[k] == (odd, f as u32);
                    assert(queue@[k] == (odd, f as u32));
                } else {
                    assert(start.group_dead(alive, f));
                    assert forall|a: int|
                        end.starts@[f] <= a < end.starts@[f + 1] implies !after[
                        #[trigger] end.order@[a] as int
                    ] by {
                        lemma_group_of_place(
                            end.nodes@,
                            end.order@,
                            end.keys@,
                            end.starts@,
                            end.group@,
                            f,
                            a,
                        );
                        assert(!alive[start.order@[a] as int]);
                    }
                }
            } else {
                assert(queue@[waiting.len() as int] == (odd, f as u32));
            }
        }
        assert forall|k: int| 0 <= k < queue@.len() && (#[trigger] queue@[k]).0 == odd implies
            queue@[k].1 < end.keys.len() && end.queued@[queue@[k].1 as int] by {
            if k < waiting.len() {
                assert(queue@[k] == waiting[k]);
            }
        }
    }
}

/// Whether only edges outside the core have died.
spec fn is_safe(graph: Graph, edges: Seq<u64>, alive: Seq<bool>) -> bool {
    &&& alive.len() == edges.len()
    &&& forall|i: int|
        0 <= i < edges.len() && !#[trigger] alive[i] ==> !graph.in_core(edges.to_set(), edges[i])
}

/// Where an edge stands in its group.
proof fn lemma_find_place(side: Side, position: int) -> (place: int)
    requires
        side.fixed(),
        0 <= position < side.nodes.len(),
    ensures
        0 <= place < side.order.len(),
        side.order@[place] == position,
        side.group@[position] < side.keys.len(),
        side.starts@[side.group@[position] as int] <= place < side.starts@[side.group@[position]
            + 1],
        side.nodes@[position] == side.keys@[side.group@[position] as int],
{
    radix::lemma_order_is_complete(side.order@, side.nodes@, position);
    let place = choose|a: int| 0 <= a < side.order.len() && side.order@[a] == position as u32;
    let g = side.group@[side.order@[place] as int];
    place
}

/// An edge of a queued group is not in the core.
proof fn lemma_queued_edge_is_outside(
    graph: Graph,
    edges: Seq<u64>,
    alive: Seq<bool>,
    side: Side,
    odd: bool,
    position: int,
)
    requires
        side.fixed(),
        side.counts(alive),
        side.flags(),
        side.nodes@ == verify::side_nodes(graph, edges, if odd {
            1
        } else {
            0
        }),
        is_safe(graph, edges, alive),
        0 <= position < edges.len(),
        side.group@[position] < side.keys.len(),
        side.queued@[side.group@[position] as int],
    ensures
        !graph.in_core(edges.to_set(), edges[position]),
{
    let all = edges.to_set();
    let s: int = if odd {
        1
    } else {
        0
    };
    let g = side.group@[position] as int;
    if graph.in_core(all, edges[position]) {
        let part = choose|part: Set<u64>| #[trigger]
            graph.is_closed(part) && part.subset_of(all) && part.contains(edges[position]);
        assert(graph.node(edges[position], s) == graph.node(edges[position], s));
        assert(graph.has_partner(part, edges[position], s));
        let other = choose|other: u64| #[trigger]
            part.contains(other) && graph.meet(edges[position], other, s);
        assert(all.contains(other));
        let j = choose|j: int| 0 <= j < edges.len() && edges[j] == other;
        assert(graph.in_core(all, other));
        assert(alive[j]);
        let a = lemma_find_place(side, position);
        let b = lemma_find_place(side, j);
        let h = side.group@[j] as int;
        assert(side.keys@[h] == bits::mate(side.keys@[g]));
        assert(side.doomed(g));
        assert(side.keys@.contains(bits::mate(side.keys@[g])));
        let m = side.mate@[g]->0 as int;
        assert(side.mate@[g] is Some);
        if m < h {
            assert(side.keys@[m] < side.keys@[h]);
        } else if h < m {
            assert(side.keys@[h] < side.keys@[m]);
        }
        let last = side.keys.len() as int;
        assert(h + 1 == last || side.starts@[h + 1] < side.starts@[last]);
        assert(side.starts@[h] < side.starts@[h + 1]);
        lemma_none_alive(alive, side.order@, side.starts@[h] as int, side.starts@[h + 1] as int);
        assert(side.live@[h] == 0);
        assert(!alive[side.order@[b] as int]);
    }
}

/// With nothing left in the queue, every living edge meets another one.
proof fn lemma_living_edge_is_met(
    graph: Graph,
    edges: Seq<u64>,
    alive: Seq<bool>,
    side: Side,
    odd: bool,
    position: int,
) -> (j: int)
    requires
        side.stands(odd, alive, Seq::empty(), None),
        side.nodes@ == verify::side_nodes(graph, edges, if odd {
            1
        } else {
            0
        }),
        0 <= position < edges.len(),
        alive[position],
    ensures
        0 <= j < edges.len(),
        alive[j],
        graph.meet(edges[position], edges[j], if odd {
            1
        } else {
            0
        }),
{
    let g = side.group@[position] as int;
    let a = lemma_find_place(side, position);
    assert(!side.group_dead(alive, g)) by {
        if side.group_dead(alive, g) {
            assert(!alive[side.order@[a] as int]);
        }
    }
    assert(!side.queued@[g]);
    assert(!side.doomed(g));
    let h = side.mate@[g]->0 as int;
    let last = side.keys.len() as int;
    assert(h + 1 == last || side.starts@[h + 1] < side.starts@[last]);
    assert(side.starts@[h] < side.starts@[h + 1]);
    lemma_none_alive(alive, side.order@, side.starts@[h] as int, side.starts@[h + 1] as int);
    assert(side.live@[h] > 0);
    let b = choose|b: int|
        side.starts@[h] <= b < side.starts@[h + 1] && alive[#[trigger] side.order@[b] as int];
    lemma_group_of_place(
        side.nodes@,
        side.order@,
        side.keys@,
        side.starts@,
        side.group@,
        h,
        b,
    );
    side.order@[b] as int
}

/// The edges that are still alive when nothing waits are those of the core.
proof fn lemma_living_edges_are_core(
    graph: Graph,
    edges: Seq<u64>,
    alive: Seq<bool>,
    even: Side,
    odd: Side,
)
    requires
        even.stands(false, alive, Seq::empty(), None),
        odd.stands(true, alive, Seq::empty(), None),
        even.nodes@ == verify::side_nodes(graph, edges, 0),
        odd.nodes@ == verify::side_nodes(graph, edges, 1),
        is_safe(graph, edges, alive),
    ensures
        forall|i: int|
            0 <= i < edges.len() ==> (#[trigger] alive[i] <==> graph.in_core(
                edges.to_set(),
                edges[i],
            )),
{
    let all = edges.to_set();
    let living = Set::new(
        |edge: u64| exists|i: int| 0 <= i < edges.len() && #[trigger] alive[i] && edges[i] == edge,
    );
    assert forall|edge: u64, side: int|
        #![trigger graph.node(edge, side)]
        living.contains(edge) && 0 <= side < 2 implies graph.has_partner(living, edge, side) by {
        let i = choose|i: int| 0 <= i < edges.len() && #[trigger] alive[i] && edges[i] == edge;
        if side == 0 {
            let j = lemma_living_edge_is_met(graph, edges, alive, even, false, i);
            assert(living.contains(edges[j]));
        } else {
            let j = lemma_living_edge_is_met(graph, edges, alive, odd, true, i);
            assert(living.contains(edges[j]));
        }
    }
    assert(graph.is_closed(living));
    assert(living.subset_of(all)) by {
        assert forall|edge: u64| living.contains(edge) implies all.contains(edge) by {
            let i = choose|i: int| 0 <= i < edges.len() && #[trigger] alive[i] && edges[i] == edge;
            assert(edges.contains(edges[i]));
        }
    }
    assert forall|i: int| 0 <= i < edges.len() implies (#[trigger] alive[i] <==> graph.in_core(
        all,
        edges[i],
    )) by {
        if alive[i] {
            assert(living.contains(edges[i]));
        }
    }
}

fn nodes_on_side(request: GraphParams, edges: &[u64], odd: bool) -> (nodes: Vec<u32>)
    requires
        edges.len() > 0 ==> request.edge_bits < 64,
    ensures
        nodes@ == verify::side_nodes(request.graph(), edges@, if odd {
            1
        } else {
            0
        }),
{
    let side: u8 = if odd {
        1
    } else {
        0
    };
    let mut nodes: Vec<u32> = Vec::with_capacity(edges.len());
    let mut i: usize = 0;
    while i < edges.len()
        invariant
            edges.len() > 0 ==> request.edge_bits < 64,
            i <= edges.len(),
            nodes.len() == i,
            forall|k: int|
                0 <= k < i ==> #[trigger] nodes@[k] == request.graph().node(
                    edges@[k],
                    side as int,
                ),
        decreases edges.len() - i,
    {
        nodes.push(endpoint(request.keys, request.edge_bits, edges[i], side));
        i = i + 1;
    }
    assert(nodes@ =~= verify::side_nodes(request.graph(), edges@, side as int));
    nodes
}

/// Takes all edges of one group away.
fn remove_group(
    even: &mut Side,
    odd: &mut Side,
    alive: &mut Vec<bool>,
    queue: &mut VecDeque<(bool, u32)>,
    item: (bool, u32),
    Ghost(graph): Ghost<Graph>,
    Ghost(edges): Ghost<Seq<u64>>,
)
    requires
        old(even).stands(false, old(alive)@, old(queue)@, Some(item)),
        old(odd).stands(true, old(alive)@, old(queue)@, Some(item)),
        old(even).nodes@ == verify::side_nodes(graph, edges, 0),
        old(odd).nodes@ == verify::side_nodes(graph, edges, 1),
        is_safe(graph, edges, old(alive)@),
        item.0 ==> item.1 < old(odd).keys.len() && old(odd).queued@[item.1 as int],
        !item.0 ==> item.1 < old(even).keys.len() && old(even).queued@[item.1 as int],
    ensures
        final(even).stands(false, final(alive)@, final(queue)@, None),
        final(odd).stands(true, final(alive)@, final(queue)@, None),
        final(even).nodes@ == verify::side_nodes(graph, edges, 0),
        final(odd).nodes@ == verify::side_nodes(graph, edges, 1),
        is_safe(graph, edges, final(alive)@),
        unset(final(even).queued@) + unset(final(odd).queued@) + final(queue)@.len() == unset(
            old(even).queued@,
        ) + unset(old(odd).queued@) + old(queue)@.len(),
{
    let is_odd = item.0;
    let g: usize = item.1 as usize;
    let ghost total = unset(even.queued@) + unset(odd.queued@) + queue@.len();
    let ghost first_even = *even;
    let ghost first_odd = *odd;
    let begin: usize = if is_odd {
        odd.starts[g] as usize
    } else {
        even.starts[g] as usize
    };
    let end: usize = if is_odd {
        odd.starts[g + 1] as usize
    } else {
        even.starts[g + 1] as usize
    };
    proof {
        let side = if is_odd {
            *odd
        } else {
            *even
        };
        let last = side.keys.len() as int;
        assert(g + 1 == last || side.starts@[g + 1] < side.starts@[last]);
        assert(side.starts@[g as int] < side.starts@[g + 1]);
    }
    let mut a: usize = begin;
    while a < end
        invariant
            is_odd == item.0,
            g == item.1,
            even.same_groups(first_even),
            odd.same_groups(first_odd),
            even.stands(false, alive@, queue@, Some(item)),
            odd.stands(true, alive@, queue@, Some(item)),
            even.nodes@ == verify::side_nodes(graph, edges, 0),
            odd.nodes@ == verify::side_nodes(graph, edges, 1),
            is_safe(graph, edges, alive@),
            is_odd ==> g < odd.keys.len() && odd.queued@[g as int] && begin
                == odd.starts@[g as int] && end == odd.starts@[g + 1],
            !is_odd ==> g < even.keys.len() && even.queued@[g as int] && begin
                == even.starts@[g as int] && end == even.starts@[g + 1],
            begin <= a <= end <= edges.len(),
            all_dead(
                alive@,
                if is_odd {
                    odd.order@
                } else {
                    even.order@
                },
                begin as int,
                a as int,
            ),
            unset(even.queued@) + unset(odd.queued@) + queue@.len() == total,
        decreases end - a,
    {
        let position: usize = if is_odd {
            odd.order[a] as usize
        } else {
            even.order[a] as usize
        };
        let ghost side = if is_odd {
            *odd
        } else {
            *even
        };
        proof {
            lemma_group_of_place(
                side.nodes@,
                side.order@,
                side.keys@,
                side.starts@,
                side.group@,
                g as int,
                a as int,
            );
            assert(side.order@[a as int] < side.nodes.len());
        }
        let ghost before = alive@;
        if alive[position] {
            proof {
                lemma_queued_edge_is_outside(
                    graph,
                    edges,
                    before,
                    side,
                    is_odd,
                    position as int,
                );
            }
            let ghost queue_before = queue@;
            drop_edge(even, false, position, queue, Ghost(before), Ghost(Some(item)));
            let ghost queue_between = queue@;
            proof {
                lemma_queue_grows(*odd, true, before, queue_before, queue_between, Some(item));
            }
            drop_edge(odd, true, position, queue, Ghost(before), Ghost(Some(item)));
            alive.set(position, false);
            proof {
                assert(alive@ =~= before.update(position as int, false));
                lemma_queue_grows(
                    *even,
                    false,
                    alive@,
                    queue_between,
                    queue@,
                    Some(item),
                );
            }
        }
        assert forall|b: int| begin <= b < a + 1 implies !alive@[#[trigger] side.order@[b] as int] by {
            if b < a {
                assert(!before[side.order@[b] as int]);
            }
        }
        a = a + 1;
    }
    proof {
        assert forall|f: int| 0 <= f < even.keys.len() && #[trigger] even.queued@[f] implies
            queue@.contains((false, f as u32)) || even.group_dead(alive@, f) by {
            if item == (false, f as u32) {
                lemma_group_count(even.nodes@, even.order@, even.keys@, even.starts@, even.group@);
                assert(f == g);
            }
        }
        assert forall|f: int| 0 <= f < odd.keys.len() && #[trigger] odd.queued@[f] implies
            queue@.contains((true, f as u32)) || odd.group_dead(alive@, f) by {
            if item == (true, f as u32) {
                lemma_group_count(odd.nodes@, odd.order@, odd.keys@, odd.starts@, odd.group@);
                assert(f == g);
            }
        }
    }
}

/// After its first item is taken, a queue settles all but that item.
proof fn lemma_queue_pops(
    side: Side,
    odd: bool,
    alive: Seq<bool>,
    queue: Seq<(bool, u32)>,
)
    requires
        side.stands(odd, alive, queue, None),
        queue.len() > 0,
    ensures
        side.stands(odd, alive, queue.skip(1), Some(queue[0])),
{
    let rest = queue.skip(1);
    assert forall|g: int|
        0 <= g < side.keys.len() && #[trigger] side.queued@[g] && Some(queue[0]) != Some(
            (odd, g as u32),
        ) implies rest.contains((odd, g as u32)) || side.group_dead(alive, g) by {
        if queue.contains((odd, g as u32)) {
            let k = choose|k: int| 0 <= k < queue.len() && queue[k] == (odd, g as u32);
            assert(rest[k - 1] == (odd, g as u32));
        }
    }
    assert forall|k: int| 0 <= k < rest.len() && (#[trigger] rest[k]).0 == odd implies rest[k].1
        < side.keys.len() && side.queued@[rest[k].1 as int] by {
        assert(rest[k] == queue[k + 1]);
    }
}

fn living_edges(edges: &[u64], alive: &Vec<bool>, Ghost(graph): Ghost<Graph>) -> (left: Vec<u64>)
    requires
        alive.len() == edges.len(),
        forall|i: int|
            0 <= i < edges@.len() ==> (#[trigger] alive@[i] <==> graph.in_core(
                edges@.to_set(),
                edges@[i],
            )),
    ensures
        left@ == core_of(graph, edges@),
{
    let ghost keep = |edge: u64| graph.in_core(edges@.to_set(), edge);
    let mut left: Vec<u64> = Vec::new();
    let mut i: usize = 0;
    assert(edges@.take(0).filter(keep) =~= Seq::<u64>::empty()) by {
        reveal(Seq::filter);
    }
    while i < edges.len()
        invariant
            i <= edges.len() == alive.len(),
            keep == (|edge: u64| graph.in_core(edges@.to_set(), edge)),
            forall|k: int|
                0 <= k < edges@.len() ==> (#[trigger] alive@[k] <==> graph.in_core(
                    edges@.to_set(),
                    edges@[k],
                )),
            left@ == edges@.take(i as int).filter(keep),
        decreases edges.len() - i,
    {
        let ghost shorter = edges@.take(i as int);
        proof {
            assert(edges@.take(i + 1) =~= shorter.push(edges@[i as int]));
            shorter.lemma_filter_push(edges@[i as int], keep);
        }
        if alive[i] {
            left.push(edges[i]);
        }
        i = i + 1;
    }
    assert(edges@.take(i as int) =~= edges@);
    left
}

/// Removes edges without a live mate until the bipartite core is stable.
pub fn peel_two_core(request: GraphParams, survivors: &[u64]) -> (result: Result<
    Vec<u64>,
    SolveError,
>)
    requires
        survivors.len() > 0 ==> request.edge_bits < 64,
    ensures
        match result {
            Ok(left) => survivors.len() <= u32::MAX && left@ == core_of(
                request.graph(),
                survivors@,
            ),
            Err(error) => survivors.len() > u32::MAX && error@ == (
                ErrorKind::Unsupported,
                "2-core survivor index exceeds u32"@,
            ),
        },
{
    if survivors.len() as u64 > u32::MAX as u64 {
        return Err(crate::solver::unsupported("2-core survivor index exceeds u32"));
    }
    let ghost graph = request.graph();
    let mut queue: VecDeque<(bool, u32)> = VecDeque::new();
    let mut alive: Vec<bool> = vec![true; survivors.len()];
    let mut even = build_side(nodes_on_side(request, survivors, false), false, &mut queue);
    let ghost between = queue@;
    let mut odd = build_side(nodes_on_side(request, survivors, true), true, &mut queue);
    proof {
        assert(alive@ =~= Seq::new(survivors@.len(), |i: int| true));
        lemma_queue_grows(even, false, alive@, between, queue@, None);
    }
    while queue.len() > 0
        invariant
            even.stands(false, alive@, queue@, None),
            odd.stands(true, alive@, queue@, None),
            even.nodes@ == verify::side_nodes(graph, survivors@, 0),
            odd.nodes@ == verify::side_nodes(graph, survivors@, 1),
            is_safe(graph, survivors@, alive@),
        decreases unset(even.queued@) + unset(odd.queued@) + queue@.len(),
    {
        let ghost waiting = queue@;
        proof {
            lemma_queue_pops(even, false, alive@, waiting);
            lemma_queue_pops(odd, true, alive@, waiting);
            assert(waiting[0].0 == false || waiting[0].0 == true);
        }
        match queue.pop_front() {
            Some(item) => {
                assert(queue@ =~= waiting.skip(1));
                remove_group(
                    &mut even,
                    &mut odd,
                    &mut alive,
                    &mut queue,
                    item,
                    Ghost(graph),
                    Ghost(survivors@),
                );
            },
            None => {},
        }
    }
    proof {
        assert(queue@ =~= Seq::empty());
        lemma_living_edges_are_core(graph, survivors@, alive@, even, odd);
    }
    Ok(living_edges(survivors, &alive, Ghost(graph)))
}

/// What peeling leaves are the edges of the core, and nothing else.
pub proof fn lemma_peeling_leaves_core(graph: Graph, edges: Seq<u64>)
    ensures
        core_of(graph, edges).to_set() == graph.two_core(edges.to_set()),
{
    let all = edges.to_set();
    let keep = |edge: u64| graph.in_core(all, edge);
    let left = edges.filter(keep);
    broadcast use vstd::seq_lib::group_filter_ensures;

    crate::graph::lemma_core_is_largest_closed_set(graph, all);
    assert forall|edge: u64| left.to_set().contains(edge) <==> graph.two_core(all).contains(
        edge,
    ) by {
        if left.to_set().contains(edge) {
            let i = choose|i: int| 0 <= i < left.len() && left[i] == edge;
            assert(keep(left[i]));
        }
        if graph.two_core(all).contains(edge) {
            assert(all.contains(edge));
            assert(keep(edge));
            let i = choose|i: int| 0 <= i < edges.len() && edges[i] == edge;
            assert(left.contains(edges[i]));
        }
    }
    assert(left.to_set() =~= graph.two_core(all));
}

/// Peeling lists no more edges than there were.
pub proof fn lemma_peeling_shrinks(graph: Graph, edges: Seq<u64>)
    ensures
        core_of(graph, edges).len() <= edges.len(),
{
    edges.lemma_filter_len(|edge: u64| graph.in_core(edges.to_set(), edge));
}

/// Peeling what peeling left changes nothing.
pub proof fn lemma_peeling_is_idempotent(graph: Graph, edges: Seq<u64>)
    ensures
        core_of(graph, core_of(graph, edges)) == core_of(graph, edges),
{
    let left = core_of(graph, edges);
    lemma_peeling_leaves_core(graph, edges);
    crate::graph::lemma_core_is_largest_closed_set(graph, edges.to_set());
    lemma_closed_list_stays(graph, left);
}

/// Peeling takes nothing from a closed list of edges.
pub proof fn lemma_closed_list_stays(graph: Graph, edges: Seq<u64>)
    requires
        graph.is_closed(edges.to_set()),
    ensures
        core_of(graph, edges) == edges,
{
    let keep = |edge: u64| graph.in_core(edges.to_set(), edge);
    crate::graph::lemma_core_of_closed_set(graph, edges.to_set());
    assert forall|i: int| 0 <= i < edges.len() implies keep(#[trigger] edges[i]) by {
        assert(edges.to_set().contains(edges[i]));
        assert(graph.two_core(edges.to_set()).contains(edges[i]));
    }
    lemma_filter_keeps_all(edges, keep);
}

proof fn lemma_filter_keeps_all(edges: Seq<u64>, keep: spec_fn(u64) -> bool)
    requires
        forall|i: int| 0 <= i < edges.len() ==> keep(#[trigger] edges[i]),
    ensures
        edges.filter(keep) == edges,
    decreases edges.len(),
{
    if edges.len() == 0 {
        reveal(Seq::filter);
        assert(edges.filter(keep) =~= edges);
    } else {
        let shorter = edges.drop_last();
        assert forall|i: int| 0 <= i < shorter.len() implies keep(#[trigger] shorter[i]) by {
            assert(shorter[i] == edges[i]);
        }
        lemma_filter_keeps_all(shorter, keep);
        shorter.lemma_filter_push(edges.last(), keep);
        assert(shorter.push(edges.last()) =~= edges);
        assert(keep(edges[edges.len() - 1]));
    }
}

/// Peeling never takes an edge out of a cycle.
pub proof fn lemma_peeling_keeps_proofs(
    graph: Graph,
    edges: Seq<u64>,
    cycle_length: usize,
    nonces: Seq<u64>,
)
    requires
        verify::verdict(graph, cycle_length, nonces) is Ok,
        nonces.to_set().subset_of(edges.to_set()),
    ensures
        nonces.to_set().subset_of(core_of(graph, edges).to_set()),
{
    verify::lemma_accepted_proof_is_closed(graph, cycle_length, nonces);
    lemma_peeling_leaves_core(graph, edges);
    crate::graph::lemma_core_is_largest_closed_set(graph, edges.to_set());
}

/// Peeling what any number of rounds left gives the core of the whole graph.
/// Where the rounds have settled on both sides already, peeling takes nothing
/// more.
pub proof fn lemma_peeling_completes_trimming(graph: Graph, rounds: nat, survivors: Seq<u64>)
    requires
        cpu_lean::lists(
            survivors,
            cpu_lean::trimmed(graph, cpu_lean::all_edges(graph), 0, rounds),
        ),
    ensures
        core_of(graph, survivors).to_set() == graph.two_core(cpu_lean::all_edges(graph)),
        graph.is_closed(survivors.to_set()) ==> core_of(graph, survivors) == survivors,
{
    let left = cpu_lean::trimmed(graph, cpu_lean::all_edges(graph), 0, rounds);
    assert(survivors.to_set() =~= left) by {
        assert forall|edge: u64| survivors.to_set().contains(edge) <==> left.contains(edge) by {
            assert(survivors.contains(edge) <==> left.contains(edge));
        }
    }
    lemma_peeling_leaves_core(graph, survivors);
    cpu_lean::lemma_trimming_keeps_core(graph, cpu_lean::all_edges(graph), 0, rounds);
    if graph.is_closed(survivors.to_set()) {
        lemma_closed_list_stays(graph, survivors);
    }
}

} // verus!
