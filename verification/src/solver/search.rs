//! Depth-first search for cycles of any length.

use crate::bits;
use crate::graph::Graph;
use crate::solver::{ErrorKind, GraphParams, SolveError};
use crate::verify::{self, endpoint_index, verify_cycle, EndpointIndex, Proof};
use std::collections::HashSet;
use vstd::prelude::*;

verus! {

/// The number of branches after which a search gives up.
pub const MAX_SEARCH_BRANCHES: u64 = 100_000_000;

/// The edges that are searched, and what they are searched for.
pub struct Space {
    pub graph: Graph,
    pub cycle_length: usize,
    pub edges: Seq<u64>,
}

/// How a search, or a part of one, ends: with a proof, with nothing after a
/// number of branches, or because it tried too many branches.
#[verifier::ext_equal]
pub enum Search {
    Found(Seq<u64>),
    Nothing(nat),
    Limit,
}

impl Space {
    /// Whether two positions meet on a side.
    pub open spec fn joined(self, a: usize, b: usize, side: int) -> bool {
        self.graph.meet(self.edges[a as int], self.edges[b as int], side)
    }

    /// The edges at the positions of a path.
    pub open spec fn path_edges(self, path: Seq<usize>) -> Seq<u64> {
        Seq::new(path.len(), |k: int| self.edges[path[k] as int])
    }

    /// The proof that a full path gives: its edges in ascending order, if the
    /// last one meets the first and the proof passes the check.
    pub open spec fn accepted(self, path: Seq<usize>) -> Option<Seq<u64>> {
        let nonces = verify::sorted_values(self.path_edges(path));
        if self.joined(path.last(), path[0], (path.len() - 1) % 2) && verify::verdict(
            self.graph,
            self.cycle_length,
            nonces,
        ) is Ok {
            Some(nonces)
        } else {
            None
        }
    }

    /// The search of all continuations of a path, after `branches` branches.
    pub open spec fn extend(self, path: Seq<usize>, branches: nat) -> Search
        decreases self.edges.len() + 1 - path.len(), self.edges.len() + 1,
    {
        if path.len() == self.cycle_length {
            match self.accepted(path) {
                Some(nonces) => Search::Found(nonces),
                None => Search::Nothing(branches),
            }
        } else {
            self.try_from(path, 0, branches)
        }
    }

    /// The search of the continuations whose next position is `next` or later.
    /// Each position that meets the end of the path counts as a branch, also
    /// where it is on the path already.
    pub open spec fn try_from(self, path: Seq<usize>, next: nat, branches: nat) -> Search
        decreases self.edges.len() + 1 - path.len(), self.edges.len() - next,
    {
        if next >= self.edges.len() || path.len() > self.edges.len() {
            Search::Nothing(branches)
        } else if !self.joined(path.last(), next as usize, (path.len() - 1) % 2) {
            self.try_from(path, next + 1, branches)
        } else if branches >= MAX_SEARCH_BRANCHES {
            Search::Limit
        } else if path.contains(next as usize) {
            self.try_from(path, next + 1, branches + 1)
        } else {
            match self.extend(path.push(next as usize), branches + 1) {
                Search::Nothing(used) => self.try_from(path, next + 1, used),
                end => end,
            }
        }
    }

    /// The search of all paths that start at position `start` or later.
    pub open spec fn search_from(self, start: nat, branches: nat) -> Search
        decreases self.edges.len() - start,
    {
        if start >= self.edges.len() {
            Search::Nothing(branches)
        } else {
            match self.extend(seq![start as usize], branches) {
                Search::Nothing(used) => self.search_from(start + 1, used),
                end => end,
            }
        }
    }

    /// The search of all paths.
    pub open spec fn search(self) -> Search {
        if self.edges.len() < self.cycle_length {
            Search::Nothing(0)
        } else {
            self.search_from(0, 0)
        }
    }
}

impl GraphParams {
    /// The search of the given edges.
    pub open spec fn space(self, edges: Seq<u64>) -> Space {
        Space { graph: self.graph(), cycle_length: self.cycle_length, edges }
    }
}

/// Whether a result is what a search ends with.
pub open spec fn reports(
    result: Result<Option<Proof>, SolveError>,
    search: Search,
    limit: Seq<char>,
) -> bool {
    match search {
        Search::Found(nonces) => result matches Ok(Some(proof)) && proof.nonces@ == nonces,
        Search::Nothing(_) => result matches Ok(None),
        Search::Limit => result matches Err(error) && error@ == (ErrorKind::SearchLimit, limit),
    }
}

struct Tables<'a> {
    request: GraphParams,
    edges: &'a [u64],
    nodes: &'a Vec<[u32; 2]>,
    index: &'a EndpointIndex,
}

impl<'a> Tables<'a> {
    spec fn space(self) -> Space {
        self.request.space(self.edges@)
    }

    spec fn valid(self) -> bool {
        let graph = self.request.graph();
        &&& self.nodes.len() == self.edges.len()
        &&& forall|i: int, side: int|
            0 <= i < self.edges.len() && 0 <= side < 2 ==> #[trigger] self.nodes@[i]@[side]
                == graph.node(self.edges[i], side)
        &&& self.index.holds(
            verify::side_nodes(graph, self.edges@, 0),
            verify::side_nodes(graph, self.edges@, 1),
        )
    }
}

/// Whether a path holds different positions of the searched edges.
spec fn is_path(path: Seq<usize>, n: nat) -> bool {
    &&& path.len() > 0
    &&& path.no_duplicates()
    &&& forall|k: int| 0 <= k < path.len() ==> #[trigger] path[k] < n
}

proof fn lemma_path_is_short(path: Seq<usize>, n: nat)
    requires
        is_path(path, n),
    ensures
        path.len() <= n,
{
    let wide = path.map_values(|p: usize| p as int);
    let all = vstd::set_lib::set_int_range(0, n as int);
    vstd::set_lib::lemma_int_range(0, n as int);
    assert(wide.no_duplicates());
    wide.unique_seq_to_set();
    assert(wide.to_set().subset_of(all));
    vstd::set_lib::lemma_len_subset(wide.to_set(), all);
}

proof fn lemma_skip(space: Space, path: Seq<usize>, from: nat, to: nat, branches: nat)
    requires
        from <= to <= space.edges.len(),
        path.len() <= space.edges.len(),
        forall|i: nat|
            from <= i < to ==> !space.joined(
                path.last(),
                #[trigger] (i as usize),
                (path.len() - 1) % 2,
            ),
    ensures
        space.try_from(path, from, branches) == space.try_from(path, to, branches),
    decreases to - from,
{
    if from < to {
        assert(!space.joined(path.last(), from as usize, (path.len() - 1) % 2));
        lemma_skip(space, path, from + 1, to, branches);
    }
}

fn path_nonces(edges: &[u64], path: &Vec<usize>) -> (nonces: Vec<u64>)
    requires
        forall|k: int| 0 <= k < path.len() ==> #[trigger] path@[k] < edges.len(),
    ensures
        nonces@ == Seq::new(path@.len(), |k: int| edges@[path@[k] as int]),
{
    let mut nonces: Vec<u64> = Vec::with_capacity(path.len());
    let mut k: usize = 0;
    while k < path.len()
        invariant
            k <= path.len(),
            nonces.len() == k,
            forall|j: int| 0 <= j < path.len() ==> #[trigger] path@[j] < edges.len(),
            forall|j: int| 0 <= j < k ==> #[trigger] nonces@[j] == edges@[path@[j] as int],
        decreases path.len() - k,
    {
        nonces.push(edges[path[k]]);
        k = k + 1;
    }
    assert(nonces@ =~= Seq::new(path@.len(), |k: int| edges@[path@[k] as int]));
    nonces
}

/// The check at the end of a full path.
fn finish(tables: &Tables<'_>, path: &Vec<usize>) -> (found: Option<Proof>)
    requires
        tables.valid(),
        is_path(path@, tables.edges.len() as nat),
    ensures
        match tables.space().accepted(path@) {
            Some(nonces) => found matches Some(proof) && proof.nonces@ == nonces,
            None => found is None,
        },
{
    let ghost space = tables.space();
    let start: usize = path[0];
    let current: usize = path[path.len() - 1];
    let side: usize = (path.len() - 1) % 2;
    assert(path@[0] < tables.edges.len());
    assert(path@[path.len() - 1] < tables.edges.len());
    assert(tables.nodes@[current as int]@[side as int] == space.graph.node(
        space.edges[current as int],
        side as int,
    ));
    assert(tables.nodes@[start as int]@[side as int] == space.graph.node(
        space.edges[start as int],
        side as int,
    ));
    if tables.nodes[start][side] != bits::flip(tables.nodes[current][side]) {
        return None;
    }
    let proof = Proof::sorted(path_nonces(tables.edges, path));
    assert(space.path_edges(path@) =~= Seq::new(
        path@.len(),
        |k: int| tables.edges@[path@[k] as int],
    ));
    match verify_cycle(
        tables.request.keys,
        tables.request.edge_bits,
        tables.request.cycle_length,
        &proof,
    ) {
        Ok(()) => Some(proof),
        Err(_) => None,
    }
}

/// Searches all continuations of the path.  Without a proof the path, the set
/// of its positions and what they stand for are as before.
fn dfs(
    tables: &Tables<'_>,
    used: &mut HashSet<usize>,
    path: &mut Vec<usize>,
    branches: &mut u64,
) -> (result: Result<Option<Proof>, ()>)
    requires
        tables.valid(),
        is_path(old(path)@, tables.edges.len() as nat),
        old(used)@ == old(path)@.to_set(),
        *old(branches) <= MAX_SEARCH_BRANCHES,
    ensures
        match tables.space().extend(old(path)@, *old(branches) as nat) {
            Search::Found(nonces) => result matches Ok(Some(proof)) && proof.nonces@ == nonces,
            Search::Nothing(count) => {
                &&& result matches Ok(None)
                &&& *final(branches) == count
                &&& *final(branches) <= MAX_SEARCH_BRANCHES
                &&& final(path)@ == old(path)@
                &&& final(used)@ == old(used)@
            },
            Search::Limit => result matches Err(()),
        },
    decreases tables.edges.len() + 1 - old(path).len(),
{
    broadcast use vstd::std_specs::hash::group_hash_axioms;

    let ghost space = tables.space();
    let ghost begun = path@;
    let ghost n = tables.edges.len() as nat;
    proof {
        lemma_path_is_short(begun, n);
    }
    if path.len() == tables.request.cycle_length {
        return Ok(finish(tables, path));
    }
    let current: usize = path[path.len() - 1];
    let side: usize = (path.len() - 1) % 2;
    assert(begun[begun.len() - 1] < n);
    assert(tables.nodes@[current as int]@[side as int] == space.graph.node(
        space.edges[current as int],
        side as int,
    ));
    let wanted = bits::flip(tables.nodes[current][side]);
    let ghost even = verify::side_nodes(space.graph, space.edges, 0);
    let ghost odd = verify::side_nodes(space.graph, space.edges, 1);
    let ghost nodes = if side == 0 {
        even
    } else {
        odd
    };
    assert forall|i: nat| i < n implies (space.joined(current, #[trigger] (i as usize), side as int)
        <==> nodes[i as int] == wanted) by {}
    let candidates = match tables.index.positions(side, wanted, Ghost(even), Ghost(odd)) {
        Some(candidates) => candidates,
        None => {
            proof {
                assert forall|i: nat| 0 <= i < n implies !space.joined(
                    begun.last(),
                    #[trigger] (i as usize),
                    (begun.len() - 1) % 2,
                ) by {
                    assert(nodes[i as int] != wanted);
                }
                lemma_skip(space, begun, 0, n, *branches as nat);
            }
            return Ok(None);
        },
    };
    let ghost goal = space.extend(begun, *branches as nat);
    let mut at: usize = 0;
    let ghost mut from: nat = 0;
    while at < candidates.len()
        invariant
            tables.valid(),
            space == tables.space(),
            n == tables.edges.len() == nodes.len(),
            is_path(begun, n),
            begun.len() <= n,
            path@ == begun,
            begun == old(path)@,
            begun.len() != tables.request.cycle_length,
            used@ == begun.to_set(),
            old(used)@ == begun.to_set(),
            current == begun.last(),
            side == (begun.len() - 1) % 2,
            *branches <= MAX_SEARCH_BRANCHES,
            at <= candidates.len(),
            verify::lists_positions(candidates@, nodes, wanted),
            from == if at == 0 {
                0
            } else {
                candidates@[at - 1] as nat + 1
            },
            from <= n,
            forall|i: nat|
                i < n ==> (space.joined(current, #[trigger] (i as usize), side as int)
                    <==> nodes[i as int] == wanted),
            goal == space.try_from(begun, from, *branches as nat),
            goal == space.extend(old(path)@, *old(branches) as nat),
        decreases candidates.len() - at,
    {
        let next: usize = candidates[at];
        proof {
            assert(candidates@[at as int] < nodes.len());
            lemma_gap(candidates@, nodes, wanted, at as int);
            assert forall|i: nat| from <= i < next implies !space.joined(
                begun.last(),
                #[trigger] (i as usize),
                (begun.len() - 1) % 2,
            ) by {
                assert(nodes[i as int] != wanted);
            }
            lemma_skip(space, begun, from, next as nat, *branches as nat);
            let whole = next as nat;
            assert(whole as usize == next);
            assert(space.joined(current, whole as usize, side as int));
        }
        if *branches >= MAX_SEARCH_BRANCHES {
            return Err(());
        }
        *branches = *branches + 1;
        let ghost counted = *branches as nat;
        if used.insert(next) {
            assert(!begun.contains(next)) by {
                if begun.contains(next) {
                    assert(begun.to_set().contains(next));
                }
            }
            path.push(next);
            assert(path@.to_set() =~= begun.to_set().insert(next)) by {
                assert forall|p: usize| begun.to_set().insert(next).contains(p) implies
                    path@.to_set().contains(p) by {
                    if p == next {
                        assert(path@[begun.len() as int] == p);
                    } else {
                        let k = choose|k: int| 0 <= k < begun.len() && begun[k] == p;
                        assert(path@[k] == p);
                    }
                }
            }
            assert(is_path(path@, n));
            proof {
                lemma_path_is_short(path@, n);
            }
            match dfs(tables, used, path, branches) {
                Ok(Some(proof)) => {
                    return Ok(Some(proof));
                },
                Ok(None) => {},
                Err(()) => {
                    return Err(());
                },
            }
            path.pop();
            used.remove(&next);
            assert(path@ =~= begun);
            assert(used@ =~= begun.to_set()) by {
                assert(!begun.to_set().contains(next));
            }
        } else {
            assert(begun.contains(next)) by {
                assert(begun.to_set().contains(next));
            }
            assert(used@ =~= begun.to_set());
        }
        proof {
            from = next as nat + 1;
        }
        at = at + 1;
    }
    proof {
        lemma_gap(candidates@, nodes, wanted, candidates@.len() as int);
        assert forall|i: nat| from <= i < n implies !space.joined(
            begun.last(),
            #[trigger] (i as usize),
            (begun.len() - 1) % 2,
        ) by {
            assert(nodes[i as int] != wanted);
        }
        lemma_skip(space, begun, from, n, *branches as nat);
    }
    Ok(None)
}

/// Between two listed positions of a node, and after the last, it does not occur.
proof fn lemma_gap(positions: Seq<usize>, nodes: Seq<u32>, node: u32, at: int)
    requires
        verify::lists_positions(positions, nodes, node),
        0 <= at <= positions.len(),
        nodes.len() <= usize::MAX,
    ensures
        forall|i: int|
            (if at == 0 {
                0
            } else {
                positions[at - 1] + 1
            }) <= i < (if at == positions.len() {
                nodes.len() as int
            } else {
                positions[at] as int
            }) ==> #[trigger] nodes[i] != node,
        at > 0 ==> positions[at - 1] < nodes.len(),
        at > 0 && at < positions.len() ==> positions[at - 1] < positions[at],
{
    if at > 0 {
        assert(positions[at - 1] < nodes.len());
    }
    if at < positions.len() {
        assert(positions[at] < nodes.len());
    }
    assert forall|i: int|
        (if at == 0 {
            0
        } else {
            positions[at - 1] + 1
        }) <= i < (if at == positions.len() {
            nodes.len() as int
        } else {
            positions[at] as int
        }) implies #[trigger] nodes[i] != node by {
        if nodes[i] == node {
            assert(positions.contains(i as usize));
            let k = choose|k: int| 0 <= k < positions.len() && positions[k] == i as usize;
            if k < at {
                assert(positions[k] <= positions[at - 1]);
            } else {
                assert(positions[at] <= positions[k]);
            }
        }
    }
}

/// Searches the given edges for a cycle: the first accepted one in the order of
/// the positions, unless more than `MAX_SEARCH_BRANCHES` branches come before.
pub fn find_cycle(request: GraphParams, survivors: &[u64]) -> (result: Result<
    Option<Proof>,
    SolveError,
>)
    requires
        0 < survivors.len() && request.cycle_length <= survivors.len() ==> request.edge_bits < 64,
    ensures
        reports(
            result,
            request.space(survivors@).search(),
            "more than 100000000 branches in generic cycle search"@,
        ),
{
    broadcast use vstd::std_specs::hash::group_hash_axioms;

    if survivors.len() < request.cycle_length {
        return Ok(None);
    }
    let (nodes, index) = endpoint_index(request.keys, request.edge_bits, survivors);
    let tables = Tables { request, edges: survivors, nodes: &nodes, index: &index };
    let ghost space = request.space(survivors@);
    let mut used: HashSet<usize> = HashSet::with_capacity(request.cycle_length);
    let mut path: Vec<usize> = Vec::with_capacity(request.cycle_length);
    let mut branches: u64 = 0;
    let mut start: usize = 0;
    while start < survivors.len()
        invariant
            tables.valid(),
            tables.edges@ == survivors@,
            space == tables.space(),
            space == request.space(survivors@),
            survivors.len() >= request.cycle_length,
            start <= survivors.len(),
            branches <= MAX_SEARCH_BRANCHES,
            space.search() == space.search_from(start as nat, branches as nat),
        decreases survivors.len() - start,
    {
        used.clear();
        path.clear();
        used.insert(start);
        path.push(start);
        assert(path@ =~= seq![start]);
        assert(used@ =~= path@.to_set()) by {
            assert(path@[0] == start);
        }
        assert((start as nat) as usize == start);
        match dfs(&tables, &mut used, &mut path, &mut branches) {
            Ok(Some(proof)) => {
                return Ok(Some(proof));
            },
            Ok(None) => {},
            Err(()) => {
                return Err(
                    SolveError::SearchLimit(
                        String::from_str("more than 100000000 branches in generic cycle search"),
                    ),
                );
            },
        }
        start = start + 1;
    }
    Ok(None)
}

/// Whether a proof passes the check and is made of the searched edges.
pub open spec fn is_answer(space: Space, nonces: Seq<u64>) -> bool {
    &&& verify::verdict(space.graph, space.cycle_length, nonces) is Ok
    &&& forall|k: int| 0 <= k < nonces.len() ==> space.edges.contains(#[trigger] nonces[k])
}

proof fn lemma_accepted_is_answer(space: Space, path: Seq<usize>)
    requires
        is_path(path, space.edges.len()),
        space.accepted(path) is Some,
    ensures
        is_answer(space, space.accepted(path)->0),
{
    let edges = space.path_edges(path);
    let nonces = verify::sorted_values(edges);
    let leq = |a: u64, b: u64| a <= b;
    edges.lemma_sort_by_ensures(leq);
    assert forall|k: int| 0 <= k < nonces.len() implies space.edges.contains(
        #[trigger] nonces[k],
    ) by {
        broadcast use vstd::seq_lib::group_to_multiset_ensures;

        assert(nonces.contains(nonces[k]));
        assert(nonces.to_multiset().count(nonces[k]) > 0);
        assert(edges.contains(nonces[k]));
        let j = choose|j: int| 0 <= j < edges.len() && edges[j] == nonces[k];
        assert(path[j] < space.edges.len());
    }
}

proof fn lemma_extend_is_sound(space: Space, path: Seq<usize>, branches: nat)
    requires
        is_path(path, space.edges.len()),
        space.edges.len() <= usize::MAX,
    ensures
        space.extend(path, branches) matches Search::Found(nonces) ==> is_answer(space, nonces),
    decreases space.edges.len() + 1 - path.len(), space.edges.len() + 1,
{
    lemma_path_is_short(path, space.edges.len());
    if path.len() == space.cycle_length {
        if space.accepted(path) is Some {
            lemma_accepted_is_answer(space, path);
        }
    } else {
        lemma_try_is_sound(space, path, 0, branches);
    }
}

proof fn lemma_try_is_sound(space: Space, path: Seq<usize>, next: nat, branches: nat)
    requires
        is_path(path, space.edges.len()),
        path.len() <= space.edges.len() <= usize::MAX,
    ensures
        space.try_from(path, next, branches) matches Search::Found(nonces) ==> is_answer(
            space,
            nonces,
        ),
    decreases space.edges.len() + 1 - path.len(), space.edges.len() - next,
{
    if next < space.edges.len() {
        if !space.joined(path.last(), next as usize, (path.len() - 1) % 2) {
            lemma_try_is_sound(space, path, next + 1, branches);
        } else if branches < MAX_SEARCH_BRANCHES {
            if path.contains(next as usize) {
                lemma_try_is_sound(space, path, next + 1, branches + 1);
            } else {
                let longer = path.push(next as usize);
                assert(is_path(longer, space.edges.len()));
                lemma_extend_is_sound(space, longer, branches + 1);
                if let Search::Nothing(used) = space.extend(longer, branches + 1) {
                    lemma_try_is_sound(space, path, next + 1, used);
                }
            }
        }
    }
}

proof fn lemma_search_from_is_sound(space: Space, start: nat, branches: nat)
    requires
        space.edges.len() <= usize::MAX,
    ensures
        space.search_from(start, branches) matches Search::Found(nonces) ==> is_answer(
            space,
            nonces,
        ),
    decreases space.edges.len() - start,
{
    if start < space.edges.len() {
        let path = seq![start as usize];
        assert(is_path(path, space.edges.len()));
        lemma_extend_is_sound(space, path, branches);
        if let Search::Nothing(used) = space.extend(path, branches) {
            lemma_search_from_is_sound(space, start + 1, used);
        }
    }
}

/// What a search finds passes the check and is made of the searched edges.
pub proof fn lemma_search_is_sound(space: Space)
    requires
        space.edges.len() <= usize::MAX,
    ensures
        space.search() matches Search::Found(nonces) ==> is_answer(space, nonces),
{
    lemma_search_from_is_sound(space, 0, 0);
}

/// Whether each position of a path meets the next one, on alternating sides.
spec fn is_joined(space: Space, path: Seq<usize>) -> bool {
    forall|k: int|
        0 <= k < path.len() - 1 ==> space.joined(#[trigger] path[k], path[k + 1], k % 2)
}

proof fn lemma_extend_is_complete(
    space: Space,
    path: Seq<usize>,
    branches: nat,
    full: Seq<usize>,
)
    requires
        is_path(full, space.edges.len()),
        is_joined(space, full),
        full.len() == space.cycle_length,
        0 < path.len() <= full.len(),
        path == full.take(path.len() as int),
        space.edges.len() <= usize::MAX,
        space.extend(path, branches) is Nothing,
    ensures
        space.accepted(full) is None,
    decreases space.edges.len() + 1 - path.len(), space.edges.len() + 1,
{
    lemma_path_is_short(full, space.edges.len());
    if path.len() == space.cycle_length {
        assert(path =~= full);
    } else {
        assert(full[path.len() as int] < space.edges.len());
        lemma_try_is_complete(space, path, 0, branches, full);
    }
}

proof fn lemma_try_is_complete(
    space: Space,
    path: Seq<usize>,
    next: nat,
    branches: nat,
    full: Seq<usize>,
)
    requires
        is_path(full, space.edges.len()),
        is_joined(space, full),
        full.len() == space.cycle_length,
        0 < path.len() < full.len(),
        path == full.take(path.len() as int),
        full[path.len() as int] >= next,
        path.len() <= space.edges.len() <= usize::MAX,
        space.try_from(path, next, branches) is Nothing,
    ensures
        space.accepted(full) is None,
    decreases space.edges.len() + 1 - path.len(), space.edges.len() - next,
{
    let end = path.len() as int;
    let taken = full[end];
    assert(taken < space.edges.len());
    assert(space.joined(full[end - 1], full[end], (end - 1) % 2));
    assert(path.last() == full[end - 1]);
    if !space.joined(path.last(), next as usize, (path.len() - 1) % 2) {
        lemma_try_is_complete(space, path, next + 1, branches, full);
    } else if path.contains(next as usize) {
        if taken == next {
            let k = choose|k: int| 0 <= k < path.len() && path[k] == next as usize;
            assert(full[k] == full[end]);
        }
        lemma_try_is_complete(space, path, next + 1, branches + 1, full);
    } else {
        let longer = path.push(next as usize);
        if taken == next {
            assert(longer =~= full.take(end + 1));
            lemma_extend_is_complete(space, longer, branches + 1, full);
        } else {
            let used = space.extend(longer, branches + 1)->Nothing_0;
            lemma_try_is_complete(space, path, next + 1, used, full);
        }
    }
}

proof fn lemma_search_from_is_complete(
    space: Space,
    start: nat,
    branches: nat,
    full: Seq<usize>,
)
    requires
        is_path(full, space.edges.len()),
        is_joined(space, full),
        full.len() == space.cycle_length,
        full[0] >= start,
        space.edges.len() <= usize::MAX,
        space.search_from(start, branches) is Nothing,
    ensures
        space.accepted(full) is None,
    decreases space.edges.len() - start,
{
    assert(full[0] < space.edges.len());
    let path = seq![start as usize];
    if full[0] == start {
        assert(path =~= full.take(1));
        lemma_extend_is_complete(space, path, branches, full);
    } else {
        let used = space.extend(path, branches)->Nothing_0;
        lemma_search_from_is_complete(space, start + 1, used, full);
    }
}

/// Two sequences without repeats that hold the same numbers sort alike.
pub proof fn lemma_same_set_sorts_alike(a: Seq<u64>, b: Seq<u64>)
    requires
        a.no_duplicates(),
        b.no_duplicates(),
        a.to_set() =~= b.to_set(),
    ensures
        a.to_multiset() == b.to_multiset(),
{
    broadcast use vstd::seq_lib::group_to_multiset_ensures;

    a.lemma_multiset_has_no_duplicates();
    b.lemma_multiset_has_no_duplicates();
    assert forall|v: u64| a.to_multiset().count(v) == b.to_multiset().count(v) by {
        assert(a.contains(v) <==> a.to_set().contains(v));
        assert(b.contains(v) <==> b.to_set().contains(v));
        assert(a.contains(v) <==> a.to_multiset().count(v) > 0);
        assert(b.contains(v) <==> b.to_multiset().count(v) > 0);
        if a.contains(v) {
            assert(a.to_multiset().contains(v));
            assert(b.to_multiset().contains(v));
        }
    }
    assert(a.to_multiset() =~= b.to_multiset());
}

/// A search that ends with nothing shows that there is nothing: no proof of the
/// searched length made of the searched edges passes the check.
pub proof fn lemma_search_is_complete(space: Space, nonces: Seq<u64>)
    requires
        space.edges.len() <= usize::MAX,
        space.cycle_length > 0,
        space.search() is Nothing,
    ensures
        !is_answer(space, nonces),
{
    if is_answer(space, nonces) {
        let n = nonces.len();
        let graph = space.graph;
        let order = verify::walk_order(graph, nonces);
        verify::lemma_accepted_shape(graph, space.cycle_length, nonces);
        verify::lemma_accepted_proof_is_cycle(graph, space.cycle_length, nonces);
        crate::graph::lemma_cycle_has_no_repeats(graph, order);
        let full = Seq::new(n, |k: int| space.edges.index_of(order[k]) as usize);
        assert forall|k: int| 0 <= k < n implies #[trigger] full[k] < space.edges.len()
            && space.edges[full[k] as int] == order[k] by {
            assert(order.to_set().contains(order[k]));
            assert(nonces.to_set().contains(order[k]));
            assert(nonces.contains(order[k]));
            assert(space.edges.contains(order[k]));
        }
        assert(is_path(full, space.edges.len())) by {
            assert forall|i: int, j: int| 0 <= i < n && 0 <= j < n && i != j implies full[i]
                != full[j] by {
                assert(order[i] != order[j]);
            }
        }
        lemma_path_is_short(full, space.edges.len());
        assert forall|k: int| 0 <= k < n - 1 implies space.joined(
            #[trigger] full[k],
            full[k + 1],
            k % 2,
        ) by {
            assert(graph.node(order[k], k % 2) == graph.node(order[k], k % 2));
            assert(graph.node(order[k + 1], k % 2) == graph.node(order[k + 1], k % 2));
            assert(crate::graph::cycle_neighbour(n, k, k % 2) == k + 1);
            assert(full[k + 1] < space.edges.len());
        }
        lemma_search_from_is_complete(space, 0, 0, full);
        let edges = space.path_edges(full);
        assert(edges =~= order) by {
            assert forall|k: int| 0 <= k < n implies edges[k] == order[k] by {
                assert(full[k] < space.edges.len());
            }
        }
        lemma_same_set_sorts_alike(nonces, order);
        verify::lemma_sorted_values(order, nonces);
        let last = n - 1;
        assert(full[last] < space.edges.len());
        assert(full[0] < space.edges.len());
        assert(graph.node(order[last], last % 2) == graph.node(order[last], last % 2));
        assert(graph.node(order[0], last % 2) == graph.node(order[0], last % 2));
        assert(crate::graph::cycle_neighbour(n, last, last % 2) == 0);
        assert(space.joined(full.last(), full[0], (full.len() - 1) % 2));
    }
}

impl Space {
    /// Whether positions make a branch of a search: a path of different
    /// positions, each of which meets the next one on alternating sides, and
    /// one further position that meets its end.
    pub open spec fn is_branch(self, branch: Seq<usize>) -> bool {
        &&& 2 <= branch.len() <= self.cycle_length
        &&& branch.drop_last().no_duplicates()
        &&& forall|k: int| 0 <= k < branch.len() ==> #[trigger] branch[k] < self.edges.len()
        &&& forall|k: int|
            0 <= k < branch.len() - 1 ==> self.graph.meet(
                self.edges[#[trigger] branch[k] as int],
                self.edges[branch[k + 1] as int],
                k % 2,
            )
    }

    /// All branches that a search can try.
    pub open spec fn branches(self) -> Set<Seq<usize>> {
        Set::new(|branch: Seq<usize>| self.is_branch(branch))
    }

    /// The branches that go on from a path, with `next` or a later position.
    spec fn beyond(self, path: Seq<usize>, next: nat) -> Set<Seq<usize>> {
        Set::new(
            |branch: Seq<usize>|
                self.is_branch(branch) && branch.len() > path.len() && branch.take(
                    path.len() as int,
                ) == path && branch[path.len() as int] >= next,
        )
    }

    /// The branches that start at `start` or a later position.
    spec fn starting(self, start: nat) -> Set<Seq<usize>> {
        Set::new(|branch: Seq<usize>| self.is_branch(branch) && branch[0] >= start)
    }
}

/// The branches beyond a path are those with its next position, and the rest.
proof fn beyond_splits(space: Space, path: Seq<usize>, next: nat)
    requires
        is_path(path, space.edges.len()),
        is_joined(space, path),
        path.len() < space.cycle_length,
        next < space.edges.len() <= usize::MAX,
    ensures
        ({
            let rest = space.beyond(path, next + 1);
            let longer = path.push(next as usize);
            &&& space.beyond(path, next) == if !space.joined(
                path.last(),
                next as usize,
                (path.len() - 1) % 2,
            ) {
                rest
            } else if path.contains(next as usize) {
                rest.insert(longer)
            } else {
                rest.union(space.beyond(longer, 0).insert(longer))
            }
            &&& !rest.contains(longer)
            &&& !space.beyond(longer, 0).contains(longer)
            &&& rest.disjoint(space.beyond(longer, 0).insert(longer))
        }),
{
    let n = path.len() as int;
    let longer = path.push(next as usize);
    let rest = space.beyond(path, next + 1);
    let joined = space.joined(path.last(), next as usize, (path.len() - 1) % 2);
    let taken = path.contains(next as usize);
    assert(longer.take(n) =~= path);
    assert(longer.drop_last() =~= path);
    assert forall|branch: Seq<usize>| space.beyond(longer, 0).contains(branch) implies
        branch.take(n) == path && branch[n] == next by {
        assert(branch.take(n) =~= branch.take(n + 1).take(n));
        assert(branch.take(n + 1)[n] == branch[n]);
    }
    assert forall|branch: Seq<usize>| space.beyond(path, next).contains(branch) && branch[n]
        == next implies joined && (branch == longer || (!taken && space.beyond(longer, 0).contains(
        branch,
    ))) by {
        assert(branch.take(n)[n - 1] == branch[n - 1]);
        assert(space.graph.meet(
            space.edges[branch[n - 1] as int],
            space.edges[branch[n - 1 + 1] as int],
            (n - 1) % 2,
        ));
        assert(branch.take(n + 1) =~= longer);
        if branch.len() == n + 1 {
            assert(branch =~= longer);
        } else if taken {
            let k = choose|k: int| 0 <= k < path.len() && path[k] == next as usize;
            assert(branch.take(n)[k] == branch[k]);
            assert(branch.drop_last()[k] == branch[k]);
            assert(branch.drop_last()[n] == branch[n]);
        }
    }
    if joined {
        assert(space.is_branch(longer)) by {
            assert forall|k: int| 0 <= k < longer.len() - 1 implies space.graph.meet(
                space.edges[#[trigger] longer[k] as int],
                space.edges[longer[k + 1] as int],
                k % 2,
            ) by {
                if k < n - 1 {
                    assert(space.joined(path[k], path[k + 1], k % 2));
                }
            }
        }
    }
    let parts = if !joined {
        rest
    } else if taken {
        rest.insert(longer)
    } else {
        rest.union(space.beyond(longer, 0).insert(longer))
    };
    assert forall|branch: Seq<usize>| space.beyond(path, next).contains(branch)
        <==> parts.contains(branch) by {}
    assert(space.beyond(path, next) =~= parts);
}

proof fn beyond_is_finite(space: Space, path: Seq<usize>, next: nat)
    requires
        is_path(path, space.edges.len()),
        is_joined(space, path),
        path.len() <= space.cycle_length,
        space.edges.len() <= usize::MAX,
    ensures
        space.beyond(path, next).finite(),
    decreases space.edges.len() + 1 - path.len(), space.edges.len() - next,
{
    lemma_path_is_short(path, space.edges.len());
    if path.len() == space.cycle_length || next >= space.edges.len() {
        assert forall|branch: Seq<usize>| !space.beyond(path, next).contains(branch) by {}
        assert(space.beyond(path, next) =~= Set::empty());
    } else {
        beyond_splits(space, path, next);
        beyond_is_finite(space, path, next + 1);
        if space.joined(path.last(), next as usize, (path.len() - 1) % 2) && !path.contains(
            next as usize,
        ) {
            let longer = path.push(next as usize);
            longer_is_joined(space, path, next);
            lemma_path_is_short(longer, space.edges.len());
            beyond_is_finite(space, longer, 0);
        }
    }
}

proof fn longer_is_joined(space: Space, path: Seq<usize>, next: nat)
    requires
        is_path(path, space.edges.len()),
        is_joined(space, path),
        next < space.edges.len() <= usize::MAX,
        space.joined(path.last(), next as usize, (path.len() - 1) % 2),
        !path.contains(next as usize),
    ensures
        is_path(path.push(next as usize), space.edges.len()),
        is_joined(space, path.push(next as usize)),
{
    let longer = path.push(next as usize);
    assert forall|k: int| 0 <= k < longer.len() - 1 implies space.joined(
        #[trigger] longer[k],
        longer[k + 1],
        k % 2,
    ) by {
        if k < path.len() - 1 {
            assert(space.joined(path[k], path[k + 1], k % 2));
        }
    }
}

/// Whether the end of a part of a search agrees with the branches that it had.
spec fn counts(end: Search, before: nat, had: nat) -> bool {
    match end {
        Search::Found(_) => true,
        Search::Nothing(used) => used == before + had && used <= MAX_SEARCH_BRANCHES,
        Search::Limit => before + had > MAX_SEARCH_BRANCHES,
    }
}

proof fn extend_counts(space: Space, path: Seq<usize>, branches: nat)
    requires
        is_path(path, space.edges.len()),
        is_joined(space, path),
        path.len() <= space.cycle_length,
        space.edges.len() <= usize::MAX,
        branches <= MAX_SEARCH_BRANCHES,
    ensures
        counts(space.extend(path, branches), branches, space.beyond(path, 0).len()),
    decreases space.edges.len() + 1 - path.len(), space.edges.len() + 1,
{
    lemma_path_is_short(path, space.edges.len());
    if path.len() == space.cycle_length {
        assert forall|branch: Seq<usize>| !space.beyond(path, 0).contains(branch) by {}
        assert(space.beyond(path, 0) =~= Set::empty());
    } else {
        try_counts(space, path, 0, branches);
    }
}

proof fn try_counts(space: Space, path: Seq<usize>, next: nat, branches: nat)
    requires
        is_path(path, space.edges.len()),
        is_joined(space, path),
        path.len() < space.cycle_length,
        path.len() <= space.edges.len() <= usize::MAX,
        branches <= MAX_SEARCH_BRANCHES,
    ensures
        counts(space.try_from(path, next, branches), branches, space.beyond(path, next).len()),
    decreases space.edges.len() + 1 - path.len(), space.edges.len() - next,
{
    if next >= space.edges.len() {
        assert forall|branch: Seq<usize>| !space.beyond(path, next).contains(branch) by {}
        assert(space.beyond(path, next) =~= Set::empty());
    } else {
        let longer = path.push(next as usize);
        let rest = space.beyond(path, next + 1);
        beyond_splits(space, path, next);
        beyond_is_finite(space, path, next + 1);
        if !space.joined(path.last(), next as usize, (path.len() - 1) % 2) {
            try_counts(space, path, next + 1, branches);
        } else if path.contains(next as usize) {
            if branches < MAX_SEARCH_BRANCHES {
                try_counts(space, path, next + 1, branches + 1);
            }
        } else {
            longer_is_joined(space, path, next);
            lemma_path_is_short(longer, space.edges.len());
            beyond_is_finite(space, longer, 0);
            vstd::set_lib::lemma_set_disjoint_lens(rest, space.beyond(longer, 0).insert(longer));
            if branches < MAX_SEARCH_BRANCHES {
                extend_counts(space, longer, branches + 1);
                if let Search::Nothing(used) = space.extend(longer, branches + 1) {
                    try_counts(space, path, next + 1, used);
                }
            }
        }
    }
}

proof fn search_from_counts(space: Space, start: nat, branches: nat)
    requires
        0 < space.cycle_length,
        space.edges.len() <= usize::MAX,
        branches <= MAX_SEARCH_BRANCHES,
    ensures
        space.starting(start).finite(),
        counts(space.search_from(start, branches), branches, space.starting(start).len()),
    decreases space.edges.len() - start,
{
    if start >= space.edges.len() {
        assert forall|branch: Seq<usize>| !space.starting(start).contains(branch) by {
            if space.is_branch(branch) {
                assert(branch[0] < space.edges.len());
            }
        }
        assert(space.starting(start) =~= Set::empty());
    } else {
        let path = seq![start as usize];
        let here = space.beyond(path, 0);
        let rest = space.starting(start + 1);
        assert(is_path(path, space.edges.len()));
        beyond_is_finite(space, path, 0);
        assert forall|branch: Seq<usize>| space.starting(start).contains(branch)
            <==> here.union(rest).contains(branch) by {
            if space.is_branch(branch) {
                assert(branch.take(1)[0] == branch[0]);
                if branch[0] == start {
                    assert(branch.take(1) =~= path);
                }
            }
        }
        assert(space.starting(start) =~= here.union(rest));
        assert(here.disjoint(rest)) by {
            assert forall|branch: Seq<usize>| here.contains(branch) implies !rest.contains(
                branch,
            ) by {
                assert(branch.take(1)[0] == branch[0]);
            }
        }
        extend_counts(space, path, branches);
        match space.extend(path, branches) {
            Search::Nothing(used) => {
                search_from_counts(space, start + 1, used);
            },
            _ => {
                search_from_counts(space, start + 1, 0);
            },
        }
        vstd::set_lib::lemma_set_disjoint_lens(here, rest);
    }
}

/// A search gives up only once it has tried a hundred million branches and there
/// is another one, and one that ends with nothing has tried all that there are.
pub proof fn lemma_search_tries_every_branch(space: Space)
    requires
        0 < space.cycle_length <= space.edges.len() <= usize::MAX,
    ensures
        space.branches().finite(),
        space.search() is Limit ==> space.branches().len() > 100_000_000,
        space.search() matches Search::Nothing(tried) ==> tried == space.branches().len()
            <= 100_000_000,
{
    search_from_counts(space, 0, 0);
    assert(space.branches() =~= space.starting(0));
}

/// Where there are no more branches than a hundred million, a search decides:
/// it finds a proof where there is one, and else says that there is none.
pub proof fn lemma_search_decides(
    request: GraphParams,
    survivors: Seq<u64>,
    result: Result<Option<Proof>, SolveError>,
    limit: Seq<char>,
)
    requires
        reports(result, request.space(survivors).search(), limit),
        request.cycle_length > 0,
        survivors.len() <= usize::MAX,
        survivors.len() < request.cycle_length || request.space(survivors).branches().len()
            <= 100_000_000,
    ensures
        result is Ok,
        (exists|nonces: Seq<u64>| #[trigger] is_answer(request.space(survivors), nonces)) ==> (
        result->Ok_0 matches Some(proof) && is_answer(request.space(survivors), proof.nonces@)),
        !(exists|nonces: Seq<u64>| #[trigger] is_answer(request.space(survivors), nonces))
            ==> result->Ok_0 is None,
{
    let space = request.space(survivors);
    if survivors.len() >= request.cycle_length {
        lemma_search_tries_every_branch(space);
    }
    lemma_search_is_sound(space);
    if space.search() is Nothing {
        assert forall|nonces: Seq<u64>| !#[trigger] is_answer(space, nonces) by {
            lemma_search_is_complete(space, nonces);
        }
    }
}

} // verus!
