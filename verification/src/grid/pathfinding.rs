//! Breadth-first pathfinding, flood fill and step-limited reachability over
//! tile positions.

use std::collections::HashSet;
use vstd::prelude::*;

use crate::grid::{has_room, neighbors, TilePos};

verus! {

broadcast use vstd::std_specs::hash::group_hash_axioms;

// ---------------------------------------------------------------------------
// Predicates given as closures
// ---------------------------------------------------------------------------

/// The closure `f` answers `true` for `p`.
pub open spec fn holds<F: Fn(TilePos) -> bool>(f: F, p: TilePos) -> bool {
    call_ensures(f, (p,), true)
}

/// `f` may be called on every position and answers each position the same
/// way every time: what it returns is exactly `holds(f, p)`.
pub open spec fn is_pure_predicate<F: Fn(TilePos) -> bool>(f: F) -> bool {
    &&& forall|p: TilePos| call_requires(f, (p,))
    &&& forall|p: TilePos, r: bool| #[trigger] call_ensures(f, (p,), r) ==> r == holds(f, p)
}

/// Whatever `f` returns for a position is what `m` says of it: `m` is a
/// predicate the closure computes.
pub open spec fn answers_as<F: Fn(TilePos) -> bool>(f: F, m: spec_fn(TilePos) -> bool) -> bool {
    forall|p: TilePos, r: bool| #[trigger] call_ensures(f, (p,), r) ==> r == m(p)
}

/// The predicate a closure stands for.
pub open spec fn holds_fn<F: Fn(TilePos) -> bool>(f: F) -> spec_fn(TilePos) -> bool {
    |p: TilePos| holds(f, p)
}

/// Both predicates hold.
pub open spec fn both(a: spec_fn(TilePos) -> bool, b: spec_fn(TilePos) -> bool) -> spec_fn(
    TilePos,
) -> bool {
    |p: TilePos| a(p) && b(p)
}

/// A position a search may step on: both closures answer `true` for it.
pub open spec fn passable<FV: Fn(TilePos) -> bool, FE: Fn(TilePos) -> bool>(
    is_valid: FV,
    can_enter: FE,
) -> spec_fn(TilePos) -> bool {
    both(holds_fn(is_valid), holds_fn(can_enter))
}

// ---------------------------------------------------------------------------
// Walks and breadth-first layers
// ---------------------------------------------------------------------------

/// `path` is a non-empty sequence of passable positions, each one a
/// neighbour of the one before it.
pub open spec fn is_walk(ok: spec_fn(TilePos) -> bool, diag: bool, path: Seq<TilePos>) -> bool {
    &&& path.len() > 0
    &&& forall|i: int| 0 <= i < path.len() ==> ok(#[trigger] path[i])
    &&& forall|i: int|
        0 <= i < path.len() - 1 ==> #[trigger] neighbors(path[i], diag).contains(path[i + 1])
}

/// `path` is a walk that starts at `from` and ends at `to`.
pub open spec fn is_walk_between(
    ok: spec_fn(TilePos) -> bool,
    diag: bool,
    path: Seq<TilePos>,
    from: TilePos,
    to: TilePos,
) -> bool {
    &&& is_walk(ok, diag, path)
    &&& path[0] == from
    &&& path.last() == to
}

/// Some walk leads from `from` to `to`.
pub open spec fn connected(ok: spec_fn(TilePos) -> bool, diag: bool, from: TilePos, to: TilePos) -> bool {
    exists|path: Seq<TilePos>| #[trigger] is_walk_between(ok, diag, path, from, to)
}

/// One breadth-first step: `s` together with every passable neighbour of a
/// position in `s`.
pub open spec fn expand(ok: spec_fn(TilePos) -> bool, diag: bool, s: Set<TilePos>) -> Set<TilePos> {
    Set::new(
        |p: TilePos|
            s.contains(p) || (ok(p) && exists|q: TilePos| #[trigger]
                s.contains(q) && neighbors(q, diag).contains(p)),
    )
}

/// The positions reachable from `start` in at most `k` steps through
/// passable positions.
pub open spec fn reach_set(ok: spec_fn(TilePos) -> bool, diag: bool, start: TilePos, k: nat) -> Set<
    TilePos,
>
    decreases k,
{
    if k == 0 {
        Set::new(|p: TilePos| p == start && ok(start))
    } else {
        expand(ok, diag, reach_set(ok, diag, start, (k - 1) as nat))
    }
}

/// `p` can be reached from `start` in at most `k` steps through passable
/// positions.
pub open spec fn reached(
    ok: spec_fn(TilePos) -> bool,
    diag: bool,
    start: TilePos,
    k: nat,
    p: TilePos,
) -> bool {
    reach_set(ok, diag, start, k).contains(p)
}

/// The fewest steps from `start` to `p` is exactly `d`.
pub open spec fn exact_steps(
    ok: spec_fn(TilePos) -> bool,
    diag: bool,
    start: TilePos,
    d: nat,
    p: TilePos,
) -> bool {
    &&& reached(ok, diag, start, d, p)
    &&& d > 0 ==> !reached(ok, diag, start, (d - 1) as nat, p)
}

/// `p` can be reached from `start` in some number of steps.
pub open spec fn in_component(ok: spec_fn(TilePos) -> bool, diag: bool, start: TilePos, p: TilePos) -> bool {
    exists|k: nat| #[trigger] reached(ok, diag, start, k, p)
}

/// Every position reachable from `start`.
pub open spec fn component(ok: spec_fn(TilePos) -> bool, diag: bool, start: TilePos) -> Set<TilePos> {
    Set::new(|p: TilePos| in_component(ok, diag, start, p))
}

/// Reachable within `limit` steps, or at all when there is no limit.
pub open spec fn reached_within_limit(
    ok: spec_fn(TilePos) -> bool,
    diag: bool,
    start: TilePos,
    limit: Option<usize>,
    p: TilePos,
) -> bool {
    match limit {
        Some(m) => reached(ok, diag, start, m as nat, p),
        None => in_component(ok, diag, start, p),
    }
}

/// Every number of steps that reaches `g` is at least one more than a number
/// of steps that reaches `p`: `p` lies strictly closer to `start` than `g`.
pub open spec fn before_goal(
    ok: spec_fn(TilePos) -> bool,
    diag: bool,
    start: TilePos,
    g: TilePos,
    p: TilePos,
) -> bool {
    forall|k: nat| #[trigger]
        reached(ok, diag, start, k, g) ==> k > 0 && reached(ok, diag, start, (k - 1) as nat, p)
}

/// The positions whose neighbours a breadth-first search may look at before
/// it stops: with a step limit, those closer than the limit; with a goal that
/// can be reached, those closer than the goal; otherwise the whole region
/// reachable from `start`.
pub open spec fn expanded_by_search(
    ok: spec_fn(TilePos) -> bool,
    diag: bool,
    start: TilePos,
    limit: Option<usize>,
    goal: Option<TilePos>,
    p: TilePos,
) -> bool {
    match limit {
        Some(m) => m > 0 && reached(ok, diag, start, (m - 1) as nat, p),
        None => match goal {
            Some(g) => if in_component(ok, diag, start, g) {
                before_goal(ok, diag, start, g, p)
            } else {
                in_component(ok, diag, start, p)
            },
            None => in_component(ok, diag, start, p),
        },
    }
}

/// A search for `goal` gets past its first checks: both ends can be stepped
/// on and they differ.
pub open spec fn search_runs(ok: spec_fn(TilePos) -> bool, start: TilePos, goal: TilePos) -> bool {
    ok(start) && ok(goal) && start != goal
}

/// More steps reach at least as much.
pub proof fn lemma_reached_monotone(
    ok: spec_fn(TilePos) -> bool,
    diag: bool,
    start: TilePos,
    k1: nat,
    k2: nat,
    p: TilePos,
)
    requires
        k1 <= k2,
        reached(ok, diag, start, k1, p),
    ensures
        reached(ok, diag, start, k2, p),
    decreases k2,
{
    if k1 < k2 {
        lemma_reached_monotone(ok, diag, start, k1, (k2 - 1) as nat, p);
    }
}

/// A search without a step limit looks only at positions of the region
/// reachable from `start`.
pub proof fn lemma_expanded_in_component(
    ok: spec_fn(TilePos) -> bool,
    diag: bool,
    start: TilePos,
    goal: Option<TilePos>,
    p: TilePos,
)
    requires
        expanded_by_search(ok, diag, start, None, goal, p),
    ensures
        in_component(ok, diag, start, p),
{
    if let Some(g) = goal {
        if in_component(ok, diag, start, g) {
            let k = choose|k: nat| #[trigger] reached(ok, diag, start, k, g);
            assert(reached(ok, diag, start, (k - 1) as nat, p));
        }
    }
}

/// Everything reached is passable.
pub proof fn lemma_reached_passable(
    ok: spec_fn(TilePos) -> bool,
    diag: bool,
    start: TilePos,
    k: nat,
    p: TilePos,
)
    requires
        reached(ok, diag, start, k, p),
    ensures
        ok(p),
    decreases k,
{
    if k > 0 && reached(ok, diag, start, (k - 1) as nat, p) {
        lemma_reached_passable(ok, diag, start, (k - 1) as nat, p);
    }
}

/// The last position of a walk of `n` positions from `start` is reached in
/// `n - 1` steps.
pub proof fn lemma_walk_reached(ok: spec_fn(TilePos) -> bool, diag: bool, start: TilePos, path: Seq<TilePos>)
    requires
        is_walk(ok, diag, path),
        path[0] == start,
    ensures
        reached(ok, diag, start, (path.len() - 1) as nat, path.last()),
    decreases path.len(),
{
    if path.len() > 1 {
        let prefix = path.drop_last();
        assert(is_walk(ok, diag, prefix)) by {
            assert forall|i: int| 0 <= i < prefix.len() - 1 implies neighbors(prefix[i], diag).contains(
                prefix[i + 1],
            ) by {
                assert(prefix[i] == path[i] && prefix[i + 1] == path[i + 1]);
            }
        }
        lemma_walk_reached(ok, diag, start, prefix);
        let q = prefix.last();
        let n = (path.len() - 1) as nat;
        assert(path[path.len() - 2] == q);
        assert(neighbors(path[path.len() - 2], diag).contains(path[path.len() - 2 + 1]));
        assert(ok(path.last()));
        assert(reached(ok, diag, start, (n - 1) as nat, q));
        assert(reach_set(ok, diag, start, (n - 1) as nat).contains(q));
    }
}

/// Once a layer adds nothing, no later layer adds anything.
pub proof fn lemma_layers_stable(
    ok: spec_fn(TilePos) -> bool,
    diag: bool,
    start: TilePos,
    d: nat,
    k: nat,
    p: TilePos,
)
    requires
        forall|q: TilePos| #[trigger]
            reached(ok, diag, start, d + 1, q) ==> reached(ok, diag, start, d, q),
        reached(ok, diag, start, k, p),
    ensures
        reached(ok, diag, start, d, p),
    decreases k,
{
    if k <= d {
        lemma_reached_monotone(ok, diag, start, k, d, p);
    } else if reached(ok, diag, start, (k - 1) as nat, p) {
        lemma_layers_stable(ok, diag, start, d, (k - 1) as nat, p);
    } else {
        let prev = reach_set(ok, diag, start, (k - 1) as nat);
        let q = choose|q: TilePos| #[trigger] prev.contains(q) && neighbors(q, diag).contains(p);
        lemma_layers_stable(ok, diag, start, d, (k - 1) as nat, q);
        assert(reach_set(ok, diag, start, d).contains(q));
        assert(reached(ok, diag, start, d + 1, p));
    }
}

// ---------------------------------------------------------------------------
// Visited-set keys
// ---------------------------------------------------------------------------

/// A 64-bit key that identifies a tile position.
pub open spec fn tile_key(p: TilePos) -> u64 {
    ((p.x + 0x8000_0000) * 0x1_0000_0000 + (p.y + 0x8000_0000)) as u64
}

proof fn lemma_tile_key_injective(a: TilePos, b: TilePos)
    requires
        tile_key(a) == tile_key(b),
    ensures
        a == b,
{
    let ax = a.x + 0x8000_0000;
    let ay = a.y + 0x8000_0000;
    let bx = b.x + 0x8000_0000;
    let by = b.y + 0x8000_0000;
    assert(ax * 0x1_0000_0000 + ay == bx * 0x1_0000_0000 + by);
    if ax < bx {
        assert(ax * 0x1_0000_0000 + 0x1_0000_0000 <= bx * 0x1_0000_0000);
    } else if ax > bx {
        assert(bx * 0x1_0000_0000 + 0x1_0000_0000 <= ax * 0x1_0000_0000);
    }
}

fn key_of(p: TilePos) -> (k: u64)
    ensures
        k == tile_key(p),
{
    let hx = (p.x as i64 + 0x8000_0000) as u64;
    let hy = (p.y as i64 + 0x8000_0000) as u64;
    hx * 0x1_0000_0000 + hy
}

/// The neighbours a search steps to from `pos`.
pub fn neighbor_positions(pos: TilePos, allow_diagonals: bool) -> (res: Vec<TilePos>)
    requires
        has_room(pos),
    ensures
        res@ == neighbors(pos, allow_diagonals),
{
    let mut res: Vec<TilePos> = Vec::new();
    if allow_diagonals {
        let arr = pos.neighbors_8way();
        let mut k: usize = 0;
        while k < 8
            invariant
                k <= 8,
                arr@ == neighbors(pos, allow_diagonals),
                res@ == arr@.take(k as int),
            decreases 8 - k,
        {
            res.push(arr[k]);
            k += 1;
            assert(res@ =~= arr@.take(k as int));
        }
        assert(arr@.take(8) =~= arr@);
    } else {
        let arr = pos.neighbors_4way();
        let mut k: usize = 0;
        while k < 4
            invariant
                k <= 4,
                arr@ == neighbors(pos, allow_diagonals),
                res@ == arr@.take(k as int),
            decreases 4 - k,
        {
            res.push(arr[k]);
            k += 1;
            assert(res@ =~= arr@.take(k as int));
        }
        assert(arr@.take(4) =~= arr@);
    }
    res
}

// ---------------------------------------------------------------------------
// The breadth-first engine
// ---------------------------------------------------------------------------

/// What a breadth-first exploration found: the positions in the order they
/// were discovered, how many steps each lies from the start, and the index of
/// the position each one was first reached from.
struct Exploration {
    nodes: Vec<TilePos>,
    depth: Vec<usize>,
    parent: Vec<usize>,
    found: bool,
}

/// The discovery records form a breadth-first tree rooted at `start`: every
/// recorded depth is the exact step distance, and every position was reached
/// from a recorded neighbour one step closer.
pub closed spec fn search_tree(
    ok: spec_fn(TilePos) -> bool,
    diag: bool,
    start: TilePos,
    nodes: Seq<TilePos>,
    depth: Seq<usize>,
    parent: Seq<usize>,
) -> bool {
    &&& nodes.len() == depth.len() == parent.len()
    &&& nodes.len() > 0
    &&& nodes[0] == start
    &&& depth[0] == 0
    &&& nodes.no_duplicates()
    &&& forall|i: int|
        #![trigger nodes[i]]
        0 <= i < nodes.len() ==> exact_steps(ok, diag, start, depth[i] as nat, nodes[i])
    &&& forall|i: int|
        #![trigger parent[i]]
        1 <= i < nodes.len() ==> {
            &&& parent[i] < i
            &&& depth[i] == depth[parent[i] as int] + 1
            &&& neighbors(nodes[parent[i] as int], diag).contains(nodes[i])
        }
}

/// The closures answer as `okv` and `oke` say, and may be called where the
/// search calls them.
pub open spec fn closures_answer<FV: Fn(TilePos) -> bool, FE: Fn(TilePos) -> bool>(
    is_valid: FV,
    can_enter: FE,
    okv: spec_fn(TilePos) -> bool,
    oke: spec_fn(TilePos) -> bool,
) -> bool {
    &&& forall|p: TilePos| call_requires(is_valid, (p,))
    &&& forall|p: TilePos, r: bool| #[trigger] call_ensures(is_valid, (p,), r) ==> r == okv(p)
    &&& forall|p: TilePos| okv(p) ==> call_requires(can_enter, (p,))
    &&& forall|p: TilePos, r: bool| #[trigger] call_ensures(can_enter, (p,), r) ==> r == oke(p)
}

/// The search cannot run forever: it is limited in steps, the reachable region
/// is finite, or the goal it stops at is reachable.
pub open spec fn search_ends(
    ok: spec_fn(TilePos) -> bool,
    diag: bool,
    start: TilePos,
    limit: Option<usize>,
    goal: Option<TilePos>,
) -> bool {
    ||| limit is Some
    ||| component(ok, diag, start).finite()
    ||| (goal matches Some(g) && in_component(ok, diag, start, g))
}

proof fn lemma_nodes_within_component(
    ok: spec_fn(TilePos) -> bool,
    diag: bool,
    start: TilePos,
    nodes: Seq<TilePos>,
    depth: Seq<usize>,
    parent: Seq<usize>,
)
    requires
        search_tree(ok, diag, start, nodes, depth, parent),
        component(ok, diag, start).finite(),
    ensures
        nodes.len() <= component(ok, diag, start).len(),
{
    assert forall|p: TilePos| nodes.to_set().contains(p) implies component(ok, diag, start).contains(p) by {
        let i = nodes.index_of(p);
        assert(nodes[i] == p);
        assert(reached(ok, diag, start, depth[i] as nat, p));
    }
    nodes.unique_seq_to_set();
    vstd::set_lib::lemma_len_subset(nodes.to_set(), component(ok, diag, start));
}

proof fn lemma_push_contains(s: Seq<TilePos>, x: TilePos)
    ensures
        forall|y: TilePos| #[trigger] s.push(x).contains(y) == (s.contains(y) || y == x),
{
    assert forall|y: TilePos| #[trigger] s.push(x).contains(y) == (s.contains(y) || y == x) by {
        if s.contains(y) {
            let j = s.index_of(y);
            assert(s.push(x)[j] == y);
        }
        if y == x {
            assert(s.push(x)[s.len() as int] == y);
        }
        if s.push(x).contains(y) && y != x {
            let j = s.push(x).index_of(y);
            assert(s[j] == y);
        }
    }
}

/// Both closures answered `true` for `p`.
pub open spec fn seen_open<FV: Fn(TilePos) -> bool, FE: Fn(TilePos) -> bool>(
    is_valid: FV,
    can_enter: FE,
    p: TilePos,
) -> bool {
    call_ensures(is_valid, (p,), true) && call_ensures(can_enter, (p,), true)
}

/// One of the closures answered `false` for `p`.
pub open spec fn seen_shut<FV: Fn(TilePos) -> bool, FE: Fn(TilePos) -> bool>(
    is_valid: FV,
    can_enter: FE,
    p: TilePos,
) -> bool {
    call_ensures(is_valid, (p,), false) || call_ensures(can_enter, (p,), false)
}

/// Every neighbour of node `i` was looked at: it is a node, or a closure
/// refused it.
pub open spec fn looked_around<FV: Fn(TilePos) -> bool, FE: Fn(TilePos) -> bool>(
    is_valid: FV,
    can_enter: FE,
    diag: bool,
    nodes: Seq<TilePos>,
    i: int,
) -> bool {
    forall|q: TilePos|
        #[trigger] neighbors(nodes[i], diag).contains(q) ==> nodes.contains(q) || seen_shut(
            is_valid,
            can_enter,
            q,
        )
}

/// Node `i`, at depth `depth[i]`, had its neighbours looked at before the
/// search stopped: every node when it ran out of positions, those closer
/// than the limit when it stopped there, and those more than one step closer
/// than the goal when it found it.
pub open spec fn was_expanded(found: bool, limit: Option<usize>, depth: Seq<usize>, i: int) -> bool {
    if found {
        depth[i] + 1 < depth.last()
    } else {
        match limit {
            Some(m) => depth[i] < m,
            None => true,
        }
    }
}

proof fn lemma_looked_around_push<FV: Fn(TilePos) -> bool, FE: Fn(TilePos) -> bool>(
    is_valid: FV,
    can_enter: FE,
    diag: bool,
    nodes: Seq<TilePos>,
    x: TilePos,
)
    ensures
        forall|j: int|
            0 <= j < nodes.len() && looked_around(is_valid, can_enter, diag, nodes, j) ==> #[trigger] looked_around(
                is_valid,
                can_enter,
                diag,
                nodes.push(x),
                j,
            ),
{
    lemma_push_contains(nodes, x);
    assert forall|j: int|
        0 <= j < nodes.len() && looked_around(is_valid, can_enter, diag, nodes, j) implies #[trigger] looked_around(
        is_valid,
        can_enter,
        diag,
        nodes.push(x),
        j,
    ) by {
        assert(nodes.push(x)[j] == nodes[j]);
    }
}

#[verifier::loop_isolation(false)]
#[verifier::rlimit(60)]
fn explore<FV: Fn(TilePos) -> bool, FE: Fn(TilePos) -> bool>(
    start: TilePos,
    allow_diagonals: bool,
    is_valid: FV,
    can_enter: FE,
    limit: Option<usize>,
    goal: Option<TilePos>,
    Ghost(okv): Ghost<spec_fn(TilePos) -> bool>,
    Ghost(oke): Ghost<spec_fn(TilePos) -> bool>,
) -> (e: Exploration)
    requires
        closures_answer(is_valid, can_enter, okv, oke),
        okv(start) && oke(start),
        goal != Some(start),
        forall|p: TilePos|
            expanded_by_search(both(okv, oke), allow_diagonals, start, limit, goal, p) ==> has_room(p),
        search_ends(both(okv, oke), allow_diagonals, start, limit, goal),
        seen_open(is_valid, can_enter, start),
    ensures
        search_tree(both(okv, oke), allow_diagonals, start, e.nodes@, e.depth@, e.parent@),
        e.depth@.len() == e.nodes@.len(),
        forall|i: int| 0 <= i < e.nodes@.len() ==> seen_open(is_valid, can_enter, #[trigger] e.nodes@[i]),
        forall|i: int|
            0 <= i < e.nodes@.len() && #[trigger] was_expanded(e.found, limit, e.depth@, i) ==> looked_around(
                is_valid,
                can_enter,
                allow_diagonals,
                e.nodes@,
                i,
            ),
        e.found ==> goal == Some(e.nodes@.last()),
        !e.found ==> forall|p: TilePos|
            e.nodes@.contains(p) <==> reached_within_limit(
                both(okv, oke),
                allow_diagonals,
                start,
                limit,
                p,
            ),
        !e.found ==> (goal matches Some(g) ==> !e.nodes@.contains(g)),
{
    let ghost ok = both(okv, oke);
    let ghost diag = allow_diagonals;
    let ghost comp = component(ok, diag, start);
    let ghost fin = comp.finite();
    let ghost goal_steps: nat = match goal {
        Some(g) => choose|k: nat| #[trigger] reached(ok, diag, start, k, g),
        None => 0,
    };
    let mut nodes: Vec<TilePos> = Vec::new();
    let mut depth: Vec<usize> = Vec::new();
    let mut parent: Vec<usize> = Vec::new();
    let mut seen: HashSet<u64> = HashSet::new();
    nodes.push(start);
    depth.push(0);
    parent.push(0);
    seen.insert(key_of(start));
    proof {
        assert(reached(ok, diag, start, 0, start));
        assert forall|p: TilePos| reached(ok, diag, start, 0, p) implies nodes@.contains(p) by {
            assert(nodes@[0] == start);
        }
        assert forall|p: TilePos| #[trigger] seen@.contains(tile_key(p)) == nodes@.contains(p) by {
            if seen@.contains(tile_key(p)) {
                lemma_tile_key_injective(p, start);
                assert(nodes@[0] == start);
            }
        }
    }
    let mut ls: usize = 0;
    let mut le: usize = 1;
    let mut d: usize = 0;
    loop
        invariant
            search_tree(ok, diag, start, nodes@, depth@, parent@),
            forall|p: TilePos| #[trigger] seen@.contains(tile_key(p)) == nodes@.contains(p),
            ls < le == nodes.len(),
            forall|j: int| 0 <= j < nodes@.len() ==> seen_open(is_valid, can_enter, #[trigger] nodes@[j]),
            forall|j: int| 0 <= j < ls ==> #[trigger] looked_around(is_valid, can_enter, diag, nodes@, j),
            depth@.len() == nodes@.len(),
            d <= ls,
            forall|j: int| 0 <= j < ls ==> #[trigger] depth@[j] < d,
            forall|j: int| ls <= j < le ==> #[trigger] depth@[j] == d,
            forall|p: TilePos| reached(ok, diag, start, d as nat, p) ==> #[trigger] nodes@.contains(p),
            goal matches Some(g) ==> !nodes@.contains(g),
            limit matches Some(m) ==> d <= m,
        decreases
            match limit {
                Some(m) => (m - d) as int,
                None => if fin { comp.len() - ls } else { goal_steps - d },
            },
    {
        if let Some(m) = limit {
            if d == m {
                proof {
                    assert forall|p: TilePos| nodes@.contains(p) implies reached_within_limit(
                        ok,
                        diag,
                        start,
                        limit,
                        p,
                    ) by {
                        let j = nodes@.index_of(p);
                        assert(nodes@[j] == p);
                        lemma_reached_monotone(ok, diag, start, depth@[j] as nat, d as nat, p);
                    }
                }
                return Exploration { nodes, depth, parent, found: false };
            }
        }
        let mut i: usize = ls;
        while i < le
            invariant
                search_tree(ok, diag, start, nodes@, depth@, parent@),
                forall|p: TilePos| #[trigger] seen@.contains(tile_key(p)) == nodes@.contains(p),
                ls <= i <= le <= nodes.len(),
                forall|j: int| 0 <= j < nodes@.len() ==> seen_open(is_valid, can_enter, #[trigger] nodes@[j]),
                forall|j: int| 0 <= j < i ==> #[trigger] looked_around(is_valid, can_enter, diag, nodes@, j),
                depth@.len() == nodes@.len(),
                forall|j: int| 0 <= j < ls ==> #[trigger] depth@[j] < d,
                forall|j: int| ls <= j < le ==> #[trigger] depth@[j] == d,
                forall|j: int| le <= j < nodes.len() ==> #[trigger] depth@[j] == d + 1,
                forall|p: TilePos| reached(ok, diag, start, d as nat, p) ==> #[trigger] nodes@.contains(p),
                forall|j: int, q: TilePos|
                    ls <= j < i && #[trigger] neighbors(nodes@[j], diag).contains(q) && ok(q)
                        ==> #[trigger] nodes@.contains(q),
                goal matches Some(g) ==> !nodes@.contains(g),
            decreases le - i,
        {
            let cur = nodes[i];
            proof {
                assert(exact_steps(ok, diag, start, depth@[i as int] as nat, nodes@[i as int]));
                assert(reached(ok, diag, start, d as nat, cur));
                match limit {
                    Some(m) => {
                        lemma_reached_monotone(ok, diag, start, d as nat, (m - 1) as nat, cur);
                    },
                    None => {
                        if let Some(g) = goal {
                            if in_component(ok, diag, start, g) {
                                assert forall|k: nat| #[trigger] reached(ok, diag, start, k, g) implies k > 0
                                    && reached(ok, diag, start, (k - 1) as nat, cur) by {
                                    if k <= d {
                                        lemma_reached_monotone(ok, diag, start, k, d as nat, g);
                                    }
                                    lemma_reached_monotone(ok, diag, start, d as nat, (k - 1) as nat, cur);
                                }
                            }
                        }
                    },
                }
                assert(expanded_by_search(ok, diag, start, limit, goal, cur));
            }
            let nbrs = neighbor_positions(cur, allow_diagonals);
            let mut k: usize = 0;
            while k < nbrs.len()
                invariant
                    search_tree(ok, diag, start, nodes@, depth@, parent@),
                    forall|p: TilePos| #[trigger] seen@.contains(tile_key(p)) == nodes@.contains(p),
                    ls <= i < le <= nodes.len(),
                    forall|j: int| 0 <= j < nodes@.len() ==> seen_open(is_valid, can_enter, #[trigger] nodes@[j]),
                    forall|j: int| 0 <= j < i ==> #[trigger] looked_around(is_valid, can_enter, diag, nodes@, j),
                    forall|kk: int|
                        0 <= kk < k ==> nodes@.contains(#[trigger] nbrs@[kk]) || seen_shut(is_valid, can_enter, nbrs@[kk]),
                    depth@.len() == nodes@.len(),
                    cur == nodes@[i as int],
                    nbrs@ == neighbors(cur, diag),
                    k <= nbrs.len(),
                    forall|j: int| 0 <= j < ls ==> #[trigger] depth@[j] < d,
                    forall|j: int| ls <= j < le ==> #[trigger] depth@[j] == d,
                    forall|j: int| le <= j < nodes.len() ==> #[trigger] depth@[j] == d + 1,
                    forall|p: TilePos|
                        reached(ok, diag, start, d as nat, p) ==> #[trigger] nodes@.contains(p),
                    forall|j: int, q: TilePos|
                        ls <= j < i && #[trigger] neighbors(nodes@[j], diag).contains(q) && ok(q)
                            ==> #[trigger] nodes@.contains(q),
                    forall|kk: int| 0 <= kk < k && ok(nbrs@[kk]) ==> #[trigger] nodes@.contains(nbrs@[kk]),
                    goal matches Some(g) ==> !nodes@.contains(g),
                decreases nbrs.len() - k,
            {
                let nb = nbrs[k];
                let key = key_of(nb);
                if !seen.contains(&key) && is_valid(nb) && can_enter(nb) {
                    let ghost old_nodes = nodes@;
                    let ghost old_depth = depth@;
                    let ghost old_parent = parent@;
                    let ghost old_seen = seen@;
                    proof {
                        assert(forall|p: TilePos| #[trigger] old_seen.contains(tile_key(p)) == old_nodes.contains(p));
                        assert(forall|kk: int| 0 <= kk < k && ok(nbrs@[kk]) ==> #[trigger] old_nodes.contains(nbrs@[kk]));
                        assert(forall|j: int, q: TilePos|
                            ls <= j < i && #[trigger] neighbors(old_nodes[j], diag).contains(q) && ok(q)
                                ==> #[trigger] old_nodes.contains(q));
                        assert(forall|p: TilePos| reached(ok, diag, start, d as nat, p) ==> #[trigger] old_nodes.contains(p));
                        assert(!nodes@.contains(nb));
                        assert(ok(nb));
                        assert(neighbors(cur, diag).contains(nb)) by {
                            assert(nbrs@[k as int] == nb);
                        }
                        assert(reach_set(ok, diag, start, d as nat).contains(cur)) by {
                            assert(exact_steps(ok, diag, start, depth@[i as int] as nat, nodes@[i as int]));
                        }
                        assert(reached(ok, diag, start, (d + 1) as nat, nb));
                        assert(!reached(ok, diag, start, d as nat, nb));
                    }
                    nodes.push(nb);
                    depth.push(d + 1);
                    parent.push(i);
                    seen.insert(key);
                    proof {
                        assert(nodes@ == old_nodes.push(nb));
                        assert(seen@ == old_seen.insert(key));
                        lemma_push_contains(old_nodes, nb);
                        assert forall|p: TilePos| #[trigger] seen@.contains(tile_key(p)) == nodes@.contains(p) by {
                            if tile_key(p) == key {
                                lemma_tile_key_injective(p, nb);
                            }
                            assert(old_seen.contains(tile_key(p)) == old_nodes.contains(p));
                        }
                        assert(search_tree(ok, diag, start, nodes@, depth@, parent@)) by {
                            assert forall|a: int, b: int| 0 <= a < b < nodes@.len() implies nodes@[a] != nodes@[b] by {
                                if b == old_nodes.len() {
                                    assert(old_nodes[a] == nodes@[a]);
                                }
                            }
                            assert forall|j: int| 1 <= j < nodes@.len() implies {
                                &&& #[trigger] parent@[j] < j
                                &&& depth@[j] == depth@[parent@[j] as int] + 1
                                &&& neighbors(nodes@[parent@[j] as int], diag).contains(nodes@[j])
                            } by {
                                if j < old_nodes.len() {
                                    assert(old_parent[j] == parent@[j]);
                                }
                            }
                            assert forall|j: int| 0 <= j < nodes@.len() implies exact_steps(
                                ok,
                                diag,
                                start,
                                depth@[j] as nat,
                                #[trigger] nodes@[j],
                            ) by {
                                if j < old_nodes.len() {
                                    assert(old_nodes[j] == nodes@[j]);
                                    assert(old_depth[j] == depth@[j]);
                                }
                            }
                        }
                        assert forall|p: TilePos| reached(ok, diag, start, d as nat, p) implies #[trigger] nodes@.contains(p) by {
                            assert(old_nodes.contains(p));
                        }
                        assert forall|j: int, q: TilePos|
                            ls <= j < i && #[trigger] neighbors(nodes@[j], diag).contains(q) && ok(q)
                            implies #[trigger] nodes@.contains(q) by {
                            assert(old_nodes[j] == nodes@[j]);
                            assert(old_nodes.contains(q));
                        }
                        assert forall|kk: int| 0 <= kk <= k && ok(nbrs@[kk]) implies #[trigger] nodes@.contains(nbrs@[kk]) by {
                            if kk < k {
                                assert(old_nodes.contains(nbrs@[kk]));
                            } else {
                                assert(nbrs@[kk] == nb);
                            }
                        }
                        lemma_looked_around_push(is_valid, can_enter, diag, old_nodes, nb);
                        assert forall|j: int| 0 <= j < nodes@.len() implies seen_open(
                            is_valid,
                            can_enter,
                            #[trigger] nodes@[j],
                        ) by {
                            if j < old_nodes.len() {
                                assert(old_nodes[j] == nodes@[j]);
                            }
                        }
                        assert forall|kk: int| 0 <= kk <= k implies nodes@.contains(#[trigger] nbrs@[kk]) || seen_shut(
                            is_valid,
                            can_enter,
                            nbrs@[kk],
                        ) by {
                            if kk < k {
                                if old_nodes.contains(nbrs@[kk]) {
                                    assert(nodes@.contains(nbrs@[kk]));
                                }
                            } else {
                                assert(nbrs@[kk] == nb);
                            }
                        }
                    }
                    if let Some(g) = goal {
                        if g == nb {
                            return Exploration { nodes, depth, parent, found: true };
                        }
                    }
                    proof {
                        if let Some(g) = goal {
                            assert(nodes@ == old_nodes.push(nb));
                            if nodes@.contains(g) {
                                let j = nodes@.index_of(g);
                                assert(old_nodes[j] == g);
                            }
                        }
                    }
                } else {
                    proof {
                        if seen@.contains(key) {
                            assert(nodes@.contains(nb));
                        }
                        assert(nodes@.contains(nb) || seen_shut(is_valid, can_enter, nb));
                    }
                }
                k += 1;
            }
            proof {
                assert forall|j: int, q: TilePos|
                    ls <= j < i + 1 && #[trigger] neighbors(nodes@[j], diag).contains(q) && ok(q)
                    implies #[trigger] nodes@.contains(q) by {
                    if j == i {
                        let kk = nbrs@.index_of(q);
                        assert(nbrs@[kk] == q);
                    }
                }
                assert forall|q: TilePos| #[trigger] neighbors(nodes@[i as int], diag).contains(q) implies nodes@.contains(q)
                    || seen_shut(is_valid, can_enter, q) by {
                    let kk = nbrs@.index_of(q);
                    assert(nbrs@[kk] == q);
                }
                assert(looked_around(is_valid, can_enter, diag, nodes@, i as int));
            }
            i += 1;
        }
        proof {
            assert forall|p: TilePos| reached(ok, diag, start, (d + 1) as nat, p) implies #[trigger] nodes@.contains(p) by {
                if !reached(ok, diag, start, d as nat, p) {
                    let prev = reach_set(ok, diag, start, d as nat);
                    let q = choose|q: TilePos| #[trigger] prev.contains(q) && neighbors(q, diag).contains(p);
                    assert(nodes@.contains(q));
                    let j = nodes@.index_of(q);
                    assert(nodes@[j] == q);
                    let dj = depth@[j];
                    assert(exact_steps(ok, diag, start, dj as nat, q));
                    if dj < d {
                        assert(reach_set(ok, diag, start, dj as nat).contains(q));
                        assert(reached(ok, diag, start, (dj + 1) as nat, p));
                        lemma_reached_monotone(ok, diag, start, (dj + 1) as nat, d as nat, p);
                    }
                    assert(ls <= j < le);
                    lemma_reached_passable(ok, diag, start, (d + 1) as nat, p);
                }
            }
        }
        if nodes.len() == le {
            proof {
                assert forall|p: TilePos| #[trigger] reached(ok, diag, start, (d + 1) as nat, p) implies reached(
                    ok,
                    diag,
                    start,
                    d as nat,
                    p,
                ) by {
                    assert(nodes@.contains(p));
                    let j = nodes@.index_of(p);
                    assert(nodes@[j] == p);
                    lemma_reached_monotone(ok, diag, start, depth@[j] as nat, d as nat, p);
                }
                assert forall|p: TilePos| nodes@.contains(p) <==> reached_within_limit(
                    ok,
                    diag,
                    start,
                    limit,
                    p,
                ) by {
                    if nodes@.contains(p) {
                        let j = nodes@.index_of(p);
                        assert(nodes@[j] == p);
                        lemma_reached_monotone(ok, diag, start, depth@[j] as nat, d as nat, p);
                        if let Some(m) = limit {
                            lemma_reached_monotone(ok, diag, start, d as nat, m as nat, p);
                        } else {
                            assert(reached(ok, diag, start, d as nat, p));
                        }
                    }
                    if reached_within_limit(ok, diag, start, limit, p) {
                        if let Some(m) = limit {
                            lemma_layers_stable(ok, diag, start, d as nat, m as nat, p);
                        } else {
                            let k = choose|k: nat| #[trigger] reached(ok, diag, start, k, p);
                            lemma_layers_stable(ok, diag, start, d as nat, k, p);
                        }
                    }
                }
            }
            return Exploration { nodes, depth, parent, found: false };
        }
        proof {
            if limit is None {
                if fin {
                    lemma_nodes_within_component(ok, diag, start, nodes@, depth@, parent@);
                } else {
                    let g = goal->0;
                    if reached(ok, diag, start, d as nat, g) {
                        assert(nodes@.contains(g));
                    }
                    if goal_steps <= d {
                        lemma_reached_monotone(ok, diag, start, goal_steps, d as nat, g);
                    }
                }
            }
        }
        ls = le;
        le = nodes.len();
        d = d + 1;
    }
}

/// When `m` holds at every node of a breadth-first tree, each node is
/// reached under `m` in its recorded number of steps.
proof fn lemma_nodes_reached_under(
    ok: spec_fn(TilePos) -> bool,
    diag: bool,
    start: TilePos,
    nodes: Seq<TilePos>,
    depth: Seq<usize>,
    parent: Seq<usize>,
    m: spec_fn(TilePos) -> bool,
    i: int,
)
    requires
        search_tree(ok, diag, start, nodes, depth, parent),
        0 <= i < nodes.len(),
        forall|j: int| 0 <= j < nodes.len() ==> m(#[trigger] nodes[j]),
    ensures
        reached(m, diag, start, depth[i] as nat, nodes[i]),
    decreases i,
{
    reveal(search_tree);
    if i == 0 {
        assert(m(nodes[0]));
    } else {
        let pi = parent[i] as int;
        lemma_nodes_reached_under(ok, diag, start, nodes, depth, parent, m, pi);
        assert(reach_set(m, diag, start, depth[pi] as nat).contains(nodes[pi]));
        assert(m(nodes[i]));
        assert(reached(m, diag, start, (depth[pi] + 1) as nat, nodes[i]));
    }
}

/// When every node closer than `bound` had its neighbours looked at, so that
/// a neighbour where `m` holds is a node, whatever `m` reaches in `k <= bound`
/// steps is a node recorded at most `k` steps away.
proof fn lemma_reach_under_within(
    ok: spec_fn(TilePos) -> bool,
    diag: bool,
    start: TilePos,
    nodes: Seq<TilePos>,
    depth: Seq<usize>,
    parent: Seq<usize>,
    m: spec_fn(TilePos) -> bool,
    bound: nat,
    k: nat,
    p: TilePos,
)
    requires
        search_tree(ok, diag, start, nodes, depth, parent),
        k <= bound,
        forall|i: int, q: TilePos|
            0 <= i < nodes.len() && depth[i] < bound && #[trigger] neighbors(nodes[i], diag).contains(q) && m(q)
                ==> nodes.contains(q),
        reached(m, diag, start, k, p),
    ensures
        nodes.contains(p),
        forall|j: int| 0 <= j < nodes.len() && #[trigger] nodes[j] == p ==> depth[j] <= k,
    decreases k,
{
    reveal(search_tree);
    if k == 0 {
        assert(p == start);
        assert(nodes[0] == p);
        assert forall|j: int| 0 <= j < nodes.len() && #[trigger] nodes[j] == p implies depth[j] <= k by {
            if j != 0 {
                assert(nodes[j] == nodes[0]);
            }
        }
    } else if reached(m, diag, start, (k - 1) as nat, p) {
        lemma_reach_under_within(ok, diag, start, nodes, depth, parent, m, bound, (k - 1) as nat, p);
    } else {
        let prev = reach_set(m, diag, start, (k - 1) as nat);
        let q = choose|q: TilePos| #[trigger] prev.contains(q) && neighbors(q, diag).contains(p);
        assert(m(p));
        lemma_reach_under_within(ok, diag, start, nodes, depth, parent, m, bound, (k - 1) as nat, q);
        let iq = nodes.index_of(q);
        assert(nodes[iq] == q);
        assert(depth[iq] <= k - 1);
        assert(neighbors(nodes[iq], diag).contains(p));
        assert(nodes.contains(p));
        assert forall|j: int| 0 <= j < nodes.len() && #[trigger] nodes[j] == p implies depth[j] <= k by {
            assert(exact_steps(ok, diag, start, depth[j] as nat, nodes[j]));
            assert(exact_steps(ok, diag, start, depth[iq] as nat, nodes[iq]));
            lemma_reached_passable(ok, diag, start, depth[j] as nat, p);
            assert(reach_set(ok, diag, start, depth[iq] as nat).contains(q));
            assert(reached(ok, diag, start, (depth[iq] + 1) as nat, p));
            if depth[j] > depth[iq] + 1 {
                lemma_reached_monotone(ok, diag, start, (depth[iq] + 1) as nat, (depth[j] - 1) as nat, p);
            }
        }
    }
}

/// Predicates that the closures compute hold where both closures answered
/// `true`, and fail where one answered `false`.
proof fn lemma_seen_under<FV: Fn(TilePos) -> bool, FE: Fn(TilePos) -> bool>(
    is_valid: FV,
    can_enter: FE,
    mv: spec_fn(TilePos) -> bool,
    me: spec_fn(TilePos) -> bool,
)
    requires
        answers_as(is_valid, mv),
        answers_as(can_enter, me),
    ensures
        forall|p: TilePos| #[trigger] seen_open(is_valid, can_enter, p) ==> both(mv, me)(p),
        forall|p: TilePos| #[trigger] seen_shut(is_valid, can_enter, p) ==> !both(mv, me)(p),
{
    assert forall|p: TilePos| #[trigger] seen_open(is_valid, can_enter, p) implies both(mv, me)(p) by {
        assert(call_ensures(is_valid, (p,), true));
        assert(call_ensures(can_enter, (p,), true));
    }
    assert forall|p: TilePos| #[trigger] seen_shut(is_valid, can_enter, p) implies !both(mv, me)(p) by {
        if call_ensures(is_valid, (p,), false) {
            assert(!mv(p));
        } else {
            assert(call_ensures(can_enter, (p,), false));
            assert(!me(p));
        }
    }
}

/// The neighbours of expanded nodes where the computed predicate holds are
/// nodes.
proof fn lemma_coverage_under<FV: Fn(TilePos) -> bool, FE: Fn(TilePos) -> bool>(
    is_valid: FV,
    can_enter: FE,
    diag: bool,
    nodes: Seq<TilePos>,
    depth: Seq<usize>,
    found: bool,
    limit: Option<usize>,
    mv: spec_fn(TilePos) -> bool,
    me: spec_fn(TilePos) -> bool,
    bound: nat,
)
    requires
        answers_as(is_valid, mv),
        answers_as(can_enter, me),
        forall|i: int|
            0 <= i < nodes.len() && #[trigger] was_expanded(found, limit, depth, i) ==> looked_around(
                is_valid,
                can_enter,
                diag,
                nodes,
                i,
            ),
        forall|i: int| 0 <= i < nodes.len() && depth[i] < bound ==> #[trigger] was_expanded(found, limit, depth, i),
    ensures
        forall|i: int, q: TilePos|
            0 <= i < nodes.len() && depth[i] < bound && #[trigger] neighbors(nodes[i], diag).contains(q) && both(
                mv,
                me,
            )(q) ==> nodes.contains(q),
{
    lemma_seen_under(is_valid, can_enter, mv, me);
    assert forall|i: int, q: TilePos|
        0 <= i < nodes.len() && depth[i] < bound && #[trigger] neighbors(nodes[i], diag).contains(q) && both(
            mv,
            me,
        )(q) implies nodes.contains(q) by {
        assert(was_expanded(found, limit, depth, i));
        assert(looked_around(is_valid, can_enter, diag, nodes, i));
        if !nodes.contains(q) {
            assert(seen_shut(is_valid, can_enter, q));
        }
    }
}

/// Nothing is reached when the start itself cannot be entered.
pub proof fn lemma_blocked_start_reaches_nothing(
    ok: spec_fn(TilePos) -> bool,
    diag: bool,
    start: TilePos,
    k: nat,
    p: TilePos,
)
    requires
        !ok(start),
    ensures
        !reached(ok, diag, start, k, p),
    decreases k,
{
    if k > 0 {
        lemma_blocked_start_reaches_nothing(ok, diag, start, (k - 1) as nat, p);
        let prev = reach_set(ok, diag, start, (k - 1) as nat);
        if exists|q: TilePos| #[trigger] prev.contains(q) && neighbors(q, diag).contains(p) {
            let q = choose|q: TilePos| #[trigger] prev.contains(q) && neighbors(q, diag).contains(p);
            lemma_blocked_start_reaches_nothing(ok, diag, start, (k - 1) as nat, q);
        }
    }
}

/// Whatever is reached in `k` steps is the end of a walk from `start` of at
/// most `k + 1` positions.
proof fn lemma_reached_walk(ok: spec_fn(TilePos) -> bool, diag: bool, start: TilePos, k: nat, p: TilePos)
    requires
        reached(ok, diag, start, k, p),
    ensures
        exists|path: Seq<TilePos>| #[trigger] is_walk_between(ok, diag, path, start, p) && path.len() <= k + 1,
    decreases k,
{
    if k == 0 {
        let path = seq![start];
        assert(is_walk_between(ok, diag, path, start, p));
    } else if reached(ok, diag, start, (k - 1) as nat, p) {
        lemma_reached_walk(ok, diag, start, (k - 1) as nat, p);
    } else {
        let prev = reach_set(ok, diag, start, (k - 1) as nat);
        let q = choose|q: TilePos| #[trigger] prev.contains(q) && neighbors(q, diag).contains(p);
        lemma_reached_walk(ok, diag, start, (k - 1) as nat, q);
        let w = choose|path: Seq<TilePos>| #[trigger] is_walk_between(ok, diag, path, start, q) && path.len() <= k;
        let path = w.push(p);
        assert forall|i: int| 0 <= i < path.len() implies ok(#[trigger] path[i]) by {
            if i < w.len() {
                assert(path[i] == w[i]);
            }
        }
        assert forall|i: int| 0 <= i < path.len() - 1 implies #[trigger] neighbors(path[i], diag).contains(
            path[i + 1],
        ) by {
            if i < w.len() - 1 {
                assert(path[i] == w[i] && path[i + 1] == w[i + 1]);
            } else {
                assert(path[i] == q);
            }
        }
        assert(is_walk_between(ok, diag, path, start, p));
    }
}

/// A walk between two positions exists exactly when the second one lies in
/// the region reachable from the first.
pub proof fn lemma_connected_iff_in_component(
    ok: spec_fn(TilePos) -> bool,
    diag: bool,
    start: TilePos,
    goal: TilePos,
)
    ensures
        connected(ok, diag, start, goal) <==> in_component(ok, diag, start, goal),
{
    if connected(ok, diag, start, goal) {
        let path = choose|path: Seq<TilePos>| #[trigger] is_walk_between(ok, diag, path, start, goal);
        lemma_walk_reached(ok, diag, start, path);
    }
    if in_component(ok, diag, start, goal) {
        let k = choose|k: nat| #[trigger] reached(ok, diag, start, k, goal);
        lemma_reached_walk(ok, diag, start, k, goal);
    }
}

/// The answer of a shortest-walk search: a shortest walk from `start` to
/// `goal` through positions where `ok` holds, or `None` when there is none.
pub open spec fn shortest_walk_result(
    ok: spec_fn(TilePos) -> bool,
    diag: bool,
    start: TilePos,
    goal: TilePos,
    res: Option<Vec<TilePos>>,
) -> bool {
    match res {
        Some(path) => {
            &&& is_walk_between(ok, diag, path@, start, goal)
            &&& forall|q: Seq<TilePos>| #[trigger] is_walk_between(ok, diag, q, start, goal) ==> path@.len() <= q.len()
        },
        None => !connected(ok, diag, start, goal),
    }
}

/// `bfs_path` and `flood_fill` agree: a walk to `goal` is found exactly when
/// the region filled from `start` contains `goal`.
pub proof fn law_path_found_iff_filled(
    ok: spec_fn(TilePos) -> bool,
    diag: bool,
    start: TilePos,
    goal: TilePos,
    path: Option<Vec<TilePos>>,
    region: Seq<TilePos>,
)
    requires
        shortest_walk_result(ok, diag, start, goal, path),
        forall|p: TilePos| #[trigger] region.contains(p) <==> in_component(ok, diag, start, p),
    ensures
        path is Some <==> region.contains(goal),
{
    lemma_connected_iff_in_component(ok, diag, start, goal);
    if path is Some {
        let w = path->Some_0;
        assert(is_walk_between(ok, diag, w@, start, goal));
    }
}

/// `reachable_within` and `bfs_path` agree: the step count given for a
/// position is one less than the number of positions on the shortest walk
/// to it.
pub proof fn law_steps_match_shortest_walk(
    ok: spec_fn(TilePos) -> bool,
    diag: bool,
    start: TilePos,
    goal: TilePos,
    d: nat,
    path: Option<Vec<TilePos>>,
)
    requires
        exact_steps(ok, diag, start, d, goal),
        shortest_walk_result(ok, diag, start, goal, path),
    ensures
        path matches Some(w) && w@.len() == d + 1,
{
    lemma_reached_walk(ok, diag, start, d, goal);
    let q = choose|q: Seq<TilePos>| #[trigger] is_walk_between(ok, diag, q, start, goal) && q.len() <= d + 1;
    let w = path->Some_0;
    lemma_walk_reached(ok, diag, start, w@);
    if w@.len() < d + 1 {
        lemma_reached_monotone(ok, diag, start, (w@.len() - 1) as nat, (d - 1) as nat, goal);
    }
}

/// Breadth-first shortest walk, with the closures' answers given as `okv`
/// and `oke`.
pub(crate) fn shortest_walk<FValid, FEnter>(
    start: TilePos,
    goal: TilePos,
    allow_diagonals: bool,
    is_valid: FValid,
    can_enter: FEnter,
    Ghost(okv): Ghost<spec_fn(TilePos) -> bool>,
    Ghost(oke): Ghost<spec_fn(TilePos) -> bool>,
) -> (res: Option<Vec<TilePos>>) where FValid: Fn(TilePos) -> bool, FEnter: Fn(TilePos) -> bool
    requires
        closures_answer(is_valid, can_enter, okv, oke),
        search_runs(both(okv, oke), start, goal) ==> search_ends(
            both(okv, oke),
            allow_diagonals,
            start,
            None,
            Some(goal),
        ),
        forall|p: TilePos|
            search_runs(both(okv, oke), start, goal) && expanded_by_search(
                both(okv, oke),
                allow_diagonals,
                start,
                None,
                Some(goal),
                p,
            ) ==> has_room(p),
    ensures
        shortest_walk_result(both(okv, oke), allow_diagonals, start, goal, res),
        forall|mv: spec_fn(TilePos) -> bool, me: spec_fn(TilePos) -> bool|
            answers_as(is_valid, mv) && answers_as(can_enter, me) ==> shortest_walk_result(
                both(mv, me),
                allow_diagonals,
                start,
                goal,
                res,
            ),
{
    let ghost ok = both(okv, oke);
    let ghost diag = allow_diagonals;
    if !is_valid(start) || !is_valid(goal) || !can_enter(start) || !can_enter(goal) {
        proof {
            if connected(ok, diag, start, goal) {
                let path = choose|path: Seq<TilePos>| #[trigger] is_walk_between(ok, diag, path, start, goal);
                assert(ok(path[0]));
                assert(ok(path[path.len() - 1]));
            }
            assert(seen_shut(is_valid, can_enter, start) || seen_shut(is_valid, can_enter, goal));
            assert forall|mv: spec_fn(TilePos) -> bool, me: spec_fn(TilePos) -> bool|
                answers_as(is_valid, mv) && answers_as(can_enter, me) implies shortest_walk_result(
                both(mv, me),
                diag,
                start,
                goal,
                None::<Vec<TilePos>>,
            ) by {
                lemma_seen_under(is_valid, can_enter, mv, me);
                if connected(both(mv, me), diag, start, goal) {
                    let path = choose|path: Seq<TilePos>| #[trigger] is_walk_between(both(mv, me), diag, path, start, goal);
                    assert(both(mv, me)(path[0]));
                    assert(both(mv, me)(path[path.len() - 1]));
                }
            }
        }
        return None;
    }
    if start == goal {
        let mut path: Vec<TilePos> = Vec::new();
        path.push(start);
        proof {
            assert(is_walk(ok, diag, path@));
            assert(seen_open(is_valid, can_enter, start));
            assert forall|mv: spec_fn(TilePos) -> bool, me: spec_fn(TilePos) -> bool|
                answers_as(is_valid, mv) && answers_as(can_enter, me) implies shortest_walk_result(
                both(mv, me),
                diag,
                start,
                goal,
                Some(path),
            ) by {
                lemma_seen_under(is_valid, can_enter, mv, me);
                assert(is_walk(both(mv, me), diag, path@));
            }
        }
        return Some(path);
    }
    let e = explore(
        start,
        allow_diagonals,
        is_valid,
        can_enter,
        None,
        Some(goal),
        Ghost(okv),
        Ghost(oke),
    );
    if !e.found {
        proof {
            lemma_connected_iff_in_component(ok, diag, start, goal);
            assert forall|mv: spec_fn(TilePos) -> bool, me: spec_fn(TilePos) -> bool|
                answers_as(is_valid, mv) && answers_as(can_enter, me) implies shortest_walk_result(
                both(mv, me),
                diag,
                start,
                goal,
                None::<Vec<TilePos>>,
            ) by {
                let m = both(mv, me);
                lemma_connected_iff_in_component(m, diag, start, goal);
                if in_component(m, diag, start, goal) {
                    let k = choose|k: nat| #[trigger] reached(m, diag, start, k, goal);
                    assert forall|i: int| 0 <= i < e.nodes@.len() && e.depth@[i] < k implies #[trigger] was_expanded(
                        e.found,
                        None,
                        e.depth@,
                        i,
                    ) by {}
                    lemma_coverage_under(is_valid, can_enter, diag, e.nodes@, e.depth@, e.found, None, mv, me, k);
                    lemma_reach_under_within(ok, diag, start, e.nodes@, e.depth@, e.parent@, m, k, k, goal);
                }
            }
        }
        return None;
    }
    let n = e.nodes.len();
    let mut idx: usize = n - 1;
    let mut rev: Vec<TilePos> = Vec::new();
    rev.push(e.nodes[idx]);
    proof {
        reveal(search_tree);
    }
    while idx != 0
        invariant
            search_tree(ok, diag, start, e.nodes@, e.depth@, e.parent@),
            n == e.nodes@.len(),
            idx < n,
            rev@.len() >= 1,
            rev@[0] == goal,
            rev@.last() == e.nodes@[idx as int],
            rev@.len() + e.depth@[idx as int] == e.depth@[n - 1] + 1,
            forall|t: int| 0 <= t < rev@.len() ==> ok(#[trigger] rev@[t]),
            forall|t: int| 0 <= t < rev@.len() ==> e.nodes@.contains(#[trigger] rev@[t]),
            forall|t: int|
                0 <= t < rev@.len() - 1 ==> #[trigger] neighbors(rev@[t + 1], diag).contains(rev@[t]),
        decreases idx,
    {
        proof {
            reveal(search_tree);
        }
        let ghost old_rev = rev@;
        idx = e.parent[idx];
        rev.push(e.nodes[idx]);
        proof {
            assert forall|t: int| 0 <= t < rev@.len() - 1 implies #[trigger] neighbors(
                rev@[t + 1],
                diag,
            ).contains(rev@[t]) by {
                if t < old_rev.len() - 1 {
                    assert(rev@[t] == old_rev[t] && rev@[t + 1] == old_rev[t + 1]);
                }
            }
            assert(exact_steps(ok, diag, start, e.depth@[idx as int] as nat, e.nodes@[idx as int]));
            lemma_reached_passable(ok, diag, start, e.depth@[idx as int] as nat, e.nodes@[idx as int]);
            assert forall|t: int| 0 <= t < rev@.len() implies e.nodes@.contains(#[trigger] rev@[t]) by {
                if t < old_rev.len() {
                    assert(rev@[t] == old_rev[t]);
                } else {
                    assert(rev@[t] == e.nodes@[idx as int]);
                }
            }
        }
    }
    let len = rev.len();
    let mut path: Vec<TilePos> = Vec::new();
    let mut t: usize = len;
    while t > 0
        invariant
            t <= len == rev@.len(),
            path@.len() == len - t,
            forall|u: int| 0 <= u < path@.len() ==> #[trigger] path@[u] == rev@[len - 1 - u],
        decreases t,
    {
        t -= 1;
        path.push(rev[t]);
    }
    proof {
        reveal(search_tree);
        assert(rev@.last() == start);
        assert forall|u: int| 0 <= u < path@.len() - 1 implies #[trigger] neighbors(path@[u], diag).contains(
            path@[u + 1],
        ) by {
            assert(path@[u] == rev@[len - 1 - u]);
            assert(path@[u + 1] == rev@[(len - 2 - u) as int]);
            assert(neighbors(rev@[(len - 2 - u) + 1], diag).contains(rev@[len - 2 - u]));
        }
        assert forall|u: int| 0 <= u < path@.len() implies ok(#[trigger] path@[u]) by {
            assert(ok(rev@[len - 1 - u]));
        }
        assert(path@[0] == start);
        assert(path@.last() == goal);
        let gd = e.depth@[n - 1];
        assert(exact_steps(ok, diag, start, gd as nat, e.nodes@[n - 1]));
        assert forall|q: Seq<TilePos>| #[trigger] is_walk_between(ok, diag, q, start, goal) implies path@.len()
            <= q.len() by {
            lemma_walk_reached(ok, diag, start, q);
            if q.len() < path@.len() {
                lemma_reached_monotone(ok, diag, start, (q.len() - 1) as nat, (gd - 1) as nat, goal);
            }
        }
    }
    proof {
        let gd = e.depth@[n - 1];
        assert(path@.len() == gd + 1);
        assert forall|mv: spec_fn(TilePos) -> bool, me: spec_fn(TilePos) -> bool|
            answers_as(is_valid, mv) && answers_as(can_enter, me) implies shortest_walk_result(
            both(mv, me),
            diag,
            start,
            goal,
            Some(path),
        ) by {
            let m = both(mv, me);
            lemma_seen_under(is_valid, can_enter, mv, me);
            assert forall|u: int| 0 <= u < path@.len() implies m(#[trigger] path@[u]) by {
                assert(path@[u] == rev@[len - 1 - u]);
                assert(e.nodes@.contains(rev@[len - 1 - u]));
                let j = e.nodes@.index_of(rev@[len - 1 - u]);
                assert(seen_open(is_valid, can_enter, e.nodes@[j]));
            }
            assert(is_walk_between(m, diag, path@, start, goal));
            assert forall|q: Seq<TilePos>| #[trigger] is_walk_between(m, diag, q, start, goal) implies path@.len()
                <= q.len() by {
                lemma_walk_reached(m, diag, start, q);
                if q.len() < path@.len() {
                    let k = (q.len() - 1) as nat;
                    let bound = (gd - 1) as nat;
                    assert forall|i: int| 0 <= i < e.nodes@.len() && e.depth@[i] < bound implies #[trigger] was_expanded(
                        e.found,
                        None,
                        e.depth@,
                        i,
                    ) by {}
                    lemma_coverage_under(is_valid, can_enter, diag, e.nodes@, e.depth@, e.found, None, mv, me, bound);
                    lemma_reach_under_within(ok, diag, start, e.nodes@, e.depth@, e.parent@, m, bound, k, goal);
                    assert(e.nodes@[n - 1] == goal);
                }
            }
        }
    }
    Some(path)
}

/// `mv` and `me` are predicates that `is_valid` and `can_enter` compute, and
/// a search for `goal` through positions where both hold ends and stays
/// clear of the edge of the `i32` range (when both ends can be stepped on
/// and differ).
pub open spec fn path_search_fits<FV: Fn(TilePos) -> bool, FE: Fn(TilePos) -> bool>(
    is_valid: FV,
    can_enter: FE,
    mv: spec_fn(TilePos) -> bool,
    me: spec_fn(TilePos) -> bool,
    diag: bool,
    start: TilePos,
    goal: TilePos,
) -> bool {
    &&& answers_as(is_valid, mv)
    &&& answers_as(can_enter, me)
    &&& search_runs(both(mv, me), start, goal) ==> search_ends(both(mv, me), diag, start, None, Some(goal))
    &&& forall|p: TilePos|
        search_runs(both(mv, me), start, goal) && expanded_by_search(both(mv, me), diag, start, None, Some(goal), p)
            ==> has_room(p)
}

/// Find a shortest walk from `start` to `goal` by breadth-first search.
///
/// A position can be stepped on when both `is_valid` and `can_enter` accept
/// it; neighbours are the four orthogonal positions, or all eight when
/// `allow_diagonals` is set. Returns `None` when no walk exists.
pub fn bfs_path<FValid, FEnter>(
    start: TilePos,
    goal: TilePos,
    allow_diagonals: bool,
    is_valid: FValid,
    can_enter: FEnter,
) -> (res: Option<Vec<TilePos>>) where FValid: Fn(TilePos) -> bool, FEnter: Fn(TilePos) -> bool
    requires
        is_pure_predicate(is_valid),
        is_pure_predicate(can_enter),
        exists|mv: spec_fn(TilePos) -> bool, me: spec_fn(TilePos) -> bool|
            #[trigger] path_search_fits(is_valid, can_enter, mv, me, allow_diagonals, start, goal),
    ensures
        shortest_walk_result(passable(is_valid, can_enter), allow_diagonals, start, goal, res),
        forall|mv: spec_fn(TilePos) -> bool, me: spec_fn(TilePos) -> bool|
            answers_as(is_valid, mv) && answers_as(can_enter, me) ==> shortest_walk_result(
                both(mv, me),
                allow_diagonals,
                start,
                goal,
                res,
            ),
{
    let ghost (mv, me) = choose|mv: spec_fn(TilePos) -> bool, me: spec_fn(TilePos) -> bool|
        #[trigger] path_search_fits(is_valid, can_enter, mv, me, allow_diagonals, start, goal);
    let res = shortest_walk(start, goal, allow_diagonals, is_valid, can_enter, Ghost(mv), Ghost(me));
    proof {
        assert(answers_as(is_valid, holds_fn(is_valid)));
        assert(answers_as(can_enter, holds_fn(can_enter)));
    }
    res
}

/// Flood fill with the closures' answers given as `okv` and `oke`.
pub(crate) fn reachable_region<FValid, FEnter>(
    start: TilePos,
    allow_diagonals: bool,
    is_valid: FValid,
    can_enter: FEnter,
    Ghost(okv): Ghost<spec_fn(TilePos) -> bool>,
    Ghost(oke): Ghost<spec_fn(TilePos) -> bool>,
) -> (res: Vec<TilePos>) where FValid: Fn(TilePos) -> bool, FEnter: Fn(TilePos) -> bool
    requires
        closures_answer(is_valid, can_enter, okv, oke),
        forall|p: TilePos| in_component(both(okv, oke), allow_diagonals, start, p) ==> has_room(p),
        component(both(okv, oke), allow_diagonals, start).finite(),
    ensures
        res@.no_duplicates(),
        forall|p: TilePos| #[trigger] res@.contains(p) <==> in_component(both(okv, oke), allow_diagonals, start, p),
        forall|mv: spec_fn(TilePos) -> bool, me: spec_fn(TilePos) -> bool|
            answers_as(is_valid, mv) && answers_as(can_enter, me) ==> forall|p: TilePos|
                #[trigger] res@.contains(p) <==> in_component(both(mv, me), allow_diagonals, start, p),
{
    let ghost ok = both(okv, oke);
    if !is_valid(start) || !can_enter(start) {
        let res: Vec<TilePos> = Vec::new();
        proof {
            assert(seen_shut(is_valid, can_enter, start));
            assert forall|mv: spec_fn(TilePos) -> bool, me: spec_fn(TilePos) -> bool|
                answers_as(is_valid, mv) && answers_as(can_enter, me) implies forall|p: TilePos|
                #[trigger] res@.contains(p) <==> in_component(both(mv, me), allow_diagonals, start, p) by {
                lemma_seen_under(is_valid, can_enter, mv, me);
                assert forall|p: TilePos| #[trigger] res@.contains(p) <==> in_component(
                    both(mv, me),
                    allow_diagonals,
                    start,
                    p,
                ) by {
                    if in_component(both(mv, me), allow_diagonals, start, p) {
                        let k = choose|k: nat| #[trigger] reached(both(mv, me), allow_diagonals, start, k, p);
                        lemma_blocked_start_reaches_nothing(both(mv, me), allow_diagonals, start, k, p);
                    }
                }
            }
            assert forall|p: TilePos| #[trigger] res@.contains(p) <==> in_component(ok, allow_diagonals, start, p) by {
                if in_component(ok, allow_diagonals, start, p) {
                    let k = choose|k: nat| #[trigger] reached(ok, allow_diagonals, start, k, p);
                    lemma_blocked_start_reaches_nothing(ok, allow_diagonals, start, k, p);
                }
            }
        }
        return res;
    }
    let e = explore(
        start,
        allow_diagonals,
        is_valid,
        can_enter,
        None,
        None,
        Ghost(okv),
        Ghost(oke),
    );
    proof {
        reveal(search_tree);
        assert forall|mv: spec_fn(TilePos) -> bool, me: spec_fn(TilePos) -> bool|
            answers_as(is_valid, mv) && answers_as(can_enter, me) implies forall|p: TilePos|
            #[trigger] e.nodes@.contains(p) <==> in_component(both(mv, me), allow_diagonals, start, p) by {
            let m = both(mv, me);
            lemma_seen_under(is_valid, can_enter, mv, me);
            assert forall|j: int| 0 <= j < e.nodes@.len() implies m(#[trigger] e.nodes@[j]) by {
                assert(seen_open(is_valid, can_enter, e.nodes@[j]));
            }
            assert forall|p: TilePos| #[trigger] e.nodes@.contains(p) <==> in_component(m, allow_diagonals, start, p) by {
                if e.nodes@.contains(p) {
                    let j = e.nodes@.index_of(p);
                    lemma_nodes_reached_under(ok, allow_diagonals, start, e.nodes@, e.depth@, e.parent@, m, j);
                }
                if in_component(m, allow_diagonals, start, p) {
                    let k = choose|k: nat| #[trigger] reached(m, allow_diagonals, start, k, p);
                    assert forall|i: int| 0 <= i < e.nodes@.len() && e.depth@[i] < k implies #[trigger] was_expanded(
                        e.found,
                        None,
                        e.depth@,
                        i,
                    ) by {}
                    lemma_coverage_under(is_valid, can_enter, allow_diagonals, e.nodes@, e.depth@, e.found, None, mv, me, k);
                    lemma_reach_under_within(ok, allow_diagonals, start, e.nodes@, e.depth@, e.parent@, m, k, k, p);
                }
            }
        }
    }
    e.nodes
}

/// Every position reachable from `start`, each listed once.
pub fn flood_fill<FValid, FEnter>(
    start: TilePos,
    allow_diagonals: bool,
    is_valid: FValid,
    can_enter: FEnter,
) -> (res: Vec<TilePos>) where FValid: Fn(TilePos) -> bool, FEnter: Fn(TilePos) -> bool
    requires
        is_pure_predicate(is_valid),
        is_pure_predicate(can_enter),
        forall|p: TilePos|
            in_component(passable(is_valid, can_enter), allow_diagonals, start, p) ==> has_room(p),
        component(passable(is_valid, can_enter), allow_diagonals, start).finite(),
    ensures
        res@.no_duplicates(),
        forall|p: TilePos|
            #[trigger] res@.contains(p) <==> in_component(passable(is_valid, can_enter), allow_diagonals, start, p),
        forall|mv: spec_fn(TilePos) -> bool, me: spec_fn(TilePos) -> bool|
            answers_as(is_valid, mv) && answers_as(can_enter, me) ==> forall|p: TilePos|
                #[trigger] res@.contains(p) <==> in_component(both(mv, me), allow_diagonals, start, p),
{
    reachable_region(
        start,
        allow_diagonals,
        is_valid,
        can_enter,
        Ghost(holds_fn(is_valid)),
        Ghost(holds_fn(can_enter)),
    )
}

/// `res` lists every position within `max_steps` steps of `start` through
/// positions where `ok` holds, once each, with its exact step count.
pub open spec fn steps_listed(
    ok: spec_fn(TilePos) -> bool,
    diag: bool,
    start: TilePos,
    max_steps: usize,
    res: Seq<(TilePos, usize)>,
) -> bool {
    &&& forall|i: int| 0 <= i < res.len() ==> exact_steps(ok, diag, start, (#[trigger] res[i]).1 as nat, res[i].0)
    &&& forall|p: TilePos| reached(ok, diag, start, max_steps as nat, p) ==> exists|i: int|
        0 <= i < res.len() && (#[trigger] res[i]).0 == p
}

/// Every position within `max_steps` steps of `start`, paired with its exact
/// step distance, each position listed once.
pub fn reachable_within<FValid, FEnter>(
    start: TilePos,
    max_steps: usize,
    allow_diagonals: bool,
    is_valid: FValid,
    can_enter: FEnter,
) -> (res: Vec<(TilePos, usize)>) where FValid: Fn(TilePos) -> bool, FEnter: Fn(TilePos) -> bool
    requires
        is_pure_predicate(is_valid),
        is_pure_predicate(can_enter),
        forall|p: TilePos|
            max_steps > 0 && reached(
                passable(is_valid, can_enter),
                allow_diagonals,
                start,
                (max_steps - 1) as nat,
                p,
            ) ==> has_room(p),
    ensures
        forall|i: int, j: int| 0 <= i < j < res@.len() ==> res@[i].0 != res@[j].0,
        forall|i: int|
            0 <= i < res@.len() ==> exact_steps(
                passable(is_valid, can_enter),
                allow_diagonals,
                start,
                (#[trigger] res@[i]).1 as nat,
                res@[i].0,
            ) && res@[i].1 <= max_steps,
        forall|p: TilePos|
            reached(passable(is_valid, can_enter), allow_diagonals, start, max_steps as nat, p) ==> exists|i: int|
                0 <= i < res@.len() && (#[trigger] res@[i]).0 == p,
        forall|mv: spec_fn(TilePos) -> bool, me: spec_fn(TilePos) -> bool|
            answers_as(is_valid, mv) && answers_as(can_enter, me) ==> steps_listed(
                both(mv, me),
                allow_diagonals,
                start,
                max_steps,
                res@,
            ),
{
    let ghost ok = passable(is_valid, can_enter);
    let mut res: Vec<(TilePos, usize)> = Vec::new();
    if !is_valid(start) || !can_enter(start) {
        proof {
            assert forall|p: TilePos| reached(ok, allow_diagonals, start, max_steps as nat, p) implies false by {
                lemma_blocked_start_reaches_nothing(ok, allow_diagonals, start, max_steps as nat, p);
            }
            assert(seen_shut(is_valid, can_enter, start));
            assert forall|mv: spec_fn(TilePos) -> bool, me: spec_fn(TilePos) -> bool|
                answers_as(is_valid, mv) && answers_as(can_enter, me) implies steps_listed(
                both(mv, me),
                allow_diagonals,
                start,
                max_steps,
                res@,
            ) by {
                lemma_seen_under(is_valid, can_enter, mv, me);
                assert forall|p: TilePos| reached(both(mv, me), allow_diagonals, start, max_steps as nat, p) implies false by {
                    lemma_blocked_start_reaches_nothing(both(mv, me), allow_diagonals, start, max_steps as nat, p);
                }
            }
        }
        return res;
    }
    let e = explore(
        start,
        allow_diagonals,
        is_valid,
        can_enter,
        Some(max_steps),
        None,
        Ghost(holds_fn(is_valid)),
        Ghost(holds_fn(can_enter)),
    );
    proof {
        reveal(search_tree);
    }
    let n = e.nodes.len();
    let mut i: usize = 0;
    while i < n
        invariant
            search_tree(ok, allow_diagonals, start, e.nodes@, e.depth@, e.parent@),
            n == e.nodes@.len(),
            i <= n,
            res@.len() == i,
            forall|j: int| 0 <= j < i ==> #[trigger] res@[j] == (e.nodes@[j], e.depth@[j]),
        decreases n - i,
    {
        res.push((e.nodes[i], e.depth[i]));
        i += 1;
    }
    proof {
        reveal(search_tree);
        assert forall|a: int, b: int| 0 <= a < b < res@.len() implies res@[a].0 != res@[b].0 by {
            assert(res@[a].0 == e.nodes@[a] && res@[b].0 == e.nodes@[b]);
        }
        assert forall|j: int| 0 <= j < res@.len() implies exact_steps(
            ok,
            allow_diagonals,
            start,
            (#[trigger] res@[j]).1 as nat,
            res@[j].0,
        ) && res@[j].1 <= max_steps by {
            assert(res@[j] == (e.nodes@[j], e.depth@[j]));
            assert(exact_steps(ok, allow_diagonals, start, e.depth@[j] as nat, e.nodes@[j]));
            assert(e.nodes@.contains(e.nodes@[j]));
            if e.depth@[j] > max_steps {
                lemma_reached_monotone(ok, allow_diagonals, start, max_steps as nat, (e.depth@[j] - 1) as nat, e.nodes@[j]);
            }
        }
        assert forall|p: TilePos| reached(ok, allow_diagonals, start, max_steps as nat, p) implies exists|j: int|
            0 <= j < res@.len() && (#[trigger] res@[j]).0 == p by {
            assert(e.nodes@.contains(p));
            let j = e.nodes@.index_of(p);
            assert(res@[j] == (e.nodes@[j], e.depth@[j]));
        }
    }
    proof {
        reveal(search_tree);
        assert forall|mv: spec_fn(TilePos) -> bool, me: spec_fn(TilePos) -> bool|
            answers_as(is_valid, mv) && answers_as(can_enter, me) implies steps_listed(
            both(mv, me),
            allow_diagonals,
            start,
            max_steps,
            res@,
        ) by {
            let m = both(mv, me);
            let nodes = e.nodes@;
            let depth = e.depth@;
            lemma_seen_under(is_valid, can_enter, mv, me);
            assert forall|j: int| 0 <= j < nodes.len() implies m(#[trigger] nodes[j]) by {
                assert(seen_open(is_valid, can_enter, nodes[j]));
            }
            assert forall|i: int| 0 <= i < nodes.len() && depth[i] < max_steps implies #[trigger] was_expanded(
                e.found,
                Some(max_steps),
                depth,
                i,
            ) by {}
            lemma_coverage_under(
                is_valid,
                can_enter,
                allow_diagonals,
                nodes,
                depth,
                e.found,
                Some(max_steps),
                mv,
                me,
                max_steps as nat,
            );
            assert forall|j: int| 0 <= j < res@.len() implies exact_steps(
                m,
                allow_diagonals,
                start,
                (#[trigger] res@[j]).1 as nat,
                res@[j].0,
            ) by {
                assert(res@[j] == (nodes[j], depth[j]));
                lemma_nodes_reached_under(ok, allow_diagonals, start, nodes, depth, e.parent@, m, j);
                assert(exact_steps(ok, allow_diagonals, start, depth[j] as nat, nodes[j]));
                assert(depth[j] <= max_steps) by {
                    if depth[j] > max_steps {
                        assert(nodes.contains(nodes[j]));
                        lemma_reached_monotone(ok, allow_diagonals, start, max_steps as nat, (depth[j] - 1) as nat, nodes[j]);
                    }
                }
                if depth[j] > 0 && reached(m, allow_diagonals, start, (depth[j] - 1) as nat, nodes[j]) {
                    lemma_reach_under_within(
                        ok,
                        allow_diagonals,
                        start,
                        nodes,
                        depth,
                        e.parent@,
                        m,
                        max_steps as nat,
                        (depth[j] - 1) as nat,
                        nodes[j],
                    );
                }
            }
            assert forall|p: TilePos| reached(m, allow_diagonals, start, max_steps as nat, p) implies exists|j: int|
                0 <= j < res@.len() && (#[trigger] res@[j]).0 == p by {
                lemma_reach_under_within(
                    ok,
                    allow_diagonals,
                    start,
                    nodes,
                    depth,
                    e.parent@,
                    m,
                    max_steps as nat,
                    max_steps as nat,
                    p,
                );
                let j = nodes.index_of(p);
                assert(res@[j] == (nodes[j], depth[j]));
            }
        }
    }
    res
}

} // verus!
