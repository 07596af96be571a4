//! What the search of [`super::dijkstra`] finds, stated over walks.
//!
//! Whatever the weights, a distance that the search gives a node is the
//! weight of a walk from the start to that node. Where no weight is negative,
//! no walk from the start to the target weighs less than the distance found.

use super::dijkstra::{
    initial, is_shortest, is_trail, is_unreached, lemma_nearest_undone, lemma_search_inv, node_inv,
    pick, search_after, settle, settled_in, Search,
};
use super::is_square;
use super::tally::{
    count_done, lemma_count_done_bound, lemma_count_done_update, lemma_one_undone,
};
use super::walk::{
    is_walk, is_walk_between, lemma_walk_drop_last, lemma_walk_push, non_negative, walk_weight,
};
use vstd::prelude::*;

verus! {

/// A node that has a distance after `rounds` rounds is reached by a walk from
/// the start whose weight is that distance. The walk is returned.
pub proof fn lemma_distance_is_walked(
    grid: Seq<Seq<i32>>,
    start: int,
    rounds: nat,
    v: int,
) -> (walk: Seq<int>)
    requires
        0 <= start < grid.len(),
        0 <= v < grid.len(),
        search_after(grid, start, rounds).dists[v] != i32::MAX,
    ensures
        is_walk_between(grid, walk, start, v),
        walk_weight(grid, walk) == search_after(grid, start, rounds).dists[v],
    decreases settled_in(grid, start, rounds)[v],
{
    let s = search_after(grid, start, rounds);
    let rank = settled_in(grid, start, rounds);
    lemma_search_inv(grid, start, rounds);
    assert(node_inv(grid, start, s, rank, rounds, v));
    if v == start {
        seq![start]
    } else {
        let p = s.pred[v];
        let front = lemma_distance_is_walked(grid, start, rounds, p);
        lemma_walk_push(grid, front, v);
        front.push(v)
    }
}

/// A target that no walk from the start leads to is left without a distance.
pub proof fn lemma_unreachable_is_unreached(grid: Seq<Seq<i32>>, start: int, target: int)
    requires
        0 <= start < grid.len(),
        0 <= target < grid.len(),
        forall|walk: Seq<int>| !is_walk_between(grid, walk, start, target),
    ensures
        is_unreached(grid, start, target),
{
    let rounds = (grid.len() - 1) as nat;
    if search_after(grid, start, rounds).dists[target] != i32::MAX {
        lemma_distance_is_walked(grid, start, rounds, target);
    }
}

/// In a trail to a node that has a distance, every node has a distance.
proof fn lemma_trail_nodes_reached(
    grid: Seq<Seq<i32>>,
    start: int,
    target: int,
    path: Seq<int>,
    i: int,
)
    requires
        0 <= start < grid.len(),
        0 <= target < grid.len(),
        is_trail(search_after(grid, start, (grid.len() - 1) as nat).pred, start, target, path),
        search_after(grid, start, (grid.len() - 1) as nat).dists[target] != i32::MAX,
        0 <= i < path.len(),
    ensures
        0 <= path[i] < grid.len(),
        search_after(grid, start, (grid.len() - 1) as nat).dists[path[i]] != i32::MAX,
    decreases path.len() - i,
{
    let rounds = (grid.len() - 1) as nat;
    let s = search_after(grid, start, rounds);
    lemma_search_inv(grid, start, rounds);
    if i < path.len() - 1 {
        lemma_trail_nodes_reached(grid, start, target, path, i + 1);
        let v = path[i + 1];
        assert(node_inv(grid, start, s, settled_in(grid, start, rounds), rounds, v));
    }
}

/// The first `k` nodes of a trail to a node that has a distance are a walk
/// from the start whose weight is the distance of its last node.
proof fn lemma_trail_prefix_walked(
    grid: Seq<Seq<i32>>,
    start: int,
    target: int,
    path: Seq<int>,
    k: int,
)
    requires
        0 <= start < grid.len(),
        0 <= target < grid.len(),
        is_trail(search_after(grid, start, (grid.len() - 1) as nat).pred, start, target, path),
        search_after(grid, start, (grid.len() - 1) as nat).dists[target] != i32::MAX,
        1 <= k <= path.len(),
    ensures
        is_walk_between(grid, path.take(k), start, path[k - 1]),
        walk_weight(grid, path.take(k)) == search_after(
            grid,
            start,
            (grid.len() - 1) as nat,
        ).dists[path[k - 1]],
    decreases k,
{
    let rounds = (grid.len() - 1) as nat;
    let s = search_after(grid, start, rounds);
    lemma_search_inv(grid, start, rounds);
    lemma_trail_nodes_reached(grid, start, target, path, k - 1);
    if k > 1 {
        lemma_trail_prefix_walked(grid, start, target, path, k - 1);
        let v = path[k - 1];
        assert(node_inv(grid, start, s, settled_in(grid, start, rounds), rounds, v));
        lemma_walk_push(grid, path.take(k - 1), v);
        assert(path.take(k - 1).push(v) =~= path.take(k));
    }
}

/// The path found is a walk from the start to the target, and the distance
/// found is the weight of that walk.
pub proof fn lemma_path_is_walked(
    grid: Seq<Seq<i32>>,
    start: int,
    target: int,
    total: int,
    path: Seq<int>,
)
    requires
        0 <= start < grid.len(),
        0 <= target < grid.len(),
        is_shortest(grid, start, target, total, path),
    ensures
        is_walk_between(grid, path, start, target),
        walk_weight(grid, path) == total,
{
    lemma_trail_prefix_walked(grid, start, target, path, path.len() as int);
    assert(path.take(path.len() as int) =~= path);
}

/// A settled node is no farther than one that is not settled.
spec fn ordered(s: Search, u: int, v: int) -> bool {
    s.done[u] && !s.done[v] ==> s.dists[u] <= s.dists[v]
}

/// An edge that leaves a settled node with a distance has been relaxed.
spec fn edge_settled(grid: Seq<Seq<i32>>, s: Search, u: int, v: int) -> bool {
    s.done[u] && s.dists[u] != i32::MAX && grid[u][v] != 0 ==> s.dists[v] <= s.dists[u]
        + grid[u][v]
}

/// A walk from the start to a settled node weighs no less than its distance.
spec fn walk_bounded(grid: Seq<Seq<i32>>, start: int, s: Search, walk: Seq<int>) -> bool {
    is_walk(grid, walk) && walk[0] == start && s.done[walk.last()] ==> walk_weight(grid, walk)
        >= s.dists[walk.last()]
}

/// What holds of a state after `rounds` rounds where no weight is negative.
spec fn least_inv(grid: Seq<Seq<i32>>, start: int, s: Search, rounds: nat) -> bool {
    let n = grid.len();
    &&& s.dists.len() == n
    &&& s.done.len() == n
    &&& s.dists[start] == 0
    &&& count_done(s.done) == rounds
    &&& forall|v: int| 0 <= v < n ==> 0 <= #[trigger] s.dists[v]
    &&& forall|u: int, v: int| 0 <= u < n && 0 <= v < n ==> #[trigger] ordered(s, u, v)
    &&& forall|u: int, v: int| 0 <= u < n && 0 <= v < n ==> #[trigger] edge_settled(grid, s, u, v)
    &&& forall|walk: Seq<int>| #[trigger] walk_bounded(grid, start, s, walk)
}

/// A walk from the start to a node that is not settled weighs no less than
/// the distance of some node that is not settled. That node is returned.
proof fn lemma_frontier(
    grid: Seq<Seq<i32>>,
    start: int,
    s: Search,
    rounds: nat,
    walk: Seq<int>,
) -> (y: int)
    requires
        is_square(grid),
        non_negative(grid),
        0 <= start < grid.len(),
        least_inv(grid, start, s, rounds),
        is_walk(grid, walk),
        walk[0] == start,
        !s.done[walk.last()],
    ensures
        0 <= y < grid.len(),
        !s.done[y],
        s.dists[y] <= walk_weight(grid, walk),
    decreases walk.len(),
{
    let v = walk.last();
    if walk.len() == 1 {
        v
    } else {
        lemma_walk_drop_last(grid, walk);
        let front = walk.drop_last();
        let x = front.last();
        if s.done[x] {
            assert(walk_bounded(grid, start, s, front));
            assert(edge_settled(grid, s, x, v));
            v
        } else {
            lemma_frontier(grid, start, s, rounds, front)
        }
    }
}

/// One round keeps `least_inv`, as long as a node is left to settle.
proof fn lemma_settle_keeps_least(grid: Seq<Seq<i32>>, start: int, s: Search, rounds: nat)
    requires
        is_square(grid),
        non_negative(grid),
        0 <= start < grid.len(),
        least_inv(grid, start, s, rounds),
        rounds < grid.len(),
    ensures
        least_inv(grid, start, settle(grid, s, pick(s)), rounds + 1),
{
    let n = grid.len();
    let u = pick(s);
    let t = settle(grid, s, u);
    lemma_count_done_bound(s.done);
    lemma_nearest_undone(s.dists, s.done, n);
    lemma_count_done_update(s.done, u);
    assert forall|a: int, b: int| 0 <= a < n && 0 <= b < n implies #[trigger] ordered(t, a, b) by {
        assert(ordered(s, a, u));
    }
    assert forall|a: int, b: int| 0 <= a < n && 0 <= b < n implies #[trigger] edge_settled(
        grid,
        t,
        a,
        b,
    ) by {
        assert(edge_settled(grid, s, a, b));
        assert(ordered(s, b, u));
    }
    assert forall|walk: Seq<int>| #[trigger] walk_bounded(grid, start, t, walk) by {
        if is_walk(grid, walk) && walk[0] == start && t.done[walk.last()] {
            assert(walk_bounded(grid, start, s, walk));
            if !s.done[walk.last()] {
                lemma_frontier(grid, start, s, rounds, walk);
            }
        }
    }
}

/// `least_inv` holds after every number of rounds up to the number of nodes.
proof fn lemma_least_inv(grid: Seq<Seq<i32>>, start: int, rounds: nat)
    requires
        is_square(grid),
        non_negative(grid),
        0 <= start < grid.len(),
        rounds <= grid.len(),
    ensures
        least_inv(grid, start, search_after(grid, start, rounds), rounds),
    decreases rounds,
{
    if rounds == 0 {
        let s = initial(grid.len(), start);
        lemma_count_done_bound(s.done);
    } else {
        lemma_least_inv(grid, start, (rounds - 1) as nat);
        lemma_settle_keeps_least(
            grid,
            start,
            search_after(grid, start, (rounds - 1) as nat),
            (rounds - 1) as nat,
        );
    }
}

/// Where no weight is negative, no walk from the start to the target weighs
/// less than the distance that the search leaves the target with. So a
/// distance found is the least weight of any such walk, and where none is
/// found every such walk weighs `i32::MAX` or more.
pub proof fn lemma_distance_is_least(grid: Seq<Seq<i32>>, start: int, target: int, walk: Seq<int>)
    requires
        is_square(grid),
        non_negative(grid),
        0 <= start < grid.len(),
        0 <= target < grid.len(),
        is_walk_between(grid, walk, start, target),
    ensures
        walk_weight(grid, walk) >= search_after(
            grid,
            start,
            (grid.len() - 1) as nat,
        ).dists[target],
        is_unreached(grid, start, target) ==> walk_weight(grid, walk) >= i32::MAX,
        forall|total: int, path: Seq<int>|
            is_shortest(grid, start, target, total, path) ==> total <= walk_weight(grid, walk),
{
    let rounds = (grid.len() - 1) as nat;
    let s = search_after(grid, start, rounds);
    lemma_least_inv(grid, start, rounds);
    if s.done[target] {
        assert(walk_bounded(grid, start, s, walk));
    } else {
        let y = lemma_frontier(grid, start, s, rounds, walk);
        lemma_one_undone(s.done, y, target);
    }
}

/// Where no weight is negative, the search finds a distance for the target
/// exactly when a walk from the start to the target weighs less than `i32::MAX`.
pub proof fn lemma_found_iff_walked(grid: Seq<Seq<i32>>, start: int, target: int)
    requires
        is_square(grid),
        non_negative(grid),
        0 <= start < grid.len(),
        0 <= target < grid.len(),
    ensures
        !is_unreached(grid, start, target) <==> exists|walk: Seq<int>| #[trigger]
            is_walk_between(grid, walk, start, target) && walk_weight(grid, walk) < i32::MAX,
{
    let rounds = (grid.len() - 1) as nat;
    if !is_unreached(grid, start, target) {
        lemma_distance_is_walked(grid, start, rounds, target);
    }
    if exists|walk: Seq<int>| #[trigger]
        is_walk_between(grid, walk, start, target) && walk_weight(grid, walk) < i32::MAX {
        let walk = choose|walk: Seq<int>| #[trigger]
            is_walk_between(grid, walk, start, target) && walk_weight(grid, walk) < i32::MAX;
        lemma_distance_is_least(grid, start, target, walk);
    }
}

/// A target other than the start that no edge leads into is left without a distance.
pub proof fn lemma_no_way_in_is_unreached(grid: Seq<Seq<i32>>, start: int, target: int)
    requires
        0 <= start < grid.len(),
        0 <= target < grid.len(),
        start != target,
        forall|u: int| 0 <= u < grid.len() ==> (#[trigger] grid[u])[target] == 0,
    ensures
        is_unreached(grid, start, target),
{
    assert forall|walk: Seq<int>| !is_walk_between(grid, walk, start, target) by {
        if is_walk_between(grid, walk, start, target) {
            lemma_walk_drop_last(grid, walk);
        }
    }
    lemma_unreachable_is_unreached(grid, start, target);
}

} // verus!
