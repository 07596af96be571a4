//! Single-source shortest paths by Dijkstra's algorithm on the dense matrix.
//!
//! The search is specified by a mathematical model: a [`Search`] state and the
//! function [`search_after`] that gives the state after a number of rounds.
//! The executable search is proved to compute exactly that model.

use super::as_ints;
use super::shortest::{lemma_distance_is_least, lemma_distance_is_walked, lemma_path_is_walked};
use super::walk::{is_walk_between, non_negative, walk_weight};
use super::Matrix;
use vstd::prelude::*;

verus! {

/// The state of a search: for every node its tentative distance from the
/// start, whether it is settled, and the node it was last reached from.
pub struct Search {
    /// The tentative distance of each node; `i32::MAX` stands for none.
    pub dists: Seq<i32>,
    /// Whether each node is settled.
    pub done: Seq<bool>,
    /// The node from which each node was last relaxed; node `0` at first.
    pub pred: Seq<int>,
}

/// Among the nodes below `limit` that are not done, the one with the smallest
/// distance, and of several such the one with the lowest index; `None` when
/// all of them are done.
pub open spec fn nearest_undone(dists: Seq<i32>, done: Seq<bool>, limit: nat) -> Option<int>
    decreases limit,
{
    if limit == 0 {
        None
    } else {
        let v = limit - 1;
        match nearest_undone(dists, done, v as nat) {
            None => if done[v] {
                None
            } else {
                Some(v)
            },
            Some(u) => if !done[v] && dists[v] < dists[u] {
                Some(v)
            } else {
                Some(u)
            },
        }
    }
}

/// `nearest_undone` finds a node exactly when one below `limit` is not done.
/// The node it finds is not done, no node that is not done has a smaller
/// distance, and every such node with a lower index has a strictly greater one.
pub proof fn lemma_nearest_undone(dists: Seq<i32>, done: Seq<bool>, limit: nat)
    ensures
        nearest_undone(dists, done, limit) is None <==> forall|v: int|
            0 <= v < limit ==> #[trigger] done[v],
        nearest_undone(dists, done, limit) matches Some(u) ==> {
            &&& 0 <= u < limit
            &&& !done[u]
            &&& forall|v: int| 0 <= v < limit && !#[trigger] done[v] ==> dists[u] <= dists[v]
            &&& forall|v: int| 0 <= v < u && !#[trigger] done[v] ==> dists[u] < dists[v]
        },
    decreases limit,
{
    if limit > 0 {
        lemma_nearest_undone(dists, done, (limit - 1) as nat);
    }
}

/// The state before the first round: only `start` has a distance, which is
/// `0`; nothing is settled and every predecessor is node `0`.
pub open spec fn initial(nodes: nat, start: int) -> Search {
    Search {
        dists: Seq::new(
            nodes,
            |v: int|
                if v == start {
                    0i32
                } else {
                    i32::MAX
                },
        ),
        done: Seq::new(nodes, |v: int| false),
        pred: Seq::new(nodes, |v: int| 0int),
    }
}

/// The node that the next round settles: the nearest node that is not done,
/// or node `0` when all are.
pub open spec fn pick(s: Search) -> int {
    match nearest_undone(s.dists, s.done, s.dists.len()) {
        Some(u) => u,
        None => 0,
    }
}

/// Whether settling `u` gives `v` a new distance. It does when `v` is not
/// settled, the weight from `u` to `v` is not zero, `u` has a distance, and
/// the distance through `u` is an `i32` strictly below the one `v` has.
pub open spec fn relaxes(grid: Seq<Seq<i32>>, s: Search, u: int, v: int) -> bool {
    &&& v != u
    &&& !s.done[v]
    &&& grid[u][v] != 0
    &&& s.dists[u] != i32::MAX
    &&& i32::MIN <= s.dists[u] + grid[u][v] < s.dists[v]
}

/// The state after one round that settles `u`: `u` is done, and every node
/// that `u` relaxes has its distance through `u` and `u` as predecessor.
pub open spec fn settle(grid: Seq<Seq<i32>>, s: Search, u: int) -> Search {
    Search {
        dists: Seq::new(
            s.dists.len(),
            |v: int|
                if relaxes(grid, s, u, v) {
                    (s.dists[u] + grid[u][v]) as i32
                } else {
                    s.dists[v]
                },
        ),
        done: s.done.update(u, true),
        pred: Seq::new(
            s.pred.len(),
            |v: int|
                if relaxes(grid, s, u, v) {
                    u
                } else {
                    s.pred[v]
                },
        ),
    }
}

/// The state of the search from `start` after `rounds` rounds.
pub open spec fn search_after(grid: Seq<Seq<i32>>, start: int, rounds: nat) -> Search
    decreases rounds,
{
    if rounds == 0 {
        initial(grid.len(), start)
    } else {
        let s = search_after(grid, start, (rounds - 1) as nat);
        settle(grid, s, pick(s))
    }
}

/// Whether `path` is the chain of predecessors that leads to `target`,
/// followed back until `start` and then put in forward order: it starts with
/// `start`, ends with `target`, holds `start` nowhere else, and every node in
/// it but the first is preceded by its predecessor.
pub open spec fn is_trail(pred: Seq<int>, start: int, target: int, path: Seq<int>) -> bool {
    &&& path.len() >= 1
    &&& path[0] == start
    &&& path.last() == target
    &&& forall|i: int|
        1 <= i < path.len() ==> (#[trigger] path[i]) != start && path[i - 1] == pred[path[i]]
}

/// Whether `total` and `path` are what the search from `start` finds for
/// `target`: after one round fewer than there are nodes, `target` has the
/// distance `total`, and `path` is its trail of predecessors.
pub open spec fn is_shortest(
    grid: Seq<Seq<i32>>,
    start: int,
    target: int,
    total: int,
    path: Seq<int>,
) -> bool {
    let s = search_after(grid, start, (grid.len() - 1) as nat);
    &&& total != i32::MAX
    &&& total == s.dists[target]
    &&& is_trail(s.pred, start, target, path)
}

/// Whether the search from `start` leaves `target` without a distance.
pub open spec fn is_unreached(grid: Seq<Seq<i32>>, start: int, target: int) -> bool {
    search_after(grid, start, (grid.len() - 1) as nat).dists[target] == i32::MAX
}

/// For every node the round in which it was settled, if it is done after
/// `rounds` rounds, and `rounds` itself if it is not.
pub open spec fn settled_in(grid: Seq<Seq<i32>>, start: int, rounds: nat) -> Seq<nat>
    decreases rounds,
{
    if rounds == 0 {
        Seq::new(grid.len(), |v: int| 0nat)
    } else {
        let before = settled_in(grid, start, (rounds - 1) as nat);
        let s = search_after(grid, start, rounds);
        Seq::new(
            grid.len(),
            |v: int|
                if s.done[v] {
                    before[v]
                } else {
                    rounds
                },
        )
    }
}

/// What holds of node `v` in a state `s` reached after `rounds` rounds, where
/// `rank` gives the round in which each node was settled. A node other than
/// the start that has a distance was reached over an edge from its
/// predecessor, which is done, was settled in an earlier round and has a
/// distance itself; the node's distance is that of the predecessor plus the
/// weight of the edge.
pub open spec fn node_inv(
    grid: Seq<Seq<i32>>,
    start: int,
    s: Search,
    rank: Seq<nat>,
    rounds: nat,
    v: int,
) -> bool {
    let p = s.pred[v];
    &&& 0 <= p < grid.len()
    &&& if s.done[v] {
        rank[v] < rounds
    } else {
        rank[v] == rounds
    }
    &&& v != start && s.dists[v] != i32::MAX ==> {
        &&& s.done[p]
        &&& s.dists[p] != i32::MAX
        &&& grid[p][v] != 0
        &&& s.dists[v] == s.dists[p] + grid[p][v]
        &&& rank[p] < rank[v]
    }
}

/// What holds of a state `s` reached after `rounds` rounds, whatever the
/// weights: the start keeps distance `0` and predecessor `0` and is done
/// after the first round, and `node_inv` holds of every node.
pub open spec fn search_inv(
    grid: Seq<Seq<i32>>,
    start: int,
    s: Search,
    rank: Seq<nat>,
    rounds: nat,
) -> bool {
    let n = grid.len();
    &&& s.dists.len() == n
    &&& s.done.len() == n
    &&& s.pred.len() == n
    &&& rank.len() == n
    &&& s.dists[start] == 0
    &&& s.pred[start] == 0
    &&& rounds >= 1 ==> s.done[start]
    &&& rounds == 0 ==> forall|v: int|
        0 <= v < n && v != start ==> #[trigger] s.dists[v] == i32::MAX
    &&& forall|v: int| 0 <= v < n ==> #[trigger] node_inv(grid, start, s, rank, rounds, v)
}

/// One round keeps `search_inv`.
proof fn lemma_settle_keeps_inv(
    grid: Seq<Seq<i32>>,
    start: int,
    s: Search,
    rank: Seq<nat>,
    rounds: nat,
)
    requires
        0 <= start < grid.len(),
        search_inv(grid, start, s, rank, rounds),
    ensures
        search_inv(
            grid,
            start,
            settle(grid, s, pick(s)),
            Seq::new(
                grid.len(),
                |v: int|
                    if settle(grid, s, pick(s)).done[v] {
                        rank[v]
                    } else {
                        (rounds + 1) as nat
                    },
            ),
            rounds + 1,
        ),
{
    let n = grid.len();
    let u = pick(s);
    let t = settle(grid, s, u);
    let next = Seq::new(
        n,
        |v: int|
            if t.done[v] {
                rank[v]
            } else {
                (rounds + 1) as nat
            },
    );
    lemma_nearest_undone(s.dists, s.done, n);
    assert(node_inv(grid, start, s, rank, rounds, u));
    assert forall|v: int| 0 <= v < n implies #[trigger] node_inv(
        grid,
        start,
        t,
        next,
        rounds + 1,
        v,
    ) by {
        assert(node_inv(grid, start, s, rank, rounds, v));
    }
}

/// `search_inv` holds of the state after every number of rounds.
pub proof fn lemma_search_inv(grid: Seq<Seq<i32>>, start: int, rounds: nat)
    requires
        0 <= start < grid.len(),
    ensures
        search_inv(
            grid,
            start,
            search_after(grid, start, rounds),
            settled_in(grid, start, rounds),
            rounds,
        ),
    decreases rounds,
{
    if rounds > 0 {
        let before = (rounds - 1) as nat;
        lemma_search_inv(grid, start, before);
        lemma_settle_keeps_inv(
            grid,
            start,
            search_after(grid, start, before),
            settled_in(grid, start, before),
            before,
        );
        assert(settled_in(grid, start, rounds) =~= Seq::new(
            grid.len(),
            |v: int|
                if search_after(grid, start, rounds).done[v] {
                    settled_in(grid, start, before)[v]
                } else {
                    rounds
                },
        ));
    }
}

/// Two trails over the same predecessors that lead to the same target hold
/// the same node in the place that is `k`-th from their end.
proof fn lemma_trails_agree(
    pred: Seq<int>,
    start: int,
    target: int,
    a: Seq<int>,
    b: Seq<int>,
    k: nat,
)
    requires
        is_trail(pred, start, target, a),
        is_trail(pred, start, target, b),
        1 <= k <= a.len(),
        k <= b.len(),
    ensures
        a[a.len() - k] == b[b.len() - k],
    decreases k,
{
    if k > 1 {
        lemma_trails_agree(pred, start, target, a, b, (k - 1) as nat);
    }
}

/// A chain of predecessors has one trail only.
pub proof fn lemma_trail_unique(
    pred: Seq<int>,
    start: int,
    target: int,
    a: Seq<int>,
    b: Seq<int>,
)
    requires
        is_trail(pred, start, target, a),
        is_trail(pred, start, target, b),
    ensures
        a == b,
{
    if a.len() < b.len() {
        lemma_trails_agree(pred, start, target, a, b, a.len());
    } else if b.len() < a.len() {
        lemma_trails_agree(pred, start, target, a, b, b.len());
    } else {
        assert forall|i: int| 0 <= i < a.len() implies a[i] == b[i] by {
            lemma_trails_agree(pred, start, target, a, b, (a.len() - i) as nat);
        }
    }
}

/// What `Matrix::dijsktra` promises of its result, for the grid of a matrix.
pub open spec fn is_search_result(
    grid: Seq<Seq<i32>>,
    start: int,
    target: int,
    result: Option<(i32, Vec<usize>)>,
) -> bool {
    match result {
        None => is_unreached(grid, start, target),
        Some((total, path)) => is_shortest(grid, start, target, total as int, as_ints(path@)),
    }
}

/// The search is a function of the matrix, the start and the target: two
/// results for the same three are both `None`, or hold the same distance and
/// the same path.
pub proof fn lemma_search_result_unique(
    grid: Seq<Seq<i32>>,
    start: int,
    target: int,
    first: Option<(i32, Vec<usize>)>,
    second: Option<(i32, Vec<usize>)>,
)
    requires
        is_search_result(grid, start, target, first),
        is_search_result(grid, start, target, second),
    ensures
        first is None <==> second is None,
        first matches Some((total, path)) ==> second matches Some((other_total, other_path))
            && total == other_total && path@ == other_path@,
{
    if let Some((total, path)) = first {
        if let Some((other_total, other_path)) = second {
            let s = search_after(grid, start, (grid.len() - 1) as nat);
            lemma_trail_unique(s.pred, start, target, as_ints(path@), as_ints(other_path@));
            assert forall|i: int| 0 <= i < path@.len() implies path@[i] == other_path@[i] by {
                assert(as_ints(path@)[i] == as_ints(other_path@)[i]);
            }
        }
    }
}

/// The nodes of `nodes` in the opposite order.
fn reversed(nodes: &Vec<usize>) -> (back: Vec<usize>)
    ensures
        back@.len() == nodes@.len(),
        forall|i: int| 0 <= i < back@.len() ==> back@[i] == nodes@[nodes@.len() - 1 - i],
{
    let mut back: Vec<usize> = Vec::new();
    let mut left: usize = nodes.len();
    while left > 0
        invariant
            left <= nodes@.len(),
            back@.len() == nodes@.len() - left,
            forall|i: int| 0 <= i < back@.len() ==> back@[i] == nodes@[nodes@.len() - 1 - i],
        decreases left,
    {
        left -= 1;
        back.push(nodes[left]);
    }
    back
}

impl Matrix {
    /// Calculates the node with the smallest distance for the Dijkstra
    /// algorithm: of the nodes not yet done the one with the smallest entry in
    /// `dists`, and of several such the one with the lowest index. When every
    /// node is done the answer is node `0`. Neither vector is changed.
    pub fn min_distance(&self, dists: &mut Vec<i32>, done: &mut Vec<bool>) -> (node: usize)
        requires
            old(done)@.len() >= self.nodes(),
            forall|v: int| 0 <= v < self.nodes() && !old(done)@[v] ==> v < old(dists)@.len(),
        ensures
            final(dists)@ == old(dists)@,
            final(done)@ == old(done)@,
            nearest_undone(old(dists)@, old(done)@, self.nodes()) matches Some(u) ==> node == u,
            nearest_undone(old(dists)@, old(done)@, self.nodes()) is None ==> node == 0,
            (forall|v: int| 0 <= v < self.nodes() ==> #[trigger] old(done)@[v]) ==> node == 0,
            (exists|v: int| 0 <= v < self.nodes() && !#[trigger] old(done)@[v]) ==> {
                &&& node < self.nodes()
                &&& !old(done)@[node as int]
                &&& forall|v: int|
                    0 <= v < self.nodes() && !#[trigger] old(done)@[v] ==> old(dists)@[node as int]
                        <= old(dists)@[v]
                &&& forall|v: int|
                    0 <= v < node && !#[trigger] old(done)@[v] ==> old(dists)@[node as int] < old(
                        dists,
                    )@[v]
            },
    {
        let mut min: i32 = i32::MAX;
        let mut min_node: usize = 0;
        let mut found = false;
        let mut v: usize = 0;
        while v < self.n
            invariant
                v <= self.n,
                dists@ == old(dists)@,
                done@ == old(done)@,
                done@.len() >= self.nodes(),
                forall|w: int| 0 <= w < self.nodes() && !done@[w] ==> w < dists@.len(),
                found == (nearest_undone(dists@, done@, v as nat) is Some),
                found ==> nearest_undone(dists@, done@, v as nat) == Some(min_node as int),
                found ==> min_node < v && !done@[min_node as int] && min == dists@[min_node as int],
                !found ==> min_node == 0,
            decreases self.n - v,
        {
            if !done[v] && (!found || dists[v] < min) {
                min = dists[v];
                min_node = v;
                found = true;
            }
            v += 1;
        }
        proof {
            lemma_nearest_undone(dists@, done@, self.nodes());
        }
        min_node
    }

    /// Searches the shortest path from `start_node` to `target_node`.
    ///
    /// Every distance starts out infinite (`i32::MAX`) but that of the start,
    /// which is `0`. One round fewer than there are nodes is run; each round
    /// settles the node that `min_distance` names and relaxes the nodes it has
    /// an edge to, an edge being any weight other than `0`. A relaxed distance
    /// that does not fit an `i32` is never taken.
    ///
    /// The result is `None` when the target is left without a distance.
    /// Otherwise it holds the distance of the target and the path to it: the
    /// trail of predecessors from the start to the target. The path is a walk
    /// from the start to the target whose weight is the distance, and where no
    /// weight is negative that is the least weight of any such walk.
    pub fn dijsktra(&self, start_node: usize, target_node: usize) -> (result: Option<
        (i32, Vec<usize>),
    >)
        requires
            self.wf(),
            start_node < self.nodes(),
            target_node < self.nodes(),
        ensures
            is_search_result(self@, start_node as int, target_node as int, result),
            result matches Some((total, _)) ==> exists|walk: Seq<int>| #[trigger]
                is_walk_between(self@, walk, start_node as int, target_node as int) && walk_weight(
                    self@,
                    walk,
                ) == total,
            result matches Some((total, path)) ==> is_walk_between(
                self@,
                as_ints(path@),
                start_node as int,
                target_node as int,
            ) && walk_weight(self@, as_ints(path@)) == total,
            non_negative(self@) ==> forall|walk: Seq<int>| #[trigger]
                is_walk_between(self@, walk, start_node as int, target_node as int) ==> (
                match result {
                    Some((total, _)) => total <= walk_weight(self@, walk),
                    None => i32::MAX <= walk_weight(self@, walk),
                }),
    {
        let n = self.n;
        let ghost grid = self@;
        let ghost start = start_node as int;
        let mut dists: Vec<i32> = vec![i32::MAX; n];
        let mut done: Vec<bool> = vec![false; n];
        dists[start_node] = 0;
        let mut path: Vec<usize> = vec![0; n];
        let mut round: usize = 0;
        while round < n - 1
            invariant
                self.wf(),
                n == self.nodes(),
                grid == self@,
                0 <= start < n,
                round <= n - 1,
                dists@ == search_after(grid, start, round as nat).dists,
                done@ == search_after(grid, start, round as nat).done,
                as_ints(path@) == search_after(grid, start, round as nat).pred,
            decreases n - 1 - round,
        {
            let ghost s = search_after(grid, start, round as nat);
            proof {
                lemma_search_inv(grid, start, round as nat);
            }
            let min_node = self.min_distance(&mut dists, &mut done);
            let ghost u = min_node as int;
            done[min_node] = true;
            let mut adj_node: usize = 0;
            while adj_node < n
                invariant
                    self.wf(),
                    n == self.nodes(),
                    grid == self@,
                    0 <= u < n,
                    u == min_node,
                    adj_node <= n,
                    s.dists.len() == n,
                    s.done.len() == n,
                    s.pred.len() == n,
                    dists@.len() == n,
                    path@.len() == n,
                    done@ == s.done.update(u, true),
                    forall|v: int|
                        0 <= v < n ==> #[trigger] dists@[v] == if v < adj_node && relaxes(
                            grid,
                            s,
                            u,
                            v,
                        ) {
                            (s.dists[u] + grid[u][v]) as i32
                        } else {
                            s.dists[v]
                        },
                    forall|v: int|
                        0 <= v < n ==> #[trigger] path@[v] as int == if v < adj_node && relaxes(
                            grid,
                            s,
                            u,
                            v,
                        ) {
                            u
                        } else {
                            s.pred[v]
                        },
                decreases n - adj_node,
            {
                let weight = self[min_node][adj_node];
                if !done[adj_node] && weight != 0 && dists[min_node] != i32::MAX {
                    match dists[min_node].checked_add(weight) {
                        Some(new_dist) => {
                            if new_dist < dists[adj_node] {
                                path[adj_node] = min_node;
                                dists[adj_node] = new_dist;
                            }
                        },
                        None => {},
                    }
                }
                adj_node += 1;
            }
            round += 1;
        }
        let ghost rounds = (n - 1) as nat;
        let ghost s = search_after(grid, start, rounds);
        let ghost rank = settled_in(grid, start, rounds);
        proof {
            lemma_search_inv(grid, start, rounds);
            if non_negative(grid) {
                let target = target_node as int;
                assert forall|walk: Seq<int>| #[trigger]
                    is_walk_between(grid, walk, start, target) implies s.dists[target]
                    <= walk_weight(grid, walk) by {
                    lemma_distance_is_least(grid, start, target, walk);
                }
            }
        }
        if dists[target_node] == i32::MAX {
            return None;
        }
        proof {
            lemma_distance_is_walked(grid, start, rounds, target_node as int);
        }
        let mut node = target_node;
        let mut trail: Vec<usize> = Vec::new();
        trail.push(node);
        while node != start_node
            invariant
                start == start_node,
                0 <= start < n,
                n == grid.len(),
                node < n,
                path@.len() == n,
                as_ints(path@) == s.pred,
                search_inv(grid, start, s, rank, rounds),
                s.dists[node as int] != i32::MAX,
                trail@.len() >= 1,
                trail@[0] == target_node,
                trail@.last() == node,
                forall|i: int|
                    0 <= i < trail@.len() - 1 ==> (#[trigger] trail@[i]) != start
                        && trail@[i + 1] as int == s.pred[trail@[i] as int],
            decreases rank[node as int],
        {
            proof {
                assert(node_inv(grid, start, s, rank, rounds, node as int));
            }
            node = path[node];
            trail.push(node);
        }
        let final_path = reversed(&trail);
        proof {
            lemma_path_is_walked(
                grid,
                start,
                target_node as int,
                s.dists[target_node as int] as int,
                as_ints(final_path@),
            );
        }
        Some((dists[target_node], final_path))
    }
}

} // verus!
