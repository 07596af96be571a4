//! Breadth-first search for a target node.

use super::tally::{count_done, lemma_count_done_bound, lemma_count_done_update};
use super::walk::{is_route, lemma_reachable_self, lemma_reachable_step, reachable};
use super::Matrix;
use vstd::prelude::*;

verus! {

/// Whether every edge of positive weight that leaves a searched node leads to
/// a node that is searched too or waits in `queue`.
pub open spec fn frontier_covers(
    grid: Seq<Seq<i32>>,
    searched: Seq<bool>,
    queue: Seq<usize>,
) -> bool {
    forall|u: int, v: int|
        0 <= u < grid.len() && 0 <= v < grid.len() && searched[u] && #[trigger] grid[u][v] > 0
            ==> searched[v] || queue.contains(v as usize)
}

/// Where the searched nodes are closed under edges of positive weight, every
/// node on a route that begins at a searched node is searched.
proof fn lemma_closed_holds_route(grid: Seq<Seq<i32>>, searched: Seq<bool>, route: Seq<int>, i: int)
    requires
        searched.len() == grid.len(),
        frontier_covers(grid, searched, Seq::empty()),
        is_route(grid, route),
        searched[route[0]],
        0 <= i < route.len(),
    ensures
        searched[route[i]],
    decreases i,
{
    if i > 0 {
        lemma_closed_holds_route(grid, searched, route, i - 1);
        assert(grid[route[i - 1]][route[i - 1 + 1]] > 0);
    }
}

impl Matrix {
    /// Tells whether `target_node` can be reached from `start_node` over
    /// edges of strictly positive weight.
    ///
    /// The nodes wait in a first-in, first-out queue that begins with the
    /// start. A node taken from the queue is searched the first time it is
    /// taken: if it is the target the search ends, else its adjacent nodes
    /// join the queue in ascending order. A node taken again is passed over.
    pub fn bfs(&self, start_node: usize, target_node: usize) -> (found: bool)
        requires
            self.wf(),
            start_node < self.nodes(),
        ensures
            found == reachable(self@, start_node as int, target_node as int),
    {
        let n = self.n;
        let ghost grid = self@;
        let ghost start = start_node as int;
        let ghost target = target_node as int;
        let mut queue: Vec<usize> = Vec::new();
        queue.push(start_node);
        let mut searched: Vec<bool> = vec![false; n];
        proof {
            lemma_reachable_self(grid, start);
            assert(queue@[0] == start_node);
        }
        while queue.len() > 0
            invariant
                self.wf(),
                n == self.nodes(),
                grid == self@,
                start == start_node,
                target == target_node,
                0 <= start < n,
                searched@.len() == n,
                forall|i: int|
                    0 <= i < queue@.len() ==> (#[trigger] queue@[i]) < n && reachable(
                        grid,
                        start,
                        queue@[i] as int,
                    ),
                forall|v: int| 0 <= v < n && #[trigger] searched@[v] ==> v != target,
                searched@[start] || queue@.contains(start_node),
                frontier_covers(grid, searched@, queue@),
            decreases n - count_done(searched@), queue@.len(),
        {
            let ghost waiting = queue@;
            let ghost before = searched@;
            let node = queue.remove(0);
            proof {
                assert forall|v: usize| waiting.contains(v) && v != node implies queue@.contains(
                    v,
                ) by {
                    let i = choose|i: int| 0 <= i < waiting.len() && waiting[i] == v;
                    assert(queue@[i - 1] == v);
                }
            }
            if !searched[node] {
                if node == target_node {
                    return true;
                }
                let mut adjs = self.get_adjs(node);
                proof {
                    assert forall|k: int| 0 <= k < adjs@.len() implies reachable(
                        grid,
                        start,
                        (#[trigger] adjs@[k]) as int,
                    ) by {
                        lemma_reachable_step(grid, start, node as int, adjs@[k] as int);
                    }
                }
                let ghost fresh = adjs@;
                let ghost shorter = queue@;
                queue.append(&mut adjs);
                searched[node] = true;
                proof {
                    lemma_count_done_update(before, node as int);
                    lemma_count_done_bound(searched@);
                    assert forall|v: usize| shorter.contains(v) implies queue@.contains(v) by {
                        let i = choose|i: int| 0 <= i < shorter.len() && shorter[i] == v;
                        assert(queue@[i] == v);
                    }
                    assert forall|v: usize| fresh.contains(v) implies queue@.contains(v) by {
                        let i = choose|i: int| 0 <= i < fresh.len() && fresh[i] == v;
                        assert(queue@[shorter.len() + i] == v);
                    }
                }
            }
        }
        proof {
            if reachable(grid, start, target) {
                let route = choose|route: Seq<int>| #[trigger]
                    is_route(grid, route) && route[0] == start && route.last() == target;
                lemma_closed_holds_route(grid, searched@, route, route.len() - 1);
            }
        }
        false
    }
}

} // verus!
