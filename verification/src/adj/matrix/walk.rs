//! Walks through the graph that a grid of weights stands for.

use vstd::prelude::*;

verus! {

/// Whether `walk` is a walk through the graph of `grid`: a sequence of one or
/// more nodes in which every node is joined to the next by an edge. Any
/// weight other than `0` is an edge.
pub open spec fn is_walk(grid: Seq<Seq<i32>>, walk: Seq<int>) -> bool {
    &&& walk.len() >= 1
    &&& forall|i: int| 0 <= i < walk.len() ==> 0 <= #[trigger] walk[i] < grid.len()
    &&& forall|i: int| 0 <= i < walk.len() - 1 ==> #[trigger] grid[walk[i]][walk[i + 1]] != 0
}

/// Whether `walk` is a walk from `from` to `to`.
pub open spec fn is_walk_between(grid: Seq<Seq<i32>>, walk: Seq<int>, from: int, to: int) -> bool {
    is_walk(grid, walk) && walk[0] == from && walk.last() == to
}

/// The sum of the weights along `walk`.
pub open spec fn walk_weight(grid: Seq<Seq<i32>>, walk: Seq<int>) -> int
    decreases walk.len(),
{
    if walk.len() <= 1 {
        0
    } else {
        walk_weight(grid, walk.drop_last()) + grid[walk[walk.len() - 2]][walk.last()]
    }
}

/// Whether no weight in `grid` is negative.
pub open spec fn non_negative(grid: Seq<Seq<i32>>) -> bool {
    forall|i: int, j: int|
        0 <= i < grid.len() && 0 <= j < grid[i].len() ==> #[trigger] grid[i][j] >= 0
}

/// A walk of two or more nodes without its last node is a walk, and ends
/// where the last step begins.
pub proof fn lemma_walk_drop_last(grid: Seq<Seq<i32>>, walk: Seq<int>)
    requires
        is_walk(grid, walk),
        walk.len() >= 2,
    ensures
        is_walk(grid, walk.drop_last()),
        walk.drop_last()[0] == walk[0],
        walk.drop_last().last() == walk[walk.len() - 2],
        grid[walk[walk.len() - 2]][walk.last()] != 0,
{
    assert(grid[walk[walk.len() - 2]][walk[walk.len() - 2 + 1]] != 0);
}

/// A walk that takes one more step over an edge is a walk, heavier by the
/// weight of that edge.
pub proof fn lemma_walk_push(grid: Seq<Seq<i32>>, walk: Seq<int>, next: int)
    requires
        is_walk(grid, walk),
        0 <= next < grid.len(),
        grid[walk.last()][next] != 0,
    ensures
        is_walk(grid, walk.push(next)),
        walk.push(next)[0] == walk[0],
        walk.push(next).last() == next,
        walk_weight(grid, walk.push(next)) == walk_weight(grid, walk) + grid[walk.last()][next],
{
    let longer = walk.push(next);
    assert(longer.drop_last() =~= walk);
}

/// Whether `route` is a walk that only takes edges of strictly positive
/// weight, which are the edges that the adjacency lists hold.
pub open spec fn is_route(grid: Seq<Seq<i32>>, route: Seq<int>) -> bool {
    &&& route.len() >= 1
    &&& forall|i: int| 0 <= i < route.len() ==> 0 <= #[trigger] route[i] < grid.len()
    &&& forall|i: int| 0 <= i < route.len() - 1 ==> #[trigger] grid[route[i]][route[i + 1]] > 0
}

/// Whether `to` can be reached from `from` over edges of strictly positive
/// weight. Every node reaches itself.
pub open spec fn reachable(grid: Seq<Seq<i32>>, from: int, to: int) -> bool {
    exists|route: Seq<int>| #[trigger]
        is_route(grid, route) && route[0] == from && route.last() == to
}

/// A node reaches itself.
pub proof fn lemma_reachable_self(grid: Seq<Seq<i32>>, node: int)
    requires
        0 <= node < grid.len(),
    ensures
        reachable(grid, node, node),
{
    assert(is_route(grid, seq![node]));
}

/// What can be reached can be left over one more edge of positive weight.
pub proof fn lemma_reachable_step(grid: Seq<Seq<i32>>, from: int, via: int, to: int)
    requires
        reachable(grid, from, via),
        0 <= to < grid.len(),
        grid[via][to] > 0,
    ensures
        reachable(grid, from, to),
{
    let route = choose|route: Seq<int>| #[trigger]
        is_route(grid, route) && route[0] == from && route.last() == via;
    let longer = route.push(to);
    assert(is_route(grid, longer));
}

} // verus!
