//! Counting the nodes that a search has marked.

use vstd::prelude::*;

verus! {

/// The number of nodes that are done.
pub open spec fn count_done(done: Seq<bool>) -> nat
    decreases done.len(),
{
    if done.len() == 0 {
        0
    } else if done.last() {
        count_done(done.drop_last()) + 1
    } else {
        count_done(done.drop_last())
    }
}

/// No more nodes are done than there are, and where fewer are, one is not.
pub proof fn lemma_count_done_bound(done: Seq<bool>)
    ensures
        count_done(done) <= done.len(),
        count_done(done) < done.len() ==> exists|v: int| 0 <= v < done.len() && !#[trigger] done[v],
        (forall|v: int| 0 <= v < done.len() ==> !#[trigger] done[v]) ==> count_done(done) == 0,
    decreases done.len(),
{
    if done.len() > 0 {
        let front = done.drop_last();
        lemma_count_done_bound(front);
    }
}

/// Settling a node that was not done adds one to the count.
pub proof fn lemma_count_done_update(done: Seq<bool>, u: int)
    requires
        0 <= u < done.len(),
        !done[u],
    ensures
        count_done(done.update(u, true)) == count_done(done) + 1,
    decreases done.len(),
{
    let after = done.update(u, true);
    if u == done.len() - 1 {
        assert(after.drop_last() =~= done.drop_last());
    } else {
        lemma_count_done_update(done.drop_last(), u);
        assert(after.drop_last() =~= done.drop_last().update(u, true));
    }
}

/// Where all nodes but one are done, two nodes that are not done are the same.
pub proof fn lemma_one_undone(done: Seq<bool>, a: int, b: int)
    requires
        count_done(done) == done.len() - 1,
        0 <= a < done.len(),
        0 <= b < done.len(),
        !done[a],
        !done[b],
    ensures
        a == b,
{
    if a != b {
        lemma_count_done_update(done, a);
        lemma_count_done_update(done.update(a, true), b);
        lemma_count_done_bound(done.update(a, true).update(b, true));
    }
}

} // verus!
