//! A dense adjacency matrix.
//!
//! Cell `(i, j)` of the matrix holds the weight of the edge from node `i` to
//! node `j`. A weight of `0` stands for "no edge".

pub mod bfs;
pub mod dijkstra;
pub mod row;
pub mod shortest;
pub mod tally;
pub mod text;
pub mod walk;

use core::ops::IndexMut;
use row::Row;
use vstd::prelude::*;

verus! {

/// An `n` by `n` matrix of edge weights over the nodes `0..n`.
pub struct Matrix {
    /// Number of nodes
    pub n: usize,
    data: Vec<Row>,
}

impl View for Matrix {
    type V = Seq<Seq<i32>>;

    /// The rows of the matrix, each as the sequence of its weights.
    closed spec fn view(&self) -> Seq<Seq<i32>> {
        Seq::new(self.data@.len(), |i: int| self.data@[i]@)
    }
}

impl core::ops::Index<usize> for Matrix {
    type Output = Row;

    /// The row of the edges that leave node `index`.
    fn index(&self, index: usize) -> (row: &Row)
        ensures
            row@ == self@[index as int],
    {
        &self.data[index]
    }
}

impl vstd::std_specs::core::IndexSpecImpl<usize> for Matrix {
    open spec fn index_req(&self, index: &usize) -> bool {
        *index < self@.len()
    }
}

impl core::ops::IndexMut<usize> for Matrix {
    /// The row of the edges that leave node `index`, for writing weights into it.
    fn index_mut(&mut self, index: usize) -> (row: &mut Row)
        requires
            index < old(self)@.len(),
        ensures
            row@ == old(self)@[index as int],
            final(self)@ == old(self)@.update(index as int, final(row)@),
            final(self).nodes() == old(self).nodes(),
    {
        &mut self.data[index]
    }
}

/// A grid is square when it has as many columns in every row as it has rows.
pub open spec fn is_square(grid: Seq<Seq<i32>>) -> bool {
    forall|i: int| 0 <= i < grid.len() ==> (#[trigger] grid[i]).len() == grid.len()
}

/// The grid that agrees with `grid` everywhere but in cell `(i, j)`, which holds `weight`.
pub open spec fn with_cell(grid: Seq<Seq<i32>>, i: int, j: int, weight: i32) -> Seq<Seq<i32>> {
    grid.update(i, grid[i].update(j, weight))
}

/// The columns of `row` that hold a strictly positive weight, in ascending order.
pub open spec fn positive_columns(row: Seq<i32>) -> Seq<int>
    decreases row.len(),
{
    if row.len() == 0 {
        Seq::empty()
    } else if row.last() > 0 {
        positive_columns(row.drop_last()).push(row.len() - 1)
    } else {
        positive_columns(row.drop_last())
    }
}

/// `positive_columns(row)` lists exactly the columns with a strictly positive
/// weight, each once, in strictly ascending order.
pub proof fn lemma_positive_columns(row: Seq<i32>)
    ensures
        positive_columns(row).len() <= row.len(),
        forall|k: int|
            0 <= k < positive_columns(row).len() ==> {
                &&& 0 <= (#[trigger] positive_columns(row)[k]) < row.len()
                &&& row[positive_columns(row)[k]] > 0
            },
        forall|k: int, l: int|
            0 <= k < l < positive_columns(row).len() ==> positive_columns(row)[k]
                < positive_columns(row)[l],
        forall|j: int| 0 <= j < row.len() && row[j] > 0 ==> positive_columns(row).contains(j),
    decreases row.len(),
{
    if row.len() > 0 {
        let rest = row.drop_last();
        lemma_positive_columns(rest);
        let cols = positive_columns(row);
        let prev = positive_columns(rest);
        assert forall|j: int| 0 <= j < row.len() && row[j] > 0 implies cols.contains(j) by {
            if j < row.len() - 1 {
                assert(prev.contains(j));
                let k = choose|k: int| 0 <= k < prev.len() && prev[k] == j;
                assert(cols[k] == j);
            } else {
                assert(cols[cols.len() - 1] == j);
            }
        }
    }
}

/// A sequence of node ids as mathematical integers.
pub open spec fn as_ints(nodes: Seq<usize>) -> Seq<int> {
    nodes.map_values(|v: usize| v as int)
}

impl Matrix {
    /// The number of nodes, as the field `n` holds it.
    pub closed spec fn nodes(&self) -> nat {
        self.n as nat
    }

    /// The matrix holds `n` rows of `n` weights each.
    pub open spec fn wf(&self) -> bool {
        &&& self@.len() == self.nodes()
        &&& is_square(self@)
    }

    /// The number of nodes. Verified code outside this module reads it here,
    /// since the field `n` is hidden from it.
    pub fn node_count(&self) -> (count: usize)
        ensures
            count == self.nodes(),
    {
        self.n
    }

    /// Creates a new instance of Matrix with `nodes` nodes, every cell holding `filler`.
    pub fn new(nodes: usize, filler: i32) -> (matrix: Matrix)
        ensures
            matrix.wf(),
            matrix.nodes() == nodes,
            forall|i: int, j: int|
                0 <= i < nodes && 0 <= j < nodes ==> (#[trigger] matrix@[i][j]) == filler,
    {
        let data: Vec<Row> = vec![Row::new(nodes, filler); nodes];
        Matrix { n: nodes, data }
    }

    /// Adds a weighted edge: cell `(n, m)` becomes `val`, whatever it held before.
    pub fn add_weighted_edge(&mut self, n: usize, m: usize, val: i32)
        requires
            old(self).wf(),
            n < old(self).nodes(),
            m < old(self).nodes(),
        ensures
            final(self).wf(),
            final(self).nodes() == old(self).nodes(),
            final(self)@ == with_cell(old(self)@, n as int, m as int, val),
            final(self)@[n as int][m as int] == val,
            forall|i: int, j: int|
                0 <= i < old(self).nodes() && 0 <= j < old(self).nodes() && !(i == n && j == m)
                    ==> (#[trigger] final(self)@[i][j]) == old(self)@[i][j],
    {
        let row = self.index_mut(n);
        let cell = row.index_mut(m);
        *cell = val;
    }

    /// Adds a directed edge without weight: cell `(n, m)` becomes `1`.
    pub fn add_directed_edge(&mut self, n: usize, m: usize)
        requires
            old(self).wf(),
            n < old(self).nodes(),
            m < old(self).nodes(),
        ensures
            final(self).wf(),
            final(self).nodes() == old(self).nodes(),
            final(self)@ == with_cell(old(self)@, n as int, m as int, 1),
            final(self)@[n as int][m as int] == 1,
            forall|i: int, j: int|
                0 <= i < old(self).nodes() && 0 <= j < old(self).nodes() && !(i == n && j == m)
                    ==> (#[trigger] final(self)@[i][j]) == old(self)@[i][j],
    {
        self.add_weighted_edge(n, m, 1);
    }

    /// Adds a directed edge with weight: cell `(n, m)` becomes `w`.
    pub fn add_w_directed_edge(&mut self, n: usize, m: usize, w: i32)
        requires
            old(self).wf(),
            n < old(self).nodes(),
            m < old(self).nodes(),
        ensures
            final(self).wf(),
            final(self).nodes() == old(self).nodes(),
            final(self)@ == with_cell(old(self)@, n as int, m as int, w),
            final(self)@[n as int][m as int] == w,
            forall|i: int, j: int|
                0 <= i < old(self).nodes() && 0 <= j < old(self).nodes() && !(i == n && j == m)
                    ==> (#[trigger] final(self)@[i][j]) == old(self)@[i][j],
    {
        self.add_weighted_edge(n, m, w);
    }

    /// Adds an undirected edge: cells `(n, m)` and `(m, n)` both become `1`.
    pub fn add_undirected_edge(&mut self, n: usize, m: usize)
        requires
            old(self).wf(),
            n < old(self).nodes(),
            m < old(self).nodes(),
        ensures
            final(self).wf(),
            final(self).nodes() == old(self).nodes(),
            final(self)@ == with_cell(
                with_cell(old(self)@, n as int, m as int, 1),
                m as int,
                n as int,
                1,
            ),
            final(self)@[n as int][m as int] == 1,
            final(self)@[m as int][n as int] == 1,
            forall|i: int, j: int|
                0 <= i < old(self).nodes() && 0 <= j < old(self).nodes() && !(i == n && j == m)
                    && !(i == m && j == n) ==> (#[trigger] final(self)@[i][j]) == old(self)@[i][j],
    {
        self.add_weighted_edge(n, m, 1);
        self.add_weighted_edge(m, n, 1);
    }

    /// Returns true if `node` has adjacent nodes. On a matrix without nodes
    /// no node has any.
    pub fn has_adjs(&self, node: usize) -> (found: bool)
        requires
            self.wf(),
            self.nodes() == 0 || node < self.nodes(),
        ensures
            self.nodes() == 0 ==> !found,
            node < self.nodes() ==> found == (exists|j: int|
                0 <= j < self.nodes() && self@[node as int][j] > 0),
            node < self.nodes() ==> found == (positive_columns(self@[node as int]).len() > 0),
    {
        let adjs = self.get_adjs(node);
        proof {
            if adjs@.len() > 0 {
                assert(self@[node as int][adjs@[0] as int] > 0);
            }
        }
        !adjs.is_empty()
    }

    /// Returns the nodes adjacent to `node`: every column of its row that holds
    /// a strictly positive weight, in ascending order. On a matrix without
    /// nodes the list is empty.
    pub fn get_adjs(&self, node: usize) -> (adjs: Vec<usize>)
        requires
            self.wf(),
            self.nodes() == 0 || node < self.nodes(),
        ensures
            self.nodes() == 0 ==> adjs@.len() == 0,
            node < self.nodes() ==> as_ints(adjs@) == positive_columns(self@[node as int]),
            node < self.nodes() ==> forall|k: int|
                0 <= k < adjs@.len() ==> (#[trigger] adjs@[k]) < self.nodes()
                    && self@[node as int][adjs@[k] as int] > 0,
            forall|k: int, l: int| 0 <= k < l < adjs@.len() ==> adjs@[k] < adjs@[l],
            node < self.nodes() ==> forall|j: int|
                0 <= j < self.nodes() && self@[node as int][j] > 0 ==> adjs@.contains(j as usize),
    {
        let ghost row = self@[node as int];
        let mut adjs: Vec<usize> = Vec::new();
        let mut j: usize = 0;
        while j < self.n
            invariant
                self.wf(),
                self.n == 0 || node < self.n,
                row == self@[node as int],
                j <= self.n,
                as_ints(adjs@) =~= positive_columns(row.take(j as int)),
            decreases self.n - j,
        {
            proof {
                assert(row.take(j + 1).drop_last() =~= row.take(j as int));
            }
            if self[node][j] > 0 {
                adjs.push(j);
            }
            j += 1;
        }
        proof {
            if node < self.n {
                assert(row.take(j as int) =~= row);
                lemma_positive_columns(row);
                let cols = positive_columns(row);
                assert forall|k: int| 0 <= k < adjs@.len() implies (#[trigger] adjs@[k])
                    < self.nodes() && row[adjs@[k] as int] > 0 by {
                    assert(cols[k] == adjs@[k] as int);
                }
                assert forall|k: int, l: int| 0 <= k < l < adjs@.len() implies adjs@[k]
                    < adjs@[l] by {
                    assert(cols[k] == adjs@[k] as int);
                    assert(cols[l] == adjs@[l] as int);
                }
                assert forall|j: int| 0 <= j < self.nodes() && row[j] > 0 implies adjs@.contains(
                    j as usize,
                ) by {
                    assert(cols.contains(j));
                    let k = choose|k: int| 0 <= k < cols.len() && cols[k] == j;
                    assert(cols[k] == adjs@[k] as int);
                }
            }
        }
        adjs
    }

    /// Returns the number of nodes adjacent to `node`, which is `0` on a
    /// matrix without nodes.
    pub fn adjs_count(&self, node: usize) -> (count: usize)
        requires
            self.wf(),
            self.nodes() == 0 || node < self.nodes(),
        ensures
            self.nodes() == 0 ==> count == 0,
            node < self.nodes() ==> count == positive_columns(self@[node as int]).len(),
    {
        let adjs = self.get_adjs(node);
        assert(as_ints(adjs@).len() == adjs@.len());
        adjs.len()
    }
}

} // verus!
