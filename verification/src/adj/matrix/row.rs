//! One row of an adjacency matrix: the weights of the edges that leave a node.

use vstd::prelude::*;

verus! {

/// A sequence of edge weights whose length is fixed when the row is created.
pub struct Row {
    data: Vec<i32>,
}

impl View for Row {
    type V = Seq<i32>;

    closed spec fn view(&self) -> Seq<i32> {
        self.data@
    }
}

impl Clone for Row {
    /// A row with the same weights.
    fn clone(&self) -> (row: Row)
        ensures
            row@ == self@,
    {
        Row { data: self.data.clone() }
    }
}

impl core::ops::Index<usize> for Row {
    type Output = i32;

    /// The weight stored at `index`.
    fn index(&self, index: usize) -> (weight: &i32)
        ensures
            *weight == self@[index as int],
    {
        &self.data[index]
    }
}

impl vstd::std_specs::core::IndexSpecImpl<usize> for Row {
    open spec fn index_req(&self, index: &usize) -> bool {
        *index < self@.len()
    }
}

impl core::ops::IndexMut<usize> for Row {
    /// The slot at `index`, for writing a weight into it.
    fn index_mut(&mut self, index: usize) -> (weight: &mut i32)
        requires
            index < old(self)@.len(),
        ensures
            *weight == old(self)@[index as int],
            final(self)@ == old(self)@.update(index as int, *final(weight)),
    {
        &mut self.data[index]
    }
}

impl Row {
    /// Creates a row of `size` slots, each holding `filler`.
    pub fn new(size: usize, filler: i32) -> (row: Row)
        ensures
            row@ == Seq::new(size as nat, |j: int| filler),
    {
        let data: Vec<i32> = vec![filler; size];
        Row { data }
    }

    /// The number of slots in the row.
    pub fn len(&self) -> (len: usize)
        ensures
            len == self@.len(),
    {
        self.data.len()
    }
}

} // verus!
