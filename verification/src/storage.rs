//! Storage for components that are kept outside the archetype columns.

use vstd::prelude::*;
use crate::component::Stored;

verus! {

/// The values of one component type, keyed by entity index.
pub struct SparseArray {
    pub(crate) cells: Vec<Option<Stored>>,
}

impl SparseArray {
    /// The cell stored for entity index `index`, if there is one.
    pub open(crate) spec fn cell(&self, index: u32) -> Option<Stored> {
        if index < self.cells@.len() {
            self.cells@[index as int]
        } else {
            None
        }
    }

    pub(crate) fn new() -> (array: SparseArray)
        ensures
            forall|index: u32| array.cell(index).is_none(),
    {
        SparseArray { cells: Vec::new() }
    }

    pub(crate) fn get(&self, index: u32) -> (r: Option<Stored>)
        ensures
            r == self.cell(index),
    {
        let i: usize = index as usize;
        if i < self.cells.len() {
            self.cells[i]
        } else {
            None
        }
    }

    /// Stores `cell` for entity index `index`.
    pub(crate) fn insert(&mut self, index: u32, cell: Stored)
        ensures
            final(self).cell(index) == Some(cell),
            forall|other: u32| other != index ==> final(self).cell(other) == old(self).cell(other),
    {
        let i: usize = index as usize;
        while self.cells.len() <= i
            invariant
                forall|other: u32| self.cell(other) == old(self).cell(other),
            decreases i + 1 - self.cells@.len(),
        {
            self.cells.push(None);
        }
        self.cells[i] = Some(cell);
    }

    /// Forgets the cell of entity index `index` and returns it.
    pub(crate) fn remove(&mut self, index: u32) -> (r: Option<Stored>)
        ensures
            r == old(self).cell(index),
            final(self).cell(index).is_none(),
            forall|other: u32| other != index ==> final(self).cell(other) == old(self).cell(other),
    {
        let i: usize = index as usize;
        if i < self.cells.len() {
            let cell = self.cells[i];
            self.cells[i] = None;
            cell
        } else {
            None
        }
    }

    /// Rebases the counters of every cell against `global`.
    pub(crate) fn check_counters(&mut self, global: u32)
        ensures
            final(self).cells@.len() == old(self).cells@.len(),
            forall|i: int|
                0 <= i < old(self).cells@.len()
                    ==> #[trigger] final(self).cells@[i] == (match old(self).cells@[i] {
                    Some(cell) => Some(cell.rebased(global)),
                    None => None,
                }),
    {
        let mut i: usize = 0;
        while i < self.cells.len()
            invariant
                i <= self.cells@.len(),
                self.cells@.len() == old(self).cells@.len(),
                forall|j: int|
                    0 <= j < i ==> #[trigger] self.cells@[j] == (match old(self).cells@[j] {
                        Some(cell) => Some(cell.rebased(global)),
                        None => None,
                    }),
                forall|j: int| i <= j < self.cells@.len()
                    ==> #[trigger] self.cells@[j] == old(self).cells@[j],
            decreases self.cells@.len() - i,
        {
            match self.cells[i] {
                Some(cell) => {
                    let mut cell = cell;
                    cell.check_counters(global);
                    self.cells[i] = Some(cell);
                },
                None => {},
            }
            i += 1;
        }
    }
}

} // verus!
