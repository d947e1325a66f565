//! Owned session for inner-cell edits.

use vstd::prelude::*;
use crate::error::StbError;
use crate::hash::spec_stb_hash;
use crate::table::{Stb, StbView, inner_edit_outcome, update_cell};

verus! {

/// Scoped edit session: batch **inner-cell** changes, then [`Self::finish`] to recover the [`Stb`].
///
/// Only [`Stb::set_inner_cell`] is exposed; row/column group tables stay valid after each
/// call, so [`Self::finish`] does not rebuild them, it only returns ownership.
pub struct StbInnerCells {
    stb: Stb,
}

impl StbInnerCells {
    /// The table being edited.
    pub closed spec fn table(&self) -> StbView {
        self.stb@
    }

    /// The edited table is well formed.
    pub closed spec fn inv(&self) -> bool {
        self.stb.wf()
    }

    /// Start a session on `stb`.
    pub fn new(stb: Stb) -> (s: Self)
        requires
            stb.wf(),
        ensures
            s.table() == stb@,
            s.inv(),
    {
        StbInnerCells { stb }
    }

    /// Edit one inner cell; see `Stb::set_inner_cell`.
    pub fn set_inner_cell(&mut self, row: usize, col: usize, value: String) -> (res: Result<(), StbError>)
        requires
            old(self).inv(),
        ensures
            final(self).inv(),
            (row == 0 || col == 0) ==> res == Err::<(), StbError>(StbError::NotInnerCell { row, col })
                && final(self).table() == old(self).table(),
            row != 0 && col != 0 && (row >= old(self).table().num_rows() || col >= old(
                self,
            ).table().num_cols()) ==> res == Err::<(), StbError>(
                StbError::CellOutOfBounds { row, col },
            ) && final(self).table() == old(self).table(),
            row != 0 && col != 0 && row < old(self).table().num_rows() && col < old(
                self,
            ).table().num_cols() ==> res is Ok && final(self).table() == (StbView {
                cells: update_cell(old(self).table().cells, row as int, col as int, value@),
                hashes: update_cell(
                    old(self).table().hashes,
                    row as int,
                    col as int,
                    spec_stb_hash(value@),
                ),
                ..old(self).table()
            }),
            old(self).table().consistent() ==> final(self).table().consistent(),
            (res, final(self).table()) == inner_edit_outcome(old(self).table(), row, col, value@),
    {
        self.stb.set_inner_cell(row, col, value)
    }

    /// Read the table while editing.
    pub fn stb(&self) -> (t: &Stb)
        ensures
            t@ == self.table(),
    {
        &self.stb
    }

    /// End the session and return the table.
    pub fn finish(self) -> (t: Stb)
        ensures
            t@ == self.table(),
            self.inv() ==> t.wf(),
    {
        self.stb
    }
}

} // verus!
