//! Addressing of whole rows and columns.

use vstd::prelude::*;

verus! {

/// Identifies a full **row** or **column** in table coordinates.
#[derive(Clone, Copy, Debug, PartialEq, Eq, Structural)]
pub enum TableLine {
    /// Table row index `0 .. num_rows` (row `0` is the header).
    Row(usize),
    /// Column index `0 .. num_cols` (column `0` is the first column).
    Column(usize),
}

/// Whether a line edit touches **key** cells at index `0` on the line's axis.
#[derive(Clone, Copy, Debug, PartialEq, Eq, Structural)]
pub enum LineReplaceMode {
    /// Only **inner** cells: on a row line, columns `1..`; on a column line, rows `1..`.
    Inner,
    /// The **full** line, including `(row, 0)` on a row or `(0, col)` on a column.
    Full,
}

} // verus!
