//! Scoped edit session on one row or column of a table.

use vstd::prelude::*;
use crate::error::StbError;
use crate::table::{
    Stb, StbView, edits_on_line, finish_ok, finish_view, is_first_col_with, is_first_row_with,
    is_min_col_hit, is_min_row_hit, line_access_error, line_access_ok, spec_line_coord,
    spec_line_len, update_cell, write_line,
};
use crate::table_line::{LineReplaceMode, TableLine};
use crate::text::strings_view;

verus! {

/// Smallest index on the cross axis that belongs to a line in `mode` (inner mode
/// omits the key index `0`).
pub open spec fn spec_min_cross(mode: LineReplaceMode) -> nat {
    match mode {
        LineReplaceMode::Full => 0,
        LineReplaceMode::Inner => 1,
    }
}

/// The cell that `key` names on `line`: on a row line `key` is matched against the
/// column headers (row `0`), on a column line against the row keys (column `0`),
/// through the group buckets; inner mode skips cross index `0`.
pub open spec fn cross_axis_ok(v: StbView, line: TableLine, mode: LineReplaceMode, key: Seq<char>, rc: (usize, usize)) -> bool {
    match line {
        TableLine::Row(r) => rc.0 == r && is_min_col_hit(v, key, spec_min_cross(mode), Some(rc.1)),
        TableLine::Column(c) => rc.1 == c && is_min_row_hit(v, key, spec_min_cross(mode), Some(rc.0)),
    }
}

/// The error that a cross-axis key lookup reports when `key` names no cell on `line`.
pub open spec fn cross_axis_err(v: StbView, line: TableLine, mode: LineReplaceMode, key: Seq<char>, e: StbError) -> bool {
    let m = spec_min_cross(mode);
    match line {
        TableLine::Row(_) => is_min_col_hit(v, key, m, None) && if m > 0 && is_min_col_hit(
            v,
            key,
            0,
            Some(0),
        ) {
            e matches StbError::LineCrossAxisKeyOutsideLine(s) && s@ == key
        } else {
            e matches StbError::ColumnHeaderNotFound(s) && s@ == key
        },
        TableLine::Column(_) => is_min_row_hit(v, key, m, None) && if m > 0 && is_min_row_hit(
            v,
            key,
            0,
            Some(0),
        ) {
            e matches StbError::LineCrossAxisKeyOutsideLine(s) && s@ == key
        } else {
            e matches StbError::RowKeyNotFound(s) && s@ == key
        },
    }
}

/// Opening a line session on table `v`: the session's table, or the error.
pub open spec fn open_line(v: StbView, line: TableLine, mode: LineReplaceMode) -> Result<StbView, StbError> {
    if line_access_ok(v, line, mode) {
        Ok(v)
    } else {
        Err(line_access_error(line, mode))
    }
}

/// Setting the cells of the line of a session whose table is `w`: the result and
/// the session's table after it.
pub open spec fn set_line_step(w: StbView, line: TableLine, mode: LineReplaceMode, vals: Seq<Seq<char>>) -> (
    Result<(), StbError>,
    StbView,
) {
    if vals.len() != spec_line_len(w, line, mode) {
        (
            Err(
                StbError::LineReplaceBadLen {
                    expected: spec_line_len(w, line, mode) as usize,
                    found: vals.len() as usize,
                },
            ),
            w,
        )
    } else {
        (Ok(()), StbView { cells: write_line(w.cells, line, mode, vals), ..w })
    }
}

/// The cells along the line, in line order.
pub open spec fn line_cells(v: StbView, line: TableLine, mode: LineReplaceMode) -> Seq<Seq<char>> {
    Seq::new(
        spec_line_len(v, line, mode),
        |i: int| v.cells[spec_line_coord(line, mode, i).0][spec_line_coord(line, mode, i).1],
    )
}

/// Opening a line session on `v`, setting its cells to `vals` and finishing it,
/// stopping at the first error: the result and the table afterwards.
pub open spec fn line_session(v: StbView, line: TableLine, mode: LineReplaceMode, vals: Seq<Seq<char>>) -> (
    Result<(), StbError>,
    StbView,
) {
    match open_line(v, line, mode) {
        Err(e) => (Err(e), v),
        Ok(w) => {
            let (r, w2) = set_line_step(w, line, mode, vals);
            match r {
                Err(e) => (Err(e), w2),
                Ok(_) => (Ok(()), finish_view(w2, line, mode)),
            }
        },
    }
}

fn min_cross_axis_index(mode: LineReplaceMode) -> (m: usize)
    ensures
        m == spec_min_cross(mode),
{
    match mode {
        LineReplaceMode::Full => 0,
        LineReplaceMode::Inner => 1,
    }
}

/// Column on a row line whose header is `key`.
fn resolve_col_for_row_line(stb: &Stb, mode: LineReplaceMode, key: &str) -> (res: Result<usize, StbError>)
    requires
        stb.wf(),
        stb@.groups_shaped(),
    ensures
        res matches Ok(c) ==> cross_axis_ok(stb@, TableLine::Row(0), mode, key@, (0, c)),
        res matches Err(e) ==> cross_axis_err(stb@, TableLine::Row(0), mode, key@, e),
{
    let min = min_cross_axis_index(mode);
    match stb.column_index_for_key(key, min) {
        Some(i) => Ok(i),
        None => {
            if min > 0 {
                let at0 = stb.column_index_for_key(key, 0);
                if let Some(i) = at0 {
                    if i < min {
                        return Err(StbError::LineCrossAxisKeyOutsideLine(key.to_owned()));
                    }
                }
            }
            Err(StbError::ColumnHeaderNotFound(key.to_owned()))
        },
    }
}

/// Row on a column line whose first-column key is `key`.
fn resolve_row_for_column_line(stb: &Stb, mode: LineReplaceMode, key: &str) -> (res: Result<usize, StbError>)
    requires
        stb.wf(),
        stb@.groups_shaped(),
    ensures
        res matches Ok(r) ==> cross_axis_ok(stb@, TableLine::Column(0), mode, key@, (r, 0)),
        res matches Err(e) ==> cross_axis_err(stb@, TableLine::Column(0), mode, key@, e),
{
    let min = min_cross_axis_index(mode);
    match stb.row_index_for_key(key, min) {
        Some(i) => Ok(i),
        None => {
            if min > 0 {
                let at0 = stb.row_index_for_key(key, 0);
                if let Some(i) = at0 {
                    if i < min {
                        return Err(StbError::LineCrossAxisKeyOutsideLine(key.to_owned()));
                    }
                }
            }
            Err(StbError::RowKeyNotFound(key.to_owned()))
        },
    }
}

/// Table coordinates of the cell that `key` names on `line`.
fn resolve_cross_axis_cell(stb: &Stb, line: TableLine, mode: LineReplaceMode, key: &str) -> (res: Result<
    (usize, usize),
    StbError,
>)
    requires
        stb.wf(),
        stb@.groups_shaped(),
    ensures
        res matches Ok(rc) ==> cross_axis_ok(stb@, line, mode, key@, rc),
        res matches Err(e) ==> cross_axis_err(stb@, line, mode, key@, e),
{
    match line {
        TableLine::Row(r) => {
            let col = resolve_col_for_row_line(stb, mode, key)?;
            Ok((r, col))
        },
        TableLine::Column(c) => {
            let r = resolve_row_for_column_line(stb, mode, key)?;
            Ok((r, c))
        },
    }
}

/// Scoped edit session: one **row** or **column** of the table, then [`Self::finish`]
/// to apply the cell hashes and (in [`LineReplaceMode::Full`]) group-table rebuilds
/// for that line.
///
/// Indices along the line are symmetric: on `TableLine::Row(r)`, index `i` is column
/// `i` (full) or `i + 1` (inner); on `TableLine::Column(c)`, index `i` is table row `i`
/// (full) or `i + 1` (inner).
pub struct StbLine<'a> {
    stb: &'a mut Stb,
    line: TableLine,
    mode: LineReplaceMode,
    base: Ghost<StbView>,
}

impl<'a> StbLine<'a> {
    /// The table as it currently is, during the session.
    pub closed spec fn table(&self) -> StbView {
        self.stb@
    }

    /// The table as it was when the session began.
    pub closed spec fn base(&self) -> StbView {
        self.base@
    }

    /// The borrowed table, for relating the session to the table it edits.
    pub closed spec fn target(&self) -> &'a mut Stb {
        self.stb
    }

    pub closed spec fn line_spec(&self) -> TableLine {
        self.line
    }

    pub closed spec fn mode_spec(&self) -> LineReplaceMode {
        self.mode
    }

    /// Session invariant: a well-formed table whose line is accessible, changed since
    /// the session began only in the strings of cells on the line.
    pub closed spec fn inv(&self) -> bool {
        &&& self.stb.wf()
        &&& self.base@.wf()
        &&& line_access_ok(self.base@, self.line, self.mode)
        &&& line_access_ok(self.stb@, self.line, self.mode)
        &&& edits_on_line(self.base@, self.stb@, self.line, self.mode)
        &&& self.stb@.num_rows() == self.base@.num_rows()
        &&& self.stb@.num_cols() == self.base@.num_cols()
    }

    /// Coordinates of position `i` along this line.
    pub open spec fn coord(&self, i: int) -> (int, int) {
        spec_line_coord(self.line_spec(), self.mode_spec(), i)
    }

    /// Number of cells along this line.
    pub open spec fn spec_len(&self) -> nat {
        spec_line_len(self.table(), self.line_spec(), self.mode_spec())
    }

    /// Read the underlying table while this line is borrowed.
    pub fn stb(&self) -> (t: &Stb)
        ensures
            t@ == self.table(),
    {
        &*self.stb
    }

    /// Number of cells along this line (same rules as `Stb::replace_line` lengths).
    pub fn len(&self) -> (n: usize)
        requires
            self.inv(),
        ensures
            n == self.spec_len(),
    {
        self.stb.line_len(self.line, self.mode)
    }

    /// Read one cell along the line (`0 .. len()`).
    pub fn get(&self, i: usize) -> (res: Result<&str, StbError>)
        requires
            self.inv(),
        ensures
            i >= self.spec_len() ==> (res matches Err(e) && e == (StbError::LineIndexOutOfBounds {
                len: self.spec_len() as usize,
                index: i,
            })),
            i < self.spec_len() ==> (res matches Ok(s) && s@ == self.table().cells[self.coord(
                i as int,
            ).0][self.coord(i as int).1]),
    {
        let (row, col) = self.stb.line_coord(self.line, self.mode, i)?;
        match self.stb.cell(row, col) {
            Some(s) => Ok(s),
            None => Err(StbError::CellOutOfBounds { row, col }),
        }
    }

    /// Mutate one cell along the line (`0 .. len()`). Call [`Self::finish`] afterward.
    pub fn get_mut(&mut self, i: usize) -> (res: Result<&mut String, StbError>)
        requires
            old(self).inv(),
        ensures
            final(self).inv(),
            final(self).line_spec() == old(self).line_spec(),
            final(self).mode_spec() == old(self).mode_spec(),
            final(self).base() == old(self).base(),
            *final(final(self).target()) == *final(old(self).target()),
            i >= old(self).spec_len() ==> (res matches Err(e) && e == (
            StbError::LineIndexOutOfBounds { len: old(self).spec_len() as usize, index: i }))
                && final(self).table() == old(self).table(),
            i < old(self).spec_len() ==> (res matches Ok(s) && s@ == old(self).table().cells[old(
                self,
            ).coord(i as int).0][old(self).coord(i as int).1] && final(self).table() == (StbView {
                cells: update_cell(
                    old(self).table().cells,
                    old(self).coord(i as int).0,
                    old(self).coord(i as int).1,
                    final(s)@,
                ),
                ..old(self).table()
            })),
    {
        let (row, col) = self.stb.line_coord(self.line, self.mode, i)?;
        proof {
            let v = self.stb@;
            let b = self.base@;
            assert forall|x: Seq<char>| edits_on_line(
                b,
                (StbView { cells: #[trigger] update_cell(v.cells, row as int, col as int, x), ..v }),
                self.line,
                self.mode,
            ) by {
                let w = StbView { cells: update_cell(v.cells, row as int, col as int, x), ..v };
                assert forall|r: int| 0 <= r < b.cells.len() implies (#[trigger] w.cells[r]).len()
                    == b.cells[r].len() by {}
            }
        }
        self.stb.cell_string_mut(row, col)
    }

    /// Copy the current line into an owned `Vec`. Edit it, then [`Self::set_line`], then
    /// [`Self::finish`].
    pub fn get_line(&self) -> (cells: Vec<String>)
        requires
            self.inv(),
        ensures
            cells@.len() == self.spec_len(),
            strings_view(cells@) == line_cells(self.table(), self.line_spec(), self.mode_spec()),
            forall|i: int|
                0 <= i < cells@.len() ==> (#[trigger] cells@[i])@ == self.table().cells[self.coord(
                    i,
                ).0][self.coord(i).1],
    {
        let n = self.len();
        let mut out: Vec<String> = Vec::new();
        let mut i: usize = 0;
        while i < n
            invariant
                self.inv(),
                n == self.spec_len(),
                i <= n,
                out@.len() == i,
                forall|j: int|
                    0 <= j < i ==> (#[trigger] out@[j])@ == self.table().cells[self.coord(j).0][self.coord(
                        j,
                    ).1],
            decreases n - i,
        {
            let s = match self.get(i) {
                Ok(s) => s,
                Err(_) => {
                    proof {
                        assert(false);
                    }
                    ""
                },
            };
            out.push(s.to_owned());
            i = i + 1;
        }
        out
    }

    /// Replace every string along the line. Does not refresh hashes or group tables
    /// until [`Self::finish`].
    pub fn set_line(&mut self, cells: Vec<String>) -> (res: Result<(), StbError>)
        requires
            old(self).inv(),
        ensures
            final(self).inv(),
            final(self).line_spec() == old(self).line_spec(),
            final(self).mode_spec() == old(self).mode_spec(),
            final(self).base() == old(self).base(),
            *final(final(self).target()) == *final(old(self).target()),
            cells@.len() != old(self).spec_len() ==> res == Err::<(), StbError>(
                StbError::LineReplaceBadLen {
                    expected: old(self).spec_len() as usize,
                    found: cells@.len() as usize,
                },
            ) && final(self).table() == old(self).table(),
            cells@.len() == old(self).spec_len() ==> res is Ok && final(self).table() == (StbView {
                cells: write_line(
                    old(self).table().cells,
                    old(self).line_spec(),
                    old(self).mode_spec(),
                    strings_view(cells@),
                ),
                ..old(self).table()
            }),
            (res, final(self).table()) == set_line_step(
                old(self).table(),
                old(self).line_spec(),
                old(self).mode_spec(),
                strings_view(cells@),
            ),
    {
        let ghost v = self.stb@;
        let ghost vals = strings_view(cells@);
        assert(vals.len() == cells@.len());
        let r = self.stb.write_line_strings(self.line, self.mode, cells);
        proof {
            let w = self.stb@;
            let b = self.base@;
            assert forall|r: int| 0 <= r < b.cells.len() implies (#[trigger] w.cells[r]).len()
                == b.cells[r].len() by {}
        }
        match r {
            Ok(_) => Ok(()),
            Err(e) => Err(e),
        }
    }

    /// Apply hashes (and in full mode, group rebuilds) for this line.
    pub fn finish(self)
        requires
            self.inv(),
            finish_ok(self.table(), self.line_spec(), self.mode_spec()),
        ensures
            final(self.target())@ == finish_view(self.table(), self.line_spec(), self.mode_spec()),
            self.base().consistent() ==> final(self.target())@.consistent(),
    {
        proof {
            if self.base@.consistent() {
                crate::table::lemma_finish_restores_consistency(self.base@, self.stb@, self.line, self.mode);
            }
        }
        self.stb.finish_line_edit(self.line, self.mode);
    }

    /// Read one cell by **cross-axis key** (header name on a row line, first-column key
    /// on a column line).
    pub fn get_by_cross_axis_key(&self, key: &str) -> (res: Result<&str, StbError>)
        requires
            self.inv(),
            self.table().groups_shaped(),
        ensures
            res matches Ok(s) ==> exists|rc: (usize, usize)|
                #[trigger] cross_axis_ok(self.table(), self.line_spec(), self.mode_spec(), key@, rc)
                    && s@ == self.table().cells[rc.0 as int][rc.1 as int],
            res matches Err(e) ==> cross_axis_err(
                self.table(),
                self.line_spec(),
                self.mode_spec(),
                key@,
                e,
            ),
    {
        let stb: &Stb = self.stb;
        let (row, col) = resolve_cross_axis_cell(stb, self.line, self.mode, key)?;
        match stb.cell(row, col) {
            Some(s) => Ok(s),
            None => {
                proof {
                    assert(false);
                }
                Err(StbError::CellOutOfBounds { row, col })
            },
        }
    }

    /// Like [`Self::get_by_cross_axis_key`], but mutable. Call [`Self::finish`] afterward.
    pub fn get_mut_by_cross_axis_key(&mut self, key: &str) -> (res: Result<&mut String, StbError>)
        requires
            old(self).inv(),
            old(self).table().groups_shaped(),
        ensures
            final(self).inv(),
            final(self).line_spec() == old(self).line_spec(),
            final(self).mode_spec() == old(self).mode_spec(),
            final(self).base() == old(self).base(),
            *final(final(self).target()) == *final(old(self).target()),
            res matches Err(e) ==> cross_axis_err(
                old(self).table(),
                old(self).line_spec(),
                old(self).mode_spec(),
                key@,
                e,
            ) && final(self).table() == old(self).table(),
            res matches Ok(s) ==> exists|rc: (usize, usize)|
                #[trigger] cross_axis_ok(
                    old(self).table(),
                    old(self).line_spec(),
                    old(self).mode_spec(),
                    key@,
                    rc,
                ) && s@ == old(self).table().cells[rc.0 as int][rc.1 as int] && final(self).table()
                    == (StbView {
                    cells: update_cell(old(self).table().cells, rc.0 as int, rc.1 as int, final(s)@),
                    ..old(self).table()
                }),
    {
        let line = self.line;
        let mode = self.mode;
        let (row, col) = resolve_cross_axis_cell(self.stb, line, mode, key)?;
        proof {
            let v = self.stb@;
            let b = self.base@;
            assert forall|x: Seq<char>| edits_on_line(
                b,
                (StbView { cells: #[trigger] update_cell(v.cells, row as int, col as int, x), ..v }),
                self.line,
                self.mode,
            ) by {
                let w = StbView { cells: update_cell(v.cells, row as int, col as int, x), ..v };
                assert forall|r: int| 0 <= r < b.cells.len() implies (#[trigger] w.cells[r]).len()
                    == b.cells[r].len() by {}
            }
            assert(cross_axis_ok(v, line, mode, key@, (row, col)));
        }
        self.stb.cell_string_mut(row, col)
    }
}

impl Stb {
    /// Borrow one row or column for editing; finish with [`StbLine::finish`] after
    /// [`StbLine::get_mut`] or [`StbLine::set_line`].
    pub fn line_mut(&mut self, line: TableLine, mode: LineReplaceMode) -> (res: Result<
        StbLine<'_>,
        StbError,
    >)
        requires
            old(self).wf(),
        ensures
            res matches Ok(l) ==> line_access_ok(old(self)@, line, mode) && l.inv() && l.table()
                == old(self)@ && l.base() == old(self)@ && l.line_spec() == line && l.mode_spec()
                == mode && *final(l.target()) == *final(self),
            res matches Err(e) ==> !line_access_ok(old(self)@, line, mode) && e == line_access_error(
                line,
                mode,
            ) && *final(self) == *old(self),
            res matches Ok(l) ==> open_line(old(self)@, line, mode) == Ok::<StbView, StbError>(l.table()),
            res matches Err(e) ==> open_line(old(self)@, line, mode) == Err::<StbView, StbError>(e),
    {
        self.validate_line_access(line, mode)?;
        let ghost v = self@;
        proof {
            assert(edits_on_line(v, v, line, mode)) by {
                assert forall|r: int| 0 <= r < v.cells.len() implies (#[trigger] v.cells[r]).len()
                    == v.cells[r].len() by {}
            }
        }
        Ok(StbLine { stb: self, line, mode, base: Ghost(v) })
    }
}

} // verus!
