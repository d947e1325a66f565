//! The validated STB spreadsheet: a header row plus data rows, all rectangular,
//! with per-cell hashes and row/column group buckets.

use vstd::prelude::*;
use crate::error::{StbError, StbTablesValidation, TablesMismatchKind};
use crate::groups::{
    Group, GroupEntry, build_groups, entry_of, groups_view, spec_bucket_count, spec_build_groups,
};
use crate::hash::{spec_stb_hash, stb_hash};
use crate::table_line::{LineReplaceMode, TableLine};
use crate::text::strings_view;

verus! {

/// Mathematical model of an [`Stb`].
///
/// `cells[r][c]` is the cell at table row `r` and column `c`; row `0` is the
/// header. `hashes` has the same shape; `row_groups` and `col_groups` are the
/// bucketed key indexes as stored in the file.
pub struct StbView {
    pub cells: Seq<Seq<Seq<char>>>,
    pub hashes: Seq<Seq<u32>>,
    pub row_groups: Seq<Seq<GroupEntry>>,
    pub col_groups: Seq<Seq<GroupEntry>>,
}

/// Group keys of the rows: `(r, hash of cell (r, 0))` for every table row.
pub open spec fn row_keys(hashes: Seq<Seq<u32>>) -> Seq<GroupEntry> {
    Seq::new(hashes.len(), |i: int| GroupEntry { index: i as u32, hash: hashes[i][0] })
}

/// Group keys of the columns: `(c, hash of cell (0, c))` for the first `nc` columns.
pub open spec fn col_keys(hashes: Seq<Seq<u32>>, nc: nat) -> Seq<GroupEntry> {
    Seq::new(nc, |i: int| GroupEntry { index: i as u32, hash: hashes[0][i] })
}

/// Hashes of a line of cells.
pub open spec fn hash_line(line: Seq<Seq<char>>) -> Seq<u32> {
    line.map_values(|s: Seq<char>| spec_stb_hash(s))
}

/// Hashes of every cell.
pub open spec fn hashes_of(cells: Seq<Seq<Seq<char>>>) -> Seq<Seq<u32>> {
    cells.map_values(|line: Seq<Seq<char>>| hash_line(line))
}

/// Number of columns of a table given by its rows (the header's width).
pub open spec fn cols_of(cells: Seq<Seq<Seq<char>>>) -> nat {
    if cells.len() == 0 {
        0
    } else {
        cells[0].len()
    }
}

/// The table whose hashes and groups are all derived from `cells`.
pub open spec fn derived_view(cells: Seq<Seq<Seq<char>>>) -> StbView {
    let h = hashes_of(cells);
    StbView {
        cells,
        hashes: h,
        row_groups: spec_build_groups(row_keys(h), cells.len()),
        col_groups: spec_build_groups(col_keys(h, cols_of(cells)), cols_of(cells)),
    }
}

/// The cells of the table with header `columns` and data rows `rows`.
pub open spec fn table_cells(columns: Seq<String>, rows: Seq<Vec<String>>) -> Seq<Seq<Seq<char>>> {
    seq![strings_view(columns)] + rows.map_values(|r: Vec<String>| strings_view(r@))
}

/// `h` has `nr` rows of `nc` hashes each.
pub open spec fn dims_match(h: Seq<Vec<u32>>, nr: nat, nc: nat) -> bool {
    h.len() == nr && forall|i: int| 0 <= i < h.len() ==> (#[trigger] h[i])@.len() == nc
}

/// Every data row has width `n`.
pub open spec fn rectangular(n: nat, rows: Seq<Vec<String>>) -> bool {
    forall|i: int| 0 <= i < rows.len() ==> (#[trigger] rows[i])@.len() == n
}

/// `data_row` is the first data row whose width differs from `n`.
pub open spec fn first_bad_row(n: nat, rows: Seq<Vec<String>>, data_row: int) -> bool {
    &&& 0 <= data_row < rows.len()
    &&& rows[data_row]@.len() != n
    &&& forall|j: int| 0 <= j < data_row ==> (#[trigger] rows[j])@.len() == n
}

/// The error that `from_rows` reports for a non-rectangular table.
pub open spec fn is_rectangular_error(e: StbError, n: nat, rows: Seq<Vec<String>>) -> bool {
    e matches StbError::Rectangular { data_row, expected, found } && first_bad_row(
        n,
        rows,
        data_row as int,
    ) && expected == n && found == rows[data_row as int]@.len()
}

impl StbView {
    pub open spec fn num_rows(self) -> nat {
        self.cells.len()
    }

    pub open spec fn num_cols(self) -> nat {
        cols_of(self.cells)
    }

    /// Shape of a table: at least the header row, every row as wide as the
    /// header, a hash for every cell, and dimensions that fit the file's `u32`s.
    pub open spec fn wf(self) -> bool {
        &&& 1 <= self.cells.len() <= u32::MAX
        &&& self.num_cols() <= u32::MAX
        &&& forall|r: int| 0 <= r < self.cells.len() ==> (#[trigger] self.cells[r]).len() == self.num_cols()
        &&& self.hashes.len() == self.cells.len()
        &&& forall|r: int| 0 <= r < self.hashes.len() ==> (#[trigger] self.hashes[r]).len() == self.num_cols()
    }

    /// Every cell hash is the hash of the cell's string.
    pub open spec fn hashes_match(self) -> bool {
        forall|r: int, c: int|
            0 <= r < self.num_rows() && 0 <= c < self.num_cols() ==> #[trigger] self.hashes[r][c]
                == spec_stb_hash(self.cells[r][c])
    }

    /// The group tables are the buckets built from the key hashes.
    pub open spec fn groups_match(self) -> bool {
        &&& self.row_groups == spec_build_groups(row_keys(self.hashes), self.num_rows())
        &&& self.col_groups == spec_build_groups(
            col_keys(self.hashes, self.num_cols()),
            self.num_cols(),
        )
    }

    /// Hashes and groups are those derived from the strings.
    pub open spec fn consistent(self) -> bool {
        self.hashes_match() && self.groups_match()
    }

    /// Both group tables have the bucket count that the dimensions call for.
    pub open spec fn groups_shaped(self) -> bool {
        &&& self.row_groups.len() == spec_bucket_count(self.num_rows())
        &&& self.col_groups.len() == spec_bucket_count(self.num_cols())
    }
}

/// A validated STB spreadsheet: a header row plus data rows, all rectangular.
///
/// Table indices are zero-based: `row == 0` is the header, `col == 0` is the
/// first column. Cell hashes and row/column group buckets are kept consistent
/// with cell strings by every edit.
#[derive(Debug, Clone, PartialEq, Eq)]
pub struct Stb {
    columns: Vec<String>,
    rows: Vec<Vec<String>>,
    cell_hashes: Vec<Vec<u32>>,
    row_groups: Vec<Group>,
    col_groups: Vec<Group>,
}

impl View for Stb {
    type V = StbView;

    closed spec fn view(&self) -> StbView {
        StbView {
            cells: table_cells(self.columns@, self.rows@),
            hashes: self.cell_hashes@.map_values(|r: Vec<u32>| r@),
            row_groups: groups_view(self.row_groups@),
            col_groups: groups_view(self.col_groups@),
        }
    }
}

proof fn lemma_derived_consistent(cells: Seq<Seq<Seq<char>>>)
    requires
        1 <= cells.len(),
        forall|r: int| 0 <= r < cells.len() ==> (#[trigger] cells[r]).len() == cols_of(cells),
    ensures
        derived_view(cells).consistent(),
        derived_view(cells).groups_shaped(),
        derived_view(cells).hashes.len() == cells.len(),
        forall|r: int|
            0 <= r < cells.len() ==> (#[trigger] derived_view(cells).hashes[r]).len() == cols_of(
                cells,
            ),
{
}

/// Check that every data row is as wide as the header.
fn validate_rectangular(columns: &[String], rows: &[Vec<String>]) -> (res: Result<(), StbError>)
    ensures
        res is Ok <==> rectangular(columns@.len(), rows@),
        res matches Err(e) ==> is_rectangular_error(e, columns@.len(), rows@),
{
    let expected = columns.len();
    let mut i: usize = 0;
    while i < rows.len()
        invariant
            i <= rows@.len(),
            expected == columns@.len(),
            forall|j: int| 0 <= j < i ==> (#[trigger] rows@[j])@.len() == expected,
        decreases rows@.len() - i,
    {
        if rows[i].len() != expected {
            return Err(StbError::Rectangular { data_row: i, expected, found: rows[i].len() });
        }
        i = i + 1;
    }
    Ok(())
}

/// Hash every string of a line.
fn hash_strings(line: &[String]) -> (h: Vec<u32>)
    ensures
        h@ == hash_line(strings_view(line@)),
{
    let mut h: Vec<u32> = Vec::new();
    let mut i: usize = 0;
    while i < line.len()
        invariant
            i <= line@.len(),
            h@ =~= hash_line(strings_view(line@)).take(i as int),
        decreases line@.len() - i,
    {
        h.push(stb_hash(line[i].as_str()));
        i = i + 1;
    }
    assert(h@ =~= hash_line(strings_view(line@)));
    h
}

/// Rebuild the row-group table from the first column of `cell_hashes`.
pub(crate) fn rebuild_row_groups(cell_hashes: &Vec<Vec<u32>>) -> (g: Vec<Group>)
    requires
        cell_hashes@.len() <= u32::MAX,
        forall|r: int| 0 <= r < cell_hashes@.len() ==> (#[trigger] cell_hashes@[r])@.len() >= 1,
    ensures
        groups_view(g@) == spec_build_groups(
            row_keys(cell_hashes@.map_values(|r: Vec<u32>| r@)),
            cell_hashes@.len(),
        ),
{
    let ghost hv = cell_hashes@.map_values(|r: Vec<u32>| r@);
    let n = cell_hashes.len();
    let mut entries: Vec<(u32, u32)> = Vec::new();
    let mut i: usize = 0;
    while i < n
        invariant
            i <= n,
            n == cell_hashes@.len(),
            n <= u32::MAX,
            hv == cell_hashes@.map_values(|r: Vec<u32>| r@),
            forall|r: int| 0 <= r < cell_hashes@.len() ==> (#[trigger] cell_hashes@[r])@.len() >= 1,
            entries@.len() == i,
            forall|j: int| 0 <= j < i ==> #[trigger] entries@[j] == (j as u32, hv[j][0]),
        decreases n - i,
    {
        entries.push((i as u32, cell_hashes[i][0]));
        i = i + 1;
    }
    assert(entries@.map_values(|p: (u32, u32)| entry_of(p)) =~= row_keys(hv));
    build_groups(entries, n)
}

/// Rebuild the column-group table from the header row of `cell_hashes`.
pub(crate) fn rebuild_col_groups(cell_hashes: &Vec<Vec<u32>>, num_cols: usize) -> (g: Vec<Group>)
    requires
        num_cols <= u32::MAX,
        cell_hashes@.len() >= 1,
        cell_hashes@[0]@.len() >= num_cols,
    ensures
        groups_view(g@) == spec_build_groups(
            col_keys(cell_hashes@.map_values(|r: Vec<u32>| r@), num_cols as nat),
            num_cols as nat,
        ),
{
    let ghost hv = cell_hashes@.map_values(|r: Vec<u32>| r@);
    let mut entries: Vec<(u32, u32)> = Vec::new();
    let mut i: usize = 0;
    while i < num_cols
        invariant
            i <= num_cols,
            num_cols <= u32::MAX,
            cell_hashes@.len() >= 1,
            cell_hashes@[0]@.len() >= num_cols,
            hv == cell_hashes@.map_values(|r: Vec<u32>| r@),
            entries@.len() == i,
            forall|j: int| 0 <= j < i ==> #[trigger] entries@[j] == (j as u32, hv[0][j]),
        decreases num_cols - i,
    {
        entries.push((i as u32, cell_hashes[0][i]));
        i = i + 1;
    }
    assert(entries@.map_values(|p: (u32, u32)| entry_of(p)) =~= col_keys(hv, num_cols as nat));
    build_groups(entries, num_cols)
}

/// Hashes and group tables derived from the strings of a rectangular table.
fn build_tables(columns: &Vec<String>, rows: &Vec<Vec<String>>) -> (t: (
    Vec<Vec<u32>>,
    Vec<Group>,
    Vec<Group>,
))
    requires
        columns@.len() >= 1,
        columns@.len() <= u32::MAX,
        rows@.len() + 1 <= u32::MAX,
        rectangular(columns@.len(), rows@),
    ensures
        t.0@.map_values(|r: Vec<u32>| r@) == derived_view(table_cells(columns@, rows@)).hashes,
        groups_view(t.1@) == derived_view(table_cells(columns@, rows@)).row_groups,
        groups_view(t.2@) == derived_view(table_cells(columns@, rows@)).col_groups,
        t.0@.len() == rows@.len() + 1,
        forall|r: int| 0 <= r < t.0@.len() ==> (#[trigger] t.0@[r])@.len() == columns@.len(),
{
    let ghost cells = table_cells(columns@, rows@);
    let mut cell_hashes: Vec<Vec<u32>> = Vec::new();
    cell_hashes.push(hash_strings(columns.as_slice()));
    let mut i: usize = 0;
    while i < rows.len()
        invariant
            i <= rows@.len(),
            cells == table_cells(columns@, rows@),
            rectangular(columns@.len(), rows@),
            cell_hashes@.len() == i + 1,
            cell_hashes@.map_values(|r: Vec<u32>| r@) =~= hashes_of(cells).take(i + 1),
            forall|r: int| 0 <= r < cell_hashes@.len() ==> (#[trigger] cell_hashes@[r])@.len()
                == columns@.len(),
        decreases rows@.len() - i,
    {
        let h = hash_strings(rows[i].as_slice());
        assert(cells[i + 1] == strings_view(rows@[i as int]@));
        cell_hashes.push(h);
        i = i + 1;
    }
    let ghost hv = cell_hashes@.map_values(|r: Vec<u32>| r@);
    assert(hv =~= hashes_of(cells));
    let row_groups = rebuild_row_groups(&cell_hashes);
    let col_groups = rebuild_col_groups(&cell_hashes, columns.len());
    (cell_hashes, row_groups, col_groups)
}

/// Equality of two hash tables, row by row.
fn hashes_eq(a: &Vec<Vec<u32>>, b: &Vec<Vec<u32>>) -> (r: bool)
    ensures
        r == (a@.map_values(|v: Vec<u32>| v@) == b@.map_values(|v: Vec<u32>| v@)),
{
    let ghost av = a@.map_values(|v: Vec<u32>| v@);
    let ghost bv = b@.map_values(|v: Vec<u32>| v@);
    if a.len() != b.len() {
        assert(av.len() != bv.len());
        return false;
    }
    let mut i: usize = 0;
    while i < a.len()
        invariant
            i <= a@.len(),
            a@.len() == b@.len(),
            av == a@.map_values(|v: Vec<u32>| v@),
            bv == b@.map_values(|v: Vec<u32>| v@),
            forall|j: int| 0 <= j < i ==> av[j] == bv[j],
        decreases a@.len() - i,
    {
        let x = &a[i];
        let y = &b[i];
        if x.len() != y.len() {
            assert(av[i as int].len() != bv[i as int].len());
            return false;
        }
        let mut k: usize = 0;
        while k < x.len()
            invariant
                k <= x@.len(),
                x@.len() == y@.len(),
                0 <= i < av.len(),
                av.len() == bv.len(),
                av == a@.map_values(|v: Vec<u32>| v@),
                bv == b@.map_values(|v: Vec<u32>| v@),
                x@ == av[i as int],
                y@ == bv[i as int],
                forall|j: int| 0 <= j < k ==> x@[j] == y@[j],
            decreases x@.len() - k,
        {
            if x[k] != y[k] {
                assert(av[i as int][k as int] != bv[i as int][k as int]);
                assert(av[i as int] != bv[i as int]);
                assert(av != bv);
                return false;
            }
            k = k + 1;
        }
        assert(x@ =~= y@);
        i = i + 1;
    }
    assert(av =~= bv);
    true
}

/// Equality of two group tables, entry by entry.
pub fn groups_eq(a: &[Group], b: &[Group]) -> (r: bool)
    ensures
        r == (groups_view(a@) == groups_view(b@)),
{
    let ghost av = groups_view(a@);
    let ghost bv = groups_view(b@);
    if a.len() != b.len() {
        assert(av.len() != bv.len());
        return false;
    }
    let mut i: usize = 0;
    while i < a.len()
        invariant
            i <= a@.len(),
            a@.len() == b@.len(),
            av == groups_view(a@),
            bv == groups_view(b@),
            forall|j: int| 0 <= j < i ==> av[j] == bv[j],
        decreases a@.len() - i,
    {
        let x = &a[i].entries;
        let y = &b[i].entries;
        if x.len() != y.len() {
            assert(av[i as int].len() != bv[i as int].len());
            return false;
        }
        let mut k: usize = 0;
        while k < x.len()
            invariant
                k <= x@.len(),
                x@.len() == y@.len(),
                0 <= i < av.len(),
                av.len() == bv.len(),
                av == groups_view(a@),
                bv == groups_view(b@),
                x@ == av[i as int],
                y@ == bv[i as int],
                forall|j: int| 0 <= j < k ==> x@[j] == y@[j],
            decreases x@.len() - k,
        {
            if x[k].index != y[k].index || x[k].hash != y[k].hash {
                assert(av[i as int][k as int] != bv[i as int][k as int]);
                assert(av[i as int] != bv[i as int]);
                assert(av != bv);
                return false;
            }
            k = k + 1;
        }
        assert(x@ =~= y@);
        i = i + 1;
    }
    assert(av =~= bv);
    true
}

impl Stb {
    /// The shape invariant of a table.
    pub open spec fn wf(&self) -> bool {
        self@.wf()
    }

    /// Build a table from a header row and data rows.
    ///
    /// Returns an error if any data row does not have the same length as
    /// `columns`. Hashes and group buckets are computed from the strings.
    pub fn from_rows(columns: Vec<String>, rows: Vec<Vec<String>>) -> (res: Result<Self, StbError>)
        requires
            columns@.len() <= u32::MAX,
            rows@.len() + 1 <= u32::MAX,
            rectangular(columns@.len(), rows@) ==> columns@.len() >= 1,
        ensures
            res is Ok <==> rectangular(columns@.len(), rows@),
            res matches Ok(t) ==> t@ == derived_view(table_cells(columns@, rows@)) && t.wf()
                && t@.consistent(),
            res matches Err(e) ==> is_rectangular_error(e, columns@.len(), rows@),
    {
        validate_rectangular(columns.as_slice(), rows.as_slice())?;
        let (cell_hashes, row_groups, col_groups) = build_tables(&columns, &rows);
        let t = Stb { columns, rows, cell_hashes, row_groups, col_groups };
        proof {
            let cells = table_cells(t.columns@, t.rows@);
            assert forall|r: int| 0 <= r < cells.len() implies (#[trigger] cells[r]).len() == cols_of(
                cells,
            ) by {
                if r > 0 {
                    assert(cells[r] == strings_view(t.rows@[r - 1]@));
                }
            }
            lemma_derived_consistent(cells);
            assert(t@ == derived_view(cells));
        }
        Ok(t)
    }
}


/// The cells of `t` with cell `(r, c)` replaced by `v`.
pub open spec fn update_cell<T>(t: Seq<Seq<T>>, r: int, c: int, v: T) -> Seq<Seq<T>> {
    t.update(r, t[r].update(c, v))
}

impl Stb {
    /// Used by the STB binary reader after file contents are verified, and by callers
    /// that already hold derived tables.
    ///
    /// `validation` controls whether hashes and group buckets are checked
    /// against values derived from cell strings ([`StbTablesValidation::Full`]),
    /// or only dimensions ([`StbTablesValidation::DimensionsOnly`]).
    pub fn from_tables(
        columns: Vec<String>,
        rows: Vec<Vec<String>>,
        cell_hashes: Vec<Vec<u32>>,
        row_groups: Vec<Group>,
        col_groups: Vec<Group>,
        validation: StbTablesValidation,
    ) -> (res: Result<Self, StbError>)
        requires
            columns@.len() <= u32::MAX,
            rows@.len() + 1 <= u32::MAX,
            validation == StbTablesValidation::Full && rectangular(columns@.len(), rows@)
                && dims_match(cell_hashes@, rows@.len() + 1, columns@.len()) ==> columns@.len() >= 1,
        ensures
            ({
                let cells = table_cells(columns@, rows@);
                let hv = cell_hashes@.map_values(|r: Vec<u32>| r@);
                let full = validation == StbTablesValidation::Full;
                let d = derived_view(cells);
                match res {
                    Ok(t) => {
                        &&& rectangular(columns@.len(), rows@)
                        &&& dims_match(cell_hashes@, rows@.len() + 1, columns@.len())
                        &&& full ==> d.hashes == hv && d.row_groups == groups_view(row_groups@)
                            && d.col_groups == groups_view(col_groups@)
                        &&& t@ == StbView {
                            cells,
                            hashes: hv,
                            row_groups: groups_view(row_groups@),
                            col_groups: groups_view(col_groups@),
                        }
                        &&& t.wf()
                        &&& full ==> t@.consistent()
                    },
                    Err(e) => {
                        ||| !rectangular(columns@.len(), rows@) && is_rectangular_error(
                            e,
                            columns@.len(),
                            rows@,
                        )
                        ||| rectangular(columns@.len(), rows@) && cell_hashes@.len() != rows@.len() + 1
                            && e == StbError::InternalInvariant(
                            "cell_hashes height does not match row count",
                        )
                        ||| rectangular(columns@.len(), rows@) && cell_hashes@.len() == rows@.len() + 1
                            && !dims_match(cell_hashes@, rows@.len() + 1, columns@.len())
                            && e == StbError::InternalInvariant(
                            "cell_hashes row width does not match column count",
                        )
                        ||| rectangular(columns@.len(), rows@) && dims_match(
                            cell_hashes@,
                            rows@.len() + 1,
                            columns@.len(),
                        ) && full && {
                        ||| d.hashes != hv && e == StbError::TablesMismatch(
                            TablesMismatchKind::CellHashes,
                        )
                        ||| d.hashes == hv && d.row_groups != groups_view(row_groups@)
                            && e == StbError::TablesMismatch(TablesMismatchKind::RowGroups)
                        ||| d.hashes == hv && d.row_groups == groups_view(row_groups@)
                            && d.col_groups != groups_view(col_groups@) && e
                            == StbError::TablesMismatch(TablesMismatchKind::ColGroups)
                        }
                    },
                }
            }),
    {
        validate_rectangular(columns.as_slice(), rows.as_slice())?;
        let nr = rows.len() + 1;
        let nc = columns.len();
        if cell_hashes.len() != nr {
            return Err(StbError::InternalInvariant("cell_hashes height does not match row count"));
        }
        let mut i: usize = 0;
        while i < cell_hashes.len()
            invariant
                i <= cell_hashes@.len(),
                nc == columns@.len(),
                nr == rows@.len() + 1,
                cell_hashes@.len() == nr,
                rectangular(columns@.len(), rows@),
                forall|j: int| 0 <= j < i ==> (#[trigger] cell_hashes@[j])@.len() == nc,
            decreases cell_hashes@.len() - i,
        {
            if cell_hashes[i].len() != nc {
                return Err(
                    StbError::InternalInvariant("cell_hashes row width does not match column count"),
                );
            }
            i = i + 1;
        }
        if validation == StbTablesValidation::Full {
            let (expected_hashes, expected_row_groups, expected_col_groups) = build_tables(
                &columns,
                &rows,
            );
            if !hashes_eq(&expected_hashes, &cell_hashes) {
                return Err(StbError::TablesMismatch(TablesMismatchKind::CellHashes));
            }
            if !groups_eq(expected_row_groups.as_slice(), row_groups.as_slice()) {
                return Err(StbError::TablesMismatch(TablesMismatchKind::RowGroups));
            }
            if !groups_eq(expected_col_groups.as_slice(), col_groups.as_slice()) {
                return Err(StbError::TablesMismatch(TablesMismatchKind::ColGroups));
            }
        }
        let t = Stb { columns, rows, cell_hashes, row_groups, col_groups };
        proof {
            let cells = table_cells(t.columns@, t.rows@);
            assert forall|r: int| 0 <= r < cells.len() implies (#[trigger] cells[r]).len() == cols_of(
                cells,
            ) by {
                if r > 0 {
                    assert(cells[r] == strings_view(t.rows@[r - 1]@));
                }
            }
            if validation == StbTablesValidation::Full {
                lemma_derived_consistent(cells);
            }
        }
        Ok(t)
    }

    /// Column headers (row 0 of the logical table).
    pub fn columns(&self) -> (c: &[String])
        ensures
            strings_view(c@) == self@.cells[0],
    {
        self.columns.as_slice()
    }

    /// Data rows (everything after the header). Each row has `columns().len()` cells.
    pub fn rows(&self) -> (r: &[Vec<String>])
        ensures
            r@.len() + 1 == self@.num_rows(),
            forall|i: int| 0 <= i < r@.len() ==> strings_view((#[trigger] r@[i])@) == self@.cells[i + 1],
    {
        self.rows.as_slice()
    }

    /// Number of table rows (including the header row).
    pub fn num_rows(&self) -> (n: usize)
        requires
            self.wf(),
        ensures
            n == self@.num_rows(),
    {
        self.rows.len() + 1
    }

    /// Number of body rows (excluding the header); `num_rows() == num_body_rows() + 1`.
    pub fn num_body_rows(&self) -> (n: usize)
        ensures
            n + 1 == self@.num_rows(),
    {
        self.rows.len()
    }

    /// Number of columns.
    pub fn num_cols(&self) -> (n: usize)
        ensures
            n == self@.num_cols(),
    {
        self.columns.len()
    }

    /// Read one cell. `row` and `col` are table indices (`0 .. num_rows` and
    /// `0 .. num_cols`): row `0` is the header, column `0` is the first column.
    pub fn cell(&self, row: usize, col: usize) -> (r: Option<&str>)
        requires
            self.wf(),
        ensures
            r is Some <==> row < self@.num_rows() && col < self@.num_cols(),
            r matches Some(s) ==> s@ == self@.cells[row as int][col as int],
    {
        if col >= self.columns.len() {
            return None;
        }
        if row == 0 {
            return Some(self.columns[col].as_str());
        }
        let dr = row - 1;
        if dr >= self.rows.len() {
            return None;
        }
        proof {
            assert(self@.cells[row as int] == strings_view(self.rows@[dr as int]@));
        }
        Some(self.rows[dr][col].as_str())
    }

    /// Hash for one cell; indices follow [`Self::cell`].
    pub fn cell_hash(&self, row: usize, col: usize) -> (r: Option<u32>)
        requires
            self.wf(),
        ensures
            r is Some <==> row < self@.num_rows() && col < self@.num_cols(),
            r matches Some(h) ==> h == self@.hashes[row as int][col as int],
    {
        proof {
            if row < self@.num_rows() {
                assert(self@.hashes[row as int] == self.cell_hashes@[row as int]@);
            }
        }
        if row >= self.cell_hashes.len() {
            return None;
        }
        if col >= self.cell_hashes[row].len() {
            return None;
        }
        Some(self.cell_hashes[row][col])
    }

    /// Row-group index buckets.
    pub fn row_groups(&self) -> (g: &[Group])
        ensures
            groups_view(g@) == self@.row_groups,
    {
        self.row_groups.as_slice()
    }

    /// Column-group index buckets.
    pub fn col_groups(&self) -> (g: &[Group])
        ensures
            groups_view(g@) == self@.col_groups,
    {
        self.col_groups.as_slice()
    }
}


impl Stb {
    /// Edit a single **inner** cell (`row >= 1`, `col >= 1`).
    ///
    /// Does not change row/column group buckets (they depend only on the first
    /// column per row and the header row).
    pub fn set_inner_cell(&mut self, row: usize, col: usize, value: String) -> (res: Result<(), StbError>)
        requires
            old(self).wf(),
        ensures
            final(self).wf(),
            (row == 0 || col == 0) ==> res == Err::<(), StbError>(StbError::NotInnerCell { row, col })
                && final(self)@ == old(self)@,
            row != 0 && col != 0 && (row >= old(self)@.num_rows() || col >= old(self)@.num_cols())
                ==> res == Err::<(), StbError>(StbError::CellOutOfBounds { row, col }) && final(self)@
                == old(self)@,
            row != 0 && col != 0 && row < old(self)@.num_rows() && col < old(self)@.num_cols() ==> {
                &&& res is Ok
                &&& final(self)@ == StbView {
                    cells: update_cell(old(self)@.cells, row as int, col as int, value@),
                    hashes: update_cell(
                        old(self)@.hashes,
                        row as int,
                        col as int,
                        spec_stb_hash(value@),
                    ),
                    ..old(self)@
                }
            },
            old(self)@.consistent() ==> final(self)@.consistent(),
            (res, final(self)@) == inner_edit_outcome(old(self)@, row, col, value@),
    {
        if row == 0 || col == 0 {
            return Err(StbError::NotInnerCell { row, col });
        }
        let num_tr = self.rows.len() + 1;
        let num_c = self.columns.len();
        if row >= num_tr || col >= num_c {
            return Err(StbError::CellOutOfBounds { row, col });
        }
        let ghost old_view = self@;
        let ghost old_rows = self.rows@;
        let ghost v = value@;
        let data_row = row - 1;
        let h = stb_hash(value.as_str());
        proof {
            assert(self@.cells[row as int] == strings_view(self.rows@[data_row as int]@));
            assert(self@.hashes[row as int] == self.cell_hashes@[row as int]@);
        }
        self.rows[data_row][col] = value;
        self.cell_hashes[row][col] = h;
        proof {
            let nv = self@;
            assert(self.rows@ == old_rows.update(data_row as int, self.rows@[data_row as int]));
            assert(strings_view(self.rows@[data_row as int]@) =~= strings_view(
                old_rows[data_row as int]@,
            ).update(col as int, v));
            assert(nv.cells =~= update_cell(old_view.cells, row as int, col as int, v));
            assert(nv.hashes =~= update_cell(old_view.hashes, row as int, col as int, h));
            assert(row_keys(nv.hashes) =~= row_keys(old_view.hashes));
            assert(col_keys(nv.hashes, nv.num_cols()) =~= col_keys(old_view.hashes, old_view.num_cols()));
        }
        Ok(())
    }
}


impl Stb {
    /// Set the **row key** (first column of a data row, `row >= 1`). Rebuilds the
    /// row groups only.
    pub fn set_row_key(&mut self, row: usize, value: String) -> (res: Result<(), StbError>)
        requires
            old(self).wf(),
            1 <= row < old(self)@.num_rows() ==> old(self)@.num_cols() >= 1,
        ensures
            final(self).wf(),
            row < 1 ==> res == Err::<(), StbError>(StbError::RowKeyRequiresDataRow { row })
                && final(self)@ == old(self)@,
            row >= 1 && row >= old(self)@.num_rows() ==> res == Err::<(), StbError>(
                StbError::CellOutOfBounds { row, col: 0 },
            ) && final(self)@ == old(self)@,
            1 <= row < old(self)@.num_rows() ==> {
                let hashes = update_cell(old(self)@.hashes, row as int, 0, spec_stb_hash(value@));
                &&& res is Ok
                &&& final(self)@ == StbView {
                    cells: update_cell(old(self)@.cells, row as int, 0, value@),
                    hashes,
                    row_groups: spec_build_groups(row_keys(hashes), old(self)@.num_rows()),
                    col_groups: old(self)@.col_groups,
                }
            },
            old(self)@.consistent() ==> final(self)@.consistent(),
    {
        if row < 1 {
            return Err(StbError::RowKeyRequiresDataRow { row });
        }
        let num_tr = self.rows.len() + 1;
        if row >= num_tr {
            return Err(StbError::CellOutOfBounds { row, col: 0 });
        }
        let ghost old_view = self@;
        let ghost old_rows = self.rows@;
        let ghost v = value@;
        let data_row = row - 1;
        let h = stb_hash(value.as_str());
        proof {
            assert(self@.cells[row as int] == strings_view(self.rows@[data_row as int]@));
            assert(self@.hashes[row as int] == self.cell_hashes@[row as int]@);
        }
        self.rows[data_row][0] = value;
        self.cell_hashes[row][0] = h;
        proof {
            assert forall|r: int| 0 <= r < self.cell_hashes@.len() implies (
            #[trigger] self.cell_hashes@[r])@.len() >= 1 by {
                assert(old_view.hashes[r] == old(self).cell_hashes@[r]@);
            }
        }
        self.row_groups = rebuild_row_groups(&self.cell_hashes);
        proof {
            let nv = self@;
            assert(self.rows@ == old_rows.update(data_row as int, self.rows@[data_row as int]));
            assert(strings_view(self.rows@[data_row as int]@) =~= strings_view(
                old_rows[data_row as int]@,
            ).update(0, v));
            assert(nv.cells =~= update_cell(old_view.cells, row as int, 0, v));
            assert(nv.hashes =~= update_cell(old_view.hashes, row as int, 0, h));
            assert(col_keys(nv.hashes, nv.num_cols()) =~= col_keys(old_view.hashes, old_view.num_cols()));
        }
        Ok(())
    }

    /// Set the **column key** (header row, `row == 0`). Rebuilds the column groups;
    /// if `col == 0`, also rebuilds the row groups.
    pub fn set_column_key(&mut self, col: usize, value: String) -> (res: Result<(), StbError>)
        requires
            old(self).wf(),
        ensures
            final(self).wf(),
            col >= old(self)@.num_cols() ==> res == Err::<(), StbError>(
                StbError::CellOutOfBounds { row: 0, col },
            ) && final(self)@ == old(self)@,
            col < old(self)@.num_cols() ==> {
                let hashes = update_cell(old(self)@.hashes, 0, col as int, spec_stb_hash(value@));
                &&& res is Ok
                &&& final(self)@ == StbView {
                    cells: update_cell(old(self)@.cells, 0, col as int, value@),
                    hashes,
                    row_groups: if col == 0 {
                        spec_build_groups(row_keys(hashes), old(self)@.num_rows())
                    } else {
                        old(self)@.row_groups
                    },
                    col_groups: spec_build_groups(
                        col_keys(hashes, old(self)@.num_cols()),
                        old(self)@.num_cols(),
                    ),
                }
            },
            old(self)@.consistent() ==> final(self)@.consistent(),
    {
        let num_c = self.columns.len();
        if col >= num_c {
            return Err(StbError::CellOutOfBounds { row: 0, col });
        }
        let ghost old_view = self@;
        let ghost old_cols = self.columns@;
        let ghost v = value@;
        let h = stb_hash(value.as_str());
        proof {
            assert(self@.hashes[0] == self.cell_hashes@[0]@);
        }
        self.columns[col] = value;
        self.cell_hashes[0][col] = h;
        proof {
            assert forall|r: int| 0 <= r < self.cell_hashes@.len() implies (
            #[trigger] self.cell_hashes@[r])@.len() == num_c by {
                assert(old_view.hashes[r] == old(self).cell_hashes@[r]@);
            }
        }
        self.col_groups = rebuild_col_groups(&self.cell_hashes, num_c);
        if col == 0 {
            self.row_groups = rebuild_row_groups(&self.cell_hashes);
        }
        proof {
            let nv = self@;
            assert(strings_view(self.columns@) =~= strings_view(old_cols).update(col as int, v));
            assert(nv.cells =~= update_cell(old_view.cells, 0, col as int, v));
            assert(nv.hashes =~= update_cell(old_view.hashes, 0, col as int, h));
            if col != 0 {
                assert(row_keys(nv.hashes) =~= row_keys(old_view.hashes));
            }
        }
        Ok(())
    }
}


/// Entry `j` of row bucket `b` points at a table row `>= min` whose key is `key`,
/// with the hash of `key`.
pub open spec fn row_entry_hit(v: StbView, key: Seq<char>, min: nat, b: int, j: int) -> bool {
    let e = v.row_groups[b][j];
    &&& 0 <= j < v.row_groups[b].len()
    &&& v.num_cols() > 0
    &&& e.hash == spec_stb_hash(key)
    &&& min <= e.index < v.num_rows()
    &&& v.cells[e.index as int][0] == key
}

/// Entry `j` of column bucket `b` points at a column `>= min` whose header is `key`,
/// with the hash of `key`.
pub open spec fn col_entry_hit(v: StbView, key: Seq<char>, min: nat, b: int, j: int) -> bool {
    let e = v.col_groups[b][j];
    &&& 0 <= j < v.col_groups[b].len()
    &&& e.hash == spec_stb_hash(key)
    &&& min <= e.index < v.num_cols()
    &&& v.cells[0][e.index as int] == key
}

/// Row `i` is found for `key` through the row-group bucket of `key`'s hash.
pub open spec fn row_hit(v: StbView, key: Seq<char>, min: nat, i: nat) -> bool {
    let b = crate::groups::spec_bucket_index(spec_stb_hash(key), v.num_rows()) as int;
    exists|j: int| #[trigger] row_entry_hit(v, key, min, b, j) && v.row_groups[b][j].index == i
}

/// Column `i` is found for `key` through the column-group bucket of `key`'s hash.
pub open spec fn col_hit(v: StbView, key: Seq<char>, min: nat, i: nat) -> bool {
    let b = crate::groups::spec_bucket_index(spec_stb_hash(key), v.num_cols()) as int;
    exists|j: int| #[trigger] col_entry_hit(v, key, min, b, j) && v.col_groups[b][j].index == i
}

/// `r` is the lowest row found for `key` through the row groups (`None`: none found).
pub open spec fn is_min_row_hit(v: StbView, key: Seq<char>, min: nat, r: Option<usize>) -> bool {
    match r {
        Some(i) => row_hit(v, key, min, i as nat) && forall|k: nat| #[trigger]
            row_hit(v, key, min, k) ==> i <= k,
        None => forall|k: nat| !#[trigger] row_hit(v, key, min, k),
    }
}

/// `r` is the lowest column found for `key` through the column groups (`None`: none found).
pub open spec fn is_min_col_hit(v: StbView, key: Seq<char>, min: nat, r: Option<usize>) -> bool {
    match r {
        Some(i) => col_hit(v, key, min, i as nat) && forall|k: nat| #[trigger]
            col_hit(v, key, min, k) ==> i <= k,
        None => forall|k: nat| !#[trigger] col_hit(v, key, min, k),
    }
}

/// `r` is the first table row `>= min` whose cell in column `col` is `key`
/// (`None`: there is none).
pub open spec fn is_first_row_with(v: StbView, col: int, key: Seq<char>, min: nat, r: Option<usize>) -> bool {
    match r {
        Some(i) => min <= i < v.num_rows() && v.cells[i as int][col] == key && forall|k: int|
            min <= k < i ==> #[trigger] v.cells[k][col] != key,
        None => forall|k: int| min <= k < v.num_rows() ==> #[trigger] v.cells[k][col] != key,
    }
}

/// `r` is the first column `>= min` whose cell in table row `row` is `key`
/// (`None`: there is none).
pub open spec fn is_first_col_with(v: StbView, row: int, key: Seq<char>, min: nat, r: Option<usize>) -> bool {
    match r {
        Some(i) => min <= i < v.num_cols() && v.cells[row][i as int] == key && forall|k: int|
            min <= k < i ==> #[trigger] v.cells[row][k] != key,
        None => forall|k: int| min <= k < v.num_cols() ==> #[trigger] v.cells[row][k] != key,
    }
}

/// In a consistent table the row groups find exactly the rows whose key is `key`.
pub proof fn lemma_row_hit_iff(v: StbView, key: Seq<char>, min: nat, i: nat)
    requires
        v.wf(),
        v.consistent(),
        v.num_cols() > 0,
    ensures
        row_hit(v, key, min, i) <==> min <= i < v.num_rows() && v.cells[i as int][0] == key,
{
    if min <= i < v.num_rows() && v.cells[i as int][0] == key {
        let keys = row_keys(v.hashes);
        let h = spec_stb_hash(key);
        assert(v.cells[i as int].len() == v.num_cols());
        assert(v.hashes[i as int][0] == h);
        assert(keys[i as int] == GroupEntry { index: i as u32, hash: h });
        crate::groups::lemma_bucket_contains(keys, v.num_rows(), i as int);
        let b = crate::groups::spec_bucket_index(h, v.num_rows()) as int;
        let bucket = v.row_groups[b];
        let j = choose|j: int| 0 <= j < bucket.len() && bucket[j] == keys[i as int];
        assert(row_entry_hit(v, key, min, b, j));
    }
}

/// In a consistent table the column groups find exactly the columns whose header is `key`.
pub proof fn lemma_col_hit_iff(v: StbView, key: Seq<char>, min: nat, i: nat)
    requires
        v.wf(),
        v.consistent(),
    ensures
        col_hit(v, key, min, i) <==> min <= i < v.num_cols() && v.cells[0][i as int] == key,
{
    if min <= i < v.num_cols() && v.cells[0][i as int] == key {
        let keys = col_keys(v.hashes, v.num_cols());
        let h = spec_stb_hash(key);
        assert(v.hashes[0][i as int] == h);
        assert(keys[i as int] == GroupEntry { index: i as u32, hash: h });
        crate::groups::lemma_bucket_contains(keys, v.num_cols(), i as int);
        let b = crate::groups::spec_bucket_index(h, v.num_cols()) as int;
        let bucket = v.col_groups[b];
        let j = choose|j: int| 0 <= j < bucket.len() && bucket[j] == keys[i as int];
        assert(col_entry_hit(v, key, min, b, j));
    }
}

impl Stb {
    /// Column-group bucket for a header string (`stb_hash` and the same bucketing as the
    /// STB file). Inspect its entries to search without scanning every column.
    pub fn col_group_bucket_for_key(&self, key: &str) -> (g: &Group)
        requires
            self.wf(),
            self@.col_groups.len() == spec_bucket_count(self@.num_cols()),
        ensures
            g@ == self@.col_groups[crate::groups::spec_bucket_index(
                spec_stb_hash(key@),
                self@.num_cols(),
            ) as int],
    {
        let nc = self.columns.len();
        let idx = crate::groups::bucket_index_for_hash(stb_hash(key), nc);
        &self.col_groups[idx]
    }

    /// Row-group bucket for a first-column key (`stb_hash` and the same bucketing as the
    /// STB file).
    pub fn row_group_bucket_for_key(&self, key: &str) -> (g: &Group)
        requires
            self.wf(),
            self@.row_groups.len() == spec_bucket_count(self@.num_rows()),
        ensures
            g@ == self@.row_groups[crate::groups::spec_bucket_index(
                spec_stb_hash(key@),
                self@.num_rows(),
            ) as int],
    {
        let nr = self.rows.len() + 1;
        let idx = crate::groups::bucket_index_for_hash(stb_hash(key), nr);
        &self.row_groups[idx]
    }

    /// Lowest table row index `r >= min_row` with `cell(r, 0) == key`, found through
    /// the row-group bucket of `key`.
    pub fn row_index_for_key(&self, key: &str, min_row: usize) -> (r: Option<usize>)
        requires
            self.wf(),
            self@.row_groups.len() == spec_bucket_count(self@.num_rows()),
        ensures
            is_min_row_hit(self@, key@, min_row as nat, r),
            self@.consistent() && self@.num_cols() > 0 ==> is_first_row_with(
                self@,
                0,
                key@,
                min_row as nat,
                r,
            ),
    {
        let ghost v = self@;
        let nr = self.rows.len() + 1;
        if min_row >= nr {
            proof {
                assert forall|k: nat| !#[trigger] row_hit(v, key@, min_row as nat, k) by {}
            }
            return None;
        }
        let h = stb_hash(key);
        let b = crate::groups::bucket_index_for_hash(h, nr);
        let bucket = &self.row_groups[b];
        let ghost bi = b as int;
        let mut best: Option<usize> = None;
        let mut j: usize = 0;
        while j < bucket.entries.len()
            invariant
                v == self@,
                self.wf(),
                nr == v.num_rows(),
                h == spec_stb_hash(key@),
                bi == crate::groups::spec_bucket_index(h, nr as nat),
                0 <= bi < v.row_groups.len(),
                bucket@ == v.row_groups[bi],
                j <= bucket@.len(),
                match best {
                    Some(x) => (exists|t: int| 0 <= t < j && #[trigger] row_entry_hit(v, key@, min_row as nat, bi, t) && v.row_groups[bi][t].index == x)
                        && forall|t: int| 0 <= t < j && #[trigger] row_entry_hit(v, key@, min_row as nat, bi, t) ==> x <= v.row_groups[bi][t].index,
                    None => forall|t: int| 0 <= t < j ==> !#[trigger] row_entry_hit(v, key@, min_row as nat, bi, t),
                },
            decreases bucket@.len() - j,
        {
            let e = bucket.entries[j];
            let r = e.index as usize;
            let mut is_hit = false;
            if e.hash == h && r >= min_row && r < nr && self.columns.len() > 0 {
                if r == 0 {
                    is_hit = crate::text::str_eq(self.columns[0].as_str(), key);
                } else {
                    proof {
                        assert(v.cells[r as int] == strings_view(self.rows@[r - 1]@));
                        assert(v.cells[r as int].len() == v.num_cols());
                    }
                    is_hit = crate::text::str_eq(self.rows[r - 1][0].as_str(), key);
                }
            }
            proof {
                assert(e == v.row_groups[bi][j as int]);
                assert(v.cells[0] == strings_view(self.columns@));
                assert(is_hit == row_entry_hit(v, key@, min_row as nat, bi, j as int));
            }
            if is_hit {
                best = match best {
                    Some(x) => if r < x { Some(r) } else { Some(x) },
                    None => Some(r),
                };
            }
            j = j + 1;
        }
        proof {
            match best {
                Some(x) => {
                    assert(row_hit(v, key@, min_row as nat, x as nat));
                    assert forall|k: nat| #[trigger] row_hit(v, key@, min_row as nat, k) implies x <= k by {
                        let t = choose|t: int| #[trigger] row_entry_hit(v, key@, min_row as nat, bi, t) && v.row_groups[bi][t].index == k;
                    }
                },
                None => {
                    assert forall|k: nat| !#[trigger] row_hit(v, key@, min_row as nat, k) by {
                        if row_hit(v, key@, min_row as nat, k) {
                            let t = choose|t: int| #[trigger] row_entry_hit(v, key@, min_row as nat, bi, t) && v.row_groups[bi][t].index == k;
                        }
                    }
                },
            }
            if v.consistent() && v.num_cols() > 0 {
                assert forall|k: nat| #[trigger] row_hit(v, key@, min_row as nat, k) <==> (min_row <= k < v.num_rows() && v.cells[k as int][0] == key@) by {
                    lemma_row_hit_iff(v, key@, min_row as nat, k);
                }
                match best {
                    Some(x) => {
                        assert forall|k: int| min_row <= k < x implies #[trigger] v.cells[k][0] != key@ by {
                            if v.cells[k][0] == key@ {
                                assert(row_hit(v, key@, min_row as nat, k as nat));
                            }
                        }
                    },
                    None => {
                        assert forall|k: int| min_row <= k < v.num_rows() implies #[trigger] v.cells[k][0] != key@ by {
                            if v.cells[k][0] == key@ {
                                assert(row_hit(v, key@, min_row as nat, k as nat));
                            }
                        }
                    },
                }
            }
        }
        best
    }
}


impl Stb {
    /// Lowest column index `c >= min_col` with `cell(0, c) == key`, found through the
    /// column-group bucket of `key`.
    pub fn column_index_for_key(&self, key: &str, min_col: usize) -> (r: Option<usize>)
        requires
            self.wf(),
            self@.col_groups.len() == spec_bucket_count(self@.num_cols()),
        ensures
            is_min_col_hit(self@, key@, min_col as nat, r),
            self@.consistent() ==> is_first_col_with(self@, 0, key@, min_col as nat, r),
    {
        let ghost v = self@;
        let nc = self.columns.len();
        if nc == 0 || min_col >= nc {
            proof {
                assert forall|k: nat| !#[trigger] col_hit(v, key@, min_col as nat, k) by {}
            }
            return None;
        }
        let h = stb_hash(key);
        let b = crate::groups::bucket_index_for_hash(h, nc);
        let bucket = &self.col_groups[b];
        let ghost bi = b as int;
        let mut best: Option<usize> = None;
        let mut j: usize = 0;
        while j < bucket.entries.len()
            invariant
                v == self@,
                self.wf(),
                nc == v.num_cols(),
                h == spec_stb_hash(key@),
                bi == crate::groups::spec_bucket_index(h, nc as nat),
                0 <= bi < v.col_groups.len(),
                bucket@ == v.col_groups[bi],
                j <= bucket@.len(),
                match best {
                    Some(x) => (exists|t: int| 0 <= t < j && #[trigger] col_entry_hit(v, key@, min_col as nat, bi, t) && v.col_groups[bi][t].index == x)
                        && forall|t: int| 0 <= t < j && #[trigger] col_entry_hit(v, key@, min_col as nat, bi, t) ==> x <= v.col_groups[bi][t].index,
                    None => forall|t: int| 0 <= t < j ==> !#[trigger] col_entry_hit(v, key@, min_col as nat, bi, t),
                },
            decreases bucket@.len() - j,
        {
            let e = bucket.entries[j];
            let c = e.index as usize;
            let mut is_hit = false;
            if e.hash == h && c >= min_col && c < nc {
                is_hit = crate::text::str_eq(self.columns[c].as_str(), key);
            }
            proof {
                assert(e == v.col_groups[bi][j as int]);
                assert(v.cells[0] == strings_view(self.columns@));
                assert(is_hit == col_entry_hit(v, key@, min_col as nat, bi, j as int));
            }
            if is_hit {
                best = match best {
                    Some(x) => if c < x { Some(c) } else { Some(x) },
                    None => Some(c),
                };
            }
            j = j + 1;
        }
        proof {
            match best {
                Some(x) => {
                    assert(col_hit(v, key@, min_col as nat, x as nat));
                    assert forall|k: nat| #[trigger] col_hit(v, key@, min_col as nat, k) implies x <= k by {
                        let t = choose|t: int| #[trigger] col_entry_hit(v, key@, min_col as nat, bi, t) && v.col_groups[bi][t].index == k;
                    }
                },
                None => {
                    assert forall|k: nat| !#[trigger] col_hit(v, key@, min_col as nat, k) by {
                        if col_hit(v, key@, min_col as nat, k) {
                            let t = choose|t: int| #[trigger] col_entry_hit(v, key@, min_col as nat, bi, t) && v.col_groups[bi][t].index == k;
                        }
                    }
                },
            }
            if v.consistent() {
                assert forall|k: nat| #[trigger] col_hit(v, key@, min_col as nat, k) <==> (min_col <= k < v.num_cols() && v.cells[0][k as int] == key@) by {
                    lemma_col_hit_iff(v, key@, min_col as nat, k);
                }
                match best {
                    Some(x) => {
                        assert forall|k: int| min_col <= k < x implies #[trigger] v.cells[0][k] != key@ by {
                            if v.cells[0][k] == key@ {
                                assert(col_hit(v, key@, min_col as nat, k as nat));
                            }
                        }
                    },
                    None => {
                        assert forall|k: int| min_col <= k < v.num_cols() implies #[trigger] v.cells[0][k] != key@ by {
                            if v.cells[0][k] == key@ {
                                assert(col_hit(v, key@, min_col as nat, k as nat));
                            }
                        }
                    },
                }
            }
        }
        best
    }

    /// First table row `r` whose cell in column `col` equals `value`, scanning every row.
    fn scan_rows(&self, col: usize, value: &str) -> (r: Option<usize>)
        requires
            self.wf(),
            col < self@.num_cols(),
        ensures
            is_first_row_with(self@, col as int, value@, 0, r),
    {
        let nr = self.rows.len() + 1;
        let mut k: usize = 0;
        while k < nr
            invariant
                self.wf(),
                nr == self@.num_rows(),
                col < self@.num_cols(),
                k <= nr,
                forall|t: int| 0 <= t < k ==> #[trigger] self@.cells[t][col as int] != value@,
            decreases nr - k,
        {
            let c = if k == 0 {
                &self.columns[col]
            } else {
                proof {
                    assert(self@.cells[k as int] == strings_view(self.rows@[k - 1]@));
                    assert(self@.cells[k as int].len() == self@.num_cols());
                }
                &self.rows[k - 1][col]
            };
            proof {
                assert(self@.cells[0] == strings_view(self.columns@));
            }
            if crate::text::str_eq(c.as_str(), value) {
                return Some(k);
            }
            k = k + 1;
        }
        None
    }

    /// First column `c` whose cell in table row `row` equals `value`, scanning every column.
    fn scan_cols(&self, row: usize, value: &str) -> (r: Option<usize>)
        requires
            self.wf(),
            1 <= row < self@.num_rows(),
        ensures
            is_first_col_with(self@, row as int, value@, 0, r),
    {
        let nc = self.columns.len();
        let line = &self.rows[row - 1];
        proof {
            assert(self@.cells[row as int] == strings_view(line@));
            assert(self@.cells[row as int].len() == self@.num_cols());
        }
        let mut k: usize = 0;
        while k < nc
            invariant
                self.wf(),
                nc == self@.num_cols(),
                self@.cells[row as int] == strings_view(line@),
                line@.len() == nc,
                k <= nc,
                forall|t: int| 0 <= t < k ==> #[trigger] self@.cells[row as int][t] != value@,
            decreases nc - k,
        {
            if crate::text::str_eq(line[k].as_str(), value) {
                return Some(k);
            }
            k = k + 1;
        }
        None
    }

    /// First **table row** index `r` such that `cell(r, col) == value`.
    ///
    /// When `col == 0`, uses the row-group bucket of `value` (same as the binary's
    /// row groups).
    pub fn row_for_column(&self, col: usize, value: &str) -> (r: Option<usize>)
        requires
            self.wf(),
            col == 0 ==> self@.row_groups.len() == spec_bucket_count(self@.num_rows()),
        ensures
            col >= self@.num_cols() ==> r is None,
            0 < col < self@.num_cols() ==> is_first_row_with(self@, col as int, value@, 0, r),
            col == 0 && col < self@.num_cols() ==> is_min_row_hit(self@, value@, 0, r),
            self@.consistent() && col < self@.num_cols() ==> is_first_row_with(
                self@,
                col as int,
                value@,
                0,
                r,
            ),
    {
        if col >= self.columns.len() {
            return None;
        }
        if col == 0 {
            self.row_index_for_key(value, 0)
        } else {
            self.scan_rows(col, value)
        }
    }

    /// First column index `c` such that `cell(row, c) == value`.
    ///
    /// When `row == 0`, uses the column-group bucket of `value` (same as the binary's
    /// column groups).
    pub fn column_for_row(&self, row: usize, value: &str) -> (r: Option<usize>)
        requires
            self.wf(),
            row == 0 ==> self@.col_groups.len() == spec_bucket_count(self@.num_cols()),
        ensures
            row >= self@.num_rows() ==> r is None,
            0 < row < self@.num_rows() ==> is_first_col_with(self@, row as int, value@, 0, r),
            row == 0 ==> is_min_col_hit(self@, value@, 0, r),
            self@.consistent() && row < self@.num_rows() ==> is_first_col_with(
                self@,
                row as int,
                value@,
                0,
                r,
            ),
    {
        if row >= self.rows.len() + 1 {
            return None;
        }
        if row == 0 {
            self.column_index_for_key(value, 0)
        } else {
            self.scan_cols(row, value)
        }
    }

    /// Column index whose header cell (row `0`) equals `name` (first match).
    pub fn column_index(&self, name: &str) -> (r: Option<usize>)
        requires
            self.wf(),
            self@.col_groups.len() == spec_bucket_count(self@.num_cols()),
        ensures
            is_min_col_hit(self@, name@, 0, r),
            self@.consistent() ==> is_first_col_with(self@, 0, name@, 0, r),
    {
        self.column_for_row(0, name)
    }

    /// Like [`Self::row_for_column`], but resolves `col` by matching a header name in row `0`.
    pub fn row_for_named_column(&self, column_name: &str, value: &str) -> (r: Option<usize>)
        requires
            self.wf(),
            self@.groups_shaped(),
        ensures
            ({
                let v = self@;
                &&& v.consistent() ==> match r {
                    Some(i) => exists|c: usize| #[trigger] is_first_col_with(v, 0, column_name@, 0, Some(c))
                        && is_first_row_with(v, c as int, value@, 0, Some(i)),
                    None => forall|c: usize| #[trigger] is_first_col_with(v, 0, column_name@, 0, Some(c))
                        ==> is_first_row_with(v, c as int, value@, 0, None),
                }
            }),
    {
        let col = match self.column_index(column_name) {
            Some(c) => c,
            None => {
                proof {
                    assert forall|c: usize| self@.consistent() && #[trigger] is_first_col_with(self@, 0, column_name@, 0, Some(c))
                        implies is_first_row_with(self@, c as int, value@, 0, None) by {
                        assert(self@.cells[0][c as int] == column_name@);
                    }
                }
                return None;
            },
        };
        let r = self.row_for_column(col, value);
        proof {
            if self@.consistent() {
                assert forall|c: usize| #[trigger] is_first_col_with(self@, 0, column_name@, 0, Some(c))
                    implies c == col by {
                    if c < col {
                        assert(self@.cells[0][c as int] != column_name@);
                    } else if col < c {
                        assert(self@.cells[0][col as int] != column_name@);
                    }
                }
            }
        }
        r
    }
}


/// Cells on the line: on a row line, that row (columns `1..` in inner mode); on a
/// column line, that column (rows `1..` in inner mode).
pub open spec fn on_line(line: TableLine, mode: LineReplaceMode, r: int, c: int) -> bool {
    match line {
        TableLine::Row(rr) => r == rr && (mode == LineReplaceMode::Full || c >= 1),
        TableLine::Column(cc) => c == cc && (mode == LineReplaceMode::Full || r >= 1),
    }
}

/// Position along the line of the cell `(r, c)` on it.
pub open spec fn line_index(line: TableLine, mode: LineReplaceMode, r: int, c: int) -> int {
    match (line, mode) {
        (TableLine::Row(_), LineReplaceMode::Full) => c,
        (TableLine::Row(_), LineReplaceMode::Inner) => c - 1,
        (TableLine::Column(_), LineReplaceMode::Full) => r,
        (TableLine::Column(_), LineReplaceMode::Inner) => r - 1,
    }
}

/// Table coordinates `(row, col)` of position `i` along the line.
pub open spec fn spec_line_coord(line: TableLine, mode: LineReplaceMode, i: int) -> (int, int) {
    match (line, mode) {
        (TableLine::Row(r), LineReplaceMode::Full) => (r as int, i),
        (TableLine::Row(r), LineReplaceMode::Inner) => (r as int, i + 1),
        (TableLine::Column(c), LineReplaceMode::Full) => (i, c as int),
        (TableLine::Column(c), LineReplaceMode::Inner) => (i + 1, c as int),
    }
}

/// Number of cells along the line.
pub open spec fn spec_line_len(v: StbView, line: TableLine, mode: LineReplaceMode) -> nat {
    match (line, mode) {
        (TableLine::Row(_), LineReplaceMode::Inner) => if v.num_cols() >= 1 {
            (v.num_cols() - 1) as nat
        } else {
            0
        },
        (TableLine::Row(_), LineReplaceMode::Full) => v.num_cols(),
        (TableLine::Column(_), LineReplaceMode::Inner) => (v.num_rows() - 1) as nat,
        (TableLine::Column(_), LineReplaceMode::Full) => v.num_rows(),
    }
}

/// The line exists and may be edited in this mode (inner mode excludes row `0`
/// and column `0` as lines).
pub open spec fn line_access_ok(v: StbView, line: TableLine, mode: LineReplaceMode) -> bool {
    match (line, mode) {
        (TableLine::Row(r), LineReplaceMode::Inner) => r != 0 && r < v.num_rows(),
        (TableLine::Row(r), LineReplaceMode::Full) => r < v.num_rows(),
        (TableLine::Column(c), LineReplaceMode::Inner) => c != 0 && c < v.num_cols(),
        (TableLine::Column(c), LineReplaceMode::Full) => c < v.num_cols(),
    }
}

/// Writing `spec_line_len` strings along the line indexes only cells of the table:
/// the line lies inside the table, or the line has no cells to write (an inner row
/// still needs a row index of at least `1`).
pub open spec fn line_writable(v: StbView, line: TableLine, mode: LineReplaceMode) -> bool {
    match (line, mode) {
        (TableLine::Row(r), LineReplaceMode::Inner) => r != 0 && (r < v.num_rows() || v.num_cols() <= 1),
        (TableLine::Row(r), LineReplaceMode::Full) => r < v.num_rows() || v.num_cols() == 0,
        (TableLine::Column(c), LineReplaceMode::Inner) => c < v.num_cols() || v.num_rows() <= 1,
        (TableLine::Column(c), LineReplaceMode::Full) => c < v.num_cols(),
    }
}

/// What `Stb::replace_line` gives on table `v`: its result and the table after it.
pub open spec fn replace_line_outcome(
    v: StbView,
    line: TableLine,
    mode: LineReplaceMode,
    vals: Seq<Seq<char>>,
) -> (Result<(), StbError>, StbView) {
    if !line_access_ok(v, line, mode) {
        (Err(line_access_error(line, mode)), v)
    } else if vals.len() != spec_line_len(v, line, mode) {
        (
            Err(
                StbError::LineReplaceBadLen {
                    expected: spec_line_len(v, line, mode) as usize,
                    found: vals.len() as usize,
                },
            ),
            v,
        )
    } else {
        (Ok(()), finish_view(StbView { cells: write_line(v.cells, line, mode, vals), ..v }, line, mode))
    }
}

/// What an inner-cell edit gives on table `v`: its result and the table after it.
pub open spec fn inner_edit_outcome(v: StbView, row: usize, col: usize, value: Seq<char>) -> (
    Result<(), StbError>,
    StbView,
) {
    if row == 0 || col == 0 {
        (Err(StbError::NotInnerCell { row, col }), v)
    } else if row >= v.num_rows() || col >= v.num_cols() {
        (Err(StbError::CellOutOfBounds { row, col }), v)
    } else {
        (
            Ok(()),
            StbView {
                cells: update_cell(v.cells, row as int, col as int, value),
                hashes: update_cell(v.hashes, row as int, col as int, spec_stb_hash(value)),
                ..v
            },
        )
    }
}

/// The error reported for a line that cannot be accessed in this mode.
pub open spec fn line_access_error(line: TableLine, mode: LineReplaceMode) -> StbError {
    match (line, mode) {
        (TableLine::Row(r), LineReplaceMode::Inner) => if r == 0 {
            StbError::LineReplaceInvalid("LineReplaceMode::Inner cannot replace header row (row 0)")
        } else {
            StbError::CellOutOfBounds { row: r, col: 0 }
        },
        (TableLine::Row(r), LineReplaceMode::Full) => StbError::CellOutOfBounds { row: r, col: 0 },
        (TableLine::Column(c), LineReplaceMode::Inner) => if c == 0 {
            StbError::LineReplaceInvalid(
                "LineReplaceMode::Inner cannot replace first column (column 0)",
            )
        } else {
            StbError::CellOutOfBounds { row: 0, col: c }
        },
        (TableLine::Column(c), LineReplaceMode::Full) => StbError::CellOutOfBounds { row: 0, col: c },
    }
}

/// `t` with the cells on the line at positions `>= k` replaced by `vals`.
pub open spec fn write_line_from<T>(
    t: Seq<Seq<T>>,
    line: TableLine,
    mode: LineReplaceMode,
    vals: Seq<T>,
    k: int,
) -> Seq<Seq<T>> {
    Seq::new(
        t.len(),
        |r: int|
            Seq::new(
                t[r].len(),
                |c: int|
                    if on_line(line, mode, r, c) && line_index(line, mode, r, c) >= k {
                        vals[line_index(line, mode, r, c)]
                    } else {
                        t[r][c]
                    },
            ),
    )
}

/// `t` with every cell on the line replaced by `vals` (in line order).
pub open spec fn write_line<T>(t: Seq<Seq<T>>, line: TableLine, mode: LineReplaceMode, vals: Seq<T>) -> Seq<Seq<T>> {
    write_line_from(t, line, mode, vals, 0)
}

/// Hashes of `v` with those on the line at positions `< k` recomputed from the cells.
pub open spec fn rehash_line_upto(v: StbView, line: TableLine, mode: LineReplaceMode, k: int) -> Seq<Seq<u32>> {
    Seq::new(
        v.hashes.len(),
        |r: int|
            Seq::new(
                v.hashes[r].len(),
                |c: int|
                    if on_line(line, mode, r, c) && line_index(line, mode, r, c) < k {
                        spec_stb_hash(v.cells[r][c])
                    } else {
                        v.hashes[r][c]
                    },
            ),
    )
}

/// The table after finishing a line edit: hashes on the line recomputed, and in
/// full mode the group tables that depend on a changed key rebuilt.
pub open spec fn finish_view(v: StbView, line: TableLine, mode: LineReplaceMode) -> StbView {
    let h = rehash_line_upto(v, line, mode, spec_line_len(v, line, mode) as int);
    let rebuild_rows = mode == LineReplaceMode::Full && match line {
        TableLine::Row(_) => true,
        TableLine::Column(c) => c == 0,
    };
    let rebuild_cols = mode == LineReplaceMode::Full && match line {
        TableLine::Row(r) => r == 0,
        TableLine::Column(_) => true,
    };
    StbView {
        cells: v.cells,
        hashes: h,
        row_groups: if rebuild_rows {
            spec_build_groups(row_keys(h), v.num_rows())
        } else {
            v.row_groups
        },
        col_groups: if rebuild_cols {
            spec_build_groups(col_keys(h, v.num_cols()), v.num_cols())
        } else {
            v.col_groups
        },
    }
}

/// `cur` differs from `base` only in the strings of cells on the line.
pub open spec fn edits_on_line(base: StbView, cur: StbView, line: TableLine, mode: LineReplaceMode) -> bool {
    &&& cur.cells.len() == base.cells.len()
    &&& forall|r: int| 0 <= r < base.cells.len() ==> (#[trigger] cur.cells[r]).len() == base.cells[r].len()
    &&& forall|r: int, c: int|
        0 <= r < base.cells.len() && 0 <= c < base.cells[r].len() && !on_line(line, mode, r, c)
            ==> #[trigger] cur.cells[r][c] == base.cells[r][c]
    &&& cur.hashes == base.hashes
    &&& cur.row_groups == base.row_groups
    &&& cur.col_groups == base.col_groups
}

proof fn lemma_table_cells_update(columns: Seq<String>, rows: Seq<Vec<String>>, row: int, col: int)
    requires
        0 <= row <= rows.len(),
        row == 0 ==> 0 <= col < columns.len(),
        row > 0 ==> 0 <= col < rows[row - 1]@.len(),
    ensures
        row == 0 ==> forall|x: String|
            #![trigger columns.update(col, x)]
            table_cells(columns.update(col, x), rows) == update_cell(
                table_cells(columns, rows),
                row,
                col,
                x@,
            ),
        row > 0 ==> forall|x: String, v: Vec<String>|
            #![trigger rows.update(row - 1, v), x@]
            v@ == rows[row - 1]@.update(col, x) ==> table_cells(columns, rows.update(row - 1, v))
                == update_cell(table_cells(columns, rows), row, col, x@),
{
    if row == 0 {
        assert forall|x: String| table_cells(columns.update(col, x), rows) == update_cell(
            table_cells(columns, rows),
            row,
            col,
            x@,
        ) by {
            assert(strings_view(columns.update(col, x)) =~= strings_view(columns).update(col, x@));
            assert(table_cells(columns.update(col, x), rows) =~= update_cell(
                table_cells(columns, rows),
                row,
                col,
                x@,
            ));
        }
    } else {
        assert forall|x: String, v: Vec<String>|
            #![trigger rows.update(row - 1, v), x@]
            v@ == rows[row - 1]@.update(col, x) implies table_cells(columns, rows.update(row - 1, v))
            == update_cell(table_cells(columns, rows), row, col, x@) by {
            assert(strings_view(v@) =~= strings_view(rows[row - 1]@).update(col, x@));
            assert(table_cells(columns, rows.update(row - 1, v)) =~= update_cell(
                table_cells(columns, rows),
                row,
                col,
                x@,
            ));
        }
    }
}

proof fn lemma_line_coord(v: StbView, line: TableLine, mode: LineReplaceMode, i: int)
    requires
        v.wf(),
        line_writable(v, line, mode),
        0 <= i < spec_line_len(v, line, mode),
    ensures
        ({
            let (r, c) = spec_line_coord(line, mode, i);
            &&& 0 <= r < v.num_rows()
            &&& 0 <= c < v.num_cols()
            &&& on_line(line, mode, r, c)
            &&& line_index(line, mode, r, c) == i
        }),
{
}

proof fn lemma_on_line_index(v: StbView, line: TableLine, mode: LineReplaceMode, r: int, c: int)
    requires
        v.wf(),
        line_writable(v, line, mode),
        0 <= r < v.num_rows(),
        0 <= c < v.num_cols(),
        on_line(line, mode, r, c),
    ensures
        0 <= line_index(line, mode, r, c) < spec_line_len(v, line, mode),
        spec_line_coord(line, mode, line_index(line, mode, r, c)) == (r, c),
{
}

/// Finishing a line edit restores consistency when only cells on the line changed
/// since the table was last consistent.
pub proof fn lemma_finish_restores_consistency(
    base: StbView,
    cur: StbView,
    line: TableLine,
    mode: LineReplaceMode,
)
    requires
        base.wf(),
        base.consistent(),
        line_access_ok(base, line, mode),
        edits_on_line(base, cur, line, mode),
    ensures
        finish_view(cur, line, mode).consistent(),
        finish_view(cur, line, mode).wf(),
{
    let f = finish_view(cur, line, mode);
    let len = spec_line_len(cur, line, mode);
    assert(cur.num_cols() == base.num_cols());
    assert forall|r: int, c: int| 0 <= r < f.num_rows() && 0 <= c < f.num_cols() implies #[trigger] f.hashes[r][c]
        == spec_stb_hash(f.cells[r][c]) by {
        assert(cur.cells[r].len() == base.cells[r].len());
        if on_line(line, mode, r, c) {
            lemma_on_line_index(base, line, mode, r, c);
        }
    }
    let rebuild_rows = mode == LineReplaceMode::Full && match line {
        TableLine::Row(_) => true,
        TableLine::Column(c) => c == 0,
    };
    let rebuild_cols = mode == LineReplaceMode::Full && match line {
        TableLine::Row(r) => r == 0,
        TableLine::Column(_) => true,
    };
    if !rebuild_rows {
        assert(row_keys(f.hashes) =~= row_keys(base.hashes)) by {
            assert forall|r: int| 0 <= r < f.hashes.len() implies #[trigger] f.hashes[r][0] == base.hashes[r][0] by {
                if base.num_cols() > 0 {
                    assert(!on_line(line, mode, r, 0));
                } else {
                    assert(f.hashes[r] =~= base.hashes[r]);
                }
            }
        }
    }
    if !rebuild_cols {
        assert(col_keys(f.hashes, f.num_cols()) =~= col_keys(base.hashes, base.num_cols())) by {
            assert forall|c: int| 0 <= c < f.num_cols() implies #[trigger] f.hashes[0][c] == base.hashes[0][c] by {
                assert(!on_line(line, mode, 0, c));
            }
        }
    }
}

impl Stb {
    /// Check that `line` exists and may be used in `mode`.
    pub fn validate_line_access(&self, line: TableLine, mode: LineReplaceMode) -> (res: Result<(), StbError>)
        requires
            self.wf(),
        ensures
            res is Ok <==> line_access_ok(self@, line, mode),
            res is Err ==> res == Err::<(), StbError>(line_access_error(line, mode)),
    {
        let nr = self.rows.len() + 1;
        let nc = self.columns.len();
        match (line, mode) {
            (TableLine::Row(r), LineReplaceMode::Inner) => {
                if r == 0 {
                    return Err(
                        StbError::LineReplaceInvalid(
                            "LineReplaceMode::Inner cannot replace header row (row 0)",
                        ),
                    );
                }
                if r >= nr {
                    return Err(StbError::CellOutOfBounds { row: r, col: 0 });
                }
                Ok(())
            },
            (TableLine::Row(r), LineReplaceMode::Full) => {
                if r >= nr {
                    return Err(StbError::CellOutOfBounds { row: r, col: 0 });
                }
                Ok(())
            },
            (TableLine::Column(c), LineReplaceMode::Inner) => {
                if c == 0 {
                    return Err(
                        StbError::LineReplaceInvalid(
                            "LineReplaceMode::Inner cannot replace first column (column 0)",
                        ),
                    );
                }
                if c >= nc {
                    return Err(StbError::CellOutOfBounds { row: 0, col: c });
                }
                Ok(())
            },
            (TableLine::Column(c), LineReplaceMode::Full) => {
                if c >= nc {
                    return Err(StbError::CellOutOfBounds { row: 0, col: c });
                }
                Ok(())
            },
        }
    }

    /// Number of cells along `line` in `mode`.
    pub fn line_len(&self, line: TableLine, mode: LineReplaceMode) -> (n: usize)
        requires
            self.wf(),
        ensures
            n == spec_line_len(self@, line, mode),
    {
        let nc = self.columns.len();
        let nr = self.rows.len() + 1;
        let nb = self.rows.len();
        match (line, mode) {
            (TableLine::Row(_), LineReplaceMode::Inner) => if nc >= 1 {
                nc - 1
            } else {
                0
            },
            (TableLine::Row(_), LineReplaceMode::Full) => nc,
            (TableLine::Column(_), LineReplaceMode::Inner) => nb,
            (TableLine::Column(_), LineReplaceMode::Full) => nr,
        }
    }

    /// Table coordinates of position `i` along `line`.
    pub fn line_coord(&self, line: TableLine, mode: LineReplaceMode, i: usize) -> (res: Result<
        (usize, usize),
        StbError,
    >)
        requires
            self.wf(),
            line_access_ok(self@, line, mode),
        ensures
            i >= spec_line_len(self@, line, mode) ==> res == Err::<(usize, usize), StbError>(
                StbError::LineIndexOutOfBounds {
                    len: spec_line_len(self@, line, mode) as usize,
                    index: i,
                },
            ),
            i < spec_line_len(self@, line, mode) ==> (res matches Ok((r, c)) && (r as int, c as int)
                == spec_line_coord(line, mode, i as int) && r < self@.num_rows() && c
                < self@.num_cols()),
    {
        let len = self.line_len(line, mode);
        if i >= len {
            return Err(StbError::LineIndexOutOfBounds { len, index: i });
        }
        let coord = match (line, mode) {
            (TableLine::Row(r), LineReplaceMode::Full) => (r, i),
            (TableLine::Row(r), LineReplaceMode::Inner) => (r, i + 1),
            (TableLine::Column(c), LineReplaceMode::Full) => (i, c),
            (TableLine::Column(c), LineReplaceMode::Inner) => (i + 1, c),
        };
        Ok(coord)
    }

    /// Mutable access to the string of cell `(row, col)`.
    pub fn cell_string_mut(&mut self, row: usize, col: usize) -> (res: Result<&mut String, StbError>)
        requires
            old(self).wf(),
        ensures
            (row >= old(self)@.num_rows() || col >= old(self)@.num_cols()) ==> (res matches Err(e)
                && e == (StbError::CellOutOfBounds { row, col })) && *final(self) == *old(self),
            row < old(self)@.num_rows() && col < old(self)@.num_cols() ==> (res matches Ok(s) && s@
                == old(self)@.cells[row as int][col as int] && final(self)@ == (StbView {
                cells: update_cell(old(self)@.cells, row as int, col as int, final(s)@),
                ..old(self)@
            })),
    {
        let num_tr = self.rows.len() + 1;
        let num_c = self.columns.len();
        if row >= num_tr || col >= num_c {
            return Err(StbError::CellOutOfBounds { row, col });
        }
        proof {
            assert(self@.cells[0] == strings_view(self.columns@));
            if row > 0 {
                assert(self@.cells[row as int] == strings_view(self.rows@[row - 1]@));
            }
            lemma_table_cells_update(self.columns@, self.rows@, row as int, col as int);
        }
        if row == 0 {
            Ok(&mut self.columns[col])
        } else {
            Ok(&mut self.rows[row - 1][col])
        }
    }
}


/// Finishing a full-mode row edit rebuilds the row groups from column `0`, which
/// needs a column `0`.
pub open spec fn finish_ok(v: StbView, line: TableLine, mode: LineReplaceMode) -> bool {
    (mode == LineReplaceMode::Full && line is Row) ==> v.num_cols() >= 1
}

proof fn lemma_write_line_step<T>(
    v: StbView,
    t: Seq<Seq<T>>,
    line: TableLine,
    mode: LineReplaceMode,
    vals: Seq<T>,
    k: int,
)
    requires
        v.wf(),
        line_writable(v, line, mode),
        0 <= k < spec_line_len(v, line, mode),
        t.len() == v.num_rows(),
        forall|r: int| 0 <= r < t.len() ==> (#[trigger] t[r]).len() == v.num_cols(),
    ensures
        ({
            let (r, c) = spec_line_coord(line, mode, k);
            write_line_from(t, line, mode, vals, k) == update_cell(
                write_line_from(t, line, mode, vals, k + 1),
                r,
                c,
                vals[k],
            )
        }),
{
    let (r0, c0) = spec_line_coord(line, mode, k);
    lemma_line_coord(v, line, mode, k);
    let a = write_line_from(t, line, mode, vals, k);
    let b = update_cell(write_line_from(t, line, mode, vals, k + 1), r0, c0, vals[k]);
    assert forall|r: int| 0 <= r < a.len() implies #[trigger] a[r] =~= b[r] by {
        assert forall|c: int| 0 <= c < a[r].len() implies a[r][c] == b[r][c] by {
            if on_line(line, mode, r, c) {
                lemma_on_line_index(v, line, mode, r, c);
            }
        }
    }
    assert(a =~= b);
}

proof fn lemma_rehash_step(v: StbView, line: TableLine, mode: LineReplaceMode, k: int)
    requires
        v.wf(),
        line_access_ok(v, line, mode),
        0 <= k < spec_line_len(v, line, mode),
    ensures
        ({
            let (r, c) = spec_line_coord(line, mode, k);
            rehash_line_upto(v, line, mode, k + 1) == update_cell(
                rehash_line_upto(v, line, mode, k),
                r,
                c,
                spec_stb_hash(v.cells[r][c]),
            )
        }),
{
    let (r0, c0) = spec_line_coord(line, mode, k);
    lemma_line_coord(v, line, mode, k);
    let a = rehash_line_upto(v, line, mode, k + 1);
    let b = update_cell(rehash_line_upto(v, line, mode, k), r0, c0, spec_stb_hash(v.cells[r0][c0]));
    assert forall|r: int| 0 <= r < a.len() implies #[trigger] a[r] =~= b[r] by {
        assert forall|c: int| 0 <= c < a[r].len() implies a[r][c] == b[r][c] by {
            if on_line(line, mode, r, c) {
                lemma_on_line_index(v, line, mode, r, c);
            }
        }
    }
    assert(a =~= b);
}

/// Table coordinates of position `i` along an accessible line.
fn coord_of(line: TableLine, mode: LineReplaceMode, i: usize) -> (rc: (usize, usize))
    requires
        i + 1 <= usize::MAX,
    ensures
        (rc.0 as int, rc.1 as int) == spec_line_coord(line, mode, i as int),
{
    match (line, mode) {
        (TableLine::Row(r), LineReplaceMode::Full) => (r, i),
        (TableLine::Row(r), LineReplaceMode::Inner) => (r, i + 1),
        (TableLine::Column(c), LineReplaceMode::Full) => (i, c),
        (TableLine::Column(c), LineReplaceMode::Inner) => (i + 1, c),
    }
}

impl Stb {
    /// Replace the string of cell `(row, col)`; hashes and groups are left as they are.
    fn set_cell_string(&mut self, row: usize, col: usize, value: String)
        requires
            old(self).wf(),
            row < old(self)@.num_rows(),
            col < old(self)@.num_cols(),
        ensures
            final(self)@ == (StbView {
                cells: update_cell(old(self)@.cells, row as int, col as int, value@),
                ..old(self)@
            }),
            final(self).wf(),
    {
        proof {
            assert(self@.cells[0] == strings_view(self.columns@));
            if row > 0 {
                assert(self@.cells[row as int] == strings_view(self.rows@[row - 1]@));
            }
        }
        let ghost old_view = self@;
        let ghost old_cols = self.columns@;
        let ghost old_rows = self.rows@;
        let ghost v = value@;
        if row == 0 {
            self.columns[col] = value;
            proof {
                assert(strings_view(self.columns@) =~= strings_view(old_cols).update(col as int, v));
                assert(self@.cells =~= update_cell(old_view.cells, 0, col as int, v));
            }
        } else {
            self.rows[row - 1][col] = value;
            proof {
                assert(self.rows@ == old_rows.update(row - 1, self.rows@[row - 1]));
                assert(strings_view(self.rows@[row - 1]@) =~= strings_view(old_rows[row - 1]@).update(
                    col as int,
                    v,
                ));
                assert(self@.cells =~= update_cell(old_view.cells, row as int, col as int, v));
            }
        }
    }

    /// Write the strings of a line without touching hashes or groups.
    pub fn write_line_strings(&mut self, line: TableLine, mode: LineReplaceMode, cells: Vec<String>) -> (res:
        Result<(), StbError>)
        requires
            old(self).wf(),
            cells@.len() == spec_line_len(old(self)@, line, mode) ==> line_writable(old(self)@, line, mode),
        ensures
            final(self).wf(),
            cells@.len() != spec_line_len(old(self)@, line, mode) ==> res == Err::<(), StbError>(
                StbError::LineReplaceBadLen {
                    expected: spec_line_len(old(self)@, line, mode) as usize,
                    found: cells@.len() as usize,
                },
            ) && final(self)@ == old(self)@,
            cells@.len() == spec_line_len(old(self)@, line, mode) ==> res is Ok && final(self)@ == (
            StbView {
                cells: write_line(old(self)@.cells, line, mode, strings_view(cells@)),
                ..old(self)@
            }),
    {
        let expected = self.line_len(line, mode);
        if cells.len() != expected {
            return Err(StbError::LineReplaceBadLen { expected, found: cells.len() });
        }
        let ghost v0 = self@;
        let ghost vals = strings_view(cells@);
        let mut cells = cells;
        let mut k: usize = expected;
        proof {
            assert(write_line_from(v0.cells, line, mode, vals, expected as int) =~= v0.cells) by {
                assert forall|r: int| 0 <= r < v0.cells.len() implies #[trigger] write_line_from(
                    v0.cells,
                    line,
                    mode,
                    vals,
                    expected as int,
                )[r] =~= v0.cells[r] by {
                    assert forall|c: int| 0 <= c < v0.cells[r].len() && on_line(line, mode, r, c)
                        implies line_index(line, mode, r, c) < expected by {
                        lemma_on_line_index(v0, line, mode, r, c);
                    }
                }
            }
        }
        while k > 0
            invariant
                k <= expected,
                expected == spec_line_len(v0, line, mode),
                v0.wf(),
                line_writable(v0, line, mode),
                self.wf(),
                vals.len() == expected,
                cells@.len() == k,
                forall|j: int| 0 <= j < k ==> (#[trigger] cells@[j])@ == vals[j],
                self@ == (StbView {
                    cells: write_line_from(v0.cells, line, mode, vals, k as int),
                    ..v0
                }),
            decreases k,
        {
            k = k - 1;
            let val = cells.pop().unwrap();
            proof {
                lemma_line_coord(v0, line, mode, k as int);
                lemma_write_line_step(v0, v0.cells, line, mode, vals, k as int);
            }
            let (r, c) = coord_of(line, mode, k);
            self.set_cell_string(r, c, val);
        }
        Ok(())
    }

    /// Recompute the hashes along a line and, in full mode, the group tables whose
    /// keys may have changed.
    pub fn finish_line_edit(&mut self, line: TableLine, mode: LineReplaceMode)
        requires
            old(self).wf(),
            line_access_ok(old(self)@, line, mode),
            finish_ok(old(self)@, line, mode),
        ensures
            final(self).wf(),
            final(self)@ == finish_view(old(self)@, line, mode),
    {
        let ghost v0 = self@;
        let len = self.line_len(line, mode);
        let mut i: usize = 0;
        proof {
            assert(rehash_line_upto(v0, line, mode, 0) =~= v0.hashes) by {
                assert forall|r: int| 0 <= r < v0.hashes.len() implies #[trigger] rehash_line_upto(
                    v0,
                    line,
                    mode,
                    0,
                )[r] =~= v0.hashes[r] by {
                    assert forall|c: int| 0 <= c < v0.hashes[r].len() && on_line(line, mode, r, c)
                        implies line_index(line, mode, r, c) >= 0 by {
                        lemma_on_line_index(v0, line, mode, r, c);
                    }
                }
            }
        }
        while i < len
            invariant
                i <= len,
                len == spec_line_len(v0, line, mode),
                v0.wf(),
                line_access_ok(v0, line, mode),
                self.wf(),
                self@ == (StbView { hashes: rehash_line_upto(v0, line, mode, i as int), ..v0 }),
            decreases len - i,
        {
            proof {
                lemma_line_coord(v0, line, mode, i as int);
                lemma_rehash_step(v0, line, mode, i as int);
            }
            let (row, col) = coord_of(line, mode, i);
            let h = if row == 0 {
                proof {
                    assert(v0.cells[0] == strings_view(self.columns@));
                }
                stb_hash(self.columns[col].as_str())
            } else {
                proof {
                    assert(v0.cells[row as int] == strings_view(self.rows@[row - 1]@));
                }
                stb_hash(self.rows[row - 1][col].as_str())
            };
            proof {
                assert(self@.hashes[row as int] == self.cell_hashes@[row as int]@);
            }
            let ghost old_h = self.cell_hashes@;
            self.cell_hashes[row][col] = h;
            proof {
                assert(self.cell_hashes@.map_values(|r: Vec<u32>| r@) =~= update_cell(
                    old_h.map_values(|r: Vec<u32>| r@),
                    row as int,
                    col as int,
                    h,
                ));
            }
            i = i + 1;
        }
        if mode == LineReplaceMode::Inner {
            return;
        }
        let nc = self.columns.len();
        proof {
            assert forall|r: int| 0 <= r < self.cell_hashes@.len() implies (
            #[trigger] self.cell_hashes@[r])@.len() == nc by {
                assert(self@.hashes[r] == self.cell_hashes@[r]@);
            }
        }
        match line {
            TableLine::Row(r) => {
                if r == 0 {
                    self.col_groups = rebuild_col_groups(&self.cell_hashes, nc);
                    self.row_groups = rebuild_row_groups(&self.cell_hashes);
                } else {
                    self.row_groups = rebuild_row_groups(&self.cell_hashes);
                }
            },
            TableLine::Column(c) => {
                self.col_groups = rebuild_col_groups(&self.cell_hashes, nc);
                if c == 0 {
                    self.row_groups = rebuild_row_groups(&self.cell_hashes);
                }
            },
        }
    }

    /// Replace every cell along one **row** or **column**.
    ///
    /// * [`LineReplaceMode::Inner`]: only columns `1..` on a data row, or only rows `1..`
    ///   on a column; cannot target row `0` or column `0`. Like repeated
    ///   [`Self::set_inner_cell`], it leaves the group tables as they are.
    /// * [`LineReplaceMode::Full`]: the entire line, including `(row, 0)` and `(0, col)`
    ///   when present; rebuilds the group tables whose keys are on the line.
    pub fn replace_line(&mut self, line: TableLine, mode: LineReplaceMode, cells: Vec<String>) -> (res:
        Result<(), StbError>)
        requires
            old(self).wf(),
            line_access_ok(old(self)@, line, mode) && cells@.len() == spec_line_len(
                old(self)@,
                line,
                mode,
            ) ==> finish_ok(old(self)@, line, mode),
        ensures
            final(self).wf(),
            !line_access_ok(old(self)@, line, mode) ==> res == Err::<(), StbError>(
                line_access_error(line, mode),
            ) && final(self)@ == old(self)@,
            line_access_ok(old(self)@, line, mode) && cells@.len() != spec_line_len(
                old(self)@,
                line,
                mode,
            ) ==> res == Err::<(), StbError>(
                StbError::LineReplaceBadLen {
                    expected: spec_line_len(old(self)@, line, mode) as usize,
                    found: cells@.len() as usize,
                },
            ) && final(self)@ == old(self)@,
            line_access_ok(old(self)@, line, mode) && cells@.len() == spec_line_len(
                old(self)@,
                line,
                mode,
            ) ==> res is Ok && final(self)@ == finish_view(
                (StbView {
                    cells: write_line(old(self)@.cells, line, mode, strings_view(cells@)),
                    ..old(self)@
                }),
                line,
                mode,
            ),
            old(self)@.consistent() ==> final(self)@.consistent(),
            (res, final(self)@) == replace_line_outcome(old(self)@, line, mode, strings_view(cells@)),
    {
        self.validate_line_access(line, mode)?;
        let expected = self.line_len(line, mode);
        if cells.len() != expected {
            return Err(StbError::LineReplaceBadLen { expected, found: cells.len() });
        }
        let ghost v0 = self@;
        let ghost vals = strings_view(cells@);
        let _ = self.write_line_strings(line, mode, cells);
        proof {
            let w = self@;
            assert(edits_on_line(v0, w, line, mode)) by {
                assert forall|r: int| 0 <= r < v0.cells.len() implies (#[trigger] w.cells[r]).len()
                    == v0.cells[r].len() by {}
            }
            if v0.consistent() {
                lemma_finish_restores_consistency(v0, w, line, mode);
            }
        }
        self.finish_line_edit(line, mode);
        Ok(())
    }
}


/// The hashes and group tables derived from the strings of `t`.
pub(crate) fn build_tables_for_write(t: &Stb) -> (r: (Vec<Vec<u32>>, Vec<Group>, Vec<Group>))
    requires
        t.wf(),
        t@.num_cols() >= 1,
    ensures
        groups_view(r.1@) == derived_view(t@.cells).row_groups,
        groups_view(r.2@) == derived_view(t@.cells).col_groups,
{
    proof {
        assert forall|i: int| 0 <= i < t.rows@.len() implies (#[trigger] t.rows@[i])@.len()
            == t.columns@.len() by {
            assert(t@.cells[i + 1] == strings_view(t.rows@[i]@));
        }
    }
    build_tables(&t.columns, &t.rows)
}

impl Stb {
    /// All cell strings in row-major order.
    pub(crate) fn flat_strings(&self) -> (v: Vec<&str>)
        requires
            self.wf(),
        ensures
            v@.map_values(|s: &str| s@) == self@.cells.flatten_alt(),
    {
        let ghost cells = self@.cells;
        let mut v: Vec<&str> = Vec::new();
        let mut c: usize = 0;
        assert(cells.take(0).flatten_alt() =~= Seq::<Seq<char>>::empty());
        while c < self.columns.len()
            invariant
                cells == self@.cells,
                self.wf(),
                c <= self.columns@.len(),
                cells[0] == crate::text::strings_view(self.columns@),
                v@.map_values(|s: &str| s@) =~= cells[0].take(c as int),
            decreases self.columns@.len() - c,
        {
            let ghost old_v = v@;
            let cs = self.columns[c].as_str();
            v.push(cs);
            proof {
                crate::text::lemma_map_push(old_v, cs, |s: &str| s@);
                assert(cells[0].take(c + 1) =~= cells[0].take(c as int).push(cells[0][c as int]));
            }
            c = c + 1;
        }
        proof {
            assert(cells[0].take(c as int) =~= cells[0]);
            assert(cells.take(1).drop_last() =~= cells.take(0));
            assert(cells.take(1).flatten_alt() =~= cells[0]);
        }
        let mut r: usize = 0;
        while r < self.rows.len()
            invariant
                cells == self@.cells,
                self.wf(),
                r <= self.rows@.len(),
                v@.map_values(|s: &str| s@) =~= cells.take(r + 1).flatten_alt(),
            decreases self.rows@.len() - r,
        {
            let row = &self.rows[r];
            proof {
                assert(cells[r + 1] == crate::text::strings_view(row@));
            }
            let ghost before = v@.map_values(|s: &str| s@);
            let mut c: usize = 0;
            while c < row.len()
                invariant
                    c <= row@.len(),
                    cells[r + 1] == crate::text::strings_view(row@),
                    v@.map_values(|s: &str| s@) =~= before + cells[r + 1].take(c as int),
                decreases row@.len() - c,
            {
                let ghost old_v = v@;
                let cs = row[c].as_str();
                v.push(cs);
                proof {
                    crate::text::lemma_map_push(old_v, cs, |s: &str| s@);
                    assert(cells[r + 1].take(c + 1) =~= cells[r + 1].take(c as int).push(cells[r + 1][c as int]));
                }
                c = c + 1;
            }
            proof {
                assert(cells[r + 1].take(c as int) =~= cells[r + 1]);
                assert(cells.take(r + 2).drop_last() =~= cells.take(r + 1));
            }
            r = r + 1;
        }
        proof {
            assert(cells.take(r + 1) =~= cells);
        }
        v
    }

}

} // verus!
