//! Errors raised while building, loading or editing a table.

use vstd::prelude::*;
use crate::text::{concat_str, csv_error_text, decimal_string, io_error_text, spec_decimal};

verus! {

/// CSV writer/reader error of the `csv` crate, carried through unchanged.
#[verifier::external_type_specification]
#[verifier::external_body]
pub struct ExCsvError(csv::Error);

/// I/O error of the standard library, carried through unchanged.
#[verifier::external_type_specification]
#[verifier::external_body]
pub struct ExIoError(std::io::Error);

/// How strictly `Stb::from_tables` validates loaded hashes and group buckets
/// against cell strings.
#[derive(Clone, Copy, Debug, PartialEq, Eq, Structural)]
pub enum StbTablesValidation {
    /// Only check that `cell_hashes` has the correct height and row widths.
    DimensionsOnly,
    /// Also require that hashes and row/column groups match values derived from
    /// the header and data strings (recommended for untrusted input).
    Full,
}

impl Default for StbTablesValidation {
    fn default() -> (v: Self)
        ensures
            v == StbTablesValidation::Full,
    {
        StbTablesValidation::Full
    }
}

/// Which derived table did not match when using [`StbTablesValidation::Full`].
#[derive(Clone, Copy, Debug, PartialEq, Eq, Structural)]
pub enum TablesMismatchKind {
    CellHashes,
    RowGroups,
    ColGroups,
}

/// Failure to build or load a table while preserving invariants.
#[derive(Debug)]
pub enum StbError {
    /// A data row has a different width than the header.
    Rectangular { data_row: usize, expected: usize, found: usize },
    Csv(csv::Error),
    CsvRead(String),
    Io(std::io::Error),
    /// `Stb::set_inner_cell` only allows table `row >= 1` and `col >= 1`.
    NotInnerCell { row: usize, col: usize },
    /// Table row or column index out of range for the current dimensions.
    CellOutOfBounds { row: usize, col: usize },
    /// `Stb::set_row_key` requires a table row index >= 1 (not the header row `0`).
    RowKeyRequiresDataRow { row: usize },
    /// Loaded tables do not match cell strings (internal invariant).
    InternalInvariant(&'static str),
    /// Parsed cell hashes or group buckets disagree with strings.
    TablesMismatch(TablesMismatchKind),
    /// `Stb::replace_line` could not apply the requested line (invalid line for mode).
    LineReplaceInvalid(&'static str),
    /// Wrong number of cells passed to `Stb::replace_line` or `StbLine::set_line`.
    LineReplaceBadLen { expected: usize, found: usize },
    /// Index along a row/column line is out of range for `StbLine`.
    LineIndexOutOfBounds { len: usize, index: usize },
    /// No column whose header matches this string.
    ColumnHeaderNotFound(String),
    /// No table row whose first-column key matches this string.
    RowKeyNotFound(String),
    /// Key resolves only to table index `0` on the cross axis, but inner line mode omits that index.
    LineCrossAxisKeyOutsideLine(String),
}

/// Text of a [`TablesMismatchKind`] failure.
pub open spec fn mismatch_text(kind: TablesMismatchKind) -> Seq<char> {
    match kind {
        TablesMismatchKind::CellHashes => "cell_hashes do not match strings (recomputed hashes differ)"@,
        TablesMismatchKind::RowGroups => "row_groups do not match cell_hashes"@,
        TablesMismatchKind::ColGroups => "col_groups do not match cell_hashes"@,
    }
}

/// Text describing `e`; `None` for the errors of the `csv` crate and of I/O, whose
/// text those libraries give.
pub open spec fn error_text(e: StbError) -> Option<Seq<char>> {
    match e {
        StbError::Rectangular { data_row, expected, found } => Some(
            "row "@ + spec_decimal(data_row as nat) + " has "@ + spec_decimal(found as nat)
                + " cells, expected "@ + spec_decimal(expected as nat) + " (header width)"@,
        ),
        StbError::Csv(_) => None,
        StbError::CsvRead(msg) => Some(msg@),
        StbError::Io(_) => None,
        StbError::NotInnerCell { row, col } => Some(
            "inner-cell edits cannot target header row or first column (row="@ + spec_decimal(
                row as nat,
            ) + ", col="@ + spec_decimal(col as nat) + ")"@,
        ),
        StbError::CellOutOfBounds { row, col } => Some(
            "cell index out of bounds (row="@ + spec_decimal(row as nat) + ", col="@ + spec_decimal(
                col as nat,
            ) + ")"@,
        ),
        StbError::RowKeyRequiresDataRow { row } => Some(
            "set_row_key requires table row >= 1 (data row), got "@ + spec_decimal(row as nat),
        ),
        StbError::InternalInvariant(msg) => Some(msg@),
        StbError::TablesMismatch(kind) => Some(mismatch_text(kind)),
        StbError::LineReplaceInvalid(msg) => Some(msg@),
        StbError::LineReplaceBadLen { expected, found } => Some(
            "line edit expected "@ + spec_decimal(expected as nat) + " cell(s), got "@ + spec_decimal(
                found as nat,
            ),
        ),
        StbError::LineIndexOutOfBounds { len, index } => Some(
            "line index "@ + spec_decimal(index as nat) + " out of bounds (len "@ + spec_decimal(
                len as nat,
            ) + ")"@,
        ),
        StbError::ColumnHeaderNotFound(key) => Some("no column with header `"@ + key@ + "`"@),
        StbError::RowKeyNotFound(key) => Some(
            "no data/header row with first-column key `"@ + key@ + "`"@,
        ),
        StbError::LineCrossAxisKeyOutsideLine(key) => Some(
            "cross-axis key `"@ + key@
                + "` matches only index 0 on this axis, which is not part of an inner line"@,
        ),
    }
}

/// `a`, then the decimal digits of `n`.
fn with_number(a: &str, n: usize) -> (s: String)
    ensures
        s@ == a@ + spec_decimal(n as nat),
{
    let d = decimal_string(n);
    concat_str(a, d.as_str())
}

/// `a`, then `b`.
fn then(a: String, b: &str) -> (s: String)
    ensures
        s@ == a@ + b@,
{
    concat_str(a.as_str(), b)
}

impl StbError {
    /// A description of the failure.
    pub fn message(&self) -> (m: String)
        ensures
            error_text(*self) matches Some(t) ==> m@ == t,
    {
        match self {
            StbError::Rectangular { data_row, expected, found } => {
                let a = with_number("row ", *data_row);
                let b = then(a, " has ");
                let c = with_number(b.as_str(), *found);
                let d = then(c, " cells, expected ");
                let e = with_number(d.as_str(), *expected);
                then(e, " (header width)")
            },
            StbError::Csv(e) => csv_error_text(e),
            StbError::CsvRead(msg) => msg.clone(),
            StbError::Io(e) => io_error_text(e),
            StbError::NotInnerCell { row, col } => {
                let a = with_number(
                    "inner-cell edits cannot target header row or first column (row=",
                    *row,
                );
                let b = then(a, ", col=");
                let c = with_number(b.as_str(), *col);
                then(c, ")")
            },
            StbError::CellOutOfBounds { row, col } => {
                let a = with_number("cell index out of bounds (row=", *row);
                let b = then(a, ", col=");
                let c = with_number(b.as_str(), *col);
                then(c, ")")
            },
            StbError::RowKeyRequiresDataRow { row } => {
                with_number("set_row_key requires table row >= 1 (data row), got ", *row)
            },
            StbError::InternalInvariant(msg) => (*msg).to_owned(),
            StbError::TablesMismatch(kind) => match kind {
                TablesMismatchKind::CellHashes => {
                    "cell_hashes do not match strings (recomputed hashes differ)".to_owned()
                },
                TablesMismatchKind::RowGroups => "row_groups do not match cell_hashes".to_owned(),
                TablesMismatchKind::ColGroups => "col_groups do not match cell_hashes".to_owned(),
            },
            StbError::LineReplaceInvalid(msg) => (*msg).to_owned(),
            StbError::LineReplaceBadLen { expected, found } => {
                let a = with_number("line edit expected ", *expected);
                let b = then(a, " cell(s), got ");
                with_number(b.as_str(), *found)
            },
            StbError::LineIndexOutOfBounds { len, index } => {
                let a = with_number("line index ", *index);
                let b = then(a, " out of bounds (len ");
                let c = with_number(b.as_str(), *len);
                then(c, ")")
            },
            StbError::ColumnHeaderNotFound(key) => {
                let a = concat_str("no column with header `", key.as_str());
                then(a, "`")
            },
            StbError::RowKeyNotFound(key) => {
                let a = concat_str("no data/header row with first-column key `", key.as_str());
                then(a, "`")
            },
            StbError::LineCrossAxisKeyOutsideLine(key) => {
                let a = concat_str("cross-axis key `", key.as_str());
                then(
                    a,
                    "` matches only index 0 on this axis, which is not part of an inner line",
                )
            },
        }
    }
}

} // verus!
