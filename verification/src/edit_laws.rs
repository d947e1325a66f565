//! Laws that relate the table's edit operations to one another.

use vstd::prelude::*;
use crate::error::StbError;
use crate::hash::spec_stb_hash;
use crate::stb_line::{line_cells, line_session};
use crate::table::{
    StbView, finish_ok, finish_view, inner_edit_outcome, line_access_ok, line_index, on_line,
    rehash_line_upto, replace_line_outcome, spec_line_coord, spec_line_len, write_line,
};
use crate::table_line::{LineReplaceMode, TableLine};

verus! {

/// Replacing a line in one call gives the same result, and leaves the same table, as
/// opening the line with `Stb::line_mut`, setting its cells with `StbLine::set_line`
/// and finishing the session with `StbLine::finish`.
pub proof fn lemma_replace_line_is_line_session(
    v: StbView,
    line: TableLine,
    mode: LineReplaceMode,
    vals: Seq<Seq<char>>,
)
    ensures
        replace_line_outcome(v, line, mode, vals) == line_session(v, line, mode, vals),
{
}

/// A list of inner-cell edits `(row, col, value)` made in order on table `v`: the
/// result of each edit and the table after the last one. Both `Stb::set_inner_cell`
/// and `StbInnerCells::set_inner_cell` take each step as `inner_edit_outcome` says, and
/// `StbInnerCells::finish` hands back the table the session holds.
pub open spec fn inner_edits(v: StbView, edits: Seq<(usize, usize, Seq<char>)>) -> (
    Seq<Result<(), StbError>>,
    StbView,
)
    decreases edits.len(),
{
    if edits.len() == 0 {
        (Seq::empty(), v)
    } else {
        let (rs, w) = inner_edits(v, edits.drop_last());
        let e = edits.last();
        let (r, w2) = inner_edit_outcome(w, e.0, e.1, e.2);
        (rs.push(r), w2)
    }
}

/// Inner-cell edits never touch the group tables nor the table's shape, and they
/// keep a consistent table consistent: every edit yields one result, the row and
/// column groups stay those of `v`, and the cell hashes follow the strings.
pub proof fn lemma_inner_edits_keep_groups(v: StbView, edits: Seq<(usize, usize, Seq<char>)>)
    requires
        v.wf(),
    ensures
        ({
            let (rs, w) = inner_edits(v, edits);
            &&& rs.len() == edits.len()
            &&& w.wf()
            &&& w.num_rows() == v.num_rows()
            &&& w.num_cols() == v.num_cols()
            &&& w.row_groups == v.row_groups
            &&& w.col_groups == v.col_groups
            &&& forall|c: int| 0 <= c < v.num_cols() ==> #[trigger] w.cells[0][c] == v.cells[0][c]
            &&& forall|r: int| 0 <= r < v.num_rows() ==> #[trigger] w.cells[r][0] == v.cells[r][0]
            &&& v.consistent() ==> w.consistent()
        }),
    decreases edits.len(),
{
    if edits.len() > 0 {
        lemma_inner_edits_keep_groups(v, edits.drop_last());
        let (rs, w) = inner_edits(v, edits.drop_last());
        let e = edits.last();
        let (row, col, value) = (e.0, e.1, e.2);
        if row != 0 && col != 0 && row < w.num_rows() && col < w.num_cols() {
            let w2 = inner_edit_outcome(w, row, col, value).1;
            assert(w2.num_cols() == w.num_cols()) by {
                assert(w2.cells[0] =~= w.cells[0]);
            }
            assert forall|r: int| 0 <= r < w2.cells.len() implies (#[trigger] w2.cells[r]).len()
                == w2.num_cols() by {}
            assert forall|r: int| 0 <= r < w2.hashes.len() implies (#[trigger] w2.hashes[r]).len()
                == w2.num_cols() by {}
            assert(w2.hashes.len() == w2.cells.len());
            assert forall|r: int| 0 <= r < w2.hashes.len() implies #[trigger] w2.hashes[r][0]
                == w.hashes[r][0] by {}
            if v.consistent() {
                assert(crate::table::row_keys(w2.hashes) =~= crate::table::row_keys(w.hashes));
                assert(w2.hashes[0] =~= w.hashes[0]);
                assert(crate::table::col_keys(w2.hashes, w2.num_cols()) =~= crate::table::col_keys(
                    w.hashes,
                    w.num_cols(),
                ));
            }
        }
    }
}

/// Setting a line to the cells it already holds and finishing the session leaves a
/// consistent table unchanged and succeeds; so does replacing the line with its own
/// cells in one call.
pub proof fn lemma_own_line_is_noop(v: StbView, line: TableLine, mode: LineReplaceMode)
    requires
        v.wf(),
        v.consistent(),
        line_access_ok(v, line, mode),
        finish_ok(v, line, mode),
    ensures
        line_session(v, line, mode, line_cells(v, line, mode)) == (Ok::<(), StbError>(()), v),
        replace_line_outcome(v, line, mode, line_cells(v, line, mode)) == (Ok::<(), StbError>(()), v),
{
    let vals = line_cells(v, line, mode);
    let len = spec_line_len(v, line, mode);
    assert(write_line(v.cells, line, mode, vals) =~= v.cells) by {
        let t = write_line(v.cells, line, mode, vals);
        assert forall|r: int| 0 <= r < v.cells.len() implies #[trigger] t[r] =~= v.cells[r] by {
            assert forall|c: int| 0 <= c < v.cells[r].len() implies t[r][c] == v.cells[r][c] by {
                if on_line(line, mode, r, c) {
                    let i = line_index(line, mode, r, c);
                    assert(0 <= i < len);
                    assert(spec_line_coord(line, mode, i) == (r, c));
                }
            }
        }
    }
    let w = StbView { cells: write_line(v.cells, line, mode, vals), ..v };
    assert(w == v);
    assert(rehash_line_upto(v, line, mode, len as int) =~= v.hashes) by {
        let h = rehash_line_upto(v, line, mode, len as int);
        assert forall|r: int| 0 <= r < v.hashes.len() implies #[trigger] h[r] =~= v.hashes[r] by {
            assert forall|c: int| 0 <= c < v.hashes[r].len() implies h[r][c] == v.hashes[r][c] by {
                if on_line(line, mode, r, c) && line_index(line, mode, r, c) < len {
                    assert(v.hashes[r][c] == spec_stb_hash(v.cells[r][c]));
                }
            }
        }
    }
    assert(finish_view(v, line, mode) == v);
    lemma_replace_line_is_line_session(v, line, mode, vals);
}

} // verus!
