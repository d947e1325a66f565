//! What reading gives back of what writing produced, for the binary STB layout.

use vstd::prelude::*;
use vstd::bytes::{
    lemma_auto_spec_u32_to_from_le_bytes, lemma_auto_spec_u64_to_from_le_bytes,
    spec_u32_to_le_bytes, spec_u64_to_le_bytes,
};
use vstd::utf8::encode_utf8;
use crate::bytes_read::{in_range, string_at, string_ok, u32_at, u64_at};
use crate::groups::{group_table_len, spec_bucket_count, spec_group_table, GroupEntry};
use crate::layout_lemmas::{
    lemma_chunks_len, lemma_encode_no_zero, lemma_group_table_read, lemma_le32_placed,
    lemma_le32_seq_len, lemma_le64_placed, lemma_le64_seq_len, lemma_offsets_bytes_len,
    lemma_placed_concat, lemma_placed_trans, lemma_placed_u32, lemma_placed_u64,
    lemma_pool_offset, lemma_pool_offsets_bound, lemma_pool_offsets_len, lemma_pool_string,
    lemma_read_string_at, lemma_u64_zero_bytes, no_nul, placed,
};
use crate::stb_format::{
    StbHeader, align8, flat_cells, header_bytes, header_len, le32_seq, le64_seq, spec_stb_bytes,
    stb_layout, zeros,
};
use crate::stb_read::{
    blocks_in_range, group_check, groups_at, hash_error, is_first_bad_string, is_first_hash_mismatch,
    parse_header, spec_read_stb, stored_hashes, string_error, string_offsets, strings_from,
    unflatten, StbReadError,
};
use crate::strings::{pool_data, pool_offsets, utf8_all};
use crate::table::{StbView, cols_of, derived_view, hash_line};
use crate::hash::spec_stb_hash;

verus! {

/// Cells that make a table this library writes and reads: at least one row and one
/// column, every row as wide as the header, no NUL character in any cell, counts that
/// fit the header fields, and a file whose offsets fit in 64 bits.
pub open spec fn storable_cells(cells: Seq<Seq<Seq<char>>>) -> bool {
    &&& 1 <= cells.len() <= u32::MAX
    &&& 1 <= cols_of(cells) <= u32::MAX
    &&& forall|r: int| 0 <= r < cells.len() ==> (#[trigger] cells[r]).len() == cols_of(cells)
    &&& forall|r: int| 0 <= r < cells.len() ==> no_nul(#[trigger] cells[r])
    &&& stb_layout(cells).file_len <= u64::MAX
}

/// Row-major flattening of a rectangular table.
pub proof fn lemma_flat_index(cells: Seq<Seq<Seq<char>>>, nc: nat)
    requires
        forall|r: int| 0 <= r < cells.len() ==> (#[trigger] cells[r]).len() == nc,
    ensures
        cells.flatten_alt().len() == cells.len() * nc,
        forall|r: int, c: int|
            0 <= r < cells.len() && 0 <= c < nc ==> cells.flatten_alt()[r * nc + c] == #[trigger] cells[r][c],
    decreases cells.len(),
{
    if cells.len() > 0 {
        let init = cells.drop_last();
        let m = init.len();
        lemma_flat_index(init, nc);
        assert(cells.flatten_alt() == init.flatten_alt() + cells.last());
        assert(m * nc + nc == cells.len() * nc) by (nonlinear_arith)
            requires
                m + 1 == cells.len(),
        ;
        assert forall|r: int, c: int| 0 <= r < cells.len() && 0 <= c < nc implies cells.flatten_alt()[r
            * nc + c] == #[trigger] cells[r][c] by {
            if r < m {
                assert(r * nc + c < m * nc) by (nonlinear_arith)
                    requires
                        r < m,
                        c < nc,
                ;
                assert(init[r][c] == cells[r][c]);
            } else {
                assert(r * nc == m * nc);
            }
        }
    }
}

/// The header written for `h` reads back as `h`.
#[verifier::spinoff_prover]
pub proof fn lemma_parse_header(h: StbHeader, rest: Seq<u8>)
    ensures
        header_bytes(h).len() == 0x40,
        parse_header(header_bytes(h) + rest) == h,
{
    lemma_auto_spec_u64_to_from_le_bytes();
    lemma_auto_spec_u32_to_from_le_bytes();
    let p0 = spec_u64_to_le_bytes(0);
    let p1 = spec_u32_to_le_bytes(h.num_rows);
    let p2 = spec_u32_to_le_bytes(h.num_cols);
    let p3 = spec_u64_to_le_bytes(h.cells_offset);
    let p4 = spec_u64_to_le_bytes(h.string_offsets_offset);
    let p5 = spec_u32_to_le_bytes(0);
    let p6 = spec_u32_to_le_bytes(h.row_group_count);
    let p7 = spec_u64_to_le_bytes(h.row_groups_offset);
    let p8 = spec_u32_to_le_bytes(0);
    let p9 = spec_u32_to_le_bytes(h.col_group_count);
    let p10 = spec_u64_to_le_bytes(h.col_groups_offset);
    let b = header_bytes(h) + rest;
    assert(b =~= p0 + p1 + (p2 + p3 + p4 + p5 + p6 + p7 + p8 + p9 + p10 + rest));
    lemma_placed_concat(p0, p1, p2 + p3 + p4 + p5 + p6 + p7 + p8 + p9 + p10 + rest);
    lemma_placed_u32(b, 8, h.num_rows);
    assert(b =~= (p0 + p1) + p2 + (p3 + p4 + p5 + p6 + p7 + p8 + p9 + p10 + rest));
    lemma_placed_concat(p0 + p1, p2, p3 + p4 + p5 + p6 + p7 + p8 + p9 + p10 + rest);
    lemma_placed_u32(b, 12, h.num_cols);
    assert(b =~= (p0 + p1 + p2) + p3 + (p4 + p5 + p6 + p7 + p8 + p9 + p10 + rest));
    lemma_placed_concat(p0 + p1 + p2, p3, p4 + p5 + p6 + p7 + p8 + p9 + p10 + rest);
    lemma_placed_u64(b, 16, h.cells_offset);
    assert(b =~= (p0 + p1 + p2 + p3) + p4 + (p5 + p6 + p7 + p8 + p9 + p10 + rest));
    lemma_placed_concat(p0 + p1 + p2 + p3, p4, p5 + p6 + p7 + p8 + p9 + p10 + rest);
    lemma_placed_u64(b, 24, h.string_offsets_offset);
    assert(b =~= (p0 + p1 + p2 + p3 + p4 + p5) + p6 + (p7 + p8 + p9 + p10 + rest));
    lemma_placed_concat(p0 + p1 + p2 + p3 + p4 + p5, p6, p7 + p8 + p9 + p10 + rest);
    lemma_placed_u32(b, 36, h.row_group_count);
    assert(b =~= (p0 + p1 + p2 + p3 + p4 + p5 + p6) + p7 + (p8 + p9 + p10 + rest));
    lemma_placed_concat(p0 + p1 + p2 + p3 + p4 + p5 + p6, p7, p8 + p9 + p10 + rest);
    lemma_placed_u64(b, 40, h.row_groups_offset);
    assert(b =~= (p0 + p1 + p2 + p3 + p4 + p5 + p6 + p7 + p8) + p9 + (p10 + rest));
    lemma_placed_concat(p0 + p1 + p2 + p3 + p4 + p5 + p6 + p7 + p8, p9, p10 + rest);
    lemma_placed_u32(b, 52, h.col_group_count);
    assert(b =~= (p0 + p1 + p2 + p3 + p4 + p5 + p6 + p7 + p8 + p9) + p10 + rest);
    lemma_placed_concat(p0 + p1 + p2 + p3 + p4 + p5 + p6 + p7 + p8 + p9, p10, rest);
    lemma_placed_u64(b, 56, h.col_groups_offset);
}

/// Size of a group table.
pub proof fn lemma_group_table_len(gs: Seq<Seq<GroupEntry>>, start: nat)
    ensures
        spec_group_table(gs, start).len() == group_table_len(gs),
{
    lemma_offsets_bytes_len(gs, start, gs.len() as int);
    lemma_chunks_len(gs, gs.len() as int);
}

/// Sizes of the pieces of the STB file, and its header.
#[verifier::spinoff_prover]
proof fn lemma_stb_sizes(cells: Seq<Seq<Seq<char>>>)
    requires
        storable_cells(cells),
    ensures
        ({
            let l = stb_layout(cells);
            let flat = flat_cells(cells);
            let d = derived_view(cells);
            let b = spec_stb_bytes(cells);
            &&& flat.len() == cells.len() * cols_of(cells)
            &&& header_bytes(l.header).len() == 0x40
            &&& l.hashes.len() == flat.len()
            &&& le32_seq(l.hashes).len() == 4 * flat.len()
            &&& l.cells_end == 0x40 + 4 * flat.len()
            &&& l.string_offsets_offset >= l.cells_end
            &&& l.offsets.len() == flat.len()
            &&& le64_seq(l.offsets).len() == 8 * flat.len()
            &&& l.strings_end == l.string_offsets_offset + 8 * flat.len()
            &&& l.row_table.len() == group_table_len(d.row_groups)
            &&& l.col_table.len() == group_table_len(d.col_groups)
            &&& b.len() == l.file_len
            &&& b == header_bytes(l.header) + le32_seq(l.hashes) + zeros(
                (l.string_offsets_offset - l.cells_end) as nat,
            ) + le64_seq(l.offsets) + l.pool + l.row_table + l.col_table
            &&& parse_header(b) == l.header
            &&& l.header.num_rows == cells.len()
            &&& l.header.num_cols == cols_of(cells)
            &&& l.header.row_groups_offset == l.strings_end + l.pool.len()
            &&& l.header.col_groups_offset == l.strings_end + l.pool.len() + l.row_table.len()
            &&& l.header.row_group_count == d.row_groups.len()
            &&& l.header.col_group_count == d.col_groups.len()
            &&& l.header.cells_offset == 0x40
            &&& l.header.string_offsets_offset == l.string_offsets_offset
        }),
{
    lemma_auto_spec_u64_to_from_le_bytes();
    lemma_auto_spec_u32_to_from_le_bytes();
    let l = stb_layout(cells);
    let d = derived_view(cells);
    let nr = cells.len();
    let nc = cols_of(cells);
    let flat = flat_cells(cells);
    lemma_flat_index(cells, nc);
    let ss = utf8_all(flat);
    lemma_le32_seq_len(l.hashes);
    lemma_pool_offsets_len(ss, l.strings_end);
    lemma_le64_seq_len(l.offsets);
    lemma_group_table_len(d.row_groups, (l.strings_end + l.pool.len()) as nat);
    lemma_group_table_len(d.col_groups, (l.strings_end + l.pool.len() + l.row_table.len()) as nat);
    assert(align8(l.cells_end) >= l.cells_end) by (nonlinear_arith)
        requires
            align8(l.cells_end) == ((l.cells_end + 7) / 8) * 8,
    ;
    let hb = header_bytes(l.header);
    let rest = le32_seq(l.hashes) + zeros((l.string_offsets_offset - l.cells_end) as nat) + le64_seq(
        l.offsets,
    ) + l.pool + l.row_table + l.col_table;
    lemma_parse_header(l.header, rest);
    assert(spec_stb_bytes(cells) =~= hb + rest);
    assert(d.row_groups.len() == spec_bucket_count(nr));
    assert(d.col_groups.len() == spec_bucket_count(nc));
    assert(spec_bucket_count(nr) <= nr && spec_bucket_count(nc) <= nc);
}

/// Stored hashes of a written STB file.
#[verifier::spinoff_prover]
proof fn lemma_stb_hashes(cells: Seq<Seq<Seq<char>>>)
    requires
        storable_cells(cells),
    ensures
        ({
            let b = spec_stb_bytes(cells);
            let h = parse_header(b);
            let flat = flat_cells(cells);
            &&& blocks_in_range(b, h)
            &&& forall|k: int|
                0 <= k < flat.len() ==> #[trigger] stored_hashes(b, h, flat.len())[k] == spec_stb_hash(
                    flat[k],
                )
        }),
{
    lemma_stb_sizes(cells);
    let l = stb_layout(cells);
    let flat = flat_cells(cells);
    let b = spec_stb_bytes(cells);
    let h = parse_header(b);
    let hb = header_bytes(l.header);
    let hsb = le32_seq(l.hashes);
    let tail = zeros((l.string_offsets_offset - l.cells_end) as nat) + le64_seq(l.offsets) + l.pool
        + l.row_table + l.col_table;
    assert(b =~= hb + hsb + tail);
    lemma_placed_concat(hb, hsb, tail);
    assert forall|k: int| 0 <= k < flat.len() implies #[trigger] stored_hashes(b, h, flat.len())[k]
        == spec_stb_hash(flat[k]) by {
        lemma_le32_placed(l.hashes, k);
        lemma_placed_trans(b, 0x40, hsb, 4 * k, spec_u32_to_le_bytes(l.hashes[k]));
        lemma_placed_u32(b, 0x40 + 4 * k, l.hashes[k]);
    }
}

/// String offsets of a written STB file.
#[verifier::spinoff_prover]
proof fn lemma_stb_offsets(cells: Seq<Seq<Seq<char>>>)
    requires
        storable_cells(cells),
    ensures
        ({
            let b = spec_stb_bytes(cells);
            let h = parse_header(b);
            let flat = flat_cells(cells);
            let l = stb_layout(cells);
            forall|k: int|
                0 <= k < flat.len() ==> #[trigger] string_offsets(b, h, flat.len())[k] as int
                    == l.offsets[k]
        }),
{
    lemma_stb_sizes(cells);
    let l = stb_layout(cells);
    let flat = flat_cells(cells);
    let ss = utf8_all(flat);
    let b = spec_stb_bytes(cells);
    let h = parse_header(b);
    let pre_o = header_bytes(l.header) + le32_seq(l.hashes) + zeros(
        (l.string_offsets_offset - l.cells_end) as nat,
    );
    let ob = le64_seq(l.offsets);
    let tail = l.pool + l.row_table + l.col_table;
    assert(b =~= pre_o + ob + tail);
    lemma_placed_concat(pre_o, ob, tail);
    lemma_pool_offsets_bound(ss, l.strings_end);
    assert forall|k: int| 0 <= k < flat.len() implies #[trigger] string_offsets(b, h, flat.len())[k] as int
        == l.offsets[k] by {
        lemma_le64_placed(l.offsets, k);
        lemma_placed_trans(b, pre_o.len() as int, ob, 8 * k, spec_u64_to_le_bytes(l.offsets[k] as u64));
        lemma_placed_u64(b, pre_o.len() + 8 * k, l.offsets[k] as u64);
    }
}

/// The string of cell `k` of a written STB file.
#[verifier::spinoff_prover]
proof fn lemma_stb_string(cells: Seq<Seq<Seq<char>>>, k: int)
    requires
        storable_cells(cells),
        0 <= k < flat_cells(cells).len(),
    ensures
        ({
            let b = spec_stb_bytes(cells);
            let l = stb_layout(cells);
            string_ok(b, l.offsets[k] as int) && string_at(b, l.offsets[k] as int) == flat_cells(cells)[k]
        }),
{
    lemma_stb_sizes(cells);
    let l = stb_layout(cells);
    let nr = cells.len();
    let nc = cols_of(cells);
    let flat = flat_cells(cells);
    lemma_flat_index(cells, nc);
    let ss = utf8_all(flat);
    let b = spec_stb_bytes(cells);
    let hb = header_bytes(l.header);
    let pre_p = hb + le32_seq(l.hashes) + zeros((l.string_offsets_offset - l.cells_end) as nat)
        + le64_seq(l.offsets);
    let pb = l.pool;
    assert(b =~= pre_p + pb + (l.row_table + l.col_table));
    lemma_placed_concat(pre_p, pb, l.row_table + l.col_table);
    assert(pre_p.len() == l.strings_end);
    lemma_pool_offset(ss, l.strings_end, k);
    assert(ss[k] == encode_utf8(flat[k]));
    let r = k / (nc as int);
    let c = k % (nc as int);
    assert(k == r * nc + c && 0 <= r < nr && 0 <= c < nc) by (nonlinear_arith)
        requires
            0 <= k < flat.len(),
            flat.len() == nr * nc,
            nc >= 1,
            r == k / (nc as int),
            c == k % (nc as int),
    ;
    assert(flat[k] == cells[r][c]);
    assert(no_nul(cells[r]));
    assert(forall|j: int| 0 <= j < flat[k].len() ==> #[trigger] flat[k][j] != '\0');
    lemma_encode_no_zero(flat[k]);
    if ss[k].len() == 0 {
        lemma_u64_zero_bytes();
        assert(b =~= hb + (le32_seq(l.hashes) + zeros((l.string_offsets_offset - l.cells_end) as nat)
            + le64_seq(l.offsets) + pb + l.row_table + l.col_table));
        assert(b[0] == hb[0]);
        assert(b.subrange(0, 0) =~= encode_utf8(flat[k]));
        lemma_read_string_at(b, 0, flat[k]);
    } else {
        lemma_pool_string(ss, k);
        let q = pool_data(ss.take(k)).len() as int;
        let len = ss[k].len() as int;
        assert(b.subrange(l.strings_end + q, l.strings_end + q + len) =~= encode_utf8(flat[k])) by {
            assert forall|i: int| 0 <= i < len implies b[l.strings_end + q + i] == encode_utf8(
                flat[k],
            )[i] by {
                assert(pb.subrange(q, q + len)[i] == pb[q + i]);
                assert(b[l.strings_end + (q + i)] == pb[q + i]);
            }
        }
        assert(b[l.strings_end + (q + len)] == pb[q + len]);
        lemma_read_string_at(b, l.strings_end + q, flat[k]);
    }
}

/// Strings of a written STB file.
proof fn lemma_stb_strings(cells: Seq<Seq<Seq<char>>>)
    requires
        storable_cells(cells),
    ensures
        ({
            let b = spec_stb_bytes(cells);
            let l = stb_layout(cells);
            let flat = flat_cells(cells);
            forall|k: int|
                0 <= k < flat.len() ==> string_ok(b, #[trigger] l.offsets[k] as int) && string_at(b, l.offsets[k] as int)
                    == flat[k]
        }),
{
    let b = spec_stb_bytes(cells);
    let l = stb_layout(cells);
    let flat = flat_cells(cells);
    assert forall|k: int| 0 <= k < flat.len() implies string_ok(b, #[trigger] l.offsets[k] as int) && string_at(
        b,
        l.offsets[k] as int,
    ) == flat[k] by {
        lemma_stb_string(cells, k);
    }
}

/// Group tables of a written STB file.
#[verifier::spinoff_prover]
proof fn lemma_stb_groups(cells: Seq<Seq<Seq<char>>>)
    requires
        storable_cells(cells),
    ensures
        ({
            let b = spec_stb_bytes(cells);
            let h = parse_header(b);
            let d = derived_view(cells);
            &&& groups_at(b, h.row_groups_offset as int, h.row_group_count as nat) == Some(d.row_groups)
            &&& groups_at(b, h.col_groups_offset as int, h.col_group_count as nat) == Some(d.col_groups)
        }),
{
    lemma_stb_sizes(cells);
    let l = stb_layout(cells);
    let d = derived_view(cells);
    let b = spec_stb_bytes(cells);
    let pre = header_bytes(l.header) + le32_seq(l.hashes) + zeros(
        (l.string_offsets_offset - l.cells_end) as nat,
    ) + le64_seq(l.offsets) + l.pool;
    let rgo = l.strings_end + l.pool.len();
    let cgo = rgo + l.row_table.len();
    assert(pre.len() == rgo);
    assert(b =~= pre + l.row_table + l.col_table);
    lemma_placed_concat(pre, l.row_table, l.col_table);
    lemma_group_table_read(b, rgo as int, d.row_groups);
    assert(b =~= (pre + l.row_table) + l.col_table + Seq::<u8>::empty());
    lemma_placed_concat(pre + l.row_table, l.col_table, Seq::<u8>::empty());
    lemma_group_table_read(b, cgo as int, d.col_groups);
}

/// Reading a written STB file gives back the table it was written from: its cells,
/// and the hashes and group tables derived from them.
#[verifier::spinoff_prover]
pub proof fn lemma_stb_round_trip(cells: Seq<Seq<Seq<char>>>)
    requires
        storable_cells(cells),
    ensures
        spec_read_stb(spec_stb_bytes(cells)) == Ok::<StbView, StbReadError>(derived_view(cells)),
{
    lemma_stb_sizes(cells);
    lemma_stb_hashes(cells);
    lemma_stb_offsets(cells);
    lemma_stb_strings(cells);
    lemma_stb_groups(cells);
    let l = stb_layout(cells);
    let d = derived_view(cells);
    let nr = cells.len();
    let nc = cols_of(cells);
    let flat = flat_cells(cells);
    lemma_flat_index(cells, nc);
    let total = flat.len();
    let b = spec_stb_bytes(cells);
    let h = parse_header(b);
    assert(total == (h.num_rows * h.num_cols) as nat);
    let hs = stored_hashes(b, h, total);
    let offs = string_offsets(b, h, total);
    assert forall|k: int| 0 <= k < total implies string_ok(b, #[trigger] offs[k] as int) && string_at(
        b,
        offs[k] as int,
    ) == flat[k] by {
        assert(offs[k] as int == l.offsets[k]);
    }
    assert(!exists|k: int| #[trigger] is_first_bad_string(b, offs, k));
    assert(string_error(b, offs) is None);
    let strs = strings_from(b, offs);
    assert(strs =~= flat);
    assert forall|k: int| 0 <= k < total implies #[trigger] hs[k] == spec_stb_hash(strs[k]) by {
        assert(hs[k] == spec_stb_hash(flat[k]));
    }
    assert(!exists|k: int| #[trigger] is_first_hash_mismatch(hs, strs, k));
    assert(hash_error(hs, strs) is None);
    let un = unflatten(strs, h.num_rows as nat, h.num_cols as nat);
    assert forall|r: int| 0 <= r < nr implies #[trigger] un[r] =~= cells[r] by {
        assert forall|c: int| 0 <= c < nc implies un[r][c] == cells[r][c] by {
            assert(flat[r * nc + c] == cells[r][c]);
        }
    }
    assert(un =~= cells);
    assert(group_check(b, h, un) == Ok::<StbView, StbReadError>(d));
}

/// A well-formed, consistent table is the one derived from its cells.
pub proof fn lemma_consistent_is_derived(v: StbView)
    requires
        v.wf(),
        v.consistent(),
    ensures
        derived_view(v.cells) == v,
{
    let d = derived_view(v.cells);
    assert(d.hashes =~= v.hashes) by {
        assert forall|r: int| 0 <= r < v.cells.len() implies d.hashes[r] =~= v.hashes[r] by {
            assert forall|c: int| 0 <= c < v.cells[r].len() implies d.hashes[r][c] == v.hashes[r][c] by {
                assert(v.hashes[r][c] == spec_stb_hash(v.cells[r][c]));
            }
        }
    }
}

/// Reading back the STB file written for a table gives that table, when its cells can
/// be stored (see [`storable_cells`]) and its hashes and groups are derived from them.
pub proof fn lemma_written_table_reads_back(v: StbView)
    requires
        v.wf(),
        v.consistent(),
        storable_cells(v.cells),
    ensures
        spec_read_stb(spec_stb_bytes(v.cells)) == Ok::<StbView, StbReadError>(v),
{
    lemma_stb_round_trip(v.cells);
    lemma_consistent_is_derived(v);
}

} // verus!
