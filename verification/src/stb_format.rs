//! The binary STB layout (`.stb` / `.stm`): writing a table out and reading one in.
//!
//! Layout: a 0x40-byte header; one `u32` hash per cell (row-major); zero padding to
//! a multiple of eight; one `u64` string offset per cell; the string pool; the
//! row-group table; the column-group table. All integers are little-endian.

use vstd::prelude::*;
use vstd::bytes::{spec_u32_to_le_bytes, spec_u64_to_le_bytes};
use vstd::string::StringSliceAdditionalSpecFns;
use crate::groups::{group_table_len, spec_group_table, encode_group_table};
use crate::hash::stb_hash;
use crate::strings::{StringPool, pool_data, pool_offsets, utf8_all, padded_len};
use crate::table::{Stb, StbView, derived_view, hash_line, cols_of};
use crate::text::lemma_map_push;

verus! {

/// Little-endian bytes of a run of `u32`s.
pub open spec fn le32_seq(xs: Seq<u32>) -> Seq<u8>
    decreases xs.len(),
{
    if xs.len() == 0 {
        Seq::empty()
    } else {
        le32_seq(xs.drop_last()) + spec_u32_to_le_bytes(xs.last())
    }
}

/// Little-endian `u64` bytes of a run of offsets.
pub open spec fn le64_seq(xs: Seq<nat>) -> Seq<u8>
    decreases xs.len(),
{
    if xs.len() == 0 {
        Seq::empty()
    } else {
        le64_seq(xs.drop_last()) + spec_u64_to_le_bytes(xs.last() as u64)
    }
}

/// `n` rounded up to a multiple of eight.
pub open spec fn align8(n: nat) -> nat {
    ((n + 7) / 8) * 8
}

/// `n` zero bytes.
pub open spec fn zeros(n: nat) -> Seq<u8> {
    Seq::new(n, |i: int| 0u8)
}

/// Size of the STB header.
pub open spec fn header_len() -> nat {
    0x40
}

/// The STB header fields.
pub struct StbHeader {
    pub num_rows: u32,
    pub num_cols: u32,
    pub cells_offset: u64,
    pub string_offsets_offset: u64,
    pub row_group_count: u32,
    pub row_groups_offset: u64,
    pub col_group_count: u32,
    pub col_groups_offset: u64,
}

/// Bytes of the header (the version and both padding words are zero).
pub open spec fn header_bytes(h: StbHeader) -> Seq<u8> {
    spec_u64_to_le_bytes(0) + spec_u32_to_le_bytes(h.num_rows) + spec_u32_to_le_bytes(h.num_cols)
        + spec_u64_to_le_bytes(h.cells_offset) + spec_u64_to_le_bytes(h.string_offsets_offset)
        + spec_u32_to_le_bytes(0) + spec_u32_to_le_bytes(h.row_group_count) + spec_u64_to_le_bytes(
        h.row_groups_offset,
    ) + spec_u32_to_le_bytes(0) + spec_u32_to_le_bytes(h.col_group_count) + spec_u64_to_le_bytes(
        h.col_groups_offset,
    )
}

/// All cell strings in row-major order (header row first).
pub open spec fn flat_cells(cells: Seq<Seq<Seq<char>>>) -> Seq<Seq<char>> {
    cells.flatten_alt()
}

/// The pieces of the file written for the table with these cells.
pub struct StbLayout {
    pub header: StbHeader,
    pub hashes: Seq<u32>,
    pub cells_end: nat,
    pub string_offsets_offset: nat,
    pub strings_end: nat,
    pub offsets: Seq<nat>,
    pub pool: Seq<u8>,
    pub row_table: Seq<u8>,
    pub col_table: Seq<u8>,
    pub file_len: nat,
}

/// Where each piece of the STB file for `cells` goes.
pub open spec fn stb_layout(cells: Seq<Seq<Seq<char>>>) -> StbLayout {
    let d = derived_view(cells);
    let flat = flat_cells(cells);
    let total = flat.len();
    let cells_end = header_len() + 4 * total;
    let so = align8(cells_end);
    let so_end = so + 8 * total;
    let ss = utf8_all(flat);
    let pool = pool_data(ss);
    let rgo = so_end + pool.len();
    let cgo = rgo + group_table_len(d.row_groups);
    StbLayout {
        header: StbHeader {
            num_rows: cells.len() as u32,
            num_cols: cols_of(cells) as u32,
            cells_offset: header_len() as u64,
            string_offsets_offset: so as u64,
            row_group_count: d.row_groups.len() as u32,
            row_groups_offset: rgo as u64,
            col_group_count: d.col_groups.len() as u32,
            col_groups_offset: cgo as u64,
        },
        hashes: hash_line(flat),
        cells_end,
        string_offsets_offset: so,
        strings_end: so_end,
        offsets: pool_offsets(ss, so_end),
        pool,
        row_table: spec_group_table(d.row_groups, rgo),
        col_table: spec_group_table(d.col_groups, cgo),
        file_len: cgo + group_table_len(d.col_groups),
    }
}

/// The STB file for a table with these cells. Everything is derived from the
/// strings: hashes and group tables stored in the table are not consulted.
pub open spec fn spec_stb_bytes(cells: Seq<Seq<Seq<char>>>) -> Seq<u8> {
    let l = stb_layout(cells);
    header_bytes(l.header) + le32_seq(l.hashes) + zeros((l.string_offsets_offset - l.cells_end) as nat)
        + le64_seq(l.offsets) + l.pool + l.row_table + l.col_table
}

pub(crate) fn push_u32(out: &mut Vec<u8>, x: u32)
    ensures
        final(out)@ == old(out)@ + spec_u32_to_le_bytes(x),
{
    let mut b = vstd::bytes::u32_to_le_bytes(x);
    out.append(&mut b);
}

pub(crate) fn push_u64(out: &mut Vec<u8>, x: u64)
    ensures
        final(out)@ == old(out)@ + spec_u64_to_le_bytes(x),
{
    let mut b = vstd::bytes::u64_to_le_bytes(x);
    out.append(&mut b);
}

pub(crate) proof fn lemma_pool_prefix_len(ss: Seq<Seq<u8>>, k: int)
    requires
        0 <= k <= ss.len(),
    ensures
        pool_data(ss.take(k)).len() <= pool_data(ss).len(),
        k < ss.len() && ss[k].len() > 0 ==> pool_data(ss.take(k)).len() + padded_len(ss[k].len())
            <= pool_data(ss).len(),
    decreases ss.len() - k,
{
    if k < ss.len() {
        lemma_pool_prefix_len(ss, k + 1);
        assert(ss.take(k + 1).drop_last() =~= ss.take(k));
        assert(ss.take(k + 1).last() == ss[k]);
    } else {
        assert(ss.take(k) =~= ss);
    }
}

pub(crate) proof fn lemma_utf8_all_take_push(flat: Seq<Seq<char>>, k: int)
    requires
        0 <= k < flat.len(),
    ensures
        utf8_all(flat.take(k + 1)) == utf8_all(flat.take(k)).push(vstd::utf8::encode_utf8(flat[k])),
        utf8_all(flat.take(k)) == utf8_all(flat).take(k),
{
    assert(flat.take(k + 1) =~= flat.take(k).push(flat[k]));
    lemma_map_push(flat.take(k), flat[k], |s: Seq<char>| vstd::utf8::encode_utf8(s));
    assert(utf8_all(flat.take(k)) =~= utf8_all(flat).take(k));
}

impl Stb {
    /// Serialize this table to the binary STB format.
    ///
    /// Hashes and group tables are derived from the strings, as the game expects.
    pub fn write_stb(&self) -> (out: Vec<u8>)
        requires
            self.wf(),
            self@.num_cols() >= 1,
            stb_layout(self@.cells).file_len <= u64::MAX,
        ensures
            out@ == spec_stb_bytes(self@.cells),
    {
        let ghost cells = self@.cells;
        let ghost l = stb_layout(cells);
        let flat = self.flat_strings();
        assert(flat@.map_values(|s: &str| s@) == flat_cells(cells));
        let ghost fv = flat@.map_values(|s: &str| s@);
        let total = flat.len();
        let num_rows = self.num_rows() as u32;
        let num_cols = self.num_cols() as u32;
        let header_size: u64 = 0x40;
        let cells_offset = header_size;
        let cells_end: u64 = cells_offset + (total as u64) * 4;
        let string_offsets_offset: u64 = ((cells_end + 7) / 8) * 8;
        let string_offsets_end: u64 = string_offsets_offset + (total as u64) * 8;

        // Cell hashes, row-major.
        let mut hashes_bytes: Vec<u8> = Vec::new();
        let mut k: usize = 0;
        while k < total
            invariant
                k <= total,
                total == flat@.len(),
                fv == flat@.map_values(|s: &str| s@),
                hashes_bytes@ == le32_seq(hash_line(fv.take(k as int))),
            decreases total - k,
        {
            push_u32(&mut hashes_bytes, stb_hash(flat[k]));
            proof {
                assert(hash_line(fv.take(k + 1)).drop_last() =~= hash_line(fv.take(k as int)));
            }
            k = k + 1;
        }
        proof {
            assert(fv.take(total as int) =~= fv);
        }

        // String pool.
        let ghost ss = utf8_all(fv);
        let mut pool = StringPool::new(string_offsets_end);
        let mut k: usize = 0;
        proof {
            assert(utf8_all(fv.take(0)) =~= Seq::<Seq<u8>>::empty());
        }
        while k < total
            invariant
                k <= total,
                total == flat@.len(),
                fv == flat@.map_values(|s: &str| s@),
                ss == utf8_all(fv),
                string_offsets_end + pool_data(ss).len() <= u64::MAX,
                pool.holds(utf8_all(fv.take(k as int)), string_offsets_end as nat),
            decreases total - k,
        {
            proof {
                lemma_utf8_all_take_push(fv, k as int);
                lemma_pool_prefix_len(ss, k as int);
                assert(fv[k as int] == flat@[k as int]@);
                assert(ss[k as int] == flat@[k as int].spec_bytes());
            }
            pool.push(flat[k]);
            k = k + 1;
        }
        proof {
            assert(fv.take(total as int) =~= fv);
        }
        let string_pool_end = pool.next_offset;

        let (_hashes, row_groups, col_groups) = crate::table::build_tables_for_write(self);
        let row_group_count = row_groups.len() as u32;
        let col_group_count = col_groups.len() as u32;
        let row_groups_offset = string_pool_end;
        proof {
            assert(l.strings_end == string_offsets_end);
            assert(l.pool == pool.data@);
            assert(row_groups_offset as nat + group_table_len(derived_view(cells).row_groups) <= l.file_len);
        }
        let row_groups_bytes = encode_group_table(row_groups.as_slice(), row_groups_offset);
        let col_groups_offset = row_groups_offset + row_groups_bytes.len() as u64;
        let col_groups_bytes = encode_group_table(col_groups.as_slice(), col_groups_offset);
        let ghost h = StbHeader {
            num_rows,
            num_cols,
            cells_offset,
            string_offsets_offset,
            row_group_count,
            row_groups_offset,
            col_group_count,
            col_groups_offset,
        };
        proof {
            assert(h == l.header);
        }

        let mut out: Vec<u8> = Vec::new();
        push_u64(&mut out, 0);
        push_u32(&mut out, num_rows);
        push_u32(&mut out, num_cols);
        push_u64(&mut out, cells_offset);
        push_u64(&mut out, string_offsets_offset);
        push_u32(&mut out, 0);
        push_u32(&mut out, row_group_count);
        push_u64(&mut out, row_groups_offset);
        push_u32(&mut out, 0);
        push_u32(&mut out, col_group_count);
        push_u64(&mut out, col_groups_offset);
        assert(out@ =~= header_bytes(l.header));
        let mut hb = hashes_bytes;
        out.append(&mut hb);
        let mut pos = cells_end;
        assert(zeros(0) =~= Seq::<u8>::empty());
        while pos < string_offsets_offset
            invariant
                cells_end <= pos <= string_offsets_offset,
                out@ =~= header_bytes(l.header) + le32_seq(l.hashes) + zeros((pos - cells_end) as nat),
            decreases string_offsets_offset - pos,
        {
            out.push(0);
            pos = pos + 1;
            assert(zeros((pos - cells_end) as nat) =~= zeros((pos - 1 - cells_end) as nat).push(0u8));
        }
        let ghost prefix = out@;
        let ghost ov = pool.offsets@.map_values(|o: u64| o as nat);
        let mut i: usize = 0;
        while i < pool.offsets.len()
            invariant
                i <= pool.offsets@.len(),
                ov == pool.offsets@.map_values(|o: u64| o as nat),
                out@ == prefix + le64_seq(ov.take(i as int)),
            decreases pool.offsets@.len() - i,
        {
            push_u64(&mut out, pool.offsets[i]);
            proof {
                assert(ov.take(i + 1).drop_last() =~= ov.take(i as int));
                assert(ov.take(i + 1).last() as u64 == pool.offsets@[i as int]);
            }
            i = i + 1;
        }
        proof {
            assert(ov.take(i as int) =~= ov);
            assert(ov == l.offsets);
        }
        let mut data = pool.data;
        out.append(&mut data);
        let mut rb = row_groups_bytes;
        out.append(&mut rb);
        let mut cb = col_groups_bytes;
        out.append(&mut cb);
        proof {
            assert(out@ =~= spec_stb_bytes(cells));
        }
        out
    }
}

} // verus!
