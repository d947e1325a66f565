//! Reading the binary STB layout back into a table.

use vstd::prelude::*;
use crate::bytes_read::{
    cstr_at, has_nul_from, in_range, read_null_string, read_u32, read_u64, string_at, string_ok,
    u32_at, u64_at,
};
use crate::error::StbTablesValidation;
use crate::groups::{Group, GroupEntry, groups_view};
use crate::hash::{spec_stb_hash, stb_hash};
use crate::stb_format::StbHeader;
use crate::table::{
    Stb, StbView, derived_view, dims_match, rebuild_col_groups, rebuild_row_groups, rectangular,
    table_cells, groups_eq,
};
use crate::text::strings_view;

verus! {

/// Why an STB file could not be read.
#[derive(Debug, Clone, Copy, PartialEq, Eq, Structural)]
pub enum StbReadError {
    /// A read went past the end of the data (a truncated or corrupt file).
    UnexpectedEof,
    /// The string of the cell at this row-major index is not valid UTF-8.
    InvalidUtf8 { index: usize },
    /// The stored hash of the cell at this row-major index is not the hash of its string.
    HashMismatch { index: usize, found: u32, expected: u32 },
    /// The row group table does not match the cell hashes.
    RowGroupsMismatch,
    /// The column group table does not match the cell hashes.
    ColGroupsMismatch,
}

/// The header fields of an STB file of at least 0x40 bytes.
pub open spec fn parse_header(b: Seq<u8>) -> StbHeader {
    StbHeader {
        num_rows: u32_at(b, 8),
        num_cols: u32_at(b, 12),
        cells_offset: u64_at(b, 16),
        string_offsets_offset: u64_at(b, 24),
        row_group_count: u32_at(b, 36),
        row_groups_offset: u64_at(b, 40),
        col_group_count: u32_at(b, 52),
        col_groups_offset: u64_at(b, 56),
    }
}

/// The group stored at `off`: an entry count, an entry size, then the entries.
pub open spec fn group_at(b: Seq<u8>, off: int) -> Option<Seq<GroupEntry>> {
    if !in_range(b, off, 16) {
        None
    } else {
        let n = u64_at(b, off) as nat;
        if !in_range(b, off + 16, (8 * n) as int) {
            None
        } else {
            Some(
                Seq::new(
                    n,
                    |k: int|
                        GroupEntry { index: u32_at(b, off + 16 + 8 * k), hash: u32_at(b, off + 20 + 8 * k) },
                ),
            )
        }
    }
}

/// Offset of group `k` of the table whose offsets start at `off`.
pub open spec fn group_offset_at(b: Seq<u8>, off: int, k: int) -> int {
    u64_at(b, off + 8 * k) as int
}

/// The group table with `count` groups whose offsets start at `off`.
pub open spec fn groups_at(b: Seq<u8>, off: int, count: nat) -> Option<Seq<Seq<GroupEntry>>> {
    if !in_range(b, off, (8 * count) as int) {
        None
    } else if forall|k: int| 0 <= k < count ==> (#[trigger] group_at(b, group_offset_at(b, off, k))) is Some {
        Some(Seq::new(count, |k: int| group_at(b, group_offset_at(b, off, k)).unwrap()))
    } else {
        None
    }
}

/// String offsets of the `n` cells.
pub open spec fn string_offsets(b: Seq<u8>, h: StbHeader, n: nat) -> Seq<u64> {
    Seq::new(n, |k: int| u64_at(b, h.string_offsets_offset + 8 * k))
}

/// Stored hashes of the `n` cells.
pub open spec fn stored_hashes(b: Seq<u8>, h: StbHeader, n: nat) -> Seq<u32> {
    Seq::new(n, |k: int| u32_at(b, h.cells_offset + 4 * k))
}

/// `k` is the first cell whose string cannot be read.
pub open spec fn is_first_bad_string(b: Seq<u8>, offs: Seq<u64>, k: int) -> bool {
    &&& 0 <= k < offs.len()
    &&& !string_ok(b, offs[k] as int)
    &&& forall|j: int| 0 <= j < k ==> string_ok(b, #[trigger] offs[j] as int)
}

/// Why the strings at `offs` cannot all be read, if they cannot: the first one that
/// fails is either unterminated or not UTF-8.
pub open spec fn string_error(b: Seq<u8>, offs: Seq<u64>) -> Option<StbReadError> {
    if exists|k: int| #[trigger] is_first_bad_string(b, offs, k) {
        let k = choose|k: int| #[trigger] is_first_bad_string(b, offs, k);
        if !has_nul_from(b, offs[k] as int) {
            Some(StbReadError::UnexpectedEof)
        } else {
            Some(StbReadError::InvalidUtf8 { index: k as usize })
        }
    } else {
        None
    }
}

/// The strings stored at `offs`.
pub open spec fn strings_from(b: Seq<u8>, offs: Seq<u64>) -> Seq<Seq<char>> {
    Seq::new(offs.len(), |k: int| string_at(b, offs[k] as int))
}

/// `k` is the first cell whose stored hash is not the hash of its string.
pub open spec fn is_first_hash_mismatch(hs: Seq<u32>, strs: Seq<Seq<char>>, k: int) -> bool {
    &&& 0 <= k < hs.len()
    &&& hs[k] != spec_stb_hash(strs[k])
    &&& forall|j: int| 0 <= j < k ==> #[trigger] hs[j] == spec_stb_hash(strs[j])
}

/// The first stored hash that disagrees with its string, if any.
pub open spec fn hash_error(hs: Seq<u32>, strs: Seq<Seq<char>>) -> Option<StbReadError> {
    if exists|k: int| #[trigger] is_first_hash_mismatch(hs, strs, k) {
        let k = choose|k: int| #[trigger] is_first_hash_mismatch(hs, strs, k);
        Some(StbReadError::HashMismatch { index: k as usize, found: hs[k], expected: spec_stb_hash(strs[k]) })
    } else {
        None
    }
}

/// Cells of a table of `nr` rows and `nc` columns from its row-major strings.
pub open spec fn unflatten(strs: Seq<Seq<char>>, nr: nat, nc: nat) -> Seq<Seq<Seq<char>>> {
    Seq::new(nr, |r: int| Seq::new(nc, |c: int| strs[r * nc + c]))
}

/// The cell blocks of the header fit in the data.
pub open spec fn blocks_in_range(b: Seq<u8>, h: StbHeader) -> bool {
    let total = (h.num_rows * h.num_cols) as nat;
    in_range(b, h.cells_offset as int, (4 * total) as int) && in_range(
        b,
        h.string_offsets_offset as int,
        (8 * total) as int,
    )
}

/// Reading these bytes would fail on an empty table dimension (no header row, or no
/// column to key the row groups by).
pub open spec fn spec_read_panics(b: Seq<u8>) -> bool {
    let h = parse_header(b);
    &&& b.len() >= 0x40
    &&& (h.num_rows == 0 || (h.num_cols == 0 && groups_at(b, h.row_groups_offset as int, h.row_group_count as nat) is Some
        && groups_at(b, h.col_groups_offset as int, h.col_group_count as nat) is Some))
}

/// What the group tables of `b` say of the table with cells `cells`.
pub open spec fn group_check(b: Seq<u8>, h: StbHeader, cells: Seq<Seq<Seq<char>>>) -> Result<StbView, StbReadError> {
    let rg = groups_at(b, h.row_groups_offset as int, h.row_group_count as nat);
    let cg = groups_at(b, h.col_groups_offset as int, h.col_group_count as nat);
    if rg is None || cg is None {
        Err(StbReadError::UnexpectedEof)
    } else {
        let d = derived_view(cells);
        if rg.unwrap() != d.row_groups {
            Err(StbReadError::RowGroupsMismatch)
        } else if cg.unwrap() != d.col_groups {
            Err(StbReadError::ColGroupsMismatch)
        } else {
            Ok(d)
        }
    }
}

/// The table stored in `b`, or why it cannot be read.
pub open spec fn spec_read_stb(b: Seq<u8>) -> Result<StbView, StbReadError> {
    if b.len() < 0x40 {
        Err(StbReadError::UnexpectedEof)
    } else {
        let h = parse_header(b);
        let total = (h.num_rows * h.num_cols) as nat;
        if !blocks_in_range(b, h) {
            Err(StbReadError::UnexpectedEof)
        } else {
            let offs = string_offsets(b, h, total);
            match string_error(b, offs) {
                Some(e) => Err(e),
                None => {
                    let strs = strings_from(b, offs);
                    match hash_error(stored_hashes(b, h, total), strs) {
                        Some(e) => Err(e),
                        None => group_check(b, h, unflatten(strs, h.num_rows as nat, h.num_cols as nat)),
                    }
                },
            }
        }
    }
}

proof fn lemma_mul_fits(a: u32, b: u32)
    ensures
        a * b <= 0xffff_fffe_0000_0001,
{
    assert(a * b <= 0xffff_ffff * 0xffff_ffff) by (nonlinear_arith)
        requires
            a <= 0xffff_ffff,
            b <= 0xffff_ffff,
    ;
}

/// Read the header fields.
fn read_header(bytes: &[u8]) -> (h: StbHeader)
    requires
        bytes.len() >= 0x40,
    ensures
        h == parse_header(bytes@),
{
    StbHeader {
        num_rows: read_u32(bytes, 8),
        num_cols: read_u32(bytes, 12),
        cells_offset: read_u64(bytes, 16),
        string_offsets_offset: read_u64(bytes, 24),
        row_group_count: read_u32(bytes, 36),
        row_groups_offset: read_u64(bytes, 40),
        col_group_count: read_u32(bytes, 52),
        col_groups_offset: read_u64(bytes, 56),
    }
}

/// Read the group stored at `off`.
fn read_group(b: &[u8], off: u64) -> (r: Option<Vec<GroupEntry>>)
    ensures
        r is Some <==> group_at(b@, off as int) is Some,
        r matches Some(g) ==> g@ == group_at(b@, off as int).unwrap(),
{
    if (off as u128) + 16 > b.len() as u128 {
        return None;
    }
    let o = off as usize;
    let n = read_u64(b, o);
    if (o as u128) + 16 + 8 * (n as u128) > b.len() as u128 {
        return None;
    }
    let ghost expected = group_at(b@, off as int).unwrap();
    let count = n as usize;
    let mut entries: Vec<GroupEntry> = Vec::new();
    let mut k: usize = 0;
    while k < count
        invariant
            b@.len() <= usize::MAX,
            o == off,
            o + 16 + 8 * n <= b@.len(),
            count == n,
            k <= count,
            n == u64_at(b@, off as int),
            expected == group_at(b@, off as int).unwrap(),
            entries@ == expected.take(k as int),
        decreases count - k,
    {
        proof {
            assert(8 * k + 8 <= 8 * count) by (nonlinear_arith)
                requires
                    k < count,
            ;
        }
        let at = o + 16 + 8 * k;
        let index = read_u32(b, at);
        let hash = read_u32(b, at + 4);
        entries.push(GroupEntry { index, hash });
        proof {
            assert(expected.take(k + 1) =~= expected.take(k as int).push(GroupEntry { index, hash }));
        }
        k = k + 1;
    }
    proof {
        assert(expected.take(k as int) =~= expected);
    }
    Some(entries)
}

/// Read the group table of `count` groups whose offsets start at `table_offset`.
fn read_groups(b: &[u8], table_offset: u64, count: u32) -> (r: Option<Vec<Group>>)
    ensures
        r is Some <==> groups_at(b@, table_offset as int, count as nat) is Some,
        r matches Some(g) ==> groups_view(g@) == groups_at(b@, table_offset as int, count as nat).unwrap(),
{
    if count > 0 && (table_offset as u128) + 8 * (count as u128) > b.len() as u128 {
        return None;
    }
    let mut groups: Vec<Group> = Vec::new();
    let blen = b.len();
    let base: usize = if count > 0 {
        table_offset as usize
    } else {
        0
    };
    let mut k: u32 = 0;
    while k < count
        invariant
            b@.len() <= usize::MAX,
            k <= count,
            count > 0 ==> base == table_offset,
            in_range(b@, table_offset as int, (8 * count) as int),
            count > 0 ==> table_offset + 8 * count <= b@.len(),
            groups@.len() == k,
            forall|j: int|
                0 <= j < k ==> #[trigger] group_at(b@, group_offset_at(b@, table_offset as int, j))
                    == Some(groups@[j]@),
        decreases count - k,
    {
        proof {
            assert(8 * k + 8 <= 8 * count) by (nonlinear_arith)
                requires
                    k < count,
            ;
        }
        let goff = read_u64(b, base + 8 * (k as usize));
        proof {
            assert(goff == group_offset_at(b@, table_offset as int, k as int));
        }
        match read_group(b, goff) {
            Some(entries) => {
                groups.push(Group { entries });
                proof {
                    assert(groups@[k as int]@ == entries@);
                }
            },
            None => {
                proof {
                    assert(!(group_at(b@, group_offset_at(b@, table_offset as int, k as int)) is Some));
                }
                return None;
            },
        }
        k = k + 1;
    }
    proof {
        assert(groups_view(groups@) =~= groups_at(b@, table_offset as int, count as nat).unwrap());
    }
    Some(groups)
}

/// Read the stored hashes and string offsets of the `total` cells.
fn read_cell_blocks(bytes: &[u8], h: &StbHeader, total: usize) -> (r: (Vec<u32>, Vec<u64>))
    requires
        total == h.num_rows * h.num_cols,
        blocks_in_range(bytes@, *h),
    ensures
        r.0@ == stored_hashes(bytes@, *h, total as nat),
        r.1@ == string_offsets(bytes@, *h, total as nat),
{
    let ghost hs = stored_hashes(bytes@, *h, total as nat);
    let ghost offs = string_offsets(bytes@, *h, total as nat);
    let mut hashes: Vec<u32> = Vec::new();
    let mut offsets: Vec<u64> = Vec::new();
    let blen = bytes.len();
    proof {
        if total > 0 {
            assert(h.cells_offset + 4 * total <= blen);
            assert(h.string_offsets_offset + 8 * total <= blen);
        }
    }
    let (cbase, sbase): (usize, usize) = if total > 0 {
        (h.cells_offset as usize, h.string_offsets_offset as usize)
    } else {
        (0, 0)
    };
    let mut k: usize = 0;
    while k < total
        invariant
            bytes@.len() <= usize::MAX,
            k <= total,
            total > 0 ==> cbase == h.cells_offset && sbase == h.string_offsets_offset,
            total == h.num_rows * h.num_cols,
            blocks_in_range(bytes@, *h),
            hs == stored_hashes(bytes@, *h, total as nat),
            offs == string_offsets(bytes@, *h, total as nat),
            hashes@ == hs.take(k as int),
            offsets@ == offs.take(k as int),
        decreases total - k,
    {
        proof {
            assert(4 * k + 4 <= 4 * total && 8 * k + 8 <= 8 * total) by (nonlinear_arith)
                requires
                    k < total,
            ;
        }
        let x = read_u32(bytes, cbase + 4 * k);
        let o = read_u64(bytes, sbase + 8 * k);
        hashes.push(x);
        offsets.push(o);
        proof {
            assert(hs.take(k + 1) =~= hs.take(k as int).push(x));
            assert(offs.take(k + 1) =~= offs.take(k as int).push(o));
        }
        k = k + 1;
    }
    proof {
        assert(hs.take(total as int) =~= hs);
        assert(offs.take(total as int) =~= offs);
    }
    (hashes, offsets)
}

/// Read the strings at `offsets`, stopping at the first that cannot be read.
pub(crate) fn read_strings(bytes: &[u8], offsets: &Vec<u64>) -> (r: Result<Vec<String>, StbReadError>)
    ensures
        match r {
            Ok(v) => string_error(bytes@, offsets@) is None && strings_view(v@) == strings_from(
                bytes@,
                offsets@,
            ),
            Err(e) => string_error(bytes@, offsets@) == Some(e),
        },
{
    let ghost b = bytes@;
    let ghost offs = offsets@;
    let mut strings: Vec<String> = Vec::new();
    let mut k: usize = 0;
    while k < offsets.len()
        invariant
            k <= offs.len(),
            b == bytes@,
            offs == offsets@,
            strings@.len() == k,
            forall|j: int| 0 <= j < k ==> string_ok(b, #[trigger] offs[j] as int),
            forall|j: int| 0 <= j < k ==> (#[trigger] strings@[j])@ == string_at(b, offs[j] as int),
        decreases offs.len() - k,
    {
        match read_null_string(bytes, offsets[k]) {
            None => {
                proof {
                    lemma_first_bad_string(b, offs, k as int);
                }
                return Err(StbReadError::UnexpectedEof);
            },
            Some(None) => {
                proof {
                    lemma_first_bad_string(b, offs, k as int);
                }
                return Err(StbReadError::InvalidUtf8 { index: k });
            },
            Some(Some(s)) => {
                strings.push(s);
            },
        }
        k = k + 1;
    }
    proof {
        assert(!exists|k: int| #[trigger] is_first_bad_string(b, offs, k));
        assert(strings_view(strings@) =~= strings_from(b, offs));
    }
    Ok(strings)
}

proof fn lemma_first_bad_string(b: Seq<u8>, offs: Seq<u64>, k: int)
    requires
        is_first_bad_string(b, offs, k),
    ensures
        string_error(b, offs) == Some(
            if !has_nul_from(b, offs[k] as int) {
                StbReadError::UnexpectedEof
            } else {
                StbReadError::InvalidUtf8 { index: k as usize }
            },
        ),
{
    let k2 = choose|k2: int| #[trigger] is_first_bad_string(b, offs, k2);
    assert(k2 == k) by {
        if k2 < k {
            assert(string_ok(b, offs[k2] as int));
        } else if k < k2 {
            assert(string_ok(b, offs[k] as int));
        }
    }
}

/// Index of the first stored hash that is not the hash of its string, if any.
fn first_hash_mismatch(hashes: &Vec<u32>, strings: &Vec<String>) -> (r: Option<usize>)
    requires
        hashes.len() == strings.len(),
    ensures
        hash_error(hashes@, strings_view(strings@)) == match r {
            Some(k) => Some(
                StbReadError::HashMismatch {
                    index: k,
                    found: hashes@[k as int],
                    expected: spec_stb_hash(strings@[k as int]@),
                },
            ),
            None => None::<StbReadError>,
        },
        r matches Some(k) ==> k < hashes.len(),
        r is None ==> forall|j: int|
            0 <= j < hashes.len() ==> #[trigger] hashes@[j] == spec_stb_hash(strings@[j]@),
{
    let ghost hs = hashes@;
    let ghost strs = strings_view(strings@);
    let mut k: usize = 0;
    while k < hashes.len()
        invariant
            k <= hs.len(),
            hs == hashes@,
            strs == strings_view(strings@),
            hs.len() == strs.len(),
            forall|j: int| 0 <= j < k ==> #[trigger] hs[j] == spec_stb_hash(strs[j]),
        decreases hs.len() - k,
    {
        let expected = stb_hash(strings[k].as_str());
        if hashes[k] != expected {
            proof {
                assert(is_first_hash_mismatch(hs, strs, k as int));
                let k2 = choose|k2: int| #[trigger] is_first_hash_mismatch(hs, strs, k2);
                assert(k2 == k) by {
                    if k2 < k {
                        assert(hs[k2] == spec_stb_hash(strs[k2]));
                    } else if k < k2 {
                        assert(hs[k as int] == spec_stb_hash(strs[k as int]));
                    }
                }
            }
            return Some(k);
        }
        k = k + 1;
    }
    proof {
        assert(!exists|k: int| #[trigger] is_first_hash_mismatch(hs, strs, k));
    }
    None
}

/// Split row-major strings and hashes into the header row, the body rows and the rows
/// of hashes.
fn split_rows(strings: &Vec<String>, hashes: &Vec<u32>, nr: usize, nc: usize) -> (r: (
    Vec<String>,
    Vec<Vec<String>>,
    Vec<Vec<u32>>,
))
    requires
        nr >= 1,
        strings.len() == nr * nc,
        hashes.len() == nr * nc,
        forall|j: int| 0 <= j < hashes.len() ==> #[trigger] hashes@[j] == spec_stb_hash(strings@[j]@),
    ensures
        table_cells(r.0@, r.1@) == unflatten(strings_view(strings@), nr as nat, nc as nat),
        r.2@.map_values(|v: Vec<u32>| v@) == derived_view(
            unflatten(strings_view(strings@), nr as nat, nc as nat),
        ).hashes,
        r.0@.len() == nc,
        r.1@.len() + 1 == nr,
        rectangular(nc as nat, r.1@),
        dims_match(r.2@, nr as nat, nc as nat),
{
    let ghost strs = strings_view(strings@);
    let ghost cells = unflatten(strs, nr as nat, nc as nat);
    let mut columns: Vec<String> = Vec::new();
    let mut rows: Vec<Vec<String>> = Vec::new();
    let mut cell_hashes: Vec<Vec<u32>> = Vec::new();
    let mut r: usize = 0;
    while r < nr
        invariant
            r <= nr,
            nr >= 1,
            strings.len() == nr * nc,
            hashes.len() == nr * nc,
            strs == strings_view(strings@),
            forall|j: int| 0 <= j < hashes.len() ==> #[trigger] hashes@[j] == spec_stb_hash(strings@[j]@),
            cells == unflatten(strs, nr as nat, nc as nat),
            r > 0 ==> strings_view(columns@) == cells[0],
            r > 0 ==> columns@.len() == nc,
            rows@.len() == if r > 0 { r - 1 } else { 0 },
            forall|i: int| 0 <= i < rows@.len() ==> (#[trigger] rows@[i])@.len() == nc,
            forall|i: int| 0 <= i < r ==> (#[trigger] cell_hashes@[i])@.len() == nc,
            forall|i: int| 0 <= i < rows@.len() ==> strings_view((#[trigger] rows@[i])@) == cells[i + 1],
            cell_hashes@.len() == r,
            forall|i: int| 0 <= i < r ==> (#[trigger] cell_hashes@[i])@ == crate::table::hash_line(cells[i]),
        decreases nr - r,
    {
        proof {
            assert(r * nc + nc <= nr * nc) by (nonlinear_arith)
                requires
                    r < nr,
            ;
        }
        let base = r * nc;
        assert(cells[r as int].len() == nc);
        let mut line: Vec<String> = Vec::new();
        let mut hline: Vec<u32> = Vec::new();
        let mut c: usize = 0;
        while c < nc
            invariant
                c <= nc,
                r < nr,
                base == r * nc,
                base + nc <= nr * nc,
                strings.len() == nr * nc,
                hashes.len() == nr * nc,
                strs == strings_view(strings@),
                forall|j: int| 0 <= j < hashes.len() ==> #[trigger] hashes@[j] == spec_stb_hash(strings@[j]@),
                cells == unflatten(strs, nr as nat, nc as nat),
                line@.len() == c,
                hline@.len() == c,
                cells[r as int].len() == nc,
                strings_view(line@) =~= cells[r as int].take(c as int),
                hline@ =~= crate::table::hash_line(cells[r as int]).take(c as int),
            decreases nc - c,
        {
            let s = strings[base + c].clone();
            line.push(s);
            hline.push(hashes[base + c]);
            proof {
                assert(cells[r as int][c as int] == strs[base + c]);
                assert(strs[base + c] == strings@[base + c]@);
                assert(line@[c as int]@ == strs[base + c]);
                assert(strings_view(line@) =~= cells[r as int].take(c + 1));
            }
            c = c + 1;
        }
        proof {
            assert(cells[r as int].take(nc as int) =~= cells[r as int]);
            assert(crate::table::hash_line(cells[r as int]).take(nc as int) =~= crate::table::hash_line(cells[r as int]));
        }
        if r == 0 {
            columns = line;
        } else {
            rows.push(line);
        }
        cell_hashes.push(hline);
        r = r + 1;
    }
    proof {
        assert(table_cells(columns@, rows@) =~= cells);
        assert(cell_hashes@.map_values(|v: Vec<u32>| v@) =~= derived_view(cells).hashes);
    }
    (columns, rows, cell_hashes)
}

/// Whether reading `bytes` as an STB file meets a table with no rows, or with no
/// columns but readable group tables: reading such a file is not defined.
pub fn read_hits_empty_dimension(bytes: &[u8]) -> (r: bool)
    ensures
        r == spec_read_panics(bytes@),
{
    if bytes.len() < 0x40 {
        return false;
    }
    let h = read_header(bytes);
    if h.num_rows == 0 {
        return true;
    }
    if h.num_cols != 0 {
        return false;
    }
    let rg = read_groups(bytes, h.row_groups_offset, h.row_group_count);
    let cg = read_groups(bytes, h.col_groups_offset, h.col_group_count);
    rg.is_some() && cg.is_some()
}

impl Stb {
    /// Parse an STB file from its bytes.
    ///
    /// Cell hashes and both group tables are checked against the strings; a table is
    /// returned only when all of them match.
    pub fn read(bytes: &[u8]) -> (res: Result<Stb, StbReadError>)
        requires
            !spec_read_panics(bytes@),
        ensures
            match res {
                Ok(t) => spec_read_stb(bytes@) == Ok::<StbView, StbReadError>(t@) && t.wf()
                    && t@.consistent(),
                Err(e) => spec_read_stb(bytes@) == Err::<StbView, StbReadError>(e),
            },
    {
        if bytes.len() < 0x40 {
            return Err(StbReadError::UnexpectedEof);
        }
        let h = read_header(bytes);
        proof {
            lemma_mul_fits(h.num_rows, h.num_cols);
        }
        let total64: u64 = (h.num_rows as u64) * (h.num_cols as u64);
        if total64 > 0 && ((h.cells_offset as u128) + 4 * (total64 as u128) > bytes.len() as u128
            || (h.string_offsets_offset as u128) + 8 * (total64 as u128) > bytes.len() as u128) {
            return Err(StbReadError::UnexpectedEof);
        }
        let total = total64 as usize;
        let (hashes_flat, offsets) = read_cell_blocks(bytes, &h, total);
        let strings = match read_strings(bytes, &offsets) {
            Ok(v) => v,
            Err(e) => {
                return Err(e);
            },
        };
        proof {
            assert(strings_view(strings@).len() == strings@.len());
        }
        match first_hash_mismatch(&hashes_flat, &strings) {
            Some(k) => {
                let expected = stb_hash(strings[k].as_str());
                return Err(StbReadError::HashMismatch { index: k, found: hashes_flat[k], expected });
            },
            None => {},
        }
        let row_groups_file = match read_groups(bytes, h.row_groups_offset, h.row_group_count) {
            Some(g) => g,
            None => {
                return Err(StbReadError::UnexpectedEof);
            },
        };
        let col_groups_file = match read_groups(bytes, h.col_groups_offset, h.col_group_count) {
            Some(g) => g,
            None => {
                return Err(StbReadError::UnexpectedEof);
            },
        };
        let nr = h.num_rows as usize;
        let nc = h.num_cols as usize;
        let (columns, rows, cell_hashes) = split_rows(&strings, &hashes_flat, nr, nc);
        let ghost cells = unflatten(strings_view(strings@), nr as nat, nc as nat);
        let expected_row_groups = rebuild_row_groups(&cell_hashes);
        let expected_col_groups = rebuild_col_groups(&cell_hashes, nc);
        if !groups_eq(row_groups_file.as_slice(), expected_row_groups.as_slice()) {
            return Err(StbReadError::RowGroupsMismatch);
        }
        if !groups_eq(col_groups_file.as_slice(), expected_col_groups.as_slice()) {
            return Err(StbReadError::ColGroupsMismatch);
        }
        match Stb::from_tables(
            columns,
            rows,
            cell_hashes,
            row_groups_file,
            col_groups_file,
            StbTablesValidation::Full,
        ) {
            Ok(t) => Ok(t),
            Err(_) => {
                proof {
                    assert(false);
                }
                Err(StbReadError::RowGroupsMismatch)
            },
        }
    }
}

} // verus!
