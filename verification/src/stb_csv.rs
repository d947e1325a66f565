//! Tables as CSV text: the header row first, then the data rows.

use vstd::prelude::*;
use vstd::slice::slice_subrange;
use vstd::utf8::{decode_utf8, valid_utf8};
use crate::bytes_read::{str_from_utf8, utf8_error_text};
use vstd::string::StringExecFns;
use crate::csv_format::{
    csv_field, csv_join, csv_needs_quotes, csv_record, csv_records_bytes, csv_record_bytes,
    lemma_csv_round_trip,
};
use vstd::utf8::{encode_utf8, encode_utf8_decode_utf8, encode_utf8_valid_utf8};
use crate::csv_parse::{CsvParse, csv_finish, csv_init, csv_run, csv_step, csv_records, spec_csv_records};
use crate::error::StbError;
use crate::strings::utf8_all;
use crate::table::{Stb, StbView, derived_view, is_rectangular_error, rectangular, table_cells};
use crate::text::strings_view;

verus! {

/// The UTF-8 byte order mark.
pub open spec fn utf8_bom() -> Seq<u8> {
    seq![0xEFu8, 0xBBu8, 0xBFu8]
}

/// `b` begins with the byte order mark.
pub open spec fn starts_with_bom(b: Seq<u8>) -> bool {
    b.len() >= 3 && b.take(3) == utf8_bom()
}

/// `b` without a leading byte order mark.
pub open spec fn without_bom(b: Seq<u8>) -> Seq<u8> {
    if starts_with_bom(b) {
        b.skip(3)
    } else {
        b
    }
}

/// Every field of `rs` is valid UTF-8.
pub open spec fn fields_valid(rs: Seq<Seq<Seq<u8>>>) -> bool {
    forall|i: int, j: int| 0 <= i < rs.len() && 0 <= j < rs[i].len() ==> valid_utf8(#[trigger] rs[i][j])
}

/// The strings that the fields of `rs` encode.
pub open spec fn decode_records(rs: Seq<Seq<Seq<u8>>>) -> Seq<Seq<Seq<char>>> {
    rs.map_values(|r: Seq<Seq<u8>>| r.map_values(|f: Seq<u8>| decode_utf8(f)))
}

/// Field `j` of record `i` is the first field, in record order, that is not UTF-8.
pub open spec fn is_first_invalid(rs: Seq<Seq<Seq<u8>>>, i: int, j: int) -> bool {
    &&& 0 <= i < rs.len()
    &&& 0 <= j < rs[i].len()
    &&& !valid_utf8(rs[i][j])
    &&& forall|a: int, b: int| 0 <= a < i && 0 <= b < rs[a].len() ==> valid_utf8(#[trigger] rs[a][b])
    &&& forall|b: int| 0 <= b < j ==> valid_utf8(#[trigger] rs[i][b])
}

/// The bytes of the first field of `rs` that is not UTF-8.
pub open spec fn first_invalid_field(rs: Seq<Seq<Seq<u8>>>) -> Seq<u8> {
    let (i, j) = choose|i: int, j: int| #[trigger] is_first_invalid(rs, i, j);
    rs[i][j]
}

/// The records of CSV text `b` as strings, or the bytes of the first field that is
/// not UTF-8.
pub open spec fn spec_parse_csv(b: Seq<u8>) -> Result<Seq<Seq<Seq<char>>>, Seq<u8>> {
    let rs = spec_csv_records(b);
    if fields_valid(rs) {
        Ok(decode_records(rs))
    } else {
        Err(first_invalid_field(rs))
    }
}

/// There is one first field that is not UTF-8.
proof fn lemma_first_invalid_unique(rs: Seq<Seq<Seq<u8>>>, i: int, j: int)
    requires
        is_first_invalid(rs, i, j),
    ensures
        first_invalid_field(rs) == rs[i][j],
{
    let (i2, j2) = choose|i2: int, j2: int| #[trigger] is_first_invalid(rs, i2, j2);
    assert(i2 == i && j2 == j) by {
        if i2 < i {
            assert(valid_utf8(rs[i2][j2]));
        } else if i < i2 {
            assert(valid_utf8(rs[i][j]));
        } else if j2 < j {
            assert(valid_utf8(rs[i][j2]));
        } else if j < j2 {
            assert(valid_utf8(rs[i2][j]));
        }
    }
}

/// CSV text of the rows `cells`.
pub open spec fn csv_rows_bytes(cells: Seq<Seq<Seq<char>>>) -> Seq<u8> {
    csv_records_bytes(cells.map_values(|row: Seq<Seq<char>>| utf8_all(row)))
}

/// The CSV file written for a table with these cells, with or without a leading BOM.
pub open spec fn spec_stb_csv(cells: Seq<Seq<Seq<char>>>, bom: bool) -> Seq<u8> {
    (if bom {
        utf8_bom()
    } else {
        seq![]
    }) + csv_rows_bytes(cells)
}

/// The table in CSV file `b` has at most `u32::MAX` rows and columns, so that its
/// dimensions fit the header fields of an STB file.
pub open spec fn csv_table_fits(b: Seq<u8>) -> bool {
    let rs = spec_csv_records(without_bom(b));
    &&& rs.len() <= u32::MAX
    &&& rs.len() > 0 ==> rs[0].len() <= u32::MAX
}

/// Why a CSV file gave no table: no row at all.
pub open spec fn csv_empty_message() -> Seq<char> {
    "STB CSV is empty (missing header row)"@
}

/// Why a CSV file gave no table: the field `f` is not UTF-8.
pub open spec fn csv_utf8_message(f: Seq<u8>) -> Seq<char> {
    "invalid UTF-8 in CSV cell: "@ + utf8_error_text(f)
}

/// Drop a leading UTF-8 byte order mark, if there is one.
pub fn strip_utf8_bom(input: &[u8]) -> (r: &[u8])
    ensures
        r@ == without_bom(input@),
{
    if input.len() >= 3 && input[0] == 0xEF && input[1] == 0xBB && input[2] == 0xBF {
        assert(input@.take(3) =~= utf8_bom());
        let r = slice_subrange(input, 3, input.len());
        assert(r@ =~= input@.skip(3));
        r
    } else {
        proof {
            if input@.len() >= 3 && input@.take(3) == utf8_bom() {
                assert(input@.take(3)[0] == input@[0]);
                assert(input@.take(3)[1] == input@[1]);
                assert(input@.take(3)[2] == input@[2]);
            }
        }
        input
    }
}

/// Run bound: records and fields grow by at most one per byte.
pub open spec fn run_bounded(p: CsvParse, n: nat) -> bool {
    &&& p.records.len() + p.fields.len() <= n
    &&& forall|r: int| 0 <= r < p.records.len() ==> 1 <= (#[trigger] p.records[r]).len() <= n
}

proof fn lemma_run_bounded(p: CsvParse, s: Seq<u8>, n: nat)
    requires
        run_bounded(p, n),
    ensures
        run_bounded(csv_run(p, s), n + s.len()),
    decreases s.len(),
{
    if s.len() > 0 {
        let q = csv_step(p, s[0]);
        assert(run_bounded(q, n + 1)) by {
            if q.records.len() > p.records.len() {
                assert(q.records == p.records.push(p.fields.push(p.field)));
                assert forall|r: int| 0 <= r < q.records.len() implies 1 <= (#[trigger] q.records[r]).len() <= n + 1 by {
                    if r < p.records.len() {
                        assert(q.records[r] == p.records[r]);
                    }
                }
            } else {
                assert(q.records == p.records);
            }
        }
        lemma_run_bounded(q, s.drop_first(), n + 1);
    }
}

/// Records of CSV text of `n` bytes: at most `n + 1` of them, each with between one
/// and `n + 1` fields.
proof fn lemma_records_bounded(s: Seq<u8>)
    ensures
        spec_csv_records(s).len() <= s.len() + 1,
        forall|r: int|
            0 <= r < spec_csv_records(s).len() ==> 1 <= (#[trigger] spec_csv_records(s)[r]).len() <= s.len() + 1,
{
    lemma_run_bounded(csv_init(), s, 0);
    let p = csv_run(csv_init(), s);
    let rs = spec_csv_records(s);
    if rs.len() > p.records.len() {
        assert forall|r: int| 0 <= r < rs.len() implies 1 <= (#[trigger] rs[r]).len() <= s.len() + 1 by {
            if r < p.records.len() {
                assert(rs[r] == p.records[r]);
            }
        }
    }
}

/// The CSV records of `input` as strings; fails with the text of the UTF-8 error of
/// the first field that is not valid UTF-8.
pub fn parse_csv_records(input: &[u8]) -> (r: Result<Vec<Vec<String>>, String>)
    ensures
        match r {
            Ok(rs) => spec_parse_csv(input@) == Ok::<Seq<Seq<Seq<char>>>, Seq<u8>>(
                rs@.map_values(|row: Vec<String>| strings_view(row@)),
            ),
            Err(m) => spec_parse_csv(input@) matches Err(f) && m@ == utf8_error_text(f),
        },
{
    let raw = csv_records(input);
    let ghost rs = spec_csv_records(input@);
    let mut out: Vec<Vec<String>> = Vec::new();
    let mut i: usize = 0;
    while i < raw.len()
        invariant
            i <= raw@.len(),
            raw@.map_values(|r: Vec<Vec<u8>>| r@.map_values(|f: Vec<u8>| f@)) == rs,
            rs == spec_csv_records(input@),
            out@.len() == i,
            forall|a: int, j: int| 0 <= a < i && 0 <= j < rs[a].len() ==> valid_utf8(#[trigger] rs[a][j]),
            forall|a: int| 0 <= a < i ==> strings_view((#[trigger] out@[a])@) == decode_records(rs)[a],
        decreases raw@.len() - i,
    {
        let ghost row = rs[i as int];
        assert(raw@[i as int]@.map_values(|f: Vec<u8>| f@) == row);
        assert(rs.len() == raw@.len());
        let mut line: Vec<String> = Vec::new();
        let mut j: usize = 0;
        while j < raw[i].len()
            invariant
                i < raw@.len(),
                rs.len() == raw@.len(),
                rs == spec_csv_records(input@),
                row == rs[i as int],
                forall|a: int, b: int| 0 <= a < i && 0 <= b < rs[a].len() ==> valid_utf8(#[trigger] rs[a][b]),
                j <= raw@[i as int]@.len(),
                raw@[i as int]@.map_values(|f: Vec<u8>| f@) == row,
                line@.len() == j,
                forall|k: int| 0 <= k < j ==> valid_utf8(#[trigger] row[k]),
                forall|k: int| 0 <= k < j ==> (#[trigger] line@[k])@ == decode_utf8(row[k]),
            decreases raw@[i as int]@.len() - j,
        {
            assert(raw@[i as int]@[j as int]@ == row[j as int]);
            match str_from_utf8(raw[i][j].as_slice()) {
                Ok(s) => {
                    line.push(s.to_owned());
                },
                Err(m) => {
                    proof {
                        assert(!valid_utf8(rs[i as int][j as int]));
                        assert(is_first_invalid(rs, i as int, j as int));
                        lemma_first_invalid_unique(rs, i as int, j as int);
                        assert(!fields_valid(rs));
                    }
                    return Err(m);
                },
            }
            j = j + 1;
        }
        proof {
            assert(strings_view(line@) =~= decode_records(rs)[i as int]);
        }
        out.push(line);
        proof {
            assert forall|a: int, k: int| 0 <= a < i + 1 && 0 <= k < rs[a].len() implies valid_utf8(
                #[trigger] rs[a][k],
            ) by {
                if a == i {
                    assert(valid_utf8(row[k]));
                }
            }
        }
        i = i + 1;
    }
    proof {
        assert(out@.map_values(|row: Vec<String>| strings_view(row@)) =~= decode_records(rs));
    }
    Ok(out)
}

/// Whether the table in CSV file `bytes` has dimensions that fit an STB file.
pub fn csv_dimensions_fit(bytes: &[u8]) -> (r: bool)
    ensures
        r == csv_table_fits(bytes@),
{
    let input = strip_utf8_bom(bytes);
    let raw = csv_records(input);
    let ghost rs = spec_csv_records(input@);
    assert(raw@.len() == rs.len());
    if raw.len() > 0 {
        assert(raw@[0]@.len() == rs[0].len()) by {
            assert(raw@[0]@.map_values(|f: Vec<u8>| f@) == rs[0]);
        }
    }
    raw.len() <= 0xFFFF_FFFF && (raw.len() == 0 || raw[0].len() <= 0xFFFF_FFFF)
}

impl Stb {
    /// Write the table as CSV: the header row, then each data row. When `bom` is true
    /// a UTF-8 BOM comes first, so that spreadsheet applications pick the right
    /// encoding.
    pub fn write_csv(&self, bom: bool) -> (out: Vec<u8>)
        requires
            self.wf(),
        ensures
            out@ == spec_stb_csv(self@.cells, bom),
    {
        let ghost cells = self@.cells;
        let ghost ys = cells.map_values(|row: Seq<Seq<char>>| utf8_all(row));
        let mut out: Vec<u8> = Vec::new();
        if bom {
            out.push(0xEF);
            out.push(0xBB);
            out.push(0xBF);
        }
        let ghost prefix = out@;
        assert(prefix =~= (if bom { utf8_bom() } else { seq![] }));
        let columns = self.columns();
        let mut rec = csv_record_bytes(columns);
        proof {
            lemma_records_prefix_push(ys, 0);
            assert(csv_records_prefix(ys, 0) == Seq::<u8>::empty());
            assert(ys[0] == utf8_all(cells[0]));
            assert(csv_records_prefix(ys, 1) =~= csv_record(ys[0]));
        }
        out.append(&mut rec);
        let rows = self.rows();
        let mut i: usize = 0;
        while i < rows.len()
            invariant
                i <= rows@.len(),
                rows@.len() + 1 == cells.len(),
                forall|k: int| 0 <= k < rows@.len() ==> strings_view((#[trigger] rows@[k])@) == cells[k + 1],
                strings_view(columns@) == cells[0],
                ys == cells.map_values(|row: Seq<Seq<char>>| utf8_all(row)),
                out@ == prefix + csv_records_prefix(ys, i as int + 1),
            decreases rows@.len() - i,
        {
            let mut rec = csv_record_bytes(rows[i].as_slice());
            proof {
                lemma_records_prefix_push(ys, i as int + 1);
                assert(ys[i as int + 1] == utf8_all(cells[i as int + 1]));
            }
            out.append(&mut rec);
            i = i + 1;
        }
        proof {
            lemma_records_prefix_all(ys);
        }
        out
    }

    /// Read a table from CSV bytes (a leading UTF-8 BOM is skipped). Fails if a field
    /// is not UTF-8, if there is no row at all, or if a row has a different width
    /// than the header row.
    pub fn read_csv(bytes: &[u8]) -> (res: Result<Stb, StbError>)
        requires
            csv_table_fits(bytes@),
        ensures
            match spec_parse_csv(without_bom(bytes@)) {
                Err(f) => res matches Err(StbError::CsvRead(m)) && m@ == csv_utf8_message(f),
                Ok(rs) => if rs.len() == 0 {
                    res matches Err(StbError::CsvRead(m)) && m@ == csv_empty_message()
                } else {
                    let nc = rs[0].len();
                    let body = rs.drop_first();
                    &&& res is Ok <==> forall|r: int| 0 <= r < body.len() ==> (#[trigger] body[r]).len() == nc
                    &&& res matches Ok(t) ==> t@ == derived_view(rs) && t.wf() && t@.consistent()
                    &&& res matches Err(e) ==> is_csv_row_error(e, rs)
                },
            },
    {
        let input = strip_utf8_bom(bytes);
        proof {
            lemma_records_bounded(input@);
        }
        let records = match parse_csv_records(input) {
            Ok(r) => r,
            Err(detail) => {
                let mut msg = "invalid UTF-8 in CSV cell: ".to_owned();
                msg.append(detail.as_str());
                return Err(StbError::CsvRead(msg));
            },
        };
        let ghost rs = records@.map_values(|row: Vec<String>| strings_view(row@));
        if records.len() == 0 {
            return Err(StbError::CsvRead("STB CSV is empty (missing header row)".to_owned()));
        }
        let mut records = records;
        let mut columns: Vec<String> = Vec::new();
        std::mem::swap(&mut columns, &mut records[0]);
        let mut rows: Vec<Vec<String>> = Vec::new();
        let mut i: usize = 1;
        while i < records.len()
            invariant
                1 <= i <= records@.len(),
                records@.len() == rs.len(),
                forall|k: int| i <= k < records@.len() ==> strings_view((#[trigger] records@[k])@) == rs[k],
                rows@.len() == i - 1,
                forall|k: int| 0 <= k < rows@.len() ==> strings_view((#[trigger] rows@[k])@) == rs[k + 1],
            decreases records@.len() - i,
        {
            let mut row: Vec<String> = Vec::new();
            std::mem::swap(&mut row, &mut records[i]);
            rows.push(row);
            i = i + 1;
        }
        proof {
            assert(strings_view(columns@) == rs[0]);
            assert(table_cells(columns@, rows@) =~= rs) by {
                assert forall|k: int| 0 <= k < rs.len() implies table_cells(columns@, rows@)[k] == rs[k] by {
                    if k > 0 {
                        assert(rows@[k - 1]@.len() == rs[k].len());
                    }
                }
            }
            assert forall|k: int| 0 <= k < rows@.len() implies ((#[trigger] rows@[k])@.len() == rs[k + 1].len()) by {
                assert(strings_view(rows@[k]@).len() == rows@[k]@.len());
            }
            assert(columns@.len() == rs[0].len());
        }
        let ghost cv = columns@;
        let ghost rv = rows@;
        let res = Stb::from_rows(columns, rows);
        proof {
            let body = rs.drop_first();
            assert(rectangular(cv.len(), rv) <==> forall|r: int| 0 <= r < body.len() ==> (#[trigger] body[r]).len()
                == rs[0].len()) by {
                assert forall|r: int| 0 <= r < rv.len() implies (#[trigger] rv[r])@.len() == body[r].len() by {
                    assert(strings_view(rv[r]@).len() == rv[r]@.len());
                }
            }
            if let Err(ref e) = res {
                assert(is_csv_row_error(*e, rs)) by {
                    if let StbError::Rectangular { data_row: d, expected, found } = *e {
                        assert(crate::table::first_bad_row(cv.len(), rv, d as int));
                        assert(strings_view(rv[d as int]@).len() == rv[d as int]@.len());
                        assert forall|j: int| 0 <= j < d implies (#[trigger] rs[j + 1]).len() == rs[0].len() by {
                            assert(strings_view(rv[j]@).len() == rv[j]@.len());
                            assert(rv[j]@.len() == cv.len());
                        }
                    }
                }
            }
        }
        res
    }
}

/// The CSV text written for a table does not begin with a byte order mark unless
/// one was asked for, provided the first header cell does not begin with one.
proof fn lemma_csv_no_bom(ys: Seq<Seq<Seq<u8>>>)
    requires
        ys.len() >= 1,
        ys[0].len() >= 1,
        !starts_with_bom(ys[0][0]),
    ensures
        !starts_with_bom(csv_records_bytes(ys)),
{
    let x = csv_records_bytes(ys);
    let rec = csv_record(ys[0]);
    assert(x == rec + csv_records_bytes(ys.drop_first()));
    let join = csv_join(ys[0]);
    let f0 = ys[0][0];
    if x.len() >= 3 && x.take(3) == utf8_bom() {
        assert(x.take(3)[0] == x[0]);
        if join.len() == 0 {
            assert(x[0] == rec[0]);
            assert(rec[0] == 0x22u8);
        } else if csv_needs_quotes(f0) {
            assert(x[0] == rec[0] && rec[0] == join[0]);
            if ys[0].len() == 1 {
                assert(join == csv_field(f0));
            } else {
                assert(join == csv_field(f0) + seq![0x2cu8] + csv_join(ys[0].drop_first()));
            }
            assert(join[0] == 0x22u8);
        } else {
            assert(csv_field(f0) == f0);
            let d: u8 = if ys[0].len() == 1 { 0x0a } else { 0x2c };
            assert(rec == join + seq![0x0au8]);
            assert forall|i: int| 0 <= i < f0.len() implies x[i] == f0[i] by {
                assert(x[i] == rec[i]);
                assert(rec[i] == join[i]);
                if ys[0].len() > 1 {
                    assert(join == f0 + seq![0x2cu8] + csv_join(ys[0].drop_first()));
                }
            }
            assert(x[f0.len() as int] == d) by {
                if ys[0].len() == 1 {
                    assert(join == f0);
                    assert(rec[f0.len() as int] == 0x0au8);
                } else {
                    assert(join == f0 + seq![0x2cu8] + csv_join(ys[0].drop_first()));
                    assert(join[f0.len() as int] == 0x2cu8);
                }
                assert(x[f0.len() as int] == rec[f0.len() as int]);
            }
            if f0.len() >= 3 {
                assert(f0.take(3) =~= x.take(3));
            } else {
                assert(x.take(3)[f0.len() as int] == d);
            }
        }
    }
}

/// Reading back a written CSV file gives the table's cells, provided every row has
/// a cell and, when no BOM is written, the first header cell does not begin with one.
#[verifier::spinoff_prover]
pub proof fn lemma_stb_csv_round_trip(cells: Seq<Seq<Seq<char>>>, bom: bool)
    requires
        cells.len() >= 1,
        forall|r: int| 0 <= r < cells.len() ==> (#[trigger] cells[r]).len() >= 1,
        !bom ==> !starts_with_bom(encode_utf8(cells[0][0])),
    ensures
        spec_parse_csv(without_bom(spec_stb_csv(cells, bom))) == Ok::<Seq<Seq<Seq<char>>>, Seq<u8>>(
            cells,
        ),
        spec_csv_records(without_bom(spec_stb_csv(cells, bom))) == cells.map_values(
            |row: Seq<Seq<char>>| utf8_all(row),
        ),
{
    let ys = cells.map_values(|row: Seq<Seq<char>>| utf8_all(row));
    assert forall|i: int| 0 <= i < ys.len() implies (#[trigger] ys[i]).len() >= 1 by {
        assert(ys[i].len() == cells[i].len());
    }
    lemma_csv_round_trip(ys);
    let x = csv_rows_bytes(cells);
    if bom {
        let b = utf8_bom() + x;
        assert(b.take(3) =~= utf8_bom());
        assert(b.skip(3) =~= x);
    } else {
        assert(ys[0][0] == encode_utf8(cells[0][0]));
        lemma_csv_no_bom(ys);
        assert(spec_stb_csv(cells, bom) =~= x);
    }
    assert(without_bom(spec_stb_csv(cells, bom)) == x);
    assert forall|i: int, j: int| 0 <= i < ys.len() && 0 <= j < ys[i].len() implies valid_utf8(
        #[trigger] ys[i][j],
    ) by {
        encode_utf8_valid_utf8(cells[i][j]);
    }
    assert(decode_records(ys) =~= cells) by {
        assert forall|i: int| 0 <= i < cells.len() implies decode_records(ys)[i] =~= cells[i] by {
            assert forall|j: int| 0 <= j < cells[i].len() implies decode_records(ys)[i][j] == cells[i][j] by {
                encode_utf8_decode_utf8(cells[i][j]);
            }
        }
    }
}

/// Reading back the CSV written for a table gives that table: the records are its
/// cells, and the table built from them (which `Stb::read_csv` returns) is the table
/// itself. This needs at least one column, and, without a BOM, a first header cell
/// that does not begin with one.
pub proof fn lemma_csv_written_table_reads_back(v: StbView, bom: bool)
    requires
        v.wf(),
        v.consistent(),
        v.num_cols() >= 1,
        !bom ==> !starts_with_bom(encode_utf8(v.cells[0][0])),
    ensures
        spec_parse_csv(without_bom(spec_stb_csv(v.cells, bom))) == Ok::<Seq<Seq<Seq<char>>>, Seq<u8>>(
            v.cells,
        ),
        csv_table_fits(spec_stb_csv(v.cells, bom)),
        derived_view(v.cells) == v,
{
    lemma_stb_csv_round_trip(v.cells, bom);
    let ys = v.cells.map_values(|row: Seq<Seq<char>>| utf8_all(row));
    assert(ys[0].len() == v.cells[0].len());
    crate::stb_laws::lemma_consistent_is_derived(v);
}

/// The error for CSV records `rs` whose data rows are not all as wide as the header.
pub open spec fn is_csv_row_error(e: StbError, rs: Seq<Seq<Seq<char>>>) -> bool {
    &&& e matches StbError::Rectangular { data_row, expected, found }
    &&& 0 <= data_row < rs.len() - 1
    &&& rs[data_row + 1].len() != rs[0].len()
    &&& forall|j: int| 0 <= j < data_row ==> (#[trigger] rs[j + 1]).len() == rs[0].len()
    &&& expected == rs[0].len()
    &&& found == rs[data_row + 1].len()
}

/// CSV bytes of the first `n` records.
pub open spec fn csv_records_prefix(ys: Seq<Seq<Seq<u8>>>, n: int) -> Seq<u8>
    decreases n,
{
    if n <= 0 {
        seq![]
    } else {
        csv_records_prefix(ys, n - 1) + csv_record(ys[n - 1])
    }
}

proof fn lemma_records_prefix_push(ys: Seq<Seq<Seq<u8>>>, n: int)
    requires
        0 <= n,
    ensures
        csv_records_prefix(ys, n + 1) == csv_records_prefix(ys, n) + csv_record(ys[n]),
{
}

proof fn lemma_records_prefix_all(ys: Seq<Seq<Seq<u8>>>)
    ensures
        csv_records_prefix(ys, ys.len() as int) == csv_records_bytes(ys),
    decreases ys.len(),
{
    if ys.len() > 0 {
        lemma_records_prefix_all(ys.drop_first());
        lemma_records_prefix_shift(ys, ys.len() as int);
    }
}

proof fn lemma_records_prefix_shift(ys: Seq<Seq<Seq<u8>>>, n: int)
    requires
        1 <= n <= ys.len(),
    ensures
        csv_records_prefix(ys, n) == csv_record(ys[0]) + csv_records_prefix(ys.drop_first(), n - 1),
    decreases n,
{
    if n == 1 {
        assert(csv_records_prefix(ys, 0) == Seq::<u8>::empty());
        assert(csv_records_prefix(ys.drop_first(), 0) == Seq::<u8>::empty());
        assert(csv_records_prefix(ys, 1) =~= csv_record(ys[0]) + Seq::<u8>::empty());
    } else {
        lemma_records_prefix_shift(ys, n - 1);
        assert(ys.drop_first()[n - 2] == ys[n - 1]);
        assert(csv_records_prefix(ys, n) =~= csv_record(ys[0]) + csv_records_prefix(ys.drop_first(), n - 1));
    }
}

} // verus!
