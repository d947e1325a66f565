//! STL localization tables: a flat list of strings, one per row of the matching STM
//! master table, with no header, hashes or groups.
//!
//! Layout: a 0x18-byte header (version `0`, entry count, column count `1`, offset of
//! the offset block `0x18`), one `u64` string offset per entry, then the string pool.

use vstd::prelude::*;
use vstd::bytes::{spec_u32_to_le_bytes, spec_u64_to_le_bytes};
use vstd::string::StringSliceAdditionalSpecFns;
use vstd::utf8::encode_utf8;
use crate::bytes_read::{in_range, read_u32, read_u64, u32_at, u64_at, u64s_at};
use crate::stb_format::{le64_seq, lemma_pool_prefix_len, lemma_utf8_all_take_push, push_u32, push_u64};
use crate::stb_read::{StbReadError, read_strings, string_error, strings_from};
use crate::strings::{StringPool, pool_data, pool_offsets, utf8_all};
use crate::text::{concat_str, csv_error_text, decimal_string, spec_decimal, strings_view};
use crate::layout_lemmas::{
    lemma_encode_no_zero, lemma_le64_seq, lemma_le64_seq_len, lemma_pool_offset,
    lemma_pool_offsets_bound, lemma_pool_offsets_len, lemma_pool_string, lemma_read_string_at,
    lemma_subrange_mid, lemma_u32_at_mid, lemma_u64_at_mid, lemma_u64_zero_bytes, no_nul,
};
use vstd::bytes::{lemma_auto_spec_u32_to_from_le_bytes, lemma_auto_spec_u64_to_from_le_bytes};
use crate::bytes_read::string_ok;
use crate::bytes_read::string_at;
use crate::csv_format::{csv_record, csv_record_bytes};
use crate::stb_csv::{csv_records_prefix, utf8_bom};

verus! {

/// A parsed STL localization string table.
#[derive(Debug, Clone)]
pub struct Stl {
    /// The string entries, one per row.
    pub entries: Vec<String>,
}

/// File offset of the string pool of an STL file with `n` entries.
pub open spec fn stl_pool_start(n: nat) -> nat {
    0x18 + 8 * n
}

/// The STL file holding `entries`.
pub open spec fn spec_stl_bytes(entries: Seq<Seq<char>>) -> Seq<u8> {
    let n = entries.len();
    let ss = utf8_all(entries);
    spec_u64_to_le_bytes(0) + spec_u32_to_le_bytes(n as u32) + spec_u32_to_le_bytes(1)
        + spec_u64_to_le_bytes(0x18) + le64_seq(pool_offsets(ss, stl_pool_start(n))) + pool_data(ss)
}

/// The entries stored in the STL file `b`, or why they cannot be read.
pub open spec fn spec_read_stl(b: Seq<u8>) -> Result<Seq<Seq<char>>, StbReadError> {
    if b.len() < 0x18 {
        Err(StbReadError::UnexpectedEof)
    } else {
        let n = u32_at(b, 8) as nat;
        let off = u64_at(b, 16) as int;
        if !in_range(b, off, (8 * n) as int) {
            Err(StbReadError::UnexpectedEof)
        } else {
            let offs = u64s_at(b, off, n);
            match string_error(b, offs) {
                Some(e) => Err(e),
                None => Ok(strings_from(b, offs)),
            }
        }
    }
}

/// Reading back a written STL file gives the entries that were written, provided no
/// entry contains a NUL character (a NUL would end the stored string early).
#[verifier::spinoff_prover]
pub proof fn lemma_stl_round_trip(entries: Seq<Seq<char>>)
    requires
        entries.len() <= u32::MAX,
        no_nul(entries),
        stl_pool_start(entries.len()) + pool_data(utf8_all(entries)).len() <= u64::MAX,
    ensures
        spec_read_stl(spec_stl_bytes(entries)) == Ok::<Seq<Seq<char>>, StbReadError>(entries),
{
    lemma_auto_spec_u64_to_from_le_bytes();
    lemma_auto_spec_u32_to_from_le_bytes();
    let n = entries.len();
    let ss = utf8_all(entries);
    let base = stl_pool_start(n);
    let offs_nat = pool_offsets(ss, base);
    let h0 = spec_u64_to_le_bytes(0);
    let hn = spec_u32_to_le_bytes(n as u32);
    let h1 = spec_u32_to_le_bytes(1);
    let hs = spec_u64_to_le_bytes(0x18);
    let o = le64_seq(offs_nat);
    let p = pool_data(ss);
    let b = spec_stl_bytes(entries);
    let pre = h0 + hn + h1 + hs;
    assert(b == pre + o + p);
    lemma_pool_offsets_len(ss, base);
    lemma_le64_seq_len(offs_nat);
    lemma_pool_offsets_bound(ss, base);
    assert(pre.len() == 0x18);
    assert(b.len() == 0x18 + 8 * n + p.len());
    assert(u32_at(b, 8) == n) by {
        assert(b =~= h0 + hn + (h1 + hs + o + p));
        assert(hn.subrange(0, 4) =~= hn);
        lemma_u32_at_mid(h0, hn, h1 + hs + o + p, 0, n as u32);
    }
    assert(u64_at(b, 16) == 0x18) by {
        assert(b =~= (h0 + hn + h1) + hs + (o + p));
        assert(hs.subrange(0, 8) =~= hs);
        lemma_u64_at_mid(h0 + hn + h1, hs, o + p, 0, 0x18);
    }
    let offs = u64s_at(b, 0x18, n);
    assert forall|k: int| 0 <= k < n implies #[trigger] offs[k] as int == offs_nat[k] by {
        lemma_le64_seq(offs_nat, k);
        assert(8 * k + 8 <= 8 * n) by (nonlinear_arith)
            requires
                k < n,
        ;
        lemma_u64_at_mid(pre, o, p, 8 * k, offs_nat[k] as u64);
    }
    assert forall|k: int| 0 <= k < n implies string_ok(b, #[trigger] offs[k] as int) && string_at(
        b,
        offs[k] as int,
    ) == entries[k] by {
        lemma_pool_offset(ss, base, k);
        assert(ss[k] == encode_utf8(entries[k]));
        assert(forall|j: int| 0 <= j < entries[k].len() ==> #[trigger] entries[k][j] != '\0');
        lemma_encode_no_zero(entries[k]);
        if ss[k].len() == 0 {
            lemma_u64_zero_bytes();
            assert(b[0] == h0[0]);
            assert(b.subrange(0, 0) =~= encode_utf8(entries[k]));
            lemma_read_string_at(b, 0, entries[k]);
        } else {
            lemma_pool_string(ss, k);
            let q = pool_data(ss.take(k)).len() as int;
            let len = ss[k].len() as int;
            assert(b =~= (pre + o) + p + Seq::<u8>::empty());
            lemma_subrange_mid(pre + o, p, Seq::<u8>::empty(), q, q + len);
            assert(b[0x18 + 8 * n + q + len] == p[q + len]);
            lemma_read_string_at(b, 0x18 + 8 * n + q, entries[k]);
        }
    }
    assert(!exists|k: int| #[trigger] crate::stb_read::is_first_bad_string(b, offs, k));
    assert(strings_from(b, offs) =~= entries);
}

/// Read `n` little-endian `u64`s starting at `off`.
fn read_u64_block(bytes: &[u8], off: u64, n: u32) -> (r: Vec<u64>)
    requires
        in_range(bytes@, off as int, (8 * n) as int),
    ensures
        r@ == u64s_at(bytes@, off as int, n as nat),
{
    let ghost want = u64s_at(bytes@, off as int, n as nat);
    let blen = bytes.len();
    let base: usize = if n > 0 {
        off as usize
    } else {
        0
    };
    let mut out: Vec<u64> = Vec::new();
    let mut k: u32 = 0;
    while k < n
        invariant
            blen == bytes@.len(),
            k <= n,
            n > 0 ==> base == off && off + 8 * n <= blen,
            want == u64s_at(bytes@, off as int, n as nat),
            out@ == want.take(k as int),
        decreases n - k,
    {
        proof {
            assert(8 * k + 8 <= 8 * n) by (nonlinear_arith)
                requires
                    k < n,
            ;
        }
        let x = read_u64(bytes, base + 8 * (k as usize));
        out.push(x);
        proof {
            assert(want.take(k + 1) =~= want.take(k as int).push(x));
        }
        k = k + 1;
    }
    proof {
        assert(want.take(n as int) =~= want);
    }
    out
}

/// A failure to read an STL table from CSV.
#[derive(Debug)]
pub enum StlCsvError {
    /// The CSV reader failed (malformed input, invalid UTF-8, or rows of unequal length).
    Csv(csv::Error),
    /// The header row does not have exactly one column.
    ColumnCount { found: usize },
}

/// What `csv::Reader::from_reader` yields for `input`: the header record from
/// `Reader::headers` (`None` on an error), and the records that follow from
/// `Reader::records` (`None` if one of them is an error).
pub uninterp spec fn csv_reader_output(input: Seq<u8>) -> (Option<Seq<Seq<char>>>, Option<Seq<Seq<Seq<char>>>>);

/// Views of CSV records.
pub open spec fn records_view(rs: Seq<Vec<String>>) -> Seq<Seq<Seq<char>>> {
    rs.map_values(|r: Vec<String>| strings_view(r@))
}

/// `csv::Reader::from_reader` over `input` (default settings: headers expected, `,`,
/// `"`, records of equal length): the header record, then all following records.
///
/// Claimed: each part is `Ok` exactly when the named output has it, and then holds it;
/// and, since the reader is not flexible, every record read after a header has as
/// many fields as the header.
#[verifier::external_body]
fn csv_read_headers_and_records(input: &[u8]) -> (r: (
    Result<Vec<String>, csv::Error>,
    Result<Vec<Vec<String>>, csv::Error>,
))
    ensures
        r.0 is Ok <==> csv_reader_output(input@).0 is Some,
        r.0 matches Ok(h) ==> strings_view(h@) == csv_reader_output(input@).0.unwrap(),
        r.1 is Ok <==> csv_reader_output(input@).1 is Some,
        r.1 matches Ok(rs) ==> records_view(rs@) == csv_reader_output(input@).1.unwrap(),
        r.0 matches Ok(h) ==> (r.1 matches Ok(rs) ==> forall|i: int|
            0 <= i < rs@.len() ==> (#[trigger] rs@[i])@.len() == h@.len()),
{
    let mut rdr = csv::Reader::from_reader(input);
    let headers = rdr.headers().map(|h| h.iter().map(|f| f.to_owned()).collect());
    let records = rdr.records().map(|r| r.map(|rec| rec.iter().map(|f| f.to_owned()).collect())).collect();
    (headers, records)
}

impl StlCsvError {
    /// A description of the failure.
    pub fn message(&self) -> (m: String)
        ensures
            self matches StlCsvError::ColumnCount { found } ==> m@ == "STL CSV must have exactly 1 column, found "@
                + spec_decimal(found as nat),
    {
        match self {
            StlCsvError::Csv(e) => csv_error_text(e),
            StlCsvError::ColumnCount { found } => {
                let digits = decimal_string(*found);
                concat_str("STL CSV must have exactly 1 column, found ", digits.as_str())
            },
        }
    }
}

/// The single-field records of the entries.
pub open spec fn entry_records(entries: Seq<Seq<char>>) -> Seq<Seq<Seq<u8>>> {
    entries.map_values(|e: Seq<char>| seq![encode_utf8(e)])
}

/// The CSV file written for `entries`: a `Text` header, then one record per entry.
pub open spec fn spec_stl_csv(entries: Seq<Seq<char>>, bom: bool) -> Seq<u8> {
    (if bom {
        utf8_bom()
    } else {
        seq![]
    }) + csv_record(seq![encode_utf8("Text"@)]) + csv_records_prefix(
        entry_records(entries),
        entries.len() as int,
    )
}

/// The table read from CSV parts: the header and records that a CSV reader produced.
pub open spec fn spec_stl_from_csv(
    header: Option<Seq<Seq<char>>>,
    records: Option<Seq<Seq<Seq<char>>>>,
) -> Option<Seq<Seq<char>>> {
    match header {
        None => None,
        Some(h) => if h.len() != 1 {
            None
        } else {
            match records {
                None => None,
                Some(rs) => Some(rs.map_values(|r: Seq<Seq<char>>| r[0])),
            }
        },
    }
}

impl Stl {
    /// The entries as strings.
    pub open spec fn entries_view(&self) -> Seq<Seq<char>> {
        strings_view(self.entries@)
    }

    /// Create an `Stl` from a list of strings.
    pub fn from_entries(entries: Vec<String>) -> (s: Self)
        ensures
            s.entries@ == entries@,
    {
        Stl { entries }
    }

    /// Number of entries.
    pub fn num_entries(&self) -> (n: usize)
        ensures
            n == self.entries@.len(),
    {
        self.entries.len()
    }

    /// Parse an STL file from its bytes.
    pub fn read(bytes: &[u8]) -> (res: Result<Stl, StbReadError>)
        ensures
            match res {
                Ok(s) => spec_read_stl(bytes@) == Ok::<Seq<Seq<char>>, StbReadError>(s.entries_view()),
                Err(e) => spec_read_stl(bytes@) == Err::<Seq<Seq<char>>, StbReadError>(e),
            },
    {
        if bytes.len() < 0x18 {
            return Err(StbReadError::UnexpectedEof);
        }
        let n = read_u32(bytes, 8);
        let off = read_u64(bytes, 16);
        if n > 0 && (off as u128) + 8 * (n as u128) > bytes.len() as u128 {
            return Err(StbReadError::UnexpectedEof);
        }
        let offsets = read_u64_block(bytes, off, n);
        match read_strings(bytes, &offsets) {
            Ok(entries) => Ok(Stl { entries }),
            Err(e) => Err(e),
        }
    }

    /// Serialize this string table to the binary STL format.
    pub fn write_stl(&self) -> (out: Vec<u8>)
        requires
            self.entries@.len() <= u32::MAX,
            stl_pool_start(self.entries@.len()) + pool_data(utf8_all(self.entries_view())).len()
                <= u64::MAX,
        ensures
            out@ == spec_stl_bytes(self.entries_view()),
    {
        let ghost ev = self.entries_view();
        let ghost ss = utf8_all(ev);
        let n = self.entries.len();
        let offsets_start: u64 = 0x18;
        let pool_start: u64 = offsets_start + (n as u64) * 8;
        let mut pool = StringPool::new(pool_start);
        let mut k: usize = 0;
        proof {
            assert(utf8_all(ev.take(0)) =~= Seq::<Seq<u8>>::empty());
        }
        while k < n
            invariant
                k <= n,
                n == self.entries@.len(),
                ev == self.entries_view(),
                ss == utf8_all(ev),
                pool_start == stl_pool_start(n as nat),
                pool_start + pool_data(ss).len() <= u64::MAX,
                pool.holds(utf8_all(ev.take(k as int)), pool_start as nat),
            decreases n - k,
        {
            proof {
                lemma_utf8_all_take_push(ev, k as int);
                lemma_pool_prefix_len(ss, k as int);
                assert(ev[k as int] == self.entries@[k as int]@);
            }
            let e: &str = self.entries[k].as_str();
            proof {
                assert(ss[k as int] == e.spec_bytes());
            }
            pool.push(e);
            k = k + 1;
        }
        proof {
            assert(ev.take(n as int) =~= ev);
        }
        let mut out: Vec<u8> = Vec::new();
        push_u64(&mut out, 0);
        push_u32(&mut out, n as u32);
        push_u32(&mut out, 1);
        push_u64(&mut out, offsets_start);
        let ghost prefix = out@;
        let ghost ov = pool.offsets@.map_values(|o: u64| o as nat);
        let mut i: usize = 0;
        while i < pool.offsets.len()
            invariant
                i <= pool.offsets@.len(),
                ov == pool.offsets@.map_values(|o: u64| o as nat),
                out@ == prefix + le64_seq(ov.take(i as int)),
            decreases pool.offsets@.len() - i,
        {
            push_u64(&mut out, pool.offsets[i]);
            proof {
                assert(ov.take(i + 1).drop_last() =~= ov.take(i as int));
                assert(ov.take(i + 1).last() as u64 == pool.offsets@[i as int]);
            }
            i = i + 1;
        }
        proof {
            assert(ov.take(i as int) =~= ov);
        }
        let mut data = pool.data;
        out.append(&mut data);
        proof {
            assert(out@ =~= spec_stl_bytes(ev));
        }
        out
    }

    /// Write the string table as a single-column CSV with a `Text` header.
    pub fn write_csv(&self, bom: bool) -> (out: Vec<u8>)
        ensures
            out@ == spec_stl_csv(self.entries_view(), bom),
    {
        let ghost ev = self.entries_view();
        let ghost ys = entry_records(ev);
        let mut out: Vec<u8> = Vec::new();
        if bom {
            out.push(0xEF);
            out.push(0xBB);
            out.push(0xBF);
        }
        let header = vec!["Text".to_owned()];
        let mut rec = csv_record_bytes(header.as_slice());
        proof {
            assert(utf8_all(strings_view(header@)) =~= seq![encode_utf8("Text"@)]);
        }
        out.append(&mut rec);
        let ghost prefix = out@;
        proof {
            assert(csv_records_prefix(ys, 0) == Seq::<u8>::empty());
            assert(prefix =~= prefix + csv_records_prefix(ys, 0));
        }
        let mut i: usize = 0;
        while i < self.entries.len()
            invariant
                i <= self.entries@.len(),
                ev == self.entries_view(),
                ys == entry_records(ev),
                out@ == prefix + csv_records_prefix(ys, i as int),
            decreases self.entries@.len() - i,
        {
            let one = vec![self.entries[i].clone()];
            let mut rec = csv_record_bytes(one.as_slice());
            proof {
                assert(utf8_all(strings_view(one@)) =~= ys[i as int]);
                assert(csv_records_prefix(ys, i + 1) == csv_records_prefix(ys, i as int) + csv_record(ys[i as int]));
            }
            out.append(&mut rec);
            i = i + 1;
        }
        proof {
            assert(out@ =~= spec_stl_csv(ev, bom));
        }
        out
    }

    /// The table from the header and records that a CSV reader produced: the header
    /// must have exactly one column, and each record gives one entry.
    pub fn from_csv_parts(
        header: Result<Vec<String>, csv::Error>,
        records: Result<Vec<Vec<String>>, csv::Error>,
    ) -> (res: Result<Stl, StlCsvError>)
        requires
            header matches Ok(h) ==> (records matches Ok(rs) ==> forall|i: int|
                0 <= i < rs@.len() ==> (#[trigger] rs@[i])@.len() == h@.len()),
        ensures
            header is Err ==> res matches Err(StlCsvError::Csv(_)),
            header matches Ok(h) ==> {
                if h@.len() != 1 {
                    (res matches Err(StlCsvError::ColumnCount { found }) && found == h@.len())
                } else {
                    &&& (records is Err ==> res matches Err(StlCsvError::Csv(_)))
                    &&& (records matches Ok(rs) ==> (res matches Ok(s) && s.entries_view()
                        == records_view(rs@).map_values(|r: Seq<Seq<char>>| r[0])))
                }
            },
    {
        let h = match header {
            Ok(h) => h,
            Err(e) => {
                return Err(StlCsvError::Csv(e));
            },
        };
        if h.len() != 1 {
            return Err(StlCsvError::ColumnCount { found: h.len() });
        }
        let rs = match records {
            Ok(rs) => rs,
            Err(e) => {
                return Err(StlCsvError::Csv(e));
            },
        };
        let ghost want = records_view(rs@).map_values(|r: Seq<Seq<char>>| r[0]);
        let mut entries: Vec<String> = Vec::new();
        let mut i: usize = 0;
        while i < rs.len()
            invariant
                i <= rs@.len(),
                forall|k: int| 0 <= k < rs@.len() ==> (#[trigger] rs@[k])@.len() == 1,
                want == records_view(rs@).map_values(|r: Seq<Seq<char>>| r[0]),
                entries@.len() == i,
                forall|k: int| 0 <= k < i ==> (#[trigger] entries@[k])@ == want[k],
            decreases rs@.len() - i,
        {
            entries.push(rs[i][0].clone());
            proof {
                assert(records_view(rs@)[i as int] == strings_view(rs@[i as int]@));
            }
            i = i + 1;
        }
        proof {
            assert(strings_view(entries@) =~= want);
        }
        Ok(Stl { entries })
    }

    /// Read a string table from a single-column CSV with a header row.
    pub fn read_csv(bytes: &[u8]) -> (res: Result<Stl, StlCsvError>)
        ensures
            ({
                let (h, rs) = csv_reader_output(bytes@);
                &&& match h {
                    None => res matches Err(StlCsvError::Csv(_)),
                    Some(hv) => if hv.len() != 1 {
                        res matches Err(StlCsvError::ColumnCount { found }) && found == hv.len()
                    } else {
                        match rs {
                            None => res matches Err(StlCsvError::Csv(_)),
                            Some(_) => true,
                        }
                    },
                }
                &&& (spec_stl_from_csv(h, rs) matches Some(es) ==> (res matches Ok(s) && s.entries_view() == es))
            }),
    {
        let (h, rs) = csv_read_headers_and_records(bytes);
        Stl::from_csv_parts(h, rs)
    }
}

} // verus!
