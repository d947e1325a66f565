//! CSV text as the `csv` crate's default writer produces it, and why splitting that
//! text again gives back the records that were written.
//!
//! A field is written as it is unless it holds `,`, `"`, `\r` or `\n`; then it is
//! enclosed in `"` and each `"` inside is doubled. Fields are joined with `,` and each
//! record ends with `\n`. A record that would otherwise be written as no bytes at all
//! (one empty field, or no field) is written as `""`.

use vstd::prelude::*;
use crate::csv_parse::{
    CsvParse, CsvState, csv_finish, csv_init, csv_run, csv_step, is_term, lemma_csv_run_concat,
    spec_csv_records,
};
use crate::strings::utf8_all;
use crate::text::strings_view;

verus! {

/// Bytes that force a field to be quoted.
pub open spec fn csv_special(c: u8) -> bool {
    c == 0x2c || c == 0x22 || c == 0x0d || c == 0x0a
}

/// The field must be quoted.
pub open spec fn csv_needs_quotes(f: Seq<u8>) -> bool {
    exists|i: int| 0 <= i < f.len() && csv_special(#[trigger] f[i])
}

/// The field's bytes with every `"` doubled.
pub open spec fn csv_escape(f: Seq<u8>) -> Seq<u8>
    decreases f.len(),
{
    if f.len() == 0 {
        seq![]
    } else {
        (if f[0] == 0x22 {
            seq![0x22u8, 0x22u8]
        } else {
            seq![f[0]]
        }) + csv_escape(f.drop_first())
    }
}

/// One written field.
pub open spec fn csv_field(f: Seq<u8>) -> Seq<u8> {
    if csv_needs_quotes(f) {
        seq![0x22u8] + csv_escape(f) + seq![0x22u8]
    } else {
        f
    }
}

/// Written fields joined by `,`.
pub open spec fn csv_join(fs: Seq<Seq<u8>>) -> Seq<u8>
    decreases fs.len(),
{
    if fs.len() == 0 {
        seq![]
    } else if fs.len() == 1 {
        csv_field(fs[0])
    } else {
        csv_field(fs[0]) + seq![0x2cu8] + csv_join(fs.drop_first())
    }
}

/// One written record, terminator included.
pub open spec fn csv_record(fs: Seq<Seq<u8>>) -> Seq<u8> {
    (if csv_join(fs).len() == 0 {
        seq![0x22u8, 0x22u8]
    } else {
        csv_join(fs)
    }) + seq![0x0au8]
}

/// Several written records, one after the other.
pub open spec fn csv_records_bytes(rs: Seq<Seq<Seq<u8>>>) -> Seq<u8>
    decreases rs.len(),
{
    if rs.len() == 0 {
        seq![]
    } else {
        csv_record(rs[0]) + csv_records_bytes(rs.drop_first())
    }
}

/// `csv::Writer::write_record` on a fresh default writer over an empty `Vec<u8>`,
/// then `csv::Writer::into_inner`.
///
/// Claimed: the bytes are those of [`csv_record`] for the fields' UTF-8 encodings
/// (csv-core's `QuoteStyle::Necessary` with `,`, `"`, doubled quotes and `\n`; a
/// record of no bytes is written as `""`, as `terminator` does when no byte of the
/// record was written). Writing a single record into memory cannot fail.
#[verifier::external_body]
pub(crate) fn csv_record_bytes(fields: &[String]) -> (out: Vec<u8>)
    ensures
        out@ == csv_record(utf8_all(strings_view(fields@))),
{
    let mut wtr = csv::Writer::from_writer(Vec::new());
    let _ = wtr.write_record(fields);
    wtr.into_inner().unwrap_or_default()
}

/// Parser at the start of a record, after the records `rs`.
pub open spec fn at_record(rs: Seq<Seq<Seq<u8>>>) -> CsvParse {
    CsvParse { state: CsvState::StartRecord, records: rs, fields: seq![], field: seq![] }
}

/// Parser at the start of a field.
pub open spec fn at_field(rs: Seq<Seq<Seq<u8>>>, fs: Seq<Seq<u8>>) -> CsvParse {
    CsvParse { state: CsvState::StartField, records: rs, fields: fs, field: seq![] }
}

/// Parser just after the bytes of field `f`, which a separator or terminator ends.
pub open spec fn after_field(p: CsvParse, rs: Seq<Seq<Seq<u8>>>, fs: Seq<Seq<u8>>, f: Seq<u8>) -> bool {
    &&& p.records == rs
    &&& p.fields == fs
    &&& p.field == f
    &&& (p.state == CsvState::InField || p.state == CsvState::QuoteSeen || (p.state
        == CsvState::StartField && f.len() == 0))
}

proof fn lemma_run_one(p: CsvParse, c: u8)
    ensures
        csv_run(p, seq![c]) == csv_step(p, c),
{
    assert(seq![c].drop_first() =~= Seq::<u8>::empty());
    assert(csv_run(csv_step(p, c), seq![c].drop_first()) == csv_step(p, c));
}

proof fn lemma_run_two(p: CsvParse, c: u8, d: u8)
    ensures
        csv_run(p, seq![c, d]) == csv_step(csv_step(p, c), d),
{
    assert(seq![c, d] =~= seq![c] + seq![d]);
    lemma_csv_run_concat(p, seq![c], seq![d]);
    lemma_run_one(p, c);
    lemma_run_one(csv_step(p, c), d);
}

/// Inside a quoted field, the escaped bytes of `f` add `f` to the field.
proof fn lemma_escape_run(p: CsvParse, f: Seq<u8>)
    requires
        p.state == CsvState::InQuoted,
    ensures
        csv_run(p, csv_escape(f)) == (CsvParse { field: p.field + f, ..p }),
    decreases f.len(),
{
    if f.len() == 0 {
        assert(p.field + f =~= p.field);
    } else {
        let head = if f[0] == 0x22 {
            seq![0x22u8, 0x22u8]
        } else {
            seq![f[0]]
        };
        lemma_csv_run_concat(p, head, csv_escape(f.drop_first()));
        let q = CsvParse { field: p.field.push(f[0]), ..p };
        if f[0] == 0x22 {
            lemma_run_two(p, 0x22, 0x22);
        } else {
            lemma_run_one(p, f[0]);
        }
        assert(csv_run(p, head) == q);
        lemma_escape_run(q, f.drop_first());
        assert(q.field + f.drop_first() =~= p.field + f);
    }
}

/// Inside an unquoted field, bytes that need no quoting are added to the field.
proof fn lemma_plain_run(p: CsvParse, s: Seq<u8>)
    requires
        p.state == CsvState::InField,
        forall|i: int| 0 <= i < s.len() ==> !csv_special(#[trigger] s[i]),
    ensures
        csv_run(p, s) == (CsvParse { field: p.field + s, ..p }),
    decreases s.len(),
{
    if s.len() == 0 {
        assert(p.field + s =~= p.field);
    } else {
        assert(!csv_special(s[0]));
        let q = CsvParse { field: p.field.push(s[0]), ..p };
        assert(csv_step(p, s[0]) == q);
        lemma_plain_run(q, s.drop_first());
        assert(q.field + s.drop_first() =~= p.field + s);
    }
}

/// A written field, read from the start of a field.
proof fn lemma_field_run(rs: Seq<Seq<Seq<u8>>>, fs: Seq<Seq<u8>>, f: Seq<u8>)
    ensures
        after_field(csv_run(at_field(rs, fs), csv_field(f)), rs, fs, f),
{
    let p = at_field(rs, fs);
    if csv_needs_quotes(f) {
        let q = CsvParse { state: CsvState::InQuoted, ..p };
        lemma_csv_run_concat(p, seq![0x22u8] + csv_escape(f), seq![0x22u8]);
        lemma_csv_run_concat(p, seq![0x22u8], csv_escape(f));
        lemma_run_one(p, 0x22);
        lemma_escape_run(q, f);
        let r = CsvParse { field: q.field + f, ..q };
        lemma_run_one(r, 0x22);
        assert(q.field + f =~= f);
        assert(csv_run(p, seq![0x22u8]) == q);
        assert(csv_run(p, seq![0x22u8] + csv_escape(f)) == r);
        assert(csv_field(f) == seq![0x22u8] + csv_escape(f) + seq![0x22u8]);
        assert(csv_run(p, csv_field(f)) == csv_step(r, 0x22));
        assert(after_field(csv_step(r, 0x22), rs, fs, f));
    } else if f.len() == 0 {
        assert(csv_run(p, f) == p);
        assert(f =~= Seq::<u8>::empty());
        assert(after_field(p, rs, fs, f));
    } else {
        assert(!csv_special(f[0]));
        let q = CsvParse { state: CsvState::InField, field: seq![f[0]], ..p };
        assert(seq![f[0]] =~= p.field.push(f[0]));
        assert(csv_step(p, f[0]) == q);
        lemma_plain_run(q, f.drop_first());
        assert(seq![f[0]] + f.drop_first() =~= f);
        assert(csv_field(f) == f);
        assert(csv_run(p, f) == csv_run(csv_step(p, f[0]), f.drop_first()));
    }
}

/// After a field, a separator starts the next field.
proof fn lemma_after_field_comma(p: CsvParse, rs: Seq<Seq<Seq<u8>>>, fs: Seq<Seq<u8>>, f: Seq<u8>)
    requires
        after_field(p, rs, fs, f),
    ensures
        csv_step(p, 0x2c) == at_field(rs, fs.push(f)),
{
}

/// After a field, a line end finishes the record.
proof fn lemma_after_field_term(p: CsvParse, rs: Seq<Seq<Seq<u8>>>, fs: Seq<Seq<u8>>, f: Seq<u8>)
    requires
        after_field(p, rs, fs, f),
    ensures
        csv_step(p, 0x0a) == at_record(rs.push(fs.push(f))),
{
}

/// Written fields joined by `,`, read from the start of a field.
proof fn lemma_join_run(rs: Seq<Seq<Seq<u8>>>, fs: Seq<Seq<u8>>, xs: Seq<Seq<u8>>)
    requires
        xs.len() >= 1,
    ensures
        after_field(csv_run(at_field(rs, fs), csv_join(xs)), rs, fs + xs.drop_last(), xs.last()),
    decreases xs.len(),
{
    if xs.len() == 1 {
        lemma_field_run(rs, fs, xs[0]);
        assert(fs + xs.drop_last() =~= fs);
    } else {
        let p = at_field(rs, fs);
        let a = csv_field(xs[0]);
        let rest = xs.drop_first();
        lemma_csv_run_concat(p, a + seq![0x2cu8], csv_join(rest));
        lemma_csv_run_concat(p, a, seq![0x2cu8]);
        lemma_field_run(rs, fs, xs[0]);
        let q = csv_run(p, a);
        lemma_run_one(q, 0x2c);
        lemma_after_field_comma(q, rs, fs, xs[0]);
        lemma_join_run(rs, fs.push(xs[0]), rest);
        assert(fs.push(xs[0]) + rest.drop_last() =~= fs + xs.drop_last());
        assert(rest.last() == xs.last());
    }
}

/// The first byte of a non-empty join is not a line end.
proof fn lemma_join_first(xs: Seq<Seq<u8>>)
    requires
        csv_join(xs).len() > 0,
    ensures
        !is_term(csv_join(xs)[0]),
{
    if xs.len() == 1 {
        if !csv_needs_quotes(xs[0]) {
            assert(!csv_special(xs[0][0]));
        }
    } else {
        let a = csv_field(xs[0]);
        if a.len() == 0 {
            assert(csv_join(xs)[0] == 0x2cu8);
        } else if !csv_needs_quotes(xs[0]) {
            assert(!csv_special(xs[0][0]));
            assert(csv_join(xs)[0] == a[0]);
        } else {
            assert(csv_join(xs)[0] == a[0]);
        }
    }
}

/// At a record start, a byte other than a line end acts as at a field start.
proof fn lemma_record_start(rs: Seq<Seq<Seq<u8>>>, s: Seq<u8>)
    requires
        s.len() > 0,
        !is_term(s[0]),
    ensures
        csv_run(at_record(rs), s) == csv_run(at_field(rs, seq![]), s),
{
    assert(csv_step(at_record(rs), s[0]) == csv_step(at_field(rs, seq![]), s[0]));
}

/// A written record, read from the start of a record.
pub proof fn lemma_record_run(rs: Seq<Seq<Seq<u8>>>, xs: Seq<Seq<u8>>)
    requires
        xs.len() >= 1,
    ensures
        csv_run(at_record(rs), csv_record(xs)) == at_record(rs.push(xs)),
{
    let body = csv_join(xs);
    if body.len() == 0 {
        assert(xs.len() == 1 && xs[0].len() == 0) by {
            if xs.len() > 1 {
                assert(csv_join(xs).len() >= 1);
            }
            if xs.len() == 1 && xs[0].len() > 0 {
                if !csv_needs_quotes(xs[0]) {
                    assert(csv_field(xs[0]) == xs[0]);
                }
            }
        }
        assert(xs[0] =~= Seq::<u8>::empty());
        assert(xs =~= seq![Seq::<u8>::empty()]);
        let p = at_record(rs);
        assert(csv_record(xs) =~= seq![0x22u8, 0x22u8] + seq![0x0au8]);
        lemma_csv_run_concat(p, seq![0x22u8, 0x22u8], seq![0x0au8]);
        lemma_run_two(p, 0x22, 0x22);
        let q = csv_step(csv_step(p, 0x22), 0x22);
        lemma_run_one(q, 0x0a);
        assert(q.field =~= Seq::<u8>::empty());
        assert(seq![Seq::<u8>::empty()].push(Seq::<u8>::empty()) =~= xs.push(Seq::<u8>::empty()));
        assert(Seq::<Seq<u8>>::empty().push(Seq::<u8>::empty()) =~= xs);
    } else {
        assert(csv_record(xs) == body + seq![0x0au8]);
        lemma_csv_run_concat(at_record(rs), body, seq![0x0au8]);
        lemma_join_first(xs);
        lemma_record_start(rs, body);
        lemma_join_run(rs, seq![], xs);
        let q = csv_run(at_field(rs, seq![]), body);
        lemma_run_one(q, 0x0a);
        lemma_after_field_term(q, rs, seq![] + xs.drop_last(), xs.last());
        assert((seq![] + xs.drop_last()).push(xs.last()) =~= xs);
    }
}

/// Written records, read from the start of a record.
pub proof fn lemma_records_run(rs: Seq<Seq<Seq<u8>>>, ys: Seq<Seq<Seq<u8>>>)
    requires
        forall|i: int| 0 <= i < ys.len() ==> (#[trigger] ys[i]).len() >= 1,
    ensures
        csv_run(at_record(rs), csv_records_bytes(ys)) == at_record(rs + ys),
    decreases ys.len(),
{
    if ys.len() == 0 {
        assert(rs + ys =~= rs);
    } else {
        lemma_csv_run_concat(at_record(rs), csv_record(ys[0]), csv_records_bytes(ys.drop_first()));
        lemma_record_run(rs, ys[0]);
        lemma_records_run(rs.push(ys[0]), ys.drop_first());
        assert(rs.push(ys[0]) + ys.drop_first() =~= rs + ys);
    }
}

/// Splitting written records gives back the records, provided each has a field.
pub proof fn lemma_csv_round_trip(ys: Seq<Seq<Seq<u8>>>)
    requires
        forall|i: int| 0 <= i < ys.len() ==> (#[trigger] ys[i]).len() >= 1,
    ensures
        spec_csv_records(csv_records_bytes(ys)) == ys,
{
    lemma_records_run(seq![], ys);
    assert(csv_init() == at_record(seq![]));
    assert(Seq::<Seq<Seq<u8>>>::empty() + ys =~= ys);
}

} // verus!
