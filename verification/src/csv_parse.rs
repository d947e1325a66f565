//! Splitting CSV text into records of fields.
//!
//! Fields are separated by `,` and records end at `\r` or `\n` (so `\r\n` ends one
//! record, and blank lines are skipped). A field that starts with `"` is quoted: it
//! runs to the next lone `"`, a doubled `""` inside it stands for one `"`, and
//! separators and line ends inside it are part of the field. Bytes after the closing
//! quote, up to the next separator, are kept as they are. A record still open at the
//! end of the input ends there.

use vstd::prelude::*;

verus! {

/// Where the parser stands.
#[derive(Debug, Clone, Copy, PartialEq, Eq, Structural)]
pub enum CsvState {
    /// Between records (line ends are skipped here).
    StartRecord,
    /// At the start of a field, after a separator.
    StartField,
    /// Inside an unquoted field.
    InField,
    /// Inside a quoted field.
    InQuoted,
    /// Just after a `"` inside a quoted field.
    QuoteSeen,
}

/// Parser state: finished records, finished fields of the current record, and the
/// bytes of the current field.
pub struct CsvParse {
    pub state: CsvState,
    pub records: Seq<Seq<Seq<u8>>>,
    pub fields: Seq<Seq<u8>>,
    pub field: Seq<u8>,
}

pub open spec fn is_term(c: u8) -> bool {
    c == 0x0d || c == 0x0a
}

pub open spec fn csv_init() -> CsvParse {
    CsvParse { state: CsvState::StartRecord, records: seq![], fields: seq![], field: seq![] }
}

/// One byte from the start of a field.
pub open spec fn step_field_start(p: CsvParse, c: u8) -> CsvParse {
    if c == 0x22 {
        CsvParse { state: CsvState::InQuoted, ..p }
    } else if c == 0x2c {
        CsvParse { state: CsvState::StartField, fields: p.fields.push(p.field), field: seq![], ..p }
    } else if is_term(c) {
        CsvParse {
            state: CsvState::StartRecord,
            records: p.records.push(p.fields.push(p.field)),
            fields: seq![],
            field: seq![],
        }
    } else {
        CsvParse { state: CsvState::InField, field: p.field.push(c), ..p }
    }
}

/// One byte after an unquoted field's bytes (or after a closing quote).
pub open spec fn step_after_field(p: CsvParse, c: u8) -> CsvParse {
    if c == 0x2c {
        CsvParse { state: CsvState::StartField, fields: p.fields.push(p.field), field: seq![], ..p }
    } else if is_term(c) {
        CsvParse {
            state: CsvState::StartRecord,
            records: p.records.push(p.fields.push(p.field)),
            fields: seq![],
            field: seq![],
        }
    } else {
        CsvParse { state: CsvState::InField, field: p.field.push(c), ..p }
    }
}

/// The parser after one more input byte.
pub open spec fn csv_step(p: CsvParse, c: u8) -> CsvParse {
    match p.state {
        CsvState::StartRecord => if is_term(c) {
            p
        } else {
            step_field_start(p, c)
        },
        CsvState::StartField => step_field_start(p, c),
        CsvState::InField => step_after_field(p, c),
        CsvState::InQuoted => if c == 0x22 {
            CsvParse { state: CsvState::QuoteSeen, ..p }
        } else {
            CsvParse { field: p.field.push(c), ..p }
        },
        CsvState::QuoteSeen => if c == 0x22 {
            CsvParse { state: CsvState::InQuoted, field: p.field.push(0x22), ..p }
        } else {
            step_after_field(p, c)
        },
    }
}

/// The parser after all of `s`.
pub open spec fn csv_run(p: CsvParse, s: Seq<u8>) -> CsvParse
    decreases s.len(),
{
    if s.len() == 0 {
        p
    } else {
        csv_run(csv_step(p, s[0]), s.drop_first())
    }
}

/// The records once the input has ended.
pub open spec fn csv_finish(p: CsvParse) -> Seq<Seq<Seq<u8>>> {
    if p.state == CsvState::StartRecord {
        p.records
    } else {
        p.records.push(p.fields.push(p.field))
    }
}

/// The records of CSV text `s`, as raw field bytes.
pub open spec fn spec_csv_records(s: Seq<u8>) -> Seq<Seq<Seq<u8>>> {
    csv_finish(csv_run(csv_init(), s))
}

/// Running over two pieces is running over the first, then the second.
pub proof fn lemma_csv_run_concat(p: CsvParse, s1: Seq<u8>, s2: Seq<u8>)
    ensures
        csv_run(p, s1 + s2) == csv_run(csv_run(p, s1), s2),
    decreases s1.len(),
{
    if s1.len() > 0 {
        assert((s1 + s2).drop_first() =~= s1.drop_first() + s2);
        assert((s1 + s2)[0] == s1[0]);
        lemma_csv_run_concat(csv_step(p, s1[0]), s1.drop_first(), s2);
    } else {
        assert(s1 + s2 =~= s2);
    }
}

/// Running over one more byte.
pub proof fn lemma_csv_run_push(p: CsvParse, s: Seq<u8>, c: u8)
    ensures
        csv_run(p, s.push(c)) == csv_step(csv_run(p, s), c),
{
    lemma_csv_run_concat(p, s, seq![c]);
    assert(s.push(c) =~= s + seq![c]);
    assert(seq![c].drop_first() =~= Seq::<u8>::empty());
    let q = csv_run(p, s);
    assert(csv_run(csv_step(q, c), seq![c].drop_first()) == csv_step(q, c));
}

/// Outside a quoted field, `\r` and `\n` are the same line end: each ends the current
/// record (or is skipped between records) in exactly the same way, whatever came
/// before, a closing quote included.
pub proof fn lemma_line_ends_agree(p: CsvParse)
    requires
        p.state != CsvState::InQuoted,
    ensures
        csv_step(p, 0x0d) == csv_step(p, 0x0a),
        csv_step(p, 0x0a).state == CsvState::StartRecord,
        p.state == CsvState::StartRecord ==> csv_step(p, 0x0a) == p,
        p.state != CsvState::StartRecord ==> csv_step(p, 0x0a) == (CsvParse {
            state: CsvState::StartRecord,
            records: p.records.push(p.fields.push(p.field)),
            fields: seq![],
            field: seq![],
        }),
{
}

/// Outside a quoted field, the two bytes `\r\n` split CSV text exactly as a lone
/// `\n` (or a lone `\r`) does: where the text before them leaves no quoted field open,
/// replacing one line end by another changes no record.
pub proof fn lemma_crlf_is_one_line_end(x: Seq<u8>, y: Seq<u8>)
    requires
        csv_run(csv_init(), x).state != CsvState::InQuoted,
    ensures
        spec_csv_records(x + seq![0x0du8, 0x0au8] + y) == spec_csv_records(x + seq![0x0au8] + y),
        spec_csv_records(x + seq![0x0du8] + y) == spec_csv_records(x + seq![0x0au8] + y),
{
    let p = csv_run(csv_init(), x);
    lemma_line_ends_agree(p);
    let q = csv_step(p, 0x0a);
    lemma_csv_run_concat(csv_init(), x + seq![0x0du8, 0x0au8], y);
    lemma_csv_run_concat(csv_init(), x + seq![0x0au8], y);
    lemma_csv_run_concat(csv_init(), x + seq![0x0du8], y);
    lemma_csv_run_push(csv_init(), x, 0x0au8);
    lemma_csv_run_push(csv_init(), x, 0x0du8);
    assert(x + seq![0x0au8] =~= x.push(0x0au8));
    assert(x + seq![0x0du8] =~= x.push(0x0du8));
    assert(x + seq![0x0du8, 0x0au8] =~= x.push(0x0du8).push(0x0au8));
    lemma_csv_run_push(csv_init(), x.push(0x0du8), 0x0au8);
    assert(csv_step(q, 0x0a) == q);
}

/// Inside a quoted field, bytes other than `"` are taken as they are.
proof fn lemma_run_quoted(p: CsvParse, q: Seq<u8>)
    requires
        p.state == CsvState::InQuoted,
        forall|i: int| 0 <= i < q.len() ==> q[i] != 0x22,
    ensures
        csv_run(p, q) == (CsvParse { field: p.field + q, ..p }),
    decreases q.len(),
{
    if q.len() == 0 {
        assert(p.field + q =~= p.field);
    } else {
        let p1 = csv_step(p, q[0]);
        assert(p1 == (CsvParse { field: p.field.push(q[0]), ..p }));
        lemma_run_quoted(p1, q.drop_first());
        assert(p.field.push(q[0]) + q.drop_first() =~= p.field + q);
    }
}

/// A quoted field holds exactly the bytes between its quotes: at the start of a field,
/// `"q"` followed by a line end (`\r` or `\n`) ends the record with `q` as its last
/// field, for any `q` free of quotes; nothing after the closing quote joins the field.
pub proof fn lemma_quoted_field_then_line_end(p: CsvParse, q: Seq<u8>, t: u8)
    requires
        p.state == CsvState::StartRecord || p.state == CsvState::StartField,
        p.field == Seq::<u8>::empty(),
        forall|i: int| 0 <= i < q.len() ==> q[i] != 0x22,
        is_term(t),
    ensures
        csv_run(p, seq![0x22u8] + q + seq![0x22u8, t]) == (CsvParse {
            state: CsvState::StartRecord,
            records: p.records.push(p.fields.push(q)),
            fields: seq![],
            field: seq![],
        }),
{
    let p1 = csv_step(p, 0x22);
    assert(p1 == (CsvParse { state: CsvState::InQuoted, ..p }));
    lemma_run_quoted(p1, q);
    let p2 = csv_run(p1, q);
    assert(p.field + q =~= q);
    let tail = seq![0x22u8, t];
    assert(tail.drop_first() =~= seq![t]);
    assert(seq![t].drop_first() =~= Seq::<u8>::empty());
    let p3 = csv_step(p2, 0x22);
    assert(p3.state == CsvState::QuoteSeen);
    assert(tail[0] == 0x22u8);
    assert(seq![t][0] == t);
    assert(csv_run(csv_step(p3, t), Seq::<u8>::empty()) == csv_step(p3, t));
    assert(csv_run(p3, seq![t]) == csv_step(p3, t));
    assert(csv_run(p2, tail) == csv_run(p3, seq![t]));
    lemma_csv_run_concat(p, seq![0x22u8], q);
    lemma_csv_run_concat(p, seq![0x22u8] + q, tail);
    assert(seq![0x22u8].drop_first() =~= Seq::<u8>::empty());
    assert(seq![0x22u8][0] == 0x22u8);
    assert(csv_run(p1, Seq::<u8>::empty()) == p1);
    assert(csv_run(p, seq![0x22u8]) == p1);
}

/// A text made of one quoted field and a line end is one record of one field: the
/// bytes between the quotes, whichever line end (`\r` or `\n`) follows.
pub proof fn lemma_single_quoted_record(q: Seq<u8>, t: u8)
    requires
        forall|i: int| 0 <= i < q.len() ==> q[i] != 0x22,
        is_term(t),
    ensures
        spec_csv_records(seq![0x22u8] + q + seq![0x22u8, t]) == seq![seq![q]],
{
    lemma_quoted_field_then_line_end(csv_init(), q, t);
    assert(Seq::<Seq<Seq<u8>>>::empty().push(Seq::<Seq<u8>>::empty().push(q)) =~= seq![seq![q]]);
}

/// The parser state held in vectors, viewed as a [`CsvParse`].
struct CsvParser {
    state: CsvState,
    records: Vec<Vec<Vec<u8>>>,
    fields: Vec<Vec<u8>>,
    field: Vec<u8>,
}

impl CsvParser {
    spec fn view_parse(&self) -> CsvParse {
        CsvParse {
            state: self.state,
            records: self.records@.map_values(|r: Vec<Vec<u8>>| r@.map_values(|f: Vec<u8>| f@)),
            fields: self.fields@.map_values(|f: Vec<u8>| f@),
            field: self.field@,
        }
    }

    /// Finish the current field.
    fn end_field(&mut self)
        ensures
            final(self).view_parse() == (CsvParse {
                state: CsvState::StartField,
                fields: old(self).view_parse().fields.push(old(self).view_parse().field),
                field: seq![],
                ..old(self).view_parse()
            }),
    {
        let mut f: Vec<u8> = Vec::new();
        std::mem::swap(&mut f, &mut self.field);
        self.fields.push(f);
        self.state = CsvState::StartField;
        proof {
            assert(self.view_parse().fields =~= old(self).view_parse().fields.push(old(self).view_parse().field));
            assert(self.view_parse().field =~= Seq::<u8>::empty());
        }
    }

    /// Finish the current field and record.
    fn end_record(&mut self)
        ensures
            final(self).view_parse() == (CsvParse {
                state: CsvState::StartRecord,
                records: old(self).view_parse().records.push(
                    old(self).view_parse().fields.push(old(self).view_parse().field),
                ),
                fields: seq![],
                field: seq![],
            }),
    {
        let mut f: Vec<u8> = Vec::new();
        std::mem::swap(&mut f, &mut self.field);
        self.fields.push(f);
        let mut r: Vec<Vec<u8>> = Vec::new();
        std::mem::swap(&mut r, &mut self.fields);
        self.records.push(r);
        self.state = CsvState::StartRecord;
        proof {
            let last = self.records@.last();
            assert(last@.map_values(|f: Vec<u8>| f@) =~= old(self).view_parse().fields.push(
                old(self).view_parse().field,
            ));
            assert(self.records@ =~= old(self).records@.push(last));
            assert(self.view_parse().records =~= old(self).view_parse().records.push(
                old(self).view_parse().fields.push(old(self).view_parse().field),
            ));
            assert(self.view_parse().fields =~= Seq::<Seq<u8>>::empty());
            assert(self.view_parse().field =~= Seq::<u8>::empty());
        }
    }

    fn step_field_start(&mut self, c: u8)
        ensures
            final(self).view_parse() == step_field_start(old(self).view_parse(), c),
    {
        if c == 0x22 {
            self.state = CsvState::InQuoted;
        } else if c == 0x2c {
            self.end_field();
        } else if c == 0x0d || c == 0x0a {
            self.end_record();
        } else {
            self.field.push(c);
            self.state = CsvState::InField;
        }
    }

    fn step_after_field(&mut self, c: u8)
        ensures
            final(self).view_parse() == step_after_field(old(self).view_parse(), c),
    {
        if c == 0x2c {
            self.end_field();
        } else if c == 0x0d || c == 0x0a {
            self.end_record();
        } else {
            self.field.push(c);
            self.state = CsvState::InField;
        }
    }

    fn step(&mut self, c: u8)
        ensures
            final(self).view_parse() == csv_step(old(self).view_parse(), c),
    {
        match self.state {
            CsvState::StartRecord => {
                if !(c == 0x0d || c == 0x0a) {
                    self.step_field_start(c);
                }
            },
            CsvState::StartField => {
                self.step_field_start(c);
            },
            CsvState::InField => {
                self.step_after_field(c);
            },
            CsvState::InQuoted => {
                if c == 0x22 {
                    self.state = CsvState::QuoteSeen;
                } else {
                    self.field.push(c);
                }
            },
            CsvState::QuoteSeen => {
                if c == 0x22 {
                    self.field.push(0x22);
                    self.state = CsvState::InQuoted;
                } else {
                    self.step_after_field(c);
                }
            },
        }
    }
}

/// Split CSV text into records of raw field bytes.
pub fn csv_records(input: &[u8]) -> (r: Vec<Vec<Vec<u8>>>)
    ensures
        r@.map_values(|r: Vec<Vec<u8>>| r@.map_values(|f: Vec<u8>| f@)) == spec_csv_records(input@),
{
    let mut p = CsvParser {
        state: CsvState::StartRecord,
        records: Vec::new(),
        fields: Vec::new(),
        field: Vec::new(),
    };
    proof {
        assert(p.view_parse().records =~= Seq::<Seq<Seq<u8>>>::empty());
        assert(p.view_parse().fields =~= Seq::<Seq<u8>>::empty());
        assert(p.view_parse().field =~= Seq::<u8>::empty());
        assert(p.view_parse() == csv_init());
        assert(input@.take(0) =~= Seq::<u8>::empty());
    }
    let mut i: usize = 0;
    while i < input.len()
        invariant
            i <= input@.len(),
            p.view_parse() == csv_run(csv_init(), input@.take(i as int)),
        decreases input@.len() - i,
    {
        let c = input[i];
        p.step(c);
        proof {
            lemma_csv_run_push(csv_init(), input@.take(i as int), c);
            assert(input@.take(i + 1) =~= input@.take(i as int).push(c));
        }
        i = i + 1;
    }
    proof {
        assert(input@.take(i as int) =~= input@);
    }
    if p.state != CsvState::StartRecord {
        p.end_record();
    }
    p.records
}

} // verus!
