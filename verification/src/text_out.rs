//! Plain-text renderings of tables: one line per row, cells separated by tabs.

use vstd::prelude::*;
use vstd::string::StringSliceAdditionalSpecFns;
use vstd::utf8::{encode_utf8, encode_utf8_decode_utf8, encode_utf8_valid_utf8};
use crate::bytes_read::str_from_utf8;
use crate::stl::Stl;
use crate::table::Stb;
use crate::text::strings_view;

verus! {

/// The cells of a row joined by tabs.
pub open spec fn join_tab(row: Seq<Seq<char>>) -> Seq<char>
    decreases row.len(),
{
    if row.len() == 0 {
        seq![]
    } else if row.len() == 1 {
        row[0]
    } else {
        join_tab(row.drop_last()) + seq!['\t'] + row.last()
    }
}

/// Each row on a line of its own.
pub open spec fn lines_text(rows: Seq<Seq<Seq<char>>>) -> Seq<char>
    decreases rows.len(),
{
    if rows.len() == 0 {
        seq![]
    } else {
        lines_text(rows.drop_last()) + join_tab(rows.last()) + seq!['\n']
    }
}

/// UTF-8 of a concatenation is the concatenation of the UTF-8.
pub proof fn lemma_encode_concat(a: Seq<char>, b: Seq<char>)
    ensures
        encode_utf8(a + b) == encode_utf8(a) + encode_utf8(b),
    decreases a.len(),
{
    if a.len() == 0 {
        assert(a + b =~= b);
        assert(encode_utf8(a) + encode_utf8(b) =~= encode_utf8(b));
    } else {
        assert((a + b).drop_first() =~= a.drop_first() + b);
        assert((a + b)[0] == a[0]);
        lemma_encode_concat(a.drop_first(), b);
        assert(encode_utf8(a + b) =~= encode_utf8(a) + encode_utf8(b));
    }
}

/// UTF-8 of a tab and of a line feed.
proof fn lemma_encode_controls()
    ensures
        encode_utf8(seq!['\t']) == seq![9u8],
        encode_utf8(seq!['\n']) == seq![10u8],
{
    let t = '\t' as u32;
    let n = '\n' as u32;
    assert(t == 9u32);
    assert(n == 10u32);
    assert((t & 0x7Fu32) as u8 == 9u8) by (bit_vector)
        requires
            t == 9u32,
    ;
    assert((n & 0x7Fu32) as u8 == 10u8) by (bit_vector)
        requires
            n == 10u32,
    ;
    assert(seq!['\t'].drop_first() =~= Seq::<char>::empty());
    assert(seq!['\n'].drop_first() =~= Seq::<char>::empty());
    assert(seq!['\t'][0] as u32 == t);
    assert(seq!['\n'][0] as u32 == n);
    assert(vstd::utf8::encode_scalar(t) =~= seq![9u8]);
    assert(vstd::utf8::encode_scalar(n) =~= seq![10u8]);
    assert(encode_utf8(Seq::<char>::empty()) =~= Seq::<u8>::empty());
    assert(encode_utf8(seq!['\t']) == vstd::utf8::encode_scalar(t) + encode_utf8(seq!['\t'].drop_first()));
    assert(encode_utf8(seq!['\n']) == vstd::utf8::encode_scalar(n) + encode_utf8(seq!['\n'].drop_first()));
    assert(encode_utf8(seq!['\t']) =~= seq![9u8]);
    assert(encode_utf8(seq!['\n']) =~= seq![10u8]);
}

/// Append the UTF-8 bytes of `s`.
fn append_str(out: &mut Vec<u8>, s: &str)
    ensures
        final(out)@ == old(out)@ + encode_utf8(s@),
{
    let b = s.as_bytes();
    let mut i: usize = 0;
    while i < b.len()
        invariant
            i <= b@.len(),
            b@ == s.spec_bytes(),
            out@ == old(out)@ + b@.take(i as int),
        decreases b@.len() - i,
    {
        out.push(b[i]);
        i = i + 1;
        assert(b@.take(i as int) =~= b@.take(i - 1).push(b@[i - 1]));
    }
    assert(b@.take(i as int) =~= b@);
}

/// Append one row: its cells separated by tabs, then a line feed.
fn append_line(out: &mut Vec<u8>, row: &[String])
    ensures
        final(out)@ == old(out)@ + encode_utf8(join_tab(strings_view(row@)) + seq!['\n']),
{
    proof {
        lemma_encode_controls();
    }
    let ghost rv = strings_view(row@);
    let mut i: usize = 0;
    while i < row.len()
        invariant
            i <= row@.len(),
            rv == strings_view(row@),
            encode_utf8(seq!['\t']) == seq![9u8],
            encode_utf8(seq!['\n']) == seq![10u8],
            out@ == old(out)@ + encode_utf8(join_tab(rv.take(i as int))),
        decreases row@.len() - i,
    {
        let ghost before = out@;
        if i > 0 {
            out.push(9);
        }
        append_str(out, row[i].as_str());
        proof {
            let t = rv.take(i + 1);
            assert(t.last() == row@[i as int]@);
            assert(t.drop_last() =~= rv.take(i as int));
            if i == 0 {
                assert(join_tab(t) == t[0]);
                assert(join_tab(rv.take(0)) =~= Seq::<char>::empty());
                assert(encode_utf8(Seq::<char>::empty()) =~= Seq::<u8>::empty());
                assert(out@ =~= old(out)@ + encode_utf8(join_tab(t)));
            } else {
                lemma_encode_concat(join_tab(rv.take(i as int)) + seq!['\t'], t.last());
                lemma_encode_concat(join_tab(rv.take(i as int)), seq!['\t']);
                assert(out@ =~= old(out)@ + encode_utf8(join_tab(t)));
            }
        }
        i = i + 1;
    }
    out.push(10);
    proof {
        assert(rv.take(i as int) =~= rv);
        lemma_encode_concat(join_tab(rv), seq!['\n']);
        assert(out@ =~= old(out)@ + encode_utf8(join_tab(strings_view(row@)) + seq!['\n']));
    }
}

/// The string whose UTF-8 bytes are `bytes`, which encode `text`.
fn string_of(bytes: &Vec<u8>, Ghost(text): Ghost<Seq<char>>) -> (s: String)
    requires
        bytes@ == encode_utf8(text),
    ensures
        s@ == text,
{
    proof {
        encode_utf8_valid_utf8(text);
        encode_utf8_decode_utf8(text);
    }
    match str_from_utf8(bytes.as_slice()) {
        Ok(s) => s.to_owned(),
        Err(_) => {
            proof {
                assert(false);
            }
            String::new()
        },
    }
}

impl Stb {
    /// The table as text: each row (the header first) on a line, cells separated by tabs.
    pub fn to_text(&self) -> (s: String)
        requires
            self.wf(),
        ensures
            s@ == lines_text(self@.cells),
    {
        let ghost cells = self@.cells;
        let mut out: Vec<u8> = Vec::new();
        append_line(&mut out, self.columns());
        proof {
            let t = cells.take(1);
            assert(t.drop_last() =~= Seq::<Seq<Seq<char>>>::empty());
            assert(lines_text(Seq::<Seq<Seq<char>>>::empty()) =~= Seq::<char>::empty());
            assert(lines_text(t) =~= Seq::<char>::empty() + join_tab(cells[0]) + seq!['\n']);
            assert(out@ =~= encode_utf8(lines_text(t)));
        }
        let rows = self.rows();
        let mut i: usize = 0;
        while i < rows.len()
            invariant
                i <= rows@.len(),
                rows@.len() + 1 == cells.len(),
                forall|k: int| 0 <= k < rows@.len() ==> strings_view((#[trigger] rows@[k])@) == cells[k + 1],
                out@ == encode_utf8(lines_text(cells.take(i + 1))),
            decreases rows@.len() - i,
        {
            append_line(&mut out, rows[i].as_slice());
            proof {
                let t = cells.take(i + 2);
                assert(t.drop_last() =~= cells.take(i + 1));
                assert(t.last() == cells[i + 1]);
                lemma_encode_concat(lines_text(cells.take(i + 1)), join_tab(t.last()) + seq!['\n']);
                assert(lines_text(t) =~= lines_text(cells.take(i + 1)) + (join_tab(t.last()) + seq!['\n']));
            }
            i = i + 1;
        }
        proof {
            assert(cells.take(i + 1) =~= cells);
        }
        string_of(&out, Ghost(lines_text(cells)))
    }
}

/// Each entry of an STL table as a one-cell row.
pub open spec fn entry_rows(entries: Seq<Seq<char>>) -> Seq<Seq<Seq<char>>> {
    entries.map_values(|e: Seq<char>| seq![e])
}

impl Stl {
    /// The entries as text, each followed by a line feed.
    pub fn to_text(&self) -> (s: String)
        ensures
            s@ == lines_text(entry_rows(self.entries_view())),
    {
        let ghost rows = entry_rows(self.entries_view());
        let mut out: Vec<u8> = Vec::new();
        let mut i: usize = 0;
        proof {
            assert(rows.take(0) =~= Seq::<Seq<Seq<char>>>::empty());
            assert(encode_utf8(Seq::<char>::empty()) =~= Seq::<u8>::empty());
        }
        while i < self.entries.len()
            invariant
                i <= self.entries@.len(),
                rows == entry_rows(self.entries_view()),
                out@ == encode_utf8(lines_text(rows.take(i as int))),
            decreases self.entries@.len() - i,
        {
            let one = vec![self.entries[i].clone()];
            append_line(&mut out, one.as_slice());
            proof {
                let t = rows.take(i + 1);
                assert(t.drop_last() =~= rows.take(i as int));
                assert(strings_view(one@) =~= t.last());
                lemma_encode_concat(lines_text(rows.take(i as int)), join_tab(t.last()) + seq!['\n']);
                assert(lines_text(t) =~= lines_text(rows.take(i as int)) + (join_tab(t.last()) + seq!['\n']));
            }
            i = i + 1;
        }
        proof {
            assert(rows.take(i as int) =~= rows);
        }
        string_of(&out, Ghost(lines_text(rows)))
    }
}

} // verus!
