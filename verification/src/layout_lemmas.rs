//! Facts about the byte layouts written by this library: where each little-endian
//! integer and each pooled string lands, and what reading it back gives.

use vstd::prelude::*;
use vstd::bytes::{
    lemma_auto_spec_u32_to_from_le_bytes, lemma_auto_spec_u64_to_from_le_bytes,
    spec_u32_from_le_bytes, spec_u32_to_le_bytes, spec_u64_from_le_bytes, spec_u64_to_le_bytes,
    spec_u64_to_le_bytes_to_open,
};
use vstd::utf8::{
    decode_utf8, encode_scalar, encode_utf8, encode_utf8_decode_utf8, encode_utf8_valid_utf8,
    valid_utf8, has_width_1_encoding, has_width_2_encoding, has_width_3_encoding,
};
use crate::bytes_read::{cstr_at, has_nul_from, is_nul_end, lemma_nul_end_unique, string_at, string_ok, u32_at, u64_at};
use crate::stb_format::{le32_seq, le64_seq};
use crate::strings::{padded_len, pool_data, pool_offsets, stored_bytes, utf8_all};
use crate::groups::{
    GroupEntry, chunk_bytes, chunk_len, chunks_bytes, chunks_len, entries_bytes, entry_bytes,
    group_offset, group_table_len, offsets_bytes, spec_group_table,
};
use crate::stb_read::{group_at, group_offset_at, groups_at};
use crate::bytes_read::in_range;

verus! {

/// No string of `ss` contains the NUL character.
pub open spec fn no_nul(ss: Seq<Seq<char>>) -> bool {
    forall|i: int, j: int| 0 <= i < ss.len() && 0 <= j < ss[i].len() ==> #[trigger] ss[i][j] != '\0'
}

/// A slice of a concatenation that lies inside its middle part.
pub proof fn lemma_subrange_mid(a: Seq<u8>, x: Seq<u8>, c: Seq<u8>, i: int, j: int)
    requires
        0 <= i <= j <= x.len(),
    ensures
        (a + x + c).subrange(a.len() + i, a.len() + j) == x.subrange(i, j),
{
    assert((a + x + c).subrange(a.len() + i, a.len() + j) =~= x.subrange(i, j));
}

/// Length of a run of little-endian `u32`s.
pub proof fn lemma_le32_seq(xs: Seq<u32>, k: int)
    requires
        0 <= k < xs.len(),
    ensures
        le32_seq(xs).len() == 4 * xs.len(),
        le32_seq(xs).subrange(4 * k, 4 * k + 4) == spec_u32_to_le_bytes(xs[k]),
    decreases xs.len(),
{
    lemma_auto_spec_u32_to_from_le_bytes();
    lemma_le32_seq_len(xs);
    let init = xs.drop_last();
    lemma_le32_seq_len(init);
    if k == xs.len() - 1 {
        assert(le32_seq(xs).subrange(4 * k, 4 * k + 4) =~= spec_u32_to_le_bytes(xs.last()));
    } else {
        lemma_le32_seq(init, k);
        assert(le32_seq(xs).subrange(4 * k, 4 * k + 4) =~= le32_seq(init).subrange(4 * k, 4 * k + 4));
    }
}

pub proof fn lemma_le32_seq_len(xs: Seq<u32>)
    ensures
        le32_seq(xs).len() == 4 * xs.len(),
    decreases xs.len(),
{
    lemma_auto_spec_u32_to_from_le_bytes();
    if xs.len() > 0 {
        lemma_le32_seq_len(xs.drop_last());
    }
}

pub proof fn lemma_le64_seq_len(xs: Seq<nat>)
    ensures
        le64_seq(xs).len() == 8 * xs.len(),
    decreases xs.len(),
{
    lemma_auto_spec_u64_to_from_le_bytes();
    if xs.len() > 0 {
        lemma_le64_seq_len(xs.drop_last());
    }
}

/// The `k`-th offset of a run of little-endian `u64`s.
pub proof fn lemma_le64_seq(xs: Seq<nat>, k: int)
    requires
        0 <= k < xs.len(),
    ensures
        le64_seq(xs).subrange(8 * k, 8 * k + 8) == spec_u64_to_le_bytes(xs[k] as u64),
    decreases xs.len(),
{
    lemma_auto_spec_u64_to_from_le_bytes();
    lemma_le64_seq_len(xs);
    let init = xs.drop_last();
    lemma_le64_seq_len(init);
    if k == xs.len() - 1 {
        assert(le64_seq(xs).subrange(8 * k, 8 * k + 8) =~= spec_u64_to_le_bytes(xs.last() as u64));
    } else {
        lemma_le64_seq(init, k);
        assert(le64_seq(xs).subrange(8 * k, 8 * k + 8) =~= le64_seq(init).subrange(8 * k, 8 * k + 8));
    }
}

/// Reading back a `u32` at `off` inside a middle part that holds its bytes there.
pub proof fn lemma_u32_at_mid(a: Seq<u8>, x: Seq<u8>, c: Seq<u8>, i: int, v: u32)
    requires
        0 <= i,
        i + 4 <= x.len(),
        x.subrange(i, i + 4) == spec_u32_to_le_bytes(v),
    ensures
        u32_at(a + x + c, a.len() + i) == v,
{
    lemma_auto_spec_u32_to_from_le_bytes();
    lemma_subrange_mid(a, x, c, i, i + 4);
    assert(spec_u32_to_le_bytes(v).len() == 4);
}

/// Reading back a `u64` at `off` inside a middle part that holds its bytes there.
pub proof fn lemma_u64_at_mid(a: Seq<u8>, x: Seq<u8>, c: Seq<u8>, i: int, v: u64)
    requires
        0 <= i,
        i + 8 <= x.len(),
        x.subrange(i, i + 8) == spec_u64_to_le_bytes(v),
    ensures
        u64_at(a + x + c, a.len() + i) == v,
{
    lemma_auto_spec_u64_to_from_le_bytes();
    lemma_subrange_mid(a, x, c, i, i + 8);
}

/// The bytes of a zero `u64` are all zero.
pub proof fn lemma_u64_zero_bytes()
    ensures
        spec_u64_to_le_bytes(0).len() == 8,
        forall|i: int| 0 <= i < 8 ==> #[trigger] spec_u64_to_le_bytes(0)[i] == 0,
{
    spec_u64_to_le_bytes_to_open(0);
    assert((0u64 & 0xff) as u8 == 0 && ((0u64 >> 8) & 0xff) as u8 == 0 && ((0u64 >> 16) & 0xff) as u8
        == 0 && ((0u64 >> 24) & 0xff) as u8 == 0 && ((0u64 >> 32) & 0xff) as u8 == 0 && ((0u64 >> 40)
        & 0xff) as u8 == 0 && ((0u64 >> 48) & 0xff) as u8 == 0 && ((0u64 >> 56) & 0xff) as u8 == 0)
        by (bit_vector);
}

/// Pool bytes of a prefix of the strings are a prefix of the pool bytes.
pub proof fn lemma_pool_prefix(ss: Seq<Seq<u8>>, k: int)
    requires
        0 <= k <= ss.len(),
    ensures
        pool_data(ss.take(k)).len() <= pool_data(ss).len(),
        pool_data(ss).subrange(0, pool_data(ss.take(k)).len() as int) == pool_data(ss.take(k)),
    decreases ss.len() - k,
{
    if k == ss.len() {
        assert(ss.take(k) =~= ss);
        assert(pool_data(ss).subrange(0, pool_data(ss).len() as int) =~= pool_data(ss));
    } else {
        lemma_pool_prefix(ss, k + 1);
        let t = ss.take(k + 1);
        assert(t.drop_last() =~= ss.take(k));
        let p = pool_data(ss.take(k));
        let q = pool_data(t);
        assert(q.subrange(0, p.len() as int) =~= p);
        assert(pool_data(ss).subrange(0, p.len() as int) =~= q.subrange(0, p.len() as int));
    }
}

/// Offset recorded for string `k` of a pool starting at `base`.
pub proof fn lemma_pool_offset(ss: Seq<Seq<u8>>, base: nat, k: int)
    requires
        0 <= k < ss.len(),
    ensures
        pool_offsets(ss, base).len() == ss.len(),
        pool_offsets(ss, base)[k] == if ss[k].len() == 0 {
            0
        } else {
            base + pool_data(ss.take(k)).len()
        },
    decreases ss.len(),
{
    lemma_pool_offsets_len(ss, base);
    let init = ss.drop_last();
    if k == ss.len() - 1 {
        assert(init =~= ss.take(k));
    } else {
        lemma_pool_offset(init, base, k);
        assert(init.take(k) =~= ss.take(k));
    }
}

pub proof fn lemma_pool_offsets_len(ss: Seq<Seq<u8>>, base: nat)
    ensures
        pool_offsets(ss, base).len() == ss.len(),
    decreases ss.len(),
{
    if ss.len() > 0 {
        lemma_pool_offsets_len(ss.drop_last(), base);
    }
}

/// A non-empty pooled string sits at its recorded place, followed by a NUL.
pub proof fn lemma_pool_string(ss: Seq<Seq<u8>>, k: int)
    requires
        0 <= k < ss.len(),
        ss[k].len() > 0,
    ensures
        ({
            let p = pool_data(ss.take(k)).len() as int;
            &&& p + ss[k].len() < pool_data(ss).len()
            &&& pool_data(ss).subrange(p, p + ss[k].len()) == ss[k]
            &&& pool_data(ss)[p + ss[k].len()] == 0
        }),
{
    lemma_pool_prefix(ss, k + 1);
    let t = ss.take(k + 1);
    assert(t.drop_last() =~= ss.take(k));
    assert(t.last() == ss[k]);
    let p = pool_data(ss.take(k));
    let s = ss[k];
    assert(pool_data(t) == p + stored_bytes(s));
    assert(padded_len(s.len()) > s.len()) by (nonlinear_arith)
        requires
            padded_len(s.len()) == (s.len() / 8) * 8 + 8,
    ;
    let whole = pool_data(ss);
    assert(whole.subrange(0, pool_data(t).len() as int) == pool_data(t));
    assert(whole.subrange(p.len() as int, (p.len() + s.len()) as int) =~= s) by {
        assert forall|i: int| 0 <= i < s.len() implies whole[p.len() + i] == s[i] by {
            assert(whole.subrange(0, pool_data(t).len() as int)[p.len() + i] == pool_data(t)[p.len() + i]);
        }
    }
    assert(whole.subrange(0, pool_data(t).len() as int)[(p.len() + s.len()) as int] == pool_data(t)[(p.len() + s.len()) as int]);
}

/// Each pooled string takes at most its padded length past the offset before it.
pub proof fn lemma_pool_offset_bound(ss: Seq<Seq<u8>>, base: nat, k: int)
    requires
        0 <= k < ss.len(),
    ensures
        pool_offsets(ss, base)[k] <= base + pool_data(ss).len(),
{
    lemma_pool_offset(ss, base, k);
    lemma_pool_prefix(ss, k);
}

/// Every offset recorded in the pool fits where the pool ends.
pub proof fn lemma_pool_offsets_bound(ss: Seq<Seq<u8>>, base: nat)
    ensures
        forall|k: int| 0 <= k < ss.len() ==> #[trigger] pool_offsets(ss, base)[k] <= base + pool_data(ss).len(),
{
    assert forall|k: int| 0 <= k < ss.len() implies #[trigger] pool_offsets(ss, base)[k] <= base
        + pool_data(ss).len() by {
        lemma_pool_offset_bound(ss, base, k);
    }
}

/// The UTF-8 encoding of a character other than NUL has no zero byte.
pub proof fn lemma_scalar_no_zero(c: char)
    requires
        c != '\0',
    ensures
        forall|i: int| 0 <= i < encode_scalar(c as u32).len() ==> #[trigger] encode_scalar(c as u32)[i] != 0,
        encode_scalar(c as u32).len() >= 1,
{
    let v = c as u32;
    assert(v != 0);
    if has_width_1_encoding(v) {
        assert(v <= 0x7f ==> v != 0 ==> (v & 0x7F) as u8 != 0) by (bit_vector);
    } else {
        assert((0xC0u8 | ((v >> 6u32) & 0x1Fu32) as u8) != 0u8) by (bit_vector);
        assert((0xE0u8 | ((v >> 12u32) & 0x0Fu32) as u8) != 0u8) by (bit_vector);
        assert((0xF0u8 | ((v >> 18u32) & 0x7u32) as u8) != 0u8) by (bit_vector);
        assert((0x80u8 | (v & 0x3Fu32) as u8) != 0u8) by (bit_vector);
        assert((0x80u8 | ((v >> 6u32) & 0x3Fu32) as u8) != 0u8) by (bit_vector);
        assert((0x80u8 | ((v >> 12u32) & 0x3Fu32) as u8) != 0u8) by (bit_vector);
    }
}

/// The UTF-8 encoding of a string without NUL has no zero byte, and is empty only
/// for the empty string.
pub proof fn lemma_encode_no_zero(s: Seq<char>)
    requires
        forall|j: int| 0 <= j < s.len() ==> #[trigger] s[j] != '\0',
    ensures
        forall|i: int| 0 <= i < encode_utf8(s).len() ==> #[trigger] encode_utf8(s)[i] != 0,
        encode_utf8(s).len() == 0 <==> s.len() == 0,
    decreases s.len(),
{
    if s.len() > 0 {
        let head = encode_scalar(s[0] as u32);
        let rest = s.drop_first();
        assert(s[0] != '\0');
        lemma_scalar_no_zero(s[0]);
        lemma_encode_no_zero(rest);
        let e = encode_utf8(s);
        assert(e == head + encode_utf8(rest));
        assert forall|i: int| 0 <= i < e.len() implies #[trigger] e[i] != 0 by {
            if i < head.len() {
                assert(e[i] == head[i]);
            } else {
                assert(e[i] == encode_utf8(rest)[i - head.len()]);
            }
        }
    }
}

/// Where the bytes at `off` are `s` followed by a NUL and `s` has no zero byte, the
/// string read at `off` is the one `s` encodes.
pub proof fn lemma_read_string_at(b: Seq<u8>, off: int, chars: Seq<char>)
    requires
        forall|j: int| 0 <= j < chars.len() ==> #[trigger] chars[j] != '\0',
        0 <= off,
        off + encode_utf8(chars).len() < b.len(),
        b.subrange(off, off + encode_utf8(chars).len()) == encode_utf8(chars),
        b[off + encode_utf8(chars).len()] == 0,
    ensures
        string_ok(b, off),
        string_at(b, off) == chars,
{
    let s = encode_utf8(chars);
    lemma_encode_no_zero(chars);
    let j = off + s.len();
    assert forall|k: int| off <= k < j implies b[k] != 0 by {
        assert(b.subrange(off, j)[k - off] == s[k - off]);
    }
    assert(is_nul_end(b, off, j));
    let j2 = choose|j2: int| #[trigger] is_nul_end(b, off, j2);
    lemma_nul_end_unique(b, off, j, j2);
    assert(has_nul_from(b, off));
    assert(cstr_at(b, off) == s);
    encode_utf8_valid_utf8(chars);
    encode_utf8_decode_utf8(chars);
}

/// `x` sits in `b` starting at `base`.
pub open spec fn placed(b: Seq<u8>, base: int, x: Seq<u8>) -> bool {
    &&& 0 <= base
    &&& base + x.len() <= b.len()
    &&& forall|i: int| 0 <= i < x.len() ==> b[base + i] == #[trigger] x[i]
}

pub proof fn lemma_placed_concat(a: Seq<u8>, x: Seq<u8>, c: Seq<u8>)
    ensures
        placed(a + x + c, a.len() as int, x),
        placed(a + x, a.len() as int, x),
        placed(a + x, 0, a),
{
    assert forall|i: int| 0 <= i < x.len() implies (a + x + c)[a.len() + i] == #[trigger] x[i] by {
        assert((a + x + c)[a.len() + i] == (a + x)[a.len() + i]);
    }
}

pub proof fn lemma_placed_trans(b: Seq<u8>, base: int, x: Seq<u8>, j: int, y: Seq<u8>)
    requires
        placed(b, base, x),
        placed(x, j, y),
    ensures
        placed(b, base + j, y),
{
    assert forall|i: int| 0 <= i < y.len() implies b[base + j + i] == #[trigger] y[i] by {
        assert(x[j + i] == y[i]);
        assert(b[base + (j + i)] == x[j + i]);
    }
}

pub proof fn lemma_placed_subrange(b: Seq<u8>, base: int, x: Seq<u8>)
    requires
        placed(b, base, x),
    ensures
        b.subrange(base, base + x.len()) == x,
{
    assert(b.subrange(base, base + x.len()) =~= x);
}

pub proof fn lemma_placed_u32(b: Seq<u8>, off: int, v: u32)
    requires
        placed(b, off, spec_u32_to_le_bytes(v)),
    ensures
        u32_at(b, off) == v,
        in_range(b, off, 4),
{
    lemma_auto_spec_u32_to_from_le_bytes();
    assert(spec_u32_to_le_bytes(v).len() == 4);
    lemma_placed_subrange(b, off, spec_u32_to_le_bytes(v));
}

pub proof fn lemma_placed_u64(b: Seq<u8>, off: int, v: u64)
    requires
        placed(b, off, spec_u64_to_le_bytes(v)),
    ensures
        u64_at(b, off) == v,
        in_range(b, off, 8),
{
    lemma_auto_spec_u64_to_from_le_bytes();
    assert(spec_u64_to_le_bytes(v).len() == 8);
    lemma_placed_subrange(b, off, spec_u64_to_le_bytes(v));
}

pub proof fn lemma_le32_placed(xs: Seq<u32>, k: int)
    requires
        0 <= k < xs.len(),
    ensures
        placed(le32_seq(xs), 4 * k, spec_u32_to_le_bytes(xs[k])),
{
    lemma_auto_spec_u32_to_from_le_bytes();
    lemma_le32_seq(xs, k);
    let w = le32_seq(xs).subrange(4 * k, 4 * k + 4);
    assert forall|i: int| 0 <= i < 4 implies le32_seq(xs)[4 * k + i] == #[trigger] spec_u32_to_le_bytes(xs[k])[i] by {
        assert(w[i] == le32_seq(xs)[4 * k + i]);
    }
    assert(spec_u32_to_le_bytes(xs[k]).len() == 4);
}

pub proof fn lemma_le64_placed(xs: Seq<nat>, k: int)
    requires
        0 <= k < xs.len(),
    ensures
        placed(le64_seq(xs), 8 * k, spec_u64_to_le_bytes(xs[k] as u64)),
{
    lemma_auto_spec_u64_to_from_le_bytes();
    lemma_le64_seq_len(xs);
    lemma_le64_seq(xs, k);
    let w = le64_seq(xs).subrange(8 * k, 8 * k + 8);
    assert forall|i: int| 0 <= i < 8 implies le64_seq(xs)[8 * k + i] == #[trigger] spec_u64_to_le_bytes(xs[k] as u64)[i] by {
        assert(w[i] == le64_seq(xs)[8 * k + i]);
    }
    assert(spec_u64_to_le_bytes(xs[k] as u64).len() == 8);
    assert(8 * k + 8 <= 8 * xs.len()) by (nonlinear_arith)
        requires
            k < xs.len(),
    ;
}

pub proof fn lemma_entries_bytes(es: Seq<GroupEntry>, k: int)
    requires
        0 <= k < es.len(),
    ensures
        entries_bytes(es).len() == 8 * es.len(),
        placed(entries_bytes(es), 8 * k, spec_u32_to_le_bytes(es[k].index)),
        placed(entries_bytes(es), 8 * k + 4, spec_u32_to_le_bytes(es[k].hash)),
    decreases es.len(),
{
    lemma_auto_spec_u32_to_from_le_bytes();
    lemma_entries_bytes_len(es);
    let init = es.drop_last();
    lemma_entries_bytes_len(init);
    let e = es[k];
    if k == es.len() - 1 {
        let a = spec_u32_to_le_bytes(e.index);
        let h = spec_u32_to_le_bytes(e.hash);
        assert(entries_bytes(es) == entries_bytes(init) + (a + h));
        assert(entries_bytes(es) =~= entries_bytes(init) + a + h);
        lemma_placed_concat(entries_bytes(init), a, h);
        lemma_placed_concat(entries_bytes(init) + a, h, Seq::<u8>::empty());
        assert(entries_bytes(init) + a + h + Seq::<u8>::empty() =~= entries_bytes(es));
    } else {
        lemma_entries_bytes(init, k);
        lemma_placed_concat(entries_bytes(init), entry_bytes(es.last()), Seq::<u8>::empty());
        assert(placed(entries_bytes(es), 0, entries_bytes(init)));
        lemma_placed_trans(entries_bytes(es), 0, entries_bytes(init), 8 * k, spec_u32_to_le_bytes(e.index));
        lemma_placed_trans(entries_bytes(es), 0, entries_bytes(init), 8 * k + 4, spec_u32_to_le_bytes(e.hash));
    }
}

pub proof fn lemma_entries_bytes_len(es: Seq<GroupEntry>)
    ensures
        entries_bytes(es).len() == 8 * es.len(),
    decreases es.len(),
{
    lemma_auto_spec_u32_to_from_le_bytes();
    if es.len() > 0 {
        lemma_entries_bytes_len(es.drop_last());
    }
}

pub proof fn lemma_chunks(gs: Seq<Seq<GroupEntry>>, n: int, k: int)
    requires
        0 <= k < n <= gs.len(),
    ensures
        chunks_bytes(gs, n).len() == chunks_len(gs, n),
        placed(chunks_bytes(gs, n), chunks_len(gs, k) as int, chunk_bytes(gs[k])),
    decreases n,
{
    lemma_chunks_len(gs, n);
    lemma_chunks_len(gs, n - 1);
    lemma_placed_concat(chunks_bytes(gs, n - 1), chunk_bytes(gs[n - 1]), Seq::<u8>::empty());
    if k == n - 1 {
    } else {
        lemma_chunks(gs, n - 1, k);
        lemma_placed_trans(chunks_bytes(gs, n), 0, chunks_bytes(gs, n - 1), chunks_len(gs, k) as int, chunk_bytes(gs[k]));
    }
}

pub proof fn lemma_chunks_len(gs: Seq<Seq<GroupEntry>>, n: int)
    ensures
        chunks_bytes(gs, n).len() == chunks_len(gs, n),
    decreases n,
{
    lemma_auto_spec_u64_to_from_le_bytes();
    if n > 0 {
        lemma_chunks_len(gs, n - 1);
        lemma_entries_bytes_len(gs[n - 1]);
    }
}

pub proof fn lemma_chunks_len_mono(gs: Seq<Seq<GroupEntry>>, i: int, j: int)
    requires
        0 <= i <= j,
    ensures
        chunks_len(gs, i) + (if i < j { chunk_len(gs[i]) } else { 0 }) <= chunks_len(gs, j),
    decreases j - i,
{
    if i < j {
        lemma_chunks_len_mono(gs, i, j - 1);
    }
}

pub proof fn lemma_offsets_bytes(gs: Seq<Seq<GroupEntry>>, start: nat, n: int, k: int)
    requires
        0 <= k < n,
    ensures
        offsets_bytes(gs, start, n).len() == 8 * n,
        placed(offsets_bytes(gs, start, n), 8 * k, spec_u64_to_le_bytes(group_offset(gs, start, k) as u64)),
    decreases n,
{
    lemma_offsets_bytes_len(gs, start, n);
    lemma_offsets_bytes_len(gs, start, n - 1);
    lemma_placed_concat(
        offsets_bytes(gs, start, n - 1),
        spec_u64_to_le_bytes(group_offset(gs, start, n - 1) as u64),
        Seq::<u8>::empty(),
    );
    if k < n - 1 {
        lemma_offsets_bytes(gs, start, n - 1, k);
        lemma_placed_trans(
            offsets_bytes(gs, start, n),
            0,
            offsets_bytes(gs, start, n - 1),
            8 * k,
            spec_u64_to_le_bytes(group_offset(gs, start, k) as u64),
        );
    }
}

pub proof fn lemma_offsets_bytes_len(gs: Seq<Seq<GroupEntry>>, start: nat, n: int)
    ensures
        offsets_bytes(gs, start, n).len() == if n <= 0 { 0 } else { 8 * n },
    decreases n,
{
    lemma_auto_spec_u64_to_from_le_bytes();
    if n > 0 {
        lemma_offsets_bytes_len(gs, start, n - 1);
    }
}

/// A group table written at `start` reads back as the groups it was written from.
#[verifier::spinoff_prover]
pub proof fn lemma_group_table_read(b: Seq<u8>, start: int, gs: Seq<Seq<GroupEntry>>)
    requires
        placed(b, start, spec_group_table(gs, start as nat)),
        start + group_table_len(gs) <= u64::MAX,
    ensures
        groups_at(b, start, gs.len()) == Some(gs),
{
    lemma_auto_spec_u64_to_from_le_bytes();
    let n = gs.len() as int;
    let ob = offsets_bytes(gs, start as nat, n);
    let cb = chunks_bytes(gs, n);
    let t = spec_group_table(gs, start as nat);
    lemma_offsets_bytes_len(gs, start as nat, n);
    lemma_chunks_len(gs, n);
    lemma_placed_concat(ob, cb, Seq::<u8>::empty());
    assert(ob + cb + Seq::<u8>::empty() =~= t);
    lemma_placed_trans(b, start, t, 0, ob);
    lemma_placed_trans(b, start, t, ob.len() as int, cb);
    assert(in_range(b, start, (8 * gs.len()) as int));
    assert forall|k: int| 0 <= k < n implies #[trigger] group_at(b, group_offset_at(b, start, k)) == Some(gs[k]) by {
        lemma_offsets_bytes(gs, start as nat, n, k);
        lemma_placed_trans(b, start, ob, 8 * k, spec_u64_to_le_bytes(group_offset(gs, start as nat, k) as u64));
        lemma_chunks_len_mono(gs, k, n);
        lemma_placed_u64(b, start + 8 * k, group_offset(gs, start as nat, k) as u64);
        let go = group_offset(gs, start as nat, k) as int;
        assert(group_offset_at(b, start, k) == go);
        lemma_chunks(gs, n, k);
        lemma_placed_trans(b, start + ob.len(), cb, chunks_len(gs, k) as int, chunk_bytes(gs[k]));
        let g = gs[k];
        let c = chunk_bytes(g);
        let a0 = spec_u64_to_le_bytes(g.len() as u64);
        let a1 = spec_u64_to_le_bytes(0x10);
        let eb = entries_bytes(g);
        lemma_entries_bytes_len(g);
        lemma_placed_concat(a0, a1, eb);
        lemma_placed_concat(a0 + a1, eb, Seq::<u8>::empty());
        assert(a0 + a1 + eb + Seq::<u8>::empty() =~= c);
        assert(placed(c, 0, a0)) by {
            lemma_placed_concat(a0, a1 + eb, Seq::<u8>::empty());
            assert(a0 + (a1 + eb) + Seq::<u8>::empty() =~= c);
        }
        lemma_placed_trans(b, go, c, 0, a0);
        lemma_placed_u64(b, go, g.len() as u64);
        lemma_placed_trans(b, go, c, 16, eb);
        assert(in_range(b, go, 16));
        assert(in_range(b, go + 16, (8 * g.len()) as int));
        let rd = group_at(b, go).unwrap();
        assert(rd =~= g) by {
            assert forall|i: int| 0 <= i < g.len() implies rd[i] == g[i] by {
                lemma_entries_bytes(g, i);
                lemma_placed_trans(b, go + 16, eb, 8 * i, spec_u32_to_le_bytes(g[i].index));
                lemma_placed_trans(b, go + 16, eb, 8 * i + 4, spec_u32_to_le_bytes(g[i].hash));
                lemma_placed_u32(b, go + 16 + 8 * i, g[i].index);
                lemma_placed_u32(b, go + 16 + 8 * i + 4, g[i].hash);
            }
        }
    }
    assert(groups_at(b, start, gs.len()).unwrap() =~= gs);
}

} // verus!
