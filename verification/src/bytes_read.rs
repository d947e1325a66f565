//! Reading little-endian integers and NUL-terminated UTF-8 strings out of a byte buffer.

use vstd::prelude::*;
use vstd::bytes::{spec_u32_from_le_bytes, spec_u64_from_le_bytes, u32_from_le_bytes, u64_from_le_bytes};
use vstd::slice::slice_subrange;
use vstd::utf8::{decode_utf8, valid_utf8};

verus! {

/// `n` bytes can be read at `off` (reading nothing always succeeds).
pub open spec fn in_range(b: Seq<u8>, off: int, n: int) -> bool {
    n == 0 || (0 <= off && 0 <= n && off + n <= b.len())
}

/// Little-endian `u32` at `off`.
pub open spec fn u32_at(b: Seq<u8>, off: int) -> u32 {
    spec_u32_from_le_bytes(b.subrange(off, off + 4))
}

/// Little-endian `u64` at `off`.
pub open spec fn u64_at(b: Seq<u8>, off: int) -> u64 {
    spec_u64_from_le_bytes(b.subrange(off, off + 8))
}

/// `n` consecutive `u64`s starting at `off`.
pub open spec fn u64s_at(b: Seq<u8>, off: int, n: nat) -> Seq<u64> {
    Seq::new(n, |k: int| u64_at(b, off + 8 * k))
}

/// `j` is the first NUL byte at or after `off`.
pub open spec fn is_nul_end(b: Seq<u8>, off: int, j: int) -> bool {
    &&& 0 <= off <= j < b.len()
    &&& b[j] == 0
    &&& forall|k: int| off <= k < j ==> b[k] != 0
}

/// A NUL byte follows `off` somewhere in `b`.
pub open spec fn has_nul_from(b: Seq<u8>, off: int) -> bool {
    exists|j: int| #[trigger] is_nul_end(b, off, j)
}

/// The bytes from `off` up to (not including) the first NUL after it.
pub open spec fn cstr_at(b: Seq<u8>, off: int) -> Seq<u8> {
    let j = choose|j: int| #[trigger] is_nul_end(b, off, j);
    b.subrange(off, j)
}

/// The string at `off` can be read: it is NUL-terminated and valid UTF-8.
pub open spec fn string_ok(b: Seq<u8>, off: int) -> bool {
    has_nul_from(b, off) && valid_utf8(cstr_at(b, off))
}

/// The string stored at `off`.
pub open spec fn string_at(b: Seq<u8>, off: int) -> Seq<char> {
    decode_utf8(cstr_at(b, off))
}

pub proof fn lemma_nul_end_unique(b: Seq<u8>, off: int, j1: int, j2: int)
    requires
        is_nul_end(b, off, j1),
        is_nul_end(b, off, j2),
    ensures
        j1 == j2,
{
}

/// Read the little-endian `u32` at `off`.
pub fn read_u32(b: &[u8], off: usize) -> (x: u32)
    requires
        off + 4 <= b.len(),
    ensures
        x == u32_at(b@, off as int),
{
    u32_from_le_bytes(slice_subrange(b, off, off + 4))
}

/// Read the little-endian `u64` at `off`.
pub fn read_u64(b: &[u8], off: usize) -> (x: u64)
    requires
        off + 8 <= b.len(),
    ensures
        x == u64_at(b@, off as int),
{
    u64_from_le_bytes(slice_subrange(b, off, off + 8))
}

/// The `Display` text of the error that `std::str::from_utf8` gives for `v`.
pub uninterp spec fn utf8_error_text(v: Seq<u8>) -> Seq<char>;

/// `std::str::from_utf8`: the string whose UTF-8 encoding is `v`, or the text of the
/// `Utf8Error` that says why `v` is not UTF-8.
///
/// Claimed: the result is `Ok` exactly when `v` is well-formed UTF-8 (as vstd's
/// `valid_utf8` defines it), and then its characters are those that `v` encodes; the
/// error text depends on `v` alone.
#[verifier::external_body]
pub(crate) fn str_from_utf8(v: &[u8]) -> (r: Result<&str, String>)
    ensures
        r is Ok <==> valid_utf8(v@),
        r matches Ok(s) ==> s@ == decode_utf8(v@),
        r matches Err(m) ==> m@ == utf8_error_text(v@),
{
    match std::str::from_utf8(v) {
        Ok(s) => Ok(s),
        Err(e) => Err(e.to_string()),
    }
}

/// Read the NUL-terminated UTF-8 string at file offset `off`.
///
/// `None`: no NUL before the end of the data (an unexpected end of file).
/// `Some(None)`: the bytes are not valid UTF-8.
pub fn read_null_string(b: &[u8], off: u64) -> (r: Option<Option<String>>)
    ensures
        r is None <==> !has_nul_from(b@, off as int),
        r matches Some(x) ==> (x is Some <==> valid_utf8(cstr_at(b@, off as int))),
        r matches Some(Some(s)) ==> s@ == string_at(b@, off as int),
{
    if off >= b.len() as u64 {
        return None;
    }
    let start = off as usize;
    let mut j: usize = start;
    while j < b.len()
        invariant
            start <= j <= b@.len(),
            start == off,
            forall|k: int| start <= k < j ==> b@[k] != 0,
        decreases b@.len() - j,
    {
        if b[j] == 0 {
            proof {
                assert(is_nul_end(b@, off as int, j as int));
                let j2 = choose|j2: int| #[trigger] is_nul_end(b@, off as int, j2);
                lemma_nul_end_unique(b@, off as int, j as int, j2);
            }
            let bytes = slice_subrange(b, start, j);
            return match str_from_utf8(bytes) {
                Ok(s) => Some(Some(s.to_owned())),
                Err(_) => Some(None),
            };
        }
        j = j + 1;
    }
    None
}

} // verus!
