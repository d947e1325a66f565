//! The STB cell hash: Bob Jenkins' `lookup3` (`hashlittle`) with a fixed seed.

use vstd::prelude::*;

verus! {

/// Seed used by the game engine for every cell hash (123456789).
pub const HASH_SEED: u32 = 0x75BCD15;

/// Rotate a 32-bit word left by `k` bits.
pub open spec fn rotl(x: u32, k: u32) -> u32
    recommends
        0 < k < 32,
{
    (x << k) | (x >> ((32 - k) as u32))
}

/// Byte `k` of `t`, or zero past its end.
pub open spec fn byte_or_zero(t: Seq<u8>, k: int) -> u8 {
    if 0 <= k < t.len() {
        t[k]
    } else {
        0
    }
}

/// Little-endian 32-bit word starting at `i`, zero-padded past the end of `t`.
pub open spec fn word_at(t: Seq<u8>, i: int) -> u32 {
    (byte_or_zero(t, i) as u32) | ((byte_or_zero(t, i + 1) as u32) << 8u32) | ((byte_or_zero(
        t,
        i + 2,
    ) as u32) << 16u32) | ((byte_or_zero(t, i + 3) as u32) << 24u32)
}

/// The `mix` step of lookup3.
pub open spec fn mix(a: u32, b: u32, c: u32) -> (u32, u32, u32) {
    let a = a.wrapping_sub(c);
    let a = a ^ rotl(c, 4);
    let c = c.wrapping_add(b);
    let b = b.wrapping_sub(a);
    let b = b ^ rotl(a, 6);
    let a = a.wrapping_add(c);
    let c = c.wrapping_sub(b);
    let c = c ^ rotl(b, 8);
    let b = b.wrapping_add(a);
    let a = a.wrapping_sub(c);
    let a = a ^ rotl(c, 16);
    let c = c.wrapping_add(b);
    let b = b.wrapping_sub(a);
    let b = b ^ rotl(a, 19);
    let a = a.wrapping_add(c);
    let c = c.wrapping_sub(b);
    let c = c ^ rotl(b, 4);
    let b = b.wrapping_add(a);
    (a, b, c)
}

/// The `final` step of lookup3; only `c` is returned.
pub open spec fn final_c(a: u32, b: u32, c: u32) -> u32 {
    let c = c ^ b;
    let c = c.wrapping_sub(rotl(b, 14));
    let a = a ^ c;
    let a = a.wrapping_sub(rotl(c, 11));
    let b = b ^ a;
    let b = b.wrapping_sub(rotl(a, 25));
    let c = c ^ b;
    let c = c.wrapping_sub(rotl(b, 16));
    let a = a ^ c;
    let a = a.wrapping_sub(rotl(c, 4));
    let b = b ^ a;
    let b = b.wrapping_sub(rotl(a, 14));
    let c = c ^ b;
    let c = c.wrapping_sub(rotl(b, 24));
    c
}

/// Internal state after adding and mixing the first `n` twelve-byte blocks of `key`.
pub open spec fn mix_blocks(key: Seq<u8>, init: (u32, u32, u32), n: nat) -> (u32, u32, u32)
    decreases n,
{
    if n == 0 {
        init
    } else {
        let (a, b, c) = mix_blocks(key, init, (n - 1) as nat);
        let o: int = 12 * (n - 1);
        mix(
            a.wrapping_add(word_at(key, o)),
            b.wrapping_add(word_at(key, o + 4)),
            c.wrapping_add(word_at(key, o + 8)),
        )
    }
}

/// Number of blocks that lookup3 mixes before the final block: all but the last
/// (possibly partial) twelve bytes.
pub open spec fn full_blocks(len: nat) -> nat {
    if len == 0 {
        0
    } else {
        ((len - 1) / 12) as nat
    }
}

/// Bob Jenkins' `hashlittle` (lookup3) of `key` with seed `initval`.
pub open spec fn lookup3(key: Seq<u8>, initval: u32) -> u32 {
    let s = 0xdeadbeefu32.wrapping_add(key.len() as u32).wrapping_add(initval);
    let n = full_blocks(key.len());
    let (a, b, c) = mix_blocks(key, (s, s, s), n);
    if key.len() == 0 {
        c
    } else {
        let o: int = 12 * (n as int);
        final_c(
            a.wrapping_add(word_at(key, o)),
            b.wrapping_add(word_at(key, o + 4)),
            c.wrapping_add(word_at(key, o + 8)),
        )
    }
}

/// lookup3 mixes every twelve-byte block of a non-empty key except the last one,
/// and the last block, whether full or partial, always goes through the final step:
/// with `k = (len - 1) / 12` blocks mixed from the seeded state, the hash is
/// `final_c` of that state plus the (zero-padded) words at byte `12 * k`. A key whose
/// length is a positive multiple of twelve thus has `len / 12 - 1` blocks mixed and
/// its last full block finished, never mixed.
pub proof fn lemma_lookup3_finishes_last_block(key: Seq<u8>, initval: u32)
    requires
        key.len() > 0,
    ensures
        ({
            let s = 0xdeadbeefu32.wrapping_add(key.len() as u32).wrapping_add(initval);
            let k: int = ((key.len() - 1) / 12) as int;
            let (a, b, c) = mix_blocks(key, (s, s, s), k as nat);
            lookup3(key, initval) == final_c(
                a.wrapping_add(word_at(key, 12 * k)),
                b.wrapping_add(word_at(key, 12 * k + 4)),
                c.wrapping_add(word_at(key, 12 * k + 8)),
            )
        }),
        key.len() % 12 == 0 ==> ({
            let s = 0xdeadbeefu32.wrapping_add(key.len() as u32).wrapping_add(initval);
            let m: int = (key.len() / 12) as int;
            let (a, b, c) = mix_blocks(key, (s, s, s), (m - 1) as nat);
            &&& m >= 1
            &&& 12 * (m - 1) + 12 == key.len()
            &&& lookup3(key, initval) == final_c(
                a.wrapping_add(word_at(key, 12 * (m - 1))),
                b.wrapping_add(word_at(key, 12 * (m - 1) + 4)),
                c.wrapping_add(word_at(key, 12 * (m - 1) + 8)),
            )
        }),
{
    let len = key.len();
    if len % 12 == 0 {
        assert((len - 1) / 12 == len / 12 - 1 && len / 12 >= 1 && 12 * (len / 12) == len)
            by (nonlinear_arith)
            requires
                len % 12 == 0,
                len > 0,
        ;
    }
}

/// A twelve-byte key, `"Black Knight"`, hashed with the engine's seed: its single
/// block is the last block and goes through the final step.
pub proof fn lemma_lookup3_black_knight()
    ensures
        lookup3(seq![0x42u8, 0x6c, 0x61, 0x63, 0x6b, 0x20, 0x4b, 0x6e, 0x69, 0x67, 0x68, 0x74], HASH_SEED)
            == 0xA5FD75FBu32,
{
    let key = seq![0x42u8, 0x6c, 0x61, 0x63, 0x6b, 0x20, 0x4b, 0x6e, 0x69, 0x67, 0x68, 0x74];
    assert(key.len() == 12);
    assert(full_blocks(12) == 0);
    let s = 0xdeadbeefu32.wrapping_add(12u32).wrapping_add(HASH_SEED);
    assert(s == 0xe6098c10u32);
    assert(mix_blocks(key, (s, s, s), 0) == (s, s, s));
    let (b0, b1, b2, b3) = (key[0], key[1], key[2], key[3]);
    assert(b0 == 0x42u8 && b1 == 0x6cu8 && b2 == 0x61u8 && b3 == 0x63u8);
    assert((b0 as u32) | ((b1 as u32) << 8u32) | ((b2 as u32) << 16u32) | ((b3 as u32) << 24u32)
        == 0x63616c42u32) by (bit_vector)
        requires
            b0 == 0x42u8 && b1 == 0x6cu8 && b2 == 0x61u8 && b3 == 0x63u8,
    ;
    let (b4, b5, b6, b7) = (key[4], key[5], key[6], key[7]);
    assert(b4 == 0x6bu8 && b5 == 0x20u8 && b6 == 0x4bu8 && b7 == 0x6eu8);
    assert((b4 as u32) | ((b5 as u32) << 8u32) | ((b6 as u32) << 16u32) | ((b7 as u32) << 24u32)
        == 0x6e4b206bu32) by (bit_vector)
        requires
            b4 == 0x6bu8 && b5 == 0x20u8 && b6 == 0x4bu8 && b7 == 0x6eu8,
    ;
    let (b8, b9, b10, b11) = (key[8], key[9], key[10], key[11]);
    assert(b8 == 0x69u8 && b9 == 0x67u8 && b10 == 0x68u8 && b11 == 0x74u8);
    assert((b8 as u32) | ((b9 as u32) << 8u32) | ((b10 as u32) << 16u32) | ((b11 as u32) << 24u32)
        == 0x74686769u32) by (bit_vector)
        requires
            b8 == 0x69u8 && b9 == 0x67u8 && b10 == 0x68u8 && b11 == 0x74u8,
    ;
    assert(word_at(key, 0) == 0x63616c42u32);
    assert(word_at(key, 4) == 0x6e4b206bu32);
    assert(word_at(key, 8) == 0x74686769u32);
    assert(s.wrapping_add(0x63616c42u32) == 0x496af852u32);
    assert(s.wrapping_add(0x6e4b206bu32) == 0x5454ac7bu32);
    assert(s.wrapping_add(0x74686769u32) == 0x5a71f379u32);
    assert(final_c(0x496af852u32, 0x5454ac7bu32, 0x5a71f379u32) == 0xA5FD75FBu32) by (bit_vector);
}

/// The STB hash of a cell string: `0` for the empty string, else lookup3 of its
/// UTF-8 bytes with [`HASH_SEED`].
pub open spec fn spec_stb_hash(s: Seq<char>) -> u32 {
    let bytes = vstd::utf8::encode_utf8(s);
    if bytes.len() == 0 {
        0
    } else {
        lookup3(bytes, HASH_SEED)
    }
}

fn rot(x: u32, k: u32) -> (r: u32)
    requires
        0 < k < 32,
    ensures
        r == rotl(x, k),
{
    (x << k) | (x >> (32 - k))
}

fn byte_at(key: &[u8], k: usize) -> (r: u8)
    ensures
        r == byte_or_zero(key@, k as int),
{
    if k < key.len() {
        key[k]
    } else {
        0
    }
}

fn word(key: &[u8], i: usize) -> (r: u32)
    requires
        i + 3 < key.len(),
    ensures
        r == word_at(key@, i as int),
{
    (byte_at(key, i) as u32) | ((byte_at(key, i + 1) as u32) << 8u32) | ((byte_at(key, i + 2)
        as u32) << 16u32) | ((byte_at(key, i + 3) as u32) << 24u32)
}

fn mix_exec(a: u32, b: u32, c: u32) -> (r: (u32, u32, u32))
    ensures
        r == mix(a, b, c),
{
    let a = a.wrapping_sub(c);
    let a = a ^ rot(c, 4);
    let c = c.wrapping_add(b);
    let b = b.wrapping_sub(a);
    let b = b ^ rot(a, 6);
    let a = a.wrapping_add(c);
    let c = c.wrapping_sub(b);
    let c = c ^ rot(b, 8);
    let b = b.wrapping_add(a);
    let a = a.wrapping_sub(c);
    let a = a ^ rot(c, 16);
    let c = c.wrapping_add(b);
    let b = b.wrapping_sub(a);
    let b = b ^ rot(a, 19);
    let a = a.wrapping_add(c);
    let c = c.wrapping_sub(b);
    let c = c ^ rot(b, 4);
    let b = b.wrapping_add(a);
    (a, b, c)
}

fn final_exec(a: u32, b: u32, c: u32) -> (r: u32)
    ensures
        r == final_c(a, b, c),
{
    let c = c ^ b;
    let c = c.wrapping_sub(rot(b, 14));
    let a = a ^ c;
    let a = a.wrapping_sub(rot(c, 11));
    let b = b ^ a;
    let b = b.wrapping_sub(rot(a, 25));
    let c = c ^ b;
    let c = c.wrapping_sub(rot(b, 16));
    let a = a ^ c;
    let a = a.wrapping_sub(rot(c, 4));
    let b = b ^ a;
    let b = b.wrapping_sub(rot(a, 14));
    let c = c ^ b;
    let c = c.wrapping_sub(rot(b, 24));
    c
}

/// Bob Jenkins' `hashlittle` over `key` with seed `initval`.
fn hashlittle(key: &[u8], initval: u32) -> (r: u32)
    ensures
        r == lookup3(key@, initval),
{
    let len = key.len();
    let s = 0xdeadbeefu32.wrapping_add(#[verifier::truncate] (len as u32)).wrapping_add(initval);
    let mut a: u32 = s;
    let mut b: u32 = s;
    let mut c: u32 = s;
    let mut offset: usize = 0;
    let mut remaining: usize = len;
    let ghost mut n: nat = 0;
    while remaining > 12
        invariant
            offset + remaining == len,
            len == key@.len(),
            offset == 12 * n,
            len > 0 ==> remaining > 0,
            (a, b, c) == mix_blocks(key@, (s, s, s), n),
        decreases remaining,
    {
        let (a2, b2, c2) = mix_exec(
            a.wrapping_add(word(key, offset)),
            b.wrapping_add(word(key, offset + 4)),
            c.wrapping_add(word(key, offset + 8)),
        );
        a = a2;
        b = b2;
        c = c2;
        offset = offset + 12;
        remaining = remaining - 12;
        proof {
            n = n + 1;
        }
    }
    assert(n == full_blocks(len as nat)) by {
        if len > 0 {
            assert((len - 1) / 12 == n) by (nonlinear_arith)
                requires
                    len == 12 * n + remaining,
                    1 <= remaining <= 12,
            ;
        }
    }
    if remaining == 0 {
        return c;
    }
    // The last block, zero-padded to twelve bytes.
    let mut tail: Vec<u8> = Vec::new();
    let mut k: usize = 0;
    while k < 12
        invariant
            k <= 12,
            tail@.len() == k,
            offset + remaining == len,
            len == key@.len(),
            remaining <= 12,
            forall|j: int| 0 <= j < k ==> tail@[j] == byte_or_zero(key@, offset + j),
        decreases 12 - k,
    {
        if k < remaining {
            tail.push(key[offset + k]);
        } else {
            tail.push(0);
        }
        k = k + 1;
    }
    assert forall|t: int| 0 <= t < 12 implies #[trigger] byte_or_zero(tail@, t) == byte_or_zero(
        key@,
        offset + t,
    ) by {}
    let w0 = word(tail.as_slice(), 0);
    let w1 = word(tail.as_slice(), 4);
    let w2 = word(tail.as_slice(), 8);
    assert(w0 == word_at(key@, offset as int));
    assert(w1 == word_at(key@, offset + 4));
    assert(w2 == word_at(key@, offset + 8));
    final_exec(a.wrapping_add(w0), b.wrapping_add(w1), c.wrapping_add(w2))
}

/// Compute the STB cell hash for a string.
///
/// Empty strings hash to `0` (the game's convention).
pub fn stb_hash(s: &str) -> (h: u32)
    ensures
        h == spec_stb_hash(s@),
{
    let bytes = s.as_bytes();
    if bytes.len() == 0 {
        return 0;
    }
    hashlittle(bytes, HASH_SEED)
}

} // verus!
