//! The string pool of STB/STL files: NUL-terminated UTF-8 strings, each padded to
//! a multiple of eight bytes; empty strings are not stored and point at offset `0`.

use vstd::prelude::*;
use vstd::string::StringSliceAdditionalSpecFns;
use vstd::utf8::encode_utf8;

verus! {

/// Size of a stored string of `n` bytes: the bytes and a NUL, rounded up to a
/// multiple of eight.
pub open spec fn padded_len(n: nat) -> nat {
    (n / 8) * 8 + 8
}

/// A stored string: its bytes, then zeros up to [`padded_len`] (at least one, the NUL).
pub open spec fn stored_bytes(s: Seq<u8>) -> Seq<u8> {
    s + Seq::new((padded_len(s.len()) - s.len()) as nat, |i: int| 0u8)
}

/// Pool bytes of the strings `ss` (empty strings take no room).
pub open spec fn pool_data(ss: Seq<Seq<u8>>) -> Seq<u8>
    decreases ss.len(),
{
    if ss.len() == 0 {
        Seq::empty()
    } else if ss.last().len() == 0 {
        pool_data(ss.drop_last())
    } else {
        pool_data(ss.drop_last()) + stored_bytes(ss.last())
    }
}

/// Recorded offsets of the strings `ss` in a pool starting at file offset `base`
/// (`0` for an empty string).
pub open spec fn pool_offsets(ss: Seq<Seq<u8>>, base: nat) -> Seq<nat>
    decreases ss.len(),
{
    if ss.len() == 0 {
        Seq::empty()
    } else {
        pool_offsets(ss.drop_last(), base).push(
            if ss.last().len() == 0 {
                0
            } else {
                base + pool_data(ss.drop_last()).len()
            },
        )
    }
}

/// UTF-8 bytes of each string.
pub open spec fn utf8_all(ss: Seq<Seq<char>>) -> Seq<Seq<u8>> {
    ss.map_values(|s: Seq<char>| encode_utf8(s))
}

/// Non-deduplicating, 8-byte-aligned string pool.
///
/// Each call to `append` adds a new copy of the string. Empty strings are recorded
/// as offset 0 (pointing at the file's zero version field).
pub struct StringPool {
    pub data: Vec<u8>,
    pub offsets: Vec<u64>,
    pub next_offset: u64,
}

impl StringPool {
    /// The pool holds exactly the strings `ss`, starting at file offset `base`.
    pub open spec fn holds(&self, ss: Seq<Seq<u8>>, base: nat) -> bool {
        &&& self.data@ == pool_data(ss)
        &&& self.offsets@.map_values(|o: u64| o as nat) == pool_offsets(ss, base)
        &&& self.next_offset == base + pool_data(ss).len()
    }

    /// An empty pool whose data will start at file offset `base_offset`.
    pub fn new(base_offset: u64) -> (p: Self)
        ensures
            p.holds(Seq::empty(), base_offset as nat),
    {
        let p = StringPool { data: Vec::new(), offsets: Vec::new(), next_offset: base_offset };
        assert(p.offsets@.map_values(|o: u64| o as nat) =~= Seq::<nat>::empty());
        p
    }

    /// Record an empty string (offset `0`, no data).
    pub fn push_empty(&mut self)
        ensures
            final(self).data@ == old(self).data@,
            final(self).offsets@ == old(self).offsets@.push(0),
            final(self).next_offset == old(self).next_offset,
    {
        self.offsets.push(0);
    }

    /// Append a copy of `s`: record its offset, then its bytes, a NUL and padding to a
    /// multiple of eight.
    pub fn append(&mut self, s: &str)
        requires
            old(self).next_offset + padded_len(s.spec_bytes().len()) <= u64::MAX,
        ensures
            final(self).data@ == old(self).data@ + stored_bytes(s.spec_bytes()),
            final(self).offsets@ == old(self).offsets@.push(old(self).next_offset),
            final(self).next_offset == old(self).next_offset + padded_len(s.spec_bytes().len()),
    {
        self.offsets.push(self.next_offset);
        let bytes = s.as_bytes();
        let n = bytes.len();
        let ghost d0 = self.data@;
        assert(bytes@ == s.spec_bytes());
        let mut i: usize = 0;
        while i < n
            invariant
                i <= n,
                self.offsets@ == old(self).offsets@.push(old(self).next_offset),
                self.next_offset == old(self).next_offset,
                n == bytes@.len(),
                self.data@ == d0 + bytes@.take(i as int),
            decreases n - i,
        {
            self.data.push(bytes[i]);
            i = i + 1;
            assert(bytes@.take(i as int) =~= bytes@.take(i - 1).push(bytes@[i - 1]));
        }
        let padded: u64 = (n as u64 / 8) * 8 + 8;
        let ghost zeros = Seq::new((padded - n) as nat, |j: int| 0u8);
        let mut k: u64 = n as u64;
        while k < padded
            invariant
                n <= k <= padded,
                self.offsets@ == old(self).offsets@.push(old(self).next_offset),
                self.next_offset == old(self).next_offset,
                padded == padded_len(n as nat),
                zeros == Seq::new((padded - n) as nat, |j: int| 0u8),
                self.data@ == d0 + bytes@ + zeros.take(k - n),
            decreases padded - k,
        {
            self.data.push(0);
            k = k + 1;
            assert(zeros.take(k - n) =~= zeros.take(k - 1 - n).push(0u8));
        }
        assert(zeros.take(padded - n) =~= zeros);
        assert(bytes@.take(n as int) =~= bytes@);
        self.next_offset = self.next_offset + padded;
    }

    /// Push a string, using offset 0 for empty strings.
    pub fn push(&mut self, s: &str)
        requires
            s.spec_bytes().len() > 0 ==> old(self).next_offset + padded_len(s.spec_bytes().len())
                <= u64::MAX,
        ensures
            s.spec_bytes().len() == 0 ==> final(self).data@ == old(self).data@ && final(self).offsets@
                == old(self).offsets@.push(0) && final(self).next_offset == old(self).next_offset,
            s.spec_bytes().len() > 0 ==> final(self).data@ == old(self).data@ + stored_bytes(s.spec_bytes())
                && final(self).offsets@ == old(self).offsets@.push(old(self).next_offset)
                && final(self).next_offset == old(self).next_offset + padded_len(s.spec_bytes().len()),
            forall|ss: Seq<Seq<u8>>, base: nat|
                #[trigger] old(self).holds(ss, base) ==> final(self).holds(ss.push(s.spec_bytes()), base),
    {
        let ghost old_self = *self;
        let ghost f = |o: u64| o as nat;
        if s.as_bytes().len() == 0 {
            self.push_empty();
            assert(self.data@ == old_self.data@);
        } else {
            self.append(s);
            assert(self.data@ == old_self.data@ + stored_bytes(s.spec_bytes()));
        }
        proof {
            assert forall|ss: Seq<Seq<u8>>, base: nat| #[trigger] old_self.holds(ss, base) implies self.holds(
                ss.push(s.spec_bytes()),
                base,
            ) by {
                let ss2 = ss.push(s.spec_bytes());
                assert(ss2.drop_last() =~= ss);
                assert(ss2.last() == s.spec_bytes());
                assert(pool_offsets(ss2, base) == pool_offsets(ss, base).push(
                    if s.spec_bytes().len() == 0 {
                        0
                    } else {
                        base + pool_data(ss).len()
                    },
                ));
                let o = self.offsets@.last();
                assert(self.offsets@ == old_self.offsets@.push(o));
                crate::text::lemma_map_push(old_self.offsets@, o, f);
                assert(self.offsets@.map_values(f) =~= self.offsets@.map_values(|o: u64| o as nat));
                assert(old_self.offsets@.map_values(f) =~= old_self.offsets@.map_values(|o: u64| o as nat));
                assert(pool_data(ss2) == if s.spec_bytes().len() == 0 {
                    pool_data(ss)
                } else {
                    pool_data(ss) + stored_bytes(s.spec_bytes())
                });
                assert(self.data@ == pool_data(ss2));
                assert(self.next_offset == base + pool_data(ss2).len());
                assert(self.offsets@.map_values(|o: u64| o as nat) == pool_offsets(ss2, base));
            }
        }
    }
}

} // verus!
