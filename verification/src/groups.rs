//! Row-group and column-group hash buckets.

use vstd::prelude::*;
use vstd::bytes::{spec_u32_to_le_bytes, spec_u64_to_le_bytes, u32_to_le_bytes, u64_to_le_bytes};

verus! {

/// A single entry inside a row/column group: `(index, hash)`.
#[derive(Debug, Clone, Copy, PartialEq, Eq, Structural)]
pub struct GroupEntry {
    pub index: u32,
    pub hash: u32,
}

/// One bucket in a row-group or column-group index.
#[derive(Debug, Clone, PartialEq, Eq)]
pub struct Group {
    pub entries: Vec<GroupEntry>,
}

impl View for Group {
    type V = Seq<GroupEntry>;

    open spec fn view(&self) -> Seq<GroupEntry> {
        self.entries@
    }
}

/// Views of a slice of groups.
pub open spec fn groups_view(groups: Seq<Group>) -> Seq<Seq<GroupEntry>> {
    groups.map_values(|g: Group| g@)
}

/// Number of buckets for `count` keys: `count / 3`, at least one.
pub open spec fn spec_bucket_count(count: nat) -> nat {
    if count / 3 >= 1 {
        count / 3
    } else {
        1
    }
}

/// Bucket that a key with hash `hash` falls into, among `count` keys.
pub open spec fn spec_bucket_index(hash: u32, count: nat) -> nat {
    (hash as nat) % spec_bucket_count(count)
}

/// The entry made of an `(index, hash)` pair.
pub open spec fn entry_of(p: (u32, u32)) -> GroupEntry {
    GroupEntry { index: p.0, hash: p.1 }
}

/// Entries of bucket `b`: those whose hash falls into it, in input order.
pub open spec fn bucket_entries(entries: Seq<GroupEntry>, count: nat, b: int) -> Seq<GroupEntry> {
    entries.filter(|e: GroupEntry| spec_bucket_index(e.hash, count) == b)
}

/// The group table for `entries` among `count` keys.
pub open spec fn spec_build_groups(entries: Seq<GroupEntry>, count: nat) -> Seq<Seq<GroupEntry>> {
    Seq::new(spec_bucket_count(count), |b: int| bucket_entries(entries, count, b))
}

/// Bucket count for `count` keys: `count / 3` (integer division), minimum 1.
pub fn group_bucket_count(count: usize) -> (n: usize)
    ensures
        n == spec_bucket_count(count as nat),
        n >= 1,
{
    let n = count / 3;
    if n >= 1 {
        n
    } else {
        1
    }
}

/// Bucket index for a key hash among `count` keys: `hash % group_bucket_count(count)`.
pub fn bucket_index_for_hash(hash: u32, count: usize) -> (b: usize)
    ensures
        b == spec_bucket_index(hash, count as nat),
        b < spec_bucket_count(count as nat),
{
    let n = group_bucket_count(count);
    (hash as usize) % n
}

/// Build group buckets from `(index, hash)` pairs.
///
/// Bucket count is `count / 3` (integer division, minimum 1).
/// Assignment is `hash % bucket_count`.
pub fn build_groups(entries: Vec<(u32, u32)>, count: usize) -> (groups: Vec<Group>)
    ensures
        groups_view(groups@) == spec_build_groups(entries@.map_values(|p: (u32, u32)| entry_of(p)), count as nat),
{
    let ghost es = entries@.map_values(|p: (u32, u32)| entry_of(p));
    let bucket_count = group_bucket_count(count);
    let mut buckets: Vec<Group> = Vec::new();
    let mut b: usize = 0;
    while b < bucket_count
        invariant
            b <= bucket_count,
            buckets@.len() == b,
            forall|j: int| 0 <= j < b ==> (#[trigger] buckets@[j])@ == Seq::<GroupEntry>::empty(),
        decreases bucket_count - b,
    {
        buckets.push(Group { entries: Vec::new() });
        b = b + 1;
    }
    let mut i: usize = 0;
    while i < entries.len()
        invariant
            i <= entries@.len(),
            es == entries@.map_values(|p: (u32, u32)| entry_of(p)),
            bucket_count == spec_bucket_count(count as nat),
            buckets@.len() == bucket_count,
            forall|j: int|
                0 <= j < bucket_count ==> (#[trigger] buckets@[j])@ == bucket_entries(
                    es.take(i as int),
                    count as nat,
                    j,
                ),
        decreases entries@.len() - i,
    {
        let (index, hash) = entries[i];
        let bucket = bucket_index_for_hash(hash, count);
        let e = GroupEntry { index, hash };
        let ghost old_buckets = buckets@;
        buckets[bucket].entries.push(e);
        proof {
            assert(es.take(i + 1).drop_last() =~= es.take(i as int));
            assert(es.take(i + 1).last() == e);
            reveal(Seq::filter);
            assert forall|j: int| 0 <= j < bucket_count implies (#[trigger] buckets@[j])@
                == bucket_entries(es.take(i + 1), count as nat, j) by {
                if j != bucket {
                    assert(buckets@[j] == old_buckets[j]);
                }
            }
        }
        i = i + 1;
    }
    proof {
        assert(es.take(entries@.len() as int) =~= es);
        assert(groups_view(buckets@) =~= spec_build_groups(es, count as nat));
    }
    buckets
}

/// Little-endian encoding of one entry: index, then hash.
pub open spec fn entry_bytes(e: GroupEntry) -> Seq<u8> {
    spec_u32_to_le_bytes(e.index) + spec_u32_to_le_bytes(e.hash)
}

/// Concatenated encodings of a run of entries.
pub open spec fn entries_bytes(es: Seq<GroupEntry>) -> Seq<u8>
    decreases es.len(),
{
    if es.len() == 0 {
        Seq::empty()
    } else {
        entries_bytes(es.drop_last()) + entry_bytes(es.last())
    }
}

/// On-disk size of one group: count, entry size, then the entries.
pub open spec fn chunk_len(g: Seq<GroupEntry>) -> nat {
    16 + 8 * g.len()
}

/// On-disk bytes of one group: entry count, entry size (`0x10`), entries.
pub open spec fn chunk_bytes(g: Seq<GroupEntry>) -> Seq<u8> {
    spec_u64_to_le_bytes(g.len() as u64) + spec_u64_to_le_bytes(0x10) + entries_bytes(g)
}

/// Total size of the chunks of the first `n` groups.
pub open spec fn chunks_len(gs: Seq<Seq<GroupEntry>>, n: int) -> nat
    decreases n,
{
    if n <= 0 {
        0
    } else {
        chunks_len(gs, n - 1) + chunk_len(gs[n - 1])
    }
}

/// Absolute offset of group `i` in a table starting at `start`.
pub open spec fn group_offset(gs: Seq<Seq<GroupEntry>>, start: nat, i: int) -> nat {
    start + 8 * gs.len() + chunks_len(gs, i)
}

/// Encoded offsets of the first `n` groups.
pub open spec fn offsets_bytes(gs: Seq<Seq<GroupEntry>>, start: nat, n: int) -> Seq<u8>
    decreases n,
{
    if n <= 0 {
        Seq::empty()
    } else {
        offsets_bytes(gs, start, n - 1) + spec_u64_to_le_bytes(group_offset(gs, start, n - 1) as u64)
    }
}

/// Encoded chunks of the first `n` groups.
pub open spec fn chunks_bytes(gs: Seq<Seq<GroupEntry>>, n: int) -> Seq<u8>
    decreases n,
{
    if n <= 0 {
        Seq::empty()
    } else {
        chunks_bytes(gs, n - 1) + chunk_bytes(gs[n - 1])
    }
}

/// A group table starting at file offset `start`: one absolute offset per group,
/// then each group's bytes in order.
pub open spec fn spec_group_table(gs: Seq<Seq<GroupEntry>>, start: nat) -> Seq<u8> {
    offsets_bytes(gs, start, gs.len() as int) + chunks_bytes(gs, gs.len() as int)
}

/// Size in bytes of the group table for `gs`.
pub open spec fn group_table_len(gs: Seq<Seq<GroupEntry>>) -> nat {
    8 * gs.len() + chunks_len(gs, gs.len() as int)
}

proof fn lemma_entries_bytes_len(es: Seq<GroupEntry>)
    ensures
        entries_bytes(es).len() == 8 * es.len(),
    decreases es.len(),
{
    vstd::bytes::lemma_auto_spec_u32_to_from_le_bytes();
    if es.len() > 0 {
        lemma_entries_bytes_len(es.drop_last());
    }
}

proof fn lemma_chunks_len_mono(gs: Seq<Seq<GroupEntry>>, i: int, j: int)
    requires
        0 <= i <= j,
    ensures
        chunks_len(gs, i) <= chunks_len(gs, j),
    decreases j - i,
{
    if i < j {
        lemma_chunks_len_mono(gs, i, j - 1);
    }
}

fn append_u64(out: &mut Vec<u8>, x: u64)
    ensures
        final(out)@ == old(out)@ + spec_u64_to_le_bytes(x),
{
    let mut b = u64_to_le_bytes(x);
    out.append(&mut b);
}

fn append_u32(out: &mut Vec<u8>, x: u32)
    ensures
        final(out)@ == old(out)@ + spec_u32_to_le_bytes(x),
{
    let mut b = u32_to_le_bytes(x);
    out.append(&mut b);
}

/// Encode a group table into bytes, given the absolute file offset where
/// this table starts.
pub fn encode_group_table(groups: &[Group], table_start: u64) -> (out: Vec<u8>)
    requires
        table_start + group_table_len(groups_view(groups@)) <= u64::MAX,
    ensures
        out@ == spec_group_table(groups_view(groups@), table_start as nat),
        out@.len() == group_table_len(groups_view(groups@)),
{
    let ghost gs = groups_view(groups@);
    let num_groups = groups.len();
    proof {
        lemma_chunks_len_mono(gs, 0, num_groups as int);
    }
    let mut offsets: Vec<u8> = Vec::new();
    let mut chunks: Vec<u8> = Vec::new();
    let mut running: u64 = table_start + (num_groups as u64) * 8;
    let mut i: usize = 0;
    while i < num_groups
        invariant
            i <= num_groups,
            num_groups == groups@.len(),
            gs == groups_view(groups@),
            table_start + group_table_len(gs) <= u64::MAX,
            running == group_offset(gs, table_start as nat, i as int),
            offsets@ == offsets_bytes(gs, table_start as nat, i as int),
            chunks@ == chunks_bytes(gs, i as int),
            offsets@.len() == 8 * i,
            chunks@.len() == chunks_len(gs, i as int),
        decreases num_groups - i,
    {
        let group = &groups[i];
        append_u64(&mut offsets, running);
        proof {
            lemma_chunks_len_mono(gs, i + 1, num_groups as int);
            vstd::bytes::lemma_auto_spec_u64_to_from_le_bytes();
        }
        let ghost before = chunks@;
        let n = group.entries.len();
        append_u64(&mut chunks, n as u64);
        append_u64(&mut chunks, 0x10);
        let ghost header = chunks@;
        let mut k: usize = 0;
        while k < n
            invariant
                k <= n,
                n == group.entries@.len(),
                chunks@ == header + entries_bytes(group.entries@.take(k as int)),
                header.len() == before.len() + 16,
                before.len() + 16 + 8 * n <= u64::MAX,
            decreases n - k,
        {
            let e = group.entries[k];
            proof {
                vstd::bytes::lemma_auto_spec_u32_to_from_le_bytes();
                assert(group.entries@.take(k + 1).drop_last() =~= group.entries@.take(k as int));
            }
            append_u32(&mut chunks, e.index);
            append_u32(&mut chunks, e.hash);
            k = k + 1;
        }
        proof {
            assert(group.entries@.take(n as int) =~= group.entries@);
            lemma_entries_bytes_len(group.entries@);
            assert(gs[i as int] == group.entries@);
            assert(chunks@ =~= chunks_bytes(gs, i + 1));
        }
        running = running + 16 + (n as u64) * 8;
        i = i + 1;
    }
    offsets.append(&mut chunks);
    offsets
}

/// Every entry lands in the bucket of its hash.
pub proof fn lemma_bucket_contains(entries: Seq<GroupEntry>, count: nat, i: int)
    requires
        0 <= i < entries.len(),
    ensures
        spec_build_groups(entries, count)[spec_bucket_index(entries[i].hash, count) as int].contains(
            entries[i],
        ),
{
    let b = spec_bucket_index(entries[i].hash, count) as int;
    let pred = |e: GroupEntry| spec_bucket_index(e.hash, count) == b;
    entries.lemma_filter_contains(pred, i);
    assert(bucket_entries(entries, count, b) == entries.filter(pred));
    assert(b < spec_bucket_count(count)) by (nonlinear_arith)
        requires
            b == (entries[i].hash as nat) % spec_bucket_count(count),
            spec_bucket_count(count) >= 1,
    ;
}

} // verus!
