//! What holds of the index store whatever it contains: facts about the format,
//! and the laws that relate adding, removing, searching and reopening.

use crate::index_model::{
    bytes_slot, create_outcome, files_after_create, first_accepting, meta_record, metadata_file,
    open_outcome, other_than, packed, parse_metadata, record_meta, slot_bytes, slots_bytes,
    write_at, zeros, ChunkMeta, CreateAction, Entry, IndexError, IndexView, KeyQuery,
};
use crate::layout::{
    be_nat, be_u64, lemma_u16_be_roundtrip, lemma_u64_be_roundtrip, u16_be, u64_be, CHUNK_BYTES,
    CHUNK_SLOTS, SLOT_BYTES,
};
use vstd::prelude::*;

verus! {

/// Eight zero bytes are the number zero.
pub proof fn lemma_zero_bytes(b: Seq<u8>)
    requires
        b.len() >= 8,
        forall|i: int| 0 <= i < 8 ==> b[i] == 0,
    ensures
        be_u64(b) == 0,
{
    let t = b.take(8);
    reveal_with_fuel(be_nat, 9);
    assert(t.len() == 8);
    assert(t.last() == 0);
    assert(t.drop_last().last() == 0);
    assert(t.drop_last().drop_last().last() == 0);
    assert(t.drop_last().drop_last().drop_last().last() == 0);
    assert(t.drop_last().drop_last().drop_last().drop_last().last() == 0);
    assert(t.drop_last().drop_last().drop_last().drop_last().drop_last().last() == 0);
    assert(t.drop_last().drop_last().drop_last().drop_last().drop_last().drop_last().last() == 0);
    assert(t.drop_last().drop_last().drop_last().drop_last().drop_last().drop_last().drop_last().last()
        == 0);
}

/// A slot has 16 bytes, and reading what was written gives the entry back.
pub proof fn lemma_slot_roundtrip(e: Entry)
    ensures
        slot_bytes(e).len() == 16,
        bytes_slot(slot_bytes(e)) == e,
{
    lemma_u64_be_roundtrip(e.key, Seq::empty());
    lemma_u64_be_roundtrip(e.offset, Seq::empty());
    assert(slot_bytes(e).subrange(0, 8) =~= u64_be(e.key));
    assert(slot_bytes(e).subrange(8, 16) =~= u64_be(e.offset));
}

/// Sixteen bytes are the slot of the entry that they hold.
pub proof fn lemma_bytes_slot_roundtrip(b: Seq<u8>)
    requires
        b.len() == 16,
    ensures
        slot_bytes(bytes_slot(b)) == b,
{
    lemma_u64_be_roundtrip(0, b.subrange(0, 8));
    lemma_u64_be_roundtrip(0, b.subrange(8, 16));
    assert(slot_bytes(bytes_slot(b)) =~= b);
}

/// A metadata record has 18 bytes, and reading what was written gives the
/// record back.
pub proof fn lemma_meta_roundtrip(m: ChunkMeta)
    ensures
        meta_record(m).len() == 18,
        record_meta(meta_record(m)) == m,
{
    lemma_u64_be_roundtrip(m.min_key, Seq::empty());
    lemma_u64_be_roundtrip(m.max_key, Seq::empty());
    lemma_u16_be_roundtrip(m.count, Seq::empty());
    assert(meta_record(m).subrange(0, 8) =~= u64_be(m.min_key));
    assert(meta_record(m).subrange(8, 16) =~= u64_be(m.max_key));
    assert(meta_record(m).subrange(16, 18) =~= u16_be(m.count));
}

/// A write that stays inside a file changes the bytes under it and no others.
pub proof fn lemma_write_inside(file: Seq<u8>, at: int, bytes: Seq<u8>)
    requires
        0 <= at,
        at + bytes.len() <= file.len(),
    ensures
        write_at(file, at, bytes).len() == file.len(),
        forall|p: int|
            0 <= p < file.len() ==> #[trigger] write_at(file, at, bytes)[p] == if at <= p < at
                + bytes.len() {
                bytes[p - at]
            } else {
                file[p]
            },
{
}

/// A write at the end of a file appends the bytes.
pub proof fn lemma_write_at_end(file: Seq<u8>, bytes: Seq<u8>)
    ensures
        write_at(file, file.len() as int, bytes) == file + bytes,
{
    assert(write_at(file, file.len() as int, bytes) =~= file + bytes);
}

/// The first accepting chunk accepts the key and no chunk before it does; where
/// there is none, no chunk accepts the key.
pub proof fn lemma_first_accepting(metadata: Seq<ChunkMeta>, key: u64)
    ensures
        match first_accepting(metadata, key) {
            Some(c) => 0 <= c < metadata.len() && metadata[c].accepts(key) && forall|b: int|
                0 <= b < c ==> !(#[trigger] metadata[b]).accepts(key),
            None => forall|b: int| 0 <= b < metadata.len() ==> !(#[trigger] metadata[b]).accepts(key),
        },
    decreases metadata.len(),
{
    if metadata.len() > 0 {
        let front = metadata.drop_last();
        lemma_first_accepting(front, key);
        match first_accepting(front, key) {
            Some(c) => {
                assert(metadata[c] == front[c]);
                assert forall|b: int| 0 <= b < c implies !(#[trigger] metadata[b]).accepts(
                    key,
                ) by {
                    assert(metadata[b] == front[b]);
                }
            },
            None => {
                assert forall|b: int| 0 <= b < metadata.len() - 1 implies !(
                #[trigger] metadata[b]).accepts(key) by {
                    assert(metadata[b] == front[b]);
                }
            },
        }
    }
}

/// Position `r` of chunk `c` is byte `c * 65536 + r` of the index file.
pub proof fn lemma_chunk_position(c: int, r: int)
    requires
        0 <= c,
        0 <= r < CHUNK_BYTES,
    ensures
        (c * CHUNK_BYTES + r) / (CHUNK_BYTES as int) == c,
        (c * CHUNK_BYTES + r) % (CHUNK_BYTES as int) == r,
{
}

/// The slot of a packed chunk holds the entry of its position, or zeros after
/// the last entry.
pub proof fn lemma_packed_slot(entries: Seq<Entry>, j: int)
    requires
        entries.len() <= CHUNK_SLOTS,
        0 <= j < CHUNK_SLOTS,
    ensures
        packed(entries).len() == CHUNK_BYTES,
        bytes_slot(packed(entries).subrange(j * 16, j * 16 + 16)) == if j < entries.len() {
            entries[j]
        } else {
            Entry { key: 0, offset: 0 }
        },
{
    let b = packed(entries).subrange(j * 16, j * 16 + 16);
    if j < entries.len() {
        lemma_slot_roundtrip(entries[j]);
        assert(b =~= slot_bytes(entries[j])) by {
            assert forall|k: int| 0 <= k < 16 implies b[k] == slot_bytes(entries[j])[k] by {
                assert((j * 16 + k) / 16 == j);
                assert((j * 16 + k) % 16 == k);
            }
        }
    } else {
        lemma_zero_bytes(b.subrange(0, 8));
        lemma_zero_bytes(b.subrange(8, 16));
    }
}

/// Where a chunk has a free slot, the entry goes into it: the format still
/// holds, the slot holds the entry, and every other slot is as before.
pub proof fn lemma_insert_at(s: IndexView, c: int, e: Entry)
    requires
        s.wf(),
        0 <= c < s.metadata.len(),
        s.metadata[c].count < CHUNK_SLOTS,
    ensures
        s.insert_at(c, e).wf(),
        s.insert_at(c, e).metadata.len() == s.metadata.len(),
        s.insert_at(c, e).index.len() == s.index.len(),
        s.insert_at(c, e).slot(c, s.metadata[c].count as int) == e,
        forall|c1: int, j1: int|
            0 <= c1 < s.metadata.len() && 0 <= j1 < CHUNK_SLOTS && !(c1 == c && j1
                == s.metadata[c].count) ==> #[trigger] s.insert_at(c, e).slot(c1, j1) == s.slot(
                c1,
                j1,
            ),
{
    let t = s.insert_at(c, e);
    let n = s.metadata[c].count as int;
    let at = c * CHUNK_BYTES + n * SLOT_BYTES;
    lemma_slot_roundtrip(e);
    lemma_write_inside(s.index, at, slot_bytes(e));
    assert(t.index.subrange(at, at + 16) =~= slot_bytes(e));
    assert forall|c1: int, j1: int|
        0 <= c1 < s.metadata.len() && 0 <= j1 < CHUNK_SLOTS && !(c1 == c && j1 == n) implies #[trigger] t.slot(
        c1,
        j1,
    ) == s.slot(c1, j1) by {
        let q = c1 * CHUNK_BYTES + j1 * SLOT_BYTES;
        assert(q + 16 <= at || at + 16 <= q);
        assert(t.index.subrange(q, q + 16) =~= s.index.subrange(q, q + 16));
    }
    assert forall|c1: int, p: int|
        0 <= c1 < t.metadata.len() && t.metadata[c1].count * SLOT_BYTES <= p
            < CHUNK_BYTES implies #[trigger] t.chunk_byte(c1, p) == 0 by {
        assert(s.chunk_byte(c1, p) == 0);
    }
}

/// A new chunk leaves the format intact: its first slot holds the entry, its
/// other slots are zero, and every slot of the other chunks is as before.
pub proof fn lemma_append_chunk(s: IndexView, e: Entry)
    requires
        s.wf(),
    ensures
        s.append_chunk(e).wf(),
        s.append_chunk(e).metadata.len() == s.metadata.len() + 1,
        s.append_chunk(e).slot(s.metadata.len() as int, 0) == e,
        forall|c1: int, j1: int|
            0 <= c1 < s.metadata.len() && 0 <= j1 < CHUNK_SLOTS ==> #[trigger] s.append_chunk(
                e,
            ).slot(c1, j1) == s.slot(c1, j1),
{
    let t = s.append_chunk(e);
    let n = s.metadata.len() as int;
    lemma_packed_slot(seq![e], 0);
    assert(t.index.subrange(n * CHUNK_BYTES, n * CHUNK_BYTES + 16) =~= packed(seq![e]).subrange(
        0,
        16,
    ));
    assert forall|c1: int, j1: int|
        0 <= c1 < s.metadata.len() && 0 <= j1 < CHUNK_SLOTS implies #[trigger] t.slot(c1, j1)
        == s.slot(c1, j1) by {
        let q = c1 * CHUNK_BYTES + j1 * SLOT_BYTES;
        assert(t.index.subrange(q, q + 16) =~= s.index.subrange(q, q + 16));
    }
    assert forall|c1: int, p: int|
        0 <= c1 < t.metadata.len() && t.metadata[c1].count * SLOT_BYTES <= p
            < CHUNK_BYTES implies #[trigger] t.chunk_byte(c1, p) == 0 by {
        if c1 < n {
            assert(s.chunk_byte(c1, p) == 0);
        }
    }
}

/// Adding keeps the format.
pub proof fn lemma_add_wf(s: IndexView, key: u64, offset: u64)
    requires
        s.wf(),
    ensures
        s.add(key, offset).wf(),
{
    let e = Entry { key, offset };
    lemma_first_accepting(s.metadata, key);
    match first_accepting(s.metadata, key) {
        Some(c) => lemma_insert_at(s, c, e),
        None => lemma_append_chunk(s, e),
    }
}

/// What removing does to each slot: a chunk whose range holds the key has its
/// kept entries in its first slots and zeros after them, and every other chunk
/// is as before. The format still holds.
pub proof fn lemma_remove(s: IndexView, key: u64, offset: u64)
    requires
        s.wf(),
    ensures
        s.remove(key, offset).wf(),
        s.remove(key, offset).metadata.len() == s.metadata.len(),
        s.remove(key, offset).index.len() == s.index.len(),
        forall|c: int|
            0 <= c < s.metadata.len() ==> (#[trigger] s.remove(key, offset).metadata[c]).min_key
                == s.metadata[c].min_key && s.remove(key, offset).metadata[c].max_key
                == s.metadata[c].max_key,
        forall|c: int, j: int|
            0 <= c < s.metadata.len() && 0 <= j < CHUNK_SLOTS ==> #[trigger] s.remove(
                key,
                offset,
            ).slot(c, j) == if !s.metadata[c].holds(key) {
                s.slot(c, j)
            } else if j < s.kept(c, Entry { key, offset }).len() {
                s.kept(c, Entry { key, offset })[j]
            } else {
                Entry { key: 0, offset: 0 }
            },
{
    let t = s.remove(key, offset);
    let target = Entry { key, offset };
    assert forall|c: int| 0 <= c < s.metadata.len() implies s.kept(c, target).len()
        <= s.metadata[c].count by {
        s.live(c).lemma_filter_len(other_than(target));
    }
    assert forall|c: int, j: int|
        0 <= c < s.metadata.len() && 0 <= j < CHUNK_SLOTS implies #[trigger] t.slot(c, j) == if !s.metadata[c].holds(
        key,
    ) {
        s.slot(c, j)
    } else if j < s.kept(c, target).len() {
        s.kept(c, target)[j]
    } else {
        Entry { key: 0, offset: 0 }
    } by {
        let q = c * CHUNK_BYTES + j * SLOT_BYTES;
        let was = s.index.subrange(q, q + 16);
        let now = t.index.subrange(q, q + 16);
        let pack = packed(s.kept(c, target)).subrange(j * 16, j * 16 + 16);
        lemma_packed_slot(s.kept(c, target), j);
        assert forall|k: int| 0 <= k < 16 implies now[k] == if s.metadata[c].holds(key) {
            pack[k]
        } else {
            was[k]
        } by {
            lemma_chunk_position(c, j * 16 + k);
        }
        if s.metadata[c].holds(key) {
            assert(now =~= pack);
        } else {
            assert(now =~= was);
        }
    }
    assert forall|c: int, p: int|
        0 <= c < t.metadata.len() && t.metadata[c].count * SLOT_BYTES <= p
            < CHUNK_BYTES implies #[trigger] t.chunk_byte(c, p) == 0 by {
        lemma_chunk_position(c, p);
        if !s.metadata[c].holds(key) {
            assert(s.chunk_byte(c, p) == 0);
        }
    }
}

/// Removing chunk by chunk: before any chunk nothing has changed, after the
/// last chunk the entry is removed, and the step over chunk `c` packs that
/// chunk where its range holds the key and leaves it alone where not. Up to
/// that step chunk `c` is as it was.
pub proof fn lemma_remove_step(s: IndexView, key: u64, offset: u64, c: int)
    requires
        s.wf(),
        0 <= c < s.metadata.len(),
    ensures
        s.remove_upto(key, offset, 0) == s,
        s.remove_upto(key, offset, s.metadata.len() as int) == s.remove(key, offset),
        s.remove_upto(key, offset, c).metadata[c] == s.metadata[c],
        s.remove_upto(key, offset, c).chunk(c) == s.chunk(c),
        s.remove_upto(key, offset, c).live(c) == s.live(c),
        s.kept(c, Entry { key, offset }).len() <= s.metadata[c].count,
        s.remove_upto(key, offset, c + 1) == if s.metadata[c].holds(key) {
            IndexView {
                metadata: s.remove_upto(key, offset, c).metadata.update(
                    c,
                    s.metadata[c].with_count(s.kept(c, Entry { key, offset }).len() as int),
                ),
                index: write_at(
                    s.remove_upto(key, offset, c).index,
                    c * CHUNK_BYTES,
                    packed(s.kept(c, Entry { key, offset })),
                ),
            }
        } else {
            s.remove_upto(key, offset, c)
        },
{
    let target = Entry { key, offset };
    let cur = s.remove_upto(key, offset, c);
    let next = s.remove_upto(key, offset, c + 1);
    let n = s.metadata.len() as int;
    s.live(c).lemma_filter_len(other_than(target));
    assert(s.remove_upto(key, offset, 0).metadata =~= s.metadata);
    assert(s.remove_upto(key, offset, 0).index =~= s.index);
    assert(s.remove_upto(key, offset, n).metadata =~= s.remove(key, offset).metadata);
    assert(s.remove_upto(key, offset, n).index =~= s.remove(key, offset).index);
    assert forall|r: int| 0 <= r < CHUNK_BYTES implies #[trigger] cur.chunk_byte(c, r)
        == s.chunk_byte(c, r) by {
        lemma_chunk_position(c, r);
    }
    assert forall|r: int| 0 <= r < CHUNK_BYTES implies #[trigger] cur.chunk(c)[r] == s.chunk(c)[r] by {
        assert(cur.chunk_byte(c, r) == s.chunk_byte(c, r));
    }
    assert(cur.chunk(c) =~= s.chunk(c));
    assert forall|j: int| 0 <= j < s.metadata[c].count implies cur.slot(c, j) == s.slot(c, j) by {
        let q = c * CHUNK_BYTES + j * SLOT_BYTES;
        let a = cur.index.subrange(q, q + 16);
        let b = s.index.subrange(q, q + 16);
        assert forall|k: int| 0 <= k < 16 implies a[k] == b[k] by {
            assert(cur.chunk_byte(c, j * 16 + k) == s.chunk_byte(c, j * 16 + k));
        }
        assert(a =~= b);
    }
    assert(cur.live(c) =~= s.live(c));
    if s.metadata[c].holds(key) {
        let pack = packed(s.kept(c, target));
        let by_write = write_at(cur.index, c * CHUNK_BYTES, pack);
        lemma_write_inside(cur.index, c * CHUNK_BYTES, pack);
        assert forall|p: int| 0 <= p < next.index.len() implies next.index[p] == by_write[p] by {
            let c1 = p / (CHUNK_BYTES as int);
            lemma_chunk_position(c1, p % (CHUNK_BYTES as int));
        }
        assert(next.index =~= by_write);
        assert(next.metadata =~= cur.metadata.update(
            c,
            s.metadata[c].with_count(s.kept(c, target).len() as int),
        ));
    } else {
        assert(next.metadata =~= cur.metadata);
        assert(next.index =~= cur.index);
    }
}

/// One more entry is one more slot at the end of the bytes.
pub proof fn lemma_slots_bytes_push(entries: Seq<Entry>, e: Entry)
    ensures
        slots_bytes(entries.push(e)) == slots_bytes(entries) + slot_bytes(e),
        slots_bytes(entries).len() == entries.len() * 16,
{
    lemma_slot_roundtrip(e);
    let now = slots_bytes(entries.push(e));
    let joined = slots_bytes(entries) + slot_bytes(e);
    assert forall|p: int| 0 <= p < now.len() implies now[p] == joined[p] by {
        if p < entries.len() * 16 {
            assert(p / 16 < entries.len());
        } else {
            assert(p / 16 == entries.len());
            assert(p % 16 == p - entries.len() * 16);
        }
    }
    assert(now =~= joined);
}

/// A packed chunk is the bytes of its entries and zeros up to 65536 bytes.
pub proof fn lemma_packed_is_padded(entries: Seq<Entry>)
    requires
        entries.len() <= CHUNK_SLOTS,
    ensures
        packed(entries) == slots_bytes(entries) + zeros(CHUNK_BYTES - entries.len() * 16),
{
    assert(packed(entries) =~= slots_bytes(entries) + zeros(CHUNK_BYTES - entries.len() * 16));
}

/// No slot comes before the first slot of the first chunk.
pub proof fn lemma_hits_start(s: IndexView, q: KeyQuery)
    ensures
        s.hits_before(q, 0, 0) == Set::<u64>::empty(),
{
    assert(s.hits_before(q, 0, 0) =~= Set::<u64>::empty());
}

/// Every slot comes before the end of the last chunk.
pub proof fn lemma_hits_end(s: IndexView, q: KeyQuery)
    ensures
        s.hits_before(q, s.metadata.len() as int, 0) == s.search(q),
{
    assert(s.hits_before(q, s.metadata.len() as int, 0) =~= s.search(q));
}

/// What slot `j` of chunk `c` adds to the offsets found before it.
pub proof fn lemma_hits_slot(s: IndexView, q: KeyQuery, c: int, j: int)
    requires
        0 <= c < s.metadata.len(),
        0 <= j < CHUNK_SLOTS,
    ensures
        s.hits_before(q, c, j + 1) == if q.touches(s.metadata[c]) && q.admits(s.slot(c, j).key) {
            s.hits_before(q, c, j).insert(s.slot(c, j).offset)
        } else {
            s.hits_before(q, c, j)
        },
{
    let after = s.hits_before(q, c, j + 1);
    let before = s.hits_before(q, c, j);
    let found = q.touches(s.metadata[c]) && q.admits(s.slot(c, j).key);
    assert forall|o: u64| after.contains(o) <==> (before.contains(o) || (found && o == s.slot(
        c,
        j,
    ).offset)) by {
        if after.contains(o) {
            let (c1, j1) = choose|c1: int, j1: int|
                (c1 < c || (c1 == c && j1 < j + 1)) && #[trigger] s.hit(q, c1, j1, o);
            if c1 == c && j1 == j {
            } else {
                assert((c1 < c || (c1 == c && j1 < j)) && s.hit(q, c1, j1, o));
            }
        }
        if before.contains(o) {
            let (c1, j1) = choose|c1: int, j1: int|
                (c1 < c || (c1 == c && j1 < j)) && #[trigger] s.hit(q, c1, j1, o);
            assert((c1 < c || (c1 == c && j1 < j + 1)) && s.hit(q, c1, j1, o));
        }
        if found && o == s.slot(c, j).offset {
            assert(s.hit(q, c, j, o));
        }
    }
    if found {
        assert(after =~= before.insert(s.slot(c, j).offset));
    } else {
        assert(after =~= before);
    }
}

/// The chunks from `from` up to `to` add nothing where the range of none of
/// them overlaps the query; and the slots of a chunk end where the next
/// chunk begins.
pub proof fn lemma_hits_skip(s: IndexView, q: KeyQuery, from: int, to: int)
    requires
        0 <= from <= to,
        forall|c: int|
            from <= c < to && c < s.metadata.len() ==> !q.touches(#[trigger] s.metadata[c]),
    ensures
        s.hits_before(q, from, 0) == s.hits_before(q, to, 0),
        from > 0 ==> s.hits_before(q, from - 1, CHUNK_SLOTS as int) == s.hits_before(q, from, 0),
{
    let a = s.hits_before(q, from, 0);
    let b = s.hits_before(q, to, 0);
    assert forall|o: u64| a.contains(o) <==> b.contains(o) by {
        if a.contains(o) {
            let (c1, j1) = choose|c1: int, j1: int|
                (c1 < from || (c1 == from && j1 < 0)) && #[trigger] s.hit(q, c1, j1, o);
            assert((c1 < to || (c1 == to && j1 < 0)) && s.hit(q, c1, j1, o));
        }
        if b.contains(o) {
            let (c1, j1) = choose|c1: int, j1: int|
                (c1 < to || (c1 == to && j1 < 0)) && #[trigger] s.hit(q, c1, j1, o);
            assert((c1 < from || (c1 == from && j1 < 0)) && s.hit(q, c1, j1, o));
        }
    }
    assert(a =~= b);
    if from > 0 {
        let e = s.hits_before(q, from - 1, CHUNK_SLOTS as int);
        assert forall|o: u64| e.contains(o) <==> a.contains(o) by {
            if e.contains(o) {
                let (c1, j1) = choose|c1: int, j1: int|
                    (c1 < from - 1 || (c1 == from - 1 && j1 < CHUNK_SLOTS)) && #[trigger] s.hit(
                        q,
                        c1,
                        j1,
                        o,
                    );
                assert((c1 < from || (c1 == from && j1 < 0)) && s.hit(q, c1, j1, o));
            }
            if a.contains(o) {
                let (c1, j1) = choose|c1: int, j1: int|
                    (c1 < from || (c1 == from && j1 < 0)) && #[trigger] s.hit(q, c1, j1, o);
                assert((c1 < from - 1 || (c1 == from - 1 && j1 < CHUNK_SLOTS)) && s.hit(
                    q,
                    c1,
                    j1,
                    o,
                ));
            }
        }
        assert(e =~= a);
    }
}

/// An entry that was added is found under its key.
pub proof fn law_added_is_found(s: IndexView, key: u64, offset: u64)
    requires
        s.wf(),
    ensures
        s.add(key, offset).wf(),
        s.add(key, offset).search(KeyQuery::Key(key)).contains(offset),
{
    let e = Entry { key, offset };
    let t = s.add(key, offset);
    lemma_add_wf(s, key, offset);
    lemma_first_accepting(s.metadata, key);
    match first_accepting(s.metadata, key) {
        Some(c) => {
            lemma_insert_at(s, c, e);
            assert(t.hit(KeyQuery::Key(key), c, s.metadata[c].count as int, offset));
        },
        None => {
            lemma_append_chunk(s, e);
            assert(t.hit(KeyQuery::Key(key), s.metadata.len() as int, 0, offset));
        },
    }
}

/// After an entry was removed, a search for its key does not give its offset.
/// The entry of key 0 and offset 0 is left out: it reads like a free slot, so
/// a chunk with a free slot gives offset 0 to every search that admits key 0.
pub proof fn law_removed_is_gone(s: IndexView, key: u64, offset: u64)
    requires
        s.wf(),
        !(key == 0 && offset == 0),
    ensures
        !s.remove(key, offset).search(KeyQuery::Key(key)).contains(offset),
        !s.add(key, offset).remove(key, offset).search(KeyQuery::Key(key)).contains(offset),
{
    lemma_add_wf(s, key, offset);
    lemma_no_hit_after_remove(s, key, offset);
    lemma_no_hit_after_remove(s.add(key, offset), key, offset);
}

proof fn lemma_no_hit_after_remove(s: IndexView, key: u64, offset: u64)
    requires
        s.wf(),
        !(key == 0 && offset == 0),
    ensures
        !s.remove(key, offset).search(KeyQuery::Key(key)).contains(offset),
{
    let t = s.remove(key, offset);
    let target = Entry { key, offset };
    lemma_remove(s, key, offset);
    assert forall|c: int, j: int| !#[trigger] t.hit(KeyQuery::Key(key), c, j, offset) by {
        if 0 <= c < t.metadata.len() && 0 <= j < CHUNK_SLOTS && s.metadata[c].holds(key) {
            assert(t.metadata[c].min_key == s.metadata[c].min_key);
            if j < s.kept(c, target).len() {
                s.live(c).lemma_filter_pred(other_than(target), j);
            }
            assert(t.slot(c, j) != target);
        } else if 0 <= c < t.metadata.len() {
            assert(t.metadata[c].min_key == s.metadata[c].min_key);
        }
    }
}

/// Removing an entry that no chunk holds changes nothing.
pub proof fn law_remove_absent_is_noop(s: IndexView, key: u64, offset: u64)
    requires
        s.wf(),
        forall|c: int, j: int|
            0 <= c < s.metadata.len() && s.metadata[c].holds(key) && 0 <= j
                < s.metadata[c].count ==> #[trigger] s.slot(c, j) != (Entry { key, offset }),
    ensures
        s.remove(key, offset) == s,
{
    let t = s.remove(key, offset);
    let target = Entry { key, offset };
    let pred = other_than(target);
    assert forall|c: int| 0 <= c < s.metadata.len() && s.metadata[c].holds(key) implies s.kept(
        c,
        target,
    ) == s.live(c) by {
        lemma_filter_all(s.live(c), pred);
    }
    assert(t.metadata =~= s.metadata);
    assert forall|p: int| 0 <= p < s.index.len() implies t.index[p] == s.index[p] by {
        let c = p / (CHUNK_BYTES as int);
        let r = p % (CHUNK_BYTES as int);
        if s.metadata[c].holds(key) {
            let n = s.metadata[c].count as int;
            if r < n * 16 {
                let j = r / 16;
                let k = r % 16;
                let q = c * CHUNK_BYTES + j * SLOT_BYTES;
                let b = s.index.subrange(q, q + 16);
                lemma_bytes_slot_roundtrip(b);
                assert(s.live(c)[j] == s.slot(c, j));
                assert(b[k] == s.index[p]);
            } else {
                assert(s.chunk_byte(c, r) == 0);
            }
        }
    }
    assert(t.index =~= s.index);
}

/// A filter that every element passes keeps the sequence.
pub proof fn lemma_filter_all<A>(s: Seq<A>, pred: spec_fn(A) -> bool)
    requires
        forall|i: int| 0 <= i < s.len() ==> pred(#[trigger] s[i]),
    ensures
        s.filter(pred) == s,
    decreases s.len(),
{
    reveal(Seq::filter);
    if s.len() > 0 {
        lemma_filter_all(s.drop_last(), pred);
        assert(s.drop_last().push(s.last()) =~= s);
    }
}

/// What a half-open range finds, the inclusive range with the same bounds
/// finds too; and the inclusive range finds an entry added under its upper
/// bound.
pub proof fn law_inclusive_covers_half_open(s: IndexView, start: u64, end: u64, offset: u64)
    requires
        s.wf(),
    ensures
        s.search(KeyQuery::Range(start, end)).subset_of(
            s.search(KeyQuery::Inclusive(start, end)),
        ),
        start <= end ==> s.add(end, offset).search(KeyQuery::Inclusive(start, end)).contains(
            offset,
        ),
{
    assert forall|o: u64| s.search(KeyQuery::Range(start, end)).contains(o) implies s.search(
        KeyQuery::Inclusive(start, end),
    ).contains(o) by {
        let (c, j) = choose|c: int, j: int| #[trigger]
            s.hit(KeyQuery::Range(start, end), c, j, o);
        assert(s.hit(KeyQuery::Inclusive(start, end), c, j, o));
    }
    if start <= end {
        let e = Entry { key: end, offset };
        let t = s.add(end, offset);
        lemma_first_accepting(s.metadata, end);
        match first_accepting(s.metadata, end) {
            Some(c) => {
                lemma_insert_at(s, c, e);
                assert(t.hit(
                    KeyQuery::Inclusive(start, end),
                    c,
                    s.metadata[c].count as int,
                    offset,
                ));
            },
            None => {
                lemma_append_chunk(s, e);
                assert(t.hit(KeyQuery::Inclusive(start, end), s.metadata.len() as int, 0, offset));
            },
        }
    }
}

/// The metadata file of a mirror has 18 bytes for each record, and reading it
/// gives the mirror back: a store that is opened again from the files it wrote
/// is the same store.
pub proof fn law_reopen_gives_same_mirror(metadata: Seq<ChunkMeta>)
    ensures
        metadata_file(metadata).len() == metadata.len() * 18,
        parse_metadata(metadata_file(metadata)) == metadata,
{
    let file = metadata_file(metadata);
    assert forall|c: int| 0 <= c < metadata.len() implies record_meta(
        file.subrange(c * 18, c * 18 + 18),
    ) == metadata[c] by {
        lemma_meta_roundtrip(metadata[c]);
        let rec = file.subrange(c * 18, c * 18 + 18);
        assert forall|k: int| 0 <= k < 18 implies rec[k] == meta_record(metadata[c])[k] by {
            assert((c * 18 + k) / 18 == c && (c * 18 + k) % 18 == k);
        }
        assert(rec =~= meta_record(metadata[c]));
    }
    assert(parse_metadata(file) =~= metadata);
}

/// A store that is opened again from the two files it wrote is the same
/// store: the same mirror and the same index, and so the same result for
/// every search.
pub proof fn law_reopen_gives_same_store(s: IndexView)
    requires
        s.wf(),
    ensures
        open_outcome(Some(s.index), Some(s.metadata_file())) == Ok::<IndexView, IndexError>(s),
{
    law_reopen_gives_same_mirror(s.metadata);
}

/// Creating a store over files that both exist does nothing to them, and
/// creating a second time does nothing more than creating once.
pub proof fn law_create_is_idempotent(index: Option<Seq<u8>>, metadata: Option<Seq<u8>>)
    ensures
        index is Some && metadata is Some ==> create_outcome(true, true) == Ok::<
            CreateAction,
            IndexError,
        >(CreateAction::Nothing) && files_after_create(index, metadata) == (index, metadata),
        create_outcome(index is Some, metadata is Some) is Ok ==> files_after_create(
            files_after_create(index, metadata).0,
            files_after_create(index, metadata).1,
        ) == files_after_create(index, metadata),
{
}

} // verus!
