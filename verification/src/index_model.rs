//! The index store as a mathematical value: the metadata mirror, the bytes of
//! the index file, and what adding, removing and searching mean on them.

use crate::layout::{be_u16, be_u64, u16_be, u64_be, CHUNK_BYTES, CHUNK_SLOTS, SLOT_BYTES};
use vstd::prelude::*;

verus! {

/// What the metadata file records of one chunk: the inclusive range of keys
/// that the chunk takes, and the number of its live entries.
#[derive(Clone, Copy, Debug, PartialEq, Eq, Structural)]
pub struct ChunkMeta {
    pub min_key: u64,
    pub max_key: u64,
    pub count: u16,
}

/// One entry of the index: a key and the offset that it points to.
#[derive(Clone, Copy, Debug, PartialEq, Eq, Structural)]
pub struct Entry {
    pub key: u64,
    pub offset: u64,
}

/// The three shapes of a search: one key, a half-open range of keys, an
/// inclusive range of keys.
#[derive(Clone, Copy, Debug, PartialEq, Eq, Structural)]
pub enum KeyQuery {
    Key(u64),
    Range(u64, u64),
    Inclusive(u64, u64),
}

impl KeyQuery {
    /// Whether a stored key answers the query.
    pub open spec fn admits(self, key: u64) -> bool {
        match self {
            KeyQuery::Key(k) => key == k,
            KeyQuery::Range(start, end) => start <= key < end,
            KeyQuery::Inclusive(start, end) => start <= key <= end,
        }
    }

    /// Whether the key range of a chunk overlaps the query, so that the chunk
    /// has to be read.
    pub open spec fn touches(self, m: ChunkMeta) -> bool {
        match self {
            KeyQuery::Key(k) => m.min_key <= k <= m.max_key,
            KeyQuery::Range(start, end) => m.min_key < end && m.max_key >= start,
            KeyQuery::Inclusive(start, end) => start <= m.max_key && end >= m.min_key,
        }
    }
}

impl KeyQuery {
    /// Tests whether a stored key answers the query.
    pub fn matches_key(&self, key: u64) -> (yes: bool)
        ensures
            yes == self.admits(key),
    {
        match *self {
            KeyQuery::Key(k) => key == k,
            KeyQuery::Range(start, end) => start <= key && key < end,
            KeyQuery::Inclusive(start, end) => start <= key && key <= end,
        }
    }

    /// Tests whether the key range of a chunk overlaps the query.
    pub fn overlaps(&self, m: &ChunkMeta) -> (yes: bool)
        ensures
            yes == self.touches(*m),
    {
        match *self {
            KeyQuery::Key(k) => m.max_key >= k && m.min_key <= k,
            KeyQuery::Range(start, end) => m.min_key < end && m.max_key >= start,
            KeyQuery::Inclusive(start, end) => start <= m.max_key && end >= m.min_key,
        }
    }
}

impl ChunkMeta {
    /// Whether `key` lies in the range of the chunk.
    pub open spec fn holds(self, key: u64) -> bool {
        self.min_key <= key <= self.max_key
    }

    /// Whether the chunk takes a new entry under `key`: the key lies in its
    /// range and a slot is free.
    pub open spec fn accepts(self, key: u64) -> bool {
        self.holds(key) && self.count < CHUNK_SLOTS
    }

    /// The record of the chunk that a new key opens: it takes the 4096 keys
    /// from `key` on, as far as they exist, and holds one entry.
    pub open spec fn fresh(key: u64) -> ChunkMeta {
        ChunkMeta {
            min_key: key,
            max_key: if key + 4095 <= u64::MAX {
                (key + 4095) as u64
            } else {
                u64::MAX
            },
            count: 1,
        }
    }

    /// The same chunk with another number of live entries.
    pub open spec fn with_count(self, count: int) -> ChunkMeta {
        ChunkMeta { min_key: self.min_key, max_key: self.max_key, count: count as u16 }
    }
}

/// The 18 bytes of a metadata record.
pub open spec fn meta_record(m: ChunkMeta) -> Seq<u8> {
    u64_be(m.min_key) + u64_be(m.max_key) + u16_be(m.count)
}

/// The metadata record in the first 18 bytes of `b`.
pub open spec fn record_meta(b: Seq<u8>) -> ChunkMeta {
    ChunkMeta {
        min_key: be_u64(b.subrange(0, 8)),
        max_key: be_u64(b.subrange(8, 16)),
        count: be_u16(b.subrange(16, 18)),
    }
}

/// The 16 bytes of an entry slot.
pub open spec fn slot_bytes(e: Entry) -> Seq<u8> {
    u64_be(e.key) + u64_be(e.offset)
}

/// The entry in the first 16 bytes of `b`.
pub open spec fn bytes_slot(b: Seq<u8>) -> Entry {
    Entry { key: be_u64(b.subrange(0, 8)), offset: be_u64(b.subrange(8, 16)) }
}

/// The test that an entry is not `target`.
pub open spec fn other_than(target: Entry) -> spec_fn(Entry) -> bool {
    |e: Entry| e != target
}

/// `n` zero bytes.
pub open spec fn zeros(n: int) -> Seq<u8> {
    Seq::new(n as nat, |i: int| 0u8)
}

/// A file after `bytes` were written at position `at`: the bytes under the
/// write are replaced, a file that ends before `at` is first filled up with
/// zeros, and a write that passes the end lengthens the file.
pub open spec fn write_at(file: Seq<u8>, at: int, bytes: Seq<u8>) -> Seq<u8> {
    let base = if file.len() < at {
        file + zeros(at - file.len())
    } else {
        file
    };
    let rest = if at + bytes.len() < base.len() {
        base.skip(at + bytes.len())
    } else {
        Seq::empty()
    };
    base.take(at) + bytes + rest
}

/// The metadata file of a mirror: its records, one after the other.
pub open spec fn metadata_file(metadata: Seq<ChunkMeta>) -> Seq<u8> {
    Seq::new(metadata.len() * 18, |p: int| meta_record(metadata[p / 18])[p % 18])
}

/// The mirror that a metadata file holds, one record for each full 18 bytes.
pub open spec fn parse_metadata(file: Seq<u8>) -> Seq<ChunkMeta> {
    Seq::new(file.len() / 18, |c: int| record_meta(file.subrange(c * 18, c * 18 + 18)))
}

/// The bytes of the given entries, one slot after the other.
pub open spec fn slots_bytes(entries: Seq<Entry>) -> Seq<u8> {
    Seq::new(entries.len() * 16, |p: int| slot_bytes(entries[p / 16])[p % 16])
}

/// A chunk's 65536 bytes that hold the given entries from slot 0 on, and
/// zeros after them.
pub open spec fn packed(entries: Seq<Entry>) -> Seq<u8> {
    Seq::new(
        CHUNK_BYTES as nat,
        |p: int|
            if p < entries.len() * 16 {
                slot_bytes(entries[p / 16])[p % 16]
            } else {
                0u8
            },
    )
}

/// The first chunk of the mirror, in stored order, that accepts `key`.
pub open spec fn first_accepting(metadata: Seq<ChunkMeta>, key: u64) -> Option<int>
    decreases metadata.len(),
{
    if metadata.len() == 0 {
        None
    } else {
        match first_accepting(metadata.drop_last(), key) {
            Some(c) => Some(c),
            None => if metadata.last().accepts(key) {
                Some(metadata.len() - 1)
            } else {
                None
            },
        }
    }
}

/// The store as a value: the metadata mirror and the bytes of the index file.
pub struct IndexView {
    pub metadata: Seq<ChunkMeta>,
    pub index: Seq<u8>,
}

impl IndexView {
    /// The bytes of chunk `c`.
    pub open spec fn chunk(self, c: int) -> Seq<u8> {
        self.index.subrange(c * CHUNK_BYTES, c * CHUNK_BYTES + CHUNK_BYTES)
    }

    /// The entry in slot `j` of chunk `c`, live or not.
    pub open spec fn slot(self, c: int, j: int) -> Entry {
        bytes_slot(
            self.index.subrange(
                c * CHUNK_BYTES + j * SLOT_BYTES,
                c * CHUNK_BYTES + j * SLOT_BYTES + SLOT_BYTES,
            ),
        )
    }

    /// The byte at position `p` of chunk `c`.
    pub open spec fn chunk_byte(self, c: int, p: int) -> u8 {
        self.index[c * CHUNK_BYTES + p]
    }

    /// The live entries of chunk `c`, in slot order.
    pub open spec fn live(self, c: int) -> Seq<Entry> {
        Seq::new(self.metadata[c].count as nat, |j: int| self.slot(c, j))
    }

    /// The live entries of chunk `c` that differ from `target`.
    pub open spec fn kept(self, c: int, target: Entry) -> Seq<Entry> {
        self.live(c).filter(other_than(target))
    }

    /// The format holds: the index file has one chunk for each record of the
    /// mirror, no range is empty, no chunk holds more entries than it has
    /// slots, and the slots after the live entries are zero.
    pub open spec fn wf(self) -> bool {
        &&& self.index.len() == self.metadata.len() * CHUNK_BYTES
        &&& forall|c: int|
            0 <= c < self.metadata.len() ==> (#[trigger] self.metadata[c]).min_key
                <= self.metadata[c].max_key && self.metadata[c].count <= CHUNK_SLOTS
        &&& forall|c: int, p: int|
            0 <= c < self.metadata.len() && self.metadata[c].count * SLOT_BYTES <= p < CHUNK_BYTES
                ==> #[trigger] self.chunk_byte(c, p) == 0
    }

    /// The bytes of the metadata file.
    pub open spec fn metadata_file(self) -> Seq<u8> {
        metadata_file(self.metadata)
    }

    /// The store after `e` went into the first free slot of chunk `c`.
    pub open spec fn insert_at(self, c: int, e: Entry) -> IndexView {
        let m = self.metadata[c];
        IndexView {
            metadata: self.metadata.update(c, m.with_count(m.count + 1)),
            index: write_at(self.index, c * CHUNK_BYTES + m.count * SLOT_BYTES, slot_bytes(e)),
        }
    }

    /// The store after a new chunk was opened for `e`.
    pub open spec fn append_chunk(self, e: Entry) -> IndexView {
        IndexView {
            metadata: self.metadata.push(ChunkMeta::fresh(e.key)),
            index: self.index + packed(seq![e]),
        }
    }

    /// The store after `(key, offset)` was added: the entry goes into the first
    /// chunk that accepts the key, or into a new chunk where none does.
    pub open spec fn add(self, key: u64, offset: u64) -> IndexView {
        let e = Entry { key, offset };
        match first_accepting(self.metadata, key) {
            Some(c) => self.insert_at(c, e),
            None => self.append_chunk(e),
        }
    }

    /// The store after `(key, offset)` was removed: each chunk whose range holds
    /// the key keeps its other live entries, packed from slot 0 on.
    pub open spec fn remove(self, key: u64, offset: u64) -> IndexView {
        let target = Entry { key, offset };
        IndexView {
            metadata: Seq::new(
                self.metadata.len(),
                |c: int|
                    if self.metadata[c].holds(key) {
                        self.metadata[c].with_count(self.kept(c, target).len() as int)
                    } else {
                        self.metadata[c]
                    },
            ),
            index: Seq::new(
                self.index.len(),
                |p: int|
                    if self.metadata[p / (CHUNK_BYTES as int)].holds(key) {
                        packed(self.kept(p / (CHUNK_BYTES as int), target))[p % (
                        CHUNK_BYTES as int)]
                    } else {
                        self.index[p]
                    },
            ),
        }
    }

    /// The store after `(key, offset)` was removed from the chunks before chunk
    /// `upto`, the others being as they were.
    pub open spec fn remove_upto(self, key: u64, offset: u64, upto: int) -> IndexView {
        let target = Entry { key, offset };
        IndexView {
            metadata: Seq::new(
                self.metadata.len(),
                |c: int|
                    if c < upto && self.metadata[c].holds(key) {
                        self.metadata[c].with_count(self.kept(c, target).len() as int)
                    } else {
                        self.metadata[c]
                    },
            ),
            index: Seq::new(
                self.index.len(),
                |p: int|
                    if p / (CHUNK_BYTES as int) < upto && self.metadata[p / (
                    CHUNK_BYTES as int)].holds(key) {
                        packed(self.kept(p / (CHUNK_BYTES as int), target))[p % (
                        CHUNK_BYTES as int)]
                    } else {
                        self.index[p]
                    },
            ),
        }
    }

    /// Whether the range of some chunk holds `key`.
    pub open spec fn somewhere_holds(self, key: u64) -> bool {
        exists|c: int| 0 <= c < self.metadata.len() && (#[trigger] self.metadata[c]).holds(key)
    }

    /// Whether the two files can be opened as a store: the metadata file is a
    /// whole number of records, and with the mirror read from it the format
    /// holds.
    pub open spec fn files_valid(index: Seq<u8>, metadata: Seq<u8>) -> bool {
        &&& metadata.len() % 18 == 0
        &&& (IndexView { metadata: parse_metadata(metadata), index }).wf()
    }

    /// Whether slot `j` of chunk `c` gives `offset` to the result of `q`: the
    /// chunk's range overlaps the query and the slot's key answers it.
    pub open spec fn hit(self, q: KeyQuery, c: int, j: int, offset: u64) -> bool {
        &&& 0 <= c < self.metadata.len()
        &&& 0 <= j < CHUNK_SLOTS
        &&& q.touches(self.metadata[c])
        &&& q.admits(self.slot(c, j).key)
        &&& self.slot(c, j).offset == offset
    }

    /// The offsets that the slots before slot `j` of chunk `c`, in file order,
    /// give to the result of `q`.
    pub open spec fn hits_before(self, q: KeyQuery, c: int, j: int) -> Set<u64> {
        Set::new(
            |offset: u64|
                exists|c1: int, j1: int|
                    (c1 < c || (c1 == c && j1 < j)) && #[trigger] self.hit(q, c1, j1, offset),
        )
    }

    /// The result of a search: the offset of every slot, in a chunk whose
    /// range overlaps the query, whose key answers the query.
    pub open spec fn search(self, q: KeyQuery) -> Set<u64> {
        Set::new(|offset: u64| exists|c: int, j: int| #[trigger] self.hit(q, c, j, offset))
    }
}

/// Why a store cannot be created or opened.
#[derive(Clone, Copy, Debug, PartialEq, Eq, Structural)]
pub enum IndexError {
    /// Exactly one of the two files exists.
    Inconsistent,
    /// Neither file exists.
    Missing,
    /// The files do not hold what the format asks for.
    Malformed,
}

/// What creating a store has to do to the files.
#[derive(Clone, Copy, Debug, PartialEq, Eq, Structural)]
pub enum CreateAction {
    /// Both files exist: they are left as they are.
    Nothing,
    /// Neither file exists: both are made, empty.
    CreateBoth,
}

/// The outcome of creating a store, given which of its files exist.
pub open spec fn create_outcome(index_exists: bool, metadata_exists: bool) -> Result<
    CreateAction,
    IndexError,
> {
    if index_exists && metadata_exists {
        Ok(CreateAction::Nothing)
    } else if index_exists || metadata_exists {
        Err(IndexError::Inconsistent)
    } else {
        Ok(CreateAction::CreateBoth)
    }
}

/// The two files after a store was created over them, `None` standing for a
/// file that does not exist: where creating fails or finds both, they are as
/// before; where it finds none, both exist and are empty.
pub open spec fn files_after_create(index: Option<Seq<u8>>, metadata: Option<Seq<u8>>) -> (
    Option<Seq<u8>>,
    Option<Seq<u8>>,
) {
    match create_outcome(index is Some, metadata is Some) {
        Ok(CreateAction::CreateBoth) => (Some(Seq::empty()), Some(Seq::empty())),
        _ => (index, metadata),
    }
}

/// The outcome of opening a store from its two files.
pub open spec fn open_outcome(index: Option<Seq<u8>>, metadata: Option<Seq<u8>>) -> Result<
    IndexView,
    IndexError,
> {
    match (index, metadata) {
        (Some(index), Some(metadata)) => if IndexView::files_valid(index, metadata) {
            Ok(IndexView { metadata: parse_metadata(metadata), index })
        } else {
            Err(IndexError::Malformed)
        },
        (None, None) => Err(IndexError::Missing),
        _ => Err(IndexError::Inconsistent),
    }
}

} // verus!
