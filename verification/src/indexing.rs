//! The index store: the metadata mirror and the bytes of the index file, kept
//! in step, with the writes that bring the two files on disk up to date.

use crate::index_laws::{
    lemma_append_chunk, lemma_first_accepting, lemma_hits_end, lemma_hits_skip, lemma_hits_slot,
    lemma_hits_start, lemma_insert_at, lemma_meta_roundtrip, lemma_packed_is_padded, lemma_remove,
    lemma_remove_step, lemma_slot_roundtrip, lemma_slots_bytes_push, lemma_write_at_end,
    lemma_write_inside,
};
use crate::index_model::{
    bytes_slot, create_outcome, first_accepting, meta_record, metadata_file, open_outcome,
    other_than, packed, parse_metadata, record_meta, slot_bytes, slots_bytes, write_at, ChunkMeta,
    CreateAction, Entry, IndexError, IndexView, KeyQuery,
};
use crate::layout::{get_u16, get_u64, put_u16, put_u64, CHUNK_BYTES, CHUNK_SLOTS, SLOT_BYTES};
use std::collections::BTreeSet;
use std::ops::{Range, RangeInclusive};
use vstd::prelude::*;
use vstd::string::*;

verus! {

/// One of the two files of a store.
#[derive(Clone, Copy, Debug, PartialEq, Eq, Structural)]
pub enum StoreFile {
    /// The index file, `<container>.cindex`.
    Index,
    /// The metadata file, `<container>.cimeta`.
    Metadata,
}

/// A write that the owner of the files has to perform: `bytes` at position
/// `offset` of `file`.
#[derive(Debug, Clone)]
pub struct FileWrite {
    pub file: StoreFile,
    pub offset: u64,
    pub bytes: Vec<u8>,
}

/// The content of `which` after the writes were performed in order on `file`.
pub open spec fn written(file: Seq<u8>, writes: Seq<FileWrite>, which: StoreFile) -> Seq<u8>
    decreases writes.len(),
{
    if writes.len() == 0 {
        file
    } else {
        let before = written(file, writes.drop_last(), which);
        if writes.last().file == which {
            write_at(before, writes.last().offset as int, writes.last().bytes@)
        } else {
            before
        }
    }
}

/// What the flush task does when it wakes.
#[derive(Clone, Copy, Debug, PartialEq, Eq, Structural)]
pub enum FlushStep {
    /// The store was given up: the task ends.
    Stop,
    /// Nothing has changed since the last flush.
    Idle,
    /// Both files are to be synced.
    Sync,
}

/// Seconds that the flush task sleeps between two steps.
pub const FLUSH_INTERVAL_SECS: u64 = 500;

/// The bytes of a file that was read, `None` standing for a file that does
/// not exist.
pub open spec fn content(file: Option<Vec<u8>>) -> Option<Seq<u8>> {
    match file {
        Some(bytes) => Some(bytes@),
        None => None,
    }
}

/// The index store of one container.
#[derive(Debug)]
pub struct Indexing {
    metadata: Vec<ChunkMeta>,
    index: Vec<u8>,
    changes: bool,
    destroyed: bool,
}

impl View for Indexing {
    type V = IndexView;

    closed spec fn view(&self) -> IndexView {
        IndexView { metadata: self.metadata@, index: self.index@ }
    }
}

/// Adding an entry to a store.
pub trait Add: View<V = IndexView> {
    /// Puts `(arg, arg_offset)` into the first chunk that accepts the key, or
    /// into a new chunk, and returns the writes that do the same to the files.
    fn add(&mut self, arg: u64, arg_offset: u64) -> (writes: Vec<FileWrite>)
        requires
            old(self)@.wf(),
        ensures
            final(self)@.wf(),
            final(self)@ == old(self)@.add(arg, arg_offset),
            written(old(self)@.index, writes@, StoreFile::Index) == final(self)@.index,
            written(old(self)@.metadata_file(), writes@, StoreFile::Metadata) == final(self)@.metadata_file(),
    ;
}

/// Removing an entry from a store.
pub trait Remove: View<V = IndexView> {
    /// Takes `(arg, arg_offset)` out of every chunk whose range holds the key,
    /// and returns the writes that do the same to the files.
    fn remove(&mut self, arg: u64, arg_offset: u64) -> (writes: Vec<FileWrite>)
        requires
            old(self)@.wf(),
        ensures
            final(self)@.wf(),
            final(self)@ == old(self)@.remove(arg, arg_offset),
            written(old(self)@.index, writes@, StoreFile::Index) == final(self)@.index,
            written(old(self)@.metadata_file(), writes@, StoreFile::Metadata) == final(self)@.metadata_file(),
    ;
}

/// What a store can be searched for: a key, a half-open range of keys, an
/// inclusive range of keys.
pub trait SearchQuery {
    /// The query that the value stands for.
    spec fn query(&self) -> KeyQuery;

    /// Whether the value still says which keys it means. An inclusive range
    /// that an iteration has used up does not.
    spec fn bounds_known(&self) -> bool;
}

impl SearchQuery for u64 {
    open spec fn query(&self) -> KeyQuery {
        KeyQuery::Key(*self)
    }

    open spec fn bounds_known(&self) -> bool {
        true
    }
}

impl SearchQuery for Range<u64> {
    open spec fn query(&self) -> KeyQuery {
        KeyQuery::Range(self.start, self.end)
    }

    open spec fn bounds_known(&self) -> bool {
        true
    }
}

impl SearchQuery for RangeInclusive<u64> {
    open spec fn query(&self) -> KeyQuery {
        KeyQuery::Inclusive(self@.start, self@.end)
    }

    open spec fn bounds_known(&self) -> bool {
        !self@.exhausted
    }
}

/// Searching a store.
pub trait Search<T: SearchQuery>: View<V = IndexView> {
    /// The offsets of the entries whose keys answer `arg`, as an ordered set.
    fn search(&self, arg: T) -> (offsets: BTreeSet<u64>)
        requires
            self@.wf(),
        ensures
            arg.bounds_known() ==> offsets@ == self@.search(arg.query()),
    ;
}

/// `RangeInclusive::start` of std: the lower bound that the range was made
/// with. std leaves the value open once an iteration has used the range up,
/// so nothing is claimed of such a range.
pub assume_specification<Idx>[ RangeInclusive::<Idx>::start ](
    range: &RangeInclusive<Idx>,
) -> (bound: &Idx)
    ensures
        !range@.exhausted ==> *bound == range@.start,
;

/// `RangeInclusive::end` of std: the upper bound that the range was made
/// with. std leaves the value open once an iteration has used the range up,
/// so nothing is claimed of such a range.
pub assume_specification<Idx>[ RangeInclusive::<Idx>::end ](range: &RangeInclusive<Idx>) -> (bound:
    &Idx)
    ensures
        !range@.exhausted ==> *bound == range@.end,
;

/// The path of the index file of a container: `<container>.cindex` in the
/// directory of the database.
pub fn index_path(database_path: &str, container_name: &str) -> (path: String)
    ensures
        path@ == database_path@ + "/"@ + container_name@ + ".cindex"@,
{
    let mut path = String::from_str(database_path);
    path.append("/");
    path.append(container_name);
    path.append(".cindex");
    path
}

/// The path of the metadata file of a container: `<container>.cimeta` in the
/// directory of the database.
pub fn metadata_path(database_path: &str, container_name: &str) -> (path: String)
    ensures
        path@ == database_path@ + "/"@ + container_name@ + ".cimeta"@,
{
    let mut path = String::from_str(database_path);
    path.append("/");
    path.append(container_name);
    path.append(".cimeta");
    path
}

/// Overwrites the bytes of `file` from `at` on with `bytes`.
pub fn copy_into(file: &mut Vec<u8>, at: usize, bytes: &Vec<u8>)
    requires
        at + bytes.len() <= old(file).len(),
    ensures
        final(file)@ == write_at(old(file)@, at as int, bytes@),
{
    let mut i: usize = 0;
    while i < bytes.len()
        invariant
            i <= bytes.len(),
            at + bytes.len() <= file.len(),
            file.len() == old(file).len(),
            forall|p: int|
                0 <= p < file.len() ==> file[p] == if at <= p < at + i {
                    bytes[p - at]
                } else {
                    old(file)[p]
                },
        decreases bytes.len() - i,
    {
        file.set(at + i, bytes[i]);
        i = i + 1;
    }
    proof {
        lemma_write_inside(old(file)@, at as int, bytes@);
        assert(file@ =~= write_at(old(file)@, at as int, bytes@));
    }
}

/// The 16 bytes of the slot of `(key, offset)`.
pub fn encode_slot(key: u64, offset: u64) -> (bytes: Vec<u8>)
    ensures
        bytes@ == slot_bytes((Entry { key, offset })),
{
    let mut bytes: Vec<u8> = Vec::new();
    put_u64(&mut bytes, key);
    put_u64(&mut bytes, offset);
    bytes
}

/// The 18 bytes of the metadata record of `m`.
pub fn encode_meta(m: ChunkMeta) -> (bytes: Vec<u8>)
    ensures
        bytes@ == meta_record(m),
{
    let mut bytes: Vec<u8> = Vec::new();
    put_u64(&mut bytes, m.min_key);
    put_u64(&mut bytes, m.max_key);
    put_u16(&mut bytes, m.count);
    bytes
}

/// Puts `offset` into the ordered set.
fn note_offset(offsets: &mut BTreeSet<u64>, offset: u64)
    ensures
        final(offsets)@ == old(offsets)@.insert(offset),
{
    broadcast use vstd::laws_cmp::group_laws_cmp;

    offsets.insert(offset);
}

/// Reads the entry in the 16 bytes of `index` that start at `at`.
pub fn read_slot(index: &Vec<u8>, at: usize) -> (e: Entry)
    requires
        at + 16 <= index.len(),
    ensures
        e == bytes_slot(index@.subrange(at as int, at + 16)),
{
    let key = get_u64(index, at);
    let offset = get_u64(index, at + 8);
    proof {
        let b = index@.subrange(at as int, at + 16);
        assert(b.subrange(0, 8) =~= index@.subrange(at as int, at + 8));
        assert(b.subrange(8, 16) =~= index@.subrange(at + 8, at + 16));
    }
    Entry { key, offset }
}

/// Reads the metadata record in the 18 bytes of `file` that start at `at`.
pub fn read_meta(file: &Vec<u8>, at: usize) -> (m: ChunkMeta)
    requires
        at + 18 <= file.len(),
    ensures
        m == record_meta(file@.subrange(at as int, at + 18)),
{
    let min_key = get_u64(file, at);
    let max_key = get_u64(file, at + 8);
    let count = get_u16(file, at + 16);
    proof {
        let b = file@.subrange(at as int, at + 18);
        assert(b.subrange(0, 8) =~= file@.subrange(at as int, at + 8));
        assert(b.subrange(8, 16) =~= file@.subrange(at + 8, at + 16));
        assert(b.subrange(16, 18) =~= file@.subrange(at + 16, at + 18));
    }
    ChunkMeta { min_key, max_key, count }
}

/// Appending a write performs it after the others, on the file it names.
pub proof fn lemma_written_push(
    file: Seq<u8>,
    writes: Seq<FileWrite>,
    w: FileWrite,
    which: StoreFile,
)
    ensures
        written(file, writes.push(w), which) == if w.file == which {
            write_at(written(file, writes, which), w.offset as int, w.bytes@)
        } else {
            written(file, writes, which)
        },
{
    assert(writes.push(w).drop_last() =~= writes);
}

/// Replacing one record of the mirror is one write of 18 bytes to the
/// metadata file.
pub proof fn lemma_metadata_file_update(metadata: Seq<ChunkMeta>, c: int, m: ChunkMeta)
    requires
        0 <= c < metadata.len(),
    ensures
        metadata_file(metadata.update(c, m)) == write_at(
            metadata_file(metadata),
            c * 18,
            meta_record(m),
        ),
{
    lemma_meta_roundtrip(m);
    lemma_write_inside(metadata_file(metadata), c * 18, meta_record(m));
    let now = metadata_file(metadata.update(c, m));
    let by_write = write_at(metadata_file(metadata), c * 18, meta_record(m));
    assert forall|p: int| 0 <= p < now.len() implies now[p] == by_write[p] by {
        if c * 18 <= p < c * 18 + 18 {
            assert(p / 18 == c);
        } else {
            assert(p / 18 != c);
        }
    }
    assert(now =~= by_write);
}

/// A new record of the mirror is 18 bytes more at the end of the metadata
/// file.
pub proof fn lemma_metadata_file_push(metadata: Seq<ChunkMeta>, m: ChunkMeta)
    ensures
        metadata_file(metadata.push(m)) == metadata_file(metadata) + meta_record(m),
{
    lemma_meta_roundtrip(m);
    let now = metadata_file(metadata.push(m));
    let joined = metadata_file(metadata) + meta_record(m);
    assert forall|p: int| 0 <= p < now.len() implies now[p] == joined[p] by {
        if p < metadata.len() * 18 {
            assert(p / 18 < metadata.len());
        } else {
            assert(p / 18 == metadata.len());
            assert(p % 18 == p - metadata.len() * 18);
        }
    }
    assert(now =~= joined);
}

impl Indexing {
    /// Whether a mutation has not been flushed yet.
    pub closed spec fn spec_is_dirty(&self) -> bool {
        self.changes
    }

    /// Whether the owner has given the store up.
    pub closed spec fn spec_is_destroyed(&self) -> bool {
        self.destroyed
    }

    /// Whether a mutation has not been flushed yet.
    #[verifier::when_used_as_spec(spec_is_dirty)]
    pub fn is_dirty(&self) -> (dirty: bool)
        ensures
            dirty == self.is_dirty(),
    {
        self.changes
    }

    /// Whether the owner has given the store up.
    #[verifier::when_used_as_spec(spec_is_destroyed)]
    pub fn is_destroyed(&self) -> (destroyed: bool)
        ensures
            destroyed == self.is_destroyed(),
    {
        self.destroyed
    }

    /// What has to happen for the two files of a container to exist, given
    /// which of them exist: nothing where both do, both are made where neither
    /// does, and a single file is an error.
    pub fn create_index(index_exists: bool, metadata_exists: bool) -> (outcome: Result<
        CreateAction,
        IndexError,
    >)
        ensures
            outcome == create_outcome(index_exists, metadata_exists),
    {
        if index_exists && metadata_exists {
            Ok(CreateAction::Nothing)
        } else if index_exists || metadata_exists {
            Err(IndexError::Inconsistent)
        } else {
            Ok(CreateAction::CreateBoth)
        }
    }

    /// Opens a store from the content of its two files, `None` standing for a
    /// file that does not exist. The mirror is read from the metadata file, and
    /// both files are held to the format.
    pub fn load_index(index: Option<Vec<u8>>, metadata: Option<Vec<u8>>) -> (outcome: Result<
        Indexing,
        IndexError,
    >)
        ensures
            match outcome {
                Ok(store) => open_outcome(content(index), content(metadata)) == Ok::<
                    IndexView,
                    IndexError,
                >(store@) && store@.wf() && !store.is_dirty() && !store.is_destroyed(),
                Err(e) => open_outcome(content(index), content(metadata)) == Err::<
                    IndexView,
                    IndexError,
                >(e),
            },
    {
        let ghost expected = open_outcome(content(index), content(metadata));
        let (image, records) = match (index, metadata) {
            (Some(image), Some(records)) => (image, records),
            (None, None) => {
                return Err(IndexError::Missing);
            },
            _ => {
                return Err(IndexError::Inconsistent);
            },
        };
        let ghost view = IndexView { metadata: parse_metadata(records@), index: image@ };
        if records.len() % 18 != 0 {
            return Err(IndexError::Malformed);
        }
        let chunks: usize = records.len() / 18;
        if image.len() % CHUNK_BYTES != 0 || image.len() / CHUNK_BYTES != chunks {
            return Err(IndexError::Malformed);
        }
        let mut mirror: Vec<ChunkMeta> = Vec::new();
        let mut c: usize = 0;
        while c < chunks
            invariant
                c <= chunks,
                chunks * 18 == records.len(),
                chunks * CHUNK_BYTES == image.len(),
                view == (IndexView { metadata: parse_metadata(records@), index: image@ }),
                view.metadata.len() == chunks,
                expected == open_outcome(content(index), content(metadata)),
                expected == if view.wf() {
                    Ok::<IndexView, IndexError>(view)
                } else {
                    Err::<IndexView, IndexError>(IndexError::Malformed)
                },
                mirror@ == view.metadata.take(c as int),
                forall|b: int|
                    0 <= b < c ==> (#[trigger] view.metadata[b]).min_key <= view.metadata[b].max_key
                        && view.metadata[b].count <= CHUNK_SLOTS,
                forall|b: int, p: int|
                    0 <= b < c && view.metadata[b].count * SLOT_BYTES <= p < CHUNK_BYTES
                        ==> #[trigger] view.chunk_byte(b, p) == 0,
            decreases chunks - c,
        {
            let m = read_meta(&records, c * 18);
            assert(m == view.metadata[c as int]);
            if m.min_key > m.max_key || m.count as usize > CHUNK_SLOTS {
                return Err(IndexError::Malformed);
            }
            let base: usize = c * CHUNK_BYTES;
            let mut p: usize = m.count as usize * SLOT_BYTES;
            while p < CHUNK_BYTES
                invariant
                    m.count * SLOT_BYTES <= p <= CHUNK_BYTES,
                    c < chunks,
                    view.metadata.len() == chunks,
                    m == view.metadata[c as int],
                    base == c * CHUNK_BYTES,
                    base + CHUNK_BYTES <= image.len(),
                    view.index == image@,
                    expected == open_outcome(content(index), content(metadata)),
                    expected == if view.wf() {
                        Ok::<IndexView, IndexError>(view)
                    } else {
                        Err::<IndexView, IndexError>(IndexError::Malformed)
                    },
                    forall|r: int| m.count * SLOT_BYTES <= r < p ==> #[trigger] view.chunk_byte(
                        c as int,
                        r,
                    ) == 0,
                decreases CHUNK_BYTES - p,
            {
                if image[base + p] != 0 {
                    assert(view.chunk_byte(c as int, p as int) != 0);
                    return Err(IndexError::Malformed);
                }
                p = p + 1;
            }
            mirror.push(m);
            c = c + 1;
            assert(mirror@ =~= view.metadata.take(c as int));
        }
        assert(mirror@ =~= view.metadata);
        Ok(Indexing { metadata: mirror, index: image, changes: false, destroyed: false })
    }

    /// The bytes of the metadata file: the records of the mirror, one after the
    /// other.
    pub fn metadata_bytes(&self) -> (file: Vec<u8>)
        ensures
            file@ == self@.metadata_file(),
    {
        let mut file: Vec<u8> = Vec::new();
        let mut c: usize = 0;
        assert(file@ =~= metadata_file(self.metadata@.take(0)));
        while c < self.metadata.len()
            invariant
                c <= self.metadata.len(),
                file@ == metadata_file(self.metadata@.take(c as int)),
            decreases self.metadata.len() - c,
        {
            let m = self.metadata[c];
            proof {
                lemma_metadata_file_push(self.metadata@.take(c as int), m);
                assert(self.metadata@.take(c + 1) =~= self.metadata@.take(c as int).push(m));
            }
            put_u64(&mut file, m.min_key);
            put_u64(&mut file, m.max_key);
            put_u16(&mut file, m.count);
            assert(file@ =~= metadata_file(self.metadata@.take(c as int)) + meta_record(m));
            c = c + 1;
        }
        assert(self.metadata@.take(c as int) =~= self.metadata@);
        file
    }

    /// What the flush task does when it wakes: it ends once the store was
    /// given up, syncs both files where a mutation has not been flushed, and
    /// has nothing to do otherwise.
    pub fn flush_step(&self) -> (step: FlushStep)
        ensures
            step == if self.is_destroyed() {
                FlushStep::Stop
            } else if self.is_dirty() {
                FlushStep::Sync
            } else {
                FlushStep::Idle
            },
    {
        if self.destroyed {
            FlushStep::Stop
        } else if self.changes {
            FlushStep::Sync
        } else {
            FlushStep::Idle
        }
    }

    /// Takes note of a sync of both files: the store is clean once it
    /// succeeded, and as dirty as before where it did not.
    pub fn flushed(&mut self, synced: bool)
        ensures
            final(self)@ == old(self)@,
            final(self).is_dirty() == (old(self).is_dirty() && !synced),
            final(self).is_destroyed() == old(self).is_destroyed(),
    {
        if synced {
            self.changes = false;
        }
    }

    /// Gives the store up: the flush task ends when it next wakes.
    pub fn destroy(&mut self)
        ensures
            final(self)@ == old(self)@,
            final(self).is_dirty() == old(self).is_dirty(),
            final(self).is_destroyed(),
    {
        self.destroyed = true;
    }

    /// The mirror of the metadata file.
    pub fn metadata(&self) -> (metadata: &Vec<ChunkMeta>)
        ensures
            metadata@ == self@.metadata,
    {
        &self.metadata
    }

    /// The bytes of the index file.
    pub fn index_bytes(&self) -> (index: &Vec<u8>)
        ensures
            index@ == self@.index,
    {
        &self.index
    }

    /// Puts `(arg, arg_offset)` into the first free slot of chunk `chunk`, counts
    /// it in the chunk's record, and returns the two writes that do the same to
    /// the files: the slot, then the record.
    pub fn insert_index(&mut self, arg: u64, arg_offset: u64, chunk: usize) -> (writes: Vec<
        FileWrite,
    >)
        requires
            old(self)@.wf(),
            chunk < old(self)@.metadata.len(),
            old(self)@.metadata[chunk as int].count < CHUNK_SLOTS,
        ensures
            final(self)@.wf(),
            final(self)@ == old(self)@.insert_at(
                chunk as int,
                (Entry { key: arg, offset: arg_offset }),
            ),
            final(self).is_dirty(),
            final(self).is_destroyed() == old(self).is_destroyed(),
            written(old(self)@.index, writes@, StoreFile::Index) == final(self)@.index,
            written(old(self)@.metadata_file(), writes@, StoreFile::Metadata) == final(self)@.metadata_file(),
    {
        let ghost before = self@;
        let ghost e = Entry { key: arg, offset: arg_offset };
        let m = self.metadata[chunk];
        let total: usize = self.index.len();
        assert(total == self.metadata@.len() * 65536);
        assert(chunk * 65536 + 65536 <= total);
        let at: usize = chunk * CHUNK_BYTES + (m.count as usize) * SLOT_BYTES;
        let slot = encode_slot(arg, arg_offset);
        proof {
            lemma_slot_roundtrip(e);
            lemma_insert_at(before, chunk as int, e);
        }
        copy_into(&mut self.index, at, &slot);
        let counted = ChunkMeta { min_key: m.min_key, max_key: m.max_key, count: m.count + 1 };
        self.metadata.set(chunk, counted);
        self.changes = true;
        let record = encode_meta(counted);
        proof {
            lemma_metadata_file_update(before.metadata, chunk as int, counted);
            assert(self@.metadata =~= before.insert_at(chunk as int, e).metadata);
        }
        let writes = vec![
            FileWrite { file: StoreFile::Index, offset: at as u64, bytes: slot },
            FileWrite { file: StoreFile::Metadata, offset: (chunk * 18) as u64, bytes: record },
        ];
        proof {
            lemma_two_writes(before.index, before.metadata_file(), writes@);
        }
        writes
    }

    /// Opens a new chunk for `(arg, arg_offset)`: the chunk takes the keys from
    /// `arg` to `arg + 4095`, holds the entry in slot 0 and zeros after it. The
    /// writes lengthen both files: the record, then the chunk.
    pub fn create_index_chunk(&mut self, arg: u64, arg_offset: u64) -> (writes: Vec<FileWrite>)
        requires
            old(self)@.wf(),
        ensures
            final(self)@.wf(),
            final(self)@ == old(self)@.append_chunk((Entry { key: arg, offset: arg_offset })),
            final(self).is_dirty(),
            final(self).is_destroyed() == old(self).is_destroyed(),
            written(old(self)@.index, writes@, StoreFile::Index) == final(self)@.index,
            written(old(self)@.metadata_file(), writes@, StoreFile::Metadata) == final(self)@.metadata_file(),
    {
        let ghost before = self@;
        let ghost e = Entry { key: arg, offset: arg_offset };
        let chunk_at: usize = self.index.len();
        assert(chunk_at == self.metadata@.len() * 65536);
        let record_at: usize = self.metadata.len() * 18;
        let fresh = ChunkMeta {
            min_key: arg,
            max_key: if arg <= u64::MAX - 4095 {
                arg + 4095
            } else {
                u64::MAX
            },
            count: 1,
        };
        let mut chunk = encode_slot(arg, arg_offset);
        proof {
            lemma_slot_roundtrip(e);
        }
        while chunk.len() < CHUNK_BYTES
            invariant
                16 <= chunk.len() <= CHUNK_BYTES,
                slot_bytes(e).len() == 16,
                forall|p: int| 0 <= p < 16 ==> chunk[p] == slot_bytes(e)[p],
                forall|p: int| 16 <= p < chunk.len() ==> chunk[p] == 0,
            decreases CHUNK_BYTES - chunk.len(),
        {
            chunk.push(0);
        }
        proof {
            assert forall|p: int| 0 <= p < CHUNK_BYTES implies chunk@[p] == packed(seq![e])[p] by {
                if p < 16 {
                    assert(p / 16 == 0 && p % 16 == p);
                }
            }
            assert(chunk@ =~= packed(seq![e]));
        }
        let mut i: usize = 0;
        while i < CHUNK_BYTES
            invariant
                i <= CHUNK_BYTES,
                chunk.len() == CHUNK_BYTES,
                self.index@ == before.index + chunk@.take(i as int),
                self.metadata@ == before.metadata,
                self.destroyed == old(self).destroyed,
            decreases CHUNK_BYTES - i,
        {
            self.index.push(chunk[i]);
            i = i + 1;
            assert(self.index@ =~= before.index + chunk@.take(i as int));
        }
        self.metadata.push(fresh);
        self.changes = true;
        let record = encode_meta(fresh);
        proof {
            assert(chunk@.take(CHUNK_BYTES as int) =~= chunk@);
            lemma_append_chunk(before, e);
            lemma_metadata_file_push(before.metadata, fresh);
            lemma_write_at_end(before.index, chunk@);
            lemma_write_at_end(before.metadata_file(), record@);
        }
        let writes = vec![
            FileWrite { file: StoreFile::Metadata, offset: record_at as u64, bytes: record },
            FileWrite { file: StoreFile::Index, offset: chunk_at as u64, bytes: chunk },
        ];
        proof {
            lemma_two_writes(before.metadata_file(), before.index, writes@);
        }
        writes
    }

    /// The bytes of chunk `chunk` without `(arg, arg_offset)`: its other live
    /// entries packed from slot 0 on and zeros after them; and their number.
    pub fn pack_without(&self, chunk: usize, arg: u64, arg_offset: u64) -> (out: (Vec<u8>, u16))
        requires
            chunk < self@.metadata.len(),
            self@.index.len() == self@.metadata.len() * CHUNK_BYTES,
            self@.metadata[chunk as int].count <= CHUNK_SLOTS,
        ensures
            out.0@ == packed(self@.kept(chunk as int, (Entry { key: arg, offset: arg_offset }))),
            out.1 == self@.kept(chunk as int, (Entry { key: arg, offset: arg_offset })).len(),
    {
        let ghost target = Entry { key: arg, offset: arg_offset };
        let ghost live = self@.live(chunk as int);
        let total: usize = self.index.len();
        assert(chunk * 65536 + 65536 <= total);
        let base: usize = chunk * CHUNK_BYTES;
        let count: usize = self.metadata[chunk].count as usize;
        let mut bytes: Vec<u8> = Vec::new();
        let mut kept: u16 = 0;
        let mut j: usize = 0;
        proof {
            assert(live.take(0) =~= Seq::<Entry>::empty());
            assert(slots_bytes(Seq::<Entry>::empty()) =~= Seq::<u8>::empty());
            reveal(Seq::filter);
        }
        while j < count
            invariant
                j <= count <= CHUNK_SLOTS,
                count == self@.metadata[chunk as int].count,
                base == chunk * CHUNK_BYTES,
                base + CHUNK_BYTES <= self.index.len(),
                live == self@.live(chunk as int),
                target == (Entry { key: arg, offset: arg_offset }),
                kept == live.take(j as int).filter(other_than(target)).len(),
                kept <= j,
                bytes@ == slots_bytes(live.take(j as int).filter(other_than(target))),
            decreases count - j,
        {
            let e = read_slot(&self.index, base + j * SLOT_BYTES);
            proof {
                assert(e == live[j as int]);
                assert(live.take(j + 1) =~= live.take(j as int).push(e));
                live.take(j as int).lemma_filter_push(e, other_than(target));
                lemma_slots_bytes_push(live.take(j as int).filter(other_than(target)), e);
            }
            if !(e.key == arg && e.offset == arg_offset) {
                put_u64(&mut bytes, e.key);
                put_u64(&mut bytes, e.offset);
                kept = kept + 1;
                assert(bytes@ =~= slots_bytes(live.take(j as int).filter(other_than(target)))
                    + slot_bytes(e));
            }
            j = j + 1;
        }
        proof {
            assert(live.take(count as int) =~= live);
            lemma_slots_bytes_push(self@.kept(chunk as int, target), target);
            lemma_packed_is_padded(self@.kept(chunk as int, target));
        }
        let ghost filled = bytes@;
        while bytes.len() < CHUNK_BYTES
            invariant
                filled.len() <= bytes.len() <= CHUNK_BYTES,
                forall|p: int| 0 <= p < filled.len() ==> bytes[p] == filled[p],
                forall|p: int| filled.len() <= p < bytes.len() ==> bytes[p] == 0,
            decreases CHUNK_BYTES - bytes.len(),
        {
            bytes.push(0);
        }
        assert(bytes@ =~= packed(self@.kept(chunk as int, target)));
        (bytes, kept)
    }

    /// Takes `(arg, arg_offset)` out of every chunk whose range holds the key:
    /// such a chunk keeps its other live entries, packed from slot 0 on, and
    /// counts them. The writes give each such chunk, and then its record, to
    /// the files. The store is marked dirty where a range holds the key.
    pub fn remove_index(&mut self, arg: u64, arg_offset: u64) -> (writes: Vec<FileWrite>)
        requires
            old(self)@.wf(),
        ensures
            final(self)@.wf(),
            final(self)@ == old(self)@.remove(arg, arg_offset),
            final(self).is_dirty() == (old(self).is_dirty() || old(self)@.somewhere_holds(arg)),
            final(self).is_destroyed() == old(self).is_destroyed(),
            written(old(self)@.index, writes@, StoreFile::Index) == final(self)@.index,
            written(old(self)@.metadata_file(), writes@, StoreFile::Metadata) == final(self)@.metadata_file(),
    {
        let ghost before = self@;
        let ghost target = Entry { key: arg, offset: arg_offset };
        let mut writes: Vec<FileWrite> = Vec::new();
        let chunks: usize = self.metadata.len();
        let total: usize = self.index.len();
        let mut c: usize = 0;
        proof {
            if chunks > 0 {
                lemma_remove_step(before, arg, arg_offset, 0);
            } else {
                assert(before.remove_upto(arg, arg_offset, 0).metadata =~= before.metadata);
                assert(before.remove_upto(arg, arg_offset, 0).index =~= before.index);
                assert(before.remove(arg, arg_offset).metadata =~= before.metadata);
                assert(before.remove(arg, arg_offset).index =~= before.index);
            }
        }
        while c < chunks
            invariant
                c <= chunks,
                chunks == before.metadata.len(),
                total == before.index.len(),
                total == chunks * CHUNK_BYTES,
                before.wf(),
                before == old(self)@,
                target == (Entry { key: arg, offset: arg_offset }),
                self@ == before.remove_upto(arg, arg_offset, c as int),
                self.destroyed == old(self).destroyed,
                self.changes == (old(self).changes || exists|b: int|
                    0 <= b < c && (#[trigger] before.metadata[b]).holds(arg)),
                written(before.index, writes@, StoreFile::Index) == self@.index,
                written(before.metadata_file(), writes@, StoreFile::Metadata)
                    == self@.metadata_file(),
            decreases chunks - c,
        {
            let ghost cur = self@;
            let ghost seen = writes@;
            proof {
                lemma_remove_step(before, arg, arg_offset, c as int);
            }
            let m = self.metadata[c];
            if arg >= m.min_key && arg <= m.max_key {
                let (bytes, kept) = self.pack_without(c, arg, arg_offset);
                let packed_meta = ChunkMeta { min_key: m.min_key, max_key: m.max_key, count: kept };
                let record = encode_meta(packed_meta);
                copy_into(&mut self.index, c * CHUNK_BYTES, &bytes);
                self.metadata.set(c, packed_meta);
                self.changes = true;
                let to_index = FileWrite {
                    file: StoreFile::Index,
                    offset: (c * CHUNK_BYTES) as u64,
                    bytes,
                };
                let to_metadata = FileWrite {
                    file: StoreFile::Metadata,
                    offset: (c * 18) as u64,
                    bytes: record,
                };
                proof {
                    lemma_metadata_file_update(cur.metadata, c as int, packed_meta);
                    lemma_written_push(before.index, seen, to_index, StoreFile::Index);
                    lemma_written_push(before.metadata_file(), seen, to_index, StoreFile::Metadata);
                    lemma_written_push(
                        before.index,
                        seen.push(to_index),
                        to_metadata,
                        StoreFile::Index,
                    );
                    lemma_written_push(
                        before.metadata_file(),
                        seen.push(to_index),
                        to_metadata,
                        StoreFile::Metadata,
                    );
                    assert(before.metadata[c as int].holds(arg));
                }
                writes.push(to_index);
                writes.push(to_metadata);
            }
            c = c + 1;
        }
        proof {
            lemma_remove(before, arg, arg_offset);
            if chunks > 0 {
                lemma_remove_step(before, arg, arg_offset, 0);
            }
        }
        writes
    }

    /// The chunks whose key range overlaps the query, in ascending order.
    pub fn chunks_touching(&self, q: &KeyQuery) -> (groups: Vec<usize>)
        ensures
            forall|k: int|
                0 <= k < groups@.len() ==> (#[trigger] groups@[k]) < self@.metadata.len()
                    && q.touches(self@.metadata[groups@[k] as int]),
            forall|k: int, l: int| 0 <= k < l < groups@.len() ==> groups@[k] < groups@[l],
            forall|c: int|
                0 <= c < self@.metadata.len() && q.touches(#[trigger] self@.metadata[c])
                    ==> groups@.contains(c as usize),
    {
        let mut groups: Vec<usize> = Vec::new();
        let mut c: usize = 0;
        while c < self.metadata.len()
            invariant
                c <= self.metadata.len(),
                forall|k: int|
                    0 <= k < groups@.len() ==> (#[trigger] groups@[k]) < c && q.touches(
                        self@.metadata[groups@[k] as int],
                    ),
                forall|k: int, l: int| 0 <= k < l < groups@.len() ==> groups@[k] < groups@[l],
                forall|b: int|
                    0 <= b < c && q.touches(#[trigger] self@.metadata[b]) ==> groups@.contains(
                        b as usize,
                    ),
            decreases self.metadata.len() - c,
        {
            if q.overlaps(&self.metadata[c]) {
                let ghost earlier = groups@;
                groups.push(c);
                proof {
                    assert(groups@[earlier.len() as int] == c);
                    assert forall|b: int|
                        0 <= b < c + 1 && q.touches(
                            #[trigger] self@.metadata[b],
                        ) implies groups@.contains(b as usize) by {
                        if b < c {
                            let k = choose|k: int| 0 <= k < earlier.len() && earlier[k] == b as usize;
                            assert(groups@[k] == b as usize);
                        }
                    }
                }
            }
            c = c + 1;
        }
        groups
    }

    /// The offsets of the entries that answer `q`: every slot of every chunk
    /// whose range overlaps the query is read, and the offset of a slot whose
    /// key answers the query goes into the result.
    pub fn lookup(&self, q: &KeyQuery) -> (offsets: BTreeSet<u64>)
        requires
            self@.wf(),
        ensures
            offsets@ == self@.search(*q),
    {
        let groups = self.chunks_touching(q);
        let total: usize = self.index.len();
        let mut offsets: BTreeSet<u64> = BTreeSet::new();
        let mut g: usize = 0;
        let ghost mut done: int = 0;
        proof {
            lemma_hits_start(self@, *q);
        }
        while g < groups.len()
            invariant
                g <= groups.len(),
                self@.wf(),
                total == self@.index.len(),
                0 <= done <= self@.metadata.len(),
                g > 0 ==> done == groups@[g - 1] + 1,
                g == 0 ==> done == 0,
                forall|k: int|
                    0 <= k < groups@.len() ==> (#[trigger] groups@[k]) < self@.metadata.len()
                        && q.touches(self@.metadata[groups@[k] as int]),
                forall|k: int, l: int| 0 <= k < l < groups@.len() ==> groups@[k] < groups@[l],
                forall|c: int|
                    0 <= c < self@.metadata.len() && q.touches(#[trigger] self@.metadata[c])
                        ==> groups@.contains(c as usize),
                offsets@ == self@.hits_before(*q, done, 0),
            decreases groups.len() - g,
        {
            let chunk: usize = groups[g];
            proof {
                assert forall|c: int|
                    done <= c < chunk && c < self@.metadata.len() implies !q.touches(
                    #[trigger] self@.metadata[c],
                ) by {
                    if q.touches(self@.metadata[c]) {
                        let k = choose|k: int| 0 <= k < groups@.len() && groups@[k] == c as usize;
                        if k < g {
                            assert(g > 0);
                            assert(k == g - 1 || groups@[k] < groups@[g - 1]);
                        } else if k > g {
                            assert(groups@[g as int] < groups@[k]);
                        }
                    }
                }
                assert(done <= chunk) by {
                    if g > 0 {
                        assert(groups@[g - 1] < groups@[g as int]);
                    }
                }
                lemma_hits_skip(self@, *q, done, chunk as int);
                assert(chunk * 65536 + 65536 <= total);
            }
            let base: usize = chunk * CHUNK_BYTES;
            let mut j: usize = 0;
            while j < CHUNK_SLOTS
                invariant
                    j <= CHUNK_SLOTS,
                    chunk < self@.metadata.len(),
                    q.touches(self@.metadata[chunk as int]),
                    base == chunk * CHUNK_BYTES,
                    base + CHUNK_BYTES <= self.index.len(),
                    offsets@ == self@.hits_before(*q, chunk as int, j as int),
                decreases CHUNK_SLOTS - j,
            {
                let e = read_slot(&self.index, base + j * SLOT_BYTES);
                proof {
                    lemma_hits_slot(self@, *q, chunk as int, j as int);
                }
                if q.matches_key(e.key) {
                    note_offset(&mut offsets, e.offset);
                }
                j = j + 1;
            }
            proof {
                lemma_hits_skip(self@, *q, chunk + 1, chunk + 1);
                done = chunk + 1;
            }
            g = g + 1;
        }
        proof {
            assert forall|c: int|
                done <= c < self@.metadata.len() implies !q.touches(#[trigger] self@.metadata[c]) by {
                if q.touches(self@.metadata[c]) {
                    let k = choose|k: int| 0 <= k < groups@.len() && groups@[k] == c as usize;
                    assert(g > 0);
                    assert(k == g - 1 || groups@[k] < groups@[g - 1]);
                }
            }
            lemma_hits_skip(self@, *q, done, self@.metadata.len() as int);
            lemma_hits_end(self@, *q);
        }
        offsets
    }

    /// The first chunk, in stored order, that accepts `key`.
    pub fn accepting_chunk(&self, key: u64) -> (found: Option<usize>)
        requires
            self@.wf(),
        ensures
            match found {
                Some(c) => first_accepting(self@.metadata, key) == Some(c as int),
                None => first_accepting(self@.metadata, key) is None,
            },
    {
        let mut c: usize = 0;
        while c < self.metadata.len()
            invariant
                c <= self.metadata.len(),
                first_accepting(self.metadata@.take(c as int), key) is None,
            decreases self.metadata.len() - c,
        {
            let m = self.metadata[c];
            proof {
                assert(self.metadata@.take(c + 1).drop_last() =~= self.metadata@.take(c as int));
            }
            if (m.count as usize) < CHUNK_SLOTS && key <= m.max_key && key >= m.min_key {
                proof {
                    lemma_first_accepting_prefix(self.metadata@, key, c + 1);
                }
                return Some(c);
            }
            c = c + 1;
        }
        proof {
            assert(self.metadata@.take(c as int) =~= self.metadata@);
        }
        None
    }
}

/// The first accepting chunk of a prefix of the mirror is the first accepting
/// chunk of the mirror.
pub proof fn lemma_first_accepting_prefix(metadata: Seq<ChunkMeta>, key: u64, n: int)
    requires
        0 <= n <= metadata.len(),
        first_accepting(metadata.take(n), key) is Some,
    ensures
        first_accepting(metadata, key) == first_accepting(metadata.take(n), key),
    decreases metadata.len() - n,
{
    if n < metadata.len() {
        assert(metadata.take(n + 1).drop_last() =~= metadata.take(n));
        lemma_first_accepting_prefix(metadata, key, n + 1);
    } else {
        assert(metadata.take(n) =~= metadata);
    }
}

/// Two writes, the first to one file and the second to the other, are one
/// write to each.
pub proof fn lemma_two_writes(first: Seq<u8>, second: Seq<u8>, writes: Seq<FileWrite>)
    requires
        writes.len() == 2,
        writes[0].file != writes[1].file,
    ensures
        written(first, writes, writes[0].file) == write_at(
            first,
            writes[0].offset as int,
            writes[0].bytes@,
        ),
        written(second, writes, writes[1].file) == write_at(
            second,
            writes[1].offset as int,
            writes[1].bytes@,
        ),
{
    reveal_with_fuel(written, 3);
    assert(writes.drop_last().drop_last() =~= Seq::<FileWrite>::empty());
    assert(writes.drop_last().last() == writes[0]);
}

impl Add for Indexing {
    fn add(&mut self, arg: u64, arg_offset: u64) -> (writes: Vec<FileWrite>)
        ensures
            final(self).is_dirty(),
            final(self).is_destroyed() == old(self).is_destroyed(),
    {
        proof {
            lemma_first_accepting(self@.metadata, arg);
        }
        match self.accepting_chunk(arg) {
            Some(chunk) => self.insert_index(arg, arg_offset, chunk),
            None => self.create_index_chunk(arg, arg_offset),
        }
    }
}

impl Remove for Indexing {
    fn remove(&mut self, arg: u64, arg_offset: u64) -> (writes: Vec<FileWrite>)
        ensures
            final(self).is_dirty() == (old(self).is_dirty() || old(self)@.somewhere_holds(arg)),
            final(self).is_destroyed() == old(self).is_destroyed(),
    {
        self.remove_index(arg, arg_offset)
    }
}

impl Search<u64> for Indexing {
    fn search(&self, arg: u64) -> (offsets: BTreeSet<u64>)
        ensures
            offsets@ == self@.search(KeyQuery::Key(arg)),
    {
        self.lookup(&KeyQuery::Key(arg))
    }
}

impl Search<Range<u64>> for Indexing {
    fn search(&self, arg: Range<u64>) -> (offsets: BTreeSet<u64>)
        ensures
            offsets@ == self@.search(KeyQuery::Range(arg.start, arg.end)),
    {
        self.lookup(&KeyQuery::Range(arg.start, arg.end))
    }
}

impl Search<RangeInclusive<u64>> for Indexing {
    fn search(&self, arg: RangeInclusive<u64>) -> (offsets: BTreeSet<u64>)
    {
        let start: u64 = *arg.start();
        let end: u64 = *arg.end();
        self.lookup(&KeyQuery::Inclusive(start, end))
    }
}

} // verus!
