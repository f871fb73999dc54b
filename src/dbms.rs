use vstd::prelude::*;

use crate::book::PagerBook;
use crate::codec::{get64, le64, put_u64, take_u64, take_u8};
use crate::error::ErrorKind;
use crate::hash_table::{
    bloom_bit, index_change, insert_fits, key_hash, BookHashTable, EntryView, HashTableScanFilter,
    HashTableScanner, PrefixHasherBuilder,
};
use crate::index_registry::{bloom_updated, IndexKey};
use crate::page_registry::assignments;
use crate::section_registry::SectionHeader;
use crate::index_registry::{IndexEvent, ManagedIndexRegistry, index_event_at};
use crate::page_registry::{ManagedPageRegistry, PageEvent, page_event_at};
use crate::pager::{MemoryPager, PageSize};
use crate::section_registry::{ManagedSectionRegistry, SectionEvent, section_event_at};

verus! {

/// The shape of a store: fixed when it is created.
#[derive(Clone, Copy, Debug, PartialEq, Eq, Structural)]
pub struct HashTableConfig {
    pub page_size: PageSize,
    pub section_count: u32,
    pub index_chunk_size: u32,
}

impl HashTableConfig {
    /// Every size is positive.
    pub open spec fn valid(&self) -> bool {
        self.page_size > 0 && self.section_count > 0 && self.index_chunk_size > 0
    }
}

impl Default for HashTableConfig {
    fn default() -> (r: Self)
        ensures
            r.page_size == 4096,
            r.section_count == 1024,
            r.index_chunk_size == 4096,
    {
        HashTableConfig { page_size: 4096, section_count: 1024, index_chunk_size: 4096 }
    }
}

/// A journal entry of any registry, as the write-ahead log holds it.
#[derive(Clone, Copy, Debug, PartialEq, Eq, Structural)]
pub enum HashTableEvent {
    PageEvent(PageEvent),
    SectionEvent(SectionEvent),
    IndexEvent(IndexEvent),
}

/// The bytes of an event in the log: a tag for its registry, then the
/// registry's own bytes for it.
pub open spec fn event_bytes(e: HashTableEvent) -> Seq<u8> {
    match e {
        HashTableEvent::PageEvent(p) => seq![1u8] + p.encoded(),
        HashTableEvent::SectionEvent(s) => seq![2u8] + s.encoded(),
        HashTableEvent::IndexEvent(i) => seq![3u8] + i.encoded(),
    }
}

/// The event whose bytes start at `b[at]`, or the error that reading one
/// there meets.
pub open spec fn event_at(b: Seq<u8>, at: int) -> Result<HashTableEvent, ErrorKind> {
    if at >= b.len() {
        Err(ErrorKind::UnexpectedEof)
    } else if b[at] == 1 {
        match page_event_at(b, at + 1) {
            Ok(p) => Ok(HashTableEvent::PageEvent(p)),
            Err(e) => Err(e),
        }
    } else if b[at] == 2 {
        match section_event_at(b, at + 1) {
            Ok(s) => Ok(HashTableEvent::SectionEvent(s)),
            Err(e) => Err(e),
        }
    } else if b[at] == 3 {
        match index_event_at(b, at + 1) {
            Ok(i) => Ok(HashTableEvent::IndexEvent(i)),
            Err(e) => Err(e),
        }
    } else {
        Err(ErrorKind::InvalidData)
    }
}

impl HashTableEvent {
    /// Reads an event at `*pos` and moves past it.
    pub fn read(buf: &[u8], pos: &mut usize) -> (r: Result<HashTableEvent, ErrorKind>)
        ensures
            r == event_at(buf@, *old(pos) as int),
            r matches Ok(e) ==> *final(pos) == *old(pos) + event_bytes(e).len(),
            r is Ok ==> *final(pos) <= buf@.len(),
    {
        proof {
            crate::codec::lemma_le_round_trip();
        }
        let tag = match take_u8(buf, pos) {
            Ok(t) => t,
            Err(e) => return Err(e),
        };
        if tag == 1 {
            match PageEvent::read(buf, pos) {
                Ok(p) => Ok(HashTableEvent::PageEvent(p)),
                Err(e) => Err(e),
            }
        } else if tag == 2 {
            match SectionEvent::read(buf, pos) {
                Ok(s) => Ok(HashTableEvent::SectionEvent(s)),
                Err(e) => Err(e),
            }
        } else if tag == 3 {
            match IndexEvent::read(buf, pos) {
                Ok(i) => Ok(HashTableEvent::IndexEvent(i)),
                Err(e) => Err(e),
            }
        } else {
            Err(ErrorKind::InvalidData)
        }
    }

    /// Appends the bytes of this event.
    pub fn write(&self, out: &mut Vec<u8>)
        ensures
            final(out)@ == old(out)@ + event_bytes(*self),
    {
        match self {
            HashTableEvent::PageEvent(p) => {
                out.push(1u8);
                p.write(out);
            },
            HashTableEvent::SectionEvent(s) => {
                out.push(2u8);
                s.write(out);
            },
            HashTableEvent::IndexEvent(i) => {
                out.push(3u8);
                i.write(out);
            },
        }
        assert(out@ =~= old(out)@ + event_bytes(*self));
    }
}

/// An event that can be written to and read from a log.
pub trait SerializableEvent: Sized {
    /// Appends the bytes of this event.
    fn write(&self, out: &mut Vec<u8>);

    /// Reads an event at `*pos` and moves past it.
    fn read(buf: &[u8], pos: &mut usize) -> Result<Self, ErrorKind>;
}

impl SerializableEvent for HashTableEvent {
    fn write(&self, out: &mut Vec<u8>) {
        HashTableEvent::write(self, out)
    }

    fn read(buf: &[u8], pos: &mut usize) -> Result<Self, ErrorKind> {
        HashTableEvent::read(buf, pos)
    }
}

/// A log that events are recorded to.
pub trait WriteAheadLog {
    /// Records `event` after the events recorded before.
    fn record(&mut self, event: &HashTableEvent) -> Result<(), ErrorKind>;
}

/// A reader of the events of a log, in order.
pub trait WALReader {
    /// The next event, or `None` after the last.
    fn read_next(&mut self) -> Result<Option<HashTableEvent>, ErrorKind>;
}

/// The bytes of events one after the other, as the log holds them.
pub open spec fn log_bytes(es: Seq<HashTableEvent>) -> Seq<u8>
    decreases es.len(),
{
    if es.len() == 0 {
        Seq::empty()
    } else {
        log_bytes(es.drop_last()) + event_bytes(es.last())
    }
}

/// The registry journals as log events: page assignments, then section
/// ends, then chunk headers.
pub open spec fn journal_events(
    pages: Seq<PageEvent>,
    sections: Seq<SectionEvent>,
    indexes: Seq<IndexEvent>,
) -> Seq<HashTableEvent> {
    pages.map_values(|e: PageEvent| HashTableEvent::PageEvent(e)) + sections.map_values(
        |e: SectionEvent| HashTableEvent::SectionEvent(e),
    ) + indexes.map_values(|e: IndexEvent| HashTableEvent::IndexEvent(e))
}

/// No event takes more than 30 bytes in the log.
pub proof fn lemma_log_len(es: Seq<HashTableEvent>)
    ensures
        log_bytes(es).len() <= 30 * es.len(),
        forall|i: int| 0 <= i <= es.len() ==> #[trigger] log_bytes(es.subrange(0, i)).len() <= log_bytes(es).len(),
    decreases es.len(),
{
    crate::codec::lemma_le_round_trip();
    if es.len() > 0 {
        lemma_log_len(es.drop_last());
        assert forall|i: int| 0 <= i <= es.len() implies #[trigger] log_bytes(es.subrange(0, i)).len()
            <= log_bytes(es).len() by {
            if i < es.len() {
                assert(es.subrange(0, i) =~= es.drop_last().subrange(0, i));
            } else {
                assert(es.subrange(0, i) =~= es);
            }
        }
    }
}

/// What inserting `(key, value)` into table `before`, giving `after`,
/// appends to the log: the page assignments it made, the new end of the
/// key's section, and the new header of the entry's chunk unless it was
/// already that.
pub open spec fn log_of_insert(
    before: BookHashTable,
    after: BookHashTable,
    key: Seq<u8>,
    value: Seq<u8>,
) -> Seq<HashTableEvent> {
    let s = before.section_of(key);
    let end = before.end_of(s) as int;
    let ik = IndexKey { section_index: s, index_chunk: (end / before.chunk_size() as int) as u32 };
    let h = bloom_updated(before.index_registry_spec().lookup(ik), end as u64, bloom_bit(key_hash(key), before.sections()));
    let new_end = SectionHeader { end_offset: (end + 8 + key.len() + value.len()) as u64 };
    journal_events(
        assignments(after.book_spec().registry_spec().keys(), before.book_spec().registry_spec().keys().len() as int),
        seq![SectionEvent::Updated(s, new_end)],
        index_change(before.index_registry_spec(), after.index_registry_spec(), ik, h),
    )
}

/// `files` are what a store `m0` that holds its contents leaves after a
/// full sync, opened with its own `config`: the page file holds its pages'
/// bytes, the registry files its registries, and the log is empty.
pub open spec fn synced_files(m0: ManagedHashTable, config: HashTableConfig, files: StoreFiles) -> bool {
    let t = m0.table();
    let ps = t.book_spec().page_size_spec() as int;
    &&& m0.wf()
    &&& t.inv()
    &&& config.page_size == t.book_spec().page_size_spec()
    &&& config.section_count == t.sections()
    &&& config.index_chunk_size == t.chunk_size()
    &&& files.header == Some(config)
    &&& forall|p: int, o: int|
        0 <= p && 0 <= o < ps ==> #[trigger] t.book_spec().pager_spec().byte(p, o) == (if p * ps + o
            < files.pages@.len() {
            files.pages@[p * ps + o]
        } else {
            0u8
        })
    &&& files.pages_reg@ == crate::page_registry::page_keys_bytes(t.book_spec().registry_spec().keys())
    &&& files.sections_reg@ == crate::section_registry::section_table_bytes(t.section_registry_spec().headers())
    &&& files.indexes_reg@ == crate::index_registry::index_entries_bytes(t.index_registry_spec().entries())
    &&& files.events_log@ == m0.log().file_spec()
    &&& m0.log().height_spec() == LOG_START
    &&& m0.log().file_spec().subrange(0, 8) == le64(8)
}

/// The smallest log: its height alone.
pub const LOG_START: u64 = 8;

/// The bytes of a log file whose first eight bytes give the height of the
/// log, its logical end; events lie in `[8, height)`, and what follows is
/// stale.
pub struct FileWAL {
    file: Vec<u8>,
    height: u64,
}

impl FileWAL {
    /// The bytes of the file.
    pub closed spec fn file_spec(&self) -> Seq<u8> {
        self.file@
    }

    /// The logical end of the log.
    pub closed spec fn height_spec(&self) -> u64 {
        self.height
    }

    pub closed spec fn wf(&self) -> bool {
        LOG_START <= self.height <= self.file@.len()
    }

    /// A log over the bytes of its file. An empty file becomes a log of
    /// height 8. Otherwise the first eight bytes give the height, which must
    /// lie in `[8, file length]` (else `InvalidData`, as for a file shorter
    /// than eight bytes).
    pub fn load(file: Vec<u8>) -> (r: Result<Self, ErrorKind>)
        ensures
            file@.len() == 0 ==> (r matches Ok(w) && w.wf() && w.height_spec() == LOG_START
                && w.file_spec() == le64(8)),
            file@.len() > 0 ==> (if file@.len() >= 8 && LOG_START <= get64(file@, 0) <= file@.len() {
                r matches Ok(w) && w.wf() && w.height_spec() == get64(file@, 0) && w.file_spec()
                    == file@
            } else {
                r == Err::<Self, ErrorKind>(ErrorKind::InvalidData)
            }),
    {
        if file.len() == 0 {
            let mut f: Vec<u8> = Vec::new();
            put_u64(&mut f, LOG_START);
            proof {
                crate::codec::lemma_le_round_trip();
            }
            return Ok(FileWAL { file: f, height: LOG_START });
        }
        let mut pos: usize = 0;
        let height = match take_u64(file.as_slice(), &mut pos) {
            Ok(h) => h,
            Err(_) => return Err(ErrorKind::InvalidData),
        };
        if height < LOG_START || height > file.len() as u64 {
            return Err(ErrorKind::InvalidData);
        }
        Ok(FileWAL { file, height })
    }

    /// Writes `bytes` over the file from `at` on, growing it as needed.
    fn write_at(&mut self, at: usize, bytes: &[u8])
        requires
            at <= old(self).file@.len(),
            at + bytes@.len() <= usize::MAX,
        ensures
            final(self).height == old(self).height,
            final(self).file@ == old(self).file@.subrange(0, at as int) + bytes@ + if at
                + bytes@.len() < old(self).file@.len() {
                old(self).file@.subrange(at + bytes@.len(), old(self).file@.len() as int)
            } else {
                Seq::empty()
            },
    {
        let mut i: usize = 0;
        while i < bytes.len()
            invariant
                at <= old(self).file@.len(),
                at + bytes@.len() <= usize::MAX,
                i <= bytes@.len(),
                self.height == old(self).height,
                self.file@.len() == if at + i < old(self).file@.len() {
                    old(self).file@.len() as int
                } else {
                    at + i
                },
                forall|j: int|
                    0 <= j < self.file@.len() ==> #[trigger] self.file@[j] == if at <= j < at + i {
                        bytes@[j - at]
                    } else {
                        old(self).file@[j]
                    },
            decreases bytes@.len() - i,
        {
            if at + i < self.file.len() {
                self.file.set(at + i, bytes[i]);
            } else {
                self.file.push(bytes[i]);
            }
            i = i + 1;
        }
        assert(self.file@ =~= old(self).file@.subrange(0, at as int) + bytes@ + if at
            + bytes@.len() < old(self).file@.len() {
            old(self).file@.subrange(at + bytes@.len(), old(self).file@.len() as int)
        } else {
            Seq::empty()
        });
    }

    /// Appends `event` at the height and moves the height past it. The
    /// height in the file's first bytes is left for `sync`. Fails with
    /// `InvalidInput`, and changes nothing, when the height would pass the
    /// largest file size.
    pub fn record(&mut self, event: &HashTableEvent) -> (r: Result<(), ErrorKind>)
        ensures
            old(self).wf() ==> final(self).wf(),
            r is Ok ==> {
                &&& final(self).height_spec() == old(self).height_spec() + event_bytes(*event).len()
                &&& final(self).file_spec().subrange(0, old(self).height_spec() as int) == old(self).file_spec().subrange(0, old(self).height_spec() as int)
                &&& final(self).file_spec().subrange(
                    old(self).height_spec() as int,
                    final(self).height_spec() as int,
                ) == event_bytes(*event)
            },
            r is Err ==> r == Err::<(), ErrorKind>(ErrorKind::InvalidInput) && *final(self) == *old(self),
            old(self).wf() && old(self).height_spec() + event_bytes(*event).len() <= usize::MAX ==> r is Ok,
    {
        let mut bytes: Vec<u8> = Vec::new();
        event.write(&mut bytes);
        if self.height > self.file.len() as u64 || self.height < LOG_START {
            return Err(ErrorKind::InvalidInput);
        }
        let at = self.height as usize;
        if bytes.len() > usize::MAX - at || (bytes.len() as u64) > u64::MAX - self.height {
            return Err(ErrorKind::InvalidInput);
        }
        let ghost before = self.file@;
        self.write_at(at, bytes.as_slice());
        assert(self.file@.len() >= at + bytes@.len());
        assert(self.file@.subrange(at as int, at + bytes@.len()) =~= bytes@);
        self.height = self.height + bytes.len() as u64;
        assert(self.file@.subrange(0, at as int) =~= before.subrange(0, at as int));
        assert(self.file@.subrange(at as int, self.height as int) =~= bytes@);
        Ok(())
    }

    /// This log is `before` with `es` recorded after its events.
    pub open spec fn logged(&self, before: FileWAL, es: Seq<HashTableEvent>) -> bool {
        &&& self.height_spec() == before.height_spec() + log_bytes(es).len()
        &&& self.file_spec().subrange(0, self.height_spec() as int) == before.file_spec().subrange(
            0,
            before.height_spec() as int,
        ) + log_bytes(es)
    }

    /// Records `events`, in order. Fails with `InvalidInput` when the log
    /// cannot grow, having recorded the events before.
    pub fn record_all(&mut self, events: &Vec<HashTableEvent>) -> (r: Result<(), ErrorKind>)
        requires
            old(self).wf(),
        ensures
            final(self).wf(),
            r is Ok ==> final(self).logged(*old(self), events@),
            r is Err ==> r == Err::<(), ErrorKind>(ErrorKind::InvalidInput),
            old(self).height_spec() + log_bytes(events@).len() <= usize::MAX ==> r is Ok,
    {
        let mut i: usize = 0;
        proof {
            lemma_log_len(events@);
            assert(events@.subrange(0, 0) =~= Seq::<HashTableEvent>::empty());
            assert(self.file@.subrange(0, self.height as int) =~= old(self).file@.subrange(0, self.height as int) + log_bytes(Seq::<HashTableEvent>::empty()));
        }
        while i < events.len()
            invariant
                self.wf(),
                i <= events@.len(),
                self.logged(*old(self), events@.subrange(0, i as int)),
                forall|j: int| 0 <= j <= events@.len() ==> #[trigger] log_bytes(events@.subrange(0, j)).len()
                    <= log_bytes(events@).len(),
            decreases events@.len() - i,
        {
            let ghost before = *self;
            proof {
                let pre = events@.subrange(0, i as int);
                let nxt = events@.subrange(0, i + 1);
                assert(nxt.drop_last() =~= pre);
                assert(nxt.last() == events@[i as int]);
                assert(log_bytes(nxt).len() <= log_bytes(events@).len());
            }
            match self.record(&events[i]) {
                Ok(()) => {},
                Err(e) => return Err(e),
            }
            proof {
                let pre = events@.subrange(0, i as int);
                let nxt = events@.subrange(0, i + 1);
                assert(nxt.drop_last() =~= pre);
                let h0 = before.height_spec() as int;
                assert(self.file@.subrange(0, self.height as int) =~= self.file@.subrange(0, h0) + self.file@.subrange(h0, self.height as int));
                assert(self.file@.subrange(0, self.height as int) =~= old(self).file@.subrange(0, old(self).height as int) + log_bytes(nxt));
            }
            i = i + 1;
        }
        assert(events@.subrange(0, i as int) =~= events@);
        Ok(())
    }

    /// Writes the height into the file's first eight bytes.
    pub fn sync(&mut self)
        requires
            old(self).wf(),
        ensures
            final(self).wf(),
            final(self).height_spec() == old(self).height_spec(),
            final(self).file_spec() == le64(old(self).height_spec()) + old(self).file_spec().subrange(
                8,
                old(self).file_spec().len() as int,
            ),
    {
        let mut bytes: Vec<u8> = Vec::new();
        put_u64(&mut bytes, self.height);
        proof {
            crate::codec::lemma_le_round_trip();
        }
        self.write_at(0, bytes.as_slice());
        assert(self.file@ =~= le64(old(self).height_spec()) + old(self).file_spec().subrange(
            8,
            old(self).file_spec().len() as int,
        ));
    }

    /// Empties the log: height 8, in memory and in the file; the file keeps
    /// its length.
    pub fn clear(&mut self)
        requires
            old(self).wf(),
        ensures
            final(self).wf(),
            final(self).height_spec() == LOG_START,
            final(self).file_spec() == le64(8) + old(self).file_spec().subrange(
                8,
                old(self).file_spec().len() as int,
            ),
    {
        self.height = LOG_START;
        self.sync();
    }

    /// The bytes of the file.
    pub fn bytes(&self) -> (r: &Vec<u8>)
        ensures
            r@ == self.file_spec(),
    {
        &self.file
    }

    /// The logical end of the log.
    pub fn height(&self) -> (r: u64)
        ensures
            r == self.height_spec(),
    {
        self.height
    }
}

impl WriteAheadLog for FileWAL {
    fn record(&mut self, event: &HashTableEvent) -> Result<(), ErrorKind> {
        FileWAL::record(self, event)
    }
}

/// Reads the events of a log file, from offset 8 up to its height.
pub struct FileWALReader {
    file: Vec<u8>,
    height: Option<u64>,
    position: usize,
}

impl FileWALReader {
    /// The bytes of the file.
    pub closed spec fn file_spec(&self) -> Seq<u8> {
        self.file@
    }

    /// Where the next event starts.
    pub closed spec fn position_spec(&self) -> int {
        self.position as int
    }

    /// The height read from the file; `None` for an empty file.
    pub closed spec fn height_spec(&self) -> Option<u64> {
        self.height
    }

    /// A reader of a log file. An empty file has no events; otherwise its
    /// height must lie in `[8, file length]` (else `InvalidData`).
    pub fn new(file: Vec<u8>) -> (r: Result<Self, ErrorKind>)
        ensures
            file@.len() == 0 ==> (r matches Ok(g) && g.height_spec() is None && g.file_spec()
                == file@ && g.position_spec() == 0),
            file@.len() > 0 ==> (if file@.len() >= 8 && LOG_START <= get64(file@, 0) <= file@.len() {
                r matches Ok(g) && g.height_spec() == Some(get64(file@, 0)) && g.file_spec()
                    == file@ && g.position_spec() == 8
            } else {
                r == Err::<Self, ErrorKind>(ErrorKind::InvalidData)
            }),
    {
        if file.len() == 0 {
            return Ok(FileWALReader { file, height: None, position: 0 });
        }
        let mut pos: usize = 0;
        let height = match take_u64(file.as_slice(), &mut pos) {
            Ok(h) => h,
            Err(_) => return Err(ErrorKind::InvalidData),
        };
        if height < LOG_START || height > file.len() as u64 {
            return Err(ErrorKind::InvalidData);
        }
        Ok(FileWALReader { file, height: Some(height), position: 8 })
    }

    /// The next event below the height, or `None` at the height. A reader
    /// past the height is corrupt (`InvalidData`), as is an event that does
    /// not decode.
    pub fn read_next(&mut self) -> (r: Result<Option<HashTableEvent>, ErrorKind>)
        ensures
            final(self).file_spec() == old(self).file_spec(),
            final(self).height_spec() == old(self).height_spec(),
            match old(self).height_spec() {
                None => r == Ok::<Option<HashTableEvent>, ErrorKind>(None),
                Some(h) => if old(self).position_spec() == h {
                    r == Ok::<Option<HashTableEvent>, ErrorKind>(None)
                } else if old(self).position_spec() > h {
                    r == Err::<Option<HashTableEvent>, ErrorKind>(ErrorKind::InvalidData)
                } else {
                    match event_at(old(self).file_spec(), old(self).position_spec()) {
                        Ok(e) => r == Ok::<Option<HashTableEvent>, ErrorKind>(Some(e))
                            && final(self).position_spec() == old(self).position_spec()
                            + event_bytes(e).len(),
                        Err(k) => r == Err::<Option<HashTableEvent>, ErrorKind>(k),
                    }
                },
            },
            r matches Ok(None) ==> final(self).position_spec() == old(self).position_spec(),
            r matches Ok(Some(_)) ==> final(self).position_spec() > old(self).position_spec()
                && final(self).position_spec() <= final(self).file_spec().len(),
            old(self).position_spec() <= old(self).file_spec().len() ==> final(self).position_spec()
                <= final(self).file_spec().len(),
    {
        let height = match self.height {
            None => return Ok(None),
            Some(h) => h,
        };
        if self.position as u64 == height {
            return Ok(None);
        }
        if self.position as u64 > height {
            return Err(ErrorKind::InvalidData);
        }
        let mut pos = self.position;
        match HashTableEvent::read(self.file.as_slice(), &mut pos) {
            Ok(e) => {
                self.position = pos;
                Ok(Some(e))
            },
            Err(k) => Err(k),
        }
    }

    /// The bytes of the file.
    pub fn into_file(self) -> (r: Vec<u8>)
        ensures
            r@ == self.file_spec(),
    {
        self.file
    }
}

impl WALReader for FileWALReader {
    fn read_next(&mut self) -> Result<Option<HashTableEvent>, ErrorKind> {
        FileWALReader::read_next(self)
    }
}

/// The bytes of the files of a store, as read from disk.
pub struct StoreFiles {
    /// The configuration the store was created with, if it was.
    pub header: Option<HashTableConfig>,
    pub pages: Vec<u8>,
    pub pages_reg: Vec<u8>,
    pub sections_reg: Vec<u8>,
    pub indexes_reg: Vec<u8>,
    pub events_log: Vec<u8>,
}

/// The bytes of the three registry files after a full sync.
pub struct RegistrySnapshots {
    pub pages_reg: Vec<u8>,
    pub sections_reg: Vec<u8>,
    pub indexes_reg: Vec<u8>,
}

/// A hash table whose registry changes go to a write-ahead log.
pub struct ManagedHashTable {
    hash_table: BookHashTable,
    wal: FileWAL,
}

impl ManagedHashTable {
    pub closed spec fn wf(&self) -> bool {
        &&& self.hash_table.wf()
        &&& self.wal.wf()
        &&& self.hash_table.book_spec().registry_spec().journal() == Seq::<PageEvent>::empty()
        &&& self.hash_table.section_registry_spec().journal() == Seq::<SectionEvent>::empty()
        &&& self.hash_table.index_registry_spec().journal() == Seq::<IndexEvent>::empty()
    }

    /// The table.
    pub closed spec fn table(&self) -> BookHashTable {
        self.hash_table
    }

    /// The log.
    pub closed spec fn log(&self) -> FileWAL {
        self.wal
    }

    /// The entries of each section.
    pub open spec fn contents(&self) -> Seq<Seq<EntryView>> {
        self.table().contents()
    }

    /// Opens a store from the bytes of its files with `config`. A stored
    /// configuration that differs from `config` fails with `InvalidData`,
    /// and a configuration with a zero size with `InvalidInput`. The
    /// registries are loaded from their files and the log's events below
    /// its height are replayed onto them; corrupt files or events fail with
    /// the error that loading or replay meets. The table is then checked
    /// (`BookHashTable::check`), so an opened store always holds exactly
    /// the entries that its sections parse into.
    pub fn open(config: HashTableConfig, files: StoreFiles) -> (r: Result<Self, ErrorKind>)
        ensures
            !config.valid() && !(files.header matches Some(h) && h != config) ==> r == Err::<Self, ErrorKind>(ErrorKind::InvalidInput),
            (files.header matches Some(h) && h != config) ==> r == Err::<
                Self,
                ErrorKind,
            >(ErrorKind::InvalidData),
            (exists|m0: ManagedHashTable| synced_files(m0, config, files)) ==> (r matches Ok(m)
                && m.contents() == (choose|m0: ManagedHashTable| synced_files(m0, config, files)).contents()),
            r matches Ok(m) ==> m.wf() && m.table().inv() && m.table().sections() == config.section_count
                && m.table().chunk_size() == config.index_chunk_size
                && m.table().book_spec().page_size_spec() == config.page_size,
            config.valid() && !(files.header matches Some(h) && h != config) && files.pages_reg@.len()
                == 0 && files.sections_reg@.len() == 0 && files.indexes_reg@.len() == 0
                && files.events_log@.len() == 0 ==> (r matches Ok(m) && m.table().inv()
                && m.contents() == Seq::new(
                config.section_count as nat,
                |s: int| Seq::<EntryView>::empty(),
            )),
    {
        let ghost rt = exists|m0: ManagedHashTable| synced_files(m0, config, files);
        let ghost m0 = choose|m0: ManagedHashTable| synced_files(m0, config, files);
        let ghost t0 = m0.table();
        proof {
            if rt {
                t0.lemma_wf_shape();
                t0.book_spec().lemma_book_wf();
                t0.book_spec().pager_spec().lemma_size_positive();
            }
        }
        match files.header {
            Some(h) => {
                if h.page_size != config.page_size || h.section_count != config.section_count
                    || h.index_chunk_size != config.index_chunk_size {
                    return Err(ErrorKind::InvalidData);
                }
            },
            None => {},
        }
        if config.page_size == 0 || config.section_count == 0 || config.index_chunk_size == 0 {
            return Err(ErrorKind::InvalidInput);
        }
        proof {
            if rt {
                t0.lemma_wf_shape();
                t0.book_spec().lemma_book_wf();
                t0.book_spec().registry_spec().lemma_page_indices_distinct();
                t0.index_registry_spec().lemma_slots();
                crate::page_registry::lemma_page_keys_round_trip(t0.book_spec().registry_spec().keys());
                crate::index_registry::lemma_index_entries_round_trip(t0.index_registry_spec().entries());
                crate::section_registry::lemma_section_table_round_trip(t0.section_registry_spec().headers());
                crate::codec::lemma_le_round_trip();
                let ie = t0.index_registry_spec().entries();
                assert forall|i: int, j: int| 0 <= i < j < ie.len() implies ie[i].0 != ie[j].0 by {
                    assert(t0.index_registry_spec().slot(ie[i].0) == Some(i as u32));
                    assert(t0.index_registry_spec().slot(ie[j].0) == Some(j as u32));
                }
                assert(files.events_log@.subrange(0, 8) == le64(8));
            }
        }
        let pager = MemoryPager::from_bytes(config.page_size, files.pages.as_slice());
        let mut page_registry = match ManagedPageRegistry::load(files.pages_reg.as_slice()) {
            Ok(g) => g,
            Err(e) => return Err(e),
        };
        let mut section_registry = ManagedSectionRegistry::load(
            files.sections_reg.as_slice(),
            config.section_count,
        );
        let mut index_registry = match ManagedIndexRegistry::load(files.indexes_reg.as_slice()) {
            Ok(g) => g,
            Err(e) => return Err(e),
        };
        let ghost header = files.header;
        let ghost fresh = files.pages_reg@.len() == 0 && files.sections_reg@.len() == 0
            && files.indexes_reg@.len() == 0 && files.events_log@.len() == 0;
        proof {
            if fresh {
                assert forall|i: int| 0 <= i < config.section_count implies #[trigger] section_registry.headers()[i].end_offset == 0 by {
                    let full = crate::section_registry::padded(files.sections_reg@, 8 * config.section_count);
                    crate::codec::lemma_zero_u64(full.subrange(8 * i, 8 * i + 8));
                }
            }
        }
        proof {
            if rt {
                let hs = t0.section_registry_spec().headers();
                assert(section_registry.headers() =~= hs) by {
                    assert forall|i: int| 0 <= i < hs.len() implies section_registry.headers()[i] == hs[i] by {
                        assert(section_registry.headers()[i].end_offset == hs[i].end_offset);
                    }
                }
            }
        }
        let mut reader = match FileWALReader::new(files.events_log) {
            Ok(g) => g,
            Err(e) => return Err(e),
        };
        loop
            invariant
                page_registry.wf(),
                index_registry.wf(),
                reader.position_spec() <= reader.file_spec().len(),
                config.valid(),
                header == files.header,
                !(header matches Some(h) && h != config),
                pager.wf(),
                pager.size() == config.page_size,
                page_registry.journal() == Seq::<PageEvent>::empty(),
                section_registry.journal() == Seq::<SectionEvent>::empty(),
                index_registry.journal() == Seq::<IndexEvent>::empty(),
                fresh == (files.pages_reg@.len() == 0 && files.sections_reg@.len() == 0
                    && files.indexes_reg@.len() == 0 && files.events_log@.len() == 0),
                fresh ==> reader.height_spec() is None,
                fresh ==> reader.file_spec().len() == 0,
                fresh ==> page_registry.keys().len() == 0 && index_registry.entries().len() == 0
                    && forall|i: int|
                    0 <= i < config.section_count ==> #[trigger] section_registry.headers()[i].end_offset
                        == 0,
                section_registry.headers().len() == config.section_count,
                rt == (exists|m0: ManagedHashTable| synced_files(m0, config, files)),
                m0 == choose|m0: ManagedHashTable| synced_files(m0, config, files),
                t0 == m0.table(),
                rt ==> synced_files(m0, config, files),
                rt ==> reader.height_spec() == Some(8u64) && reader.position_spec() == 8
                    && reader.file_spec() == files.events_log@,
                rt ==> page_registry.keys() == t0.book_spec().registry_spec().keys()
                    && section_registry.headers() == t0.section_registry_spec().headers()
                    && index_registry.entries() == t0.index_registry_spec().entries(),
                forall|p: int, o: int|
                    0 <= p && 0 <= o < config.page_size ==> #[trigger] pager.byte(p, o) == if p * config.page_size + o
                        < files.pages@.len() {
                        files.pages@[p * config.page_size + o]
                    } else {
                        0u8
                    },
            decreases reader.file_spec().len() - reader.position_spec(),
        {
            let event = match reader.read_next() {
                Ok(Some(e)) => e,
                Ok(None) => break,
                Err(e) => return Err(e),
            };
            let applied = match event {
                HashTableEvent::PageEvent(p) => page_registry.apply(p),
                HashTableEvent::SectionEvent(s) => section_registry.apply(s),
                HashTableEvent::IndexEvent(i) => index_registry.apply(i),
            };
            match applied {
                Ok(()) => {},
                Err(e) => return Err(e),
            }
        }
        let wal = match FileWAL::load(reader.into_file()) {
            Ok(w) => w,
            Err(e) => return Err(e),
        };
        let ghost old_pager = pager;
        let book = PagerBook::new(pager, page_registry);
        let hash_table = BookHashTable::new(
            PrefixHasherBuilder,
            book,
            config.section_count,
            section_registry,
            config.index_chunk_size,
            index_registry,
        );
        proof {
            if rt {
                hash_table.lemma_wf_shape();
                hash_table.book_spec().lemma_book_wf();
                t0.book_spec().registry_spec().lemma_same_keys_same_lookup(&hash_table.book_spec().registry_spec());
                t0.index_registry_spec().lemma_same_entries_same_slot(&hash_table.index_registry_spec());
                t0.book_spec().lemma_same_book_bytes(&hash_table.book_spec());
                t0.lemma_holds_own();
                t0.lemma_same_views_hold(&hash_table, t0.contents());
            }
        }
        let ghost built = hash_table;
        let hash_table = match hash_table.check() {
            Ok(t) => t,
            Err(e) => return Err(e),
        };
        proof {
            if rt {
                built.lemma_holds_unique(hash_table.contents(), t0.contents());
            }
        }
        Ok(ManagedHashTable { hash_table, wal })
    }
}


impl ManagedHashTable {
    /// Appends the registries' journals to the log: page assignments, then
    /// section ends, then chunk headers, each in the order they were made;
    /// the journals are then empty.
    fn record_journals(&mut self) -> (r: Result<(), ErrorKind>)
        requires
            old(self).hash_table.wf(),
            old(self).wal.wf(),
        ensures
            final(self).wf(),
            final(self).contents() == old(self).contents(),
            final(self).table().sections() == old(self).table().sections(),
            final(self).table().chunk_size() == old(self).table().chunk_size(),
            final(self).table().book_spec().page_size_spec() == old(self).table().book_spec().page_size_spec(),
            final(self).table().book_spec().registry_spec().keys() == old(self).table().book_spec().registry_spec().keys(),
            final(self).table().section_registry_spec().headers() == old(self).table().section_registry_spec().headers(),
            forall|k: crate::index_registry::IndexKey| #[trigger] final(self).table().index_registry_spec().slot(k) == old(self).table().index_registry_spec().slot(k),
            final(self).table().index_registry_spec().entries() == old(self).table().index_registry_spec().entries(),
            old(self).table().inv() ==> final(self).table().inv(),
            r is Err ==> r == Err::<(), ErrorKind>(ErrorKind::InvalidInput),
            ({
                let es = journal_events(
                    old(self).table().book_spec().registry_spec().journal(),
                    old(self).table().section_registry_spec().journal(),
                    old(self).table().index_registry_spec().journal(),
                );
                &&& r is Ok ==> final(self).log().logged(old(self).log(), es)
                &&& old(self).log().height_spec() + log_bytes(es).len() <= usize::MAX ==> r is Ok
            }),
    {
        let ghost before = *self;
        let (pages, sections, indexes) = self.hash_table.take_journals();
        let mut events: Vec<HashTableEvent> = Vec::new();
        let mut i: usize = 0;
        while i < pages.len()
            invariant
                i <= pages@.len(),
                events@ == pages@.subrange(0, i as int).map_values(|e: PageEvent| HashTableEvent::PageEvent(e)),
            decreases pages@.len() - i,
        {
            events.push(HashTableEvent::PageEvent(pages[i]));
            i = i + 1;
            assert(events@ =~= pages@.subrange(0, i as int).map_values(|e: PageEvent| HashTableEvent::PageEvent(e)));
        }
        assert(pages@.subrange(0, i as int) =~= pages@);
        let ghost pm = events@;
        let mut i: usize = 0;
        while i < sections.len()
            invariant
                i <= sections@.len(),
                events@ == pm + sections@.subrange(0, i as int).map_values(|e: SectionEvent| HashTableEvent::SectionEvent(e)),
            decreases sections@.len() - i,
        {
            events.push(HashTableEvent::SectionEvent(sections[i]));
            i = i + 1;
            assert(events@ =~= pm + sections@.subrange(0, i as int).map_values(|e: SectionEvent| HashTableEvent::SectionEvent(e)));
        }
        assert(sections@.subrange(0, i as int) =~= sections@);
        let ghost sm = events@;
        let mut i: usize = 0;
        while i < indexes.len()
            invariant
                i <= indexes@.len(),
                events@ == sm + indexes@.subrange(0, i as int).map_values(|e: IndexEvent| HashTableEvent::IndexEvent(e)),
            decreases indexes@.len() - i,
        {
            events.push(HashTableEvent::IndexEvent(indexes[i]));
            i = i + 1;
            assert(events@ =~= sm + indexes@.subrange(0, i as int).map_values(|e: IndexEvent| HashTableEvent::IndexEvent(e)));
        }
        assert(indexes@.subrange(0, i as int) =~= indexes@);
        assert(events@ =~= journal_events(pages@, sections@, indexes@));
        self.wal.record_all(&events)
    }

    /// Inserts `(key, value)` as `BookHashTable::insert` does, then appends
    /// the registry changes it made to the log, as `log_of_insert` gives
    /// them. Fails with `InvalidInput` where the table's insert does,
    /// holding the same entries; or, with the entry held, when the log
    /// cannot grow. It succeeds when the entry fits the table
    /// (`insert_fits`) and the log has room for 30 bytes for each page
    /// the entry may take and for its section and chunk changes.
    pub fn insert(&mut self, key: &[u8], value: &[u8]) -> (r: Result<(), ErrorKind>)
        requires
            old(self).wf(),
        ensures
            final(self).wf(),
            final(self).table().sections() == old(self).table().sections(),
            old(self).table().inv() ==> final(self).table().inv(),
            ({
                let s = old(self).table().section_of(key@) as int;
                let pushed = old(self).contents().update(
                    s,
                    old(self).contents()[s].push((key@, value@)),
                );
                &&& r is Ok ==> final(self).contents() == pushed
                &&& r is Ok ==> final(self).log().logged(
                    old(self).log(),
                    log_of_insert(old(self).table(), final(self).table(), key@, value@),
                )
                &&& r is Err ==> r == Err::<(), ErrorKind>(ErrorKind::InvalidInput) && (final(self).contents() == old(self).contents() || final(self).contents() == pushed)
                &&& insert_fits(old(self).table(), key@, value@) && old(self).log().height_spec() + 30
                    * (10 + key@.len() + value@.len()) <= usize::MAX ==> r is Ok
            }),
    {
        let inserted = self.hash_table.insert(key, value);
        let recorded = self.record_journals();
        proof {
            let t0 = old(self).hash_table;
            let es = log_of_insert(t0, self.hash_table, key@, value@);
            lemma_log_len(es);
        }
        match inserted {
            Err(e) => Err(e),
            Ok(()) => recorded,
        }
    }

    /// A scan of the entries that `filter` selects; see
    /// `BookHashTable::scan`.
    pub fn scan<'a>(&'a self, filter: HashTableScanFilter) -> (r: HashTableScanner<'a>)
        requires
            self.wf(),
        ensures
            r.wf(),
            *r.table_spec() == self.table(),
            r.filter_key() == filter.key_spec(),
            r.seen() == Seq::<EntryView>::empty(),
    {
        self.hash_table.scan(filter)
    }

    /// Makes the log durable up to its height: writes the height into the
    /// log's first bytes. The caller then writes the pages and the log's
    /// bytes to their files and flushes them.
    pub fn sync(&mut self)
        requires
            old(self).wf(),
        ensures
            final(self).wf(),
            final(self).table() == old(self).table(),
            final(self).log().height_spec() == old(self).log().height_spec(),
            final(self).log().file_spec() == le64(old(self).log().height_spec()) + old(self).log().file_spec().subrange(8, old(self).log().file_spec().len() as int),
    {
        self.wal.sync();
    }

    /// Syncs, then compacts each registry into the bytes of its file and
    /// empties the log. The caller writes the pages and the returned files,
    /// flushes them, and only then writes the emptied log.
    pub fn full_sync(&mut self) -> (r: RegistrySnapshots)
        requires
            old(self).wf(),
        ensures
            final(self).wf(),
            final(self).table() == old(self).table(),
            final(self).log().height_spec() == LOG_START,
            r.pages_reg@ == crate::page_registry::page_keys_bytes(
                old(self).table().book_spec().registry_spec().keys(),
            ),
            r.sections_reg@ == crate::section_registry::section_table_bytes(
                old(self).table().section_registry_spec().headers(),
            ),
            r.indexes_reg@ == crate::index_registry::index_entries_bytes(
                old(self).table().index_registry_spec().entries(),
            ),
    {
        self.sync();
        let pages_reg = self.hash_table.book().registry().snapshot();
        let sections_reg = self.hash_table.section_registry().snapshot();
        let indexes_reg = self.hash_table.index_registry().snapshot();
        self.wal.clear();
        RegistrySnapshots { pages_reg, sections_reg, indexes_reg }
    }

    /// The table.
    pub fn hash_table(&self) -> (r: &BookHashTable)
        ensures
            *r == self.table(),
    {
        &self.hash_table
    }

    /// The backed pages; page `p` belongs at `p * page_size` of the page
    /// file.
    pub fn pages(&self) -> (r: &Vec<Vec<u8>>)
        requires
            self.wf(),
        ensures
            r@.len() == self.table().book_spec().pager_spec().backed(),
            forall|p: int, o: int|
                0 <= p < r@.len() && 0 <= o < self.table().book_spec().pager_spec().size() ==> #[trigger] r@[p]@[o]
                    == self.table().book_spec().pager_spec().byte(p, o),
    {
        self.hash_table.book().pager().pages()
    }

    /// The bytes of the log file.
    pub fn events_log(&self) -> (r: &Vec<u8>)
        ensures
            r@ == self.log().file_spec(),
    {
        self.wal.bytes()
    }
}

} // verus!
