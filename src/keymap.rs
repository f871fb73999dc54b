use vstd::bytes::{spec_u64_from_le_bytes, u64_from_le_bytes};
use vstd::prelude::*;

use crate::block::BlockStorage;
use crate::codec::{le16, lemma_le_round_trip, put_u16};
use crate::hash_table::bytes_equal;
use crate::heap::{
    part_written, plan_covers, untouched, FastHeapEntryReader, FastHeapIterator, FastHeapStorage,
    HeapStorageError, PartView,
};
use crate::section_registry::padded;

verus! {

/// What went wrong in an operation on the key map.
#[derive(Clone, Copy, Debug, PartialEq, Eq, Structural)]
pub enum KeyMapError {
    /// An error of the heap underneath.
    HeapStorageError(HeapStorageError),
    /// A buffer too small for what it must hold.
    BufferTooSmall,
    /// An entry that ends before its key does.
    UnexpectedEof,
    /// A read that the entry reader's state does not allow.
    InvalidState,
}

/// The page where the search for a key starts: its first eight bytes,
/// zero-padded, read as a little-endian number.
pub open spec fn key_start(key: Seq<u8>) -> u64 {
    spec_u64_from_le_bytes(padded(key, 8))
}

/// The first eight bytes of `bytes`, zero-padded, as a little-endian number.
pub fn to_u64(bytes: &[u8]) -> (r: u64)
    ensures
        r == key_start(bytes@),
{
    let mut array: Vec<u8> = Vec::new();
    let mut i: usize = 0;
    while i < 8
        invariant
            i <= 8,
            array@ == padded(bytes@, 8).subrange(0, i as int),
        decreases 8 - i,
    {
        if i < bytes.len() {
            array.push(bytes[i]);
        } else {
            array.push(0u8);
        }
        i = i + 1;
        assert(array@ =~= padded(bytes@, 8).subrange(0, i as int));
    }
    assert(array@ =~= padded(bytes@, 8));
    u64_from_le_bytes(array.as_slice())
}

/// The bytes of an entry: the key's length as a little-endian `u16`, the
/// key, the value.
pub open spec fn entry_bytes_of(key: Seq<u8>, value: Seq<u8>) -> Seq<u8> {
    le16(key.len() as u16) + key + value
}

/// A key and a value to store.
pub struct Entry<'a> {
    pub key: &'a [u8],
    pub value: &'a [u8],
}

impl<'a> Entry<'a> {
    /// The number of bytes of the entry.
    pub fn size(&self) -> (r: usize)
        requires
            2 + self.key@.len() + self.value@.len() <= usize::MAX,
        ensures
            r == 2 + self.key@.len() + self.value@.len(),
    {
        2 + self.key.len() + self.value.len()
    }

    /// The bytes of the entry.
    pub fn encode(&self) -> (r: Vec<u8>)
        requires
            self.key@.len() <= u16::MAX,
        ensures
            r@ == entry_bytes_of(self.key@, self.value@),
    {
        let mut buffer: Vec<u8> = Vec::new();
        put_u16(&mut buffer, self.key.len() as u16);
        let ghost head = buffer@;
        let mut i: usize = 0;
        while i < self.key.len()
            invariant
                i <= self.key@.len(),
                buffer@ == head + self.key@.subrange(0, i as int),
            decreases self.key@.len() - i,
        {
            buffer.push(self.key[i]);
            i = i + 1;
            assert(buffer@ =~= head + self.key@.subrange(0, i as int));
        }
        let ghost mid = buffer@;
        let mut j: usize = 0;
        while j < self.value.len()
            invariant
                j <= self.value@.len(),
                buffer@ == mid + self.value@.subrange(0, j as int),
            decreases self.value@.len() - j,
        {
            buffer.push(self.value[j]);
            j = j + 1;
            assert(buffer@ =~= mid + self.value@.subrange(0, j as int));
        }
        assert(self.key@.subrange(0, self.key@.len() as int) =~= self.key@);
        assert(self.value@.subrange(0, self.value@.len() as int) =~= self.value@);
        assert(buffer@ =~= entry_bytes_of(self.key@, self.value@));
        buffer
    }
}

/// A multi-map of keys to values over a heap: each entry is stored as one
/// heap entry, placed from the page its key picks.
pub struct HeapKeyMap<H, P> {
    heap: FastHeapStorage<H, P>,
}

impl<H: BlockStorage, P: BlockStorage> HeapKeyMap<H, P> {
    /// The heap.
    pub closed spec fn heap_spec(&self) -> FastHeapStorage<H, P> {
        self.heap
    }

    /// A key map over `heap`.
    pub fn new(heap: FastHeapStorage<H, P>) -> (r: Self)
        ensures
            r.heap_spec() == heap,
    {
        HeapKeyMap { heap }
    }

    /// The heap.
    pub fn heap(&self) -> (r: &FastHeapStorage<H, P>)
        ensures
            *r == self.heap_spec(),
    {
        &self.heap
    }

    /// Stores `(key, value)` as a heap entry placed from page
    /// `key_start(key) % page_count`. Fails as the heap's insert does,
    /// changing nothing.
    pub fn insert(&mut self, key: &[u8], value: &[u8]) -> (r: Result<(), KeyMapError>)
        requires
            old(self).heap_spec().wf(),
            old(self).heap_spec().pages_spec().count_spec() > 0,
            key@.len() <= u16::MAX,
            2 + key@.len() + value@.len() <= usize::MAX,
        ensures
            final(self).heap_spec().wf(),
            r is Err ==> *final(self) == *old(self),
            ({
                let count = old(self).heap_spec().pages_spec().count_spec();
                let desired = (key_start(key@) % (count as u64)) as int;
                old(self).heap_spec().pages_spec().occupied(desired) + crate::heap::HEADER_SIZE + 2
                    + key@.len() + value@.len() + 1 <= old(self).heap_spec().pages_spec().size_spec()
                    ==> r is Ok
            }),
            r is Ok ==> exists|plan: Seq<PartView>|
                #[trigger] plan_covers(
                    plan,
                    entry_bytes_of(key@, value@),
                    old(self).heap_spec().pages_spec().count_spec() as int,
                ) && (forall|k: int|
                    0 <= k < plan.len() ==> #[trigger] part_written(
                        old(self).heap_spec().pages_spec(),
                        final(self).heap_spec().pages_spec(),
                        plan,
                        entry_bytes_of(key@, value@),
                        k,
                    )) && untouched(
                    old(self).heap_spec().pages_spec(),
                    final(self).heap_spec().pages_spec(),
                    plan,
                    plan.len() as int,
                ),
    {
        let entry = Entry { key, value };
        let buffer = entry.encode();
        let count = self.heap.page_count();
        let desired_page_index = (to_u64(key) % count as u64) as usize;
        proof {
            lemma_le_round_trip();
            assert(buffer@.len() == 2 + key@.len() + value@.len());
        }
        match self.heap.insert_entry(desired_page_index, buffer.as_slice()) {
            Ok(()) => Ok(()),
            Err(e) => Err(KeyMapError::HeapStorageError(e)),
        }
    }

    /// The entries whose key is `key`, or every entry; the walk starts at
    /// the page the key picks, or at page 0.
    pub fn iter(&self, key: Option<Vec<u8>>) -> (r: Result<HeapKeyMapIterator, KeyMapError>)
        requires
            self.heap_spec().wf(),
            self.heap_spec().pages_spec().count_spec() > 0,
        ensures
            r matches Ok(it) && it.wf(self.heap_spec()) && it.key_spec() == key,
    {
        let count = self.heap.page_count();
        let start_page_index = match &key {
            Some(k) => (to_u64(k.as_slice()) % count as u64) as usize,
            None => 0,
        };
        let heap_iterator = match self.heap.iter_entries(start_page_index) {
            Ok(it) => it,
            Err(e) => return Err(KeyMapError::HeapStorageError(e)),
        };
        Ok(HeapKeyMapIterator { heap_iterator, key })
    }
}

/// Walks the entries of a key map, keeping those with the key sought.
pub struct HeapKeyMapIterator {
    heap_iterator: FastHeapIterator,
    key: Option<Vec<u8>>,
}

/// What an entry reader reads next.
pub enum HeapKeyMapEntryReaderState {
    /// Nothing read yet.
    New,
    /// The key, of which `remaining` bytes are left.
    ReadingKey { remaining: usize },
    /// The key, already known to be `key`; what is left of it.
    ReadingFromKeyBuffer { key: Vec<u8> },
    /// The value.
    ReadingValue,
}

/// Reads the key and the value of one entry.
pub struct HeapKeyMapEntryReader {
    state: HeapKeyMapEntryReaderState,
    heap_reader: FastHeapEntryReader,
}

impl HeapKeyMapIterator {
    pub closed spec fn wf<H: BlockStorage, P: BlockStorage>(&self, heap: FastHeapStorage<H, P>) -> bool {
        self.heap_iterator.wf(heap)
    }

    /// The key sought, if any.
    pub closed spec fn key_spec(&self) -> Option<Vec<u8>> {
        self.key
    }

    /// The next entry with the key sought, or the next entry when no key
    /// is sought; `None` after the last. An entry that ends inside its key
    /// is corrupt (`UnexpectedEof`).
    pub fn next<H: BlockStorage, P: BlockStorage>(&mut self, map: &HeapKeyMap<H, P>) -> (r: Result<
        Option<HeapKeyMapEntryReader>,
        KeyMapError,
    >)
        requires
            old(self).wf(map.heap_spec()),
        ensures
            final(self).wf(map.heap_spec()),
            final(self).key_spec() == old(self).key_spec(),
            r matches Ok(Some(reader)) ==> reader.wf(map.heap_spec()) && match old(self).key_spec() {
                Some(k) => reader.key_buffer() == Some(k@),
                None => reader.is_new(),
            },
    {
        let heap = map.heap();
        proof {
            self.heap_iterator.lemma_progress_bounds(*heap);
        }
        loop
            invariant
                self.wf(*heap),
                *heap == map.heap_spec(),
                self.key == old(self).key,
                self.heap_iterator.pages_left(*heap) >= 0,
                self.heap_iterator.bytes_left(*heap) >= 0,
            decreases self.heap_iterator.pages_left(*heap), self.heap_iterator.bytes_left(*heap),
        {
            let heap_reader = match self.heap_iterator.next(heap) {
                Ok(Some(r)) => r,
                Ok(None) => return Ok(None),
                Err(e) => return Err(KeyMapError::HeapStorageError(e)),
            };
            let mut entry = HeapKeyMapEntryReader { state: HeapKeyMapEntryReaderState::New, heap_reader };
            match &self.key {
                None => return Ok(Some(entry)),
                Some(key) => {
                    let head = match entry.read_exact_heap(heap, 2) {
                        Ok(h) => h,
                        Err(e) => return Err(e),
                    };
                    let key_size = head[0] as usize + 256 * head[1] as usize;
                    if key_size != key.len() {
                        continue;
                    }
                    let stored = match entry.read_exact_heap(heap, key_size) {
                        Ok(k) => k,
                        Err(e) => return Err(e),
                    };
                    if !bytes_equal(stored.as_slice(), key.as_slice()) {
                        continue;
                    }
                    entry.state = HeapKeyMapEntryReaderState::ReadingFromKeyBuffer { key: stored };
                    return Ok(Some(entry));
                },
            }
        }
    }
}


impl HeapKeyMapEntryReader {
    pub closed spec fn wf<H: BlockStorage, P: BlockStorage>(&self, heap: FastHeapStorage<H, P>) -> bool {
        self.heap_reader.wf(heap)
    }

    /// Nothing was read yet.
    pub closed spec fn is_new(&self) -> bool {
        self.state is New
    }

    /// The key still to be read, where it is already known.
    pub closed spec fn key_buffer(&self) -> Option<Seq<u8>> {
        match self.state {
            HeapKeyMapEntryReaderState::ReadingFromKeyBuffer { key } => Some(key@),
            _ => None,
        }
    }

    /// The key is read.
    pub closed spec fn reading_value(&self) -> bool {
        self.state is ReadingValue
    }

    /// Reads exactly `n` bytes of the entry; `UnexpectedEof` when it ends
    /// first.
    fn read_exact_heap<H: BlockStorage, P: BlockStorage>(&mut self, heap: &FastHeapStorage<H, P>, n: usize) -> (r: Result<
        Vec<u8>,
        KeyMapError,
    >)
        requires
            old(self).wf(*heap),
        ensures
            final(self).wf(*heap),
            final(self).state == old(self).state,
            r matches Ok(v) ==> v@.len() == n,
    {
        let mut out: Vec<u8> = Vec::new();
        while out.len() < n
            invariant
                self.wf(*heap),
                self.state == old(self).state,
                out@.len() <= n,
            decreases n - out@.len(),
        {
            let part = match self.heap_reader.read(heap, n - out.len()) {
                Ok(p) => p,
                Err(e) => return Err(KeyMapError::HeapStorageError(e)),
            };
            if part.len() == 0 {
                return Err(KeyMapError::UnexpectedEof);
            }
            let ghost start_len = out@.len();
            let mut i: usize = 0;
            while i < part.len()
                invariant
                    i <= part@.len(),
                    part@.len() <= n - start_len,
                    out@.len() == start_len + i,
                    start_len < n,
                decreases part@.len() - i,
            {
                out.push(part[i]);
                i = i + 1;
            }
        }
        Ok(out)
    }

    /// Gets ready to read the key: a new reader reads the key's length.
    /// After the key, the key cannot be read (`InvalidState`).
    pub fn key<H: BlockStorage, P: BlockStorage>(&mut self, heap: &FastHeapStorage<H, P>) -> (r: Result<(), KeyMapError>)
        requires
            old(self).wf(*heap),
        ensures
            final(self).wf(*heap),
            old(self).reading_value() ==> r == Err::<(), KeyMapError>(KeyMapError::InvalidState),
            r is Ok ==> !final(self).is_new() && !final(self).reading_value(),
            !old(self).is_new() && !old(self).reading_value() ==> r is Ok && *final(self) == *old(self),
    {
        match &self.state {
            HeapKeyMapEntryReaderState::New => {
                let head = match self.read_exact_heap(heap, 2) {
                    Ok(h) => h,
                    Err(e) => return Err(e),
                };
                let key_size = head[0] as usize + 256 * head[1] as usize;
                self.state = HeapKeyMapEntryReaderState::ReadingKey { remaining: key_size };
                Ok(())
            },
            HeapKeyMapEntryReaderState::ReadingKey { .. } => Ok(()),
            HeapKeyMapEntryReaderState::ReadingFromKeyBuffer { .. } => Ok(()),
            HeapKeyMapEntryReaderState::ReadingValue => Err(KeyMapError::InvalidState),
        }
    }

    /// Gets ready to read the value, passing over what is left of the key.
    pub fn value<H: BlockStorage, P: BlockStorage>(&mut self, heap: &FastHeapStorage<H, P>) -> (r: Result<(), KeyMapError>)
        requires
            old(self).wf(*heap),
        ensures
            final(self).wf(*heap),
            r is Ok ==> final(self).reading_value(),
    {
        if let HeapKeyMapEntryReaderState::New = self.state {
            match self.key(heap) {
                Ok(()) => {},
                Err(e) => return Err(e),
            }
        }
        let remaining = match &self.state {
            HeapKeyMapEntryReaderState::ReadingKey { remaining } => *remaining,
            _ => 0,
        };
        if remaining > 0 {
            match self.read_exact_heap(heap, remaining) {
                Ok(_) => {},
                Err(e) => return Err(e),
            }
        }
        self.state = HeapKeyMapEntryReaderState::ReadingValue;
        Ok(())
    }

    /// Reads up to `len` bytes of the key or the value, whichever the
    /// reader is at. A new reader reads nothing (`InvalidState`).
    pub fn read<H: BlockStorage, P: BlockStorage>(&mut self, heap: &FastHeapStorage<H, P>, len: usize) -> (r: Result<
        Vec<u8>,
        KeyMapError,
    >)
        requires
            old(self).wf(*heap),
        ensures
            final(self).wf(*heap),
            old(self).is_new() ==> r == Err::<Vec<u8>, KeyMapError>(KeyMapError::InvalidState),
            r matches Ok(v) ==> v@.len() <= len,
            old(self).key_buffer() matches Some(k) ==> (r matches Ok(v) && v@ == k.subrange(
                0,
                v@.len() as int,
            ) && final(self).key_buffer() == Some(k.subrange(v@.len() as int, k.len() as int))),
    {
        match &mut self.state {
            HeapKeyMapEntryReaderState::New => Err(KeyMapError::InvalidState),
            HeapKeyMapEntryReaderState::ReadingKey { remaining } => {
                let want = if len < *remaining {
                    len
                } else {
                    *remaining
                };
                let bytes = match self.heap_reader.read(heap, want) {
                    Ok(b) => b,
                    Err(e) => return Err(KeyMapError::HeapStorageError(e)),
                };
                let left = *remaining - bytes.len();
                self.state = HeapKeyMapEntryReaderState::ReadingKey { remaining: left };
                Ok(bytes)
            },
            HeapKeyMapEntryReaderState::ReadingFromKeyBuffer { key } => {
                let n = if len < key.len() {
                    len
                } else {
                    key.len()
                };
                let mut out: Vec<u8> = Vec::new();
                let mut rest: Vec<u8> = Vec::new();
                let mut i: usize = 0;
                while i < key.len()
                    invariant
                        n <= key@.len(),
                        i <= key@.len(),
                        out@ == key@.subrange(0, if i < n { i as int } else { n as int }),
                        rest@ == if i <= n { Seq::<u8>::empty() } else { key@.subrange(n as int, i as int) },
                    decreases key@.len() - i,
                {
                    if i < n {
                        out.push(key[i]);
                    } else {
                        rest.push(key[i]);
                    }
                    i = i + 1;
                    assert(out@ =~= key@.subrange(0, if i < n { i as int } else { n as int }));
                    assert(rest@ =~= if i <= n { Seq::<u8>::empty() } else { key@.subrange(n as int, i as int) });
                }
                assert(rest@ =~= key@.subrange(n as int, key@.len() as int));
                self.state = HeapKeyMapEntryReaderState::ReadingFromKeyBuffer { key: rest };
                Ok(out)
            },
            HeapKeyMapEntryReaderState::ReadingValue => {
                match self.heap_reader.read(heap, len) {
                    Ok(b) => Ok(b),
                    Err(e) => Err(KeyMapError::HeapStorageError(e)),
                }
            },
        }
    }
}

} // verus!

verus! {

/// The shape of a key map's pages file: `page_count` pages of
/// `block_size` bytes, after enough header blocks for two bytes per page.
#[derive(Clone, Copy, Debug, PartialEq, Eq, Structural)]
pub struct KeyMapConfig {
    pub block_size: usize,
    pub page_count: usize,
}

/// Why a key map could not be opened.
#[derive(Clone, Copy, Debug, PartialEq, Eq, Structural)]
pub enum KeyMapOpenError {
    /// The file's size is not that of the configured blocks.
    FileSizeMismatch,
    /// An error of the page storage.
    PageStorageError(crate::page::PageStorageError),
    /// An error of a block storage.
    MemoryBlockStorageError(crate::block::MemoryBlockStorageError),
}

impl KeyMapConfig {
    /// The number of header blocks: two bytes per page, rounded up to
    /// whole blocks.
    pub fn header_block_count(&self) -> (r: usize)
        requires
            self.block_size > 0,
            2 * self.page_count <= usize::MAX,
        ensures
            r == (2 * self.page_count + self.block_size - 1) / (self.block_size as int),
    {
        let bytes = self.page_count * crate::page::OCCUPIED_SIZE_BYTES;
        let r = bytes / self.block_size + if bytes % self.block_size != 0 {
            1
        } else {
            0
        };
        proof {
            let (b, z) = (bytes as int, self.block_size as int);
            vstd::arithmetic::div_mod::lemma_fundamental_div_mod(b, z);
            let (q, m) = (b / z, b % z);
            assert(q * z == z * q) by (nonlinear_arith);
            assert((q + 1) * z == z * q + z) by (nonlinear_arith);
            if m != 0 {
                vstd::arithmetic::div_mod::lemma_fundamental_div_mod_converse(b + z - 1, z, q + 1, m - 1);
            } else {
                vstd::arithmetic::div_mod::lemma_fundamental_div_mod_converse(b + z - 1, z, q, z - 1);
            }
        }
        r
    }

    /// The size of the pages file: the header blocks, then the pages.
    pub fn file_size(&self) -> (r: Option<usize>)
        requires
            self.block_size > 0,
            2 * self.page_count <= usize::MAX,
        ensures
            ({
                let h = (2 * self.page_count + self.block_size - 1) / (self.block_size as int);
                let total = (h + self.page_count) * self.block_size;
                &&& total <= usize::MAX ==> r == Some(total as usize)
                &&& total > usize::MAX ==> r is None
            }),
    {
        let header = self.header_block_count();
        if header > usize::MAX - self.page_count {
            proof {
                let t = (header + self.page_count) as int;
                assert(t * self.block_size >= t) by (nonlinear_arith)
                    requires
                        self.block_size > 0,
                        t >= 0,
                ;
            }
            return None;
        }
        let blocks = header + self.page_count;
        if blocks > usize::MAX / self.block_size {
            proof {
                vstd::arithmetic::div_mod::lemma_fundamental_div_mod(usize::MAX as int, self.block_size as int);
                let (q, z) = (usize::MAX as int / self.block_size as int, self.block_size as int);
                assert(blocks * z >= (q + 1) * z) by (nonlinear_arith)
                    requires
                        blocks >= q + 1,
                        z > 0,
                ;
                assert((q + 1) * z == z * q + z) by (nonlinear_arith);
            }
            return None;
        }
        proof {
            vstd::arithmetic::div_mod::lemma_fundamental_div_mod(usize::MAX as int, self.block_size as int);
            let (q, z) = (usize::MAX as int / self.block_size as int, self.block_size as int);
            assert(blocks * z <= q * z) by (nonlinear_arith)
                requires
                    blocks <= q,
                    z > 0,
            ;
            assert(q * z == z * q) by (nonlinear_arith);
        }
        Some(blocks * self.block_size)
    }
}

} // verus!

verus! {

/// The bytes of `b` in `[from, to)`, copied.
fn copy_range(b: &Vec<u8>, from: usize, to: usize) -> (r: Vec<u8>)
    requires
        from <= to <= b@.len(),
    ensures
        r@ == b@.subrange(from as int, to as int),
{
    let mut out: Vec<u8> = Vec::new();
    let mut i: usize = from;
    while i < to
        invariant
            from <= i <= to,
            to <= b@.len(),
            out@ == b@.subrange(from as int, i as int),
        decreases to - i,
    {
        out.push(b[i]);
        i = i + 1;
        assert(out@ =~= b@.subrange(from as int, i as int));
    }
    out
}

/// A key map over the bytes of its pages file: the header blocks first,
/// then the pages. An empty file stands for a new, zeroed one; a file of
/// another size than the configuration gives is refused
/// (`FileSizeMismatch`), as is a configuration whose file would not fit in
/// memory.
pub fn open_key_map(file: Vec<u8>, config: KeyMapConfig) -> (r: Result<
    HeapKeyMap<crate::block::MemoryBlockStorage, crate::block::MemoryBlockStorage>,
    KeyMapOpenError,
>)
    requires
        config.block_size > 0,
        2 * config.page_count <= usize::MAX,
    ensures
        r matches Ok(m) ==> m.heap_spec().wf(),
        ({
            let h = (2 * config.page_count + config.block_size - 1) / (config.block_size as int);
            let total = (h + config.page_count) * config.block_size;
            file@.len() != 0 && file@.len() != total ==> r == Err::<
                HeapKeyMap<crate::block::MemoryBlockStorage, crate::block::MemoryBlockStorage>,
                KeyMapOpenError,
            >(KeyMapOpenError::FileSizeMismatch)
        }),
{
    let total = match config.file_size() {
        Some(t) => t,
        None => return Err(KeyMapOpenError::FileSizeMismatch),
    };
    let bytes = if file.len() == 0 {
        crate::pager::zeros(total)
    } else if file.len() != total {
        return Err(KeyMapOpenError::FileSizeMismatch);
    } else {
        file
    };
    let header_blocks = config.header_block_count();
    proof {
        let (h, n, z) = (header_blocks as int, config.page_count as int, config.block_size as int);
        assert(h * z <= (h + n) * z) by (nonlinear_arith)
            requires
                n >= 0,
                z > 0,
        ;
    }
    let split = header_blocks * config.block_size;
    let header_bytes = copy_range(&bytes, 0, split);
    let page_bytes = copy_range(&bytes, split, total);
    let header = match crate::block::MemoryBlockStorage::from_buffer(header_bytes, config.block_size) {
        Ok(s) => s,
        Err(e) => return Err(KeyMapOpenError::MemoryBlockStorageError(e)),
    };
    let pages = match crate::block::MemoryBlockStorage::from_buffer(page_bytes, config.block_size) {
        Ok(s) => s,
        Err(e) => return Err(KeyMapOpenError::MemoryBlockStorageError(e)),
    };
    let page_storage = match crate::page::FastPageStorage::new(header, pages) {
        Ok(s) => s,
        Err(e) => return Err(KeyMapOpenError::PageStorageError(e)),
    };
    if page_storage.page_count() as u64 > u32::MAX as u64 {
        return Err(KeyMapOpenError::FileSizeMismatch);
    }
    Ok(HeapKeyMap::new(FastHeapStorage::new(page_storage)))
}

} // verus!
