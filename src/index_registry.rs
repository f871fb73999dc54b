use std::collections::HashMap;
use vstd::prelude::*;

use crate::book::SectionIndex;
use crate::codec::{get32, get64, le32, le64, put_u32, put_u64, take_u32, take_u64, take_u8};
use crate::error::ErrorKind;
use crate::page_registry::PAGE_INDEX_COUNT;

verus! {

broadcast use vstd::std_specs::hash::group_hash_axioms;

/// The index of a chunk of a section: offset divided by the chunk size.
pub type IndexChunk = u32;

/// The size of an index chunk, in bytes.
pub type IndexChunkSize = u32;

/// A chunk of a section.
#[derive(Clone, Copy, Debug, PartialEq, Eq, Structural)]
pub struct IndexKey {
    pub section_index: SectionIndex,
    pub index_chunk: IndexChunk,
}

/// What the registry records of a chunk: a bloom filter of the keys of the
/// entries that start in it, and the offset of the first of them.
#[derive(Clone, Copy, Debug, PartialEq, Eq, Structural)]
pub struct IndexHeader {
    pub bloom_filter: u64,
    pub first_entry_offset: u64,
}

/// The map key of an index key: section index in the high half, chunk in
/// the low half.
pub open spec fn index_key_code(k: IndexKey) -> int {
    k.section_index as int * 0x1_0000_0000 + k.index_chunk as int
}

fn key_code(k: &IndexKey) -> (r: u64)
    ensures
        r == index_key_code(*k),
{
    (k.section_index as u64) * 0x1_0000_0000u64 + k.index_chunk as u64
}

proof fn lemma_code_injective(a: IndexKey, b: IndexKey)
    requires
        index_key_code(a) == index_key_code(b),
    ensures
        a == b,
{
    let (sa, sb) = (a.section_index as int, b.section_index as int);
    if sa < sb {
        assert(sa * 0x1_0000_0000 + 0x1_0000_0000 <= sb * 0x1_0000_0000) by (nonlinear_arith)
            requires
                sa < sb,
        ;
    } else if sb < sa {
        assert(sb * 0x1_0000_0000 + 0x1_0000_0000 <= sa * 0x1_0000_0000) by (nonlinear_arith)
            requires
                sb < sa,
        ;
    }
}

/// A journal entry of the index registry.
#[derive(Clone, Copy, Debug, PartialEq, Eq, Structural)]
pub enum IndexEvent {
    /// The entry in slot `cache_idx` was set to this key and header.
    Updated(u32, IndexKey, IndexHeader),
}

/// The bytes of an index key.
pub open spec fn index_key_bytes(k: IndexKey) -> Seq<u8> {
    le32(k.section_index) + le32(k.index_chunk)
}

/// The bytes of an index header.
pub open spec fn index_header_bytes(h: IndexHeader) -> Seq<u8> {
    le64(h.bloom_filter) + le64(h.first_entry_offset)
}

/// The index key whose bytes start at `b[at]`.
pub open spec fn index_key_at(b: Seq<u8>, at: int) -> IndexKey {
    IndexKey { section_index: get32(b, at), index_chunk: get32(b, at + 4) }
}

/// The index header whose bytes start at `b[at]`.
pub open spec fn index_header_at(b: Seq<u8>, at: int) -> IndexHeader {
    IndexHeader { bloom_filter: get64(b, at), first_entry_offset: get64(b, at + 8) }
}

/// The index event whose bytes start at `b[at]`, or the error that reading
/// one there meets.
pub open spec fn index_event_at(b: Seq<u8>, at: int) -> Result<IndexEvent, ErrorKind> {
    if at >= b.len() {
        Err(ErrorKind::UnexpectedEof)
    } else if b[at] != 1 {
        Err(ErrorKind::InvalidData)
    } else if at + 29 > b.len() {
        Err(ErrorKind::UnexpectedEof)
    } else {
        Ok(
            IndexEvent::Updated(
                get32(b, at + 1),
                index_key_at(b, at + 5),
                index_header_at(b, at + 13),
            ),
        )
    }
}

impl IndexEvent {
    /// The bytes of this event: a tag, the slot, the key, the header.
    pub open spec fn encoded(&self) -> Seq<u8> {
        match self {
            IndexEvent::Updated(i, k, h) => seq![1u8] + le32(*i) + index_key_bytes(*k)
                + index_header_bytes(*h),
        }
    }

    /// Reads an event at `*pos` and moves past it.
    pub fn read(buf: &[u8], pos: &mut usize) -> (r: Result<IndexEvent, ErrorKind>)
        ensures
            r == index_event_at(buf@, *old(pos) as int),
            r is Ok ==> *final(pos) == *old(pos) + 29,
    {
        let tag = match take_u8(buf, pos) {
            Ok(t) => t,
            Err(e) => return Err(e),
        };
        if tag != 1 {
            return Err(ErrorKind::InvalidData);
        }
        let cache_idx = match take_u32(buf, pos) {
            Ok(x) => x,
            Err(e) => return Err(e),
        };
        let (key, header) = match read_index_entry(buf, pos) {
            Ok(x) => x,
            Err(e) => return Err(e),
        };
        Ok(IndexEvent::Updated(cache_idx, key, header))
    }

    /// Appends the bytes of this event.
    pub fn write(&self, out: &mut Vec<u8>)
        ensures
            final(out)@ == old(out)@ + self.encoded(),
    {
        match self {
            IndexEvent::Updated(i, k, h) => {
                out.push(1u8);
                put_u32(out, *i);
                write_index_entry(out, k, h);
                assert(out@ =~= old(out)@ + self.encoded());
            },
        }
    }
}

/// Reads an index key at `*pos` and moves past it.
pub fn read_index_key(buf: &[u8], pos: &mut usize) -> (r: Result<IndexKey, ErrorKind>)
    ensures
        *old(pos) + 8 <= buf@.len() ==> r == Ok::<IndexKey, ErrorKind>(
            index_key_at(buf@, *old(pos) as int),
        ) && *final(pos) == *old(pos) + 8,
        *old(pos) + 8 > buf@.len() ==> r == Err::<IndexKey, ErrorKind>(ErrorKind::UnexpectedEof),
{
    let section_index = match take_u32(buf, pos) {
        Ok(x) => x,
        Err(e) => return Err(e),
    };
    let index_chunk = match take_u32(buf, pos) {
        Ok(x) => x,
        Err(e) => return Err(e),
    };
    Ok(IndexKey { section_index, index_chunk })
}

/// Appends the bytes of an index key.
pub fn write_index_key(out: &mut Vec<u8>, key: &IndexKey)
    ensures
        final(out)@ == old(out)@ + index_key_bytes(*key),
{
    put_u32(out, key.section_index);
    put_u32(out, key.index_chunk);
    assert(out@ =~= old(out)@ + index_key_bytes(*key));
}

/// Reads an index header at `*pos` and moves past it.
pub fn read_index_header(buf: &[u8], pos: &mut usize) -> (r: Result<IndexHeader, ErrorKind>)
    ensures
        *old(pos) + 16 <= buf@.len() ==> r == Ok::<IndexHeader, ErrorKind>(
            index_header_at(buf@, *old(pos) as int),
        ) && *final(pos) == *old(pos) + 16,
        *old(pos) + 16 > buf@.len() ==> r == Err::<IndexHeader, ErrorKind>(
            ErrorKind::UnexpectedEof,
        ),
{
    if *pos > buf.len() || buf.len() - *pos < 16 {
        return Err(ErrorKind::UnexpectedEof);
    }
    let bloom_filter = match take_u64(buf, pos) {
        Ok(x) => x,
        Err(e) => return Err(e),
    };
    let first_entry_offset = match take_u64(buf, pos) {
        Ok(x) => x,
        Err(e) => return Err(e),
    };
    Ok(IndexHeader { bloom_filter, first_entry_offset })
}

/// Appends the bytes of an index header.
pub fn write_index_header(out: &mut Vec<u8>, header: &IndexHeader)
    ensures
        final(out)@ == old(out)@ + index_header_bytes(*header),
{
    put_u64(out, header.bloom_filter);
    put_u64(out, header.first_entry_offset);
    assert(out@ =~= old(out)@ + index_header_bytes(*header));
}

/// Reads a key and a header at `*pos` and moves past them.
pub fn read_index_entry(buf: &[u8], pos: &mut usize) -> (r: Result<
    (IndexKey, IndexHeader),
    ErrorKind,
>)
    ensures
        *old(pos) + 24 <= buf@.len() ==> r == Ok::<(IndexKey, IndexHeader), ErrorKind>(
            (index_key_at(buf@, *old(pos) as int), index_header_at(buf@, *old(pos) + 8)),
        ) && *final(pos) == *old(pos) + 24,
        *old(pos) + 24 > buf@.len() ==> r == Err::<(IndexKey, IndexHeader), ErrorKind>(
            ErrorKind::UnexpectedEof,
        ),
{
    if *pos > buf.len() || buf.len() - *pos < 24 {
        return Err(ErrorKind::UnexpectedEof);
    }
    let key = match read_index_key(buf, pos) {
        Ok(x) => x,
        Err(e) => return Err(e),
    };
    let header = match read_index_header(buf, pos) {
        Ok(x) => x,
        Err(e) => return Err(e),
    };
    Ok((key, header))
}

/// Appends the bytes of a key and a header.
pub fn write_index_entry(out: &mut Vec<u8>, key: &IndexKey, header: &IndexHeader)
    ensures
        final(out)@ == old(out)@ + index_key_bytes(*key) + index_header_bytes(*header),
{
    write_index_key(out, key);
    write_index_header(out, header);
}

/// The bytes of an index registry file listing `entries`, 24 bytes each.
pub open spec fn index_entries_bytes(entries: Seq<(IndexKey, IndexHeader)>) -> Seq<u8>
    decreases entries.len(),
{
    if entries.len() == 0 {
        Seq::empty()
    } else {
        index_entries_bytes(entries.drop_last()) + index_key_bytes(entries.last().0)
            + index_header_bytes(entries.last().1)
    }
}

/// The entries of an index registry file: one for each whole 24 bytes.
pub open spec fn index_entries_of(b: Seq<u8>) -> Seq<(IndexKey, IndexHeader)> {
    Seq::new(b.len() / 24, |i: int| (index_key_at(b, 24 * i), index_header_at(b, 24 * i + 8)))
}

/// The header that `update_index_bloom_filter` leaves for a chunk whose
/// header was `old`.
pub open spec fn bloom_updated(old: Option<IndexHeader>, entry_offset: u64, bloom_bit: u64) -> IndexHeader {
    match old {
        Some(h) => IndexHeader {
            bloom_filter: h.bloom_filter | bloom_bit,
            first_entry_offset: h.first_entry_offset,
        },
        None => IndexHeader { bloom_filter: bloom_bit, first_entry_offset: entry_offset },
    }
}

/// Chunk `k` lies in section `s` after chunk `c`.
pub open spec fn is_after(k: IndexKey, s: SectionIndex, c: IndexChunk) -> bool {
    k.section_index == s && k.index_chunk > c
}

/// The chunks of every section that hold entries, each with its header, in
/// the order they were first recorded (their slots).
pub struct ManagedIndexRegistry {
    cache: Vec<(IndexKey, IndexHeader)>,
    map: HashMap<u64, u32>,
    journal: Vec<IndexEvent>,
}

impl ManagedIndexRegistry {
    /// The map and the list of entries agree.
    pub closed spec fn wf(&self) -> bool {
        &&& self.cache@.len() <= PAGE_INDEX_COUNT
        &&& forall|i: int|
            0 <= i < self.cache@.len() ==> {
                let c = index_key_code((#[trigger] self.cache@[i]).0) as u64;
                self.map@.contains_key(c) && self.map@[c] == i
            }
        &&& forall|c: u64| #[trigger]
            self.map@.contains_key(c) ==> self.map@[c] < self.cache@.len() && index_key_code(
                self.cache@[self.map@[c] as int].0,
            ) == c
    }

    /// The entries, by slot.
    pub closed spec fn entries(&self) -> Seq<(IndexKey, IndexHeader)> {
        self.cache@
    }

    /// The updates made since the journal was last taken.
    pub closed spec fn journal(&self) -> Seq<IndexEvent> {
        self.journal@
    }

    /// The slot of chunk `k`, if it has one.
    pub closed spec fn slot(&self, k: IndexKey) -> Option<u32> {
        let c = index_key_code(k) as u64;
        if self.map@.contains_key(c) {
            Some(self.map@[c])
        } else {
            None
        }
    }

    /// The header of chunk `k`, if it has one.
    pub open spec fn lookup(&self, k: IndexKey) -> Option<IndexHeader> {
        match self.slot(k) {
            Some(i) => Some(self.entries()[i as int].1),
            None => None,
        }
    }

    /// Each chunk has at most one entry, and the slot of an entry's chunk
    /// is its own.
    pub proof fn lemma_slots(&self)
        requires
            self.wf(),
        ensures
            self.entries().len() <= PAGE_INDEX_COUNT,
            forall|k: IndexKey| #[trigger]
                self.slot(k) is Some ==> self.slot(k).unwrap() < self.entries().len()
                    && self.entries()[self.slot(k).unwrap() as int].0 == k,
            forall|i: int|
                0 <= i < self.entries().len() ==> self.slot(#[trigger] self.entries()[i].0) == Some(
                    i as u32,
                ),
            forall|k: IndexKey|
                #![trigger self.slot(k)]
                self.slot(k) is None ==> forall|i: int|
                    0 <= i < self.entries().len() ==> #[trigger] self.entries()[i].0 != k,
    {
        assert forall|k: IndexKey| #[trigger]
            self.slot(k) is Some implies self.slot(k).unwrap() < self.entries().len()
                && self.entries()[self.slot(k).unwrap() as int].0 == k by {
            let c = index_key_code(k) as u64;
            let i = self.map@[c];
            lemma_code_injective(self.cache@[i as int].0, k);
        }
    }

    /// Registries with the same entries find chunks in the same slots.
    pub proof fn lemma_same_entries_same_slot(&self, other: &Self)
        requires
            self.wf(),
            other.wf(),
            self.entries() == other.entries(),
        ensures
            forall|k: IndexKey| #[trigger] self.slot(k) == other.slot(k),
            forall|k: IndexKey| #[trigger] self.lookup(k) == other.lookup(k),
    {
        self.lemma_slots();
        other.lemma_slots();
        assert forall|k: IndexKey| #[trigger] self.slot(k) == other.slot(k) by {
            if self.slot(k) is Some {
                let i = self.slot(k).unwrap() as int;
                assert(other.slot(other.entries()[i].0) == Some(i as u32));
            } else if other.slot(k) is Some {
                let i = other.slot(k).unwrap() as int;
                assert(self.slot(self.entries()[i].0) == Some(i as u32));
            }
        }
        assert forall|k: IndexKey| #[trigger] self.lookup(k) == other.lookup(k) by {
            assert(self.slot(k) == other.slot(k));
        }
    }

    /// An empty registry.
    pub fn new() -> (r: Self)
        ensures
            r.wf(),
            r.entries() == Seq::<(IndexKey, IndexHeader)>::empty(),
            r.journal() == Seq::<IndexEvent>::empty(),
    {
        ManagedIndexRegistry { cache: Vec::new(), map: HashMap::new(), journal: Vec::new() }
    }

    fn find(&self, key: &IndexKey) -> (r: Option<u32>)
        requires
            self.wf(),
        ensures
            r == self.slot(*key),
    {
        let c = key_code(key);
        match self.map.get(&c) {
            Some(i) => Some(*i),
            None => None,
        }
    }

    /// The header of chunk `index_key`, if it has one.
    pub fn try_resolve_index(&self, index_key: &IndexKey) -> (r: Option<IndexHeader>)
        requires
            self.wf(),
        ensures
            r == self.lookup(*index_key),
    {
        proof {
            self.lemma_slots();
        }
        match self.find(index_key) {
            Some(i) => Some(self.cache[i as usize].1),
            None => None,
        }
    }

    /// The header of the first chunk after `index_key` in the same section
    /// that has one.
    #[verifier::rlimit(60)]
    pub fn try_resolve_next_index(&self, index_key: &IndexKey) -> (r: Option<IndexHeader>)
        requires
            self.wf(),
        ensures
            match r {
                Some(h) => exists|c: IndexChunk|
                    c > index_key.index_chunk && self.lookup(
                        IndexKey { section_index: index_key.section_index, index_chunk: c },
                    ) == Some(h) && forall|d: IndexChunk|
                        index_key.index_chunk < d < c ==> #[trigger] self.lookup(
                            IndexKey { section_index: index_key.section_index, index_chunk: d },
                        ) is None,
                None => forall|d: IndexChunk|
                    d > index_key.index_chunk ==> #[trigger] self.lookup(
                        IndexKey { section_index: index_key.section_index, index_chunk: d },
                    ) is None,
            },
    {
        let s = index_key.section_index;
        let c0 = index_key.index_chunk;
        let mut best: Option<(IndexChunk, IndexHeader)> = None;
        let ghost mut bi: int = 0;
        let mut i: usize = 0;
        while i < self.cache.len()
            invariant
                i <= self.cache@.len(),
                s == index_key.section_index,
                c0 == index_key.index_chunk,
                best matches Some(b) ==> 0 <= bi < i && self.cache@[bi].0 == (IndexKey {
                    section_index: s,
                    index_chunk: b.0,
                }) && self.cache@[bi].1 == b.1 && b.0 > c0,
                forall|j: int|
                    0 <= j < i && is_after(#[trigger] self.cache@[j].0, s, c0) ==> (best matches Some(
                        b,
                    ) && self.cache@[j].0.index_chunk >= b.0),
            decreases self.cache@.len() - i,
        {
            let (k, h) = self.cache[i];
            if k.section_index == s && k.index_chunk > c0 {
                let better = match best {
                    Some(b) => k.index_chunk < b.0,
                    None => true,
                };
                if better {
                    best = Some((k.index_chunk, h));
                    proof {
                        bi = i as int;
                    }
                }
            }
            i = i + 1;
        }
        proof {
            self.lemma_slots();
        }
        match best {
            Some(b) => {
                proof {
                    assert(self.slot(self.entries()[bi].0) == Some(bi as u32));
                    assert(self.lookup(IndexKey { section_index: s, index_chunk: b.0 }) == Some(b.1));
                    assert forall|d: IndexChunk|
                        c0 < d < b.0 implies #[trigger] self.lookup(
                            IndexKey { section_index: s, index_chunk: d },
                        ) is None by {
                        let kd = IndexKey { section_index: s, index_chunk: d };
                        if self.slot(kd) is Some {
                            let j = self.slot(kd).unwrap() as int;
                            assert(is_after(self.cache@[j].0, s, c0));
                        }
                    }
                }
                Some(b.1)
            },
            None => {
                proof {
                    assert forall|d: IndexChunk| d > c0 implies #[trigger] self.lookup(
                        IndexKey { section_index: s, index_chunk: d },
                    ) is None by {
                        let kd = IndexKey { section_index: s, index_chunk: d };
                        if self.slot(kd) is Some {
                            let j = self.slot(kd).unwrap() as int;
                            assert(is_after(self.cache@[j].0, s, c0));
                        }
                    }
                }
                None
            },
        }
    }

    /// Gives the next slot to `key`, which has none.
    fn push_entry(&mut self, key: IndexKey, header: IndexHeader)
        requires
            old(self).wf(),
            old(self).slot(key) is None,
            old(self).cache@.len() < PAGE_INDEX_COUNT,
        ensures
            final(self).wf(),
            final(self).entries() == old(self).entries().push((key, header)),
            final(self).journal() == old(self).journal(),
            forall|k: IndexKey| #[trigger]
                final(self).slot(k) == if k == key {
                    Some(old(self).entries().len() as u32)
                } else {
                    old(self).slot(k)
                },
    {
        let i = self.cache.len() as u32;
        let c = key_code(&key);
        self.cache.push((key, header));
        self.map.insert(c, i);
        assert forall|j: int| 0 <= j < self.cache@.len() implies {
            let d = index_key_code((#[trigger] self.cache@[j]).0) as u64;
            self.map@.contains_key(d) && self.map@[d] == j
        } by {
            if j < i {
                let d = index_key_code(self.cache@[j].0) as u64;
                if d == c {
                    lemma_code_injective(self.cache@[j].0, key);
                    assert(old(self).map@.contains_key(d));
                }
            }
        }
        assert forall|k: IndexKey| #[trigger]
            self.slot(k) == if k == key {
                Some(i)
            } else {
                old(self).slot(k)
            } by {
            if index_key_code(k) as u64 == c {
                lemma_code_injective(k, key);
            }
        }
    }

    /// Sets the header in slot `i`.
    fn set_header(&mut self, i: u32, header: IndexHeader)
        requires
            old(self).wf(),
            i < old(self).entries().len(),
        ensures
            final(self).wf(),
            final(self).entries() == old(self).entries().update(
                i as int,
                (old(self).entries()[i as int].0, header),
            ),
            final(self).journal() == old(self).journal(),
            forall|k: IndexKey| #[trigger] final(self).slot(k) == old(self).slot(k),
    {
        let key = self.cache[i as usize].0;
        self.cache.set(i as usize, (key, header));
        assert forall|j: int| 0 <= j < self.cache@.len() implies {
            let d = index_key_code((#[trigger] self.cache@[j]).0) as u64;
            self.map@.contains_key(d) && self.map@[d] == j
        } by {
            assert(self.cache@[j].0 == old(self).cache@[j].0);
        }
    }

    /// Records that an entry whose key has `bloom_bit` starts at
    /// `entry_offset` in chunk `index_key`. A chunk without a header gets
    /// one with that bit and that first entry; otherwise the bit is added to
    /// its filter and its first entry stays. A change is journaled; adding
    /// a bit that is already set changes and journals nothing. Fails with
    /// `InvalidInput` when a new chunk would need a slot and none is left.
    pub fn update_index_bloom_filter(
        &mut self,
        index_key: &IndexKey,
        entry_offset: u64,
        bloom_bit: u64,
    ) -> (r: Result<(), ErrorKind>)
        requires
            old(self).wf(),
        ensures
            final(self).wf(),
            old(self).entries().len() <= final(self).entries().len(),
            forall|i: int|
                0 <= i < old(self).entries().len() ==> (#[trigger] final(self).entries()[i]).0
                    == old(self).entries()[i].0,
            old(self).lookup(*index_key) is Some || old(self).entries().len() < PAGE_INDEX_COUNT
                ==> r is Ok,
            r is Err ==> r == Err::<(), ErrorKind>(ErrorKind::InvalidInput) && *final(self) == *old(self),
            r is Ok && old(self).lookup(*index_key) is None ==> final(self).slot(*index_key) == Some(
                old(self).entries().len() as u32,
            ) && final(self).entries() == old(self).entries().push(
                (*index_key, bloom_updated(None, entry_offset, bloom_bit)),
            ),
            r is Ok && old(self).lookup(*index_key) is Some ==> final(self).entries().len() == old(
                self,
            ).entries().len() && final(self).slot(*index_key) == old(self).slot(*index_key),
            r is Ok ==> forall|k: IndexKey| #[trigger]
                final(self).lookup(k) == if k == *index_key {
                    Some(bloom_updated(old(self).lookup(*index_key), entry_offset, bloom_bit))
                } else {
                    old(self).lookup(k)
                },
            r is Ok ==> {
                let h = bloom_updated(old(self).lookup(*index_key), entry_offset, bloom_bit);
                if old(self).lookup(*index_key) == Some(h) {
                    final(self).journal() == old(self).journal()
                } else {
                    final(self).journal() == old(self).journal().push(
                        IndexEvent::Updated(final(self).slot(*index_key).unwrap(), *index_key, h),
                    )
                }
            },
    {
        proof {
            self.lemma_slots();
        }
        match self.find(index_key) {
            Some(i) => {
                let h = self.cache[i as usize].1;
                let bloom_filter = h.bloom_filter | bloom_bit;
                if bloom_filter == h.bloom_filter {
                    return Ok(());
                }
                let nh = IndexHeader { bloom_filter, first_entry_offset: h.first_entry_offset };
                self.journal.push(IndexEvent::Updated(i, *index_key, nh));
                self.set_header(i, nh);
                proof {
                    self.lemma_slots();
                }
                Ok(())
            },
            None => {
                if self.cache.len() as u64 >= PAGE_INDEX_COUNT {
                    return Err(ErrorKind::InvalidInput);
                }
                let i = self.cache.len() as u32;
                let nh = IndexHeader { bloom_filter: bloom_bit, first_entry_offset: entry_offset };
                self.journal.push(IndexEvent::Updated(i, *index_key, nh));
                self.push_entry(*index_key, nh);
                proof {
                    self.lemma_slots();
                }
                Ok(())
            },
        }
    }

    /// Replays a journaled update. Slot `i` of the next free index takes a
    /// new chunk; an existing slot of the same chunk takes the header; any
    /// other update is corrupt (`InvalidData`).
    pub fn apply(&mut self, event: IndexEvent) -> (r: Result<(), ErrorKind>)
        requires
            old(self).wf(),
        ensures
            final(self).wf(),
            final(self).journal() == old(self).journal(),
            match event {
                IndexEvent::Updated(i, k, h) => {
                    if i < old(self).entries().len() && old(self).entries()[i as int].0 == k {
                        r is Ok && final(self).entries() == old(self).entries().update(
                            i as int,
                            (k, h),
                        )
                    } else if i == old(self).entries().len() && old(self).lookup(k) is None {
                        r is Ok && final(self).entries() == old(self).entries().push((k, h))
                    } else {
                        r == Err::<(), ErrorKind>(ErrorKind::InvalidData) && *final(self) == *old(self)
                    }
                },
            },
    {
        match event {
            IndexEvent::Updated(i, k, h) => {
                let n = self.cache.len();
                if (i as usize) < n {
                    if self.cache[i as usize].0 == k {
                        self.set_header(i, h);
                        Ok(())
                    } else {
                        Err(ErrorKind::InvalidData)
                    }
                } else if i as usize == n {
                    match self.find(&k) {
                        Some(_) => Err(ErrorKind::InvalidData),
                        None => {
                            self.push_entry(k, h);
                            Ok(())
                        },
                    }
                } else {
                    Err(ErrorKind::InvalidData)
                }
            },
        }
    }

    /// A registry over the bytes of its file, one entry per whole 24 bytes,
    /// the slot of each its position. A chunk listed twice is corrupt
    /// (`InvalidData`), as is a file with more entries than slots.
    pub fn load(bytes: &[u8]) -> (r: Result<Self, ErrorKind>)
        ensures
            ({
                let entries = index_entries_of(bytes@);
                if entries.len() > PAGE_INDEX_COUNT || exists|i: int, j: int|
                    0 <= i < j < entries.len() && entries[i].0 == entries[j].0 {
                    r == Err::<Self, ErrorKind>(ErrorKind::InvalidData)
                } else {
                    r matches Ok(g) && g.wf() && g.entries() == entries && g.journal() == Seq::<
                        IndexEvent,
                    >::empty()
                }
            }),
    {
        let ghost entries = index_entries_of(bytes@);
        let count = bytes.len() / 24;
        if count as u64 > PAGE_INDEX_COUNT {
            return Err(ErrorKind::InvalidData);
        }
        let mut g = ManagedIndexRegistry::new();
        let mut pos: usize = 0;
        let mut i: usize = 0;
        while i < count
            invariant
                count == entries.len(),
                count <= PAGE_INDEX_COUNT,
                entries == index_entries_of(bytes@),
                i <= count,
                pos == 24 * i,
                g.wf(),
                g.entries() == entries.subrange(0, i as int),
                g.journal() == Seq::<IndexEvent>::empty(),
                forall|a: int, b: int| 0 <= a < b < i ==> entries[a].0 != entries[b].0,
            decreases count - i,
        {
            let (key, header) = match read_index_entry(bytes, &mut pos) {
                Ok(x) => x,
                Err(e) => return Err(e),
            };
            assert((key, header) == entries[i as int]);
            proof {
                g.lemma_slots();
            }
            match g.find(&key) {
                Some(j) => {
                    proof {
                        assert(entries[j as int].0 == entries[i as int].0);
                    }
                    return Err(ErrorKind::InvalidData);
                },
                None => {},
            }
            proof {
                assert forall|a: int| 0 <= a < i implies entries[a].0 != entries[i as int].0 by {
                    assert(g.entries()[a] == entries[a]);
                }
            }
            g.push_entry(key, header);
            i = i + 1;
            assert(g.entries() =~= entries.subrange(0, i as int));
        }
        assert(g.entries() =~= entries);
        Ok(g)
    }

    /// The bytes of this registry's file.
    pub fn snapshot(&self) -> (r: Vec<u8>)
        ensures
            r@ == index_entries_bytes(self.entries()),
    {
        let mut out: Vec<u8> = Vec::new();
        let mut i: usize = 0;
        while i < self.cache.len()
            invariant
                i <= self.cache@.len(),
                out@ == index_entries_bytes(self.cache@.subrange(0, i as int)),
            decreases self.cache@.len() - i,
        {
            let (k, h) = self.cache[i];
            write_index_entry(&mut out, &k, &h);
            proof {
                let s = self.cache@.subrange(0, i + 1);
                assert(s.drop_last() =~= self.cache@.subrange(0, i as int));
            }
            i = i + 1;
        }
        assert(self.cache@.subrange(0, i as int) =~= self.cache@);
        out
    }

    /// The chunk in slot `i` and its header.
    pub fn entry_at(&self, i: usize) -> (r: (IndexKey, IndexHeader))
        requires
            i < self.entries().len(),
        ensures
            r == self.entries()[i as int],
    {
        self.cache[i]
    }

    /// The number of chunks recorded.
    pub fn entry_count(&self) -> (r: usize)
        ensures
            r == self.entries().len(),
    {
        self.cache.len()
    }

    /// Hands out the journal and starts an empty one.
    pub fn take_journal(&mut self) -> (r: Vec<IndexEvent>)
        ensures
            r@ == old(self).journal(),
            final(self).journal() == Seq::<IndexEvent>::empty(),
            final(self).entries() == old(self).entries(),
            final(self).wf() == old(self).wf(),
            forall|k: IndexKey| #[trigger] final(self).slot(k) == old(self).slot(k),
    {
        let mut r: Vec<IndexEvent> = Vec::new();
        std::mem::swap(&mut r, &mut self.journal);
        r
    }
}

} // verus!

verus! {

/// Loading the bytes of an index registry file gives back the entries
/// written, each from its 24 bytes.
pub proof fn lemma_index_entries_round_trip(entries: Seq<(IndexKey, IndexHeader)>)
    ensures
        index_entries_bytes(entries).len() == 24 * entries.len(),
        index_entries_of(index_entries_bytes(entries)) == entries,
    decreases entries.len(),
{
    crate::codec::lemma_le_round_trip();
    if entries.len() > 0 {
        let init = entries.drop_last();
        lemma_index_entries_round_trip(init);
        let b = index_entries_bytes(entries);
        let bi = index_entries_bytes(init);
        assert(b.len() == 24 * entries.len());
        assert forall|i: int| 0 <= i < entries.len() implies #[trigger] index_key_at(b, 24 * i)
            == entries[i].0 && index_header_at(b, 24 * i + 8) == entries[i].1 by {
            let o = 24 * i;
            if i < init.len() {
                assert(index_key_at(bi, o) == init[i].0);
                assert(index_header_at(bi, o + 8) == init[i].1);
                assert(b.subrange(o, o + 4) =~= bi.subrange(o, o + 4));
                assert(b.subrange(o + 4, o + 8) =~= bi.subrange(o + 4, o + 8));
                assert(b.subrange(o + 8, o + 16) =~= bi.subrange(o + 8, o + 16));
                assert(b.subrange(o + 16, o + 24) =~= bi.subrange(o + 16, o + 24));
            } else {
                let (k, h) = entries.last();
                assert(b.subrange(o, o + 4) =~= le32(k.section_index));
                assert(b.subrange(o + 4, o + 8) =~= le32(k.index_chunk));
                assert(b.subrange(o + 8, o + 16) =~= le64(h.bloom_filter));
                assert(b.subrange(o + 16, o + 24) =~= le64(h.first_entry_offset));
            }
        }
        assert(index_entries_of(b) =~= entries);
    } else {
        assert(index_entries_of(index_entries_bytes(entries)) =~= entries);
    }
}

} // verus!
