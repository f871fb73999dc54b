use vstd::prelude::*;

use crate::book::SectionIndex;
use crate::codec::{get64, le32, le64, put_u32, put_u64, take_u32, take_u64, take_u8, get32};
use crate::error::ErrorKind;

verus! {

/// What the registry records of a section: the first byte past its last
/// entry.
#[derive(Clone, Copy, Debug, PartialEq, Eq, Structural)]
pub struct SectionHeader {
    pub end_offset: u64,
}

/// A journal entry of the section registry.
#[derive(Clone, Copy, Debug, PartialEq, Eq, Structural)]
pub enum SectionEvent {
    /// A section's header was set.
    Updated(SectionIndex, SectionHeader),
}

/// The section event whose bytes start at `b[at]`, or the error that
/// reading one there meets.
pub open spec fn section_event_at(b: Seq<u8>, at: int) -> Result<SectionEvent, ErrorKind> {
    if at >= b.len() {
        Err(ErrorKind::UnexpectedEof)
    } else if b[at] != 1 {
        Err(ErrorKind::InvalidData)
    } else if at + 13 > b.len() {
        Err(ErrorKind::UnexpectedEof)
    } else {
        Ok(SectionEvent::Updated(get32(b, at + 1), SectionHeader { end_offset: get64(b, at + 5) }))
    }
}

impl SectionEvent {
    /// The bytes of this event: a tag, the section index, the end offset.
    pub open spec fn encoded(&self) -> Seq<u8> {
        match self {
            SectionEvent::Updated(s, h) => seq![1u8] + le32(*s) + le64(h.end_offset),
        }
    }

    /// Reads an event at `*pos` and moves past it.
    pub fn read(buf: &[u8], pos: &mut usize) -> (r: Result<SectionEvent, ErrorKind>)
        ensures
            r == section_event_at(buf@, *old(pos) as int),
            r is Ok ==> *final(pos) == *old(pos) + 13,
    {
        let tag = match take_u8(buf, pos) {
            Ok(t) => t,
            Err(e) => return Err(e),
        };
        if tag != 1 {
            return Err(ErrorKind::InvalidData);
        }
        let s = match take_u32(buf, pos) {
            Ok(x) => x,
            Err(e) => return Err(e),
        };
        let header = match read_section_header(buf, pos) {
            Ok(h) => h,
            Err(e) => return Err(e),
        };
        Ok(SectionEvent::Updated(s, header))
    }

    /// Appends the bytes of this event.
    pub fn write(&self, out: &mut Vec<u8>)
        ensures
            final(out)@ == old(out)@ + self.encoded(),
    {
        match self {
            SectionEvent::Updated(s, h) => {
                out.push(1u8);
                put_u32(out, *s);
                write_section_header(out, h);
                assert(out@ =~= old(out)@ + self.encoded());
            },
        }
    }
}

/// Reads a section header at `*pos` and moves past it.
pub fn read_section_header(buf: &[u8], pos: &mut usize) -> (r: Result<SectionHeader, ErrorKind>)
    ensures
        *old(pos) + 8 <= buf@.len() ==> r == Ok::<SectionHeader, ErrorKind>(
            SectionHeader { end_offset: get64(buf@, *old(pos) as int) },
        ) && *final(pos) == *old(pos) + 8,
        *old(pos) + 8 > buf@.len() ==> r == Err::<SectionHeader, ErrorKind>(
            ErrorKind::UnexpectedEof,
        ),
{
    match take_u64(buf, pos) {
        Ok(end_offset) => Ok(SectionHeader { end_offset }),
        Err(e) => Err(e),
    }
}

/// Appends the bytes of a section header.
pub fn write_section_header(out: &mut Vec<u8>, header: &SectionHeader)
    ensures
        final(out)@ == old(out)@ + le64(header.end_offset),
{
    put_u64(out, header.end_offset);
}

/// The bytes of a section table: the end offset of section `i` at
/// `[8 * i, 8 * i + 8)`.
pub open spec fn section_table_bytes(headers: Seq<SectionHeader>) -> Seq<u8>
    decreases headers.len(),
{
    if headers.len() == 0 {
        Seq::empty()
    } else {
        section_table_bytes(headers.drop_last()) + le64(headers.last().end_offset)
    }
}

/// `b` cut or padded with zeros to `n` bytes.
pub open spec fn padded(b: Seq<u8>, n: int) -> Seq<u8> {
    Seq::new(n as nat, |i: int| if i < b.len() { b[i] } else { 0u8 })
}

/// The end offset of every section, `0` for a section that has none yet.
pub struct ManagedSectionRegistry {
    cache: Vec<SectionHeader>,
    journal: Vec<SectionEvent>,
}

impl ManagedSectionRegistry {
    /// The header of each section, by section index.
    pub closed spec fn headers(&self) -> Seq<SectionHeader> {
        self.cache@
    }

    /// The updates made since the journal was last taken.
    pub closed spec fn journal(&self) -> Seq<SectionEvent> {
        self.journal@
    }

    pub open spec fn wf(&self) -> bool {
        self.headers().len() <= u32::MAX
    }

    /// A registry of `section_count` sections, each ending at offset `0`.
    pub fn new(section_count: SectionIndex) -> (r: Self)
        ensures
            r.wf(),
            r.headers() == Seq::new(section_count as nat, |i: int| (SectionHeader { end_offset: 0 })),
            r.journal() == Seq::<SectionEvent>::empty(),
    {
        let mut cache: Vec<SectionHeader> = Vec::new();
        let mut i: u32 = 0;
        while i < section_count
            invariant
                i <= section_count,
                cache@ == Seq::new(i as nat, |j: int| (SectionHeader { end_offset: 0 })),
            decreases section_count - i,
        {
            cache.push(SectionHeader { end_offset: 0 });
            i = i + 1;
            assert(cache@ =~= Seq::new(i as nat, |j: int| SectionHeader { end_offset: 0 }));
        }
        ManagedSectionRegistry { cache, journal: Vec::new() }
    }

    /// A registry over the bytes of its file, cut or padded with zeros to
    /// eight bytes for each of `section_count` sections.
    pub fn load(bytes: &[u8], section_count: SectionIndex) -> (r: Self)
        ensures
            r.wf(),
            r.headers().len() == section_count,
            forall|i: int|
                0 <= i < section_count ==> #[trigger] r.headers()[i] == (SectionHeader {
                    end_offset: get64(padded(bytes@, 8 * section_count), 8 * i),
                }),
            r.journal() == Seq::<SectionEvent>::empty(),
    {
        let ghost full = padded(bytes@, 8 * section_count);
        let mut cache: Vec<SectionHeader> = Vec::new();
        let mut i: u32 = 0;
        while i < section_count
            invariant
                i <= section_count,
                full == padded(bytes@, 8 * section_count),
                cache@.len() == i,
                forall|j: int|
                    0 <= j < i ==> #[trigger] cache@[j] == (SectionHeader {
                        end_offset: get64(full, 8 * j),
                    }),
            decreases section_count - i,
        {
            let mut record: Vec<u8> = Vec::new();
            let mut k: usize = 0;
            let base: u64 = 8 * (i as u64);
            while k < 8
                invariant
                    k <= 8,
                    base == 8 * i,
                    i < section_count,
                    full == padded(bytes@, 8 * section_count),
                    record@ == full.subrange(base as int, base + k),
                decreases 8 - k,
            {
                if base + (k as u64) < bytes.len() as u64 {
                    record.push(bytes[(base + k as u64) as usize]);
                } else {
                    record.push(0u8);
                }
                k = k + 1;
                assert(record@ =~= full.subrange(base as int, base + k));
            }
            let mut at: usize = 0;
            let end_offset = match take_u64(record.as_slice(), &mut at) {
                Ok(x) => x,
                Err(_) => 0,
            };
            assert(record@.subrange(0, 8) =~= record@);
            cache.push(SectionHeader { end_offset });
            i = i + 1;
        }
        ManagedSectionRegistry { cache, journal: Vec::new() }
    }

    /// The bytes of this registry's file.
    pub fn snapshot(&self) -> (r: Vec<u8>)
        ensures
            r@ == section_table_bytes(self.headers()),
    {
        let mut out: Vec<u8> = Vec::new();
        let mut i: usize = 0;
        while i < self.cache.len()
            invariant
                i <= self.cache@.len(),
                out@ == section_table_bytes(self.cache@.subrange(0, i as int)),
            decreases self.cache@.len() - i,
        {
            write_section_header(&mut out, &self.cache[i]);
            proof {
                let s = self.cache@.subrange(0, i + 1);
                assert(s.drop_last() =~= self.cache@.subrange(0, i as int));
            }
            i = i + 1;
        }
        assert(self.cache@.subrange(0, i as int) =~= self.cache@);
        out
    }

    /// The number of sections.
    pub fn section_count(&self) -> (r: usize)
        ensures
            r == self.headers().len(),
    {
        self.cache.len()
    }

    /// The header of section `section_index`; `NotFound` past the last
    /// section.
    pub fn resolve_section(&self, section_index: SectionIndex) -> (r: Result<
        SectionHeader,
        ErrorKind,
    >)
        ensures
            section_index < self.headers().len() ==> r == Ok::<SectionHeader, ErrorKind>(
                self.headers()[section_index as int],
            ),
            section_index >= self.headers().len() ==> r == Err::<SectionHeader, ErrorKind>(
                ErrorKind::NotFound,
            ),
    {
        if (section_index as usize) < self.cache.len() {
            Ok(self.cache[section_index as usize])
        } else {
            Err(ErrorKind::NotFound)
        }
    }

    /// The end offset of section `section_index`, which exists.
    pub fn cache_end(&self, section_index: SectionIndex) -> (r: u64)
        requires
            section_index < self.headers().len(),
        ensures
            r == self.headers()[section_index as int].end_offset,
    {
        self.cache[section_index as usize].end_offset
    }

    /// Moves the end of section `section_index` forward to `end_offset` and
    /// journals the change; an end at or past `end_offset` is kept, and
    /// nothing is journaled. `NotFound` past the last section.
    pub fn update_section_end_offset(&mut self, section_index: SectionIndex, end_offset: u64) -> (r:
        Result<(), ErrorKind>)
        ensures
            final(self).headers().len() == old(self).headers().len(),
            section_index >= old(self).headers().len() ==> r == Err::<(), ErrorKind>(
                ErrorKind::NotFound,
            ) && *final(self) == *old(self),
            section_index < old(self).headers().len() ==> {
                let cur = old(self).headers()[section_index as int].end_offset;
                &&& r is Ok
                &&& cur >= end_offset ==> *final(self) == *old(self)
                &&& cur < end_offset ==> {
                    let h = SectionHeader { end_offset };
                    &&& final(self).headers() == old(self).headers().update(section_index as int, h)
                    &&& final(self).journal() == old(self).journal().push(
                        SectionEvent::Updated(section_index, h),
                    )
                }
            },
    {
        if (section_index as usize) >= self.cache.len() {
            return Err(ErrorKind::NotFound);
        }
        if self.cache[section_index as usize].end_offset >= end_offset {
            return Ok(());
        }
        let h = SectionHeader { end_offset };
        self.journal.push(SectionEvent::Updated(section_index, h));
        self.cache.set(section_index as usize, h);
        Ok(())
    }

    /// Replays a journaled update; one for a section past the last is
    /// corrupt (`InvalidData`).
    pub fn apply(&mut self, event: SectionEvent) -> (r: Result<(), ErrorKind>)
        ensures
            final(self).journal() == old(self).journal(),
            match event {
                SectionEvent::Updated(s, h) => if s < old(self).headers().len() {
                    r is Ok && final(self).headers() == old(self).headers().update(s as int, h)
                } else {
                    r == Err::<(), ErrorKind>(ErrorKind::InvalidData) && *final(self) == *old(self)
                },
            },
    {
        match event {
            SectionEvent::Updated(s, h) => {
                if (s as usize) < self.cache.len() {
                    self.cache.set(s as usize, h);
                    Ok(())
                } else {
                    Err(ErrorKind::InvalidData)
                }
            },
        }
    }

    /// Hands out the journal and starts an empty one.
    pub fn take_journal(&mut self) -> (r: Vec<SectionEvent>)
        ensures
            r@ == old(self).journal(),
            final(self).journal() == Seq::<SectionEvent>::empty(),
            final(self).headers() == old(self).headers(),
    {
        let mut r: Vec<SectionEvent> = Vec::new();
        std::mem::swap(&mut r, &mut self.journal);
        r
    }
}

} // verus!

verus! {

/// Loading the bytes of a section table for as many sections as it has
/// gives back each section's end offset.
pub proof fn lemma_section_table_round_trip(headers: Seq<SectionHeader>)
    ensures
        section_table_bytes(headers).len() == 8 * headers.len(),
        forall|i: int|
            0 <= i < headers.len() ==> #[trigger] get64(
                padded(section_table_bytes(headers), 8 * headers.len() as int),
                8 * i,
            ) == headers[i].end_offset,
    decreases headers.len(),
{
    crate::codec::lemma_le_round_trip();
    let b = section_table_bytes(headers);
    if headers.len() > 0 {
        let init = headers.drop_last();
        lemma_section_table_round_trip(init);
        let bi = section_table_bytes(init);
        assert(padded(b, 8 * headers.len() as int) =~= b);
        assert(padded(bi, 8 * init.len() as int) =~= bi);
        assert forall|i: int| 0 <= i < headers.len() implies #[trigger] get64(
            padded(b, 8 * headers.len() as int),
            8 * i,
        ) == headers[i].end_offset by {
            if i < init.len() {
                assert(get64(padded(bi, 8 * init.len() as int), 8 * i) == init[i].end_offset);
                assert(b.subrange(8 * i, 8 * i + 8) =~= bi.subrange(8 * i, 8 * i + 8));
            } else {
                assert(b.subrange(8 * i, 8 * i + 8) =~= le64(headers.last().end_offset));
            }
        }
    }
}

} // verus!
