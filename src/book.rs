use vstd::arithmetic::div_mod::{lemma_fundamental_div_mod, lemma_fundamental_div_mod_converse};
use vstd::prelude::*;

use crate::error::ErrorKind;
use crate::page_registry::{assignments, lemma_assignments_extend, ManagedPageRegistry, PageEvent, PAGE_INDEX_COUNT};
use crate::pager::{zeros, MemoryPager, PageIndex, SeekFrom};

verus! {

/// The index of a section of a book.
pub type SectionIndex = u32;

/// The index of a page within a section.
pub type SectionPageIndex = u32;

/// A page of a section: which section, and which of its pages.
#[derive(Clone, Copy, Debug, PartialEq, Eq, Structural)]
pub struct PageKey {
    pub section_index: SectionIndex,
    pub section_page_index: SectionPageIndex,
}

/// Where a page of a section lives in the pager.
#[derive(Clone, Copy, Debug, PartialEq, Eq, Structural)]
pub struct PageHeader {
    pub pager_page_index: PageIndex,
}

/// Offset `off` lies in the same page as `start` and within `n` bytes after
/// it exactly when its offset in that page does.
proof fn lemma_same_page(ps: int, start: int, n: int, off: int)
    requires
        ps > 0,
        start >= 0,
        off >= 0,
        n >= 0,
        start % ps + n <= ps,
    ensures
        start <= off < start + n ==> off / ps == start / ps && off % ps == start % ps + (off
            - start),
        off / ps == start / ps ==> (start <= off < start + n <==> start % ps <= off % ps < start
            % ps + n),
{
    lemma_fundamental_div_mod(start, ps);
    lemma_fundamental_div_mod(off, ps);
    if start <= off < start + n {
        let q = start / ps;
        assert(q * ps == ps * q) by (nonlinear_arith);
        lemma_fundamental_div_mod_converse(off, ps, q, start % ps + (off - start));
    }
}

/// A collection of sparse byte streams, addressed by section index.
pub trait Book {
    type Section;

    /// A cursor at the start of section `section_index`.
    fn section(&self, section_index: SectionIndex) -> Self::Section;
}

/// A cursor over one section.
pub trait Section {
    /// The section this cursor moves over.
    fn index(&self) -> SectionIndex;
}

impl Book for PagerBook {
    type Section = PagerBookSection;

    fn section(&self, section_index: SectionIndex) -> PagerBookSection {
        PagerBookSection { section_index, section_offset: 0 }
    }
}

impl Section for PagerBookSection {
    fn index(&self) -> SectionIndex {
        self.section_index
    }
}

/// A collection of sparse byte streams, the sections, over the pages of a
/// pager. A section's page is given a pager page the first time it is
/// written; until then it reads as zeros.
pub struct PagerBook {
    pager: MemoryPager,
    registry: ManagedPageRegistry,
}

/// A cursor over one section of a book, with its own offset.
#[derive(Clone, Copy, Debug)]
pub struct PagerBookSection {
    section_index: SectionIndex,
    section_offset: u64,
}

impl PagerBook {
    pub closed spec fn wf(&self) -> bool {
        self.pager.wf() && self.registry.wf()
    }

    /// The size of the pager's pages.
    pub closed spec fn page_size_spec(&self) -> nat {
        self.pager.size()
    }

    /// The page registry.
    pub closed spec fn registry_spec(&self) -> ManagedPageRegistry {
        self.registry
    }

    /// The pager.
    pub closed spec fn pager_spec(&self) -> MemoryPager {
        self.pager
    }

    /// The offsets of a section: those whose section page index fits in
    /// 32 bits.
    pub open spec fn addressable(&self, off: int) -> bool {
        0 <= off < PAGE_INDEX_COUNT * self.page_size_spec()
    }

    /// The byte at offset `off` of section `s`.
    pub closed spec fn byte(&self, s: SectionIndex, off: int) -> u8 {
        let ps = self.pager.size() as int;
        if 0 <= off && off / ps < PAGE_INDEX_COUNT {
            match self.registry.lookup(
                PageKey { section_index: s, section_page_index: (off / ps) as u32 },
            ) {
                Some(p) => self.pager.byte(p as int, off % ps),
                None => 0,
            }
        } else {
            0
        }
    }

    /// A book over `pager` whose section pages are assigned by `registry`.
    pub fn new(pager: MemoryPager, registry: ManagedPageRegistry) -> (r: Self)
        requires
            pager.wf(),
            registry.wf(),
        ensures
            r.wf(),
            r.pager_spec() == pager,
            r.registry_spec() == registry,
            r.page_size_spec() == pager.size(),
    {
        PagerBook { pager, registry }
    }

    /// A whole book has a whole pager and registry.
    pub proof fn lemma_book_wf(&self)
        requires
            self.wf(),
        ensures
            self.pager_spec().wf(),
            self.registry_spec().wf(),
            self.page_size_spec() == self.pager_spec().size(),
    {
    }

    /// Books whose pagers read alike and whose registries look keys up
    /// alike hold the same section bytes.
    pub proof fn lemma_same_book_bytes(&self, other: &Self)
        requires
            self.wf(),
            other.wf(),
            self.page_size_spec() == other.page_size_spec(),
            forall|k: PageKey| #[trigger] self.registry_spec().lookup(k) == other.registry_spec().lookup(k),
            forall|p: int, o: int|
                0 <= p && 0 <= o < self.page_size_spec() ==> #[trigger] self.pager_spec().byte(p, o)
                    == other.pager_spec().byte(p, o),
        ensures
            forall|s: SectionIndex, o: int| #[trigger] self.byte(s, o) == other.byte(s, o),
    {
        assert forall|s: SectionIndex, o: int| #[trigger] self.byte(s, o) == other.byte(s, o) by {
            let ps = self.pager.size() as int;
            self.pager.lemma_size_positive();
            if o >= 0 {
                lemma_fundamental_div_mod(o, ps);
                let k = PageKey { section_index: s, section_page_index: (o / ps) as u32 };
                assert(self.registry_spec().lookup(k) == other.registry_spec().lookup(k));
                assert(self.pager_spec().byte(
                    self.registry.lookup(k).unwrap_or(0) as int,
                    o % ps,
                ) == other.pager_spec().byte(self.registry.lookup(k).unwrap_or(0) as int, o % ps));
            }
        }
    }

    /// A cursor at the start of section `section_index`.
    pub fn section(&self, section_index: SectionIndex) -> (r: PagerBookSection)
        ensures
            r.index_spec() == section_index,
            r.pos() == 0,
    {
        PagerBookSection { section_index, section_offset: 0 }
    }

    /// The size of the pager's pages.
    pub fn page_size(&self) -> (r: u32)
        requires
            self.wf(),
        ensures
            r == self.page_size_spec(),
            r > 0,
    {
        self.pager.page_size()
    }

    /// The pager.
    pub fn pager(&self) -> (r: &MemoryPager)
        ensures
            *r == self.pager_spec(),
            self.wf() ==> r.wf(),
    {
        &self.pager
    }

    /// The page registry.
    pub fn registry(&self) -> (r: &ManagedPageRegistry)
        ensures
            *r == self.registry_spec(),
            self.wf() ==> r.wf(),
    {
        &self.registry
    }

    /// Hands out the page registry's journal and starts an empty one.
    pub fn take_journal(&mut self) -> (r: Vec<PageEvent>)
        ensures
            r@ == old(self).registry_spec().journal(),
            final(self).wf() == old(self).wf(),
            final(self).page_size_spec() == old(self).page_size_spec(),
            final(self).registry_spec().journal() == Seq::<PageEvent>::empty(),
            final(self).registry_spec().keys() == old(self).registry_spec().keys(),
            forall|s: SectionIndex, off: int| #[trigger]
                final(self).byte(s, off) == old(self).byte(s, off),
    {
        let r = self.registry.take_journal();
        r
    }
}

impl PagerBookSection {
    /// The section this cursor moves over.
    pub closed spec fn index_spec(&self) -> SectionIndex {
        self.section_index
    }

    /// The cursor's offset in the section.
    pub closed spec fn pos(&self) -> nat {
        self.section_offset as nat
    }

    /// The section this cursor moves over.
    pub fn index(&self) -> (r: SectionIndex)
        ensures
            r == self.index_spec(),
    {
        self.section_index
    }

    /// The cursor's offset in the section.
    pub fn stream_position(&self) -> (r: u64)
        ensures
            r == self.pos(),
    {
        self.section_offset
    }

    /// Moves the cursor to the start of the section.
    pub fn rewind(&mut self)
        ensures
            final(self).pos() == 0,
            final(self).index_spec() == old(self).index_spec(),
    {
        self.section_offset = 0;
    }

    /// Moves the cursor. Sections have no end, so a seek from the end fails
    /// with `InvalidInput`, as does a target outside the range of `u64`; the
    /// cursor then stays.
    pub fn seek(&mut self, pos: SeekFrom) -> (r: Result<u64, ErrorKind>)
        ensures
            final(self).index_spec() == old(self).index_spec(),
            ({
                let t = crate::pager::seek_target(pos, old(self).pos() as int, 0);
                if !(pos is End) && 0 <= t <= u64::MAX {
                    r == Ok::<u64, ErrorKind>(t as u64) && final(self).pos() == t
                } else {
                    r == Err::<u64, ErrorKind>(ErrorKind::InvalidInput) && *final(self) == *old(self)
                }
            }),
    {
        let target = match pos {
            SeekFrom::Start(o) => o,
            SeekFrom::End(_) => {
                return Err(ErrorKind::InvalidInput);
            },
            SeekFrom::Current(d) => {
                if d >= 0 {
                    if d as u64 > u64::MAX - self.section_offset {
                        return Err(ErrorKind::InvalidInput);
                    }
                    self.section_offset + d as u64
                } else {
                    let back: u64 = if d == i64::MIN {
                        0x8000_0000_0000_0000u64
                    } else {
                        (-d) as u64
                    };
                    if back > self.section_offset {
                        return Err(ErrorKind::InvalidInput);
                    }
                    self.section_offset - back
                }
            },
        };
        self.section_offset = target;
        Ok(target)
    }

    /// Moves the cursor by `offset` bytes; as `seek` from the current offset.
    pub fn seek_relative(&mut self, offset: i64) -> (r: Result<(), ErrorKind>)
        ensures
            final(self).index_spec() == old(self).index_spec(),
            ({
                let t = old(self).pos() + offset;
                if 0 <= t <= u64::MAX {
                    r is Ok && final(self).pos() == t
                } else {
                    r == Err::<(), ErrorKind>(ErrorKind::InvalidInput) && *final(self) == *old(self)
                }
            }),
    {
        match self.seek(SeekFrom::Current(offset)) {
            Ok(_) => Ok(()),
            Err(e) => Err(e),
        }
    }

    /// Reads up to `len` bytes at the cursor, never past the end of the
    /// cursor's page, and moves past them. Fails with `InvalidInput` at an
    /// offset past the last addressable page.
    pub fn read(&mut self, book: &PagerBook, len: usize) -> (r: Result<Vec<u8>, ErrorKind>)
        requires
            book.wf(),
        ensures
            final(self).index_spec() == old(self).index_spec(),
            !book.addressable(old(self).pos() as int) ==> r == Err::<Vec<u8>, ErrorKind>(
                ErrorKind::InvalidInput,
            ) && *final(self) == *old(self),
            book.addressable(old(self).pos() as int) ==> (r matches Ok(v) && {
                let ps = book.page_size_spec() as int;
                let room = ps - (old(self).pos() as int) % ps;
                &&& v@.len() == if len < room {
                    len as int
                } else {
                    room
                }
                &&& forall|i: int|
                    0 <= i < v@.len() ==> #[trigger] v@[i] == book.byte(
                        old(self).index_spec(),
                        old(self).pos() + i,
                    )
                &&& final(self).pos() == old(self).pos() + v@.len()
            }),
    {
        let ps = book.pager.page_size() as u64;
        let off = self.section_offset;
        let spi = off / ps;
        if spi >= PAGE_INDEX_COUNT {
            proof {
                lemma_fundamental_div_mod(off as int, ps as int);
                let (q, m) = (off as int / ps as int, off as int % ps as int);
                assert(off as int >= 0x1_0000_0000 * ps) by (nonlinear_arith)
                    requires
                        off as int == ps * q + m,
                        q >= 0x1_0000_0000,
                        m >= 0,
                        ps > 0,
                ;
            }
            return Err(ErrorKind::InvalidInput);
        }
        proof {
            lemma_fundamental_div_mod(off as int, ps as int);
            let (q, m) = (off as int / ps as int, off as int % ps as int);
            assert(off as int - m + ps <= 0x1_0000_0000 * ps && 0x1_0000_0000 * ps
                <= 0xffff_ffff_0000_0000) by (nonlinear_arith)
                requires
                    off as int == ps * q + m,
                    q + 1 <= 0x1_0000_0000,
                    0 < ps <= 0xffff_ffff,
            ;
        }
        let po = off % ps;
        let key = PageKey { section_index: self.section_index, section_page_index: spi as u32 };
        let v = match book.registry.try_resolve_page(&key) {
            Some(h) => {
                let mut page = book.pager.page(h.pager_page_index);
                let _ = page.seek(&book.pager, SeekFrom::Start(po));
                page.read(&book.pager, len)
            },
            None => {
                let n: usize = if (len as u64) < ps - po {
                    len
                } else {
                    (ps - po) as usize
                };
                zeros(n)
            },
        };
        proof {
            assert forall|i: int| 0 <= i < v@.len() implies #[trigger] v@[i] == book.byte(
                self.section_index,
                off + i,
            ) by {
                lemma_same_page(ps as int, off as int, v@.len() as int, off + i);
            }
        }
        self.section_offset = off + v.len() as u64;
        Ok(v)
    }

    /// Writes as much of `buf` as fits before the end of the cursor's page,
    /// moves past it and returns how much was written. A section page
    /// without a pager page is first given a fresh, zeroed one. Fails with
    /// `InvalidInput` at an offset past the last addressable page, or when
    /// the registry has no page index left; the book and the cursor then
    /// stay.
    pub fn write(&mut self, book: &mut PagerBook, buf: &[u8]) -> (r: Result<usize, ErrorKind>)
        requires
            old(book).wf(),
        ensures
            final(self).index_spec() == old(self).index_spec(),
            final(book).wf(),
            final(book).page_size_spec() == old(book).page_size_spec(),
            old(book).registry_spec().keys().is_prefix_of(final(book).registry_spec().keys()),
            final(book).registry_spec().keys().len() <= old(book).registry_spec().keys().len() + 1,
            final(book).registry_spec().journal() == old(book).registry_spec().journal() + assignments(
                final(book).registry_spec().keys(),
                old(book).registry_spec().keys().len() as int,
            ),
            old(book).registry_spec().journal().is_prefix_of(
                final(book).registry_spec().journal(),
            ),
            !old(book).addressable(old(self).pos() as int) ==> r == Err::<usize, ErrorKind>(
                ErrorKind::InvalidInput,
            ),
            r is Err ==> *final(self) == *old(self) && *final(book) == *old(book) && r
                == Err::<usize, ErrorKind>(ErrorKind::InvalidInput),
            r matches Ok(n) ==> {
                let ps = old(book).page_size_spec() as int;
                let off = old(self).pos() as int;
                &&& old(book).addressable(off)
                &&& n == if buf@.len() < ps - off % ps {
                    buf@.len() as int
                } else {
                    ps - off % ps
                }
                &&& final(self).pos() == off + n
                &&& forall|s: SectionIndex, o: int| #[trigger]
                    final(book).byte(s, o) == if s == old(self).index_spec() && off <= o < off + n {
                        buf@[o - off]
                    } else {
                        old(book).byte(s, o)
                    }
            },
            old(book).addressable(old(self).pos() as int) && old(book).registry_spec().keys().len()
                < PAGE_INDEX_COUNT ==> r is Ok,
    {
        let ps = book.pager.page_size() as u64;
        let off = self.section_offset;
        let spi = off / ps;
        if spi >= PAGE_INDEX_COUNT {
            proof {
                lemma_fundamental_div_mod(off as int, ps as int);
                let (q, m) = (off as int / ps as int, off as int % ps as int);
                assert(off as int >= 0x1_0000_0000 * ps) by (nonlinear_arith)
                    requires
                        off as int == ps * q + m,
                        q >= 0x1_0000_0000,
                        m >= 0,
                        ps > 0,
                ;
            }
            return Err(ErrorKind::InvalidInput);
        }
        proof {
            lemma_fundamental_div_mod(off as int, ps as int);
            let (q, m) = (off as int / ps as int, off as int % ps as int);
            assert(off as int - m + ps <= 0x1_0000_0000 * ps && 0x1_0000_0000 * ps
                <= 0xffff_ffff_0000_0000) by (nonlinear_arith)
                requires
                    off as int == ps * q + m,
                    q + 1 <= 0x1_0000_0000,
                    0 < ps <= 0xffff_ffff,
            ;
            book.registry.lemma_page_indices_distinct();
        }
        let po = off % ps;
        let key = PageKey { section_index: self.section_index, section_page_index: spi as u32 };
        let ghost before = *book;
        let header = match book.registry.try_resolve_page(&key) {
            Some(h) => h,
            None => {
                let h = match book.registry.resolve_page(&key) {
                    Ok(h) => h,
                    Err(e) => return Err(e),
                };
                let blank = zeros(ps as usize);
                let mut fresh = book.pager.page(h.pager_page_index);
                let _ = fresh.write(&mut book.pager, blank.as_slice());
                proof {
                    assert forall|s: SectionIndex, o: int| #[trigger]
                        book.byte(s, o) == before.byte(s, o) by {
                        let q = o / ps as int;
                        if 0 <= o && q < PAGE_INDEX_COUNT {
                            let k = PageKey { section_index: s, section_page_index: q as u32 };
                            if k != key {
                                if let Some(p) = before.registry.lookup(k) {
                                    assert(p < before.registry.keys().len());
                                }
                            } else {
                                assert(0 <= o % (ps as int) < ps);
                            }
                        }
                    }
                }
                h
            },
        };
        let ghost mid = *book;
        proof {
            book.registry.lemma_page_indices_distinct();
        }
        let mut page = book.pager.page(header.pager_page_index);
        let _ = page.seek(&book.pager, SeekFrom::Start(po));
        let n = page.write(&mut book.pager, buf);
        proof {
            assert forall|s: SectionIndex, o: int| #[trigger]
                book.byte(s, o) == if s == self.section_index && off <= o < off + n {
                    buf@[o - off]
                } else {
                    before.byte(s, o)
                } by {
                assert(mid.byte(s, o) == before.byte(s, o));
                if o >= 0 {
                    lemma_same_page(ps as int, off as int, n as int, o);
                }
                let q = o / ps as int;
                if 0 <= o && q < PAGE_INDEX_COUNT {
                    let k = PageKey { section_index: s, section_page_index: q as u32 };
                    if k != key {
                        if let Some(p) = mid.registry.lookup(k) {
                            assert(mid.registry.keys()[p as int] == k);
                        }
                    }
                }
            }
        }
        self.section_offset = off + n as u64;
        Ok(n)
    }

    /// Reads exactly `len` bytes at the cursor and moves past them. Fails
    /// with `InvalidInput` when they reach past the last addressable page;
    /// the cursor is then somewhere in between.
    pub fn read_exact(&mut self, book: &PagerBook, len: usize) -> (r: Result<Vec<u8>, ErrorKind>)
        requires
            book.wf(),
        ensures
            final(self).index_spec() == old(self).index_spec(),
            book.addressable(old(self).pos() + len - 1) || len == 0 ==> r is Ok,
            r matches Ok(v) ==> {
                &&& v@.len() == len
                &&& forall|i: int|
                    0 <= i < len ==> #[trigger] v@[i] == book.byte(
                        old(self).index_spec(),
                        old(self).pos() + i,
                    )
                &&& final(self).pos() == old(self).pos() + len
            },
            r is Err ==> r == Err::<Vec<u8>, ErrorKind>(ErrorKind::InvalidInput),
    {
        let mut out: Vec<u8> = Vec::new();
        let ghost start = self.section_offset as int;
        while out.len() < len
            invariant
                book.wf(),
                self.index_spec() == old(self).index_spec(),
                out@.len() <= len,
                self.pos() == start + out@.len(),
                start == old(self).pos(),
                forall|i: int|
                    0 <= i < out@.len() ==> #[trigger] out@[i] == book.byte(
                        old(self).index_spec(),
                        start + i,
                    ),
            decreases len - out@.len(),
        {
            let ghost at = self.pos() as int;
            let part = match self.read(book, len - out.len()) {
                Ok(p) => p,
                Err(e) => {
                    assert(!book.addressable(at));
                    return Err(e);
                },
            };
            proof {
                let ps = book.page_size_spec() as int;
                assert(0 <= at % ps < ps) by {
                    lemma_fundamental_div_mod(at, ps);
                }
            }
            let ghost prev = out@;
            let mut i: usize = 0;
            while i < part.len()
                invariant
                    i <= part@.len(),
                    out@ == prev + part@.subrange(0, i as int),
                decreases part@.len() - i,
            {
                out.push(part[i]);
                i = i + 1;
                assert(out@ =~= prev + part@.subrange(0, i as int));
            }
            assert(part@.subrange(0, i as int) =~= part@);
        }
        Ok(out)
    }

    /// Writes all of `buf` at the cursor and moves past it. Fails with
    /// `InvalidInput` when it would reach past the last addressable page or
    /// the registry runs out of page indices; what was written before that
    /// stays written.
    pub fn write_all(&mut self, book: &mut PagerBook, buf: &[u8]) -> (r: Result<(), ErrorKind>)
        requires
            old(book).wf(),
        ensures
            final(self).index_spec() == old(self).index_spec(),
            final(book).wf(),
            final(book).page_size_spec() == old(book).page_size_spec(),
            old(book).registry_spec().keys().is_prefix_of(final(book).registry_spec().keys()),
            old(book).registry_spec().journal().is_prefix_of(
                final(book).registry_spec().journal(),
            ),
            final(book).registry_spec().journal() == old(book).registry_spec().journal() + assignments(
                final(book).registry_spec().keys(),
                old(book).registry_spec().keys().len() as int,
            ),
            final(book).registry_spec().keys().len() <= old(book).registry_spec().keys().len() + buf@.len(),
            r is Err ==> r == Err::<(), ErrorKind>(ErrorKind::InvalidInput),
            forall|s: SectionIndex, o: int|
                !(s == old(self).index_spec() && old(self).pos() <= o < old(self).pos()
                    + buf@.len()) ==> #[trigger] final(book).byte(s, o) == old(book).byte(s, o),
            (buf@.len() == 0 || old(book).addressable(old(self).pos() + buf@.len() - 1))
                && old(book).registry_spec().keys().len() + buf@.len() <= PAGE_INDEX_COUNT ==> r is Ok,
            r is Ok ==> {
                let off = old(self).pos() as int;
                &&& final(self).pos() == off + buf@.len()
                &&& forall|s: SectionIndex, o: int| #[trigger]
                    final(book).byte(s, o) == if s == old(self).index_spec() && off <= o < off
                        + buf@.len() {
                        buf@[o - off]
                    } else {
                        old(book).byte(s, o)
                    }
            },
    {
        let mut done: usize = 0;
        let ghost start = self.section_offset as int;
        while done < buf.len()
            invariant
                book.wf(),
                book.page_size_spec() == old(book).page_size_spec(),
                old(book).registry_spec().keys().is_prefix_of(book.registry_spec().keys()),
                old(book).registry_spec().journal().is_prefix_of(book.registry_spec().journal()),
                self.index_spec() == old(self).index_spec(),
                done <= buf@.len(),
                book.registry_spec().journal() == old(book).registry_spec().journal() + assignments(
                    book.registry_spec().keys(),
                    old(book).registry_spec().keys().len() as int,
                ),
                book.registry_spec().keys().len() <= old(book).registry_spec().keys().len() + done,
                start == old(self).pos(),
                self.pos() == start + done,
                forall|s: SectionIndex, o: int| #[trigger]
                    book.byte(s, o) == if s == old(self).index_spec() && start <= o < start
                        + done {
                        buf@[o - start]
                    } else {
                        old(book).byte(s, o)
                    },
            decreases buf@.len() - done,
        {
            let ghost prev = *book;
            let ghost at = self.pos() as int;
            let rest = vstd::slice::slice_subrange(buf, done, buf.len());
            let n = match self.write(book, rest) {
                Ok(n) => n,
                Err(e) => return Err(e),
            };
            assert(n > 0) by {
                let ps = prev.page_size_spec() as int;
                lemma_fundamental_div_mod(at, ps);
            }
            proof {
                lemma_assignments_extend(
                    prev.registry_spec().keys(),
                    book.registry_spec().keys(),
                    old(book).registry_spec().keys().len() as int,
                );
                let ps = book.page_size_spec() as int;
                assert(0 <= at % ps < ps) by {
                    lemma_fundamental_div_mod(at, ps);
                }
                assert(old(book).registry_spec().keys().is_prefix_of(book.registry_spec().keys()))
                    by {
                    assert(prev.registry_spec().keys().is_prefix_of(book.registry_spec().keys()));
                }
                assert(old(book).registry_spec().journal().is_prefix_of(
                    book.registry_spec().journal(),
                )) by {
                    assert(prev.registry_spec().journal().is_prefix_of(
                        book.registry_spec().journal(),
                    ));
                }
            }
            done = done + n;
        }
        Ok(())
    }

    /// Sections are held in memory; there is nothing to flush.
    pub fn flush(&mut self)
        ensures
            *final(self) == *old(self),
    {
    }
}

} // verus!
