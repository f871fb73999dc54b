use vstd::prelude::*;

use crate::error::ErrorKind;

verus! {

/// The index of a page in a pager.
pub type PageIndex = u32;

/// The size of every page of a pager, in bytes.
pub type PageSize = u32;

/// A position to move a cursor to.
#[derive(Clone, Copy, Debug, PartialEq, Eq, Structural)]
pub enum SeekFrom {
    /// An absolute offset.
    Start(u64),
    /// An offset relative to the end anchor of the stream.
    End(i64),
    /// An offset relative to the current position.
    Current(i64),
}

/// The offset that a seek to `pos` names, given the current offset and the
/// end anchor of the stream. It may lie outside what the stream accepts.
pub open spec fn seek_target(pos: SeekFrom, current: int, end: int) -> int {
    match pos {
        SeekFrom::Start(o) => o as int,
        SeekFrom::End(d) => end + d,
        SeekFrom::Current(d) => current + d,
    }
}

/// A vector of `n` zero bytes.
pub fn zeros(n: usize) -> (r: Vec<u8>)
    ensures
        r@ == Seq::new(n as nat, |i: int| 0u8),
{
    let mut r: Vec<u8> = Vec::new();
    let mut i: usize = 0;
    while i < n
        invariant
            i <= n,
            r@ == Seq::new(i as nat, |j: int| 0u8),
        decreases n - i,
    {
        r.push(0u8);
        i = i + 1;
    }
    r
}

/// A store of fixed-size pages held in memory. Pages that were never written
/// read as zeros; writing to a page past the last one backs every page up to
/// it, as a file grows when written past its end.
pub struct MemoryPager {
    page_size: PageSize,
    pages: Vec<Vec<u8>>,
}

impl MemoryPager {
    /// Every backed page holds exactly `page_size` bytes.
    pub closed spec fn wf(&self) -> bool {
        &&& self.page_size > 0
        &&& forall|i: int|
            0 <= i < self.pages@.len() ==> #[trigger] self.pages@[i]@.len() == self.page_size
    }

    /// The size of each page.
    pub closed spec fn size(&self) -> nat {
        self.page_size as nat
    }

    /// A whole pager has pages of some size.
    pub proof fn lemma_size_positive(&self)
        requires
            self.wf(),
        ensures
            self.size() > 0,
    {
    }

    /// The number of pages backed by storage; pages from there on read as zeros.
    pub closed spec fn backed(&self) -> nat {
        self.pages@.len()
    }

    /// The byte at offset `o` of page `p`.
    pub closed spec fn byte(&self, p: int, o: int) -> u8 {
        if 0 <= p < self.pages@.len() && 0 <= o < self.pages@[p]@.len() {
            self.pages@[p]@[o]
        } else {
            0
        }
    }

    /// An empty pager whose pages hold `page_size` bytes each.
    pub fn new(page_size: PageSize) -> (r: Self)
        requires
            page_size > 0,
        ensures
            r.wf(),
            r.size() == page_size,
            r.backed() == 0,
            forall|p: int, o: int| r.byte(p, o) == 0,
    {
        MemoryPager { page_size, pages: Vec::new() }
    }

    /// A pager over the bytes of a page file: page `p` holds the bytes at
    /// `[p * page_size, (p + 1) * page_size)`, and bytes past the end of
    /// `data` read as zeros.
    pub fn from_bytes(page_size: PageSize, data: &[u8]) -> (r: Self)
        requires
            page_size > 0,
        ensures
            r.wf(),
            r.size() == page_size,
            forall|p: int, o: int|
                0 <= p && 0 <= o < page_size ==> #[trigger] r.byte(p, o) == if p * page_size + o
                    < data@.len() {
                    data@[p * page_size + o]
                } else {
                    0u8
                },
    {
        let ps = page_size as usize;
        let mut pages: Vec<Vec<u8>> = Vec::new();
        let mut base: usize = 0;
        proof {
            assert(pages@.len() * ps == 0) by (nonlinear_arith)
                requires
                    pages@.len() == 0,
            ;
        }
        while base < data.len()
            invariant
                ps == page_size as usize,
                ps > 0,
                base <= data@.len(),
                base == pages@.len() * ps || (base == data@.len() && pages@.len() * ps
                    >= data@.len()),
                forall|i: int| 0 <= i < pages@.len() ==> #[trigger] pages@[i]@.len() == ps,
                forall|p: int, o: int|
                    0 <= p < pages@.len() && 0 <= o < ps ==> #[trigger] pages@[p]@[o] == if p * ps
                        + o < data@.len() {
                        data@[p * ps + o]
                    } else {
                        0u8
                    },
            decreases data@.len() - base,
        {
            let mut page: Vec<u8> = Vec::new();
            let mut o: usize = 0;
            while o < ps
                invariant
                    ps == page_size as usize,
                    ps > 0,
                    base < data@.len(),
                    o <= ps,
                    page@.len() == o,
                    forall|j: int|
                        0 <= j < o ==> #[trigger] page@[j] == if base + j < data@.len() {
                            data@[base + j]
                        } else {
                            0u8
                        },
                decreases ps - o,
            {
                if o < data.len() - base {
                    page.push(data[base + o]);
                } else {
                    page.push(0u8);
                }
                o = o + 1;
            }
            proof {
                let n = pages@.len() as int;
                assert((n + 1) * ps == n * ps + ps) by (nonlinear_arith);
            }
            pages.push(page);
            if data.len() - base <= ps {
                base = data.len();
            } else {
                base = base + ps;
            }
        }
        let r = MemoryPager { page_size, pages };
        assert forall|p: int, o: int|
            0 <= p && 0 <= o < page_size implies #[trigger] r.byte(p, o) == if p * page_size + o
                < data@.len() {
                data@[p * page_size + o]
            } else {
                0u8
            } by {
            if p >= pages@.len() {
                let n = pages@.len() as int;
                assert(p * ps >= n * ps) by (nonlinear_arith)
                    requires
                        p >= n,
                        ps > 0,
                ;
            }
        }
        r
    }

    /// The size of each page.
    pub fn page_size(&self) -> (r: PageSize)
        ensures
            r == self.size(),
            self.wf() ==> r > 0,
    {
        self.page_size
    }

    /// A cursor at the start of page `page_index`.
    pub fn page(&self, page_index: PageIndex) -> (r: MemoryPage)
        ensures
            r.page_index() == page_index,
            r.pos() == 0,
    {
        MemoryPage { index: page_index, offset: 0 }
    }

    /// The backed pages, in order; page `p` belongs at `p * page_size` of a
    /// page file.
    pub fn pages(&self) -> (r: &Vec<Vec<u8>>)
        requires
            self.wf(),
        ensures
            r@.len() == self.backed(),
            forall|p: int| 0 <= p < r@.len() ==> (#[trigger] r@[p])@.len() == self.size(),
            forall|p: int, o: int|
                0 <= p < r@.len() && 0 <= o < self.size() ==> #[trigger] r@[p]@[o] == self.byte(
                    p,
                    o,
                ),
    {
        &self.pages
    }

    /// Backs every page up to `page_index` with storage; what the pages read
    /// does not change.
    fn back(&mut self, page_index: PageIndex)
        requires
            old(self).wf(),
        ensures
            final(self).wf(),
            final(self).size() == old(self).size(),
            final(self).backed() == if old(self).backed() > page_index {
                old(self).backed()
            } else {
                page_index as nat + 1
            },
            forall|p: int, o: int| #[trigger] final(self).byte(p, o) == old(self).byte(p, o),
    {
        while self.pages.len() <= page_index as usize
            invariant
                self.wf(),
                self.size() == old(self).size(),
                old(self).backed() <= self.backed(),
                self.backed() <= if old(self).backed() > page_index {
                    old(self).backed()
                } else {
                    page_index as nat + 1
                },
                forall|p: int, o: int| #[trigger] self.byte(p, o) == old(self).byte(p, o),
                forall|p: int|
                    old(self).backed() <= p < self.backed() ==> #[trigger] self.pages@[p]@
                        == Seq::new(self.page_size as nat, |i: int| 0u8),
            decreases page_index as int + 1 - self.pages@.len(),
        {
            let page = zeros(self.page_size as usize);
            let ghost before = *self;
            self.pages.push(page);
            assert forall|p: int, o: int| #[trigger] self.byte(p, o) == before.byte(p, o) by {
                if p == before.pages@.len() {
                    assert(before.byte(p, o) == 0);
                }
            }
        }
    }

    /// Writes `buf` into page `p` at offset `o`.
    fn write_at(&mut self, p: PageIndex, o: usize, buf: &[u8])
        requires
            old(self).wf(),
            o + buf@.len() <= old(self).size(),
        ensures
            final(self).wf(),
            final(self).size() == old(self).size(),
            final(self).backed() == if old(self).backed() > p {
                old(self).backed()
            } else {
                p as nat + 1
            },
            forall|q: int, j: int| #[trigger]
                final(self).byte(q, j) == if q == p && o <= j < o + buf@.len() {
                    buf@[j - o]
                } else {
                    old(self).byte(q, j)
                },
    {
        self.back(p);
        let ghost mid = *self;
        let ghost backed = self.pages@;
        let pi = p as usize;
        let mut page: Vec<u8> = Vec::new();
        std::mem::swap(&mut page, &mut self.pages[pi]);
        let ghost prior = page@;
        let mut i: usize = 0;
        while i < buf.len()
            invariant
                o + buf@.len() <= self.page_size,
                page@.len() == prior.len(),
                prior.len() == self.page_size,
                i <= buf@.len(),
                forall|j: int|
                    0 <= j < page@.len() ==> #[trigger] page@[j] == if o <= j < o + i {
                        buf@[j - o]
                    } else {
                        prior[j]
                    },
            decreases buf@.len() - i,
        {
            page.set(o + i, buf[i]);
            i = i + 1;
        }
        let ghost written = page@;
        std::mem::swap(&mut page, &mut self.pages[pi]);
        assert(self.pages@ =~= backed.update(pi as int, self.pages@[pi as int]));
        assert(self.pages@[pi as int]@ == written);
        assert forall|q: int, j: int| #[trigger]
            self.byte(q, j) == if q == p && o <= j < o + buf@.len() {
                buf@[j - o]
            } else {
                old(self).byte(q, j)
            } by {
            assert(mid.byte(q, j) == old(self).byte(q, j));
            if q == p {
                assert(0 <= q < self.pages@.len());
                if 0 <= j < self.page_size {
                    assert(self.byte(q, j) == written[j]);
                }
            } else if 0 <= q < self.pages@.len() {
                assert(self.pages@[q] == backed[q]);
            }
        }
    }
}

/// A cursor over one page of a pager. Cursors are independent of each other:
/// each carries its own offset, and every cursor of a page sees what any of
/// them wrote.
#[derive(Clone, Copy, Debug)]
pub struct MemoryPage {
    index: PageIndex,
    offset: u64,
}

impl MemoryPage {
    /// The page this cursor moves over.
    pub closed spec fn page_index(&self) -> PageIndex {
        self.index
    }

    /// The cursor's offset within the page.
    pub closed spec fn pos(&self) -> nat {
        self.offset as nat
    }

    /// The page this cursor moves over.
    pub fn index(&self) -> (r: PageIndex)
        ensures
            r == self.page_index(),
    {
        self.index
    }

    /// The cursor's offset within the page.
    pub fn stream_position(&self) -> (r: u64)
        ensures
            r == self.pos(),
    {
        self.offset
    }

    /// Moves the cursor to the start of the page.
    pub fn rewind(&mut self)
        ensures
            final(self).pos() == 0,
            final(self).page_index() == old(self).page_index(),
    {
        self.offset = 0;
    }

    /// Moves the cursor; the end anchor is the page size. A target outside
    /// `[0, page_size]` fails with `InvalidInput` and leaves the cursor.
    pub fn seek(&mut self, pager: &MemoryPager, pos: SeekFrom) -> (r: Result<u64, ErrorKind>)
        requires
            pager.wf(),
            old(self).pos() <= pager.size(),
        ensures
            final(self).page_index() == old(self).page_index(),
            ({
                let t = seek_target(pos, old(self).pos() as int, pager.size() as int);
                if 0 <= t <= pager.size() {
                    r == Ok::<u64, ErrorKind>(t as u64) && final(self).pos() == t
                } else {
                    r == Err::<u64, ErrorKind>(ErrorKind::InvalidInput) && *final(self) == *old(self)
                }
            }),
    {
        let ps = pager.page_size() as u64;
        let target = match pos {
            SeekFrom::Start(o) => {
                if o > ps {
                    return Err(ErrorKind::InvalidInput);
                }
                o
            },
            SeekFrom::End(d) => {
                if d > 0 {
                    return Err(ErrorKind::InvalidInput);
                }
                let t = ps as i64 + d;
                if t < 0 {
                    return Err(ErrorKind::InvalidInput);
                }
                t as u64
            },
            SeekFrom::Current(d) => {
                if d > 0 {
                    if d as u64 > ps - self.offset {
                        return Err(ErrorKind::InvalidInput);
                    }
                    self.offset + d as u64
                } else {
                    let t = self.offset as i64 + d;
                    if t < 0 {
                        return Err(ErrorKind::InvalidInput);
                    }
                    t as u64
                }
            },
        };
        self.offset = target;
        Ok(target)
    }

    /// Moves the cursor by `offset` bytes; as `seek` from the current offset.
    pub fn seek_relative(&mut self, pager: &MemoryPager, offset: i64) -> (r: Result<(), ErrorKind>)
        requires
            pager.wf(),
            old(self).pos() <= pager.size(),
        ensures
            final(self).page_index() == old(self).page_index(),
            ({
                let t = old(self).pos() + offset;
                if 0 <= t <= pager.size() {
                    r is Ok && final(self).pos() == t
                } else {
                    r == Err::<(), ErrorKind>(ErrorKind::InvalidInput) && *final(self) == *old(self)
                }
            }),
    {
        match self.seek(pager, SeekFrom::Current(offset)) {
            Ok(_) => Ok(()),
            Err(e) => Err(e),
        }
    }

    /// Reads up to `len` bytes from the cursor, never past the end of the
    /// page, and moves the cursor past them.
    pub fn read(&mut self, pager: &MemoryPager, len: usize) -> (r: Vec<u8>)
        requires
            pager.wf(),
            old(self).pos() <= pager.size(),
        ensures
            r@.len() == if len < pager.size() - old(self).pos() {
                len as int
            } else {
                pager.size() - old(self).pos()
            },
            forall|i: int|
                0 <= i < r@.len() ==> #[trigger] r@[i] == pager.byte(
                    old(self).page_index() as int,
                    old(self).pos() + i,
                ),
            final(self).pos() == old(self).pos() + r@.len(),
            final(self).page_index() == old(self).page_index(),
    {
        let ps = pager.page_size() as u64;
        let n: usize = if (len as u64) < ps - self.offset {
            len
        } else {
            (ps - self.offset) as usize
        };
        let pi = self.index as usize;
        let start = self.offset as usize;
        let mut r: Vec<u8> = Vec::new();
        let mut i: usize = 0;
        while i < n
            invariant
                i <= n,
                start + n <= pager.size(),
                pager.wf(),
                pi == self.index,
                start == self.offset,
                r@.len() == i,
                forall|j: int|
                    0 <= j < i ==> #[trigger] r@[j] == pager.byte(pi as int, start + j),
            decreases n - i,
        {
            if pi < pager.pages.len() {
                r.push(pager.pages[pi][start + i]);
            } else {
                r.push(0u8);
            }
            i = i + 1;
        }
        self.offset = self.offset + n as u64;
        r
    }

    /// Writes as much of `buf` as fits before the end of the page at the
    /// cursor, moves the cursor past it, and returns how much was written.
    pub fn write(&mut self, pager: &mut MemoryPager, buf: &[u8]) -> (n: usize)
        requires
            old(pager).wf(),
            old(self).pos() <= old(pager).size(),
        ensures
            n == if buf@.len() < old(pager).size() - old(self).pos() {
                buf@.len() as int
            } else {
                old(pager).size() - old(self).pos()
            },
            final(pager).wf(),
            final(pager).size() == old(pager).size(),
            final(pager).backed() >= old(pager).backed(),
            final(pager).backed() > old(self).page_index(),
            forall|q: int, j: int| #[trigger]
                final(pager).byte(q, j) == if q == old(self).page_index() && old(self).pos() <= j
                    < old(self).pos() + n {
                    buf@[j - old(self).pos()]
                } else {
                    old(pager).byte(q, j)
                },
            final(self).pos() == old(self).pos() + n,
            final(self).page_index() == old(self).page_index(),
    {
        let ps = pager.page_size() as u64;
        let n: usize = if (buf.len() as u64) < ps - self.offset {
            buf.len()
        } else {
            (ps - self.offset) as usize
        };
        let part = vstd::slice::slice_subrange(buf, 0, n);
        pager.write_at(self.index, self.offset as usize, part);
        self.offset = self.offset + n as u64;
        n
    }

    /// Nothing is buffered in memory, so there is nothing to flush.
    pub fn flush(&mut self)
        ensures
            *final(self) == *old(self),
    {
    }
}

} // verus!
