use vstd::arithmetic::div_mod::lemma_fundamental_div_mod;
use vstd::prelude::*;

use crate::block::{BlockStorage, BlockStorageError};

verus! {

/// What went wrong in an operation on pages.
#[derive(Clone, Copy, Debug, PartialEq, Eq, Structural)]
pub enum PageStorageError {
    /// An error of the block storage underneath.
    BlockStorageError(BlockStorageError),
    /// A page larger than an occupied size can count, or data larger than
    /// the room left in a page.
    PageSizeExceeds,
    /// A header block size that does not hold whole occupied sizes.
    InvalidHeaderSize,
    /// A page index or byte range past the end.
    OutOfBounds,
}

/// The number of bytes of an occupied size.
pub const OCCUPIED_SIZE_BYTES: usize = 2;

/// The little-endian `u16` at `b[at]`.
pub open spec fn u16_at(b: Seq<u8>, at: int) -> nat {
    b[at] as nat + 256 * (b[at + 1] as nat)
}

/// A handle on a page.
#[derive(Clone, Copy, Debug)]
pub struct FastPage {
    page_index: usize,
}

impl FastPage {
    pub closed spec fn index_spec(&self) -> nat {
        self.page_index as nat
    }

    /// The index of the page.
    pub fn index(&self) -> (r: usize)
        ensures
            r == self.index_spec(),
    {
        self.page_index
    }
}

/// Pages whose data lie in the blocks of one storage, and whose occupied
/// sizes, two bytes each, lie in the blocks of another.
pub struct FastPageStorage<H, P> {
    header: H,
    pages: P,
    page_count: usize,
}

proof fn lemma_block_of(at: int, size: int)
    requires
        at >= 0,
        size > 0,
    ensures
        (at / size) * size + at % size == at,
        0 <= at % size < size,
        at / size >= 0,
{
    lemma_fundamental_div_mod(at, size);
    assert((at / size) * size == size * (at / size)) by (nonlinear_arith);
    assert(at / size >= 0) by (nonlinear_arith)
        requires
            at >= 0,
            size > 0,
    ;
}

/// Page `i` lies within the page storage.
proof fn lemma_page_span(i: int, size: int, count: int)
    requires
        0 <= i < count,
        size > 0,
    ensures
        i * size + size <= size * count,
        i * size >= 0,
{
    assert(i * size + size <= size * count && i * size >= 0) by (nonlinear_arith)
        requires
            0 <= i < count,
            size > 0,
    ;
}

/// Distinct pages occupy disjoint bytes.
proof fn lemma_pages_apart(i: int, j: int, size: int, count: int)
    requires
        0 <= i < count,
        0 <= j < count,
        i != j,
        size > 0,
    ensures
        j * size + size <= i * size || i * size + size <= j * size,
        j * size + size <= size * count,
        j * size >= 0,
{
    if j < i {
        assert(j * size + size <= i * size) by (nonlinear_arith)
            requires
                j < i,
                size > 0,
        ;
    } else {
        assert(i * size + size <= j * size) by (nonlinear_arith)
            requires
                i < j,
                size > 0,
        ;
    }
    lemma_page_span(j, size, count);
}

impl<H: BlockStorage, P: BlockStorage> FastPageStorage<H, P> {
    pub closed spec fn wf(&self) -> bool {
        &&& self.header.spec_wf()
        &&& self.pages.spec_wf()
        &&& self.header.spec_block_size() % 2 == 0
        &&& self.pages.spec_block_size() <= u16::MAX
        &&& self.page_count <= self.pages.spec_block_count()
        &&& 2 * self.page_count <= self.header.spec_block_size() * self.header.spec_block_count()
    }

    /// The size of a page.
    pub closed spec fn size_spec(&self) -> nat {
        self.pages.spec_block_size()
    }

    /// The number of pages.
    pub closed spec fn count_spec(&self) -> nat {
        self.page_count as nat
    }

    /// How many bytes of page `i` are occupied, as its header says.
    pub closed spec fn occupied(&self, i: int) -> nat {
        u16_at(self.header.spec_bytes(), 2 * i)
    }

    /// The bytes of page `i`.
    pub closed spec fn data(&self, i: int) -> Seq<u8> {
        let ps = self.pages.spec_block_size() as int;
        self.pages.spec_bytes().subrange(i * ps, i * ps + ps)
    }

    /// Pages over `pages`, with occupied sizes in `header`: as many as both
    /// hold. A page size past `u16::MAX` is refused (`PageSizeExceeds`), as
    /// is an odd header block size (`InvalidHeaderSize`).
    pub fn new(header: H, pages: P) -> (r: Result<Self, PageStorageError>)
        requires
            header.spec_wf(),
            pages.spec_wf(),
        ensures
            pages.spec_block_size() > u16::MAX ==> r == Err::<Self, PageStorageError>(
                PageStorageError::PageSizeExceeds,
            ),
            pages.spec_block_size() <= u16::MAX && header.spec_block_size() % 2 != 0 ==> r
                == Err::<Self, PageStorageError>(PageStorageError::InvalidHeaderSize),
            pages.spec_block_size() <= u16::MAX && header.spec_block_size() % 2 == 0 ==> (r matches Ok(
                g,
            ) && g.wf() && g.size_spec() == pages.spec_block_size() && g.count_spec() == if pages.spec_block_count()
                < header.spec_block_size() * header.spec_block_count() / 2 {
                pages.spec_block_count()
            } else {
                header.spec_block_size() * header.spec_block_count() / 2
            }),
    {
        if pages.block_size() > u16::MAX as usize {
            return Err(PageStorageError::PageSizeExceeds);
        }
        if header.block_size() % OCCUPIED_SIZE_BYTES != 0 {
            return Err(PageStorageError::InvalidHeaderSize);
        }
        let from_header = (header.block_count() * header.block_size()) / OCCUPIED_SIZE_BYTES;
        let from_pages = pages.block_count();
        let page_count = if from_pages < from_header {
            from_pages
        } else {
            from_header
        };
        proof {
            let (hs, hc) = (header.spec_block_size() as int, header.spec_block_count() as int);
            assert(hc * hs == hs * hc) by (nonlinear_arith);
        }
        Ok(FastPageStorage { header, pages, page_count })
    }

    /// A page size fits in a `u16`.
    pub proof fn lemma_size_fits(&self)
        requires
            self.wf(),
        ensures
            self.size_spec() <= u16::MAX,
    {
    }

    /// An occupied size fits in a `u16`.
    pub proof fn lemma_occupied_fits(&self, i: int)
        ensures
            self.occupied(i) <= u16::MAX,
    {
    }

    /// Each page holds a page size of bytes.
    pub proof fn lemma_data_len(&self, i: int)
        requires
            self.wf(),
            0 <= i < self.count_spec(),
        ensures
            self.data(i).len() == self.size_spec(),
    {
        self.pages.lemma_wf();
        let ps = self.pages.spec_block_size() as int;
        lemma_page_span(i, ps, self.pages.spec_block_count() as int);
    }

    /// The size of a page.
    pub fn page_size(&self) -> (r: usize)
        requires
            self.wf(),
        ensures
            r == self.size_spec(),
    {
        self.pages.block_size()
    }

    /// The number of pages.
    pub fn page_count(&self) -> (r: usize)
        ensures
            r == self.count_spec(),
    {
        self.page_count
    }

    /// A handle on page `index`; `OutOfBounds` past the last page.
    pub fn get_page(&self, index: usize) -> (r: Result<FastPage, PageStorageError>)
        ensures
            index < self.count_spec() ==> (r matches Ok(p) && p.index_spec() == index),
            index >= self.count_spec() ==> r == Err::<FastPage, PageStorageError>(
                PageStorageError::OutOfBounds,
            ),
    {
        if index >= self.page_count {
            return Err(PageStorageError::OutOfBounds);
        }
        Ok(FastPage { page_index: index })
    }

    /// The header block that holds the occupied size of page `i`, and the
    /// offset of that size in it.
    fn header_slot(&self, i: usize) -> (r: (usize, usize))
        requires
            self.wf(),
            i < self.page_count,
        ensures
            r.0 < self.header.spec_block_count(),
            r.1 + 1 < self.header.spec_block_size(),
            r.0 * self.header.spec_block_size() + r.1 == 2 * i,
            r.0 * self.header.spec_block_size() + self.header.spec_block_size()
                <= self.header.spec_block_size() * self.header.spec_block_count(),
    {
        let hbs = self.header.block_size();
        let at = i * OCCUPIED_SIZE_BYTES;
        proof {
            lemma_block_of(at as int, hbs as int);
            let (b, o, c) = ((at / hbs) as int, (at % hbs) as int, self.header.spec_block_count() as int);
            let z = hbs as int;
            assert(at + 2 <= z * c);
            if b >= c {
                assert(b * z >= c * z) by (nonlinear_arith)
                    requires
                        b >= c,
                        z > 0,
                ;
                assert(c * z == z * c) by (nonlinear_arith);
                assert(false);
            }
            assert(b * z + z <= z * c) by (nonlinear_arith)
                requires
                    b < c,
                    z > 0,
            ;
            vstd::arithmetic::div_mod::lemma_mod_breakdown(at as int, 2, (hbs / 2) as int);
            assert(o % 2 == 0) by {
                lemma_fundamental_div_mod(hbs as int, 2);
                vstd::arithmetic::div_mod::lemma_mod_mod(at as int, 2, (hbs / 2) as int);
            }
        }
        (at / hbs, at % hbs)
    }

    /// How many bytes of `page` are occupied.
    pub fn occupied_size(&self, page: &FastPage) -> (r: Result<usize, PageStorageError>)
        requires
            self.wf(),
            page.index_spec() < self.count_spec(),
        ensures
            r == Ok::<usize, PageStorageError>(self.occupied(page.index_spec() as int) as usize),
    {
        let (block, offset) = self.header_slot(page.page_index);
        let hbs = self.header.block_size();
        proof {
            vstd::arithmetic::div_mod::lemma_mod_self_0(hbs as int);
        }
        let bytes = match self.header.read_blocks(block, hbs) {
            Ok(b) => b,
            Err(e) => return Err(PageStorageError::BlockStorageError(e)),
        };
        Ok(bytes[offset] as usize + 256 * bytes[offset + 1] as usize)
    }

    /// How many bytes of `page` are free; `OutOfBounds` when its header
    /// claims more than a page.
    pub fn free_size(&self, page: &FastPage) -> (r: Result<usize, PageStorageError>)
        requires
            self.wf(),
            page.index_spec() < self.count_spec(),
        ensures
            self.occupied(page.index_spec() as int) <= self.size_spec() ==> r == Ok::<
                usize,
                PageStorageError,
            >((self.size_spec() - self.occupied(page.index_spec() as int)) as usize),
            self.occupied(page.index_spec() as int) > self.size_spec() ==> r == Err::<
                usize,
                PageStorageError,
            >(PageStorageError::OutOfBounds),
    {
        let occupied = match self.occupied_size(page) {
            Ok(o) => o,
            Err(e) => return Err(e),
        };
        let ps = self.pages.block_size();
        if occupied > ps {
            return Err(PageStorageError::OutOfBounds);
        }
        Ok(ps - occupied)
    }

    /// Reads `len` bytes at `offset` of `page`; `OutOfBounds` when they
    /// reach past its occupied bytes.
    pub fn read(&self, page: &FastPage, offset: usize, len: usize) -> (r: Result<
        Vec<u8>,
        PageStorageError,
    >)
        requires
            self.wf(),
            page.index_spec() < self.count_spec(),
        ensures
            ({
                let i = page.index_spec() as int;
                let ok = offset + len <= self.occupied(i) && offset + len <= self.size_spec();
                &&& ok ==> (r matches Ok(v) && v@ == self.data(i).subrange(
                    offset as int,
                    offset + len,
                ) && v@.len() == len)
                &&& !ok ==> r == Err::<Vec<u8>, PageStorageError>(PageStorageError::OutOfBounds)
            }),
    {
        let occupied = match self.occupied_size(page) {
            Ok(o) => o,
            Err(e) => return Err(e),
        };
        let ps = self.pages.block_size();
        if offset > occupied || len > occupied - offset || offset > ps || len > ps - offset {
            return Err(PageStorageError::OutOfBounds);
        }
        proof {
            lemma_page_span(page.page_index as int, ps as int, self.pages.spec_block_count() as int);
        }
        let block = match self.pages.read_blocks(page.page_index, ps) {
            Ok(b) => b,
            Err(e) => return Err(PageStorageError::BlockStorageError(e)),
        };
        let mut out: Vec<u8> = Vec::new();
        let mut t: usize = 0;
        while t < len
            invariant
                t <= len,
                offset + len <= ps,
                block@.len() == ps,
                out@ == block@.subrange(offset as int, offset + t),
            decreases len - t,
        {
            out.push(block[offset + t]);
            t = t + 1;
            assert(out@ =~= block@.subrange(offset as int, offset + t));
        }
        assert(out@ =~= self.data(page.page_index as int).subrange(offset as int, offset + len));
        Ok(out)
    }

    /// Sets the occupied size of page `i`.
    fn write_occupied_size(&mut self, i: usize, size: usize)
        requires
            old(self).wf(),
            i < old(self).page_count,
            size <= u16::MAX,
        ensures
            final(self).wf(),
            final(self).page_count == old(self).page_count,
            final(self).size_spec() == old(self).size_spec(),
            final(self).occupied(i as int) == size,
            forall|j: int| 0 <= j < old(self).page_count && j != i ==> #[trigger] final(self).occupied(j) == old(self).occupied(j),
            forall|j: int| #[trigger] final(self).data(j) == old(self).data(j),
    {
        let (block, offset) = self.header_slot(i);
        let hbs = self.header.block_size();
        proof {
            vstd::arithmetic::div_mod::lemma_mod_self_0(hbs as int);
        }
        let mut bytes = match self.header.read_blocks(block, hbs) {
            Ok(b) => b,
            Err(_) => return,
        };
        let ghost prior = bytes@;
        bytes.set(offset, (size % 256) as u8);
        bytes.set(offset + 1, (size / 256) as u8);
        let ghost old_header = self.header.spec_bytes();
        match self.header.write_blocks(block, bytes.as_slice()) {
            Ok(()) => {},
            Err(_) => return,
        }
        proof {
            let base = block * hbs;
            let h = self.header.spec_bytes();
            assert(h.len() == old_header.len());
            assert forall|p: int| 0 <= p < h.len() && p != 2 * i && p != 2 * i + 1 implies h[p]
                == old_header[p] by {
                if base <= p < base + hbs {
                    assert(h[p] == bytes@[p - base]);
                    assert(prior[p - base] == old_header[p]);
                }
            }
            assert(h[2 * i] == bytes@[offset as int]);
            assert(h[2 * i + 1] == bytes@[offset + 1]);
            assert forall|j: int| 0 <= j < old(self).page_count && j != i implies #[trigger] self.occupied(j) == old(self).occupied(j) by {
                assert(h[2 * j] == old_header[2 * j]);
                assert(h[2 * j + 1] == old_header[2 * j + 1]);
            }
        }
    }

    /// Writes `buf` into page `i` at `at`.
    fn write_page_data(&mut self, i: usize, at: usize, buf: &[u8])
        requires
            old(self).wf(),
            i < old(self).page_count,
            at + buf@.len() <= old(self).size_spec(),
        ensures
            final(self).wf(),
            final(self).page_count == old(self).page_count,
            final(self).size_spec() == old(self).size_spec(),
            final(self).data(i as int) == old(self).data(i as int).subrange(0, at as int) + buf@
                + old(self).data(i as int).subrange(at + buf@.len(), old(self).size_spec() as int),
            forall|j: int| 0 <= j < old(self).page_count && j != i ==> #[trigger] final(self).data(j) == old(self).data(j),
            forall|j: int| #[trigger] final(self).occupied(j) == old(self).occupied(j),
    {
        let ps = self.pages.block_size();
        proof {
            lemma_page_span(i as int, ps as int, self.pages.spec_block_count() as int);
            vstd::arithmetic::div_mod::lemma_mod_self_0(ps as int);
        }
        let mut block = match self.pages.read_blocks(i, ps) {
            Ok(b) => b,
            Err(_) => return,
        };
        let ghost prior = block@;
        let mut t: usize = 0;
        while t < buf.len()
            invariant
                t <= buf@.len(),
                at + buf@.len() <= ps,
                block@.len() == ps,
                forall|j: int|
                    0 <= j < ps ==> #[trigger] block@[j] == if at <= j < at + t {
                        buf@[j - at]
                    } else {
                        prior[j]
                    },
            decreases buf@.len() - t,
        {
            block.set(at + t, buf[t]);
            t = t + 1;
        }
        let ghost old_pages = self.pages.spec_bytes();
        match self.pages.write_blocks(i, block.as_slice()) {
            Ok(()) => {},
            Err(_) => return,
        }
        proof {
            let z = ps as int;
            let base = i * z;
            let b = self.pages.spec_bytes();
            assert(self.data(i as int) =~= old(self).data(i as int).subrange(0, at as int) + buf@
                + old(self).data(i as int).subrange(at + buf@.len(), z));
            assert forall|j: int| 0 <= j < old(self).page_count && j != i implies #[trigger] self.data(j) == old(self).data(j) by {
                lemma_pages_apart(i as int, j, z, self.pages.spec_block_count() as int);
                assert(self.data(j) =~= old(self).data(j));
            }
        }
    }

    /// Makes `buf` the whole of `page`'s data; `PageSizeExceeds` when it is
    /// larger than a page.
    pub fn write(&mut self, page: &FastPage, buf: &[u8]) -> (r: Result<(), PageStorageError>)
        requires
            old(self).wf(),
            page.index_spec() < old(self).count_spec(),
        ensures
            final(self).wf(),
            final(self).count_spec() == old(self).count_spec(),
            final(self).size_spec() == old(self).size_spec(),
            ({
                let i = page.index_spec() as int;
                &&& buf@.len() > old(self).size_spec() ==> r == Err::<(), PageStorageError>(
                    PageStorageError::PageSizeExceeds,
                ) && *final(self) == *old(self)
                &&& buf@.len() <= old(self).size_spec() ==> r is Ok && final(self).occupied(i)
                    == buf@.len() && final(self).data(i).subrange(0, buf@.len() as int) == buf@
            }),
            forall|j: int|
                0 <= j < old(self).count_spec() && j != page.index_spec() ==> #[trigger] final(self).data(j)
                    == old(self).data(j) && final(self).occupied(j) == old(self).occupied(j),
    {
        let ps = self.pages.block_size();
        if buf.len() > ps {
            return Err(PageStorageError::PageSizeExceeds);
        }
        self.write_page_data(page.page_index, 0, buf);
        self.write_occupied_size(page.page_index, buf.len());
        Ok(())
    }

    /// Appends `buf` after `page`'s occupied bytes; `PageSizeExceeds` when
    /// it is larger than the room left, `OutOfBounds` when the header
    /// claims more than a page.
    pub fn append(&mut self, page: &FastPage, buf: &[u8]) -> (r: Result<(), PageStorageError>)
        requires
            old(self).wf(),
            page.index_spec() < old(self).count_spec(),
        ensures
            final(self).wf(),
            final(self).count_spec() == old(self).count_spec(),
            final(self).size_spec() == old(self).size_spec(),
            ({
                let i = page.index_spec() as int;
                let occ = old(self).occupied(i);
                &&& occ > old(self).size_spec() ==> r == Err::<(), PageStorageError>(
                    PageStorageError::OutOfBounds,
                ) && *final(self) == *old(self)
                &&& occ <= old(self).size_spec() && buf@.len() > old(self).size_spec() - occ ==> r
                    == Err::<(), PageStorageError>(PageStorageError::PageSizeExceeds) && *final(self) == *old(self)
                &&& occ + buf@.len() <= old(self).size_spec() ==> r is Ok && final(self).occupied(
                    i,
                ) == occ + buf@.len() && final(self).data(i) == old(self).data(i).subrange(0, occ as int) + buf@
                    + old(self).data(i).subrange((occ + buf@.len()) as int, old(self).size_spec() as int)
            }),
            forall|j: int|
                0 <= j < old(self).count_spec() && j != page.index_spec() ==> #[trigger] final(self).data(j)
                    == old(self).data(j) && final(self).occupied(j) == old(self).occupied(j),
    {
        let occupied = match self.occupied_size(page) {
            Ok(o) => o,
            Err(e) => return Err(e),
        };
        let ps = self.pages.block_size();
        if occupied > ps {
            return Err(PageStorageError::OutOfBounds);
        }
        if buf.len() > ps - occupied {
            return Err(PageStorageError::PageSizeExceeds);
        }
        self.write_page_data(page.page_index, occupied, buf);
        self.write_occupied_size(page.page_index, occupied + buf.len());
        Ok(())
    }
}

} // verus!
