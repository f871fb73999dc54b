use core::ops::Range;
use vstd::prelude::*;

verus! {

/// What went wrong in an operation on blocks.
#[derive(Clone, Copy, Debug, PartialEq, Eq, Structural)]
pub enum BlockStorageError {
    /// A block index or a byte range past the end of the storage or block.
    OutOfBounds,
    /// A size that is not a whole number of blocks.
    BufferSizeMisalignment,
}

/// Whether reading or writing `len` bytes from block `index` of a storage
/// of `count` blocks of `size` bytes can be done, and if not why.
pub open spec fn span_check(size: nat, count: nat, index: int, len: int) -> Result<
    (),
    BlockStorageError,
> {
    if len % (size as int) != 0 {
        Err(BlockStorageError::BufferSizeMisalignment)
    } else if index * size + len > size * count {
        Err(BlockStorageError::OutOfBounds)
    } else {
        Ok(())
    }
}

/// A handle on one block.
pub trait Block {
    /// The size of the block.
    fn size(&self) -> usize;

    /// The index of the block in its storage.
    fn index(&self) -> usize;
}

/// Storage made of blocks of one size, read and written whole blocks at a
/// time.
pub trait BlockStorage {
    /// The storage is well formed.
    spec fn spec_wf(&self) -> bool;

    /// The size of each block.
    spec fn spec_block_size(&self) -> nat;

    /// The number of blocks.
    spec fn spec_block_count(&self) -> nat;

    /// The bytes of all blocks, one after the other.
    spec fn spec_bytes(&self) -> Seq<u8>;

    /// A well-formed storage has blocks of some size, and as many bytes as
    /// its blocks hold.
    proof fn lemma_wf(&self)
        requires
            self.spec_wf(),
        ensures
            self.spec_block_size() > 0,
            self.spec_bytes().len() == self.spec_block_size() * self.spec_block_count(),
            self.spec_block_size() * self.spec_block_count() <= usize::MAX,
    ;

    /// The size of each block.
    fn block_size(&self) -> (r: usize)
        requires
            self.spec_wf(),
        ensures
            r == self.spec_block_size(),
            r > 0,
            self.spec_bytes().len() == self.spec_block_size() * self.spec_block_count(),
            self.spec_block_size() * self.spec_block_count() <= usize::MAX,
    ;

    /// The number of blocks.
    fn block_count(&self) -> (r: usize)
        requires
            self.spec_wf(),
        ensures
            r == self.spec_block_count(),
    ;

    /// Reads `len` bytes, a whole number of blocks, from block `index` on.
    fn read_blocks(&self, index: usize, len: usize) -> (r: Result<Vec<u8>, BlockStorageError>)
        requires
            self.spec_wf(),
        ensures
            ({
                let size = self.spec_block_size();
                match span_check(size, self.spec_block_count(), index as int, len as int) {
                    Err(e) => r == Err::<Vec<u8>, BlockStorageError>(e),
                    Ok(_) => r matches Ok(v) && v@ == self.spec_bytes().subrange(
                        index * size,
                        index * size + len,
                    ),
                }
            }),
    ;

    /// Writes `buf`, a whole number of blocks, from block `index` on.
    fn write_blocks(&mut self, index: usize, buf: &[u8]) -> (r: Result<(), BlockStorageError>)
        requires
            old(self).spec_wf(),
        ensures
            final(self).spec_wf(),
            final(self).spec_block_size() == old(self).spec_block_size(),
            final(self).spec_block_count() == old(self).spec_block_count(),
            ({
                let size = old(self).spec_block_size();
                let start = index * size;
                match span_check(size, old(self).spec_block_count(), index as int, buf@.len() as int) {
                    Err(e) => r == Err::<(), BlockStorageError>(e) && final(self).spec_bytes()
                        == old(self).spec_bytes(),
                    Ok(_) => r is Ok && final(self).spec_bytes() == old(self).spec_bytes().subrange(
                        0,
                        start,
                    ) + buf@ + old(self).spec_bytes().subrange(
                        start + buf@.len(),
                        old(self).spec_bytes().len() as int,
                    ),
                }
            }),
    ;
}

/// Checks a span as `span_check` does and gives its first byte.
pub(crate) fn check_span(size: usize, count: usize, index: usize, len: usize) -> (r: Result<
    usize,
    BlockStorageError,
>)
    requires
        size > 0,
        size * count <= usize::MAX,
    ensures
        match span_check(size as nat, count as nat, index as int, len as int) {
            Err(e) => r == Err::<usize, BlockStorageError>(e),
            Ok(_) => r == Ok::<usize, BlockStorageError>((index * size) as usize) && index * size
                + len <= size * count && index * size >= 0,
        },
{
    if len % size != 0 {
        return Err(BlockStorageError::BufferSizeMisalignment);
    }
    if index > count {
        proof {
            lemma_index_past(size as int, count as int, index as int, len as int);
        }
        return Err(BlockStorageError::OutOfBounds);
    }
    proof {
        assert(index * size <= size * count && index * size >= 0) by (nonlinear_arith)
            requires
                index <= count,
                size > 0,
        ;
    }
    let start = index * size;
    if len > size * count - start {
        return Err(BlockStorageError::OutOfBounds);
    }
    Ok(start)
}

/// Why a buffer cannot become block storage.
#[derive(Clone, Copy, Debug, PartialEq, Eq, Structural)]
pub enum MemoryBlockStorageError {
    /// Its length is not a whole number of blocks.
    BufferSizeMisalignment,
}

/// A handle on a block of a `MemoryBlockStorage`.
#[derive(Clone, Copy, Debug)]
pub struct MemoryBlock {
    index: usize,
    block_size: usize,
}

impl Block for MemoryBlock {
    fn size(&self) -> usize {
        self.block_size
    }

    fn index(&self) -> usize {
        self.index
    }
}

impl MemoryBlock {
    /// The index of the block.
    pub closed spec fn index_spec(&self) -> nat {
        self.index as nat
    }

    /// The size of the block.
    pub closed spec fn size_spec(&self) -> nat {
        self.block_size as nat
    }
}

/// Blocks held in one buffer in memory.
#[derive(Debug)]
pub struct MemoryBlockStorage {
    buffer: Vec<u8>,
    block_count: usize,
    block_size: usize,
}

proof fn lemma_span(size: int, count: int, index: int, offset: int, len: int)
    requires
        size > 0,
        0 <= index < count,
        0 <= offset,
        0 <= len,
        offset + len <= size,
    ensures
        index * size + offset + len <= size * count,
        index * size >= 0,
{
    assert(index * size + size <= size * count) by (nonlinear_arith)
        requires
            index < count,
            size > 0,
    ;
    assert(index * size >= 0) by (nonlinear_arith)
        requires
            index >= 0,
            size > 0,
    ;
}

impl MemoryBlockStorage {
    pub closed spec fn wf(&self) -> bool {
        &&& self.block_size > 0
        &&& self.buffer@.len() == self.block_size * self.block_count
        &&& self.block_size * self.block_count <= usize::MAX
    }

    /// The bytes of all blocks.
    pub closed spec fn bytes(&self) -> Seq<u8> {
        self.buffer@
    }

    pub closed spec fn size_spec(&self) -> nat {
        self.block_size as nat
    }

    pub closed spec fn count_spec(&self) -> nat {
        self.block_count as nat
    }

    /// `block_count` zeroed blocks of `block_size` bytes.
    pub fn allocate(block_size: usize, block_count: usize) -> (r: Self)
        requires
            block_size > 0,
            block_size * block_count <= usize::MAX,
        ensures
            r.wf(),
            r.size_spec() == block_size,
            r.count_spec() == block_count,
            r.bytes() == Seq::new((block_size * block_count) as nat, |i: int| 0u8),
    {
        let buffer = crate::pager::zeros(block_size * block_count);
        MemoryBlockStorage { buffer, block_count, block_size }
    }

    /// Blocks of `block_size` bytes over `buffer`; a buffer that is not a
    /// whole number of blocks is refused.
    pub fn from_buffer(buffer: Vec<u8>, block_size: usize) -> (r: Result<
        Self,
        MemoryBlockStorageError,
    >)
        requires
            block_size > 0,
        ensures
            (buffer@.len() as int) % (block_size as int) != 0 ==> r == Err::<Self, MemoryBlockStorageError>(
                MemoryBlockStorageError::BufferSizeMisalignment,
            ),
            (buffer@.len() as int) % (block_size as int) == 0 ==> (r matches Ok(s) && s.wf() && s.bytes()
                == buffer@ && s.size_spec() == block_size && s.count_spec() == (buffer@.len() as int)
                / (block_size as int)),
    {
        let total = buffer.len();
        if total % block_size != 0 {
            return Err(MemoryBlockStorageError::BufferSizeMisalignment);
        }
        let block_count = total / block_size;
        proof {
            vstd::arithmetic::div_mod::lemma_fundamental_div_mod(total as int, block_size as int);
        }
        Ok(MemoryBlockStorage { buffer, block_count, block_size })
    }

    /// The buffer back.
    pub fn try_into_buffer(self) -> (r: Result<Vec<u8>, Self>)
        ensures
            r matches Ok(b) && b@ == self.bytes(),
    {
        Ok(self.buffer)
    }

    /// A handle on block `index`; `OutOfBounds` past the last block.
    pub fn get_block(&self, index: usize) -> (r: Result<MemoryBlock, BlockStorageError>)
        ensures
            index < self.count_spec() ==> (r matches Ok(b) && b.index_spec() == index
                && b.size_spec() == self.size_spec()),
            index >= self.count_spec() ==> r == Err::<MemoryBlock, BlockStorageError>(
                BlockStorageError::OutOfBounds,
            ),
    {
        if index >= self.block_count {
            return Err(BlockStorageError::OutOfBounds);
        }
        Ok(MemoryBlock { index, block_size: self.block_size })
    }

    /// Reads `len` bytes at `offset` of `block`; `OutOfBounds` when they
    /// reach past the block, or the block past the storage.
    pub fn read(&self, block: &MemoryBlock, offset: usize, len: usize) -> (r: Result<
        Vec<u8>,
        BlockStorageError,
    >)
        requires
            self.wf(),
        ensures
            (offset + len <= block.size_spec() && block.size_spec() == self.size_spec()
                && block.index_spec() < self.count_spec()) ==> (r matches Ok(v) && v@
                == self.bytes().subrange(
                block.index_spec() * self.size_spec() + offset,
                block.index_spec() * self.size_spec() + offset + len,
            )),
            !(offset + len <= block.size_spec() && block.size_spec() == self.size_spec()
                && block.index_spec() < self.count_spec()) ==> r == Err::<
                Vec<u8>,
                BlockStorageError,
            >(BlockStorageError::OutOfBounds),
    {
        if block.block_size != self.block_size || block.index >= self.block_count || offset
            > block.block_size || len > block.block_size - offset {
            return Err(BlockStorageError::OutOfBounds);
        }
        proof {
            lemma_span(
                self.block_size as int,
                self.block_count as int,
                block.index as int,
                offset as int,
                len as int,
            );
        }
        let n = self.buffer.len();
        let start = block.index * self.block_size + offset;
        let mut out: Vec<u8> = Vec::new();
        let mut i: usize = 0;
        while i < len
            invariant
                i <= len,
                n == self.buffer@.len(),
                start + len <= self.buffer@.len(),
                out@ == self.buffer@.subrange(start as int, start + i),
            decreases len - i,
        {
            out.push(self.buffer[start + i]);
            i = i + 1;
            assert(out@ =~= self.buffer@.subrange(start as int, start + i));
        }
        Ok(out)
    }

    /// Writes `buf` at `offset` of `block`; `OutOfBounds`, writing nothing,
    /// when it would reach past the block, or the block past the storage.
    pub fn write(&mut self, block: &MemoryBlock, offset: usize, buf: &[u8]) -> (r: Result<
        (),
        BlockStorageError,
    >)
        requires
            old(self).wf(),
        ensures
            final(self).wf(),
            final(self).size_spec() == old(self).size_spec(),
            final(self).count_spec() == old(self).count_spec(),
            ({
                let ok = offset + buf@.len() <= block.size_spec() && block.size_spec() == old(self).size_spec() && block.index_spec() < old(self).count_spec();
                let start = block.index_spec() * old(self).size_spec() + offset;
                &&& ok ==> r is Ok && final(self).bytes() == old(self).bytes().subrange(0, start)
                    + buf@ + old(self).bytes().subrange(
                    start + buf@.len(),
                    old(self).bytes().len() as int,
                )
                &&& !ok ==> r == Err::<(), BlockStorageError>(BlockStorageError::OutOfBounds)
                    && final(self).bytes() == old(self).bytes()
            }),
    {
        if block.block_size != self.block_size || block.index >= self.block_count || offset
            > block.block_size || buf.len() > block.block_size - offset {
            return Err(BlockStorageError::OutOfBounds);
        }
        proof {
            lemma_span(
                self.block_size as int,
                self.block_count as int,
                block.index as int,
                offset as int,
                buf@.len() as int,
            );
        }
        let _ = self.buffer.len();
        let start = block.index * self.block_size + offset;
        self.put(start, buf);
        Ok(())
    }

    /// Writes `buf` over the buffer from `start`.
    fn put(&mut self, start: usize, buf: &[u8])
        requires
            old(self).wf(),
            start + buf@.len() <= old(self).buffer@.len(),
        ensures
            final(self).wf(),
            final(self).block_size == old(self).block_size,
            final(self).block_count == old(self).block_count,
            final(self).buffer@ == old(self).buffer@.subrange(0, start as int) + buf@ + old(self).buffer@.subrange(start + buf@.len(), old(self).buffer@.len() as int),
    {
        let n = self.buffer.len();
        let mut i: usize = 0;
        while i < buf.len()
            invariant
                i <= buf@.len(),
                n == self.buffer@.len(),
                start + buf@.len() <= self.buffer@.len(),
                self.block_size == old(self).block_size,
                self.block_count == old(self).block_count,
                self.buffer@.len() == old(self).buffer@.len(),
                forall|j: int|
                    0 <= j < self.buffer@.len() ==> #[trigger] self.buffer@[j] == if start <= j
                        < start + i {
                        buf@[j - start]
                    } else {
                        old(self).buffer@[j]
                    },
            decreases buf@.len() - i,
        {
            self.buffer.set(start + i, buf[i]);
            i = i + 1;
        }
        assert(self.buffer@ =~= old(self).buffer@.subrange(0, start as int) + buf@ + old(self).buffer@.subrange(start + buf@.len(), old(self).buffer@.len() as int));
    }
}

impl BlockStorage for MemoryBlockStorage {
    open spec fn spec_wf(&self) -> bool {
        self.wf()
    }

    open spec fn spec_block_size(&self) -> nat {
        self.size_spec()
    }

    open spec fn spec_block_count(&self) -> nat {
        self.count_spec()
    }

    open spec fn spec_bytes(&self) -> Seq<u8> {
        self.bytes()
    }

    proof fn lemma_wf(&self) {
    }

    fn block_size(&self) -> (r: usize) {
        let _ = self.buffer.len();
        self.block_size
    }

    fn block_count(&self) -> (r: usize) {
        self.block_count
    }

    fn read_blocks(&self, index: usize, len: usize) -> (r: Result<Vec<u8>, BlockStorageError>) {
        let _ = self.buffer.len();
        let start = match check_span(self.block_size, self.block_count, index, len) {
            Ok(start) => start,
            Err(e) => return Err(e),
        };
        let n = self.buffer.len();
        let mut out: Vec<u8> = Vec::new();
        let mut i: usize = 0;
        while i < len
            invariant
                i <= len,
                n == self.buffer@.len(),
                start + len <= self.buffer@.len(),
                out@ == self.buffer@.subrange(start as int, start + i),
            decreases len - i,
        {
            out.push(self.buffer[start + i]);
            i = i + 1;
            assert(out@ =~= self.buffer@.subrange(start as int, start + i));
        }
        Ok(out)
    }

    fn write_blocks(&mut self, index: usize, buf: &[u8]) -> (r: Result<(), BlockStorageError>) {
        let _ = self.buffer.len();
        let start = match check_span(self.block_size, self.block_count, index, buf.len()) {
            Ok(start) => start,
            Err(e) => return Err(e),
        };
        self.put(start, buf);
        Ok(())
    }
}

/// Reading past the blocks' end is out of bounds.
proof fn lemma_index_past(size: int, count: int, index: int, len: int)
    requires
        size > 0,
        count >= 0,
        index >= 0,
        len >= 0,
        index > count || len > (count - index) * size,
    ensures
        index * size + len > size * count,
{
    if index > count {
        assert(index * size > count * size) by (nonlinear_arith)
            requires
                index > count,
                size > 0,
        ;
    }
    assert((count - index) * size == size * count - index * size) by (nonlinear_arith);
}

/// Reading within the blocks' end stays within the buffer.
proof fn lemma_index_within(size: int, count: int, index: int, len: int)
    requires
        size > 0,
        0 <= index <= count,
        len >= 0,
        len <= (count - index) * size,
    ensures
        index * size + len <= size * count,
        index * size >= 0,
        index * size <= size * count,
{
    assert((count - index) * size == size * count - index * size) by (nonlinear_arith);
    assert(index * size >= 0) by (nonlinear_arith)
        requires
            index >= 0,
            size > 0,
    ;
}

/// Why a range of blocks cannot be taken.
#[derive(Clone, Copy, Debug, PartialEq, Eq, Structural)]
pub enum RangeBlockStorageError {
    /// The range is reversed or reaches past the storage.
    InvalidRange,
}

/// A run of consecutive blocks of another storage, seen as a storage of
/// its own.
pub struct RangeBlockStorage<S> {
    storage: S,
    start_index: usize,
    block_count: usize,
}

impl<S: BlockStorage> RangeBlockStorage<S> {
    /// The blocks of `storage` in `range`; a reversed range, or one past
    /// the last block, is refused.
    pub fn new(storage: S, range: Range<usize>) -> (r: Result<Self, RangeBlockStorageError>)
        requires
            storage.spec_wf(),
        ensures
            range.start <= range.end <= storage.spec_block_count() ==> (r matches Ok(g)
                && g.spec_wf() && g.spec_block_count() == range.end - range.start
                && g.spec_block_size() == storage.spec_block_size() && g.spec_bytes()
                == storage.spec_bytes().subrange(
                range.start * storage.spec_block_size(),
                range.end * storage.spec_block_size(),
            )),
            !(range.start <= range.end <= storage.spec_block_count()) ==> r == Err::<
                Self,
                RangeBlockStorageError,
            >(RangeBlockStorageError::InvalidRange),
    {
        let count = storage.block_count();
        if range.start > range.end || range.end > count {
            return Err(RangeBlockStorageError::InvalidRange);
        }
        let _ = storage.block_size();
        proof {
            let (a, b, c, z) = (
                range.start as int,
                range.end as int,
                count as int,
                storage.spec_block_size() as int,
            );
            assert(a * z <= b * z && b * z <= z * c && (b - a) * z == b * z - a * z && a * z >= 0)
                by (nonlinear_arith)
                requires
                    0 <= a <= b <= c,
                    z > 0,
            ;
        }
        Ok(RangeBlockStorage { storage, start_index: range.start, block_count: range.end - range.start })
    }

    /// The underlying storage.
    pub fn into_inner(self) -> (r: S)
        ensures
            r == self.inner(),
    {
        self.storage
    }

    pub closed spec fn inner(&self) -> S {
        self.storage
    }
}

impl<S: BlockStorage> BlockStorage for RangeBlockStorage<S> {
    closed spec fn spec_wf(&self) -> bool {
        &&& self.storage.spec_wf()
        &&& self.start_index + self.block_count <= self.storage.spec_block_count()
    }

    closed spec fn spec_block_size(&self) -> nat {
        self.storage.spec_block_size()
    }

    closed spec fn spec_block_count(&self) -> nat {
        self.block_count as nat
    }

    closed spec fn spec_bytes(&self) -> Seq<u8> {
        self.storage.spec_bytes().subrange(
            self.start_index * self.storage.spec_block_size(),
            (self.start_index + self.block_count) * self.storage.spec_block_size(),
        )
    }

    proof fn lemma_wf(&self) {
        self.storage.lemma_wf();
        let (a, n, c, z) = (
            self.start_index as int,
            self.block_count as int,
            self.storage.spec_block_count() as int,
            self.storage.spec_block_size() as int,
        );
        assert(a * z <= (a + n) * z && (a + n) * z <= z * c && (a + n) * z - a * z == z * n
            && z * n <= z * c && a * z >= 0) by (nonlinear_arith)
            requires
                a >= 0,
                n >= 0,
                a + n <= c,
                z > 0,
        ;
    }

    fn block_size(&self) -> (r: usize) {
        let r = self.storage.block_size();
        proof {
            let (a, n, c, z) = (
                self.start_index as int,
                self.block_count as int,
                self.storage.spec_block_count() as int,
                r as int,
            );
            assert(a * z <= (a + n) * z && (a + n) * z <= z * c && (a + n) * z - a * z == z * n
                && z * n <= z * c && a * z >= 0) by (nonlinear_arith)
                requires
                    a >= 0,
                    n >= 0,
                    a + n <= c,
                    z > 0,
            ;
        }
        r
    }

    fn block_count(&self) -> (r: usize) {
        self.block_count
    }

    fn read_blocks(&self, index: usize, len: usize) -> (r: Result<Vec<u8>, BlockStorageError>) {
        let size = self.block_size();
        let _ = self.storage.block_size();
        let _ = self.storage.block_count();
        match check_span(size, self.block_count, index, len) {
            Ok(_) => {},
            Err(e) => return Err(e),
        }
        let count = self.storage.block_count();
        proof {
            let (a, i, z, n, c) = (
                self.start_index as int,
                index as int,
                size as int,
                self.block_count as int,
                self.storage.spec_block_count() as int,
            );
            assert((a + i) * z == a * z + i * z && (a + n) * z == a * z + n * z && a * z >= 0
                && z * n <= z * c && i * z >= 0) by (nonlinear_arith)
                requires
                    a >= 0,
                    i >= 0,
                    z > 0,
                    n >= 0,
                    a + n <= c,
            ;
        }
        proof {
            let (a, i, z) = (self.start_index as int, index as int, size as int);
            if index > self.block_count {
                assert(i * z > self.block_count * z) by (nonlinear_arith)
                    requires i > self.block_count, z > 0;
            }
            assert(a + i <= count);
            let n = self.block_count as int;
            let c = self.storage.spec_block_count() as int;
            assert((a + i) * z == a * z + i * z && (a + n) * z == a * z + z * n && (a + n) * z
                <= z * c) by (nonlinear_arith)
                requires
                    a + n <= c,
                    z > 0,
            ;
            assert(i * z + len <= z * n);
            assert((a + i) * z + len <= z * c);
        }
        let r = self.storage.read_blocks(self.start_index + index, len);
        proof {
            let z = size as int;
            let a = self.start_index as int;
            let i = index as int;
            let b = self.storage.spec_bytes();
            if r is Ok {
                let n = self.block_count as int;
                assert(self.spec_bytes() == b.subrange(a * z, (a + n) * z));
                let mine = self.spec_bytes().subrange(i * z, i * z + len);
                let theirs = b.subrange((a + i) * z, (a + i) * z + len);
                assert forall|k: int| 0 <= k < len implies mine[k] == theirs[k] by {
                    assert(mine[k] == b[a * z + i * z + k]);
                }
                assert(mine =~= theirs);
            }
        }
        r
    }

    fn write_blocks(&mut self, index: usize, buf: &[u8]) -> (r: Result<(), BlockStorageError>) {
        let size = self.block_size();
        let len = buf.len();
        let _ = self.storage.block_size();
        let count = self.storage.block_count();
        match check_span(size, self.block_count, index, len) {
            Ok(_) => {},
            Err(e) => return Err(e),
        }
        proof {
            let (i, z) = (index as int, size as int);
            if index > self.block_count {
                assert(i * z > self.block_count * z) by (nonlinear_arith)
                    requires i > self.block_count, z > 0;
            }
            assert(self.start_index + index <= count);
        }
        proof {
            let (a, i, z, n, c) = (
                self.start_index as int,
                index as int,
                size as int,
                self.block_count as int,
                self.storage.spec_block_count() as int,
            );
            assert((a + i) * z == a * z + i * z && (a + n) * z == a * z + n * z && a * z >= 0
                && z * n <= z * c && (a + n) * z <= z * c) by (nonlinear_arith)
                requires
                    a >= 0,
                    i >= 0,
                    z > 0,
                    n >= 0,
                    a + n <= c,
            ;
        }
        let r = self.storage.write_blocks(self.start_index + index, buf);
        proof {
            let z = size as int;
            assert(self.spec_bytes() =~= old(self).spec_bytes().subrange(0, index * z) + buf@ + old(self).spec_bytes().subrange(index * z + len, old(self).spec_bytes().len() as int));
        }
        r
    }
}

} // verus!
