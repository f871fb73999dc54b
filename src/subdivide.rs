use core::ops::Range;
use vstd::prelude::*;

use crate::block::{span_check, BlockStorage, BlockStorageError};

verus! {

/// The part of a buffer that lies in one block of the underlying storage:
/// bytes `block_range` of block `block_index` are bytes `buffer_range` of
/// the buffer.
#[derive(Debug)]
pub struct BufferMapEntry {
    pub block_index: usize,
    pub block_range: Range<usize>,
    pub buffer_range: Range<usize>,
}

/// The entries split `size` bytes starting at byte `start` of a storage
/// with blocks of `sbs` bytes into runs, in order, each within one block.
pub open spec fn covers(es: Seq<BufferMapEntry>, start: int, size: int, sbs: int) -> bool {
    &&& forall|k: int|
        0 <= k < es.len() ==> {
            let e = #[trigger] es[k];
            &&& e.buffer_range.start < e.buffer_range.end <= size
            &&& e.block_range.end - e.block_range.start == e.buffer_range.end - e.buffer_range.start
            &&& e.block_range.start < e.block_range.end <= sbs
            &&& e.block_index * sbs + e.block_range.start == start + e.buffer_range.start
            &&& e.block_range.end == sbs || e.buffer_range.end == size
        }
    &&& forall|k: int|
        0 <= k < es.len() - 1 ==> (#[trigger] es[k]).buffer_range.end == es[k + 1].buffer_range.start
    &&& es.len() == 0 <==> size == 0
    &&& es.len() > 0 ==> es[0].buffer_range.start == 0 && es.last().buffer_range.end == size
}

/// The entries cover the span as `covers` says, each in an existing
/// block of `count`.
pub open spec fn map_ok(es: Seq<BufferMapEntry>, start: int, size: int, sbs: int, count: int) -> bool {
    &&& covers(es, start, size, sbs)
    &&& forall|k: int| 0 <= k < es.len() ==> (#[trigger] es[k]).block_index < count
}

/// A storage whose blocks are smaller than those of the storage under it,
/// each a whole fraction of one underlying block.
pub struct SubdiviedBlockStorage<S> {
    storage: S,
    block_size: usize,
    block_count: usize,
}

impl<S: BlockStorage> SubdiviedBlockStorage<S> {
    /// Blocks of `block_size` bytes over `storage`; an underlying block
    /// size that is not a multiple of `block_size` is refused.
    pub fn new(storage: S, block_size: usize) -> (r: Result<Self, BlockStorageError>)
        requires
            storage.spec_wf(),
            block_size > 0,
        ensures
            storage.spec_block_size() % block_size as nat != 0 ==> r == Err::<Self, BlockStorageError>(
                BlockStorageError::BufferSizeMisalignment,
            ),
            storage.spec_block_size() % block_size as nat == 0 ==> (r matches Ok(g) && g.spec_wf()
                && g.spec_block_size() == block_size && g.spec_bytes() == storage.spec_bytes()
                && g.spec_block_count() == storage.spec_block_size() * storage.spec_block_count()
                / block_size as nat),
    {
        let sbs = storage.block_size();
        if sbs % block_size != 0 {
            return Err(BlockStorageError::BufferSizeMisalignment);
        }
        let total = sbs * storage.block_count();
        let block_count = total / block_size;
        proof {
            let (z, c, b) = (sbs as int, storage.spec_block_count() as int, block_size as int);
            let q = z / b;
            vstd::arithmetic::div_mod::lemma_fundamental_div_mod(z, b);
            assert(z * c == b * (q * c)) by (nonlinear_arith)
                requires
                    z == b * q,
            ;
            vstd::arithmetic::div_mod::lemma_div_multiples_vanish(q * c, b);
            assert(b * (q * c) == (q * c) * b) by (nonlinear_arith);
        }
        Ok(SubdiviedBlockStorage { storage, block_size, block_count })
    }

    /// The underlying storage.
    pub fn into_inner(self) -> (r: S)
        requires
            self.spec_wf(),
        ensures
            r == self.inner(),
            r.spec_wf(),
            r.spec_bytes() == self.spec_bytes(),
            r.spec_block_size() * r.spec_block_count() == self.spec_block_size()
                * self.spec_block_count(),
    {
        self.storage
    }

    pub closed spec fn inner(&self) -> S {
        self.storage
    }

    /// The block size of the storage underneath.
    pub closed spec fn under_size(&self) -> nat {
        self.storage.spec_block_size()
    }

    /// The block count of the storage underneath.
    pub closed spec fn under_count(&self) -> nat {
        self.storage.spec_block_count()
    }

    /// Where `buffer_size` bytes from block `index` lie in the underlying
    /// storage: one entry per underlying block touched, in order. Fails as
    /// `span_check` says.
    pub fn map(&self, index: usize, buffer_size: usize) -> (r: Result<
        Vec<BufferMapEntry>,
        BlockStorageError,
    >)
        requires
            self.spec_wf(),
        ensures
            span_check(
                self.spec_block_size(),
                self.spec_block_count(),
                index as int,
                buffer_size as int,
            ) matches Err(e) ==> r == Err::<Vec<BufferMapEntry>, BlockStorageError>(e),
            span_check(
                self.spec_block_size(),
                self.spec_block_count(),
                index as int,
                buffer_size as int,
            ) is Ok ==> (r matches Ok(es) && map_ok(
                es@,
                index * self.spec_block_size(),
                buffer_size as int,
                self.under_size() as int,
                self.under_count() as int,
            )),
    {
        let _ = self.storage.block_size();
        let start = match crate::block::check_span(self.block_size, self.block_count, index, buffer_size) {
            Ok(s) => s,
            Err(e) => return Err(e),
        };
        let sbs = self.storage.block_size();
        let mut entries: Vec<BufferMapEntry> = Vec::new();
        let mut covered: usize = 0;
        while covered < buffer_size
            invariant
                sbs == self.storage.spec_block_size(),
                sbs > 0,
                sbs * self.storage.spec_block_count() <= usize::MAX,
                start + buffer_size <= sbs * self.storage.spec_block_count(),
                covered <= buffer_size,
                covers(entries@, start as int, covered as int, sbs as int),
                covered < buffer_size ==> forall|k: int|
                    0 <= k < entries@.len() ==> (#[trigger] entries@[k]).block_range.end == sbs,
                forall|k: int|
                    0 <= k < entries@.len() ==> (#[trigger] entries@[k]).block_index
                        < self.storage.spec_block_count(),
            decreases buffer_size - covered,
        {
            let at = start + covered;
            let block_index = at / sbs;
            let offset = at % sbs;
            let room = sbs - offset;
            let part = if buffer_size - covered < room {
                buffer_size - covered
            } else {
                room
            };
            proof {
                vstd::arithmetic::div_mod::lemma_fundamental_div_mod(at as int, sbs as int);
                let c = self.storage.spec_block_count() as int;
                if block_index as int >= c {
                    assert(sbs * (block_index as int) >= sbs * c) by (nonlinear_arith)
                        requires
                            block_index as int >= c,
                            sbs > 0,
                    ;
                }
                assert(block_index as int * sbs == sbs * block_index as int) by (nonlinear_arith);
            }
            entries.push(
                BufferMapEntry {
                    block_index,
                    block_range: Range { start: offset, end: offset + part },
                    buffer_range: Range { start: covered, end: covered + part },
                },
            );
            covered = covered + part;
        }
        Ok(entries)
    }
}

impl<S: BlockStorage> BlockStorage for SubdiviedBlockStorage<S> {
    closed spec fn spec_wf(&self) -> bool {
        &&& self.storage.spec_wf()
        &&& self.block_size > 0
        &&& self.block_size * self.block_count == self.storage.spec_block_size()
            * self.storage.spec_block_count()
    }

    closed spec fn spec_block_size(&self) -> nat {
        self.block_size as nat
    }

    closed spec fn spec_block_count(&self) -> nat {
        self.block_count as nat
    }

    closed spec fn spec_bytes(&self) -> Seq<u8> {
        self.storage.spec_bytes()
    }

    proof fn lemma_wf(&self) {
        self.storage.lemma_wf();
    }

    fn block_size(&self) -> (r: usize) {
        let _ = self.storage.block_size();
        self.block_size
    }

    fn block_count(&self) -> (r: usize) {
        self.block_count
    }

    fn read_blocks(&self, index: usize, len: usize) -> (r: Result<Vec<u8>, BlockStorageError>) {
        let entries = match self.map(index, len) {
            Ok(es) => es,
            Err(e) => return Err(e),
        };
        let sbs = self.storage.block_size();
        let ghost start = index * self.block_size;
        let ghost bytes = self.storage.spec_bytes();
        let mut out: Vec<u8> = Vec::new();
        let mut k: usize = 0;
        while k < entries.len()
            invariant
                self.spec_wf(),
                sbs == self.storage.spec_block_size(),
                bytes == self.storage.spec_bytes(),
                bytes.len() == sbs * self.storage.spec_block_count(),
                covers(entries@, start, len as int, sbs as int),
                forall|j: int|
                    0 <= j < entries@.len() ==> (#[trigger] entries@[j]).block_index
                        < self.storage.spec_block_count(),
                k <= entries@.len(),
                out@.len() == if k == 0 {
                    0
                } else {
                    entries@[k - 1].buffer_range.end as int
                },
                forall|j: int| 0 <= j < out@.len() ==> #[trigger] out@[j] == bytes[start + j],
            decreases entries@.len() - k,
        {
            let e = &entries[k];
            proof {
                lemma_block_span(e.block_index as int, sbs as int, self.storage.spec_block_count() as int);
            }
            let block = match self.storage.read_blocks(e.block_index, sbs) {
                Ok(b) => b,
                Err(err) => return Err(err),
            };
            let mut t: usize = e.block_range.start;
            while t < e.block_range.end
                invariant
                    e == entries@[k as int],
                    e.block_range.start <= t <= e.block_range.end,
                    e.block_range.end <= sbs,
                    block@ == bytes.subrange(e.block_index * sbs, e.block_index * sbs + sbs),
                    block@.len() == sbs,
                    e.block_index * sbs + sbs <= bytes.len(),
                    e.block_index * sbs >= 0,
                    e.block_index * sbs + e.block_range.start == start + e.buffer_range.start,
                    out@.len() == e.buffer_range.start + (t - e.block_range.start),
                    forall|j: int| 0 <= j < out@.len() ==> #[trigger] out@[j] == bytes[start + j],
                decreases e.block_range.end - t,
            {
                proof {
                    assert(block@[t as int] == bytes[start + out@.len()]);
                }
                out.push(block[t]);
                t = t + 1;
            }
            k = k + 1;
        }
        proof {
            if entries@.len() == 0 {
                assert(len == 0);
            }
            assert(out@ =~= bytes.subrange(start, start + len));
        }
        Ok(out)
    }

    fn write_blocks(&mut self, index: usize, buf: &[u8]) -> (r: Result<(), BlockStorageError>) {
        let entries = match self.map(index, buf.len()) {
            Ok(es) => es,
            Err(e) => return Err(e),
        };
        let sbs = self.storage.block_size();
        let ghost start = index * self.block_size;
        let ghost old_bytes = self.storage.spec_bytes();
        let ghost mut covered: int = 0;
        let mut k: usize = 0;
        while k < entries.len()
            invariant
                self.spec_wf(),
                self.block_size == old(self).block_size,
                self.block_count == old(self).block_count,
                sbs == self.storage.spec_block_size(),
                self.storage.spec_block_count() == old(self).storage.spec_block_count(),
                old_bytes == old(self).storage.spec_bytes(),
                old_bytes.len() == sbs * self.storage.spec_block_count(),
                covers(entries@, start, buf@.len() as int, sbs as int),
                forall|j: int|
                    0 <= j < entries@.len() ==> (#[trigger] entries@[j]).block_index
                        < self.storage.spec_block_count(),
                k <= entries@.len(),
                covered == if k == 0 {
                    0
                } else {
                    entries@[k - 1].buffer_range.end as int
                },
                self.storage.spec_bytes() == written(old_bytes, buf@, start, covered),
            decreases entries@.len() - k,
        {
            let e = &entries[k];
            proof {
                lemma_block_span(e.block_index as int, sbs as int, self.storage.spec_block_count() as int);
            }
            let ghost current = self.storage.spec_bytes();
            let mut block = match self.storage.read_blocks(e.block_index, sbs) {
                Ok(b) => b,
                Err(err) => return Err(err),
            };
            let ghost prior = block@;
            let mut t: usize = e.block_range.start;
            while t < e.block_range.end
                invariant
                    e == entries@[k as int],
                    e.block_range.start <= t <= e.block_range.end,
                    e.block_range.end <= sbs,
                    e.buffer_range.end <= buf@.len(),
                    e.block_range.end - e.block_range.start == e.buffer_range.end
                        - e.buffer_range.start,
                    block@.len() == sbs,
                    prior.len() == sbs,
                    forall|j: int|
                        0 <= j < sbs ==> #[trigger] block@[j] == if e.block_range.start <= j < t {
                            buf@[e.buffer_range.start + (j - e.block_range.start)]
                        } else {
                            prior[j]
                        },
                decreases e.block_range.end - t,
            {
                block.set(t, buf[e.buffer_range.start + (t - e.block_range.start)]);
                t = t + 1;
            }
            match self.storage.write_blocks(e.block_index, block.as_slice()) {
                Ok(()) => {},
                Err(err) => return Err(err),
            }
            proof {
                if k > 0 {
                    assert(entries@[k - 1].buffer_range.end == e.buffer_range.start);
                }
                lemma_write_step(
                    old_bytes,
                    current,
                    self.storage.spec_bytes(),
                    prior,
                    block@,
                    buf@,
                    start,
                    covered,
                    e.block_index * sbs,
                    sbs as int,
                    e.block_range.start as int,
                    e.block_range.end as int,
                    e.buffer_range.start as int,
                );
                covered = e.buffer_range.end as int;
            }
            k = k + 1;
        }
        proof {
            if entries@.len() == 0 {
                assert(buf@.len() == 0);
            }
            assert(self.storage.spec_bytes() =~= old_bytes.subrange(0, start) + buf@
                + old_bytes.subrange(start + buf@.len(), old_bytes.len() as int));
        }
        Ok(())
    }
}

/// `old` with the bytes at `[start, start + upto)` taken from `buf`.
pub open spec fn written(old: Seq<u8>, buf: Seq<u8>, start: int, upto: int) -> Seq<u8> {
    Seq::new(
        old.len(),
        |p: int|
            if start <= p < start + upto {
                buf[p - start]
            } else {
                old[p]
            },
    )
}

/// Writing back a block whose bytes `[lo, hi)` came from the next part
/// of the buffer extends the part of the storage taken from the buffer.
proof fn lemma_write_step(
    old: Seq<u8>,
    current: Seq<u8>,
    next: Seq<u8>,
    prior: Seq<u8>,
    block: Seq<u8>,
    buf: Seq<u8>,
    start: int,
    covered: int,
    base: int,
    sbs: int,
    lo: int,
    hi: int,
    from: int,
)
    requires
        current == written(old, buf, start, covered),
        0 <= base,
        base + sbs <= old.len(),
        prior == current.subrange(base, base + sbs),
        block.len() == sbs,
        0 <= lo < hi <= sbs,
        from == covered,
        0 <= from,
        base + lo == start + from,
        from + (hi - lo) <= buf.len(),
        forall|j: int|
            0 <= j < sbs ==> #[trigger] block[j] == if lo <= j < hi {
                buf[from + (j - lo)]
            } else {
                prior[j]
            },
        next == current.subrange(0, base) + block + current.subrange(base + sbs, current.len() as int),
    ensures
        next == written(old, buf, start, from + (hi - lo)),
{
    let w = written(old, buf, start, from + (hi - lo));
    assert(current.len() == old.len());
    assert(next.len() == old.len());
    assert forall|p: int| 0 <= p < next.len() implies next[p] == w[p] by {
        let wc = written(old, buf, start, covered);
        assert(current[p] == wc[p]);
        assert(w[p] == if start <= p < start + from + (hi - lo) {
            buf[p - start]
        } else {
            old[p]
        });
        assert(wc[p] == if start <= p < start + covered {
            buf[p - start]
        } else {
            old[p]
        });
        if base <= p < base + sbs {
            let j = p - base;
            assert(next[p] == block[j]);
            assert(prior[j] == current[p]);
            if lo <= j < hi {
                assert(block[j] == buf[from + (j - lo)]);
                assert(from + (j - lo) == p - start);
            } else {
                assert(block[j] == prior[j]);
            }
        } else {
            assert(next[p] == current[p]);
        }
    }
    assert(next =~= w);
}

/// A whole block lies within the storage.
proof fn lemma_block_span(index: int, size: int, count: int)
    requires
        0 <= index < count,
        size > 0,
    ensures
        index * size + size <= size * count,
        index * size >= 0,
        size % size == 0,
{
    assert(index * size + size <= size * count && index * size >= 0) by (nonlinear_arith)
        requires
            0 <= index < count,
            size > 0,
    ;
    vstd::arithmetic::div_mod::lemma_mod_self_0(size);
}

} // verus!
