use vstd::arithmetic::div_mod::{lemma_fundamental_div_mod, lemma_fundamental_div_mod_converse};
use vstd::prelude::*;

use crate::block::BlockStorage;
use crate::codec::{get16, get32, le16, le32, lemma_le_round_trip, put_u16, put_u32, take_u16, take_u32};
use crate::page::{FastPage, FastPageStorage, PageStorageError};

verus! {

/// What went wrong in an operation on the heap.
#[derive(Clone, Copy, Debug, PartialEq, Eq, Structural)]
pub enum HeapStorageError {
    /// An error of the page storage underneath.
    PageStorageError(PageStorageError),
    /// No set of pages has room for the entry.
    FullHeap,
    /// The heap has no pages.
    ZeroHeap,
    /// A buffer too small for what it must hold.
    BufferTooSmall,
    /// An entry that points outside the heap.
    EntryOutOfBounds,
}

proof fn lemma_mod_succ(a: int, n: int)
    requires
        a >= 0,
        n > 0,
    ensures
        a % n + 1 == n ==> (a + 1) % n == 0,
        a % n + 1 < n ==> (a + 1) % n == a % n + 1,
        0 <= a % n < n,
{
    lemma_fundamental_div_mod(a, n);
    let q = a / n;
    assert(q * n == n * q) by (nonlinear_arith);
    if a % n + 1 == n {
        assert((q + 1) * n == n * q + n) by (nonlinear_arith);
        lemma_fundamental_div_mod_converse(a + 1, n, q + 1, 0);
    } else if a % n + 1 < n {
        lemma_fundamental_div_mod_converse(a + 1, n, q, a % n + 1);
    }
}

/// Visits the indices of `page_count` pages once each, from a start page
/// on, wrapping around after the last.
pub struct PageIndexIterator {
    current_index: usize,
    current_offset: usize,
    page_count: usize,
    start: Ghost<int>,
}

impl PageIndexIterator {
    /// The page visited first.
    pub closed spec fn start_spec(&self) -> int {
        self.start@
    }

    /// How many pages were visited.
    pub closed spec fn visited(&self) -> nat {
        self.current_offset as nat
    }

    /// The number of pages.
    pub closed spec fn count(&self) -> nat {
        self.page_count as nat
    }

    pub closed spec fn wf(&self) -> bool {
        &&& self.current_offset <= self.page_count
        &&& self.start@ >= 0
        &&& self.page_count > 0 ==> self.current_index == (self.start@ + self.current_offset)
            % (self.page_count as int)
    }

    /// Visits `page_count` pages from `start_index` on.
    pub fn new(start_index: usize, page_count: usize) -> (r: Self)
        requires
            start_index < page_count || page_count == 0,
        ensures
            r.wf(),
            r.start_spec() == start_index,
            r.visited() == 0,
            r.count() == page_count,
    {
        proof {
            if page_count > 0 {
                vstd::arithmetic::div_mod::lemma_small_mod(start_index as nat, page_count as nat);
            }
        }
        PageIndexIterator {
            current_index: start_index,
            current_offset: 0,
            page_count,
            start: Ghost(start_index as int),
        }
    }

    /// The next page index, or `None` once every page was visited.
    pub fn next(&mut self) -> (r: Option<usize>)
        requires
            old(self).wf(),
        ensures
            final(self).wf(),
            final(self).start_spec() == old(self).start_spec(),
            final(self).count() == old(self).count(),
            old(self).visited() < old(self).count() ==> r == Some(
                ((old(self).start_spec() + old(self).visited()) % (old(self).count() as int)) as usize,
            ) && final(self).visited() == old(self).visited() + 1,
            old(self).visited() >= old(self).count() ==> r is None && final(self).visited() == old(self).visited(),
    {
        if self.current_offset >= self.page_count {
            return None;
        }
        let index = self.current_index;
        proof {
            lemma_mod_succ(self.start@ + self.current_offset, self.page_count as int);
        }
        self.current_index = self.current_index + 1;
        self.current_offset = self.current_offset + 1;
        if self.current_index == self.page_count {
            self.current_index = 0;
        }
        Some(index)
    }
}

/// Where the next part of an entry lies: a page, and an offset in it.
#[derive(Clone, Copy, Debug, PartialEq, Eq, Structural)]
pub struct FastHeapEntryPointer {
    pub page_index: u32,
    pub entry_offset: u16,
}

/// The number of bytes of a pointer.
pub const POINTER_SIZE: usize = 6;

/// The number of bytes of an entry header: flags, a pointer, a length.
pub const HEADER_SIZE: usize = 9;

/// The bytes of a pointer.
pub open spec fn pointer_bytes(p: FastHeapEntryPointer) -> Seq<u8> {
    le32(p.page_index) + le16(p.entry_offset)
}

/// The pointer whose bytes start at `b[at]`.
pub open spec fn pointer_at(b: Seq<u8>, at: int) -> FastHeapEntryPointer {
    FastHeapEntryPointer { page_index: get32(b, at), entry_offset: get16(b, at + 4) }
}

impl FastHeapEntryPointer {
    /// The bytes of a pointer at the start of `buffer`.
    pub fn decode(buffer: &[u8]) -> (r: Self)
        requires
            buffer@.len() == POINTER_SIZE,
        ensures
            r == pointer_at(buffer@, 0),
    {
        let mut pos: usize = 0;
        let page_index = match take_u32(buffer, &mut pos) {
            Ok(x) => x,
            Err(_) => 0,
        };
        let entry_offset = match take_u16(buffer, &mut pos) {
            Ok(x) => x,
            Err(_) => 0,
        };
        FastHeapEntryPointer { page_index, entry_offset }
    }

    /// The bytes of this pointer.
    pub fn encode(&self) -> (r: Vec<u8>)
        ensures
            r@ == pointer_bytes(*self),
    {
        let mut buffer: Vec<u8> = Vec::new();
        put_u32(&mut buffer, self.page_index);
        put_u16(&mut buffer, self.entry_offset);
        assert(buffer@ =~= pointer_bytes(*self));
        buffer
    }
}

/// The header of a part of an entry: whether the part is the entry's
/// first, where its next part lies if it has one, and the length of its
/// payload.
#[derive(Clone, Copy, Debug, PartialEq, Eq, Structural)]
pub struct FastHeapEntryHeader {
    pub head: bool,
    pub next: Option<FastHeapEntryPointer>,
    pub payload_length: u16,
}

/// The flags byte of a header: bit 0 for the head, bit 1 for a next part.
pub open spec fn flags_of(h: FastHeapEntryHeader) -> u8 {
    ((if h.head { 1u8 } else { 0u8 }) + (if h.next is Some { 2u8 } else { 0u8 })) as u8
}

/// The bytes of a header.
pub open spec fn header_bytes(h: FastHeapEntryHeader) -> Seq<u8> {
    seq![flags_of(h)] + match h.next {
        Some(p) => pointer_bytes(p),
        None => Seq::new(6, |i: int| 0u8),
    } + le16(h.payload_length)
}

/// The header whose bytes start at `b[at]`.
pub open spec fn header_at(b: Seq<u8>, at: int) -> FastHeapEntryHeader {
    FastHeapEntryHeader {
        head: b[at] & 1u8 != 0u8,
        next: if b[at] & 2u8 != 0u8 {
            Some(pointer_at(b, at + 1))
        } else {
            None
        },
        payload_length: get16(b, at + 7),
    }
}

/// Decoding the bytes of a header gives it back.
pub proof fn lemma_header_round_trip(h: FastHeapEntryHeader, before: Seq<u8>, after: Seq<u8>)
    ensures
        header_bytes(h).len() == HEADER_SIZE,
        header_at(before + header_bytes(h) + after, before.len() as int) == h,
{
    lemma_le_round_trip();
    let b = before + header_bytes(h) + after;
    let at = before.len() as int;
    assert(b[at] == flags_of(h));
    assert((1u8 & 1u8) != 0u8 && (1u8 & 2u8) == 0u8 && (2u8 & 1u8) == 0u8 && (2u8 & 2u8) != 0u8
        && (3u8 & 1u8) != 0u8 && (3u8 & 2u8) != 0u8 && (0u8 & 1u8) == 0u8 && (0u8 & 2u8) == 0u8)
        by (bit_vector);
    assert(b.subrange(at + 7, at + 9) =~= le16(h.payload_length));
    if let Some(p) = h.next {
        assert(b.subrange(at + 1, at + 5) =~= le32(p.page_index));
        assert(b.subrange(at + 5, at + 7) =~= le16(p.entry_offset));
    }
}

impl FastHeapEntryHeader {
    /// The header whose bytes are `buffer`.
    pub fn decode(buffer: &[u8]) -> (r: Self)
        requires
            buffer@.len() == HEADER_SIZE,
        ensures
            r == header_at(buffer@, 0),
    {
        let flags = buffer[0];
        let head = (flags & 0x01) != 0;
        let incomplete = (flags & 0x02) != 0;
        let next = if incomplete {
            Some(FastHeapEntryPointer::decode(vstd::slice::slice_subrange(buffer, 1, 1 + POINTER_SIZE)))
        } else {
            None
        };
        proof {
            if incomplete {
                let p = buffer@.subrange(1, 7);
                assert(p.subrange(0, 4) =~= buffer@.subrange(1, 5));
                assert(p.subrange(4, 6) =~= buffer@.subrange(5, 7));
            }
        }
        let mut pos: usize = 1 + POINTER_SIZE;
        let payload_length = match take_u16(buffer, &mut pos) {
            Ok(x) => x,
            Err(_) => 0,
        };
        FastHeapEntryHeader { head, payload_length, next }
    }

    /// The bytes of this header.
    pub fn encode(&self) -> (r: Vec<u8>)
        ensures
            r@ == header_bytes(*self),
    {
        proof {
            lemma_le_round_trip();
        }
        let mut buffer: Vec<u8> = Vec::new();
        let mut flags = 0u8;
        if self.head {
            flags = flags + 1;
        }
        if self.next.is_some() {
            flags = flags + 2;
        }
        buffer.push(flags);
        match &self.next {
            Some(next) => {
                let bytes = next.encode();
                let mut i: usize = 0;
                while i < POINTER_SIZE
                    invariant
                        bytes@.len() == POINTER_SIZE,
                        i <= POINTER_SIZE,
                        buffer@ == seq![flags] + bytes@.subrange(0, i as int),
                    decreases POINTER_SIZE - i,
                {
                    buffer.push(bytes[i]);
                    i = i + 1;
                    assert(buffer@ =~= seq![flags] + bytes@.subrange(0, i as int));
                }
                assert(bytes@.subrange(0, 6) =~= bytes@);
            },
            None => {
                let mut i: usize = 0;
                while i < POINTER_SIZE
                    invariant
                        i <= POINTER_SIZE,
                        buffer@ == seq![flags] + Seq::new(i as nat, |j: int| 0u8),
                    decreases POINTER_SIZE - i,
                {
                    buffer.push(0u8);
                    i = i + 1;
                    assert(buffer@ =~= seq![flags] + Seq::new(i as nat, |j: int| 0u8));
                }
            },
        }
        put_u16(&mut buffer, self.payload_length);
        proof {
            lemma_le_round_trip();
        }
        assert(buffer@ =~= header_bytes(*self));
        buffer
    }

    /// The header at `offset` of `page`; `OutOfBounds` when it reaches past
    /// the page's occupied bytes.
    pub fn load_from<H: BlockStorage, P: BlockStorage>(
        offset: usize,
        page: &FastPage,
        storage: &FastPageStorage<H, P>,
    ) -> (r: Result<FastHeapEntryHeader, PageStorageError>)
        requires
            storage.wf(),
            page.index_spec() < storage.count_spec(),
        ensures
            ({
                let i = page.index_spec() as int;
                let ok = offset + HEADER_SIZE <= storage.occupied(i) && offset + HEADER_SIZE
                    <= storage.size_spec();
                &&& ok ==> r == Ok::<FastHeapEntryHeader, PageStorageError>(
                    header_at(storage.data(i), offset as int),
                )
                &&& !ok ==> r == Err::<FastHeapEntryHeader, PageStorageError>(
                    PageStorageError::OutOfBounds,
                )
            }),
    {
        let bytes = match storage.read(page, offset, HEADER_SIZE) {
            Ok(b) => b,
            Err(e) => return Err(e),
        };
        proof {
            storage.lemma_data_len(page.index_spec() as int);
        }
        let h = FastHeapEntryHeader::decode(bytes.as_slice());
        proof {
            let d = storage.data(page.index_spec() as int);
            let o = offset as int;
            assert(bytes@.subrange(1, 5) =~= d.subrange(o + 1, o + 5));
            assert(bytes@.subrange(5, 7) =~= d.subrange(o + 5, o + 7));
            assert(bytes@.subrange(7, 9) =~= d.subrange(o + 7, o + 9));
        }
        Ok(h)
    }

    /// Appends this header's bytes to `page`.
    pub fn append_to<H: BlockStorage, P: BlockStorage>(
        &self,
        page: &FastPage,
        storage: &mut FastPageStorage<H, P>,
    ) -> (r: Result<(), PageStorageError>)
        requires
            old(storage).wf(),
            page.index_spec() < old(storage).count_spec(),
        ensures
            final(storage).wf(),
            final(storage).count_spec() == old(storage).count_spec(),
            final(storage).size_spec() == old(storage).size_spec(),
            ({
                let i = page.index_spec() as int;
                let occ = old(storage).occupied(i);
                &&& occ + HEADER_SIZE <= old(storage).size_spec() ==> r is Ok && final(storage).occupied(i) == occ + HEADER_SIZE && final(storage).data(i) == old(storage).data(i).subrange(0, occ as int) + header_bytes(*self) + old(storage).data(
                    i,
                ).subrange(occ + HEADER_SIZE, old(storage).size_spec() as int)
                &&& r is Err ==> *final(storage) == *old(storage)
            }),
            forall|j: int|
                0 <= j < old(storage).count_spec() && j != page.index_spec() ==> #[trigger] final(storage).data(j) == old(storage).data(j) && final(storage).occupied(j) == old(storage).occupied(j),
    {
        let bytes = self.encode();
        proof {
            lemma_header_round_trip(*self, Seq::empty(), Seq::empty());
        }
        storage.append(page, bytes.as_slice())
    }
}

} // verus!

verus! {

/// Distinct steps of a walk around `n` pages visit distinct pages.
proof fn lemma_rotation_distinct(s: int, a: int, b: int, n: int)
    requires
        s >= 0,
        0 <= a < b < n,
    ensures
        (s + a) % n != (s + b) % n,
{
    lemma_fundamental_div_mod(s + a, n);
    lemma_fundamental_div_mod(s + b, n);
    let (qa, qb) = ((s + a) / n, (s + b) / n);
    if (s + a) % n == (s + b) % n {
        assert(n * qb - n * qa == b - a);
        assert(n * (qb - qa) == b - a) by (nonlinear_arith)
            requires
                n * qb - n * qa == b - a,
        ;
        if qb - qa >= 1 {
            assert(n * (qb - qa) >= n) by (nonlinear_arith)
                requires
                    qb - qa >= 1,
                    n > 0,
            ;
        } else {
            assert(n * (qb - qa) <= 0) by (nonlinear_arith)
                requires
                    qb - qa <= 0,
                    n > 0,
            ;
        }
    }
}

/// One part of an entry as placed: the page, and where its payload starts
/// and how long it is in the entry's data.
pub type PartView = (int, int, int);

/// The header that part `k` of `plan` gets: the first part is the head,
/// and each part but the last points to where the next one starts.
pub open spec fn part_header<H: BlockStorage, P: BlockStorage>(
    before: FastPageStorage<H, P>,
    plan: Seq<PartView>,
    k: int,
) -> FastHeapEntryHeader {
    FastHeapEntryHeader {
        head: k == 0,
        next: if k + 1 < plan.len() {
            Some(
                FastHeapEntryPointer {
                    page_index: plan[k + 1].0 as u32,
                    entry_offset: before.occupied(plan[k + 1].0) as u16,
                },
            )
        } else {
            None
        },
        payload_length: plan[k].2 as u16,
    }
}

/// `plan` places `data` in parts on distinct pages: the parts' payloads,
/// in order, are `data`.
pub open spec fn plan_covers(plan: Seq<PartView>, data: Seq<u8>, count: int) -> bool {
    &&& plan.len() >= 1
    &&& plan[0].1 == 0
    &&& plan.last().1 + plan.last().2 == data.len()
    &&& forall|k: int| 0 <= k < plan.len() - 1 ==> #[trigger] plan[k].1 + plan[k].2 == plan[k + 1].1
    &&& forall|k: int|
        0 <= k < plan.len() ==> 0 <= (#[trigger] plan[k]).0 < count && plan[k].2 >= 0 && plan[k].1
            >= 0 && plan[k].1 + plan[k].2 <= data.len()
    &&& forall|a: int, b: int| 0 <= a < b < plan.len() ==> plan[a].0 != plan[b].0
}

/// After appending part `k` of `plan` to its page: its header, then its
/// payload, after what the page held.
pub open spec fn part_written<H: BlockStorage, P: BlockStorage>(
    before: FastPageStorage<H, P>,
    after: FastPageStorage<H, P>,
    plan: Seq<PartView>,
    data: Seq<u8>,
    k: int,
) -> bool {
    let p = plan[k].0;
    let occ = before.occupied(p);
    let added = header_bytes(part_header(before, plan, k)) + data.subrange(
        plan[k].1,
        plan[k].1 + plan[k].2,
    );
    &&& after.occupied(p) == occ + added.len()
    &&& after.data(p) == before.data(p).subrange(0, occ as int) + added + before.data(p).subrange(
        (occ + added.len()) as int,
        before.size_spec() as int,
    )
}

/// Appending part `k`'s header and payload to its page writes that part
/// and leaves the parts written before it.
proof fn lemma_part_step<H: BlockStorage, P: BlockStorage>(
    before: FastPageStorage<H, P>,
    mid: FastPageStorage<H, P>,
    after: FastPageStorage<H, P>,
    plan: Seq<PartView>,
    data: Seq<u8>,
    k: int,
    header: FastHeapEntryHeader,
)
    requires
        before.wf(),
        0 <= k < plan.len(),
        plan_covers(plan, data, before.count_spec() as int),
        header == part_header(before, plan, k),
        header_bytes(header).len() == HEADER_SIZE,
        ({
            let p = plan[k].0;
            let occ = before.occupied(p);
            let hb = header_bytes(header);
            let pl = data.subrange(plan[k].1, plan[k].1 + plan[k].2);
            &&& occ + HEADER_SIZE + plan[k].2 <= before.size_spec()
            &&& mid.occupied(p) == occ
            &&& mid.data(p) == before.data(p)
            &&& after.occupied(p) == occ + HEADER_SIZE + plan[k].2
            &&& after.data(p) == (before.data(p).subrange(0, occ as int) + hb + before.data(p).subrange(
                occ + HEADER_SIZE,
                before.size_spec() as int,
            )).subrange(0, occ + HEADER_SIZE) + pl + (before.data(p).subrange(0, occ as int) + hb
                + before.data(p).subrange(occ + HEADER_SIZE, before.size_spec() as int)).subrange(
                occ + HEADER_SIZE + pl.len(),
                before.size_spec() as int,
            )
        }),
    ensures
        part_written(before, after, plan, data, k),
{
    let p = plan[k].0;
    before.lemma_data_len(p);
    let occ = before.occupied(p);
    let d0 = before.data(p);
    assert(0 <= plan[k].1 && plan[k].1 + plan[k].2 <= data.len());
    let hb = header_bytes(header);
    let pl = data.subrange(plan[k].1, plan[k].1 + plan[k].2);
    assert(after.data(p) =~= d0.subrange(0, occ as int) + (hb + pl) + d0.subrange(
        (occ + hb.len() + pl.len()) as int,
        before.size_spec() as int,
    ));
}

/// The pages that no part among the first `k` of `plan` goes to are as
/// they were.
pub open spec fn untouched<H: BlockStorage, P: BlockStorage>(
    before: FastPageStorage<H, P>,
    now: FastPageStorage<H, P>,
    plan: Seq<PartView>,
    k: int,
) -> bool {
    forall|j: int|
        0 <= j < before.count_spec() && (forall|m: int| 0 <= m < k ==> #[trigger] plan[m].0 != j)
            ==> now.data(j) == before.data(j) && now.occupied(j) == before.occupied(j)
}

/// A page that none of the first `k` parts goes to is as it was.
proof fn lemma_untouched_at<H: BlockStorage, P: BlockStorage>(
    before: FastPageStorage<H, P>,
    now: FastPageStorage<H, P>,
    plan: Seq<PartView>,
    k: int,
    i: int,
)
    requires
        untouched(before, now, plan, k),
        0 <= k <= i < plan.len(),
        forall|a: int, b: int| 0 <= a < b < plan.len() ==> plan[a].0 != plan[b].0,
        0 <= plan[i].0 < before.count_spec(),
    ensures
        now.data(plan[i].0) == before.data(plan[i].0),
        now.occupied(plan[i].0) == before.occupied(plan[i].0),
{
    let p = plan[i].0;
    assert forall|m: int| 0 <= m < k implies #[trigger] plan[m].0 != p by {
        assert(plan[m].0 != plan[i].0);
    }
}

/// Writing part `k` keeps every page that none of the first `k + 1`
/// parts goes to.
proof fn lemma_untouched_step<H: BlockStorage, P: BlockStorage>(
    before: FastPageStorage<H, P>,
    mid: FastPageStorage<H, P>,
    mid2: FastPageStorage<H, P>,
    after: FastPageStorage<H, P>,
    plan: Seq<PartView>,
    k: int,
)
    requires
        0 <= k < plan.len(),
        untouched(before, mid, plan, k),
        forall|j: int|
            0 <= j < before.count_spec() && j != plan[k].0 ==> #[trigger] mid2.data(j) == mid.data(j)
                && mid2.occupied(j) == mid.occupied(j),
        forall|j: int|
            0 <= j < before.count_spec() && j != plan[k].0 ==> #[trigger] after.data(j) == mid2.data(j)
                && after.occupied(j) == mid2.occupied(j),
    ensures
        untouched(before, after, plan, k + 1),
{
    assert forall|j: int|
        0 <= j < before.count_spec() && (forall|m: int| 0 <= m < k + 1 ==> #[trigger] plan[m].0 != j)
            implies after.data(j) == before.data(j) && after.occupied(j) == before.occupied(j) by {
        assert(plan[k].0 != j);
        assert forall|m: int| 0 <= m < k implies #[trigger] plan[m].0 != j by {
            assert(0 <= m < k + 1);
        }
        assert(mid2.data(j) == mid.data(j));
        assert(after.data(j) == mid2.data(j));
    }
}

/// Writing part `k` leaves the parts written before it, which lie on
/// other pages.
proof fn lemma_parts_kept<H: BlockStorage, P: BlockStorage>(
    before: FastPageStorage<H, P>,
    mid: FastPageStorage<H, P>,
    after: FastPageStorage<H, P>,
    plan: Seq<PartView>,
    data: Seq<u8>,
    k: int,
)
    requires
        0 <= k < plan.len(),
        plan_covers(plan, data, before.count_spec() as int),
        forall|j: int| 0 <= j < k ==> #[trigger] part_written(before, mid, plan, data, j),
        forall|j: int|
            0 <= j < before.count_spec() && j != plan[k].0 ==> #[trigger] after.data(j) == mid.data(j)
                && after.occupied(j) == mid.occupied(j),
    ensures
        forall|j: int| 0 <= j < k ==> #[trigger] part_written(before, after, plan, data, j),
{
    assert forall|j: int| 0 <= j < k implies #[trigger] part_written(before, after, plan, data, j) by {
        let pj = plan[j].0;
        assert(pj != plan[k].0);
        assert(part_written(before, mid, plan, data, j));
        assert(after.data(pj) == mid.data(pj));
    }
}

/// A heap of entries over pages: each entry is one or more parts, each in
/// its own page, each with a header that points to the next part.
pub struct FastHeapStorage<H, P> {
    pages: FastPageStorage<H, P>,
}

impl<H: BlockStorage, P: BlockStorage> FastHeapStorage<H, P> {
    pub closed spec fn wf(&self) -> bool {
        self.pages.wf() && self.pages.count_spec() <= u32::MAX
    }

    /// The pages.
    pub closed spec fn pages_spec(&self) -> FastPageStorage<H, P> {
        self.pages
    }

    /// A heap over `pages`.
    pub fn new(pages: FastPageStorage<H, P>) -> (r: Self)
        requires
            pages.wf(),
            pages.count_spec() <= u32::MAX,
        ensures
            r.wf(),
            r.pages_spec() == pages,
    {
        FastHeapStorage { pages }
    }

    /// The number of pages.
    pub fn page_count(&self) -> (r: usize)
        ensures
            r == self.pages_spec().count_spec(),
    {
        self.pages.page_count()
    }

    /// The pages.
    pub fn pages(&self) -> (r: &FastPageStorage<H, P>)
        ensures
            *r == self.pages_spec(),
    {
        &self.pages
    }

    /// Appends each part of `plan`, header then payload, to its page.
    #[verifier::rlimit(100)]
    fn write_parts(
        &mut self,
        parts: &Vec<(FastPage, usize, usize)>,
        data: &[u8],
        plan: Ghost<Seq<PartView>>,
    ) -> (r: Result<(), HeapStorageError>)
        requires
            old(self).wf(),
            plan_covers(plan@, data@, old(self).pages.count_spec() as int),
            parts@.len() == plan@.len(),
            forall|j: int|
                0 <= j < plan@.len() ==> {
                    &&& (#[trigger] plan@[j]).0 == parts@[j].0.index_spec()
                    &&& plan@[j].1 == parts@[j].1
                    &&& plan@[j].2 == parts@[j].2
                    &&& plan@[j].2 + HEADER_SIZE <= old(self).pages.size_spec() - old(self).pages.occupied(plan@[j].0)
                    &&& old(self).pages.occupied(plan@[j].0) <= old(self).pages.size_spec()
                },
        ensures
            r is Ok,
            final(self).wf(),
            final(self).pages.count_spec() == old(self).pages.count_spec(),
            final(self).pages.size_spec() == old(self).pages.size_spec(),
            forall|j: int| 0 <= j < plan@.len() ==> #[trigger] part_written(old(self).pages, final(self).pages, plan@, data@, j),
            untouched(old(self).pages, final(self).pages, plan@, plan@.len() as int),
    {
        let ghost plan = plan@;
        let ghost before = self.pages;
        let count = self.pages.page_count();
        let mut k: usize = 0;
        while k < parts.len()
            invariant
                self.wf(),
                before == old(self).pages,
                before.wf(),
                self.pages.count_spec() == before.count_spec(),
                self.pages.size_spec() == before.size_spec(),
                parts@.len() == plan.len(),
                k <= plan.len(),
                plan_covers(plan, data@, count as int),
                count == before.count_spec(),
                forall|j: int|
                    0 <= j < plan.len() ==> {
                        &&& (#[trigger] plan[j]).0 == parts@[j].0.index_spec()
                        &&& plan[j].1 == parts@[j].1
                        &&& plan[j].2 == parts@[j].2
                        &&& plan[j].2 + HEADER_SIZE <= before.size_spec() - before.occupied(plan[j].0)
                        &&& before.occupied(plan[j].0) <= before.size_spec()
                    },
                forall|j: int| 0 <= j < k ==> #[trigger] part_written(before, self.pages, plan, data@, j),
                untouched(before, self.pages, plan, k as int),
            decreases plan.len() - k,
        {
            let (page, start, len) = (parts[k].0, parts[k].1, parts[k].2);
            let next = if k + 1 < parts.len() {
                let next_page = parts[k + 1].0;
                proof {
                    let q = plan[k as int + 1].0;
                    lemma_untouched_at(before, self.pages, plan, k as int, k as int + 1);
                    before.lemma_occupied_fits(q);
                    assert(next_page.index_spec() == q);
                }
                let occupied = match self.pages.occupied_size(&next_page) {
                    Ok(o) => o,
                    Err(e) => return Err(HeapStorageError::PageStorageError(e)),
                };
                Some(
                    FastHeapEntryPointer {
                        page_index: next_page.index() as u32,
                        entry_offset: occupied as u16,
                    },
                )
            } else {
                None
            };
            let header = FastHeapEntryHeader { head: k == 0, next, payload_length: len as u16 };
            let ghost mid = self.pages;
            proof {
                lemma_untouched_at(before, mid, plan, k as int, k as int);
                lemma_header_round_trip(header, Seq::empty(), Seq::empty());
            }
            match header.append_to(&page, &mut self.pages) {
                Ok(()) => {},
                Err(e) => return Err(HeapStorageError::PageStorageError(e)),
            }
            let ghost mid2 = self.pages;
            proof {
                assert(page.index_spec() == plan[k as int].0);
                assert(mid.count_spec() == count);
                assert(forall|j: int|
                    0 <= j < before.count_spec() && j != plan[k as int].0 ==> #[trigger] mid2.data(j) == mid.data(j)
                        && mid2.occupied(j) == mid.occupied(j));
                assert(start as int == plan[k as int].1 && len as int == plan[k as int].2);
                assert(plan[k as int].1 + plan[k as int].2 <= data@.len());
            }
            let total = data.len();
            let payload = vstd::slice::slice_subrange(data, start, start + len);
            match self.pages.append(&page, payload) {
                Ok(()) => {},
                Err(e) => return Err(HeapStorageError::PageStorageError(e)),
            }
            proof {
                lemma_part_step(before, mid, self.pages, plan, data@, k as int, header);
                let p = plan[k as int].0;
                assert(forall|j: int|
                    0 <= j < before.count_spec() && j != plan[k as int].0 ==> #[trigger] self.pages.data(j)
                        == mid2.data(j) && self.pages.occupied(j) == mid2.occupied(j));
                assert(forall|j: int|
                    0 <= j < before.count_spec() && j != plan[k as int].0 ==> #[trigger] self.pages.data(j)
                        == mid.data(j) && self.pages.occupied(j) == mid.occupied(j));
                lemma_parts_kept(before, mid, self.pages, plan, data@, k as int);
                lemma_untouched_step(before, mid, mid2, self.pages, plan, k as int);
            }
            k = k + 1;
        }
        Ok(())
    }

    /// Appends `data` as an entry. Pages are visited once each from
    /// `desired_page_index` on, wrapping around; each page with room for
    /// more than a header takes the next part of the data, as much as fits,
    /// until all of it is placed. Then each part is appended to its page
    /// with its header. Without enough room the heap is full (`FullHeap`);
    /// a page whose header claims more than a page is refused
    /// (`OutOfBounds`). Either way nothing is written.
    #[verifier::rlimit(80)]
    pub fn insert_entry(&mut self, desired_page_index: usize, data: &[u8]) -> (r: Result<
        (),
        HeapStorageError,
    >)
        requires
            old(self).wf(),
            desired_page_index < old(self).pages_spec().count_spec() || old(self).pages_spec().count_spec() == 0,
        ensures
            final(self).wf(),
            final(self).pages_spec().count_spec() == old(self).pages_spec().count_spec(),
            final(self).pages_spec().size_spec() == old(self).pages_spec().size_spec(),
            r is Err ==> *final(self) == *old(self),
            desired_page_index < old(self).pages_spec().count_spec() && old(self).pages_spec().occupied(
                desired_page_index as int,
            ) + HEADER_SIZE + data@.len() + 1 <= old(self).pages_spec().size_spec() ==> r is Ok,
            r is Ok ==> exists|plan: Seq<PartView>|
                #[trigger] plan_covers(plan, data@, old(self).pages_spec().count_spec() as int) && (forall|k: int|
                    0 <= k < plan.len() ==> #[trigger] part_written(
                        old(self).pages_spec(),
                        final(self).pages_spec(),
                        plan,
                        data@,
                        k,
                    )) && untouched(old(self).pages_spec(), final(self).pages_spec(), plan, plan.len() as int),
    {
        let count = self.pages.page_count();
        let mut pages_iter = PageIndexIterator::new(desired_page_index, count);
        let mut parts: Vec<(FastPage, usize, usize)> = Vec::new();
        let ghost mut plan: Seq<PartView> = Seq::empty();
        let ghost mut steps: Seq<int> = Seq::empty();
        let mut done: usize = 0;
        loop
            invariant
                self.wf(),
                *self == *old(self),
                count == self.pages.count_spec(),
                pages_iter.wf(),
                pages_iter.count() == count,
                pages_iter.start_spec() == desired_page_index,
                done <= data@.len(),
                parts@.len() == plan.len(),
                plan.len() == steps.len(),
                forall|k: int|
                    0 <= k < plan.len() ==> {
                        &&& (#[trigger] plan[k]).0 == parts@[k].0.index_spec()
                        &&& plan[k].1 == parts@[k].1
                        &&& plan[k].2 == parts@[k].2
                        &&& 0 <= plan[k].1
                        &&& plan[k].1 + plan[k].2 <= done
                        &&& 0 <= steps[k] < pages_iter.visited()
                        &&& plan[k].0 == (desired_page_index + steps[k]) % (count as int)
                        &&& 0 <= plan[k].0 < count
                        &&& plan[k].2 + HEADER_SIZE <= self.pages.size_spec() - self.pages.occupied(
                            plan[k].0,
                        )
                        &&& self.pages.occupied(plan[k].0) <= self.pages.size_spec()
                    },
                forall|a: int, b: int| 0 <= a < b < steps.len() ==> steps[a] < steps[b],
                plan.len() > 0 ==> plan[0].1 == 0 && plan.last().1 + plan.last().2 == done,
                plan.len() == 0 ==> done == 0,
                forall|k: int| 0 <= k < plan.len() - 1 ==> #[trigger] plan[k].1 + plan[k].2 == plan[k + 1].1,
                desired_page_index < count && self.pages.occupied(desired_page_index as int) + HEADER_SIZE
                    + data@.len() + 1 <= self.pages.size_spec() ==> pages_iter.visited() == 0,
            decreases count - pages_iter.visited(),
        {
            let ghost step = pages_iter.visited() as int;
            proof {
                if step == 0 && desired_page_index < count {
                    vstd::arithmetic::div_mod::lemma_small_mod(desired_page_index as nat, count as nat);
                }
            }
            let index = match pages_iter.next() {
                Some(i) => i,
                None => return Err(HeapStorageError::FullHeap),
            };
            proof {
                vstd::arithmetic::div_mod::lemma_mod_bound((desired_page_index + step) as int, count as int);
            }
            let page = match self.pages.get_page(index) {
                Ok(p) => p,
                Err(e) => return Err(HeapStorageError::PageStorageError(e)),
            };
            let free = match self.pages.free_size(&page) {
                Ok(f) => f,
                Err(e) => return Err(HeapStorageError::PageStorageError(e)),
            };
            let data_free = if free > HEADER_SIZE {
                free - HEADER_SIZE
            } else {
                0
            };
            proof {
                if step == 0 && desired_page_index < count && self.pages.occupied(desired_page_index as int)
                    + HEADER_SIZE + data@.len() + 1 <= self.pages.size_spec() {
                    assert(index == desired_page_index);
                    assert(page.index_spec() == index);
                    self.pages.lemma_size_fits();
                    assert(self.pages.occupied(page.index_spec() as int) <= self.pages.size_spec());
                    assert(free as int == self.pages.size_spec() - self.pages.occupied(page.index_spec() as int));
                    assert(data_free >= data@.len() + 1);
                    assert(done == 0);
                }
            }
            if data_free == 0 {
                continue;
            }
            let part = if data.len() - done < data_free {
                data.len() - done
            } else {
                data_free
            };
            proof {
                plan = plan.push((index as int, done as int, part as int));
                steps = steps.push(step);
            }
            parts.push((page, done, part));
            done = done + part;
            if done < data.len() {
                continue;
            }
            proof {
                assert forall|a: int, b: int| 0 <= a < b < plan.len() implies plan[a].0 != plan[b].0 by {
                    lemma_rotation_distinct(desired_page_index as int, steps[a], steps[b], count as int);
                }
            }
            let ghost before = self.pages;
            match self.write_parts(&parts, data, Ghost(plan)) {
                Ok(()) => {},
                Err(e) => return Err(e),
            }
            proof {
                assert(before == old(self).pages_spec());
                assert(self.pages == self.pages_spec());
                assert(count as int == old(self).pages_spec().count_spec() as int);
                assert(plan_covers(plan, data@, old(self).pages_spec().count_spec() as int) && (forall|k: int|
                    0 <= k < plan.len() ==> #[trigger] part_written(old(self).pages_spec(), self.pages_spec(), plan, data@, k))
                    && untouched(old(self).pages_spec(), self.pages_spec(), plan, plan.len() as int));
            }
            return Ok(());
        }
    }
}

} // verus!

verus! {

/// Walks the records of the heap's pages, page after page in visiting
/// order, stopping at the first part of each entry.
pub struct FastHeapIterator {
    page_index_iterator: PageIndexIterator,
    current_page: FastPage,
    current_entry_offset: usize,
}

/// Reads the payload of one entry, part after part.
pub struct FastHeapEntryReader {
    page: FastPage,
    entry_header: FastHeapEntryHeader,
    payload_offset: usize,
    payload_remaining: usize,
}

impl<H: BlockStorage, P: BlockStorage> FastHeapStorage<H, P> {
    /// A walk over the entries from page `start_page_index` on; a heap
    /// without pages has none (`ZeroHeap`).
    pub fn iter_entries(&self, start_page_index: usize) -> (r: Result<FastHeapIterator, HeapStorageError>)
        requires
            self.wf(),
            start_page_index < self.pages_spec().count_spec() || self.pages_spec().count_spec() == 0,
        ensures
            self.pages_spec().count_spec() == 0 ==> r == Err::<FastHeapIterator, HeapStorageError>(
                HeapStorageError::ZeroHeap,
            ),
            self.pages_spec().count_spec() > 0 ==> (r matches Ok(it) && it.wf(*self)),
    {
        let page_index_iterator = PageIndexIterator::new(start_page_index, self.pages.page_count());
        FastHeapIterator::new(self, page_index_iterator)
    }
}

impl FastHeapIterator {
    pub closed spec fn wf<H: BlockStorage, P: BlockStorage>(&self, heap: FastHeapStorage<H, P>) -> bool {
        &&& heap.wf()
        &&& self.page_index_iterator.wf()
        &&& self.page_index_iterator.count() == heap.pages_spec().count_spec()
        &&& self.current_page.index_spec() < heap.pages_spec().count_spec()
        &&& self.current_entry_offset <= heap.pages_spec().size_spec() + HEADER_SIZE + 0x1_0000
    }

    /// How many pages are left to visit.
    pub closed spec fn pages_left<H: BlockStorage, P: BlockStorage>(&self, heap: FastHeapStorage<H, P>) -> int {
        heap.pages_spec().count_spec() - self.page_index_iterator.visited()
    }

    /// A bound on what is left of the current page.
    pub closed spec fn bytes_left<H: BlockStorage, P: BlockStorage>(&self, heap: FastHeapStorage<H, P>) -> int {
        heap.pages_spec().size_spec() + HEADER_SIZE + 0x1_0000 - self.current_entry_offset
    }

    /// What is left is never negative.
    pub proof fn lemma_progress_bounds<H: BlockStorage, P: BlockStorage>(&self, heap: FastHeapStorage<H, P>)
        requires
            self.wf(heap),
        ensures
            self.pages_left(heap) >= 0,
            self.bytes_left(heap) >= 0,
    {
    }

    /// Each step moves on: to a later page, or further in the same one.
    pub open spec fn moved_on<H: BlockStorage, P: BlockStorage>(
        &self,
        before: &Self,
        heap: FastHeapStorage<H, P>,
    ) -> bool {
        self.pages_left(heap) < before.pages_left(heap) || (self.pages_left(heap) == before.pages_left(heap) && self.bytes_left(heap) < before.bytes_left(heap))
    }

    /// Starts a walk at the first page that `page_index_iterator` visits;
    /// `ZeroHeap` when it visits none.
    pub fn new<H: BlockStorage, P: BlockStorage>(
        heap: &FastHeapStorage<H, P>,
        page_index_iterator: PageIndexIterator,
    ) -> (r: Result<Self, HeapStorageError>)
        requires
            heap.wf(),
            page_index_iterator.wf(),
            page_index_iterator.count() == heap.pages_spec().count_spec(),
        ensures
            page_index_iterator.visited() >= page_index_iterator.count() ==> r == Err::<
                Self,
                HeapStorageError,
            >(HeapStorageError::ZeroHeap),
            page_index_iterator.visited() < page_index_iterator.count() ==> (r matches Ok(it)
                && it.wf(*heap)),
    {
        let mut page_index_iterator = page_index_iterator;
        let first = match page_index_iterator.next() {
            Some(i) => i,
            None => return Err(HeapStorageError::ZeroHeap),
        };
        proof {
            vstd::arithmetic::div_mod::lemma_mod_bound(
                page_index_iterator.start_spec() + page_index_iterator.visited() - 1,
                page_index_iterator.count() as int,
            );
        }
        let current_page = match heap.pages.get_page(first) {
            Ok(p) => p,
            Err(e) => return Err(HeapStorageError::PageStorageError(e)),
        };
        Ok(FastHeapIterator { page_index_iterator, current_page, current_entry_offset: 0 })
    }

    /// The next record that starts an entry: its page, its header and
    /// where its payload starts; `None` after the last page. Records that
    /// continue an entry are passed over.
    pub fn next_head_entry_header<H: BlockStorage, P: BlockStorage>(
        &mut self,
        heap: &FastHeapStorage<H, P>,
    ) -> (r: Result<Option<(usize, FastHeapEntryHeader, usize)>, HeapStorageError>)
        requires
            old(self).wf(*heap),
        ensures
            final(self).wf(*heap),
            final(self).pages_left(*heap) >= 0 && final(self).bytes_left(*heap) >= 0,
            r matches Ok(Some(_)) ==> final(self).moved_on(old(self), *heap),
            r matches Ok(Some(found)) ==> found.0 < heap.pages_spec().count_spec() && found.2 >= HEADER_SIZE
                && found.1 == header_at(heap.pages_spec().data(found.0 as int), found.2 - HEADER_SIZE)
                && found.1.head && found.2 <= heap.pages_spec().occupied(found.0 as int) && found.2
                <= heap.pages_spec().size_spec(),
    {
        let size = heap.pages.page_size();
        proof {
            heap.pages.lemma_size_fits();
        }
        loop
            invariant
                self.wf(*heap),
                size == heap.pages_spec().size_spec(),
                self.current_entry_offset <= size + HEADER_SIZE + 0x1_0000,
                self.page_index_iterator.visited() >= old(self).page_index_iterator.visited(),
                self.page_index_iterator.visited() == old(self).page_index_iterator.visited()
                    ==> self.current_entry_offset >= old(self).current_entry_offset,
            decreases heap.pages_spec().count_spec() - self.page_index_iterator.visited(), size
                + HEADER_SIZE + 0x1_0000 - self.current_entry_offset,
        {
            let occupied = match heap.pages.occupied_size(&self.current_page) {
                Ok(o) => o,
                Err(e) => return Err(HeapStorageError::PageStorageError(e)),
            };
            proof {
                heap.pages.lemma_occupied_fits(self.current_page.index_spec() as int);
            }
            if self.current_entry_offset >= occupied {
                let next_index = match self.page_index_iterator.next() {
                    Some(i) => i,
                    None => return Ok(None),
                };
                proof {
                    vstd::arithmetic::div_mod::lemma_mod_bound(
                        self.page_index_iterator.start_spec() + self.page_index_iterator.visited() - 1,
                        self.page_index_iterator.count() as int,
                    );
                }
                self.current_page = match heap.pages.get_page(next_index) {
                    Ok(p) => p,
                    Err(e) => return Err(HeapStorageError::PageStorageError(e)),
                };
                self.current_entry_offset = 0;
                continue;
            }
            let header = match FastHeapEntryHeader::load_from(
                self.current_entry_offset,
                &self.current_page,
                &heap.pages,
            ) {
                Ok(h) => h,
                Err(e) => return Err(HeapStorageError::PageStorageError(e)),
            };
            let payload_offset = self.current_entry_offset + HEADER_SIZE;
            self.current_entry_offset = payload_offset + header.payload_length as usize;
            if !header.head {
                continue;
            }
            return Ok(Some((self.current_page.index(), header, payload_offset)));
        }
    }

    /// A reader of the next entry's payload; `None` after the last.
    pub fn next<H: BlockStorage, P: BlockStorage>(&mut self, heap: &FastHeapStorage<H, P>) -> (r: Result<
        Option<FastHeapEntryReader>,
        HeapStorageError,
    >)
        requires
            old(self).wf(*heap),
        ensures
            final(self).wf(*heap),
            final(self).pages_left(*heap) >= 0 && final(self).bytes_left(*heap) >= 0,
            r matches Ok(Some(reader)) ==> reader.wf(*heap) && final(self).moved_on(old(self), *heap),
            r matches Ok(Some(reader)) ==> ({
                let p = reader.page_spec() as int;
                let off = reader.offset() as int;
                &&& off >= HEADER_SIZE
                &&& reader.header_spec() == header_at(heap.pages_spec().data(p), off - HEADER_SIZE)
                &&& reader.header_spec().head
                &&& reader.remaining() == reader.header_spec().payload_length
                &&& off <= heap.pages_spec().occupied(p)
            }),
    {
        let (page_index, header, payload_offset) = match self.next_head_entry_header(heap) {
            Ok(Some(found)) => found,
            Ok(None) => return Ok(None),
            Err(e) => return Err(e),
        };
        let page = match heap.pages.get_page(page_index) {
            Ok(p) => p,
            Err(e) => return Err(HeapStorageError::PageStorageError(e)),
        };
        Ok(
            Some(
                FastHeapEntryReader {
                    page,
                    payload_offset,
                    payload_remaining: header.payload_length as usize,
                    entry_header: header,
                },
            ),
        )
    }
}

impl FastHeapEntryReader {
    pub closed spec fn wf<H: BlockStorage, P: BlockStorage>(&self, heap: FastHeapStorage<H, P>) -> bool {
        &&& heap.wf()
        &&& self.page.index_spec() < heap.pages_spec().count_spec()
        &&& self.payload_offset <= heap.pages_spec().size_spec()
    }

    /// The page being read.
    pub closed spec fn page_spec(&self) -> nat {
        self.page.index_spec()
    }

    /// Where the unread payload of the current part starts.
    pub closed spec fn offset(&self) -> nat {
        self.payload_offset as nat
    }

    /// The header of the current part.
    pub closed spec fn header_spec(&self) -> FastHeapEntryHeader {
        self.entry_header
    }

    /// How much payload of the current part is left.
    pub closed spec fn remaining(&self) -> nat {
        self.payload_remaining as nat
    }

    /// Reads up to `len` bytes of the payload. When the current part is
    /// used up, moves to the next part first; after the last part it reads
    /// nothing. A next part outside the heap is refused
    /// (`EntryOutOfBounds`).
    pub fn read<H: BlockStorage, P: BlockStorage>(&mut self, heap: &FastHeapStorage<H, P>, len: usize) -> (r: Result<
        Vec<u8>,
        HeapStorageError,
    >)
        requires
            old(self).wf(*heap),
        ensures
            final(self).wf(*heap),
            r matches Ok(v) ==> v@.len() <= len && v@ == heap.pages_spec().data(
                final(self).page_spec() as int,
            ).subrange(final(self).offset() - v@.len(), final(self).offset() as int),
            old(self).remaining() > 0 && len > 0 ==> (r is Ok ==> r.unwrap()@.len() > 0),
            old(self).remaining() > 0 && len > 0 ==> (r matches Ok(v) ==> final(self).page_spec() == old(self).page_spec()
                && final(self).header_spec() == old(self).header_spec() && final(self).offset() == old(self).offset()
                + v@.len() && final(self).remaining() == old(self).remaining() - v@.len() && v@.len() == if len
                < old(self).remaining() { len as int } else { old(self).remaining() as int }),
            old(self).remaining() == 0 && len > 0 ==> (r matches Ok(v) ==> match old(self).header_spec().next {
                None => v@.len() == 0,
                Some(ptr) => final(self).page_spec() == ptr.page_index && final(self).header_spec() == header_at(
                    heap.pages_spec().data(ptr.page_index as int),
                    ptr.entry_offset as int,
                ) && final(self).offset() == ptr.entry_offset + HEADER_SIZE + v@.len(),
            }),
    {
        proof {
            heap.pages.lemma_data_len(self.page.index_spec() as int);
        }
        if len == 0 {
            return Ok(Vec::new());
        }
        if self.payload_remaining == 0 {
            let next = match self.entry_header.next {
                None => return Ok(Vec::new()),
                Some(n) => n,
            };
            if next.page_index as usize >= heap.pages.page_count() {
                return Err(HeapStorageError::EntryOutOfBounds);
            }
            let page = match heap.pages.get_page(next.page_index as usize) {
                Ok(p) => p,
                Err(e) => return Err(HeapStorageError::PageStorageError(e)),
            };
            let header = match FastHeapEntryHeader::load_from(next.entry_offset as usize, &page, &heap.pages) {
                Ok(h) => h,
                Err(e) => return Err(HeapStorageError::PageStorageError(e)),
            };
            proof {
                heap.pages.lemma_data_len(page.index_spec() as int);
            }
            self.page = page;
            self.entry_header = header;
            self.payload_offset = next.entry_offset as usize + HEADER_SIZE;
            self.payload_remaining = header.payload_length as usize;
        }
        proof {
            heap.pages.lemma_size_fits();
        }
        let to_read = if len < self.payload_remaining {
            len
        } else {
            self.payload_remaining
        };
        let bytes = match heap.pages.read(&self.page, self.payload_offset, to_read) {
            Ok(b) => b,
            Err(e) => return Err(HeapStorageError::PageStorageError(e)),
        };
        self.payload_offset = self.payload_offset + to_read;
        self.payload_remaining = self.payload_remaining - to_read;
        Ok(bytes)
    }
}

} // verus!
