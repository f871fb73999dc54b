use std::collections::HashMap;
use vstd::prelude::*;

use crate::book::{PageHeader, PageKey};
use crate::codec::{get32, le32, put_u32, take_u32, take_u8};
use crate::error::ErrorKind;
use crate::pager::PageIndex;

verus! {

broadcast use vstd::std_specs::hash::group_hash_axioms;

/// The number of distinct page indices.
pub const PAGE_INDEX_COUNT: u64 = 0x1_0000_0000;

/// The map key of a page key: section index in the high half, section page
/// index in the low half.
pub open spec fn page_key_code(k: PageKey) -> int {
    k.section_index as int * 0x1_0000_0000 + k.section_page_index as int
}

fn key_code(k: &PageKey) -> (r: u64)
    ensures
        r == page_key_code(*k),
{
    (k.section_index as u64) * 0x1_0000_0000u64 + k.section_page_index as u64
}

proof fn lemma_code_injective(a: PageKey, b: PageKey)
    requires
        page_key_code(a) == page_key_code(b),
    ensures
        a == b,
{
    let (sa, sb) = (a.section_index as int, b.section_index as int);
    let (pa, pb) = (a.section_page_index as int, b.section_page_index as int);
    if sa < sb {
        assert(sa * 0x1_0000_0000 + 0x1_0000_0000 <= sb * 0x1_0000_0000) by (nonlinear_arith)
            requires
                sa < sb,
        ;
    } else if sb < sa {
        assert(sb * 0x1_0000_0000 + 0x1_0000_0000 <= sa * 0x1_0000_0000) by (nonlinear_arith)
            requires
                sb < sa,
        ;
    }
}

/// A journal entry of the page registry.
#[derive(Clone, Copy, Debug, PartialEq, Eq, Structural)]
pub enum PageEvent {
    /// A page key was given a pager page index.
    Assigned(PageKey, PageIndex),
}

/// The bytes of a page key in a registry file or an event.
pub open spec fn page_key_bytes(k: PageKey) -> Seq<u8> {
    le32(k.section_index) + le32(k.section_page_index)
}

/// The page key whose bytes start at `b[at]`.
pub open spec fn page_key_at(b: Seq<u8>, at: int) -> PageKey {
    PageKey { section_index: get32(b, at), section_page_index: get32(b, at + 4) }
}

/// The page event whose bytes start at `b[at]`, or the error that reading
/// one there meets.
pub open spec fn page_event_at(b: Seq<u8>, at: int) -> Result<PageEvent, ErrorKind> {
    if at >= b.len() {
        Err(ErrorKind::UnexpectedEof)
    } else if b[at] != 1 {
        Err(ErrorKind::InvalidData)
    } else if at + 13 > b.len() {
        Err(ErrorKind::UnexpectedEof)
    } else {
        Ok(PageEvent::Assigned(page_key_at(b, at + 1), get32(b, at + 9)))
    }
}

impl PageEvent {
    /// The bytes of this event: a tag, the page key, the page index.
    pub open spec fn encoded(&self) -> Seq<u8> {
        match self {
            PageEvent::Assigned(k, i) => seq![1u8] + page_key_bytes(*k) + le32(*i),
        }
    }

    /// Reads an event at `*pos` and moves past it.
    pub fn read(buf: &[u8], pos: &mut usize) -> (r: Result<PageEvent, ErrorKind>)
        ensures
            r == page_event_at(buf@, *old(pos) as int),
            r is Ok ==> *final(pos) == *old(pos) + 13,
    {
        let tag = match take_u8(buf, pos) {
            Ok(t) => t,
            Err(e) => return Err(e),
        };
        if tag != 1 {
            return Err(ErrorKind::InvalidData);
        }
        let key = match read_page_key(buf, pos) {
            Ok(k) => k,
            Err(e) => return Err(e),
        };
        let index = match take_u32(buf, pos) {
            Ok(i) => i,
            Err(e) => return Err(e),
        };
        Ok(PageEvent::Assigned(key, index))
    }

    /// Appends the bytes of this event.
    pub fn write(&self, out: &mut Vec<u8>)
        ensures
            final(out)@ == old(out)@ + self.encoded(),
    {
        match self {
            PageEvent::Assigned(k, i) => {
                out.push(1u8);
                write_page_key(out, k);
                put_u32(out, *i);
                assert(out@ =~= old(out)@ + self.encoded());
            },
        }
    }
}

/// Reads a page key at `*pos` and moves past it.
pub fn read_page_key(buf: &[u8], pos: &mut usize) -> (r: Result<PageKey, ErrorKind>)
    ensures
        *old(pos) + 8 <= buf@.len() ==> r == Ok::<PageKey, ErrorKind>(
            page_key_at(buf@, *old(pos) as int),
        ) && *final(pos) == *old(pos) + 8,
        *old(pos) + 8 > buf@.len() ==> r == Err::<PageKey, ErrorKind>(ErrorKind::UnexpectedEof),
{
    let section_index = match take_u32(buf, pos) {
        Ok(x) => x,
        Err(e) => return Err(e),
    };
    let section_page_index = match take_u32(buf, pos) {
        Ok(x) => x,
        Err(e) => return Err(e),
    };
    Ok(PageKey { section_index, section_page_index })
}

/// Appends the bytes of a page key.
pub fn write_page_key(out: &mut Vec<u8>, key: &PageKey)
    ensures
        final(out)@ == old(out)@ + page_key_bytes(*key),
{
    put_u32(out, key.section_index);
    put_u32(out, key.section_page_index);
    assert(out@ =~= old(out)@ + page_key_bytes(*key));
}

/// The journal entries of the keys from index `from` on: each key with
/// its page index.
pub open spec fn assignments(keys: Seq<PageKey>, from: int) -> Seq<PageEvent> {
    Seq::new((keys.len() - from) as nat, |j: int| PageEvent::Assigned(keys[from + j], (from + j) as u32))
}

/// Assigning more keys journals their entries after those of the keys
/// before them.
pub proof fn lemma_assignments_extend(b: Seq<PageKey>, c: Seq<PageKey>, from: int)
    requires
        0 <= from <= b.len(),
        b.is_prefix_of(c),
    ensures
        assignments(b, from) + assignments(c, b.len() as int) == assignments(c, from),
{
    assert(assignments(b, from) + assignments(c, b.len() as int) =~= assignments(c, from)) by {
        assert forall|j: int| 0 <= j < c.len() - from implies (assignments(b, from) + assignments(
            c,
            b.len() as int,
        ))[j] == assignments(c, from)[j] by {
            if j < b.len() - from {
                assert(b[from + j] == c[from + j]);
            }
        }
    }
}

/// The bytes of a registry file that lists `keys`, the key of page `i` at
/// `[8 * i, 8 * i + 8)`.
pub open spec fn page_keys_bytes(keys: Seq<PageKey>) -> Seq<u8>
    decreases keys.len(),
{
    if keys.len() == 0 {
        Seq::empty()
    } else {
        page_keys_bytes(keys.drop_last()) + page_key_bytes(keys.last())
    }
}

/// The page keys of a registry file: one for each whole eight bytes.
pub open spec fn page_keys_of(b: Seq<u8>) -> Seq<PageKey> {
    Seq::new(b.len() / 8, |i: int| page_key_at(b, 8 * i))
}

/// Assigns pager pages to page keys: page `i` belongs to the `i`-th key
/// assigned. Assignments are never removed.
pub struct ManagedPageRegistry {
    cache: Vec<PageKey>,
    map: HashMap<u64, PageIndex>,
    journal: Vec<PageEvent>,
}

impl ManagedPageRegistry {
    /// The map and the list of keys agree.
    pub closed spec fn wf(&self) -> bool {
        &&& self.cache@.len() <= PAGE_INDEX_COUNT
        &&& forall|i: int|
            0 <= i < self.cache@.len() ==> {
                let c = page_key_code(#[trigger] self.cache@[i]) as u64;
                self.map@.contains_key(c) && self.map@[c] == i
            }
        &&& forall|c: u64| #[trigger]
            self.map@.contains_key(c) ==> self.map@[c] < self.cache@.len() && page_key_code(
                self.cache@[self.map@[c] as int],
            ) == c
    }

    /// The key of each assigned page, by page index.
    pub closed spec fn keys(&self) -> Seq<PageKey> {
        self.cache@
    }

    /// The assignments made since the journal was last taken.
    pub closed spec fn journal(&self) -> Seq<PageEvent> {
        self.journal@
    }

    /// The page assigned to `k`, if any.
    pub closed spec fn lookup(&self, k: PageKey) -> Option<PageIndex> {
        let c = page_key_code(k) as u64;
        if self.map@.contains_key(c) {
            Some(self.map@[c])
        } else {
            None
        }
    }

    /// Distinct page keys have distinct pages, and the pages assigned are
    /// exactly `0..n` for `n` keys: the key of page `i` is looked up to `i`.
    pub proof fn lemma_page_indices_distinct(&self)
        requires
            self.wf(),
        ensures
            forall|k: PageKey| #[trigger]
                self.lookup(k) matches Some(i) ==> i < self.keys().len() && self.keys()[i as int]
                    == k,
            forall|k: PageKey| #[trigger] self.lookup(k) is None ==> !self.keys().contains(k),
            self.keys().len() <= PAGE_INDEX_COUNT,
            forall|i: int|
                0 <= i < self.keys().len() ==> self.lookup(#[trigger] self.keys()[i]) == Some(
                    i as PageIndex,
                ),
            forall|i: int, j: int|
                0 <= i < self.keys().len() && 0 <= j < self.keys().len() && i != j ==> self.keys()[i]
                    != self.keys()[j],
    {
        assert forall|k: PageKey| #[trigger]
            self.lookup(k) is Some implies self.lookup(k).unwrap() < self.keys().len()
                && self.keys()[self.lookup(k).unwrap() as int] == k by {
            let c = page_key_code(k) as u64;
            let i = self.map@[c];
            lemma_code_injective(self.cache@[i as int], k);
        }
        assert forall|k: PageKey| #[trigger] self.lookup(k) is None implies !self.keys().contains(
            k,
        ) by {
            if self.keys().contains(k) {
                let i = choose|i: int| 0 <= i < self.keys().len() && self.keys()[i] == k;
                assert(self.cache@[i] == k);
            }
        }
    }

    /// Registries with the same keys look keys up alike.
    pub proof fn lemma_same_keys_same_lookup(&self, other: &Self)
        requires
            self.wf(),
            other.wf(),
            self.keys() == other.keys(),
        ensures
            forall|k: PageKey| #[trigger] self.lookup(k) == other.lookup(k),
    {
        self.lemma_page_indices_distinct();
        other.lemma_page_indices_distinct();
        assert forall|k: PageKey| #[trigger] self.lookup(k) == other.lookup(k) by {
            if self.lookup(k) is Some {
                let i = self.lookup(k).unwrap() as int;
                assert(other.lookup(other.keys()[i]) == Some(i as PageIndex));
            } else if other.lookup(k) is Some {
                let i = other.lookup(k).unwrap() as int;
                assert(self.lookup(self.keys()[i]) == Some(i as PageIndex));
            }
        }
    }

    /// An empty registry.
    pub fn new() -> (r: Self)
        ensures
            r.wf(),
            r.keys() == Seq::<PageKey>::empty(),
            r.journal() == Seq::<PageEvent>::empty(),
    {
        ManagedPageRegistry { cache: Vec::new(), map: HashMap::new(), journal: Vec::new() }
    }

    /// The page assigned to `key`, if any.
    pub fn try_resolve_page(&self, key: &PageKey) -> (r: Option<PageHeader>)
        requires
            self.wf(),
        ensures
            match r {
                Some(h) => self.lookup(*key) == Some(h.pager_page_index),
                None => self.lookup(*key) is None,
            },
    {
        let c = key_code(key);
        match self.map.get(&c) {
            Some(i) => Some(PageHeader { pager_page_index: *i }),
            None => None,
        }
    }

    /// The page assigned to `key`; a key without one is assigned the next
    /// page index, and the assignment is journaled. Fails with
    /// `InvalidInput` when every page index is taken.
    pub fn resolve_page(&mut self, key: &PageKey) -> (r: Result<PageHeader, ErrorKind>)
        requires
            old(self).wf(),
        ensures
            final(self).wf(),
            old(self).lookup(*key) matches Some(i) ==> r == Ok::<PageHeader, ErrorKind>(
                PageHeader { pager_page_index: i },
            ) && *final(self) == *old(self),
            old(self).lookup(*key) is None && old(self).keys().len() < PAGE_INDEX_COUNT ==> {
                let i = old(self).keys().len() as PageIndex;
                &&& r == Ok::<PageHeader, ErrorKind>(PageHeader { pager_page_index: i })
                &&& final(self).keys() == old(self).keys().push(*key)
                &&& final(self).journal() == old(self).journal().push(PageEvent::Assigned(*key, i))
                &&& forall|k: PageKey| #[trigger]
                    final(self).lookup(k) == if k == *key {
                        Some(i)
                    } else {
                        old(self).lookup(k)
                    }
            },
            old(self).lookup(*key) is None && old(self).keys().len() >= PAGE_INDEX_COUNT ==> r
                == Err::<PageHeader, ErrorKind>(ErrorKind::InvalidInput) && *final(self) == *old(self),
    {
        match self.try_resolve_page(key) {
            Some(h) => return Ok(h),
            None => {},
        }
        if self.cache.len() as u64 >= PAGE_INDEX_COUNT {
            return Err(ErrorKind::InvalidInput);
        }
        let i = self.cache.len() as PageIndex;
        self.push_key(*key);
        let ghost pushed = *self;
        self.journal.push(PageEvent::Assigned(*key, i));
        assert(forall|k: PageKey| #[trigger] self.lookup(k) == pushed.lookup(k));
        Ok(PageHeader { pager_page_index: i })
    }

    /// Gives the next page index to `key`, which has none.
    fn push_key(&mut self, key: PageKey)
        requires
            old(self).wf(),
            old(self).lookup(key) is None,
            old(self).cache@.len() < PAGE_INDEX_COUNT,
        ensures
            final(self).wf(),
            final(self).keys() == old(self).keys().push(key),
            final(self).journal() == old(self).journal(),
            forall|k: PageKey| #[trigger]
                final(self).lookup(k) == if k == key {
                    Some(old(self).keys().len() as PageIndex)
                } else {
                    old(self).lookup(k)
                },
    {
        let i = self.cache.len() as PageIndex;
        let c = key_code(&key);
        self.cache.push(key);
        self.map.insert(c, i);
        assert forall|j: int| 0 <= j < self.cache@.len() implies {
            let d = page_key_code(#[trigger] self.cache@[j]) as u64;
            self.map@.contains_key(d) && self.map@[d] == j
        } by {
            if j < i {
                let d = page_key_code(self.cache@[j]) as u64;
                if d == c {
                    lemma_code_injective(self.cache@[j], key);
                    assert(old(self).map@.contains_key(d));
                }
            }
        }
        assert forall|k: PageKey| #[trigger]
            self.lookup(k) == if k == key {
                Some(i)
            } else {
                old(self).lookup(k)
            } by {
            if page_key_code(k) as u64 == c {
                lemma_code_injective(k, key);
            }
        }
    }

    /// Replays a journaled assignment. An assignment of the next index to a
    /// new key is made, one that repeats an existing assignment changes
    /// nothing, and any other is corrupt (`InvalidData`).
    pub fn apply(&mut self, event: PageEvent) -> (r: Result<(), ErrorKind>)
        requires
            old(self).wf(),
        ensures
            final(self).wf(),
            final(self).journal() == old(self).journal(),
            match event {
                PageEvent::Assigned(k, i) => {
                    if i < old(self).keys().len() && old(self).keys()[i as int] == k {
                        r is Ok && *final(self) == *old(self)
                    } else if i == old(self).keys().len() && !old(self).keys().contains(k) {
                        r is Ok && final(self).keys() == old(self).keys().push(k)
                    } else {
                        r == Err::<(), ErrorKind>(ErrorKind::InvalidData) && *final(self) == *old(self)
                    }
                },
            },
    {
        proof {
            self.lemma_page_indices_distinct();
        }
        match event {
            PageEvent::Assigned(k, i) => {
                let n = self.cache.len();
                if (i as usize) < n {
                    if self.cache[i as usize] == k {
                        Ok(())
                    } else {
                        Err(ErrorKind::InvalidData)
                    }
                } else if i as usize == n {
                    match self.try_resolve_page(&k) {
                        Some(_) => Err(ErrorKind::InvalidData),
                        None => {
                            self.push_key(k);
                            Ok(())
                        },
                    }
                } else {
                    Err(ErrorKind::InvalidData)
                }
            },
        }
    }

    /// A registry over the bytes of its file, one page key per whole eight
    /// bytes. A key listed twice is corrupt (`InvalidData`), as is a file
    /// with more keys than page indices.
    pub fn load(bytes: &[u8]) -> (r: Result<Self, ErrorKind>)
        ensures
            ({
                let keys = page_keys_of(bytes@);
                if keys.len() > PAGE_INDEX_COUNT || exists|i: int, j: int|
                    0 <= i < j < keys.len() && keys[i] == keys[j] {
                    r == Err::<Self, ErrorKind>(ErrorKind::InvalidData)
                } else {
                    r matches Ok(g) && g.wf() && g.keys() == keys && g.journal() == Seq::<
                        PageEvent,
                    >::empty()
                }
            }),
    {
        let ghost keys = page_keys_of(bytes@);
        let count = bytes.len() / 8;
        if count as u64 > PAGE_INDEX_COUNT {
            return Err(ErrorKind::InvalidData);
        }
        let mut g = ManagedPageRegistry::new();
        let mut pos: usize = 0;
        let mut i: usize = 0;
        while i < count
            invariant
                count == keys.len(),
                count <= PAGE_INDEX_COUNT,
                keys == page_keys_of(bytes@),
                i <= count,
                pos == 8 * i,
                g.wf(),
                g.keys() == keys.subrange(0, i as int),
                g.journal() == Seq::<PageEvent>::empty(),
                forall|a: int, b: int| 0 <= a < b < i ==> keys[a] != keys[b],
            decreases count - i,
        {
            let key = match read_page_key(bytes, &mut pos) {
                Ok(k) => k,
                Err(e) => return Err(e),
            };
            assert(key == keys[i as int]);
            proof {
                g.lemma_page_indices_distinct();
            }
            match g.try_resolve_page(&key) {
                Some(h) => {
                    proof {
                        assert(keys[h.pager_page_index as int] == keys[i as int]);
                    }
                    return Err(ErrorKind::InvalidData);
                },
                None => {},
            }
            proof {
                assert forall|a: int| 0 <= a < i implies keys[a] != keys[i as int] by {
                    assert(g.keys()[a] == keys[a]);
                }
            }
            g.push_key(key);
            i = i + 1;
            assert(g.keys() =~= keys.subrange(0, i as int));
        }
        assert(g.keys() =~= keys);
        Ok(g)
    }

    /// The bytes of this registry's file.
    pub fn snapshot(&self) -> (r: Vec<u8>)
        ensures
            r@ == page_keys_bytes(self.keys()),
    {
        let mut out: Vec<u8> = Vec::new();
        let mut i: usize = 0;
        while i < self.cache.len()
            invariant
                i <= self.cache@.len(),
                out@ == page_keys_bytes(self.cache@.subrange(0, i as int)),
            decreases self.cache@.len() - i,
        {
            write_page_key(&mut out, &self.cache[i]);
            proof {
                let s = self.cache@.subrange(0, i + 1);
                assert(s.drop_last() =~= self.cache@.subrange(0, i as int));
            }
            i = i + 1;
        }
        assert(self.cache@.subrange(0, i as int) =~= self.cache@);
        out
    }

    /// The number of pages assigned.
    pub fn page_count(&self) -> (r: usize)
        ensures
            r == self.keys().len(),
    {
        self.cache.len()
    }

    /// Hands out the journal and starts an empty one.
    pub fn take_journal(&mut self) -> (r: Vec<PageEvent>)
        ensures
            r@ == old(self).journal(),
            final(self).journal() == Seq::<PageEvent>::empty(),
            final(self).keys() == old(self).keys(),
            final(self).wf() == old(self).wf(),
            forall|k: PageKey| #[trigger] final(self).lookup(k) == old(self).lookup(k),
    {
        let mut r: Vec<PageEvent> = Vec::new();
        std::mem::swap(&mut r, &mut self.journal);
        r
    }
}

} // verus!

verus! {

/// Loading the bytes of a registry file gives back the keys written: the
/// key of page `i` is read from bytes `[8 * i, 8 * i + 8)`.
pub proof fn lemma_page_keys_round_trip(keys: Seq<PageKey>)
    ensures
        page_keys_bytes(keys).len() == 8 * keys.len(),
        page_keys_of(page_keys_bytes(keys)) == keys,
    decreases keys.len(),
{
    crate::codec::lemma_le_round_trip();
    if keys.len() > 0 {
        let init = keys.drop_last();
        lemma_page_keys_round_trip(init);
        let b = page_keys_bytes(keys);
        let bi = page_keys_bytes(init);
        assert(b.len() == 8 * keys.len());
        assert forall|i: int| 0 <= i < keys.len() implies #[trigger] page_key_at(b, 8 * i) == keys[i] by {
            if i < init.len() {
                assert(page_key_at(bi, 8 * i) == init[i]);
                assert(b.subrange(8 * i, 8 * i + 4) =~= bi.subrange(8 * i, 8 * i + 4));
                assert(b.subrange(8 * i + 4, 8 * i + 8) =~= bi.subrange(8 * i + 4, 8 * i + 8));
            } else {
                let k = keys.last();
                assert(b.subrange(8 * i, 8 * i + 4) =~= le32(k.section_index));
                assert(b.subrange(8 * i + 4, 8 * i + 8) =~= le32(k.section_page_index));
            }
        }
        assert(page_keys_of(b) =~= keys);
    } else {
        assert(page_keys_of(page_keys_bytes(keys)) =~= keys);
    }
}

} // verus!
