use vstd::arithmetic::div_mod::{lemma_div_is_ordered, lemma_fundamental_div_mod};
use vstd::bytes::{spec_u32_from_le_bytes, u32_from_le_bytes};
use vstd::prelude::*;

use crate::book::{PagerBook, PagerBookSection, SectionIndex};
use crate::codec::{get32, le32, lemma_le_round_trip, put_u32, take_u32};
use crate::error::ErrorKind;
use crate::index_registry::{
    bloom_updated, IndexChunk, IndexChunkSize, IndexEvent, IndexHeader, IndexKey,
    ManagedIndexRegistry,
};
use crate::page_registry::{assignments, PageEvent};
use crate::page_registry::PAGE_INDEX_COUNT;
use crate::pager::SeekFrom;
use crate::section_registry::{padded, ManagedSectionRegistry, SectionEvent, SectionHeader};

verus! {

/// The hash of a key.
pub type Hash = u32;

/// A key and a value, as stored.
pub type EntryView = (Seq<u8>, Seq<u8>);

/// The hash of a key: its first four bytes, zero-padded, read as a
/// little-endian number.
pub open spec fn key_hash(key: Seq<u8>) -> Hash {
    spec_u32_from_le_bytes(padded(key, 4))
}

/// The section that a key with hash `h` goes to, of `n` sections.
pub open spec fn section_for(h: Hash, n: u32) -> u32 {
    (h % n) as u32
}

/// The bloom filter bit of a key with hash `h`, of `n` sections: the bits
/// of the hash above those that chose the section pick it.
pub open spec fn bloom_bit(h: Hash, n: u32) -> u64 {
    1u64 << ((h / n) as u64 % 64)
}

/// The bytes of an entry: key size and value size, little-endian `u32`s,
/// then the key and the value.
pub open spec fn entry_bytes(e: EntryView) -> Seq<u8> {
    le32(e.0.len() as u32) + le32(e.1.len() as u32) + e.0 + e.1
}

/// The number of bytes an entry takes.
pub open spec fn entry_len(e: EntryView) -> int {
    8 + e.0.len() as int + e.1.len() as int
}

/// The bytes of a section that holds `es`, one after the other.
pub open spec fn stream_of(es: Seq<EntryView>) -> Seq<u8>
    decreases es.len(),
{
    if es.len() == 0 {
        Seq::empty()
    } else {
        stream_of(es.drop_last()) + entry_bytes(es.last())
    }
}

/// The offset of entry `i` in the section that holds `es`.
pub open spec fn offset_of(es: Seq<EntryView>, i: int) -> int {
    stream_of(es.subrange(0, i)).len() as int
}

/// The entries of `es` whose key is `k`, in order.
pub open spec fn matching(es: Seq<EntryView>, k: Seq<u8>) -> Seq<EntryView>
    decreases es.len(),
{
    if es.len() == 0 {
        Seq::empty()
    } else if es.last().0 == k {
        matching(es.drop_last(), k).push(es.last())
    } else {
        matching(es.drop_last(), k)
    }
}

/// All entries of all sections, section by section.
pub open spec fn concat_sections(cs: Seq<Seq<EntryView>>) -> Seq<EntryView>
    decreases cs.len(),
{
    if cs.len() == 0 {
        Seq::empty()
    } else {
        concat_sections(cs.drop_last()) + cs.last()
    }
}

/// Where the entries of a section lie in its bytes: entry `i` starts at
/// `offset_of(es, i)`, takes `entry_len(es[i])` bytes there, and the next
/// starts right after it.
pub proof fn lemma_stream_layout(es: Seq<EntryView>)
    ensures
        stream_of(es).len() == offset_of(es, es.len() as int),
        offset_of(es, 0) == 0,
        forall|i: int| 0 <= i <= es.len() ==> #[trigger] offset_of(es, i) <= stream_of(es).len(),
        forall|i: int|
            0 <= i < es.len() ==> #[trigger] offset_of(es, i + 1) == offset_of(es, i) + entry_len(
                es[i],
            ),
        forall|i: int|
            0 <= i < es.len() ==> #[trigger] stream_of(es).subrange(
                offset_of(es, i),
                offset_of(es, i) + entry_len(es[i]),
            ) == entry_bytes(es[i]),
    decreases es.len(),
{
    lemma_le_round_trip();
    assert(es.subrange(0, es.len() as int) =~= es);
    assert(es.subrange(0, 0) =~= Seq::<EntryView>::empty());
    if es.len() > 0 {
        let init = es.drop_last();
        lemma_stream_layout(init);
        assert forall|i: int| 0 <= i <= es.len() implies #[trigger] offset_of(es, i)
            <= stream_of(es).len() by {
            if i < es.len() {
                assert(es.subrange(0, i) =~= init.subrange(0, i));
                assert(offset_of(init, i) <= stream_of(init).len());
            }
        }
        assert forall|i: int| 0 <= i < es.len() implies #[trigger] offset_of(es, i + 1) == offset_of(
            es,
            i,
        ) + entry_len(es[i]) && stream_of(es).subrange(
            offset_of(es, i),
            offset_of(es, i) + entry_len(es[i]),
        ) == entry_bytes(es[i]) by {
            assert(es.subrange(0, i) =~= init.subrange(0, i));
            if i + 1 < es.len() {
                assert(es.subrange(0, i + 1) =~= init.subrange(0, i + 1));
                assert(offset_of(init, i + 1) == offset_of(init, i) + entry_len(init[i]));
                let a = offset_of(es, i);
                assert(offset_of(init, i + 1) <= stream_of(init).len());
                assert(stream_of(es).subrange(a, a + entry_len(es[i])) =~= stream_of(
                    init,
                ).subrange(a, a + entry_len(es[i])));
            } else {
                assert(es.subrange(0, i) =~= init);
                assert(es.subrange(0, i + 1) =~= es);
                assert(entry_bytes(es[i]).len() == entry_len(es[i]));
                let a = offset_of(es, i);
                assert(stream_of(es).subrange(a, a + entry_len(es[i])) =~= entry_bytes(es[i]));
            }
        }
        assert forall|i: int| 0 <= i < es.len() implies #[trigger] stream_of(es).subrange(
            offset_of(es, i),
            offset_of(es, i) + entry_len(es[i]),
        ) == entry_bytes(es[i]) by {
            assert(offset_of(es, i + 1) == offset_of(es, i) + entry_len(es[i]));
        }
    }
}

/// `(key, value)` fits in table `t`: both sizes fit in 32 bits, the entry
/// ends within its section's addressable bytes, its chunk index fits in
/// 32 bits, and the registries have indices left for its chunk and pages.
pub open spec fn insert_fits(t: BookHashTable, key: Seq<u8>, value: Seq<u8>) -> bool {
    let s = t.section_of(key);
    let end = t.end_of(s) as int;
    let len = 8 + key.len() + value.len();
    let ik = IndexKey { section_index: s, index_chunk: (end / t.chunk_size() as int) as u32 };
    &&& key.len() <= u32::MAX
    &&& value.len() <= u32::MAX
    &&& end + len <= PAGE_INDEX_COUNT * t.book_spec().page_size_spec()
    &&& end / t.chunk_size() as int <= u32::MAX
    &&& (t.index_registry_spec().lookup(ik) is Some || t.index_registry_spec().entries().len()
        < PAGE_INDEX_COUNT)
    &&& t.book_spec().registry_spec().keys().len() + len <= PAGE_INDEX_COUNT
}

/// The journal entry that a bloom update to chunk `ik` leaves: none when
/// the header was already `h`, else the slot's new header.
pub open spec fn index_change(
    before: ManagedIndexRegistry,
    after: ManagedIndexRegistry,
    ik: IndexKey,
    h: IndexHeader,
) -> Seq<IndexEvent> {
    if before.lookup(ik) == Some(h) {
        Seq::empty()
    } else {
        seq![IndexEvent::Updated(after.slot(ik).unwrap(), ik, h)]
    }
}

/// Entries start in order: a later entry starts further on.
pub proof fn lemma_offsets_ordered(es: Seq<EntryView>, i: int, j: int)
    requires
        0 <= i <= j <= es.len(),
    ensures
        offset_of(es, i) <= offset_of(es, j),
        i < j ==> offset_of(es, i) < offset_of(es, j),
    decreases j - i,
{
    lemma_stream_layout(es);
    if i < j {
        lemma_offsets_ordered(es, i, j - 1);
        let k = j - 1;
        assert(offset_of(es, k + 1) == offset_of(es, k) + entry_len(es[k]));
    }
}

/// Appending an entry keeps the offsets of the entries before it.
pub proof fn lemma_offsets_push(es: Seq<EntryView>, e: EntryView)
    ensures
        forall|i: int| 0 <= i <= es.len() ==> #[trigger] offset_of(es.push(e), i) == offset_of(es, i),
        stream_of(es.push(e)) == stream_of(es) + entry_bytes(e),
{
    assert(es.push(e).drop_last() =~= es);
    assert forall|i: int| 0 <= i <= es.len() implies #[trigger] offset_of(es.push(e), i)
        == offset_of(es, i) by {
        assert(es.push(e).subrange(0, i) =~= es.subrange(0, i));
    }
}

/// A filter by key grows by one step at a time.
pub proof fn lemma_matching_step(es: Seq<EntryView>, k: Seq<u8>, j: int)
    requires
        0 <= j < es.len(),
    ensures
        matching(es.subrange(0, j + 1), k) == if es[j].0 == k {
            matching(es.subrange(0, j), k).push(es[j])
        } else {
            matching(es.subrange(0, j), k)
        },
{
    assert(es.subrange(0, j + 1).drop_last() =~= es.subrange(0, j));
}

/// A key that no entry has matches nothing.
pub proof fn lemma_matching_none(es: Seq<EntryView>, k: Seq<u8>)
    requires
        forall|i: int| 0 <= i < es.len() ==> (#[trigger] es[i]).0 != k,
    ensures
        matching(es, k) == Seq::<EntryView>::empty(),
    decreases es.len(),
{
    if es.len() > 0 {
        lemma_matching_none(es.drop_last(), k);
    }
}

/// The filter of one more entry of the same key ends with that entry.
pub proof fn lemma_matching_push(es: Seq<EntryView>, e: EntryView)
    ensures
        matching(es.push(e), e.0) == matching(es, e.0).push(e),
{
    assert(es.push(e).drop_last() =~= es);
}

/// Bloom bits are single bits, so a filter without a key's bit holds no
/// key with the same bit, and adding a bit keeps the others.
proof fn lemma_bloom_bits(b: u64, e: u64, q: u64, x: u64)
    requires
        x < 64,
        q == 1u64 << x,
    ensures
        q != 0,
        q & q == q,
        (b | q) & q == q,
        b & e == e ==> (b | q) & e == e,
        b & q == 0 && b & e == e ==> e & q == 0,
{
    assert(q != 0 && q & q == q && (b | q) & q == q) by (bit_vector)
        requires
            x < 64,
            q == 1u64 << x,
    ;
    assert(b & e == e ==> (b | q) & e == e) by (bit_vector);
    assert(b & q == 0 && b & e == e ==> e & q == 0) by (bit_vector);
}

/// A change that leaves the entries, the section ends and the chunk headers
/// as they were, and changes stored bytes only past the recorded end of
/// their section, keeps the invariant.
proof fn lemma_frame_keeps_inv(a: BookHashTable, b: BookHashTable)
    requires
        a.wf(),
        b.wf(),
        a.contents@ == b.contents@,
        a.section_count == b.section_count,
        a.index_chunk_size == b.index_chunk_size,
        a.section_registry.headers() == b.section_registry.headers(),
        forall|k: IndexKey| #[trigger] a.index_registry.lookup(k) == b.index_registry.lookup(k),
        a.book.page_size_spec() == b.book.page_size_spec(),
        forall|s: SectionIndex, o: int|
            0 <= o < a.section_registry.headers()[s as int].end_offset ==> #[trigger] b.book.byte(
                s,
                o,
            ) == a.book.byte(s, o),
    ensures
        a.inv() ==> b.inv(),
{
    if a.inv() {
        assert forall|s: int| 0 <= s < b.section_count implies #[trigger] b.section_holds(
            s as SectionIndex,
        ) by {
            assert(a.section_holds(s as SectionIndex));
            let es = a.contents@[s];
            assert forall|i: int| 0 <= i < es.len() implies #[trigger] b.entry_indexed(
                s as SectionIndex,
                es,
                offset_of(es, i),
                es[i],
            ) by {
                assert(a.entry_indexed(s as SectionIndex, es, offset_of(es, i), es[i]));
                let c = offset_of(es, i) / a.index_chunk_size as int;
                let k = IndexKey { section_index: s as SectionIndex, index_chunk: c as u32 };
                assert(a.index_registry.lookup(k) == b.index_registry.lookup(k));
            }
            assert forall|c: IndexChunk| #[trigger]
                b.index_registry.lookup(
                    IndexKey { section_index: s as SectionIndex, index_chunk: c },
                ) is Some implies b.chunk_first(
                es,
                c,
                b.index_registry.lookup(
                    IndexKey { section_index: s as SectionIndex, index_chunk: c },
                ).unwrap().first_entry_offset,
            ) by {
                let k = IndexKey { section_index: s as SectionIndex, index_chunk: c };
                assert(a.index_registry.lookup(k) == b.index_registry.lookup(k));
                let f = a.index_registry.lookup(k).unwrap().first_entry_offset;
                assert(a.chunk_first(es, c, f));
            }
        }
    }
}

/// Appending an entry at the end of its section, moving the section's end
/// past it and adding its bloom bit to its chunk keeps the invariant.
proof fn lemma_insert_keeps_inv(
    a: BookHashTable,
    b: BookHashTable,
    s: SectionIndex,
    e: EntryView,
    ik: IndexKey,
)
    requires
        a.inv(),
        b.wf(),
        s < a.section_count,
        e.0.len() <= u32::MAX,
        e.1.len() <= u32::MAX,
        a.section_count == b.section_count,
        a.index_chunk_size == b.index_chunk_size,
        a.book.page_size_spec() == b.book.page_size_spec(),
        b.contents@ == a.contents@.update(s as int, a.contents@[s as int].push(e)),
        ik.section_index == s,
        ({
            let end = a.section_registry.headers()[s as int].end_offset as int;
            &&& ik.index_chunk as int == end / a.index_chunk_size as int
            &&& end + entry_len(e) <= PAGE_INDEX_COUNT * a.book.page_size_spec()
            &&& end + entry_len(e) <= u64::MAX
            &&& b.section_registry.headers() == a.section_registry.headers().update(
                s as int,
                SectionHeader { end_offset: (end + entry_len(e)) as u64 },
            )
            &&& forall|t: SectionIndex, o: int| #[trigger]
                b.book.byte(t, o) == if t == s && end <= o < end + entry_len(e) {
                    entry_bytes(e)[o - end]
                } else {
                    a.book.byte(t, o)
                }
        }),
        forall|k: IndexKey| #[trigger]
            b.index_registry.lookup(k) == if k == ik {
                Some(
                    bloom_updated(
                        a.index_registry.lookup(ik),
                        a.section_registry.headers()[s as int].end_offset,
                        bloom_bit(key_hash(e.0), a.section_count),
                    ),
                )
            } else {
                a.index_registry.lookup(k)
            },
    ensures
        b.inv(),
{
    lemma_le_round_trip();
    let n = a.section_count;
    let ics = a.index_chunk_size as int;
    let q = bloom_bit(key_hash(e.0), n);
    let x = (key_hash(e.0) / n) as u64 % 64;
    assert forall|t: int| 0 <= t < n implies #[trigger] b.section_holds(t as SectionIndex) by {
        assert(a.section_holds(t as SectionIndex));
        let t32 = t as SectionIndex;
        let es = a.contents@[t];
        if t32 != s {
            assert(b.contents@[t] == es);
            assert(b.section_registry.headers()[t] == a.section_registry.headers()[t]);
            assert forall|o: int|
                0 <= o < a.section_registry.headers()[t].end_offset implies #[trigger] b.book.byte(
                t32,
                o,
            ) == stream_of(es)[o] by {
                assert(a.book.byte(t32, o) == stream_of(es)[o]);
            }
            assert forall|i: int| 0 <= i < es.len() implies #[trigger] b.entry_indexed(
                t32,
                es,
                offset_of(es, i),
                es[i],
            ) by {
                assert(a.entry_indexed(t32, es, offset_of(es, i), es[i]));
            }
            assert forall|c: IndexChunk| #[trigger]
                b.index_registry.lookup(IndexKey { section_index: t32, index_chunk: c }) is Some
                    implies b.chunk_first(
                es,
                c,
                b.index_registry.lookup(
                    IndexKey { section_index: t32, index_chunk: c },
                ).unwrap().first_entry_offset,
            ) by {
                let f = a.index_registry.lookup(
                    IndexKey { section_index: t32, index_chunk: c },
                ).unwrap().first_entry_offset;
                assert(a.chunk_first(es, c, f));
            }
        } else {
            let es2 = es.push(e);
            let end = a.section_registry.headers()[t].end_offset as int;
            lemma_offsets_push(es, e);
            lemma_stream_layout(es);
            lemma_stream_layout(es2);
            assert(b.contents@[t] == es2);
            assert(stream_of(es2).len() == end + entry_len(e));
            assert(b.section_registry.headers()[t].end_offset == stream_of(es2).len());
            assert forall|o: int|
                0 <= o < end + entry_len(e) implies #[trigger] b.book.byte(t32, o) == stream_of(
                es2,
            )[o] by {
                if o >= end {
                    assert(stream_of(es2)[o] == entry_bytes(e)[o - end]);
                }
            }
            assert forall|i: int| 0 <= i < es2.len() implies (#[trigger] es2[i]).0.len()
                <= u32::MAX && es2[i].1.len() <= u32::MAX by {
                if i < es.len() {
                    assert(es2[i] == es[i]);
                }
            }
            let old_h = a.index_registry.lookup(ik);
            assert forall|i: int| 0 <= i < es2.len() implies #[trigger] b.entry_indexed(
                t32,
                es2,
                offset_of(es2, i),
                es2[i],
            ) by {
                if i < es.len() {
                    assert(es2[i] == es[i]);
                    assert(offset_of(es2, i) == offset_of(es, i));
                    assert(a.entry_indexed(t32, es, offset_of(es, i), es[i]));
                    let c = offset_of(es, i) / ics;
                    let k = IndexKey { section_index: t32, index_chunk: c as u32 };
                    if k == ik {
                        let h = old_h.unwrap();
                        let qi = bloom_bit(key_hash(es[i].0), n);
                        lemma_bloom_bits(h.bloom_filter, qi, q, x);
                    }
                } else {
                    assert(es2[i] == e);
                    assert(offset_of(es2, i) == end);
                    match old_h {
                        Some(h) => {
                            lemma_bloom_bits(h.bloom_filter, q, q, x);
                            assert(a.chunk_first(es, ik.index_chunk, h.first_entry_offset));
                            let j = choose|j: int|
                                0 <= j < es.len() && offset_of(es, j) == h.first_entry_offset;
                            lemma_offsets_ordered(es, j, es.len() as int);
                        },
                        None => {
                            lemma_bloom_bits(0, q, q, x);
                        },
                    }
                }
            }
            assert forall|c: IndexChunk| #[trigger]
                b.index_registry.lookup(IndexKey { section_index: t32, index_chunk: c }) is Some
                    implies b.chunk_first(
                es2,
                c,
                b.index_registry.lookup(
                    IndexKey { section_index: t32, index_chunk: c },
                ).unwrap().first_entry_offset,
            ) by {
                let k = IndexKey { section_index: t32, index_chunk: c };
                if k == ik && old_h is None {
                    assert(offset_of(es2, es.len() as int) == end);
                } else {
                    let f = a.index_registry.lookup(k).unwrap().first_entry_offset;
                    assert(a.chunk_first(es, c, f));
                    let j = choose|j: int| 0 <= j < es.len() && offset_of(es, j) == f;
                    assert(offset_of(es2, j) == f);
                }
            }
        }
    }
}

/// A table that holds its contents holds each section's.
proof fn lemma_holds(t: BookHashTable, s: SectionIndex)
    requires
        t.inv(),
        s < t.section_count,
    ensures
        t.section_holds(s),
{
    assert(t.section_holds((s as int) as SectionIndex));
}

/// A position that is an entry's offset is the section's end exactly
/// when no entry is left.
proof fn lemma_at_end(es: Seq<EntryView>, idx: int)
    requires
        0 <= idx <= es.len(),
    ensures
        offset_of(es, idx) == stream_of(es).len() <==> idx == es.len(),
        offset_of(es, idx) <= stream_of(es).len(),
{
    lemma_stream_layout(es);
    lemma_offsets_ordered(es, idx, es.len() as int);
}

/// An entry before another starts before it, so an entry that starts at or
/// after another's offset does not come before it.
proof fn lemma_not_before(es: Seq<EntryView>, i: int, j: int)
    requires
        0 <= i <= es.len(),
        0 <= j <= es.len(),
        offset_of(es, i) >= offset_of(es, j),
    ensures
        i >= j,
{
    if i < j {
        lemma_offsets_ordered(es, i, j);
    }
}

/// Where the scanner of section `s`, at entry `idx`, jumps when the header
/// of its chunk lacks the query `q`: to the first entry of the next
/// recorded chunk, or past the last entry. It passes over only entries that
/// `q` rules out.
/// The first entry of a later chunk starts after any position in an
/// earlier one.
proof fn lemma_skip_moves(t: BookHashTable, s: SectionIndex, key: IndexKey, h2: IndexHeader, target: int, position: int)
    requires
        t.inv(),
        s < t.section_count,
        key.section_index == s,
        target == h2.first_entry_offset,
        position >= 0,
        position / (t.index_chunk_size as int) == key.index_chunk as int,
        exists|c2: IndexChunk|
            c2 > key.index_chunk && t.index_registry.lookup(
                IndexKey { section_index: s, index_chunk: c2 },
            ) == Some(h2),
    ensures
        target > position,
{
    lemma_holds(t, s);
    let c2 = choose|c2: IndexChunk|
        c2 > key.index_chunk && t.index_registry.lookup(IndexKey { section_index: s, index_chunk: c2 })
            == Some(h2);
    assert(t.chunk_first(t.contents@[s as int], c2, h2.first_entry_offset));
    if target <= position {
        lemma_div_is_ordered(target, position, t.index_chunk_size as int);
    }
}

proof fn lemma_skip(
    t: BookHashTable,
    s: SectionIndex,
    idx: int,
    key: IndexKey,
    header: IndexHeader,
    q: u64,
    next: Option<IndexHeader>,
) -> (j2: int)
    requires
        t.inv(),
        s < t.section_count,
        0 <= idx <= t.contents@[s as int].len(),
        key.section_index == s,
        key.index_chunk as int == offset_of(t.contents@[s as int], idx) / t.index_chunk_size as int,
        t.index_registry.lookup(key) == Some(header),
        header.bloom_filter & q == 0,
        match next {
            Some(h) => exists|c: IndexChunk|
                c > key.index_chunk && t.index_registry.lookup(
                    IndexKey { section_index: s, index_chunk: c },
                ) == Some(h) && forall|d: IndexChunk|
                    key.index_chunk < d < c ==> #[trigger] t.index_registry.lookup(
                        IndexKey { section_index: s, index_chunk: d },
                    ) is None,
            None => forall|d: IndexChunk|
                d > key.index_chunk ==> #[trigger] t.index_registry.lookup(
                    IndexKey { section_index: s, index_chunk: d },
                ) is None,
        },
    ensures
        idx <= j2 <= t.contents@[s as int].len(),
        offset_of(t.contents@[s as int], j2) == match next {
            Some(h) => h.first_entry_offset as int,
            None => t.section_registry.headers()[s as int].end_offset as int,
        },
        forall|i: int|
            idx <= i < j2 ==> ruled_out(#[trigger] t.contents@[s as int][i], Some(q), t.section_count),
{
    let es = t.contents@[s as int];
    let ics = t.index_chunk_size as int;
    let n = t.section_count;
    let c = key.index_chunk;
    lemma_holds(t, s);
    lemma_stream_layout(es);
    let j2 = match next {
        Some(h2) => {
            let c2 = choose|c2: IndexChunk|
                c2 > c && t.index_registry.lookup(IndexKey { section_index: s, index_chunk: c2 })
                    == Some(h2) && forall|d: IndexChunk|
                    c < d < c2 ==> #[trigger] t.index_registry.lookup(
                        IndexKey { section_index: s, index_chunk: d },
                    ) is None;
            assert(t.chunk_first(es, c2, h2.first_entry_offset));
            let j = choose|j: int| 0 <= j < es.len() && offset_of(es, j) == h2.first_entry_offset;
            j
        },
        None => es.len() as int,
    };
    // Every entry from `idx` on either lies in chunk `c` or starts at or
    // after the jump target.
    assert forall|i: int| idx <= i < es.len() implies (#[trigger] offset_of(es, i)) / ics == c as int
        || offset_of(es, i) >= offset_of(es, j2) by {
        lemma_offsets_ordered(es, idx, i);
        lemma_div_is_ordered(offset_of(es, idx), offset_of(es, i), ics);
        let ci = offset_of(es, i) / ics;
        assert(t.entry_indexed(s, es, offset_of(es, i), es[i]));
        if ci != c as int {
            let ki = IndexKey { section_index: s, index_chunk: ci as u32 };
            match next {
                Some(h2) => {
                    let c2 = choose|c2: IndexChunk|
                        c2 > c && t.index_registry.lookup(
                            IndexKey { section_index: s, index_chunk: c2 },
                        ) == Some(h2) && forall|d: IndexChunk|
                            c < d < c2 ==> #[trigger] t.index_registry.lookup(
                                IndexKey { section_index: s, index_chunk: d },
                            ) is None;
                    assert(t.chunk_first(es, c2, h2.first_entry_offset));
                    assert(ci >= c2);
                    if ci == c2 {
                        assert(ki == IndexKey { section_index: s, index_chunk: c2 });
                    } else if offset_of(es, i) < h2.first_entry_offset {
                        lemma_div_is_ordered(offset_of(es, i), h2.first_entry_offset as int, ics);
                    }
                },
                None => {
                    assert(t.index_registry.lookup(ki) is None);
                },
            }
        }
    }
    assert forall|i: int| idx <= i < j2 implies ruled_out(
        #[trigger] es[i],
        Some(q),
        n,
    ) by {
        if offset_of(es, i) >= offset_of(es, j2) {
            lemma_not_before(es, i, j2);
        }
        assert(offset_of(es, i) / ics == c as int);
        assert(t.entry_indexed(s, es, offset_of(es, i), es[i]));
        let bi = bloom_bit(key_hash(es[i].0), n);
        lemma_bloom_excludes(header.bloom_filter, bi, q);
    }
    if j2 < idx {
        lemma_offsets_ordered(es, j2, idx);
        if idx < es.len() {
            assert(offset_of(es, idx) / ics == c as int || offset_of(es, idx) >= offset_of(es, j2));
        }
        match next {
            Some(h2) => {
                let c2 = choose|c2: IndexChunk|
                    c2 > c && t.index_registry.lookup(
                        IndexKey { section_index: s, index_chunk: c2 },
                    ) == Some(h2) && forall|d: IndexChunk|
                        c < d < c2 ==> #[trigger] t.index_registry.lookup(
                            IndexKey { section_index: s, index_chunk: d },
                        ) is None;
                assert(t.chunk_first(es, c2, h2.first_entry_offset));
                lemma_div_is_ordered(offset_of(es, j2), offset_of(es, idx), ics);
            },
            None => {},
        }
    }
    j2
}

/// The eight bytes at the start of entry `idx` give its key and value
/// sizes.
proof fn lemma_entry_head(t: BookHashTable, s: SectionIndex, idx: int, head: Seq<u8>)
    requires
        t.inv(),
        s < t.section_count,
        0 <= idx < t.contents@[s as int].len(),
        head.len() == 8,
        forall|i: int|
            0 <= i < 8 ==> #[trigger] head[i] == t.book.byte(
                s,
                offset_of(t.contents@[s as int], idx) + i,
            ),
    ensures
        get32(head, 0) == t.contents@[s as int][idx].0.len(),
        get32(head, 4) == t.contents@[s as int][idx].1.len(),
        offset_of(t.contents@[s as int], idx) + entry_len(t.contents@[s as int][idx])
            <= t.section_registry.headers()[s as int].end_offset,
{
    let es = t.contents@[s as int];
    let e = es[idx];
    let p = offset_of(es, idx);
    lemma_holds(t, s);
    lemma_stream_layout(es);
    lemma_le_round_trip();
    lemma_offsets_ordered(es, idx + 1, es.len() as int);
    let eb = entry_bytes(e);
    assert(stream_of(es).subrange(p, p + entry_len(e)) == eb);
    assert forall|i: int| 0 <= i < 8 implies #[trigger] head[i] == eb[i] by {
        assert(stream_of(es)[p + i] == eb[i]);
    }
    assert(head.subrange(0, 4) =~= le32(e.0.len() as u32));
    assert(head.subrange(4, 8) =~= le32(e.1.len() as u32));
}

/// The bytes of entry `idx` past its sizes are its key and its value.
proof fn lemma_entry_view(t: BookHashTable, s: SectionIndex, idx: int)
    requires
        t.inv(),
        s < t.section_count,
        0 <= idx < t.contents@[s as int].len(),
    ensures
        forall|i: int|
            0 <= i < t.contents@[s as int][idx].0.len() ==> #[trigger] t.book.byte(
                s,
                offset_of(t.contents@[s as int], idx) + 8 + i,
            ) == t.contents@[s as int][idx].0[i],
        forall|i: int|
            0 <= i < t.contents@[s as int][idx].1.len() ==> #[trigger] t.book.byte(
                s,
                offset_of(t.contents@[s as int], idx) + 8 + t.contents@[s as int][idx].0.len() + i,
            ) == t.contents@[s as int][idx].1[i],
{
    let es = t.contents@[s as int];
    let e = es[idx];
    let p = offset_of(es, idx);
    lemma_holds(t, s);
    lemma_stream_layout(es);
    lemma_le_round_trip();
    lemma_offsets_ordered(es, idx + 1, es.len() as int);
    let eb = entry_bytes(e);
    assert(stream_of(es).subrange(p, p + entry_len(e)) == eb);
    assert forall|i: int| 0 <= i < e.0.len() implies #[trigger] t.book.byte(s, p + 8 + i) == e.0[i] by {
        assert(stream_of(es)[p + 8 + i] == eb[8 + i]);
    }
    assert forall|i: int| 0 <= i < e.1.len() implies #[trigger] t.book.byte(
        s,
        p + 8 + e.0.len() + i,
    ) == e.1[i] by {
        assert(stream_of(es)[p + 8 + e.0.len() + i] == eb[8 + e.0.len() + i]);
    }
}

/// A filter without the query's bits holds no key bit that overlaps them.
proof fn lemma_bloom_excludes(b: u64, e: u64, q: u64)
    ensures
        b & q == 0 && b & e == e ==> e & q == 0,
{
    assert(b & q == 0 && b & e == e ==> e & q == 0) by (bit_vector);
}

/// Builds a hash from the first bytes fed to it.
pub struct PrefixHasher {
    buffer: Vec<u8>,
}

impl PrefixHasher {
    /// The first four bytes fed so far.
    pub closed spec fn fed(&self) -> Seq<u8> {
        self.buffer@
    }

    /// A hasher that was fed nothing.
    pub fn new() -> (r: Self)
        ensures
            r.fed() == Seq::<u8>::empty(),
    {
        PrefixHasher { buffer: Vec::new() }
    }

    /// Feeds `data` after what was fed before.
    pub fn update(&mut self, data: &[u8])
        requires
            old(self).fed().len() <= 4,
        ensures
            final(self).fed() == (old(self).fed() + data@).subrange(
                0,
                if old(self).fed().len() + data@.len() < 4 {
                    (old(self).fed().len() + data@.len()) as int
                } else {
                    4
                },
            ),
    {
        let ghost start = self.buffer@;
        let mut i: usize = 0;
        while self.buffer.len() < 4 && i < data.len()
            invariant
                start.len() <= 4,
                i <= data@.len(),
                self.buffer@.len() <= 4,
                self.buffer@ == (start + data@).subrange(0, start.len() + i),
            decreases data@.len() - i,
        {
            self.buffer.push(data[i]);
            i = i + 1;
            assert(self.buffer@ =~= (start + data@).subrange(0, start.len() + i));
        }
    }

    /// The hash of everything fed: its first four bytes, zero-padded.
    pub fn finalize(self) -> (r: Hash)
        requires
            self.fed().len() <= 4,
        ensures
            r == key_hash(self.fed()),
    {
        let mut bytes: Vec<u8> = Vec::new();
        let mut i: usize = 0;
        while i < 4
            invariant
                i <= 4,
                self.buffer@.len() <= 4,
                bytes@ == padded(self.buffer@, 4).subrange(0, i as int),
            decreases 4 - i,
        {
            if i < self.buffer.len() {
                bytes.push(self.buffer[i]);
            } else {
                bytes.push(0u8);
            }
            i = i + 1;
            assert(bytes@ =~= padded(self.buffer@, 4).subrange(0, i as int));
        }
        assert(bytes@ =~= padded(self.buffer@, 4));
        u32_from_le_bytes(bytes.as_slice())
    }
}

/// Makes hashers.
pub struct PrefixHasherBuilder;

impl PrefixHasherBuilder {
    /// A hasher that was fed nothing.
    pub fn build(&self) -> (r: PrefixHasher)
        ensures
            r.fed() == Seq::<u8>::empty(),
    {
        PrefixHasher::new()
    }
}

/// The hash of `key`.
pub fn hash_key(key: &[u8]) -> (r: Hash)
    ensures
        r == key_hash(key@),
{
    let mut hasher = PrefixHasherBuilder.build();
    hasher.update(key);
    proof {
        assert(padded(hasher.fed(), 4) =~= padded(key@, 4));
    }
    hasher.finalize()
}

/// The section and the bloom bit of a key with hash `hash`.
pub fn fingerprint(hash: Hash, section_count: u32) -> (r: (SectionIndex, u64))
    requires
        section_count > 0,
    ensures
        r.0 == section_for(hash, section_count),
        r.1 == bloom_bit(hash, section_count),
        r.0 < section_count,
{
    let section_index = hash % section_count;
    let bloom_index = (hash / section_count) as u64 % 64;
    (section_index, 1u64 << bloom_index)
}

/// Appends the bytes of an entry.
pub fn encode_entry(out: &mut Vec<u8>, key: &[u8], value: &[u8])
    requires
        key@.len() <= u32::MAX,
        value@.len() <= u32::MAX,
    ensures
        final(out)@ == old(out)@ + entry_bytes((key@, value@)),
{
    put_u32(out, key.len() as u32);
    put_u32(out, value.len() as u32);
    let ghost head = out@;
    let mut i: usize = 0;
    while i < key.len()
        invariant
            i <= key@.len(),
            out@ == head + key@.subrange(0, i as int),
        decreases key@.len() - i,
    {
        out.push(key[i]);
        i = i + 1;
        assert(out@ =~= head + key@.subrange(0, i as int));
    }
    let ghost mid = out@;
    let mut j: usize = 0;
    while j < value.len()
        invariant
            j <= value@.len(),
            out@ == mid + value@.subrange(0, j as int),
        decreases value@.len() - j,
    {
        out.push(value[j]);
        j = j + 1;
        assert(out@ =~= mid + value@.subrange(0, j as int));
    }
    assert(key@.subrange(0, key@.len() as int) =~= key@);
    assert(value@.subrange(0, value@.len() as int) =~= value@);
    assert(out@ =~= old(out)@ + entry_bytes((key@, value@)));
}

/// What a scan yields.
#[derive(Debug)]
pub enum HashTableScanFilter {
    /// The entries whose key is this one.
    Key(Vec<u8>),
    /// Every entry.
    All,
}

/// A hash table over the sections of a book. A key's hash picks its
/// section; each entry is appended to its section, whose end the section
/// registry records; for each chunk of a section that entries start in,
/// the index registry records a bloom filter of their keys and where the
/// first of them starts.
pub struct BookHashTable {
    hasher_builder: PrefixHasherBuilder,
    book: PagerBook,
    section_count: SectionIndex,
    section_registry: ManagedSectionRegistry,
    index_chunk_size: IndexChunkSize,
    index_registry: ManagedIndexRegistry,
    contents: Ghost<Seq<Seq<EntryView>>>,
}

impl BookHashTable {
    /// The parts fit together.
    pub closed spec fn wf(&self) -> bool {
        &&& self.section_count > 0
        &&& self.index_chunk_size > 0
        &&& self.book.wf()
        &&& self.index_registry.wf()
        &&& self.section_registry.headers().len() == self.section_count
        &&& self.contents@.len() == self.section_count
    }

    /// The same table holding the entries `cs` instead.
    pub closed spec fn with_contents(&self, cs: Seq<Seq<EntryView>>) -> BookHashTable {
        BookHashTable {
            hasher_builder: self.hasher_builder,
            book: self.book,
            section_count: self.section_count,
            section_registry: self.section_registry,
            index_chunk_size: self.index_chunk_size,
            index_registry: self.index_registry,
            contents: Ghost(cs),
        }
    }

    /// The stored bytes and registries hold exactly the entries `cs`.
    pub open spec fn holds(&self, cs: Seq<Seq<EntryView>>) -> bool {
        self.with_contents(cs).inv()
    }

    /// A whole table has sections, one list of entries for each.
    pub proof fn lemma_wf_shape(&self)
        requires
            self.wf(),
        ensures
            self.sections() > 0,
            self.chunk_size() > 0,
            self.contents().len() == self.sections(),
            self.section_registry_spec().headers().len() == self.sections(),
            self.book_spec().wf(),
            self.index_registry_spec().wf(),
    {
    }

    /// Tables of the same shape whose stored bytes, section ends and chunk
    /// headers agree hold the same entries: if one holds `cs`, so does the
    /// other.
    pub proof fn lemma_same_views_hold(&self, other: &Self, cs: Seq<Seq<EntryView>>)
        requires
            self.holds(cs),
            other.wf(),
            self.sections() == other.sections(),
            self.chunk_size() == other.chunk_size(),
            self.book_spec().page_size_spec() == other.book_spec().page_size_spec(),
            self.section_registry_spec().headers() == other.section_registry_spec().headers(),
            forall|k: IndexKey| #[trigger] self.index_registry_spec().lookup(k) == other.index_registry_spec().lookup(k),
            forall|s: SectionIndex, o: int| #[trigger] self.book_spec().byte(s, o) == other.book_spec().byte(s, o),
        ensures
            other.holds(cs),
    {
        let a = self.with_contents(cs);
        let b = other.with_contents(cs);
        assert(a.wf());
        assert(b.wf()) by {
            assert(a.contents@.len() == a.section_count);
        }
        assert forall|k: IndexKey| #[trigger] a.index_registry.lookup(k) == b.index_registry.lookup(k) by {
            assert(self.index_registry_spec().lookup(k) == other.index_registry_spec().lookup(k));
        }
        assert forall|s: SectionIndex, o: int| #[trigger] b.book.byte(s, o) == a.book.byte(s, o) by {
            assert(self.book_spec().byte(s, o) == other.book_spec().byte(s, o));
        }
        lemma_frame_keeps_inv(a, b);
    }

    /// A table that holds its contents holds them.
    pub proof fn lemma_holds_own(&self)
        requires
            self.inv(),
        ensures
            self.holds(self.contents()),
    {
        assert(self.with_contents(self.contents()) == *self);
    }

    /// A table holds at most one list of entries per section.
    pub proof fn lemma_holds_unique(&self, a: Seq<Seq<EntryView>>, b: Seq<Seq<EntryView>>)
        requires
            self.holds(a),
            self.holds(b),
        ensures
            a == b,
    {
        let ta = self.with_contents(a);
        let tb = self.with_contents(b);
        lemma_same_bytes_same_entries(ta, tb);
        assert(ta.contents() == a && tb.contents() == b);
    }

    /// The entries of each section, in the order they were inserted.
    pub closed spec fn contents(&self) -> Seq<Seq<EntryView>> {
        self.contents@
    }

    pub closed spec fn sections(&self) -> u32 {
        self.section_count
    }

    pub closed spec fn chunk_size(&self) -> u32 {
        self.index_chunk_size
    }

    pub closed spec fn book_spec(&self) -> PagerBook {
        self.book
    }

    pub closed spec fn section_registry_spec(&self) -> ManagedSectionRegistry {
        self.section_registry
    }

    pub closed spec fn index_registry_spec(&self) -> ManagedIndexRegistry {
        self.index_registry
    }

    /// The stored bytes and the registries hold exactly `contents()`:
    /// each section's bytes up to its recorded end are its entries one
    /// after the other, and every entry is recorded in its chunk's header.
    pub closed spec fn inv(&self) -> bool {
        &&& self.wf()
        &&& forall|s: int|
            0 <= s < self.section_count ==> #[trigger] self.section_holds(s as SectionIndex)
    }

    /// Section `s` holds `contents()[s]`.
    pub closed spec fn section_holds(&self, s: SectionIndex) -> bool {
        let es = self.contents@[s as int];
        let end = self.section_registry.headers()[s as int].end_offset;
        let ics = self.index_chunk_size as int;
        &&& end == stream_of(es).len()
        &&& end <= PAGE_INDEX_COUNT * self.book.page_size_spec()
        &&& forall|o: int| 0 <= o < end ==> #[trigger] self.book.byte(s, o) == stream_of(es)[o]
        &&& forall|i: int|
            0 <= i < es.len() ==> (#[trigger] es[i]).0.len() <= u32::MAX && es[i].1.len()
                <= u32::MAX
        &&& forall|i: int|
            0 <= i < es.len() ==> #[trigger] self.entry_indexed(s, es, offset_of(es, i), es[i])
        &&& forall|c: IndexChunk| #[trigger]
            self.index_registry.lookup(IndexKey { section_index: s, index_chunk: c }) is Some
                ==> self.chunk_first(es, c, self.index_registry.lookup(
                IndexKey { section_index: s, index_chunk: c },
            ).unwrap().first_entry_offset)
    }

    /// The entry `e` starting at `off` of section `s` is recorded in the
    /// header of its chunk.
    pub closed spec fn entry_indexed(
        &self,
        s: SectionIndex,
        es: Seq<EntryView>,
        off: int,
        e: EntryView,
    ) -> bool {
        let ics = self.index_chunk_size as int;
        let c = off / ics;
        &&& c <= u32::MAX
        &&& self.index_registry.lookup(IndexKey { section_index: s, index_chunk: c as u32 })
            matches Some(h) && {
            &&& h.bloom_filter & bloom_bit(key_hash(e.0), self.section_count) == bloom_bit(
                key_hash(e.0),
                self.section_count,
            )
            &&& h.first_entry_offset <= off
        }
    }

    /// `first` is where the first entry of chunk `c` starts.
    pub closed spec fn chunk_first(&self, es: Seq<EntryView>, c: IndexChunk, first: u64) -> bool {
        let ics = self.index_chunk_size as int;
        &&& exists|j: int| 0 <= j < es.len() && offset_of(es, j) == first
        &&& first as int / ics == c as int
    }

    /// A table over the given parts. Where the section registry records no
    /// entry and the index registry no chunk, the table holds no entries.
    pub fn new(
        hasher_builder: PrefixHasherBuilder,
        book: PagerBook,
        section_count: SectionIndex,
        section_registry: ManagedSectionRegistry,
        index_chunk_size: IndexChunkSize,
        index_registry: ManagedIndexRegistry,
    ) -> (r: Self)
        requires
            section_count > 0,
            index_chunk_size > 0,
            book.wf(),
            index_registry.wf(),
            section_registry.headers().len() == section_count,
        ensures
            r.wf(),
            r.sections() == section_count,
            r.chunk_size() == index_chunk_size,
            r.book_spec() == book,
            r.section_registry_spec() == section_registry,
            r.index_registry_spec() == index_registry,
            r.contents() == Seq::new(section_count as nat, |s: int| Seq::<EntryView>::empty()),
            (forall|s: int|
                0 <= s < section_count ==> #[trigger] section_registry.headers()[s].end_offset == 0)
                && index_registry.entries().len() == 0 ==> r.inv(),
    {
        let r = BookHashTable {
            hasher_builder,
            book,
            section_count,
            section_registry,
            index_chunk_size,
            index_registry,
            contents: Ghost(Seq::new(section_count as nat, |s: int| Seq::<EntryView>::empty())),
        };
        proof {
            if (forall|s: int|
                0 <= s < section_count ==> #[trigger] section_registry.headers()[s].end_offset == 0)
                && index_registry.entries().len() == 0 {
                r.index_registry.lemma_slots();
                assert forall|s: int| 0 <= s < section_count implies #[trigger] r.section_holds(
                    s as SectionIndex,
                ) by {
                    let es = r.contents@[s];
                    assert(stream_of(es).len() == 0);
                    assert forall|c: IndexChunk| #[trigger]
                        r.index_registry.lookup(
                            IndexKey { section_index: s as SectionIndex, index_chunk: c },
                        ) is None by {
                        let k = IndexKey { section_index: s as SectionIndex, index_chunk: c };
                        if r.index_registry.slot(k) is Some {
                            assert(r.index_registry.slot(k).unwrap() < 0);
                        }
                    }
                }
            }
        }
        r
    }

    /// The section that `key` goes to.
    pub open spec fn section_of(&self, key: Seq<u8>) -> u32 {
        section_for(key_hash(key), self.sections())
    }

    /// The recorded end of section `s`.
    pub open spec fn end_of(&self, s: SectionIndex) -> u64 {
        self.section_registry_spec().headers()[s as int].end_offset
    }

    /// Appends the entry `(key, value)` to the section of `key`, moves that
    /// section's end past it and records the key's bloom bit in the header
    /// of the chunk where the entry starts. Fails with `InvalidInput`, and
    /// holds the same entries, when the key or the value is longer than
    /// `u32::MAX` bytes, when the entry would reach past the last
    /// addressable page of its section or its chunk index would not fit in
    /// 32 bits, or when a registry has no index left for a new page or chunk.
    pub fn insert(&mut self, key: &[u8], value: &[u8]) -> (r: Result<(), ErrorKind>)
        requires
            old(self).wf(),
        ensures
            final(self).wf(),
            final(self).sections() == old(self).sections(),
            final(self).chunk_size() == old(self).chunk_size(),
            final(self).book_spec().page_size_spec() == old(self).book_spec().page_size_spec(),
            old(self).inv() ==> final(self).inv(),
            r is Ok ==> final(self).contents() == old(self).contents().update(
                old(self).section_of(key@) as int,
                old(self).contents()[old(self).section_of(key@) as int].push((key@, value@)),
            ),
            r is Err ==> r == Err::<(), ErrorKind>(ErrorKind::InvalidInput) && final(self).contents()
                == old(self).contents(),
            final(self).book_spec().registry_spec().journal() == old(self).book_spec().registry_spec().journal()
                + assignments(
                final(self).book_spec().registry_spec().keys(),
                old(self).book_spec().registry_spec().keys().len() as int,
            ),
            old(self).book_spec().registry_spec().keys().is_prefix_of(
                final(self).book_spec().registry_spec().keys(),
            ),
            final(self).book_spec().registry_spec().keys().len() <= old(self).book_spec().registry_spec().keys().len()
                + 8 + key@.len() + value@.len(),
            r is Err ==> final(self).section_registry_spec() == old(self).section_registry_spec()
                && final(self).index_registry_spec() == old(self).index_registry_spec(),
            r is Ok ==> ({
                let s = old(self).section_of(key@);
                let end = old(self).end_of(s) as int;
                let ik = IndexKey { section_index: s, index_chunk: (end / old(self).chunk_size() as int) as u32 };
                let h = bloom_updated(
                    old(self).index_registry_spec().lookup(ik),
                    end as u64,
                    bloom_bit(key_hash(key@), old(self).sections()),
                );
                let new_end = SectionHeader { end_offset: (end + 8 + key@.len() + value@.len()) as u64 };
                &&& final(self).section_registry_spec().headers() == old(self).section_registry_spec().headers().update(
                    s as int,
                    new_end,
                )
                &&& final(self).section_registry_spec().journal() == old(self).section_registry_spec().journal().push(
                    SectionEvent::Updated(s, new_end),
                )
                &&& forall|k: IndexKey| #[trigger]
                    final(self).index_registry_spec().lookup(k) == if k == ik {
                        Some(h)
                    } else {
                        old(self).index_registry_spec().lookup(k)
                    }
                &&& final(self).index_registry_spec().journal() == old(self).index_registry_spec().journal()
                    + index_change(old(self).index_registry_spec(), final(self).index_registry_spec(), ik, h)
                &&& forall|t: SectionIndex, o: int|
                    (t != s || o < end) ==> #[trigger] final(self).book_spec().byte(t, o) == old(
                        self,
                    ).book_spec().byte(t, o)
            }),
            insert_fits(*old(self), key@, value@) ==> r is Ok,
    {
        let hash = hash_key(key);
        let (s, bloom) = fingerprint(hash, self.section_count);
        if key.len() as u64 > u32::MAX as u64 || value.len() as u64 > u32::MAX as u64 {
            return Err(ErrorKind::InvalidInput);
        }
        let end = match self.section_registry.resolve_section(s) {
            Ok(h) => h.end_offset,
            Err(_) => return Err(ErrorKind::InvalidInput),
        };
        let ics = self.index_chunk_size as u64;
        let chunk = end / ics;
        if chunk > u32::MAX as u64 {
            return Err(ErrorKind::InvalidInput);
        }
        let index_key = IndexKey { section_index: s, index_chunk: chunk as u32 };
        if self.index_registry.try_resolve_index(&index_key).is_none()
            && self.index_registry.entry_count() as u64 >= PAGE_INDEX_COUNT {
            return Err(ErrorKind::InvalidInput);
        }
        let total: u64 = 8 + key.len() as u64 + value.len() as u64;
        let ps = self.book.page_size() as u64;
        let limit: u64 = PAGE_INDEX_COUNT * ps;
        if end > limit || limit - end < total {
            return Err(ErrorKind::InvalidInput);
        }
        let mut bytes: Vec<u8> = Vec::new();
        encode_entry(&mut bytes, key, value);
        proof {
            lemma_le_round_trip();
        }
        let ghost before = *self;
        let mut section = self.book.section(s);
        let _ = section.seek(SeekFrom::Start(end));
        match section.write_all(&mut self.book, bytes.as_slice()) {
            Ok(()) => {},
            Err(e) => {
                proof {
                    lemma_frame_keeps_inv(before, *self);
                }
                return Err(e);
            },
        }
        let ghost written = *self;
        let new_end = end + total;
        let _ = self.section_registry.update_section_end_offset(s, new_end);
        let _ = self.index_registry.update_index_bloom_filter(&index_key, end, bloom);
        let ghost e: EntryView = (key@, value@);
        proof {
            self.contents@ = before.contents@.update(
                s as int,
                before.contents@[s as int].push(e),
            );
            if before.inv() {
                lemma_insert_keeps_inv(before, *self, s, e, index_key);
            }
        }
        Ok(())
    }

    /// Hands out the journals of the three registries and starts empty
    /// ones; what the table holds does not change.
    pub fn take_journals(&mut self) -> (r: (Vec<PageEvent>, Vec<SectionEvent>, Vec<IndexEvent>))
        requires
            old(self).wf(),
        ensures
            final(self).wf(),
            final(self).contents() == old(self).contents(),
            final(self).sections() == old(self).sections(),
            final(self).chunk_size() == old(self).chunk_size(),
            final(self).book_spec().page_size_spec() == old(self).book_spec().page_size_spec(),
            old(self).inv() ==> final(self).inv(),
            r.0@ == old(self).book_spec().registry_spec().journal(),
            r.1@ == old(self).section_registry_spec().journal(),
            r.2@ == old(self).index_registry_spec().journal(),
            final(self).book_spec().registry_spec().journal() == Seq::<PageEvent>::empty(),
            final(self).section_registry_spec().journal() == Seq::<SectionEvent>::empty(),
            final(self).index_registry_spec().journal() == Seq::<IndexEvent>::empty(),
            final(self).book_spec().registry_spec().keys() == old(self).book_spec().registry_spec().keys(),
            final(self).section_registry_spec().headers() == old(self).section_registry_spec().headers(),
            final(self).index_registry_spec().entries() == old(self).index_registry_spec().entries(),
            forall|k: IndexKey| #[trigger] final(self).index_registry_spec().slot(k) == old(self).index_registry_spec().slot(k),
    {
        let ghost before = *self;
        let pages = self.book.take_journal();
        let sections = self.section_registry.take_journal();
        let indexes = self.index_registry.take_journal();
        proof {
            lemma_frame_keeps_inv(before, *self);
        }
        (pages, sections, indexes)
    }

    /// The book.
    pub fn book(&self) -> (r: &PagerBook)
        ensures
            *r == self.book_spec(),
            self.wf() ==> r.wf(),
    {
        &self.book
    }

    /// The section registry.
    pub fn section_registry(&self) -> (r: &ManagedSectionRegistry)
        ensures
            *r == self.section_registry_spec(),
    {
        &self.section_registry
    }

    /// The index registry.
    pub fn index_registry(&self) -> (r: &ManagedIndexRegistry)
        ensures
            *r == self.index_registry_spec(),
    {
        &self.index_registry
    }

    /// The number of sections.
    pub fn section_count(&self) -> (r: SectionIndex)
        ensures
            r == self.sections(),
    {
        self.section_count
    }

    /// The size of an index chunk.
    pub fn index_chunk_size(&self) -> (r: IndexChunkSize)
        ensures
            r == self.chunk_size(),
    {
        self.index_chunk_size
    }
}

} // verus!

verus! {

/// What a scan with `filter_key` yields from a table holding `contents` in
/// `n` sections: every entry, section by section, or the entries of the
/// key's section whose key is the filter's, in insertion order.
pub open spec fn scan_result(
    contents: Seq<Seq<EntryView>>,
    n: u32,
    filter_key: Option<Seq<u8>>,
) -> Seq<EntryView> {
    match filter_key {
        None => concat_sections(contents),
        Some(k) => matching(contents[section_for(key_hash(k), n) as int], k),
    }
}

/// An entry that a bloom query rules out: its key's bit is not the query.
pub open spec fn ruled_out(e: EntryView, query: Option<u64>, n: u32) -> bool {
    match query {
        Some(q) => bloom_bit(key_hash(e.0), n) & q == 0,
        None => false,
    }
}

/// The header of the chunk holding offset `off` of section `s` admits the
/// bloom query `q`: some key recorded there may be the one sought.
pub open spec fn chunk_admits(t: BookHashTable, s: SectionIndex, off: int, q: u64) -> bool {
    t.index_registry_spec().lookup(
        IndexKey { section_index: s, index_chunk: (off / (t.chunk_size() as int)) as u32 },
    ) matches Some(h) && h.bloom_filter & q != 0
}

/// Where an entry lies in its section, and how to read its key and value.
pub struct ScannerEntry<'a> {
    table: &'a BookHashTable,
    section_index: SectionIndex,
    key_offset: u64,
    key_size: u32,
    value_size: u32,
}

impl<'a> ScannerEntry<'a> {
    /// Where the entry starts in its section.
    pub closed spec fn entry_start(&self) -> int {
        self.key_offset - 8
    }

    /// The entry's size: its sizes, key and value.
    pub closed spec fn entry_size(&self) -> int {
        8 + self.key_size + self.value_size
    }

    /// The bytes of the key.
    pub closed spec fn key_view(&self) -> Seq<u8> {
        Seq::new(
            self.key_size as nat,
            |i: int| self.table.book_spec().byte(self.section_index, self.key_offset + i),
        )
    }

    /// The bytes of the value.
    pub closed spec fn value_view(&self) -> Seq<u8> {
        Seq::new(
            self.value_size as nat,
            |i: int|
                self.table.book_spec().byte(
                    self.section_index,
                    self.key_offset + self.key_size + i,
                ),
        )
    }

    /// The key and the value.
    pub open spec fn view(&self) -> EntryView {
        (self.key_view(), self.value_view())
    }

    /// The table is whole.
    pub closed spec fn wf(&self) -> bool {
        self.table.wf()
    }

    /// The table read from.
    pub closed spec fn table_spec(&self) -> &'a BookHashTable {
        self.table
    }

    /// The key and the value lie in addressable bytes of the section.
    pub closed spec fn readable(&self) -> bool {
        &&& self.table.wf()
        &&& self.key_offset + self.key_size + self.value_size <= PAGE_INDEX_COUNT
            * self.table.book_spec().page_size_spec()
    }

    /// The size of the key.
    pub fn key_size(&self) -> (r: u32)
        ensures
            r == self.key_view().len(),
    {
        self.key_size
    }

    /// The size of the value.
    pub fn value_size(&self) -> (r: u32)
        ensures
            r == self.value_view().len(),
    {
        self.value_size
    }

    /// Reads the key.
    pub fn key(&self) -> (r: Result<Vec<u8>, ErrorKind>)
        requires
            self.wf(),
        ensures
            r matches Ok(v) ==> v@ == self.key_view(),
            self.readable() ==> r is Ok,
    {
        let mut cursor = self.table.book.section(self.section_index);
        let _ = cursor.seek(SeekFrom::Start(self.key_offset));
        let r = cursor.read_exact(&self.table.book, self.key_size as usize);
        match r {
            Ok(v) => {
                assert(v@ =~= self.key_view());
                Ok(v)
            },
            Err(e) => Err(e),
        }
    }

    /// Reads the value.
    pub fn value(&self) -> (r: Result<Vec<u8>, ErrorKind>)
        requires
            self.wf(),
        ensures
            r matches Ok(v) ==> v@ == self.value_view(),
            self.readable() ==> r is Ok,
    {
        let _ = self.table.book.page_size();
        if self.key_offset > u64::MAX - self.key_size as u64 {
            return Err(ErrorKind::InvalidData);
        }
        let mut cursor = self.table.book.section(self.section_index);
        let _ = cursor.seek(SeekFrom::Start(self.key_offset + self.key_size as u64));
        let r = cursor.read_exact(&self.table.book, self.value_size as usize);
        match r {
            Ok(v) => {
                assert(v@ =~= self.value_view());
                Ok(v)
            },
            Err(e) => Err(e),
        }
    }
}

/// Walks the entries of one section from its start. With a bloom query it
/// consults the chunk headers, and jumps over each chunk whose filter lacks
/// the query to the first entry of the next recorded chunk.
pub struct SectionScanner<'a> {
    table: &'a BookHashTable,
    section_index: SectionIndex,
    position: u64,
    section_end: u64,
    bloom_query: Option<u64>,
    index_chunk: Option<(IndexKey, IndexHeader)>,
    next_entry: Ghost<int>,
}

impl<'a> SectionScanner<'a> {
    pub closed spec fn wf(&self) -> bool {
        &&& self.table.wf()
        &&& self.section_index < self.table.sections()
        &&& self.section_end == self.table.end_of(self.section_index)
        &&& self.position <= self.section_end
        &&& self.index_chunk matches Some(c) ==> self.table.index_registry_spec().lookup(c.0)
            == Some(c.1)
        &&& self.table.inv() ==> {
            let es = self.table.contents()[self.section_index as int];
            &&& 0 <= self.next_entry@ <= es.len()
            &&& self.position == offset_of(es, self.next_entry@)
        }
    }

    /// The table scanned.
    pub closed spec fn table_spec(&self) -> &'a BookHashTable {
        self.table
    }

    /// The section scanned.
    pub closed spec fn section(&self) -> SectionIndex {
        self.section_index
    }

    /// The bloom query.
    pub closed spec fn query(&self) -> Option<u64> {
        self.bloom_query
    }

    /// The index of the next entry to look at.
    pub closed spec fn next_index(&self) -> int {
        self.next_entry@
    }

    /// The cursor's offset in the section.
    pub closed spec fn position_spec(&self) -> int {
        self.position as int
    }

    /// The section's recorded end.
    pub closed spec fn end_spec(&self) -> int {
        self.section_end as int
    }

    /// How many bytes of the section are left.
    pub closed spec fn remaining(&self) -> nat {
        (self.section_end - self.position) as nat
    }

    /// The next entry of the section; `None` at the end of the section.
    /// With a bloom query, every chunk whose filter lacks the query is
    /// jumped over, to the first entry of the next recorded chunk, until a
    /// chunk's filter admits the query; the entry returned starts in such a
    /// chunk, and a section none of whose chunks admit the query yields
    /// `None` without reading an entry. Stored positions that do not move
    /// forward or lie past the section's end are corrupt (`InvalidData`);
    /// an entry returned always lies before the section's end. Over a table
    /// that holds its contents, the entries passed over are exactly entries
    /// that the query rules out.
    pub fn next(&mut self) -> (r: Result<Option<ScannerEntry<'a>>, ErrorKind>)
        requires
            old(self).wf(),
        ensures
            final(self).wf(),
            final(self).table_spec() == old(self).table_spec(),
            final(self).section() == old(self).section(),
            final(self).query() == old(self).query(),
            r matches Ok(Some(e)) ==> final(self).remaining() < old(self).remaining()
                && e.table_spec() == old(self).table_spec() && e.wf(),
            r matches Ok(Some(e)) ==> old(self).position_spec() <= e.entry_start() && e.entry_start()
                + e.entry_size() <= old(self).end_spec() && final(self).position_spec() == e.entry_start()
                + e.entry_size(),
            final(self).position_spec() <= final(self).end_spec(),
            final(self).end_spec() == old(self).end_spec(),
            old(self).query() matches Some(q) ==> (r matches Ok(Some(e)) ==> chunk_admits(
                *old(self).table_spec(),
                old(self).section(),
                e.entry_start(),
                q,
            )),
            old(self).table_spec().inv() && (old(self).query() matches Some(q) && forall|c: IndexChunk|
                #[trigger] old(self).table_spec().index_registry_spec().lookup(
                    IndexKey { section_index: old(self).section(), index_chunk: c },
                ) matches Some(h) ==> h.bloom_filter & q == 0) ==> r == Ok::<
                Option<ScannerEntry<'a>>,
                ErrorKind,
            >(None),
            old(self).table_spec().inv() ==> r is Ok,
            old(self).table_spec().inv() ==> ({
                let t = old(self).table_spec();
                let es = t.contents()[old(self).section() as int];
                let q = old(self).query();
                let n = t.sections();
                &&& r matches Ok(Some(e)) ==> {
                    &&& old(self).next_index() < final(self).next_index()
                    &&& e.view() == es[final(self).next_index() - 1]
                    &&& e.readable()
                    &&& forall|i: int|
                        old(self).next_index() <= i < final(self).next_index() - 1 ==> ruled_out(
                            #[trigger] es[i],
                            q,
                            n,
                        )
                }
                &&& r matches Ok(None) ==> {
                    &&& final(self).next_index() == es.len()
                    &&& forall|i: int|
                        old(self).next_index() <= i < es.len() ==> ruled_out(#[trigger] es[i], q, n)
                }
            }),
    {
        let ghost t = *self.table;
        let ghost s = self.section_index;
        let ghost es = t.contents@[s as int];
        let ghost n = t.section_count;
        proof {
            if t.inv() {
                lemma_holds(t, s);
                lemma_stream_layout(es);
                t.index_registry.lemma_slots();
            }
        }
        let ghost start = self.next_entry@;
        let mut position = self.position;
        let ghost mut idx = self.next_entry@;
        let end = self.section_end;
        match self.bloom_query {
            Some(q) => {
                let ics = self.table.index_chunk_size as u64;
                loop
                    invariant
                        self.wf(),
                        t == *self.table,
                        self.table == old(self).table,
                        self.section_index == old(self).section_index,
                        self.bloom_query == old(self).bloom_query,
                        old(self).section_end == end,
                        s == self.section_index,
                        es == t.contents@[s as int],
                        n == t.section_count,
                        self.bloom_query == Some(q),
                        self.position == old(self).position,
                        self.next_entry == old(self).next_entry,
                        self.section_end == end,
                        start == self.next_entry@,
                        ics == t.index_chunk_size,
                        old(self).position <= position <= end,
                        t.inv() ==> 0 <= start <= idx <= es.len() && position == offset_of(es, idx)
                            && forall|i: int| start <= i < idx ==> ruled_out(#[trigger] es[i], Some(q), n),
                        t.inv() ==> {
                            &&& t.section_holds(s)
                            &&& stream_of(es).len() == offset_of(es, es.len() as int)
                            &&& end == stream_of(es).len()
                        },
                    ensures
                        self.wf(),
                        t == *self.table,
                        self.table == old(self).table,
                        self.section_index == old(self).section_index,
                        self.bloom_query == old(self).bloom_query,
                        self.position == old(self).position,
                        self.next_entry == old(self).next_entry,
                        old(self).position <= position <= end,
                        t.inv() ==> 0 <= start <= idx <= es.len() && position == offset_of(es, idx)
                            && forall|i: int| start <= i < idx ==> ruled_out(#[trigger] es[i], Some(q), n),
                        position < end ==> chunk_admits(t, s, position as int, q),
                    decreases end - position,
                {
                    if position == end {
                        break;
                    }
                    let chunk = position / ics;
                    if chunk > u32::MAX as u64 {
                        proof {
                            if t.inv() {
                                lemma_at_end(es, idx);
                                assert(t.entry_indexed(s, es, offset_of(es, idx), es[idx]));
                            }
                        }
                        return Err(ErrorKind::InvalidData);
                    }
                    let key = IndexKey { section_index: self.section_index, index_chunk: chunk as u32 };
                    let cached = match self.index_chunk {
                        Some(c) => if c.0 == key {
                            Some(c.1)
                        } else {
                            None
                        },
                        None => None,
                    };
                    let header = match cached {
                        Some(h) => h,
                        None => match self.table.index_registry.try_resolve_index(&key) {
                            Some(h) => {
                                self.index_chunk = Some((key, h));
                                h
                            },
                            None => {
                                proof {
                                    if t.inv() {
                                        lemma_at_end(es, idx);
                                        if idx < es.len() {
                                            assert(t.entry_indexed(s, es, offset_of(es, idx), es[idx]));
                                        }
                                    }
                                }
                                self.position = end;
                                proof {
                                    if t.inv() {
                                        self.next_entry = Ghost(es.len() as int);
                                    }
                                }
                                return Ok(None);
                            },
                        },
                    };
                    if header.bloom_filter & q != 0 {
                        assert(t.index_registry.lookup(key) == Some(header));
                        break;
                    }
                    let next = self.table.index_registry.try_resolve_next_index(&key);
                    let next_position = match next {
                        Some(h2) => h2.first_entry_offset,
                        None => end,
                    };
                    if next_position <= position || next_position > end {
                        proof {
                            if t.inv() {
                                let j2 = lemma_skip(t, s, idx, key, header, q, next);
                                lemma_offsets_ordered(es, idx, j2);
                                lemma_offsets_ordered(es, j2, es.len() as int);
                                if j2 == idx {
                                    match next {
                                        Some(h2) => {
                                            lemma_skip_moves(t, s, key, h2, next_position as int, position as int);
                                        },
                                        None => {},
                                    }
                                }
                            }
                        }
                        return Err(ErrorKind::InvalidData);
                    }
                    proof {
                        if t.inv() {
                            let j2 = lemma_skip(t, s, idx, key, header, q, next);
                            idx = j2;
                        }
                    }
                    position = next_position;
                }
            },
            None => {},
        }
        if position == end {
            proof {
                if t.inv() {
                    lemma_at_end(es, idx);
                }
            }
            self.position = position;
            self.next_entry = Ghost(idx);
            return Ok(None);
        }
        let mut cursor = self.table.book.section(self.section_index);
        let _ = cursor.seek(SeekFrom::Start(position));
        proof {
            if t.inv() {
                lemma_at_end(es, idx);
                assert(offset_of(es, idx + 1) == offset_of(es, idx) + entry_len(es[idx]));
                lemma_offsets_ordered(es, idx + 1, es.len() as int);
            }
        }
        let head = match cursor.read_exact(&self.table.book, 8) {
            Ok(v) => v,
            Err(e) => return Err(e),
        };
        let mut at: usize = 0;
        let key_size = match take_u32(head.as_slice(), &mut at) {
            Ok(x) => x,
            Err(e) => return Err(e),
        };
        let value_size = match take_u32(head.as_slice(), &mut at) {
            Ok(x) => x,
            Err(e) => return Err(e),
        };
        let total: u64 = 8 + key_size as u64 + value_size as u64;
        if end - position < total {
            proof {
                if t.inv() {
                    lemma_entry_head(t, s, idx, head@);
                }
            }
            return Err(ErrorKind::InvalidData);
        }
        let entry = ScannerEntry {
            table: self.table,
            section_index: self.section_index,
            key_offset: position + 8,
            key_size,
            value_size,
        };
        proof {
            if t.inv() {
                lemma_entry_head(t, s, idx, head@);
                lemma_entry_view(t, s, idx);
                assert(entry.key_view() =~= es[idx].0);
                assert(entry.value_view() =~= es[idx].1);
            }
        }
        self.position = position + total;
        self.next_entry = Ghost(idx + 1);
        proof {
            if let Some(q) = old(self).bloom_query {
                assert(chunk_admits(t, s, position as int, q));
                let c = ((position as int) / (t.index_chunk_size as int)) as u32;
                let k = IndexKey { section_index: s, index_chunk: c };
                assert(t.index_registry_spec().lookup(k) is Some);
                assert(t.index_registry_spec().lookup(k).unwrap().bloom_filter & q != 0);
                if forall|c: IndexChunk|
                    #[trigger] t.index_registry_spec().lookup(IndexKey { section_index: s, index_chunk: c })
                        matches Some(h) ==> h.bloom_filter & q == 0 {
                    assert(t.index_registry_spec().lookup(IndexKey { section_index: s, index_chunk: c }) is Some);
                    assert(false);
                }
            }
        }
        Ok(Some(entry))
    }

    /// A scanner at the start of section `section_index`.
    pub fn new(table: &'a BookHashTable, section_index: SectionIndex, bloom_query: Option<u64>) -> (r:
        Self)
        requires
            table.wf(),
            section_index < table.sections(),
        ensures
            r.wf(),
            r.table_spec() == table,
            r.section() == section_index,
            r.query() == bloom_query,
            r.next_index() == 0,
    {
        let section_end = table.section_registry.cache_end(section_index);
        proof {
            if table.inv() {
                lemma_holds(*table, section_index);
                lemma_stream_layout(table.contents@[section_index as int]);
            }
        }
        SectionScanner {
            table,
            section_index,
            position: 0,
            section_end,
            bloom_query,
            index_chunk: None,
            next_entry: Ghost(0),
        }
    }
}

} // verus!

verus! {

/// Whether two byte strings are equal.
pub fn bytes_equal(a: &[u8], b: &[u8]) -> (r: bool)
    ensures
        r == (a@ == b@),
{
    if a.len() != b.len() {
        return false;
    }
    let mut i: usize = 0;
    while i < a.len()
        invariant
            a@.len() == b@.len(),
            i <= a@.len(),
            forall|j: int| 0 <= j < i ==> a@[j] == b@[j],
        decreases a@.len() - i,
    {
        if a[i] != b[i] {
            return false;
        }
        i = i + 1;
    }
    assert(a@ =~= b@);
    true
}

/// Passing over entries whose key is not `k` leaves the filter by `k` as
/// it was.
proof fn lemma_matching_skip(es: Seq<EntryView>, k: Seq<u8>, a: int, b: int)
    requires
        0 <= a <= b <= es.len(),
        forall|i: int| a <= i < b ==> (#[trigger] es[i]).0 != k,
    ensures
        matching(es.subrange(0, b), k) == matching(es.subrange(0, a), k),
    decreases b - a,
{
    if a < b {
        lemma_matching_skip(es, k, a, b - 1);
        lemma_matching_step(es, k, b - 1);
    }
}

/// The entries of the first `i + 1` sections are those of the first `i`
/// followed by section `i`'s.
proof fn lemma_concat_step(cs: Seq<Seq<EntryView>>, i: int)
    requires
        0 <= i < cs.len(),
    ensures
        concat_sections(cs.subrange(0, i + 1)) == concat_sections(cs.subrange(0, i)) + cs[i],
{
    assert(cs.subrange(0, i + 1).drop_last() =~= cs.subrange(0, i));
}

/// Entries that a key's bloom bit rules out do not have that key.
proof fn lemma_ruled_out_other_key(e: EntryView, k: Seq<u8>, n: u32)
    requires
        n > 0,
        ruled_out(e, Some(bloom_bit(key_hash(k), n)), n),
    ensures
        e.0 != k,
{
    let x = (key_hash(k) / n) as u64 % 64;
    lemma_bloom_bits(0, 0, bloom_bit(key_hash(k), n), x);
}

/// The filter of a prefix of the entries is a prefix of the filter of all.
proof fn lemma_matching_prefix(es: Seq<EntryView>, k: Seq<u8>, i: int)
    requires
        0 <= i <= es.len(),
    ensures
        matching(es.subrange(0, i), k).is_prefix_of(matching(es, k)),
    decreases es.len() - i,
{
    if i == es.len() {
        assert(es.subrange(0, i) =~= es);
    } else {
        lemma_matching_prefix(es, k, i + 1);
        lemma_matching_step(es, k, i);
        let a = matching(es.subrange(0, i), k);
        let b = matching(es.subrange(0, i + 1), k);
        let c = matching(es, k);
        assert(a.is_prefix_of(b));
        assert(a =~= c.subrange(0, a.len() as int)) by {
            assert(b =~= c.subrange(0, b.len() as int));
            assert forall|j: int| 0 <= j < a.len() implies a[j] == c[j] by {
                assert(a[j] == b[j]);
                assert(b[j] == c[j]);
            }
        }
    }
}

/// The entries of the first `s` sections, then the first `i` of section
/// `s`, begin the entries of all sections.
proof fn lemma_concat_prefix(cs: Seq<Seq<EntryView>>, s: int, i: int)
    requires
        0 <= s < cs.len(),
        0 <= i <= cs[s].len(),
    ensures
        (concat_sections(cs.subrange(0, s)) + cs[s].subrange(0, i)).is_prefix_of(concat_sections(cs)),
    decreases cs.len() - s,
{
    let a = concat_sections(cs.subrange(0, s)) + cs[s].subrange(0, i);
    let full = concat_sections(cs.subrange(0, s + 1));
    lemma_concat_step(cs, s);
    assert(a.is_prefix_of(full)) by {
        assert forall|j: int| 0 <= j < a.len() implies a[j] == full[j] by {}
        assert(a =~= full.subrange(0, a.len() as int));
    }
    if s + 1 == cs.len() {
        assert(cs.subrange(0, s + 1) =~= cs);
    } else {
        lemma_concat_prefix(cs, s + 1, 0);
        assert(cs[s + 1].subrange(0, 0) =~= Seq::<EntryView>::empty());
        assert(concat_sections(cs.subrange(0, s + 1)) + cs[s + 1].subrange(0, 0) =~= full);
        let c = concat_sections(cs);
        assert(a =~= c.subrange(0, a.len() as int)) by {
            assert(full =~= c.subrange(0, full.len() as int));
            assert forall|j: int| 0 <= j < a.len() implies a[j] == c[j] by {
                assert(a[j] == full[j]);
                assert(full[j] == c[j]);
            }
        }
    }
}

/// The entries of a table that a filter selects, one at a time.
pub struct HashTableScanner<'a> {
    table: &'a BookHashTable,
    filter: HashTableScanFilter,
    bloom_query: Option<u64>,
    next_section: u32,
    last_section: u32,
    open: bool,
    scanner: SectionScanner<'a>,
    seen: Ghost<Seq<EntryView>>,
}

impl HashTableScanFilter {
    /// The key filtered by, if any.
    pub open spec fn key_spec(&self) -> Option<Seq<u8>> {
        match self {
            HashTableScanFilter::Key(k) => Some(k@),
            HashTableScanFilter::All => None,
        }
    }
}

impl<'a> HashTableScanner<'a> {
    /// The table scanned.
    pub closed spec fn table_spec(&self) -> &'a BookHashTable {
        self.table
    }

    /// The key filtered by, if any.
    pub closed spec fn filter_key(&self) -> Option<Seq<u8>> {
        self.filter.key_spec()
    }

    /// The entries returned so far.
    pub closed spec fn seen(&self) -> Seq<EntryView> {
        self.seen@
    }

    /// What the whole scan yields.
    pub open spec fn expected(&self) -> Seq<EntryView> {
        scan_result(self.table_spec().contents(), self.table_spec().sections(), self.filter_key())
    }

    pub closed spec fn wf(&self) -> bool {
        let t = self.table;
        let n = t.sections();
        &&& t.wf()
        &&& self.next_section <= self.last_section <= n
        &&& self.scanner.wf()
        &&& self.scanner.table_spec() == self.table
        &&& self.scanner.query() == self.bloom_query
        &&& self.open ==> self.next_section >= 1 && self.scanner.section() == self.next_section - 1
        &&& match self.filter.key_spec() {
            Some(k) => {
                let s = section_for(key_hash(k), n);
                &&& self.bloom_query == Some(bloom_bit(key_hash(k), n))
                &&& self.last_section == s + 1
                &&& s <= self.next_section
                &&& self.open ==> self.next_section == s + 1
                &&& t.inv() ==> {
                    let es = t.contents()[s as int];
                    &&& self.open ==> self.seen@ == matching(
                        es.subrange(0, self.scanner.next_index()),
                        k,
                    )
                    &&& !self.open && self.next_section == s ==> self.seen@ == Seq::<
                        EntryView,
                    >::empty()
                    &&& !self.open && self.next_section == s + 1 ==> self.seen@ == matching(es, k)
                }
            },
            None => {
                &&& self.bloom_query is None
                &&& self.last_section == n
                &&& t.inv() ==> {
                    let cs = t.contents();
                    &&& self.open ==> self.seen@ == concat_sections(
                        cs.subrange(0, self.next_section - 1),
                    ) + cs[self.next_section - 1].subrange(0, self.scanner.next_index())
                    &&& !self.open ==> self.seen@ == concat_sections(
                        cs.subrange(0, self.next_section as int),
                    )
                }
            },
        }
    }

    /// A scan of `table` by `filter`, before its first entry.
    pub fn new(table: &'a BookHashTable, filter: HashTableScanFilter) -> (r: Self)
        requires
            table.wf(),
        ensures
            r.wf(),
            r.table_spec() == table,
            r.filter_key() == filter.key_spec(),
            r.seen() == Seq::<EntryView>::empty(),
    {
        let n = table.section_count;
        let (first, last, bloom_query) = match &filter {
            HashTableScanFilter::Key(k) => {
                let (s, bloom) = fingerprint(hash_key(k.as_slice()), n);
                (s, s + 1, Some(bloom))
            },
            HashTableScanFilter::All => (0, n, None),
        };
        let scanner = SectionScanner::new(table, 0, bloom_query);
        let r = HashTableScanner {
            table,
            filter,
            bloom_query,
            next_section: first,
            last_section: last,
            open: false,
            scanner,
            seen: Ghost(Seq::empty()),
        };
        proof {
            assert(table.contents().subrange(0, 0) =~= Seq::<Seq<EntryView>>::empty());
        }
        r
    }

    /// The next entry that the filter selects, or `None` after the last.
    /// Over a table that holds its contents, the entries returned one after
    /// the other are exactly what the whole scan yields, in order.
    pub fn next(&mut self) -> (r: Result<Option<ScannerEntry<'a>>, ErrorKind>)
        requires
            old(self).wf(),
        ensures
            final(self).wf(),
            final(self).table_spec() == old(self).table_spec(),
            final(self).filter_key() == old(self).filter_key(),
            r matches Ok(Some(e)) ==> e.table_spec() == old(self).table_spec() && e.wf(),
            old(self).table_spec().inv() ==> r is Ok,
            old(self).table_spec().inv() ==> (r matches Ok(Some(e)) ==> final(self).seen() == old(self).seen().push(e.view()) && e.readable()),
            old(self).table_spec().inv() ==> final(self).seen().is_prefix_of(final(self).expected()),
            old(self).table_spec().inv() ==> (r matches Ok(None) ==> final(self).seen() == old(self).seen() && old(self).seen() == old(self).expected()),
    {
        let ghost t = *self.table;
        let ghost n = t.section_count;
        loop
            invariant
                self.wf(),
                self.table == old(self).table,
                self.filter.key_spec() == old(self).filter.key_spec(),
                self.seen@ == old(self).seen@,
                t == *self.table,
                n == t.section_count,
            decreases self.last_section - self.next_section, if self.open {
                1int
            } else {
                0int
            }, self.scanner.remaining(),
        {
            if self.open {
                let ghost before = self.scanner;
                let ghost sec = self.scanner.section() as int;
                let step = self.scanner.next();
                proof {
                    if t.inv() {
                        lemma_holds(t, sec as SectionIndex);
                    }
                }
                match step {
                    Err(e) => return Err(e),
                    Ok(None) => {
                        self.open = false;
                        proof {
                            if t.inv() {
                                let es = t.contents@[sec];
                                match self.filter.key_spec() {
                                    Some(k) => {
                                        assert forall|i: int|
                                            before.next_index() <= i < es.len() implies (
                                            #[trigger] es[i]).0 != k by {
                                            lemma_ruled_out_other_key(es[i], k, n);
                                        }
                                        lemma_matching_skip(
                                            es,
                                            k,
                                            before.next_index(),
                                            es.len() as int,
                                        );
                                        assert(es.subrange(0, es.len() as int) =~= es);
                                    },
                                    None => {
                                        if before.next_index() < es.len() {
                                            assert(ruled_out(es[before.next_index()], None, n));
                                        }
                                        assert(es.subrange(0, es.len() as int) =~= es);
                                        lemma_concat_step(t.contents@, sec);
                                    },
                                }
                            }
                        }
                    },
                    Ok(Some(entry)) => {
                        let ghost j = self.scanner.next_index() - 1;
                        match &self.filter {
                            HashTableScanFilter::All => {
                                proof {
                                    if t.inv() {
                                        let es = t.contents@[sec];
                                        if before.next_index() < j {
                                            assert(ruled_out(es[before.next_index()], None, n));
                                        }
                                        assert(es.subrange(0, j + 1) =~= es.subrange(
                                            0,
                                            before.next_index(),
                                        ).push(es[j]));
                                        let pre = concat_sections(t.contents@.subrange(0, sec));
                                        assert((pre + es.subrange(0, before.next_index())).push(es[j])
                                            =~= pre + es.subrange(0, j + 1));
                                        self.seen@ = self.seen@.push(entry.view());
                                        lemma_concat_prefix(t.contents@, sec, j + 1);
                                    }
                                }
                                return Ok(Some(entry));
                            },
                            HashTableScanFilter::Key(k) => {
                                let key = match entry.key() {
                                    Ok(v) => v,
                                    Err(e) => return Err(e),
                                };
                                let same = bytes_equal(key.as_slice(), k.as_slice());
                                proof {
                                    if t.inv() {
                                        let es = t.contents@[sec];
                                        assert forall|i: int| before.next_index() <= i < j implies (
                                        #[trigger] es[i]).0 != k@ by {
                                            lemma_ruled_out_other_key(es[i], k@, n);
                                        }
                                        lemma_matching_skip(es, k@, before.next_index(), j);
                                        lemma_matching_step(es, k@, j);
                                    }
                                }
                                if same {
                                    proof {
                                        if t.inv() {
                                            self.seen@ = self.seen@.push(entry.view());
                                            lemma_matching_prefix(t.contents@[sec], k@, j + 1);
                                        }
                                    }
                                    return Ok(Some(entry));
                                }
                            },
                        }
                    },
                }
            } else if self.next_section < self.last_section {
                self.scanner = SectionScanner::new(self.table, self.next_section, self.bloom_query);
                self.next_section = self.next_section + 1;
                self.open = true;
                proof {
                    if t.inv() {
                        let es = t.contents@[self.next_section - 1];
                        assert(es.subrange(0, 0) =~= Seq::<EntryView>::empty());
                        if self.filter.key_spec() is None {
                            let cs = t.contents@;
                            assert(cs.subrange(0, self.next_section - 1).len() == self.next_section - 1);
                        }
                    }
                }
            } else {
                proof {
                    if t.inv() {
                        match self.filter.key_spec() {
                            Some(k) => {},
                            None => {
                                assert(t.contents@.subrange(0, n as int) =~= t.contents@);
                            },
                        }
                        assert(self.seen@ =~= self.seen@.subrange(0, self.seen@.len() as int));
                    }
                }
                return Ok(None);
            }
        }
    }
}

impl BookHashTable {
    /// A scan of the entries that `filter` selects: every entry, section by
    /// section in ascending order, or those of the key's section with that
    /// key; within a section in insertion order.
    pub fn scan<'a>(&'a self, filter: HashTableScanFilter) -> (r: HashTableScanner<'a>)
        requires
            self.wf(),
        ensures
            r.wf(),
            r.table_spec() == self,
            r.filter_key() == filter.key_spec(),
            r.seen() == Seq::<EntryView>::empty(),
    {
        HashTableScanner::new(self, filter)
    }
}

} // verus!

verus! {

/// The contents of a table of `n` sections after inserting `ws`, in
/// order, into an empty one: each entry appended to its key's section.
pub open spec fn inserted(ws: Seq<EntryView>, n: u32) -> Seq<Seq<EntryView>>
    decreases ws.len(),
{
    if ws.len() == 0 {
        Seq::new(n as nat, |i: int| Seq::<EntryView>::empty())
    } else {
        let c = inserted(ws.drop_last(), n);
        let s = section_for(key_hash(ws.last().0), n) as int;
        c.update(s, c[s].push(ws.last()))
    }
}

/// Entry `i` of section `s` is recorded in the header of the chunk where it
/// starts: the key's bloom bit is set there, and the chunk's first entry
/// starts at or before it.
pub open spec fn entry_recorded(t: BookHashTable, s: SectionIndex, i: int) -> bool {
    let es = t.contents()[s as int];
    let off = offset_of(es, i);
    let bit = bloom_bit(key_hash(es[i].0), t.sections());
    &&& off / (t.chunk_size() as int) <= u32::MAX
    &&& t.index_registry_spec().lookup(
        IndexKey { section_index: s, index_chunk: (off / (t.chunk_size() as int)) as u32 },
    ) matches Some(h) && h.bloom_filter & bit == bit && h.first_entry_offset <= off
}

/// The recorded first entry of chunk `c` of section `s`, if the chunk is
/// recorded, is where an entry of that chunk starts.
pub open spec fn chunk_recorded(t: BookHashTable, s: SectionIndex, c: IndexChunk) -> bool {
    let es = t.contents()[s as int];
    t.index_registry_spec().lookup(IndexKey { section_index: s, index_chunk: c }) matches Some(h)
        ==> (exists|j: int| 0 <= j < es.len() && offset_of(es, j) == h.first_entry_offset) && (
    h.first_entry_offset as int) / (t.chunk_size() as int) == c
}

/// Over a table that holds its contents: each section's recorded end is
/// the number of bytes of the entries appended to it; each entry's key has
/// its bloom bit in the filter of the chunk where the entry starts; and each
/// recorded chunk's first entry offset is the start of the first entry in
/// that chunk.
pub proof fn lemma_table_invariants(t: BookHashTable)
    requires
        t.inv(),
    ensures
        forall|s: SectionIndex|
            s < t.sections() ==> #[trigger] t.end_of(s) == stream_of(t.contents()[s as int]).len(),
        forall|s: SectionIndex, i: int|
            s < t.sections() && 0 <= i < t.contents()[s as int].len() ==> #[trigger] entry_recorded(
                t,
                s,
                i,
            ),
        forall|s: SectionIndex, c: IndexChunk|
            s < t.sections() ==> #[trigger] chunk_recorded(t, s, c),
{
    assert forall|s: SectionIndex| s < t.sections() implies #[trigger] t.end_of(s) == stream_of(
        t.contents()[s as int],
    ).len() by {
        lemma_holds(t, s);
    }
    assert forall|s: SectionIndex, i: int|
        s < t.sections() && 0 <= i < t.contents()[s as int].len() implies #[trigger] entry_recorded(
        t,
        s,
        i,
    ) by {
        lemma_holds(t, s);
        let es = t.contents@[s as int];
        assert(t.entry_indexed(s, es, offset_of(es, i), es[i]));
    }
    assert forall|s: SectionIndex, c: IndexChunk| s < t.sections() implies #[trigger] chunk_recorded(
        t,
        s,
        c,
    ) by {
        lemma_holds(t, s);
        let es = t.contents@[s as int];
        let k = IndexKey { section_index: s, index_chunk: c };
        if t.index_registry.lookup(k) is Some {
            assert(t.chunk_first(es, c, t.index_registry.lookup(k).unwrap().first_entry_offset));
        }
    }
}

/// After inserting `(k, v)`, a scan by `k` yields what it yielded before,
/// then `(k, v)`: the just-inserted entry comes last among those with key
/// `k`.
pub proof fn lemma_insert_then_scan_key(
    contents: Seq<Seq<EntryView>>,
    n: u32,
    k: Seq<u8>,
    v: Seq<u8>,
)
    requires
        n > 0,
        contents.len() == n,
    ensures
        ({
            let s = section_for(key_hash(k), n) as int;
            scan_result(contents.update(s, contents[s].push((k, v))), n, Some(k)) == scan_result(
                contents,
                n,
                Some(k),
            ).push((k, v))
        }),
{
    lemma_matching_push(contents[section_for(key_hash(k), n) as int], (k, v));
}

/// A scan by a key that no entry has yields nothing.
pub proof fn lemma_scan_absent_key(contents: Seq<Seq<EntryView>>, n: u32, k: Seq<u8>)
    requires
        n > 0,
        contents.len() == n,
        forall|s: int, i: int|
            0 <= s < n && 0 <= i < contents[s].len() ==> (#[trigger] contents[s][i]).0 != k,
    ensures
        scan_result(contents, n, Some(k)) == Seq::<EntryView>::empty(),
{
    let s = section_for(key_hash(k), n) as int;
    assert forall|i: int| 0 <= i < contents[s].len() implies (#[trigger] contents[s][i]).0 != k by {}
    lemma_matching_none(contents[s], k);
}

/// Appending an entry to one section adds it once to all entries.
proof fn lemma_concat_push(cs: Seq<Seq<EntryView>>, s: int, e: EntryView)
    requires
        0 <= s < cs.len(),
    ensures
        concat_sections(cs.update(s, cs[s].push(e))).to_multiset() == concat_sections(
            cs,
        ).to_multiset().insert(e),
    decreases cs.len(),
{
    broadcast use vstd::seq_lib::group_to_multiset_ensures;
    broadcast use vstd::multiset::group_multiset_axioms;

    let cs2 = cs.update(s, cs[s].push(e));
    if s == cs.len() - 1 {
        assert(cs2.drop_last() =~= cs.drop_last());
        let a = concat_sections(cs.drop_last());
        assert(a + cs[s].push(e) =~= (a + cs[s]).push(e));
    } else {
        assert(cs2.drop_last() =~= cs.drop_last().update(s, cs[s].push(e)));
        lemma_concat_push(cs.drop_last(), s, e);
        let a = concat_sections(cs.drop_last());
        let a2 = concat_sections(cs2.drop_last());
        vstd::seq_lib::lemma_multiset_commutative(a2, cs.last());
        vstd::seq_lib::lemma_multiset_commutative(a, cs.last());
        assert(a2.to_multiset().add(cs.last().to_multiset()) =~= a.to_multiset().add(
            cs.last().to_multiset(),
        ).insert(e));
    }
}

/// A scan of every entry yields exactly the entries inserted into an empty
/// table, each once: no entry is lost and none is repeated.
pub proof fn lemma_scan_all_yields_inserted(ws: Seq<EntryView>, n: u32)
    requires
        n > 0,
    ensures
        inserted(ws, n).len() == n,
        scan_result(inserted(ws, n), n, None).to_multiset() == ws.to_multiset(),
    decreases ws.len(),
{
    broadcast use vstd::seq_lib::group_to_multiset_ensures;

    if ws.len() == 0 {
        lemma_concat_empty(n as int);
        assert(ws =~= Seq::<EntryView>::empty());
    } else {
        let init = ws.drop_last();
        lemma_scan_all_yields_inserted(init, n);
        let c = inserted(init, n);
        let s = section_for(key_hash(ws.last().0), n) as int;
        lemma_concat_push(c, s, ws.last());
        assert(init.push(ws.last()) =~= ws);
    }
}

/// A table of empty sections holds no entries.
proof fn lemma_concat_empty(n: int)
    requires
        n >= 0,
    ensures
        concat_sections(Seq::new(n as nat, |i: int| Seq::<EntryView>::empty())).to_multiset()
            == vstd::multiset::Multiset::<EntryView>::empty(),
    decreases n,
{
    broadcast use vstd::seq_lib::group_to_multiset_ensures;

    let cs = Seq::new(n as nat, |i: int| Seq::<EntryView>::empty());
    if n > 0 {
        assert(cs.drop_last() =~= Seq::new((n - 1) as nat, |i: int| Seq::<EntryView>::empty()));
        lemma_concat_empty(n - 1);
        assert(concat_sections(cs) =~= concat_sections(cs.drop_last()));
    }
    if n == 0 {
        broadcast use vstd::multiset::group_multiset_axioms;

        let e = Seq::<EntryView>::empty();
        assert(concat_sections(cs) =~= e);
        assert forall|a: EntryView| e.to_multiset().count(a) == 0 by {
            assert(!e.contains(a));
        }
        assert(e.to_multiset() =~= vstd::multiset::Multiset::<EntryView>::empty());
    }
}

} // verus!

verus! {

/// Section bytes that hold no entries have none.
proof fn lemma_empty_stream(es: Seq<EntryView>)
    requires
        stream_of(es).len() == 0,
    ensures
        es.len() == 0,
{
    lemma_stream_layout(es);
    if es.len() > 0 {
        lemma_offsets_ordered(es, 0, es.len() as int);
    }
}

impl BookHashTable {
    /// Reads the entries of section `s` up to its recorded end, checking
    /// that each is whole and recorded in the header of its chunk; returns
    /// their offsets. Anything else is corrupt (`InvalidData`).
    fn parse_section(&self, s: SectionIndex, known: Ghost<Option<Seq<Seq<EntryView>>>>) -> (r: Result<(Vec<u64>, Ghost<Seq<EntryView>>), ErrorKind>)
        requires
            self.wf(),
            s < self.section_count,
            known@ matches Some(cs) ==> self.holds(cs),
        ensures
            self.section_registry.headers()[s as int].end_offset == 0 ==> r is Ok,
            known@ matches Some(cs) ==> (r matches Ok(p) && p.1@ == cs[s as int]),
            r matches Ok(parsed) ==> {
                let es = parsed.1@;
                let end = self.section_registry.headers()[s as int].end_offset;
                &&& end == stream_of(es).len()
                &&& end <= PAGE_INDEX_COUNT * self.book.page_size_spec()
                &&& forall|o: int| 0 <= o < end ==> #[trigger] self.book.byte(s, o) == stream_of(es)[o]
                &&& forall|i: int|
                    0 <= i < es.len() ==> (#[trigger] es[i]).0.len() <= u32::MAX && es[i].1.len()
                        <= u32::MAX
                &&& forall|i: int|
                    0 <= i < es.len() ==> #[trigger] self.entry_indexed(s, es, offset_of(es, i), es[i])
                &&& parsed.0@.len() == es.len()
                &&& forall|i: int| 0 <= i < es.len() ==> #[trigger] parsed.0@[i] == offset_of(es, i)
            },
    {
        let end = self.section_registry.cache_end(s);
        let ps = self.book.page_size() as u64;
        let limit: u64 = PAGE_INDEX_COUNT * ps;
        proof {
            if let Some(cs) = known@ {
                lemma_holds(self.with_contents(cs), s);
            }
        }
        if end > limit {
            return Err(ErrorKind::InvalidData);
        }
        let ics = self.index_chunk_size as u64;
        let mut pos: u64 = 0;
        let ghost mut k: int = 0;
        let ghost mut es: Seq<EntryView> = Seq::empty();
        let mut offsets: Vec<u64> = Vec::new();
        let mut cursor = self.book.section(s);
        proof {
            lemma_le_round_trip();
        }
        while pos < end
            invariant
                self.wf(),
                s < self.section_count,
                end == self.section_registry.headers()[s as int].end_offset,
                limit == PAGE_INDEX_COUNT * self.book.page_size_spec(),
                end <= limit,
                ics == self.index_chunk_size,
                pos <= end,
                pos == stream_of(es).len(),
                cursor.index_spec() == s,
                cursor.pos() == pos,
                known@ matches Some(cs) ==> 0 <= k <= cs[s as int].len() && es == cs[s as int].subrange(0, k)
                    && self.holds(cs) && self.with_contents(cs).section_holds(s),
                forall|o: int| 0 <= o < pos ==> #[trigger] self.book.byte(s, o) == stream_of(es)[o],
                forall|i: int|
                    0 <= i < es.len() ==> (#[trigger] es[i]).0.len() <= u32::MAX && es[i].1.len()
                        <= u32::MAX,
                forall|i: int|
                    0 <= i < es.len() ==> #[trigger] self.entry_indexed(s, es, offset_of(es, i), es[i]),
                offsets@.len() == es.len(),
                forall|i: int| 0 <= i < es.len() ==> #[trigger] offsets@[i] == offset_of(es, i),
            decreases end - pos,
        {
            proof {
                if let Some(cs) = known@ {
                    let e0 = cs[s as int];
                    lemma_stream_layout(e0);
                    assert(es == e0.subrange(0, k));
                    lemma_at_end(e0, k);
                    assert(k < e0.len());
                    assert(offset_of(e0, k + 1) == offset_of(e0, k) + entry_len(e0[k]));
                    lemma_offsets_ordered(e0, k + 1, e0.len() as int);
                }
            }
            if end - pos < 8 {
                return Err(ErrorKind::InvalidData);
            }
            let head = match cursor.read_exact(&self.book, 8) {
                Ok(h) => h,
                Err(e) => return Err(e),
            };
            let mut at: usize = 0;
            let key_size = match take_u32(head.as_slice(), &mut at) {
                Ok(x) => x,
                Err(e) => return Err(e),
            };
            let value_size = match take_u32(head.as_slice(), &mut at) {
                Ok(x) => x,
                Err(e) => return Err(e),
            };
            let total: u64 = 8 + key_size as u64 + value_size as u64;
            proof {
                if let Some(cs) = known@ {
                    let t2 = self.with_contents(cs);
                    lemma_entry_head(t2, s, k, head@);
                }
            }
            if end - pos < total {
                return Err(ErrorKind::InvalidData);
            }
            let key = match cursor.read_exact(&self.book, key_size as usize) {
                Ok(k) => k,
                Err(e) => return Err(e),
            };
            let value = match cursor.read_exact(&self.book, value_size as usize) {
                Ok(v) => v,
                Err(e) => return Err(e),
            };
            let chunk = pos / ics;
            proof {
                if let Some(cs) = known@ {
                    let t2 = self.with_contents(cs);
                    let e0 = cs[s as int];
                    lemma_entry_view(t2, s, k);
                    assert(key@ =~= e0[k].0);
                    assert(value@ =~= e0[k].1);
                    assert(t2.entry_indexed(s, e0, offset_of(e0, k), e0[k]));
                }
            }
            if chunk > u32::MAX as u64 {
                return Err(ErrorKind::InvalidData);
            }
            let (_, bit) = fingerprint(hash_key(key.as_slice()), self.section_count);
            let index_key = IndexKey { section_index: s, index_chunk: chunk as u32 };
            let header = match self.index_registry.try_resolve_index(&index_key) {
                Some(h) => h,
                None => return Err(ErrorKind::InvalidData),
            };
            if header.bloom_filter & bit != bit || header.first_entry_offset > pos {
                return Err(ErrorKind::InvalidData);
            }
            let ghost e: EntryView = (key@, value@);
            proof {
                let old_es = es;
                lemma_offsets_push(old_es, e);
                lemma_stream_layout(old_es);
                vstd::bytes::lemma_auto_spec_u32_to_from_le_bytes();
                assert(head@.subrange(0, 4).len() == 4);
                assert(head@.subrange(4, 8).len() == 4);
                assert(le32(key@.len() as u32) == head@.subrange(0, 4));
                assert(le32(value@.len() as u32) == head@.subrange(4, 8));
                let eb = entry_bytes(e);
                assert(eb.len() == total);
                assert forall|i: int| 0 <= i < total implies #[trigger] self.book.byte(s, pos + i) == eb[i] by {
                    if i < 4 {
                        assert(eb[i] == head@.subrange(0, 4)[i]);
                    } else if i < 8 {
                        assert(eb[i] == head@.subrange(4, 8)[i - 4]);
                    } else if i < 8 + key_size {
                        assert(eb[i] == key@[i - 8]);
                    } else {
                        assert(eb[i] == value@[i - 8 - key_size]);
                    }
                }
                es = old_es.push(e);
                assert forall|o: int| 0 <= o < pos + total implies #[trigger] self.book.byte(s, o) == stream_of(es)[o] by {
                    if o >= pos {
                        assert(self.book.byte(s, pos + (o - pos)) == eb[o - pos]);
                    }
                }
                assert forall|i: int| 0 <= i < es.len() implies #[trigger] self.entry_indexed(
                    s,
                    es,
                    offset_of(es, i),
                    es[i],
                ) by {
                    if i < old_es.len() {
                        assert(es[i] == old_es[i]);
                        assert(offset_of(es, i) == offset_of(old_es, i));
                        assert(self.entry_indexed(s, old_es, offset_of(old_es, i), old_es[i]));
                    } else {
                        assert(offset_of(es, i) == pos);
                        assert(es[i] == e);
                        assert(self.index_registry.lookup(index_key) == Some(header));
                    }
                }
                assert forall|i: int| 0 <= i < es.len() implies (#[trigger] es[i]).0.len() <= u32::MAX
                    && es[i].1.len() <= u32::MAX by {
                    if i < old_es.len() {
                        assert(es[i] == old_es[i]);
                    }
                }
            }
            offsets.push(pos);
            proof {
                assert forall|i: int| 0 <= i < es.len() implies #[trigger] offsets@[i] == offset_of(es, i) by {
                    if i < es.len() - 1 {
                        assert(offset_of(es, i) == offset_of(es.drop_last(), i)) by {
                            assert(es.drop_last() =~= es.subrange(0, es.len() - 1));
                            lemma_offsets_push(es.drop_last(), e);
                            assert(es.drop_last().push(e) =~= es);
                        }
                    } else {
                        lemma_offsets_push(es.drop_last(), e);
                        assert(es.drop_last().push(e) =~= es);
                        lemma_stream_layout(es.drop_last());
                    }
                }
            }
            proof {
                if let Some(cs) = known@ {
                    let e0 = cs[s as int];
                    assert(e == e0[k]);
                    assert(es =~= e0.subrange(0, k + 1));
                    k = k + 1;
                }
            }
            pos = pos + total;
        }
        proof {
            if let Some(cs) = known@ {
                let e0 = cs[s as int];
                lemma_stream_layout(e0);
                lemma_at_end(e0, k);
                assert(e0.subrange(0, k) =~= e0);
            }
        }
        Ok((offsets, Ghost(es)))
    }
}

} // verus!

verus! {

impl BookHashTable {
    /// Section `s`'s bytes, end and chunk headers hold the entries `es`,
    /// starting at `offsets`.
    closed spec fn parsed(&self, s: SectionIndex, es: Seq<EntryView>, offsets: Seq<u64>) -> bool {
        let end = self.section_registry.headers()[s as int].end_offset;
        &&& end == stream_of(es).len()
        &&& end <= PAGE_INDEX_COUNT * self.book.page_size_spec()
        &&& forall|o: int| 0 <= o < end ==> #[trigger] self.book.byte(s, o) == stream_of(es)[o]
        &&& forall|i: int|
            0 <= i < es.len() ==> (#[trigger] es[i]).0.len() <= u32::MAX && es[i].1.len() <= u32::MAX
        &&& forall|i: int|
            0 <= i < es.len() ==> #[trigger] self.entry_indexed(s, es, offset_of(es, i), es[i])
        &&& offsets.len() == es.len()
        &&& forall|i: int| 0 <= i < es.len() ==> #[trigger] offsets[i] == offset_of(es, i)
    }

    /// The table with the entries its sections hold. Every section must
    /// parse, up to its recorded end, into whole entries recorded in the
    /// headers of their chunks, and every recorded chunk of a section must
    /// start at one of that section's entries, in that chunk; otherwise the
    /// table is corrupt (`InvalidData`).
    pub fn check(self) -> (r: Result<Self, ErrorKind>)
        requires
            self.wf(),
        ensures
            r matches Ok(t) ==> t.inv() && t.wf() && t.book_spec() == self.book_spec()
                && t.section_registry_spec() == self.section_registry_spec()
                && t.index_registry_spec() == self.index_registry_spec() && t.sections()
                == self.sections() && t.chunk_size() == self.chunk_size(),
            (exists|cs: Seq<Seq<EntryView>>| self.holds(cs)) ==> (r matches Ok(t) && self.holds(
                t.contents(),
            ) && t.contents() == choose|cs: Seq<Seq<EntryView>>| self.holds(cs)),
            r matches Ok(t) ==> self.holds(t.contents()),
            (forall|s: int|
                0 <= s < self.sections() ==> #[trigger] self.section_registry_spec().headers()[s].end_offset
                    == 0) && self.index_registry_spec().entries().len() == 0 ==> (r matches Ok(t)
                && t.contents() == Seq::new(self.sections() as nat, |s: int| Seq::<EntryView>::empty())),
    {
        let ghost fresh = (forall|s: int|
            0 <= s < self.sections() ==> #[trigger] self.section_registry_spec().headers()[s].end_offset
                == 0) && self.index_registry_spec().entries().len() == 0;
        let ghost known: Option<Seq<Seq<EntryView>>> = if exists|cs: Seq<Seq<EntryView>>| self.holds(cs) {
            Some(choose|cs: Seq<Seq<EntryView>>| self.holds(cs))
        } else {
            None
        };
        let n = self.section_count;
        let ics = self.index_chunk_size as u64;
        let mut all_offsets: Vec<Vec<u64>> = Vec::new();
        let ghost mut contents: Seq<Seq<EntryView>> = Seq::empty();
        let mut s: u32 = 0;
        while s < n
            invariant
                self.wf(),
                n == self.section_count,
                s <= n,
                contents.len() == s,
                all_offsets@.len() == s,
                forall|t: int| 0 <= t < s ==> #[trigger] self.parsed(t as SectionIndex, contents[t], all_offsets@[t]@),
                fresh == ((forall|x: int|
                    0 <= x < self.sections() ==> #[trigger] self.section_registry_spec().headers()[x].end_offset
                        == 0) && self.index_registry_spec().entries().len() == 0),
                fresh ==> forall|t: int| 0 <= t < s ==> #[trigger] contents[t] == Seq::<EntryView>::empty(),
                known matches Some(cs) ==> self.holds(cs) && contents == cs.subrange(0, s as int),
                known is None ==> !(exists|cs: Seq<Seq<EntryView>>| self.holds(cs)),
                known matches Some(cs) ==> cs.len() == n,
                known matches Some(cs) ==> cs == choose|cs: Seq<Seq<EntryView>>| self.holds(cs),
            decreases n - s,
        {
            proof {
                if fresh {
                    assert(self.section_registry_spec().headers()[s as int].end_offset == 0);
                }
            }
            let (offsets, es) = match self.parse_section(s, Ghost(known)) {
                Ok(p) => p,
                Err(e) => return Err(e),
            };
            proof {
                if fresh {
                    assert(self.section_registry_spec().headers()[s as int].end_offset == 0);
                    lemma_empty_stream(es@);
                    assert(es@ =~= Seq::<EntryView>::empty());
                }
                contents = contents.push(es@);
                if let Some(cs) = known {
                    assert(contents =~= cs.subrange(0, s + 1));
                }
            }
            all_offsets.push(offsets);
            s = s + 1;
        }
        let count = self.index_registry.entry_count();
        let mut i: usize = 0;
        while i < count
            invariant
                self.wf(),
                n == self.section_count,
                ics == self.index_chunk_size,
                count == self.index_registry.entries().len(),
                fresh ==> count == 0,
                known matches Some(cs) ==> self.holds(cs) && contents == cs,
                known matches Some(cs) ==> cs == choose|cs: Seq<Seq<EntryView>>| self.holds(cs),
                known is None ==> !(exists|cs: Seq<Seq<EntryView>>| self.holds(cs)),
                fresh ==> forall|t: int| 0 <= t < n ==> #[trigger] contents[t] == Seq::<EntryView>::empty(),
                contents.len() == n,
                all_offsets@.len() == n,
                forall|t: int| 0 <= t < n ==> #[trigger] self.parsed(t as SectionIndex, contents[t], all_offsets@[t]@),
                i <= count,
                forall|j: int|
                    0 <= j < i && (#[trigger] self.index_registry.entries()[j]).0.section_index < n
                        ==> self.chunk_first(
                        contents[self.index_registry.entries()[j].0.section_index as int],
                        self.index_registry.entries()[j].0.index_chunk,
                        self.index_registry.entries()[j].1.first_entry_offset,
                    ),
            decreases count - i,
        {
            let (key, header) = self.index_registry.entry_at(i);
            if key.section_index < n {
                let first = header.first_entry_offset;
                proof {
                    if let Some(cs) = known {
                        let t2 = self.with_contents(cs);
                        t2.index_registry.lemma_slots();
                        lemma_holds(t2, key.section_index);
                        assert(t2.index_registry == self.index_registry);
                        assert(self.index_registry.entries()[i as int] == (key, header));
                        assert(t2.index_registry.entries()[i as int].0 == key);
                        assert(t2.index_registry.slot(key) == Some(i as u32));
                        assert(t2.index_registry.lookup(key) == Some(t2.index_registry.entries()[i as int].1));
                        let k2 = IndexKey { section_index: key.section_index, index_chunk: key.index_chunk };
                        assert(k2 == key);
                        assert(t2.index_registry.lookup(k2) == Some(header));
                        assert(t2.chunk_first(cs[key.section_index as int], key.index_chunk, first));
                        let t = key.section_index as int;
                        assert(self.parsed(t as SectionIndex, contents[t], all_offsets@[t]@));
                        assert(t as SectionIndex == key.section_index);
                    }
                }
                if first / ics != key.index_chunk as u64 {
                    return Err(ErrorKind::InvalidData);
                }
                let offsets = &all_offsets[key.section_index as usize];
                proof {
                    if let Some(cs) = known {
                        let t = key.section_index as int;
                        let es = contents[t];
                        let w = choose|w: int| 0 <= w < es.len() && offset_of(es, w) == first;
                        assert(offsets@[w] == first);
                    }
                }
                let mut j: usize = 0;
                let mut found = false;
                while j < offsets.len() && !found
                    invariant
                        j <= offsets@.len(),
                        found ==> j >= 1 && offsets@[j - 1] == first,
                        !found ==> forall|j2: int| 0 <= j2 < j ==> offsets@[j2] != first,
                        known is Some ==> exists|w: int| 0 <= w < offsets@.len() && offsets@[w] == first,
                    decreases offsets@.len() - j + if found { 0int } else { 1int },
                {
                    if offsets[j] == first {
                        found = true;
                    }
                    j = j + 1;
                }
                if !found {
                    proof {
                        if known is Some {
                            let w = choose|w: int| 0 <= w < offsets@.len() && offsets@[w] == first;
                            assert(offsets@[w] == first);
                        }
                    }
                    return Err(ErrorKind::InvalidData);
                }
                proof {
                    let t = key.section_index as int;
                    assert(self.parsed(t as SectionIndex, contents[t], all_offsets@[t]@));
                    assert(t as SectionIndex == key.section_index);
                    let es = contents[t];
                    assert(all_offsets@[t]@[j - 1] == offset_of(es, j - 1));
                    assert(self.chunk_first(es, key.index_chunk, first));
                }
            }
            i = i + 1;
        }
        let BookHashTable {
            hasher_builder,
            book,
            section_count,
            section_registry,
            index_chunk_size,
            index_registry,
            contents: _,
        } = self;
        let t = BookHashTable {
            hasher_builder,
            book,
            section_count,
            section_registry,
            index_chunk_size,
            index_registry,
            contents: Ghost(contents),
        };
        proof {
            t.index_registry.lemma_slots();
            assert forall|x: int| 0 <= x < t.section_count implies #[trigger] t.section_holds(x as SectionIndex) by {
                let sx = x as SectionIndex;
                assert(self.parsed(sx, contents[x], all_offsets@[x]@));
                let es = contents[x];
                assert forall|i: int| 0 <= i < es.len() implies #[trigger] t.entry_indexed(sx, es, offset_of(es, i), es[i]) by {
                    assert(self.entry_indexed(sx, es, offset_of(es, i), es[i]));
                }
                assert forall|c: IndexChunk| #[trigger]
                    t.index_registry.lookup(IndexKey { section_index: sx, index_chunk: c }) is Some
                        implies t.chunk_first(
                    es,
                    c,
                    t.index_registry.lookup(IndexKey { section_index: sx, index_chunk: c }).unwrap().first_entry_offset,
                ) by {
                    let k = IndexKey { section_index: sx, index_chunk: c };
                    let j = t.index_registry.slot(k).unwrap() as int;
                    assert(t.index_registry.entries()[j].0 == k);
                    assert(self.chunk_first(
                        contents[x],
                        c,
                        self.index_registry.entries()[j].1.first_entry_offset,
                    ));
                }
            }
            if fresh {
                assert(t.contents@ =~= Seq::new(section_count as nat, |s: int| Seq::<EntryView>::empty()));
            }
        }
        Ok(t)
    }
}

} // verus!

verus! {

/// The bytes of entries, read from the front: the first entry's bytes,
/// then the others'.
proof fn lemma_stream_front(es: Seq<EntryView>)
    requires
        es.len() > 0,
    ensures
        stream_of(es) == entry_bytes(es[0]) + stream_of(es.drop_first()),
    decreases es.len(),
{
    if es.len() == 1 {
        assert(es.drop_first() =~= Seq::<EntryView>::empty());
        assert(es.drop_last() =~= Seq::<EntryView>::empty());
        assert(stream_of(es.drop_last()) == Seq::<u8>::empty());
        assert(stream_of(es.drop_first()) == Seq::<u8>::empty());
        assert(es.last() == es[0]);
        assert(stream_of(es) =~= entry_bytes(es[0]));
    } else {
        let init = es.drop_last();
        lemma_stream_front(init);
        assert(init.drop_first() =~= es.drop_first().drop_last());
        assert(es.drop_first().last() == es.last());
        assert(stream_of(es) =~= entry_bytes(es[0]) + stream_of(es.drop_first()));
    }
}

/// Entries whose sizes fit their length fields are told apart by their
/// bytes: the same bytes hold the same entries.
pub proof fn lemma_stream_injective(a: Seq<EntryView>, b: Seq<EntryView>)
    requires
        stream_of(a) == stream_of(b),
        forall|i: int| 0 <= i < a.len() ==> (#[trigger] a[i]).0.len() <= u32::MAX && a[i].1.len() <= u32::MAX,
        forall|i: int| 0 <= i < b.len() ==> (#[trigger] b[i]).0.len() <= u32::MAX && b[i].1.len() <= u32::MAX,
    ensures
        a == b,
    decreases a.len(),
{
    lemma_le_round_trip();
    if a.len() == 0 {
        lemma_empty_stream(b);
        assert(a =~= b);
    } else if b.len() == 0 {
        lemma_empty_stream(a);
    } else {
        lemma_stream_front(a);
        lemma_stream_front(b);
        let (ea, eb) = (a[0], b[0]);
        let sa = stream_of(a);
        let ba = entry_bytes(ea);
        let bb = entry_bytes(eb);
        assert(sa.subrange(0, 4) == le32(ea.0.len() as u32)) by {
            assert(sa.subrange(0, 4) =~= ba.subrange(0, 4));
        }
        assert(sa.subrange(0, 4) == le32(eb.0.len() as u32)) by {
            assert(sa.subrange(0, 4) =~= bb.subrange(0, 4));
        }
        assert(sa.subrange(4, 8) == le32(ea.1.len() as u32)) by {
            assert(sa.subrange(4, 8) =~= ba.subrange(4, 8));
        }
        assert(sa.subrange(4, 8) == le32(eb.1.len() as u32)) by {
            assert(sa.subrange(4, 8) =~= bb.subrange(4, 8));
        }
        assert(ea.0.len() == eb.0.len());
        assert(ea.1.len() == eb.1.len());
        let kl = ea.0.len() as int;
        let vl = ea.1.len() as int;
        assert(ea.0 =~= eb.0) by {
            assert forall|i: int| 0 <= i < kl implies ea.0[i] == eb.0[i] by {
                assert(sa[8 + i] == ba[8 + i]);
                assert(sa[8 + i] == bb[8 + i]);
            }
        }
        assert(ea.1 =~= eb.1) by {
            assert forall|i: int| 0 <= i < vl implies ea.1[i] == eb.1[i] by {
                assert(sa[8 + kl + i] == ba[8 + kl + i]);
                assert(sa[8 + kl + i] == bb[8 + kl + i]);
            }
        }
        assert(ba == bb);
        assert(stream_of(a.drop_first()) =~= sa.subrange(ba.len() as int, sa.len() as int));
        assert(stream_of(b.drop_first()) =~= sa.subrange(bb.len() as int, sa.len() as int));
        lemma_stream_injective(a.drop_first(), b.drop_first());
        assert(a =~= b) by {
            assert forall|i: int| 0 <= i < a.len() implies a[i] == b[i] by {
                if i > 0 {
                    assert(a[i] == a.drop_first()[i - 1]);
                    assert(b[i] == b.drop_first()[i - 1]);
                }
            }
        }
    }
}

/// Two tables that hold their contents and store the same section bytes
/// up to the same ends hold the same entries: what a table holds is fixed
/// by its stored bytes, so reopening a store's files gives back its
/// entries.
pub proof fn lemma_same_bytes_same_entries(t1: BookHashTable, t2: BookHashTable)
    requires
        t1.inv(),
        t2.inv(),
        t1.sections() == t2.sections(),
        forall|s: SectionIndex| s < t1.sections() ==> #[trigger] t1.end_of(s) == t2.end_of(s),
        forall|s: SectionIndex, o: int|
            s < t1.sections() && 0 <= o < t1.end_of(s) ==> #[trigger] t1.book_spec().byte(s, o)
                == t2.book_spec().byte(s, o),
    ensures
        t1.contents() == t2.contents(),
{
    assert forall|x: int| 0 <= x < t1.sections() implies t1.contents()[x] == t2.contents()[x] by {
        let s = x as SectionIndex;
        lemma_holds(t1, s);
        lemma_holds(t2, s);
        let (a, b) = (t1.contents@[x], t2.contents@[x]);
        assert(t1.end_of(s) == t2.end_of(s));
        assert(stream_of(a) =~= stream_of(b)) by {
            assert forall|o: int| 0 <= o < stream_of(a).len() implies stream_of(a)[o] == stream_of(b)[o] by {
                assert(t1.book_spec().byte(s, o) == t2.book_spec().byte(s, o));
            }
        }
        lemma_stream_injective(a, b);
    }
    assert(t1.contents() =~= t2.contents());
}

} // verus!
