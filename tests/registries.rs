use datastore::book::PageKey;
use datastore::dbms::{FileWAL, FileWALReader, HashTableEvent};
use datastore::error::ErrorKind;
use datastore::index_registry::{IndexEvent, IndexHeader, IndexKey, ManagedIndexRegistry};
use datastore::page_registry::{ManagedPageRegistry, PageEvent};
use datastore::section_registry::{ManagedSectionRegistry, SectionEvent, SectionHeader};

#[test]
fn page_registry_assigns_next_index_once() {
    let mut r = ManagedPageRegistry::new();
    let a = PageKey { section_index: 1, section_page_index: 0 };
    let b = PageKey { section_index: 0, section_page_index: 5 };
    assert_eq!(r.resolve_page(&a).unwrap().pager_page_index, 0);
    assert_eq!(r.resolve_page(&b).unwrap().pager_page_index, 1);
    assert_eq!(r.resolve_page(&a).unwrap().pager_page_index, 0);
    assert_eq!(r.try_resolve_page(&PageKey { section_index: 9, section_page_index: 9 }), None);
    assert_eq!(r.take_journal(), vec![PageEvent::Assigned(a, 0), PageEvent::Assigned(b, 1)]);
    let copy = ManagedPageRegistry::load(&r.snapshot()).unwrap();
    assert_eq!(copy.try_resolve_page(&b).unwrap().pager_page_index, 1);
    assert_eq!(copy.page_count(), 2);
}

#[test]
fn page_registry_replay_rules() {
    let mut r = ManagedPageRegistry::new();
    let a = PageKey { section_index: 1, section_page_index: 0 };
    let b = PageKey { section_index: 2, section_page_index: 0 };
    assert_eq!(r.apply(PageEvent::Assigned(a, 1)), Err(ErrorKind::InvalidData));
    assert_eq!(r.apply(PageEvent::Assigned(a, 0)), Ok(()));
    assert_eq!(r.apply(PageEvent::Assigned(a, 0)), Ok(()));
    assert_eq!(r.apply(PageEvent::Assigned(b, 0)), Err(ErrorKind::InvalidData));
    assert_eq!(r.apply(PageEvent::Assigned(a, 1)), Err(ErrorKind::InvalidData));
    let dup = [1u8, 0, 0, 0, 0, 0, 0, 0, 1, 0, 0, 0, 0, 0, 0, 0];
    assert!(matches!(ManagedPageRegistry::load(&dup), Err(ErrorKind::InvalidData)));
}

#[test]
fn section_registry_end_offsets_only_grow() {
    let mut r = ManagedSectionRegistry::new(3);
    r.update_section_end_offset(1, 10).unwrap();
    r.update_section_end_offset(1, 5).unwrap();
    assert_eq!(r.resolve_section(1), Ok(SectionHeader { end_offset: 10 }));
    assert_eq!(r.resolve_section(3), Err(ErrorKind::NotFound));
    assert_eq!(r.update_section_end_offset(3, 1), Err(ErrorKind::NotFound));
    assert_eq!(r.take_journal(), vec![SectionEvent::Updated(1, SectionHeader { end_offset: 10 })]);
    let bytes = r.snapshot();
    assert_eq!(bytes.len(), 24);
    let copy = ManagedSectionRegistry::load(&bytes[..12], 3);
    assert_eq!(copy.resolve_section(1), Ok(SectionHeader { end_offset: 10 }));
    assert_eq!(copy.resolve_section(2), Ok(SectionHeader { end_offset: 0 }));
    assert_eq!(copy.section_count(), 3);
    let mut r2 = ManagedSectionRegistry::new(1);
    assert_eq!(
        r2.apply(SectionEvent::Updated(4, SectionHeader { end_offset: 1 })),
        Err(ErrorKind::InvalidData)
    );
}

#[test]
fn index_registry_bloom_updates() {
    let mut r = ManagedIndexRegistry::new();
    let k0 = IndexKey { section_index: 2, index_chunk: 0 };
    let k5 = IndexKey { section_index: 2, index_chunk: 5 };
    let other = IndexKey { section_index: 3, index_chunk: 1 };
    r.update_index_bloom_filter(&k0, 0, 1).unwrap();
    r.update_index_bloom_filter(&k0, 40, 4).unwrap();
    r.update_index_bloom_filter(&k0, 50, 4).unwrap();
    r.update_index_bloom_filter(&other, 70, 2).unwrap();
    r.update_index_bloom_filter(&k5, 330, 8).unwrap();
    assert_eq!(
        r.try_resolve_index(&k0),
        Some(IndexHeader { bloom_filter: 5, first_entry_offset: 0 })
    );
    assert_eq!(r.try_resolve_next_index(&k0), Some(IndexHeader { bloom_filter: 8, first_entry_offset: 330 }));
    assert_eq!(r.try_resolve_next_index(&k5), None);
    assert_eq!(r.take_journal().len(), 4);
    assert_eq!(r.entry_count(), 3);
    let copy = ManagedIndexRegistry::load(&r.snapshot()).unwrap();
    assert_eq!(copy.try_resolve_index(&other), Some(IndexHeader { bloom_filter: 2, first_entry_offset: 70 }));
    let mut r2 = ManagedIndexRegistry::new();
    let h = IndexHeader { bloom_filter: 1, first_entry_offset: 0 };
    assert_eq!(r2.apply(IndexEvent::Updated(1, k0, h)), Err(ErrorKind::InvalidData));
    assert_eq!(r2.apply(IndexEvent::Updated(0, k0, h)), Ok(()));
    assert_eq!(r2.apply(IndexEvent::Updated(0, k5, h)), Err(ErrorKind::InvalidData));
}

#[test]
fn events_round_trip_through_bytes() {
    let events = vec![
        HashTableEvent::PageEvent(PageEvent::Assigned(
            PageKey { section_index: 7, section_page_index: 300 },
            9,
        )),
        HashTableEvent::SectionEvent(SectionEvent::Updated(3, SectionHeader { end_offset: 1 << 40 })),
        HashTableEvent::IndexEvent(IndexEvent::Updated(
            2,
            IndexKey { section_index: 1, index_chunk: 4 },
            IndexHeader { bloom_filter: u64::MAX, first_entry_offset: 99 },
        )),
    ];
    let mut bytes = Vec::new();
    for e in &events {
        e.write(&mut bytes);
    }
    assert_eq!(bytes.len(), 14 + 14 + 30);
    let mut pos = 0;
    for e in &events {
        assert_eq!(HashTableEvent::read(&bytes, &mut pos), Ok(*e));
    }
    assert_eq!(pos, bytes.len());
    assert_eq!(HashTableEvent::read(&bytes, &mut pos), Err(ErrorKind::UnexpectedEof));
    let mut pos = 0;
    assert_eq!(HashTableEvent::read(&[9u8], &mut pos), Err(ErrorKind::InvalidData));
    let mut pos = 0;
    assert_eq!(HashTableEvent::read(&[1u8, 1, 0], &mut pos), Err(ErrorKind::UnexpectedEof));
}

#[test]
fn log_records_after_height_and_syncs_height() {
    let mut wal = FileWAL::load(Vec::new()).unwrap();
    assert_eq!(wal.height(), 8);
    let e = HashTableEvent::SectionEvent(SectionEvent::Updated(0, SectionHeader { end_offset: 5 }));
    wal.record(&e).unwrap();
    assert_eq!(wal.height(), 22);
    assert_eq!(&wal.bytes()[0..8], &8u64.to_le_bytes());
    wal.sync();
    assert_eq!(&wal.bytes()[0..8], &22u64.to_le_bytes());
    let mut reader = FileWALReader::new(wal.bytes().clone()).unwrap();
    assert_eq!(reader.read_next(), Ok(Some(e)));
    assert_eq!(reader.read_next(), Ok(None));
    wal.clear();
    assert_eq!(wal.height(), 8);
    assert_eq!(wal.bytes().len(), 22);
    let mut reader = FileWALReader::new(wal.bytes().clone()).unwrap();
    assert_eq!(reader.read_next(), Ok(None));
    assert!(matches!(FileWAL::load(vec![0u8; 4]), Err(ErrorKind::InvalidData)));
}
