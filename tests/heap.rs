use datastore::block::MemoryBlockStorage;
use datastore::heap::{FastHeapEntryHeader, FastHeapEntryPointer, FastHeapStorage, HeapStorageError, PageIndexIterator};
use datastore::page::FastPageStorage;

fn heap(header_blocks: usize, page_size: usize, pages: usize) -> FastHeapStorage<MemoryBlockStorage, MemoryBlockStorage> {
    let header = MemoryBlockStorage::allocate(4, header_blocks);
    let pages = MemoryBlockStorage::allocate(page_size, pages);
    let page_storage = match FastPageStorage::new(header, pages) {
        Ok(s) => s,
        Err(e) => panic!("{:?}", e),
    };
    FastHeapStorage::new(page_storage)
}

fn read_all(heap: &FastHeapStorage<MemoryBlockStorage, MemoryBlockStorage>, start: usize) -> Vec<Vec<u8>> {
    let mut iterator = match heap.iter_entries(start) {
        Ok(i) => i,
        Err(e) => panic!("{:?}", e),
    };
    let mut out = Vec::new();
    while let Some(mut reader) = iterator.next(heap).unwrap() {
        let mut data = Vec::new();
        loop {
            let bytes = reader.read(heap, 10).unwrap();
            if bytes.is_empty() {
                break;
            }
            data.extend_from_slice(&bytes);
        }
        out.push(data);
    }
    out
}

#[test]
fn test_heap_storage_insert_and_read() {
    let mut heap_storage = heap(2, 512, 8);

    let data = b"Hello, world! This is a test of the heap storage system.";
    heap_storage.insert_entry(0, data).unwrap();

    let mut heap_iterator = match heap_storage.iter_entries(0) {
        Ok(i) => i,
        Err(e) => panic!("{:?}", e),
    };
    let mut entry_reader = heap_iterator.next(&heap_storage).unwrap().unwrap();

    let mut read_data = Vec::new();
    loop {
        let bytes = entry_reader.read(&heap_storage, 10).unwrap();
        if bytes.is_empty() {
            break;
        }
        read_data.extend_from_slice(&bytes);
    }
    assert_eq!(&read_data[..], &data[..]);
}

#[test]
fn entry_larger_than_a_page_is_split_and_read_back() {
    let mut heap_storage = heap(2, 32, 8);
    let data: Vec<u8> = (0..60u8).collect();
    heap_storage.insert_entry(1, &data).unwrap();
    heap_storage.insert_entry(1, b"second").unwrap();
    let entries = read_all(&heap_storage, 1);
    assert_eq!(entries, vec![data, b"second".to_vec()]);
}

#[test]
fn full_heap_is_refused() {
    let mut heap_storage = heap(1, 16, 2);
    assert!(matches!(heap_storage.insert_entry(0, &[1u8; 20]), Err(HeapStorageError::FullHeap)));
    heap_storage.insert_entry(0, &[1u8; 7]).unwrap();
    assert_eq!(read_all(&heap_storage, 0), vec![vec![1u8; 7]]);
}

#[test]
fn page_index_iterator_wraps_around() {
    let mut it = PageIndexIterator::new(2, 4);
    let mut seen = Vec::new();
    while let Some(i) = it.next() {
        seen.push(i);
    }
    assert_eq!(seen, vec![2, 3, 0, 1]);
}

#[test]
fn entry_header_round_trips() {
    let h = FastHeapEntryHeader {
        head: true,
        next: Some(FastHeapEntryPointer { page_index: 7, entry_offset: 300 }),
        payload_length: 513,
    };
    let bytes = h.encode();
    assert_eq!(bytes, vec![3, 7, 0, 0, 0, 44, 1, 1, 2]);
    assert_eq!(FastHeapEntryHeader::decode(&bytes), h);
    let p = FastHeapEntryPointer { page_index: 1, entry_offset: 2 };
    assert_eq!(FastHeapEntryPointer::decode(&p.encode()), p);
}

#[test]
fn heap_without_pages_has_no_entries() {
    let header = MemoryBlockStorage::allocate(4, 0);
    let pages = MemoryBlockStorage::allocate(16, 2);
    let page_storage = match FastPageStorage::new(header, pages) {
        Ok(s) => s,
        Err(e) => panic!("{:?}", e),
    };
    let mut heap_storage = FastHeapStorage::new(page_storage);
    assert_eq!(heap_storage.page_count(), 0);
    assert!(matches!(heap_storage.iter_entries(0), Err(HeapStorageError::ZeroHeap)));
    assert!(matches!(heap_storage.insert_entry(0, b"x"), Err(HeapStorageError::FullHeap)));
}
