use datastore::block::MemoryBlockStorage;
use datastore::heap::FastHeapStorage;
use datastore::keymap::{open_key_map, to_u64, Entry, HeapKeyMap, HeapKeyMapEntryReader, KeyMapConfig, KeyMapOpenError};
use datastore::page::FastPageStorage;

type MemoryKeyMap = HeapKeyMap<MemoryBlockStorage, MemoryBlockStorage>;

fn read_to_end(map: &MemoryKeyMap, entry: &mut HeapKeyMapEntryReader, buf: &mut Vec<u8>) {
    loop {
        let bytes = entry.read(map.heap(), 64).unwrap();
        if bytes.is_empty() {
            break;
        }
        buf.extend_from_slice(&bytes);
    }
}

fn new_map(page_size: usize, pages: usize) -> MemoryKeyMap {
    let header = MemoryBlockStorage::allocate(4, 2);
    let pages = MemoryBlockStorage::allocate(page_size, pages);
    let page_storage = match FastPageStorage::new(header, pages) {
        Ok(s) => s,
        Err(e) => panic!("{:?}", e),
    };
    let heap_storage = FastHeapStorage::new(page_storage);
    HeapKeyMap::new(heap_storage)
}

#[test]
fn test_heap_key_map_insert_get() {
    let mut heap_key_map = new_map(64, 4);

    let key1 = b"key1";
    let value1 = b"value1";
    heap_key_map.insert(key1, value1).unwrap();

    let mut iter = heap_key_map.iter(Some(key1.to_vec())).unwrap();
    let mut buf = Vec::new();
    let mut entry = iter.next(&heap_key_map).unwrap().unwrap();
    entry.value(heap_key_map.heap()).unwrap();
    read_to_end(&heap_key_map, &mut entry, &mut buf);
    assert_eq!(buf, value1);
    drop(iter);

    let key2 = b"another_key";
    let value2 = b"another_value";
    heap_key_map.insert(key2, value2).unwrap();

    let mut iter = heap_key_map.iter(Some(key2.to_vec())).unwrap();
    let mut buf = Vec::new();
    let mut entry = iter.next(&heap_key_map).unwrap().unwrap();
    entry.value(heap_key_map.heap()).unwrap();
    read_to_end(&heap_key_map, &mut entry, &mut buf);
    assert_eq!(buf, value2);
    drop(iter);
}

#[test]
fn key_map_filters_by_whole_key() {
    let mut map = new_map(64, 4);
    map.insert(b"ab", b"1").unwrap();
    map.insert(b"abc", b"2").unwrap();
    map.insert(b"ab", b"3").unwrap();
    let mut iter = map.iter(Some(b"ab".to_vec())).unwrap();
    let mut values = Vec::new();
    while let Some(mut entry) = iter.next(&map).unwrap() {
        let mut key = Vec::new();
        read_to_end(&map, &mut entry, &mut key);
        assert_eq!(key, b"ab".to_vec());
        entry.value(map.heap()).unwrap();
        let mut v = Vec::new();
        read_to_end(&map, &mut entry, &mut v);
        values.push(v);
    }
    values.sort();
    assert_eq!(values, vec![b"1".to_vec(), b"3".to_vec()]);

    let mut all = map.iter(None).unwrap();
    let mut count = 0;
    while let Some(mut entry) = all.next(&map).unwrap() {
        entry.key(map.heap()).unwrap();
        let mut key = Vec::new();
        read_to_end(&map, &mut entry, &mut key);
        assert!(key == b"ab".to_vec() || key == b"abc".to_vec());
        count += 1;
    }
    assert_eq!(count, 3);
}

#[test]
fn entry_bytes_and_key_start() {
    let e = Entry { key: b"k", value: b"vv" };
    assert_eq!(e.size(), 5);
    assert_eq!(e.encode(), vec![1, 0, b'k', b'v', b'v']);
    assert_eq!(to_u64(b"\x01\x02"), 0x0201);
    assert_eq!(to_u64(b"abcdefghij"), u64::from_le_bytes(*b"abcdefgh"));
}

#[test]
fn key_map_layout_and_open() {
    let config = KeyMapConfig { block_size: 64, page_count: 4 };
    assert_eq!(config.header_block_count(), 1);
    assert_eq!(config.file_size(), Some(5 * 64));
    let wide = KeyMapConfig { block_size: 3, page_count: 4 };
    assert_eq!(wide.header_block_count(), 3);
    assert!(matches!(open_key_map(vec![0u8; 10], config), Err(KeyMapOpenError::FileSizeMismatch)));
    let mut map = match open_key_map(Vec::new(), config) {
        Ok(m) => m,
        Err(e) => panic!("{:?}", e),
    };
    map.insert(b"k", b"v").unwrap();
    let mut iter = map.iter(Some(b"k".to_vec())).unwrap();
    let mut entry = iter.next(&map).unwrap().unwrap();
    entry.value(map.heap()).unwrap();
    assert_eq!(entry.read(map.heap(), 8).unwrap(), b"v".to_vec());
}

#[test]
fn new_entry_reader_reads_nothing_before_key_or_value() {
    let mut map = new_map(64, 4);
    map.insert(b"k", b"v").unwrap();
    let mut iter = map.iter(None).unwrap();
    let mut entry = iter.next(&map).unwrap().unwrap();
    assert!(matches!(entry.read(map.heap(), 4), Err(datastore::keymap::KeyMapError::InvalidState)));
    entry.value(map.heap()).unwrap();
    assert!(matches!(entry.key(map.heap()), Err(datastore::keymap::KeyMapError::InvalidState)));
    assert_eq!(entry.read(map.heap(), 4).unwrap(), b"v".to_vec());
}
