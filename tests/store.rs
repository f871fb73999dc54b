use datastore::dbms::{HashTableConfig, ManagedHashTable, RegistrySnapshots, StoreFiles};
use datastore::error::ErrorKind;
use datastore::hash_table::{bytes_equal, fingerprint, hash_key, HashTableScanFilter};
use datastore::index_registry::IndexKey;

/// What the store's files hold on disk.
#[derive(Clone, Default)]
struct Disk {
    header: Option<HashTableConfig>,
    pages: Vec<u8>,
    pages_reg: Vec<u8>,
    sections_reg: Vec<u8>,
    indexes_reg: Vec<u8>,
    events_log: Vec<u8>,
}

fn config() -> HashTableConfig {
    HashTableConfig { page_size: 64, section_count: 4, index_chunk_size: 64 }
}

fn open(disk: &Disk, config: HashTableConfig) -> Result<ManagedHashTable, ErrorKind> {
    ManagedHashTable::open(
        config,
        StoreFiles {
            header: disk.header,
            pages: disk.pages.clone(),
            pages_reg: disk.pages_reg.clone(),
            sections_reg: disk.sections_reg.clone(),
            indexes_reg: disk.indexes_reg.clone(),
            events_log: disk.events_log.clone(),
        },
    )
}

fn write_pages(disk: &mut Disk, store: &ManagedHashTable, page_size: usize) {
    for (i, page) in store.pages().iter().enumerate() {
        let at = i * page_size;
        if disk.pages.len() < at + page_size {
            disk.pages.resize(at + page_size, 0);
        }
        disk.pages[at..at + page_size].copy_from_slice(page);
    }
}

fn sync(disk: &mut Disk, store: &mut ManagedHashTable) {
    store.sync();
    write_pages(disk, store, config().page_size as usize);
    disk.events_log = store.events_log().clone();
}

fn full_sync(disk: &mut Disk, store: &mut ManagedHashTable) {
    let RegistrySnapshots { pages_reg, sections_reg, indexes_reg } = store.full_sync();
    write_pages(disk, store, config().page_size as usize);
    disk.pages_reg = pages_reg;
    disk.sections_reg = sections_reg;
    disk.indexes_reg = indexes_reg;
    disk.events_log = store.events_log().clone();
}

fn fresh() -> (Disk, ManagedHashTable) {
    let mut disk = Disk::default();
    let mut store = open(&disk, config()).unwrap();
    disk.header = Some(config());
    full_sync(&mut disk, &mut store);
    (disk, store)
}

fn collect(store: &ManagedHashTable, filter: HashTableScanFilter) -> Vec<(Vec<u8>, Vec<u8>)> {
    let mut scanner = store.scan(filter);
    let mut out = Vec::new();
    while let Some(entry) = scanner.next().unwrap() {
        let key = entry.key().unwrap();
        let value = entry.value().unwrap();
        assert_eq!(key.len(), entry.key_size() as usize);
        assert_eq!(value.len(), entry.value_size() as usize);
        out.push((key, value));
    }
    out
}

fn values(store: &ManagedHashTable, key: &[u8]) -> Vec<Vec<u8>> {
    collect(store, HashTableScanFilter::Key(key.to_vec())).into_iter().map(|(_, v)| v).collect()
}

fn sorted(mut v: Vec<(Vec<u8>, Vec<u8>)>) -> Vec<(Vec<u8>, Vec<u8>)> {
    v.sort();
    v
}

#[test]
fn duplicate_keys_scan_in_insertion_order() {
    let (_, mut store) = fresh();
    store.insert(b"a", b"1").unwrap();
    store.insert(b"b", b"2").unwrap();
    store.insert(b"a", b"3").unwrap();
    assert_eq!(values(&store, b"a"), vec![b"1".to_vec(), b"3".to_vec()]);
    let all = collect(&store, HashTableScanFilter::All);
    assert_eq!(
        sorted(all),
        vec![
            (b"a".to_vec(), b"1".to_vec()),
            (b"a".to_vec(), b"3".to_vec()),
            (b"b".to_vec(), b"2".to_vec()),
        ]
    );
}

#[test]
fn hundred_keys_survive_full_sync_and_reopen() {
    let (mut disk, mut store) = fresh();
    for i in 0..100 {
        store.insert(format!("k{}", i).as_bytes(), format!("v{}", i).as_bytes()).unwrap();
    }
    full_sync(&mut disk, &mut store);
    drop(store);
    let store = open(&disk, config()).unwrap();
    assert_eq!(values(&store, b"k42"), vec![b"v42".to_vec()]);
    let all = collect(&store, HashTableScanFilter::All);
    assert_eq!(all.len(), 100);
    let mut expected: Vec<(Vec<u8>, Vec<u8>)> = (0..100)
        .map(|i| (format!("k{}", i).into_bytes(), format!("v{}", i).into_bytes()))
        .collect();
    expected.sort();
    assert_eq!(sorted(all), expected);
}

#[test]
fn large_value_spans_pages_and_survives_reopen() {
    let (mut disk, mut store) = fresh();
    let payload: Vec<u8> = (0..200).map(|i| (i % 251) as u8).collect();
    store.insert(b"x", &payload).unwrap();
    full_sync(&mut disk, &mut store);
    assert!(store.pages().len() >= 4);
    let store = open(&disk, config()).unwrap();
    assert_eq!(values(&store, b"x"), vec![payload]);
}

#[test]
fn synced_insert_survives_crash() {
    let (mut disk, mut store) = fresh();
    store.insert(b"a", b"1").unwrap();
    sync(&mut disk, &mut store);
    // The process stops here: nothing more reaches the disk.
    drop(store);
    let store = open(&disk, config()).unwrap();
    assert_eq!(values(&store, b"a"), vec![b"1".to_vec()]);
}

#[test]
fn unsynced_inserts_after_sync_are_not_seen_after_crash() {
    let (mut disk, mut store) = fresh();
    store.insert(b"w1", b"one").unwrap();
    sync(&mut disk, &mut store);
    store.insert(b"w2", b"two").unwrap();
    drop(store);
    let store = open(&disk, config()).unwrap();
    let all = collect(&store, HashTableScanFilter::All);
    assert_eq!(all, vec![(b"w1".to_vec(), b"one".to_vec())]);
}

#[test]
fn bloom_bit_absent_means_no_entry_read() {
    let (_, mut store) = fresh();
    let keys: Vec<Vec<u8>> = (0..10).map(|i| format!("key{}", i).into_bytes()).collect();
    for k in &keys {
        store.insert(k, b"v").unwrap();
    }
    let table = store.hash_table();
    let n = table.section_count();
    let mut checked = 0;
    for probe in 0..100u32 {
        let key = format!("zz{:03}", probe).into_bytes();
        let (section, bit) = fingerprint(hash_key(&key), n);
        let header = table
            .index_registry()
            .try_resolve_index(&IndexKey { section_index: section, index_chunk: 0 });
        let absent = match header {
            Some(h) => h.bloom_filter & bit == 0,
            None => true,
        };
        if absent {
            checked += 1;
            assert!(values(&store, &key).is_empty());
        }
    }
    assert!(checked > 0);
}

#[test]
fn never_inserted_key_yields_nothing() {
    let (_, mut store) = fresh();
    store.insert(b"present", b"1").unwrap();
    assert!(values(&store, b"absent").is_empty());
    assert!(values(&store, b"pres").is_empty());
}

#[test]
fn empty_keys_and_values_are_accepted() {
    let (_, mut store) = fresh();
    store.insert(b"", b"").unwrap();
    store.insert(b"k", b"").unwrap();
    store.insert(b"", b"v").unwrap();
    assert_eq!(values(&store, b""), vec![Vec::new(), b"v".to_vec()]);
    assert_eq!(values(&store, b"k"), vec![Vec::new()]);
}

#[test]
fn just_inserted_entry_is_last_for_its_key() {
    let (_, mut store) = fresh();
    for i in 0..20 {
        store.insert(b"same", format!("{}", i).as_bytes()).unwrap();
        store.insert(format!("other{}", i).as_bytes(), b"x").unwrap();
        let got = values(&store, b"same");
        assert_eq!(got.len(), i + 1);
        assert_eq!(got.last().unwrap(), &format!("{}", i).into_bytes());
    }
}

#[test]
fn section_end_counts_appended_bytes() {
    let (_, mut store) = fresh();
    store.insert(b"abc", b"defg").unwrap();
    let (section, _) = fingerprint(hash_key(b"abc"), 4);
    let header = store.hash_table().section_registry().resolve_section(section).unwrap();
    assert_eq!(header.end_offset, 8 + 3 + 4);
    store.insert(b"abc", b"").unwrap();
    let header = store.hash_table().section_registry().resolve_section(section).unwrap();
    assert_eq!(header.end_offset, 15 + 8 + 3);
}

#[test]
fn chunk_headers_record_first_entry_and_bloom_bits() {
    let (_, mut store) = fresh();
    let key = b"aaaa";
    let (section, bit) = fingerprint(hash_key(key), 4);
    for _ in 0..10 {
        store.insert(key, b"0123456789").unwrap();
    }
    let registry = store.hash_table().index_registry();
    let first = registry
        .try_resolve_index(&IndexKey { section_index: section, index_chunk: 0 })
        .unwrap();
    assert_eq!(first.first_entry_offset, 0);
    assert_eq!(first.bloom_filter & bit, bit);
    let second = registry
        .try_resolve_index(&IndexKey { section_index: section, index_chunk: 1 })
        .unwrap();
    // Entries take 22 bytes: the first to start in [64, 128) starts at 66.
    assert_eq!(second.first_entry_offset, 66);
    let next = registry.try_resolve_next_index(&IndexKey { section_index: section, index_chunk: 0 });
    assert_eq!(next, Some(second));
}

#[test]
fn mismatched_configuration_is_refused() {
    let (disk, _) = fresh();
    let other = HashTableConfig { page_size: 128, section_count: 4, index_chunk_size: 64 };
    assert!(matches!(open(&disk, other), Err(ErrorKind::InvalidData)));
    let zero = HashTableConfig { page_size: 64, section_count: 0, index_chunk_size: 64 };
    assert!(matches!(open(&Disk::default(), zero), Err(ErrorKind::InvalidInput)));
}

#[test]
fn corrupt_log_height_is_refused() {
    let (mut disk, _) = fresh();
    disk.events_log = 4u64.to_le_bytes().to_vec();
    assert!(matches!(open(&disk, config()), Err(ErrorKind::InvalidData)));
    disk.events_log = 100u64.to_le_bytes().to_vec();
    assert!(matches!(open(&disk, config()), Err(ErrorKind::InvalidData)));
    disk.events_log = vec![1, 2, 3];
    assert!(matches!(open(&disk, config()), Err(ErrorKind::InvalidData)));
}

#[test]
fn full_sync_empties_the_log() {
    let (mut disk, mut store) = fresh();
    store.insert(b"a", b"1").unwrap();
    sync(&mut disk, &mut store);
    let height = u64::from_le_bytes(disk.events_log[0..8].try_into().unwrap());
    assert!(height > 8);
    full_sync(&mut disk, &mut store);
    let height = u64::from_le_bytes(disk.events_log[0..8].try_into().unwrap());
    assert_eq!(height, 8);
    assert_eq!(disk.sections_reg.len(), 4 * 8);
    assert_eq!(disk.pages_reg.len() % 8, 0);
    assert_eq!(disk.indexes_reg.len() % 24, 0);
}

#[test]
fn default_configuration() {
    let c = HashTableConfig::default();
    assert_eq!((c.page_size, c.section_count, c.index_chunk_size), (4096, 1024, 4096));
}

#[test]
fn prefix_hash_reads_first_four_bytes() {
    assert_eq!(hash_key(b"abcdXYZ"), u32::from_le_bytes(*b"abcd"));
    assert_eq!(hash_key(b"ab"), u32::from_le_bytes([b'a', b'b', 0, 0]));
    assert_eq!(hash_key(b""), 0);
    assert_eq!(fingerprint(13, 4), (1, 1u64 << 3));
    assert_eq!(fingerprint(4 * 64 + 4 * 5 + 2, 4), (2, 1u64 << 5));
    assert!(bytes_equal(b"ab", b"ab"));
    assert!(!bytes_equal(b"ab", b"abc"));
}

#[test]
fn inconsistent_section_end_is_refused_on_open() {
    let (mut disk, mut store) = fresh();
    store.insert(b"a", b"1").unwrap();
    full_sync(&mut disk, &mut store);
    let (section, _) = fingerprint(hash_key(b"a"), 4);
    let at = section as usize * 8;
    let end = u64::from_le_bytes(disk.sections_reg[at..at + 8].try_into().unwrap());
    assert_eq!(end, 10);
    disk.sections_reg[at..at + 8].copy_from_slice(&(end + 3).to_le_bytes());
    assert!(matches!(open(&disk, config()), Err(ErrorKind::InvalidData)));
    disk.sections_reg[at..at + 8].copy_from_slice(&end.to_le_bytes());
    assert!(open(&disk, config()).is_ok());
    disk.indexes_reg.clear();
    assert!(matches!(open(&disk, config()), Err(ErrorKind::InvalidData)));
}
