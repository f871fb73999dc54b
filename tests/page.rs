use datastore::block::MemoryBlockStorage;
use datastore::page::{FastPageStorage, PageStorageError};

#[test]
fn test_page_storage() {
    let header = [0u8; 16];
    let pages = [0u8; 512];

    let header = MemoryBlockStorage::from_buffer(header.to_vec(), 8).unwrap();
    let pages = MemoryBlockStorage::from_buffer(pages.to_vec(), 64).unwrap();

    let mut page_storage = match FastPageStorage::new(header, pages) {
        Ok(s) => s,
        Err(e) => panic!("{:?}", e),
    };

    // write page
    let page = page_storage.get_page(0).unwrap();
    let write_data = vec![1u8; 64 - 3];
    page_storage.write(&page, &write_data).unwrap();
    assert_eq!(page_storage.occupied_size(&page).unwrap(), write_data.len());

    // append page
    let page = page_storage.get_page(0).unwrap();
    let append_data = vec![2u8; 2];
    page_storage.append(&page, &append_data).unwrap();
    assert_eq!(page_storage.occupied_size(&page).unwrap(), write_data.len() + append_data.len());

    // read page
    let page = page_storage.get_page(0).unwrap();
    let buffer = page_storage.read(&page, 0, write_data.len() + append_data.len()).unwrap();
    assert_eq!(&buffer[..write_data.len()], &write_data[..]);
    assert_eq!(&buffer[write_data.len()..], &append_data[..]);

    // override page
    let page = page_storage.get_page(0).unwrap();
    let override_data = vec![3u8; 3];
    page_storage.write(&page, &override_data).unwrap();
    assert_eq!(page_storage.occupied_size(&page).unwrap(), override_data.len());
    let buffer = page_storage.read(&page, 0, override_data.len()).unwrap();
    assert_eq!(&buffer[..override_data.len()], &override_data[..]);

    // page size exceeds
    let page = page_storage.get_page(0).unwrap();
    let large_data = vec![4u8; 64 + 1];
    assert!(matches!(page_storage.write(&page, &large_data), Err(PageStorageError::PageSizeExceeds)));
    assert!(matches!(page_storage.append(&page, &large_data), Err(PageStorageError::PageSizeExceeds)));

    // out of bounds read
    let page = page_storage.get_page(0).unwrap();
    assert!(matches!(page_storage.read(&page, override_data.len(), 1), Err(PageStorageError::OutOfBounds)));
    assert!(matches!(page_storage.read(&page, 0, override_data.len() + 1), Err(PageStorageError::OutOfBounds)));
}

#[test]
fn page_count_is_bounded_by_both_storages() {
    let header = MemoryBlockStorage::allocate(4, 1);
    let pages = MemoryBlockStorage::allocate(16, 8);
    let storage = match FastPageStorage::new(header, pages) {
        Ok(s) => s,
        Err(e) => panic!("{:?}", e),
    };
    assert_eq!(storage.page_count(), 2);
    assert_eq!(storage.page_size(), 16);
    assert!(matches!(storage.get_page(2), Err(PageStorageError::OutOfBounds)));
    let odd = MemoryBlockStorage::allocate(3, 2);
    let pages = MemoryBlockStorage::allocate(16, 8);
    assert!(matches!(FastPageStorage::new(odd, pages), Err(PageStorageError::InvalidHeaderSize)));
    let header = MemoryBlockStorage::allocate(4, 1);
    let big = MemoryBlockStorage::allocate(70000, 1);
    assert!(matches!(FastPageStorage::new(header, big), Err(PageStorageError::PageSizeExceeds)));
}

#[test]
fn append_fills_a_page_and_free_size_follows() {
    let header = MemoryBlockStorage::allocate(4, 1);
    let pages = MemoryBlockStorage::allocate(8, 2);
    let mut storage = match FastPageStorage::new(header, pages) {
        Ok(s) => s,
        Err(e) => panic!("{:?}", e),
    };
    let page = storage.get_page(1).unwrap();
    assert_eq!(storage.free_size(&page).unwrap(), 8);
    storage.append(&page, b"abc").unwrap();
    storage.append(&page, b"defgh").unwrap();
    assert_eq!(storage.free_size(&page).unwrap(), 0);
    assert_eq!(storage.read(&page, 2, 4).unwrap(), b"cdef".to_vec());
    let other = storage.get_page(0).unwrap();
    assert_eq!(storage.occupied_size(&other).unwrap(), 0);
}
