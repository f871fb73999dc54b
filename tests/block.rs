use datastore::block::{BlockStorage, BlockStorageError, MemoryBlockStorage, RangeBlockStorage, RangeBlockStorageError};
use datastore::subdivide::SubdiviedBlockStorage;

#[test]
fn test_memory_block_storage() {
    const BLOCK_SIZE: usize = 10;
    const BLOCK_COUNT: usize = 4;

    // prepare data
    let mut data = [0u8; BLOCK_SIZE * BLOCK_COUNT];
    for (i, byte) in data.iter_mut().enumerate() {
        *byte = i as u8;
    }

    // read test
    let storage = MemoryBlockStorage::from_buffer(data.to_vec(), BLOCK_SIZE).unwrap();
    for i in 0..BLOCK_COUNT {
        let block = storage.get_block(i).unwrap();
        let buffer = storage.read(&block, 0, BLOCK_SIZE).unwrap();
        for j in 0..BLOCK_SIZE {
            assert_eq!(buffer[j], (i * BLOCK_SIZE + j) as u8);
        }
    }

    // write test
    let mut storage = storage;
    for i in 0..BLOCK_COUNT {
        let block = storage.get_block(i).unwrap();
        let buffer: Vec<u8> = (0..BLOCK_SIZE).map(|j| 255 - (i * BLOCK_SIZE + j) as u8).collect();
        storage.write(&block, 0, &buffer).unwrap();
    }
    let buffer = storage.try_into_buffer().unwrap();
    for i in 0..(BLOCK_SIZE * BLOCK_COUNT) {
        assert_eq!(buffer[i], 255 - (i as u8));
    }

    // out of bounds test (index)
    let storage = MemoryBlockStorage::from_buffer(buffer, BLOCK_SIZE).unwrap();
    assert!(matches!(storage.get_block(BLOCK_COUNT), Err(BlockStorageError::OutOfBounds)));

    // out of bounds test (buffer)
    let block = storage.get_block(0).unwrap();
    assert!(matches!(storage.read(&block, 0, BLOCK_SIZE + 1), Err(BlockStorageError::OutOfBounds)));
}

#[test]
fn test_subdivided_block_storage_map() {
    let block_size = 10;
    let block_count = 4;
    let subdivided_block_size = 5;

    let storage = MemoryBlockStorage::allocate(block_size, block_count);
    let subdivided = SubdiviedBlockStorage::new(storage, subdivided_block_size).unwrap();

    // Test case 1: Mapping spans multiple storage blocks
    let mapped_entries = subdivided.map(1, 15).unwrap();
    assert_eq!(mapped_entries.len(), 2);

    assert_eq!(mapped_entries[0].block_index, 0);
    assert_eq!(mapped_entries[0].block_range, 5..10);
    assert_eq!(mapped_entries[0].buffer_range, 0..5);

    assert_eq!(mapped_entries[1].block_index, 1);
    assert_eq!(mapped_entries[1].block_range, 0..10);
    assert_eq!(mapped_entries[1].buffer_range, 5..15);

    // Test case 2: Mapping starts at storage block boundary
    let mapped_entries = subdivided.map(0, 10).unwrap();
    assert_eq!(mapped_entries.len(), 1);
    assert_eq!(mapped_entries[0].block_index, 0);
    assert_eq!(mapped_entries[0].block_range, 0..10);
    assert_eq!(mapped_entries[0].buffer_range, 0..10);

    // Test case 3: Mapping within a single storage block
    let mapped_entries = subdivided.map(0, 5).unwrap();
    assert_eq!(mapped_entries.len(), 1);
    assert_eq!(mapped_entries[0].block_index, 0);
    assert_eq!(mapped_entries[0].block_range, 0..5);
    assert_eq!(mapped_entries[0].buffer_range, 0..5);

    // Test case 4: Mapping ends at storage block boundary
    let mapped_entries = subdivided.map(0, 20).unwrap();
    assert_eq!(mapped_entries.len(), 2);
    assert_eq!(mapped_entries[0].block_index, 0);
    assert_eq!(mapped_entries[0].block_range, 0..10);
    assert_eq!(mapped_entries[0].buffer_range, 0..10);
    assert_eq!(mapped_entries[1].block_index, 1);
    assert_eq!(mapped_entries[1].block_range, 0..10);
    assert_eq!(mapped_entries[1].buffer_range, 10..20);

    // Test case 5: Mapping spans three storage blocks
    let mapped_entries = subdivided.map(1, 25).unwrap();
    assert_eq!(mapped_entries.len(), 3);
    assert_eq!(mapped_entries[0].block_index, 0);
    assert_eq!(mapped_entries[0].block_range, 5..10);
    assert_eq!(mapped_entries[0].buffer_range, 0..5);
    assert_eq!(mapped_entries[1].block_index, 1);
    assert_eq!(mapped_entries[1].block_range, 0..10);
    assert_eq!(mapped_entries[1].buffer_range, 5..15);
    assert_eq!(mapped_entries[2].block_index, 2);
    assert_eq!(mapped_entries[2].block_range, 0..10);
    assert_eq!(mapped_entries[2].buffer_range, 15..25);

    // Test case 6: Single subdivided block in the middle of storage block
    let mapped_entries = subdivided.map(1, 5).unwrap();
    assert_eq!(mapped_entries.len(), 1);
    assert_eq!(mapped_entries[0].block_index, 0);
    assert_eq!(mapped_entries[0].block_range, 5..10);
    assert_eq!(mapped_entries[0].buffer_range, 0..5);

    // Test case 7: Mapping at the end of available space
    let mapped_entries = subdivided.map(6, 10).unwrap();
    assert_eq!(mapped_entries.len(), 1);
    assert_eq!(mapped_entries[0].block_index, 3);
    assert_eq!(mapped_entries[0].block_range, 0..10);
    assert_eq!(mapped_entries[0].buffer_range, 0..10);
}

#[test]
fn test_subdivided_block_storage() {
    let block_size = 10;
    let block_count = 10;
    let subdivided_block_size = 5;

    // prepare data
    let mut data = vec![0u8; block_size * block_count];
    for (i, byte) in data.iter_mut().enumerate() {
        *byte = i as u8;
    }

    let storage = MemoryBlockStorage::from_buffer(data.clone(), block_size).unwrap();
    let subdivided = SubdiviedBlockStorage::new(storage, subdivided_block_size).unwrap();

    // test block_count
    assert_eq!(subdivided.block_count(), (block_size * block_count) / subdivided_block_size);

    // read test - read 2 blocks starting at index 1
    let buffer = subdivided.read_blocks(1, subdivided_block_size * 2).unwrap();
    assert_eq!(buffer, data[subdivided_block_size * 1..subdivided_block_size * 3]);

    // write test - write 2 blocks starting at index 1
    let storage = MemoryBlockStorage::from_buffer(data.clone(), block_size).unwrap();
    let mut subdivided = SubdiviedBlockStorage::new(storage, subdivided_block_size).unwrap();
    let write_data = vec![100u8; subdivided_block_size * 2];
    subdivided.write_blocks(1, &write_data).unwrap();
    let buffer = subdivided.into_inner().read_blocks(0, block_size * block_count).unwrap();
    data[subdivided_block_size * 1..subdivided_block_size * 3].copy_from_slice(&write_data);
    assert_eq!(buffer, data);

    // out of bounds test (index)
    let storage = MemoryBlockStorage::from_buffer(data.clone(), block_size).unwrap();
    let subdivided = SubdiviedBlockStorage::new(storage, subdivided_block_size).unwrap();
    let result = subdivided.read_blocks(subdivided.block_count(), buffer.len());
    assert!(matches!(result, Err(BlockStorageError::OutOfBounds)));

    // out of bounds test (size)
    let result = subdivided.read_blocks(0, (subdivided.block_count() + 1) * subdivided_block_size);
    assert!(matches!(result, Err(BlockStorageError::OutOfBounds)));
}

#[test]
fn misaligned_sizes_are_refused() {
    assert!(MemoryBlockStorage::from_buffer(vec![0u8; 15], 10).is_err());
    let storage = MemoryBlockStorage::allocate(10, 2);
    assert!(matches!(SubdiviedBlockStorage::new(storage, 3), Err(BlockStorageError::BufferSizeMisalignment)));
    let storage = MemoryBlockStorage::allocate(10, 2);
    assert!(matches!(storage.read_blocks(0, 7), Err(BlockStorageError::BufferSizeMisalignment)));
}

#[test]
fn range_storage_sees_its_blocks_only() {
    let mut data = vec![0u8; 40];
    for (i, b) in data.iter_mut().enumerate() {
        *b = i as u8;
    }
    let storage = MemoryBlockStorage::from_buffer(data, 10).unwrap();
    assert!(matches!(RangeBlockStorage::new(storage, 3..5), Err(RangeBlockStorageError::InvalidRange)));
    let storage = MemoryBlockStorage::allocate(10, 4);
    let mut range = match RangeBlockStorage::new(storage, 1..3) {
        Ok(r) => r,
        Err(_) => panic!("range refused"),
    };
    assert_eq!(range.block_count(), 2);
    assert_eq!(range.block_size(), 10);
    range.write_blocks(1, &[7u8; 10]).unwrap();
    assert!(matches!(range.read_blocks(2, 10), Err(BlockStorageError::OutOfBounds)));
    let inner = range.into_inner();
    let all = inner.read_blocks(0, 40).unwrap();
    assert_eq!(&all[20..30], &[7u8; 10]);
    assert_eq!(&all[0..20], &[0u8; 20]);
}
