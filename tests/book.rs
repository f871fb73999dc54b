use datastore::book::{PagerBook, SectionIndex};
use datastore::error::ErrorKind;
use datastore::page_registry::ManagedPageRegistry;
use datastore::pager::{MemoryPager, PageSize, SeekFrom};

fn create_test_book(page_size: PageSize) -> PagerBook {
    PagerBook::new(MemoryPager::new(page_size), ManagedPageRegistry::new())
}

#[test]
fn test_basic_read_write() -> Result<(), ErrorKind> {
    let mut book = create_test_book(1024);
    let mut section = book.section(0);

    section.write(&mut book, b"Hello, World!")?;
    section.rewind();

    let buffer = section.read(&book, 13)?;
    assert_eq!(&buffer, b"Hello, World!");
    Ok(())
}

#[test]
fn test_multi_page_operations() -> Result<(), ErrorKind> {
    let mut book = create_test_book(64);
    let mut section = book.section(0);

    // Write across multiple pages
    let data = vec![42u8; 200];
    let mut offset = 0;
    while offset < data.len() {
        offset += section.write(&mut book, &data[offset..])?;
    }

    // Read back
    section.rewind();
    let mut buffer: Vec<u8> = Vec::new();
    while buffer.len() < 200 {
        let read = section.read(&book, 200 - buffer.len())?;
        if read.is_empty() {
            break;
        }
        buffer.extend_from_slice(&read);
    }
    assert_eq!(buffer, data);
    Ok(())
}

#[test]
fn test_seeking() -> Result<(), ErrorKind> {
    let mut book = create_test_book(1024);
    let mut section = book.section(0);

    section.write(&mut book, b"0123456789ABCDEF")?;

    section.seek(SeekFrom::Start(5))?;
    let buf = section.read(&book, 3)?;
    assert_eq!(&buf, b"567");

    section.seek(SeekFrom::Current(2))?;
    let buf = section.read(&book, 3)?;
    assert_eq!(&buf, b"ABC");

    assert!(section.seek(SeekFrom::End(0)).is_err());
    Ok(())
}

#[test]
fn test_multiple_sections() -> Result<(), ErrorKind> {
    let mut book = create_test_book(1024);

    let mut s0 = book.section(0);
    let mut s1 = book.section(1);

    s0.write(&mut book, b"Section0")?;
    s1.write(&mut book, b"Section1")?;

    s0.rewind();
    s1.rewind();

    let buf = s0.read(&book, 8)?;
    assert_eq!(&buf, b"Section0");

    let buf = s1.read(&book, 8)?;
    assert_eq!(&buf, b"Section1");
    Ok(())
}

#[test]
fn test_sparse_pages() -> Result<(), ErrorKind> {
    let mut book = create_test_book(64);
    let mut section = book.section(0);

    section.write(&mut book, b"Page0")?;
    section.seek(SeekFrom::Start(128))?; // Skip to page 2
    section.write(&mut book, b"Page2")?;

    // Read from different section (unallocated, should be zeros)
    let mut other_section = book.section(1);
    let buf = other_section.read(&book, 5)?;
    assert_eq!(buf, [0u8; 5]);

    // Verify page 0 and 2
    section.seek(SeekFrom::Start(0))?;
    let buf = section.read(&book, 5)?;
    assert_eq!(&buf, b"Page0");

    section.seek(SeekFrom::Start(128))?;
    let buf = section.read(&book, 5)?;
    assert_eq!(&buf, b"Page2");
    Ok(())
}

#[test]
fn test_overwrite() -> Result<(), ErrorKind> {
    let mut book = create_test_book(1024);
    let mut section = book.section(0);

    section.write(&mut book, b"XXXXXXXXXX")?;
    section.seek(SeekFrom::Start(2))?;
    section.write(&mut book, b"YYY")?;

    section.rewind();
    let buf = section.read(&book, 10)?;
    assert_eq!(&buf, b"XXYYYXXXXX");
    Ok(())
}

#[test]
fn test_seek_errors() -> Result<(), ErrorKind> {
    let book = create_test_book(1024);
    let mut section = book.section(0);

    // Overflow
    section.seek(SeekFrom::Start(u64::MAX - 100))?;
    assert!(section.seek(SeekFrom::Current(1000)).is_err());

    // Underflow
    section.seek(SeekFrom::Start(0))?;
    assert!(section.seek(SeekFrom::Current(-10)).is_err());
    assert!(section.seek_relative(-10).is_err());
    Ok(())
}

#[test]
fn test_independent_section_positions() -> Result<(), ErrorKind> {
    let mut book = create_test_book(1024);
    let mut s1 = book.section(0);
    let mut s2 = book.section(0);

    s1.write(&mut book, b"Test")?;
    assert_eq!(s1.stream_position(), 4);
    assert_eq!(s2.stream_position(), 0);

    let buf = s2.read(&book, 2)?;
    assert_eq!(&buf, b"Te");
    assert_eq!(s2.stream_position(), 2);
    assert_eq!(s1.stream_position(), 4);
    Ok(())
}

#[test]
fn test_heavy_sparse_write_read() -> Result<(), ErrorKind> {
    let mut book = create_test_book(8);

    for size in [5, 10].into_iter() {
        for section_index in 0..2 {
            let mut data = vec![0u8; size];
            for i in 0..data.len() {
                data[i] = ((i + section_index) % 256) as u8;
            }

            let mut section = book.section(section_index as SectionIndex);
            section.write_all(&mut book, &data)?;
        }
    }

    for section_index in 0..2 {
        let mut section = book.section(section_index as SectionIndex);

        let mut data = vec![0u8; 10];
        for i in 0..data.len() {
            data[i] = ((i + section_index) % 256) as u8;
        }

        let read_back = section.read_exact(&book, data.len())?;
        assert_eq!(data, read_back);
    }

    Ok(())
}

#[test]
fn shared_section_handles_see_each_others_writes() -> Result<(), ErrorKind> {
    let mut book = create_test_book(64);
    let mut s1 = book.section(3);
    let mut s2 = book.section(3);
    s1.write_all(&mut book, b"AAAA")?;
    let got = s2.read_exact(&book, 4)?;
    assert_eq!(&got, b"AAAA");
    assert_eq!(s1.stream_position(), 4);
    assert_eq!(s2.stream_position(), 4);
    Ok(())
}

#[test]
fn read_is_bounded_by_the_page() -> Result<(), ErrorKind> {
    let mut book = create_test_book(8);
    let mut section = book.section(0);
    section.seek(SeekFrom::Start(6))?;
    assert_eq!(section.write(&mut book, b"abcdef")?, 2);
    section.seek(SeekFrom::Start(6))?;
    assert_eq!(section.read(&book, 100)?, b"ab".to_vec());
    Ok(())
}

#[test]
fn pages_are_assigned_densely_in_order_of_first_write() -> Result<(), ErrorKind> {
    let mut book = create_test_book(4);
    let mut a = book.section(7);
    let mut b = book.section(2);
    a.seek(SeekFrom::Start(8))?;
    a.write_all(&mut book, b"xxxx")?;
    b.write_all(&mut book, b"yyyyyy")?;
    let registry = book.registry();
    assert_eq!(registry.page_count(), 3);
    let journal_len = {
        let mut copy = ManagedPageRegistry::load(&registry.snapshot()).unwrap();
        copy.take_journal().len()
    };
    assert_eq!(journal_len, 0);
    let bytes = registry.snapshot();
    assert_eq!(bytes, vec![7, 0, 0, 0, 2, 0, 0, 0, 2, 0, 0, 0, 0, 0, 0, 0, 2, 0, 0, 0, 1, 0, 0, 0]);
    Ok(())
}

#[test]
fn memory_pager_reads_zeros_past_backed_pages() {
    let pager = MemoryPager::from_bytes(4, &[1, 2, 3, 4, 5]);
    let mut page = pager.page(1);
    assert_eq!(page.read(&pager, 4), vec![5, 0, 0, 0]);
    let mut far = pager.page(9);
    assert_eq!(far.read(&pager, 2), vec![0, 0]);
    assert_eq!(pager.pages().len(), 2);
}

#[test]
fn memory_page_seek_from_end_uses_page_size() {
    let mut pager = MemoryPager::new(16);
    let mut page = pager.page(0);
    assert_eq!(page.seek(&pager, SeekFrom::End(-4)), Ok(12));
    assert_eq!(page.seek(&pager, SeekFrom::End(1)), Err(ErrorKind::InvalidInput));
    assert_eq!(page.stream_position(), 12);
    assert_eq!(page.write(&mut pager, b"abcdefgh"), 4);
    assert_eq!(page.seek(&pager, SeekFrom::Current(-20)), Err(ErrorKind::InvalidInput));
    page.rewind();
    assert_eq!(page.seek_relative(&pager, 12), Ok(()));
    assert_eq!(page.read(&pager, 10), b"abcd".to_vec());
}
