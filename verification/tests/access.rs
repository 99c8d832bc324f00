use procmem::common::OffsetType;
use procmem::memory::access::{MemoryAccess, MemoryImage, ReadError, WriteError};
use procmem::memory::map::{MemoryMap, MemoryPage};
use procmem::platform::procfs::map::ProcfsMemoryMap;
use procmem::scan::predicate::value::ValuePredicate;
use procmem::scan::stream::StreamScanner;

fn at(offset: u64) -> OffsetType {
    OffsetType::new_unwrap(offset)
}

#[test]
fn image_reads_what_it_holds() {
    let mut image = MemoryImage::new(at(100), vec![1, 2, 3, 4, 5]);
    assert_eq!(image.read(at(100), 5), Ok(vec![1, 2, 3, 4, 5]));
    assert_eq!(image.read(at(102), 2), Ok(vec![3, 4]));
    assert_eq!(image.read(at(105), 0), Ok(vec![]));
    assert_eq!(image.read(at(99), 2), Err(ReadError::NotPermitted));
    assert_eq!(image.read(at(103), 3), Err(ReadError::NotPermitted));
    assert_eq!(image.read(at(106), 0), Err(ReadError::NotPermitted));
    assert_eq!(image.read(at(100), usize::MAX), Err(ReadError::NotPermitted));
}

#[test]
fn image_writes_within_its_range_only() {
    let mut image = MemoryImage::new(at(100), vec![1, 2, 3, 4, 5]);
    assert_eq!(image.write(at(101), &[9, 8]), Ok(()));
    assert_eq!(image.read(at(100), 5), Ok(vec![1, 9, 8, 4, 5]));
    assert_eq!(image.write(at(104), &[7, 7]), Err(WriteError::NotPermitted));
    assert_eq!(image.write(at(99), &[7]), Err(WriteError::NotPermitted));
    assert_eq!(image.read(at(100), 5), Ok(vec![1, 9, 8, 4, 5]));
    assert_eq!(image.write(at(105), &[]), Ok(()));
}

#[test]
fn pages_of_an_image_are_scanned_one_by_one() {
    let lines = vec![
        String::from("10-18 rw-p 0 00:00 0 [heap]"),
        String::from("18-20 rw-p 0 00:00 0 [heap]"),
        String::from("30-38 r--p 0 00:00 0 [stack]"),
    ];
    let map = ProcfsMemoryMap::from_lines(1, &lines, None).unwrap();
    let pages = MemoryPage::merge_sorted(map.pages().to_vec());
    assert_eq!(pages.len(), 2);

    let mut bytes = vec![0u8; 0x28];
    bytes[0x06..0x0a].copy_from_slice(&[0xCA, 0xFE, 0xCA, 0xFE]);
    bytes[0x0f] = 0xCA;
    bytes[0x20] = 0xFE;
    bytes[0x26..0x28].copy_from_slice(&[0xCA, 0xFE]);
    let mut image = MemoryImage::new(at(0x10), bytes);

    let mut scanner = StreamScanner::new(ValuePredicate::new(vec![0xCAu8, 0xFE], false));
    let mut found = Vec::new();
    for page in pages.iter() {
        let data = image.read(page.start(), page.size() as usize).unwrap();
        found.extend(scanner.scan_once(page.start(), &data));
    }
    // the pair that straddles the gap between the pages is no match
    assert_eq!(found, vec![(at(0x16), 2), (at(0x18), 2), (at(0x36), 2)]);
}
