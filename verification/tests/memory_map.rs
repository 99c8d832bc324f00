use procmem::common::OffsetType;
use procmem::memory::map::{MemoryPage, MemoryPagePermissions, MemoryPageType};

fn page(from: u64, to: u64, perms: MemoryPagePermissions, offset: u64, page_type: MemoryPageType) -> MemoryPage {
    MemoryPage {
        address_range: [OffsetType::new_unwrap(from), OffsetType::new_unwrap(to)],
        permissions: perms,
        offset,
        page_type,
    }
}

#[test]
fn test_memory_page_merge() {
    let mut left = MemoryPage {
        address_range: [OffsetType::new_unwrap(100), OffsetType::new_unwrap(200)],
        permissions: MemoryPagePermissions::new(true, true, false, true),
        offset: 0,
        page_type: MemoryPageType::Anon,
    };
    let right = MemoryPage {
        address_range: [OffsetType::new_unwrap(200), OffsetType::new_unwrap(300)],
        permissions: MemoryPagePermissions::new(true, false, true, false),
        offset: 100,
        page_type: MemoryPageType::Heap,
    };
    left.try_merge_mut(right).unwrap();

    assert_eq!(
        left,
        MemoryPage {
            address_range: [OffsetType::new_unwrap(100), OffsetType::new_unwrap(300)],
            permissions: MemoryPagePermissions::new(true, false, false, false),
            offset: 0,
            page_type: MemoryPageType::Unknown
        }
    );

    let mut left = MemoryPage {
        address_range: [OffsetType::new_unwrap(400), OffsetType::new_unwrap(500)],
        permissions: MemoryPagePermissions::new(true, true, false, true),
        offset: 400,
        page_type: MemoryPageType::Stack,
    };
    let right = MemoryPage {
        address_range: [OffsetType::new_unwrap(200), OffsetType::new_unwrap(400)],
        permissions: MemoryPagePermissions::new(true, false, true, false),
        offset: 200,
        page_type: MemoryPageType::Stack,
    };
    left.try_merge_mut(right).unwrap();

    assert_eq!(
        left,
        MemoryPage {
            address_range: [OffsetType::new_unwrap(200), OffsetType::new_unwrap(500)],
            permissions: MemoryPagePermissions::new(true, false, false, false),
            offset: 200,
            page_type: MemoryPageType::Stack
        }
    );
}

#[test]
fn test_memory_page_merge_err() {
    let mut left = MemoryPage {
        address_range: [OffsetType::new_unwrap(400), OffsetType::new_unwrap(500)],
        permissions: MemoryPagePermissions::new(true, true, false, true),
        offset: 400,
        page_type: MemoryPageType::Stack,
    };
    let right = MemoryPage {
        address_range: [OffsetType::new_unwrap(200), OffsetType::new_unwrap(300)],
        permissions: MemoryPagePermissions::new(true, false, true, false),
        offset: 200,
        page_type: MemoryPageType::Stack,
    };
    let before = left.clone();
    let back = left.try_merge_mut(right.clone()).unwrap_err();
    assert_eq!(back, right);
    assert_eq!(left, before);
}

#[test]
fn offset_rejects_zero() {
    assert_eq!(OffsetType::new(0), None);
    assert_eq!(OffsetType::new(7).map(|o| o.get()), Some(7));
    assert_eq!(OffsetType::new_unwrap(42).get(), 42);
}

#[test]
fn offset_saturating_add() {
    assert_eq!(OffsetType::new_unwrap(10).saturating_add(5).get(), 15);
    assert_eq!(OffsetType::new_unwrap(u64::MAX - 1).saturating_add(5).get(), u64::MAX);
    assert_eq!(OffsetType::new_unwrap(u64::MAX).saturating_add(0).get(), u64::MAX);
}

#[test]
fn permissions_flags_and_intersection() {
    let p = MemoryPagePermissions::new(true, false, true, false);
    assert!(p.read());
    assert!(!p.write());
    assert!(p.exec());
    assert!(!p.shared());
    let q = MemoryPagePermissions::new(true, true, false, true);
    assert_eq!(p.bitand(q), MemoryPagePermissions::new(true, false, false, false));
}

#[test]
fn page_accessors() {
    let p = page(100, 260, MemoryPagePermissions::new(true, false, false, false), 0, MemoryPageType::Heap);
    assert_eq!(p.start(), OffsetType::new_unwrap(100));
    assert_eq!(p.end(), OffsetType::new_unwrap(260));
    assert_eq!(p.size(), 160);
}

#[test]
fn page_merge_keeps_equal_file_type() {
    let rw = MemoryPagePermissions::new(true, true, false, false);
    let mut left = page(10, 20, rw, 30, MemoryPageType::File(String::from("/lib/a.so")));
    let right = page(15, 40, rw, 20, MemoryPageType::File(String::from("/lib/a.so")));
    left.try_merge_mut(right).unwrap();
    assert_eq!(left, page(10, 40, rw, 20, MemoryPageType::File(String::from("/lib/a.so"))));

    let mut left = page(10, 20, rw, 30, MemoryPageType::File(String::from("/lib/a.so")));
    let right = page(15, 40, rw, 20, MemoryPageType::ProcessExecutable(String::from("/lib/a.so")));
    left.try_merge_mut(right).unwrap();
    assert_eq!(left, page(10, 40, rw, 20, MemoryPageType::Unknown));
}

#[test]
fn page_merge_sorted_three_pages() {
    let pages = vec![
        page(100, 200, MemoryPagePermissions::new(true, true, true, true), 0, MemoryPageType::Anon),
        page(200, 300, MemoryPagePermissions::new(true, false, true, false), 0, MemoryPageType::Heap),
        page(400, 500, MemoryPagePermissions::new(true, true, false, true), 0, MemoryPageType::Stack),
    ];
    let merged = MemoryPage::merge_sorted(pages);
    assert_eq!(
        merged,
        vec![
            page(100, 300, MemoryPagePermissions::new(true, false, true, false), 0, MemoryPageType::Unknown),
            page(400, 500, MemoryPagePermissions::new(true, true, false, true), 0, MemoryPageType::Stack),
        ]
    );
}

#[test]
fn page_merge_sorted_is_idempotent() {
    let rw = MemoryPagePermissions::new(true, true, false, false);
    let r = MemoryPagePermissions::new(true, false, false, false);
    let pages = vec![
        page(1, 5, rw, 0, MemoryPageType::Anon),
        page(3, 9, r, 0, MemoryPageType::Anon),
        page(9, 12, rw, 0, MemoryPageType::Anon),
        page(20, 30, rw, 0, MemoryPageType::Heap),
        page(31, 40, rw, 0, MemoryPageType::Heap),
    ];
    let once = MemoryPage::merge_sorted(pages);
    assert_eq!(
        once,
        vec![
            page(1, 12, r, 0, MemoryPageType::Anon),
            page(20, 30, rw, 0, MemoryPageType::Heap),
            page(31, 40, rw, 0, MemoryPageType::Heap),
        ]
    );
    let twice = MemoryPage::merge_sorted(once.clone());
    assert_eq!(twice, once);
    assert!(MemoryPage::merge_sorted(Vec::new()).is_empty());
}

#[test]
fn page_merge_sorted_keeps_the_covered_addresses_and_narrows_permissions() {
    let rwx = MemoryPagePermissions::new(true, true, true, false);
    let rw = MemoryPagePermissions::new(true, true, false, false);
    let rx = MemoryPagePermissions::new(true, false, true, true);
    let pages = vec![
        page(2, 6, rwx, 0, MemoryPageType::Anon),
        page(4, 9, rw, 0, MemoryPageType::Anon),
        page(9, 11, rx, 0, MemoryPageType::Heap),
        page(14, 18, rw, 0, MemoryPageType::Heap),
        page(15, 16, rwx, 0, MemoryPageType::Heap),
        page(20, 21, rx, 0, MemoryPageType::Stack),
    ];
    let merged = MemoryPage::merge_sorted(pages.clone());
    assert_eq!(merged.len(), 3);
    for address in 1..25u64 {
        let inside = |p: &MemoryPage| p.start().get() <= address && address < p.end().get();
        let in_input: Vec<&MemoryPage> = pages.iter().filter(|p| inside(p)).collect();
        let in_merged: Vec<&MemoryPage> = merged.iter().filter(|p| inside(p)).collect();
        assert_eq!(in_input.is_empty(), in_merged.is_empty());
        assert!(in_merged.len() <= 1);
        for m in in_merged.iter() {
            for p in in_input.iter() {
                assert!(!m.permissions.read() || p.permissions.read());
                assert!(!m.permissions.write() || p.permissions.write());
                assert!(!m.permissions.exec() || p.permissions.exec());
                assert!(!m.permissions.shared() || p.permissions.shared());
            }
        }
    }
    // the permissions of a merged page are those that all its pages share
    assert_eq!(merged[0].permissions, MemoryPagePermissions::new(true, false, false, false));
    assert_eq!(merged[1].permissions, rw);
    assert_eq!(merged[2].permissions, rx);
}
