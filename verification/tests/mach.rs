use procmem::memory::map::{MemoryMap, MemoryPagePermissions, MemoryPageType};
use procmem::platform::mach::{
    region_permissions, MachMemoryMap, VM_PROT_EXECUTE, VM_PROT_READ, VM_PROT_WRITE,
};

#[test]
fn region_permissions_from_protection_bits() {
    assert_eq!(
        region_permissions(VM_PROT_READ | VM_PROT_EXECUTE, false),
        MemoryPagePermissions::new(true, false, true, false)
    );
    assert_eq!(
        region_permissions(VM_PROT_WRITE, true),
        MemoryPagePermissions::new(false, true, false, true)
    );
    assert_eq!(region_permissions(0, false), MemoryPagePermissions::new(false, false, false, false));
    assert_eq!(region_permissions(8, false), MemoryPagePermissions::new(false, false, false, false));
}

#[test]
fn region_page_of_a_region() {
    let page = MachMemoryMap::enumerate_next_page(0x1000, 0x2000, 3, false, 64).unwrap();
    assert_eq!(page.start().get(), 0x1000);
    assert_eq!(page.end().get(), 0x3000);
    assert_eq!(page.permissions, MemoryPagePermissions::new(true, true, false, false));
    assert_eq!(page.offset, 64);
    assert_eq!(page.page_type, MemoryPageType::Unknown);
    assert!(MachMemoryMap::enumerate_next_page(0, 0x2000, 3, false, 0).is_none());
    assert!(MachMemoryMap::enumerate_next_page(0x1000, 0, 3, false, 0).is_none());
    assert!(MachMemoryMap::enumerate_next_page(u64::MAX, 1, 3, false, 0).is_none());
    assert_eq!(MachMemoryMap::enumerate_next_page(u64::MAX - 1, 1, 3, false, 0).unwrap().end().get(), u64::MAX);
}

#[test]
fn mach_map_gathers_regions() {
    let mut map = MachMemoryMap::empty();
    assert_eq!(map.next_address(), 0);
    assert!(map.push_region(0x1000, 0x1000, 1, false, 0));
    assert_eq!(map.next_address(), 0x2000);
    assert!(map.push_region(0x4000, 0x1000, 3, true, 0));
    assert_eq!(map.next_address(), 0x5000);
    assert!(!map.push_region(0, 0x1000, 3, true, 0));
    assert_eq!(map.pages().len(), 2);
    assert_eq!(map.next_address(), 0x5000);
}
