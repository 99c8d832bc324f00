use procmem::common::OffsetType;
use procmem::memory::map::{MemoryMap, MemoryPage, MemoryPagePermissions, MemoryPageType};
use procmem::platform::procfs::map::{
    chars_of, IntegerParseError, MemoryPageParseError,
    MemoryPagePermissionsParseError, ProcfsMemoryMap, ProcfsMemoryMapLoadError,
};

#[test]
fn test_procfs_maps_parse() {
    let line = "1f0-20f rw-p 0 00:00 0 [heap]";

    let value = ProcfsMemoryMap::parse_map_line(line, None).unwrap();
    assert_eq!(
        value,
        MemoryPage {
            address_range: [OffsetType::new_unwrap(496), OffsetType::new_unwrap(527)],
            permissions: MemoryPagePermissions::new(true, true, false, false),
            offset: 0,
            page_type: MemoryPageType::Heap
        }
    );
}

fn type_of(line: &str, exe: Option<&str>) -> MemoryPageType {
    ProcfsMemoryMap::parse_map_line(line, exe).unwrap().page_type
}

#[test]
fn procfs_page_types() {
    assert_eq!(type_of("10-20 r-xp 0 00:00 0 [stack]", None), MemoryPageType::Stack);
    assert_eq!(type_of("10-20 r-xp 0 00:00 0 [vdso]", None), MemoryPageType::Unknown);
    assert_eq!(type_of("10-20 r-xp 0 00:00 0 ", None), MemoryPageType::Anon);
    assert_eq!(type_of("10-20 r-xp 0 00:00 0    ", None), MemoryPageType::Anon);
    assert_eq!(
        type_of("10-20 r-xp 0 00:00 0 /tmp/gone (deleted)", None),
        MemoryPageType::Unknown
    );
    assert_eq!(
        type_of("10-20 r-xp 0 00:00 0 /tmp/gone(deleted)", None),
        MemoryPageType::File(String::from("/tmp/gone(deleted)"))
    );
    assert_eq!(
        type_of("10-20 r-xp 0 08:01 7      /usr/lib/libc.so", Some("/usr/bin/cat")),
        MemoryPageType::File(String::from("/usr/lib/libc.so"))
    );
    assert_eq!(
        type_of("10-20 r-xs 4096 08:01 7 /usr/bin/cat", Some("/usr/bin/cat")),
        MemoryPageType::ProcessExecutable(String::from("/usr/bin/cat"))
    );
    assert_eq!(
        type_of("10-20 r-xs 4096 08:01 7 /usr/bin/my cat ", None),
        MemoryPageType::File(String::from("/usr/bin/my cat"))
    );
    assert_eq!(
        type_of("10-20 r-xs 4096 08:01 7 /home/zoë/bin", None),
        MemoryPageType::File(String::from("/home/zoë/bin"))
    );
}

#[test]
fn procfs_fields() {
    let page = ProcfsMemoryMap::parse_map_line("7FfE0000-7fFf0000 -wxs 4096 08:01 7 /x", None).unwrap();
    assert_eq!(page.start().get(), 0x7ffe0000);
    assert_eq!(page.end().get(), 0x7fff0000);
    assert_eq!(page.permissions, MemoryPagePermissions::new(false, true, true, true));
    assert_eq!(page.offset, 4096);
    // what follows a second dash in the range is not looked at
    let page = ProcfsMemoryMap::parse_map_line("10-20-zz r--p 0 0 0 ", None).unwrap();
    assert_eq!((page.start().get(), page.end().get()), (16, 32));
    // the largest address
    let page = ProcfsMemoryMap::parse_map_line("1-ffffffffffffffff r--p 18446744073709551615 0 0 ", None).unwrap();
    assert_eq!(page.end().get(), u64::MAX);
    assert_eq!(page.offset, u64::MAX);
}

#[test]
fn procfs_errors() {
    let err = |line: &str| ProcfsMemoryMap::parse_map_line(line, None).unwrap_err();
    assert_eq!(err(""), MemoryPageParseError::ParseUsize(IntegerParseError::Empty));
    assert_eq!(err("1f0"), MemoryPageParseError::InvalidRange);
    assert_eq!(err("1g0-20f"), MemoryPageParseError::ParseUsize(IntegerParseError::InvalidDigit));
    assert_eq!(err("1f0-"), MemoryPageParseError::ParseUsize(IntegerParseError::Empty));
    assert_eq!(
        err("1-10000000000000000 r--p 0 0 0 "),
        MemoryPageParseError::ParseUsize(IntegerParseError::Overflow)
    );
    assert_eq!(err("0-20f rw-p 0 00:00 0 "), MemoryPageParseError::InvalidRange);
    assert_eq!(err("20f-20f rw-p 0 00:00 0 "), MemoryPageParseError::InvalidRange);
    assert_eq!(err("20f-1f0 rw-p 0 00:00 0 "), MemoryPageParseError::InvalidRange);
    assert_eq!(err("1f0-20f"), MemoryPageParseError::InvalidPerms);
    assert_eq!(
        err("1f0-20f Rw-p 0 00:00 0 "),
        MemoryPageParseError::ParseMapPerms(MemoryPagePermissionsParseError::InvalidRead(Some('R')))
    );
    assert_eq!(
        err("1f0-20f r"),
        MemoryPageParseError::ParseMapPerms(MemoryPagePermissionsParseError::InvalidWrite(None))
    );
    assert_eq!(
        err("1f0-20f rwyp 0"),
        MemoryPageParseError::ParseMapPerms(MemoryPagePermissionsParseError::InvalidExec(Some('y')))
    );
    assert_eq!(
        err("1f0-20f rwx- 0"),
        MemoryPageParseError::ParseMapPerms(MemoryPagePermissionsParseError::InvalidShare(Some('-')))
    );
    assert_eq!(err("1f0-20f rw-p"), MemoryPageParseError::InvalidOffset);
    assert_eq!(
        err("1f0-20f rw-p 1f 00:00 0 "),
        MemoryPageParseError::ParseUsize(IntegerParseError::InvalidDigit)
    );
    assert_eq!(err("1f0-20f rw-p 0"), MemoryPageParseError::InvalidDevnode);
    assert_eq!(err("1f0-20f rw-p 0 00:00"), MemoryPageParseError::InvalidInode);
    assert_eq!(err("1f0-20f rw-p 0 00:00 0"), MemoryPageParseError::InvalidEntry);
}

#[test]
fn procfs_map_from_lines() {
    let lines = vec![
        String::from("1000-2000 r-xp 0 08:01 7 /usr/bin/cat"),
        String::from("2000-3000 rw-p 0 00:00 0 [heap]"),
        String::from("7000-9000 rw-p 0 00:00 0 [stack]"),
    ];
    let map = ProcfsMemoryMap::from_lines(42, &lines, Some("/usr/bin/cat")).unwrap();
    assert_eq!(map.pid(), 42);
    assert_eq!(map.pages().len(), 3);
    assert_eq!(
        map.pages()[0].page_type,
        MemoryPageType::ProcessExecutable(String::from("/usr/bin/cat"))
    );
    assert_eq!(
        map.containing_page(OffsetType::new_unwrap(0x2000)).map(|p| p.page_type.clone()),
        Some(MemoryPageType::Heap)
    );
    assert_eq!(
        map.containing_page(OffsetType::new_unwrap(0x8fff)).map(|p| p.start().get()),
        Some(0x7000)
    );
    assert!(map.containing_page(OffsetType::new_unwrap(0x9000)).is_none());
    assert!(map.containing_page(OffsetType::new_unwrap(0x3000)).is_none());
    assert!(map.containing_page(OffsetType::new_unwrap(1)).is_none());

    let bad = vec![String::from("1000-2000 r-xp 0 08:01 7 /x"), String::from("nonsense")];
    assert_eq!(
        ProcfsMemoryMap::from_lines(1, &bad, None).map(|m| m.pid()),
        Err(ProcfsMemoryMapLoadError::MemoryPageParseError(MemoryPageParseError::ParseUsize(
            IntegerParseError::InvalidDigit
        )))
    );
}

#[test]
fn chars_of_text() {
    assert_eq!(chars_of("aß→c"), vec!['a', 'ß', '→', 'c']);
    assert!(chars_of("").is_empty());
}

#[test]
fn procfs_fields_are_trimmed_of_white_space() {
    let page = ProcfsMemoryMap::parse_map_line("10-20 \trw-p\u{3000} 0 0 0 \u{a0}\t[heap]\u{2003}\n", None).unwrap();
    assert_eq!(page.permissions, MemoryPagePermissions::new(true, true, false, false));
    assert_eq!(page.page_type, MemoryPageType::Heap);
    assert_eq!(
        type_of("10-20 r--p 0 0 0 \u{2028}/a b\u{85}", None),
        MemoryPageType::File(String::from("/a b"))
    );
    assert_eq!(type_of("10-20 r--p 0 0 0 \u{1680}\u{205f}\u{202f}\u{2029}", None), MemoryPageType::Anon);
    // a character that is no white space stays
    assert_eq!(
        type_of("10-20 r--p 0 0 0 \u{200b}[heap]", None),
        MemoryPageType::File(String::from("\u{200b}[heap]"))
    );
    assert_eq!(
        ProcfsMemoryMap::parse_map_line("10-20 \t 0 0 0 ", None).unwrap_err(),
        MemoryPageParseError::ParseMapPerms(MemoryPagePermissionsParseError::InvalidRead(None))
    );
    // the line agrees with what std trims
    for c in ['\u{9}', '\u{b}', '\u{c}', '\u{d}', '\u{2000}', '\u{200a}', '\u{200b}', '\u{feff}', '_'] {
        let line = format!("10-20 r--p 0 0 0 {}x{}", c, c);
        let expected = format!("{}x{}", c, c).trim().to_string();
        assert_eq!(type_of(&line, None), MemoryPageType::File(expected));
    }
}
