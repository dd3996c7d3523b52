use strand_match::error::ExtractError;
use strand_match::memmap::MemoryMap;
use strand_match::memmap::SectionInput;

fn section(permissions: &str, start: &str, offset: Option<&str>) -> SectionInput {
    SectionInput {
        permissions: Some(String::from(permissions)),
        start_addr: Some(String::from(start)),
        has_contents: offset.is_some(),
        file_offset: offset.map(String::from),
    }
}

#[test]
fn segment_resolution() {
    // segments [(0x1000, 0x0), (0x2000, 0x800)]
    let map = MemoryMap { ghidra_addrs: vec![0x1000, 0x2000], file_offsets: vec![0x0, 0x800] };
    assert_eq!(map.find_segment_idx(0x1500), Ok(0));
    assert_eq!(map.find_segment_idx(0x2500), Ok(1));
    assert_eq!(map.find_segment_idx(0x0500), Err(ExtractError::AddressNotMapped));
    // boundaries resolve to the segment they start
    assert_eq!(map.find_segment_idx(0x1000), Ok(0));
    assert_eq!(map.find_segment_idx(0x2000), Ok(1));
    assert_eq!(map.find_segment_idx(0x1fff), Ok(0));
}

#[test]
fn empty_map_resolves_nothing() {
    let map = MemoryMap { ghidra_addrs: vec![], file_offsets: vec![] };
    assert_eq!(map.find_segment_idx(0x1000), Err(ExtractError::AddressNotMapped));
}

#[test]
fn parse_keeps_executable_sections_with_contents() {
    let sections = vec![
        section("rw", "0x500", Some("0x100")),    // not executable: skipped
        section("rwx", "0x1000", Some("0x0")),
        section("rx", "0x2000", None),            // memory-only: skipped
        section("rx", "0x3000", Some("0x800")),
    ];
    let map = MemoryMap::parse(&sections).unwrap();
    assert_eq!(map.ghidra_addrs, vec![0x1000, 0x3000]);
    assert_eq!(map.file_offsets, vec![0x0, 0x800]);
}

#[test]
fn parse_missing_permissions_fails() {
    let sections = vec![SectionInput {
        permissions: None,
        start_addr: Some(String::from("0x1000")),
        has_contents: true,
        file_offset: Some(String::from("0x0")),
    }];
    assert_eq!(MemoryMap::parse(&sections).err(), Some(ExtractError::MissingField));
}

#[test]
fn parse_missing_start_fails_only_when_executable() {
    let no_start = SectionInput {
        permissions: Some(String::from("rw")),
        start_addr: None,
        has_contents: true,
        file_offset: Some(String::from("0x0")),
    };
    // a non-executable section is skipped before its start address is read
    assert!(MemoryMap::parse(&vec![no_start]).unwrap().ghidra_addrs.is_empty());
    let no_start_exec = SectionInput {
        permissions: Some(String::from("rx")),
        start_addr: None,
        has_contents: true,
        file_offset: Some(String::from("0x0")),
    };
    assert_eq!(MemoryMap::parse(&vec![no_start_exec]).err(), Some(ExtractError::MissingField));
}

#[test]
fn parse_malformed_hex_fails() {
    let sections = vec![section("rx", "zzz", Some("0x0"))];
    assert_eq!(MemoryMap::parse(&sections).err(), Some(ExtractError::MalformedHex));
    let sections = vec![section("rx", "0x1000", Some("nope"))];
    assert_eq!(MemoryMap::parse(&sections).err(), Some(ExtractError::MalformedHex));
}
