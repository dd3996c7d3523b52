use strand_match::error::ExtractError;
use strand_match::extract::extract_module;
use strand_match::extract::FunctionInput;
use strand_match::extract::ModuleInput;
use strand_match::memmap::SectionInput;

fn section(permissions: &str, start: &str, offset: Option<&str>) -> SectionInput {
    SectionInput {
        permissions: Some(String::from(permissions)),
        start_addr: Some(String::from(start)),
        has_contents: offset.is_some(),
        file_offset: offset.map(String::from),
    }
}

fn function(name: &str, start: &str, end: &str) -> FunctionInput {
    FunctionInput {
        name: Some(String::from(name)),
        has_range: true,
        start: Some(String::from(start)),
        end: Some(String::from(end)),
    }
}

/// A module with one executable segment at 0x1000 mapped to file offset 4,
/// three words of code there, and a relocation pointing into the second word.
fn sample_module() -> ModuleInput {
    let mut image = vec![0xde, 0xad, 0xbe, 0xef]; // padding before the segment
    image.extend_from_slice(&[
        0x00, 0x00, 0x00, 0x11, // word at 0x1000
        0x00, 0x00, 0x00, 0x22, // word at 0x1004 (relocated)
        0x00, 0x00, 0x00, 0x33, // word at 0x1008
    ]);
    ModuleInput {
        program_name: Some(String::from("mod.xml")),
        fsrl: Some(String::from("file:///sdk/libfoo.a/foo.o")),
        sections: Some(vec![section("rx", "0x1000", Some("0x4"))]),
        // points at a byte inside the second instruction word
        relocations: Some(vec![Some(String::from("0x1006"))]),
        functions: Some(vec![function("my_func", "0x1000", "0x100b")]),
        image,
    }
}

#[test]
fn extracts_and_masks() {
    let records = extract_module(&sample_module()).unwrap();
    assert_eq!(records.len(), 1);
    let rec = &records[0];
    assert_eq!(rec.lib_filename, "mod.xml");
    assert_eq!(rec.namespace, "libfoo");
    assert_eq!(rec.name, "my_func");
    assert_eq!(rec.ghidra_addr, 0x1000);
    assert_eq!(rec.len, 12);
    // the relocated word is masked to the sentinel 0
    assert_eq!(rec.code, vec![0x11, 0x00, 0x33]);
}

#[test]
fn thunk_is_skipped() {
    let mut module = sample_module();
    module.functions = Some(vec![
        function("thunk", "0x1000", "0x1000"),
        function("real", "0x1000", "0x100b"),
    ]);
    let records = extract_module(&module).unwrap();
    assert_eq!(records.len(), 1);
    assert_eq!(records[0].name, "real");
}

#[test]
fn missing_fields_fail() {
    let mut module = sample_module();
    module.program_name = None;
    assert_eq!(extract_module(&module).err(), Some(ExtractError::MissingField));

    let mut module = sample_module();
    module.relocations = None;
    assert_eq!(extract_module(&module).err(), Some(ExtractError::MissingField));

    let mut module = sample_module();
    module.functions = Some(vec![FunctionInput {
        name: None,
        has_range: true,
        start: Some(String::from("0x1000")),
        end: Some(String::from("0x100b")),
    }]);
    assert_eq!(extract_module(&module).err(), Some(ExtractError::MissingField));

    let mut module = sample_module();
    module.functions = Some(vec![FunctionInput {
        name: Some(String::from("f")),
        has_range: false,
        start: None,
        end: None,
    }]);
    assert_eq!(extract_module(&module).err(), Some(ExtractError::MissingField));
}

#[test]
fn namespace_unparsable_fails() {
    let mut module = sample_module();
    module.fsrl = Some(String::from("no pattern here"));
    assert_eq!(extract_module(&module).err(), Some(ExtractError::NamespaceUnparsable));
}

#[test]
fn unmapped_address_fails() {
    let mut module = sample_module();
    module.functions = Some(vec![function("below", "0x500", "0x50b")]);
    assert_eq!(extract_module(&module).err(), Some(ExtractError::AddressNotMapped));
}

#[test]
fn malformed_function_hex_fails() {
    let mut module = sample_module();
    module.functions = Some(vec![function("bad", "0xQQ", "0x100b")]);
    assert_eq!(extract_module(&module).err(), Some(ExtractError::MalformedHex));
}

#[test]
fn code_outside_image_fails() {
    let mut module = sample_module();
    // the range resolves past the end of the 16-byte image
    module.functions = Some(vec![function("long", "0x1000", "0x10ff")]);
    assert_eq!(extract_module(&module).err(), Some(ExtractError::Io));
}

#[test]
fn relocation_alignment() {
    // relocations at any byte of a word mask that whole word and no other
    let mut module = sample_module();
    module.relocations = Some(vec![Some(String::from("0x100b"))]);
    let records = extract_module(&module).unwrap();
    assert_eq!(records[0].code, vec![0x11, 0x22, 0x00]);
}
