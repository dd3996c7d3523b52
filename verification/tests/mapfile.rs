use strand_match::export_mapfile;
use strand_match::function::AsmFunction;
use strand_match::run;

fn func(namespace: &str, name: &str, addr: u32, code: Vec<u32>) -> AsmFunction {
    AsmFunction {
        lib_filename: String::from("lib.xml"),
        namespace: String::from(namespace),
        name: String::from(name),
        ghidra_addr: addr,
        len: (code.len() * 4) as u32,
        code,
    }
}

#[test]
fn full_name_and_hexstring() {
    let f = func("os", "OSInit", 0x80001234, vec![0xdeadbeef]);
    assert_eq!(f.full_name(), "os::OSInit");
    assert_eq!(AsmFunction::hexstring_spaces(0xdeadbeef), "de ad be ef");
    assert_eq!(AsmFunction::hexstring_spaces(0x1), "00 00 00 01");
}

#[test]
fn mapfile_format() {
    let sdk = vec![func("os", "OSInit", 0x1000, vec![0x11, 0x22])];
    let rel = vec![func("rel", "FUN_80021c40", 0x80021c40, vec![0x11, 0x22])];
    let text = export_mapfile(&sdk, &rel, &vec![(0, 0)]);
    assert_eq!(
        text,
        ".text section layout\n\
         80021c40 00000008 80021c40 0 os::OSInit\n\
         \n.data section layout\n"
    );
}

#[test]
fn mapfile_empty() {
    let sdk: Vec<AsmFunction> = vec![];
    let rel: Vec<AsmFunction> = vec![];
    let text = export_mapfile(&sdk, &rel, &vec![]);
    assert_eq!(text, ".text section layout\n\n.data section layout\n");
}

#[test]
fn run_matches_and_serializes() {
    let sdk = vec![func("os", "OSInit", 0x1000, vec![0x11, 0x22, 0x33])];
    let rel = vec![func("rel", "FUN_2000", 0x2000, vec![0x11, 0x22, 0x33])];
    let (result, text) = run(&sdk, &rel);
    assert_eq!(result.confident, vec![(0, 0)]);
    assert!(text.contains("00002000 0000000c 00002000 0 os::OSInit\n"));
}
