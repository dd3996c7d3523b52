use strand_match::derive_namespace;
use strand_match::error::ExtractError;

#[test]
fn simple_extensions() {
    assert_eq!(derive_namespace("/foo.rel").unwrap(), "foo");
    assert_eq!(derive_namespace("/foo.dol").unwrap(), "foo");
    assert_eq!(derive_namespace("/foo.a").unwrap(), "foo");
}

#[test]
fn full_path() {
    assert_eq!(
        derive_namespace("file:///export/wii-sdk/OSModule.a/OSModule.o").unwrap(),
        "OSModule"
    );
    assert_eq!(derive_namespace("/some/path/mkb2.main_loop.rel").unwrap(), "mkb2.main_loop");
}

#[test]
fn dots_kept_extension_stripped() {
    // the name segment is taken greedily: inner dots stay, the last matching
    // extension dot is stripped
    assert_eq!(derive_namespace("/foo.bar.rel").unwrap(), "foo.bar");
    assert_eq!(derive_namespace("/a.rel.dol").unwrap(), "a.rel");
}

#[test]
fn leftmost_match_wins() {
    assert_eq!(derive_namespace("/first.rel/second.rel").unwrap(), "first");
    // the first slash whose segment matches wins, not the first slash
    assert_eq!(derive_namespace("/nomatch/yes.dol").unwrap(), "yes");
}

#[test]
fn unparsable_paths() {
    assert_eq!(derive_namespace(""), Err(ExtractError::NamespaceUnparsable));
    assert_eq!(derive_namespace("foo.rel"), Err(ExtractError::NamespaceUnparsable));
    assert_eq!(derive_namespace("/foo.txt"), Err(ExtractError::NamespaceUnparsable));
    assert_eq!(derive_namespace("/.rel"), Err(ExtractError::NamespaceUnparsable));
    assert_eq!(derive_namespace("/foo"), Err(ExtractError::NamespaceUnparsable));
}

#[test]
fn extension_needs_its_dot_letters() {
    // "a" as an extension letter matches even when more letters follow
    assert_eq!(derive_namespace("/lib.archive").unwrap(), "lib");
    // "re" alone is not an extension, but the dot-run keeps searching left
    assert_eq!(derive_namespace("/x.re"), Err(ExtractError::NamespaceUnparsable));
}
