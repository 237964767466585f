use deno_panic::vlq::encode_offsets;
use deno_panic::symbolicate::{create_symcache, frame_location, symbolicate_addrs, SymbolCache, SymbolMatch, SymbolicateError};

#[test]
fn invalid_cache_bytes_fail() {
    let r = SymbolCache::parse(b"not a symcache at all");
    assert!(matches!(r, Err(SymbolicateError::Cache(_))));
}

#[test]
fn empty_cache_bytes_fail() {
    let r = SymbolCache::parse(b"");
    assert!(matches!(r, Err(SymbolicateError::Cache(_))));
}

#[test]
fn unknown_debug_file_fails() {
    let r = create_symcache(b"this is not an object file of any kind");
    assert!(matches!(r, Err(SymbolicateError::Object(_))));
}

#[test]
fn fat_archive_without_single_slice_is_rejected() {
    let mut data = vec![0xca, 0xfe, 0xba, 0xbe, 0, 0, 0, 0];
    data.extend_from_slice(&[0u8; 24]);
    let r = create_symcache(&data);
    assert!(matches!(r, Err(SymbolicateError::FatArchive)));
}

#[test]
fn frame_location_with_file() {
    let m = SymbolMatch { name: "_ZN3foo3barE".to_string(), language: 7, file: Some("/src/foo.rs".to_string()), line: 42 };
    let loc = frame_location(&m, "foo::bar".to_string(), "Rust".to_string());
    assert_eq!(loc.demangled_name, "foo::bar");
    assert_eq!(loc.name, "_ZN3foo3barE");
    assert_eq!(loc.language, "Rust");
    assert_eq!(loc.full_path, "/src/foo.rs");
    assert_eq!(loc.line, 42);
}

#[test]
fn frame_location_without_file_uses_sentinel() {
    let m = SymbolMatch { name: "main".to_string(), language: 1, file: None, line: 0 };
    let loc = frame_location(&m, "main".to_string(), "C".to_string());
    assert_eq!(loc.full_path, "<unknown file>");
    assert_eq!(loc.line, 0);
    assert_eq!(loc.name, "main");
}

const BREAKPAD: &str = "MODULE Linux x86_64 492E2DD23CC306CA9C494EEF1533A3810 crash\n\
FILE 0 /src/lib.rs\n\
FUNC 1000 20 0 _ZN3foo3bar17h0123456789abcdefE\n\
1000 10 42 0\n\
1010 10 43 0\n\
FUNC 2000 10 0 _ZN3baz3quxEv\n\
2000 10 7 0\n";

fn breakpad_cache() -> Vec<u8> {
    match create_symcache(BREAKPAD.as_bytes()) {
        Ok(bytes) => bytes,
        Err(_) => panic!("a single-module symbol file builds a cache"),
    }
}

#[test]
fn empty_trace_resolves_to_no_frames() {
    let bytes = breakpad_cache();
    let cache = match SymbolCache::parse(&bytes) {
        Ok(c) => c,
        Err(_) => panic!("a built cache parses"),
    };
    assert!(symbolicate_addrs(b"", &cache).is_empty());
}

#[test]
fn trace_resolves_against_built_cache() {
    let bytes = breakpad_cache();
    let cache = match SymbolCache::parse(&bytes) {
        Ok(c) => c,
        Err(_) => panic!("a built cache parses"),
    };
    let trace = encode_offsets(&[0x1000, 0x1015, 0x2004, 0x5000]);
    let frames = symbolicate_addrs(&trace, &cache);
    assert_eq!(frames.len(), 4);

    assert_eq!(frames[0].len(), 1);
    let f = &frames[0][0];
    assert_eq!(f.name, "_ZN3foo3bar17h0123456789abcdefE");
    assert_eq!(f.demangled_name, "foo::bar");
    assert_eq!(f.full_path, "/src/lib.rs");
    assert_eq!(f.line, 42);
    assert!(!f.language.is_empty());

    assert_eq!(frames[1].len(), 1);
    assert_eq!(frames[1][0].line, 43);
    assert_eq!(frames[1][0].demangled_name, "foo::bar");

    assert_eq!(frames[2].len(), 1);
    assert_eq!(frames[2][0].name, "_ZN3baz3quxEv");
    assert_eq!(frames[2][0].demangled_name, "baz::qux");
    assert_eq!(frames[2][0].line, 7);

    assert!(frames[3].is_empty());
}
