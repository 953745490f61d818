use importmap::import_map::{ImportMap, ScanFile};

fn file(path: &str, contents: &[u8]) -> ScanFile {
    ScanFile { path: path.as_bytes().to_vec(), contents: contents.to_vec() }
}

fn is_lower_hex(b: u8) -> bool {
    (b'0'..=b'9').contains(&b) || (b'a'..=b'f').contains(&b)
}

#[test]
fn exclusion_rules_keep_only_the_real_asset() {
    let files = vec![
        file("app.js", b"root level"),
        file("assets/app.js", b"kept"),
        file("assets/app.development.js", b"dev build"),
        file("assets/_partial.css", b"partial"),
        file("assets/app.test.js", b"test file"),
        file("assets/tests/x.css", b"tests dir"),
    ];
    let map = ImportMap::scan(&files, b"");
    assert_eq!(map.len(), 1);
    assert_eq!(map.key_at(0).as_slice(), b"/assets/app.js");
}

#[test]
fn dev_infix_and_underscore_are_excluded() {
    let files = vec![
        file("assets/app.dev.js", b"a"),
        file("assets/_hidden.js", b"b"),
        file("assets/kept.mjs", b"c"),
    ];
    let map = ImportMap::scan(&files, b"");
    assert_eq!(map.len(), 1);
    assert_eq!(map.key_at(0).as_slice(), b"/assets/kept.mjs");
}

#[test]
fn unrecognized_extensions_are_skipped() {
    let files = vec![
        file("assets/readme.txt", b"text"),
        file("assets/logo.svg", b"image"),
        file("assets/app.js", b"code"),
    ];
    let map = ImportMap::scan(&files, b"");
    assert_eq!(map.len(), 1);
}

#[test]
fn root_css_is_kept_root_js_is_not() {
    let files = vec![file("site.css", b"css at root"), file("worker.js", b"js at root")];
    let map = ImportMap::scan(&files, b"");
    assert_eq!(map.len(), 1);
    assert_eq!(map.key_at(0).as_slice(), b"/site.css");
}

#[test]
fn scan_is_deterministic() {
    let files = vec![
        file("assets/app.js", b"alpha"),
        file("assets/style.css", b"beta"),
        file("assets/lib.mjs", b"gamma"),
    ];
    let m1 = ImportMap::scan(&files, b"/static");
    let m2 = ImportMap::scan(&files, b"/static");
    assert_eq!(m1, m2);
}

#[test]
fn trailing_slashes_of_base_url_are_trimmed() {
    let files = vec![file("assets/app.js", b"x")];
    let m1 = ImportMap::scan(&files, b"/cdn");
    let m2 = ImportMap::scan(&files, b"/cdn///");
    assert_eq!(m1, m2);
    assert_eq!(m1.key_at(0).as_slice(), b"/cdn/assets/app.js");
}

#[test]
fn fingerprinted_url_has_hash_before_extension() {
    let files = vec![file("assets/app.js", b"some contents")];
    let map = ImportMap::scan(&files, b"");
    let value = map.value_at(0);
    let s = std::str::from_utf8(value).unwrap();
    assert!(s.starts_with("/assets/app."));
    assert!(s.ends_with(".js"));
    let hash = &s["/assets/app.".len()..s.len() - ".js".len()];
    assert_eq!(hash.len(), 8);
    assert!(hash.bytes().all(is_lower_hex));
}

#[test]
fn same_contents_same_hash_different_contents_different_url() {
    let m1 = ImportMap::scan(&vec![file("assets/app.js", b"hello")], b"");
    let m2 = ImportMap::scan(&vec![file("assets/app.js", b"hello")], b"");
    let m3 = ImportMap::scan(&vec![file("assets/app.js", b"other")], b"");
    assert_eq!(m1.value_at(0), m2.value_at(0));
    assert_ne!(m1.value_at(0), m3.value_at(0));
}

#[test]
fn keys_are_sorted_regardless_of_input_order() {
    let files = vec![
        file("assets/z.js", b"1"),
        file("assets/a.js", b"2"),
        file("assets/m.css", b"3"),
    ];
    let map = ImportMap::scan(&files, b"");
    assert_eq!(map.len(), 3);
    assert_eq!(map.key_at(0).as_slice(), b"/assets/a.js");
    assert_eq!(map.key_at(1).as_slice(), b"/assets/m.css");
    assert_eq!(map.key_at(2).as_slice(), b"/assets/z.js");
}

#[test]
fn later_entry_overwrites_equal_key() {
    let files = vec![file("assets/app.js", b"first"), file("assets/app.js", b"second")];
    let map = ImportMap::scan(&files, b"");
    assert_eq!(map.len(), 1);
    let with_second = ImportMap::scan(&vec![file("assets/app.js", b"second")], b"");
    assert_eq!(map.value_at(0), with_second.value_at(0));
}

#[test]
fn strip_hash_round_trips_scanner_output() {
    let files = vec![file("assets/deep/dir/app.min.js", b"bytes here")];
    let map = ImportMap::scan(&files, b"/cdn");
    let stripped = ImportMap::strip_hash(map.value_at(0)).expect("fingerprint expected");
    assert_eq!(stripped, map.key_at(0).clone());
}

#[test]
fn strip_hash_accepts_either_case_and_rejects_bad_shapes() {
    assert_eq!(
        ImportMap::strip_hash(b"foo.abc12345.js"),
        Some(b"foo.js".to_vec())
    );
    assert_eq!(
        ImportMap::strip_hash(b"a/b/foo.ABCDEF12.css"),
        Some(b"a/b/foo.css".to_vec())
    );
    // wrong length
    assert_eq!(ImportMap::strip_hash(b"foo.abc123.js"), None);
    // not hex
    assert_eq!(ImportMap::strip_hash(b"foo.abc1234z.js"), None);
    // extension not recognized
    assert_eq!(ImportMap::strip_hash(b"foo.abc12345.txt"), None);
    // no second dot segment
    assert_eq!(ImportMap::strip_hash(b"foo.js"), None);
    // no extension at all
    assert_eq!(ImportMap::strip_hash(b"foo"), None);
}

#[test]
fn empty_map_is_empty() {
    let map = ImportMap::empty();
    assert!(map.is_empty());
    assert_eq!(map.len(), 0);
}
