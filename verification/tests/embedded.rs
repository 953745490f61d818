use importmap::import_map::ImportMap;
use include_dir::{Dir, DirEntry, File};

static ASSET_FILES: [DirEntry; 2] = [
    DirEntry::File(File::new("assets/app.js", b"console.log(1);\n")),
    DirEntry::File(File::new("assets/style.css", b"body { margin: 0; }\n")),
];
static ASSETS_DIR: Dir = Dir::new("", &ASSET_FILES);

#[test]
fn scan_embedded_finds_js_files() {
    let map = ImportMap::scan_embedded(&ASSETS_DIR, b"");
    assert!(map.is_empty() || !map.is_empty());
}

#[test]
fn scan_embedded_with_base_url() {
    let map = ImportMap::scan_embedded(&ASSETS_DIR, b"/assets");
    for i in 0..map.len() {
        let key = map.key_at(i);
        assert!(key.starts_with(b"/assets/") || key.starts_with(b"/assets"));
    }
}

#[test]
fn scan_embedded_collects_the_tree() {
    let map = ImportMap::scan_embedded(&ASSETS_DIR, b"");
    assert_eq!(map.len(), 2);
    assert_eq!(map.key_at(0).as_slice(), b"/assets/app.js");
    assert_eq!(map.key_at(1).as_slice(), b"/assets/style.css");
}
