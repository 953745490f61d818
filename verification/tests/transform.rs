use importmap::import_map::{ImportMap, ScanFile};

fn file(path: &str, contents: &[u8]) -> ScanFile {
    ScanFile { path: path.as_bytes().to_vec(), contents: contents.to_vec() }
}

fn text(bytes: &[u8]) -> &str {
    std::str::from_utf8(bytes).unwrap()
}

const PAGE: &str = "<head>\n    <!-- IMPORTMAP -->\n    old stuff\n    <!-- /IMPORTMAP -->\n</head>\n";

#[test]
fn empty_map_clears_the_region() {
    let map = ImportMap::empty();
    let out = map.transform_html(PAGE.as_bytes()).expect("markers present");
    assert_eq!(
        text(&out),
        "<head>\n    <!-- IMPORTMAP -->\n\n    <!-- /IMPORTMAP -->\n</head>\n"
    );
}

#[test]
fn missing_open_marker_yields_none() {
    let map = ImportMap::empty();
    assert_eq!(map.transform_html(b"<head>no markers</head>"), None);
    assert_eq!(
        map.transform_html(b"<head>\n<!-- /IMPORTMAP -->\n</head>"),
        None
    );
}

#[test]
fn missing_close_marker_yields_none() {
    let map = ImportMap::scan(&vec![file("assets/app.js", b"x")], b"");
    assert_eq!(
        map.transform_html(b"<head>\n<!-- IMPORTMAP -->\nno close\n</head>"),
        None
    );
}

#[test]
fn script_entries_produce_importmap_and_preloads() {
    let map = ImportMap::scan(&vec![file("assets/app.js", b"body")], b"");
    let out = map.transform_html(PAGE.as_bytes()).expect("markers present");
    let s = text(&out);
    let value = text(map.value_at(0));
    assert!(s.contains("<script type=\"importmap\">"));
    assert!(s.contains("</script>"));
    assert!(s.contains(&format!("\"/assets/app.js\": \"{}\"", value)));
    assert!(s.contains(&format!("<link rel=\"modulepreload\" href=\"{}\">", value)));
    assert!(!s.contains("old stuff"));
}

#[test]
fn generated_json_is_pretty_printed() {
    let map = ImportMap::scan(&vec![file("assets/app.js", b"body")], b"");
    let out = map.transform_html("<!-- IMPORTMAP --><!-- /IMPORTMAP -->".as_bytes()).unwrap();
    let s = text(&out);
    let value = text(map.value_at(0));
    let expected_json = format!(
        "{{\n  \"imports\": {{\n    \"/assets/app.js\": \"{}\"\n  }}\n}}",
        value
    );
    assert!(s.contains(&expected_json));
}

#[test]
fn transform_is_idempotent_for_script_maps() {
    let files = vec![file("assets/app.js", b"one"), file("assets/lib.mjs", b"two")];
    let map = ImportMap::scan(&files, b"");
    let once = map.transform_html(PAGE.as_bytes()).expect("markers present");
    let twice = map.transform_html(&once).expect("markers still present");
    assert_eq!(once, twice);
}

#[test]
fn transform_is_idempotent_for_the_empty_map() {
    let map = ImportMap::empty();
    let once = map.transform_html(PAGE.as_bytes()).unwrap();
    let twice = map.transform_html(&once).unwrap();
    assert_eq!(once, twice);
}

#[test]
fn stylesheet_order_follows_the_document_not_the_map() {
    let files = vec![file("assets/a.css", b"aaa"), file("assets/b.css", b"bbb")];
    let map = ImportMap::scan(&files, b"");
    let page = "<head>\n    <!-- IMPORTMAP -->\n    <link rel=\"stylesheet\" href=\"/assets/b.css\">\n    <link rel=\"stylesheet\" href=\"/assets/a.css\">\n    <!-- /IMPORTMAP -->\n</head>\n";
    let out = map.transform_html(page.as_bytes()).expect("markers present");
    let s = text(&out);
    let b_pos = s.find("/assets/b.").expect("b link present");
    let a_pos = s.find("/assets/a.").expect("a link present");
    assert!(b_pos < a_pos);
    assert!(s.contains("<link rel=\"stylesheet\" href=\"/assets/b."));
    assert!(s.contains("<link rel=\"stylesheet\" href=\"/assets/a."));
}

#[test]
fn stylesheets_missing_from_the_document_are_dropped() {
    let files = vec![file("assets/a.css", b"aaa")];
    let map = ImportMap::scan(&files, b"");
    let out = map.transform_html(PAGE.as_bytes()).expect("markers present");
    let s = text(&out);
    assert!(!s.contains("stylesheet\" href=\"/assets/a."));
    // the importmap script block is still emitted, with no imports
    assert!(s.contains("\"imports\": {}"));
}

#[test]
fn indentation_of_the_marker_line_is_applied() {
    let map = ImportMap::scan(&vec![file("assets/app.js", b"x")], b"");
    let out = map.transform_html(PAGE.as_bytes()).expect("markers present");
    let s = text(&out);
    let start = s.find("<!-- IMPORTMAP -->").unwrap() + "<!-- IMPORTMAP -->".len();
    let end = s.find("<!-- /IMPORTMAP -->").unwrap();
    let region = &s[start..end];
    let mut saw_generated = false;
    for line in region.lines().skip(1) {
        if !line.is_empty() {
            assert!(line.starts_with("    "), "line not indented: {:?}", line);
            saw_generated = true;
        }
    }
    assert!(saw_generated);
    // the first generated line carries exactly the marker's indentation
    assert!(region.starts_with("\n    <script") || region.starts_with("\n    <link"));
}

#[test]
fn extract_href_values_reads_both_quote_styles() {
    let html = b"<!-- IMPORTMAP -->\n<link rel=\"stylesheet\" href=\"/a.css\">\n<link rel='stylesheet' href='/b.css'>\n<link rel=\"icon\" href=\"/icon.png\">\n<!-- /IMPORTMAP -->";
    let hrefs = ImportMap::extract_href_values(html, b"stylesheet");
    assert_eq!(hrefs.len(), 2);
    assert_eq!(hrefs[0].as_slice(), b"/a.css");
    assert_eq!(hrefs[1].as_slice(), b"/b.css");
}

#[test]
fn extract_scans_whole_document_without_markers() {
    let html = b"<link rel=\"stylesheet\" href=\"/x.css\">";
    let hrefs = ImportMap::extract_href_values(html, b"stylesheet");
    assert_eq!(hrefs.len(), 1);
    assert_eq!(hrefs[0].as_slice(), b"/x.css");
}

#[test]
fn replace_between_markers_keeps_the_outside() {
    let out = ImportMap::replace_between_markers(PAGE.as_bytes(), b"NEW").expect("markers");
    let s = text(&out);
    assert!(s.starts_with("<head>\n    <!-- IMPORTMAP -->\n"));
    assert!(s.contains("    NEW\n"));
    assert!(s.ends_with("    <!-- /IMPORTMAP -->\n</head>\n"));
    assert!(!s.contains("old stuff"));
}

#[test]
fn json_keys_with_quotes_are_escaped() {
    let files = vec![file("assets/we\"ird.js", b"x")];
    let map = ImportMap::scan(&files, b"");
    let out = map.transform_html(PAGE.as_bytes()).expect("markers present");
    let s = text(&out);
    assert!(s.contains("we\\\"ird"));
}

#[test]
fn full_transform_output_is_exact() {
    let files = vec![file("assets/app.js", b"x"), file("assets/site.css", b"y")];
    let map = ImportMap::scan(&files, b"");
    assert_eq!(map.key_at(0).as_slice(), b"/assets/app.js");
    assert_eq!(map.key_at(1).as_slice(), b"/assets/site.css");
    let js = text(map.value_at(0)).to_string();
    let css = text(map.value_at(1)).to_string();
    let page = "<head>\n  <!-- IMPORTMAP -->\n  <link rel=\"stylesheet\" href=\"/assets/site.css\">\n  <!-- /IMPORTMAP -->\n</head>\n";
    let out = map.transform_html(page.as_bytes()).expect("markers present");
    let expected = format!(
        "<head>\n  <!-- IMPORTMAP -->\n  <link rel=\"stylesheet\" href=\"{css}\">\n  <script type=\"importmap\">\n  {{\n    \"imports\": {{\n      \"/assets/app.js\": \"{js}\"\n    }}\n  }}\n  </script>\n  <link rel=\"modulepreload\" href=\"{js}\">\n  <!-- /IMPORTMAP -->\n</head>\n"
    );
    assert_eq!(text(&out), expected);
}

#[test]
fn transform_is_idempotent_for_stylesheet_maps() {
    // a link rewritten to its fingerprinted URL is matched again on the
    // next run, by stripping the fingerprint, so the link survives and
    // the output is a fixed point
    let files = vec![file("assets/site.css", b"y"), file("assets/app.js", b"x")];
    let map = ImportMap::scan(&files, b"");
    let page = "<head>\n  <!-- IMPORTMAP -->\n  <link rel=\"stylesheet\" href=\"/assets/site.css\">\n  <!-- /IMPORTMAP -->\n</head>\n";
    let once = map.transform_html(page.as_bytes()).unwrap();
    assert!(text(&once).contains("stylesheet\" href=\"/assets/site."));
    let twice = map.transform_html(&once).unwrap();
    assert_eq!(once, twice);
    let thrice = map.transform_html(&twice).unwrap();
    assert_eq!(twice, thrice);
}

#[test]
fn fingerprinted_links_match_their_entry() {
    // a document already carrying a fingerprinted link keeps a stylesheet
    // link for that asset, updated to the current fingerprint
    let files = vec![file("assets/site.css", b"new contents")];
    let map = ImportMap::scan(&files, b"");
    let page = "<head>\n  <!-- IMPORTMAP -->\n  <link rel=\"stylesheet\" href=\"/assets/site.00000000.css\">\n  <!-- /IMPORTMAP -->\n</head>\n";
    let out = map.transform_html(page.as_bytes()).unwrap();
    let s = text(&out);
    let current = text(map.value_at(0));
    assert!(s.contains(&format!("<link rel=\"stylesheet\" href=\"{current}\">")));
    assert!(!s.contains("site.00000000.css"));
}

#[test]
fn stray_close_marker_before_open_is_tolerated() {
    let map = ImportMap::scan(&vec![file("assets/app.js", b"x")], b"");
    // no close marker after the open one: no transform
    assert_eq!(
        map.transform_html(b"<!-- /IMPORTMAP -->x<!-- IMPORTMAP -->"),
        None
    );
    // another close follows the open: the transform proceeds
    let page = "<!-- /IMPORTMAP -->\n<!-- IMPORTMAP -->\nmid\n<!-- /IMPORTMAP -->\n";
    let out = map.transform_html(page.as_bytes()).expect("pair present");
    let s = text(&out);
    assert!(s.starts_with("<!-- /IMPORTMAP -->\n<!-- IMPORTMAP -->\n"));
    assert!(!s.contains("mid"));
}

#[test]
fn update_is_detected_by_comparing_text() {
    // the caller persists only when the transform changed the document
    let map = ImportMap::empty();
    let once = map.transform_html(PAGE.as_bytes()).unwrap();
    assert_ne!(once.as_slice(), PAGE.as_bytes());
    let twice = map.transform_html(&once).unwrap();
    assert_eq!(twice, once);
}
