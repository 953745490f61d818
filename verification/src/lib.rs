//! Cache-busting import maps: scan assets, fingerprint their URLs with a
//! short content hash, and splice the generated `<link>`/`<script>` markup
//! into an HTML document between two marker comments.

pub mod bytes;
pub mod embedded;
pub mod hashing;
pub mod html;
pub mod import_map;
pub mod laws;
pub mod paths;
