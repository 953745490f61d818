//! Scanning an embedded directory tree (compiled into the binary with
//! `include_dir`): the tree is flattened to plain path/contents pairs and
//! handed to the ordinary scanner.

use vstd::prelude::*;
use crate::import_map::{files_view, scan_spec, trim_trailing_slashes, ImportMap, ScanFile};

verus! {

#[verifier::external_type_specification]
#[verifier::external_body]
pub struct ExDir<'a>(include_dir::Dir<'a>);

/// The files of an embedded tree, as (root-relative slash path, contents)
/// pairs: every file of the tree, at any depth. An embedded `Dir` is
/// immutable compile-time data, so this is a pure function of the tree
/// value alone.
pub uninterp spec fn embedded_files(dir: include_dir::Dir) -> Seq<(Seq<u8>, Seq<u8>)>;

/// Relies on include_dir::Dir::files, Dir::dirs, File::path and
/// File::contents: walks the embedded tree and hands out every file as a
/// (root-relative path, contents) pair.
#[verifier::external_body]
fn collect_embedded(dir: &include_dir::Dir<'_>) -> (r: Vec<ScanFile>)
    ensures
        files_view(r@) == embedded_files(*dir),
{
    let mut out = Vec::new();
    let mut stack: Vec<&include_dir::Dir<'_>> = vec![dir];
    while let Some(d) = stack.pop() {
        for f in d.files() {
            out.push(ScanFile {
                path: f.path().to_string_lossy().into_owned().into_bytes(),
                contents: f.contents().to_vec(),
            });
        }
        for s in d.dirs() {
            stack.push(s);
        }
    }
    out
}

impl ImportMap {
    /// Scan an embedded directory and generate an import map: the scan of
    /// the tree's files, under the trimmed base URL — the same algorithm
    /// as `scan`, over another source of entries.
    pub fn scan_embedded(dir: &include_dir::Dir<'_>, base_url: &[u8]) -> (r: Self)
        ensures
            r.wf(),
            r@ == scan_spec(embedded_files(*dir), trim_trailing_slashes(base_url@)),
    {
        let files = collect_embedded(dir);
        Self::scan(&files, base_url)
    }
}

} // verus!
