//! The import map: an ordered mapping from original asset URLs to
//! fingerprinted URLs, kept sorted by key so that iteration, and everything
//! generated from it, is deterministic.

use vstd::prelude::*;
use crate::bytes::{
    lemma_lex_lt_asymmetric, lemma_lex_lt_irreflexive, lemma_lex_lt_total, lemma_lex_lt_transitive,
    lemma_rfind_byte_spec, lex_lt, rfind_byte, rfind_byte_in,
};
use crate::hashing::{hex8, is_hex_digit, rapid_hash, rapid_hash_of, short_hash_hex};
use crate::paths::{
    allowed_ext, dot, ext_of_name, ext_of_name_slice, file_name_of, file_name_slice, has_slash,
    included, is_allowed_ext, parent_of, path_included, slash, stem_of_name, stem_of_name_slice,
};

verus! {

/// One file handed to the scanner: its root-relative slash path and its
/// raw contents.
pub struct ScanFile {
    pub path: Vec<u8>,
    pub contents: Vec<u8>,
}

pub open spec fn files_view(files: Seq<ScanFile>) -> Seq<(Seq<u8>, Seq<u8>)> {
    files.map_values(|f: ScanFile| (f.path@, f.contents@))
}

/// `base` with every trailing slash removed.
pub open spec fn trim_trailing_slashes(s: Seq<u8>) -> Seq<u8>
    decreases s.len(),
{
    if s.len() > 0 && s[s.len() - 1] == slash() {
        trim_trailing_slashes(s.drop_last())
    } else {
        s
    }
}

/// The original URL of a scanned file: `base`, a slash, the relative path.
pub open spec fn original_url(base: Seq<u8>, path: Seq<u8>) -> Seq<u8> {
    base + seq![slash()] + path
}

/// The fingerprinted URL: the original URL with the file stem augmented by
/// the eight-digit fingerprint of the contents, before the extension.
pub open spec fn hashed_url(base: Seq<u8>, path: Seq<u8>, h: u64) -> Seq<u8> {
    let name = file_name_of(path);
    let stem = stem_of_name(name);
    let e = ext_of_name(name).unwrap();
    if has_slash(path) {
        base + seq![slash()] + parent_of(path) + seq![slash()] + stem + seq![dot()] + hex8(h)
            + seq![dot()] + e
    } else {
        base + seq![slash()] + stem + seq![dot()] + hex8(h) + seq![dot()] + e
    }
}

/// One scanner step: an included file contributes its URL pair, any other
/// file leaves the map unchanged.
pub open spec fn process_spec(
    s: Seq<UrlEntry>,
    path: Seq<u8>,
    contents: Seq<u8>,
    base: Seq<u8>,
) -> Seq<UrlEntry> {
    if included(path) {
        insert_entry(s, original_url(base, path), hashed_url(base, path, rapid_hash(contents)))
    } else {
        s
    }
}

/// The map a scan of `files` produces under a trimmed `base`: every file
/// processed in order, starting from the empty map.
pub open spec fn scan_spec(files: Seq<(Seq<u8>, Seq<u8>)>, base: Seq<u8>) -> Seq<UrlEntry>
    decreases files.len(),
{
    if files.len() == 0 {
        Seq::empty()
    } else {
        process_spec(scan_spec(files.drop_last(), base), files.last().0, files.last().1, base)
    }
}

/// Replace the file-name part of `p` by `name`.
pub open spec fn with_file_name(p: Seq<u8>, name: Seq<u8>) -> Seq<u8> {
    match rfind_byte(p, slash()) {
        Some(i) => p.subrange(0, i + 1) + name,
        None => name,
    }
}

/// What stripping the fingerprint from `p` yields: defined exactly when the
/// extension is recognized and the last dot-delimited segment of the stem
/// is eight hex digits; that segment is then removed.
pub open spec fn strip_hash_spec(p: Seq<u8>) -> Option<Seq<u8>> {
    let name = file_name_of(p);
    match ext_of_name(name) {
        None => None,
        Some(e) => if !allowed_ext(e) {
            None
        } else {
            let stem = stem_of_name(name);
            match rfind_byte(stem, dot()) {
                None => None,
                Some(i) => {
                    let hseg = stem.subrange(i + 1, stem.len() as int);
                    if hseg.len() == 8 && (forall|j: int|
                        0 <= j < hseg.len() ==> is_hex_digit(#[trigger] hseg[j])) {
                        Some(with_file_name(p, stem.subrange(0, i) + seq![dot()] + e))
                    } else {
                        None
                    }
                },
            }
        },
    }
}

/// One mapping entry: original URL to fingerprinted URL, at the spec level.
pub type UrlEntry = (Seq<u8>, Seq<u8>);

/// An ordered mapping from original URLs to fingerprinted URLs.
#[derive(Debug, Clone, PartialEq)]
pub struct ImportMap {
    entries: Vec<(Vec<u8>, Vec<u8>)>,
}

impl View for ImportMap {
    type V = Seq<UrlEntry>;

    closed spec fn view(&self) -> Seq<UrlEntry> {
        self.entries@.map_values(|p: (Vec<u8>, Vec<u8>)| (p.0@, p.1@))
    }
}

/// Keys strictly ascending in lexicographic order; in particular, unique.
pub open spec fn entries_sorted(s: Seq<UrlEntry>) -> bool {
    forall|i: int, j: int| 0 <= i < j < s.len() ==> lex_lt(#[trigger] s[i].0, #[trigger] s[j].0)
}

/// Insert a pair into a key-sorted entry sequence, replacing the entry of
/// an equal key.
pub open spec fn insert_entry(s: Seq<UrlEntry>, k: Seq<u8>, v: Seq<u8>) -> Seq<UrlEntry>
    decreases s.len(),
{
    if s.len() == 0 {
        seq![(k, v)]
    } else if lex_lt(k, s[0].0) {
        seq![(k, v)] + s
    } else if k == s[0].0 {
        seq![(k, v)] + s.drop_first()
    } else {
        seq![s[0]] + insert_entry(s.drop_first(), k, v)
    }
}

/// The value stored under `k`, if any.
pub open spec fn lookup_key(s: Seq<UrlEntry>, k: Seq<u8>) -> Option<Seq<u8>>
    decreases s.len(),
{
    if s.len() == 0 {
        None
    } else if s[0].0 == k {
        Some(s[0].1)
    } else {
        lookup_key(s.drop_first(), k)
    }
}

/// Where `idx` is the count of keys below `k` in sorted `s`, `insert_entry`
/// is an update at `idx` (equal key) or an insertion at `idx`.
pub proof fn lemma_insert_entry_at(s: Seq<UrlEntry>, k: Seq<u8>, v: Seq<u8>, idx: int)
    requires
        entries_sorted(s),
        0 <= idx <= s.len(),
        forall|i: int| 0 <= i < idx ==> lex_lt(#[trigger] s[i].0, k),
        idx < s.len() ==> !lex_lt(s[idx].0, k),
    ensures
        idx < s.len() && s[idx].0 == k ==> insert_entry(s, k, v) == s.update(idx, (k, v)),
        !(idx < s.len() && s[idx].0 == k) ==> insert_entry(s, k, v) == s.insert(idx, (k, v)),
    decreases s.len(),
{
    if s.len() == 0 {
        assert(insert_entry(s, k, v) =~= s.insert(0, (k, v)));
    } else if idx == 0 {
        if s[0].0 == k {
            lemma_lex_lt_irreflexive(k);
            assert(insert_entry(s, k, v) =~= s.update(0, (k, v)));
        } else {
            lemma_lex_lt_total(k, s[0].0);
            assert(lex_lt(k, s[0].0));
            assert(insert_entry(s, k, v) =~= s.insert(0, (k, v)));
        }
    } else {
        assert(lex_lt(s[0].0, k));
        lemma_lex_lt_asymmetric(s[0].0, k);
        lemma_lex_lt_irreflexive(k);
        assert(!lex_lt(k, s[0].0));
        assert(k != s[0].0);
        let t = s.drop_first();
        assert(entries_sorted(t)) by {
            assert(forall|i: int, j: int| 0 <= i < j < t.len() ==> lex_lt(
                #[trigger] t[i].0,
                #[trigger] t[j].0,
            )) by {
                assert(forall|i: int, j: int|
                    0 <= i < j < t.len() ==> t[i] == s[i + 1] && t[j] == s[j + 1]);
            }
        }
        assert(forall|i: int| 0 <= i < idx - 1 ==> lex_lt(#[trigger] t[i].0, k)) by {
            assert(forall|i: int| 0 <= i < idx - 1 ==> t[i] == s[i + 1]);
        }
        lemma_insert_entry_at(t, k, v, idx - 1);
        if idx < s.len() && s[idx].0 == k {
            assert(t[idx - 1] == s[idx]);
            assert(insert_entry(t, k, v) == t.update(idx - 1, (k, v)));
            assert(insert_entry(s, k, v) =~= s.update(idx, (k, v)));
        } else {
            assert(insert_entry(t, k, v) == t.insert(idx - 1, (k, v)));
            assert(insert_entry(s, k, v) =~= s.insert(idx, (k, v)));
        }
    }
}

/// Updating the entry at an equal key keeps the sort order.
pub proof fn lemma_update_sorted(s: Seq<UrlEntry>, k: Seq<u8>, v: Seq<u8>, idx: int)
    requires
        entries_sorted(s),
        0 <= idx < s.len(),
        s[idx].0 == k,
    ensures
        entries_sorted(s.update(idx, (k, v))),
{
}

/// Inserting at the counted position keeps the sort order.
pub proof fn lemma_insert_sorted(s: Seq<UrlEntry>, k: Seq<u8>, v: Seq<u8>, idx: int)
    requires
        entries_sorted(s),
        0 <= idx <= s.len(),
        forall|i: int| 0 <= i < idx ==> lex_lt(#[trigger] s[i].0, k),
        idx < s.len() ==> !lex_lt(s[idx].0, k) && s[idx].0 != k,
    ensures
        entries_sorted(s.insert(idx, (k, v))),
{
    let t = s.insert(idx, (k, v));
    if idx < s.len() {
        lemma_lex_lt_total(k, s[idx].0);
        assert(lex_lt(k, s[idx].0));
    }
    assert forall|i: int, j: int| 0 <= i < j < t.len() implies lex_lt(
        #[trigger] t[i].0,
        #[trigger] t[j].0,
    ) by {
        if i < idx && j == idx {
        } else if i == idx && j > idx {
            if !lex_lt(k, t[j].0) {
                assert(t[j] == s[j - 1]);
                assert(lex_lt(k, s[idx].0));
                if j - 1 > idx {
                    lemma_lex_lt_transitive(k, s[idx].0, s[j - 1].0);
                }
            }
        } else if i < idx && j > idx {
            assert(t[i] == s[i] && t[j] == s[j - 1]);
        } else if i > idx && j > idx {
            assert(t[i] == s[i - 1] && t[j] == s[j - 1]);
        } else {
            assert(t[i] == s[i] && t[j] == s[j]);
        }
    }
}

impl ImportMap {
    /// Well-formed: entries strictly sorted by key.
    pub open spec fn wf(self) -> bool {
        entries_sorted(self@)
    }

    /// Create an empty import map (development mode ships unhashed assets).
    pub fn empty() -> (r: Self)
        ensures
            r@ == Seq::<UrlEntry>::empty(),
            r.wf(),
    {
        let r = ImportMap { entries: Vec::new() };
        proof {
            assert(r@ =~= Seq::<UrlEntry>::empty());
        }
        r
    }


    /// Number of entries.
    pub fn len(&self) -> (n: usize)
        ensures
            n == self@.len(),
    {
        self.entries.len()
    }

    /// Whether the map holds no entry.
    pub fn is_empty(&self) -> (r: bool)
        ensures
            r == (self@.len() == 0),
    {
        self.entries.len() == 0
    }

    /// The original URL of the entry at `i`.
    pub fn key_at(&self, i: usize) -> (r: &Vec<u8>)
        requires
            i < self@.len(),
        ensures
            r@ == self@[i as int].0,
    {
        &self.entries[i].0
    }

    /// The fingerprinted URL of the entry at `i`.
    pub fn value_at(&self, i: usize) -> (r: &Vec<u8>)
        requires
            i < self@.len(),
        ensures
            r@ == self@[i as int].1,
    {
        &self.entries[i].1
    }

    /// Insert a pair, keeping the entries sorted by key; an entry with an
    /// equal key is overwritten.
    fn insert_pair(&mut self, k: Vec<u8>, v: Vec<u8>)
        requires
            old(self).wf(),
        ensures
            final(self).wf(),
            final(self)@ == insert_entry(old(self)@, k@, v@),
    {
        let ghost s = self@;
        let mut idx: usize = 0;
        while idx < self.entries.len() && crate::bytes::bytes_lt(&self.entries[idx].0, &k)
            invariant
                entries_sorted(s),
                s == self@,
                0 <= idx <= s.len(),
                forall|i: int| 0 <= i < idx ==> lex_lt(#[trigger] s[i].0, k@),
            decreases s.len() - idx,
        {
            assert(s[idx as int].0 == self.entries@[idx as int].0@);
            idx = idx + 1;
        }
        proof {
            if idx < s.len() {
                assert(s[idx as int].0 == self.entries@[idx as int].0@);
            }
        }
        if idx < self.entries.len() && crate::bytes::bytes_eq(&self.entries[idx].0, &k) {
            proof {
                assert(s[idx as int].0 == k@);
                lemma_insert_entry_at(s, k@, v@, idx as int);
                lemma_update_sorted(s, k@, v@, idx as int);
            }
            self.entries.set(idx, (k, v));
            proof {
                assert(self@ =~= s.update(idx as int, (k@, v@)));
            }
        } else {
            proof {
                if idx < s.len() {
                    assert(s[idx as int].0 == self.entries@[idx as int].0@);
                    assert(!lex_lt(s[idx as int].0, k@));
                    assert(s[idx as int].0 != k@);
                }
                lemma_insert_entry_at(s, k@, v@, idx as int);
                lemma_insert_sorted(s, k@, v@, idx as int);
            }
            self.entries.insert(idx, (k, v));
            proof {
                assert(self@ =~= s.insert(idx as int, (k@, v@)));
            }
        }
    }

    /// Process one file: decide participation and, for an included file,
    /// insert its original and fingerprinted URLs. `base_url` is expected
    /// already trimmed of trailing slashes, as `scan` hands it over.
    fn process_file(&mut self, path: &[u8], contents: &[u8], base_url: &[u8])
        requires
            old(self).wf(),
        ensures
            final(self).wf(),
            final(self)@ == process_spec(old(self)@, path@, contents@, base_url@),
    {
        if !path_included(path) {
            return ;
        }
        let name = file_name_slice(path);
        let stem = stem_of_name_slice(name);
        let e = match ext_of_name_slice(name) {
            Some(e) => e,
            None => {
                proof {
                    assert(false);
                }
                return ;
            },
        };
        let h = rapid_hash_of(contents);
        let hh = short_hash_hex(h);
        let mut key: Vec<u8> = Vec::new();
        key.extend_from_slice(base_url);
        key.push(47u8);
        key.extend_from_slice(path);
        proof {
            assert(key@ =~= original_url(base_url@, path@));
        }
        let mut val: Vec<u8> = Vec::new();
        val.extend_from_slice(base_url);
        val.push(47u8);
        match rfind_byte_in(path, 47u8) {
            Some(i) => {
                proof {
                    lemma_rfind_byte_spec(path@, 47u8);
                }
                let par = vstd::slice::slice_subrange(path, 0, i);
                val.extend_from_slice(par);
                val.push(47u8);
            },
            None => {},
        }
        val.extend_from_slice(stem);
        val.push(46u8);
        val.extend_from_slice(hh.as_slice());
        val.push(46u8);
        val.extend_from_slice(e);
        proof {
            assert(val@ =~= hashed_url(base_url@, path@, h));
        }
        self.insert_pair(key, val);
    }

    /// Scan a set of files and generate an import map. The result is a
    /// function of the given files and base URL alone: scanning the same
    /// files twice yields equal maps.
    pub fn scan(files: &Vec<ScanFile>, base_url: &[u8]) -> (r: Self)
        ensures
            r.wf(),
            r@ == scan_spec(files_view(files@), trim_trailing_slashes(base_url@)),
    {
        let mut end: usize = base_url.len();
        proof {
            assert(base_url@.subrange(0, base_url@.len() as int) =~= base_url@);
        }
        while end > 0 && base_url[end - 1] == 47u8
            invariant
                0 <= end <= base_url@.len(),
                trim_trailing_slashes(base_url@) == trim_trailing_slashes(
                    base_url@.subrange(0, end as int),
                ),
            decreases end,
        {
            proof {
                assert(base_url@.subrange(0, end as int).drop_last() =~= base_url@.subrange(
                    0,
                    end - 1,
                ));
            }
            end = end - 1;
        }
        let base = vstd::slice::slice_subrange(base_url, 0, end);
        proof {
            assert(trim_trailing_slashes(base@) == base@);
        }
        let mut m = Self::empty();
        let mut i: usize = 0;
        while i < files.len()
            invariant
                0 <= i <= files@.len(),
                m.wf(),
                base@ == trim_trailing_slashes(base_url@),
                m@ == scan_spec(files_view(files@).subrange(0, i as int), base@),
            decreases files@.len() - i,
        {
            let f = &files[i];
            m.process_file(f.path.as_slice(), f.contents.as_slice(), base);
            proof {
                let fv = files_view(files@);
                assert(fv.subrange(0, i + 1).drop_last() =~= fv.subrange(0, i as int));
                assert(fv.subrange(0, i + 1).last() == fv[i as int]);
                assert(fv[i as int] == (files@[i as int].path@, files@[i as int].contents@));
            }
            i = i + 1;
        }
        proof {
            assert(files_view(files@).subrange(0, files@.len() as int) =~= files_view(files@));
        }
        m
    }

    /// Strip the fingerprint segment from a path: `foo.abcd1234.js`
    /// becomes `foo.js`. Returns nothing when the extension is not
    /// recognized or no eight-digit hex segment precedes it.
    pub fn strip_hash(path: &[u8]) -> (r: Option<Vec<u8>>)
        ensures
            match r {
                Some(q) => strip_hash_spec(path@) == Some(q@),
                None => strip_hash_spec(path@) is None,
            },
    {
        let name = file_name_slice(path);
        let e = match ext_of_name_slice(name) {
            Some(e) => e,
            None => {
                return None;
            },
        };
        if !is_allowed_ext(e) {
            return None;
        }
        let stem = stem_of_name_slice(name);
        let i = match rfind_byte_in(stem, 46u8) {
            Some(i) => i,
            None => {
                return None;
            },
        };
        proof {
            lemma_rfind_byte_spec(stem@, 46u8);
        }
        let n = stem.len();
        let hseg = vstd::slice::slice_subrange(stem, i + 1, n);
        if hseg.len() != 8 {
            return None;
        }
        let mut j: usize = 0;
        #[verifier::loop_isolation(false)]
        while j < hseg.len()
            invariant
                0 <= j <= hseg@.len(),
                forall|k: int| 0 <= k < j ==> is_hex_digit(#[trigger] hseg@[k]),
            decreases hseg@.len() - j,
        {
            let b = hseg[j];
            if !((48 <= b && b <= 57) || (97 <= b && b <= 102) || (65 <= b && b <= 70)) {
                proof {
                    assert(!is_hex_digit(hseg@[j as int]));
                }
                return None;
            }
            j = j + 1;
        }
        let mut out: Vec<u8> = Vec::new();
        match rfind_byte_in(path, 47u8) {
            Some(s) => {
                proof {
                    lemma_rfind_byte_spec(path@, 47u8);
                }
                let pn = path.len();
                out.extend_from_slice(vstd::slice::slice_subrange(path, 0, s + 1));
            },
            None => {},
        }
        out.extend_from_slice(vstd::slice::slice_subrange(stem, 0, i));
        out.push(46u8);
        out.extend_from_slice(e);
        proof {
            assert(stem@.subrange(0, i as int) + seq![dot()] + e@ =~= out@.subrange(
                (out@.len() - (i + 1 + e@.len())) as int,
                out@.len() as int,
            ));
            assert(out@ =~= with_file_name(path@, stem@.subrange(0, i as int) + seq![dot()] + e@));
        }
        Some(out)
    }
}

impl Default for ImportMap {
    /// The empty map.
    fn default() -> (r: Self)
        ensures
            r@ == Seq::<UrlEntry>::empty(),
            r.wf(),
    {
        ImportMap::empty()
    }
}

} // verus!
