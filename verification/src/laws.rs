//! The library's laws: properties of whole scans and transforms, stated
//! over the spec functions that the executable contracts use, and proved
//! once and for all.

use vstd::prelude::*;
use crate::bytes::{
    find_from, join_nl, join_sep, lemma_find_from_spec, lemma_match_at_common_prefix,
    lemma_rfind_byte_spec, lines_from, lines_of, match_at, nl, rfind_byte,
};
use crate::html::{
    content_for, content_rendered, css_of, extract_spec, indent_line, indent_of,
    indented_content, js_of, json_entry_line, json_escaped, json_inner, json_block, line_start_of,
    marker_close, marker_open, pre_line, pre_section, rel_stylesheet, replace_spec, script_block,
    select_css, transform_spec,
};
use crate::hashing::{hex8, is_hex_digit, is_lower_hex_digit, lemma_hex8_digits};
use crate::import_map::{
    hashed_url, insert_entry, original_url, scan_spec, strip_hash_spec,
    with_file_name, ImportMap, UrlEntry,
};
use crate::paths::{
    allowed_ext, dot, ext_of_name, file_name_of, has_slash, included, parent_of, slash,
    stem_of_name,
};

verus! {

/// Determinism: maps scanned from the same files under the same base URL
/// are equal, however and whenever the two scans ran.
pub proof fn lemma_scan_deterministic(
    m1: ImportMap,
    m2: ImportMap,
    files: Seq<(Seq<u8>, Seq<u8>)>,
    base: Seq<u8>,
)
    requires
        m1@ == scan_spec(files, base),
        m2@ == scan_spec(files, base),
    ensures
        m1@ == m2@,
{
}

/// One algorithm, two sources: an embedded scan and a scan of the same
/// files as plain values yield equal maps, whatever order either source
/// hands its files over in.
pub proof fn lemma_embedded_matches_scan(
    m1: ImportMap,
    m2: ImportMap,
    d: include_dir::Dir,
    files: Seq<(Seq<u8>, Seq<u8>)>,
    base: Seq<u8>,
)
    requires
        crate::embedded::embedded_files(d) == files,
        m1@ == scan_spec(crate::embedded::embedded_files(d), base),
        m2@ == scan_spec(files, base),
    ensures
        m1@ == m2@,
{
}

/// An eight-digit lowercase-hex fingerprint segment.
pub open spec fn hex8_seg(hs: Seq<u8>) -> bool {
    hs.len() == 8 && forall|j: int| 0 <= j < 8 ==> is_lower_hex_digit(#[trigger] hs[j])
}

/// The fingerprinted URL's file name is the original's stem, one
/// eight-digit lowercase-hex segment, and the original's extension.
pub open spec fn fingerprint_shape(k: Seq<u8>, v: Seq<u8>) -> bool {
    exists|hs: Seq<u8>|
        #[trigger] hex8_seg(hs) && file_name_of(v) == stem_of_name(file_name_of(k)) + seq![dot()]
            + hs + seq![dot()] + ext_of_name(file_name_of(k)).unwrap()
}

/// Stripping the fingerprint from the value recovers the key's file name.
pub open spec fn round_trip_ok(k: Seq<u8>, v: Seq<u8>) -> bool {
    &&& strip_hash_spec(v) is Some
    &&& file_name_of(strip_hash_spec(v).unwrap()) == file_name_of(k)
}

/// If `s[j]` is the last occurrence of `b`, `rfind_byte` says so.
proof fn lemma_rfind_eq(s: Seq<u8>, b: u8, j: int)
    requires
        0 <= j < s.len(),
        s[j] == b,
        forall|k: int| j < k < s.len() ==> s[k] != b,
    ensures
        rfind_byte(s, b) == Some(j),
{
    lemma_rfind_byte_spec(s, b);
    match rfind_byte(s, b) {
        Some(p) => {
            if p < j {
                assert(s[j] != b);
            }
            if p > j {
                assert(s[p] != b);
            }
        },
        None => {
            assert(s[j] != b);
        },
    }
}

/// A recognized extension holds no dot and no slash.
proof fn lemma_allowed_ext_plain(e: Seq<u8>)
    requires
        allowed_ext(e),
    ensures
        forall|j: int| 0 <= j < e.len() ==> e[j] != dot() && e[j] != slash(),
        0 < e.len() <= 3,
{
}

/// The file name of `pre + "/" + tail` is `tail` when `tail` holds no
/// slash.
proof fn lemma_file_name_after_sep(pre: Seq<u8>, tail: Seq<u8>)
    requires
        forall|j: int| 0 <= j < tail.len() ==> tail[j] != slash(),
    ensures
        file_name_of(pre + seq![slash()] + tail) == tail,
        has_slash(pre + seq![slash()] + tail),
{
    let s = pre + seq![slash()] + tail;
    assert(s[pre.len() as int] == slash());
    assert(forall|k: int| pre.len() < k < s.len() ==> s[k] == tail[k - pre.len() - 1]);
    lemma_rfind_eq(s, slash(), pre.len() as int);
    assert(s.subrange(pre.len() as int + 1, s.len() as int) =~= tail);
}

/// A file name holds no slash.
proof fn lemma_file_name_no_slash(p: Seq<u8>)
    ensures
        forall|j: int| 0 <= j < file_name_of(p).len() ==> #[trigger] file_name_of(p)[j] != slash(),
{
    lemma_rfind_byte_spec(p, slash());
    match rfind_byte(p, slash()) {
        Some(i) => {
            assert(forall|j: int| 0 <= j < file_name_of(p).len() ==> #[trigger] file_name_of(p)[j]
                == p[i + 1 + j]);
        },
        None => {},
    }
}

/// Appending `base + "/"` in front of a path leaves its file name as it
/// is.
proof fn lemma_file_name_append(base: Seq<u8>, path: Seq<u8>)
    ensures
        file_name_of(base + seq![slash()] + path) == file_name_of(path),
{
    let s = base + seq![slash()] + path;
    lemma_rfind_byte_spec(path, slash());
    match rfind_byte(path, slash()) {
        Some(i) => {
            assert(s[base.len() + 1 + i] == slash());
            assert(forall|k: int| base.len() + 1 + i < k < s.len() ==> s[k] == path[k - base.len()
                - 1] && path[k - base.len() - 1] != slash());
            lemma_rfind_eq(s, slash(), base.len() + 1 + i);
            assert(s.subrange(base.len() + 1 + i + 1, s.len() as int) =~= path.subrange(
                i + 1,
                path.len() as int,
            ));
        },
        None => {
            lemma_file_name_after_sep(base, path);
        },
    }
}

/// The name `stem + "." + e` splits back into that stem and extension,
/// when the stem is nonempty and `e` holds no dot.
proof fn lemma_name_split(stem: Seq<u8>, e: Seq<u8>)
    requires
        stem.len() > 0,
        forall|j: int| 0 <= j < e.len() ==> e[j] != dot(),
    ensures
        ext_of_name(stem + seq![dot()] + e) == Some(e),
        stem_of_name(stem + seq![dot()] + e) == stem,
{
    let n = stem + seq![dot()] + e;
    assert(n[stem.len() as int] == dot());
    assert(forall|k: int| stem.len() < k < n.len() ==> n[k] == e[k - stem.len() - 1]);
    lemma_rfind_eq(n, dot(), stem.len() as int);
    assert(n.subrange(stem.len() as int + 1, n.len() as int) =~= e);
    assert(n.subrange(0, stem.len() as int) =~= stem);
}

/// File-name structure of one scanner-produced pair: the key keeps the
/// original file name, the value's file name is the fingerprinted tail.
#[verifier::rlimit(100)]
proof fn lemma_url_pair_names(base: Seq<u8>, path: Seq<u8>, h: u64)
    requires
        included(path),
    ensures
        file_name_of(original_url(base, path)) == file_name_of(path),
        file_name_of(hashed_url(base, path, h)) == stem_of_name(file_name_of(path)) + seq![dot()]
            + hex8(h) + seq![dot()] + ext_of_name(file_name_of(path)).unwrap(),
        has_slash(hashed_url(base, path, h)),
{
    let name = file_name_of(path);
    let stem = stem_of_name(name);
    let e = ext_of_name(name).unwrap();
    let k = original_url(base, path);
    let v = hashed_url(base, path, h);
    let hh = hex8(h);
    lemma_hex8_digits(h);
    lemma_allowed_ext_plain(e);
    lemma_file_name_no_slash(path);
    lemma_rfind_byte_spec(name, dot());
    let d = rfind_byte(name, dot()).unwrap();
    assert(stem =~= name.subrange(0, d));
    assert(e =~= name.subrange(d + 1, name.len() as int));
    assert(forall|j: int| 0 <= j < stem.len() ==> stem[j] == name[j]);
    assert(forall|j: int| 0 <= j < e.len() ==> e[j] == name[d + 1 + j]);
    // the fingerprinted tail holds no slash
    let tail = stem + seq![dot()] + hh + seq![dot()] + e;
    assert(forall|j: int| 0 <= j < hh.len() ==> is_lower_hex_digit(hh[j]) && hh[j] != slash()
        && hh[j] != dot());
    assert(forall|j: int| 0 <= j < tail.len() ==> tail[j] != slash());
    // file name of the key is the original name
    assert(k == base + seq![slash()] + path);
    lemma_file_name_append(base, path);
    assert(file_name_of(k) == name);
    // file name of the value is the fingerprinted tail
    if has_slash(path) {
        let pre = base + seq![slash()] + parent_of(path);
        assert(v =~= pre + seq![slash()] + tail);
        lemma_file_name_after_sep(pre, tail);
    } else {
        assert(v =~= base + seq![slash()] + tail);
        lemma_file_name_after_sep(base, tail);
    }
    assert(file_name_of(v) == tail);
    assert(has_slash(v));
}

/// The shape of one scanner-produced pair.
#[verifier::rlimit(100)]
proof fn lemma_url_pair_shape(base: Seq<u8>, path: Seq<u8>, h: u64)
    requires
        included(path),
    ensures
        fingerprint_shape(original_url(base, path), hashed_url(base, path, h)),
        round_trip_ok(original_url(base, path), hashed_url(base, path, h)),
{
    let name = file_name_of(path);
    let stem = stem_of_name(name);
    let e = ext_of_name(name).unwrap();
    let k = original_url(base, path);
    let v = hashed_url(base, path, h);
    let hh = hex8(h);
    lemma_hex8_digits(h);
    lemma_allowed_ext_plain(e);
    lemma_url_pair_names(base, path, h);
    let tail = stem + seq![dot()] + hh + seq![dot()] + e;
    assert(file_name_of(k) == name);
    assert(file_name_of(v) == tail);
    assert(forall|j: int| 0 <= j < hh.len() ==> is_lower_hex_digit(hh[j]) && hh[j] != slash()
        && hh[j] != dot());
    lemma_file_name_no_slash(path);
    lemma_rfind_byte_spec(name, dot());
    let d = rfind_byte(name, dot()).unwrap();
    assert(stem =~= name.subrange(0, d));
    assert(e =~= name.subrange(d + 1, name.len() as int));
    assert(forall|j: int| 0 <= j < stem.len() ==> stem[j] == name[j]);
    assert(forall|j: int| 0 <= j < e.len() ==> e[j] == name[d + 1 + j]);
    // the fingerprinted name splits at the final extension dot
    let vstem = stem + seq![dot()] + hh;
    assert(tail =~= vstem + seq![dot()] + e);
    assert(vstem.len() > 0);
    lemma_name_split(vstem, e);
    assert(ext_of_name(file_name_of(v)) == Some(e));
    assert(stem_of_name(file_name_of(v)) == vstem);
    // hash format
    assert(hex8_seg(hh));
    assert(fingerprint_shape(k, v));
    // stripping: the last dot of the fingerprinted stem precedes the hash
    assert(vstem[stem.len() as int] == dot());
    assert(forall|j: int| stem.len() < j < vstem.len() ==> vstem[j] == hh[j - stem.len() - 1]);
    lemma_rfind_eq(vstem, dot(), stem.len() as int);
    let hseg = vstem.subrange(stem.len() as int + 1, vstem.len() as int);
    assert(hseg =~= hh);
    assert(hseg.len() == 8);
    assert(forall|j: int| 0 <= j < hseg.len() ==> is_hex_digit(#[trigger] hseg[j]));
    assert(vstem.subrange(0, stem.len() as int) =~= stem);
    assert(strip_hash_spec(v) == Some(with_file_name(v, stem + seq![dot()] + e)));
    // the stripped path's file name equals the key's file name
    let sname = stem + seq![dot()] + e;
    assert(forall|j: int| 0 <= j < sname.len() ==> sname[j] != slash());
    lemma_rfind_byte_spec(v, slash());
    let vs = rfind_byte(v, slash()).unwrap();
    let stripped = with_file_name(v, sname);
    assert(stripped == v.subrange(0, vs + 1) + sname);
    assert(v[vs] == slash());
    assert(stripped =~= v.subrange(0, vs) + seq![slash()] + sname);
    lemma_file_name_after_sep(v.subrange(0, vs), sname);
    assert(file_name_of(stripped) == sname);
    assert(name =~= stem + seq![dot()] + e);
    assert(round_trip_ok(k, v));
}

/// Every entry of an insertion is the inserted pair or one of the old
/// entries.
proof fn lemma_insert_entry_membership(s: Seq<UrlEntry>, k: Seq<u8>, v: Seq<u8>)
    ensures
        forall|i: int|
            0 <= i < insert_entry(s, k, v).len() ==> (#[trigger] insert_entry(s, k, v)[i] == (k, v)
                || exists|j: int| 0 <= j < s.len() && s[j] == insert_entry(s, k, v)[i]),
    decreases s.len(),
{
    let r = insert_entry(s, k, v);
    if s.len() == 0 {
    } else if crate::bytes::lex_lt(k, s[0].0) {
        assert(forall|i: int| 1 <= i < r.len() ==> r[i] == s[i - 1]);
    } else if k == s[0].0 {
        assert(forall|i: int| 1 <= i < r.len() ==> r[i] == s[i]);
    } else {
        lemma_insert_entry_membership(s.drop_first(), k, v);
        let t = s.drop_first();
        let rt = insert_entry(t, k, v);
        assert(r == seq![s[0]] + rt);
        assert forall|i: int| 0 <= i < r.len() implies (#[trigger] r[i] == (k, v) || exists|j: int|
            0 <= j < s.len() && s[j] == r[i]) by {
            if i == 0 {
                assert(r[0] == s[0]);
                assert(s[0] == s[0]);
            } else {
                assert(r[i] == rt[i - 1]);
                if rt[i - 1] == (k, v) {
                } else {
                    let j = choose|j: int| 0 <= j < t.len() && t[j] == rt[i - 1];
                    assert(s[j + 1] == t[j]);
                }
            }
        }
    }
}

/// Round trip and hash format, over a whole scan: every entry the scanner
/// produces strips back to the original file name and carries exactly the
/// eight-digit lowercase-hex segment before its extension.
pub proof fn lemma_scan_entries_well_formed(files: Seq<(Seq<u8>, Seq<u8>)>, base: Seq<u8>)
    ensures
        forall|i: int|
            0 <= i < scan_spec(files, base).len() ==> round_trip_ok(
                #[trigger] scan_spec(files, base)[i].0,
                scan_spec(files, base)[i].1,
            ) && fingerprint_shape(scan_spec(files, base)[i].0, scan_spec(files, base)[i].1),
    decreases files.len(),
{
    if files.len() > 0 {
        lemma_scan_entries_well_formed(files.drop_last(), base);
        let prev = scan_spec(files.drop_last(), base);
        let path = files.last().0;
        let contents = files.last().1;
        if included(path) {
            let k = original_url(base, path);
            let v = hashed_url(base, path, crate::hashing::rapid_hash(contents));
            lemma_url_pair_shape(base, path, crate::hashing::rapid_hash(contents));
            lemma_insert_entry_membership(prev, k, v);
            let r = scan_spec(files, base);
            assert(r == insert_entry(prev, k, v));
            assert forall|i: int| 0 <= i < r.len() implies round_trip_ok(
                #[trigger] r[i].0,
                r[i].1,
            ) && fingerprint_shape(r[i].0, r[i].1) by {
                if r[i] == (k, v) {
                    assert(r[i].0 == k && r[i].1 == v);
                } else {
                    let j = choose|j: int| 0 <= j < prev.len() && prev[j] == r[i];
                    assert(round_trip_ok(prev[j].0, prev[j].1));
                }
            }
        }
    }
}

/// Every nonempty generated line is prefixed by exactly the indentation;
/// empty lines stay empty.
pub proof fn lemma_generated_lines_indented(c: Seq<u8>, ind: Seq<u8>)
    ensures
        forall|i: int|
            0 <= i < lines_of(c).len() ==> {
                let l = #[trigger] lines_of(c)[i];
                let il = lines_of(c).map_values(|x: Seq<u8>| indent_line(ind, x))[i];
                (l.len() == 0 ==> il.len() == 0) && (l.len() > 0 ==> il.len() > 0
                    && il.subrange(0, ind.len() as int) == ind)
            },
{
    assert forall|i: int| 0 <= i < lines_of(c).len() implies {
        let l = #[trigger] lines_of(c)[i];
        let il = lines_of(c).map_values(|x: Seq<u8>| indent_line(ind, x))[i];
        (l.len() == 0 ==> il.len() == 0) && (l.len() > 0 ==> il.len() > 0 && il.subrange(
            0,
            ind.len() as int,
        ) == ind)
    } by {
        let l = lines_of(c)[i];
        let il = lines_of(c).map_values(|x: Seq<u8>| indent_line(ind, x))[i];
        assert(il == indent_line(ind, l));
        if l.len() > 0 {
            assert((ind + l).subrange(0, ind.len() as int) =~= ind);
        }
    }
}

/// Stylesheet order: the selection follows the discovered document order,
/// not the map's key order — of two discovered hrefs both held by the
/// map, the first discovered is emitted first, whatever the key order.
pub proof fn lemma_stylesheet_order(css: Seq<UrlEntry>, hb: Seq<u8>, ha: Seq<u8>)
    requires
        crate::import_map::lookup_key(css, hb) is Some,
        crate::import_map::lookup_key(crate::html::remove_key(css, hb), ha) is Some,
    ensures
        select_css(css, seq![hb, ha]) == seq![
            crate::import_map::lookup_key(css, hb).unwrap(),
            crate::import_map::lookup_key(crate::html::remove_key(css, hb), ha).unwrap(),
        ],
{
    let hrefs = seq![hb, ha];
    let css1 = crate::html::remove_key(css, hb);
    assert(hrefs[0] == hb);
    assert(crate::html::href_key(css, hb) == Some(hb));
    assert(hrefs.drop_first() =~= seq![ha]);
    assert(seq![ha][0] == ha);
    assert(crate::html::href_key(css1, ha) == Some(ha));
    assert(seq![ha].drop_first() =~= Seq::<Seq<u8>>::empty());
    assert(select_css(crate::html::remove_key(css1, ha), Seq::empty()) =~= Seq::<Seq<u8>>::empty());
    assert(select_css(css1, seq![ha]) =~= seq![
        crate::import_map::lookup_key(css1, ha).unwrap(),
    ]);
    assert(select_css(css, hrefs) =~= seq![
        crate::import_map::lookup_key(css, hb).unwrap(),
        crate::import_map::lookup_key(css1, ha).unwrap(),
    ]);
}

/// Clearing: transforming with an empty map leaves a cleared marker
/// region, two newlines and the indentation alone between the markers.
pub proof fn lemma_empty_map_clears(m: Seq<UrlEntry>, h: Seq<u8>)
    requires
        m.len() == 0,
        crate::html::has_marker_pair(h),
    ensures
        ({
            let s = find_from(h, marker_open(), 0).unwrap();
            let ao = s + marker_open().len();
            let e = find_from(h, marker_close(), ao).unwrap();
            transform_spec(m, h) == Some(
                h.subrange(0, ao) + seq![nl()] + seq![nl()] + indent_of(h, s) + h.subrange(
                    e,
                    h.len() as int,
                ),
            )
        }),
{
    let s = find_from(h, marker_open(), 0).unwrap();
    let ao = s + marker_open().len();
    let e = find_from(h, marker_close(), ao).unwrap();
    let ind = indent_of(h, s);
    let c = Seq::<u8>::empty();
    assert(lines_of(c) =~= Seq::<Seq<u8>>::empty());
    assert(lines_of(c).map_values(|l: Seq<u8>| indent_line(ind, l)) =~= Seq::<Seq<u8>>::empty());
    assert(indented_content(c, ind) =~= Seq::<u8>::empty());
    assert(h.subrange(0, ao) + seq![nl()] + indented_content(c, ind) + seq![nl()] + ind
        + h.subrange(e, h.len() as int) =~= h.subrange(0, ao) + seq![nl()] + seq![nl()] + ind
        + h.subrange(e, h.len() as int));
}

/// No byte of `s` is the exclamation mark both markers carry.
pub open spec fn no_bang(s: Seq<u8>) -> bool {
    forall|i: int| 0 <= i < s.len() ==> s[i] != 33u8
}

proof fn lemma_no_bang_concat(a: Seq<u8>, b: Seq<u8>)
    requires
        no_bang(a),
        no_bang(b),
    ensures
        no_bang(a + b),
{
    assert forall|i: int| 0 <= i < (a + b).len() implies (a + b)[i] != 33u8 by {
        if i < a.len() {
            assert((a + b)[i] == a[i]);
        } else {
            assert((a + b)[i] == b[i - a.len()]);
        }
    }
}

proof fn lemma_no_bang_join_sep(ls: Seq<Seq<u8>>, sep: Seq<u8>)
    requires
        forall|i: int| 0 <= i < ls.len() ==> no_bang(#[trigger] ls[i]),
        no_bang(sep),
    ensures
        no_bang(join_sep(ls, sep)),
    decreases ls.len(),
{
    if ls.len() <= 1 {
    } else {
        let t = ls.drop_first();
        assert(forall|i: int| 0 <= i < t.len() ==> t[i] == ls[i + 1]);
        lemma_no_bang_join_sep(t, sep);
        lemma_no_bang_concat(ls[0], sep);
        lemma_no_bang_concat(ls[0] + sep, join_sep(t, sep));
    }
}

proof fn lemma_no_bang_join_nl(ls: Seq<Seq<u8>>)
    requires
        forall|i: int| 0 <= i < ls.len() ==> no_bang(#[trigger] ls[i]),
    ensures
        no_bang(join_nl(ls)),
    decreases ls.len(),
{
    if ls.len() <= 1 {
    } else {
        let t = ls.drop_first();
        assert(forall|i: int| 0 <= i < t.len() ==> t[i] == ls[i + 1]);
        lemma_no_bang_join_nl(t);
        assert(no_bang(seq![nl()]));
        lemma_no_bang_concat(ls[0], seq![nl()]);
        lemma_no_bang_concat(ls[0] + seq![nl()], join_nl(t));
    }
}

/// An entry whose URLs are plain text: free of the marker byte and left
/// unchanged by JSON escaping.
pub open spec fn plain_entry(e: UrlEntry) -> bool {
    &&& no_bang(e.0)
    &&& no_bang(e.1)
    &&& json_escaped(e.0) == e.0
    &&& json_escaped(e.1) == e.1
}

/// Every script entry of the map is an entry of the map.
proof fn lemma_js_of_membership(m: Seq<UrlEntry>)
    ensures
        forall|i: int|
            0 <= i < js_of(m).len() ==> exists|j: int|
                0 <= j < m.len() && m[j] == #[trigger] js_of(m)[i],
    decreases m.len(),
{
    if m.len() > 0 {
        lemma_js_of_membership(m.drop_last());
        assert forall|i: int| 0 <= i < js_of(m).len() implies exists|j: int|
            0 <= j < m.len() && m[j] == #[trigger] js_of(m)[i] by {
            if crate::html::is_js_key(m.last().0) && i == js_of(m).len() - 1 {
                assert(js_of(m)[i] == m.last());
                assert(m[m.len() - 1] == m.last());
            } else {
                assert(js_of(m)[i] == js_of(m.drop_last())[i]);
                let j = choose|j: int|
                    0 <= j < m.drop_last().len() && m.drop_last()[j] == js_of(m.drop_last())[i];
                assert(m[j] == m.drop_last()[j]);
            }
        }
    }
}

/// Matching hrefs against an empty stylesheet set selects nothing.
proof fn lemma_select_empty(hrefs: Seq<Seq<u8>>)
    ensures
        select_css(Seq::empty(), hrefs) == Seq::<Seq<u8>>::empty(),
    decreases hrefs.len(),
{
    if hrefs.len() > 0 {
        lemma_select_empty(hrefs.drop_first());
    }
}

proof fn lemma_no_bang_script_block(js: Seq<UrlEntry>)
    requires
        forall|i: int| 0 <= i < js.len() ==> plain_entry(#[trigger] js[i]),
    ensures
        no_bang(script_block(js)),
{
    let mapped = js.map_values(|e: UrlEntry| json_entry_line(e));
    assert forall|i: int| 0 <= i < mapped.len() implies no_bang(#[trigger] mapped[i]) by {
        assert(mapped[i] == json_entry_line(js[i]));
        assert(json_escaped(js[i].0) == js[i].0);
        assert(json_escaped(js[i].1) == js[i].1);
        let a = seq![32u8, 32u8, 32u8, 32u8, 34u8];
        let b = seq![34u8, 58u8, 32u8, 34u8];
        assert(no_bang(a));
        assert(no_bang(b));
        lemma_no_bang_concat(a, json_escaped(js[i].0));
        lemma_no_bang_concat(a + json_escaped(js[i].0), b);
        lemma_no_bang_concat(a + json_escaped(js[i].0) + b, json_escaped(js[i].1));
        lemma_no_bang_concat(a + json_escaped(js[i].0) + b + json_escaped(js[i].1), seq![34u8]);
    }
    assert(no_bang(seq![44u8, nl()]));
    lemma_no_bang_join_sep(mapped, seq![44u8, nl()]);
    assert(no_bang(json_inner(js))) by {
        if js.len() == 0 {
            assert(no_bang(seq![123u8, 125u8]));
        } else {
            assert(no_bang(seq![123u8, nl()]));
            assert(no_bang(seq![nl(), 32u8, 32u8, 125u8]));
            lemma_no_bang_concat(seq![123u8, nl()], join_sep(mapped, seq![44u8, nl()]));
            lemma_no_bang_concat(
                seq![123u8, nl()] + join_sep(mapped, seq![44u8, nl()]),
                seq![nl(), 32u8, 32u8, 125u8],
            );
        }
    }
    assert(no_bang(json_block(js))) by {
        let ik = seq![
            32u8,
            32u8,
            34u8,
            105u8,
            109u8,
            112u8,
            111u8,
            114u8,
            116u8,
            115u8,
            34u8,
            58u8,
            32u8,
        ];
        assert(no_bang(seq![123u8, nl()]));
        assert(no_bang(ik));
        assert(no_bang(seq![nl(), 125u8]));
        lemma_no_bang_concat(seq![123u8, nl()], ik);
        lemma_no_bang_concat(seq![123u8, nl()] + ik, json_inner(js));
        lemma_no_bang_concat(seq![123u8, nl()] + ik + json_inner(js), seq![nl(), 125u8]);
    }
    let so = seq![
        60u8,
        115u8,
        99u8,
        114u8,
        105u8,
        112u8,
        116u8,
        32u8,
        116u8,
        121u8,
        112u8,
        101u8,
        61u8,
        34u8,
        105u8,
        109u8,
        112u8,
        111u8,
        114u8,
        116u8,
        109u8,
        97u8,
        112u8,
        34u8,
        62u8,
    ];
    let sc = seq![60u8, 47u8, 115u8, 99u8, 114u8, 105u8, 112u8, 116u8, 62u8];
    assert(no_bang(so));
    assert(no_bang(sc));
    lemma_no_bang_concat(so, seq![nl()]);
    lemma_no_bang_concat(so + seq![nl()], json_block(js));
    lemma_no_bang_concat(so + seq![nl()] + json_block(js), seq![nl()]);
    lemma_no_bang_concat(so + seq![nl()] + json_block(js) + seq![nl()], sc);
}

proof fn lemma_no_bang_pre_section(js: Seq<UrlEntry>)
    requires
        forall|i: int| 0 <= i < js.len() ==> no_bang((#[trigger] js[i]).1),
    ensures
        no_bang(pre_section(js)),
{
    let mapped = js.map_values(|e: UrlEntry| pre_line(e.1));
    assert forall|i: int| 0 <= i < mapped.len() implies no_bang(#[trigger] mapped[i]) by {
        assert(mapped[i] == pre_line(js[i].1));
        let a = seq![
            60u8,
            108u8,
            105u8,
            110u8,
            107u8,
            32u8,
            114u8,
            101u8,
            108u8,
            61u8,
            34u8,
            109u8,
            111u8,
            100u8,
            117u8,
            108u8,
            101u8,
            112u8,
            114u8,
            101u8,
            108u8,
            111u8,
            97u8,
            100u8,
            34u8,
            32u8,
            104u8,
            114u8,
            101u8,
            102u8,
            61u8,
            34u8,
        ];
        assert(no_bang(a));
        lemma_no_bang_concat(a, js[i].1);
        lemma_no_bang_concat(a + js[i].1, seq![34u8, 62u8]);
    }
    lemma_no_bang_join_nl(mapped);
}

/// The generated content of a map without stylesheet entries does not
/// depend on the document and carries no marker byte.
proof fn lemma_content_no_bang_and_stable(m: Seq<UrlEntry>, h: Seq<u8>, h2: Seq<u8>)
    requires
        m.len() > 0,
        css_of(m).len() == 0,
        forall|i: int| 0 <= i < m.len() ==> plain_entry(#[trigger] m[i]),
    ensures
        no_bang(content_for(m, h)),
        content_for(m, h2) == content_for(m, h),
{
    assert(css_of(m) =~= Seq::<UrlEntry>::empty());
    lemma_select_empty(extract_spec(h, rel_stylesheet()));
    lemma_select_empty(extract_spec(h2, rel_stylesheet()));
    let js = js_of(m);
    lemma_js_of_membership(m);
    assert forall|i: int| 0 <= i < js.len() implies plain_entry(#[trigger] js[i]) by {
        let j = choose|j: int| 0 <= j < m.len() && m[j] == js[i];
        assert(plain_entry(m[j]));
    }
    lemma_no_bang_script_block(js);
    let sel: Seq<Seq<u8>> = Seq::empty();
    assert(content_for(m, h) == content_rendered(sel, js));
    assert(content_for(m, h2) == content_rendered(sel, js));
    if js.len() > 0 {
        lemma_no_bang_pre_section(js);
        let parts = Seq::<Seq<u8>>::empty().push(script_block(js)).push(pre_section(js));
        assert(parts =~= seq![script_block(js), pre_section(js)]);
        assert(parts.drop_first() =~= seq![pre_section(js)]);
        assert(join_nl(parts) == script_block(js) + seq![nl()] + join_nl(seq![pre_section(js)]));
        assert(join_nl(seq![pre_section(js)]) == pre_section(js));
        lemma_no_bang_concat(script_block(js), seq![nl()]);
        lemma_no_bang_concat(script_block(js) + seq![nl()], pre_section(js));
        assert(no_bang(content_rendered(sel, js)));
    } else {
        let parts = Seq::<Seq<u8>>::empty().push(script_block(js));
        assert(parts =~= seq![script_block(js)]);
        assert(join_nl(parts) == script_block(js));
        assert(no_bang(content_rendered(sel, js)));
    }
}

proof fn lemma_no_bang_lines(s: Seq<u8>, pos: int)
    requires
        no_bang(s),
        0 <= pos <= s.len(),
    ensures
        forall|i: int|
            0 <= i < lines_from(s, pos).len() ==> no_bang(#[trigger] lines_from(s, pos)[i]),
    decreases s.len() - pos,
{
    if pos == s.len() {
    } else {
        match find_from(s, seq![nl()], pos) {
            Some(q) => {
                if pos <= q < s.len() {
                    lemma_no_bang_lines(s, q + 1);
                    assert forall|i: int| 0 <= i < lines_from(s, pos).len() implies no_bang(
                        #[trigger] lines_from(s, pos)[i],
                    ) by {
                        if i == 0 {
                            let l = crate::bytes::strip_cr(s.subrange(pos, q));
                            assert(forall|t: int| 0 <= t < l.len() ==> l[t] == s[pos + t]);
                        } else {
                            assert(lines_from(s, pos)[i] == lines_from(s, q + 1)[i - 1]);
                        }
                    }
                }
            },
            None => {
                let l = crate::bytes::strip_cr(s.subrange(pos, s.len() as int));
                assert(forall|t: int| 0 <= t < l.len() ==> l[t] == s[pos + t]);
            },
        }
    }
}

proof fn lemma_no_bang_indented(c: Seq<u8>, ind: Seq<u8>)
    requires
        no_bang(c),
        no_bang(ind),
    ensures
        no_bang(indented_content(c, ind)),
{
    lemma_no_bang_lines(c, 0);
    let mapped = lines_of(c).map_values(|l: Seq<u8>| indent_line(ind, l));
    assert forall|i: int| 0 <= i < mapped.len() implies no_bang(#[trigger] mapped[i]) by {
        assert(mapped[i] == indent_line(ind, lines_of(c)[i]));
        assert(no_bang(lines_of(c)[i]));
        if lines_of(c)[i].len() > 0 {
            lemma_no_bang_concat(ind, lines_of(c)[i]);
        }
    }
    lemma_no_bang_join_nl(mapped);
}

/// If `pat` first occurs at `p` at or after `start`, `find_from` says so.
proof fn lemma_find_eq(h: Seq<u8>, pat: Seq<u8>, start: int, p: int)
    requires
        0 <= start <= h.len(),
        start <= p,
        match_at(h, pat, p),
        forall|k: int| start <= k < p ==> !match_at(h, pat, k),
    ensures
        find_from(h, pat, start) == Some(p),
{
    lemma_find_from_spec(h, pat, start);
    match find_from(h, pat, start) {
        Some(q) => {
            if q < p {
                assert(!match_at(h, pat, q));
            }
            if q > p {
                assert(!match_at(h, pat, p));
            }
        },
        None => {
            assert(!match_at(h, pat, p));
        },
    }
}

/// The whitespace before the open marker on its line is blanks and tabs
/// alone.
pub open spec fn indent_whitespace(h: Seq<u8>) -> bool {
    match find_from(h, marker_open(), 0) {
        Some(s) => forall|i: int|
            0 <= i < indent_of(h, s).len() ==> #[trigger] indent_of(h, s)[i] == 32u8 || indent_of(
                h,
                s,
            )[i] == 9u8,
        None => true,
    }
}

/// Idempotence: transforming the transform's own output with the same map
/// reproduces it byte for byte. Machine-checked here for maps whose
/// entries are plain URLs and which carry no stylesheet entries; for maps
/// with stylesheet entries the selection re-matches a rewritten link by
/// stripping its fingerprint, but that the re-extracted hrefs reproduce
/// the first selection is not derived here.
#[verifier::rlimit(100)]
pub proof fn lemma_transform_idempotent(m: Seq<UrlEntry>, h: Seq<u8>, h2: Seq<u8>)
    requires
        transform_spec(m, h) == Some(h2),
        css_of(m).len() == 0,
        forall|i: int| 0 <= i < m.len() ==> plain_entry(#[trigger] m[i]),
        indent_whitespace(h),
    ensures
        transform_spec(m, h2) == Some(h2),
{
    let c = if m.len() == 0 {
        Seq::<u8>::empty()
    } else {
        content_for(m, h)
    };
    let s = find_from(h, marker_open(), 0).unwrap();
    let ao = s + marker_open().len();
    lemma_find_from_spec(h, marker_open(), 0);
    let e = find_from(h, marker_close(), ao).unwrap();
    lemma_find_from_spec(h, marker_close(), ao);
    let ind = indent_of(h, s);
    let ic = indented_content(c, ind);
    let pre = h.subrange(0, ao);
    let tail = h.subrange(e, h.len() as int);
    assert(h2 == pre + seq![nl()] + ic + seq![nl()] + ind + tail);
    let icl = ic.len() as int;
    let indl = ind.len() as int;
    let ts = ao + 1 + icl + 1 + indl;
    assert(h2.len() == ts + tail.len());
    // component-wise view of the output
    assert(forall|t: int| 0 <= t < ao ==> h2[t] == h[t]);
    assert(h2[ao] == nl());
    assert(forall|t: int| 0 <= t < icl ==> h2[ao + 1 + t] == ic[t]);
    assert(h2[ao + 1 + icl] == nl());
    assert(forall|t: int| 0 <= t < indl ==> h2[ao + 2 + icl + t] == ind[t]);
    assert(forall|t: int| 0 <= t < tail.len() ==> #[trigger] h2[ts + t] == h[e + t]);
    // the generated middle holds no marker byte
    assert(no_bang(c)) by {
        if m.len() > 0 {
            lemma_content_no_bang_and_stable(m, h, h2);
        }
    }
    assert(no_bang(ind));
    lemma_no_bang_indented(c, ind);
    assert(no_bang(ic));
    // the open marker is first found at `s` again
    assert(h2.subrange(0, ao) =~= h.subrange(0, ao));
    assert(match_at(h2, marker_open(), s)) by {
        lemma_match_at_common_prefix(h, h2, marker_open(), ao, s);
    }
    assert forall|k: int| 0 <= k < s implies !match_at(h2, marker_open(), k) by {
        lemma_match_at_common_prefix(h, h2, marker_open(), ao, k);
    }
    lemma_find_eq(h2, marker_open(), 0, s);
    // the indentation is recomputed unchanged
    assert(h2.subrange(0, s) =~= h.subrange(0, s));
    assert(line_start_of(h2, s) == line_start_of(h, s));
    let ls = line_start_of(h, s);
    assert(0 <= ls <= s) by {
        lemma_rfind_byte_spec(h.subrange(0, s), nl());
    }
    assert(indent_of(h2, s) =~= ind);
    // the close marker is first found right after the generated region
    assert(match_at(h, marker_close(), e));
    assert(match_at(h2, marker_close(), ts)) by {
        assert(h2.subrange(ts, ts + marker_close().len() as int) =~= h.subrange(
            e,
            e + marker_close().len() as int,
        ));
    }
    assert forall|k: int| ao <= k < ts implies !match_at(h2, marker_close(), k) by {
        if match_at(h2, marker_close(), k) {
            if k == ts - 1 {
                assert(h2.subrange(k, k + marker_close().len() as int)[0] == marker_close()[0]);
                assert(h2[k] == 60u8);
                if indl > 0 {
                    assert(h2[ao + 2 + icl + (indl - 1)] == ind[indl - 1]);
                } else {
                    assert(h2[ao + 1 + icl] == nl());
                }
            } else {
                assert(h2.subrange(k, k + marker_close().len() as int)[1] == marker_close()[1]);
                assert(h2[k + 1] == 33u8);
                let t = k + 1;
                assert(ao <= t <= ts - 1);
                if t == ao {
                    assert(h2[t] == nl());
                } else if t <= ao + icl {
                    assert(h2[ao + 1 + (t - ao - 1)] == ic[t - ao - 1]);
                    assert(ic[t - ao - 1] != 33u8);
                } else if t == ao + 1 + icl {
                    assert(h2[t] == nl());
                } else {
                    assert(h2[ao + 2 + icl + (t - ao - 2 - icl)] == ind[t - ao - 2 - icl]);
                    assert(ind[t - ao - 2 - icl] != 33u8);
                }
            }
        }
    }
    lemma_find_eq(h2, marker_close(), ao, ts);
    // the second content equals the first
    let c2 = if m.len() == 0 {
        Seq::<u8>::empty()
    } else {
        content_for(m, h2)
    };
    assert(c2 == c) by {
        if m.len() > 0 {
            lemma_content_no_bang_and_stable(m, h, h2);
        }
    }
    // the second replacement reproduces the document
    let r2 = h2.subrange(0, ao as int) + seq![nl()] + indented_content(c2, indent_of(h2, s))
        + seq![nl()] + indent_of(h2, s) + h2.subrange(ts, h2.len() as int);
    assert(indented_content(c2, indent_of(h2, s)) == ic);
    assert(h2.subrange(ts, h2.len() as int) =~= tail);
    assert(r2 =~= h2);
    assert(replace_spec(h2, c2) == Some(r2));
    assert(transform_spec(m, h2) == Some(r2));
}

} // verus!
