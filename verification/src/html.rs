//! The marker-delimited HTML transformation: locate the import-map marker
//! pair, and replace the region between the markers with generated markup,
//! re-indented to match the open marker's line.

use vstd::prelude::*;
use crate::bytes::{
    contains_sub, find_from, find_sub_from, join_nl, join_sep, lemma_find_from_spec,
    lemma_join_nl_push, lemma_join_sep_push, lemma_rfind_byte_spec, lines_of, nl,
    rfind_byte, rfind_byte_in, split_lines,
};
use crate::import_map::{lookup_key, strip_hash_spec, ImportMap, UrlEntry};
use crate::paths::{ext_css, ext_js, ext_mjs, ext_of_name, ext_of_name_slice, file_name_of, file_name_slice};

verus! {

/// `<!-- IMPORTMAP -->`
pub open spec fn marker_open() -> Seq<u8> {
    seq![
        60u8,
        33u8,
        45u8,
        45u8,
        32u8,
        73u8,
        77u8,
        80u8,
        79u8,
        82u8,
        84u8,
        77u8,
        65u8,
        80u8,
        32u8,
        45u8,
        45u8,
        62u8,
    ]
}

/// `<!-- /IMPORTMAP -->`
pub open spec fn marker_close() -> Seq<u8> {
    seq![
        60u8,
        33u8,
        45u8,
        45u8,
        32u8,
        47u8,
        73u8,
        77u8,
        80u8,
        79u8,
        82u8,
        84u8,
        77u8,
        65u8,
        80u8,
        32u8,
        45u8,
        45u8,
        62u8,
    ]
}

/// The start of the line that position `p` sits on.
pub open spec fn line_start_of(h: Seq<u8>, p: int) -> int {
    match rfind_byte(h.subrange(0, p), nl()) {
        Some(i) => i + 1,
        None => 0,
    }
}

/// The literal text between the start of its line and the open marker:
/// the indentation applied to every generated line.
pub open spec fn indent_of(h: Seq<u8>, p: int) -> Seq<u8> {
    h.subrange(line_start_of(h, p), p)
}

/// A generated line, indented unless empty.
pub open spec fn indent_line(ind: Seq<u8>, l: Seq<u8>) -> Seq<u8> {
    if l.len() == 0 {
        l
    } else {
        ind + l
    }
}

/// The content split into lines, each nonempty line indented, joined back
/// with newlines.
pub open spec fn indented_content(c: Seq<u8>, ind: Seq<u8>) -> Seq<u8> {
    join_nl(lines_of(c).map_values(|l: Seq<u8>| indent_line(ind, l)))
}

/// Both markers present: the open marker somewhere, the close marker at or
/// after the end of the open marker.
pub open spec fn has_marker_pair(h: Seq<u8>) -> bool {
    match find_from(h, marker_open(), 0) {
        None => false,
        Some(s) => find_from(h, marker_close(), s + marker_open().len()) is Some,
    }
}

/// What replacing the marker region of `h` by `content` yields: everything
/// through the open marker, a newline, the indented content, a newline and
/// the indentation, then everything from the close marker on. Nothing when
/// a marker is missing.
pub open spec fn replace_spec(h: Seq<u8>, content: Seq<u8>) -> Option<Seq<u8>> {
    match find_from(h, marker_open(), 0) {
        None => None,
        Some(s) => {
            let ao = s + marker_open().len();
            match find_from(h, marker_close(), ao) {
                None => None,
                Some(e) => {
                    let ind = indent_of(h, s);
                    Some(
                        h.subrange(0, ao) + seq![nl()] + indented_content(content, ind)
                            + seq![nl()] + ind + h.subrange(e, h.len() as int),
                    )
                },
            }
        },
    }
}

/// Append `ind`-indented `lines` to `out`, joined with newlines.
fn append_indented(out: &mut Vec<u8>, lines: &Vec<Vec<u8>>, ind: &[u8])
    ensures
        final(out)@ == old(out)@ + join_nl(
            lines@.map_values(|v: Vec<u8>| v@).map_values(|l: Seq<u8>| indent_line(ind@, l)),
        ),
{
    let ghost base = out@;
    let ghost mapped = lines@.map_values(|v: Vec<u8>| v@).map_values(
        |l: Seq<u8>| indent_line(ind@, l),
    );
    let mut k: usize = 0;
    proof {
        assert(mapped.subrange(0, 0) =~= Seq::<Seq<u8>>::empty());
        assert(out@ =~= base + join_nl(mapped.subrange(0, 0)));
    }
    while k < lines.len()
        invariant
            0 <= k <= lines@.len(),
            mapped == lines@.map_values(|v: Vec<u8>| v@).map_values(
                |l: Seq<u8>| indent_line(ind@, l),
            ),
            mapped.len() == lines@.len(),
            out@ == base + join_nl(mapped.subrange(0, k as int)),
        decreases lines@.len() - k,
    {
        if k > 0 {
            out.push(10u8);
        }
        let line = &lines[k];
        if line.len() > 0 {
            out.extend_from_slice(ind);
            out.extend_from_slice(line.as_slice());
        }
        proof {
            let prefix = mapped.subrange(0, k as int);
            lemma_join_nl_push(prefix, mapped[k as int]);
            assert(prefix.push(mapped[k as int]) =~= mapped.subrange(0, k + 1));
            assert(mapped[k as int] == indent_line(ind@, lines@[k as int]@));
            if k == 0 {
                assert(out@ =~= base + join_nl(mapped.subrange(0, 1)));
            } else {
                assert(out@ =~= base + (join_nl(prefix) + seq![nl()] + mapped[k as int]));
            }
        }
        k = k + 1;
    }
    proof {
        assert(mapped.subrange(0, mapped.len() as int) =~= mapped);
    }
}

impl ImportMap {

/// Replace the text strictly between the first open marker and the first
/// close marker after it by `content`, indented as the open marker's line
/// is. Nothing when a marker is missing.
pub fn replace_between_markers(html: &[u8], content: &[u8]) -> (r: Option<Vec<u8>>)
    ensures
        match r {
            Some(o) => replace_spec(html@, content@) == Some(o@),
            None => replace_spec(html@, content@) is None,
        },
        (r is Some) == has_marker_pair(html@),
{
    let hl = html.len();
    let open_arr: [u8; 18] = [
        60u8,
        33u8,
        45u8,
        45u8,
        32u8,
        73u8,
        77u8,
        80u8,
        79u8,
        82u8,
        84u8,
        77u8,
        65u8,
        80u8,
        32u8,
        45u8,
        45u8,
        62u8,
    ];
    let close_arr: [u8; 19] = [
        60u8,
        33u8,
        45u8,
        45u8,
        32u8,
        47u8,
        73u8,
        77u8,
        80u8,
        79u8,
        82u8,
        84u8,
        77u8,
        65u8,
        80u8,
        32u8,
        45u8,
        45u8,
        62u8,
    ];
    proof {
        assert(open_arr@ =~= marker_open());
        assert(close_arr@ =~= marker_close());
    }
    let s = match find_sub_from(html, open_arr.as_slice(), 0) {
        Some(s) => s,
        None => {
            return None;
        },
    };
    proof {
        lemma_find_from_spec(html@, marker_open(), 0);
    }
    let ao = s + 18;
    let e = match find_sub_from(html, close_arr.as_slice(), ao) {
        Some(e) => e,
        None => {
            return None;
        },
    };
    proof {
        lemma_find_from_spec(html@, marker_close(), ao as int);
    }
    let prefix = vstd::slice::slice_subrange(html, 0, s);
    let ls = match rfind_byte_in(prefix, 10u8) {
        Some(i) => {
            proof {
                lemma_rfind_byte_spec(prefix@, 10u8);
            }
            i + 1
        },
        None => 0,
    };
    let ind = vstd::slice::slice_subrange(html, ls, s);
    proof {
        assert(ind@ == indent_of(html@, s as int));
    }
    let mut out: Vec<u8> = Vec::new();
    out.extend_from_slice(vstd::slice::slice_subrange(html, 0, ao));
    out.push(10u8);
    let lines = split_lines(content);
    append_indented(&mut out, &lines, ind);
    proof {
        assert(lines@.map_values(|v: Vec<u8>| v@).map_values(|l: Seq<u8>| indent_line(ind@, l))
            == lines_of(content@).map_values(|l: Seq<u8>| indent_line(ind@, l)));
    }
    out.push(10u8);
    out.extend_from_slice(ind);
    out.extend_from_slice(vstd::slice::slice_subrange(html, e, hl));
    proof {
        assert(out@ =~= html@.subrange(0, ao as int) + seq![nl()] + indented_content(
            content@,
            indent_of(html@, s as int),
        ) + seq![nl()] + indent_of(html@, s as int) + html@.subrange(e as int, html@.len() as int));
    }
    Some(out)
}

}

/// `href="`
pub open spec fn href_dq() -> Seq<u8> {
    seq![104u8, 114u8, 101u8, 102u8, 61u8, 34u8]
}

/// `href='`
pub open spec fn href_sq() -> Seq<u8> {
    seq![104u8, 114u8, 101u8, 102u8, 61u8, 39u8]
}

/// `rel="<rel>"`
pub open spec fn rel_pat_dq(rel: Seq<u8>) -> Seq<u8> {
    seq![114u8, 101u8, 108u8, 61u8, 34u8] + rel + seq![34u8]
}

/// `rel='<rel>'`
pub open spec fn rel_pat_sq(rel: Seq<u8>) -> Seq<u8> {
    seq![114u8, 101u8, 108u8, 61u8, 39u8] + rel + seq![39u8]
}

/// The href value on a line: the text after the first `href="` (or, when
/// absent, `href='`) up to the next matching quote.
pub open spec fn href_of_line(line: Seq<u8>) -> Option<Seq<u8>> {
    let pos = match find_from(line, href_dq(), 0) {
        Some(i) => Some(i + 6),
        None => match find_from(line, href_sq(), 0) {
            Some(i) => Some(i + 6),
            None => None,
        },
    };
    match pos {
        None => None,
        Some(p) => {
            let quote = line[p - 1];
            match find_from(line, seq![quote], p) {
                Some(q) => Some(line.subrange(p, q)),
                None => None,
            }
        },
    }
}

/// The part of the document that link tags are read from: from the first
/// open marker (or the start) to the first close marker (or the end).
pub open spec fn scan_region(h: Seq<u8>) -> Seq<u8> {
    let start = match find_from(h, marker_open(), 0) {
        Some(s) => s,
        None => 0,
    };
    let end = match find_from(h, marker_close(), 0) {
        Some(e) => e,
        None => h.len() as int,
    };
    if start <= end {
        h.subrange(start, end)
    } else {
        Seq::empty()
    }
}

/// A line carries the given link relation, in double or single quotes.
pub open spec fn line_selected(l: Seq<u8>, rel: Seq<u8>) -> bool {
    contains_sub(l, rel_pat_dq(rel)) || contains_sub(l, rel_pat_sq(rel))
}

/// The href values of the selected lines, from line `k` on, in order.
pub open spec fn hrefs_from(ls: Seq<Seq<u8>>, rel: Seq<u8>, k: int) -> Seq<Seq<u8>>
    decreases ls.len() - k when 0 <= k <= ls.len()
{
    if k == ls.len() {
        Seq::empty()
    } else {
        let rest = hrefs_from(ls, rel, k + 1);
        if line_selected(ls[k], rel) {
            match href_of_line(ls[k]) {
                Some(u) => seq![u] + rest,
                None => rest,
            }
        } else {
            rest
        }
    }
}

/// The href values of all link tags with the given relation in the scan
/// region, in document order.
pub open spec fn extract_spec(h: Seq<u8>, rel: Seq<u8>) -> Seq<Seq<u8>> {
    hrefs_from(lines_of(scan_region(h)), rel, 0)
}

/// The href value on a line (executable).
fn href_of_line_in(line: &[u8]) -> (r: Option<Vec<u8>>)
    ensures
        match r {
            Some(u) => href_of_line(line@) == Some(u@),
            None => href_of_line(line@) is None,
        },
{
    let ln = line.len();
    proof {
        assert(ln == line@.len());
    }
    let hdq: [u8; 6] = [104u8, 114u8, 101u8, 102u8, 61u8, 34u8];
    let hsq: [u8; 6] = [104u8, 114u8, 101u8, 102u8, 61u8, 39u8];
    proof {
        assert(hdq@ =~= href_dq());
        assert(hsq@ =~= href_sq());
    }
    let p = match find_sub_from(line, hdq.as_slice(), 0) {
        Some(i) => {
            proof {
                lemma_find_from_spec(line@, href_dq(), 0);
            }
            i + 6
        },
        None => {
            match find_sub_from(line, hsq.as_slice(), 0) {
                Some(i) => {
                    proof {
                        lemma_find_from_spec(line@, href_sq(), 0);
                    }
                    i + 6
                },
                None => {
                    return None;
                },
            }
        },
    };
    let quote = line[p - 1];
    let qarr: [u8; 1] = [quote];
    proof {
        assert(qarr@ =~= seq![quote]);
    }
    match find_sub_from(line, qarr.as_slice(), p) {
        Some(q) => {
            proof {
                lemma_find_from_spec(line@, seq![quote], p as int);
            }
            Some(vstd::slice::slice_to_vec(vstd::slice::slice_subrange(line, p, q)))
        },
        None => None,
    }
}

impl ImportMap {

/// Extract the href values of link tags with the given rel attribute from
/// the scan region, preserving document order. Where a stray close marker
/// precedes the first open marker, the region, and the result, are empty.
pub fn extract_href_values(html: &[u8], rel: &[u8]) -> (r: Vec<Vec<u8>>)
    ensures
        r@.map_values(|v: Vec<u8>| v@) == extract_spec(html@, rel@),
{
    let hl = html.len();
    let open_arr: [u8; 18] = [
        60u8,
        33u8,
        45u8,
        45u8,
        32u8,
        73u8,
        77u8,
        80u8,
        79u8,
        82u8,
        84u8,
        77u8,
        65u8,
        80u8,
        32u8,
        45u8,
        45u8,
        62u8,
    ];
    let close_arr: [u8; 19] = [
        60u8,
        33u8,
        45u8,
        45u8,
        32u8,
        47u8,
        73u8,
        77u8,
        80u8,
        79u8,
        82u8,
        84u8,
        77u8,
        65u8,
        80u8,
        32u8,
        45u8,
        45u8,
        62u8,
    ];
    proof {
        assert(open_arr@ =~= marker_open());
        assert(close_arr@ =~= marker_close());
    }
    let start = match find_sub_from(html, open_arr.as_slice(), 0) {
        Some(s) => {
            proof {
                lemma_find_from_spec(html@, marker_open(), 0);
            }
            s
        },
        None => 0,
    };
    let end = match find_sub_from(html, close_arr.as_slice(), 0) {
        Some(e) => {
            proof {
                lemma_find_from_spec(html@, marker_close(), 0);
            }
            e
        },
        None => hl,
    };
    let region = if start <= end {
        vstd::slice::slice_subrange(html, start, end)
    } else {
        vstd::slice::slice_subrange(html, 0, 0)
    };
    proof {
        assert(region@ =~= scan_region(html@));
    }
    let lines = split_lines(region);
    let ghost lv = lines@.map_values(|v: Vec<u8>| v@);
    let mut pat_dq: Vec<u8> = Vec::new();
    let rel_dq_pre: [u8; 5] = [114u8, 101u8, 108u8, 61u8, 34u8];
    let rel_sq_pre: [u8; 5] = [114u8, 101u8, 108u8, 61u8, 39u8];
    pat_dq.extend_from_slice(rel_dq_pre.as_slice());
    pat_dq.extend_from_slice(rel);
    pat_dq.push(34u8);
    let mut pat_sq: Vec<u8> = Vec::new();
    pat_sq.extend_from_slice(rel_sq_pre.as_slice());
    pat_sq.extend_from_slice(rel);
    pat_sq.push(39u8);
    proof {
        assert(pat_dq@ =~= rel_pat_dq(rel@));
        assert(pat_sq@ =~= rel_pat_sq(rel@));
    }
    let mut out: Vec<Vec<u8>> = Vec::new();
    let mut k: usize = 0;
    proof {
        assert(out@.map_values(|v: Vec<u8>| v@) + hrefs_from(lv, rel@, 0) =~= hrefs_from(
            lv,
            rel@,
            0,
        ));
    }
    while k < lines.len()
        invariant
            0 <= k <= lv.len(),
            lv == lines@.map_values(|v: Vec<u8>| v@),
            pat_dq@ == rel_pat_dq(rel@),
            pat_sq@ == rel_pat_sq(rel@),
            out@.map_values(|v: Vec<u8>| v@) + hrefs_from(lv, rel@, k as int) == hrefs_from(
                lv,
                rel@,
                0,
            ),
        decreases lv.len() - k,
    {
        let ghost prev = out@.map_values(|v: Vec<u8>| v@);
        let line = &lines[k];
        let sel = crate::bytes::has_sub(line.as_slice(), pat_dq.as_slice())
            || crate::bytes::has_sub(line.as_slice(), pat_sq.as_slice());
        if sel {
            match href_of_line_in(line.as_slice()) {
                Some(u) => {
                    out.push(u);
                    proof {
                        assert(out@.map_values(|v: Vec<u8>| v@) =~= prev.push(
                            href_of_line(lv[k as int]).unwrap(),
                        ));
                        assert(prev.push(href_of_line(lv[k as int]).unwrap()) + hrefs_from(
                            lv,
                            rel@,
                            k + 1,
                        ) =~= prev + hrefs_from(lv, rel@, k as int));
                    }
                },
                None => {},
            }
        }
        k = k + 1;
    }
    proof {
        assert(hrefs_from(lv, rel@, lv.len() as int) =~= Seq::<Seq<u8>>::empty());
        assert(out@.map_values(|v: Vec<u8>| v@) =~= hrefs_from(lv, rel@, 0));
    }
    out
}

}

/// What serde_json's string escaping produces for the given text: quote,
/// backslash and control characters become escape sequences, everything
/// else stays. A pure function of the bytes alone.
pub uninterp spec fn json_escaped(s: Seq<u8>) -> Seq<u8>;

/// A byte serde_json's escaping leaves alone: printable ASCII other than
/// the quote and the backslash.
pub open spec fn json_plain_byte(b: u8) -> bool {
    32 <= b <= 126 && b != 34 && b != 92
}

/// Relies on serde_json::to_string on a string slice: it renders the
/// quoted JSON string, whose quotes are removed here, leaving the escaped
/// text. serde_json escapes only control characters, the quote and the
/// backslash, so text of plain bytes comes back unchanged.
#[verifier::external_body]
fn json_escape_bytes(b: &[u8]) -> (r: Vec<u8>)
    ensures
        r@ == json_escaped(b@),
        (forall|i: int| 0 <= i < b@.len() ==> json_plain_byte(b@[i])) ==> r@ == b@,
{
    let s = String::from_utf8_lossy(b);
    match serde_json::to_string(s.as_ref()) {
        Ok(j) => j.as_bytes()[1..j.len() - 1].to_vec(),
        Err(_) => Vec::new(),
    }
}

/// `stylesheet`
pub open spec fn rel_stylesheet() -> Seq<u8> {
    seq![115u8, 116u8, 121u8, 108u8, 101u8, 115u8, 104u8, 101u8, 101u8, 116u8]
}

pub open spec fn is_css_key(k: Seq<u8>) -> bool {
    ext_of_name(file_name_of(k)) == Some(ext_css())
}

pub open spec fn is_js_key(k: Seq<u8>) -> bool {
    ext_of_name(file_name_of(k)) == Some(ext_js()) || ext_of_name(file_name_of(k)) == Some(
        ext_mjs(),
    )
}

/// The stylesheet entries of the map, in map order.
pub open spec fn css_of(m: Seq<UrlEntry>) -> Seq<UrlEntry>
    decreases m.len(),
{
    if m.len() == 0 {
        Seq::empty()
    } else if is_css_key(m.last().0) {
        css_of(m.drop_last()).push(m.last())
    } else {
        css_of(m.drop_last())
    }
}

/// The script and module entries of the map, in map order.
pub open spec fn js_of(m: Seq<UrlEntry>) -> Seq<UrlEntry>
    decreases m.len(),
{
    if m.len() == 0 {
        Seq::empty()
    } else if is_js_key(m.last().0) {
        js_of(m.drop_last()).push(m.last())
    } else {
        js_of(m.drop_last())
    }
}

/// The entries with the first entry of key `k` removed.
pub open spec fn remove_key(s: Seq<UrlEntry>, k: Seq<u8>) -> Seq<UrlEntry>
    decreases s.len(),
{
    if s.len() == 0 {
        s
    } else if s[0].0 == k {
        s.drop_first()
    } else {
        seq![s[0]] + remove_key(s.drop_first(), k)
    }
}

/// The key a discovered href stands for: the href itself when the map
/// holds it, else the href with its fingerprint stripped — so a link
/// already rewritten by an earlier run still finds its entry, and the
/// transform's output is a fixed point.
pub open spec fn href_key(css: Seq<UrlEntry>, href: Seq<u8>) -> Option<Seq<u8>> {
    if lookup_key(css, href) is Some {
        Some(href)
    } else {
        match strip_hash_spec(href) {
            Some(orig) => if lookup_key(css, orig) is Some {
                Some(orig)
            } else {
                None
            },
            None => None,
        }
    }
}

/// The fingerprinted URLs of the stylesheet entries matched by the
/// discovered hrefs, in discovery order; each entry is consumed by its
/// first match.
pub open spec fn select_css(css: Seq<UrlEntry>, hrefs: Seq<Seq<u8>>) -> Seq<Seq<u8>>
    decreases hrefs.len(),
{
    if hrefs.len() == 0 {
        Seq::empty()
    } else {
        match href_key(css, hrefs[0]) {
            Some(k) => seq![lookup_key(css, k).unwrap()] + select_css(
                remove_key(css, k),
                hrefs.drop_first(),
            ),
            None => select_css(css, hrefs.drop_first()),
        }
    }
}

pub proof fn lemma_lookup_remove_at(s: Seq<UrlEntry>, k: Seq<u8>, j: int)
    requires
        0 <= j < s.len(),
        s[j].0 == k,
        forall|i: int| 0 <= i < j ==> (#[trigger] s[i]).0 != k,
    ensures
        lookup_key(s, k) == Some(s[j].1),
        remove_key(s, k) == s.remove(j),
    decreases j,
{
    if j == 0 {
        assert(remove_key(s, k) == s.drop_first());
        assert(s.drop_first() =~= s.remove(0));
    } else {
        assert(s[0].0 != k);
        let t = s.drop_first();
        assert(forall|i: int| 0 <= i < j - 1 ==> (#[trigger] t[i]).0 != k) by {
            assert(forall|i: int| 0 <= i < j - 1 ==> t[i] == s[i + 1]);
        }
        assert(t[j - 1] == s[j]);
        lemma_lookup_remove_at(t, k, j - 1);
        assert(remove_key(s, k) == seq![s[0]] + t.remove(j - 1));
        assert(seq![s[0]] + t.remove(j - 1) =~= s.remove(j));
    }
}

pub proof fn lemma_lookup_none(s: Seq<UrlEntry>, k: Seq<u8>)
    requires
        forall|i: int| 0 <= i < s.len() ==> (#[trigger] s[i]).0 != k,
    ensures
        lookup_key(s, k) is None,
    decreases s.len(),
{
    if s.len() > 0 {
        let t = s.drop_first();
        assert(forall|i: int| 0 <= i < t.len() ==> t[i] == s[i + 1]);
        lemma_lookup_none(t, k);
    }
}

pub open spec fn pairs_view(s: Seq<(Vec<u8>, Vec<u8>)>) -> Seq<UrlEntry> {
    s.map_values(|p: (Vec<u8>, Vec<u8>)| (p.0@, p.1@))
}

/// `<link rel="stylesheet" href="` url `">`
pub open spec fn sty_line(u: Seq<u8>) -> Seq<u8> {
    seq![
        60u8,
        108u8,
        105u8,
        110u8,
        107u8,
        32u8,
        114u8,
        101u8,
        108u8,
        61u8,
        34u8,
        115u8,
        116u8,
        121u8,
        108u8,
        101u8,
        115u8,
        104u8,
        101u8,
        101u8,
        116u8,
        34u8,
        32u8,
        104u8,
        114u8,
        101u8,
        102u8,
        61u8,
        34u8,
    ] + u + seq![34u8, 62u8]
}

/// `<link rel="modulepreload" href="` url `">`
pub open spec fn pre_line(u: Seq<u8>) -> Seq<u8> {
    seq![
        60u8,
        108u8,
        105u8,
        110u8,
        107u8,
        32u8,
        114u8,
        101u8,
        108u8,
        61u8,
        34u8,
        109u8,
        111u8,
        100u8,
        117u8,
        108u8,
        101u8,
        112u8,
        114u8,
        101u8,
        108u8,
        111u8,
        97u8,
        100u8,
        34u8,
        32u8,
        104u8,
        114u8,
        101u8,
        102u8,
        61u8,
        34u8,
    ] + u + seq![34u8, 62u8]
}

pub open spec fn sty_section(urls: Seq<Seq<u8>>) -> Seq<u8> {
    join_nl(urls.map_values(|u: Seq<u8>| sty_line(u)))
}

pub open spec fn pre_section(js: Seq<UrlEntry>) -> Seq<u8> {
    join_nl(js.map_values(|e: UrlEntry| pre_line(e.1)))
}

/// `    "` key `": "` value `"`, both JSON-escaped.
pub open spec fn json_entry_line(e: UrlEntry) -> Seq<u8> {
    seq![32u8, 32u8, 32u8, 32u8, 34u8] + json_escaped(e.0) + seq![34u8, 58u8, 32u8, 34u8]
        + json_escaped(e.1) + seq![34u8]
}

/// The inner JSON object of the import map: `{}` when empty, else its
/// entries pretty-printed at four spaces.
pub open spec fn json_inner(js: Seq<UrlEntry>) -> Seq<u8> {
    if js.len() == 0 {
        seq![123u8, 125u8]
    } else {
        seq![123u8, nl()] + join_sep(
            js.map_values(|e: UrlEntry| json_entry_line(e)),
            seq![44u8, nl()],
        ) + seq![nl(), 32u8, 32u8, 125u8]
    }
}

/// The pretty-printed `{"imports": {...}}` object.
pub open spec fn json_block(js: Seq<UrlEntry>) -> Seq<u8> {
    seq![123u8, nl()] + seq![
        32u8,
        32u8,
        34u8,
        105u8,
        109u8,
        112u8,
        111u8,
        114u8,
        116u8,
        115u8,
        34u8,
        58u8,
        32u8,
    ] + json_inner(js) + seq![nl(), 125u8]
}

/// `<script type="importmap">`, the JSON, `</script>`, on separate lines.
pub open spec fn script_block(js: Seq<UrlEntry>) -> Seq<u8> {
    seq![
        60u8,
        115u8,
        99u8,
        114u8,
        105u8,
        112u8,
        116u8,
        32u8,
        116u8,
        121u8,
        112u8,
        101u8,
        61u8,
        34u8,
        105u8,
        109u8,
        112u8,
        111u8,
        114u8,
        116u8,
        109u8,
        97u8,
        112u8,
        34u8,
        62u8,
    ] + seq![nl()] + json_block(js) + seq![nl()] + seq![
        60u8,
        47u8,
        115u8,
        99u8,
        114u8,
        105u8,
        112u8,
        116u8,
        62u8,
    ]
}

/// The generated markup for a nonempty map: surviving stylesheet links,
/// the import-map script, module preloads; empty sections are omitted and
/// the rest joined with single newlines.
pub open spec fn content_rendered(css_urls: Seq<Seq<u8>>, js: Seq<UrlEntry>) -> Seq<u8> {
    let parts0: Seq<Seq<u8>> = if css_urls.len() > 0 {
        seq![sty_section(css_urls)]
    } else {
        Seq::empty()
    };
    let parts1 = parts0.push(script_block(js));
    let parts2 = if js.len() > 0 {
        parts1.push(pre_section(js))
    } else {
        parts1
    };
    join_nl(parts2)
}

/// The content generated for map `m` against document `h`.
pub open spec fn content_for(m: Seq<UrlEntry>, h: Seq<u8>) -> Seq<u8> {
    content_rendered(select_css(css_of(m), extract_spec(h, rel_stylesheet())), js_of(m))
}

/// What transforming `h` under map `m` yields: the marker region replaced
/// by the generated markup, or by nothing for an empty map; no result when
/// a marker is missing.
pub open spec fn transform_spec(m: Seq<UrlEntry>, h: Seq<u8>) -> Option<Seq<u8>> {
    if m.len() == 0 {
        replace_spec(h, Seq::empty())
    } else {
        replace_spec(h, content_for(m, h))
    }
}

/// Split the map's entries into stylesheet and script entries by the
/// extension of the original URL.
fn partition_entries(m: &ImportMap) -> (r: (Vec<(Vec<u8>, Vec<u8>)>, Vec<(Vec<u8>, Vec<u8>)>))
    ensures
        pairs_view(r.0@) == css_of(m@),
        pairs_view(r.1@) == js_of(m@),
{
    let mut css: Vec<(Vec<u8>, Vec<u8>)> = Vec::new();
    let mut js: Vec<(Vec<u8>, Vec<u8>)> = Vec::new();
    let n = m.len();
    let mut i: usize = 0;
    proof {
        assert(m@.subrange(0, 0) =~= Seq::<UrlEntry>::empty());
        assert(pairs_view(css@) =~= css_of(m@.subrange(0, 0)));
        assert(pairs_view(js@) =~= js_of(m@.subrange(0, 0)));
    }
    while i < n
        invariant
            n == m@.len(),
            0 <= i <= n,
            pairs_view(css@) == css_of(m@.subrange(0, i as int)),
            pairs_view(js@) == js_of(m@.subrange(0, i as int)),
        decreases n - i,
    {
        let css_arr: [u8; 3] = [99u8, 115u8, 115u8];
        let js_arr: [u8; 2] = [106u8, 115u8];
        let mjs_arr: [u8; 3] = [109u8, 106u8, 115u8];
        proof {
            assert(css_arr@ =~= ext_css());
            assert(js_arr@ =~= ext_js());
            assert(mjs_arr@ =~= ext_mjs());
        }
        let key = m.key_at(i);
        let value = m.value_at(i);
        let name = file_name_slice(key.as_slice());
        let ghost prefix = m@.subrange(0, i as int);
        proof {
            assert(m@.subrange(0, i + 1).drop_last() =~= prefix);
            assert(m@.subrange(0, i + 1).last() == m@[i as int]);
        }
        match ext_of_name_slice(name) {
            Some(e) => {
                if crate::bytes::bytes_eq(e, css_arr.as_slice()) {
                    let kk = vstd::slice::slice_to_vec(key.as_slice());
                    let vv = vstd::slice::slice_to_vec(value.as_slice());
                    css.push((kk, vv));
                    proof {
                        assert(is_css_key(m@[i as int].0));
                        assert(pairs_view(css@) =~= css_of(prefix).push(m@[i as int]));
                    }
                } else if crate::bytes::bytes_eq(e, js_arr.as_slice()) || crate::bytes::bytes_eq(
                    e,
                    mjs_arr.as_slice(),
                ) {
                    let kk = vstd::slice::slice_to_vec(key.as_slice());
                    let vv = vstd::slice::slice_to_vec(value.as_slice());
                    js.push((kk, vv));
                    proof {
                        assert(is_js_key(m@[i as int].0));
                        assert(!is_css_key(m@[i as int].0));
                        assert(pairs_view(js@) =~= js_of(prefix).push(m@[i as int]));
                    }
                } else {
                    proof {
                        assert(!is_css_key(m@[i as int].0));
                        assert(!is_js_key(m@[i as int].0));
                    }
                }
            },
            None => {
                proof {
                    assert(!is_css_key(m@[i as int].0));
                    assert(!is_js_key(m@[i as int].0));
                }
            },
        }
        i = i + 1;
    }
    proof {
        assert(m@.subrange(0, n as int) =~= m@);
    }
    (css, js)
}

/// Index of the first entry with the given key, if any.
fn find_key_index(cur: &Vec<(Vec<u8>, Vec<u8>)>, k: &[u8]) -> (r: Option<usize>)
    ensures
        match r {
            Some(fi) => fi < cur@.len() && pairs_view(cur@)[fi as int].0 == k@ && forall|t: int|
                0 <= t < fi ==> (#[trigger] pairs_view(cur@)[t]).0 != k@,
            None => forall|t: int|
                0 <= t < cur@.len() ==> (#[trigger] pairs_view(cur@)[t]).0 != k@,
        },
{
    let ghost cv = pairs_view(cur@);
    let mut found_idx: Option<usize> = None;
    let mut idx: usize = 0;
    while idx < cur.len()
        invariant
            0 <= idx <= cur@.len(),
            cv == pairs_view(cur@),
            match found_idx {
                Some(fi) => fi < cur@.len() && cv[fi as int].0 == k@ && forall|t: int|
                    0 <= t < fi ==> (#[trigger] cv[t]).0 != k@,
                None => forall|t: int| 0 <= t < idx ==> (#[trigger] cv[t]).0 != k@,
            },
        decreases cur@.len() - idx,
    {
        if found_idx.is_none() {
            if crate::bytes::bytes_eq(cur[idx].0.as_slice(), k) {
                found_idx = Some(idx);
            }
        }
        idx = idx + 1;
    }
    found_idx
}

/// Match the discovered hrefs against the stylesheet entries, consuming
/// each matched entry, and collect the fingerprinted URLs in order.
fn select_css_urls(css: Vec<(Vec<u8>, Vec<u8>)>, hrefs: &Vec<Vec<u8>>) -> (r: Vec<Vec<u8>>)
    ensures
        r@.map_values(|v: Vec<u8>| v@) == select_css(
            pairs_view(css@),
            hrefs@.map_values(|v: Vec<u8>| v@),
        ),
{
    let ghost css0 = pairs_view(css@);
    let ghost hv = hrefs@.map_values(|v: Vec<u8>| v@);
    let mut cur = css;
    let mut out: Vec<Vec<u8>> = Vec::new();
    let mut j: usize = 0;
    proof {
        assert(hv.subrange(0, hv.len() as int) =~= hv);
        assert(out@.map_values(|v: Vec<u8>| v@) + select_css(pairs_view(cur@), hv) =~= select_css(
            css0,
            hv,
        ));
    }
    while j < hrefs.len()
        invariant
            0 <= j <= hv.len(),
            hv == hrefs@.map_values(|v: Vec<u8>| v@),
            out@.map_values(|v: Vec<u8>| v@) + select_css(
                pairs_view(cur@),
                hv.subrange(j as int, hv.len() as int),
            ) == select_css(css0, hv),
        decreases hv.len() - j,
    {
        let h = &hrefs[j];
        let ghost cv = pairs_view(cur@);
        let ghost suffix = hv.subrange(j as int, hv.len() as int);
        proof {
            assert(suffix[0] == hv[j as int]);
            assert(suffix.drop_first() =~= hv.subrange(j + 1, hv.len() as int));
        }
        let mut found_idx: Option<usize> = find_key_index(&cur, h.as_slice());
        let ghost mut used_key: Seq<u8> = h@;
        if found_idx.is_none() {
            proof {
                lemma_lookup_none(cv, h@);
            }
            match ImportMap::strip_hash(h.as_slice()) {
                Some(orig) => {
                    found_idx = find_key_index(&cur, orig.as_slice());
                    proof {
                        used_key = orig@;
                    }
                },
                None => {},
            }
        }
        let ghost prev = out@.map_values(|v: Vec<u8>| v@);
        if let Some(fi) = found_idx {
            proof {
                lemma_lookup_remove_at(cv, used_key, fi as int);
                assert(href_key(cv, hv[j as int]) == Some(used_key));
            }
            let pair = cur.remove(fi);
            out.push(pair.1);
            proof {
                assert(pairs_view(cur@) =~= cv.remove(fi as int));
                assert(out@.map_values(|v: Vec<u8>| v@) =~= prev.push(cv[fi as int].1));
                assert(lookup_key(cv, used_key) == Some(cv[fi as int].1));
                assert(prev.push(cv[fi as int].1) + select_css(
                    remove_key(cv, used_key),
                    suffix.drop_first(),
                ) =~= prev + select_css(cv, suffix));
            }
        } else {
            proof {
                lemma_lookup_none(cv, h@);
                if used_key != h@ {
                    lemma_lookup_none(cv, used_key);
                }
                assert(href_key(cv, hv[j as int]) is None);
                assert(select_css(cv, suffix) == select_css(cv, suffix.drop_first()));
            }
        }
        j = j + 1;
    }
    proof {
        assert(hv.subrange(hv.len() as int, hv.len() as int) =~= Seq::<Seq<u8>>::empty());
        assert(out@.map_values(|v: Vec<u8>| v@) =~= select_css(css0, hv));
    }
    out
}

/// Append the stylesheet link lines, joined with newlines.
fn append_sty_section(out: &mut Vec<u8>, urls: &Vec<Vec<u8>>)
    ensures
        final(out)@ == old(out)@ + sty_section(urls@.map_values(|v: Vec<u8>| v@)),
{
    let ghost base = out@;
    let ghost mapped = urls@.map_values(|v: Vec<u8>| v@).map_values(|u: Seq<u8>| sty_line(u));
    let mut k: usize = 0;
    proof {
        assert(mapped.subrange(0, 0) =~= Seq::<Seq<u8>>::empty());
        assert(out@ =~= base + join_nl(mapped.subrange(0, 0)));
    }
    while k < urls.len()
        invariant
            0 <= k <= urls@.len(),
            mapped == urls@.map_values(|v: Vec<u8>| v@).map_values(|u: Seq<u8>| sty_line(u)),
            mapped.len() == urls@.len(),
            out@ == base + join_nl(mapped.subrange(0, k as int)),
        decreases urls@.len() - k,
    {
        if k > 0 {
            out.push(10u8);
        }
        let pre: [u8; 29] = [
            60u8,
            108u8,
            105u8,
            110u8,
            107u8,
            32u8,
            114u8,
            101u8,
            108u8,
            61u8,
            34u8,
            115u8,
            116u8,
            121u8,
            108u8,
            101u8,
            115u8,
            104u8,
            101u8,
            101u8,
            116u8,
            34u8,
            32u8,
            104u8,
            114u8,
            101u8,
            102u8,
            61u8,
            34u8,
        ];
        out.extend_from_slice(pre.as_slice());
        out.extend_from_slice(urls[k].as_slice());
        out.push(34u8);
        out.push(62u8);
        proof {
            let prefix = mapped.subrange(0, k as int);
            lemma_join_nl_push(prefix, mapped[k as int]);
            assert(prefix.push(mapped[k as int]) =~= mapped.subrange(0, k + 1));
            assert(mapped[k as int] =~= pre@ + urls@[k as int]@ + seq![34u8, 62u8]);
            if k == 0 {
                assert(out@ =~= base + join_nl(mapped.subrange(0, 1)));
            } else {
                assert(out@ =~= base + (join_nl(prefix) + seq![nl()] + mapped[k as int]));
            }
        }
        k = k + 1;
    }
    proof {
        assert(mapped.subrange(0, mapped.len() as int) =~= mapped);
    }
}

/// Append the modulepreload link lines, joined with newlines.
fn append_pre_section(out: &mut Vec<u8>, js: &Vec<(Vec<u8>, Vec<u8>)>)
    ensures
        final(out)@ == old(out)@ + pre_section(pairs_view(js@)),
{
    let ghost base = out@;
    let ghost mapped = pairs_view(js@).map_values(|e: UrlEntry| pre_line(e.1));
    let mut k: usize = 0;
    proof {
        assert(mapped.subrange(0, 0) =~= Seq::<Seq<u8>>::empty());
        assert(out@ =~= base + join_nl(mapped.subrange(0, 0)));
    }
    while k < js.len()
        invariant
            0 <= k <= js@.len(),
            mapped == pairs_view(js@).map_values(|e: UrlEntry| pre_line(e.1)),
            mapped.len() == js@.len(),
            out@ == base + join_nl(mapped.subrange(0, k as int)),
        decreases js@.len() - k,
    {
        if k > 0 {
            out.push(10u8);
        }
        let pre: [u8; 32] = [
            60u8,
            108u8,
            105u8,
            110u8,
            107u8,
            32u8,
            114u8,
            101u8,
            108u8,
            61u8,
            34u8,
            109u8,
            111u8,
            100u8,
            117u8,
            108u8,
            101u8,
            112u8,
            114u8,
            101u8,
            108u8,
            111u8,
            97u8,
            100u8,
            34u8,
            32u8,
            104u8,
            114u8,
            101u8,
            102u8,
            61u8,
            34u8,
        ];
        out.extend_from_slice(pre.as_slice());
        out.extend_from_slice(js[k].1.as_slice());
        out.push(34u8);
        out.push(62u8);
        proof {
            let prefix = mapped.subrange(0, k as int);
            lemma_join_nl_push(prefix, mapped[k as int]);
            assert(prefix.push(mapped[k as int]) =~= mapped.subrange(0, k + 1));
            assert(mapped[k as int] =~= pre@ + js@[k as int].1@ + seq![34u8, 62u8]);
            if k == 0 {
                assert(out@ =~= base + join_nl(mapped.subrange(0, 1)));
            } else {
                assert(out@ =~= base + (join_nl(prefix) + seq![nl()] + mapped[k as int]));
            }
        }
        k = k + 1;
    }
    proof {
        assert(mapped.subrange(0, mapped.len() as int) =~= mapped);
    }
}

/// Append the JSON entry lines, joined with `,` and newlines.
fn append_json_entries(out: &mut Vec<u8>, js: &Vec<(Vec<u8>, Vec<u8>)>)
    ensures
        final(out)@ == old(out)@ + join_sep(
            pairs_view(js@).map_values(|e: UrlEntry| json_entry_line(e)),
            seq![44u8, nl()],
        ),
{
    let ghost base = out@;
    let ghost mapped = pairs_view(js@).map_values(|e: UrlEntry| json_entry_line(e));
    let ghost sep: Seq<u8> = seq![44u8, nl()];
    let mut k: usize = 0;
    proof {
        assert(mapped.subrange(0, 0) =~= Seq::<Seq<u8>>::empty());
        assert(out@ =~= base + join_sep(mapped.subrange(0, 0), sep));
    }
    while k < js.len()
        invariant
            0 <= k <= js@.len(),
            mapped == pairs_view(js@).map_values(|e: UrlEntry| json_entry_line(e)),
            mapped.len() == js@.len(),
            sep == seq![44u8, nl()],
            out@ == base + join_sep(mapped.subrange(0, k as int), sep),
        decreases js@.len() - k,
    {
        if k > 0 {
            out.push(44u8);
            out.push(10u8);
        }
        let ek = json_escape_bytes(js[k].0.as_slice());
        let ev = json_escape_bytes(js[k].1.as_slice());
        let entry_pre: [u8; 5] = [32u8, 32u8, 32u8, 32u8, 34u8];
        let entry_mid: [u8; 4] = [34u8, 58u8, 32u8, 34u8];
        out.extend_from_slice(entry_pre.as_slice());
        out.extend_from_slice(ek.as_slice());
        out.extend_from_slice(entry_mid.as_slice());
        out.extend_from_slice(ev.as_slice());
        out.push(34u8);
        proof {
            let prefix = mapped.subrange(0, k as int);
            lemma_join_sep_push(prefix, sep, mapped[k as int]);
            assert(prefix.push(mapped[k as int]) =~= mapped.subrange(0, k + 1));
            assert(mapped[k as int] =~= entry_pre@ + json_escaped(js@[k as int].0@) + entry_mid@
                + json_escaped(js@[k as int].1@) + seq![34u8]);
            if k == 0 {
                assert(out@ =~= base + join_sep(mapped.subrange(0, 1), sep));
            } else {
                assert(out@ =~= base + (join_sep(prefix, sep) + sep + mapped[k as int]));
            }
        }
        k = k + 1;
    }
    proof {
        assert(mapped.subrange(0, mapped.len() as int) =~= mapped);
    }
}

/// Append the `<script type="importmap">` block with its pretty JSON.
fn append_script_block(out: &mut Vec<u8>, js: &Vec<(Vec<u8>, Vec<u8>)>)
    ensures
        final(out)@ == old(out)@ + script_block(pairs_view(js@)),
{
    let ghost base = out@;
    let ghost jv = pairs_view(js@);
    let script_open: [u8; 25] = [
        60u8,
        115u8,
        99u8,
        114u8,
        105u8,
        112u8,
        116u8,
        32u8,
        116u8,
        121u8,
        112u8,
        101u8,
        61u8,
        34u8,
        105u8,
        109u8,
        112u8,
        111u8,
        114u8,
        116u8,
        109u8,
        97u8,
        112u8,
        34u8,
        62u8,
    ];
    let script_close: [u8; 9] = [60u8, 47u8, 115u8, 99u8, 114u8, 105u8, 112u8, 116u8, 62u8];
    let imports_key: [u8; 13] = [
        32u8,
        32u8,
        34u8,
        105u8,
        109u8,
        112u8,
        111u8,
        114u8,
        116u8,
        115u8,
        34u8,
        58u8,
        32u8,
    ];
    out.extend_from_slice(script_open.as_slice());
    out.push(10u8);
    out.push(123u8);
    out.push(10u8);
    out.extend_from_slice(imports_key.as_slice());
    if js.len() == 0 {
        out.push(123u8);
        out.push(125u8);
        proof {
            assert(json_inner(jv) =~= seq![123u8, 125u8]);
        }
    } else {
        out.push(123u8);
        out.push(10u8);
        append_json_entries(out, js);
        out.push(10u8);
        out.push(32u8);
        out.push(32u8);
        out.push(125u8);
    }
    out.push(10u8);
    out.push(125u8);
    out.push(10u8);
    out.extend_from_slice(script_close.as_slice());
    proof {
        assert(out@ =~= base + script_block(jv));
    }
}

/// Render the whole generated content for nonempty `css_urls`/`js` data.
fn render_content(css_urls: &Vec<Vec<u8>>, js: &Vec<(Vec<u8>, Vec<u8>)>) -> (r: Vec<u8>)
    ensures
        r@ == content_rendered(css_urls@.map_values(|v: Vec<u8>| v@), pairs_view(js@)),
{
    let ghost cu = css_urls@.map_values(|v: Vec<u8>| v@);
    let ghost jv = pairs_view(js@);
    let mut out: Vec<u8> = Vec::new();
    if css_urls.len() > 0 {
        append_sty_section(&mut out, css_urls);
        out.push(10u8);
    }
    append_script_block(&mut out, js);
    if js.len() > 0 {
        out.push(10u8);
        append_pre_section(&mut out, js);
    }
    proof {
        let sty = sty_section(cu);
        let script = script_block(jv);
        let pre = pre_section(jv);
        if cu.len() > 0 && jv.len() > 0 {
            let parts = seq![sty, script, pre];
            assert(parts.drop_first() =~= seq![script, pre]);
            assert(seq![script, pre].drop_first() =~= seq![pre]);
            assert(join_nl(seq![pre]) == pre);
            assert(join_nl(seq![script, pre]) == script + seq![nl()] + pre);
            assert(join_nl(parts) == sty + seq![nl()] + (script + seq![nl()] + pre));
            assert(seq![sty].push(script).push(pre) =~= parts);
            assert(out@ =~= join_nl(parts));
        } else if cu.len() > 0 {
            let parts = seq![sty, script];
            assert(parts.drop_first() =~= seq![script]);
            assert(join_nl(seq![script]) == script);
            assert(join_nl(parts) == sty + seq![nl()] + script);
            assert(seq![sty].push(script) =~= parts);
            assert(out@ =~= join_nl(parts));
        } else if jv.len() > 0 {
            let parts = seq![script, pre];
            assert(parts.drop_first() =~= seq![pre]);
            assert(join_nl(seq![pre]) == pre);
            assert(join_nl(parts) == script + seq![nl()] + pre);
            assert(Seq::<Seq<u8>>::empty().push(script).push(pre) =~= parts);
            assert(out@ =~= join_nl(parts));
        } else {
            let parts = seq![script];
            assert(join_nl(parts) == script);
            assert(Seq::<Seq<u8>>::empty().push(script) =~= parts);
            assert(out@ =~= join_nl(parts));
        }
    }
    out
}

impl ImportMap {

/// Transform the HTML document: replace the marker region by the markup
/// generated from this map, preserving the order of stylesheets already
/// listed in the region — links carrying an earlier fingerprint are
/// matched by stripping it, so re-running the transform on its own output
/// reproduces it. Nothing when a marker is missing; an empty map clears
/// the region.
pub fn transform_html(&self, html: &[u8]) -> (r: Option<Vec<u8>>)
    ensures
        match r {
            Some(o) => transform_spec(self@, html@) == Some(o@),
            None => transform_spec(self@, html@) is None,
        },
        (r is Some) == has_marker_pair(html@),
{
    if self.is_empty() {
        let empty_content: [u8; 0] = [];
        proof {
            assert(empty_content@ =~= Seq::<u8>::empty());
        }
        return Self::replace_between_markers(html, empty_content.as_slice());
    }
    let (css, js) = partition_entries(self);
    let sty_rel: [u8; 10] = [115u8, 116u8, 121u8, 108u8, 101u8, 115u8, 104u8, 101u8, 101u8, 116u8];
    proof {
        assert(sty_rel@ =~= rel_stylesheet());
    }
    let hrefs = Self::extract_href_values(html, sty_rel.as_slice());
    let css_urls = select_css_urls(css, &hrefs);
    let content = render_content(&css_urls, &js);
    proof {
        assert(content@ == content_for(self@, html@));
    }
    Self::replace_between_markers(html, content.as_slice())
}

}

} // verus!
