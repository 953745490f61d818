//! Byte-sequence utilities: lexicographic order, substring search, line
//! splitting and joining. These are the spec-level vocabulary the rest of
//! the crate states its contracts with, together with verified executable
//! counterparts.

use vstd::prelude::*;

verus! {

/// Strict lexicographic order on byte sequences.
pub open spec fn lex_lt(a: Seq<u8>, b: Seq<u8>) -> bool
    decreases a.len(),
{
    if b.len() == 0 {
        false
    } else if a.len() == 0 {
        true
    } else if a[0] < b[0] {
        true
    } else if a[0] > b[0] {
        false
    } else {
        lex_lt(a.drop_first(), b.drop_first())
    }
}

pub proof fn lemma_lex_lt_irreflexive(a: Seq<u8>)
    ensures
        !lex_lt(a, a),
    decreases a.len(),
{
    if a.len() > 0 {
        lemma_lex_lt_irreflexive(a.drop_first());
    }
}

pub proof fn lemma_lex_lt_total(a: Seq<u8>, b: Seq<u8>)
    ensures
        lex_lt(a, b) || lex_lt(b, a) || a == b,
    decreases a.len(),
{
    if a.len() > 0 && b.len() > 0 && a[0] == b[0] {
        lemma_lex_lt_total(a.drop_first(), b.drop_first());
        if !lex_lt(a, b) && !lex_lt(b, a) {
            assert(a.drop_first() == b.drop_first());
            assert(a =~= seq![a[0]] + a.drop_first());
            assert(b =~= seq![b[0]] + b.drop_first());
        }
    } else if a.len() == 0 && b.len() == 0 {
        assert(a =~= b);
    }
}

pub proof fn lemma_lex_lt_asymmetric(a: Seq<u8>, b: Seq<u8>)
    ensures
        !(lex_lt(a, b) && lex_lt(b, a)),
    decreases a.len(),
{
    if a.len() > 0 && b.len() > 0 && a[0] == b[0] {
        lemma_lex_lt_asymmetric(a.drop_first(), b.drop_first());
    }
}

pub proof fn lemma_lex_lt_transitive(a: Seq<u8>, b: Seq<u8>, c: Seq<u8>)
    requires
        lex_lt(a, b),
        lex_lt(b, c),
    ensures
        lex_lt(a, c),
    decreases a.len(),
{
    if a.len() > 0 && b.len() > 0 && c.len() > 0 {
        if a[0] == b[0] && b[0] == c[0] {
            lemma_lex_lt_transitive(a.drop_first(), b.drop_first(), c.drop_first());
        }
    }
}

/// Compare two byte slices lexicographically.
pub fn bytes_lt(a: &[u8], b: &[u8]) -> (r: bool)
    ensures
        r == lex_lt(a@, b@),
{
    let mut i: usize = 0;
    proof {
        assert(a@.skip(0) =~= a@);
        assert(b@.skip(0) =~= b@);
    }
    loop
        invariant
            0 <= i <= a@.len(),
            0 <= i <= b@.len(),
            forall|j: int| 0 <= j < i ==> a@[j] == b@[j],
            lex_lt(a@, b@) == lex_lt(a@.skip(i as int), b@.skip(i as int)),
        decreases a@.len() - i,
    {
        if i >= b.len() {
            return false;
        }
        if i >= a.len() {
            return true;
        }
        let x = a[i];
        let y = b[i];
        if x < y {
            assert(lex_lt(a@.skip(i as int), b@.skip(i as int)));
            return true;
        }
        if x > y {
            assert(!lex_lt(a@.skip(i as int), b@.skip(i as int)));
            return false;
        }
        proof {
            assert(a@.skip(i as int).drop_first() =~= a@.skip(i + 1));
            assert(b@.skip(i as int).drop_first() =~= b@.skip(i + 1));
        }
        i = i + 1;
    }
}

/// Test two byte slices for equality.
pub fn bytes_eq(a: &[u8], b: &[u8]) -> (r: bool)
    ensures
        r == (a@ == b@),
{
    if a.len() != b.len() {
        return false;
    }
    let mut i: usize = 0;
    while i < a.len()
        invariant
            0 <= i <= a@.len(),
            a@.len() == b@.len(),
            forall|j: int| 0 <= j < i ==> a@[j] == b@[j],
        decreases a@.len() - i,
    {
        if a[i] != b[i] {
            return false;
        }
        i = i + 1;
    }
    proof {
        assert(a@ =~= b@);
    }
    true
}

/// The pattern `pat` occurs in `h` starting at index `i`.
pub open spec fn match_at(h: Seq<u8>, pat: Seq<u8>, i: int) -> bool {
    &&& 0 <= i
    &&& i + pat.len() <= h.len()
    &&& h.subrange(i, i + pat.len() as int) == pat
}

/// Index of the first occurrence of `pat` in `h` at or after `i`.
pub open spec fn find_from(h: Seq<u8>, pat: Seq<u8>, i: int) -> Option<int>
    decreases h.len() - i when 0 <= i <= h.len()
{
    if i + pat.len() > h.len() {
        None
    } else if pat.len() == 0 {
        Some(i)
    } else if h.subrange(i, i + pat.len() as int) == pat {
        Some(i)
    } else {
        find_from(h, pat, i + 1)
    }
}

/// `find_from` returns the least match index at or after `i`, or reports
/// that none exists.
pub proof fn lemma_find_from_spec(h: Seq<u8>, pat: Seq<u8>, i: int)
    requires
        0 <= i <= h.len(),
    ensures
        match find_from(h, pat, i) {
            Some(j) => i <= j && match_at(h, pat, j) && forall|k: int|
                i <= k < j ==> !match_at(h, pat, k),
            None => forall|k: int| i <= k ==> !match_at(h, pat, k),
        },
    decreases h.len() - i,
{
    if i + pat.len() > h.len() {
        assert(forall|k: int| i <= k ==> !match_at(h, pat, k));
    } else if pat.len() == 0 {
        assert(h.subrange(i, i) =~= pat);
        assert(match_at(h, pat, i));
    } else if h.subrange(i, i + pat.len() as int) == pat {
    } else {
        lemma_find_from_spec(h, pat, i + 1);
        assert(!match_at(h, pat, i));
    }
}

/// If two haystacks agree on a prefix, matches wholly inside that prefix
/// agree too, so the first match below the prefix end is the same.
pub proof fn lemma_match_at_common_prefix(h1: Seq<u8>, h2: Seq<u8>, pat: Seq<u8>, n: int, i: int)
    requires
        0 <= n <= h1.len(),
        n <= h2.len(),
        h1.subrange(0, n) == h2.subrange(0, n),
        0 <= i,
        i + pat.len() <= n,
    ensures
        match_at(h1, pat, i) == match_at(h2, pat, i),
{
    let m = pat.len() as int;
    assert(h1.subrange(0, n).subrange(i, i + m) =~= h1.subrange(i, i + m));
    assert(h2.subrange(0, n).subrange(i, i + m) =~= h2.subrange(i, i + m));
    assert(h1.subrange(i, i + m) == h2.subrange(i, i + m));
}

/// Find the first occurrence of `pat` in `h` at or after `start`.
pub fn find_sub_from(h: &[u8], pat: &[u8], start: usize) -> (r: Option<usize>)
    requires
        start <= h@.len(),
    ensures
        match r {
            Some(j) => find_from(h@, pat@, start as int) == Some(j as int),
            None => find_from(h@, pat@, start as int) is None,
        },
{
    let mut i: usize = start;
    loop
        invariant
            start <= i <= h@.len(),
            find_from(h@, pat@, start as int) == find_from(h@, pat@, i as int),
        decreases h@.len() - i,
    {
        if pat.len() > h.len() - i {
            assert(find_from(h@, pat@, i as int) is None);
            return None;
        }
        let window = vstd::slice::slice_subrange(h, i, i + pat.len());
        proof {
            if pat@.len() == 0 {
                assert(window@ =~= pat@);
            }
        }
        if bytes_eq(window, pat) {
            assert(find_from(h@, pat@, i as int) == Some(i as int));
            return Some(i);
        }
        assert(pat@.len() > 0);
        assert(h@.subrange(i as int, i + pat@.len()) != pat@);
        i = i + 1;
    }
}

/// Whether `pat` occurs anywhere in `h`.
pub open spec fn contains_sub(h: Seq<u8>, pat: Seq<u8>) -> bool {
    exists|i: int| match_at(h, pat, i)
}

pub proof fn lemma_find_contains(h: Seq<u8>, pat: Seq<u8>)
    ensures
        contains_sub(h, pat) == (find_from(h, pat, 0) is Some),
{
    lemma_find_from_spec(h, pat, 0);
    if contains_sub(h, pat) {
        let i = choose|i: int| match_at(h, pat, i);
        if find_from(h, pat, 0) is None {
            assert(!match_at(h, pat, i));
        }
    }
}

/// Whether `pat` occurs anywhere in `h` (executable).
pub fn has_sub(h: &[u8], pat: &[u8]) -> (r: bool)
    ensures
        r == contains_sub(h@, pat@),
{
    proof {
        lemma_find_contains(h@, pat@);
    }
    match find_sub_from(h, pat, 0) {
        Some(_) => true,
        None => false,
    }
}

/// Index of the last occurrence of byte `b` in `s`.
pub open spec fn rfind_byte(s: Seq<u8>, b: u8) -> Option<int>
    decreases s.len(),
{
    if s.len() == 0 {
        None
    } else if s[s.len() - 1] == b {
        Some(s.len() - 1)
    } else {
        rfind_byte(s.drop_last(), b)
    }
}

pub proof fn lemma_rfind_byte_spec(s: Seq<u8>, b: u8)
    ensures
        match rfind_byte(s, b) {
            Some(j) => 0 <= j < s.len() && s[j] == b && forall|k: int|
                j < k < s.len() ==> s[k] != b,
            None => forall|k: int| 0 <= k < s.len() ==> s[k] != b,
        },
    decreases s.len(),
{
    if s.len() > 0 && s[s.len() - 1] != b {
        lemma_rfind_byte_spec(s.drop_last(), b);
        assert(forall|k: int| 0 <= k < s.len() - 1 ==> s.drop_last()[k] == #[trigger] s[k]);
    }
}

/// Find the last occurrence of byte `b` in `s`.
pub fn rfind_byte_in(s: &[u8], b: u8) -> (r: Option<usize>)
    ensures
        match r {
            Some(j) => rfind_byte(s@, b) == Some(j as int),
            None => rfind_byte(s@, b) is None,
        },
{
    proof {
        lemma_rfind_byte_spec(s@, b);
    }
    let mut i: usize = s.len();
    while i > 0
        invariant
            0 <= i <= s@.len(),
            forall|k: int| i <= k < s@.len() ==> s@[k] != b,
        decreases i,
    {
        i = i - 1;
        if s[i] == b {
            proof {
                lemma_rfind_byte_spec(s@, b);
                match rfind_byte(s@, b) {
                    Some(j) => {
                        if j < i {
                            assert(s@[i as int] != b);
                        }
                        if j > i {
                            assert(s@[j] != b);
                        }
                        assert(j == i);
                    },
                    None => {
                        assert(s@[i as int] != b);
                    },
                }
            }
            return Some(i);
        }
    }
    proof {
        lemma_rfind_byte_spec(s@, b);
        match rfind_byte(s@, b) {
            Some(j) => {
                assert(s@[j] != b);
            },
            None => {},
        }
    }
    None
}

pub open spec fn nl() -> u8 {
    10u8
}

pub open spec fn cr() -> u8 {
    13u8
}

/// A line with a trailing carriage return stripped, as Rust's line
/// splitting does.
pub open spec fn strip_cr(l: Seq<u8>) -> Seq<u8> {
    if l.len() > 0 && l[l.len() - 1] == cr() {
        l.drop_last()
    } else {
        l
    }
}

/// The lines of `s` from position `pos` on: segments between newlines,
/// each with a trailing carriage return stripped; a trailing newline
/// produces no final empty line.
pub open spec fn lines_from(s: Seq<u8>, pos: int) -> Seq<Seq<u8>>
    decreases s.len() - pos when 0 <= pos <= s.len()
{
    if pos == s.len() {
        Seq::empty()
    } else {
        match find_from(s, seq![nl()], pos) {
            Some(i) => if pos <= i < s.len() {
                seq![strip_cr(s.subrange(pos, i))] + lines_from(s, i + 1)
            } else {
                Seq::empty()
            },
            None => seq![strip_cr(s.subrange(pos, s.len() as int))],
        }
    }
}

pub open spec fn lines_of(s: Seq<u8>) -> Seq<Seq<u8>> {
    lines_from(s, 0)
}

/// The lines joined with single newlines, no trailing newline.
pub open spec fn join_nl(ls: Seq<Seq<u8>>) -> Seq<u8>
    decreases ls.len(),
{
    if ls.len() == 0 {
        Seq::empty()
    } else if ls.len() == 1 {
        ls[0]
    } else {
        ls[0] + seq![nl()] + join_nl(ls.drop_first())
    }
}

/// Appending one line to a join appends a newline and the line, except
/// into an empty join.
pub proof fn lemma_join_nl_push(ls: Seq<Seq<u8>>, l: Seq<u8>)
    ensures
        ls.len() == 0 ==> join_nl(ls.push(l)) == l,
        ls.len() > 0 ==> join_nl(ls.push(l)) == join_nl(ls) + seq![nl()] + l,
    decreases ls.len(),
{
    let p = ls.push(l);
    if ls.len() == 0 {
        assert(p.len() == 1);
        assert(p[0] == l);
    } else if ls.len() == 1 {
        assert(p.len() == 2);
        assert(p[0] == ls[0]);
        assert(p.drop_first() =~= seq![l]);
        assert(seq![l].len() == 1);
        assert(join_nl(seq![l]) == l);
        assert(join_nl(p) == p[0] + seq![nl()] + join_nl(p.drop_first()));
        assert(join_nl(p) == ls[0] + seq![nl()] + l);
        assert(join_nl(ls) == ls[0]);
    } else {
        lemma_join_nl_push(ls.drop_first(), l);
        assert(p.drop_first() =~= ls.drop_first().push(l));
        assert(join_nl(p) == p[0] + seq![nl()] + join_nl(p.drop_first()));
        assert(join_nl(ls.drop_first().push(l)) == join_nl(ls.drop_first()) + seq![nl()] + l);
        assert(join_nl(ls) + seq![nl()] + l =~= ls[0] + seq![nl()] + (join_nl(ls.drop_first())
            + seq![nl()] + l));
    }
}

/// The pieces joined with the separator `sep` between them.
pub open spec fn join_sep(ls: Seq<Seq<u8>>, sep: Seq<u8>) -> Seq<u8>
    decreases ls.len(),
{
    if ls.len() == 0 {
        Seq::empty()
    } else if ls.len() == 1 {
        ls[0]
    } else {
        ls[0] + sep + join_sep(ls.drop_first(), sep)
    }
}

/// Appending one piece to a join appends the separator and the piece,
/// except into an empty join.
pub proof fn lemma_join_sep_push(ls: Seq<Seq<u8>>, sep: Seq<u8>, l: Seq<u8>)
    ensures
        ls.len() == 0 ==> join_sep(ls.push(l), sep) == l,
        ls.len() > 0 ==> join_sep(ls.push(l), sep) == join_sep(ls, sep) + sep + l,
    decreases ls.len(),
{
    let p = ls.push(l);
    if ls.len() == 0 {
        assert(p.len() == 1);
        assert(p[0] == l);
    } else if ls.len() == 1 {
        assert(p.len() == 2);
        assert(p[0] == ls[0]);
        assert(p.drop_first() =~= seq![l]);
        assert(seq![l].len() == 1);
        assert(join_sep(seq![l], sep) == l);
        assert(join_sep(p, sep) == p[0] + sep + join_sep(p.drop_first(), sep));
        assert(join_sep(ls, sep) == ls[0]);
    } else {
        lemma_join_sep_push(ls.drop_first(), sep, l);
        assert(p.drop_first() =~= ls.drop_first().push(l));
        assert(join_sep(p, sep) == p[0] + sep + join_sep(p.drop_first(), sep));
        assert(join_sep(ls, sep) + sep + l =~= ls[0] + sep + (join_sep(ls.drop_first(), sep) + sep
            + l));
    }
}

/// Split `s` into its lines.
pub fn split_lines(s: &[u8]) -> (r: Vec<Vec<u8>>)
    ensures
        r@.map_values(|v: Vec<u8>| v@) == lines_of(s@),
{
    let mut out: Vec<Vec<u8>> = Vec::new();
    let mut pos: usize = 0;
    proof {
        assert(out@.map_values(|v: Vec<u8>| v@) =~= Seq::<Seq<u8>>::empty());
    }
    while pos < s.len()
        invariant
            0 <= pos <= s@.len(),
            out@.map_values(|v: Vec<u8>| v@) + lines_from(s@, pos as int) == lines_of(s@),
        decreases s@.len() - pos,
    {
        let ghost prev = out@.map_values(|v: Vec<u8>| v@);
        let nlpat: [u8; 1] = [10u8];
        proof {
            assert(nlpat@ =~= seq![nl()]);
        }
        match find_sub_from(s, nlpat.as_slice(), pos) {
            Some(i) => {
                proof {
                    lemma_find_from_spec(s@, seq![nl()], pos as int);
                    assert(find_from(s@, seq![nl()], pos as int) == Some(i as int));
                }
                let mut line = vstd::slice::slice_to_vec(vstd::slice::slice_subrange(s, pos, i));
                if line.len() > 0 && line[line.len() - 1] == 13u8 {
                    let nlen = line.len() - 1;
                    line.truncate(nlen);
                }
                proof {
                    assert(line@ =~= strip_cr(s@.subrange(pos as int, i as int)));
                }
                out.push(line);
                proof {
                    assert(out@.map_values(|v: Vec<u8>| v@) =~= prev.push(
                        strip_cr(s@.subrange(pos as int, i as int)),
                    ));
                    assert(prev.push(strip_cr(s@.subrange(pos as int, i as int))) + lines_from(
                        s@,
                        i + 1,
                    ) =~= prev + lines_from(s@, pos as int));
                }
                pos = i + 1;
            },
            None => {
                let mut line = vstd::slice::slice_to_vec(
                    vstd::slice::slice_subrange(s, pos, s.len()),
                );
                if line.len() > 0 && line[line.len() - 1] == 13u8 {
                    let nlen = line.len() - 1;
                    line.truncate(nlen);
                }
                proof {
                    assert(line@ =~= strip_cr(s@.subrange(pos as int, s@.len() as int)));
                }
                out.push(line);
                proof {
                    assert(out@.map_values(|v: Vec<u8>| v@) =~= prev.push(
                        strip_cr(s@.subrange(pos as int, s@.len() as int)),
                    ));
                    assert(prev.push(strip_cr(s@.subrange(pos as int, s@.len() as int)))
                        =~= prev + lines_from(s@, pos as int));
                }
                pos = s.len();
            },
        }
    }
    proof {
        assert(lines_from(s@, pos as int) =~= Seq::<Seq<u8>>::empty());
        assert(out@.map_values(|v: Vec<u8>| v@) =~= lines_of(s@));
    }
    out
}

} // verus!
