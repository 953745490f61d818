//! Path handling on slash-separated relative byte paths: file name,
//! extension, stem and parent, plus the inclusion policy that decides which
//! files participate in the import map.

use vstd::prelude::*;
use crate::bytes::{
    contains_sub, has_sub, lemma_rfind_byte_spec, match_at, rfind_byte, rfind_byte_in,
};

verus! {

pub open spec fn slash() -> u8 {
    47u8
}

pub open spec fn dot() -> u8 {
    46u8
}

pub open spec fn ext_js() -> Seq<u8> {
    seq![106u8, 115u8]
}

pub open spec fn ext_mjs() -> Seq<u8> {
    seq![109u8, 106u8, 115u8]
}

pub open spec fn ext_css() -> Seq<u8> {
    seq![99u8, 115u8, 115u8]
}

/// `.development.`
pub open spec fn marker_development() -> Seq<u8> {
    seq![46u8, 100u8, 101u8, 118u8, 101u8, 108u8, 111u8, 112u8, 109u8, 101u8, 110u8, 116u8, 46u8]
}

/// `.dev.`
pub open spec fn marker_dev() -> Seq<u8> {
    seq![46u8, 100u8, 101u8, 118u8, 46u8]
}

/// `.test.`
pub open spec fn marker_test() -> Seq<u8> {
    seq![46u8, 116u8, 101u8, 115u8, 116u8, 46u8]
}

/// `tests`
pub open spec fn comp_tests() -> Seq<u8> {
    seq![116u8, 101u8, 115u8, 116u8, 115u8]
}

/// The part of `p` after the last slash, or all of `p`.
pub open spec fn file_name_of(p: Seq<u8>) -> Seq<u8> {
    match rfind_byte(p, slash()) {
        Some(i) => p.subrange(i + 1, p.len() as int),
        None => p,
    }
}

/// The part of `p` before the last slash; empty when there is none.
pub open spec fn parent_of(p: Seq<u8>) -> Seq<u8> {
    match rfind_byte(p, slash()) {
        Some(i) => p.subrange(0, i),
        None => Seq::empty(),
    }
}

pub open spec fn has_slash(p: Seq<u8>) -> bool {
    rfind_byte(p, slash()) is Some
}

/// The extension of a file name: the part after the last dot, provided that
/// dot is not the leading byte (a leading dot marks a hidden file, not an
/// extension).
pub open spec fn ext_of_name(name: Seq<u8>) -> Option<Seq<u8>> {
    match rfind_byte(name, dot()) {
        Some(i) => if i > 0 {
            Some(name.subrange(i + 1, name.len() as int))
        } else {
            None
        },
        None => None,
    }
}

/// The stem of a file name: what precedes the extension's dot, or the whole
/// name when there is no extension.
pub open spec fn stem_of_name(name: Seq<u8>) -> Seq<u8> {
    match rfind_byte(name, dot()) {
        Some(i) => if i > 0 {
            name.subrange(0, i)
        } else {
            name
        },
        None => name,
    }
}

/// `c` stands as a whole slash-delimited component of `p` at index `i`.
pub open spec fn component_at(p: Seq<u8>, c: Seq<u8>, i: int) -> bool {
    &&& match_at(p, c, i)
    &&& (i == 0 || p[i - 1] == slash())
    &&& (i + c.len() == p.len() || p[i + c.len()] == slash())
}

pub open spec fn has_component(p: Seq<u8>, c: Seq<u8>) -> bool {
    exists|i: int| component_at(p, c, i)
}

pub open spec fn allowed_ext(e: Seq<u8>) -> bool {
    e == ext_js() || e == ext_mjs() || e == ext_css()
}

/// The inclusion policy: a file participates when its extension is
/// recognized, it is not a root-level script, carries no development or
/// test infix in its name, is not an underscore-prefixed partial, and no
/// path component is the reserved `tests` directory.
pub open spec fn included(path: Seq<u8>) -> bool {
    let name = file_name_of(path);
    match ext_of_name(name) {
        None => false,
        Some(e) => {
            &&& allowed_ext(e)
            &&& !(e == ext_js() && !has_slash(path))
            &&& !contains_sub(name, marker_development())
            &&& !contains_sub(name, marker_dev())
            &&& !contains_sub(name, marker_test())
            &&& !(name.len() > 0 && name[0] == 95u8)
            &&& !has_component(path, comp_tests())
        },
    }
}

/// File name of a slash path (executable).
pub fn file_name_slice<'a>(p: &'a [u8]) -> (r: &'a [u8])
    ensures
        r@ == file_name_of(p@),
{
    match rfind_byte_in(p, 47u8) {
        Some(i) => {
            proof {
                lemma_rfind_byte_spec(p@, 47u8);
            }
            let n = p.len();
            vstd::slice::slice_subrange(p, i + 1, n)
        },
        None => p,
    }
}

/// Extension of a file name (executable).
pub fn ext_of_name_slice<'a>(name: &'a [u8]) -> (r: Option<&'a [u8]>)
    ensures
        match r {
            Some(e) => ext_of_name(name@) == Some(e@),
            None => ext_of_name(name@) is None,
        },
{
    match rfind_byte_in(name, 46u8) {
        Some(i) => if i > 0 {
            proof {
                lemma_rfind_byte_spec(name@, 46u8);
            }
            let n = name.len();
            Some(vstd::slice::slice_subrange(name, i + 1, n))
        } else {
            None
        },
        None => None,
    }
}

/// Stem of a file name (executable).
pub fn stem_of_name_slice<'a>(name: &'a [u8]) -> (r: &'a [u8])
    ensures
        r@ == stem_of_name(name@),
{
    match rfind_byte_in(name, 46u8) {
        Some(i) => if i > 0 {
            proof {
                lemma_rfind_byte_spec(name@, 46u8);
            }
            vstd::slice::slice_subrange(name, 0, i)
        } else {
            name
        },
        None => name,
    }
}

/// Whether `c` occurs as a whole slash-delimited component of `p`.
pub fn has_component_in(p: &[u8], c: &[u8]) -> (r: bool)
    requires
        c@.len() > 0,
    ensures
        r == has_component(p@, c@),
{
    let mut i: usize = 0;
    loop
        invariant
            c@.len() > 0,
            0 <= i <= p@.len(),
            forall|k: int| 0 <= k < i ==> !component_at(p@, c@, k),
        decreases p@.len() - i,
    {
        if c.len() > p.len() - i {
            proof {
                assert forall|k: int| !component_at(p@, c@, k) by {
                    if k >= i {
                        assert(k + c@.len() > p@.len());
                    }
                }
            }
            return false;
        }
        let window = vstd::slice::slice_subrange(p, i, i + c.len());
        let mut here: bool = crate::bytes::bytes_eq(window, c);
        if here && i > 0 {
            if p[i - 1] != 47u8 {
                here = false;
            }
        }
        if here && i + c.len() < p.len() {
            if p[i + c.len()] != 47u8 {
                here = false;
            }
        }
        if here {
            assert(component_at(p@, c@, i as int));
            return true;
        }
        assert(!component_at(p@, c@, i as int));
        i = i + 1;
    }
}

/// Whether `e` is a recognized asset extension (executable).
pub fn is_allowed_ext(e: &[u8]) -> (r: bool)
    ensures
        r == allowed_ext(e@),
{
    let js: [u8; 2] = [106u8, 115u8];
    let mjs: [u8; 3] = [109u8, 106u8, 115u8];
    let css: [u8; 3] = [99u8, 115u8, 115u8];
    proof {
        assert(js@ =~= ext_js());
        assert(mjs@ =~= ext_mjs());
        assert(css@ =~= ext_css());
    }
    crate::bytes::bytes_eq(e, js.as_slice()) || crate::bytes::bytes_eq(e, mjs.as_slice())
        || crate::bytes::bytes_eq(e, css.as_slice())
}

/// The inclusion policy (executable).
pub fn path_included(path: &[u8]) -> (r: bool)
    ensures
        r == included(path@),
{
    let name = file_name_slice(path);
    let e = match ext_of_name_slice(name) {
        Some(e) => e,
        None => {
            return false;
        },
    };
    let js: [u8; 2] = [106u8, 115u8];
    let mjs: [u8; 3] = [109u8, 106u8, 115u8];
    let css: [u8; 3] = [99u8, 115u8, 115u8];
    let is_js = crate::bytes::bytes_eq(e, js.as_slice());
    let is_mjs = crate::bytes::bytes_eq(e, mjs.as_slice());
    let is_css = crate::bytes::bytes_eq(e, css.as_slice());
    proof {
        assert(js@ =~= ext_js());
        assert(mjs@ =~= ext_mjs());
        assert(css@ =~= ext_css());
    }
    if !(is_js || is_mjs || is_css) {
        return false;
    }
    if is_js {
        let root_level = match rfind_byte_in(path, 47u8) {
            Some(_) => false,
            None => true,
        };
        if root_level {
            return false;
        }
    }
    let development: [u8; 13] = [
        46u8,
        100u8,
        101u8,
        118u8,
        101u8,
        108u8,
        111u8,
        112u8,
        109u8,
        101u8,
        110u8,
        116u8,
        46u8,
    ];
    let dev: [u8; 5] = [46u8, 100u8, 101u8, 118u8, 46u8];
    let test: [u8; 6] = [46u8, 116u8, 101u8, 115u8, 116u8, 46u8];
    let tests: [u8; 5] = [116u8, 101u8, 115u8, 116u8, 115u8];
    proof {
        assert(development@ =~= marker_development());
        assert(dev@ =~= marker_dev());
        assert(test@ =~= marker_test());
        assert(tests@ =~= comp_tests());
    }
    if has_sub(name, development.as_slice()) {
        return false;
    }
    if has_sub(name, dev.as_slice()) {
        return false;
    }
    if has_sub(name, test.as_slice()) {
        return false;
    }
    if name.len() > 0 {
        if name[0] == 95u8 {
            return false;
        }
    }
    if has_component_in(path, tests.as_slice()) {
        return false;
    }
    true
}

} // verus!
