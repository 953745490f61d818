//! Content fingerprints: a short, deterministic digest of file bytes,
//! rendered as eight lowercase hexadecimal digits.

use vstd::prelude::*;

verus! {

/// The digest that `rapidhash::v3::rapidhash_v3` computes for the given
/// bytes. It is a pure function of the bytes alone: the algorithm uses a
/// fixed built-in seed and is defined identically on every platform.
pub uninterp spec fn rapid_hash(data: Seq<u8>) -> u64;

/// Relies on rapidhash::v3::rapidhash_v3: a deterministic 64-bit digest of
/// the input bytes, computed with the crate's fixed default seed.
#[verifier::external_body]
pub(crate) fn rapid_hash_of(data: &[u8]) -> (h: u64)
    ensures
        h == rapid_hash(data@),
{
    rapidhash::v3::rapidhash_v3(data)
}

/// The hexadecimal digit for a value below sixteen, lowercase.
pub open spec fn hex_digit(n: int) -> u8 {
    if n < 10 {
        (48 + n) as u8
    } else {
        (87 + n) as u8
    }
}

/// The nibble of `h` rendered at position `j` when `h` is written as
/// sixteen hex digits, most significant first.
pub open spec fn nibble_at(h: u64, j: int) -> int {
    ((h >> ((60 - 4 * j) as u64)) & 0xF) as int
}

/// The first eight hex digits of the sixteen-digit rendering of `h`:
/// the top 32 bits, lowercase, most significant first.
pub open spec fn hex8(h: u64) -> Seq<u8> {
    Seq::new(8, |j: int| hex_digit(nibble_at(h, j)))
}

pub open spec fn is_lower_hex_digit(b: u8) -> bool {
    (48 <= b <= 57) || (97 <= b <= 102)
}

/// A hex digit as accepted when stripping a fingerprint: either case.
pub open spec fn is_hex_digit(b: u8) -> bool {
    (48 <= b <= 57) || (97 <= b <= 102) || (65 <= b <= 70)
}

pub proof fn lemma_nibble_bounds(h: u64, j: int)
    requires
        0 <= j < 8,
    ensures
        0 <= nibble_at(h, j) < 16,
{
    let s = (60 - 4 * j) as u64;
    assert((h >> s) & 0xF < 16) by (bit_vector);
}

/// Every digit of `hex8` is a lowercase hex digit.
pub proof fn lemma_hex8_digits(h: u64)
    ensures
        hex8(h).len() == 8,
        forall|j: int| 0 <= j < 8 ==> is_lower_hex_digit(#[trigger] hex8(h)[j]),
        forall|j: int| 0 <= j < 8 ==> is_hex_digit(#[trigger] hex8(h)[j]),
{
    assert forall|j: int| 0 <= j < 8 implies is_lower_hex_digit(#[trigger] hex8(h)[j])
        && is_hex_digit(hex8(h)[j]) by {
        lemma_nibble_bounds(h, j);
    }
}

/// Render the short fingerprint of `h`: its top 32 bits as eight lowercase
/// hex digits.
pub fn short_hash_hex(h: u64) -> (r: Vec<u8>)
    ensures
        r@ == hex8(h),
{
    let mut out: Vec<u8> = Vec::new();
    let mut j: usize = 0;
    while j < 8
        invariant
            0 <= j <= 8,
            out@.len() == j,
            forall|k: int| 0 <= k < j ==> out@[k] == hex8(h)[k],
        decreases 8 - j,
    {
        let shift: u64 = 60 - 4 * (j as u64);
        let nib_wide: u64 = (h >> shift) & 0xF;
        assert(nib_wide < 16) by (bit_vector)
            requires
                nib_wide == (h >> shift) & 0xF,
        ;
        let nib: u8 = nib_wide as u8;
        let d: u8 = if nib < 10 {
            48 + nib
        } else {
            87 + nib
        };
        proof {
            assert(shift as int == 60 - 4 * (j as int));
            assert(nib as int == nibble_at(h, j as int));
            assert(d == hex_digit(nibble_at(h, j as int)));
        }
        out.push(d);
        j = j + 1;
    }
    proof {
        assert(out@ =~= hex8(h));
    }
    out
}

} // verus!
