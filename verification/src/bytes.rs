//! Small executable helpers over byte slices and strings, with exact
//! contracts: equality, prefix tests, ASCII case folding, and decimal
//! rendering and parsing of integers.

use vstd::prelude::*;

verus! {

/// The UTF-8 encoding of a character sequence, as stored by `str`/`String`.
pub open spec fn utf8_of(s: Seq<char>) -> Seq<u8> {
    vstd::utf8::encode_utf8(s)
}

/// The bytes of a `String` (its UTF-8 encoding).
pub fn string_bytes(s: &String) -> (r: &[u8])
    ensures
        r@ == utf8_of(s@),
{
    s.as_str().as_bytes()
}

/// Exact equality of two byte slices.
pub fn bytes_eq(a: &[u8], b: &[u8]) -> (r: bool)
    ensures
        r == (a@ == b@),
{
    if a.len() != b.len() {
        assert(a@.len() != b@.len());
        return false;
    }
    let mut i: usize = 0;
    while i < a.len()
        invariant
            i <= a.len(),
            a.len() == b.len(),
            forall|j: int| 0 <= j < i ==> a@[j] == b@[j],
        decreases a.len() - i,
    {
        if a[i] != b[i] {
            return false;
        }
        i += 1;
    }
    assert(a@ =~= b@);
    true
}

/// Whether `a` begins with `p`.
pub open spec fn spec_starts_with(a: Seq<u8>, p: Seq<u8>) -> bool {
    p.len() <= a.len() && a.subrange(0, p.len() as int) == p
}

pub fn bytes_starts_with(a: &[u8], p: &[u8]) -> (r: bool)
    ensures
        r == spec_starts_with(a@, p@),
{
    if p.len() > a.len() {
        return false;
    }
    let mut i: usize = 0;
    while i < p.len()
        invariant
            i <= p.len(),
            p.len() <= a.len(),
            forall|j: int| 0 <= j < i ==> a@[j] == p@[j],
        decreases p.len() - i,
    {
        if a[i] != p[i] {
            assert(a@.subrange(0, p@.len() as int)[i as int] != p@[i as int]);
            return false;
        }
        i += 1;
    }
    assert(a@.subrange(0, p@.len() as int) =~= p@);
    true
}

/// ASCII lower-casing of one byte: folds `A`..`Z` to `a`..`z`.
pub open spec fn spec_lower(b: u8) -> u8 {
    if 65 <= b && b <= 90 {
        (b + 32) as u8
    } else {
        b
    }
}

pub fn lower_byte(b: u8) -> (r: u8)
    ensures
        r == spec_lower(b),
{
    if 65 <= b && b <= 90 {
        b + 32
    } else {
        b
    }
}

/// Whether `a` begins with `p`, comparing bytes after ASCII lower-casing.
pub open spec fn spec_starts_with_lower(a: Seq<u8>, p: Seq<u8>) -> bool {
    p.len() <= a.len() && a.subrange(0, p.len() as int).map_values(|b: u8| spec_lower(b)) == p
}

pub fn bytes_starts_with_lower(a: &[u8], p: &[u8]) -> (r: bool)
    ensures
        r == spec_starts_with_lower(a@, p@),
{
    if p.len() > a.len() {
        return false;
    }
    let ghost prefix = a@.subrange(0, p@.len() as int).map_values(|b: u8| spec_lower(b));
    assert(prefix.len() == p@.len());
    let mut i: usize = 0;
    while i < p.len()
        invariant
            i <= p.len(),
            p.len() <= a.len(),
            prefix == a@.subrange(0, p@.len() as int).map_values(|b: u8| spec_lower(b)),
            prefix.len() == p@.len(),
            forall|j: int| 0 <= j < i ==> prefix[j] == p@[j],
        decreases p.len() - i,
    {
        if lower_byte(a[i]) != p[i] {
            assert(prefix[i as int] != p@[i as int]);
            return false;
        }
        assert(prefix[i as int] == p@[i as int]);
        i += 1;
    }
    assert(prefix =~= p@);
    true
}

} // verus!
