//! Lengths of byte vectors and slices, with the bound memory puts on them.
use vstd::prelude::*;

verus! {

/// `Vec::len` on a byte vector. A `Vec` never holds more than `isize::MAX`
/// bytes (its documentation: growing past `isize::MAX` bytes panics), so the
/// length of a `Vec<u8>` is at most `isize::MAX`.
#[verifier::external_body]
pub(crate) fn byte_vec_len(v: &Vec<u8>) -> (r: usize)
    ensures
        r == v@.len(),
        r <= isize::MAX,
{
    v.len()
}

/// `<[u8]>::len`. A slice never spans more than `isize::MAX` bytes (the
/// documented requirement of `slice::from_raw_parts`), so the length of a
/// `&[u8]` is at most `isize::MAX`.
#[verifier::external_body]
pub(crate) fn byte_slice_len(s: &[u8]) -> (r: usize)
    ensures
        r == s@.len(),
        r <= isize::MAX,
{
    s.len()
}

} // verus!
