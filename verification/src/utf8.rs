//! UTF-8 validity of byte strings.
//!
//! Frequency-table keys are byte strings that must decode as UTF-8; validity
//! is decided by the standard library and named here as an uninterpreted
//! predicate, so contracts can say exactly which classifications are recorded.

use vstd::prelude::*;

verus! {

/// Whether a byte sequence is valid UTF-8, as decided by `str::from_utf8`.
pub uninterp spec fn utf8_ok(b: Seq<u8>) -> bool;

/// Relies on `str::from_utf8`: it returns `Ok` exactly on valid UTF-8, a
/// property of the bytes alone, and its documentation guarantees that ASCII
/// input (all bytes below 0x80) is always valid UTF-8.
#[verifier::external_body]
pub(crate) fn is_utf8(b: &Vec<u8>) -> (r: bool)
    ensures
        r == utf8_ok(b@),
        (forall|i: int| 0 <= i < b@.len() ==> b@[i] < 0x80) ==> r,
{
    core::str::from_utf8(b.as_slice()).is_ok()
}

} // verus!
