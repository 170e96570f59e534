//! Integer arithmetic and result encoding for the divergence check.
//!
//! The checker compares an on-chain-reported integer against an
//! independently computed reference value.  The magnitude of their
//! difference is exact integer arithmetic and is computed here; the
//! tolerance comparison against the real-valued reference happens at
//! the edge of the program.  The verdict is reported as a canonical
//! encoded boolean whose polarity the caller depends on: the word for
//! `1` when the values diverged (check failed), the all-zero word when
//! they agree within tolerance (check passed).

use crate::words::{encode_word, word_of};
use vstd::math::abs;
use vstd::prelude::*;

verus! {

/// The exact magnitude of the difference between the value under test
/// and the truncated reference value.  The reported value must lie in
/// signed 128-bit range, the representation the difference is computed
/// in; `u128` then always holds the magnitude.
pub fn abs_difference(observed: u128, reference: i128) -> (r: u128)
    requires
        observed <= i128::MAX as u128,
    ensures
        r as nat == abs(observed as int - reference as int),
{
    if reference >= 0 {
        let rr: u128 = reference as u128;
        if observed >= rr {
            observed - rr
        } else {
            rr - observed
        }
    } else {
        let magnitude: u128 = ((-(reference + 1)) as u128) + 1;
        observed + magnitude
    }
}

/// The encoded verdict of the divergence check: the word for `1` when a
/// divergence was detected (failure), the all-zero word otherwise.
pub fn divergence_word(diverged: bool) -> (r: String)
    ensures
        r@ == word_of(if diverged {
            1nat
        } else {
            0nat
        }),
{
    if diverged {
        encode_word(1)
    } else {
        encode_word(0)
    }
}

} // verus!
