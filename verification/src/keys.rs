//! Order keys for the dataset elements.
//!
//! The solver works on plain `u64` keys whose integer order mirrors the
//! order of the IEEE-754 double-precision values they stand for: a double
//! with bit pattern `b` is mapped to `!b` when its sign bit is set and to
//! `b | SIGN_MASK` otherwise.  Under this map every comparison of two
//! non-NaN doubles agrees with the `u64` comparison of their keys, negative
//! infinity becomes [`KEY_NEG_INF`], and positive infinity becomes
//! [`KEY_POS_INF`].  NaN patterns fall outside the
//! `KEY_NEG_INF ..= KEY_POS_INF` band, so the solver's precondition that no
//! element is NaN is the requirement that every key lies in that band.

use vstd::prelude::*;

verus! {

/// Key of IEEE-754 negative infinity: the least admissible key.
pub const KEY_NEG_INF: u64 = 0x000F_FFFF_FFFF_FFFF;

/// Key of IEEE-754 positive infinity: the greatest admissible key.
pub const KEY_POS_INF: u64 = 0xFFF0_0000_0000_0000;

/// The sign bit of a double-precision bit pattern.
pub const SIGN_MASK: u64 = 0x8000_0000_0000_0000;

/// The order key of the double with bit pattern `b`.
pub open spec fn spec_key_of_bits(b: u64) -> u64 {
    if b & SIGN_MASK != 0 {
        !b
    } else {
        b | SIGN_MASK
    }
}

/// The bit pattern of the double with order key `k`.
pub open spec fn spec_bits_of_key(k: u64) -> u64 {
    if k & SIGN_MASK != 0 {
        k ^ SIGN_MASK
    } else {
        !k
    }
}

/// Map a double-precision bit pattern to its order key.
#[verifier::when_used_as_spec(spec_key_of_bits)]
pub fn key_of_bits(b: u64) -> (k: u64)
    ensures
        k == spec_key_of_bits(b),
{
    if b & SIGN_MASK != 0 {
        !b
    } else {
        b | SIGN_MASK
    }
}

/// Map an order key back to the double-precision bit pattern it encodes.
#[verifier::when_used_as_spec(spec_bits_of_key)]
pub fn bits_of_key(k: u64) -> (b: u64)
    ensures
        b == spec_bits_of_key(k),
{
    if k & SIGN_MASK != 0 {
        k ^ SIGN_MASK
    } else {
        !k
    }
}

/// Decoding a key recovers the bit pattern it was made from.
pub proof fn lemma_key_of_bits_invertible(b: u64)
    ensures
        spec_bits_of_key(spec_key_of_bits(b)) == b,
{
    if b & SIGN_MASK != 0 {
        assert(b & 0x8000_0000_0000_0000u64 != 0 ==> (!b) & 0x8000_0000_0000_0000u64 == 0
            && !(!b) == b) by (bit_vector);
    } else {
        assert(b & 0x8000_0000_0000_0000u64 == 0 ==> (b | 0x8000_0000_0000_0000u64)
            & 0x8000_0000_0000_0000u64 != 0 && (b | 0x8000_0000_0000_0000u64)
            ^ 0x8000_0000_0000_0000u64 == b) by (bit_vector);
    }
}

/// Encoding a decoded key gives the key back.
pub proof fn lemma_bits_of_key_invertible(k: u64)
    ensures
        spec_key_of_bits(spec_bits_of_key(k)) == k,
{
    if k & SIGN_MASK != 0 {
        assert(k & 0x8000_0000_0000_0000u64 != 0 ==> (k ^ 0x8000_0000_0000_0000u64)
            & 0x8000_0000_0000_0000u64 == 0 && ((k ^ 0x8000_0000_0000_0000u64)
            | 0x8000_0000_0000_0000u64) == k) by (bit_vector);
    } else {
        assert(k & 0x8000_0000_0000_0000u64 == 0 ==> (!k) & 0x8000_0000_0000_0000u64 != 0
            && !(!k) == k) by (bit_vector);
    }
}

/// Whether a key stands for a non-NaN double: the admissible band.
pub open spec fn key_in_range(k: u64) -> bool {
    KEY_NEG_INF <= k <= KEY_POS_INF
}

} // verus!
