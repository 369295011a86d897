use vstd::prelude::*;

verus! {

/// Whether a `bf16` bit pattern is a NaN.
pub open spec fn bf16_is_nan(bits: u16) -> bool {
    bits % 0x8000 > 0x7f80
}

/// `a <= b` on two `bf16` values given by their bit patterns, as IEEE 754
/// orders them: false when either is a NaN, and `-0 == +0`.
pub open spec fn bf16_le(a: u16, b: u16) -> bool {
    if bf16_is_nan(a) || bf16_is_nan(b) {
        false
    } else {
        let neg = a >= 0x8000;
        let other_neg = b >= 0x8000;
        if !neg && !other_neg {
            a <= b
        } else if !neg && other_neg {
            a % 0x8000 == 0 && b % 0x8000 == 0
        } else if neg && !other_neg {
            true
        } else {
            a >= b
        }
    }
}

/// Compares two `bf16` values, given by their bit patterns, with `half`'s
/// `<=` on `half::bf16`. The contract restates that implementation, which
/// works on the bits alone.
#[verifier::external_body]
pub fn feature_le(a: u16, b: u16) -> (r: bool)
    ensures
        r == bf16_le(a, b),
{
    half::bf16::from_bits(a) <= half::bf16::from_bits(b)
}

} // verus!
