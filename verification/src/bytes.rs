use vstd::prelude::*;

verus! {

/// The little-endian value of two bytes.
pub open spec fn le16(b0: u8, b1: u8) -> int {
    b0 as int + 256 * (b1 as int)
}

/// The little-endian value of four bytes.
pub open spec fn le32(b0: u8, b1: u8, b2: u8, b3: u8) -> int {
    b0 as int + 256 * (b1 as int) + 65536 * (b2 as int) + 16777216 * (b3 as int)
}

/// Decode a little-endian `u16`.
pub fn u16_from_le(b0: u8, b1: u8) -> (v: u16)
    ensures
        v as int == le16(b0, b1),
{
    b0 as u16 + (b1 as u16) * 256
}

/// Encode a `u16` as two little-endian bytes.
pub fn u16_to_le(v: u16) -> (r: (u8, u8))
    ensures
        r.0 as int == v as int % 256,
        r.1 as int == v as int / 256,
        le16(r.0, r.1) == v as int,
{
    ((v % 256) as u8, (v / 256) as u8)
}

/// Decode a little-endian `u32`.
pub fn u32_from_le(b0: u8, b1: u8, b2: u8, b3: u8) -> (v: u32)
    ensures
        v as int == le32(b0, b1, b2, b3),
{
    b0 as u32 + (b1 as u32) * 256 + (b2 as u32) * 65536 + (b3 as u32) * 16777216
}

/// Encode a `u32` as four little-endian bytes.
pub fn u32_to_le(v: u32) -> (r: (u8, u8, u8, u8))
    ensures
        r.0 as int == v as int % 256,
        r.1 as int == (v as int / 256) % 256,
        r.2 as int == (v as int / 65536) % 256,
        r.3 as int == v as int / 16777216,
        le32(r.0, r.1, r.2, r.3) == v as int,
{
    ((v % 256) as u8, ((v / 256) % 256) as u8, ((v / 65536) % 256) as u8, (v / 16777216) as u8)
}

/// Two byte pairs with the same little-endian value are the same bytes.
pub proof fn lemma_le16_injective(a0: u8, a1: u8, b0: u8, b1: u8)
    requires
        le16(a0, a1) == le16(b0, b1),
    ensures
        a0 == b0,
        a1 == b1,
{
}

/// Two byte quadruples with the same little-endian value are the same bytes.
pub proof fn lemma_le32_injective(a0: u8, a1: u8, a2: u8, a3: u8, b0: u8, b1: u8, b2: u8, b3: u8)
    requires
        le32(a0, a1, a2, a3) == le32(b0, b1, b2, b3),
    ensures
        a0 == b0,
        a1 == b1,
        a2 == b2,
        a3 == b3,
{
}

/// The digits of a little-endian pair are its bytes.
pub proof fn lemma_le16_digits(b0: u8, b1: u8)
    ensures
        le16(b0, b1) % 256 == b0 as int,
        le16(b0, b1) / 256 == b1 as int,
{
    let v = le16(b0, b1);
    assert(v == b0 as int + 256 * (b1 as int));
    assert(0 <= b0 < 256);
}

/// The digits of a little-endian quadruple are its bytes.
pub proof fn lemma_le32_digits(b0: u8, b1: u8, b2: u8, b3: u8)
    ensures
        le32(b0, b1, b2, b3) % 256 == b0 as int,
        (le32(b0, b1, b2, b3) / 256) % 256 == b1 as int,
        (le32(b0, b1, b2, b3) / 65536) % 256 == b2 as int,
        le32(b0, b1, b2, b3) / 16777216 == b3 as int,
{
    let v = le32(b0, b1, b2, b3);
    let x0 = b0 as int;
    let x1 = b1 as int;
    let x2 = b2 as int;
    let x3 = b3 as int;
    assert(v == x0 + 256 * (x1 + 256 * (x2 + 256 * x3)));
    assert(v / 256 == x1 + 256 * (x2 + 256 * x3));
    assert(v / 65536 == x2 + 256 * x3);
}

} // verus!
