use vstd::prelude::*;

verus! {

/// The red, green and blue bytes of a color written `0xRRGGBB`; bits above
/// the lowest twenty-four are ignored.
pub fn hex_channels(hex: u32) -> (r: (u8, u8, u8))
    ensures
        r.0 == (hex / 65536) % 256,
        r.1 == (hex / 256) % 256,
        r.2 == hex % 256,
{
    let red = (hex >> 16u32) & 0xFFu32;
    let green = (hex >> 8u32) & 0xFFu32;
    let blue = hex & 0xFFu32;
    assert((hex >> 16u32) & 0xFFu32 == (hex / 65536) % 256) by (bit_vector);
    assert((hex >> 8u32) & 0xFFu32 == (hex / 256) % 256) by (bit_vector);
    assert(hex & 0xFFu32 == hex % 256) by (bit_vector);
    (red as u8, green as u8, blue as u8)
}

} // verus!
