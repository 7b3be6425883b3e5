//! Colour arithmetic on premultiplied RGBA channels.
use vstd::prelude::*;

verus! {

/// Mean of two channel values, rounded down.
pub open spec fn channel_mean(a: u8, b: u8) -> int {
    (a + b) / 2
}

/// Mixes two colours given as premultiplied RGBA channels: each channel of
/// the result is the mean of the two, rounded down. A wire between two pins
/// takes the mix of their colours.
pub fn mix_rgba(a: [u8; 4], b: [u8; 4]) -> (r: [u8; 4])
    ensures
        forall|i: int| 0 <= i < 4 ==> r[i] == channel_mean(a[i], b[i]),
{
    let mut r: [u8; 4] = [0u8; 4];
    let mut i: usize = 0;
    while i < 4
        invariant
            i <= 4,
            forall|k: int| 0 <= k < i ==> r[k] == channel_mean(a[k], b[k]),
        decreases 4 - i,
    {
        let sum: u16 = a[i] as u16 + b[i] as u16;
        let mean: u16 = sum / 2;
        r[i] = mean as u8;
        i = i + 1;
    }
    r
}

} // verus!
