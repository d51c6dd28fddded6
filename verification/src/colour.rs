//! Colour values and the pixel layout of the strip.

use vstd::prelude::*;
use vstd::std_specs::convert::FromSpec;

verus! {

/// The number of pixels of the strip that the scripted patterns are made
/// for.
pub const NUM_LEDS: usize = 80;

/// A colour with one value per channel.
#[derive(Clone, Debug)]
pub struct Colour<T> {
    pub r: T,
    pub g: T,
    pub b: T,
}

impl<T> Colour<T> where T: Copy + From<u8> {
    /// The colour with the given channel values.
    pub fn new(r: T, g: T, b: T) -> (c: Self)
        ensures
            c.r == r,
            c.g == g,
            c.b == b,
    {
        Colour { r, g, b }
    }

    /// The colour as a pixel: red, green, blue, and a fourth channel that
    /// the strip does not use and that holds what zero converts to.
    pub fn to_array(&self) -> (px: [T; 4])
        ensures
            px@.len() == 4,
            px@[0] == self.r,
            px@[1] == self.g,
            px@[2] == self.b,
            call_ensures(T::from, (0u8,), px@[3]),
            T::obeys_from_spec() ==> px@[3] == T::from_spec(0u8),
    {
        let pad: T = T::from(0u8);
        [self.r, self.g, self.b, pad]
    }
}

/// The pixel that shows the three given channel values.
pub open spec fn pixel(r: u8, g: u8, b: u8) -> Seq<u8> {
    seq![r, g, b, 0u8]
}

/// The colour at the given place of the colour wheel, as a pixel.
pub fn wheel(pos: u8) -> (px: [u8; 4])
    ensures
        px@ == wheel_pixel(pos),
{
    if pos < 85 {
        [pos * 3, 255 - pos * 3, 0, 0]
    } else if pos < 170 {
        [255 - (pos - 85) * 3, 0, (pos - 85) * 3, 0]
    } else {
        [0, (pos - 170) * 3, 255 - (pos - 170) * 3, 0]
    }
}

/// The colour wheel: it runs from green over red and blue back to green.
/// In each third of it one channel rises by three per place, one falls by
/// three per place, and one is off.
pub open spec fn wheel_pixel(pos: u8) -> Seq<u8> {
    if pos < 85 {
        pixel((pos * 3) as u8, (255 - pos * 3) as u8, 0)
    } else if pos < 170 {
        pixel((255 - (pos - 85) * 3) as u8, 0, ((pos - 85) * 3) as u8)
    } else {
        pixel(0, ((pos - 170) * 3) as u8, (255 - (pos - 170) * 3) as u8)
    }
}

/// Turns every pixel of the buffer off.
pub fn clear(leds: &mut Vec<[u8; 4]>)
    ensures
        final(leds)@.len() == old(leds)@.len(),
        forall|i: int|
            0 <= i < final(leds)@.len() ==> (#[trigger] final(leds)@[i])@ == pixel(0, 0, 0),
{
    let mut i: usize = 0;
    while i < leds.len()
        invariant
            i <= leds@.len(),
            leds@.len() == old(leds)@.len(),
            forall|j: int| 0 <= j < i ==> (#[trigger] leds@[j])@ == pixel(0, 0, 0),
        decreases leds@.len() - i,
    {
        leds[i] = [0, 0, 0, 0];
        i += 1;
    }
}

} // verus!
