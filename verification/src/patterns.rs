//! Patterns that are a function of the pixel's place and a frame counter.

use crate::colour::{clear, pixel, wheel, wheel_pixel, Colour, NUM_LEDS};
use vstd::prelude::*;

verus! {

/// The number of frames of a wipe: one dark frame, one for each pixel that
/// lights up, and one for each pixel that goes dark again.
pub const WIPE_FRAMES: usize = 161;

/// What the pixel `i` shows in the given frame of a wipe. The strip fills
/// with white from its start, one pixel per frame; when it is full it
/// empties from its end, one pixel per frame, and then stays dark.
pub open spec fn wipe_pixel(frame: int, i: int) -> Seq<u8> {
    if i < frame && i + frame < 2 * NUM_LEDS && i < NUM_LEDS {
        pixel(255, 255, 255)
    } else {
        pixel(0, 0, 0)
    }
}

/// Draws the given frame of a wipe. Frames are counted from 0.
pub fn wipe(leds: &mut Vec<[u8; 4]>, frame: usize)
    requires
        old(leds)@.len() >= NUM_LEDS,
    ensures
        final(leds)@.len() == old(leds)@.len(),
        forall|i: int|
            0 <= i < final(leds)@.len() ==> (#[trigger] final(leds)@[i])@ == wipe_pixel(
                frame as int,
                i,
            ),
{
    clear(leds);
    let filled = if frame < NUM_LEDS {
        frame
    } else {
        NUM_LEDS
    };
    let mut k: usize = 0;
    while k < filled
        invariant
            k <= filled <= NUM_LEDS,
            leds@.len() == old(leds)@.len(),
            leds@.len() >= NUM_LEDS,
            forall|i: int|
                0 <= i < leds@.len() ==> (#[trigger] leds@[i])@ == if i < k {
                    pixel(255, 255, 255)
                } else {
                    pixel(0, 0, 0)
                },
        decreases filled - k,
    {
        leds[k] = [255, 255, 255, 0];
        k += 1;
    }
    if frame > NUM_LEDS {
        let emptied = if frame - NUM_LEDS < NUM_LEDS {
            frame - NUM_LEDS
        } else {
            NUM_LEDS
        };
        let mut n: usize = 0;
        while n < emptied
            invariant
                n <= emptied <= NUM_LEDS,
                leds@.len() == old(leds)@.len(),
                leds@.len() >= NUM_LEDS,
                forall|i: int|
                    0 <= i < leds@.len() ==> (#[trigger] leds@[i])@ == if i < NUM_LEDS - n {
                        pixel(255, 255, 255)
                    } else {
                        pixel(0, 0, 0)
                    },
            decreases emptied - n,
        {
            leds[NUM_LEDS - 1 - n] = [0, 0, 0, 0];
            n += 1;
        }
    }
}

/// What the pixel `i` shows in a theatre chase with the counter at `j`:
/// every third pixel is white, and the lit pixels move back by one when the
/// counter goes up by one.
pub open spec fn theatre_pixel(j: u8, i: int) -> Seq<u8> {
    if (i + j) % 3 == 0 {
        pixel(255, 255, 255)
    } else {
        pixel(0, 0, 0)
    }
}

/// Draws the frame of a theatre chase with the counter at `j`.
pub fn theatre(leds: &mut Vec<[u8; 4]>, j: u8)
    ensures
        final(leds)@.len() == old(leds)@.len(),
        forall|i: int|
            0 <= i < final(leds)@.len() ==> (#[trigger] final(leds)@[i])@ == theatre_pixel(j, i),
{
    let phase: usize = (j % 3) as usize;
    let mut i: usize = 0;
    while i < leds.len()
        invariant
            i <= leds@.len(),
            phase == j % 3,
            leds@.len() == old(leds)@.len(),
            forall|k: int| 0 <= k < i ==> (#[trigger] leds@[k])@ == theatre_pixel(j, k),
        decreases leds@.len() - i,
    {
        if (i % 3 + phase) % 3 == 0 {
            leds[i] = [255, 255, 255, 0];
        } else {
            leds[i] = [0, 0, 0, 0];
        }
        i += 1;
    }
}

/// The place on the colour wheel of the pixel `i` with the counter at `j`:
/// the wheel is laid out once along the strip and turns with the counter.
pub open spec fn rainbow_pos(j: u8, i: int) -> u8 {
    ((i * 256 / (NUM_LEDS as int) + j) % 256) as u8
}

/// The wheel advances by sixteen places over a run of five pixels.
proof fn lemma_wheel_runs(i: int)
    requires
        0 <= i,
    ensures
        i * 256 / 80 == 16 * (i / 5) + (i % 5) * 16 / 5,
{
    let run = i / 5;
    let within = i % 5;
    assert(i == 5 * run + within);
    if within == 0 {
        assert(i * 256 == 80 * (16 * run));
    } else if within == 1 {
        assert(i * 256 == 80 * (16 * run + 3) + 16);
    } else if within == 2 {
        assert(i * 256 == 80 * (16 * run + 6) + 32);
    } else if within == 3 {
        assert(i * 256 == 80 * (16 * run + 9) + 48);
    } else {
        assert(i * 256 == 80 * (16 * run + 12) + 64);
    }
}

/// The place on the colour wheel of the pixel `i` with the counter at `j`.
fn wheel_place(i: usize, j: u8) -> (pos: u8)
    ensures
        pos == rainbow_pos(j, i as int),
{
    // The strip is worked in runs of five pixels, each of which takes
    // sixteen places of the wheel, so that a long strip cannot overflow.
    let run = i / 5;
    let within = i % 5;
    let turn = (run % 16) * 16 + (within * 16) / 5;
    let ju: usize = j as usize;
    let pinx = turn + ju;
    assert(pinx & 255 == pinx % 256) by (bit_vector);
    proof {
        lemma_wheel_runs(i as int);
        assert(run == 16 * (run / 16) + run % 16);
        assert(16 * run + (within * 16) / 5 + j == 256 * (run / 16) + pinx);
    }
    (pinx & 255) as u8
}

/// Draws the frame of a rainbow with the counter at `j`.
pub fn rainbow(leds: &mut Vec<[u8; 4]>, j: u8)
    ensures
        final(leds)@.len() == old(leds)@.len(),
        forall|i: int|
            0 <= i < final(leds)@.len() ==> (#[trigger] final(leds)@[i])@ == wheel_pixel(
                rainbow_pos(j, i),
            ),
{
    let mut i: usize = 0;
    while i < leds.len()
        invariant
            i <= leds@.len(),
            leds@.len() == old(leds)@.len(),
            forall|k: int|
                0 <= k < i ==> (#[trigger] leds@[k])@ == wheel_pixel(rainbow_pos(j, k)),
        decreases leds@.len() - i,
    {
        leds[i] = wheel(wheel_place(i, j));
        i += 1;
    }
}

/// What the pixel `i` shows in a frame of bands with the counter at `j`:
/// red and green bands of `num_in_band` pixels. With `inner` set the bands
/// move back by one pixel when the counter goes up by one; without it they
/// change places.
pub open spec fn bands_pixel(j: u8, inner: bool, num_in_band: int, i: int) -> Seq<u8> {
    let red = if inner {
        ((i + j) / num_in_band) % 2 == 0
    } else {
        ((i / num_in_band) + j) % 2 == 0
    };
    if red {
        pixel(255, 0, 0)
    } else {
        pixel(0, 255, 0)
    }
}

/// Draws the frame of bands with the counter at `j`.
pub fn bands(leds: &mut Vec<[u8; 4]>, j: u8, inner: bool, num_in_band: usize)
    requires
        num_in_band > 0,
    ensures
        final(leds)@.len() == old(leds)@.len(),
        forall|i: int|
            0 <= i < final(leds)@.len() ==> (#[trigger] final(leds)@[i])@ == bands_pixel(
                j,
                inner,
                num_in_band as int,
                i,
            ),
{
    let mut i: usize = 0;
    while i < leds.len()
        invariant
            i <= leds@.len(),
            num_in_band > 0,
            leds@.len() == old(leds)@.len(),
            forall|k: int|
                0 <= k < i ==> (#[trigger] leds@[k])@ == bands_pixel(
                    j,
                    inner,
                    num_in_band as int,
                    k,
                ),
        decreases leds@.len() - i,
    {
        let switch = if inner {
            let shifted: u128 = i as u128 + j as u128;
            (shifted / (num_in_band as u128)) % 2 == 0
        } else {
            ((i / num_in_band) % 2 + (j % 2) as usize) % 2 == 0
        };
        if switch {
            leds[i] = [255, 0, 0, 0];
        } else {
            leds[i] = [0, 255, 0, 0];
        }
        i += 1;
    }
}

/// Fills the strip with one colour.
pub fn colour(leds: &mut Vec<[u8; 4]>, colour: Colour<u8>)
    ensures
        final(leds)@.len() == old(leds)@.len(),
        forall|i: int|
            0 <= i < final(leds)@.len() ==> (#[trigger] final(leds)@[i])@ == pixel(
                colour.r,
                colour.g,
                colour.b,
            ),
{
    let mut i: usize = 0;
    while i < leds.len()
        invariant
            i <= leds@.len(),
            leds@.len() == old(leds)@.len(),
            forall|k: int|
                0 <= k < i ==> (#[trigger] leds@[k])@ == pixel(colour.r, colour.g, colour.b),
        decreases leds@.len() - i,
    {
        leds[i] = [colour.r, colour.g, colour.b, 0];
        i += 1;
    }
}

/// The frame counter after the one given: it counts up to 249 and starts
/// again at 0.
pub fn next_counter(j: u8) -> (next: u8)
    ensures
        next == if j >= 249 {
            if j == 249 || j == 255 {
                0
            } else {
                j + 1
            }
        } else {
            j + 1
        },
{
    let next = j.wrapping_add(1);
    if next == 250 {
        0
    } else {
        next
    }
}

} // verus!
