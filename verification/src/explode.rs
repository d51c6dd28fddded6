//! A scripted sequence: a spark flares up at the start of the strip, shoots
//! along it, and bursts at the far end into seven bands of colour that
//! spread and then die down.

use crate::colour::{clear, pixel, NUM_LEDS};
use crate::tracer::{tail_position, tail_step, TAIL_LEN};
use vstd::prelude::*;

verus! {

/// The number of frames of the sequence.
pub const EXPLODE_FRAMES: usize = 108;

/// The frames in which the spark flares up.
pub const FLARE_FRAMES: usize = 10;

/// The number of bands of the burst.
pub const BANDS: usize = 7;

/// A pixel with the same value on every channel.
pub open spec fn grey(v: int) -> Seq<u8> {
    pixel(v as u8, v as u8, v as u8)
}

/// What the pixel `i` shows while the spark is at `pos`: white at the
/// spark, and behind it a tail that gets darker with the distance.
pub open spec fn shot_pixel(pos: int, i: int) -> Seq<u8> {
    if i == pos {
        grey(255)
    } else if tail_step(pos, i) != 0 {
        grey(200int / (tail_step(pos, i) + 1))
    } else {
        grey(0)
    }
}

/// The band in which a pixel lies that is `dist` pixels from the end of the
/// strip, when each band is `width` pixels wide; 7 if it lies in none.
pub open spec fn band_of(width: int, dist: int) -> int {
    if dist < width {
        0
    } else if dist < 2 * width {
        1
    } else if dist < 3 * width {
        2
    } else if dist < 4 * width {
        3
    } else if dist < 5 * width {
        4
    } else if dist < 6 * width {
        5
    } else if dist < 7 * width {
        6
    } else {
        7
    }
}

/// The colours of the bands, from the end of the strip: red, orange,
/// yellow, green, blue, indigo, violet.
pub open spec fn band_colour(band: int) -> (u8, u8, u8)
    recommends
        0 <= band < BANDS,
{
    if band == 0 {
        (255u8, 0u8, 0u8)
    } else if band == 1 {
        (250u8, 150u8, 0u8)
    } else if band == 2 {
        (250u8, 250u8, 0u8)
    } else if band == 3 {
        (0u8, 250u8, 0u8)
    } else if band == 4 {
        (0u8, 0u8, 250u8)
    } else if band == 5 {
        (50u8, 0u8, 250u8)
    } else if band == 6 {
        (250u8, 0u8, 250u8)
    } else {
        (0u8, 0u8, 0u8)
    }
}

/// What the pixel `i` shows in a burst with bands of the given width, each
/// channel divided by `dim`.
pub open spec fn burst_pixel(width: int, dim: int, i: int) -> Seq<u8> {
    if i < NUM_LEDS && band_of(width, NUM_LEDS - 1 - i) < BANDS {
        let c = band_colour(band_of(width, NUM_LEDS - 1 - i));
        pixel((c.0 / dim as u8) as u8, (c.1 / dim as u8) as u8, (c.2 / dim as u8) as u8)
    } else {
        grey(0)
    }
}

/// What the pixel `i` shows in the given frame of the sequence. After its
/// last frame the sequence stays as it is.
pub open spec fn explode_pixel(frame: int, i: int) -> Seq<u8> {
    if frame < 10 {
        if i == 0 {
            grey(20 * frame)
        } else {
            grey(0)
        }
    } else if frame < 90 {
        shot_pixel(frame - 10, i)
    } else if frame == 90 {
        if NUM_LEDS - NUM_LEDS / BANDS <= i < NUM_LEDS {
            grey(10)
        } else {
            grey(0)
        }
    } else if frame < 102 {
        burst_pixel(frame - 90, (frame - 90) / 2 + 1, i)
    } else if frame < 108 {
        burst_pixel(NUM_LEDS as int / BANDS as int, frame - 91, i)
    } else {
        burst_pixel(NUM_LEDS as int / BANDS as int, 16, i)
    }
}

/// For how many milliseconds the given frame of the sequence is shown.
pub open spec fn explode_delay(frame: int) -> int {
    if frame < 10 {
        75
    } else if frame < 90 {
        (NUM_LEDS - (frame - 10)) / 4 + 5
    } else if frame == 90 {
        75
    } else if frame < 102 {
        50 + (frame - 90) * 50
    } else {
        150
    }
}

/// The frame in which the spark is at `pos`.
fn shoot(leds: &mut Vec<[u8; 4]>, pos: usize)
    requires
        pos < NUM_LEDS,
        old(leds)@.len() >= NUM_LEDS,
    ensures
        final(leds)@.len() == old(leds)@.len(),
        forall|i: int|
            0 <= i < final(leds)@.len() ==> (#[trigger] final(leds)@[i])@ == shot_pixel(
                pos as int,
                i,
            ),
{
    clear(leds);
    leds[pos] = [255, 255, 255, 0];
    let mut b: u8 = 1;
    while b < TAIL_LEN
        invariant
            1 <= b <= TAIL_LEN,
            pos < NUM_LEDS,
            leds@.len() == old(leds)@.len(),
            leds@.len() >= NUM_LEDS,
            forall|i: int|
                0 <= i < leds@.len() ==> (#[trigger] leds@[i])@ == if i == pos
                    || 1 <= tail_step(pos as int, i) < b {
                    shot_pixel(pos as int, i)
                } else {
                    grey(0)
                },
        decreases TAIL_LEN - b,
    {
        let p = tail_position(pos, b);
        let v: u8 = 200 / (b + 1);
        leds[p] = [v, v, v, 0];
        b += 1;
    }
}

/// A burst with bands of the given width, each channel divided by `dim`.
fn burst(leds: &mut Vec<[u8; 4]>, width: usize, dim: u8)
    requires
        1 <= width <= NUM_LEDS / BANDS,
        dim >= 1,
        old(leds)@.len() >= NUM_LEDS,
    ensures
        final(leds)@.len() == old(leds)@.len(),
        forall|i: int|
            0 <= i < final(leds)@.len() ==> (#[trigger] final(leds)@[i])@ == burst_pixel(
                width as int,
                dim as int,
                i,
            ),
{
    clear(leds);
    let mut k: usize = 0;
    while k < width
        invariant
            k <= width,
            1 <= width <= NUM_LEDS / BANDS,
            dim >= 1,
            leds@.len() == old(leds)@.len(),
            leds@.len() >= NUM_LEDS,
            forall|i: int|
                0 <= i < leds@.len() ==> (#[trigger] leds@[i])@ == if i < NUM_LEDS && band_of(
                    width as int,
                    NUM_LEDS - 1 - i,
                ) < 7 && NUM_LEDS - 1 - i - band_of(width as int, NUM_LEDS - 1 - i) * width < k {
                    burst_pixel(width as int, dim as int, i)
                } else {
                    grey(0)
                },
        decreases width - k,
    {
        leds[NUM_LEDS - 1 - k] = [255 / dim, 0, 0, 0];
        leds[NUM_LEDS - 1 - k - width] = [250 / dim, 150 / dim, 0, 0];
        leds[NUM_LEDS - 1 - k - (width * 2)] = [250 / dim, 250 / dim, 0, 0];
        leds[NUM_LEDS - 1 - k - (width * 3)] = [0, 250 / dim, 0, 0];
        leds[NUM_LEDS - 1 - k - (width * 4)] = [0, 0, 250 / dim, 0];
        leds[NUM_LEDS - 1 - k - (width * 5)] = [50 / dim, 0, 250 / dim, 0];
        leds[NUM_LEDS - 1 - k - (width * 6)] = [250 / dim, 0, 250 / dim, 0];
        k += 1;
    }
    assert forall|i: int| 0 <= i < leds@.len() implies (#[trigger] leds@[i])@ == burst_pixel(
        width as int,
        dim as int,
        i,
    ) by {
        let dist = NUM_LEDS - 1 - i;
        if i < NUM_LEDS && band_of(width as int, dist) < 7 {
            assert(dist - band_of(width as int, dist) * width < width);
        }
    }
}

/// Draws the given frame of the sequence and returns for how many
/// milliseconds it is to be shown. Frames are counted from 0; a frame
/// beyond the last one is the last one.
pub fn rainbow_explode(leds: &mut Vec<[u8; 4]>, frame: usize) -> (delay: u64)
    requires
        old(leds)@.len() >= NUM_LEDS,
    ensures
        final(leds)@.len() == old(leds)@.len(),
        forall|i: int|
            0 <= i < final(leds)@.len() ==> (#[trigger] final(leds)@[i])@ == explode_pixel(
                frame as int,
                i,
            ),
        delay == explode_delay(frame as int),
{
    if frame < FLARE_FRAMES {
        clear(leds);
        let j: u8 = frame as u8;
        leds[0] = [j * 20, j * 20, j * 20, 0];
        75
    } else if frame < FLARE_FRAMES + NUM_LEDS {
        let j = frame - FLARE_FRAMES;
        shoot(leds, j % NUM_LEDS);
        let a: u64 = (NUM_LEDS - j) as u64;
        a / 4 + 5
    } else if frame == FLARE_FRAMES + NUM_LEDS {
        shoot(leds, NUM_LEDS - 1);
        let mut j: usize = 0;
        while j < NUM_LEDS / BANDS
            invariant
                j <= NUM_LEDS / BANDS,
                leds@.len() == old(leds)@.len(),
                leds@.len() >= NUM_LEDS,
                forall|i: int|
                    0 <= i < leds@.len() ==> (#[trigger] leds@[i])@ == if NUM_LEDS - 1 - j < i
                        < NUM_LEDS {
                        grey(10)
                    } else {
                        shot_pixel(NUM_LEDS - 1, i)
                    },
            decreases NUM_LEDS / BANDS - j,
        {
            leds[NUM_LEDS - 1 - j] = [10, 10, 10, 0];
            j += 1;
        }
        75
    } else if frame <= FLARE_FRAMES + NUM_LEDS + NUM_LEDS / BANDS {
        let j = frame - (FLARE_FRAMES + NUM_LEDS);
        let j8: u8 = j as u8;
        let j8 = j8 / 2 + 1;
        burst(leds, j, j8);
        let speed_factor: u64 = (j * 50) as u64;
        50 + speed_factor
    } else {
        let last = if frame < EXPLODE_FRAMES {
            frame
        } else {
            EXPLODE_FRAMES - 1
        };
        let j = last - (FLARE_FRAMES + NUM_LEDS + 1);
        let j8: u8 = j as u8;
        burst(leds, NUM_LEDS / BANDS, j8);
        150
    }
}

} // verus!
