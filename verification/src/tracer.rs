//! Tracers: a bright head that runs along the strip and drags a fading
//! tail.

use crate::colour::{clear, pixel, NUM_LEDS};
use vstd::prelude::*;

verus! {

/// A tail has this many pixels less one.
pub const TAIL_LEN: u8 = 10;

/// Where the pixel stands that follows a head at `pos` at distance `b`.
/// The tail of a head near the start of the strip does not wrap round to
/// the end of the strip: it falls sixteen pixels short of that.
pub open spec fn tail_pos(pos: int, b: int) -> int {
    if pos >= b {
        pos - b
    } else {
        pos + 16 - b
    }
}

/// The pixel of the tail at distance `b` behind a head at `pos`.
pub fn tail_position(pos: usize, b: u8) -> (p: usize)
    requires
        pos < NUM_LEDS,
        1 <= b < TAIL_LEN,
    ensures
        p == tail_pos(pos as int, b as int),
        p < NUM_LEDS,
{
    let back: usize = b as usize;
    let wrapped = pos.wrapping_sub(back);
    proof {
        vstd::layout::unsigned_int_max_values();
        assert(usize::BITS == 32 || usize::BITS == 64);
        vstd::arithmetic::power2::lemma2_to64();
        vstd::arithmetic::power2::lemma2_to64_rest();
    }
    wrapped % NUM_LEDS
}

/// The distance at which the pixel `i` follows a head at `pos`, or 0 if it
/// is not in the tail of that head.
pub open spec fn tail_step(pos: int, i: int) -> int {
    if 1 <= pos - i < TAIL_LEN {
        pos - i
    } else if pos < pos + 16 - i < TAIL_LEN {
        pos + 16 - i
    } else {
        0
    }
}

/// A channel of the tail at distance `b`: the head's value less 50, less
/// another 25 for each pixel of distance, and never below nothing.
pub open spec fn dimmed(channel: u8, b: int) -> u8 {
    let base = if channel >= 50 {
        channel - 50
    } else {
        0
    };
    if base >= 25 * b {
        (base - 25 * b) as u8
    } else {
        0
    }
}

/// What the pixel `i` shows once a tracer with its head at `pos` has been
/// drawn over a pixel that showed `under`.
pub open spec fn traced(pos: int, colour: (u8, u8, u8), i: int, under: Seq<u8>) -> Seq<u8> {
    if i == pos {
        pixel(colour.0, colour.1, colour.2)
    } else if tail_step(pos, i) != 0 {
        let b = tail_step(pos, i);
        pixel(dimmed(colour.0, b), dimmed(colour.1, b), dimmed(colour.2, b))
    } else {
        under
    }
}

/// What the pixel `i` shows in the frame of two tracers with the counter
/// at `j`: the first has its head at `j` modulo the length of the strip, the
/// second half a strip further on, and the second is drawn over the first.
pub open spec fn tracer_pixel(j: u8, c1: (u8, u8, u8), c2: (u8, u8, u8), i: int) -> Seq<u8> {
    traced(
        (j as int + NUM_LEDS as int / 2) % (NUM_LEDS as int),
        c2,
        i,
        traced((j as int) % (NUM_LEDS as int), c1, i, pixel(0, 0, 0)),
    )
}

/// Draws one tracer with its head at `pos` over what the buffer holds.
fn draw_tracer(leds: &mut Vec<[u8; 4]>, pos: usize, colour: (u8, u8, u8))
    requires
        pos < NUM_LEDS,
        old(leds)@.len() >= NUM_LEDS,
    ensures
        final(leds)@.len() == old(leds)@.len(),
        forall|i: int|
            0 <= i < final(leds)@.len() ==> (#[trigger] final(leds)@[i])@ == traced(
                pos as int,
                colour,
                i,
                old(leds)@[i]@,
            ),
{
    leds[pos] = [colour.0, colour.1, colour.2, 0];
    let mut b: u8 = 1;
    while b < TAIL_LEN
        invariant
            1 <= b <= TAIL_LEN,
            pos < NUM_LEDS,
            leds@.len() == old(leds)@.len(),
            leds@.len() >= NUM_LEDS,
            forall|i: int|
                0 <= i < leds@.len() ==> (#[trigger] leds@[i])@ == if i == pos
                    || 1 <= tail_step(pos as int, i) < b {
                    traced(pos as int, colour, i, old(leds)@[i]@)
                } else {
                    old(leds)@[i]@
                },
        decreases TAIL_LEN - b,
    {
        let p = tail_position(pos, b);
        let per_pixel: u8 = 255 / TAIL_LEN;
        assert(per_pixel == 25);
        let fade: u8 = per_pixel * b;
        let vr = colour.0.saturating_sub(50).saturating_sub(fade);
        let vg = colour.1.saturating_sub(50).saturating_sub(fade);
        let vb = colour.2.saturating_sub(50).saturating_sub(fade);
        leds[p] = [vr, vg, vb, 0];
        b += 1;
    }
}

/// The frame of two tracers with the counter at `j`.
pub fn tracer(leds: &mut Vec<[u8; 4]>, j: u8, c1: (u8, u8, u8), c2: (u8, u8, u8))
    requires
        old(leds)@.len() >= NUM_LEDS,
    ensures
        final(leds)@.len() == old(leds)@.len(),
        forall|i: int|
            0 <= i < final(leds)@.len() ==> (#[trigger] final(leds)@[i])@ == tracer_pixel(
                j,
                c1,
                c2,
                i,
            ),
{
    clear(leds);
    let ju: usize = j as usize;
    let pos = ju % NUM_LEDS;
    draw_tracer(leds, pos, c1);
    let pos = (ju + NUM_LEDS / 2) % NUM_LEDS;
    draw_tracer(leds, pos, c2);
}

} // verus!
