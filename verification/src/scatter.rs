//! The scatter effect: pixels fade in one by one in a colour of their own,
//! stay lit for a while, and fade out again.

use crate::chance::{draw_between, draw_byte, draw_index, shuffle};
use crate::colour::{clear, pixel};
use crate::entries::{lemma_indices_contains, lemma_push_to_set};
use crate::lifecycle::{
    arriving, expiring, fading, indices, is_vivid, lowered, raised, rising, scale, shade, Draw,
    Element, Lifecycle, Palette, HOLD_LIMIT, MAX_PROCESSING, RAMP_FULL, RAMP_STEP,
};
use crate::validity::{
    lemma_admitted_wf, lemma_advanced_wf, lemma_empty_wf, lemma_exclusive, lemma_reordered_wf,
    lemma_selected_wf,
};
use rand::rngs::ThreadRng;
use std::collections::HashMap;
use vstd::prelude::*;

verus! {

broadcast use vstd::std_specs::hash::group_hash_axioms;

/// The state of the scatter effect on one strip.
pub struct Scatter {
    num_leds: usize,
    to_light: Vec<Element>,
    to_drop: Vec<Element>,
    lit: Vec<usize>,
    processing: Vec<usize>,
    colours: HashMap<usize, (u8, u8, u8)>,
}

impl View for Scatter {
    type V = Lifecycle;

    closed spec fn view(&self) -> Lifecycle {
        Lifecycle {
            admitting: self.to_light@,
            retiring: self.to_drop@,
            held: self.lit@,
            processing: self.processing@.to_set(),
            colours: self.colours@,
        }
    }
}

/// The first place at which the value stands in the vector.
fn position(v: &Vec<usize>, x: usize) -> (found: Option<usize>)
    ensures
        match found {
            Some(k) => k < v@.len() && v@[k as int] == x,
            None => !v@.contains(x),
        },
{
    let mut k: usize = 0;
    while k < v.len()
        invariant
            k <= v@.len(),
            forall|j: int| 0 <= j < k ==> v@[j] != x,
        decreases v@.len() - k,
    {
        if v[k] == x {
            return Some(k);
        }
        k += 1;
    }
    None
}

/// The ramp value of the first of the entries that stands at the given
/// place.
fn ramp_in(entries: &Vec<Element>, index: usize) -> (ramp: Option<u8>)
    ensures
        match ramp {
            Some(step) => entries@.contains((Element { index, step })),
            None => !indices(entries@).contains(index),
        },
{
    let mut k: usize = 0;
    while k < entries.len()
        invariant
            k <= entries@.len(),
            forall|j: int| 0 <= j < k ==> (#[trigger] entries@[j]).index != index,
        decreases entries@.len() - k,
    {
        if entries[k].index == index {
            assert(entries@[k as int] == (Element { index, step: entries@[k as int].step }));
            return Some(entries[k].step);
        }
        k += 1;
    }
    proof {
        lemma_indices_contains(entries@, index);
    }
    None
}

/// Taking a value out of a sequence without repetitions leaves a sequence
/// without repetitions that lacks this value only.
proof fn lemma_remove_unique(s: Seq<usize>, k: int)
    requires
        s.no_duplicates(),
        0 <= k < s.len(),
    ensures
        s.remove(k).no_duplicates(),
        s.remove(k).to_set() == s.to_set().remove(s[k]),
{
    let r = s.remove(k);
    assert forall|x: usize| r.to_set().contains(x) <==> s.to_set().remove(s[k]).contains(x) by {
        if r.contains(x) {
            let j = choose|j: int| 0 <= j < r.len() && r[j] == x;
            if j < k {
                assert(s[j] == x);
            } else {
                assert(s[j + 1] == x);
            }
        }
        if s.contains(x) && x != s[k] {
            let j = choose|j: int| 0 <= j < s.len() && s[j] == x;
            if j < k {
                assert(r[j] == x);
            } else {
                assert(r[j - 1] == x);
            }
        }
    }
    assert(r.to_set() =~= s.to_set().remove(s[k]));
}

/// A channel value at the given ramp value: the product of the two, divided
/// by 255 and rounded down.
pub fn scaled(ramp: u8, channel: u8) -> (v: u8)
    ensures
        v == scale(ramp, channel),
        v == (ramp * channel) / 255,
{
    assert(ramp * channel <= 255 * 255) by (nonlinear_arith)
        requires
            ramp <= 255,
            channel <= 255,
    ;
    let product: usize = ramp as usize * channel as usize;
    let quotient: usize = product / 255;
    assert(quotient <= 255) by (nonlinear_arith)
        requires
            quotient == product / 255,
            product <= 255 * 255,
    ;
    assert(quotient & 255 == quotient) by (bit_vector)
        requires
            quotient <= 255,
    ;
    (quotient & 255) as u8
}

/// The pixel that shows the colour at the given ramp value.
pub fn shaded(colour: (u8, u8, u8), ramp: u8) -> (px: [u8; 4])
    ensures
        px@ == shade(colour, ramp),
{
    [scaled(ramp, colour.0), scaled(ramp, colour.1), scaled(ramp, colour.2), 0]
}

/// Draws a channel of a vivid colour: lit if the mask has the channel's bit,
/// and then at least 50 and below 255.
fn vivid_channel(rng: &mut ThreadRng, mask: u8, bit: u8) -> (v: u8)
    ensures
        mask & bit != 0 ==> 50 <= v < 255,
        mask & bit == 0 ==> v == 0,
{
    if (mask & bit) != 0 {
        draw_between(rng, 50, 255)
    } else {
        0
    }
}

/// Draws the colour for a newly admitted pixel. A pastel colour has three
/// channels drawn independently from all values. For a vivid colour a mask
/// of three bits, not all of them off, is drawn first; each channel whose
/// bit is set is then drawn from the values that are at least 50 and below
/// 255, and the other channels are off.
pub fn assign(rng: &mut ThreadRng, palette: Palette) -> (colour: (u8, u8, u8))
    ensures
        palette.allows(colour),
{
    match palette {
        Palette::White => (255, 255, 255),
        Palette::Pastel => {
            let r = draw_byte(rng);
            let g = draw_byte(rng);
            let b = draw_byte(rng);
            (r, g, b)
        },
        Palette::Vivid => {
            let mask = draw_between(rng, 1, 8);
            assert(mask & 1 != 0 || mask & 2 != 0 || mask & 4 != 0) by (bit_vector)
                requires
                    1 <= mask < 8,
            ;
            let r = vivid_channel(rng, mask, 1);
            let g = vivid_channel(rng, mask, 2);
            let b = vivid_channel(rng, mask, 4);
            (r, g, b)
        },
    }
}

impl Scatter {
    /// The number of pixels of the strip.
    pub closed spec fn strip_len(&self) -> nat {
        self.num_leds as nat
    }

    /// What the representation keeps beyond the model's invariant.
    pub closed spec fn inv(&self) -> bool {
        self.processing@.no_duplicates()
    }

    /// The invariant of the effect: the strip has a pixel, and the state
    /// meets the invariant of the model on a strip of this length.
    pub open spec fn wf(&self) -> bool {
        &&& self.inv()
        &&& self.strip_len() > 0
        &&& self@.wf(self.strip_len())
    }

    /// The effect on a strip of `num_leds` pixels, all of them idle.
    pub fn new(num_leds: usize) -> (s: Self)
        requires
            num_leds > 0,
        ensures
            s.wf(),
            s.strip_len() == num_leds,
            s@ == Lifecycle::empty(),
    {
        let s = Scatter {
            num_leds,
            to_light: Vec::new(),
            to_drop: Vec::new(),
            lit: Vec::new(),
            processing: Vec::new(),
            colours: HashMap::new(),
        };
        proof {
            assert(s@.processing =~= Set::<usize>::empty());
            assert(s@ == Lifecycle::empty());
            lemma_empty_wf(s.strip_len());
        }
        s
    }

    /// The number of pixels of the strip.
    pub fn num_leds(&self) -> (n: usize)
        ensures
            n == self.strip_len(),
    {
        self.num_leds
    }

    /// Whether the pixel is fading in, held or fading out.
    pub fn is_processing(&self, index: usize) -> (b: bool)
        ensures
            b == self@.processing.contains(index),
    {
        position(&self.processing, index).is_some()
    }

    /// The number of pixels that are fading in, held or fading out.
    pub fn processing_len(&self) -> (n: usize)
        requires
            self.wf(),
        ensures
            n == self@.processing.len(),
    {
        proof {
            self.processing@.unique_seq_to_set();
        }
        self.processing.len()
    }

    /// The number of pixels that are held.
    pub fn held_len(&self) -> (n: usize)
        ensures
            n == self@.held.len(),
    {
        self.lit.len()
    }

    /// Whether the pixel is held.
    pub fn is_held(&self, index: usize) -> (b: bool)
        ensures
            b == self@.held.contains(index),
    {
        position(&self.lit, index).is_some()
    }

    /// The ramp value of the pixel if it is fading in.
    pub fn admitting_ramp(&self, index: usize) -> (ramp: Option<u8>)
        ensures
            match ramp {
                Some(step) => self@.admitting.contains((Element { index, step })),
                None => !indices(self@.admitting).contains(index),
            },
    {
        ramp_in(&self.to_light, index)
    }

    /// The ramp value of the pixel if it is fading out.
    pub fn retiring_ramp(&self, index: usize) -> (ramp: Option<u8>)
        ensures
            match ramp {
                Some(step) => self@.retiring.contains((Element { index, step })),
                None => !indices(self@.retiring).contains(index),
            },
    {
        ramp_in(&self.to_drop, index)
    }

    /// The colour of the pixel if it is being processed.
    pub fn colour_of(&self, index: usize) -> (colour: Option<(u8, u8, u8)>)
        ensures
            colour == if self@.colours.contains_key(index) {
                Some(self@.colours[index])
            } else {
                None
            },
    {
        match self.colours.get(&index) {
            Some(c) => Some(*c),
            None => None,
        }
    }

    /// Admission. The candidate is admitted if fewer than twenty pixels are
    /// being processed and the candidate is not one of them; it then starts
    /// to fade in from nothing, in the given colour. There is no second
    /// attempt: if the candidate is not admitted, nothing changes.
    pub fn offer(&mut self, candidate: usize, colour: (u8, u8, u8)) -> (admitted: bool)
        requires
            old(self).wf(),
            candidate < old(self).strip_len(),
        ensures
            final(self).wf(),
            final(self).strip_len() == old(self).strip_len(),
            final(self)@ == old(self)@.admitted(candidate, colour),
            admitted == old(self)@.admits(candidate),
    {
        proof {
            self.processing@.unique_seq_to_set();
            lemma_admitted_wf(self@, candidate, colour, self.strip_len());
        }
        if self.processing.len() < MAX_PROCESSING {
            if position(&self.processing, candidate).is_none() {
                self.to_light.push(Element { index: candidate, step: 0 });
                self.processing.push(candidate);
                self.colours.insert(candidate, colour);
                proof {
                    lemma_push_to_set(old(self).processing@, candidate);
                    assert(self@.processing == old(self)@.admitted(candidate, colour).processing);
                }
                return true;
            }
        }
        false
    }

    /// Retirement selection. If at least ten pixels are held, the one that
    /// was put last among them leaves them and starts to fade out from full
    /// brightness; it is returned.
    pub fn select(&mut self) -> (retired: Option<usize>)
        requires
            old(self).wf(),
        ensures
            final(self).wf(),
            final(self).strip_len() == old(self).strip_len(),
            final(self)@ == old(self)@.selected(old(self)@.held),
            retired == if old(self)@.retires() {
                Some(old(self)@.held.last())
            } else {
                None
            },
    {
        proof {
            lemma_selected_wf(self@, self@.held, self.strip_len());
        }
        if self.lit.len() >= HOLD_LIMIT {
            match self.lit.pop() {
                Some(id) => {
                    self.to_drop.push(Element { index: id, step: RAMP_FULL });
                    Some(id)
                },
                None => None,
            }
        } else {
            None
        }
    }

    /// One step of every ramp. A pixel that fades out gets darker by one
    /// step; when it goes dark it is processed no longer and loses its
    /// colour. A pixel that fades in gets brighter by one step; when it
    /// reaches full brightness it is held.
    pub fn advance(&mut self)
        requires
            old(self).wf(),
        ensures
            final(self).wf(),
            final(self).strip_len() == old(self).strip_len(),
            final(self)@ == old(self)@.advanced(),
    {
        let ghost s0 = self@;
        proof {
            lemma_advanced_wf(s0, self.strip_len());
            lemma_exclusive(s0, self.strip_len());
        }
        let mut vec3: Vec<Element> = Vec::new();
        let mut k: usize = 0;
        while k < self.to_drop.len()
            invariant
                k <= self.to_drop@.len(),
                s0.wf(self.strip_len()),
                self.num_leds == old(self).num_leds,
                self.to_drop@ == s0.retiring,
                self.to_light@ == s0.admitting,
                self.lit@ == s0.held,
                self.processing@.no_duplicates(),
                self.processing@.to_set() == s0.processing.difference(
                    indices(expiring(s0.retiring.take(k as int))).to_set(),
                ),
                self.colours@ == s0.colours.remove_keys(
                    indices(expiring(s0.retiring.take(k as int))).to_set(),
                ),
                vec3@ == fading(s0.retiring.take(k as int)).map_values(|e: Element| lowered(e)),
            decreases self.to_drop@.len() - k,
        {
            let e = self.to_drop[k];
            let ghost done = s0.retiring.take(k as int);
            let ghost gone = indices(expiring(done)).to_set();
            proof {
                assert(s0.retiring.take(k + 1) =~= done.push(e));
                done.lemma_filter_push(e, |e: Element| e.step != RAMP_STEP);
                done.lemma_filter_push(e, |e: Element| e.step == RAMP_STEP);
                assert(e == s0.retiring[k as int]);
            }
            let e2 = Element { index: e.index, step: e.step - RAMP_STEP };
            if e2.step != 0 {
                vec3.push(e2);
                proof {
                    assert(vec3@ =~= fading(done.push(e)).map_values(|e: Element| lowered(e)));
                }
            } else {
                match position(&self.processing, e2.index) {
                    Some(idx) => {
                        proof {
                            lemma_remove_unique(self.processing@, idx as int);
                        }
                        self.processing.remove(idx);
                    },
                    None => {},
                }
                self.colours.remove(&e2.index);
                proof {
                    assert(indices(expiring(done.push(e))) =~= indices(expiring(done)).push(
                        e.index,
                    ));
                    lemma_push_to_set(indices(expiring(done)), e.index);
                    let gone2 = indices(expiring(done.push(e))).to_set();
                    assert(gone2 == gone.insert(e.index));
                    assert(self.processing@.to_set() =~= s0.processing.difference(gone2));
                    assert(self.colours@ =~= s0.colours.remove_keys(gone2));
                }
            }
            k += 1;
        }
        proof {
            assert(s0.retiring.take(s0.retiring.len() as int) =~= s0.retiring);
        }
        let mut vec2: Vec<Element> = Vec::new();
        let mut k: usize = 0;
        while k < self.to_light.len()
            invariant
                k <= self.to_light@.len(),
                s0.wf(self.strip_len()),
                self.num_leds == old(self).num_leds,
                self.to_light@ == s0.admitting,
                self.processing@.no_duplicates(),
                self.processing@.to_set() == s0.advanced().processing,
                self.colours@ == s0.advanced().colours,
                vec3@ == s0.advanced().retiring,
                self.lit@ == s0.held + indices(arriving(s0.admitting.take(k as int))),
                vec2@ == rising(s0.admitting.take(k as int)).map_values(|e: Element| raised(e)),
            decreases self.to_light@.len() - k,
        {
            let e = self.to_light[k];
            let ghost done = s0.admitting.take(k as int);
            proof {
                assert(s0.admitting.take(k + 1) =~= done.push(e));
                done.lemma_filter_push(e, |e: Element| e.step + RAMP_STEP < RAMP_FULL);
                done.lemma_filter_push(e, |e: Element| e.step + RAMP_STEP >= RAMP_FULL);
                assert(e == s0.admitting[k as int]);
            }
            let e2 = Element { index: e.index, step: e.step + RAMP_STEP };
            if e2.step >= RAMP_FULL {
                self.lit.push(e2.index);
                proof {
                    assert(indices(arriving(done.push(e))) =~= indices(arriving(done)).push(
                        e.index,
                    ));
                    assert(self.lit@ =~= s0.held + indices(arriving(done.push(e))));
                }
            } else {
                vec2.push(e2);
                proof {
                    assert(vec2@ =~= rising(done.push(e)).map_values(|e: Element| raised(e)));
                }
            }
            k += 1;
        }
        proof {
            assert(s0.admitting.take(s0.admitting.len() as int) =~= s0.admitting);
        }
        self.to_light = vec2;
        self.to_drop = vec3;
    }

    /// The colour that the pixel was given when it was admitted, or black
    /// for a pixel that has none.
    fn colour_at(&self, index: usize) -> (colour: (u8, u8, u8))
        ensures
            self@.colours.contains_key(index) ==> colour == self@.colours[index],
    {
        match self.colours.get(&index) {
            Some(c) => *c,
            None => (0, 0, 0),
        }
    }

    /// Draws the frame that shows the state: every pixel that is being
    /// processed in its colour at its ramp value, every other pixel dark.
    pub fn paint(&self, leds: &mut Vec<[u8; 4]>)
        requires
            self.wf(),
            old(leds)@.len() == self.strip_len(),
        ensures
            final(leds)@.len() == old(leds)@.len(),
            self@.shown_by(final(leds)@),
    {
        let ghost s = self@;
        clear(leds);
        let mut k: usize = 0;
        while k < self.to_drop.len()
            invariant
                k <= s.retiring.len(),
                s == self@,
                s.wf(self.strip_len()),
                leds@.len() == self.strip_len(),
                forall|j: int|
                    0 <= j < k ==> {
                        let e = #[trigger] s.retiring[j];
                        leds@[e.index as int]@ == shade(s.colours[e.index], e.step)
                    },
                forall|i: int|
                    0 <= i < leds@.len() && !s.processing.contains(i as usize) ==> (
                    #[trigger] leds@[i])@ == pixel(0, 0, 0),
            decreases s.retiring.len() - k,
        {
            proof {
                lemma_exclusive(s, self.strip_len());
            }
            let e = self.to_drop[k];
            assert(e == s.retiring[k as int]);
            leds[e.index] = shaded(self.colour_at(e.index), e.step);
            k += 1;
        }
        let mut k: usize = 0;
        while k < self.to_light.len()
            invariant
                k <= s.admitting.len(),
                s == self@,
                s.wf(self.strip_len()),
                leds@.len() == self.strip_len(),
                forall|j: int|
                    0 <= j < s.retiring.len() ==> {
                        let e = #[trigger] s.retiring[j];
                        leds@[e.index as int]@ == shade(s.colours[e.index], e.step)
                    },
                forall|j: int|
                    0 <= j < k ==> {
                        let e = #[trigger] s.admitting[j];
                        leds@[e.index as int]@ == shade(s.colours[e.index], e.step)
                    },
                forall|i: int|
                    0 <= i < leds@.len() && !s.processing.contains(i as usize) ==> (
                    #[trigger] leds@[i])@ == pixel(0, 0, 0),
            decreases s.admitting.len() - k,
        {
            proof {
                lemma_exclusive(s, self.strip_len());
            }
            let e = self.to_light[k];
            assert(e == s.admitting[k as int]);
            leds[e.index] = shaded(self.colour_at(e.index), e.step);
            k += 1;
        }
        let mut k: usize = 0;
        while k < self.lit.len()
            invariant
                k <= s.held.len(),
                s == self@,
                s.wf(self.strip_len()),
                leds@.len() == self.strip_len(),
                forall|j: int|
                    0 <= j < s.retiring.len() ==> {
                        let e = #[trigger] s.retiring[j];
                        leds@[e.index as int]@ == shade(s.colours[e.index], e.step)
                    },
                forall|j: int|
                    0 <= j < s.admitting.len() ==> {
                        let e = #[trigger] s.admitting[j];
                        leds@[e.index as int]@ == shade(s.colours[e.index], e.step)
                    },
                forall|j: int|
                    0 <= j < k ==> {
                        let i = #[trigger] s.held[j];
                        leds@[i as int]@ == shade(s.colours[i], RAMP_FULL)
                    },
                forall|i: int|
                    0 <= i < leds@.len() && !s.processing.contains(i as usize) ==> (
                    #[trigger] leds@[i])@ == pixel(0, 0, 0),
            decreases s.held.len() - k,
        {
            proof {
                lemma_exclusive(s, self.strip_len());
            }
            let i = self.lit[k];
            assert(i == s.held[k as int]);
            leds[i] = shaded(self.colour_at(i), RAMP_FULL);
            k += 1;
        }
        proof {
            lemma_exclusive(s, self.strip_len());
        }
    }

    /// One tick with the given draws in place of random ones: the candidate
    /// is offered for admission in the given colour, the held pixel that
    /// was put last is retired if one is due, every ramp moves by one step,
    /// and the frame is drawn.
    pub fn tick(&mut self, candidate: usize, colour: (u8, u8, u8), leds: &mut Vec<[u8; 4]>)
        requires
            old(self).wf(),
            candidate < old(self).strip_len(),
            old(leds)@.len() == old(self).strip_len(),
        ensures
            final(self).wf(),
            final(self).strip_len() == old(self).strip_len(),
            final(self)@ == old(self)@.tick(
                (Draw { candidate, colour, order: old(self)@.held }),
            ),
            final(leds)@.len() == old(leds)@.len(),
            final(self)@.shown_by(final(leds)@),
    {
        self.offer(candidate, colour);
        self.select();
        self.advance();
        self.paint(leds);
    }

    /// One tick. If fewer than twenty pixels are being processed, a
    /// candidate is drawn from the whole strip and, unless it is being
    /// processed already, admitted in a colour drawn from the palette. If at
    /// least ten pixels are held, one of them, picked at random, starts to
    /// fade out. Then every ramp moves by one step and the frame is drawn.
    pub fn step(&mut self, rng: &mut ThreadRng, palette: Palette, leds: &mut Vec<[u8; 4]>)
        requires
            old(self).wf(),
            old(leds)@.len() == old(self).strip_len(),
        ensures
            final(self).wf(),
            final(self).strip_len() == old(self).strip_len(),
            exists|d: Draw|
                old(self)@.draws(d, old(self).strip_len()) && palette.allows(d.colour)
                    && final(self)@ == #[trigger] old(self)@.tick(d),
            final(leds)@.len() == old(leds)@.len(),
            final(self)@.shown_by(final(leds)@),
    {
        let ghost s0 = self@;
        let ghost mut candidate: usize = 0;
        let ghost mut colour: (u8, u8, u8) = palette.sample();
        if self.processing_len() < MAX_PROCESSING {
            let drawn = draw_index(rng, 0, self.num_leds);
            proof {
                candidate = drawn;
            }
            if !self.is_processing(drawn) {
                let assigned = assign(rng, palette);
                proof {
                    colour = assigned;
                }
                self.offer(drawn, assigned);
            }
        }
        assert(self@ == s0.admitted(candidate, colour));
        let ghost s1 = self@;
        if self.lit.len() >= HOLD_LIMIT {
            shuffle(rng, &mut self.lit);
            proof {
                lemma_reordered_wf(s1, self.lit@, self.strip_len());
                assert(self@ == (Lifecycle { held: self.lit@, ..s1 }));
            }
        }
        let ghost order = self@.held;
        self.select();
        assert(self@ == s1.selected(order));
        self.advance();
        self.paint(leds);
        proof {
            let d = Draw { candidate, colour, order };
            assert(s0.draws(d, self.strip_len()));
            assert(self@ == s0.tick(d));
        }
    }
}

/// One tick of the scatter effect in white.
pub fn random(engine: &mut Scatter, rng: &mut ThreadRng, leds: &mut Vec<[u8; 4]>)
    requires
        old(engine).wf(),
        old(leds)@.len() == old(engine).strip_len(),
    ensures
        final(engine).wf(),
        final(engine).strip_len() == old(engine).strip_len(),
        exists|d: Draw|
            old(engine)@.draws(d, old(engine).strip_len()) && d.colour == (255u8, 255u8, 255u8)
                && final(engine)@ == #[trigger] old(engine)@.tick(d),
        final(leds)@.len() == old(leds)@.len(),
        final(engine)@.shown_by(final(leds)@),
{
    engine.step(rng, Palette::White, leds);
}

/// One tick of the scatter effect in colour: in pastel colours if `pastel`
/// is set, in vivid ones if not.
pub fn random_col(
    engine: &mut Scatter,
    rng: &mut ThreadRng,
    leds: &mut Vec<[u8; 4]>,
    pastel: bool,
)
    requires
        old(engine).wf(),
        old(leds)@.len() == old(engine).strip_len(),
    ensures
        final(engine).wf(),
        final(engine).strip_len() == old(engine).strip_len(),
        exists|d: Draw|
            old(engine)@.draws(d, old(engine).strip_len()) && (pastel || is_vivid(d.colour))
                && final(engine)@ == #[trigger] old(engine)@.tick(d),
        final(leds)@.len() == old(leds)@.len(),
        final(engine)@.shown_by(final(leds)@),
{
    if pastel {
        engine.step(rng, Palette::Pastel, leds);
    } else {
        engine.step(rng, Palette::Vivid, leds);
    }
}

} // verus!
