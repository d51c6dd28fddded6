//! The mathematical model of the scatter effect: which pixels are fading
//! in, which are held at full brightness, which are fading out, and how one
//! tick changes that.

use crate::colour::pixel;
use vstd::prelude::*;

verus! {

/// The brightness ramp moves by this much per tick.
pub const RAMP_STEP: u8 = 25;

/// The ramp value of a fully lit pixel.
pub const RAMP_FULL: u8 = 250;

/// No pixel is admitted while this many are being processed.
pub const MAX_PROCESSING: usize = 20;

/// One held pixel is retired per tick while at least this many are held.
pub const HOLD_LIMIT: usize = 10;

/// A pixel in transition: its position on the strip and its ramp value.
#[derive(Clone, Copy, Debug)]
pub struct Element {
    pub index: usize,
    pub step: u8,
}

/// The positions of the given entries, in order.
pub open spec fn indices(entries: Seq<Element>) -> Seq<usize> {
    entries.map_values(|e: Element| e.index)
}

/// An entry one step brighter.
pub open spec fn raised(e: Element) -> Element {
    Element { index: e.index, step: (e.step + RAMP_STEP) as u8 }
}

/// An entry one step darker.
pub open spec fn lowered(e: Element) -> Element {
    Element { index: e.index, step: (e.step - RAMP_STEP) as u8 }
}

/// The entries that are still short of full brightness after one more step.
pub open spec fn rising(entries: Seq<Element>) -> Seq<Element> {
    entries.filter(|e: Element| e.step + RAMP_STEP < RAMP_FULL)
}

/// The entries that reach full brightness with one more step.
pub open spec fn arriving(entries: Seq<Element>) -> Seq<Element> {
    entries.filter(|e: Element| e.step + RAMP_STEP >= RAMP_FULL)
}

/// The entries that are still lit after one more step down.
pub open spec fn fading(entries: Seq<Element>) -> Seq<Element> {
    entries.filter(|e: Element| e.step != RAMP_STEP)
}

/// The entries that go dark with one more step down.
pub open spec fn expiring(entries: Seq<Element>) -> Seq<Element> {
    entries.filter(|e: Element| e.step == RAMP_STEP)
}

/// A channel value at the given ramp value: the product of the two, divided
/// by 255 and rounded down.
pub open spec fn scale(ramp: u8, channel: u8) -> u8 {
    ((ramp * channel) / 255) as u8
}

/// The pixel that shows the colour at the given ramp value.
pub open spec fn shade(colour: (u8, u8, u8), ramp: u8) -> Seq<u8> {
    pixel(scale(ramp, colour.0), scale(ramp, colour.1), scale(ramp, colour.2))
}

/// How the colour of an admitted pixel is chosen.
#[derive(Clone, Copy, Debug)]
pub enum Palette {
    /// Every pixel is white.
    White,
    /// Each channel is any value at all.
    Pastel,
    /// At least one channel is lit, and a lit channel is at least 50 and
    /// below 255.
    Vivid,
}

/// Whether the colour is a vivid one: not black, and each channel either
/// off or at least 50 and below 255.
pub open spec fn is_vivid(colour: (u8, u8, u8)) -> bool {
    &&& colour.0 != 0 || colour.1 != 0 || colour.2 != 0
    &&& colour.0 == 0 || 50 <= colour.0 < 255
    &&& colour.1 == 0 || 50 <= colour.1 < 255
    &&& colour.2 == 0 || 50 <= colour.2 < 255
}

impl Palette {
    /// Whether the palette can give this colour.
    pub open spec fn allows(self, colour: (u8, u8, u8)) -> bool {
        match self {
            Palette::White => colour == (255u8, 255u8, 255u8),
            Palette::Pastel => true,
            Palette::Vivid => is_vivid(colour),
        }
    }

    /// One of the colours of the palette.
    pub open spec fn sample(self) -> (u8, u8, u8) {
        match self {
            Palette::White => (255u8, 255u8, 255u8),
            Palette::Pastel => (0u8, 0u8, 0u8),
            Palette::Vivid => (50u8, 0u8, 0u8),
        }
    }
}

/// What one tick draws at random: a candidate pixel, a colour for it, and
/// the order into which the held pixels are shuffled.
pub ghost struct Draw {
    pub candidate: usize,
    pub colour: (u8, u8, u8),
    pub order: Seq<usize>,
}

/// The state of the effect between two ticks.
pub ghost struct Lifecycle {
    /// The pixels that are fading in.
    pub admitting: Seq<Element>,
    /// The pixels that are fading out.
    pub retiring: Seq<Element>,
    /// The pixels that are fully lit and wait to be retired.
    pub held: Seq<usize>,
    /// Every pixel that is fading in, held or fading out. This is the set
    /// whose size limits admission.
    pub processing: Set<usize>,
    /// The colour that each processed pixel was given when it was admitted.
    pub colours: Map<usize, (u8, u8, u8)>,
}

impl Lifecycle {
    /// The state in which every pixel is idle.
    pub open spec fn empty() -> Lifecycle {
        Lifecycle {
            admitting: Seq::empty(),
            retiring: Seq::empty(),
            held: Seq::empty(),
            processing: Set::empty(),
            colours: Map::empty(),
        }
    }

    /// The pixels that are in transition, fading in or out.
    pub open spec fn in_transition(self) -> Set<usize> {
        indices(self.admitting).to_set() + indices(self.retiring).to_set()
    }

    /// No pixel is in two phases at once, and none is listed twice.
    pub open spec fn exclusive(self) -> bool {
        &&& indices(self.admitting).no_duplicates()
        &&& indices(self.retiring).no_duplicates()
        &&& self.held.no_duplicates()
        &&& indices(self.admitting).to_set().disjoint(indices(self.retiring).to_set())
        &&& self.in_transition().disjoint(self.held.to_set())
    }

    /// Every ramp value is a multiple of the step between nothing and full:
    /// below full while fading in, above nothing while fading out.
    pub open spec fn ramps_valid(self) -> bool {
        &&& forall|k: int|
            0 <= k < self.admitting.len() ==> {
                &&& (#[trigger] self.admitting[k]).step % RAMP_STEP == 0
                &&& self.admitting[k].step < RAMP_FULL
            }
        &&& forall|k: int|
            0 <= k < self.retiring.len() ==> {
                &&& (#[trigger] self.retiring[k]).step % RAMP_STEP == 0
                &&& 0 < self.retiring[k].step <= RAMP_FULL
            }
    }

    /// The invariant of the effect on a strip of `n` pixels.
    pub open spec fn wf(self, n: nat) -> bool {
        &&& self.exclusive()
        &&& self.ramps_valid()
        &&& self.processing == self.in_transition() + self.held.to_set()
        &&& self.processing.finite()
        &&& self.processing.len() <= MAX_PROCESSING
        &&& self.colours.dom() == self.processing
        &&& forall|i: usize| self.processing.contains(i) ==> i < n
    }

    /// Whether the candidate would be admitted: there is room, and the
    /// candidate is not being processed already.
    pub open spec fn admits(self, candidate: usize) -> bool {
        self.processing.len() < MAX_PROCESSING && !self.processing.contains(candidate)
    }

    /// Admission: the candidate, if it is admitted, starts to fade in from
    /// nothing with the given colour.
    pub open spec fn admitted(self, candidate: usize, colour: (u8, u8, u8)) -> Lifecycle {
        if self.admits(candidate) {
            Lifecycle {
                admitting: self.admitting.push(Element { index: candidate, step: 0 }),
                processing: self.processing.insert(candidate),
                colours: self.colours.insert(candidate, colour),
                ..self
            }
        } else {
            self
        }
    }

    /// Whether a held pixel is due for retirement.
    pub open spec fn retires(self) -> bool {
        self.held.len() >= HOLD_LIMIT
    }

    /// Retirement selection: if one is due, the held pixels are put into the
    /// given order and the last of them starts to fade out from full.
    pub open spec fn selected(self, order: Seq<usize>) -> Lifecycle {
        if self.retires() {
            Lifecycle {
                held: order.drop_last(),
                retiring: self.retiring.push(Element { index: order.last(), step: RAMP_FULL }),
                ..self
            }
        } else {
            self
        }
    }

    /// The pixels that go dark in the next advance.
    pub open spec fn expired(self) -> Set<usize> {
        indices(expiring(self.retiring)).to_set()
    }

    /// One step of every ramp: pixels that fade out get darker and those
    /// that go dark become idle and lose their colour; pixels that fade in
    /// get brighter and those that reach full brightness are held.
    pub open spec fn advanced(self) -> Lifecycle {
        Lifecycle {
            admitting: rising(self.admitting).map_values(|e: Element| raised(e)),
            retiring: fading(self.retiring).map_values(|e: Element| lowered(e)),
            held: self.held + indices(arriving(self.admitting)),
            processing: self.processing.difference(self.expired()),
            colours: self.colours.remove_keys(self.expired()),
        }
    }

    /// Whether the frame shows this state: a pixel in transition has its
    /// colour at its ramp value, a held pixel has its colour at the full
    /// ramp value, and every other pixel is dark.
    pub open spec fn shown_by(self, frame: Seq<[u8; 4]>) -> bool {
        &&& forall|k: int|
            0 <= k < self.admitting.len() ==> {
                let e = #[trigger] self.admitting[k];
                e.index < frame.len() && frame[e.index as int]@ == shade(
                    self.colours[e.index],
                    e.step,
                )
            }
        &&& forall|k: int|
            0 <= k < self.retiring.len() ==> {
                let e = #[trigger] self.retiring[k];
                e.index < frame.len() && frame[e.index as int]@ == shade(
                    self.colours[e.index],
                    e.step,
                )
            }
        &&& forall|k: int|
            0 <= k < self.held.len() ==> {
                let i = #[trigger] self.held[k];
                i < frame.len() && frame[i as int]@ == shade(self.colours[i], RAMP_FULL)
            }
        &&& forall|i: int|
            0 <= i < frame.len() && !self.processing.contains(i as usize) ==> (
            #[trigger] frame[i])@ == pixel(0, 0, 0)
    }

    /// Whether the draw is one that a tick can make in this state on a strip
    /// of `n` pixels.
    pub open spec fn draws(self, d: Draw, n: nat) -> bool {
        &&& d.candidate < n
        &&& d.order.to_multiset() == self.held.to_multiset()
    }

    /// One tick: admission, retirement selection, then one step of every
    /// ramp.
    pub open spec fn tick(self, d: Draw) -> Lifecycle {
        self.admitted(d.candidate, d.colour).selected(d.order).advanced()
    }
}

/// The state after one tick for each of the given draws, in order.
pub open spec fn run(s: Lifecycle, draws: Seq<Draw>) -> Lifecycle
    decreases draws.len(),
{
    if draws.len() == 0 {
        s
    } else {
        run(s, draws.drop_last()).tick(draws.last())
    }
}

/// Whether each of the given draws is one that its tick can make on a strip
/// of `n` pixels.
pub open spec fn can_run(s: Lifecycle, draws: Seq<Draw>, n: nat) -> bool
    decreases draws.len(),
{
    draws.len() == 0 || (can_run(s, draws.drop_last(), n) && run(s, draws.drop_last()).draws(
        draws.last(),
        n,
    ))
}

} // verus!
