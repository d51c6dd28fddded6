//! What a tick of the scatter effect does to a single pixel, and what
//! follows for a pixel's whole way from admission to retirement.

use crate::entries::{lemma_filter_members, lemma_indices_contains, lemma_reordered};
use crate::validity::{
    lemma_admitted_wf, lemma_advanced_at, lemma_advanced_wf, lemma_run_prefix, lemma_run_wf,
    lemma_selected_wf,
};
use crate::lifecycle::{
    arriving, can_run, expiring, fading, indices, lowered, raised, rising, run, Draw, Element,
    Lifecycle, HOLD_LIMIT, RAMP_FULL, RAMP_STEP,
};
use vstd::prelude::*;

verus! {

/// What one step of every ramp does to a pixel that is fading in.
pub proof fn lemma_advanced_raises(u: Lifecycle, e: Element)
    requires
        u.admitting.contains(e),
    ensures
        e.step + RAMP_STEP < RAMP_FULL ==> u.advanced().admitting.contains(raised(e)),
        e.step + RAMP_STEP >= RAMP_FULL ==> u.advanced().held.contains(e.index),
{
    let up = |e: Element| e.step + RAMP_STEP < RAMP_FULL;
    let full = |e: Element| e.step + RAMP_STEP >= RAMP_FULL;
    lemma_filter_members(u.admitting, up, e);
    lemma_filter_members(u.admitting, full, e);
    if e.step + RAMP_STEP < RAMP_FULL {
        let k = choose|k: int| 0 <= k < rising(u.admitting).len() && rising(u.admitting)[k] == e;
        assert(u.advanced().admitting[k] == raised(e));
    } else {
        let k = choose|k: int|
            0 <= k < arriving(u.admitting).len() && arriving(u.admitting)[k] == e;
        assert(indices(arriving(u.admitting))[k] == e.index);
        assert(u.advanced().held[u.held.len() + k] == e.index);
    }
}

/// What one step of every ramp does to a pixel that is fading out.
pub proof fn lemma_advanced_lowers(u: Lifecycle, e: Element)
    requires
        u.retiring.contains(e),
    ensures
        e.step != RAMP_STEP ==> u.advanced().retiring.contains(lowered(e)),
        e.step == RAMP_STEP ==> !u.advanced().processing.contains(e.index),
{
    let lit = |e: Element| e.step != RAMP_STEP;
    let dark = |e: Element| e.step == RAMP_STEP;
    lemma_filter_members(u.retiring, lit, e);
    lemma_filter_members(u.retiring, dark, e);
    if e.step != RAMP_STEP {
        let k = choose|k: int| 0 <= k < fading(u.retiring).len() && fading(u.retiring)[k] == e;
        assert(u.advanced().retiring[k] == lowered(e));
    } else {
        let k = choose|k: int|
            0 <= k < expiring(u.retiring).len() && expiring(u.retiring)[k] == e;
        assert(indices(expiring(u.retiring))[k] == e.index);
        assert(u.expired().contains(e.index));
    }
}

/// The tick that admits a pixel leaves it fading in at the first step.
pub proof fn lemma_tick_admits(s: Lifecycle, d: Draw, n: nat)
    requires
        s.wf(n),
        s.draws(d, n),
        s.admits(d.candidate),
    ensures
        s.tick(d).admitting.contains((Element { index: d.candidate, step: RAMP_STEP })),
        s.tick(d).colours.contains_key(d.candidate),
        s.tick(d).colours[d.candidate] == d.colour,
{
    let a = s.admitted(d.candidate, d.colour);
    let u = a.selected(d.order);
    let e = Element { index: d.candidate, step: 0 };
    assert(u.admitting[s.admitting.len() as int] == e);
    lemma_advanced_raises(u, e);
    assert(raised(e) == (Element { index: d.candidate, step: RAMP_STEP }));
    lemma_admitted_wf(s, d.candidate, d.colour, n);
    lemma_selected_wf(a, d.order, n);
    lemma_advanced_wf(u, n);
    assert(u.advanced().in_transition().contains(d.candidate)) by {
        assert(indices(u.advanced().admitting).contains(d.candidate)) by {
            lemma_indices_contains(u.advanced().admitting, d.candidate);
            let k = choose|k: int|
                0 <= k < u.advanced().admitting.len() && u.advanced().admitting[k] == raised(e);
            assert(u.advanced().admitting[k].index == d.candidate);
        }
    }
    assert(u.advanced().processing.contains(d.candidate));
    assert(!u.expired().contains(d.candidate));
}

/// What a tick does to a pixel that is fading in: it is one step brighter
/// afterwards, and held if that step took it to full brightness.
pub proof fn lemma_tick_raises(s: Lifecycle, d: Draw, n: nat, e: Element)
    requires
        s.wf(n),
        s.draws(d, n),
        s.admitting.contains(e),
    ensures
        e.step + RAMP_STEP < RAMP_FULL ==> s.tick(d).admitting.contains(raised(e)),
        e.step + RAMP_STEP >= RAMP_FULL ==> s.tick(d).held.contains(e.index),
{
    let u = s.admitted(d.candidate, d.colour).selected(d.order);
    let j = choose|j: int| 0 <= j < s.admitting.len() && s.admitting[j] == e;
    assert(u.admitting[j] == e);
    lemma_advanced_raises(u, e);
}

/// What a tick does to a pixel that is fading out: it is one step darker
/// afterwards, and processed no longer if that step took it to nothing.
pub proof fn lemma_tick_lowers(s: Lifecycle, d: Draw, n: nat, e: Element)
    requires
        s.wf(n),
        s.draws(d, n),
        s.retiring.contains(e),
    ensures
        e.step != RAMP_STEP ==> s.tick(d).retiring.contains(lowered(e)),
        e.step == RAMP_STEP ==> !s.tick(d).processing.contains(e.index),
{
    let u = s.admitted(d.candidate, d.colour).selected(d.order);
    let j = choose|j: int| 0 <= j < s.retiring.len() && s.retiring[j] == e;
    assert(u.retiring[j] == e);
    lemma_advanced_lowers(u, e);
}

/// Retirement trigger. A tick that starts with at least ten held pixels
/// moves exactly one of them, the last in the order drawn, into fading out,
/// where it has taken its first step down by the end of the tick; the other
/// held pixels stay held. A tick that starts with fewer moves none.
pub proof fn lemma_retirement_trigger(s: Lifecycle, d: Draw, n: nat)
    requires
        s.wf(n),
        s.draws(d, n),
    ensures
        s.held.len() >= HOLD_LIMIT ==> {
            let id = d.order.last();
            &&& s.held.contains(id)
            &&& s.tick(d).retiring.contains(
                (Element { index: id, step: (RAMP_FULL - RAMP_STEP) as u8 }),
            )
            &&& forall|x: usize|
                s.held.contains(x) ==> (s.tick(d).held.contains(x) <==> x != id) && (indices(
                    s.tick(d).retiring,
                ).contains(x) <==> x == id)
        },
        s.held.len() < HOLD_LIMIT ==> forall|x: usize|
            s.held.contains(x) ==> s.tick(d).held.contains(x) && !indices(
                s.tick(d).retiring,
            ).contains(x),
{
    let a = s.admitted(d.candidate, d.colour);
    let u = a.selected(d.order);
    let t = u.advanced();
    lemma_admitted_wf(s, d.candidate, d.colour, n);
    lemma_selected_wf(a, d.order, n);
    lemma_advanced_wf(u, n);
    assert(a.held == s.held);
    if s.held.len() >= HOLD_LIMIT {
        lemma_reordered(s.held, d.order);
        let id = d.order.last();
        let e = Element { index: id, step: RAMP_FULL };
        assert(d.order.contains(id));
        assert(d.order.to_set().contains(id));
        assert(s.held.to_set().contains(id));
        assert(u.retiring[a.retiring.len() as int] == e);
        lemma_advanced_lowers(u, e);
        assert forall|x: usize| s.held.contains(x) implies (t.held.contains(x) <==> x != id) && (
        indices(t.retiring).contains(x) <==> x == id) by {
            lemma_advanced_at(u, n, x);
            lemma_indices_contains(u.retiring, x);
            lemma_indices_contains(t.retiring, x);
            assert(s.held.to_set().contains(x));
            assert(d.order.to_set().contains(x));
            let k = choose|k: int| 0 <= k < d.order.len() && d.order[k] == x;
            if x != id {
                assert(u.held[k] == x);
                assert(u.held.to_set().contains(x));
                assert(t.held.to_set().contains(x) ==> !t.in_transition().contains(x));
                assert(indices(t.retiring).contains(x) ==> indices(t.retiring).to_set().contains(
                    x,
                ));
            } else {
                assert(t.retiring.contains(lowered(e)));
                let j = choose|j: int| 0 <= j < t.retiring.len() && t.retiring[j] == lowered(e);
                assert(t.retiring[j].index == x);
                assert(indices(t.retiring).to_set().contains(x));
                assert(t.in_transition().contains(x));
                assert(t.held.contains(x) ==> t.held.to_set().contains(x));
            }
        }
    } else {
        assert forall|x: usize| s.held.contains(x) implies t.held.contains(x) && !indices(
            t.retiring,
        ).contains(x) by {
            lemma_advanced_at(u, n, x);
            assert(u.held.to_set().contains(x));
            assert(t.held.to_set().contains(x));
            assert(indices(t.retiring).contains(x) ==> indices(t.retiring).to_set().contains(x));
        }
    }
}

/// Colour persistence. A pixel that is being processed before and after a
/// tick has the same colour after it as before.
pub proof fn lemma_colour_persists(s: Lifecycle, d: Draw, n: nat, i: usize)
    requires
        s.wf(n),
        s.draws(d, n),
        s.processing.contains(i),
        s.tick(d).processing.contains(i),
    ensures
        s.colours.contains_key(i),
        s.tick(d).colours.contains_key(i),
        s.tick(d).colours[i] == s.colours[i],
{
    assert(s.colours.dom().contains(i));
}

/// Colour persistence over any number of ticks. A pixel that is being
/// processed before the first of the ticks and after each of them has the
/// same colour at the end as at the start.
pub proof fn lemma_colour_persists_run(s: Lifecycle, draws: Seq<Draw>, n: nat, i: usize)
    requires
        s.wf(n),
        can_run(s, draws, n),
        forall|k: int|
            0 <= k <= draws.len() ==> (#[trigger] run(s, draws.take(k))).processing.contains(i),
    ensures
        s.colours.contains_key(i),
        run(s, draws).colours.contains_key(i),
        run(s, draws).colours[i] == s.colours[i],
    decreases draws.len(),
{
    assert(draws.take(draws.len() as int) =~= draws);
    assert(run(s, draws.take(draws.len() as int)).processing.contains(i));
    if draws.len() == 0 {
        assert(s.colours.dom().contains(i));
    } else {
        let earlier = draws.drop_last();
        assert forall|k: int| 0 <= k <= earlier.len() implies (#[trigger] run(
            s,
            earlier.take(k),
        )).processing.contains(i) by {
            assert(earlier.take(k) =~= draws.take(k));
        }
        lemma_colour_persists_run(s, earlier, n, i);
        lemma_run_wf(s, earlier, n);
        assert(draws.take(earlier.len() as int) =~= earlier);
        assert(run(s, draws.take(earlier.len() as int)).processing.contains(i));
        lemma_colour_persists(run(s, earlier), draws.last(), n, i);
    }
}

/// Where an admitted pixel stands `k` ticks after the tick that admitted
/// it, that tick counted.
proof fn lemma_admission_progress(s: Lifecycle, draws: Seq<Draw>, n: nat, k: int)
    requires
        s.wf(n),
        can_run(s, draws, n),
        1 <= k <= 10,
        k <= draws.len(),
        s.admits(draws[0].candidate),
    ensures
        k < 10 ==> run(s, draws.take(k)).admitting.contains(
            (Element { index: draws[0].candidate, step: (RAMP_STEP * k) as u8 }),
        ),
        k == 10 ==> run(s, draws.take(k)).held.contains(draws[0].candidate),
    decreases k,
{
    lemma_run_prefix(s, draws, n, k - 1);
    let before = run(s, draws.take(k - 1));
    lemma_run_wf(s, draws.take(k - 1), n);
    if k == 1 {
        assert(draws.take(0).len() == 0);
        lemma_tick_admits(s, draws[0], n);
    } else {
        lemma_admission_progress(s, draws, n, k - 1);
        let e = Element { index: draws[0].candidate, step: (RAMP_STEP * (k - 1)) as u8 };
        lemma_tick_raises(before, draws[k - 1], n, e);
        assert(raised(e) == (Element { index: draws[0].candidate, step: (RAMP_STEP * k) as u8 }));
    }
}

/// Eventual retirement, first half. A pixel that a tick admits is fading in
/// with ramp value 25 at the end of that tick and gains 25 with every
/// further tick; the tenth tick takes it to 250, and it is held.
pub proof fn lemma_admission_completes(s: Lifecycle, draws: Seq<Draw>, n: nat)
    requires
        s.wf(n),
        can_run(s, draws, n),
        draws.len() == 10,
        s.admits(draws[0].candidate),
    ensures
        forall|k: int|
            1 <= k < 10 ==> (#[trigger] run(s, draws.take(k))).admitting.contains(
                (Element { index: draws[0].candidate, step: (25 * k) as u8 }),
            ),
        run(s, draws).held.contains(draws[0].candidate),
{
    assert forall|k: int| 1 <= k < 10 implies (#[trigger] run(s, draws.take(k))).admitting.contains(
        (Element { index: draws[0].candidate, step: (25 * k) as u8 }),
    ) by {
        lemma_admission_progress(s, draws, n, k);
    }
    lemma_admission_progress(s, draws, n, 10);
    assert(draws.take(10) =~= draws);
}

/// Where a retired pixel stands `k` ticks after the tick that selected it,
/// that tick counted.
proof fn lemma_retirement_progress(s: Lifecycle, draws: Seq<Draw>, n: nat, k: int)
    requires
        s.wf(n),
        can_run(s, draws, n),
        1 <= k <= 10,
        k <= draws.len(),
        s.held.len() >= HOLD_LIMIT,
    ensures
        k < 10 ==> run(s, draws.take(k)).retiring.contains(
            (Element { index: draws[0].order.last(), step: (RAMP_FULL - RAMP_STEP * k) as u8 }),
        ),
        k == 10 ==> !run(s, draws.take(k)).processing.contains(draws[0].order.last()),
    decreases k,
{
    lemma_run_prefix(s, draws, n, k - 1);
    let before = run(s, draws.take(k - 1));
    lemma_run_wf(s, draws.take(k - 1), n);
    if k == 1 {
        assert(draws.take(0).len() == 0);
        lemma_retirement_trigger(s, draws[0], n);
    } else {
        lemma_retirement_progress(s, draws, n, k - 1);
        let e = Element {
            index: draws[0].order.last(),
            step: (RAMP_FULL - RAMP_STEP * (k - 1)) as u8,
        };
        lemma_tick_lowers(before, draws[k - 1], n, e);
        assert(lowered(e) == (Element {
            index: draws[0].order.last(),
            step: (RAMP_FULL - RAMP_STEP * k) as u8,
        }));
    }
}

/// Eventual retirement, second half. A held pixel that a tick selects for
/// retirement is fading out with ramp value 225 at the end of that tick and
/// loses 25 with every further tick; the tenth tick takes it to 0, and it
/// is processed no longer.
pub proof fn lemma_retirement_completes(s: Lifecycle, draws: Seq<Draw>, n: nat)
    requires
        s.wf(n),
        can_run(s, draws, n),
        draws.len() == 10,
        s.held.len() >= 10,
    ensures
        s.held.contains(draws[0].order.last()),
        forall|k: int|
            1 <= k < 10 ==> (#[trigger] run(s, draws.take(k))).retiring.contains(
                (Element { index: draws[0].order.last(), step: (250 - 25 * k) as u8 }),
            ),
        !run(s, draws).processing.contains(draws[0].order.last()),
{
    assert forall|k: int| 1 <= k < 10 implies (#[trigger] run(s, draws.take(k))).retiring.contains(
        (Element { index: draws[0].order.last(), step: (250 - 25 * k) as u8 }),
    ) by {
        lemma_retirement_progress(s, draws, n, k);
    }
    lemma_retirement_progress(s, draws, n, 10);
    assert(draws.take(10) =~= draws);
    lemma_run_prefix(s, draws, n, 0);
    assert(draws.take(0).len() == 0);
    lemma_retirement_trigger(s, draws[0], n);
}

} // verus!
