//! The invariant of the scatter effect holds in the idle state, and every
//! part of a tick keeps it.

use crate::entries::{
    lemma_distinct_positions, lemma_filter_indices, lemma_filter_keeps_distinct,
    lemma_filter_members, lemma_indices_contains, lemma_push_to_set, lemma_reordered,
};
use crate::lifecycle::{
    arriving, can_run, fading, indices, lowered, raised, rising, run, Draw, Element, Lifecycle,
    RAMP_FULL, RAMP_STEP,
};
use vstd::prelude::*;

verus! {

/// The state in which every pixel is idle is valid on every strip.
pub proof fn lemma_empty_wf(n: nat)
    ensures
        Lifecycle::empty().wf(n),
{
    let s = Lifecycle::empty();
    assert(indices(s.admitting) =~= Seq::<usize>::empty());
    assert(indices(s.retiring) =~= Seq::<usize>::empty());
    assert(s.in_transition() + s.held.to_set() =~= Set::<usize>::empty());
    assert(s.colours.dom() =~= Set::<usize>::empty());
}

/// Exclusivity, entry by entry: no two entries share a position, no held
/// pixel has an entry, and no pixel is held twice. Every position that
/// occurs is processed, has a colour, and lies on the strip.
pub proof fn lemma_exclusive(s: Lifecycle, n: nat)
    requires
        s.wf(n),
    ensures
        forall|j: int, k: int|
            0 <= j < s.admitting.len() && 0 <= k < s.admitting.len() && j != k ==> (
            #[trigger] s.admitting[j]).index != (#[trigger] s.admitting[k]).index,
        forall|j: int, k: int|
            0 <= j < s.retiring.len() && 0 <= k < s.retiring.len() && j != k ==> (
            #[trigger] s.retiring[j]).index != (#[trigger] s.retiring[k]).index,
        forall|j: int, k: int|
            0 <= j < s.held.len() && 0 <= k < s.held.len() && j != k ==> s.held[j] != s.held[k],
        forall|j: int, k: int|
            0 <= j < s.admitting.len() && 0 <= k < s.retiring.len() ==> (
            #[trigger] s.admitting[j]).index != (#[trigger] s.retiring[k]).index,
        forall|j: int, k: int|
            0 <= j < s.admitting.len() && 0 <= k < s.held.len() ==> (
            #[trigger] s.admitting[j]).index != #[trigger] s.held[k],
        forall|j: int, k: int|
            0 <= j < s.retiring.len() && 0 <= k < s.held.len() ==> (
            #[trigger] s.retiring[j]).index != #[trigger] s.held[k],
        forall|k: int|
            0 <= k < s.admitting.len() ==> {
                let i = (#[trigger] s.admitting[k]).index;
                s.processing.contains(i) && s.colours.contains_key(i) && i < n
            },
        forall|k: int|
            0 <= k < s.retiring.len() ==> {
                let i = (#[trigger] s.retiring[k]).index;
                s.processing.contains(i) && s.colours.contains_key(i) && i < n
            },
        forall|k: int|
            0 <= k < s.held.len() ==> {
                let i = #[trigger] s.held[k];
                s.processing.contains(i) && s.colours.contains_key(i) && i < n
            },
{
    let a = indices(s.admitting);
    let r = indices(s.retiring);
    assert forall|k: int| 0 <= k < s.admitting.len() implies a.to_set().contains(
        (#[trigger] s.admitting[k]).index,
    ) by {
        assert(a[k] == s.admitting[k].index);
    }
    assert forall|k: int| 0 <= k < s.retiring.len() implies r.to_set().contains(
        (#[trigger] s.retiring[k]).index,
    ) by {
        assert(r[k] == s.retiring[k].index);
    }
    assert forall|k: int| 0 <= k < s.held.len() implies s.held.to_set().contains(
        #[trigger] s.held[k],
    ) by {
        assert(s.held.contains(s.held[k]));
    }
    assert forall|j: int, k: int|
        0 <= j < s.admitting.len() && 0 <= k < s.admitting.len() && j != k implies (
    #[trigger] s.admitting[j]).index != (#[trigger] s.admitting[k]).index by {
        assert(a[j] != a[k]);
    }
    assert forall|j: int, k: int|
        0 <= j < s.retiring.len() && 0 <= k < s.retiring.len() && j != k implies (
    #[trigger] s.retiring[j]).index != (#[trigger] s.retiring[k]).index by {
        assert(r[j] != r[k]);
    }
    assert forall|k: int| 0 <= k < s.admitting.len() implies {
        let i = (#[trigger] s.admitting[k]).index;
        s.processing.contains(i) && s.colours.contains_key(i) && i < n
    } by {
        assert(s.in_transition().contains(s.admitting[k].index));
        assert(s.colours.dom().contains(s.admitting[k].index));
    }
    assert forall|k: int| 0 <= k < s.retiring.len() implies {
        let i = (#[trigger] s.retiring[k]).index;
        s.processing.contains(i) && s.colours.contains_key(i) && i < n
    } by {
        assert(s.in_transition().contains(s.retiring[k].index));
        assert(s.colours.dom().contains(s.retiring[k].index));
    }
    assert forall|k: int| 0 <= k < s.held.len() implies {
        let i = #[trigger] s.held[k];
        s.processing.contains(i) && s.colours.contains_key(i) && i < n
    } by {
        assert(s.colours.dom().contains(s.held[k]));
    }
    assert forall|j: int, k: int|
        0 <= j < s.admitting.len() && 0 <= k < s.held.len() implies (
    #[trigger] s.admitting[j]).index != #[trigger] s.held[k] by {
        assert(s.in_transition().contains(s.admitting[j].index));
    }
    assert forall|j: int, k: int|
        0 <= j < s.retiring.len() && 0 <= k < s.held.len() implies (
    #[trigger] s.retiring[j]).index != #[trigger] s.held[k] by {
        assert(s.in_transition().contains(s.retiring[j].index));
    }
}

/// Admission keeps the invariant.
pub proof fn lemma_admitted_wf(s: Lifecycle, candidate: usize, colour: (u8, u8, u8), n: nat)
    requires
        s.wf(n),
        candidate < n,
    ensures
        s.admitted(candidate, colour).wf(n),
{
    if s.admits(candidate) {
        let t = s.admitted(candidate, colour);
        let e = Element { index: candidate, step: 0 };
        assert(indices(t.admitting) =~= indices(s.admitting).push(candidate));
        lemma_push_to_set(indices(s.admitting), candidate);
        assert(!indices(s.admitting).contains(candidate)) by {
            if indices(s.admitting).contains(candidate) {
                assert(s.in_transition().contains(candidate));
            }
        }
        assert(!s.in_transition().contains(candidate));
        assert(!s.held.to_set().contains(candidate));
        assert(t.in_transition() =~= s.in_transition().insert(candidate));
        assert(t.processing =~= t.in_transition() + t.held.to_set());
        assert(t.colours.dom() =~= t.processing);
        assert forall|k: int| 0 <= k < t.admitting.len() implies {
            &&& (#[trigger] t.admitting[k]).step % RAMP_STEP == 0
            &&& t.admitting[k].step < RAMP_FULL
        } by {
            if k < s.admitting.len() {
                assert(t.admitting[k] == s.admitting[k]);
            }
        }
    }
}

/// Putting the held pixels into another order keeps the invariant.
pub proof fn lemma_reordered_wf(s: Lifecycle, order: Seq<usize>, n: nat)
    requires
        s.wf(n),
        order.to_multiset() == s.held.to_multiset(),
    ensures
        (Lifecycle { held: order, ..s }).wf(n),
        s.retires() ==> (Lifecycle { held: order, ..s }).selected(order) == s.selected(order),
{
    lemma_reordered(s.held, order);
}

/// Retirement selection keeps the invariant.
pub proof fn lemma_selected_wf(s: Lifecycle, order: Seq<usize>, n: nat)
    requires
        s.wf(n),
        order.to_multiset() == s.held.to_multiset(),
    ensures
        s.selected(order).wf(n),
{
    if s.retires() {
        lemma_reordered(s.held, order);
        let t = s.selected(order);
        let id = order.last();
        assert(order.contains(id));
        assert(s.held.to_set().contains(id));
        assert(s.processing.contains(id));
        assert(indices(t.retiring) =~= indices(s.retiring).push(id));
        lemma_push_to_set(indices(s.retiring), id);
        assert(!s.in_transition().contains(id));
        assert(!t.held.contains(id)) by {
            if t.held.contains(id) {
                let k = choose|k: int| 0 <= k < t.held.len() && t.held[k] == id;
                assert(order[k] == order[order.len() - 1]);
            }
        }
        assert(t.held.to_set() =~= s.held.to_set().remove(id)) by {
            assert forall|x: usize| t.held.to_set().contains(x) <==> s.held.to_set().remove(
                id,
            ).contains(x) by {
                if t.held.contains(x) {
                    let k = choose|k: int| 0 <= k < t.held.len() && t.held[k] == x;
                    assert(order[k] == x);
                    assert(order.contains(x));
                }
                if s.held.to_set().remove(id).contains(x) {
                    assert(order.to_set().contains(x));
                    let k = choose|k: int| 0 <= k < order.len() && order[k] == x;
                    assert(t.held[k] == x);
                }
            }
        }
        assert(t.in_transition() =~= s.in_transition().insert(id));
        assert(t.processing =~= t.in_transition() + t.held.to_set());
        assert forall|k: int| 0 <= k < t.retiring.len() implies {
            &&& (#[trigger] t.retiring[k]).step % RAMP_STEP == 0
            &&& 0 < t.retiring[k].step <= RAMP_FULL
        } by {
            if k < s.retiring.len() {
                assert(t.retiring[k] == s.retiring[k]);
            }
        }
    }
}

/// Where one position of the strip stands after one step of every ramp:
/// a pixel that fades in goes on fading in or is held, a held pixel stays
/// held, and a pixel that fades out goes on fading out or goes dark.
pub proof fn lemma_advanced_at(s: Lifecycle, n: nat, i: usize)
    requires
        s.wf(n),
    ensures
        indices(s.advanced().admitting).contains(i) ==> indices(s.admitting).contains(i),
        indices(s.advanced().retiring).contains(i) ==> indices(s.retiring).contains(i),
        s.expired().contains(i) ==> indices(s.retiring).contains(i),
        !(indices(s.advanced().retiring).contains(i) && s.expired().contains(i)),
        indices(s.retiring).contains(i) ==> indices(s.advanced().retiring).contains(i)
            || s.expired().contains(i),
        !(indices(s.advanced().admitting).contains(i) && s.advanced().held.contains(i)),
        indices(s.admitting).contains(i) ==> indices(s.advanced().admitting).contains(i)
            || s.advanced().held.contains(i),
        s.advanced().held.contains(i) <==> s.held.contains(i) || indices(
            arriving(s.admitting),
        ).contains(i),
        indices(arriving(s.admitting)).contains(i) ==> indices(s.admitting).contains(i),
{
    let t = s.advanced();
    let up = |e: Element| e.step + RAMP_STEP < RAMP_FULL;
    let full = |e: Element| e.step + RAMP_STEP >= RAMP_FULL;
    let lit = |e: Element| e.step != RAMP_STEP;
    let dark = |e: Element| e.step == RAMP_STEP;
    let arrived = indices(arriving(s.admitting));
    assert(indices(t.admitting) =~= indices(rising(s.admitting)));
    assert(indices(t.retiring) =~= indices(fading(s.retiring)));
    lemma_filter_indices(s.admitting, up, i);
    lemma_filter_indices(s.admitting, full, i);
    lemma_filter_indices(s.retiring, lit, i);
    lemma_filter_indices(s.retiring, dark, i);
    lemma_indices_contains(s.admitting, i);
    lemma_indices_contains(s.retiring, i);
    if indices(t.admitting).contains(i) && arrived.contains(i) {
        let j = choose|j: int|
            0 <= j < s.admitting.len() && (#[trigger] s.admitting[j]).index == i && up(
                s.admitting[j],
            );
        let k = choose|k: int|
            0 <= k < s.admitting.len() && (#[trigger] s.admitting[k]).index == i && full(
                s.admitting[k],
            );
        lemma_distinct_positions(s.admitting, j, k);
    }
    if indices(t.retiring).contains(i) && s.expired().contains(i) {
        let j = choose|j: int|
            0 <= j < s.retiring.len() && (#[trigger] s.retiring[j]).index == i && lit(
                s.retiring[j],
            );
        let k = choose|k: int|
            0 <= k < s.retiring.len() && (#[trigger] s.retiring[k]).index == i && dark(
                s.retiring[k],
            );
        lemma_distinct_positions(s.retiring, j, k);
    }
    if t.held.contains(i) {
        let k = choose|k: int| 0 <= k < t.held.len() && t.held[k] == i;
        if k < s.held.len() {
            assert(s.held[k] == i);
        } else {
            assert(arrived[k - s.held.len()] == i);
        }
    }
    if s.held.contains(i) {
        let k = choose|k: int| 0 <= k < s.held.len() && s.held[k] == i;
        assert(t.held[k] == i);
    }
    if arrived.contains(i) {
        let k = choose|k: int| 0 <= k < arrived.len() && arrived[k] == i;
        assert(t.held[s.held.len() + k] == i);
    }
    if indices(t.admitting).contains(i) && s.held.contains(i) {
        assert(s.in_transition().contains(i));
        assert(s.held.to_set().contains(i));
    }
}

/// One step of every ramp keeps the invariant.
pub proof fn lemma_advanced_wf(s: Lifecycle, n: nat)
    requires
        s.wf(n),
    ensures
        s.advanced().wf(n),
{
    let t = s.advanced();
    let up = |e: Element| e.step + RAMP_STEP < RAMP_FULL;
    let full = |e: Element| e.step + RAMP_STEP >= RAMP_FULL;
    let lit = |e: Element| e.step != RAMP_STEP;
    assert(indices(t.admitting) =~= indices(rising(s.admitting)));
    assert(indices(t.retiring) =~= indices(fading(s.retiring)));
    lemma_filter_keeps_distinct(s.admitting, up);
    lemma_filter_keeps_distinct(s.admitting, full);
    lemma_filter_keeps_distinct(s.retiring, lit);
    let arrived = indices(arriving(s.admitting));

    assert(t.held.no_duplicates()) by {
        assert forall|j: int, k: int| 0 <= j < s.held.len() && 0 <= k < arrived.len() implies
            s.held[j] != arrived[k] by {
            lemma_advanced_at(s, n, arrived[k]);
            assert(arrived.contains(arrived[k]));
            assert(s.held.contains(s.held[j]));
            assert(s.in_transition().contains(arrived[k]));
            assert(s.held.to_set().contains(s.held[j]));
        }
        vstd::seq_lib::lemma_no_dup_in_concat(s.held, arrived);
    }
    assert forall|i: usize| true implies {
        &&& !(#[trigger] indices(t.admitting).to_set().contains(i) && indices(
            t.retiring,
        ).to_set().contains(i))
        &&& !(t.in_transition().contains(i) && t.held.to_set().contains(i))
        &&& t.processing.contains(i) <==> t.in_transition().contains(i)
            || t.held.to_set().contains(i)
    } by {
        lemma_advanced_at(s, n, i);
        assert(indices(s.admitting).contains(i) <==> indices(s.admitting).to_set().contains(i));
        assert(indices(s.retiring).contains(i) <==> indices(s.retiring).to_set().contains(i));
        assert(s.held.contains(i) <==> s.held.to_set().contains(i));
        assert(s.in_transition().contains(i) <==> indices(s.admitting).contains(i) || indices(
            s.retiring,
        ).contains(i));
        assert(s.processing.contains(i) <==> s.in_transition().contains(i)
            || s.held.to_set().contains(i));
        assert(!(s.in_transition().contains(i) && s.held.to_set().contains(i)));
        assert(!(indices(s.admitting).to_set().contains(i) && indices(
            s.retiring,
        ).to_set().contains(i)));
    }
    assert(t.processing =~= t.in_transition() + t.held.to_set());
    assert(t.processing.subset_of(s.processing));
    vstd::set_lib::lemma_len_subset(t.processing, s.processing);
    assert(t.colours.dom() =~= t.processing);

    assert forall|k: int| 0 <= k < t.admitting.len() implies {
        &&& (#[trigger] t.admitting[k]).step % RAMP_STEP == 0
        &&& t.admitting[k].step < RAMP_FULL
    } by {
        let e = rising(s.admitting)[k];
        assert(rising(s.admitting).contains(e));
        lemma_filter_members(s.admitting, up, e);
        let j = choose|j: int| 0 <= j < s.admitting.len() && s.admitting[j] == e;
        assert(t.admitting[k] == raised(e));
    }
    assert forall|k: int| 0 <= k < t.retiring.len() implies {
        &&& (#[trigger] t.retiring[k]).step % RAMP_STEP == 0
        &&& 0 < t.retiring[k].step <= RAMP_FULL
    } by {
        let e = fading(s.retiring)[k];
        assert(fading(s.retiring).contains(e));
        lemma_filter_members(s.retiring, lit, e);
        let j = choose|j: int| 0 <= j < s.retiring.len() && s.retiring[j] == e;
        assert(t.retiring[k] == lowered(e));
    }
}

/// A tick keeps the invariant, whatever it draws.
pub proof fn lemma_tick_wf(s: Lifecycle, d: Draw, n: nat)
    requires
        s.wf(n),
        s.draws(d, n),
    ensures
        s.tick(d).wf(n),
{
    lemma_admitted_wf(s, d.candidate, d.colour, n);
    lemma_selected_wf(s.admitted(d.candidate, d.colour), d.order, n);
    lemma_advanced_wf(s.admitted(d.candidate, d.colour).selected(d.order), n);
}

/// The first ticks of a run are a run.
pub proof fn lemma_run_prefix(s: Lifecycle, draws: Seq<Draw>, n: nat, k: int)
    requires
        can_run(s, draws, n),
        0 <= k <= draws.len(),
    ensures
        can_run(s, draws.take(k), n),
        k < draws.len() ==> run(s, draws.take(k)).draws(draws[k], n) && run(s, draws.take(k + 1))
            == run(s, draws.take(k)).tick(draws[k]),
    decreases draws.len(),
{
    if k == draws.len() {
        assert(draws.take(k) =~= draws);
    } else {
        if k == draws.len() - 1 {
            assert(draws.take(k) =~= draws.drop_last());
            assert(draws.take(k + 1) =~= draws);
        } else {
            lemma_run_prefix(s, draws.drop_last(), n, k);
            assert(draws.drop_last().take(k) =~= draws.take(k));
            assert(draws.drop_last().take(k + 1) =~= draws.take(k + 1));
        }
    }
}

/// Every state that ticks reach from a valid state is valid: no pixel is in
/// two phases, at most twenty pixels are being processed, and every ramp
/// value is a multiple of 25 between 0 and 250.
pub proof fn lemma_run_wf(s: Lifecycle, draws: Seq<Draw>, n: nat)
    requires
        s.wf(n),
        can_run(s, draws, n),
    ensures
        run(s, draws).wf(n),
        run(s, draws).exclusive(),
        run(s, draws).in_transition().disjoint(run(s, draws).held.to_set()),
        run(s, draws).processing.len() <= 20,
        run(s, draws).in_transition().finite(),
        run(s, draws).in_transition().len() <= 20,
        forall|k: int|
            0 <= k < run(s, draws).admitting.len() ==> {
                let e = #[trigger] run(s, draws).admitting[k];
                e.step % 25 == 0 && 0 <= e.step <= 250
            },
        forall|k: int|
            0 <= k < run(s, draws).retiring.len() ==> {
                let e = #[trigger] run(s, draws).retiring[k];
                e.step % 25 == 0 && 0 <= e.step <= 250
            },
    decreases draws.len(),
{
    if draws.len() > 0 {
        lemma_run_wf(s, draws.drop_last(), n);
        lemma_tick_wf(run(s, draws.drop_last()), draws.last(), n);
    }
    let t = run(s, draws);
    assert(t.in_transition().subset_of(t.processing));
    vstd::set_lib::lemma_len_subset(t.in_transition(), t.processing);
}

} // verus!
