//! Facts about sequences of entries that the proofs about the scatter
//! effect share.

use crate::lifecycle::{indices, Element};
use vstd::prelude::*;

verus! {

/// A position is among the positions of some entries exactly if one of the
/// entries has it.
pub proof fn lemma_indices_contains(entries: Seq<Element>, i: usize)
    ensures
        indices(entries).contains(i) <==> exists|k: int|
            0 <= k < entries.len() && (#[trigger] entries[k]).index == i,
{
    if indices(entries).contains(i) {
        let k = choose|k: int| 0 <= k < indices(entries).len() && indices(entries)[k] == i;
        assert(entries[k].index == i);
    }
    if exists|k: int| 0 <= k < entries.len() && (#[trigger] entries[k]).index == i {
        let k = choose|k: int| 0 <= k < entries.len() && (#[trigger] entries[k]).index == i;
        assert(indices(entries)[k] == i);
    }
}

/// Among entries with distinct positions, two entries at one position are
/// one entry.
pub proof fn lemma_distinct_positions(entries: Seq<Element>, j: int, k: int)
    requires
        indices(entries).no_duplicates(),
        0 <= j < entries.len(),
        0 <= k < entries.len(),
        entries[j].index == entries[k].index,
    ensures
        j == k,
{
    assert(indices(entries)[j] == indices(entries)[k]);
}

/// A selection from entries with distinct positions has distinct positions.
pub proof fn lemma_filter_keeps_distinct(entries: Seq<Element>, pred: spec_fn(Element) -> bool)
    requires
        indices(entries).no_duplicates(),
    ensures
        indices(entries.filter(pred)).no_duplicates(),
    decreases entries.len(),
{
    reveal(Seq::filter);
    if entries.len() > 0 {
        let rest = entries.drop_last();
        let last = entries.last();
        assert forall|j: int, k: int|
            0 <= j < rest.len() && 0 <= k < rest.len() && j != k implies indices(rest)[j]
            != indices(rest)[k] by {
            assert(indices(entries)[j] == indices(rest)[j]);
            assert(indices(entries)[k] == indices(rest)[k]);
        }
        lemma_filter_keeps_distinct(rest, pred);
        if pred(last) {
            let kept = rest.filter(pred);
            assert(entries.filter(pred) == kept.push(last));
            assert forall|j: int, k: int|
                0 <= j < kept.len() + 1 && 0 <= k < kept.len() + 1 && j != k implies indices(
                kept.push(last),
            )[j] != indices(kept.push(last))[k] by {
                if j < kept.len() && k < kept.len() {
                    assert(indices(kept)[j] == indices(kept.push(last))[j]);
                    assert(indices(kept)[k] == indices(kept.push(last))[k]);
                } else {
                    let m = if j < kept.len() { j } else { k };
                    assert(kept.contains(kept[m]));
                    rest.lemma_filter_contains_rev(pred, kept[m]);
                    let t = choose|t: int| 0 <= t < rest.len() && rest[t] == kept[m];
                    assert(indices(entries)[t] == kept[m].index);
                    assert(indices(entries)[entries.len() - 1] == last.index);
                }
            }
        }
    }
}

/// An entry is in a selection exactly if it is among the entries and is
/// selected.
pub proof fn lemma_filter_members(
    entries: Seq<Element>,
    pred: spec_fn(Element) -> bool,
    e: Element,
)
    ensures
        entries.filter(pred).contains(e) <==> entries.contains(e) && pred(e),
{
    if entries.filter(pred).contains(e) {
        entries.lemma_filter_contains_rev(pred, e);
        let k = choose|k: int| 0 <= k < entries.filter(pred).len() && entries.filter(pred)[k] == e;
        entries.lemma_filter_pred(pred, k);
    }
    if entries.contains(e) && pred(e) {
        let k = choose|k: int| 0 <= k < entries.len() && entries[k] == e;
        entries.lemma_filter_contains(pred, k);
    }
}

/// A position is among those of a selection exactly if a selected entry
/// has it.
pub proof fn lemma_filter_indices(
    entries: Seq<Element>,
    pred: spec_fn(Element) -> bool,
    i: usize,
)
    ensures
        indices(entries.filter(pred)).contains(i) <==> exists|k: int|
            0 <= k < entries.len() && (#[trigger] entries[k]).index == i && pred(entries[k]),
{
    let kept = entries.filter(pred);
    lemma_indices_contains(kept, i);
    if indices(kept).contains(i) {
        let j = choose|j: int| 0 <= j < kept.len() && (#[trigger] kept[j]).index == i;
        assert(kept.contains(kept[j]));
        lemma_filter_members(entries, pred, kept[j]);
        let k = choose|k: int| 0 <= k < entries.len() && entries[k] == kept[j];
        assert(entries[k].index == i && pred(entries[k]));
    }
    if exists|k: int|
        0 <= k < entries.len() && (#[trigger] entries[k]).index == i && pred(entries[k]) {
        let k = choose|k: int|
            0 <= k < entries.len() && (#[trigger] entries[k]).index == i && pred(entries[k]);
        assert(entries.contains(entries[k]));
        lemma_filter_members(entries, pred, entries[k]);
        let j = choose|j: int| 0 <= j < kept.len() && kept[j] == entries[k];
        assert(kept[j].index == i);
    }
}

/// The values of a sequence with one more value at its end.
pub proof fn lemma_push_to_set(s: Seq<usize>, x: usize)
    ensures
        s.push(x).to_set() == s.to_set().insert(x),
{
    assert forall|y: usize| s.push(x).to_set().contains(y) <==> s.to_set().insert(x).contains(
        y,
    ) by {
        if s.push(x).contains(y) {
            let k = choose|k: int| 0 <= k < s.push(x).len() && s.push(x)[k] == y;
            if k < s.len() {
                assert(s[k] == y);
            }
        }
        if s.contains(y) {
            let k = choose|k: int| 0 <= k < s.len() && s[k] == y;
            assert(s.push(x)[k] == y);
        }
        if y == x {
            assert(s.push(x)[s.len() as int] == y);
        }
    }
    assert(s.push(x).to_set() =~= s.to_set().insert(x));
}

/// Putting a sequence without repetitions into another order gives a
/// sequence without repetitions that holds the same values.
pub proof fn lemma_reordered(a: Seq<usize>, b: Seq<usize>)
    requires
        a.no_duplicates(),
        b.to_multiset() == a.to_multiset(),
    ensures
        b.no_duplicates(),
        b.len() == a.len(),
        b.to_set() == a.to_set(),
{
    broadcast use vstd::seq_lib::group_to_multiset_ensures;

    a.lemma_multiset_has_no_duplicates();
    b.lemma_multiset_has_no_duplicates_conv();
    assert(a.len() == a.to_multiset().len());
    assert(b.len() == b.to_multiset().len());
    assert forall|x: usize| b.to_set().contains(x) <==> a.to_set().contains(x) by {
        assert(b.contains(x) <==> b.to_multiset().count(x) > 0);
        assert(a.contains(x) <==> a.to_multiset().count(x) > 0);
    }
    assert(b.to_set() =~= a.to_set());
}

} // verus!
