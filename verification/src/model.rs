//! The mathematical model of a counter: a sequence of slots in ascending
//! order of time, and what recording and expiry do to it.

use crate::timestamp::{representable, seconds_before};
use vstd::prelude::*;

verus! {

/// What one time bucket holds: the moment it stands for, in nanoseconds since
/// the Unix epoch, and how often each key was seen at that moment.
#[verifier::reject_recursive_types(K)]
pub struct Slot<K> {
    pub time: int,
    pub counts: Map<K, nat>,
}

/// How often `key` occurs in `counts`: zero where it is absent.
pub open spec fn occurrences<K>(counts: Map<K, nat>, key: K) -> nat {
    if counts.contains_key(key) {
        counts[key]
    } else {
        0
    }
}

/// `counts` with one more occurrence of `key`.
pub open spec fn bumped<K>(counts: Map<K, nat>, key: K) -> Map<K, nat> {
    counts.insert(key, occurrences(counts, key) + 1)
}

/// How often `key` occurs in all of `slots` together.
pub open spec fn hits<K>(slots: Seq<Slot<K>>, key: K) -> nat
    decreases slots.len(),
{
    if slots.len() == 0 {
        0
    } else {
        hits(slots.drop_last(), key) + occurrences(slots.last().counts, key)
    }
}

/// The test that a slot stands for a moment before `time`.
pub open spec fn is_before<K>(time: int) -> spec_fn(Slot<K>) -> bool {
    |slot: Slot<K>| slot.time < time
}

/// The test that a slot stands for a moment after `time`.
pub open spec fn is_after<K>(time: int) -> spec_fn(Slot<K>) -> bool {
    |slot: Slot<K>| slot.time > time
}

/// The test that a slot stands for `time` or a later moment.
pub open spec fn is_from<K>(time: int) -> spec_fn(Slot<K>) -> bool {
    |slot: Slot<K>| slot.time >= time
}

/// The slots of `slots` that stand for a moment before `time`.
pub open spec fn before<K>(slots: Seq<Slot<K>>, time: int) -> Seq<Slot<K>> {
    slots.filter(is_before(time))
}

/// The slots of `slots` that stand for a moment after `time`.
pub open spec fn after<K>(slots: Seq<Slot<K>>, time: int) -> Seq<Slot<K>> {
    slots.filter(is_after(time))
}

/// The slots of `slots` that stand for `cutoff` or a later moment: what is
/// left once everything older than `cutoff` has expired.
pub open spec fn retained<K>(slots: Seq<Slot<K>>, cutoff: int) -> Seq<Slot<K>> {
    slots.filter(is_from(cutoff))
}

/// Whether some slot of `slots` stands for `time`.
pub open spec fn has_slot<K>(slots: Seq<Slot<K>>, time: int) -> bool {
    exists|i: int| 0 <= i < slots.len() && (#[trigger] slots[i]).time == time
}

/// The counts that `slots` holds for `time`: those of a slot that stands for
/// it, or none where there is no such slot.
pub open spec fn counts_at<K>(slots: Seq<Slot<K>>, time: int) -> Map<K, nat> {
    if has_slot(slots, time) {
        let i = choose|i: int| 0 <= i < slots.len() && (#[trigger] slots[i]).time == time;
        slots[i].counts
    } else {
        Map::empty()
    }
}

/// `slots` with one more occurrence of `key` at the moment `now`: the slots
/// before `now` and those after it stay as they are, and between them stands
/// the slot for `now`, with what was counted there before and `key` once more.
pub open spec fn recorded<K>(slots: Seq<Slot<K>>, now: int, key: K) -> Seq<Slot<K>> {
    before(slots, now).push(Slot { time: now, counts: bumped(counts_at(slots, now), key) }) + after(
        slots,
        now,
    )
}

/// `slots` after one occurrence of `key` has been recorded at the moment `now`
/// and everything older than `interval` seconds before `now` has expired.
pub open spec fn inserted<K>(slots: Seq<Slot<K>>, now: int, key: K, interval: int) -> Seq<Slot<K>> {
    retained(recorded(slots, now, key), seconds_before(now, interval))
}

/// Whether the slots stand in strictly ascending order of their moments, so
/// that no moment has two slots.
pub open spec fn ascending<K>(slots: Seq<Slot<K>>) -> bool {
    forall|i: int, j: int| 0 <= i < j < slots.len() ==> slots[i].time < slots[j].time
}

/// Whether every slot holds at least one key, each key it holds at least
/// once, and only finitely many keys.
pub open spec fn populated<K>(slots: Seq<Slot<K>>) -> bool {
    forall|i: int|
        0 <= i < slots.len() ==> {
            &&& (#[trigger] slots[i]).counts.dom().finite()
            &&& slots[i].counts.dom().len() > 0
            &&& forall|key: K| slots[i].counts.contains_key(key) ==> slots[i].counts[key] >= 1
        }
}

/// Whether `slots` has the shape of a counter: ascending and populated.
pub open spec fn well_formed<K>(slots: Seq<Slot<K>>) -> bool {
    ascending(slots) && populated(slots)
}

/// Whether no key occurs in `slots` more often than a counter can hold.
pub open spec fn bounded<K>(slots: Seq<Slot<K>>) -> bool {
    forall|key: K| hits(slots, key) <= u32::MAX
}

/// Whether `slots` is what a counter may hold: well formed and bounded.
pub open spec fn valid<K>(slots: Seq<Slot<K>>) -> bool {
    well_formed(slots) && bounded(slots)
}

/// A filter keeps the front of a sequence where its test holds of exactly
/// the elements of that front.
pub proof fn lemma_filter_front<A>(s: Seq<A>, pred: spec_fn(A) -> bool, i: int)
    requires
        0 <= i <= s.len(),
        forall|j: int| 0 <= j < i ==> pred(#[trigger] s[j]),
        forall|j: int| i <= j < s.len() ==> !pred(#[trigger] s[j]),
    ensures
        s.filter(pred) == s.take(i),
    decreases s.len(),
{
    reveal(Seq::filter);
    if s.len() == 0 {
        assert(s.take(i) =~= s);
    } else if i == s.len() {
        lemma_filter_front(s.drop_last(), pred, i - 1);
        assert(pred(s[s.len() - 1]));
        assert(s.drop_last().take(i - 1).push(s.last()) =~= s.take(i));
    } else {
        lemma_filter_front(s.drop_last(), pred, i);
        assert(!pred(s[s.len() - 1]));
        assert(s.drop_last().take(i) =~= s.take(i));
    }
}

/// A filter keeps the back of a sequence where its test holds of exactly the
/// elements of that back.
pub proof fn lemma_filter_back<A>(s: Seq<A>, pred: spec_fn(A) -> bool, i: int)
    requires
        0 <= i <= s.len(),
        forall|j: int| 0 <= j < i ==> !pred(#[trigger] s[j]),
        forall|j: int| i <= j < s.len() ==> pred(#[trigger] s[j]),
    ensures
        s.filter(pred) == s.skip(i),
    decreases s.len(),
{
    reveal(Seq::filter);
    if s.len() == 0 {
        assert(s.skip(i) =~= s);
    } else if i == s.len() {
        lemma_filter_back(s.drop_last(), pred, i - 1);
        assert(!pred(s[s.len() - 1]));
        assert(s.drop_last().skip(i - 1) =~= s.skip(i));
    } else {
        lemma_filter_back(s.drop_last(), pred, i);
        assert(pred(s[s.len() - 1]));
        assert(s.drop_last().skip(i).push(s.last()) =~= s.skip(i));
    }
}

/// The hits of a sequence of slots are those of its front and of its back
/// together.
pub proof fn lemma_hits_concat<K>(front: Seq<Slot<K>>, back: Seq<Slot<K>>, key: K)
    ensures
        hits(front + back, key) == hits(front, key) + hits(back, key),
    decreases back.len(),
{
    if back.len() == 0 {
        assert(front + back =~= front);
    } else {
        lemma_hits_concat(front, back.drop_last(), key);
        assert((front + back).drop_last() =~= front + back.drop_last());
    }
}

/// No slot holds more occurrences of a key than all slots hold together.
pub proof fn lemma_hits_bound_slot<K>(slots: Seq<Slot<K>>, i: int, key: K)
    requires
        0 <= i < slots.len(),
    ensures
        occurrences(slots[i].counts, key) <= hits(slots, key),
    decreases slots.len(),
{
    if i < slots.len() - 1 {
        lemma_hits_bound_slot(slots.drop_last(), i, key);
    }
}

/// Whether `cut` parts `slots` at `time`: the slots in front of `cut` stand
/// for earlier moments, those from `cut` on for `time` or later ones.
pub open spec fn parts_at<K>(slots: Seq<Slot<K>>, cut: int, time: int) -> bool {
    &&& 0 <= cut <= slots.len()
    &&& forall|j: int| 0 <= j < cut ==> (#[trigger] slots[j]).time < time
    &&& forall|j: int| cut <= j < slots.len() ==> (#[trigger] slots[j]).time >= time
}

/// What is left of ascending slots after expiry is their back from the place
/// that parts them at the cutoff.
pub proof fn lemma_retained_back<K>(slots: Seq<Slot<K>>, cut: int, cutoff: int)
    requires
        parts_at(slots, cut, cutoff),
    ensures
        retained(slots, cutoff) == slots.skip(cut),
{
    lemma_filter_back(slots, is_from(cutoff), cut);
}

/// Recording into ascending slots either counts the key once more in the
/// slot that stands for the moment, or puts a slot of its own for the moment
/// in its place.
pub proof fn lemma_recorded_place<K>(slots: Seq<Slot<K>>, cut: int, now: int, key: K)
    requires
        ascending(slots),
        parts_at(slots, cut, now),
    ensures
        cut < slots.len() && slots[cut].time == now ==> {
            &&& has_slot(slots, now)
            &&& counts_at(slots, now) == slots[cut].counts
            &&& recorded(slots, now, key) == slots.update(
                cut,
                Slot { time: now, counts: bumped(slots[cut].counts, key) },
            )
        },
        !(cut < slots.len() && slots[cut].time == now) ==> {
            &&& !has_slot(slots, now)
            &&& recorded(slots, now, key) == slots.insert(
                cut,
                Slot { time: now, counts: bumped(Map::empty(), key) },
            )
        },
{
    lemma_filter_front(slots, is_before(now), cut);
    if cut < slots.len() && slots[cut].time == now {
        assert(has_slot(slots, now));
        let i = choose|i: int| 0 <= i < slots.len() && (#[trigger] slots[i]).time == now;
        assert(i == cut);
        lemma_filter_back(slots, is_after(now), cut + 1);
        let slot = Slot { time: now, counts: bumped(slots[cut].counts, key) };
        assert(slots.take(cut).push(slot) + slots.skip(cut + 1) =~= slots.update(cut, slot));
    } else {
        assert forall|i: int| 0 <= i < slots.len() implies (#[trigger] slots[i]).time != now by {
            if i > cut {
                assert(slots[cut].time < slots[i].time);
            }
        }
        lemma_filter_back(slots, is_after(now), cut);
        let slot = Slot { time: now, counts: bumped(Map::empty(), key) };
        assert(slots.take(cut).push(slot) + slots.skip(cut) =~= slots.insert(cut, slot));
    }
}

/// Ascending slots can be parted at every moment.
pub proof fn lemma_cut<K>(slots: Seq<Slot<K>>, time: int) -> (cut: int)
    requires
        ascending(slots),
    ensures
        parts_at(slots, cut, time),
    decreases slots.len(),
{
    if slots.len() == 0 {
        0
    } else if slots.last().time < time {
        assert forall|j: int| 0 <= j < slots.len() implies (#[trigger] slots[j]).time < time by {
            if j < slots.len() - 1 {
                assert(slots[j].time < slots[slots.len() - 1].time);
            }
        }
        slots.len() as int
    } else {
        let front = slots.drop_last();
        let cut = lemma_cut(front, time);
        assert forall|j: int| 0 <= j < cut implies (#[trigger] slots[j]).time < time by {
            assert(front[j].time < time);
        }
        assert forall|j: int| cut <= j < slots.len() implies (#[trigger] slots[j]).time >= time by {
            if j < slots.len() - 1 {
                assert(front[j].time >= time);
            }
        }
        cut
    }
}

/// The hits of a sequence of slots are those in front of a place and those
/// from that place on together.
pub proof fn lemma_hits_split<K>(slots: Seq<Slot<K>>, at: int, key: K)
    requires
        0 <= at <= slots.len(),
    ensures
        hits(slots, key) == hits(slots.take(at), key) + hits(slots.skip(at), key),
{
    lemma_hits_concat(slots.take(at), slots.skip(at), key);
    assert(slots.take(at) + slots.skip(at) =~= slots);
}

/// A single slot has the hits that its counts hold.
pub proof fn lemma_hits_single<K>(slot: Slot<K>, key: K)
    ensures
        hits(seq![slot], key) == occurrences(slot.counts, key),
{
    assert(seq![slot].drop_last() =~= Seq::<Slot<K>>::empty());
    assert(hits(Seq::<Slot<K>>::empty(), key) == 0);
}

/// A slot put into a sequence adds the occurrences it holds to the hits.
pub proof fn lemma_hits_insert<K>(slots: Seq<Slot<K>>, at: int, slot: Slot<K>, key: K)
    requires
        0 <= at <= slots.len(),
    ensures
        hits(slots.insert(at, slot), key) == hits(slots, key) + occurrences(slot.counts, key),
{
    lemma_hits_split(slots, at, key);
    lemma_hits_single(slot, key);
    lemma_hits_concat(slots.take(at), seq![slot], key);
    lemma_hits_concat(slots.take(at) + seq![slot], slots.skip(at), key);
    assert(slots.insert(at, slot) =~= slots.take(at) + seq![slot] + slots.skip(at));
}

/// A slot that takes the place of another changes the hits by the difference
/// of what the two hold.
pub proof fn lemma_hits_update<K>(slots: Seq<Slot<K>>, at: int, slot: Slot<K>, key: K)
    requires
        0 <= at < slots.len(),
    ensures
        hits(slots.update(at, slot), key) + occurrences(slots[at].counts, key) == hits(slots, key)
            + occurrences(slot.counts, key),
{
    lemma_hits_split(slots, at, key);
    lemma_hits_split(slots.skip(at), 1, key);
    assert(slots.skip(at).take(1) =~= seq![slots[at]]);
    assert(slots.skip(at).skip(1) =~= slots.skip(at + 1));
    lemma_hits_single(slots[at], key);
    lemma_hits_single(slot, key);
    lemma_hits_concat(slots.take(at), seq![slot], key);
    lemma_hits_concat(slots.take(at) + seq![slot], slots.skip(at + 1), key);
    assert(slots.update(at, slot) =~= slots.take(at) + seq![slot] + slots.skip(at + 1));
}

/// Recording a key raises its hits by one and leaves those of every other
/// key as they were.
pub proof fn lemma_recorded_hits<K>(slots: Seq<Slot<K>>, now: int, key: K, other: K)
    requires
        ascending(slots),
    ensures
        hits(recorded(slots, now, key), other) == hits(slots, other) + if other == key {
            1nat
        } else {
            0nat
        },
{
    let cut = lemma_cut(slots, now);
    lemma_recorded_place(slots, cut, now, key);
    if cut < slots.len() && slots[cut].time == now {
        let slot = Slot { time: now, counts: bumped(slots[cut].counts, key) };
        lemma_hits_update(slots, cut, slot, other);
    } else {
        let slot = Slot { time: now, counts: bumped(Map::<K, nat>::empty(), key) };
        lemma_hits_insert(slots, cut, slot, other);
    }
}

/// Expiry never raises the hits of a key.
pub proof fn lemma_retained_hits<K>(slots: Seq<Slot<K>>, cutoff: int, key: K)
    requires
        ascending(slots),
    ensures
        hits(retained(slots, cutoff), key) <= hits(slots, key),
{
    let cut = lemma_cut(slots, cutoff);
    lemma_retained_back(slots, cut, cutoff);
    lemma_hits_split(slots, cut, key);
}

/// Recording keeps slots in ascending order.
pub proof fn lemma_recorded_ascending<K>(slots: Seq<Slot<K>>, now: int, key: K)
    requires
        ascending(slots),
    ensures
        ascending(recorded(slots, now, key)),
{
    let cut = lemma_cut(slots, now);
    lemma_recorded_place(slots, cut, now, key);
    let both = recorded(slots, now, key);
    if !(cut < slots.len() && slots[cut].time == now) {
        assert forall|i: int, j: int| 0 <= i < j < both.len() implies both[i].time
            < both[j].time by {
            let a = if i < cut {
                i
            } else {
                i - 1
            };
            let b = if j < cut {
                j
            } else {
                j - 1
            };
            if i != cut && j != cut {
                assert(slots[a].time < slots[b].time);
            } else if i == cut {
                assert(slots[b].time >= now);
                if b > cut {
                    assert(slots[cut].time < slots[b].time);
                }
            } else {
                assert(slots[a].time < now);
            }
        }
    }
}

/// Expiry keeps slots in ascending order.
pub proof fn lemma_retained_ascending<K>(slots: Seq<Slot<K>>, cutoff: int)
    requires
        ascending(slots),
    ensures
        ascending(retained(slots, cutoff)),
{
    let cut = lemma_cut(slots, cutoff);
    lemma_retained_back(slots, cut, cutoff);
    let kept = slots.skip(cut);
    assert forall|i: int, j: int| 0 <= i < j < kept.len() implies kept[i].time < kept[j].time by {
        assert(slots[i + cut].time < slots[j + cut].time);
    }
}

/// Recording keeps slots well formed.
pub proof fn lemma_recorded_well_formed<K>(slots: Seq<Slot<K>>, now: int, key: K)
    requires
        well_formed(slots),
    ensures
        well_formed(recorded(slots, now, key)),
{
    let cut = lemma_cut(slots, now);
    lemma_recorded_place(slots, cut, now, key);
    lemma_recorded_ascending(slots, now, key);
    let counts = counts_at(slots, now);
    let slot = Slot { time: now, counts: bumped(counts, key) };
    assert(counts.dom().finite());
    assert(slot.counts.dom() =~= counts.dom().insert(key));
    let after = recorded(slots, now, key);
    assert(after[cut] == slot);
    assert forall|i: int| 0 <= i < after.len() implies {
        &&& (#[trigger] after[i]).counts.dom().finite()
        &&& after[i].counts.dom().len() > 0
        &&& forall|k: K| after[i].counts.contains_key(k) ==> after[i].counts[k] >= 1
    } by {
        if i != cut {
            if cut < slots.len() && slots[cut].time == now {
                assert(after[i] == slots[i]);
            } else if i < cut {
                assert(after[i] == slots[i]);
            } else {
                assert(after[i] == slots[i - 1]);
            }
        }
    }
}

/// Expiry keeps slots well formed.
pub proof fn lemma_retained_well_formed<K>(slots: Seq<Slot<K>>, cutoff: int)
    requires
        well_formed(slots),
    ensures
        well_formed(retained(slots, cutoff)),
{
    let cut = lemma_cut(slots, cutoff);
    lemma_retained_back(slots, cut, cutoff);
    let kept = slots.skip(cut);
    assert forall|i: int| 0 <= i < kept.len() implies {
        &&& (#[trigger] kept[i]).counts.dom().finite()
        &&& kept[i].counts.dom().len() > 0
        &&& forall|k: K| kept[i].counts.contains_key(k) ==> kept[i].counts[k] >= 1
    } by {
        assert(kept[i] == slots[i + cut]);
    }
}

/// With an interval that is not negative the cutoff is never after the
/// moment it is counted back from.
pub proof fn lemma_cutoff_not_after(now: int, interval: int)
    requires
        representable(now),
        interval >= 0,
    ensures
        seconds_before(now, interval) <= now,
        representable(seconds_before(now, interval)),
{
}

/// Where the cutoff is not after the moment of recording, it makes no
/// difference whether expiry comes after the recording or before it.
pub proof fn lemma_retained_recorded<K>(slots: Seq<Slot<K>>, now: int, key: K, cutoff: int)
    requires
        ascending(slots),
        cutoff <= now,
    ensures
        retained(recorded(slots, now, key), cutoff) == recorded(retained(slots, cutoff), now, key),
{
    let q = lemma_cut(slots, cutoff);
    let p = lemma_cut(slots, now);
    if q > p {
        assert(slots[p].time >= now);
        assert(slots[p].time < cutoff);
    }
    lemma_recorded_place(slots, p, now, key);
    lemma_retained_back(slots, q, cutoff);
    let both = recorded(slots, now, key);
    let kept = slots.skip(q);
    assert forall|i: int, j: int| 0 <= i < j < kept.len() implies kept[i].time < kept[j].time by {
        assert(slots[i + q].time < slots[j + q].time);
    }
    assert forall|j: int| 0 <= j < p - q implies (#[trigger] kept[j]).time < now by {
        assert(slots[j + q].time < now);
    }
    assert forall|j: int| p - q <= j < kept.len() implies (#[trigger] kept[j]).time >= now by {
        assert(slots[j + q].time >= now);
    }
    lemma_recorded_place(kept, p - q, now, key);
    if p < slots.len() && slots[p].time == now {
        let slot = Slot { time: now, counts: bumped(slots[p].counts, key) };
        assert(kept[p - q] == slots[p]);
        assert forall|j: int| 0 <= j < q implies (#[trigger] both[j]).time < cutoff by {
            assert(slots[j].time < cutoff);
        }
        assert forall|j: int| q <= j < both.len() implies (#[trigger] both[j]).time >= cutoff by {
            if j != p {
                assert(slots[j].time >= cutoff);
            }
        }
        lemma_retained_back(both, q, cutoff);
        assert(both.skip(q) =~= kept.update(p - q, slot));
    } else {
        let slot = Slot { time: now, counts: bumped(Map::<K, nat>::empty(), key) };
        assert forall|j: int| 0 <= j < q implies (#[trigger] both[j]).time < cutoff by {
            assert(slots[j].time < cutoff);
        }
        assert forall|j: int| q <= j < both.len() implies (#[trigger] both[j]).time >= cutoff by {
            if j < p {
                assert(slots[j].time >= cutoff);
            } else if j > p {
                assert(slots[j - 1].time >= cutoff);
            }
        }
        lemma_retained_back(both, q, cutoff);
        assert(both.skip(q) =~= kept.insert(p - q, slot));
    }
}

/// Where the cutoff is after the moment of recording, what was recorded
/// expires at once.
pub proof fn lemma_retained_drops_recorded<K>(slots: Seq<Slot<K>>, now: int, key: K, cutoff: int)
    requires
        ascending(slots),
        cutoff > now,
    ensures
        retained(recorded(slots, now, key), cutoff) == retained(slots, cutoff),
{
    let q = lemma_cut(slots, cutoff);
    let p = lemma_cut(slots, now);
    if p > q {
        assert(slots[q].time >= cutoff);
        assert(slots[q].time < now);
    }
    lemma_recorded_place(slots, p, now, key);
    lemma_retained_back(slots, q, cutoff);
    let both = recorded(slots, now, key);
    if p < slots.len() && slots[p].time == now {
        assert(p < q);
        assert forall|j: int| 0 <= j < q implies (#[trigger] both[j]).time < cutoff by {
            if j != p {
                assert(slots[j].time < cutoff);
            }
        }
        assert forall|j: int| q <= j < both.len() implies (#[trigger] both[j]).time >= cutoff by {
            assert(slots[j].time >= cutoff);
        }
        lemma_retained_back(both, q, cutoff);
        assert(both.skip(q) =~= slots.skip(q));
    } else {
        assert forall|j: int| 0 <= j < q + 1 implies (#[trigger] both[j]).time < cutoff by {
            if j < p {
                assert(slots[j].time < cutoff);
            } else if j > p {
                assert(slots[j - 1].time < cutoff);
            }
        }
        assert forall|j: int| q + 1 <= j < both.len() implies (#[trigger] both[j]).time
            >= cutoff by {
            assert(slots[j - 1].time >= cutoff);
        }
        lemma_retained_back(both, q + 1, cutoff);
        assert(both.skip(q + 1) =~= slots.skip(q));
    }
}

/// Expiry at one cutoff after expiry at another is expiry at the later of the
/// two.
pub proof fn lemma_retained_twice<K>(slots: Seq<Slot<K>>, first: int, second: int)
    requires
        ascending(slots),
    ensures
        retained(retained(slots, first), second) == retained(
            slots,
            if first >= second {
                first
            } else {
                second
            },
        ),
{
    let later = if first >= second {
        first
    } else {
        second
    };
    let a = lemma_cut(slots, first);
    let b = lemma_cut(slots, later);
    if a > b {
        assert(slots[b].time >= later);
        assert(slots[b].time < first);
    }
    lemma_retained_back(slots, a, first);
    lemma_retained_back(slots, b, later);
    let kept = slots.skip(a);
    assert forall|j: int| 0 <= j < b - a implies (#[trigger] kept[j]).time < second by {
        assert(slots[j + a].time < later);
        assert(slots[j + a].time >= first);
    }
    assert forall|j: int| b - a <= j < kept.len() implies (#[trigger] kept[j]).time >= second by {
        assert(slots[j + a].time >= later);
    }
    lemma_retained_back(kept, b - a, second);
    assert(kept.skip(b - a) =~= slots.skip(b));
}

/// A moment has a slot after an insertion exactly if it is not older than the
/// cutoff and either is the moment of the insertion or had a slot before.
pub proof fn lemma_inserted_slots<K>(
    slots: Seq<Slot<K>>,
    now: int,
    key: K,
    interval: int,
    time: int,
)
    requires
        ascending(slots),
    ensures
        has_slot(inserted(slots, now, key, interval), time) <==> time >= seconds_before(
            now,
            interval,
        ) && (time == now || has_slot(slots, time)),
{
    let cutoff = seconds_before(now, interval);
    let p = lemma_cut(slots, now);
    lemma_recorded_place(slots, p, now, key);
    let both = recorded(slots, now, key);
    lemma_recorded_ascending(slots, now, key);
    let q = lemma_cut(both, cutoff);
    lemma_retained_back(both, q, cutoff);
    let last = both.skip(q);
    assert(last == inserted(slots, now, key, interval));
    if has_slot(last, time) {
        let i = choose|i: int| 0 <= i < last.len() && (#[trigger] last[i]).time == time;
        assert(both[i + q].time == time);
        if time != now {
            if p < slots.len() && slots[p].time == now {
                assert(slots[i + q].time == time);
            } else if i + q < p {
                assert(slots[i + q].time == time);
            } else {
                assert(slots[i + q - 1].time == time);
            }
        }
    }
    if time >= cutoff && (time == now || has_slot(slots, time)) {
        let at: int = if time == now {
            p
        } else {
            let i = choose|i: int| 0 <= i < slots.len() && (#[trigger] slots[i]).time == time;
            if p < slots.len() && slots[p].time == now {
                i
            } else if i < p {
                i
            } else {
                i + 1
            }
        };
        assert(both[at].time == time);
        assert(at >= q);
        assert(last[at - q].time == time);
    }
}

} // verus!
