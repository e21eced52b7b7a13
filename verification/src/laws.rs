//! What holds of a counter across recordings: the count that an insertion
//! reports, runs of insertions, expiry, and keys that do not disturb each
//! other.

use crate::model::{
    ascending, has_slot, hits, inserted, lemma_cutoff_not_after, lemma_inserted_slots,
    lemma_recorded_hits, lemma_recorded_place, lemma_recorded_well_formed, lemma_retained_ascending, lemma_retained_back,
    lemma_retained_drops_recorded, lemma_retained_hits, lemma_retained_recorded,
    lemma_retained_twice, lemma_retained_well_formed, recorded, retained, well_formed, Slot,
};
use crate::timestamp::{representable, seconds_before};
use vstd::prelude::*;

verus! {

/// One insertion: the moment at which it is made, the key it records and the
/// length of its window in seconds.
pub struct Call<K> {
    pub now: int,
    pub key: K,
    pub interval: int,
}

/// The cutoff of an insertion: the moment before which everything expires.
pub open spec fn cutoff_of<K>(call: Call<K>) -> int {
    seconds_before(call.now, call.interval)
}

/// `slots` after the insertions `calls` have been made one after the other.
pub open spec fn replayed<K>(slots: Seq<Slot<K>>, calls: Seq<Call<K>>) -> Seq<Slot<K>>
    decreases calls.len(),
{
    if calls.len() == 0 {
        slots
    } else {
        let call = calls.last();
        inserted(replayed(slots, calls.drop_last()), call.now, call.key, call.interval)
    }
}

/// The moments that have a slot in `slots`.
pub open spec fn timestamps<K>(slots: Seq<Slot<K>>) -> Set<int> {
    Set::new(|time: int| has_slot(slots, time))
}

/// An insertion keeps slots well formed.
pub proof fn law_inserted_well_formed<K>(slots: Seq<Slot<K>>, now: int, key: K, interval: int)
    requires
        well_formed(slots),
    ensures
        well_formed(inserted(slots, now, key, interval)),
{
    lemma_recorded_well_formed(slots, now, key);
    lemma_retained_well_formed(recorded(slots, now, key), seconds_before(now, interval));
}

/// The count that an insertion reports for its key is the number of
/// occurrences of the key that were recorded at or after the cutoff, and one
/// more for the new occurrence unless the cutoff lies after the moment of the
/// insertion itself.
pub proof fn law_inserted_count<K>(slots: Seq<Slot<K>>, now: int, key: K, interval: int)
    requires
        ascending(slots),
    ensures
        hits(inserted(slots, now, key, interval), key) == hits(
            retained(slots, seconds_before(now, interval)),
            key,
        ) + if seconds_before(now, interval) <= now {
            1nat
        } else {
            0nat
        },
{
    let cutoff = seconds_before(now, interval);
    if cutoff <= now {
        lemma_retained_recorded(slots, now, key, cutoff);
        lemma_retained_ascending(slots, cutoff);
        lemma_recorded_hits(retained(slots, cutoff), now, key, key);
    } else {
        lemma_retained_drops_recorded(slots, now, key, cutoff);
    }
}

/// The count that an insertion leaves for any other key is the number of
/// occurrences of that key that were recorded at or after the cutoff.
pub proof fn law_inserted_count_of_other<K>(
    slots: Seq<Slot<K>>,
    now: int,
    key: K,
    interval: int,
    other: K,
)
    requires
        ascending(slots),
        other != key,
    ensures
        hits(inserted(slots, now, key, interval), other) == hits(
            retained(slots, seconds_before(now, interval)),
            other,
        ),
{
    let cutoff = seconds_before(now, interval);
    if cutoff <= now {
        lemma_retained_recorded(slots, now, key, cutoff);
        lemma_retained_ascending(slots, cutoff);
        lemma_recorded_hits(retained(slots, cutoff), now, key, other);
    } else {
        lemma_retained_drops_recorded(slots, now, key, cutoff);
    }
}

/// An insertion with an interval that is not negative counts at least the new
/// occurrence, and never more than what was recorded before and the new
/// occurrence together.
pub proof fn law_inserted_count_bounds<K>(slots: Seq<Slot<K>>, now: int, key: K, interval: int)
    requires
        ascending(slots),
        representable(now),
    ensures
        hits(inserted(slots, now, key, interval), key) <= hits(slots, key) + 1,
        interval >= 0 ==> hits(inserted(slots, now, key, interval), key) >= 1,
{
    law_inserted_count(slots, now, key, interval);
    lemma_retained_hits(slots, seconds_before(now, interval), key);
    if interval >= 0 {
        lemma_cutoff_not_after(now, interval);
    }
}

/// The first insertion of a key, with an interval that is not negative,
/// reports the count one.
pub proof fn law_first_insert_counts_one<K>(slots: Seq<Slot<K>>, now: int, key: K, interval: int)
    requires
        ascending(slots),
        hits(slots, key) == 0,
        representable(now),
        interval >= 0,
    ensures
        hits(inserted(slots, now, key, interval), key) == 1,
{
    law_inserted_count_bounds(slots, now, key, interval);
}

/// Insertions keep slots well formed.
pub proof fn law_replayed_well_formed<K>(slots: Seq<Slot<K>>, calls: Seq<Call<K>>)
    requires
        well_formed(slots),
    ensures
        well_formed(replayed(slots, calls)),
    decreases calls.len(),
{
    if calls.len() > 0 {
        let call = calls.last();
        law_replayed_well_formed(slots, calls.drop_last());
        law_inserted_well_formed(
            replayed(slots, calls.drop_last()),
            call.now,
            call.key,
            call.interval,
        );
    }
}

/// Whatever moment has a slot after a run of insertions had one before the
/// run or is the moment of one of the insertions.
pub proof fn law_replayed_slots<K>(slots: Seq<Slot<K>>, calls: Seq<Call<K>>, time: int)
    requires
        well_formed(slots),
        has_slot(replayed(slots, calls), time),
    ensures
        has_slot(slots, time) || exists|j: int|
            0 <= j < calls.len() && (#[trigger] calls[j]).now == time,
    decreases calls.len(),
{
    if calls.len() > 0 {
        let call = calls.last();
        let front = calls.drop_last();
        law_replayed_well_formed(slots, front);
        lemma_inserted_slots(replayed(slots, front), call.now, call.key, call.interval, time);
        if time == call.now {
            assert(calls[calls.len() - 1].now == time);
        } else {
            law_replayed_slots(slots, front, time);
            if !has_slot(slots, time) {
                let j = choose|j: int| 0 <= j < front.len() && (#[trigger] front[j]).now == time;
                assert(calls[j].now == time);
            }
        }
    }
}

/// Whether `calls` is a run of insertions of `key` with the window
/// `interval`, made in such quick succession that each of them still lies in
/// the window of every later one.
pub open spec fn back_to_back<K>(calls: Seq<Call<K>>, key: K, interval: int) -> bool {
    &&& interval >= 0
    &&& forall|i: int|
        0 <= i < calls.len() ==> {
            &&& (#[trigger] calls[i]).key == key
            &&& calls[i].interval == interval
            &&& representable(calls[i].now)
        }
    &&& forall|i: int, j: int|
        0 <= i <= j < calls.len() ==> cutoff_of(#[trigger] calls[j]) <= (#[trigger] calls[i]).now
}

/// After a run of insertions in quick succession, every occurrence that the
/// run recorded lies at or after any moment that is not later than the
/// insertions themselves.
proof fn lemma_back_to_back_window<K>(
    slots: Seq<Slot<K>>,
    calls: Seq<Call<K>>,
    key: K,
    interval: int,
    time: int,
)
    requires
        well_formed(slots),
        hits(slots, key) == 0,
        back_to_back(calls, key, interval),
        forall|j: int| 0 <= j < calls.len() ==> time <= (#[trigger] calls[j]).now,
    ensures
        hits(retained(replayed(slots, calls), time), key) == calls.len(),
    decreases calls.len(),
{
    if calls.len() == 0 {
        lemma_retained_hits(slots, time, key);
    } else {
        let call = calls.last();
        let front = calls.drop_last();
        let before = replayed(slots, front);
        let cutoff = cutoff_of(call);
        let later = if cutoff >= time {
            cutoff
        } else {
            time
        };
        assert(call == calls[calls.len() - 1]);
        law_replayed_well_formed(slots, front);
        lemma_recorded_well_formed(before, call.now, key);
        lemma_retained_twice(recorded(before, call.now, key), cutoff, time);
        lemma_cutoff_not_after(call.now, interval);
        lemma_retained_recorded(before, call.now, key, later);
        lemma_retained_well_formed(before, later);
        lemma_recorded_hits(retained(before, later), call.now, key, key);
        assert forall|j: int| 0 <= j < front.len() implies later <= (#[trigger] front[j]).now by {
            assert(front[j] == calls[j]);
            assert(cutoff_of(calls[calls.len() - 1]) <= calls[j].now);
        }
        assert(back_to_back(front, key, interval)) by {
            assert forall|i: int, j: int| 0 <= i <= j < front.len() implies cutoff_of(
                #[trigger] front[j],
            ) <= (#[trigger] front[i]).now by {
                assert(cutoff_of(calls[j]) <= calls[i].now);
            }
            assert forall|i: int| 0 <= i < front.len() implies {
                &&& (#[trigger] front[i]).key == key
                &&& front[i].interval == interval
                &&& representable(front[i].now)
            } by {
                assert(front[i] == calls[i]);
            }
        }
        lemma_back_to_back_window(slots, front, key, interval, later);
    }
}

/// In a run of insertions of a key that has not been seen before, made in
/// quick succession, the insertion in place `n` of the run reports the count
/// `n`.
pub proof fn law_back_to_back_counts<K>(
    slots: Seq<Slot<K>>,
    calls: Seq<Call<K>>,
    key: K,
    interval: int,
    n: int,
)
    requires
        well_formed(slots),
        hits(slots, key) == 0,
        back_to_back(calls, key, interval),
        1 <= n <= calls.len(),
    ensures
        hits(replayed(slots, calls.take(n)), key) == n,
{
    let run = calls.take(n);
    let call = run.last();
    let front = run.drop_last();
    assert(call == calls[n - 1]);
    assert(back_to_back(front, key, interval)) by {
        assert forall|i: int, j: int| 0 <= i <= j < front.len() implies cutoff_of(
            #[trigger] front[j],
        ) <= (#[trigger] front[i]).now by {
            assert(cutoff_of(calls[j]) <= calls[i].now);
        }
        assert forall|i: int| 0 <= i < front.len() implies {
            &&& (#[trigger] front[i]).key == key
            &&& front[i].interval == interval
            &&& representable(front[i].now)
        } by {
            assert(front[i] == calls[i]);
        }
    }
    assert forall|j: int| 0 <= j < front.len() implies cutoff_of(call) <= (#[trigger] front[j]).now by {
        assert(front[j] == calls[j]);
        assert(cutoff_of(calls[n - 1]) <= calls[j].now);
    }
    lemma_back_to_back_window(slots, front, key, interval, cutoff_of(call));
    law_replayed_well_formed(slots, front);
    lemma_cutoff_not_after(call.now, interval);
    law_inserted_count(replayed(slots, front), call.now, key, interval);
}

/// Once everything that was recorded has expired, an insertion reports the
/// count one again and leaves a single slot: after a run of insertions, an
/// insertion whose cutoff lies after all of them, and after all that was
/// held before them, counts only itself.
pub proof fn law_expired_run_counts_one<K>(
    slots: Seq<Slot<K>>,
    calls: Seq<Call<K>>,
    now: int,
    key: K,
    interval: int,
)
    requires
        well_formed(slots),
        representable(now),
        interval >= 0,
        forall|i: int|
            0 <= i < slots.len() ==> (#[trigger] slots[i]).time < seconds_before(now, interval),
        forall|j: int|
            0 <= j < calls.len() ==> (#[trigger] calls[j]).now < seconds_before(now, interval),
    ensures
        hits(inserted(replayed(slots, calls), now, key, interval), key) == 1,
        inserted(replayed(slots, calls), now, key, interval).len() == 1,
{
    let cutoff = seconds_before(now, interval);
    let before = replayed(slots, calls);
    law_replayed_well_formed(slots, calls);
    assert forall|i: int| 0 <= i < before.len() implies (#[trigger] before[i]).time < cutoff by {
        let time = before[i].time;
        assert(has_slot(before, time));
        law_replayed_slots(slots, calls, time);
        if has_slot(slots, time) {
            let k = choose|k: int| 0 <= k < slots.len() && (#[trigger] slots[k]).time == time;
            assert(slots[k].time < cutoff);
        } else {
            let j = choose|j: int| 0 <= j < calls.len() && (#[trigger] calls[j]).now == time;
            assert(calls[j].now < cutoff);
        }
    }
    lemma_retained_back(before, before.len() as int, cutoff);
    lemma_cutoff_not_after(now, interval);
    lemma_retained_recorded(before, now, key, cutoff);
    let none = before.skip(before.len() as int);
    assert(none =~= Seq::<Slot<K>>::empty());
    lemma_recorded_place(none, 0, now, key);
    law_inserted_count(before, now, key, interval);
}

/// Keys do not disturb each other: an insertion of one key leaves the count
/// that a following insertion of another key reports as it would have been
/// without it, unless the first insertion has expired occurrences of the
/// other key that the window of the second still reaches.
pub proof fn law_keys_are_isolated<K>(
    slots: Seq<Slot<K>>,
    first: Call<K>,
    second: Call<K>,
)
    requires
        well_formed(slots),
        first.key != second.key,
        cutoff_of(first) > cutoff_of(second) ==> hits(
            retained(slots, cutoff_of(first)),
            second.key,
        ) == hits(retained(slots, cutoff_of(second)), second.key),
    ensures
        hits(
            inserted(
                inserted(slots, first.now, first.key, first.interval),
                second.now,
                second.key,
                second.interval,
            ),
            second.key,
        ) == hits(inserted(slots, second.now, second.key, second.interval), second.key),
{
    let between = inserted(slots, first.now, first.key, first.interval);
    let later = if cutoff_of(first) >= cutoff_of(second) {
        cutoff_of(first)
    } else {
        cutoff_of(second)
    };
    law_inserted_well_formed(slots, first.now, first.key, first.interval);
    law_inserted_count(between, second.now, second.key, second.interval);
    law_inserted_count(slots, second.now, second.key, second.interval);
    lemma_recorded_well_formed(slots, first.now, first.key);
    let both = recorded(slots, first.now, first.key);
    lemma_retained_twice(both, cutoff_of(first), cutoff_of(second));
    if later <= first.now {
        lemma_retained_recorded(slots, first.now, first.key, later);
        lemma_retained_well_formed(slots, later);
        lemma_recorded_hits(retained(slots, later), first.now, first.key, second.key);
    } else {
        lemma_retained_drops_recorded(slots, first.now, first.key, later);
    }
}

/// Ascending slots stand for as many moments as there are slots.
pub proof fn lemma_timestamps_len<K>(slots: Seq<Slot<K>>)
    requires
        ascending(slots),
    ensures
        timestamps(slots).finite(),
        timestamps(slots).len() == slots.len(),
    decreases slots.len(),
{
    if slots.len() == 0 {
        assert(timestamps(slots) =~= Set::<int>::empty());
    } else {
        let front = slots.drop_last();
        let last = slots.last();
        lemma_timestamps_len(front);
        assert(!timestamps(front).contains(last.time)) by {
            if has_slot(front, last.time) {
                let i = choose|i: int| 0 <= i < front.len() && (#[trigger] front[i]).time == last.time;
                assert(slots[i].time < slots[slots.len() - 1].time);
            }
        }
        assert(timestamps(slots) =~= timestamps(front).insert(last.time)) by {
            assert forall|time: int| timestamps(slots).contains(time) <==> timestamps(
                front,
            ).insert(last.time).contains(time) by {
                if has_slot(slots, time) {
                    let i = choose|i: int| 0 <= i < slots.len() && (#[trigger] slots[i]).time == time;
                    if i < front.len() {
                        assert(front[i].time == time);
                    }
                }
                if has_slot(front, time) {
                    let i = choose|i: int| 0 <= i < front.len() && (#[trigger] front[i]).time == time;
                    assert(slots[i].time == time);
                }
                if time == last.time {
                    assert(slots[slots.len() - 1].time == time);
                }
            }
        }
    }
}

/// Whether the occurrence that the insertion in place `j` of `calls` records
/// is still held after the whole run: its moment is not older than the cutoff
/// of that insertion or of any later one.
pub open spec fn outlives<K>(calls: Seq<Call<K>>, j: int) -> bool {
    forall|i: int| j <= i < calls.len() ==> calls[j].now >= cutoff_of(#[trigger] calls[i])
}

/// Whether some insertion of `calls` was made at `time` and records an
/// occurrence that is still held after the whole run.
pub open spec fn live_at<K>(calls: Seq<Call<K>>, time: int) -> bool {
    exists|j: int| 0 <= j < calls.len() && (#[trigger] calls[j]).now == time && outlives(calls, j)
}

/// After a run of insertions into an empty counter, a moment has a slot
/// exactly if an insertion was made at it whose occurrence has not expired.
pub proof fn law_slots_are_live<K>(calls: Seq<Call<K>>, time: int)
    ensures
        has_slot(replayed(Seq::<Slot<K>>::empty(), calls), time) <==> live_at(calls, time),
    decreases calls.len(),
{
    let start = Seq::<Slot<K>>::empty();
    if calls.len() == 0 {
    } else {
        let call = calls.last();
        let front = calls.drop_last();
        let before = replayed(start, front);
        let n = calls.len() - 1;
        assert(call == calls[n]);
        law_replayed_well_formed(start, front);
        lemma_inserted_slots(before, call.now, call.key, call.interval, time);
        law_slots_are_live(front, time);
        if has_slot(replayed(start, calls), time) {
            if time == call.now {
                assert(outlives(calls, n));
            } else {
                let j = choose|j: int|
                    0 <= j < front.len() && (#[trigger] front[j]).now == time && outlives(front, j);
                assert(front[j] == calls[j]);
                assert forall|i: int| j <= i < calls.len() implies calls[j].now >= cutoff_of(
                    #[trigger] calls[i],
                ) by {
                    if i < n {
                        assert(front[i] == calls[i]);
                        assert(front[j].now >= cutoff_of(front[i]));
                    }
                }
                assert(calls[j].now == time && outlives(calls, j));
            }
        }
        if live_at(calls, time) {
            let j = choose|j: int|
                0 <= j < calls.len() && (#[trigger] calls[j]).now == time && outlives(calls, j);
            assert(calls[j].now >= cutoff_of(calls[n]));
            if j < n {
                assert(front[j] == calls[j]);
                assert forall|i: int| j <= i < front.len() implies front[j].now >= cutoff_of(
                    #[trigger] front[i],
                ) by {
                    assert(front[i] == calls[i]);
                    assert(calls[j].now >= cutoff_of(calls[i]));
                }
                assert(front[j].now == time && outlives(front, j));
            }
        }
    }
}

/// Expired moments leave no slot behind: after a run of insertions into an
/// empty counter, there are as many slots as there are distinct moments at
/// which an insertion was made whose occurrence has not expired, and every
/// slot holds an occurrence.
pub proof fn law_compaction<K>(calls: Seq<Call<K>>)
    ensures
        well_formed(replayed(Seq::<Slot<K>>::empty(), calls)),
        timestamps(replayed(Seq::<Slot<K>>::empty(), calls)) == Set::new(
            |time: int| live_at(calls, time),
        ),
        replayed(Seq::<Slot<K>>::empty(), calls).len() == Set::new(
            |time: int| live_at(calls, time),
        ).len(),
{
    let after = replayed(Seq::<Slot<K>>::empty(), calls);
    law_replayed_well_formed(Seq::<Slot<K>>::empty(), calls);
    lemma_timestamps_len(after);
    assert(timestamps(after) =~= Set::new(|time: int| live_at(calls, time))) by {
        assert forall|time: int| has_slot(after, time) <==> live_at(calls, time) by {
            law_slots_are_live(calls, time);
        }
    }
}

} // verus!
