//! The counter for one category of events: an ordered collection of time
//! buckets, each of which holds how often every key was seen at one moment.

use crate::model::{
    bumped, hits, lemma_cut, lemma_hits_bound_slot, lemma_hits_split, lemma_recorded_hits,
    lemma_recorded_place, lemma_recorded_well_formed, lemma_retained_back, lemma_retained_hits,
    lemma_retained_well_formed, occurrences, inserted, recorded, retained, valid, Slot,
};
use crate::laws::{law_inserted_count, law_inserted_count_bounds, law_inserted_count_of_other};
use crate::timestamp::{representable, seconds_before, Timestamp};
use std::collections::HashMap;
use std::hash::Hash;
use vstd::prelude::*;
use vstd::std_specs::hash::obeys_key_model;

verus! {

/// One time bucket: a moment and the number of times each key was seen at it.
#[derive(Debug)]
pub struct TimeBucket<K> {
    time: Timestamp,
    counts: HashMap<K, u32>,
}

impl<K> View for TimeBucket<K> {
    type V = Slot<K>;

    closed spec fn view(&self) -> Slot<K> {
        Slot { time: self.time@, counts: self.counts@.map_values(|count: u32| count as nat) }
    }
}

impl<K: Copy + Eq + Hash> TimeBucket<K> {
    /// A bucket for `time` in which `key` was seen once.
    fn first(time: Timestamp, key: K) -> (bucket: Self)
        requires
            obeys_key_model::<K>(),
        ensures
            bucket@ == (Slot { time: time@, counts: bumped(Map::empty(), key) }),
    {
        let mut counts: HashMap<K, u32> = HashMap::new();
        counts.insert(key, 1);
        let bucket = TimeBucket { time, counts };
        assert(bucket@.counts =~= bumped(Map::empty(), key));
        bucket
    }

    /// How often `key` was seen at the bucket's moment.
    fn occurrences(&self, key: &K) -> (count: u32)
        requires
            obeys_key_model::<K>(),
        ensures
            count == occurrences(self@.counts, *key),
    {
        match self.counts.get(key) {
            Some(count) => *count,
            None => 0,
        }
    }

    /// Counts `key` once more.
    fn bump(&mut self, key: K)
        requires
            obeys_key_model::<K>(),
            occurrences(old(self)@.counts, key) < u32::MAX,
        ensures
            final(self)@ == (Slot {
                time: old(self)@.time,
                counts: bumped(old(self)@.counts, key),
            }),
    {
        let count = self.occurrences(&key);
        self.counts.insert(key, count + 1);
        assert(self@.counts =~= bumped(old(self)@.counts, key));
    }
}

/// An ordered, time-bucketed multiset of keys.
#[derive(Debug)]
pub struct WindowedFrequencyMap<K> {
    buckets: Vec<TimeBucket<K>>,
}

impl<K> View for WindowedFrequencyMap<K> {
    type V = Seq<Slot<K>>;

    closed spec fn view(&self) -> Seq<Slot<K>> {
        self.buckets@.map_values(|bucket: TimeBucket<K>| bucket@)
    }
}

impl<K: Copy + Eq + Hash> WindowedFrequencyMap<K> {
    /// Whether the map is in a consistent state: its buckets are well formed,
    /// and no key has been counted more often than a counter can hold.
    pub open spec fn wf(&self) -> bool {
        valid(self@)
    }

    /// An empty map.
    pub fn new() -> (map: Self)
        ensures
            map.wf(),
            map@ == Seq::<Slot<K>>::empty(),
    {
        let map = WindowedFrequencyMap { buckets: Vec::new() };
        assert(map@ =~= Seq::<Slot<K>>::empty());
        map
    }

    /// The number of time buckets that the map holds.
    pub fn len(&self) -> (n: usize)
        ensures
            n == self@.len(),
    {
        self.buckets.len()
    }

    /// How often `key` has been seen at the moments that the map still holds.
    pub fn count(&self, key: &K) -> (count: u32)
        requires
            self.wf(),
            obeys_key_model::<K>(),
        ensures
            count == hits(self@, *key),
    {
        let mut count: u32 = 0;
        let mut i: usize = 0;
        while i < self.buckets.len()
            invariant
                i <= self.buckets.len(),
                self.wf(),
                obeys_key_model::<K>(),
                count == hits(self@.take(i as int), *key),
            decreases self.buckets.len() - i,
        {
            let seen = self.buckets[i].occurrences(key);
            proof {
                let front = self@.take(i + 1);
                assert(front.drop_last() =~= self@.take(i as int));
                assert(front.last() == self.buckets[i as int]@);
                lemma_hits_split(self@, i + 1, *key);
            }
            count = count + seen;
            i = i + 1;
        }
        assert(self@.take(i as int) =~= self@);
        count
    }

    /// Counts `key` once more at the moment `now`, in the bucket for that
    /// moment or in a new one at its place in the order.
    fn record(&mut self, now: Timestamp, key: K)
        requires
            old(self).wf(),
            obeys_key_model::<K>(),
            hits(old(self)@, key) < u32::MAX,
        ensures
            final(self).wf(),
            final(self)@ == recorded(old(self)@, now@, key),
    {
        let time = now.unix_nanos();
        let mut cut = self.buckets.len();
        while cut > 0 && self.buckets[cut - 1].time.unix_nanos() >= time
            invariant
                cut <= self.buckets.len(),
                *self == *old(self),
                time == now@,
                forall|j: int| cut <= j < self@.len() ==> (#[trigger] self@[j]).time >= now@,
            decreases cut,
        {
            cut = cut - 1;
        }
        proof {
            assert forall|j: int| 0 <= j < cut implies (#[trigger] self@[j]).time < now@ by {
                if j < cut - 1 {
                    assert(self@[j].time < self@[cut - 1].time);
                }
            }
            lemma_recorded_place(self@, cut as int, now@, key);
            lemma_recorded_well_formed(self@, now@, key);
            assert forall|other: K| hits(recorded(self@, now@, key), other) <= u32::MAX by {
                lemma_recorded_hits(self@, now@, key, other);
            }
        }
        if cut < self.buckets.len() && self.buckets[cut].time.unix_nanos() == time {
            proof {
                lemma_hits_bound_slot(self@, cut as int, key);
            }
            self.buckets[cut].bump(key);
            assert(self@ =~= old(self)@.update(
                cut as int,
                Slot { time: now@, counts: bumped(old(self)@[cut as int].counts, key) },
            ));
        } else {
            let bucket = TimeBucket::first(now, key);
            self.buckets.insert(cut, bucket);
            assert(self@ =~= old(self)@.insert(
                cut as int,
                Slot { time: now@, counts: bumped(Map::empty(), key) },
            ));
        }
    }

    /// Drops every bucket that stands for a moment before `cutoff`.
    fn expire(&mut self, cutoff: Timestamp)
        requires
            old(self).wf(),
        ensures
            final(self).wf(),
            final(self)@ == retained(old(self)@, cutoff@),
    {
        let limit = cutoff.unix_nanos();
        let mut cut: usize = 0;
        while cut < self.buckets.len() && self.buckets[cut].time.unix_nanos() < limit
            invariant
                cut <= self.buckets.len(),
                *self == *old(self),
                limit == cutoff@,
                forall|j: int| 0 <= j < cut ==> (#[trigger] self@[j]).time < cutoff@,
            decreases self.buckets.len() - cut,
        {
            cut = cut + 1;
        }
        proof {
            assert forall|j: int| cut <= j < self@.len() implies (#[trigger] self@[j]).time
                >= cutoff@ by {
                if j > cut {
                    assert(self@[cut as int].time < self@[j].time);
                }
            }
            lemma_retained_back(self@, cut as int, cutoff@);
            lemma_retained_well_formed(self@, cutoff@);
            assert forall|other: K| hits(retained(self@, cutoff@), other) <= u32::MAX by {
                lemma_retained_hits(self@, cutoff@, other);
            }
        }
        let kept = self.buckets.split_off(cut);
        self.buckets = kept;
        assert(self@ =~= old(self)@.skip(cut as int));
    }

    /// Records one occurrence of `key` at the moment `now`, drops what is
    /// older than `interval_in_secs` seconds before `now`, and counts the
    /// occurrences of `key` that are left, the new one included.
    pub fn insert_and_count_at(&mut self, now: Timestamp, key: K, interval_in_secs: i64) -> (count:
        usize)
        requires
            old(self).wf(),
            obeys_key_model::<K>(),
            hits(old(self)@, key) < u32::MAX,
        ensures
            final(self).wf(),
            final(self)@ == inserted(old(self)@, now@, key, interval_in_secs as int),
            forall|i: int|
                0 <= i < final(self)@.len() ==> (#[trigger] final(self)@[i]).time >= seconds_before(
                    now@,
                    interval_in_secs as int,
                ),
            count == hits(final(self)@, key),
            count == hits(retained(old(self)@, seconds_before(now@, interval_in_secs as int)), key)
                + if seconds_before(now@, interval_in_secs as int) <= now@ {
                1nat
            } else {
                0nat
            },
            count <= hits(old(self)@, key) + 1,
            interval_in_secs >= 0 ==> count >= 1,
    {
        self.record(now, key);
        let cutoff = now.saturating_sub_secs(interval_in_secs);
        self.expire(cutoff);
        proof {
            let both = recorded(old(self)@, now@, key);
            let cut = lemma_cut(both, cutoff@);
            lemma_retained_back(both, cut, cutoff@);
            law_inserted_count(old(self)@, now@, key, interval_in_secs as int);
            law_inserted_count_bounds(old(self)@, now@, key, interval_in_secs as int);
        }
        self.count(&key) as usize
    }

    /// Records one occurrence of `key` at the moment that the wall clock
    /// shows, drops what is older than `interval_in_secs` seconds before that
    /// moment, and counts the occurrences of `key` that are left, the new one
    /// included.
    ///
    /// The clock is read once. Whatever it shows, the map ends up as
    /// [`insert_and_count_at`](Self::insert_and_count_at) leaves it for that
    /// moment.
    pub fn insert_and_count(&mut self, key: K, interval_in_secs: i64) -> (count: usize)
        requires
            old(self).wf(),
            obeys_key_model::<K>(),
            hits(old(self)@, key) < u32::MAX,
        ensures
            final(self).wf(),
            exists|now: int|
                representable(now) && final(self)@ == #[trigger] inserted(
                    old(self)@,
                    now,
                    key,
                    interval_in_secs as int,
                ),
            count == hits(final(self)@, key),
            count <= hits(old(self)@, key) + 1,
            interval_in_secs >= 0 ==> count >= 1,
            forall|other: K| other != key ==> hits(final(self)@, other) <= hits(old(self)@, other),
    {
        let now = Timestamp::now();
        let count = self.insert_and_count_at(now, key, interval_in_secs);
        proof {
            law_inserted_count_bounds(old(self)@, now@, key, interval_in_secs as int);
            assert forall|other: K| other != key implies hits(self@, other) <= hits(
                old(self)@,
                other,
            ) by {
                law_inserted_count_of_other(old(self)@, now@, key, interval_in_secs as int, other);
                lemma_retained_hits(
                    old(self)@,
                    seconds_before(now@, interval_in_secs as int),
                    other,
                );
            }
        }
        count
    }

    /// The moments of the time buckets that the map holds, in ascending order.
    pub fn timestamps(&self) -> (moments: Vec<Timestamp>)
        ensures
            moments@.len() == self@.len(),
            forall|i: int| 0 <= i < self@.len() ==> (#[trigger] moments@[i])@ == self@[i].time,
    {
        let mut moments: Vec<Timestamp> = Vec::new();
        let mut i: usize = 0;
        while i < self.buckets.len()
            invariant
                i <= self.buckets.len(),
                moments@.len() == i,
                forall|j: int| 0 <= j < i ==> (#[trigger] moments@[j])@ == self@[j].time,
            decreases self.buckets.len() - i,
        {
            moments.push(self.buckets[i].time);
            i = i + 1;
        }
        moments
    }

    /// Whether the map holds no time bucket.
    pub fn is_empty(&self) -> (empty: bool)
        ensures
            empty <==> self@.len() == 0,
    {
        self.buckets.len() == 0
    }
}

impl<K: Copy + Eq + Hash> Default for WindowedFrequencyMap<K> {
    /// An empty map.
    fn default() -> (map: Self)
        ensures
            map.wf(),
            map@ == Seq::<Slot<K>>::empty(),
    {
        WindowedFrequencyMap::new()
    }
}

} // verus!
