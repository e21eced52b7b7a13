//! One counter for each category of events that a node tracks.

use crate::model::{hits, inserted, valid, Slot};
use crate::timestamp::representable;
use crate::window::WindowedFrequencyMap;
use std::hash::Hash;
use vstd::prelude::*;
use vstd::std_specs::hash::obeys_key_model;

verus! {

/// What a cache holds: the slots of each of its counters.
#[verifier::reject_recursive_types(A)]
#[verifier::reject_recursive_types(S)]
#[verifier::reject_recursive_types(C)]
#[verifier::reject_recursive_types(T)]
pub struct CacheView<A, S, C, T> {
    pub inbound_connections: Seq<Slot<A>>,
    pub inbound_events: Seq<Slot<S>>,
    pub inbound_certificates: Seq<Slot<C>>,
    pub inbound_transmissions: Seq<Slot<T>>,
    pub outbound_events: Seq<Slot<S>>,
    pub outbound_certificates: Seq<Slot<S>>,
    pub outbound_transmissions: Seq<Slot<S>>,
}

/// The counters of a node, one for each category of events: `A` is the type
/// of a peer's address, `S` that of a peer's socket endpoint, `C` that of a
/// certificate identifier and `T` that of a transmission identifier.
#[derive(Debug)]
pub struct Cache<A, S, C, T> {
    /// The connection attempts by peers, by time.
    seen_inbound_connections: WindowedFrequencyMap<A>,
    /// The events received from peers, by time.
    seen_inbound_events: WindowedFrequencyMap<S>,
    /// The sightings of certificate identifiers, by time.
    seen_inbound_certificates: WindowedFrequencyMap<C>,
    /// The sightings of transmission identifiers, by time.
    seen_inbound_transmissions: WindowedFrequencyMap<T>,
    /// The events sent to peers, by time.
    seen_outbound_events: WindowedFrequencyMap<S>,
    /// The certificate requests sent to peers, by time.
    seen_outbound_certificates: WindowedFrequencyMap<S>,
    /// The transmission requests sent to peers, by time.
    seen_outbound_transmissions: WindowedFrequencyMap<S>,
}

impl<A, S, C, T> View for Cache<A, S, C, T> {
    type V = CacheView<A, S, C, T>;

    closed spec fn view(&self) -> CacheView<A, S, C, T> {
        CacheView {
            inbound_connections: self.seen_inbound_connections@,
            inbound_events: self.seen_inbound_events@,
            inbound_certificates: self.seen_inbound_certificates@,
            inbound_transmissions: self.seen_inbound_transmissions@,
            outbound_events: self.seen_outbound_events@,
            outbound_certificates: self.seen_outbound_certificates@,
            outbound_transmissions: self.seen_outbound_transmissions@,
        }
    }
}

impl<A: Copy + Eq + Hash, S: Copy + Eq + Hash, C: Copy + Eq + Hash, T: Copy + Eq + Hash> Cache<
    A,
    S,
    C,
    T,
> {
    /// Whether every counter of the cache is in a consistent state.
    pub open spec fn wf(&self) -> bool {
        &&& valid(self@.inbound_connections)
        &&& valid(self@.inbound_events)
        &&& valid(self@.inbound_certificates)
        &&& valid(self@.inbound_transmissions)
        &&& valid(self@.outbound_events)
        &&& valid(self@.outbound_certificates)
        &&& valid(self@.outbound_transmissions)
    }

    /// A cache in which nothing has been recorded.
    pub fn new() -> (cache: Self)
        ensures
            cache.wf(),
            cache@ == (CacheView::<A, S, C, T> {
                inbound_connections: Seq::empty(),
                inbound_events: Seq::empty(),
                inbound_certificates: Seq::empty(),
                inbound_transmissions: Seq::empty(),
                outbound_events: Seq::empty(),
                outbound_certificates: Seq::empty(),
                outbound_transmissions: Seq::empty(),
            }),
    {
        Cache {
            seen_inbound_connections: WindowedFrequencyMap::new(),
            seen_inbound_events: WindowedFrequencyMap::new(),
            seen_inbound_certificates: WindowedFrequencyMap::new(),
            seen_inbound_transmissions: WindowedFrequencyMap::new(),
            seen_outbound_events: WindowedFrequencyMap::new(),
            seen_outbound_certificates: WindowedFrequencyMap::new(),
            seen_outbound_transmissions: WindowedFrequencyMap::new(),
        }
    }

    /// Records a connection attempt by the peer at `peer_ip`, and returns the
    /// number of its recent attempts.
    ///
    /// What is recent is decided by the wall clock, read once: occurrences
    /// older than `interval_in_secs` seconds are dropped. No other category
    /// is touched.
    pub fn insert_inbound_connection(&mut self, peer_ip: A, interval_in_secs: i64) -> (count: usize)
        requires
            old(self).wf(),
            obeys_key_model::<A>(),
            hits(old(self)@.inbound_connections, peer_ip) < u32::MAX,
        ensures
            final(self).wf(),
            exists|now: int|
                representable(now) && final(self)@ == (CacheView {
                    inbound_connections: #[trigger] inserted(
                        old(self)@.inbound_connections,
                        now,
                        peer_ip,
                        interval_in_secs as int,
                    ),
                    ..old(self)@
                }),
            count == hits(final(self)@.inbound_connections, peer_ip),
            count <= hits(old(self)@.inbound_connections, peer_ip) + 1,
            interval_in_secs >= 0 ==> count >= 1,
    {
        self.seen_inbound_connections.insert_and_count(peer_ip, interval_in_secs)
    }

    /// Records an event received from the peer at `peer_ip`, and returns the
    /// number of its recent events.
    ///
    /// What is recent is decided by the wall clock, read once: occurrences
    /// older than `interval_in_secs` seconds are dropped. No other category
    /// is touched.
    pub fn insert_inbound_event(&mut self, peer_ip: S, interval_in_secs: i64) -> (count: usize)
        requires
            old(self).wf(),
            obeys_key_model::<S>(),
            hits(old(self)@.inbound_events, peer_ip) < u32::MAX,
        ensures
            final(self).wf(),
            exists|now: int|
                representable(now) && final(self)@ == (CacheView {
                    inbound_events: #[trigger] inserted(
                        old(self)@.inbound_events,
                        now,
                        peer_ip,
                        interval_in_secs as int,
                    ),
                    ..old(self)@
                }),
            count == hits(final(self)@.inbound_events, peer_ip),
            count <= hits(old(self)@.inbound_events, peer_ip) + 1,
            interval_in_secs >= 0 ==> count >= 1,
    {
        self.seen_inbound_events.insert_and_count(peer_ip, interval_in_secs)
    }

    /// Records a sighting of the certificate identifier `key`, and returns the
    /// number of its recent sightings.
    ///
    /// What is recent is decided by the wall clock, read once: occurrences
    /// older than `interval_in_secs` seconds are dropped. No other category
    /// is touched.
    pub fn insert_inbound_certificate(&mut self, key: C, interval_in_secs: i64) -> (count: usize)
        requires
            old(self).wf(),
            obeys_key_model::<C>(),
            hits(old(self)@.inbound_certificates, key) < u32::MAX,
        ensures
            final(self).wf(),
            exists|now: int|
                representable(now) && final(self)@ == (CacheView {
                    inbound_certificates: #[trigger] inserted(
                        old(self)@.inbound_certificates,
                        now,
                        key,
                        interval_in_secs as int,
                    ),
                    ..old(self)@
                }),
            count == hits(final(self)@.inbound_certificates, key),
            count <= hits(old(self)@.inbound_certificates, key) + 1,
            interval_in_secs >= 0 ==> count >= 1,
    {
        self.seen_inbound_certificates.insert_and_count(key, interval_in_secs)
    }

    /// Records a sighting of the transmission identifier `key`, and returns the
    /// number of its recent sightings.
    ///
    /// What is recent is decided by the wall clock, read once: occurrences
    /// older than `interval_in_secs` seconds are dropped. No other category
    /// is touched.
    pub fn insert_inbound_transmission(&mut self, key: T, interval_in_secs: i64) -> (count: usize)
        requires
            old(self).wf(),
            obeys_key_model::<T>(),
            hits(old(self)@.inbound_transmissions, key) < u32::MAX,
        ensures
            final(self).wf(),
            exists|now: int|
                representable(now) && final(self)@ == (CacheView {
                    inbound_transmissions: #[trigger] inserted(
                        old(self)@.inbound_transmissions,
                        now,
                        key,
                        interval_in_secs as int,
                    ),
                    ..old(self)@
                }),
            count == hits(final(self)@.inbound_transmissions, key),
            count <= hits(old(self)@.inbound_transmissions, key) + 1,
            interval_in_secs >= 0 ==> count >= 1,
    {
        self.seen_inbound_transmissions.insert_and_count(key, interval_in_secs)
    }

    /// Records an event sent to the peer at `peer_ip`, and returns the number
    /// of recent events sent to it.
    ///
    /// What is recent is decided by the wall clock, read once: occurrences
    /// older than `interval_in_secs` seconds are dropped. No other category
    /// is touched.
    pub fn insert_outbound_event(&mut self, peer_ip: S, interval_in_secs: i64) -> (count: usize)
        requires
            old(self).wf(),
            obeys_key_model::<S>(),
            hits(old(self)@.outbound_events, peer_ip) < u32::MAX,
        ensures
            final(self).wf(),
            exists|now: int|
                representable(now) && final(self)@ == (CacheView {
                    outbound_events: #[trigger] inserted(
                        old(self)@.outbound_events,
                        now,
                        peer_ip,
                        interval_in_secs as int,
                    ),
                    ..old(self)@
                }),
            count == hits(final(self)@.outbound_events, peer_ip),
            count <= hits(old(self)@.outbound_events, peer_ip) + 1,
            interval_in_secs >= 0 ==> count >= 1,
    {
        self.seen_outbound_events.insert_and_count(peer_ip, interval_in_secs)
    }

    /// Records a certificate request sent to the peer at `peer_ip`, and
    /// returns the number of recent requests sent to it.
    ///
    /// What is recent is decided by the wall clock, read once: occurrences
    /// older than `interval_in_secs` seconds are dropped. No other category
    /// is touched.
    pub fn insert_outbound_certificate(&mut self, peer_ip: S, interval_in_secs: i64) -> (count: usize)
        requires
            old(self).wf(),
            obeys_key_model::<S>(),
            hits(old(self)@.outbound_certificates, peer_ip) < u32::MAX,
        ensures
            final(self).wf(),
            exists|now: int|
                representable(now) && final(self)@ == (CacheView {
                    outbound_certificates: #[trigger] inserted(
                        old(self)@.outbound_certificates,
                        now,
                        peer_ip,
                        interval_in_secs as int,
                    ),
                    ..old(self)@
                }),
            count == hits(final(self)@.outbound_certificates, peer_ip),
            count <= hits(old(self)@.outbound_certificates, peer_ip) + 1,
            interval_in_secs >= 0 ==> count >= 1,
    {
        self.seen_outbound_certificates.insert_and_count(peer_ip, interval_in_secs)
    }

    /// Records a transmission request sent to the peer at `peer_ip`, and
    /// returns the number of recent requests sent to it.
    ///
    /// What is recent is decided by the wall clock, read once: occurrences
    /// older than `interval_in_secs` seconds are dropped. No other category
    /// is touched.
    pub fn insert_outbound_transmission(&mut self, peer_ip: S, interval_in_secs: i64) -> (count: usize)
        requires
            old(self).wf(),
            obeys_key_model::<S>(),
            hits(old(self)@.outbound_transmissions, peer_ip) < u32::MAX,
        ensures
            final(self).wf(),
            exists|now: int|
                representable(now) && final(self)@ == (CacheView {
                    outbound_transmissions: #[trigger] inserted(
                        old(self)@.outbound_transmissions,
                        now,
                        peer_ip,
                        interval_in_secs as int,
                    ),
                    ..old(self)@
                }),
            count == hits(final(self)@.outbound_transmissions, peer_ip),
            count <= hits(old(self)@.outbound_transmissions, peer_ip) + 1,
            interval_in_secs >= 0 ==> count >= 1,
    {
        self.seen_outbound_transmissions.insert_and_count(peer_ip, interval_in_secs)
    }

    /// The counter of the connection attempts by peers.
    pub fn seen_inbound_connections(&self) -> (map: &WindowedFrequencyMap<A>)
        ensures
            map@ == self@.inbound_connections,
    {
        &self.seen_inbound_connections
    }

    /// The counter of the events received from peers.
    pub fn seen_inbound_events(&self) -> (map: &WindowedFrequencyMap<S>)
        ensures
            map@ == self@.inbound_events,
    {
        &self.seen_inbound_events
    }

    /// The counter of the sightings of certificate identifiers.
    pub fn seen_inbound_certificates(&self) -> (map: &WindowedFrequencyMap<C>)
        ensures
            map@ == self@.inbound_certificates,
    {
        &self.seen_inbound_certificates
    }

    /// The counter of the sightings of transmission identifiers.
    pub fn seen_inbound_transmissions(&self) -> (map: &WindowedFrequencyMap<T>)
        ensures
            map@ == self@.inbound_transmissions,
    {
        &self.seen_inbound_transmissions
    }

    /// The counter of the events sent to peers.
    pub fn seen_outbound_events(&self) -> (map: &WindowedFrequencyMap<S>)
        ensures
            map@ == self@.outbound_events,
    {
        &self.seen_outbound_events
    }

    /// The counter of the certificate requests sent to peers.
    pub fn seen_outbound_certificates(&self) -> (map: &WindowedFrequencyMap<S>)
        ensures
            map@ == self@.outbound_certificates,
    {
        &self.seen_outbound_certificates
    }

    /// The counter of the transmission requests sent to peers.
    pub fn seen_outbound_transmissions(&self) -> (map: &WindowedFrequencyMap<S>)
        ensures
            map@ == self@.outbound_transmissions,
    {
        &self.seen_outbound_transmissions
    }
}

impl<A: Copy + Eq + Hash, S: Copy + Eq + Hash, C: Copy + Eq + Hash, T: Copy + Eq + Hash> Default for Cache<
    A,
    S,
    C,
    T,
> {
    /// A cache in which nothing has been recorded.
    fn default() -> (cache: Self)
        ensures
            cache.wf(),
            cache@ == (CacheView::<A, S, C, T> {
                inbound_connections: Seq::empty(),
                inbound_events: Seq::empty(),
                inbound_certificates: Seq::empty(),
                inbound_transmissions: Seq::empty(),
                outbound_events: Seq::empty(),
                outbound_certificates: Seq::empty(),
                outbound_transmissions: Seq::empty(),
            }),
    {
        Cache::new()
    }
}

} // verus!
