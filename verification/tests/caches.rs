use event_cache::cache::Cache;
use event_cache::timestamp::{Timestamp, NANOS_PER_SECOND};

type Ip = [u8; 4];
type Socket = (Ip, u16);
type Certificate = [u8; 32];
type Transmission = (u8, [u8; 32]);
type TestCache = Cache<Ip, Socket, Certificate, Transmission>;

const INTERVAL_IN_SECS: i64 = 1;

fn ip() -> Ip {
    [127, 0, 0, 1]
}

fn socket() -> Socket {
    ([127, 0, 0, 1], 1234)
}

fn certificate() -> Certificate {
    let mut id = [0u8; 32];
    id[0] = 1;
    id
}

fn transmission() -> Transmission {
    (0, [0u8; 32])
}

fn wait_for(seconds: i64) {
    let until = Timestamp::now().unix_nanos() + seconds as i128 * NANOS_PER_SECOND;
    while Timestamp::now().unix_nanos() < until {
        std::hint::spin_loop();
    }
}

#[test]
fn new_cache_is_empty() {
    let cache = TestCache::new();
    assert!(cache.seen_inbound_connections().is_empty());
    assert!(cache.seen_inbound_events().is_empty());
    assert!(cache.seen_inbound_certificates().is_empty());
    assert!(cache.seen_inbound_transmissions().is_empty());
    assert!(cache.seen_outbound_events().is_empty());
    assert!(cache.seen_outbound_certificates().is_empty());
    assert!(cache.seen_outbound_transmissions().is_empty());
}

#[test]
fn test_seen_inbound_connections() {
    let mut cache = TestCache::default();
    let input = ip();

    // Check that the cache is empty.
    assert!(cache.seen_inbound_connections().is_empty());

    // Insert an input, recent events should be 1.
    assert_eq!(cache.insert_inbound_connection(input, INTERVAL_IN_SECS), 1);
    // Insert an input, recent events should be 2.
    assert_eq!(cache.insert_inbound_connection(input, INTERVAL_IN_SECS), 2);
    // Insert an input, recent events should be 3.
    assert_eq!(cache.insert_inbound_connection(input, INTERVAL_IN_SECS), 3);

    // Check that the cache contains the input for 3 entries.
    assert_eq!(cache.seen_inbound_connections().len(), 3);

    // Wait for the input to expire.
    wait_for(INTERVAL_IN_SECS + 1);

    // Insert an input again, recent events should be 1.
    assert_eq!(cache.insert_inbound_connection(input, INTERVAL_IN_SECS), 1);

    // Check that the cache still contains the input.
    assert_eq!(cache.seen_inbound_connections().count(&input), 1);

    // Check that the cache contains the input and 1 timestamp entry.
    assert_eq!(cache.seen_inbound_connections().len(), 1);
}

#[test]
fn test_seen_inbound_events() {
    let mut cache = TestCache::default();
    let input = socket();

    // Check that the cache is empty.
    assert!(cache.seen_inbound_events().is_empty());

    // Insert an input, recent events should be 1.
    assert_eq!(cache.insert_inbound_event(input, INTERVAL_IN_SECS), 1);
    // Insert an input, recent events should be 2.
    assert_eq!(cache.insert_inbound_event(input, INTERVAL_IN_SECS), 2);
    // Insert an input, recent events should be 3.
    assert_eq!(cache.insert_inbound_event(input, INTERVAL_IN_SECS), 3);

    // Check that the cache contains the input for 3 entries.
    assert_eq!(cache.seen_inbound_events().len(), 3);

    // Wait for the input to expire.
    wait_for(INTERVAL_IN_SECS + 1);

    // Insert an input again, recent events should be 1.
    assert_eq!(cache.insert_inbound_event(input, INTERVAL_IN_SECS), 1);

    // Check that the cache still contains the input.
    assert_eq!(cache.seen_inbound_events().count(&input), 1);

    // Check that the cache contains the input and 1 timestamp entry.
    assert_eq!(cache.seen_inbound_events().len(), 1);
}

#[test]
fn test_seen_inbound_certificates() {
    let mut cache = TestCache::default();
    let input = certificate();

    // Check that the cache is empty.
    assert!(cache.seen_inbound_certificates().is_empty());

    // Insert an input, recent events should be 1.
    assert_eq!(cache.insert_inbound_certificate(input, INTERVAL_IN_SECS), 1);
    // Insert an input, recent events should be 2.
    assert_eq!(cache.insert_inbound_certificate(input, INTERVAL_IN_SECS), 2);
    // Insert an input, recent events should be 3.
    assert_eq!(cache.insert_inbound_certificate(input, INTERVAL_IN_SECS), 3);

    // Check that the cache contains the input for 3 entries.
    assert_eq!(cache.seen_inbound_certificates().len(), 3);

    // Wait for the input to expire.
    wait_for(INTERVAL_IN_SECS + 1);

    // Insert an input again, recent events should be 1.
    assert_eq!(cache.insert_inbound_certificate(input, INTERVAL_IN_SECS), 1);

    // Check that the cache still contains the input.
    assert_eq!(cache.seen_inbound_certificates().count(&input), 1);

    // Check that the cache contains the input and 1 timestamp entry.
    assert_eq!(cache.seen_inbound_certificates().len(), 1);
}

#[test]
fn test_seen_inbound_transmissions() {
    let mut cache = TestCache::default();
    let input = transmission();

    // Check that the cache is empty.
    assert!(cache.seen_inbound_transmissions().is_empty());

    // Insert an input, recent events should be 1.
    assert_eq!(cache.insert_inbound_transmission(input, INTERVAL_IN_SECS), 1);
    // Insert an input, recent events should be 2.
    assert_eq!(cache.insert_inbound_transmission(input, INTERVAL_IN_SECS), 2);
    // Insert an input, recent events should be 3.
    assert_eq!(cache.insert_inbound_transmission(input, INTERVAL_IN_SECS), 3);

    // Check that the cache contains the input for 3 entries.
    assert_eq!(cache.seen_inbound_transmissions().len(), 3);

    // Wait for the input to expire.
    wait_for(INTERVAL_IN_SECS + 1);

    // Insert an input again, recent events should be 1.
    assert_eq!(cache.insert_inbound_transmission(input, INTERVAL_IN_SECS), 1);

    // Check that the cache still contains the input.
    assert_eq!(cache.seen_inbound_transmissions().count(&input), 1);

    // Check that the cache contains the input and 1 timestamp entry.
    assert_eq!(cache.seen_inbound_transmissions().len(), 1);
}

#[test]
fn test_seen_outbound_events() {
    let mut cache = TestCache::default();
    let input = socket();

    // Check that the cache is empty.
    assert!(cache.seen_outbound_events().is_empty());

    // Insert an input, recent events should be 1.
    assert_eq!(cache.insert_outbound_event(input, INTERVAL_IN_SECS), 1);
    // Insert an input, recent events should be 2.
    assert_eq!(cache.insert_outbound_event(input, INTERVAL_IN_SECS), 2);
    // Insert an input, recent events should be 3.
    assert_eq!(cache.insert_outbound_event(input, INTERVAL_IN_SECS), 3);

    // Check that the cache contains the input for 3 entries.
    assert_eq!(cache.seen_outbound_events().len(), 3);

    // Wait for the input to expire.
    wait_for(INTERVAL_IN_SECS + 1);

    // Insert an input again, recent events should be 1.
    assert_eq!(cache.insert_outbound_event(input, INTERVAL_IN_SECS), 1);

    // Check that the cache still contains the input.
    assert_eq!(cache.seen_outbound_events().count(&input), 1);

    // Check that the cache contains the input and 1 timestamp entry.
    assert_eq!(cache.seen_outbound_events().len(), 1);
}

#[test]
fn test_seen_outbound_certificates() {
    let mut cache = TestCache::default();
    let input = socket();

    // Check that the cache is empty.
    assert!(cache.seen_outbound_certificates().is_empty());

    // Insert an input, recent events should be 1.
    assert_eq!(cache.insert_outbound_certificate(input, INTERVAL_IN_SECS), 1);
    // Insert an input, recent events should be 2.
    assert_eq!(cache.insert_outbound_certificate(input, INTERVAL_IN_SECS), 2);
    // Insert an input, recent events should be 3.
    assert_eq!(cache.insert_outbound_certificate(input, INTERVAL_IN_SECS), 3);

    // Check that the cache contains the input for 3 entries.
    assert_eq!(cache.seen_outbound_certificates().len(), 3);

    // Wait for the input to expire.
    wait_for(INTERVAL_IN_SECS + 1);

    // Insert an input again, recent events should be 1.
    assert_eq!(cache.insert_outbound_certificate(input, INTERVAL_IN_SECS), 1);

    // Check that the cache still contains the input.
    assert_eq!(cache.seen_outbound_certificates().count(&input), 1);

    // Check that the cache contains the input and 1 timestamp entry.
    assert_eq!(cache.seen_outbound_certificates().len(), 1);
}

#[test]
fn test_seen_outbound_transmissions() {
    let mut cache = TestCache::default();
    let input = socket();

    // Check that the cache is empty.
    assert!(cache.seen_outbound_transmissions().is_empty());

    // Insert an input, recent events should be 1.
    assert_eq!(cache.insert_outbound_transmission(input, INTERVAL_IN_SECS), 1);
    // Insert an input, recent events should be 2.
    assert_eq!(cache.insert_outbound_transmission(input, INTERVAL_IN_SECS), 2);
    // Insert an input, recent events should be 3.
    assert_eq!(cache.insert_outbound_transmission(input, INTERVAL_IN_SECS), 3);

    // Check that the cache contains the input for 3 entries.
    assert_eq!(cache.seen_outbound_transmissions().len(), 3);

    // Wait for the input to expire.
    wait_for(INTERVAL_IN_SECS + 1);

    // Insert an input again, recent events should be 1.
    assert_eq!(cache.insert_outbound_transmission(input, INTERVAL_IN_SECS), 1);

    // Check that the cache still contains the input.
    assert_eq!(cache.seen_outbound_transmissions().count(&input), 1);

    // Check that the cache contains the input and 1 timestamp entry.
    assert_eq!(cache.seen_outbound_transmissions().len(), 1);
}

#[test]
fn two_sockets_on_one_category_are_counted_apart() {
    let mut cache = TestCache::new();
    let first: Socket = ([10, 0, 0, 1], 4130);
    let second: Socket = ([10, 0, 0, 2], 4130);
    assert_eq!(cache.insert_inbound_event(first, 5), 1);
    assert_eq!(cache.insert_inbound_event(second, 5), 1);
    assert_eq!(cache.insert_inbound_event(first, 5), 2);
    assert_eq!(cache.insert_inbound_event(first, 5), 3);
    assert_eq!(cache.insert_inbound_event(second, 5), 2);
    assert_eq!(cache.insert_inbound_event(second, 5), 3);
    assert_eq!(cache.insert_inbound_event(second, 5), 4);
    assert_eq!(cache.insert_inbound_event(first, 5), 4);
    assert_eq!(cache.seen_inbound_events().count(&first), 4);
    assert_eq!(cache.seen_inbound_events().count(&second), 4);
}

#[test]
fn same_address_with_another_port_is_another_key() {
    let mut cache = TestCache::new();
    let first: Socket = ([10, 0, 0, 1], 4130);
    let second: Socket = ([10, 0, 0, 1], 4131);
    assert_eq!(cache.insert_outbound_event(first, 5), 1);
    assert_eq!(cache.insert_outbound_event(second, 5), 1);
    assert_eq!(cache.insert_outbound_event(first, 5), 2);
}

#[test]
fn categories_are_counted_apart() {
    let mut cache = TestCache::new();
    let peer = socket();
    assert_eq!(cache.insert_inbound_event(peer, 5), 1);
    assert_eq!(cache.insert_inbound_event(peer, 5), 2);
    assert_eq!(cache.insert_outbound_event(peer, 5), 1);
    assert_eq!(cache.insert_outbound_certificate(peer, 5), 1);
    assert_eq!(cache.insert_outbound_transmission(peer, 5), 1);
    assert_eq!(cache.insert_inbound_connection(peer.0, 5), 1);
    assert_eq!(cache.insert_inbound_certificate(certificate(), 5), 1);
    assert_eq!(cache.insert_inbound_transmission(transmission(), 5), 1);
    assert_eq!(cache.insert_inbound_event(peer, 5), 3);
    assert_eq!(cache.insert_outbound_event(peer, 5), 2);

    assert_eq!(cache.seen_inbound_connections().len(), 1);
    assert_eq!(cache.seen_inbound_events().len(), 3);
    assert_eq!(cache.seen_inbound_certificates().len(), 1);
    assert_eq!(cache.seen_inbound_transmissions().len(), 1);
    assert_eq!(cache.seen_outbound_events().len(), 2);
    assert_eq!(cache.seen_outbound_certificates().len(), 1);
    assert_eq!(cache.seen_outbound_transmissions().len(), 1);
}

#[test]
fn a_negative_interval_counts_nothing() {
    let mut cache = TestCache::new();
    assert_eq!(cache.insert_inbound_connection(ip(), -1), 0);
    assert!(cache.seen_inbound_connections().is_empty());
}
