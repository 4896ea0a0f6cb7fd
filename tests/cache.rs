use session_cache::{ProtocolVersion, Session, SessionCache, SessionKey};

fn key(host: &str, port: u16) -> SessionKey {
    SessionKey { host: host.to_string(), port }
}

fn session(id: u8, version: ProtocolVersion, handle: &'static str) -> Session<&'static str> {
    Session::new(vec![id, id.wrapping_mul(7)], version, handle)
}

fn id_of(id: u8) -> Vec<u8> {
    vec![id, id.wrapping_mul(7)]
}

#[test]
fn round_trip_keeps_earlier_protocol_sessions() {
    let mut cache = SessionCache::new();
    let k = key("example.com", 443);
    cache.insert(k.clone(), session(1, ProtocolVersion::Tls1_2, "A"));
    assert_eq!(cache.get(&k), Some("A"));
    assert_eq!(cache.get(&k), Some("A"));
}

#[test]
fn tls13_ticket_is_single_use() {
    let mut cache = SessionCache::new();
    let k = key("example.com", 443);
    cache.insert(k.clone(), session(1, ProtocolVersion::Tls1_3, "A"));
    assert_eq!(cache.get(&k), Some("A"));
    assert_eq!(cache.get(&k), None);
}

#[test]
fn capacity_two_keeps_the_two_newest() {
    let mut cache = SessionCache::with_capacity(2);
    let k = key("example.com", 443);
    cache.insert(k.clone(), session(1, ProtocolVersion::Tls1_2, "A"));
    cache.insert(k.clone(), session(2, ProtocolVersion::Tls1_2, "B"));
    cache.insert(k.clone(), session(3, ProtocolVersion::Tls1_2, "C"));
    assert_eq!(cache.get(&k), Some("B"));
    // A is gone: removing it changes nothing
    cache.remove(&id_of(1));
    assert_eq!(cache.get(&k), Some("B"));
    cache.remove(&id_of(2));
    assert_eq!(cache.get(&k), Some("C"));
    cache.remove(&id_of(3));
    assert_eq!(cache.get(&k), None);
}

#[test]
fn sessions_come_out_oldest_first() {
    let mut cache = SessionCache::with_capacity(4);
    let k = key("example.com", 443);
    cache.insert(k.clone(), session(1, ProtocolVersion::Tls1_2, "A"));
    cache.insert(k.clone(), session(2, ProtocolVersion::Tls1_2, "B"));
    assert_eq!(cache.get(&k), Some("A"));
    cache.remove(&id_of(1));
    assert_eq!(cache.get(&k), Some("B"));
}

#[test]
fn tls13_tickets_drain_oldest_first() {
    let mut cache = SessionCache::new();
    let k = key("example.com", 443);
    cache.insert(k.clone(), session(1, ProtocolVersion::Tls1_3, "A"));
    cache.insert(k.clone(), session(2, ProtocolVersion::Tls1_3, "B"));
    assert_eq!(cache.get(&k), Some("A"));
    assert_eq!(cache.get(&k), Some("B"));
    assert_eq!(cache.get(&k), None);
}

#[test]
fn destinations_are_isolated() {
    let mut cache = SessionCache::new();
    let k1 = key("example.com", 443);
    let k2 = key("example.org", 443);
    let k3 = key("example.com", 8443);
    cache.insert(k1.clone(), session(1, ProtocolVersion::Tls1_2, "A"));
    assert_eq!(cache.get(&k2), None);
    assert_eq!(cache.get(&k3), None);
    assert_eq!(cache.get(&k1), Some("A"));
}

#[test]
fn host_case_is_preserved() {
    let mut cache = SessionCache::new();
    cache.insert(key("Example.com", 443), session(1, ProtocolVersion::Tls1_2, "A"));
    assert_eq!(cache.get(&key("example.com", 443)), None);
    assert_eq!(cache.get(&key("Example.com", 443)), Some("A"));
}

#[test]
fn removing_the_only_session_empties_the_destination() {
    let mut cache = SessionCache::with_capacity(1);
    let k = key("example.com", 443);
    cache.insert(k.clone(), session(1, ProtocolVersion::Tls1_2, "A"));
    cache.remove(&id_of(1));
    assert_eq!(cache.get(&k), None);
    // behaves as a fresh cache of capacity one
    cache.insert(k.clone(), session(2, ProtocolVersion::Tls1_2, "B"));
    assert_eq!(cache.get(&k), Some("B"));
    cache.insert(k.clone(), session(3, ProtocolVersion::Tls1_2, "C"));
    assert_eq!(cache.get(&k), Some("C"));
}

#[test]
fn remove_twice_is_harmless() {
    let mut cache = SessionCache::new();
    let k = key("example.com", 443);
    cache.insert(k.clone(), session(1, ProtocolVersion::Tls1_2, "A"));
    cache.insert(k.clone(), session(2, ProtocolVersion::Tls1_2, "B"));
    cache.remove(&id_of(1));
    cache.remove(&id_of(1));
    cache.remove(&id_of(9));
    assert_eq!(cache.get(&k), Some("B"));
}

#[test]
fn remove_from_empty_cache_is_harmless() {
    let mut cache: SessionCache<&'static str> = SessionCache::new();
    cache.remove(&[1, 2, 3]);
    cache.remove(&[]);
    assert_eq!(cache.get(&key("example.com", 443)), None);
}

#[test]
fn zero_capacity_keeps_nothing() {
    let mut cache = SessionCache::with_capacity(0);
    let k = key("example.com", 443);
    cache.insert(k.clone(), session(1, ProtocolVersion::Tls1_2, "A"));
    assert_eq!(cache.get(&k), None);
    cache.insert(k.clone(), session(2, ProtocolVersion::Tls1_3, "B"));
    assert_eq!(cache.get(&k), None);
}

#[test]
fn default_capacity_is_eight() {
    let mut cache = SessionCache::new();
    let k = key("example.com", 443);
    for i in 0..8u8 {
        cache.insert(k.clone(), session(i, ProtocolVersion::Tls1_2, "x"));
    }
    cache.insert(k.clone(), session(8, ProtocolVersion::Tls1_2, "last"));
    // the first of the nine has been evicted
    cache.remove(&id_of(0));
    for i in 1..8u8 {
        assert_eq!(cache.get(&k), Some("x"));
        cache.remove(&id_of(i));
    }
    assert_eq!(cache.get(&k), Some("last"));
    cache.remove(&id_of(8));
    assert_eq!(cache.get(&k), None);
}

#[test]
fn reinserting_an_identifier_keeps_its_place() {
    let mut cache = SessionCache::with_capacity(4);
    let k = key("example.com", 443);
    cache.insert(k.clone(), session(1, ProtocolVersion::Tls1_2, "A"));
    cache.insert(k.clone(), session(2, ProtocolVersion::Tls1_2, "B"));
    cache.insert(k.clone(), session(1, ProtocolVersion::Tls1_2, "A again"));
    assert_eq!(cache.get(&k), Some("A"));
    cache.remove(&id_of(1));
    assert_eq!(cache.get(&k), Some("B"));
    cache.remove(&id_of(2));
    assert_eq!(cache.get(&k), None);
}

#[test]
fn full_destination_evicts_before_reinsert() {
    let mut cache = SessionCache::with_capacity(2);
    let k = key("example.com", 443);
    cache.insert(k.clone(), session(1, ProtocolVersion::Tls1_2, "A"));
    cache.insert(k.clone(), session(2, ProtocolVersion::Tls1_2, "B"));
    // the set is full: the oldest goes, then B is already there
    cache.insert(k.clone(), session(2, ProtocolVersion::Tls1_2, "B again"));
    assert_eq!(cache.get(&k), Some("B"));
    cache.remove(&id_of(2));
    assert_eq!(cache.get(&k), None);
}

#[test]
fn identifier_moves_between_destinations() {
    let mut cache = SessionCache::new();
    let k1 = key("example.com", 443);
    let k2 = key("example.org", 443);
    cache.insert(k1.clone(), session(1, ProtocolVersion::Tls1_2, "A"));
    cache.insert(k2.clone(), session(1, ProtocolVersion::Tls1_2, "A2"));
    assert_eq!(cache.get(&k1), None);
    assert_eq!(cache.get(&k2), Some("A2"));
}

#[test]
fn eviction_is_per_destination() {
    let mut cache = SessionCache::with_capacity(1);
    let k1 = key("example.com", 443);
    let k2 = key("example.org", 443);
    cache.insert(k1.clone(), session(1, ProtocolVersion::Tls1_2, "A"));
    cache.insert(k2.clone(), session(2, ProtocolVersion::Tls1_2, "B"));
    assert_eq!(cache.get(&k1), Some("A"));
    assert_eq!(cache.get(&k2), Some("B"));
}

#[test]
fn tls13_get_leaves_later_sessions() {
    let mut cache = SessionCache::new();
    let k = key("example.com", 443);
    cache.insert(k.clone(), session(1, ProtocolVersion::Tls1_3, "A"));
    cache.insert(k.clone(), session(2, ProtocolVersion::Tls1_2, "B"));
    assert_eq!(cache.get(&k), Some("A"));
    assert_eq!(cache.get(&k), Some("B"));
    assert_eq!(cache.get(&k), Some("B"));
}

#[test]
fn session_key_equality_is_structural() {
    assert!(key("a", 1) == key("a", 1));
    assert!(key("a", 1) != key("a", 2));
    assert!(key("a", 1) != key("b", 1));
    let k = key("host", 443);
    let d = k.duplicate();
    assert_eq!(d.host, "host");
    assert_eq!(d.port, 443);
}

#[test]
fn single_use_only_for_tls13() {
    assert!(session(1, ProtocolVersion::Tls1_3, "A").single_use());
    assert!(!session(1, ProtocolVersion::Tls1_2, "A").single_use());
    assert!(!session(1, ProtocolVersion::Dtls1_3, "A").single_use());
}

#[test]
fn byte_helpers() {
    assert!(session_cache::same_bytes(&[1, 2, 3], &[1, 2, 3]));
    assert!(!session_cache::same_bytes(&[1, 2, 3], &[1, 2, 4]));
    assert!(!session_cache::same_bytes(&[1, 2], &[1, 2, 3]));
    assert!(session_cache::same_bytes(&[], &[]));
    assert_eq!(session_cache::copy_bytes(&[9, 8, 7]), vec![9, 8, 7]);
}
