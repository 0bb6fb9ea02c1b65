use overlay_core::crypto::{CryptoSession, PeerCryptoMap, SessionState};
use overlay_core::error::Error;
use overlay_core::traffic::TrafficStats;
use overlay_core::types::{MsgBuffer, PeerEndpoint};

fn ep(host: u128, port: u16) -> PeerEndpoint {
    PeerEndpoint { host, port }
}

/// A toy session: flips every byte and appends a one-byte tag, so ciphertext
/// differs from plaintext and the length grows.
#[derive(Clone)]
struct XorSession {
    mask: u8,
}

impl CryptoSession for XorSession {
    fn encrypt(&self, data: &mut MsgBuffer) {
        for b in data.data.iter_mut() {
            *b ^= self.mask;
        }
        data.data.push(0x01);
    }
}

#[test]
fn encrypt_for_unregistered_peer_fails() {
    let p = ep(1, 1000);
    let mut m: PeerCryptoMap<XorSession> = PeerCryptoMap::new();
    let mut buf = MsgBuffer::from_vec(vec![1, 2, 3]);
    let r = m.encrypt_for(p, &mut buf);
    assert!(matches!(r, Err(Error::InvalidCryptoState(_))));
    let Err(e) = r else { unreachable!() };
    assert_eq!(e.message(), "no crypto session for peer");
    assert_eq!(buf.data, vec![1, 2, 3]);
}

#[test]
fn encrypt_for_unencrypted_peer_passes_through() {
    let p = ep(1, 1000);
    let mut m: PeerCryptoMap<XorSession> = PeerCryptoMap::new();
    m.register(p, SessionState::Unencrypted);
    let mut buf = MsgBuffer::from_vec(vec![1, 2, 3]);
    assert!(m.encrypt_for(p, &mut buf).is_ok());
    assert_eq!(buf.data, vec![1, 2, 3]);
}

#[test]
fn encrypt_for_encrypted_peer_transforms_in_place() {
    let p = ep(1, 1000);
    let mut m: PeerCryptoMap<XorSession> = PeerCryptoMap::new();
    m.register(p, SessionState::Encrypted(XorSession { mask: 0xAA }));
    let plain = vec![1u8, 2, 3];
    let mut buf = MsgBuffer::from_vec(plain.clone());
    assert!(m.encrypt_for(p, &mut buf).is_ok());
    assert_ne!(buf.data, plain);
    assert_eq!(buf.len(), plain.len() + 1);
    assert_eq!(buf.data, vec![1 ^ 0xAAu8, 2 ^ 0xAA, 3 ^ 0xAA, 0x01]);
}

#[test]
fn count_tracks_distinct_registrations() {
    let mut m: PeerCryptoMap<XorSession> = PeerCryptoMap::new();
    assert_eq!(m.count(), 0);
    m.register(ep(1, 1000), SessionState::Unencrypted);
    m.register(ep(2, 2000), SessionState::Encrypted(XorSession { mask: 1 }));
    m.register(ep(3, 3000), SessionState::Unencrypted);
    assert_eq!(m.count(), 3);
    // Re-registering an existing peer replaces its entry, adding nothing.
    m.register(ep(2, 2000), SessionState::Unencrypted);
    assert_eq!(m.count(), 3);
    m.remove(ep(1, 1000));
    assert_eq!(m.count(), 2);
    // Removing an unregistered peer is a no-op.
    m.remove(ep(1, 1000));
    assert_eq!(m.count(), 2);
}

#[test]
fn reregistration_changes_state() {
    let p = ep(1, 1000);
    let mut m: PeerCryptoMap<XorSession> = PeerCryptoMap::new();
    m.register(p, SessionState::Encrypted(XorSession { mask: 0xFF }));
    m.register(p, SessionState::Unencrypted);
    let mut buf = MsgBuffer::from_vec(vec![9, 9]);
    assert!(m.encrypt_for(p, &mut buf).is_ok());
    assert_eq!(buf.data, vec![9, 9]);
}

#[test]
fn snapshot_reflects_entries() {
    let mut m: PeerCryptoMap<XorSession> = PeerCryptoMap::new();
    m.register(ep(1, 1000), SessionState::Unencrypted);
    m.register(ep(2, 2000), SessionState::Encrypted(XorSession { mask: 1 }));
    let snap = m.snapshot();
    assert_eq!(snap.len(), 2);
    assert!(snap
        .iter()
        .any(|(p, st)| *p == ep(1, 1000) && matches!(st, SessionState::Unencrypted)));
    assert!(snap
        .iter()
        .any(|(p, st)| *p == ep(2, 2000) && matches!(st, SessionState::Encrypted(_))));
}

#[test]
fn peer_traffic_accumulates() {
    let p = ep(1, 1000);
    let q = ep(2, 2000);
    let mut t = TrafficStats::new();
    t.count_out_traffic(p, 100);
    t.count_out_traffic(p, 150);
    t.count_in_traffic(p, 7);
    t.count_out_traffic(q, 5);
    let totals = t.peer_totals(p);
    assert_eq!(totals.out_bytes, 250);
    assert_eq!(totals.in_bytes, 7);
    assert_eq!(t.peer_totals(q).out_bytes, 5);
    assert_eq!(t.peer_totals(ep(3, 3)).out_bytes, 0);
}

#[test]
fn payload_traffic_accumulates_per_pair() {
    let mut t = TrafficStats::new();
    t.count_out_payload(10, 20, 64);
    t.count_in_payload(10, 20, 32);
    t.count_out_payload(10, 21, 1);
    let pair = t.payload_totals(10, 20);
    assert_eq!(pair.out_bytes, 64);
    assert_eq!(pair.in_bytes, 32);
    assert_eq!(t.payload_totals(10, 21).out_bytes, 1);
    assert_eq!(t.payload_totals(20, 10).out_bytes, 0);
}

#[test]
fn global_counters_accumulate() {
    let mut t = TrafficStats::new();
    t.count_dropped_payload(11);
    t.count_dropped_payload(22);
    t.count_invalid_protocol(5);
    assert_eq!(t.dropped_payload_bytes, 33);
    assert_eq!(t.invalid_protocol_bytes, 5);
    assert_eq!(t.peer_totals(ep(1, 1)).out_bytes, 0);
}

#[test]
fn counters_saturate_at_maximum() {
    let mut t = TrafficStats::new();
    t.count_dropped_payload(usize::MAX);
    t.count_dropped_payload(usize::MAX);
    assert_eq!(t.dropped_payload_bytes, u64::MAX);
}

#[test]
fn msg_buffer_reports_length() {
    let buf = MsgBuffer::from_vec(vec![0; 42]);
    assert_eq!(buf.len(), 42);
}
