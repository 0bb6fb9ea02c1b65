use std::cell::RefCell;

use overlay_core::crypto::{CryptoSession, SessionState};
use overlay_core::error::Error;
use overlay_core::shared::{SharedPeerCrypto, SharedTable, SharedTraffic};
use overlay_core::time::{MockTimeSource, TimeSource};
use overlay_core::types::{AddrRange, MsgBuffer, PeerEndpoint, RangeList};

fn ep(host: u128, port: u16) -> PeerEndpoint {
    PeerEndpoint { host, port }
}

fn ranges(pairs: &[(u64, u64)]) -> RangeList {
    let mut v = Vec::new();
    for &(start, end) in pairs {
        v.push(AddrRange { start, end });
    }
    RangeList::new(v).expect("ranges must be sorted and disjoint")
}

#[derive(Clone)]
struct AddTag;

impl CryptoSession for AddTag {
    fn encrypt(&self, data: &mut MsgBuffer) {
        data.data.push(0xEE);
    }
}

#[test]
fn mock_clock_is_shared_between_handles() {
    let clock = MockTimeSource::new(5);
    let other = clock.clone();
    assert_eq!(clock.now(), 5);
    other.advance(10);
    assert_eq!(clock.now(), 15);
    other.set(100);
    assert_eq!(clock.now(), 100);
}

#[test]
fn cloned_table_handles_share_state() {
    let p = ep(1, 1000);
    let table = SharedTable::new(MockTimeSource::new(0));
    let other = table.clone();
    other.set_claims(p, ranges(&[(10, 20)]));
    assert_eq!(table.lookup(15), Some(p));
    assert_eq!(other.lookup(15), Some(p));
    table.remove_claims(p);
    assert_eq!(other.lookup(15), None);
}

#[test]
fn shared_table_cache_expires_with_clock() {
    let q = ep(2, 2000);
    let clock = MockTimeSource::new(100);
    let table = SharedTable::new(clock.clone());
    table.cache(40, q);
    assert_eq!(table.lookup(40), Some(q));
    clock.advance(59);
    assert_eq!(table.lookup(40), Some(q));
    clock.advance(1);
    assert_eq!(table.lookup(40), None);
}

#[test]
fn shared_table_tie_break_matches_core() {
    let a = ep(1, 1000);
    let b = ep(2, 2000);
    let table = SharedTable::new(MockTimeSource::new(0));
    table.set_claims(a, ranges(&[(10, 20)]));
    table.set_claims(b, ranges(&[(15, 25)]));
    assert_eq!(table.lookup(18), Some(b));
    assert_eq!(table.lookup(12), Some(a));
}

#[test]
fn shared_crypto_end_to_end() {
    let p = ep(1, 1000);
    let q = ep(2, 2000);
    let mut shared: SharedPeerCrypto<AddTag> = SharedPeerCrypto::new();
    let mut other = shared.clone();
    shared.register(p, SessionState::Unencrypted);
    shared.register(q, SessionState::Encrypted(AddTag));
    assert_eq!(shared.count(), 2);
    assert_eq!(other.count(), 2);

    let mut buf = MsgBuffer::from_vec(vec![1, 2]);
    assert!(other.encrypt_for(p, &mut buf).is_ok());
    assert_eq!(buf.data, vec![1, 2]);
    assert!(other.encrypt_for(q, &mut buf).is_ok());
    assert_eq!(buf.data, vec![1, 2, 0xEE]);
    let r = other.encrypt_for(ep(9, 9), &mut buf);
    assert!(matches!(r, Err(Error::InvalidCryptoState(_))));

    shared.remove(p);
    assert_eq!(other.count(), 1);
}

#[test]
fn shared_crypto_for_each_visits_every_peer() {
    let mut shared: SharedPeerCrypto<AddTag> = SharedPeerCrypto::new();
    shared.register(ep(1, 1000), SessionState::Unencrypted);
    shared.register(ep(2, 2000), SessionState::Encrypted(AddTag));
    shared.register(ep(3, 3000), SessionState::Unencrypted);
    let seen: RefCell<Vec<(PeerEndpoint, bool)>> = RefCell::new(Vec::new());
    let r = shared.for_each(|peer, state| {
        seen.borrow_mut().push((peer, matches!(state, SessionState::Encrypted(_))));
        Ok(())
    });
    assert!(r.is_ok());
    let seen = seen.into_inner();
    assert_eq!(seen.len(), 3);
    assert!(seen.contains(&(ep(1, 1000), false)));
    assert!(seen.contains(&(ep(2, 2000), true)));
    assert!(seen.contains(&(ep(3, 3000), false)));
}

#[test]
fn shared_crypto_for_each_stops_on_error() {
    let mut shared: SharedPeerCrypto<AddTag> = SharedPeerCrypto::new();
    shared.register(ep(1, 1000), SessionState::Unencrypted);
    shared.register(ep(2, 2000), SessionState::Unencrypted);
    let r = shared.for_each(|_, _| Err(Error::InvalidCryptoState("stop")));
    assert!(matches!(r, Err(Error::InvalidCryptoState("stop"))));
}

#[test]
fn shared_traffic_counts_through_clones() {
    let p = ep(1, 1000);
    let traffic = SharedTraffic::new();
    let other = traffic.clone();
    traffic.count_out_traffic(p, 10);
    other.count_out_traffic(p, 5);
    other.count_in_traffic(p, 2);
    traffic.count_out_payload(7, 8, 100);
    traffic.count_dropped_payload(3);
    traffic.count_invalid_protocol(4);
    let totals = other.peer_totals(p);
    assert_eq!(totals.out_bytes, 15);
    assert_eq!(totals.in_bytes, 2);
    assert_eq!(traffic.payload_totals(7, 8).out_bytes, 100);
    assert_eq!(traffic.dropped_payload(), 3);
    assert_eq!(traffic.invalid_protocol(), 4);
}

#[test]
fn sync_hooks_are_no_ops() {
    let p = ep(1, 1000);
    let mut table = SharedTable::new(MockTimeSource::new(0));
    table.set_claims(p, ranges(&[(10, 20)]));
    table.sync();
    assert_eq!(table.lookup(15), Some(p));

    let mut crypto: SharedPeerCrypto<AddTag> = SharedPeerCrypto::new();
    crypto.register(p, SessionState::Unencrypted);
    crypto.sync();
    assert_eq!(crypto.count(), 1);

    let mut traffic = SharedTraffic::new();
    traffic.count_dropped_payload(1);
    traffic.sync();
    assert_eq!(traffic.dropped_payload(), 1);
}
