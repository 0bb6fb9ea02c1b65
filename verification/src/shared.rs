//! The shared-state facades: one lock-owning handle type per domain (claim
//! table, peer crypto map, traffic counters). Every operation acquires the
//! instance's lock, performs its complete effect and releases the lock before
//! returning — the critical section is always the entire operation — so
//! operations on one instance are strictly serialized. Nothing blocks on any
//! resource but the lock itself while holding it. Cloned handles operate the
//! very same underlying state.

use std::sync::Arc;
use vstd::prelude::*;
use vstd::rwlock::{RwLock, RwLockPredicate};

use crate::crypto::{CryptoSession, PeerCryptoMap, SessionState};
use crate::error::Error;
use crate::sharing::arc_clone;
use crate::table::ClaimTable;
use crate::time::TimeSource;
use crate::traffic::{TrafficEntry, TrafficStats};
use crate::types::{Address, MsgBuffer, PeerEndpoint, RangeList};

verus! {

/// Lock invariant: the shared claim table stays well formed.
pub struct TableInv {}

impl RwLockPredicate<ClaimTable> for TableInv {
    open spec fn inv(self, t: ClaimTable) -> bool {
        t.wf()
    }
}

/// Lock invariant: the shared crypto map stays well formed.
pub struct CryptoInv {}

impl<S> RwLockPredicate<PeerCryptoMap<S>> for CryptoInv {
    open spec fn inv(self, m: PeerCryptoMap<S>) -> bool {
        m.wf()
    }
}

/// Lock invariant: the shared traffic counters stay well formed.
pub struct TrafficInv {}

impl RwLockPredicate<TrafficStats> for TrafficInv {
    open spec fn inv(self, t: TrafficStats) -> bool {
        t.wf()
    }
}

/// Concurrent handle to one shared claim table. `TS` supplies "now" for cache
/// expiry decisions.
pub struct SharedTable<TS: TimeSource> {
    table: Arc<RwLock<ClaimTable, TableInv>>,
    clock: Arc<TS>,
}

impl<TS: TimeSource> SharedTable<TS> {
    /// A fresh, empty shared table read under the given clock.
    pub fn new(clock: TS) -> SharedTable<TS> {
        SharedTable {
            table: Arc::new(RwLock::new(ClaimTable::new(), Ghost(TableInv {}))),
            clock: Arc::new(clock),
        }
    }

    /// Maintenance hook: a forward-compatible extension point that performs no
    /// work in this core.
    pub fn sync(&mut self) {
    }

    /// Resolves an address against the table state observed while the lock is
    /// held: some well-formed table state and instant determine the answer.
    pub fn lookup(&self, addr: Address) -> (r: Option<PeerEndpoint>)
        ensures
            exists|t: ClaimTable, now: u64| t.wf() && r == #[trigger] t.spec_lookup(addr, now),
    {
        let now = self.clock.now();
        let handle = self.table.acquire_read();
        let r = handle.borrow().lookup(addr, now);
        proof {
            let t = handle.view();
            assert(t.wf() && r == t.spec_lookup(addr, now));
        }
        handle.release_read();
        r
    }

    /// Replaces the peer's claims in one critical section.
    pub fn set_claims(&self, peer: PeerEndpoint, claims: RangeList)
        requires
            claims.wf(),
    {
        let (mut t, handle) = self.table.acquire_write();
        t.set_claims(peer, claims);
        handle.release_write(t);
    }

    /// Removes the peer's claims and its cache entries in one critical
    /// section.
    pub fn remove_claims(&self, peer: PeerEndpoint) {
        let (mut t, handle) = self.table.acquire_write();
        t.remove_claims(peer);
        handle.release_write(t);
    }

    /// Records a learned mapping in one critical section, stamped at the
    /// clock's current instant.
    pub fn cache(&self, addr: Address, peer: PeerEndpoint) {
        let now = self.clock.now();
        let (mut t, handle) = self.table.acquire_write();
        t.cache(addr, peer, now);
        handle.release_write(t);
    }
}

impl<TS: TimeSource> Clone for SharedTable<TS> {
    /// A cloned handle operates the very same table and clock.
    fn clone(&self) -> (r: Self)
        ensures
            r == *self,
    {
        SharedTable { table: arc_clone(&self.table), clock: arc_clone(&self.clock) }
    }
}

/// Concurrent handle to one shared peer crypto map.
pub struct SharedPeerCrypto<S> {
    peers: Arc<RwLock<PeerCryptoMap<S>, CryptoInv>>,
}

impl<S> SharedPeerCrypto<S> {
    /// A fresh, empty shared crypto map.
    pub fn new() -> SharedPeerCrypto<S> {
        SharedPeerCrypto {
            peers: Arc::new(RwLock::new(PeerCryptoMap::new(), Ghost(CryptoInv {}))),
        }
    }

    /// Maintenance hook: a forward-compatible extension point that performs no
    /// work in this core.
    pub fn sync(&mut self) {
    }

    /// Registers a peer with its session state in one critical section.
    pub fn register(&self, peer: PeerEndpoint, state: SessionState<S>) {
        let (mut m, handle) = self.peers.acquire_write();
        m.register(peer, state);
        handle.release_write(m);
    }

    /// Removes a peer's registration in one critical section.
    pub fn remove(&self, peer: PeerEndpoint) {
        let (mut m, handle) = self.peers.acquire_write();
        m.remove(peer);
        handle.release_write(m);
    }

    /// The number of registered peers in the state observed while the lock is
    /// held.
    pub fn count(&self) -> (r: usize)
        ensures
            exists|m: PeerCryptoMap<S>| m.wf() && r == #[trigger] m.entries@.len(),
    {
        let handle = self.peers.acquire_read();
        let r = handle.borrow().count();
        proof {
            let m = handle.view();
            assert(m.wf() && r == m.entries@.len());
        }
        handle.release_read();
        r
    }
}

impl<S: CryptoSession> SharedPeerCrypto<S> {
    /// Encrypts `data` in place for `peer` against the map state observed
    /// while the lock is held: fails exactly when that state does not
    /// register the peer, and leaves the buffer unchanged on failure or on a
    /// registered peer without a session.
    pub fn encrypt_for(&mut self, peer: PeerEndpoint, data: &mut MsgBuffer) -> (r: Result<
        (),
        Error,
    >)
        ensures
            exists|m: PeerCryptoMap<S>|
                {
                    &&& m.wf()
                    &&& (r is Ok <==> #[trigger] m.spec_registered(peer))
                    &&& ((m.spec_session(peer) matches Some(st) && st is Unencrypted)
                        ==> final(data)@ == old(data)@)
                },
            r is Err ==> r->Err_0 is InvalidCryptoState && final(data)@ == old(data)@,
    {
        let (mut m, handle) = self.peers.acquire_write();
        let r = m.encrypt_for(peer, data);
        proof {
            assert(m.wf() && (r is Ok <==> m.spec_registered(peer)));
        }
        handle.release_write(m);
        r
    }
}

impl<S: Clone> SharedPeerCrypto<S> {
    /// Applies the callback to a snapshot of the (peer, session state) pairs,
    /// stopping at the first error. The snapshot is taken under the lock and
    /// the callbacks run after it is released, so a callback may call back
    /// into this instance without deadlocking.
    #[verifier::loop_isolation(false)]
    pub fn for_each<F: Fn(PeerEndpoint, SessionState<S>) -> Result<(), Error>>(
        &mut self,
        callback: F,
    ) -> (r: Result<(), Error>)
        requires
            forall|p: PeerEndpoint, st: SessionState<S>| #[trigger] callback.requires((p, st)),
        ensures
            r matches Err(e) ==> exists|p: PeerEndpoint, st: SessionState<S>|
                callback.ensures((p, st), Err(e)),
    {
        let handle = self.peers.acquire_read();
        let snapshot = handle.borrow().snapshot();
        handle.release_read();
        let mut remaining = snapshot;
        loop
            invariant
                true,
            decreases remaining@.len(),
        {
            match remaining.pop() {
                None => {
                    return Ok(());
                },
                Some((peer, state)) => {
                    match callback(peer, state) {
                        Ok(()) => {},
                        Err(e) => {
                            return Err(e);
                        },
                    }
                },
            }
        }
    }
}

impl<S> Clone for SharedPeerCrypto<S> {
    /// A cloned handle operates the very same crypto map.
    fn clone(&self) -> (r: Self)
        ensures
            r == *self,
    {
        SharedPeerCrypto { peers: arc_clone(&self.peers) }
    }
}

/// Concurrent handle to one shared set of traffic counters.
pub struct SharedTraffic {
    traffic: Arc<RwLock<TrafficStats, TrafficInv>>,
}

impl SharedTraffic {
    /// Fresh shared counters, all zero.
    pub fn new() -> SharedTraffic {
        SharedTraffic {
            traffic: Arc::new(RwLock::new(TrafficStats::new(), Ghost(TrafficInv {}))),
        }
    }

    /// Maintenance hook: a forward-compatible extension point that performs no
    /// work in this core.
    pub fn sync(&mut self) {
    }

    /// Adds outbound protocol bytes for a peer in one critical section.
    pub fn count_out_traffic(&self, peer: PeerEndpoint, bytes: usize) {
        let (mut t, handle) = self.traffic.acquire_write();
        t.count_out_traffic(peer, bytes);
        handle.release_write(t);
    }

    /// Adds inbound protocol bytes for a peer in one critical section.
    pub fn count_in_traffic(&self, peer: PeerEndpoint, bytes: usize) {
        let (mut t, handle) = self.traffic.acquire_write();
        t.count_in_traffic(peer, bytes);
        handle.release_write(t);
    }

    /// Adds outbound payload bytes for an address pair in one critical
    /// section.
    pub fn count_out_payload(&self, remote: Address, local: Address, bytes: usize) {
        let (mut t, handle) = self.traffic.acquire_write();
        t.count_out_payload(remote, local, bytes);
        handle.release_write(t);
    }

    /// Adds inbound payload bytes for an address pair in one critical section.
    pub fn count_in_payload(&self, remote: Address, local: Address, bytes: usize) {
        let (mut t, handle) = self.traffic.acquire_write();
        t.count_in_payload(remote, local, bytes);
        handle.release_write(t);
    }

    /// Adds dropped payload bytes in one critical section.
    pub fn count_dropped_payload(&self, bytes: usize) {
        let (mut t, handle) = self.traffic.acquire_write();
        t.count_dropped_payload(bytes);
        handle.release_write(t);
    }

    /// Adds invalid protocol bytes in one critical section.
    pub fn count_invalid_protocol(&self, bytes: usize) {
        let (mut t, handle) = self.traffic.acquire_write();
        t.count_invalid_protocol(bytes);
        handle.release_write(t);
    }

    /// Reads a peer's protocol totals from the state observed while the lock
    /// is held.
    pub fn peer_totals(&self, peer: PeerEndpoint) -> (r: TrafficEntry)
        ensures
            exists|t: TrafficStats| t.wf() && r == #[trigger] t.spec_peer_totals(peer),
    {
        let handle = self.traffic.acquire_read();
        let r = handle.borrow().peer_totals(peer);
        proof {
            let t = handle.view();
            assert(t.wf() && r == t.spec_peer_totals(peer));
        }
        handle.release_read();
        r
    }

    /// Reads an address pair's payload totals from the state observed while
    /// the lock is held.
    pub fn payload_totals(&self, remote: Address, local: Address) -> (r: TrafficEntry)
        ensures
            exists|t: TrafficStats|
                t.wf() && r == #[trigger] t.spec_payload_totals(remote, local),
    {
        let handle = self.traffic.acquire_read();
        let r = handle.borrow().payload_totals(remote, local);
        proof {
            let t = handle.view();
            assert(t.wf() && r == t.spec_payload_totals(remote, local));
        }
        handle.release_read();
        r
    }

    /// Reads the global dropped-payload counter.
    pub fn dropped_payload(&self) -> u64 {
        let handle = self.traffic.acquire_read();
        let r = handle.borrow().dropped_payload_bytes;
        handle.release_read();
        r
    }

    /// Reads the global invalid-protocol counter.
    pub fn invalid_protocol(&self) -> u64 {
        let handle = self.traffic.acquire_read();
        let r = handle.borrow().invalid_protocol_bytes;
        handle.release_read();
        r
    }
}

impl Clone for SharedTraffic {
    /// A cloned handle operates the very same counters.
    fn clone(&self) -> (r: Self)
        ensures
            r == *self,
    {
        SharedTraffic { traffic: arc_clone(&self.traffic) }
    }
}

} // verus!
