//! Traffic counters: monotonically increasing byte totals per peer (protocol
//! frames), per remote/local address pair (payload), and two global counters
//! for dropped payload and invalid protocol bytes. Additions saturate at the
//! counter's maximum.

use vstd::prelude::*;

use crate::seqx::{
    distinct_keys, find_map, lemma_filter_all, lemma_filter_distinct_keys,
    lemma_find_map_present, lemma_remove_is_filter, sat_add, sat_add_u64,
};
use crate::types::{Address, PeerEndpoint};

verus! {

/// In/out byte totals for one counter key.
#[derive(Clone, Copy, PartialEq, Eq, Structural, Debug)]
pub struct TrafficEntry {
    pub out_bytes: u64,
    pub in_bytes: u64,
}

/// The totals recorded under a key, all zero while none are recorded.
pub open spec fn totals_of<K>(s: Seq<(K, TrafficEntry)>, k: K) -> TrafficEntry {
    match find_map(s, k) {
        Some(e) => e,
        None => TrafficEntry { out_bytes: 0, in_bytes: 0 },
    }
}

/// Holds of every counter entry that is not keyed by `k`.
pub open spec fn other_keys<K>(k: K) -> spec_fn((K, TrafficEntry)) -> bool {
    |e: (K, TrafficEntry)| e.0 != k
}

/// One key's totals after adding bytes, the other totals unchanged.
pub open spec fn counters_after_add<K>(
    s: Seq<(K, TrafficEntry)>,
    k: K,
    out_add: u64,
    in_add: u64,
) -> Seq<(K, TrafficEntry)> {
    let prior = totals_of(s, k);
    s.filter(other_keys(k)).push(
        (
            k,
            TrafficEntry {
                out_bytes: sat_add_u64(prior.out_bytes, out_add),
                in_bytes: sat_add_u64(prior.in_bytes, in_add),
            },
        ),
    )
}

/// All byte counters of this node.
pub struct TrafficStats {
    pub peer_traffic: Vec<(PeerEndpoint, TrafficEntry)>,
    pub payload: Vec<((Address, Address), TrafficEntry)>,
    pub dropped_payload_bytes: u64,
    pub invalid_protocol_bytes: u64,
}

impl TrafficStats {
    /// At most one entry per peer and per address pair.
    pub open spec fn wf(self) -> bool {
        &&& distinct_keys(self.peer_traffic@, |e: (PeerEndpoint, TrafficEntry)| e.0)
        &&& distinct_keys(self.payload@, |e: ((Address, Address), TrafficEntry)| e.0)
    }

    /// The protocol-frame totals recorded for a peer.
    pub open spec fn spec_peer_totals(self, peer: PeerEndpoint) -> TrafficEntry {
        totals_of(self.peer_traffic@, peer)
    }

    /// The payload totals recorded for a remote/local address pair.
    pub open spec fn spec_payload_totals(self, remote: Address, local: Address) -> TrafficEntry {
        totals_of(self.payload@, (remote, local))
    }

    /// Fresh counters, all zero.
    pub fn new() -> (r: TrafficStats)
        ensures
            r.wf(),
            r.peer_traffic@.len() == 0,
            r.payload@.len() == 0,
            r.dropped_payload_bytes == 0,
            r.invalid_protocol_bytes == 0,
    {
        TrafficStats {
            peer_traffic: Vec::new(),
            payload: Vec::new(),
            dropped_payload_bytes: 0,
            invalid_protocol_bytes: 0,
        }
    }

    /// Adds outbound protocol bytes for a peer.
    pub fn count_out_traffic(&mut self, peer: PeerEndpoint, bytes: usize)
        requires
            old(self).wf(),
        ensures
            final(self).wf(),
            final(self).peer_traffic@ == counters_after_add(
                old(self).peer_traffic@,
                peer,
                bytes as u64,
                0,
            ),
            final(self).payload@ == old(self).payload@,
            final(self).dropped_payload_bytes == old(self).dropped_payload_bytes,
            final(self).invalid_protocol_bytes == old(self).invalid_protocol_bytes,
    {
        bump_peer(&mut self.peer_traffic, peer, bytes as u64, 0);
    }

    /// Adds inbound protocol bytes for a peer.
    pub fn count_in_traffic(&mut self, peer: PeerEndpoint, bytes: usize)
        requires
            old(self).wf(),
        ensures
            final(self).wf(),
            final(self).peer_traffic@ == counters_after_add(
                old(self).peer_traffic@,
                peer,
                0,
                bytes as u64,
            ),
            final(self).payload@ == old(self).payload@,
            final(self).dropped_payload_bytes == old(self).dropped_payload_bytes,
            final(self).invalid_protocol_bytes == old(self).invalid_protocol_bytes,
    {
        bump_peer(&mut self.peer_traffic, peer, 0, bytes as u64);
    }

    /// Adds outbound payload bytes for a remote/local address pair.
    pub fn count_out_payload(&mut self, remote: Address, local: Address, bytes: usize)
        requires
            old(self).wf(),
        ensures
            final(self).wf(),
            final(self).payload@ == counters_after_add(
                old(self).payload@,
                (remote, local),
                bytes as u64,
                0,
            ),
            final(self).peer_traffic@ == old(self).peer_traffic@,
            final(self).dropped_payload_bytes == old(self).dropped_payload_bytes,
            final(self).invalid_protocol_bytes == old(self).invalid_protocol_bytes,
    {
        bump_pair(&mut self.payload, remote, local, bytes as u64, 0);
    }

    /// Adds inbound payload bytes for a remote/local address pair.
    pub fn count_in_payload(&mut self, remote: Address, local: Address, bytes: usize)
        requires
            old(self).wf(),
        ensures
            final(self).wf(),
            final(self).payload@ == counters_after_add(
                old(self).payload@,
                (remote, local),
                0,
                bytes as u64,
            ),
            final(self).peer_traffic@ == old(self).peer_traffic@,
            final(self).dropped_payload_bytes == old(self).dropped_payload_bytes,
            final(self).invalid_protocol_bytes == old(self).invalid_protocol_bytes,
    {
        bump_pair(&mut self.payload, remote, local, 0, bytes as u64);
    }

    /// Adds dropped payload bytes.
    pub fn count_dropped_payload(&mut self, bytes: usize)
        ensures
            final(self).dropped_payload_bytes == sat_add_u64(
                old(self).dropped_payload_bytes,
                bytes as u64,
            ),
            final(self).peer_traffic@ == old(self).peer_traffic@,
            final(self).payload@ == old(self).payload@,
            final(self).invalid_protocol_bytes == old(self).invalid_protocol_bytes,
            old(self).wf() ==> final(self).wf(),
    {
        self.dropped_payload_bytes = sat_add(self.dropped_payload_bytes, bytes as u64);
    }

    /// Adds invalid protocol bytes.
    pub fn count_invalid_protocol(&mut self, bytes: usize)
        ensures
            final(self).invalid_protocol_bytes == sat_add_u64(
                old(self).invalid_protocol_bytes,
                bytes as u64,
            ),
            final(self).peer_traffic@ == old(self).peer_traffic@,
            final(self).payload@ == old(self).payload@,
            final(self).dropped_payload_bytes == old(self).dropped_payload_bytes,
            old(self).wf() ==> final(self).wf(),
    {
        self.invalid_protocol_bytes = sat_add(self.invalid_protocol_bytes, bytes as u64);
    }

    /// Reads the protocol-frame totals recorded for a peer.
    pub fn peer_totals(&self, peer: PeerEndpoint) -> (r: TrafficEntry)
        requires
            self.wf(),
        ensures
            r == self.spec_peer_totals(peer),
    {
        match find_key_idx(&self.peer_traffic, peer) {
            Some(idx) => {
                proof {
                    lemma_find_map_present(self.peer_traffic@, peer, idx as int);
                }
                self.peer_traffic[idx].1
            },
            None => {
                proof {
                    crate::seqx::lemma_find_map_absent(self.peer_traffic@, peer);
                }
                TrafficEntry { out_bytes: 0, in_bytes: 0 }
            },
        }
    }

    /// Reads the payload totals recorded for a remote/local address pair.
    pub fn payload_totals(&self, remote: Address, local: Address) -> (r: TrafficEntry)
        requires
            self.wf(),
        ensures
            r == self.spec_payload_totals(remote, local),
    {
        match find_pair_idx(&self.payload, remote, local) {
            Some(idx) => {
                proof {
                    lemma_find_map_present(self.payload@, (remote, local), idx as int);
                }
                self.payload[idx].1
            },
            None => {
                proof {
                    crate::seqx::lemma_find_map_absent(self.payload@, (remote, local));
                }
                TrafficEntry { out_bytes: 0, in_bytes: 0 }
            },
        }
    }
}

/// The index of the peer's counter entry, if it has one.
fn find_key_idx(entries: &Vec<(PeerEndpoint, TrafficEntry)>, peer: PeerEndpoint) -> (r: Option<
    usize,
>)
    ensures
        match r {
            Some(idx) => idx < entries@.len() && entries@[idx as int].0 == peer,
            None => forall|j: int|
                0 <= j < entries@.len() ==> (#[trigger] entries@[j]).0 != peer,
        },
{
    let n = entries.len();
    let mut i: usize = 0;
    while i < n
        invariant
            0 <= i <= n,
            n == entries@.len(),
            forall|j: int| 0 <= j < i ==> (#[trigger] entries@[j]).0 != peer,
        decreases n - i,
    {
        if entries[i].0 == peer {
            return Some(i);
        }
        i += 1;
    }
    None
}

/// The index of the address pair's counter entry, if it has one.
fn find_pair_idx(
    entries: &Vec<((Address, Address), TrafficEntry)>,
    remote: Address,
    local: Address,
) -> (r: Option<usize>)
    ensures
        match r {
            Some(idx) => idx < entries@.len() && entries@[idx as int].0 == (remote, local),
            None => forall|j: int|
                0 <= j < entries@.len() ==> (#[trigger] entries@[j]).0 != (remote, local),
        },
{
    let n = entries.len();
    let mut i: usize = 0;
    while i < n
        invariant
            0 <= i <= n,
            n == entries@.len(),
            forall|j: int| 0 <= j < i ==> (#[trigger] entries@[j]).0 != (remote, local),
        decreases n - i,
    {
        if entries[i].0.0 == remote && entries[i].0.1 == local {
            return Some(i);
        }
        i += 1;
    }
    None
}

/// Adds bytes to one peer's entry, creating it at zero first if absent.
fn bump_peer(entries: &mut Vec<(PeerEndpoint, TrafficEntry)>, peer: PeerEndpoint, out_add: u64, in_add: u64)
    requires
        distinct_keys(old(entries)@, |e: (PeerEndpoint, TrafficEntry)| e.0),
    ensures
        distinct_keys(final(entries)@, |e: (PeerEndpoint, TrafficEntry)| e.0),
        final(entries)@ == counters_after_add(old(entries)@, peer, out_add, in_add),
{
    let ghost old_entries = entries@;
    let ghost drop_pred = other_keys::<PeerEndpoint>(peer);
    let ghost key = |e: (PeerEndpoint, TrafficEntry)| e.0;
    let mut prior = TrafficEntry { out_bytes: 0, in_bytes: 0 };
    match find_key_idx(entries, peer) {
        Some(idx) => {
            prior = entries[idx].1;
            proof {
                lemma_find_map_present(old_entries, peer, idx as int);
                assert forall|j: int|
                    0 <= j < old_entries.len() && j != idx as int implies drop_pred(
                    #[trigger] old_entries[j],
                ) by {
                    if j < idx as int {
                        assert(key(old_entries[j]) != key(old_entries[idx as int]));
                    } else {
                        assert(key(old_entries[idx as int]) != key(old_entries[j]));
                    }
                }
            }
            entries.remove(idx);
            proof {
                lemma_remove_is_filter(old_entries, drop_pred, idx as int);
            }
        },
        None => {
            proof {
                crate::seqx::lemma_find_map_absent(old_entries, peer);
                lemma_filter_all(old_entries, drop_pred);
            }
        },
    }
    let entry = TrafficEntry {
        out_bytes: sat_add(prior.out_bytes, out_add),
        in_bytes: sat_add(prior.in_bytes, in_add),
    };
    entries.push((peer, entry));
    proof {
        broadcast use Seq::lemma_filter_pred;

        let f = old_entries.filter(drop_pred);
        lemma_filter_distinct_keys(old_entries, drop_pred, key);
        assert(entries@ == counters_after_add(old_entries, peer, out_add, in_add));
        assert forall|i: int, j: int|
            0 <= i < j < entries@.len() implies #[trigger] key(entries@[i]) != #[trigger] key(
            entries@[j],
        ) by {
            if j < f.len() {
                assert(key(f[i]) != key(f[j]));
            } else {
                assert(entries@[j] == (peer, entry));
                assert(drop_pred(f[i]));
            }
        }
    }
}

/// Adds bytes to one address pair's entry, creating it at zero first if
/// absent.
fn bump_pair(
    entries: &mut Vec<((Address, Address), TrafficEntry)>,
    remote: Address,
    local: Address,
    out_add: u64,
    in_add: u64,
)
    requires
        distinct_keys(old(entries)@, |e: ((Address, Address), TrafficEntry)| e.0),
    ensures
        distinct_keys(final(entries)@, |e: ((Address, Address), TrafficEntry)| e.0),
        final(entries)@ == counters_after_add(old(entries)@, (remote, local), out_add, in_add),
{
    let ghost old_entries = entries@;
    let ghost drop_pred = other_keys::<(Address, Address)>((remote, local));
    let ghost key = |e: ((Address, Address), TrafficEntry)| e.0;
    let mut prior = TrafficEntry { out_bytes: 0, in_bytes: 0 };
    match find_pair_idx(entries, remote, local) {
        Some(idx) => {
            prior = entries[idx].1;
            proof {
                lemma_find_map_present(old_entries, (remote, local), idx as int);
                assert forall|j: int|
                    0 <= j < old_entries.len() && j != idx as int implies drop_pred(
                    #[trigger] old_entries[j],
                ) by {
                    if j < idx as int {
                        assert(key(old_entries[j]) != key(old_entries[idx as int]));
                    } else {
                        assert(key(old_entries[idx as int]) != key(old_entries[j]));
                    }
                }
            }
            entries.remove(idx);
            proof {
                lemma_remove_is_filter(old_entries, drop_pred, idx as int);
            }
        },
        None => {
            proof {
                crate::seqx::lemma_find_map_absent(old_entries, (remote, local));
                lemma_filter_all(old_entries, drop_pred);
            }
        },
    }
    let entry = TrafficEntry {
        out_bytes: sat_add(prior.out_bytes, out_add),
        in_bytes: sat_add(prior.in_bytes, in_add),
    };
    entries.push(((remote, local), entry));
    proof {
        broadcast use Seq::lemma_filter_pred;

        let f = old_entries.filter(drop_pred);
        lemma_filter_distinct_keys(old_entries, drop_pred, key);
        assert(entries@ == counters_after_add(old_entries, (remote, local), out_add, in_add));
        assert forall|i: int, j: int|
            0 <= i < j < entries@.len() implies #[trigger] key(entries@[i]) != #[trigger] key(
            entries@[j],
        ) by {
            if j < f.len() {
                assert(key(f[i]) != key(f[j]));
            } else {
                assert(entries@[j] == ((remote, local), entry));
                assert(drop_pred(f[i]));
            }
        }
    }
}

} // verus!
