//! The per-peer crypto map. Each registered peer is in one of two states:
//! known without an active session (its traffic passes through unchanged) or
//! holding an active session that encrypts buffers in place. An unregistered
//! peer is absent from the map altogether: absence, not a null session,
//! represents "peer unknown".

use vstd::prelude::*;

use crate::error::Error;
use crate::seqx::{
    distinct_keys, find_map, lemma_filter_all, lemma_filter_distinct_keys,
    lemma_find_map_absent, lemma_find_map_filter_other, lemma_find_map_filter_same,
    lemma_find_map_present, lemma_find_map_push_other, lemma_find_map_push_same,
    lemma_find_map_some_iff, lemma_remove_is_filter,
};
use crate::types::{MsgBuffer, PeerEndpoint};

verus! {

/// A cryptographic session able to transform one packet buffer in place.
/// Construction and key exchange happen outside this core; implementations
/// replace the buffer's content with ciphertext plus any authentication or
/// nonce overhead, adjusting its length.
pub trait CryptoSession {
    fn encrypt(&self, data: &mut MsgBuffer);
}

/// A registered peer's session state. An unregistered peer has no state here:
/// it is absent from the map.
pub enum SessionState<S> {
    /// The peer is known but no session is active; buffers pass unchanged.
    Unencrypted,
    /// An active session encrypts buffers in place.
    Encrypted(S),
}

/// Holds of every entry that does not belong to `peer`.
pub open spec fn other_peers<S>(peer: PeerEndpoint) -> spec_fn((PeerEndpoint, SessionState<S>)) -> bool {
    |e: (PeerEndpoint, SessionState<S>)| e.0 != peer
}

/// The entries after registering a peer: any previous entry for it is
/// replaced.
pub open spec fn entries_after_register<S>(
    entries: Seq<(PeerEndpoint, SessionState<S>)>,
    peer: PeerEndpoint,
    state: SessionState<S>,
) -> Seq<(PeerEndpoint, SessionState<S>)> {
    entries.filter(other_peers(peer)).push((peer, state))
}

/// The entries after removing a peer's registration.
pub open spec fn entries_after_remove<S>(
    entries: Seq<(PeerEndpoint, SessionState<S>)>,
    peer: PeerEndpoint,
) -> Seq<(PeerEndpoint, SessionState<S>)> {
    entries.filter(other_peers(peer))
}

/// The mapping from peer endpoint to session state.
pub struct PeerCryptoMap<S> {
    pub entries: Vec<(PeerEndpoint, SessionState<S>)>,
}

impl<S> PeerCryptoMap<S> {
    /// At most one entry per peer.
    pub open spec fn wf(self) -> bool {
        distinct_keys(self.entries@, |e: (PeerEndpoint, SessionState<S>)| e.0)
    }

    /// The peer's session state, if it is registered.
    pub open spec fn spec_session(self, peer: PeerEndpoint) -> Option<SessionState<S>> {
        find_map(self.entries@, peer)
    }

    /// The peer is known to this node.
    pub open spec fn spec_registered(self, peer: PeerEndpoint) -> bool {
        self.spec_session(peer) is Some
    }

    /// An empty map: every peer is unregistered.
    pub fn new() -> (r: PeerCryptoMap<S>)
        ensures
            r.wf(),
            r.entries@.len() == 0,
            forall|p: PeerEndpoint| !(#[trigger] r.spec_registered(p)),
    {
        PeerCryptoMap { entries: Vec::new() }
    }

    /// Registers a peer with its session state, replacing any previous entry.
    pub fn register(&mut self, peer: PeerEndpoint, state: SessionState<S>)
        requires
            old(self).wf(),
        ensures
            final(self).wf(),
            final(self).entries@ == entries_after_register(old(self).entries@, peer, state),
            final(self).spec_session(peer) == Some(state),
            forall|q: PeerEndpoint|
                q != peer ==> #[trigger] final(self).spec_session(q) == old(self).spec_session(q),
    {
        let ghost old_entries = self.entries@;
        let ghost drop_pred = other_peers::<S>(peer);
        let ghost key = |e: (PeerEndpoint, SessionState<S>)| e.0;
        match find_peer_idx(&self.entries, peer) {
            Some(idx) => {
                proof {
                    assert forall|j: int|
                        0 <= j < old_entries.len() && j != idx as int implies drop_pred(
                        #[trigger] old_entries[j],
                    ) by {
                        if j < idx as int {
                            assert(key(old_entries[j]) != key(old_entries[idx as int]));
                        } else {
                            assert(key(old_entries[idx as int]) != key(old_entries[j]));
                        }
                    }
                }
                self.entries.remove(idx);
                proof {
                    lemma_remove_is_filter(old_entries, drop_pred, idx as int);
                }
            },
            None => {
                proof {
                    lemma_filter_all(old_entries, drop_pred);
                }
            },
        }
        self.entries.push((peer, state));
        proof {
            broadcast use Seq::lemma_filter_pred;

            let f = old_entries.filter(drop_pred);
            assert(self.entries@ == entries_after_register(old_entries, peer, state));
            lemma_filter_distinct_keys(old_entries, drop_pred, key);
            lemma_find_map_push_same(f, peer, state);
            assert forall|q: PeerEndpoint|
                q != peer implies #[trigger] find_map(self.entries@, q) == find_map(
                old_entries,
                q,
            ) by {
                lemma_find_map_push_other(f, peer, state, q);
                lemma_find_map_filter_other(old_entries, drop_pred, q);
            }
            assert forall|i: int, j: int|
                0 <= i < j < self.entries@.len() implies #[trigger] key(self.entries@[i])
                != #[trigger] key(self.entries@[j]) by {
                if j < f.len() {
                    assert(key(f[i]) != key(f[j]));
                } else {
                    assert(self.entries@[j] == (peer, state));
                    assert(drop_pred(f[i]));
                }
            }
        }
    }

    /// Removes a peer's registration entirely. Removing an unregistered peer
    /// is a no-op.
    pub fn remove(&mut self, peer: PeerEndpoint)
        requires
            old(self).wf(),
        ensures
            final(self).wf(),
            final(self).entries@ == entries_after_remove(old(self).entries@, peer),
            !final(self).spec_registered(peer),
            forall|q: PeerEndpoint|
                q != peer ==> #[trigger] final(self).spec_session(q) == old(self).spec_session(q),
    {
        let ghost old_entries = self.entries@;
        let ghost drop_pred = other_peers::<S>(peer);
        let ghost key = |e: (PeerEndpoint, SessionState<S>)| e.0;
        match find_peer_idx(&self.entries, peer) {
            Some(idx) => {
                proof {
                    assert forall|j: int|
                        0 <= j < old_entries.len() && j != idx as int implies drop_pred(
                        #[trigger] old_entries[j],
                    ) by {
                        if j < idx as int {
                            assert(key(old_entries[j]) != key(old_entries[idx as int]));
                        } else {
                            assert(key(old_entries[idx as int]) != key(old_entries[j]));
                        }
                    }
                }
                self.entries.remove(idx);
                proof {
                    lemma_remove_is_filter(old_entries, drop_pred, idx as int);
                }
            },
            None => {
                proof {
                    lemma_filter_all(old_entries, drop_pred);
                }
            },
        }
        proof {
            assert(self.entries@ == entries_after_remove(old_entries, peer));
            lemma_filter_distinct_keys(old_entries, drop_pred, key);
            lemma_find_map_filter_same(old_entries, drop_pred, peer);
            assert forall|q: PeerEndpoint|
                q != peer implies #[trigger] find_map(self.entries@, q) == find_map(
                old_entries,
                q,
            ) by {
                lemma_find_map_filter_other(old_entries, drop_pred, q);
            }
        }
    }

    /// The number of registered peers.
    pub fn count(&self) -> (r: usize)
        ensures
            r == self.entries@.len(),
    {
        self.entries.len()
    }
}

impl<S: CryptoSession> PeerCryptoMap<S> {
    /// Encrypts `data` in place for `peer`. Fails exactly when the peer is
    /// unregistered, leaving the buffer untouched; succeeds on a registered
    /// peer without a session, leaving the buffer unchanged; succeeds on a
    /// peer with a session after its in-place transform.
    pub fn encrypt_for(&mut self, peer: PeerEndpoint, data: &mut MsgBuffer) -> (r: Result<
        (),
        Error,
    >)
        requires
            old(self).wf(),
        ensures
            *final(self) == *old(self),
            r is Ok <==> old(self).spec_registered(peer),
            r is Err ==> r->Err_0 is InvalidCryptoState && final(data)@ == old(data)@,
            (old(self).spec_session(peer) matches Some(st) && st is Unencrypted)
                ==> final(data)@ == old(data)@,
    {
        match find_peer_idx(&self.entries, peer) {
            None => {
                proof {
                    lemma_find_map_absent(self.entries@, peer);
                }
                Err(Error::InvalidCryptoState("no crypto session for peer"))
            },
            Some(idx) => {
                proof {
                    lemma_find_map_present(self.entries@, peer, idx as int);
                }
                match &self.entries[idx].1 {
                    SessionState::Unencrypted => Ok(()),
                    SessionState::Encrypted(session) => {
                        session.encrypt(data);
                        Ok(())
                    },
                }
            },
        }
    }
}

impl<S: Clone> PeerCryptoMap<S> {
    /// A snapshot of the entries: the same peers in the same order, each
    /// session state cloned so callers can use it without holding the map.
    pub fn snapshot(&self) -> (r: Vec<(PeerEndpoint, SessionState<S>)>)
        ensures
            r@.len() == self.entries@.len(),
            forall|i: int|
                0 <= i < r@.len() ==> (#[trigger] r@[i]).0 == self.entries@[i].0,
            forall|i: int|
                0 <= i < r@.len() ==> ((#[trigger] r@[i]).1 is Encrypted <==> self.entries@[i].1
                    is Encrypted),
    {
        let n = self.entries.len();
        let mut out: Vec<(PeerEndpoint, SessionState<S>)> = Vec::new();
        let mut i: usize = 0;
        while i < n
            invariant
                0 <= i <= n,
                n == self.entries@.len(),
                out@.len() == i,
                forall|k: int|
                    0 <= k < i ==> (#[trigger] out@[k]).0 == self.entries@[k].0,
                forall|k: int|
                    0 <= k < i ==> ((#[trigger] out@[k]).1 is Encrypted <==> self.entries@[k].1
                        is Encrypted),
            decreases n - i,
        {
            let peer = self.entries[i].0;
            match &self.entries[i].1 {
                SessionState::Unencrypted => {
                    out.push((peer, SessionState::Unencrypted));
                },
                SessionState::Encrypted(session) => {
                    out.push((peer, SessionState::Encrypted(session.clone())));
                },
            }
            i += 1;
        }
        out
    }
}

/// The set of peers the map registers.
pub open spec fn registered_peers<S>(m: PeerCryptoMap<S>) -> Set<PeerEndpoint> {
    Set::new(|p: PeerEndpoint| m.spec_registered(p))
}

/// Law: count consistency. After any sequence of registrations and removals,
/// the entry count equals the number of distinct registered peers.
pub proof fn lemma_count_consistency<S>(m: PeerCryptoMap<S>)
    requires
        m.wf(),
    ensures
        registered_peers(m).finite(),
        registered_peers(m).len() == m.entries@.len(),
{
    let key = |e: (PeerEndpoint, SessionState<S>)| e.0;
    let keyseq = m.entries@.map_values(key);
    assert(keyseq.no_duplicates()) by {
        assert forall|i: int, j: int|
            0 <= i < j < keyseq.len() implies keyseq[i] != keyseq[j] by {
            assert(key(m.entries@[i]) != key(m.entries@[j]));
        }
    }
    keyseq.unique_seq_to_set();
    assert(registered_peers(m) =~= keyseq.to_set()) by {
        assert forall|p: PeerEndpoint| #[trigger]
            registered_peers(m).contains(p) == keyseq.to_set().contains(p) by {
            lemma_find_map_some_iff(m.entries@, p);
            if keyseq.to_set().contains(p) {
                let i = choose|i: int| 0 <= i < keyseq.len() && keyseq[i] == p;
                assert(m.entries@[i].0 == p);
            }
            if m.spec_registered(p) {
                let i = choose|i: int|
                    0 <= i < m.entries@.len() && (#[trigger] m.entries@[i]).0 == p;
                assert(keyseq[i] == p);
                assert(keyseq.contains(p));
            }
        }
    }
}

/// The index of the peer's entry, if it is registered.
fn find_peer_idx<S>(entries: &Vec<(PeerEndpoint, SessionState<S>)>, peer: PeerEndpoint) -> (r:
    Option<usize>)
    ensures
        match r {
            Some(idx) => idx < entries@.len() && entries@[idx as int].0 == peer,
            None => forall|j: int|
                0 <= j < entries@.len() ==> (#[trigger] entries@[j]).0 != peer,
        },
{
    let n = entries.len();
    let mut i: usize = 0;
    while i < n
        invariant
            0 <= i <= n,
            n == entries@.len(),
            forall|j: int| 0 <= j < i ==> (#[trigger] entries@[j]).0 != peer,
        decreases n - i,
    {
        if entries[i].0 == peer {
            return Some(i);
        }
        i += 1;
    }
    None
}

} // verus!
