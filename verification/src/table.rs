//! The claim-based address routing table: an authoritative address-to-peer
//! ownership index over peers' range claims, with a lower-priority,
//! shorter-lived learned-address cache.
//!
//! A later `set_claims` wins over an earlier one wherever two peers' ranges
//! overlap, so claims are kept in the order they were set and ownership is
//! resolved from the most recent claim backwards.

use vstd::prelude::*;

use crate::seqx::{
    distinct_keys, lemma_filter_all, lemma_filter_contained, lemma_filter_distinct_keys,
    lemma_filter_idem, lemma_filter_push, lemma_push_drop_last, lemma_remove_is_filter, sat_add,
    sat_add_u64,
};
use crate::types::{Address, PeerEndpoint, RangeList};

verus! {

/// How long a learned cache entry stays valid, in the clock's units.
pub const CACHE_TIMEOUT: u64 = 60;

/// One peer's current claim over a list of address ranges.
pub struct ClaimEntry {
    pub peer: PeerEndpoint,
    pub ranges: RangeList,
}

/// A learned address-to-peer mapping with its expiry instant.
#[derive(Clone, Copy, PartialEq, Eq, Structural, Debug)]
pub struct CacheEntry {
    pub addr: Address,
    pub peer: PeerEndpoint,
    pub expiry: u64,
}

/// The peer owning `addr` by explicit claim: the most recently set claim that
/// covers the address wins.
pub open spec fn owner_in(claims: Seq<ClaimEntry>, addr: Address) -> Option<PeerEndpoint>
    decreases claims.len(),
{
    if claims.len() == 0 {
        None
    } else if claims.last().ranges.spec_covers(addr) {
        Some(claims.last().peer)
    } else {
        owner_in(claims.drop_last(), addr)
    }
}

/// The cache entry recorded for `addr`, if any. The most recent one wins,
/// though the table keeps at most one entry per address.
pub open spec fn cache_find(cache: Seq<CacheEntry>, addr: Address) -> Option<CacheEntry>
    decreases cache.len(),
{
    if cache.len() == 0 {
        None
    } else if cache.last().addr == addr {
        Some(cache.last())
    } else {
        cache_find(cache.drop_last(), addr)
    }
}

/// What a lookup resolves to: the claimed owner if one covers the address,
/// else the peer of an unexpired cache entry, else nothing.
pub open spec fn lookup_in(
    claims: Seq<ClaimEntry>,
    cache: Seq<CacheEntry>,
    addr: Address,
    now: u64,
) -> Option<PeerEndpoint> {
    if owner_in(claims, addr) is Some {
        owner_in(claims, addr)
    } else {
        match cache_find(cache, addr) {
            Some(e) => if now < e.expiry {
                Some(e.peer)
            } else {
                None
            },
            None => None,
        }
    }
}

/// The claim list after `set_claims`: the peer's previous claim is discarded
/// in full and the new one appended as the most recent.
pub open spec fn claims_after_set(claims: Seq<ClaimEntry>, entry: ClaimEntry) -> Seq<ClaimEntry> {
    claims.filter(|e: ClaimEntry| e.peer != entry.peer).push(entry)
}

/// The claim list after `remove_claims`: every claim of the peer is gone.
pub open spec fn claims_after_remove(
    claims: Seq<ClaimEntry>,
    peer: PeerEndpoint,
) -> Seq<ClaimEntry> {
    claims.filter(|e: ClaimEntry| e.peer != peer)
}

/// The cache after a claim change: every entry for an address whose owner
/// changed is invalidated.
pub open spec fn cache_after_owner_change(
    old_claims: Seq<ClaimEntry>,
    new_claims: Seq<ClaimEntry>,
    cache: Seq<CacheEntry>,
) -> Seq<CacheEntry> {
    cache.filter(|c: CacheEntry| owner_in(old_claims, c.addr) == owner_in(new_claims, c.addr))
}

/// The cache after `remove_claims`: every entry that resolved to the removed
/// peer is purged.
pub open spec fn cache_after_remove(cache: Seq<CacheEntry>, peer: PeerEndpoint) -> Seq<CacheEntry> {
    cache.filter(|c: CacheEntry| c.peer != peer)
}

/// The cache after `cache`: any prior entry for the address is overwritten by
/// a fresh one that expires `CACHE_TIMEOUT` after `now`.
pub open spec fn cache_after_learn(
    cache: Seq<CacheEntry>,
    addr: Address,
    peer: PeerEndpoint,
    now: u64,
) -> Seq<CacheEntry> {
    cache.filter(|c: CacheEntry| c.addr != addr).push(
        CacheEntry { addr, peer, expiry: sat_add_u64(now, CACHE_TIMEOUT) },
    )
}

/// The address-to-peer ownership index and the learned-address cache.
pub struct ClaimTable {
    pub claims: Vec<ClaimEntry>,
    pub cache: Vec<CacheEntry>,
}

impl ClaimTable {
    /// At most one claim list per peer, every claim list well formed, and at
    /// most one cache entry per address.
    pub open spec fn wf(self) -> bool {
        &&& distinct_keys(self.claims@, |e: ClaimEntry| e.peer)
        &&& forall|i: int|
            0 <= i < self.claims@.len() ==> (#[trigger] self.claims@[i]).ranges.wf()
        &&& distinct_keys(self.cache@, |c: CacheEntry| c.addr)
    }

    /// The peer owning `addr` by explicit claim.
    pub open spec fn spec_claim_owner(self, addr: Address) -> Option<PeerEndpoint> {
        owner_in(self.claims@, addr)
    }

    /// What `lookup` returns at instant `now`.
    pub open spec fn spec_lookup(self, addr: Address, now: u64) -> Option<PeerEndpoint> {
        lookup_in(self.claims@, self.cache@, addr, now)
    }

    /// An empty table: no claims, no cache, so every lookup misses.
    pub fn new() -> (r: ClaimTable)
        ensures
            r.wf(),
            r.claims@.len() == 0,
            r.cache@.len() == 0,
            forall|a: Address, now: u64| #[trigger] r.spec_lookup(a, now) == None::<PeerEndpoint>,
    {
        ClaimTable { claims: Vec::new(), cache: Vec::new() }
    }

    /// Resolves `addr` at instant `now`: the claimed owner takes priority over
    /// the cache; an expired cache entry is ignored. "No route" is a result,
    /// not an error.
    #[verifier::loop_isolation(false)]
    pub fn lookup(&self, addr: Address, now: u64) -> (r: Option<PeerEndpoint>)
        requires
            self.wf(),
        ensures
            r == self.spec_lookup(addr, now),
    {
        match owner_of(&self.claims, addr) {
            Some(p) => Some(p),
            None => {
                let n = self.cache.len();
                let mut i: usize = n;
                proof {
                    assert(self.cache@.take(n as int) =~= self.cache@);
                }
                while i > 0
                    invariant
                        0 <= i <= n,
                        n == self.cache@.len(),
                        cache_find(self.cache@, addr) == cache_find(
                            self.cache@.take(i as int),
                            addr,
                        ),
                    decreases i,
                {
                    proof {
                        let t = self.cache@.take(i as int);
                        assert(t.last() == self.cache@[i - 1]);
                        assert(t.drop_last() =~= self.cache@.take(i - 1));
                    }
                    let e = self.cache[i - 1];
                    if e.addr == addr {
                        if now < e.expiry {
                            return Some(e.peer);
                        } else {
                            return None;
                        }
                    }
                    i -= 1;
                }
                proof {
                    assert(self.cache@.take(0) =~= Seq::<CacheEntry>::empty());
                }
                None
            },
        }
    }

    /// Replaces the peer's claim list atomically. The peer's previous list is
    /// discarded in full, the new claim becomes the most recent (so it wins
    /// wherever it overlaps another peer's), and every cache entry for an
    /// address whose owner changed is invalidated.
    #[verifier::loop_isolation(false)]
    pub fn set_claims(&mut self, peer: PeerEndpoint, ranges: RangeList)
        requires
            old(self).wf(),
            ranges.wf(),
        ensures
            final(self).wf(),
            final(self).claims@ == claims_after_set(
                old(self).claims@,
                (ClaimEntry { peer, ranges }),
            ),
            final(self).cache@ == cache_after_owner_change(
                old(self).claims@,
                final(self).claims@,
                old(self).cache@,
            ),
    {
        let ghost old_claims = self.claims@;
        let ghost old_cache = self.cache@;
        let ghost entry_g = ClaimEntry { peer, ranges };
        let ghost drop_pred = |e: ClaimEntry| e.peer != peer;

        // Record, per cache entry, who owned its address before the change.
        let n = self.cache.len();
        let mut old_owners: Vec<Option<PeerEndpoint>> = Vec::new();
        let mut i: usize = 0;
        while i < n
            invariant
                0 <= i <= n,
                n == old_cache.len(),
                self.claims@ == old_claims,
                self.cache@ == old_cache,
                old_owners@.len() == i,
                forall|k: int|
                    0 <= k < i ==> #[trigger] old_owners@[k] == owner_in(
                        old_claims,
                        old_cache[k].addr,
                    ),
            decreases n - i,
        {
            let o = owner_of(&self.claims, self.cache[i].addr);
            old_owners.push(o);
            i += 1;
        }

        // Replace the peer's claim entry.
        match find_claim_idx(&self.claims, peer) {
            Some(idx) => {
                proof {
                    let key = |e: ClaimEntry| e.peer;
                    assert forall|j: int|
                        0 <= j < old_claims.len() && j != idx as int implies drop_pred(
                        #[trigger] old_claims[j],
                    ) by {
                        if j < idx as int {
                            assert(key(old_claims[j]) != key(old_claims[idx as int]));
                        } else {
                            assert(key(old_claims[idx as int]) != key(old_claims[j]));
                        }
                    }
                }
                self.claims.remove(idx);
                proof {
                    lemma_remove_is_filter(old_claims, drop_pred, idx as int);
                }
            },
            None => {
                proof {
                    lemma_filter_all(old_claims, drop_pred);
                }
            },
        }
        self.claims.push(ClaimEntry { peer, ranges });
        proof {
            assert(drop_pred =~= (|e: ClaimEntry| e.peer != entry_g.peer));
            assert(self.claims@ == claims_after_set(old_claims, entry_g));
        }
        let ghost new_claims = self.claims@;
        let ghost keep_pred = |c: CacheEntry| owner_in(old_claims, c.addr) == owner_in(
            new_claims,
            c.addr,
        );
        proof {
            lemma_set_preserves_wf(old_claims, old_cache, entry_g, keep_pred);
        }

        // Keep only the cache entries whose owner is unchanged.
        let mut new_cache: Vec<CacheEntry> = Vec::new();
        let mut i: usize = 0;
        while i < n
            invariant
                0 <= i <= n,
                n == old_cache.len(),
                self.claims@ == new_claims,
                self.cache@ == old_cache,
                old_owners@.len() == n,
                forall|k: int|
                    0 <= k < n ==> #[trigger] old_owners@[k] == owner_in(
                        old_claims,
                        old_cache[k].addr,
                    ),
                new_cache@ == old_cache.take(i as int).filter(keep_pred),
            decreases n - i,
        {
            let c = self.cache[i];
            let new_owner = owner_of(&self.claims, c.addr);
            let same = option_peer_eq(old_owners[i], new_owner);
            if same {
                new_cache.push(c);
            }
            proof {
                assert(old_cache.take(i + 1) =~= old_cache.take(i as int).push(old_cache[i as int]));
                lemma_filter_push(old_cache.take(i as int), old_cache[i as int], keep_pred);
                assert(keep_pred(old_cache[i as int]) == same);
            }
            i += 1;
        }
        self.cache = new_cache;
        proof {
            assert(old_cache.take(n as int) =~= old_cache);
        }
    }

    /// Deletes every claim of the peer and purges every cache entry that
    /// resolved to it. Removing a peer with no claims is a no-op.
    #[verifier::loop_isolation(false)]
    pub fn remove_claims(&mut self, peer: PeerEndpoint)
        requires
            old(self).wf(),
        ensures
            final(self).wf(),
            final(self).claims@ == claims_after_remove(old(self).claims@, peer),
            final(self).cache@ == cache_after_remove(old(self).cache@, peer),
    {
        let ghost old_claims = self.claims@;
        let ghost old_cache = self.cache@;
        let ghost drop_pred = |e: ClaimEntry| e.peer != peer;
        let ghost keep_pred = |c: CacheEntry| c.peer != peer;

        match find_claim_idx(&self.claims, peer) {
            Some(idx) => {
                proof {
                    let key = |e: ClaimEntry| e.peer;
                    assert forall|j: int|
                        0 <= j < old_claims.len() && j != idx as int implies drop_pred(
                        #[trigger] old_claims[j],
                    ) by {
                        if j < idx as int {
                            assert(key(old_claims[j]) != key(old_claims[idx as int]));
                        } else {
                            assert(key(old_claims[idx as int]) != key(old_claims[j]));
                        }
                    }
                }
                self.claims.remove(idx);
                proof {
                    lemma_remove_is_filter(old_claims, drop_pred, idx as int);
                }
            },
            None => {
                proof {
                    lemma_filter_all(old_claims, drop_pred);
                }
            },
        }

        let n = self.cache.len();
        let mut new_cache: Vec<CacheEntry> = Vec::new();
        let mut i: usize = 0;
        while i < n
            invariant
                0 <= i <= n,
                n == old_cache.len(),
                self.cache@ == old_cache,
                new_cache@ == old_cache.take(i as int).filter(keep_pred),
            decreases n - i,
        {
            let c = self.cache[i];
            if c.peer != peer {
                new_cache.push(c);
            }
            proof {
                let t = old_cache.take(i as int);
                let cg = old_cache[i as int];
                assert(c == cg);
                assert(keep_pred(cg) == (cg.peer != peer));
                assert(old_cache.take(i + 1) =~= t.push(cg));
                lemma_filter_push(t, cg, keep_pred);
                assert(new_cache@ == old_cache.take(i + 1).filter(keep_pred));
            }
            i += 1;
        }
        self.cache = new_cache;
        proof {
            assert(old_cache.take(n as int) =~= old_cache);
            lemma_filter_contained(old_claims, drop_pred);
            lemma_filter_distinct_keys(old_claims, drop_pred, |e: ClaimEntry| e.peer);
            lemma_filter_distinct_keys(old_cache, keep_pred, |c: CacheEntry| c.addr);
            assert forall|k: int|
                0 <= k < self.claims@.len() implies (#[trigger] self.claims@[k]).ranges.wf() by {
                assert(old_claims.contains(self.claims@[k]));
                let j = choose|j: int| 0 <= j < old_claims.len() && old_claims[j] == self.claims@[k];
            }
        }
    }

    /// Records or refreshes a learned mapping for `addr`, overwriting any
    /// prior cache entry for it. Explicit claims are untouched and keep their
    /// priority at lookup.
    #[verifier::loop_isolation(false)]
    pub fn cache(&mut self, addr: Address, peer: PeerEndpoint, now: u64)
        requires
            old(self).wf(),
        ensures
            final(self).wf(),
            final(self).claims@ == old(self).claims@,
            final(self).cache@ == cache_after_learn(old(self).cache@, addr, peer, now),
    {
        let ghost old_cache = self.cache@;
        let ghost keep_pred = |c: CacheEntry| c.addr != addr;

        let n = self.cache.len();
        let mut new_cache: Vec<CacheEntry> = Vec::new();
        let mut i: usize = 0;
        while i < n
            invariant
                0 <= i <= n,
                n == old_cache.len(),
                self.cache@ == old_cache,
                new_cache@ == old_cache.take(i as int).filter(keep_pred),
            decreases n - i,
        {
            let c = self.cache[i];
            if c.addr != addr {
                new_cache.push(c);
            }
            proof {
                assert(old_cache.take(i + 1) =~= old_cache.take(i as int).push(old_cache[i as int]));
                lemma_filter_push(old_cache.take(i as int), old_cache[i as int], keep_pred);
            }
            i += 1;
        }
        let expiry = sat_add(now, CACHE_TIMEOUT);
        new_cache.push(CacheEntry { addr, peer, expiry });
        self.cache = new_cache;
        proof {
            assert(old_cache.take(n as int) =~= old_cache);
            broadcast use Seq::lemma_filter_pred;

            let key = |c: CacheEntry| c.addr;
            lemma_filter_distinct_keys(old_cache, keep_pred, key);
            let f = old_cache.filter(keep_pred);
            let e = CacheEntry { addr, peer, expiry: sat_add_u64(now, CACHE_TIMEOUT) };
            assert(self.cache@ == f.push(e));
            assert forall|k: int, j: int|
                0 <= k < j < self.cache@.len() implies #[trigger] key(self.cache@[k])
                != #[trigger] key(self.cache@[j]) by {
                if j < f.len() {
                    assert(key(f[k]) != key(f[j]));
                } else {
                    assert(self.cache@[j] == e);
                    assert(keep_pred(f[k]));
                    assert(key(f[k]) == f[k].addr);
                }
            }
            assert(distinct_keys(self.cache@, key));
        }
    }
}

/// The most recently set claim covering `addr`, scanned from the newest claim
/// backwards.
#[verifier::loop_isolation(false)]
fn owner_of(claims: &Vec<ClaimEntry>, addr: Address) -> (r: Option<PeerEndpoint>)
    requires
        forall|i: int| 0 <= i < claims@.len() ==> (#[trigger] claims@[i]).ranges.wf(),
    ensures
        r == owner_in(claims@, addr),
{
    let n = claims.len();
    let mut i: usize = n;
    proof {
        assert(claims@.take(n as int) =~= claims@);
    }
    while i > 0
        invariant
            0 <= i <= n,
            n == claims@.len(),
            owner_in(claims@, addr) == owner_in(claims@.take(i as int), addr),
        decreases i,
    {
        proof {
            let t = claims@.take(i as int);
            assert(t.last() == claims@[i - 1]);
            assert(t.drop_last() =~= claims@.take(i - 1));
        }
        if claims[i - 1].ranges.contains(addr) {
            return Some(claims[i - 1].peer);
        }
        i -= 1;
    }
    proof {
        assert(claims@.take(0) =~= Seq::<ClaimEntry>::empty());
    }
    None
}

/// The index of the peer's claim entry, if it has one.
#[verifier::loop_isolation(false)]
fn find_claim_idx(claims: &Vec<ClaimEntry>, peer: PeerEndpoint) -> (r: Option<usize>)
    ensures
        match r {
            Some(idx) => idx < claims@.len() && claims@[idx as int].peer == peer,
            None => forall|j: int| 0 <= j < claims@.len() ==> (#[trigger] claims@[j]).peer != peer,
        },
{
    let n = claims.len();
    let mut i: usize = 0;
    while i < n
        invariant
            0 <= i <= n,
            n == claims@.len(),
            forall|j: int| 0 <= j < i ==> (#[trigger] claims@[j]).peer != peer,
        decreases n - i,
    {
        if claims[i].peer == peer {
            return Some(i);
        }
        i += 1;
    }
    None
}

/// Value equality of two optional peers.
fn option_peer_eq(a: Option<PeerEndpoint>, b: Option<PeerEndpoint>) -> (r: bool)
    ensures
        r == (a == b),
{
    match (a, b) {
        (None, None) => true,
        (Some(x), Some(y)) => x == y,
        _ => false,
    }
}

/// `set_claims` keeps the table well formed.
proof fn lemma_set_preserves_wf(
    old_claims: Seq<ClaimEntry>,
    old_cache: Seq<CacheEntry>,
    entry: ClaimEntry,
    keep_pred: spec_fn(CacheEntry) -> bool,
)
    requires
        distinct_keys(old_claims, |e: ClaimEntry| e.peer),
        forall|i: int| 0 <= i < old_claims.len() ==> (#[trigger] old_claims[i]).ranges.wf(),
        distinct_keys(old_cache, |c: CacheEntry| c.addr),
        entry.ranges.wf(),
    ensures
        distinct_keys(claims_after_set(old_claims, entry), |e: ClaimEntry| e.peer),
        forall|i: int|
            0 <= i < claims_after_set(old_claims, entry).len() ==> (#[trigger] claims_after_set(
                old_claims,
                entry,
            )[i]).ranges.wf(),
        distinct_keys(old_cache.filter(keep_pred), |c: CacheEntry| c.addr),
{
    broadcast use Seq::lemma_filter_pred;

    let drop_pred = |e: ClaimEntry| e.peer != entry.peer;
    let f = old_claims.filter(drop_pred);
    let key = |e: ClaimEntry| e.peer;
    lemma_filter_contained(old_claims, drop_pred);
    lemma_filter_distinct_keys(old_claims, drop_pred, key);
    lemma_filter_distinct_keys(old_cache, keep_pred, |c: CacheEntry| c.addr);
    let new_claims = claims_after_set(old_claims, entry);
    assert(new_claims == f.push(entry));
    assert forall|i: int, j: int|
        0 <= i < j < new_claims.len() implies #[trigger] key(new_claims[i]) != #[trigger] key(
        new_claims[j],
    ) by {
        if j < f.len() {
            assert(key(f[i]) != key(f[j]));
        } else {
            assert(new_claims[j] == entry);
            assert(drop_pred(f[i]));
        }
    }
    assert forall|i: int| 0 <= i < new_claims.len() implies (#[trigger] new_claims[i]).ranges.wf() by {
        if i < f.len() {
            assert(old_claims.contains(f[i]));
            let j = choose|j: int| 0 <= j < old_claims.len() && old_claims[j] == f[i];
        } else {
            assert(new_claims[i] == entry);
        }
    }
}

/// A claim resolution always names a peer holding a claim that covers the
/// address.
pub proof fn lemma_owner_in_member(claims: Seq<ClaimEntry>, addr: Address)
    ensures
        owner_in(claims, addr) matches Some(p) ==> exists|i: int|
            0 <= i < claims.len() && (#[trigger] claims[i]).peer == p
                && claims[i].ranges.spec_covers(addr),
    decreases claims.len(),
{
    if claims.len() > 0 {
        assert(claims.last() == claims[claims.len() - 1]);
        lemma_owner_in_member(claims.drop_last(), addr);
        if !claims.last().ranges.spec_covers(addr) {
            if let Some(p) = owner_in(claims, addr) {
                let i = choose|i: int|
                    0 <= i < claims.drop_last().len() && (#[trigger] claims.drop_last()[i]).peer
                        == p && claims.drop_last()[i].ranges.spec_covers(addr);
                assert(claims[i] == claims.drop_last()[i]);
            }
        }
    }
}

/// A cache search only ever returns an entry of the cache, and one recorded
/// for the searched address.
pub proof fn lemma_cache_find_member(cache: Seq<CacheEntry>, addr: Address)
    ensures
        cache_find(cache, addr) matches Some(e) ==> cache.contains(e) && e.addr == addr,
    decreases cache.len(),
{
    if cache.len() > 0 {
        assert(cache.last() == cache[cache.len() - 1]);
        lemma_cache_find_member(cache.drop_last(), addr);
        if cache.last().addr != addr {
            if let Some(e) = cache_find(cache, addr) {
                assert(cache.drop_last().contains(e));
                let i = choose|i: int|
                    0 <= i < cache.drop_last().len() && cache.drop_last()[i] == e;
                assert(cache[i] == e);
            }
        }
    }
}

/// Law: a claim routes its addresses. After `set_claims`, every address the
/// new claim covers resolves to that peer, and every other address resolves
/// as if the peer merely had its claims removed.
pub proof fn lemma_set_claims_then_lookup(
    claims: Seq<ClaimEntry>,
    entry: ClaimEntry,
    addr: Address,
)
    ensures
        entry.ranges.spec_covers(addr) ==> owner_in(claims_after_set(claims, entry), addr)
            == Some(entry.peer),
        !entry.ranges.spec_covers(addr) ==> owner_in(claims_after_set(claims, entry), addr)
            == owner_in(claims_after_remove(claims, entry.peer), addr),
{
    let f = claims.filter(|e: ClaimEntry| e.peer != entry.peer);
    lemma_push_drop_last(f, entry);
    assert(f.push(entry).last() == entry);
}

/// Law: full replacement. Setting a peer's claims twice in a row leaves
/// exactly the claims of the second call; nothing of the first is merged in.
pub proof fn lemma_set_claims_replaces(claims: Seq<ClaimEntry>, e1: ClaimEntry, e2: ClaimEntry)
    requires
        e1.peer == e2.peer,
    ensures
        claims_after_set(claims_after_set(claims, e1), e2) == claims_after_set(claims, e2),
{
    let p1 = |e: ClaimEntry| e.peer != e1.peer;
    let p2 = |e: ClaimEntry| e.peer != e2.peer;
    assert(p1 =~= p2);
    lemma_filter_push(claims.filter(p1), e1, p2);
    lemma_filter_idem(claims, p2);
}

/// Law: last writer wins per address. After two different peers claim
/// overlapping ranges, an address covered by the later claim resolves to the
/// later peer, and an address only the earlier claim covers still resolves to
/// the earlier peer.
pub proof fn lemma_last_claim_wins(
    claims: Seq<ClaimEntry>,
    e1: ClaimEntry,
    e2: ClaimEntry,
    addr: Address,
)
    requires
        e1.peer != e2.peer,
    ensures
        e2.ranges.spec_covers(addr) ==> owner_in(
            claims_after_set(claims_after_set(claims, e1), e2),
            addr,
        ) == Some(e2.peer),
        e1.ranges.spec_covers(addr) && !e2.ranges.spec_covers(addr) ==> owner_in(
            claims_after_set(claims_after_set(claims, e1), e2),
            addr,
        ) == Some(e1.peer),
{
    let after1 = claims_after_set(claims, e1);
    lemma_set_claims_then_lookup(after1, e2, addr);
    if e1.ranges.spec_covers(addr) && !e2.ranges.spec_covers(addr) {
        let p1 = |e: ClaimEntry| e.peer != e1.peer;
        let p2 = |e: ClaimEntry| e.peer != e2.peer;
        lemma_filter_push(claims.filter(p1), e1, p2);
        let g = claims.filter(p1).filter(p2);
        assert(claims_after_remove(after1, e2.peer) == g.push(e1));
        lemma_push_drop_last(g, e1);
        assert(g.push(e1).last() == e1);
    }
}

/// Law: removal purges. After `remove_claims`, no lookup resolves to the
/// removed peer, whether through a claim or through the cache.
pub proof fn lemma_remove_then_lookup(
    claims: Seq<ClaimEntry>,
    cache: Seq<CacheEntry>,
    peer: PeerEndpoint,
    addr: Address,
    now: u64,
)
    ensures
        lookup_in(
            claims_after_remove(claims, peer),
            cache_after_remove(cache, peer),
            addr,
            now,
        ) != Some(peer),
{
    broadcast use Seq::lemma_filter_pred;

    let new_claims = claims_after_remove(claims, peer);
    let new_cache = cache_after_remove(cache, peer);
    lemma_owner_in_member(new_claims, addr);
    if let Some(p) = owner_in(new_claims, addr) {
        let i = choose|i: int|
            0 <= i < new_claims.len() && (#[trigger] new_claims[i]).peer == p
                && new_claims[i].ranges.spec_covers(addr);
        assert(p != peer);
    } else {
        lemma_cache_find_member(new_cache, addr);
        if let Some(e) = cache_find(new_cache, addr) {
            let i = choose|i: int| 0 <= i < new_cache.len() && new_cache[i] == e;
            assert(e.peer != peer);
        }
    }
}

/// Law: cache fallback. With no claim covering the address, a lookup within
/// the cache lifetime of a `cache` call returns the learned peer.
pub proof fn lemma_cache_fallback(
    claims: Seq<ClaimEntry>,
    cache: Seq<CacheEntry>,
    addr: Address,
    peer: PeerEndpoint,
    now: u64,
    later: u64,
)
    requires
        owner_in(claims, addr) is None,
        later < sat_add_u64(now, CACHE_TIMEOUT),
    ensures
        lookup_in(claims, cache_after_learn(cache, addr, peer, now), addr, later) == Some(peer),
{
    let e = CacheEntry { addr, peer, expiry: sat_add_u64(now, CACHE_TIMEOUT) };
    let f = cache.filter(|c: CacheEntry| c.addr != addr);
    lemma_push_drop_last(f, e);
    assert(f.push(e).last() == e);
}

/// Law: a claim routes its addresses end to end. After `set_claims`, with its
/// cache invalidation included, a lookup of any address the new claim covers
/// returns the claiming peer, whatever the cache held and whatever the time.
pub proof fn lemma_set_claims_routes(
    claims: Seq<ClaimEntry>,
    cache: Seq<CacheEntry>,
    entry: ClaimEntry,
    addr: Address,
    now: u64,
)
    requires
        entry.ranges.spec_covers(addr),
    ensures
        lookup_in(
            claims_after_set(claims, entry),
            cache_after_owner_change(claims, claims_after_set(claims, entry), cache),
            addr,
            now,
        ) == Some(entry.peer),
{
    lemma_set_claims_then_lookup(claims, entry, addr);
}

/// Law: explicit claims take priority over the cache, whatever the cache
/// holds and whatever the time.
pub proof fn lemma_claims_take_priority(
    claims: Seq<ClaimEntry>,
    cache: Seq<CacheEntry>,
    addr: Address,
    now: u64,
)
    ensures
        owner_in(claims, addr) is Some ==> lookup_in(claims, cache, addr, now) == owner_in(
            claims,
            addr,
        ),
{
}

/// Law: removal is idempotent. Removing a peer's claims twice in a row leaves
/// the same table as removing them once.
pub proof fn lemma_remove_claims_idempotent(
    claims: Seq<ClaimEntry>,
    cache: Seq<CacheEntry>,
    peer: PeerEndpoint,
)
    ensures
        claims_after_remove(claims_after_remove(claims, peer), peer) == claims_after_remove(
            claims,
            peer,
        ),
        cache_after_remove(cache_after_remove(cache, peer), peer) == cache_after_remove(
            cache,
            peer,
        ),
{
    lemma_filter_idem(claims, |e: ClaimEntry| e.peer != peer);
    lemma_filter_idem(cache, |c: CacheEntry| c.peer != peer);
}

} // verus!
