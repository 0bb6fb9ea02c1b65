//! Plain value types that cross the library boundary: addresses, peer
//! endpoints, address ranges and packet buffers.

use vstd::prelude::*;

verus! {

/// A virtual network address in the overlay's address space, as one
/// fixed-width identifier.
pub type Address = u64;

/// The transport-level identity of a peer: host and port. The host is held as
/// one fixed-width integer so that endpoints compare by value.
#[derive(Clone, Copy, PartialEq, Eq, Structural, Debug, Hash)]
pub struct PeerEndpoint {
    pub host: u128,
    pub port: u16,
}

/// A contiguous inclusive interval of addresses.
#[derive(Clone, Copy, PartialEq, Eq, Structural, Debug)]
pub struct AddrRange {
    pub start: Address,
    pub end: Address,
}

impl AddrRange {
    /// The interval contains `addr`.
    pub open spec fn spec_covers(self, addr: Address) -> bool {
        self.start <= addr && addr <= self.end
    }

    pub fn covers(&self, addr: Address) -> (r: bool)
        ensures
            r == self.spec_covers(addr),
    {
        self.start <= addr && addr <= self.end
    }
}

/// Some range of the sequence contains `addr`.
pub open spec fn covers(ranges: Seq<AddrRange>, addr: Address) -> bool {
    exists|i: int| 0 <= i < ranges.len() && (#[trigger] ranges[i]).spec_covers(addr)
}

/// An ordered sequence of disjoint ranges, read as the set of addresses one
/// peer claims to own.
#[derive(Clone, Debug)]
pub struct RangeList {
    pub ranges: Vec<AddrRange>,
}

impl View for RangeList {
    type V = Seq<AddrRange>;

    open spec fn view(&self) -> Seq<AddrRange> {
        self.ranges@
    }
}

/// The ranges are non-empty, sorted and pairwise disjoint.
pub open spec fn ranges_wf(rs: Seq<AddrRange>) -> bool {
    &&& forall|i: int| 0 <= i < rs.len() ==> (#[trigger] rs[i]).start <= rs[i].end
    &&& forall|i: int| 0 <= i && i + 1 < rs.len() ==> (#[trigger] rs[i]).end < rs[i + 1].start
}

impl RangeList {
    /// Ranges are non-empty, sorted and pairwise disjoint.
    pub open spec fn wf(self) -> bool {
        ranges_wf(self@)
    }

    /// The list covers `addr`.
    pub open spec fn spec_covers(self, addr: Address) -> bool {
        covers(self@, addr)
    }

    /// Builds a list from ranges, accepted exactly when they are non-empty,
    /// sorted and pairwise disjoint.
    #[verifier::loop_isolation(false)]
    pub fn new(ranges: Vec<AddrRange>) -> (r: Option<RangeList>)
        ensures
            r is Some <==> ranges_wf(ranges@),
            r matches Some(list) ==> list@ == ranges@ && list.wf(),
    {
        let n = ranges.len();
        let mut i: usize = 0;
        let mut ok = true;
        while i < n
            invariant
                0 <= i <= n,
                n == ranges@.len(),
                ok == {
                    &&& forall|k: int| 0 <= k < i ==> (#[trigger] ranges@[k]).start <= ranges@[k].end
                    &&& forall|k: int|
                        0 <= k && k + 1 < i ==> (#[trigger] ranges@[k]).end < ranges@[k + 1].start
                },
            decreases n - i,
        {
            if ranges[i].start > ranges[i].end {
                ok = false;
            }
            if i > 0 && ranges[i - 1].end >= ranges[i].start {
                ok = false;
            }
            i += 1;
        }
        if ok {
            Some(RangeList { ranges })
        } else {
            None
        }
    }

    /// An empty claim list: it covers no address.
    pub fn empty() -> (r: RangeList)
        ensures
            r@.len() == 0,
            r.wf(),
            forall|a: Address| !r.spec_covers(a),
    {
        RangeList { ranges: Vec::new() }
    }

    /// Binary search over the sorted, disjoint ranges.
    #[verifier::loop_isolation(false)]
    #[verifier::rlimit(30)]
    pub fn contains(&self, addr: Address) -> (r: bool)
        requires
            self.wf(),
        ensures
            r == self.spec_covers(addr),
    {
        let mut lo: usize = 0;
        let mut hi: usize = self.ranges.len();
        while lo < hi
            invariant
                0 <= lo <= hi <= self@.len(),
                forall|k: int| 0 <= k < lo ==> (#[trigger] self@[k]).end < addr,
                forall|k: int| hi <= k < self@.len() ==> addr < (#[trigger] self@[k]).start,
            decreases hi - lo,
        {
            let mid = lo + (hi - lo) / 2;
            if self.ranges[mid].end < addr {
                proof {
                    lemma_ranges_sorted(self@, mid as int);
                }
                lo = mid + 1;
            } else if addr < self.ranges[mid].start {
                proof {
                    lemma_ranges_sorted(self@, mid as int);
                }
                hi = mid;
            } else {
                proof {
                    assert((self@[mid as int]).spec_covers(addr));
                }
                return true;
            }
        }
        proof {
            assert forall|k: int| 0 <= k < self@.len() implies !(#[trigger] self@[k]).spec_covers(
                addr,
            ) by {
                if k < lo {
                } else {
                    assert(hi <= k);
                }
            }
            assert(!self.spec_covers(addr));
        }
        false
    }
}

/// In a well-formed range list, everything left of a range ends before it
/// starts and everything right of it starts after it ends.
proof fn lemma_ranges_sorted(rs: Seq<AddrRange>, mid: int)
    requires
        ranges_wf(rs),
        0 <= mid < rs.len(),
    ensures
        forall|k: int| 0 <= k < mid ==> (#[trigger] rs[k]).end < rs[mid].start,
        forall|k: int| mid < k < rs.len() ==> rs[mid].end < (#[trigger] rs[k]).start,
{
    assert forall|k: int| 0 <= k < mid implies (#[trigger] rs[k]).end < rs[mid].start by {
        lemma_ranges_chain(rs, k, mid);
    }
    assert forall|k: int| mid < k < rs.len() implies rs[mid].end < (#[trigger] rs[k]).start by {
        lemma_ranges_chain(rs, mid, k);
    }
}

/// Chains the adjacent disjointness of a well-formed range list across any
/// distance: an earlier range ends before a later one starts.
proof fn lemma_ranges_chain(rs: Seq<AddrRange>, i: int, j: int)
    requires
        ranges_wf(rs),
        0 <= i < j < rs.len(),
    ensures
        rs[i].end < rs[j].start,
    decreases j - i,
{
    if i + 1 == j {
    } else {
        lemma_ranges_chain(rs, i, j - 1);
        assert(rs[j - 1].end < rs[j].start);
        assert(rs[j - 1].start <= rs[j - 1].end);
    }
}

/// One packet's mutable payload; its content may be replaced in place, with
/// the length growing or shrinking.
#[derive(Clone, Debug)]
pub struct MsgBuffer {
    pub data: Vec<u8>,
}

impl View for MsgBuffer {
    type V = Seq<u8>;

    open spec fn view(&self) -> Seq<u8> {
        self.data@
    }
}

impl MsgBuffer {
    pub fn from_vec(data: Vec<u8>) -> (r: MsgBuffer)
        ensures
            r@ == data@,
    {
        MsgBuffer { data }
    }

    pub fn len(&self) -> (r: usize)
        ensures
            r == self@.len(),
    {
        self.data.len()
    }
}

} // verus!
