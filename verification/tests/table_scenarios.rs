use overlay_core::table::ClaimTable;
use overlay_core::types::{AddrRange, PeerEndpoint, RangeList};

fn ep(host: u128, port: u16) -> PeerEndpoint {
    PeerEndpoint { host, port }
}

fn ranges(pairs: &[(u64, u64)]) -> RangeList {
    let mut v = Vec::new();
    for &(start, end) in pairs {
        v.push(AddrRange { start, end });
    }
    RangeList::new(v).expect("ranges must be sorted and disjoint")
}

#[test]
fn claim_then_lookup() {
    let p = ep(1, 1000);
    let mut t = ClaimTable::new();
    t.set_claims(p, ranges(&[(10, 20)]));
    assert_eq!(t.lookup(15, 0), Some(p));
    assert_eq!(t.lookup(25, 0), None);
}

#[test]
fn full_replacement() {
    let p = ep(1, 1000);
    let mut t = ClaimTable::new();
    t.set_claims(p, ranges(&[(10, 20)]));
    t.set_claims(p, ranges(&[(50, 60)]));
    assert_eq!(t.lookup(15, 0), None);
    assert_eq!(t.lookup(55, 0), Some(p));
}

#[test]
fn removal_purges_cache() {
    let p = ep(1, 1000);
    let mut t = ClaimTable::new();
    t.set_claims(p, ranges(&[(10, 20)]));
    t.cache(30, p, 0);
    t.remove_claims(p);
    assert_eq!(t.lookup(15, 0), None);
    assert_eq!(t.lookup(30, 0), None);
}

#[test]
fn cache_fallback() {
    let q = ep(2, 2000);
    let mut t = ClaimTable::new();
    t.cache(40, q, 0);
    assert_eq!(t.lookup(40, 0), Some(q));
}

#[test]
fn overlap_tie_break() {
    let a = ep(1, 1000);
    let b = ep(2, 2000);
    let mut t = ClaimTable::new();
    t.set_claims(a, ranges(&[(10, 20)]));
    t.set_claims(b, ranges(&[(15, 25)]));
    assert_eq!(t.lookup(18, 0), Some(b));
    assert_eq!(t.lookup(12, 0), Some(a));
    assert_eq!(t.lookup(25, 0), Some(b));
}

#[test]
fn remove_claims_idempotent() {
    let p = ep(1, 1000);
    let q = ep(2, 2000);
    let mut t = ClaimTable::new();
    t.set_claims(p, ranges(&[(10, 20)]));
    t.set_claims(q, ranges(&[(30, 40)]));
    t.cache(50, p, 0);
    t.cache(60, q, 0);
    t.remove_claims(p);
    let after_once: Vec<Option<PeerEndpoint>> =
        (0..80).map(|a| t.lookup(a, 0)).collect();
    let claims_len = t.claims.len();
    let cache_len = t.cache.len();
    t.remove_claims(p);
    let after_twice: Vec<Option<PeerEndpoint>> =
        (0..80).map(|a| t.lookup(a, 0)).collect();
    assert_eq!(after_once, after_twice);
    assert_eq!(t.claims.len(), claims_len);
    assert_eq!(t.cache.len(), cache_len);
}

#[test]
fn cache_entry_expires() {
    let q = ep(2, 2000);
    let mut t = ClaimTable::new();
    t.cache(40, q, 100);
    assert_eq!(t.lookup(40, 159), Some(q));
    assert_eq!(t.lookup(40, 160), None);
}

#[test]
fn cache_overwrites_prior_entry() {
    let q = ep(2, 2000);
    let r = ep(3, 3000);
    let mut t = ClaimTable::new();
    t.cache(40, q, 0);
    t.cache(40, r, 0);
    assert_eq!(t.lookup(40, 0), Some(r));
}

#[test]
fn cache_never_shadows_claim() {
    let p = ep(1, 1000);
    let q = ep(2, 2000);
    let mut t = ClaimTable::new();
    t.set_claims(p, ranges(&[(10, 20)]));
    t.cache(15, q, 0);
    assert_eq!(t.lookup(15, 0), Some(p));
}

#[test]
fn set_claims_invalidates_only_changed_owners() {
    let a = ep(1, 1000);
    let b = ep(2, 2000);
    let c = ep(3, 3000);
    let d = ep(4, 4000);
    let mut t = ClaimTable::new();
    t.set_claims(a, ranges(&[(10, 20)]));
    t.cache(15, c, 0);
    t.cache(30, d, 0);
    // 15's owner changes from a to b, so its cache entry goes; 30 has no
    // owner before or after, so its entry stays.
    t.set_claims(b, ranges(&[(10, 20)]));
    t.remove_claims(a);
    t.remove_claims(b);
    assert_eq!(t.lookup(15, 0), None);
    assert_eq!(t.lookup(30, 0), Some(d));
}

#[test]
fn empty_range_list_releases_everything() {
    let p = ep(1, 1000);
    let mut t = ClaimTable::new();
    t.set_claims(p, ranges(&[(10, 20)]));
    t.set_claims(p, RangeList::empty());
    assert_eq!(t.lookup(15, 0), None);
}

#[test]
fn range_list_accepts_sorted_disjoint() {
    let list = RangeList::new(vec![
        AddrRange { start: 1, end: 5 },
        AddrRange { start: 7, end: 7 },
        AddrRange { start: 9, end: 20 },
    ]);
    let list = list.expect("sorted disjoint ranges are accepted");
    assert!(list.contains(3));
    assert!(list.contains(7));
    assert!(!list.contains(8));
}

#[test]
fn range_list_rejects_reversed_range() {
    assert!(RangeList::new(vec![AddrRange { start: 5, end: 1 }]).is_none());
}

#[test]
fn range_list_rejects_overlap() {
    assert!(RangeList::new(vec![
        AddrRange { start: 1, end: 10 },
        AddrRange { start: 10, end: 20 },
    ])
    .is_none());
}

#[test]
fn range_list_rejects_unsorted() {
    assert!(RangeList::new(vec![
        AddrRange { start: 9, end: 20 },
        AddrRange { start: 1, end: 5 },
    ])
    .is_none());
}

#[test]
fn range_list_contains_boundaries() {
    let list = ranges(&[(10, 20)]);
    assert!(list.contains(10));
    assert!(list.contains(20));
    assert!(!list.contains(9));
    assert!(!list.contains(21));
}
