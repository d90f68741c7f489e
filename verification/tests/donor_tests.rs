use ephmem::allocation::{EphAllocation, EPH_MEM_DONATION_GRANULARITY};
use ephmem::donor::{DonatableRegion, DonorState, ReturnBookkeeping};
use ephmem::qmp_types::{HostMemPolicy, Memdev, MemdevError};

fn memdev(id: Option<&str>, size: u64, donatable: Option<bool>) -> Memdev {
    Memdev {
        id: id.map(|s| s.to_string()),
        size,
        merge: false,
        dump: false,
        prealloc: false,
        donatable,
        use_userfaultfd: None,
        share: false,
        reserve: None,
        host_nodes: vec![0],
        policy: HostMemPolicy::Default,
    }
}

const G: u64 = EPH_MEM_DONATION_GRANULARITY;

fn eph_alloc(id: u64, size: u64) -> EphAllocation {
    EphAllocation { id, consumer_offset: 0, initial_size: size, size }
}

fn donor_with(regions: Vec<DonatableRegion>) -> DonorState {
    DonorState { donatable_regions: regions }
}

#[test]
fn new_region_is_empty() {
    let r = DonatableRegion::new(100, "/objects/mem0".to_string());
    assert_eq!(r.size, 100);
    assert_eq!(r.donated, 0);
    assert_eq!(r.revoked_owed, 0);
    assert_eq!(r.path, "/objects/mem0");
    assert!(r.allocations.is_empty());
}

#[test]
fn memdev_donatable_needs_id_and_flag() {
    assert!(memdev(Some("m"), 1, Some(true)).is_donatable());
    assert!(!memdev(None, 1, Some(true)).is_donatable());
    assert!(!memdev(Some("m"), 1, Some(false)).is_donatable());
    assert!(!memdev(Some("m"), 1, None).is_donatable());
}

#[test]
fn memdev_becomes_region_under_objects() {
    let r = memdev(Some("donor-mem"), 4096, Some(true)).try_into_region().ok().unwrap();
    assert_eq!(r.path, "/objects/donor-mem");
    assert_eq!(r.size, 4096);
    assert_eq!(r.donated, 0);
    assert_eq!(memdev(Some("m"), 1, None).try_into_region().err(), Some(MemdevError::NotDonatable));
}

#[test]
fn donor_state_keeps_donatable_backends_in_order() {
    let d = DonorState::new(vec![
        memdev(Some("a"), 10, Some(true)),
        memdev(Some("b"), 20, Some(false)),
        memdev(Some("c"), 30, Some(true)),
    ])
    .unwrap();
    assert_eq!(d.donatable_regions.len(), 2);
    assert_eq!(d.donatable_regions[0].path, "/objects/a");
    assert_eq!(d.donatable_regions[1].path, "/objects/c");
    assert_eq!(d.donatable_regions[1].size, 30);
    assert!(DonorState::new(vec![memdev(None, 10, Some(true))]).is_none());
    assert!(DonorState::new(Vec::new()).is_none());
}

#[test]
fn find_alloc_takes_first_matching_region() {
    let mut r0 = DonatableRegion::new(100, "/objects/a".to_string());
    r0.allocations = vec![eph_alloc(1, 10), eph_alloc(2, 10)];
    let mut r1 = DonatableRegion::new(100, "/objects/b".to_string());
    r1.allocations = vec![eph_alloc(3, 10)];
    let d = donor_with(vec![r0, r1]);
    assert_eq!(d.find_alloc("/objects/a", 2), Some((0, 1)));
    assert_eq!(d.find_alloc("/objects/b", 3), Some((1, 0)));
    assert_eq!(d.find_alloc("/objects/a", 3), None);
    assert_eq!(d.find_alloc("/objects/z", 1), None);
}

#[test]
fn full_grant_is_kept() {
    let mut r0 = DonatableRegion::new(100 * G, "/objects/a".to_string());
    r0.donated = 40 * G;
    r0.allocations = vec![eph_alloc(1, 40 * G)];
    let mut d = donor_with(vec![r0]);
    assert_eq!(d.handle_reserved_alloc("/objects/a", 1, 40 * G), (40 * G, 0));
    assert_eq!(d.donatable_regions[0].allocations.len(), 1);
    assert_eq!(d.donatable_regions[0].donated, 40 * G);
}

#[test]
fn grant_is_capped_and_pays_owed_revocations() {
    let mut r0 = DonatableRegion::new(100 * G, "/objects/a".to_string());
    r0.donated = 40 * G;
    r0.revoked_owed = 15 * G;
    r0.allocations = vec![eph_alloc(1, 40 * G)];
    let mut d = donor_with(vec![r0]);
    // granted more than reserved: counts as 40G, 15G of it goes back
    assert_eq!(d.handle_reserved_alloc("/objects/a", 1, 90 * G), (25 * G, 15 * G));
    assert_eq!(d.donatable_regions[0].revoked_owed, 0);
    assert_eq!(d.donatable_regions[0].allocations.len(), 1);
}

#[test]
fn only_whole_granules_of_a_grant_are_kept() {
    let mut r0 = DonatableRegion::new(100 * G, "/objects/a".to_string());
    r0.donated = 4 * G;
    r0.allocations = vec![eph_alloc(1, 4 * G)];
    let mut d = donor_with(vec![r0]);
    // 2.5 granules granted: 2 kept, half a granule goes straight back
    assert_eq!(d.handle_reserved_alloc("/objects/a", 1, 2 * G + G / 2), (2 * G, G / 2));
    assert_eq!(d.donatable_regions[0].allocations.len(), 1);
    // a debt of part of a granule is paid first, and the rest rounded down
    let mut r1 = DonatableRegion::new(100 * G, "/objects/a".to_string());
    r1.donated = 4 * G;
    r1.revoked_owed = G / 4;
    r1.allocations = vec![eph_alloc(2, 4 * G)];
    let mut d1 = donor_with(vec![r1]);
    assert_eq!(d1.handle_reserved_alloc("/objects/a", 2, 4 * G), (3 * G, G));
    assert_eq!(d1.donatable_regions[0].revoked_owed, 0);
    // less than a granule: nothing kept, all of it back, allocation dropped
    let mut r2 = DonatableRegion::new(100 * G, "/objects/a".to_string());
    r2.allocations = vec![eph_alloc(3, 4 * G)];
    let mut d2 = donor_with(vec![r2]);
    assert_eq!(d2.handle_reserved_alloc("/objects/a", 3, 100 * 1024 * 1024), (0, 100 * 1024 * 1024));
    assert!(d2.donatable_regions[0].allocations.is_empty());
}

#[test]
fn grant_swallowed_by_owed_drops_allocation() {
    let mut r0 = DonatableRegion::new(100 * G, "/objects/a".to_string());
    r0.donated = 40 * G;
    r0.revoked_owed = 50 * G;
    r0.allocations = vec![eph_alloc(1, 40 * G)];
    let mut d = donor_with(vec![r0]);
    assert_eq!(d.handle_reserved_alloc("/objects/a", 1, 30 * G), (0, 30 * G));
    assert_eq!(d.donatable_regions[0].revoked_owed, 20 * G);
    assert!(d.donatable_regions[0].allocations.is_empty());
    assert_eq!(d.donatable_regions[0].donated, 40 * G);
    // a failed request books as a grant of nothing
    let mut r1 = DonatableRegion::new(100 * G, "/objects/a".to_string());
    r1.allocations = vec![eph_alloc(2, 40 * G)];
    let mut d2 = donor_with(vec![r1]);
    assert_eq!(d2.handle_reserved_alloc("/objects/a", 2, 0), (0, 0));
    assert!(d2.donatable_regions[0].allocations.is_empty());
    assert_eq!(d2.handle_reserved_alloc("/objects/a", 2, 10 * G), (0, 0));
}

#[test]
fn returning_memory_lowers_donated() {
    let mut r0 = DonatableRegion::new(100, "/objects/a".to_string());
    r0.donated = 60;
    r0.allocations = vec![eph_alloc(1, 40), eph_alloc(2, 20)];
    let mut d = donor_with(vec![r0]);
    assert_eq!(d.bookkeep_returned_eph_memory("/objects/a", 1), ReturnBookkeeping::Returned);
    assert_eq!(d.donatable_regions[0].donated, 20);
    assert_eq!(d.donatable_regions[0].allocations, vec![eph_alloc(2, 20)]);
    assert_eq!(d.bookkeep_returned_eph_memory("/objects/a", 1), ReturnBookkeeping::UnknownAllocation);
    d.donatable_regions[0].donated = 5;
    assert_eq!(d.bookkeep_returned_eph_memory("/objects/a", 2), ReturnBookkeeping::ReturnedMoreThanDonated);
    assert_eq!(d.donatable_regions[0].donated, 0);
    assert!(d.donatable_regions[0].allocations.is_empty());
}

#[test]
fn commit_sets_size_of_record() {
    let mut r0 = DonatableRegion::new(100, "/objects/a".to_string());
    r0.allocations = vec![eph_alloc(1, 40)];
    let mut d = donor_with(vec![r0]);
    d.commit_allocation("/objects/a", 1, 25);
    assert_eq!(d.donatable_regions[0].allocations[0].size, 25);
    assert_eq!(d.donatable_regions[0].allocations[0].initial_size, 40);
}

#[test]
fn lend_grant_return_round_trip() {
    let mut r0 = DonatableRegion::new(100 * G, "/objects/a".to_string());
    r0.donated = 10 * G;
    r0.allocations = vec![eph_alloc(7, 10 * G)];
    let before = r0.allocations.clone();
    let mut d = donor_with(vec![r0]);
    let a = eph_alloc(8, 30 * G);
    d.donatable_regions[0].donated += a.initial_size;
    d.donatable_regions[0].allocations.push(a);
    assert_eq!(d.handle_reserved_alloc("/objects/a", 8, 30 * G), (30 * G, 0));
    d.commit_allocation("/objects/a", 8, 30 * G);
    assert_eq!(d.bookkeep_returned_eph_memory("/objects/a", 8), ReturnBookkeeping::Returned);
    assert_eq!(d.donatable_regions[0].donated, 10 * G);
    assert_eq!(d.donatable_regions[0].allocations, before);
}
