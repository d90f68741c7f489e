use ephmem::allocation::{EphAllocation, EPH_MEM_DONATION_GRANULARITY};
use ephmem::consumer::ConsumerState;
use ephmem::donor::ReturnBookkeeping;
use ephmem::qmp_types::{HostMemPolicy, Memdev};
use ephmem::vm_list::{
    connect_consumer, disconnect_consumer, is_listed, request_next, DonorReplyOutcome, RequestAction, RequestError,
    RequestEvent, VmList,
};

const G: u64 = EPH_MEM_DONATION_GRANULARITY;

fn memdev(id: &str, size: u64) -> Memdev {
    Memdev {
        id: Some(id.to_string()),
        size,
        merge: false,
        dump: false,
        prealloc: false,
        donatable: Some(true),
        use_userfaultfd: None,
        share: false,
        reserve: None,
        host_nodes: Vec::new(),
        policy: HostMemPolicy::Bind,
    }
}

fn consumer(size: u64) -> ConsumerState {
    ConsumerState::new(3, "/machine/peripheral/dcd".to_string(), size)
}

/// A consumer at 3.qmp and donors at a.qmp (2G free) and b.qmp (8G free).
fn sample() -> VmList {
    let mut vms = VmList::new();
    assert!(vms.check_new_vm("/tmp/ephmem/b.qmp".to_string(), vec![memdev("mb", 8 * G)], None));
    assert!(vms.check_new_vm("/tmp/ephmem/3.qmp".to_string(), Vec::new(), Some(consumer(16 * G))));
    assert!(vms.check_new_vm("/tmp/ephmem/a.qmp".to_string(), vec![memdev("ma", 2 * G)], None));
    vms
}

#[test]
fn registering_vms() {
    let mut vms = sample();
    assert_eq!(vms.vms.len(), 3);
    assert!(vms.vms[0].donor.is_some() && vms.vms[0].consumer.is_none());
    assert!(vms.vms[1].donor.is_none() && vms.vms[1].consumer.is_some());
    // a VM found again at a known path replaces the old entry
    assert!(!vms.check_new_vm("/tmp/ephmem/a.qmp".to_string(), Vec::new(), None));
    assert_eq!(vms.vms.len(), 3);
    assert!(vms.vms[2].donor.is_none());
    assert_eq!(vms.find_vm("/tmp/ephmem/a.qmp"), Some(2));
    assert_eq!(vms.find_vm("/tmp/ephmem/c.qmp"), None);
}

#[test]
fn new_files_worth_connecting() {
    let vms = sample();
    assert!(vms.handle_new_file("/tmp/ephmem/c.qmp", true));
    assert!(!vms.handle_new_file("/tmp/ephmem/c.qmp", false));
    assert!(!vms.handle_new_file("/tmp/ephmem/a.qmp", true));
}

#[test]
fn removing_vms() {
    let mut vms = sample();
    let gone = vec!["/tmp/ephmem/a.qmp".to_string(), "/tmp/ephmem/zzz.qmp".to_string()];
    assert!(is_listed(&gone, "/tmp/ephmem/a.qmp"));
    vms.remove_vms(&gone);
    assert_eq!(vms.vms.len(), 2);
    assert_eq!(vms.vms[0].qmp_socket_path, "/tmp/ephmem/b.qmp");
    assert_eq!(vms.vms[1].qmp_socket_path, "/tmp/ephmem/3.qmp");
    vms.remove_vms(&Vec::new());
    assert_eq!(vms.vms.len(), 2);
}

#[test]
fn request_errors() {
    let mut vms = sample();
    assert_eq!(vms.reserve_for_request("/tmp/ephmem/3.qmp", u64::MAX), Err(RequestError::SizeTooLarge));
    assert_eq!(vms.reserve_for_request("/tmp/ephmem/a.qmp", G), Err(RequestError::NotAConsumer));
    assert_eq!(vms.reserve_for_request("/tmp/ephmem/x.qmp", G), Err(RequestError::NotAConsumer));
    let mut tiny = VmList::new();
    tiny.check_new_vm("/tmp/ephmem/4.qmp".to_string(), Vec::new(), Some(consumer(G / 2)));
    assert_eq!(tiny.reserve_for_request("/tmp/ephmem/4.qmp", G), Err(RequestError::NoSpace));
    assert_eq!(tiny.next_alloc_id, 0);
    tiny.next_alloc_id = u64::MAX;
    assert_eq!(tiny.reserve_for_request("/tmp/ephmem/4.qmp", G), Err(RequestError::NoIdentifierLeft));
}

#[test]
fn request_is_rounded_up_and_reserved() {
    let mut vms = sample();
    let a = vms.reserve_for_request("/tmp/ephmem/3.qmp", G + 1).unwrap();
    assert_eq!(a, EphAllocation { id: 0, consumer_offset: 0, initial_size: 2 * G, size: 2 * G });
    assert_eq!(vms.next_alloc_id, 1);
    let b = vms.reserve_for_request("/tmp/ephmem/3.qmp", G).unwrap();
    assert_eq!(b, EphAllocation { id: 1, consumer_offset: 2 * G, initial_size: G, size: G });
    assert!(vms.release_reserved_memory("/tmp/ephmem/3.qmp", 0));
    assert!(!vms.release_reserved_memory("/tmp/ephmem/3.qmp", 0));
    assert_eq!(vms.vms[1].consumer.as_ref().unwrap().allocated_areas, vec![b]);
}

#[test]
fn donors_are_tried_in_path_order() {
    let mut vms = sample();
    let a = vms.reserve_for_request("/tmp/ephmem/3.qmp", G).unwrap();
    // "/tmp/ephmem/3.qmp" < "/tmp/ephmem/a.qmp" < "/tmp/ephmem/b.qmp"
    let first = vms.allocate_eph_memory_inner("", &a).unwrap();
    assert_eq!(first, ("/tmp/ephmem/a.qmp".to_string(), "/objects/ma".to_string()));
    assert_eq!(vms.vms[2].donor.as_ref().unwrap().donatable_regions[0].donated, G);
    let second = vms.allocate_eph_memory_inner("/tmp/ephmem/a.qmp", &a).unwrap();
    assert_eq!(second, ("/tmp/ephmem/b.qmp".to_string(), "/objects/mb".to_string()));
    assert!(vms.allocate_eph_memory_inner("/tmp/ephmem/b.qmp", &a).is_none());
}

#[test]
fn donors_without_room_are_skipped() {
    let mut vms = sample();
    let a = vms.reserve_for_request("/tmp/ephmem/3.qmp", 4 * G).unwrap();
    let found = vms.allocate_eph_memory_inner("", &a).unwrap();
    assert_eq!(found.0, "/tmp/ephmem/b.qmp");
    assert_eq!(vms.vms[0].donor.as_ref().unwrap().donatable_regions[0].donated, 4 * G);
    let big = vms.reserve_for_request("/tmp/ephmem/3.qmp", 8 * G).unwrap();
    assert!(vms.allocate_eph_memory_inner("", &big).is_none());
}

#[test]
fn full_grant_commits() {
    let mut vms = sample();
    let mut a = vms.reserve_for_request("/tmp/ephmem/3.qmp", 2 * G).unwrap();
    let (donor, qom) = vms.allocate_eph_memory_inner("", &a).unwrap();
    let out = vms.after_donor_reply("/tmp/ephmem/3.qmp", &mut a, &donor, &qom, 2 * G);
    assert_eq!(out, DonorReplyOutcome::Committed { size: 2 * G, to_revoke: 0 });
    assert_eq!(a.size, 2 * G);
}

#[test]
fn partial_grant_shrinks_reservation() {
    let mut vms = sample();
    let mut a = vms.reserve_for_request("/tmp/ephmem/3.qmp", 2 * G).unwrap();
    let (donor, qom) = vms.allocate_eph_memory_inner("", &a).unwrap();
    let out = vms.after_donor_reply("/tmp/ephmem/3.qmp", &mut a, &donor, &qom, G);
    assert_eq!(out, DonorReplyOutcome::Committed { size: G, to_revoke: 0 });
    assert_eq!(a, EphAllocation { id: 0, consumer_offset: 0, initial_size: 2 * G, size: G });
    let c = vms.vms[1].consumer.as_ref().unwrap();
    assert_eq!(c.allocated_areas, vec![a]);
    let d = vms.vms[2].donor.as_ref().unwrap();
    assert_eq!(d.donatable_regions[0].allocations, vec![a]);
    // the donor keeps counting the whole reservation as donated
    assert_eq!(d.donatable_regions[0].donated, 2 * G);
}

#[test]
fn refused_grant_moves_on_and_release_restores() {
    let mut vms = sample();
    let mut a = vms.reserve_for_request("/tmp/ephmem/3.qmp", G).unwrap();
    let (donor, qom) = vms.allocate_eph_memory_inner("", &a).unwrap();
    let out = vms.after_donor_reply("/tmp/ephmem/3.qmp", &mut a, &donor, &qom, 0);
    assert_eq!(out, DonorReplyOutcome::TryNext { to_revoke: 0 });
    assert_eq!(a.size, G);
    assert!(vms.vms[2].donor.as_ref().unwrap().donatable_regions[0].allocations.is_empty());
    assert!(vms.allocate_eph_memory_inner(&donor, &a).is_some());
    let unknown = vms.after_donor_reply("/tmp/ephmem/3.qmp", &mut a, "/tmp/ephmem/none.qmp", &qom, G);
    assert_eq!(unknown, DonorReplyOutcome::TryNext { to_revoke: 0 });
    assert!(vms.release_reserved_memory("/tmp/ephmem/3.qmp", a.consumer_offset));
    assert!(vms.vms[1].consumer.as_ref().unwrap().allocated_areas.is_empty());
}

#[test]
fn owed_memory_is_paid_from_grant() {
    let mut vms = sample();
    let mut a = vms.reserve_for_request("/tmp/ephmem/3.qmp", 2 * G).unwrap();
    let (donor, qom) = vms.allocate_eph_memory_inner("", &a).unwrap();
    vms.vms[2].donor.as_mut().unwrap().donatable_regions[0].revoked_owed = G / 2;
    let out = vms.after_donor_reply("/tmp/ephmem/3.qmp", &mut a, &donor, &qom, 2 * G);
    // the debt is paid, and the part granule left over goes back too
    assert_eq!(out, DonorReplyOutcome::Committed { size: G, to_revoke: G });
    assert_eq!(a.size, G);
    assert_eq!(vms.vms[2].donor.as_ref().unwrap().donatable_regions[0].revoked_owed, 0);
}

#[test]
fn returning_to_donor_through_list() {
    let mut vms = sample();
    let mut a = vms.reserve_for_request("/tmp/ephmem/3.qmp", 2 * G).unwrap();
    let (donor, qom) = vms.allocate_eph_memory_inner("", &a).unwrap();
    vms.after_donor_reply("/tmp/ephmem/3.qmp", &mut a, &donor, &qom, 2 * G);
    assert_eq!(vms.bookkeep_returned_eph_memory(&donor, &qom, a.id), ReturnBookkeeping::Returned);
    assert_eq!(vms.vms[2].donor.as_ref().unwrap().donatable_regions[0].donated, 0);
    assert_eq!(vms.bookkeep_returned_eph_memory(&donor, &qom, a.id), ReturnBookkeeping::UnknownAllocation);
    assert_eq!(vms.bookkeep_returned_eph_memory("/tmp/ephmem/3.qmp", &qom, a.id), ReturnBookkeeping::UnknownAllocation);
}

#[test]
fn undone_request_restores_books() {
    let mut vms = sample();
    let before = vms.vms[2].donor.as_ref().unwrap().donatable_regions[0].donated;
    let mut a = vms.reserve_for_request("/tmp/ephmem/3.qmp", 2 * G).unwrap();
    let (donor, qom) = vms.allocate_eph_memory_inner("", &a).unwrap();
    vms.after_donor_reply("/tmp/ephmem/3.qmp", &mut a, &donor, &qom, 2 * G);
    assert_eq!(vms.undo_request("/tmp/ephmem/3.qmp", &a, &donor, &qom), (ReturnBookkeeping::Returned, true));
    let d = vms.vms[2].donor.as_ref().unwrap();
    assert_eq!(d.donatable_regions[0].donated, before);
    assert!(d.donatable_regions[0].allocations.is_empty());
    assert!(vms.vms[1].consumer.as_ref().unwrap().allocated_areas.is_empty());
    // nothing left to undo
    assert_eq!(
        vms.undo_request("/tmp/ephmem/3.qmp", &a, &donor, &qom),
        (ReturnBookkeeping::UnknownAllocation, false)
    );
}

#[test]
fn search_keeps_lent_counts_of_refusing_donors() {
    let mut vms = sample();
    let mut a = vms.reserve_for_request("/tmp/ephmem/3.qmp", G).unwrap();
    // the first donor refuses, the second grants all
    let (d1, q1) = vms.allocate_eph_memory_inner("", &a).unwrap();
    assert_eq!(vms.after_donor_reply("/tmp/ephmem/3.qmp", &mut a, &d1, &q1, 0), DonorReplyOutcome::TryNext { to_revoke: 0 });
    let (d2, q2) = vms.allocate_eph_memory_inner(&d1, &a).unwrap();
    assert_ne!(d1, d2);
    assert_eq!(
        vms.after_donor_reply("/tmp/ephmem/3.qmp", &mut a, &d2, &q2, G),
        DonorReplyOutcome::Committed { size: G, to_revoke: 0 }
    );
    // each region asked counts the reservation once; the refusal is not given back
    assert_eq!(vms.vms[2].donor.as_ref().unwrap().donatable_regions[0].donated, G);
    assert_eq!(vms.vms[0].donor.as_ref().unwrap().donatable_regions[0].donated, G);
}

#[test]
fn part_granule_grant_is_not_committed() {
    let mut vms = sample();
    let mut a = vms.reserve_for_request("/tmp/ephmem/3.qmp", G).unwrap();
    let (donor, qom) = vms.allocate_eph_memory_inner("", &a).unwrap();
    let out = vms.after_donor_reply("/tmp/ephmem/3.qmp", &mut a, &donor, &qom, 100 * 1024 * 1024);
    assert_eq!(out, DonorReplyOutcome::TryNext { to_revoke: 100 * 1024 * 1024 });
    assert_eq!(a.size, G);
    assert_eq!(vms.vms[1].consumer.as_ref().unwrap().allocated_areas, vec![a]);
}

#[test]
fn one_connection_per_consumer() {
    let mut connected: Vec<String> = Vec::new();
    assert!(connect_consumer(&mut connected, "/tmp/ephmem/3.qmp"));
    assert!(!connect_consumer(&mut connected, "/tmp/ephmem//3.qmp"));
    assert!(connect_consumer(&mut connected, "/tmp/ephmem/4.qmp"));
    assert_eq!(connected.len(), 2);
    disconnect_consumer(&mut connected, "/tmp/ephmem/./3.qmp");
    assert_eq!(connected, vec!["/tmp/ephmem/4.qmp".to_string()]);
    assert!(connect_consumer(&mut connected, "/tmp/ephmem/3.qmp"));
}

#[test]
fn request_steps_undo_on_failure() {
    assert_eq!(request_next(RequestEvent::Reserved), RequestAction::SearchDonors);
    assert_eq!(request_next(RequestEvent::DonorFound), RequestAction::AddCapacity);
    assert_eq!(request_next(RequestEvent::NoDonor), RequestAction::ReleaseReservation);
    assert_eq!(request_next(RequestEvent::CapacityAdded), RequestAction::Done);
    assert_eq!(request_next(RequestEvent::CapacityAddFailed), RequestAction::ReturnToDonorAndUndo);
}
