//! A consumer's request from its reservation to its undoing, across the
//! steps of `VmList`.
use vstd::prelude::*;

use crate::allocation::EphAllocation;
use crate::consumer::{law_reservation_in_granules, law_undone_request_restores_areas, reserved, ConsumerState};
use crate::donor::{
    first_alloc_with_id, first_region_with_path, law_full_grant_then_return_restores, lemma_find_alloc_spec_is,
    lent_from_region, reserved_split, DonorState, ReturnBookkeeping,
};
use crate::search::regions_of;
use crate::vm_list::{
    lent_by_search, released_in_list, reply_booked, request_reserved, returned_in_list, DonorReplyOutcome, RequestError,
    VmList,
};

verus! {

/// A grant of the whole of `a`, lent out of region `ri` of `d` (whose path
/// no earlier region has, and which holds no other allocation with `a`'s
/// identifier nor owes anything), is kept whole when it is whole granules.
proof fn lemma_full_grant_kept(d: DonorState, d1: DonorState, ri: int, a: EphAllocation)
    requires
        first_region_with_path(d.donatable_regions@, d.donatable_regions@[ri].path@, ri),
        forall|j: int| 0 <= j < d.donatable_regions@[ri].allocations@.len()
            ==> #[trigger] d.donatable_regions@[ri].allocations@[j].id != a.id,
        d.donatable_regions@[ri].revoked_owed == 0,
        a.initial_size % crate::allocation::EPH_MEM_DONATION_GRANULARITY == 0,
        lent_from_region(d, d1, ri, a),
    ensures
        reserved_split(d1, d.donatable_regions@[ri].path@, a.id, a.initial_size) == (a.initial_size, 0u64),
{
    let path = d.donatable_regions@[ri].path@;
    let n = d.donatable_regions@[ri].allocations@.len() as int;
    assert(first_region_with_path(d1.donatable_regions@, path, ri)) by {
        assert forall|j: int| 0 <= j < ri implies #[trigger] d1.donatable_regions@[j].path@ != path by {
            assert(d1.donatable_regions@[j] == d.donatable_regions@[j]);
        }
    }
    assert(first_alloc_with_id(d1.donatable_regions@[ri].allocations@, a.id, n));
    lemma_find_alloc_spec_is(d1, path, a.id, ri, n);
}

/// Law: a request that a donor granted in full and that was then undone
/// leaves the books as they were before it. The consumer at `consumer_path`
/// reserves `a0` (`s0` to `s1`); the search lends it out of region `ri` of
/// VM `b` (`s2`); that donor grants all of it (`s3`); the capacity cannot be
/// added, so `undo_request` gives it back to the donor (`mid`) and releases
/// the consumer's area (`s4`). Then the consumer holds the areas it held in
/// `s0`, and the region counts as donated, holds as allocations and owes
/// what it did in `s0`. This needs the region's path to be the first region
/// with that path in its donor, no allocation there with the reservation's
/// identifier, and nothing owed by the region, as the donor-side law does.
pub proof fn law_undone_request_restores_books(
    s0: VmList,
    s1: VmList,
    s2: VmList,
    s3: VmList,
    mid: VmList,
    s4: VmList,
    consumer_path: Seq<char>,
    size: u64,
    a0: EphAllocation,
    a1: EphAllocation,
    start: Seq<char>,
    b: int,
    ri: int,
    r3: DonorReplyOutcome,
    rr: ReturnBookkeeping,
    rl: bool,
)
    requires
        s0.wf(),
        s1.wf(),
        s2.wf(),
        s3.wf(),
        mid.wf(),
        s4.wf(),
        request_reserved(s0, s1, consumer_path, size, Ok::<EphAllocation, RequestError>(a0)),
        lent_by_search(s1, start, a0, s2, b, ri),
        reply_booked(
            s2,
            s3,
            consumer_path,
            a0,
            a1,
            s1.vms@[b].qmp_socket_path@,
            regions_of(s1, b)[ri].path@,
            a0.initial_size,
            r3,
        ),
        returned_in_list(s3, mid, s1.vms@[b].qmp_socket_path@, regions_of(s1, b)[ri].path@, a1.id, rr),
        released_in_list(mid, s4, consumer_path, a1.consumer_offset, rl),
        first_region_with_path(regions_of(s0, b), regions_of(s0, b)[ri].path@, ri),
        forall|j: int| 0 <= j < regions_of(s0, b)[ri].allocations@.len()
            ==> #[trigger] regions_of(s0, b)[ri].allocations@[j].id != a0.id,
        regions_of(s0, b)[ri].revoked_owed == 0,
    ensures
        r3 == (DonorReplyOutcome::Committed { size: a0.initial_size, to_revoke: 0 }),
        rr == ReturnBookkeeping::Returned,
        rl,
        s0.index_of(consumer_path) is Some,
        ({
            let c = s0.index_of(consumer_path)->0;
            s4.vms@[c].consumer is Some && s4.vms@[c].consumer->0.allocated_areas@
                == s0.vms@[c].consumer->0.allocated_areas@
        }),
        regions_of(s4, b).len() == regions_of(s0, b).len(),
        regions_of(s4, b)[ri].donated == regions_of(s0, b)[ri].donated,
        regions_of(s4, b)[ri].allocations@ == regions_of(s0, b)[ri].allocations@,
        regions_of(s4, b)[ri].revoked_owed == regions_of(s0, b)[ri].revoked_owed,
{
    // The reservation.
    assert(s0.is_consumer(consumer_path));
    let c = s0.index_of(consumer_path)->0;
    let aligned = crate::allocation::round_up_granule(size as int) as u64;
    let (res, cs1) = choose|res: Option<EphAllocation>, cs2: ConsumerState| {
        &&& #[trigger] reserved(s0.vms@[c].consumer->0, cs2, aligned, s0.next_alloc_id, res)
        &&& res is None ==> Ok::<EphAllocation, RequestError>(a0) == Err::<EphAllocation, RequestError>(RequestError::NoSpace)
        &&& res matches Some(a) ==> {
            &&& Ok::<EphAllocation, RequestError>(a0) == Ok::<EphAllocation, RequestError>(a)
            &&& s1.next_alloc_id == s0.next_alloc_id + 1
            &&& s1.vms@[c].consumer == Some(cs2)
            &&& s1.vms@[c].qmp_socket_path == s0.vms@[c].qmp_socket_path
            &&& s1.vms@[c].donor == s0.vms@[c].donor
            &&& forall|j: int| 0 <= j < s0.vms@.len() && j != c ==> #[trigger] s1.vms@[j] == s0.vms@[j]
        }
    };
    assert(res == Some(a0));
    let c0 = s0.vms@[c].consumer->0;
    assert(c0.wf()) by {
        assert(s0.vms@[c].wf());
    }
    law_reservation_in_granules(c0, cs1, aligned, s0.next_alloc_id, res);
    assert(s1.vms@[b].donor == s0.vms@[b].donor) by {
        if b != c {
            assert(s1.vms@[b] == s0.vms@[b]);
        }
    }
    // The lending.
    let donor_path = s1.vms@[b].qmp_socket_path@;
    let d0 = s0.vms@[b].donor->0;
    let d1 = s2.vms@[b].donor->0;
    let path = d0.donatable_regions@[ri].path@;
    assert(d0.wf()) by {
        assert(s0.vms@[b].wf());
    }
    assert(regions_of(s1, b) == d0.donatable_regions@);
    lemma_full_grant_kept(d0, d1, ri, a0);
    // The donor's grant.
    s2.lemma_index_of(donor_path, b);
    assert(s2.reply_split(donor_path, path, a0.id, a0.initial_size) == (a0.initial_size, 0u64));
    let kept = a0.initial_size;
    assert(kept > 0);
    let d2 = choose|m: DonorState| {
        &&& #[trigger] crate::donor::handled_reserved(d1, m, path, a0.id, a0.initial_size)
        &&& s3.vms@[b].donor is Some
        &&& (kept > 0 ==> crate::donor::committed_in_donor(m, s3.vms@[b].donor->0, path, a0.id, kept))
        &&& (kept == 0 ==> s3.vms@[b].donor->0 == m)
    };
    let d3 = s3.vms@[b].donor->0;
    assert(a1 == EphAllocation { size: kept, ..a0 });
    // The return to the donor.
    s3.lemma_index_of(donor_path, b);
    let d4 = mid.vms@[b].donor->0;
    law_full_grant_then_return_restores(d0, d1, d2, d3, d4, path, ri, a0, rr);
    // The consumer's area through the commit and the release.
    assert(s2.vms@[c].consumer == s1.vms@[c].consumer) by {
        if c != b {
            assert(s2.vms@[c] == s1.vms@[c]);
        }
    }
    assert(s2.vms@[c].qmp_socket_path == s0.vms@[c].qmp_socket_path) by {
        if c != b {
            assert(s2.vms@[c] == s1.vms@[c]);
        }
    }
    let v2 = s2.vms@[c];
    let v3 = s3.vms@[c];
    assert(crate::path::same_path(v2.qmp_socket_path@, consumer_path));
    let cs3 = v3.consumer->0;
    assert(crate::consumer::consumer_committed(cs1, cs3, a0.consumer_offset, kept));
    assert(mid.vms@[c].consumer == s3.vms@[c].consumer) by {
        if c != b {
            assert(mid.vms@[c] == s3.vms@[c]);
        }
    }
    assert(mid.vms@[c].qmp_socket_path == s0.vms@[c].qmp_socket_path) by {
        if c != b {
            assert(mid.vms@[c] == s3.vms@[c]);
        }
    }
    mid.lemma_index_of(consumer_path, c);
    let s4_areas = s4.vms@[c].consumer->0.allocated_areas@;
    assert(rl == exists|i: int| 0 <= i < cs3.allocated_areas@.len()
        && #[trigger] cs3.allocated_areas@[i].consumer_offset == a0.consumer_offset);
    assert(rl ==> exists|i: int| 0 <= i < cs3.allocated_areas@.len()
        && #[trigger] cs3.allocated_areas@[i].consumer_offset == a0.consumer_offset
        && s4_areas == cs3.allocated_areas@.remove(i));
    law_undone_request_restores_areas(c0, cs1, cs3, s4_areas, aligned, s0.next_alloc_id, a0, kept, rl);
    // The release leaves the donor region alone.
    assert(s4.vms@[b].donor == mid.vms@[b].donor);
}

} // verus!
