use vstd::prelude::*;

use crate::allocation::{align_to_granularity, round_up_granule, EphAllocation, EPH_MEM_DONATION_GRANULARITY};
use crate::consumer::{consumer_committed, reserved, ConsumerState};
use crate::donor::{committed_in_donor, handled_reserved, lent_from_region, reserved_split, DonorState, ReturnBookkeeping};
use crate::qmp_types::Memdev;
use crate::path::{
    components, components_eq, components_less, lemma_keys_lt_irreflexive, lemma_keys_lt_total,
    lemma_keys_lt_transitive, path_components, path_eq, path_lt, same_path,
};

verus! {

/// A VM known to the orchestrator, by the path of its QMP socket.
pub struct Vm {
    pub qmp_socket_path: String,
    /// Set when the VM has donatable memory.
    pub donor: Option<DonorState>,
    /// Set when the VM has a dynamic-capacity device to receive memory.
    pub consumer: Option<ConsumerState>,
}

impl Vm {
    /// The components of the socket path, which identify the VM.
    pub open spec fn key(&self) -> Seq<Seq<char>> {
        components(self.qmp_socket_path@)
    }

    pub open spec fn wf(&self) -> bool {
        &&& (self.donor matches Some(d) ==> d.wf())
        &&& (self.consumer matches Some(c) ==> c.wf())
    }
}

/// Region `ri` of `d` is the first with `size` bytes free.
pub open spec fn is_first_fitting_region(d: DonorState, size: u64, ri: int) -> bool {
    &&& 0 <= ri < d.donatable_regions@.len()
    &&& d.donatable_regions@[ri].available() >= size
    &&& forall|j: int| 0 <= j < ri ==> #[trigger] d.donatable_regions@[j].available() < size
}

/// `vm` is a donor with a region that has `size` bytes free.
pub open spec fn can_donate(vm: Vm, size: u64) -> bool {
    vm.donor matches Some(d) && exists|ri: int|
        0 <= ri < d.donatable_regions@.len() && #[trigger] d.donatable_regions@[ri].available() >= size
}

/// Donor `i` may be asked for `size` bytes in a search that goes past the
/// path `start`: its socket path sorts after `start` as paths sort.
pub open spec fn is_candidate_donor(vms: Seq<Vm>, start: Seq<char>, size: u64, i: int) -> bool {
    &&& 0 <= i < vms.len()
    &&& path_lt(start, vms[i].qmp_socket_path@)
    &&& can_donate(vms[i], size)
}

/// The first region of `d` with `size` bytes free.
pub fn first_fitting_region(d: &DonorState, size: u64) -> (r: Option<usize>)
    requires
        d.wf(),
    ensures
        r matches Some(ri) ==> is_first_fitting_region(*d, size, ri as int),
        r matches Some(ri) ==> ri < d.donatable_regions@.len()
            && d.donatable_regions@[ri as int].size - d.donatable_regions@[ri as int].donated >= size
            && forall|j: int| 0 <= j < ri ==> #[trigger] d.donatable_regions@[j].size
                - d.donatable_regions@[j].donated < size,
        r is None ==> forall|ri: int| 0 <= ri < d.donatable_regions@.len()
            ==> #[trigger] d.donatable_regions@[ri].available() < size,
{
    let n = d.donatable_regions.len();
    let mut i: usize = 0;
    while i < n
        invariant
            n == d.donatable_regions@.len(),
            d.wf(),
            0 <= i <= n,
            forall|j: int| 0 <= j < i ==> #[trigger] d.donatable_regions@[j].available() < size,
        decreases n - i,
    {
        proof {
            assert(d.donatable_regions@[i as int].wf());
        }
        if d.donatable_regions[i].size - d.donatable_regions[i].donated >= size {
            proof {
                assert forall|j: int| 0 <= j < i implies #[trigger] d.donatable_regions@[j].size
                    - d.donatable_regions@[j].donated < size by {
                    assert(d.donatable_regions@[j].available() < size);
                }
            }
            return Some(i);
        }
        i = i + 1;
    }
    None
}

/// What a donor's answer to a request for memory leads to.
#[derive(Clone, Copy, PartialEq, Eq, Debug)]
pub enum DonorReplyOutcome {
    /// The allocation is backed by `size` bytes and done; give `to_revoke`
    /// bytes straight back to the donor.
    Committed { size: u64, to_revoke: u64 },
    /// Nothing usable came of this donor; give `to_revoke` bytes back and try
    /// the donors after it.
    TryNext { to_revoke: u64 },
}

/// Why a consumer's request for ephemeral memory was turned down before any
/// donor was asked.
#[derive(Clone, Copy, PartialEq, Eq, Debug)]
pub enum RequestError {
    /// The size cannot be rounded up to the granularity within a `u64`.
    SizeTooLarge,
    /// No VM with that path has a dynamic-capacity device.
    NotAConsumer,
    /// Every reservation identifier is used up.
    NoIdentifierLeft,
    /// The consumer's device has no room for the request.
    NoSpace,
}

/// Some entry of `paths` names the path `p`.
pub open spec fn path_listed(paths: Seq<String>, p: Seq<char>) -> bool {
    exists|i: int| 0 <= i < paths.len() && same_path(#[trigger] paths[i]@, p)
}

/// The VMs of `vms` whose paths are not listed in `paths`, in order.
pub open spec fn kept_vms(vms: Seq<Vm>, paths: Seq<String>) -> Seq<Vm>
    decreases vms.len(),
{
    if vms.len() == 0 {
        Seq::empty()
    } else {
        let rest = kept_vms(vms.drop_last(), paths);
        if path_listed(paths, vms.last().qmp_socket_path@) {
            rest
        } else {
            rest.push(vms.last())
        }
    }
}

/// Law: forgetting VMs keeps exactly the VMs whose paths are not listed,
/// in their order: every VM whose socket path names none of `paths` stays,
/// and no other.
pub proof fn law_kept_vms_are_the_unlisted(vms: Seq<Vm>, paths: Seq<String>)
    ensures
        kept_vms(vms, paths) == vms.filter(|v: Vm| !path_listed(paths, v.qmp_socket_path@)),
    decreases vms.len(),
{
    reveal(Seq::filter);
    let pred = |v: Vm| !path_listed(paths, v.qmp_socket_path@);
    if vms.len() > 0 {
        law_kept_vms_are_the_unlisted(vms.drop_last(), paths);
        assert(vms.drop_last().filter(pred) == kept_vms(vms.drop_last(), paths));
        assert(vms.filter(pred) == (if pred(vms.last()) {
            vms.drop_last().filter(pred).push(vms.last())
        } else {
            vms.drop_last().filter(pred)
        }));
    } else {
        assert(vms.filter(pred) == vms);
    }
}

/// Law: after `remove_vms`, no VM whose path was listed is left, and every
/// VM left was there before.
pub proof fn law_removed_vms_are_gone(vms: Seq<Vm>, paths: Seq<String>)
    ensures
        forall|k: int| 0 <= k < kept_vms(vms, paths).len()
            ==> !path_listed(paths, #[trigger] kept_vms(vms, paths)[k].qmp_socket_path@),
        forall|k: int| 0 <= k < kept_vms(vms, paths).len()
            ==> vms.contains(#[trigger] kept_vms(vms, paths)[k]),
    decreases vms.len(),
{
    if vms.len() > 0 {
        law_removed_vms_are_gone(vms.drop_last(), paths);
        let rest = kept_vms(vms.drop_last(), paths);
        assert forall|k: int| 0 <= k < kept_vms(vms, paths).len()
            implies vms.contains(#[trigger] kept_vms(vms, paths)[k]) by {
            if k < rest.len() {
                assert(rest.contains(rest[k]));
                let j = choose|j: int| 0 <= j < vms.drop_last().len() && vms.drop_last()[j] == rest[k];
                assert(vms[j] == rest[k]);
            } else {
                assert(vms[vms.len() - 1] == vms.last());
            }
        }
    }
}

/// Whether some entry of `paths` names the path `p`.
pub fn is_listed(paths: &Vec<String>, p: &str) -> (r: bool)
    ensures
        r == path_listed(paths@, p@),
{
    let n = paths.len();
    let mut i: usize = 0;
    while i < n
        invariant
            n == paths@.len(),
            0 <= i <= n,
            forall|j: int| 0 <= j < i ==> !same_path(#[trigger] paths@[j]@, p@),
        decreases n - i,
    {
        if path_eq(paths[i].as_str(), p) {
            return true;
        }
        i = i + 1;
    }
    false
}

/// `t` is `s` after `after_donor_reply` booked the answer `granted` of the
/// donor at `donor_path` (region `qom_path`) to the request for `a0`, for
/// the consumer at `consumer_path`; `a1` is the reservation afterwards and
/// `r` what was returned.
pub open spec fn reply_booked(
    s: VmList,
    t: VmList,
    consumer_path: Seq<char>,
    a0: EphAllocation,
    a1: EphAllocation,
    donor_path: Seq<char>,
    qom_path: Seq<char>,
    granted: u64,
    r: DonorReplyOutcome,
) -> bool {
    let (kept, to_revoke) = s.reply_split(donor_path, qom_path, a0.id, granted);
    &&& t.vms@.len() == s.vms@.len()
    &&& r == (if kept > 0 {
            DonorReplyOutcome::Committed { size: kept, to_revoke: to_revoke }
        } else {
            DonorReplyOutcome::TryNext { to_revoke: to_revoke }
        })
    &&& a1 == (if kept > 0 { EphAllocation { size: kept, ..a0 } } else { a0 })
    &&& forall|j: int| 0 <= j < s.vms@.len() ==> {
        let v0 = s.vms@[j];
        let v1 = #[trigger] t.vms@[j];
        &&& v1.qmp_socket_path == v0.qmp_socket_path
        &&& (same_path(v0.qmp_socket_path@, donor_path) && v0.donor is Some) ==> exists|mid: DonorState| {
            &&& #[trigger] handled_reserved(v0.donor->0, mid, qom_path, a0.id, granted)
            &&& v1.donor is Some
            &&& (kept > 0 ==> committed_in_donor(mid, v1.donor->0, qom_path, a0.id, kept))
            &&& (kept == 0 ==> v1.donor->0 == mid)
        }
        &&& !(same_path(v0.qmp_socket_path@, donor_path) && v0.donor is Some) ==> v1.donor == v0.donor
        &&& (kept > 0 && same_path(v0.qmp_socket_path@, consumer_path) && v0.consumer is Some)
            ==> (v1.consumer is Some && consumer_committed(
                v0.consumer->0, v1.consumer->0, a0.consumer_offset, kept))
        &&& !(kept > 0 && same_path(v0.qmp_socket_path@, consumer_path) && v0.consumer is Some)
            ==> v1.consumer == v0.consumer
    }
}

/// `t` is `s` after a search past `start` lent `a` out of region `ri` of VM
/// `b`: `b` is the first donor, in path order, past `start` with a region
/// that has all of `a` free, `ri` is its first such region, which now counts
/// `a` as donated and records it; nothing else changes.
pub open spec fn lent_by_search(s: VmList, start: Seq<char>, a: EphAllocation, t: VmList, b: int, ri: int) -> bool {
    &&& is_candidate_donor(s.vms@, start, a.initial_size, b)
    &&& forall|j: int| #[trigger] is_candidate_donor(s.vms@, start, a.initial_size, j) && j != b
        ==> path_lt(s.vms@[b].qmp_socket_path@, s.vms@[j].qmp_socket_path@)
    &&& is_first_fitting_region(s.vms@[b].donor->0, a.initial_size, ri)
    &&& t.vms@.len() == s.vms@.len()
    &&& t.vms@[b].qmp_socket_path == s.vms@[b].qmp_socket_path
    &&& t.vms@[b].consumer == s.vms@[b].consumer
    &&& t.vms@[b].donor is Some
    &&& lent_from_region(s.vms@[b].donor->0, t.vms@[b].donor->0, ri, a)
    &&& forall|j: int| 0 <= j < s.vms@.len() && j != b ==> #[trigger] t.vms@[j] == s.vms@[j]
}

/// `t` is `s` after the consumer at `consumer_path` was asked to release
/// its area at `offset`; `r` tells whether it had one.
pub open spec fn released_in_list(s: VmList, t: VmList, consumer_path: Seq<char>, offset: u64, r: bool) -> bool {
    &&& t.next_alloc_id == s.next_alloc_id
    &&& t.vms@.len() == s.vms@.len()
    &&& !r ==> t.vms@ == s.vms@
    &&& r == exists|c: int, i: int| {
        &&& s.index_of(consumer_path) == Some(c)
        &&& s.vms@[c].consumer is Some
        &&& 0 <= i < s.vms@[c].consumer->0.allocated_areas@.len()
        &&& #[trigger] s.vms@[c].consumer->0.allocated_areas@[i].consumer_offset == offset
    }
    &&& r ==> exists|c: int, i: int| {
        &&& s.index_of(consumer_path) == Some(c)
        &&& s.vms@[c].consumer is Some
        &&& 0 <= i < s.vms@[c].consumer->0.allocated_areas@.len()
        &&& #[trigger] s.vms@[c].consumer->0.allocated_areas@[i].consumer_offset == offset
        &&& t.vms@[c].consumer is Some
        &&& t.vms@[c].consumer->0.allocated_areas@
            == s.vms@[c].consumer->0.allocated_areas@.remove(i)
        &&& t.vms@[c].qmp_socket_path == s.vms@[c].qmp_socket_path
        &&& t.vms@[c].donor == s.vms@[c].donor
        &&& forall|j: int| 0 <= j < s.vms@.len() && j != c
            ==> #[trigger] t.vms@[j] == s.vms@[j]
    }
}

/// `t` is `s` after the allocation `alloc_id` came back to region
/// `qom_path` of the donor at `donor_path`, with `r` what the bookkeeping
/// reported (see `DonorState::bookkeep_returned_eph_memory`).
pub open spec fn returned_in_list(
    s: VmList,
    t: VmList,
    donor_path: Seq<char>,
    qom_path: Seq<char>,
    alloc_id: u64,
    r: ReturnBookkeeping,
) -> bool {
    &&& t.next_alloc_id == s.next_alloc_id
    &&& t.vms@.len() == s.vms@.len()
    &&& match s.index_of(donor_path) {
        Some(b) => match s.vms@[b].donor {
            Some(d) => {
                &&& t.vms@[b].donor is Some
                &&& crate::donor::returned_to_donor(d, t.vms@[b].donor->0, qom_path, alloc_id, r)
                &&& t.vms@[b].qmp_socket_path == s.vms@[b].qmp_socket_path
                &&& t.vms@[b].consumer == s.vms@[b].consumer
                &&& forall|j: int| 0 <= j < s.vms@.len() && j != b
                    ==> #[trigger] t.vms@[j] == s.vms@[j]
            },
            None => r == ReturnBookkeeping::UnknownAllocation && t.vms@ == s.vms@,
        },
        None => r == ReturnBookkeeping::UnknownAllocation && t.vms@ == s.vms@,
    }
}

/// `t` is `s` after the consumer at `consumer_path` asked for `size` bytes
/// and `r` came back (see `VmList::reserve_for_request`).
pub open spec fn request_reserved(
    s: VmList,
    t: VmList,
    consumer_path: Seq<char>,
    size: u64,
    r: Result<EphAllocation, RequestError>,
) -> bool {
    &&& t.vms@.len() == s.vms@.len()
    &&& round_up_granule(size as int) > u64::MAX ==> r == Err::<EphAllocation, RequestError>(RequestError::SizeTooLarge)
    &&& round_up_granule(size as int) <= u64::MAX && !s.is_consumer(consumer_path)
        ==> r == Err::<EphAllocation, RequestError>(RequestError::NotAConsumer)
    &&& round_up_granule(size as int) <= u64::MAX && s.is_consumer(consumer_path)
        && s.next_alloc_id == u64::MAX
        ==> r == Err::<EphAllocation, RequestError>(RequestError::NoIdentifierLeft)
    &&& r is Err ==> t.vms@ == s.vms@ && t.next_alloc_id == s.next_alloc_id
    &&& round_up_granule(size as int) <= u64::MAX && s.is_consumer(consumer_path)
        && s.next_alloc_id < u64::MAX ==> exists|res: Option<EphAllocation>, cs2: ConsumerState| {
            let c = s.index_of(consumer_path)->0;
            &&& #[trigger] reserved(
                s.vms@[s.index_of(consumer_path)->0].consumer->0,
                cs2,
                round_up_granule(size as int) as u64,
                s.next_alloc_id,
                res,
            )
            &&& res is None ==> r == Err::<EphAllocation, RequestError>(RequestError::NoSpace)
            &&& res matches Some(a) ==> {
                &&& r == Ok::<EphAllocation, RequestError>(a)
                &&& t.next_alloc_id == s.next_alloc_id + 1
                &&& t.vms@[c].consumer == Some(cs2)
                &&& t.vms@[c].qmp_socket_path == s.vms@[c].qmp_socket_path
                &&& t.vms@[c].donor == s.vms@[c].donor
                &&& forall|j: int| 0 <= j < s.vms@.len() && j != c
                    ==> #[trigger] t.vms@[j] == s.vms@[j]
            }
        }
}

/// Marks the consumer whose socket is at `path` as connected over vsock,
/// unless it already is: a consumer has one connection at a time. Returns
/// whether it was marked; when not, nothing changes.
pub fn connect_consumer(connected: &mut Vec<String>, path: &str) -> (r: bool)
    ensures
        r == !path_listed(old(connected)@, path@),
        r ==> final(connected)@.len() == old(connected)@.len() + 1
            && final(connected)@.drop_last() == old(connected)@
            && final(connected)@.last()@ == path@,
        !r ==> final(connected)@ == old(connected)@,
{
    if is_listed(connected, path) {
        return false;
    }
    let ghost before = connected@;
    connected.push(String::from_str(path));
    proof {
        assert(connected@.drop_last() =~= before);
    }
    true
}

/// Forgets that the consumer whose socket is at `path` is connected, under
/// whatever spelling of the path it was marked.
pub fn disconnect_consumer(connected: &mut Vec<String>, path: &str)
    ensures
        !path_listed(final(connected)@, path@),
        forall|i: int| 0 <= i < final(connected)@.len() ==> old(connected)@.contains(#[trigger] final(connected)@[i]),
        forall|i: int| 0 <= i < old(connected)@.len() && !same_path(#[trigger] old(connected)@[i]@, path@)
            ==> final(connected)@.contains(old(connected)@[i]),
{
    let ghost before = connected@;
    let mut kept: Vec<String> = Vec::new();
    let n = connected.len();
    let mut i: usize = 0;
    while i < n
        invariant
            n == before.len(),
            connected@ == before,
            0 <= i <= n,
            forall|k: int| 0 <= k < kept@.len() ==> !same_path(#[trigger] kept@[k]@, path@),
            forall|k: int| 0 <= k < kept@.len() ==> before.contains(#[trigger] kept@[k]),
            forall|k: int| 0 <= k < i && !same_path(#[trigger] before[k]@, path@) ==> kept@.contains(before[k]),
        decreases n - i,
    {
        if !path_eq(connected[i].as_str(), path) {
            let ghost old_kept = kept@;
            kept.push(connected[i].clone());
            proof {
                assert(kept@.last() == before[i as int]);
                assert(kept@[kept@.len() - 1] == before[i as int]);
                assert forall|k: int| 0 <= k < i + 1 && !same_path(#[trigger] before[k]@, path@)
                    implies kept@.contains(before[k]) by {
                    if k < i {
                        let w = choose|w: int| 0 <= w < old_kept.len() && old_kept[w] == before[k];
                        assert(kept@[w] == before[k]);
                    } else {
                        assert(kept@[kept@.len() - 1] == before[k]);
                    }
                }
                assert forall|k: int| 0 <= k < kept@.len() implies before.contains(#[trigger] kept@[k]) by {
                    if k < old_kept.len() {
                        assert(kept@[k] == old_kept[k]);
                    } else {
                        assert(before[i as int] == kept@[k]);
                    }
                }
            }
        }
        i = i + 1;
    }
    *connected = kept;
}

/// What a consumer's request for memory gets to after a step done outside
/// the library.
#[derive(Clone, Copy, PartialEq, Eq, Debug)]
pub enum RequestEvent {
    /// Room was reserved in the consumer's device.
    Reserved,
    /// A donor granted memory for it.
    DonorFound,
    /// No donor could.
    NoDonor,
    /// The capacity was added to the consumer.
    CapacityAdded,
    /// Adding the capacity to the consumer failed.
    CapacityAddFailed,
}

/// What to do next for the request.
#[derive(Clone, Copy, PartialEq, Eq, Debug)]
pub enum RequestAction {
    /// Ask donors for the memory (`allocate_eph_memory_inner` and
    /// `after_donor_reply`, donor after donor).
    SearchDonors,
    /// Add the capacity to the consumer.
    AddCapacity,
    /// Release the reservation (`release_reserved_memory`); the request
    /// failed.
    ReleaseReservation,
    /// Give the memory back to the donor, then undo the books
    /// (`undo_request`); the request failed.
    ReturnToDonorAndUndo,
    /// The request is served.
    Done,
}

/// The next step of serving a request: each step that fails undoes the ones
/// before it.
pub fn request_next(event: RequestEvent) -> (r: RequestAction)
    ensures
        r == (match event {
            RequestEvent::Reserved => RequestAction::SearchDonors,
            RequestEvent::DonorFound => RequestAction::AddCapacity,
            RequestEvent::NoDonor => RequestAction::ReleaseReservation,
            RequestEvent::CapacityAdded => RequestAction::Done,
            RequestEvent::CapacityAddFailed => RequestAction::ReturnToDonorAndUndo,
        }),
{
    match event {
        RequestEvent::Reserved => RequestAction::SearchDonors,
        RequestEvent::DonorFound => RequestAction::AddCapacity,
        RequestEvent::NoDonor => RequestAction::ReleaseReservation,
        RequestEvent::CapacityAdded => RequestAction::Done,
        RequestEvent::CapacityAddFailed => RequestAction::ReturnToDonorAndUndo,
    }
}

/// Law: a search lends from the first region, in the donor's order, with
/// room for the whole reservation. The region lent from has at least
/// `a.initial_size` bytes free, every region before it in the donor has
/// fewer; that region alone now counts the reservation as donated, and
/// nothing else of any VM changes. The donor's socket path sorts after
/// `start`, and before that of every other donor past `start` with a region
/// that has the room.
pub proof fn law_search_lends_from_first_region_with_room(
    s: VmList,
    start: Seq<char>,
    a: EphAllocation,
    t: VmList,
    b: int,
    ri: int,
)
    requires
        lent_by_search(s, start, a, t, b, ri),
    ensures
        0 <= b < s.vms@.len(),
        s.vms@[b].donor is Some,
        t.vms@[b].donor is Some,
        ({
            let before = s.vms@[b].donor->0.donatable_regions@;
            let after = t.vms@[b].donor->0.donatable_regions@;
            &&& 0 <= ri < before.len()
            &&& before[ri].size - before[ri].donated >= a.initial_size
            &&& forall|j: int| 0 <= j < ri ==> #[trigger] before[j].size - before[j].donated < a.initial_size
            &&& after.len() == before.len()
            &&& after[ri].donated == before[ri].donated + a.initial_size
            &&& forall|j: int| 0 <= j < before.len() && j != ri ==> #[trigger] after[j] == before[j]
        }),
        forall|j: int| 0 <= j < s.vms@.len() && j != b ==> #[trigger] t.vms@[j] == s.vms@[j],
        path_lt(start, s.vms@[b].qmp_socket_path@),
        forall|j: int, r: int| #![trigger s.vms@[j].donor->0.donatable_regions@[r]] {
            &&& 0 <= j < s.vms@.len()
            &&& j != b
            &&& path_lt(start, s.vms@[j].qmp_socket_path@)
            &&& s.vms@[j].donor is Some
            &&& 0 <= r < s.vms@[j].donor->0.donatable_regions@.len()
            &&& s.vms@[j].donor->0.donatable_regions@[r].size - s.vms@[j].donor->0.donatable_regions@[r].donated
                >= a.initial_size
        } ==> path_lt(s.vms@[b].qmp_socket_path@, s.vms@[j].qmp_socket_path@),
{
    assert forall|j: int, r: int| #![trigger s.vms@[j].donor->0.donatable_regions@[r]] {
        &&& 0 <= j < s.vms@.len()
        &&& j != b
        &&& path_lt(start, s.vms@[j].qmp_socket_path@)
        &&& s.vms@[j].donor is Some
        &&& 0 <= r < s.vms@[j].donor->0.donatable_regions@.len()
        &&& s.vms@[j].donor->0.donatable_regions@[r].size - s.vms@[j].donor->0.donatable_regions@[r].donated
            >= a.initial_size
    } implies path_lt(s.vms@[b].qmp_socket_path@, s.vms@[j].qmp_socket_path@) by {
        let d = s.vms@[j].donor->0;
        assert(d.donatable_regions@[r].available() >= a.initial_size);
        assert(is_candidate_donor(s.vms@, start, a.initial_size, j));
    }
    let before = s.vms@[b].donor->0.donatable_regions@;
    assert forall|j: int| 0 <= j < ri implies #[trigger] before[j].size - before[j].donated < a.initial_size by {
        assert(before[j].available() < a.initial_size);
    }
}

/// All VMs, no two with sockets at the same path.
pub struct VmList {
    pub vms: Vec<Vm>,
    /// The identifier the next reservation gets.
    pub next_alloc_id: u64,
}

impl VmList {
    pub open spec fn wf(&self) -> bool {
        &&& forall|i: int, j: int| 0 <= i < j < self.vms@.len()
            ==> #[trigger] self.vms@[i].key() != #[trigger] self.vms@[j].key()
        &&& forall|i: int| 0 <= i < self.vms@.len() ==> #[trigger] self.vms@[i].wf()
    }

    /// Whether some VM has its socket at the path `path`.
    pub open spec fn has_path(&self, path: Seq<char>) -> bool {
        exists|i: int| 0 <= i < self.vms@.len() && same_path(#[trigger] self.vms@[i].qmp_socket_path@, path)
    }

    /// Index of the VM with its socket at the path `path`, if any.
    pub open spec fn index_of(&self, path: Seq<char>) -> Option<int> {
        if self.has_path(path) {
            Some(choose|i: int| 0 <= i < self.vms@.len() && same_path(#[trigger] self.vms@[i].qmp_socket_path@, path))
        } else {
            None
        }
    }

    /// Only one VM has its socket at a given path.
    pub proof fn lemma_index_of(&self, path: Seq<char>, i: int)
        requires
            self.wf(),
            0 <= i < self.vms@.len(),
            same_path(self.vms@[i].qmp_socket_path@, path),
        ensures
            self.index_of(path) == Some(i),
    {
        let j = choose|j: int| 0 <= j < self.vms@.len() && same_path(#[trigger] self.vms@[j].qmp_socket_path@, path);
        if j < i {
            assert(self.vms@[j].key() != self.vms@[i].key());
        } else if i < j {
            assert(self.vms@[i].key() != self.vms@[j].key());
        }
    }

    /// How a grant of `granted` bytes for `alloc_id` from the donor at
    /// `donor_path` splits: bytes kept and bytes owed back.
    pub open spec fn reply_split(&self, donor_path: Seq<char>, qom_path: Seq<char>, alloc_id: u64, granted: u64) -> (u64, u64) {
        match self.index_of(donor_path) {
            Some(b) => match self.vms@[b].donor {
                Some(d) => reserved_split(d, qom_path, alloc_id, granted),
                None => (0u64, 0u64),
            },
            None => (0u64, 0u64),
        }
    }

    /// The VM with socket path `path` has a dynamic-capacity device.
    pub open spec fn is_consumer(&self, path: Seq<char>) -> bool {
        match self.index_of(path) {
            Some(c) => self.vms@[c].consumer is Some,
            None => false,
        }
    }

    /// An empty list.
    pub fn new() -> (r: Self)
        ensures
            r.wf(),
            r.vms@.len() == 0,
            r.next_alloc_id == 0,
    {
        VmList { vms: Vec::new(), next_alloc_id: 0 }
    }

    /// Index of the VM whose socket is at the path `path`.
    pub fn find_vm(&self, path: &str) -> (r: Option<usize>)
        ensures
            r matches Some(i) ==> i < self.vms@.len() && same_path(self.vms@[i as int].qmp_socket_path@, path@),
            r is None <==> !self.has_path(path@),
    {
        let wanted = path_components(path);
        let n = self.vms.len();
        let mut i: usize = 0;
        while i < n
            invariant
                n == self.vms@.len(),
                0 <= i <= n,
                crate::path::views(wanted@) == components(path@),
                forall|j: int| 0 <= j < i ==> !same_path(#[trigger] self.vms@[j].qmp_socket_path@, path@),
            decreases n - i,
        {
            let here = path_components(self.vms[i].qmp_socket_path.as_str());
            if components_eq(&here, &wanted) {
                return Some(i);
            }
            i = i + 1;
        }
        None
    }

    /// Finds a donor for the reservation `rsvd` and lends it there. The
    /// search takes the VMs whose socket path sorts after `path_start` (by
    /// components, as `Path` sorts), in that order, and stops at the first
    /// that has a region with the whole reservation free; in that VM it
    /// takes the first such region, counts
    /// the reservation as donated and records it there. Returns the donor's
    /// socket path and the region's QOM path, or `None` (changing nothing)
    /// when no such donor is left.
    pub fn allocate_eph_memory_inner(&mut self, path_start: &str, rsvd: &EphAllocation) -> (r: Option<(String, String)>)
        requires
            old(self).wf(),
        ensures
            final(self).wf(),
            final(self).next_alloc_id == old(self).next_alloc_id,
            final(self).vms@.len() == old(self).vms@.len(),
            r is None <==> forall|i: int| !#[trigger] is_candidate_donor(old(self).vms@, path_start@, rsvd.initial_size, i),
            r is None ==> final(self).vms@ == old(self).vms@,
            r matches Some((vm_path, qom_path)) ==> exists|b: int, ri: int| {
                &&& #[trigger] lent_by_search(*old(self), path_start@, *rsvd, *final(self), b, ri)
                &&& vm_path@ == old(self).vms@[b].qmp_socket_path@
                &&& qom_path@ == old(self).vms@[b].donor->0.donatable_regions@[ri].path@
            },
    {
        let ghost s0 = *self;
        let size = rsvd.initial_size;
        let start = path_components(path_start);
        let ghost vms = self.vms@;
        let n = self.vms.len();
        let mut best: Option<usize> = None;
        let mut best_chars: Vec<Vec<char>> = Vec::new();
        let mut i: usize = 0;
        while i < n
            invariant
                n == vms.len(),
                self.vms@ == vms,
                self.wf(),
                crate::path::views(start@) == components(path_start@),
                size == rsvd.initial_size,
                0 <= i <= n,
                best matches Some(b) ==> {
                    &&& b < i
                    &&& is_candidate_donor(vms, path_start@, size, b as int)
                    &&& crate::path::views(best_chars@) == vms[b as int].key()
                    &&& forall|j: int| 0 <= j < i && #[trigger] is_candidate_donor(vms, path_start@, size, j)
                        ==> !path_lt(vms[j].qmp_socket_path@, vms[b as int].qmp_socket_path@)
                },
                best is None ==> forall|j: int| 0 <= j < i ==> !#[trigger] is_candidate_donor(vms, path_start@, size, j),
            decreases n - i,
        {
            let p = path_components(self.vms[i].qmp_socket_path.as_str());
            let room = match &self.vms[i].donor {
                Some(d) => {
                    proof {
                        assert(self.vms@[i as int].wf());
                    }
                    match first_fitting_region(d, size) {
                        Some(_) => true,
                        None => false,
                    }
                },
                None => false,
            };
            if room && components_less(&start, &p) {
                match best {
                    None => {
                        best = Some(i);
                        best_chars = p;
                    },
                    Some(b) => {
                        if components_less(&p, &best_chars) {
                            proof {
                                assert forall|j: int| 0 <= j < i + 1 && #[trigger] is_candidate_donor(vms, path_start@, size, j)
                                    implies !path_lt(vms[j].qmp_socket_path@, vms[i as int].qmp_socket_path@) by {
                                    if j < i && path_lt(vms[j].qmp_socket_path@, vms[i as int].qmp_socket_path@) {
                                        lemma_keys_lt_transitive(vms[j].key(), vms[i as int].key(), vms[b as int].key());
                                    }
                                    if j == i {
                                        lemma_keys_lt_irreflexive(vms[j].key());
                                    }
                                }
                            }
                            best = Some(i);
                            best_chars = p;
                        }
                    },
                }
            } else {
                proof {
                    if is_candidate_donor(vms, path_start@, size, i as int) {
                        let d = vms[i as int].donor->0;
                        let ri = choose|ri: int| 0 <= ri < d.donatable_regions@.len()
                            && #[trigger] d.donatable_regions@[ri].available() >= size;
                        assert(d.donatable_regions@[ri].available() >= size);
                    }
                }
            }
            i = i + 1;
        }
        let Some(b) = best else {
            return None;
        };
        proof {
            assert forall|j: int| #[trigger] is_candidate_donor(vms, path_start@, size, j) && j != b
                implies path_lt(vms[b as int].qmp_socket_path@, vms[j].qmp_socket_path@) by {
                if j < b {
                    assert(vms[j].key() != vms[b as int].key());
                } else {
                    assert(vms[b as int].key() != vms[j].key());
                }
                lemma_keys_lt_total(vms[b as int].key(), vms[j].key());
            }
        }
        let mut d = match self.vms[b].donor.take() {
            Some(d) => d,
            None => {
                return None;
            },
        };
        proof {
            assert(vms[b as int].wf());
        }
        let ri = match first_fitting_region(&d, size) {
            Some(ri) => ri,
            None => {
                self.vms[b].donor = Some(d);
                proof {
                    assert(self.vms@ =~= vms);
                }
                return None;
            },
        };
        let ghost old_d = d;
        proof {
            assert(d.donatable_regions@[ri as int].wf());
        }
        d.donatable_regions[ri].donated = d.donatable_regions[ri].donated + size;
        d.donatable_regions[ri].allocations.push(*rsvd);
        let qom_path = d.donatable_regions[ri].path.clone();
        proof {
            assert forall|j: int| 0 <= j < d.donatable_regions@.len() implies #[trigger] d.donatable_regions@[j].wf() by {
                assert(old_d.donatable_regions@[j].wf());
            }
        }
        self.vms[b].donor = Some(d);
        proof {
            assert forall|x: int, y: int| 0 <= x < y < self.vms@.len()
                implies #[trigger] self.vms@[x].key() != #[trigger] self.vms@[y].key() by {
                assert(vms[x].key() != vms[y].key());
            }
            assert forall|x: int| 0 <= x < self.vms@.len() implies #[trigger] self.vms@[x].wf() by {
                assert(vms[x].wf());
            }
        }
        let vm_path = self.vms[b].qmp_socket_path.clone();
        proof {
            assert(lent_by_search(s0, path_start@, *rsvd, *self, b as int, ri as int));
        }
        Some((vm_path, qom_path))
    }

    /// Books the answer of the donor at `donor_path` (region `qom_path`) to
    /// the request for `rsvd`: `granted` bytes, or zero when the request
    /// failed. What is owed from earlier revocations is taken out first, and
    /// of the rest only whole granules are kept; the remainder goes straight
    /// back to the donor (`to_revoke`). If a granule or more is kept, the
    /// allocation is committed with that size in the donor, in `rsvd` and in
    /// the consumer at `consumer_path`. Otherwise the donor forgets the
    /// allocation and the search goes on past this donor.
    pub fn after_donor_reply(
        &mut self,
        consumer_path: &str,
        rsvd: &mut EphAllocation,
        donor_path: &str,
        qom_path: &str,
        granted: u64,
    ) -> (r: DonorReplyOutcome)
        requires
            old(self).wf(),
        ensures
            final(self).wf(),
            final(self).next_alloc_id == old(self).next_alloc_id,
            final(self).vms@.len() == old(self).vms@.len(),
            reply_booked(*old(self), *final(self), consumer_path@, *old(rsvd), *final(rsvd), donor_path@, qom_path@, granted, r),
            r matches DonorReplyOutcome::Committed { size, .. } ==> size > 0
                && size % EPH_MEM_DONATION_GRANULARITY == 0 && final(rsvd).size == size,
    {
        let ghost vms0 = self.vms@;
        let Some(b) = self.find_vm(donor_path) else {
            return DonorReplyOutcome::TryNext { to_revoke: 0 };
        };
        proof {
            self.lemma_index_of(donor_path@, b as int);
            assert(vms0[b as int].wf());
        }
        let Some(mut d) = self.vms[b].donor.take() else {
            proof {
                assert(self.vms@ =~= vms0);
                assert forall|j: int| 0 <= j < vms0.len() && same_path(vms0[j].qmp_socket_path@, donor_path@)
                    implies j == b by {
                    self.lemma_index_of(donor_path@, j);
                }
            }
            return DonorReplyOutcome::TryNext { to_revoke: 0 };
        };
        let (kept, to_revoke) = d.handle_reserved_alloc(qom_path, rsvd.id, granted);
        if kept > 0 {
            d.commit_allocation(qom_path, rsvd.id, kept);
        }
        self.vms[b].donor = Some(d);
        let ghost vms1 = self.vms@;
        proof {
            assert forall|x: int, y: int| 0 <= x < y < self.vms@.len()
                implies #[trigger] self.vms@[x].key() != #[trigger] self.vms@[y].key() by {
                assert(vms0[x].key() != vms0[y].key());
            }
            assert forall|x: int| 0 <= x < self.vms@.len() implies #[trigger] self.vms@[x].wf() by {
                assert(vms0[x].wf());
            }
        }
        if kept == 0 {
            proof {
                assert forall|j: int| 0 <= j < vms0.len() && same_path(vms0[j].qmp_socket_path@, donor_path@) && vms0[j].donor is Some
                    implies exists|m: DonorState| {
                        &&& #[trigger] handled_reserved(vms0[j].donor->0, m, qom_path@, rsvd.id, granted)
                        &&& self.vms@[j].donor is Some
                        &&& self.vms@[j].donor->0 == m
                    } by {
                    if j < b {
                        assert(vms0[j].key() != vms0[b as int].key());
                    } else if b < j {
                        assert(vms0[b as int].key() != vms0[j].key());
                    }
                }
            }
            return DonorReplyOutcome::TryNext { to_revoke };
        }
        rsvd.commit_allocation(kept);
        match self.find_vm(consumer_path) {
            Some(ci) => {
                proof {
                    assert(self.vms@[ci as int].wf());
                    self.lemma_index_of(consumer_path@, ci as int);
                }
                match self.vms[ci].consumer.take() {
                    Some(mut c) => {
                        c.commit_allocation(rsvd.consumer_offset, kept);
                        self.vms[ci].consumer = Some(c);
                    },
                    None => {},
                }
            },
            None => {},
        }
        proof {
            assert forall|x: int, y: int| 0 <= x < y < self.vms@.len()
                implies #[trigger] self.vms@[x].key() != #[trigger] self.vms@[y].key() by {
                assert(vms1[x].key() != vms1[y].key());
            }
            assert forall|x: int| 0 <= x < self.vms@.len() implies #[trigger] self.vms@[x].wf() by {
                assert(vms1[x].wf());
            }
            assert forall|j: int| 0 <= j < vms0.len() && same_path(vms0[j].qmp_socket_path@, donor_path@) && vms0[j].donor is Some
                implies exists|m: DonorState| {
                    &&& #[trigger] handled_reserved(vms0[j].donor->0, m, qom_path@, old(rsvd).id, granted)
                    &&& self.vms@[j].donor is Some
                    &&& committed_in_donor(m, self.vms@[j].donor->0, qom_path@, old(rsvd).id, kept)
                } by {
                if j < b {
                    assert(vms0[j].key() != vms0[b as int].key());
                } else if b < j {
                    assert(vms0[b as int].key() != vms0[j].key());
                }
            }
            assert forall|j: int| 0 <= j < vms0.len() && same_path(vms0[j].qmp_socket_path@, consumer_path@)
                implies self.index_of(consumer_path@) == Some(j) by {
                self.lemma_index_of(consumer_path@, j);
            }
        }
        DonorReplyOutcome::Committed { size: kept, to_revoke }
    }

    /// Starts a consumer's request for `size` bytes: rounds the size up to
    /// the granularity and reserves room for it in the device of the consumer
    /// at `consumer_path`, under the next reservation identifier.
    pub fn reserve_for_request(&mut self, consumer_path: &str, size: u64) -> (r: Result<EphAllocation, RequestError>)
        requires
            old(self).wf(),
        ensures
            final(self).wf(),
            request_reserved(*old(self), *final(self), consumer_path@, size, r),
    {
        let Some(aligned) = align_to_granularity(size) else {
            return Err(RequestError::SizeTooLarge);
        };
        let Some(ci) = self.find_vm(consumer_path) else {
            return Err(RequestError::NotAConsumer);
        };
        proof {
            self.lemma_index_of(consumer_path@, ci as int);
            assert(self.vms@[ci as int].wf());
        }
        if self.vms[ci].consumer.is_none() {
            return Err(RequestError::NotAConsumer);
        }
        if self.next_alloc_id == u64::MAX {
            return Err(RequestError::NoIdentifierLeft);
        }
        let id = self.next_alloc_id;
        let ghost vms0 = self.vms@;
        let Some(mut c) = self.vms[ci].consumer.take() else {
            return Err(RequestError::NotAConsumer);
        };
        let outcome = c.reserve_memory(aligned, id);
        let ghost cs2 = c;
        self.vms[ci].consumer = Some(c);
        proof {
            assert forall|x: int, y: int| 0 <= x < y < self.vms@.len()
                implies #[trigger] self.vms@[x].key() != #[trigger] self.vms@[y].key() by {
                assert(vms0[x].key() != vms0[y].key());
            }
            assert forall|x: int| 0 <= x < self.vms@.len() implies #[trigger] self.vms@[x].wf() by {
                assert(vms0[x].wf());
            }
        }
        match outcome {
            Some(a) => {
                self.next_alloc_id = id + 1;
                proof {
                    assert(reserved(vms0[ci as int].consumer->0, cs2, aligned, id, outcome));
                    assert(round_up_granule(size as int) as u64 == aligned);
                }
                Ok(a)
            },
            None => {
                proof {
                    assert(self.vms@ =~= vms0);
                    assert(reserved(vms0[ci as int].consumer->0, cs2, aligned, id, outcome));
                    assert(round_up_granule(size as int) as u64 == aligned);
                }
                Err(RequestError::NoSpace)
            },
        }
    }

    /// Releases the reservation at `offset` in the consumer at
    /// `consumer_path`. Returns false when there is no such reservation.
    pub fn release_reserved_memory(&mut self, consumer_path: &str, offset: u64) -> (r: bool)
        requires
            old(self).wf(),
        ensures
            final(self).wf(),
            released_in_list(*old(self), *final(self), consumer_path@, offset, r),
    {
        let Some(ci) = self.find_vm(consumer_path) else {
            return false;
        };
        proof {
            self.lemma_index_of(consumer_path@, ci as int);
            assert(self.vms@[ci as int].wf());
        }
        let ghost vms0 = self.vms@;
        let Some(mut c) = self.vms[ci].consumer.take() else {
            proof {
                assert(self.vms@ =~= vms0);
            }
            return false;
        };
        let released = c.release_reserved_memory(offset);
        self.vms[ci].consumer = Some(c);
        proof {
            assert forall|x: int, y: int| 0 <= x < y < self.vms@.len()
                implies #[trigger] self.vms@[x].key() != #[trigger] self.vms@[y].key() by {
                assert(vms0[x].key() != vms0[y].key());
            }
            assert forall|x: int| 0 <= x < self.vms@.len() implies #[trigger] self.vms@[x].wf() by {
                assert(vms0[x].wf());
            }
            if !released {
                assert(self.vms@ =~= vms0);
            }
        }
        released
    }

    /// Undoes the books of a request whose capacity could not be added to
    /// the consumer, once its memory went back to the donor: region
    /// `donor_qom_path` of the donor at `donor_path` takes the allocation
    /// `rsvd` back, then the consumer at `consumer_path` releases the area
    /// reserved for it. Returns what the donor's bookkeeping reported and
    /// whether the consumer had the area.
    pub fn undo_request(
        &mut self,
        consumer_path: &str,
        rsvd: &EphAllocation,
        donor_path: &str,
        donor_qom_path: &str,
    ) -> (r: (ReturnBookkeeping, bool))
        requires
            old(self).wf(),
        ensures
            final(self).wf(),
            exists|mid: VmList| {
                &&& #[trigger] returned_in_list(*old(self), mid, donor_path@, donor_qom_path@, rsvd.id, r.0)
                &&& released_in_list(mid, *final(self), consumer_path@, rsvd.consumer_offset, r.1)
            },
    {
        let ghost s0 = *self;
        let returned = self.bookkeep_returned_eph_memory(donor_path, donor_qom_path, rsvd.id);
        let ghost mid = *self;
        let released = self.release_reserved_memory(consumer_path, rsvd.consumer_offset);
        let r = (returned, released);
        proof {
            assert(returned_in_list(*old(self), mid, donor_path@, donor_qom_path@, rsvd.id, r.0));
            assert(released_in_list(mid, *self, consumer_path@, rsvd.consumer_offset, r.1));
        }
        r
    }

    /// Forgets the VMs whose sockets went away.
    pub fn remove_vms(&mut self, paths: &Vec<String>)
        requires
            old(self).wf(),
        ensures
            final(self).wf(),
            final(self).next_alloc_id == old(self).next_alloc_id,
            final(self).vms@ == kept_vms(old(self).vms@, paths@),
            final(self).vms@ == old(self).vms@.filter(|v: Vm| !path_listed(paths@, v.qmp_socket_path@)),
    {
        proof {
            law_kept_vms_are_the_unlisted(old(self).vms@, paths@);
        }
        let ghost vms0 = self.vms@;
        let mut rest: Vec<Vm> = Vec::new();
        std::mem::swap(&mut rest, &mut self.vms);
        let n = rest.len();
        let mut i: usize = 0;
        while i < n
            invariant
                n == vms0.len(),
                0 <= i <= n,
                rest@ == vms0.subrange(i as int, n as int),
                self.vms@ == kept_vms(vms0.take(i as int), paths@),
                self.next_alloc_id == old(self).next_alloc_id,
                forall|k: int| 0 <= k < self.vms@.len() ==> exists|j: int| 0 <= j < i && #[trigger] vms0[j] == #[trigger] self.vms@[k],
                forall|x: int, y: int| 0 <= x < y < vms0.len()
                    ==> #[trigger] vms0[x].key() != #[trigger] vms0[y].key(),
                forall|x: int| 0 <= x < vms0.len() ==> #[trigger] vms0[x].wf(),
                self.wf(),
            decreases n - i,
        {
            let vm = rest.remove(0);
            proof {
                assert(vms0.take(i + 1).drop_last() =~= vms0.take(i as int));
                assert(vms0.take(i + 1).last() == vm);
                assert(rest@ =~= vms0.subrange(i + 1, n as int));
            }
            if !is_listed(paths, vm.qmp_socket_path.as_str()) {
                let ghost before = self.vms@;
                self.vms.push(vm);
                proof {
                    assert forall|k: int| 0 <= k < self.vms@.len() implies exists|j: int| 0 <= j < i + 1 && #[trigger] vms0[j] == #[trigger] self.vms@[k] by {
                        if k == before.len() {
                            assert(vms0[i as int] == self.vms@[k]);
                        } else {
                            assert(self.vms@[k] == before[k]);
                        }
                    }
                    assert forall|x: int, y: int| 0 <= x < y < self.vms@.len()
                        implies #[trigger] self.vms@[x].key() != #[trigger] self.vms@[y].key() by {
                        if y == before.len() {
                            let jx = choose|j: int| 0 <= j < i && #[trigger] vms0[j] == before[x];
                            assert(vms0[jx].key() != vms0[i as int].key());
                        } else {
                            assert(before[x].key() != before[y].key());
                        }
                    }
                    assert forall|x: int| 0 <= x < self.vms@.len() implies #[trigger] self.vms@[x].wf() by {
                        if x < before.len() {
                            assert(before[x].wf());
                        } else {
                            assert(vms0[i as int].wf());
                        }
                    }
                }
            }
            i = i + 1;
        }
        proof {
            assert(vms0.take(n as int) =~= vms0);
        }
    }

    /// Whether a new file in the socket directory is a VM to connect to: a
    /// socket whose path is not registered yet.
    pub fn handle_new_file(&self, path: &str, is_socket: bool) -> (r: bool)
        ensures
            r == (is_socket && !self.has_path(path@)),
    {
        if !is_socket {
            return false;
        }
        match self.find_vm(path) {
            Some(_) => false,
            None => true,
        }
    }

    /// Registers a newly found VM: a donor when some of its memory backends
    /// are donatable, a consumer when it has a dynamic-capacity device. A VM
    /// already registered at that path is replaced by the new one, as in a
    /// map keyed by path. Returns whether the path was new.
    pub fn check_new_vm(&mut self, path: String, memdevs: Vec<Memdev>, consumer: Option<ConsumerState>) -> (r: bool)
        requires
            old(self).wf(),
            consumer matches Some(c) ==> c.wf(),
        ensures
            final(self).wf(),
            final(self).next_alloc_id == old(self).next_alloc_id,
            r == !old(self).has_path(path@),
            r ==> final(self).vms@.len() == old(self).vms@.len() + 1
                && final(self).vms@.drop_last() == old(self).vms@
                && final(self).vms@.last().qmp_socket_path@ == path@
                && final(self).vms@.last().consumer == consumer
                && crate::qmp_types::is_donor_of(memdevs@, final(self).vms@.last().donor),
            !r ==> ({
                let i = old(self).index_of(path@)->0;
                &&& final(self).vms@ == old(self).vms@.update(i, final(self).vms@[i])
                &&& final(self).vms@[i].qmp_socket_path@ == path@
                &&& final(self).vms@[i].consumer == consumer
                &&& crate::qmp_types::is_donor_of(memdevs@, final(self).vms@[i].donor)
            }),
    {
        let found = self.find_vm(path.as_str());
        let donor = DonorState::new(memdevs);
        let ghost vms0 = self.vms@;
        match found {
            Some(i) => {
                proof {
                    self.lemma_index_of(path@, i as int);
                }
                self.vms.set(i, Vm { qmp_socket_path: path, donor, consumer });
                proof {
                    assert forall|x: int, y: int| 0 <= x < y < self.vms@.len()
                        implies #[trigger] self.vms@[x].key() != #[trigger] self.vms@[y].key() by {
                        assert(vms0[x].key() != vms0[y].key());
                    }
                    assert forall|x: int| 0 <= x < self.vms@.len() implies #[trigger] self.vms@[x].wf() by {
                        if x != i {
                            assert(vms0[x].wf());
                        }
                    }
                    assert(self.vms@ =~= vms0.update(i as int, self.vms@[i as int]));
                }
                false
            },
            None => {
                self.vms.push(Vm { qmp_socket_path: path, donor, consumer });
                proof {
                    assert forall|x: int, y: int| 0 <= x < y < self.vms@.len()
                        implies #[trigger] self.vms@[x].key() != #[trigger] self.vms@[y].key() by {
                        if y < vms0.len() {
                            assert(vms0[x].key() != vms0[y].key());
                        } else {
                            assert(self.vms@[x] == vms0[x]);
                        }
                    }
                    assert forall|x: int| 0 <= x < self.vms@.len() implies #[trigger] self.vms@[x].wf() by {
                        if x < vms0.len() {
                            assert(vms0[x].wf());
                        }
                    }
                    assert(self.vms@.drop_last() =~= vms0);
                }
                true
            },
        }
    }

    /// Bookkeeping in the donor at `donor_path` after the allocation
    /// `alloc_id` came back from its consumer (see
    /// `DonorState::bookkeep_returned_eph_memory`).
    pub fn bookkeep_returned_eph_memory(&mut self, donor_path: &str, donor_qom_path: &str, alloc_id: u64) -> (r: ReturnBookkeeping)
        requires
            old(self).wf(),
        ensures
            final(self).wf(),
            returned_in_list(*old(self), *final(self), donor_path@, donor_qom_path@, alloc_id, r),
    {
        let Some(b) = self.find_vm(donor_path) else {
            return ReturnBookkeeping::UnknownAllocation;
        };
        proof {
            self.lemma_index_of(donor_path@, b as int);
            assert(self.vms@[b as int].wf());
        }
        let ghost vms0 = self.vms@;
        let Some(mut d) = self.vms[b].donor.take() else {
            proof {
                assert(self.vms@ =~= vms0);
            }
            return ReturnBookkeeping::UnknownAllocation;
        };
        let r = d.bookkeep_returned_eph_memory(donor_qom_path, alloc_id);
        self.vms[b].donor = Some(d);
        proof {
            assert forall|x: int, y: int| 0 <= x < y < self.vms@.len()
                implies #[trigger] self.vms@[x].key() != #[trigger] self.vms@[y].key() by {
                assert(vms0[x].key() != vms0[y].key());
            }
            assert forall|x: int| 0 <= x < self.vms@.len() implies #[trigger] self.vms@[x].wf() by {
                assert(vms0[x].wf());
            }
        }
        r
    }
}

} // verus!
