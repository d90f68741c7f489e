use vstd::prelude::*;

use crate::allocation::{align_down, round_down_granule, EphAllocation, EPH_MEM_DONATION_GRANULARITY};
use crate::text::str_eq;

verus! {

/// A memory region of a donor VM whose unused memory may be lent out.
pub struct DonatableRegion {
    /// The total memory in the region.
    pub size: u64,
    /// How much of the region has been handed to consumers.
    pub donated: u64,
    /// QOM path of the memory backend of the region.
    pub path: String,
    /// Memory revoked from the region before its pending allocations were
    /// confirmed; it is taken back out of the next grant.
    pub revoked_owed: u64,
    /// The allocations lent from this region.
    pub allocations: Vec<EphAllocation>,
}

impl DonatableRegion {
    /// A region never handed out more than it holds.
    pub open spec fn wf(&self) -> bool {
        self.donated <= self.size
    }

    /// A region of `size` bytes with nothing donated.
    pub fn new(size: u64, path: String) -> (r: Self)
        ensures
            r.wf(),
            r.size == size,
            r.donated == 0,
            r.revoked_owed == 0,
            r.path@ == path@,
            r.allocations@ == Seq::<EphAllocation>::empty(),
    {
        DonatableRegion { size, donated: 0, revoked_owed: 0, path, allocations: Vec::new() }
    }

    /// Bytes of the region still free to lend.
    pub open spec fn available(&self) -> int {
        self.size - self.donated
    }
}

/// Index of the first allocation in `allocs` with identifier `id`.
pub open spec fn first_alloc_with_id(allocs: Seq<EphAllocation>, id: u64, pos: int) -> bool {
    &&& 0 <= pos < allocs.len()
    &&& allocs[pos].id == id
    &&& forall|j: int| 0 <= j < pos ==> #[trigger] allocs[j].id != id
}

/// Index of the first region whose path is `path`.
pub open spec fn first_region_with_path(regions: Seq<DonatableRegion>, path: Seq<char>, ri: int) -> bool {
    &&& 0 <= ri < regions.len()
    &&& regions[ri].path@ == path
    &&& forall|j: int| 0 <= j < ri ==> #[trigger] regions[j].path@ != path
}

/// What returning an allocation to its donor found.
#[derive(Clone, Copy, PartialEq, Eq, Debug)]
pub enum ReturnBookkeeping {
    /// The allocation was dropped and its bytes no longer count as donated.
    Returned,
    /// The region had less donated than the allocation holds; its donated
    /// count was reset to zero and the allocation dropped.
    ReturnedMoreThanDonated,
    /// No allocation with that identifier is recorded under that path.
    UnknownAllocation,
}

/// What the region at `qom_path` pays off, out of a grant of `granted_size`
/// bytes for allocation `alloc_id`, of what it owes from earlier
/// revocations: as much of the grant (capped at the reservation) as it owes.
/// Nothing for an unknown allocation.
pub open spec fn owed_payment(d: DonorState, qom_path: Seq<char>, alloc_id: u64, granted_size: u64) -> u64 {
    match d.find_alloc_spec(qom_path, alloc_id) {
        None => 0u64,
        Some((ri, pos)) => {
            let region = d.donatable_regions@[ri];
            let alloc = region.allocations@[pos];
            let granted = if granted_size < alloc.initial_size { granted_size } else { alloc.initial_size };
            if region.revoked_owed < granted { region.revoked_owed } else { granted }
        },
    }
}

/// What a grant of `granted_size` bytes for allocation `alloc_id` in the
/// region at `qom_path` splits into: the bytes the allocation keeps and the
/// bytes given straight back to the donor. The grant counts up to the
/// reservation; what the region owes is paid from it first, and of the rest
/// only whole granules are kept, so capacity moves in granules. Nothing for
/// an unknown allocation.
pub open spec fn reserved_split(d: DonorState, qom_path: Seq<char>, alloc_id: u64, granted_size: u64) -> (u64, u64) {
    match d.find_alloc_spec(qom_path, alloc_id) {
        None => (0u64, 0u64),
        Some((ri, pos)) => {
            let alloc = d.donatable_regions@[ri].allocations@[pos];
            let granted = if granted_size < alloc.initial_size { granted_size } else { alloc.initial_size };
            let kept = round_down_granule(granted - owed_payment(d, qom_path, alloc_id, granted_size));
            (kept as u64, (granted - kept) as u64)
        },
    }
}

/// `new` is `old` after a grant for allocation `alloc_id` was booked: the
/// region pays off what it owes out of the grant, and drops the allocation
/// when it keeps nothing.
pub open spec fn handled_reserved(old: DonorState, new: DonorState, qom_path: Seq<char>, alloc_id: u64, granted_size: u64) -> bool {
    &&& new.donatable_regions@.len() == old.donatable_regions@.len()
    &&& match old.find_alloc_spec(qom_path, alloc_id) {
        None => new.donatable_regions@ == old.donatable_regions@,
        Some((ri, pos)) => {
            let region = old.donatable_regions@[ri];
            let (kept, to_revoke) = reserved_split(old, qom_path, alloc_id, granted_size);
            let new_region = new.donatable_regions@[ri];
            &&& new_region.revoked_owed == region.revoked_owed - owed_payment(old, qom_path, alloc_id, granted_size)
            &&& new_region.size == region.size
            &&& new_region.donated == region.donated
            &&& new_region.path == region.path
            &&& new_region.allocations@ == (if kept == 0 {
                    region.allocations@.remove(pos)
                } else {
                    region.allocations@
                })
            &&& forall|j: int| 0 <= j < old.donatable_regions@.len() && j != ri
                ==> #[trigger] new.donatable_regions@[j] == old.donatable_regions@[j]
        },
    }
}

/// `new` is `old` with the allocation `alloc_id` at `qom_path` now holding
/// `size` bytes.
pub open spec fn committed_in_donor(old: DonorState, new: DonorState, qom_path: Seq<char>, alloc_id: u64, size: u64) -> bool {
    &&& new.donatable_regions@.len() == old.donatable_regions@.len()
    &&& match old.find_alloc_spec(qom_path, alloc_id) {
        None => new.donatable_regions@ == old.donatable_regions@,
        Some((ri, pos)) => {
            let region = old.donatable_regions@[ri];
            let new_region = new.donatable_regions@[ri];
            &&& new_region.revoked_owed == region.revoked_owed
            &&& new_region.size == region.size
            &&& new_region.donated == region.donated
            &&& new_region.path == region.path
            &&& new_region.allocations@ == region.allocations@.update(
                pos,
                EphAllocation { size: size, ..region.allocations@[pos] },
            )
            &&& forall|j: int| 0 <= j < old.donatable_regions@.len() && j != ri
                ==> #[trigger] new.donatable_regions@[j] == old.donatable_regions@[j]
        },
    }
}

/// `new` is `old` after the allocation `alloc_id` at `qom_path` came back,
/// with `r` what the bookkeeping reported.
pub open spec fn returned_to_donor(old: DonorState, new: DonorState, qom_path: Seq<char>, alloc_id: u64, r: ReturnBookkeeping) -> bool {
    &&& new.donatable_regions@.len() == old.donatable_regions@.len()
    &&& match old.find_alloc_spec(qom_path, alloc_id) {
        None => r == ReturnBookkeeping::UnknownAllocation && new.donatable_regions@ == old.donatable_regions@,
        Some((ri, pos)) => {
            let region = old.donatable_regions@[ri];
            let size = region.allocations@[pos].size;
            let new_region = new.donatable_regions@[ri];
            &&& r == (if region.donated < size {
                    ReturnBookkeeping::ReturnedMoreThanDonated
                } else {
                    ReturnBookkeeping::Returned
                })
            &&& new_region.donated == (if region.donated < size { 0 } else { region.donated - size })
            &&& new_region.size == region.size
            &&& new_region.revoked_owed == region.revoked_owed
            &&& new_region.path == region.path
            &&& new_region.allocations@ == region.allocations@.remove(pos)
            &&& forall|j: int| 0 <= j < old.donatable_regions@.len() && j != ri
                ==> #[trigger] new.donatable_regions@[j] == old.donatable_regions@[j]
        },
    }
}

/// `new` is `old` after lending the reservation `a` out of its region `ri`:
/// the region counts it as donated and records it; nothing else changes.
pub open spec fn lent_from_region(old: DonorState, new: DonorState, ri: int, a: EphAllocation) -> bool {
    let o = old.donatable_regions@[ri];
    let n = new.donatable_regions@[ri];
    &&& 0 <= ri < old.donatable_regions@.len()
    &&& new.donatable_regions@.len() == old.donatable_regions@.len()
    &&& n.size == o.size
    &&& n.donated == o.donated + a.initial_size
    &&& n.path == o.path
    &&& n.revoked_owed == o.revoked_owed
    &&& n.allocations@ == o.allocations@.push(a)
    &&& forall|j: int| 0 <= j < old.donatable_regions@.len() && j != ri
        ==> #[trigger] new.donatable_regions@[j] == old.donatable_regions@[j]
}

/// The region and allocation that `find_alloc_spec` reports are the first
/// with that path and identifier.
pub proof fn lemma_find_alloc_spec_is(d: DonorState, path: Seq<char>, id: u64, ri: int, pos: int)
    requires
        first_region_with_path(d.donatable_regions@, path, ri),
        first_alloc_with_id(d.donatable_regions@[ri].allocations@, id, pos),
    ensures
        d.find_alloc_spec(path, id) == Some((ri, pos)),
{
    let (ri2, pos2) = choose|ri2: int, pos2: int| first_region_with_path(d.donatable_regions@, path, ri2)
        && #[trigger] first_alloc_with_id(d.donatable_regions@[ri2].allocations@, id, pos2);
    if ri2 < ri {
        assert(d.donatable_regions@[ri2].path@ != path);
    } else if ri < ri2 {
        assert(d.donatable_regions@[ri].path@ != path);
    }
    if pos2 < pos {
        assert(d.donatable_regions@[ri].allocations@[pos2].id != id);
    } else if pos < pos2 {
        assert(d.donatable_regions@[ri].allocations@[pos].id != id);
    }
}

/// Law: when a donor grants the whole of a reservation lent out of a region
/// that owes nothing, the allocation keeps all of it; and when it comes back,
/// the region's donated count and allocations are what they were before the
/// loan.
pub proof fn law_full_grant_then_return_restores(
    d: DonorState,
    d1: DonorState,
    d2: DonorState,
    d3: DonorState,
    d4: DonorState,
    path: Seq<char>,
    ri: int,
    a: EphAllocation,
    r: ReturnBookkeeping,
)
    requires
        d.wf(),
        first_region_with_path(d.donatable_regions@, path, ri),
        forall|j: int| 0 <= j < d.donatable_regions@[ri].allocations@.len()
            ==> #[trigger] d.donatable_regions@[ri].allocations@[j].id != a.id,
        0 < a.initial_size,
        a.initial_size % EPH_MEM_DONATION_GRANULARITY == 0,
        a.size == a.initial_size,
        d.donatable_regions@[ri].revoked_owed == 0,
        lent_from_region(d, d1, ri, a),
        handled_reserved(d1, d2, path, a.id, a.initial_size),
        committed_in_donor(d2, d3, path, a.id, a.initial_size),
        returned_to_donor(d3, d4, path, a.id, r),
    ensures
        reserved_split(d1, path, a.id, a.initial_size) == (a.initial_size, 0u64),
        r == ReturnBookkeeping::Returned,
        d4.donatable_regions@[ri].donated == d.donatable_regions@[ri].donated,
        d4.donatable_regions@[ri].allocations@ == d.donatable_regions@[ri].allocations@,
        d4.donatable_regions@[ri].revoked_owed == d.donatable_regions@[ri].revoked_owed,
{
    let n = d.donatable_regions@[ri].allocations@.len() as int;
    assert(first_region_with_path(d1.donatable_regions@, path, ri)) by {
        assert forall|j: int| 0 <= j < ri implies #[trigger] d1.donatable_regions@[j].path@ != path by {
            assert(d1.donatable_regions@[j] == d.donatable_regions@[j]);
        }
    }
    assert(first_alloc_with_id(d1.donatable_regions@[ri].allocations@, a.id, n));
    lemma_find_alloc_spec_is(d1, path, a.id, ri, n);
    assert(first_region_with_path(d2.donatable_regions@, path, ri)) by {
        assert forall|j: int| 0 <= j < ri implies #[trigger] d2.donatable_regions@[j].path@ != path by {
            assert(d2.donatable_regions@[j] == d1.donatable_regions@[j]);
        }
    }
    lemma_find_alloc_spec_is(d2, path, a.id, ri, n);
    assert(first_region_with_path(d3.donatable_regions@, path, ri)) by {
        assert forall|j: int| 0 <= j < ri implies #[trigger] d3.donatable_regions@[j].path@ != path by {
            assert(d3.donatable_regions@[j] == d2.donatable_regions@[j]);
        }
    }
    assert(d3.donatable_regions@[ri].allocations@ =~= d2.donatable_regions@[ri].allocations@);
    lemma_find_alloc_spec_is(d3, path, a.id, ri, n);
    assert(d4.donatable_regions@[ri].allocations@ =~= d.donatable_regions@[ri].allocations@);
}

/// Law: what a region takes back is what the allocation holds, not what
/// was reserved. Lend a reservation of `a.initial_size` bytes out of region
/// `ri` (which owes nothing and holds no other allocation with `a`'s
/// identifier, and is the first region with its path), let the donor grant
/// `g` bytes of it (whole granules, at most the reservation), commit the
/// allocation to `g` bytes and return it: the region ends counting
/// `a.initial_size - g` bytes more as donated than before (the bytes the
/// donor could not grant it has used itself), and holds the allocations it
/// held before.
pub proof fn law_partial_grant_then_return(
    d: DonorState,
    d1: DonorState,
    d2: DonorState,
    d3: DonorState,
    d4: DonorState,
    path: Seq<char>,
    ri: int,
    a: EphAllocation,
    g: u64,
    r: ReturnBookkeeping,
)
    requires
        first_region_with_path(d.donatable_regions@, path, ri),
        forall|j: int| 0 <= j < d.donatable_regions@[ri].allocations@.len()
            ==> #[trigger] d.donatable_regions@[ri].allocations@[j].id != a.id,
        0 < g <= a.initial_size,
        g % EPH_MEM_DONATION_GRANULARITY == 0,
        d.donatable_regions@[ri].revoked_owed == 0,
        lent_from_region(d, d1, ri, a),
        handled_reserved(d1, d2, path, a.id, g),
        committed_in_donor(d2, d3, path, a.id, g),
        returned_to_donor(d3, d4, path, a.id, r),
    ensures
        reserved_split(d1, path, a.id, g) == (g, 0u64),
        r == ReturnBookkeeping::Returned,
        d4.donatable_regions@[ri].donated == d.donatable_regions@[ri].donated + a.initial_size - g,
        d4.donatable_regions@[ri].allocations@ == d.donatable_regions@[ri].allocations@,
        d4.donatable_regions@[ri].revoked_owed == d.donatable_regions@[ri].revoked_owed,
{
    let n = d.donatable_regions@[ri].allocations@.len() as int;
    assert(first_region_with_path(d1.donatable_regions@, path, ri)) by {
        assert forall|j: int| 0 <= j < ri implies #[trigger] d1.donatable_regions@[j].path@ != path by {
            assert(d1.donatable_regions@[j] == d.donatable_regions@[j]);
        }
    }
    assert(first_alloc_with_id(d1.donatable_regions@[ri].allocations@, a.id, n));
    lemma_find_alloc_spec_is(d1, path, a.id, ri, n);
    assert(round_down_granule(g as int) == g);
    assert(first_region_with_path(d2.donatable_regions@, path, ri)) by {
        assert forall|j: int| 0 <= j < ri implies #[trigger] d2.donatable_regions@[j].path@ != path by {
            assert(d2.donatable_regions@[j] == d1.donatable_regions@[j]);
        }
    }
    lemma_find_alloc_spec_is(d2, path, a.id, ri, n);
    assert(first_region_with_path(d3.donatable_regions@, path, ri)) by {
        assert forall|j: int| 0 <= j < ri implies #[trigger] d3.donatable_regions@[j].path@ != path by {
            assert(d3.donatable_regions@[j] == d2.donatable_regions@[j]);
        }
    }
    assert(first_alloc_with_id(d3.donatable_regions@[ri].allocations@, a.id, n));
    lemma_find_alloc_spec_is(d3, path, a.id, ri, n);
    assert(d3.donatable_regions@[ri].allocations@[n].size == g);
    assert(d4.donatable_regions@[ri].allocations@ =~= d.donatable_regions@[ri].allocations@);
}

/// Law: a grant is split whole, and capacity moves in granules. What the
/// allocation keeps and what goes back to the donor add up to the grant,
/// capped at the reservation; what is kept is a whole number of granules;
/// what goes back is what the region paid off of its debt (never more than
/// it owed) and less than one granule besides.
pub proof fn law_grant_split(d: DonorState, qom_path: Seq<char>, alloc_id: u64, granted_size: u64)
    requires
        d.find_alloc_spec(qom_path, alloc_id) is Some,
    ensures
        ({
            let (ri, pos) = d.find_alloc_spec(qom_path, alloc_id)->0;
            let initial = d.donatable_regions@[ri].allocations@[pos].initial_size;
            let (kept, to_revoke) = reserved_split(d, qom_path, alloc_id, granted_size);
            let paid = owed_payment(d, qom_path, alloc_id, granted_size);
            &&& kept + to_revoke == (if granted_size < initial { granted_size } else { initial })
            &&& kept % EPH_MEM_DONATION_GRANULARITY == 0
            &&& paid <= to_revoke < paid + EPH_MEM_DONATION_GRANULARITY
            &&& paid <= d.donatable_regions@[ri].revoked_owed
        }),
{
}

/// State of a donor VM: its donatable regions.
pub struct DonorState {
    pub donatable_regions: Vec<DonatableRegion>,
}

impl DonorState {
    pub open spec fn wf(&self) -> bool {
        forall|i: int| 0 <= i < self.donatable_regions@.len() ==> #[trigger] self.donatable_regions@[i].wf()
    }

    /// The region and allocation indices that `find_alloc` reports.
    pub open spec fn find_alloc_spec(&self, qom_path: Seq<char>, alloc_id: u64) -> Option<(int, int)> {
        if exists|ri: int, pos: int| first_region_with_path(self.donatable_regions@, qom_path, ri)
            && #[trigger] first_alloc_with_id(self.donatable_regions@[ri].allocations@, alloc_id, pos) {
            let (ri, pos) = choose|ri: int, pos: int| first_region_with_path(self.donatable_regions@, qom_path, ri)
                && #[trigger] first_alloc_with_id(self.donatable_regions@[ri].allocations@, alloc_id, pos);
            Some((ri, pos))
        } else {
            None
        }
    }

    /// Finds the first region whose path is `qom_path` and, within it, the
    /// position of the first allocation with identifier `alloc_id`.
    pub fn find_alloc(&self, qom_path: &str, alloc_id: u64) -> (r: Option<(usize, usize)>)
        ensures
            r matches Some((ri, pos)) ==> first_region_with_path(self.donatable_regions@, qom_path@, ri as int)
                && first_alloc_with_id(self.donatable_regions@[ri as int].allocations@, alloc_id, pos as int),
            r is None ==> forall|ri: int| #[trigger] first_region_with_path(self.donatable_regions@, qom_path@, ri)
                ==> forall|pos: int| !#[trigger] first_alloc_with_id(
                    self.donatable_regions@[ri].allocations@, alloc_id, pos),
    {
        let n = self.donatable_regions.len();
        let mut ri: usize = 0;
        while ri < n
            invariant
                n == self.donatable_regions@.len(),
                0 <= ri <= n,
                forall|j: int| 0 <= j < ri ==> #[trigger] self.donatable_regions@[j].path@ != qom_path@,
            decreases n - ri,
        {
            if str_eq(self.donatable_regions[ri].path.as_str(), qom_path) {
                let allocs = &self.donatable_regions[ri].allocations;
                let m = allocs.len();
                let mut pos: usize = 0;
                while pos < m
                    invariant
                        m == allocs@.len(),
                        0 <= pos <= m,
                        n == self.donatable_regions@.len(),
                        ri < n,
                        allocs@ == self.donatable_regions@[ri as int].allocations@,
                        self.donatable_regions@[ri as int].path@ == qom_path@,
                        forall|j: int| 0 <= j < ri ==> #[trigger] self.donatable_regions@[j].path@ != qom_path@,
                        forall|j: int| 0 <= j < pos ==> #[trigger] allocs@[j].id != alloc_id,
                    decreases m - pos,
                {
                    if allocs[pos].id == alloc_id {
                        return Some((ri, pos));
                    }
                    pos = pos + 1;
                }
                proof {
                    assert forall|ri2: int| #[trigger] first_region_with_path(self.donatable_regions@, qom_path@, ri2)
                        implies forall|p: int| !#[trigger] first_alloc_with_id(
                            self.donatable_regions@[ri2].allocations@, alloc_id, p) by {
                        assert(ri2 == ri);
                    }
                }
                return None;
            }
            ri = ri + 1;
        }
        None
    }

    /// Confirms a reservation after the donor at `qom_path` granted
    /// `granted_size` bytes of it. The grant counts for at most what was
    /// reserved; memory the region owes from an earlier revocation is taken
    /// out of it first, and of the rest only whole granules are kept.
    /// Returns the bytes the allocation keeps and the bytes to give straight
    /// back to the donor (the debt paid and any part of a granule); an
    /// allocation that keeps nothing
    /// is dropped. The region's donated count stays as it was: what a donor
    /// could not grant it has used itself.
    pub fn handle_reserved_alloc(&mut self, qom_path: &str, alloc_id: u64, granted_size: u64) -> (r: (u64, u64))
        requires
            old(self).wf(),
        ensures
            final(self).wf(),
            final(self).donatable_regions@.len() == old(self).donatable_regions@.len(),
            r == reserved_split(*old(self), qom_path@, alloc_id, granted_size),
            r.0 % EPH_MEM_DONATION_GRANULARITY == 0,
            handled_reserved(*old(self), *final(self), qom_path@, alloc_id, granted_size),
    {
        let Some((ri, pos)) = self.find_alloc(qom_path, alloc_id) else {
            return (0, 0);
        };
        let initial_size = self.donatable_regions[ri].allocations[pos].initial_size;
        let granted_size = if granted_size < initial_size { granted_size } else { initial_size };
        let owed = self.donatable_regions[ri].revoked_owed;
        let paid = if owed < granted_size { owed } else { granted_size };
        self.donatable_regions[ri].revoked_owed = owed - paid;
        let final_size = align_down(granted_size - paid);
        let to_revoke = granted_size - final_size;
        if final_size == 0 {
            self.donatable_regions[ri].allocations.remove(pos);
        }
        proof {
            assert(old(self).donatable_regions@[ri as int].wf());
            assert forall|i: int| 0 <= i < self.donatable_regions@.len()
                implies #[trigger] self.donatable_regions@[i].wf() by {
                assert(old(self).donatable_regions@[i].wf());
            }
        }
        (final_size, to_revoke)
    }

    /// Bookkeeping after a consumer returned the allocation `alloc_id` to the
    /// region at `donor_qom_path`: its bytes no longer count as donated (if
    /// the region had less donated, the count drops to zero) and the region
    /// forgets the allocation.
    pub fn bookkeep_returned_eph_memory(&mut self, donor_qom_path: &str, alloc_id: u64) -> (r: ReturnBookkeeping)
        requires
            old(self).wf(),
        ensures
            final(self).wf(),
            returned_to_donor(*old(self), *final(self), donor_qom_path@, alloc_id, r),
    {
        let Some((ri, i)) = self.find_alloc(donor_qom_path, alloc_id) else {
            return ReturnBookkeeping::UnknownAllocation;
        };
        let size = self.donatable_regions[ri].allocations[i].size();
        let donated = self.donatable_regions[ri].donated;
        let r = if donated < size {
            self.donatable_regions[ri].donated = 0;
            ReturnBookkeeping::ReturnedMoreThanDonated
        } else {
            self.donatable_regions[ri].donated = donated - size;
            ReturnBookkeeping::Returned
        };
        self.donatable_regions[ri].allocations.remove(i);
        proof {
            assert forall|j: int| 0 <= j < self.donatable_regions@.len()
                implies #[trigger] self.donatable_regions@[j].wf() by {
                assert(old(self).donatable_regions@[j].wf());
            }
        }
        r
    }

    /// Records that the allocation `alloc_id` at `qom_path` holds `size`
    /// bytes now that its grant is confirmed.
    pub fn commit_allocation(&mut self, qom_path: &str, alloc_id: u64, size: u64)
        requires
            old(self).wf(),
        ensures
            final(self).wf(),
            committed_in_donor(*old(self), *final(self), qom_path@, alloc_id, size),
    {
        let Some((ri, pos)) = self.find_alloc(qom_path, alloc_id) else {
            return;
        };
        self.donatable_regions[ri].allocations[pos].size = size;
        proof {
            assert forall|j: int| 0 <= j < self.donatable_regions@.len()
                implies #[trigger] self.donatable_regions@[j].wf() by {
                assert(old(self).donatable_regions@[j].wf());
            }
        }
    }
}

} // verus!
