use vstd::prelude::*;

use crate::donor::{DonatableRegion, DonorState};

verus! {

/// Memory policy of a host memory backend.
#[derive(Clone, Copy, PartialEq, Eq, Debug)]
pub enum HostMemPolicy {
    Default,
    Preferred,
    Bind,
    Interleave,
}

/// A memory backend as QEMU reports it in `query-memdev`.
pub struct Memdev {
    pub id: Option<String>,
    pub size: u64,
    pub merge: bool,
    pub dump: bool,
    pub prealloc: bool,
    pub donatable: Option<bool>,
    pub use_userfaultfd: Option<bool>,
    pub share: bool,
    pub reserve: Option<bool>,
    pub host_nodes: Vec<u16>,
    pub policy: HostMemPolicy,
}

/// Why a memory backend gives no donatable region.
#[derive(Clone, Copy, PartialEq, Eq, Debug)]
pub enum MemdevError {
    NotDonatable,
}

/// The QOM path of the memory backend object `id`.
pub open spec fn object_path(id: Seq<char>) -> Seq<char> {
    "/objects/"@ + id
}

impl Memdev {
    /// A backend can be lent from when it has an id and is marked donatable.
    pub open spec fn spec_is_donatable(&self) -> bool {
        self.id is Some && self.donatable == Some(true)
    }

    pub fn is_donatable(&self) -> (r: bool)
        ensures
            r == self.spec_is_donatable(),
    {
        let has_id = self.id.is_some();
        let donatable = match self.donatable {
            Some(d) => d,
            None => false,
        };
        has_id && donatable
    }

    /// The donatable region this backend offers: its whole size, nothing
    /// donated yet, at `/objects/<id>`.
    pub fn try_into_region(self) -> (r: Result<DonatableRegion, MemdevError>)
        ensures
            !self.spec_is_donatable() ==> r == Err::<DonatableRegion, MemdevError>(MemdevError::NotDonatable),
            self.spec_is_donatable() ==> (r matches Ok(region) && region.wf()
                && region.size == self.size && region.donated == 0 && region.revoked_owed == 0
                && region.allocations@.len() == 0
                && region.path@ == object_path(self.id->0@)),
    {
        if !self.is_donatable() {
            return Err(MemdevError::NotDonatable);
        }
        let size = self.size;
        match self.id {
            Some(id) => {
                let path = String::from_str("/objects/").concat(id.as_str());
                proof {
                    reveal_strlit("/objects/");
                }
                Ok(DonatableRegion::new(size, path))
            },
            None => Err(MemdevError::NotDonatable),
        }
    }
}

/// The donatable backends of `ms`, in order.
pub open spec fn donatable_memdevs(ms: Seq<Memdev>) -> Seq<Memdev>
    decreases ms.len(),
{
    if ms.len() == 0 {
        Seq::empty()
    } else {
        let rest = donatable_memdevs(ms.drop_last());
        if ms.last().spec_is_donatable() {
            rest.push(ms.last())
        } else {
            rest
        }
    }
}

/// `r` is the fresh region that the donatable backend `m` offers.
pub open spec fn is_region_of(m: Memdev, r: DonatableRegion) -> bool {
    &&& r.wf()
    &&& r.size == m.size
    &&& r.donated == 0
    &&& r.revoked_owed == 0
    &&& r.allocations@.len() == 0
    &&& r.path@ == object_path(m.id->0@)
}

/// `d` is the donor state of a VM with memory backends `ms`: one fresh
/// region for each donatable backend, in order, and none when no backend is
/// donatable.
pub open spec fn is_donor_of(ms: Seq<Memdev>, d: Option<DonorState>) -> bool {
    &&& d is None <==> donatable_memdevs(ms).len() == 0
    &&& d matches Some(d) ==> d.wf()
        && d.donatable_regions@.len() == donatable_memdevs(ms).len()
        && forall|i: int| 0 <= i < d.donatable_regions@.len()
            ==> #[trigger] is_region_of(donatable_memdevs(ms)[i], d.donatable_regions@[i])
}

impl DonorState {
    /// The donor state of a VM with memory backends `memdevs`: one region for
    /// each donatable backend, in order; `None` when no backend is donatable.
    pub fn new(memdevs: Vec<Memdev>) -> (r: Option<DonorState>)
        ensures
            is_donor_of(memdevs@, r),
    {
        let ghost ms = memdevs@;
        let mut memdevs = memdevs;
        let mut regions: Vec<DonatableRegion> = Vec::new();
        let n = memdevs.len();
        let mut i: usize = 0;
        while i < n
            invariant
                n == ms.len(),
                0 <= i <= n,
                memdevs@ == ms.subrange(i as int, n as int),
                regions@.len() == donatable_memdevs(ms.take(i as int)).len(),
                forall|j: int| 0 <= j < regions@.len()
                    ==> #[trigger] is_region_of(donatable_memdevs(ms.take(i as int))[j], regions@[j]),
            decreases n - i,
        {
            let m = memdevs.remove(0);
            proof {
                assert(ms.take(i + 1).drop_last() =~= ms.take(i as int));
                assert(ms.take(i + 1).last() == m);
                assert(memdevs@ =~= ms.subrange(i + 1, n as int));
            }
            match m.try_into_region() {
                Ok(region) => {
                    regions.push(region);
                },
                Err(_) => {},
            }
            i = i + 1;
        }
        proof {
            assert(ms.take(n as int) =~= ms);
            assert forall|j: int| 0 <= j < regions@.len() implies #[trigger] regions@[j].wf() by {
                assert(is_region_of(donatable_memdevs(ms)[j], regions@[j]));
            }
        }
        if regions.len() == 0 {
            None
        } else {
            Some(DonorState { donatable_regions: regions })
        }
    }
}

/// One entry of a `qom-list` reply: a child object and its type.
pub struct QomListResponse {
    pub name: String,
    pub type_: String,
}

/// One extent of dynamic capacity in a consumer's device.
#[derive(Clone, Copy, PartialEq, Eq, Debug)]
pub struct CxlDynamicCapacityExtent {
    pub offset: u64,
    pub len: u64,
}

/// Data of a QMP event that adds or releases dynamic capacity.
pub struct CxlAddReleaseCapacityEventData {
    /// QOM path of the device the event is about.
    pub path: String,
    /// Extents added to or released from the device.
    pub extents: Vec<CxlDynamicCapacityExtent>,
}

/// Data of a QMP event in which a donor asks for memory back.
pub struct EphMemRevokeEventData {
    /// QOM path of the device the event is about.
    pub path: String,
    /// How much memory the donor asks for.
    pub size: u64,
    /// Ties the event to memory returned for it.
    pub id: i32,
}

} // verus!
