use vstd::prelude::*;

verus! {

/// Capacity moves between VMs in multiples of this many bytes (256 MiB).
pub const EPH_MEM_DONATION_GRANULARITY: u64 = 268435456;

/// `x` rounded down to a multiple of the donation granularity.
pub open spec fn round_down_granule(x: int) -> int {
    x - x % (EPH_MEM_DONATION_GRANULARITY as int)
}

/// Rounds `x` down to a multiple of the donation granularity.
pub fn align_down(x: u64) -> (r: u64)
    ensures
        r == round_down_granule(x as int),
        r <= x,
        r % EPH_MEM_DONATION_GRANULARITY == 0,
        x - r < EPH_MEM_DONATION_GRANULARITY,
{
    x - x % EPH_MEM_DONATION_GRANULARITY
}

/// `size` rounded up to the next multiple of the donation granularity.
pub open spec fn round_up_granule(size: int) -> int {
    if size % (EPH_MEM_DONATION_GRANULARITY as int) == 0 {
        size
    } else {
        size + (EPH_MEM_DONATION_GRANULARITY as int) - size % (EPH_MEM_DONATION_GRANULARITY as int)
    }
}

/// Rounds a requested size up to the donation granularity; `None` when the
/// result does not fit in a `u64`.
pub fn align_to_granularity(size: u64) -> (r: Option<u64>)
    ensures
        r is Some <==> round_up_granule(size as int) <= u64::MAX,
        r matches Some(v) ==> v == round_up_granule(size as int),
        r matches Some(v) ==> v % EPH_MEM_DONATION_GRANULARITY == 0 && size <= v
            && v - size < EPH_MEM_DONATION_GRANULARITY,
{
    let rem = size % EPH_MEM_DONATION_GRANULARITY;
    if rem == 0 {
        Some(size)
    } else {
        size.checked_add(EPH_MEM_DONATION_GRANULARITY - rem)
    }
}

/// One grant of ephemeral memory: a range of a consumer's dynamic-capacity
/// device, backed by memory that a donor lends.
///
/// `initial_size` is what the consumer reserved; `size` is what the range
/// holds now (after a donor granted less, it shrinks).
#[derive(Clone, Copy, PartialEq, Eq, Debug)]
pub struct EphAllocation {
    pub id: u64,
    pub consumer_offset: u64,
    pub initial_size: u64,
    pub size: u64,
}

impl EphAllocation {
    /// A fresh reservation of `size` bytes at `consumer_offset`.
    pub fn new(id: u64, consumer_offset: u64, size: u64) -> (r: Self)
        ensures
            r.id == id,
            r.consumer_offset == consumer_offset,
            r.initial_size == size,
            r.size == size,
    {
        EphAllocation { id, consumer_offset, initial_size: size, size }
    }

    /// The bytes the allocation holds now.
    pub fn size(&self) -> (r: u64)
        ensures
            r == self.size,
    {
        self.size
    }

    /// One past the last byte of the range in the consumer's device.
    pub open spec fn end(self) -> int {
        self.consumer_offset + self.size
    }

    /// Records that a donor granted `granted_size` bytes of the reservation.
    pub fn commit_allocation(&mut self, granted_size: u64)
        ensures
            *final(self) == (EphAllocation { size: granted_size, ..*old(self) }),
    {
        self.size = granted_size;
    }
}

} // verus!
