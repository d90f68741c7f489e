use vstd::prelude::*;

use crate::allocation::{align_down, round_down_granule, EphAllocation, EPH_MEM_DONATION_GRANULARITY};
use crate::qmp_types::QomListResponse;
use crate::path::{file_stem_of, is_last_dot, path_components, stem_of, views};
use crate::text::{contains_seq, parse_decimal_chars, decimal_digits, decimal_string, ends_with_newline, parse_u32, parse_u32_spec, str_contains, str_eq};

verus! {

/// Where the gap before the area at index `i` starts (the gap after the
/// last area when `i == areas.len()`).
pub open spec fn gap_start(areas: Seq<EphAllocation>, i: int) -> int {
    if i == 0 {
        0
    } else {
        areas[i - 1].end()
    }
}

/// The length of the gap before the area at index `i`; for
/// `i == areas.len()`, the free space up to the end of the device.
pub open spec fn gap_len(areas: Seq<EphAllocation>, device_size: int, i: int) -> int {
    if i < areas.len() {
        areas[i].consumer_offset - gap_start(areas, i)
    } else {
        device_size - gap_start(areas, i)
    }
}

/// Gap `c` is the one a reservation of `want` bytes takes: the first gap that
/// holds `want` bytes, or, when none does, the first of the largest gaps.
pub open spec fn is_chosen_gap(areas: Seq<EphAllocation>, device_size: int, want: int, c: int) -> bool {
    &&& 0 <= c <= areas.len()
    &&& {
        ||| (gap_len(areas, device_size, c) >= want
            && forall|j: int| 0 <= j < c ==> #[trigger] gap_len(areas, device_size, j) < want)
        ||| ((forall|j: int| 0 <= j <= areas.len() ==> #[trigger] gap_len(areas, device_size, j) < want)
            && (forall|j: int| 0 <= j <= areas.len()
                ==> #[trigger] gap_len(areas, device_size, j) <= gap_len(areas, device_size, c))
            && (forall|j: int| 0 <= j < c
                ==> #[trigger] gap_len(areas, device_size, j) < gap_len(areas, device_size, c)))
    }
}

/// The areas lie in increasing order of offset, hold at least one byte each,
/// do not overlap and end inside a device of `device_size` bytes.
pub open spec fn areas_wf(areas: Seq<EphAllocation>, device_size: int) -> bool {
    &&& forall|i: int| 0 <= i < areas.len() ==> #[trigger] areas[i].size > 0
    &&& forall|i: int| 0 <= i < areas.len() ==> #[trigger] areas[i].end() <= device_size
    &&& forall|i: int, j: int|
        0 <= i < j < areas.len() ==> #[trigger] areas[i].end() <= #[trigger] areas[j].consumer_offset
}

/// A range placed at the start of a gap, no longer than the gap, keeps the
/// areas well formed when inserted at the gap's index.
pub proof fn lemma_insert_in_gap(areas: Seq<EphAllocation>, device_size: int, c: int, a: EphAllocation)
    requires
        areas_wf(areas, device_size),
        0 <= c <= areas.len(),
        a.consumer_offset == gap_start(areas, c),
        0 < a.size,
        a.size <= gap_len(areas, device_size, c),
    ensures
        areas_wf(areas.insert(c, a), device_size),
{
    let s = areas.insert(c, a);
    assert forall|i: int, j: int| 0 <= i < j < s.len() implies #[trigger] s[i].end() <= #[trigger] s[j].consumer_offset by {
        if j < c {
        } else if j == c {
            if i < c - 1 {
                assert(areas[i].end() <= areas[c - 1].consumer_offset);
            }
        } else if i == c {
            if j > c + 1 {
                assert(areas[c].end() <= areas[j - 1].consumer_offset);
            }
        } else if i < c {
            assert(areas[i].end() <= areas[c].consumer_offset);
            if c > 0 && i < c - 1 {
                assert(areas[i].end() <= areas[c - 1].consumer_offset);
            }
        } else {
            assert(areas[i - 1].end() <= areas[j - 1].consumer_offset);
        }
    }
    assert forall|i: int| 0 <= i < s.len() implies #[trigger] s[i].end() <= device_size by {
        if i == c && c < areas.len() {
            assert(areas[c].end() <= device_size);
        }
        if i == c && c > 0 {
            assert(areas[c - 1].end() <= device_size);
        }
    }
}

/// Removing an area keeps the others well formed.
pub proof fn lemma_remove_keeps_wf(areas: Seq<EphAllocation>, device_size: int, i: int)
    requires
        areas_wf(areas, device_size),
        0 <= i < areas.len(),
    ensures
        areas_wf(areas.remove(i), device_size),
{
    let s = areas.remove(i);
    assert forall|a: int, b: int| 0 <= a < b < s.len() implies #[trigger] s[a].end() <= #[trigger] s[b].consumer_offset by {
        let a0 = if a < i { a } else { a + 1 };
        let b0 = if b < i { b } else { b + 1 };
        assert(areas[a0].end() <= areas[b0].consumer_offset);
    }
    assert forall|a: int| 0 <= a < s.len() implies #[trigger] s[a].end() <= device_size && s[a].size > 0 by {
        let a0 = if a < i { a } else { a + 1 };
        assert(areas[a0].end() <= device_size);
        assert(areas[a0].size > 0);
    }
}

/// At most one gap is the chosen one.
pub proof fn lemma_chosen_gap_unique(areas: Seq<EphAllocation>, device_size: int, want: int, c1: int, c2: int)
    requires
        is_chosen_gap(areas, device_size, want, c1),
        is_chosen_gap(areas, device_size, want, c2),
    ensures
        c1 == c2,
{
    if c1 < c2 {
        assert(gap_len(areas, device_size, c1) < gap_len(areas, device_size, c2) || gap_len(areas, device_size, c1) < want);
    } else if c2 < c1 {
        assert(gap_len(areas, device_size, c2) < gap_len(areas, device_size, c1) || gap_len(areas, device_size, c2) < want);
    }
}

/// Law: releasing a reservation at the offset it was given undoes it. After
/// a range is inserted at a gap of well-formed areas, exactly one area starts
/// at its offset, and removing that area gives back the areas as they were.
pub proof fn law_release_undoes_reserve(areas: Seq<EphAllocation>, device_size: int, c: int, a: EphAllocation)
    requires
        areas_wf(areas, device_size),
        0 <= c <= areas.len(),
        a.consumer_offset == gap_start(areas, c),
        0 < a.size,
        a.size <= gap_len(areas, device_size, c),
    ensures
        areas.insert(c, a)[c].consumer_offset == a.consumer_offset,
        forall|i: int| 0 <= i < areas.len() + 1
            && #[trigger] areas.insert(c, a)[i].consumer_offset == a.consumer_offset ==> i == c,
        areas.insert(c, a).remove(c) == areas,
{
    lemma_insert_in_gap(areas, device_size, c, a);
    let s = areas.insert(c, a);
    assert forall|i: int| 0 <= i < areas.len() + 1
        && #[trigger] s[i].consumer_offset == a.consumer_offset implies i == c by {
        if i < c {
            assert(s[i].end() <= s[c].consumer_offset);
        } else if i > c {
            assert(s[c].end() <= s[i].consumer_offset);
        }
    }
    assert(s.remove(c) =~= areas);
}

/// In well-formed areas no two areas start at the same offset.
pub proof fn lemma_offsets_unique(areas: Seq<EphAllocation>, device_size: int)
    requires
        areas_wf(areas, device_size),
    ensures
        forall|i: int, j: int| 0 <= i < areas.len() && 0 <= j < areas.len()
            && #[trigger] areas[i].consumer_offset == #[trigger] areas[j].consumer_offset ==> i == j,
{
    assert forall|i: int, j: int| 0 <= i < areas.len() && 0 <= j < areas.len()
        && #[trigger] areas[i].consumer_offset == #[trigger] areas[j].consumer_offset implies i == j by {
        if i < j {
            assert(areas[i].end() <= areas[j].consumer_offset);
            assert(areas[i].size > 0);
        } else if j < i {
            assert(areas[j].end() <= areas[i].consumer_offset);
            assert(areas[j].size > 0);
        }
    }
}

/// `new` and `r` are what reserving `size` bytes under `id` in `old` gives
/// (see `ConsumerState::reserve_memory`).
pub open spec fn reserved(old: ConsumerState, new: ConsumerState, size: u64, id: u64, r: Option<EphAllocation>) -> bool {
    &&& new.wf()
    &&& new.vsock_cid == old.vsock_cid
    &&& new.qom_path == old.qom_path
    &&& new.size == old.size
    &&& old.wanted(size) == 0 ==> r is None
    &&& old.wanted(size) > 0 ==> exists|c: int|
        #[trigger] is_chosen_gap(old.allocated_areas@, old.size as int, old.wanted(size), c)
        && if round_down_granule(gap_len(old.allocated_areas@, old.size as int, c)) == 0 {
            r is None
        } else {
            &&& r == Some(old.reservation_in_gap(old.wanted(size), c, id))
            &&& new.allocated_areas@ == old.allocated_areas@.insert(c, old.reservation_in_gap(old.wanted(size), c, id))
        }
    &&& r is None ==> new == old
}

/// Law: capacity moves in whole granules. A reservation holds at least one
/// granule, a whole number of them, and no more than was asked.
pub proof fn law_reservation_in_granules(
    old: ConsumerState,
    new: ConsumerState,
    size: u64,
    id: u64,
    r: Option<EphAllocation>,
)
    requires
        old.wf(),
        reserved(old, new, size, id, r),
    ensures
        r matches Some(a) ==> {
            &&& a.id == id
            &&& a.size > 0
            &&& a.size % EPH_MEM_DONATION_GRANULARITY == 0
            &&& a.size <= size
            &&& a.initial_size == a.size
        },
{
    if r is Some {
        let want = old.wanted(size);
        let c = choose|c: int| #[trigger] is_chosen_gap(old.allocated_areas@, old.size as int, want, c)
            && if round_down_granule(gap_len(old.allocated_areas@, old.size as int, c)) == 0 {
                r is None
            } else {
                &&& r == Some(old.reservation_in_gap(want, c, id))
                &&& new.allocated_areas@ == old.allocated_areas@.insert(c, old.reservation_in_gap(want, c, id))
            };
        let g = round_down_granule(gap_len(old.allocated_areas@, old.size as int, c));
        assert(g % (EPH_MEM_DONATION_GRANULARITY as int) == 0);
        assert(want % (EPH_MEM_DONATION_GRANULARITY as int) == 0);
    }
}

/// `new` is `old` after it was asked to release its area at `offset`; `r`
/// tells whether it had one.
pub open spec fn area_released(old: ConsumerState, new: ConsumerState, offset: u64, r: bool) -> bool {
    &&& new.vsock_cid == old.vsock_cid
    &&& new.qom_path == old.qom_path
    &&& new.size == old.size
    &&& r == exists|i: int| 0 <= i < old.allocated_areas@.len()
        && #[trigger] old.allocated_areas@[i].consumer_offset == offset
    &&& r ==> exists|i: int| 0 <= i < old.allocated_areas@.len()
        && #[trigger] old.allocated_areas@[i].consumer_offset == offset
        && new.allocated_areas@ == old.allocated_areas@.remove(i)
    &&& !r ==> new == old
}

/// Law: a request that is undone gives the consumer back its areas. After a
/// reservation, the commit of its area to what a donor granted (or no
/// commit) and the release of the area at its offset (leaving `areas3`),
/// the consumer holds the areas it held before the reservation; the release
/// finds the area.
pub proof fn law_undone_request_restores_areas(
    c0: ConsumerState,
    c1: ConsumerState,
    c2: ConsumerState,
    areas3: Seq<EphAllocation>,
    size: u64,
    id: u64,
    a: EphAllocation,
    kept: u64,
    released: bool,
)
    requires
        c0.wf(),
        reserved(c0, c1, size, id, Some(a)),
        consumer_committed(c1, c2, a.consumer_offset, kept),
        released == exists|i: int| 0 <= i < c2.allocated_areas@.len()
            && #[trigger] c2.allocated_areas@[i].consumer_offset == a.consumer_offset,
        released ==> exists|i: int| 0 <= i < c2.allocated_areas@.len()
            && #[trigger] c2.allocated_areas@[i].consumer_offset == a.consumer_offset
            && areas3 == c2.allocated_areas@.remove(i),
    ensures
        released,
        areas3 == c0.allocated_areas@,
{
    law_reservation_in_granules(c0, c1, size, id, Some(a));
    let want = c0.wanted(size);
    let areas = c0.allocated_areas@;
    let c = choose|c: int| #[trigger] is_chosen_gap(areas, c0.size as int, want, c)
        && if round_down_granule(gap_len(areas, c0.size as int, c)) == 0 {
            Some(a) is None
        } else {
            &&& Some(a) == Some(c0.reservation_in_gap(want, c, id))
            &&& c1.allocated_areas@ == areas.insert(c, c0.reservation_in_gap(want, c, id))
        };
    assert(a == c0.reservation_in_gap(want, c, id));
    let g = gap_len(areas, c0.size as int, c);
    assert(gap_start(areas, c) >= 0 && gap_start(areas, c) <= c0.size) by {
        if c > 0 {
            assert(areas[c - 1].end() <= c0.size as int);
        }
    }
    assert(round_down_granule(g) <= g) by {
        assert(g >= 0) by {
            if c < areas.len() {
                if c > 0 {
                    assert(areas[c - 1].end() <= areas[c].consumer_offset);
                }
            } else if c > 0 {
                assert(areas[c - 1].end() <= c0.size as int);
            }
        }
    }
    law_release_undoes_reserve(areas, c0.size as int, c, a);
    let s1 = c1.allocated_areas@;
    let s2 = c2.allocated_areas@;
    // The area keeps its index and offset through the commit.
    assert(s2.len() == s1.len() && s2[c].consumer_offset == a.consumer_offset
        && forall|i: int| 0 <= i < s2.len() ==> #[trigger] s2[i].consumer_offset == s1[i].consumer_offset) by {
        if commit_applies(c1, a.consumer_offset, kept) {
            let i = choose|i: int| 0 <= i < s1.len() && #[trigger] s1[i].consumer_offset == a.consumer_offset
                && s2 == s1.update(i, EphAllocation { size: kept, ..s1[i] });
            assert(i == c);
        }
    }
    assert(s2[c].consumer_offset == a.consumer_offset);
    assert(released);
    let i = choose|i: int| 0 <= i < s2.len() && #[trigger] s2[i].consumer_offset == a.consumer_offset
        && areas3 == s2.remove(i);
    assert(s1[i].consumer_offset == a.consumer_offset);
    assert(i == c);
    assert(s2.remove(c) =~= s1.remove(c));
}

/// Whether shrinking the area at `offset` to `size` bytes applies: an area
/// starts there and holds at least `size > 0` bytes.
pub open spec fn commit_applies(c: ConsumerState, offset: u64, size: u64) -> bool {
    exists|i: int| 0 <= i < c.allocated_areas@.len()
        && #[trigger] c.allocated_areas@[i].consumer_offset == offset
        && 0 < size <= c.allocated_areas@[i].size
}

/// `new` is `old` with the area at `offset` shrunk to `size` bytes, when
/// that applies, and otherwise `old` unchanged.
pub open spec fn consumer_committed(old: ConsumerState, new: ConsumerState, offset: u64, size: u64) -> bool {
    &&& new.vsock_cid == old.vsock_cid
    &&& new.qom_path == old.qom_path
    &&& new.size == old.size
    &&& commit_applies(old, offset, size) ==> exists|i: int| 0 <= i < old.allocated_areas@.len()
        && #[trigger] old.allocated_areas@[i].consumer_offset == offset
        && new.allocated_areas@ == old.allocated_areas@.update(
            i,
            EphAllocation { size: size, ..old.allocated_areas@[i] },
        )
    &&& !commit_applies(old, offset, size) ==> new.allocated_areas@ == old.allocated_areas@
}

/// State of a consumer VM: its dynamic-capacity device and the areas of it
/// that are reserved or backed by donated memory.
pub struct ConsumerState {
    /// The vsock CID of the consumer VM.
    pub vsock_cid: u32,
    /// QOM path of the dynamic-capacity device.
    pub qom_path: String,
    /// The most ephemeral memory the consumer can hold.
    pub size: u64,
    /// Reserved or allocated areas, ordered by offset.
    pub allocated_areas: Vec<EphAllocation>,
}

impl ConsumerState {
    pub open spec fn wf(&self) -> bool {
        areas_wf(self.allocated_areas@, self.size as int)
    }

    /// A consumer with a device of `size` bytes and nothing reserved.
    pub fn new(vsock_cid: u32, qom_path: String, size: u64) -> (r: Self)
        ensures
            r.wf(),
            r.vsock_cid == vsock_cid,
            r.qom_path@ == qom_path@,
            r.size == size,
            r.allocated_areas@ == Seq::<EphAllocation>::empty(),
    {
        ConsumerState { vsock_cid, qom_path, size, allocated_areas: Vec::new() }
    }

    pub fn get_qom_path(&self) -> (r: &str)
        ensures
            r@ == self.qom_path@,
    {
        self.qom_path.as_str()
    }

    /// The amount a request for `size` bytes may take at most: the request
    /// capped at the device size, rounded down to the granularity.
    pub open spec fn wanted(&self, size: u64) -> int {
        round_down_granule(if size > self.size { self.size as int } else { size as int })
    }

    /// The reservation that taking gap `c` for `want` bytes makes, with `id`.
    pub open spec fn reservation_in_gap(&self, want: int, c: int, id: u64) -> EphAllocation {
        let gap = round_down_granule(gap_len(self.allocated_areas@, self.size as int, c));
        EphAllocation {
            id: id,
            consumer_offset: gap_start(self.allocated_areas@, c) as u64,
            initial_size: (if gap < want { gap } else { want }) as u64,
            size: (if gap < want { gap } else { want }) as u64,
        }
    }

    /// Reserves a range of the consumer's device before any donor is asked,
    /// so that the consumer is known to hold the request. The request is
    /// capped at the device size and rounded down to the granularity; the
    /// range is the first gap that holds all of it, or else the first of the
    /// largest gaps, rounded down to the granularity (which may then be less
    /// than asked). Returns `None` when that leaves nothing.
    pub fn reserve_memory(&mut self, size: u64, id: u64) -> (r: Option<EphAllocation>)
        requires
            old(self).wf(),
        ensures
            final(self).wf(),
            reserved(*old(self), *final(self), size, id, r),
    {
        let ghost areas = self.allocated_areas@;
        let ghost dev = self.size as int;
        let mut largest_gap: u64 = 0;
        let mut largest_gap_offset: u64 = 0;
        let mut last_region_end: u64 = 0;
        let mut broke_early = false;
        let capped = if size > self.size { self.size } else { size };
        let size = align_down(capped);
        let ghost want = size as int;
        if size == 0 {
            return None;
        }
        let n = self.allocated_areas.len();
        if n == 0 {
            let new_alloc = EphAllocation::new(id, 0, size);
            proof {
                assert(is_chosen_gap(areas, dev, want, 0));
            }
            self.allocated_areas.insert(0, new_alloc);
            return Some(new_alloc);
        }
        let mut k: usize = 0;
        let mut i: usize = 0;
        while i < n
            invariant_except_break
                !broke_early,
                i == 0 ==> largest_gap == 0 && largest_gap_offset == 0,
                i > 0 ==> {
                    &&& 0 <= k < i
                    &&& largest_gap == gap_len(areas, dev, k as int)
                    &&& largest_gap_offset == gap_start(areas, k as int)
                    &&& forall|j: int| 0 <= j < i ==> #[trigger] gap_len(areas, dev, j) <= largest_gap
                    &&& forall|j: int| 0 <= j < k as int ==> #[trigger] gap_len(areas, dev, j) < largest_gap
                },
                forall|j: int| 0 <= j < i ==> #[trigger] gap_len(areas, dev, j) < want,
                last_region_end == gap_start(areas, i as int),
                0 <= i <= n,
            invariant
                n == areas.len(),
                n > 0,
                self.allocated_areas@ == areas,
                self.size as int == dev,
                areas_wf(areas, dev),
                want == size,
                0 < want,
            ensures
                !broke_early ==> {
                    &&& i == n
                    &&& last_region_end == gap_start(areas, n as int)
                    &&& 0 <= k < n
                    &&& largest_gap == gap_len(areas, dev, k as int)
                    &&& largest_gap_offset == gap_start(areas, k as int)
                    &&& forall|j: int| 0 <= j < n ==> #[trigger] gap_len(areas, dev, j) <= largest_gap
                    &&& forall|j: int| 0 <= j < k as int ==> #[trigger] gap_len(areas, dev, j) < largest_gap
                    &&& forall|j: int| 0 <= j < n ==> #[trigger] gap_len(areas, dev, j) < want
                },
                last_region_end <= dev,
                broke_early ==> {
                    &&& 0 <= k < n
                    &&& largest_gap == gap_len(areas, dev, k as int)
                    &&& largest_gap_offset == gap_start(areas, k as int)
                    &&& gap_len(areas, dev, k as int) >= want
                    &&& forall|j: int| 0 <= j < k as int ==> #[trigger] gap_len(areas, dev, j) < want
                },
            decreases n - i,
        {
            let region_offset = self.allocated_areas[i].consumer_offset;
            let region_size = self.allocated_areas[i].size;
            proof {
                if i > 0 {
                    assert(areas[i - 1].end() <= areas[i as int].consumer_offset);
                }
                assert(areas[i as int].end() <= dev);
            }
            if i == 0 {
                if region_offset > 0 {
                    largest_gap = region_offset;
                    largest_gap_offset = 0;
                }
                k = 0;
            } else {
                let gap_size = region_offset - last_region_end;
                if gap_size > largest_gap {
                    largest_gap = gap_size;
                    largest_gap_offset = last_region_end;
                    k = i;
                }
            }
            if largest_gap >= size {
                broke_early = true;
                break;
            }
            last_region_end = region_offset + region_size;
            i = i + 1;
        }
        // The loop looks only at the gaps before each area: the gap after
        // the last area counts too, when no earlier gap was big enough.
        let final_gap = self.size - last_region_end;
        if final_gap > largest_gap && !broke_early {
            largest_gap = final_gap;
            largest_gap_offset = last_region_end;
            k = n;
        }
        proof {
            assert(is_chosen_gap(areas, dev, want, k as int));
        }
        let largest_gap = align_down(largest_gap);
        if largest_gap == 0 {
            return None;
        }
        let size = if largest_gap < size { largest_gap } else { size };
        let reserved_alloc = EphAllocation::new(id, largest_gap_offset, size);
        proof {
            lemma_insert_in_gap(areas, dev, k as int, reserved_alloc);
        }
        self.allocated_areas.insert(k, reserved_alloc);
        Some(reserved_alloc)
    }

    /// Index of the area that starts at `offset`, if any.
    pub fn area_index(&self, offset: u64) -> (r: Option<usize>)
        requires
            self.wf(),
        ensures
            r matches Some(i) ==> i < self.allocated_areas@.len()
                && self.allocated_areas@[i as int].consumer_offset == offset,
            r is None ==> forall|i: int| 0 <= i < self.allocated_areas@.len()
                ==> #[trigger] self.allocated_areas@[i].consumer_offset != offset,
    {
        let n = self.allocated_areas.len();
        let mut i: usize = 0;
        while i < n
            invariant
                n == self.allocated_areas@.len(),
                0 <= i <= n,
                forall|j: int| 0 <= j < i ==> #[trigger] self.allocated_areas@[j].consumer_offset != offset,
            decreases n - i,
        {
            if self.allocated_areas[i].consumer_offset == offset {
                return Some(i);
            }
            i = i + 1;
        }
        None
    }

    /// Releases the reservation that starts at `offset` when no donor could
    /// back it. Returns false, and changes nothing, when no area starts there.
    pub fn release_reserved_memory(&mut self, offset: u64) -> (r: bool)
        requires
            old(self).wf(),
        ensures
            final(self).wf(),
            area_released(*old(self), *final(self), offset, r),
    {
        match self.area_index(offset) {
            Some(i) => {
                proof {
                    lemma_remove_keeps_wf(self.allocated_areas@, self.size as int, i as int);
                }
                self.allocated_areas.remove(i);
                true
            },
            None => false,
        }
    }

    /// Shrinks the area that starts at `offset` to `size` bytes once a donor
    /// backs that much of it. Does nothing, and returns false, when no area
    /// starts there or `size` is zero or more than the area holds.
    pub fn commit_allocation(&mut self, offset: u64, size: u64) -> (r: bool)
        requires
            old(self).wf(),
        ensures
            final(self).wf(),
            final(self).vsock_cid == old(self).vsock_cid,
            final(self).qom_path == old(self).qom_path,
            final(self).size == old(self).size,
            r == commit_applies(*old(self), offset, size),
            consumer_committed(*old(self), *final(self), offset, size),
    {
        match self.area_index(offset) {
            Some(i) => {
                if 0 < size && size <= self.allocated_areas[i].size {
                    let ghost areas = self.allocated_areas@;
                    self.allocated_areas[i].size = size;
                    proof {
                        let s2 = self.allocated_areas@;
                        assert forall|a: int, b: int| 0 <= a < b < s2.len()
                            implies #[trigger] s2[a].end() <= #[trigger] s2[b].consumer_offset by {
                            assert(areas[a].end() <= areas[b].consumer_offset);
                        }
                        assert forall|a: int| 0 <= a < s2.len() implies #[trigger] s2[a].end() <= self.size as int by {
                            assert(areas[a].end() <= self.size as int);
                        }
                        assert forall|a: int| 0 <= a < s2.len() implies #[trigger] s2[a].size > 0 by {
                            assert(areas[a].size > 0);
                        }
                    }
                    true
                } else {
                    proof {
                        lemma_offsets_unique(self.allocated_areas@, self.size as int);
                    }
                    false
                }
            },
            None => false,
        }
    }
}

/// A consumer never sends a line longer than this many bytes.
pub const MAX_LINE_LEN: u64 = 4096;

/// A command from a consumer guest: a function name and, for some
/// functions, a size.
pub struct ConsumerCommand {
    pub function: String,
    pub size: Option<u64>,
}

impl ConsumerCommand {
    pub fn new(function: String, size: Option<u64>) -> (r: Self)
        ensures
            r.function@ == function@,
            r.size == size,
    {
        ConsumerCommand { function, size }
    }
}

/// What to do with a command from a consumer.
#[derive(Clone, Copy, PartialEq, Eq, Debug)]
pub enum ConsumerCmdAction {
    /// Ask for this many bytes of ephemeral memory.
    EphMemRequest(u64),
    /// A request for memory without a size: report it and go on.
    MissingSize,
    /// A function the orchestrator does not know: report it and go on.
    Unknown,
}

/// Decides what a consumer's command asks for: `eph-mem-request` with a
/// size is a request for memory; without one it is reported; any other
/// function is unknown.
pub fn consumer_cmd_dispatacher(cmd: &ConsumerCommand) -> (r: ConsumerCmdAction)
    ensures
        cmd.function@ == "eph-mem-request"@ ==> r == (match cmd.size {
            Some(size) => ConsumerCmdAction::EphMemRequest(size),
            None => ConsumerCmdAction::MissingSize,
        }),
        cmd.function@ != "eph-mem-request"@ ==> r == ConsumerCmdAction::Unknown,
{
    if str_eq(cmd.function.as_str(), "eph-mem-request") {
        match cmd.size {
            Some(size) => ConsumerCmdAction::EphMemRequest(size),
            None => ConsumerCmdAction::MissingSize,
        }
    } else {
        ConsumerCmdAction::Unknown
    }
}

/// What a read of one line from a consumer's connection means.
#[derive(Clone, Copy, PartialEq, Eq, Debug)]
pub enum ConsumerLine {
    /// The consumer closed the connection.
    EndOfStream,
    /// A whole line to parse as a command.
    Command,
    /// The line hit the length cap or the connection closed mid-line: stop
    /// reading from this consumer.
    Overlong,
}

/// Classifies a read of `bytes_read` bytes that left `line` in the buffer.
pub fn classify_consumer_line(bytes_read: usize, line: &str) -> (r: ConsumerLine)
    ensures
        bytes_read == 0 ==> r == ConsumerLine::EndOfStream,
        bytes_read != 0 && line@.len() > 0 && line@.last() == '\n' ==> r == ConsumerLine::Command,
        bytes_read != 0 && !(line@.len() > 0 && line@.last() == '\n') ==> r == ConsumerLine::Overlong,
{
    if bytes_read == 0 {
        ConsumerLine::EndOfStream
    } else if ends_with_newline(line) {
        ConsumerLine::Command
    } else {
        ConsumerLine::Overlong
    }
}

/// The vsock CID of a consumer, read from the name of its QMP socket,
/// `<dir>/<cid>.qmp` by convention: the stem of the path (as
/// `Path::file_stem` gives it) read as a `u32`.
pub fn parse_vsock_cid(qmp_path: &str) -> (r: Option<u32>)
    ensures
        r == (match file_stem_of(qmp_path@) {
            Some(stem) => parse_u32_spec(stem),
            None => None,
        }),
{
    let ks = path_components(qmp_path);
    let n = ks.len();
    if n == 0 {
        return None;
    }
    let last = &ks[n - 1];
    proof {
        assert(views(ks@)[n - 1] == last@);
    }
    let m = last.len();
    if m == 0 || last[0] != '\u{4}' {
        return None;
    }
    let ghost name = last@.drop_first();
    // The last `.` of the name, at index `j - 1` of it; `j == 0` when none.
    let mut j: usize = m;
    let mut found = false;
    while j > 1 && !found
        invariant
            1 <= j <= m == last@.len(),
            found ==> j < m && last@[j as int] == '.',
            forall|t: int| j < t < m ==> last@[t] != '.',
            !found ==> forall|t: int| j <= t < m ==> last@[t] != '.',
        decreases j,
    {
        if last[j - 1] == '.' {
            j = j - 1;
            found = true;
        } else {
            j = j - 1;
        }
    }
    proof {
        assert forall|t: int| 0 <= t < name.len() implies name[t] == last@[t + 1] by {}
    }
    let end = if found && j > 1 { j } else { m };
    proof {
        let stem = stem_of(name);
        if found && j > 1 {
            let k = j - 1;
            assert(is_last_dot(name, k as int));
            let k2 = choose|k2: int| #[trigger] is_last_dot(name, k2) && k2 > 0;
            if k2 < k {
                assert(name[k as int] != '.');
            } else if k < k2 {
                assert(name[k2] != '.');
            }
            assert(stem =~= last@.subrange(1, end as int));
        } else {
            assert(!exists|k: int| #[trigger] is_last_dot(name, k) && k > 0) by {
                if exists|k: int| #[trigger] is_last_dot(name, k) && k > 0 {
                    let k = choose|k: int| #[trigger] is_last_dot(name, k) && k > 0;
                    assert(last@[k + 1] == '.');
                    if found {
                        assert(j == 1);
                        assert(name[0] == '.');
                    }
                }
            }
            assert(stem =~= last@.subrange(1, end as int));
        }
    }
    match parse_decimal_chars(last, 1, end, 4294967295) {
        Some(v) => Some(v as u32),
        None => None,
    }
}

/// The QMP socket path of the consumer with vsock CID `cid`:
/// `<qmp_dir>/<cid>.qmp`.
pub fn consumer_socket_path(qmp_dir: &str, cid: u32) -> (r: String)
    ensures
        r@ == qmp_dir@ + "/"@ + decimal_digits(cid as nat) + ".qmp"@,
{
    let dir = String::from_str(qmp_dir);
    let with_slash = dir.concat("/");
    let digits = decimal_string(cid);
    let with_cid = with_slash.concat(digits.as_str());
    with_cid.concat(".qmp")
}

/// Where the QEMU device objects of a VM hang in the QOM tree.
pub open spec fn qom_peripheral_path(name: Seq<char>) -> Seq<char> {
    "/machine/peripheral/"@ + name
}

/// The QOM paths of the objects of `objs` whose type names a CXL type-3
/// device, in order: the devices that may carry dynamic capacity.
pub open spec fn dcd_paths(objs: Seq<QomListResponse>) -> Seq<Seq<char>>
    decreases objs.len(),
{
    if objs.len() == 0 {
        Seq::empty()
    } else {
        let rest = dcd_paths(objs.drop_last());
        if contains_seq(objs.last().type_@, "cxl-type3"@) {
            rest.push(qom_peripheral_path(objs.last().name@))
        } else {
            rest
        }
    }
}

/// Law: the candidates for a dynamic-capacity device are the objects whose
/// type contains `cxl-type3`, every one of them and no other, in their
/// order, each at `/machine/peripheral/<name>`.
pub proof fn law_dcd_candidates_are_type3_devices(objs: Seq<QomListResponse>)
    ensures
        dcd_paths(objs) == objs.filter(|o: QomListResponse| contains_seq(o.type_@, "cxl-type3"@)).map_values(
            |o: QomListResponse| qom_peripheral_path(o.name@),
        ),
    decreases objs.len(),
{
    reveal(Seq::filter);
    if objs.len() > 0 {
        law_dcd_candidates_are_type3_devices(objs.drop_last());
        let p = |o: QomListResponse| contains_seq(o.type_@, "cxl-type3"@);
        let f = |o: QomListResponse| qom_peripheral_path(o.name@);
        let rest = objs.drop_last().filter(p);
        assert(objs.filter(p) == (if p(objs.last()) { rest.push(objs.last()) } else { rest }));
        assert(rest.map_values(f) == dcd_paths(objs.drop_last()));
        if p(objs.last()) {
            assert(rest.push(objs.last()).map_values(f) =~= rest.map_values(f).push(f(objs.last())));
        }
    } else {
        let p = |o: QomListResponse| contains_seq(o.type_@, "cxl-type3"@);
        let f = |o: QomListResponse| qom_peripheral_path(o.name@);
        assert(objs.filter(p).map_values(f) =~= Seq::<Seq<char>>::empty());
    }
}

/// The devices of a `qom-list` of `/machine/peripheral` to probe for dynamic
/// capacity: those whose type contains `cxl-type3`, in order.
pub fn dcd_candidate_paths(objs: &Vec<QomListResponse>) -> (r: Vec<String>)
    ensures
        r@.len() == dcd_paths(objs@).len(),
        forall|i: int| 0 <= i < r@.len() ==> #[trigger] r@[i]@ == dcd_paths(objs@)[i],
        ({
            let wanted = objs@.filter(|o: QomListResponse| contains_seq(o.type_@, "cxl-type3"@));
            &&& r@.len() == wanted.len()
            &&& forall|i: int| 0 <= i < r@.len() ==> #[trigger] r@[i]@ == qom_peripheral_path(wanted[i].name@)
        }),
{
    proof {
        law_dcd_candidates_are_type3_devices(objs@);
    }
    let n = objs.len();
    let mut r: Vec<String> = Vec::new();
    let mut i: usize = 0;
    while i < n
        invariant
            n == objs@.len(),
            0 <= i <= n,
            r@.len() == dcd_paths(objs@.take(i as int)).len(),
            forall|k: int| 0 <= k < r@.len() ==> #[trigger] r@[k]@ == dcd_paths(objs@.take(i as int))[k],
        decreases n - i,
    {
        proof {
            assert(objs@.take(i + 1).drop_last() =~= objs@.take(i as int));
        }
        if str_contains(objs[i].type_.as_str(), "cxl-type3") {
            let path = String::from_str("/machine/peripheral/").concat(objs[i].name.as_str());
            r.push(path);
        }
        i = i + 1;
    }
    proof {
        assert(objs@.take(n as int) =~= objs@);
    }
    r
}

/// Where the search for a consumer's dynamic-capacity device stands. Each
/// candidate device has a `volatile-dc-memdev` link, set only when the device
/// is configured for dynamic capacity; an unset link reads back empty.
pub enum DcdProbe {
    /// Read the link of the candidate at this index.
    ReadLink(usize),
    /// Candidate `device` is the one; its memory backend is at `memdev`.
    Found { device: usize, memdev: String },
    /// No candidate is configured for dynamic capacity.
    NotFound,
}

/// The first step of the search among `candidate_count` candidates.
pub fn dcd_probe_start(candidate_count: usize) -> (r: DcdProbe)
    ensures
        candidate_count == 0 ==> r is NotFound,
        candidate_count > 0 ==> (r matches DcdProbe::ReadLink(i) && i == 0),
{
    if candidate_count == 0 {
        DcdProbe::NotFound
    } else {
        DcdProbe::ReadLink(0)
    }
}

/// The step after the link of candidate `index` (of `candidate_count`) read
/// back as `link`: an empty link passes to the next candidate, if any; any
/// other link makes this candidate the device, so the first configured
/// candidate wins.
pub fn dcd_probe_step(candidate_count: usize, index: usize, link: &str) -> (r: DcdProbe)
    requires
        index < candidate_count,
    ensures
        link@.len() > 0 ==> (r matches DcdProbe::Found { device, memdev } && device == index && memdev@ == link@),
        link@.len() == 0 && index + 1 < candidate_count ==> (r matches DcdProbe::ReadLink(i) && i == index + 1),
        link@.len() == 0 && index + 1 == candidate_count ==> r is NotFound,
{
    if link.unicode_len() > 0 {
        DcdProbe::Found { device: index, memdev: String::from_str(link) }
    } else if index + 1 < candidate_count {
        DcdProbe::ReadLink(index + 1)
    } else {
        DcdProbe::NotFound
    }
}

} // verus!
