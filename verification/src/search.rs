//! A whole donor search: rounds of `VmList::allocate_eph_memory_inner`, each
//! followed by `VmList::after_donor_reply` for the donor's answer, each round
//! after the first resuming past the donor asked before it.
use vstd::prelude::*;

use crate::allocation::EphAllocation;
use crate::donor::DonatableRegion;
use crate::path::{lemma_keys_lt_irreflexive, lemma_keys_lt_transitive, path_lt};
use crate::vm_list::{lent_by_search, reply_booked, DonorReplyOutcome, VmList};

verus! {

/// The donatable regions of VM `j` of `s`; none when it is no donor.
pub open spec fn regions_of(s: VmList, j: int) -> Seq<DonatableRegion> {
    match s.vms@[j].donor {
        Some(d) => d.donatable_regions@,
        None => Seq::empty(),
    }
}

/// One of the first `n` rounds picked region `ri` of VM `j`.
pub open spec fn picked(picks: Seq<(int, int)>, n: int, j: int, ri: int) -> bool {
    exists|k: int| 0 <= k < n && #[trigger] picks[k] == (j, ri)
}

/// `trace` records a search of `picks.len()` rounds for the consumer at
/// `consumer_path`. Round `k` starts from `trace[2k]`: the search past
/// `starts[k]` lends `rsvds[k]` out of region `picks[k].1` of VM
/// `picks[k].0`, giving `trace[2k + 1]`; booking that donor's answer
/// `granted[k]` gives `trace[2k + 2]`, the reservation `rsvds[k + 1]` and the
/// outcome `outcomes[k]`. Each round after the first starts past the donor
/// asked in the round before (a search goes on after an outcome that says to
/// try the next donor; the outcomes themselves are not constrained here).
/// Every list of VMs in it is well formed, as both steps leave it.
pub open spec fn search_rounds(
    trace: Seq<VmList>,
    starts: Seq<Seq<char>>,
    picks: Seq<(int, int)>,
    rsvds: Seq<EphAllocation>,
    consumer_path: Seq<char>,
    granted: Seq<u64>,
    outcomes: Seq<DonorReplyOutcome>,
) -> bool {
    let n = picks.len() as int;
    &&& trace.len() == 2 * n + 1
    &&& forall|i: int| 0 <= i < trace.len() ==> #[trigger] trace[i].wf()
    &&& starts.len() == n
    &&& rsvds.len() == n + 1
    &&& granted.len() == n
    &&& outcomes.len() == n
    &&& forall|k: int| 0 <= k < n ==> #[trigger] lent_by_search(
        trace[2 * k],
        starts[k],
        rsvds[k],
        trace[2 * k + 1],
        picks[k].0,
        picks[k].1,
    )
    &&& forall|k: int| 0 <= k < n ==> #[trigger] reply_booked(
        trace[2 * k + 1],
        trace[2 * k + 2],
        consumer_path,
        rsvds[k],
        rsvds[k + 1],
        trace[2 * k].vms@[picks[k].0].qmp_socket_path@,
        regions_of(trace[2 * k], picks[k].0)[picks[k].1].path@,
        granted[k],
        outcomes[k],
    )
    &&& forall|k: int| 0 <= k < n - 1 ==> #[trigger] starts[k + 1]
        == trace[2 * k].vms@[picks[k].0].qmp_socket_path@
}

/// What lending in one round does: region `ri` of VM `b` counts `a` as
/// donated, all else keeps its counts and every VM keeps its path.
proof fn lemma_lend_effect(s: VmList, start: Seq<char>, a: EphAllocation, t: VmList, b: int, ri: int)
    requires
        s.wf(),
        lent_by_search(s, start, a, t, b, ri),
    ensures
        t.vms@.len() == s.vms@.len(),
        0 <= b < s.vms@.len(),
        0 <= ri < regions_of(s, b).len(),
        forall|j: int| 0 <= j < s.vms@.len()
            ==> #[trigger] t.vms@[j].qmp_socket_path == s.vms@[j].qmp_socket_path,
        forall|j: int| 0 <= j < s.vms@.len()
            ==> #[trigger] regions_of(t, j).len() == regions_of(s, j).len(),
        forall|j: int, r: int| 0 <= j < s.vms@.len() && 0 <= r < regions_of(s, j).len()
            ==> #[trigger] regions_of(t, j)[r].donated == regions_of(s, j)[r].donated
                + (if j == b && r == ri { a.initial_size as int } else { 0int }),
{
    assert forall|j: int| 0 <= j < s.vms@.len()
        implies #[trigger] t.vms@[j].qmp_socket_path == s.vms@[j].qmp_socket_path by {
        if j != b {
            assert(t.vms@[j] == s.vms@[j]);
        }
    }
    assert forall|j: int| 0 <= j < s.vms@.len()
        implies #[trigger] regions_of(t, j).len() == regions_of(s, j).len() by {
        if j != b {
            assert(t.vms@[j] == s.vms@[j]);
        }
    }
    assert forall|j: int, r: int| 0 <= j < s.vms@.len() && 0 <= r < regions_of(s, j).len()
        implies #[trigger] regions_of(t, j)[r].donated == regions_of(s, j)[r].donated
            + (if j == b && r == ri { a.initial_size as int } else { 0int }) by {
        if j != b {
            assert(t.vms@[j] == s.vms@[j]);
        } else if r != ri {
            assert(t.vms@[b].donor->0.donatable_regions@[r] == s.vms@[b].donor->0.donatable_regions@[r]);
        }
    }
}

/// What booking a donor's answer does: no region's donated count changes,
/// every VM keeps its path, and the reservation keeps its requested size.
proof fn lemma_reply_effect(
    t: VmList,
    u: VmList,
    consumer_path: Seq<char>,
    a0: EphAllocation,
    a1: EphAllocation,
    donor_path: Seq<char>,
    qom_path: Seq<char>,
    granted: u64,
    r: DonorReplyOutcome,
)
    requires
        reply_booked(t, u, consumer_path, a0, a1, donor_path, qom_path, granted, r),
    ensures
        u.vms@.len() == t.vms@.len(),
        a1.initial_size == a0.initial_size,
        forall|j: int| 0 <= j < t.vms@.len()
            ==> #[trigger] u.vms@[j].qmp_socket_path == t.vms@[j].qmp_socket_path,
        forall|j: int| 0 <= j < t.vms@.len()
            ==> #[trigger] regions_of(u, j).len() == regions_of(t, j).len(),
        forall|j: int, x: int| 0 <= j < t.vms@.len() && 0 <= x < regions_of(t, j).len()
            ==> #[trigger] regions_of(u, j)[x].donated == regions_of(t, j)[x].donated,
{
    let (kept, to_revoke) = t.reply_split(donor_path, qom_path, a0.id, granted);
    assert forall|j: int| 0 <= j < t.vms@.len()
        implies #[trigger] u.vms@[j].qmp_socket_path == t.vms@[j].qmp_socket_path by {
        assert(u.vms@[j].qmp_socket_path == t.vms@[j].qmp_socket_path);
    }
    assert forall|j: int| 0 <= j < t.vms@.len()
        implies #[trigger] regions_of(u, j).len() == regions_of(t, j).len()
            && forall|x: int| 0 <= x < regions_of(t, j).len()
                ==> #[trigger] regions_of(u, j)[x].donated == regions_of(t, j)[x].donated by {
        let v0 = t.vms@[j];
        let v1 = u.vms@[j];
        if crate::path::same_path(v0.qmp_socket_path@, donor_path) && v0.donor is Some {
            let mid = choose|mid: crate::donor::DonorState| {
                &&& #[trigger] crate::donor::handled_reserved(v0.donor->0, mid, qom_path, a0.id, granted)
                &&& v1.donor is Some
                &&& (kept > 0 ==> crate::donor::committed_in_donor(mid, v1.donor->0, qom_path, a0.id, kept))
                &&& (kept == 0 ==> v1.donor->0 == mid)
            };
            let d0 = v0.donor->0;
            let d1 = v1.donor->0;
            assert forall|x: int| 0 <= x < d0.donatable_regions@.len()
                implies #[trigger] mid.donatable_regions@[x].donated == d0.donatable_regions@[x].donated by {
                match d0.find_alloc_spec(qom_path, a0.id) {
                    Some((ri, pos)) => {
                        if x != ri {
                            assert(mid.donatable_regions@[x] == d0.donatable_regions@[x]);
                        }
                    },
                    None => {},
                }
            }
            if kept > 0 {
                assert forall|x: int| 0 <= x < mid.donatable_regions@.len()
                    implies #[trigger] d1.donatable_regions@[x].donated == mid.donatable_regions@[x].donated by {
                    match mid.find_alloc_spec(qom_path, a0.id) {
                        Some((ri, pos)) => {
                            if x != ri {
                                assert(d1.donatable_regions@[x] == mid.donatable_regions@[x]);
                            }
                        },
                        None => {},
                    }
                }
            }
        }
    }
}

/// Law: a whole donor search asks each donor at most once, in path order;
/// when it is over, each region that some round lent out of counts the
/// reservation's requested size as donated on top of what it counted
/// before, whatever the donors answered; every other region counts what it
/// counted before; and no region counts more as donated than it holds.
pub proof fn law_donor_search(
    trace: Seq<VmList>,
    starts: Seq<Seq<char>>,
    picks: Seq<(int, int)>,
    rsvds: Seq<EphAllocation>,
    consumer_path: Seq<char>,
    granted: Seq<u64>,
    outcomes: Seq<DonorReplyOutcome>,
)
    requires
        search_rounds(trace, starts, picks, rsvds, consumer_path, granted, outcomes),
    ensures
        ({
            let n = picks.len() as int;
            let first = trace[0];
            let last = trace[2 * n];
            &&& forall|k: int, m: int| 0 <= k < m < n ==> path_lt(
                #[trigger] first.vms@[picks[k].0].qmp_socket_path@,
                #[trigger] first.vms@[picks[m].0].qmp_socket_path@,
            ) && picks[k].0 != picks[m].0
            &&& last.vms@.len() == first.vms@.len()
            &&& forall|j: int| 0 <= j < first.vms@.len()
                ==> #[trigger] regions_of(last, j).len() == regions_of(first, j).len()
            &&& forall|j: int, ri: int| 0 <= j < first.vms@.len() && 0 <= ri < regions_of(first, j).len()
                ==> #[trigger] regions_of(last, j)[ri].donated == regions_of(first, j)[ri].donated
                    + (if picked(picks, n, j, ri) { rsvds[0].initial_size as int } else { 0int })
            &&& forall|j: int, ri: int| 0 <= j < last.vms@.len() && 0 <= ri < regions_of(last, j).len()
                ==> #[trigger] regions_of(last, j)[ri].donated <= regions_of(last, j)[ri].size
        }),
{
    lemma_search_prefix(trace, starts, picks, rsvds, consumer_path, granted, outcomes, picks.len() as int);
    let n = picks.len() as int;
    let last = trace[2 * n];
    assert forall|j: int, ri: int| 0 <= j < last.vms@.len() && 0 <= ri < regions_of(last, j).len()
        implies #[trigger] regions_of(last, j)[ri].donated <= regions_of(last, j)[ri].size by {
        assert(last.vms@[j].wf());
        let d = last.vms@[j].donor->0;
        assert(d.donatable_regions@[ri].wf());
    }
}

/// The law for the first `m` rounds.
proof fn lemma_search_prefix(
    trace: Seq<VmList>,
    starts: Seq<Seq<char>>,
    picks: Seq<(int, int)>,
    rsvds: Seq<EphAllocation>,
    consumer_path: Seq<char>,
    granted: Seq<u64>,
    outcomes: Seq<DonorReplyOutcome>,
    m: int,
)
    requires
        search_rounds(trace, starts, picks, rsvds, consumer_path, granted, outcomes),
        0 <= m <= picks.len(),
    ensures
        ({
            let first = trace[0];
            let cur = trace[2 * m];
            &&& cur.wf()
            &&& rsvds[m].initial_size == rsvds[0].initial_size
            &&& cur.vms@.len() == first.vms@.len()
            &&& forall|j: int| 0 <= j < first.vms@.len()
                ==> #[trigger] cur.vms@[j].qmp_socket_path == first.vms@[j].qmp_socket_path
            &&& forall|k: int| 0 <= k < m ==> 0 <= #[trigger] picks[k].0 < first.vms@.len()
            &&& forall|k: int, l: int| 0 <= k < l < m ==> path_lt(
                #[trigger] first.vms@[picks[k].0].qmp_socket_path@,
                #[trigger] first.vms@[picks[l].0].qmp_socket_path@,
            ) && picks[k].0 != picks[l].0
            &&& forall|j: int| 0 <= j < first.vms@.len()
                ==> #[trigger] regions_of(cur, j).len() == regions_of(first, j).len()
            &&& forall|j: int, ri: int| 0 <= j < first.vms@.len() && 0 <= ri < regions_of(first, j).len()
                ==> #[trigger] regions_of(cur, j)[ri].donated == regions_of(first, j)[ri].donated
                    + (if picked(picks, m, j, ri) { rsvds[0].initial_size as int } else { 0int })
        }),
    decreases m,
{
    let first = trace[0];
    if m == 0 {
        return;
    }
    let k = m - 1;
    lemma_search_prefix(trace, starts, picks, rsvds, consumer_path, granted, outcomes, k);
    let s = trace[2 * k];
    let t = trace[2 * k + 1];
    let u = trace[2 * k + 2];
    assert(2 * k + 2 == 2 * m);
    let b = picks[k].0;
    let ri = picks[k].1;
    assert(lent_by_search(s, starts[k], rsvds[k], t, b, ri));
    lemma_lend_effect(s, starts[k], rsvds[k], t, b, ri);
    assert(reply_booked(
        t,
        u,
        consumer_path,
        rsvds[k],
        rsvds[k + 1],
        s.vms@[b].qmp_socket_path@,
        regions_of(s, b)[ri].path@,
        granted[k],
        outcomes[k],
    ));
    lemma_reply_effect(
        t,
        u,
        consumer_path,
        rsvds[k],
        rsvds[k + 1],
        s.vms@[b].qmp_socket_path@,
        regions_of(s, b)[ri].path@,
        granted[k],
        outcomes[k],
    );
    let size = rsvds[0].initial_size as int;
    assert(trace[2 * m].wf());
    // Every donor asked before this round sorts before the one asked now.
    assert forall|x: int| 0 <= x < k implies path_lt(
        first.vms@[#[trigger] picks[x].0].qmp_socket_path@,
        first.vms@[b].qmp_socket_path@,
    ) && picks[x].0 != b by {
        lemma_search_prefix(trace, starts, picks, rsvds, consumer_path, granted, outcomes, k - 1);
        let p = k - 1;
        assert(starts[p + 1] == trace[2 * p].vms@[picks[p].0].qmp_socket_path@);
        assert(crate::vm_list::is_candidate_donor(s.vms@, starts[k], rsvds[k].initial_size, b));
        let prev = first.vms@[picks[p].0].qmp_socket_path@;
        let now = first.vms@[b].qmp_socket_path@;
        assert(path_lt(prev, now));
        if x < p {
            let older = first.vms@[picks[x].0].qmp_socket_path@;
            assert(path_lt(older, prev));
            lemma_keys_lt_transitive(
                crate::path::components(older),
                crate::path::components(prev),
                crate::path::components(now),
            );
        }
        if picks[x].0 == b {
            lemma_keys_lt_irreflexive(crate::path::components(now));
        }
    }
    assert forall|x: int, l: int| 0 <= x < l < m implies path_lt(
        #[trigger] first.vms@[picks[x].0].qmp_socket_path@,
        #[trigger] first.vms@[picks[l].0].qmp_socket_path@,
    ) && picks[x].0 != picks[l].0 by {
        if l == k {
            assert(path_lt(first.vms@[picks[x].0].qmp_socket_path@, first.vms@[b].qmp_socket_path@) && picks[x].0 != b);
        }
    }
    assert forall|j: int| 0 <= j < first.vms@.len()
        implies #[trigger] u.vms@[j].qmp_socket_path == first.vms@[j].qmp_socket_path by {
        assert(t.vms@[j].qmp_socket_path == s.vms@[j].qmp_socket_path);
        assert(u.vms@[j].qmp_socket_path == t.vms@[j].qmp_socket_path);
    }
    assert forall|j: int| 0 <= j < first.vms@.len()
        implies #[trigger] regions_of(u, j).len() == regions_of(first, j).len() by {
        assert(regions_of(t, j).len() == regions_of(s, j).len());
        assert(regions_of(u, j).len() == regions_of(t, j).len());
    }
    assert forall|j: int, r: int| 0 <= j < first.vms@.len() && 0 <= r < regions_of(first, j).len()
        implies #[trigger] regions_of(u, j)[r].donated == regions_of(first, j)[r].donated
            + (if picked(picks, m, j, r) { size } else { 0int }) by {
        assert(regions_of(s, j).len() == regions_of(first, j).len());
        assert(regions_of(u, j)[r].donated == regions_of(t, j)[r].donated);
        assert(regions_of(t, j)[r].donated == regions_of(s, j)[r].donated
            + (if j == b && r == ri { rsvds[k].initial_size as int } else { 0int }));
        if j == b && r == ri {
            assert(picks[k] == (j, r));
            assert(!picked(picks, k, j, r)) by {
                if picked(picks, k, j, r) {
                    let x = choose|x: int| 0 <= x < k && #[trigger] picks[x] == (j, r);
                    assert(picks[x].0 != b);
                }
            }
            assert(picked(picks, m, j, r));
        } else {
            assert(picked(picks, m, j, r) == picked(picks, k, j, r)) by {
                if picked(picks, m, j, r) {
                    let x = choose|x: int| 0 <= x < m && #[trigger] picks[x] == (j, r);
                    assert(x != k);
                }
            }
        }
    }
}

} // verus!
