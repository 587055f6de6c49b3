//! The overlap resolver: validates the batch, builds the sorted events and
//! the occupancy counts once, and reads off each meeting's peak occupancy.

use vstd::prelude::*;
use crate::events::{
    create_breakpoints, event_leq, events_of, lemma_event_le_total, sorted_events_of, Cap,
};
use crate::sweep::{
    create_stack_count, depth, end_index_spec, end_scan_from, lemma_depth_nonneg,
    lemma_depth_step, lemma_end_scan, lemma_first_relevant, skippable, slice_index,
    start_index_spec, valid_all,
};

verus! {

/// The single error of the library: some interval's start coordinate is not
/// strictly less than its end coordinate.
#[derive(Clone, Copy, Debug, PartialEq, Eq, Structural)]
pub struct InvalidInterval;

/// The largest depth recorded at the events with index in `[lo, hi)`; the
/// range is meant non-empty (`lo < hi`).
pub open spec fn max_occupancy(bp: Seq<(i64, Cap)>, lo: int, hi: int) -> int
    decreases hi - lo,
{
    if hi <= lo + 1 {
        depth(bp, lo + 1)
    } else {
        let rest = max_occupancy(bp, lo, hi - 1);
        if depth(bp, hi) > rest {
            depth(bp, hi)
        } else {
            rest
        }
    }
}

/// The max occupancy over a range is at least the depth recorded at any
/// event of the range.
pub proof fn lemma_max_occupancy_ge(bp: Seq<(i64, Cap)>, lo: int, hi: int, j: int)
    requires
        lo <= j < hi,
    ensures
        max_occupancy(bp, lo, hi) >= depth(bp, j + 1),
    decreases hi - lo,
{
    if hi > lo + 1 && j < hi - 1 {
        lemma_max_occupancy_ge(bp, lo, hi - 1, j);
    }
}

/// The peak occupancy within the span of meeting `m`, read off the sorted
/// event sequence `bp`.
pub open spec fn overlap_of(m: (i64, i64), bp: Seq<(i64, Cap)>) -> int {
    max_occupancy(bp, start_index_spec(m, bp), end_index_spec(m, bp))
}

/// The result owed for meeting `k` of the batch: the peak occupancy within
/// its span, on the sorted event sequence of the whole batch.
pub open spec fn max_overlap_spec(ms: Seq<(i64, i64)>, k: int) -> int {
    overlap_of(ms[k], sorted_events_of(ms))
}

/// Checks that every interval of the batch has start strictly before end.
#[verifier::loop_isolation(false)]
pub fn is_valid(meetings: &Vec<(i64, i64)>) -> (r: bool)
    ensures
        r == valid_all(meetings@),
{
    let mut k: usize = 0;
    while k < meetings.len()
        invariant
            k <= meetings@.len(),
            forall|i: int| 0 <= i < k ==> (#[trigger] meetings@[i]).0 < meetings@[i].1,
        decreases meetings@.len() - k,
    {
        let meeting = meetings[k];
        if meeting.0 >= meeting.1 {
            assert(!((meetings@[k as int]).0 < meetings@[k as int].1));
            return false;
        }
        k = k + 1;
    }
    true
}

/// Every meeting of a valid batch overlaps at least itself, so its peak
/// occupancy is at least one.
pub proof fn lemma_lower_bound(ms: Seq<(i64, i64)>, k: int)
    requires
        valid_all(ms),
        0 <= k < ms.len(),
    ensures
        max_overlap_spec(ms, k) >= 1,
{
    broadcast use vstd::seq_lib::group_to_multiset_ensures;

    lemma_event_le_total();
    let bp = sorted_events_of(ms);
    events_of(ms).lemma_sort_by_ensures(event_leq());
    let m = ms[k];
    let sv = (m.0, Cap::Start);
    assert(events_of(ms)[2 * k] == sv);
    assert(events_of(ms).contains(sv));
    assert(events_of(ms).to_multiset().count(sv) > 0);
    assert(bp.to_multiset().count(sv) > 0);
    assert(bp.contains(sv));
    let q = choose|i: int| 0 <= i < bp.len() && bp[i] == sv;
    let f = start_index_spec(m, bp);
    lemma_first_relevant(m, bp, 0);
    assert(!skippable(m, sv));
    assert(f <= q);
    let e = end_scan_from(m, bp, f);
    lemma_end_scan(m, bp, f);
    if q > e {
        assert(event_leq()(bp[e], bp[q]));
        assert(false);
    }
    lemma_max_occupancy_ge(bp, f, e + 1, q);
    lemma_depth_step(bp, q);
    lemma_depth_nonneg(ms, bp, q);
}

/// Computes, for each meeting of the batch, the maximum number of meetings
/// simultaneously open at any single instant within that meeting's span,
/// in input order. A batch holding an interval whose start is not strictly
/// before its end is rejected whole with `InvalidInterval`. That each
/// returned value really is the peak pointwise concurrency is
/// `crate::concurrency::lemma_peak_is_pointwise_concurrency`.
#[verifier::loop_isolation(false)]
pub fn solve_max_overlap(meetings: &Vec<(i64, i64)>) -> (r: Result<
    Vec<usize>,
    InvalidInterval,
>)
    ensures
        r is Ok <==> valid_all(meetings@),
        r matches Ok(v) ==> {
            &&& v@.len() == meetings@.len()
            &&& forall|k: int|
                0 <= k < meetings@.len() ==> #[trigger] v@[k] as int == max_overlap_spec(
                    meetings@,
                    k,
                )
            &&& forall|k: int| 0 <= k < meetings@.len() ==> #[trigger] v@[k] >= 1
        },
{
    broadcast use vstd::seq_lib::group_to_multiset_ensures;

    if !is_valid(meetings) {
        return Err(InvalidInterval);
    }
    let ghost ms = meetings@;
    let breakpoints = create_breakpoints(meetings);
    let ghost bp = breakpoints@;
    proof {
        lemma_event_le_total();
        assert forall|i: int| 0 <= i <= bp.len() implies depth(bp, i) >= 0 by {
            lemma_depth_nonneg(ms, bp, i);
        }
    }
    let stack_count = create_stack_count(&breakpoints);
    let mut result: Vec<usize> = Vec::new();
    let n = meetings.len();
    let mut k: usize = 0;
    while k < n
        invariant
            k <= n,
            result@.len() == k,
            forall|i: int|
                0 <= i < k ==> #[trigger] result@[i] as int == max_overlap_spec(ms, i),
            forall|i: int| 0 <= i < k ==> #[trigger] result@[i] >= 1,
        decreases n - k,
    {
        let meeting = meetings[k];
        proof {
            let sv = (meeting.0, Cap::Start);
            let ev = (meeting.1, Cap::End);
            assert(events_of(ms)[2 * (k as int)] == sv);
            assert(events_of(ms)[2 * (k as int) + 1] == ev);
            assert(events_of(ms).contains(sv));
            assert(events_of(ms).contains(ev));
            assert(events_of(ms).to_multiset().count(sv) > 0);
            assert(events_of(ms).to_multiset().count(ev) > 0);
            assert(bp.to_multiset().count(sv) > 0);
            assert(bp.to_multiset().count(ev) > 0);
            assert(bp.contains(sv));
            assert(bp.contains(ev));
        }
        let (start_index, end_index) = slice_index(&meeting, &breakpoints, n);
        let ghost lo = start_index as int;
        let ghost hi = end_index as int;
        let mut max_overlap: usize = stack_count[start_index];
        assert(max_overlap as int == max_occupancy(bp, lo, lo + 1));
        let mut index: usize = start_index + 1;
        while index < end_index
            invariant
                lo + 1 <= index <= hi,
                max_overlap as int == max_occupancy(bp, lo, index as int),
            decreases hi - index,
        {
            if stack_count[index] > max_overlap {
                max_overlap = stack_count[index];
            }
            index = index + 1;
        }
        proof {
            lemma_lower_bound(ms, k as int);
        }
        result.push(max_overlap);
        k = k + 1;
    }
    Ok(result)
}

} // verus!
