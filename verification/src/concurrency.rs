//! What the sweep means: the depth it records is the number of meetings
//! open at an instant, and each result is the peak of that number within
//! the meeting's own span.

use vstd::prelude::*;
use vstd::relations::sorted_by;
use crate::counting::{
    count_if, lemma_count_concat, lemma_count_difference, lemma_count_equiv,
    lemma_count_multiset, lemma_count_push, lemma_count_zero,
};
use crate::events::{
    event_le, event_leq, events_of, lemma_event_le_total, sorted_events_of, Cap,
};
use crate::overlap::{lemma_max_occupancy_ge, max_occupancy, max_overlap_spec};
use crate::sweep::{
    depth, end_index_spec, end_le_pred, end_pred, end_scan_from, lemma_depth_step,
    lemma_end_scan, lemma_events_count_end_le, lemma_first_relevant, meeting_end_le_pred,
    skippable, start_index_spec, start_pred, valid_all,
};

verus! {

/// A meeting open at the instant `p`: it has started at or before `p` and
/// has not yet ended, ends being exclusive.
pub open spec fn active_pred(p: i64) -> spec_fn((i64, i64)) -> bool {
    |m: (i64, i64)| m.0 <= p && p < m.1
}

/// The number of meetings of the batch open at the instant `p`.
pub open spec fn active_at(ms: Seq<(i64, i64)>, p: i64) -> int {
    count_if(ms, active_pred(p))
}

/// Predicate picking the `Start` events at position at most `p`.
spec fn start_le_pred(p: i64) -> spec_fn((i64, Cap)) -> bool {
    |e: (i64, Cap)| e.1 == Cap::Start && e.0 <= p
}

/// Predicate picking the meetings that start at or before `p`.
spec fn meeting_start_le_pred(p: i64) -> spec_fn((i64, i64)) -> bool {
    |m: (i64, i64)| m.0 <= p
}

/// Counting `Start` events at position at most `p` over the raw event
/// sequence counts the meetings that start at or before `p`.
proof fn lemma_events_count_start_le(ms: Seq<(i64, i64)>, p: i64)
    ensures
        count_if(events_of(ms), start_le_pred(p)) == count_if(ms, meeting_start_le_pred(p)),
    decreases ms.len(),
{
    if ms.len() == 0 {
        assert(events_of(ms) =~= Seq::<(i64, Cap)>::empty());
    } else {
        let shorter = ms.drop_last();
        let m = ms.last();
        lemma_events_count_start_le(shorter, p);
        assert(events_of(ms) =~= events_of(shorter).push((m.0, Cap::Start)).push(
            (m.1, Cap::End),
        ));
        lemma_count_push(events_of(shorter), (m.0, Cap::Start), start_le_pred(p));
        lemma_count_push(events_of(shorter).push((m.0, Cap::Start)), (m.1, Cap::End),
            start_le_pred(p));
    }
}

/// The first index at or after `i` whose event sits strictly after `p`.
pub open spec fn cut_from(bp: Seq<(i64, Cap)>, p: i64, i: int) -> int
    decreases bp.len() - i,
{
    if i >= bp.len() {
        i
    } else if bp[i].0 <= p {
        cut_from(bp, p, i + 1)
    } else {
        i
    }
}

/// The index splitting the sorted events into those at position at most
/// `p` and those strictly after `p`.
pub open spec fn cut_index(bp: Seq<(i64, Cap)>, p: i64) -> int {
    cut_from(bp, p, 0)
}

/// What `cut_from` finds: everything before it sits at or before `p`, and
/// the found event, if any, sits strictly after `p`.
proof fn lemma_cut(bp: Seq<(i64, Cap)>, p: i64, i: int)
    requires
        0 <= i <= bp.len(),
    ensures
        i <= cut_from(bp, p, i) <= bp.len(),
        forall|j: int| i <= j < cut_from(bp, p, i) ==> (#[trigger] bp[j]).0 <= p,
        cut_from(bp, p, i) < bp.len() ==> bp[cut_from(bp, p, i)].0 > p,
    decreases bp.len() - i,
{
    if i < bp.len() && bp[i].0 <= p {
        lemma_cut(bp, p, i + 1);
    }
}

/// The depth recorded once every event at position at most `p` has been
/// processed is the number of meetings open at the instant `p`.
pub proof fn lemma_depth_at_cut(ms: Seq<(i64, i64)>, bp: Seq<(i64, Cap)>, p: i64)
    requires
        valid_all(ms),
        sorted_by(bp, event_leq()),
        bp.to_multiset() == events_of(ms).to_multiset(),
    ensures
        depth(bp, cut_index(bp, p)) == active_at(ms, p),
{
    let c = cut_index(bp, p);
    lemma_cut(bp, p, 0);
    let prefix = bp.take(c);
    let suffix = bp.skip(c);
    let r = event_leq();

    // On the prefix, being a `Start` and being a `Start` at position at
    // most `p` coincide, and likewise for `End`.
    assert forall|j: int| 0 <= j < prefix.len() implies (#[trigger] start_pred()(prefix[j])
        <==> start_le_pred(p)(prefix[j])) by {
        assert(bp[j].0 <= p);
    }
    assert forall|j: int| 0 <= j < prefix.len() implies (#[trigger] end_pred()(prefix[j])
        <==> end_le_pred(p)(prefix[j])) by {
        assert(bp[j].0 <= p);
    }
    lemma_count_equiv(prefix, start_pred(), start_le_pred(p));
    lemma_count_equiv(prefix, end_pred(), end_le_pred(p));

    // The suffix holds no event at position at most `p`.
    assert forall|j: int| 0 <= j < suffix.len() implies (#[trigger] suffix[j]).0 > p by {
        if c < bp.len() && j > 0 {
            assert(r(bp[c], bp[c + j]));
            assert(event_le(bp[c], bp[c + j]));
        }
    }
    assert forall|j: int| 0 <= j < suffix.len() implies !(#[trigger] start_le_pred(p)(
        suffix[j],
    )) by {
        assert(suffix[j].0 > p);
    }
    assert forall|j: int| 0 <= j < suffix.len() implies !(#[trigger] end_le_pred(p)(
        suffix[j],
    )) by {
        assert(suffix[j].0 > p);
    }
    lemma_count_zero(suffix, start_le_pred(p));
    lemma_count_zero(suffix, end_le_pred(p));

    assert(bp =~= prefix + suffix);
    lemma_count_concat(prefix, suffix, start_le_pred(p));
    lemma_count_concat(prefix, suffix, end_le_pred(p));

    // Carry both counts over to the raw events, then to the meetings.
    lemma_count_multiset(bp, events_of(ms), start_le_pred(p));
    lemma_count_multiset(bp, events_of(ms), end_le_pred(p));
    lemma_events_count_start_le(ms, p);
    lemma_events_count_end_le(ms, p);

    // Open at `p` means: started at or before `p`, and not yet ended.
    assert(forall|i: int|
        0 <= i < ms.len() ==> (#[trigger] active_pred(p)(ms[i]) <==> meeting_start_le_pred(p)(
            ms[i],
        ) && !meeting_end_le_pred(p)(ms[i])));
    assert forall|i: int| 0 <= i < ms.len() && #[trigger] meeting_end_le_pred(p)(ms[i])
        implies meeting_start_le_pred(p)(ms[i]) by {
        assert(ms[i].0 < ms[i].1);
    }
    lemma_count_difference(ms, meeting_start_le_pred(p), meeting_end_le_pred(p),
        active_pred(p));
}

/// The shape of the located range of meeting `k`: it opens at an
/// occurrence of the meeting's own `Start` event, closes at an occurrence
/// of its own `End` event, and every event strictly inside sits strictly
/// before the meeting's end.
pub proof fn lemma_range_shape(ms: Seq<(i64, i64)>, k: int)
    requires
        valid_all(ms),
        0 <= k < ms.len(),
    ensures
        ({
            let bp = sorted_events_of(ms);
            let m = ms[k];
            let f = start_index_spec(m, bp);
            let e = end_index_spec(m, bp) - 1;
            &&& 0 <= f < e < bp.len()
            &&& bp[f] == (m.0, Cap::Start)
            &&& bp[e] == (m.1, Cap::End)
            &&& forall|j: int| f <= j < e ==> (#[trigger] bp[j]).0 < m.1
            &&& sorted_by(bp, event_leq())
            &&& bp.to_multiset() == events_of(ms).to_multiset()
        }),
{
    broadcast use vstd::seq_lib::group_to_multiset_ensures;

    lemma_event_le_total();
    events_of(ms).lemma_sort_by_ensures(event_leq());
    let bp = sorted_events_of(ms);
    let m = ms[k];
    let r = event_leq();
    let sv = (m.0, Cap::Start);
    let ev = (m.1, Cap::End);
    assert(events_of(ms)[2 * k] == sv);
    assert(events_of(ms)[2 * k + 1] == ev);
    assert(events_of(ms).contains(sv));
    assert(events_of(ms).contains(ev));
    assert(events_of(ms).to_multiset().count(sv) > 0);
    assert(events_of(ms).to_multiset().count(ev) > 0);
    assert(bp.to_multiset().count(sv) > 0);
    assert(bp.to_multiset().count(ev) > 0);
    assert(bp.contains(sv));
    assert(bp.contains(ev));
    let q = choose|i: int| 0 <= i < bp.len() && bp[i] == sv;
    let ke = choose|i: int| 0 <= i < bp.len() && bp[i] == ev;

    let f = start_index_spec(m, bp);
    lemma_first_relevant(m, bp, 0);
    assert(!skippable(m, sv));
    assert(f <= q);
    // The range opens at the meeting's own start value.
    if f < q {
        assert(r(bp[f], bp[q]));
        assert(event_le(bp[f], bp[q]));
    }
    assert(bp[f].0 <= m.0);
    assert(!skippable(m, bp[f]));
    assert(bp[f] == sv);

    let es = end_scan_from(m, bp, f);
    lemma_end_scan(m, bp, f);
    assert(!skippable(m, ev));
    assert(f <= ke);
    assert(!(bp[ke].0 < m.1));
    assert(es <= ke);
    assert(es < bp.len());
    // The range closes at the meeting's own end value.
    assert(!(bp[es].0 < m.1));
    if es < ke {
        assert(r(bp[es], bp[ke]));
        assert(event_le(bp[es], bp[ke]));
    }
    assert(bp[es].0 == m.1);
    if es < ke {
        assert(r(bp[es], bp[ke]));
        assert(bp[es].1 == Cap::End);
    }
    assert(bp[es] == ev);
    // The meeting's own start event lies strictly inside the range.
    if q > es {
        assert(r(bp[es], bp[q]));
        assert(event_le(bp[es], bp[q]));
        assert(false);
    }
    assert(q < es);
    assert(f < es);
    assert(end_index_spec(m, bp) == es + 1);
}

/// The max over a non-empty range is attained at some event of the range.
proof fn lemma_max_attained(bp: Seq<(i64, Cap)>, lo: int, hi: int)
    requires
        lo < hi,
    ensures
        exists|j: int| lo <= j < hi && #[trigger] depth(bp, j + 1) == max_occupancy(bp, lo, hi),
    decreases hi - lo,
{
    if hi <= lo + 1 {
        assert(depth(bp, lo + 1) == max_occupancy(bp, lo, hi));
    } else {
        lemma_max_attained(bp, lo, hi - 1);
        if depth(bp, hi) > max_occupancy(bp, lo, hi - 1) {
            assert(depth(bp, (hi - 1) + 1) == max_occupancy(bp, lo, hi));
        } else {
            let j = choose|j: int|
                lo <= j < hi - 1 && #[trigger] depth(bp, j + 1) == max_occupancy(bp, lo, hi - 1);
            assert(depth(bp, j + 1) == max_occupancy(bp, lo, hi));
        }
    }
}

/// Over a run of `Start` events the depth only rises.
proof fn lemma_depth_rises(bp: Seq<(i64, Cap)>, lo: int, hi: int)
    requires
        0 <= lo <= hi <= bp.len(),
        forall|j: int| lo <= j < hi ==> (#[trigger] bp[j]).1 == Cap::Start,
    ensures
        depth(bp, hi) >= depth(bp, lo),
    decreases hi - lo,
{
    if lo < hi {
        lemma_depth_step(bp, hi - 1);
        lemma_depth_rises(bp, lo, hi - 1);
    }
}

/// The result owed for meeting `k` of a valid batch is exactly the peak
/// number of meetings simultaneously open at an instant within that
/// meeting's span: no instant of the span sees more, and some instant of
/// the span sees exactly that many.
pub proof fn lemma_peak_is_pointwise_concurrency(ms: Seq<(i64, i64)>, k: int)
    requires
        valid_all(ms),
        0 <= k < ms.len(),
    ensures
        forall|p: i64|
            ms[k].0 <= p < ms[k].1 ==> #[trigger] active_at(ms, p) <= max_overlap_spec(ms, k),
        exists|p: i64|
            ms[k].0 <= p < ms[k].1 && #[trigger] active_at(ms, p) == max_overlap_spec(ms, k),
{
    lemma_range_shape(ms, k);
    let bp = sorted_events_of(ms);
    let m = ms[k];
    let r = event_leq();
    let f = start_index_spec(m, bp);
    let e = end_index_spec(m, bp) - 1;
    let mx = max_overlap_spec(ms, k);
    assert(mx == max_occupancy(bp, f, e + 1));

    // Upper bound: the depth at the cut of any instant of the span is
    // recorded inside the located range.
    assert forall|p: i64| m.0 <= p < m.1 implies #[trigger] active_at(ms, p) <= mx by {
        let c = cut_index(bp, p);
        lemma_cut(bp, p, 0);
        lemma_depth_at_cut(ms, bp, p);
        if c <= f {
            assert(bp[c].0 > p);
            assert(r(bp[c], bp[f]) || c == f);
            assert(false);
        }
        if c - 1 > e {
            assert(bp[c - 1].0 <= p);
            assert(r(bp[e], bp[c - 1]));
            assert(event_le(bp[e], bp[c - 1]));
            assert(false);
        }
        lemma_max_occupancy_ge(bp, f, e + 1, c - 1);
    }

    // Witness: the max is attained after some event of the range, that
    // event is a `Start` strictly inside the span, and at its position the
    // open count equals the max.
    lemma_max_attained(bp, f, e + 1);
    let j0 = choose|j: int| f <= j < e + 1 && #[trigger] depth(bp, j + 1) == max_occupancy(
        bp,
        f,
        e + 1,
    );
    if bp[j0].1 == Cap::End {
        assert(j0 != f);
        lemma_depth_step(bp, j0);
        lemma_max_occupancy_ge(bp, f, e + 1, j0 - 1);
        assert(false);
    }
    assert(j0 != e);
    let pos = bp[j0].0;
    if f < j0 {
        assert(r(bp[f], bp[j0]));
        assert(event_le(bp[f], bp[j0]));
    }
    assert(m.0 <= pos < m.1);

    let c = cut_index(bp, pos);
    lemma_cut(bp, pos, 0);
    lemma_depth_at_cut(ms, bp, pos);
    if c <= j0 {
        assert(bp[c].0 > pos);
        assert(r(bp[c], bp[j0]) || c == j0);
        assert(false);
    }
    if c - 1 > e {
        assert(bp[c - 1].0 <= pos);
        assert(r(bp[e], bp[c - 1]));
        assert(event_le(bp[e], bp[c - 1]));
        assert(false);
    }
    assert forall|j: int| j0 + 1 <= j < c implies (#[trigger] bp[j]).1 == Cap::Start by {
        assert(r(bp[j0], bp[j]));
        assert(event_le(bp[j0], bp[j]));
        assert(bp[j].0 <= pos);
    }
    lemma_depth_rises(bp, j0 + 1, c);
    lemma_max_occupancy_ge(bp, f, e + 1, c - 1);
    assert(active_at(ms, pos) == mx);
    assert(m.0 <= pos < m.1 && active_at(ms, pos) == mx);
}

} // verus!
