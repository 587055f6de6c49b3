//! The sweep itself: the running occupancy count over the sorted events,
//! and the location of the event range relevant to one interval.

use vstd::prelude::*;
use vstd::relations::sorted_by;
use crate::counting::{
    count_if, lemma_count_at_least_one, lemma_count_concat, lemma_count_implies_le,
    lemma_count_multiset, lemma_count_push, lemma_count_zero,
};
use crate::events::{event_le, event_leq, events_of, Cap};

verus! {

/// Predicate picking the `Start` events.
pub open spec fn start_pred() -> spec_fn((i64, Cap)) -> bool {
    |e: (i64, Cap)| e.1 == Cap::Start
}

/// Predicate picking the `End` events.
pub open spec fn end_pred() -> spec_fn((i64, Cap)) -> bool {
    |e: (i64, Cap)| e.1 == Cap::End
}

/// Predicate picking the `End` events at position at most `p`.
pub open spec fn end_le_pred(p: i64) -> spec_fn((i64, Cap)) -> bool {
    |e: (i64, Cap)| e.1 == Cap::End && e.0 <= p
}

/// Predicate picking the `Start` events at position strictly before `p`.
pub open spec fn start_lt_pred(p: i64) -> spec_fn((i64, Cap)) -> bool {
    |e: (i64, Cap)| e.1 == Cap::Start && e.0 < p
}

/// Predicate picking the meetings that end at or before `p`.
pub open spec fn meeting_end_le_pred(p: i64) -> spec_fn((i64, i64)) -> bool {
    |m: (i64, i64)| m.1 <= p
}

/// Predicate picking the meetings that start strictly before `p`.
pub open spec fn meeting_start_lt_pred(p: i64) -> spec_fn((i64, i64)) -> bool {
    |m: (i64, i64)| m.0 < p
}

/// Every meeting has its start strictly before its end.
pub open spec fn valid_all(meetings: Seq<(i64, i64)>) -> bool {
    forall|i: int| 0 <= i < meetings.len() ==> (#[trigger] meetings[i]).0 < meetings[i].1
}

/// The number of intervals open after the first `i` events have been
/// processed: starts seen minus ends seen.
pub open spec fn depth(s: Seq<(i64, Cap)>, i: int) -> int {
    count_if(s.take(i), start_pred()) - count_if(s.take(i), end_pred())
}

/// Processing one more event moves the depth up for a `Start` and down for
/// an `End`.
pub proof fn lemma_depth_step(s: Seq<(i64, Cap)>, i: int)
    requires
        0 <= i < s.len(),
    ensures
        depth(s, i + 1) == depth(s, i) + if s[i].1 == Cap::Start {
            1int
        } else {
            -1int
        },
{
    assert(s.take(i + 1) =~= s.take(i).push(s[i]));
    lemma_count_push(s.take(i), s[i], start_pred());
    lemma_count_push(s.take(i), s[i], end_pred());
    assert(s[i].1 == Cap::End || s[i].1 == Cap::Start);
}

/// The depth after no events is zero.
pub proof fn lemma_depth_zero(s: Seq<(i64, Cap)>)
    ensures
        depth(s, 0) == 0,
{
    assert(s.take(0) =~= Seq::<(i64, Cap)>::empty());
    assert(count_if(Seq::<(i64, Cap)>::empty(), start_pred()) == 0);
    assert(count_if(Seq::<(i64, Cap)>::empty(), end_pred()) == 0);
}

/// Just before an `End` event of a sorted event sequence that arose from
/// valid meetings, at least one interval is open: every end at or before
/// that position belongs to a meeting that started strictly before it.
pub proof fn lemma_depth_before_end(ms: Seq<(i64, i64)>, bp: Seq<(i64, Cap)>, i: int)
    requires
        valid_all(ms),
        sorted_by(bp, event_leq()),
        bp.to_multiset() == events_of(ms).to_multiset(),
        0 <= i < bp.len(),
        bp[i].1 == Cap::End,
    ensures
        depth(bp, i) >= 1,
{
    let p = bp[i].0;
    let prefix = bp.take(i);
    let suffix = bp.skip(i);
    let r = event_leq();

    // Every `End` event in the prefix sits at position at most `p`.
    assert forall|j: int| 0 <= j < prefix.len() && #[trigger] end_pred()(prefix[j])
        implies end_le_pred(p)(prefix[j]) by {
        assert(r(bp[j], bp[i]));
        assert(event_le(bp[j], bp[i]));
    }
    lemma_count_implies_le(prefix, end_pred(), end_le_pred(p));

    // The whole sequence holds one more such `End` event: `bp[i]` itself.
    assert(bp =~= prefix + suffix);
    lemma_count_concat(prefix, suffix, end_le_pred(p));
    assert(suffix[0] == bp[i]);
    assert(end_le_pred(p)(suffix[0]));
    lemma_count_at_least_one(suffix, 0, end_le_pred(p));

    // No `Start` event strictly before `p` sits at or after index `i`.
    assert forall|j: int| 0 <= j < suffix.len() implies !(#[trigger] start_lt_pred(p)(suffix[j])) by {
        if j > 0 {
            assert(r(bp[i], bp[i + j]));
            assert(event_le(bp[i], bp[i + j]));
        }
    }
    lemma_count_zero(suffix, start_lt_pred(p));
    lemma_count_concat(prefix, suffix, start_lt_pred(p));

    // A `Start` strictly before `p` is in particular a `Start`.
    assert forall|j: int| 0 <= j < prefix.len() && #[trigger] start_lt_pred(p)(prefix[j])
        implies start_pred()(prefix[j]) by {}
    lemma_count_implies_le(prefix, start_lt_pred(p), start_pred());

    // Move both counts over to the raw event sequence and then to the
    // meetings themselves.
    lemma_count_multiset(bp, events_of(ms), end_le_pred(p));
    lemma_count_multiset(bp, events_of(ms), start_lt_pred(p));
    lemma_events_count_end_le(ms, p);
    lemma_events_count_start_lt(ms, p);

    // A meeting that ends at or before `p` started strictly before `p`.
    assert forall|j: int| 0 <= j < ms.len() && #[trigger] meeting_end_le_pred(p)(ms[j])
        implies meeting_start_lt_pred(p)(ms[j]) by {
        assert(ms[j].0 < ms[j].1);
    }
    lemma_count_implies_le(ms, meeting_end_le_pred(p), meeting_start_lt_pred(p));
}

/// Counting `End` events at position at most `p` over the raw event
/// sequence counts the meetings that end at or before `p`.
pub proof fn lemma_events_count_end_le(ms: Seq<(i64, i64)>, p: i64)
    ensures
        count_if(events_of(ms), end_le_pred(p)) == count_if(ms, meeting_end_le_pred(p)),
    decreases ms.len(),
{
    if ms.len() == 0 {
        assert(events_of(ms) =~= Seq::<(i64, Cap)>::empty());
    } else {
        let shorter = ms.drop_last();
        let m = ms.last();
        lemma_events_count_end_le(shorter, p);
        assert(events_of(ms) =~= events_of(shorter).push((m.0, Cap::Start)).push(
            (m.1, Cap::End),
        ));
        lemma_count_push(events_of(shorter), (m.0, Cap::Start), end_le_pred(p));
        lemma_count_push(events_of(shorter).push((m.0, Cap::Start)), (m.1, Cap::End),
            end_le_pred(p));
    }
}

/// Counting `Start` events strictly before `p` over the raw event sequence
/// counts the meetings that start strictly before `p`.
proof fn lemma_events_count_start_lt(ms: Seq<(i64, i64)>, p: i64)
    ensures
        count_if(events_of(ms), start_lt_pred(p)) == count_if(ms, meeting_start_lt_pred(p)),
    decreases ms.len(),
{
    if ms.len() == 0 {
        assert(events_of(ms) =~= Seq::<(i64, Cap)>::empty());
    } else {
        let shorter = ms.drop_last();
        let m = ms.last();
        lemma_events_count_start_lt(shorter, p);
        assert(events_of(ms) =~= events_of(shorter).push((m.0, Cap::Start)).push(
            (m.1, Cap::End),
        ));
        lemma_count_push(events_of(shorter), (m.0, Cap::Start), start_lt_pred(p));
        lemma_count_push(events_of(shorter).push((m.0, Cap::Start)), (m.1, Cap::End),
            start_lt_pred(p));
    }
}

/// The running count never goes negative on the sorted event sequence of
/// valid meetings.
pub proof fn lemma_depth_nonneg(ms: Seq<(i64, i64)>, bp: Seq<(i64, Cap)>, i: int)
    requires
        valid_all(ms),
        sorted_by(bp, event_leq()),
        bp.to_multiset() == events_of(ms).to_multiset(),
        0 <= i <= bp.len(),
    ensures
        depth(bp, i) >= 0,
    decreases i,
{
    if i == 0 {
        lemma_depth_zero(bp);
    } else {
        lemma_depth_nonneg(ms, bp, i - 1);
        lemma_depth_step(bp, i - 1);
        if bp[i - 1].1 == Cap::End {
            lemma_depth_before_end(ms, bp, i - 1);
        }
    }
}

/// Sweeps the sorted events once, recording after each event the number of
/// intervals open at that point: `Start` increments, `End` decrements.
#[verifier::loop_isolation(false)]
pub fn create_stack_count(breakpoints: &Vec<(i64, Cap)>) -> (r: Vec<usize>)
    requires
        forall|i: int| 0 <= i <= breakpoints@.len() ==> depth(breakpoints@, i) >= 0,
    ensures
        r@.len() == breakpoints@.len(),
        forall|i: int| 0 <= i < r@.len() ==> #[trigger] r@[i] as int == depth(breakpoints@, i + 1),
{
    let mut count: Vec<usize> = Vec::new();
    let mut curr: usize = 0;
    let mut k: usize = 0;
    while k < breakpoints.len()
        invariant
            k <= breakpoints@.len(),
            curr <= k,
            curr as int == depth(breakpoints@, k as int),
            count@.len() == k,
            forall|i: int| 0 <= i < k ==> #[trigger] count@[i] as int == depth(breakpoints@, i + 1),
        decreases breakpoints@.len() - k,
    {
        proof {
            lemma_depth_step(breakpoints@, k as int);
        }
        if breakpoints[k].1 == Cap::Start {
            curr = curr + 1;
        } else {
            curr = curr - 1;
        }
        count.push(curr);
        k = k + 1;
    }
    count
}

/// An event that the range locator steps over for the given meeting: one
/// strictly before the meeting's start, or an `End` exactly at its start,
/// since that `End` says nothing about occupancy during the meeting.
pub open spec fn skippable(m: (i64, i64), e: (i64, Cap)) -> bool {
    e.0 < m.0 || (e.0 == m.0 && e.1 == Cap::End)
}

/// The first index at or after `i` whose event is not stepped over for `m`.
pub open spec fn first_relevant_from(m: (i64, i64), bp: Seq<(i64, Cap)>, i: int) -> int
    decreases bp.len() - i,
{
    if i >= bp.len() {
        i
    } else if skippable(m, bp[i]) {
        first_relevant_from(m, bp, i + 1)
    } else {
        i
    }
}

/// The first event index relevant to the meeting `m`.
pub open spec fn start_index_spec(m: (i64, i64), bp: Seq<(i64, Cap)>) -> int {
    first_relevant_from(m, bp, 0)
}

/// The first index at or after `i` that is past the events, or whose event
/// sits at or after the meeting's end.
pub open spec fn end_scan_from(m: (i64, i64), bp: Seq<(i64, Cap)>, i: int) -> int
    decreases bp.len() - i,
{
    if i >= bp.len() {
        i
    } else if bp[i].0 < m.1 {
        end_scan_from(m, bp, i + 1)
    } else {
        i
    }
}

/// The exclusive upper end of the event range relevant to the meeting `m`:
/// one past the first event at or after its end.
pub open spec fn end_index_spec(m: (i64, i64), bp: Seq<(i64, Cap)>) -> int {
    end_scan_from(m, bp, start_index_spec(m, bp)) + 1
}

/// What `first_relevant_from` finds: everything before it is stepped over,
/// and the found event, if any, is not.
pub proof fn lemma_first_relevant(m: (i64, i64), bp: Seq<(i64, Cap)>, i: int)
    requires
        0 <= i <= bp.len(),
    ensures
        i <= first_relevant_from(m, bp, i) <= bp.len(),
        forall|j: int| i <= j < first_relevant_from(m, bp, i) ==> skippable(m, #[trigger] bp[j]),
        first_relevant_from(m, bp, i) < bp.len() ==> !skippable(
            m,
            bp[first_relevant_from(m, bp, i)],
        ),
    decreases bp.len() - i,
{
    if i < bp.len() && skippable(m, bp[i]) {
        lemma_first_relevant(m, bp, i + 1);
    }
}

/// What `end_scan_from` finds: everything from `i` up to it sits strictly
/// before the meeting's end, and the found event, if any, does not.
pub proof fn lemma_end_scan(m: (i64, i64), bp: Seq<(i64, Cap)>, i: int)
    requires
        0 <= i <= bp.len(),
    ensures
        i <= end_scan_from(m, bp, i) <= bp.len(),
        forall|j: int| i <= j < end_scan_from(m, bp, i) ==> (#[trigger] bp[j]).0 < m.1,
        end_scan_from(m, bp, i) < bp.len() ==> !(bp[end_scan_from(m, bp, i)].0 < m.1),
    decreases bp.len() - i,
{
    if i < bp.len() && bp[i].0 < m.1 {
        lemma_end_scan(m, bp, i + 1);
    }
}

/// Finds the half-open index range of the sorted events that is relevant to
/// the given meeting: from the first event not stepped over up to and
/// including the first event at or after the meeting's end.
#[verifier::loop_isolation(false)]
pub fn slice_index(
    meeting: &(i64, i64),
    breakpoints: &Vec<(i64, Cap)>,
    num_meetings: usize,
) -> (r: (usize, usize))
    requires
        meeting.0 < meeting.1,
        breakpoints@.len() == 2 * num_meetings,
        sorted_by(breakpoints@, event_leq()),
        exists|k: int|
            0 <= k < breakpoints@.len() && breakpoints@[k] == (meeting.0, Cap::Start),
        exists|k: int|
            0 <= k < breakpoints@.len() && breakpoints@[k] == (meeting.1, Cap::End),
    ensures
        r.0 as int == start_index_spec(*meeting, breakpoints@),
        r.1 as int == end_index_spec(*meeting, breakpoints@),
        r.0 < r.1 <= breakpoints@.len(),
{
    let ghost bp = breakpoints@;
    let ghost m = *meeting;
    let ghost f = start_index_spec(m, bp);
    proof {
        broadcast use vstd::std_specs::vec::axiom_spec_len;

        assert(breakpoints.len() == bp.len());
        lemma_first_relevant(m, bp, 0);
        let ks = choose|k: int| 0 <= k < bp.len() && bp[k] == (m.0, Cap::Start);
        assert(!skippable(m, bp[ks]));
        assert(f <= ks < bp.len());
    }
    let mut start_index: usize = 0;
    while breakpoints[start_index].0 < meeting.0 || (breakpoints[start_index].0 == meeting.0
        && breakpoints[start_index].1 == Cap::End)
        invariant
            0 <= start_index <= f,
            f < bp.len(),
            bp.len() <= usize::MAX,
            !skippable(m, bp[f]),
        decreases f - start_index,
    {
        assert(skippable(m, bp[start_index as int]));
        assert((start_index as int) < f);
        start_index = start_index + 1;
    }
    assert(!skippable(m, bp[start_index as int]));
    assert(start_index as int == f);

    let ghost e = end_scan_from(m, bp, f);
    proof {
        lemma_end_scan(m, bp, f);
        let ke = choose|k: int| 0 <= k < bp.len() && bp[k] == (m.1, Cap::End);
        assert(!skippable(m, bp[ke]));
        assert(f <= ke);
        assert(!(bp[ke].0 < m.1));
        assert(e <= ke < bp.len());
    }
    proof {
        broadcast use vstd::std_specs::vec::axiom_spec_len;

        assert(breakpoints.len() == bp.len());
    }
    let mut end_index: usize = start_index;
    while end_index < 2 * num_meetings && breakpoints[end_index].0 < meeting.1
        invariant
            f <= end_index <= e,
            e < bp.len(),
            2 * num_meetings == bp.len(),
            forall|j: int| f <= j < e ==> (#[trigger] bp[j]).0 < m.1,
        decreases e - end_index,
    {
        end_index = end_index + 1;
    }
    assert(end_index as int == e);
    (start_index, end_index + 1)
}

} // verus!
