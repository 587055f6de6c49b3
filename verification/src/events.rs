//! Endpoint events: an interval is split into a `Start` and an `End` event,
//! and the events are ordered by position with `End` before `Start` at equal
//! positions, so that back-to-back intervals do not count as overlapping.

use vstd::prelude::*;
use vstd::relations::{sorted_by, total_ordering};
use vstd::seq_lib::lemma_multiset_commutative;

verus! {

/// Tag for one endpoint of an interval: `Start` opens it, `End` closes it.
#[derive(Clone, Copy, Debug, PartialEq, Eq, Structural)]
pub enum Cap {
    End,
    Start,
}

/// The tie-break order on endpoint events: by position ascending, and at
/// equal positions `End` before `Start`, so a meeting ending at time T does
/// not overlap a meeting starting at T.
pub open spec fn event_le(a: (i64, Cap), b: (i64, Cap)) -> bool {
    a.0 < b.0 || (a.0 == b.0 && (a.1 == Cap::End || b.1 == Cap::Start))
}

/// The event order as a function value, for vstd's sorting vocabulary.
pub open spec fn event_leq() -> spec_fn((i64, Cap), (i64, Cap)) -> bool {
    |a: (i64, Cap), b: (i64, Cap)| event_le(a, b)
}

/// `event_le` is a total order on events.
pub proof fn lemma_event_le_total()
    ensures
        total_ordering(event_leq()),
{
    let r = event_leq();
    assert forall|x: (i64, Cap)| #[trigger] r(x, x) by {
        assert(x.1 == Cap::End || x.1 == Cap::Start);
    }
    assert forall|x: (i64, Cap), y: (i64, Cap)| #[trigger] r(x, y) && #[trigger] r(y, x)
        implies x == y by {
        assert(x.1 == Cap::End || x.1 == Cap::Start);
        assert(y.1 == Cap::End || y.1 == Cap::Start);
    }
    assert forall|x: (i64, Cap), y: (i64, Cap), z: (i64, Cap)|
        #[trigger] r(x, y) && #[trigger] r(y, z) implies r(x, z) by {}
    assert forall|x: (i64, Cap), y: (i64, Cap)| #[trigger] r(x, y) || #[trigger] r(y, x) by {
        assert(x.1 == Cap::End || x.1 == Cap::Start);
        assert(y.1 == Cap::End || y.1 == Cap::Start);
    }
}

/// The unsorted event sequence of a meeting sequence: one `Start` event at
/// each start coordinate and one `End` event at each end coordinate, in
/// input order.
pub open spec fn events_of(meetings: Seq<(i64, i64)>) -> Seq<(i64, Cap)> {
    Seq::new(
        2 * meetings.len(),
        |i: int|
            if i % 2 == 0 {
                (meetings[i / 2].0, Cap::Start)
            } else {
                (meetings[i / 2].1, Cap::End)
            },
    )
}

/// The event sequence of a meeting sequence, sorted by the tie-break order.
pub open spec fn sorted_events_of(meetings: Seq<(i64, i64)>) -> Seq<(i64, Cap)> {
    events_of(meetings).sort_by(event_leq())
}

/// Decides the tie-break order on two events in executable code.
pub fn event_before(a: (i64, Cap), b: (i64, Cap)) -> (r: bool)
    ensures
        r == event_le(a, b),
{
    a.0 < b.0 || (a.0 == b.0 && (a.1 == Cap::End || b.1 == Cap::Start))
}

/// Inserting an event at the first position whose element does not precede
/// it keeps a sequence sorted, and adds the event to its multiset.
proof fn lemma_insert_sorted(s: Seq<(i64, Cap)>, e: (i64, Cap), i: int)
    requires
        sorted_by(s, event_leq()),
        0 <= i <= s.len(),
        forall|j: int| 0 <= j < i ==> event_le(#[trigger] s[j], e),
        i < s.len() ==> !event_le(s[i], e),
    ensures
        sorted_by(s.insert(i, e), event_leq()),
        s.insert(i, e).to_multiset() == s.to_multiset().insert(e),
{
    broadcast use vstd::seq_lib::group_to_multiset_ensures;
    broadcast use vstd::multiset::group_multiset_axioms;

    let t = s.insert(i, e);
    let r = event_leq();
    s.insert_ensures(i, e);
    assert forall|p: int, q: int| 0 <= p < q < t.len() implies #[trigger] r(t[p], t[q]) by {
        if i < s.len() {
            assert(s[i].1 == Cap::End || s[i].1 == Cap::Start);
            assert(e.1 == Cap::End || e.1 == Cap::Start);
            assert(event_le(e, s[i]));
        }
        if p < i && q < i {
            assert(r(s[p], s[q]));
        } else if p < i && q == i {
            assert(event_le(s[p], e));
        } else if p < i && q > i {
            assert(r(s[p], s[q - 1]));
        } else if p == i && q > i {
            if q - 1 > i {
                assert(r(s[i], s[q - 1]));
                assert(event_le(s[i], s[q - 1]));
            }
        } else {
            assert(r(s[p - 1], s[q - 1]));
        }
    }
    let left = s.subrange(0, i);
    let right = s.subrange(i, s.len() as int);
    assert(t == left.push(e) + right);
    assert(s =~= left + right);
    lemma_multiset_commutative(left.push(e), right);
    lemma_multiset_commutative(left, right);
    assert(left.push(e).to_multiset() =~= left.to_multiset().insert(e));
    assert(t.to_multiset() =~= s.to_multiset().insert(e));
}

/// Converts raw intervals to tagged endpoint events: one `Start` event per
/// interval start and one `End` event per interval end, sorted by position
/// ascending with `End` before `Start` at equal positions.
#[verifier::loop_isolation(false)]
pub fn create_breakpoints(meetings: &Vec<(i64, i64)>) -> (r: Vec<(i64, Cap)>)
    ensures
        r@ == sorted_events_of(meetings@),
        sorted_by(r@, event_leq()),
        r@.to_multiset() == events_of(meetings@).to_multiset(),
        r@.len() == 2 * meetings@.len(),
{
    broadcast use vstd::seq_lib::group_to_multiset_ensures;

    let mut endpoints: Vec<(i64, Cap)> = Vec::new();
    let mut k: usize = 0;
    while k < meetings.len()
        invariant
            k <= meetings@.len(),
            endpoints@ == events_of(meetings@.take(k as int)),
        decreases meetings@.len() - k,
    {
        let meeting = meetings[k];
        endpoints.push((meeting.0, Cap::Start));
        endpoints.push((meeting.1, Cap::End));
        proof {
            assert(endpoints@ =~= events_of(meetings@.take(k as int + 1)));
        }
        k = k + 1;
    }
    assert(endpoints@ =~= events_of(meetings@));

    let mut ordered: Vec<(i64, Cap)> = Vec::new();
    let mut k: usize = 0;
    while k < endpoints.len()
        invariant
            k <= endpoints@.len(),
            ordered@.len() == k,
            sorted_by(ordered@, event_leq()),
            ordered@.to_multiset() == endpoints@.take(k as int).to_multiset(),
        decreases endpoints@.len() - k,
    {
        let e = endpoints[k];
        let mut i: usize = 0;
        while i < ordered.len() && event_before(ordered[i], e)
            invariant
                i <= ordered@.len(),
                forall|j: int| 0 <= j < i ==> event_le(#[trigger] ordered@[j], e),
            decreases ordered@.len() - i,
        {
            i = i + 1;
        }
        proof {
            lemma_insert_sorted(ordered@, e, i as int);
            assert(endpoints@.take(k as int + 1) =~= endpoints@.take(k as int).push(e));
        }
        ordered.insert(i, e);
        k = k + 1;
    }
    proof {
        assert(endpoints@.take(endpoints@.len() as int) =~= endpoints@);
        lemma_event_le_total();
        events_of(meetings@).lemma_sort_by_ensures(event_leq());
        vstd::seq_lib::lemma_sorted_unique(
            ordered@,
            sorted_events_of(meetings@),
            event_leq(),
        );
        assert(ordered@.to_multiset().len() == ordered@.len());
        assert(events_of(meetings@).to_multiset().len() == events_of(meetings@).len());
    }
    ordered
}

} // verus!
