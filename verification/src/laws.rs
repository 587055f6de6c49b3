//! The laws of the library: facts that relate several of its functions, or
//! several calls, stated over the same spec functions that the functions'
//! own contracts use.

use vstd::prelude::*;
use vstd::relations::sorted_by;
use vstd::seq_lib::{lemma_multiset_commutative, lemma_sorted_unique};
use crate::events::{event_leq, events_of, lemma_event_le_total, sorted_events_of, Cap};
use crate::overlap::{max_occupancy, max_overlap_spec, overlap_of};
use crate::sweep::{
    depth, end_index_spec, end_scan_from, first_relevant_from, lemma_depth_step,
    lemma_depth_zero, skippable, start_index_spec,
};

verus! {

/// The computation is deterministic: any two result sequences that meet
/// `solve_max_overlap`'s contract for the same input are equal.
pub proof fn lemma_determinism(ms: Seq<(i64, i64)>, v1: Seq<usize>, v2: Seq<usize>)
    requires
        v1.len() == ms.len(),
        v2.len() == ms.len(),
        forall|k: int| 0 <= k < ms.len() ==> #[trigger] v1[k] as int == max_overlap_spec(ms, k),
        forall|k: int| 0 <= k < ms.len() ==> #[trigger] v2[k] as int == max_overlap_spec(ms, k),
    ensures
        v1 == v2,
{
    assert(v1 =~= v2);
}

/// The events of a concatenated batch are the concatenated events.
proof fn lemma_events_concat(a: Seq<(i64, i64)>, b: Seq<(i64, i64)>)
    ensures
        events_of(a + b) == events_of(a) + events_of(b),
{
    let lhs = events_of(a + b);
    let rhs = events_of(a) + events_of(b);
    assert forall|i: int| 0 <= i < lhs.len() implies lhs[i] == rhs[i] by {
        if i < 2 * a.len() {
            assert((a + b)[i / 2] == a[i / 2]);
        } else {
            assert((i - 2 * a.len()) / 2 == i / 2 - a.len());
            assert((i - 2 * a.len()) % 2 == i % 2);
            assert((a + b)[i / 2] == b[i / 2 - a.len()]);
        }
    }
    assert(lhs =~= rhs);
}

/// Batches with the same multiset of intervals give the same multiset of
/// endpoint events.
proof fn lemma_events_multiset(ms1: Seq<(i64, i64)>, ms2: Seq<(i64, i64)>)
    requires
        ms1.to_multiset() == ms2.to_multiset(),
    ensures
        events_of(ms1).to_multiset() == events_of(ms2).to_multiset(),
    decreases ms2.len(),
{
    broadcast use vstd::seq_lib::group_to_multiset_ensures;
    broadcast use vstd::multiset::group_multiset_axioms;

    assert(ms1.to_multiset().len() == ms1.len());
    assert(ms2.to_multiset().len() == ms2.len());
    if ms2.len() == 0 {
        assert(events_of(ms1) =~= events_of(ms2));
    } else {
        let x = ms2.last();
        assert(ms2.contains(x));
        assert(ms2.to_multiset().count(x) > 0);
        assert(ms1.to_multiset().count(x) > 0);
        assert(ms1.contains(x));
        let t = choose|t: int| 0 <= t < ms1.len() && ms1[t] == x;
        assert(ms2.drop_last() =~= ms2.remove(ms2.len() - 1));
        assert(ms2.remove(ms2.len() - 1).to_multiset() == ms2.to_multiset().remove(x));
        assert(ms1.remove(t).to_multiset() == ms1.to_multiset().remove(x));
        lemma_events_multiset(ms1.remove(t), ms2.drop_last());

        let left = ms1.subrange(0, t);
        let right = ms1.subrange(t + 1, ms1.len() as int);
        assert(ms1 =~= left + (seq![x] + right));
        assert(ms1.remove(t) == left + right);
        lemma_events_concat(left, seq![x] + right);
        lemma_events_concat(seq![x], right);
        lemma_events_concat(left, right);
        lemma_multiset_commutative(events_of(left), events_of(seq![x]) + events_of(right));
        lemma_multiset_commutative(events_of(seq![x]), events_of(right));
        lemma_multiset_commutative(events_of(left), events_of(right));
        assert(ms2 =~= ms2.drop_last() + seq![x]);
        lemma_events_concat(ms2.drop_last(), seq![x]);
        lemma_multiset_commutative(events_of(ms2.drop_last()), events_of(seq![x]));
        assert(events_of(ms1).to_multiset() =~= events_of(ms2).to_multiset());
    }
}

/// Permuting the input batch permutes the output identically: the result
/// owed to a meeting depends only on the meeting itself and on the batch as
/// a multiset, so whenever two batches are permutations of one another,
/// matching meetings are owed the same value.
pub proof fn lemma_order_independence(
    ms1: Seq<(i64, i64)>,
    ms2: Seq<(i64, i64)>,
    i: int,
    j: int,
)
    requires
        ms1.to_multiset() == ms2.to_multiset(),
        0 <= i < ms1.len(),
        0 <= j < ms2.len(),
        ms1[i] == ms2[j],
    ensures
        max_overlap_spec(ms1, i) == max_overlap_spec(ms2, j),
{
    lemma_event_le_total();
    lemma_events_multiset(ms1, ms2);
    events_of(ms1).lemma_sort_by_ensures(event_leq());
    events_of(ms2).lemma_sort_by_ensures(event_leq());
    lemma_sorted_unique(sorted_events_of(ms1), sorted_events_of(ms2), event_leq());
    assert(sorted_events_of(ms1) == sorted_events_of(ms2));
}

/// The sequence of results owed for a batch, one value per meeting, in
/// input order.
pub open spec fn results_spec(ms: Seq<(i64, i64)>) -> Seq<int> {
    Seq::new(ms.len(), |k: int| max_overlap_spec(ms, k))
}

/// The peak occupancy of one meeting, read off a fixed sorted event
/// sequence, as a function value.
spec fn overlap_with(bp: Seq<(i64, Cap)>) -> spec_fn((i64, i64)) -> int {
    |m: (i64, i64)| overlap_of(m, bp)
}

/// Mapping a function over two sequences with the same multiset of
/// elements gives two sequences with the same multiset of images.
proof fn lemma_map_multiset<A, B>(s: Seq<A>, t: Seq<A>, f: spec_fn(A) -> B)
    requires
        s.to_multiset() == t.to_multiset(),
    ensures
        s.map_values(f).to_multiset() == t.map_values(f).to_multiset(),
    decreases s.len(),
{
    broadcast use vstd::seq_lib::group_to_multiset_ensures;
    broadcast use vstd::multiset::group_multiset_axioms;

    assert(s.to_multiset().len() == s.len());
    assert(t.to_multiset().len() == t.len());
    if s.len() == 0 {
        assert(s.map_values(f) =~= t.map_values(f));
    } else {
        let e = s.last();
        assert(s.contains(e));
        assert(s.to_multiset().count(e) > 0);
        assert(t.to_multiset().count(e) > 0);
        assert(t.contains(e));
        let j = choose|j: int| 0 <= j < t.len() && t[j] == e;
        assert(s.drop_last() =~= s.remove(s.len() - 1));
        assert(s.remove(s.len() - 1).to_multiset() == s.to_multiset().remove(e));
        assert(t.remove(j).to_multiset() == t.to_multiset().remove(e));
        lemma_map_multiset(s.drop_last(), t.remove(j), f);
        assert(s.map_values(f) =~= s.drop_last().map_values(f).push(f(e)));
        assert(s.map_values(f).to_multiset() == s.drop_last().map_values(f).to_multiset().insert(
            f(e),
        ));
        assert(t.remove(j).map_values(f) =~= t.map_values(f).remove(j));
        assert(t.map_values(f).remove(j).to_multiset() == t.map_values(f).to_multiset().remove(
            t.map_values(f)[j],
        ));
        assert(t.map_values(f)[j] == f(e));
        assert(t.map_values(f).contains(f(e)));
        assert(t.map_values(f).to_multiset().count(f(e)) > 0);
        assert(t.map_values(f).to_multiset().remove(f(e)).insert(f(e)) =~= t.map_values(
            f,
        ).to_multiset());
    }
}

/// Permuting the input batch leaves the multiset of result values as it
/// was: each meeting carries its own peak occupancy with it.
pub proof fn lemma_permutation_value_multiset(ms1: Seq<(i64, i64)>, ms2: Seq<(i64, i64)>)
    requires
        ms1.to_multiset() == ms2.to_multiset(),
    ensures
        results_spec(ms1).to_multiset() == results_spec(ms2).to_multiset(),
{
    lemma_event_le_total();
    lemma_events_multiset(ms1, ms2);
    events_of(ms1).lemma_sort_by_ensures(event_leq());
    events_of(ms2).lemma_sort_by_ensures(event_leq());
    lemma_sorted_unique(sorted_events_of(ms1), sorted_events_of(ms2), event_leq());
    let bp = sorted_events_of(ms1);
    assert(results_spec(ms1) =~= ms1.map_values(overlap_with(bp)));
    assert(results_spec(ms2) =~= ms2.map_values(overlap_with(bp)));
    lemma_map_multiset(ms1, ms2, overlap_with(bp));
}

/// Two intervals that share only a boundary point do not overlap: each is
/// owed a peak occupancy of exactly one.
pub proof fn lemma_boundary_non_overlap(a: i64, b: i64, c: i64)
    requires
        a < b,
        b < c,
    ensures
        max_overlap_spec(seq![(a, b), (b, c)], 0) == 1,
        max_overlap_spec(seq![(a, b), (b, c)], 1) == 1,
{
    lemma_event_le_total();
    let ms = seq![(a, b), (b, c)];
    let ev = events_of(ms);
    assert(ev =~= seq![(a, Cap::Start), (b, Cap::End), (b, Cap::Start), (c, Cap::End)]);
    assert forall|p: int, q: int| 0 <= p < q < ev.len() implies #[trigger] event_leq()(
        ev[p],
        ev[q],
    ) by {}
    assert(sorted_by(ev, event_leq()));
    ev.lemma_sort_by_ensures(event_leq());
    lemma_sorted_unique(ev.sort_by(event_leq()), ev, event_leq());
    assert(sorted_events_of(ms) == ev);

    lemma_depth_zero(ev);
    lemma_depth_step(ev, 0);
    lemma_depth_step(ev, 1);
    lemma_depth_step(ev, 2);
    lemma_depth_step(ev, 3);
    assert(depth(ev, 1) == 1);
    assert(depth(ev, 2) == 0);
    assert(depth(ev, 3) == 1);
    assert(depth(ev, 4) == 0);

    let m0 = (a, b);
    assert(!skippable(m0, ev[0]));
    assert(start_index_spec(m0, ev) == 0);
    assert(end_scan_from(m0, ev, 1) == 1);
    assert(end_scan_from(m0, ev, 0) == 1);
    assert(end_index_spec(m0, ev) == 2);
    assert(max_occupancy(ev, 0, 1) == 1);
    assert(max_occupancy(ev, 0, 2) == 1);

    let m1 = (b, c);
    assert(first_relevant_from(m1, ev, 2) == 2);
    assert(first_relevant_from(m1, ev, 1) == 2);
    assert(first_relevant_from(m1, ev, 0) == 2);
    assert(start_index_spec(m1, ev) == 2);
    assert(end_scan_from(m1, ev, 3) == 3);
    assert(end_scan_from(m1, ev, 2) == 3);
    assert(end_index_spec(m1, ev) == 4);
    assert(max_occupancy(ev, 2, 3) == 1);
    assert(max_occupancy(ev, 2, 4) == 1);
}

} // verus!
