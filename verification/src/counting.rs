//! Counting elements of a sequence that satisfy a predicate, and the
//! facts about such counts that the sweep-line proofs need.

use vstd::prelude::*;

verus! {

/// The number of elements of `s` that satisfy `f`.
pub open spec fn count_if<A>(s: Seq<A>, f: spec_fn(A) -> bool) -> int
    decreases s.len(),
{
    if s.len() == 0 {
        0
    } else {
        count_if(s.drop_last(), f) + if f(s.last()) {
            1int
        } else {
            0int
        }
    }
}

/// A count is between 0 and the length of the sequence.
pub proof fn lemma_count_bounds<A>(s: Seq<A>, f: spec_fn(A) -> bool)
    ensures
        0 <= count_if(s, f) <= s.len(),
    decreases s.len(),
{
    if s.len() > 0 {
        lemma_count_bounds(s.drop_last(), f);
    }
}

/// Pushing one element changes the count by 0 or 1, depending on `f`.
pub proof fn lemma_count_push<A>(s: Seq<A>, e: A, f: spec_fn(A) -> bool)
    ensures
        count_if(s.push(e), f) == count_if(s, f) + if f(e) {
            1int
        } else {
            0int
        },
{
    assert(s.push(e).drop_last() =~= s);
    assert(s.push(e).last() == e);
}

/// Counts add up over concatenation.
pub proof fn lemma_count_concat<A>(a: Seq<A>, b: Seq<A>, f: spec_fn(A) -> bool)
    ensures
        count_if(a + b, f) == count_if(a, f) + count_if(b, f),
    decreases b.len(),
{
    if b.len() == 0 {
        assert(a + b =~= a);
    } else {
        lemma_count_concat(a, b.drop_last(), f);
        assert((a + b).drop_last() =~= a + b.drop_last());
        assert((a + b).last() == b.last());
    }
}

/// Removing one element lowers the count by 0 or 1, depending on `f`.
pub proof fn lemma_count_remove<A>(s: Seq<A>, i: int, f: spec_fn(A) -> bool)
    requires
        0 <= i < s.len(),
    ensures
        count_if(s.remove(i), f) == count_if(s, f) - if f(s[i]) {
            1int
        } else {
            0int
        },
{
    let left = s.subrange(0, i);
    let right = s.subrange(i + 1, s.len() as int);
    assert(s.remove(i) == left + right);
    assert(s =~= left + (seq![s[i]] + right));
    lemma_count_concat(left, right, f);
    lemma_count_concat(left, seq![s[i]] + right, f);
    lemma_count_concat(seq![s[i]], right, f);
    let single = seq![s[i]];
    assert(single.drop_last() =~= Seq::<A>::empty());
    assert(count_if(Seq::<A>::empty(), f) == 0);
    assert(count_if(single, f) == if f(s[i]) {
        1int
    } else {
        0int
    });
}

/// The count depends only on the multiset of elements: two sequences with
/// the same multiset have the same count.
pub proof fn lemma_count_multiset<A>(s: Seq<A>, t: Seq<A>, f: spec_fn(A) -> bool)
    requires
        s.to_multiset() == t.to_multiset(),
    ensures
        count_if(s, f) == count_if(t, f),
    decreases s.len(),
{
    broadcast use vstd::seq_lib::group_to_multiset_ensures;

    assert(s.to_multiset().len() == s.len());
    assert(t.to_multiset().len() == t.len());
    if s.len() == 0 {
        assert(t.len() == 0);
    } else {
        let e = s.last();
        assert(s.contains(e));
        assert(t.to_multiset().count(e) > 0);
        assert(t.contains(e));
        let j = choose|j: int| 0 <= j < t.len() && t[j] == e;
        assert(s.drop_last() =~= s.remove(s.len() - 1));
        assert(s.remove(s.len() - 1).to_multiset() == s.to_multiset().remove(e));
        assert(t.remove(j).to_multiset() == t.to_multiset().remove(e));
        lemma_count_multiset(s.drop_last(), t.remove(j), f);
        lemma_count_remove(t, j, f);
    }
}

/// If `f` implies `g` pointwise on `s`, counting `f` gives at most
/// counting `g`.
pub proof fn lemma_count_implies_le<A>(s: Seq<A>, f: spec_fn(A) -> bool, g: spec_fn(A) -> bool)
    requires
        forall|i: int| 0 <= i < s.len() && #[trigger] f(s[i]) ==> g(s[i]),
    ensures
        count_if(s, f) <= count_if(s, g),
    decreases s.len(),
{
    if s.len() > 0 {
        assert(forall|i: int|
            0 <= i < s.drop_last().len() && #[trigger] f(s.drop_last()[i]) ==> g(s.drop_last()[i]));
        lemma_count_implies_le(s.drop_last(), f, g);
    }
}

/// If no element of `s` satisfies `f`, the count is zero.
pub proof fn lemma_count_zero<A>(s: Seq<A>, f: spec_fn(A) -> bool)
    requires
        forall|i: int| 0 <= i < s.len() ==> !(#[trigger] f(s[i])),
    ensures
        count_if(s, f) == 0,
    decreases s.len(),
{
    if s.len() > 0 {
        assert(forall|i: int| 0 <= i < s.drop_last().len() ==> !(#[trigger] f(s.drop_last()[i])));
        lemma_count_zero(s.drop_last(), f);
    }
}

/// If `f` and `g` agree pointwise on `s`, their counts agree.
pub proof fn lemma_count_equiv<A>(s: Seq<A>, f: spec_fn(A) -> bool, g: spec_fn(A) -> bool)
    requires
        forall|i: int| 0 <= i < s.len() ==> (#[trigger] f(s[i]) <==> g(s[i])),
    ensures
        count_if(s, f) == count_if(s, g),
    decreases s.len(),
{
    if s.len() > 0 {
        assert(forall|i: int|
            0 <= i < s.drop_last().len() ==> (#[trigger] f(s.drop_last()[i]) <==> g(
                s.drop_last()[i],
            )));
        lemma_count_equiv(s.drop_last(), f, g);
    }
}

/// If `h` holds exactly where `f` holds and `g` does not, and `g` implies
/// `f` pointwise, then counting `h` counts the difference.
pub proof fn lemma_count_difference<A>(
    s: Seq<A>,
    f: spec_fn(A) -> bool,
    g: spec_fn(A) -> bool,
    h: spec_fn(A) -> bool,
)
    requires
        forall|i: int| 0 <= i < s.len() ==> (#[trigger] h(s[i]) <==> f(s[i]) && !g(s[i])),
        forall|i: int| 0 <= i < s.len() ==> (#[trigger] g(s[i]) ==> f(s[i])),
    ensures
        count_if(s, h) == count_if(s, f) - count_if(s, g),
    decreases s.len(),
{
    if s.len() > 0 {
        let t = s.drop_last();
        assert(forall|i: int| 0 <= i < t.len() ==> (#[trigger] h(t[i]) <==> f(t[i]) && !g(t[i])));
        assert(forall|i: int| 0 <= i < t.len() ==> (#[trigger] g(t[i]) ==> f(t[i])));
        lemma_count_difference(t, f, g, h);
    }
}

/// If some element of `s` satisfies `f`, the count is at least one.
pub proof fn lemma_count_at_least_one<A>(s: Seq<A>, i: int, f: spec_fn(A) -> bool)
    requires
        0 <= i < s.len(),
        f(s[i]),
    ensures
        count_if(s, f) >= 1,
{
    lemma_count_remove(s, i, f);
    lemma_count_bounds(s.remove(i), f);
}

} // verus!
