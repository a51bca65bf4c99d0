//! Counting and summation over sequences, together with the lemmas the
//! aggregators rely on: sums are invariant under permutation, bounded by
//! pointwise larger sums, and monotone in the prefix taken.

use vstd::prelude::*;

verus! {

/// The sum of `f` over all elements of `s`.
pub open spec fn sum_by<A>(s: Seq<A>, f: spec_fn(A) -> nat) -> nat
    decreases s.len(),
{
    if s.len() == 0 {
        0
    } else {
        sum_by(s.drop_last(), f) + f(s.last())
    }
}

pub proof fn lemma_sum_by_push<A>(s: Seq<A>, f: spec_fn(A) -> nat, x: A)
    ensures
        sum_by(s.push(x), f) == sum_by(s, f) + f(x),
{
    assert(s.push(x).drop_last() =~= s);
    assert(s.push(x).last() == x);
}

pub proof fn lemma_sum_by_remove<A>(s: Seq<A>, f: spec_fn(A) -> nat, i: int)
    requires
        0 <= i < s.len(),
    ensures
        sum_by(s, f) == sum_by(s.remove(i), f) + f(s[i]),
    decreases s.len(),
{
    if i == s.len() - 1 {
        assert(s.remove(i) =~= s.drop_last());
    } else {
        assert(s.remove(i).drop_last() =~= s.drop_last().remove(i));
        assert(s.remove(i).last() == s.last());
        lemma_sum_by_remove(s.drop_last(), f, i);
        assert(s.drop_last()[i] == s[i]);
    }
}

/// A sum of `f` depends only on which elements occur, with multiplicity,
/// not on their order.
pub proof fn lemma_sum_by_permutation<A>(s1: Seq<A>, s2: Seq<A>, f: spec_fn(A) -> nat)
    requires
        s1.to_multiset() == s2.to_multiset(),
    ensures
        sum_by(s1, f) == sum_by(s2, f),
    decreases s1.len(),
{
    broadcast use vstd::seq_lib::group_to_multiset_ensures;

    if s1.len() == 0 {
        assert(s1.to_multiset().len() == s1.len());
        assert(s2.to_multiset().len() == s2.len());
    } else {
        let x = s1.last();
        assert(s1.contains(x));
        assert(s2.to_multiset().count(x) > 0);
        assert(s2.contains(x));
        let i = choose|i: int| 0 <= i < s2.len() && s2[i] == x;
        assert(s1.drop_last() =~= s1.remove(s1.len() - 1));
        assert(s1.drop_last().to_multiset() == s1.to_multiset().remove(x));
        assert(s2.remove(i).to_multiset() == s2.to_multiset().remove(x));
        lemma_sum_by_permutation(s1.drop_last(), s2.remove(i), f);
        lemma_sum_by_remove(s2, f, i);
    }
}

pub proof fn lemma_sum_by_le<A>(s: Seq<A>, f: spec_fn(A) -> nat, g: spec_fn(A) -> nat)
    requires
        forall|i: int| 0 <= i < s.len() ==> f(#[trigger] s[i]) <= g(s[i]),
    ensures
        sum_by(s, f) <= sum_by(s, g),
    decreases s.len(),
{
    if s.len() > 0 {
        assert(forall|i: int|
            0 <= i < s.drop_last().len() ==> f(#[trigger] s.drop_last()[i]) <= g(s.drop_last()[i]));
        lemma_sum_by_le(s.drop_last(), f, g);
        assert(s.last() == s[s.len() - 1]);
    }
}

pub proof fn lemma_sum_by_take_le<A>(s: Seq<A>, f: spec_fn(A) -> nat, i: int)
    requires
        0 <= i <= s.len(),
    ensures
        sum_by(s.take(i), f) <= sum_by(s, f),
    decreases s.len(),
{
    if i == s.len() {
        assert(s.take(i) =~= s);
    } else {
        assert(s.take(i) =~= s.drop_last().take(i));
        lemma_sum_by_take_le(s.drop_last(), f, i);
    }
}

/// A sum of values that never exceed one is bounded by the length.
pub proof fn lemma_sum_by_bounded_one<A>(s: Seq<A>, f: spec_fn(A) -> nat)
    requires
        forall|i: int| 0 <= i < s.len() ==> f(#[trigger] s[i]) <= 1,
    ensures
        sum_by(s, f) <= s.len(),
    decreases s.len(),
{
    if s.len() > 0 {
        assert(forall|i: int| 0 <= i < s.drop_last().len() ==> #[trigger] s.drop_last()[i] == s[i]);
        lemma_sum_by_bounded_one(s.drop_last(), f);
        assert(s.last() == s[s.len() - 1]);
    }
}

/// A positive sum owes its value to some element.
pub proof fn lemma_sum_by_pos<A>(s: Seq<A>, f: spec_fn(A) -> nat)
    requires
        sum_by(s, f) > 0,
    ensures
        exists|i: int| 0 <= i < s.len() && f(#[trigger] s[i]) > 0,
    decreases s.len(),
{
    if f(s.last()) > 0 {
        assert(s.last() == s[s.len() - 1]);
    } else {
        lemma_sum_by_pos(s.drop_last(), f);
        let i = choose|i: int| 0 <= i < s.drop_last().len() && f(#[trigger] s.drop_last()[i]) > 0;
        assert(s.drop_last()[i] == s[i]);
    }
}

/// When one position contributes `f(s[i])` and every other contributes
/// nothing, the sum is exactly that contribution.
pub proof fn lemma_sum_by_single<A>(s: Seq<A>, f: spec_fn(A) -> nat, i: int)
    requires
        0 <= i < s.len(),
        forall|j: int| 0 <= j < s.len() && j != i ==> f(#[trigger] s[j]) == 0,
    ensures
        sum_by(s, f) == f(s[i]),
{
    lemma_sum_by_remove(s, f, i);
    assert(forall|j: int| 0 <= j < s.remove(i).len() ==> f(#[trigger] s.remove(i)[j]) == 0) by {
        assert(forall|j: int|
            0 <= j < s.remove(i).len() ==> #[trigger] s.remove(i)[j] == (if j < i {
                s[j]
            } else {
                s[j + 1]
            }));
    }
    lemma_sum_by_zero(s.remove(i), f);
}

pub proof fn lemma_sum_by_zero<A>(s: Seq<A>, f: spec_fn(A) -> nat)
    requires
        forall|i: int| 0 <= i < s.len() ==> f(#[trigger] s[i]) == 0,
    ensures
        sum_by(s, f) == 0,
    decreases s.len(),
{
    if s.len() > 0 {
        assert(forall|i: int| 0 <= i < s.drop_last().len() ==> #[trigger] s.drop_last()[i] == s[i]);
        lemma_sum_by_zero(s.drop_last(), f);
        assert(s.last() == s[s.len() - 1]);
    }
}

/// A property that holds of every element of a sequence holds of every
/// element of any permutation of it.
pub proof fn lemma_permutation_pointwise<A>(s1: Seq<A>, s2: Seq<A>, p: spec_fn(A) -> bool)
    requires
        s1.to_multiset() == s2.to_multiset(),
        forall|i: int| 0 <= i < s1.len() ==> p(#[trigger] s1[i]),
    ensures
        forall|i: int| 0 <= i < s2.len() ==> p(#[trigger] s2[i]),
{
    broadcast use vstd::seq_lib::group_to_multiset_ensures;

    assert forall|i: int| 0 <= i < s2.len() implies p(#[trigger] s2[i]) by {
        let x = s2[i];
        assert(s2.contains(x));
        assert(s1.to_multiset().count(x) > 0);
        assert(s1.contains(x));
        let j = choose|j: int| 0 <= j < s1.len() && s1[j] == x;
        assert(p(s1[j]));
    }
}

} // verus!
