//! Keeping the extreme ratings of a long message: the ten lowest and the
//! ten highest.

use vstd::prelude::*;
use vstd::multiset::group_multiset_axioms;
use vstd::relations::sorted_by;
use vstd::seq_lib::group_to_multiset_ensures;
use vstd::seq_lib::lemma_multiset_commutative;
use vstd::seq_lib::lemma_sorted_unique;
use vstd::seq_lib::to_multiset_build;
use crate::rating::by_rating;
use crate::rating::lemma_rating_leq_transitive;
use crate::rating::lemma_rating_order_total;
use crate::rating::precedes;
use crate::rating::rating_leq;
use crate::rating::Rating;

verus! {

/// The ratings in ascending order.
pub open spec fn ascending(ratings: Seq<Rating>) -> Seq<Rating> {
    ratings.sort_by(by_rating())
}

/// The ratings that count for the score: all of them, or of more than
/// twenty the ten lowest and the ten highest.
pub open spec fn extremes(ratings: Seq<Rating>) -> Seq<Rating> {
    if ratings.len() > 20 {
        ascending(ratings).take(10) + ascending(ratings).skip(ratings.len() - 10)
    } else {
        ratings
    }
}

/// The ratings in ascending order are the same ratings, each as often as
/// before, and none of them stands before a lower one.
pub proof fn lemma_ascending(ratings: Seq<Rating>)
    ensures
        ascending(ratings).to_multiset() == ratings.to_multiset(),
        ascending(ratings).len() == ratings.len(),
        forall|x: Rating| #[trigger] ascending(ratings).contains(x) ==> ratings.contains(x),
        forall|i: int, j: int|
            0 <= i < j < ratings.len() ==> rating_leq(
                #[trigger] ascending(ratings)[i],
                #[trigger] ascending(ratings)[j],
            ),
{
    lemma_rating_order_total();
    ratings.lemma_sort_by_ensures(by_rating());
    ratings.to_multiset_ensures();
    ascending(ratings).to_multiset_ensures();
    assert forall|i: int, j: int| 0 <= i < j < ratings.len() implies rating_leq(
        #[trigger] ascending(ratings)[i],
        #[trigger] ascending(ratings)[j],
    ) by {
        assert(by_rating()(ascending(ratings)[i], ascending(ratings)[j]));
    }
}

/// Each rating that counts is one of the ratings.
pub proof fn lemma_extremes_members(ratings: Seq<Rating>)
    ensures
        forall|i: int|
            0 <= i < extremes(ratings).len() ==> ratings.contains(#[trigger] extremes(ratings)[i]),
        ratings.len() > 20 ==> extremes(ratings).len() == 20,
{
    if ratings.len() > 20 {
        let sorted = ascending(ratings);
        lemma_ascending(ratings);
        assert forall|i: int| 0 <= i < extremes(ratings).len() implies ratings.contains(
            #[trigger] extremes(ratings)[i],
        ) by {
            let x = extremes(ratings)[i];
            if i < 10 {
                assert(x == sorted[i]);
            } else {
                assert(x == sorted[sorted.len() - 20 + i]);
            }
            assert(sorted.contains(x));
        }
    } else {
        assert forall|i: int| 0 <= i < extremes(ratings).len() implies ratings.contains(
            #[trigger] extremes(ratings)[i],
        ) by {
            assert(ratings[i] == extremes(ratings)[i]);
        }
    }
}

/// Merges two ascending runs into one.
fn merge(left: &Vec<Rating>, right: &Vec<Rating>) -> (merged: Vec<Rating>)
    requires
        sorted_by(left@, by_rating()),
        sorted_by(right@, by_rating()),
    ensures
        sorted_by(merged@, by_rating()),
        merged@.to_multiset() == left@.to_multiset().add(right@.to_multiset()),
{
    broadcast use group_to_multiset_ensures;
    broadcast use group_multiset_axioms;

    let mut merged: Vec<Rating> = Vec::new();
    let mut i: usize = 0;
    let mut j: usize = 0;
    assert(left@.take(0) =~= Seq::<Rating>::empty());
    assert(right@.take(0) =~= Seq::<Rating>::empty());
    assert(merged@.to_multiset() =~= left@.take(0).to_multiset().add(
        right@.take(0).to_multiset(),
    ));
    while i < left.len() || j < right.len()
        invariant
            i <= left.len(),
            j <= right.len(),
            sorted_by(left@, by_rating()),
            sorted_by(right@, by_rating()),
            sorted_by(merged@, by_rating()),
            merged@.to_multiset() == left@.take(i as int).to_multiset().add(
                right@.take(j as int).to_multiset(),
            ),
            forall|k: int|
                0 <= k < merged@.len() && i < left.len() ==> rating_leq(
                    #[trigger] merged@[k],
                    left@[i as int],
                ),
            forall|k: int|
                0 <= k < merged@.len() && j < right.len() ==> rating_leq(
                    #[trigger] merged@[k],
                    right@[j as int],
                ),
        decreases left.len() - i + right.len() - j,
    {
        let ghost before = merged@;
        let from_left = if i == left.len() {
            false
        } else if j == right.len() {
            true
        } else {
            precedes(left[i], right[j])
        };
        if from_left {
            let x = left[i];
            merged.push(x);
            proof {
                assert(left@.take(i + 1) =~= left@.take(i as int).push(x));
                assert(merged@ == before.push(x));
                to_multiset_build(before, x);
                to_multiset_build(left@.take(i as int), x);
                assert(merged@.to_multiset() =~= left@.take(i + 1).to_multiset().add(
                    right@.take(j as int).to_multiset(),
                ));
                assert forall|a: int, b: int| 0 <= a < b < merged@.len() implies by_rating()(
                    #[trigger] merged@[a],
                    #[trigger] merged@[b],
                ) by {
                    if b < before.len() {
                        assert(by_rating()(before[a], before[b]));
                    } else {
                        assert(rating_leq(before[a], x));
                    }
                }
                if i + 1 < left.len() {
                    assert(by_rating()(left@[i as int], left@[i + 1]));
                    assert forall|k: int| 0 <= k < merged@.len() implies rating_leq(
                        #[trigger] merged@[k],
                        left@[i + 1],
                    ) by {
                        if k < before.len() {
                            assert(rating_leq(before[k], x));
                            lemma_rating_leq_transitive(before[k], x, left@[i + 1]);
                        }
                    }
                }
            }
            i += 1;
        } else {
            let x = right[j];
            merged.push(x);
            proof {
                assert(right@.take(j + 1) =~= right@.take(j as int).push(x));
                assert(merged@ == before.push(x));
                to_multiset_build(before, x);
                to_multiset_build(right@.take(j as int), x);
                assert(merged@.to_multiset() =~= left@.take(i as int).to_multiset().add(
                    right@.take(j + 1).to_multiset(),
                ));
                assert forall|a: int, b: int| 0 <= a < b < merged@.len() implies by_rating()(
                    #[trigger] merged@[a],
                    #[trigger] merged@[b],
                ) by {
                    if b < before.len() {
                        assert(by_rating()(before[a], before[b]));
                    } else {
                        assert(rating_leq(before[a], x));
                    }
                }
                if i < left.len() {
                    assert(rating_leq(x, left@[i as int]));
                }
                if j + 1 < right.len() {
                    assert(by_rating()(right@[j as int], right@[j + 1]));
                    assert forall|k: int| 0 <= k < merged@.len() implies rating_leq(
                        #[trigger] merged@[k],
                        right@[j + 1],
                    ) by {
                        if k < before.len() {
                            assert(rating_leq(before[k], x));
                            lemma_rating_leq_transitive(before[k], x, right@[j + 1]);
                        }
                    }
                }
            }
            j += 1;
        }
    }
    assert(left@.take(i as int) =~= left@);
    assert(right@.take(j as int) =~= right@);
    merged
}

/// The ratings from `lo` up to `hi`, in ascending order.
fn sort_range(ratings: &Vec<Rating>, lo: usize, hi: usize) -> (sorted: Vec<Rating>)
    requires
        lo <= hi <= ratings.len(),
    ensures
        sorted_by(sorted@, by_rating()),
        sorted@.to_multiset() == ratings@.subrange(lo as int, hi as int).to_multiset(),
    decreases hi - lo,
{
    broadcast use group_to_multiset_ensures;

    if hi - lo <= 1 {
        let mut sorted: Vec<Rating> = Vec::new();
        if lo < hi {
            sorted.push(ratings[lo]);
            assert(sorted@ =~= ratings@.subrange(lo as int, hi as int));
        } else {
            assert(sorted@ =~= ratings@.subrange(lo as int, hi as int));
        }
        sorted
    } else {
        let mid = lo + (hi - lo) / 2;
        let left = sort_range(ratings, lo, mid);
        let right = sort_range(ratings, mid, hi);
        proof {
            let l = ratings@.subrange(lo as int, mid as int);
            let r = ratings@.subrange(mid as int, hi as int);
            assert(ratings@.subrange(lo as int, hi as int) =~= l + r);
            lemma_multiset_commutative(l, r);
        }
        merge(&left, &right)
    }
}

/// The ratings in ascending order.
pub fn sort_ratings(ratings: &Vec<Rating>) -> (sorted: Vec<Rating>)
    ensures
        sorted@ == ascending(ratings@),
{
    let sorted = sort_range(ratings, 0, ratings.len());
    proof {
        assert(ratings@.subrange(0, ratings@.len() as int) =~= ratings@);
        lemma_rating_order_total();
        ratings@.lemma_sort_by_ensures(by_rating());
        lemma_sorted_unique(sorted@, ascending(ratings@), by_rating());
    }
    sorted
}

/// The ratings that count for the score: all of them, or of more than
/// twenty the ten lowest and the ten highest.
pub fn keep_extremes(ratings: Vec<Rating>) -> (kept: Vec<Rating>)
    ensures
        kept@ == extremes(ratings@),
{
    if ratings.len() > 20 {
        let sorted = sort_ratings(&ratings);
        proof {
            lemma_ascending(ratings@);
        }
        let n = sorted.len();
        let mut kept: Vec<Rating> = Vec::new();
        let mut i: usize = 0;
        while i < 10
            invariant
                i <= 10,
                n == sorted.len(),
                n > 20,
                kept@ == sorted@.take(i as int),
            decreases 10 - i,
        {
            kept.push(sorted[i]);
            i += 1;
            assert(kept@ =~= sorted@.take(i as int));
        }
        let mut j: usize = n - 10;
        while j < n
            invariant
                n - 10 <= j <= n,
                n == sorted.len(),
                n > 20,
                kept@ == sorted@.take(10) + sorted@.subrange(n - 10, j as int),
            decreases n - j,
        {
            kept.push(sorted[j]);
            j += 1;
            assert(kept@ =~= sorted@.take(10) + sorted@.subrange(n - 10, j as int));
        }
        assert(sorted@.subrange(n - 10, n as int) =~= sorted@.skip(n - 10));
        kept
    } else {
        ratings
    }
}

} // verus!
