//! The score of a message: the combined odds of its ratings.

use vstd::prelude::*;
use crate::bignat::BigNat;
use crate::extremes::extremes;
use crate::extremes::keep_extremes;
use crate::extremes::lemma_extremes_members;
use crate::rating::is_proper;
use crate::rating::Rating;

verus! {

/// The product of the spam sides of the ratings.
pub open spec fn spam_product(ratings: Seq<Rating>) -> nat
    decreases ratings.len(),
{
    if ratings.len() == 0 {
        1
    } else {
        spam_product(ratings.drop_last()) * (ratings.last().spam as nat)
    }
}

/// The product of the ham sides of the ratings.
pub open spec fn ham_product(ratings: Seq<Rating>) -> nat
    decreases ratings.len(),
{
    if ratings.len() == 0 {
        1
    } else {
        ham_product(ratings.drop_last()) * (ratings.last().ham as nat)
    }
}

/// The odds that the ratings of a message combine to, spam side first.
///
/// With `p` the product of the probabilities and `q` the product of their
/// complements, over the ratings that count, the score is `p / (p + q)`.
/// The ratings being odds, it is the product of their spam sides to the
/// product of their ham sides. A message without ratings scores zero.
pub open spec fn combined_odds(ratings: Seq<Rating>) -> (nat, nat) {
    if ratings.len() == 0 {
        (0, 1)
    } else {
        (spam_product(extremes(ratings)), ham_product(extremes(ratings)))
    }
}

/// Proper ratings have products of at least one on both sides.
pub proof fn lemma_products_positive(ratings: Seq<Rating>)
    requires
        forall|i: int| 0 <= i < ratings.len() ==> is_proper(#[trigger] ratings[i]),
    ensures
        spam_product(ratings) >= 1,
        ham_product(ratings) >= 1,
    decreases ratings.len(),
{
    if ratings.len() > 0 {
        let front = ratings.drop_last();
        assert forall|i: int| 0 <= i < front.len() implies is_proper(#[trigger] front[i]) by {
            assert(front[i] == ratings[i]);
        }
        lemma_products_positive(front);
        assert(is_proper(ratings[ratings.len() - 1]));
        assert(spam_product(front) * (ratings.last().spam as nat) >= 1) by (nonlinear_arith)
            requires
                spam_product(front) >= 1,
                ratings.last().spam >= 1,
        ;
        assert(ham_product(front) * (ratings.last().ham as nat) >= 1) by (nonlinear_arith)
            requires
                ham_product(front) >= 1,
                ratings.last().ham >= 1,
        ;
    }
}

/// The combined odds of proper ratings are a probability: the ham side is
/// never zero, and the spam side is zero for the message without ratings
/// only.
pub proof fn lemma_combined_odds_defined(ratings: Seq<Rating>)
    requires
        forall|i: int| 0 <= i < ratings.len() ==> is_proper(#[trigger] ratings[i]),
    ensures
        combined_odds(ratings).1 >= 1,
        ratings.len() > 0 ==> combined_odds(ratings).0 >= 1,
{
    if ratings.len() > 0 {
        let kept = extremes(ratings);
        lemma_extremes_members(ratings);
        assert forall|i: int| 0 <= i < kept.len() implies is_proper(#[trigger] kept[i]) by {
            assert(ratings.contains(kept[i]));
        }
        lemma_products_positive(kept);
    }
}

/// The probability `odds.0 / (odds.0 + odds.1)` is more than 0.8.
pub open spec fn above_threshold(odds: (nat, nat)) -> bool {
    5 * odds.0 > 4 * (odds.0 + odds.1)
}

/// The score of a message, as odds of spam to ham: the probability that
/// the message is spam is `spam / (spam + ham)`.
#[derive(Debug)]
pub struct Score {
    spam: BigNat,
    ham: BigNat,
}

impl View for Score {
    type V = (nat, nat);

    closed spec fn view(&self) -> (nat, nat) {
        (self.spam@, self.ham@)
    }
}

impl Score {
    /// The score is valid.
    pub closed spec fn wf(&self) -> bool {
        &&& self.spam.wf()
        &&& self.ham.wf()
    }

    /// The spam side of the odds.
    pub fn spam(&self) -> (side: &BigNat)
        requires
            self.wf(),
        ensures
            side.wf(),
            side@ == self@.0,
    {
        &self.spam
    }

    /// The ham side of the odds.
    pub fn ham(&self) -> (side: &BigNat)
        requires
            self.wf(),
        ensures
            side.wf(),
            side@ == self@.1,
    {
        &self.ham
    }

    /// Decides whether the probability is more than 0.8.
    pub fn is_above_threshold(&self) -> (above: bool)
        requires
            self.wf(),
        ensures
            above == above_threshold(self@),
    {
        let bound = self.ham.mul_u64(4);
        bound.lt(&self.spam)
    }
}

/// Combines the ratings of a message into its score.
pub fn combine(ratings: Vec<Rating>) -> (score: Score)
    ensures
        score.wf(),
        score@ == combined_odds(ratings@),
{
    if ratings.len() == 0 {
        return Score { spam: BigNat::from_u64(0), ham: BigNat::from_u64(1) };
    }
    let ghost all = ratings@;
    let kept = keep_extremes(ratings);
    let mut spam = BigNat::from_u64(1);
    let mut ham = BigNat::from_u64(1);
    let mut i: usize = 0;
    assert(kept@.take(0) =~= Seq::<Rating>::empty());
    while i < kept.len()
        invariant
            i <= kept.len(),
            spam.wf(),
            ham.wf(),
            spam@ == spam_product(kept@.take(i as int)),
            ham@ == ham_product(kept@.take(i as int)),
        decreases kept.len() - i,
    {
        proof {
            let next = kept@.take(i + 1);
            assert(next.drop_last() =~= kept@.take(i as int));
            assert(next.last() == kept@[i as int]);
        }
        spam = spam.mul_u64(kept[i].spam);
        ham = ham.mul_u64(kept[i].ham);
        i += 1;
    }
    assert(kept@.take(i as int) =~= kept@);
    Score { spam, ham }
}

} // verus!
