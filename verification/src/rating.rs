//! The rating of a token: its odds of standing in a spam message, as an
//! exact ratio.

use vstd::prelude::*;
use vstd::relations::total_ordering;
use crate::model::Counter;

verus! {

/// Odds of `spam` to `ham`: the probability `spam / (spam + ham)` that a
/// token indicates spam.
#[derive(Clone, Copy, Debug, PartialEq, Eq, Structural)]
pub struct Rating {
    pub spam: u64,
    pub ham: u64,
}

/// The rating of a token that was never counted: 0.4.
pub open spec fn unseen() -> Rating {
    Rating { spam: 2, ham: 3 }
}

/// The rating of a token that was counted in spam only: 0.99.
pub open spec fn spam_only() -> Rating {
    Rating { spam: 99, ham: 1 }
}

/// The rating of a token that was counted in ham only: 0.01, which is also
/// the least rating that a counted token gets.
pub open spec fn ham_only() -> Rating {
    Rating { spam: 1, ham: 99 }
}

/// The rating of a token with the counter `c`, in a model whose counters
/// add up to `ham_total` and `spam_total`.
///
/// For a token counted in both classes the rating is the share of its spam
/// frequency `c.spam / spam_total` in the sum of its two frequencies, that
/// is `c.spam * ham_total` to `c.ham * spam_total`, and at least 0.01. Where
/// one of the totals is zero, the token is rated as if it was never counted.
/// A counter without counts has no frequencies to compare: it is rated 0.01
/// where both totals are positive, and as never counted otherwise.
pub open spec fn rate_counter(c: Counter, ham_total: u32, spam_total: u32) -> Rating {
    if c.spam > 0 && c.ham == 0 {
        spam_only()
    } else if c.spam == 0 && c.ham > 0 {
        ham_only()
    } else if spam_total > 0 && ham_total > 0 {
        if c.spam == 0 || 99 * (c.spam * ham_total) < c.ham * spam_total {
            ham_only()
        } else {
            Rating { spam: (c.spam * ham_total) as u64, ham: (c.ham * spam_total) as u64 }
        }
    } else {
        unseen()
    }
}

/// The rating of a token by what a lookup gave for it.
pub open spec fn rate_lookup(found: Option<Counter>, ham_total: u32, spam_total: u32) -> Rating {
    match found {
        Some(c) => rate_counter(c, ham_total, spam_total),
        None => unseen(),
    }
}

/// A rating is proper when neither side of the odds is zero and the
/// probability is at least 0.01.
pub open spec fn is_proper(r: Rating) -> bool {
    &&& r.spam >= 1
    &&& r.ham >= 1
    &&& 99 * r.spam >= r.ham
}

/// Every token gets a proper rating, whatever the lookup gave and whatever
/// the totals are.
pub proof fn lemma_rate_lookup_proper(found: Option<Counter>, ham_total: u32, spam_total: u32)
    ensures
        is_proper(rate_lookup(found, ham_total, spam_total)),
{
    if let Some(c) = found {
        if c.spam > 0 && c.ham > 0 && spam_total > 0 && ham_total > 0 {
            assert(1 <= c.spam * ham_total <= 0xffff_ffff * 0xffff_ffff) by (nonlinear_arith)
                requires
                    1 <= c.spam <= 0xffff_ffff,
                    1 <= ham_total <= 0xffff_ffff,
            ;
            assert(1 <= c.ham * spam_total <= 0xffff_ffff * 0xffff_ffff) by (nonlinear_arith)
                requires
                    1 <= c.ham <= 0xffff_ffff,
                    1 <= spam_total <= 0xffff_ffff,
            ;
        }
    }
}

/// The order of ratings: by probability first, among ratings of one
/// probability by the spam side, then by the ham side.
pub open spec fn rating_leq(a: Rating, b: Rating) -> bool {
    let l = a.spam * b.ham;
    let r = b.spam * a.ham;
    l < r || (l == r && (a.spam < b.spam || (a.spam == b.spam && a.ham <= b.ham)))
}

/// `rating_leq` as a relation value.
pub open spec fn by_rating() -> spec_fn(Rating, Rating) -> bool {
    |a: Rating, b: Rating| rating_leq(a, b)
}

proof fn lemma_cross_order(ap: int, aq: int, bp: int, bq: int, cp: int, cq: int)
    requires
        0 <= ap,
        0 <= aq,
        0 < bp,
        0 < bq,
        0 <= cp,
        0 <= cq,
        ap * bq <= bp * aq,
        bp * cq <= cp * bq,
    ensures
        ap * cq <= cp * aq,
        ap * bq < bp * aq && 0 < cq ==> ap * cq < cp * aq,
        bp * cq < cp * bq && 0 < aq ==> ap * cq < cp * aq,
{
    assert((ap * cq) * bq == (ap * bq) * cq) by (nonlinear_arith);
    assert((bp * aq) * cq == (bp * cq) * aq) by (nonlinear_arith);
    assert((cp * bq) * aq == (cp * aq) * bq) by (nonlinear_arith);
    assert((ap * bq) * cq <= (bp * aq) * cq) by (nonlinear_arith)
        requires
            ap * bq <= bp * aq,
            0 <= cq,
    ;
    assert((bp * cq) * aq <= (cp * bq) * aq) by (nonlinear_arith)
        requires
            bp * cq <= cp * bq,
            0 <= aq,
    ;
    assert(ap * cq <= cp * aq) by (nonlinear_arith)
        requires
            (ap * cq) * bq <= (cp * aq) * bq,
            0 < bq,
    ;
    if ap * bq < bp * aq && 0 < cq {
        assert((ap * bq) * cq < (bp * aq) * cq) by (nonlinear_arith)
            requires
                ap * bq < bp * aq,
                0 < cq,
        ;
        assert(ap * cq < cp * aq) by (nonlinear_arith)
            requires
                (ap * cq) * bq < (cp * aq) * bq,
                0 < bq,
        ;
    }
    if bp * cq < cp * bq && 0 < aq {
        assert((bp * cq) * aq < (cp * bq) * aq) by (nonlinear_arith)
            requires
                bp * cq < cp * bq,
                0 < aq,
        ;
        assert(ap * cq < cp * aq) by (nonlinear_arith)
            requires
                (ap * cq) * bq < (cp * aq) * bq,
                0 < bq,
        ;
    }
}

/// The order of ratings is transitive.
pub proof fn lemma_rating_leq_transitive(a: Rating, b: Rating, c: Rating)
    requires
        rating_leq(a, b),
        rating_leq(b, c),
    ensures
        rating_leq(a, c),
{
    let ap = a.spam as int;
    let aq = a.ham as int;
    let bp = b.spam as int;
    let bq = b.ham as int;
    let cp = c.spam as int;
    let cq = c.ham as int;
    if bp > 0 && bq > 0 {
        lemma_cross_order(ap, aq, bp, bq, cp, cq);
        if ap * cq == cp * aq {
            if aq == 0 {
                assert(ap * bq == 0);
                assert(ap == 0) by (nonlinear_arith)
                    requires
                        ap * bq == 0,
                        bq > 0,
                        ap >= 0,
                ;
            }
            if cq == 0 {
                assert(bp * cq == 0) by (nonlinear_arith)
                    requires
                        cq == 0,
                ;
                assert(cp * bq == 0 ==> cp == 0) by (nonlinear_arith)
                    requires
                        bq > 0,
                        cp >= 0,
                ;
            }
        }
    } else if bp == 0 && bq == 0 {
        assert(ap * bq == 0 && bp * aq == 0 && bp * cq == 0 && cp * bq == 0) by (nonlinear_arith)
            requires
                bp == 0,
                bq == 0,
        ;
        assert(ap * cq >= 0 && cp * aq >= 0) by (nonlinear_arith)
            requires
                ap >= 0,
                aq >= 0,
                cp >= 0,
                cq >= 0,
        ;
        assert(ap == 0 && aq == 0);
        assert(ap * cq == 0 && cp * aq == 0) by (nonlinear_arith)
            requires
                ap == 0,
                aq == 0,
        ;
    } else if bp == 0 {
        assert(bp * aq == 0 && bp * cq == 0) by (nonlinear_arith)
            requires
                bp == 0,
        ;
        assert(ap == 0) by (nonlinear_arith)
            requires
                ap * bq <= 0,
                bq > 0,
                ap >= 0,
        ;
        assert(ap * cq == 0 && ap * bq == 0) by (nonlinear_arith)
            requires
                ap == 0,
        ;
        assert(cp * aq >= 0) by (nonlinear_arith)
            requires
                cp >= 0,
                aq >= 0,
        ;
        if cp * aq == 0 && cp > 0 {
            assert(aq == 0) by (nonlinear_arith)
                requires
                    cp * aq == 0,
                    cp > 0,
                    aq >= 0,
            ;
        }
        if cp == 0 {
            assert(cp * bq == 0 && cp * aq == 0) by (nonlinear_arith)
                requires
                    cp == 0,
            ;
        }
    } else {
        assert(ap * bq == 0 && cp * bq == 0) by (nonlinear_arith)
            requires
                bq == 0,
        ;
        assert(cq == 0) by (nonlinear_arith)
            requires
                bp * cq <= 0,
                bp > 0,
                cq >= 0,
        ;
        assert(ap * cq == 0 && bp * cq == 0) by (nonlinear_arith)
            requires
                cq == 0,
        ;
        assert(cp * aq >= 0 && bp * aq >= 0) by (nonlinear_arith)
            requires
                cp >= 0,
                bp >= 0,
                aq >= 0,
        ;
        if aq == 0 {
            assert(cp * aq == 0 && bp * aq == 0) by (nonlinear_arith)
                requires
                    aq == 0,
            ;
        } else {
            assert(cp * aq > 0) by (nonlinear_arith)
                requires
                    cp >= bp,
                    bp > 0,
                    aq > 0,
            ;
        }
    }
}

/// Ratings are totally ordered.
pub proof fn lemma_rating_order_total()
    ensures
        total_ordering(by_rating()),
{
    assert forall|a: Rating, b: Rating, c: Rating|
        #[trigger] by_rating()(a, b) && #[trigger] by_rating()(b, c) implies by_rating()(a, c) by {
        lemma_rating_leq_transitive(a, b, c);
    }
    assert forall|a: Rating, b: Rating| #[trigger]
        by_rating()(a, b) && by_rating()(b, a) implies a == b by {}
}

/// Decides whether `a` comes before `b` in the order of ratings, or is `b`.
pub fn precedes(a: Rating, b: Rating) -> (r: bool)
    ensures
        r == rating_leq(a, b),
{
    assert(a.spam * b.ham <= 0xffff_ffff_ffff_ffff * 0xffff_ffff_ffff_ffff) by (nonlinear_arith)
        requires
            a.spam <= 0xffff_ffff_ffff_ffff,
            b.ham <= 0xffff_ffff_ffff_ffff,
    ;
    assert(b.spam * a.ham <= 0xffff_ffff_ffff_ffff * 0xffff_ffff_ffff_ffff) by (nonlinear_arith)
        requires
            b.spam <= 0xffff_ffff_ffff_ffff,
            a.ham <= 0xffff_ffff_ffff_ffff,
    ;
    let l: u128 = (a.spam as u128) * (b.ham as u128);
    let r: u128 = (b.spam as u128) * (a.ham as u128);
    l < r || (l == r && (a.spam < b.spam || (a.spam == b.spam && a.ham <= b.ham)))
}

/// The rating of a token by what a lookup gave for it.
pub fn rate(found: Option<Counter>, ham_total: u32, spam_total: u32) -> (r: Rating)
    ensures
        r == rate_lookup(found, ham_total, spam_total),
        is_proper(r),
{
    match found {
        None => Rating { spam: 2, ham: 3 },
        Some(c) => {
            if c.spam > 0 && c.ham == 0 {
                Rating { spam: 99, ham: 1 }
            } else if c.spam == 0 && c.ham > 0 {
                Rating { spam: 1, ham: 99 }
            } else if spam_total > 0 && ham_total > 0 {
                assert(c.spam * ham_total <= 0xffff_ffff * 0xffff_ffff) by (nonlinear_arith)
                    requires
                        c.spam <= 0xffff_ffff,
                        ham_total <= 0xffff_ffff,
                ;
                assert(c.ham * spam_total <= 0xffff_ffff * 0xffff_ffff) by (nonlinear_arith)
                    requires
                        c.ham <= 0xffff_ffff,
                        spam_total <= 0xffff_ffff,
                ;
                let spam: u64 = (c.spam as u64) * (ham_total as u64);
                let ham: u64 = (c.ham as u64) * (spam_total as u64);
                if c.spam == 0 || 99 * (spam as u128) < ham as u128 {
                    Rating { spam: 1, ham: 99 }
                } else {
                    assert(spam >= 1 && ham >= 1) by (nonlinear_arith)
                        requires
                            c.spam >= 1,
                            c.ham >= 1,
                            spam_total >= 1,
                            ham_total >= 1,
                            spam == c.spam * ham_total,
                            ham == c.ham * spam_total,
                    ;
                    Rating { spam, ham }
                }
            } else {
                Rating { spam: 2, ham: 3 }
            }
        },
    }
}

} // verus!
