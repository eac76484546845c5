use bayespam::extremes::keep_extremes;
use bayespam::extremes::sort_ratings;
use bayespam::model::Counter;
use bayespam::rating::precedes;
use bayespam::rating::rate;
use bayespam::rating::Rating;

fn odds(spam: u64, ham: u64) -> Rating {
    Rating { spam, ham }
}

#[test]
fn unseen_token_is_rated_at_two_fifths() {
    assert_eq!(rate(None, 0, 0), odds(2, 3));
    assert_eq!(rate(None, 10, 20), odds(2, 3));
}

#[test]
fn token_of_one_class_is_rated_hard() {
    assert_eq!(rate(Some(Counter { ham: 0, spam: 5 }), 10, 20), odds(99, 1));
    assert_eq!(rate(Some(Counter { ham: 0, spam: 1 }), 0, 1), odds(99, 1));
    assert_eq!(rate(Some(Counter { ham: 5, spam: 0 }), 10, 20), odds(1, 99));
    assert_eq!(rate(Some(Counter { ham: 1, spam: 0 }), 1, 0), odds(1, 99));
}

#[test]
fn token_of_both_classes_is_rated_by_its_frequencies() {
    // 1/9 spam frequency against 1/6 ham frequency: 0.4
    assert_eq!(rate(Some(Counter { ham: 1, spam: 1 }), 6, 9), odds(6, 9));
    // 3/4 against 1/4: 0.75
    assert_eq!(rate(Some(Counter { ham: 1, spam: 3 }), 4, 4), odds(12, 4));
    assert_eq!(
        rate(Some(Counter { ham: u32::MAX, spam: u32::MAX }), u32::MAX, u32::MAX),
        odds(18446744065119617025, 18446744065119617025)
    );
}

#[test]
fn rating_is_never_below_a_hundredth() {
    assert_eq!(rate(Some(Counter { ham: 200, spam: 1 }), 1000, 1000), odds(1, 99));
    // exactly a hundredth stays as it is
    assert_eq!(rate(Some(Counter { ham: 99, spam: 1 }), 10, 10), odds(10, 990));
    assert_eq!(rate(Some(Counter { ham: 100, spam: 1 }), 10, 10), odds(1, 99));
    assert_eq!(rate(Some(Counter { ham: u32::MAX, spam: 1 }), u32::MAX, u32::MAX), odds(1, 99));
}

#[test]
fn rating_may_be_above_ninety_nine_hundredths() {
    assert_eq!(rate(Some(Counter { ham: 1, spam: 1000 }), 10, 10), odds(10000, 10));
}

#[test]
fn counter_without_counts_is_rated_by_the_totals() {
    assert_eq!(rate(Some(Counter { ham: 0, spam: 0 }), 3, 4), odds(1, 99));
    assert_eq!(rate(Some(Counter { ham: 0, spam: 0 }), 0, 4), odds(2, 3));
    assert_eq!(rate(Some(Counter { ham: 0, spam: 0 }), 3, 0), odds(2, 3));
}

#[test]
fn token_of_both_classes_without_totals_is_rated_as_unseen() {
    assert_eq!(rate(Some(Counter { ham: 1, spam: 1 }), 0, 5), odds(2, 3));
    assert_eq!(rate(Some(Counter { ham: 1, spam: 1 }), 5, 0), odds(2, 3));
}

#[test]
fn ratings_are_ordered_by_probability() {
    assert!(precedes(odds(1, 99), odds(2, 3)));
    assert!(precedes(odds(2, 3), odds(99, 1)));
    assert!(!precedes(odds(99, 1), odds(2, 3)));
    assert!(precedes(odds(2, 3), odds(2, 3)));
    assert!(precedes(odds(1, u64::MAX), odds(u64::MAX, 1)));
    assert!(!precedes(odds(u64::MAX, 1), odds(1, u64::MAX)));
    assert!(precedes(odds(u64::MAX - 1, u64::MAX), odds(u64::MAX, u64::MAX)));
}

#[test]
fn equal_probabilities_are_ordered_by_their_sides() {
    assert!(precedes(odds(2, 3), odds(4, 6)));
    assert!(!precedes(odds(4, 6), odds(2, 3)));
    assert!(precedes(odds(0, 0), odds(1, 1)));
    assert!(!precedes(odds(1, 1), odds(0, 0)));
    assert!(precedes(odds(0, 1), odds(0, 2)));
}

#[test]
fn sort_ratings_puts_them_in_ascending_order() {
    let ratings = vec![odds(99, 1), odds(2, 3), odds(1, 99), odds(4, 6), odds(6, 9), odds(1, 99)];
    assert_eq!(
        sort_ratings(&ratings),
        vec![odds(1, 99), odds(1, 99), odds(2, 3), odds(4, 6), odds(6, 9), odds(99, 1)]
    );
    assert_eq!(sort_ratings(&Vec::new()), Vec::<Rating>::new());
    assert_eq!(sort_ratings(&vec![odds(2, 3)]), vec![odds(2, 3)]);
}

#[test]
fn keep_extremes_leaves_twenty_ratings_alone() {
    let ratings: Vec<Rating> = (1..=20).rev().map(|i| odds(i, 100 - i)).collect();
    assert_eq!(keep_extremes(ratings.clone()), ratings);
    assert_eq!(keep_extremes(Vec::new()), Vec::<Rating>::new());
}

#[test]
fn keep_extremes_drops_the_middle() {
    let ratings: Vec<Rating> = (1..=21).rev().map(|i| odds(i, 100 - i)).collect();
    let mut expected: Vec<Rating> = (1..=10).map(|i| odds(i, 100 - i)).collect();
    expected.extend((12..=21).map(|i| odds(i, 100 - i)));
    assert_eq!(keep_extremes(ratings), expected);

    let ratings: Vec<Rating> = (1..=1000).map(|i| odds((i * 7919) % 1009, 1009)).collect();
    let kept = keep_extremes(ratings.clone());
    let mut sorted = ratings;
    sorted.sort_by_key(|r| r.spam);
    let mut expected = sorted[..10].to_vec();
    expected.extend_from_slice(&sorted[990..]);
    assert_eq!(kept, expected);
}
