use bayespam::classifier::identify;
use bayespam::classifier::score;
use bayespam::classifier::Classifier;
use bayespam::model::Counter;
use bayespam::model::ModelError;
use bayespam::model::TokenCount;
use bayespam::rating::Rating;
use bayespam::score::combine;
use bayespam::score::Score;

const SPAM: &str = "Don't forget our special promotion: -30% on men shoes, only today!";
const HAM: &str = "Hi Bob, don't forget our meeting today at 4pm.";

fn entry(token: &str, ham: u32, spam: u32) -> TokenCount {
    TokenCount { token: token.to_string(), counter: Counter { ham, spam } }
}

fn plain(table: &[TokenCount]) -> Vec<(String, u32, u32)> {
    table.iter().map(|e| (e.token.clone(), e.counter.ham, e.counter.spam)).collect()
}

fn sides(score: &Score) -> (Vec<u32>, Vec<u32>) {
    (score.spam().digits().clone(), score.ham().digits().clone())
}

fn digits_of(mut n: u128) -> Vec<u32> {
    let mut digits = Vec::new();
    while n > 0 {
        digits.push((n & 0xffff_ffff) as u32);
        n >>= 32;
    }
    digits
}

#[test]
fn test_new() {
    // Create a new classifier with an empty model
    let mut classifier = Classifier::new();

    // Train the model with a new spam example
    let spam = "Don't forget our special promotion: -30% on men shoes, only today!";
    classifier.train_spam(spam);

    // Train the model with a new ham example
    let ham = "Hi Bob, don't forget our meeting today at 4pm.";
    classifier.train_ham(ham);

    // Identify a typical spam message
    let spam = "Lose up to 19% weight. Special promotion on our new weightloss.";
    let is_spam = classifier.identify(spam);
    assert!(is_spam);

    // Identify a typical ham message
    let ham = "Hi Bob, can you send me your machine learning homework?";
    let is_spam = classifier.identify(ham);
    assert!(!is_spam);
}

#[test]
fn test_new_from_pre_trained() -> Result<(), ModelError> {
    // The table of a model that was trained before
    let mut trained = Classifier::new();
    trained.train_spam("Don't forget our special promotion: -30% on men shoes, only today!");
    trained.train_spam("Special promotion: lose weight with our new weightloss pills!");
    trained.train_ham("Hi Bob, don't forget our meeting today at 4pm.");

    // Identify a typical spam message
    let spam = "Lose up to 19% weight. Special promotion on our new weightloss.";
    let is_spam = identify(trained.save(), spam)?;
    assert!(is_spam);

    // Identify a typical ham message
    let ham = "Hi Bob, can you send me your machine learning homework?";
    let is_spam = identify(trained.save(), ham)?;
    assert!(!is_spam);

    Ok(())
}

#[test]
fn new_classifier_is_empty() {
    let classifier = Classifier::new();
    assert_eq!(classifier.ham_total_count(), 0);
    assert_eq!(classifier.spam_total_count(), 0);
    assert!(classifier.save().is_empty());
    let classifier = Classifier::default();
    assert!(classifier.save().is_empty());
}

#[test]
fn training_counts_every_occurrence() {
    let mut classifier = Classifier::new();
    classifier.train_spam(SPAM);
    assert_eq!(classifier.spam_total_count(), 9);
    assert_eq!(classifier.ham_total_count(), 0);
    classifier.train_ham(HAM);
    assert_eq!(classifier.spam_total_count(), 9);
    assert_eq!(classifier.ham_total_count(), 6);
    classifier.train_spam("buy buy buy now, buy!");
    assert_eq!(classifier.spam_total_count(), 14);
    assert_eq!(
        plain(&classifier.save()),
        vec![
            ("dont".to_string(), 1, 1),
            ("forget".to_string(), 1, 1),
            ("our".to_string(), 1, 1),
            ("special".to_string(), 0, 1),
            ("promotion:".to_string(), 0, 1),
            ("men".to_string(), 0, 1),
            ("shoes".to_string(), 0, 1),
            ("only".to_string(), 0, 1),
            ("today".to_string(), 1, 1),
            ("bob".to_string(), 1, 0),
            ("meeting".to_string(), 1, 0),
            ("buy".to_string(), 0, 4),
            ("now".to_string(), 0, 1),
        ]
    );
}

#[test]
fn training_adds_the_number_of_tokens_to_the_totals() {
    let mut classifier = Classifier::new();
    let messages = [SPAM, HAM, "", "!!! 123 @@@", "one two three four", "aaa aaa aaa"];
    for (i, msg) in messages.iter().enumerate() {
        let tokens = Classifier::load_word_list(msg).len() as u32;
        let before = classifier.ham_total_count() + classifier.spam_total_count();
        if i % 2 == 0 {
            classifier.train_spam(msg);
        } else {
            classifier.train_ham(msg);
        }
        let after = classifier.ham_total_count() + classifier.spam_total_count();
        assert_eq!(after, before + tokens);
    }
    assert_eq!(classifier.spam_total_count(), 9 + 0 + 4);
    assert_eq!(classifier.ham_total_count(), 6 + 0 + 3);
}

#[test]
fn message_without_tokens_scores_zero() {
    let mut classifier = Classifier::new();
    assert_eq!(sides(&classifier.score("")), (vec![], vec![1]));
    assert_eq!(sides(&classifier.score("!!! 123 @@@")), (vec![], vec![1]));
    classifier.train_spam(SPAM);
    classifier.train_ham(HAM);
    assert_eq!(sides(&classifier.score("")), (vec![], vec![1]));
    assert_eq!(sides(&classifier.score("!!! 123 @@@")), (vec![], vec![1]));
    assert!(!classifier.identify(""));
    assert!(!classifier.identify("!!! 123 @@@"));
}

#[test]
fn token_of_spam_only_dominates() {
    let mut classifier = Classifier::new();
    classifier.train_spam("xyzzy xyzzy xyzzy xyzzy xyzzy");
    assert_eq!(classifier.spam_total_count(), 5);
    assert_eq!(classifier.estimate("xyzzy"), Rating { spam: 99, ham: 1 });
    assert_eq!(classifier.estimate("plugh"), Rating { spam: 2, ham: 3 });
    assert_eq!(classifier.rate_words("xyzzy"), vec![Rating { spam: 99, ham: 1 }]);
    assert!(classifier.identify("xyzzy"));
}

#[test]
fn token_of_ham_only_dominates() {
    let mut classifier = Classifier::new();
    classifier.train_ham("xyzzy xyzzy xyzzy xyzzy xyzzy");
    assert_eq!(classifier.ham_total_count(), 5);
    assert_eq!(classifier.estimate("xyzzy"), Rating { spam: 1, ham: 99 });
    assert_eq!(classifier.rate_words("xyzzy"), vec![Rating { spam: 1, ham: 99 }]);
    assert!(!classifier.identify("xyzzy"));
}

#[test]
fn words_are_rated_in_their_order() {
    let mut classifier = Classifier::new();
    classifier.train_spam(SPAM);
    classifier.train_ham(HAM);
    assert_eq!(
        classifier.rate_words("Lose up to 19% weight. Special promotion on our new weightloss."),
        vec![
            Rating { spam: 2, ham: 3 },
            Rating { spam: 2, ham: 3 },
            Rating { spam: 99, ham: 1 },
            Rating { spam: 2, ham: 3 },
            Rating { spam: 6, ham: 9 },
            Rating { spam: 2, ham: 3 },
            Rating { spam: 2, ham: 3 },
        ]
    );
    assert_eq!(
        classifier.rate_words("Bob, our meeting!"),
        vec![Rating { spam: 1, ham: 99 }, Rating { spam: 6, ham: 9 }, Rating { spam: 1, ham: 99 }]
    );
    assert!(classifier.rate_words("to be or").is_empty());
}

#[test]
fn score_is_the_product_of_the_odds() {
    let mut classifier = Classifier::new();
    classifier.train_spam(SPAM);
    classifier.train_ham(HAM);
    // five unseen tokens, one of spam only, one of both classes
    let score = classifier.score("Lose up to 19% weight. Special promotion on our new weightloss.");
    assert_eq!(sides(&score), (vec![19008], vec![2187]));
    assert!(score.is_above_threshold());
    // seven unseen tokens, one of ham only
    let score = classifier.score("Hi Bob, can you send me your machine learning homework?");
    assert_eq!(sides(&score), (vec![128], vec![216513]));
    assert!(!score.is_above_threshold());
}

#[test]
fn long_message_is_scored_by_its_extremes() {
    let mut classifier = Classifier::new();
    classifier.train_spam("saa sab sac sad sae saf sag sah sai saj sak sal");
    classifier.train_ham("haa hab hac had hae");
    // 25 tokens: 8 unseen, 12 of spam only, 5 of ham only
    let msg = "uaa saa haa uab sab hab uac sac hac uad sad had uae sae hae uaf saf uag sag uah sah sai saj sak sal";
    assert_eq!(Classifier::load_word_list(msg).len(), 25);
    let score = classifier.score(msg);
    // the ten lowest: 5 of ham only and 5 unseen; the ten highest: 10 of spam only
    let mut kept = vec![Rating { spam: 1, ham: 99 }; 5];
    kept.extend(vec![Rating { spam: 2, ham: 3 }; 5]);
    kept.extend(vec![Rating { spam: 99, ham: 1 }; 10]);
    assert_eq!(sides(&score), sides(&combine(kept)));
    assert_eq!(*score.spam().digits(), digits_of(32 * 99u128.pow(10)));
    assert_eq!(*score.ham().digits(), digits_of(99u128.pow(5) * 243));
    assert!(classifier.identify(msg));
    // all 25 would give other odds
    assert_ne!(sides(&score), sides(&combine(classifier.rate_words(msg)[..20].to_vec())));
}

#[test]
fn try_train_trains_while_the_counts_fit() {
    let mut classifier = Classifier::new();
    assert!(classifier.try_train_spam(SPAM));
    assert!(classifier.try_train_ham(HAM));
    assert_eq!(classifier.spam_total_count(), 9);
    assert_eq!(classifier.ham_total_count(), 6);
}

#[test]
fn try_train_leaves_a_full_model_alone() {
    let table = vec![entry("full", u32::MAX - 1, u32::MAX - 1)];
    let mut classifier = Classifier::new_from_pre_trained(table).unwrap();
    assert!(!classifier.try_train_spam("one word more"));
    assert!(!classifier.try_train_ham("one word more"));
    assert_eq!(plain(&classifier.save()), vec![("full".to_string(), u32::MAX - 1, u32::MAX - 1)]);
    assert!(classifier.try_train_spam("full"));
    assert!(classifier.try_train_ham("one"));
    assert_eq!(classifier.spam_total_count(), u32::MAX);
    assert_eq!(classifier.ham_total_count(), u32::MAX);
    assert!(!classifier.try_train_spam("full"));
    assert!(classifier.try_train_spam("!!"));
    assert_eq!(
        plain(&classifier.save()),
        vec![("full".to_string(), u32::MAX - 1, u32::MAX), ("one".to_string(), 1, 0)]
    );
}

#[test]
fn saved_table_loads_to_the_same_classifier() {
    let mut classifier = Classifier::new();
    classifier.train_spam(SPAM);
    classifier.train_ham(HAM);
    classifier.train_spam("special special offer");
    let table = classifier.save();
    let loaded = Classifier::new_from_pre_trained(classifier.save()).unwrap();
    assert_eq!(plain(&loaded.save()), plain(&table));
    assert_eq!(loaded.ham_total_count(), classifier.ham_total_count());
    assert_eq!(loaded.spam_total_count(), classifier.spam_total_count());
    let msg = "Special promotion on our new weightloss.";
    assert_eq!(sides(&loaded.score(msg)), sides(&classifier.score(msg)));
}

#[test]
fn new_from_pre_trained_refuses_a_bad_table() {
    let loaded = Classifier::new_from_pre_trained(vec![entry("one", 1, 1), entry("one", 2, 2)]);
    assert_eq!(loaded.err(), Some(ModelError::DuplicateToken));
    let loaded = Classifier::new_from_pre_trained(vec![entry("one", 1, u32::MAX), entry("two", 2, 2)]);
    assert_eq!(loaded.err(), Some(ModelError::TotalOverflow));
}

#[test]
fn score_and_identify_of_a_table() {
    let table = || vec![entry("special", 0, 3), entry("bob", 2, 0), entry("our", 1, 1)];
    let scored = score(table(), "Our special offer").unwrap();
    // 1/4 of the spam against 1/3 of the ham, then spam only, then unseen
    assert_eq!(sides(&scored), (vec![3 * 99 * 2], vec![4 * 1 * 3]));
    assert_eq!(identify(table(), "Our special offer"), Ok(true));
    assert_eq!(identify(table(), "Bob"), Ok(false));
    assert_eq!(identify(Vec::new(), "Bob"), Ok(false));
}

#[test]
fn score_and_identify_pass_the_error_on() {
    let table = || vec![entry("bob", 2, 0), entry("bob", 1, 1)];
    assert_eq!(score(table(), "Bob").err(), Some(ModelError::DuplicateToken));
    assert_eq!(identify(table(), "Bob"), Err(ModelError::DuplicateToken));
    let table = || vec![entry("bob", u32::MAX, 0), entry("our", 1, 1)];
    assert_eq!(score(table(), "Bob").err(), Some(ModelError::TotalOverflow));
    assert_eq!(identify(table(), "Bob"), Err(ModelError::TotalOverflow));
}
