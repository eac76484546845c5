use bayespam::model::Counter;
use bayespam::model::Model;
use bayespam::model::ModelError;
use bayespam::model::TokenCount;

fn entry(token: &str, ham: u32, spam: u32) -> TokenCount {
    TokenCount { token: token.to_string(), counter: Counter { ham, spam } }
}

fn plain(table: &[TokenCount]) -> Vec<(String, u32, u32)> {
    table.iter().map(|e| (e.token.clone(), e.counter.ham, e.counter.spam)).collect()
}

#[test]
fn new_model_is_empty() {
    let model = Model::new();
    assert_eq!(model.ham_total(), 0);
    assert_eq!(model.spam_total(), 0);
    assert!(model.entries().is_empty());
    assert_eq!(model.lookup("word"), None);
}

#[test]
fn increments_create_and_count() {
    let mut model = Model::new();
    model.increment_spam("offer".to_string());
    assert_eq!(model.lookup("offer"), Some(Counter { ham: 0, spam: 1 }));
    model.increment_spam("offer".to_string());
    model.increment_ham("offer".to_string());
    model.increment_ham("meeting".to_string());
    assert_eq!(model.lookup("offer"), Some(Counter { ham: 1, spam: 2 }));
    assert_eq!(model.lookup("meeting"), Some(Counter { ham: 1, spam: 0 }));
    assert_eq!(model.lookup("absent"), None);
    assert_eq!(model.ham_total(), 2);
    assert_eq!(model.spam_total(), 2);
    assert_eq!(model.find("offer"), Some(0));
    assert_eq!(model.find("meeting"), Some(1));
    assert_eq!(model.find("absent"), None);
}

#[test]
fn entries_come_in_the_order_of_first_sight() {
    let mut model = Model::new();
    model.increment_ham("one".to_string());
    model.increment_spam("two".to_string());
    model.increment_spam("one".to_string());
    assert_eq!(
        plain(&model.entries()),
        vec![("one".to_string(), 1, 1), ("two".to_string(), 0, 1)]
    );
}

#[test]
fn from_entries_takes_a_table() {
    let model = Model::from_entries(vec![entry("one", 3, 0), entry("two", 0, 0), entry("six", 2, 7)])
        .unwrap();
    assert_eq!(model.ham_total(), 5);
    assert_eq!(model.spam_total(), 7);
    assert_eq!(model.lookup("one"), Some(Counter { ham: 3, spam: 0 }));
    assert_eq!(model.lookup("two"), Some(Counter { ham: 0, spam: 0 }));
    assert_eq!(model.lookup("ten"), None);
}

#[test]
fn from_entries_refuses_a_token_that_stands_twice() {
    let loaded = Model::from_entries(vec![entry("one", 1, 0), entry("two", 1, 1), entry("one", 0, 1)]);
    assert_eq!(loaded.err(), Some(ModelError::DuplicateToken));
}

#[test]
fn from_entries_refuses_totals_that_do_not_fit() {
    let loaded = Model::from_entries(vec![entry("one", u32::MAX, 0), entry("two", 1, 0)]);
    assert_eq!(loaded.err(), Some(ModelError::TotalOverflow));
    let loaded = Model::from_entries(vec![entry("one", 0, 1), entry("two", 0, u32::MAX)]);
    assert_eq!(loaded.err(), Some(ModelError::TotalOverflow));
    let loaded = Model::from_entries(vec![entry("one", u32::MAX, u32::MAX)]).unwrap();
    assert_eq!(loaded.ham_total(), u32::MAX);
    assert_eq!(loaded.spam_total(), u32::MAX);
}

#[test]
fn from_entries_names_the_duplicate_before_the_overflow() {
    let loaded = Model::from_entries(vec![entry("one", u32::MAX, 0), entry("one", 1, 0)]);
    assert_eq!(loaded.err(), Some(ModelError::DuplicateToken));
}

#[test]
fn entries_and_from_entries_undo_each_other() {
    let mut model = Model::new();
    for token in ["one", "two", "one", "six", "two", "one"] {
        model.increment_spam(token.to_string());
    }
    for token in ["ten", "one", "ten"] {
        model.increment_ham(token.to_string());
    }
    let table = model.entries();
    let loaded = Model::from_entries(model.entries()).unwrap();
    assert_eq!(plain(&loaded.entries()), plain(&table));
    assert_eq!(loaded.ham_total(), model.ham_total());
    assert_eq!(loaded.spam_total(), model.spam_total());
    assert_eq!(loaded.ham_total(), 3);
    assert_eq!(loaded.spam_total(), 6);
}
