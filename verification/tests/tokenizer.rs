use bayespam::classifier::Classifier;
use bayespam::tokenizer::clean_chars;
use bayespam::tokenizer::keeps;
use bayespam::tokenizer::tokenize;

#[test]
fn tokenize_strips_digits_and_punctuation() {
    let tokens = tokenize("Hi Bob, don't forget our meeting today at 4pm.");
    assert_eq!(tokens, vec!["bob", "dont", "forget", "our", "meeting", "today"]);
    for token in &tokens {
        assert!(token.len() > 2);
        assert_eq!(*token, token.to_lowercase());
        assert!(token.chars().all(|c| c.is_alphabetic() || c == ':'));
    }
}

#[test]
fn tokenize_keeps_the_colon() {
    let tokens = tokenize("Don't forget our special promotion: -30% on men shoes, only today!");
    assert_eq!(
        tokens,
        vec!["dont", "forget", "our", "special", "promotion:", "men", "shoes", "only", "today"]
    );
}

#[test]
fn tokenize_fuses_what_stripping_brings_together() {
    assert_eq!(tokenize("a1b2c3"), vec!["abc"]);
    assert_eq!(tokenize("-30%on"), Vec::<String>::new());
    assert_eq!(tokenize("well-known e.g. 19%weight"), vec!["wellknown", "weight"]);
}

#[test]
fn tokenize_of_nothing_is_empty() {
    assert!(tokenize("").is_empty());
    assert!(tokenize("!!! 123 @@@").is_empty());
    assert!(tokenize("   \t\n  ").is_empty());
    assert!(tokenize("a bc de").is_empty());
}

#[test]
fn tokenize_lowers_the_case() {
    assert_eq!(tokenize("HELLO World"), vec!["hello", "world"]);
    assert_eq!(tokenize("\u{c9}COLE"), vec!["\u{e9}cole"]);
}

#[test]
fn tokenize_splits_at_every_kind_of_whitespace() {
    assert_eq!(tokenize("abc\u{2003}def\tghi\njkl  \r\n mno"), vec!["abc", "def", "ghi", "jkl", "mno"]);
    assert_eq!(tokenize("  lead and trail  "), vec!["lead", "and", "trail"]);
}

#[test]
fn tokenize_measures_words_in_bytes() {
    assert_eq!(tokenize("ab"), Vec::<String>::new());
    assert_eq!(tokenize("abc"), vec!["abc"]);
    assert_eq!(tokenize("\u{e9}"), Vec::<String>::new());
    assert_eq!(tokenize("\u{e9}a"), vec!["\u{e9}a"]);
}

#[test]
fn tokenize_is_idempotent_on_its_own_output() {
    let messages = [
        "Hi Bob, don't forget our meeting today at 4pm.",
        "Don't forget our special promotion: -30% on men shoes, only today!",
        "Lose up to 19% weight. Special promotion on our new weightloss.",
        "",
    ];
    for msg in messages {
        let tokens = tokenize(msg);
        let again = tokenize(&tokens.join(" "));
        assert_eq!(again, tokens);
    }
}

#[test]
fn tokenize_changes_a_token_that_is_not_stable() {
    let tokens = tokenize("\u{130}stanbul");
    assert_eq!(tokens, vec!["i\u{307}stanbul"]);
    let again = tokenize(&tokens.join(" "));
    assert_eq!(again, vec!["istanbul"]);
}

#[test]
fn keeps_letters_separators_and_the_colon() {
    assert!(keeps('a'));
    assert!(keeps('Z'));
    assert!(keeps('\u{e9}'));
    assert!(keeps(' '));
    assert!(keeps('\n'));
    assert!(keeps(':'));
    assert!(!keeps('1'));
    assert!(!keeps('%'));
    assert!(!keeps('\''));
    assert!(!keeps('-'));
}

#[test]
fn clean_chars_removes_the_rest() {
    assert_eq!(clean_chars("a1 b!:C"), vec!['a', ' ', 'b', ':', 'C']);
    assert_eq!(clean_chars("123"), Vec::<char>::new());
}

#[test]
fn load_word_list_gives_the_tokens() {
    let msg = "Lose up to 19% weight. Special promotion on our new weightloss.";
    assert_eq!(
        Classifier::load_word_list(msg),
        vec!["lose", "weight", "special", "promotion", "our", "new", "weightloss"]
    );
    assert_eq!(Classifier::load_word_list(msg), tokenize(msg));
}
