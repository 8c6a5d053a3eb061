use std::collections::HashMap;

use lexxor::input::InputString;
use lexxor::matcher::exact::ExactMatcher;
use lexxor::matcher::standard::StandardMatcher;
use lexxor::matcher::whitespace::WhitespaceMatcher;
use lexxor::matcher::word::WordMatcher;
use lexxor::matcher::Matcher;
use lexxor::token::{TOKEN_TYPE_EXACT, TOKEN_TYPE_WHITESPACE, TOKEN_TYPE_WORD};
use lexxor::{LexxError, Lexxor};

fn word_only(text: &str) -> Lexxor<512> {
    Lexxor::new(
        InputString::new(String::from(text)),
        vec![StandardMatcher::Word(WordMatcher {
            index: 0,
            precedence: 0,
            running: true,
        })],
    )
}

fn word_and_whitespace(text: &str) -> Lexxor<512> {
    Lexxor::new(
        InputString::new(String::from(text)),
        vec![
            StandardMatcher::Word(WordMatcher {
                index: 0,
                precedence: 0,
                running: true,
            }),
            StandardMatcher::Whitespace(WhitespaceMatcher {
                index: 0,
                column: 0,
                line: 0,
                precedence: 0,
                running: true,
            }),
        ],
    )
}

#[test]
fn word_matcher_word_matches_word() {
    let mut lexxor = word_only("The");
    assert!(
        matches!(lexxor.next_token(), Ok(Some(t)) if t.value == "The" && t.token_type == TOKEN_TYPE_WORD)
    );
}

#[test]
fn word_matcher_word_matches_word_with_symbol() {
    let mut lexxor = word_only("Stop!");
    assert!(
        matches!(lexxor.next_token(), Ok(Some(t)) if t.value == "Stop" && t.token_type == TOKEN_TYPE_WORD)
    );
}

#[test]
fn word_matcher_word_matches_word_with_number() {
    let mut lexxor = word_only("Stop1");
    assert!(
        matches!(lexxor.next_token(), Ok(Some(t)) if t.value == "Stop" && t.token_type == TOKEN_TYPE_WORD)
    );
}

#[test]
fn word_matcher_word_matches_multiple_words() {
    let mut lexxor = word_and_whitespace("The quick brown fox qquick");

    assert!(matches!(lexxor.next_token(), Ok(Some(t)) if t.value == "The"));
    assert!(matches!(lexxor.next_token(), Ok(Some(t)) if t.token_type == TOKEN_TYPE_WHITESPACE));
    assert!(matches!(lexxor.next_token(), Ok(Some(t)) if t.value == "quick"));
    assert!(matches!(lexxor.next_token(), Ok(Some(t)) if t.token_type == TOKEN_TYPE_WHITESPACE));
    assert!(matches!(lexxor.next_token(), Ok(Some(t)) if t.value == "brown"));
    assert!(matches!(lexxor.next_token(), Ok(Some(t)) if t.token_type == TOKEN_TYPE_WHITESPACE));
    assert!(matches!(lexxor.next_token(), Ok(Some(t)) if t.value == "fox"));
    assert!(matches!(lexxor.next_token(), Ok(Some(t)) if t.token_type == TOKEN_TYPE_WHITESPACE));
    assert!(
        matches!(lexxor.next_token(), Ok(Some(t)) if t.value == "qquick" && t.line == 1 && t.column == 21)
    );
}

#[test]
fn word_matcher_word_matches_multiple_words_and_lines() {
    let mut lexxor = word_and_whitespace("The quick\rbrown\nfox jumped\r\nover the lazy dog");

    assert!(matches!(lexxor.next_token(), Ok(Some(t)) if t.value == "The"));
    assert!(matches!(lexxor.next_token(), Ok(Some(t)) if t.token_type == TOKEN_TYPE_WHITESPACE));
    assert!(matches!(lexxor.next_token(), Ok(Some(t)) if t.value == "quick"));
    assert!(matches!(lexxor.next_token(), Ok(Some(t)) if t.token_type == TOKEN_TYPE_WHITESPACE));
    assert!(matches!(lexxor.next_token(), Ok(Some(t)) if t.value == "brown"));
    assert!(matches!(lexxor.next_token(), Ok(Some(t)) if t.token_type == TOKEN_TYPE_WHITESPACE));
    assert!(matches!(lexxor.next_token(), Ok(Some(t)) if t.value == "fox"));
    assert!(matches!(lexxor.next_token(), Ok(Some(t)) if t.token_type == TOKEN_TYPE_WHITESPACE));
    assert!(matches!(lexxor.next_token(), Ok(Some(t)) if t.value == "jumped"));
    assert!(matches!(lexxor.next_token(), Ok(Some(t)) if t.token_type == TOKEN_TYPE_WHITESPACE));
    assert!(matches!(lexxor.next_token(), Ok(Some(t)) if t.value == "over"));
    assert!(matches!(lexxor.next_token(), Ok(Some(t)) if t.token_type == TOKEN_TYPE_WHITESPACE));
    assert!(matches!(lexxor.next_token(), Ok(Some(t)) if t.value == "the"));
    assert!(matches!(lexxor.next_token(), Ok(Some(t)) if t.token_type == TOKEN_TYPE_WHITESPACE));
    assert!(matches!(lexxor.next_token(), Ok(Some(t)) if t.value == "lazy"));
    assert!(matches!(lexxor.next_token(), Ok(Some(t)) if t.token_type == TOKEN_TYPE_WHITESPACE));
    assert!(
        matches!(lexxor.next_token(), Ok(Some(t)) if t.value == "dog" && t.line == 4 && t.column == 15)
    );
}

#[test]
fn word_matcher_word_does_not_match_number() {
    let mut lexxor = word_only("512");
    assert!(
        matches!(lexxor.next_token(), Err(LexxError::TokenNotFound(e)) if e == "Could not resolve token at 1, 1: 'Some('5')'.")
    );
}

#[test]
fn word_matcher_word_does_not_match_space() {
    let mut lexxor = word_only(" ");
    assert!(
        matches!(lexxor.next_token(), Err(LexxError::TokenNotFound(e)) if e == "Could not resolve token at 1, 1: 'Some(' ')'.")
    );
}

#[test]
fn word_matcher_word_does_not_match_symbol() {
    let mut lexxor = word_only("%");
    assert!(
        matches!(lexxor.next_token(), Err(LexxError::TokenNotFound(e)) if e == "Could not resolve token at 1, 1: 'Some('%')'.")
    );
}

#[test]
fn test_word_with_unicode_letters() {
    let mut lexxor = word_and_whitespace("résumé привет こんにちは");

    assert!(
        matches!(lexxor.next_token(), Ok(Some(t)) if t.value == "résumé" && t.token_type == TOKEN_TYPE_WORD)
    );
    assert!(matches!(lexxor.next_token(), Ok(Some(_))));
    assert!(
        matches!(lexxor.next_token(), Ok(Some(t)) if t.value == "привет" && t.token_type == TOKEN_TYPE_WORD)
    );
    assert!(matches!(lexxor.next_token(), Ok(Some(_))));
    assert!(
        matches!(lexxor.next_token(), Ok(Some(t)) if t.value == "こんにちは" && t.token_type == TOKEN_TYPE_WORD)
    );
    assert!(matches!(lexxor.next_token(), Ok(None)));
}

#[test]
fn test_word_with_apostrophes() {
    let mut lexxor = word_and_whitespace("don't can't I'll");

    assert!(
        matches!(lexxor.next_token(), Ok(Some(t)) if t.value == "don" && t.token_type == TOKEN_TYPE_WORD)
    );
    assert!(matches!(lexxor.next_token(), Err(LexxError::TokenNotFound(_))));
    assert!(
        matches!(lexxor.next_token(), Ok(Some(t)) if t.value == "t" && t.token_type == TOKEN_TYPE_WORD)
    );
    assert!(matches!(lexxor.next_token(), Ok(Some(_))));
    assert!(
        matches!(lexxor.next_token(), Ok(Some(t)) if t.value == "can" && t.token_type == TOKEN_TYPE_WORD)
    );
    assert!(matches!(lexxor.next_token(), Err(LexxError::TokenNotFound(_))));
    assert!(
        matches!(lexxor.next_token(), Ok(Some(t)) if t.value == "t" && t.token_type == TOKEN_TYPE_WORD)
    );
}

#[test]
fn test_word_with_mixed_content() {
    let mut lexxor = word_and_whitespace("abc123 def!ghi");

    assert!(
        matches!(lexxor.next_token(), Ok(Some(t)) if t.value == "abc" && t.token_type == TOKEN_TYPE_WORD)
    );
    assert!(matches!(lexxor.next_token(), Err(LexxError::TokenNotFound(_))));
    assert!(matches!(lexxor.next_token(), Err(LexxError::TokenNotFound(_))));
    assert!(matches!(lexxor.next_token(), Err(LexxError::TokenNotFound(_))));
    assert!(matches!(lexxor.next_token(), Ok(Some(_))));
    assert!(
        matches!(lexxor.next_token(), Ok(Some(t)) if t.value == "def" && t.token_type == TOKEN_TYPE_WORD)
    );
    assert!(matches!(lexxor.next_token(), Err(LexxError::TokenNotFound(_))));
    assert!(
        matches!(lexxor.next_token(), Ok(Some(t)) if t.value == "ghi" && t.token_type == TOKEN_TYPE_WORD)
    );
}

#[test]
fn test_word_with_precedence() {
    let mut lexxor: Lexxor<512> = Lexxor::new(
        InputString::new(String::from("keyword")),
        vec![
            StandardMatcher::Word(WordMatcher {
                index: 0,
                precedence: 0,
                running: true,
            }),
            StandardMatcher::Exact(ExactMatcher::build_exact_matcher(
                vec!["keyword"],
                TOKEN_TYPE_EXACT,
                1,
            )),
        ],
    );

    assert!(
        matches!(lexxor.next_token(), Ok(Some(t)) if t.value == "keyword" && t.token_type == TOKEN_TYPE_EXACT)
    );
}

#[test]
fn test_word_at_end_of_input() {
    let mut lexxor = word_only("end");
    assert!(
        matches!(lexxor.next_token(), Ok(Some(t)) if t.value == "end" && t.token_type == TOKEN_TYPE_WORD)
    );
    assert!(matches!(lexxor.next_token(), Ok(None)));
}

#[test]
fn word_test_reset_functionality() {
    let mut matcher = WordMatcher {
        index: 10,
        precedence: 0,
        running: false,
    };

    let mut ctx = HashMap::new();
    matcher.reset(&mut ctx);

    assert_eq!(matcher.index, 0);
    assert!(matcher.running);
}

#[test]
fn word_test_empty_input() {
    let mut lexxor = word_only("");
    assert!(matches!(lexxor.next_token(), Ok(None)));
}

#[test]
fn word_matcher_matches_word() {
    let mut lexxor = word_only("The");
    assert!(
        matches!(lexxor.next_token(), Ok(Some(t)) if t.value == "The" && t.token_type == TOKEN_TYPE_WORD)
    );
}

#[test]
fn word_matcher_matches_word_with_symbol() {
    let mut lexxor = word_only("Stop!");
    assert!(
        matches!(lexxor.next_token(), Ok(Some(t)) if t.value == "Stop" && t.token_type == TOKEN_TYPE_WORD)
    );
}

#[test]
fn word_matcher_matches_word_with_number() {
    let mut lexxor = word_only("Stop1");
    assert!(
        matches!(lexxor.next_token(), Ok(Some(t)) if t.value == "Stop" && t.token_type == TOKEN_TYPE_WORD)
    );
}

#[test]
fn word_matcher_matches_multiple_words() {
    let mut lexxor = word_and_whitespace("The quick brown fox qquick");

    assert!(matches!(lexxor.next_token(), Ok(Some(t)) if t.value == "The"));
    assert!(matches!(lexxor.next_token(), Ok(Some(t)) if t.token_type == TOKEN_TYPE_WHITESPACE));
    assert!(matches!(lexxor.next_token(), Ok(Some(t)) if t.value == "quick"));
    assert!(matches!(lexxor.next_token(), Ok(Some(t)) if t.token_type == TOKEN_TYPE_WHITESPACE));
    assert!(matches!(lexxor.next_token(), Ok(Some(t)) if t.value == "brown"));
    assert!(matches!(lexxor.next_token(), Ok(Some(t)) if t.token_type == TOKEN_TYPE_WHITESPACE));
    assert!(matches!(lexxor.next_token(), Ok(Some(t)) if t.value == "fox"));
    assert!(matches!(lexxor.next_token(), Ok(Some(t)) if t.token_type == TOKEN_TYPE_WHITESPACE));
    assert!(
        matches!(lexxor.next_token(), Ok(Some(t)) if t.value == "qquick" && t.line == 1 && t.column == 21)
    );
}

#[test]
fn word_matcher_matches_multiple_words_and_lines() {
    let mut lexxor = word_and_whitespace("The quick\rbrown\nfox jumped\r\nover the lazy dog");

    assert!(matches!(lexxor.next_token(), Ok(Some(t)) if t.value == "The"));
    assert!(matches!(lexxor.next_token(), Ok(Some(t)) if t.token_type == TOKEN_TYPE_WHITESPACE));
    assert!(matches!(lexxor.next_token(), Ok(Some(t)) if t.value == "quick"));
    assert!(matches!(lexxor.next_token(), Ok(Some(t)) if t.token_type == TOKEN_TYPE_WHITESPACE));
    assert!(matches!(lexxor.next_token(), Ok(Some(t)) if t.value == "brown"));
    assert!(matches!(lexxor.next_token(), Ok(Some(t)) if t.token_type == TOKEN_TYPE_WHITESPACE));
    assert!(matches!(lexxor.next_token(), Ok(Some(t)) if t.value == "fox"));
    assert!(matches!(lexxor.next_token(), Ok(Some(t)) if t.token_type == TOKEN_TYPE_WHITESPACE));
    assert!(matches!(lexxor.next_token(), Ok(Some(t)) if t.value == "jumped"));
    assert!(matches!(lexxor.next_token(), Ok(Some(t)) if t.token_type == TOKEN_TYPE_WHITESPACE));
    assert!(matches!(lexxor.next_token(), Ok(Some(t)) if t.value == "over"));
    assert!(matches!(lexxor.next_token(), Ok(Some(t)) if t.token_type == TOKEN_TYPE_WHITESPACE));
    assert!(matches!(lexxor.next_token(), Ok(Some(t)) if t.value == "the"));
    assert!(matches!(lexxor.next_token(), Ok(Some(t)) if t.token_type == TOKEN_TYPE_WHITESPACE));
    assert!(matches!(lexxor.next_token(), Ok(Some(t)) if t.value == "lazy"));
    assert!(matches!(lexxor.next_token(), Ok(Some(t)) if t.token_type == TOKEN_TYPE_WHITESPACE));
    assert!(
        matches!(lexxor.next_token(), Ok(Some(t)) if t.value == "dog" && t.line == 4 && t.column == 15)
    );
}

#[test]
fn word_matcher_does_not_match_number() {
    let mut lexxor = word_only("512");
    assert!(matches!(lexxor.next_token(), Err(LexxError::TokenNotFound(_))));
}

#[test]
fn word_matcher_does_not_match_space() {
    let mut lexxor = word_only(" ");
    assert!(matches!(lexxor.next_token(), Err(LexxError::TokenNotFound(_))));
}

#[test]
fn word_matcher_does_not_match_symbol() {
    let mut lexxor = word_only("%");
    assert!(matches!(lexxor.next_token(), Err(LexxError::TokenNotFound(_))));
}
