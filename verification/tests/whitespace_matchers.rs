use std::collections::HashMap;

use lexxor::input::InputString;
use lexxor::matcher::standard::StandardMatcher;
use lexxor::matcher::whitespace::WhitespaceMatcher;
use lexxor::matcher::word::WordMatcher;
use lexxor::matcher::{Matcher, MatcherResult};
use lexxor::token::TOKEN_TYPE_WHITESPACE;
use lexxor::Lexxor;

fn whitespace_only(text: &str) -> Lexxor<512> {
    Lexxor::new(
        InputString::new(String::from(text)),
        vec![StandardMatcher::Whitespace(WhitespaceMatcher {
            index: 0,
            column: 0,
            line: 0,
            precedence: 0,
            running: true,
        })],
    )
}

fn whitespace_and_word(text: &str) -> Lexxor<512> {
    Lexxor::new(
        InputString::new(String::from(text)),
        vec![
            StandardMatcher::Whitespace(WhitespaceMatcher {
                index: 0,
                column: 0,
                line: 0,
                precedence: 0,
                running: true,
            }),
            StandardMatcher::Word(WordMatcher {
                index: 0,
                precedence: 0,
                running: true,
            }),
        ],
    )
}

#[test]
fn test_basic_whitespace_matching() {
    let mut lexxor = whitespace_only("   ");

    let token = lexxor.next_token().unwrap().unwrap();
    assert_eq!(token.token_type, TOKEN_TYPE_WHITESPACE);
    assert_eq!(token.value, "   ");

    assert!(matches!(lexxor.next_token(), Ok(None)));
}

#[test]
fn test_mixed_whitespace_types() {
    let mut lexxor = whitespace_only(" \t\r\n ");

    let token = lexxor.next_token().unwrap().unwrap();
    assert_eq!(token.token_type, TOKEN_TYPE_WHITESPACE);
    assert_eq!(token.value, " \t\r\n ");

    assert!(matches!(lexxor.next_token(), Ok(None)));
}

#[test]
fn test_line_counting() {
    let mut lexxor = whitespace_and_word("a\nb\r\nc\rd");

    let token = lexxor.next_token().unwrap().unwrap();
    assert_eq!(token.value, "a");
    assert_eq!(token.line, 1);
    assert_eq!(token.column, 1);

    let token = lexxor.next_token().unwrap().unwrap();
    assert_eq!(token.token_type, TOKEN_TYPE_WHITESPACE);
    assert_eq!(token.value, "\n");

    let token = lexxor.next_token().unwrap().unwrap();
    assert_eq!(token.value, "b");
    assert_eq!(token.line, 2);
    assert_eq!(token.column, 1);

    let token = lexxor.next_token().unwrap().unwrap();
    assert_eq!(token.token_type, TOKEN_TYPE_WHITESPACE);
    assert_eq!(token.value, "\r\n");

    let token = lexxor.next_token().unwrap().unwrap();
    assert_eq!(token.value, "c");
    assert_eq!(token.line, 3);
    assert_eq!(token.column, 1);

    let token = lexxor.next_token().unwrap().unwrap();
    assert_eq!(token.token_type, TOKEN_TYPE_WHITESPACE);
    assert_eq!(token.value, "\r");
}

#[test]
fn test_whitespace_with_non_whitespace() {
    let mut lexxor = whitespace_and_word("  abc  ");

    let token = lexxor.next_token().unwrap().unwrap();
    assert_eq!(token.token_type, TOKEN_TYPE_WHITESPACE);
    assert_eq!(token.value, "  ");

    let token = lexxor.next_token().unwrap().unwrap();
    assert_eq!(token.value, "abc");

    let token = lexxor.next_token().unwrap().unwrap();
    assert_eq!(token.token_type, TOKEN_TYPE_WHITESPACE);
    assert_eq!(token.value, "  ");
}

#[test]
fn test_unicode_whitespace() {
    let mut lexxor = whitespace_only(" \u{00A0}\u{2002}\u{3000} ");

    let token = lexxor.next_token().unwrap().unwrap();
    assert_eq!(token.token_type, TOKEN_TYPE_WHITESPACE);
    assert_eq!(token.value, " \u{00A0}\u{2002}\u{3000} ");
}

#[test]
fn whitespace_test_empty_input() {
    let mut lexxor = whitespace_only("");
    assert!(matches!(lexxor.next_token(), Ok(None)));
}

#[test]
fn whitespace_test_reset_functionality() {
    let mut matcher = WhitespaceMatcher {
        index: 10,
        column: 5,
        line: 3,
        precedence: 0,
        running: false,
    };

    let mut ctx = HashMap::new();
    matcher.reset(&mut ctx);

    assert_eq!(matcher.index, 0);
    assert_eq!(matcher.column, 0);
    assert_eq!(matcher.line, 0);
    assert!(matcher.running);
}

#[test]
fn test_whitespace_at_end_of_input() {
    let mut lexxor: Lexxor<512> = Lexxor::new(
        InputString::new(String::from("abc   ")),
        vec![
            StandardMatcher::Word(WordMatcher {
                index: 0,
                precedence: 0,
                running: true,
            }),
            StandardMatcher::Whitespace(WhitespaceMatcher {
                index: 0,
                column: 0,
                line: 0,
                precedence: 0,
                running: true,
            }),
        ],
    );

    let token = lexxor.next_token().unwrap().unwrap();
    assert_eq!(token.value, "abc");

    let token = lexxor.next_token().unwrap().unwrap();
    assert_eq!(token.token_type, TOKEN_TYPE_WHITESPACE);
    assert_eq!(token.value, "   ");

    assert!(matches!(lexxor.next_token(), Ok(None)));
}

#[test]
fn test_direct_matcher_methods() {
    let mut matcher = WhitespaceMatcher {
        index: 0,
        column: 0,
        line: 0,
        precedence: 2,
        running: true,
    };

    let mut ctx = HashMap::new();
    let value: Vec<char> = vec![' ', ' ', '\n'];

    assert!(matcher.is_running());

    assert_eq!(matcher.precedence(), 2);

    assert!(matches!(
        matcher.find_match(Some(' '), &value, &mut ctx),
        MatcherResult::Running()
    ));
    assert_eq!(matcher.index, 1);
    assert_eq!(matcher.column, 1);

    assert!(matches!(
        matcher.find_match(Some('\n'), &value, &mut ctx),
        MatcherResult::Running()
    ));
    assert_eq!(matcher.index, 2);
    assert_eq!(matcher.column, 1);
    assert_eq!(matcher.line, 1);

    assert!(matches!(
        matcher.find_match(Some('a'), &value, &mut ctx),
        MatcherResult::Matched(_)
    ));
    assert!(!matcher.is_running());
}
