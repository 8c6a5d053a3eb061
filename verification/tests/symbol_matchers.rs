use std::collections::HashMap;

use lexxor::input::InputString;
use lexxor::matcher::standard::StandardMatcher;
use lexxor::matcher::symbol::SymbolMatcher;
use lexxor::matcher::whitespace::WhitespaceMatcher;
use lexxor::matcher::Matcher;
use lexxor::token::{TOKEN_TYPE_SYMBOL, TOKEN_TYPE_WHITESPACE};
use lexxor::{LexxError, Lexxor};

fn symbol_only(text: &str) -> Lexxor<512> {
    Lexxor::new(
        InputString::new(String::from(text)),
        vec![StandardMatcher::Symbol(SymbolMatcher {
            index: 0,
            precedence: 0,
            running: true,
        })],
    )
}

#[test]
fn matcher_symbol_matches_single_symbol() {
    let mut lexxor = symbol_only("@");
    assert!(
        matches!(lexxor.next_token(), Ok(Some(t)) if t.value == "@" && t.token_type == TOKEN_TYPE_SYMBOL)
    );
}

#[test]
fn matcher_symbol_matches_multiple_symbols() {
    let mut lexxor = symbol_only("!@#$%^&*");
    assert!(
        matches!(lexxor.next_token(), Ok(Some(t)) if t.value == "!@#$%^&*" && t.token_type == TOKEN_TYPE_SYMBOL)
    );
}

#[test]
fn matcher_symbol_stops_at_alphanumeric() {
    let mut lexxor = symbol_only("@#$abc");
    assert!(
        matches!(lexxor.next_token(), Ok(Some(t)) if t.value == "@#$" && t.token_type == TOKEN_TYPE_SYMBOL)
    );
}

#[test]
fn matcher_symbol_stops_at_whitespace() {
    let mut lexxor: Lexxor<512> = Lexxor::new(
        InputString::new(String::from("@#$ %^&")),
        vec![
            StandardMatcher::Symbol(SymbolMatcher {
                index: 0,
                precedence: 0,
                running: true,
            }),
            StandardMatcher::Whitespace(WhitespaceMatcher {
                index: 0,
                column: 0,
                line: 0,
                precedence: 0,
                running: true,
            }),
        ],
    );

    assert!(
        matches!(lexxor.next_token(), Ok(Some(t)) if t.value == "@#$" && t.token_type == TOKEN_TYPE_SYMBOL)
    );
    assert!(matches!(lexxor.next_token(), Ok(Some(t)) if t.token_type == TOKEN_TYPE_WHITESPACE));
    assert!(
        matches!(lexxor.next_token(), Ok(Some(t)) if t.value == "%^&" && t.token_type == TOKEN_TYPE_SYMBOL)
    );
}

#[test]
fn matcher_symbol_handles_empty_input() {
    let mut lexxor = symbol_only("");
    assert!(matches!(lexxor.next_token(), Ok(None)));
}

#[test]
fn matcher_symbol_handles_non_symbol_input() {
    let mut lexxor = symbol_only("abc123");
    assert!(matches!(lexxor.next_token(), Err(LexxError::TokenNotFound(_))));
}

#[test]
fn matcher_symbol_resets_properly() {
    let mut matcher = SymbolMatcher {
        index: 5,
        precedence: 0,
        running: false,
    };

    let mut ctx = HashMap::<String, i32>::new();
    matcher.reset(&mut ctx);

    assert_eq!(matcher.index, 0);
    assert_eq!(matcher.running, true);
}

#[test]
fn matcher_symbol_returns_correct_token_type() {
    let mut lexxor = symbol_only("+-*/");
    assert!(
        matches!(lexxor.next_token(), Ok(Some(t)) if t.value == "+-*/" && t.token_type == TOKEN_TYPE_SYMBOL && t.precedence == 0)
    );
}

#[test]
fn matcher_symbol_respects_precedence() {
    let custom_precedence = 5;
    let mut lexxor: Lexxor<512> = Lexxor::new(
        InputString::new(String::from("++")),
        vec![StandardMatcher::Symbol(SymbolMatcher {
            index: 0,
            precedence: custom_precedence,
            running: true,
        })],
    );

    assert!(matches!(lexxor.next_token(), Ok(Some(t)) if t.precedence == custom_precedence));
}

#[test]
fn matcher_symbol_handles_unicode_symbols() {
    let mut lexxor = symbol_only("§¶†‡");
    assert!(
        matches!(lexxor.next_token(), Ok(Some(t)) if t.value == "§¶†‡" && t.token_type == TOKEN_TYPE_SYMBOL)
    );
}
