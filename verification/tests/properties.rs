use lexxor::input::InputString;
use lexxor::matcher::exact::ExactMatcher;
use lexxor::matcher::float::FloatMatcher;
use lexxor::matcher::integer::IntegerMatcher;
use lexxor::matcher::keyword::KeywordMatcher;
use lexxor::matcher::standard::StandardMatcher;
use lexxor::matcher::symbol::SymbolMatcher;
use lexxor::matcher::whitespace::WhitespaceMatcher;
use lexxor::matcher::word::WordMatcher;
use lexxor::rolling_char_buffer::{RollingCharBuffer, RollingCharBufferError};
use lexxor::token::{
    TOKEN_TYPE_EXACT, TOKEN_TYPE_FLOAT, TOKEN_TYPE_INTEGER, TOKEN_TYPE_KEYWORD, TOKEN_TYPE_SYMBOL,
    TOKEN_TYPE_WHITESPACE, TOKEN_TYPE_WORD, Token,
};
use lexxor::{LexxError, Lexxor};

fn word_matcher() -> StandardMatcher {
    StandardMatcher::Word(WordMatcher {
        index: 0,
        precedence: 0,
        running: true,
    })
}

fn ws_matcher() -> StandardMatcher {
    StandardMatcher::Whitespace(WhitespaceMatcher {
        index: 0,
        column: 0,
        line: 0,
        precedence: 0,
        running: true,
    })
}

fn symbol_matcher() -> StandardMatcher {
    StandardMatcher::Symbol(SymbolMatcher {
        index: 0,
        precedence: 0,
        running: true,
    })
}

#[test]
fn scenario_words_whitespace_symbols_and_literals() {
    let mut lexxor: Lexxor<512> = Lexxor::new(
        InputString::new(String::from("The quick\n\nbrown fox.")),
        vec![
            word_matcher(),
            ws_matcher(),
            symbol_matcher(),
            StandardMatcher::Exact(ExactMatcher::build_exact_matcher(
                vec!["quick"],
                TOKEN_TYPE_EXACT,
                1,
            )),
        ],
    );

    assert!(
        matches!(lexxor.next_token(), Ok(Some(t)) if t.value == "The" && t.token_type == TOKEN_TYPE_WORD && t.line == 1 && t.column == 1)
    );
    assert!(
        matches!(lexxor.next_token(), Ok(Some(t)) if t.token_type == TOKEN_TYPE_WHITESPACE && t.line == 1 && t.column == 4)
    );
    assert!(
        matches!(lexxor.next_token(), Ok(Some(t)) if t.value == "quick" && t.token_type == TOKEN_TYPE_EXACT && t.line == 1 && t.column == 5)
    );
    assert!(
        matches!(lexxor.next_token(), Ok(Some(t)) if t.token_type == TOKEN_TYPE_WHITESPACE && t.line == 1 && t.column == 10)
    );
    assert!(
        matches!(lexxor.next_token(), Ok(Some(t)) if t.value == "brown" && t.token_type == TOKEN_TYPE_WORD && t.line == 3 && t.column == 1)
    );
    assert!(
        matches!(lexxor.next_token(), Ok(Some(t)) if t.token_type == TOKEN_TYPE_WHITESPACE && t.line == 3 && t.column == 6)
    );
    assert!(
        matches!(lexxor.next_token(), Ok(Some(t)) if t.value == "fox" && t.token_type == TOKEN_TYPE_WORD && t.line == 3 && t.column == 7)
    );
    assert!(
        matches!(lexxor.next_token(), Ok(Some(t)) if t.value == "." && t.token_type == TOKEN_TYPE_SYMBOL && t.line == 3 && t.column == 10)
    );
    assert!(matches!(lexxor.next_token(), Ok(None)));
}

#[test]
fn scenario_numbers_and_dots() {
    let mut lexxor: Lexxor<512> = Lexxor::new(
        InputString::new(String::from("1.0 5 0.012345 .9 00.00 100.0 4.")),
        vec![
            StandardMatcher::Float(FloatMatcher {
                index: 0,
                precedence: 0,
                dot: false,
                float: false,
                running: true,
            }),
            symbol_matcher(),
            StandardMatcher::Integer(IntegerMatcher {
                index: 0,
                precedence: 0,
                running: true,
            }),
            ws_matcher(),
        ],
    );

    assert!(
        matches!(lexxor.next_token(), Ok(Some(t)) if t.value == "1.0" && t.token_type == TOKEN_TYPE_FLOAT && t.line == 1 && t.column == 1)
    );
    assert!(matches!(lexxor.next_token(), Ok(Some(t)) if t.token_type == TOKEN_TYPE_WHITESPACE));
    assert!(
        matches!(lexxor.next_token(), Ok(Some(t)) if t.value == "5" && t.token_type == TOKEN_TYPE_INTEGER && t.line == 1 && t.column == 5)
    );
    assert!(matches!(lexxor.next_token(), Ok(Some(t)) if t.token_type == TOKEN_TYPE_WHITESPACE));
    assert!(
        matches!(lexxor.next_token(), Ok(Some(t)) if t.value == "0.012345" && t.token_type == TOKEN_TYPE_FLOAT && t.line == 1 && t.column == 7)
    );
    assert!(matches!(lexxor.next_token(), Ok(Some(t)) if t.token_type == TOKEN_TYPE_WHITESPACE));
    assert!(
        matches!(lexxor.next_token(), Ok(Some(t)) if t.value == "." && t.token_type == TOKEN_TYPE_SYMBOL && t.line == 1 && t.column == 16)
    );
    assert!(
        matches!(lexxor.next_token(), Ok(Some(t)) if t.value == "9" && t.token_type == TOKEN_TYPE_INTEGER && t.line == 1 && t.column == 17)
    );
    assert!(matches!(lexxor.next_token(), Ok(Some(t)) if t.token_type == TOKEN_TYPE_WHITESPACE));
    assert!(
        matches!(lexxor.next_token(), Ok(Some(t)) if t.value == "00.00" && t.token_type == TOKEN_TYPE_FLOAT && t.line == 1 && t.column == 19)
    );
    assert!(matches!(lexxor.next_token(), Ok(Some(t)) if t.token_type == TOKEN_TYPE_WHITESPACE));
    assert!(
        matches!(lexxor.next_token(), Ok(Some(t)) if t.value == "100.0" && t.token_type == TOKEN_TYPE_FLOAT && t.line == 1 && t.column == 25)
    );
    assert!(matches!(lexxor.next_token(), Ok(Some(t)) if t.token_type == TOKEN_TYPE_WHITESPACE));
    assert!(
        matches!(lexxor.next_token(), Ok(Some(t)) if t.value == "4" && t.token_type == TOKEN_TYPE_INTEGER && t.line == 1 && t.column == 31)
    );
    assert!(
        matches!(lexxor.next_token(), Ok(Some(t)) if t.value == "." && t.token_type == TOKEN_TYPE_SYMBOL && t.line == 1 && t.column == 32)
    );
    assert!(matches!(lexxor.next_token(), Ok(None)));
}

#[test]
fn scenario_bounded_identifiers() {
    let mut lexxor: Lexxor<512> = Lexxor::new(
        InputString::new(String::from("matcher matching match dog")),
        vec![
            word_matcher(),
            ws_matcher(),
            StandardMatcher::Keyword(KeywordMatcher::build_matcher_keyword(
                vec!["match", "dog"],
                TOKEN_TYPE_KEYWORD,
                1,
            )),
        ],
    );

    assert!(
        matches!(lexxor.next_token(), Ok(Some(t)) if t.value == "matcher" && t.token_type == TOKEN_TYPE_WORD && t.line == 1 && t.column == 1)
    );
    assert!(matches!(lexxor.next_token(), Ok(Some(t)) if t.token_type == TOKEN_TYPE_WHITESPACE));
    assert!(
        matches!(lexxor.next_token(), Ok(Some(t)) if t.value == "matching" && t.token_type == TOKEN_TYPE_WORD && t.line == 1 && t.column == 9)
    );
    assert!(matches!(lexxor.next_token(), Ok(Some(t)) if t.token_type == TOKEN_TYPE_WHITESPACE));
    assert!(
        matches!(lexxor.next_token(), Ok(Some(t)) if t.value == "match" && t.token_type == TOKEN_TYPE_KEYWORD && t.line == 1 && t.column == 18)
    );
    assert!(matches!(lexxor.next_token(), Ok(Some(t)) if t.token_type == TOKEN_TYPE_WHITESPACE));
    assert!(
        matches!(lexxor.next_token(), Ok(Some(t)) if t.value == "dog" && t.token_type == TOKEN_TYPE_KEYWORD && t.line == 1 && t.column == 24)
    );
    assert!(matches!(lexxor.next_token(), Ok(None)));
}

#[test]
fn scenario_buffer_of_five() {
    let mut rb = RollingCharBuffer::<5>::new();
    assert_eq!(rb.push('a'), Ok(()));
    assert_eq!(rb.push('b'), Ok(()));
    assert_eq!(rb.push('c'), Ok(()));
    assert_eq!(rb.push('d'), Ok(()));
    assert_eq!(rb.push('e'), Ok(()));
    assert!(rb.is_full());
    assert_eq!(rb.push('f'), Err(RollingCharBufferError::BufferFullError));
    assert_eq!(rb.read(), Ok('a'));
    assert_eq!(rb.push('f'), Ok(()));
    assert_eq!(
        rb.extend(&['g', 'h', 'i']),
        Err(RollingCharBufferError::BufferFullError)
    );
    assert_eq!(rb.read(), Ok('b'));
    assert_eq!(rb.read(), Ok('c'));
    assert_eq!(rb.read(), Ok('d'));
    assert_eq!(rb.read(), Ok('e'));
    assert_eq!(rb.read(), Ok('f'));
    assert!(rb.is_empty());
}

#[test]
fn token_longer_than_capacity_is_a_fatal_error() {
    let mut lexxor: Lexxor<3> = Lexxor::new(
        InputString::new(String::from("abcd")),
        vec![word_matcher()],
    );

    assert!(
        matches!(lexxor.next_token(), Err(LexxError::Error(s)) if s == "Ran out of buffer space at 1, 1: 'd'.")
    );
}

#[test]
fn set_input_resets_position_and_replay() {
    let mut lexxor: Lexxor<512> = Lexxor::new(
        InputString::new(String::from("one\ntwo")),
        vec![word_matcher(), ws_matcher()],
    );

    assert!(
        matches!(lexxor.next_token(), Ok(Some(t)) if t.value == "one" && t.line == 1 && t.column == 1)
    );
    assert!(matches!(lexxor.next_token(), Ok(Some(t)) if t.token_type == TOKEN_TYPE_WHITESPACE));

    lexxor.set_input(InputString::new(String::from("fresh")));
    assert!(
        matches!(lexxor.next_token(), Ok(Some(t)) if t.value == "fresh" && t.line == 1 && t.column == 1)
    );
    assert!(matches!(lexxor.next_token(), Ok(None)));
}

#[test]
fn equal_precedence_longer_match_wins() {
    let mut lexxor: Lexxor<512> = Lexxor::new(
        InputString::new(String::from("abc")),
        vec![
            word_matcher(),
            StandardMatcher::Exact(ExactMatcher::build_exact_matcher(
                vec!["ab"],
                TOKEN_TYPE_EXACT,
                0,
            )),
        ],
    );

    assert!(
        matches!(lexxor.next_token(), Ok(Some(t)) if t.value == "abc" && t.token_type == TOKEN_TYPE_WORD)
    );
}

#[test]
fn higher_precedence_beats_longer_match() {
    let mut lexxor: Lexxor<512> = Lexxor::new(
        InputString::new(String::from("abc")),
        vec![
            word_matcher(),
            StandardMatcher::Exact(ExactMatcher::build_exact_matcher(
                vec!["ab"],
                TOKEN_TYPE_EXACT,
                1,
            )),
        ],
    );

    assert!(
        matches!(lexxor.next_token(), Ok(Some(t)) if t.value == "ab" && t.token_type == TOKEN_TYPE_EXACT)
    );
    assert!(
        matches!(lexxor.next_token(), Ok(Some(t)) if t.value == "c" && t.token_type == TOKEN_TYPE_WORD && t.line == 1 && t.column == 3)
    );
}

#[test]
fn carriage_return_line_feed_split_across_tokens_counts_once() {
    let mut lexxor: Lexxor<512> = Lexxor::new(
        InputString::new(String::from("a\r\nb")),
        vec![StandardMatcher::Exact(ExactMatcher::build_exact_matcher(
            vec!["a\r", "\nb"],
            TOKEN_TYPE_EXACT,
            0,
        ))],
    );

    assert!(
        matches!(lexxor.next_token(), Ok(Some(t)) if t.value == "a\r" && t.line == 1 && t.column == 1)
    );
    assert!(
        matches!(lexxor.next_token(), Ok(Some(t)) if t.value == "\nb" && t.line == 2 && t.column == 1)
    );
    assert!(matches!(lexxor.next_token(), Ok(None)));
}

#[test]
fn peek_caches_errors_too() {
    let mut lexxor: Lexxor<512> = Lexxor::new(
        InputString::new(String::from("5")),
        vec![word_matcher()],
    );

    let peeked = lexxor.look_ahead();
    assert!(
        matches!(peeked, Err(LexxError::TokenNotFound(ref s)) if s == "Could not resolve token at 1, 1: 'Some('5')'.")
    );
    assert!(
        matches!(lexxor.next_token(), Err(LexxError::TokenNotFound(s)) if s == "Could not resolve token at 1, 1: 'Some('5')'.")
    );
}

#[test]
fn rewind_rejects_more_than_capacity() {
    let mut lexxor: Lexxor<4> = Lexxor::new(
        InputString::new(String::from("")),
        vec![word_matcher()],
    );

    let token = Token {
        value: String::from("abcde"),
        token_type: TOKEN_TYPE_WORD,
        len: 5,
        line: 1,
        column: 1,
        precedence: 0,
    };
    assert_eq!(
        lexxor.rewind(token),
        Err(RollingCharBufferError::BufferFullError)
    );
    assert!(matches!(lexxor.next_token(), Ok(None)));
}

#[test]
fn rewound_text_need_not_come_from_the_engine() {
    let mut lexxor: Lexxor<512> = Lexxor::new(
        InputString::new(String::from("")),
        vec![word_matcher()],
    );

    let token = Token {
        value: String::from("made"),
        token_type: TOKEN_TYPE_WORD,
        len: 4,
        line: 7,
        column: 3,
        precedence: 0,
    };
    assert_eq!(lexxor.rewind(token), Ok(508));
    assert!(
        matches!(lexxor.next_token(), Ok(Some(t)) if t.value == "made" && t.line == 7 && t.column == 3)
    );
    assert!(matches!(lexxor.next_token(), Ok(None)));
}

#[test]
fn tokens_concatenate_to_the_consumed_input() {
    let input = "one two\nthree 44!";
    let mut lexxor: Lexxor<512> = Lexxor::new(
        InputString::new(String::from(input)),
        vec![
            word_matcher(),
            ws_matcher(),
            symbol_matcher(),
            StandardMatcher::Integer(IntegerMatcher {
                index: 0,
                precedence: 0,
                running: true,
            }),
        ],
    );

    let mut gathered = String::new();
    loop {
        match lexxor.next_token() {
            Ok(Some(t)) => gathered.push_str(&t.value),
            Ok(None) => break,
            Err(e) => panic!("unexpected error: {:?}", e),
        }
    }
    assert_eq!(gathered, input);
}
