//! The result of a successful match.

use vstd::prelude::*;

verus! {

/// Token kind for integers. The kinds are plain numbers, not an enum, so
/// user code can extend the set; values of 100 and above are free for users.
pub const TOKEN_TYPE_INTEGER: u16 = 1;

/// Token kind for floats.
pub const TOKEN_TYPE_FLOAT: u16 = 2;

/// Token kind for whitespace.
pub const TOKEN_TYPE_WHITESPACE: u16 = 3;

/// Token kind for words.
pub const TOKEN_TYPE_WORD: u16 = 4;

/// Token kind for symbols.
pub const TOKEN_TYPE_SYMBOL: u16 = 5;

/// Default token kind for exact literal matches.
pub const TOKEN_TYPE_EXACT: u16 = 6;

/// Default token kind for keyword matches.
pub const TOKEN_TYPE_KEYWORD: u16 = 7;

/// A matched lexeme together with its kind and position.
#[derive(Debug)]
pub struct Token {
    /// The exact character sequence that was matched.
    pub value: String,
    /// The kind of token; intentionally not an enum so users can extend it.
    pub token_type: u16,
    /// The length of the match in characters, pre-computed.
    pub len: usize,
    /// 1-based line of the token's first character.
    pub line: usize,
    /// 1-based column of the token's first character.
    pub column: usize,
    /// The precedence of the matcher that produced this match.
    pub precedence: u8,
}

impl Token {
    /// What a token means: its character sequence and the plain fields.
    pub open spec fn view(&self) -> (Seq<char>, u16, usize, usize, usize, u8) {
        (self.value@, self.token_type, self.len, self.line, self.column, self.precedence)
    }

    /// The stated length agrees with the character count of the value.
    pub open spec fn wf(&self) -> bool {
        self.len == self.value@.len()
    }
}

/// Two tokens agree in every observable respect.
pub open spec fn token_eqv(a: &Token, b: &Token) -> bool {
    a@ == b@
}

impl PartialEq for Token {
    fn eq(&self, other: &Self) -> (r: bool) {
        self.value == other.value && self.token_type == other.token_type && self.len == other.len
            && self.line == other.line && self.column == other.column && self.precedence
            == other.precedence
    }
}

impl Eq for Token {

}

impl vstd::std_specs::cmp::PartialEqSpecImpl for Token {
    open spec fn obeys_eq_spec() -> bool {
        true
    }

    open spec fn eq_spec(&self, other: &Token) -> bool {
        token_eqv(self, other)
    }
}

impl Clone for Token {
    /// The copy agrees with the original in every observable respect.
    fn clone(&self) -> (r: Self)
        ensures
            token_eqv(&r, self),
    {
        Token {
            value: self.value.clone(),
            token_type: self.token_type,
            len: self.len,
            line: self.line,
            column: self.column,
            precedence: self.precedence,
        }
    }
}

} // verus!
