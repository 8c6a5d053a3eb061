//! A matcher for maximal runs of alphabetic characters.

use crate::chars::{char_is_alphabetic, collect_prefix, is_alpha};
use crate::matcher::{MatchOutcome, Matcher, MatcherResult};
use crate::token::{TOKEN_TYPE_WORD, Token};
use std::collections::HashMap;
use vstd::prelude::*;

verus! {

/// Every character of `s` is alphabetic.
pub open spec fn all_alpha(s: Seq<char>) -> bool {
    forall|i: int| 0 <= i < s.len() ==> is_alpha(#[trigger] s[i])
}

/// Matches a maximal run of alphabetic characters; an empty run fails.
#[derive(Clone, Debug, Copy)]
pub struct WordMatcher {
    /// Current size of the ongoing match.
    pub index: usize,
    /// This matcher's precedence.
    pub precedence: u8,
    /// Whether the matcher is currently running.
    pub running: bool,
}

impl WordMatcher {
    fn generate_word_token(&self, value: &[char]) -> (r: MatcherResult)
        requires
            self.index <= value@.len(),
        ensures
            match r {
                MatcherResult::Matched(t) => self.index >= 1 && t.token_type == TOKEN_TYPE_WORD
                    && t.len == self.index && t.value@ == value@.take(self.index as int) && t.wf()
                    && t.precedence == self.precedence,
                MatcherResult::Failed() => self.index == 0,
                MatcherResult::Running() => false,
            },
    {
        if self.index > 0 {
            MatcherResult::Matched(
                Token {
                    value: collect_prefix(value, self.index),
                    token_type: TOKEN_TYPE_WORD,
                    len: self.index,
                    line: 0,
                    column: self.index,
                    precedence: self.precedence,
                },
            )
        } else {
            MatcherResult::Failed()
        }
    }
}

impl Matcher for WordMatcher {
    open spec fn prec_spec(&self) -> u8 {
        self.precedence
    }

    open spec fn running_spec(&self) -> bool {
        self.running
    }

    open spec fn wf(&self, seen: Seq<char>) -> bool {
        self.index == seen.len() && all_alpha(seen)
    }

    open spec fn outcome(&self, seen: Seq<char>, at_end: bool) -> MatchOutcome {
        if !at_end && seen.len() >= 1 && is_alpha(seen.last()) {
            MatchOutcome::Continue
        } else {
            let k: int = if at_end {
                seen.len() as int
            } else {
                seen.len() - 1
            };
            if k >= 1 {
                MatchOutcome::Emit { kind: TOKEN_TYPE_WORD, len: k }
            } else {
                MatchOutcome::Halt
            }
        }
    }

    fn reset(&mut self, _ctx: &mut HashMap<String, i32>) {
        self.index = 0;
        self.running = true;
    }

    fn find_match(&mut self, oc: Option<char>, value: &[char], _ctx: &mut HashMap<String, i32>) -> (r: MatcherResult) {
        let _n = value.len();
        let cont = match oc {
            Some(c) => char_is_alphabetic(c),
            None => false,
        };
        if cont {
            proof {
                assert forall|i: int| 0 <= i < value@.len() implies is_alpha(
                    #[trigger] value@[i],
                ) by {
                    if i < value@.len() - 1 {
                        assert(value@[i] == value@.drop_last()[i]);
                    } else {
                        assert(value@[i] == value@.last());
                    }
                }
            }
            self.index = self.index + 1;
            MatcherResult::Running()
        } else {
            self.running = false;
            self.generate_word_token(value)
        }
    }

    fn is_running(&self) -> (r: bool) {
        self.running
    }

    fn precedence(&self) -> (r: u8) {
        self.precedence
    }
}

} // verus!
