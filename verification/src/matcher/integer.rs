//! A matcher for maximal runs of numeric characters.

use crate::chars::{char_is_numeric, collect_prefix, is_num};
use crate::matcher::{MatchOutcome, Matcher, MatcherResult};
use crate::token::{TOKEN_TYPE_INTEGER, Token};
use std::collections::HashMap;
use vstd::prelude::*;

verus! {

/// Every character of `s` is numeric.
pub open spec fn all_num(s: Seq<char>) -> bool {
    forall|i: int| 0 <= i < s.len() ==> is_num(#[trigger] s[i])
}

/// Matches a maximal run of numeric characters; an empty run fails.
#[derive(Clone, Debug, Copy)]
pub struct IntegerMatcher {
    /// Current size of the ongoing match.
    pub index: usize,
    /// This matcher's precedence.
    pub precedence: u8,
    /// Whether the matcher is currently running.
    pub running: bool,
}

impl IntegerMatcher {
    fn generate_integer_token(&mut self, value: &[char]) -> (r: MatcherResult)
        requires
            old(self).index <= value@.len(),
        ensures
            *final(self) == (IntegerMatcher { running: false, ..*old(self) }),
            match r {
                MatcherResult::Matched(t) => old(self).index >= 1 && t.token_type
                    == TOKEN_TYPE_INTEGER && t.len == old(self).index && t.value@ == value@.take(
                    old(self).index as int,
                ) && t.wf() && t.precedence == old(self).precedence,
                MatcherResult::Failed() => old(self).index == 0,
                MatcherResult::Running() => false,
            },
    {
        self.running = false;
        if self.index > 0 {
            MatcherResult::Matched(
                Token {
                    value: collect_prefix(value, self.index),
                    token_type: TOKEN_TYPE_INTEGER,
                    len: self.index,
                    line: 0,
                    column: self.index,
                    precedence: self.precedence,
                },
            )
        } else {
            MatcherResult::Failed()
        }
    }
}

impl Matcher for IntegerMatcher {
    open spec fn prec_spec(&self) -> u8 {
        self.precedence
    }

    open spec fn running_spec(&self) -> bool {
        self.running
    }

    open spec fn wf(&self, seen: Seq<char>) -> bool {
        self.index == seen.len() && all_num(seen)
    }

    open spec fn outcome(&self, seen: Seq<char>, at_end: bool) -> MatchOutcome {
        if !at_end && seen.len() >= 1 && is_num(seen.last()) {
            MatchOutcome::Continue
        } else {
            let k: int = if at_end {
                seen.len() as int
            } else {
                seen.len() - 1
            };
            if k >= 1 {
                MatchOutcome::Emit { kind: TOKEN_TYPE_INTEGER, len: k }
            } else {
                MatchOutcome::Halt
            }
        }
    }

    fn reset(&mut self, _ctx: &mut HashMap<String, i32>) {
        self.index = 0;
        self.running = true;
    }

    fn find_match(&mut self, oc: Option<char>, value: &[char], _ctx: &mut HashMap<String, i32>) -> (r: MatcherResult) {
        let _n = value.len();
        let cont = match oc {
            Some(c) => char_is_numeric(c),
            None => false,
        };
        if cont {
            proof {
                assert forall|i: int| 0 <= i < value@.len() implies is_num(#[trigger] value@[i]) by {
                    if i < value@.len() - 1 {
                        assert(value@[i] == value@.drop_last()[i]);
                    } else {
                        assert(value@[i] == value@.last());
                    }
                }
            }
            self.index = self.index + 1;
            MatcherResult::Running()
        } else {
            self.generate_integer_token(value)
        }
    }

    fn is_running(&self) -> (r: bool) {
        self.running
    }

    fn precedence(&self) -> (r: u8) {
        self.precedence
    }
}

} // verus!
