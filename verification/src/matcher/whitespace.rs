//! A matcher for maximal runs of whitespace characters.

use crate::chars::{char_is_whitespace, collect_prefix, is_space};
use crate::matcher::{MatchOutcome, Matcher, MatcherResult};
use crate::token::{TOKEN_TYPE_WHITESPACE, Token};
use std::collections::HashMap;
use vstd::prelude::*;

verus! {

/// Every character of `s` is whitespace.
pub open spec fn all_space(s: Seq<char>) -> bool {
    forall|i: int| 0 <= i < s.len() ==> is_space(#[trigger] s[i])
}

/// Matches a maximal run of whitespace characters; an empty run fails.
///
/// The matcher keeps its own line and column counters over the run it is
/// consuming; the engine's authoritative position bookkeeping does not use
/// them, they are informational.
#[derive(Clone, Debug, Copy)]
pub struct WhitespaceMatcher {
    /// Current size of the ongoing match.
    pub index: usize,
    /// Column count within the run.
    pub column: usize,
    /// Line count within the run.
    pub line: usize,
    /// This matcher's precedence.
    pub precedence: u8,
    /// Whether the matcher is currently running.
    pub running: bool,
}

impl WhitespaceMatcher {
    fn generate_whitspace_token(&mut self, value: &[char]) -> (r: MatcherResult)
        requires
            old(self).index <= value@.len(),
        ensures
            *final(self) == (WhitespaceMatcher { running: false, ..*old(self) }),
            match r {
                MatcherResult::Matched(t) => old(self).index >= 1 && t.token_type
                    == TOKEN_TYPE_WHITESPACE && t.len == old(self).index && t.value@
                    == value@.take(old(self).index as int) && t.wf() && t.precedence == old(
                    self,
                ).precedence,
                MatcherResult::Failed() => old(self).index == 0,
                MatcherResult::Running() => false,
            },
    {
        self.running = false;
        if self.index > 0 {
            MatcherResult::Matched(
                Token {
                    value: collect_prefix(value, self.index),
                    token_type: TOKEN_TYPE_WHITESPACE,
                    len: self.index,
                    line: self.line,
                    column: self.column,
                    precedence: self.precedence,
                },
            )
        } else {
            MatcherResult::Failed()
        }
    }
}

impl Matcher for WhitespaceMatcher {
    open spec fn prec_spec(&self) -> u8 {
        self.precedence
    }

    open spec fn running_spec(&self) -> bool {
        self.running
    }

    open spec fn wf(&self, seen: Seq<char>) -> bool {
        self.index == seen.len() && all_space(seen) && self.column <= seen.len() && self.line
            <= seen.len()
    }

    open spec fn outcome(&self, seen: Seq<char>, at_end: bool) -> MatchOutcome {
        if !at_end && seen.len() >= 1 && is_space(seen.last()) {
            MatchOutcome::Continue
        } else {
            let k: int = if at_end {
                seen.len() as int
            } else {
                seen.len() - 1
            };
            if k >= 1 {
                MatchOutcome::Emit { kind: TOKEN_TYPE_WHITESPACE, len: k }
            } else {
                MatchOutcome::Halt
            }
        }
    }

    fn reset(&mut self, _ctx: &mut HashMap<String, i32>) {
        self.index = 0;
        self.line = 0;
        self.column = 0;
        self.running = true;
    }

    fn find_match(&mut self, oc: Option<char>, value: &[char], _ctx: &mut HashMap<String, i32>) -> (r: MatcherResult) {
        let _n = value.len();
        let cont = match oc {
            Some(c) => char_is_whitespace(c),
            None => false,
        };
        if cont {
            proof {
                assert forall|i: int| 0 <= i < value@.len() implies is_space(
                    #[trigger] value@[i],
                ) by {
                    if i < value@.len() - 1 {
                        assert(value@[i] == value@.drop_last()[i]);
                    } else {
                        assert(value@[i] == value@.last());
                    }
                }
            }
            self.index = self.index + 1;
            self.column = self.column + 1;
            let c = match oc {
                Some(c) => c,
                None => ' ',
            };
            if c == '\r' {
                self.column = 0;
            } else if c == '\n' {
                self.column = 1;
                self.line = self.line + 1;
            }
            MatcherResult::Running()
        } else {
            self.generate_whitspace_token(value)
        }
    }

    fn is_running(&self) -> (r: bool) {
        self.running
    }

    fn precedence(&self) -> (r: u8) {
        self.precedence
    }
}

} // verus!
