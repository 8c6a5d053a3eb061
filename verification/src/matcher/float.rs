//! A matcher for numbers of the shape digits, dot, digits.
//!
//! At least one digit must stand before the dot and at least one after it:
//! neither a bare `.9` nor a bare `4.` matches; those fall to other
//! matchers.

use crate::chars::{char_is_numeric, collect_prefix, is_num};
use crate::matcher::integer::all_num;
use crate::matcher::{MatchOutcome, Matcher, MatcherResult};
use crate::token::{TOKEN_TYPE_FLOAT, Token};
use std::collections::HashMap;
use vstd::prelude::*;

verus! {

/// A dot stands somewhere past the first position of `s`.
pub open spec fn dot_seen(s: Seq<char>) -> bool {
    exists|i: int| 1 <= i < s.len() && s[i] == '.'
}

/// A dot stands past the first position of `s` with at least one more
/// character after it.
pub open spec fn dot_followed(s: Seq<char>) -> bool {
    exists|i: int| 1 <= i < s.len() - 1 && s[i] == '.'
}

/// `s` is one or more digits, a dot, then one or more digits.
pub open spec fn is_float_lexeme(s: Seq<char>) -> bool {
    exists|d: int|
        1 <= d < s.len() - 1 && (#[trigger] s[d]) == '.' && all_num(s.take(d)) && all_num(
            s.skip(d + 1),
        )
}

/// Matches a floating-point number; fails without both digit parts.
#[derive(Clone, Debug, Copy)]
pub struct FloatMatcher {
    /// Current size of the ongoing match.
    pub index: usize,
    /// This matcher's precedence.
    pub precedence: u8,
    /// Whether the dot has been seen.
    pub dot: bool,
    /// Whether the match qualifies as a float so far.
    pub float: bool,
    /// Whether the matcher is currently running.
    pub running: bool,
}

impl FloatMatcher {
    fn generate_float_token(&mut self, value: &[char]) -> (r: MatcherResult)
        requires
            old(self).index <= value@.len(),
        ensures
            *final(self) == (FloatMatcher { running: false, ..*old(self) }),
            match r {
                MatcherResult::Matched(t) => old(self).index >= 1 && old(self).float
                    && t.token_type == TOKEN_TYPE_FLOAT && t.len == old(self).index && t.value@
                    == value@.take(old(self).index as int) && t.wf() && t.precedence == old(
                    self,
                ).precedence,
                MatcherResult::Failed() => old(self).index == 0 || !old(self).float,
                MatcherResult::Running() => false,
            },
    {
        self.running = false;
        if self.index > 0 && self.float {
            MatcherResult::Matched(
                Token {
                    value: collect_prefix(value, self.index),
                    token_type: TOKEN_TYPE_FLOAT,
                    len: self.index,
                    line: 0,
                    column: self.index,
                    precedence: self.precedence,
                },
            )
        } else {
            MatcherResult::Failed()
        }
    }
}

/// A running float matcher whose `float` flag is set has consumed a full
/// float lexeme so far.
pub proof fn lemma_float_flag_shape(m: FloatMatcher, seen: Seq<char>)
    requires
        m.wf(seen),
        m.float,
    ensures
        is_float_lexeme(seen),
{
}

impl Matcher for FloatMatcher {
    open spec fn prec_spec(&self) -> u8 {
        self.precedence
    }

    open spec fn running_spec(&self) -> bool {
        self.running
    }

    open spec fn wf(&self, seen: Seq<char>) -> bool {
        &&& self.index == seen.len()
        &&& self.dot == dot_seen(seen)
        &&& self.float == dot_followed(seen)
        &&& if self.dot {
            exists|d: int|
                1 <= d < seen.len() && (#[trigger] seen[d]) == '.' && all_num(seen.take(d))
                    && all_num(seen.skip(d + 1)) && self.float == (d < seen.len() - 1)
        } else {
            all_num(seen) && !self.float
        }
    }

    open spec fn outcome(&self, seen: Seq<char>, at_end: bool) -> MatchOutcome {
        if !at_end && ((seen.last() == '.' && !dot_seen(seen.drop_last()) && seen.len() >= 2)
            || is_num(seen.last())) {
            MatchOutcome::Continue
        } else {
            let k: int = if at_end {
                seen.len() as int
            } else {
                seen.len() - 1
            };
            if k >= 1 && dot_followed(seen.take(k)) {
                MatchOutcome::Emit { kind: TOKEN_TYPE_FLOAT, len: k }
            } else {
                MatchOutcome::Halt
            }
        }
    }

    fn reset(&mut self, _ctx: &mut HashMap<String, i32>) {
        self.index = 0;
        self.dot = false;
        self.float = false;
        self.running = true;
    }

    fn find_match(&mut self, oc: Option<char>, value: &[char], _ctx: &mut HashMap<String, i32>) -> (
    r: MatcherResult) {
        let _n = value.len();
        match oc {
            None => {
                proof {
                    assert(value@.take(value@.len() as int) =~= value@);
                }
                self.generate_float_token(value)
            },
            Some(c) => {
                if c == '.' && !self.dot && self.index > 0 {
                    proof {
                        let ghost prev = value@.drop_last();
                        let ghost d = prev.len() as int;
                        assert(value@[d] == '.');
                        assert(value@.take(d) =~= prev);
                        assert(all_num(value@.take(d)));
                        assert(all_num(value@.skip(d + 1)));
                        assert(dot_seen(value@));
                        assert(!dot_followed(value@)) by {
                            if dot_followed(value@) {
                                let i = choose|i: int|
                                    1 <= i < value@.len() - 1 && (#[trigger] value@[i]) == '.';
                                assert(prev[i] == '.');
                                assert(dot_seen(prev));
                            }
                        }
                    }
                    self.index = self.index + 1;
                    self.dot = true;
                    return MatcherResult::Running();
                }
                let numeric = char_is_numeric(c);
                if numeric {
                    proof {
                        let ghost prev = value@.drop_last();
                        if self.dot {
                            let ghost d = choose|d: int|
                                1 <= d < prev.len() && (#[trigger] prev[d]) == '.' && all_num(
                                    prev.take(d),
                                ) && all_num(prev.skip(d + 1)) && self.float == (d < prev.len()
                                    - 1);
                            assert(value@[d] == prev[d]);
                            assert(value@.take(d) =~= prev.take(d));
                            assert(value@.skip(d + 1) =~= prev.skip(d + 1).push(c));
                            assert forall|i: int|
                                0 <= i < value@.skip(d + 1).len() implies is_num(
                                #[trigger] value@.skip(d + 1)[i],
                            ) by {
                                if i < value@.skip(d + 1).len() - 1 {
                                    assert(value@.skip(d + 1)[i] == prev.skip(d + 1)[i]);
                                } else {
                                    assert(value@.skip(d + 1)[i] == c);
                                }
                            }
                            assert(1 <= d < value@.len() && value@[d] == '.' && all_num(
                                value@.take(d),
                            ) && all_num(value@.skip(d + 1)) && true == (d < value@.len() - 1));
                            assert(dot_seen(value@));
                            assert(dot_followed(value@));
                        } else {
                            assert forall|i: int| 0 <= i < value@.len() implies is_num(
                                #[trigger] value@[i],
                            ) by {
                                if i < value@.len() - 1 {
                                    assert(value@[i] == prev[i]);
                                } else {
                                    assert(value@[i] == value@.last());
                                }
                            }
                            assert(!dot_seen(value@)) by {
                                if dot_seen(value@) {
                                    let i = choose|i: int|
                                        1 <= i < value@.len() && (#[trigger] value@[i]) == '.';
                                    if i < value@.len() - 1 {
                                        assert(prev[i] == '.');
                                        assert(dot_seen(prev));
                                    } else {
                                        assert(value@[i] == value@.last());
                                    }
                                }
                            }
                            assert(!dot_followed(value@)) by {
                                if dot_followed(value@) {
                                    let i = choose|i: int|
                                        1 <= i < value@.len() - 1 && (#[trigger] value@[i]) == '.';
                                    assert(prev[i] == '.');
                                    assert(dot_seen(prev));
                                }
                            }
                        }
                    }
                    self.index = self.index + 1;
                    if self.dot {
                        self.float = true;
                    }
                    MatcherResult::Running()
                } else {
                    proof {
                        assert(value@.drop_last() =~= value@.take(value@.len() - 1));
                    }
                    self.generate_float_token(value)
                }
            },
        }
    }

    fn is_running(&self) -> (r: bool) {
        self.running
    }

    fn precedence(&self) -> (r: u8) {
        self.precedence
    }
}

} // verus!
