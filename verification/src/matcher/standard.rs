//! The standard matchers gathered into one tagged type.
//!
//! The engine drives a homogeneous list of matchers; this type lets one
//! list mix the standard matchers freely. Every method hands the call to
//! the wrapped matcher.

use crate::matcher::exact::ExactMatcher;
use crate::matcher::float::FloatMatcher;
use crate::matcher::integer::IntegerMatcher;
use crate::matcher::keyword::KeywordMatcher;
use crate::matcher::symbol::SymbolMatcher;
use crate::matcher::whitespace::WhitespaceMatcher;
use crate::matcher::word::WordMatcher;
use crate::matcher::{MatchOutcome, Matcher, MatcherResult};
use std::collections::HashMap;
use vstd::prelude::*;

verus! {

/// Any one of the standard matchers.
#[derive(Clone, Debug)]
pub enum StandardMatcher {
    /// A word matcher.
    Word(WordMatcher),
    /// A whitespace matcher.
    Whitespace(WhitespaceMatcher),
    /// An integer matcher.
    Integer(IntegerMatcher),
    /// A float matcher.
    Float(FloatMatcher),
    /// A symbol matcher.
    Symbol(SymbolMatcher),
    /// An exact-string matcher.
    Exact(ExactMatcher),
    /// A keyword matcher.
    Keyword(KeywordMatcher),
}

impl Matcher for StandardMatcher {
    open spec fn prec_spec(&self) -> u8 {
        match self {
            StandardMatcher::Word(m) => m.prec_spec(),
            StandardMatcher::Whitespace(m) => m.prec_spec(),
            StandardMatcher::Integer(m) => m.prec_spec(),
            StandardMatcher::Float(m) => m.prec_spec(),
            StandardMatcher::Symbol(m) => m.prec_spec(),
            StandardMatcher::Exact(m) => m.prec_spec(),
            StandardMatcher::Keyword(m) => m.prec_spec(),
        }
    }

    open spec fn running_spec(&self) -> bool {
        match self {
            StandardMatcher::Word(m) => m.running_spec(),
            StandardMatcher::Whitespace(m) => m.running_spec(),
            StandardMatcher::Integer(m) => m.running_spec(),
            StandardMatcher::Float(m) => m.running_spec(),
            StandardMatcher::Symbol(m) => m.running_spec(),
            StandardMatcher::Exact(m) => m.running_spec(),
            StandardMatcher::Keyword(m) => m.running_spec(),
        }
    }

    open spec fn wf(&self, seen: Seq<char>) -> bool {
        match self {
            StandardMatcher::Word(m) => m.wf(seen),
            StandardMatcher::Whitespace(m) => m.wf(seen),
            StandardMatcher::Integer(m) => m.wf(seen),
            StandardMatcher::Float(m) => m.wf(seen),
            StandardMatcher::Symbol(m) => m.wf(seen),
            StandardMatcher::Exact(m) => m.wf(seen),
            StandardMatcher::Keyword(m) => m.wf(seen),
        }
    }

    open spec fn outcome(&self, seen: Seq<char>, at_end: bool) -> MatchOutcome {
        match self {
            StandardMatcher::Word(m) => m.outcome(seen, at_end),
            StandardMatcher::Whitespace(m) => m.outcome(seen, at_end),
            StandardMatcher::Integer(m) => m.outcome(seen, at_end),
            StandardMatcher::Float(m) => m.outcome(seen, at_end),
            StandardMatcher::Symbol(m) => m.outcome(seen, at_end),
            StandardMatcher::Exact(m) => m.outcome(seen, at_end),
            StandardMatcher::Keyword(m) => m.outcome(seen, at_end),
        }
    }

    fn reset(&mut self, ctx: &mut HashMap<String, i32>) {
        match self {
            StandardMatcher::Word(m) => m.reset(ctx),
            StandardMatcher::Whitespace(m) => m.reset(ctx),
            StandardMatcher::Integer(m) => m.reset(ctx),
            StandardMatcher::Float(m) => m.reset(ctx),
            StandardMatcher::Symbol(m) => m.reset(ctx),
            StandardMatcher::Exact(m) => m.reset(ctx),
            StandardMatcher::Keyword(m) => m.reset(ctx),
        }
    }

    fn find_match(&mut self, oc: Option<char>, value: &[char], ctx: &mut HashMap<String, i32>) -> (
    r: MatcherResult) {
        match self {
            StandardMatcher::Word(m) => m.find_match(oc, value, ctx),
            StandardMatcher::Whitespace(m) => m.find_match(oc, value, ctx),
            StandardMatcher::Integer(m) => m.find_match(oc, value, ctx),
            StandardMatcher::Float(m) => m.find_match(oc, value, ctx),
            StandardMatcher::Symbol(m) => m.find_match(oc, value, ctx),
            StandardMatcher::Exact(m) => m.find_match(oc, value, ctx),
            StandardMatcher::Keyword(m) => m.find_match(oc, value, ctx),
        }
    }

    fn is_running(&self) -> (r: bool) {
        match self {
            StandardMatcher::Word(m) => m.is_running(),
            StandardMatcher::Whitespace(m) => m.is_running(),
            StandardMatcher::Integer(m) => m.is_running(),
            StandardMatcher::Float(m) => m.is_running(),
            StandardMatcher::Symbol(m) => m.is_running(),
            StandardMatcher::Exact(m) => m.is_running(),
            StandardMatcher::Keyword(m) => m.is_running(),
        }
    }

    fn precedence(&self) -> (r: u8) {
        match self {
            StandardMatcher::Word(m) => m.precedence(),
            StandardMatcher::Whitespace(m) => m.precedence(),
            StandardMatcher::Integer(m) => m.precedence(),
            StandardMatcher::Float(m) => m.precedence(),
            StandardMatcher::Symbol(m) => m.precedence(),
            StandardMatcher::Exact(m) => m.precedence(),
            StandardMatcher::Keyword(m) => m.precedence(),
        }
    }
}

} // verus!
