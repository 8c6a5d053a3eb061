//! The matcher contract.
//!
//! A matcher is an incremental recognizer. The engine resets every matcher
//! at the start of a tokenization attempt, then offers characters one at a
//! time; after each character a matcher answers that it is still running,
//! that it has matched, or that it has failed for this attempt.
//!
//! Each implementation describes itself through two specification
//! functions: [`Matcher::wf`] says what its state means after it has been
//! offered a sequence of characters, and [`Matcher::outcome`] says, for a
//! given offered sequence, what its answer is. The executable methods are
//! verified against those descriptions, so the behaviour of every matcher
//! is pinned by its specification rather than by its code.

use crate::token::Token;
use std::collections::HashMap;
use vstd::prelude::*;

verus! {

/// The answer a matcher gives after being offered a character.
#[derive(Debug)]
pub enum MatcherResult {
    /// The matcher needs more input; it has neither matched nor failed yet.
    Running(),
    /// The matcher cannot match in this attempt.
    Failed(),
    /// A successful match. The token states how many leading characters of
    /// the offered sequence it consumed, along with its kind and the
    /// matcher's precedence.
    Matched(Token),
}

/// The specification-level answer of a matcher on an offered sequence:
/// keep going, emit a match of `len` leading characters with kind `kind`,
/// or give up.
pub enum MatchOutcome {
    /// More input is needed.
    Continue,
    /// A match of the first `len` characters, tagged `kind`.
    Emit { kind: u16, len: int },
    /// No match can be made in this attempt.
    Halt,
}

/// An incremental token recognizer driven by the engine.
///
/// Protocol: after `reset`, the engine repeatedly calls `find_match`,
/// passing the full accumulator of characters offered so far (`value`) and
/// the character just added (`oc`), or `None` for end of input. The engine
/// only feeds matchers whose `is_running` is true, and stops the attempt
/// when none is running.
///
/// This contract requires a matcher that answers *matched* or *failed* to
/// stop running for the rest of the attempt. A recognizer that wants to
/// report "longest so far" and keep going expresses that by answering
/// *running* and emitting the longer match when it finally stops, the way
/// the exact and keyword matchers carry their best completed target
/// internally. Tying each answer to the one [`Matcher::outcome`] function
/// is what lets the engine's own contract name its result.
pub trait Matcher: Sized {
    /// The matcher's tie-breaking precedence.
    spec fn prec_spec(&self) -> u8;

    /// Whether the matcher may yet consume more characters.
    spec fn running_spec(&self) -> bool;

    /// What the matcher's state means after it has been offered exactly the
    /// characters of `seen`, each answered with *running*.
    spec fn wf(&self, seen: Seq<char>) -> bool;

    /// The answer the matcher gives when the offered characters are `seen`
    /// (including the newest one) and `at_end` says whether the end-of-input
    /// marker is being offered instead of a character.
    spec fn outcome(&self, seen: Seq<char>, at_end: bool) -> MatchOutcome;

    /// Returns the matcher to its initial state for a fresh attempt. What
    /// the matcher recognizes is part of its configuration and survives the
    /// reset: its answer function and precedence are unchanged.
    fn reset(&mut self, ctx: &mut HashMap<String, i32>)
        ensures
            final(self).running_spec(),
            final(self).wf(Seq::<char>::empty()),
            final(self).prec_spec() == old(self).prec_spec(),
            forall|s: Seq<char>, b: bool| #[trigger]
                final(self).outcome(s, b) == old(self).outcome(s, b),
    ;

    /// Offers the next character (or the end-of-input marker, `None`);
    /// `value` is the full accumulator of characters offered since the last
    /// reset, with the offered character as its last element.
    fn find_match(&mut self, oc: Option<char>, value: &[char], ctx: &mut HashMap<String, i32>) -> (r: MatcherResult)
        requires
            old(self).running_spec(),
            match oc {
                Some(c) => value@.len() >= 1 && value@.last() == c && old(self).wf(
                    value@.drop_last(),
                ),
                None => old(self).wf(value@),
            },
        ensures
            final(self).prec_spec() == old(self).prec_spec(),
            forall|s: Seq<char>, b: bool| #[trigger]
                final(self).outcome(s, b) == old(self).outcome(s, b),
            (r is Running) == final(self).running_spec(),
            r is Running ==> final(self).wf(value@) && oc is Some,
            match r {
                MatcherResult::Running() => old(self).outcome(value@, oc is None)
                    == MatchOutcome::Continue,
                MatcherResult::Matched(t) => {
                    &&& old(self).outcome(value@, oc is None) == (MatchOutcome::Emit {
                        kind: t.token_type,
                        len: t.len as int,
                    })
                    &&& t.len <= value@.len()
                    &&& t.value@ == value@.take(t.len as int)
                    &&& t.wf()
                    &&& t.precedence == old(self).prec_spec()
                },
                MatcherResult::Failed() => old(self).outcome(value@, oc is None)
                    == MatchOutcome::Halt,
            },
    ;

    /// Whether the matcher is still accepting characters.
    fn is_running(&self) -> (r: bool)
        ensures
            r == self.running_spec(),
    ;

    /// The matcher's precedence; higher numbers win ties.
    fn precedence(&self) -> (r: u8)
        ensures
            r == self.prec_spec(),
    ;
}

} // verus!

/// Matches maximal runs of alphabetic characters.
pub mod word;

/// Matches maximal runs of numeric characters.
pub mod integer;

/// Matches numbers of the shape digits, dot, digits.
pub mod float;

/// Matches maximal runs of whitespace.
pub mod whitespace;

/// Matches maximal runs of characters that are neither alphanumeric nor
/// whitespace.
pub mod symbol;

/// Matches exactly the strings of a given list, wherever they occur.
pub mod exact;

/// Matches exactly the strings of a given list, bounded on the right by a
/// non-alphanumeric character or the end of input.
pub mod keyword;

/// The standard matchers as one tagged type, so one engine can drive a
/// mixed list of them.
pub mod standard;
