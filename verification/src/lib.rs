//! A greedy, precedence-aware, longest-match streaming tokenizer.
//!
//! The engine pulls characters from an input source, offers them to a set
//! of matchers, and emits the best match as a [`Token`], keeping line and
//! column bookkeeping and a fixed-capacity replay buffer for lookahead and
//! rewind.
//!
//! The central contracts are [`Lexxor::attempt_post`] and
//! [`Lexxor::resolved_post`]. The first says what an attempt does to the
//! engine: it takes exactly the emitted token's characters off the front
//! of the character stream, stamps the token with the position where it
//! began, and advances the position by the reference line/column walk over
//! those characters. The second says what an attempt returns, as a
//! function of the matchers and the stream alone: the fold of the
//! matchers' offers decides the token's kind, length and precedence, and
//! failing that, the attempt's exact error. Lookahead, rewind and input
//! swapping are specified against the same model, and
//! [`Lexxor::lemma_attempt_deterministic`] turns the two into determinism:
//! engines with matchers that answer alike, on the same stream at the same
//! position, return equivalent results.

pub mod chars;
pub mod input;
pub mod matcher;
pub mod position;
pub mod rolling_char_buffer;
pub mod token;

use crate::chars::{overflow_message, overflow_note, unresolved_message, unresolved_note};
use crate::input::{InputString, LexxInput, LexxInputError};
use crate::matcher::standard::StandardMatcher;
use crate::matcher::{MatchOutcome, Matcher, MatcherResult};
use crate::position::{TextPosition, advance_over, spec_walk};
use crate::rolling_char_buffer::{RollingCharBuffer, RollingCharBufferError};
use crate::token::{Token, token_eqv};
use std::collections::HashMap;
use vstd::prelude::*;

verus! {

/// Errors the engine can return.
#[derive(Debug, PartialEq, Eq, Clone)]
pub enum LexxError {
    /// No matcher matched the current characters; the message names the
    /// line, column, and offending character.
    TokenNotFound(String),
    /// An input-source error handed on, or the fatal overflow of the
    /// fixed-capacity buffers.
    Error(String),
}

impl From<LexxInputError> for LexxError {
    fn from(lie: LexxInputError) -> (r: LexxError) {
        match lie {
            LexxInputError::Error(e) => LexxError::Error(e),
        }
    }
}

impl vstd::std_specs::convert::FromSpecImpl<LexxInputError> for LexxError {
    open spec fn obeys_from_spec() -> bool {
        true
    }

    open spec fn from_spec(lie: LexxInputError) -> LexxError {
        match lie {
            LexxInputError::Error(e) => LexxError::Error(e),
        }
    }
}

/// Two results carry the same observable outcome: equal tokens, both end
/// of input, or the same error with the same message.
pub open spec fn result_eqv(
    a: Result<Option<Token>, LexxError>,
    b: Result<Option<Token>, LexxError>,
) -> bool {
    match (a, b) {
        (Ok(Some(x)), Ok(Some(y))) => token_eqv(&x, &y),
        (Ok(None), Ok(None)) => true,
        (Err(LexxError::TokenNotFound(x)), Err(LexxError::TokenNotFound(y))) => x@ == y@,
        (Err(LexxError::Error(x)), Err(LexxError::Error(y))) => x@ == y@,
        _ => false,
    }
}

/// Copies a result so one copy can be stored and one returned.
fn clone_result(r: &Result<Option<Token>, LexxError>) -> (c: Result<Option<Token>, LexxError>)
    ensures
        result_eqv(*r, c),
{
    match r {
        Ok(Some(t)) => Ok(Some(t.clone())),
        Ok(None) => Ok(None),
        Err(LexxError::TokenNotFound(s)) => Err(LexxError::TokenNotFound(s.clone())),
        Err(LexxError::Error(s)) => Err(LexxError::Error(s.clone())),
    }
}

/// The candidate that survives when `offer` arrives while `cur` is held:
/// the offer replaces the held candidate exactly when no candidate is held
/// or the held one's precedence does not exceed the offer's.
pub open spec fn prefer_spec(cur: Option<Token>, offer: Token) -> Option<Token> {
    match cur {
        None => Some(offer),
        Some(held) => if held.precedence <= offer.precedence {
            Some(offer)
        } else {
            Some(held)
        },
    }
}

/// The candidate left after a whole sequence of offers arrives in order.
pub open spec fn select_spec(cur: Option<Token>, offers: Seq<Token>) -> Option<Token>
    decreases offers.len(),
{
    if offers.len() == 0 {
        cur
    } else {
        select_spec(prefer_spec(cur, offers[0]), offers.skip(1))
    }
}


/// The concatenation of the values of a sequence of tokens.
pub open spec fn concat_values(tokens: Seq<Token>) -> Seq<char>
    decreases tokens.len(),
{
    if tokens.len() == 0 {
        Seq::<char>::empty()
    } else {
        tokens[0].value@ + concat_values(tokens.skip(1))
    }
}

/// Between two offers, the higher precedence is selected regardless of
/// order; at equal precedence the later offer, which under the engine's
/// running-maximum scheme is the longer match.
pub proof fn lemma_select_of_two(a: Token, b: Token)
    ensures
        a.precedence <= b.precedence ==> select_spec(None, seq![a, b]) == Some(b),
        a.precedence > b.precedence ==> select_spec(None, seq![a, b]) == Some(a),
{
    reveal_with_fuel(select_spec, 3);
    assert(seq![a, b][0] == a);
    assert(seq![a, b].skip(1) =~= seq![b]);
    assert(seq![b][0] == b);
    assert(seq![b].skip(1) =~= Seq::<Token>::empty());
}

/// The selected candidate carries the highest precedence of all offers and
/// of the held candidate, and is one of them.
pub proof fn lemma_select_max(cur: Option<Token>, offers: Seq<Token>)
    ensures
        match select_spec(cur, offers) {
            Some(w) => (forall|i: int|
                0 <= i < offers.len() ==> (#[trigger] offers[i]).precedence <= w.precedence) && (cur
                == Some(w) || exists|i: int| 0 <= i < offers.len() && offers[i] == w) && (match cur {
                Some(c) => c.precedence <= w.precedence,
                None => true,
            }),
            None => cur is None && offers.len() == 0,
        },
    decreases offers.len(),
{
    if offers.len() > 0 {
        lemma_select_max(prefer_spec(cur, offers[0]), offers.skip(1));
        match select_spec(cur, offers) {
            Some(w) => {
                assert forall|i: int| 0 <= i < offers.len() implies (
                #[trigger] offers[i]).precedence <= w.precedence by {
                    if i > 0 {
                        assert(offers.skip(1)[i - 1] == offers[i]);
                    }
                }
                if !(cur == Some(w)) {
                    if prefer_spec(cur, offers[0]) == Some(w) && offers[0] == w {
                        assert(offers[0] == w);
                    } else {
                        let j = choose|j: int|
                            0 <= j < offers.skip(1).len() && offers.skip(1)[j] == w;
                        assert(offers[j + 1] == w);
                    }
                }
            },
            None => {},
        }
    }
}


/// A specification-level candidate: the kind and length of a match a
/// matcher offered, together with that matcher's precedence.
pub struct Offer {
    /// The token kind of the offered match.
    pub kind: u16,
    /// How many leading characters of the attempt it consumed.
    pub len: int,
    /// The offering matcher's precedence.
    pub prec: u8,
}

/// The candidate that survives when `offer` arrives while `cur` is held;
/// the rule of [`prefer_spec`], over specification-level offers.
pub open spec fn prefer_offer(cur: Option<Offer>, offer: Offer) -> Option<Offer> {
    match cur {
        None => Some(offer),
        Some(held) => if held.prec <= offer.prec {
            Some(offer)
        } else {
            Some(held)
        },
    }
}

/// Matcher `m` answers *running* on every nonempty prefix of `stream` up
/// to length `k`: it is still alive after consuming `k` characters.
pub open spec fn runs_upto<M: Matcher>(m: M, stream: Seq<char>, k: int) -> bool {
    forall|i: int|
        1 <= i <= k ==> m.outcome(#[trigger] stream.take(i), false) == MatchOutcome::Continue
}

/// Some matcher of `ms` is still alive after `k` characters of `stream`.
pub open spec fn some_alive<M: Matcher>(ms: Seq<M>, stream: Seq<char>, k: int) -> bool {
    exists|j: int| 0 <= j < ms.len() && runs_upto(#[trigger] ms[j], stream, k)
}

/// The winning offer of the round in which the `k`-th character of
/// `stream` (or, with `at_end`, the end-of-input marker after `k`
/// characters) is put to the first `j` matchers: every matcher still alive
/// before the round answers, and offers are folded in list order by
/// [`prefer_offer`].
pub open spec fn round_winner<M: Matcher>(
    ms: Seq<M>,
    stream: Seq<char>,
    k: int,
    at_end: bool,
    j: int,
) -> Option<Offer>
    decreases j,
{
    if j <= 0 {
        None
    } else {
        let prior = round_winner(ms, stream, k, at_end, j - 1);
        let fed = runs_upto(
            ms[j - 1],
            stream,
            if at_end {
                k
            } else {
                k - 1
            },
        );
        if fed {
            match ms[j - 1].outcome(stream.take(k), at_end) {
                MatchOutcome::Emit { kind, len } => prefer_offer(
                    prior,
                    Offer { kind, len, prec: ms[j - 1].prec_spec() },
                ),
                _ => prior,
            }
        } else {
            prior
        }
    }
}

/// The best candidate after the rounds for the first `k` characters of
/// `stream`: each round's winner is folded into the running best by
/// [`prefer_offer`].
pub open spec fn best_candidate<M: Matcher>(ms: Seq<M>, stream: Seq<char>, k: int) -> Option<Offer>
    decreases k,
{
    if k <= 0 {
        None
    } else {
        let prior = best_candidate(ms, stream, k - 1);
        match round_winner(ms, stream, k, false, ms.len() as int) {
            Some(w) => prefer_offer(prior, w),
            None => prior,
        }
    }
}

/// How many characters an attempt starting at position `j` of the pulls
/// consumes: it stops with the first character after which no matcher is
/// alive, or consumes the whole stream.
pub open spec fn attempt_len_from<M: Matcher>(ms: Seq<M>, stream: Seq<char>, j: int) -> int
    decreases stream.len() - j,
{
    if j >= stream.len() {
        stream.len() as int
    } else if !some_alive(ms, stream, j + 1) {
        j + 1
    } else {
        attempt_len_from(ms, stream, j + 1)
    }
}

/// How many characters one attempt consumes from `stream`.
pub open spec fn attempt_len<M: Matcher>(ms: Seq<M>, stream: Seq<char>) -> int {
    attempt_len_from(ms, stream, 0)
}

/// The attempt reaches the end of the stream: after every prefix some
/// matcher is still alive, so the end-of-input marker round happens.
pub open spec fn reaches_end<M: Matcher>(ms: Seq<M>, stream: Seq<char>) -> bool {
    forall|k: int| 1 <= k <= stream.len() ==> #[trigger] some_alive(ms, stream, k)
}

/// The candidate one attempt over `stream` settles on: the fold of all
/// round winners, including the end-of-input round when it is reached.
pub open spec fn attempt_winner<M: Matcher>(ms: Seq<M>, stream: Seq<char>) -> Option<Offer> {
    let n = attempt_len(ms, stream);
    let base = best_candidate(ms, stream, n);
    if reaches_end(ms, stream) {
        match round_winner(ms, stream, stream.len() as int, true, ms.len() as int) {
            Some(w) => prefer_offer(base, w),
            None => base,
        }
    } else {
        base
    }
}

/// The attempt outgrows a `cap`-sized accumulator: matchers are still
/// alive after `cap` characters and the stream holds one more.
pub open spec fn attempt_overflows<M: Matcher>(ms: Seq<M>, stream: Seq<char>, cap: int) -> bool {
    stream.len() > cap && (forall|k: int| 1 <= k <= cap ==> #[trigger] some_alive(ms, stream, k))
}

/// Where the attempt provably stops before `n`, its length is pinned.
proof fn lemma_attempt_len_stops_at<M: Matcher>(ms: Seq<M>, stream: Seq<char>, j: int, n: int)
    requires
        0 <= j < n <= stream.len(),
        forall|k: int| 1 <= k < n ==> #[trigger] some_alive(ms, stream, k),
        !some_alive(ms, stream, n),
    ensures
        attempt_len_from(ms, stream, j) == n,
    decreases n - j,
{
    if j + 1 == n {
    } else {
        assert(some_alive(ms, stream, j + 1));
        lemma_attempt_len_stops_at(ms, stream, j + 1, n);
    }
}

/// Where some matcher survives every prefix, the attempt consumes the
/// whole stream.
proof fn lemma_attempt_len_full<M: Matcher>(ms: Seq<M>, stream: Seq<char>, j: int)
    requires
        0 <= j <= stream.len(),
        forall|k: int| 1 <= k <= stream.len() ==> #[trigger] some_alive(ms, stream, k),
    ensures
        attempt_len_from(ms, stream, j) == stream.len(),
    decreases stream.len() - j,
{
    if j < stream.len() {
        assert(some_alive(ms, stream, j + 1));
        lemma_attempt_len_full(ms, stream, j + 1);
    }
}

/// Replaces the held candidate by the offer exactly when the offer's
/// precedence is at least the held one's.
fn prefer_candidate(cur: Option<Token>, offer: Token) -> (r: Option<Token>)
    ensures
        r == prefer_spec(cur, offer),
{
    match cur {
        None => Some(offer),
        Some(held) => if held.precedence <= offer.precedence {
            Some(offer)
        } else {
            Some(held)
        },
    }
}

/// The tokenization engine: drives a fixed list of matchers over an input,
/// resolving competition by precedence and length, with one-token
/// lookahead, rewind, and authoritative line/column bookkeeping.
///
/// `CAP` bounds both the longest token and the replay/rewind buffer.
#[derive(Debug)]
pub struct Lexxor<const CAP: usize, I = InputString, M = StandardMatcher> where
    I: LexxInput,
    M: Matcher,
 {
    /// The matchers used to recognize tokens, in registration order.
    matchers: Vec<M>,
    /// The input the matchers are run against.
    input: I,
    /// Characters pulled past a committed token, and rewound characters,
    /// waiting to be consumed again.
    cache: RollingCharBuffer<CAP>,
    /// The working accumulator of the current attempt.
    value: Vec<char>,
    /// The cached result of a lookahead, if one is pending.
    pub lexxor_result: Option<Result<Option<Token>, LexxError>>,
    /// The best candidate token during an attempt.
    pub found_token: Option<Token>,
    /// The current line in the input, 1-based.
    pub line: usize,
    /// The current column in the input, 1-based.
    pub column: usize,
    /// Whether the character consumed last was a carriage return.
    cr_pending: bool,
    /// A scratch map custom matchers may share; the engine never reads or
    /// writes it.
    pub ctx: HashMap<String, i32>,
}

impl<const CAP: usize, I: LexxInput, M: Matcher> Lexxor<CAP, I, M> {
    /// The characters still to be tokenized: the replay buffer's contents
    /// followed by what the input has yet to yield.
    pub closed spec fn stream(&self) -> Seq<char> {
        self.cache@ + self.input.remaining()
    }

    /// How many characters the replay buffer holds.
    pub closed spec fn replay_len(&self) -> nat {
        self.cache@.len()
    }

    /// Structural validity of the engine.
    pub closed spec fn wf(&self) -> bool {
        CAP >= 1 && self.cache.wf()
    }

    /// The engine's position, as one value.
    pub closed spec fn position(&self) -> TextPosition {
        TextPosition { line: self.line, column: self.column, cr_pending: self.cr_pending }
    }

    /// Whether the engine's input never reports an error.
    pub closed spec fn input_infallible(&self) -> bool {
        self.input.infallible()
    }

    /// The pending lookahead result, if one is cached.
    pub closed spec fn lookahead(&self) -> Option<Result<Option<Token>, LexxError>> {
        self.lexxor_result
    }

    /// The engine's matchers, in registration order.
    pub closed spec fn matcher_list(&self) -> Seq<M> {
        self.matchers@
    }

    /// The matchers of `post` answer and rank exactly as those of `pre`:
    /// the list has the same length and each matcher keeps its answer
    /// function and precedence, whatever per-attempt state it is in.
    pub open spec fn same_matcher_specs(pre: Self, post: Self) -> bool {
        matcher_specs_agree(pre.matcher_list(), post.matcher_list())
    }

    /// What one attempt returns, as a function of the matchers and the
    /// stream alone; [`Lexxor::next_token`] guarantees it whenever the
    /// input cannot fail.
    ///
    /// If the matchers would still be running after `CAP` characters and
    /// the stream holds one more, the attempt is the fatal overflow error.
    /// Otherwise, if the fold of the matchers' offers settles on a
    /// candidate, that candidate's kind, length and precedence are the
    /// token's. Otherwise an empty stream ends cleanly, and a nonempty one
    /// is the unresolvable-token error naming the position and the
    /// character on which the attempt stopped.
    pub open spec fn resolved_post(pre: Self, r: Result<Option<Token>, LexxError>) -> bool {
        let ms = pre.matcher_list();
        let stream = pre.stream();
        if attempt_overflows(ms, stream, CAP as int) {
            &&& r matches Err(LexxError::Error(m))
            &&& (r matches Err(LexxError::Error(m)) ==> m@ == overflow_note(
                pre.position().line as int,
                pre.position().column as int,
                stream[CAP as int],
            ))
        } else {
            match attempt_winner(ms, stream) {
                Some(o) => r matches Ok(Some(t)) && t.token_type == o.kind && t.len as int == o.len
                    && t.precedence == o.prec,
                None => if stream.len() == 0 {
                    r == Ok::<Option<Token>, LexxError>(None)
                } else {
                    &&& r matches Err(LexxError::TokenNotFound(m))
                    &&& (r matches Err(LexxError::TokenNotFound(m)) ==> m@ == unresolved_note(
                        pre.position().line as int,
                        pre.position().column as int,
                        if reaches_end(ms, stream) {
                            None
                        } else {
                            Some(stream[attempt_len(ms, stream) - 1])
                        },
                    ))
                },
            }
        }
    }

    /// `post` is `pre` with the pending lookahead taken out and nothing
    /// else changed.
    pub closed spec fn cleared_lookahead(pre: Self, post: Self) -> bool {
        post == (Lexxor { lexxor_result: None, ..pre })
    }

    /// What one tokenization attempt guarantees.
    ///
    /// On `Ok(Some(t))`, the token's characters are exactly the first
    /// `t.len` characters of the stream, which the attempt consumed and
    /// nothing more; the token is stamped with the position before the
    /// attempt, and the position advances by the reference walk over the
    /// token's characters. `Ok(None)` happens exactly at the end of the
    /// stream and changes nothing. On an error the position is unchanged
    /// and the stream loses the characters of the failed attempt; an
    /// unresolvable-token error consumed at least one character, and a
    /// fatal engine error is possible only when a token outgrows `CAP` or
    /// the input itself can fail.
    pub open spec fn attempt_post(
        pre: Self,
        post: Self,
        r: Result<Option<Token>, LexxError>,
    ) -> bool {
        &&& post.wf()
        &&& post.input_infallible() == pre.input_infallible()
        &&& match r {
            Ok(Some(t)) => {
                &&& t.wf()
                &&& t.len <= pre.stream().len()
                &&& t.value@ == pre.stream().take(t.len as int)
                &&& post.stream() == pre.stream().skip(t.len as int)
                &&& t.line == pre.position().line
                &&& t.column == pre.position().column
                &&& post.position() == spec_walk(pre.position(), t.value@)
            },
            Ok(None) => {
                &&& pre.stream().len() == 0
                &&& post.stream() == pre.stream()
                &&& post.position() == pre.position()
            },
            Err(e) => {
                &&& exists|k: int|
                    0 <= k <= pre.stream().len() && post.stream() == pre.stream().skip(k) && (e
                        is TokenNotFound ==> k >= 1) && (e is Error ==> k == CAP + 1
                        || !pre.input_infallible())
                &&& post.position() == pre.position()
            },
        }
    }

    /// Creates a new engine.
    ///
    /// * `input` - the character source to tokenize
    /// * `matchers` - the matchers used to recognize tokens, in
    ///   registration order
    pub fn new(input: I, matchers: Vec<M>) -> (r: Self)
        requires
            CAP >= 1,
        ensures
            r.wf(),
            r.stream() == input.remaining(),
            r.input_infallible() == input.infallible(),
            r.position() == (TextPosition { line: 1, column: 1, cr_pending: false }),
            r.lookahead() is None,
            r.matcher_list() == matchers@,
    {
        let cache = RollingCharBuffer::<CAP>::new();
        let r = Lexxor {
            matchers,
            input,
            cache,
            value: Vec::new(),
            lexxor_result: None,
            found_token: None,
            line: 1,
            column: 1,
            cr_pending: false,
            ctx: HashMap::new(),
        };
        proof {
            assert(r.stream() =~= r.input.remaining());
        }
        r
    }

    /// One round of the fetch loop: the newly obtained character (or the
    /// end-of-input marker, `None`) is put to every matcher still running,
    /// and the round's winning offer is selected. Returns whether any
    /// matcher is still running afterwards, and the round's winner.
    #[verifier::rlimit(100)]
    #[verifier::spinoff_prover]
    fn feed_round(
        &mut self,
        oc: Option<char>,
        Ghost(ms): Ghost<Seq<M>>,
        Ghost(st): Ghost<Seq<char>>,
    ) -> (res: (bool, Option<Token>))
        requires
            old(self).wf(),
            old(self).matchers@.len() == ms.len(),
            forall|j: int, s: Seq<char>, b: bool|
                0 <= j < ms.len() ==> (#[trigger] old(self).matchers@[j].outcome(s, b)) == ms[
                    j
                ].outcome(s, b),
            forall|j: int|
                0 <= j < ms.len() ==> (#[trigger] old(self).matchers@[j].prec_spec()) == ms[
                    j
                ].prec_spec(),
            old(self).value@.len() <= st.len(),
            old(self).value@ == st.take(old(self).value@.len() as int),
            match oc {
                Some(c) => old(self).value@.len() >= 1 && old(self).value@.last() == c && forall|
                    j: int,
                |
                    0 <= j < ms.len() ==> ((#[trigger] old(self).matchers@[j].running_spec())
                        == runs_upto(ms[j], st, old(self).value@.len() - 1)) && (old(
                        self,
                    ).matchers@[j].running_spec() ==> old(self).matchers@[j].wf(
                        old(self).value@.drop_last(),
                    )),
                None => forall|j: int|
                    0 <= j < ms.len() ==> ((#[trigger] old(self).matchers@[j].running_spec())
                        == runs_upto(ms[j], st, old(self).value@.len() as int)) && (old(
                        self,
                    ).matchers@[j].running_spec() ==> old(self).matchers@[j].wf(old(self).value@)),
            },
        ensures
            final(self).wf(),
            final(self).cache == old(self).cache,
            final(self).input == old(self).input,
            final(self).value == old(self).value,
            final(self).line == old(self).line,
            final(self).column == old(self).column,
            final(self).cr_pending == old(self).cr_pending,
            final(self).found_token == old(self).found_token,
            final(self).lexxor_result == old(self).lexxor_result,
            final(self).matchers@.len() == ms.len(),
            forall|j: int, s: Seq<char>, b: bool|
                0 <= j < ms.len() ==> (#[trigger] final(self).matchers@[j].outcome(s, b)) == ms[
                    j
                ].outcome(s, b),
            forall|j: int|
                0 <= j < ms.len() ==> (#[trigger] final(self).matchers@[j].prec_spec()) == ms[
                    j
                ].prec_spec(),
            forall|j: int|
                0 <= j < ms.len() ==> ((#[trigger] final(self).matchers@[j].running_spec()) == (oc
                    is Some && runs_upto(ms[j], st, old(self).value@.len() as int)))
                    && (final(self).matchers@[j].running_spec() ==> final(self).matchers@[j].wf(
                    old(self).value@,
                )),
            res.0 == exists|j: int|
                0 <= j < ms.len() && (#[trigger] final(self).matchers@[j].running_spec()),
            match (res.1, round_winner(
                ms,
                st,
                old(self).value@.len() as int,
                oc is None,
                ms.len() as int,
            )) {
                (Some(ft), Some(o)) => ft.token_type == o.kind && ft.len as int == o.len
                    && ft.precedence == o.prec && ft.wf() && ft.len <= old(self).value@.len()
                    && ft.value@ == old(self).value@.take(ft.len as int),
                (None, None) => true,
                _ => false,
            },
    {
        let ghost pre0 = *old(self);
        let ghost k = pre0.value@.len() as int;
        let ghost at_end = oc is None;
        let mut running = false;
        let mut iter_found: Option<Token> = None;
        let mut mi: usize = 0;
        while mi < self.matchers.len()
            invariant
                pre0 == *old(self),
                k == pre0.value@.len() as int,
                at_end == (oc is None),
                self.wf(),
                self.value == pre0.value,
                k <= st.len(),
                st.take(k) == self.value@,
                match oc {
                    Some(c) => self.value@.len() >= 1 && self.value@.last() == c,
                    None => true,
                },
                mi <= self.matchers@.len(),
                self.matchers@.len() == ms.len(),
                self.cache == pre0.cache,
                self.input == pre0.input,
                self.line == pre0.line,
                self.column == pre0.column,
                self.cr_pending == pre0.cr_pending,
                self.found_token == pre0.found_token,
                self.lexxor_result == pre0.lexxor_result,
                forall|j: int, s: Seq<char>, b: bool|
                    0 <= j < ms.len() ==> (#[trigger] self.matchers@[j].outcome(s, b)) == ms[
                        j
                    ].outcome(s, b),
                forall|j: int|
                    0 <= j < ms.len() ==> (#[trigger] self.matchers@[j].prec_spec()) == ms[
                        j
                    ].prec_spec(),
                forall|j: int|
                    mi <= j < ms.len() ==> ((#[trigger] self.matchers@[j].running_spec())
                        == runs_upto(
                        ms[j],
                        st,
                        if at_end {
                            k
                        } else {
                            k - 1
                        },
                    )) && (self.matchers@[j].running_spec() ==> self.matchers@[j].wf(
                        if at_end {
                            self.value@
                        } else {
                            self.value@.drop_last()
                        },
                    )),
                forall|j: int|
                    0 <= j < mi ==> ((#[trigger] self.matchers@[j].running_spec()) == (!at_end
                        && runs_upto(ms[j], st, k))) && (self.matchers@[j].running_spec()
                        ==> self.matchers@[j].wf(self.value@)),
                running == exists|j: int|
                    0 <= j < mi && (#[trigger] self.matchers@[j].running_spec()),
                match (iter_found, round_winner(ms, st, k, at_end, mi as int)) {
                    (Some(ft), Some(o)) => ft.token_type == o.kind && ft.len as int == o.len
                        && ft.precedence == o.prec && ft.wf() && ft.len <= self.value@.len()
                        && ft.value@ == self.value@.take(ft.len as int),
                    (None, None) => true,
                    _ => false,
                },
            decreases self.matchers@.len() - mi,
        {
            let ghost before = self.matchers@;
            let ghost rw_prev = round_winner(ms, st, k, at_end, mi as int);
            let ghost fed_guard = runs_upto(
                ms[mi as int],
                st,
                if at_end {
                    k
                } else {
                    k - 1
                },
            );
            let was_running = self.matchers[mi].is_running();
            if was_running {
                let m = &mut self.matchers[mi];
                let r = m.find_match(oc, self.value.as_slice(), &mut self.ctx);
                proof {
                    assert(fed_guard);
                    assert(before[mi as int].outcome(self.value@, at_end) == ms[
                        mi as int
                    ].outcome(st.take(k), at_end));
                }
                match r {
                    MatcherResult::Running() => {
                        proof {
                            assert(ms[mi as int].outcome(st.take(k), at_end)
                                == MatchOutcome::Continue);
                            assert(runs_upto(ms[mi as int], st, k)) by {
                                assert forall|i: int|
                                    1 <= i <= k implies ms[mi as int].outcome(
                                    #[trigger] st.take(i),
                                    false,
                                ) == MatchOutcome::Continue by {
                                    if i < k {
                                        assert(runs_upto(ms[mi as int], st, k - 1));
                                    }
                                }
                            }
                        }
                    },
                    MatcherResult::Matched(token) => {
                        proof {
                            assert(ms[mi as int].outcome(st.take(k), at_end)
                                matches MatchOutcome::Emit { kind, len });
                            if !at_end {
                                assert(!runs_upto(ms[mi as int], st, k)) by {
                                    if runs_upto(ms[mi as int], st, k) {
                                        assert(ms[mi as int].outcome(st.take(k), false)
                                            == MatchOutcome::Continue);
                                    }
                                }
                            }
                        }
                        iter_found = prefer_candidate(iter_found, token);
                    },
                    MatcherResult::Failed() => {
                        proof {
                            assert(ms[mi as int].outcome(st.take(k), at_end)
                                == MatchOutcome::Halt);
                            if !at_end {
                                assert(!runs_upto(ms[mi as int], st, k)) by {
                                    if runs_upto(ms[mi as int], st, k) {
                                        assert(ms[mi as int].outcome(st.take(k), false)
                                            == MatchOutcome::Continue);
                                    }
                                }
                            }
                        }
                    },
                }
            } else {
                proof {
                    assert(!fed_guard);
                    assert(!runs_upto(ms[mi as int], st, k)) by {
                        if runs_upto(ms[mi as int], st, k) {
                            assert(runs_upto(
                                ms[mi as int],
                                st,
                                if at_end {
                                    k
                                } else {
                                    k - 1
                                },
                            ));
                        }
                    }
                }
            }
            proof {
                assert forall|j: int|
                    0 <= j < self.matchers@.len() && j != mi implies self.matchers@[j] == before[
                    j
                ] by {}
            }
            let now_running = self.matchers[mi].is_running();
            if now_running {
                running = true;
            }
            proof {
                if running {
                    if now_running {
                        assert(self.matchers@[mi as int].running_spec());
                    } else {
                        let j0 = choose|j: int|
                            0 <= j < mi && (#[trigger] before[j].running_spec());
                        assert(self.matchers@[j0].running_spec());
                    }
                    assert(exists|j: int|
                        0 <= j < mi + 1 && (#[trigger] self.matchers@[j].running_spec()));
                } else {
                    assert forall|j: int| 0 <= j < mi + 1 implies !(
                    #[trigger] self.matchers@[j].running_spec()) by {
                        if j < mi {
                            assert(self.matchers@[j] == before[j]);
                            assert(!before[j].running_spec()) by {
                                if before[j].running_spec() {
                                    assert(exists|i: int|
                                        0 <= i < mi && (#[trigger] before[i].running_spec()));
                                }
                            }
                        }
                    }
                }
            }
            mi = mi + 1;
        }
        (running, iter_found)
    }

    #[verifier::rlimit(100)]
    #[verifier::spinoff_prover]
    fn get_token(&mut self) -> (r: Result<Option<Token>, LexxError>)
        requires
            old(self).wf(),
        ensures
            Self::attempt_post(*old(self), *final(self), r),
            old(self).input_infallible() ==> Self::resolved_post(*old(self), r),
            Self::same_matcher_specs(*old(self), *final(self)),
            final(self).lookahead() == old(self).lookahead(),
    {
        let ghost pre = *old(self);
        let ghost ms = pre.matchers@;
        let ghost st = pre.stream();
        self.value.clear();
        let mut mi: usize = 0;
        while mi < self.matchers.len()
            invariant
                self.wf(),
                self.cache == pre.cache,
                self.input == pre.input,
                self.value@.len() == 0,
                self.line == pre.line,
                self.column == pre.column,
                self.cr_pending == pre.cr_pending,
                self.lexxor_result == pre.lexxor_result,
                mi <= self.matchers@.len(),
                self.matchers@.len() == ms.len(),
                forall|j: int| mi <= j < ms.len() ==> self.matchers@[j] == ms[j],
                forall|j: int, s: Seq<char>, b: bool|
                    0 <= j < mi ==> (#[trigger] self.matchers@[j].outcome(s, b)) == ms[j].outcome(
                        s,
                        b,
                    ),
                forall|j: int|
                    0 <= j < mi ==> (#[trigger] self.matchers@[j].prec_spec()) == ms[
                        j
                    ].prec_spec(),
                forall|j: int|
                    0 <= j < mi ==> (#[trigger] self.matchers@[j].running_spec())
                        && self.matchers@[j].wf(Seq::<char>::empty()),
            decreases self.matchers@.len() - mi,
        {
            let m = &mut self.matchers[mi];
            m.reset(&mut self.ctx);
            mi = mi + 1;
        }
        self.found_token = None;
        proof {
            assert(pre.stream() =~= self.value@ + self.stream());
            self.cache.lemma_len_bound();
            assert(self.value@ =~= Seq::<char>::empty());
            assert(self.value@ =~= st.take(0));
        }
        loop
            invariant
                pre == *old(self),
                ms == pre.matchers@,
                st == pre.stream(),
                self.wf(),
                CAP >= 1,
                self.value@.len() <= CAP,
                self.cache@.len() == 0 || self.value@.len() + self.cache@.len() <= CAP,
                pre.stream() == self.value@ + self.stream(),
                self.value@ == st.take(self.value@.len() as int),
                self.line == pre.line,
                self.column == pre.column,
                self.cr_pending == pre.cr_pending,
                self.lexxor_result == pre.lexxor_result,
                self.input.infallible() == pre.input.infallible(),
                self.matchers@.len() == ms.len(),
                forall|j: int, s: Seq<char>, b: bool|
                    0 <= j < ms.len() ==> (#[trigger] self.matchers@[j].outcome(s, b)) == ms[
                        j
                    ].outcome(s, b),
                forall|j: int|
                    0 <= j < ms.len() ==> (#[trigger] self.matchers@[j].prec_spec()) == ms[
                        j
                    ].prec_spec(),
                forall|j: int|
                    0 <= j < ms.len() ==> ((#[trigger] self.matchers@[j].running_spec())
                        == runs_upto(ms[j], st, self.value@.len() as int)) && (
                    self.matchers@[j].running_spec() ==> self.matchers@[j].wf(self.value@)),
                forall|k2: int|
                    1 <= k2 <= self.value@.len() ==> #[trigger] some_alive(ms, st, k2),
                match (self.found_token, best_candidate(ms, st, self.value@.len() as int)) {
                    (Some(ft), Some(o)) => ft.token_type == o.kind && ft.len as int == o.len
                        && ft.precedence == o.prec && ft.wf() && ft.len <= self.value@.len()
                        && ft.value@ == self.value@.take(ft.len as int),
                    (None, None) => true,
                    _ => false,
                },
            decreases self.stream().len(),
        {
            let ghost loop_pre = *self;
            let ghost k = self.value@.len() as int;
            let from_cache = !self.cache.is_empty();
            let oc: Option<char> = if from_cache {
                match self.cache.read() {
                    Ok(c) => Some(c),
                    Err(_) => vstd::pervasive::unreached(),
                }
            } else {
                match self.input.next() {
                    Ok(x) => x,
                    Err(e) => {
                        proof {
                            assert(pre.stream().skip(k) =~= self.stream());
                            assert(!pre.input_infallible());
                        }
                        return Err(LexxError::from(e));
                    },
                }
            };
            if let Some(ch) = oc {
                proof {
                    assert(seq![ch] + self.stream() =~= loop_pre.stream());
                    assert(loop_pre.stream() =~= st.skip(k));
                    assert(ch == st[k]);
                }
                if self.value.len() == CAP {
                    let r = Err(LexxError::Error(overflow_message(self.line, self.column, ch)));
                    proof {
                        assert(pre.stream().skip(k + 1) =~= self.stream());
                        assert(st.len() >= CAP + 1);
                        assert(attempt_overflows(ms, st, CAP as int));
                    }
                    return r;
                }
                self.value.push(ch);
                proof {
                    assert(pre.stream() =~= self.value@ + self.stream()) by {
                        assert(loop_pre.value@.push(ch) + self.stream() =~= loop_pre.value@ + (
                        seq![ch] + self.stream()));
                    }
                    assert(self.value@.drop_last() =~= loop_pre.value@);
                    assert(self.value@ =~= st.take(k + 1));
                    match &self.found_token {
                        Some(ft) => {
                            assert(self.value@.take(ft.len as int) =~= loop_pre.value@.take(
                                ft.len as int,
                            ));
                        },
                        None => {},
                    }
                }
            }
            let ghost kk = self.value@.len() as int;
            let round = self.feed_round(oc, Ghost(ms), Ghost(st));
            let running = round.0;
            let iter_found = round.1;
            let ghost rw = round_winner(ms, st, kk, oc is None, ms.len() as int);
            let ghost best_before = best_candidate(ms, st, k);
            proof {
                if oc is Some {
                    assert(best_candidate(ms, st, kk) == match rw {
                        Some(w) => prefer_offer(best_before, w),
                        None => best_before,
                    });
                }
            }
            if let Some(token) = iter_found {
                let cur = self.found_token.take();
                self.found_token = prefer_candidate(cur, token);
            }
            proof {
                assert(match (self.found_token, match rw {
                    Some(w) => prefer_offer(best_before, w),
                    None => best_before,
                }) {
                    (Some(ft), Some(o)) => ft.token_type == o.kind && ft.len as int == o.len
                        && ft.precedence == o.prec && ft.wf() && ft.len <= self.value@.len()
                        && ft.value@ == self.value@.take(ft.len as int),
                    (None, None) => true,
                    _ => false,
                });
            }
            if !running {
                proof {
                    if oc is Some {
                        assert(!some_alive(ms, st, kk)) by {
                            if some_alive(ms, st, kk) {
                                let j = choose|j: int|
                                    0 <= j < ms.len() && runs_upto(#[trigger] ms[j], st, kk);
                                assert(self.matchers@[j].running_spec());
                            }
                        }
                        assert(1 <= kk <= st.len());
                        lemma_attempt_len_stops_at(ms, st, 0, kk);
                        assert(!reaches_end(ms, st)) by {
                            assert(!some_alive(ms, st, kk));
                        }
                        assert(attempt_winner(ms, st) == best_candidate(ms, st, kk));
                        assert(!attempt_overflows(ms, st, CAP as int)) by {
                            assert(!some_alive(ms, st, kk));
                            assert(1 <= kk <= CAP);
                        }
                    } else {
                        assert(self.stream().len() == 0);
                        assert(st =~= self.value@);
                        assert(kk == st.len());
                        if st.len() > 0 {
                            assert(reaches_end(ms, st));
                            lemma_attempt_len_full(ms, st, 0);
                        } else {
                            assert(reaches_end(ms, st));
                            assert(attempt_len(ms, st) == 0);
                        }
                        assert(attempt_winner(ms, st) == (match rw {
                            Some(w) => prefer_offer(best_before, w),
                            None => best_before,
                        })) by {
                            assert(best_candidate(ms, st, kk) == best_before);
                            assert(attempt_len(ms, st) == kk);
                        }
                        assert(!attempt_overflows(ms, st, CAP as int)) by {
                            assert(st.len() <= CAP);
                        }
                    }
                }
                let best = self.found_token.take();
                if let Some(mut token) = best {
                    let ghost commit_pre = *self;
                    let extra = vstd::slice::slice_subrange(
                        self.value.as_slice(),
                        token.len,
                        self.value.len(),
                    );
                    proof {
                        assert(extra@ =~= self.value@.skip(token.len as int));
                        assert(commit_pre.cache@.len() + extra@.len() <= CAP);
                    }
                    let res = self.cache.prepend(extra);
                    let _free = match res {
                        Ok(free) => free,
                        Err(_) => vstd::pervasive::unreached(),
                    };
                    let pos = advance_over(
                        TextPosition {
                            line: self.line,
                            column: self.column,
                            cr_pending: self.cr_pending,
                        },
                        self.value.as_slice(),
                        token.len,
                    );
                    let l = self.line;
                    let c = self.column;
                    self.line = pos.line;
                    self.column = pos.column;
                    self.cr_pending = pos.cr_pending;
                    token.line = l;
                    token.column = c;
                    proof {
                        let tl = token.len as int;
                        assert(token.value@ == self.value@.take(tl));
                        assert(token.value@ =~= pre.stream().take(tl));
                        assert(self.cache@ == self.value@.skip(tl) + commit_pre.cache@);
                        assert(self.stream() =~= pre.stream().skip(tl));
                    }
                    return Ok(Some(token));
                } else {
                    if oc.is_none() && self.value.len() == 0 {
                        proof {
                            assert(pre.stream() =~= self.stream());
                        }
                        return Ok(None);
                    }
                    let r = Err(
                        LexxError::TokenNotFound(unresolved_message(self.line, self.column, oc)),
                    );
                    proof {
                        assert(pre.stream().skip(kk) =~= self.stream());
                        assert(kk >= 1);
                        if oc is Some {
                            assert(st[attempt_len(ms, st) - 1] == st[kk - 1]);
                            assert(oc == Some(st[kk - 1]));
                        }
                    }
                    return r;
                }
            }
            proof {
                assert(oc is Some);
                assert(self.stream().len() < loop_pre.stream().len());
            }
        }
    }

    /// A chain of states linked by successful attempts, each emitting the
    /// corresponding token.
    pub open spec fn emission_chain(states: Seq<Self>, tokens: Seq<Token>) -> bool {
        states.len() == tokens.len() + 1 && forall|i: int|
            0 <= i < tokens.len() ==> Self::attempt_post(
                states[i],
                states[i + 1],
                Ok(Some(#[trigger] tokens[i])),
            )
    }

    /// Over any chain of successful attempts, the emitted token values
    /// concatenate to exactly the consumed prefix of the initial stream,
    /// and the final position is the reference single-pass walk over that
    /// prefix from the initial position.
    pub proof fn lemma_tokens_partition_stream(states: Seq<Self>, tokens: Seq<Token>)
        requires
            Self::emission_chain(states, tokens),
        ensures
            states.first().stream() == concat_values(tokens) + states.last().stream(),
            states.last().position() == spec_walk(
                states.first().position(),
                concat_values(tokens),
            ),
        decreases tokens.len(),
    {
        if tokens.len() == 0 {
            assert(concat_values(tokens) + states.last().stream() =~= states.last().stream());
        } else {
            let t = tokens[0];
            assert(Self::attempt_post(states[0], states[1], Ok(Some(t))));
            assert(Self::emission_chain(states.skip(1), tokens.skip(1))) by {
                assert forall|i: int| 0 <= i < tokens.skip(1).len() implies Self::attempt_post(
                    states.skip(1)[i],
                    states.skip(1)[i + 1],
                    Ok(Some(#[trigger] tokens.skip(1)[i])),
                ) by {
                    assert(tokens.skip(1)[i] == tokens[i + 1]);
                    assert(states.skip(1)[i] == states[i + 1]);
                    assert(states.skip(1)[i + 1] == states[i + 2]);
                }
            }
            Self::lemma_tokens_partition_stream(states.skip(1), tokens.skip(1));
            assert(states.skip(1).first() == states[1]);
            assert(states.skip(1).last() == states.last());
            assert(states[0].stream() =~= t.value@ + states[1].stream()) by {
                assert(t.value@ == states[0].stream().take(t.len as int));
                assert(states[1].stream() == states[0].stream().skip(t.len as int));
            }
            assert(states[0].stream() =~= concat_values(tokens) + states.last().stream()) by {
                assert(concat_values(tokens) == t.value@ + concat_values(tokens.skip(1)));
            }
            crate::position::lemma_walk_concat(
                states[0].position(),
                t.value@,
                concat_values(tokens.skip(1)),
            );
        }
    }


    /// With an input that cannot fail, an attempt on an exhausted stream
    /// never errs: the engine owes a clean answer at the end of the input.
    pub proof fn lemma_exhausted_stream_ends_cleanly(
        pre: Self,
        post: Self,
        r: Result<Option<Token>, LexxError>,
    )
        requires
            Self::attempt_post(pre, post, r),
            pre.stream().len() == 0,
            pre.input_infallible(),
        ensures
            r is Ok,
    {
    }

    /// A lookahead followed by a read yields the very result the lookahead
    /// produced.
    pub proof fn lemma_peek_then_next(
        s0: Self,
        s1: Self,
        s2: Self,
        r1: Result<Option<Token>, LexxError>,
        r2: Result<Option<Token>, LexxError>,
    )
        requires
            s0.lookahead() is None,
            match s1.lookahead() {
                Some(stored) => Self::attempt_post(s0, s1, stored) && result_eqv(r1, stored),
                None => false,
            },
            match s1.lookahead() {
                Some(cached) => r2 == cached && Self::cleared_lookahead(s1, s2),
                None => true,
            },
        ensures
            result_eqv(r1, r2),
    {
    }

    /// Repeated lookaheads yield the same result.
    pub proof fn lemma_peek_twice(
        s1: Self,
        s2: Self,
        r1: Result<Option<Token>, LexxError>,
        r2: Result<Option<Token>, LexxError>,
    )
        requires
            match s1.lookahead() {
                Some(stored) => result_eqv(r1, stored),
                None => false,
            },
            match s1.lookahead() {
                Some(cached) => result_eqv(r2, cached) && s2 == s1,
                None => true,
            },
        ensures
            result_eqv(r1, r2),
    {
    }

    /// Rewinding a token directly after the attempt that emitted it
    /// restores the character stream and the position to what they were
    /// before that attempt, provided no carriage return was pending there.
    pub proof fn lemma_rewind_restores(s0: Self, s1: Self, t: Token, s2: Self)
        requires
            Self::attempt_post(s0, s1, Ok(Some(t))),
            s2.stream() == t.value@ + s1.stream(),
            s2.position() == (TextPosition {
                line: t.line,
                column: t.column,
                cr_pending: false,
            }),
            !s0.position().cr_pending,
        ensures
            s2.stream() == s0.stream(),
            s2.position() == s0.position(),
    {
        assert(s2.stream() =~= s0.stream()) by {
            assert(t.value@ == s0.stream().take(t.len as int));
            assert(s1.stream() == s0.stream().skip(t.len as int));
        }
    }


    /// Attempts are deterministic: two engines whose matchers answer and
    /// rank alike, standing at the same stream and position, with inputs
    /// that cannot fail, resolve their attempts to equivalent results —
    /// equal tokens, or the same error with the same message.
    pub proof fn lemma_attempt_deterministic(
        pa: Self,
        qa: Self,
        ra: Result<Option<Token>, LexxError>,
        pb: Self,
        qb: Self,
        rb: Result<Option<Token>, LexxError>,
    )
        requires
            matcher_specs_agree(pa.matcher_list(), pb.matcher_list()),
            pa.stream() == pb.stream(),
            pa.position() == pb.position(),
            pa.input_infallible(),
            pb.input_infallible(),
            Self::attempt_post(pa, qa, ra),
            Self::resolved_post(pa, ra),
            Self::attempt_post(pb, qb, rb),
            Self::resolved_post(pb, rb),
        ensures
            result_eqv(ra, rb),
    {
        lemma_agree_attempt(pa.matcher_list(), pb.matcher_list(), pa.stream(), CAP as int);
        match (ra, rb) {
            (Ok(Some(a)), Ok(Some(b))) => {
                assert(a.len == b.len);
                assert(a.value@ == pa.stream().take(a.len as int));
                assert(b.value@ == pb.stream().take(b.len as int));
            },
            _ => {},
        }
    }

    /// A token emitted by an attempt and rewound directly afterwards is
    /// emitted again by the next attempt, equal in value, kind, length,
    /// precedence, line and column — provided the input cannot fail, the
    /// replay buffer had room, and no carriage return was pending before
    /// the emitting attempt.
    pub proof fn lemma_rewind_reemits(
        s0: Self,
        s1: Self,
        t: Token,
        s2: Self,
        s3: Self,
        r2: Result<Option<Token>, LexxError>,
    )
        requires
            s0.input_infallible(),
            !s0.position().cr_pending,
            Self::attempt_post(s0, s1, Ok(Some(t))),
            Self::resolved_post(s0, Ok(Some(t))),
            Self::same_matcher_specs(s0, s1),
            s2.stream() == t.value@ + s1.stream(),
            s2.position() == (TextPosition { line: t.line, column: t.column, cr_pending: false }),
            s2.matcher_list() == s1.matcher_list(),
            s2.input_infallible() == s1.input_infallible(),
            Self::attempt_post(s2, s3, r2),
            Self::resolved_post(s2, r2),
        ensures
            r2 matches Ok(Some(t2)) && token_eqv(&t2, &t),
    {
        Self::lemma_rewind_restores(s0, s1, t, s2);
        Self::lemma_attempt_deterministic(s0, s1, Ok(Some(t)), s2, s3, r2);
    }

    /// Returns the next token, `Ok(None)` at the end of the input, or an
    /// error; a pending lookahead result is returned first.
    pub fn next_token(&mut self) -> (r: Result<Option<Token>, LexxError>)
        requires
            old(self).wf(),
        ensures
            final(self).wf(),
            Self::same_matcher_specs(*old(self), *final(self)),
            match old(self).lookahead() {
                Some(cached) => r == cached && Self::cleared_lookahead(*old(self), *final(self))
                    && final(self).stream() == old(self).stream() && final(self).position() == old(
                    self,
                ).position() && final(self).lookahead() is None && final(self).matcher_list()
                    == old(self).matcher_list(),
                None => Self::attempt_post(*old(self), *final(self), r) && (old(
                    self,
                ).input_infallible() ==> Self::resolved_post(*old(self), r))
                    && final(self).lookahead() is None,
            },
    {
        if self.lexxor_result.is_some() {
            let cached = self.lexxor_result.take();
            match cached {
                Some(lr) => lr,
                None => vstd::pervasive::unreached(),
            }
        } else {
            self.get_token()
        }
    }

    /// Produces the next token without consuming it: the same result is
    /// cached, and the next [`Self::next_token`] returns it. Repeated
    /// lookaheads return the same result.
    pub fn look_ahead(&mut self) -> (r: Result<Option<Token>, LexxError>)
        requires
            old(self).wf(),
        ensures
            final(self).wf(),
            Self::same_matcher_specs(*old(self), *final(self)),
            match old(self).lookahead() {
                Some(cached) => result_eqv(r, cached) && *final(self) == *old(self),
                None => match final(self).lookahead() {
                    Some(stored) => Self::attempt_post(*old(self), *final(self), stored) && (old(
                        self,
                    ).input_infallible() ==> Self::resolved_post(*old(self), stored))
                        && result_eqv(r, stored),
                    None => false,
                },
            },
    {
        if self.lexxor_result.is_some() {
            match &self.lexxor_result {
                Some(lr) => clone_result(lr),
                None => vstd::pervasive::unreached(),
            }
        } else {
            let r0 = self.get_token();
            let r = clone_result(&r0);
            self.lexxor_result = Some(r0);
            r
        }
    }

    /// Pushes the token's characters back into the front of the replay
    /// buffer, in their original order, and resets the position to the
    /// token's. The token need not have come from this engine; any
    /// characters within capacity can be injected. Fails with an overflow
    /// error, leaving the buffer unchanged, if the replay buffer lacks
    /// room; on success the returned number is the replay capacity still
    /// free.
    pub fn rewind(&mut self, token: Token) -> (r: Result<usize, RollingCharBufferError>)
        requires
            old(self).wf(),
        ensures
            final(self).wf(),
            final(self).position() == (TextPosition {
                line: token.line,
                column: token.column,
                cr_pending: false,
            }),
            final(self).lookahead() == old(self).lookahead(),
            final(self).input_infallible() == old(self).input_infallible(),
            final(self).matcher_list() == old(self).matcher_list(),
            match r {
                Ok(rem) => old(self).replay_len() + token.value@.len() <= CAP
                    && final(self).stream() == token.value@ + old(self).stream()
                    && rem == CAP - final(self).replay_len(),
                Err(e) => e == RollingCharBufferError::BufferFullError && old(self).replay_len()
                    + token.value@.len() > CAP && final(self).stream() == old(self).stream(),
            },
    {
        self.line = token.line;
        self.column = token.column;
        self.cr_pending = false;
        let cs = crate::chars::string_chars(&token.value);
        let r = self.cache.prepend(cs.as_slice());
        proof {
            match r {
                Ok(_) => {
                    assert(final(self).stream() =~= token.value@ + old(self).stream());
                },
                Err(_) => {
                    assert(final(self).stream() =~= old(self).stream());
                },
            }
        }
        r
    }

    /// Replaces the input, resets the position to line 1 and column 1, and
    /// clears the replay buffer and any pending lookahead. The matcher
    /// list and the capacity are kept.
    pub fn set_input(&mut self, input: I)
        requires
            old(self).wf(),
        ensures
            final(self).wf(),
            final(self).stream() == input.remaining(),
            final(self).input_infallible() == input.infallible(),
            final(self).position() == (TextPosition { line: 1, column: 1, cr_pending: false }),
            final(self).lookahead() is None,
            final(self).matcher_list() == old(self).matcher_list(),
    {
        self.input = input;
        self.line = 1;
        self.column = 1;
        self.cr_pending = false;
        self.cache.clear();
        self.lexxor_result = None;
        proof {
            assert(final(self).stream() =~= final(self).input.remaining());
        }
    }
}



/// The offer matcher `i` makes in the round where `k` characters have been
/// consumed (`at_end`: the end-of-input round), if it is fed and matches.
pub open spec fn round_offer<M: Matcher>(
    ms: Seq<M>,
    st: Seq<char>,
    k: int,
    at_end: bool,
    i: int,
) -> Option<Offer> {
    if runs_upto(
        ms[i],
        st,
        if at_end {
            k
        } else {
            k - 1
        },
    ) {
        match ms[i].outcome(st.take(k), at_end) {
            MatchOutcome::Emit { kind, len } => Some(Offer { kind, len, prec: ms[i].prec_spec() }),
            _ => None,
        }
    } else {
        None
    }
}

/// The round's winner dominates every offer of the round in precedence,
/// and exists exactly when some offer was made.
pub proof fn lemma_round_winner_max<M: Matcher>(
    ms: Seq<M>,
    st: Seq<char>,
    k: int,
    at_end: bool,
    j: int,
)
    ensures
        match round_winner(ms, st, k, at_end, j) {
            Some(w) => forall|i: int|
                0 <= i < j ==> (match #[trigger] round_offer(ms, st, k, at_end, i) {
                    Some(o) => o.prec <= w.prec,
                    None => true,
                }),
            None => forall|i: int| 0 <= i < j ==> round_offer(ms, st, k, at_end, i) is None,
        },
    decreases j,
{
    if j > 0 {
        lemma_round_winner_max(ms, st, k, at_end, j - 1);
    }
}

/// The candidate folded over the first `k` rounds dominates every offer of
/// those rounds in precedence.
pub proof fn lemma_best_candidate_max<M: Matcher>(ms: Seq<M>, st: Seq<char>, k: int)
    ensures
        match best_candidate(ms, st, k) {
            Some(w) => forall|k2: int, i: int|
                1 <= k2 <= k && 0 <= i < ms.len() ==> (match #[trigger] round_offer(
                    ms,
                    st,
                    k2,
                    false,
                    i,
                ) {
                    Some(o) => o.prec <= w.prec,
                    None => true,
                }),
            None => forall|k2: int, i: int|
                1 <= k2 <= k && 0 <= i < ms.len() ==> round_offer(ms, st, k2, false, i) is None,
        },
    decreases k,
{
    if k > 0 {
        lemma_best_candidate_max(ms, st, k - 1);
        lemma_round_winner_max(ms, st, k, false, ms.len() as int);
    }
}

/// The candidate an attempt settles on dominates, in precedence, every
/// offer any matcher made during the attempt, in the character rounds and
/// in the end-of-input round alike; and it exists exactly when some offer
/// was made.
pub proof fn lemma_attempt_winner_max<M: Matcher>(ms: Seq<M>, st: Seq<char>)
    ensures
        match attempt_winner(ms, st) {
            Some(w) => (forall|k2: int, i: int|
                1 <= k2 <= attempt_len(ms, st) && 0 <= i < ms.len() ==> (match #[trigger]
                round_offer(ms, st, k2, false, i) {
                    Some(o) => o.prec <= w.prec,
                    None => true,
                })) && (reaches_end(ms, st) ==> forall|i: int|
                0 <= i < ms.len() ==> (match #[trigger] round_offer(
                    ms,
                    st,
                    st.len() as int,
                    true,
                    i,
                ) {
                    Some(o) => o.prec <= w.prec,
                    None => true,
                })),
            None => (forall|k2: int, i: int|
                1 <= k2 <= attempt_len(ms, st) && 0 <= i < ms.len() ==> round_offer(
                    ms,
                    st,
                    k2,
                    false,
                    i,
                ) is None) && (reaches_end(ms, st) ==> forall|i: int|
                0 <= i < ms.len() ==> round_offer(ms, st, st.len() as int, true, i) is None),
        },
{
    lemma_best_candidate_max(ms, st, attempt_len(ms, st));
    lemma_round_winner_max(ms, st, st.len() as int, true, ms.len() as int);
}

/// The matchers of `b` answer and rank exactly as those of `a`, whatever
/// per-attempt state each list is in.
pub open spec fn matcher_specs_agree<M: Matcher>(a: Seq<M>, b: Seq<M>) -> bool {
    &&& b.len() == a.len()
    &&& forall|j: int, s: Seq<char>, at_end: bool|
        0 <= j < a.len() ==> (#[trigger] b[j].outcome(s, at_end)) == a[j].outcome(s, at_end)
    &&& forall|j: int| 0 <= j < a.len() ==> (#[trigger] b[j].prec_spec()) == a[j].prec_spec()
}

proof fn lemma_agree_runs_upto<M: Matcher>(a: Seq<M>, b: Seq<M>, st: Seq<char>, j: int, k: int)
    requires
        matcher_specs_agree(a, b),
        0 <= j < a.len(),
    ensures
        runs_upto(a[j], st, k) == runs_upto(b[j], st, k),
{
    if runs_upto(a[j], st, k) {
        assert forall|i: int| 1 <= i <= k implies b[j].outcome(#[trigger] st.take(i), false)
            == MatchOutcome::Continue by {
            assert(a[j].outcome(st.take(i), false) == MatchOutcome::Continue);
        }
    }
    if runs_upto(b[j], st, k) {
        assert forall|i: int| 1 <= i <= k implies a[j].outcome(#[trigger] st.take(i), false)
            == MatchOutcome::Continue by {
            assert(b[j].outcome(st.take(i), false) == MatchOutcome::Continue);
        }
    }
}

proof fn lemma_agree_round_winner<M: Matcher>(
    a: Seq<M>,
    b: Seq<M>,
    st: Seq<char>,
    k: int,
    at_end: bool,
    j: int,
)
    requires
        matcher_specs_agree(a, b),
        j <= a.len(),
    ensures
        round_winner(a, st, k, at_end, j) == round_winner(b, st, k, at_end, j),
    decreases j,
{
    if j > 0 {
        lemma_agree_round_winner(a, b, st, k, at_end, j - 1);
        lemma_agree_runs_upto(
            a,
            b,
            st,
            j - 1,
            if at_end {
                k
            } else {
                k - 1
            },
        );
        assert(b[j - 1].outcome(st.take(k), at_end) == a[j - 1].outcome(st.take(k), at_end));
        assert(b[j - 1].prec_spec() == a[j - 1].prec_spec());
    }
}

proof fn lemma_agree_best_candidate<M: Matcher>(a: Seq<M>, b: Seq<M>, st: Seq<char>, k: int)
    requires
        matcher_specs_agree(a, b),
    ensures
        best_candidate(a, st, k) == best_candidate(b, st, k),
    decreases k,
{
    if k > 0 {
        lemma_agree_best_candidate(a, b, st, k - 1);
        lemma_agree_round_winner(a, b, st, k, false, a.len() as int);
    }
}

proof fn lemma_agree_some_alive<M: Matcher>(a: Seq<M>, b: Seq<M>, st: Seq<char>, k: int)
    requires
        matcher_specs_agree(a, b),
    ensures
        some_alive(a, st, k) == some_alive(b, st, k),
{
    if some_alive(a, st, k) {
        let j = choose|j: int| 0 <= j < a.len() && runs_upto(#[trigger] a[j], st, k);
        lemma_agree_runs_upto(a, b, st, j, k);
        assert(runs_upto(b[j], st, k));
    }
    if some_alive(b, st, k) {
        let j = choose|j: int| 0 <= j < b.len() && runs_upto(#[trigger] b[j], st, k);
        lemma_agree_runs_upto(a, b, st, j, k);
        assert(runs_upto(a[j], st, k));
    }
}

proof fn lemma_agree_attempt_len_from<M: Matcher>(a: Seq<M>, b: Seq<M>, st: Seq<char>, j: int)
    requires
        matcher_specs_agree(a, b),
        j >= 0,
    ensures
        attempt_len_from(a, st, j) == attempt_len_from(b, st, j),
    decreases st.len() - j,
{
    if j < st.len() {
        lemma_agree_some_alive(a, b, st, j + 1);
        if some_alive(a, st, j + 1) {
            lemma_agree_attempt_len_from(a, b, st, j + 1);
        }
    }
}

/// Two matcher lists with agreeing answer functions and precedences drive
/// an attempt over the same stream to the same outcome: how much it
/// consumes, whether it reaches the end, whether it outgrows the
/// accumulator, and which candidate it settles on.
pub proof fn lemma_agree_attempt<M: Matcher>(a: Seq<M>, b: Seq<M>, st: Seq<char>, cap: int)
    requires
        matcher_specs_agree(a, b),
    ensures
        attempt_len(a, st) == attempt_len(b, st),
        reaches_end(a, st) == reaches_end(b, st),
        attempt_overflows(a, st, cap) == attempt_overflows(b, st, cap),
        attempt_winner(a, st) == attempt_winner(b, st),
{
    lemma_agree_attempt_len_from(a, b, st, 0);
    if reaches_end(a, st) {
        assert forall|k: int| 1 <= k <= st.len() implies #[trigger] some_alive(b, st, k) by {
            lemma_agree_some_alive(a, b, st, k);
            assert(some_alive(a, st, k));
        }
    }
    if reaches_end(b, st) {
        assert forall|k: int| 1 <= k <= st.len() implies #[trigger] some_alive(a, st, k) by {
            lemma_agree_some_alive(a, b, st, k);
            assert(some_alive(b, st, k));
        }
    }
    if attempt_overflows(a, st, cap) {
        assert forall|k: int| 1 <= k <= cap implies #[trigger] some_alive(b, st, k) by {
            lemma_agree_some_alive(a, b, st, k);
            assert(some_alive(a, st, k));
        }
    }
    if attempt_overflows(b, st, cap) {
        assert forall|k: int| 1 <= k <= cap implies #[trigger] some_alive(a, st, k) by {
            lemma_agree_some_alive(a, b, st, k);
            assert(some_alive(b, st, k));
        }
    }
    lemma_agree_best_candidate(a, b, st, attempt_len(a, st));
    lemma_agree_round_winner(a, b, st, st.len() as int, true, a.len() as int);
}

/// The tokenizer interface of [`Lexxor`], for code that wants to name the
/// operations without spelling out the engine's type parameters.
///
/// The trait promises only that validity is kept; the engine's behavioral
/// contracts — [`Lexxor::attempt_post`] and [`Lexxor::resolved_post`] —
/// live on the inherent methods, which every call on a concrete engine
/// resolves to. Restating them here would force the whole attempt model
/// onto every implementor of what the original offers as a mere
/// type-erasure convenience.
pub trait Lexxer: Sized {
    /// The input type this tokenizer reads.
    type Input;

    /// Validity carried across calls.
    spec fn lexxer_wf(&self) -> bool;

    /// Returns the next token, `Ok(None)` at the end of the input, or an
    /// error.
    fn next_token(&mut self) -> (r: Result<Option<Token>, LexxError>)
        requires
            old(self).lexxer_wf(),
        ensures
            final(self).lexxer_wf(),
    ;

    /// Produces the next token without consuming it.
    fn look_ahead(&mut self) -> (r: Result<Option<Token>, LexxError>)
        requires
            old(self).lexxer_wf(),
        ensures
            final(self).lexxer_wf(),
    ;

    /// Pushes a token's characters back into the stream and restores the
    /// position to the token's.
    fn rewind(&mut self, token: Token) -> (r: Result<usize, RollingCharBufferError>)
        requires
            old(self).lexxer_wf(),
        ensures
            final(self).lexxer_wf(),
    ;

    /// Replaces the input and resets the tracking state.
    fn set_input(&mut self, input: Self::Input)
        requires
            old(self).lexxer_wf(),
        ensures
            final(self).lexxer_wf(),
    ;
}

impl<const CAP: usize, I: LexxInput, M: Matcher> Lexxer for Lexxor<CAP, I, M> {
    type Input = I;

    open spec fn lexxer_wf(&self) -> bool {
        self.wf()
    }

    fn next_token(&mut self) -> (r: Result<Option<Token>, LexxError>) {
        Lexxor::next_token(self)
    }

    fn look_ahead(&mut self) -> (r: Result<Option<Token>, LexxError>) {
        Lexxor::look_ahead(self)
    }

    fn rewind(&mut self, token: Token) -> (r: Result<usize, RollingCharBufferError>) {
        Lexxor::rewind(self, token)
    }

    fn set_input(&mut self, input: I) {
        Lexxor::set_input(self, input)
    }
}

} // verus!
