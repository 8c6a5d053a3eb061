//! A matcher for exact strings from a given list.
//!
//! The matcher is handed a list of target strings and recognizes exactly
//! those strings, wherever they stand in the input. Among targets that
//! complete, the longest wins; among equally long ones, the one later in
//! the list.

use crate::chars::{collect_prefix, str_chars};
use crate::matcher::{MatchOutcome, Matcher, MatcherResult};
use crate::token::Token;
use std::collections::HashMap;
use vstd::prelude::*;

verus! {

/// One string the matcher is looking for, with its per-attempt state.
#[derive(Clone, Debug)]
pub struct Target {
    /// Whether this target can still be completed in this attempt.
    pub matching: bool,
    /// The characters this target must match.
    pub target: Vec<char>,
}

/// The bare character sequences of a target list.
pub open spec fn target_seqs(ts: Seq<Target>) -> Seq<Seq<char>> {
    ts.map_values(|t: Target| t.target@)
}

/// `t` can still become a match after `seen` has been consumed: `seen` is a
/// prefix of `t`.
pub open spec fn alive(t: Seq<char>, seen: Seq<char>) -> bool {
    t.len() >= seen.len() && t.take(seen.len() as int) == seen
}

/// `t` has been consumed completely, strictly inside `seen`: a nonempty
/// proper prefix of `seen`.
pub open spec fn completed(t: Seq<char>, seen: Seq<char>) -> bool {
    1 <= t.len() < seen.len() && t == seen.take(t.len() as int)
}

/// Target `j` is exactly the nonempty sequence consumed so far, so the next
/// consumed character completes it.
pub open spec fn hit_now(ts: Seq<Seq<char>>, prev: Seq<char>, j: int) -> bool {
    ts[j] == prev && prev.len() >= 1
}

/// The last target among the first `j` that completes exactly now.
pub open spec fn last_hit(ts: Seq<Seq<char>>, prev: Seq<char>, j: int) -> Option<usize>
    decreases j,
{
    if j <= 0 {
        None
    } else if hit_now(ts, prev, j - 1) {
        Some((j - 1) as usize)
    } else {
        last_hit(ts, prev, j - 1)
    }
}

/// The last target among the first `j` that equals the whole consumed
/// sequence.
pub open spec fn last_full_hit(ts: Seq<Seq<char>>, seen: Seq<char>, j: int) -> Option<usize>
    decreases j,
{
    if j <= 0 {
        None
    } else if ts[j - 1] == seen {
        Some((j - 1) as usize)
    } else {
        last_full_hit(ts, seen, j - 1)
    }
}

/// The best completed target among the first `j`: longest, and among
/// equally long ones the later in the list.
pub open spec fn best_upto(ts: Seq<Seq<char>>, seen: Seq<char>, j: int) -> Option<usize>
    decreases j,
{
    if j <= 0 {
        None
    } else {
        let prev = best_upto(ts, seen, j - 1);
        if completed(ts[j - 1], seen) && (prev is None || ts[prev.unwrap() as int].len() <= ts[j
            - 1].len()) {
            Some((j - 1) as usize)
        } else {
            prev
        }
    }
}

/// The best completed target over the whole list.
pub open spec fn exact_best(ts: Seq<Seq<char>>, seen: Seq<char>) -> Option<usize> {
    best_upto(ts, seen, ts.len() as int)
}

/// Some target can still be completed after `seen`.
pub open spec fn any_alive(ts: Seq<Seq<char>>, seen: Seq<char>) -> bool {
    exists|j: int| 0 <= j < ts.len() && alive(#[trigger] ts[j], seen)
}

/// Some target equals the whole consumed sequence.
pub open spec fn any_full_hit(ts: Seq<Seq<char>>, seen: Seq<char>) -> bool {
    exists|j: int| 0 <= j < ts.len() && (#[trigger] ts[j]) == seen
}

/// What the best-so-far index guarantees.
pub proof fn lemma_best_props(ts: Seq<Seq<char>>, seen: Seq<char>, j: int)
    requires
        j <= ts.len() <= usize::MAX,
    ensures
        match best_upto(ts, seen, j) {
            Some(f) => f < j && completed(ts[f as int], seen),
            None => forall|i: int| 0 <= i < j ==> !completed(#[trigger] ts[i], seen),
        },
    decreases j,
{
    if j > 0 {
        lemma_best_props(ts, seen, j - 1);
    }
}

/// What the last completing target guarantees.
pub proof fn lemma_last_hit_props(ts: Seq<Seq<char>>, prev: Seq<char>, j: int)
    requires
        j <= ts.len() <= usize::MAX,
    ensures
        match last_hit(ts, prev, j) {
            Some(f) => f < j && hit_now(ts, prev, f as int),
            None => forall|i: int| 0 <= i < j ==> !hit_now(ts, prev, i),
        },
    decreases j,
{
    if j > 0 {
        lemma_last_hit_props(ts, prev, j - 1);
    }
}

/// What the last fully equal target guarantees.
pub proof fn lemma_last_full_hit_props(ts: Seq<Seq<char>>, seen: Seq<char>, j: int)
    requires
        j <= ts.len() <= usize::MAX,
    ensures
        match last_full_hit(ts, seen, j) {
            Some(f) => f < j && ts[f as int] == seen,
            None => forall|i: int| 0 <= i < j ==> (#[trigger] ts[i]) != seen,
        },
    decreases j,
{
    if j > 0 {
        lemma_last_full_hit_props(ts, seen, j - 1);
    }
}

/// Nothing is completed inside an empty sequence.
pub proof fn lemma_best_empty(ts: Seq<Seq<char>>, seen: Seq<char>, j: int)
    requires
        seen.len() == 0,
    ensures
        best_upto(ts, seen, j) is None,
    decreases j,
{
    if j > 0 {
        lemma_best_empty(ts, seen, j - 1);
    }
}

/// Extending the consumed sequence by one character moves the best
/// completed target forward: a target equal to the old sequence now
/// completes and wins; otherwise the old best stands.
pub proof fn lemma_step_best(ts: Seq<Seq<char>>, prev: Seq<char>, new: Seq<char>, j: int)
    requires
        j <= ts.len() <= usize::MAX,
        new.len() == prev.len() + 1,
        new.take(prev.len() as int) == prev,
    ensures
        best_upto(ts, new, j) == match last_hit(ts, prev, j) {
            Some(f) => Some(f),
            None => best_upto(ts, prev, j),
        },
    decreases j,
{
    if j > 0 {
        lemma_step_best(ts, prev, new, j - 1);
        lemma_best_props(ts, prev, j - 1);
        let t = ts[j - 1];
        let n = new.len() as int;
        if t.len() < n - 1 {
            assert(new.take(t.len() as int) =~= prev.take(t.len() as int));
            assert(completed(t, new) == completed(t, prev));
            assert(!hit_now(ts, prev, j - 1));
        } else if t.len() == n - 1 {
            assert(new.take(n - 1) == prev);
            assert(completed(t, new) == hit_now(ts, prev, j - 1));
            assert(!completed(t, prev));
        } else {
            assert(!completed(t, new));
            assert(!completed(t, prev));
            assert(!hit_now(ts, prev, j - 1));
        }
        match last_hit(ts, prev, j - 1) {
            Some(g) => {
                lemma_last_hit_props(ts, prev, j - 1);
                assert(hit_now(ts, prev, g as int));
            },
            None => {},
        }
    }
}


/// Two matchers with the same targets and token kind answer alike on
/// every offered sequence.
pub proof fn lemma_exact_outcome_config(a: ExactMatcher, b: ExactMatcher)
    requires
        a.tgts() == b.tgts(),
        a.token_type == b.token_type,
    ensures
        forall|s: Seq<char>, at_end: bool| #[trigger] a.outcome(s, at_end) == b.outcome(s, at_end),
{
}

/// Matches exactly the strings of its target list.
#[derive(Clone, Debug)]
pub struct ExactMatcher {
    /// Current size of the ongoing match.
    pub index: usize,
    /// This matcher's precedence.
    pub precedence: u8,
    /// Whether the matcher is currently running.
    pub running: bool,
    /// The index of the best target completed so far, if any.
    pub found: Option<usize>,
    /// The list of targets to look for.
    pub targets: Vec<Target>,
    /// The token kind a match is tagged with.
    pub token_type: u16,
}

impl ExactMatcher {
    /// The character sequences this matcher looks for.
    pub open spec fn tgts(&self) -> Seq<Seq<char>> {
        target_seqs(self.targets@)
    }

    /// Builds an exact matcher from a list of strings.
    ///
    /// * `matches` - the strings that will be matched
    /// * `token_type` - the token kind a match is tagged with; kinds are
    ///   nonzero, zero marks no kind
    /// * `precedence` - the precedence of this matcher
    #[verifier::spinoff_prover]
    pub fn build_exact_matcher(matches: Vec<&str>, token_type: u16, precedence: u8) -> (m:
        ExactMatcher)
        requires
            token_type != 0,
        ensures
            m.running_spec(),
            m.wf(Seq::<char>::empty()),
            m.token_type == token_type,
            m.prec_spec() == precedence,
            m.tgts().len() == matches@.len(),
            forall|j: int| 0 <= j < matches@.len() ==> #[trigger] m.tgts()[j] == matches@[j]@,
    {
        let mut targets: Vec<Target> = Vec::new();
        let mut i: usize = 0;
        while i < matches.len()
            invariant
                i <= matches@.len(),
                targets@.len() == i,
                forall|j: int|
                    0 <= j < i ==> (#[trigger] targets@[j].target@) == matches@[j]@
                        && targets@[j].matching,
            decreases matches@.len() - i,
        {
            let chars = str_chars(matches[i]);
            let ghost tpre = targets@;
            targets.push(Target { matching: true, target: chars });
            proof {
                assert forall|j: int|
                    0 <= j < i + 1 implies (#[trigger] targets@[j].target@) == matches@[j]@
                        && targets@[j].matching by {
                    if j < i {
                        assert(targets@[j] == tpre[j]);
                    } else {
                        assert(targets@[j] == targets@.last());
                    }
                }
            }
            i = i + 1;
        }
        let m = ExactMatcher {
            index: 0,
            precedence,
            found: None,
            running: true,
            token_type,
            targets,
        };
        proof {
            lemma_best_empty(m.tgts(), Seq::<char>::empty(), m.tgts().len() as int);
            assert forall|j: int|
                0 <= j < m.targets@.len() implies (#[trigger] m.targets@[j].matching) == alive(
                m.tgts()[j],
                Seq::<char>::empty(),
            ) by {
                assert(m.tgts()[j] == m.targets@[j].target@);
                assert(m.tgts()[j].take(0) =~= Seq::<char>::empty());
            }
            assert forall|j: int| 0 <= j < matches@.len() implies #[trigger] m.tgts()[j]
                == matches@[j]@ by {
                assert(m.tgts()[j] == m.targets@[j].target@);
            }
        }
        m
    }

    fn generate_exact_token(&self) -> (r: MatcherResult)
        requires
            match self.found {
                Some(f) => f < self.targets@.len(),
                None => true,
            },
        ensures
            match r {
                MatcherResult::Matched(t) => {
                    &&& self.found matches Some(f)
                    &&& t.token_type == self.token_type
                    &&& t.len == self.tgts()[self.found.unwrap() as int].len()
                    &&& t.value@ == self.tgts()[self.found.unwrap() as int]
                    &&& t.wf()
                    &&& t.precedence == self.precedence
                },
                MatcherResult::Failed() => self.found is None,
                MatcherResult::Running() => false,
            },
    {
        match self.found {
            None => MatcherResult::Failed(),
            Some(i) => {
                let target = &self.targets[i].target;
                let len = target.len();
                let token_value = collect_prefix(target.as_slice(), len);
                proof {
                    assert(target@.take(len as int) =~= target@);
                    assert(self.tgts()[i as int] == self.targets@[i as int].target@);
                }
                MatcherResult::Matched(
                    Token {
                        value: token_value,
                        token_type: self.token_type,
                        len,
                        line: 0,
                        column: len,
                        precedence: self.precedence,
                    },
                )
            },
        }
    }
}

impl Matcher for ExactMatcher {
    open spec fn prec_spec(&self) -> u8 {
        self.precedence
    }

    open spec fn running_spec(&self) -> bool {
        self.running
    }

    open spec fn wf(&self, seen: Seq<char>) -> bool {
        &&& self.index == seen.len()
        &&& self.targets@.len() == self.tgts().len()
        &&& forall|j: int|
            0 <= j < self.targets@.len() ==> (#[trigger] self.targets@[j].matching) == alive(
                self.tgts()[j],
                seen,
            )
        &&& self.found == exact_best(self.tgts(), seen)
        &&& match self.found {
            Some(f) => f < self.targets@.len(),
            None => true,
        }
    }

    open spec fn outcome(&self, seen: Seq<char>, at_end: bool) -> MatchOutcome {
        if at_end {
            if any_full_hit(self.tgts(), seen) {
                MatchOutcome::Emit { kind: self.token_type, len: seen.len() as int }
            } else {
                match exact_best(self.tgts(), seen) {
                    Some(f) => MatchOutcome::Emit {
                        kind: self.token_type,
                        len: self.tgts()[f as int].len() as int,
                    },
                    None => MatchOutcome::Halt,
                }
            }
        } else {
            if any_alive(self.tgts(), seen) {
                MatchOutcome::Continue
            } else {
                match exact_best(self.tgts(), seen) {
                    Some(f) => MatchOutcome::Emit {
                        kind: self.token_type,
                        len: self.tgts()[f as int].len() as int,
                    },
                    None => MatchOutcome::Halt,
                }
            }
        }
    }

    #[verifier::spinoff_prover]
    fn reset(&mut self, _ctx: &mut HashMap<String, i32>) {
        let ghost pre = *self;
        let mut i: usize = 0;
        while i < self.targets.len()
            invariant
                i <= self.targets@.len(),
                self.targets@.len() == pre.targets@.len(),
                forall|j: int|
                    0 <= j < self.targets@.len() ==> (#[trigger] self.targets@[j].target@)
                        == pre.targets@[j].target@,
                forall|j: int| 0 <= j < i ==> #[trigger] self.targets@[j].matching,
                self.index == pre.index,
                self.found == pre.found,
                self.running == pre.running,
                self.precedence == pre.precedence,
                self.token_type == pre.token_type,
            decreases self.targets@.len() - i,
        {
            let tg = &mut self.targets[i];
            tg.matching = true;
            i = i + 1;
        }
        self.found = None;
        self.index = 0;
        self.running = true;
        proof {
            assert forall|j: int| 0 <= j < self.targets@.len() implies #[trigger] self.tgts()[j]
                == pre.tgts()[j] by {
                assert(self.tgts()[j] == self.targets@[j].target@);
                assert(pre.tgts()[j] == pre.targets@[j].target@);
            }
            assert(self.tgts() =~= pre.tgts());
            lemma_exact_outcome_config(*self, pre);
            lemma_best_empty(self.tgts(), Seq::<char>::empty(), self.tgts().len() as int);
            assert forall|j: int|
                0 <= j < self.targets@.len() implies (#[trigger] self.targets@[j].matching)
                    == alive(self.tgts()[j], Seq::<char>::empty()) by {
                assert(self.tgts()[j] == self.targets@[j].target@);
                assert(self.tgts()[j].take(0) =~= Seq::<char>::empty());
            }
        }
    }

    #[verifier::rlimit(50)]
    #[verifier::spinoff_prover]
    fn find_match(&mut self, oc: Option<char>, value: &[char], _ctx: &mut HashMap<String, i32>) -> (
    r: MatcherResult) {
        let ghost pre = *old(self);
        let ghost ts = pre.tgts();
        let n = value.len();
        match oc {
            None => {
                self.running = false;
                let mut i: usize = 0;
                while i < self.targets.len()
                    invariant
                        i <= self.targets@.len(),
                        self.targets@ == pre.targets@,
                        self.tgts() == ts,
                        self.index == pre.index,
                        self.index == value@.len(),
                        self.precedence == pre.precedence,
                        self.token_type == pre.token_type,
                        !self.running,
                        pre.wf(value@),
                        self.found == match last_full_hit(ts, value@, i as int) {
                            Some(f) => Some(f),
                            None => pre.found,
                        },
                        match self.found {
                            Some(f) => f < self.targets@.len(),
                            None => true,
                        },
                    decreases self.targets@.len() - i,
                {
                    let ghost t = ts[i as int];
                    proof {
                        assert(t == self.targets@[i as int].target@);
                    }
                    if self.targets[i].matching && self.targets[i].target.len() <= self.index {
                        proof {
                            assert(alive(t, value@));
                            assert(t.take(value@.len() as int) =~= t);
                            assert(t == value@);
                        }
                        self.found = Some(i);
                    } else {
                        proof {
                            if t == value@ {
                                assert(t.take(value@.len() as int) =~= value@);
                                assert(alive(t, value@));
                                assert(false);
                            }
                        }
                    }
                    i = i + 1;
                }
                proof {
                    lemma_last_full_hit_props(ts, value@, self.targets@.len() as int);
                    lemma_best_props(ts, value@, self.targets@.len() as int);
                    if last_full_hit(ts, value@, self.targets@.len() as int) is Some {
                        let f = last_full_hit(ts, value@, self.targets@.len() as int).unwrap();
                        assert(0 <= f < ts.len() && ts[f as int] == value@);
                        assert(any_full_hit(ts, value@));
                    } else {
                        assert(!any_full_hit(ts, value@)) by {
                            if any_full_hit(ts, value@) {
                                let j = choose|j: int|
                                    0 <= j < ts.len() && (#[trigger] ts[j]) == value@;
                                assert(ts[j] != value@);
                            }
                        }
                    }
                }
                let r = self.generate_exact_token();
                proof {
                    lemma_exact_outcome_config(*self, pre);
                }
                r
            },
            Some(c) => {
                let ghost prev = value@.drop_last();
                let mut running_new = false;
                let mut i: usize = 0;
                proof {
                    assert(value@.take(prev.len() as int) =~= prev);
                }
                while i < self.targets.len()
                    invariant
                        i <= self.targets@.len(),
                        self.targets@.len() == pre.targets@.len(),
                        self.tgts() == ts,
                        ts.len() == self.targets@.len(),
                        self.index == pre.index,
                        self.index == prev.len(),
                        self.precedence == pre.precedence,
                        self.token_type == pre.token_type,
                        self.running == pre.running,
                        pre.wf(prev),
                        value@.len() == prev.len() + 1,
                        value@.take(prev.len() as int) == prev,
                        value@.last() == c,
                        n == value@.len(),
                        forall|j: int|
                            i <= j < self.targets@.len() ==> (#[trigger] self.targets@[j].matching)
                                == alive(ts[j], prev),
                        forall|j: int|
                            0 <= j < i ==> (#[trigger] self.targets@[j].matching) == alive(
                                ts[j],
                                value@,
                            ),
                        running_new == exists|j: int| 0 <= j < i && alive(#[trigger] ts[j], value@),
                        self.found == match last_hit(ts, prev, i as int) {
                            Some(f) => Some(f),
                            None => pre.found,
                        },
                        match self.found {
                            Some(f) => f < self.targets@.len(),
                            None => true,
                        },
                    decreases self.targets@.len() - i,
                {
                    let ghost t = ts[i as int];
                    proof {
                        assert(t == self.targets@[i as int].target@);
                    }
                    if self.targets[i].matching {
                        if self.targets[i].target.len() > self.index {
                            let m = self.targets[i].target[self.index];
                            proof {
                                assert(!hit_now(ts, prev, i as int)) by {
                                    assert(t.len() > prev.len());
                                }
                                assert(value@.last() == c);
                                assert(m == t[prev.len() as int]);
                            }
                            if m == c {
                                running_new = true;
                                proof {
                                    assert forall|k: int| 0 <= k < value@.len() implies t[k]
                                        == value@[k] by {
                                        if k < prev.len() {
                                            assert(t.take(prev.len() as int)[k] == t[k]);
                                            assert(prev[k] == value@[k]);
                                        } else {
                                            assert(value@[k] == value@.last());
                                            assert(t[k] == m);
                                        }
                                    }
                                    assert(t.take(value@.len() as int) =~= value@);
                                    assert(alive(t, value@));
                                }
                            } else {
                                let tg = &mut self.targets[i];
                                tg.matching = false;
                                proof {
                                    assert(!alive(t, value@)) by {
                                        if alive(t, value@) {
                                            assert(t.take(value@.len() as int)[prev.len() as int]
                                                == t[prev.len() as int]);
                                        }
                                    }
                                    assert(self.tgts() =~= ts);
                                }
                            }
                        } else {
                            let tg = &mut self.targets[i];
                            tg.matching = false;
                            proof {
                                assert(t.len() <= prev.len());
                                assert(!alive(t, value@));
                                assert(t.len() >= prev.len());
                                assert(t.take(prev.len() as int) =~= t);
                                assert(t == prev);
                                assert(self.tgts() =~= ts);
                            }
                            if self.index > 0 {
                                self.found = Some(i);
                                proof {
                                    assert(hit_now(ts, prev, i as int));
                                }
                            } else {
                                proof {
                                    assert(!hit_now(ts, prev, i as int));
                                }
                            }
                        }
                    } else {
                        proof {
                            assert(!alive(t, prev));
                            assert(!alive(t, value@)) by {
                                if alive(t, value@) {
                                    assert(t.take(prev.len() as int) =~= value@.take(
                                        prev.len() as int,
                                    ));
                                }
                            }
                            assert(!hit_now(ts, prev, i as int)) by {
                                if t == prev {
                                    assert(t.take(prev.len() as int) =~= prev);
                                }
                            }
                        }
                    }
                    i = i + 1;
                }
                self.index = self.index + 1;
                proof {
                    lemma_step_best(ts, prev, value@, ts.len() as int);
                    lemma_best_props(ts, value@, ts.len() as int);
                    assert(exact_best(ts, value@) == self.found);
                }
                proof {
                    lemma_exact_outcome_config(*self, pre);
                }
                if !running_new {
                    self.running = false;
                    let r = self.generate_exact_token();
                    proof {
                        assert(!any_alive(ts, value@)) by {
                            if any_alive(ts, value@) {
                                let j = choose|j: int| 0 <= j < ts.len() && alive(
                                    #[trigger] ts[j],
                                    value@,
                                );
                                assert(self.targets@[j].matching == alive(ts[j], value@));
                            }
                        }
                    }
                    r
                } else {
                    self.running = true;
                    MatcherResult::Running()
                }
            },
        }
    }

    fn is_running(&self) -> (r: bool) {
        self.running
    }

    fn precedence(&self) -> (r: u8) {
        self.precedence
    }
}

} // verus!
