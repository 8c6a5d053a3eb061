//! A matcher for keywords: exact strings that must be bounded on the right.
//!
//! Like the exact matcher, this matcher is handed a list of strings, but a
//! completed string only counts when the character that follows it is not
//! alphanumeric, or the input ends there. A keyword that merely starts a
//! longer alphanumeric run does not match.

use crate::chars::{char_is_alphanumeric, collect_prefix, is_alpha, is_num, str_chars};
use crate::matcher::exact::{alive, any_alive, any_full_hit, target_seqs};

pub use crate::matcher::exact::Target;
use crate::matcher::{MatchOutcome, Matcher, MatcherResult};
use crate::token::Token;
use std::collections::HashMap;
use vstd::prelude::*;

verus! {

/// `t` has been consumed completely inside `seen` and the character that
/// follows it is not alphanumeric.
pub open spec fn kw_completed(t: Seq<char>, seen: Seq<char>) -> bool {
    1 <= t.len() < seen.len() && t == seen.take(t.len() as int) && !(is_alpha(
        seen[t.len() as int],
    ) || is_num(seen[t.len() as int]))
}

/// Target `j` is exactly the nonempty sequence consumed so far and the
/// newly offered character `c` is a valid right boundary.
pub open spec fn kw_hit_now(ts: Seq<Seq<char>>, prev: Seq<char>, c: char, j: int) -> bool {
    ts[j] == prev && prev.len() >= 1 && !(is_alpha(c) || is_num(c))
}

/// The last target among the first `j` that completes exactly now.
pub open spec fn kw_last_hit(ts: Seq<Seq<char>>, prev: Seq<char>, c: char, j: int) -> Option<usize>
    decreases j,
{
    if j <= 0 {
        None
    } else if kw_hit_now(ts, prev, c, j - 1) {
        Some((j - 1) as usize)
    } else {
        kw_last_hit(ts, prev, c, j - 1)
    }
}

/// The first target among the first `j` that equals the whole consumed
/// sequence.
pub open spec fn first_full_hit(ts: Seq<Seq<char>>, seen: Seq<char>, j: int) -> Option<usize>
    decreases j,
{
    if j <= 0 {
        None
    } else {
        match first_full_hit(ts, seen, j - 1) {
            Some(f) => Some(f),
            None => if ts[j - 1] == seen {
                Some((j - 1) as usize)
            } else {
                None
            },
        }
    }
}

/// The best boundary-completed target among the first `j`: longest, and
/// among equally long ones the later in the list.
pub open spec fn kw_best_upto(ts: Seq<Seq<char>>, seen: Seq<char>, j: int) -> Option<usize>
    decreases j,
{
    if j <= 0 {
        None
    } else {
        let prev = kw_best_upto(ts, seen, j - 1);
        if kw_completed(ts[j - 1], seen) && (prev is None || ts[prev.unwrap() as int].len() <= ts[j
            - 1].len()) {
            Some((j - 1) as usize)
        } else {
            prev
        }
    }
}

/// The best boundary-completed target over the whole list.
pub open spec fn kw_best(ts: Seq<Seq<char>>, seen: Seq<char>) -> Option<usize> {
    kw_best_upto(ts, seen, ts.len() as int)
}

/// What the best-so-far index guarantees.
pub proof fn lemma_kw_best_props(ts: Seq<Seq<char>>, seen: Seq<char>, j: int)
    requires
        j <= ts.len() <= usize::MAX,
    ensures
        match kw_best_upto(ts, seen, j) {
            Some(f) => f < j && kw_completed(ts[f as int], seen),
            None => forall|i: int| 0 <= i < j ==> !kw_completed(#[trigger] ts[i], seen),
        },
    decreases j,
{
    if j > 0 {
        lemma_kw_best_props(ts, seen, j - 1);
    }
}

/// What the last completing target guarantees.
pub proof fn lemma_kw_last_hit_props(ts: Seq<Seq<char>>, prev: Seq<char>, c: char, j: int)
    requires
        j <= ts.len() <= usize::MAX,
    ensures
        match kw_last_hit(ts, prev, c, j) {
            Some(f) => f < j && kw_hit_now(ts, prev, c, f as int),
            None => forall|i: int| 0 <= i < j ==> !kw_hit_now(ts, prev, c, i),
        },
    decreases j,
{
    if j > 0 {
        lemma_kw_last_hit_props(ts, prev, c, j - 1);
    }
}

/// What the first fully equal target guarantees.
pub proof fn lemma_first_full_hit_props(ts: Seq<Seq<char>>, seen: Seq<char>, j: int)
    requires
        j <= ts.len() <= usize::MAX,
    ensures
        match first_full_hit(ts, seen, j) {
            Some(f) => f < j && ts[f as int] == seen,
            None => forall|i: int| 0 <= i < j ==> (#[trigger] ts[i]) != seen,
        },
    decreases j,
{
    if j > 0 {
        lemma_first_full_hit_props(ts, seen, j - 1);
    }
}

/// Nothing is completed inside an empty sequence.
pub proof fn lemma_kw_best_empty(ts: Seq<Seq<char>>, seen: Seq<char>, j: int)
    requires
        seen.len() == 0,
    ensures
        kw_best_upto(ts, seen, j) is None,
    decreases j,
{
    if j > 0 {
        lemma_kw_best_empty(ts, seen, j - 1);
    }
}

/// Extending the consumed sequence by one character moves the best
/// boundary-completed target forward: a target equal to the old sequence
/// completes now if the new character is a boundary; otherwise the old best
/// stands.
pub proof fn lemma_kw_step_best(ts: Seq<Seq<char>>, prev: Seq<char>, new: Seq<char>, j: int)
    requires
        j <= ts.len() <= usize::MAX,
        new.len() == prev.len() + 1,
        new.take(prev.len() as int) == prev,
    ensures
        kw_best_upto(ts, new, j) == match kw_last_hit(ts, prev, new.last(), j) {
            Some(f) => Some(f),
            None => kw_best_upto(ts, prev, j),
        },
    decreases j,
{
    if j > 0 {
        lemma_kw_step_best(ts, prev, new, j - 1);
        lemma_kw_best_props(ts, prev, j - 1);
        let t = ts[j - 1];
        let n = new.len() as int;
        let c = new.last();
        if t.len() < n - 1 {
            assert(new.take(t.len() as int) =~= prev.take(t.len() as int));
            assert(new[t.len() as int] == prev[t.len() as int]);
            assert(kw_completed(t, new) == kw_completed(t, prev));
            assert(!kw_hit_now(ts, prev, c, j - 1));
        } else if t.len() == n - 1 {
            assert(new.take(n - 1) == prev);
            assert(new[n - 1] == c);
            assert(kw_completed(t, new) == kw_hit_now(ts, prev, c, j - 1));
            assert(!kw_completed(t, prev));
        } else {
            assert(!kw_completed(t, new));
            assert(!kw_completed(t, prev));
            assert(!kw_hit_now(ts, prev, c, j - 1));
        }
        match kw_last_hit(ts, prev, c, j - 1) {
            Some(g) => {
                lemma_kw_last_hit_props(ts, prev, c, j - 1);
                assert(kw_hit_now(ts, prev, c, g as int));
            },
            None => {},
        }
    }
}


/// Two matchers with the same targets and token kind answer alike on
/// every offered sequence.
pub proof fn lemma_kw_outcome_config(a: KeywordMatcher, b: KeywordMatcher)
    requires
        a.tgts() == b.tgts(),
        a.token_type == b.token_type,
    ensures
        forall|s: Seq<char>, at_end: bool| #[trigger] a.outcome(s, at_end) == b.outcome(s, at_end),
{
}

/// Matches the strings of its target list, each bounded on the right by a
/// non-alphanumeric character or the end of input.
#[derive(Clone, Debug)]
pub struct KeywordMatcher {
    /// Current size of the ongoing match.
    pub index: usize,
    /// This matcher's precedence.
    pub precedence: u8,
    /// Whether the matcher is currently running.
    pub running: bool,
    /// The index of the best target completed so far, if any.
    pub found: Option<usize>,
    /// The list of targets to look for.
    pub targets: Vec<Target>,
    /// The token kind a match is tagged with.
    pub token_type: u16,
}

impl KeywordMatcher {
    /// The character sequences this matcher looks for.
    pub open spec fn tgts(&self) -> Seq<Seq<char>> {
        target_seqs(self.targets@)
    }

    /// Builds a keyword matcher from a list of strings.
    ///
    /// * `matches` - the strings that will be matched
    /// * `token_type` - the token kind a match is tagged with; kinds are
    ///   nonzero, zero marks no kind
    /// * `precedence` - the precedence of this matcher
    #[verifier::spinoff_prover]
    pub fn build_matcher_keyword(matches: Vec<&str>, token_type: u16, precedence: u8) -> (m:
        KeywordMatcher)
        requires
            token_type != 0,
        ensures
            m.running_spec(),
            m.wf(Seq::<char>::empty()),
            m.token_type == token_type,
            m.prec_spec() == precedence,
            m.tgts().len() == matches@.len(),
            forall|j: int| 0 <= j < matches@.len() ==> #[trigger] m.tgts()[j] == matches@[j]@,
    {
        let mut targets: Vec<Target> = Vec::new();
        let mut i: usize = 0;
        while i < matches.len()
            invariant
                i <= matches@.len(),
                targets@.len() == i,
                forall|j: int|
                    0 <= j < i ==> (#[trigger] targets@[j].target@) == matches@[j]@
                        && targets@[j].matching,
            decreases matches@.len() - i,
        {
            let chars = str_chars(matches[i]);
            let ghost tpre = targets@;
            targets.push(Target { matching: true, target: chars });
            proof {
                assert forall|j: int|
                    0 <= j < i + 1 implies (#[trigger] targets@[j].target@) == matches@[j]@
                        && targets@[j].matching by {
                    if j < i {
                        assert(targets@[j] == tpre[j]);
                    } else {
                        assert(targets@[j] == targets@.last());
                    }
                }
            }
            i = i + 1;
        }
        let m = KeywordMatcher {
            index: 0,
            precedence,
            found: None,
            running: true,
            token_type,
            targets,
        };
        proof {
            lemma_kw_best_empty(m.tgts(), Seq::<char>::empty(), m.tgts().len() as int);
            assert forall|j: int|
                0 <= j < m.targets@.len() implies (#[trigger] m.targets@[j].matching) == alive(
                m.tgts()[j],
                Seq::<char>::empty(),
            ) by {
                assert(m.tgts()[j] == m.targets@[j].target@);
                assert(m.tgts()[j].take(0) =~= Seq::<char>::empty());
            }
            assert forall|j: int| 0 <= j < matches@.len() implies #[trigger] m.tgts()[j]
                == matches@[j]@ by {
                assert(m.tgts()[j] == m.targets@[j].target@);
            }
        }
        m
    }

    fn generate_keyword_token(&self) -> (r: MatcherResult)
        requires
            match self.found {
                Some(f) => f < self.targets@.len(),
                None => true,
            },
        ensures
            match r {
                MatcherResult::Matched(t) => {
                    &&& self.found matches Some(f)
                    &&& t.token_type == self.token_type
                    &&& t.len == self.tgts()[self.found.unwrap() as int].len()
                    &&& t.value@ == self.tgts()[self.found.unwrap() as int]
                    &&& t.wf()
                    &&& t.precedence == self.precedence
                },
                MatcherResult::Failed() => self.found is None,
                MatcherResult::Running() => false,
            },
    {
        match self.found {
            None => MatcherResult::Failed(),
            Some(i) => {
                let target = &self.targets[i].target;
                let len = target.len();
                let token_value = collect_prefix(target.as_slice(), len);
                proof {
                    assert(target@.take(len as int) =~= target@);
                    assert(self.tgts()[i as int] == self.targets@[i as int].target@);
                }
                MatcherResult::Matched(
                    Token {
                        value: token_value,
                        token_type: self.token_type,
                        len,
                        line: 0,
                        column: len,
                        precedence: self.precedence,
                    },
                )
            },
        }
    }
}

impl Matcher for KeywordMatcher {
    open spec fn prec_spec(&self) -> u8 {
        self.precedence
    }

    open spec fn running_spec(&self) -> bool {
        self.running
    }

    open spec fn wf(&self, seen: Seq<char>) -> bool {
        &&& self.index == seen.len()
        &&& self.targets@.len() == self.tgts().len()
        &&& forall|j: int|
            0 <= j < self.targets@.len() ==> (#[trigger] self.targets@[j].matching) == alive(
                self.tgts()[j],
                seen,
            )
        &&& self.found == kw_best(self.tgts(), seen)
        &&& match self.found {
            Some(f) => f < self.targets@.len(),
            None => true,
        }
    }

    open spec fn outcome(&self, seen: Seq<char>, at_end: bool) -> MatchOutcome {
        if at_end {
            if any_full_hit(self.tgts(), seen) {
                MatchOutcome::Emit { kind: self.token_type, len: seen.len() as int }
            } else {
                match kw_best(self.tgts(), seen) {
                    Some(f) => MatchOutcome::Emit {
                        kind: self.token_type,
                        len: self.tgts()[f as int].len() as int,
                    },
                    None => MatchOutcome::Halt,
                }
            }
        } else {
            if any_alive(self.tgts(), seen) {
                MatchOutcome::Continue
            } else {
                match kw_best(self.tgts(), seen) {
                    Some(f) => MatchOutcome::Emit {
                        kind: self.token_type,
                        len: self.tgts()[f as int].len() as int,
                    },
                    None => MatchOutcome::Halt,
                }
            }
        }
    }

    #[verifier::spinoff_prover]
    fn reset(&mut self, _ctx: &mut HashMap<String, i32>) {
        let ghost pre = *self;
        let mut i: usize = 0;
        while i < self.targets.len()
            invariant
                i <= self.targets@.len(),
                self.targets@.len() == pre.targets@.len(),
                forall|j: int|
                    0 <= j < self.targets@.len() ==> (#[trigger] self.targets@[j].target@)
                        == pre.targets@[j].target@,
                forall|j: int| 0 <= j < i ==> #[trigger] self.targets@[j].matching,
                self.index == pre.index,
                self.found == pre.found,
                self.running == pre.running,
                self.precedence == pre.precedence,
                self.token_type == pre.token_type,
            decreases self.targets@.len() - i,
        {
            let tg = &mut self.targets[i];
            tg.matching = true;
            i = i + 1;
        }
        self.found = None;
        self.index = 0;
        self.running = true;
        proof {
            assert forall|j: int| 0 <= j < self.targets@.len() implies #[trigger] self.tgts()[j]
                == pre.tgts()[j] by {
                assert(self.tgts()[j] == self.targets@[j].target@);
                assert(pre.tgts()[j] == pre.targets@[j].target@);
            }
            assert(self.tgts() =~= pre.tgts());
            lemma_kw_outcome_config(*self, pre);
            lemma_kw_best_empty(self.tgts(), Seq::<char>::empty(), self.tgts().len() as int);
            assert forall|j: int|
                0 <= j < self.targets@.len() implies (#[trigger] self.targets@[j].matching)
                    == alive(self.tgts()[j], Seq::<char>::empty()) by {
                assert(self.tgts()[j] == self.targets@[j].target@);
                assert(self.tgts()[j].take(0) =~= Seq::<char>::empty());
            }
        }
    }

    fn find_match(&mut self, oc: Option<char>, value: &[char], _ctx: &mut HashMap<String, i32>) -> (
    r: MatcherResult) {
        let ghost pre = *old(self);
        let ghost ts = pre.tgts();
        let n = value.len();
        match oc {
            None => {
                self.running = false;
                let mut hit = false;
                let mut i: usize = 0;
                while i < self.targets.len()
                    invariant
                        i <= self.targets@.len(),
                        self.targets@ == pre.targets@,
                        self.tgts() == ts,
                        self.index == pre.index,
                        self.index == value@.len(),
                        self.precedence == pre.precedence,
                        self.token_type == pre.token_type,
                        !self.running,
                        pre.wf(value@),
                        hit == (first_full_hit(ts, value@, i as int) is Some),
                        self.found == match first_full_hit(ts, value@, i as int) {
                            Some(f) => Some(f),
                            None => pre.found,
                        },
                        match self.found {
                            Some(f) => f < self.targets@.len(),
                            None => true,
                        },
                    decreases self.targets@.len() - i,
                {
                    let ghost t = ts[i as int];
                    proof {
                        assert(t == self.targets@[i as int].target@);
                    }
                    if !hit && self.targets[i].matching && self.targets[i].target.len()
                        <= self.index {
                        proof {
                            assert(alive(t, value@));
                            assert(t.take(value@.len() as int) =~= t);
                            assert(t == value@);
                        }
                        self.found = Some(i);
                        hit = true;
                    } else {
                        proof {
                            if !hit && t == value@ {
                                assert(t.take(value@.len() as int) =~= value@);
                                assert(alive(t, value@));
                                assert(false);
                            }
                        }
                    }
                    i = i + 1;
                }
                proof {
                    lemma_first_full_hit_props(ts, value@, self.targets@.len() as int);
                    lemma_kw_best_props(ts, value@, self.targets@.len() as int);
                    if first_full_hit(ts, value@, self.targets@.len() as int) is Some {
                        let f = first_full_hit(ts, value@, self.targets@.len() as int).unwrap();
                        assert(0 <= f < ts.len() && ts[f as int] == value@);
                        assert(any_full_hit(ts, value@));
                    } else {
                        assert(!any_full_hit(ts, value@)) by {
                            if any_full_hit(ts, value@) {
                                let j = choose|j: int|
                                    0 <= j < ts.len() && (#[trigger] ts[j]) == value@;
                                assert(ts[j] != value@);
                            }
                        }
                    }
                }
                let r = self.generate_keyword_token();
                proof {
                    lemma_kw_outcome_config(*self, pre);
                }
                r
            },
            Some(c) => {
                let ghost prev = value@.drop_last();
                let boundary = !char_is_alphanumeric(c);
                let mut running_new = false;
                let mut i: usize = 0;
                proof {
                    assert(value@.take(prev.len() as int) =~= prev);
                }
                while i < self.targets.len()
                    invariant
                        i <= self.targets@.len(),
                        self.targets@.len() == pre.targets@.len(),
                        self.tgts() == ts,
                        ts.len() == self.targets@.len(),
                        self.index == pre.index,
                        self.index == prev.len(),
                        self.precedence == pre.precedence,
                        self.token_type == pre.token_type,
                        self.running == pre.running,
                        pre.wf(prev),
                        value@.len() == prev.len() + 1,
                        value@.take(prev.len() as int) == prev,
                        value@.last() == c,
                        boundary == !(is_alpha(c) || is_num(c)),
                        n == value@.len(),
                        forall|j: int|
                            i <= j < self.targets@.len() ==> (#[trigger] self.targets@[j].matching)
                                == alive(ts[j], prev),
                        forall|j: int|
                            0 <= j < i ==> (#[trigger] self.targets@[j].matching) == alive(
                                ts[j],
                                value@,
                            ),
                        running_new == exists|j: int| 0 <= j < i && alive(#[trigger] ts[j], value@),
                        self.found == match kw_last_hit(ts, prev, c, i as int) {
                            Some(f) => Some(f),
                            None => pre.found,
                        },
                        match self.found {
                            Some(f) => f < self.targets@.len(),
                            None => true,
                        },
                    decreases self.targets@.len() - i,
                {
                    let ghost t = ts[i as int];
                    proof {
                        assert(t == self.targets@[i as int].target@);
                    }
                    if self.targets[i].matching {
                        if self.targets[i].target.len() > self.index {
                            let m = self.targets[i].target[self.index];
                            proof {
                                assert(!kw_hit_now(ts, prev, c, i as int)) by {
                                    assert(t.len() > prev.len());
                                }
                            }
                            if m == c {
                                running_new = true;
                                proof {
                                    assert forall|k: int| 0 <= k < value@.len() implies t[k]
                                        == value@[k] by {
                                        if k < prev.len() {
                                            assert(t.take(prev.len() as int)[k] == t[k]);
                                            assert(prev[k] == value@[k]);
                                        } else {
                                            assert(value@[k] == value@.last());
                                        }
                                    }
                                    assert(t.take(value@.len() as int) =~= value@);
                                    assert(alive(t, value@));
                                }
                            } else {
                                let tg = &mut self.targets[i];
                                tg.matching = false;
                                proof {
                                    assert(!alive(t, value@)) by {
                                        if alive(t, value@) {
                                            assert(t.take(value@.len() as int)[prev.len() as int]
                                                == t[prev.len() as int]);
                                        }
                                    }
                                    assert(self.tgts() =~= ts);
                                }
                            }
                        } else {
                            let tg = &mut self.targets[i];
                            tg.matching = false;
                            proof {
                                assert(t.len() <= prev.len());
                                assert(!alive(t, value@));
                                assert(t.len() >= prev.len());
                                assert(t.take(prev.len() as int) =~= t);
                                assert(t == prev);
                                assert(self.tgts() =~= ts);
                            }
                            if self.index > 0 && boundary {
                                self.found = Some(i);
                                proof {
                                    assert(kw_hit_now(ts, prev, c, i as int));
                                }
                            } else {
                                proof {
                                    assert(!kw_hit_now(ts, prev, c, i as int));
                                }
                            }
                        }
                    } else {
                        proof {
                            assert(!alive(t, prev));
                            assert(!alive(t, value@)) by {
                                if alive(t, value@) {
                                    assert(t.take(prev.len() as int) =~= value@.take(
                                        prev.len() as int,
                                    ));
                                }
                            }
                            assert(!kw_hit_now(ts, prev, c, i as int)) by {
                                if t == prev {
                                    assert(t.take(prev.len() as int) =~= prev);
                                }
                            }
                        }
                    }
                    i = i + 1;
                }
                self.index = self.index + 1;
                proof {
                    lemma_kw_step_best(ts, prev, value@, ts.len() as int);
                    lemma_kw_best_props(ts, value@, ts.len() as int);
                    assert(kw_best(ts, value@) == self.found);
                }
                proof {
                    lemma_kw_outcome_config(*self, pre);
                }
                if !running_new {
                    self.running = false;
                    let r = self.generate_keyword_token();
                    proof {
                        assert(!any_alive(ts, value@)) by {
                            if any_alive(ts, value@) {
                                let j = choose|j: int| 0 <= j < ts.len() && alive(
                                    #[trigger] ts[j],
                                    value@,
                                );
                                assert(self.targets@[j].matching == alive(ts[j], value@));
                            }
                        }
                    }
                    r
                } else {
                    self.running = true;
                    MatcherResult::Running()
                }
            },
        }
    }

    fn is_running(&self) -> (r: bool) {
        self.running
    }

    fn precedence(&self) -> (r: u8) {
        self.precedence
    }
}

} // verus!
