//! Control of the volatility root search.
//!
//! The new volatility of a competitor is `exp(a / 2)`, where `a` is a root of
//! the residual function of the rating update. The search has two parts. It
//! first needs a second end `b` for the bracket whose first end is
//! `a = ln(volatility^2)`: where the squared rating shift exceeds the sum of
//! the squared deviation and the game variance, the logarithm of the excess
//! is taken; otherwise the points `a - k * tau` are probed for `k = 1, 2, ..`
//! until the residual is no longer negative. It then narrows the bracket by
//! secant steps with the Illinois modification until its ends are no further
//! apart than the tolerance.
//!
//! Both parts may run forever on degenerate input. A [`Search`] therefore
//! counts the probes and the steps against [`Limits`] and ends with a
//! [`Failure`] when one of them is used up. The caller evaluates the
//! residual and answers one yes-or-no question at a time; the search tells it
//! what to do next.

use vstd::prelude::*;

verus! {

/// Why a search ended without a root.
#[derive(Clone, Copy, Debug, PartialEq, Eq, Structural)]
pub enum Failure {
    /// Every permitted probe below the first end gave a negative residual.
    BracketNotFound,
    /// The bracket was still wider than the tolerance after every permitted
    /// secant step.
    NotConverged,
}

/// How many iterations a search may spend.
#[derive(Clone, Copy, Debug, PartialEq, Eq, Structural)]
pub struct Limits {
    /// The greatest `k` for which `a - k * tau` may be probed.
    pub probes: u32,
    /// The greatest number of secant steps.
    pub steps: u32,
}

/// Where a search stands, named by the question that it waits to have
/// answered.
#[derive(Clone, Copy, Debug, PartialEq, Eq, Structural)]
pub enum Phase {
    /// Does the squared rating shift exceed the squared deviation plus the
    /// variance?
    Start,
    /// Is the residual at `a - k * tau` negative?
    Bracketing { k: u32 },
    /// Are the ends of the bracket further apart than the tolerance, after
    /// `done` secant steps?
    Measuring { done: u32 },
    /// Is the product of the residual at the new point and the residual at
    /// `b` at most zero, in the secant step that follows `done` others?
    Stepping { done: u32 },
    /// The bracket is narrow enough.
    Solved,
    /// A limit was used up.
    Failed { failure: Failure },
}

/// What the caller does after an answer, before it answers the next
/// question.
#[derive(Clone, Copy, Debug, PartialEq, Eq, Structural)]
pub enum Move {
    /// Set `b` to the logarithm of the excess, and evaluate the residual at
    /// both ends.
    BracketByExcess,
    /// Evaluate the residual at `a - k * tau`.
    Probe { k: u32 },
    /// Set `b` to `a - k * tau`, and evaluate the residual at both ends.
    BracketByProbe { k: u32 },
    /// Compute the secant point `c = a + (a - b) * fa / (fb - fa)` and the
    /// residual `fc` there.
    Secant,
    /// Move the first end to the second (`a = b`, `fa = fb`), then the
    /// second to the secant point (`b = c`, `fb = fc`).
    Replace,
    /// Halve the residual kept for the first end (`fa = fa / 2`), then move
    /// the second end to the secant point (`b = c`, `fb = fc`).
    Halve,
    /// Return `exp(a / 2)`.
    Finish,
    /// Report the failure; there is no root to return.
    Abandon { failure: Failure },
}

impl Phase {
    /// No further question is asked in this phase.
    pub open spec fn finished(self) -> bool {
        self is Solved || self is Failed
    }

    /// The counter of the phase is within the limits.
    pub open spec fn within(self, limits: Limits) -> bool {
        match self {
            Phase::Bracketing { k } => 1 <= k <= limits.probes,
            Phase::Measuring { done } => done <= limits.steps,
            Phase::Stepping { done } => done < limits.steps,
            _ => true,
        }
    }

    /// The phase that follows this one on an answer.
    pub open spec fn after(self, limits: Limits, answer: bool) -> Phase {
        match self {
            Phase::Start => {
                if answer {
                    Phase::Measuring { done: 0 }
                } else if limits.probes == 0 {
                    Phase::Failed { failure: Failure::BracketNotFound }
                } else {
                    Phase::Bracketing { k: 1 }
                }
            },
            Phase::Bracketing { k } => {
                if !answer {
                    Phase::Measuring { done: 0 }
                } else if k >= limits.probes {
                    Phase::Failed { failure: Failure::BracketNotFound }
                } else {
                    Phase::Bracketing { k: (k + 1) as u32 }
                }
            },
            Phase::Measuring { done } => {
                if !answer {
                    Phase::Solved
                } else if done >= limits.steps {
                    Phase::Failed { failure: Failure::NotConverged }
                } else {
                    Phase::Stepping { done }
                }
            },
            Phase::Stepping { done } => Phase::Measuring { done: (done + 1) as u32 },
            Phase::Solved => Phase::Solved,
            Phase::Failed { failure } => Phase::Failed { failure },
        }
    }

    /// What the caller is told to do when this phase gets an answer.
    pub open spec fn reply(self, limits: Limits, answer: bool) -> Move {
        match self {
            Phase::Start => {
                if answer {
                    Move::BracketByExcess
                } else if limits.probes == 0 {
                    Move::Abandon { failure: Failure::BracketNotFound }
                } else {
                    Move::Probe { k: 1 }
                }
            },
            Phase::Bracketing { k } => {
                if !answer {
                    Move::BracketByProbe { k }
                } else if k >= limits.probes {
                    Move::Abandon { failure: Failure::BracketNotFound }
                } else {
                    Move::Probe { k: (k + 1) as u32 }
                }
            },
            Phase::Measuring { done } => {
                if !answer {
                    Move::Finish
                } else if done >= limits.steps {
                    Move::Abandon { failure: Failure::NotConverged }
                } else {
                    Move::Secant
                }
            },
            Phase::Stepping { done } => {
                if answer {
                    Move::Replace
                } else {
                    Move::Halve
                }
            },
            Phase::Solved => Move::Finish,
            Phase::Failed { failure } => Move::Abandon { failure },
        }
    }

    /// An upper bound on the number of answers that this phase can still
    /// take before the search is finished.
    pub open spec fn remaining(self, limits: Limits) -> nat {
        match self {
            Phase::Start => (limits.probes + 2 * limits.steps + 2) as nat,
            Phase::Bracketing { k } => (limits.probes - k + 2 * limits.steps + 2) as nat,
            Phase::Measuring { done } => (2 * (limits.steps - done) + 1) as nat,
            Phase::Stepping { done } => (2 * (limits.steps - done)) as nat,
            Phase::Solved => 0,
            Phase::Failed { .. } => 0,
        }
    }

    /// The phase reached from this one by a sequence of answers.
    pub open spec fn after_all(self, limits: Limits, answers: Seq<bool>) -> Phase
        decreases answers.len(),
    {
        if answers.len() == 0 {
            self
        } else {
            self.after(limits, answers[0]).after_all(limits, answers.skip(1))
        }
    }
}

/// An answer to an unfinished phase keeps its counter within the limits and
/// uses up at least one of the answers that remain.
pub proof fn lemma_answer_is_counted(phase: Phase, limits: Limits, answer: bool)
    requires
        phase.within(limits),
        !phase.finished(),
    ensures
        phase.after(limits, answer).within(limits),
        phase.after(limits, answer).remaining(limits) < phase.remaining(limits),
{
}

/// No probe is ordered beyond the limit on probes, and a secant step is
/// ordered only while fewer steps than the limit have been taken.
pub proof fn lemma_moves_within_limits(phase: Phase, limits: Limits, answer: bool)
    requires
        phase.within(limits),
    ensures
        phase.reply(limits, answer) matches Move::Probe { k } ==> 1 <= k <= limits.probes,
        phase.reply(limits, answer) matches Move::BracketByProbe { k } ==> 1 <= k <= limits.probes,
        phase.reply(limits, answer) is Secant ==> (phase matches Phase::Measuring { done }
            && done < limits.steps),
{
}

/// A finished search is not moved by further answers.
pub proof fn lemma_finished_stays(phase: Phase, limits: Limits, answers: Seq<bool>)
    requires
        phase.finished(),
    ensures
        phase.after_all(limits, answers) == phase,
    decreases answers.len(),
{
    if answers.len() > 0 {
        lemma_finished_stays(phase, limits, answers.skip(1));
    }
}

/// Bounded termination: whatever the answers are, a search is finished once
/// it has taken as many of them as its phase had remaining. From the start
/// that is `probes + 2 * steps + 2` answers.
pub proof fn lemma_search_ends(phase: Phase, limits: Limits, answers: Seq<bool>)
    requires
        phase.within(limits),
        answers.len() >= phase.remaining(limits),
    ensures
        phase.after_all(limits, answers).finished(),
    decreases answers.len(),
{
    if phase.finished() {
        lemma_finished_stays(phase, limits, answers);
    } else {
        lemma_answer_is_counted(phase, limits, answers[0]);
        lemma_search_ends(phase.after(limits, answers[0]), limits, answers.skip(1));
    }
}

/// A search fails for want of a bracket exactly when the first answer is no
/// and the probes `1..=probes` are all negative.
pub proof fn lemma_bracket_failure(limits: Limits, answers: Seq<bool>)
    requires
        answers.len() == limits.probes + 1,
    ensures
        Phase::Start.after_all(limits, answers) == (Phase::Failed {
            failure: Failure::BracketNotFound,
        }) <==> (!answers[0] && forall|i: int| 1 <= i < answers.len() ==> answers[i]),
{
    let first = Phase::Start.after(limits, answers[0]);
    let rest = answers.skip(1);
    if answers[0] {
        lemma_no_bracket_failure_later(first, limits, rest);
    } else if limits.probes == 0 {
        lemma_finished_stays(first, limits, rest);
    } else {
        lemma_probing(1, limits, rest);
        assert forall|i: int| 1 <= i < answers.len() implies answers[i] == rest[i - 1] by {}
        if forall|i: int| 0 <= i < rest.len() ==> rest[i] {
            assert forall|i: int| 1 <= i < answers.len() implies answers[i] by {
                assert(rest[i - 1]);
            }
        } else {
            let j = choose|j: int| 0 <= j < rest.len() && !rest[j];
            assert(!answers[j + 1]);
        }
    }
}

/// With a bracket, a search fails to converge exactly when the ends of the
/// bracket are found too far apart at the start and after each of the
/// `steps` secant steps that it may take, whatever the steps did. The
/// measurements are the answers in the even places.
pub proof fn lemma_convergence_failure(limits: Limits, answers: Seq<bool>)
    requires
        answers.len() == 2 * limits.steps + 1,
    ensures
        (Phase::Measuring { done: 0 }).after_all(limits, answers) == (Phase::Failed {
            failure: Failure::NotConverged,
        }) <==> (forall|n: int| 0 <= n < answers.len() && n % 2 == 0 ==> answers[n]),
{
    lemma_measuring(0, limits, answers);
}

/// After `done` secant steps, with exactly as many answers as the steps that
/// are left can take, the search fails to converge if and only if every
/// measurement says that the ends are too far apart.
proof fn lemma_measuring(done: u32, limits: Limits, answers: Seq<bool>)
    requires
        done <= limits.steps,
        answers.len() == 2 * (limits.steps - done) + 1,
    ensures
        (Phase::Measuring { done }).after_all(limits, answers) == (Phase::Failed {
            failure: Failure::NotConverged,
        }) <==> (forall|n: int| 0 <= n < answers.len() && n % 2 == 0 ==> answers[n]),
    decreases answers.len(),
{
    let phase = Phase::Measuring { done };
    let next = phase.after(limits, answers[0]);
    let rest = answers.skip(1);
    if !answers[0] {
        lemma_finished_stays(next, limits, rest);
    } else if done >= limits.steps {
        lemma_finished_stays(next, limits, rest);
    } else {
        let later = rest.skip(1);
        assert(next.after_all(limits, rest) == (Phase::Measuring {
            done: (done + 1) as u32,
        }).after_all(limits, later));
        lemma_measuring((done + 1) as u32, limits, later);
        if forall|n: int| 0 <= n < later.len() && n % 2 == 0 ==> later[n] {
            assert forall|n: int| 0 <= n < answers.len() && n % 2 == 0 implies answers[n] by {
                if n > 0 {
                    assert(later[n - 2]);
                }
            }
        } else {
            let n = choose|n: int| 0 <= n < later.len() && n % 2 == 0 && !later[n];
            assert(!answers[n + 2]);
        }
    }
}

/// From the probe `k`, with exactly as many answers as probes are left, the
/// search fails for want of a bracket if and only if all of them are yes.
proof fn lemma_probing(k: u32, limits: Limits, answers: Seq<bool>)
    requires
        1 <= k <= limits.probes,
        answers.len() == limits.probes - k + 1,
    ensures
        (Phase::Bracketing { k }).after_all(limits, answers) == (Phase::Failed {
            failure: Failure::BracketNotFound,
        }) <==> (forall|i: int| 0 <= i < answers.len() ==> answers[i]),
    decreases answers.len(),
{
    let phase = Phase::Bracketing { k };
    let next = phase.after(limits, answers[0]);
    let rest = answers.skip(1);
    if !answers[0] {
        lemma_no_bracket_failure_later(next, limits, rest);
    } else if k >= limits.probes {
        lemma_finished_stays(next, limits, rest);
        assert forall|i: int| 0 <= i < answers.len() implies answers[i] by {}
    } else {
        lemma_probing((k + 1) as u32, limits, rest);
        if forall|i: int| 0 <= i < rest.len() ==> rest[i] {
            assert forall|i: int| 0 <= i < answers.len() implies answers[i] by {
                if i > 0 {
                    assert(rest[i - 1]);
                }
            }
        } else {
            let j = choose|j: int| 0 <= j < rest.len() && !rest[j];
            assert(!answers[j + 1]);
        }
    }
}

/// Once a bracket is there, the search cannot fail for want of one.
proof fn lemma_no_bracket_failure_later(phase: Phase, limits: Limits, answers: Seq<bool>)
    requires
        phase is Measuring || phase is Stepping || phase is Solved || phase == (Phase::Failed {
            failure: Failure::NotConverged,
        }),
    ensures
        phase.after_all(limits, answers) != (Phase::Failed { failure: Failure::BracketNotFound }),
    decreases answers.len(),
{
    if answers.len() > 0 {
        lemma_no_bracket_failure_later(phase.after(limits, answers[0]), limits, answers.skip(1));
    }
}

/// One search for a new volatility.
pub struct Search {
    limits: Limits,
    phase: Phase,
}

impl Search {
    #[verifier::type_invariant]
    spec fn counted(self) -> bool {
        self.phase.within(self.limits)
    }

    /// The limits that the search was started with.
    pub closed spec fn limits(self) -> Limits {
        self.limits
    }

    /// The phase that the search is in.
    pub closed spec fn phase(self) -> Phase {
        self.phase
    }

    /// Start a search. Its first question is whether the squared rating
    /// shift exceeds the squared deviation plus the variance.
    pub fn new(limits: Limits) -> (search: Search)
        ensures
            search.limits() == limits,
            search.phase() == Phase::Start,
    {
        Search { limits, phase: Phase::Start }
    }

    /// The phase that the search is in.
    pub fn current(&self) -> (phase: Phase)
        ensures
            phase == self.phase(),
            phase.within(self.limits()),
    {
        proof {
            use_type_invariant(self);
        }
        self.phase
    }

    /// Whether the search has ended, with a root or with a failure.
    pub fn is_finished(&self) -> (finished: bool)
        ensures
            finished == self.phase().finished(),
    {
        match self.phase {
            Phase::Solved => true,
            Phase::Failed { .. } => true,
            _ => false,
        }
    }

    /// The greatest number of answers that any search with these limits
    /// takes before it is finished.
    pub fn budget(limits: Limits) -> (answers: u64)
        ensures
            answers == Phase::Start.remaining(limits),
    {
        let probes: u64 = limits.probes as u64;
        let steps: u64 = limits.steps as u64;
        probes + 2 * steps + 2
    }

    /// Take the answer to the question of the current phase, move to the
    /// next phase, and say what the caller does before the next answer.
    ///
    /// A finished search stays as it is and repeats its last word.
    pub fn advance(&mut self, answer: bool) -> (reply: Move)
        ensures
            final(self).limits() == old(self).limits(),
            final(self).phase() == old(self).phase().after(old(self).limits(), answer),
            reply == old(self).phase().reply(old(self).limits(), answer),
    {
        proof {
            use_type_invariant(&*self);
        }
        let limits = self.limits;
        let (phase, reply) = match self.phase {
            Phase::Start => {
                if answer {
                    (Phase::Measuring { done: 0 }, Move::BracketByExcess)
                } else if limits.probes == 0 {
                    (
                        Phase::Failed { failure: Failure::BracketNotFound },
                        Move::Abandon { failure: Failure::BracketNotFound },
                    )
                } else {
                    (Phase::Bracketing { k: 1 }, Move::Probe { k: 1 })
                }
            },
            Phase::Bracketing { k } => {
                if !answer {
                    (Phase::Measuring { done: 0 }, Move::BracketByProbe { k })
                } else if k >= limits.probes {
                    (
                        Phase::Failed { failure: Failure::BracketNotFound },
                        Move::Abandon { failure: Failure::BracketNotFound },
                    )
                } else {
                    (Phase::Bracketing { k: k + 1 }, Move::Probe { k: k + 1 })
                }
            },
            Phase::Measuring { done } => {
                if !answer {
                    (Phase::Solved, Move::Finish)
                } else if done >= limits.steps {
                    (
                        Phase::Failed { failure: Failure::NotConverged },
                        Move::Abandon { failure: Failure::NotConverged },
                    )
                } else {
                    (Phase::Stepping { done }, Move::Secant)
                }
            },
            Phase::Stepping { done } => {
                let reply = if answer {
                    Move::Replace
                } else {
                    Move::Halve
                };
                (Phase::Measuring { done: done + 1 }, reply)
            },
            Phase::Solved => (Phase::Solved, Move::Finish),
            Phase::Failed { failure } => (Phase::Failed { failure }, Move::Abandon { failure }),
        };
        self.phase = phase;
        reply
    }
}

} // verus!
