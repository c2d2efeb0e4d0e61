//! Whom to ask for a data object, and when to give up.
//!
//! The candidates are asked in their order. A candidate that does not have
//! the object, or answers with anything but data, is not asked again. After a
//! lost connection the same candidate is asked again, a limited number of
//! times and after a delay that doubles each time. When no candidate is left
//! the object is unavailable.

use crate::common::{TaskId, WorkerId};
use crate::transfer::fetch::FetchError;
use vstd::prelude::*;

verus! {

/// `delay` doubled `times` times, up to the largest 64-bit number.
pub open spec fn doubled(delay: u64, times: nat) -> u64
    decreases times,
{
    if times == 0 {
        delay
    } else if doubled(delay, (times - 1) as nat) > u64::MAX / 2 {
        u64::MAX
    } else {
        (2 * doubled(delay, (times - 1) as nat)) as u64
    }
}

/// The delay before the attempt that follows `attempts` lost connections:
/// none before the first attempt, then the base delay, doubled with each
/// further loss.
pub open spec fn backoff(base_delay: u64, attempts: u32) -> u64 {
    if attempts == 0 {
        0
    } else {
        doubled(base_delay, (attempts - 1) as nat)
    }
}

/// What the fetcher does next.
#[derive(Clone, Copy, Debug, PartialEq, Eq, Structural)]
pub enum FetchStep {
    /// Wait for `delay`, then fetch from `worker`.
    Connect { worker: WorkerId, delay: u64 },
    /// Report the data object as unavailable.
    GiveUp,
}

/// The plan of one download: the candidates and how far the fetcher has got
/// with them.
pub struct FetchPlan {
    id: TaskId,
    candidates: Vec<WorkerId>,
    position: usize,
    attempts: u32,
    max_retries: u32,
    base_delay: u64,
}

/// What a plan stands for.
pub struct FetchPlanView {
    /// The data object to fetch.
    pub id: TaskId,
    /// The workers that may hold it.
    pub candidates: Seq<WorkerId>,
    /// How many candidates are done with.
    pub position: nat,
    /// How often the connection to the current candidate was lost.
    pub attempts: u32,
    /// How often a candidate is asked again after a lost connection.
    pub max_retries: u32,
    /// The delay before the first retry.
    pub base_delay: u64,
}

impl FetchPlanView {
    /// The step to take now.
    pub open spec fn step(self) -> FetchStep {
        if self.position < self.candidates.len() {
            FetchStep::Connect {
                worker: self.candidates[self.position as int],
                delay: backoff(self.base_delay, self.attempts),
            }
        } else {
            FetchStep::GiveUp
        }
    }

    /// The failure leads to another attempt with the same candidate.
    pub open spec fn retries(self, error: FetchError) -> bool {
        error == FetchError::ConnectionClosed && self.attempts < self.max_retries
    }

    /// The plan after the attempt has failed with `error`.
    pub open spec fn failed(self, error: FetchError) -> FetchPlanView {
        if self.position >= self.candidates.len() {
            self
        } else if self.retries(error) {
            FetchPlanView { attempts: (self.attempts + 1) as u32, ..self }
        } else {
            FetchPlanView { position: self.position + 1, attempts: 0, ..self }
        }
    }

    /// How many attempts the plan allows at most from now on.
    pub open spec fn attempts_left(self) -> int {
        (self.candidates.len() - self.position) * (self.max_retries + 1) - self.attempts
    }

    /// The plan is not past its last candidate nor past the last retry.
    pub open spec fn wf(self) -> bool {
        &&& self.position <= self.candidates.len()
        &&& self.attempts <= self.max_retries
    }

    /// Every failure uses up one of the attempts that are left, so a fetch
    /// that keeps failing is given up.
    pub proof fn lemma_failure_uses_an_attempt(self, error: FetchError)
        requires
            self.wf(),
            self.position < self.candidates.len(),
        ensures
            self.failed(error).wf(),
            0 <= self.failed(error).attempts_left() < self.attempts_left(),
            self.failed(error).attempts_left() == 0 <==> self.failed(error).step() == FetchStep::GiveUp,
    {
        let left = self.candidates.len() - self.position;
        let per_candidate = self.max_retries + 1;
        assert((left - 1) * per_candidate == left * per_candidate - per_candidate) by (nonlinear_arith);
        assert(left * per_candidate >= per_candidate) by (nonlinear_arith)
            requires
                left >= 1,
                per_candidate >= 1,
        ;
        if !self.retries(error) {
            let after = left - 1;
            assert(after * per_candidate >= 0) by (nonlinear_arith)
                requires
                    after >= 0,
                    per_candidate >= 1,
            ;
            if after > 0 {
                assert(after * per_candidate >= per_candidate) by (nonlinear_arith)
                    requires
                        after >= 1,
                        per_candidate >= 1,
                ;
            } else {
                assert(after * per_candidate == 0) by (nonlinear_arith)
                    requires
                        after == 0,
                ;
            }
        }
    }
}

impl View for FetchPlan {
    type V = FetchPlanView;

    closed spec fn view(&self) -> FetchPlanView {
        FetchPlanView {
            id: self.id,
            candidates: self.candidates@,
            position: self.position as nat,
            attempts: self.attempts,
            max_retries: self.max_retries,
            base_delay: self.base_delay,
        }
    }
}

/// Doubles `delay` `times` times, up to the largest 64-bit number.
fn double(delay: u64, times: u32) -> (result: u64)
    ensures
        result == doubled(delay, times as nat),
{
    let mut result = delay;
    let mut i: u32 = 0;
    while i < times
        invariant
            i <= times,
            result == doubled(delay, i as nat),
        decreases times - i,
    {
        if result > u64::MAX / 2 {
            result = u64::MAX;
        } else {
            result = 2 * result;
        }
        i += 1;
    }
    result
}

impl FetchPlan {
    /// The plan to fetch the data object `id` from `candidates`. After a
    /// lost connection a candidate is asked again up to `max_retries` times,
    /// the first time after `base_delay`.
    pub fn new(id: TaskId, candidates: Vec<WorkerId>, max_retries: u32, base_delay: u64) -> (plan:
        FetchPlan)
        ensures
            plan@.wf(),
            plan@ == (FetchPlanView {
                id,
                candidates: candidates@,
                position: 0,
                attempts: 0,
                max_retries,
                base_delay,
            }),
    {
        FetchPlan { id, candidates, position: 0, attempts: 0, max_retries, base_delay }
    }

    /// The data object to fetch.
    pub fn id(&self) -> (id: TaskId)
        ensures
            id == self@.id,
    {
        self.id
    }

    /// The step to take now: fetch from the current candidate, after the
    /// delay that its lost connections ask for, or give up if no candidate
    /// is left.
    pub fn step(&self) -> (step: FetchStep)
        requires
            self@.wf(),
        ensures
            step == self@.step(),
    {
        if self.position < self.candidates.len() {
            let delay = if self.attempts == 0 {
                0
            } else {
                double(self.base_delay, self.attempts - 1)
            };
            FetchStep::Connect { worker: self.candidates[self.position], delay }
        } else {
            FetchStep::GiveUp
        }
    }

    /// Takes in that the attempt has failed with `error` and returns the
    /// step that follows. After a lost connection the same candidate is
    /// asked again while retries are left; after any other failure, and
    /// when the retries are used up, the next candidate is asked.
    pub fn failed(&mut self, error: FetchError) -> (step: FetchStep)
        requires
            old(self)@.wf(),
        ensures
            final(self)@.wf(),
            final(self)@ == old(self)@.failed(error),
            step == final(self)@.step(),
    {
        if self.position < self.candidates.len() {
            let lost = match error {
                FetchError::ConnectionClosed => true,
                _ => false,
            };
            if lost && self.attempts < self.max_retries {
                self.attempts = self.attempts + 1;
            } else {
                self.position = self.position + 1;
                self.attempts = 0;
            }
        }
        self.step()
    }
}

} // verus!
