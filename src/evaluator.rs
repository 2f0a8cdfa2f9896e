use vstd::prelude::*;
use crate::color::DivergenceResult;

verus! {

/// The predicate that decides that an orbit has diverged.
#[derive(Clone, Copy, Debug, PartialEq, Eq, Structural)]
pub enum BailoutPolicy {
    /// `|z| >= 2`.
    MagnitudeThreshold,
    /// `z` is no longer a finite number.
    OverflowCheck,
}

/// Iteration budget and bailout predicate of one compute pass.
#[derive(Clone, Copy, Debug, PartialEq, Eq, Structural)]
pub struct EvaluatorConfig {
    pub max_iterations: u32,
    pub bailout: BailoutPolicy,
}

/// The result decided by an orbit whose bailout predicate, after iteration `i`
/// (counted from 0), was `trace[i]`; `None` while `trace` decides nothing yet.
pub open spec fn escape_outcome(trace: Seq<bool>, max: nat) -> Option<DivergenceResult>
    decreases trace.len(),
{
    if trace.len() == 0 {
        if max == 0 {
            Some(DivergenceResult::Bounded)
        } else {
            None
        }
    } else {
        let prev = escape_outcome(trace.drop_last(), max);
        if prev is Some {
            prev
        } else if trace.last() {
            Some(DivergenceResult::Diverged((trace.len() - 1) as u32))
        } else if trace.len() >= max {
            Some(DivergenceResult::Bounded)
        } else {
            None
        }
    }
}

/// What a decided outcome means: `Diverged(n)` names the first iteration at which the
/// predicate held, with `n < max`; `Bounded` means it held at none of the first `max`;
/// an undecided trace is shorter than `max` and never bailed out.
pub proof fn lemma_escape_outcome_meaning(trace: Seq<bool>, max: nat)
    requires
        max <= u32::MAX,
    ensures
        (escape_outcome(trace, max) matches Some(DivergenceResult::Diverged(n)) ==> {
            &&& n < max
            &&& n < trace.len()
            &&& trace[n as int]
            &&& forall|j: int| 0 <= j < n ==> !trace[j]
        }),
        (escape_outcome(trace, max) matches Some(DivergenceResult::Bounded) ==> {
            &&& trace.len() >= max
            &&& forall|j: int| 0 <= j < max ==> !trace[j]
        }),
        escape_outcome(trace, max) is None ==> {
            &&& trace.len() < max
            &&& forall|j: int| 0 <= j < trace.len() ==> !trace[j]
        },
    decreases trace.len(),
{
    if trace.len() > 0 {
        let prev = trace.drop_last();
        lemma_escape_outcome_meaning(prev, max);
        assert forall|j: int| 0 <= j < prev.len() implies prev[j] == trace[j] by {}
    }
}

/// Follows one orbit iteration by iteration and decides its divergence result.
///
/// The caller computes `z <- z^2 + c`, tells the tracker whether the bailout predicate
/// holds, and stops as soon as `outcome` is decided.
pub struct EscapeTracker {
    max_iterations: u32,
    steps: u32,
    decided: Option<DivergenceResult>,
    trace: Ghost<Seq<bool>>,
}

impl EscapeTracker {
    /// The bailout predicate after each iteration observed so far.
    pub closed spec fn trace(&self) -> Seq<bool> {
        self.trace@
    }

    pub closed spec fn max_iterations_spec(&self) -> nat {
        self.max_iterations as nat
    }

    pub closed spec fn wf(&self) -> bool {
        &&& self.steps == self.trace@.len()
        &&& self.decided == escape_outcome(self.trace@, self.max_iterations as nat)
        &&& self.decided is None ==> self.steps < self.max_iterations
    }

    /// A tracker for an orbit that may run `max_iterations` iterations.
    pub fn new(max_iterations: u32) -> (t: EscapeTracker)
        ensures
            t.wf(),
            t.trace() == Seq::<bool>::empty(),
            t.max_iterations_spec() == max_iterations,
    {
        let decided = if max_iterations == 0 {
            Some(DivergenceResult::Bounded)
        } else {
            None
        };
        EscapeTracker { max_iterations, steps: 0, decided, trace: Ghost(Seq::empty()) }
    }

    /// The result, once the iterations observed so far decide it.
    pub fn outcome(&self) -> (r: Option<DivergenceResult>)
        requires
            self.wf(),
        ensures
            r == escape_outcome(self.trace(), self.max_iterations_spec()),
    {
        self.decided
    }

    /// Records whether the bailout predicate holds after the next iteration.
    pub fn observe(&mut self, bailed_out: bool)
        requires
            old(self).wf(),
            escape_outcome(old(self).trace(), old(self).max_iterations_spec()) is None,
        ensures
            final(self).wf(),
            final(self).max_iterations_spec() == old(self).max_iterations_spec(),
            final(self).trace() == old(self).trace().push(bailed_out),
            escape_outcome(final(self).trace(), final(self).max_iterations_spec()) == if bailed_out {
                Some(DivergenceResult::Diverged(old(self).trace().len() as u32))
            } else if old(self).trace().len() + 1 >= old(self).max_iterations_spec() {
                Some(DivergenceResult::Bounded)
            } else {
                None
            },
    {
        let ghost prev = self.trace@;
        let step = self.steps;
        self.trace = Ghost(prev.push(bailed_out));
        assert(self.trace@.drop_last() == prev);
        self.steps = step + 1;
        if bailed_out {
            self.decided = Some(DivergenceResult::Diverged(step));
        } else if self.steps >= self.max_iterations {
            self.decided = Some(DivergenceResult::Bounded);
        }
    }
}

} // verus!
