//! Fixed-timestep scheduler.
//!
//! Wall-clock deltas are accumulated into a residual; whenever the residual
//! reaches the configured step duration, one simulation step is owed. All due
//! steps are drained before a tick returns (catch-up, never frame-skip), so no
//! accumulated time is ever discarded. Durations are in arbitrary fixed time
//! units (for example milliseconds); the scheduler never interprets them.

use vstd::prelude::*;

use crate::prob::ProbabilityModel;
use crate::sim::Simulation;
use crate::sim::SimulationMode;
use crate::sim::step_chain_ok;
use crate::sim::step_rel;

verus! {

/// Error raised when the scheduler is configured with an unusable step
/// duration.
#[derive(Debug, Clone, Copy, PartialEq, Eq, Structural)]
pub enum TimestepError {
    /// A step duration of zero would make the catch-up loop non-terminating.
    ZeroStep,
    /// Doubling the step duration would overflow its representation.
    StepTooLarge,
}

/// Fixed-timestep state: the configured step duration, the accumulated
/// residual time not yet consumed by whole steps, and the number of steps
/// executed so far.
pub struct FixedTimestep {
    step: u64,
    residual: u64,
    step_count: u64,
}

impl FixedTimestep {
    /// A well-formed scheduler has a positive step duration, which keeps the
    /// catch-up loop terminating.
    pub closed spec fn wf(&self) -> bool {
        self.step >= 1
    }

    pub closed spec fn spec_step(&self) -> u64 {
        self.step
    }

    pub closed spec fn spec_residual(&self) -> u64 {
        self.residual
    }

    pub closed spec fn spec_step_count(&self) -> u64 {
        self.step_count
    }

    /// Creates a scheduler with the given step duration; a zero duration is
    /// rejected at configuration time rather than looping forever later.
    pub fn new(step: u64) -> (r: Result<FixedTimestep, TimestepError>)
        ensures
            step == 0 ==> r == Result::<FixedTimestep, TimestepError>::Err(TimestepError::ZeroStep),
            step >= 1 ==> (r matches Ok(s) && s.wf() && s.spec_step() == step
                && s.spec_residual() == 0 && s.spec_step_count() == 0),
    {
        if step == 0 {
            Err(TimestepError::ZeroStep)
        } else {
            Ok(FixedTimestep { step, residual: 0, step_count: 0 })
        }
    }

    /// Current step duration (read-only observability).
    pub fn step(&self) -> (r: u64)
        ensures
            r == self.spec_step(),
    {
        self.step
    }

    /// Accumulated residual time (read-only observability).
    pub fn residual(&self) -> (r: u64)
        ensures
            r == self.spec_residual(),
    {
        self.residual
    }

    /// Number of steps executed so far (read-only observability).
    pub fn step_count(&self) -> (r: u64)
        ensures
            r == self.spec_step_count(),
    {
        self.step_count
    }

    /// Reconfigures the step duration. The change takes effect at the next
    /// residual check; the existing residual is deliberately not rescaled, so
    /// a pending backlog still stands for the same elapsed simulated time.
    pub fn set_step(&mut self, step: u64) -> (r: Result<(), TimestepError>)
        requires
            old(self).wf(),
        ensures
            final(self).wf(),
            final(self).spec_residual() == old(self).spec_residual(),
            final(self).spec_step_count() == old(self).spec_step_count(),
            step == 0 ==> r == Result::<(), TimestepError>::Err(TimestepError::ZeroStep)
                && final(self).spec_step() == old(self).spec_step(),
            step >= 1 ==> r == Result::<(), TimestepError>::Ok(())
                && final(self).spec_step() == step,
    {
        if step == 0 {
            Err(TimestepError::ZeroStep)
        } else {
            self.step = step;
            Ok(())
        }
    }

    /// Halves the step duration (a "run faster" control command); rejected if
    /// it would reach zero.
    pub fn halve_step(&mut self) -> (r: Result<(), TimestepError>)
        requires
            old(self).wf(),
        ensures
            final(self).wf(),
            final(self).spec_residual() == old(self).spec_residual(),
            final(self).spec_step_count() == old(self).spec_step_count(),
            old(self).spec_step() == 1 ==> r == Result::<(), TimestepError>::Err(TimestepError::ZeroStep)
                && final(self).spec_step() == old(self).spec_step(),
            old(self).spec_step() >= 2 ==> r == Result::<(), TimestepError>::Ok(())
                && final(self).spec_step() == old(self).spec_step() / 2,
    {
        let half = self.step / 2;
        self.set_step(half)
    }

    /// Doubles the step duration (a "run slower" control command); rejected on
    /// overflow.
    pub fn double_step(&mut self) -> (r: Result<(), TimestepError>)
        requires
            old(self).wf(),
        ensures
            final(self).wf(),
            final(self).spec_residual() == old(self).spec_residual(),
            final(self).spec_step_count() == old(self).spec_step_count(),
            old(self).spec_step() * 2 > u64::MAX ==> r
                == Result::<(), TimestepError>::Err(TimestepError::StepTooLarge)
                && final(self).spec_step() == old(self).spec_step(),
            old(self).spec_step() * 2 <= u64::MAX ==> r == Result::<(), TimestepError>::Ok(())
                && final(self).spec_step() == old(self).spec_step() * 2,
    {
        if self.step > u64::MAX / 2 {
            Err(TimestepError::StepTooLarge)
        } else {
            self.step = self.step * 2;
            Ok(())
        }
    }

    /// One frame: accumulates `delta` into the residual, then, while the
    /// residual covers a whole step, subtracts one step duration and runs one
    /// full simulation step — catch-up, never frame-skip; no accumulated time
    /// is ever discarded, and every due step executes before `tick` returns.
    /// The steps executed and the residual left are exactly the Euclidean
    /// quotient and remainder of the accumulated time by the step duration.
    pub fn tick<M: ProbabilityModel>(
        &mut self,
        delta: u64,
        sim: &mut Simulation,
        mode: SimulationMode,
        model: &M,
    ) -> (steps: u64)
        requires
            old(self).wf(),
            old(sim).wf(),
            old(self).spec_residual() + delta <= u64::MAX,
            old(self).spec_step_count() + (old(self).spec_residual() + delta) / (old(
                self,
            ).spec_step() as int) <= u64::MAX,
        ensures
            final(self).wf(),
            final(sim).wf(),
            final(self).spec_step() == old(self).spec_step(),
            steps == (old(self).spec_residual() + delta) / (old(self).spec_step() as int),
            final(self).spec_residual() == (old(self).spec_residual() + delta) % (old(
                self,
            ).spec_step() as int),
            final(self).spec_step_count() == old(self).spec_step_count() + steps,
            final(sim).board.adj@ == old(sim).board.adj@,
            final(sim).board.cells@.len() == old(sim).board.cells@.len(),
            final(sim).items@.len() == old(sim).items@.len(),
            final(sim).metric == old(sim).metric,
            final(sim).agents@.len() == old(sim).agents@.len(),
            mode is Paused ==> *final(sim) == *old(sim),
            mode is Ending ==> forall|a: int|
                0 <= a < final(sim).agents@.len() && old(sim).agents@[a].carried is None ==> (
                #[trigger] final(sim).agents@[a]).carried is None,
            mode is Ending ==> forall|c: int|
                0 <= c < final(sim).board.cells@.len() && (#[trigger] old(
                sim).board.cells@[c]).item is Some ==> final(sim).board.cells@[c].item is Some,
            exists|chain: Seq<Simulation>|
                #[trigger] step_chain_ok(*model, chain, *old(sim), *final(sim), steps as int, mode),
    {
        let ghost r0 = old(self).spec_residual() + delta;
        let ghost mut chain: Seq<Simulation> = seq![*old(sim)];
        self.residual = self.residual + delta;
        let mut steps: u64 = 0;
        proof {
            assert(steps * self.step == 0) by (nonlinear_arith)
                requires
                    steps == 0,
            ;
        }
        while self.residual >= self.step
            invariant
                self.wf(),
                sim.wf(),
                self.step == old(self).spec_step(),
                steps * self.step + self.residual == r0,
                steps <= r0 / (self.step as int),
                self.step_count == old(self).spec_step_count() + steps,
                old(self).spec_step_count() + r0 / (self.step as int) <= u64::MAX,
                sim.board.adj@ == old(sim).board.adj@,
                sim.board.cells@.len() == old(sim).board.cells@.len(),
                sim.items@.len() == old(sim).items@.len(),
                sim.metric == old(sim).metric,
                sim.agents@.len() == old(sim).agents@.len(),
                mode is Paused ==> *sim == *old(sim),
                mode is Ending ==> forall|a: int|
                    0 <= a < sim.agents@.len() && old(sim).agents@[a].carried is None ==> (
                    #[trigger] sim.agents@[a]).carried is None,
                mode is Ending ==> forall|c: int|
                    0 <= c < sim.board.cells@.len() && (#[trigger] old(
                    sim).board.cells@[c]).item is Some ==> sim.board.cells@[c].item is Some,
                chain.len() == steps + 1,
                chain[0] == *old(sim),
                chain[steps as int] == *sim,
                forall|j: int|
                    0 <= j < steps ==> #[trigger] step_rel(*model, chain[j], chain[j + 1], mode),
            decreases self.residual,
        {
            proof {
                assert((steps + 1) * self.step == steps * self.step + self.step)
                    by (nonlinear_arith);
                assert((steps + 1) * self.step <= r0);
                vstd::arithmetic::div_mod::lemma_div_is_ordered(
                    (steps + 1) * (self.step as int),
                    r0,
                    self.step as int,
                );
                vstd::arithmetic::div_mod::lemma_div_multiples_vanish(
                    steps + 1,
                    self.step as int,
                );
                assert((self.step as int) * (steps + 1) == (steps + 1) * (self.step as int))
                    by (nonlinear_arith);
                assert(steps + 1 <= r0 / (self.step as int));
            }
            self.residual = self.residual - self.step;
            let ghost before = *sim;
            sim.step_once(mode, model);
            proof {
                chain = chain.push(*sim);
                assert(chain[steps as int] == before);
                assert(chain[steps as int + 1] == *sim);
                assert(step_rel(*model, before, *sim, mode));
            }
            steps = steps + 1;
            self.step_count = self.step_count + 1;
        }
        proof {
            assert(step_chain_ok(*model, chain, *old(sim), *sim, steps as int, mode));
        }
        proof {
            vstd::arithmetic::div_mod::lemma_fundamental_div_mod_converse(
                r0,
                self.step as int,
                steps as int,
                self.residual as int,
            );
        }
        steps
    }
}

/// Sum of a sequence of frame deltas.
pub open spec fn spec_sum(deltas: Seq<int>) -> int
    decreases deltas.len(),
{
    if deltas.len() == 0 {
        0
    } else {
        deltas[0] + spec_sum(deltas.skip(1))
    }
}

/// Total steps drained by ticking each delta in turn, starting from residual
/// `r`: each tick executes the whole quotient and leaves the remainder.
pub open spec fn spec_drained(r: int, deltas: Seq<int>, step: int) -> int
    decreases deltas.len(),
{
    if deltas.len() == 0 {
        0
    } else {
        (r + deltas[0]) / step + spec_drained((r + deltas[0]) % step, deltas.skip(1), step)
    }
}

/// A sum of nonnegative deltas is nonnegative.
proof fn lemma_sum_nonneg(deltas: Seq<int>)
    requires
        forall|k: int| 0 <= k < deltas.len() ==> deltas[k] >= 0,
    ensures
        spec_sum(deltas) >= 0,
    decreases deltas.len(),
{
    if deltas.len() > 0 {
        lemma_sum_nonneg(deltas.skip(1));
    }
}

/// Law (two frames): accumulation is associative with draining — ticking
/// `d1` then `d2` executes as many steps, and leaves the same residual, as
/// ticking `d1 + d2` at once. This is exactly the shape of `tick`'s
/// postcondition, so it transfers to real executions.
pub proof fn lemma_tick_chunking(r: int, d1: int, d2: int, step: int)
    requires
        step >= 1,
        0 <= r,
        0 <= d1,
        0 <= d2,
    ensures
        0 <= (r + d1) % step + d2,
        ((r + d1) % step + d2) % step == (r + d1 + d2) % step,
        (r + d1) / step + ((r + d1) % step + d2) / step == (r + d1 + d2) / step,
{
    let q = (r + d1) / step;
    let m = (r + d1) % step;
    vstd::arithmetic::div_mod::lemma_fundamental_div_mod(r + d1, step);
    vstd::arithmetic::div_mod::lemma_mod_pos_bound(r + d1, step);
    assert(r + d1 + d2 == step * q + (m + d2));
    assert(((m + d2) + q * step) / step == (m + d2) / step + q) by {
        vstd::arithmetic::div_mod::lemma_hoist_over_denominator(m + d2, q, step as nat);
    }
    assert((step * q + (m + d2)) % step == (m + d2) % step) by {
        vstd::arithmetic::div_mod::lemma_mod_multiples_vanish(q, m + d2, step);
    }
    assert(step * q + (m + d2) == (m + d2) + q * step) by (nonlinear_arith);
}

/// Law (scheduler determinism): for any sequence of frame deltas, the total
/// number of steps drained depends only on the sum of the deltas — chunking
/// is irrelevant. Starting from an empty residual, a sequence summing to `T`
/// executes exactly `T / step` steps (the floor).
pub proof fn lemma_scheduler_determinism(r: int, deltas: Seq<int>, step: int)
    requires
        step >= 1,
        0 <= r,
        deltas.len() >= 1,
        forall|k: int| 0 <= k < deltas.len() ==> deltas[k] >= 0,
    ensures
        spec_drained(r, deltas, step) == (r + spec_sum(deltas)) / step,
    decreases deltas.len(),
{
    let d0 = deltas[0];
    let rest = deltas.skip(1);
    assert(spec_sum(deltas) == d0 + spec_sum(rest));
    lemma_sum_nonneg(rest);
    vstd::arithmetic::div_mod::lemma_mod_pos_bound(r + d0, step);
    if rest.len() == 0 {
        assert(spec_drained((r + d0) % step, rest, step) == 0);
    } else {
        lemma_scheduler_determinism((r + d0) % step, rest, step);
        lemma_tick_chunking(r, d0, spec_sum(rest), step);
    }
}

} // verus!
