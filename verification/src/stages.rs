//! The decisions a run takes between its stages, as a step function from
//! the stage reached and what the stage reported to the next stage and
//! what to do: go on, warn and go on, fall back to single-pass routing, or
//! stop with an error (whose exit code follows [`exit_code`]).
use vstd::prelude::*;

use crate::budget::{BudgetGuard, MemoryError};
use crate::pipeline::{category_of, exit_code, PipelineError};
use crate::timing::TimingError;

verus! {

/// Where a run stands between its stages.
#[derive(Debug, Clone, Copy, PartialEq, Eq, Structural)]
pub enum RunStage {
    /// Static timing analysis.
    Timing,
    /// Placement.
    Placement,
    /// Routing and assembly.
    Routing,
    /// Writing the schematic.
    Output,
    /// The run is over.
    Finished,
}

/// What a stage reports when it ends.
#[derive(Debug)]
pub enum StageEvent {
    /// Timing analysis ended, with the data race it found, if any.
    TimingAnalysed {
        /// The data race found.
        race: Option<TimingError>,
    },
    /// The resident set size in bytes, sampled at the boundary after a
    /// stage.
    MemorySampled {
        /// Resident set size in bytes.
        rss: u64,
    },
    /// Negotiated-congestion routing exhausted its iterations.
    PathFinderExhausted,
    /// The schematic was written, or writing was skipped.
    Written,
}

/// What the run does next.
#[derive(Debug)]
pub enum StageAction {
    /// Go on.
    Proceed,
    /// Report the timing race as a warning and go on.
    Warn(TimingError),
    /// Route again with single-pass PathFinder (convergence is best effort
    /// in the pipeline).
    FallBackToSinglePass,
    /// Stop the run with this error.
    Fail(PipelineError),
}

/// The memory error that a sample of `used` bytes over the cap of `guard`
/// raises.
pub open spec fn cap_error(guard: BudgetGuard, used: u64) -> PipelineError {
    PipelineError::Memory(MemoryError::CapExceeded { cap: guard.cap(), actual: used, stage: guard.label() })
}

/// The stage after `s` at a memory boundary.
pub open spec fn stage_after(s: RunStage) -> RunStage {
    match s {
        RunStage::Timing => RunStage::Placement,
        RunStage::Placement => RunStage::Routing,
        RunStage::Routing => RunStage::Output,
        RunStage::Output => RunStage::Output,
        RunStage::Finished => RunStage::Finished,
    }
}

/// The stages that end at a memory boundary.
pub open spec fn has_boundary(s: RunStage) -> bool {
    s == RunStage::Timing || s == RunStage::Placement || s == RunStage::Routing
}

/// The step from `stage` on `event`. A data race under strict timing
/// stops the run (exit code 9) and otherwise becomes a warning; a memory
/// sample over the cap at the boundary after timing, placement or routing
/// stops it (exit code 8) and one within the cap moves the run to the next
/// stage; PathFinder running out of iterations falls back to single-pass
/// routing; the written schematic ends the run. An event that does not
/// belong to `stage` changes nothing.
pub fn next_stage(stage: RunStage, event: StageEvent, strict_timing: bool, cap: &BudgetGuard) -> (r: (
    RunStage,
    StageAction,
))
    ensures
        (stage, event) matches (RunStage::Timing, StageEvent::TimingAnalysed { race: Some(e) }) ==> (if strict_timing {
            r.0 == RunStage::Finished && r.1 == StageAction::Fail(PipelineError::Timing(e)) && exit_code(
                category_of(PipelineError::Timing(e)),
            ) == 9
        } else {
            r.0 == RunStage::Timing && r.1 == StageAction::Warn(e)
        }),
        (stage, event) matches (RunStage::Timing, StageEvent::TimingAnalysed { race: None }) ==> r.0
            == RunStage::Timing && r.1 == StageAction::Proceed,
        event matches StageEvent::MemorySampled { rss } ==> (has_boundary(stage) ==> if rss > cap.cap() {
            r.0 == RunStage::Finished && r.1 == StageAction::Fail(cap_error(*cap, rss)) && exit_code(
                category_of(cap_error(*cap, rss)),
            ) == 8
        } else {
            r.0 == stage_after(stage) && r.1 == StageAction::Proceed
        }),
        (stage, event) matches (RunStage::Routing, StageEvent::PathFinderExhausted) ==> r.0 == RunStage::Routing
            && r.1 == StageAction::FallBackToSinglePass,
        (stage, event) matches (RunStage::Output, StageEvent::Written) ==> r.0 == RunStage::Finished && r.1
            == StageAction::Proceed,
        !((stage, event) matches (RunStage::Timing, StageEvent::TimingAnalysed { .. })) && !(has_boundary(stage)
            && event is MemorySampled) && !((stage, event) matches (RunStage::Routing, StageEvent::PathFinderExhausted))
            && !((stage, event) matches (RunStage::Output, StageEvent::Written)) ==> r.0 == stage && r.1
            == StageAction::Proceed,
{
    match (stage, event) {
        (RunStage::Timing, StageEvent::TimingAnalysed { race }) => match race {
            Some(e) => {
                if strict_timing {
                    (RunStage::Finished, StageAction::Fail(PipelineError::Timing(e)))
                } else {
                    (RunStage::Timing, StageAction::Warn(e))
                }
            },
            None => (RunStage::Timing, StageAction::Proceed),
        },
        (RunStage::Timing, StageEvent::MemorySampled { rss }) => boundary(RunStage::Placement, rss, cap),
        (RunStage::Placement, StageEvent::MemorySampled { rss }) => boundary(RunStage::Routing, rss, cap),
        (RunStage::Routing, StageEvent::MemorySampled { rss }) => boundary(RunStage::Output, rss, cap),
        (RunStage::Routing, StageEvent::PathFinderExhausted) => (RunStage::Routing, StageAction::FallBackToSinglePass),
        (RunStage::Output, StageEvent::Written) => (RunStage::Finished, StageAction::Proceed),
        (s, _) => (s, StageAction::Proceed),
    }
}

/// The step at a memory boundary: on to `next` within the cap, a stop
/// above it.
fn boundary(next: RunStage, rss: u64, cap: &BudgetGuard) -> (r: (RunStage, StageAction))
    ensures
        rss > cap.cap() ==> r.0 == RunStage::Finished && r.1 == StageAction::Fail(cap_error(*cap, rss)),
        rss <= cap.cap() ==> r.0 == next && r.1 == StageAction::Proceed,
{
    match cap.check_sample(rss) {
        Ok(_) => (next, StageAction::Proceed),
        Err(m) => (RunStage::Finished, StageAction::Fail(PipelineError::Memory(m))),
    }
}

} // verus!
