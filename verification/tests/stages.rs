use rb_synthesis::budget::{BudgetGuard, MemoryError};
use rb_synthesis::pipeline::{ExitCategory, PipelineError};
use rb_synthesis::stages::{next_stage, RunStage, StageAction, StageEvent};
use rb_synthesis::timing::TimingError;

fn race() -> TimingError {
    TimingError::DataRace { sink_index: 3, arrivals: vec![1, 4], tolerance: 0 }
}

const MIB: u64 = 1024 * 1024;

#[test]
fn strict_timing_race_stops_with_code_nine() {
    let cap = BudgetGuard::new(100, "after_timing");
    let (stage, action) = next_stage(RunStage::Timing, StageEvent::TimingAnalysed { race: Some(race()) }, true, &cap);
    assert_eq!(stage, RunStage::Finished);
    match action {
        StageAction::Fail(e) => {
            assert!(matches!(e, PipelineError::Timing(_)));
            assert_eq!(ExitCategory::for_error(&e).code(), 9);
        }
        other => panic!("unexpected {:?}", other),
    }
}

#[test]
fn lenient_timing_race_warns_and_goes_on() {
    let cap = BudgetGuard::new(100, "after_timing");
    let (stage, action) = next_stage(RunStage::Timing, StageEvent::TimingAnalysed { race: Some(race()) }, false, &cap);
    assert_eq!(stage, RunStage::Timing);
    assert!(matches!(action, StageAction::Warn(TimingError::DataRace { sink_index: 3, .. })));
    let (stage, action) = next_stage(stage, StageEvent::MemorySampled { rss: 5 }, false, &cap);
    assert_eq!(stage, RunStage::Placement);
    assert!(matches!(action, StageAction::Proceed));
}

#[test]
fn memory_over_the_cap_stops_with_code_eight() {
    let cap = BudgetGuard::new(1, "after_place");
    let (stage, action) = next_stage(RunStage::Placement, StageEvent::MemorySampled { rss: MIB + 1 }, false, &cap);
    assert_eq!(stage, RunStage::Finished);
    match action {
        StageAction::Fail(e) => {
            assert_eq!(ExitCategory::for_error(&e).code(), 8);
            match e {
                PipelineError::Memory(MemoryError::CapExceeded { cap, actual, stage }) => {
                    assert_eq!(cap, MIB);
                    assert_eq!(actual, MIB + 1);
                    assert_eq!(stage, "after_place");
                }
                other => panic!("unexpected {:?}", other),
            }
        }
        other => panic!("unexpected {:?}", other),
    }
}

#[test]
fn memory_at_the_cap_moves_on() {
    let cap = BudgetGuard::new(1, "after_route");
    let (stage, action) = next_stage(RunStage::Routing, StageEvent::MemorySampled { rss: MIB }, false, &cap);
    assert_eq!(stage, RunStage::Output);
    assert!(matches!(action, StageAction::Proceed));
}

#[test]
fn pathfinder_exhaustion_falls_back_to_single_pass() {
    let cap = BudgetGuard::new(1, "routing");
    let (stage, action) = next_stage(RunStage::Routing, StageEvent::PathFinderExhausted, false, &cap);
    assert_eq!(stage, RunStage::Routing);
    assert!(matches!(action, StageAction::FallBackToSinglePass));
}

#[test]
fn a_report_out_of_turn_changes_nothing() {
    let cap = BudgetGuard::new(1, "x");
    let (stage, action) = next_stage(RunStage::Output, StageEvent::MemorySampled { rss: u64::MAX }, true, &cap);
    assert_eq!(stage, RunStage::Output);
    assert!(matches!(action, StageAction::Proceed));
    let (stage, action) = next_stage(RunStage::Output, StageEvent::Written, true, &cap);
    assert_eq!(stage, RunStage::Finished);
    assert!(matches!(action, StageAction::Proceed));
}
