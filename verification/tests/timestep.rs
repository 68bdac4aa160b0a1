use ant_sort::board::Board;
use ant_sort::diagnostics::UpdateTimeDiagnosticsState;
use ant_sort::board::Connectivity;
use ant_sort::prob::LinearProbability;
use ant_sort::scheduler::FixedTimestep;
use ant_sort::scheduler::TimestepError;
use ant_sort::sim::SimulationMode;
use ant_sort::sim::SimilarityMetric;
use ant_sort::sim::Simulation;

fn empty_sim() -> Simulation {
    let board = Board::toroidal_grid(2, 2, Connectivity::Four).unwrap();
    Simulation::new(board, Vec::new(), 0, SimilarityMetric::Density { threshold: 1250, radius: 1 })
        .unwrap()
}

#[test]
fn zero_step_duration_is_rejected() {
    assert!(matches!(FixedTimestep::new(0), Err(TimestepError::ZeroStep)));
    let mut ts = FixedTimestep::new(100).unwrap();
    assert!(matches!(ts.set_step(0), Err(TimestepError::ZeroStep)));
    assert_eq!(ts.step(), 100);
}

#[test]
fn one_large_frame_catches_up() {
    // 250 ms at a 100 ms step: two executions, 50 ms residual
    let mut ts = FixedTimestep::new(100).unwrap();
    let mut sim = empty_sim();
    let model = LinearProbability { steepness: 2000 };
    let steps = ts.tick(250, &mut sim, SimulationMode::Running, &model);
    assert_eq!(steps, 2);
    assert_eq!(ts.residual(), 50);
    assert_eq!(ts.step_count(), 2);
}

#[test]
fn chunking_is_irrelevant() {
    // five 50 ms frames drain exactly what one 250 ms frame drains
    let model = LinearProbability { steepness: 2000 };
    let mut one = FixedTimestep::new(100).unwrap();
    let mut sim1 = empty_sim();
    let total_one = one.tick(250, &mut sim1, SimulationMode::Running, &model);

    let mut five = FixedTimestep::new(100).unwrap();
    let mut sim2 = empty_sim();
    let mut total_five = 0;
    for _ in 0..5 {
        total_five += five.tick(50, &mut sim2, SimulationMode::Running, &model);
    }
    assert_eq!(total_one, 2);
    assert_eq!(total_five, 2);
    assert_eq!(one.residual(), five.residual());
    assert_eq!(one.step_count(), five.step_count());
}

#[test]
fn reconfiguration_keeps_the_backlog() {
    // 250 ms pending: at a 100 ms step two executions are owed; switching to
    // 50 ms before the next check drains the same backlog in five
    let model = LinearProbability { steepness: 2000 };

    let mut coarse = FixedTimestep::new(1000).unwrap();
    let mut sim1 = empty_sim();
    assert_eq!(coarse.tick(250, &mut sim1, SimulationMode::Running, &model), 0);
    assert_eq!(coarse.residual(), 250);
    coarse.set_step(100).unwrap();
    assert_eq!(coarse.residual(), 250);
    assert_eq!(coarse.tick(0, &mut sim1, SimulationMode::Running, &model), 2);
    assert_eq!(coarse.residual(), 50);

    let mut fine = FixedTimestep::new(1000).unwrap();
    let mut sim2 = empty_sim();
    assert_eq!(fine.tick(250, &mut sim2, SimulationMode::Running, &model), 0);
    fine.set_step(50).unwrap();
    assert_eq!(fine.tick(0, &mut sim2, SimulationMode::Running, &model), 5);
    assert_eq!(fine.residual(), 0);
}

#[test]
fn control_commands_halve_and_double() {
    let mut ts = FixedTimestep::new(100).unwrap();
    ts.halve_step().unwrap();
    assert_eq!(ts.step(), 50);
    ts.double_step().unwrap();
    assert_eq!(ts.step(), 100);
    let mut tiny = FixedTimestep::new(1).unwrap();
    assert!(matches!(tiny.halve_step(), Err(TimestepError::ZeroStep)));
    let mut huge = FixedTimestep::new(u64::MAX).unwrap();
    assert!(matches!(huge.double_step(), Err(TimestepError::StepTooLarge)));
}

#[test]
fn paused_frames_still_count_steps() {
    let mut ts = FixedTimestep::new(100).unwrap();
    let mut sim = empty_sim();
    let model = LinearProbability { steepness: 2000 };
    let steps = ts.tick(300, &mut sim, SimulationMode::Paused, &model);
    assert_eq!(steps, 3);
    assert_eq!(ts.step_count(), 3);
}

#[test]
fn update_counter_wraps() {
    let mut st = UpdateTimeDiagnosticsState::new();
    assert_eq!(st.update_count, 0);
    st.record_update();
    st.record_update();
    assert_eq!(st.update_count, 2);
    st.update_count = u64::MAX;
    st.record_update();
    assert_eq!(st.update_count, 0);
}
