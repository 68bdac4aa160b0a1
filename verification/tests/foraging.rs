use ant_sort::board::Board;
use ant_sort::board::BoardPosition;
use ant_sort::board::Connectivity;
use ant_sort::prob::LinearProbability;
use ant_sort::sim::Agent;
use ant_sort::sim::ConfigError;
use ant_sort::sim::ExchangeAction;
use ant_sort::sim::ItemLocation;
use ant_sort::sim::SimilarityMetric;
use ant_sort::sim::Simulation;
use ant_sort::sim::SimulationMode;
use ant_sort::sim::auto_pause;
use ant_sort::sim::exchange_decision;
use ant_sort::similarity::FeatureVec;

fn density_metric() -> SimilarityMetric {
    SimilarityMetric::Density { threshold: 1250, radius: 1 }
}

fn grid_sim(items: usize, agents: usize) -> Simulation {
    let board = Board::toroidal_grid(10, 10, Connectivity::Eight).unwrap();
    let features: Vec<Option<FeatureVec>> = vec![None; items];
    Simulation::new(board, features, agents, density_metric()).unwrap()
}

#[test]
fn capacity_is_checked_at_startup() {
    let board = Board::toroidal_grid(2, 2, Connectivity::Four).unwrap();
    let features: Vec<Option<FeatureVec>> = vec![None; 5];
    assert!(matches!(
        Simulation::new(board, features, 0, density_metric()),
        Err(ConfigError::TooManyItems { items: 5, cells: 4 })
    ));
    let board2 = Board::toroidal_grid(2, 2, Connectivity::Four).unwrap();
    assert!(matches!(
        Simulation::new(board2, Vec::new(), 5, density_metric()),
        Err(ConfigError::TooManyAgents { agents: 5, cells: 4 })
    ));
    let board3 = Board::toroidal_grid(2, 2, Connectivity::Four).unwrap();
    assert!(matches!(
        Simulation::new(board3, Vec::new(), 1, SimilarityMetric::Feature { alpha: 0, radius: 1 }),
        Err(ConfigError::BadMetric)
    ));
    let board4 = Board::toroidal_grid(2, 2, Connectivity::Four).unwrap();
    let oversized = vec![Some(FeatureVec { x: 2_000_000_000, y: 0 })];
    assert!(matches!(
        Simulation::new(board4, oversized, 1, SimilarityMetric::Feature { alpha: 4500, radius: 1 }),
        Err(ConfigError::FeatureOutOfRange { item: 0 })
    ));
}

#[test]
fn startup_places_every_item_on_its_own_cell() {
    let sim = grid_sim(60, 30);
    assert_eq!(sim.items.len(), 60);
    assert_eq!(sim.agents.len(), 30);
    assert_eq!(sim.items_on_board(), 60);
    assert_eq!(sim.items_carried(), 0);
    let mut seen = vec![false; 100];
    for item in &sim.items {
        match item.loc {
            ItemLocation::OnBoard(c) => {
                assert!(c < 100);
                assert!(!seen[c], "two items on one cell");
                seen[c] = true;
                assert_eq!(sim.board.cells[c].item.is_some(), true);
            },
            ItemLocation::Carried(_) => panic!("freshly placed item is carried"),
        }
    }
}

#[test]
fn items_are_conserved_over_many_steps() {
    // the invariant: items on the board plus items carried is constant
    let mut sim = grid_sim(40, 25);
    let model = LinearProbability { steepness: 2000 };
    for step in 0..200 {
        let mode = if step % 5 == 4 { SimulationMode::Ending } else { SimulationMode::Running };
        sim.step_once(mode, &model);
        assert_eq!(sim.items_on_board() + sim.items_carried(), 40);
        assert_eq!(sim.items.len(), 40);
    }
}

#[test]
fn no_item_is_both_on_a_cell_and_carried() {
    let mut sim = grid_sim(40, 25);
    let model = LinearProbability { steepness: 2000 };
    for _ in 0..100 {
        sim.step_once(SimulationMode::Running, &model);
        let mut where_is = vec![0u8; 40];
        for cell in &sim.board.cells {
            if let Some(i) = cell.item {
                where_is[i] += 1;
            }
        }
        for agent in &sim.agents {
            if let Some(i) = agent.carried {
                where_is[i] += 1;
            }
        }
        for count in where_is {
            assert_eq!(count, 1, "an item must be in exactly one place");
        }
    }
}

#[test]
fn paused_steps_change_nothing() {
    let mut sim = grid_sim(20, 10);
    let model = LinearProbability { steepness: 2000 };
    let positions: Vec<usize> = sim.agents.iter().map(|a| a.pos.idx()).collect();
    let cells: Vec<Option<usize>> = sim.board.cells.iter().map(|c| c.item).collect();
    sim.step_once(SimulationMode::Paused, &model);
    let positions2: Vec<usize> = sim.agents.iter().map(|a| a.pos.idx()).collect();
    let cells2: Vec<Option<usize>> = sim.board.cells.iter().map(|c| c.item).collect();
    assert_eq!(positions, positions2);
    assert_eq!(cells, cells2);
}

#[test]
fn ending_mode_never_picks_up() {
    let mut sim = grid_sim(50, 30);
    let model = LinearProbability { steepness: 0 };
    // with steepness zero the pickup probability is 1 whenever allowed, so
    // only the mode keeps hands empty
    for _ in 0..50 {
        sim.step_once(SimulationMode::Ending, &model);
        assert_eq!(sim.items_carried(), 0);
    }
}

#[test]
fn pickup_and_drop_transfer_ownership() {
    let mut sim = grid_sim(1, 1);
    let cell = match sim.items[0].loc {
        ItemLocation::OnBoard(c) => c,
        ItemLocation::Carried(_) => panic!(),
    };
    // stand the agent on the item's cell
    let pos = BoardPosition::new(cell, sim.board.size()).unwrap();
    sim.agents[0] = Agent { pos, carried: None };
    sim.pick_up(0);
    assert_eq!(sim.agents[0].carried, Some(0));
    assert!(sim.board.cells[cell].item.is_none());
    assert!(matches!(sim.items[0].loc, ItemLocation::Carried(0)));
    assert_eq!(sim.items_on_board(), 0);
    assert_eq!(sim.items_carried(), 1);
    sim.drop_item(0);
    assert_eq!(sim.agents[0].carried, None);
    assert_eq!(sim.board.cells[cell].item, Some(0));
    assert!(matches!(sim.items[0].loc, ItemLocation::OnBoard(c) if c == cell));
}

#[test]
fn exchange_decision_rules() {
    // pickup only on an occupied cell, with empty hands, outside Ending,
    // and a draw under the probability
    assert!(matches!(exchange_decision(true, false, false, 500, 499), ExchangeAction::PickUp));
    assert!(matches!(exchange_decision(true, false, false, 500, 500), ExchangeAction::Hold));
    assert!(matches!(exchange_decision(true, false, true, 1000, 0), ExchangeAction::Hold));
    assert!(matches!(exchange_decision(true, true, false, 1000, 0), ExchangeAction::Hold));
    // drop only on an empty cell while carrying
    assert!(matches!(exchange_decision(false, true, false, 500, 499), ExchangeAction::PutDown));
    assert!(matches!(exchange_decision(false, true, true, 500, 499), ExchangeAction::PutDown));
    assert!(matches!(exchange_decision(false, true, false, 0, 0), ExchangeAction::Hold));
    assert!(matches!(exchange_decision(false, false, false, 1000, 0), ExchangeAction::Hold));
    // a drop probability of one is a deterministic drop: every draw is under it
    assert!(matches!(exchange_decision(false, true, false, 1000, 999), ExchangeAction::PutDown));
    assert!(matches!(exchange_decision(false, true, false, 1000, 0), ExchangeAction::PutDown));
}

#[test]
fn mean_similarity_of_a_full_board_is_one() {
    // every cell occupied: every neighborhood is fully occupied, so the
    // density score of every item is 1 and so is the mean
    let sim = grid_sim(100, 0);
    assert_eq!(sim.mean_similarity(), 1000);
}

#[test]
fn mean_similarity_of_an_empty_board_is_zero() {
    let sim = grid_sim(0, 5);
    assert_eq!(sim.mean_similarity(), 0);
}

#[test]
fn mode_toggles() {
    assert!(matches!(SimulationMode::Running.toggle_paused(), SimulationMode::Paused));
    assert!(matches!(SimulationMode::Paused.toggle_paused(), SimulationMode::Running));
    assert!(matches!(SimulationMode::Ending.toggle_paused(), SimulationMode::Ending));
    assert!(matches!(SimulationMode::Running.toggle_ending(), SimulationMode::Ending));
    assert!(matches!(SimulationMode::Ending.toggle_ending(), SimulationMode::Running));
    assert!(matches!(SimulationMode::Paused.toggle_ending(), SimulationMode::Paused));
    assert!(SimulationMode::Paused.is_paused());
    assert!(!SimulationMode::Running.is_paused());
    assert!(SimulationMode::Ending.is_paused_or_ending());
    assert!(matches!(auto_pause(SimulationMode::Running, 1_000_000), SimulationMode::Ending));
    assert!(matches!(auto_pause(SimulationMode::Running, 999_999), SimulationMode::Running));
}

#[test]
fn agents_move_to_neighbors() {
    let mut sim = grid_sim(0, 20);
    let before: Vec<usize> = sim.agents.iter().map(|a| a.pos.idx()).collect();
    sim.move_phase(SimulationMode::Running);
    for (a, old_idx) in before.iter().enumerate() {
        let new_idx = sim.agents[a].pos.idx();
        // on the eight-connected torus the new cell is one of the old cell's
        // eight neighbors
        let ox = (old_idx % 10) as i64;
        let oy = (old_idx / 10) as i64;
        let nx = (new_idx % 10) as i64;
        let ny = (new_idx / 10) as i64;
        let dx = (ox - nx).rem_euclid(10).min((nx - ox).rem_euclid(10));
        let dy = (oy - ny).rem_euclid(10).min((ny - oy).rem_euclid(10));
        assert!(dx <= 1 && dy <= 1);
        assert_ne!(new_idx, *old_idx);
    }
}

#[test]
fn certain_drop_probability_forces_the_drop() {
    // on a 3-by-3 eight-connected torus every cell neighbors every other; one
    // item on the board makes the density score 0.156, and steepness 8 pushes
    // the drop probability to 1 — the drop is deterministic
    let board = Board::toroidal_grid(3, 3, Connectivity::Eight).unwrap();
    let features: Vec<Option<FeatureVec>> = vec![None; 2];
    let mut sim = Simulation::new(board, features, 1, density_metric()).unwrap();
    let c0 = match sim.items[0].loc {
        ItemLocation::OnBoard(c) => c,
        ItemLocation::Carried(_) => panic!(),
    };
    let pos = BoardPosition::new(c0, sim.board.size()).unwrap();
    sim.agents[0] = Agent { pos, carried: None };
    sim.pick_up(0);
    // the agent now stands on its emptied cell, carrying item 0, with the
    // other item somewhere in its neighborhood
    let model = LinearProbability { steepness: 8000 };
    sim.exchange_phase(SimulationMode::Running, &model);
    assert_eq!(sim.agents[0].carried, None);
    assert_eq!(sim.board.cells[c0].item, Some(0));
}

#[test]
fn ending_mode_never_empties_a_cell() {
    let mut sim = grid_sim(50, 30);
    let model = LinearProbability { steepness: 2000 };
    for _ in 0..50 {
        let occupied_before: Vec<usize> =
            (0..100).filter(|c| sim.board.cells[*c].item.is_some()).collect();
        sim.step_once(SimulationMode::Ending, &model);
        for c in occupied_before {
            assert!(sim.board.cells[c].item.is_some(), "a cell lost its item in Ending mode");
        }
    }
}
