use ipd_simulator::agent::{Action, DeferredOp, UNIT};
use ipd_simulator::grid::{combine_fitness, FitnessCombine, Grid};
use ipd_simulator::payoff::PayoffTable;
use ipd_simulator::policy::PolicyTable;

#[test]
fn test_small_grid() {
    let mut grid = Grid::new(10, 10);

    // Run a few steps
    for _ in 0..10 {
        grid.step();
        let stats = grid.get_statistics();
        assert!(stats.total_agents > 0);
    }
}

#[test]
fn test_large_grid_creation() {
    let grid = Grid::new(1000, 1000);
    assert_eq!(grid.agents.len(), 1_000_000);
}

#[test]
fn payoff_table_reference_values() {
    let t = PayoffTable::default();
    assert_eq!(t.get(Action::Cooperate, Action::Cooperate), 8 * UNIT);
    assert_eq!(t.get(Action::Defect, Action::Cooperate), 10 * UNIT);
    assert_eq!(t.get(Action::Cooperate, Action::Defect), 0);
    assert_eq!(t.get(Action::Defect, Action::Defect), 5 * UNIT);
    assert_eq!(t.get(Action::Merge, Action::Merge), 0);
    assert_eq!(t.get(Action::Merge, Action::Cooperate), 8 * UNIT);
    assert_eq!(t.get(Action::Cooperate, Action::Merge), 8 * UNIT);
    assert_eq!(t.get(Action::Defect, Action::Split), 0);
    assert_eq!(t.get(Action::Split, Action::Cooperate), 0);
}

#[test]
fn get_or_create_twice_returns_same_values() {
    let mut t = PolicyTable::new(16);
    assert!(t.lookup(42).is_none());
    let a = t.get_or_create(42);
    let b = t.get_or_create(42);
    assert_eq!(a.q_values, b.q_values);
    assert_eq!(t.lookup(42).unwrap().q_values, a.q_values);
}

#[test]
fn policy_update_replaces_values() {
    let mut t = PolicyTable::new(16);
    let _ = t.get_or_create(7);
    let p = ipd_simulator::agent::CompactPolicy { q_values: [1, 2, 3, 4] };
    t.update(7, p);
    assert_eq!(t.get_or_create(7).q_values, [1, 2, 3, 4]);
    assert!(t.lookup(8).is_none());
}

#[test]
fn neighbors_of_corner_and_center() {
    let grid = Grid::new(3, 3);
    let mut n = Vec::new();
    grid.get_neighbors(0, &mut n);
    assert_eq!(n, vec![1, 3, 4]);
    grid.get_neighbors(4, &mut n);
    assert_eq!(n, vec![0, 1, 2, 3, 5, 6, 7, 8]);
    grid.get_neighbors(5, &mut n);
    assert_eq!(n, vec![1, 2, 4, 7, 8]);
}

#[test]
fn single_cell_grid_has_no_interactions() {
    let mut grid = Grid::new(1, 1);
    grid.step();
    assert_eq!(grid.pass_stats.num_interactions, 0);
    assert_eq!(grid.get_statistics().total_agents, 1);
}

#[test]
fn mutual_merge_creates_one_new_agent() {
    let mut grid = Grid::new(2, 1);
    grid.agents[0].fitness = 3 * UNIT;
    grid.agents[1].fitness = 5 * UNIT;
    let reqs = grid.deferred_requests(0, 1, Action::Merge, Action::Merge);
    assert_eq!(reqs.len(), 1);
    assert_eq!(
        reqs[0],
        DeferredOp::Merge { agent1: 0, agent2: 1, new_fitness: 8 * UNIT, inherit_from: 1 }
    );
    assert!(grid.defer(reqs[0]));
    grid.apply_deferred_operations();
    assert_eq!(grid.agents.len(), 3);
    assert_eq!(grid.agents[0].child, 2);
    assert_eq!(grid.agents[1].child, 2);
    assert_eq!(grid.agents[2].fitness, 8 * UNIT);
    assert_eq!(grid.agents[2].parent_1, 0);
    assert_eq!(grid.agents[2].parent_2, 1);
    assert_eq!(grid.agents[2].generation, 1);
    assert_eq!(grid.agents[2].child, u32::MAX);
    assert_eq!(grid.agents[2].mem_length, grid.agents[1].mem_length);
    assert_eq!(grid.next_agent_id, 3);
    assert_eq!(grid.find_root(0), 2);
    assert_eq!(grid.find_root(1), 2);
    // The new record is not a cell.
    assert_eq!(grid.find_empty_cells(4), vec![2]);
    // The organism is counted once, as multicellular.
    let s = grid.get_statistics();
    assert_eq!(s.total_agents, 1);
    assert_eq!(s.multicellular_agents, 1);
    assert_eq!(s.total_fitness, (8 * UNIT) as u128);
}

#[test]
fn average_merge_policy() {
    let mut grid = Grid::new(2, 1);
    grid.merge_fitness = FitnessCombine::Average;
    grid.agents[0].fitness = 4 * UNIT;
    grid.agents[1].fitness = UNIT;
    let reqs = grid.deferred_requests(0, 1, Action::Merge, Action::Merge);
    assert_eq!(
        reqs[0],
        DeferredOp::Merge { agent1: 0, agent2: 1, new_fitness: 2_500_000, inherit_from: 0 }
    );
    assert_eq!(combine_fitness(FitnessCombine::Sum, 3, 4), 7);
    assert_eq!(combine_fitness(FitnessCombine::Sum, u64::MAX, 4), u64::MAX);
    assert_eq!(combine_fitness(FitnessCombine::Average, 3, 4), 3);
}

#[test]
fn merge_of_consumed_source_is_dropped() {
    let mut grid = Grid::new(3, 1);
    assert!(grid.apply_merge(0, 1, 10, 0));
    assert!(!grid.apply_merge(1, 2, 10, 1));
    assert!(!grid.apply_merge(2, 2, 10, 2));
    assert!(!grid.apply_merge(0, 9, 10, 0));
    assert!(!grid.apply_merge(2, 3, 10, 0));
    assert_eq!(grid.agents.len(), 4);
    assert_eq!(grid.agents[2].child, u32::MAX);
}

#[test]
fn merges_in_one_batch_see_earlier_ones() {
    let mut grid = Grid::new(3, 1);
    assert!(grid.defer(DeferredOp::Merge { agent1: 0, agent2: 1, new_fitness: 1, inherit_from: 0 }));
    assert!(grid.defer(DeferredOp::Merge { agent1: 1, agent2: 2, new_fitness: 1, inherit_from: 1 }));
    grid.apply_deferred_operations();
    assert_eq!(grid.agents.len(), 4);
    assert_eq!(grid.agents[2].child, u32::MAX);
}

#[test]
fn split_halves_fitness_onto_parents() {
    let mut grid = Grid::new(2, 1);
    assert!(grid.apply_merge(0, 1, 9 * UNIT + 1, 0));
    let reqs = grid.deferred_requests(2, 0, Action::Split, Action::Cooperate);
    assert_eq!(reqs, vec![DeferredOp::Split { agent: 2, parent1: 0, parent2: 1 }]);
    assert!(grid.defer(reqs[0]));
    grid.apply_deferred_operations();
    assert_eq!(grid.agents[0].fitness, 4_500_000);
    assert_eq!(grid.agents[1].fitness, 4_500_000);
    assert_eq!(grid.agents[0].child, u32::MAX);
    assert_eq!(grid.agents[1].child, u32::MAX);
    assert_eq!(grid.agents.len(), 3);
    assert_eq!(grid.find_root(0), 0);
}

#[test]
fn invalid_split_is_dropped() {
    let mut grid = Grid::new(2, 1);
    assert!(!grid.apply_split(0, u32::MAX, u32::MAX));
    assert!(!grid.apply_split(0, 1, 5));
    assert!(!grid.apply_split(7, 0, 1));
    let reqs = grid.deferred_requests(0, 1, Action::Split, Action::Split);
    assert!(reqs.is_empty());
}

#[test]
fn state_updates_accumulate_fitness() {
    let mut grid = Grid::new(2, 1);
    grid.agents[0].mem_length = 1;
    grid.agents[1].mem_length = 1;
    grid.update_root_cache();
    let it = ipd_simulator::grid::Interaction { agent1_idx: 0, agent2_idx: 1 };
    let (u1, u2) = grid.evaluate_interaction(it);
    assert_eq!(u1.agent_idx, 0);
    assert_eq!(u2.agent_idx, 1);
    assert_eq!(u1.action, u2.opp_action);
    assert_eq!(u1.fitness_delta, PayoffTable::default().get(u1.action, u1.opp_action));
    let before = grid.agents[0].fitness;
    grid.apply_state_updates(&vec![u1, u1]);
    assert_eq!(grid.agents[0].fitness, before + 2 * u1.fitness_delta);
    assert_eq!(grid.agents[0].last_action, u1.action.code());
    let code = (u1.action.code() as u32) * 4 + u1.opp_action.code() as u32;
    assert_eq!(grid.agents[0].memory_bits, code);
    assert_eq!(grid.policy_table.lookup(u1.policy_hash).unwrap().q_values, u1.new_q_values);
}

#[test]
fn generated_interactions_pair_distinct_neighbours() {
    let mut grid = Grid::new(4, 4);
    grid.update_root_cache();
    let its = grid.generate_interactions();
    assert_eq!(its.len(), 16);
    for it in &its {
        assert_ne!(it.agent1_idx, it.agent2_idx);
        let (x1, y1) = (it.agent1_idx % 4, it.agent1_idx / 4);
        let (x2, y2) = (it.agent2_idx % 4, it.agent2_idx / 4);
        assert!(x1.abs_diff(x2) <= 1 && y1.abs_diff(y2) <= 1);
    }
    let updates = grid.process_interactions(&its);
    assert_eq!(updates.len(), 32);
}

#[test]
fn root_cache_follows_merges() {
    let mut grid = Grid::new(2, 2);
    assert!(grid.apply_merge(0, 1, 1, 0));
    assert!(grid.apply_merge(4, 2, 1, 2));
    grid.update_root_cache();
    assert_eq!(grid.root_cache, vec![5, 5, 5, 3, 5, 5]);
    let its = grid.generate_interactions();
    for it in &its {
        assert!(it.agent1_idx == 5 || it.agent1_idx == 3);
        assert_ne!(it.agent1_idx, it.agent2_idx);
    }
}

#[test]
fn full_queue_drops_requests() {
    let mut grid = Grid::new(2, 1);
    let op = DeferredOp::Split { agent: 0, parent1: u32::MAX, parent2: u32::MAX };
    for _ in 0..1_000_000 {
        assert!(grid.defer(op));
    }
    assert!(!grid.defer(op));
    grid.defer_all(&vec![op, op]);
    grid.apply_deferred_operations();
    assert!(grid.defer(op));
    assert_eq!(grid.agents.len(), 2);
}

#[test]
fn step_keeps_cells_active_and_memory_lengths() {
    let mut grid = Grid::new(5, 5);
    let lens: Vec<u8> = grid.agents.iter().map(|a| a.mem_length).collect();
    for _ in 0..5 {
        grid.step();
        assert!(grid.get_statistics().total_agents > 0);
    }
    for (i, l) in lens.iter().enumerate() {
        assert_eq!(grid.agents[i].mem_length, *l);
    }
    assert_eq!(grid.find_empty_cells(25).iter().filter(|&&i| i < 25).count(), 0);
}
