use ipd_simulator::grid::Grid;
use ipd_simulator::stats::{chunk_statistics, statistics_of, PassStatistics, Statistics};

#[test]
fn statistics_are_additive_after_steps() {
    let mut grid = Grid::new(8, 8);
    for _ in 0..5 {
        grid.step();
        let s = grid.get_statistics();
        assert_eq!(s.total_agents, s.unicellular_agents + s.multicellular_agents);
        assert_eq!(s.total_fitness, s.unicellular_fitness + s.multicellular_fitness);
        assert!(s.total_agents > 0);
        assert_eq!(grid.pass_stats.num_updates, 2 * grid.pass_stats.num_interactions);
    }
}

#[test]
fn fresh_grid_statistics() {
    let grid = Grid::new(3, 2);
    let s = grid.get_statistics();
    assert_eq!(s.total_agents, 6);
    assert_eq!(s.unicellular_agents, 6);
    assert_eq!(s.multicellular_agents, 0);
    assert_eq!(s.total_fitness, 6 * 1_000);
    assert_eq!(s.unicellular_cooperation, 6);
    assert_eq!(s.avg_fitness(), 1_000);
    assert_eq!(s.unicellular_cooperation_rate(), 1_000_000);
    assert_eq!(s.multicellular_cooperation_rate(), 0);
    assert_eq!(s.avg_multicellular_fitness(), 0);
}

#[test]
fn chunking_does_not_change_totals() {
    let grid = Grid::new(150, 150);
    let ids: Vec<usize> = (0..22_500).rev().collect();
    let whole = chunk_statistics(&grid.agents, &ids);
    let parts = statistics_of(&grid.agents, &ids);
    assert_eq!(whole.total_agents, 22_500);
    assert_eq!(parts.total_agents, whole.total_agents);
    assert_eq!(parts.total_fitness, whole.total_fitness);
    assert_eq!(parts.unicellular_cooperation, whole.unicellular_cooperation);
}

#[test]
fn averages_guard_zero_counts() {
    let s = Statistics::zero();
    assert_eq!(s.avg_fitness(), 0);
    assert_eq!(s.avg_unicellular_fitness(), 0);
    assert_eq!(s.avg_multicellular_fitness(), 0);
    assert_eq!(s.unicellular_cooperation_rate(), 0);
    let mut t = Statistics::zero();
    t.total_agents = 4;
    t.total_fitness = 10;
    t.multicellular_agents = 3;
    t.multicellular_fitness = 9;
    t.multicellular_cooperation = 1;
    assert_eq!(t.avg_fitness(), 2);
    assert_eq!(t.avg_multicellular_fitness(), 3);
    assert_eq!(t.multicellular_cooperation_rate(), 333_333);
}

#[test]
fn pass_statistics_reset() {
    let mut p = PassStatistics::zero();
    p.num_interactions = 5;
    p.deferred_op_time = 9;
    p.reset();
    assert_eq!(p.num_interactions, 0);
    assert_eq!(p.deferred_op_time, 0);
}
