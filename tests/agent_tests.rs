use ipd_simulator::agent::{Action, Agent, CompactPolicy, td_step, UNIT};

#[test]
fn test_memory_packing() {
    let mut agent = Agent::new(0);
    agent.mem_length = 3;

    agent.add_to_memory(Action::Cooperate, Action::Defect);
    agent.add_to_memory(Action::Merge, Action::Split);
    agent.add_to_memory(Action::Defect, Action::Cooperate);

    // Newest pair in the lowest four bits, read from the high end: CD|MS|DC
    // In bits: 00|01|10|11|01|00
    assert_eq!(agent.memory_bits & 0xFFF, 0b000110110100);
}

#[test]
fn memory_keeps_only_most_recent_pairs() {
    let mut agent = Agent::from_draw(1);
    assert_eq!(agent.mem_length, 2);
    agent.add_to_memory(Action::Split, Action::Split);
    agent.add_to_memory(Action::Cooperate, Action::Defect);
    agent.add_to_memory(Action::Merge, Action::Cooperate);
    // Oldest pair (SS) dropped: CD then MC, newest low.
    assert_eq!(agent.memory_bits, 0b0001_1000);
}

#[test]
fn memory_of_zero_length_is_unchanged() {
    let mut agent = Agent::from_draw(0);
    agent.mem_length = 0;
    agent.add_to_memory(Action::Defect, Action::Defect);
    assert_eq!(agent.memory_bits, 0);
}

#[test]
fn from_draw_picks_lengths_one_to_five() {
    assert_eq!(Agent::from_draw(0).mem_length, 1);
    assert_eq!(Agent::from_draw(4).mem_length, 5);
    assert_eq!(Agent::from_draw(5).mem_length, 1);
    assert_eq!(Agent::from_draw(255).mem_length, 1);
    let a = Agent::new(7);
    assert!(a.mem_length >= 1 && a.mem_length <= 5);
    assert_eq!(a.child, u32::MAX);
    assert!(!a.is_multicellular());
    assert_eq!(a.get_organism_size(), 1);
}

#[test]
fn from_u8_uses_low_two_bits() {
    assert_eq!(Action::from_u8(0), Action::Cooperate);
    assert_eq!(Action::from_u8(1), Action::Defect);
    assert_eq!(Action::from_u8(6), Action::Merge);
    assert_eq!(Action::from_u8(255), Action::Split);
    assert_eq!(Action::Merge.code(), 2);
}

#[test]
fn memory_hash_layout() {
    let mut a = Agent::from_draw(1);
    a.memory_bits = 0xAB;
    let h = a.get_memory_hash(0x123, 3);
    assert_eq!(h, (2u64 << 56) | (3u64 << 48) | (0xABu64 << 24) | 0x123);
    // Bits beyond the opponent's length are masked away.
    assert_eq!(a.get_memory_hash(0xF123, 3), h);
}

#[test]
fn memory_hash_is_asymmetric() {
    let mut a = Agent::from_draw(1);
    a.memory_bits = 0x12;
    let mut b = Agent::from_draw(2);
    b.memory_bits = 0x345;
    let ab = a.get_memory_hash(b.memory_bits, b.mem_length);
    let ba = b.get_memory_hash(a.memory_bits, a.mem_length);
    assert_ne!(ab, ba);
    // Same lengths, different bits.
    let mut c = Agent::from_draw(1);
    c.memory_bits = 0x21;
    assert_ne!(a.get_memory_hash(c.memory_bits, c.mem_length), c.get_memory_hash(a.memory_bits, a.mem_length));
}

#[test]
fn organism_size_follows_generation() {
    let mut a = Agent::from_draw(0);
    a.parent_1 = 1;
    a.parent_2 = 2;
    a.generation = 3;
    assert!(a.is_multicellular());
    assert_eq!(a.get_organism_size(), 4);
    a.generation = u32::MAX;
    assert_eq!(a.get_organism_size(), u32::MAX);
}

#[test]
fn greedy_choice_breaks_ties_by_lowest_index() {
    let p = CompactPolicy { q_values: [5, 9, 9, 1] };
    assert_eq!(p.greedy_action(), Action::Defect);
    assert_eq!(p.choose_action(100_000, 100_000, 3), Action::Defect);
    assert_eq!(p.choose_action(100_000, 99_999, 3), Action::Split);
    assert_eq!(p.get_action(0), Action::Defect);
    assert_eq!(p.max_value(), 9);
    let q = CompactPolicy { q_values: [1, 1, 1, 1] };
    assert_eq!(q.greedy_action(), Action::Cooperate);
}

#[test]
fn td_step_exact_values() {
    // 0 + 0.2 * (8 + 0.95 * 0 - 0) = 1.6
    assert_eq!(td_step(0, 8 * UNIT, 0, 200_000, 950_000), 1_600_000);
    // 1 + 0.2 * (0 + 0.95 * 2 - 1) = 1.18
    assert_eq!(td_step(UNIT, 0, 2 * UNIT, 200_000, 950_000), 1_180_000);
    // 2 + 0.2 * (0 + 0 - 2) = 1.6, a step down
    assert_eq!(td_step(2 * UNIT, 0, 0, 200_000, 950_000), 1_600_000);
    // Saturates instead of overflowing.
    assert_eq!(td_step(u64::MAX, u64::MAX, u64::MAX, UNIT, UNIT), u64::MAX);
}

#[test]
fn policy_update_changes_only_chosen_action() {
    let mut p = CompactPolicy { q_values: [0, 0, 0, 0] };
    p.update(Action::Merge, 10 * UNIT, 0, 500_000, 950_000);
    assert_eq!(p.q_values, [0, 0, 5 * UNIT, 0]);
    let q = p.calculate_updated_q_values(Action::Cooperate, 2 * UNIT, 0, UNIT, 0);
    assert_eq!(q, [2 * UNIT, 0, 5 * UNIT, 0]);
}

#[test]
fn fresh_policy_values_are_small() {
    for _ in 0..100 {
        let p = CompactPolicy::new();
        assert!(p.q_values.iter().all(|&v| v < 100_000));
    }
}

#[test]
fn full_length_memories_do_not_collide_with_lengths() {
    let mut a = Agent::from_draw(4);
    assert_eq!(a.mem_length, 5);
    a.memory_bits = 0x10000;
    let with_high_bit = a.get_memory_hash(0, 1);
    a.memory_bits = 0;
    let without = a.get_memory_hash(0, 1);
    assert_ne!(with_high_bit, without);
    assert_eq!(with_high_bit, (5u64 << 56) | (1u64 << 48) | (0x10000u64 << 24));
}

#[test]
fn fresh_agent_fields() {
    let a = Agent::new(3);
    assert_eq!(a.last_action, 0);
    assert_eq!(a.fitness, 1_000);
    assert_eq!(a.memory_bits, 0);
    assert_eq!(a.q_values, [100_000; 4]);
    assert_eq!(a.policy_hash, 0);
    assert_eq!(a.epsilon, 100_000);
}
