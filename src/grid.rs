//! The simulation grid: agent store, organism forest, and the per-step pipeline.

use vstd::prelude::*;
use crossbeam::queue::ArrayQueue;
use rayon::iter::{IndexedParallelIterator, IntoParallelIterator, ParallelIterator};
use crate::agent::{
    Action, Agent, CompactPolicy, DeferredOp, NONE, MAX_MEMORY, UNIT, DEFAULT_EPSILON, is_greedy, joint_hash,
    max_of,
    memory_after, random_below, td_values,
};
use crate::deferred::{
    lemma_push_bounded_concat, lemma_push_bounded_one, push_bounded, queue_new, queue_pop,
    queue_push, queued_ops, queue_capacity,
};
use crate::occupancy::{OccupancyMask, MAX_AGENTS, mask_all_set, mask_bits, mask_get, mask_push};
use crate::payoff::{PayoffTable, payoff};
use crate::policy::PolicyTable;
use crate::stats::PassStatistics;

verus! {

/// Capacity of the deferred-operation queue.
pub const DEFERRED_CAPACITY: usize = 1_000_000;

/// Capacity hint of the policy table.
pub const POLICY_CAPACITY: usize = 10_000_000;

/// Default learning step size: 0.2.
pub const DEFAULT_ALPHA: u64 = 200_000;

/// Default discount factor: 0.95.
pub const DEFAULT_GAMMA: u64 = 950_000;

/// How a merge combines the fitness of its two sources.
#[derive(Debug, Clone, Copy, PartialEq, Eq, Structural)]
pub enum FitnessCombine {
    Sum,
    Average,
}

/// Every child reference is absent or points to a later, existing record:
/// the parent/child graph is a forest whose edges go up in index.
pub open spec fn forest_wf(agents: Seq<Agent>) -> bool {
    forall|i: int|
        0 <= i < agents.len() ==> #[trigger] agents[i].child == NONE || (i < agents[i].child
            && agents[i].child < agents.len())
}

/// The child link of `i` can be followed.
pub open spec fn has_next(agents: Seq<Agent>, i: int) -> bool {
    0 <= i < agents.len() && agents[i].child != NONE && i < agents[i].child && agents[i].child
        < agents.len()
}

/// The root reached from `i` by following child links.
pub open spec fn root_of(agents: Seq<Agent>, i: int) -> int
    decreases agents.len() - i,
{
    if has_next(agents, i) {
        root_of(agents, agents[i].child as int)
    } else {
        i
    }
}

/// How many child links lead from `i` to its root.
pub open spec fn depth(agents: Seq<Agent>, i: int) -> nat
    decreases agents.len() - i,
{
    if has_next(agents, i) {
        1 + depth(agents, agents[i].child as int)
    } else {
        0
    }
}

/// The record reached from `i` after `n` child links.
pub open spec fn follow(agents: Seq<Agent>, i: int, n: nat) -> int
    decreases n,
{
    if n == 0 {
        i
    } else {
        follow(agents, agents[i].child as int, (n - 1) as nat)
    }
}

/// In a well-formed forest, following child references from any agent ends,
/// within fewer hops than there are agents, at a root (a record without a
/// child).
pub proof fn lemma_forest_acyclic(agents: Seq<Agent>, i: int)
    requires
        forest_wf(agents),
        0 <= i < agents.len(),
    ensures
        depth(agents, i) + i < agents.len(),
        depth(agents, i) < agents.len(),
        follow(agents, i, depth(agents, i)) == root_of(agents, i),
        0 <= root_of(agents, i) < agents.len(),
        agents[root_of(agents, i)].child == NONE,
    decreases agents.len() - i,
{
    if has_next(agents, i) {
        lemma_forest_acyclic(agents, agents[i].child as int);
    } else {
        assert(agents[i].child == NONE);
    }
}

/// Offset `(dx, dy)` of the `k`-th of the eight neighbours, row by row from
/// the upper left.
pub open spec fn neighbor_offset(k: int) -> (int, int) {
    if k == 0 {
        (-1, -1)
    } else if k == 1 {
        (0, -1)
    } else if k == 2 {
        (1, -1)
    } else if k == 3 {
        (-1, 0)
    } else if k == 4 {
        (1, 0)
    } else if k == 5 {
        (-1, 1)
    } else if k == 6 {
        (0, 1)
    } else {
        (1, 1)
    }
}

/// The in-grid cells among the first `k` neighbour offsets of `idx`, in
/// offset order.
pub open spec fn neighbors_upto(w: int, h: int, idx: int, k: nat) -> Seq<usize>
    decreases k,
{
    if k == 0 {
        Seq::empty()
    } else {
        let prev = neighbors_upto(w, h, idx, (k - 1) as nat);
        let (dx, dy) = neighbor_offset(k - 1);
        let nx = idx % w + dx;
        let ny = idx / w + dy;
        if 0 <= nx < w && 0 <= ny < h {
            prev.push((ny * w + nx) as usize)
        } else {
            prev
        }
    }
}

/// The 8-connected neighbours of cell `idx` inside a `w` by `h` grid.
pub open spec fn neighbor_cells(w: int, h: int, idx: int) -> Seq<usize> {
    neighbors_upto(w, h, idx, 8)
}

/// Every neighbour lies inside the grid.
pub proof fn lemma_neighbors_in_grid(w: int, h: int, idx: int, k: nat)
    requires
        0 <= idx < w * h,
        w * h <= MAX_AGENTS,
    ensures
        forall|j: int|
            0 <= j < neighbors_upto(w, h, idx, k).len() ==> (#[trigger] neighbors_upto(
                w,
                h,
                idx,
                k,
            )[j] as int) < w * h && neighbors_upto(w, h, idx, k)[j] >= 0,
    decreases k,
{
    if k > 0 {
        lemma_neighbors_in_grid(w, h, idx, (k - 1) as nat);
        let (dx, dy) = neighbor_offset(k - 1);
        let nx = idx % w + dx;
        let ny = idx / w + dy;
        let prev = neighbors_upto(w, h, idx, (k - 1) as nat);
        if 0 <= nx < w && 0 <= ny < h {
            assert(0 <= ny * w + nx < w * h) by (nonlinear_arith)
                requires
                    0 <= nx < w,
                    0 <= ny < h,
            ;
            let cur = neighbors_upto(w, h, idx, k);
            assert(cur == prev.push((ny * w + nx) as usize));
            assert forall|j: int| 0 <= j < cur.len() implies (#[trigger] cur[j] as int) < w * h && cur[j] >= 0 by {
                if j < prev.len() {
                    assert(cur[j] == prev[j]);
                }
            }
        }
    }
}

/// One game round between two distinct roots.
#[derive(Debug, Clone, Copy, PartialEq, Eq, Structural)]
pub struct Interaction {
    pub agent1_idx: u32,
    pub agent2_idx: u32,
}

/// What one interaction does to one of its two participants.
#[derive(Debug, Clone, Copy)]
pub struct StateUpdate {
    pub agent_idx: u32,
    pub fitness_delta: u64,
    pub action: Action,
    pub opp_action: Action,
    /// Joint state the participant acted in.
    pub policy_hash: u64,
    /// Learned values of that state after the update.
    pub new_q_values: [u64; 4],
}

/// The combined fitness of a merge: the sum (saturating) or the average
/// (rounded down) of the two sources.
pub open spec fn combined_fitness(mode: FitnessCombine, a: u64, b: u64) -> u64 {
    match mode {
        FitnessCombine::Sum => if a as nat + b as nat > u64::MAX as nat {
            u64::MAX
        } else {
            (a + b) as u64
        },
        FitnessCombine::Average => ((a as nat + b as nat) / 2) as u64,
    }
}

/// A merge of roots `i` and `j`, taking the fitter one (`j` on a tie) as template.
pub open spec fn merge_request(agents: Seq<Agent>, mode: FitnessCombine, i: u32, j: u32) -> DeferredOp {
    DeferredOp::Merge {
        agent1: i,
        agent2: j,
        new_fitness: combined_fitness(mode, agents[i as int].fitness, agents[j as int].fitness),
        inherit_from: if agents[i as int].fitness > agents[j as int].fitness {
            i
        } else {
            j
        },
    }
}

/// A split of agent `i` back into its two parents.
pub open spec fn split_request(agents: Seq<Agent>, i: u32) -> DeferredOp {
    DeferredOp::Split { agent: i, parent1: agents[i as int].parent_1, parent2: agents[i as int].parent_2 }
}

/// The forest changes that a round between `i` (playing `a`) and `j`
/// (playing `b`) asks for: a merge when both merge; otherwise a split for
/// each side that splits while part of an organism.
pub open spec fn requests(
    agents: Seq<Agent>,
    mode: FitnessCombine,
    i: u32,
    j: u32,
    a: Action,
    b: Action,
) -> Seq<DeferredOp> {
    if a == Action::Merge && b == Action::Merge {
        seq![merge_request(agents, mode, i, j)]
    } else {
        (if a == Action::Split && agents[i as int].multicellular() {
            seq![split_request(agents, i)]
        } else {
            Seq::empty()
        }) + (if b == Action::Split && agents[j as int].multicellular() {
            seq![split_request(agents, j)]
        } else {
            Seq::empty()
        })
    }
}

/// Memory bits of `me` after playing `a` against `b`.
pub open spec fn next_bits(me: Agent, a: Action, b: Action) -> u32 {
    if me.mem_length == 0 {
        me.memory_bits
    } else {
        memory_after(me.memory_bits as nat, me.mem_length as nat, a, b) as u32
    }
}

/// `u` is what `me` (agent `idx`) gets from playing `a` against `opp`
/// playing `b`, with learned values read from `table`: the payoff, the two
/// actions, the key of the joint state before the round, and that state's
/// values after one temporal-difference step bootstrapped from the state
/// after the round.
pub open spec fn update_matches(
    u: StateUpdate,
    me: Agent,
    opp: Agent,
    idx: u32,
    a: Action,
    b: Action,
    table: Map<u64, [u64; 4]>,
    alpha: u64,
    gamma: u64,
) -> bool {
    let h = joint_hash(me.mem_length, me.memory_bits, opp.mem_length, opp.memory_bits);
    let nh = joint_hash(me.mem_length, next_bits(me, a, b), opp.mem_length, opp.memory_bits);
    &&& u.agent_idx == idx
    &&& u.action == a
    &&& u.opp_action == b
    &&& u.fitness_delta == payoff(a, b)
    &&& u.policy_hash == h
    &&& table.contains_key(h)
    &&& table.contains_key(nh)
    &&& u.new_q_values@ == td_values(table[h]@, a, payoff(a, b), max_of(table[nh]@), alpha, gamma)
}

/// Every entry of `m1` stands unchanged in `m2`.
pub open spec fn extends(m1: Map<u64, [u64; 4]>, m2: Map<u64, [u64; 4]>) -> bool {
    forall|k: u64| #[trigger] m1.contains_key(k) ==> m2.contains_key(k) && m2[k] == m1[k]
}

/// The two updates of round `it`, against the agents and the table given.
pub open spec fn round_matches(
    it: Interaction,
    u1: StateUpdate,
    u2: StateUpdate,
    agents: Seq<Agent>,
    table: Map<u64, [u64; 4]>,
    alpha: u64,
    gamma: u64,
) -> bool {
    let i = it.agent1_idx;
    let j = it.agent2_idx;
    &&& update_matches(u1, agents[i as int], agents[j as int], i, u1.action, u2.action, table, alpha, gamma)
    &&& update_matches(u2, agents[j as int], agents[i as int], j, u2.action, u1.action, table, alpha, gamma)
}

/// Learned values read through a table stay the same in any extension of it.
proof fn lemma_round_matches_extends(
    it: Interaction,
    u1: StateUpdate,
    u2: StateUpdate,
    agents: Seq<Agent>,
    t1: Map<u64, [u64; 4]>,
    t2: Map<u64, [u64; 4]>,
    alpha: u64,
    gamma: u64,
)
    requires
        round_matches(it, u1, u2, agents, t1, alpha, gamma),
        extends(t1, t2),
    ensures
        round_matches(it, u1, u2, agents, t2, alpha, gamma),
{
    let i = it.agent1_idx;
    let j = it.agent2_idx;
    let (me, opp) = (agents[i as int], agents[j as int]);
    let h1 = joint_hash(me.mem_length, me.memory_bits, opp.mem_length, opp.memory_bits);
    let n1 = joint_hash(me.mem_length, next_bits(me, u1.action, u2.action), opp.mem_length, opp.memory_bits);
    let h2 = joint_hash(opp.mem_length, opp.memory_bits, me.mem_length, me.memory_bits);
    let n2 = joint_hash(opp.mem_length, next_bits(opp, u2.action, u1.action), me.mem_length, me.memory_bits);
    assert(t1.contains_key(h1) && t1.contains_key(n1) && t1.contains_key(h2) && t1.contains_key(n2));
}

/// `us` holds two updates per round of `its`, in order, each pair matching
/// its round against `agents` and `table`.
pub open spec fn rounds_match(
    its: Seq<Interaction>,
    us: Seq<StateUpdate>,
    agents: Seq<Agent>,
    table: Map<u64, [u64; 4]>,
    alpha: u64,
    gamma: u64,
) -> bool {
    &&& us.len() == 2 * its.len()
    &&& forall|k: int|
        0 <= k < its.len() ==> round_matches(
            #[trigger] its[k],
            us[2 * k],
            us[2 * k + 1],
            agents,
            table,
            alpha,
            gamma,
        )
}

/// The forest changes that rounds `its` ask for, round after round, with the
/// actions that `us` records (two updates per round).
pub open spec fn round_requests(
    agents: Seq<Agent>,
    mode: FitnessCombine,
    its: Seq<Interaction>,
    us: Seq<StateUpdate>,
) -> Seq<DeferredOp>
    decreases its.len(),
{
    if its.len() == 0 {
        Seq::empty()
    } else {
        let k = its.len() - 1;
        round_requests(agents, mode, its.drop_last(), us) + requests(
            agents,
            mode,
            its[k].agent1_idx,
            its[k].agent2_idx,
            us[2 * k].action,
            us[2 * k + 1].action,
        )
    }
}

/// The requests of rounds `its` read only the first two updates per round.
proof fn lemma_round_requests_prefix(
    agents: Seq<Agent>,
    mode: FitnessCombine,
    its: Seq<Interaction>,
    us1: Seq<StateUpdate>,
    us2: Seq<StateUpdate>,
)
    requires
        us1.len() >= 2 * its.len(),
        us2.len() >= 2 * its.len(),
        forall|k: int| 0 <= k < 2 * its.len() ==> us1[k] == us2[k],
    ensures
        round_requests(agents, mode, its, us1) == round_requests(agents, mode, its, us2),
    decreases its.len(),
{
    if its.len() > 0 {
        lemma_round_requests_prefix(agents, mode, its.drop_last(), us1, us2);
        let k = its.len() - 1;
        assert(us1[2 * k] == us2[2 * k]);
        assert(us1[2 * k + 1] == us2[2 * k + 1]);
    }
}

/// Agent `a` after one update: payoff added (saturating), last action set,
/// the round's pair appended to memory.
pub open spec fn agent_after_update(a: Agent, u: StateUpdate) -> Agent {
    Agent {
        fitness: if a.fitness as nat + u.fitness_delta as nat > u64::MAX as nat {
            u64::MAX
        } else {
            (a.fitness + u.fitness_delta) as u64
        },
        last_action: crate::agent::action_code(u.action) as u8,
        memory_bits: next_bits(a, u.action, u.opp_action),
        ..a
    }
}

/// The agents after applying `us` one after another.
pub open spec fn agents_after_updates(agents: Seq<Agent>, us: Seq<StateUpdate>) -> Seq<Agent>
    decreases us.len(),
{
    if us.len() == 0 {
        agents
    } else {
        let prev = agents_after_updates(agents, us.drop_last());
        let i = us.last().agent_idx as int;
        prev.update(i, agent_after_update(prev[i], us.last()))
    }
}

/// Sum of the fitness deltas that `us` holds for agent `i`.
pub open spec fn delta_sum(us: Seq<StateUpdate>, i: int) -> nat
    decreases us.len(),
{
    if us.len() == 0 {
        0
    } else {
        delta_sum(us.drop_last(), i) + if us.last().agent_idx == i {
            us.last().fitness_delta as nat
        } else {
            0
        }
    }
}

/// Committed updates are additive in fitness: unless it would pass the
/// largest `u64`, the fitness of agent `i` after a batch of updates is its
/// fitness before plus the sum of the deltas aimed at it, whichever order
/// they come in and however many target it.
pub proof fn lemma_updates_additive(agents: Seq<Agent>, us: Seq<StateUpdate>, i: int)
    requires
        0 <= i < agents.len(),
        forall|k: int| 0 <= k < us.len() ==> (#[trigger] us[k].agent_idx as int) < agents.len(),
        agents[i].fitness as nat + delta_sum(us, i) <= u64::MAX as nat,
    ensures
        agents_after_updates(agents, us).len() == agents.len(),
        agents_after_updates(agents, us)[i].fitness == agents[i].fitness as nat + delta_sum(us, i),
    decreases us.len(),
{
    if us.len() > 0 {
        let t = us.drop_last();
        assert forall|k: int| 0 <= k < t.len() implies (#[trigger] t[k].agent_idx as int) < agents.len() by {
            assert(t[k] == us[k]);
        }
        lemma_updates_additive(agents, t, i);
        assert(us.last() == us[us.len() - 1]);
    }
}

/// The policy entries after storing the new values of each of `us` in turn.
pub open spec fn table_after_updates(t: Map<u64, [u64; 4]>, us: Seq<StateUpdate>) -> Map<u64, [u64; 4]>
    decreases us.len(),
{
    if us.len() == 0 {
        t
    } else {
        table_after_updates(t, us.drop_last()).insert(us.last().policy_hash, us.last().new_q_values)
    }
}

/// A merge of `a1` and `a2` can be applied: both are existing, distinct
/// roots, the template is one of them, and there is room for a new record.
pub open spec fn merge_valid(agents: Seq<Agent>, a1: u32, a2: u32, inherit_from: u32) -> bool {
    &&& a1 < agents.len()
    &&& a2 < agents.len()
    &&& a1 != a2
    &&& agents[a1 as int].child == NONE
    &&& agents[a2 as int].child == NONE
    &&& (inherit_from == a1 || inherit_from == a2)
    &&& agents.len() < MAX_AGENTS
}

/// The record a merge creates: a copy of the template with the given
/// fitness, the two sources as parents, one more generation, and no child.
pub open spec fn merged_agent(template: Agent, a1: u32, a2: u32, fitness: u64) -> Agent {
    Agent {
        fitness,
        parent_1: a1,
        parent_2: a2,
        child: NONE,
        generation: if template.generation < NONE {
            (template.generation + 1) as u32
        } else {
            NONE
        },
        ..template
    }
}

/// The agents after a valid merge: both sources point to the new record,
/// which is appended.
pub open spec fn agents_after_merge(
    agents: Seq<Agent>,
    a1: u32,
    a2: u32,
    fitness: u64,
    inherit_from: u32,
) -> Seq<Agent> {
    let id = agents.len() as u32;
    let s1 = agents.update(a1 as int, Agent { child: id, ..agents[a1 as int] });
    let s2 = s1.update(a2 as int, Agent { child: id, ..s1[a2 as int] });
    s2.push(merged_agent(agents[inherit_from as int], a1, a2, fitness))
}

/// A split naming `agent` and its parents can be applied: all three exist.
pub open spec fn split_valid(agents: Seq<Agent>, agent: u32, first: u32, second: u32) -> bool {
    &&& first != NONE
    &&& second != NONE
    &&& agent < agents.len()
    &&& first < agents.len()
    &&& second < agents.len()
}

/// The agents after a valid split: each parent becomes a root again, with
/// half of the merged agent's fitness (rounded down).
pub open spec fn agents_after_split(agents: Seq<Agent>, agent: u32, first: u32, second: u32) -> Seq<Agent> {
    let half = (agents[agent as int].fitness / 2) as u64;
    let s1 = agents.update(first as int, Agent { child: NONE, fitness: half, ..agents[first as int] });
    s1.update(second as int, Agent { child: NONE, fitness: half, ..s1[second as int] })
}

#[verifier::external_type_specification]
#[verifier::external_body]
pub struct ExInstant(std::time::Instant);

/// Relies on std::time::Instant::now: the current instant. Nothing is
/// promised of its value.
pub assume_specification[ std::time::Instant::now ]() -> std::time::Instant;

/// Relies on std::time::Instant::elapsed: the time since an instant. Nothing
/// is promised of its value.
pub assume_specification[ std::time::Instant::elapsed ](t: &std::time::Instant) -> core::time::Duration;

/// Relies on core::time::Duration::as_micros: a duration in whole
/// microseconds. Nothing is promised of its value.
pub assume_specification[ core::time::Duration::as_micros ](d: &core::time::Duration) -> u128;

/// The agents after the merges among `ops`, in order, each applied only if
/// valid against the agents the earlier ones left.
pub open spec fn agents_after_merges(agents: Seq<Agent>, ops: Seq<DeferredOp>) -> Seq<Agent>
    decreases ops.len(),
{
    if ops.len() == 0 {
        agents
    } else {
        let prev = agents_after_merges(agents, ops.drop_last());
        match ops.last() {
            DeferredOp::Merge { agent1, agent2, new_fitness, inherit_from } => {
                if merge_valid(prev, agent1, agent2, inherit_from) {
                    agents_after_merge(prev, agent1, agent2, new_fitness, inherit_from)
                } else {
                    prev
                }
            },
            DeferredOp::Split { .. } => prev,
        }
    }
}

/// The agents after the splits among `ops`, in order, each applied only if
/// valid against the agents the earlier ones left.
pub open spec fn agents_after_splits(agents: Seq<Agent>, ops: Seq<DeferredOp>) -> Seq<Agent>
    decreases ops.len(),
{
    if ops.len() == 0 {
        agents
    } else {
        let prev = agents_after_splits(agents, ops.drop_last());
        match ops.last() {
            DeferredOp::Split { agent, parent1, parent2 } => {
                if split_valid(prev, agent, parent1, parent2) {
                    agents_after_split(prev, agent, parent1, parent2)
                } else {
                    prev
                }
            },
            DeferredOp::Merge { .. } => prev,
        }
    }
}

/// Fitness through merges and splits: a merge of roots `i` and `j` asks for
/// the configured combination of their fitness, and the record it creates
/// carries exactly that; a split gives each parent half of the merged
/// agent's fitness at that moment (rounded down, so the two halves add up to
/// it, less one unit when it is odd).
pub proof fn lemma_fitness_conservation(
    agents: Seq<Agent>,
    mode: FitnessCombine,
    i: u32,
    j: u32,
    agent: u32,
    first: u32,
    second: u32,
)
    requires
        i < agents.len(),
        j < agents.len(),
    ensures
        merge_request(agents, mode, i, j) matches DeferredOp::Merge { new_fitness, inherit_from, .. }
            && new_fitness == combined_fitness(mode, agents[i as int].fitness, agents[j as int].fitness)
            && (merge_valid(agents, i, j, inherit_from) ==> agents_after_merge(
            agents,
            i,
            j,
            new_fitness,
            inherit_from,
        ).last().fitness == new_fitness),
        split_valid(agents, agent, first, second) ==> {
            let r = agents_after_split(agents, agent, first, second);
            let f = agents[agent as int].fitness;
            &&& r[first as int].fitness == f / 2
            &&& r[second as int].fitness == f / 2
            &&& r[first as int].fitness + r[second as int].fitness + f % 2 == f
        },
{
}

/// `op` is a merge with `i` as a source, or a split with `i` as a parent:
/// one that may change record `i`.
pub open spec fn touches(op: DeferredOp, i: int) -> bool {
    match op {
        DeferredOp::Merge { agent1, agent2, .. } => agent1 == i || agent2 == i,
        DeferredOp::Split { parent1, parent2, .. } => parent1 == i || parent2 == i,
    }
}

/// `op` names record `i` in any of its fields.
pub open spec fn names(op: DeferredOp, i: int) -> bool {
    match op {
        DeferredOp::Merge { agent1, agent2, inherit_from, .. } => agent1 == i || agent2 == i
            || inherit_from == i,
        DeferredOp::Split { agent, parent1, parent2 } => agent == i || parent1 == i || parent2 == i,
    }
}

/// Merges leave alone every record that none of them has as a source, and
/// never shorten the store.
proof fn lemma_merges_frame(agents: Seq<Agent>, ops: Seq<DeferredOp>, i: int)
    requires
        0 <= i < agents.len(),
        forall|j: int| 0 <= j < ops.len() ==> !touches(#[trigger] ops[j], i),
    ensures
        agents_after_merges(agents, ops).len() >= agents.len(),
        agents_after_merges(agents, ops)[i] == agents[i],
    decreases ops.len(),
{
    if ops.len() > 0 {
        let t = ops.drop_last();
        assert forall|j: int| 0 <= j < t.len() implies !touches(#[trigger] t[j], i) by {
            assert(t[j] == ops[j]);
        }
        lemma_merges_frame(agents, t, i);
        assert(!touches(ops[ops.len() - 1], i));
    }
}

/// Splits leave alone every record that none of them has as a parent, and
/// keep the length of the store.
proof fn lemma_splits_frame(agents: Seq<Agent>, ops: Seq<DeferredOp>, i: int)
    requires
        0 <= i < agents.len(),
        forall|j: int| 0 <= j < ops.len() ==> !touches(#[trigger] ops[j], i),
    ensures
        agents_after_splits(agents, ops).len() == agents.len(),
        agents_after_splits(agents, ops)[i] == agents[i],
    decreases ops.len(),
{
    if ops.len() > 0 {
        let t = ops.drop_last();
        assert forall|j: int| 0 <= j < t.len() implies !touches(#[trigger] t[j], i) by {
            assert(t[j] == ops[j]);
        }
        lemma_splits_frame(agents, t, i);
        assert(!touches(ops[ops.len() - 1], i));
    }
}

/// Splits keep the length of the store.
proof fn lemma_splits_len(agents: Seq<Agent>, ops: Seq<DeferredOp>)
    ensures
        agents_after_splits(agents, ops).len() == agents.len(),
    decreases ops.len(),
{
    if ops.len() > 0 {
        lemma_splits_len(agents, ops.drop_last());
    }
}

/// Applying the splits of `x + y` is applying those of `x`, then those of `y`.
proof fn lemma_splits_concat(agents: Seq<Agent>, x: Seq<DeferredOp>, y: Seq<DeferredOp>)
    ensures
        agents_after_splits(agents, x + y) == agents_after_splits(agents_after_splits(agents, x), y),
    decreases y.len(),
{
    if y.len() == 0 {
        assert(x + y =~= x);
    } else {
        lemma_splits_concat(agents, x, y.drop_last());
        assert((x + y).drop_last() =~= x + y.drop_last());
        assert((x + y).last() == y.last());
    }
}

/// A split in a batch restores its parents: when the queue holds a split of
/// `m` into `p` and `q` (existing records, neither one the sentinel) and no
/// other queued operation names any of the three, each parent ends the
/// commit as a root with half of the merged agent's fitness (rounded down).
pub proof fn lemma_split_in_batch(agents: Seq<Agent>, ops: Seq<DeferredOp>, k: int, m: u32, p: u32, q: u32)
    requires
        0 <= k < ops.len(),
        ops[k] == (DeferredOp::Split { agent: m, parent1: p, parent2: q }),
        p != NONE,
        q != NONE,
        m < agents.len(),
        p < agents.len(),
        q < agents.len(),
        forall|j: int|
            0 <= j < ops.len() && j != k ==> !names(#[trigger] ops[j], m as int) && !names(
                ops[j],
                p as int,
            ) && !names(ops[j], q as int),
    ensures
        ({
            let r = agents_after_splits(agents_after_merges(agents, ops), ops);
            &&& r[p as int].fitness == agents[m as int].fitness / 2
            &&& r[q as int].fitness == agents[m as int].fitness / 2
            &&& r[p as int].child == NONE
            &&& r[q as int].child == NONE
        }),
{
    let b = agents_after_merges(agents, ops);
    lemma_merges_frame_split_free(agents, ops, m as int, k);
    lemma_merges_frame_split_free(agents, ops, p as int, k);
    lemma_merges_frame_split_free(agents, ops, q as int, k);
    let pre = ops.take(k);
    let post = ops.skip(k + 1);
    assert(ops =~= pre + seq![ops[k]] + post);
    lemma_splits_concat(b, pre + seq![ops[k]], post);
    lemma_splits_concat(b, pre, seq![ops[k]]);
    assert forall|j: int| 0 <= j < pre.len() implies !touches(#[trigger] pre[j], m as int) by {
        assert(pre[j] == ops[j]);
        assert(!names(ops[j], m as int));
    }
    lemma_splits_frame(b, pre, m as int);
    lemma_splits_len(b, pre);
    let c = agents_after_splits(b, pre);
    let d = agents_after_splits(c, seq![ops[k]]);
    assert(seq![ops[k]].drop_last() =~= Seq::<DeferredOp>::empty());
    assert(agents_after_splits(c, Seq::<DeferredOp>::empty()) == c);
    assert(split_valid(c, m, p, q));
    assert(d == agents_after_split(c, m, p, q));
    assert forall|j: int| 0 <= j < post.len() implies !touches(#[trigger] post[j], p as int) by {
        assert(post[j] == ops[k + 1 + j]);
        assert(!names(ops[k + 1 + j], p as int));
    }
    assert forall|j: int| 0 <= j < post.len() implies !touches(#[trigger] post[j], q as int) by {
        assert(post[j] == ops[k + 1 + j]);
        assert(!names(ops[k + 1 + j], q as int));
    }
    lemma_splits_frame(d, post, p as int);
    lemma_splits_frame(d, post, q as int);
}

/// Merges leave record `i` alone when no merge among `ops` has it as a
/// source; the split at `k` is not a merge.
proof fn lemma_merges_frame_split_free(agents: Seq<Agent>, ops: Seq<DeferredOp>, i: int, k: int)
    requires
        0 <= i < agents.len(),
        0 <= k < ops.len(),
        ops[k] is Split,
        forall|j: int| 0 <= j < ops.len() && j != k ==> !names(#[trigger] ops[j], i),
    ensures
        agents_after_merges(agents, ops).len() >= agents.len(),
        agents_after_merges(agents, ops)[i] == agents[i],
{
    let masked = Seq::new(
        ops.len(),
        |j: int|
            if j == k {
                DeferredOp::Split {
                    agent: 0,
                    parent1: if i == 0 { 1 } else { 0 },
                    parent2: if i == 0 { 1 } else { 0 },
                }
            } else {
                ops[j]
            },
    );
    lemma_merges_same(agents, ops, masked);
    assert forall|j: int| 0 <= j < masked.len() implies !touches(#[trigger] masked[j], i) by {
        if j != k {
            assert(!names(ops[j], i));
        }
    }
    lemma_merges_frame(agents, masked, i);
}

/// Merges read only the merge operations: two batches that agree on them
/// (and have splits in the same places) give the same records.
proof fn lemma_merges_same(agents: Seq<Agent>, x: Seq<DeferredOp>, y: Seq<DeferredOp>)
    requires
        x.len() == y.len(),
        forall|j: int| 0 <= j < x.len() ==> (#[trigger] x[j] is Merge ==> y[j] == x[j]) && (x[j] is Split <==> y[j] is Split),
    ensures
        agents_after_merges(agents, x) == agents_after_merges(agents, y),
    decreases x.len(),
{
    if x.len() > 0 {
        let xt = x.drop_last();
        let yt = y.drop_last();
        assert forall|j: int| 0 <= j < xt.len() implies (#[trigger] xt[j] is Merge ==> yt[j] == xt[j]) && (xt[j] is Split <==> yt[j] is Split) by {
            assert(xt[j] == x[j] && yt[j] == y[j]);
        }
        lemma_merges_same(agents, xt, yt);
        assert(x[x.len() - 1] is Merge ==> y[y.len() - 1] == x[x.len() - 1]);
    }
}

/// A mutual merge of two roots, committed alone, yields exactly one new
/// record, at the end of the store: its parents are the two roots, which now
/// have it as child, and its fitness is the requested one (for a request from
/// `merge_request`, the configured combination of the two).
pub proof fn lemma_single_merge(agents: Seq<Agent>, a: u32, b: u32, fitness: u64, t: u32)
    requires
        merge_valid(agents, a, b, t),
    ensures
        ({
            let op = DeferredOp::Merge { agent1: a, agent2: b, new_fitness: fitness, inherit_from: t };
            let r = agents_after_splits(agents_after_merges(agents, seq![op]), seq![op]);
            let n = agents.len() as int;
            &&& r.len() == n + 1
            &&& r[a as int].child == n
            &&& r[b as int].child == n
            &&& r[n].parent_1 == a
            &&& r[n].parent_2 == b
            &&& r[n].fitness == fitness
            &&& r[n].child == NONE
            &&& forall|i: int| 0 <= i < n && i != a && i != b ==> #[trigger] r[i] == agents[i]
        }),
{
    let op = DeferredOp::Merge { agent1: a, agent2: b, new_fitness: fitness, inherit_from: t };
    let ops = seq![op];
    assert(ops.drop_last() =~= Seq::<DeferredOp>::empty());
    assert(agents_after_merges(agents, Seq::<DeferredOp>::empty()) == agents);
    let m = agents_after_merges(agents, ops);
    assert(m == agents_after_merge(agents, a, b, fitness, t));
    assert(agents_after_splits(m, Seq::<DeferredOp>::empty()) == m);
    assert(agents_after_splits(m, ops) == m);
}

/// A valid merge keeps the forest well formed.
proof fn lemma_merge_keeps_forest(agents: Seq<Agent>, a1: u32, a2: u32, fitness: u64, inherit_from: u32)
    requires
        forest_wf(agents),
        merge_valid(agents, a1, a2, inherit_from),
    ensures
        forest_wf(agents_after_merge(agents, a1, a2, fitness, inherit_from)),
        agents_after_merge(agents, a1, a2, fitness, inherit_from).len() == agents.len() + 1,
{
    let r = agents_after_merge(agents, a1, a2, fitness, inherit_from);
    let n = agents.len() as int;
    assert forall|i: int| 0 <= i < r.len() implies #[trigger] r[i].child == NONE || (i < r[i].child
        && r[i].child < r.len()) by {
        if i < n && i != a1 && i != a2 {
            assert(r[i] == agents[i]);
            assert(agents[i].child == NONE || (i < agents[i].child && agents[i].child < n));
        }
    }
}

/// A valid split keeps the forest well formed.
proof fn lemma_split_keeps_forest(agents: Seq<Agent>, agent: u32, first: u32, second: u32)
    requires
        forest_wf(agents),
        split_valid(agents, agent, first, second),
    ensures
        forest_wf(agents_after_split(agents, agent, first, second)),
        agents_after_split(agents, agent, first, second).len() == agents.len(),
{
    let r = agents_after_split(agents, agent, first, second);
    assert forall|i: int| 0 <= i < r.len() implies #[trigger] r[i].child == NONE || (i < r[i].child
        && r[i].child < r.len()) by {
        if i != first && i != second {
            assert(r[i] == agents[i]);
            assert(agents[i].child == NONE || (i < agents[i].child && agents[i].child < agents.len()));
        }
    }
}

/// Merge and split commits keep the organism graph a forest: starting from a
/// well-formed forest, after the merges and then the splits of any batch of
/// deferred operations, following child references from any agent still
/// ends at a root within fewer hops than there are agents.
pub proof fn lemma_commits_keep_forest(agents: Seq<Agent>, ops: Seq<DeferredOp>, i: int)
    requires
        forest_wf(agents),
    ensures
        forest_wf(agents_after_splits(agents_after_merges(agents, ops), ops)),
        0 <= i < agents_after_splits(agents_after_merges(agents, ops), ops).len() ==> {
            let r = agents_after_splits(agents_after_merges(agents, ops), ops);
            &&& depth(r, i) < r.len()
            &&& r[follow(r, i, depth(r, i))].child == NONE
        },
{
    lemma_merges_keep_forest(agents, ops);
    lemma_splits_keep_forest(agents_after_merges(agents, ops), ops);
    let r = agents_after_splits(agents_after_merges(agents, ops), ops);
    if 0 <= i < r.len() {
        lemma_forest_acyclic(r, i);
    }
}

proof fn lemma_merges_keep_forest(agents: Seq<Agent>, ops: Seq<DeferredOp>)
    requires
        forest_wf(agents),
    ensures
        forest_wf(agents_after_merges(agents, ops)),
    decreases ops.len(),
{
    if ops.len() > 0 {
        lemma_merges_keep_forest(agents, ops.drop_last());
        let prev = agents_after_merges(agents, ops.drop_last());
        if let DeferredOp::Merge { agent1, agent2, new_fitness, inherit_from } = ops.last() {
            if merge_valid(prev, agent1, agent2, inherit_from) {
                lemma_merge_keeps_forest(prev, agent1, agent2, new_fitness, inherit_from);
            }
        }
    }
}

proof fn lemma_splits_keep_forest(agents: Seq<Agent>, ops: Seq<DeferredOp>)
    requires
        forest_wf(agents),
    ensures
        forest_wf(agents_after_splits(agents, ops)),
    decreases ops.len(),
{
    if ops.len() > 0 {
        lemma_splits_keep_forest(agents, ops.drop_last());
        let prev = agents_after_splits(agents, ops.drop_last());
        if let DeferredOp::Split { agent, parent1, parent2 } = ops.last() {
            if split_valid(prev, agent, parent1, parent2) {
                lemma_split_keeps_forest(prev, agent, parent1, parent2);
            }
        }
    }
}

/// The rounds that the first `c` cells of a `w` by `h` grid propose, with
/// occupancy `mask` and root `roots[i]` for each agent `i`, when cell `k`
/// picks its neighbour number `picks[k]` (modulo its neighbour count): one
/// per active cell whose picked neighbour has another root, in cell order.
pub open spec fn rounds_from(
    w: int,
    h: int,
    mask: Seq<bool>,
    roots: Seq<u32>,
    picks: Seq<usize>,
    c: nat,
) -> Seq<Interaction>
    decreases c,
{
    if c == 0 {
        Seq::empty()
    } else {
        let prev = rounds_from(w, h, mask, roots, picks, (c - 1) as nat);
        let k = c - 1;
        let nbrs = neighbor_cells(w, h, k);
        if mask[k] && nbrs.len() > 0 {
            let a = roots[k];
            let b = roots[nbrs[picks[k] as int % nbrs.len() as int] as int];
            if a != b {
                prev.push(Interaction { agent1_idx: a, agent2_idx: b })
            } else {
                prev
            }
        } else {
            prev
        }
    }
}

/// The root of every agent, as a root cache holds it.
pub open spec fn resolved_roots(agents: Seq<Agent>) -> Seq<u32> {
    Seq::new(agents.len(), |i: int| root_of(agents, i) as u32)
}

/// What one step did, given the neighbour picks drawn, the updates the
/// rounds produced and the policy table before they were committed: the
/// rounds are those the active cells propose over freshly resolved roots;
/// the updates match them; the new values are stored; the agents took the
/// updates, then the merges and splits the rounds asked for (those that fit
/// in the queue after what was already waiting).
pub open spec fn step_outcome(
    old: &Grid,
    new: &Grid,
    picks: Seq<usize>,
    us: Seq<StateUpdate>,
    table: Map<u64, [u64; 4]>,
) -> bool {
    let its = rounds_from(
        old.grid_width as int,
        old.grid_height as int,
        mask_bits(old.active_mask),
        resolved_roots(old.agents@),
        picks,
        old.cells() as nat,
    );
    let ops = push_bounded(
        queued_ops(old.deferred_ops),
        queue_capacity(old.deferred_ops),
        round_requests(old.agents@, old.merge_fitness, its, us),
    );
    &&& picks.len() == old.cells()
    &&& new.pass_stats.num_interactions == its.len()
    &&& extends(old.policy_table@, table)
    &&& rounds_match(its, us, old.agents@, table, old.alpha, old.gamma)
    &&& new.policy_table@ == table_after_updates(table, us)
    &&& new.agents@ == agents_after_splits(
        agents_after_merges(agents_after_updates(old.agents@, us), ops),
        ops,
    )
}

/// The main grid of the simulation.
pub struct Grid {
    /// All agent records: one per cell, then one per merge.
    pub agents: Vec<Agent>,
    /// Which agent slots are active cells.
    pub active_mask: OccupancyMask,
    pub grid_width: usize,
    pub grid_height: usize,
    pub policy_table: PolicyTable,
    pub payoff_table: PayoffTable,
    /// Merges and splits waiting for the end of the step.
    pub deferred_ops: ArrayQueue<DeferredOp>,
    /// The id the next merged agent will get.
    pub next_agent_id: u32,
    /// Root of each agent, as resolved at the start of the step.
    pub root_cache: Vec<u32>,
    /// Learning step size, in units of `1 / UNIT`.
    pub alpha: u64,
    /// Discount factor, in units of `1 / UNIT`.
    pub gamma: u64,
    /// Exploration rate, in units of `1 / UNIT`.
    pub epsilon: u64,
    /// How merges combine fitness.
    pub merge_fitness: FitnessCombine,
    /// Counters of the last step.
    pub pass_stats: PassStatistics,
}

impl Grid {
    /// Number of cells.
    pub open spec fn cells(&self) -> int {
        self.grid_width as int * self.grid_height as int
    }

    /// The agent store is consistent: within limits, a forest, each agent
    /// well formed, one mask bit per agent, learning rates in `[0, 1]`.
    pub open spec fn store_wf(&self) -> bool {
        &&& self.agents.len() <= MAX_AGENTS
        &&& self.cells() <= self.agents.len()
        &&& forest_wf(self.agents@)
        &&& forall|i: int| 0 <= i < self.agents.len() ==> #[trigger] self.agents@[i].wf()
        &&& mask_bits(self.active_mask).len() == self.agents.len()
        &&& self.next_agent_id == self.agents.len()
        &&& self.payoff_table.wf()
        &&& self.alpha <= UNIT
        &&& self.gamma <= UNIT
        &&& queue_capacity(self.deferred_ops) > 0
        &&& queued_ops(self.deferred_ops).len() <= queue_capacity(self.deferred_ops)
    }

    /// The root cache has one in-range entry per agent.
    pub open spec fn cache_wf(&self) -> bool {
        &&& self.root_cache.len() == self.agents.len()
        &&& forall|i: int|
            0 <= i < self.root_cache.len() ==> #[trigger] self.root_cache@[i] < self.agents.len()
    }

    /// The grid's invariant.
    pub open spec fn wf(&self) -> bool {
        self.store_wf() && self.cache_wf()
    }

    /// A `width` by `height` grid with one fresh agent per cell, default
    /// learning parameters and empty policy store and queue.
    pub fn new(width: usize, height: usize) -> (r: Grid)
        requires
            width * height <= MAX_AGENTS,
        ensures
            r.wf(),
            r.grid_width == width,
            r.grid_height == height,
            r.agents.len() == width * height,
            forall|i: int| 0 <= i < r.agents.len() ==> (#[trigger] r.agents@[i]).is_fresh(),
            forall|i: int| 0 <= i < r.agents.len() ==> #[trigger] mask_bits(r.active_mask)[i],
            forall|k: u64| !#[trigger] r.policy_table@.contains_key(k),
            queued_ops(r.deferred_ops).len() == 0,
            r.alpha == DEFAULT_ALPHA,
            r.gamma == DEFAULT_GAMMA,
            r.epsilon == DEFAULT_EPSILON,
            r.merge_fitness == FitnessCombine::Sum,
    {
        let total = width * height;
        let mut agents: Vec<Agent> = Vec::with_capacity(total);
        let mut root_cache: Vec<u32> = Vec::with_capacity(total);
        let mut i: usize = 0;
        while i < total
            invariant
                total <= MAX_AGENTS,
                i <= total,
                agents.len() == i,
                root_cache.len() == i,
                forall|j: int| 0 <= j < i ==> #[trigger] root_cache@[j] == j,
                forall|j: int| 0 <= j < i ==> (#[trigger] agents@[j]).is_fresh() && agents@[j].wf(),
            decreases total - i,
        {
            agents.push(Agent::new(i as u32));
            root_cache.push(i as u32);
            i = i + 1;
        }
        Grid {
            agents,
            active_mask: mask_all_set(total),
            grid_width: width,
            grid_height: height,
            policy_table: PolicyTable::new(POLICY_CAPACITY),
            payoff_table: PayoffTable::default(),
            deferred_ops: queue_new(DEFERRED_CAPACITY),
            next_agent_id: total as u32,
            root_cache,
            alpha: DEFAULT_ALPHA,
            gamma: DEFAULT_GAMMA,
            epsilon: DEFAULT_EPSILON,
            merge_fitness: FitnessCombine::Sum,
            pass_stats: PassStatistics::zero(),
        }
    }

    /// The root reached from `idx` by following child links.
    pub fn find_root(&self, idx: usize) -> (r: usize)
        requires
            self.wf(),
            idx < self.agents.len(),
        ensures
            r == root_of(self.agents@, idx as int),
            r < self.agents.len(),
            self.agents@[r as int].child == NONE,
    {
        resolve_root(&self.agents, idx)
    }

    /// Writes the 8-connected neighbours of cell `idx` into `neighbors`, in
    /// order row by row from the upper left.
    pub fn get_neighbors(&self, idx: usize, neighbors: &mut Vec<usize>)
        requires
            self.cells() <= MAX_AGENTS,
            idx < self.cells(),
        ensures
            final(neighbors)@ == neighbor_cells(
                self.grid_width as int,
                self.grid_height as int,
                idx as int,
            ),
            forall|j: int|
                0 <= j < final(neighbors)@.len() ==> (#[trigger] final(neighbors)@[j] as int)
                    < self.cells(),
    {
        neighbors.clear();
        let w = self.grid_width;
        let h = self.grid_height;
        assert(w > 0 && h > 0 && w <= MAX_AGENTS && h <= MAX_AGENTS) by (nonlinear_arith)
            requires
                idx < w as int * h as int,
                w as int * h as int <= MAX_AGENTS,
        ;
        let x = idx % w;
        let y = idx / w;
        let mut k: usize = 0;
        while k < 8
            invariant
                0 < w <= MAX_AGENTS,
                0 < h <= MAX_AGENTS,
                w == self.grid_width,
                h == self.grid_height,
                idx < self.cells(),
                self.cells() <= MAX_AGENTS,
                x == idx % w,
                y == idx / w,
                k <= 8,
                neighbors@ == neighbors_upto(w as int, h as int, idx as int, k as nat),
                forall|j: int|
                    0 <= j < neighbors@.len() ==> (#[trigger] neighbors@[j] as int) < self.cells(),
            decreases 8 - k,
        {
            let (dx, dy) = neighbor_offset_of(k);
            let nx: i64 = x as i64 + dx;
            let ny: i64 = y as i64 + dy;
            if nx >= 0 && nx < w as i64 && ny >= 0 && ny < h as i64 {
                assert((ny as int) * (w as int) + (nx as int) < (w as int) * (h as int))
                    by (nonlinear_arith)
                    requires
                        0 <= nx < w,
                        0 <= ny < h,
                ;
                neighbors.push((ny as usize) * w + nx as usize);
            }
            k = k + 1;
        }
    }

    /// Resolves the root of every agent into the root cache.
    pub fn update_root_cache(&mut self)
        requires
            old(self).store_wf(),
        ensures
            final(self).agents == old(self).agents,
            final(self).root_cache@.len() == final(self).agents.len(),
            forall|i: int|
                0 <= i < final(self).root_cache@.len() ==> #[trigger] final(self).root_cache@[i]
                    == root_of(final(self).agents@, i),
            final(self).wf(),
            *final(self) == (Grid { root_cache: final(self).root_cache, ..*old(self) }),
    {
        let roots = resolve_all_roots(&self.agents);
        proof {
            assert forall|i: int| 0 <= i < roots@.len() implies #[trigger] roots@[i]
                < self.agents.len() by {
                lemma_forest_acyclic(self.agents@, i);
            }
        }
        self.root_cache = roots;
    }

    /// The forest changes that a round between roots `i` (playing `a`) and
    /// `j` (playing `b`) asks for.
    pub fn deferred_requests(&self, i: u32, j: u32, a: Action, b: Action) -> (r: Vec<DeferredOp>)
        requires
            i < self.agents.len(),
            j < self.agents.len(),
        ensures
            r@ == requests(self.agents@, self.merge_fitness, i, j, a, b),
    {
        let me = &self.agents[i as usize];
        let opp = &self.agents[j as usize];
        let mut out: Vec<DeferredOp> = Vec::new();
        if a == Action::Merge && b == Action::Merge {
            let f = combine_fitness(self.merge_fitness, me.fitness, opp.fitness);
            let inherit = if me.fitness > opp.fitness {
                i
            } else {
                j
            };
            out.push(DeferredOp::Merge { agent1: i, agent2: j, new_fitness: f, inherit_from: inherit });
        } else {
            if a == Action::Split && me.is_multicellular() {
                out.push(DeferredOp::Split { agent: i, parent1: me.parent_1, parent2: me.parent_2 });
            }
            if b == Action::Split && opp.is_multicellular() {
                out.push(DeferredOp::Split { agent: j, parent1: opp.parent_1, parent2: opp.parent_2 });
            }
            assert(out@ =~= requests(self.agents@, self.merge_fitness, i, j, a, b));
        }
        out
    }

    /// Queues a forest change for the end of the step; when the queue is
    /// full the change is dropped and `false` comes back.
    pub fn defer(&mut self, op: DeferredOp) -> (r: bool)
        ensures
            r == (queued_ops(old(self).deferred_ops).len() < queue_capacity(old(self).deferred_ops)),
            r ==> queued_ops(final(self).deferred_ops) == queued_ops(old(self).deferred_ops).push(op),
            !r ==> queued_ops(final(self).deferred_ops) == queued_ops(old(self).deferred_ops),
            *final(self) == (Grid { deferred_ops: final(self).deferred_ops, ..*old(self) }),
            queue_capacity(final(self).deferred_ops) == queue_capacity(old(self).deferred_ops),
    {
        queue_push(&mut self.deferred_ops, op)
    }

    /// Plays one round: both sides look up (or create) the learned values of
    /// their joint state, choose epsilon-greedily, collect their payoffs and
    /// learn one temporal-difference step. Only the policy table changes.
    #[verifier::rlimit(40)]
    pub fn play_round(&mut self, it: Interaction) -> (r: (StateUpdate, StateUpdate))
        requires
            old(self).wf(),
            it.agent1_idx < old(self).agents.len(),
            it.agent2_idx < old(self).agents.len(),
        ensures
            *final(self) == (Grid { policy_table: final(self).policy_table, ..*old(self) }),
            extends(old(self).policy_table@, final(self).policy_table@),
            round_matches(
                it,
                r.0,
                r.1,
                old(self).agents@,
                final(self).policy_table@,
                old(self).alpha,
                old(self).gamma,
            ),
            old(self).epsilon == 0 ==> is_greedy(
                final(self).policy_table@[r.0.policy_hash]@,
                crate::agent::action_code(r.0.action) as int,
            ) && is_greedy(
                final(self).policy_table@[r.1.policy_hash]@,
                crate::agent::action_code(r.1.action) as int,
            ),
    {
        let i = it.agent1_idx;
        let j = it.agent2_idx;
        let me: Agent = self.agents[i as usize];
        let opp: Agent = self.agents[j as usize];
        proof {
            assert(me.wf() && opp.wf());
        }
        let ghost t0 = self.policy_table@;
        let h_me = me.get_memory_hash(opp.memory_bits, opp.mem_length);
        let h_opp = opp.get_memory_hash(me.memory_bits, me.mem_length);
        let p_me = self.policy_table.get_or_create(h_me);
        let ghost t1 = self.policy_table@;
        assert(extends(t0, t1) && t1.contains_key(h_me) && t1[h_me] == p_me.q_values);
        let p_opp = self.policy_table.get_or_create(h_opp);
        let ghost t2 = self.policy_table@;
        assert(extends(t1, t2) && t2.contains_key(h_opp) && t2[h_opp] == p_opp.q_values);
        let a = p_me.get_action(self.epsilon);
        let b = p_opp.get_action(self.epsilon);
        let pay_me = self.payoff_table.get(a, b);
        let pay_opp = self.payoff_table.get(b, a);

        let mut next_me = me;
        next_me.add_to_memory(a, b);
        let nh_me = next_me.get_memory_hash(opp.memory_bits, opp.mem_length);
        let next_p_me = self.policy_table.get_or_create(nh_me);
        let ghost t3 = self.policy_table@;
        assert(extends(t2, t3) && t3.contains_key(nh_me) && t3[nh_me] == next_p_me.q_values);
        let max_me = next_p_me.max_value();

        let mut next_opp = opp;
        next_opp.add_to_memory(b, a);
        let nh_opp = next_opp.get_memory_hash(me.memory_bits, me.mem_length);
        let next_p_opp = self.policy_table.get_or_create(nh_opp);
        let ghost t4 = self.policy_table@;
        assert(extends(t3, t4) && t4.contains_key(nh_opp) && t4[nh_opp] == next_p_opp.q_values);
        let max_opp = next_p_opp.max_value();

        let q_me = p_me.calculate_updated_q_values(a, pay_me, max_me, self.alpha, self.gamma);
        let q_opp = p_opp.calculate_updated_q_values(b, pay_opp, max_opp, self.alpha, self.gamma);
        assert(t4[h_me] == p_me.q_values && t4[h_opp] == p_opp.q_values);
        assert(t4[nh_me] == next_p_me.q_values);
        assert(extends(t0, t4));
        (
            StateUpdate {
                agent_idx: i,
                fitness_delta: pay_me,
                action: a,
                opp_action: b,
                policy_hash: h_me,
                new_q_values: q_me,
            },
            StateUpdate {
                agent_idx: j,
                fitness_delta: pay_opp,
                action: b,
                opp_action: a,
                policy_hash: h_opp,
                new_q_values: q_opp,
            },
        )
    }

    /// Queues `reqs` in order until the queue is full; the rest are dropped.
    pub fn defer_all(&mut self, reqs: &Vec<DeferredOp>)
        requires
            queued_ops(old(self).deferred_ops).len() <= queue_capacity(old(self).deferred_ops),
        ensures
            *final(self) == (Grid { deferred_ops: final(self).deferred_ops, ..*old(self) }),
            queue_capacity(final(self).deferred_ops) == queue_capacity(old(self).deferred_ops),
            queued_ops(final(self).deferred_ops) == push_bounded(
                queued_ops(old(self).deferred_ops),
                queue_capacity(old(self).deferred_ops),
                reqs@,
            ),
            queued_ops(final(self).deferred_ops).len() <= queue_capacity(final(self).deferred_ops),
    {
        let ghost q0 = queued_ops(self.deferred_ops);
        let ghost cap = queue_capacity(self.deferred_ops);
        let ghost g0 = *self;
        let mut k: usize = 0;
        while k < reqs.len()
            invariant
                *self == (Grid { deferred_ops: self.deferred_ops, ..g0 }),
                queue_capacity(self.deferred_ops) == cap,
                k <= reqs.len(),
                q0.len() <= cap,
                queued_ops(self.deferred_ops) == push_bounded(q0, cap, reqs@.take(k as int)),
                queued_ops(self.deferred_ops).len() <= cap,
            decreases reqs.len() - k,
        {
            let ghost before = queued_ops(self.deferred_ops);
            let op = reqs[k];
            self.defer(op);
            proof {
                lemma_push_bounded_one(before, cap, op);
                lemma_push_bounded_concat(q0, cap, reqs@.take(k as int), seq![op]);
                assert(reqs@.take(k as int) + seq![op] =~= reqs@.take(k as int + 1));
            }
            k = k + 1;
        }
        assert(reqs@.take(reqs.len() as int) =~= reqs@);
    }

    /// Plays one round and queues the forest changes it asks for (those that
    /// do not fit in the queue are dropped).
    pub fn evaluate_interaction(&mut self, it: Interaction) -> (r: (StateUpdate, StateUpdate))
        requires
            old(self).wf(),
            it.agent1_idx < old(self).agents.len(),
            it.agent2_idx < old(self).agents.len(),
        ensures
            *final(self) == (Grid {
                policy_table: final(self).policy_table,
                deferred_ops: final(self).deferred_ops,
                ..*old(self)
            }),
            final(self).wf(),
            extends(old(self).policy_table@, final(self).policy_table@),
            round_matches(
                it,
                r.0,
                r.1,
                old(self).agents@,
                final(self).policy_table@,
                old(self).alpha,
                old(self).gamma,
            ),
            queue_capacity(final(self).deferred_ops) == queue_capacity(old(self).deferred_ops),
            queued_ops(final(self).deferred_ops) == push_bounded(
                queued_ops(old(self).deferred_ops),
                queue_capacity(old(self).deferred_ops),
                requests(
                    old(self).agents@,
                    old(self).merge_fitness,
                    it.agent1_idx,
                    it.agent2_idx,
                    r.0.action,
                    r.1.action,
                ),
            ),
    {
        let r = self.play_round(it);
        let reqs = self.deferred_requests(it.agent1_idx, it.agent2_idx, r.0.action, r.1.action);
        self.defer_all(&reqs);
        r
    }

    /// Plays every round in order, queuing the forest changes they ask for.
    pub fn process_interactions(&mut self, interactions: &Vec<Interaction>) -> (r: Vec<StateUpdate>)
        requires
            old(self).wf(),
            forall|k: int|
                0 <= k < interactions.len() ==> #[trigger] interactions@[k].agent1_idx
                    < old(self).agents.len() && interactions@[k].agent2_idx < old(self).agents.len(),
        ensures
            *final(self) == (Grid {
                policy_table: final(self).policy_table,
                deferred_ops: final(self).deferred_ops,
                ..*old(self)
            }),
            final(self).wf(),
            extends(old(self).policy_table@, final(self).policy_table@),
            rounds_match(
                interactions@,
                r@,
                old(self).agents@,
                final(self).policy_table@,
                old(self).alpha,
                old(self).gamma,
            ),
            queued_ops(final(self).deferred_ops) == push_bounded(
                queued_ops(old(self).deferred_ops),
                queue_capacity(old(self).deferred_ops),
                round_requests(old(self).agents@, old(self).merge_fitness, interactions@, r@),
            ),
    {
        let ghost g0 = *self;
        let mut out: Vec<StateUpdate> = Vec::new();
        let mut k: usize = 0;
        while k < interactions.len()
            invariant
                g0.wf(),
                *self == (Grid {
                    policy_table: self.policy_table,
                    deferred_ops: self.deferred_ops,
                    ..g0
                }),
                self.wf(),
                k <= interactions.len(),
                forall|q: int|
                    0 <= q < interactions.len() ==> #[trigger] interactions@[q].agent1_idx
                        < g0.agents.len() && interactions@[q].agent2_idx < g0.agents.len(),
                extends(g0.policy_table@, self.policy_table@),
                rounds_match(
                    interactions@.take(k as int),
                    out@,
                    g0.agents@,
                    self.policy_table@,
                    g0.alpha,
                    g0.gamma,
                ),
                queue_capacity(self.deferred_ops) == queue_capacity(g0.deferred_ops),
                queued_ops(self.deferred_ops) == push_bounded(
                    queued_ops(g0.deferred_ops),
                    queue_capacity(g0.deferred_ops),
                    round_requests(g0.agents@, g0.merge_fitness, interactions@.take(k as int), out@),
                ),
            decreases interactions.len() - k,
        {
            let ghost t_before = self.policy_table@;
            let ghost out_before = out@;
            let ghost q_before = queued_ops(self.deferred_ops);
            let it = interactions[k];
            assert(interactions@[k as int].agent1_idx < g0.agents.len());
            let (u1, u2) = self.evaluate_interaction(it);
            out.push(u1);
            out.push(u2);
            proof {
                let its = interactions@.take(k as int + 1);
                let cap = queue_capacity(g0.deferred_ops);
                let q0 = queued_ops(g0.deferred_ops);
                assert(its.drop_last() =~= interactions@.take(k as int));
                lemma_round_requests_prefix(g0.agents@, g0.merge_fitness, interactions@.take(k as int), out_before, out@);
                assert(out@[2 * k as int] == u1 && out@[2 * k as int + 1] == u2);
                let prev = round_requests(g0.agents@, g0.merge_fitness, interactions@.take(k as int), out_before);
                let reqs = requests(g0.agents@, g0.merge_fitness, it.agent1_idx, it.agent2_idx, u1.action, u2.action);
                assert(round_requests(g0.agents@, g0.merge_fitness, its, out@) == prev + reqs);
                lemma_push_bounded_concat(q0, cap, prev, reqs);
                assert forall|q: int| 0 <= q < its.len() implies round_matches(
                    #[trigger] its[q],
                    out@[2 * q],
                    out@[2 * q + 1],
                    g0.agents@,
                    self.policy_table@,
                    g0.alpha,
                    g0.gamma,
                ) by {
                    if q < k {
                        assert(interactions@.take(k as int)[q] == its[q]);
                        assert(out@[2 * q] == out_before[2 * q]);
                        assert(out@[2 * q + 1] == out_before[2 * q + 1]);
                        lemma_round_matches_extends(
                            its[q],
                            out@[2 * q],
                            out@[2 * q + 1],
                            g0.agents@,
                            t_before,
                            self.policy_table@,
                            g0.alpha,
                            g0.gamma,
                        );
                    }
                }
            }
            k = k + 1;
        }
        assert(interactions@.take(interactions.len() as int) =~= interactions@);
        out
    }

    /// Applies every update in order: fitness accumulates, last action and
    /// memory follow the latest update of each agent, and each update's
    /// values are stored in the policy table.
    pub fn apply_state_updates(&mut self, updates: &Vec<StateUpdate>)
        requires
            old(self).wf(),
            forall|k: int|
                0 <= k < updates.len() ==> #[trigger] updates@[k].agent_idx < old(self).agents.len(),
        ensures
            final(self).wf(),
            final(self).agents@ == agents_after_updates(old(self).agents@, updates@),
            final(self).policy_table@ == table_after_updates(old(self).policy_table@, updates@),
            *final(self) == (Grid {
                agents: final(self).agents,
                policy_table: final(self).policy_table,
                ..*old(self)
            }),
    {
        let ghost g0 = *self;
        let mut k: usize = 0;
        while k < updates.len()
            invariant
                g0.wf(),
                *self == (Grid { agents: self.agents, policy_table: self.policy_table, ..g0 }),
                self.wf(),
                k <= updates.len(),
                forall|q: int|
                    0 <= q < updates.len() ==> #[trigger] updates@[q].agent_idx < g0.agents.len(),
                self.agents@ == agents_after_updates(g0.agents@, updates@.take(k as int)),
                self.policy_table@ == table_after_updates(g0.policy_table@, updates@.take(k as int)),
            decreases updates.len() - k,
        {
            let u = updates[k];
            let idx = u.agent_idx as usize;
            let mut a: Agent = self.agents[idx];
            assert(a.wf());
            a.fitness = a.fitness.saturating_add(u.fitness_delta);
            a.last_action = u.action.code();
            a.add_to_memory(u.action, u.opp_action);
            proof {
                let us = updates@.take(k as int + 1);
                assert(us.drop_last() =~= updates@.take(k as int));
                assert(us.last() == u);
                assert(a == agent_after_update(self.agents@[idx as int], u));
            }
            self.agents.set(idx, a);
            self.policy_table.update(u.policy_hash, CompactPolicy { q_values: u.new_q_values });
            proof {
                assert forall|i: int| 0 <= i < self.agents.len() implies #[trigger] self.agents@[i].wf()
                    by {}
                assert(forest_wf(self.agents@)) by {
                    assert forall|i: int| 0 <= i < self.agents.len() implies #[trigger] self.agents@[i].child == NONE
                        || (i < self.agents@[i].child && self.agents@[i].child < self.agents.len()) by {
                    }
                }
            }
            k = k + 1;
        }
        assert(updates@.take(updates.len() as int) =~= updates@);
    }

    /// Applies a merge of roots `agent1` and `agent2` if it is still valid:
    /// a new record, cloned from `inherit_from`, gets the next id, fitness
    /// `new_fitness`, both sources as parents and one more generation; both
    /// sources take it as child. An invalid merge changes nothing.
    pub fn apply_merge(&mut self, agent1: u32, agent2: u32, new_fitness: u64, inherit_from: u32) -> (r: bool)
        requires
            old(self).wf(),
        ensures
            final(self).wf(),
            r == merge_valid(old(self).agents@, agent1, agent2, inherit_from),
            !r ==> *final(self) == *old(self),
            r ==> final(self).agents@ == agents_after_merge(
                old(self).agents@,
                agent1,
                agent2,
                new_fitness,
                inherit_from,
            ),
            r ==> mask_bits(final(self).active_mask) == mask_bits(old(self).active_mask).push(false),
            r ==> final(self).agents@.last().fitness == new_fitness,
            r ==> *final(self) == (Grid {
                agents: final(self).agents,
                active_mask: final(self).active_mask,
                root_cache: final(self).root_cache,
                next_agent_id: final(self).next_agent_id,
                ..*old(self)
            }),
            r ==> final(self).root_cache@ == old(self).root_cache@.push(old(self).agents.len() as u32),
            final(self).grid_width == old(self).grid_width,
            final(self).grid_height == old(self).grid_height,
            final(self).policy_table == old(self).policy_table,
            final(self).deferred_ops == old(self).deferred_ops,
            final(self).alpha == old(self).alpha,
            final(self).gamma == old(self).gamma,
            final(self).epsilon == old(self).epsilon,
            final(self).merge_fitness == old(self).merge_fitness,
            final(self).pass_stats == old(self).pass_stats,
            final(self).agents.len() >= old(self).agents.len(),
    {
        let n = self.agents.len();
        if !((agent1 as usize) < n) || !((agent2 as usize) < n) || agent1 == agent2 {
            return false;
        }
        if self.agents[agent1 as usize].child != NONE || self.agents[agent2 as usize].child != NONE {
            return false;
        }
        if (inherit_from != agent1 && inherit_from != agent2) || n >= MAX_AGENTS {
            return false;
        }
        let ghost before = self.agents@;
        let id = n as u32;
        let template: Agent = self.agents[inherit_from as usize];
        assert(template.wf());
        let merged = Agent {
            fitness: new_fitness,
            parent_1: agent1,
            parent_2: agent2,
            child: NONE,
            generation: template.generation.saturating_add(1),
            ..template
        };
        let mut a1: Agent = self.agents[agent1 as usize];
        a1.child = id;
        self.agents.set(agent1 as usize, a1);
        let mut a2: Agent = self.agents[agent2 as usize];
        a2.child = id;
        self.agents.set(agent2 as usize, a2);
        self.agents.push(merged);
        mask_push(&mut self.active_mask, false);
        self.root_cache.push(id);
        self.next_agent_id = id + 1;
        proof {
            assert(self.agents@ =~= agents_after_merge(before, agent1, agent2, new_fitness, inherit_from));
            assert forall|i: int| 0 <= i < self.agents.len() implies #[trigger] self.agents@[i].wf() by {
                if i < n {
                    assert(before[i].wf());
                }
            }
            assert forall|i: int| 0 <= i < self.agents.len() implies #[trigger] self.agents@[i].child == NONE
                || (i < self.agents@[i].child && self.agents@[i].child < self.agents.len()) by {
                if i < n && i != agent1 && i != agent2 {
                    assert(before[i].child == NONE || (i < before[i].child && before[i].child < n));
                }
            }
            assert forall|i: int| 0 <= i < self.root_cache.len() implies #[trigger] self.root_cache@[i]
                < self.agents.len() by {
                if i < n {
                    assert(old(self).root_cache@[i] < n);
                }
            }
        }
        true
    }

    /// Applies a split of `agent` into `parent1` and `parent2` if all three
    /// exist: both parents become roots again, each with half of the merged
    /// agent's fitness (rounded down). The merged record stays in place. An
    /// invalid split changes nothing.
    pub fn apply_split(&mut self, agent: u32, parent1: u32, parent2: u32) -> (r: bool)
        requires
            old(self).wf(),
        ensures
            final(self).wf(),
            r == split_valid(old(self).agents@, agent, parent1, parent2),
            !r ==> *final(self) == *old(self),
            r ==> *final(self) == (Grid { agents: final(self).agents, ..*old(self) }),
            r ==> final(self).agents@ == agents_after_split(old(self).agents@, agent, parent1, parent2),
            r ==> final(self).agents@[parent1 as int].fitness == old(self).agents@[agent as int].fitness / 2,
            r ==> final(self).agents@[parent2 as int].fitness == old(self).agents@[agent as int].fitness / 2,
            r ==> final(self).agents@[parent1 as int].child == NONE,
            r ==> final(self).agents@[parent2 as int].child == NONE,
    {
        let n = self.agents.len();
        if parent1 == NONE || parent2 == NONE || !((agent as usize) < n) || !((parent1 as usize) < n)
            || !((parent2 as usize) < n) {
            return false;
        }
        let ghost before = self.agents@;
        let half = self.agents[agent as usize].fitness / 2;
        let mut first: Agent = self.agents[parent1 as usize];
        first.child = NONE;
        first.fitness = half;
        self.agents.set(parent1 as usize, first);
        let mut second: Agent = self.agents[parent2 as usize];
        second.child = NONE;
        second.fitness = half;
        self.agents.set(parent2 as usize, second);
        proof {
            assert(self.agents@ =~= agents_after_split(before, agent, parent1, parent2));
            assert forall|i: int| 0 <= i < self.agents.len() implies #[trigger] self.agents@[i].wf() by {
                assert(before[i].wf());
            }
            assert forall|i: int| 0 <= i < self.agents.len() implies #[trigger] self.agents@[i].child == NONE
                || (i < self.agents@[i].child && self.agents@[i].child < self.agents.len()) by {
                assert(before[i].child == NONE || (i < before[i].child && before[i].child < n));
            }
        }
        true
    }

    /// Takes every queued operation, oldest first, leaving the queue empty.
    pub fn drain_deferred(&mut self) -> (r: Vec<DeferredOp>)
        ensures
            r@ == queued_ops(old(self).deferred_ops),
            queued_ops(final(self).deferred_ops).len() == 0,
            queue_capacity(final(self).deferred_ops) == queue_capacity(old(self).deferred_ops),
            *final(self) == (Grid { deferred_ops: final(self).deferred_ops, ..*old(self) }),
    {
        let ghost q0 = queued_ops(self.deferred_ops);
        let ghost g0 = *self;
        let mut out: Vec<DeferredOp> = Vec::new();
        loop
            invariant
                *self == (Grid { deferred_ops: self.deferred_ops, ..g0 }),
                queue_capacity(self.deferred_ops) == queue_capacity(g0.deferred_ops),
                out@ + queued_ops(self.deferred_ops) == q0,
            ensures
                queued_ops(self.deferred_ops).len() == 0,
                out@ == q0,
            decreases queued_ops(self.deferred_ops).len(),
        {
            let ghost q = queued_ops(self.deferred_ops);
            match queue_pop(&mut self.deferred_ops) {
                Some(op) => {
                    out.push(op);
                    assert(out@ + queued_ops(self.deferred_ops) =~= q0) by {
                        assert(q =~= seq![op] + q.drop_first());
                        assert(out@ + q.drop_first() =~= (out@.drop_last() + seq![op]) + q.drop_first());
                    }
                },
                None => {
                    assert(out@ =~= q0);
                    break;
                },
            }
        }
        out
    }

    /// Applies the queued forest changes: all merges first, then all splits,
    /// each checked against the forest as the earlier ones left it. The
    /// queue is left empty.
    pub fn apply_deferred_operations(&mut self)
        requires
            old(self).wf(),
        ensures
            final(self).wf(),
            final(self).agents@ == agents_after_splits(
                agents_after_merges(old(self).agents@, queued_ops(old(self).deferred_ops)),
                queued_ops(old(self).deferred_ops),
            ),
            queued_ops(final(self).deferred_ops).len() == 0,
            final(self).agents.len() >= old(self).agents.len(),
            *final(self) == (Grid {
                agents: final(self).agents,
                active_mask: final(self).active_mask,
                root_cache: final(self).root_cache,
                next_agent_id: final(self).next_agent_id,
                deferred_ops: final(self).deferred_ops,
                ..*old(self)
            }),
            queue_capacity(final(self).deferred_ops) == queue_capacity(old(self).deferred_ops),
            forall|i: int|
                0 <= i < old(self).agents.len() ==> #[trigger] mask_bits(final(self).active_mask)[i]
                    == mask_bits(old(self).active_mask)[i],
            forall|i: int|
                0 <= i < old(self).agents.len() ==> #[trigger] final(self).root_cache@[i]
                    == old(self).root_cache@[i],
    {
        let ops = self.drain_deferred();
        let ghost a0 = self.agents@;
        let mut k: usize = 0;
        while k < ops.len()
            invariant
                self.wf(),
                queued_ops(self.deferred_ops).len() == 0,
                self.agents.len() >= old(self).agents.len(),
                *self == (Grid {
                    agents: self.agents,
                    active_mask: self.active_mask,
                    root_cache: self.root_cache,
                    next_agent_id: self.next_agent_id,
                    deferred_ops: self.deferred_ops,
                    ..*old(self)
                }),
                queue_capacity(self.deferred_ops) == queue_capacity(old(self).deferred_ops),
                forall|i: int|
                    0 <= i < old(self).agents.len() ==> #[trigger] mask_bits(self.active_mask)[i]
                        == mask_bits(old(self).active_mask)[i],
                forall|i: int|
                    0 <= i < old(self).agents.len() ==> #[trigger] self.root_cache@[i]
                        == old(self).root_cache@[i],
                k <= ops.len(),
                self.agents@ == agents_after_merges(a0, ops@.take(k as int)),
            decreases ops.len() - k,
        {
            proof {
                assert(ops@.take(k as int + 1).drop_last() =~= ops@.take(k as int));
            }
            if let DeferredOp::Merge { agent1, agent2, new_fitness, inherit_from } = ops[k] {
                self.apply_merge(agent1, agent2, new_fitness, inherit_from);
            }
            k = k + 1;
        }
        assert(ops@.take(ops.len() as int) =~= ops@);
        let ghost a1 = self.agents@;
        let mut k: usize = 0;
        while k < ops.len()
            invariant
                self.wf(),
                queued_ops(self.deferred_ops).len() == 0,
                self.agents.len() >= old(self).agents.len(),
                *self == (Grid {
                    agents: self.agents,
                    active_mask: self.active_mask,
                    root_cache: self.root_cache,
                    next_agent_id: self.next_agent_id,
                    deferred_ops: self.deferred_ops,
                    ..*old(self)
                }),
                queue_capacity(self.deferred_ops) == queue_capacity(old(self).deferred_ops),
                forall|i: int|
                    0 <= i < old(self).agents.len() ==> #[trigger] mask_bits(self.active_mask)[i]
                        == mask_bits(old(self).active_mask)[i],
                forall|i: int|
                    0 <= i < old(self).agents.len() ==> #[trigger] self.root_cache@[i]
                        == old(self).root_cache@[i],
                k <= ops.len(),
                self.agents@ == agents_after_splits(a1, ops@.take(k as int)),
            decreases ops.len() - k,
        {
            proof {
                assert(ops@.take(k as int + 1).drop_last() =~= ops@.take(k as int));
            }
            if let DeferredOp::Split { agent, parent1, parent2 } = ops[k] {
                self.apply_split(agent, parent1, parent2);
            }
            k = k + 1;
        }
    }

    /// Runs one timestep: refresh the root cache, generate the rounds, play
    /// them, commit their updates, then apply the queued merges and splits.
    /// The pass counters record the number of rounds and updates and the time
    /// each pass took.
    pub fn step(&mut self)
        requires
            old(self).wf(),
        ensures
            final(self).wf(),
            final(self).agents.len() >= old(self).agents.len(),
            final(self).grid_width == old(self).grid_width,
            final(self).grid_height == old(self).grid_height,
            final(self).pass_stats.num_updates == 2 * final(self).pass_stats.num_interactions,
            final(self).pass_stats.num_interactions <= final(self).grid_width * final(self).grid_height,
            queued_ops(final(self).deferred_ops).len() == 0,
            exists|picks: Seq<usize>, us: Seq<StateUpdate>, table: Map<u64, [u64; 4]>|
                #[trigger] step_outcome(old(self), final(self), picks, us, table),
            *final(self) == (Grid {
                agents: final(self).agents,
                active_mask: final(self).active_mask,
                root_cache: final(self).root_cache,
                next_agent_id: final(self).next_agent_id,
                deferred_ops: final(self).deferred_ops,
                policy_table: final(self).policy_table,
                pass_stats: final(self).pass_stats,
                ..*old(self)
            }),
            forall|i: int|
                0 <= i < old(self).agents.len() ==> #[trigger] mask_bits(final(self).active_mask)[i]
                    == mask_bits(old(self).active_mask)[i],
    {
        self.pass_stats.reset();

        let start = std::time::Instant::now();
        self.update_root_cache();
        self.pass_stats.cache_update_time = start.elapsed().as_micros();

        proof {
            assert(self.root_cache@ =~= resolved_roots(self.agents@));
        }
        let start = std::time::Instant::now();
        let interactions = self.generate_interactions();
        let ghost picks = choose|p: Seq<usize>|
            p.len() == self.cells() && #[trigger] self.rounds_upto(p, self.cells() as nat)
                == interactions@;
        self.pass_stats.interaction_generation_time = start.elapsed().as_micros();
        self.pass_stats.num_interactions = interactions.len();

        let start = std::time::Instant::now();
        let updates = self.process_interactions(&interactions);
        let ghost table = self.policy_table@;
        self.pass_stats.interaction_processing_time = start.elapsed().as_micros();
        self.pass_stats.num_updates = updates.len();

        let start = std::time::Instant::now();
        proof {
            assert forall|k: int| 0 <= k < updates.len() implies #[trigger] updates@[k].agent_idx
                < self.agents.len() by {
                let q = k / 2;
                assert(0 <= q < interactions.len());
                assert(k == 2 * q || k == 2 * q + 1);
                assert(round_matches(
                    interactions@[q],
                    updates@[2 * q],
                    updates@[2 * q + 1],
                    old(self).agents@,
                    self.policy_table@,
                    old(self).alpha,
                    old(self).gamma,
                ));
            }
        }
        self.apply_state_updates(&updates);
        self.pass_stats.state_update_time = start.elapsed().as_micros();

        let start = std::time::Instant::now();
        self.apply_deferred_operations();
        self.pass_stats.deferred_op_time = start.elapsed().as_micros();
        assert(step_outcome(old(self), self, picks, updates@, table));
    }

    /// The first `count` inactive slots, in index order (fewer if there are
    /// not that many).
    pub fn find_empty_cells(&self, count: usize) -> (r: Vec<usize>)
        requires
            self.wf(),
        ensures
            r.len() <= count,
            forall|k: int|
                0 <= k < r.len() ==> (#[trigger] r@[k] as int) < self.agents.len()
                    && !mask_bits(self.active_mask)[r@[k] as int],
            forall|k: int, l: int| 0 <= k < l < r.len() ==> r@[k] < r@[l],
            r.len() < count ==> forall|i: int|
                0 <= i < self.agents.len() && !mask_bits(self.active_mask)[i] ==> r@.contains(
                    i as usize,
                ),
    {
        let n = self.active_mask.len();
        let mut out: Vec<usize> = Vec::new();
        let mut i: usize = 0;
        while i < n && out.len() < count
            invariant
                n == mask_bits(self.active_mask).len(),
                i <= n,
                out.len() <= count,
                forall|k: int|
                    0 <= k < out.len() ==> (#[trigger] out@[k] as int) < i && !mask_bits(
                        self.active_mask,
                    )[out@[k] as int],
                forall|k: int, l: int| 0 <= k < l < out.len() ==> out@[k] < out@[l],
                forall|j: int|
                    0 <= j < i && !mask_bits(self.active_mask)[j] ==> out@.contains(j as usize),
            decreases n - i,
        {
            if !mask_get(&self.active_mask, i) {
                let ghost prev = out@;
                out.push(i);
                proof {
                    assert forall|j: int|
                        0 <= j < i + 1 && !mask_bits(self.active_mask)[j] implies out@.contains(
                        j as usize,
                    ) by {
                        if j == i {
                            assert(out@[out.len() - 1] == i);
                        } else {
                            assert(prev.contains(j as usize));
                            let w = choose|w: int| 0 <= w < prev.len() && prev[w] == j as usize;
                            assert(out@[w] == prev[w]);
                        }
                    }
                }
            }
            i = i + 1;
        }
        out
    }

    /// The rounds that the first `c` cells propose, over this grid's root
    /// cache and mask.
    pub open spec fn rounds_upto(&self, picks: Seq<usize>, c: nat) -> Seq<Interaction> {
        rounds_from(
            self.grid_width as int,
            self.grid_height as int,
            mask_bits(self.active_mask),
            self.root_cache@,
            picks,
            c,
        )
    }

    /// The rounds the active cells propose, cell `k` with its neighbour
    /// number `picks[k]` (modulo its neighbour count).
    pub fn generate_interactions_with(&self, picks: &Vec<usize>) -> (r: Vec<Interaction>)
        requires
            self.wf(),
            picks@.len() == self.cells(),
        ensures
            r@ == self.rounds_upto(picks@, self.cells() as nat),
            r.len() <= self.cells(),
            forall|k: int|
                0 <= k < r.len() ==> #[trigger] r@[k].agent1_idx < self.agents.len()
                    && r@[k].agent2_idx < self.agents.len() && r@[k].agent1_idx
                    != r@[k].agent2_idx,
    {
        let n = self.grid_width * self.grid_height;
        let mut out: Vec<Interaction> = Vec::new();
        let mut nbrs: Vec<usize> = Vec::new();
        let mut c: usize = 0;
        while c < n
            invariant
                self.wf(),
                n == self.cells(),
                picks@.len() == n,
                c <= n,
                out.len() <= c,
                out@ == self.rounds_upto(picks@, c as nat),
            decreases n - c,
        {
            if mask_get(&self.active_mask, c) {
                self.get_neighbors(c, &mut nbrs);
                if nbrs.len() > 0 {
                    let opp = nbrs[picks[c] % nbrs.len()];
                    let a = self.root_cache[c];
                    let b = self.root_cache[opp];
                    if a != b {
                        out.push(Interaction { agent1_idx: a, agent2_idx: b });
                    }
                }
            }
            c = c + 1;
        }
        proof {
            self.lemma_rounds_valid(picks@, n as nat);
        }
        out
    }

    /// The rounds proposed pair distinct, existing roots, at most one per cell.
    pub proof fn lemma_rounds_valid(&self, picks: Seq<usize>, c: nat)
        requires
            self.wf(),
            c <= self.cells(),
        ensures
            self.rounds_upto(picks, c).len() <= c,
            forall|k: int|
                0 <= k < self.rounds_upto(picks, c).len() ==> #[trigger] self.rounds_upto(
                    picks,
                    c,
                )[k].agent1_idx < self.agents.len() && self.rounds_upto(picks, c)[k].agent2_idx
                    < self.agents.len() && self.rounds_upto(picks, c)[k].agent1_idx
                    != self.rounds_upto(picks, c)[k].agent2_idx,
        decreases c,
    {
        if c > 0 {
            self.lemma_rounds_valid(picks, (c - 1) as nat);
            let k = c - 1;
            let nbrs = neighbor_cells(self.grid_width as int, self.grid_height as int, k);
            let prev = self.rounds_upto(picks, (c - 1) as nat);
            let cur = self.rounds_upto(picks, c);
            if mask_bits(self.active_mask)[k] && nbrs.len() > 0 {
                let j = picks[k] as int % nbrs.len() as int;
                assert(0 <= j < nbrs.len());
                lemma_neighbors_in_grid(self.grid_width as int, self.grid_height as int, k, 8);
                assert((nbrs[j] as int) < self.cells());
                let o = nbrs[j] as int;
                assert(self.root_cache@[k] < self.agents.len());
                assert(self.root_cache@[o] < self.agents.len());
                assert forall|q: int| 0 <= q < cur.len() implies #[trigger] cur[q].agent1_idx
                    < self.agents.len() && cur[q].agent2_idx < self.agents.len()
                    && cur[q].agent1_idx != cur[q].agent2_idx by {
                    if q < prev.len() {
                        assert(cur[q] == prev[q]);
                    }
                }
            }
        }
    }

    /// One round per active cell that has a neighbour of another root: the
    /// neighbour is picked uniformly at random, and a pick of the cell's own
    /// root yields no round.
    pub fn generate_interactions(&self) -> (r: Vec<Interaction>)
        requires
            self.wf(),
        ensures
            exists|picks: Seq<usize>|
                picks.len() == self.cells() && #[trigger] self.rounds_upto(picks, self.cells() as nat)
                    == r@,
            r.len() <= self.cells(),
            forall|k: int|
                0 <= k < r.len() ==> #[trigger] r@[k].agent1_idx < self.agents.len()
                    && r@[k].agent2_idx < self.agents.len() && r@[k].agent1_idx
                    != r@[k].agent2_idx,
    {
        let n = self.grid_width * self.grid_height;
        let mut picks: Vec<usize> = Vec::new();
        let mut nbrs: Vec<usize> = Vec::new();
        let mut c: usize = 0;
        while c < n
            invariant
                self.wf(),
                n == self.cells(),
                c <= n,
                picks@.len() == c,
            decreases n - c,
        {
            self.get_neighbors(c, &mut nbrs);
            let pick = if nbrs.len() > 0 {
                random_below(nbrs.len())
            } else {
                0
            };
            picks.push(pick);
            c = c + 1;
        }
        let r = self.generate_interactions_with(&picks);
        assert(self.rounds_upto(picks@, self.cells() as nat) == r@);
        r
    }
}

fn neighbor_offset_of(k: usize) -> (r: (i64, i64))
    requires
        k < 8,
    ensures
        r.0 == neighbor_offset(k as int).0,
        r.1 == neighbor_offset(k as int).1,
{
    if k == 0 {
        (-1, -1)
    } else if k == 1 {
        (0, -1)
    } else if k == 2 {
        (1, -1)
    } else if k == 3 {
        (-1, 0)
    } else if k == 4 {
        (1, 0)
    } else if k == 5 {
        (-1, 1)
    } else if k == 6 {
        (0, 1)
    } else {
        (1, 1)
    }
}

/// The combined fitness of a merge.
pub fn combine_fitness(mode: FitnessCombine, a: u64, b: u64) -> (r: u64)
    ensures
        r == combined_fitness(mode, a, b),
{
    match mode {
        FitnessCombine::Sum => a.saturating_add(b),
        FitnessCombine::Average => ((a as u128 + b as u128) / 2) as u64,
    }
}

/// The root reached from `idx` by following child links.
pub fn resolve_root(agents: &Vec<Agent>, idx: usize) -> (r: usize)
    requires
        forest_wf(agents@),
        idx < agents.len(),
    ensures
        r == root_of(agents@, idx as int),
        r < agents.len(),
        agents@[r as int].child == NONE,
{
    let mut i = idx;
    while agents[i].child != NONE
        invariant
            forest_wf(agents@),
            i < agents.len(),
            root_of(agents@, i as int) == root_of(agents@, idx as int),
        decreases agents.len() - i,
    {
        i = agents[i].child as usize;
    }
    i
}

/// The root reached from `idx`, as an agent id.
pub fn root_id(agents: &Vec<Agent>, idx: usize) -> (r: u32)
    requires
        forest_wf(agents@),
        agents.len() <= MAX_AGENTS,
        idx < agents.len(),
    ensures
        r == root_of(agents@, idx as int),
{
    resolve_root(agents, idx) as u32
}

/// Relies on rayon: an indexed parallel map over `0..n`, gathered with
/// `collect_into_vec`, holds the closure's result for each index, in index
/// order. The closure only calls `root_id`.
#[verifier::external_body]
pub(crate) fn resolve_all_roots(agents: &Vec<Agent>) -> (r: Vec<u32>)
    requires
        forest_wf(agents@),
        agents.len() <= MAX_AGENTS,
    ensures
        r@.len() == agents@.len(),
        forall|i: int| 0 <= i < r@.len() ==> #[trigger] r@[i] == root_of(agents@, i),
{
    let mut out: Vec<u32> = Vec::new();
    (0..agents.len()).into_par_iter().map(|i| root_id(agents, i)).collect_into_vec(&mut out);
    out
}

} // verus!
