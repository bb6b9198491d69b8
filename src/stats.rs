//! Population statistics: a chunked reduction over the active roots.

use vstd::prelude::*;
use rayon::iter::{IndexedParallelIterator, ParallelIterator};
use rayon::slice::ParallelSlice;
use crate::agent::{Agent, UNIT};
use crate::grid::{Grid, resolve_all_roots, root_of};
use crate::occupancy::{mask_bits, mask_get};

verus! {

/// Counters of one simulation step.
#[derive(Debug, Clone)]
pub struct PassStatistics {
    pub num_interactions: usize,
    pub num_updates: usize,
    pub cache_update_time: u128,
    pub interaction_generation_time: u128,
    pub interaction_processing_time: u128,
    pub state_update_time: u128,
    pub deferred_op_time: u128,
}

impl PassStatistics {
    /// All counters zero.
    pub open spec fn is_zero(&self) -> bool {
        &&& self.num_interactions == 0
        &&& self.num_updates == 0
        &&& self.cache_update_time == 0
        &&& self.interaction_generation_time == 0
        &&& self.interaction_processing_time == 0
        &&& self.state_update_time == 0
        &&& self.deferred_op_time == 0
    }

    /// Counters all zero.
    pub fn zero() -> (r: PassStatistics)
        ensures
            r.is_zero(),
    {
        PassStatistics {
            num_interactions: 0,
            num_updates: 0,
            cache_update_time: 0,
            interaction_generation_time: 0,
            interaction_processing_time: 0,
            state_update_time: 0,
            deferred_op_time: 0,
        }
    }

    /// Sets every counter back to zero.
    pub fn reset(&mut self)
        ensures
            final(self).is_zero(),
    {
        *self = PassStatistics::zero();
    }
}

/// Number of roots each parallel chunk of the reduction covers.
pub const STATS_CHUNK: usize = 10_000;

/// Population totals as mathematical integers.
pub struct StatsTotals {
    pub agents: nat,
    pub fitness: nat,
    pub uni_agents: nat,
    pub multi_agents: nat,
    pub uni_fitness: nat,
    pub multi_fitness: nat,
    pub uni_coop: nat,
    pub multi_coop: nat,
}

/// Totals of an empty population.
pub open spec fn zero_totals() -> StatsTotals {
    StatsTotals {
        agents: 0,
        fitness: 0,
        uni_agents: 0,
        multi_agents: 0,
        uni_fitness: 0,
        multi_fitness: 0,
        uni_coop: 0,
        multi_coop: 0,
    }
}

/// Field-by-field sum of two totals.
pub open spec fn add_totals(s: StatsTotals, t: StatsTotals) -> StatsTotals {
    StatsTotals {
        agents: s.agents + t.agents,
        fitness: s.fitness + t.fitness,
        uni_agents: s.uni_agents + t.uni_agents,
        multi_agents: s.multi_agents + t.multi_agents,
        uni_fitness: s.uni_fitness + t.uni_fitness,
        multi_fitness: s.multi_fitness + t.multi_fitness,
        uni_coop: s.uni_coop + t.uni_coop,
        multi_coop: s.multi_coop + t.multi_coop,
    }
}

/// What one agent contributes: itself and its fitness, in its class
/// (single or part of an organism), and as a cooperator if its last action
/// was to cooperate.
pub open spec fn contribution(a: Agent) -> StatsTotals {
    let multi = a.multicellular();
    let coop = a.last_action == 0;
    StatsTotals {
        agents: 1,
        fitness: a.fitness as nat,
        uni_agents: if multi { 0 } else { 1 },
        multi_agents: if multi { 1 } else { 0 },
        uni_fitness: if multi { 0 } else { a.fitness as nat },
        multi_fitness: if multi { a.fitness as nat } else { 0 },
        uni_coop: if !multi && coop { 1 } else { 0 },
        multi_coop: if multi && coop { 1 } else { 0 },
    }
}

/// Totals over the agents at `ids`.
pub open spec fn stats_of(agents: Seq<Agent>, ids: Seq<usize>) -> StatsTotals
    decreases ids.len(),
{
    if ids.len() == 0 {
        zero_totals()
    } else {
        add_totals(stats_of(agents, ids.drop_last()), contribution(agents[ids.last() as int]))
    }
}

/// The totals of two consecutive parts add up to the totals of the whole,
/// so the chunk boundaries of a reduction do not change its result.
pub proof fn lemma_stats_concat(agents: Seq<Agent>, a: Seq<usize>, b: Seq<usize>)
    ensures
        stats_of(agents, a + b) == add_totals(stats_of(agents, a), stats_of(agents, b)),
    decreases b.len(),
{
    if b.len() == 0 {
        assert(a + b =~= a);
    } else {
        lemma_stats_concat(agents, a, b.drop_last());
        assert((a + b).drop_last() =~= a + b.drop_last());
    }
}

/// Totals over any list of agents are additive: the count is the number of
/// single agents plus the number in organisms, the fitness is the fitness of
/// the one class plus that of the other; and each count of cooperators is
/// within its class, the fitness within the largest per agent.
pub proof fn lemma_stats_additive(agents: Seq<Agent>, ids: Seq<usize>)
    ensures
        stats_of(agents, ids).agents == ids.len(),
        stats_of(agents, ids).agents == stats_of(agents, ids).uni_agents + stats_of(
            agents,
            ids,
        ).multi_agents,
        stats_of(agents, ids).fitness == stats_of(agents, ids).uni_fitness + stats_of(
            agents,
            ids,
        ).multi_fitness,
        stats_of(agents, ids).uni_coop <= stats_of(agents, ids).uni_agents,
        stats_of(agents, ids).multi_coop <= stats_of(agents, ids).multi_agents,
        stats_of(agents, ids).fitness <= ids.len() * (u64::MAX as nat),
    decreases ids.len(),
{
    if ids.len() > 0 {
        lemma_stats_additive(agents, ids.drop_last());
        let f = agents[ids.last() as int].fitness as nat;
        let p = stats_of(agents, ids.drop_last()).fitness;
        assert(p + f <= ids.len() * (u64::MAX as nat)) by (nonlinear_arith)
            requires
                p <= (ids.len() - 1) * (u64::MAX as nat),
                f <= u64::MAX as nat,
                ids.len() >= 1,
        ;
    }
}

/// Population statistics of one timestep. Fitness sums are in units of
/// `1 / UNIT`.
#[derive(Debug, Clone)]
pub struct Statistics {
    pub total_agents: usize,
    pub total_fitness: u128,
    pub unicellular_agents: usize,
    pub multicellular_agents: usize,
    pub unicellular_fitness: u128,
    pub multicellular_fitness: u128,
    pub unicellular_cooperation: usize,
    pub multicellular_cooperation: usize,
    pub pass_stats: PassStatistics,
}

impl View for Statistics {
    type V = StatsTotals;

    open spec fn view(&self) -> StatsTotals {
        StatsTotals {
            agents: self.total_agents as nat,
            fitness: self.total_fitness as nat,
            uni_agents: self.unicellular_agents as nat,
            multi_agents: self.multicellular_agents as nat,
            uni_fitness: self.unicellular_fitness as nat,
            multi_fitness: self.multicellular_fitness as nat,
            uni_coop: self.unicellular_cooperation as nat,
            multi_coop: self.multicellular_cooperation as nat,
        }
    }
}

/// `num / den` rounded down, or 0 when `den` is 0.
pub open spec fn ratio(num: nat, den: nat) -> nat {
    if den > 0 {
        num / den
    } else {
        0
    }
}

impl Statistics {
    /// Statistics of an empty population.
    pub fn zero() -> (r: Statistics)
        ensures
            r@ == zero_totals(),
            r.pass_stats.is_zero(),
    {
        Statistics {
            total_agents: 0,
            total_fitness: 0,
            unicellular_agents: 0,
            multicellular_agents: 0,
            unicellular_fitness: 0,
            multicellular_fitness: 0,
            unicellular_cooperation: 0,
            multicellular_cooperation: 0,
            pass_stats: PassStatistics::zero(),
        }
    }

    /// Average fitness per agent (0 without agents).
    pub fn avg_fitness(&self) -> (r: u128)
        ensures
            r as nat == ratio(self.total_fitness as nat, self.total_agents as nat),
    {
        if self.total_agents > 0 {
            self.total_fitness / self.total_agents as u128
        } else {
            0
        }
    }

    /// Average fitness per single agent (0 without any).
    pub fn avg_unicellular_fitness(&self) -> (r: u128)
        ensures
            r as nat == ratio(self.unicellular_fitness as nat, self.unicellular_agents as nat),
    {
        if self.unicellular_agents > 0 {
            self.unicellular_fitness / self.unicellular_agents as u128
        } else {
            0
        }
    }

    /// Average fitness per agent in an organism (0 without any).
    pub fn avg_multicellular_fitness(&self) -> (r: u128)
        ensures
            r as nat == ratio(self.multicellular_fitness as nat, self.multicellular_agents as nat),
    {
        if self.multicellular_agents > 0 {
            self.multicellular_fitness / self.multicellular_agents as u128
        } else {
            0
        }
    }

    /// Share of single agents that last cooperated, in units of `1 / UNIT`
    /// (0 without any).
    pub fn unicellular_cooperation_rate(&self) -> (r: u128)
        ensures
            r as nat == ratio(
                self.unicellular_cooperation as nat * UNIT as nat,
                self.unicellular_agents as nat,
            ),
    {
        if self.unicellular_agents > 0 {
            assert((self.unicellular_cooperation as u128) * 1_000_000 <= 0xFFFF_FFFF_FFFF_FFFF
                * 1_000_000) by (nonlinear_arith)
                requires
                    self.unicellular_cooperation <= 0xFFFF_FFFF_FFFF_FFFF,
            ;
            (self.unicellular_cooperation as u128) * (UNIT as u128) / self.unicellular_agents as u128
        } else {
            0
        }
    }

    /// Share of agents in organisms that last cooperated, in units of
    /// `1 / UNIT` (0 without any).
    pub fn multicellular_cooperation_rate(&self) -> (r: u128)
        ensures
            r as nat == ratio(
                self.multicellular_cooperation as nat * UNIT as nat,
                self.multicellular_agents as nat,
            ),
    {
        if self.multicellular_agents > 0 {
            assert((self.multicellular_cooperation as u128) * 1_000_000 <= 0xFFFF_FFFF_FFFF_FFFF
                * 1_000_000) by (nonlinear_arith)
                requires
                    self.multicellular_cooperation <= 0xFFFF_FFFF_FFFF_FFFF,
            ;
            (self.multicellular_cooperation as u128) * (UNIT as u128)
                / self.multicellular_agents as u128
        } else {
            0
        }
    }
}

/// The statistics of two parts of a population, added.
fn add_statistics(a: &Statistics, b: &Statistics, ghost_len: Ghost<nat>) -> (r: Statistics)
    requires
        a@.fitness + b@.fitness <= ghost_len@ * (u64::MAX as nat),
        ghost_len@ <= usize::MAX,
        a@.agents + b@.agents <= ghost_len@,
        a@.uni_agents + b@.uni_agents <= ghost_len@,
        a@.multi_agents + b@.multi_agents <= ghost_len@,
        a@.uni_fitness + b@.uni_fitness <= a@.fitness + b@.fitness,
        a@.multi_fitness + b@.multi_fitness <= a@.fitness + b@.fitness,
        a@.uni_coop + b@.uni_coop <= ghost_len@,
        a@.multi_coop + b@.multi_coop <= ghost_len@,
    ensures
        r@ == add_totals(a@, b@),
        r.pass_stats.is_zero(),
{
    assert(ghost_len@ * (u64::MAX as nat) < 0x1_0000_0000_0000_0000_0000_0000_0000_0000) by (nonlinear_arith)
        requires
            ghost_len@ <= usize::MAX,
            usize::MAX <= u64::MAX,
    ;
    Statistics {
        total_agents: a.total_agents + b.total_agents,
        total_fitness: a.total_fitness + b.total_fitness,
        unicellular_agents: a.unicellular_agents + b.unicellular_agents,
        multicellular_agents: a.multicellular_agents + b.multicellular_agents,
        unicellular_fitness: a.unicellular_fitness + b.unicellular_fitness,
        multicellular_fitness: a.multicellular_fitness + b.multicellular_fitness,
        unicellular_cooperation: a.unicellular_cooperation + b.unicellular_cooperation,
        multicellular_cooperation: a.multicellular_cooperation + b.multicellular_cooperation,
        pass_stats: PassStatistics::zero(),
    }
}

/// Statistics over the agents at `ids`, one after another.
pub fn chunk_statistics(agents: &Vec<Agent>, ids: &[usize]) -> (r: Statistics)
    requires
        forall|k: int| 0 <= k < ids@.len() ==> (#[trigger] ids@[k] as int) < agents.len(),
    ensures
        r@ == stats_of(agents@, ids@),
        r.pass_stats.is_zero(),
{
    let mut acc = Statistics::zero();
    let mut i: usize = 0;
    while i < ids.len()
        invariant
            i <= ids@.len(),
            forall|k: int| 0 <= k < ids@.len() ==> (#[trigger] ids@[k] as int) < agents.len(),
            acc@ == stats_of(agents@, ids@.take(i as int)),
            acc.pass_stats.is_zero(),
        decreases ids.len() - i,
    {
        let a = &agents[ids[i]];
        let multi = a.is_multicellular();
        let coop = a.last_action == 0;
        let one = Statistics {
            total_agents: 1,
            total_fitness: a.fitness as u128,
            unicellular_agents: if multi { 0 } else { 1 },
            multicellular_agents: if multi { 1 } else { 0 },
            unicellular_fitness: if multi { 0 } else { a.fitness as u128 },
            multicellular_fitness: if multi { a.fitness as u128 } else { 0 },
            unicellular_cooperation: if !multi && coop { 1 } else { 0 },
            multicellular_cooperation: if multi && coop { 1 } else { 0 },
            pass_stats: PassStatistics::zero(),
        };
        proof {
            let t = ids@.take(i as int + 1);
            assert(t.drop_last() =~= ids@.take(i as int));
            lemma_stats_additive(agents@, t);
            lemma_stats_additive(agents@, ids@.take(i as int));
        }
        acc = add_statistics(&acc, &one, Ghost((i + 1) as nat));
        i = i + 1;
    }
    assert(ids@.take(ids@.len() as int) =~= ids@);
    acc
}

/// The part of `ids` that chunk `c` of the reduction covers.
pub open spec fn chunk_of(ids: Seq<usize>, c: int) -> Seq<usize> {
    let hi = if (c + 1) * STATS_CHUNK < ids.len() {
        (c + 1) * STATS_CHUNK
    } else {
        ids.len() as int
    };
    ids.subrange(c * STATS_CHUNK, hi)
}

/// Relies on rayon: `par_chunks(n)` cuts a slice into consecutive chunks of
/// `n` items (the last one may be shorter), and an indexed parallel map
/// gathered with `collect_into_vec` holds the closure's result for each chunk,
/// in order. The closure only calls `chunk_statistics`.
#[verifier::external_body]
fn par_chunk_statistics(agents: &Vec<Agent>, ids: &Vec<usize>) -> (r: Vec<Statistics>)
    requires
        forall|k: int| 0 <= k < ids@.len() ==> (#[trigger] ids@[k] as int) < agents.len(),
    ensures
        r@.len() == (ids@.len() + STATS_CHUNK - 1) / (STATS_CHUNK as int),
        forall|c: int| 0 <= c < r@.len() ==> (#[trigger] r@[c])@ == stats_of(agents@, chunk_of(ids@, c)),
{
    let mut out: Vec<Statistics> = Vec::new();
    ids.par_chunks(STATS_CHUNK).map(|c| chunk_statistics(agents, c)).collect_into_vec(&mut out);
    out
}

/// Totals over `ids`, computed chunk by chunk in parallel and summed.
pub fn statistics_of(agents: &Vec<Agent>, ids: &Vec<usize>) -> (r: Statistics)
    requires
        forall|k: int| 0 <= k < ids@.len() ==> (#[trigger] ids@[k] as int) < agents.len(),
    ensures
        r@ == stats_of(agents@, ids@),
        r.pass_stats.is_zero(),
{
    let parts = par_chunk_statistics(agents, ids);
    let n = ids.len();
    let mut acc = Statistics::zero();
    let mut c: usize = 0;
    while c < parts.len()
        invariant
            n == ids@.len(),
            parts@.len() == (n + STATS_CHUNK - 1) / (STATS_CHUNK as int),
            forall|q: int| 0 <= q < parts@.len() ==> (#[trigger] parts@[q])@ == stats_of(agents@, chunk_of(ids@, q)),
            c <= parts@.len(),
            c * STATS_CHUNK <= n || c == parts@.len(),
            acc@ == stats_of(agents@, ids@.take(if c * STATS_CHUNK < n { c * STATS_CHUNK } else { n as int })),
            acc.pass_stats.is_zero(),
        decreases parts.len() - c,
    {
        let ghost lo: int = if c * STATS_CHUNK < n { c * STATS_CHUNK } else { n as int };
        let ghost hi: int = if (c + 1) * STATS_CHUNK < n { (c + 1) * STATS_CHUNK } else { n as int };
        proof {
            assert(c * STATS_CHUNK < n) by (nonlinear_arith)
                requires
                    c < (n + STATS_CHUNK - 1) / (STATS_CHUNK as int),
                    STATS_CHUNK == 10_000,
            ;
            assert(lo == c * STATS_CHUNK);
            assert(ids@.take(lo) + chunk_of(ids@, c as int) =~= ids@.take(hi));
            lemma_stats_concat(agents@, ids@.take(lo), chunk_of(ids@, c as int));
            lemma_stats_additive(agents@, ids@.take(hi));
            lemma_stats_additive(agents@, ids@.take(lo));
            lemma_stats_additive(agents@, chunk_of(ids@, c as int));
        }
        acc = add_statistics(&acc, &parts[c], Ghost(hi as nat));
        c = c + 1;
        proof {
            if c < parts@.len() {
                assert(c * STATS_CHUNK < n) by (nonlinear_arith)
                    requires
                        c < (n + STATS_CHUNK - 1) / (STATS_CHUNK as int),
                        STATS_CHUNK == 10_000,
                ;
                assert(hi == c * STATS_CHUNK);
            } else {
                assert(n <= c * STATS_CHUNK) by (nonlinear_arith)
                    requires
                        c == (n + STATS_CHUNK - 1) / (STATS_CHUNK as int),
                        STATS_CHUNK == 10_000,
                ;
            }
        }
    }
    proof {
        if parts@.len() == 0 {
            assert(n == 0) by (nonlinear_arith)
                requires
                    0 == (n + STATS_CHUNK - 1) / (STATS_CHUNK as int),
                    STATS_CHUNK == 10_000,
            ;
        }
        assert(ids@.take(n as int) =~= ids@);
    }
    acc
}

/// The distinct roots of the active cells among the first `k` cells, in
/// order of first appearance.
pub open spec fn active_roots_upto(g: &Grid, k: nat) -> Seq<usize>
    decreases k,
{
    if k == 0 {
        Seq::empty()
    } else {
        let prev = active_roots_upto(g, (k - 1) as nat);
        let r = root_of(g.agents@, k - 1) as usize;
        if mask_bits(g.active_mask)[k - 1] && !prev.contains(r) {
            prev.push(r)
        } else {
            prev
        }
    }
}

/// Once some active cell is among the first `k`, some root is listed.
pub proof fn lemma_active_roots_nonempty(g: &Grid, k: nat, c: int)
    requires
        0 <= c < k,
        mask_bits(g.active_mask)[c],
    ensures
        active_roots_upto(g, k).len() > 0,
    decreases k,
{
    let prev = active_roots_upto(g, (k - 1) as nat);
    if c < k - 1 {
        lemma_active_roots_nonempty(g, (k - 1) as nat, c);
    } else {
        let r = root_of(g.agents@, k - 1) as usize;
        if prev.contains(r) {
            assert(prev.len() > 0);
        }
    }
}

/// The distinct current roots of the active cells.
pub open spec fn active_roots(g: &Grid) -> Seq<usize> {
    active_roots_upto(g, g.cells() as nat)
}

impl Grid {
    /// Statistics over the current roots of the active cells, each root
    /// counted once.
    pub fn get_statistics(&self) -> (r: Statistics)
        requires
            self.wf(),
        ensures
            r@ == stats_of(self.agents@, active_roots(self)),
            r.total_agents == r.unicellular_agents + r.multicellular_agents,
            r.total_fitness == r.unicellular_fitness + r.multicellular_fitness,
            r.pass_stats.is_zero(),
            (exists|c: int| 0 <= c < self.cells() && #[trigger] mask_bits(self.active_mask)[c])
                ==> r.total_agents > 0,
    {
        let roots = resolve_all_roots(&self.agents);
        let n = self.agents.len();
        let cells = self.grid_width * self.grid_height;
        let mut seen: Vec<bool> = Vec::new();
        let mut i: usize = 0;
        while i < n
            invariant
                i <= n,
                seen@.len() == i,
                forall|x: int| 0 <= x < i ==> !#[trigger] seen@[x],
            decreases n - i,
        {
            seen.push(false);
            i = i + 1;
        }
        let mut ids: Vec<usize> = Vec::new();
        let mut c: usize = 0;
        while c < cells
            invariant
                self.wf(),
                n == self.agents.len(),
                cells == self.cells(),
                c <= cells,
                roots@.len() == n,
                forall|q: int| 0 <= q < n ==> #[trigger] roots@[q] == root_of(self.agents@, q),
                seen@.len() == n,
                ids@ == active_roots_upto(self, c as nat),
                forall|k: int| 0 <= k < ids@.len() ==> (#[trigger] ids@[k] as int) < n,
                forall|x: int| 0 <= x < n ==> (#[trigger] seen@[x] <==> ids@.contains(x as usize)),
            decreases cells - c,
        {
            if mask_get(&self.active_mask, c) {
                let r = roots[c] as usize;
                proof {
                    crate::grid::lemma_forest_acyclic(self.agents@, c as int);
                }
                if !seen[r] {
                    let ghost prev = ids@;
                    seen.set(r, true);
                    ids.push(r);
                    proof {
                        assert forall|x: int| 0 <= x < n implies (#[trigger] seen@[x] <==> ids@.contains(x as usize)) by {
                            if x == r as int {
                                assert(ids@[ids@.len() - 1] == r);
                            } else {
                                if ids@.contains(x as usize) {
                                    let w = choose|w: int| 0 <= w < ids@.len() && ids@[w] == x as usize;
                                    assert(w < prev.len());
                                    assert(prev[w] == x as usize);
                                }
                                if prev.contains(x as usize) {
                                    let w = choose|w: int| 0 <= w < prev.len() && prev[w] == x as usize;
                                    assert(ids@[w] == x as usize);
                                }
                            }
                        }
                    }
                }
            }
            c = c + 1;
        }
        let r = statistics_of(&self.agents, &ids);
        proof {
            lemma_stats_additive(self.agents@, ids@);
            if exists|c: int| 0 <= c < self.cells() && #[trigger] mask_bits(self.active_mask)[c] {
                let c = choose|c: int| 0 <= c < self.cells() && #[trigger] mask_bits(self.active_mask)[c];
                lemma_active_roots_nonempty(self, self.cells() as nat, c);
            }
        }
        r
    }
}

} // verus!
