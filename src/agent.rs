//! Agents, their actions, and the packed memory of recent action pairs.

use rand::Rng;
use vstd::prelude::*;
use vstd::arithmetic::div_mod::lemma_fundamental_div_mod_converse;

verus! {

/// One game unit in the fixed-point representation of fitness and values.
pub const UNIT: u64 = 1_000_000;

/// Sentinel for an absent parent or child reference.
pub const NONE: u32 = 0xFFFF_FFFF;

/// The longest memory an agent may keep, in action pairs.
pub const MAX_MEMORY: u8 = 5;

/// Actions that agents can take.
#[derive(Debug, Clone, Copy, PartialEq, Eq, Structural)]
pub enum Action {
    Cooperate,
    Defect,
    Merge,
    Split,
}

/// The two-bit code of an action.
pub open spec fn action_code(a: Action) -> nat {
    match a {
        Action::Cooperate => 0,
        Action::Defect => 1,
        Action::Merge => 2,
        Action::Split => 3,
    }
}

/// The action whose code is the low two bits of `v`.
pub open spec fn action_of(v: nat) -> Action {
    let c = v % 4;
    if c == 0 {
        Action::Cooperate
    } else if c == 1 {
        Action::Defect
    } else if c == 2 {
        Action::Merge
    } else {
        Action::Split
    }
}

impl Action {
    /// The action encoded in the low two bits of `val`.
    pub fn from_u8(val: u8) -> (r: Action)
        ensures
            r == action_of(val as nat),
            action_code(r) == val as nat % 4,
    {
        let c: u8 = val % 4;
        if c == 0 {
            Action::Cooperate
        } else if c == 1 {
            Action::Defect
        } else if c == 2 {
            Action::Merge
        } else {
            Action::Split
        }
    }

    /// The two-bit code of this action.
    pub fn code(&self) -> (r: u8)
        ensures
            r as nat == action_code(*self),
    {
        match self {
            Action::Cooperate => 0,
            Action::Defect => 1,
            Action::Merge => 2,
            Action::Split => 3,
        }
    }
}

/// `16^n`: the number of distinct memories of `n` action pairs.
pub open spec fn pow16(n: nat) -> nat
    decreases n,
{
    if n == 0 {
        1
    } else {
        16 * pow16((n - 1) as nat)
    }
}

/// The four-bit code of an action pair: own action in the high two bits.
pub open spec fn pair_code(own: Action, opp: Action) -> nat {
    4 * action_code(own) + action_code(opp)
}

/// Memory after appending one pair: shift left by four bits, insert the pair
/// in the low bits, keep the lowest `4 * len` bits.
pub open spec fn memory_after(bits: nat, len: nat, own: Action, opp: Action) -> nat {
    (bits * 16 + pair_code(own, opp)) % pow16(len)
}

/// The packed memory of a history of pairs (oldest first): the `k` most recent
/// pairs, the newest in the lowest four bits.
pub open spec fn packed_history(h: Seq<(Action, Action)>, k: nat) -> nat
    decreases h.len(),
{
    if k == 0 || h.len() == 0 {
        0
    } else {
        pair_code(h.last().0, h.last().1) + 16 * packed_history(h.drop_last(), (k - 1) as nat)
    }
}

/// Joint-state key: own length in bits 56.., opponent length in bits 48..,
/// own masked memory (at most 20 bits) in bits 24..44, opponent masked memory
/// in bits 0..20. The four fields do not overlap.
pub open spec fn joint_hash(len: u8, bits: u32, opp_len: u8, opp_bits: u32) -> u64 {
    let mine = (bits as nat % pow16(len as nat)) as u64;
    let theirs = (opp_bits as nat % pow16(opp_len as nat)) as u64;
    ((len as u64) << 56u64) | ((opp_len as u64) << 48u64) | (mine << 24u64) | theirs
}

/// `16^len` for the lengths an agent may have.
pub fn memory_modulus(len: u8) -> (r: u32)
    requires
        len <= MAX_MEMORY,
    ensures
        r as nat == pow16(len as nat),
        1 <= r <= 0x10_0000,
{
    proof {
        lemma_pow16_table();
    }
    if len == 0 {
        1
    } else if len == 1 {
        16
    } else if len == 2 {
        256
    } else if len == 3 {
        4096
    } else if len == 4 {
        65536
    } else {
        1048576
    }
}

/// Relies on rand::random: a value drawn from the thread-local generator.
/// Nothing is promised of the value.
pub assume_specification<T>[ rand::random::<T> ]() -> (r: T)
    where
        rand::distributions::Standard: rand::distributions::Distribution<T>,
;

/// One agent record: fitness, packed memory, organism links, learned values.
#[derive(Debug, Clone, Copy)]
pub struct Agent {
    /// Accumulated payoff, in units of `1 / UNIT`.
    pub fitness: u64,
    /// Recent action pairs, four bits each, newest in the low bits.
    pub memory_bits: u32,
    /// How many recent pairs are kept (1 to 5).
    pub mem_length: u8,
    /// Code of the last action taken.
    pub last_action: u8,
    /// First parent (`NONE` if none).
    pub parent_1: u32,
    /// Second parent (`NONE` if none).
    pub parent_2: u32,
    /// The merged agent this one became part of (`NONE` while a root).
    pub child: u32,
    /// Merge generation counter.
    pub generation: u32,
    /// Cached learned values for the four actions, in units of `1 / UNIT`.
    pub q_values: [u64; 4],
    /// Key of the joint state the cached values belong to.
    pub policy_hash: u64,
    /// Exploration rate, in units of `1 / UNIT`.
    pub epsilon: u64,
}

/// Fitness a fresh agent starts with: a thousandth of a game unit.
pub const INITIAL_FITNESS: u64 = 1_000;

/// Initial cached value of each action: a tenth of a game unit.
pub const INITIAL_VALUE: u64 = 100_000;

/// Default exploration rate: a tenth.
pub const DEFAULT_EPSILON: u64 = 100_000;

/// Memory length that a draw `d` selects: 1 to 5.
pub open spec fn memory_length_of(d: u8) -> u8 {
    (d % 5 + 1) as u8
}

impl Agent {
    /// The agent is well formed: its memory length is at most five and its
    /// memory holds no bits beyond that length.
    pub open spec fn wf(&self) -> bool {
        &&& self.mem_length <= MAX_MEMORY
        &&& (self.memory_bits as nat) < pow16(self.mem_length as nat)
    }

    /// A fresh agent: single (no parents, no child, generation 0), starting
    /// fitness, empty memory of 1 to 5 pairs, last action cooperate, default
    /// cached values and exploration rate.
    pub open spec fn is_fresh(&self) -> bool {
        &&& self.fitness == INITIAL_FITNESS
        &&& self.memory_bits == 0
        &&& 1 <= self.mem_length <= MAX_MEMORY
        &&& self.last_action == 0
        &&& self.parent_1 == NONE
        &&& self.parent_2 == NONE
        &&& self.child == NONE
        &&& self.generation == 0
        &&& self.q_values@ == seq![INITIAL_VALUE; 4]
        &&& self.policy_hash == 0
        &&& self.epsilon == DEFAULT_EPSILON
    }

    /// A fresh, single agent whose memory length is chosen by `draw`.
    pub fn from_draw(draw: u8) -> (r: Agent)
        ensures
            r.fitness == INITIAL_FITNESS,
            r.memory_bits == 0,
            r.mem_length == memory_length_of(draw),
            r.last_action == 0,
            r.parent_1 == NONE,
            r.parent_2 == NONE,
            r.child == NONE,
            r.generation == 0,
            r.q_values@ == seq![INITIAL_VALUE; 4],
            r.policy_hash == 0,
            r.epsilon == DEFAULT_EPSILON,
            r.wf(),
            r.is_fresh(),
            1 <= r.mem_length <= MAX_MEMORY,
    {
        let len: u8 = draw % 5 + 1;
        assert(pow16(len as nat) >= 1) by {
            lemma_pow16_positive(len as nat);
        }
        let r = Agent {
            fitness: INITIAL_FITNESS,
            memory_bits: 0,
            mem_length: len,
            last_action: 0,
            parent_1: NONE,
            parent_2: NONE,
            child: NONE,
            generation: 0,
            q_values: [INITIAL_VALUE; 4],
            policy_hash: 0,
            epsilon: DEFAULT_EPSILON,
        };
        assert(r.q_values@ =~= seq![INITIAL_VALUE; 4]);
        r
    }

    /// A fresh, single agent with a memory length of 1 to 5 chosen at random.
    pub fn new(_id: u32) -> (r: Agent)
        ensures
            r.is_fresh(),
            r.wf(),
            !r.multicellular(),
    {
        let draw: u8 = rand::random::<u8>();
        Agent::from_draw(draw)
    }

    /// Appends the pair (`my_action`, `opp_action`) to memory, discarding the
    /// oldest pair once `mem_length` pairs are held. An agent with no memory
    /// is left as it is.
    pub fn add_to_memory(&mut self, my_action: Action, opp_action: Action)
        requires
            old(self).mem_length <= MAX_MEMORY,
        ensures
            *final(self) == (Agent {
                memory_bits: if old(self).mem_length == 0 {
                    old(self).memory_bits
                } else {
                    memory_after(
                        old(self).memory_bits as nat,
                        old(self).mem_length as nat,
                        my_action,
                        opp_action,
                    ) as u32
                },
                ..*old(self)
            }),
            old(self).mem_length > 0 ==> (final(self).memory_bits as nat) < pow16(
                old(self).mem_length as nat,
            ),
    {
        if self.mem_length == 0 {
            return;
        }
        let m: u32 = memory_modulus(self.mem_length);
        let v: u64 = (self.memory_bits as u64) * 16 + (my_action.code() as u64) * 4
            + opp_action.code() as u64;
        let r: u64 = v % (m as u64);
        self.memory_bits = r as u32;
    }

    /// The key of the joint state "my memory against the opponent's memory".
    pub fn get_memory_hash(&self, opp_memory: u32, opp_mem_length: u8) -> (r: u64)
        requires
            self.mem_length <= MAX_MEMORY,
            opp_mem_length <= MAX_MEMORY,
        ensures
            r == joint_hash(self.mem_length, self.memory_bits, opp_mem_length, opp_memory),
    {
        let mine: u32 = self.memory_bits % memory_modulus(self.mem_length);
        let theirs: u32 = opp_memory % memory_modulus(opp_mem_length);
        ((self.mem_length as u64) << 56u64) | ((opp_mem_length as u64) << 48u64) | ((
        mine as u64) << 24u64) | (theirs as u64)
    }

    /// The agent is part of a multi-agent organism: it has merged into a child,
    /// or was itself made by a merge.
    pub open spec fn multicellular(&self) -> bool {
        self.child != NONE || (self.parent_1 != NONE && self.parent_2 != NONE)
    }

    /// Whether the agent is part of a multi-agent organism.
    pub fn is_multicellular(&self) -> (r: bool)
        ensures
            r == self.multicellular(),
    {
        self.child != NONE || (self.parent_1 != NONE && self.parent_2 != NONE)
    }

    /// Size of the agent's organism, approximated by its merge generation
    /// (saturating at the largest `u32`).
    pub open spec fn organism_size(&self) -> u32 {
        if !self.multicellular() {
            1
        } else if self.generation < NONE {
            (self.generation + 1) as u32
        } else {
            NONE
        }
    }

    /// Size of the agent's organism: 1 for a single agent, otherwise one
    /// more than its merge generation (saturating at the largest `u32`).
    pub fn get_organism_size(&self) -> (r: u32)
        ensures
            r == self.organism_size(),
    {
        if !self.is_multicellular() {
            1
        } else {
            self.generation.saturating_add(1)
        }
    }
}

/// `16^n` for the lengths an agent may have.
pub proof fn lemma_pow16_table()
    ensures
        pow16(0) == 1,
        pow16(1) == 16,
        pow16(2) == 256,
        pow16(3) == 4096,
        pow16(4) == 65536,
        pow16(5) == 1048576,
{
    assert(pow16(0) == 1);
    assert(pow16(1) == 16);
    assert(pow16(2) == 256);
    assert(pow16(3) == 4096);
    assert(pow16(4) == 65536);
    assert(pow16(5) == 1048576);
}

/// `16^n` is positive.
pub proof fn lemma_pow16_positive(n: nat)
    ensures
        pow16(n) >= 1,
    decreases n,
{
    if n > 0 {
        lemma_pow16_positive((n - 1) as nat);
    }
}

/// Dropping the high digit of a base-16 number: for `c < 16`,
/// `(16 x + c) mod 16 m == 16 (x mod m) + c`.
proof fn lemma_shift_mod(x: nat, c: nat, m: nat)
    requires
        c < 16,
        m >= 1,
    ensures
        (x * 16 + c) % (16 * m) == 16 * (x % m) + c,
{
    let q = x / m;
    let r = x % m;
    assert(x == q * m + r && r < m) by (nonlinear_arith)
        requires
            m >= 1,
            q == x / m,
            r == x % m,
    ;
    assert(x * 16 + c == q * (16 * m) + (16 * r + c)) by (nonlinear_arith)
        requires
            x == q * m + r,
    ;
    assert(16 * r + c < 16 * m) by (nonlinear_arith)
        requires
            r < m,
            c < 16,
    ;
    lemma_fundamental_div_mod_converse(
        (x * 16 + c) as int,
        (16 * m) as int,
        q as int,
        (16 * r + c) as int,
    );
}

/// A packed history of `k` pairs is below `16^k`, and keeping one pair fewer
/// is the same as truncating it.
proof fn lemma_packed_truncate(h: Seq<(Action, Action)>, k: nat)
    requires
        k >= 1,
    ensures
        packed_history(h, k) < pow16(k),
        packed_history(h, (k - 1) as nat) == packed_history(h, k) % pow16((k - 1) as nat),
    decreases h.len(),
{
    lemma_pow16_positive((k - 1) as nat);
    if h.len() == 0 {
        assert(packed_history(h, k) == 0);
        assert(packed_history(h, (k - 1) as nat) == 0);
        assert(0nat % pow16((k - 1) as nat) == 0) by (nonlinear_arith)
            requires
                pow16((k - 1) as nat) >= 1,
        ;
    } else if k == 1 {
        let c = pair_code(h.last().0, h.last().1);
        assert(packed_history(h.drop_last(), 0) == 0);
        assert(packed_history(h, 1) == c);
        assert(pow16(1) == 16) by {
            assert(pow16(0) == 1);
        }
        assert(packed_history(h, 0) == 0);
        assert(c % 1 == 0);
    } else {
        let t = h.drop_last();
        let c = pair_code(h.last().0, h.last().1);
        let k1 = (k - 1) as nat;
        lemma_packed_truncate(t, k1);
        let y = packed_history(t, k1);
        assert(y < pow16(k1));
        assert(packed_history(h, k) == c + 16 * y);
        assert(packed_history(h, k) < pow16(k)) by (nonlinear_arith)
            requires
                packed_history(h, k) == c + 16 * y,
                y < pow16(k1),
                c < 16,
                pow16(k) == 16 * pow16(k1),
        ;
        let k2 = (k1 - 1) as nat;
        assert(packed_history(t, k2) == y % pow16(k2));
        assert(packed_history(h, k1) == c + 16 * packed_history(t, k2));
        lemma_pow16_positive(k2);
        lemma_shift_mod(y, c, pow16(k2));
        assert(pow16(k1) == 16 * pow16(k2));
        assert(y * 16 + c == c + 16 * y);
    }
}

/// Memory after appending each pair of `h` in turn, starting from `bits`.
pub open spec fn memory_after_all(bits: nat, len: nat, h: Seq<(Action, Action)>) -> nat
    decreases h.len(),
{
    if h.len() == 0 {
        bits
    } else {
        memory_after(memory_after_all(bits, len, h.drop_last()), len, h.last().0, h.last().1)
    }
}

/// Pushing a sequence of action pairs into an empty memory of length `len`
/// (1 to 5), one `add_to_memory` at a time, leaves the concatenation of the
/// pairs' codes truncated to the `len` most recent, the newest in the lowest
/// four bits.
pub proof fn lemma_memory_packing(h: Seq<(Action, Action)>, len: nat)
    requires
        1 <= len <= MAX_MEMORY,
    ensures
        memory_after_all(0, len, h) == packed_history(h, len),
        packed_history(h, len) < pow16(len),
    decreases h.len(),
{
    lemma_packed_truncate(h, len);
    if h.len() > 0 {
        let t = h.drop_last();
        let p = h.last();
        lemma_memory_packing(t, len);
        let y = packed_history(t, len);
        let c = pair_code(p.0, p.1);
        let k1 = (len - 1) as nat;
        lemma_packed_truncate(t, len);
        lemma_pow16_positive(k1);
        lemma_shift_mod(y, c, pow16(k1));
        assert(pow16(len) == 16 * pow16(k1));
        assert(packed_history(h, len) == c + 16 * packed_history(t, k1));
        assert(y * 16 + c == c + 16 * y);
    }
}

/// The bit layout of a joint-state key keeps its four parts apart.
proof fn lemma_hash_fields(l1: u64, l2: u64, x1: u64, x2: u64, m1: u64, m2: u64, y1: u64, y2: u64)
    requires
        l1 < 256,
        l2 < 256,
        m1 < 256,
        m2 < 256,
        x1 < 0x10_0000,
        x2 < 0x10_0000,
        y1 < 0x10_0000,
        y2 < 0x10_0000,
        (l1 << 56u64) | (l2 << 48u64) | (x1 << 24u64) | x2 == (m1 << 56u64) | (m2 << 48u64) | (
        y1 << 24u64) | y2,
    ensures
        l1 == m1,
        l2 == m2,
        x1 == y1,
        x2 == y2,
{
    assert(l1 == m1 && l2 == m2 && x1 == y1 && x2 == y2) by (bit_vector)
        requires
            l1 < 256,
            l2 < 256,
            m1 < 256,
            m2 < 256,
            x1 < 0x10_0000,
            x2 < 0x10_0000,
            y1 < 0x10_0000,
            y2 < 0x10_0000,
            (l1 << 56u64) | (l2 << 48u64) | (x1 << 24u64) | x2 == (m1 << 56u64) | (m2 << 48u64)
                | (y1 << 24u64) | y2,
    ;
}

/// A memory with no bits beyond its length is its own masked value.
proof fn lemma_masked_memory(len: u8, bits: u32)
    requires
        len <= MAX_MEMORY,
        (bits as nat) < pow16(len as nat),
    ensures
        bits as nat % pow16(len as nat) == bits as nat,
        pow16(len as nat) <= 0x10_0000,
{
    lemma_pow16_table();
    assert(bits as nat % pow16(len as nat) == bits as nat) by (nonlinear_arith)
        requires
            (bits as nat) < pow16(len as nat),
    ;
}

/// Distinct joint states get distinct keys: for well-formed memories (length
/// at most five, no bits beyond it), two keys are equal only when both
/// lengths and both memories are.
pub proof fn lemma_hash_injective(
    l1: u8,
    b1: u32,
    l2: u8,
    b2: u32,
    m1: u8,
    c1: u32,
    m2: u8,
    c2: u32,
)
    requires
        l1 <= MAX_MEMORY,
        l2 <= MAX_MEMORY,
        m1 <= MAX_MEMORY,
        m2 <= MAX_MEMORY,
        (b1 as nat) < pow16(l1 as nat),
        (b2 as nat) < pow16(l2 as nat),
        (c1 as nat) < pow16(m1 as nat),
        (c2 as nat) < pow16(m2 as nat),
        joint_hash(l1, b1, l2, b2) == joint_hash(m1, c1, m2, c2),
    ensures
        l1 == m1,
        b1 == c1,
        l2 == m2,
        b2 == c2,
{
    lemma_masked_memory(l1, b1);
    lemma_masked_memory(l2, b2);
    lemma_masked_memory(m1, c1);
    lemma_masked_memory(m2, c2);
    lemma_hash_fields(
        l1 as u64,
        l2 as u64,
        b1 as u64,
        b2 as u64,
        m1 as u64,
        m2 as u64,
        c1 as u64,
        c2 as u64,
    );
}

/// The joint-state key is not symmetric: for two well-formed memories
/// (length at most five, no bits beyond it) that differ, the key seen from one
/// side differs from the key seen from the other.
pub proof fn lemma_hash_asymmetry(l1: u8, b1: u32, l2: u8, b2: u32)
    requires
        l1 <= MAX_MEMORY,
        l2 <= MAX_MEMORY,
        (b1 as nat) < pow16(l1 as nat),
        (b2 as nat) < pow16(l2 as nat),
        (l1, b1) != (l2, b2),
    ensures
        joint_hash(l1, b1, l2, b2) != joint_hash(l2, b2, l1, b1),
{
    if joint_hash(l1, b1, l2, b2) == joint_hash(l2, b2, l1, b1) {
        lemma_hash_injective(l1, b1, l2, b2, l2, b2, l1, b1);
    }
}

/// Relies on rand::thread_rng and Rng::gen_range: a value drawn uniformly
/// from `0..n`. gen_range panics on an empty range, hence `n > 0`.
#[verifier::external_body]
pub(crate) fn random_below(n: usize) -> (r: usize)
    requires
        n > 0,
    ensures
        r < n,
{
    rand::thread_rng().gen_range(0..n)
}

/// Initial learned values are drawn from `0..INITIAL_SPREAD`: below a tenth.
pub const INITIAL_SPREAD: u64 = 100_000;

/// `i` is the greedy choice among `q`: a largest value, and the first one.
pub open spec fn is_greedy(q: Seq<u64>, i: int) -> bool {
    &&& 0 <= i < q.len()
    &&& forall|j: int| 0 <= j < q.len() ==> q[j] <= q[i]
    &&& forall|j: int| 0 <= j < i ==> q[j] < q[i]
}

/// The largest of the four values.
pub open spec fn max_of(q: Seq<u64>) -> u64 {
    let a = if q[0] >= q[1] { q[0] } else { q[1] };
    let b = if q[2] >= q[3] { q[2] } else { q[3] };
    if a >= b { a } else { b }
}

/// Bootstrapped target of a temporal-difference step:
/// `reward + gamma * next_max`, in fixed point (rounded down).
pub open spec fn td_target(reward: nat, next_max: nat, gamma: nat) -> nat {
    reward + gamma * next_max / (UNIT as nat)
}

/// One temporal-difference step `old + alpha * (target - old)` in fixed
/// point: the step towards the target is rounded towards `old`, and the
/// result saturates at the largest `u64`.
pub open spec fn td_value(old: nat, reward: nat, next_max: nat, alpha: nat, gamma: nat) -> nat {
    let t = td_target(reward, next_max, gamma);
    let v: nat = if t >= old {
        old + alpha * ((t - old) as nat) / (UNIT as nat)
    } else {
        (old - alpha * ((old - t) as nat) / (UNIT as nat)) as nat
    };
    if v > u64::MAX as nat {
        u64::MAX as nat
    } else {
        v
    }
}

/// The values after updating the entry of `action` by one temporal-difference step.
pub open spec fn td_values(
    q: Seq<u64>,
    action: Action,
    reward: u64,
    next_max: u64,
    alpha: u64,
    gamma: u64,
) -> Seq<u64> {
    let i = action_code(action) as int;
    q.update(
        i,
        td_value(q[i] as nat, reward as nat, next_max as nat, alpha as nat, gamma as nat) as u64,
    )
}

/// A learned value for each of the four actions, in units of `1 / UNIT`.
#[derive(Debug, Clone, Copy)]
pub struct CompactPolicy {
    pub q_values: [u64; 4],
}

impl CompactPolicy {
    /// Values drawn at random, each below `INITIAL_SPREAD`.
    pub fn new() -> (r: CompactPolicy)
        ensures
            forall|i: int| 0 <= i < 4 ==> r.q_values@[i] < INITIAL_SPREAD,
    {
        let a = random_below(INITIAL_SPREAD as usize) as u64;
        let b = random_below(INITIAL_SPREAD as usize) as u64;
        let c = random_below(INITIAL_SPREAD as usize) as u64;
        let d = random_below(INITIAL_SPREAD as usize) as u64;
        CompactPolicy { q_values: [a, b, c, d] }
    }

    /// The greedy action: the first of the largest values.
    pub fn greedy_action(&self) -> (r: Action)
        ensures
            is_greedy(self.q_values@, action_code(r) as int),
    {
        let q = &self.q_values;
        let mut best: usize = 0;
        let mut i: usize = 1;
        while i < 4
            invariant
                1 <= i <= 4,
                best < i,
                forall|j: int| 0 <= j < i ==> q@[j] <= q@[best as int],
                forall|j: int| 0 <= j < best ==> q@[j] < q@[best as int],
            decreases 4 - i,
        {
            if q[i] > q[best] {
                best = i;
            }
            i = i + 1;
        }
        Action::from_u8(best as u8)
    }

    /// Epsilon-greedy choice from given draws: when `explore_draw` is below
    /// `epsilon` the action coded by the low bits of `random_bits`, otherwise
    /// the greedy action.
    pub fn choose_action(&self, epsilon: u64, explore_draw: u64, random_bits: u8) -> (r: Action)
        ensures
            explore_draw < epsilon ==> r == action_of(random_bits as nat),
            explore_draw >= epsilon ==> is_greedy(self.q_values@, action_code(r) as int),
    {
        if explore_draw < epsilon {
            Action::from_u8(random_bits)
        } else {
            self.greedy_action()
        }
    }

    /// Epsilon-greedy choice: with probability `epsilon / UNIT` a uniformly
    /// random action, otherwise the greedy one.
    pub fn get_action(&self, epsilon: u64) -> (r: Action)
        ensures
            epsilon == 0 ==> is_greedy(self.q_values@, action_code(r) as int),
    {
        let draw = random_below(UNIT as usize) as u64;
        let bits: u8 = rand::random::<u8>();
        self.choose_action(epsilon, draw, bits)
    }

    /// The largest of the four values.
    pub fn max_value(&self) -> (r: u64)
        ensures
            r == max_of(self.q_values@),
    {
        let a = if self.q_values[0] >= self.q_values[1] {
            self.q_values[0]
        } else {
            self.q_values[1]
        };
        let b = if self.q_values[2] >= self.q_values[3] {
            self.q_values[2]
        } else {
            self.q_values[3]
        };
        if a >= b {
            a
        } else {
            b
        }
    }

    /// The values after one temporal-difference step on `action`.
    pub fn calculate_updated_q_values(
        &self,
        action: Action,
        reward: u64,
        next_max_q: u64,
        alpha: u64,
        gamma: u64,
    ) -> (r: [u64; 4])
        requires
            alpha <= UNIT,
            gamma <= UNIT,
        ensures
            r@ == td_values(self.q_values@, action, reward, next_max_q, alpha, gamma),
    {
        let mut q = self.q_values;
        let i = action.code() as usize;
        q[i] = td_step(q[i], reward, next_max_q, alpha, gamma);
        q
    }

    /// Updates the value of `action` by one temporal-difference step.
    pub fn update(&mut self, action: Action, reward: u64, next_max_q: u64, alpha: u64, gamma: u64)
        requires
            alpha <= UNIT,
            gamma <= UNIT,
        ensures
            final(self).q_values@ == td_values(
                old(self).q_values@,
                action,
                reward,
                next_max_q,
                alpha,
                gamma,
            ),
    {
        self.q_values = self.calculate_updated_q_values(action, reward, next_max_q, alpha, gamma);
    }
}

/// One temporal-difference step on a single value.
pub fn td_step(old: u64, reward: u64, next_max: u64, alpha: u64, gamma: u64) -> (r: u64)
    requires
        alpha <= UNIT,
        gamma <= UNIT,
    ensures
        r as nat == td_value(old as nat, reward as nat, next_max as nat, alpha as nat, gamma as nat),
{
    let u: u128 = UNIT as u128;
    assert((gamma as u128) * (next_max as u128) <= 1_000_000 * 0xFFFF_FFFF_FFFF_FFFF)
        by (nonlinear_arith)
        requires
            gamma <= 1_000_000,
            next_max <= 0xFFFF_FFFF_FFFF_FFFF,
    ;
    let g: u128 = (gamma as u128) * (next_max as u128) / u;
    assert(g <= next_max) by (nonlinear_arith)
        requires
            g == (gamma as u128) * (next_max as u128) / 1_000_000,
            gamma <= 1_000_000,
    ;
    let t: u128 = reward as u128 + g;
    let o: u128 = old as u128;
    let v: u128 = if t >= o {
        let d: u128 = t - o;
        assert((alpha as u128) * d <= 1_000_000 * 0x2_0000_0000_0000_0000) by (nonlinear_arith)
            requires
                alpha <= 1_000_000,
                d <= 0x2_0000_0000_0000_0000,
        ;
        o + (alpha as u128) * d / u
    } else {
        let d: u128 = o - t;
        assert((alpha as u128) * d <= 1_000_000 * 0xFFFF_FFFF_FFFF_FFFF) by (nonlinear_arith)
            requires
                alpha <= 1_000_000,
                d <= 0xFFFF_FFFF_FFFF_FFFF,
        ;
        let s: u128 = (alpha as u128) * d / u;
        assert(s <= d) by (nonlinear_arith)
            requires
                s == (alpha as u128) * d / 1_000_000,
                alpha <= 1_000_000,
        ;
        o - s
    };
    if v > 0xFFFF_FFFF_FFFF_FFFF {
        0xFFFF_FFFF_FFFF_FFFF
    } else {
        v as u64
    }
}

/// Changes to the organism forest, queued while interactions are evaluated
/// and applied once all of them are done.
#[derive(Debug, Clone, Copy, PartialEq, Eq, Structural)]
pub enum DeferredOp {
    /// Fuse two roots into a new agent cloned from `inherit_from`.
    Merge { agent1: u32, agent2: u32, new_fitness: u64, inherit_from: u32 },
    /// Separate the merged `agent` back into its two parents.
    Split { agent: u32, parent1: u32, parent2: u32 },
}

} // verus!
