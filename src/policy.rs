//! The policy store: learned values keyed by joint-state hash, created lazily.

use vstd::prelude::*;
use crate::agent::{CompactPolicy, INITIAL_SPREAD};

verus! {

#[verifier::external_type_specification]
#[verifier::external_body]
#[verifier::reject_recursive_types(K)]
#[verifier::reject_recursive_types(V)]
#[verifier::reject_recursive_types(S)]
pub struct ExConcurrentMap<K, V, S>(cht::HashMap<K, V, S>);

/// The entries held by a concurrent map of learned values.
pub uninterp spec fn policy_entries(m: cht::HashMap<u64, [u64; 4]>) -> Map<u64, [u64; 4]>;

/// Relies on cht::HashMap::new: a new map is empty.
#[verifier::external_body]
fn map_new() -> (r: cht::HashMap<u64, [u64; 4]>)
    ensures
        forall|k: u64| !#[trigger] policy_entries(r).contains_key(k),
{
    cht::HashMap::new()
}

/// Relies on cht::HashMap::get: a copy of the value stored under `key`, if any.
#[verifier::external_body]
fn map_get(m: &cht::HashMap<u64, [u64; 4]>, key: u64) -> (r: Option<[u64; 4]>)
    ensures
        r == (if policy_entries(*m).contains_key(key) {
            Some(policy_entries(*m)[key])
        } else {
            None
        }),
{
    m.get(&key)
}

/// Relies on cht::HashMap::insert: afterwards `key` maps to `value`, and no
/// other entry changes. The exclusive borrow rules out concurrent writers.
#[verifier::external_body]
fn map_insert(m: &mut cht::HashMap<u64, [u64; 4]>, key: u64, value: [u64; 4])
    ensures
        policy_entries(*final(m)) == policy_entries(*old(m)).insert(key, value),
{
    m.insert(key, value);
}

/// What `get_or_create(key)` returns and leaves behind: the stored vector
/// when there is one, otherwise a fresh vector of small values, now stored.
pub open spec fn get_or_create_post(
    before: Map<u64, [u64; 4]>,
    key: u64,
    r: [u64; 4],
    after: Map<u64, [u64; 4]>,
) -> bool {
    if before.contains_key(key) {
        r == before[key] && after == before
    } else {
        &&& after == before.insert(key, r)
        &&& forall|i: int| 0 <= i < 4 ==> r@[i] < INITIAL_SPREAD
    }
}

/// Shared table of learned values, keyed by joint-state hash.
pub struct PolicyTable {
    policies: cht::HashMap<u64, [u64; 4]>,
}

impl View for PolicyTable {
    type V = Map<u64, [u64; 4]>;

    closed spec fn view(&self) -> Map<u64, [u64; 4]> {
        policy_entries(self.policies)
    }
}

impl PolicyTable {
    /// An empty table. The map grows as needed; `_capacity` is a hint only.
    pub fn new(_capacity: usize) -> (r: PolicyTable)
        ensures
            forall|k: u64| !#[trigger] r@.contains_key(k),
    {
        PolicyTable { policies: map_new() }
    }

    /// The vector stored under `state_hash`, or a fresh one, stored first.
    pub fn get_or_create(&mut self, state_hash: u64) -> (r: CompactPolicy)
        ensures
            get_or_create_post(old(self)@, state_hash, r.q_values, final(self)@),
    {
        match map_get(&self.policies, state_hash) {
            Some(q) => CompactPolicy { q_values: q },
            None => {
                let p = CompactPolicy::new();
                map_insert(&mut self.policies, state_hash, p.q_values);
                p
            },
        }
    }

    /// The vector stored under `state_hash`, if any.
    pub fn lookup(&self, state_hash: u64) -> (r: Option<CompactPolicy>)
        ensures
            self@.contains_key(state_hash) ==> r == Some(
                CompactPolicy { q_values: self@[state_hash] },
            ),
            !self@.contains_key(state_hash) ==> r.is_none(),
    {
        match map_get(&self.policies, state_hash) {
            Some(q) => Some(CompactPolicy { q_values: q }),
            None => None,
        }
    }

    /// Replaces the vector stored under `state_hash`.
    pub fn update(&mut self, state_hash: u64, policy: CompactPolicy)
        ensures
            final(self)@ == old(self)@.insert(state_hash, policy.q_values),
    {
        map_insert(&mut self.policies, state_hash, policy.q_values);
    }
}

/// Calling `get_or_create` twice with one key, with no update between,
/// returns the same vector both times, and the second call changes nothing.
pub proof fn lemma_get_or_create_idempotent(
    m0: Map<u64, [u64; 4]>,
    key: u64,
    r1: [u64; 4],
    m1: Map<u64, [u64; 4]>,
    r2: [u64; 4],
    m2: Map<u64, [u64; 4]>,
)
    requires
        get_or_create_post(m0, key, r1, m1),
        get_or_create_post(m1, key, r2, m2),
    ensures
        r1 == r2,
        m2 == m1,
{
}

} // verus!
