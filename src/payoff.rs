//! The game's payoff matrix, read as `table[my_action][opp_action]`.

use vstd::prelude::*;
use crate::agent::{Action, UNIT, action_code};

verus! {

/// Payoff in game units to the side playing `my` against `opp`.
pub open spec fn payoff_units(my: Action, opp: Action) -> nat {
    match (my, opp) {
        (Action::Cooperate, Action::Cooperate) => 8,
        (Action::Cooperate, Action::Merge) => 8,
        (Action::Defect, Action::Cooperate) => 10,
        (Action::Defect, Action::Defect) => 5,
        (Action::Defect, Action::Merge) => 10,
        (Action::Merge, Action::Cooperate) => 8,
        _ => 0,
    }
}

/// Payoff in fixed point to the side playing `my` against `opp`.
pub open spec fn payoff(my: Action, opp: Action) -> u64 {
    (payoff_units(my, opp) * UNIT as nat) as u64
}

/// The payoff matrix, one row per own action, one column per opponent action.
pub struct PayoffTable {
    table: [[u64; 4]; 4],
}

impl PayoffTable {
    /// Every entry is the payoff of its pair of actions.
    pub closed spec fn wf(&self) -> bool {
        forall|my: Action, opp: Action|
            #[trigger] self.table@[action_code(my) as int]@[action_code(opp) as int] == payoff(
                my,
                opp,
            )
    }

    /// The reference matrix: mutual cooperation 8 each, a defector against a
    /// cooperator 10 and 0, mutual defection 5 each, nothing against a split,
    /// nothing for a mutual merge, and a merge against a cooperator 8 to the
    /// merging side.
    pub fn default() -> (r: PayoffTable)
        ensures
            r.wf(),
    {
        let u = UNIT;
        let table: [[u64; 4]; 4] = [
            [8 * u, 0, 8 * u, 0],
            [10 * u, 5 * u, 10 * u, 0],
            [8 * u, 0, 0, 0],
            [0, 0, 0, 0],
        ];
        let r = PayoffTable { table };
        assert forall|my: Action, opp: Action|
            #[trigger] r.table@[action_code(my) as int]@[action_code(opp) as int] == payoff(
                my,
                opp,
            ) by {
            match my {
                Action::Cooperate => {},
                Action::Defect => {},
                Action::Merge => {},
                Action::Split => {},
            }
            match opp {
                Action::Cooperate => {},
                Action::Defect => {},
                Action::Merge => {},
                Action::Split => {},
            }
        }
        r
    }

    /// The payoff to the side playing `my_action` against `opp_action`.
    pub fn get(&self, my_action: Action, opp_action: Action) -> (r: u64)
        requires
            self.wf(),
        ensures
            r == payoff(my_action, opp_action),
    {
        self.table[my_action.code() as usize][opp_action.code() as usize]
    }
}

} // verus!
