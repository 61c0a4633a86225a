use vstd::prelude::*;

use crate::{in_bounds, pos_of, COORD_LIMIT};

verus! {

/// A planning problem: the travel budget, the seed storage capacity, the
/// interaction radius of the planting tool, and the target positions.
pub struct Input {
    pub max_distance: u32,
    pub seed_capacity: u32,
    pub range: i32,
    pub seeds: Vec<[i32; 2]>,
    pub plants: Vec<[i32; 2]>,
}

/// A concrete step of a resolved plan.
#[derive(Debug, Clone, Copy, PartialEq, Eq)]
pub enum OutAction {
    Move([i32; 2]),
    Plant([i32; 2]),
    Collect,
}

impl Input {
    /// The interaction radius is usable by the geometry model.
    pub open spec fn reach_ok(&self) -> bool {
        0 <= self.range <= COORD_LIMIT
    }

    /// A planning problem that the planner accepts.
    pub open spec fn wf(&self) -> bool {
        &&& self.reach_ok()
        &&& self.seed_capacity > 0
        &&& self.max_distance < i32::MAX
        &&& forall|i: int| 0 <= i < self.plants@.len() ==> in_bounds(pos_of(#[trigger] self.plants@[i]))
        &&& forall|i: int| 0 <= i < self.seeds@.len() ==> in_bounds(pos_of(#[trigger] self.seeds@[i]))
    }
}

} // verus!
