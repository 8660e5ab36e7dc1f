use crate::buster::BusterPart;
use vstd::prelude::*;

verus! {

/// Cap on the attack, energy and range stats.
pub const STAT_CAP: u8 = 7;

/// Cap on the rapid stat in the first game.
pub const RAPID_CAP: u8 = 4;

/// Cap on the rapid stat in the sequel.
pub const RAPID_CAP_SEQUEL: u8 = 7;

/// Scoring settings and the catalog of parts that a search runs over.
pub struct Config {
    /// With the Adapter Plug three parts can be equipped instead of two.
    pub adapter_plug: bool,
    pub attack_weight: i32,
    pub energy_weight: i32,
    pub range_weight: i32,
    pub rapid_weight: i32,
    /// In the sequel the rapid stat is capped at 7 instead of 4.
    pub sequel: bool,
    /// The parts that may be equipped, in catalog order.
    pub buster_parts: Vec<BusterPart>,
}

pub open spec fn abs(x: int) -> int {
    if x < 0 {
        -x
    } else {
        x
    }
}

fn abs_i64(x: i64) -> (r: i64)
    requires
        x > i64::MIN,
    ensures
        r == abs(x as int),
{
    if x < 0 {
        -x
    } else {
        x
    }
}

impl Config {
    pub open spec fn rapid_cap(&self) -> int {
        if self.sequel {
            RAPID_CAP_SEQUEL as int
        } else {
            RAPID_CAP as int
        }
    }

    /// The largest number of parts a layout may hold.
    pub open spec fn max_parts(&self) -> int {
        if self.adapter_plug {
            3
        } else {
            2
        }
    }

    /// The weights are small enough that the score of any capped stats fits
    /// in an `i32`.
    pub open spec fn weights_bounded(&self) -> bool {
        STAT_CAP as int * (abs(self.attack_weight as int) + abs(self.energy_weight as int)
            + abs(self.range_weight as int) + abs(self.rapid_weight as int)) <= i32::MAX as int
    }

    /// Executable test of `weights_bounded`.
    pub fn has_bounded_weights(&self) -> (r: bool)
        ensures
            r == self.weights_bounded(),
    {
        let a = abs_i64(self.attack_weight as i64);
        let e = abs_i64(self.energy_weight as i64);
        let g = abs_i64(self.range_weight as i64);
        let p = abs_i64(self.rapid_weight as i64);
        STAT_CAP as i64 * (a + e + g + p) <= i32::MAX as i64
    }
}

} // verus!
