//! Statistics about the orbits that the search met.
use crate::encoding::OrbitEncoding;
use std::collections::HashMap;
use vstd::prelude::*;

verus! {

/// How much is recorded.
#[derive(Debug, Clone, Copy, PartialEq, Eq, Structural)]
pub enum StatisticsLevel {
    Off,
    Basic,
    Full,
}

impl From<u64> for StatisticsLevel {
    fn from(level: u64) -> (r: Self) {
        if level == 0 {
            StatisticsLevel::Off
        } else if level == 1 {
            StatisticsLevel::Basic
        } else {
            StatisticsLevel::Full
        }
    }
}

impl vstd::std_specs::convert::FromSpecImpl<u64> for StatisticsLevel {
    open spec fn obeys_from_spec() -> bool {
        true
    }

    open spec fn from_spec(level: u64) -> Self {
        if level == 0 {
            StatisticsLevel::Off
        } else if level == 1 {
            StatisticsLevel::Basic
        } else {
            StatisticsLevel::Full
        }
    }
}

/// For each orbit size, how many orbits of that size were logged.
#[derive(Debug)]
pub struct OrbitStatistics {
    pub orbit_sizes: HashMap<usize, usize>,
}

impl Default for OrbitStatistics {
    fn default() -> (r: Self)
        ensures
            r.orbit_sizes@ == Map::<usize, usize>::empty(),
    {
        OrbitStatistics { orbit_sizes: HashMap::new() }
    }
}

impl OrbitStatistics {
    /// Counts one more orbit of this orbit's size.
    pub fn log_orbit(&mut self, orbit: &OrbitEncoding)
        requires
            old(self).orbit_sizes@.contains_key(orbit.1@.len() as usize) ==> old(self).orbit_sizes@[orbit.1@.len() as usize]
                < usize::MAX,
        ensures
            final(self).orbit_sizes@ == old(self).orbit_sizes@.insert(
                orbit.1@.len() as usize,
                (if old(self).orbit_sizes@.contains_key(orbit.1@.len() as usize) {
                    old(self).orbit_sizes@[orbit.1@.len() as usize] + 1
                } else {
                    1
                }) as usize,
            ),
    {
        proof {
            broadcast use vstd::std_specs::hash::group_hash_axioms;
        }
        let orbit_size = orbit.1.len();
        let current = match self.orbit_sizes.get(&orbit_size) {
            Some(number) => *number,
            None => 0,
        };
        self.orbit_sizes.insert(orbit_size, current + 1);
    }
}

} // verus!
