//! The weights of an evaluation by possibilities and threats.

use vstd::prelude::*;

verus! {

pub struct Weights {
    /// Above this number, lines open to a side on a small board count no more.
    pub possibility_limit: i32,
    /// What a threat on a small board counts.
    pub local_threat_mult: i32,
    /// What a small board that is won counts.
    pub local_win_mult: i32,
    /// What a line of the large board with one small board won counts.
    pub global_emerging_threat_value: i32,
    /// What a line of the large board with two small boards won counts.
    pub global_threat_value: i32,
    /// What a won game counts.
    pub soft_max: i32,
}

impl Default for Weights {
    /// The weights as they were tuned.
    fn default() -> (r: Self)
        ensures
            r.possibility_limit == 4,
            r.local_threat_mult == 5,
            r.local_win_mult == 9,
            r.global_emerging_threat_value == 2,
            r.global_threat_value == 2,
            r.soft_max == 8192,
    {
        Self {
            possibility_limit: 4,
            local_threat_mult: 5,
            local_win_mult: 9,
            global_emerging_threat_value: 2,
            global_threat_value: 2,
            soft_max: 8192,
        }
    }
}

} // verus!
