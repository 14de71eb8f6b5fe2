//! An engine on the field that is laid out and does nothing yet.

use vstd::prelude::*;
use std::time::Instant;
use crate::frame::field::Field;

verus! {

pub struct Vale {
    /// The field that is searched.
    pub field: Field,
    /// When the search started.
    pub ts: Instant,
    /// The time limit in milliseconds.
    pub tl: u128,
    /// Whether the search has been told to stop.
    pub abord: bool,
    /// The nodes searched.
    pub nodes: u64,
    /// The distance from the root of the search.
    pub ply: usize,
    /// The table of the principal variation.
    pub tpv: [[u32; 32]; 32],
}

impl Vale {
    /// Leaves the engine as it is.
    pub fn think(&mut self)
        ensures
            *final(self) == *old(self),
    {
    }

    /// Leaves the engine as it is.
    pub fn search(&mut self)
        ensures
            *final(self) == *old(self),
    {
    }

    /// Leaves the engine as it is.
    pub fn eval(&mut self)
        ensures
            *final(self) == *old(self),
    {
    }
}

} // verus!
