//! The field: the board under the rule that a small board stays open to
//! play while it has an empty cell, with the move kept inside the history.

pub mod field;
pub mod lookups;
