//! Placing the commits of a history graph from the tips of its branches up
//! through their parents.
pub mod coordinates;
