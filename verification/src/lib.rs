//! Hierarchical operation counting for arithmetic-heavy code.
//!
//! Call sites open and close named scopes on a [`tracker::Tracker`]; every
//! counted operation is charged to the innermost open scope, and closing a
//! scope folds its counts into its parent. A summary of everything counted
//! so far can be taken at any time without disturbing the open scopes.

pub mod render;
pub mod report;
pub mod trace;
pub mod tracker;
