//! Tabular temporal-difference control: a value table over discrete states
//! and actions, an epsilon-greedy agent that learns it with on-policy
//! (SARSA) or off-policy (Q-learning) targets, and two small environments.
//!
//! All quantities that a real-valued implementation would hold as floats are
//! fixed-point integers here: a value `v` stands for `v / ONE`.

pub mod env;
pub mod fixed;
pub mod policy;
pub mod qlearning;
pub mod random;
