//! Exact probability distributions of damage in dice-based combat exchanges.
//!
//! A combat is resolved by a sequence of rules (roll the attacks, hit, wound, save, turn
//! wounds into damage, ward) applied to a tree of weighted states. Every probability is
//! kept exactly, as a natural number over a power of six, so that distributions add up
//! to one without rounding.
pub mod bignat;
pub mod combat_stats;
pub mod combat_tree;
pub mod dice;
pub mod partitions;
pub mod probability;
pub mod rules;
