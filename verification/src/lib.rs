//! Solvers for a set of small text-puzzle problems.
//!
//! The heart of the crate is a pair of cellular-automaton engines: a
//! two-dimensional seat-occupancy simulation ([`seating`]) and a
//! three-dimensional cube-life simulation ([`cubes`]), both of which step a
//! grid of cell states under a local neighbor-counting rule until a fixed
//! point or a step budget is reached. Around them stand the remaining
//! solvers: navigation ([`navigation`]), a card game ([`cards`]), a toy
//! machine interpreter ([`instructions`]), record validation
//! ([`passports`]), answer tallying ([`answers`]), graph reachability
//! ([`bags`]), slope counting ([`trees`]), a spoken-number game
//! ([`memory`]) and adapter-chain statistics ([`joltage`]), with the
//! shared text utilities in [`parse`].

pub mod answers;
pub mod bags;
pub mod cards;
pub mod cubes;
pub mod instructions;
pub mod joltage;
pub mod memory;
pub mod navigation;
pub mod parse;
pub mod passports;
pub mod seating;
pub mod trees;

