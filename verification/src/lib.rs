//! Cellular automata driven by rulesets.
//!
//! A world is a grid of cells that wraps around at its edges. Each cell is in
//! a state, and a ruleset says by which rules a cell passes from one state to
//! the next: a rule is a list of conditions on how many neighbours of the
//! cell are in which state, written in a small language of comparisons.

use vstd::prelude::*;

pub mod cell;
pub mod census;
pub mod colour;
pub mod condition;
pub mod grammar;
pub mod neighbourhood;
pub mod random;
pub mod rule_parsing;
pub mod ruleset;
pub mod state;
pub mod text;
pub mod world;
