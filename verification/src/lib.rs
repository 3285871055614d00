//! A deterministic, seedable, round-based simulator for two-color ant
//! colonies on a hexagonal board, in the style of the 2004 ICFP programming
//! contest task.
//!
//! The engine advances a population of red and black ants over a rectangular
//! hex grid with odd/even row parity.  Each ant executes one instruction per
//! round (sense / mark / unmark / pick up / drop / turn / move / flip); a
//! successful move costs fourteen rounds of rest and may kill surrounded
//! ants.  All probabilistic branches are resolved by a fixed linear
//! congruential generator, so runs with equal seeds are bit-identical.

pub mod ant;
pub mod instruction;
pub mod model;
pub mod options;
pub mod parse;
pub mod simulator;
pub mod util;
pub mod world;

pub use ant::{Ant, AntColor, AntDirection};
pub use instruction::{Condition, Instruction, SenseDir, TurnDir};
pub use options::Options;
pub use simulator::{Outcome, Simulator};
pub use util::{BitField8, Rng};
pub use world::{Cell, World};
