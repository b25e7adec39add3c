//! A finite-automaton toolkit: validated deterministic and nondeterministic
//! finite automata over caller-supplied state-tag and symbol types, with a
//! step-by-step simulation engine.

pub mod automata;
pub mod deterministic;
pub mod model;
pub mod utils;
