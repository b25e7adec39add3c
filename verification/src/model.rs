//! The canonical automaton model: a validated alphabet, state set, final-state
//! set and raw transition function, from which the machines in [`crate::automata`]
//! are built.

pub mod delta;
pub mod final_states;
pub mod sigma;
pub mod state;

pub use delta::Delta;
pub use final_states::F;
pub use sigma::Sigma;
pub use state::{Phase, Q, State};
