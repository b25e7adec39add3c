//! An earlier, simpler shape of the automaton model: states carry their role
//! as an enum constructor instead of a phase field.

pub mod state;
