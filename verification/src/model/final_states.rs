//! The set of accepting (final) state tags.

use vstd::laws_eq::obeys_concrete_eq;
use vstd::prelude::*;

use crate::utils::duped::{seq_has_dup, Duped};

verus! {

pub const ERR_DUPLICATE_FINAL_STATES: &'static str =
    "Final states must be a unique collection of states";

pub const ERR_EMPTY_FINAL_STATES: &'static str =
    "Final states must contain at least one state";

/// Set of final states: the tags on which an automaton reports a match.
///
/// Invariant: non-empty and duplicate-free. Whether each tag actually names a
/// state of the automaton is checked later, during transition-function
/// construction.
pub struct F<S>(Vec<S>);

impl<S> F<S> {
    /// The final-state set's invariant: non-empty, no two tags equal.
    #[verifier::type_invariant]
    pub open spec fn inv(self) -> bool {
        self@.len() > 0 && !seq_has_dup(self@)
    }

}

impl<S> View for F<S> {
    type V = Seq<S>;

    closed spec fn view(&self) -> Seq<S> {
        self.0@
    }
}

impl<S: PartialEq> F<S> {
    /// Validates a raw final-state collection: rejects an empty one and one
    /// that holds two equal tags.
    pub fn new(final_states: Vec<S>) -> (r: Result<Self, &'static str>)
        requires
            obeys_concrete_eq::<S>(),
        ensures
            final_states@.len() == 0 ==> (r matches Err(e) && e == ERR_EMPTY_FINAL_STATES),
            final_states@.len() > 0 && seq_has_dup(final_states@) ==> (r matches Err(e)
                && e == ERR_DUPLICATE_FINAL_STATES),
            final_states@.len() > 0 && !seq_has_dup(final_states@) ==> (r matches Ok(f)
                && f@ == final_states@),
    {
        if final_states.len() == 0 {
            Err(ERR_EMPTY_FINAL_STATES)
        } else if final_states.has_dupes() {
            Err(ERR_DUPLICATE_FINAL_STATES)
        } else {
            Ok(Self(final_states))
        }
    }

    /// Read-only access to the tags, in construction order.
    pub fn tags(&self) -> (r: &Vec<S>)
        ensures
            r@ == self@,
    {
        &self.0
    }

    /// Membership test: whether `tag` names a final state.
    pub fn contains(&self, tag: &S) -> (r: bool)
        requires
            obeys_concrete_eq::<S>(),
        ensures
            r == self@.contains(*tag),
    {
        proof {
            reveal(obeys_concrete_eq);
        }
        let n: usize = self.0.len();
        let mut i: usize = 0;
        while i < n
            invariant
                obeys_concrete_eq::<S>(),
                n == self@.len(),
                forall|p: int| 0 <= p < i ==> self@[p] != *tag,
            decreases n - i,
        {
            proof {
                reveal(obeys_concrete_eq);
            }
            if self.0[i] == *tag {
                return true;
            }
            i = i + 1;
        }
        false
    }
}

} // verus!
