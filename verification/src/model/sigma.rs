//! The alphabet: the set of all symbols an automaton accepts as input.

use vstd::laws_eq::obeys_concrete_eq;
use vstd::prelude::*;

use crate::utils::duped::{seq_has_dup, Duped};

verus! {

pub const ERR_DUPLICATE_ALPHABET: &'static str =
    "Alphabet must be a unique collection of symbols";

pub const ERR_EMPTY_ALPHABET: &'static str = "Alphabet must contain at least one symbol";

/// Alphabet: the set of all possible input symbols.
///
/// Invariant: non-empty and duplicate-free.
pub struct Sigma<A>(Vec<A>);

impl<A> Sigma<A> {
    /// The alphabet's invariant: non-empty, no two symbols equal.
    #[verifier::type_invariant]
    pub open spec fn inv(self) -> bool {
        self@.len() > 0 && !seq_has_dup(self@)
    }

}

impl<A> View for Sigma<A> {
    type V = Seq<A>;

    closed spec fn view(&self) -> Seq<A> {
        self.0@
    }
}

impl<A: PartialEq> Sigma<A> {
    /// Validates a raw symbol collection: rejects an empty one and one that
    /// holds two equal symbols; otherwise keeps the symbols as given.
    pub fn new(symbols: Vec<A>) -> (r: Result<Self, &'static str>)
        requires
            obeys_concrete_eq::<A>(),
        ensures
            symbols@.len() == 0 ==> (r matches Err(e) && e == ERR_EMPTY_ALPHABET),
            symbols@.len() > 0 && seq_has_dup(symbols@) ==> (r matches Err(e)
                && e == ERR_DUPLICATE_ALPHABET),
            symbols@.len() > 0 && !seq_has_dup(symbols@) ==> (r matches Ok(s)
                && s@ == symbols@),
    {
        if symbols.len() == 0 {
            Err(ERR_EMPTY_ALPHABET)
        } else if symbols.has_dupes() {
            Err(ERR_DUPLICATE_ALPHABET)
        } else {
            Ok(Self(symbols))
        }
    }

    /// Read-only access to the symbols, in construction order.
    pub fn symbols(&self) -> (r: &Vec<A>)
        ensures
            r@ == self@,
    {
        &self.0
    }

    /// Membership test: whether `symbol` is part of the alphabet.
    pub fn contains(&self, symbol: &A) -> (r: bool)
        requires
            obeys_concrete_eq::<A>(),
        ensures
            r == self@.contains(*symbol),
    {
        proof {
            reveal(obeys_concrete_eq);
        }
        let n: usize = self.0.len();
        let mut i: usize = 0;
        while i < n
            invariant
                obeys_concrete_eq::<A>(),
                n == self@.len(),
                forall|p: int| 0 <= p < i ==> self@[p] != *symbol,
            decreases n - i,
        {
            proof {
                reveal(obeys_concrete_eq);
            }
            if self.0[i] == *symbol {
                return true;
            }
            i = i + 1;
        }
        false
    }

    /// Number of symbols.
    pub fn len(&self) -> (r: usize)
        ensures
            r == self@.len(),
    {
        self.0.len()
    }
}

} // verus!
