//! Duplicate detection over collections of comparable values.
//!
//! Every validated collection in this crate (alphabets, state sets, final
//! states, transition rows) must be duplicate-free; this module holds the one
//! executable check they all share, together with its specification.

use vstd::laws_eq::obeys_concrete_eq;
use vstd::prelude::*;

verus! {

/// A sequence holds a duplicate when two distinct positions carry equal values.
pub open spec fn seq_has_dup<T>(s: Seq<T>) -> bool {
    exists|i: int, j: int| 0 <= i < j < s.len() && s[i] == s[j]
}

/// Collections that can report whether they hold a duplicate element.
pub trait Duped {
    /// What the collection abstractly holds a duplicate of.
    spec fn dup_spec(&self) -> bool;

    /// Precondition under which duplicate detection is meaningful.
    spec fn eq_reliable(&self) -> bool;

    /// Reports whether the collection holds two equal elements.
    fn has_dupes(&self) -> (r: bool)
        requires
            self.eq_reliable(),
        ensures
            r == self.dup_spec(),
    ;
}

impl<T: PartialEq> Duped for Vec<T> {
    open spec fn dup_spec(&self) -> bool {
        seq_has_dup(self@)
    }

    open spec fn eq_reliable(&self) -> bool {
        obeys_concrete_eq::<T>()
    }

    fn has_dupes(&self) -> (r: bool)
        ensures
            r == seq_has_dup(self@),
    {
        proof {
            reveal(obeys_concrete_eq);
        }
        let n: usize = self.len();
        let mut i: usize = 1;
        while i < n
            invariant
                obeys_concrete_eq::<T>(),
                n == self@.len(),
                1 <= i,
                forall|p: int, q: int| 0 <= p < q < i ==> self@[p] != self@[q],
            decreases n - i,
        {
            let mut j: usize = 0;
            while j < i
                invariant
                    obeys_concrete_eq::<T>(),
                    n == self@.len(),
                    0 <= j <= i < n,
                    forall|q: int| 0 <= q < j ==> self@[q] != self@[i as int],
                decreases i - j,
            {
                proof {
                    reveal(obeys_concrete_eq);
                }
                if self[j] == self[i] {
                    return true;
                }
                j = j + 1;
            }
            i = i + 1;
        }
        false
    }
}

} // verus!
