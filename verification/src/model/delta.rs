//! The raw transition function: a list of `(source tag, [(symbol, target tag)])`
//! entries, validated for internal consistency before any machine is built
//! from it.

use vstd::laws_eq::obeys_concrete_eq;
use vstd::prelude::*;

use crate::utils::duped::{seq_has_dup, Duped};

verus! {

pub const ERR_DUPLICATE_DELTA_STATES: &'static str =
    "Transition functions must be a unique collection of state transitions";

pub const ERR_DUPLICATE_INPUT_TRANSITIONS: &'static str =
    "A state transition must must be a unique collection of input transitions";

pub const ERR_UNDEFINED_STATE_TRANSITION: &'static str =
    "Input transition state does not correspond to a state transition";

/// One raw transition entry: a source tag with its outgoing `(symbol, target)`
/// edges.
pub type Entry<A, S> = (S, Vec<(A, S)>);

/// `tag` is the source of some entry of `d`.
pub open spec fn is_source<A, S>(d: Seq<Entry<A, S>>, tag: S) -> bool {
    exists|i: int| 0 <= i < d.len() && d[i].0 == tag
}

/// `tag` is the target of some edge of `d`.
pub open spec fn is_target<A, S>(d: Seq<Entry<A, S>>, tag: S) -> bool {
    exists|i: int, k: int|
        0 <= i < d.len() && 0 <= k < d[i].1@.len() && d[i].1@[k].1 == tag
}

/// Two entries of `d` share a source tag.
pub open spec fn has_dup_source<A, S>(d: Seq<Entry<A, S>>) -> bool {
    exists|i: int, j: int| 0 <= i < j < d.len() && d[i].0 == d[j].0
}

/// Some entry of `d` repeats a `(symbol, target)` pair.
pub open spec fn has_dup_edge<A, S>(d: Seq<Entry<A, S>>) -> bool {
    exists|i: int| 0 <= i < d.len() && seq_has_dup(d[i].1@)
}

/// Every edge of `d` points at a tag that is itself the source of an entry.
pub open spec fn targets_closed<A, S>(d: Seq<Entry<A, S>>) -> bool {
    forall|i: int, k: int|
        0 <= i < d.len() && 0 <= k < d[i].1@.len() ==> is_source(d, #[trigger] d[i].1@[k].1)
}

/// Transition function Q x Sigma -> Q, held as validated raw entries.
///
/// Invariant: sources unique, no entry repeats a `(symbol, target)` pair, and
/// every target is itself a source.
pub struct Delta<A, S>(Vec<Entry<A, S>>);

impl<A, S> Delta<A, S> {
    /// The transition function's invariant: the validation outcome.
    #[verifier::type_invariant]
    pub open spec fn inv(self) -> bool {
        !has_dup_source(self@) && !has_dup_edge(self@) && targets_closed(self@)
    }

}

impl<A, S> View for Delta<A, S> {
    type V = Seq<Entry<A, S>>;

    closed spec fn view(&self) -> Seq<Entry<A, S>> {
        self.0@
    }
}

/// Whether `tag` is the source of some entry of `delta`.
fn find_source<A, S: PartialEq>(delta: &Vec<Entry<A, S>>, tag: &S) -> (r: bool)
    requires
        obeys_concrete_eq::<S>(),
    ensures
        r == is_source(delta@, *tag),
{
    let n: usize = delta.len();
    let mut i: usize = 0;
    while i < n
        invariant
            obeys_concrete_eq::<S>(),
            n == delta@.len(),
            forall|p: int| 0 <= p < i ==> delta@[p].0 != *tag,
        decreases n - i,
    {
        proof {
            reveal(obeys_concrete_eq);
        }
        if delta[i].0 == *tag {
            return true;
        }
        i = i + 1;
    }
    false
}

impl<A: PartialEq, S: PartialEq> Delta<A, S> {
    /// Validates raw transition entries, in this order: no two entries may
    /// share a source tag; no entry may repeat a `(symbol, target)` pair; and
    /// every edge target must itself be the source of an entry.
    #[verifier::loop_isolation(false)]
    pub fn new(delta: Vec<Entry<A, S>>) -> (r: Result<Self, &'static str>)
        requires
            obeys_concrete_eq::<A>(),
            obeys_concrete_eq::<S>(),
        ensures
            has_dup_source(delta@) ==> (r matches Err(e) && e == ERR_DUPLICATE_DELTA_STATES),
            !has_dup_source(delta@) && has_dup_edge(delta@) ==> (r matches Err(e)
                && e == ERR_DUPLICATE_INPUT_TRANSITIONS),
            !has_dup_source(delta@) && !has_dup_edge(delta@) && !targets_closed(delta@) ==> (
            r matches Err(e) && e == ERR_UNDEFINED_STATE_TRANSITION),
            !has_dup_source(delta@) && !has_dup_edge(delta@) && targets_closed(delta@) ==> (
            r matches Ok(d) && d@ == delta@),
    {
        let n: usize = delta.len();
        let mut i: usize = 1;
        while i < n
            invariant
                obeys_concrete_eq::<S>(),
                n == delta@.len(),
                1 <= i,
                forall|p: int, q: int| 0 <= p < q < i ==> delta@[p].0 != delta@[q].0,
            decreases n - i,
        {
            let mut j: usize = 0;
            while j < i
                invariant
                    obeys_concrete_eq::<S>(),
                    n == delta@.len(),
                    0 <= j <= i < n,
                    forall|q: int| 0 <= q < j ==> delta@[q].0 != delta@[i as int].0,
                decreases i - j,
            {
                proof {
                    reveal(obeys_concrete_eq);
                }
                if delta[j].0 == delta[i].0 {
                    return Err(ERR_DUPLICATE_DELTA_STATES);
                }
                j = j + 1;
            }
            i = i + 1;
        }
        assert(!has_dup_source(delta@));
        let mut i: usize = 0;
        while i < n
            invariant
                forall|p: int| 0 <= p < i ==> !seq_has_dup(delta@[p].1@),
            decreases n - i,
        {
            if delta[i].1.has_dupes() {
                return Err(ERR_DUPLICATE_INPUT_TRANSITIONS);
            }
            i = i + 1;
        }
        assert(!has_dup_edge(delta@));
        let mut i: usize = 0;
        while i < n
            invariant
                forall|p: int, k: int|
                    0 <= p < i && 0 <= k < delta@[p].1@.len() ==> is_source(
                        delta@,
                        #[trigger] delta@[p].1@[k].1,
                    ),
            decreases n - i,
        {
            let row_len: usize = delta[i].1.len();
            let mut k: usize = 0;
            while k < row_len
                invariant
                    0 <= i < n,
                    row_len == delta@[i as int].1@.len(),
                    forall|q: int|
                        0 <= q < k ==> is_source(delta@, #[trigger] delta@[i as int].1@[q].1),
                decreases row_len - k,
            {
                if !find_source(&delta, &delta[i].1[k].1) {
                    return Err(ERR_UNDEFINED_STATE_TRANSITION);
                }
                k = k + 1;
            }
            i = i + 1;
        }
        Ok(Self(delta))
    }
}

impl<A, S> Delta<A, S> {
    /// Read-only access to the validated entries.
    pub fn entries(&self) -> (r: &Vec<Entry<A, S>>)
        ensures
            r@ == self@,
    {
        &self.0
    }

    /// Consumes the transition function, handing the entries back.
    pub fn into_entries(self) -> (r: Vec<Entry<A, S>>)
        ensures
            r@ == self@,
    {
        self.0
    }
}

impl<A, S: PartialEq> Delta<A, S> {
    /// Whether some edge of the transition function points at `tag`.
    pub fn states_transitioned(&self, tag: &S) -> (r: bool)
        requires
            obeys_concrete_eq::<S>(),
        ensures
            r == is_target(self@, *tag),
    {
        let n: usize = self.0.len();
        let mut i: usize = 0;
        while i < n
            invariant
                obeys_concrete_eq::<S>(),
                n == self@.len(),
                forall|p: int, k: int|
                    0 <= p < i && 0 <= k < self@[p].1@.len() ==> self@[p].1@[k].1 != *tag,
            decreases n - i,
        {
            let row_len: usize = self.0[i].1.len();
            let mut k: usize = 0;
            while k < row_len
                invariant
                    obeys_concrete_eq::<S>(),
                    n == self@.len(),
                    0 <= i < n,
                    row_len == self@[i as int].1@.len(),
                    forall|q: int| 0 <= q < k ==> self@[i as int].1@[q].1 != *tag,
                decreases row_len - k,
            {
                proof {
                    reveal(obeys_concrete_eq);
                }
                if self.0[i].1[k].1 == *tag {
                    return true;
                }
                k = k + 1;
            }
            i = i + 1;
        }
        false
    }
}

} // verus!
