//! States whose lifecycle role is the enum constructor itself: a raw tag is
//! supplied as `Initial`, `Interim` or `Final`, and validation demands unique
//! tags, exactly one initial state and at least one final state.

use vstd::laws_eq::obeys_concrete_eq;
use vstd::prelude::*;
use vstd::string::StringExecFns;

use crate::model::state::render_display;
use crate::utils::duped::seq_has_dup;

verus! {

pub const ERR_DUPED_STATES: &'static str = "States must be a unique collection of state identifiers";

pub const ERR_INITIAL_STATES: &'static str = "States must contain at most one initial state";

pub const ERR_FINAL_STATES: &'static str = "States must contain at least one final state";

pub const ERR_DUPED_STATE_VALUES: &'static str = "State must be a unique collection of values";

/// One state with its role: the start state, a plain state, or an accepting
/// state.
#[derive(Debug, PartialEq, Eq, Hash)]
pub enum StateNode<T> {
    /// The state the automaton starts in.
    Initial(T),
    /// Neither the start state nor an accepting state.
    Interim(T),
    /// An accepting state.
    Final(T),
}

/// The value a node carries.
pub open spec fn node_value<T>(n: StateNode<T>) -> T {
    match n {
        StateNode::Initial(t) => t,
        StateNode::Interim(t) => t,
        StateNode::Final(t) => t,
    }
}

/// Number of `Initial` nodes in the collection.
pub open spec fn count_initial<T>(s: Seq<StateNode<T>>) -> int
    decreases s.len(),
{
    if s.len() == 0 {
        0
    } else {
        count_initial(s.drop_last()) + if s.last() is Initial {
            1int
        } else {
            0int
        }
    }
}

/// Number of `Final` nodes in the collection.
pub open spec fn count_final<T>(s: Seq<StateNode<T>>) -> int
    decreases s.len(),
{
    if s.len() == 0 {
        0
    } else {
        count_final(s.drop_last()) + if s.last() is Final {
            1int
        } else {
            0int
        }
    }
}

/// Two nodes of the collection carry equal values.
pub open spec fn nodes_have_dup<T>(s: Seq<StateNode<T>>) -> bool {
    exists|i: int, j: int| 0 <= i < j < s.len() && node_value(s[i]) == node_value(s[j])
}

/// A resolved state: the duplicate-free collection of values it stands for.
#[derive(Debug, PartialEq, Eq, Hash)]
pub struct State<T>(Vec<T>);

impl<T> View for State<T> {
    type V = Seq<T>;

    closed spec fn view(&self) -> Seq<T> {
        self.0@
    }
}

impl<T: PartialEq> State<T> {
    /// Validates the value collection: rejects one that holds two equal
    /// values. An empty collection is accepted.
    pub fn new(sub_states: Vec<T>) -> (r: Result<Self, &'static str>)
        requires
            obeys_concrete_eq::<T>(),
        ensures
            seq_has_dup(sub_states@) ==> (r matches Err(e) && e == ERR_DUPED_STATE_VALUES),
            !seq_has_dup(sub_states@) ==> (r matches Ok(s) && s@ == sub_states@),
    {
        if crate::utils::duped::Duped::has_dupes(&sub_states) {
            Err(ERR_DUPED_STATE_VALUES)
        } else {
            Ok(Self(sub_states))
        }
    }
}

impl<T> State<T> {
    /// Read-only access to the values.
    pub fn values(&self) -> (r: &Vec<T>)
        ensures
            r@ == self@,
    {
        &self.0
    }
}

impl<T: core::fmt::Display> State<T> {
    /// The diagnostic text of this state: the braced, comma-separated values.
    pub fn debug_string(&self) -> String {
        let mut out = String::from_str("{");
        let n: usize = self.0.len();
        let mut i: usize = 0;
        while i < n
            invariant
                n == self.0@.len(),
            decreases n - i,
        {
            if i > 0 {
                out.append(",");
            }
            let piece = render_display(&self.0[i]);
            out.append(piece.as_str());
            i = i + 1;
        }
        out.append("}");
        out
    }

    /// The display text of this state: the values joined together.
    pub fn display_string(&self) -> String {
        let mut out = String::new();
        let n: usize = self.0.len();
        let mut i: usize = 0;
        while i < n
            invariant
                n == self.0@.len(),
            decreases n - i,
        {
            let piece = render_display(&self.0[i]);
            out.append(piece.as_str());
            i = i + 1;
        }
        out
    }
}

/// The node at `i` of the output wraps the node at `i` of the input: same
/// role, and the resolved state carries exactly the input value.
pub open spec fn node_wraps<T>(out: StateNode<State<T>>, inp: StateNode<T>) -> bool {
    match out {
        StateNode::Initial(s) => inp is Initial && s@ == seq![node_value(inp)],
        StateNode::Interim(s) => inp is Interim && s@ == seq![node_value(inp)],
        StateNode::Final(s) => inp is Final && s@ == seq![node_value(inp)],
    }
}

/// The validated collection of all states of an automaton.
pub struct States<T>(Vec<StateNode<State<T>>>);

impl<T: PartialEq> States<T> {
    /// Validates the raw nodes, in this order: values must be unique; exactly
    /// one node must be `Initial`; and at least one node must be `Final`.
    /// Each value then becomes a single-value resolved [`State`] under its
    /// node's role.
    #[verifier::loop_isolation(false)]
    pub fn new(states: Vec<StateNode<T>>) -> (r: Result<Self, &'static str>)
        requires
            obeys_concrete_eq::<T>(),
        ensures
            nodes_have_dup(states@) ==> (r matches Err(e) && e == ERR_DUPED_STATES),
            !nodes_have_dup(states@) && count_initial(states@) != 1 ==> (r matches Err(e) && e
                == ERR_INITIAL_STATES),
            !nodes_have_dup(states@) && count_initial(states@) == 1 && count_final(states@) == 0
                ==> (r matches Err(e) && e == ERR_FINAL_STATES),
            !nodes_have_dup(states@) && count_initial(states@) == 1 && count_final(states@) != 0
                ==> (r matches Ok(st) && st.nodes_spec().len() == states@.len() && forall|i: int|
                0 <= i < states@.len() ==> node_wraps(#[trigger] st.nodes_spec()[i], states@[i])),
    {
        let n: usize = states.len();
        let mut i: usize = 1;
        while i < n
            invariant
                1 <= i,
                forall|p: int, q: int|
                    0 <= p < q < i ==> node_value(states@[p]) != node_value(states@[q]),
            decreases n - i,
        {
            let mut j: usize = 0;
            while j < i
                invariant
                    0 <= j <= i < n,
                    forall|q: int|
                        0 <= q < j ==> node_value(states@[q]) != node_value(states@[i as int]),
                decreases i - j,
            {
                proof {
                    reveal(obeys_concrete_eq);
                }
                if node_ref(&states[j]) == node_ref(&states[i]) {
                    return Err(ERR_DUPED_STATES);
                }
                j = j + 1;
            }
            i = i + 1;
        }
        assert(!nodes_have_dup(states@));
        let mut initial: usize = 0;
        let mut i: usize = 0;
        while i < n
            invariant
                0 <= i <= n,
                initial <= i,
                initial as int == count_initial(states@.take(i as int)),
            decreases n - i,
        {
            proof {
                assert(states@.take(i + 1).drop_last() =~= states@.take(i as int));
                assert(states@.take(i + 1).last() == states@[i as int]);
            }
            if matches!(&states[i], StateNode::Initial(_)) {
                initial = initial + 1;
            }
            i = i + 1;
        }
        proof {
            assert(states@.take(n as int) =~= states@);
        }
        if initial != 1 {
            return Err(ERR_INITIAL_STATES);
        }
        let mut finals: usize = 0;
        let mut i: usize = 0;
        while i < n
            invariant
                0 <= i <= n,
                finals <= i,
                finals as int == count_final(states@.take(i as int)),
            decreases n - i,
        {
            proof {
                assert(states@.take(i + 1).drop_last() =~= states@.take(i as int));
                assert(states@.take(i + 1).last() == states@[i as int]);
            }
            if matches!(&states[i], StateNode::Final(_)) {
                finals = finals + 1;
            }
            i = i + 1;
        }
        proof {
            assert(states@.take(n as int) =~= states@);
        }
        if finals == 0 {
            return Err(ERR_FINAL_STATES);
        }
        let ghost sv = states@;
        let mut pending = states;
        let mut out: Vec<StateNode<State<T>>> = Vec::new();
        proof {
            assert(pending@ =~= sv.skip(0));
        }
        while pending.len() > 0
            invariant
                out@.len() + pending@.len() == sv.len(),
                pending@ == sv.skip(out@.len() as int),
                forall|p: int| 0 <= p < out@.len() ==> node_wraps(#[trigger] out@[p], sv[p]),
            decreases pending@.len(),
        {
            let ghost done = out@.len() as int;
            let node = pending.remove(0);
            proof {
                assert(node == sv[done]);
                assert(pending@ =~= sv.skip(done + 1));
            }
            let wrapped = match node {
                StateNode::Initial(t) => {
                    let s = State(vec![t]);
                    proof {
                        assert(s@ =~= seq![node_value(sv[done])]);
                    }
                    StateNode::Initial(s)
                },
                StateNode::Interim(t) => {
                    let s = State(vec![t]);
                    proof {
                        assert(s@ =~= seq![node_value(sv[done])]);
                    }
                    StateNode::Interim(s)
                },
                StateNode::Final(t) => {
                    let s = State(vec![t]);
                    proof {
                        assert(s@ =~= seq![node_value(sv[done])]);
                    }
                    StateNode::Final(s)
                },
            };
            proof {
                assert(node_wraps(wrapped, sv[done]));
            }
            out.push(wrapped);
        }
        proof {
            assert(sv.skip(out@.len() as int).len() == 0);
        }
        Ok(Self(out))
    }
}

impl<T> States<T> {
    /// The resolved nodes, in construction order.
    pub closed spec fn nodes_spec(&self) -> Seq<StateNode<State<T>>> {
        self.0@
    }

    /// Read-only access to the resolved nodes.
    pub fn nodes(&self) -> (r: &Vec<StateNode<State<T>>>)
        ensures
            r@ == self.nodes_spec(),
    {
        &self.0
    }
}

/// The value a node carries, by reference.
fn node_ref<T>(n: &StateNode<T>) -> (r: &T)
    ensures
        *r == node_value(*n),
{
    match n {
        StateNode::Initial(t) => t,
        StateNode::Interim(t) => t,
        StateNode::Final(t) => t,
    }
}

} // verus!
