//! States and state sets.
//!
//! A [`State`] couples caller-supplied tags with a lifecycle [`Phase`];
//! a [`Q`] is the validated, duplicate-free collection of raw state tags from
//! which an automaton's states are built.

use vstd::laws_eq::obeys_concrete_eq;
use vstd::prelude::*;
use vstd::string::StringExecFns;

use crate::utils::duped::{seq_has_dup, Duped};

verus! {

pub const ERR_DUPLICATE_STATES: &'static str = "States must be a unique collection";

pub const ERR_DUPLICATE_TAGS: &'static str = "State must be a unique collection of tags";

pub const ERR_EMPTY_STATES: &'static str = "States must contain at least one state";

pub const ERR_EMPTY_TAGS: &'static str = "State must contain at least one tag";

/// The lifecycle role of a state within an automaton.
#[derive(Copy, Clone, Debug)]
pub enum Phase {
    /// The state the automaton starts in.
    Initial,
    /// Neither the start state nor an accepting state.
    Interim,
    /// An accepting state.
    Final,
    /// Simultaneously the start state and an accepting state.
    Both,
}

/// A phase that marks an accepting state.
pub open spec fn phase_is_final(p: Phase) -> bool {
    p is Final || p is Both
}

/// A phase that marks the start state.
pub open spec fn phase_is_initial(p: Phase) -> bool {
    p is Initial || p is Both
}

/// The phase a tag receives given the initial tag and the final tags.
pub open spec fn phase_of<S>(tag: S, q0: S, finals: Seq<S>) -> Phase {
    if tag == q0 {
        if finals.contains(tag) {
            Phase::Both
        } else {
            Phase::Initial
        }
    } else {
        if finals.contains(tag) {
            Phase::Final
        } else {
            Phase::Interim
        }
    }
}

/// One automaton state: a duplicate-free collection of tags plus its phase.
///
/// Identity is defined by the tags alone; the phase is metadata.
pub struct State<S> {
    tags: Vec<S>,
    phase: Phase,
}

impl<S> State<S> {
    /// A state's invariant: at least one tag, no two tags equal.
    #[verifier::type_invariant]
    pub open spec fn inv(self) -> bool {
        self@.len() > 0 && !seq_has_dup(self@)
    }

}

impl<S> View for State<S> {
    type V = Seq<S>;

    closed spec fn view(&self) -> Seq<S> {
        self.tags@
    }
}

impl<S> State<S> {
    /// The phase this state carries.
    pub closed spec fn phase_spec(&self) -> Phase {
        self.phase
    }

    /// Whether this state is accepting.
    pub fn is_final(&self) -> (r: bool)
        ensures
            r == phase_is_final(self.phase_spec()),
    {
        matches!(self.phase, Phase::Final | Phase::Both)
    }

    /// Whether this state is the start state.
    pub fn is_initial(&self) -> (r: bool)
        ensures
            r == phase_is_initial(self.phase_spec()),
    {
        matches!(self.phase, Phase::Initial | Phase::Both)
    }

    /// Read-only access to the tags.
    pub fn tags(&self) -> (r: &Vec<S>)
        ensures
            r@ == self@,
    {
        &self.tags
    }
}

impl<S: PartialEq> State<S> {
    /// Validates the tag collection and wraps it with `phase`: rejects an
    /// empty collection and one holding two equal tags.
    pub fn new(tags: Vec<S>, phase: Phase) -> (r: Result<Self, &'static str>)
        requires
            obeys_concrete_eq::<S>(),
        ensures
            tags@.len() == 0 ==> (r matches Err(e) && e == ERR_EMPTY_TAGS),
            tags@.len() > 0 && seq_has_dup(tags@) ==> (r matches Err(e)
                && e == ERR_DUPLICATE_TAGS),
            tags@.len() > 0 && !seq_has_dup(tags@) ==> (r matches Ok(s)
                && s@ == tags@ && s.phase_spec() == phase),
    {
        if tags.len() == 0 {
            Err(ERR_EMPTY_TAGS)
        } else if tags.has_dupes() {
            Err(ERR_DUPLICATE_TAGS)
        } else {
            Ok(Self { tags, phase })
        }
    }

    /// Builds a single-tag state without validation: one tag is never empty
    /// nor duplicated.
    pub(crate) fn single(tag: S, phase: Phase) -> (r: Self)
        ensures
            r@ == seq![tag],
            r.phase_spec() == phase,
    {
        let tags: Vec<S> = vec![tag];
        proof {
            assert(tags@ =~= seq![tags@[0]]);
        }
        Self { tags, phase }
    }
}


/// The mark that opens a state's textual form, by phase.
pub fn write_start_phase(phase: Phase) -> (r: &'static str)
    ensures
        match phase {
            Phase::Initial => r == ">(",
            Phase::Interim => r == "(",
            Phase::Final => r == "((",
            Phase::Both => r == ">((",
        },
{
    match phase {
        Phase::Initial => ">(",
        Phase::Interim => "(",
        Phase::Final => "((",
        Phase::Both => ">((",
    }
}

/// The mark that closes a state's textual form, by phase.
pub fn write_end_phase(phase: Phase) -> (r: &'static str)
    ensures
        match phase {
            Phase::Initial | Phase::Interim => r == ")",
            Phase::Final | Phase::Both => r == "))",
        },
{
    match phase {
        Phase::Initial | Phase::Interim => ")",
        Phase::Final | Phase::Both => "))",
    }
}

/// Relies on std's formatting machinery: the text the tag type's `Debug`
/// implementation renders for one tag.
#[verifier::external_body]
pub(crate) fn render_debug<S: core::fmt::Debug>(tag: &S) -> String {
    format!("{:?}", tag)
}

/// Relies on std's formatting machinery: the text the tag type's `Display`
/// implementation renders for one tag.
#[verifier::external_body]
pub(crate) fn render_display<S: core::fmt::Display>(tag: &S) -> String {
    format!("{}", tag)
}

impl<S: core::fmt::Debug> State<S> {
    /// The diagnostic text of this state: the phase marks around the braced,
    /// comma-separated tags.
    pub fn debug_string(&self) -> String {
        let mut out = String::from_str(write_start_phase(self.phase));
        out.append("{");
        let n: usize = self.tags.len();
        let mut i: usize = 0;
        while i < n
            invariant
                n == self.tags@.len(),
            decreases n - i,
        {
            if i > 0 {
                out.append(",");
            }
            let piece = render_debug(&self.tags[i]);
            out.append(piece.as_str());
            i = i + 1;
        }
        out.append("}");
        out.append(write_end_phase(self.phase));
        out
    }
}

impl<S: core::fmt::Display> State<S> {
    /// The display text of this state: the phase marks around the joined tags.
    pub fn display_string(&self) -> String {
        let mut out = String::from_str(write_start_phase(self.phase));
        let n: usize = self.tags.len();
        let mut i: usize = 0;
        while i < n
            invariant
                n == self.tags@.len(),
            decreases n - i,
        {
            let piece = render_display(&self.tags[i]);
            out.append(piece.as_str());
            i = i + 1;
        }
        out.append(write_end_phase(self.phase));
        out
    }
}

/// Set of all states of an automaton, as raw caller-supplied tags.
///
/// Invariant: non-empty and duplicate-free.
pub struct Q<S>(Vec<S>);

impl<S> Q<S> {
    /// The state set's invariant: non-empty, no two tags equal.
    #[verifier::type_invariant]
    pub open spec fn inv(self) -> bool {
        self@.len() > 0 && !seq_has_dup(self@)
    }

}

impl<S> View for Q<S> {
    type V = Seq<S>;

    closed spec fn view(&self) -> Seq<S> {
        self.0@
    }
}

impl<S: PartialEq> Q<S> {
    /// Validates a raw tag collection: rejects an empty one and one that
    /// holds two equal tags.
    pub fn new(states: Vec<S>) -> (r: Result<Self, &'static str>)
        requires
            obeys_concrete_eq::<S>(),
        ensures
            states@.len() == 0 ==> (r matches Err(e) && e == ERR_EMPTY_STATES),
            states@.len() > 0 && seq_has_dup(states@) ==> (r matches Err(e)
                && e == ERR_DUPLICATE_STATES),
            states@.len() > 0 && !seq_has_dup(states@) ==> (r matches Ok(q)
                && q@ == states@),
    {
        if states.len() == 0 {
            Err(ERR_EMPTY_STATES)
        } else if states.has_dupes() {
            Err(ERR_DUPLICATE_STATES)
        } else {
            Ok(Self(states))
        }
    }

    /// Read-only access to the tags, in construction order.
    pub fn tags(&self) -> (r: &Vec<S>)
        ensures
            r@ == self@,
    {
        &self.0
    }

    /// Consumes the set, handing the tags back.
    pub fn into_tags(self) -> (r: Vec<S>)
        ensures
            r@ == self@,
    {
        self.0
    }

    /// Membership test: whether `tag` names a state of the set.
    pub fn contains(&self, tag: &S) -> (r: bool)
        requires
            obeys_concrete_eq::<S>(),
        ensures
            r == self@.contains(*tag),
    {
        proof {
            reveal(obeys_concrete_eq);
        }
        let n: usize = self.0.len();
        let mut i: usize = 0;
        while i < n
            invariant
                obeys_concrete_eq::<S>(),
                n == self@.len(),
                forall|p: int| 0 <= p < i ==> self@[p] != *tag,
            decreases n - i,
        {
            proof {
                reveal(obeys_concrete_eq);
            }
            if self.0[i] == *tag {
                return true;
            }
            i = i + 1;
        }
        false
    }
}

} // verus!
