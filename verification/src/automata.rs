//! The canonical machines: [`DFA`] and [`NFA`] built from the validated
//! [`crate::model`] pieces.
//!
//! Both machines share one internal table layout: the resolved states stand in
//! an arena (`Vec<State<S>>`), and every transition edge addresses its target
//! by arena index, so that two edges "to state X" name the same canonical
//! state. The shared structural checks (referential integrity, the
//! dangling-state test, the initial-state lookup) live here; the per-symbol
//! coverage rules differ between the two machines and live with each.

use vstd::laws_eq::obeys_concrete_eq;
use vstd::prelude::*;

use crate::model::delta::{is_source, Delta, Entry};
use crate::model::state::{phase_is_initial, phase_of, Phase, State};
use crate::model::{F, Q};

pub mod dfa;
pub mod nfa;

pub use dfa::DFA;
pub use nfa::NFA;

verus! {

pub const ERR_DANGLING_STATE: &'static str = "Transition functions has a dangling state";

pub const ERR_INVALID_INPUT: &'static str = "Undefined Input Symbol";

pub const ERR_UNDEFINED_FINAL_STATE: &'static str =
    "Final state f is not defined in transition functions \u{3b4}";

pub const ERR_UNDEFINED_INITIAL_STATE: &'static str =
    "Initial state q0 is not defined in transition functions \u{3b4}";

pub const ERR_UNDEFINED_TRANSITION_STATE: &'static str = "State transition not in States";

pub const ERR_UNREFERENCED_STATE_Q: &'static str =
    "Q contains a state that does not have a transition function defined";

/// The tag carried by each single-tag arena state.
pub open spec fn seq_tags<S>(states: Seq<State<S>>) -> Seq<S> {
    states.map_values(|st: State<S>| st@[0])
}

/// Every arena state carries exactly one tag.
pub open spec fn all_single<S>(states: Seq<State<S>>) -> bool {
    forall|i: int| 0 <= i < states.len() ==> (#[trigger] states[i]@).len() == 1
}

/// Some tag of `q` is not the source of any entry of `d`.
pub open spec fn unreferenced_state_exists<A, S>(q: Seq<S>, d: Seq<Entry<A, S>>) -> bool {
    exists|i: int| 0 <= i < q.len() && !is_source(d, #[trigger] q[i])
}

/// Some final tag does not name a state of `q`.
pub open spec fn undefined_final_exists<S>(q: Seq<S>, f: Seq<S>) -> bool {
    exists|i: int| 0 <= i < f.len() && !q.contains(#[trigger] f[i])
}

/// No edge of an entry other than `tag`'s own points at `tag`.
pub open spec fn no_incoming_from_others<A, S>(d: Seq<Entry<A, S>>, tag: S) -> bool {
    forall|j: int, k: int|
        0 <= j < d.len() && 0 <= k < d[j].1@.len() && d[j].0 != tag ==> (#[trigger] d[j].1@[k]).1
            != tag
}

/// Some non-initial source of `d` has no incoming edge from another entry.
///
/// This is a one-hop incoming-edge test, not reachability from the initial
/// state: a state passes when any other entry points at it, even when that
/// entry is itself unreachable.
pub open spec fn dangling_state_exists<A, S>(d: Seq<Entry<A, S>>, q0: S) -> bool {
    exists|i: int|
        0 <= i < d.len() && (#[trigger] d[i].0) != q0 && no_incoming_from_others(d, d[i].0)
}

/// The arena `states` resolves exactly the tags of `q`, each with the phase
/// the initial tag and the final tags dictate.
pub open spec fn states_faithful<S>(states: Seq<State<S>>, q: Seq<S>, q0: S, f: Seq<S>) -> bool {
    &&& all_single(states)
    &&& !crate::utils::duped::seq_has_dup(seq_tags(states))
    &&& forall|i: int|
        0 <= i < states.len() ==> {
            &&& q.contains(#[trigger] states[i]@[0])
            &&& states[i].phase_spec() == phase_of(states[i]@[0], q0, f)
        }
    &&& forall|j: int| 0 <= j < q.len() ==> seq_tags(states).contains(#[trigger] q[j])
}

/// Checks a raw configuration for referential integrity, in this order: every
/// tag of `q` must be the source of an entry of `delta`; the initial tag must
/// name a state of `q`; and every final tag must name a state of `q`.
#[verifier::loop_isolation(false)]
pub(crate) fn validate_fa_configuration<A, S: PartialEq>(
    q: &Q<S>,
    delta: &Delta<A, S>,
    q0: &S,
    f: &F<S>,
) -> (r: Result<(), &'static str>)
    requires
        obeys_concrete_eq::<S>(),
    ensures
        unreferenced_state_exists(q@, delta@) ==> (r matches Err(e) && e
            == ERR_UNREFERENCED_STATE_Q),
        !unreferenced_state_exists(q@, delta@) && !q@.contains(*q0) ==> (r matches Err(e) && e
            == ERR_UNDEFINED_INITIAL_STATE),
        !unreferenced_state_exists(q@, delta@) && q@.contains(*q0) && undefined_final_exists(
            q@,
            f@,
        ) ==> (r matches Err(e) && e == ERR_UNDEFINED_FINAL_STATE),
        !unreferenced_state_exists(q@, delta@) && q@.contains(*q0) && !undefined_final_exists(
            q@,
            f@,
        ) ==> r matches Ok(u),
{
    let tags = q.tags();
    let n: usize = tags.len();
    let mut i: usize = 0;
    while i < n
        invariant
            forall|p: int| 0 <= p < i ==> is_source(delta@, #[trigger] q@[p]),
        decreases n - i,
    {
        if !contains_source(delta, &tags[i]) {
            return Err(ERR_UNREFERENCED_STATE_Q);
        }
        i = i + 1;
    }
    if !q.contains(q0) {
        return Err(ERR_UNDEFINED_INITIAL_STATE);
    }
    let finals = f.tags();
    let m: usize = finals.len();
    let mut j: usize = 0;
    while j < m
        invariant
            forall|p: int| 0 <= p < j ==> q@.contains(#[trigger] f@[p]),
        decreases m - j,
    {
        if !q.contains(&finals[j]) {
            return Err(ERR_UNDEFINED_FINAL_STATE);
        }
        j = j + 1;
    }
    Ok(())
}

/// Whether `tag` is the source of some entry of `delta`.
pub(crate) fn contains_source<A, S: PartialEq>(delta: &Delta<A, S>, tag: &S) -> (r: bool)
    requires
        obeys_concrete_eq::<S>(),
    ensures
        r == is_source(delta@, *tag),
{
    let entries = delta.entries();
    let n: usize = entries.len();
    let mut i: usize = 0;
    while i < n
        invariant
            obeys_concrete_eq::<S>(),
            n == delta@.len(),
            entries@ == delta@,
            forall|p: int| 0 <= p < i ==> delta@[p].0 != *tag,
        decreases n - i,
    {
        proof {
            reveal(obeys_concrete_eq);
        }
        if entries[i].0 == *tag {
            return true;
        }
        i = i + 1;
    }
    false
}

/// Builds the state arena: each tag of `q` becomes a canonical single-tag
/// [`State`], stamped with the phase that the initial tag and the final tags
/// dictate.
#[verifier::loop_isolation(false)]
pub(crate) fn convert_to_transitions<S: PartialEq>(q: Q<S>, q0: &S, f: &F<S>) -> (states: Vec<
    State<S>,
>)
    requires
        obeys_concrete_eq::<S>(),
    ensures
        states_faithful(states@, q@, *q0, f@),
        states@.len() == q@.len(),
{
    let ghost qv = q@;
    proof {
        use_type_invariant(&q);
    }
    let mut tags: Vec<S> = q.into_tags();
    let mut states: Vec<State<S>> = Vec::new();
    proof {
        assert(tags@ =~= qv.take(tags@.len() as int));
    }
    loop
        invariant
            obeys_concrete_eq::<S>(),
            !crate::utils::duped::seq_has_dup(qv),
            tags@.len() <= qv.len(),
            tags@ == qv.take(tags@.len() as int),
            states@.len() + tags@.len() == qv.len(),
            all_single(states@),
            forall|p: int|
                0 <= p < states@.len() ==> {
                    &&& qv.contains(#[trigger] states@[p]@[0])
                    &&& states@[p].phase_spec() == phase_of(states@[p]@[0], *q0, f@)
                },
            forall|p: int|
                0 <= p < states@.len() ==> exists|w: int|
                    tags@.len() <= w < qv.len() && qv[w] == #[trigger] states@[p]@[0],
            !crate::utils::duped::seq_has_dup(seq_tags(states@)),
            forall|j: int|
                tags@.len() <= j < qv.len() ==> seq_tags(states@).contains(#[trigger] qv[j]),
        decreases tags@.len(),
    {
        proof {
            reveal(obeys_concrete_eq);
        }
        let popped = tags.pop();
        let tag = match popped {
            Some(t) => t,
            None => {
                break ;
            },
        };
        let ghost rest = tags@.len() as int;
        proof {
            assert(tag == qv[rest]);
            assert(tags@ =~= qv.take(rest));
        }
        let is_fin = f.contains(&tag);
        let phase = if tag == *q0 {
            if is_fin {
                Phase::Both
            } else {
                Phase::Initial
            }
        } else {
            if is_fin {
                Phase::Final
            } else {
                Phase::Interim
            }
        };
        let ghost pre = states@;
        let st = State::single(tag, phase);
        states.push(st);
        proof {
            let m = states@.len() - 1;
            assert(states@[m]@ == seq![qv[rest]]);
            assert(seq_tags(states@)[m] == qv[rest]);
            assert(seq_tags(states@).contains(qv[rest]));
            assert forall|p: int, r: int|
                0 <= p < r < seq_tags(states@).len() implies seq_tags(states@)[p] != seq_tags(
                states@,
            )[r] by {
                if r < m {
                    assert(seq_tags(states@)[p] == seq_tags(pre)[p]);
                    assert(seq_tags(states@)[r] == seq_tags(pre)[r]);
                } else {
                    assert(seq_tags(states@)[p] == pre[p]@[0]);
                    assert(exists|w: int| rest + 1 <= w < qv.len() && qv[w] == pre[p]@[0]);
                    let w = choose|w: int| rest + 1 <= w < qv.len() && qv[w] == pre[p]@[0];
                    assert(seq_tags(states@)[p] == qv[w]);
                    assert(qv[w] != qv[rest]) by {
                        if qv[w] == qv[rest] {
                            assert(crate::utils::duped::seq_has_dup(qv));
                        }
                    }
                }
            }
            assert forall|j: int|
                rest <= j < qv.len() implies seq_tags(states@).contains(#[trigger] qv[j]) by {
                if j == rest {
                    assert(qv[j] == qv[rest]);
                } else {
                    assert(seq_tags(pre).contains(qv[j]));
                    let p = choose|p: int|
                        0 <= p < seq_tags(pre).len() && seq_tags(pre)[p] == qv[j];
                    assert(seq_tags(states@)[p] == qv[j]);
                }
            }
        }
    }
    proof {
        assert(qv.take(0) =~= Seq::<S>::empty());
    }
    states
}

/// Index of a state with an initial phase.
pub(crate) fn get_initial_state<S>(states: &Vec<State<S>>) -> (r: usize)
    requires
        exists|i: int|
            0 <= i < states@.len() && phase_is_initial(#[trigger] states@[i].phase_spec()),
    ensures
        0 <= r < states@.len(),
        phase_is_initial(states@[r as int].phase_spec()),
{
    let n: usize = states.len();
    let mut i: usize = 0;
    while i < n
        invariant
            n == states@.len(),
            exists|p: int|
                0 <= p < states@.len() && phase_is_initial(#[trigger] states@[p].phase_spec()),
            forall|p: int| 0 <= p < i ==> !phase_is_initial(#[trigger] states@[p].phase_spec()),
        decreases n - i,
    {
        if states[i].is_initial() {
            return i;
        }
        i = i + 1;
    }
    proof {
        assert(false);
    }
    0
}

/// Looks a tag up in the arena: the index of the state carrying it.
pub(crate) fn find_key<S: PartialEq>(states: &Vec<State<S>>, tag: &S) -> (r: Option<usize>)
    requires
        obeys_concrete_eq::<S>(),
        all_single(states@),
    ensures
        match r {
            Some(i) => 0 <= i < states@.len() && states@[i as int]@[0] == *tag,
            None => !seq_tags(states@).contains(*tag),
        },
{
    let n: usize = states.len();
    let mut i: usize = 0;
    while i < n
        invariant
            obeys_concrete_eq::<S>(),
            all_single(states@),
            n == states@.len(),
            forall|p: int| 0 <= p < i ==> states@[p]@[0] != *tag,
        decreases n - i,
    {
        proof {
            reveal(obeys_concrete_eq);
        }
        let st_tags = states[i].tags();
        if st_tags[0] == *tag {
            return Some(i);
        }
        i = i + 1;
    }
    proof {
        assert forall|p: int| 0 <= p < seq_tags(states@).len() implies seq_tags(states@)[p]
            != *tag by {
            assert(seq_tags(states@)[p] == states@[p]@[0]);
        }
    }
    None
}

/// Whether some entry other than `tag`'s own has an edge into `tag`.
#[verifier::loop_isolation(false)]
pub(crate) fn tag_has_incoming<A, S: PartialEq>(delta: &Delta<A, S>, tag: &S) -> (r: bool)
    requires
        obeys_concrete_eq::<S>(),
    ensures
        r == !no_incoming_from_others(delta@, *tag),
{
    let entries = delta.entries();
    let n: usize = entries.len();
    let mut j: usize = 0;
    while j < n
        invariant
            forall|p: int, k: int|
                0 <= p < j && 0 <= k < delta@[p].1@.len() && delta@[p].0 != *tag ==> (
                #[trigger] delta@[p].1@[k]).1 != *tag,
        decreases n - j,
    {
        proof {
            reveal(obeys_concrete_eq);
        }
        if !(entries[j].0 == *tag) {
            let m: usize = entries[j].1.len();
            let mut k: usize = 0;
            while k < m
                invariant
                    0 <= j < n,
                    m == delta@[j as int].1@.len(),
                    delta@[j as int].0 != *tag,
                    forall|q: int| 0 <= q < k ==> (#[trigger] delta@[j as int].1@[q]).1 != *tag,
                decreases m - k,
            {
                proof {
                    reveal(obeys_concrete_eq);
                }
                if entries[j].1[k].1 == *tag {
                    return true;
                }
                k = k + 1;
            }
        }
        j = j + 1;
    }
    false
}

/// The dangling-state check, over the raw transition function: no non-initial
/// source may lack an incoming edge from another entry.
#[verifier::loop_isolation(false)]
pub(crate) fn check_dangling<A, S: PartialEq>(delta: &Delta<A, S>, q0: &S) -> (r: bool)
    requires
        obeys_concrete_eq::<S>(),
    ensures
        r == dangling_state_exists(delta@, *q0),
{
    let entries = delta.entries();
    let n: usize = entries.len();
    let mut j: usize = 0;
    while j < n
        invariant
            forall|p: int|
                0 <= p < j ==> !((#[trigger] delta@[p].0) != *q0 && no_incoming_from_others(
                    delta@,
                    delta@[p].0,
                )),
        decreases n - j,
    {
        proof {
            reveal(obeys_concrete_eq);
        }
        if !(entries[j].0 == *q0) && !tag_has_incoming(delta, &entries[j].0) {
            return true;
        }
        j = j + 1;
    }
    false
}

} // verus!
