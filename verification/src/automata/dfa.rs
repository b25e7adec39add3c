//! Deterministic finite automaton over the canonical model.
//!
//! A DFA's transition table is total and single-valued: every state has
//! exactly one outgoing edge per alphabet symbol, so a step is one lookup
//! that can only fail on a symbol outside the alphabet.

use vstd::laws_eq::obeys_concrete_eq;
use vstd::pervasive::VecAdditionalExecFns;
use vstd::prelude::*;

use crate::automata::{
    all_single, check_dangling, convert_to_transitions, dangling_state_exists, find_key,
    get_initial_state, seq_tags, states_faithful, undefined_final_exists,
    unreferenced_state_exists, validate_fa_configuration, ERR_DANGLING_STATE, ERR_INVALID_INPUT,
    ERR_UNDEFINED_FINAL_STATE, ERR_UNDEFINED_INITIAL_STATE, ERR_UNDEFINED_TRANSITION_STATE,
    ERR_UNREFERENCED_STATE_Q,
};
use crate::model::delta::{is_source, Delta, Entry};
use crate::model::state::{phase_is_final, phase_is_initial, phase_of, State};
use crate::model::{Sigma, F, Q};
use crate::utils::duped::seq_has_dup;

verus! {

pub const ERR_DUPLICATE_INPUT_TRANSITION: &'static str =
    "Each state transition must define unique input transitions";

pub const ERR_INCOMPLETE_INPUT_TRANSITIONS: &'static str =
    "Each transition function must define a transition state for all inputs";

pub const ERR_UNDEFINED_SYMBOL: &'static str = "Symbol is not defined in input transitions";

/// Some edge of `row` carries the symbol `a`.
pub open spec fn row_has_sym<A, T>(row: Seq<(A, T)>, a: A) -> bool {
    exists|k: int| 0 <= k < row.len() && row[k].0 == a
}

/// Two edges of `row` carry equal symbols.
pub open spec fn row_has_dup_sym<A, T>(row: Seq<(A, T)>) -> bool {
    exists|k1: int, k2: int| 0 <= k1 < k2 < row.len() && row[k1].0 == row[k2].0
}

/// The per-symbol coverage rule of a DFA row, in check order: every alphabet
/// symbol must occur; no symbol outside the alphabet may occur; and no symbol
/// may occur twice.
pub open spec fn dfa_row_fault<A, S>(row: Seq<(A, S)>, sigma: Seq<A>) -> Option<&'static str> {
    if exists|k: int| 0 <= k < sigma.len() && !row_has_sym(row, #[trigger] sigma[k]) {
        Some(ERR_INCOMPLETE_INPUT_TRANSITIONS)
    } else if exists|k: int| 0 <= k < row.len() && !sigma.contains(#[trigger] row[k].0) {
        Some(ERR_UNDEFINED_SYMBOL)
    } else if row.len() != sigma.len() || row_has_dup_sym(row) {
        Some(ERR_DUPLICATE_INPUT_TRANSITION)
    } else {
        None
    }
}

/// The first fault of one transition entry: its row's coverage rule, then the
/// resolution of its source and of each of its targets against the table keys.
pub open spec fn dfa_entry_fault<A, S>(e: Entry<A, S>, sigma: Seq<A>, keys: Seq<S>) -> Option<
    &'static str,
> {
    match dfa_row_fault(e.1@, sigma) {
        Some(err) => Some(err),
        None => {
            if !keys.contains(e.0) {
                Some(ERR_UNDEFINED_TRANSITION_STATE)
            } else if exists|k: int| 0 <= k < e.1@.len() && !keys.contains(#[trigger] e.1@[k].1) {
                Some(ERR_UNDEFINED_TRANSITION_STATE)
            } else {
                None
            }
        },
    }
}

/// The first fault among the entries of `d` from position `i` on.
pub open spec fn dfa_entries_fault<A, S>(
    d: Seq<Entry<A, S>>,
    sigma: Seq<A>,
    keys: Seq<S>,
    i: int,
) -> Option<&'static str>
    decreases d.len() - i,
{
    if i < 0 || i >= d.len() {
        None
    } else {
        match dfa_entry_fault(d[i], sigma, keys) {
            Some(err) => Some(err),
            None => dfa_entries_fault(d, sigma, keys, i + 1),
        }
    }
}

/// When every entry before `i` is fault-free, the first fault overall is the
/// first fault from `i` on.
proof fn lemma_entries_fault_from<A, S>(d: Seq<Entry<A, S>>, sigma: Seq<A>, keys: Seq<S>, i: int)
    requires
        0 <= i <= d.len(),
        forall|j: int| 0 <= j < i ==> dfa_entry_fault(#[trigger] d[j], sigma, keys) is None,
    ensures
        dfa_entries_fault(d, sigma, keys, 0) == dfa_entries_fault(d, sigma, keys, i),
    decreases i,
{
    if i > 0 {
        lemma_entries_fault_from(d, sigma, keys, i - 1);
    }
}

/// The fault position only reads the keys through membership.
proof fn lemma_entries_fault_same_keys<A, S>(
    d: Seq<Entry<A, S>>,
    sigma: Seq<A>,
    keys1: Seq<S>,
    keys2: Seq<S>,
    i: int,
)
    requires
        forall|t: S| keys1.contains(t) == keys2.contains(t),
    ensures
        dfa_entries_fault(d, sigma, keys1, i) == dfa_entries_fault(d, sigma, keys2, i),
    decreases d.len() - i,
{
    if 0 <= i < d.len() {
        assert(dfa_entry_fault(d[i], sigma, keys1) == dfa_entry_fault(d[i], sigma, keys2));
        lemma_entries_fault_same_keys(d, sigma, keys1, keys2, i + 1);
    }
}

/// The whole construction cascade of a DFA, in validation order: referential
/// integrity of the configuration, then each entry in order, then the
/// dangling-state check.
pub open spec fn dfa_config_fault<A, S>(
    q: Seq<S>,
    sigma: Seq<A>,
    d: Seq<Entry<A, S>>,
    q0: S,
    f: Seq<S>,
) -> Option<&'static str> {
    if unreferenced_state_exists(q, d) {
        Some(ERR_UNREFERENCED_STATE_Q)
    } else if !q.contains(q0) {
        Some(ERR_UNDEFINED_INITIAL_STATE)
    } else if undefined_final_exists(q, f) {
        Some(ERR_UNDEFINED_FINAL_STATE)
    } else {
        match dfa_entries_fault(d, sigma, q, 0) {
            Some(err) => Some(err),
            None => {
                if dangling_state_exists(d, q0) {
                    Some(ERR_DANGLING_STATE)
                } else {
                    None
                }
            },
        }
    }
}

/// One id-level edge row corresponds to one raw entry row: same length, same
/// symbols in the same order, and each target id carries the raw target tag.
pub open spec fn row_matches<A, S>(row: Seq<(A, usize)>, raw: Seq<(A, S)>, tags: Seq<S>) -> bool {
    &&& row.len() == raw.len()
    &&& forall|k: int|
        0 <= k < row.len() ==> {
            &&& (#[trigger] row[k]).0 == raw[k].0
            &&& 0 <= row[k].1 < tags.len()
            &&& tags[row[k].1 as int] == raw[k].1
        }
}

/// Deterministic finite automaton: canonical states in an arena, one
/// total and single-valued edge row per state, and a single current state.
pub struct DFA<A, S> {
    states: Vec<State<S>>,
    rows: Vec<Vec<(A, usize)>>,
    alphabet: Ghost<Seq<A>>,
    init: usize,
    current: usize,
}

impl<A, S> DFA<A, S> {
    /// The canonical states, with their phases.
    pub closed spec fn states_spec(&self) -> Seq<State<S>> {
        self.states@
    }

    /// The tag of each table key.
    pub open spec fn tags_spec(&self) -> Seq<S> {
        seq_tags(self.states_spec())
    }

    /// The phase of the state at `i`.
    pub open spec fn phase_at(&self, i: int) -> crate::model::state::Phase {
        self.states_spec()[i].phase_spec()
    }

    /// The edge row of the state at `i`, targets as arena indices.
    pub closed spec fn row_at(&self, i: int) -> Seq<(A, usize)> {
        self.rows@[i]@
    }

    /// Number of edge rows.
    pub closed spec fn rows_len(&self) -> int {
        self.rows@.len() as int
    }

    /// The alphabet the table was validated against.
    pub closed spec fn alphabet_spec(&self) -> Seq<A> {
        self.alphabet@
    }

    /// The index of the initial state.
    pub closed spec fn init_spec(&self) -> int {
        self.init as int
    }

    /// The index of the current state.
    pub closed spec fn current_spec(&self) -> int {
        self.current as int
    }

    /// Number of states.
    pub closed spec fn size(&self) -> int {
        self.states@.len() as int
    }

    /// Well-formedness: what a successful construction guarantees, and what
    /// every later operation preserves.
    pub open spec fn wf(&self) -> bool {
        &&& 0 < self.size()
        &&& self.size() == self.states_spec().len()
        &&& self.size() <= usize::MAX
        &&& self.rows_len() == self.size()
        &&& all_single(self.states_spec())
        &&& !seq_has_dup(self.tags_spec())
        &&& forall|i: int, k: int|
            0 <= i < self.size() && 0 <= k < self.row_at(i).len() ==> 0 <= (
            #[trigger] self.row_at(i)[k]).1 < self.size()
        &&& forall|i: int| 0 <= i < self.size() ==> !row_has_dup_sym(#[trigger] self.row_at(i))
        &&& forall|i: int, a: A|
            0 <= i < self.size() ==> (#[trigger] row_has_sym(self.row_at(i), a)
                <==> self.alphabet_spec().contains(a))
        &&& 0 <= self.init_spec() < self.size()
        &&& phase_is_initial(self.phase_at(self.init_spec()))
        &&& forall|i: int|
            0 <= i < self.size() && i != self.init_spec() ==> !phase_is_initial(
                #[trigger] self.phase_at(i),
            )
        &&& 0 <= self.current_spec() < self.size()
    }

    /// The index the table sends state `i` to on symbol `a`: the target of the
    /// first edge of row `i` carrying `a`.
    pub open spec fn next_spec(&self, i: int, a: A) -> int {
        row_first(self.row_at(i), a)
    }

    /// A table-preserving update with an in-range cursor stays well-formed.
    proof fn lemma_wf_table(m1: Self, m2: Self)
        requires
            m1.wf(),
            unchanged_table(m1, m2),
            m2.rows_len() == m2.size(),
            0 <= m2.current_spec() < m2.size(),
        ensures
            m2.wf(),
    {
        assert(m2.tags_spec() == m1.tags_spec());
        assert forall|i: int, k: int|
            0 <= i < m2.size() && 0 <= k < m2.row_at(i).len() implies 0 <= (
        #[trigger] m2.row_at(i)[k]).1 < m2.size() by {
            assert(m2.row_at(i) == m1.row_at(i));
        }
        assert forall|i: int| 0 <= i < m2.size() implies !row_has_dup_sym(
            #[trigger] m2.row_at(i),
        ) by {
            assert(m2.row_at(i) == m1.row_at(i));
        }
        assert forall|i: int, a: A|
            0 <= i < m2.size() implies (#[trigger] row_has_sym(m2.row_at(i), a)
            <==> m2.alphabet_spec().contains(a)) by {
            assert(m2.row_at(i) == m1.row_at(i));
            assert(row_has_sym(m1.row_at(i), a) <==> m1.alphabet_spec().contains(a));
        }
        assert forall|i: int| 0 <= i < m2.size() implies #[trigger] m2.phase_at(i)
            == m1.phase_at(i) by {}
        assert(phase_is_initial(m2.phase_at(m2.init_spec())));
        assert forall|i: int|
            0 <= i < m2.size() && i != m2.init_spec() implies !phase_is_initial(
            #[trigger] m2.phase_at(i),
        ) by {
            assert(m2.phase_at(i) == m1.phase_at(i));
        }
    }

    /// Whether the current state is accepting.
    pub fn matches(&self) -> (r: bool)
        requires
            self.wf(),
        ensures
            r == phase_is_final(self.phase_at(self.current_spec())),
    {
        self.states[self.current].is_final()
    }

    /// Puts the automaton back in its initial state.
    pub fn reset(&mut self)
        requires
            old(self).wf(),
        ensures
            final(self).wf(),
            final(self).current_spec() == old(self).init_spec(),
            unchanged_table(*old(self), *final(self)),
    {
        let ini = self.init;
        self.current = ini;
        proof {
            assert forall|i: int| 0 <= i < self.size() implies #[trigger] self.row_at(i) == old(
                self,
            ).row_at(i) by {}
            Self::lemma_wf_table(*old(self), *self);
        }
    }
}

/// The target of the first edge of `row` carrying `a`, or `-1` when no edge
/// does.
pub open spec fn row_first<A>(row: Seq<(A, usize)>, a: A) -> int
    decreases row.len(),
{
    if row.len() == 0 {
        -1
    } else if row[0].0 == a {
        row[0].1 as int
    } else {
        row_first(row.drop_first(), a)
    }
}

/// `row_first` finds an edge exactly when one carries `a`, and then yields its
/// target.
pub proof fn lemma_row_first<A>(row: Seq<(A, usize)>, a: A)
    ensures
        row_has_sym(row, a) <==> row_first(row, a) >= 0,
        !row_has_sym(row, a) <==> row_first(row, a) == -1,
        row_has_sym(row, a) ==> exists|k: int|
            0 <= k < row.len() && (#[trigger] row[k]).0 == a && row[k].1 == row_first(row, a),
    decreases row.len(),
{
    if row.len() > 0 {
        lemma_row_first(row.drop_first(), a);
        if row[0].0 != a {
            if row_has_sym(row, a) {
                let k = choose|k: int| 0 <= k < row.len() && row[k].0 == a;
                assert(row.drop_first()[k - 1] == row[k]);
            }
            if row_has_sym(row.drop_first(), a) {
                let k = choose|k: int|
                    0 <= k < row.drop_first().len() && (#[trigger] row.drop_first()[k]).0 == a
                        && row.drop_first()[k].1 == row_first(row.drop_first(), a);
                assert(row[k + 1] == row.drop_first()[k]);
            }
        }
    }
}


/// Whether some edge of `row` carries the symbol `a`.
fn row_contains_sym<A: PartialEq, S>(row: &Vec<(A, S)>, a: &A) -> (r: bool)
    requires
        obeys_concrete_eq::<A>(),
    ensures
        r == row_has_sym(row@, *a),
{
    let n: usize = row.len();
    let mut k: usize = 0;
    while k < n
        invariant
            obeys_concrete_eq::<A>(),
            n == row@.len(),
            forall|p: int| 0 <= p < k ==> row@[p].0 != *a,
        decreases n - k,
    {
        proof {
            reveal(obeys_concrete_eq);
        }
        if row[k].0 == *a {
            return true;
        }
        k = k + 1;
    }
    false
}

/// Checks one raw row against the DFA coverage rule, in order: every alphabet
/// symbol present, no foreign symbol, no symbol twice.
#[verifier::loop_isolation(false)]
fn check_dfa_row<A: PartialEq, S>(row: &Vec<(A, S)>, sigma: &Sigma<A>) -> (r: Result<
    (),
    &'static str,
>)
    requires
        obeys_concrete_eq::<A>(),
    ensures
        match r {
            Ok(u) => dfa_row_fault(row@, sigma@) is None,
            Err(e) => dfa_row_fault(row@, sigma@) == Some(e),
        },
{
    let syms = sigma.symbols();
    let n: usize = syms.len();
    let mut k: usize = 0;
    while k < n
        invariant
            forall|p: int| 0 <= p < k ==> row_has_sym(row@, #[trigger] sigma@[p]),
        decreases n - k,
    {
        if !row_contains_sym(row, &syms[k]) {
            return Err(ERR_INCOMPLETE_INPUT_TRANSITIONS);
        }
        k = k + 1;
    }
    let m: usize = row.len();
    let mut k: usize = 0;
    while k < m
        invariant
            forall|p: int| 0 <= p < k ==> sigma@.contains(#[trigger] row@[p].0),
        decreases m - k,
    {
        if !sigma.contains(&row[k].0) {
            return Err(ERR_UNDEFINED_SYMBOL);
        }
        k = k + 1;
    }
    if row.len() != sigma.len() {
        return Err(ERR_DUPLICATE_INPUT_TRANSITION);
    }
    let mut k: usize = 1;
    while k < m
        invariant
            1 <= k,
            forall|p: int, q: int| 0 <= p < q < k ==> row@[p].0 != row@[q].0,
        decreases m - k,
    {
        let mut j: usize = 0;
        while j < k
            invariant
                0 <= j <= k < m,
                forall|q: int| 0 <= q < j ==> row@[q].0 != row@[k as int].0,
            decreases k - j,
        {
            proof {
                reveal(obeys_concrete_eq);
            }
            if row[j].0 == row[k].0 {
                return Err(ERR_DUPLICATE_INPUT_TRANSITION);
            }
            j = j + 1;
        }
        k = k + 1;
    }
    assert(!row_has_dup_sym(row@));
    Ok(())
}

impl<A: PartialEq, S: PartialEq> DFA<A, S> {
    /// Resolves every raw entry into an id-level edge row stored at its
    /// source's arena index, after holding the entry to the DFA coverage
    /// rule. Fails with the first fault, in entry order.
    #[verifier::loop_isolation(false)]
    fn add_input_transitions(
        states: &Vec<State<S>>,
        sigma: &Sigma<A>,
        delta: Delta<A, S>,
    ) -> (r: Result<Vec<Vec<(A, usize)>>, &'static str>)
        requires
            obeys_concrete_eq::<A>(),
            obeys_concrete_eq::<S>(),
            all_single(states@),
            !seq_has_dup(seq_tags(states@)),
            forall|i: int|
                0 <= i < states@.len() ==> is_source(delta@, #[trigger] seq_tags(states@)[i]),
        ensures
            match r {
                Err(e) => dfa_entries_fault(delta@, sigma@, seq_tags(states@), 0) == Some(e),
                Ok(rows) => {
                    &&& dfa_entries_fault(delta@, sigma@, seq_tags(states@), 0) is None
                    &&& rows@.len() == states@.len()
                    &&& forall|i: int|
                        0 <= i < states@.len() ==> exists|j: int|
                            0 <= j < delta@.len() && delta@[j].0 == seq_tags(states@)[i]
                                && row_matches(
                                (#[trigger] rows@[i])@,
                                delta@[j].1@,
                                seq_tags(states@),
                            )
                },
            },
    {
        let ghost dv = delta@;
        let ghost tagsv = seq_tags(states@);
        proof {
            use_type_invariant(&delta);
        }
        let mut entries = delta.into_entries();
        let nkeys: usize = states.len();
        let mut rows: Vec<Vec<(A, usize)>> = Vec::new();
        let mut z: usize = 0;
        while z < nkeys
            invariant
                rows@.len() == z,
                z <= nkeys,
            decreases nkeys - z,
        {
            rows.push(Vec::new());
            z = z + 1;
        }
        let total_e: usize = entries.len();
        let ghost total = dv.len() as int;
        let mut p: usize = 0;
        proof {
            assert(entries@ =~= dv.skip(0));
        }
        while entries.len() > 0
            invariant
                total_e as int == total,
                p + entries@.len() == total,
                entries@ == dv.skip(p as int),
                rows@.len() == states@.len(),
                forall|j: int|
                    0 <= j < p ==> dfa_entry_fault(#[trigger] dv[j], sigma@, tagsv) is None,
                forall|i: int| #![trigger tagsv[i]]
                    0 <= i < states@.len() && (exists|j: int|
                        0 <= j < p && (#[trigger] dv[j]).0 == tagsv[i]) ==> exists|j: int|
                        0 <= j < p && (#[trigger] dv[j]).0 == tagsv[i] && row_matches(
                            rows@[i]@,
                            dv[j].1@,
                            tagsv,
                        ),
            decreases entries@.len(),
        {
            let entry = entries.remove(0);
            let ghost pi = p as int;
            proof {
                assert(entry == dv[pi]);
                assert(entries@ =~= dv.skip(pi + 1));
            }
            let (src, raw) = entry;
            match check_dfa_row(&raw, sigma) {
                Ok(_) => (),
                Err(e) => {
                    proof {
                        lemma_entries_fault_from(dv, sigma@, tagsv, pi);
                    }
                    return Err(e);
                },
            }
            let src_idx = match find_key(states, &src) {
                Some(i) => i,
                None => {
                    proof {
                        lemma_entries_fault_from(dv, sigma@, tagsv, pi);
                    }
                    return Err(ERR_UNDEFINED_TRANSITION_STATE);
                },
            };
            let ghost rawv = raw@;
            let mut pending = raw;
            let mut ids: Vec<(A, usize)> = Vec::new();
            proof {
                assert(pending@ =~= rawv.skip(0));
            }
            while pending.len() > 0
                invariant
                    ids@.len() + pending@.len() == rawv.len(),
                    pending@ == rawv.skip(ids@.len() as int),
                    forall|k: int|
                        0 <= k < ids@.len() ==> {
                            &&& (#[trigger] ids@[k]).0 == rawv[k].0
                            &&& 0 <= ids@[k].1 < tagsv.len()
                            &&& tagsv[ids@[k].1 as int] == rawv[k].1
                        },
                decreases pending@.len(),
            {
                let ghost done = ids@.len() as int;
                let edge = pending.remove(0);
                proof {
                    assert(edge == rawv[done]);
                    assert(pending@ =~= rawv.skip(done + 1));
                }
                let (sym, tgt) = edge;
                let tgt_idx = match find_key(states, &tgt) {
                    Some(i) => i,
                    None => {
                        proof {
                            assert(!tagsv.contains(rawv[done].1));
                            assert(dfa_entry_fault(dv[pi], sigma@, tagsv)
                                == Some(ERR_UNDEFINED_TRANSITION_STATE));
                            lemma_entries_fault_from(dv, sigma@, tagsv, pi);
                        }
                        return Err(ERR_UNDEFINED_TRANSITION_STATE);
                    },
                };
                proof {
                    assert(seq_tags(states@)[tgt_idx as int] == states@[tgt_idx as int]@[0]);
                }
                ids.push((sym, tgt_idx));
            }
            proof {
                assert(rawv.skip(ids@.len() as int).len() == 0);
                assert(ids@.len() == rawv.len());
                assert(row_matches(ids@, rawv, tagsv));
                assert(seq_tags(states@)[src_idx as int] == states@[src_idx as int]@[0]);
                assert(tagsv[src_idx as int] == dv[pi].0);
                assert(tagsv.contains(dv[pi].0));
                assert forall|k: int|
                    0 <= k < dv[pi].1@.len() implies tagsv.contains(
                    #[trigger] dv[pi].1@[k].1,
                ) by {
                    assert(tagsv[ids@[k].1 as int] == rawv[k].1);
                }
                assert(dfa_entry_fault(dv[pi], sigma@, tagsv) is None);
            }
            let ghost oldrows = rows@;
            rows.set(src_idx, ids);
            p = p + 1;
            proof {
                assert forall|i: int| #![trigger tagsv[i]]
                    0 <= i < states@.len() && (exists|j: int|
                        0 <= j < p && (#[trigger] dv[j]).0 == tagsv[i]) implies exists|j: int|
                        0 <= j < p && (#[trigger] dv[j]).0 == tagsv[i] && row_matches(
                            rows@[i]@,
                            dv[j].1@,
                            tagsv,
                        ) by {
                    if i == src_idx as int {
                        assert(dv[pi].0 == tagsv[i] && row_matches(rows@[i]@, dv[pi].1@, tagsv));
                    } else {
                        let j0 = choose|j: int| 0 <= j < p && (#[trigger] dv[j]).0 == tagsv[i];
                        if j0 == pi {
                            assert(tagsv[i] == dv[pi].0 && tagsv[src_idx as int] == dv[pi].0);
                            assert(seq_has_dup(tagsv));
                            assert(false);
                        } else {
                            assert(rows@[i] == oldrows[i]);
                        }
                    }
                }
            }
        }
        proof {
            assert(dv.skip(p as int).len() == 0);
            assert(p == total);
            lemma_entries_fault_from(dv, sigma@, tagsv, total);
            assert forall|i: int| #![trigger tagsv[i]] 0 <= i < states@.len() implies exists|j: int|
                0 <= j < dv.len() && (#[trigger] dv[j]).0 == tagsv[i] && row_matches(
                    rows@[i]@,
                    dv[j].1@,
                    tagsv,
                ) by {
                assert(is_source(dv, tagsv[i]));
            }
        }
        Ok(rows)
    }

    /// The dangling-state check: no non-initial source of the transition
    /// function may lack an incoming edge from another entry.
    fn validate_dfa(delta: &Delta<A, S>, q0: &S) -> (r: Result<(), &'static str>)
        requires
            obeys_concrete_eq::<S>(),
        ensures
            match r {
                Ok(u) => !dangling_state_exists(delta@, *q0),
                Err(e) => e == ERR_DANGLING_STATE && dangling_state_exists(delta@, *q0),
            },
    {
        if check_dangling(delta, q0) {
            Err(ERR_DANGLING_STATE)
        } else {
            Ok(())
        }
    }

}


/// When no fault remains from `i` on, every entry from `i` on is fault-free.
proof fn lemma_entries_fault_none<A, S>(d: Seq<Entry<A, S>>, sigma: Seq<A>, keys: Seq<S>, i: int)
    requires
        0 <= i,
        dfa_entries_fault(d, sigma, keys, i) is None,
    ensures
        forall|j: int| i <= j < d.len() ==> dfa_entry_fault(#[trigger] d[j], sigma, keys) is None,
    decreases d.len() - i,
{
    if 0 <= i < d.len() {
        lemma_entries_fault_none(d, sigma, keys, i + 1);
    }
}

/// The table as held by the machine corresponds entry-for-entry to the raw
/// transition function it was built from.
pub open spec fn table_faithful<A, S>(m: DFA<A, S>, d: Seq<Entry<A, S>>) -> bool {
    forall|i: int|
        0 <= i < m.size() ==> exists|j: int|
            0 <= j < d.len() && d[j].0 == m.tags_spec()[i] && row_matches(
                #[trigger] m.row_at(i),
                d[j].1@,
                m.tags_spec(),
            )
}

impl<A: PartialEq, S: PartialEq> DFA<A, S> {
    /// Builds a DFA from a validated configuration, running the whole
    /// construction cascade: referential integrity, state-arena construction,
    /// per-entry resolution under the total-and-single-valued coverage rule,
    /// and the dangling-state check. Returns the machine positioned on its
    /// initial state, or the first configuration fault.
    pub fn new(q: Q<S>, sigma: &Sigma<A>, delta: Delta<A, S>, q0: S, f: &F<S>) -> (r: Result<
        Self,
        &'static str,
    >)
        requires
            obeys_concrete_eq::<A>(),
            obeys_concrete_eq::<S>(),
        ensures
            match dfa_config_fault(q@, sigma@, delta@, q0, f@) {
                Some(e) => r matches Err(e2) && e2 == e,
                None => r matches Ok(m) && {
                    &&& m.wf()
                    &&& m.alphabet_spec() == sigma@
                    &&& states_faithful(m.states_spec(), q@, q0, f@)
                    &&& table_faithful(m, delta@)
                    &&& m.current_spec() == m.init_spec()
                },
            },
    {
        let ghost qv = q@;
        let ghost dv = delta@;
        let ghost fv = f@;
        proof {
            use_type_invariant(&q);
            use_type_invariant(&delta);
        }
        match validate_fa_configuration(&q, &delta, &q0, f) {
            Ok(_) => (),
            Err(e) => {
                return Err(e);
            },
        }
        let states = convert_to_transitions(q, &q0, f);
        let ghost tagsv = seq_tags(states@);
        proof {
            assert forall|i: int| 0 <= i < states@.len() implies is_source(
                dv,
                #[trigger] seq_tags(states@)[i],
            ) by {
                assert(seq_tags(states@)[i] == states@[i]@[0]);
                assert(qv.contains(states@[i]@[0]));
                let w = choose|w: int| 0 <= w < qv.len() && qv[w] == states@[i]@[0];
                assert(is_source(dv, qv[w]));
            }
            assert forall|t: S| #![trigger qv.contains(t)]
                tagsv.contains(t) == qv.contains(t) by {
                if tagsv.contains(t) {
                    let i = choose|i: int| 0 <= i < tagsv.len() && tagsv[i] == t;
                    assert(qv.contains(states@[i]@[0]));
                }
                if qv.contains(t) {
                    let w = choose|w: int| 0 <= w < qv.len() && qv[w] == t;
                    assert(tagsv.contains(qv[w]));
                }
            }
            lemma_entries_fault_same_keys(dv, sigma@, tagsv, qv, 0);
            assert(tagsv.contains(q0));
            let i = choose|i: int| 0 <= i < tagsv.len() && tagsv[i] == q0;
            assert(states@[i].phase_spec() == phase_of(q0, q0, fv));
            assert(phase_is_initial(states@[i].phase_spec()));
        }
        let dangling = Self::validate_dfa(&delta, &q0);
        let rows = match Self::add_input_transitions(&states, sigma, delta) {
            Ok(rows) => rows,
            Err(e) => {
                return Err(e);
            },
        };
        proof {
            lemma_entries_fault_none(dv, sigma@, tagsv, 0);
        }
        match dangling {
            Ok(_) => (),
            Err(e) => {
                return Err(e);
            },
        }
        let init = get_initial_state(&states);
        let n_states: usize = states.len();
        let m = DFA {
            states,
            rows,
            alphabet: Ghost(sigma@),
            init,
            current: init,
        };
        proof {
            assert(m.states_spec() == m.states@);
            assert(m.size() == n_states as int);
            assert forall|i: int| 0 <= i < m.size() implies exists|j: int|
                0 <= j < dv.len() && dv[j].0 == m.tags_spec()[i] && row_matches(
                    #[trigger] m.row_at(i),
                    dv[j].1@,
                    m.tags_spec(),
                ) by {
                assert(m.row_at(i) == rows@[i]@);
            }
            assert forall|i: int, k: int|
                0 <= i < m.size() && 0 <= k < m.row_at(i).len() implies 0 <= (
            #[trigger] m.row_at(i)[k]).1 < m.size() by {
                let j = choose|j: int|
                    0 <= j < dv.len() && dv[j].0 == m.tags_spec()[i] && row_matches(
                        m.row_at(i),
                        dv[j].1@,
                        m.tags_spec(),
                    );
            }
            assert forall|i: int| 0 <= i < m.size() implies !row_has_dup_sym(
                #[trigger] m.row_at(i),
            ) by {
                let j = choose|j: int|
                    0 <= j < dv.len() && dv[j].0 == m.tags_spec()[i] && row_matches(
                        m.row_at(i),
                        dv[j].1@,
                        m.tags_spec(),
                    );
                assert(dfa_entry_fault(dv[j], sigma@, tagsv) is None);
                assert(!row_has_dup_sym(dv[j].1@));
                if row_has_dup_sym(m.row_at(i)) {
                    let (k1, k2) = choose|k1: int, k2: int|
                        0 <= k1 < k2 < m.row_at(i).len() && m.row_at(i)[k1].0 == m.row_at(
                            i,
                        )[k2].0;
                    assert(dv[j].1@[k1].0 == dv[j].1@[k2].0);
                    assert(false);
                }
            }
            assert forall|i: int, a: A|
                0 <= i < m.size() implies (#[trigger] row_has_sym(m.row_at(i), a)
                <==> m.alphabet_spec().contains(a)) by {
                let j = choose|j: int|
                    0 <= j < dv.len() && dv[j].0 == m.tags_spec()[i] && row_matches(
                        m.row_at(i),
                        dv[j].1@,
                        m.tags_spec(),
                    );
                assert(dfa_entry_fault(dv[j], sigma@, tagsv) is None);
                let raw = dv[j].1@;
                if row_has_sym(m.row_at(i), a) {
                    let k = choose|k: int| 0 <= k < m.row_at(i).len() && m.row_at(i)[k].0 == a;
                    assert(raw[k].0 == a);
                    assert(sigma@.contains(raw[k].0));
                }
                if sigma@.contains(a) {
                    let k = choose|k: int| 0 <= k < sigma@.len() && sigma@[k] == a;
                    assert(row_has_sym(raw, sigma@[k]));
                    let k2 = choose|k2: int| 0 <= k2 < raw.len() && raw[k2].0 == a;
                    assert(m.row_at(i)[k2].0 == a);
                    assert(row_has_sym(m.row_at(i), a));
                }
            }
            assert forall|i: int|
                0 <= i < m.size() && i != m.init_spec() implies !phase_is_initial(
                #[trigger] m.phase_at(i),
            ) by {
                if phase_is_initial(m.phase_at(i)) {
                    assert(m.phase_at(i) == phase_of(m.tags_spec()[i], q0, fv));
                    assert(m.tags_spec()[i] == q0);
                    assert(m.phase_at(m.init_spec()) == phase_of(
                        m.tags_spec()[m.init_spec()],
                        q0,
                        fv,
                    ));
                    assert(m.tags_spec()[m.init_spec()] == q0);
                    assert(seq_has_dup(m.tags_spec()));
                    assert(false);
                }
            }
            assert(m.wf());
        }
        Ok(m)
    }
}

/// Looks the symbol up in an edge row: the target of the first edge carrying
/// it.
fn row_lookup<A: PartialEq>(row: &Vec<(A, usize)>, input: &A) -> (r: Option<usize>)
    requires
        obeys_concrete_eq::<A>(),
    ensures
        match r {
            Some(j) => row_has_sym(row@, *input) && j as int == row_first(row@, *input),
            None => !row_has_sym(row@, *input),
        },
{
    let n: usize = row.len();
    let mut k: usize = 0;
    proof {
        assert(row@.skip(0) =~= row@);
    }
    while k < n
        invariant
            obeys_concrete_eq::<A>(),
            n == row@.len(),
            0 <= k <= n,
            forall|p: int| 0 <= p < k ==> row@[p].0 != *input,
            row_first(row@, *input) == row_first(row@.skip(k as int), *input),
        decreases n - k,
    {
        proof {
            reveal(obeys_concrete_eq);
            assert(row@.skip(k as int)[0] == row@[k as int]);
        }
        if row[k].0 == *input {
            proof {
                assert(row_first(row@.skip(k as int), *input) == row@[k as int].1);
            }
            return Some(row[k].1);
        }
        k = k + 1;
        proof {
            assert(row@.skip(k - 1).drop_first() =~= row@.skip(k as int));
        }
    }
    proof {
        assert(row@.skip(n as int).len() == 0);
        lemma_row_first(row@, *input);
    }
    None
}

/// Whether every symbol of `s` belongs to the machine's alphabet.
pub open spec fn all_valid<A, S>(m: DFA<A, S>, s: Seq<A>) -> bool {
    forall|k: int| 0 <= k < s.len() ==> m.alphabet_spec().contains(#[trigger] s[k])
}

/// The state the machine reaches from `cur` after consuming `s`, all symbols
/// assumed valid.
pub open spec fn run_spec<A, S>(m: DFA<A, S>, cur: int, s: Seq<A>) -> int
    decreases s.len(),
{
    if s.len() == 0 {
        cur
    } else {
        run_spec(m, m.next_spec(cur, s[0]), s.drop_first())
    }
}

/// Consuming one more symbol advances the run by one step.
pub proof fn lemma_run_push<A, S>(m: DFA<A, S>, cur: int, s: Seq<A>, a: A)
    ensures
        run_spec(m, cur, s.push(a)) == m.next_spec(run_spec(m, cur, s), a),
    decreases s.len(),
{
    if s.len() == 0 {
        assert(s.push(a)[0] == a);
        assert(s.push(a).drop_first() =~= Seq::<A>::empty());
        assert(run_spec(m, m.next_spec(cur, a), Seq::<A>::empty()) == m.next_spec(cur, a));
    } else {
        assert(s.push(a)[0] == s[0]);
        assert(s.push(a).drop_first() =~= s.drop_first().push(a));
        lemma_run_push(m, m.next_spec(cur, s[0]), s.drop_first(), a);
    }
}

/// Machines that share a table run identically.
pub proof fn lemma_run_table<A, S>(m1: DFA<A, S>, m2: DFA<A, S>, cur: int, s: Seq<A>)
    requires
        unchanged_table(m1, m2),
        0 <= cur < m1.size(),
        m1.wf(),
        all_valid(m1, s),
    ensures
        run_spec(m1, cur, s) == run_spec(m2, cur, s),
        0 <= run_spec(m1, cur, s) < m1.size(),
    decreases s.len(),
{
    if s.len() > 0 {
        assert(m1.row_at(cur) == m2.row_at(cur));
        assert(m1.next_spec(cur, s[0]) == m2.next_spec(cur, s[0]));
        assert(m1.alphabet_spec().contains(s[0]));
        assert(row_has_sym(m1.row_at(cur), s[0]));
        lemma_row_first(m1.row_at(cur), s[0]);
        let k = choose|k: int|
            0 <= k < m1.row_at(cur).len() && (#[trigger] m1.row_at(cur)[k]).0 == s[0] && m1.row_at(
                cur,
            )[k].1 == row_first(m1.row_at(cur), s[0]);
        assert(0 <= m1.next_spec(cur, s[0]) < m1.size());
        assert forall|p: int| 0 <= p < s.drop_first().len() implies m1.alphabet_spec().contains(
            #[trigger] s.drop_first()[p],
        ) by {
            assert(s.drop_first()[p] == s[p + 1]);
        }
        lemma_run_table(m1, m2, m1.next_spec(cur, s[0]), s.drop_first());
    }
}

impl<A: PartialEq, S> DFA<A, S> {
    /// Advances the automaton on one symbol: fails with `ERR_INVALID_INPUT`
    /// exactly when the symbol is outside the alphabet, leaving the current
    /// state untouched; otherwise moves to the one successor the table
    /// dictates and returns it.
    pub fn step(&mut self, input: &A) -> (r: Result<&State<S>, &'static str>)
        requires
            old(self).wf(),
            obeys_concrete_eq::<A>(),
        ensures
            final(self).wf(),
            unchanged_table(*old(self), *final(self)),
            !old(self).alphabet_spec().contains(*input) ==> (r matches Err(e) && e
                == ERR_INVALID_INPUT) && final(self).current_spec() == old(self).current_spec(),
            old(self).alphabet_spec().contains(*input) ==> (r matches Ok(st) && {
                &&& final(self).current_spec() == old(self).next_spec(
                    old(self).current_spec(),
                    *input,
                )
                &&& st@ == seq![final(self).tags_spec()[final(self).current_spec()]]
                &&& st.phase_spec() == final(self).phase_at(final(self).current_spec())
            }),
    {
        let found = row_lookup(&self.rows[self.current], input);
        match found {
            Some(j) => {
                proof {
                    lemma_row_first(self.row_at(self.current_spec()), *input);
                }
                self.current = j;
                proof {
                    assert forall|i: int|
                        0 <= i < self.size() implies #[trigger] self.row_at(i) == old(
                        self,
                    ).row_at(i) by {}
                    Self::lemma_wf_table(*old(self), *self);
                    assert(seq_tags(self.states_spec())[j as int] == self.states_spec()[
                        j as int]@[0]);
                    assert(self.states_spec()[j as int]@ =~= seq![self.tags_spec()[j as int]]);
                }
                Ok(&self.states[j])
            },
            None => {
                proof {
                    assert forall|i: int|
                        0 <= i < self.size() implies #[trigger] self.row_at(i) == old(
                        self,
                    ).row_at(i) by {}
                    Self::lemma_wf_table(*old(self), *self);
                }
                Err(ERR_INVALID_INPUT)
            },
        }
    }

    /// Applies `step` to each symbol in order, stopping at the first symbol
    /// outside the alphabet; the automaton then rests on the state reached
    /// just before the failing step.
    #[verifier::loop_isolation(false)]
    pub fn steps(&mut self, inputs: &[A]) -> (r: Result<&State<S>, &'static str>)
        requires
            old(self).wf(),
            obeys_concrete_eq::<A>(),
        ensures
            final(self).wf(),
            unchanged_table(*old(self), *final(self)),
            all_valid(*old(self), inputs@) ==> (r matches Ok(st) && {
                &&& final(self).current_spec() == run_spec(
                    *old(self),
                    old(self).current_spec(),
                    inputs@,
                )
                &&& st@ == seq![final(self).tags_spec()[final(self).current_spec()]]
                &&& st.phase_spec() == final(self).phase_at(final(self).current_spec())
            }),
            !all_valid(*old(self), inputs@) ==> (r matches Err(e) && e == ERR_INVALID_INPUT
                && exists|k: int|
                {
                    &&& 0 <= k < inputs@.len()
                    &&& !old(self).alphabet_spec().contains(#[trigger] inputs@[k])
                    &&& forall|p: int|
                        0 <= p < k ==> old(self).alphabet_spec().contains(#[trigger] inputs@[p])
                    &&& final(self).current_spec() == run_spec(
                        *old(self),
                        old(self).current_spec(),
                        inputs@.take(k),
                    )
                }),
    {
        let n: usize = inputs.len();
        let mut k: usize = 0;
        while k < n
            invariant
                obeys_concrete_eq::<A>(),
                n == inputs@.len(),
                0 <= k <= n,
                self.wf(),
                unchanged_table(*old(self), *self),
                forall|p: int|
                    0 <= p < k ==> old(self).alphabet_spec().contains(#[trigger] inputs@[p]),
                self.current_spec() == run_spec(
                    *old(self),
                    old(self).current_spec(),
                    inputs@.take(k as int),
                ),
            decreases n - k,
        {
            let ghost pre = *self;
            let ghost curpre = self.current_spec();
            match self.step(&inputs[k]) {
                Ok(_) => (),
                Err(e) => {
                    proof {
                        assert(!pre.alphabet_spec().contains(inputs@[k as int]));
                        assert(!old(self).alphabet_spec().contains(inputs@[k as int]));
                        assert(self.current_spec() == run_spec(
                            *old(self),
                            old(self).current_spec(),
                            inputs@.take(k as int),
                        ));
                    }
                    return Err(e);
                },
            }
            proof {
                assert(pre.alphabet_spec().contains(inputs@[k as int]));
                assert(inputs@.take(k + 1) =~= inputs@.take(k as int).push(inputs@[k as int]));
                lemma_run_push(
                    *old(self),
                    old(self).current_spec(),
                    inputs@.take(k as int),
                    inputs@[k as int],
                );
                assert forall|p: int|
                    0 <= p < inputs@.take(k as int).len() implies old(
                    self,
                ).alphabet_spec().contains(#[trigger] inputs@.take(k as int)[p]) by {
                    assert(inputs@.take(k as int)[p] == inputs@[p]);
                }
                lemma_run_table(*old(self), pre, old(self).current_spec(), inputs@.take(k as int));
                assert(pre.row_at(curpre) == old(self).row_at(curpre));
                assert(pre.next_spec(curpre, inputs@[k as int]) == old(self).next_spec(
                    curpre,
                    inputs@[k as int],
                ));
            }
            k = k + 1;
        }
        proof {
            assert(inputs@.take(n as int) =~= inputs@);
        }
        Ok(&self.states[self.current])
    }
}


/// Totality and single-valuedness of a well-formed DFA table: every state has
/// an outgoing edge for a symbol exactly when the symbol belongs to the
/// alphabet, and never two edges for one symbol.
pub proof fn lemma_dfa_totality<A, S>(m: DFA<A, S>, i: int, a: A)
    requires
        m.wf(),
        0 <= i < m.size(),
    ensures
        row_has_sym(m.row_at(i), a) <==> m.alphabet_spec().contains(a),
        forall|k1: int, k2: int|
            0 <= k1 < m.row_at(i).len() && 0 <= k2 < m.row_at(i).len() && (
            #[trigger] m.row_at(i)[k1]).0 == a && (#[trigger] m.row_at(i)[k2]).0 == a ==> k1 == k2,
{
    assert forall|k1: int, k2: int|
        0 <= k1 < m.row_at(i).len() && 0 <= k2 < m.row_at(i).len() && (
    #[trigger] m.row_at(i)[k1]).0 == a && (#[trigger] m.row_at(i)[k2]).0 == a implies k1 == k2 by {
        if k1 != k2 {
            assert(row_has_dup_sym(m.row_at(i)));
        }
    }
}

/// Two automata share one table when states, rows, alphabet and initial state
/// agree; only the cursor may differ.
pub open spec fn unchanged_table<A, S>(m1: DFA<A, S>, m2: DFA<A, S>) -> bool {
    &&& m1.states_spec() == m2.states_spec()
    &&& m1.size() == m2.size()
    &&& forall|i: int| 0 <= i < m1.size() ==> m1.row_at(i) == m2.row_at(i)
    &&& m1.alphabet_spec() == m2.alphabet_spec()
    &&& m1.init_spec() == m2.init_spec()
}

} // verus!
