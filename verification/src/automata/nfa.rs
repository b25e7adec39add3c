//! Nondeterministic finite automaton over the canonical model.
//!
//! An NFA's transition table is partial and multi-valued: a state may omit
//! symbols and may name several targets for one symbol. The machine keeps a
//! set of current states and a step takes the union of every active state's
//! successors.

use vstd::laws_eq::obeys_concrete_eq;
use vstd::pervasive::VecAdditionalExecFns;
use vstd::prelude::*;

use crate::automata::{
    all_single, check_dangling, convert_to_transitions, dangling_state_exists, find_key,
    get_initial_state, seq_tags, states_faithful, undefined_final_exists,
    unreferenced_state_exists, validate_fa_configuration, ERR_DANGLING_STATE, ERR_INVALID_INPUT, ERR_UNDEFINED_FINAL_STATE,
    ERR_UNDEFINED_INITIAL_STATE, ERR_UNDEFINED_TRANSITION_STATE, ERR_UNREFERENCED_STATE_Q,
};
use crate::model::delta::{is_source, Delta, Entry};
use crate::model::state::{phase_is_final, phase_is_initial, phase_of, State};
use crate::model::{Sigma, F, Q};
use crate::utils::duped::seq_has_dup;

verus! {

pub const ERR_UNDEFINED_SYMBOL: &'static str = "Symbol is not defined in input transitions";

/// The first fault among the edges of one row, in edge order: the symbol must
/// belong to the alphabet, and the target must resolve against the table keys.
pub open spec fn nfa_edges_fault<A, S>(
    row: Seq<(A, S)>,
    sigma: Seq<A>,
    keys: Seq<S>,
    k: int,
) -> Option<&'static str>
    decreases row.len() - k,
{
    if k < 0 || k >= row.len() {
        None
    } else if !sigma.contains(row[k].0) {
        Some(ERR_UNDEFINED_SYMBOL)
    } else if !keys.contains(row[k].1) {
        Some(ERR_UNDEFINED_TRANSITION_STATE)
    } else {
        nfa_edges_fault(row, sigma, keys, k + 1)
    }
}

/// The first fault of one transition entry: its edges in order, then the
/// resolution of its source against the table keys.
pub open spec fn nfa_entry_fault<A, S>(e: Entry<A, S>, sigma: Seq<A>, keys: Seq<S>) -> Option<
    &'static str,
> {
    match nfa_edges_fault(e.1@, sigma, keys, 0) {
        Some(err) => Some(err),
        None => {
            if !keys.contains(e.0) {
                Some(ERR_UNDEFINED_TRANSITION_STATE)
            } else {
                None
            }
        },
    }
}

/// The first fault among the entries of `d` from position `i` on.
pub open spec fn nfa_entries_fault<A, S>(
    d: Seq<Entry<A, S>>,
    sigma: Seq<A>,
    keys: Seq<S>,
    i: int,
) -> Option<&'static str>
    decreases d.len() - i,
{
    if i < 0 || i >= d.len() {
        None
    } else {
        match nfa_entry_fault(d[i], sigma, keys) {
            Some(err) => Some(err),
            None => nfa_entries_fault(d, sigma, keys, i + 1),
        }
    }
}

/// When every entry before `i` is fault-free, the first fault overall is the
/// first fault from `i` on.
proof fn lemma_nfa_entries_fault_from<A, S>(
    d: Seq<Entry<A, S>>,
    sigma: Seq<A>,
    keys: Seq<S>,
    i: int,
)
    requires
        0 <= i <= d.len(),
        forall|j: int| 0 <= j < i ==> nfa_entry_fault(#[trigger] d[j], sigma, keys) is None,
    ensures
        nfa_entries_fault(d, sigma, keys, 0) == nfa_entries_fault(d, sigma, keys, i),
    decreases i,
{
    if i > 0 {
        lemma_nfa_entries_fault_from(d, sigma, keys, i - 1);
    }
}

/// When no fault remains from `i` on, every entry from `i` on is fault-free.
proof fn lemma_nfa_entries_fault_none<A, S>(
    d: Seq<Entry<A, S>>,
    sigma: Seq<A>,
    keys: Seq<S>,
    i: int,
)
    requires
        0 <= i,
        nfa_entries_fault(d, sigma, keys, i) is None,
    ensures
        forall|j: int| i <= j < d.len() ==> nfa_entry_fault(#[trigger] d[j], sigma, keys) is None,
    decreases d.len() - i,
{
    if 0 <= i < d.len() {
        lemma_nfa_entries_fault_none(d, sigma, keys, i + 1);
    }
}

/// The fault position only reads the keys through membership.
proof fn lemma_nfa_edges_fault_same_keys<A, S>(
    row: Seq<(A, S)>,
    sigma: Seq<A>,
    keys1: Seq<S>,
    keys2: Seq<S>,
    k: int,
)
    requires
        forall|t: S| keys1.contains(t) == keys2.contains(t),
    ensures
        nfa_edges_fault(row, sigma, keys1, k) == nfa_edges_fault(row, sigma, keys2, k),
    decreases row.len() - k,
{
    if 0 <= k < row.len() {
        lemma_nfa_edges_fault_same_keys(row, sigma, keys1, keys2, k + 1);
    }
}

/// The fault position only reads the keys through membership.
proof fn lemma_nfa_entries_fault_same_keys<A, S>(
    d: Seq<Entry<A, S>>,
    sigma: Seq<A>,
    keys1: Seq<S>,
    keys2: Seq<S>,
    i: int,
)
    requires
        forall|t: S| keys1.contains(t) == keys2.contains(t),
    ensures
        nfa_entries_fault(d, sigma, keys1, i) == nfa_entries_fault(d, sigma, keys2, i),
    decreases d.len() - i,
{
    if 0 <= i < d.len() {
        lemma_nfa_edges_fault_same_keys(d[i].1@, sigma, keys1, keys2, 0);
        assert(nfa_entry_fault(d[i], sigma, keys1) == nfa_entry_fault(d[i], sigma, keys2));
        lemma_nfa_entries_fault_same_keys(d, sigma, keys1, keys2, i + 1);
    }
}

/// The whole construction cascade of an NFA, in validation order.
pub open spec fn nfa_config_fault<A, S>(
    q: Seq<S>,
    sigma: Seq<A>,
    d: Seq<Entry<A, S>>,
    q0: S,
    f: Seq<S>,
) -> Option<&'static str> {
    if unreferenced_state_exists(q, d) {
        Some(ERR_UNREFERENCED_STATE_Q)
    } else if !q.contains(q0) {
        Some(ERR_UNDEFINED_INITIAL_STATE)
    } else if undefined_final_exists(q, f) {
        Some(ERR_UNDEFINED_FINAL_STATE)
    } else {
        match nfa_entries_fault(d, sigma, q, 0) {
            Some(err) => Some(err),
            None => {
                if dangling_state_exists(d, q0) {
                    Some(ERR_DANGLING_STATE)
                } else {
                    None
                }
            },
        }
    }
}

/// One id-level edge row corresponds to one raw entry row up to the set-union
/// collapse: every resolved raw edge occurs, nothing else occurs, and no
/// `(symbol, target)` pair occurs twice.
#[verifier::opaque]
pub open spec fn nfa_row_matches<A, S>(row: Seq<(A, usize)>, raw: Seq<(A, S)>, tags: Seq<S>) -> bool {
    &&& !seq_has_dup(row)
    &&& forall|k: int|
        0 <= k < row.len() ==> {
            &&& 0 <= (#[trigger] row[k]).1 < tags.len()
            &&& exists|k2: int|
                0 <= k2 < raw.len() && (#[trigger] raw[k2]).0 == row[k].0 && raw[k2].1
                    == tags[row[k].1 as int]
        }
    &&& forall|k2: int|
        0 <= k2 < raw.len() ==> exists|k: int|
            0 <= k < row.len() && (#[trigger] row[k]).0 == (#[trigger] raw[k2]).0 && 0 <= row[k].1
                < tags.len() && tags[row[k].1 as int] == raw[k2].1
}

/// The table as held by the machine corresponds entry-for-entry to the raw
/// transition function it was built from, up to the set-union collapse.
pub open spec fn nfa_table_faithful<A, S>(m: NFA<A, S>, d: Seq<Entry<A, S>>) -> bool {
    forall|i: int|
        0 <= i < m.size() ==> exists|j: int|
            0 <= j < d.len() && d[j].0 == m.tags_spec()[i] && nfa_row_matches(
                #[trigger] m.row_at(i),
                d[j].1@,
                m.tags_spec(),
            )
}

/// Nondeterministic finite automaton: canonical states in an arena, a partial
/// multi-valued edge row per state, and a set of current states.
pub struct NFA<A, S> {
    sigma: Sigma<A>,
    states: Vec<State<S>>,
    rows: Vec<Vec<(A, usize)>>,
    init: usize,
    current: Vec<usize>,
}

impl<A, S> NFA<A, S> {
    /// The canonical states, with their phases.
    pub closed spec fn states_spec(&self) -> Seq<State<S>> {
        self.states@
    }

    /// The tag of each table key.
    pub open spec fn tags_spec(&self) -> Seq<S> {
        seq_tags(self.states_spec())
    }

    /// The phase of the state at `i`.
    pub open spec fn phase_at(&self, i: int) -> crate::model::state::Phase {
        self.states_spec()[i].phase_spec()
    }

    /// The edge row of the state at `i`, targets as arena indices.
    pub closed spec fn row_at(&self, i: int) -> Seq<(A, usize)> {
        self.rows@[i]@
    }

    /// Number of edge rows.
    pub closed spec fn rows_len(&self) -> int {
        self.rows@.len() as int
    }

    /// The alphabet the table was validated against.
    pub closed spec fn alphabet_spec(&self) -> Seq<A> {
        self.sigma@
    }

    /// The index of the initial state.
    pub closed spec fn init_spec(&self) -> int {
        self.init as int
    }

    /// The indices of the currently active states.
    pub closed spec fn current_ids(&self) -> Seq<usize> {
        self.current@
    }

    /// The set of currently active states.
    pub open spec fn cur_set(&self) -> Set<usize> {
        self.current_ids().to_set()
    }

    /// Number of states.
    pub closed spec fn size(&self) -> int {
        self.states@.len() as int
    }

    /// Well-formedness: what a successful construction guarantees, and what
    /// every later operation preserves.
    pub open spec fn wf(&self) -> bool {
        &&& 0 < self.size()
        &&& self.size() == self.states_spec().len()
        &&& self.size() <= usize::MAX
        &&& self.rows_len() == self.size()
        &&& all_single(self.states_spec())
        &&& !seq_has_dup(self.tags_spec())
        &&& forall|i: int, k: int|
            0 <= i < self.size() && 0 <= k < self.row_at(i).len() ==> 0 <= (
            #[trigger] self.row_at(i)[k]).1 < self.size()
        &&& 0 <= self.init_spec() < self.size()
        &&& phase_is_initial(self.phase_at(self.init_spec()))
        &&& forall|i: int|
            0 <= i < self.size() && i != self.init_spec() ==> !phase_is_initial(
                #[trigger] self.phase_at(i),
            )
        &&& forall|p: int|
            0 <= p < self.current_ids().len() ==> (#[trigger] self.current_ids()[p]) < self.size()
        &&& !seq_has_dup(self.current_ids())
    }

    /// Whether row `i` has an edge on symbol `a` into state `t`.
    pub open spec fn edge_to(&self, i: int, a: A, t: usize) -> bool {
        exists|k: int| 0 <= k < self.row_at(i).len() && #[trigger] self.row_at(i)[k] == (a, t)
    }

    /// Whether some currently active state is accepting.
    pub fn matches(&self) -> (r: bool)
        requires
            self.wf(),
        ensures
            r == exists|t: usize|
                #[trigger] self.cur_set().contains(t) && phase_is_final(self.phase_at(t as int)),
    {
        let n: usize = self.current.len();
        let mut p: usize = 0;
        while p < n
            invariant
                self.wf(),
                n == self.current_ids().len(),
                forall|pp: int|
                    0 <= pp < p ==> !phase_is_final(
                        self.phase_at(#[trigger] self.current_ids()[pp] as int),
                    ),
            decreases n - p,
        {
            let t = self.current[p];
            if self.states[t].is_final() {
                proof {
                    assert(self.current_ids().contains(t));
                    assert(self.cur_set().contains(t));
                    assert(phase_is_final(self.phase_at(t as int)));
                }
                return true;
            }
            p = p + 1;
        }
        proof {
            if exists|t: usize|
                #[trigger] self.cur_set().contains(t) && phase_is_final(self.phase_at(t as int)) {
                let t = choose|t: usize|
                    #[trigger] self.cur_set().contains(t) && phase_is_final(
                        self.phase_at(t as int),
                    );
                let pp = choose|pp: int|
                    0 <= pp < self.current_ids().len() && self.current_ids()[pp] == t;
                assert(false);
            }
        }
        false
    }

    /// The canonical state at arena index `i`: resolves an index handed out
    /// by `step` or `steps` back to its state.
    pub fn state_at(&self, i: usize) -> (r: &State<S>)
        requires
            self.wf(),
            i < self.size(),
        ensures
            *r == self.states_spec()[i as int],
            r@ == seq![self.tags_spec()[i as int]],
            r.phase_spec() == self.phase_at(i as int),
    {
        proof {
            assert(self.states_spec()[i as int]@ =~= seq![self.tags_spec()[i as int]]);
        }
        &self.states[i]
    }

    /// Puts the automaton back in its initial configuration: the singleton
    /// set holding the initial state.
    pub fn reset(&mut self)
        requires
            old(self).wf(),
        ensures
            final(self).wf(),
            unchanged_nfa_table(*old(self), *final(self)),
            final(self).cur_set() =~= set![old(self).init_spec() as usize],
    {
        let ini = self.init;
        let mut fresh: Vec<usize> = Vec::new();
        fresh.push(ini);
        self.current = fresh;
        proof {
            lemma_nfa_wf_table(*old(self), *self);
            assert(self.current_ids() =~= seq![ini]);
            assert forall|t: usize|
                self.cur_set().contains(t) == set![old(self).init_spec() as usize].contains(
                    t,
                ) by {
                assert(self.cur_set().contains(t) == self.current_ids().contains(t));
                assert(self.current_ids()[0] == ini);
                assert(self.current_ids().contains(t) == (t == ini));
            }
            assert(self.cur_set() =~= set![old(self).init_spec() as usize]);
        }
    }
}


/// When every edge before `k` is fault-free, the first edge fault overall is
/// the first from `k` on.
proof fn lemma_nfa_edges_fault_from<A, S>(row: Seq<(A, S)>, sigma: Seq<A>, keys: Seq<S>, k: int)
    requires
        0 <= k <= row.len(),
        forall|p: int|
            0 <= p < k ==> sigma.contains(#[trigger] row[p].0) && keys.contains(row[p].1),
    ensures
        nfa_edges_fault(row, sigma, keys, 0) == nfa_edges_fault(row, sigma, keys, k),
    decreases k,
{
    if k > 0 {
        lemma_nfa_edges_fault_from(row, sigma, keys, k - 1);
    }
}

/// When no edge fault remains from `k` on, every edge from `k` on resolves.
proof fn lemma_nfa_edges_fault_none<A, S>(row: Seq<(A, S)>, sigma: Seq<A>, keys: Seq<S>, k: int)
    requires
        0 <= k,
        nfa_edges_fault(row, sigma, keys, k) is None,
    ensures
        forall|p: int|
            k <= p < row.len() ==> sigma.contains(#[trigger] row[p].0) && keys.contains(row[p].1),
    decreases row.len() - k,
{
    if 0 <= k < row.len() {
        lemma_nfa_edges_fault_none(row, sigma, keys, k + 1);
    }
}

/// Whether the pair `(sym, t)` already stands in the id-level row.
fn row_pair_contains<A: PartialEq>(ids: &Vec<(A, usize)>, sym: &A, t: usize) -> (r: bool)
    requires
        obeys_concrete_eq::<A>(),
    ensures
        r == ids@.contains((*sym, t)),
{
    let n: usize = ids.len();
    let mut k: usize = 0;
    while k < n
        invariant
            obeys_concrete_eq::<A>(),
            n == ids@.len(),
            forall|p: int| 0 <= p < k ==> ids@[p] != (*sym, t),
        decreases n - k,
    {
        proof {
            reveal(obeys_concrete_eq);
        }
        if ids[k].0 == *sym && ids[k].1 == t {
            assert(ids@[k as int] == (*sym, t));
            return true;
        }
        k = k + 1;
    }
    false
}

/// Whether the id `x` already stands in the list.
fn id_contains(v: &Vec<usize>, x: usize) -> (r: bool)
    ensures
        r == v@.contains(x),
{
    let n: usize = v.len();
    let mut k: usize = 0;
    while k < n
        invariant
            n == v@.len(),
            forall|p: int| 0 <= p < k ==> v@[p] != x,
        decreases n - k,
    {
        if v[k] == x {
            return true;
        }
        k = k + 1;
    }
    false
}


/// The index of the (unique) arena state carrying `t`.
pub open spec fn tag_index<S>(tags: Seq<S>, t: S) -> int {
    choose|i: int| 0 <= i < tags.len() && tags[i] == t
}

/// The id-level edge row an entry row resolves to: each `(symbol, target)`
/// pair in order, the target replaced by its arena index, repeated pairs
/// collapsed into their first occurrence.
pub open spec fn resolve_spec<A, S>(raw: Seq<(A, S)>, tags: Seq<S>) -> Seq<(A, usize)>
    decreases raw.len(),
{
    if raw.len() == 0 {
        Seq::empty()
    } else {
        let rest = resolve_spec(raw.drop_last(), tags);
        let pair = (raw.last().0, tag_index(tags, raw.last().1) as usize);
        if rest.contains(pair) {
            rest
        } else {
            rest.push(pair)
        }
    }
}

/// The resolved row never repeats a pair.
proof fn lemma_resolve_spec_nodup<A, S>(raw: Seq<(A, S)>, tags: Seq<S>)
    ensures
        !seq_has_dup(resolve_spec(raw, tags)),
    decreases raw.len(),
{
    if raw.len() == 0 {
    } else {
        lemma_resolve_spec_nodup(raw.drop_last(), tags);
        let rest = resolve_spec(raw.drop_last(), tags);
        let pair = (raw.last().0, tag_index(tags, raw.last().1) as usize);
        let row = resolve_spec(raw, tags);
        if !rest.contains(pair) {
            assert(row == rest.push(pair));
            assert forall|a: int, b: int| 0 <= a < b < row.len() implies row[a] != row[b] by {
                if b == row.len() - 1 {
                    assert(row[a] == rest[a]);
                    assert(!rest.contains(pair));
                } else {
                    assert(row[a] == rest[a] && row[b] == rest[b]);
                }
            }
        }
    }
}

/// Every pair of the resolved row stands for some raw edge.
proof fn lemma_resolve_spec_sound<A, S>(raw: Seq<(A, S)>, tags: Seq<S>)
    requires
        tags.len() <= usize::MAX,
        forall|k: int| 0 <= k < raw.len() ==> tags.contains(#[trigger] raw[k].1),
    ensures
        forall|k: int|
            0 <= k < resolve_spec(raw, tags).len() ==> {
                &&& 0 <= (#[trigger] resolve_spec(raw, tags)[k]).1 < tags.len()
                &&& exists|k2: int|
                    0 <= k2 < raw.len() && (#[trigger] raw[k2]).0 == resolve_spec(raw, tags)[k].0
                        && raw[k2].1 == tags[resolve_spec(raw, tags)[k].1 as int]
            },
    decreases raw.len(),
{
    if raw.len() > 0 {
        let prefix = raw.drop_last();
        assert forall|k: int| 0 <= k < prefix.len() implies tags.contains(
            #[trigger] prefix[k].1,
        ) by {
            assert(prefix[k] == raw[k]);
        }
        lemma_resolve_spec_sound(prefix, tags);
        let rest = resolve_spec(prefix, tags);
        let idx = tag_index(tags, raw.last().1);
        assert(0 <= idx < tags.len() && tags[idx] == raw.last().1) by {
            assert(tags.contains(raw[raw.len() - 1].1));
            let w = choose|w: int| 0 <= w < tags.len() && tags[w] == raw.last().1;
            assert(0 <= w < tags.len() && tags[w] == raw.last().1);
        }
        let pair = (raw.last().0, idx as usize);
        let row = resolve_spec(raw, tags);
        assert forall|k: int|
            0 <= k < row.len() implies (0 <= (#[trigger] row[k]).1 < tags.len() && exists|k2: int|
            0 <= k2 < raw.len() && (#[trigger] raw[k2]).0 == row[k].0 && raw[k2].1 == tags[row[k].1 as int]) by {
            if k < rest.len() {
                assert(row[k] == rest[k]);
                let k2 = choose|k2: int|
                    0 <= k2 < prefix.len() && (#[trigger] prefix[k2]).0 == rest[k].0
                        && prefix[k2].1 == tags[rest[k].1 as int];
                assert(raw[k2] == prefix[k2]);
            } else {
                assert(row[k] == pair);
                assert(raw[raw.len() - 1].0 == row[k].0 && raw[raw.len() - 1].1 == tags[row[k].1 as int]);
            }
        }
    }
}

/// Every raw edge stands in the resolved row.
proof fn lemma_resolve_spec_complete<A, S>(raw: Seq<(A, S)>, tags: Seq<S>)
    requires
        tags.len() <= usize::MAX,
        forall|k: int| 0 <= k < raw.len() ==> tags.contains(#[trigger] raw[k].1),
    ensures
        forall|k2: int|
            0 <= k2 < raw.len() ==> exists|k: int|
                0 <= k < resolve_spec(raw, tags).len() && (#[trigger] resolve_spec(raw, tags)[k]).0 == (#[trigger] raw[k2]).0 && 0 <= resolve_spec(raw, tags)[k].1 < tags.len()
                    && tags[resolve_spec(raw, tags)[k].1 as int] == raw[k2].1,
    decreases raw.len(),
{
    if raw.len() > 0 {
        let prefix = raw.drop_last();
        assert forall|k: int| 0 <= k < prefix.len() implies tags.contains(
            #[trigger] prefix[k].1,
        ) by {
            assert(prefix[k] == raw[k]);
        }
        lemma_resolve_spec_complete(prefix, tags);
        let rest = resolve_spec(prefix, tags);
        let idx = tag_index(tags, raw.last().1);
        assert(0 <= idx < tags.len() && tags[idx] == raw.last().1) by {
            assert(tags.contains(raw[raw.len() - 1].1));
            let w = choose|w: int| 0 <= w < tags.len() && tags[w] == raw.last().1;
            assert(0 <= w < tags.len() && tags[w] == raw.last().1);
        }
        let pair = (raw.last().0, idx as usize);
        let row = resolve_spec(raw, tags);
        assert forall|k2: int|
            0 <= k2 < raw.len() implies exists|k: int|
            0 <= k < row.len() && (#[trigger] row[k]).0 == (#[trigger] raw[k2]).0 && 0 <= row[k].1 < tags.len() && tags[row[k].1 as int] == raw[k2].1 by {
            if k2 < raw.len() - 1 {
                assert(prefix[k2] == raw[k2]);
                let k = choose|k: int|
                    0 <= k < rest.len() && (#[trigger] rest[k]).0 == prefix[k2].0 && 0 <= rest[k].1 < tags.len() && tags[rest[k].1 as int] == prefix[k2].1;
                assert(row[k] == rest[k]);
            } else {
                if rest.contains(pair) {
                    let k = choose|k: int| 0 <= k < rest.len() && rest[k] == pair;
                    assert(row[k] == pair);
                    assert(row[k].0 == raw[k2].0 && tags[row[k].1 as int] == raw[k2].1);
                } else {
                    assert(row[row.len() - 1] == pair);
                    assert(row[row.len() - 1].0 == raw[k2].0 && tags[row[row.len() - 1].1 as int]
                        == raw[k2].1);
                }
            }
        }
    }
}

/// When every target resolves, the resolved row corresponds to the raw row up
/// to the set-union collapse.
proof fn lemma_resolve_spec_matches<A, S>(raw: Seq<(A, S)>, tags: Seq<S>)
    requires
        tags.len() <= usize::MAX,
        forall|k: int| 0 <= k < raw.len() ==> tags.contains(#[trigger] raw[k].1),
    ensures
        nfa_row_matches(resolve_spec(raw, tags), raw, tags),
{
    reveal(nfa_row_matches);
    lemma_resolve_spec_nodup(raw, tags);
    lemma_resolve_spec_sound(raw, tags);
    lemma_resolve_spec_complete(raw, tags);

}

/// Resolves one raw edge row against the alphabet and the table keys, in
/// edge order, collapsing repeated `(symbol, target)` pairs into one edge.
fn resolve_row<A: PartialEq, S: PartialEq>(
    states: &Vec<State<S>>,
    sigma: &Sigma<A>,
    raw: Vec<(A, S)>,
) -> (r: Result<Vec<(A, usize)>, &'static str>)
    requires
        obeys_concrete_eq::<A>(),
        obeys_concrete_eq::<S>(),
        all_single(states@),
        !seq_has_dup(seq_tags(states@)),
    ensures
        match r {
            Err(e) => nfa_edges_fault(raw@, sigma@, seq_tags(states@), 0) == Some(e),
            Ok(ids) => {
                &&& nfa_edges_fault(raw@, sigma@, seq_tags(states@), 0) is None
                &&& nfa_row_matches(ids@, raw@, seq_tags(states@))
            },
        },
{
    let ghost tagsv = seq_tags(states@);
    let ghost rawv = raw@;
    let nstates: usize = states.len();
    let mut pending = raw;
    let mut ids: Vec<(A, usize)> = Vec::new();
    let ghost mut done: int = 0;
    proof {
        assert(tagsv.len() == nstates as int);
        assert(pending@ =~= rawv.skip(0));
        assert(rawv.take(0) =~= Seq::<(A, S)>::empty());
    }
    while pending.len() > 0
        invariant
            obeys_concrete_eq::<A>(),
            obeys_concrete_eq::<S>(),
            all_single(states@),
            !seq_has_dup(tagsv),
            tagsv == seq_tags(states@),
            tagsv.len() <= usize::MAX,
            rawv == raw@,
            done + pending@.len() == rawv.len(),
            0 <= done,
            pending@ == rawv.skip(done),
            forall|k2: int|
                0 <= k2 < done ==> sigma@.contains(#[trigger] rawv[k2].0) && tagsv.contains(
                    rawv[k2].1,
                ),
            ids@ == resolve_spec(rawv.take(done), tagsv),
        decreases pending@.len(),
    {
        let edge = pending.remove(0);
        proof {
            assert(edge == rawv[done]);
            assert(pending@ =~= rawv.skip(done + 1));
        }
        let (sym, tgt) = edge;
        if !sigma.contains(&sym) {
            proof {
                lemma_nfa_edges_fault_from(rawv, sigma@, tagsv, done);
            }
            return Err(ERR_UNDEFINED_SYMBOL);
        }
        let tgt_idx = match find_key(states, &tgt) {
            Some(i) => i,
            None => {
                proof {
                    lemma_nfa_edges_fault_from(rawv, sigma@, tagsv, done);
                }
                return Err(ERR_UNDEFINED_TRANSITION_STATE);
            },
        };
        proof {
            assert(tagsv[tgt_idx as int] == states@[tgt_idx as int]@[0]);
            assert(tagsv.contains(rawv[done].1));
            assert(tgt_idx as int == tag_index(tagsv, rawv[done].1)) by {
                let idx = tag_index(tagsv, rawv[done].1);
                assert(0 <= idx < tagsv.len() && tagsv[idx] == rawv[done].1);
                if idx != tgt_idx as int {
                    assert(seq_has_dup(tagsv));
                }
            }
            assert(rawv.take(done + 1).drop_last() =~= rawv.take(done));
            assert(rawv.take(done + 1).last() == rawv[done]);
        }
        if !row_pair_contains(&ids, &sym, tgt_idx) {
            ids.push((sym, tgt_idx));
            proof {
                assert(ids@ =~= resolve_spec(rawv.take(done + 1), tagsv));
            }
        } else {
            proof {
                assert(ids@ =~= resolve_spec(rawv.take(done + 1), tagsv));
            }
        }
        proof {
            done = done + 1;
        }
    }
    proof {
        assert(rawv.skip(done).len() == 0);
        assert(done == rawv.len());
        assert(rawv.take(done) =~= rawv);
        lemma_nfa_edges_fault_from(rawv, sigma@, tagsv, done);
        assert(nfa_edges_fault(rawv, sigma@, tagsv, 0) is None);
        assert forall|k: int| 0 <= k < rawv.len() implies tagsv.contains(
            #[trigger] rawv[k].1,
        ) by {
            assert(sigma@.contains(rawv[k].0));
        }
        lemma_resolve_spec_matches(rawv, tagsv);
    }
    Ok(ids)
}

impl<A: PartialEq, S: PartialEq> NFA<A, S> {
    /// Resolves every raw entry into a duplicate-free id-level edge row
    /// stored at its source's arena index, under the partial multi-valued
    /// coverage rule. Fails with the first fault, in entry and edge order.
    fn add_input_transitions(
        states: &Vec<State<S>>,
        sigma: &Sigma<A>,
        delta: Delta<A, S>,
    ) -> (r: Result<Vec<Vec<(A, usize)>>, &'static str>)
        requires
            obeys_concrete_eq::<A>(),
            obeys_concrete_eq::<S>(),
            all_single(states@),
            !seq_has_dup(seq_tags(states@)),
            forall|i: int|
                0 <= i < states@.len() ==> is_source(delta@, #[trigger] seq_tags(states@)[i]),
        ensures
            match r {
                Err(e) => nfa_entries_fault(delta@, sigma@, seq_tags(states@), 0) == Some(e),
                Ok(rows) => {
                    &&& nfa_entries_fault(delta@, sigma@, seq_tags(states@), 0) is None
                    &&& rows@.len() == states@.len()
                    &&& forall|i: int|
                        0 <= i < states@.len() ==> exists|j: int|
                            0 <= j < delta@.len() && delta@[j].0 == seq_tags(states@)[i]
                                && nfa_row_matches(
                                (#[trigger] rows@[i])@,
                                delta@[j].1@,
                                seq_tags(states@),
                            )
                },
            },
    {
        let ghost dv = delta@;
        let ghost tagsv = seq_tags(states@);
        proof {
            use_type_invariant(&delta);
        }
        let mut entries = delta.into_entries();
        let nkeys: usize = states.len();
        let mut rows: Vec<Vec<(A, usize)>> = Vec::new();
        let mut z: usize = 0;
        while z < nkeys
            invariant
                nkeys == states@.len(),
                rows@.len() == z,
                z <= nkeys,
                forall|i: int| 0 <= i < z ==> (#[trigger] rows@[i])@.len() == 0,
            decreases nkeys - z,
        {
            rows.push(Vec::new());
            z = z + 1;
        }
        let total_e: usize = entries.len();
        let ghost total = dv.len() as int;
        let mut p: usize = 0;
        proof {
            assert(entries@ =~= dv.skip(0));
        }
        while entries.len() > 0
            invariant
                obeys_concrete_eq::<A>(),
                obeys_concrete_eq::<S>(),
                all_single(states@),
                !seq_has_dup(tagsv),
                tagsv == seq_tags(states@),
                dv == delta@,
                total_e as int == total,
                total == dv.len(),
                p + entries@.len() == total,
                entries@ == dv.skip(p as int),
                rows@.len() == states@.len(),
                forall|j: int|
                    0 <= j < p ==> nfa_entry_fault(#[trigger] dv[j], sigma@, tagsv) is None,
                !seq_has_dup(tagsv),
                forall|i: int| #![trigger tagsv[i]]
                    0 <= i < states@.len() && (exists|j: int|
                        0 <= j < p && (#[trigger] dv[j]).0 == tagsv[i]) ==> exists|j: int|
                        0 <= j < p && (#[trigger] dv[j]).0 == tagsv[i] && nfa_row_matches(
                            rows@[i]@,
                            dv[j].1@,
                            tagsv,
                        ),
            decreases entries@.len(),
        {
            let entry = entries.remove(0);
            let ghost pi = p as int;
            proof {
                assert(entry == dv[pi]);
                assert(entries@ =~= dv.skip(pi + 1));
            }
            let (src, raw) = entry;
            let ids = match resolve_row(states, sigma, raw) {
                Ok(ids) => ids,
                Err(e) => {
                    proof {
                        assert(nfa_entry_fault(dv[pi], sigma@, tagsv) == Some(e));
                        lemma_nfa_entries_fault_from(dv, sigma@, tagsv, pi);
                    }
                    return Err(e);
                },
            };
            let src_idx = match find_key(states, &src) {
                Some(i) => i,
                None => {
                    proof {
                        assert(nfa_entry_fault(dv[pi], sigma@, tagsv) == Some(
                            ERR_UNDEFINED_TRANSITION_STATE,
                        ));
                        lemma_nfa_entries_fault_from(dv, sigma@, tagsv, pi);
                    }
                    return Err(ERR_UNDEFINED_TRANSITION_STATE);
                },
            };
            proof {
                assert(seq_tags(states@)[src_idx as int] == states@[src_idx as int]@[0]);
                assert(tagsv[src_idx as int] == dv[pi].0);
                assert(tagsv.contains(dv[pi].0));
                assert(nfa_entry_fault(dv[pi], sigma@, tagsv) is None);
            }
            let ghost oldrows = rows@;
            rows.set(src_idx, ids);
            p = p + 1;
            proof {
                assert forall|i: int| #![trigger tagsv[i]]
                    0 <= i < states@.len() && (exists|j: int|
                        0 <= j < p && (#[trigger] dv[j]).0 == tagsv[i]) implies exists|j: int|
                        0 <= j < p && (#[trigger] dv[j]).0 == tagsv[i] && nfa_row_matches(
                            rows@[i]@,
                            dv[j].1@,
                            tagsv,
                        ) by {
                    if i == src_idx as int {
                        assert(dv[pi].0 == tagsv[i] && nfa_row_matches(
                            rows@[i]@,
                            dv[pi].1@,
                            tagsv,
                        ));
                    } else {
                        let j0 = choose|j: int| 0 <= j < p && (#[trigger] dv[j]).0 == tagsv[i];
                        if j0 == pi {
                            assert(tagsv[i] == dv[pi].0 && tagsv[src_idx as int] == dv[pi].0);
                            assert(seq_has_dup(tagsv));
                            assert(false);
                        } else {
                            assert(rows@[i] == oldrows[i]);
                        }
                    }
                }
            }
        }
        proof {
            assert(dv.skip(p as int).len() == 0);
            assert(p == total);
            lemma_nfa_entries_fault_from(dv, sigma@, tagsv, total);
            assert forall|i: int| #![trigger tagsv[i]] 0 <= i < states@.len() implies exists|
                j: int,
            |
                0 <= j < dv.len() && (#[trigger] dv[j]).0 == tagsv[i] && nfa_row_matches(
                    rows@[i]@,
                    dv[j].1@,
                    tagsv,
                ) by {
                assert(is_source(dv, tagsv[i]));
            }
        }
        Ok(rows)
    }

    /// The dangling-state check: no non-initial source of the transition
    /// function may lack an incoming edge from another entry.
    fn validate_nfa(delta: &Delta<A, S>, q0: &S) -> (r: Result<(), &'static str>)
        requires
            obeys_concrete_eq::<S>(),
        ensures
            match r {
                Ok(u) => !dangling_state_exists(delta@, *q0),
                Err(e) => e == ERR_DANGLING_STATE && dangling_state_exists(delta@, *q0),
            },
    {
        if check_dangling(delta, q0) {
            Err(ERR_DANGLING_STATE)
        } else {
            Ok(())
        }
    }

    /// Builds an NFA from a validated configuration, running the whole
    /// construction cascade: referential integrity, state-arena construction,
    /// per-entry resolution under the partial multi-valued coverage rule, and
    /// the dangling-state check. Returns the machine positioned on the
    /// singleton set holding its initial state, or the first configuration
    /// fault.
    pub fn new(q: Q<S>, sigma: Sigma<A>, delta: Delta<A, S>, q0: S, f: &F<S>) -> (r: Result<
        Self,
        &'static str,
    >)
        requires
            obeys_concrete_eq::<A>(),
            obeys_concrete_eq::<S>(),
        ensures
            match nfa_config_fault(q@, sigma@, delta@, q0, f@) {
                Some(e) => r matches Err(e2) && e2 == e,
                None => r matches Ok(m) && {
                    &&& m.wf()
                    &&& m.alphabet_spec() == sigma@
                    &&& states_faithful(m.states_spec(), q@, q0, f@)
                    &&& nfa_table_faithful(m, delta@)
                    &&& m.cur_set() =~= set![m.init_spec() as usize]
                },
            },
    {
        let ghost qv = q@;
        let ghost dv = delta@;
        let ghost fv = f@;
        let ghost sv = sigma@;
        proof {
            use_type_invariant(&q);
            use_type_invariant(&delta);
        }
        match validate_fa_configuration(&q, &delta, &q0, f) {
            Ok(_) => (),
            Err(e) => {
                return Err(e);
            },
        }
        let states = convert_to_transitions(q, &q0, f);
        let ghost tagsv = seq_tags(states@);
        proof {
            assert forall|i: int| 0 <= i < states@.len() implies is_source(
                dv,
                #[trigger] seq_tags(states@)[i],
            ) by {
                assert(seq_tags(states@)[i] == states@[i]@[0]);
                assert(qv.contains(states@[i]@[0]));
                let w = choose|w: int| 0 <= w < qv.len() && qv[w] == states@[i]@[0];
                assert(is_source(dv, qv[w]));
            }
            assert forall|t: S| #![trigger qv.contains(t)]
                tagsv.contains(t) == qv.contains(t) by {
                if tagsv.contains(t) {
                    let i = choose|i: int| 0 <= i < tagsv.len() && tagsv[i] == t;
                    assert(qv.contains(states@[i]@[0]));
                }
                if qv.contains(t) {
                    let w = choose|w: int| 0 <= w < qv.len() && qv[w] == t;
                    assert(tagsv.contains(qv[w]));
                }
            }
            lemma_nfa_entries_fault_same_keys(dv, sv, tagsv, qv, 0);
            assert(tagsv.contains(q0));
            let i = choose|i: int| 0 <= i < tagsv.len() && tagsv[i] == q0;
            assert(states@[i].phase_spec() == phase_of(q0, q0, fv));
            assert(phase_is_initial(states@[i].phase_spec()));
        }
        let dangling = Self::validate_nfa(&delta, &q0);
        let rows = match Self::add_input_transitions(&states, &sigma, delta) {
            Ok(rows) => rows,
            Err(e) => {
                return Err(e);
            },
        };
        proof {
            lemma_nfa_entries_fault_none(dv, sv, tagsv, 0);
        }
        match dangling {
            Ok(_) => (),
            Err(e) => {
                return Err(e);
            },
        }
        let init = get_initial_state(&states);
        let n_states: usize = states.len();
        let mut current: Vec<usize> = Vec::new();
        current.push(init);
        let m = NFA { sigma, states, rows, init, current };
        proof {
            assert(m.states_spec() == m.states@);
            assert(m.size() == n_states as int);
            assert(m.tags_spec() == tagsv);
            assert forall|i: int| #![trigger m.row_at(i)] 0 <= i < m.size() implies exists|j: int|
                0 <= j < dv.len() && dv[j].0 == m.tags_spec()[i] && nfa_row_matches(
                    m.row_at(i),
                    dv[j].1@,
                    m.tags_spec(),
                ) by {
                assert(tagsv[i] == m.tags_spec()[i]);
                assert(m.row_at(i) == rows@[i]@);
            }
            assert forall|i: int, k: int|
                0 <= i < m.size() && 0 <= k < m.row_at(i).len() implies 0 <= (
            #[trigger] m.row_at(i)[k]).1 < m.size() by {
                assert(m.row_at(i) == rows@[i]@);
                assert(tagsv[i] == m.tags_spec()[i]);
                let j = choose|j: int|
                    0 <= j < dv.len() && (#[trigger] dv[j]).0 == tagsv[i] && nfa_row_matches(
                        rows@[i]@,
                        dv[j].1@,
                        tagsv,
                    );
                reveal(nfa_row_matches);
            }
            assert forall|i: int|
                0 <= i < m.size() && i != m.init_spec() implies !phase_is_initial(
                #[trigger] m.phase_at(i),
            ) by {
                if phase_is_initial(m.phase_at(i)) {
                    assert(m.phase_at(i) == phase_of(m.tags_spec()[i], q0, fv));
                    assert(m.tags_spec()[i] == q0);
                    assert(m.phase_at(m.init_spec()) == phase_of(
                        m.tags_spec()[m.init_spec()],
                        q0,
                        fv,
                    ));
                    assert(m.tags_spec()[m.init_spec()] == q0);
                    assert(seq_has_dup(m.tags_spec()));
                    assert(false);
                }
            }
            assert(m.current_ids() =~= seq![init]);
            assert(m.wf());
            assert forall|t: usize|
                m.cur_set().contains(t) == set![m.init_spec() as usize].contains(t) by {
                assert(m.current_ids()[0] == init);
                assert(m.cur_set().contains(t) == m.current_ids().contains(t));
                assert(m.current_ids().contains(t) == (t == init));
            }
            assert(m.cur_set() =~= set![m.init_spec() as usize]);
        }
        Ok(m)
    }
}


/// Whether every symbol of `s` belongs to the machine's alphabet.
pub open spec fn nfa_all_valid<A, S>(m: NFA<A, S>, s: Seq<A>) -> bool {
    forall|k: int| 0 <= k < s.len() ==> m.alphabet_spec().contains(#[trigger] s[k])
}

/// The set a step on `a` reaches from the active set `cs`: the union of every
/// active state's successors on `a`.
pub open spec fn nfa_next_set<A, S>(m: NFA<A, S>, cs: Set<usize>, a: A) -> Set<usize> {
    Set::new(|t: usize| exists|c: usize| #[trigger] cs.contains(c) && m.edge_to(c as int, a, t))
}

/// The set the machine reaches from `cs` after consuming `s`: the one-symbol
/// union step folded over the inputs.
pub open spec fn nfa_run_set<A, S>(m: NFA<A, S>, cs: Set<usize>, s: Seq<A>) -> Set<usize>
    decreases s.len(),
{
    if s.len() == 0 {
        cs
    } else {
        nfa_run_set(m, nfa_next_set(m, cs, s[0]), s.drop_first())
    }
}

/// Consuming one more symbol advances the run by one union step.
pub proof fn lemma_nfa_run_push<A, S>(m: NFA<A, S>, cs: Set<usize>, s: Seq<A>, a: A)
    ensures
        nfa_run_set(m, cs, s.push(a)) == nfa_next_set(m, nfa_run_set(m, cs, s), a),
    decreases s.len(),
{
    if s.len() == 0 {
        assert(s.push(a)[0] == a);
        assert(s.push(a).drop_first() =~= Seq::<A>::empty());
        assert(nfa_run_set(m, nfa_next_set(m, cs, a), Seq::<A>::empty()) == nfa_next_set(
            m,
            cs,
            a,
        ));
    } else {
        assert(s.push(a)[0] == s[0]);
        assert(s.push(a).drop_first() =~= s.drop_first().push(a));
        lemma_nfa_run_push(m, nfa_next_set(m, cs, s[0]), s.drop_first(), a);
    }
}

/// Machines that share a table take identical union steps.
pub proof fn lemma_nfa_next_table<A, S>(m1: NFA<A, S>, m2: NFA<A, S>, cs: Set<usize>, a: A)
    requires
        unchanged_nfa_table(m1, m2),
        m1.wf(),
        forall|c: usize| #[trigger] cs.contains(c) ==> c < m1.size(),
    ensures
        nfa_next_set(m1, cs, a) == nfa_next_set(m2, cs, a),
        forall|t: usize| #[trigger] nfa_next_set(m1, cs, a).contains(t) ==> t < m1.size(),
{
    assert forall|t: usize| #[trigger] nfa_next_set(m1, cs, a).contains(t) implies t
        < m1.size() by {
        let c = choose|c: usize| #[trigger] cs.contains(c) && m1.edge_to(c as int, a, t);
        let k = choose|k: int|
            0 <= k < m1.row_at(c as int).len() && #[trigger] m1.row_at(c as int)[k] == (a, t);
    }
    assert forall|t: usize|
        nfa_next_set(m1, cs, a).contains(t) == nfa_next_set(m2, cs, a).contains(t) by {
        if nfa_next_set(m1, cs, a).contains(t) {
            let c = choose|c: usize| #[trigger] cs.contains(c) && m1.edge_to(c as int, a, t);
            assert(m1.row_at(c as int) == m2.row_at(c as int));
            assert(m2.edge_to(c as int, a, t));
        }
        if nfa_next_set(m2, cs, a).contains(t) {
            let c = choose|c: usize| #[trigger] cs.contains(c) && m2.edge_to(c as int, a, t);
            assert(m1.row_at(c as int) == m2.row_at(c as int));
            assert(m1.edge_to(c as int, a, t));
        }
    }
    assert(nfa_next_set(m1, cs, a) =~= nfa_next_set(m2, cs, a));
}

/// Machines that share a table run identically: the run's outcome depends
/// only on the table and the starting set, never on discarded history.
pub proof fn lemma_nfa_run_table<A, S>(m1: NFA<A, S>, m2: NFA<A, S>, cs: Set<usize>, s: Seq<A>)
    requires
        unchanged_nfa_table(m1, m2),
        m1.wf(),
        forall|c: usize| #[trigger] cs.contains(c) ==> c < m1.size(),
    ensures
        nfa_run_set(m1, cs, s) == nfa_run_set(m2, cs, s),
        forall|c: usize| #[trigger] nfa_run_set(m1, cs, s).contains(c) ==> c < m1.size(),
    decreases s.len(),
{
    if s.len() > 0 {
        lemma_nfa_next_table(m1, m2, cs, s[0]);
        lemma_nfa_run_table(m1, m2, nfa_next_set(m1, cs, s[0]), s.drop_first());
    }
}

impl<A: PartialEq, S> NFA<A, S> {
    /// Advances the automaton on one symbol: fails with `ERR_INVALID_INPUT`
    /// exactly when the symbol is outside the alphabet, leaving the current
    /// set untouched; otherwise replaces the current set with the union of
    /// every active state's successors on that symbol, handing the new set of
    /// state indices back.
    #[verifier::loop_isolation(false)]
    pub fn step(&mut self, input: &A) -> (r: Result<&Vec<usize>, &'static str>)
        requires
            old(self).wf(),
            obeys_concrete_eq::<A>(),
        ensures
            final(self).wf(),
            unchanged_nfa_table(*old(self), *final(self)),
            !old(self).alphabet_spec().contains(*input) ==> (r matches Err(e) && e
                == ERR_INVALID_INPUT) && final(self).current_ids() == old(self).current_ids(),
            old(self).alphabet_spec().contains(*input) ==> (r matches Ok(v) && {
                &&& v@ == final(self).current_ids()
                &&& final(self).cur_set() == nfa_next_set(*old(self), old(self).cur_set(), *input)
                &&& forall|t: usize|
                    #[trigger] final(self).cur_set().contains(t) <==> exists|p: int|
                        0 <= p < old(self).current_ids().len() && old(self).edge_to(
                            #[trigger] old(self).current_ids()[p] as int,
                            *input,
                            t,
                        )
            }),
    {
        if !self.sigma.contains(input) {
            return Err(ERR_INVALID_INPUT);
        }
        let n: usize = self.current.len();
        let mut fresh: Vec<usize> = Vec::new();
        let mut p: usize = 0;
        while p < n
            invariant
                0 <= p <= n,
                !seq_has_dup(fresh@),
                forall|k: int| 0 <= k < fresh@.len() ==> (#[trigger] fresh@[k]) < self.size(),
                forall|t: usize|
                    #[trigger] fresh@.contains(t) <==> exists|pp: int|
                        0 <= pp < p && self.edge_to(
                            #[trigger] self.current_ids()[pp] as int,
                            *input,
                            t,
                        ),
            decreases n - p,
        {
            let c = self.current[p];
            let row_len: usize = self.rows[c].len();
            let mut k: usize = 0;
            while k < row_len
                invariant
                    0 <= p < n,
                    c == self.current_ids()[p as int],
                    0 <= k <= row_len,
                    row_len == self.row_at(c as int).len(),
                    !seq_has_dup(fresh@),
                    forall|kk: int| 0 <= kk < fresh@.len() ==> (#[trigger] fresh@[kk]) < self.size(),
                    forall|t: usize|
                        #[trigger] fresh@.contains(t) <==> ((exists|pp: int|
                            0 <= pp < p && self.edge_to(
                                #[trigger] self.current_ids()[pp] as int,
                                *input,
                                t,
                            )) || exists|kk: int|
                            0 <= kk < k && #[trigger] self.row_at(c as int)[kk] == (*input, t)),
                decreases row_len - k,
            {
                proof {
                    reveal(obeys_concrete_eq);
                }
                let ghost pre = fresh@;
                let t0 = self.rows[c][k].1;
                let hit = self.rows[c][k].0 == *input;
                if hit {
                    if !id_contains(&fresh, t0) {
                        fresh.push(t0);
                        proof {
                            assert(fresh@[fresh@.len() - 1] == t0);
                            assert forall|a: int, b: int|
                                0 <= a < b < fresh@.len() implies fresh@[a] != fresh@[b] by {
                                if b == fresh@.len() - 1 {
                                    assert(!pre.contains(t0));
                                    assert(fresh@[a] == pre[a]);
                                } else {
                                    assert(fresh@[a] == pre[a] && fresh@[b] == pre[b]);
                                }
                            }
                        }
                    }
                    proof {
                        assert(self.row_at(c as int)[k as int] == (*input, t0));
                        if fresh@.len() > pre.len() {
                            assert(fresh@[fresh@.len() - 1] == t0);
                            assert(fresh@.contains(t0));
                        } else {
                            assert(fresh@.contains(t0));
                        }
                    }
                }
                k = k + 1;
                proof {
                    assert forall|t: usize| #[trigger]
                        fresh@.contains(t) <==> ((exists|pp: int|
                        0 <= pp < p && self.edge_to(
                            #[trigger] self.current_ids()[pp] as int,
                            *input,
                            t,
                        )) || exists|kk: int|
                        0 <= kk < k && #[trigger] self.row_at(c as int)[kk] == (*input, t)) by {
                        if fresh@.contains(t) {
                            if pre.contains(t) {
                            } else {
                                assert(fresh@[fresh@.len() - 1] == t);
                                assert(t == t0);
                                assert(self.row_at(c as int)[k - 1] == (*input, t));
                            }
                        } else {
                            if pre.contains(t) {
                                let i = choose|i: int| 0 <= i < pre.len() && pre[i] == t;
                                assert(fresh@[i] == t);
                                assert(false);
                            }
                            if self.row_at(c as int)[k - 1] == (*input, t) {
                                assert(self.row_at(c as int)[k - 1].0 == *input);
                                assert(hit);
                                assert(t == t0);
                                assert(fresh@.contains(t0));
                                assert(false);
                            }
                        }
                    }
                }
            }
            p = p + 1;
            proof {
                assert forall|t: usize| #[trigger]
                    fresh@.contains(t) <==> exists|pp: int|
                    0 <= pp < p && self.edge_to(
                        #[trigger] self.current_ids()[pp] as int,
                        *input,
                        t,
                    ) by {
                    if fresh@.contains(t) {
                    } else {
                        if exists|pp: int|
                            0 <= pp < p && self.edge_to(
                                #[trigger] self.current_ids()[pp] as int,
                                *input,
                                t,
                            ) {
                            let pp = choose|pp: int|
                                0 <= pp < p && self.edge_to(
                                    #[trigger] self.current_ids()[pp] as int,
                                    *input,
                                    t,
                                );
                            if pp == p - 1 {
                                let kk = choose|kk: int|
                                    0 <= kk < self.row_at(c as int).len()
                                        && #[trigger] self.row_at(c as int)[kk] == (*input, t);
                                assert(false);
                            }
                        }
                    }
                }
            }
        }
        let ghost pre_machine = *self;
        self.current = fresh;
        proof {
            lemma_nfa_wf_table(pre_machine, *self);
            assert forall|t: usize|
                #[trigger] self.cur_set().contains(t) <==> exists|p2: int|
                    0 <= p2 < old(self).current_ids().len() && old(self).edge_to(
                        #[trigger] old(self).current_ids()[p2] as int,
                        *input,
                        t,
                    ) by {
                assert(self.cur_set().contains(t) == self.current_ids().contains(t));
            }
            assert forall|t: usize|
                self.cur_set().contains(t) == nfa_next_set(
                    *old(self),
                    old(self).cur_set(),
                    *input,
                ).contains(t) by {
                lemma_nfa_step_is_union(*old(self), *input, t);
            }
            assert(self.cur_set() =~= nfa_next_set(*old(self), old(self).cur_set(), *input));
        }
        Ok(&self.current)
    }

    /// Applies `step` to each symbol in order, stopping at the first symbol
    /// outside the alphabet; the automaton then rests on the configuration
    /// reached just before the failing step.
    #[verifier::loop_isolation(false)]
    pub fn steps(&mut self, inputs: &[A]) -> (r: Result<&Vec<usize>, &'static str>)
        requires
            old(self).wf(),
            obeys_concrete_eq::<A>(),
        ensures
            final(self).wf(),
            unchanged_nfa_table(*old(self), *final(self)),
            nfa_all_valid(*old(self), inputs@) ==> (r matches Ok(v) && {
                &&& v@ == final(self).current_ids()
                &&& final(self).cur_set() == nfa_run_set(
                    *old(self),
                    old(self).cur_set(),
                    inputs@,
                )
            }),
            !nfa_all_valid(*old(self), inputs@) ==> (r matches Err(e) && e == ERR_INVALID_INPUT
                && exists|k: int|
                {
                    &&& 0 <= k < inputs@.len()
                    &&& !old(self).alphabet_spec().contains(#[trigger] inputs@[k])
                    &&& forall|p: int|
                        0 <= p < k ==> old(self).alphabet_spec().contains(#[trigger] inputs@[p])
                    &&& final(self).cur_set() == nfa_run_set(
                        *old(self),
                        old(self).cur_set(),
                        inputs@.take(k),
                    )
                }),
    {
        let n: usize = inputs.len();
        let mut k: usize = 0;
        proof {
            assert(inputs@.take(0) =~= Seq::<A>::empty());
        }
        while k < n
            invariant
                0 <= k <= n,
                self.wf(),
                unchanged_nfa_table(*old(self), *self),
                forall|p: int|
                    0 <= p < k ==> old(self).alphabet_spec().contains(#[trigger] inputs@[p]),
                self.cur_set() == nfa_run_set(
                    *old(self),
                    old(self).cur_set(),
                    inputs@.take(k as int),
                ),
            decreases n - k,
        {
            let ghost pre = *self;
            match self.step(&inputs[k]) {
                Ok(_) => (),
                Err(e) => {
                    proof {
                        assert(!pre.alphabet_spec().contains(inputs@[k as int]));
                        assert(self.current_ids() == pre.current_ids());
                        assert(self.cur_set() == pre.cur_set());
                    }
                    return Err(e);
                },
            }
            proof {
                assert(pre.alphabet_spec().contains(inputs@[k as int]));
                assert(inputs@.take(k + 1) =~= inputs@.take(k as int).push(inputs@[k as int]));
                lemma_nfa_run_push(
                    *old(self),
                    old(self).cur_set(),
                    inputs@.take(k as int),
                    inputs@[k as int],
                );
                assert forall|c: usize| #[trigger] pre.cur_set().contains(c) implies c
                    < pre.size() by {
                    let p2 = choose|p2: int|
                        0 <= p2 < pre.current_ids().len() && pre.current_ids()[p2] == c;
                }
                lemma_nfa_next_table(
                    *old(self),
                    pre,
                    pre.cur_set(),
                    inputs@[k as int],
                );
                assert(self.cur_set() == nfa_next_set(pre, pre.cur_set(), inputs@[k as int]));
                assert(self.cur_set() == nfa_run_set(
                    *old(self),
                    old(self).cur_set(),
                    inputs@.take(k + 1),
                ));
            }
            k = k + 1;
        }
        proof {
            assert(inputs@.take(n as int) =~= inputs@);
        }
        Ok(&self.current)
    }
}


/// A step's successor set is a set union: a state is active after the step on
/// `a` exactly when some member of the current set, taken as a set, has an
/// edge on `a` into it. Stepping twice on the same symbol from one unchanged
/// current set therefore yields the same set both times.
pub proof fn lemma_nfa_step_is_union<A, S>(m: NFA<A, S>, a: A, t: usize)
    ensures
        (exists|p: int|
            0 <= p < m.current_ids().len() && m.edge_to(
                #[trigger] m.current_ids()[p] as int,
                a,
                t,
            )) <==> (exists|c: usize|
            #[trigger] m.cur_set().contains(c) && m.edge_to(c as int, a, t)),
{
    if exists|p: int|
        0 <= p < m.current_ids().len() && m.edge_to(#[trigger] m.current_ids()[p] as int, a, t) {
        let p = choose|p: int|
            0 <= p < m.current_ids().len() && m.edge_to(
                #[trigger] m.current_ids()[p] as int,
                a,
                t,
            );
        assert(m.cur_set().contains(m.current_ids()[p]));
    }
    if exists|c: usize| #[trigger] m.cur_set().contains(c) && m.edge_to(c as int, a, t) {
        let c = choose|c: usize| #[trigger] m.cur_set().contains(c) && m.edge_to(c as int, a, t);
        let p = choose|p: int| 0 <= p < m.current_ids().len() && m.current_ids()[p] == c;
        assert(m.edge_to(m.current_ids()[p] as int, a, t));
    }
}

/// Two automata share one table when states, rows, alphabet and initial state
/// agree; only the set of active states may differ.
pub open spec fn unchanged_nfa_table<A, S>(m1: NFA<A, S>, m2: NFA<A, S>) -> bool {
    &&& m1.states_spec() == m2.states_spec()
    &&& m1.size() == m2.size()
    &&& forall|i: int| 0 <= i < m1.size() ==> m1.row_at(i) == m2.row_at(i)
    &&& m1.alphabet_spec() == m2.alphabet_spec()
    &&& m1.init_spec() == m2.init_spec()
}

/// A table-preserving update with in-range, duplicate-free active states stays
/// well-formed.
proof fn lemma_nfa_wf_table<A, S>(m1: NFA<A, S>, m2: NFA<A, S>)
    requires
        m1.wf(),
        unchanged_nfa_table(m1, m2),
        m2.rows_len() == m2.size(),
        forall|p: int|
            0 <= p < m2.current_ids().len() ==> (#[trigger] m2.current_ids()[p]) < m2.size(),
        !seq_has_dup(m2.current_ids()),
    ensures
        m2.wf(),
{
    assert(m2.tags_spec() == m1.tags_spec());
    assert forall|i: int, k: int|
        0 <= i < m2.size() && 0 <= k < m2.row_at(i).len() implies 0 <= (
    #[trigger] m2.row_at(i)[k]).1 < m2.size() by {
        assert(m2.row_at(i) == m1.row_at(i));
    }
    assert forall|i: int| 0 <= i < m2.size() implies #[trigger] m2.phase_at(i) == m1.phase_at(
        i,
    ) by {}
    assert(phase_is_initial(m2.phase_at(m2.init_spec())));
    assert forall|i: int|
        0 <= i < m2.size() && i != m2.init_spec() implies !phase_is_initial(
        #[trigger] m2.phase_at(i),
    ) by {
        assert(m2.phase_at(i) == m1.phase_at(i));
    }
}

} // verus!
