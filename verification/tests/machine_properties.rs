use finite_state_machine::automata::{
    DFA, NFA, ERR_DANGLING_STATE, ERR_UNDEFINED_FINAL_STATE, ERR_UNDEFINED_INITIAL_STATE,
    ERR_UNDEFINED_TRANSITION_STATE,
};
use finite_state_machine::model::{Delta, Sigma, F, Q};

fn sample_nfa() -> NFA<u8, char> {
    let sigma = Sigma::new(vec![0, 1]).expect("valid sigma");
    let q = Q::new(vec!['A', 'B']).expect("valid Q");
    let delta = Delta::new(vec![('A', vec![(0, 'A'), (1, 'A'), (0, 'B')]), ('B', vec![])])
        .expect("valid delta");
    let f = F::new(vec!['B']).expect("valid final states");

    NFA::new(q, sigma, delta, 'A', &f).expect("valid nfa")
}

fn sample_dfa() -> DFA<u8, char> {
    let sigma = Sigma::new(vec![0, 1]).expect("valid sigma");
    let q = Q::new(vec!['A', 'B', 'C', 'D']).expect("valid Q");
    let delta = Delta::new(vec![
        ('A', vec![(0, 'A'), (1, 'C')]),
        ('C', vec![(0, 'A'), (1, 'B')]),
        ('B', vec![(0, 'B'), (1, 'D')]),
        ('D', vec![(0, 'A'), (1, 'A')]),
    ])
    .expect("valid delta");
    let f = F::new(vec!['B']).expect("valid final states");

    DFA::new(q, &sigma, delta, 'A', &f).expect("valid dfa")
}

#[test]
fn given_an_nfa_stepping_twice_on_one_symbol_from_the_same_set_gives_the_same_set() {
    let mut first = sample_nfa();
    let mut second = sample_nfa();

    // both machines sit on the same fresh configuration
    let mut one = first.step(&0).expect("step").clone();
    let mut two = second.step(&0).expect("step").clone();

    one.sort();
    two.sort();

    assert_eq!(one, two);
}

#[test]
fn given_a_dfa_every_alphabet_symbol_steps_without_error_from_every_reachable_state() {
    let mut sut = sample_dfa();

    for prefix in [vec![], vec![0], vec![1], vec![1, 1], vec![1, 1, 1]] {
        sut.reset();
        sut.steps(&prefix).expect("prefix runs");
        for sym in [0_u8, 1_u8] {
            sut.reset();
            sut.steps(&prefix).expect("prefix runs");
            sut.step(&sym).expect("total table never fails on an alphabet symbol");
        }
    }
}

#[test]
fn given_a_split_replay_with_reset_the_outcome_differs_from_the_single_run() {
    let inputs = [0, 1, 1, 1, 0];

    let mut whole = sample_dfa();
    whole.steps(&inputs).expect("full run");
    let whole_matches = whole.matches();

    let mut split = sample_dfa();
    split.steps(&inputs[..2]).expect("first half");
    split.reset();
    split.steps(&inputs[2..]).expect("second half");
    let split_matches = split.matches();

    // the reset discards the first half's history
    assert_ne!(whole_matches, split_matches);
}

#[test]
fn given_a_delta_entry_whose_source_is_not_a_state_construction_reports_the_undefined_state() {
    // 'X' is a source and a target in delta, but not a member of Q
    let sigma = Sigma::new(vec![0, 1]).expect("valid sigma");
    let q = Q::new(vec!['A', 'B']).expect("valid Q");
    let delta = Delta::new(vec![
        ('A', vec![(0, 'B'), (1, 'X')]),
        ('B', vec![(0, 'A'), (1, 'A')]),
        ('X', vec![(0, 'A'), (1, 'A')]),
    ])
    .expect("valid delta");
    let f = F::new(vec!['B']).expect("valid final states");

    let sut = DFA::new(q, &sigma, delta, 'A', &f);

    match sut {
        Ok(_) => panic!("Expected Err: {ERR_UNDEFINED_TRANSITION_STATE}"),
        Err(err) => assert_eq!(ERR_UNDEFINED_TRANSITION_STATE, err),
    }
}

#[test]
fn given_a_reset_automaton_a_replay_equals_a_fresh_run() {
    let xs = [0, 1, 1];

    let mut replayed = sample_dfa();
    replayed.steps(&[1, 0, 1, 1]).expect("history runs");
    replayed.reset();
    replayed.steps(&xs).expect("replay runs");

    let mut fresh = sample_dfa();
    fresh.steps(&xs).expect("fresh run");

    assert_eq!(replayed.matches(), fresh.matches());
}

#[test]
fn given_a_state_with_no_incoming_edge_at_all_construction_reports_the_dangling_state() {
    // B resolves against Q and is a table entry, but no edge of any row
    // points at it
    let sigma = Sigma::new(vec![0, 1]).expect("valid sigma");
    let q = Q::new(vec!['A', 'B']).expect("valid Q");
    let delta = Delta::new(vec![
        ('A', vec![(0, 'A'), (1, 'A')]),
        ('B', vec![(0, 'A'), (1, 'A')]),
    ])
    .expect("valid delta");
    let f = F::new(vec!['B']).expect("valid final states");

    let sut = DFA::new(q, &sigma, delta, 'A', &f);

    match sut {
        Ok(_) => panic!("Expected Err: {ERR_DANGLING_STATE}"),
        Err(err) => assert_eq!(ERR_DANGLING_STATE, err),
    }
}

#[test]
fn given_an_nfa_state_with_no_incoming_edge_at_all_construction_reports_the_dangling_state() {
    let sigma = Sigma::new(vec![0, 1]).expect("valid sigma");
    let q = Q::new(vec!['A', 'B']).expect("valid Q");
    let delta = Delta::new(vec![('A', vec![(0, 'A')]), ('B', vec![(1, 'A')])])
        .expect("valid delta");
    let f = F::new(vec!['B']).expect("valid final states");

    let sut = NFA::new(q, sigma, delta, 'A', &f);

    match sut {
        Ok(_) => panic!("Expected Err: {ERR_DANGLING_STATE}"),
        Err(err) => assert_eq!(ERR_DANGLING_STATE, err),
    }
}

#[test]
fn given_an_initial_tag_that_is_a_source_but_not_a_state_construction_reports_the_undefined_initial_state()
{
    // 'X' is the source of an entry, but not a member of Q
    let sigma = Sigma::new(vec![0, 1]).expect("valid sigma");
    let q = Q::new(vec!['A', 'B']).expect("valid Q");
    let delta = Delta::new(vec![
        ('A', vec![(0, 'A'), (1, 'B')]),
        ('B', vec![(0, 'A'), (1, 'A')]),
        ('X', vec![(0, 'A'), (1, 'A')]),
    ])
    .expect("valid delta");
    let f = F::new(vec!['B']).expect("valid final states");

    let sut = DFA::new(q, &sigma, delta, 'X', &f);

    match sut {
        Ok(_) => panic!("Expected Err: {ERR_UNDEFINED_INITIAL_STATE}"),
        Err(err) => assert_eq!(ERR_UNDEFINED_INITIAL_STATE, err),
    }
}

#[test]
fn given_a_final_tag_that_names_no_state_construction_reports_the_undefined_final_state() {
    // 'Z' is a final tag but not a member of Q
    let sigma = Sigma::new(vec![0, 1]).expect("valid sigma");
    let q = Q::new(vec!['A', 'B']).expect("valid Q");
    let delta = Delta::new(vec![
        ('A', vec![(0, 'A'), (1, 'B')]),
        ('B', vec![(0, 'A'), (1, 'A')]),
    ])
    .expect("valid delta");
    let f = F::new(vec!['B', 'Z']).expect("valid final states");

    let sut = DFA::new(q, &sigma, delta, 'A', &f);

    match sut {
        Ok(_) => panic!("Expected Err: {ERR_UNDEFINED_FINAL_STATE}"),
        Err(err) => assert_eq!(ERR_UNDEFINED_FINAL_STATE, err),
    }
}

#[test]
fn given_a_reset_nfa_a_replay_equals_a_fresh_run() {
    let xs = [0, 1, 1, 0];

    let mut replayed = sample_nfa();
    replayed.steps(&[1, 0, 1]).expect("history runs");
    replayed.reset();
    let mut after_reset = replayed.steps(&xs).expect("replay runs").clone();

    let mut fresh = sample_nfa();
    let mut after_fresh = fresh.steps(&xs).expect("fresh run").clone();

    after_reset.sort();
    after_fresh.sort();

    assert_eq!(after_reset, after_fresh);
    assert_eq!(replayed.matches(), fresh.matches());
}

#[test]
fn given_the_indices_a_step_returns_each_resolves_to_its_state() {
    let mut sut = sample_nfa();
    let ids = sut.step(&0).expect("step").clone();

    let mut tags: Vec<char> = Vec::new();
    for i in ids {
        let st = sut.state_at(i);
        tags.push(st.tags()[0]);
    }
    tags.sort();

    // one step on 0 from {A} reaches the union {A, B}
    assert_eq!(tags, vec!['A', 'B']);
}
