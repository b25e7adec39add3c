use finite_state_machine::automata::nfa::ERR_UNDEFINED_SYMBOL;
use finite_state_machine::automata::{
    NFA, ERR_DANGLING_STATE, ERR_UNDEFINED_FINAL_STATE, ERR_UNDEFINED_INITIAL_STATE,
    ERR_UNREFERENCED_STATE_Q,
};
use finite_state_machine::model::{Delta, Sigma, F, Q};

const VALID_DELTA: &str = "valid delta";
const VALID_FINAL_STATES: &str = "valid final states";
const VALID_NFA: &str = "valid nfa";
const VALID_SIGMA: &str = "valid sigma";
const VALID_STATES: &str = "valid Q";

#[derive(Copy, Clone, Eq, PartialEq, Hash)]
pub enum Sym {
    S0,
    S1,
}

#[derive(Copy, Clone, Eq, PartialEq, Hash)]
pub enum Sta {
    SA,
    SB,
    SC,
    SD,
}

fn assert_err<T>(expected: &str, actual: &Result<T, &str>) {
    match actual {
        Ok(_) => panic!("Expected Err: {expected}"),
        Err(actual) => assert_eq!(expected, *actual),
    }
}

#[test]
fn nfa_configuration_given_a_collection_of_transitions_with_dangling_states_we_should_get_an_err() {
    let states = vec!['A', 'C', 'B'];

    let delta = vec![
        ('A', vec![(0, 'A'), (1, 'B')]),
        ('C', vec![(0, 'C'), (1, 'B')]), // no transitions to (C)
        ('B', vec![(0, 'B'), (1, 'A')]),
    ];

    assert_nfa_configuration(states, delta, ERR_DANGLING_STATE);
}

#[test]
fn nfa_configuration_given_a_collection_of_transitions_with_no_transitions_to_initial_state_should_give_you_a_transition_table()
{
    let sigma = Sigma::new(vec![0, 1]).expect(VALID_SIGMA);
    let q = Q::new(vec!['A', 'C', 'B']).expect(VALID_STATES);
    let final_states = F::new(vec!['B']).expect(VALID_FINAL_STATES);

    let delta = Delta::new(vec![
        ('A', vec![(0, 'A'), (1, 'C')]),
        ('C', vec![(0, 'C'), (1, 'B')]),
        ('B', vec![(0, 'B'), (1, 'B')]),
    ])
    .expect(VALID_DELTA);

    NFA::new(q, sigma, delta, 'A', &final_states).expect(VALID_NFA);
}

#[test]
fn nfa_configuration_given_a_collection_of_transitions_with_missing_final_state_we_should_get_an_err()
{
    let states = vec!['A', 'C'];

    // Final state ((B)), configured in assert_nfa_configuration, is missing here
    let delta = vec![
        ('A', vec![(0, 'A'), (1, 'C')]),
        ('C', vec![(0, 'C'), (1, 'A')]),
    ];

    assert_nfa_configuration(states, delta, ERR_UNDEFINED_FINAL_STATE);
}

#[test]
fn nfa_configuration_given_a_collection_of_transitions_with_missing_initial_state_we_should_get_an_err()
{
    let states = vec!['C', 'B'];

    // Initial state >(A), configured in assert_delta_configuration, is missing here
    let delta = vec![
        ('B', vec![(0, 'B'), (1, 'C')]),
        ('C', vec![(0, 'C'), (1, 'B')]),
    ];

    assert_nfa_configuration(states, delta, ERR_UNDEFINED_INITIAL_STATE);
}

#[test]
fn given_a_collection_of_transitions_with_duplicate_input_transitions_we_should_give_you_a_transition_table()
{
    let delta = vec![
        ('A', vec![(0, 'A'), (1, 'C')]),
        ('C', vec![(0, 'C'), (0, 'B'), (1, 'B')]), // input symbol '0' is duplicated here
        ('B', vec![(0, 'C'), (1, 'B')]),
    ];

    let sigma = Sigma::new(vec![0, 1]).expect(VALID_SIGMA);
    let q = Q::new(vec!['A', 'C', 'B']).expect(VALID_STATES);
    let delta = Delta::new(delta).expect(VALID_DELTA);
    let final_states = F::new(vec!['B']).expect(VALID_FINAL_STATES);

    NFA::new(q, sigma, delta, 'A', &final_states).expect(VALID_NFA);
}

#[test]
fn given_a_collection_of_transitions_with_incomplete_input_transitions_we_should_give_you_a_transition_table()
{
    let delta = vec![
        ('A', vec![(0, 'A'), (1, 'B')]),
        ('C', vec![(0, 'C')]), // input symbol '1' is not defined here
        ('B', vec![(0, 'C'), (1, 'B')]),
    ];

    let sigma = Sigma::new(vec![0, 1]).expect(VALID_SIGMA);
    let q = Q::new(vec!['A', 'C', 'B']).expect(VALID_STATES);
    let delta = Delta::new(delta).expect(VALID_DELTA);
    let final_states = F::new(vec!['B']).expect(VALID_FINAL_STATES);

    NFA::new(q, sigma, delta, 'A', &final_states).expect(VALID_NFA);
}

#[test]
fn nfa_configuration_given_a_collection_of_transitions_with_undefined_symbols_we_should_get_an_err()
{
    let states = vec!['A', 'C', 'B'];

    let delta = vec![
        ('A', vec![(0, 'A'), (1, 'C'), (2, 'B')]), // input symbol '2' is not defined in assert_nfa_configuration
        ('C', vec![(0, 'C'), (1, 'A')]),
        ('B', vec![(0, 'C'), (1, 'B')]),
    ];

    assert_nfa_configuration(states, delta, ERR_UNDEFINED_SYMBOL);
}

#[test]
fn nfa_configuration_given_a_missing_state_transition_should_get_an_err() {

    let sigma = Sigma::new(vec![Sym::S0, Sym::S1]).expect(VALID_SIGMA);
    let q = Q::new(vec![Sta::SA, Sta::SB, Sta::SC, Sta::SD]).expect(VALID_STATES);
    let final_states = F::new(vec![Sta::SB]).expect(VALID_FINAL_STATES);

    let delta = Delta::new(vec![
        (Sta::SA, vec![(Sym::S0, Sta::SA), (Sym::S1, Sta::SB)]),
        (Sta::SC, vec![(Sym::S0, Sta::SC), (Sym::S1, Sta::SA)]),
        (Sta::SB, vec![(Sym::S0, Sta::SC), (Sym::S1, Sta::SB)]),
    ])
    .expect(VALID_DELTA);

    let sut = NFA::new(q, sigma, delta, Sta::SA, &final_states);

    assert_err(ERR_UNREFERENCED_STATE_Q, &sut);
}

#[test]
fn nfa_configuration_given_a_collection_of_valid_state_transitions_should_give_you_a_transition_table()
{

    let sigma = Sigma::new(vec![Sym::S0, Sym::S1]).expect(VALID_SIGMA);
    let q = Q::new(vec![Sta::SA, Sta::SB, Sta::SC]).expect(VALID_STATES);
    let final_states = F::new(vec![Sta::SB]).expect(VALID_FINAL_STATES);

    let delta = Delta::new(vec![
        (Sta::SA, vec![(Sym::S0, Sta::SA), (Sym::S1, Sta::SB)]),
        (Sta::SC, vec![(Sym::S0, Sta::SC), (Sym::S1, Sta::SA)]),
        (Sta::SB, vec![(Sym::S0, Sta::SC), (Sym::S1, Sta::SB)]),
    ])
    .expect(VALID_DELTA);

    NFA::new(q, sigma, delta, Sta::SA, &final_states).expect(VALID_NFA);
}

fn assert_nfa_configuration(tags: Vec<char>, case: Vec<(char, Vec<(u8, char)>)>, expected: &str) {
    let sigma = Sigma::new(vec![0, 1]).expect(VALID_SIGMA);
    let q = Q::new(tags).expect(VALID_STATES);
    let delta = Delta::new(case).expect(VALID_DELTA);
    let final_states = F::new(vec!['B']).expect(VALID_FINAL_STATES);

    let sut = NFA::new(q, sigma, delta, 'A', &final_states);

    assert_err(expected, &sut);
}
