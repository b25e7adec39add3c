use finite_state_machine::automata::{NFA, ERR_INVALID_INPUT};
use finite_state_machine::model::{Delta, Sigma, F, Q};

const STEPS_NO_ERRORS: &str = "expect no errors in steps";
const VALID_DELTA: &str = "valid delta";
const VALID_FINAL_STATES: &str = "valid final states";
const VALID_NFA: &str = "a valid nfa";
const VALID_SIGMA: &str = "valid sigma";
const VALID_STATES: &str = "valid Q";

fn assert_err<T>(expected: &str, actual: &Result<T, &str>) {
    match actual {
        Ok(_) => panic!("Expected Err: {expected}"),
        Err(actual) => assert_eq!(expected, *actual),
    }
}

fn assert_steps_case(
    tags: Vec<char>,
    case: Vec<(char, Vec<(u8, char)>)>,
    expected: bool,
    steps: fn(nfa: &mut NFA<u8, char>),
) {
    let sigma = Sigma::new(vec![0, 1]).expect(VALID_SIGMA);
    let q = Q::new(tags).expect(VALID_STATES);
    let delta = Delta::new(case).expect(VALID_DELTA);
    let f = F::new(vec!['B']).expect(VALID_FINAL_STATES);
    let mut sut = NFA::new(q, sigma, delta, 'A', &f).expect(VALID_NFA);

    steps(&mut sut);

    let actual = sut.matches();

    assert_eq!(expected, actual);
}

#[test]
fn nfa_with_deterministic_detlas_given_a_valid_nfa_should_fail_incorrect_input() {
    let expected = false;

    let delta = vec![
        ('A', vec![(0, 'A'), (1, 'C')]),
        ('C', vec![(0, 'A'), (1, 'B')]),
        ('B', vec![(0, 'B'), (1, 'D')]),
        ('D', vec![(0, 'A'), (1, 'A')]),
    ];

    assert_steps_case(vec!['A', 'B', 'C', 'D'], delta, expected, |sut| {
        let inputs = [0, 1, 1, 0, 1];

        sut.steps(&inputs).expect(STEPS_NO_ERRORS);
    });
}

#[test]
fn nfa_with_deterministic_detlas_given_a_valid_nfa_should_fail_invalid_input() {
    let states = vec!['A', 'B', 'C', 'D'];
    let sigma = Sigma::new(vec![0, 1]).expect(VALID_SIGMA);
    let q = Q::new(states).expect(VALID_STATES);

    let delta = vec![
        ('A', vec![(0, 'A'), (1, 'C')]),
        ('C', vec![(0, 'A'), (1, 'B')]),
        ('B', vec![(0, 'B'), (1, 'D')]),
        ('D', vec![(0, 'A'), (1, 'A')]),
    ];

    let delta = Delta::new(delta).expect(VALID_DELTA);
    let final_states = F::new(vec!['B']).expect(VALID_FINAL_STATES);
    let mut sut = NFA::new(q, sigma, delta, 'A', &final_states).expect(VALID_NFA);

    let inputs = [0, 1, 1, 2];
    let actual = sut.steps(&inputs);

    assert_err(ERR_INVALID_INPUT, &actual);
}

#[test]
fn nfa_with_deterministic_detlas_given_a_valid_nfa_you_should_be_able_to_process_step_by_step() {
    let expected = true;

    let delta = vec![
        ('A', vec![(0, 'A'), (1, 'C')]),
        ('C', vec![(0, 'A'), (1, 'B')]),
        ('B', vec![(0, 'B'), (1, 'D')]),
        ('D', vec![(0, 'A'), (1, 'A')]),
    ];

    assert_steps_case(vec!['A', 'B', 'C', 'D'], delta, expected, |sut| {
        let inputs = [0, 1, 1, 0, 0];

        for input in &inputs {
            sut.step(input).expect(STEPS_NO_ERRORS);
        }
    });
}

#[test]
fn nfa_with_deterministic_detlas_given_a_valid_nfa_you_should_be_able_to_process_steps() {
    let expected = true;

    let delta = vec![
        ('A', vec![(0, 'A'), (1, 'C')]),
        ('C', vec![(0, 'A'), (1, 'B')]),
        ('B', vec![(0, 'B'), (1, 'D')]),
        ('D', vec![(0, 'A'), (1, 'A')]),
    ];

    assert_steps_case(vec!['A', 'B', 'C', 'D'], delta, expected, |sut| {
        let inputs = [0, 1, 1, 0];

        sut.steps(&inputs).expect(STEPS_NO_ERRORS);
    });
}

#[test]
fn nfa_with_deterministic_detlas_given_a_valid_nfa_you_should_be_able_to_reset_and_restart_steps() {
    let expected = true;

    let delta = vec![
        ('A', vec![(0, 'A'), (1, 'C')]),
        ('C', vec![(0, 'A'), (1, 'B')]),
        ('B', vec![(0, 'B'), (1, 'D')]),
        ('D', vec![(0, 'A'), (1, 'A')]),
    ];

    assert_steps_case(vec!['A', 'B', 'C', 'D'], delta, expected, |sut| {
        let inputs = [0, 1, 1, 1, 0];

        // same as below without reset, expected to fail
        sut.steps(&inputs[..2]).expect(STEPS_NO_ERRORS);
        sut.steps(&inputs[2..]).expect(STEPS_NO_ERRORS);

        let actual = sut.matches();
        let expected = false;

        assert_eq!(expected, actual);

        sut.reset();

        sut.steps(&inputs[..2]).expect(STEPS_NO_ERRORS);

        sut.reset();

        sut.steps(&inputs[2..]).expect(STEPS_NO_ERRORS);
    });
}
