use fsm::dfa::Dfa;
use fsm::error::FsmError;
use fsm::nfa::Nfa;

#[allow(non_upper_case_globals)]
const Zero: char = '0';
#[allow(non_upper_case_globals)]
const One: char = '1';

fn word(s: &str) -> Vec<char> {
    s.chars().collect()
}

fn check_even_zeros_dfa(dfa: &Dfa) {
    assert!(dfa.accepts(vec![]));
    assert!(dfa.accepts(vec![One]));
    assert!(dfa.accepts(vec![One, One]));
    assert!(dfa.accepts(vec![Zero, Zero]));
    assert!(dfa.accepts(vec![Zero, One, One, Zero]));
    assert!(dfa.accepts(vec![Zero, One, Zero, One]));
    assert!(dfa.accepts(vec![Zero, Zero, One, One]));
    assert!(!dfa.accepts(vec![Zero]));
    assert!(!dfa.accepts(vec![Zero, One]));
    assert!(!dfa.accepts(vec![One, Zero]));
    assert!(!dfa.accepts(vec![One, One, Zero]));
    assert!(!dfa.accepts(vec![One, One, Zero, Zero, Zero]));
    assert!(!dfa.accepts(vec![One, One, Zero, Zero, One, Zero]));
}

fn check_even_zeros_nfa(nfa: &Nfa) {
    assert!(nfa.accepts(vec![]));
    assert!(nfa.accepts(vec![One]));
    assert!(nfa.accepts(vec![One, One]));
    assert!(nfa.accepts(vec![Zero, Zero]));
    assert!(nfa.accepts(vec![Zero, One, One, Zero]));
    assert!(nfa.accepts(vec![Zero, One, Zero, One]));
    assert!(nfa.accepts(vec![Zero, Zero, One, One]));
    assert!(!nfa.accepts(vec![Zero]));
    assert!(!nfa.accepts(vec![Zero, One]));
    assert!(!nfa.accepts(vec![One, Zero]));
    assert!(!nfa.accepts(vec![One, One, Zero]));
    assert!(!nfa.accepts(vec![One, One, Zero, Zero, Zero]));
    assert!(!nfa.accepts(vec![One, One, Zero, Zero, One, Zero]));
}

#[test]
fn test_simple_dfa() {
    let mut dfa = Dfa::new();
    let a = dfa.add_state(true);
    let b = dfa.add_state(false);
    // Loops:
    dfa.add_transition(a, One, a).unwrap();
    dfa.add_transition(b, One, b).unwrap();
    // Transitions:
    dfa.add_transition(a, Zero, b).unwrap();
    dfa.add_transition(b, Zero, a).unwrap();

    // This DFA accepts all words with even number of Zeros
    check_even_zeros_dfa(&dfa);
}

#[test]
fn dfa_test_simple_dfa() {
    let mut dfa = Dfa::new();
    dfa.add_state(true);
    dfa.add_state(false);
    // Loops:
    dfa.add_transition(0, One, 0).unwrap();
    dfa.add_transition(1, One, 1).unwrap();
    // Transitions:
    dfa.add_transition(0, Zero, 1).unwrap();
    dfa.add_transition(1, Zero, 0).unwrap();

    check_even_zeros_dfa(&dfa);
}

#[test]
fn mod_test_simple_dfa() {
    let mut nfa = Nfa::new();
    let a = nfa.add_state(true);
    let b = nfa.add_state(false);
    // Loops:
    nfa.add_transition(a, One, a).unwrap();
    nfa.add_transition(b, One, b).unwrap();
    // Transitions:
    nfa.add_transition(a, Zero, b).unwrap();
    nfa.add_transition(b, Zero, a).unwrap();

    // This NFA (actually, DFA) accepts all words with even number of Zeros
    check_even_zeros_nfa(&nfa);
}

#[test]
fn nfa_test_simple_dfa() {
    let mut nfa = Nfa::new();
    nfa.add_state(true);
    nfa.add_state(false);
    // Loops:
    nfa.add_transition(0, One, 0).unwrap();
    nfa.add_transition(1, One, 1).unwrap();
    // Transitions:
    nfa.add_transition(0, Zero, 1).unwrap();
    nfa.add_transition(1, Zero, 0).unwrap();

    check_even_zeros_nfa(&nfa);
}

fn ends_with_one() -> Nfa {
    let mut nfa = Nfa::new();
    let a = nfa.add_state(false);
    let b = nfa.add_state(true);
    nfa.add_epsilon_transition(a, a).unwrap();
    nfa.add_transition(a, Zero, a).unwrap();
    nfa.add_transition(a, One, a).unwrap();
    nfa.add_transition(a, One, b).unwrap();
    nfa.add_transition(b, Zero, a).unwrap();
    nfa.add_transition(b, One, b).unwrap();
    nfa
}

#[test]
fn test_simple_nfa() {
    let nfa = ends_with_one();

    // This NFA accepts only words ending with One
    assert!(nfa.accepts(vec![One]));
    assert!(nfa.accepts(vec![Zero, One]));
    assert!(nfa.accepts(vec![Zero, Zero, One]));
    assert!(nfa.accepts(vec![Zero, One, Zero, One]));
    assert!(nfa.accepts(vec![One, Zero, Zero, Zero, One]));
    assert!(!nfa.accepts(vec![One, Zero]));
    assert!(!nfa.accepts(vec![One, Zero, Zero]));
    assert!(!nfa.accepts(vec![One, Zero, Zero, Zero]));
    assert!(!nfa.accepts(vec![One, Zero, Zero, Zero]));
    assert!(!nfa.accepts(vec![One, One, Zero, Zero]));
}

#[test]
fn test_nfa_to_dfa() {
    let nfa = ends_with_one();

    let dfa = nfa.to_dfa(&[Zero, One]);

    // This DFA accepts only words ending with One
    assert!(dfa.accepts(vec![One]));
    assert!(dfa.accepts(vec![Zero, One]));
    assert!(dfa.accepts(vec![Zero, Zero, One]));
    assert!(dfa.accepts(vec![Zero, One, Zero, One]));
    assert!(dfa.accepts(vec![One, Zero, Zero, Zero, One]));
    assert!(!dfa.accepts(vec![One, Zero]));
    assert!(!dfa.accepts(vec![One, Zero, Zero]));
    assert!(!dfa.accepts(vec![One, Zero, Zero, Zero]));
    assert!(!dfa.accepts(vec![One, Zero, Zero, Zero]));
    assert!(!dfa.accepts(vec![One, One, Zero, Zero]));
}

#[test]
fn scenario_even_zeros_dfa() {
    let mut dfa = Dfa::new();
    let s0 = dfa.add_state(true);
    let s1 = dfa.add_state(false);
    dfa.add_transition(s0, '0', s1).unwrap();
    dfa.add_transition(s0, '1', s0).unwrap();
    dfa.add_transition(s1, '0', s0).unwrap();
    dfa.add_transition(s1, '1', s1).unwrap();
    assert!(dfa.accepts(word("")));
    assert!(!dfa.accepts(word("0")));
    assert!(dfa.accepts(word("00")));
    // Two zeros: back in S0.
    assert!(dfa.accepts(word("010")));
    assert!(dfa.accepts(word("0110")));
    assert!(!dfa.accepts(word("0100")));
}

#[test]
fn scenario_ends_with_one_nfa() {
    let nfa = ends_with_one();
    assert!(nfa.accepts(word("1")));
    assert!(!nfa.accepts(word("10")));
    assert!(nfa.accepts(word("101")));
}

#[test]
fn dfa_missing_edge_rejects_and_overwrite_replaces() {
    let mut dfa = Dfa::new();
    let a = dfa.add_state(false);
    let b = dfa.add_state(true);
    dfa.add_transition(a, 'x', a).unwrap();
    dfa.add_transition(a, 'x', b).unwrap();
    assert_eq!(dfa.next(a, 'x'), Ok(Some(b)));
    assert_eq!(dfa.next(a, 'y'), Ok(None));
    assert_eq!(dfa.num_transitions(), 1);
    assert!(dfa.accepts(word("x")));
    assert!(!dfa.accepts(word("xx")));
    assert!(!dfa.accepts(word("y")));
}

#[test]
fn invalid_state_ids_are_reported() {
    let mut nfa = Nfa::new();
    let a = nfa.add_state(false);
    assert_eq!(nfa.add_transition(a, 'a', 7), Err(FsmError::InvalidStateId));
    assert_eq!(nfa.add_transition(3, 'a', a), Err(FsmError::InvalidStateId));
    assert_eq!(nfa.add_epsilon_transition(a, 1), Err(FsmError::InvalidStateId));
    assert_eq!(nfa.next(1, 'a'), Err(FsmError::InvalidStateId));
    assert_eq!(nfa.next_epsilon(1), Err(FsmError::InvalidStateId));
    assert_eq!(nfa.accepting(1), Err(FsmError::InvalidStateId));
    assert_eq!(nfa.epsilon_closure(1), Err(FsmError::InvalidStateId));
    assert_eq!(nfa.multi_epsilon_closure(&vec![0, 2]), Err(FsmError::InvalidStateId));
    assert_eq!(nfa.num_transitions(), 0);

    let mut dfa = Dfa::new();
    let s = dfa.add_state(true);
    assert_eq!(dfa.add_transition(s, 'a', 1), Err(FsmError::InvalidStateId));
    assert_eq!(dfa.next(5, 'a'), Err(FsmError::InvalidStateId));
}

#[test]
fn nfa_queries_and_enumeration() {
    let mut nfa = Nfa::new();
    let a = nfa.add_state(false);
    let b = nfa.add_state(true);
    let c = nfa.add_state(false);
    nfa.add_transition(a, 'x', b).unwrap();
    nfa.add_transition(a, 'x', c).unwrap();
    nfa.add_transition(a, 'x', b).unwrap();
    nfa.add_transition(b, 'y', a).unwrap();
    nfa.add_epsilon_transition(c, a).unwrap();
    nfa.add_epsilon_transition(c, a).unwrap();

    assert_eq!(nfa.num_states(), 3);
    assert_eq!(nfa.next(a, 'x'), Ok(vec![b, c]));
    assert_eq!(nfa.next(a, 'y'), Ok(vec![]));
    assert_eq!(nfa.next_epsilon(c), Ok(vec![a]));
    assert_eq!(nfa.accepting(b), Ok(true));
    assert_eq!(nfa.num_transitions(), 3);
    assert_eq!(nfa.num_epsilon_transitions(), 1);
    let mut triples = nfa.transitions();
    triples.sort();
    assert_eq!(triples, vec![(a, 'x', b), (a, 'x', c), (b, 'y', a)]);
    assert_eq!(nfa.epsilon_transitions(), vec![(c, a)]);
    assert_eq!(nfa.state(a).num_transitions(), 2);
    assert_eq!(nfa.states().len(), 3);
}

#[test]
fn epsilon_closure_follows_cycles() {
    let mut nfa = Nfa::new();
    for _ in 0..5 {
        nfa.add_state(false);
    }
    nfa.add_epsilon_transition(0, 1).unwrap();
    nfa.add_epsilon_transition(1, 2).unwrap();
    nfa.add_epsilon_transition(2, 0).unwrap();
    nfa.add_epsilon_transition(2, 2).unwrap();
    nfa.add_epsilon_transition(3, 4).unwrap();
    assert_eq!(nfa.epsilon_closure(0), Ok(vec![0, 1, 2]));
    assert_eq!(nfa.epsilon_closure(4), Ok(vec![4]));
    assert_eq!(nfa.multi_epsilon_closure(&vec![3, 1]), Ok(vec![0, 1, 2, 3, 4]));
    assert_eq!(nfa.multi_epsilon_closure(&vec![]), Ok(vec![]));
}
