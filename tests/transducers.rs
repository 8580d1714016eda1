use fsm::mealy::Mealy;
use fsm::moore::Moore;
use fsm::transducer::{Guard, OutputAction, OutputEvent, State, Symbol, Transition, FSM};

#[test]
fn test_fsm() {
    let mut fsm = FSM::new();
    assert_eq!(fsm.states.len(), 0);

    let mut state = State::new(0, OutputEvent::INIT);
    let transition = Transition::new(0, 1, Guard::new(Symbol::A));
    state.add_transition(transition);
    fsm.add_state(state);
    assert_eq!(fsm.states.len(), 1);

    let state = fsm.state(0).unwrap();
    assert_eq!(state.id, 0);
    assert_eq!(state.event, OutputEvent::INIT);
    assert_eq!(state.transitions.len(), 1);

    let transition = &state.transitions[0];
    assert_eq!(transition.source, 0);
    assert_eq!(transition.destination, 1);
    assert_eq!(transition.guard.input, Symbol::A);

    let mut state = State::new(1, OutputEvent::CNF);
    let transition = Transition::new(1, 2, Guard::new(Symbol::B));
    state.add_transition(transition);
    fsm.add_state(state);
    assert_eq!(fsm.states.len(), 2);
}

#[test]
fn transducer_transitions_pick_first_matching_guard() {
    let mut state = State::new(3, OutputEvent::CNF);
    state.add_transition(Transition::new(3, 4, Guard::new(Symbol::B)));
    state.add_transition(Transition::new(3, 5, Guard::new(Symbol::A)));
    state.add_transition(Transition::new(3, 6, Guard::new(Symbol::A)));
    assert_eq!(state.next(Symbol::A), Some((1, 5)));
    assert_eq!(state.next(Symbol::B), Some((0, 4)));
    assert!(Guard::new(Symbol::A).matches(Symbol::A));
    assert!(!Guard::new(Symbol::A).matches(Symbol::B));
    assert_eq!(Transition::new(0, 9, Guard::new(Symbol::B)).next(Symbol::A), None);

    let mut fsm = FSM::new();
    fsm.add_state(State::new(0, OutputEvent::INIT));
    assert!(fsm.add_transition(Transition::new(0, 1, Guard::new(Symbol::A))).is_ok());
    assert!(fsm.add_transition(Transition::new(7, 1, Guard::new(Symbol::A))).is_err());
    assert_eq!(fsm.state(0).unwrap().transitions.len(), 1);
    assert!(fsm.state(7).is_none());

    let action = OutputAction::Action { event: OutputEvent::CNF, values: vec![true, false] };
    assert_ne!(action, OutputAction::Epsilon);
}

#[test]
fn test_mealy_run() {
    let mut fsm = Mealy::new();
    let q0 = fsm.add_state();
    let p0 = fsm.add_state();
    let p1 = fsm.add_state();
    fsm.add_transition(q0, 0, p0, false).unwrap();
    fsm.add_transition(q0, 1, p1, false).unwrap();
    fsm.add_transition(p0, 0, p0, true).unwrap();
    fsm.add_transition(p0, 1, p1, false).unwrap();
    fsm.add_transition(p1, 0, p0, false).unwrap();
    fsm.add_transition(p1, 1, p1, true).unwrap();

    let inputs = vec![0, 1, 1, 0, 0];
    println!("Running Moore machine on {:?}", inputs);
    let mut current_state = 0;
    let mut outputs = Vec::new();
    println!("initial state {}", current_state);
    for (input, new_state, output) in fsm.run(inputs) {
        println!(
            "state {}, input {}, new_state {}, output {}",
            current_state, input, new_state, output
        );
        outputs.push(output);
        current_state = new_state;
    }
    assert_eq!(outputs, vec![false, false, true, false, true]);
}

#[test]
fn test_moore_run() {
    let mut fsm = Moore::new();
    let s0 = fsm.add_state(0);
    let s1 = fsm.add_state(1);
    let s2 = fsm.add_state(2);
    fsm.add_transition(s0, 0, s0).unwrap();
    fsm.add_transition(s0, 1, s1).unwrap();
    fsm.add_transition(s1, 0, s2).unwrap();
    fsm.add_transition(s1, 1, s0).unwrap();
    fsm.add_transition(s2, 0, s1).unwrap();
    fsm.add_transition(s2, 1, s2).unwrap();

    let inputs = vec![1, 0, 1, 0, 1, 1, 0];
    println!("Running Moore machine on {:?}", inputs);
    let mut current_state = 0;
    let mut outputs = vec![fsm.state(current_state).output];
    println!("initial state {}, output {}", current_state, outputs[0]);
    for (input, new_state, output) in fsm.run(inputs) {
        println!(
            "state {}, input {}, new_state {}, output {}",
            current_state, input, new_state, output
        );
        outputs.push(output);
        current_state = new_state;
    }
    assert_eq!(outputs, vec![0, 1, 2, 2, 1, 0, 1, 2]);
}

#[test]
fn runs_stop_at_a_missing_move() {
    let mut mealy: Mealy<u8, char> = Mealy::new();
    let a = mealy.add_state();
    mealy.add_transition(a, 1, a, 'x').unwrap();
    assert_eq!(mealy.run(vec![1, 1, 2, 1]), vec![(1, a, 'x'), (1, a, 'x')]);
    assert_eq!(mealy.next(a, 2), None);
    assert!(mealy.add_transition(a, 1, 4, 'y').is_err());

    let mut moore: Moore<u8, u8> = Moore::new();
    let s = moore.add_state(7);
    let t = moore.add_state(9);
    moore.add_transition(s, 0, t).unwrap();
    assert_eq!(moore.next(s, 0), Some((t, 9)));
    assert_eq!(moore.run(vec![0, 0]), vec![(0, t, 9)]);
}
