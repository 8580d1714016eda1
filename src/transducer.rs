use std::collections::HashMap;
use std::fmt::Debug;
use std::hash::Hash;

use vstd::prelude::*;

use crate::error::FsmError;

verus! {

broadcast use vstd::std_specs::hash::group_hash_axioms;

/// What a symbol type needs: equality, hashing, ordering and copying.
pub trait Alphabet: Hash + Eq + Debug + Clone + Copy + Ord {}

impl<T> Alphabet for T where T: Hash + Eq + Debug + Clone + Copy + Ord {}

/// Input symbols of the transducer.
#[derive(Debug, Clone, Copy, PartialEq, Eq, Structural)]
pub enum Symbol {
    A,
    B,
}

/// Output event attached to a transducer state.
#[derive(Debug, Clone, Copy, PartialEq, Eq, Structural)]
pub enum OutputEvent {
    INIT,
    CNF,
}

/// Output of a transition: nothing, or an event with its values.
#[derive(Debug, Clone, PartialEq, Eq)]
pub enum OutputAction {
    Epsilon,
    Action { event: OutputEvent, values: Vec<bool> },
}

/// Condition on the input under which a transition fires.
#[derive(Debug, Clone, Copy, PartialEq, Eq, Structural)]
pub struct Guard {
    pub input: Symbol,
}

impl Guard {
    pub fn new(input: Symbol) -> (r: Self)
        ensures
            r.input == input,
    {
        Guard { input }
    }

    /// Whether the guard admits `input`.
    pub fn matches(&self, input: Symbol) -> (r: bool)
        ensures
            r == (self.input == input),
    {
        self.input == input
    }
}

/// A guarded edge from `source` to `destination`.
#[derive(Debug, Clone, Copy, PartialEq, Eq, Structural)]
pub struct Transition {
    pub source: usize,
    pub destination: usize,
    pub guard: Guard,
}

impl Transition {
    pub fn new(source: usize, destination: usize, guard: Guard) -> (r: Self)
        ensures
            r.source == source,
            r.destination == destination,
            r.guard == guard,
    {
        Transition { source, destination, guard }
    }

    /// The destination when the guard admits `input`.
    pub fn next(&self, input: Symbol) -> (r: Option<usize>)
        ensures
            r == if self.guard.input == input {
                Some(self.destination)
            } else {
                None::<usize>
            },
    {
        if self.guard.matches(input) {
            Some(self.destination)
        } else {
            None
        }
    }
}

/// A transducer state: its id, its output event and its outgoing
/// transitions in the order they were added.
#[derive(Debug, Clone, PartialEq, Eq)]
pub struct State {
    pub id: usize,
    pub event: OutputEvent,
    pub transitions: Vec<Transition>,
}

impl State {
    pub fn new(id: usize, event: OutputEvent) -> (r: Self)
        ensures
            r.id == id,
            r.event == event,
            r.transitions@ == Seq::<Transition>::empty(),
    {
        State { id, event, transitions: Vec::new() }
    }

    /// Appends a transition that leaves this state.
    pub fn add_transition(&mut self, transition: Transition)
        requires
            transition.source == old(self).id,
        ensures
            final(self).id == old(self).id,
            final(self).event == old(self).event,
            final(self).transitions@ == old(self).transitions@.push(transition),
    {
        self.transitions.push(transition);
    }

    /// The first transition whose guard admits `input`, as its index and
    /// destination.
    pub fn next(&self, input: Symbol) -> (r: Option<(usize, usize)>)
        ensures
            match r {
                Some((k, d)) => {
                    &&& k < self.transitions@.len()
                    &&& self.transitions@[k as int].guard.input == input
                    &&& d == self.transitions@[k as int].destination
                    &&& forall|j: int| 0 <= j < k ==> #[trigger] self.transitions@[j].guard.input != input
                },
                None => forall|j: int| 0 <= j < self.transitions@.len() ==> #[trigger] self.transitions@[j].guard.input != input,
            },
    {
        let mut k: usize = 0;
        while k < self.transitions.len()
            invariant
                k <= self.transitions@.len(),
                forall|j: int| 0 <= j < k ==> #[trigger] self.transitions@[j].guard.input != input,
            decreases self.transitions@.len() - k,
        {
            if let Some(s) = self.transitions[k].next(input) {
                return Some((k, s));
            }
            k = k + 1;
        }
        None
    }
}

/// A transducer: its states keyed by id.
pub struct FSM {
    pub states: HashMap<usize, State>,
}

impl FSM {
    /// Every state is stored under its own id.
    pub open spec fn wf(&self) -> bool {
        forall|k: usize| #[trigger] self.states@.contains_key(k) ==> self.states@[k].id == k
    }

    pub fn new() -> (r: Self)
        ensures
            r.wf(),
            r.states@ == Map::<usize, State>::empty(),
    {
        FSM { states: HashMap::new() }
    }

    /// The state with id `id`, if there is one.
    pub fn state(&self, id: usize) -> (r: Option<&State>)
        ensures
            match r {
                Some(s) => self.states@.contains_key(id) && *s == self.states@[id],
                None => !self.states@.contains_key(id),
            },
    {
        self.states.get(&id)
    }

    /// Stores `state` under its id, replacing a state with the same id.
    pub fn add_state(&mut self, state: State)
        requires
            old(self).wf(),
        ensures
            final(self).wf(),
            final(self).states@ == old(self).states@.insert(state.id, state),
    {
        let id = state.id;
        self.states.insert(id, state);
    }

    /// Appends `transition` to its source state.
    pub fn add_transition(&mut self, transition: Transition) -> (r: Result<(), FsmError>)
        requires
            old(self).wf(),
        ensures
            final(self).wf(),
            r is Err <==> !old(self).states@.contains_key(transition.source),
            r is Err ==> r == Err::<(), FsmError>(FsmError::InvalidStateId) && final(self).states@ == old(self).states@,
            r is Ok ==> {
                let old_state = old(self).states@[transition.source];
                final(self).states@ == old(self).states@.insert(
                    transition.source,
                    State { id: old_state.id, event: old_state.event, transitions: final(self).states@[transition.source].transitions },
                ) && final(self).states@[transition.source].transitions@ == old_state.transitions@.push(transition)
            },
    {
        match self.states.remove(&transition.source) {
            Some(mut state) => {
                state.add_transition(transition);
                let id = state.id;
                self.states.insert(id, state);
                proof {
                    assert(self.states@ =~= old(self).states@.insert(transition.source, self.states@[transition.source]));
                }
                Ok(())
            },
            None => Err(FsmError::InvalidStateId),
        }
    }
}

} // verus!
