use std::collections::HashMap;

use vstd::prelude::*;
use vstd::std_specs::hash::obeys_key_model;

use crate::arena::Arena;
use crate::error::FsmError;
use crate::transducer::Alphabet;

verus! {

broadcast use vstd::std_specs::hash::group_hash_axioms;

pub type StateId = usize;

/// A state of a [`Mealy`] machine: for each input, the next state and the
/// output emitted on the way.
pub struct State<I, O> {
    pub id: StateId,
    pub transitions: HashMap<I, (StateId, O)>,
}

impl<I: Alphabet, O: Alphabet> State<I, O> {
    pub fn new(id: StateId) -> (r: Self)
        ensures
            r.id == id,
            r.transitions@ == Map::<I, (StateId, O)>::empty(),
    {
        State { id, transitions: HashMap::new() }
    }

    /// Sets the move on `input`, replacing an earlier one.
    pub fn add_transition(&mut self, input: I, to: StateId, output: O)
        requires
            obeys_key_model::<I>(),
        ensures
            final(self).id == old(self).id,
            final(self).transitions@ == old(self).transitions@.insert(input, (to, output)),
    {
        self.transitions.insert(input, (to, output));
    }

    /// Number of inputs with a move.
    pub fn num_transitions(&self) -> (r: usize)
        requires
            obeys_key_model::<I>(),
        ensures
            r == self.transitions@.len(),
    {
        self.transitions.len()
    }

    /// The move on `input`, if any.
    pub fn next(&self, input: I) -> (r: Option<(StateId, O)>)
        requires
            obeys_key_model::<I>(),
        ensures
            r == if self.transitions@.contains_key(input) {
                Some(self.transitions@[input])
            } else {
                None
            },
    {
        match self.transitions.get(&input) {
            Some(t) => Some(*t),
            None => None,
        }
    }
}

/// Mealy machine: states with a transition function and an output function
/// on (state, input); state 0 is the initial state.
pub struct Mealy<I, O> {
    states: Arena<State<I, O>>,
}

impl<I: Alphabet, O: Alphabet> View for Mealy<I, O> {
    type V = Seq<State<I, O>>;

    closed spec fn view(&self) -> Seq<State<I, O>> {
        self.states@
    }
}

impl<I: Alphabet, O: Alphabet> Mealy<I, O> {
    pub open spec fn n(&self) -> nat {
        self@.len()
    }

    /// The move of state `q` on `input`.
    pub open spec fn delta(&self, q: StateId, input: I) -> Option<(StateId, O)> {
        if q < self.n() && self@[q as int].transitions@.contains_key(input) {
            Some(self@[q as int].transitions@[input])
        } else {
            None
        }
    }

    /// The (input, new state, output) steps from `q` on `inputs`, up to the
    /// first input without a move.
    pub open spec fn steps(&self, q: StateId, inputs: Seq<I>) -> Seq<(I, StateId, O)>
        decreases inputs.len(),
    {
        if inputs.len() == 0 {
            Seq::empty()
        } else {
            match self.delta(q, inputs[0]) {
                Some(t) => seq![(inputs[0], t.0, t.1)] + self.steps(t.0, inputs.drop_first()),
                None => Seq::empty(),
            }
        }
    }

    pub fn new() -> (r: Self)
        ensures
            r.n() == 0,
    {
        Mealy { states: Arena::new() }
    }

    /// Adds a state without moves and returns its id.
    pub fn add_state(&mut self) -> (id: StateId)
        requires
            old(self).n() < usize::MAX,
        ensures
            id == old(self).n(),
            final(self)@ == old(self)@.push(final(self)@[id as int]),
            final(self)@[id as int].id == id,
            final(self)@[id as int].transitions@ == Map::<I, (StateId, O)>::empty(),
    {
        let id = self.states.allocate(State::new(self.states.len()));
        proof {
            assert(self@ =~= old(self)@.push(self@[id as int]));
        }
        id
    }

    /// Sets the move of `from` on `input` to `to`, emitting `output`.
    pub fn add_transition(&mut self, from: StateId, input: I, to: StateId, output: O) -> (r: Result<(), FsmError>)
        requires
            obeys_key_model::<I>(),
        ensures
            r is Err <==> (from >= old(self).n() || to >= old(self).n()),
            r is Err ==> r == Err::<(), FsmError>(FsmError::InvalidStateId) && final(self)@ == old(self)@,
            r is Ok ==> {
                &&& final(self).n() == old(self).n()
                &&& forall|i: int| 0 <= i < old(self).n() && i != from ==> #[trigger] final(self)@[i] == old(self)@[i]
                &&& final(self)@[from as int].id == old(self)@[from as int].id
                &&& final(self)@[from as int].transitions@ == old(self)@[from as int].transitions@.insert(input, (to, output))
            },
    {
        let n = self.states.len();
        if from >= n || to >= n {
            return Err(FsmError::InvalidStateId);
        }
        self.states.get_mut(from).add_transition(input, to, output);
        Ok(())
    }

    /// The state with id `index`.
    pub fn state(&self, index: StateId) -> (r: &State<I, O>)
        requires
            index < self.n(),
        ensures
            *r == self@[index as int],
    {
        self.states.get(index)
    }

    /// The state with id `index`, for editing in place.
    pub fn state_mut(&mut self, index: StateId) -> (r: &mut State<I, O>)
        requires
            index < old(self).n(),
        ensures
            *r == old(self)@[index as int],
            final(self)@ == old(self)@.update(index as int, *final(r)),
    {
        self.states.get_mut(index)
    }

    pub fn num_states(&self) -> (r: usize)
        ensures
            r == self.n(),
    {
        self.states.len()
    }

    /// All states, in id order.
    pub fn states(&self) -> (r: &[State<I, O>])
        ensures
            r@ == self@,
    {
        self.states.as_slice()
    }

    /// The move of `current_state` on `input`, if any.
    pub fn next(&self, current_state: StateId, input: I) -> (r: Option<(StateId, O)>)
        requires
            obeys_key_model::<I>(),
        ensures
            r == self.delta(current_state, input),
    {
        if current_state >= self.states.len() {
            return None;
        }
        self.states.get(current_state).next(input)
    }

    /// Runs the machine from state 0, recording for each input the state
    /// moved to and the output; stops at the first input without a move.
    pub fn run(&self, inputs: Vec<I>) -> (r: Vec<(I, StateId, O)>)
        requires
            obeys_key_model::<I>(),
        ensures
            r@ == self.steps(0, inputs@),
    {
        let mut out: Vec<(I, StateId, O)> = Vec::new();
        let mut current: StateId = 0;
        let mut i: usize = 0;
        proof {
            assert(inputs@.subrange(0, inputs@.len() as int) =~= inputs@);
            assert(out@ + self.steps(0, inputs@) =~= self.steps(0, inputs@));
        }
        while i < inputs.len()
            invariant
                obeys_key_model::<I>(),
                i <= inputs@.len(),
                out@ + self.steps(current, inputs@.subrange(i as int, inputs@.len() as int)) == self.steps(0, inputs@),
            decreases inputs@.len() - i,
        {
            let input = inputs[i];
            let ghost rest = inputs@.subrange(i as int, inputs@.len() as int);
            proof {
                assert(rest[0] == input);
                assert(rest.drop_first() =~= inputs@.subrange(i + 1, inputs@.len() as int));
            }
            match self.next(current, input) {
                Some((next_state, output)) => {
                    let ghost prev = out@;
                    out.push((input, next_state, output));
                    proof {
                        assert(prev + self.steps(current, rest) =~= out@ + self.steps(next_state, rest.drop_first()));
                    }
                    current = next_state;
                },
                None => {
                    proof {
                        assert(out@ + Seq::<(I, StateId, O)>::empty() =~= out@);
                    }
                    return out;
                },
            }
            i = i + 1;
        }
        proof {
            assert(out@ + Seq::<(I, StateId, O)>::empty() =~= out@);
        }
        out
    }
}

impl<I: Alphabet, O: Alphabet> Default for Mealy<I, O> {
    fn default() -> (r: Self)
        ensures
            r.n() == 0,
    {
        Mealy::new()
    }
}

} // verus!
