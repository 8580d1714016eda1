use std::collections::HashMap;

use vstd::prelude::*;
use vstd::std_specs::hash::obeys_key_model;

use crate::arena::Arena;
use crate::error::FsmError;
use crate::transducer::Alphabet;

verus! {

broadcast use vstd::std_specs::hash::group_hash_axioms;

pub type StateId = usize;

/// A state of a [`Moore`] machine: its output and, for each input, the
/// next state.
pub struct State<I, O> {
    pub id: StateId,
    pub output: O,
    pub transitions: HashMap<I, StateId>,
}

impl<I: Alphabet, O: Alphabet> State<I, O> {
    pub fn new(id: StateId, output: O) -> (r: Self)
        ensures
            r.id == id,
            r.output == output,
            r.transitions@ == Map::<I, StateId>::empty(),
    {
        State { id, output, transitions: HashMap::new() }
    }

    /// Sets the move on `input`, replacing an earlier one.
    pub fn add_transition(&mut self, input: I, to: StateId)
        requires
            obeys_key_model::<I>(),
        ensures
            final(self).id == old(self).id,
            final(self).output == old(self).output,
            final(self).transitions@ == old(self).transitions@.insert(input, to),
    {
        self.transitions.insert(input, to);
    }

    /// Number of inputs with a move.
    pub fn num_transitions(&self) -> (r: usize)
        requires
            obeys_key_model::<I>(),
        ensures
            r == self.transitions@.len(),
    {
        self.transitions.len()
    }

    /// The next state on `input`, if any.
    pub fn next(&self, input: I) -> (r: Option<StateId>)
        requires
            obeys_key_model::<I>(),
        ensures
            r == if self.transitions@.contains_key(input) {
                Some(self.transitions@[input])
            } else {
                None
            },
    {
        match self.transitions.get(&input) {
            Some(t) => Some(*t),
            None => None,
        }
    }
}

/// Moore machine: states with a transition function on (state, input) and
/// an output on each state; state 0 is the initial state.
pub struct Moore<I, O> {
    states: Arena<State<I, O>>,
}

impl<I: Alphabet, O: Alphabet> View for Moore<I, O> {
    type V = Seq<State<I, O>>;

    closed spec fn view(&self) -> Seq<State<I, O>> {
        self.states@
    }
}

impl<I: Alphabet, O: Alphabet> Moore<I, O> {
    pub open spec fn n(&self) -> nat {
        self@.len()
    }

    /// The state that `q` moves to on `input`, with that state's output.
    pub open spec fn delta(&self, q: StateId, input: I) -> Option<(StateId, O)> {
        if q < self.n() && self@[q as int].transitions@.contains_key(input)
            && self@[q as int].transitions@[input] < self.n() {
            let t = self@[q as int].transitions@[input];
            Some((t, self@[t as int].output))
        } else {
            None
        }
    }

    /// The (input, new state, output) steps from `q` on `inputs`, up to the
    /// first input without a move.
    pub open spec fn steps(&self, q: StateId, inputs: Seq<I>) -> Seq<(I, StateId, O)>
        decreases inputs.len(),
    {
        if inputs.len() == 0 {
            Seq::empty()
        } else {
            match self.delta(q, inputs[0]) {
                Some(t) => seq![(inputs[0], t.0, t.1)] + self.steps(t.0, inputs.drop_first()),
                None => Seq::empty(),
            }
        }
    }

    pub fn new() -> (r: Self)
        ensures
            r.n() == 0,
    {
        Moore { states: Arena::new() }
    }

    /// Adds a state with output `output` and without moves; returns its id.
    pub fn add_state(&mut self, output: O) -> (id: StateId)
        requires
            old(self).n() < usize::MAX,
        ensures
            id == old(self).n(),
            final(self)@ == old(self)@.push(final(self)@[id as int]),
            final(self)@[id as int].id == id,
            final(self)@[id as int].output == output,
            final(self)@[id as int].transitions@ == Map::<I, StateId>::empty(),
    {
        let id = self.states.allocate(State::new(self.states.len(), output));
        proof {
            assert(self@ =~= old(self)@.push(self@[id as int]));
        }
        id
    }

    /// Sets the move of `from` on `input` to `to`.
    pub fn add_transition(&mut self, from: StateId, input: I, to: StateId) -> (r: Result<(), FsmError>)
        requires
            obeys_key_model::<I>(),
        ensures
            r is Err <==> (from >= old(self).n() || to >= old(self).n()),
            r is Err ==> r == Err::<(), FsmError>(FsmError::InvalidStateId) && final(self)@ == old(self)@,
            r is Ok ==> {
                &&& final(self).n() == old(self).n()
                &&& forall|i: int| 0 <= i < old(self).n() && i != from ==> #[trigger] final(self)@[i] == old(self)@[i]
                &&& final(self)@[from as int].id == old(self)@[from as int].id
                &&& final(self)@[from as int].output == old(self)@[from as int].output
                &&& final(self)@[from as int].transitions@ == old(self)@[from as int].transitions@.insert(input, to)
            },
    {
        let n = self.states.len();
        if from >= n || to >= n {
            return Err(FsmError::InvalidStateId);
        }
        self.states.get_mut(from).add_transition(input, to);
        Ok(())
    }

    /// The state with id `index`.
    pub fn state(&self, index: StateId) -> (r: &State<I, O>)
        requires
            index < self.n(),
        ensures
            *r == self@[index as int],
    {
        self.states.get(index)
    }

    /// The state with id `index`, for editing in place.
    pub fn state_mut(&mut self, index: StateId) -> (r: &mut State<I, O>)
        requires
            index < old(self).n(),
        ensures
            *r == old(self)@[index as int],
            final(self)@ == old(self)@.update(index as int, *final(r)),
    {
        self.states.get_mut(index)
    }

    pub fn num_states(&self) -> (r: usize)
        ensures
            r == self.n(),
    {
        self.states.len()
    }

    /// All states, in id order.
    pub fn states(&self) -> (r: &[State<I, O>])
        ensures
            r@ == self@,
    {
        self.states.as_slice()
    }

    /// The state `current_state` moves to on `input`, with its output.
    pub fn next(&self, current_state: StateId, input: I) -> (r: Option<(StateId, O)>)
        requires
            obeys_key_model::<I>(),
        ensures
            r == self.delta(current_state, input),
    {
        if current_state >= self.states.len() {
            return None;
        }
        match self.states.get(current_state).next(input) {
            Some(t) => if t < self.states.len() {
                Some((t, self.states.get(t).output))
            } else {
                None
            },
            None => None,
        }
    }

    /// Runs the machine from state 0, recording for each input the state
    /// moved to and its output; stops at the first input without a move.
    pub fn run(&self, inputs: Vec<I>) -> (r: Vec<(I, StateId, O)>)
        requires
            obeys_key_model::<I>(),
        ensures
            r@ == self.steps(0, inputs@),
    {
        let mut out: Vec<(I, StateId, O)> = Vec::new();
        let mut current: StateId = 0;
        let mut i: usize = 0;
        proof {
            assert(inputs@.subrange(0, inputs@.len() as int) =~= inputs@);
            assert(out@ + self.steps(0, inputs@) =~= self.steps(0, inputs@));
        }
        while i < inputs.len()
            invariant
                obeys_key_model::<I>(),
                i <= inputs@.len(),
                out@ + self.steps(current, inputs@.subrange(i as int, inputs@.len() as int)) == self.steps(0, inputs@),
            decreases inputs@.len() - i,
        {
            let input = inputs[i];
            let ghost rest = inputs@.subrange(i as int, inputs@.len() as int);
            proof {
                assert(rest[0] == input);
                assert(rest.drop_first() =~= inputs@.subrange(i + 1, inputs@.len() as int));
            }
            match self.next(current, input) {
                Some((next_state, output)) => {
                    let ghost prev = out@;
                    out.push((input, next_state, output));
                    proof {
                        assert(prev + self.steps(current, rest) =~= out@ + self.steps(next_state, rest.drop_first()));
                    }
                    current = next_state;
                },
                None => {
                    proof {
                        assert(out@ + Seq::<(I, StateId, O)>::empty() =~= out@);
                    }
                    return out;
                },
            }
            i = i + 1;
        }
        proof {
            assert(out@ + Seq::<(I, StateId, O)>::empty() =~= out@);
        }
        out
    }
}

impl<I: Alphabet, O: Alphabet> Default for Moore<I, O> {
    fn default() -> (r: Self)
        ensures
            r.n() == 0,
    {
        Moore::new()
    }
}

} // verus!
