use vstd::prelude::*;

use crate::arena::Arena;
use crate::error::FsmError;

verus! {

pub type StateId = usize;

/// Whether an optional target is an id below `n`.
pub open spec fn target_within(t: Option<StateId>, n: nat) -> bool {
    match t {
        Some(q) => q < n,
        None => true,
    }
}

/// One state of a [`Dfa`]: its id, whether it accepts, and at most one
/// target per symbol.
pub struct State {
    pub id: StateId,
    pub accepting: bool,
    pub transitions: Vec<(char, StateId)>,
}

impl State {
    /// The target of the edge labelled `c`, if there is one.
    pub open spec fn target(&self, c: char) -> Option<StateId> {
        if exists|i: int| 0 <= i < self.transitions@.len() && #[trigger] self.transitions@[i].0 == c {
            Some(
                self.transitions@[choose|i: int| 0 <= i < self.transitions@.len() && #[trigger] self.transitions@[i].0 == c].1,
            )
        } else {
            None
        }
    }

    /// No symbol labels two edges.
    pub open spec fn wf(&self) -> bool {
        forall|i: int, j: int|
            0 <= i < self.transitions@.len() && 0 <= j < self.transitions@.len() && i != j
                ==> #[trigger] self.transitions@[i].0 != #[trigger] self.transitions@[j].0
    }

    pub proof fn lemma_target_at(&self, i: int)
        requires
            self.wf(),
            0 <= i < self.transitions@.len(),
        ensures
            self.target(self.transitions@[i].0) == Some(self.transitions@[i].1),
    {
        let c = self.transitions@[i].0;
        assert(self.transitions@[i].0 == c);
        let j = choose|j: int| 0 <= j < self.transitions@.len() && #[trigger] self.transitions@[j].0 == c;
        assert(j == i);
    }

    pub fn new(id: StateId, accepting: bool) -> (r: Self)
        ensures
            r.id == id,
            r.accepting == accepting,
            r.wf(),
            forall|c: char| #[trigger] r.target(c) == None::<StateId>,
    {
        State { id, accepting, transitions: Vec::new() }
    }

    /// Sets the target of `symbol` to `to`, replacing an earlier one.
    pub fn add_transition(&mut self, symbol: char, to: StateId)
        requires
            old(self).wf(),
        ensures
            final(self).wf(),
            final(self).id == old(self).id,
            final(self).accepting == old(self).accepting,
            final(self).target(symbol) == Some(to),
            forall|c: char| c != symbol ==> #[trigger] final(self).target(c) == old(self).target(c),
    {
        let ghost prev = self.transitions@;
        let mut i: usize = 0;
        while i < self.transitions.len()
            invariant
                *self == *old(self),
                old(self).wf(),
                self.transitions@ == prev,
                i <= prev.len(),
                forall|j: int| 0 <= j < i ==> prev[j].0 != symbol,
            decreases prev.len() - i,
        {
            if self.transitions[i].0 == symbol {
                self.transitions.set(i, (symbol, to));
                proof {
                    assert(self.wf());
                    self.lemma_target_at(i as int);
                    assert forall|c: char| c != symbol implies #[trigger] self.target(c) == old(self).target(c) by {
                        if exists|k: int| 0 <= k < prev.len() && #[trigger] prev[k].0 == c {
                            let k = choose|k: int| 0 <= k < prev.len() && #[trigger] prev[k].0 == c;
                            old(self).lemma_target_at(k);
                            self.lemma_target_at(k);
                        } else {
                            assert(!exists|k: int| 0 <= k < self.transitions@.len() && #[trigger] self.transitions@[k].0 == c);
                        }
                    }
                }
                return;
            }
            i = i + 1;
        }
        self.transitions.push((symbol, to));
        proof {
            assert(self.wf());
            self.lemma_target_at(prev.len() as int);
            assert forall|c: char| c != symbol implies #[trigger] self.target(c) == old(self).target(c) by {
                if exists|k: int| 0 <= k < prev.len() && #[trigger] prev[k].0 == c {
                    let k = choose|k: int| 0 <= k < prev.len() && #[trigger] prev[k].0 == c;
                    old(self).lemma_target_at(k);
                    self.lemma_target_at(k);
                } else {
                    assert(!exists|k: int| 0 <= k < self.transitions@.len() && #[trigger] self.transitions@[k].0 == c);
                }
            }
        }
    }

    /// The target of the edge labelled `symbol`, if any.
    pub fn next(&self, symbol: char) -> (r: Option<StateId>)
        requires
            self.wf(),
        ensures
            r == self.target(symbol),
    {
        let mut i: usize = 0;
        while i < self.transitions.len()
            invariant
                self.wf(),
                i <= self.transitions@.len(),
                forall|j: int| 0 <= j < i ==> self.transitions@[j].0 != symbol,
            decreases self.transitions@.len() - i,
        {
            if self.transitions[i].0 == symbol {
                proof {
                    self.lemma_target_at(i as int);
                }
                return Some(self.transitions[i].1);
            }
            i = i + 1;
        }
        None
    }
}

/// Deterministic automaton over `char` symbols with a partial transition
/// function. State 0, when present, is the initial state.
pub struct Dfa {
    states: Arena<State>,
}

impl View for Dfa {
    type V = Seq<State>;

    closed spec fn view(&self) -> Seq<State> {
        self.states@
    }
}

impl Dfa {
    /// Number of states.
    pub open spec fn n(&self) -> nat {
        self@.len()
    }

    /// Ids match positions, no symbol labels two edges of a state, and every
    /// edge ends at a state of this automaton.
    pub open spec fn wf(&self) -> bool {
        forall|i: int|
            0 <= i < self.n() ==> {
                &&& (#[trigger] self@[i]).id == i
                &&& self@[i].wf()
                &&& forall|c: char| target_within(#[trigger] self@[i].target(c), self.n())
            }
    }

    /// The state reached after reading `w`, if no edge was missing.
    pub open spec fn run(&self, w: Seq<char>) -> Option<StateId>
        decreases w.len(),
    {
        if w.len() == 0 {
            if self.n() > 0 {
                Some(0)
            } else {
                None
            }
        } else {
            match self.run(w.drop_last()) {
                Some(q) => if q < self.n() {
                    self@[q as int].target(w.last())
                } else {
                    None
                },
                None => None,
            }
        }
    }

    /// Whether reading `w` ends in an accepting state.
    pub open spec fn accepts_word(&self, w: Seq<char>) -> bool {
        match self.run(w) {
            Some(q) => q < self.n() && self@[q as int].accepting,
            None => false,
        }
    }

    pub fn new() -> (r: Self)
        ensures
            r.wf(),
            r.n() == 0,
    {
        Dfa { states: Arena::new() }
    }

    /// Adds a state without edges and returns its id.
    pub fn add_state(&mut self, accepting: bool) -> (id: StateId)
        requires
            old(self).wf(),
            old(self).n() < usize::MAX,
        ensures
            final(self).wf(),
            id == old(self).n(),
            final(self).n() == old(self).n() + 1,
            forall|i: int| 0 <= i < id ==> #[trigger] final(self)@[i] == old(self)@[i],
            final(self)@[id as int].accepting == accepting,
            forall|c: char| #[trigger] final(self)@[id as int].target(c) == None::<StateId>,
    {
        let ghost prev = self@;
        let id = self.states.allocate(State::new(self.states.len(), accepting));
        proof {
            assert forall|i: int| 0 <= i < self.n() implies {
                &&& (#[trigger] self@[i]).id == i
                &&& self@[i].wf()
                &&& forall|c: char| target_within(#[trigger] self@[i].target(c), self.n())
            } by {
                if i < id {
                    assert(self@[i] == prev[i]);
                } else {
                    assert(self@[i] == self@[id as int]);
                }
            }
        }
        id
    }

    /// Sets the target of `from` on `symbol` to `to`, replacing an earlier one.
    pub fn add_transition(&mut self, from: StateId, symbol: char, to: StateId) -> (r: Result<(), FsmError>)
        requires
            old(self).wf(),
        ensures
            final(self).wf(),
            final(self).n() == old(self).n(),
            r is Err <==> (from >= old(self).n() || to >= old(self).n()),
            r is Err ==> r == Err::<(), FsmError>(FsmError::InvalidStateId) && final(self)@ == old(self)@,
            r is Ok ==> {
                &&& forall|i: int| 0 <= i < old(self).n() && i != from ==> #[trigger] final(self)@[i] == old(self)@[i]
                &&& final(self)@[from as int].accepting == old(self)@[from as int].accepting
                &&& final(self)@[from as int].target(symbol) == Some(to)
                &&& forall|c: char| c != symbol ==> #[trigger] final(self)@[from as int].target(c) == old(self)@[from as int].target(c)
            },
    {
        let n = self.states.len();
        if from >= n || to >= n {
            return Err(FsmError::InvalidStateId);
        }
        let ghost prev = self@;
        let st = self.states.get_mut(from);
        st.add_transition(symbol, to);
        proof {
            assert forall|i: int| 0 <= i < self.n() implies {
                &&& (#[trigger] self@[i]).id == i
                &&& self@[i].wf()
                &&& forall|c: char| target_within(#[trigger] self@[i].target(c), self.n())
            } by {
                if i != from {
                    assert(self@[i] == prev[i]);
                } else {
                    assert forall|c: char| target_within(#[trigger] self@[i].target(c), self.n()) by {
                        if c != symbol {
                            assert(self@[i].target(c) == prev[i].target(c));
                        }
                    }
                }
            }
        }
        Ok(())
    }

    /// The state with id `index`.
    pub fn state(&self, index: StateId) -> (r: &State)
        requires
            index < self.n(),
        ensures
            *r == self@[index as int],
    {
        self.states.get(index)
    }

    pub fn num_states(&self) -> (r: usize)
        ensures
            r == self.n(),
    {
        self.states.len()
    }

    /// The state with id `index`, for editing in place.
    pub fn state_mut(&mut self, index: StateId) -> (r: &mut State)
        requires
            index < old(self).n(),
        ensures
            *r == old(self)@[index as int],
            final(self)@ == old(self)@.update(index as int, *final(r)),
    {
        self.states.get_mut(index)
    }

    /// All states, in id order.
    pub fn states(&self) -> (r: &[State])
        ensures
            r@ == self@,
    {
        self.states.as_slice()
    }

    /// The edges of the automaton as (from, symbol, to) triples.
    pub open spec fn edge_triples(&self) -> Set<(StateId, char, StateId)> {
        Set::new(|t: (StateId, char, StateId)| t.0 < self.n() && self@[t.0 as int].target(t.1) == Some(t.2))
    }

    /// Every edge as a (from, symbol, to) triple, each once, grouped by
    /// source state in id order.
    pub fn transitions(&self) -> (r: Vec<(StateId, char, StateId)>)
        requires
            self.wf(),
        ensures
            r@.to_set() == self.edge_triples(),
            r@.no_duplicates(),
    {
        let n = self.states.len();
        let mut out: Vec<(StateId, char, StateId)> = Vec::new();
        let mut p: usize = 0;
        while p < n
            invariant
                self.wf(),
                n == self.n(),
                p <= n,
                out@.no_duplicates(),
                forall|i: int| 0 <= i < out@.len() ==> (#[trigger] out@[i]).0 < p && self.edge_triples().contains(out@[i]),
                forall|t: (StateId, char, StateId)| self.edge_triples().contains(t) && t.0 < p ==> out@.contains(t),
            decreases n - p,
        {
            let st = self.states.get(p);
            let ghost l0 = out@.len();
            let mut j: usize = 0;
            proof {
                assert(st.wf());
            }
            while j < st.transitions.len()
                invariant
                    self.wf(),
                    n == self.n(),
                    p < n,
                    *st == self@[p as int],
                    st.wf(),
                    j <= st.transitions@.len(),
                    out@.len() == l0 + j,
                    out@.no_duplicates(),
                    forall|i: int| 0 <= i < l0 ==> (#[trigger] out@[i]).0 < p && self.edge_triples().contains(out@[i]),
                    forall|i: int| l0 <= i < out@.len() ==> #[trigger] out@[i] == (p, st.transitions@[i - l0].0, st.transitions@[i - l0].1),
                    forall|t: (StateId, char, StateId)| self.edge_triples().contains(t) && t.0 < p ==> out@.contains(t),
                decreases st.transitions@.len() - j,
            {
                let (c, q) = st.transitions[j];
                let ghost before = out@;
                proof {
                    assert forall|i: int| 0 <= i < before.len() implies before[i] != (p, c, q) by {
                        if i >= l0 {
                            assert(st.transitions@[i - l0].0 != st.transitions@[j as int].0);
                        }
                    }
                }
                out.push((p, c, q));
                proof {
                    assert forall|t: (StateId, char, StateId)| self.edge_triples().contains(t) && t.0 < p implies out@.contains(t) by {
                        let i = choose|i: int| 0 <= i < before.len() && before[i] == t;
                        assert(out@[i] == t);
                    }
                    assert(out@.no_duplicates()) by {
                        assert forall|a: int, b: int| 0 <= a < out@.len() && 0 <= b < out@.len() && a != b implies out@[a] != out@[b] by {
                            if a < before.len() && b < before.len() {
                                assert(before[a] != before[b]);
                            } else if a < before.len() {
                                assert(before[a] != (p, c, q));
                            } else if b < before.len() {
                                assert(before[b] != (p, c, q));
                            }
                        }
                    }
                }
                j = j + 1;
            }
            proof {
                assert forall|i: int| 0 <= i < out@.len() implies (#[trigger] out@[i]).0 < p + 1 && self.edge_triples().contains(out@[i]) by {
                    if i >= l0 {
                        st.lemma_target_at(i - l0);
                    }
                }
                assert forall|t: (StateId, char, StateId)| self.edge_triples().contains(t) && t.0 < p + 1 implies out@.contains(t) by {
                    if t.0 == p {
                        let k = choose|k: int| 0 <= k < st.transitions@.len() && #[trigger] st.transitions@[k].0 == t.1;
                        st.lemma_target_at(k);
                        assert(out@[l0 + k] == t);
                    }
                }
            }
            p = p + 1;
        }
        proof {
            assert(out@.to_set() =~= self.edge_triples());
        }
        out
    }

    /// Number of edges.
    pub fn num_transitions(&self) -> (r: usize)
        requires
            self.wf(),
        ensures
            r == self.edge_triples().len(),
    {
        let t = self.transitions();
        proof {
            t@.unique_seq_to_set();
        }
        t.len()
    }

    /// The target of `state` on `symbol`.
    pub fn next(&self, state: StateId, symbol: char) -> (r: Result<Option<StateId>, FsmError>)
        requires
            self.wf(),
        ensures
            r is Err <==> state >= self.n(),
            r is Err ==> r == Err::<Option<StateId>, FsmError>(FsmError::InvalidStateId),
            r matches Ok(t) ==> t == self@[state as int].target(symbol),
    {
        if state >= self.states.len() {
            return Err(FsmError::InvalidStateId);
        }
        Ok(self.states.get(state).next(symbol))
    }

    /// Whether the automaton accepts `word`. Reading stops at the first
    /// missing edge; an automaton without states accepts nothing.
    pub fn accepts(&self, word: Vec<char>) -> (r: bool)
        requires
            self.wf(),
        ensures
            r == self.accepts_word(word@),
    {
        if self.states.is_empty() {
            return false;
        }
        let mut current: StateId = 0;
        let mut i: usize = 0;
        proof {
            assert(word@.subrange(0, 0) =~= Seq::<char>::empty());
        }
        while i < word.len()
            invariant
                self.wf(),
                self.n() > 0,
                i <= word@.len(),
                current < self.n(),
                self.run(word@.subrange(0, i as int)) == Some(current),
            decreases word@.len() - i,
        {
            let ghost w = word@.subrange(0, i + 1);
            proof {
                assert(w.drop_last() =~= word@.subrange(0, i as int));
            }
            match self.states.get(current).next(word[i]) {
                Some(q) => {
                    current = q;
                },
                None => {
                    proof {
                        self.lemma_dead(word@, i as nat + 1);
                        assert(word@.subrange(0, word@.len() as int) =~= word@);
                    }
                    return false;
                },
            }
            i = i + 1;
        }
        proof {
            assert(word@.subrange(0, word@.len() as int) =~= word@);
        }
        self.states.get(current).accepting
    }

    /// An automaton without states accepts no word, the empty word included.
    pub proof fn lemma_empty_rejects(&self, w: Seq<char>)
        requires
            self.n() == 0,
        ensures
            !self.accepts_word(w),
    {
    }

    /// Once an edge is missing, every longer prefix is rejected too.
    pub proof fn lemma_dead(&self, w: Seq<char>, k: nat)
        requires
            k <= w.len(),
            self.run(w.subrange(0, k as int)) == None::<StateId>,
        ensures
            self.run(w) == None::<StateId>,
        decreases w.len() - k,
    {
        if k < w.len() {
            let u = w.subrange(0, k as int + 1);
            assert(u.drop_last() =~= w.subrange(0, k as int));
            self.lemma_dead(w, k + 1);
        } else {
            assert(w.subrange(0, k as int) =~= w);
        }
    }
}

impl Default for Dfa {
    fn default() -> (r: Self)
        ensures
            r.wf(),
            r.n() == 0,
    {
        Dfa::new()
    }
}

} // verus!
