use vstd::prelude::*;

use multimap::MultiMap;

use crate::arena::Arena;
use crate::bits::{
    any_set, bits_set, cleared, count_true, lemma_count_true_le, lemma_count_true_set,
    lemma_distinct_bitmaps_bound, same_bits, set_ids, two_pow,
};
use crate::dfa::Dfa;
use crate::error::FsmError;

verus! {

pub type StateId = usize;

/// The multimap that holds the labelled edges of a state, keyed by symbol.
#[verifier::external_type_specification]
#[verifier::external_body]
#[verifier::reject_recursive_types(K)]
#[verifier::reject_recursive_types(V)]
#[verifier::reject_recursive_types(S)]
pub struct ExMultiMap<K, V, S>(MultiMap<K, V, S>);

/// What a multimap of labelled edges holds: for each key, its list of values
/// in insertion order.
pub uninterp spec fn edge_lists(m: MultiMap<char, usize>) -> Map<char, Seq<usize>>;

/// The list stored under `c`, empty when the key is absent.
pub open spec fn list_of(m: Map<char, Seq<usize>>, c: char) -> Seq<usize> {
    if m.contains_key(c) {
        m[c]
    } else {
        Seq::empty()
    }
}

/// Relies on `MultiMap::new`: a new multimap holds no key.
#[verifier::external_body]
fn edges_new() -> (r: MultiMap<char, usize>)
    ensures
        edge_lists(r).dom() == Set::<char>::empty(),
{
    MultiMap::new()
}

/// Relies on `MultiMap::insert`: the value is appended to the key's list,
/// which starts out empty when the key is absent.
#[verifier::external_body]
fn edges_insert(m: &mut MultiMap<char, usize>, k: char, v: usize)
    ensures
        edge_lists(*final(m)) == edge_lists(*old(m)).insert(k, list_of(edge_lists(*old(m)), k).push(v)),
{
    m.insert(k, v)
}

/// Relies on `MultiMap::get_vec`: the list stored under the key, if any.
#[verifier::external_body]
fn edges_get(m: &MultiMap<char, usize>, k: char) -> (r: Option<&Vec<usize>>)
    ensures
        match r {
            Some(v) => edge_lists(*m).contains_key(k) && v@ == edge_lists(*m)[k],
            None => !edge_lists(*m).contains_key(k),
        },
{
    m.get_vec(&k)
}

/// Relies on `MultiMap::flat_iter`: each (key, value) pair of the lists,
/// once per occurrence, in an order that the hasher decides.
#[verifier::external_body]
fn edges_flat(m: &MultiMap<char, usize>) -> (r: Vec<(char, usize)>)
    ensures
        forall|i: int|
            0 <= i < r@.len() ==> #[trigger] list_of(edge_lists(*m), r@[i].0).contains(r@[i].1),
        forall|c: char, q: usize|
            #[trigger] list_of(edge_lists(*m), c).contains(q) ==> r@.contains((c, q)),
        (forall|c: char| #[trigger] list_of(edge_lists(*m), c).no_duplicates())
            ==> r@.no_duplicates(),
{
    m.flat_iter().map(|(&k, &v)| (k, v)).collect()
}

/// One state of an [`Nfa`]: its id, whether it accepts, its labelled edges
/// and its epsilon edges.
pub struct State {
    pub id: StateId,
    pub accepting: bool,
    pub transitions: MultiMap<char, StateId>,
    pub epsilon_transitions: Vec<StateId>,
}

impl State {
    /// Targets of the edges labelled `c`.
    pub open spec fn targets(&self, c: char) -> Seq<StateId> {
        list_of(edge_lists(self.transitions), c)
    }

    /// Targets of the epsilon edges.
    pub open spec fn eps(&self) -> Seq<StateId> {
        self.epsilon_transitions@
    }

    /// The labelled edges as (symbol, target) pairs.
    pub open spec fn edge_set(&self) -> Set<(char, StateId)> {
        Set::new(|e: (char, StateId)| self.targets(e.0).contains(e.1))
    }

    /// Edge lists hold each target once.
    pub open spec fn wf(&self) -> bool {
        &&& self.eps().no_duplicates()
        &&& forall|c: char| #[trigger] self.targets(c).no_duplicates()
    }

    pub fn new(id: StateId, accepting: bool) -> (r: Self)
        ensures
            r.id == id,
            r.accepting == accepting,
            r.wf(),
            forall|c: char| #[trigger] r.targets(c) == Seq::<StateId>::empty(),
            r.eps() == Seq::<StateId>::empty(),
    {
        State { id, accepting, transitions: edges_new(), epsilon_transitions: Vec::new() }
    }

    /// Adds the edge `symbol -> to`; an edge already present is kept once.
    pub fn add_transition(&mut self, symbol: char, to: StateId)
        requires
            old(self).wf(),
        ensures
            final(self).wf(),
            final(self).id == old(self).id,
            final(self).accepting == old(self).accepting,
            final(self).eps() == old(self).eps(),
            final(self).targets(symbol) == if old(self).targets(symbol).contains(to) {
                old(self).targets(symbol)
            } else {
                old(self).targets(symbol).push(to)
            },
            forall|c: char| c != symbol ==> #[trigger] final(self).targets(c) == old(self).targets(c),
    {
        let present = match edges_get(&self.transitions, symbol) {
            Some(v) => contains_id(v, to),
            None => false,
        };
        if !present {
            edges_insert(&mut self.transitions, symbol, to);
            proof {
                assert forall|c: char| #[trigger] self.targets(c).no_duplicates() by {
                    if c == symbol {
                        assert(self.targets(c) == old(self).targets(c).push(to));
                        assert(old(self).targets(c).no_duplicates());
                    } else {
                        assert(self.targets(c) == old(self).targets(c));
                        assert(old(self).targets(c).no_duplicates());
                    }
                }
            }
        }
    }

    /// Adds the epsilon edge to `to`; an edge already present is kept once.
    pub fn add_epsilon_transition(&mut self, to: StateId)
        requires
            old(self).wf(),
        ensures
            final(self).wf(),
            final(self).id == old(self).id,
            final(self).accepting == old(self).accepting,
            forall|c: char| #[trigger] final(self).targets(c) == old(self).targets(c),
            final(self).eps() == if old(self).eps().contains(to) {
                old(self).eps()
            } else {
                old(self).eps().push(to)
            },
    {
        if !contains_id(&self.epsilon_transitions, to) {
            self.epsilon_transitions.push(to);
            proof {
                assert forall|c: char| #[trigger] self.targets(c).no_duplicates() by {
                    assert(old(self).targets(c).no_duplicates());
                }
            }
        }
    }

    /// Number of labelled edges.
    pub fn num_transitions(&self) -> (r: usize)
        requires
            self.wf(),
        ensures
            r == self.edge_set().len(),
    {
        let v = self.transitions();
        v.len()
    }

    /// The labelled edges as (symbol, target) pairs, each once.
    pub fn transitions(&self) -> (r: Vec<(char, StateId)>)
        requires
            self.wf(),
        ensures
            r@.to_set() == self.edge_set(),
            r@.no_duplicates(),
            r@.len() == self.edge_set().len(),
    {
        let r = edges_flat(&self.transitions);
        proof {
            assert forall|c: char| #[trigger] list_of(edge_lists(self.transitions), c).no_duplicates() by {
                assert(self.targets(c).no_duplicates());
            }
            assert forall|e: (char, StateId)| r@.to_set().contains(e) <==> self.edge_set().contains(e) by {
                if r@.to_set().contains(e) {
                    let i = choose|i: int| 0 <= i < r@.len() && r@[i] == e;
                    assert(list_of(edge_lists(self.transitions), r@[i].0).contains(r@[i].1));
                }
                if self.edge_set().contains(e) {
                    assert(list_of(edge_lists(self.transitions), e.0).contains(e.1));
                }
            }
            assert(r@.to_set() =~= self.edge_set());
            r@.unique_seq_to_set();
        }
        r
    }

    /// Targets of the edges labelled `symbol`, or `None` when there are none.
    pub fn next(&self, symbol: char) -> (r: Option<&Vec<StateId>>)
        ensures
            match r {
                Some(v) => v@ == self.targets(symbol),
                None => self.targets(symbol) == Seq::<StateId>::empty(),
            },
    {
        edges_get(&self.transitions, symbol)
    }

    /// Targets of the epsilon edges.
    pub fn next_epsilon(&self) -> (r: &Vec<StateId>)
        ensures
            r@ == self.eps(),
    {
        &self.epsilon_transitions
    }
}

/// A copy of `v`.
fn copy_ids(v: &Vec<StateId>) -> (r: Vec<StateId>)
    ensures
        r@ == v@,
{
    let mut r: Vec<StateId> = Vec::new();
    let mut i: usize = 0;
    while i < v.len()
        invariant
            i <= v@.len(),
            r@ == v@.subrange(0, i as int),
        decreases v@.len() - i,
    {
        r.push(v[i]);
        proof {
            assert(r@ =~= v@.subrange(0, i as int + 1));
        }
        i = i + 1;
    }
    proof {
        assert(v@.subrange(0, v@.len() as int) =~= v@);
    }
    r
}

/// Whether `x` occurs in `v`.
fn contains_id(v: &Vec<StateId>, x: StateId) -> (r: bool)
    ensures
        r == v@.contains(x),
{
    let mut i: usize = 0;
    while i < v.len()
        invariant
            i <= v@.len(),
            forall|j: int| 0 <= j < i ==> v@[j] != x,
        decreases v@.len() - i,
    {
        if v[i] == x {
            return true;
        }
        i = i + 1;
    }
    false
}


/// A state as plain values: whether it accepts, its labelled edges as
/// (symbol, target) pairs, and its epsilon targets.
pub type StateModel = (bool, Set<(char, StateId)>, Set<StateId>);

/// `m` with a new state that has no edges.
pub open spec fn m_push(m: Seq<StateModel>, accepting: bool) -> Seq<StateModel> {
    m.push((accepting, Set::empty(), Set::empty()))
}

/// `m` with the edge `p -c-> q` added.
pub open spec fn m_edge(m: Seq<StateModel>, p: StateId, c: char, q: StateId) -> Seq<StateModel> {
    m.update(p as int, (m[p as int].0, m[p as int].1.insert((c, q)), m[p as int].2))
}

/// `m` with the epsilon edge `p -> q` added.
pub open spec fn m_eps(m: Seq<StateModel>, p: StateId, q: StateId) -> Seq<StateModel> {
    m.update(p as int, (m[p as int].0, m[p as int].1, m[p as int].2.insert(q)))
}

/// `m` with the accepting flag of `p` set to `accepting`.
pub open spec fn m_mark(m: Seq<StateModel>, p: StateId, accepting: bool) -> Seq<StateModel> {
    m.update(p as int, (accepting, m[p as int].1, m[p as int].2))
}

/// The symbol that, on an edge, matches any input symbol for which a state
/// has no edge of its own.
pub const WILDCARD: char = '.';

/// Whether `m` has the epsilon edge `p -> q`.
pub open spec fn m_eps_edge(m: Seq<StateModel>, p: StateId, q: StateId) -> bool {
    p < m.len() && m[p as int].2.contains(q)
}

/// Whether `q` is reached from `p` in `m` by at most `k` epsilon edges.
pub open spec fn m_path(m: Seq<StateModel>, p: StateId, q: StateId, k: nat) -> bool
    decreases k,
{
    p == q || (k > 0 && exists|r: StateId| #[trigger] m_eps_edge(m, p, r) && m_path(m, r, q, (k - 1) as nat))
}

/// The states of `s` with all that their epsilon edges reach in `m`.
pub open spec fn m_closure(m: Seq<StateModel>, s: Set<StateId>) -> Set<StateId> {
    Set::new(|q: StateId| exists|p: StateId, k: nat| s.contains(p) && #[trigger] m_path(m, p, q, k))
}

/// Targets of `p` on `c`: those of its own `c` edges, or, when it has none,
/// those of its wildcard edges.
pub open spec fn m_wild_targets(m: Seq<StateModel>, p: StateId, c: char) -> Set<StateId> {
    let exact = Set::new(|q: StateId| m[p as int].1.contains((c, q)));
    if exact.is_empty() {
        Set::new(|q: StateId| m[p as int].1.contains((WILDCARD, q)))
    } else {
        exact
    }
}

/// Targets on `c` out of the states of `s`, wildcard edges included.
pub open spec fn m_wild_step(m: Seq<StateModel>, s: Set<StateId>, c: char) -> Set<StateId> {
    Set::new(|q: StateId| exists|p: StateId| s.contains(p) && p < m.len() && #[trigger] m_wild_targets(m, p, c).contains(q))
}

/// The active set after reading `w` from `start`, wildcard edges included.
pub open spec fn m_wild_run(m: Seq<StateModel>, start: StateId, w: Seq<char>) -> Set<StateId>
    decreases w.len(),
{
    if w.len() == 0 {
        m_closure(m, set![start])
    } else {
        m_closure(m, m_wild_step(m, m_wild_run(m, start, w.drop_last()), w.last()))
    }
}

/// Whether some accepting state is active after reading `w` from `start`.
pub open spec fn m_wild_accepts(m: Seq<StateModel>, start: StateId, w: Seq<char>) -> bool {
    exists|q: StateId| #[trigger] m_wild_run(m, start, w).contains(q) && q < m.len() && m[q as int].0
}

/// Nondeterministic automaton with epsilon moves over `char` symbols.
/// State 0, when present, is the initial state.
pub struct Nfa {
    states: Arena<State>,
}

impl View for Nfa {
    type V = Seq<State>;

    closed spec fn view(&self) -> Seq<State> {
        self.states@
    }
}

impl Nfa {
    /// Number of states.
    pub open spec fn n(&self) -> nat {
        self@.len()
    }

    /// The states as plain values.
    pub open spec fn model(&self) -> Seq<StateModel> {
        Seq::new(self.n(), |i: int| (self@[i].accepting, self@[i].edge_set(), self@[i].eps().to_set()))
    }

    /// Ids match positions, edge lists hold no repeats, and every edge
    /// ends at a state of this automaton.
    pub open spec fn wf(&self) -> bool {
        forall|i: int|
            0 <= i < self.n() ==> {
                &&& (#[trigger] self@[i]).id == i
                &&& self@[i].wf()
                &&& forall|c: char, q: StateId| #[trigger] self@[i].targets(c).contains(q) ==> q < self.n()
                &&& forall|q: StateId| #[trigger] self@[i].eps().contains(q) ==> q < self.n()
            }
    }

    /// Whether `p` has an epsilon edge to `q`.
    pub open spec fn eps_edge(&self, p: StateId, q: StateId) -> bool {
        p < self.n() && self@[p as int].eps().contains(q)
    }

    /// Whether `q` is reached from `p` by at most `k` epsilon edges.
    pub open spec fn eps_path(&self, p: StateId, q: StateId, k: nat) -> bool
        decreases k,
    {
        p == q || (k > 0 && exists|r: StateId| #[trigger]
            self.eps_edge(p, r) && self.eps_path(r, q, (k - 1) as nat))
    }

    /// Whether `q` is reached from `p` by zero or more epsilon edges.
    pub open spec fn eps_reaches(&self, p: StateId, q: StateId) -> bool {
        exists|k: nat| #[trigger] self.eps_path(p, q, k)
    }

    /// The states of `s` with all that their epsilon edges reach.
    pub open spec fn closure(&self, s: Set<StateId>) -> Set<StateId> {
        Set::new(|q: StateId| exists|p: StateId| s.contains(p) && #[trigger] self.eps_reaches(p, q))
    }

    /// Targets of the edges labelled `c` out of the states of `s`.
    pub open spec fn step(&self, s: Set<StateId>, c: char) -> Set<StateId> {
        Set::new(
            |q: StateId|
                exists|p: StateId|
                    s.contains(p) && p < self.n() && #[trigger] self@[p as int].targets(c).contains(q),
        )
    }

    /// The active set after reading `w`.
    pub open spec fn run(&self, w: Seq<char>) -> Set<StateId>
        decreases w.len(),
    {
        if w.len() == 0 {
            if self.n() > 0 {
                self.closure(set![0usize])
            } else {
                Set::empty()
            }
        } else {
            self.closure(self.step(self.run(w.drop_last()), w.last()))
        }
    }

    /// Whether some accepting state is active after reading `w`.
    pub open spec fn accepts_word(&self, w: Seq<char>) -> bool {
        exists|q: StateId| #[trigger] self.run(w).contains(q) && q < self.n() && self@[q as int].accepting
    }

    pub fn new() -> (r: Self)
        ensures
            r.wf(),
            r.n() == 0,
    {
        Nfa { states: Arena::new() }
    }

    /// Adds a state without edges and returns its id.
    pub fn add_state(&mut self, accepting: bool) -> (id: StateId)
        requires
            old(self).wf(),
            old(self).n() < usize::MAX,
        ensures
            final(self).wf(),
            id == old(self).n(),
            final(self).n() == old(self).n() + 1,
            forall|i: int| 0 <= i < id ==> #[trigger] final(self)@[i] == old(self)@[i],
            final(self)@[id as int].accepting == accepting,
            forall|c: char| #[trigger] final(self)@[id as int].targets(c) == Seq::<StateId>::empty(),
            final(self)@[id as int].eps() == Seq::<StateId>::empty(),
            final(self).model() == m_push(old(self).model(), accepting),
    {
        let ghost prev = self@;
        let ghost prev_model = self.model();
        let id = self.states.allocate(State::new(self.states.len(), accepting));
        proof {
            assert(self@[id as int].edge_set() =~= Set::<(char, StateId)>::empty());
            assert(self@[id as int].eps().to_set() =~= Set::<StateId>::empty());
            assert(self.model() =~= m_push(prev_model, accepting));
            assert forall|i: int| 0 <= i < self.n() implies {
                &&& (#[trigger] self@[i]).id == i
                &&& self@[i].wf()
                &&& forall|c: char, q: StateId| #[trigger] self@[i].targets(c).contains(q) ==> q < self.n()
                &&& forall|q: StateId| #[trigger] self@[i].eps().contains(q) ==> q < self.n()
            } by {
                if i < id {
                    assert(self@[i] == prev[i]);
                } else {
                    assert(self@[i] == self@[id as int]);
                }
            }
        }
        id
    }

    /// Adds the edge `from -symbol-> to`.
    pub fn add_transition(&mut self, from: StateId, symbol: char, to: StateId) -> (r: Result<(), FsmError>)
        requires
            old(self).wf(),
        ensures
            final(self).wf(),
            final(self).n() == old(self).n(),
            r is Err <==> (from >= old(self).n() || to >= old(self).n()),
            r is Err ==> r == Err::<(), FsmError>(FsmError::InvalidStateId) && final(self)@ == old(self)@,
            r is Ok ==> {
                &&& forall|i: int| 0 <= i < old(self).n() && i != from ==> #[trigger] final(self)@[i] == old(self)@[i]
                &&& final(self)@[from as int].accepting == old(self)@[from as int].accepting
                &&& final(self)@[from as int].eps() == old(self)@[from as int].eps()
                &&& forall|c: char| c != symbol ==> #[trigger] final(self)@[from as int].targets(c) == old(self)@[from as int].targets(c)
                &&& final(self)@[from as int].targets(symbol).to_set() == old(self)@[from as int].targets(symbol).to_set().insert(to)
                &&& final(self).model() == m_edge(old(self).model(), from, symbol, to)
            },
    {
        let n = self.states.len();
        if from >= n || to >= n {
            return Err(FsmError::InvalidStateId);
        }
        let ghost prev = self@;
        let st = self.states.get_mut(from);
        st.add_transition(symbol, to);
        proof {
            if prev[from as int].targets(symbol).contains(to) {
                assert(self@[from as int].targets(symbol).to_set() =~= prev[from as int].targets(symbol).to_set().insert(to));
            } else {
                prev[from as int].targets(symbol).lemma_push_to_set_commute(to);
            }
            assert forall|e: (char, StateId)| self@[from as int].edge_set().contains(e) <==> prev[from as int].edge_set().insert((symbol, to)).contains(e) by {
                if e.0 == symbol {
                    assert(self@[from as int].targets(symbol).to_set().contains(e.1) <==> prev[from as int].targets(symbol).to_set().insert(to).contains(e.1));
                }
            }
            assert(self@[from as int].edge_set() =~= prev[from as int].edge_set().insert((symbol, to)));
            assert(self.model() =~= m_edge(old(self).model(), from, symbol, to));
            assert forall|i: int| 0 <= i < self.n() implies {
                &&& (#[trigger] self@[i]).id == i
                &&& self@[i].wf()
                &&& forall|c: char, q: StateId| #[trigger] self@[i].targets(c).contains(q) ==> q < self.n()
                &&& forall|q: StateId| #[trigger] self@[i].eps().contains(q) ==> q < self.n()
            } by {
                if i != from {
                    assert(self@[i] == prev[i]);
                } else {
                    assert forall|c: char, q: StateId| #[trigger] self@[i].targets(c).contains(q) implies q < self.n() by {
                        if c == symbol && !prev[i].targets(c).contains(q) {
                            assert(self@[i].targets(c).to_set().contains(q));
                        } else {
                            assert(prev[i].targets(c).contains(q));
                        }
                    }
                    assert forall|q: StateId| #[trigger] self@[i].eps().contains(q) implies q < self.n() by {
                        assert(prev[i].eps().contains(q));
                    }
                }
            }
        }
        Ok(())
    }

    /// Adds the epsilon edge `from -> to`.
    pub fn add_epsilon_transition(&mut self, from: StateId, to: StateId) -> (r: Result<(), FsmError>)
        requires
            old(self).wf(),
        ensures
            final(self).wf(),
            final(self).n() == old(self).n(),
            r is Err <==> (from >= old(self).n() || to >= old(self).n()),
            r is Err ==> r == Err::<(), FsmError>(FsmError::InvalidStateId) && final(self)@ == old(self)@,
            r is Ok ==> {
                &&& forall|i: int| 0 <= i < old(self).n() && i != from ==> #[trigger] final(self)@[i] == old(self)@[i]
                &&& final(self)@[from as int].accepting == old(self)@[from as int].accepting
                &&& forall|c: char| #[trigger] final(self)@[from as int].targets(c) == old(self)@[from as int].targets(c)
                &&& final(self)@[from as int].eps().to_set() == old(self)@[from as int].eps().to_set().insert(to)
                &&& final(self).model() == m_eps(old(self).model(), from, to)
            },
    {
        let n = self.states.len();
        if from >= n || to >= n {
            return Err(FsmError::InvalidStateId);
        }
        let ghost prev = self@;
        let st = self.states.get_mut(from);
        st.add_epsilon_transition(to);
        proof {
            if prev[from as int].eps().contains(to) {
                assert(self@[from as int].eps().to_set() =~= prev[from as int].eps().to_set().insert(to));
            } else {
                prev[from as int].eps().lemma_push_to_set_commute(to);
            }
            assert(self@[from as int].edge_set() =~= prev[from as int].edge_set());
            assert(self.model() =~= m_eps(old(self).model(), from, to));
            assert forall|i: int| 0 <= i < self.n() implies {
                &&& (#[trigger] self@[i]).id == i
                &&& self@[i].wf()
                &&& forall|c: char, q: StateId| #[trigger] self@[i].targets(c).contains(q) ==> q < self.n()
                &&& forall|q: StateId| #[trigger] self@[i].eps().contains(q) ==> q < self.n()
            } by {
                if i != from {
                    assert(self@[i] == prev[i]);
                } else {
                    assert forall|c: char, q: StateId| #[trigger] self@[i].targets(c).contains(q) implies q < self.n() by {
                        assert(prev[i].targets(c).contains(q));
                    }
                    assert forall|q: StateId| #[trigger] self@[i].eps().contains(q) implies q < self.n() by {
                        if !prev[i].eps().contains(q) {
                            assert(self@[i].eps().to_set().contains(q));
                        } else {
                            assert(prev[i].eps().contains(q));
                        }
                    }
                }
            }
        }
        Ok(())
    }

    /// Sets whether `state` accepts.
    pub fn set_accepting(&mut self, state: StateId, accepting: bool) -> (r: Result<(), FsmError>)
        requires
            old(self).wf(),
        ensures
            final(self).wf(),
            final(self).n() == old(self).n(),
            r is Err <==> state >= old(self).n(),
            r is Err ==> r == Err::<(), FsmError>(FsmError::InvalidStateId) && final(self)@ == old(self)@,
            r is Ok ==> final(self).model() == m_mark(old(self).model(), state, accepting),
    {
        if state >= self.states.len() {
            return Err(FsmError::InvalidStateId);
        }
        let ghost prev = self@;
        let st = self.states.get_mut(state);
        st.accepting = accepting;
        proof {
            assert forall|i: int| 0 <= i < self.n() implies {
                &&& (#[trigger] self@[i]).id == i
                &&& self@[i].wf()
                &&& forall|c: char, q: StateId| #[trigger] self@[i].targets(c).contains(q) ==> q < self.n()
                &&& forall|q: StateId| #[trigger] self@[i].eps().contains(q) ==> q < self.n()
            } by {
                assert(prev[i].id == i);
                if i != state {
                    assert(self@[i] == prev[i]);
                } else {
                    assert(self@[i].id == prev[i].id);
                    assert(self@[i].transitions == prev[i].transitions);
                    assert(self@[i].epsilon_transitions == prev[i].epsilon_transitions);
                    assert(prev[i].wf());
                    assert(self@[i].eps() == prev[i].eps());
                    assert forall|c: char| #[trigger] self@[i].targets(c).no_duplicates() by {
                        assert(self@[i].targets(c) == prev[i].targets(c));
                        assert(prev[i].targets(c).no_duplicates());
                    }
                    assert(self@[i].wf());
                }
                assert forall|c: char, q: StateId| #[trigger] self@[i].targets(c).contains(q) implies q < self.n() by {
                    assert(prev[i].targets(c).contains(q));
                }
                assert forall|q: StateId| #[trigger] self@[i].eps().contains(q) implies q < self.n() by {
                    assert(prev[i].eps().contains(q));
                }
            }
            assert(self@[state as int].edge_set() =~= prev[state as int].edge_set());
            assert(self.model() =~= m_mark(old(self).model(), state, accepting));
        }
        Ok(())
    }

    pub proof fn lemma_path_mono(&self, p: StateId, q: StateId, k: nat, k2: nat)
        requires
            self.eps_path(p, q, k),
            k <= k2,
        ensures
            self.eps_path(p, q, k2),
        decreases k,
    {
        if p != q {
            let m = choose|m: StateId| #[trigger] self.eps_edge(p, m) && self.eps_path(m, q, (k - 1) as nat);
            self.lemma_path_mono(m, q, (k - 1) as nat, (k2 - 1) as nat);
        }
    }

    pub proof fn lemma_path_extend(&self, s: StateId, p: StateId, r: StateId, k: nat)
        requires
            self.eps_path(s, p, k),
            self.eps_edge(p, r),
        ensures
            self.eps_path(s, r, k + 1),
        decreases k,
    {
        if s == p {
            assert(self.eps_path(r, r, k));
        } else {
            let m = choose|m: StateId| #[trigger] self.eps_edge(s, m) && self.eps_path(m, p, (k - 1) as nat);
            self.lemma_path_extend(m, p, r, (k - 1) as nat);
        }
    }

    pub proof fn lemma_path_concat(&self, a: StateId, b: StateId, c: StateId, k1: nat, k2: nat)
        requires
            self.eps_path(a, b, k1),
            self.eps_path(b, c, k2),
        ensures
            self.eps_path(a, c, k1 + k2),
        decreases k1,
    {
        if a == b {
            self.lemma_path_mono(b, c, k2, k1 + k2);
        } else {
            let m = choose|m: StateId| #[trigger] self.eps_edge(a, m) && self.eps_path(m, b, (k1 - 1) as nat);
            self.lemma_path_concat(m, b, c, (k1 - 1) as nat, k2);
            assert(self.eps_path(m, c, (k1 + k2 - 1) as nat));
        }
    }

    /// A set closed under epsilon edges holds everything its members reach.
    pub proof fn lemma_path_closed(&self, v: Set<StateId>, p: StateId, q: StateId, k: nat)
        requires
            forall|a: StateId, b: StateId| v.contains(a) && #[trigger] self.eps_edge(a, b) ==> v.contains(b),
            v.contains(p),
            self.eps_path(p, q, k),
        ensures
            v.contains(q),
        decreases k,
    {
        if p != q {
            let m = choose|m: StateId| #[trigger] self.eps_edge(p, m) && self.eps_path(m, q, (k - 1) as nat);
            self.lemma_path_closed(v, m, q, (k - 1) as nat);
        }
    }

    /// An automaton without states accepts no word, the empty word included.
    pub proof fn lemma_empty_rejects(&self, w: Seq<char>)
        requires
            self.n() == 0,
        ensures
            !self.accepts_word(w),
    {
    }

    /// Closing a set twice yields the same set as closing it once.
    pub proof fn lemma_closure_idempotent(&self, s: Set<StateId>)
        ensures
            self.closure(self.closure(s)) == self.closure(s),
    {
        let c1 = self.closure(s);
        assert forall|q: StateId| self.closure(c1).contains(q) <==> c1.contains(q) by {
            if c1.contains(q) {
                assert(self.eps_path(q, q, 0));
                assert(self.eps_reaches(q, q));
            }
            if self.closure(c1).contains(q) {
                let p = choose|p: StateId| c1.contains(p) && #[trigger] self.eps_reaches(p, q);
                let p0 = choose|p0: StateId| s.contains(p0) && #[trigger] self.eps_reaches(p0, p);
                let k1 = choose|k1: nat| #[trigger] self.eps_path(p0, p, k1);
                let k2 = choose|k2: nat| #[trigger] self.eps_path(p, q, k2);
                self.lemma_path_concat(p0, p, q, k1, k2);
                assert(self.eps_reaches(p0, q));
            }
        }
        assert(self.closure(c1) =~= c1);
    }

    /// Epsilon closure of the states in `start`, as a bitmap over the states.
    fn closure_bits(&self, start: &Vec<StateId>) -> (r: Vec<bool>)
        requires
            self.wf(),
            forall|i: int| 0 <= i < start@.len() ==> start@[i] < self.n(),
        ensures
            r@.len() == self.n(),
            bits_set(r@) == self.closure(start@.to_set()),
    {
        let n = self.states.len();
        let mut visited = cleared(n);
        let mut stack: Vec<StateId> = Vec::new();
        let ghost s = start@.to_set();
        let mut k: usize = 0;
        while k < start.len()
            invariant
                self.wf(),
                n == self.n(),
                s == start@.to_set(),
                forall|i: int| 0 <= i < start@.len() ==> start@[i] < n,
                k <= start@.len(),
                visited@.len() == n,
                forall|i: int| 0 <= i < k ==> visited@[#[trigger] start@[i] as int],
                forall|q: StateId| q < n && #[trigger] visited@[q as int] ==> s.contains(q) && stack@.contains(q),
                forall|j: int| 0 <= j < stack@.len() ==> stack@[j] < n && visited@[stack@[j] as int],
            decreases start@.len() - k,
        {
            let p = start[k];
            let ghost old_stack = stack@;
            let ghost old_visited = visited@;
            proof {
                assert(start@[k as int] == p);
                assert(start@.contains(p));
                assert(s.contains(p));
            }
            if !visited[p] {
                visited.set(p, true);
                stack.push(p);
                proof {
                    assert(stack@[stack@.len() - 1] == p);
                    assert forall|q: StateId| old_stack.contains(q) implies stack@.contains(q) by {
                        let j = choose|j: int| 0 <= j < old_stack.len() && old_stack[j] == q;
                        assert(stack@[j] == q);
                    }
                    assert forall|q: StateId| q < n && visited@[q as int] implies s.contains(q) && stack@.contains(q) by {
                        if q != p {
                            assert(old_visited[q as int]);
                        }
                    }
                }
            }
            k = k + 1;
        }
        proof {
            assert forall|p: StateId| s.contains(p) implies p < n && visited@[p as int] by {
                let i = choose|i: int| 0 <= i < start@.len() && start@[i] == p;
            }
            assert forall|q: StateId| q < n && visited@[q as int] implies self.closure(s).contains(q) by {
                assert(self.eps_path(q, q, 0));
                assert(self.eps_reaches(q, q));
            }
            lemma_count_true_le(visited@);
            assert forall|q: StateId| q < n && visited@[q as int] && !stack@.contains(q) implies forall|r: StateId|
                #[trigger] self.eps_edge(q, r) ==> visited@[r as int] by {
                assert(stack@.contains(q));
            }
        }
        while stack.len() > 0
            invariant
                self.wf(),
                n == self.n(),
                visited@.len() == n,
                count_true(visited@) <= n,
                forall|j: int| 0 <= j < stack@.len() ==> stack@[j] < n && visited@[stack@[j] as int],
                forall|p: StateId| s.contains(p) ==> p < n && visited@[p as int],
                forall|q: StateId| q < n && visited@[q as int] ==> self.closure(s).contains(q),
                forall|q: StateId|
                    q < n && visited@[q as int] && !stack@.contains(q) ==> forall|r: StateId|
                        #[trigger] self.eps_edge(q, r) ==> visited@[r as int],
            decreases 2 * (n - count_true(visited@)) + stack@.len(),
        {
            let ghost before = stack@;
            let p = stack.pop().unwrap();
            proof {
                assert(before[before.len() - 1] == p);
                assert forall|q: StateId| before.contains(q) && q != p implies stack@.contains(q) by {
                    let j = choose|j: int| 0 <= j < before.len() && before[j] == q;
                    assert(stack@[j] == q);
                }
            }
            let ghost m0 = 2 * (n - count_true(visited@)) + stack@.len();
            let succ = self.states.get(p).next_epsilon();
            proof {
                assert forall|i: int| 0 <= i < succ@.len() implies #[trigger] succ@[i] < n by {
                    assert(self@[p as int].eps().contains(succ@[i]));
                }
            }
            let mut j: usize = 0;
            while j < succ.len()
                invariant
                    self.wf(),
                    n == self.n(),
                    p < n,
                    succ@ == self@[p as int].eps(),
                    visited@.len() == n,
                    visited@[p as int],
                    count_true(visited@) <= n,
                    2 * (n - count_true(visited@)) + stack@.len() <= m0,
                    j <= succ@.len(),
                    forall|i: int| 0 <= i < succ@.len() ==> #[trigger] succ@[i] < n,
                    forall|i: int| 0 <= i < j ==> visited@[#[trigger] succ@[i] as int],
                    forall|jj: int| 0 <= jj < stack@.len() ==> stack@[jj] < n && visited@[stack@[jj] as int],
                    forall|q: StateId| s.contains(q) ==> q < n && visited@[q as int],
                    forall|q: StateId| q < n && visited@[q as int] ==> self.closure(s).contains(q),
                    forall|q: StateId|
                        q < n && q != p && visited@[q as int] && !stack@.contains(q) ==> forall|r: StateId|
                            #[trigger] self.eps_edge(q, r) ==> visited@[r as int],
                decreases succ@.len() - j,
            {
                let r = succ[j];
                proof {
                    assert(self@[p as int].eps().contains(r));
                }
                let ghost old_visited = visited@;
                let ghost old_stack = stack@;
                if !visited[r] {
                    proof {
                        lemma_count_true_set(visited@, r as int);
                        lemma_count_true_le(visited@.update(r as int, true));
                        let p0 = choose|p0: StateId| s.contains(p0) && #[trigger] self.eps_reaches(p0, p);
                        let kk = choose|kk: nat| #[trigger] self.eps_path(p0, p, kk);
                        assert(self.eps_edge(p, r));
                        self.lemma_path_extend(p0, p, r, kk);
                        assert(self.eps_reaches(p0, r));
                    }
                    visited.set(r, true);
                    stack.push(r);
                    proof {
                        assert forall|q: StateId| old_stack.contains(q) implies stack@.contains(q) by {
                            let jj = choose|jj: int| 0 <= jj < old_stack.len() && old_stack[jj] == q;
                            assert(stack@[jj] == q);
                        }
                        assert(stack@[stack@.len() - 1] == r);
                    }
                }
                proof {
                    assert forall|i: int| 0 <= i <= j implies visited@[#[trigger] succ@[i] as int] by {
                        if i < j {
                            assert(old_visited[succ@[i] as int]);
                        }
                    }
                    assert forall|q: StateId|
                        q < n && q != p && visited@[q as int] && !stack@.contains(q) implies forall|x: StateId|
                            #[trigger] self.eps_edge(q, x) ==> visited@[x as int] by {
                        assert(q != r || old_visited[q as int]);
                        assert(old_visited[q as int]);
                        assert(!old_stack.contains(q));
                        assert forall|x: StateId| #[trigger] self.eps_edge(q, x) implies visited@[x as int] by {
                            assert(old_visited[x as int]);
                        }
                    }
                }
                j = j + 1;
            }
            proof {
                assert forall|r: StateId| #[trigger] self.eps_edge(p, r) implies visited@[r as int] by {
                    let i = choose|i: int| 0 <= i < succ@.len() && succ@[i] == r;
                }
            }
        }
        proof {
            let v = bits_set(visited@);
            assert forall|a: StateId, b: StateId| v.contains(a) && #[trigger] self.eps_edge(a, b) implies v.contains(b) by {
                assert(self@[a as int].eps().contains(b));
            }
            assert forall|q: StateId| self.closure(s).contains(q) implies v.contains(q) by {
                let p = choose|p: StateId| s.contains(p) && #[trigger] self.eps_reaches(p, q);
                let kk = choose|kk: nat| #[trigger] self.eps_path(p, q, kk);
                self.lemma_path_closed(v, p, q, kk);
            }
            assert(v =~= self.closure(s));
        }
        visited
    }

    /// Targets of the `c` edges out of the states of `bits` considered so far.
    spec fn step_upto(&self, bits: Seq<bool>, c: char, k: nat) -> Set<StateId> {
        Set::new(
            |q: StateId|
                exists|p: StateId|
                    p < k && bits[p as int] && #[trigger] self@[p as int].targets(c).contains(q),
        )
    }

    /// Targets of the edges labelled `c` out of the states set in `bits`.
    fn step_targets(&self, bits: &Vec<bool>, c: char) -> (r: Vec<StateId>)
        requires
            self.wf(),
            bits@.len() == self.n(),
        ensures
            r@.to_set() == self.step(bits_set(bits@), c),
            forall|i: int| 0 <= i < r@.len() ==> r@[i] < self.n(),
    {
        let n = self.states.len();
        let mut out: Vec<StateId> = Vec::new();
        let mut p: usize = 0;
        proof {
            assert(out@.to_set() =~= self.step_upto(bits@, c, 0));
        }
        while p < n
            invariant
                self.wf(),
                n == self.n(),
                bits@.len() == n,
                p <= n,
                out@.to_set() == self.step_upto(bits@, c, p as nat),
                forall|i: int| 0 <= i < out@.len() ==> out@[i] < n,
            decreases n - p,
        {
            let ghost before = out@.to_set();
            if bits[p] {
                match self.states.get(p).next(c) {
                    Some(v) => {
                        let mut j: usize = 0;
                        proof {
                            assert(v@.subrange(0, 0).to_set() =~= Set::<StateId>::empty());
                            assert(out@.to_set() =~= before.union(v@.subrange(0, 0).to_set()));
                        }
                        while j < v.len()
                            invariant
                                self.wf(),
                                n == self.n(),
                                p < n,
                                v@ == self@[p as int].targets(c),
                                j <= v@.len(),
                                out@.to_set() == before.union(v@.subrange(0, j as int).to_set()),
                                forall|i: int| 0 <= i < out@.len() ==> out@[i] < n,
                            decreases v@.len() - j,
                        {
                            let t = v[j];
                            proof {
                                assert(self@[p as int].targets(c).contains(t));
                                out@.lemma_push_to_set_commute(t);
                                v@.subrange(0, j as int).lemma_push_to_set_commute(t);
                                assert(v@.subrange(0, j as int + 1) =~= v@.subrange(0, j as int).push(t));
                            }
                            out.push(t);
                            proof {
                                assert(out@.to_set() =~= before.union(v@.subrange(0, j as int + 1).to_set()));
                            }
                            j = j + 1;
                        }
                        proof {
                            assert(v@.subrange(0, v@.len() as int) =~= v@);
                            assert forall|q: StateId| out@.to_set().contains(q) <==> self.step_upto(bits@, c, p as nat + 1).contains(q) by {
                                if v@.contains(q) {
                                    assert(self@[p as int].targets(c).contains(q));
                                }
                                if self.step_upto(bits@, c, p as nat + 1).contains(q) {
                                    let a = choose|a: StateId| a < p + 1 && bits@[a as int] && #[trigger] self@[a as int].targets(c).contains(q);
                                    if a < p {
                                        assert(before.contains(q));
                                    }
                                }
                            }
                            assert(out@.to_set() =~= self.step_upto(bits@, c, p as nat + 1));
                        }
                    },
                    None => {
                        proof {
                            assert forall|q: StateId| self.step_upto(bits@, c, p as nat + 1).contains(q) implies before.contains(q) by {
                                let a = choose|a: StateId| a < p + 1 && bits@[a as int] && #[trigger] self@[a as int].targets(c).contains(q);
                                if a == p {
                                    assert(self@[p as int].targets(c).len() == 0);
                                }
                            }
                            assert(out@.to_set() =~= self.step_upto(bits@, c, p as nat + 1));
                        }
                    },
                }
            } else {
                proof {
                    assert forall|q: StateId| self.step_upto(bits@, c, p as nat + 1).contains(q) implies before.contains(q) by {
                        let a = choose|a: StateId| a < p + 1 && bits@[a as int] && #[trigger] self@[a as int].targets(c).contains(q);
                    }
                    assert(out@.to_set() =~= self.step_upto(bits@, c, p as nat + 1));
                }
            }
            p = p + 1;
        }
        proof {
            assert forall|q: StateId| self.step(bits_set(bits@), c).contains(q) implies self.step_upto(bits@, c, n as nat).contains(q) by {
                let a = choose|a: StateId| bits_set(bits@).contains(a) && a < self.n() && #[trigger] self@[a as int].targets(c).contains(q);
            }
            assert forall|q: StateId| self.step_upto(bits@, c, n as nat).contains(q) implies self.step(bits_set(bits@), c).contains(q) by {
                let a = choose|a: StateId| a < n && bits@[a as int] && #[trigger] self@[a as int].targets(c).contains(q);
                assert(bits_set(bits@).contains(a));
            }
            assert(self.step_upto(bits@, c, n as nat) =~= self.step(bits_set(bits@), c));
        }
        out
    }

    /// Whether any state set in `bits` accepts.
    fn any_accepting(&self, bits: &Vec<bool>) -> (r: bool)
        requires
            bits@.len() == self.n(),
        ensures
            r == exists|q: StateId| #[trigger] bits_set(bits@).contains(q) && q < self.n() && self@[q as int].accepting,
    {
        let mut p: usize = 0;
        while p < bits.len()
            invariant
                bits@.len() == self.n(),
                p <= bits@.len(),
                forall|q: StateId| q < p && #[trigger] bits_set(bits@).contains(q) ==> !self@[q as int].accepting,
            decreases bits@.len() - p,
        {
            if bits[p] && self.states.get(p).accepting {
                assert(bits_set(bits@).contains(p));
                return true;
            }
            p = p + 1;
        }
        false
    }

    /// Whether the automaton accepts `word`. An automaton without states
    /// accepts nothing, not even the empty word.
    pub fn accepts(&self, word: Vec<char>) -> (r: bool)
        requires
            self.wf(),
        ensures
            r == self.accepts_word(word@),
    {
        if self.states.is_empty() {
            return false;
        }
        let mut start: Vec<StateId> = Vec::new();
        start.push(0);
        let mut current = self.closure_bits(&start);
        proof {
            assert(start@ =~= Seq::<StateId>::empty().push(0));
            Seq::<StateId>::empty().lemma_push_to_set_commute(0);
            assert(Seq::<StateId>::empty().to_set() =~= Set::<StateId>::empty());
            assert(start@.to_set() =~= set![0usize]);
            assert(word@.subrange(0, 0) =~= Seq::<char>::empty());
        }
        let mut i: usize = 0;
        while i < word.len()
            invariant
                self.wf(),
                self.n() > 0,
                i <= word@.len(),
                current@.len() == self.n(),
                bits_set(current@) == self.run(word@.subrange(0, i as int)),
            decreases word@.len() - i,
        {
            let moved = self.step_targets(&current, word[i]);
            current = self.closure_bits(&moved);
            proof {
                let w = word@.subrange(0, i + 1);
                assert(w.drop_last() =~= word@.subrange(0, i as int));
                assert(w.last() == word@[i as int]);
            }
            i = i + 1;
        }
        proof {
            assert(word@.subrange(0, word@.len() as int) =~= word@);
        }
        self.any_accepting(&current)
    }

    /// Whether some state set in `b` accepts.
    pub open spec fn bits_accepting(&self, b: Seq<bool>) -> bool {
        exists|q: StateId| #[trigger] bits_set(b).contains(q) && q < self.n() && self@[q as int].accepting
    }

    /// The subset that follows `b` on `c`: the closure of its `c` targets.
    pub open spec fn successor(&self, b: Seq<bool>, c: char) -> Set<StateId> {
        self.closure(self.step(bits_set(b), c))
    }

    /// The edge of determinized state `i` on `c` matches the subsets.
    spec fn edge_ok(&self, dfa: Dfa, subsets: Seq<Vec<bool>>, i: int, c: char) -> bool {
        match dfa@[i].target(c) {
            None => self.successor(subsets[i]@, c) == Set::<StateId>::empty(),
            Some(j) => j < subsets.len() && bits_set(subsets[j as int]@) == self.successor(subsets[i]@, c),
        }
    }

    /// Determinized state `i` stands for the subset `subsets[i]`.
    spec fn table_ok(&self, dfa: Dfa, subsets: Seq<Vec<bool>>) -> bool {
        &&& dfa.wf()
        &&& dfa.n() == subsets.len()
        &&& subsets.len() >= 1
        &&& forall|i: int| 0 <= i < subsets.len() ==> (#[trigger] subsets[i])@.len() == self.n()
        &&& forall|i: int, j: int| 0 <= i < j < subsets.len() ==> (#[trigger] subsets[i])@ != (#[trigger] subsets[j])@
        &&& bits_set(subsets[0]@) == self.run(Seq::<char>::empty())
        &&& forall|i: int| 0 <= i < subsets.len() ==> (#[trigger] dfa@[i]).accepting == self.bits_accepting(subsets[i]@)
    }

    /// Reading a word over the alphabet, the determinized automaton sits in
    /// the state whose subset is the active set, or has stopped exactly
    /// when the active set is empty.
    proof fn lemma_subset_run(&self, dfa: Dfa, subsets: Seq<Vec<bool>>, alphabet: Seq<char>, w: Seq<char>)
        requires
            self.wf(),
            self.table_ok(dfa, subsets),
            forall|i: int, c: char| 0 <= i < subsets.len() && alphabet.contains(c) ==> #[trigger] self.edge_ok(dfa, subsets, i, c),
            forall|i: int| 0 <= i < w.len() ==> alphabet.contains(#[trigger] w[i]),
        ensures
            match dfa.run(w) {
                Some(i) => i < subsets.len() && bits_set(subsets[i as int]@) == self.run(w),
                None => self.run(w) == Set::<StateId>::empty(),
            },
        decreases w.len(),
    {
        if w.len() > 0 {
            let u = w.drop_last();
            let c = w.last();
            assert forall|i: int| 0 <= i < u.len() implies alphabet.contains(#[trigger] u[i]) by {
                assert(u[i] == w[i]);
            }
            self.lemma_subset_run(dfa, subsets, alphabet, u);
            assert(alphabet.contains(w[w.len() - 1]));
            match dfa.run(u) {
                Some(i) => {
                    assert(self.edge_ok(dfa, subsets, i as int, c));
                    assert(self.step(bits_set(subsets[i as int]@), c) == self.step(self.run(u), c));
                },
                None => {
                    assert(self.step(self.run(u), c) =~= Set::<StateId>::empty());
                    assert(self.closure(Set::<StateId>::empty()) =~= Set::<StateId>::empty());
                },
            }
        } else {
            assert(dfa.run(w) == Some(0usize));
        }
    }

    /// Index of the subset equal to `b`, if one is listed.
    fn find_subset(subsets: &Vec<Vec<bool>>, b: &Vec<bool>) -> (r: Option<usize>)
        ensures
            match r {
                Some(j) => j < subsets@.len() && subsets@[j as int]@ == b@,
                None => forall|j: int| 0 <= j < subsets@.len() ==> (#[trigger] subsets@[j])@ != b@,
            },
    {
        let mut j: usize = 0;
        while j < subsets.len()
            invariant
                j <= subsets@.len(),
                forall|i: int| 0 <= i < j ==> (#[trigger] subsets@[i])@ != b@,
            decreases subsets@.len() - j,
        {
            if same_bits(&subsets[j], b) {
                return Some(j);
            }
            j = j + 1;
        }
        None
    }

    /// Subset construction over the symbols of `alphabet`, in their order.
    /// On words over `alphabet` the result accepts exactly what this
    /// automaton accepts; each of its states stands for a distinct set of
    /// states, so there are at most two to the number of states.
    pub fn to_dfa(&self, alphabet: &[char]) -> (dfa: Dfa)
        requires
            self.wf(),
        ensures
            dfa.wf(),
            dfa.n() <= two_pow(self.n()),
            forall|w: Seq<char>|
                (forall|i: int| 0 <= i < w.len() ==> alphabet@.contains(#[trigger] w[i]))
                    ==> #[trigger] dfa.accepts_word(w) == self.accepts_word(w),
    {
        let mut dfa = Dfa::new();
        let n = self.states.len();
        if n == 0 {
            return dfa;
        }
        let mut start: Vec<StateId> = Vec::new();
        start.push(0);
        let init = self.closure_bits(&start);
        proof {
            assert(start@ =~= Seq::<StateId>::empty().push(0));
            Seq::<StateId>::empty().lemma_push_to_set_commute(0);
            assert(Seq::<StateId>::empty().to_set() =~= Set::<StateId>::empty());
            assert(start@.to_set() =~= set![0usize]);
        }
        let acc = self.any_accepting(&init);
        let mut subsets: Vec<Vec<bool>> = Vec::new();
        subsets.push(init);
        let first = dfa.add_state(acc);
        let mut queue: Vec<StateId> = Vec::new();
        queue.push(first);
        proof {
            lemma_distinct_bitmaps_bound(subsets@, n as nat);
            assert(queue@[0] == 0);
        }
        while queue.len() > 0
            invariant
                self.wf(),
                n == self.n(),
                n > 0,
                self.table_ok(dfa, subsets@),
                subsets@.len() <= two_pow(n as nat),
                subsets@.len() <= usize::MAX,
                queue@.no_duplicates(),
                forall|i: int| 0 <= i < queue@.len() ==> #[trigger] queue@[i] < subsets@.len(),
                forall|i: int, c: char|
                    0 <= i < subsets@.len() && queue@.contains(i as StateId) ==> #[trigger] dfa@[i].target(c) == None::<StateId>,
                forall|i: int, c: char|
                    0 <= i < subsets@.len() && !queue@.contains(i as StateId) && alphabet@.contains(c)
                        ==> #[trigger] self.edge_ok(dfa, subsets@, i, c),
            decreases 2 * two_pow(n as nat) - 2 * subsets@.len() + queue@.len(),
        {
            let ghost before = queue@;
            let d = queue.pop().unwrap();
            proof {
                assert(before =~= queue@.push(d));
                assert forall|x: StateId| queue@.contains(x) implies before.contains(x) && x != d by {
                    let i = choose|i: int| 0 <= i < queue@.len() && queue@[i] == x;
                    assert(before[i] == x);
                }
                assert(before[before.len() - 1] == d);
                assert(before.contains(d));
            }
            let ghost m0 = 2 * two_pow(n as nat) - 2 * subsets@.len() + queue@.len();
            let mut k: usize = 0;
            while k < alphabet.len()
                invariant
                    self.wf(),
                    n == self.n(),
                    n > 0,
                    self.table_ok(dfa, subsets@),
                    subsets@.len() <= two_pow(n as nat),
                    subsets@.len() <= usize::MAX,
                    d < subsets@.len(),
                    !queue@.contains(d),
                    k <= alphabet@.len(),
                    2 * two_pow(n as nat) - 2 * subsets@.len() + queue@.len() <= m0,
                    queue@.no_duplicates(),
                    forall|i: int| 0 <= i < queue@.len() ==> #[trigger] queue@[i] < subsets@.len(),
                    forall|i: int, c: char|
                        0 <= i < subsets@.len() && queue@.contains(i as StateId) ==> #[trigger] dfa@[i].target(c) == None::<StateId>,
                    forall|i: int, c: char|
                        0 <= i < subsets@.len() && i != d && !queue@.contains(i as StateId) && alphabet@.contains(c)
                            ==> #[trigger] self.edge_ok(dfa, subsets@, i, c),
                    forall|c: char| alphabet@.subrange(0, k as int).contains(c) ==> #[trigger] self.edge_ok(dfa, subsets@, d as int, c),
                    forall|c: char| !alphabet@.subrange(0, k as int).contains(c) ==> #[trigger] dfa@[d as int].target(c) == None::<StateId>,
                decreases alphabet@.len() - k,
            {
                let c = alphabet[k];
                let ghost old_dfa = dfa;
                let ghost old_subsets = subsets@;
                let ghost old_queue = queue@;
                let moved = self.step_targets(&subsets[d], c);
                let next = self.closure_bits(&moved);
                proof {
                    assert(moved@.to_set() == self.step(bits_set(subsets@[d as int]@), c));
                    assert(bits_set(next@) == self.successor(subsets@[d as int]@, c));
                }
                if any_set(&next) {
                    let j = match Self::find_subset(&subsets, &next) {
                        Some(j) => j,
                        None => {
                            let acc = self.any_accepting(&next);
                            proof {
                                assert(acc == self.bits_accepting(next@));
                            }
                            subsets.push(next);
                            let count = subsets.len();
                            proof {
                                assert(count == dfa.n() + 1);
                            }
                            let j = dfa.add_state(acc);
                            queue.push(j);
                            proof {
                                assert forall|i: int| 0 <= i < old_subsets.len() implies #[trigger] subsets@[i] == old_subsets[i] by {}
                                assert(subsets@[j as int] == next);
                                lemma_distinct_bitmaps_bound(subsets@, n as nat);
                                assert forall|x: StateId| #[trigger] queue@.contains(x) <==> (old_queue.contains(x) || x == j) by {
                                    if old_queue.contains(x) {
                                        let i = choose|i: int| 0 <= i < old_queue.len() && old_queue[i] == x;
                                        assert(queue@[i] == x);
                                    }
                                    if x == j {
                                        assert(queue@[queue@.len() - 1] == j);
                                    }
                                    if queue@.contains(x) {
                                        let i = choose|i: int| 0 <= i < queue@.len() && queue@[i] == x;
                                        if i < old_queue.len() {
                                            assert(old_queue[i] == x);
                                        }
                                    }
                                }
                                assert forall|i: int, cc: char|
                                    0 <= i < old_subsets.len() && i != d && !old_queue.contains(i as StateId) && alphabet@.contains(cc)
                                    implies #[trigger] self.edge_ok(dfa, subsets@, i, cc) by {
                                    assert(self.edge_ok(old_dfa, old_subsets, i, cc));
                                    assert(dfa@[i] == old_dfa@[i]);
                                }
                                assert forall|cc: char| alphabet@.subrange(0, k as int).contains(cc)
                                    implies #[trigger] self.edge_ok(dfa, subsets@, d as int, cc) by {
                                    assert(self.edge_ok(old_dfa, old_subsets, d as int, cc));
                                    assert(dfa@[d as int] == old_dfa@[d as int]);
                                }
                            }
                            j
                        },
                    };
                    let ghost mid_dfa = dfa;
                    let _ = dfa.add_transition(d, c, j);
                    proof {
                        assert(bits_set(subsets@[j as int]@) == self.successor(subsets@[d as int]@, c));
                        assert(self.edge_ok(dfa, subsets@, d as int, c));
                        assert forall|i: int, cc: char|
                            0 <= i < subsets@.len() && i != d && !queue@.contains(i as StateId) && alphabet@.contains(cc)
                            implies #[trigger] self.edge_ok(dfa, subsets@, i, cc) by {
                            assert(self.edge_ok(mid_dfa, subsets@, i, cc));
                            assert(dfa@[i] == mid_dfa@[i]);
                        }
                        assert forall|i: int, cc: char|
                            0 <= i < subsets@.len() && queue@.contains(i as StateId) implies #[trigger] dfa@[i].target(cc) == None::<StateId> by {
                            assert(mid_dfa@[i].target(cc) == None::<StateId>);
                            assert(dfa@[i] == mid_dfa@[i]);
                        }
                        assert forall|cc: char| alphabet@.subrange(0, k as int + 1).contains(cc)
                            implies #[trigger] self.edge_ok(dfa, subsets@, d as int, cc) by {
                            if cc != c {
                                let i = choose|i: int| 0 <= i < k + 1 && #[trigger] alphabet@.subrange(0, k as int + 1)[i] == cc;
                                assert(alphabet@.subrange(0, k as int)[i] == cc);
                                assert(self.edge_ok(mid_dfa, subsets@, d as int, cc));
                            }
                        }
                        assert forall|cc: char| !alphabet@.subrange(0, k as int + 1).contains(cc)
                            implies #[trigger] dfa@[d as int].target(cc) == None::<StateId> by {
                            assert(alphabet@.subrange(0, k as int + 1)[k as int] == c);
                            if alphabet@.subrange(0, k as int).contains(cc) {
                                let i = choose|i: int| 0 <= i < k && #[trigger] alphabet@.subrange(0, k as int)[i] == cc;
                                assert(alphabet@.subrange(0, k as int + 1)[i] == cc);
                            }
                        }
                        assert forall|i: int| 0 <= i < subsets@.len() implies (#[trigger] dfa@[i]).accepting == self.bits_accepting(subsets@[i]@) by {
                            assert(dfa@[i].accepting == mid_dfa@[i].accepting);
                        }
                    }
                } else {
                    proof {
                        assert(bits_set(next@) =~= Set::<StateId>::empty());
                        assert forall|cc: char| alphabet@.subrange(0, k as int + 1).contains(cc)
                            implies #[trigger] self.edge_ok(dfa, subsets@, d as int, cc) by {
                            if cc != c {
                                let i = choose|i: int| 0 <= i < k + 1 && #[trigger] alphabet@.subrange(0, k as int + 1)[i] == cc;
                                assert(alphabet@.subrange(0, k as int)[i] == cc);
                            } else if !alphabet@.subrange(0, k as int).contains(cc) {
                                assert(dfa@[d as int].target(cc) == None::<StateId>);
                            }
                        }
                        assert forall|cc: char| !alphabet@.subrange(0, k as int + 1).contains(cc)
                            implies #[trigger] dfa@[d as int].target(cc) == None::<StateId> by {
                            if alphabet@.subrange(0, k as int).contains(cc) {
                                let i = choose|i: int| 0 <= i < k && #[trigger] alphabet@.subrange(0, k as int)[i] == cc;
                                assert(alphabet@.subrange(0, k as int + 1)[i] == cc);
                            }
                        }
                    }
                }
                k = k + 1;
            }
            proof {
                assert(alphabet@.subrange(0, alphabet@.len() as int) =~= alphabet@);
            }
        }
        proof {
            assert forall|w: Seq<char>|
                (forall|i: int| 0 <= i < w.len() ==> alphabet@.contains(#[trigger] w[i]))
                    implies #[trigger] dfa.accepts_word(w) == self.accepts_word(w) by {
                self.lemma_subset_run(dfa, subsets@, alphabet@, w);
                match dfa.run(w) {
                    Some(i) => {
                        assert(dfa@[i as int].accepting == self.bits_accepting(subsets@[i as int]@));
                    },
                    None => {},
                }
            }
        }
        dfa
    }

    /// Epsilon paths of the automaton are those of its model.
    pub proof fn lemma_path_model(&self, p: StateId, q: StateId, k: nat)
        ensures
            self.eps_path(p, q, k) == m_path(self.model(), p, q, k),
        decreases k,
    {
        let m = self.model();
        if k > 0 {
            assert forall|r: StateId| #[trigger] self.eps_edge(p, r) == m_eps_edge(m, p, r) by {
                if p < self.n() {
                    assert(m[p as int].2 == self@[p as int].eps().to_set());
                }
            }
            assert forall|r: StateId| #[trigger] self.eps_path(r, q, (k - 1) as nat) == m_path(m, r, q, (k - 1) as nat) by {
                self.lemma_path_model(r, q, (k - 1) as nat);
            }
            if self.eps_path(p, q, k) && p != q {
                let r = choose|r: StateId| #[trigger] self.eps_edge(p, r) && self.eps_path(r, q, (k - 1) as nat);
                assert(m_eps_edge(m, p, r) && m_path(m, r, q, (k - 1) as nat));
            }
            if m_path(m, p, q, k) && p != q {
                let r = choose|r: StateId| #[trigger] m_eps_edge(m, p, r) && m_path(m, r, q, (k - 1) as nat);
                assert(self.eps_edge(p, r) && self.eps_path(r, q, (k - 1) as nat));
            }
        }
    }

    /// The closure of the automaton is that of its model.
    pub proof fn lemma_closure_model(&self, s: Set<StateId>)
        ensures
            self.closure(s) == m_closure(self.model(), s),
    {
        let m = self.model();
        assert forall|q: StateId| self.closure(s).contains(q) <==> m_closure(m, s).contains(q) by {
            if self.closure(s).contains(q) {
                let p = choose|p: StateId| s.contains(p) && #[trigger] self.eps_reaches(p, q);
                let k = choose|k: nat| #[trigger] self.eps_path(p, q, k);
                self.lemma_path_model(p, q, k);
            }
            if m_closure(m, s).contains(q) {
                let (p, k) = choose|p: StateId, k: nat| s.contains(p) && #[trigger] m_path(m, p, q, k);
                self.lemma_path_model(p, q, k);
                assert(self.eps_reaches(p, q));
            }
        }
        assert(self.closure(s) =~= m_closure(m, s));
    }

    /// Targets on `c` out of the states set in `bits`, falling back to the
    /// wildcard edges of a state that has no `c` edge.
    fn wild_step_targets(&self, bits: &Vec<bool>, c: char) -> (r: Vec<StateId>)
        requires
            self.wf(),
            bits@.len() == self.n(),
        ensures
            r@.to_set() == m_wild_step(self.model(), bits_set(bits@), c),
            forall|i: int| 0 <= i < r@.len() ==> r@[i] < self.n(),
    {
        let ghost m = self.model();
        let n = self.states.len();
        let mut out: Vec<StateId> = Vec::new();
        let mut p: usize = 0;
        proof {
            assert(out@.to_set() =~= Set::new(|q: StateId| exists|a: StateId| a < 0 && bits@[a as int] && #[trigger] m_wild_targets(m, a, c).contains(q)));
        }
        while p < n
            invariant
                self.wf(),
                n == self.n(),
                m == self.model(),
                bits@.len() == n,
                p <= n,
                out@.to_set() == Set::new(|q: StateId| exists|a: StateId| a < p && bits@[a as int] && #[trigger] m_wild_targets(m, a, c).contains(q)),
                forall|i: int| 0 <= i < out@.len() ==> out@[i] < n,
            decreases n - p,
        {
            let ghost before = out@.to_set();
            if bits[p] {
                let st = self.states.get(p);
                let list: Option<&Vec<StateId>> = match st.next(c) {
                    Some(v) => if v.len() > 0 {
                        Some(v)
                    } else {
                        st.next(WILDCARD)
                    },
                    None => st.next(WILDCARD),
                };
                let ghost tset = m_wild_targets(m, p, c);
                proof {
                    let exact = Set::new(|q: StateId| m[p as int].1.contains((c, q)));
                    assert(m[p as int].1 == self@[p as int].edge_set());
                    assert forall|q: StateId| exact.contains(q) <==> self@[p as int].targets(c).contains(q) by {}
                    assert forall|q: StateId| Set::new(|q: StateId| m[p as int].1.contains((WILDCARD, q))).contains(q) <==> self@[p as int].targets(WILDCARD).contains(q) by {}
                    if self@[p as int].targets(c).len() > 0 {
                        assert(exact.contains(self@[p as int].targets(c)[0]));
                    } else {
                        assert(exact =~= Set::<StateId>::empty());
                    }
                }
                match list {
                    Some(v) => {
                        proof {
                            assert forall|q: StateId| v@.contains(q) <==> tset.contains(q) by {}
                        }
                        let mut j: usize = 0;
                        proof {
                            assert(v@.subrange(0, 0).to_set() =~= Set::<StateId>::empty());
                            assert(out@.to_set() =~= before.union(v@.subrange(0, 0).to_set()));
                        }
                        while j < v.len()
                            invariant
                                self.wf(),
                                n == self.n(),
                                p < n,
                                forall|q: StateId| v@.contains(q) ==> q < n,
                                j <= v@.len(),
                                out@.to_set() == before.union(v@.subrange(0, j as int).to_set()),
                                forall|i: int| 0 <= i < out@.len() ==> out@[i] < n,
                            decreases v@.len() - j,
                        {
                            let t = v[j];
                            proof {
                                assert(v@.contains(t));
                                out@.lemma_push_to_set_commute(t);
                                v@.subrange(0, j as int).lemma_push_to_set_commute(t);
                                assert(v@.subrange(0, j as int + 1) =~= v@.subrange(0, j as int).push(t));
                            }
                            out.push(t);
                            proof {
                                assert(out@.to_set() =~= before.union(v@.subrange(0, j as int + 1).to_set()));
                            }
                            j = j + 1;
                        }
                        proof {
                            assert(v@.subrange(0, v@.len() as int) =~= v@);
                            assert(out@.to_set() =~= before.union(tset));
                        }
                    },
                    None => {
                        proof {
                            assert(tset =~= Set::<StateId>::empty());
                            assert(out@.to_set() =~= before.union(tset));
                        }
                    },
                }
                proof {
                    assert forall|q: StateId| out@.to_set().contains(q) <==> Set::new(|q: StateId| exists|a: StateId| a < p + 1 && bits@[a as int] && #[trigger] m_wild_targets(m, a, c).contains(q)).contains(q) by {
                        if Set::new(|q: StateId| exists|a: StateId| a < p + 1 && bits@[a as int] && #[trigger] m_wild_targets(m, a, c).contains(q)).contains(q) {
                            let a = choose|a: StateId| a < p + 1 && bits@[a as int] && #[trigger] m_wild_targets(m, a, c).contains(q);
                            if a < p {
                                assert(before.contains(q));
                            }
                        }
                        if out@.to_set().contains(q) {
                            if tset.contains(q) {
                                assert(m_wild_targets(m, p, c).contains(q));
                            } else {
                                assert(before.contains(q));
                                let a = choose|a: StateId| a < p && bits@[a as int] && #[trigger] m_wild_targets(m, a, c).contains(q);
                                assert(a < p + 1);
                            }
                        }
                    }
                    assert(out@.to_set() =~= Set::new(|q: StateId| exists|a: StateId| a < p + 1 && bits@[a as int] && #[trigger] m_wild_targets(m, a, c).contains(q)));
                }
            } else {
                proof {
                    assert forall|q: StateId| Set::new(|q: StateId| exists|a: StateId| a < p + 1 && bits@[a as int] && #[trigger] m_wild_targets(m, a, c).contains(q)).contains(q) implies before.contains(q) by {
                        let a = choose|a: StateId| a < p + 1 && bits@[a as int] && #[trigger] m_wild_targets(m, a, c).contains(q);
                    }
                    assert(out@.to_set() =~= Set::new(|q: StateId| exists|a: StateId| a < p + 1 && bits@[a as int] && #[trigger] m_wild_targets(m, a, c).contains(q)));
                }
            }
            p = p + 1;
        }
        proof {
            assert forall|q: StateId| m_wild_step(m, bits_set(bits@), c).contains(q) implies out@.to_set().contains(q) by {
                let a = choose|a: StateId| bits_set(bits@).contains(a) && a < m.len() && #[trigger] m_wild_targets(m, a, c).contains(q);
            }
            assert forall|q: StateId| out@.to_set().contains(q) implies m_wild_step(m, bits_set(bits@), c).contains(q) by {
                let a = choose|a: StateId| a < n && bits@[a as int] && #[trigger] m_wild_targets(m, a, c).contains(q);
                assert(bits_set(bits@).contains(a));
            }
            assert(out@.to_set() =~= m_wild_step(m, bits_set(bits@), c));
        }
        out
    }

    /// Whether reading `word` from `start` can end in an accepting state,
    /// where a state without an edge for a symbol follows its wildcard
    /// edges instead.
    pub fn matches_from(&self, start: StateId, word: &Vec<char>) -> (r: bool)
        requires
            self.wf(),
            start < self.n(),
        ensures
            r == m_wild_accepts(self.model(), start, word@),
    {
        let ghost m = self.model();
        let mut first: Vec<StateId> = Vec::new();
        first.push(start);
        proof {
            assert(first@ =~= Seq::<StateId>::empty().push(start));
            Seq::<StateId>::empty().lemma_push_to_set_commute(start);
            assert(Seq::<StateId>::empty().to_set() =~= Set::<StateId>::empty());
            assert(first@.to_set() =~= set![start]);
            self.lemma_closure_model(set![start]);
            assert(word@.subrange(0, 0) =~= Seq::<char>::empty());
        }
        let mut current = self.closure_bits(&first);
        let mut i: usize = 0;
        while i < word.len()
            invariant
                self.wf(),
                m == self.model(),
                i <= word@.len(),
                current@.len() == self.n(),
                bits_set(current@) == m_wild_run(m, start, word@.subrange(0, i as int)),
            decreases word@.len() - i,
        {
            let moved = self.wild_step_targets(&current, word[i]);
            current = self.closure_bits(&moved);
            proof {
                self.lemma_closure_model(moved@.to_set());
                let w = word@.subrange(0, i + 1);
                assert(w.drop_last() =~= word@.subrange(0, i as int));
                assert(w.last() == word@[i as int]);
            }
            i = i + 1;
        }
        proof {
            assert(word@.subrange(0, word@.len() as int) =~= word@);
        }
        self.any_accepting(&current)
    }

    /// The state with id `index`.
    pub fn state(&self, index: StateId) -> (r: &State)
        requires
            index < self.n(),
        ensures
            *r == self@[index as int],
    {
        self.states.get(index)
    }

    pub fn num_states(&self) -> (r: usize)
        ensures
            r == self.n(),
    {
        self.states.len()
    }

    /// The state with id `index`, for editing in place.
    pub fn state_mut(&mut self, index: StateId) -> (r: &mut State)
        requires
            index < old(self).n(),
        ensures
            *r == old(self)@[index as int],
            final(self)@ == old(self)@.update(index as int, *final(r)),
    {
        self.states.get_mut(index)
    }

    /// All states, in id order.
    pub fn states(&self) -> (r: &[State])
        ensures
            r@ == self@,
    {
        self.states.as_slice()
    }

    /// Whether `state` accepts.
    pub fn accepting(&self, state: StateId) -> (r: Result<bool, FsmError>)
        ensures
            r is Err <==> state >= self.n(),
            r is Err ==> r == Err::<bool, FsmError>(FsmError::InvalidStateId),
            r matches Ok(a) ==> a == self@[state as int].accepting,
    {
        if state >= self.states.len() {
            return Err(FsmError::InvalidStateId);
        }
        Ok(self.states.get(state).accepting)
    }

    /// Targets of the edges labelled `symbol` out of `state`, possibly none.
    pub fn next(&self, state: StateId, symbol: char) -> (r: Result<Vec<StateId>, FsmError>)
        ensures
            r is Err <==> state >= self.n(),
            r is Err ==> r == Err::<Vec<StateId>, FsmError>(FsmError::InvalidStateId),
            r matches Ok(v) ==> v@ == self@[state as int].targets(symbol),
    {
        if state >= self.states.len() {
            return Err(FsmError::InvalidStateId);
        }
        match self.states.get(state).next(symbol) {
            Some(v) => Ok(copy_ids(v)),
            None => Ok(Vec::new()),
        }
    }

    /// Targets of the epsilon edges out of `state`.
    pub fn next_epsilon(&self, state: StateId) -> (r: Result<Vec<StateId>, FsmError>)
        ensures
            r is Err <==> state >= self.n(),
            r is Err ==> r == Err::<Vec<StateId>, FsmError>(FsmError::InvalidStateId),
            r matches Ok(v) ==> v@ == self@[state as int].eps(),
    {
        if state >= self.states.len() {
            return Err(FsmError::InvalidStateId);
        }
        Ok(copy_ids(self.states.get(state).next_epsilon()))
    }

    /// `state` and every state its epsilon edges reach, in increasing order.
    pub fn epsilon_closure(&self, state: StateId) -> (r: Result<Vec<StateId>, FsmError>)
        requires
            self.wf(),
        ensures
            r is Err <==> state >= self.n(),
            r is Err ==> r == Err::<Vec<StateId>, FsmError>(FsmError::InvalidStateId),
            r matches Ok(v) ==> {
                &&& v@.to_set() == self.closure(set![state])
                &&& forall|i: int, j: int| 0 <= i < j < v@.len() ==> v@[i] < v@[j]
            },
    {
        if state >= self.states.len() {
            return Err(FsmError::InvalidStateId);
        }
        let mut start: Vec<StateId> = Vec::new();
        start.push(state);
        proof {
            assert(start@ =~= Seq::<StateId>::empty().push(state));
            Seq::<StateId>::empty().lemma_push_to_set_commute(state);
            assert(Seq::<StateId>::empty().to_set() =~= Set::<StateId>::empty());
            assert(start@.to_set() =~= set![state]);
        }
        let bits = self.closure_bits(&start);
        Ok(set_ids(&bits))
    }

    /// The states of `states` and every state their epsilon edges reach, in
    /// increasing order.
    pub fn multi_epsilon_closure(&self, states: &Vec<StateId>) -> (r: Result<Vec<StateId>, FsmError>)
        requires
            self.wf(),
        ensures
            r is Err <==> exists|i: int| 0 <= i < states@.len() && states@[i] >= self.n(),
            r is Err ==> r == Err::<Vec<StateId>, FsmError>(FsmError::InvalidStateId),
            r matches Ok(v) ==> {
                &&& v@.to_set() == self.closure(states@.to_set())
                &&& forall|i: int, j: int| 0 <= i < j < v@.len() ==> v@[i] < v@[j]
            },
    {
        let n = self.states.len();
        let mut i: usize = 0;
        while i < states.len()
            invariant
                n == self.n(),
                i <= states@.len(),
                forall|j: int| 0 <= j < i ==> states@[j] < n,
            decreases states@.len() - i,
        {
            if states[i] >= n {
                return Err(FsmError::InvalidStateId);
            }
            i = i + 1;
        }
        let bits = self.closure_bits(states);
        Ok(set_ids(&bits))
    }

    /// The labelled edges of the automaton.
    pub open spec fn edge_triples(&self) -> Set<(StateId, char, StateId)> {
        Set::new(|t: (StateId, char, StateId)| t.0 < self.n() && self@[t.0 as int].targets(t.1).contains(t.2))
    }

    /// The epsilon edges of the automaton.
    pub open spec fn eps_pairs(&self) -> Set<(StateId, StateId)> {
        Set::new(|t: (StateId, StateId)| self.eps_edge(t.0, t.1))
    }

    /// Every labelled edge as a (from, symbol, to) triple, each once,
    /// grouped by source state in id order.
    pub fn transitions(&self) -> (r: Vec<(StateId, char, StateId)>)
        requires
            self.wf(),
        ensures
            r@.to_set() == self.edge_triples(),
            r@.no_duplicates(),
    {
        let n = self.states.len();
        let mut out: Vec<(StateId, char, StateId)> = Vec::new();
        let mut p: usize = 0;
        while p < n
            invariant
                self.wf(),
                n == self.n(),
                p <= n,
                out@.no_duplicates(),
                forall|i: int| 0 <= i < out@.len() ==> (#[trigger] out@[i]).0 < p && self.edge_triples().contains(out@[i]),
                forall|t: (StateId, char, StateId)| self.edge_triples().contains(t) && t.0 < p ==> out@.contains(t),
            decreases n - p,
        {
            let ts = self.states.get(p).transitions();
            let ghost l0 = out@.len();
            let mut j: usize = 0;
            while j < ts.len()
                invariant
                    self.wf(),
                    n == self.n(),
                    p < n,
                    ts@.to_set() == self@[p as int].edge_set(),
                    ts@.no_duplicates(),
                    j <= ts@.len(),
                    out@.len() == l0 + j,
                    out@.no_duplicates(),
                    forall|i: int| 0 <= i < l0 ==> (#[trigger] out@[i]).0 < p && self.edge_triples().contains(out@[i]),
                    forall|i: int| l0 <= i < out@.len() ==> #[trigger] out@[i] == (p, ts@[i - l0].0, ts@[i - l0].1),
                    forall|t: (StateId, char, StateId)| self.edge_triples().contains(t) && t.0 < p ==> out@.contains(t),
                decreases ts@.len() - j,
            {
                let (c, q) = ts[j];
                let ghost before = out@;
                proof {
                    assert(ts@.to_set().contains(ts@[j as int]));
                    assert forall|i: int| 0 <= i < before.len() implies before[i] != (p, c, q) by {
                        if i >= l0 {
                            assert(ts@[i - l0] != ts@[j as int]);
                        }
                    }
                }
                out.push((p, c, q));
                proof {
                    assert forall|t: (StateId, char, StateId)| self.edge_triples().contains(t) && t.0 < p implies out@.contains(t) by {
                        let i = choose|i: int| 0 <= i < before.len() && before[i] == t;
                        assert(out@[i] == t);
                    }
                    assert(out@.no_duplicates()) by {
                        assert forall|a: int, b: int| 0 <= a < out@.len() && 0 <= b < out@.len() && a != b implies out@[a] != out@[b] by {
                            if a < before.len() && b < before.len() {
                                assert(before[a] != before[b]);
                            } else if a < before.len() {
                                assert(before[a] != (p, c, q));
                            } else if b < before.len() {
                                assert(before[b] != (p, c, q));
                            }
                        }
                    }
                }
                j = j + 1;
            }
            proof {
                assert forall|i: int| 0 <= i < out@.len() implies (#[trigger] out@[i]).0 < p + 1 && self.edge_triples().contains(out@[i]) by {
                    if i >= l0 {
                        assert(ts@.to_set().contains(ts@[i - l0]));
                    }
                }
                assert forall|t: (StateId, char, StateId)| self.edge_triples().contains(t) && t.0 < p + 1 implies out@.contains(t) by {
                    if t.0 == p {
                        assert(self@[p as int].edge_set().contains((t.1, t.2)));
                        assert(ts@.to_set().contains((t.1, t.2)));
                        let k = choose|k: int| 0 <= k < ts@.len() && ts@[k] == (t.1, t.2);
                        assert(out@[l0 + k] == t);
                    }
                }
            }
            p = p + 1;
        }
        proof {
            assert(out@.to_set() =~= self.edge_triples());
        }
        out
    }

    /// Number of labelled edges.
    pub fn num_transitions(&self) -> (r: usize)
        requires
            self.wf(),
        ensures
            r == self.edge_triples().len(),
    {
        let t = self.transitions();
        proof {
            t@.unique_seq_to_set();
        }
        t.len()
    }

    /// Every epsilon edge as a (from, to) pair, each once, grouped by source
    /// state in id order.
    pub fn epsilon_transitions(&self) -> (r: Vec<(StateId, StateId)>)
        requires
            self.wf(),
        ensures
            r@.to_set() == self.eps_pairs(),
            r@.no_duplicates(),
    {
        let n = self.states.len();
        let mut out: Vec<(StateId, StateId)> = Vec::new();
        let mut p: usize = 0;
        while p < n
            invariant
                self.wf(),
                n == self.n(),
                p <= n,
                out@.no_duplicates(),
                forall|i: int| 0 <= i < out@.len() ==> (#[trigger] out@[i]).0 < p && self.eps_pairs().contains(out@[i]),
                forall|t: (StateId, StateId)| self.eps_pairs().contains(t) && t.0 < p ==> out@.contains(t),
            decreases n - p,
        {
            let ts = self.states.get(p).next_epsilon();
            let ghost l0 = out@.len();
            let mut j: usize = 0;
            proof {
                assert(self@[p as int].wf());
            }
            while j < ts.len()
                invariant
                    self.wf(),
                    n == self.n(),
                    p < n,
                    ts@ == self@[p as int].eps(),
                    ts@.no_duplicates(),
                    j <= ts@.len(),
                    out@.len() == l0 + j,
                    out@.no_duplicates(),
                    forall|i: int| 0 <= i < l0 ==> (#[trigger] out@[i]).0 < p && self.eps_pairs().contains(out@[i]),
                    forall|i: int| l0 <= i < out@.len() ==> #[trigger] out@[i] == (p, ts@[i - l0]),
                    forall|t: (StateId, StateId)| self.eps_pairs().contains(t) && t.0 < p ==> out@.contains(t),
                decreases ts@.len() - j,
            {
                let q = ts[j];
                let ghost before = out@;
                proof {
                    assert forall|i: int| 0 <= i < before.len() implies before[i] != (p, q) by {
                        if i >= l0 {
                            assert(ts@[i - l0] != ts@[j as int]);
                        }
                    }
                }
                out.push((p, q));
                proof {
                    assert forall|t: (StateId, StateId)| self.eps_pairs().contains(t) && t.0 < p implies out@.contains(t) by {
                        let i = choose|i: int| 0 <= i < before.len() && before[i] == t;
                        assert(out@[i] == t);
                    }
                    assert(out@.no_duplicates()) by {
                        assert forall|a: int, b: int| 0 <= a < out@.len() && 0 <= b < out@.len() && a != b implies out@[a] != out@[b] by {
                            if a < before.len() && b < before.len() {
                                assert(before[a] != before[b]);
                            } else if a < before.len() {
                                assert(before[a] != (p, q));
                            } else if b < before.len() {
                                assert(before[b] != (p, q));
                            }
                        }
                    }
                }
                j = j + 1;
            }
            proof {
                assert forall|i: int| 0 <= i < out@.len() implies (#[trigger] out@[i]).0 < p + 1 && self.eps_pairs().contains(out@[i]) by {
                    if i >= l0 {
                        assert(self@[p as int].eps().contains(ts@[i - l0]));
                    }
                }
                assert forall|t: (StateId, StateId)| self.eps_pairs().contains(t) && t.0 < p + 1 implies out@.contains(t) by {
                    if t.0 == p {
                        let k = choose|k: int| 0 <= k < ts@.len() && ts@[k] == t.1;
                        assert(out@[l0 + k] == t);
                    }
                }
            }
            p = p + 1;
        }
        proof {
            assert(out@.to_set() =~= self.eps_pairs());
        }
        out
    }

    /// Number of epsilon edges.
    pub fn num_epsilon_transitions(&self) -> (r: usize)
        requires
            self.wf(),
        ensures
            r == self.eps_pairs().len(),
    {
        let t = self.epsilon_transitions();
        proof {
            t@.unique_seq_to_set();
        }
        t.len()
    }
}

impl Default for Nfa {
    fn default() -> (r: Self)
        ensures
            r.wf(),
            r.n() == 0,
    {
        Nfa::new()
    }
}

} // verus!
