use std::collections::HashSet;
use std::hash::Hash;

use vstd::prelude::*;
use vstd::std_specs::hash::obeys_key_model;

verus! {

broadcast use vstd::std_specs::hash::group_hash_axioms;

/// What is left of `stack` once the visited items on its top are popped.
pub open spec fn skip_visited<T>(stack: Seq<T>, visited: Set<T>) -> Seq<T>
    decreases stack.len(),
{
    if stack.len() > 0 && visited.contains(stack.last()) {
        skip_visited(stack.drop_last(), visited)
    } else {
        stack
    }
}

/// Depth-first traversal with an explicit stack and a visited set, so that
/// cyclic graphs terminate and each item is produced once.
pub struct Dfs<T, F> {
    stack: Vec<T>,
    visited: HashSet<T>,
    neighbors: F,
}

/// Traversal from `start`.
pub fn dfs<T, F>(start: T, neighbors: F) -> (r: Dfs<T, F>) where T: Hash + Eq + Copy, F: Fn(T) -> Vec<T>
    ensures
        r.pending() == seq![start],
        r.visited_items() == Set::<T>::empty(),
        r.neighbors_fn() == neighbors,
{
    let mut stack: Vec<T> = Vec::new();
    stack.push(start);
    proof {
        assert(stack@ =~= seq![start]);
    }
    Dfs::new(stack, neighbors)
}

/// Traversal from the items of `start`, the last one first.
pub fn multi_dfs<T, F>(start: Vec<T>, neighbors: F) -> (r: Dfs<T, F>) where T: Hash + Eq + Copy, F: Fn(T) -> Vec<T>
    ensures
        r.pending() == start@,
        r.visited_items() == Set::<T>::empty(),
        r.neighbors_fn() == neighbors,
{
    Dfs::new(start, neighbors)
}

impl<T, F> Dfs<T, F> where T: Hash + Eq + Copy, F: Fn(T) -> Vec<T> {
    /// Items still on the stack, the next candidate last.
    pub closed spec fn pending(&self) -> Seq<T> {
        self.stack@
    }

    /// Items already produced.
    pub closed spec fn visited_items(&self) -> Set<T> {
        self.visited@
    }

    /// The successor function.
    pub closed spec fn neighbors_fn(&self) -> F {
        self.neighbors
    }

    pub fn new(stack: Vec<T>, neighbors: F) -> (r: Self)
        ensures
            r.pending() == stack@,
            r.visited_items() == Set::<T>::empty(),
            r.neighbors_fn() == neighbors,
    {
        Dfs { stack, visited: HashSet::new(), neighbors }
    }

    /// The next unvisited item from the top of the stack, after which its
    /// successors are pushed in order; `None` once the stack runs out.
    pub fn next(&mut self) -> (r: Option<T>)
        requires
            obeys_key_model::<T>(),
            forall|t: T| old(self).neighbors_fn().requires((t,)),
        ensures
            final(self).neighbors_fn() == old(self).neighbors_fn(),
            ({
                let s = skip_visited(old(self).pending(), old(self).visited_items());
                if s.len() == 0 {
                    &&& r is None
                    &&& final(self).pending() == s
                    &&& final(self).visited_items() == old(self).visited_items()
                } else {
                    &&& r == Some(s.last())
                    &&& final(self).visited_items() == old(self).visited_items().insert(s.last())
                    &&& exists|nb: Vec<T>|
                        #[trigger] old(self).neighbors_fn().ensures((s.last(),), nb)
                            && final(self).pending() == s.drop_last() + nb@
                }
            }),
    {
        let ghost s = skip_visited(self.stack@, self.visited@);
        proof {
            assert forall|t: T| self.neighbors.requires((t,)) by {
                assert(old(self).neighbors_fn().requires((t,)));
            }
        }
        loop
            invariant
                obeys_key_model::<T>(),
                forall|t: T| self.neighbors.requires((t,)),
                self.neighbors == old(self).neighbors,
                self.visited@ == old(self).visited@,
                skip_visited(self.stack@, self.visited@) == s,
                s == skip_visited(old(self).stack@, old(self).visited@),
            decreases self.stack@.len(),
        {
            let ghost before = self.stack@;
            match self.stack.pop() {
                None => {
                    return None;
                },
                Some(state) => {
                    let ghost rest = self.stack@;
                    proof {
                        assert(before.last() == state);
                        assert(before.drop_last() =~= rest);
                    }
                    if self.visited.insert(state) {
                        proof {
                            assert(s == before);
                        }
                        let nb = (self.neighbors)(state);
                        let mut i: usize = 0;
                        while i < nb.len()
                            invariant
                                i <= nb@.len(),
                                self.stack@ == rest + nb@.subrange(0, i as int),
                                self.neighbors == old(self).neighbors,
                                self.visited@ == old(self).visited@.insert(state),
                                s == before,
                                state == s.last(),
                                rest == s.drop_last(),
                                self.neighbors.ensures((state,), nb),
                            decreases nb@.len() - i,
                        {
                            self.stack.push(nb[i]);
                            proof {
                                assert(self.stack@ =~= rest + nb@.subrange(0, i as int + 1));
                            }
                            i = i + 1;
                        }
                        proof {
                            assert(nb@.subrange(0, nb@.len() as int) =~= nb@);
                            assert(rest =~= s.drop_last());
                            assert(old(self).neighbors_fn().ensures((s.last(),), nb));
                        }
                        return Some(state);
                    } else {
                        proof {
                            assert(self.visited@ =~= old(self).visited@);
                            assert(skip_visited(before, self.visited@) == skip_visited(rest, self.visited@));
                        }
                    }
                },
            }
        }
    }
}

} // verus!
