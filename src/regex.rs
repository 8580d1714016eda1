use vstd::prelude::*;
use vstd::std_specs::iter::IteratorSpec;

use crate::error::FsmError;
use crate::nfa::{
    m_edge, m_eps, m_mark, m_push, m_wild_accepts, State, StateId, StateModel,
};

verus! {

broadcast use vstd::string::axiom_spec_iter, vstd::string::next_postcondition;

/// The sentinel that marks concatenation in a pattern once it is explicit.
pub const CONCAT: char = '\0';

/// Whether `c` is a postfix repetition operator.
pub open spec fn is_postfix_op(c: char) -> bool {
    c == '*' || c == '?' || c == '+'
}

/// Whether a concatenation sentinel goes between `prev` and `token`.
pub open spec fn needs_concat(prev: char, token: char) -> bool {
    !(prev == '(' || prev == '|') && !(is_postfix_op(token) || token == '|' || token == ')')
}

/// The pattern with a concatenation sentinel between adjacent tokens that
/// need one.
pub open spec fn with_concat(p: Seq<char>) -> Seq<char>
    decreases p.len(),
{
    if p.len() <= 1 {
        p
    } else {
        let rest = with_concat(p.drop_last());
        if needs_concat(p[p.len() - 2], p.last()) {
            rest.push(CONCAT).push(p.last())
        } else {
            rest.push(p.last())
        }
    }
}

/// Whether `c` is a binary or postfix operator.
pub open spec fn is_operator(c: char) -> bool {
    c == CONCAT || c == '|' || is_postfix_op(c)
}

/// Binding strength: alternation lowest, concatenation next, repetition
/// highest.
pub open spec fn precedence(c: char) -> int {
    if c == '|' {
        0
    } else if c == CONCAT {
        1
    } else {
        2
    }
}

/// Moves operators from the top of `stack` to `out` while they bind at
/// least as strongly as `prec`, stopping at an opening parenthesis.
pub open spec fn pop_while(out: Seq<char>, stack: Seq<char>, prec: int) -> (Seq<char>, Seq<char>)
    decreases stack.len(),
{
    if stack.len() > 0 && stack.last() != '(' && precedence(stack.last()) >= prec {
        pop_while(out.push(stack.last()), stack.drop_last(), prec)
    } else {
        (out, stack)
    }
}

/// One token of the shunting-yard conversion on (output, operator stack).
pub open spec fn shunt_step(st: (Seq<char>, Seq<char>), t: char) -> (Seq<char>, Seq<char>) {
    if t == '(' {
        (st.0, st.1.push(t))
    } else if t == ')' {
        let r = pop_while(st.0, st.1, -1);
        (r.0, if r.1.len() > 0 { r.1.drop_last() } else { r.1 })
    } else if is_operator(t) {
        let r = pop_while(st.0, st.1, precedence(t));
        (r.0, r.1.push(t))
    } else {
        (st.0.push(t), st.1)
    }
}

/// Output and operator stack after the tokens of `p`.
pub open spec fn shunt(p: Seq<char>) -> (Seq<char>, Seq<char>)
    decreases p.len(),
{
    if p.len() == 0 {
        (Seq::empty(), Seq::empty())
    } else {
        shunt_step(shunt(p.drop_last()), p.last())
    }
}

/// `out` followed by the operators left on `stack`, top first.
pub open spec fn flush(out: Seq<char>, stack: Seq<char>) -> Seq<char>
    decreases stack.len(),
{
    if stack.len() == 0 {
        out
    } else {
        flush(out.push(stack.last()), stack.drop_last())
    }
}

/// The pattern in postfix order.
pub open spec fn postfix(p: Seq<char>) -> Seq<char> {
    flush(shunt(p).0, shunt(p).1)
}

/// The characters of `s`.
pub fn chars_of(s: &str) -> (r: Vec<char>)
    ensures
        r@ == s@,
{
    let mut it = s.chars();
    let mut r: Vec<char> = Vec::new();
    loop
        invariant
            r@ + it.remaining() == s@,
            it.decrease() is Some,
        ensures
            r@ == s@,
        decreases it.decrease()->0,
    {
        match it.next() {
            Some(c) => {
                r.push(c);
                proof {
                    assert(r@ + it.remaining() =~= s@);
                }
            },
            None => {
                proof {
                    assert(r@ =~= s@);
                }
                break;
            },
        }
    }
    r
}

/// Relies on `FromIterator<char>` for `String`: the string of the given
/// characters, in order.
#[verifier::external_body]
fn string_of(v: &Vec<char>) -> (r: String)
    ensures
        r@ == v@,
{
    v.iter().collect()
}

/// Inserts the concatenation sentinel between adjacent tokens, except after
/// `(` or `|` and before `)`, `|` or a repetition operator.
pub fn insert_explicit_concat_operator(pattern: &str) -> (r: String)
    ensures
        r@ == with_concat(pattern@),
{
    let p = chars_of(pattern);
    let mut out: Vec<char> = Vec::new();
    let mut i: usize = 0;
    proof {
        assert(p@.subrange(0, 0) =~= Seq::<char>::empty());
    }
    while i < p.len()
        invariant
            p@ == pattern@,
            i <= p@.len(),
            out@ == with_concat(p@.subrange(0, i as int)),
        decreases p@.len() - i,
    {
        let token = p[i];
        if i > 0 {
            let prev = p[i - 1];
            if !(prev == '(' || prev == '|') && !(token == '*' || token == '?' || token == '+' || token == '|' || token == ')') {
                out.push(CONCAT);
            }
        }
        out.push(token);
        proof {
            let w = p@.subrange(0, i + 1);
            assert(w.drop_last() =~= p@.subrange(0, i as int));
            if i == 0 {
                assert(out@ =~= w);
            }
        }
        i = i + 1;
    }
    proof {
        assert(p@.subrange(0, p@.len() as int) =~= p@);
    }
    string_of(&out)
}

fn precedence_of(c: char) -> (r: i8)
    ensures
        r as int == precedence(c),
{
    if c == '|' {
        0
    } else if c == CONCAT {
        1
    } else {
        2
    }
}

/// Moves operators from `stack` to `out` as `pop_while` does.
fn pop_operators(out: &mut Vec<char>, stack: &mut Vec<char>, prec: i8)
    ensures
        (final(out)@, final(stack)@) == pop_while(old(out)@, old(stack)@, prec as int),
{
    while stack.len() > 0 && stack[stack.len() - 1] != '(' && precedence_of(stack[stack.len() - 1]) >= prec
        invariant
            pop_while(out@, stack@, prec as int) == pop_while(old(out)@, old(stack)@, prec as int),
        decreases stack@.len(),
    {
        let top = stack.pop().unwrap();
        out.push(top);
    }
}

/// Converts a pattern with explicit concatenation to postfix order by the
/// shunting-yard algorithm: alternation binds weakest, then concatenation,
/// then repetition; equal strengths associate to the left.
pub fn to_postfix(pattern: &str) -> (r: String)
    ensures
        r@ == postfix(pattern@),
{
    let p = chars_of(pattern);
    let mut output: Vec<char> = Vec::new();
    let mut operator_stack: Vec<char> = Vec::new();
    let mut i: usize = 0;
    proof {
        assert(p@.subrange(0, 0) =~= Seq::<char>::empty());
    }
    while i < p.len()
        invariant
            p@ == pattern@,
            i <= p@.len(),
            (output@, operator_stack@) == shunt(p@.subrange(0, i as int)),
        decreases p@.len() - i,
    {
        let token = p[i];
        if token == '(' {
            operator_stack.push(token);
        } else if token == ')' {
            pop_operators(&mut output, &mut operator_stack, -1);
            if operator_stack.len() > 0 {
                operator_stack.pop();
            }
        } else if token == CONCAT || token == '|' || token == '*' || token == '?' || token == '+' {
            pop_operators(&mut output, &mut operator_stack, precedence_of(token));
            operator_stack.push(token);
        } else {
            output.push(token);
        }
        proof {
            let w = p@.subrange(0, i + 1);
            assert(w.drop_last() =~= p@.subrange(0, i as int));
        }
        i = i + 1;
    }
    proof {
        assert(p@.subrange(0, p@.len() as int) =~= p@);
    }
    while operator_stack.len() > 0
        invariant
            flush(output@, operator_stack@) == postfix(pattern@),
        decreases operator_stack@.len(),
    {
        let top = operator_stack.pop().unwrap();
        output.push(top);
    }
    string_of(&output)
}


/// Net count of opening over closing parentheses.
pub open spec fn depth(p: Seq<char>) -> int
    decreases p.len(),
{
    if p.len() == 0 {
        0
    } else {
        depth(p.drop_last()) + if p.last() == '(' {
            1int
        } else if p.last() == ')' {
            -1int
        } else {
            0int
        }
    }
}

/// Every `)` closes an earlier `(` and every `(` is closed.
pub open spec fn balanced(p: Seq<char>) -> bool {
    depth(p) == 0 && forall|i: int| 0 <= i <= p.len() ==> depth(#[trigger] p.subrange(0, i)) >= 0
}

/// Whether the parentheses of `p` are balanced.
pub fn is_balanced(p: &Vec<char>) -> (r: bool)
    ensures
        r == balanced(p@),
{
    let mut d: usize = 0;
    let mut i: usize = 0;
    proof {
        assert(p@.subrange(0, 0) =~= Seq::<char>::empty());
    }
    while i < p.len()
        invariant
            i <= p@.len(),
            d <= i,
            d as int == depth(p@.subrange(0, i as int)),
            forall|j: int| 0 <= j <= i ==> depth(#[trigger] p@.subrange(0, j)) >= 0,
        decreases p@.len() - i,
    {
        proof {
            let w = p@.subrange(0, i + 1);
            assert(w.drop_last() =~= p@.subrange(0, i as int));
        }
        if p[i] == '(' {
            d = d + 1;
        } else if p[i] == ')' {
            if d == 0 {
                assert(depth(p@.subrange(0, i + 1)) < 0);
                return false;
            }
            d = d - 1;
        }
        i = i + 1;
    }
    proof {
        assert(p@.subrange(0, p@.len() as int) =~= p@);
    }
    d == 0
}

/// A sub-automaton under construction: its entry state and its one
/// accepting exit state.
#[derive(Debug, Clone, Copy, PartialEq, Eq, Structural)]
pub struct Fragment {
    pub start: StateId,
    pub end: StateId,
}

/// A literal: a fresh entry, a fresh accepting exit, and an edge `c` between.
pub open spec fn m_symbol(m: Seq<StateModel>, c: char) -> (Seq<StateModel>, Fragment) {
    let s = m.len() as StateId;
    let e = (m.len() + 1) as StateId;
    (m_edge(m_push(m_push(m, false), true), s, c, e), Fragment { start: s, end: e })
}

/// `f1` then `f2`: the exit of `f1` leads to the entry of `f2` and stops
/// accepting.
pub open spec fn m_concat(m: Seq<StateModel>, f1: Fragment, f2: Fragment) -> (Seq<StateModel>, Fragment) {
    (m_mark(m_eps(m, f1.end, f2.start), f1.end, false), Fragment { start: f1.start, end: f2.end })
}

/// `f1` or `f2`: a fresh entry leads to both entries, both exits lead to a
/// fresh accepting exit and stop accepting.
pub open spec fn m_union(m: Seq<StateModel>, f1: Fragment, f2: Fragment) -> (Seq<StateModel>, Fragment) {
    let s = m.len() as StateId;
    let e = (m.len() + 1) as StateId;
    let m1 = m_push(m_push(m, false), true);
    let m2 = m_eps(m_eps(m1, s, f1.start), s, f2.start);
    let m3 = m_eps(m_eps(m2, f1.end, e), f2.end, e);
    (m_mark(m_mark(m3, f1.end, false), f2.end, false), Fragment { start: s, end: e })
}

/// Zero or more `f`: a fresh entry leads to the entry of `f` and to a fresh
/// accepting exit; the exit of `f` leads back to its entry and on to the
/// new exit, and stops accepting.
pub open spec fn m_star(m: Seq<StateModel>, f: Fragment) -> (Seq<StateModel>, Fragment) {
    let s = m.len() as StateId;
    let e = (m.len() + 1) as StateId;
    let m1 = m_push(m_push(m, false), true);
    let m2 = m_eps(m_eps(m1, s, f.start), s, e);
    let m3 = m_eps(m_eps(m2, f.end, f.start), f.end, e);
    (m_mark(m3, f.end, false), Fragment { start: s, end: e })
}

/// Two more states still have ids.
pub open spec fn room(m: Seq<StateModel>) -> bool {
    m.len() + 2 < usize::MAX
}

/// Evaluates the postfix tokens `post` on a stack of fragments; `None` when
/// an operator lacks operands or ids run out.
pub open spec fn m_eval(m: Seq<StateModel>, post: Seq<char>, stack: Seq<Fragment>) -> Option<(Seq<StateModel>, Seq<Fragment>)>
    decreases post.len(),
{
    if post.len() == 0 {
        Some((m, stack))
    } else {
        let t = post[0];
        let rest = post.drop_first();
        if t == CONCAT || t == '|' {
            if stack.len() < 2 {
                None
            } else {
                let below = stack.subrange(0, stack.len() - 2);
                if t == CONCAT {
                    let r = m_concat(m, stack[stack.len() - 2], stack.last());
                    m_eval(r.0, rest, below.push(r.1))
                } else if !room(m) {
                    None
                } else {
                    let r = m_union(m, stack[stack.len() - 2], stack.last());
                    m_eval(r.0, rest, below.push(r.1))
                }
            }
        } else if t == '*' {
            if stack.len() < 1 || !room(m) {
                None
            } else {
                let r = m_star(m, stack.last());
                m_eval(r.0, rest, stack.drop_last().push(r.1))
            }
        } else if !room(m) {
            None
        } else {
            let r = m_symbol(m, t);
            m_eval(r.0, rest, stack.push(r.1))
        }
    }
}

/// Concatenates `acc` with the fragments of `rest`, left to right.
pub open spec fn m_fold(m: Seq<StateModel>, acc: Fragment, rest: Seq<Fragment>) -> (Seq<StateModel>, Fragment)
    decreases rest.len(),
{
    if rest.len() == 0 {
        (m, acc)
    } else {
        let r = m_concat(m, acc, rest[0]);
        m_fold(r.0, r.1, rest.drop_first())
    }
}

/// The automaton and fragment that compiling `pattern` onto `m` yields, or
/// `None` for a pattern that is empty, unbalanced or malformed.
pub open spec fn m_parse(m: Seq<StateModel>, pattern: Seq<char>) -> Option<(Seq<StateModel>, Fragment)> {
    if pattern.len() == 0 || !balanced(pattern) {
        None
    } else {
        match m_eval(m, postfix(with_concat(pattern)), Seq::empty()) {
            Some(r) => if r.1.len() == 0 {
                None
            } else {
                Some(m_fold(r.0, r.1[0], r.1.drop_first()))
            },
            None => None,
        }
    }
}

/// The accepting states of `m` numbered from `base` on.
pub open spec fn accepting_from(m: Seq<StateModel>, base: nat) -> Set<StateId> {
    Set::new(|q: StateId| base <= q < m.len() && m[q as int].0)
}

/// The exits of the fragments on `st`.
pub open spec fn exits(st: Seq<Fragment>) -> Set<StateId> {
    Set::new(|q: StateId| exists|k: int| 0 <= k < st.len() && (#[trigger] st[k]).end == q)
}

/// The fragments on `st` lie in the states numbered from `base` on, their
/// exits increase up the stack, and those exits are exactly the accepting
/// states from `base` on.
pub open spec fn frontier_ok(m: Seq<StateModel>, base: nat, st: Seq<Fragment>) -> bool {
    &&& base <= m.len()
    &&& forall|k: int| 0 <= k < st.len() ==> {
        &&& base <= (#[trigger] st[k]).start < m.len()
        &&& base <= st[k].end < m.len()
    }
    &&& forall|a: int, b: int| 0 <= a < b < st.len() ==> (#[trigger] st[a]).end < (#[trigger] st[b]).end
    &&& accepting_from(m, base) == exits(st)
}

proof fn lemma_frontier_concat(m: Seq<StateModel>, base: nat, below: Seq<Fragment>, f1: Fragment, f2: Fragment)
    requires
        frontier_ok(m, base, below.push(f1).push(f2)),
    ensures
        frontier_ok(m_concat(m, f1, f2).0, base, below.push(m_concat(m, f1, f2).1)),
{
    let st = below.push(f1).push(f2);
    let r = m_concat(m, f1, f2);
    let ns = below.push(r.1);
    assert(st[st.len() - 2] == f1 && st[st.len() - 1] == f2);
    assert forall|k: int| 0 <= k < ns.len() implies base <= (#[trigger] ns[k]).start < r.0.len() && base <= ns[k].end < r.0.len() by {
        if k < below.len() {
            assert(ns[k] == st[k]);
        }
    }
    assert forall|a: int, b: int| 0 <= a < b < ns.len() implies (#[trigger] ns[a]).end < (#[trigger] ns[b]).end by {
        assert(ns[a] == st[a]);
        if b < below.len() {
            assert(ns[b] == st[b]);
        } else {
            assert(st[a].end < st[st.len() - 1].end);
        }
    }
    assert forall|q: StateId| accepting_from(r.0, base).contains(q) <==> exits(ns).contains(q) by {
        assert(accepting_from(m, base).contains(q) == exits(st).contains(q));
        if exits(st).contains(q) {
            let k = choose|k: int| 0 <= k < st.len() && (#[trigger] st[k]).end == q;
            if k < below.len() {
                assert(ns[k] == st[k]);
                assert(st[k].end < st[st.len() - 2].end);
            } else if k == st.len() - 1 {
                assert(ns[ns.len() - 1].end == q);
            }
        }
        if exits(ns).contains(q) {
            let k = choose|k: int| 0 <= k < ns.len() && (#[trigger] ns[k]).end == q;
            if k < below.len() {
                assert(st[k] == ns[k]);
                assert(st[k].end < st[st.len() - 2].end);
            } else {
                assert(st[st.len() - 1].end == q);
                assert(st[st.len() - 2].end < st[st.len() - 1].end);
            }
        }
    }
    assert(accepting_from(r.0, base) =~= exits(ns));
}

/// Accepting flags after pushing two states (the second accepting), adding
/// edges, and clearing the flags of `x` and `y`.
proof fn lemma_flags_after_build(m: Seq<StateModel>, out: Seq<StateModel>, base: nat, x: StateId, y: StateId)
    requires
        base <= m.len(),
        x < m.len(),
        y < m.len(),
        out.len() == m.len() + 2,
        forall|q: int| 0 <= q < out.len() ==> #[trigger] out[q].0 == if q == m.len() + 1 {
            true
        } else if q == m.len() || q == x || q == y {
            false
        } else {
            m[q].0
        },
    ensures
        forall|q: StateId| #[trigger] accepting_from(out, base).contains(q) <==> (q == m.len() + 1 || (accepting_from(m, base).contains(q) && q != x && q != y)),
{
}

proof fn lemma_frontier_union(m: Seq<StateModel>, base: nat, below: Seq<Fragment>, f1: Fragment, f2: Fragment)
    requires
        frontier_ok(m, base, below.push(f1).push(f2)),
        room(m),
    ensures
        frontier_ok(m_union(m, f1, f2).0, base, below.push(m_union(m, f1, f2).1)),
{
    let st = below.push(f1).push(f2);
    let r = m_union(m, f1, f2);
    let ns = below.push(r.1);
    assert(st[st.len() - 2] == f1 && st[st.len() - 1] == f2);
    let s0 = m.len() as StateId;
    let e0 = (m.len() + 1) as StateId;
    let m1 = m_push(m_push(m, false), true);
    let m2 = m_eps(m_eps(m1, s0, f1.start), s0, f2.start);
    let m3 = m_eps(m_eps(m2, f1.end, e0), f2.end, e0);
    assert forall|q: int| 0 <= q < m1.len() implies #[trigger] m1[q].0 == if q == m.len() + 1 { true } else if q == m.len() { false } else { m[q].0 } by {}
    assert(m3.len() == m1.len());
    assert forall|q: int| 0 <= q < m3.len() implies #[trigger] m3[q].0 == m1[q].0 by {
        assert(m2[q].0 == m1[q].0);
    }
    assert(r.0 == m_mark(m_mark(m3, f1.end, false), f2.end, false));
    assert forall|q: int| 0 <= q < r.0.len() implies #[trigger] r.0[q].0 == if q == m.len() + 1 { true } else if q == m.len() || q == f1.end || q == f2.end { false } else { m[q].0 } by {
        assert(m3[q].0 == m1[q].0);
    }
    lemma_flags_after_build(m, r.0, base, f1.end, f2.end);
    assert(r.0.len() == m.len() + 2);
    assert forall|k: int| 0 <= k < ns.len() implies base <= (#[trigger] ns[k]).start < r.0.len() && base <= ns[k].end < r.0.len() by {
        if k < below.len() {
            assert(ns[k] == st[k]);
        }
    }
    assert forall|a: int, b: int| 0 <= a < b < ns.len() implies (#[trigger] ns[a]).end < (#[trigger] ns[b]).end by {
        assert(ns[a] == st[a]);
        if b < below.len() {
            assert(ns[b] == st[b]);
        }
    }
    assert forall|q: StateId| accepting_from(r.0, base).contains(q) <==> exits(ns).contains(q) by {
        assert(accepting_from(r.0, base).contains(q) <==> (q == m.len() + 1 || (accepting_from(m, base).contains(q) && q != f1.end && q != f2.end)));
        assert(accepting_from(m, base).contains(q) == exits(st).contains(q));
        if q == m.len() + 1 {
            assert(ns[ns.len() - 1].end == q);
        }
        if exits(ns).contains(q) {
            let k = choose|k: int| 0 <= k < ns.len() && (#[trigger] ns[k]).end == q;
            if k < below.len() {
                assert(ns[k] == st[k]);
                assert(st[k].end < st[st.len() - 2].end);
                assert(st[st.len() - 2].end < st[st.len() - 1].end);
                assert(st[k].end == q);
            }
        }
        if accepting_from(m, base).contains(q) && q != f1.end && q != f2.end {
            let k = choose|k: int| 0 <= k < st.len() && (#[trigger] st[k]).end == q;
            assert(k < below.len());
            assert(ns[k] == st[k]);
        }
    }
    assert(accepting_from(r.0, base) =~= exits(ns));
}

proof fn lemma_frontier_star(m: Seq<StateModel>, base: nat, below: Seq<Fragment>, f: Fragment)
    requires
        frontier_ok(m, base, below.push(f)),
        room(m),
    ensures
        frontier_ok(m_star(m, f).0, base, below.push(m_star(m, f).1)),
{
    let st = below.push(f);
    let r = m_star(m, f);
    let ns = below.push(r.1);
    assert(st[st.len() - 1] == f);
    let s0 = m.len() as StateId;
    let e0 = (m.len() + 1) as StateId;
    let m1 = m_push(m_push(m, false), true);
    let m2 = m_eps(m_eps(m1, s0, f.start), s0, e0);
    let m3 = m_eps(m_eps(m2, f.end, f.start), f.end, e0);
    assert forall|q: int| 0 <= q < m1.len() implies #[trigger] m1[q].0 == if q == m.len() + 1 { true } else if q == m.len() { false } else { m[q].0 } by {}
    assert(m3.len() == m1.len());
    assert forall|q: int| 0 <= q < m3.len() implies #[trigger] m3[q].0 == m1[q].0 by {
        assert(m2[q].0 == m1[q].0);
    }
    assert(r.0 == m_mark(m3, f.end, false));
    assert forall|q: int| 0 <= q < r.0.len() implies #[trigger] r.0[q].0 == if q == m.len() + 1 { true } else if q == m.len() || q == f.end || q == f.end { false } else { m[q].0 } by {
        assert(m3[q].0 == m1[q].0);
    }
    lemma_flags_after_build(m, r.0, base, f.end, f.end);
    assert(r.0.len() == m.len() + 2);
    assert forall|k: int| 0 <= k < ns.len() implies base <= (#[trigger] ns[k]).start < r.0.len() && base <= ns[k].end < r.0.len() by {
        if k < below.len() {
            assert(ns[k] == st[k]);
        }
    }
    assert forall|a: int, b: int| 0 <= a < b < ns.len() implies (#[trigger] ns[a]).end < (#[trigger] ns[b]).end by {
        assert(ns[a] == st[a]);
        if b < below.len() {
            assert(ns[b] == st[b]);
        }
    }
    assert forall|q: StateId| accepting_from(r.0, base).contains(q) <==> exits(ns).contains(q) by {
        assert(accepting_from(r.0, base).contains(q) <==> (q == m.len() + 1 || (accepting_from(m, base).contains(q) && q != f.end)));
        assert(accepting_from(m, base).contains(q) == exits(st).contains(q));
        if q == m.len() + 1 {
            assert(ns[ns.len() - 1].end == q);
        }
        if exits(ns).contains(q) {
            let k = choose|k: int| 0 <= k < ns.len() && (#[trigger] ns[k]).end == q;
            if k < below.len() {
                assert(ns[k] == st[k]);
                assert(st[k].end < st[st.len() - 1].end);
                assert(st[k].end == q);
            }
        }
        if accepting_from(m, base).contains(q) && q != f.end {
            let k = choose|k: int| 0 <= k < st.len() && (#[trigger] st[k]).end == q;
            assert(k < below.len());
            assert(ns[k] == st[k]);
        }
    }
    assert(accepting_from(r.0, base) =~= exits(ns));
}

proof fn lemma_frontier_symbol(m: Seq<StateModel>, base: nat, st: Seq<Fragment>, c: char)
    requires
        frontier_ok(m, base, st),
        room(m),
    ensures
        frontier_ok(m_symbol(m, c).0, base, st.push(m_symbol(m, c).1)),
{
    let r = m_symbol(m, c);
    let ns = st.push(r.1);
    let m1 = m_push(m_push(m, false), true);
    assert forall|q: int| 0 <= q < m1.len() implies #[trigger] m1[q].0 == if q == m.len() + 1 { true } else if q == m.len() { false } else { m[q].0 } by {}
    assert forall|q: int| 0 <= q < r.0.len() implies #[trigger] r.0[q].0 == m1[q].0 by {}
    assert forall|q: StateId| #[trigger] accepting_from(r.0, base).contains(q) <==> (q == m.len() + 1 || accepting_from(m, base).contains(q)) by {}
    assert(r.0.len() == m.len() + 2);
    assert forall|k: int| 0 <= k < ns.len() implies base <= (#[trigger] ns[k]).start < r.0.len() && base <= ns[k].end < r.0.len() by {
        if k < st.len() {
            assert(ns[k] == st[k]);
        }
    }
    assert forall|a: int, b: int| 0 <= a < b < ns.len() implies (#[trigger] ns[a]).end < (#[trigger] ns[b]).end by {
        assert(ns[a] == st[a]);
        if b < st.len() {
            assert(ns[b] == st[b]);
        }
    }
    assert forall|q: StateId| accepting_from(r.0, base).contains(q) <==> exits(ns).contains(q) by {
        assert(accepting_from(m, base).contains(q) == exits(st).contains(q));
        if q == m.len() + 1 {
            assert(ns[ns.len() - 1].end == q);
        }
        if exits(ns).contains(q) {
            let k = choose|k: int| 0 <= k < ns.len() && (#[trigger] ns[k]).end == q;
            if k < st.len() {
                assert(ns[k] == st[k]);
                assert(st[k].end == q);
            }
        }
        if accepting_from(m, base).contains(q) {
            let k = choose|k: int| 0 <= k < st.len() && (#[trigger] st[k]).end == q;
            assert(ns[k] == st[k]);
        }
    }
    assert(accepting_from(r.0, base) =~= exits(ns));
}

proof fn lemma_frontier_eval(m: Seq<StateModel>, base: nat, post: Seq<char>, st: Seq<Fragment>)
    requires
        frontier_ok(m, base, st),
    ensures
        m_eval(m, post, st) matches Some(r) ==> frontier_ok(r.0, base, r.1),
    decreases post.len(),
{
    if post.len() > 0 {
        let t = post[0];
        let rest = post.drop_first();
        if t == CONCAT || t == '|' {
            if st.len() >= 2 {
                let below = st.subrange(0, st.len() - 2);
                assert(st =~= below.push(st[st.len() - 2]).push(st.last()));
                if t == CONCAT {
                    lemma_frontier_concat(m, base, below, st[st.len() - 2], st.last());
                    let r = m_concat(m, st[st.len() - 2], st.last());
                    lemma_frontier_eval(r.0, base, rest, below.push(r.1));
                } else if room(m) {
                    lemma_frontier_union(m, base, below, st[st.len() - 2], st.last());
                    let r = m_union(m, st[st.len() - 2], st.last());
                    lemma_frontier_eval(r.0, base, rest, below.push(r.1));
                }
            }
        } else if t == '*' {
            if st.len() >= 1 && room(m) {
                assert(st =~= st.drop_last().push(st.last()));
                lemma_frontier_star(m, base, st.drop_last(), st.last());
                let r = m_star(m, st.last());
                lemma_frontier_eval(r.0, base, rest, st.drop_last().push(r.1));
            }
        } else if room(m) {
            lemma_frontier_symbol(m, base, st, t);
            let r = m_symbol(m, t);
            lemma_frontier_eval(r.0, base, rest, st.push(r.1));
        }
    }
}

proof fn lemma_frontier_low_concat(m: Seq<StateModel>, base: nat, st: Seq<Fragment>)
    requires
        frontier_ok(m, base, st),
        st.len() >= 2,
    ensures
        frontier_ok(
            m_concat(m, st[0], st[1]).0,
            base,
            seq![m_concat(m, st[0], st[1]).1] + st.subrange(2, st.len() as int),
        ),
{
    let r = m_concat(m, st[0], st[1]);
    let ns = seq![r.1] + st.subrange(2, st.len() as int);
    assert(ns.len() == st.len() - 1);
    assert(ns[0] == r.1);
    assert forall|k: int| 1 <= k < ns.len() implies #[trigger] ns[k] == st[k + 1] by {}
    assert forall|k: int| 0 <= k < ns.len() implies base <= (#[trigger] ns[k]).start < r.0.len() && base <= ns[k].end < r.0.len() by {
        if k == 0 {
            assert(st[0].start == ns[0].start && st[1].end == ns[0].end);
        } else {
            assert(ns[k] == st[k + 1]);
        }
    }
    assert forall|a: int, b: int| 0 <= a < b < ns.len() implies (#[trigger] ns[a]).end < (#[trigger] ns[b]).end by {
        assert(ns[b] == st[b + 1]);
        if a == 0 {
            assert(st[1].end < st[b + 1].end);
        } else {
            assert(ns[a] == st[a + 1]);
            assert(st[a + 1].end < st[b + 1].end);
        }
    }
    assert forall|q: StateId| accepting_from(r.0, base).contains(q) <==> exits(ns).contains(q) by {
        assert(accepting_from(m, base).contains(q) == exits(st).contains(q));
        if exits(st).contains(q) {
            let k = choose|k: int| 0 <= k < st.len() && (#[trigger] st[k]).end == q;
            if k >= 2 {
                assert(ns[k - 1] == st[k]);
                assert(st[0].end < st[k].end);
            } else if k == 1 {
                assert(ns[0].end == q);
                assert(st[0].end < st[1].end);
            }
        }
        if exits(ns).contains(q) {
            let k = choose|k: int| 0 <= k < ns.len() && (#[trigger] ns[k]).end == q;
            if k == 0 {
                assert(st[1].end == q);
                assert(st[0].end < st[1].end);
            } else {
                assert(ns[k] == st[k + 1]);
                assert(st[0].end < st[k + 1].end);
            }
        }
    }
    assert(accepting_from(r.0, base) =~= exits(ns));
}

proof fn lemma_frontier_fold(m: Seq<StateModel>, base: nat, acc: Fragment, rest: Seq<Fragment>)
    requires
        frontier_ok(m, base, seq![acc] + rest),
    ensures
        frontier_ok(m_fold(m, acc, rest).0, base, seq![m_fold(m, acc, rest).1]),
    decreases rest.len(),
{
    let st = seq![acc] + rest;
    if rest.len() > 0 {
        lemma_frontier_low_concat(m, base, st);
        assert(st[0] == acc && st[1] == rest[0]);
        let r = m_concat(m, acc, rest[0]);
        assert(seq![r.1] + st.subrange(2, st.len() as int) =~= seq![r.1] + rest.drop_first());
        lemma_frontier_fold(r.0, base, r.1, rest.drop_first());
    } else {
        assert(st =~= seq![acc]);
    }
}

/// Compiling a pattern onto `m`, where no state numbered from `base` on
/// accepts, leaves exactly one accepting state from `base` on: the exit of
/// the fragment it returns.
pub proof fn lemma_parse_single_exit(m: Seq<StateModel>, base: nat, pattern: Seq<char>)
    requires
        base <= m.len(),
        accepting_from(m, base) == Set::<StateId>::empty(),
    ensures
        m_parse(m, pattern) matches Some(r) ==> accepting_from(r.0, base) == set![r.1.end],
{
    assert(accepting_from(m, base) =~= exits(Seq::<Fragment>::empty()));
    if pattern.len() > 0 && balanced(pattern) {
        let post = postfix(with_concat(pattern));
        lemma_frontier_eval(m, base, post, Seq::<Fragment>::empty());
        if let Some(r) = m_eval(m, post, Seq::<Fragment>::empty()) {
            if r.1.len() > 0 {
                assert(r.1 =~= seq![r.1[0]] + r.1.drop_first());
                lemma_frontier_fold(r.0, base, r.1[0], r.1.drop_first());
                let f = m_fold(r.0, r.1[0], r.1.drop_first());
                assert forall|q: StateId| exits(seq![f.1]).contains(q) <==> q == f.1.end by {
                    if q == f.1.end {
                        assert(seq![f.1][0].end == q);
                    }
                }
                assert(exits(seq![f.1]) =~= set![f.1.end]);
            }
        }
    }
}

/// An automaton compiled from a pattern has exactly one accepting state.
pub proof fn lemma_compile_single_accepting(pattern: Seq<char>)
    ensures
        compile_model(pattern) matches Some(m) ==> exists|e: StateId| accepting_from(m, 0) == set![e],
{
    let m0 = m_push(Seq::<StateModel>::empty(), false);
    assert(accepting_from(m0, 0) =~= Set::<StateId>::empty());
    lemma_parse_single_exit(m0, 0, pattern);
    if let Some(r) = m_parse(m0, pattern) {
        let m = m_eps(r.0, 0, r.1.start);
        assert(accepting_from(r.0, 0).contains(r.1.end));
        assert(accepting_from(m, 0) =~= accepting_from(r.0, 0));
    }
}

/// Whether both ends of `f` are states of `m`.
pub open spec fn frag_in(m: Seq<StateModel>, f: Fragment) -> bool {
    f.start < m.len() && f.end < m.len()
}

/// Builder for Thompson's construction: an automaton whose states the
/// fragments refer to.
pub struct States {
    pub nfa: crate::nfa::Nfa,
}

impl States {
    pub open spec fn model(&self) -> Seq<StateModel> {
        self.nfa.model()
    }

    pub open spec fn wf(&self) -> bool {
        self.nfa.wf()
    }

    pub fn new() -> (r: Self)
        ensures
            r.wf(),
            r.model() == Seq::<StateModel>::empty(),
    {
        let r = States { nfa: crate::nfa::Nfa::new() };
        proof {
            assert(r.model() =~= Seq::<StateModel>::empty());
        }
        r
    }

    /// Adds a state without edges and returns its id.
    pub fn new_state(&mut self, accepting: bool) -> (id: StateId)
        requires
            old(self).wf(),
            old(self).model().len() < usize::MAX,
        ensures
            final(self).wf(),
            id == old(self).model().len(),
            final(self).model() == m_push(old(self).model(), accepting),
    {
        self.nfa.add_state(accepting)
    }

    /// The state with id `index`.
    pub fn state(&self, index: StateId) -> (r: &State)
        requires
            index < self.nfa.n(),
        ensures
            *r == self.nfa@[index as int],
    {
        self.nfa.state(index)
    }

    /// The state with id `index`, for editing in place.
    pub fn state_mut(&mut self, index: StateId) -> (r: &mut State)
        requires
            index < old(self).nfa.n(),
        ensures
            *r == old(self).nfa@[index as int],
            final(self).nfa@ == old(self).nfa@.update(index as int, *final(r)),
    {
        self.nfa.state_mut(index)
    }

    /// Fragment for the literal `c`.
    pub fn symbol(&mut self, c: char) -> (f: Fragment)
        requires
            old(self).wf(),
            room(old(self).model()),
        ensures
            final(self).wf(),
            (final(self).model(), f) == m_symbol(old(self).model(), c),
    {
        let start = self.nfa.add_state(false);
        let end = self.nfa.add_state(true);
        let _ = self.nfa.add_transition(start, c, end);
        Fragment { start, end }
    }

    /// Fragment for `f1` followed by `f2`.
    pub fn concat(&mut self, f1: Fragment, f2: Fragment) -> (f: Fragment)
        requires
            old(self).wf(),
            frag_in(old(self).model(), f1),
            frag_in(old(self).model(), f2),
        ensures
            final(self).wf(),
            (final(self).model(), f) == m_concat(old(self).model(), f1, f2),
    {
        let _ = self.nfa.add_epsilon_transition(f1.end, f2.start);
        let _ = self.nfa.set_accepting(f1.end, false);
        Fragment { start: f1.start, end: f2.end }
    }

    /// Fragment for `f1` or `f2`.
    pub fn union(&mut self, f1: Fragment, f2: Fragment) -> (f: Fragment)
        requires
            old(self).wf(),
            room(old(self).model()),
            frag_in(old(self).model(), f1),
            frag_in(old(self).model(), f2),
        ensures
            final(self).wf(),
            (final(self).model(), f) == m_union(old(self).model(), f1, f2),
    {
        let start = self.nfa.add_state(false);
        let end = self.nfa.add_state(true);
        let _ = self.nfa.add_epsilon_transition(start, f1.start);
        let _ = self.nfa.add_epsilon_transition(start, f2.start);
        let _ = self.nfa.add_epsilon_transition(f1.end, end);
        let _ = self.nfa.add_epsilon_transition(f2.end, end);
        let _ = self.nfa.set_accepting(f1.end, false);
        let _ = self.nfa.set_accepting(f2.end, false);
        Fragment { start, end }
    }

    /// Fragment for zero or more repetitions of `f`.
    pub fn closure(&mut self, f: Fragment) -> (r: Fragment)
        requires
            old(self).wf(),
            room(old(self).model()),
            frag_in(old(self).model(), f),
        ensures
            final(self).wf(),
            (final(self).model(), r) == m_star(old(self).model(), f),
    {
        let start = self.nfa.add_state(false);
        let end = self.nfa.add_state(true);
        let _ = self.nfa.add_epsilon_transition(start, f.start);
        let _ = self.nfa.add_epsilon_transition(start, end);
        let _ = self.nfa.add_epsilon_transition(f.end, f.start);
        let _ = self.nfa.add_epsilon_transition(f.end, end);
        let _ = self.nfa.set_accepting(f.end, false);
        Fragment { start, end }
    }

    /// Compiles `pattern` onto the automaton: explicit concatenation,
    /// postfix conversion, then evaluation over a stack of fragments. What
    /// remains on the stack is concatenated left to right.
    pub fn parse(&mut self, pattern: &str) -> (r: Result<Fragment, FsmError>)
        requires
            old(self).wf(),
        ensures
            final(self).wf(),
            match m_parse(old(self).model(), pattern@) {
                Some(res) => r == Ok::<Fragment, FsmError>(res.1) && final(self).model() == res.0 && frag_in(res.0, res.1),
                None => r == Err::<Fragment, FsmError>(FsmError::InvalidPattern),
            },
    {
        let p = chars_of(pattern);
        if p.len() == 0 || !is_balanced(&p) {
            return Err(FsmError::InvalidPattern);
        }
        let explicit = insert_explicit_concat_operator(pattern);
        let post_text = to_postfix(explicit.as_str());
        let post = chars_of(post_text.as_str());
        let ghost m0 = self.model();
        let mut stack: Vec<Fragment> = Vec::new();
        let mut i: usize = 0;
        proof {
            assert(post@.subrange(0, post@.len() as int) =~= post@);
        }
        while i < post.len()
            invariant
                self.wf(),
                m0 == old(self).model(),
                i <= post@.len(),
                post@ == postfix(with_concat(pattern@)),
                m_eval(self.model(), post@.subrange(i as int, post@.len() as int), stack@) == m_eval(m0, post@, Seq::<Fragment>::empty()),
                forall|k: int| 0 <= k < stack@.len() ==> frag_in(self.model(), #[trigger] stack@[k]),
            decreases post@.len() - i,
        {
            let t = post[i];
            let ghost m = self.model();
            let ghost st = stack@;
            let ghost rest = post@.subrange(i as int, post@.len() as int);
            proof {
                assert(rest[0] == t);
                assert(rest.drop_first() =~= post@.subrange(i + 1, post@.len() as int));
            }
            let has_room = self.nfa.num_states() < usize::MAX - 2;
            if t == CONCAT || t == '|' {
                if stack.len() < 2 {
                    proof {
                        assert(m_eval(m, rest, st) is None);
                    }
                    return Err(FsmError::InvalidPattern);
                }
                if t == '|' && !has_room {
                    proof {
                        assert(m_eval(m, rest, st) is None);
                    }
                    return Err(FsmError::InvalidPattern);
                }
                let f2 = stack.pop().unwrap();
                let f1 = stack.pop().unwrap();
                proof {
                    assert(f2 == st.last());
                    assert(f1 == st[st.len() - 2]);
                    assert(stack@ =~= st.subrange(0, st.len() - 2));
                    assert(frag_in(m, st[st.len() - 1]));
                    assert(frag_in(m, st[st.len() - 2]));
                }
                let f = if t == CONCAT {
                    self.concat(f1, f2)
                } else {
                    self.union(f1, f2)
                };
                stack.push(f);
            } else if t == '*' {
                if stack.len() < 1 || !has_room {
                    proof {
                        assert(m_eval(m, rest, st) is None);
                    }
                    return Err(FsmError::InvalidPattern);
                }
                let f1 = stack.pop().unwrap();
                proof {
                    assert(f1 == st.last());
                    assert(frag_in(m, st[st.len() - 1]));
                }
                let f = self.closure(f1);
                stack.push(f);
            } else {
                if !has_room {
                    proof {
                        assert(m_eval(m, rest, st) is None);
                    }
                    return Err(FsmError::InvalidPattern);
                }
                let f = self.symbol(t);
                stack.push(f);
            }
            proof {
                assert(self.model().len() >= m.len());
                assert forall|k: int| 0 <= k < stack@.len() implies frag_in(self.model(), #[trigger] stack@[k]) by {
                    if k < stack@.len() - 1 {
                        assert(stack@[k] == st[k]);
                    }
                }
            }
            i = i + 1;
        }
        proof {
            assert(post@.subrange(post@.len() as int, post@.len() as int) =~= Seq::<char>::empty());
        }
        if stack.len() == 0 {
            return Err(FsmError::InvalidPattern);
        }
        let ghost m1 = self.model();
        let ghost frags = stack@;
        let mut acc = stack[0];
        let mut k: usize = 1;
        proof {
            assert(frags.subrange(1, frags.len() as int) =~= frags.drop_first());
        }
        while k < stack.len()
            invariant
                self.wf(),
                m0 == old(self).model(),
                stack@ == frags,
                1 <= k <= frags.len(),
                m_fold(self.model(), acc, frags.subrange(k as int, frags.len() as int)) == m_fold(m1, frags[0], frags.drop_first()),
                frag_in(self.model(), acc),
                forall|j: int| 0 <= j < frags.len() ==> frag_in(self.model(), #[trigger] frags[j]),
            decreases frags.len() - k,
        {
            let ghost m = self.model();
            proof {
                let rest = frags.subrange(k as int, frags.len() as int);
                assert(rest[0] == frags[k as int]);
                assert(rest.drop_first() =~= frags.subrange(k + 1, frags.len() as int));
                assert(frag_in(m, frags[k as int]));
            }
            acc = self.concat(acc, stack[k]);
            proof {
                assert forall|j: int| 0 <= j < frags.len() implies frag_in(self.model(), #[trigger] frags[j]) by {
                    assert(frag_in(m, frags[j]));
                }
            }
            k = k + 1;
        }
        proof {
            assert(frags.subrange(frags.len() as int, frags.len() as int) =~= Seq::<Fragment>::empty());
        }
        Ok(acc)
    }

    /// Whether reading `s` from `start` can end in an accepting state; the
    /// wildcard `.` on an edge matches any character for which the state
    /// has no edge of its own.
    pub fn matches(&self, start: StateId, s: &str) -> (r: bool)
        requires
            self.wf(),
            start < self.model().len(),
        ensures
            r == m_wild_accepts(self.model(), start, s@),
    {
        let word = chars_of(s);
        self.nfa.matches_from(start, &word)
    }
}


/// The automaton that [`compile`] builds for `pattern`: an initial state 0
/// with an epsilon edge to the entry of the compiled fragment.
pub open spec fn compile_model(pattern: Seq<char>) -> Option<Seq<StateModel>> {
    match m_parse(m_push(Seq::empty(), false), pattern) {
        Some(res) => Some(m_eps(res.0, 0, res.1.start)),
        None => None,
    }
}

/// Compiles `pattern` into an automaton whose initial state is 0. Its
/// edges carry the pattern's literals as they are, `.` included.
pub fn compile(pattern: &str) -> (r: Result<crate::nfa::Nfa, FsmError>)
    ensures
        match compile_model(pattern@) {
            Some(m) => match r {
                Ok(a) => a.wf() && a.model() == m,
                Err(_) => false,
            },
            None => r == Err::<crate::nfa::Nfa, FsmError>(FsmError::InvalidPattern),
        },
{
    let mut states = States::new();
    let entry = states.new_state(false);
    match states.parse(pattern) {
        Ok(f) => {
            let _ = states.nfa.add_epsilon_transition(entry, f.start);
            Ok(states.nfa)
        },
        Err(e) => Err(e),
    }
}

/// A compiled pattern and the entry state it is matched from.
pub struct Nfa {
    states: States,
    start: StateId,
}

impl Nfa {
    /// The compiled automaton as plain values.
    pub closed spec fn model(&self) -> Seq<StateModel> {
        self.states.model()
    }

    /// The entry state matching starts from.
    pub closed spec fn start_state(&self) -> StateId {
        self.start
    }

    pub closed spec fn wf(&self) -> bool {
        self.states.wf() && self.start < self.states.model().len()
    }

    /// Compiles `pattern`.
    pub fn new(pattern: &str) -> (r: Result<Self, FsmError>)
        ensures
            match m_parse(Seq::empty(), pattern@) {
                Some(res) => match r {
                    Ok(a) => a.wf() && a.model() == res.0 && a.start_state() == res.1.start,
                    Err(_) => false,
                },
                None => r == Err::<Self, FsmError>(FsmError::InvalidPattern),
            },
    {
        let mut states = States::new();
        match states.parse(pattern) {
            Ok(f) => Ok(Nfa { states, start: f.start }),
            Err(e) => Err(e),
        }
    }

    /// Whether the pattern matches the whole of `s`.
    pub fn matches(&self, s: &str) -> (r: bool)
        requires
            self.wf(),
        ensures
            r == m_wild_accepts(self.model(), self.start_state(), s@),
    {
        self.states.matches(self.start, s)
    }
}

/// Whether `pattern` matches the whole of `input`; `false` for a pattern
/// that does not compile.
pub fn is_match(input: &str, pattern: &str) -> (r: bool)
    ensures
        r == match m_parse(Seq::empty(), pattern@) {
            Some(res) => m_wild_accepts(res.0, res.1.start, input@),
            None => false,
        },
{
    match Nfa::new(pattern) {
        Ok(a) => a.matches(input),
        Err(_) => false,
    }
}

} // verus!
