use fsm::dfa::Dfa;
use fsm::nfa::Nfa;
use fsm::regex::compile;

/// All words over `symbols` of length at most `max_length`.
fn words(symbols: &[char], max_length: usize) -> Vec<Vec<char>> {
    let mut all = vec![Vec::new()];
    let mut frontier = vec![Vec::new()];
    for _ in 0..max_length {
        let mut next = Vec::new();
        for w in &frontier {
            for &c in symbols {
                let mut longer = w.clone();
                longer.push(c);
                next.push(longer);
            }
        }
        all.extend(next.iter().cloned());
        frontier = next;
    }
    all
}

/// A small regular-expression tree, matched by backtracking over sets of
/// end positions.
enum Re {
    Lit(char),
    Cat(Box<Re>, Box<Re>),
    Alt(Box<Re>, Box<Re>),
    Star(Box<Re>),
}

fn parse_alt(p: &[char], i: &mut usize) -> Re {
    let mut left = parse_cat(p, i);
    while *i < p.len() && p[*i] == '|' {
        *i += 1;
        let right = parse_cat(p, i);
        left = Re::Alt(Box::new(left), Box::new(right));
    }
    left
}

fn parse_cat(p: &[char], i: &mut usize) -> Re {
    let mut left = parse_rep(p, i);
    while *i < p.len() && p[*i] != '|' && p[*i] != ')' {
        let right = parse_rep(p, i);
        left = Re::Cat(Box::new(left), Box::new(right));
    }
    left
}

fn parse_rep(p: &[char], i: &mut usize) -> Re {
    let mut atom = if p[*i] == '(' {
        *i += 1;
        let inner = parse_alt(p, i);
        *i += 1;
        inner
    } else {
        *i += 1;
        Re::Lit(p[*i - 1])
    };
    while *i < p.len() && p[*i] == '*' {
        *i += 1;
        atom = Re::Star(Box::new(atom));
    }
    atom
}

fn ends(re: &Re, s: &[char], start: usize) -> Vec<usize> {
    match re {
        Re::Lit(c) => {
            if start < s.len() && s[start] == *c {
                vec![start + 1]
            } else {
                vec![]
            }
        }
        Re::Cat(a, b) => {
            let mut out = Vec::new();
            for m in ends(a, s, start) {
                for e in ends(b, s, m) {
                    if !out.contains(&e) {
                        out.push(e);
                    }
                }
            }
            out
        }
        Re::Alt(a, b) => {
            let mut out = ends(a, s, start);
            for e in ends(b, s, start) {
                if !out.contains(&e) {
                    out.push(e);
                }
            }
            out
        }
        Re::Star(a) => {
            let mut out = vec![start];
            let mut k = 0;
            while k < out.len() {
                for e in ends(a, s, out[k]) {
                    if !out.contains(&e) {
                        out.push(e);
                    }
                }
                k += 1;
            }
            out
        }
    }
}

fn reference_match(pattern: &str, s: &[char]) -> bool {
    let p: Vec<char> = pattern.chars().collect();
    let mut i = 0;
    let re = parse_alt(&p, &mut i);
    ends(&re, s, 0).contains(&s.len())
}

#[test]
fn compiled_patterns_agree_with_reference_matcher() {
    let patterns = [
        "a", "ab", "a|b", "a*", "(a|b)*", "a(b|a)*b", "(ab)*", "a*b*", "(a|ab)*b", "((a))", "a**",
        "(a*|b)a", "b(ab|ba)*",
    ];
    for pattern in patterns {
        let nfa = compile(pattern).unwrap();
        for w in words(&['a', 'b'], 6) {
            assert_eq!(nfa.accepts(w.clone()), reference_match(pattern, &w), "{} on {:?}", pattern, w);
        }
    }
}

#[test]
fn closing_twice_equals_closing_once() {
    let mut nfa = Nfa::new();
    for _ in 0..6 {
        nfa.add_state(false);
    }
    for (p, q) in [(0, 1), (1, 2), (2, 0), (3, 3), (4, 5), (5, 1)] {
        nfa.add_epsilon_transition(p, q).unwrap();
    }
    for start in 0..6 {
        let once = nfa.epsilon_closure(start).unwrap();
        let twice = nfa.multi_epsilon_closure(&once).unwrap();
        assert_eq!(once, twice);
    }
}

/// A pseudo-random automaton with epsilon cycles and nondeterminism.
fn scrambled_nfa(n: usize, seed: u64) -> Nfa {
    let mut x = seed;
    let mut roll = move |m: u64| {
        x = x.wrapping_mul(6364136223846793005).wrapping_add(1442695040888963407);
        (x >> 33) % m
    };
    let mut nfa = Nfa::new();
    for _ in 0..n {
        let accepting = roll(3) == 0;
        nfa.add_state(accepting);
    }
    for _ in 0..(2 * n) {
        let p = roll(n as u64) as usize;
        let q = roll(n as u64) as usize;
        let c = if roll(2) == 0 { 'a' } else { 'b' };
        nfa.add_transition(p, c, q).unwrap();
    }
    for _ in 0..n {
        let p = roll(n as u64) as usize;
        let q = roll(n as u64) as usize;
        nfa.add_epsilon_transition(p, q).unwrap();
    }
    nfa
}

#[test]
fn determinized_automaton_accepts_the_same_words() {
    for n in 1..6 {
        for seed in 0..8 {
            let nfa = scrambled_nfa(n, seed * 31 + n as u64);
            let dfa = nfa.to_dfa(&['a', 'b']);
            for w in words(&['a', 'b'], 6) {
                assert_eq!(nfa.accepts(w.clone()), dfa.accepts(w.clone()), "n={} seed={} {:?}", n, seed, w);
            }
        }
    }
}

#[test]
fn determinized_state_count_is_bounded() {
    for n in 1..7 {
        for seed in 0..8 {
            let nfa = scrambled_nfa(n, seed + 100 * n as u64);
            let dfa = nfa.to_dfa(&['a', 'b']);
            assert!(dfa.num_states() <= 1usize << n);
        }
    }
    let empty = Nfa::new();
    assert_eq!(empty.to_dfa(&['a']).num_states(), 0);
}

#[test]
fn zero_state_automata_reject_everything() {
    let nfa = Nfa::new();
    let dfa = Dfa::new();
    for w in words(&['a', 'b'], 3) {
        assert!(!nfa.accepts(w.clone()));
        assert!(!dfa.accepts(w));
    }
    assert!(!nfa.accepts(vec![]));
    assert!(!dfa.accepts(vec![]));
}
