use fsm::error::FsmError;
use fsm::regex::{compile, insert_explicit_concat_operator, is_match, to_postfix, Nfa, States};

fn word(s: &str) -> Vec<char> {
    s.chars().collect()
}

#[test]
fn test_pattern_a() {
    let nfa = Nfa::new("a").unwrap();
    assert!(nfa.matches("a"));
    assert!(!nfa.matches("ab"));
    assert!(!nfa.matches("aa"));
    assert!(!nfa.matches("b"));
}

#[test]
fn test_pattern_a_or_b() {
    let nfa = Nfa::new("a|b").unwrap();
    assert!(nfa.matches("a"));
    assert!(nfa.matches("b"));
    assert!(!nfa.matches("ab"));
    assert!(!nfa.matches("aa"));
    assert!(!nfa.matches("ba"));
}

#[test]
fn test_pattern_debug() {
    let nfa = Nfa::new("(a|b)*").unwrap();
    assert!(nfa.matches("a"));
    assert!(nfa.matches("b"));
    assert!(nfa.matches("aa"));
    assert!(nfa.matches("bb"));
    assert!(nfa.matches("ab"));
    assert!(nfa.matches("ba"));
    assert!(nfa.matches("aaa"));
    assert!(nfa.matches("aba"));
}

#[test]
fn test_pattern_complex() {
    let nfa = Nfa::new("a(b|c)*d").unwrap();
    assert!(nfa.matches("ad"));
    assert!(nfa.matches("abd"));
    assert!(nfa.matches("acd"));
    assert!(nfa.matches("abbd"));
    assert!(nfa.matches("abcd"));
    assert!(nfa.matches("accd"));
    assert!(nfa.matches("acbd"));
    assert!(nfa.matches("abbbd"));
    assert!(nfa.matches("acccd"));
    assert!(!nfa.matches("a"));
    assert!(!nfa.matches("b"));
    assert!(!nfa.matches("c"));
    assert!(!nfa.matches("d"));
    assert!(!nfa.matches("ab"));
    assert!(!nfa.matches("ac"));
    assert!(!nfa.matches("aad"));
}

#[test]
fn test_fragment_concat_ab() {
    let mut states = States::new();
    let f1 = states.symbol('a');
    let f2 = states.symbol('b');
    let f3 = states.concat(f1, f2);

    assert!(states.matches(f3.start, "ab"));
    assert!(!states.matches(f3.start, "aba"));
    assert!(!states.matches(f3.start, "a"));
    assert!(!states.matches(f3.start, "b"));
}

#[test]
fn test_fragment_union_ab() {
    let mut states = States::new();
    let f1 = states.symbol('a');
    let f2 = states.symbol('b');
    let f3 = states.union(f1, f2);

    assert!(!states.matches(f3.start, "ab"));
    assert!(!states.matches(f3.start, "aba"));
    assert!(states.matches(f3.start, "a"));
    assert!(states.matches(f3.start, "b"));
}

#[test]
fn fragment_closure_accepts_repetitions() {
    let mut states = States::new();
    let f = states.symbol('a');
    let g = states.closure(f);
    assert!(states.matches(g.start, ""));
    assert!(states.matches(g.start, "aaa"));
    assert!(!states.matches(g.start, "ab"));
    assert!(!states.state(f.end).accepting);
    assert!(states.state(g.end).accepting);
}

#[test]
fn scenario_compile_a_bc_star_d() {
    let nfa = compile("a(b|c)*d").unwrap();
    for s in ["ad", "abd", "acd", "abcd", "acbd"] {
        assert!(nfa.accepts(word(s)), "{}", s);
    }
    for s in ["a", "abc", "ac", "d"] {
        assert!(!nfa.accepts(word(s)), "{}", s);
    }
}

#[test]
fn scenario_compile_a_or_b() {
    let nfa = compile("a|b").unwrap();
    assert!(nfa.accepts(word("a")));
    assert!(nfa.accepts(word("b")));
    assert!(!nfa.accepts(word("")));
    assert!(!nfa.accepts(word("ab")));
}

#[test]
fn explicit_concatenation_is_inserted() {
    assert_eq!(insert_explicit_concat_operator("ab"), "a\0b");
    assert_eq!(insert_explicit_concat_operator("a(b|c)*d"), "a\0(b|c)*\0d");
    assert_eq!(insert_explicit_concat_operator("a|b"), "a|b");
    assert_eq!(insert_explicit_concat_operator(""), "");
}

#[test]
fn postfix_follows_precedence() {
    assert_eq!(to_postfix("a\0b"), "ab\0");
    assert_eq!(to_postfix("a|b\0c"), "abc\0|");
    assert_eq!(to_postfix("a\0(b|c)*\0d"), "abc|*\0d\0");
    assert_eq!(to_postfix("a|b|c"), "ab|c|");
}

#[test]
fn invalid_patterns_are_rejected() {
    assert_eq!(compile("").err(), Some(FsmError::InvalidPattern));
    assert_eq!(compile("(a").err(), Some(FsmError::InvalidPattern));
    assert_eq!(compile("a)").err(), Some(FsmError::InvalidPattern));
    assert_eq!(compile(")(").err(), Some(FsmError::InvalidPattern));
    assert_eq!(compile("*").err(), Some(FsmError::InvalidPattern));
    assert_eq!(compile("|a").err(), Some(FsmError::InvalidPattern));
    assert_eq!(compile("()").err(), Some(FsmError::InvalidPattern));
    assert!(Nfa::new("a||").is_err());
    let mut states = States::new();
    assert_eq!(states.parse("(ab"), Err(FsmError::InvalidPattern));
}

#[test]
fn is_match_uses_wildcard_and_rejects_bad_patterns() {
    assert!(is_match("abd", "a(b|c)*d"));
    assert!(!is_match("abx", "a(b|c)*d"));
    assert!(is_match("axc", "a.c"));
    assert!(is_match("a.c", "a.c"));
    assert!(!is_match("ac", "a.c"));
    assert!(!is_match("a", "(a"));
    assert!(!is_match("", ""));
}

#[test]
fn compiled_automaton_starts_at_state_zero() {
    let nfa = compile("ab").unwrap();
    assert!(!nfa.accepting(0).unwrap());
    assert!(nfa.accepts(word("ab")));
    assert!(!nfa.accepts(word("a")));
    let dfa = nfa.to_dfa(&['a', 'b']);
    assert!(dfa.accepts(word("ab")));
    assert!(!dfa.accepts(word("ba")));
}

#[test]
fn compiled_automaton_has_one_accepting_state() {
    for p in ["a", "a|b", "a(b|c)*d", "(a|b)*", "ab*c", "x**|y"] {
        let nfa = compile(p).unwrap();
        let accepting = nfa.states().iter().filter(|s| s.accepting).count();
        assert_eq!(accepting, 1, "{}", p);
    }
}
