//! The operations that assemble an automaton, and the two ways to run it.

use std::collections::HashSet;

use rregex::automaton::Transition;
use rregex::nfa::NFA;
use rregex::Matcher;

const EPS: Transition = Transition::Epsilon;

fn set(states: &[usize]) -> HashSet<usize> {
    states.iter().copied().collect()
}

fn both(matcher: &Matcher, input: &str) -> bool {
    let by_set = matcher.set_simulation(input);
    let by_copy = matcher.copy_simulation(input);
    assert_eq!(by_set, by_copy, "the simulations disagree on '{}'", input);
    assert_eq!(by_set, matcher.matches(input));
    by_set
}

#[test]
fn a_new_automaton_accepts_nothing() {
    let nfa = NFA::new();
    assert_eq!(nfa.start_state(), 0);
    assert_eq!(nfa.end_states(), &Vec::<usize>::new());
    assert_eq!(nfa.state_count(), 1);
    assert_eq!(nfa.transitions(0), Some(&vec![]));
    assert_eq!(nfa.transitions(1), None);
    let matcher = Matcher::new(nfa);
    assert!(!both(&matcher, ""));
    assert!(!both(&matcher, "a"));
}

#[test]
fn state_names_are_never_given_out_twice() {
    let mut nfa = NFA::new();
    assert_eq!(nfa.next_state_id(), 1);
    assert_eq!(nfa.next_state_id(), 2);
    let a = nfa.literal('a');
    assert_eq!((a.start(), a.accept().clone()), (3, vec![4]));
    let b = nfa.epsilon();
    assert_eq!((b.start(), b.accept().clone()), (5, vec![6]));
    assert_eq!(nfa.next_state_id(), 7);
    assert_eq!(nfa.state_count(), 8);
}

#[test]
fn add_transition_appends_to_the_edges_of_a_state() {
    let mut nfa = NFA::new();
    let s = nfa.next_state_id();
    nfa.add_transition(0, Transition::Literal('x'), s);
    nfa.add_transition(0, EPS, 0);
    nfa.add_transition(0, Transition::Literal('x'), s);
    assert_eq!(
        nfa.transitions(0),
        Some(&vec![(Transition::Literal('x'), s), (EPS, 0), (Transition::Literal('x'), s)])
    );
    assert_eq!(nfa.transitions(s), Some(&vec![]));
}

#[test]
fn literal_is_two_states_and_one_edge() {
    let mut nfa = NFA::new();
    let a = nfa.literal('a');
    assert_eq!(a.start(), 1);
    assert_eq!(a.accept(), &vec![2]);
    assert_eq!(nfa.transitions(1), Some(&vec![(Transition::Literal('a'), 2)]));
    assert_eq!(nfa.transitions(2), Some(&vec![]));
    nfa.finish(a);
    assert_eq!(nfa.start_state(), 1);
    assert_eq!(nfa.end_states(), &vec![2]);
    let matcher = Matcher::new(nfa);
    assert!(both(&matcher, "a"));
    assert!(!both(&matcher, ""));
    assert!(!both(&matcher, "b"));
    assert!(!both(&matcher, "aa"));
}

#[test]
fn epsilon_is_two_states_and_one_edge() {
    let mut nfa = NFA::new();
    let e = nfa.epsilon();
    assert_eq!(e.start(), 1);
    assert_eq!(e.accept(), &vec![2]);
    assert_eq!(nfa.transitions(1), Some(&vec![(EPS, 2)]));
    nfa.finish(e);
    let matcher = Matcher::new(nfa);
    assert!(both(&matcher, ""));
    assert!(!both(&matcher, "a"));
}

#[test]
fn union_forks_and_joins() {
    let mut nfa = NFA::new();
    let a = nfa.literal('a');
    let b = nfa.literal('b');
    let u = nfa.union(a, b);
    assert_eq!(u.start(), 5);
    assert_eq!(u.accept(), &vec![6]);
    assert_eq!(nfa.transitions(5), Some(&vec![(EPS, 1), (EPS, 3)]));
    assert_eq!(nfa.transitions(2), Some(&vec![(EPS, 6)]));
    assert_eq!(nfa.transitions(4), Some(&vec![(EPS, 6)]));
    assert_eq!(nfa.transitions(6), Some(&vec![]));
    assert_eq!(nfa.transitions(1), Some(&vec![(Transition::Literal('a'), 2)]));
    assert_eq!(nfa.transitions(3), Some(&vec![(Transition::Literal('b'), 4)]));
    nfa.finish(u);
    let matcher = Matcher::new(nfa);
    assert!(both(&matcher, "a"));
    assert!(both(&matcher, "b"));
    assert!(!both(&matcher, ""));
    assert!(!both(&matcher, "ab"));
}

#[test]
fn concatenate_links_the_exits_of_the_first_to_the_second() {
    let mut nfa = NFA::new();
    let a = nfa.literal('a');
    let b = nfa.literal('b');
    let ab = nfa.concatenate(a, b);
    assert_eq!(ab.start(), 1);
    assert_eq!(ab.accept(), &vec![4]);
    assert_eq!(nfa.state_count(), 5);
    assert_eq!(nfa.transitions(2), Some(&vec![(EPS, 3)]));
    assert_eq!(nfa.transitions(4), Some(&vec![]));
    nfa.finish(ab);
    let matcher = Matcher::new(nfa);
    assert!(both(&matcher, "ab"));
    assert!(!both(&matcher, "ba"));
    assert!(!both(&matcher, "a"));
    assert!(!both(&matcher, "abb"));
}

#[test]
fn kleene_star_loops_back_and_skips() {
    let mut nfa = NFA::new();
    let a = nfa.literal('a');
    let star = nfa.kleene_star(a);
    assert_eq!(star.start(), 3);
    assert_eq!(star.accept(), &vec![4]);
    assert_eq!(nfa.transitions(3), Some(&vec![(EPS, 1), (EPS, 4)]));
    assert_eq!(nfa.transitions(2), Some(&vec![(EPS, 1), (EPS, 4)]));
    assert_eq!(nfa.transitions(4), Some(&vec![]));
    nfa.finish(star);
    let matcher = Matcher::new(nfa);
    assert!(both(&matcher, ""));
    assert!(both(&matcher, "a"));
    assert!(both(&matcher, "aaaa"));
    assert!(!both(&matcher, "ab"));
}

#[test]
fn operands_keep_their_edges_when_they_are_joined() {
    let mut nfa = NFA::new();
    let a = nfa.literal('a');
    let b = nfa.literal('b');
    let ab = nfa.concatenate(a, b);
    let c = nfa.literal('c');
    let u = nfa.union(ab, c);
    let star = nfa.kleene_star(u);
    nfa.finish(star);
    assert_eq!(nfa.transitions(1), Some(&vec![(Transition::Literal('a'), 2)]));
    assert_eq!(nfa.transitions(3), Some(&vec![(Transition::Literal('b'), 4)]));
    assert_eq!(nfa.transitions(5), Some(&vec![(Transition::Literal('c'), 6)]));
    let matcher = Matcher::new(nfa);
    assert!(both(&matcher, ""));
    assert!(both(&matcher, "abcab"));
    assert!(both(&matcher, "ccc"));
    assert!(!both(&matcher, "ac"));
    assert!(!both(&matcher, "abca"));
}

#[test]
fn a_star_of_a_star_has_an_epsilon_cycle_and_still_terminates() {
    let mut nfa = NFA::new();
    let a = nfa.literal('a');
    let inner = nfa.kleene_star(a);
    let outer = nfa.kleene_star(inner);
    nfa.finish(outer);
    let matcher = Matcher::new(nfa);
    assert!(both(&matcher, ""));
    assert!(both(&matcher, "aaa"));
    assert!(!both(&matcher, "aab"));
    let closure = matcher.epsilon_closure(set(&[5]));
    assert_eq!(closure, set(&[1, 3, 4, 5, 6]));
    let from_the_loop = matcher.epsilon_closure(set(&[2]));
    assert_eq!(from_the_loop, set(&[1, 2, 3, 4, 6]));
}

#[test]
fn the_closure_does_not_depend_on_the_order_of_the_edges() {
    let mut one = NFA::new();
    let a = one.next_state_id();
    let b = one.next_state_id();
    let c = one.next_state_id();
    one.add_transition(0, EPS, a);
    one.add_transition(0, EPS, b);
    one.add_transition(a, EPS, c);
    one.add_transition(b, EPS, 0);
    one.add_transition(c, Transition::Literal('x'), b);

    let mut other = NFA::new();
    let a2 = other.next_state_id();
    let b2 = other.next_state_id();
    let c2 = other.next_state_id();
    other.add_transition(c2, Transition::Literal('x'), b2);
    other.add_transition(b2, EPS, 0);
    other.add_transition(a2, EPS, c2);
    other.add_transition(0, EPS, b2);
    other.add_transition(0, EPS, a2);

    let first = Matcher::new(one);
    let second = Matcher::new(other);
    for seeds in [vec![0], vec![a], vec![b], vec![c], vec![a, c], vec![]] {
        assert_eq!(first.epsilon_closure(set(&seeds)), second.epsilon_closure(set(&seeds)));
    }
    assert_eq!(first.epsilon_closure(set(&[0])), set(&[0, a, b, c]));
    assert_eq!(first.epsilon_closure(set(&[c])), set(&[c]));
    assert_eq!(first.epsilon_closure(set(&[])), set(&[]));
}

#[test]
fn the_closure_keeps_seeds_that_are_no_states() {
    let matcher = Matcher::new(NFA::new());
    assert_eq!(matcher.epsilon_closure(set(&[0, 17])), set(&[0, 17]));
}

#[test]
fn an_automaton_with_several_accepting_states() {
    let mut nfa = NFA::new();
    let a = nfa.literal('a');
    let b = nfa.literal('b');
    let ab = nfa.concatenate(a, b);
    nfa.finish(ab);
    let x = nfa.next_state_id();
    nfa.add_transition(1, Transition::Literal('x'), x);
    nfa.add_transition(x, EPS, 4);
    let matcher = Matcher::new(nfa);
    assert!(both(&matcher, "ab"));
    assert!(both(&matcher, "x"));
    assert!(!both(&matcher, "xb"));
}

fn strings_of(alphabet: &[char], max_len: usize) -> Vec<String> {
    let mut all = vec![String::new()];
    let mut last = vec![String::new()];
    for _ in 0..max_len {
        let mut next = Vec::new();
        for s in &last {
            for c in alphabet {
                let mut longer = s.clone();
                longer.push(*c);
                next.push(longer);
            }
        }
        all.extend(next.iter().cloned());
        last = next;
    }
    all
}

#[test]
fn the_two_simulations_agree_on_every_short_pattern() {
    let inputs = strings_of(&['a', 'b'], 4);
    let mut compiled = 0;
    for pattern in strings_of(&['a', 'b', '|', '*', '(', ')'], 4) {
        let mut lexer = rregex::Lexer::new(pattern);
        let mut parser = rregex::Parser::new(&mut lexer);
        if let Ok(nfa) = parser.parse() {
            let matcher = Matcher::new(nfa);
            for input in &inputs {
                both(&matcher, input);
            }
            compiled += 1;
        }
    }
    assert!(compiled > 100);
}
