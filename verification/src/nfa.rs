//! The automaton and the operations that assemble it.
//!
//! One `NFA` is assembled per pattern. Its table of states is the single
//! source of state names: a state is named by its index, so a name is never
//! given out twice. A `Fragment` is the part of the table that stands for a
//! sub-pattern; the operations take fragments by value and hand back the
//! fragment that replaces them.

use vstd::prelude::*;
use crate::automaton::{label_text, Automaton, Part, StateID, Transition};
use crate::language::{lang_char, lang_concat, lang_empty_string, lang_star, lang_union};
use crate::thompson::{
    concat_part, concat_table, grown_from, lemma_concat_table, lemma_pair_table,
    lemma_part_in_range, lemma_star_table, lemma_union_table, linked, pair_part, star_part,
    star_table, union_part, union_table, with_fork, with_pair,
};

verus! {

/// A nondeterministic finite automaton with epsilon edges.
#[derive(Debug)]
pub struct NFA {
    start_state: StateID,
    end_states: Vec<StateID>,
    transitions: Vec<Vec<(Transition, StateID)>>,
}

/// A part of an automaton under assembly: the entry and the exits of the
/// states that stand for one sub-pattern.
pub struct Fragment {
    start: StateID,
    accept: Vec<StateID>,
    states: Ghost<Set<StateID>>,
}

impl View for NFA {
    type V = Automaton;

    closed spec fn view(&self) -> Automaton {
        Automaton {
            start: self.start_state,
            accept: self.end_states@,
            edges: Seq::new(self.transitions@.len(), |i: int| self.transitions@[i]@),
        }
    }
}

impl View for Fragment {
    type V = Part;

    closed spec fn view(&self) -> Part {
        Part { start: self.start, accept: self.accept@, states: self.states@ }
    }
}

impl Fragment {
    /// The state at which the fragment is entered.
    pub fn start(&self) -> (s: StateID)
        ensures
            s == self@.start,
    {
        self.start
    }

    /// The states at which the fragment is left.
    pub fn accept(&self) -> (states: &Vec<StateID>)
        ensures
            states@ == self@.accept,
    {
        &self.accept
    }
}

impl NFA {
    /// An automaton of one state, which is its start, and no accepting
    /// state: it accepts nothing.
    pub fn new() -> (nfa: NFA)
        ensures
            nfa@.wf(),
            nfa@.start == 0,
            nfa@.accept == Seq::<StateID>::empty(),
            nfa@.edges == seq![Seq::<(Transition, StateID)>::empty()],
    {
        let mut transitions: Vec<Vec<(Transition, StateID)>> = Vec::new();
        transitions.push(Vec::new());
        let nfa = NFA { start_state: 0, end_states: Vec::new(), transitions };
        assert(nfa@.edges =~= seq![Seq::<(Transition, StateID)>::empty()]);
        nfa
    }

    /// The state at which the automaton starts.
    pub fn start_state(&self) -> (s: StateID)
        ensures
            s == self@.start,
    {
        self.start_state
    }

    /// The states in which the automaton accepts.
    pub fn end_states(&self) -> (states: &Vec<StateID>)
        ensures
            states@ == self@.accept,
    {
        &self.end_states
    }

    /// How many states the automaton has.
    pub fn state_count(&self) -> (n: usize)
        ensures
            n == self@.edges.len(),
    {
        self.transitions.len()
    }

    /// The edges that leave `state`, in the order in which they were added;
    /// `None` if the automaton has no such state.
    pub fn transitions(&self, state: StateID) -> (edges: Option<&Vec<(Transition, StateID)>>)
        ensures
            state < self@.edges.len() ==> edges.is_some() && edges.unwrap()@
                == self@.edges[state as int],
            state >= self@.edges.len() ==> edges.is_none(),
    {
        if state < self.transitions.len() {
            Some(&self.transitions[state])
        } else {
            None
        }
    }

    /// Adds a state without edges and returns its name, which no state had before.
    pub fn next_state_id(&mut self) -> (id: StateID)
        requires
            old(self)@.wf(),
        ensures
            id == old(self)@.edges.len(),
            final(self)@.wf(),
            final(self)@.start == old(self)@.start,
            final(self)@.accept == old(self)@.accept,
            final(self)@.edges == old(self)@.edges.push(Seq::empty()),
    {
        let id = self.transitions.len();
        self.transitions.push(Vec::new());
        proof {
            let g = old(self)@.edges;
            let h = self@.edges;
            assert(h =~= g.push(Seq::empty()));
            assert(self.transitions.len() == h.len());
            assert(self@.accept == old(self)@.accept);
            assert forall|s: int, k: int| 0 <= s < h.len() && 0 <= k < h[s].len() implies (
            #[trigger] h[s][k]).1 < h.len() by {
                assert(h[s][k] == g[s][k]);
            }
        }
        id
    }

    /// Adds an edge from `from` to `to`, after the edges that `from` has.
    pub fn add_transition(&mut self, from: StateID, transition: Transition, to: StateID)
        requires
            old(self)@.wf(),
            from < old(self)@.edges.len(),
            to < old(self)@.edges.len(),
        ensures
            final(self)@.wf(),
            final(self)@.start == old(self)@.start,
            final(self)@.accept == old(self)@.accept,
            final(self)@.edges == old(self)@.edges.update(
                from as int,
                old(self)@.edges[from as int].push((transition, to)),
            ),
    {
        self.transitions[from].push((transition, to));
        proof {
            let g = old(self)@.edges;
            let h = self@.edges;
            assert(h =~= g.update(from as int, g[from as int].push((transition, to))));
            assert(self@.accept == old(self)@.accept);
            assert forall|s: int, k: int| 0 <= s < h.len() && 0 <= k < h[s].len() implies (
            #[trigger] h[s][k]).1 < h.len() by {
                if s != from || k < g[s].len() {
                    assert(h[s][k] == g[s][k]);
                }
            }
        }
    }

    /// Adds an epsilon edge to `target` from each state of `sources`.
    fn link(&mut self, sources: &Vec<StateID>, target: StateID)
        requires
            old(self)@.wf(),
            target < old(self)@.edges.len(),
            forall|i: int|
                0 <= i < sources@.len() ==> #[trigger] sources@[i] < old(self)@.edges.len(),
        ensures
            final(self)@.wf(),
            final(self)@.start == old(self)@.start,
            final(self)@.accept == old(self)@.accept,
            final(self)@.edges == linked(old(self)@.edges, sources@, target),
            final(self)@.edges.len() == old(self)@.edges.len(),
    {
        let mut i: usize = 0;
        while i < sources.len()
            invariant
                i <= sources@.len(),
                self@.wf(),
                self@.start == old(self)@.start,
                self@.accept == old(self)@.accept,
                self@.edges.len() == old(self)@.edges.len(),
                self@.edges == linked(old(self)@.edges, sources@.take(i as int), target),
                target < old(self)@.edges.len(),
                forall|i: int|
                    0 <= i < sources@.len() ==> #[trigger] sources@[i] < old(self)@.edges.len(),
            decreases sources@.len() - i,
        {
            self.add_transition(sources[i], Transition::Epsilon, target);
            proof {
                let next = sources@.take(i as int + 1);
                assert(next.drop_last() =~= sources@.take(i as int));
                assert(next.last() == sources@[i as int]);
            }
            i += 1;
        }
        assert(sources@.take(i as int) =~= sources@);
    }

    /// Adds two states joined by one edge with this label.
    fn pair(&mut self, label: Transition) -> (nfa: Fragment)
        requires
            old(self)@.wf(),
        ensures
            final(self)@.wf(),
            final(self)@.start == old(self)@.start,
            final(self)@.accept == old(self)@.accept,
            final(self)@.edges == with_pair(old(self)@.edges, label),
            nfa@ == pair_part(
                old(self)@.edges.len() as StateID,
                (old(self)@.edges.len() + 1) as StateID,
            ),
    {
        let ghost g = self@.edges;
        let start = self.next_state_id();
        let end = self.next_state_id();
        self.add_transition(start, label, end);
        let mut accept: Vec<StateID> = Vec::new();
        accept.push(end);
        let nfa = Fragment { start, accept, states: Ghost(Set::empty().insert(start).insert(end)) };
        proof {
            assert(self@.edges =~= with_pair(g, label));
            assert(nfa@.accept =~= seq![end]);
        }
        nfa
    }

    /// The fragment for one character: two fresh states, joined by an edge
    /// that reads `c`.
    pub fn literal(&mut self, c: char) -> (nfa: Fragment)
        requires
            old(self)@.wf(),
        ensures
            final(self)@.wf(),
            final(self)@.start == old(self)@.start,
            final(self)@.accept == old(self)@.accept,
            final(self)@.edges == with_pair(old(self)@.edges, Transition::Literal(c)),
            final(self)@.edges.len() == old(self)@.edges.len() + 2,
            grown_from(old(self)@.edges, final(self)@.edges, Set::empty()),
            nfa@ == pair_part(
                old(self)@.edges.len() as StateID,
                (old(self)@.edges.len() + 1) as StateID,
            ),
            nfa@.inside(final(self)@.edges),
            nfa@.language(final(self)@.edges) == lang_char(c),
    {
        let nfa = self.pair(Transition::Literal(c));
        proof {
            lemma_pair_table(old(self)@.edges, Transition::Literal(c));
            assert(nfa@.language(self@.edges) =~= lang_char(c));
        }
        nfa
    }

    /// The fragment for the empty string: two fresh states, joined by an
    /// epsilon edge.
    pub fn epsilon(&mut self) -> (nfa: Fragment)
        requires
            old(self)@.wf(),
        ensures
            final(self)@.wf(),
            final(self)@.start == old(self)@.start,
            final(self)@.accept == old(self)@.accept,
            final(self)@.edges == with_pair(old(self)@.edges, Transition::Epsilon),
            final(self)@.edges.len() == old(self)@.edges.len() + 2,
            grown_from(old(self)@.edges, final(self)@.edges, Set::empty()),
            nfa@ == pair_part(
                old(self)@.edges.len() as StateID,
                (old(self)@.edges.len() + 1) as StateID,
            ),
            nfa@.inside(final(self)@.edges),
            nfa@.language(final(self)@.edges) == lang_empty_string(),
    {
        let nfa = self.pair(Transition::Epsilon);
        proof {
            lemma_pair_table(old(self)@.edges, Transition::Epsilon);
            assert forall|w: Seq<char>| w == label_text(Transition::Epsilon) <==> w.len() == 0 by {
                if w.len() == 0 {
                    assert(w =~= label_text(Transition::Epsilon));
                }
            }
            assert(nfa@.language(self@.edges) =~= lang_empty_string());
        }
        nfa
    }

    /// The fragment that accepts what either operand accepts: a fresh entry
    /// with epsilon edges to both entries, and a fresh exit to which every
    /// exit of both operands gets an epsilon edge.
    pub fn union(&mut self, nfa1: Fragment, nfa2: Fragment) -> (nfa: Fragment)
        requires
            old(self)@.wf(),
            nfa1@.inside(old(self)@.edges),
            nfa2@.inside(old(self)@.edges),
            nfa1@.states.disjoint(nfa2@.states),
        ensures
            final(self)@.wf(),
            final(self)@.start == old(self)@.start,
            final(self)@.accept == old(self)@.accept,
            final(self)@.edges == union_table(old(self)@.edges, nfa1@, nfa2@),
            final(self)@.edges.len() == old(self)@.edges.len() + 2,
            grown_from(old(self)@.edges, final(self)@.edges, nfa1@.states.union(nfa2@.states)),
            nfa@ == union_part(
                nfa1@,
                nfa2@,
                old(self)@.edges.len() as StateID,
                (old(self)@.edges.len() + 1) as StateID,
            ),
            nfa@.inside(final(self)@.edges),
            nfa@.language(final(self)@.edges) == lang_union(
                nfa1@.language(old(self)@.edges),
                nfa2@.language(old(self)@.edges),
            ),
    {
        let ghost g = self@.edges;
        proof {
            lemma_part_in_range(g, nfa1@);
            lemma_part_in_range(g, nfa2@);
        }
        let start = self.next_state_id();
        let end = self.next_state_id();
        self.add_transition(start, Transition::Epsilon, nfa1.start);
        self.add_transition(start, Transition::Epsilon, nfa2.start);
        let ghost forked = self@.edges;
        self.link(&nfa1.accept, end);
        self.link(&nfa2.accept, end);
        let mut accept: Vec<StateID> = Vec::new();
        accept.push(end);
        let nfa = Fragment {
            start,
            accept,
            states: Ghost(nfa1@.states.union(nfa2@.states).insert(start).insert(end)),
        };
        proof {
            assert(forked =~~= with_fork(g, nfa1@.start, nfa2@.start));
            assert(nfa@.accept =~= seq![end]);
            lemma_union_table(g, nfa1@, nfa2@);
        }
        nfa
    }

    /// The fragment that accepts a string of the first operand followed by a
    /// string of the second: every exit of the first gets an epsilon edge to
    /// the entry of the second.
    pub fn concatenate(&mut self, nfa1: Fragment, nfa2: Fragment) -> (nfa: Fragment)
        requires
            old(self)@.wf(),
            nfa1@.inside(old(self)@.edges),
            nfa2@.inside(old(self)@.edges),
            nfa1@.states.disjoint(nfa2@.states),
        ensures
            final(self)@.wf(),
            final(self)@.start == old(self)@.start,
            final(self)@.accept == old(self)@.accept,
            final(self)@.edges == concat_table(old(self)@.edges, nfa1@, nfa2@),
            final(self)@.edges.len() == old(self)@.edges.len(),
            grown_from(old(self)@.edges, final(self)@.edges, nfa1@.states),
            nfa@ == concat_part(nfa1@, nfa2@),
            nfa@.inside(final(self)@.edges),
            nfa@.language(final(self)@.edges) == lang_concat(
                nfa1@.language(old(self)@.edges),
                nfa2@.language(old(self)@.edges),
            ),
    {
        let ghost g = self@.edges;
        proof {
            lemma_part_in_range(g, nfa1@);
            lemma_part_in_range(g, nfa2@);
        }
        self.link(&nfa1.accept, nfa2.start);
        let nfa = Fragment {
            start: nfa1.start,
            accept: nfa2.accept,
            states: Ghost(nfa1@.states.union(nfa2@.states)),
        };
        proof {
            lemma_concat_table(g, nfa1@, nfa2@);
        }
        nfa
    }

    /// The fragment that accepts zero or more strings of the operand, one
    /// after the other: a fresh entry and a fresh exit; the entry and every
    /// exit of the operand get epsilon edges to the operand's entry and to
    /// the fresh exit.
    pub fn kleene_star(&mut self, nfa1: Fragment) -> (nfa: Fragment)
        requires
            old(self)@.wf(),
            nfa1@.inside(old(self)@.edges),
        ensures
            final(self)@.wf(),
            final(self)@.start == old(self)@.start,
            final(self)@.accept == old(self)@.accept,
            final(self)@.edges == star_table(old(self)@.edges, nfa1@),
            final(self)@.edges.len() == old(self)@.edges.len() + 2,
            grown_from(old(self)@.edges, final(self)@.edges, nfa1@.states),
            nfa@ == star_part(
                nfa1@,
                old(self)@.edges.len() as StateID,
                (old(self)@.edges.len() + 1) as StateID,
            ),
            nfa@.inside(final(self)@.edges),
            nfa@.language(final(self)@.edges) == lang_star(nfa1@.language(old(self)@.edges)),
    {
        let ghost g = self@.edges;
        proof {
            lemma_part_in_range(g, nfa1@);
            assert(nfa1@.accept == nfa1.accept@);
        }
        let start = self.next_state_id();
        let end = self.next_state_id();
        self.add_transition(start, Transition::Epsilon, nfa1.start);
        self.add_transition(start, Transition::Epsilon, end);
        let ghost forked = self@.edges;
        self.link(&nfa1.accept, nfa1.start);
        self.link(&nfa1.accept, end);
        let mut accept: Vec<StateID> = Vec::new();
        accept.push(end);
        let nfa = Fragment { start, accept, states: Ghost(nfa1@.states.insert(start).insert(end)) };
        proof {
            assert(forked =~~= with_fork(g, nfa1@.start, end));
            assert(nfa@.accept =~= seq![end]);
            lemma_star_table(g, nfa1@);
        }
        nfa
    }

    /// Makes the fragment the whole automaton: its entry becomes the start
    /// state, its exits the accepting states.
    pub fn finish(&mut self, nfa: Fragment)
        requires
            old(self)@.wf(),
            nfa@.inside(old(self)@.edges),
        ensures
            final(self)@.wf(),
            final(self)@.start == nfa@.start,
            final(self)@.accept == nfa@.accept,
            final(self)@.edges == old(self)@.edges,
            final(self)@.language() == nfa@.language(old(self)@.edges),
    {
        proof {
            lemma_part_in_range(self@.edges, nfa@);
            assert(nfa@.accept == nfa.accept@);
        }
        self.start_state = nfa.start;
        self.end_states = nfa.accept;
        proof {
            assert(self@.edges =~= old(self)@.edges);
        }
    }
}

} // verus!
