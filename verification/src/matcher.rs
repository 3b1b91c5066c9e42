//! The matcher: it runs an automaton against a whole input string and says
//! whether the automaton accepts it.

use std::collections::{HashSet, VecDeque};
use vstd::prelude::*;
use vstd::std_specs::iter::IteratorSpec;
use crate::automaton::{Automaton, StateID, Transition};
use crate::nfa::NFA;
use crate::search::{
    followed, lemma_rejects_after_dead_end, lemma_search_ends, lemma_search_finds,
    lemma_search_leaves, lemma_search_passes, lemma_search_starts, lemma_search_takes,
    lemma_spawn_begins, lemma_spawn_child, lemma_spawn_closes, lemma_spawn_ends, lemma_spawn_known,
    lemma_step_of_more, lemma_step_of_none, lemma_take_more, lemma_targets_of_more,
    lemma_targets_of_none, lemma_tidy_len, queued, settled, sound, spawned, targets, tidy, unseen,
};
use crate::simulation::{
    eps_closure, lemma_accepts_by_set, lemma_closure_of_nothing, lemma_reached_by_nothing,
    lemma_reached_by_push, reached_by, step,
};

verus! {

/// An automaton ready to be run.
pub struct Matcher {
    nfa: NFA,
}

impl View for Matcher {
    type V = Automaton;

    closed spec fn view(&self) -> Automaton {
        self.nfa@
    }
}

impl Matcher {
    /// The automaton of a matcher is well formed.
    #[verifier::type_invariant]
    spec fn sound_automaton(self) -> bool {
        self.nfa@.wf()
    }

    /// A matcher for `nfa`.
    pub fn new(nfa: NFA) -> (matcher: Matcher)
        requires
            nfa@.wf(),
        ensures
            matcher@ == nfa@,
    {
        Matcher { nfa }
    }

    /// The closure of `states` under epsilon edges: every state that
    /// epsilon edges alone lead to from one of them. It does not depend on
    /// the order in which the edges are followed.
    pub fn epsilon_closure(&self, states: HashSet<StateID>) -> (closure: HashSet<StateID>)
        ensures
            closure@ == eps_closure(self@.edges, states@),
    {
        proof {
            use_type_invariant(self);
        }
        let ghost g = self@.edges;
        let ghost seeds = states@;
        let mut stack: VecDeque<StateID> = VecDeque::new();
        let keys = states.iter();
        let ghost all = keys.remaining().unref();
        for state in it: keys
            invariant
                it.seq().unref() == all,
                all.to_set() == seeds,
                stack@ == all.take(it.index()),
        {
            stack.push_back(*state);
            proof {
                assert(all.take(it.index() + 1) =~= all.take(it.index()).push(*state));
            }
        }
        let mut closure = states;
        proof {
            assert(stack@ =~= all);
            lemma_search_starts(g, seeds, all);
        }
        loop
            invariant
                self@.wf(),
                g == self@.edges,
                seeds == states@,
                seeds.subset_of(closure@),
                sound(g, seeds, closure@),
                queued(closure@, stack@),
                settled(g, closure@, stack@, Set::empty()),
            decreases unseen(g, closure@), stack@.len(),
        {
            let ghost old_closure = closure@;
            let ghost full = stack@;
            let state = match stack.pop_front() {
                None => {
                    proof {
                        assert(stack@ =~= Seq::<StateID>::empty());
                        lemma_search_ends(g, seeds, closure@);
                    }
                    return closure;
                },
                Some(state) => state,
            };
            proof {
                lemma_search_takes(g, closure@, full);
                assert(stack@ =~= full.drop_first());
            }
            match self.nfa.transitions(state) {
                None => {},
                Some(transitions) => {
                    let mut j: usize = 0;
                    proof {
                        reveal(followed);
                    }
                    while j < transitions.len()
                        invariant
                            self@.wf(),
                            g == self@.edges,
                            j <= transitions@.len(),
                            state < g.len(),
                            transitions@ == g[state as int],
                            closure@.contains(state),
                            seeds.subset_of(closure@),
                            sound(g, seeds, closure@),
                            queued(closure@, stack@),
                            settled(g, closure@, stack@, Set::empty().insert(state)),
                            followed(g, state, j as int, closure@),
                            unseen(g, closure@) < unseen(g, old_closure) || (closure@
                                == old_closure && stack@.len() < full.len()),
                        decreases transitions@.len() - j,
                    {
                        let (transition, next_state) = transitions[j];
                        if transition == Transition::Epsilon && !closure.contains(&next_state) {
                            proof {
                                lemma_search_finds(
                                    g,
                                    seeds,
                                    closure@,
                                    stack@,
                                    state,
                                    j as int,
                                    next_state,
                                );
                            }
                            closure.insert(next_state);
                            stack.push_back(next_state);
                        } else {
                            proof {
                                lemma_search_passes(g, closure@, state, j as int);
                            }
                        }
                        j += 1;
                    }
                },
            }
            proof {
                lemma_search_leaves(g, closure@, stack@, state);
            }
        }
    }

    /// The states that one edge reading `ch` leads to from a state of `states`.
    fn step_over(&self, states: &HashSet<StateID>, ch: char) -> (next_states: HashSet<StateID>)
        ensures
            next_states@ == step(self@.edges, states@, ch),
    {
        let ghost g = self@.edges;
        let mut next_states: HashSet<StateID> = HashSet::new();
        let keys = states.iter();
        let ghost all = keys.remaining().unref();
        proof {
            lemma_step_of_none(g, ch);
            assert(all.take(0).to_set() =~= Set::<StateID>::empty());
        }
        for state in it: keys
            invariant
                g == self@.edges,
                it.seq().unref() == all,
                all.to_set() == states@,
                next_states@ == step(g, all.take(it.index()).to_set(), ch),
        {
            let ghost done = all.take(it.index()).to_set();
            let ghost base = next_states@;
            proof {
                lemma_take_more(all, it.index());
                lemma_step_of_more(g, done, *state, ch);
            }
            match self.nfa.transitions(*state) {
                None => {},
                Some(transitions) => {
                    let mut j: usize = 0;
                    proof {
                        lemma_targets_of_none(transitions@, ch);
                        assert(base.union(Set::empty()) =~= base);
                    }
                    while j < transitions.len()
                        invariant
                            j <= transitions@.len(),
                            next_states@ == base.union(targets(transitions@.take(j as int), ch)),
                        decreases transitions@.len() - j,
                    {
                        let (transition, next_state) = transitions[j];
                        proof {
                            lemma_targets_of_more(transitions@, j as int, ch);
                        }
                        match transition {
                            Transition::Literal(c) => {
                                if c == ch {
                                    next_states.insert(next_state);
                                    proof {
                                        assert(next_states@ =~= base.union(
                                            targets(transitions@.take(j as int + 1), ch),
                                        ));
                                    }
                                }
                            },
                            Transition::Epsilon => {},
                        }
                        j += 1;
                    }
                },
            }
        }
        proof {
            assert(all.take(all.len() as int) =~= all);
        }
        next_states
    }

    /// Whether one of `states` is an accepting state.
    fn accepts_one_of(&self, states: &HashSet<StateID>) -> (found: bool)
        ensures
            found == exists|q: StateID| #[trigger] self@.accept.contains(q) && states@.contains(q),
    {
        let end_states = self.nfa.end_states();
        let mut i: usize = 0;
        while i < end_states.len()
            invariant
                i <= end_states@.len(),
                end_states@ == self@.accept,
                forall|k: int| 0 <= k < i ==> !states@.contains(#[trigger] end_states@[k]),
            decreases end_states@.len() - i,
        {
            if states.contains(&end_states[i]) {
                assert(self@.accept.contains(end_states@[i as int]));
                return true;
            }
            i += 1;
        }
        false
    }

    /// Runs the automaton on `input` by keeping the set of all states that
    /// the input read so far can lead to, and says whether the whole input
    /// is accepted.
    pub fn set_simulation(&self, input: &str) -> (accepted: bool)
        ensures
            accepted == self@.accepts(input@),
    {
        proof {
            use_type_invariant(self);
        }
        let ghost g = self@.edges;
        let ghost start = self@.start;
        let mut seeds: HashSet<StateID> = HashSet::new();
        seeds.insert(self.nfa.start_state());
        let mut current_states = self.epsilon_closure(seeds);
        let ghost consumed: Seq<char> = Seq::empty();
        proof {
            lemma_reached_by_nothing(g, start);
            assert(seeds@ =~= Set::empty().insert(start));
            assert(input@.take(0) =~= consumed);
        }
        let chars = input.chars();
        for ch in it: chars
            invariant
                self@.wf(),
                g == self@.edges,
                start == self@.start,
                it.seq() == input@,
                consumed == input@.take(it.index()),
                current_states@ == reached_by(g, start, consumed),
        {
            let next_states = self.step_over(&current_states, ch);
            current_states = self.epsilon_closure(next_states);
            proof {
                lemma_reached_by_push(g, start, consumed, ch);
                consumed = consumed.push(ch);
                assert(consumed =~= input@.take(it.index() + 1));
            }
            if current_states.is_empty() {
                proof {
                    lemma_rejects_after_dead_end(self@, input@, it.index() + 1);
                }
                return false;
            }
        }
        proof {
            assert(consumed =~= input@);
            lemma_accepts_by_set(g, start, self@.accept, input@);
        }
        self.accepts_one_of(&current_states)
    }

    /// Whether the automaton accepts the whole of `input`.
    pub fn matches(&self, input: &str) -> (accepted: bool)
        ensures
            accepted == self@.accepts(input@),
    {
        proof {
            use_type_invariant(self);
        }
        self.set_simulation(input)
    }

    /// Whether `state` has a copy among `copies`.
    fn has_copy(copies: &VecDeque<StateID>, state: StateID) -> (found: bool)
        ensures
            found == copies@.contains(state),
    {
        let mut i: usize = 0;
        while i < copies.len()
            invariant
                i <= copies@.len(),
                forall|k: int| 0 <= k < i ==> copies@[k] != state,
            decreases copies@.len() - i,
        {
            if copies[i] == state {
                assert(copies@[i as int] == state);
                return true;
            }
            i += 1;
        }
        false
    }

    /// Puts a copy at `state`, unless one is there, and then at every state
    /// that epsilon edges lead to from it. A state that has a copy is not
    /// visited again, so cycles of epsilon edges end the recursion.
    fn spawn_recursive_copies(&self, state: StateID, copies: &mut VecDeque<StateID>)
        requires
            self@.wf(),
            state < self@.edges.len(),
            tidy(self@.edges, old(copies)@),
        ensures
            tidy(self@.edges, final(copies)@),
            old(copies)@.len() <= final(copies)@.len(),
            spawned(self@.edges, state, old(copies)@.to_set(), final(copies)@.to_set(), true),
        decreases self@.edges.len() - old(copies)@.len(),
    {
        let ghost g = self@.edges;
        let ghost before = copies@.to_set();
        if Self::has_copy(copies, state) {
            proof {
                lemma_spawn_known(g, state, before);
            }
            return ;
        }
        proof {
            lemma_spawn_begins(g, state, copies@);
        }
        copies.push_back(state);
        match self.nfa.transitions(state) {
            None => {},
            Some(transitions) => {
                let mut j: usize = 0;
                while j < transitions.len()
                    invariant
                        self@.wf(),
                        g == self@.edges,
                        before == old(copies)@.to_set(),
                        j <= transitions@.len(),
                        state < g.len(),
                        transitions@ == g[state as int],
                        tidy(g, copies@),
                        old(copies)@.len() < copies@.len(),
                        spawned(g, state, before, copies@.to_set(), false),
                        followed(g, state, j as int, copies@.to_set()),
                    decreases transitions@.len() - j,
                {
                    let (transition, next_state) = transitions[j];
                    match transition {
                        Transition::Epsilon => {
                            let ghost mid = copies@.to_set();
                            proof {
                                lemma_tidy_len(g, copies@);
                            }
                            self.spawn_recursive_copies(next_state, copies);
                            proof {
                                lemma_spawn_child(
                                    g,
                                    state,
                                    j as int,
                                    next_state,
                                    before,
                                    mid,
                                    copies@.to_set(),
                                );
                            }
                        },
                        Transition::Literal(_) => {
                            proof {
                                lemma_search_passes(g, copies@.to_set(), state, j as int);
                            }
                        },
                    }
                    j += 1;
                }
            },
        }
        proof {
            lemma_spawn_ends(g, state, before, copies@.to_set());
        }
    }

    /// The copies after reading `ch`: for every copy that was active, in
    /// turn, copies are spawned at the states that its edges reading `ch`
    /// lead to.
    fn spawn_over(&self, active_copies: &mut VecDeque<StateID>, ch: char) -> (next_copies:
        VecDeque<StateID>)
        requires
            self@.wf(),
        ensures
            tidy(self@.edges, next_copies@),
            next_copies@.to_set() == eps_closure(
                self@.edges,
                step(self@.edges, old(active_copies)@.to_set(), ch),
            ),
    {
        let ghost g = self@.edges;
        let ghost full = active_copies@;
        let ghost taken: int = 0;
        let mut next_copies: VecDeque<StateID> = VecDeque::new();
        proof {
            lemma_step_of_none(g, ch);
            lemma_closure_of_nothing(g);
            assert(full.take(0).to_set() =~= Set::<StateID>::empty());
            assert(next_copies@.to_set() =~= Set::<StateID>::empty());
            assert(full.skip(0) =~= full);
        }
        loop
            invariant
                self@.wf(),
                g == self@.edges,
                full == old(active_copies)@,
                0 <= taken <= full.len(),
                active_copies@ == full.skip(taken),
                tidy(g, next_copies@),
                next_copies@.to_set() == eps_closure(g, step(g, full.take(taken).to_set(), ch)),
            decreases active_copies@.len(),
        {
            let current_state = match active_copies.pop_front() {
                None => {
                    proof {
                        assert(full.take(taken) =~= full);
                    }
                    return next_copies;
                },
                Some(current_state) => current_state,
            };
            let ghost done = full.take(taken).to_set();
            let ghost base = step(g, done, ch);
            proof {
                assert(current_state == full[taken]);
                assert(active_copies@ =~= full.skip(taken + 1));
                lemma_take_more(full, taken);
                lemma_step_of_more(g, done, current_state, ch);
            }
            match self.nfa.transitions(current_state) {
                None => {},
                Some(transitions) => {
                    let mut j: usize = 0;
                    proof {
                        lemma_targets_of_none(transitions@, ch);
                        assert(base.union(Set::empty()) =~= base);
                    }
                    while j < transitions.len()
                        invariant
                            self@.wf(),
                            g == self@.edges,
                            j <= transitions@.len(),
                            current_state < g.len(),
                            transitions@ == g[current_state as int],
                            tidy(g, next_copies@),
                            next_copies@.to_set() == eps_closure(
                                g,
                                base.union(targets(transitions@.take(j as int), ch)),
                            ),
                        decreases transitions@.len() - j,
                    {
                        let (transition, next_state) = transitions[j];
                        proof {
                            lemma_targets_of_more(transitions@, j as int, ch);
                        }
                        match transition {
                            Transition::Literal(c) => {
                                if c == ch {
                                    let ghost seeds = base.union(
                                        targets(transitions@.take(j as int), ch),
                                    );
                                    let ghost mid = next_copies@.to_set();
                                    self.spawn_recursive_copies(next_state, &mut next_copies);
                                    proof {
                                        lemma_spawn_closes(
                                            g,
                                            seeds,
                                            mid,
                                            next_state,
                                            next_copies@.to_set(),
                                        );
                                        assert(seeds.insert(next_state) =~= base.union(
                                            targets(transitions@.take(j as int + 1), ch),
                                        ));
                                    }
                                }
                            },
                            Transition::Epsilon => {},
                        }
                        j += 1;
                    }
                    proof {
                        assert(transitions@.take(transitions@.len() as int) =~= transitions@);
                    }
                },
            }
            proof {
                taken = taken + 1;
            }
        }
    }

    /// Whether one of the copies is at an accepting state.
    fn accepts_at_copy(&self, copies: &VecDeque<StateID>) -> (found: bool)
        ensures
            found == exists|q: StateID| #[trigger]
                self@.accept.contains(q) && copies@.to_set().contains(q),
    {
        let end_states = self.nfa.end_states();
        let mut i: usize = 0;
        while i < end_states.len()
            invariant
                i <= end_states@.len(),
                end_states@ == self@.accept,
                forall|k: int| 0 <= k < i ==> !copies@.contains(#[trigger] end_states@[k]),
            decreases end_states@.len() - i,
        {
            if Self::has_copy(copies, end_states[i]) {
                assert(self@.accept.contains(end_states@[i as int]));
                return true;
            }
            i += 1;
        }
        false
    }

    /// Runs the automaton on `input` by keeping one copy of it at every
    /// state that the input read so far can lead to, and says whether the
    /// whole input is accepted. The verdict is that of `set_simulation`.
    pub fn copy_simulation(&self, input: &str) -> (accepted: bool)
        ensures
            accepted == self@.accepts(input@),
    {
        proof {
            use_type_invariant(self);
        }
        let ghost g = self@.edges;
        let ghost start = self@.start;
        let mut active_copies: VecDeque<StateID> = VecDeque::new();
        proof {
            assert(active_copies@.to_set() =~= Set::<StateID>::empty());
            lemma_closure_of_nothing(g);
        }
        self.spawn_recursive_copies(self.nfa.start_state(), &mut active_copies);
        let ghost consumed: Seq<char> = Seq::empty();
        proof {
            lemma_spawn_closes(g, Set::empty(), Set::empty(), start, active_copies@.to_set());
            lemma_reached_by_nothing(g, start);
            assert(input@.take(0) =~= consumed);
        }
        let chars = input.chars();
        for ch in it: chars
            invariant
                self@.wf(),
                g == self@.edges,
                start == self@.start,
                it.seq() == input@,
                consumed == input@.take(it.index()),
                active_copies@.to_set() == reached_by(g, start, consumed),
        {
            let next_copies = self.spawn_over(&mut active_copies, ch);
            active_copies = next_copies;
            proof {
                lemma_reached_by_push(g, start, consumed, ch);
                consumed = consumed.push(ch);
                assert(consumed =~= input@.take(it.index() + 1));
            }
            if active_copies.len() == 0 {
                proof {
                    assert(active_copies@.to_set() =~= Set::<StateID>::empty());
                    lemma_rejects_after_dead_end(self@, input@, it.index() + 1);
                }
                return false;
            }
        }
        proof {
            assert(consumed =~= input@);
            lemma_accepts_by_set(g, start, self@.accept, input@);
        }
        self.accepts_at_copy(&active_copies)
    }
}

} // verus!
