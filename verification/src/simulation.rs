//! Running an automaton on all its walks at once: the set of states that a
//! given input can lead to, and how that set moves from one character to
//! the next.

use vstd::prelude::*;
use crate::automaton::{
    accepts_in, has_edge, is_walk, label_text, lemma_reaches_lift, lemma_reaches_self,
    lemma_reaches_step, lemma_reaches_trans, lemma_reaches_walk, lemma_walk_drop_last,
    lemma_walk_reaches, reaches, spelled, subgraph, walk_end, StateID, Table, Transition,
};

verus! {

/// The states that epsilon edges alone lead to from a state of `states`,
/// those states included.
pub open spec fn eps_closure(g: Table, states: Set<StateID>) -> Set<StateID> {
    Set::new(
        |q: StateID|
            exists|p: StateID| #[trigger] states.contains(p) && reaches(g, p, Seq::empty(), q),
    )
}

/// The states that one edge reading `c` leads to from a state of `states`.
pub open spec fn step(g: Table, states: Set<StateID>, c: char) -> Set<StateID> {
    Set::new(
        |q: StateID|
            exists|p: StateID| #[trigger]
                states.contains(p) && has_edge(g, p, Transition::Literal(c), q),
    )
}

/// The states that reading exactly `w` can lead to from `start`.
pub open spec fn reached_by(g: Table, start: StateID, w: Seq<char>) -> Set<StateID> {
    Set::new(|q: StateID| reaches(g, start, w, q))
}

/// No epsilon edge leads out of `states`.
pub open spec fn eps_closed(g: Table, states: Set<StateID>) -> bool {
    forall|p: StateID, q: StateID| #[trigger]
        has_edge(g, p, Transition::Epsilon, q) && states.contains(p) ==> states.contains(q)
}

/// Before any input is read, the automaton is in the closure of its start state.
pub proof fn lemma_reached_by_nothing(g: Table, start: StateID)
    ensures
        reached_by(g, start, Seq::empty()) == eps_closure(g, Set::empty().insert(start)),
{
    let one = Set::<StateID>::empty().insert(start);
    assert forall|q: StateID|
        reached_by(g, start, Seq::empty()).contains(q) <==> eps_closure(g, one).contains(q) by {
        if reaches(g, start, Seq::empty(), q) {
            assert(one.contains(start));
        }
    }
    assert(reached_by(g, start, Seq::empty()) =~= eps_closure(g, one));
}

/// A walk that reads nothing more after `w` than `c` takes an edge that
/// reads `c` after reading `w`, and only epsilon edges after that.
proof fn lemma_last_char(
    g: Table,
    start: StateID,
    walk: Seq<(Transition, StateID)>,
    w: Seq<char>,
    c: char,
)
    requires
        is_walk(g, start, walk),
        spelled(walk) == w.push(c),
    ensures
        exists|p: StateID, r: StateID|
            #![trigger has_edge(g, p, Transition::Literal(c), r)]
            reaches(g, start, w, p) && has_edge(g, p, Transition::Literal(c), r) && reaches(
                g,
                r,
                Seq::empty(),
                walk_end(start, walk),
            ),
    decreases walk.len(),
{
    if walk.len() == 0 {
        assert(w.push(c).len() > 0);
    } else {
        let front = walk.drop_last();
        let l = walk.last().0;
        let x = walk.last().1;
        let y = walk_end(start, front);
        lemma_walk_drop_last(g, start, walk);
        match l {
            Transition::Literal(d) => {
                assert(spelled(front).push(d) =~= spelled(front) + label_text(l));
                assert(spelled(front).push(d).last() == d);
                assert(w.push(c).last() == c);
                assert(spelled(front).push(d).drop_last() =~= spelled(front));
                assert(w.push(c).drop_last() =~= w);
                lemma_walk_reaches(g, start, front);
                assert(spelled(front) =~= w);
                lemma_reaches_self(g, x);
                assert(has_edge(g, y, Transition::Literal(c), x));
            },
            Transition::Epsilon => {
                assert(spelled(front) + label_text(l) =~= spelled(front));
                lemma_last_char(g, start, front, w, c);
                let (p, r) = choose|p: StateID, r: StateID|
                    #![trigger has_edge(g, p, Transition::Literal(c), r)]
                    reaches(g, start, w, p) && has_edge(g, p, Transition::Literal(c), r) && reaches(
                        g,
                        r,
                        Seq::empty(),
                        y,
                    );
                lemma_reaches_step(g, r, Seq::empty(), y, l, x);
                assert(Seq::<char>::empty() + label_text(l) =~= Seq::<char>::empty());
                assert(has_edge(g, p, Transition::Literal(c), r));
            },
        }
    }
}

/// Reading one more character moves the set of states along the edges that
/// read it, and then along epsilon edges.
pub proof fn lemma_reached_by_push(g: Table, start: StateID, w: Seq<char>, c: char)
    ensures
        reached_by(g, start, w.push(c)) == eps_closure(g, step(g, reached_by(g, start, w), c)),
{
    let before = reached_by(g, start, w);
    let moved = step(g, before, c);
    let none = Seq::<char>::empty();
    assert forall|q: StateID|
        reached_by(g, start, w.push(c)).contains(q) <==> eps_closure(g, moved).contains(q) by {
        if reaches(g, start, w.push(c), q) {
            let walk = lemma_reaches_walk(g, start, w.push(c), q);
            lemma_last_char(g, start, walk, w, c);
            let (p, r) = choose|p: StateID, r: StateID|
                #![trigger has_edge(g, p, Transition::Literal(c), r)]
                reaches(g, start, w, p) && has_edge(g, p, Transition::Literal(c), r) && reaches(
                    g,
                    r,
                    Seq::empty(),
                    q,
                );
            assert(before.contains(p));
            assert(moved.contains(r));
        }
        if eps_closure(g, moved).contains(q) {
            let r = choose|r: StateID| #[trigger] moved.contains(r) && reaches(g, r, none, q);
            let p = choose|p: StateID| #[trigger]
                before.contains(p) && has_edge(g, p, Transition::Literal(c), r);
            lemma_reaches_step(g, start, w, p, Transition::Literal(c), r);
            lemma_reaches_trans(g, start, w + label_text(Transition::Literal(c)), r, none, q);
            assert((w + label_text(Transition::Literal(c))) + none =~= w.push(c));
        }
    }
    assert(reached_by(g, start, w.push(c)) =~= eps_closure(g, moved));
}

/// The automaton accepts an input exactly if the input can lead to an
/// accepting state.
pub proof fn lemma_accepts_by_set(g: Table, start: StateID, accept: Seq<StateID>, w: Seq<char>)
    ensures
        accepts_in(g, start, accept, w) <==> exists|q: StateID| #[trigger]
            accept.contains(q) && reached_by(g, start, w).contains(q),
{
    if accepts_in(g, start, accept, w) {
        let q = choose|q: StateID| #[trigger] accept.contains(q) && reaches(g, start, w, q);
        assert(accept.contains(q) && reached_by(g, start, w).contains(q));
    }
}

/// Once no state is left, none comes back: if `w` leads nowhere, neither
/// does any input that starts with `w`.
pub proof fn lemma_dead_end(g: Table, start: StateID, w: Seq<char>, v: Seq<char>)
    requires
        reached_by(g, start, w) =~= Set::<StateID>::empty(),
    ensures
        reached_by(g, start, w + v) =~= Set::<StateID>::empty(),
    decreases v.len(),
{
    if v.len() == 0 {
        assert(w + v =~= w);
    } else {
        let c = v.last();
        let shorter = v.drop_last();
        lemma_dead_end(g, start, w, shorter);
        lemma_reached_by_push(g, start, w + shorter, c);
        assert((w + shorter).push(c) =~= w + v);
        let before = reached_by(g, start, w + shorter);
        let moved = step(g, before, c);
        assert forall|q: StateID| !reached_by(g, start, w + v).contains(q) by {
            if eps_closure(g, moved).contains(q) {
                let r = choose|r: StateID| #[trigger]
                    moved.contains(r) && reaches(g, r, Seq::empty(), q);
                let p = choose|p: StateID| #[trigger]
                    before.contains(p) && has_edge(g, p, Transition::Literal(c), r);
                assert(false);
            }
        }
    }
}

/// A walk along epsilon edges that starts in a set closed under them ends
/// in it.
proof fn lemma_silent_walk_stays(
    g: Table,
    states: Set<StateID>,
    p: StateID,
    walk: Seq<(Transition, StateID)>,
)
    requires
        eps_closed(g, states),
        states.contains(p),
        is_walk(g, p, walk),
        spelled(walk).len() == 0,
    ensures
        states.contains(walk_end(p, walk)),
    decreases walk.len(),
{
    if walk.len() > 0 {
        let front = walk.drop_last();
        let l = walk.last().0;
        lemma_walk_drop_last(g, p, walk);
        assert(spelled(walk).len() == spelled(front).len() + label_text(l).len());
        assert(l == Transition::Epsilon);
        lemma_silent_walk_stays(g, states, p, front);
    }
}

/// The closure is the least set that holds the given states and is closed
/// under epsilon edges: a set that holds them, is closed, and holds only
/// what they reach, is the closure.
pub proof fn lemma_closure_is_least(g: Table, seeds: Set<StateID>, states: Set<StateID>)
    requires
        seeds.subset_of(states),
        eps_closed(g, states),
        states.subset_of(eps_closure(g, seeds)),
    ensures
        states == eps_closure(g, seeds),
{
    assert forall|q: StateID| eps_closure(g, seeds).contains(q) implies states.contains(q) by {
        let p = choose|p: StateID| #[trigger] seeds.contains(p) && reaches(g, p, Seq::empty(), q);
        let walk = lemma_reaches_walk(g, p, Seq::<char>::empty(), q);
        lemma_silent_walk_stays(g, states, p, walk);
    }
    assert(states =~= eps_closure(g, seeds));
}

/// The closure of nothing is nothing.
pub proof fn lemma_closure_of_nothing(g: Table)
    ensures
        eps_closure(g, Set::empty()) == Set::<StateID>::empty(),
{
    assert(eps_closure(g, Set::empty()) =~= Set::<StateID>::empty());
}

/// The two tables have the same edges, in whatever order each lists them.
pub open spec fn same_edges(g: Table, h: Table) -> bool {
    forall|p: StateID, l: Transition, q: StateID|
        has_edge(g, p, l, q) == #[trigger] has_edge(h, p, l, q)
}

/// The closure of a set of states depends on which edges there are, not on
/// the order in which a state lists them, nor then on the order in which
/// they are followed.
pub proof fn lemma_closure_ignores_order(g: Table, h: Table, states: Set<StateID>)
    requires
        same_edges(g, h),
    ensures
        eps_closure(g, states) == eps_closure(h, states),
{
    assert(subgraph(g, h)) by {
        assert forall|p: StateID, l: Transition, q: StateID| #[trigger]
            has_edge(g, p, l, q) implies has_edge(h, p, l, q) by {
            assert(has_edge(g, p, l, q) == has_edge(h, p, l, q));
        }
    }
    assert(subgraph(h, g));
    assert forall|q: StateID| eps_closure(g, states).contains(q) <==> eps_closure(
        h,
        states,
    ).contains(q) by {
        if eps_closure(g, states).contains(q) {
            let p = choose|p: StateID| #[trigger]
                states.contains(p) && reaches(g, p, Seq::empty(), q);
            lemma_reaches_lift(g, h, p, Seq::empty(), q);
        }
        if eps_closure(h, states).contains(q) {
            let p = choose|p: StateID| #[trigger]
                states.contains(p) && reaches(h, p, Seq::empty(), q);
            lemma_reaches_lift(h, g, p, Seq::empty(), q);
        }
    }
    assert(eps_closure(g, states) =~= eps_closure(h, states));
}

} // verus!
