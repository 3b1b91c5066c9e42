//! What the two simulations keep true while they search: the facts about
//! the states seen so far that make the search end with the right set.

use vstd::prelude::*;
use crate::automaton::{
    has_edge, lemma_reaches_self, lemma_reaches_step, lemma_reaches_trans, reaches, Automaton,
    StateID, Table, Transition,
};
use crate::simulation::{
    eps_closure, lemma_accepts_by_set, lemma_closure_is_least, lemma_dead_end, reached_by, step,
};

verus! {

/// The states with a name below `n`.
pub(crate) open spec fn below(n: nat) -> Set<StateID> {
    Set::new(|s: StateID| s < n)
}

/// There are `n` states with a name below `n`.
pub(crate) proof fn lemma_below(n: nat)
    requires
        n <= usize::MAX + 1,
    ensures
        below(n).finite(),
        below(n).len() == n,
    decreases n,
{
    if n == 0 {
        assert(below(n) =~= Set::<StateID>::empty());
    } else {
        let m = (n - 1) as nat;
        lemma_below(m);
        assert(below(n) =~= below(m).insert(m as StateID));
    }
}

/// The states of `g` that are not in `seen`: how many there are.
pub(crate) open spec fn unseen(g: Table, seen: Set<StateID>) -> nat {
    below(g.len()).difference(seen).len()
}

/// Seeing one more state of `g` leaves fewer unseen.
pub(crate) proof fn lemma_one_more_seen(g: Table, seen: Set<StateID>, q: StateID)
    requires
        g.len() <= usize::MAX,
        q < g.len(),
        !seen.contains(q),
    ensures
        unseen(g, seen.insert(q)) < unseen(g, seen),
{
    lemma_below(g.len());
    let before = below(g.len()).difference(seen);
    let now = below(g.len()).difference(seen.insert(q));
    assert(before.contains(q));
    assert(now =~= before.remove(q));
}

/// Every state that was seen is reached from a seed along epsilon edges.
#[verifier::opaque]
pub(crate) open spec fn sound(g: Table, seeds: Set<StateID>, seen: Set<StateID>) -> bool {
    seen.subset_of(eps_closure(g, seeds))
}

/// Every state that is waiting was seen.
#[verifier::opaque]
pub(crate) open spec fn queued(seen: Set<StateID>, waiting: Seq<StateID>) -> bool {
    forall|i: int| 0 <= i < waiting.len() ==> seen.contains(#[trigger] waiting[i])
}

/// The epsilon edges of every state that was seen lead to states that were
/// seen, but for the states that are waiting and those in `busy`.
#[verifier::opaque]
pub(crate) open spec fn settled(
    g: Table,
    seen: Set<StateID>,
    waiting: Seq<StateID>,
    busy: Set<StateID>,
) -> bool {
    forall|p: StateID, q: StateID| #[trigger]
        has_edge(g, p, Transition::Epsilon, q) && seen.contains(p) && !waiting.contains(p)
            && !busy.contains(p) ==> seen.contains(q)
}

/// The first `j` edges of `state` lead to states that were seen, as far as
/// they are epsilon edges.
#[verifier::opaque]
pub(crate) open spec fn followed(g: Table, state: StateID, j: int, seen: Set<StateID>) -> bool {
    forall|k: int|
        0 <= k < j && k < g[state as int].len() && (#[trigger] g[state as int][k]).0
            == Transition::Epsilon ==> seen.contains(g[state as int][k].1)
}

/// At the start every seed is waiting.
pub(crate) proof fn lemma_search_starts(g: Table, seeds: Set<StateID>, all: Seq<StateID>)
    requires
        all.to_set() == seeds,
    ensures
        sound(g, seeds, seeds),
        queued(seeds, all),
        settled(g, seeds, all, Set::empty()),
{
    reveal(sound);
    reveal(queued);
    reveal(settled);
    assert forall|q: StateID| seeds.contains(q) implies eps_closure(g, seeds).contains(q) by {
        lemma_reaches_self(g, q);
    }
    assert forall|i: int| 0 <= i < all.len() implies seeds.contains(#[trigger] all[i]) by {
        assert(all.to_set().contains(all[i]));
    }
    assert forall|p: StateID| seeds.contains(p) implies all.contains(p) by {
        assert(all.to_set().contains(p));
    }
}

/// The state at the front of the queue is taken off it.
pub(crate) proof fn lemma_search_takes(g: Table, seen: Set<StateID>, full: Seq<StateID>)
    requires
        full.len() > 0,
        queued(seen, full),
        settled(g, seen, full, Set::empty()),
    ensures
        seen.contains(full[0]),
        queued(seen, full.drop_first()),
        settled(g, seen, full.drop_first(), Set::empty().insert(full[0])),
{
    reveal(queued);
    reveal(settled);
    let rest = full.drop_first();
    assert forall|i: int| 0 <= i < rest.len() implies seen.contains(#[trigger] rest[i]) by {
        assert(rest[i] == full[i + 1]);
    }
    assert forall|p: StateID| p != full[0] && !rest.contains(p) implies !full.contains(p) by {
        if full.contains(p) {
            let i = choose|i: int| 0 <= i < full.len() && full[i] == p;
            assert(rest[i - 1] == p);
        }
    }
}

/// An epsilon edge of the state at work leads to a state not seen before,
/// which is now seen and waits.
pub(crate) proof fn lemma_search_finds(
    g: Table,
    seeds: Set<StateID>,
    seen: Set<StateID>,
    waiting: Seq<StateID>,
    state: StateID,
    j: int,
    next: StateID,
)
    requires
        g.len() <= usize::MAX,
        state < g.len(),
        next < g.len(),
        0 <= j < g[state as int].len(),
        g[state as int][j] == (Transition::Epsilon, next),
        seen.contains(state),
        !seen.contains(next),
        sound(g, seeds, seen),
        queued(seen, waiting),
        settled(g, seen, waiting, Set::empty().insert(state)),
        followed(g, state, j, seen),
    ensures
        sound(g, seeds, seen.insert(next)),
        queued(seen.insert(next), waiting.push(next)),
        settled(g, seen.insert(next), waiting.push(next), Set::empty().insert(state)),
        followed(g, state, j + 1, seen.insert(next)),
        unseen(g, seen.insert(next)) < unseen(g, seen),
{
    reveal(sound);
    reveal(queued);
    reveal(settled);
    reveal(followed);
    let longer = waiting.push(next);
    lemma_one_more_seen(g, seen, next);
    assert(has_edge(g, state, Transition::Epsilon, next));
    assert(eps_closure(g, seeds).contains(state));
    let seed = choose|seed: StateID| #[trigger]
        seeds.contains(seed) && reaches(g, seed, Seq::empty(), state);
    lemma_reaches_step(g, seed, Seq::empty(), state, Transition::Epsilon, next);
    assert(Seq::<char>::empty() + Seq::<char>::empty() =~= Seq::<char>::empty());
    assert(eps_closure(g, seeds).contains(next));
    assert(longer[waiting.len() as int] == next);
    assert forall|p: StateID| waiting.contains(p) implies longer.contains(p) by {
        let i = choose|i: int| 0 <= i < waiting.len() && waiting[i] == p;
        assert(longer[i] == p);
    }
}

/// An edge of the state at work is passed over: it is no epsilon edge, or
/// it leads to a state that was seen.
pub(crate) proof fn lemma_search_passes(g: Table, seen: Set<StateID>, state: StateID, j: int)
    requires
        state < g.len(),
        0 <= j < g[state as int].len(),
        g[state as int][j].0 != Transition::Epsilon || seen.contains(g[state as int][j].1),
        followed(g, state, j, seen),
    ensures
        followed(g, state, j + 1, seen),
{
    reveal(followed);
}

/// The state at work is done with: all of its edges were followed.
pub(crate) proof fn lemma_search_leaves(
    g: Table,
    seen: Set<StateID>,
    waiting: Seq<StateID>,
    state: StateID,
)
    requires
        settled(g, seen, waiting, Set::empty().insert(state)),
        state < g.len() ==> followed(g, state, g[state as int].len() as int, seen),
    ensures
        settled(g, seen, waiting, Set::empty()),
{
    reveal(settled);
    reveal(followed);
    assert forall|p: StateID, q: StateID| #[trigger]
        has_edge(g, p, Transition::Epsilon, q) && seen.contains(p) && !waiting.contains(p)
            && !Set::<StateID>::empty().contains(p) implies seen.contains(q) by {
        if p == state {
            let row = g[state as int];
            let k = choose|k: int| 0 <= k < row.len() && row[k] == (Transition::Epsilon, q);
            assert(row[k].0 == Transition::Epsilon);
        } else {
            assert(!Set::<StateID>::empty().insert(state).contains(p));
        }
    }
}

/// When no state waits any more, the states that were seen are the closure.
pub(crate) proof fn lemma_search_ends(g: Table, seeds: Set<StateID>, seen: Set<StateID>)
    requires
        seeds.subset_of(seen),
        sound(g, seeds, seen),
        settled(g, seen, Seq::empty(), Set::empty()),
    ensures
        seen == eps_closure(g, seeds),
{
    reveal(sound);
    reveal(settled);
    lemma_closure_is_least(g, seeds, seen);
}

/// The states that the edges of `row` that read `c` lead to.
pub(crate) open spec fn targets(row: Seq<(Transition, StateID)>, c: char) -> Set<StateID> {
    Set::new(|q: StateID| row.contains((Transition::Literal(c), q)))
}

/// The targets of no edges are no states.
pub(crate) proof fn lemma_targets_of_none(row: Seq<(Transition, StateID)>, c: char)
    ensures
        targets(row.take(0), c) == Set::<StateID>::empty(),
{
    assert(targets(row.take(0), c) =~= Set::<StateID>::empty());
}

/// The targets of one more edge.
pub(crate) proof fn lemma_targets_of_more(row: Seq<(Transition, StateID)>, j: int, c: char)
    requires
        0 <= j < row.len(),
    ensures
        targets(row.take(j + 1), c) == if row[j].0 == Transition::Literal(c) {
            targets(row.take(j), c).insert(row[j].1)
        } else {
            targets(row.take(j), c)
        },
{
    let shorter = row.take(j);
    let longer = row.take(j + 1);
    let wanted = if row[j].0 == Transition::Literal(c) {
        targets(shorter, c).insert(row[j].1)
    } else {
        targets(shorter, c)
    };
    assert(longer[j] == row[j]);
    assert forall|q: StateID| targets(longer, c).contains(q) <==> wanted.contains(q) by {
        let edge = (Transition::Literal(c), q);
        if shorter.contains(edge) {
            let k = choose|k: int| 0 <= k < shorter.len() && shorter[k] == edge;
            assert(longer[k] == edge);
        }
        if longer.contains(edge) {
            let k = choose|k: int| 0 <= k < longer.len() && longer[k] == edge;
            if k < j {
                assert(shorter[k] == edge);
            }
        }
    }
    assert(targets(longer, c) =~= wanted);
}

/// No state is moved to from no states.
pub(crate) proof fn lemma_step_of_none(g: Table, c: char)
    ensures
        step(g, Set::empty(), c) == Set::<StateID>::empty(),
{
    assert(step(g, Set::empty(), c) =~= Set::<StateID>::empty());
}

/// The states moved to from one more state.
pub(crate) proof fn lemma_step_of_more(g: Table, states: Set<StateID>, p: StateID, c: char)
    ensures
        step(g, states.insert(p), c) == if p < g.len() {
            step(g, states, c).union(targets(g[p as int].take(g[p as int].len() as int), c))
        } else {
            step(g, states, c)
        },
{
    let wanted = if p < g.len() {
        step(g, states, c).union(targets(g[p as int].take(g[p as int].len() as int), c))
    } else {
        step(g, states, c)
    };
    if p < g.len() {
        assert(g[p as int].take(g[p as int].len() as int) =~= g[p as int]);
    }
    assert forall|q: StateID| step(g, states.insert(p), c).contains(q) <==> wanted.contains(
        q,
    ) by {
        if step(g, states.insert(p), c).contains(q) {
            let from = choose|from: StateID| #[trigger]
                states.insert(p).contains(from) && has_edge(g, from, Transition::Literal(c), q);
            if from != p {
                assert(states.contains(from));
            }
        }
        if step(g, states, c).contains(q) {
            let from = choose|from: StateID| #[trigger]
                states.contains(from) && has_edge(g, from, Transition::Literal(c), q);
            assert(states.insert(p).contains(from));
        }
        if p < g.len() && targets(g[p as int], c).contains(q) {
            assert(states.insert(p).contains(p));
            assert(has_edge(g, p, Transition::Literal(c), q));
        }
    }
    assert(step(g, states.insert(p), c) =~= wanted);
}

/// The set of the first elements of a sequence, with one more.
pub(crate) proof fn lemma_take_more<T>(all: Seq<T>, k: int)
    requires
        0 <= k < all.len(),
    ensures
        all.take(k + 1).to_set() == all.take(k).to_set().insert(all[k]),
{
    let shorter = all.take(k);
    let longer = all.take(k + 1);
    assert(longer[k] == all[k]);
    assert forall|x: T| longer.to_set().contains(x) <==> shorter.to_set().insert(all[k]).contains(
        x,
    ) by {
        if shorter.contains(x) {
            let i = choose|i: int| 0 <= i < shorter.len() && shorter[i] == x;
            assert(longer[i] == x);
        }
        if longer.contains(x) {
            let i = choose|i: int| 0 <= i < longer.len() && longer[i] == x;
            if i < k {
                assert(shorter[i] == x);
            }
        }
    }
    assert(longer.to_set() =~= shorter.to_set().insert(all[k]));
}

/// An input that leads to no state is not accepted, nor is any input that
/// starts with it.
pub(crate) proof fn lemma_rejects_after_dead_end(
    a: Automaton,
    input: Seq<char>,
    k: int,
)
    requires
        0 <= k <= input.len(),
        reached_by(a.edges, a.start, input.take(k)) =~= Set::<StateID>::empty(),
    ensures
        !a.accepts(input),
{
    lemma_dead_end(a.edges, a.start, input.take(k), input.skip(k));
    assert(input.take(k) + input.skip(k) =~= input);
    lemma_accepts_by_set(a.edges, a.start, a.accept, input);
}

/// The copies are states of `g`, and none is there twice.
pub(crate) open spec fn tidy(g: Table, copies: Seq<StateID>) -> bool {
    &&& copies.no_duplicates()
    &&& forall|i: int| 0 <= i < copies.len() ==> #[trigger] copies[i] < g.len()
}

/// There are no more copies than states.
pub(crate) proof fn lemma_tidy_len(g: Table, copies: Seq<StateID>)
    requires
        g.len() <= usize::MAX,
        tidy(g, copies),
    ensures
        copies.len() <= g.len(),
{
    lemma_below(g.len());
    copies.unique_seq_to_set();
    assert(copies.to_set().subset_of(below(g.len()))) by {
        assert forall|s: StateID| copies.to_set().contains(s) implies below(g.len()).contains(
            s,
        ) by {
            let i = choose|i: int| 0 <= i < copies.len() && copies[i] == s;
        }
    }
    vstd::set_lib::lemma_len_subset(copies.to_set(), below(g.len()));
}

/// What spawning copies at `state` has added to the states of `before`:
/// `state` itself, unless it was there, and only states that epsilon edges
/// lead to from it. The epsilon edges of every state that was added lead to
/// states of `now`; while `state` is still at work (`done` is false) this is
/// not yet so for `state` itself.
#[verifier::opaque]
pub(crate) open spec fn spawned(
    g: Table,
    state: StateID,
    before: Set<StateID>,
    now: Set<StateID>,
    done: bool,
) -> bool {
    &&& before.subset_of(now)
    &&& now.contains(state)
    &&& forall|q: StateID| #[trigger]
        now.contains(q) && !before.contains(q) ==> reaches(g, state, Seq::empty(), q)
    &&& forall|p: StateID, q: StateID| #[trigger]
        has_edge(g, p, Transition::Epsilon, q) && now.contains(p) && !before.contains(p) && (done
            || p != state) ==> now.contains(q)
}

/// A state that has a copy needs none.
pub(crate) proof fn lemma_spawn_known(g: Table, state: StateID, before: Set<StateID>)
    requires
        before.contains(state),
    ensures
        spawned(g, state, before, before, true),
{
    reveal(spawned);
}

/// A state that has no copy gets one.
pub(crate) proof fn lemma_spawn_begins(g: Table, state: StateID, copies: Seq<StateID>)
    requires
        tidy(g, copies),
        state < g.len(),
        !copies.contains(state),
    ensures
        tidy(g, copies.push(state)),
        copies.push(state).to_set() == copies.to_set().insert(state),
        spawned(g, state, copies.to_set(), copies.to_set().insert(state), false),
        followed(g, state, 0, copies.to_set().insert(state)),
{
    reveal(spawned);
    reveal(followed);
    let longer = copies.push(state);
    assert(longer.take(copies.len() as int) =~= copies);
    lemma_take_more(longer, copies.len() as int);
    assert(longer.take(longer.len() as int) =~= longer);
    assert(longer.no_duplicates()) by {
        assert forall|i: int, j: int|
            0 <= i < longer.len() && 0 <= j < longer.len() && i != j implies longer[i]
            != longer[j] by {
            if i < copies.len() {
                assert(copies[i] == longer[i]);
                assert(copies.contains(longer[i]));
            }
            if j < copies.len() {
                assert(copies[j] == longer[j]);
                assert(copies.contains(longer[j]));
            }
        }
    }
    lemma_reaches_self(g, state);
}

/// The copies spawned along one epsilon edge of the state at work.
pub(crate) proof fn lemma_spawn_child(
    g: Table,
    state: StateID,
    j: int,
    next: StateID,
    before: Set<StateID>,
    mid: Set<StateID>,
    now: Set<StateID>,
)
    requires
        state < g.len(),
        0 <= j < g[state as int].len(),
        g[state as int][j] == (Transition::Epsilon, next),
        spawned(g, state, before, mid, false),
        followed(g, state, j, mid),
        spawned(g, next, mid, now, true),
    ensures
        spawned(g, state, before, now, false),
        followed(g, state, j + 1, now),
{
    reveal(spawned);
    reveal(followed);
    assert(has_edge(g, state, Transition::Epsilon, next));
    assert forall|q: StateID| #[trigger] now.contains(q) && !before.contains(q) implies reaches(
        g,
        state,
        Seq::empty(),
        q,
    ) by {
        if !mid.contains(q) {
            lemma_reaches_self(g, state);
            lemma_reaches_step(g, state, Seq::empty(), state, Transition::Epsilon, next);
            assert(Seq::<char>::empty() + Seq::<char>::empty() =~= Seq::<char>::empty());
            lemma_reaches_trans(
                g,
                state,
                Seq::empty(),
                next,
                Seq::empty(),
                q,
            );
        }
    }
}

/// The state at work is done with: copies were spawned along all of its
/// epsilon edges.
pub(crate) proof fn lemma_spawn_ends(g: Table, state: StateID, before: Set<StateID>, now: Set<StateID>)
    requires
        spawned(g, state, before, now, false),
        state < g.len() ==> followed(g, state, g[state as int].len() as int, now),
    ensures
        spawned(g, state, before, now, true),
{
    reveal(spawned);
    reveal(followed);
    assert forall|p: StateID, q: StateID| #[trigger]
        has_edge(g, p, Transition::Epsilon, q) && now.contains(p) && !before.contains(p)
        implies now.contains(q) by {
        if p == state {
            let row = g[state as int];
            let k = choose|k: int| 0 <= k < row.len() && row[k] == (Transition::Epsilon, q);
            assert(row[k].0 == Transition::Epsilon);
        }
    }
}

/// Spawning copies at one more state turns the closure of some states into
/// the closure of those and that one.
pub(crate) proof fn lemma_spawn_closes(
    g: Table,
    seeds: Set<StateID>,
    before: Set<StateID>,
    state: StateID,
    now: Set<StateID>,
)
    requires
        before == eps_closure(g, seeds),
        spawned(g, state, before, now, true),
    ensures
        now == eps_closure(g, seeds.insert(state)),
{
    reveal(spawned);
    let more = seeds.insert(state);
    assert forall|p: StateID| more.contains(p) implies now.contains(p) by {
        if seeds.contains(p) {
            lemma_reaches_self(g, p);
            assert(before.contains(p));
        }
    }
    assert forall|p: StateID, q: StateID| #[trigger]
        has_edge(g, p, Transition::Epsilon, q) && now.contains(p) implies now.contains(q) by {
        if before.contains(p) {
            let seed = choose|seed: StateID| #[trigger]
                seeds.contains(seed) && reaches(g, seed, Seq::empty(), p);
            lemma_reaches_step(g, seed, Seq::empty(), p, Transition::Epsilon, q);
            assert(Seq::<char>::empty() + Seq::<char>::empty() =~= Seq::<char>::empty());
            assert(before.contains(q));
        }
    }
    assert forall|q: StateID| now.contains(q) implies eps_closure(g, more).contains(q) by {
        if before.contains(q) {
            let seed = choose|seed: StateID| #[trigger]
                seeds.contains(seed) && reaches(g, seed, Seq::empty(), q);
            assert(more.contains(seed));
        } else {
            assert(more.contains(state));
        }
    }
    lemma_closure_is_least(g, more, now);
}

} // verus!
