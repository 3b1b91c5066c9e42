//! The mathematical model of an automaton: a table of labelled edges, the
//! walks through it, and the language that a start state and a set of
//! accepting states pick out of it.

use vstd::prelude::*;

verus! {

/// The name of a state: its index in the table of the automaton it belongs to.
pub type StateID = usize;

/// The label of an edge.
#[derive(Debug, PartialEq, Eq, Clone, Copy, Structural)]
pub enum Transition {
    /// Taken without reading input.
    Epsilon,
    /// Taken by reading exactly this character.
    Literal(char),
}

/// The edges of an automaton: for each state, in the order in which they were
/// added, the edges that leave it.
pub type Table = Seq<Seq<(Transition, StateID)>>;

/// There is an edge from `from` to `to` with this label.
pub open spec fn has_edge(g: Table, from: StateID, label: Transition, to: StateID) -> bool {
    from < g.len() && g[from as int].contains((label, to))
}

/// Every edge leads to a state of the table.
pub open spec fn table_wf(g: Table) -> bool {
    forall|s: int, k: int|
        0 <= s < g.len() && 0 <= k < g[s].len() ==> (#[trigger] g[s][k]).1 < g.len()
}

/// Every edge of `g` is an edge of `h`.
pub open spec fn subgraph(g: Table, h: Table) -> bool {
    forall|p: StateID, l: Transition, q: StateID| #[trigger]
        has_edge(g, p, l, q) ==> has_edge(h, p, l, q)
}

/// The states of `states` are states of `g`, and no edge leaves the set.
pub open spec fn closed_under(g: Table, states: Set<StateID>) -> bool {
    &&& forall|s: StateID| #[trigger] states.contains(s) ==> s < g.len()
    &&& forall|p: StateID, l: Transition, q: StateID| #[trigger]
        has_edge(g, p, l, q) && states.contains(p) ==> states.contains(q)
}

/// The input that an edge with this label reads.
pub open spec fn label_text(label: Transition) -> Seq<char> {
    match label {
        Transition::Epsilon => Seq::empty(),
        Transition::Literal(c) => seq![c],
    }
}

/// A walk is the sequence of edges taken, each given by its label and the
/// state it leads to. This is the state a walk from `p` is in after `i` edges.
pub open spec fn walk_state(p: StateID, walk: Seq<(Transition, StateID)>, i: int) -> StateID {
    if i <= 0 {
        p
    } else {
        walk[i - 1].1
    }
}

/// The state in which a walk from `p` ends.
pub open spec fn walk_end(p: StateID, walk: Seq<(Transition, StateID)>) -> StateID {
    walk_state(p, walk, walk.len() as int)
}

/// Every step of the walk from `p` follows an edge of `g`.
#[verifier::opaque]
pub open spec fn is_walk(g: Table, p: StateID, walk: Seq<(Transition, StateID)>) -> bool {
    forall|i: int|
        0 <= i < walk.len() ==> has_edge(g, #[trigger] walk_state(p, walk, i), walk[i].0, walk[i].1)
}

/// The input that a walk reads.
pub open spec fn spelled(walk: Seq<(Transition, StateID)>) -> Seq<char>
    decreases walk.len(),
{
    if walk.len() == 0 {
        Seq::empty()
    } else {
        spelled(walk.drop_last()) + label_text(walk.last().0)
    }
}

/// Some walk of `g` leads from `p` to `q` and reads exactly `w`.
#[verifier::opaque]
pub open spec fn reaches(g: Table, p: StateID, w: Seq<char>, q: StateID) -> bool {
    exists|walk: Seq<(Transition, StateID)>|
        #![trigger is_walk(g, p, walk)]
        is_walk(g, p, walk) && walk_end(p, walk) == q && spelled(walk) == w
}

/// Some walk from `start` to a state of `accept` reads exactly `w`.
pub open spec fn accepts_in(g: Table, start: StateID, accept: Seq<StateID>, w: Seq<char>) -> bool {
    exists|q: StateID| #[trigger] accept.contains(q) && reaches(g, start, w, q)
}

/// The strings read on the walks from `start` to a state of `accept`.
pub open spec fn language_in(g: Table, start: StateID, accept: Seq<StateID>) -> Set<Seq<char>> {
    Set::new(|w: Seq<char>| accepts_in(g, start, accept, w))
}

/// An automaton as a value: where it starts, where it accepts, and its edges.
pub ghost struct Automaton {
    pub start: StateID,
    pub accept: Seq<StateID>,
    pub edges: Table,
}

impl Automaton {
    /// Every state has a name, and the start state, the accepting states and
    /// the target of every edge are states of the table.
    pub open spec fn wf(self) -> bool {
        &&& self.edges.len() <= usize::MAX
        &&& self.start < self.edges.len()
        &&& forall|i: int|
            0 <= i < self.accept.len() ==> #[trigger] self.accept[i] < self.edges.len()
        &&& table_wf(self.edges)
    }

    /// Whether the automaton accepts the whole of `w`.
    pub open spec fn accepts(self, w: Seq<char>) -> bool {
        accepts_in(self.edges, self.start, self.accept, w)
    }

    /// The strings that the automaton accepts.
    pub open spec fn language(self) -> Set<Seq<char>> {
        language_in(self.edges, self.start, self.accept)
    }
}

/// A part of an automaton under assembly that stands for one sub-pattern:
/// an entry, its exits, and the states that belong to it.
pub ghost struct Part {
    pub start: StateID,
    pub accept: Seq<StateID>,
    pub states: Set<StateID>,
}

impl Part {
    /// The part lives in `g`: its entry and exits are among its states, and
    /// no edge of `g` leads out of them.
    pub open spec fn inside(self, g: Table) -> bool {
        &&& self.states.contains(self.start)
        &&& forall|i: int|
            0 <= i < self.accept.len() ==> self.states.contains(#[trigger] self.accept[i])
        &&& closed_under(g, self.states)
    }

    /// All states of the part are numbered from `low` up to, not including, `high`.
    pub open spec fn within(self, low: int, high: int) -> bool {
        forall|s: StateID| #[trigger] self.states.contains(s) ==> low <= s < high
    }

    /// The strings read on the way from the entry to an exit.
    pub open spec fn language(self, g: Table) -> Set<Seq<char>> {
        language_in(g, self.start, self.accept)
    }
}

/// A walk can be cut before its last edge.
pub proof fn lemma_walk_drop_last(g: Table, p: StateID, walk: Seq<(Transition, StateID)>)
    requires
        is_walk(g, p, walk),
        walk.len() > 0,
    ensures
        is_walk(g, p, walk.drop_last()),
        has_edge(g, walk_end(p, walk.drop_last()), walk.last().0, walk.last().1),
        walk_end(p, walk) == walk.last().1,
        spelled(walk) == spelled(walk.drop_last()) + label_text(walk.last().0),
{
    reveal(is_walk);
    let front = walk.drop_last();
    let n = walk.len() - 1;
    assert forall|i: int| 0 <= i < front.len() implies has_edge(
        g,
        #[trigger] walk_state(p, front, i),
        front[i].0,
        front[i].1,
    ) by {
        assert(front[i] == walk[i]);
        if i > 0 {
            assert(front[i - 1] == walk[i - 1]);
        }
        assert(walk_state(p, front, i) == walk_state(p, walk, i));
    }
    assert(walk[n] == walk.last());
    if n > 0 {
        assert(front[n - 1] == walk[n - 1]);
    }
    assert(walk_state(p, walk, n) == walk_end(p, front));
}

/// What a walk with one more edge reads.
pub proof fn lemma_spelled_push(walk: Seq<(Transition, StateID)>, l: Transition, q: StateID)
    ensures
        spelled(walk.push((l, q))) == spelled(walk) + label_text(l),
{
    let longer = walk.push((l, q));
    assert(longer.drop_last() =~= walk);
    assert(longer.last() == (l, q));
}

/// A walk can be continued along an edge that leaves its end.
pub proof fn lemma_walk_push(
    g: Table,
    p: StateID,
    walk: Seq<(Transition, StateID)>,
    l: Transition,
    q: StateID,
)
    requires
        is_walk(g, p, walk),
        has_edge(g, walk_end(p, walk), l, q),
    ensures
        is_walk(g, p, walk.push((l, q))),
        walk_end(p, walk.push((l, q))) == q,
        spelled(walk.push((l, q))) == spelled(walk) + label_text(l),
{
    reveal(is_walk);
    let longer = walk.push((l, q));
    let n = walk.len() as int;
    assert(longer.len() == n + 1);
    assert(longer[n] == (l, q));
    assert forall|i: int| 0 <= i < longer.len() implies has_edge(
        g,
        #[trigger] walk_state(p, longer, i),
        longer[i].0,
        longer[i].1,
    ) by {
        if i < n {
            assert(longer[i] == walk[i]);
            if i > 0 {
                assert(longer[i - 1] == walk[i - 1]);
            }
            assert(walk_state(p, longer, i) == walk_state(p, walk, i));
            assert(has_edge(g, walk_state(p, walk, i), walk[i].0, walk[i].1));
        } else {
            if n > 0 {
                assert(longer[n - 1] == walk[n - 1]);
            }
            assert(walk_state(p, longer, i) == walk_end(p, walk));
        }
    }
    lemma_spelled_push(walk, l, q);
}

/// Two walks, the second starting where the first ends, make one walk.
pub proof fn lemma_walk_concat(
    g: Table,
    p: StateID,
    first: Seq<(Transition, StateID)>,
    second: Seq<(Transition, StateID)>,
)
    requires
        is_walk(g, p, first),
        is_walk(g, walk_end(p, first), second),
    ensures
        is_walk(g, p, first + second),
        walk_end(p, first + second) == walk_end(walk_end(p, first), second),
        spelled(first + second) == spelled(first) + spelled(second),
    decreases second.len(),
{
    if second.len() == 0 {
        assert(first + second =~= first);
        assert(spelled(first) + spelled(second) =~= spelled(first));
    } else {
        let mid = walk_end(p, first);
        let front = second.drop_last();
        let last = second.last();
        lemma_walk_drop_last(g, mid, second);
        lemma_walk_concat(g, p, first, front);
        lemma_walk_push(g, p, first + front, last.0, last.1);
        assert((first + front).push(last) =~= first + second);
        assert((spelled(first) + spelled(front)) + label_text(last.0) =~= spelled(first) + (spelled(
            front,
        ) + label_text(last.0)));
    }
}

/// A walk of a table is a walk of every table that has all its edges.
pub proof fn lemma_walk_lift(g: Table, h: Table, p: StateID, walk: Seq<(Transition, StateID)>)
    requires
        subgraph(g, h),
        is_walk(g, p, walk),
    ensures
        is_walk(h, p, walk),
{
    reveal(is_walk);
    assert forall|i: int| 0 <= i < walk.len() implies has_edge(
        h,
        #[trigger] walk_state(p, walk, i),
        walk[i].0,
        walk[i].1,
    ) by {
        assert(has_edge(g, walk_state(p, walk, i), walk[i].0, walk[i].1));
    }
}

/// A walk that starts in a closed set of states ends in it.
pub proof fn lemma_walk_stays(
    g: Table,
    states: Set<StateID>,
    p: StateID,
    walk: Seq<(Transition, StateID)>,
)
    requires
        closed_under(g, states),
        states.contains(p),
        is_walk(g, p, walk),
    ensures
        states.contains(walk_end(p, walk)),
    decreases walk.len(),
{
    if walk.len() > 0 {
        lemma_walk_drop_last(g, p, walk);
        lemma_walk_stays(g, states, p, walk.drop_last());
    }
}

/// A walk shows that its end is reached.
pub proof fn lemma_walk_reaches(g: Table, p: StateID, walk: Seq<(Transition, StateID)>)
    requires
        is_walk(g, p, walk),
    ensures
        reaches(g, p, spelled(walk), walk_end(p, walk)),
{
    reveal(reaches);
}

/// What is reached is reached by some walk.
pub proof fn lemma_reaches_walk(g: Table, p: StateID, w: Seq<char>, q: StateID) -> (walk: Seq<
    (Transition, StateID),
>)
    requires
        reaches(g, p, w, q),
    ensures
        is_walk(g, p, walk),
        walk_end(p, walk) == q,
        spelled(walk) == w,
{
    reveal(reaches);
    choose|walk: Seq<(Transition, StateID)>|
        #![trigger is_walk(g, p, walk)]
        is_walk(g, p, walk) && walk_end(p, walk) == q && spelled(walk) == w
}

/// Every state reaches itself without reading anything.
pub proof fn lemma_reaches_self(g: Table, p: StateID)
    ensures
        reaches(g, p, Seq::empty(), p),
{
    let walk = Seq::<(Transition, StateID)>::empty();
    assert(is_walk(g, p, walk)) by {
        reveal(is_walk);
    }
    lemma_walk_reaches(g, p, walk);
}

/// What is reached can be left along an edge.
pub proof fn lemma_reaches_step(
    g: Table,
    p: StateID,
    w: Seq<char>,
    m: StateID,
    l: Transition,
    q: StateID,
)
    requires
        reaches(g, p, w, m),
        has_edge(g, m, l, q),
    ensures
        reaches(g, p, w + label_text(l), q),
{
    let walk = lemma_reaches_walk(g, p, w, m);
    lemma_walk_push(g, p, walk, l, q);
    lemma_walk_reaches(g, p, walk.push((l, q)));
}

/// Reaching composes.
pub proof fn lemma_reaches_trans(
    g: Table,
    p: StateID,
    u: Seq<char>,
    m: StateID,
    v: Seq<char>,
    q: StateID,
)
    requires
        reaches(g, p, u, m),
        reaches(g, m, v, q),
    ensures
        reaches(g, p, u + v, q),
{
    let first = lemma_reaches_walk(g, p, u, m);
    let second = lemma_reaches_walk(g, m, v, q);
    lemma_walk_concat(g, p, first, second);
    lemma_walk_reaches(g, p, first + second);
}

/// What is reached in a table is reached in every table that has all its edges.
pub proof fn lemma_reaches_lift(g: Table, h: Table, p: StateID, w: Seq<char>, q: StateID)
    requires
        subgraph(g, h),
        reaches(g, p, w, q),
    ensures
        reaches(h, p, w, q),
{
    let walk = lemma_reaches_walk(g, p, w, q);
    lemma_walk_lift(g, h, p, walk);
    lemma_walk_reaches(h, p, walk);
}

/// `h` has the same edges as `g` at every state of `states`.
pub open spec fn same_rows(g: Table, h: Table, states: Set<StateID>) -> bool {
    forall|s: StateID| #[trigger] states.contains(s) ==> s < h.len() && h[s as int] == g[s as int]
}

/// A walk that starts in a closed set of states is a walk of every table
/// that has the same edges at those states.
pub proof fn lemma_walk_transfer(
    g: Table,
    h: Table,
    states: Set<StateID>,
    p: StateID,
    walk: Seq<(Transition, StateID)>,
)
    requires
        closed_under(g, states),
        same_rows(g, h, states),
        states.contains(p),
        is_walk(g, p, walk),
    ensures
        is_walk(h, p, walk),
    decreases walk.len(),
{
    if walk.len() > 0 {
        let front = walk.drop_last();
        let last = walk.last();
        lemma_walk_drop_last(g, p, walk);
        lemma_walk_transfer(g, h, states, p, front);
        lemma_walk_stays(g, states, p, front);
        lemma_walk_push(h, p, front, last.0, last.1);
        assert(front.push(last) =~= walk);
    } else {
        reveal(is_walk);
    }
}

/// A part keeps its place and its language while the table changes only
/// outside it.
pub proof fn lemma_part_preserved(g: Table, h: Table, part: Part)
    requires
        part.inside(g),
        same_rows(g, h, part.states),
    ensures
        part.inside(h),
        part.language(h) == part.language(g),
{
    assert(closed_under(h, part.states)) by {
        assert forall|p: StateID, l: Transition, q: StateID| #[trigger]
            has_edge(h, p, l, q) && part.states.contains(p) implies part.states.contains(q) by {
            assert(has_edge(g, p, l, q));
        }
    }
    assert(same_rows(h, g, part.states));
    assert forall|w: Seq<char>|
        accepts_in(h, part.start, part.accept, w) <==> accepts_in(
            g,
            part.start,
            part.accept,
            w,
        ) by {
        if accepts_in(h, part.start, part.accept, w) {
            let q = choose|q: StateID| #[trigger]
                part.accept.contains(q) && reaches(h, part.start, w, q);
            let walk = lemma_reaches_walk(h, part.start, w, q);
            lemma_walk_transfer(h, g, part.states, part.start, walk);
            lemma_walk_reaches(g, part.start, walk);
        }
        if accepts_in(g, part.start, part.accept, w) {
            let q = choose|q: StateID| #[trigger]
                part.accept.contains(q) && reaches(g, part.start, w, q);
            let walk = lemma_reaches_walk(g, part.start, w, q);
            lemma_walk_transfer(g, h, part.states, part.start, walk);
            lemma_walk_reaches(h, part.start, walk);
        }
    }
    assert(part.language(h) =~= part.language(g));
}

} // verus!
