//! Thompson's construction: how the table of an automaton grows when parts
//! of it are joined, what the joined part then accepts, and the automaton
//! that is assembled in this way for a whole syntax tree.

use vstd::prelude::*;
use crate::automaton::{
    accepts_in, closed_under, has_edge, is_walk, label_text, lemma_part_preserved,
    lemma_reaches_lift, lemma_reaches_self, lemma_reaches_step, lemma_reaches_trans,
    lemma_reaches_walk, lemma_walk_drop_last, reaches, same_rows, spelled, subgraph, table_wf,
    walk_end, Automaton, Part, StateID, Table, Transition,
};
use crate::language::{
    in_concat, in_star, lang_char, lang_concat, lang_empty_string, lang_star, lang_union,
    lemma_star_append,
};
use crate::syntax::Regex;

verus! {

/// `h` has every state of `g`, with the same edges but at the states of `touched`.
pub open spec fn grown_from(g: Table, h: Table, touched: Set<StateID>) -> bool {
    &&& g.len() <= h.len()
    &&& forall|s: StateID|
        s < g.len() && !touched.contains(s) ==> #[trigger] h[s as int] == g[s as int]
}

/// A table whose edges all lead to states of the table is well formed.
pub proof fn lemma_table_wf(h: Table)
    requires
        h.len() <= usize::MAX + 1,
        forall|p: StateID, l: Transition, q: StateID| #[trigger]
            has_edge(h, p, l, q) ==> q < h.len(),
    ensures
        table_wf(h),
{
    assert forall|s: int, k: int| 0 <= s < h.len() && 0 <= k < h[s].len() implies (
    #[trigger] h[s][k]).1 < h.len() by {
        let edge = h[s][k];
        assert(h[s].contains(edge));
        assert(has_edge(h, s as StateID, edge.0, edge.1));
    }
}

/// The edges of a well-formed table lead to states of the table.
pub proof fn lemma_edges_in_table(g: Table)
    requires
        table_wf(g),
    ensures
        forall|p: StateID, l: Transition, q: StateID| #[trigger]
            has_edge(g, p, l, q) ==> q < g.len(),
{
    assert forall|p: StateID, l: Transition, q: StateID| #[trigger]
        has_edge(g, p, l, q) implies q < g.len() by {
        let row = g[p as int];
        let k = choose|k: int| 0 <= k < row.len() && row[k] == (l, q);
        assert(g[p as int][k].1 < g.len());
    }
}

/// A part keeps its place and its language while the table grows and
/// changes only at states that are not its own.
pub proof fn lemma_part_kept(g: Table, h: Table, touched: Set<StateID>, part: Part)
    requires
        part.inside(g),
        grown_from(g, h, touched),
        part.states.disjoint(touched),
    ensures
        part.inside(h),
        part.language(h) == part.language(g),
{
    assert(same_rows(g, h, part.states));
    lemma_part_preserved(g, h, part);
}

/// The entry and the exits of a part that lives in `g` are states of `g`.
pub proof fn lemma_part_in_range(g: Table, part: Part)
    requires
        part.inside(g),
    ensures
        part.start < g.len(),
        forall|i: int| 0 <= i < part.accept.len() ==> #[trigger] part.accept[i] < g.len(),
        forall|s: StateID| part.accept.contains(s) ==> part.states.contains(s),
{
    assert forall|i: int| 0 <= i < part.accept.len() implies #[trigger] part.accept[i]
        < g.len() by {
        assert(part.states.contains(part.accept[i]));
    }
}

/// `g` with two more states: the first has one edge with this label to the
/// second, which has none.
pub open spec fn with_pair(g: Table, label: Transition) -> Table {
    g.push(seq![(label, (g.len() + 1) as StateID)]).push(Seq::empty())
}

/// `g` with two more states: the first has epsilon edges to `left` and to
/// `right`, the second has none.
pub open spec fn with_fork(g: Table, left: StateID, right: StateID) -> Table {
    g.push(seq![(Transition::Epsilon, left), (Transition::Epsilon, right)]).push(Seq::empty())
}

/// `g` with one more epsilon edge to `target` from each state of `sources`,
/// in their order.
pub open spec fn linked(g: Table, sources: Seq<StateID>, target: StateID) -> Table
    decreases sources.len(),
{
    if sources.len() == 0 {
        g
    } else {
        let h = linked(g, sources.drop_last(), target);
        let from = sources.last() as int;
        h.update(from, h[from].push((Transition::Epsilon, target)))
    }
}

/// The table of a union of `a` and `b` made in `g`: two more states, a
/// fork from the first to both entries, and an edge from every exit of `a`
/// and then of `b` to the second.
pub open spec fn union_table(g: Table, a: Part, b: Part) -> Table {
    let e = (g.len() + 1) as StateID;
    linked(linked(with_fork(g, a.start, b.start), a.accept, e), b.accept, e)
}

/// The table of a concatenation of `a` and `b` made in `g`: an edge from
/// every exit of `a` to the entry of `b`.
pub open spec fn concat_table(g: Table, a: Part, b: Part) -> Table {
    linked(g, a.accept, b.start)
}

/// The table of a star of `a` made in `g`: two more states, a fork from
/// the first to the entry of `a` and to the second, and from every exit of
/// `a` an edge to its entry and then one to the second.
pub open spec fn star_table(g: Table, a: Part) -> Table {
    let e = (g.len() + 1) as StateID;
    linked(linked(with_fork(g, a.start, e), a.accept, a.start), a.accept, e)
}

/// The edges of `with_pair`.
pub proof fn lemma_with_pair_edges(g: Table, label: Transition)
    requires
        g.len() + 1 <= usize::MAX,
    ensures
        with_pair(g, label).len() == g.len() + 2,
        forall|s: int| 0 <= s < g.len() ==> with_pair(g, label)[s] == g[s],
        forall|p: StateID, l: Transition, q: StateID| #[trigger]
            has_edge(with_pair(g, label), p, l, q) <==> has_edge(g, p, l, q) || (p == g.len()
                && l == label && q == g.len() + 1),
{
    let h = with_pair(g, label);
    let row = seq![(label, (g.len() + 1) as StateID)];
    assert(h[g.len() as int] == row);
    assert(h[g.len() as int + 1] == Seq::<(Transition, StateID)>::empty());
    assert forall|p: StateID, l: Transition, q: StateID| #[trigger]
        has_edge(h, p, l, q) <==> has_edge(g, p, l, q) || (p == g.len() && l == label && q
            == g.len() + 1) by {
        if p < g.len() {
            assert(h[p as int] == g[p as int]);
        } else if p == g.len() {
            assert(row[0] == (label, (g.len() + 1) as StateID));
        }
    }
}

/// The edges of `with_fork`.
pub proof fn lemma_with_fork_edges(g: Table, left: StateID, right: StateID)
    requires
        g.len() + 1 <= usize::MAX,
    ensures
        with_fork(g, left, right).len() == g.len() + 2,
        forall|s: int| 0 <= s < g.len() ==> with_fork(g, left, right)[s] == g[s],
        forall|p: StateID, l: Transition, q: StateID| #[trigger]
            has_edge(with_fork(g, left, right), p, l, q) <==> has_edge(g, p, l, q) || (p
                == g.len() && l == Transition::Epsilon && (q == left || q == right)),
{
    let h = with_fork(g, left, right);
    let row = seq![(Transition::Epsilon, left), (Transition::Epsilon, right)];
    assert(h[g.len() as int] == row);
    assert(h[g.len() as int + 1] == Seq::<(Transition, StateID)>::empty());
    assert forall|p: StateID, l: Transition, q: StateID| #[trigger]
        has_edge(h, p, l, q) <==> has_edge(g, p, l, q) || (p == g.len() && l
            == Transition::Epsilon && (q == left || q == right)) by {
        if p < g.len() {
            assert(h[p as int] == g[p as int]);
        } else if p == g.len() {
            assert(row[0] == (Transition::Epsilon, left));
            assert(row[1] == (Transition::Epsilon, right));
        }
    }
}

/// The edges of `linked`.
pub proof fn lemma_linked_edges(g: Table, sources: Seq<StateID>, target: StateID)
    requires
        forall|i: int| 0 <= i < sources.len() ==> #[trigger] sources[i] < g.len(),
    ensures
        linked(g, sources, target).len() == g.len(),
        forall|s: StateID|
            s < g.len() && !sources.contains(s) ==> #[trigger] linked(g, sources, target)[s as int]
                == g[s as int],
        forall|p: StateID, l: Transition, q: StateID| #[trigger]
            has_edge(linked(g, sources, target), p, l, q) <==> has_edge(g, p, l, q) || (
            sources.contains(p) && l == Transition::Epsilon && q == target),
    decreases sources.len(),
{
    if sources.len() > 0 {
        let front = sources.drop_last();
        let from = sources.last();
        let h = linked(g, front, target);
        let k = linked(g, sources, target);
        lemma_linked_edges(g, front, target);
        assert(sources[sources.len() - 1] == from);
        assert(k[from as int] == h[from as int].push((Transition::Epsilon, target)));
        assert forall|s: StateID| s < g.len() && !sources.contains(s) implies #[trigger] k[s as int]
            == g[s as int] by {
            if front.contains(s) {
                let i = choose|i: int| 0 <= i < front.len() && front[i] == s;
                assert(sources[i] == s);
            }
        }
        assert forall|p: StateID, l: Transition, q: StateID| #[trigger]
            has_edge(k, p, l, q) <==> has_edge(g, p, l, q) || (sources.contains(p) && l
                == Transition::Epsilon && q == target) by {
            let before = has_edge(h, p, l, q);
            assert(before <==> has_edge(g, p, l, q) || (front.contains(p) && l
                == Transition::Epsilon && q == target));
            if front.contains(p) {
                let i = choose|i: int| 0 <= i < front.len() && front[i] == p;
                assert(sources[i] == p);
            }
            if sources.contains(p) && p != from {
                let i = choose|i: int| 0 <= i < sources.len() && sources[i] == p;
                assert(front[i] == p);
            }
            if p == from {
                let old_row = h[from as int];
                let new_row = old_row.push((Transition::Epsilon, target));
                assert(k[p as int] == new_row);
                assert(new_row[old_row.len() as int] == (Transition::Epsilon, target));
                if old_row.contains((l, q)) {
                    let i = choose|i: int| 0 <= i < old_row.len() && old_row[i] == (l, q);
                    assert(new_row[i] == (l, q));
                }
                if new_row.contains((l, q)) {
                    let i = choose|i: int| 0 <= i < new_row.len() && new_row[i] == (l, q);
                    if i < old_row.len() {
                        assert(old_row[i] == (l, q));
                    }
                }
                assert(has_edge(k, p, l, q) <==> before || (l == Transition::Epsilon && q
                    == target));
            } else if p < g.len() {
                assert(k[p as int] == h[p as int]);
                assert(has_edge(k, p, l, q) <==> before);
            }
        }
    }
}

/// `h` is `g` with two more states, `s` and `e`, and one more edge: from `s`
/// to `e` with this label.
spec fn pair_shape(g: Table, h: Table, label: Transition, s: StateID, e: StateID) -> bool {
    &&& s == g.len()
    &&& e == g.len() + 1
    &&& h.len() == g.len() + 2
    &&& forall|p: StateID, l: Transition, q: StateID| #[trigger]
        has_edge(h, p, l, q) <==> has_edge(g, p, l, q) || (p == s && l == label && q == e)
}

/// The part made of the two states.
pub open spec fn pair_part(s: StateID, e: StateID) -> Part {
    Part { start: s, accept: seq![e], states: Set::empty().insert(s).insert(e) }
}

/// Where a walk from `s` through a pair can be, and what it has read.
proof fn lemma_pair_walk(
    g: Table,
    h: Table,
    label: Transition,
    s: StateID,
    e: StateID,
    walk: Seq<(Transition, StateID)>,
)
    requires
        pair_shape(g, h, label, s, e),
        is_walk(h, s, walk),
    ensures
        (walk.len() == 0 && walk_end(s, walk) == s) || (walk_end(s, walk) == e && spelled(walk)
            == label_text(label)),
    decreases walk.len(),
{
    if walk.len() > 0 {
        let front = walk.drop_last();
        lemma_walk_drop_last(h, s, walk);
        lemma_pair_walk(g, h, label, s, e, front);
        let y = walk_end(s, front);
        assert(has_edge(h, y, walk.last().0, walk.last().1));
        assert(!has_edge(g, y, walk.last().0, walk.last().1));
        assert(y == s);
        assert(spelled(front) =~= Seq::<char>::empty());
        assert(spelled(walk) =~= label_text(label));
    }
}

/// Two fresh states joined by one edge accept exactly what the edge reads.
proof fn lemma_pair_language(g: Table, h: Table, label: Transition, s: StateID, e: StateID)
    requires
        pair_shape(g, h, label, s, e),
    ensures
        pair_part(s, e).inside(h),
        pair_part(s, e).language(h) == Set::new(|w: Seq<char>| w == label_text(label)),
{
    let part = pair_part(s, e);
    assert(part.accept[0] == e);
    assert forall|p: StateID, l: Transition, q: StateID| #[trigger]
        has_edge(h, p, l, q) && part.states.contains(p) implies part.states.contains(q) by {
        assert(!has_edge(g, p, l, q));
    }
    assert forall|w: Seq<char>| accepts_in(h, s, part.accept, w) <==> w == label_text(label) by {
        if accepts_in(h, s, part.accept, w) {
            let q = choose|q: StateID| #[trigger] part.accept.contains(q) && reaches(h, s, w, q);
            assert(q == e);
            let walk = lemma_reaches_walk(h, s, w, e);
            lemma_pair_walk(g, h, label, s, e, walk);
        }
        if w == label_text(label) {
            lemma_reaches_self(h, s);
            assert(has_edge(h, s, label, e));
            lemma_reaches_step(h, s, Seq::empty(), s, label, e);
            assert(Seq::<char>::empty() + label_text(label) =~= w);
            assert(part.accept.contains(e));
        }
    }
    assert(part.language(h) =~= Set::new(|w: Seq<char>| w == label_text(label)));
}

/// `h` is `g` with two more states: `s` forks to the entries of `a` and `b`,
/// and every exit of `a` and of `b` leads on to `e`.
spec fn union_shape(g: Table, h: Table, a: Part, b: Part, s: StateID, e: StateID) -> bool {
    &&& s == g.len()
    &&& e == g.len() + 1
    &&& h.len() == g.len() + 2
    &&& forall|p: StateID, l: Transition, q: StateID| #[trigger]
        has_edge(h, p, l, q) <==> has_edge(g, p, l, q) || (p == s && l == Transition::Epsilon && (q
            == a.start || q == b.start)) || ((a.accept.contains(p) || b.accept.contains(p)) && l
            == Transition::Epsilon && q == e)
}

/// The part that a union makes of `a` and `b`.
pub open spec fn union_part(a: Part, b: Part, s: StateID, e: StateID) -> Part {
    Part { start: s, accept: seq![e], states: a.states.union(b.states).insert(s).insert(e) }
}

/// Where a walk from the fork of a union can be, and what it has read.
spec fn union_walk_claim(
    g: Table,
    a: Part,
    b: Part,
    s: StateID,
    e: StateID,
    n: nat,
    x: StateID,
    w: Seq<char>,
) -> bool {
    ||| (n == 0 && x == s && w.len() == 0)
    ||| (a.states.contains(x) && reaches(g, a.start, w, x))
    ||| (b.states.contains(x) && reaches(g, b.start, w, x))
    ||| (x == e && (accepts_in(g, a.start, a.accept, w) || accepts_in(g, b.start, b.accept, w)))
}

proof fn lemma_union_walk(
    g: Table,
    h: Table,
    a: Part,
    b: Part,
    s: StateID,
    e: StateID,
    walk: Seq<(Transition, StateID)>,
)
    requires
        a.inside(g),
        b.inside(g),
        a.states.disjoint(b.states),
        union_shape(g, h, a, b, s, e),
        is_walk(h, s, walk),
    ensures
        union_walk_claim(g, a, b, s, e, walk.len(), walk_end(s, walk), spelled(walk)),
    decreases walk.len(),
{
    if walk.len() > 0 {
        let front = walk.drop_last();
        let l = walk.last().0;
        let x = walk.last().1;
        let y = walk_end(s, front);
        let u = spelled(front);
        let w = spelled(walk);
        lemma_walk_drop_last(h, s, walk);
        lemma_union_walk(g, h, a, b, s, e, front);
        assert(has_edge(h, y, l, x));
        assert(w == u + label_text(l));
        if front.len() == 0 && y == s && u.len() == 0 {
            assert(!has_edge(g, y, l, x));
            assert(!a.accept.contains(y));
            assert(!b.accept.contains(y));
            assert(w =~= Seq::<char>::empty());
            lemma_reaches_self(g, x);
        } else if a.states.contains(y) && reaches(g, a.start, u, y) {
            assert(!b.accept.contains(y));
            if has_edge(g, y, l, x) {
                lemma_reaches_step(g, a.start, u, y, l, x);
            } else {
                assert(a.accept.contains(y) && l == Transition::Epsilon && x == e);
                assert(w =~= u);
            }
        } else if b.states.contains(y) && reaches(g, b.start, u, y) {
            assert(!a.accept.contains(y));
            if has_edge(g, y, l, x) {
                lemma_reaches_step(g, b.start, u, y, l, x);
            } else {
                assert(b.accept.contains(y) && l == Transition::Epsilon && x == e);
                assert(w =~= u);
            }
        } else {
            assert(y == e);
            assert(!has_edge(g, y, l, x));
            assert(!a.accept.contains(y));
            assert(!b.accept.contains(y));
        }
    }
}

/// What one side of a union accepts, the union accepts.
proof fn lemma_union_side(
    g: Table,
    h: Table,
    a: Part,
    b: Part,
    s: StateID,
    e: StateID,
    side: Part,
    w: Seq<char>,
)
    requires
        union_shape(g, h, a, b, s, e),
        side == a || side == b,
        accepts_in(g, side.start, side.accept, w),
    ensures
        accepts_in(h, s, seq![e], w),
{
    let q = choose|q: StateID| #[trigger] side.accept.contains(q) && reaches(g, side.start, w, q);
    let none = Seq::<char>::empty();
    assert(subgraph(g, h));
    lemma_reaches_lift(g, h, side.start, w, q);
    lemma_reaches_self(h, s);
    assert(has_edge(h, s, Transition::Epsilon, side.start));
    lemma_reaches_step(h, s, none, s, Transition::Epsilon, side.start);
    assert(none + label_text(Transition::Epsilon) =~= none);
    lemma_reaches_trans(h, s, none, side.start, w, q);
    assert(none + w =~= w);
    assert(has_edge(h, q, Transition::Epsilon, e));
    lemma_reaches_step(h, s, w, q, Transition::Epsilon, e);
    assert(w + label_text(Transition::Epsilon) =~= w);
    assert(seq![e][0] == e);
    assert(seq![e].contains(e));
}

/// A union accepts what either side accepts, and nothing else.
proof fn lemma_union_language(g: Table, h: Table, a: Part, b: Part, s: StateID, e: StateID)
    requires
        a.inside(g),
        b.inside(g),
        a.states.disjoint(b.states),
        union_shape(g, h, a, b, s, e),
    ensures
        union_part(a, b, s, e).inside(h),
        union_part(a, b, s, e).language(h) == lang_union(a.language(g), b.language(g)),
{
    let part = union_part(a, b, s, e);
    assert(part.accept[0] == e);
    assert forall|p: StateID, l: Transition, q: StateID| #[trigger]
        has_edge(h, p, l, q) && part.states.contains(p) implies part.states.contains(q) by {
        if has_edge(g, p, l, q) {
            assert(a.states.contains(p) || b.states.contains(p));
        }
    }
    assert forall|w: Seq<char>|
        accepts_in(h, s, part.accept, w) <==> accepts_in(g, a.start, a.accept, w) || accepts_in(
            g,
            b.start,
            b.accept,
            w,
        ) by {
        if accepts_in(h, s, part.accept, w) {
            let q = choose|q: StateID| #[trigger] part.accept.contains(q) && reaches(h, s, w, q);
            assert(q == e);
            let walk = lemma_reaches_walk(h, s, w, e);
            lemma_union_walk(g, h, a, b, s, e, walk);
        }
        if accepts_in(g, a.start, a.accept, w) {
            lemma_union_side(g, h, a, b, s, e, a, w);
        }
        if accepts_in(g, b.start, b.accept, w) {
            lemma_union_side(g, h, a, b, s, e, b, w);
        }
    }
    assert(part.language(h) =~= lang_union(a.language(g), b.language(g)));
}

/// `h` is `g` with one more edge from every exit of `a` to the entry of `b`.
spec fn concat_shape(g: Table, h: Table, a: Part, b: Part) -> bool {
    &&& h.len() == g.len()
    &&& forall|p: StateID, l: Transition, q: StateID| #[trigger]
        has_edge(h, p, l, q) <==> has_edge(g, p, l, q) || (a.accept.contains(p) && l
            == Transition::Epsilon && q == b.start)
}

/// The part that a concatenation makes of `a` and `b`.
pub open spec fn concat_part(a: Part, b: Part) -> Part {
    Part { start: a.start, accept: b.accept, states: a.states.union(b.states) }
}

/// `w` is a string that `a` accepts followed by one that leads `b` from its
/// entry to `x`.
spec fn concat_split(g: Table, a: Part, b: Part, x: StateID, w: Seq<char>) -> bool {
    exists|i: int|
        0 <= i <= w.len() && #[trigger] accepts_in(g, a.start, a.accept, w.subrange(0, i))
            && reaches(g, b.start, w.subrange(i, w.len() as int), x)
}

/// Where a walk from the entry of a concatenation can be, and what it has read.
spec fn concat_walk_claim(g: Table, a: Part, b: Part, x: StateID, w: Seq<char>) -> bool {
    ||| (a.states.contains(x) && reaches(g, a.start, w, x))
    ||| (b.states.contains(x) && concat_split(g, a, b, x, w))
}

proof fn lemma_concat_walk(
    g: Table,
    h: Table,
    a: Part,
    b: Part,
    walk: Seq<(Transition, StateID)>,
)
    requires
        a.inside(g),
        b.inside(g),
        a.states.disjoint(b.states),
        concat_shape(g, h, a, b),
        is_walk(h, a.start, walk),
    ensures
        concat_walk_claim(g, a, b, walk_end(a.start, walk), spelled(walk)),
    decreases walk.len(),
{
    if walk.len() == 0 {
        lemma_reaches_self(g, a.start);
    } else {
        let front = walk.drop_last();
        let l = walk.last().0;
        let x = walk.last().1;
        let y = walk_end(a.start, front);
        let u = spelled(front);
        let w = spelled(walk);
        lemma_walk_drop_last(h, a.start, walk);
        lemma_concat_walk(g, h, a, b, front);
        assert(has_edge(h, y, l, x));
        assert(w == u + label_text(l));
        if a.states.contains(y) && reaches(g, a.start, u, y) {
            if has_edge(g, y, l, x) {
                lemma_reaches_step(g, a.start, u, y, l, x);
            } else {
                assert(a.accept.contains(y) && l == Transition::Epsilon && x == b.start);
                assert(w =~= u);
                let i = w.len() as int;
                assert(w.subrange(0, i) =~= w);
                assert(w.subrange(i, i) =~= Seq::<char>::empty());
                lemma_reaches_self(g, b.start);
                assert(accepts_in(g, a.start, a.accept, w.subrange(0, i)));
                assert(concat_split(g, a, b, x, w));
            }
        } else {
            assert(b.states.contains(y) && concat_split(g, a, b, y, u));
            assert(!a.accept.contains(y));
            let i = choose|i: int|
                0 <= i <= u.len() && #[trigger] accepts_in(g, a.start, a.accept, u.subrange(0, i))
                    && reaches(g, b.start, u.subrange(i, u.len() as int), y);
            lemma_reaches_step(g, b.start, u.subrange(i, u.len() as int), y, l, x);
            assert(w.subrange(0, i) =~= u.subrange(0, i));
            assert(w.subrange(i, w.len() as int) =~= u.subrange(i, u.len() as int) + label_text(l));
            assert(concat_split(g, a, b, x, w));
        }
    }
}

/// What a concatenation accepts is a string of `a` followed by one of `b`.
proof fn lemma_concat_splits(g: Table, h: Table, a: Part, b: Part, w: Seq<char>)
    requires
        a.inside(g),
        b.inside(g),
        a.states.disjoint(b.states),
        concat_shape(g, h, a, b),
        accepts_in(h, a.start, b.accept, w),
    ensures
        in_concat(a.language(g), b.language(g), w),
{
    let q = choose|q: StateID| #[trigger] b.accept.contains(q) && reaches(h, a.start, w, q);
    let walk = lemma_reaches_walk(h, a.start, w, q);
    lemma_concat_walk(g, h, a, b, walk);
    assert(b.states.contains(q));
    assert(!a.states.contains(q));
    assert(concat_split(g, a, b, q, w));
    let i = choose|i: int|
        0 <= i <= w.len() && #[trigger] accepts_in(g, a.start, a.accept, w.subrange(0, i))
            && reaches(g, b.start, w.subrange(i, w.len() as int), q);
    assert(a.language(g).contains(w.subrange(0, i)));
    assert(accepts_in(g, b.start, b.accept, w.subrange(i, w.len() as int)));
    assert(b.language(g).contains(w.subrange(i, w.len() as int)));
}

/// A string of `a` followed by one of `b` is accepted by their concatenation.
proof fn lemma_concat_joins(g: Table, h: Table, a: Part, b: Part, u: Seq<char>, v: Seq<char>)
    requires
        concat_shape(g, h, a, b),
        accepts_in(g, a.start, a.accept, u),
        accepts_in(g, b.start, b.accept, v),
    ensures
        accepts_in(h, a.start, b.accept, u + v),
{
    let m = choose|m: StateID| #[trigger] a.accept.contains(m) && reaches(g, a.start, u, m);
    let q = choose|q: StateID| #[trigger] b.accept.contains(q) && reaches(g, b.start, v, q);
    assert(subgraph(g, h));
    lemma_reaches_lift(g, h, a.start, u, m);
    lemma_reaches_lift(g, h, b.start, v, q);
    assert(has_edge(h, m, Transition::Epsilon, b.start));
    lemma_reaches_step(h, a.start, u, m, Transition::Epsilon, b.start);
    assert(u + label_text(Transition::Epsilon) =~= u);
    lemma_reaches_trans(h, a.start, u, b.start, v, q);
}

/// A concatenation accepts every string of `a` followed by every string of
/// `b`, and nothing else.
proof fn lemma_concat_language(g: Table, h: Table, a: Part, b: Part)
    requires
        a.inside(g),
        b.inside(g),
        a.states.disjoint(b.states),
        concat_shape(g, h, a, b),
    ensures
        concat_part(a, b).inside(h),
        concat_part(a, b).language(h) == lang_concat(a.language(g), b.language(g)),
{
    let part = concat_part(a, b);
    let la = a.language(g);
    let lb = b.language(g);
    assert(closed_under(h, part.states)) by {
        assert forall|p: StateID, l: Transition, q: StateID| #[trigger]
            has_edge(h, p, l, q) && part.states.contains(p) implies part.states.contains(q) by {
            if has_edge(g, p, l, q) {
                assert(a.states.contains(p) || b.states.contains(p));
            }
        }
    }
    assert forall|w: Seq<char>| accepts_in(h, a.start, b.accept, w) <==> in_concat(la, lb, w) by {
        if accepts_in(h, a.start, b.accept, w) {
            lemma_concat_splits(g, h, a, b, w);
        }
        if in_concat(la, lb, w) {
            let i = choose|i: int|
                0 <= i <= w.len() && #[trigger] la.contains(w.subrange(0, i)) && lb.contains(
                    w.subrange(i, w.len() as int),
                );
            let u = w.subrange(0, i);
            let v = w.subrange(i, w.len() as int);
            lemma_concat_joins(g, h, a, b, u, v);
            assert(u + v =~= w);
        }
    }
    assert(part.language(h) =~= lang_concat(la, lb));
}

/// `h` is `g` with two more states: `s` leads to the entry of `a` and to
/// `e`, and so does every exit of `a`.
spec fn star_shape(g: Table, h: Table, a: Part, s: StateID, e: StateID) -> bool {
    &&& s == g.len()
    &&& e == g.len() + 1
    &&& h.len() == g.len() + 2
    &&& forall|p: StateID, l: Transition, q: StateID| #[trigger]
        has_edge(h, p, l, q) <==> has_edge(g, p, l, q) || ((p == s || a.accept.contains(p)) && l
            == Transition::Epsilon && (q == a.start || q == e))
}

/// The part that a star makes of `a`.
pub open spec fn star_part(a: Part, s: StateID, e: StateID) -> Part {
    Part { start: s, accept: seq![e], states: a.states.insert(s).insert(e) }
}

/// `w` is a string of the star of `a` followed by one that leads `a` from its
/// entry to `x`.
spec fn star_split(g: Table, a: Part, x: StateID, w: Seq<char>) -> bool {
    exists|i: int|
        0 <= i <= w.len() && #[trigger] in_star(a.language(g), w.subrange(0, i)) && reaches(
            g,
            a.start,
            w.subrange(i, w.len() as int),
            x,
        )
}

/// Where a walk from the entry of a star can be, and what it has read.
spec fn star_walk_claim(
    g: Table,
    a: Part,
    s: StateID,
    e: StateID,
    n: nat,
    x: StateID,
    w: Seq<char>,
) -> bool {
    ||| (n == 0 && x == s && w.len() == 0)
    ||| (a.states.contains(x) && star_split(g, a, x, w))
    ||| (x == e && in_star(a.language(g), w))
}

proof fn lemma_star_walk(
    g: Table,
    h: Table,
    a: Part,
    s: StateID,
    e: StateID,
    walk: Seq<(Transition, StateID)>,
)
    requires
        a.inside(g),
        star_shape(g, h, a, s, e),
        is_walk(h, s, walk),
    ensures
        star_walk_claim(g, a, s, e, walk.len(), walk_end(s, walk), spelled(walk)),
    decreases walk.len(),
{
    let la = a.language(g);
    if walk.len() > 0 {
        let front = walk.drop_last();
        let l = walk.last().0;
        let x = walk.last().1;
        let y = walk_end(s, front);
        let u = spelled(front);
        let w = spelled(walk);
        lemma_walk_drop_last(h, s, walk);
        lemma_star_walk(g, h, a, s, e, front);
        assert(has_edge(h, y, l, x));
        assert(w == u + label_text(l));
        if front.len() == 0 && y == s && u.len() == 0 {
            assert(!has_edge(g, y, l, x));
            assert(w =~= Seq::<char>::empty());
            if x == a.start {
                assert(w.subrange(0, 0) =~= w);
                assert(in_star(la, w.subrange(0, 0)));
                lemma_reaches_self(g, a.start);
                assert(star_split(g, a, x, w));
            }
        } else if a.states.contains(y) && star_split(g, a, y, u) {
            let i = choose|i: int|
                0 <= i <= u.len() && #[trigger] in_star(la, u.subrange(0, i)) && reaches(
                    g,
                    a.start,
                    u.subrange(i, u.len() as int),
                    y,
                );
            let head = u.subrange(0, i);
            let tail = u.subrange(i, u.len() as int);
            if has_edge(g, y, l, x) {
                lemma_reaches_step(g, a.start, tail, y, l, x);
                assert(w.subrange(0, i) =~= head);
                assert(w.subrange(i, w.len() as int) =~= tail + label_text(l));
                assert(star_split(g, a, x, w));
            } else {
                assert(a.accept.contains(y) && l == Transition::Epsilon);
                assert(w =~= u);
                assert(accepts_in(g, a.start, a.accept, tail));
                assert(la.contains(tail));
                lemma_star_append(la, head, tail);
                assert(head + tail =~= w);
                if x == a.start {
                    let n = w.len() as int;
                    assert(w.subrange(0, n) =~= w);
                    assert(w.subrange(n, n) =~= Seq::<char>::empty());
                    assert(in_star(la, w.subrange(0, n)));
                    lemma_reaches_self(g, a.start);
                    assert(star_split(g, a, x, w));
                }
            }
        } else {
            assert(y == e);
            assert(!has_edge(g, y, l, x));
            assert(!a.accept.contains(y));
        }
    }
}

/// Every exit of `a` has an epsilon edge back to its entry.
spec fn looped_back(h: Table, a: Part) -> bool {
    forall|m: StateID| #[trigger]
        a.accept.contains(m) ==> has_edge(h, m, Transition::Epsilon, a.start)
}

/// A string of the star that is not empty leads `a`, with its exits looped
/// back, from its entry to one of its exits.
proof fn lemma_star_rounds(g: Table, h: Table, a: Part, w: Seq<char>)
    requires
        subgraph(g, h),
        looped_back(h, a),
        in_star(a.language(g), w),
        w.len() > 0,
    ensures
        accepts_in(h, a.start, a.accept, w),
    decreases w.len(),
{
    let la = a.language(g);
    let i = choose|i: int|
        0 < i <= w.len() && #[trigger] la.contains(w.subrange(0, i)) && in_star(
            la,
            w.subrange(i, w.len() as int),
        );
    let u = w.subrange(0, i);
    let v = w.subrange(i, w.len() as int);
    assert(accepts_in(g, a.start, a.accept, u));
    let m = choose|m: StateID| #[trigger] a.accept.contains(m) && reaches(g, a.start, u, m);
    lemma_reaches_lift(g, h, a.start, u, m);
    if v.len() == 0 {
        assert(u =~= w);
    } else {
        lemma_star_rounds(g, h, a, v);
        let q = choose|q: StateID| #[trigger] a.accept.contains(q) && reaches(h, a.start, v, q);
        assert(has_edge(h, m, Transition::Epsilon, a.start));
        lemma_reaches_step(h, a.start, u, m, Transition::Epsilon, a.start);
        assert(u + label_text(Transition::Epsilon) =~= u);
        lemma_reaches_trans(h, a.start, u, a.start, v, q);
        assert(u + v =~= w);
    }
}

/// A star accepts zero or more strings of `a`, one after the other, and
/// nothing else.
proof fn lemma_star_language(g: Table, h: Table, a: Part, s: StateID, e: StateID)
    requires
        a.inside(g),
        star_shape(g, h, a, s, e),
    ensures
        star_part(a, s, e).inside(h),
        star_part(a, s, e).language(h) == lang_star(a.language(g)),
{
    let part = star_part(a, s, e);
    let la = a.language(g);
    let none = Seq::<char>::empty();
    assert(part.accept[0] == e);
    assert(part.accept.contains(e));
    assert forall|p: StateID, l: Transition, q: StateID| #[trigger]
        has_edge(h, p, l, q) && part.states.contains(p) implies part.states.contains(q) by {
        if has_edge(g, p, l, q) {
            assert(a.states.contains(p));
        }
    }
    assert forall|w: Seq<char>| accepts_in(h, s, part.accept, w) <==> in_star(la, w) by {
        if accepts_in(h, s, part.accept, w) {
            let q = choose|q: StateID| #[trigger] part.accept.contains(q) && reaches(h, s, w, q);
            assert(q == e);
            let walk = lemma_reaches_walk(h, s, w, e);
            lemma_star_walk(g, h, a, s, e, walk);
        }
        if in_star(la, w) {
            lemma_reaches_self(h, s);
            assert(none + label_text(Transition::Epsilon) =~= none);
            if w.len() == 0 {
                assert(has_edge(h, s, Transition::Epsilon, e));
                lemma_reaches_step(h, s, none, s, Transition::Epsilon, e);
                assert(w =~= none);
            } else {
                assert(subgraph(g, h));
                assert(looped_back(h, a));
                lemma_star_rounds(g, h, a, w);
                let q = choose|q: StateID| #[trigger]
                    a.accept.contains(q) && reaches(h, a.start, w, q);
                assert(has_edge(h, s, Transition::Epsilon, a.start));
                lemma_reaches_step(h, s, none, s, Transition::Epsilon, a.start);
                lemma_reaches_trans(h, s, none, a.start, w, q);
                assert(none + w =~= w);
                assert(has_edge(h, q, Transition::Epsilon, e));
                lemma_reaches_step(h, s, w, q, Transition::Epsilon, e);
                assert(w + label_text(Transition::Epsilon) =~= w);
            }
        }
    }
    assert(part.language(h) =~= lang_star(la));
}

/// What adding a pair of states joined by one edge makes of a table.
pub proof fn lemma_pair_table(g: Table, label: Transition)
    requires
        g.len() + 2 <= usize::MAX,
    ensures
        ({
            let h = with_pair(g, label);
            let part = pair_part(g.len() as StateID, (g.len() + 1) as StateID);
            &&& h.len() == g.len() + 2
            &&& grown_from(g, h, Set::empty())
            &&& part.inside(h)
            &&& part.within(g.len() as int, h.len() as int)
            &&& part.language(h) == Set::new(|w: Seq<char>| w == label_text(label))
            &&& table_wf(g) ==> table_wf(h)
        }),
{
    let h = with_pair(g, label);
    let s = g.len() as StateID;
    let e = (g.len() + 1) as StateID;
    lemma_with_pair_edges(g, label);
    lemma_pair_language(g, h, label, s, e);
    if table_wf(g) {
        lemma_edges_in_table(g);
        lemma_table_wf(h);
    }
}

/// What a union makes of a table and of two parts of it.
pub proof fn lemma_union_table(g: Table, a: Part, b: Part)
    requires
        g.len() + 2 <= usize::MAX,
        a.inside(g),
        b.inside(g),
        a.states.disjoint(b.states),
    ensures
        ({
            let h = union_table(g, a, b);
            let part = union_part(a, b, g.len() as StateID, (g.len() + 1) as StateID);
            &&& h.len() == g.len() + 2
            &&& grown_from(g, h, a.states.union(b.states))
            &&& part.inside(h)
            &&& part.language(h) == lang_union(a.language(g), b.language(g))
            &&& table_wf(g) ==> table_wf(h)
        }),
{
    let s = g.len() as StateID;
    let e = (g.len() + 1) as StateID;
    let forked = with_fork(g, a.start, b.start);
    let half = linked(forked, a.accept, e);
    let h = linked(half, b.accept, e);
    lemma_part_in_range(g, a);
    lemma_part_in_range(g, b);
    lemma_with_fork_edges(g, a.start, b.start);
    lemma_linked_edges(forked, a.accept, e);
    lemma_linked_edges(half, b.accept, e);
    assert(union_shape(g, h, a, b, s, e));
    lemma_union_language(g, h, a, b, s, e);
    let operands = a.states.union(b.states);
    assert forall|x: StateID| x < g.len() && !operands.contains(x) implies #[trigger] h[x as int]
        == g[x as int] by {
        assert(!a.accept.contains(x));
        assert(!b.accept.contains(x));
        assert(half[x as int] == forked[x as int]);
    }
    if table_wf(g) {
        lemma_edges_in_table(g);
        lemma_table_wf(h);
    }
}

/// What a concatenation makes of a table and of two parts of it.
pub proof fn lemma_concat_table(g: Table, a: Part, b: Part)
    requires
        g.len() <= usize::MAX,
        a.inside(g),
        b.inside(g),
        a.states.disjoint(b.states),
    ensures
        ({
            let h = concat_table(g, a, b);
            let part = concat_part(a, b);
            &&& h.len() == g.len()
            &&& grown_from(g, h, a.states)
            &&& part.inside(h)
            &&& part.language(h) == lang_concat(a.language(g), b.language(g))
            &&& table_wf(g) ==> table_wf(h)
        }),
{
    let h = concat_table(g, a, b);
    lemma_part_in_range(g, a);
    lemma_part_in_range(g, b);
    lemma_linked_edges(g, a.accept, b.start);
    assert(concat_shape(g, h, a, b));
    lemma_concat_language(g, h, a, b);
    assert forall|x: StateID| x < g.len() && !a.states.contains(x) implies #[trigger] h[x as int]
        == g[x as int] by {
        assert(!a.accept.contains(x));
    }
    if table_wf(g) {
        lemma_edges_in_table(g);
        lemma_table_wf(h);
    }
}

/// What a star makes of a table and of a part of it.
pub proof fn lemma_star_table(g: Table, a: Part)
    requires
        g.len() + 2 <= usize::MAX,
        a.inside(g),
    ensures
        ({
            let h = star_table(g, a);
            let part = star_part(a, g.len() as StateID, (g.len() + 1) as StateID);
            &&& h.len() == g.len() + 2
            &&& grown_from(g, h, a.states)
            &&& part.inside(h)
            &&& part.language(h) == lang_star(a.language(g))
            &&& table_wf(g) ==> table_wf(h)
        }),
{
    let s = g.len() as StateID;
    let e = (g.len() + 1) as StateID;
    let forked = with_fork(g, a.start, e);
    let half = linked(forked, a.accept, a.start);
    let h = linked(half, a.accept, e);
    lemma_part_in_range(g, a);
    lemma_with_fork_edges(g, a.start, e);
    lemma_linked_edges(forked, a.accept, a.start);
    lemma_linked_edges(half, a.accept, e);
    assert(star_shape(g, h, a, s, e));
    lemma_star_language(g, h, a, s, e);
    assert forall|x: StateID| x < g.len() && !a.states.contains(x) implies #[trigger] h[x as int]
        == g[x as int] by {
        assert(!a.accept.contains(x));
        assert(half[x as int] == forked[x as int]);
    }
    if table_wf(g) {
        lemma_edges_in_table(g);
        lemma_table_wf(h);
    }
}

/// The automaton that is assembled for a syntax tree in the table `g`: the
/// table it leaves and the part that stands for the tree. The operands of an
/// operator are assembled first, the left before the right.
pub open spec fn assemble(tree: Regex, g: Table) -> (Table, Part)
    decreases tree,
{
    match tree {
        Regex::Empty => (
            with_pair(g, Transition::Epsilon),
            pair_part(g.len() as StateID, (g.len() + 1) as StateID),
        ),
        Regex::Literal(c) => (
            with_pair(g, Transition::Literal(c)),
            pair_part(g.len() as StateID, (g.len() + 1) as StateID),
        ),
        Regex::Alternation(a, b) => {
            let (left, pa) = assemble(*a, g);
            let (both, pb) = assemble(*b, left);
            (
                union_table(both, pa, pb),
                union_part(pa, pb, both.len() as StateID, (both.len() + 1) as StateID),
            )
        },
        Regex::Concatenation(a, b) => {
            let (left, pa) = assemble(*a, g);
            let (both, pb) = assemble(*b, left);
            (concat_table(both, pa, pb), concat_part(pa, pb))
        },
        Regex::Star(a) => {
            let (inner, pa) = assemble(*a, g);
            (
                star_table(inner, pa),
                star_part(pa, inner.len() as StateID, (inner.len() + 1) as StateID),
            )
        },
    }
}

/// The automaton of a syntax tree: the tree assembled in the table of a new
/// automaton, which has one state of its own.
pub open spec fn automaton_of(tree: Regex) -> Automaton {
    let (edges, part) = assemble(tree, seq![Seq::empty()]);
    Automaton { start: part.start, accept: part.accept, edges }
}

/// How many states are added for a syntax tree.
pub open spec fn states_of(tree: Regex) -> nat
    decreases tree,
{
    match tree {
        Regex::Empty => 2,
        Regex::Literal(_) => 2,
        Regex::Alternation(a, b) => states_of(*a) + states_of(*b) + 2,
        Regex::Concatenation(a, b) => states_of(*a) + states_of(*b),
        Regex::Star(a) => states_of(*a) + 2,
    }
}

/// Assembling a syntax tree adds states to the table and touches no state
/// that was there; the part that stands for the tree is made of the added
/// states and accepts exactly the language of the tree.
pub proof fn lemma_assemble(tree: Regex, g: Table)
    requires
        table_wf(g),
        g.len() + states_of(tree) <= usize::MAX,
    ensures
        ({
            let (h, part) = assemble(tree, g);
            &&& h.len() == g.len() + states_of(tree)
            &&& table_wf(h)
            &&& grown_from(g, h, Set::empty())
            &&& part.inside(h)
            &&& part.within(g.len() as int, h.len() as int)
            &&& part.language(h) == tree.language()
        }),
    decreases tree,
{
    match tree {
        Regex::Empty => {
            lemma_pair_table(g, Transition::Epsilon);
            assert forall|w: Seq<char>| w == label_text(Transition::Epsilon) <==> w.len() == 0 by {
                if w.len() == 0 {
                    assert(w =~= label_text(Transition::Epsilon));
                }
            }
            assert(Set::new(|w: Seq<char>| w == label_text(Transition::Epsilon))
                =~= lang_empty_string());
        },
        Regex::Literal(c) => {
            lemma_pair_table(g, Transition::Literal(c));
            assert(Set::new(|w: Seq<char>| w == label_text(Transition::Literal(c))) =~= lang_char(
                c,
            ));
        },
        Regex::Alternation(a, b) => {
            let (left, pa) = assemble(*a, g);
            let (both, pb) = assemble(*b, left);
            lemma_assemble(*a, g);
            lemma_assemble(*b, left);
            lemma_part_kept(left, both, Set::empty(), pa);
            lemma_union_table(both, pa, pb);
            lemma_grown_twice(g, left, both, union_table(both, pa, pb), pa.states.union(pb.states));
        },
        Regex::Concatenation(a, b) => {
            let (left, pa) = assemble(*a, g);
            let (both, pb) = assemble(*b, left);
            lemma_assemble(*a, g);
            lemma_assemble(*b, left);
            lemma_part_kept(left, both, Set::empty(), pa);
            lemma_concat_table(both, pa, pb);
            lemma_grown_twice(g, left, both, concat_table(both, pa, pb), pa.states);
        },
        Regex::Star(a) => {
            let (inner, pa) = assemble(*a, g);
            lemma_assemble(*a, g);
            lemma_star_table(inner, pa);
            lemma_grown_twice(g, inner, inner, star_table(inner, pa), pa.states);
        },
    }
}

/// Growth that touches only states added since `g` leaves `g` alone.
pub proof fn lemma_grown_chain(g: Table, mid: Table, h: Table, touched: Set<StateID>)
    requires
        grown_from(g, mid, Set::empty()),
        grown_from(mid, h, touched),
        forall|s: StateID| #[trigger] touched.contains(s) ==> s >= g.len(),
    ensures
        grown_from(g, h, Set::empty()),
{
    assert forall|s: StateID| s < g.len() implies #[trigger] h[s as int] == g[s as int] by {
        assert(!touched.contains(s));
        assert(mid[s as int] == g[s as int]);
    }
}

proof fn lemma_grown_twice(g: Table, left: Table, both: Table, h: Table, touched: Set<StateID>)
    requires
        grown_from(g, left, Set::empty()),
        grown_from(left, both, Set::empty()),
        grown_from(both, h, touched),
        forall|s: StateID| #[trigger] touched.contains(s) ==> s >= g.len(),
    ensures
        grown_from(g, h, Set::empty()),
{
    lemma_grown_chain(g, left, both, Set::empty());
    lemma_grown_chain(g, both, h, touched);
}

/// Thompson's construction is correct: the automaton of a syntax tree is
/// well formed and accepts exactly the language of the tree.
pub proof fn lemma_automaton_of(tree: Regex)
    requires
        1 + states_of(tree) <= usize::MAX,
    ensures
        automaton_of(tree).wf(),
        automaton_of(tree).language() == tree.language(),
{
    let g: Table = seq![Seq::empty()];
    assert(table_wf(g));
    lemma_assemble(tree, g);
    let (h, part) = assemble(tree, g);
    lemma_part_in_range(h, part);
}

} // verus!
