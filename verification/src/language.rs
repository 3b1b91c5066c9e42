//! Sets of strings, and the few operations on them that regular expressions
//! are made of.

use vstd::prelude::*;

verus! {

/// The language that holds the empty string and nothing else.
pub open spec fn lang_empty_string() -> Set<Seq<char>> {
    Set::new(|w: Seq<char>| w.len() == 0)
}

/// The language that holds the one-character string `c` and nothing else.
pub open spec fn lang_char(c: char) -> Set<Seq<char>> {
    Set::new(|w: Seq<char>| w == seq![c])
}

/// The strings of `a` together with those of `b`.
pub open spec fn lang_union(a: Set<Seq<char>>, b: Set<Seq<char>>) -> Set<Seq<char>> {
    Set::new(|w: Seq<char>| a.contains(w) || b.contains(w))
}

/// Whether `w` is a string of `a` followed by a string of `b`.
pub open spec fn in_concat(a: Set<Seq<char>>, b: Set<Seq<char>>, w: Seq<char>) -> bool {
    exists|i: int|
        0 <= i <= w.len() && #[trigger] a.contains(w.subrange(0, i)) && b.contains(
            w.subrange(i, w.len() as int),
        )
}

/// Every string of `a` followed by every string of `b`.
pub open spec fn lang_concat(a: Set<Seq<char>>, b: Set<Seq<char>>) -> Set<Seq<char>> {
    Set::new(|w: Seq<char>| in_concat(a, b, w))
}

/// Whether `w` is made of zero or more strings of `a`, one after the other.
pub open spec fn in_star(a: Set<Seq<char>>, w: Seq<char>) -> bool
    decreases w.len(),
{
    w.len() == 0 || exists|i: int|
        0 < i <= w.len() && #[trigger] a.contains(w.subrange(0, i)) && in_star(
            a,
            w.subrange(i, w.len() as int),
        )
}

/// Zero or more strings of `a`, one after the other.
pub open spec fn lang_star(a: Set<Seq<char>>) -> Set<Seq<char>> {
    Set::new(|w: Seq<char>| in_star(a, w))
}

/// A string of the star followed by a string of the language is in the star.
pub proof fn lemma_star_append(a: Set<Seq<char>>, u: Seq<char>, v: Seq<char>)
    requires
        in_star(a, u),
        a.contains(v),
    ensures
        in_star(a, u + v),
    decreases u.len(),
{
    let w = u + v;
    if u.len() == 0 {
        assert(w =~= v);
        if v.len() > 0 {
            assert(w.subrange(0, w.len() as int) =~= v);
            assert(w.subrange(w.len() as int, w.len() as int).len() == 0);
            assert(in_star(a, w.subrange(w.len() as int, w.len() as int)));
        }
    } else {
        let i = choose|i: int|
            0 < i <= u.len() && #[trigger] a.contains(u.subrange(0, i)) && in_star(
                a,
                u.subrange(i, u.len() as int),
            );
        lemma_star_append(a, u.subrange(i, u.len() as int), v);
        assert(w.subrange(0, i) =~= u.subrange(0, i));
        assert(w.subrange(i, w.len() as int) =~= u.subrange(i, u.len() as int) + v);
    }
}

} // verus!
