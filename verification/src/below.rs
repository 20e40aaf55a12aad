//! Which entities hang below which: the descendants of an entity are those
//! that have it among their ancestors.
use crate::components::Child;
use crate::links::Links;
use crate::order::{ancestors_of, lemma_ancestors_fuel, lemma_ranking, ranked, ranking, span};
use vstd::prelude::*;

verus! {

/// `x` is an ancestor of `y`.
pub open spec fn is_below(c: Map<u64, Child>, y: u64, x: u64) -> bool {
    ancestors_of(c, y).contains(x)
}

/// The ancestors of an entity are its parent, then the ancestors of its
/// parent.
pub proof fn lemma_ancestors_unfold(c: Map<u64, Child>, y: u64)
    requires
        crate::order::acyclic(c),
    ensures
        ancestors_of(c, y) == if c.contains_key(y) {
            seq![c[y].parent] + ancestors_of(c, c[y].parent)
        } else {
            Seq::empty()
        },
{
    lemma_ranking(c);
    let (rank, top) = ranking(c);
    if c.contains_key(y) {
        lemma_ancestors_fuel(c, rank, top, c[y].parent, top, span(c));
    }
}

/// An entity is below `x` where its parent is `x` or is below `x`.
pub proof fn lemma_below_unfold(c: Map<u64, Child>, y: u64, x: u64)
    requires
        crate::order::acyclic(c),
    ensures
        is_below(c, y, x) <==> c.contains_key(y) && (c[y].parent == x || is_below(
            c,
            c[y].parent,
            x,
        )),
{
    lemma_ancestors_unfold(c, y);
    if c.contains_key(y) {
        let p = c[y].parent;
        let t = ancestors_of(c, p);
        let a = seq![p] + t;
        if a.contains(x) {
            let i = a.index_of(x);
            if i > 0 {
                assert(t[i - 1] == x);
            }
        }
        if t.contains(x) {
            let i = t.index_of(x);
            assert(a[i + 1] == x);
        }
        if p == x {
            assert(a[0] == x);
        }
    }
}

/// An entity ranks above all that it hangs below.
pub proof fn lemma_below_rank(
    c: Map<u64, Child>,
    rank: spec_fn(u64) -> nat,
    top: nat,
    y: u64,
    x: u64,
)
    requires
        ranked(c, rank, top),
        is_below(c, y, x),
    ensures
        rank(x) < rank(y),
    decreases rank(y),
{
    lemma_below_unfold(c, y, x);
    if c[y].parent != x {
        lemma_below_rank(c, rank, top, c[y].parent, x);
    }
}

/// What hangs below an entity hangs below all that the entity hangs below.
pub proof fn lemma_below_trans(
    c: Map<u64, Child>,
    rank: spec_fn(u64) -> nat,
    top: nat,
    y: u64,
    k: u64,
    x: u64,
)
    requires
        ranked(c, rank, top),
        is_below(c, y, k),
        is_below(c, k, x),
    ensures
        is_below(c, y, x),
    decreases rank(y),
{
    lemma_below_unfold(c, y, k);
    lemma_below_unfold(c, y, x);
    if c[y].parent != k {
        lemma_below_trans(c, rank, top, c[y].parent, k, x);
    }
}

/// What hangs below `x` is a child of `x` or hangs below one.
pub proof fn lemma_below_via_child(
    c: Map<u64, Child>,
    rank: spec_fn(u64) -> nat,
    top: nat,
    y: u64,
    x: u64,
) -> (k: u64)
    requires
        ranked(c, rank, top),
        is_below(c, y, x),
    ensures
        c.contains_key(k),
        c[k].parent == x,
        y == k || is_below(c, y, k),
    decreases rank(y),
{
    lemma_below_unfold(c, y, x);
    if c[y].parent == x {
        y
    } else {
        let k = lemma_below_via_child(c, rank, top, c[y].parent, x);
        lemma_below_unfold(c, y, k);
        k
    }
}

/// Of two children of one parent, neither hangs below the other.
pub proof fn lemma_sibling_not_below(
    c: Map<u64, Child>,
    rank: spec_fn(u64) -> nat,
    top: nat,
    a: u64,
    b: u64,
)
    requires
        ranked(c, rank, top),
        c.contains_key(a),
        c.contains_key(b),
        c[a].parent == c[b].parent,
    ensures
        !is_below(c, a, b),
{
    lemma_below_unfold(c, a, b);
    if is_below(c, c[a].parent, b) {
        lemma_below_rank(c, rank, top, c[b].parent, b);
    }
}

/// Nothing hangs below two different children of one parent.
pub proof fn lemma_siblings_apart(
    c: Map<u64, Child>,
    rank: spec_fn(u64) -> nat,
    top: nat,
    m: u64,
    a: u64,
    b: u64,
)
    requires
        ranked(c, rank, top),
        c.contains_key(a),
        c.contains_key(b),
        c[a].parent == c[b].parent,
        a != b,
    ensures
        !(is_below(c, m, a) && is_below(c, m, b)),
    decreases rank(m),
{
    if is_below(c, m, a) && is_below(c, m, b) {
        lemma_below_unfold(c, m, a);
        lemma_below_unfold(c, m, b);
        let p = c[m].parent;
        lemma_sibling_not_below(c, rank, top, a, b);
        lemma_sibling_not_below(c, rank, top, b, a);
        if p != a && p != b {
            lemma_siblings_apart(c, rank, top, p, a, b);
        }
    }
}

/// Where `c2` keeps some of the records of `c1`, each with the parent it
/// had, what hangs below `x` in `c2` hangs below `x` in `c1`.
pub proof fn lemma_below_of_fewer(
    c1: Map<u64, Child>,
    c2: Map<u64, Child>,
    rank: spec_fn(u64) -> nat,
    top: nat,
    y: u64,
    x: u64,
)
    requires
        ranked(c1, rank, top),
        forall|k: u64| #[trigger]
            c2.contains_key(k) ==> c1.contains_key(k) && c2[k].parent == c1[k].parent,
        is_below(c2, y, x),
    ensures
        is_below(c1, y, x),
    decreases rank(y),
{
    assert(ranked(c2, rank, top));
    lemma_below_unfold(c2, y, x);
    lemma_below_unfold(c1, y, x);
    assert(c2.contains_key(y));
    if c2[y].parent != x {
        lemma_below_of_fewer(c1, c2, rank, top, c2[y].parent, x);
    }
}

/// Where `c2` keeps all the records of `c1` that hang below `x`, each with
/// the parent it had, what hangs below `x` in `c1` hangs below `x` in `c2`.
pub proof fn lemma_below_kept(
    c1: Map<u64, Child>,
    c2: Map<u64, Child>,
    rank: spec_fn(u64) -> nat,
    top: nat,
    y: u64,
    x: u64,
)
    requires
        ranked(c1, rank, top),
        ranked(c2, rank, top),
        forall|k: u64|
            is_below(c1, k, x) ==> #[trigger] c2.contains_key(k) && c2[k].parent == c1[k].parent,
        is_below(c1, y, x),
    ensures
        is_below(c2, y, x),
    decreases rank(y),
{
    lemma_below_unfold(c2, y, x);
    lemma_below_unfold(c1, y, x);
    assert(c2.contains_key(y));
    if c1[y].parent != x {
        lemma_below_kept(c1, c2, rank, top, c1[y].parent, x);
    }
}

impl Links {
    /// `x` is an ancestor of `y`.
    pub open spec fn is_below(self, y: u64, x: u64) -> bool {
        is_below(self.children, y, x)
    }

    /// The descendants of `x`.
    pub open spec fn below(self, x: u64) -> Set<u64> {
        Set::new(|y: u64| is_below(self.children, y, x))
    }
}

} // verus!
