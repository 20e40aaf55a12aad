//! The orders in which a hierarchy is walked: the ancestors of an entity, and
//! its descendants depth first and breadth first.
//!
//! The three sequences are defined for every pair of record maps by
//! recursion on a count of steps; in a hierarchy without cycles the count
//! that [`Links::span`] gives is enough, and any larger count gives the same.
use crate::components::Child;
use crate::links::Links;
use vstd::prelude::*;

verus! {

/// `rank` grows from each parent to its children and stays at or below `top`.
pub open spec fn ranked(c: Map<u64, Child>, rank: spec_fn(u64) -> nat, top: nat) -> bool {
    forall|x: u64| #[trigger] c.contains_key(x) ==> rank(c[x].parent) < rank(x) <= top
}

/// No entity is its own ancestor, and no chain of descendants goes on for
/// ever.
pub open spec fn acyclic(c: Map<u64, Child>) -> bool {
    exists|rank: spec_fn(u64) -> nat, top: nat| ranked(c, rank, top)
}

/// One ranking of records without cycles.
pub open spec fn ranking(c: Map<u64, Child>) -> (spec_fn(u64) -> nat, nat) {
    choose|r: (spec_fn(u64) -> nat, nat)| ranked(c, r.0, r.1)
}

/// A count of steps that no walk through records without cycles uses up.
pub open spec fn span(c: Map<u64, Child>) -> nat {
    ranking(c).1 + 1
}

/// The parent of `id`, the parent's parent and so on, for at most `fuel`
/// steps.
pub open spec fn ancestors(c: Map<u64, Child>, id: u64, fuel: nat) -> Seq<u64>
    decreases fuel,
{
    if fuel == 0 || !c.contains_key(id) {
        Seq::empty()
    } else {
        seq![c[id].parent] + ancestors(c, c[id].parent, (fuel - 1) as nat)
    }
}

/// The ancestors of `id`, nearest first.
pub open spec fn ancestors_of(c: Map<u64, Child>, id: u64) -> Seq<u64> {
    ancestors(c, id, span(c))
}

/// The ranking that `ranking` picks is one.
pub proof fn lemma_ranking(c: Map<u64, Child>)
    requires
        acyclic(c),
    ensures
        ranked(c, ranking(c).0, ranking(c).1),
{
    let (rank, top) = choose|rank: spec_fn(u64) -> nat, top: nat| ranked(c, rank, top);
    assert(ranked(c, (rank, top).0, (rank, top).1));
}

/// Records that are some of records without cycles, each with the parent it
/// had, have no cycles.
pub proof fn lemma_fewer_acyclic(c1: Map<u64, Child>, c2: Map<u64, Child>)
    requires
        acyclic(c1),
        forall|k: u64| #[trigger]
            c2.contains_key(k) ==> c1.contains_key(k) && c2[k].parent == c1[k].parent,
    ensures
        acyclic(c2),
{
    lemma_ranking(c1);
    assert(ranked(c2, ranking(c1).0, ranking(c1).1));
}

/// With enough steps, more steps give the same ancestors.
pub proof fn lemma_ancestors_fuel(
    c: Map<u64, Child>,
    rank: spec_fn(u64) -> nat,
    top: nat,
    id: u64,
    f1: nat,
    f2: nat,
)
    requires
        ranked(c, rank, top),
        f1 >= rank(id),
        f2 >= rank(id),
    ensures
        ancestors(c, id, f1) == ancestors(c, id, f2),
    decreases f1,
{
    if c.contains_key(id) {
        let p = c[id].parent;
        assert(rank(p) < rank(id));
        lemma_ancestors_fuel(c, rank, top, p, (f1 - 1) as nat, (f2 - 1) as nat);
    }
}

impl Links {
    /// `rank` grows from each parent to its children and stays at or below
    /// `top`.
    pub open spec fn ranked(self, rank: spec_fn(u64) -> nat, top: nat) -> bool {
        ranked(self.children, rank, top)
    }

    /// No entity is its own ancestor, and no chain of descendants goes on
    /// for ever.
    pub open spec fn acyclic(self) -> bool {
        acyclic(self.children)
    }

    /// A count of steps that no walk of a hierarchy without cycles uses up.
    pub open spec fn span(self) -> nat {
        span(self.children)
    }

    /// Every handle of `s` has a `Child` record, and `fuel` steps are enough
    /// to walk all that hangs below it.
    pub open spec fn fits(self, rank: spec_fn(u64) -> nat, top: nat, s: Seq<u64>, fuel: nat) -> bool {
        forall|i: int|
            0 <= i < s.len() ==> self.children.contains_key(#[trigger] s[i]) && fuel + rank(s[i])
                > top
    }

    /// The ancestors of `id`, nearest first.
    pub open spec fn ancestors_of(self, id: u64) -> Seq<u64> {
        ancestors_of(self.children, id)
    }

    /// The handles of `s` in order, each followed by all that hangs below
    /// it, down to `fuel` levels.
    pub open spec fn preorder(self, s: Seq<u64>, fuel: nat) -> Seq<u64>
        decreases fuel, s.len(),
    {
        if s.len() == 0 || fuel == 0 {
            Seq::empty()
        } else {
            seq![s[0]] + self.preorder(self.children_of(s[0]), (fuel - 1) as nat) + self.preorder(
                s.drop_first(),
                fuel,
            )
        }
    }

    /// The descendants of `id`, each parent before its children and each
    /// subtree before the next sibling.
    pub open spec fn descendants_depth_first_of(self, id: u64) -> Seq<u64> {
        self.preorder(self.children_of(id), self.span())
    }

    /// The children of the handles of `s`, in the order of `s`.
    pub open spec fn next_level(self, s: Seq<u64>) -> Seq<u64>
        decreases s.len(),
    {
        if s.len() == 0 {
            Seq::empty()
        } else {
            self.children_of(s[0]) + self.next_level(s.drop_first())
        }
    }

    /// The handles of `s`, then their children, then the children of those,
    /// down to `fuel` levels.
    pub open spec fn level_order(self, s: Seq<u64>, fuel: nat) -> Seq<u64>
        decreases fuel,
    {
        if s.len() == 0 || fuel == 0 {
            Seq::empty()
        } else {
            s + self.level_order(self.next_level(s), (fuel - 1) as nat)
        }
    }

    /// The descendants of `id`, level by level: all at one depth before any
    /// at the next.
    pub open spec fn descendants_breadth_first_of(self, id: u64) -> Seq<u64> {
        self.level_order(self.children_of(id), self.span())
    }

    /// The children of a handle are ranked above it, so one step less is
    /// enough for them.
    pub proof fn lemma_fits_children(self, rank: spec_fn(u64) -> nat, top: nat, x: u64, fuel: nat)
        requires
            self.linked(),
            self.ranked(rank, top),
            fuel + rank(x) + 1 > top,
        ensures
            self.fits(rank, top, self.children_of(x), fuel),
    {
        let s = self.children_of(x);
        assert forall|i: int| 0 <= i < s.len() implies self.children.contains_key(#[trigger] s[i])
            && fuel + rank(s[i]) > top by {
            assert(self.parents.contains_key(x));
            assert(self.ring_ok(x));
            assert(self.link_ok(x, s, i));
        }
    }

    /// With enough steps, more steps give the same depth-first order.
    pub proof fn lemma_preorder_fuel(
        self,
        rank: spec_fn(u64) -> nat,
        top: nat,
        s: Seq<u64>,
        f1: nat,
        f2: nat,
    )
        requires
            self.linked(),
            self.ranked(rank, top),
            self.fits(rank, top, s, f1),
            self.fits(rank, top, s, f2),
        ensures
            self.preorder(s, f1) == self.preorder(s, f2),
        decreases f1, s.len(),
    {
        if s.len() > 0 {
            assert(self.children.contains_key(s[0]));
            let k = self.children_of(s[0]);
            let rest = s.drop_first();
            self.lemma_fits_children(rank, top, s[0], (f1 - 1) as nat);
            self.lemma_fits_children(rank, top, s[0], (f2 - 1) as nat);
            self.lemma_preorder_fuel(rank, top, k, (f1 - 1) as nat, (f2 - 1) as nat);
            assert forall|i: int| 0 <= i < rest.len() implies self.children.contains_key(
                #[trigger] rest[i],
            ) && f1 + rank(rest[i]) > top && f2 + rank(rest[i]) > top by {
                assert(rest[i] == s[i + 1]);
            }
            self.lemma_preorder_fuel(rank, top, rest, f1, f2);
        }
    }

    /// The next level of two runs of handles is the next level of the first,
    /// then that of the second.
    pub proof fn lemma_next_level_add(self, a: Seq<u64>, b: Seq<u64>)
        ensures
            self.next_level(a + b) == self.next_level(a) + self.next_level(b),
        decreases a.len(),
    {
        if a.len() == 0 {
            assert(a + b =~= b);
            assert(self.next_level(a) + self.next_level(b) =~= self.next_level(b));
        } else {
            assert((a + b).drop_first() =~= a.drop_first() + b);
            self.lemma_next_level_add(a.drop_first(), b);
            assert(self.next_level(a + b) =~= self.next_level(a) + self.next_level(b));
        }
    }

    /// The next level is ranked above this one, so one step less is enough
    /// for it.
    pub proof fn lemma_fits_next_level(
        self,
        rank: spec_fn(u64) -> nat,
        top: nat,
        s: Seq<u64>,
        fuel: nat,
    )
        requires
            self.linked(),
            self.ranked(rank, top),
            self.fits(rank, top, s, fuel + 1),
        ensures
            self.fits(rank, top, self.next_level(s), fuel),
        decreases s.len(),
    {
        if s.len() > 0 {
            let k = self.children_of(s[0]);
            let rest = s.drop_first();
            assert(self.children.contains_key(s[0]));
            self.lemma_fits_children(rank, top, s[0], fuel);
            assert forall|i: int| 0 <= i < rest.len() implies self.children.contains_key(
                #[trigger] rest[i],
            ) && fuel + 1 + rank(rest[i]) > top by {
                assert(rest[i] == s[i + 1]);
            }
            self.lemma_fits_next_level(rank, top, rest, fuel);
            let n = self.next_level(rest);
            assert forall|i: int| 0 <= i < (k + n).len() implies self.children.contains_key(
                #[trigger] (k + n)[i],
            ) && fuel + rank((k + n)[i]) > top by {
                if i < k.len() {
                    assert((k + n)[i] == k[i]);
                } else {
                    assert((k + n)[i] == n[i - k.len()]);
                }
            }
        }
    }

    /// Breadth first, the handles of `a` may be given at once and their
    /// children queued behind `b`.
    pub proof fn lemma_level_order_shift(
        self,
        rank: spec_fn(u64) -> nat,
        top: nat,
        a: Seq<u64>,
        b: Seq<u64>,
        fuel: nat,
    )
        requires
            self.linked(),
            self.ranked(rank, top),
            self.fits(rank, top, a + b, fuel),
        ensures
            self.level_order(a + b, fuel) == a + self.level_order(b + self.next_level(a), fuel),
        decreases fuel,
    {
        let na = self.next_level(a);
        let nb = self.next_level(b);
        if (a + b).len() == 0 {
            assert(a =~= Seq::<u64>::empty());
            assert(b + na =~= Seq::<u64>::empty());
            assert(self.level_order(a + b, fuel) =~= a + self.level_order(b + na, fuel));
        } else {
            assert(self.children.contains_key((a + b)[0]));
            assert(fuel > 0);
            let f = (fuel - 1) as nat;
            self.lemma_next_level_add(a, b);
            self.lemma_next_level_add(b, na);
            self.lemma_fits_next_level(rank, top, a + b, f);
            self.lemma_level_order_shift(rank, top, na, nb, f);
            if (b + na).len() == 0 {
                assert(b =~= Seq::<u64>::empty());
                assert(na =~= Seq::<u64>::empty());
                assert(nb =~= Seq::<u64>::empty());
                assert(na + nb =~= Seq::<u64>::empty());
                assert(a + b =~= a);
                assert(self.level_order(a + b, fuel) =~= a + self.level_order(b + na, fuel));
            } else {
                assert(self.level_order(b + na, fuel) == (b + na) + self.level_order(
                    nb + self.next_level(na),
                    f,
                ));
                assert(self.level_order(a + b, fuel) == (a + b) + self.level_order(na + nb, f));
                assert(self.level_order(a + b, fuel) =~= a + self.level_order(b + na, fuel));
            }
        }
    }

    /// With enough steps, more steps give the same breadth-first order.
    pub proof fn lemma_level_order_fuel(
        self,
        rank: spec_fn(u64) -> nat,
        top: nat,
        s: Seq<u64>,
        f1: nat,
        f2: nat,
    )
        requires
            self.linked(),
            self.ranked(rank, top),
            self.fits(rank, top, s, f1),
            self.fits(rank, top, s, f2),
        ensures
            self.level_order(s, f1) == self.level_order(s, f2),
        decreases f1,
    {
        if s.len() > 0 {
            assert(self.children.contains_key(s[0]));
            self.lemma_fits_next_level(rank, top, s, (f1 - 1) as nat);
            self.lemma_fits_next_level(rank, top, s, (f2 - 1) as nat);
            self.lemma_level_order_fuel(
                rank,
                top,
                self.next_level(s),
                (f1 - 1) as nat,
                (f2 - 1) as nat,
            );
        }
    }

    /// The handles of a list of children fit the span of the hierarchy.
    pub proof fn lemma_fits_span(self, s: Seq<u64>)
        requires
            self.acyclic(),
            forall|i: int| 0 <= i < s.len() ==> self.children.contains_key(#[trigger] s[i]),
        ensures
            self.ranked(ranking(self.children).0, ranking(self.children).1),
            self.fits(ranking(self.children).0, ranking(self.children).1, s, self.span()),
    {
        lemma_ranking(self.children);
    }
}

} // verus!
