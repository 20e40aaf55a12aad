//! The mathematical model of a hierarchy: the two record maps, the sequence
//! of children that they give each parent, and what it means for them to be
//! well formed.
use crate::components::{Child, Parent};
use crate::handle::{accepts, apart, valid_handle};
use vstd::prelude::*;

verus! {

/// The index after `i` on a ring of `n` places.
pub open spec fn after(i: int, n: int) -> int {
    if i + 1 == n {
        0
    } else {
        i + 1
    }
}

/// The index before `i` on a ring of `n` places.
pub open spec fn before(i: int, n: int) -> int {
    if i == 0 {
        n - 1
    } else {
        i - 1
    }
}

/// The `n` handles met from `start` by following `next` through the records
/// `c`.
pub open spec fn walk(c: Map<u64, Child>, start: u64, n: nat) -> Seq<u64>
    decreases n,
{
    if n == 0 {
        Seq::empty()
    } else {
        seq![start] + walk(c, c[start].next, (n - 1) as nat)
    }
}

/// A walk has the length asked for, starts at `start` and follows `next`.
pub proof fn lemma_walk(c: Map<u64, Child>, start: u64, n: nat)
    ensures
        walk(c, start, n).len() == n,
        n > 0 ==> walk(c, start, n)[0] == start,
        forall|i: int| 0 < i < n ==> #[trigger] walk(c, start, n)[i] == c[walk(c, start, n)[i - 1]].next,
    decreases n,
{
    if n > 0 {
        let rest = walk(c, c[start].next, (n - 1) as nat);
        lemma_walk(c, c[start].next, (n - 1) as nat);
        let w = walk(c, start, n);
        assert(w == seq![start] + rest);
        assert forall|i: int| 0 < i < n implies #[trigger] w[i] == c[w[i - 1]].next by {
            if i == 1 {
                assert(w[1] == rest[0]);
            } else {
                assert(w[i] == rest[i - 1]);
                assert(w[i - 1] == rest[i - 2]);
            }
        }
    }
}

/// A sequence that starts at `start` and follows `next` is the walk from
/// `start`.
pub proof fn lemma_walk_is(c: Map<u64, Child>, start: u64, s: Seq<u64>)
    requires
        s.len() > 0 ==> s[0] == start,
        forall|i: int| 0 < i < s.len() ==> #[trigger] s[i] == c[s[i - 1]].next,
    ensures
        walk(c, start, s.len()) == s,
    decreases s.len(),
{
    if s.len() > 0 {
        let t = s.drop_first();
        assert forall|i: int| 0 < i < t.len() implies #[trigger] t[i] == c[t[i - 1]].next by {
            assert(s[i + 1] == c[s[i]].next);
        }
        if t.len() > 0 {
            assert(s[1] == c[s[0]].next);
        }
        lemma_walk_is(c, c[start].next, t);
        assert(walk(c, start, s.len()) =~= s);
    }
}

/// The records of a hierarchy.
#[verifier::ext_equal]
pub struct Links {
    pub parents: Map<u64, Parent>,
    pub children: Map<u64, Child>,
}

impl Links {
    /// The hierarchy without records.
    pub open spec fn empty() -> Links {
        Links { parents: Map::empty(), children: Map::empty() }
    }

    /// The children of `p`, first child first; empty where `p` has no
    /// `Parent` record.
    pub open spec fn children_of(self, p: u64) -> Seq<u64> {
        if self.parents.contains_key(p) {
            walk(self.children, self.parents[p].first_child, self.parents[p].num_children as nat)
        } else {
            Seq::empty()
        }
    }

    /// The `i`th of the children `s` of `p` has a record that names `p` and
    /// its two neighbours on the ring.
    pub open spec fn link_ok(self, p: u64, s: Seq<u64>, i: int) -> bool {
        &&& self.children.contains_key(s[i])
        &&& self.children[s[i]].parent == p
        &&& self.children[s[i]].next == s[after(i, s.len() as int)]
        &&& self.children[s[i]].prev == s[before(i, s.len() as int)]
    }

    /// The children of `p` form a ring of `num_children` distinct handles.
    pub open spec fn ring_ok(self, p: u64) -> bool {
        let s = self.children_of(p);
        &&& s.len() == self.parents[p].num_children
        &&& s.len() >= 1
        &&& s.no_duplicates()
        &&& forall|i: int| 0 <= i < s.len() ==> #[trigger] self.link_ok(p, s, i)
    }

    /// `c` is listed among the children of the parent that its record names.
    pub open spec fn child_ok(self, c: u64) -> bool {
        &&& valid_handle(c)
        &&& self.parents.contains_key(self.children[c].parent)
        &&& self.children_of(self.children[c].parent).contains(c)
    }

    /// Counts and lists agree: every `Parent` record heads a ring of the
    /// length it gives, and every `Child` record belongs to the ring of the
    /// parent it names.
    pub open spec fn linked(self) -> bool {
        &&& forall|p: u64| #[trigger]
            self.parents.contains_key(p) ==> valid_handle(p) && self.ring_ok(p)
        &&& forall|c: u64| #[trigger] self.children.contains_key(c) ==> self.child_ok(c)
    }

    /// `h` has a `Parent` record or a `Child` record.
    pub open spec fn has(self, h: u64) -> bool {
        self.parents.contains_key(h) || self.children.contains_key(h)
    }

    /// In each storage, no two handles with a record compete for one cell.
    pub open spec fn distinct_slots(self) -> bool {
        apart(self.parents) && apart(self.children)
    }

    /// The storage of `Parent` records answers for `h` as a plain map does:
    /// `h` has a `Parent` record, or no handle that has one competes with `h`
    /// for its cell.
    pub open spec fn accepts_parent(self, h: u64) -> bool {
        accepts(self.parents, h)
    }

    /// The storage of `Child` records answers for `h` as a plain map does:
    /// `h` has a `Child` record, or no handle that has one competes with `h`
    /// for its cell.
    pub open spec fn accepts_child(self, h: u64) -> bool {
        accepts(self.children, h)
    }

    /// The hierarchy is well formed: its records are linked as they should
    /// be, and in each storage each handle with a record has a cell of its
    /// own.
    pub open spec fn wf(self) -> bool {
        self.linked() && self.distinct_slots()
    }

    /// The children of `q` with `id` taken out.
    pub open spec fn children_without(self, q: u64, id: u64) -> Seq<u64> {
        let s = self.children_of(q);
        if s.contains(id) {
            s.remove(s.index_of(id))
        } else {
            s
        }
    }

    /// A ring whose records another hierarchy holds unchanged is a ring of
    /// that hierarchy too.
    pub proof fn lemma_ring_kept(self, other: Links, p: u64)
        requires
            self.parents.contains_key(p),
            self.ring_ok(p),
            other.parents.contains_key(p),
            other.parents[p] == self.parents[p],
            forall|i: int|
                0 <= i < self.children_of(p).len() ==> other.children.contains_key(
                    #[trigger] self.children_of(p)[i],
                ) && other.children[self.children_of(p)[i]] == self.children[self.children_of(
                    p,
                )[i]],
        ensures
            other.children_of(p) == self.children_of(p),
            other.ring_ok(p),
    {
        let s = self.children_of(p);
        assert forall|i: int| 0 < i < s.len() implies #[trigger] s[i] == other.children[s[i
            - 1]].next by {
            assert(self.link_ok(p, s, i - 1));
        }
        assert(self.link_ok(p, s, 0));
        lemma_walk(self.children, self.parents[p].first_child, self.parents[p].num_children as nat);
        lemma_walk_is(other.children, self.parents[p].first_child, s);
        assert(other.children_of(p) == s);
        assert forall|i: int| 0 <= i < s.len() implies #[trigger] other.link_ok(p, s, i) by {
            assert(self.link_ok(p, s, i));
        }
    }
}

} // verus!
