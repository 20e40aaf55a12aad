//! What holds of the operations on a hierarchy, one with another.
use crate::below::lemma_below_unfold;
use crate::handle::valid_handle;
use crate::links::{lemma_walk, lemma_walk_is, walk, Links};
use crate::order::{lemma_ranking, ranking};
use vstd::prelude::*;

verus! {

impl Links {
    /// Detaching a handle that has no `Child` record changes nothing, and
    /// detaching a handle twice gives what detaching it once gives.
    pub proof fn lemma_detach_idempotent(self, id: u64)
        requires
            self.linked(),
        ensures
            !self.children.contains_key(id) ==> self.detached(id) == self,
            self.detached(id).detached(id) == self.detached(id),
    {
        self.lemma_detached(id);
    }

    /// The children of a parent are as many as its record counts, no two of
    /// them the same, and one step past the last child comes back to the
    /// first.
    pub proof fn lemma_children_count(self, p: u64)
        requires
            self.linked(),
            self.parents.contains_key(p),
        ensures
            self.children_of(p).len() == self.parents[p].num_children,
            self.children_of(p).len() >= 1,
            self.children_of(p).no_duplicates(),
            self.children_of(p)[0] == self.parents[p].first_child,
            walk(
                self.children,
                self.parents[p].first_child,
                (self.parents[p].num_children + 1) as nat,
            ) == self.children_of(p).push(self.parents[p].first_child),
    {
        let s = self.children_of(p);
        let n = s.len() as int;
        assert(self.ring_ok(p));
        assert(self.link_ok(p, s, 0));
        let t = s.push(s[0]);
        assert forall|i: int| 0 < i < t.len() implies #[trigger] t[i] == self.children[t[i
            - 1]].next by {
            assert(self.link_ok(p, s, i - 1));
        }
        lemma_walk(
            self.children,
            self.parents[p].first_child,
            self.parents[p].num_children as nat,
        );
        lemma_walk_is(self.children, self.parents[p].first_child, t);
    }

    /// Attaching a child of one parent to another takes it out of the first
    /// parent's list, whose record then counts one child less or is gone,
    /// and puts it at the end of the second parent's list, whose record then
    /// counts one child more; the order of both lists is otherwise as it was.
    pub proof fn lemma_reparented(self, id: u64, to: u64)
        requires
            self.linked(),
            valid_handle(id),
            valid_handle(to),
            self.children.contains_key(id),
            self.children[id].parent != to,
            self.children_of(to).len() < usize::MAX,
        ensures
            self.attached(id, to).linked(),
            self.attached(id, to).children_of(self.children[id].parent) == self.children_of(
                self.children[id].parent,
            ).remove(self.children_of(self.children[id].parent).index_of(id)),
            self.attached(id, to).children_of(to) == self.children_of(to).push(id),
            self.parents[self.children[id].parent].num_children == 1 ==> !self.attached(
                id,
                to,
            ).parents.contains_key(self.children[id].parent),
            self.parents[self.children[id].parent].num_children != 1 ==> self.attached(
                id,
                to,
            ).parents[self.children[id].parent].num_children
                == self.parents[self.children[id].parent].num_children - 1,
            self.attached(id, to).parents[to].num_children == if self.parents.contains_key(to) {
                self.parents[to].num_children + 1
            } else {
                1
            },
    {
        let from = self.children[id].parent;
        let a = self.attached(id, to);
        self.lemma_listed_once(id, to);
        self.lemma_listed_once(id, from);
        assert(self.children_without(to, id) == self.children_of(to));
        self.lemma_attached(id, to);
        assert(a.children_of(to) == self.children_without(to, id).push(id));
        assert(a.children_of(from) == self.children_without(from, id));
        assert(self.child_ok(id));
        assert(self.ring_ok(from));
        if self.parents.contains_key(to) {
            assert(self.ring_ok(to));
        }
        assert(a.parents.contains_key(to)) by {
            if !a.parents.contains_key(to) {
                assert(a.children_of(to) =~= Seq::<u64>::empty());
            }
        }
        assert(a.ring_ok(to));
        if a.parents.contains_key(from) {
            assert(a.ring_ok(from));
        }
    }

    /// Taking `id` out alone keeps the records linked; `id` then has no
    /// record and no children, each child it had has no parent but has the
    /// children it had, and the list of every other parent is as it was but
    /// for `id`.
    pub proof fn lemma_removed_single(self, id: u64)
        requires
            self.linked(),
        ensures
            self.removed_single(id).linked(),
            !self.removed_single(id).has(id),
            forall|q: u64| #[trigger]
                self.removed_single(id).children_of(q) == if q == id {
                    Seq::empty()
                } else {
                    self.children_without(q, id)
                },
            forall|c: u64|
                self.children.contains_key(c) && self.children[c].parent == id
                    ==> !(#[trigger] self.removed_single(id).children.contains_key(c)),
            forall|c: u64|
                self.children.contains_key(c) && c != id && self.children[c].parent != id ==> (
                #[trigger] self.removed_single(id).children.contains_key(c))
                    && self.removed_single(id).children[c] == self.detached(id).children[c],
    {
        let d = self.detached(id);
        let r = self.removed_single(id);
        let kids = d.children_of(id);
        self.lemma_detached(id);
        if self.children.contains_key(id) {
            self.lemma_detached_frame(id);
        }
        assert forall|c: u64| d.children.contains_key(c) implies (kids.contains(c)
            <==> d.children[c].parent == id) by {
            d.lemma_listed_once(c, id);
        }
        assert forall|c: u64| kids.contains(c) implies d.children.contains_key(c) by {
            if !d.children.contains_key(c) {
                d.lemma_not_listed(c, id);
            }
        }
        assert forall|q: u64| #[trigger] r.parents.contains_key(q) implies r.children_of(q)
            == d.children_of(q) && r.ring_ok(q) by {
            let t = d.children_of(q);
            assert(d.ring_ok(q));
            assert forall|i: int| 0 <= i < t.len() implies r.children.contains_key(#[trigger] t[i])
                && r.children[t[i]] == d.children[t[i]] by {
                assert(d.link_ok(q, t, i));
            }
            d.lemma_ring_kept(r, q);
        }
        assert forall|c: u64| #[trigger] r.children.contains_key(c) implies r.child_ok(c) by {
            assert(d.child_ok(c));
            assert(r.parents.contains_key(d.children[c].parent));
        }
        assert forall|q: u64| #[trigger] r.children_of(q) == if q == id {
            Seq::empty()
        } else {
            self.children_without(q, id)
        } by {
            assert(d.children_of(q) == self.children_without(q, id));
            if q != id && !r.parents.contains_key(q) {
                assert(d.children_of(q) =~= Seq::<u64>::empty());
            }
        }
    }

    /// Taking `id` out with all that hangs below it keeps the records
    /// linked.
    pub proof fn lemma_removed_linked(self, id: u64)
        requires
            self.linked(),
            self.acyclic(),
        ensures
            self.removed(id).linked(),
            forall|q: u64| #[trigger]
                self.removed(id).children_of(q) == if q == id || self.is_below(q, id) {
                    Seq::empty()
                } else {
                    self.children_without(q, id)
                },
    {
        let d = self.detached(id);
        let r = self.removed(id);
        self.lemma_detached(id);
        assert forall|c: u64| #[trigger] d.children.contains_key(c) implies (self.is_below(c, id)
            <==> d.children[c].parent == id || self.is_below(d.children[c].parent, id)) by {
            lemma_below_unfold(self.children, c, id);
        }
        assert forall|q: u64| #[trigger] r.parents.contains_key(q) implies r.children_of(q)
            == d.children_of(q) && r.ring_ok(q) by {
            let t = d.children_of(q);
            assert(d.ring_ok(q));
            assert forall|i: int| 0 <= i < t.len() implies r.children.contains_key(#[trigger] t[i])
                && r.children[t[i]] == d.children[t[i]] by {
                assert(d.link_ok(q, t, i));
            }
            d.lemma_ring_kept(r, q);
        }
        assert forall|c: u64| #[trigger] r.children.contains_key(c) implies r.child_ok(c) by {
            assert(d.child_ok(c));
            assert(r.parents.contains_key(d.children[c].parent));
        }
        assert forall|q: u64| #[trigger] r.children_of(q) == if q == id || self.is_below(q, id) {
            Seq::empty()
        } else {
            self.children_without(q, id)
        } by {
            assert(d.children_of(q) == self.children_without(q, id));
            if !(q == id || self.is_below(q, id)) && !r.parents.contains_key(q) {
                assert(d.children_of(q) =~= Seq::<u64>::empty());
            }
        }
    }

    /// Once `id` is removed with all below it, neither `id` nor anything
    /// that hung below it can be reached: it has no record, it is in no list
    /// of children and among no handle's ancestors, no walk depth first or
    /// breadth first that starts elsewhere gives it, and it has no children,
    /// ancestors or descendants of its own.
    pub proof fn lemma_removed_unreachable(self, id: u64, y: u64)
        requires
            self.linked(),
            self.acyclic(),
            y == id || self.is_below(y, id),
        ensures
            !self.removed(id).has(y),
            forall|q: u64| !(#[trigger] self.removed(id).children_of(q)).contains(y),
            forall|z: u64|
                self.removed(id).acyclic() ==> !(#[trigger] self.removed(id).ancestors_of(
                    z,
                )).contains(y),
            forall|s: Seq<u64>, fuel: nat|
                !s.contains(y) ==> !(#[trigger] self.removed(id).preorder(s, fuel)).contains(y),
            forall|s: Seq<u64>, fuel: nat|
                !s.contains(y) ==> !(#[trigger] self.removed(id).level_order(s, fuel)).contains(y),
            self.removed(id).children_of(y) == Seq::<u64>::empty(),
            self.removed(id).ancestors_of(y) == Seq::<u64>::empty(),
            self.removed(id).descendants_depth_first_of(y) == Seq::<u64>::empty(),
            self.removed(id).descendants_breadth_first_of(y) == Seq::<u64>::empty(),
    {
        let r = self.removed(id);
        self.lemma_detached(id);
        self.lemma_removed_linked(id);
        r.lemma_unreachable(y);
        assert forall|s: Seq<u64>, fuel: nat| !s.contains(y) implies !(#[trigger] r.preorder(
            s,
            fuel,
        )).contains(y) by {
            r.lemma_preorder_misses(s, fuel, y);
        }
        assert forall|s: Seq<u64>, fuel: nat| !s.contains(y) implies !(#[trigger] r.level_order(
            s,
            fuel,
        )).contains(y) by {
            r.lemma_level_order_misses(s, fuel, y);
        }
    }

    /// A handle without a record is no one's child and no one's parent: it
    /// is in no list of children and among no handle's ancestors, and it has
    /// no children, ancestors or descendants of its own.
    pub proof fn lemma_unreachable(self, y: u64)
        requires
            self.linked(),
            !self.has(y),
        ensures
            forall|q: u64| !(#[trigger] self.children_of(q)).contains(y),
            forall|z: u64| self.acyclic() ==> !(#[trigger] self.ancestors_of(z)).contains(y),
            self.children_of(y) == Seq::<u64>::empty(),
            self.ancestors_of(y) == Seq::<u64>::empty(),
            self.descendants_depth_first_of(y) == Seq::<u64>::empty(),
            self.descendants_breadth_first_of(y) == Seq::<u64>::empty(),
    {
        assert forall|q: u64| !(#[trigger] self.children_of(q)).contains(y) by {
            self.lemma_not_listed(y, q);
        }
        assert forall|z: u64| self.acyclic() implies !(#[trigger] self.ancestors_of(z)).contains(
            y,
        ) by {
            if self.ancestors_of(z).contains(y) {
                lemma_ranking(self.children);
                self.lemma_ancestors_are_parents(
                    ranking(self.children).0,
                    ranking(self.children).1,
                    z,
                    y,
                );
            }
        }
    }

    /// Every ancestor has a `Parent` record.
    pub proof fn lemma_ancestors_are_parents(
        self,
        rank: spec_fn(u64) -> nat,
        top: nat,
        z: u64,
        x: u64,
    )
        requires
            self.linked(),
            self.ranked(rank, top),
            self.is_below(z, x),
        ensures
            self.parents.contains_key(x),
        decreases rank(z),
    {
        lemma_below_unfold(self.children, z, x);
        assert(self.child_ok(z));
        if self.children[z].parent != x {
            self.lemma_ancestors_are_parents(rank, top, self.children[z].parent, x);
        }
    }

    /// What is in no list of children is given by no walk that starts
    /// elsewhere, depth first.
    pub proof fn lemma_preorder_misses(self, s: Seq<u64>, fuel: nat, y: u64)
        requires
            !s.contains(y),
            forall|q: u64| !(#[trigger] self.children_of(q)).contains(y),
        ensures
            !self.preorder(s, fuel).contains(y),
        decreases fuel, s.len(),
    {
        if s.len() > 0 && fuel > 0 {
            let a = seq![s[0]];
            let b = self.preorder(self.children_of(s[0]), (fuel - 1) as nat);
            let c = self.preorder(s.drop_first(), fuel);
            assert(s.contains(s[0]));
            assert(!s.drop_first().contains(y)) by {
                if s.drop_first().contains(y) {
                    let i = s.drop_first().index_of(y);
                    assert(s[i + 1] == y);
                }
            }
            self.lemma_preorder_misses(self.children_of(s[0]), (fuel - 1) as nat, y);
            self.lemma_preorder_misses(s.drop_first(), fuel, y);
            if (a + b + c).contains(y) {
                let i = (a + b + c).index_of(y);
                if i < 1 {
                } else if i < 1 + b.len() {
                    assert(b[i - 1] == y);
                } else {
                    assert(c[i - 1 - b.len()] == y);
                }
            }
        }
    }

    /// What is in no list of children is in no next level.
    pub proof fn lemma_next_level_misses(self, s: Seq<u64>, y: u64)
        requires
            forall|q: u64| !(#[trigger] self.children_of(q)).contains(y),
        ensures
            !self.next_level(s).contains(y),
        decreases s.len(),
    {
        if s.len() > 0 {
            let a = self.children_of(s[0]);
            let b = self.next_level(s.drop_first());
            self.lemma_next_level_misses(s.drop_first(), y);
            if (a + b).contains(y) {
                let i = (a + b).index_of(y);
                if i < a.len() {
                    assert(a[i] == y);
                } else {
                    assert(b[i - a.len()] == y);
                }
            }
        }
    }

    /// What is in no list of children is given by no walk that starts
    /// elsewhere, breadth first.
    pub proof fn lemma_level_order_misses(self, s: Seq<u64>, fuel: nat, y: u64)
        requires
            !s.contains(y),
            forall|q: u64| !(#[trigger] self.children_of(q)).contains(y),
        ensures
            !self.level_order(s, fuel).contains(y),
        decreases fuel,
    {
        if s.len() > 0 && fuel > 0 {
            let b = self.level_order(self.next_level(s), (fuel - 1) as nat);
            self.lemma_next_level_misses(s, y);
            self.lemma_level_order_misses(self.next_level(s), (fuel - 1) as nat, y);
            if (s + b).contains(y) {
                let i = (s + b).index_of(y);
                if i < s.len() {
                    assert(s[i] == y);
                } else {
                    assert(b[i - s.len()] == y);
                }
            }
        }
    }

    /// Depth first, a list of siblings is walked one sibling at a time: the
    /// first, then all that hangs below it, then the rest in the same way.
    pub proof fn lemma_depth_first_unfold(self, s: Seq<u64>)
        requires
            self.linked(),
            self.acyclic(),
            forall|i: int| 0 <= i < s.len() ==> self.children.contains_key(#[trigger] s[i]),
        ensures
            self.preorder(s, self.span()) == if s.len() == 0 {
                Seq::empty()
            } else {
                seq![s[0]] + self.descendants_depth_first_of(s[0]) + self.preorder(
                    s.drop_first(),
                    self.span(),
                )
            },
    {
        if s.len() > 0 {
            let (rank, top) = ranking(self.children);
            self.lemma_fits_span(s);
            self.lemma_fits_children(rank, top, s[0], top);
            self.lemma_fits_children(rank, top, s[0], self.span());
            self.lemma_preorder_fuel(rank, top, self.children_of(s[0]), top, self.span());
        }
    }

    /// Breadth first, a level is walked whole, then the level below it in
    /// the same way.
    pub proof fn lemma_breadth_first_unfold(self, s: Seq<u64>)
        requires
            self.linked(),
            self.acyclic(),
            forall|i: int| 0 <= i < s.len() ==> self.children.contains_key(#[trigger] s[i]),
        ensures
            self.level_order(s, self.span()) == if s.len() == 0 {
                Seq::empty()
            } else {
                s + self.level_order(self.next_level(s), self.span())
            },
    {
        if s.len() > 0 {
            let (rank, top) = ranking(self.children);
            self.lemma_fits_span(s);
            self.lemma_fits_next_level(rank, top, s, top);
            assert(self.fits(rank, top, self.next_level(s), self.span())) by {
                let n = self.next_level(s);
                assert forall|i: int| 0 <= i < n.len() implies self.children.contains_key(
                    #[trigger] n[i],
                ) && self.span() + rank(n[i]) > top by {}
            }
            self.lemma_level_order_fuel(rank, top, self.next_level(s), top, self.span());
        }
    }

    /// How many ancestors `x` has.
    pub open spec fn depth_of(self, x: u64) -> nat {
        self.ancestors_of(x).len()
    }

    /// Every handle of `s` has a `Child` record and stands at depth `d`.
    pub open spec fn on_level(self, s: Seq<u64>, d: nat) -> bool {
        forall|i: int|
            0 <= i < s.len() ==> self.children.contains_key(#[trigger] s[i]) && self.depth_of(s[i])
                == d
    }

    /// The children of an entity stand one level below it.
    pub proof fn lemma_children_on_level(self, x: u64)
        requires
            self.linked(),
            self.acyclic(),
        ensures
            self.on_level(self.children_of(x), self.depth_of(x) + 1),
    {
        let s = self.children_of(x);
        assert forall|i: int| 0 <= i < s.len() implies self.children.contains_key(#[trigger] s[i])
            && self.depth_of(s[i]) == self.depth_of(x) + 1 by {
            assert(self.parents.contains_key(x));
            assert(self.ring_ok(x));
            assert(self.link_ok(x, s, i));
            crate::below::lemma_ancestors_unfold(self.children, s[i]);
        }
    }

    /// The children of the handles of one level stand on the next.
    pub proof fn lemma_next_level_on_level(self, s: Seq<u64>, d: nat)
        requires
            self.linked(),
            self.acyclic(),
            self.on_level(s, d),
        ensures
            self.on_level(self.next_level(s), d + 1),
        decreases s.len(),
    {
        if s.len() > 0 {
            let k = self.children_of(s[0]);
            let rest = s.drop_first();
            assert(self.depth_of(s[0]) == d);
            self.lemma_children_on_level(s[0]);
            assert forall|i: int| 0 <= i < rest.len() implies self.children.contains_key(
                #[trigger] rest[i],
            ) && self.depth_of(rest[i]) == d by {
                assert(rest[i] == s[i + 1]);
            }
            self.lemma_next_level_on_level(rest, d);
            let n = self.next_level(rest);
            assert forall|i: int| 0 <= i < (k + n).len() implies self.children.contains_key(
                #[trigger] (k + n)[i],
            ) && self.depth_of((k + n)[i]) == d + 1 by {
                if i < k.len() {
                    assert((k + n)[i] == k[i]);
                } else {
                    assert((k + n)[i] == n[i - k.len()]);
                }
            }
        }
    }

    /// Breadth first from one level, no handle comes before a handle of
    /// lesser depth, and none is less deep than the level.
    pub proof fn lemma_level_order_by_depth(self, s: Seq<u64>, d: nat, fuel: nat)
        requires
            self.linked(),
            self.acyclic(),
            self.on_level(s, d),
        ensures
            forall|i: int|
                0 <= i < self.level_order(s, fuel).len() ==> self.depth_of(
                    #[trigger] self.level_order(s, fuel)[i],
                ) >= d,
            forall|i: int, j: int|
                0 <= i <= j < self.level_order(s, fuel).len() ==> self.depth_of(
                    #[trigger] self.level_order(s, fuel)[i],
                ) <= self.depth_of(#[trigger] self.level_order(s, fuel)[j]),
        decreases fuel,
    {
        if s.len() > 0 && fuel > 0 {
            let rest = self.level_order(self.next_level(s), (fuel - 1) as nat);
            let out = s + rest;
            self.lemma_next_level_on_level(s, d);
            self.lemma_level_order_by_depth(self.next_level(s), d + 1, (fuel - 1) as nat);
            assert forall|i: int| 0 <= i < out.len() implies self.depth_of(#[trigger] out[i])
                >= d by {
                if i < s.len() {
                    assert(out[i] == s[i]);
                } else {
                    assert(out[i] == rest[i - s.len()]);
                }
            }
            assert forall|i: int, j: int| 0 <= i <= j < out.len() implies self.depth_of(
                #[trigger] out[i],
            ) <= self.depth_of(#[trigger] out[j]) by {
                if i < s.len() {
                    assert(out[i] == s[i]);
                } else {
                    assert(out[i] == rest[i - s.len()]);
                }
                if j < s.len() {
                    assert(out[j] == s[j]);
                } else {
                    assert(out[j] == rest[j - s.len()]);
                }
            }
        }
    }

    /// The descendants of an entity, breadth first, come level by level: all
    /// at one depth before any at the next.
    pub proof fn lemma_breadth_first_by_depth(self, id: u64)
        requires
            self.linked(),
            self.acyclic(),
        ensures
            forall|i: int, j: int|
                0 <= i <= j < self.descendants_breadth_first_of(id).len() ==> self.depth_of(
                    #[trigger] self.descendants_breadth_first_of(id)[i],
                ) <= self.depth_of(#[trigger] self.descendants_breadth_first_of(id)[j]),
    {
        self.lemma_children_on_level(id);
        self.lemma_level_order_by_depth(self.children_of(id), self.depth_of(id) + 1, self.span());
    }

    /// Taking `id` out alone leaves each child that it had with the
    /// descendants that the child had, in the order they had.
    pub proof fn lemma_removed_single_keeps_subtrees(self, id: u64, kid: u64)
        requires
            self.linked(),
            self.acyclic(),
            self.children.contains_key(kid),
            self.children[kid].parent == id,
        ensures
            self.removed_single(id).children_of(kid) == self.children_of(kid),
            self.removed_single(id).descendants_depth_first_of(kid)
                == self.descendants_depth_first_of(kid),
            self.removed_single(id).descendants_breadth_first_of(kid)
                == self.descendants_breadth_first_of(kid),
    {
        let r = self.removed_single(id);
        let c = self.children;
        lemma_ranking(c);
        let (rank, top) = ranking(c);
        self.lemma_removed_single(id);
        self.lemma_detached(id);
        assert(crate::order::acyclic(r.children)) by {
            assert forall|k: u64| #[trigger] r.children.contains_key(k) implies c.contains_key(k)
                && r.children[k].parent == c[k].parent by {
                assert(self.detached(id).children.contains_key(k));
            }
            crate::order::lemma_fewer_acyclic(c, r.children);
        }
        lemma_below_unfold(c, kid, id);
        assert(kid != id);
        // `id` is no child of `kid` nor of anything below `kid`
        assert forall|x: u64| x == kid || self.is_below(x, kid) implies x != id
            && !self.children_of(x).contains(id) by {
            if x != kid {
                crate::below::lemma_below_trans(c, rank, top, x, kid, id);
            }
            assert(self.is_below(x, id));
            crate::below::lemma_below_rank(c, rank, top, x, id);
            if self.children_of(x).contains(id) {
                if !c.contains_key(id) {
                    self.lemma_not_listed(id, x);
                }
                self.lemma_listed_once(id, x);
                assert(rank(x) < rank(id));
            }
        }
        assert(r.children_of(kid) == self.children_of(kid));
        assert forall|x: u64| self.is_below(x, kid) implies #[trigger] r.children_of(x)
            == self.children_of(x) by {
            assert(r.children_of(x) == self.children_without(x, id));
        }
        self.lemma_descendants_same(r, kid);
    }
}

} // verus!
