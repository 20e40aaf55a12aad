//! Taking an entity out of its parent's list of children.
use crate::components::{Child, Parent};
use crate::handle::{lemma_fewer_keys, valid_handle};
use crate::hierarchy::Hierarchy;
use crate::links::{after, before, lemma_walk, lemma_walk_is, Links};
use crate::order::lemma_fewer_acyclic;
use crate::tables::{child_get, child_remove, child_update, parent_get, parent_remove, parent_update};
use vstd::prelude::*;

verus! {

impl Links {
    /// The records once `id` has left its parent: its `Child` record is
    /// gone; its parent's record is gone too where `id` was the only child,
    /// and else counts one child less, heads the list at the next child where
    /// `id` was the first, and the two neighbours of `id` are linked to each
    /// other.
    pub open spec fn detached(self, id: u64) -> Links {
        if !self.children.contains_key(id) {
            self
        } else {
            let rec = self.children[id];
            let p = self.parents[rec.parent];
            if p.num_children == 1 {
                Links {
                    parents: self.parents.remove(rec.parent),
                    children: self.children.remove(id),
                }
            } else {
                let first = if p.first_child == id {
                    rec.next
                } else {
                    p.first_child
                };
                let c0 = self.children.remove(id);
                let c1 = c0.insert(rec.prev, Child { next: rec.next, ..c0[rec.prev] });
                let c2 = c1.insert(rec.next, Child { prev: rec.prev, ..c1[rec.next] });
                Links {
                    parents: self.parents.insert(
                        rec.parent,
                        Parent { num_children: (p.num_children - 1) as usize, first_child: first },
                    ),
                    children: c2,
                }
            }
        }
    }

    /// Where `id` has no `Child` record, no list of children holds it.
    pub proof fn lemma_not_listed(self, id: u64, q: u64)
        requires
            self.linked(),
            !self.children.contains_key(id),
        ensures
            !self.children_of(q).contains(id),
            self.children_without(q, id) == self.children_of(q),
    {
        let s = self.children_of(q);
        if s.contains(id) {
            let i = s.index_of(id);
            assert(self.parents.contains_key(q));
            assert(self.link_ok(q, s, i));
        }
    }

    /// A child is listed by the parent that its record names, and by no
    /// other.
    pub proof fn lemma_listed_once(self, c: u64, q: u64)
        requires
            self.linked(),
            self.children.contains_key(c),
        ensures
            self.children_of(q).contains(c) <==> q == self.children[c].parent,
    {
        assert(self.child_ok(c));
        let s = self.children_of(q);
        if s.contains(c) {
            let i = s.index_of(c);
            assert(self.parents.contains_key(q));
            assert(self.link_ok(q, s, i));
        }
    }

    /// The rings of the parents that `detached` does not touch stay as they
    /// are.
    proof fn lemma_detached_elsewhere(self, id: u64, q: u64)
        requires
            self.linked(),
            self.children.contains_key(id),
            self.parents.contains_key(q),
            q != self.children[id].parent,
        ensures
            self.detached(id).parents.contains_key(q),
            self.detached(id).children_of(q) == self.children_of(q),
            self.detached(id).ring_ok(q),
    {
        let d = self.detached(id);
        let rec = self.children[id];
        let p = rec.parent;
        let s = self.children_of(p);
        let k = s.index_of(id);
        assert(self.child_ok(id));
        assert(self.ring_ok(p));
        assert(self.link_ok(p, s, k));
        assert(self.link_ok(p, s, after(k, s.len() as int)));
        assert(self.link_ok(p, s, before(k, s.len() as int)));
        let r = self.children_of(q);
        assert(self.ring_ok(q));
        assert forall|i: int| 0 <= i < r.len() implies d.children.contains_key(#[trigger] r[i])
            && d.children[r[i]] == self.children[r[i]] by {
            assert(self.link_ok(q, r, i));
        }
        self.lemma_ring_kept(d, q);
    }

    /// The ring that `id` leaves, where `id` was not the only child.
    proof fn lemma_detached_ring(self, id: u64)
        requires
            self.linked(),
            self.children.contains_key(id),
            self.parents[self.children[id].parent].num_children != 1,
        ensures
            self.detached(id).parents.contains_key(self.children[id].parent),
            self.detached(id).children_of(self.children[id].parent) == self.children_without(
                self.children[id].parent,
                id,
            ),
            self.detached(id).ring_ok(self.children[id].parent),
    {
        let d = self.detached(id);
        let rec = self.children[id];
        let p = rec.parent;
        let s = self.children_of(p);
        let n = s.len() as int;
        let k = s.index_of(id);
        assert(self.child_ok(id));
        assert(self.ring_ok(p));
        assert(self.link_ok(p, s, k));
        assert(self.link_ok(p, s, 0));
        let t = s.remove(k);
        assert(t.len() == n - 1);
        assert forall|j: int| 0 <= j < t.len() implies #[trigger] d.link_ok(p, t, j) by {
            let jj = if j < k {
                j
            } else {
                j + 1
            };
            assert(t[j] == s[jj]);
            assert(self.link_ok(p, s, jj));
            assert(self.link_ok(p, s, after(jj, n)));
            assert(self.link_ok(p, s, before(jj, n)));
            assert(self.link_ok(p, s, after(k, n)));
            assert(self.link_ok(p, s, before(k, n)));
            let a = after(j, n - 1);
            let b = before(j, n - 1);
            assert(t[a] == s[if a < k {
                a
            } else {
                a + 1
            }]);
            assert(t[b] == s[if b < k {
                b
            } else {
                b + 1
            }]);
        }
        assert forall|j: int| 0 < j < t.len() implies #[trigger] t[j] == d.children[t[j
            - 1]].next by {
            assert(d.link_ok(p, t, j - 1));
        }
        assert(d.link_ok(p, t, 0));
        lemma_walk(self.children, self.parents[p].first_child, self.parents[p].num_children as nat);
        assert(t[0] == d.parents[p].first_child);
        lemma_walk_is(d.children, d.parents[p].first_child, t);
        assert(d.children_of(p) == t);
        assert(t.no_duplicates()) by {
            assert forall|i: int, j: int| 0 <= i < t.len() && 0 <= j < t.len() && i != j implies t[i]
                != t[j] by {
                let ii = if i < k {
                    i
                } else {
                    i + 1
                };
                let jj = if j < k {
                    j
                } else {
                    j + 1
                };
                assert(t[i] == s[ii]);
                assert(t[j] == s[jj]);
            }
        }
    }

    /// What detaching leaves alone: the `Parent` records of all but the parent
    /// of `id`, the `Child` records of all but `id` and its siblings, and
    /// the parent that each remaining `Child` record names.
    pub proof fn lemma_detached_frame(self, id: u64)
        requires
            self.linked(),
            self.children.contains_key(id),
        ensures
            forall|q: u64|
                q != self.children[id].parent ==> (#[trigger] self.detached(id).parents.contains_key(q)
                    <==> self.parents.contains_key(q)),
            forall|q: u64|
                q != self.children[id].parent && self.parents.contains_key(q)
                    ==> #[trigger] self.detached(id).parents[q] == self.parents[q],
            forall|c: u64| #[trigger]
                self.detached(id).children.contains_key(c) <==> self.children.contains_key(c) && c
                    != id,
            forall|c: u64|
                self.children.contains_key(c) && c != id ==> (#[trigger] self.detached(
                    id,
                ).children[c]).parent == self.children[c].parent,
            forall|c: u64|
                self.children.contains_key(c) && self.children[c].parent
                    != self.children[id].parent ==> #[trigger] self.detached(id).children[c]
                    == self.children[c],
    {
        let rec = self.children[id];
        let p = rec.parent;
        let s = self.children_of(p);
        let n = s.len() as int;
        let k = s.index_of(id);
        assert(self.child_ok(id));
        assert(self.ring_ok(p));
        assert(self.link_ok(p, s, k));
        assert(self.link_ok(p, s, after(k, n)));
        assert(self.link_ok(p, s, before(k, n)));
    }

    /// Detaching keeps linked records linked, takes `id` out of
    /// the list it was in, and leaves every other list as it was.
    pub proof fn lemma_detached(self, id: u64)
        requires
            self.linked(),
        ensures
            self.detached(id).linked(),
            !self.detached(id).children.contains_key(id),
            forall|q: u64| #[trigger] self.detached(id).children_of(q) == self.children_without(q, id),
            forall|k: u64| #[trigger] self.detached(id).has(k) ==> self.has(k),
            forall|k: u64| #[trigger]
                self.detached(id).parents.contains_key(k) ==> self.parents.contains_key(k),
            forall|c: u64| #[trigger]
                self.detached(id).children.contains_key(c) ==> self.children.contains_key(c)
                    && self.detached(id).children[c].parent == self.children[c].parent,
    {
        let d = self.detached(id);
        if !self.children.contains_key(id) {
            assert forall|q: u64| #[trigger] d.children_of(q) == self.children_without(q, id) by {
                self.lemma_not_listed(id, q);
            }
        } else {
            self.lemma_detached_frame(id);
            let rec = self.children[id];
            let p = rec.parent;
            let s = self.children_of(p);
            let n = s.len() as int;
            let k = s.index_of(id);
            assert(self.child_ok(id));
            assert(self.ring_ok(p));
            assert(self.link_ok(p, s, k));
            assert(self.link_ok(p, s, after(k, n)));
            assert(self.link_ok(p, s, before(k, n)));
            if n != 1 {
                self.lemma_detached_ring(id);
            } else {
                assert(k == 0);
                assert(s.remove(0) =~= Seq::<u64>::empty());
            }
            assert forall|q: u64| #[trigger] d.parents.contains_key(q) implies d.ring_ok(q) by {
                if q != p {
                    self.lemma_detached_elsewhere(id, q);
                }
            }
            assert forall|q: u64| #[trigger] d.children_of(q) == self.children_without(q, id) by {
                self.lemma_listed_once(id, q);
                if q != p {
                    if self.parents.contains_key(q) {
                        self.lemma_detached_elsewhere(id, q);
                    }
                }
            }
            assert forall|c: u64| #[trigger] d.children.contains_key(c) implies d.child_ok(c) by {
                assert(self.child_ok(c));
                let q = self.children[c].parent;
                assert(d.children[c].parent == q);
                self.lemma_listed_once(c, p);
                if q == p {
                    let i = s.index_of(c);
                    let t = s.remove(k);
                    assert(i != k);
                    assert(n != 1);
                    assert(t[if i < k {
                        i
                    } else {
                        i - 1
                    }] == c);
                } else {
                    self.lemma_detached_elsewhere(id, q);
                }
            }
        }
    }
}

/// Takes `id` out of its parent's list of children. Where `id` has no
/// `Child` record nothing changes.
pub fn detach(hierarchy: &mut Hierarchy<'_>, id: u64)
    requires
        valid_handle(id),
        old(hierarchy)@.wf(),
    ensures
        final(hierarchy)@ == old(hierarchy)@.detached(id),
        final(hierarchy)@.wf(),
        !final(hierarchy)@.children.contains_key(id),
        forall|q: u64| #[trigger]
            final(hierarchy)@.children_of(q) == old(hierarchy)@.children_without(q, id),
        forall|h: u64|
            old(hierarchy)@.accepts_parent(h) ==> #[trigger] final(hierarchy)@.accepts_parent(h),
        forall|h: u64|
            old(hierarchy)@.accepts_child(h) ==> #[trigger] final(hierarchy)@.accepts_child(h),
        old(hierarchy)@.acyclic() ==> final(hierarchy)@.acyclic(),
        final(hierarchy).entities == old(hierarchy).entities,
{
    let ghost before_all = hierarchy@;
    proof {
        before_all.lemma_detached(id);
        if before_all.acyclic() {
            lemma_fewer_acyclic(before_all.children, before_all.detached(id).children);
        }
        lemma_fewer_keys(before_all.parents, before_all.detached(id).parents);
        lemma_fewer_keys(before_all.children, before_all.detached(id).children);
    }
    match child_get(&hierarchy.children, id) {
        None => {},
        Some(child) => {
            child_remove(&mut hierarchy.children, id);
            proof {
                assert(before_all.child_ok(id));
                let s = before_all.children_of(child.parent);
                let k = s.index_of(id);
                assert(before_all.ring_ok(child.parent));
                assert(before_all.link_ok(child.parent, s, k));
                assert(before_all.link_ok(child.parent, s, after(k, s.len() as int)));
                assert(before_all.link_ok(child.parent, s, before(k, s.len() as int)));
                assert(before_all.child_ok(child.next));
                assert(before_all.child_ok(child.prev));
            }
            let parent = parent_get(&hierarchy.parents, child.parent).unwrap();
            if parent.num_children == 1 {
                parent_remove(&mut hierarchy.parents, child.parent);
            } else {
                let first = if parent.first_child == id {
                    child.next
                } else {
                    parent.first_child
                };
                parent_update(
                    &mut hierarchy.parents,
                    child.parent,
                    Parent { num_children: parent.num_children - 1, first_child: first },
                );
                let prev = child_get(&hierarchy.children, child.prev).unwrap();
                child_update(
                    &mut hierarchy.children,
                    child.prev,
                    Child { next: child.next, ..prev },
                );
                let next = child_get(&hierarchy.children, child.next).unwrap();
                child_update(
                    &mut hierarchy.children,
                    child.next,
                    Child { prev: child.prev, ..next },
                );
            }
        },
    }
    proof {
        assert(hierarchy@.parents =~= before_all.detached(id).parents);
        assert(hierarchy@.children =~= before_all.detached(id).children);
    }
}

} // verus!
