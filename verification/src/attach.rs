//! Giving an entity a parent.
use crate::below::{is_below, lemma_below_unfold};
use crate::components::{Child, Parent};
use crate::handle::valid_handle;
use crate::links::{after, before, lemma_walk, lemma_walk_is, Links};
use crate::order::{lemma_ranking, ranked, ranking};
use vstd::prelude::*;

verus! {

impl Links {
    /// The records once `id`, which has no `Child` record, is made the last
    /// child of `parent`.
    pub open spec fn appended(self, id: u64, parent: u64) -> Links {
        if self.parents.contains_key(parent) {
            let p = self.parents[parent];
            let first = p.first_child;
            let last = self.children[first].prev;
            let c1 = self.children.insert(last, Child { next: id, ..self.children[last] });
            let c2 = c1.insert(first, Child { prev: id, ..c1[first] });
            Links {
                parents: self.parents.insert(
                    parent,
                    Parent { num_children: (p.num_children + 1) as usize, first_child: first },
                ),
                children: c2.insert(id, Child { parent, prev: last, next: first }),
            }
        } else {
            Links {
                parents: self.parents.insert(parent, Parent { num_children: 1, first_child: id }),
                children: self.children.insert(id, Child { parent, prev: id, next: id }),
            }
        }
    }

    /// The records once `id` has left the parent it had, if any, and is the
    /// last child of `parent`.
    pub open spec fn attached(self, id: u64, parent: u64) -> Links {
        self.detached(id).appended(id, parent)
    }

    /// The rings of the parents that `appended` does not touch stay as they
    /// are.
    proof fn lemma_appended_elsewhere(self, id: u64, parent: u64, q: u64)
        requires
            self.linked(),
            !self.children.contains_key(id),
            self.parents.contains_key(q),
            q != parent,
        ensures
            self.appended(id, parent).parents.contains_key(q),
            self.appended(id, parent).children_of(q) == self.children_of(q),
            self.appended(id, parent).ring_ok(q),
    {
        let a = self.appended(id, parent);
        let r = self.children_of(q);
        assert(self.ring_ok(q));
        if self.parents.contains_key(parent) {
            let s = self.children_of(parent);
            assert(self.ring_ok(parent));
            assert(self.link_ok(parent, s, 0));
            assert(self.link_ok(parent, s, s.len() - 1));
            lemma_walk(self.children, self.parents[parent].first_child,
                self.parents[parent].num_children as nat,
            );
        }
        assert forall|i: int| 0 <= i < r.len() implies a.children.contains_key(#[trigger] r[i])
            && a.children[r[i]] == self.children[r[i]] by {
            assert(self.link_ok(q, r, i));
        }
        self.lemma_ring_kept(a, q);
    }

    /// The ring that `id` joins.
    proof fn lemma_appended_ring(self, id: u64, parent: u64)
        requires
            self.linked(),
            !self.children.contains_key(id),
            self.children_of(parent).len() < usize::MAX,
        ensures
            self.appended(id, parent).parents.contains_key(parent),
            self.appended(id, parent).children_of(parent) == self.children_of(parent).push(id),
            self.appended(id, parent).ring_ok(parent),
    {
        let a = self.appended(id, parent);
        let s = self.children_of(parent);
        let n = s.len() as int;
        let t = s.push(id);
        self.lemma_not_listed(id, parent);
        if self.parents.contains_key(parent) {
            let first = self.parents[parent].first_child;
            assert(self.ring_ok(parent));
            assert(self.link_ok(parent, s, 0));
            assert(self.link_ok(parent, s, n - 1));
            lemma_walk(self.children, first, self.parents[parent].num_children as nat);
            assert forall|j: int| 0 <= j < t.len() implies #[trigger] a.link_ok(parent, t, j) by {
                if j < n {
                    assert(t[j] == s[j]);
                    assert(self.link_ok(parent, s, j));
                    assert(self.link_ok(parent, s, after(j, n)));
                    assert(self.link_ok(parent, s, before(j, n)));
                    assert(t[after(j, n + 1)] == if j == n - 1 {
                        id
                    } else {
                        s[j + 1]
                    });
                    assert(t[before(j, n + 1)] == if j == 0 {
                        id
                    } else {
                        s[j - 1]
                    });
                } else {
                    assert(t[n] == id);
                    assert(t[0] == s[0]);
                    assert(t[n - 1] == s[n - 1]);
                }
            }
        } else {
            assert(s =~= Seq::<u64>::empty());
            assert(t[0] == id);
            assert(a.link_ok(parent, t, 0));
        }
        assert forall|j: int| 0 < j < t.len() implies #[trigger] t[j] == a.children[t[j
            - 1]].next by {
            assert(a.link_ok(parent, t, j - 1));
        }
        assert(a.link_ok(parent, t, 0));
        lemma_walk_is(a.children, a.parents[parent].first_child, t);
        assert(a.children_of(parent) == t);
        assert(t.no_duplicates()) by {
            assert forall|i: int, j: int| 0 <= i < t.len() && 0 <= j < t.len() && i != j implies t[i]
                != t[j] by {
                if i < n {
                    assert(s[i] == t[i]);
                }
                if j < n {
                    assert(s[j] == t[j]);
                }
            }
        }
    }

    /// Appending keeps linked records linked, puts `id` at the
    /// end of the children of `parent`, and leaves every other list as it
    /// was.
    pub proof fn lemma_appended(self, id: u64, parent: u64)
        requires
            self.linked(),
            !self.children.contains_key(id),
            valid_handle(id),
            valid_handle(parent),
            self.children_of(parent).len() < usize::MAX,
        ensures
            self.appended(id, parent).linked(),
            self.appended(id, parent).children.contains_key(id),
            self.appended(id, parent).children[id].parent == parent,
            forall|k: u64| #[trigger]
                self.appended(id, parent).has(k) ==> self.has(k) || k == id || k == parent,
            forall|k: u64| #[trigger]
                self.appended(id, parent).parents.contains_key(k) ==> self.parents.contains_key(k)
                    || k == parent,
            forall|c: u64|
                c != id && #[trigger] self.appended(id, parent).children.contains_key(c)
                    ==> self.children.contains_key(c) && self.appended(id, parent).children[c].parent
                    == self.children[c].parent,
            forall|q: u64| #[trigger]
                self.appended(id, parent).children_of(q) == if q == parent {
                    self.children_of(q).push(id)
                } else {
                    self.children_of(q)
                },
    {
        let a = self.appended(id, parent);
        self.lemma_appended_ring(id, parent);
        if self.parents.contains_key(parent) {
            let s = self.children_of(parent);
            assert(self.ring_ok(parent));
            assert(self.link_ok(parent, s, 0));
            assert(self.link_ok(parent, s, s.len() - 1));
            lemma_walk(self.children, self.parents[parent].first_child,
                self.parents[parent].num_children as nat,
            );
        }
        assert forall|q: u64| #[trigger] a.parents.contains_key(q) implies a.ring_ok(q) by {
            if q != parent {
                self.lemma_appended_elsewhere(id, parent, q);
            }
        }
        assert forall|q: u64| #[trigger] a.children_of(q) == if q == parent {
            self.children_of(q).push(id)
        } else {
            self.children_of(q)
        } by {
            if q != parent {
                if self.parents.contains_key(q) {
                    self.lemma_appended_elsewhere(id, parent, q);
                }
            }
        }
        assert forall|c: u64| #[trigger] a.children.contains_key(c) implies a.child_ok(c) by {
            if c == id {
                let t = a.children_of(parent);
                assert(t[t.len() - 1] == id);
            } else {
                assert(self.child_ok(c));
                let q = self.children[c].parent;
                assert(a.children[c].parent == q);
                let r = self.children_of(q);
                let i = r.index_of(c);
                if q == parent {
                    assert(r.push(id)[i] == c);
                } else {
                    self.lemma_appended_elsewhere(id, parent, q);
                }
            }
        }
    }

    /// Attaching keeps linked records linked, takes `id` out of
    /// the list it was in, puts it at the end of the children of `parent`, and
    /// leaves the order of every list otherwise as it was.
    pub proof fn lemma_attached(self, id: u64, parent: u64)
        requires
            self.linked(),
            valid_handle(id),
            valid_handle(parent),
            self.children_without(parent, id).len() < usize::MAX,
        ensures
            self.attached(id, parent).linked(),
            self.attached(id, parent).children.contains_key(id),
            self.attached(id, parent).children[id].parent == parent,
            forall|k: u64| #[trigger]
                self.attached(id, parent).has(k) ==> self.has(k) || k == id || k == parent,
            forall|c: u64|
                c != id && #[trigger] self.attached(id, parent).children.contains_key(c)
                    ==> self.children.contains_key(c) && self.attached(id, parent).children[c].parent
                    == self.children[c].parent,
            forall|q: u64| #[trigger]
                self.attached(id, parent).children_of(q) == if q == parent {
                    self.children_without(q, id).push(id)
                } else {
                    self.children_without(q, id)
                },
    {
        self.lemma_detached(id);
        let d = self.detached(id);
        assert(d.children_of(parent) == self.children_without(parent, id));
        d.lemma_appended(id, parent);
        assert forall|k: u64| #[trigger] self.attached(id, parent).has(k) implies self.has(k) || k
            == id || k == parent by {
            if d.has(k) {
            }
        }
        assert forall|c: u64|
            c != id && #[trigger] self.attached(id, parent).children.contains_key(
                c,
            ) implies self.children.contains_key(c) && self.attached(id, parent).children[c].parent
            == self.children[c].parent by {
            assert(d.children.contains_key(c));
        }
        assert forall|q: u64| #[trigger] self.attached(id, parent).children_of(q) == if q == parent {
            self.children_without(q, id).push(id)
        } else {
            self.children_without(q, id)
        } by {
            assert(d.children_of(q) == self.children_without(q, id));
        }
    }

    /// Attaching makes no cycle where the new parent is neither the
    /// attached entity nor one of its descendants.
    pub proof fn lemma_attached_acyclic(self, id: u64, parent: u64)
        requires
            self.linked(),
            self.acyclic(),
            valid_handle(id),
            valid_handle(parent),
            self.children_without(parent, id).len() < usize::MAX,
            parent != id,
            !self.is_below(parent, id),
        ensures
            self.attached(id, parent).acyclic(),
    {
        let c = self.children;
        let a = self.attached(id, parent);
        lemma_ranking(c);
        let (rank, top) = ranking(c);
        let lift = (rank(parent) + 1) as nat;
        let rank2 = |x: u64|
            if x == id || is_below(c, x, id) {
                (rank(x) + lift) as nat
            } else {
                rank(x)
            };
        let top2 = (top + rank(id) + lift) as nat;
        self.lemma_attached(id, parent);
        assert forall|x: u64| #[trigger] a.children.contains_key(x) implies rank2(
            a.children[x].parent,
        ) < rank2(x) <= top2 by {
            if x != id {
                lemma_below_unfold(c, x, id);
            }
        }
        assert(ranked(a.children, rank2, top2));
    }
}

} // verus!
