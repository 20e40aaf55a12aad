//! Putting the children of an entity in a new order.
use crate::components::{Child, Parent};
use crate::handle::{lemma_fewer_keys, valid_handle};
use crate::hierarchy::Hierarchy;
use crate::links::{after, before, lemma_walk_is, Links};
use crate::order::lemma_fewer_acyclic;
use crate::tables::{child_get, child_update, parent_get, parent_update};
use vstd::prelude::*;

verus! {

/// `a` holds the handles of `b`, each once.
pub open spec fn rearranges(a: Seq<u64>, b: Seq<u64>) -> bool {
    &&& a.len() == b.len()
    &&& a.no_duplicates()
    &&& forall|x: u64| a.contains(x) <==> b.contains(x)
}

impl Links {
    /// The records once the children of `id` stand in the order `order`: the
    /// `Parent` record of `id` heads the list at the first of `order`, and
    /// the record of each child names its neighbours in `order`.
    pub open spec fn reordered(self, id: u64, order: Seq<u64>) -> Links {
        Links {
            parents: self.parents.insert(
                id,
                Parent { num_children: self.parents[id].num_children, first_child: order[0] },
            ),
            children: Map::new(
                |c: u64| self.children.contains_key(c),
                |c: u64|
                    if order.contains(c) {
                        Child {
                            parent: self.children[c].parent,
                            prev: order[before(order.index_of(c), order.len() as int)],
                            next: order[after(order.index_of(c), order.len() as int)],
                        }
                    } else {
                        self.children[c]
                    },
            ),
        }
    }

    /// Reordering keeps linked records linked, gives `id` its
    /// children in the new order, and leaves every other list as it was.
    pub proof fn lemma_reordered(self, id: u64, order: Seq<u64>)
        requires
            self.linked(),
            order.len() >= 1,
            rearranges(order, self.children_of(id)),
        ensures
            self.reordered(id, order).linked(),
            forall|q: u64| #[trigger]
                self.reordered(id, order).children_of(q) == if q == id {
                    order
                } else {
                    self.children_of(q)
                },
    {
        let r = self.reordered(id, order);
        let s = self.children_of(id);
        let n = order.len() as int;
        assert(self.parents.contains_key(id));
        assert(self.ring_ok(id));
        assert forall|j: int| 0 <= j < n implies #[trigger] r.link_ok(id, order, j) by {
            assert(order.contains(order[j]));
            assert(s.contains(order[j]));
            let i = s.index_of(order[j]);
            assert(self.link_ok(id, s, i));
            assert(order.index_of(order[j]) == j);
        }
        assert forall|j: int| 0 < j < n implies #[trigger] order[j] == r.children[order[j
            - 1]].next by {
            assert(r.link_ok(id, order, j - 1));
        }
        lemma_walk_is(r.children, order[0], order);
        assert(r.children_of(id) == order);
        assert forall|q: u64| q != id && self.parents.contains_key(q) implies r.children_of(q)
            == self.children_of(q) && r.ring_ok(q) by {
            let t = self.children_of(q);
            assert(self.ring_ok(q));
            assert forall|i: int| 0 <= i < t.len() implies r.children.contains_key(#[trigger] t[i])
                && r.children[t[i]] == self.children[t[i]] by {
                assert(self.link_ok(q, t, i));
                if order.contains(t[i]) {
                    let k = s.index_of(t[i]);
                    assert(self.link_ok(id, s, k));
                }
            }
            self.lemma_ring_kept(r, q);
        }
        assert forall|c: u64| #[trigger] r.children.contains_key(c) implies r.child_ok(c) by {
            assert(self.child_ok(c));
            let q = self.children[c].parent;
            assert(r.children[c].parent == q);
            if q == id {
                assert(order.contains(c));
            }
        }
    }
}

/// The first `i` handles of `order` are linked forward, and all but the
/// first of the first `i + 1` backward; nothing else has changed.
pub open spec fn linked_up_to(before_all: Links, now: Links, id: u64, order: Seq<u64>, i: int) -> bool {
    &&& now.parents == before_all.parents.insert(
        id,
        Parent { num_children: before_all.parents[id].num_children, first_child: order[0] },
    )
    &&& forall|c: u64| #[trigger]
        now.children.contains_key(c) <==> before_all.children.contains_key(c)
    &&& forall|c: u64|
        before_all.children.contains_key(c) ==> (#[trigger] now.children[c]).parent
            == before_all.children[c].parent
    &&& forall|c: u64|
        before_all.children.contains_key(c) && !order.contains(c) ==> #[trigger] now.children[c]
            == before_all.children[c]
    &&& forall|j: int| 0 <= j < i ==> (#[trigger] now.children[order[j]]).next == order[j + 1]
    &&& forall|j: int| 1 <= j <= i ==> (#[trigger] now.children[order[j]]).prev == order[j - 1]
}

/// Puts the children of `id` in the order `order`, which holds each of them
/// once.
pub fn relink(hierarchy: &mut Hierarchy<'_>, id: u64, order: &Vec<u64>)
    requires
        valid_handle(id),
        old(hierarchy)@.wf(),
        order@.len() >= 1,
        rearranges(order@, old(hierarchy)@.children_of(id)),
    ensures
        final(hierarchy)@ == old(hierarchy)@.reordered(id, order@),
        final(hierarchy)@.wf(),
        forall|q: u64| #[trigger]
            final(hierarchy)@.children_of(q) == if q == id {
                order@
            } else {
                old(hierarchy)@.children_of(q)
            },
        forall|h: u64|
            old(hierarchy)@.accepts_parent(h) ==> #[trigger] final(hierarchy)@.accepts_parent(h),
        forall|h: u64|
            old(hierarchy)@.accepts_child(h) ==> #[trigger] final(hierarchy)@.accepts_child(h),
        old(hierarchy)@.acyclic() ==> final(hierarchy)@.acyclic(),
        final(hierarchy).entities == old(hierarchy).entities,
{
    let ghost before_all = hierarchy@;
    let ghost s = before_all.children_of(id);
    let n = order.len();
    proof {
        before_all.lemma_reordered(id, order@);
        lemma_fewer_keys(before_all.parents, before_all.reordered(id, order@).parents);
        lemma_fewer_keys(before_all.children, before_all.reordered(id, order@).children);
        assert(before_all.parents.contains_key(id));
        assert(before_all.ring_ok(id));
        assert forall|j: int| 0 <= j < n implies before_all.children.contains_key(
            #[trigger] order@[j],
        ) && valid_handle(order@[j]) by {
            assert(order@.contains(order@[j]));
            let k = s.index_of(order@[j]);
            assert(before_all.link_ok(id, s, k));
            assert(before_all.child_ok(order@[j]));
        }
    }
    let parent = parent_get(&hierarchy.parents, id).unwrap();
    parent_update(
        &mut hierarchy.parents,
        id,
        Parent { num_children: parent.num_children, first_child: order[0] },
    );
    proof {
        assert(hierarchy@.children =~= before_all.children);
    }
    let mut i: usize = 0;
    while i < n - 1
        invariant
            n == order@.len(),
            n >= 1,
            0 <= i <= n - 1,
            order@.no_duplicates(),
            forall|j: int|
                0 <= j < n ==> before_all.children.contains_key(#[trigger] order@[j])
                    && valid_handle(order@[j]) && hierarchy@.children.contains_key(order@[j]),
            linked_up_to(before_all, hierarchy@, id, order@, i as int),
            hierarchy.entities == old(hierarchy).entities,
        decreases n - 1 - i,
    {
        let a = order[i];
        let b = order[i + 1];
        let ghost cur = hierarchy@;
        assert(cur.children.contains_key(order@[i as int]));
        assert(cur.children.contains_key(order@[i + 1]));
        let rec_a = child_get(&hierarchy.children, a).unwrap();
        child_update(&mut hierarchy.children, a, Child { next: b, ..rec_a });
        let rec_b = child_get(&hierarchy.children, b).unwrap();
        child_update(&mut hierarchy.children, b, Child { prev: a, ..rec_b });
        proof {
            let now = hierarchy@;
            assert(order@.contains(a));
            assert(order@.contains(b));
            assert forall|j: int| 0 <= j < i + 1 implies (#[trigger] now.children[order@[j]]).next
                == order@[j + 1] by {
                if j < i {
                    assert(cur.children[order@[j]].next == order@[j + 1]);
                }
            }
            assert forall|j: int| 1 <= j <= i + 1 implies (#[trigger] now.children[order@[j]]).prev
                == order@[j - 1] by {
                if j <= i {
                    assert(cur.children[order@[j]].prev == order@[j - 1]);
                }
            }
        }
        i += 1;
    }
    let first = order[0];
    let last = order[n - 1];
    let ghost cur = hierarchy@;
    assert(cur.children.contains_key(order@[0]));
    assert(cur.children.contains_key(order@[n - 1]));
    let rec_first = child_get(&hierarchy.children, first).unwrap();
    child_update(&mut hierarchy.children, first, Child { prev: last, ..rec_first });
    let rec_last = child_get(&hierarchy.children, last).unwrap();
    child_update(&mut hierarchy.children, last, Child { next: first, ..rec_last });
    proof {
        let now = hierarchy@;
        let r = before_all.reordered(id, order@);
        assert(order@.contains(first));
        assert(order@.contains(last));
        assert forall|c: u64| #[trigger] r.children.contains_key(c) implies now.children[c]
            == r.children[c] by {
            if order@.contains(c) {
                let j = order@.index_of(c);
                assert(cur.children[order@[j]].parent == before_all.children[c].parent);
                if j < n - 1 {
                    assert(cur.children[order@[j]].next == order@[j + 1]);
                }
                if j >= 1 {
                    assert(cur.children[order@[j]].prev == order@[j - 1]);
                }
            } else {
                assert(cur.children[c] == before_all.children[c]);
            }
        }
        assert(now.children =~= r.children);
        assert(now.parents =~= r.parents);
        if before_all.acyclic() {
            lemma_fewer_acyclic(before_all.children, now.children);
        }
    }
}

} // verus!
