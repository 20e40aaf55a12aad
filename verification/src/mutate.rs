//! The operations that change a hierarchy.
use crate::below::{lemma_below_kept, lemma_below_of_fewer, lemma_below_rank, lemma_below_unfold};
use crate::components::{Child, Parent};
use crate::detach::detach;
use crate::handle::{lemma_one_more_key, slot, valid_handle};
use crate::hierarchy::Hierarchy;
use crate::iter::HierarchyIter;
use crate::links::{lemma_walk, Links};
use crate::order::{lemma_fewer_acyclic, lemma_ranking, ranking};
use crate::remove::{lemma_not_under, lemma_removed_last, lemma_under_all, lemma_under_step, under};
use crate::tables::{
    add_entity, child_get, child_insert, child_update, living_entities, parent_get, parent_insert,
    parent_remove, parent_update,
};
use vstd::prelude::*;

verus! {

/// The operations that change a hierarchy.
pub trait HierarchyMut: View<V = Links> + Sized {
    /// Makes `id` the last child of `parent`, after taking it out of the list
    /// of the parent it had, if any.
    fn attach(&mut self, id: u64, parent: u64)
        requires
            valid_handle(id),
            valid_handle(parent),
            old(self)@.wf(),
            old(self)@.accepts_child(id),
            old(self)@.accepts_parent(parent),
            old(self)@.children_without(parent, id).len() < usize::MAX,
        ensures
            final(self)@ == old(self)@.attached(id, parent),
            final(self)@.wf(),
            final(self)@.children.contains_key(id),
            final(self)@.children[id].parent == parent,
            final(self)@.parents.contains_key(parent),
            forall|q: u64| #[trigger]
                final(self)@.children_of(q) == if q == parent {
                    old(self)@.children_without(q, id).push(id)
                } else {
                    old(self)@.children_without(q, id)
                },
            forall|k: u64| #[trigger]
                final(self)@.parents.contains_key(k) ==> old(self)@.parents.contains_key(k) || k
                    == parent,
            forall|k: u64| #[trigger]
                final(self)@.children.contains_key(k) ==> old(self)@.children.contains_key(k) || k
                    == id,
            forall|h: u64|
                old(self)@.accepts_parent(h) && (slot(h) == slot(parent) ==> h == parent)
                    ==> #[trigger] final(self)@.accepts_parent(h),
            forall|h: u64|
                old(self)@.accepts_child(h) && (slot(h) == slot(id) ==> h == id)
                    ==> #[trigger] final(self)@.accepts_child(h),
            old(self)@.acyclic() && parent != id && !old(self)@.is_below(parent, id)
                ==> final(self)@.acyclic(),
            final(self).living() == old(self).living(),
    ;

    /// The handles of the living entities of the world.
    spec fn living(&self) -> Set<u64>;

    /// Creates an entity, makes it the last child of `parent`, and gives its
    /// handle.
    fn attach_new(&mut self, parent: u64) -> (id: u64)
        requires
            valid_handle(parent),
            old(self)@.wf(),
            old(self)@.accepts_parent(parent),
            old(self)@.children_of(parent).len() < usize::MAX,
            forall|k: u64| #[trigger]
                old(self)@.children.contains_key(k) ==> old(self).living().contains(k),
        ensures
            valid_handle(id),
            !old(self).living().contains(id),
            forall|k: u64| old(self).living().contains(k) ==> slot(k) != slot(id),
            final(self).living() == old(self).living().insert(id),
            final(self)@ == old(self)@.appended(id, parent),
            final(self)@.wf(),
            final(self)@.children.contains_key(id),
            final(self)@.children[id].parent == parent,
            final(self)@.parents.contains_key(parent),
            forall|q: u64| #[trigger]
                final(self)@.children_of(q) == if q == parent {
                    old(self)@.children_of(q).push(id)
                } else {
                    old(self)@.children_of(q)
                },
            forall|h: u64|
                old(self)@.accepts_parent(h) && (slot(h) == slot(parent) ==> h == parent)
                    ==> #[trigger] final(self)@.accepts_parent(h),
            forall|h: u64|
                old(self)@.accepts_child(h) && (slot(h) == slot(id) ==> h == id)
                    ==> #[trigger] final(self)@.accepts_child(h),
            forall|k: u64| #[trigger]
                final(self)@.children.contains_key(k) ==> final(self).living().contains(k),
            old(self)@.acyclic() && parent != id && !old(self)@.is_below(parent, id)
                ==> final(self)@.acyclic(),
            old(self)@.acyclic() && parent != id && !old(self)@.parents.contains_key(id)
                ==> final(self)@.acyclic(),
    ;

    /// Takes `id` out of the hierarchy: it leaves its parent, and its children
    /// leave it. The children keep their own children.
    fn remove_single(&mut self, id: u64)
        requires
            valid_handle(id),
            old(self)@.wf(),
        ensures
            final(self)@ == old(self)@.removed_single(id),
            final(self)@.wf(),
            !final(self)@.parents.contains_key(id),
            !final(self)@.children.contains_key(id),
            forall|q: u64| #[trigger]
                final(self)@.children_of(q) == if q == id {
                    Seq::empty()
                } else {
                    old(self)@.children_without(q, id)
                },
            forall|c: u64| #[trigger]
                final(self)@.children.contains_key(c) ==> old(self)@.children.contains_key(c)
                    && old(self)@.children[c].parent != id && final(self)@.children[c].parent
                    == old(self)@.children[c].parent,
            forall|c: u64|
                old(self)@.children.contains_key(c) && c != id && old(self)@.children[c].parent
                    != id ==> #[trigger] final(self)@.children.contains_key(c),
            forall|k: u64| #[trigger] final(self)@.has(k) ==> old(self)@.has(k),
            forall|h: u64|
                old(self)@.accepts_parent(h) ==> #[trigger] final(self)@.accepts_parent(h),
            forall|h: u64|
                old(self)@.accepts_child(h) ==> #[trigger] final(self)@.accepts_child(h),
            old(self)@.acyclic() ==> final(self)@.acyclic(),
            final(self).living() == old(self).living(),
    ;

    /// Takes `id` out of the hierarchy with all that hangs below it: `id` leaves
    /// its parent, and neither `id` nor any of its descendants keeps a record.
    fn remove(&mut self, id: u64)
        requires
            valid_handle(id),
            old(self)@.wf(),
            old(self)@.acyclic(),
        ensures
            final(self)@ == old(self)@.removed(id),
            final(self)@.wf(),
            final(self)@.acyclic(),
            forall|q: u64| #[trigger]
                final(self)@.children_of(q) == if q == id || old(self)@.is_below(q, id) {
                    Seq::empty()
                } else {
                    old(self)@.children_without(q, id)
                },
            forall|h: u64|
                old(self)@.accepts_parent(h) ==> #[trigger] final(self)@.accepts_parent(h),
            forall|h: u64|
                old(self)@.accepts_child(h) ==> #[trigger] final(self)@.accepts_child(h),
            final(self).living() == old(self).living(),
    ;
}

impl HierarchyMut for Hierarchy<'_> {
    open spec fn living(&self) -> Set<u64> {
        living_entities(self.entities)
    }

    fn attach_new(&mut self, parent: u64) -> (id: u64) {
        let ghost before_all = self@;
        let id = add_entity(&mut self.entities);
        proof {
            assert forall|k: u64| before_all.children.contains_key(k) implies slot(k) != slot(
                id,
            ) by {
                assert(living_entities(old(self).entities).contains(k));
            }
            assert(!before_all.children.contains_key(id));
            assert(before_all.detached(id) == before_all);
            if before_all.acyclic() && before_all.is_below(parent, id) {
                lemma_ranking(before_all.children);
                before_all.lemma_ancestors_are_parents(
                    ranking(before_all.children).0,
                    ranking(before_all.children).1,
                    parent,
                    id,
                );
            }
            assert forall|q: u64| before_all.children_without(q, id) == before_all.children_of(q) by {
                before_all.lemma_not_listed(id, q);
            }
        }
        self.attach(id, parent);
        id
    }

    fn attach(&mut self, id: u64, parent: u64) {
        let ghost before_all = self@;
        proof {
            before_all.lemma_attached(id, parent);
            before_all.lemma_detached(id);
            if before_all.acyclic() && parent != id && !before_all.is_below(parent, id) {
                before_all.lemma_attached_acyclic(id, parent);
            }
        }
        detach(self, id);
        let ghost d = self@;
        proof {
            assert(d.accepts_child(id));
            assert(d.accepts_parent(parent));
            d.lemma_appended(id, parent);
            lemma_one_more_key(d.parents, before_all.attached(id, parent).parents, parent);
            lemma_one_more_key(d.children, before_all.attached(id, parent).children, id);
            assert forall|h: u64|
                before_all.accepts_parent(h) && (slot(h) == slot(parent) ==> h
                    == parent) implies #[trigger] before_all.attached(id, parent).accepts_parent(
                h,
            ) by {
                assert(d.accepts_parent(h));
            }
            assert forall|h: u64|
                before_all.accepts_child(h) && (slot(h) == slot(id) ==> h
                    == id) implies #[trigger] before_all.attached(id, parent).accepts_child(h) by {
                assert(d.accepts_child(h));
            }
        }
        match parent_get(&self.parents, parent) {
            Some(p) => {
                proof {
                    let s = d.children_of(parent);
                    assert(d.ring_ok(parent));
                    assert(d.link_ok(parent, s, 0));
                    assert(d.link_ok(parent, s, s.len() - 1));
                    lemma_walk(d.children, p.first_child, p.num_children as nat);
                    assert(d.child_ok(s[0]));
                    assert(d.child_ok(s[s.len() - 1]));
                }
                parent_update(
                    &mut self.parents,
                    parent,
                    Parent { num_children: p.num_children + 1, first_child: p.first_child },
                );
                let first = child_get(&self.children, p.first_child).unwrap();
                let last_id = first.prev;
                let last = child_get(&self.children, last_id).unwrap();
                child_update(&mut self.children, last_id, Child { next: id, ..last });
                let first = child_get(&self.children, p.first_child).unwrap();
                child_update(&mut self.children, p.first_child, Child { prev: id, ..first });
                child_insert(
                    &mut self.children,
                    id,
                    Child { parent, prev: last_id, next: p.first_child },
                );
            },
            None => {
                child_insert(&mut self.children, id, Child { parent, prev: id, next: id });
                parent_insert(&mut self.parents, parent, Parent { num_children: 1, first_child: id });
            },
        }
        proof {
            assert(self@.parents =~= before_all.attached(id, parent).parents);
            assert(self@.children =~= before_all.attached(id, parent).children);
        }
    }

    fn remove_single(&mut self, id: u64) {
        let ghost before_all = self@;
        proof {
            before_all.lemma_detached(id);
        }
        detach(self, id);
        let ghost d = self@;
        let kids = self.children(id).collect();
        let ghost s = kids@;
        proof {
            if d.parents.contains_key(id) {
                assert(d.ring_ok(id));
            }
        }
        let mut i: usize = 0;
        while i < kids.len()
            invariant
                0 <= i <= kids.len(),
                kids@ == s,
                s == d.children_of(id),
                d.wf(),
                !d.children.contains_key(id),
                self@.wf(),
                self@.children_of(id) == s.skip(i as int),
                forall|q: u64| q != id ==> #[trigger] self@.children_of(q) == d.children_of(q),
                forall|c: u64| #[trigger]
                    self@.children.contains_key(c) <==> d.children.contains_key(c) && !s.take(
                        i as int,
                    ).contains(c),
                forall|c: u64|
                    self@.children.contains_key(c) ==> (#[trigger] self@.children[c]).parent
                        == d.children[c].parent,
                forall|c: u64|
                    self@.children.contains_key(c) && d.children[c].parent != id
                        ==> #[trigger] self@.children[c] == d.children[c],
                forall|q: u64|
                    q != id ==> (#[trigger] self@.parents.contains_key(q)
                        <==> d.parents.contains_key(q)),
                forall|q: u64|
                    q != id && d.parents.contains_key(q) ==> #[trigger] self@.parents[q]
                        == d.parents[q],
                self@.parents.contains_key(id) ==> d.parents.contains_key(id),
                forall|h: u64| d.accepts_parent(h) ==> #[trigger] self@.accepts_parent(h),
                forall|h: u64| d.accepts_child(h) ==> #[trigger] self@.accepts_child(h),
                self.entities == old(self).entities,
            decreases kids.len() - i,
        {
            let kid = kids[i];
            let ghost cur = self@;
            proof {
                let r = cur.children_of(id);
                assert(r[0] == s[i as int]);
                assert(cur.parents.contains_key(id));
                assert(cur.ring_ok(id));
                assert(cur.link_ok(id, r, 0));
                assert(cur.child_ok(kid));
                assert(cur.has(kid));
                cur.lemma_detached_frame(kid);
                assert(r.index_of(kid) == 0);
                assert(r.remove(0) =~= s.skip(i + 1));
                assert(cur.children_without(id, kid) == s.skip(i + 1));
                assert forall|q: u64| q != id implies cur.children_without(q, kid) == cur.children_of(
                    q,
                ) by {
                    cur.lemma_listed_once(kid, q);
                }
            }
            detach(self, kid);
            proof {
                assert forall|c: u64| #[trigger]
                    self@.children.contains_key(c) <==> d.children.contains_key(c) && !s.take(
                        i + 1,
                    ).contains(c) by {
                    let t0 = s.take(i as int);
                    let t1 = s.take(i + 1);
                    assert(t1 =~= t0.push(kid));
                    if t1.contains(c) {
                        let j = t1.index_of(c);
                        if j < i {
                            assert(t0[j] == c);
                        }
                    }
                    if t0.contains(c) {
                        let j = t0.index_of(c);
                        assert(t1[j] == c);
                    }
                    if c == kid {
                        assert(t1[i as int] == c);
                    }
                }
                assert forall|h: u64| d.accepts_parent(h) implies #[trigger] self@.accepts_parent(
                    h,
                ) by {
                    assert(cur.accepts_parent(h));
                }
                assert forall|h: u64| d.accepts_child(h) implies #[trigger] self@.accepts_child(
                    h,
                ) by {
                    assert(cur.accepts_child(h));
                }
            }
            i += 1;
        }
        proof {
            assert(s.skip(s.len() as int) =~= Seq::<u64>::empty());
            if self@.parents.contains_key(id) {
                assert(self@.ring_ok(id));
            }
            assert(s.take(s.len() as int) =~= s);
        }
        let ghost cur = self@;
        if parent_get(&self.parents, id).is_some() {
            parent_remove(&mut self.parents, id);
        }
        proof {
            let r = before_all.removed_single(id);
            assert(self@.parents =~= cur.parents);
            assert(self@ == cur);
            assert(self@.parents =~= r.parents);
            assert forall|c: u64| #[trigger] r.children.contains_key(c) implies self@.children[c]
                == r.children[c] && d.children[c].parent != id by {
                assert(d.child_ok(c));
                if d.children[c].parent == id {
                    assert(s.contains(c));
                    assert(s.to_set().contains(c));
                }
            }
            assert(self@.children =~= r.children);
            assert forall|q: u64| #[trigger] self@.children_of(q) == if q == id {
                Seq::empty()
            } else {
                before_all.children_without(q, id)
            } by {
                assert(d.children_of(q) == before_all.children_without(q, id));
            }
            assert forall|h: u64| before_all.accepts_parent(h) implies #[trigger] self@.accepts_parent(
                h,
            ) by {
                assert(d.accepts_parent(h));
            }
            assert forall|h: u64| before_all.accepts_child(h) implies #[trigger] self@.accepts_child(
                h,
            ) by {
                assert(d.accepts_child(h));
            }
            assert forall|k: u64| #[trigger] self@.has(k) implies before_all.has(k) by {
                if self@.parents.contains_key(k) {
                    assert(d.parents.contains_key(k));
                }
                assert(d.has(k));
            }
            if before_all.acyclic() {
                assert forall|k: u64| #[trigger]
                    self@.children.contains_key(k) implies before_all.children.contains_key(k)
                    && self@.children[k].parent == before_all.children[k].parent by {
                    assert(d.children.contains_key(k));
                }
                lemma_fewer_acyclic(before_all.children, self@.children);
            }
            assert forall|c: u64|
                before_all.children.contains_key(c) && c != id && before_all.children[c].parent
                    != id implies #[trigger] self@.children.contains_key(c) by {
                if before_all.children.contains_key(id) {
                    before_all.lemma_detached_frame(id);
                }
                assert(d.children.contains_key(c));
                if s.contains(c) {
                    let j = s.index_of(c);
                    assert(d.parents.contains_key(id));
                    assert(d.ring_ok(id));
                    assert(d.link_ok(id, s, j));
                }
            }
        }
    }

    fn remove(&mut self, id: u64) {
        proof {
            lemma_ranking(self@.children);
        }
        let ghost r = ranking(self@.children);
        remove_ranked(self, id, Ghost(r.0), Ghost(r.1));
    }
}

/// Takes `id` out of the hierarchy with all that hangs below it; `rank`
/// bounds how deep the removal goes.
fn remove_ranked(
    hierarchy: &mut Hierarchy<'_>,
    id: u64,
    Ghost(rank): Ghost<spec_fn(u64) -> nat>,
    Ghost(top): Ghost<nat>,
)
    requires
        valid_handle(id),
        old(hierarchy)@.wf(),
        old(hierarchy)@.ranked(rank, top),
    ensures
        final(hierarchy)@ == old(hierarchy)@.removed(id),
        final(hierarchy)@.wf(),
        final(hierarchy)@.ranked(rank, top),
        forall|q: u64| #[trigger]
            final(hierarchy)@.children_of(q) == if q == id || old(hierarchy)@.is_below(q, id) {
                Seq::empty()
            } else {
                old(hierarchy)@.children_without(q, id)
            },
        forall|h: u64|
            old(hierarchy)@.accepts_parent(h) ==> #[trigger] final(hierarchy)@.accepts_parent(h),
        forall|h: u64|
            old(hierarchy)@.accepts_child(h) ==> #[trigger] final(hierarchy)@.accepts_child(h),
        final(hierarchy).living() == old(hierarchy).living(),
    decreases top + 1 - rank(id),
{
    let ghost l = hierarchy@;
    let kids = hierarchy.children(id).collect();
    let ghost s = kids@;
    proof {
        assert forall|c: u64| !under(l, s, 0, c) by {}
    }
    let mut i: usize = 0;
    while i < kids.len()
        invariant
            0 <= i <= kids.len(),
            kids@ == s,
            s == l.children_of(id),
            valid_handle(id),
            l.wf(),
            l.ranked(rank, top),
            hierarchy@.wf(),
            hierarchy@.ranked(rank, top),
            hierarchy@.children_of(id) == s.skip(i as int),
            forall|q: u64|
                q != id ==> #[trigger] hierarchy@.children_of(q) == if under(l, s, i as int, q) {
                    Seq::empty()
                } else {
                    l.children_of(q)
                },
            forall|c: u64| #[trigger]
                hierarchy@.children.contains_key(c) <==> l.children.contains_key(c) && !under(
                    l,
                    s,
                    i as int,
                    c,
                ),
            forall|c: u64|
                hierarchy@.children.contains_key(c) ==> (#[trigger] hierarchy@.children[c]).parent
                    == l.children[c].parent,
            forall|c: u64|
                hierarchy@.children.contains_key(c) && l.children[c].parent != id
                    ==> #[trigger] hierarchy@.children[c] == l.children[c],
            forall|q: u64|
                q != id ==> (#[trigger] hierarchy@.parents.contains_key(q)
                    <==> l.parents.contains_key(q) && !under(l, s, i as int, q)),
            forall|q: u64|
                q != id && hierarchy@.parents.contains_key(q) ==> #[trigger] hierarchy@.parents[q]
                    == l.parents[q],
            hierarchy@.parents.contains_key(id) ==> l.parents.contains_key(id),
            forall|h: u64| l.accepts_parent(h) ==> #[trigger] hierarchy@.accepts_parent(h),
            forall|h: u64| l.accepts_child(h) ==> #[trigger] hierarchy@.accepts_child(h),
            hierarchy.living() == old(hierarchy).living(),
        decreases kids.len() - i,
    {
        let kid = kids[i];
        let ghost cur = hierarchy@;
        proof {
            let r = cur.children_of(id);
            assert(r[0] == s[i as int]);
            assert(cur.parents.contains_key(id));
            assert(cur.ring_ok(id));
            assert(cur.link_ok(id, r, 0));
            assert(cur.child_ok(kid));
            assert(cur.has(kid));
            assert(rank(id) < rank(kid) <= top);
            cur.lemma_detached_frame(kid);
            cur.lemma_detached(kid);
            assert(r.index_of(kid) == 0);
            assert(r.remove(0) =~= s.skip(i + 1));
            assert(cur.children_without(id, kid) == s.skip(i + 1));
            assert(!cur.is_below(id, kid)) by {
                if cur.is_below(id, kid) {
                    lemma_below_rank(cur.children, rank, top, id, kid);
                }
            }
            assert forall|q: u64| q != id implies cur.children_without(q, kid) == cur.children_of(
                q,
            ) by {
                cur.lemma_listed_once(kid, q);
            }
            assert forall|c: u64| #[trigger]
                cur.below(kid).contains(c) <==> l.below(kid).contains(c) by {
                if cur.is_below(c, kid) {
                    lemma_below_of_fewer(l.children, cur.children, rank, top, c, kid);
                }
                if l.is_below(c, kid) {
                    assert forall|k: u64| l.is_below(k, kid) implies #[trigger] cur.children.contains_key(
                    k) && cur.children[k].parent == l.children[k].parent by {
                        lemma_below_unfold(l.children, k, kid);
                        lemma_not_under(l, rank, top, id, i as int, k);
                    }
                    lemma_below_kept(l.children, cur.children, rank, top, c, kid);
                }
            }
            assert(cur.below(kid) =~= l.below(kid));
        }
        remove_ranked(hierarchy, kid, Ghost(rank), Ghost(top));
        proof {
            let d = cur.detached(kid);
            let b = cur.below(kid);
            assert forall|c: u64| under(l, s, i + 1, c) <==> under(l, s, i as int, c) || c == kid
                || l.is_below(c, kid) by {
                lemma_under_step(l, s, i as int, c);
            }
            assert forall|c: u64| #[trigger]
                hierarchy@.children.contains_key(c) <==> l.children.contains_key(c) && !under(
                    l,
                    s,
                    i + 1,
                    c,
                ) by {
                assert(b.contains(c) <==> l.is_below(c, kid));
                assert(cur.children.contains_key(c) <==> l.children.contains_key(c) && !under(
                    l,
                    s,
                    i as int,
                    c,
                ));
            }
            assert forall|q: u64| q != id implies (#[trigger] hierarchy@.parents.contains_key(q)
                <==> l.parents.contains_key(q) && !under(l, s, i + 1, q)) by {
                assert(b.insert(kid).contains(q) <==> q == kid || l.is_below(q, kid));
                assert(cur.parents.contains_key(q) <==> l.parents.contains_key(q) && !under(
                    l,
                    s,
                    i as int,
                    q,
                ));
            }
            assert forall|q: u64| q != id implies #[trigger] hierarchy@.children_of(q) == if under(
                l,
                s,
                i + 1,
                q,
            ) {
                Seq::empty()
            } else {
                l.children_of(q)
            } by {
                assert(cur.children_of(q) == if under(l, s, i as int, q) {
                    Seq::<u64>::empty()
                } else {
                    l.children_of(q)
                });
            }
            assert forall|c: u64| hierarchy@.children.contains_key(c) implies (
            #[trigger] hierarchy@.children[c]).parent == l.children[c].parent by {
                assert(d.children.contains_key(c));
                assert(cur.children.contains_key(c));
                assert(cur.children[c].parent == l.children[c].parent);
            }
            assert forall|c: u64|
                hierarchy@.children.contains_key(c) && l.children[c].parent
                    != id implies #[trigger] hierarchy@.children[c] == l.children[c] by {
                assert(d.children.contains_key(c));
                assert(cur.children.contains_key(c));
                assert(cur.children[c].parent == l.children[c].parent);
                assert(cur.children[c] == l.children[c]);
            }
            assert forall|q: u64|
                q != id && hierarchy@.parents.contains_key(q) implies #[trigger] hierarchy@.parents[q]
                == l.parents[q] by {
                assert(d.parents.contains_key(q));
                assert(cur.parents.contains_key(q));
                assert(cur.parents[q] == l.parents[q]);
            }
            assert forall|h: u64| l.accepts_parent(h) implies #[trigger] hierarchy@.accepts_parent(
                h,
            ) by {
                assert(cur.accepts_parent(h));
            }
            assert forall|h: u64| l.accepts_child(h) implies #[trigger] hierarchy@.accepts_child(
                h,
            ) by {
                assert(cur.accepts_child(h));
            }
            if hierarchy@.parents.contains_key(id) {
                assert(d.parents.contains_key(id));
            }
        }
        i += 1;
    }
    let ghost now = hierarchy@;
    proof {
        assert(s.skip(s.len() as int) =~= Seq::<u64>::empty());
        assert forall|c: u64| under(l, s, s.len() as int, c) <==> l.is_below(c, id) by {
            lemma_under_all(l, rank, top, id, c);
        }
        lemma_removed_last(l, now, rank, top, id);
    }
    hierarchy.remove_single(id);
    proof {
        assert forall|c: u64| #[trigger] hierarchy@.children.contains_key(c) implies rank(
            hierarchy@.children[c].parent,
        ) < rank(c) <= top by {
            assert(now.children.contains_key(c));
        }
        assert forall|q: u64| #[trigger] hierarchy@.children_of(q) == if q == id || l.is_below(
            q,
            id,
        ) {
            Seq::empty()
        } else {
            l.children_without(q, id)
        } by {
            if q != id {
                assert(now.children_of(q) == if under(l, s, s.len() as int, q) {
                    Seq::<u64>::empty()
                } else {
                    l.children_of(q)
                });
            }
        }
        assert forall|h: u64| l.accepts_parent(h) implies #[trigger] hierarchy@.accepts_parent(
            h,
        ) by {
            assert(now.accepts_parent(h));
        }
        assert forall|h: u64| l.accepts_child(h) implies #[trigger] hierarchy@.accepts_child(h) by {
            assert(now.accepts_child(h));
        }
    }
}

} // verus!
