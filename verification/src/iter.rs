//! Cursors over a hierarchy: the children of an entity, its ancestors, and
//! its descendants depth first and breadth first.
//!
//! A cursor reads the storages and changes nothing. Each has `next`, which
//! gives one handle or tells that the cursor is done, and `collect`, which
//! gives what is left as a vector.
use crate::components::Child;
use crate::handle::valid_handle;
use crate::hierarchy::Hierarchy;
use crate::links::{lemma_walk, walk, Links};
use crate::order::{acyclic, ancestors_of, lemma_ancestors_fuel, lemma_ranking, ranking, span};
use crate::tables::{
    child_get, child_records, parent_get, parent_records, ChildTable, ParentTable,
};
use std::collections::VecDeque;
use vstd::prelude::*;

verus! {

/// A cursor over the children of one entity: the next child, and how many
/// are left.
pub struct ChildrenIter<'t, 'a> {
    pub child_storage: &'t ChildTable<'a>,
    pub cursor: (u64, usize),
}

impl<'t, 'a> ChildrenIter<'t, 'a> {
    /// The handles that the cursor has yet to give.
    pub open spec fn remaining(&self) -> Seq<u64> {
        walk(child_records(*self.child_storage), self.cursor.0, self.cursor.1 as nat)
    }

    /// Every handle that the cursor has yet to give has a `Child` record.
    pub open spec fn wf(&self) -> bool {
        forall|i: int|
            0 <= i < self.remaining().len() ==> valid_handle(#[trigger] self.remaining()[i])
                && child_records(*self.child_storage).contains_key(self.remaining()[i])
    }

    /// The next child, or `None` when all were given: with children left, the
    /// cursor gives the handle it stands at, moves on to the `next` of that
    /// handle and counts one child less; with none left it stays as it is.
    pub fn next(&mut self) -> (r: Option<u64>)
        requires
            old(self).wf(),
        ensures
            final(self).wf(),
            final(self).child_storage == old(self).child_storage,
            r == if old(self).cursor.1 > 0 {
                Some(old(self).cursor.0)
            } else {
                None
            },
            final(self).cursor == if old(self).cursor.1 > 0 {
                (
                    child_records(*old(self).child_storage)[old(self).cursor.0].next,
                    (old(self).cursor.1 - 1) as usize,
                )
            } else {
                old(self).cursor
            },
            r == if old(self).remaining().len() > 0 {
                Some(old(self).remaining()[0])
            } else {
                None
            },
            final(self).remaining() == if old(self).remaining().len() > 0 {
                old(self).remaining().drop_first()
            } else {
                old(self).remaining()
            },
    {
        proof {
            lemma_walk(child_records(*self.child_storage), self.cursor.0, self.cursor.1 as nat);
        }
        if self.cursor.1 > 0 {
            let ret = self.cursor.0;
            let ghost before = self.remaining();
            assert(before[0] == ret);
            match child_get(self.child_storage, ret) {
                Some(child) => {
                    self.cursor = (child.next, self.cursor.1 - 1);
                    proof {
                        let after = self.remaining();
                        assert(after =~= before.drop_first());
                        assert forall|i: int| 0 <= i < after.len() implies valid_handle(
                            #[trigger] after[i],
                        ) && child_records(*self.child_storage).contains_key(after[i]) by {
                            assert(after[i] == before[i + 1]);
                        }
                    }
                    Some(ret)
                },
                None => None,
            }
        } else {
            None
        }
    }

    /// The children that are left, in order.
    pub fn collect(self) -> (v: Vec<u64>)
        requires
            self.wf(),
        ensures
            v@ == self.remaining(),
    {
        let mut it = self;
        let mut v: Vec<u64> = Vec::new();
        let ghost all = it.remaining();
        proof {
            lemma_walk(child_records(*it.child_storage), it.cursor.0, it.cursor.1 as nat);
        }
        loop
            invariant
                it.wf(),
                v@ + it.remaining() == all,
                it.remaining().len() == it.cursor.1,
            ensures
                v@ == all,
            decreases it.cursor.1,
        {
            let ghost left = it.remaining();
            match it.next() {
                Some(id) => {
                    v.push(id);
                    proof {
                        assert(v@ + it.remaining() =~= (v@.drop_last() + left));
                        lemma_walk(
                            child_records(*it.child_storage),
                            it.cursor.0,
                            it.cursor.1 as nat,
                        );
                    }
                },
                None => {
                    assert(v@ + it.remaining() =~= v@);
                    break ;
                },
            }
        }
        v
    }
}

/// Every record names a parent whose handle is valid.
pub open spec fn parents_valid(c: Map<u64, Child>) -> bool {
    forall|x: u64| #[trigger] c.contains_key(x) ==> valid_handle(c[x].parent)
}

/// A cursor over the ancestors of one entity: the entity whose parent comes
/// next.
pub struct AncestorIter<'t, 'a> {
    pub child_storage: &'t ChildTable<'a>,
    pub cursor: u64,
}

impl<'t, 'a> AncestorIter<'t, 'a> {
    /// The handles that the cursor has yet to give.
    pub open spec fn remaining(&self) -> Seq<u64> {
        ancestors_of(child_records(*self.child_storage), self.cursor)
    }

    /// The records have no cycle, and the handles they name can be looked
    /// up.
    pub open spec fn wf(&self) -> bool {
        &&& valid_handle(self.cursor)
        &&& acyclic(child_records(*self.child_storage))
        &&& parents_valid(child_records(*self.child_storage))
    }

    /// The next ancestor, or `None` at a root: where the handle that the
    /// cursor stands at has a `Child` record, the cursor moves to the parent
    /// that the record names and gives it; else it stays as it is.
    pub fn next(&mut self) -> (r: Option<u64>)
        requires
            old(self).wf(),
        ensures
            final(self).wf(),
            final(self).child_storage == old(self).child_storage,
            r == if child_records(*old(self).child_storage).contains_key(old(self).cursor) {
                Some(child_records(*old(self).child_storage)[old(self).cursor].parent)
            } else {
                None
            },
            final(self).cursor == if child_records(*old(self).child_storage).contains_key(
                old(self).cursor,
            ) {
                child_records(*old(self).child_storage)[old(self).cursor].parent
            } else {
                old(self).cursor
            },
            r == if old(self).remaining().len() > 0 {
                Some(old(self).remaining()[0])
            } else {
                None
            },
            final(self).remaining() == if old(self).remaining().len() > 0 {
                old(self).remaining().drop_first()
            } else {
                old(self).remaining()
            },
    {
        let ghost c = child_records(*self.child_storage);
        let ghost before = self.remaining();
        match child_get(self.child_storage, self.cursor) {
            Some(child) => {
                proof {
                    lemma_ranking(c);
                    let (rank, top) = ranking(c);
                    assert(c.contains_key(self.cursor));
                    lemma_ancestors_fuel(c, rank, top, child.parent, top, span(c));
                    assert(before =~= seq![child.parent] + ancestors_of(c, child.parent));
                    assert(before.drop_first() =~= ancestors_of(c, child.parent));
                }
                self.cursor = child.parent;
                Some(child.parent)
            },
            None => None,
        }
    }

    /// The ancestors that are left, nearest first.
    pub fn collect(self) -> (v: Vec<u64>)
        requires
            self.wf(),
        ensures
            v@ == self.remaining(),
    {
        let mut it = self;
        let mut v: Vec<u64> = Vec::new();
        let ghost all = it.remaining();
        loop
            invariant
                it.wf(),
                v@ + it.remaining() == all,
            ensures
                v@ == all,
            decreases it.remaining().len(),
        {
            let ghost left = it.remaining();
            match it.next() {
                Some(id) => {
                    v.push(id);
                    assert(v@ + it.remaining() =~= (v@.drop_last() + left));
                },
                None => {
                    assert(v@ + it.remaining() =~= v@);
                    break ;
                },
            }
        }
        v
    }
}

/// Every handle of the run that a frame stands for has a `Child` record.
pub open spec fn frame_ok(c: Map<u64, Child>, frame: (u64, usize)) -> bool {
    forall|i: int|
        0 <= i < frame.1 ==> c.contains_key(#[trigger] walk(c, frame.0, frame.1 as nat)[i])
}

/// The frames with that of the children of `e` behind them, where `e` has
/// children.
pub open spec fn with_children(l: Links, frames: Seq<(u64, usize)>, e: u64) -> Seq<(u64, usize)> {
    if l.parents.contains_key(e) {
        frames.push((l.parents[e].first_child, l.parents[e].num_children))
    } else {
        frames
    }
}

/// A frame one step on: at the `next` of its handle, with one handle less
/// left.
pub open spec fn stepped(c: Map<u64, Child>, frame: (u64, usize)) -> (u64, usize) {
    (c[frame.0].next, (frame.1 - 1) as usize)
}

/// A stack of frames without the frames on top that have no handle left.
pub open spec fn stack_live(frames: Seq<(u64, usize)>) -> Seq<(u64, usize)>
    decreases frames.len(),
{
    if frames.len() > 0 && frames.last().1 == 0 {
        stack_live(frames.drop_last())
    } else {
        frames
    }
}

/// A stack of frames after one step: the frames on top that have no handle
/// left are gone, the frame under them is one step on, and the frame of the
/// children of its handle lies on top of it.
pub open spec fn stack_after(l: Links, frames: Seq<(u64, usize)>) -> Seq<(u64, usize)> {
    let live = stack_live(frames);
    if live.len() == 0 {
        live
    } else {
        with_children(
            l,
            live.drop_last().push(stepped(l.children, live.last())),
            live.last().0,
        )
    }
}

/// A queue of frames without the frames in front that have no handle left.
pub open spec fn queue_live(frames: Seq<(u64, usize)>) -> Seq<(u64, usize)>
    decreases frames.len(),
{
    if frames.len() > 0 && frames[0].1 == 0 {
        queue_live(frames.drop_first())
    } else {
        frames
    }
}

/// A queue of frames after one step: the frames in front that have no
/// handle left are gone, the frame behind them is one step on and stays in
/// front, and the frame of the children of its handle is put at the back.
pub open spec fn queue_after(l: Links, frames: Seq<(u64, usize)>) -> Seq<(u64, usize)> {
    let live = queue_live(frames);
    if live.len() == 0 {
        live
    } else {
        with_children(l, seq![stepped(l.children, live[0])] + live.drop_first(), live[0].0)
    }
}

/// What a stack of frames stands for: the run of the top frame with all that
/// hangs below it, then that of the frame under it, and so on.
pub open spec fn stacked(l: Links, frames: Seq<(u64, usize)>) -> Seq<u64>
    decreases frames.len(),
{
    if frames.len() == 0 {
        Seq::empty()
    } else {
        l.preorder(walk(l.children, frames.last().0, frames.last().1 as nat), l.span()) + stacked(
            l,
            frames.drop_last(),
        )
    }
}

/// The runs of a queue of frames, front first.
pub open spec fn queued(c: Map<u64, Child>, frames: Seq<(u64, usize)>) -> Seq<u64>
    decreases frames.len(),
{
    if frames.len() == 0 {
        Seq::empty()
    } else {
        walk(c, frames[0].0, frames[0].1 as nat) + queued(c, frames.drop_first())
    }
}

/// A frame pushed at the back of a queue adds its run at the end.
pub proof fn lemma_queued_push(c: Map<u64, Child>, frames: Seq<(u64, usize)>, frame: (u64, usize))
    ensures
        queued(c, frames.push(frame)) == queued(c, frames) + walk(c, frame.0, frame.1 as nat),
    decreases frames.len(),
{
    if frames.len() == 0 {
        assert(frames.push(frame).drop_first() =~= frames);
        assert(queued(c, frames.push(frame)) =~= queued(c, frames) + walk(
            c,
            frame.0,
            frame.1 as nat,
        ));
    } else {
        assert(frames.push(frame).drop_first() =~= frames.drop_first().push(frame));
        lemma_queued_push(c, frames.drop_first(), frame);
        assert(queued(c, frames.push(frame)) =~= queued(c, frames) + walk(
            c,
            frame.0,
            frame.1 as nat,
        ));
    }
}

/// The handles of a queue of good frames have `Child` records.
pub proof fn lemma_queued_fits(l: Links, frames: Seq<(u64, usize)>)
    requires
        l.acyclic(),
        forall|k: int| 0 <= k < frames.len() ==> #[trigger] frame_ok(l.children, frames[k]),
    ensures
        l.fits(ranking(l.children).0, ranking(l.children).1, queued(l.children, frames), l.span()),
    decreases frames.len(),
{
    lemma_ranking(l.children);
    if frames.len() > 0 {
        let c = l.children;
        let w = walk(c, frames[0].0, frames[0].1 as nat);
        let rest = queued(c, frames.drop_first());
        assert forall|k: int| 0 <= k < frames.drop_first().len() implies #[trigger] frame_ok(
            c,
            frames.drop_first()[k],
        ) by {
            assert(frame_ok(c, frames[k + 1]));
        }
        lemma_queued_fits(l, frames.drop_first());
        lemma_walk(c, frames[0].0, frames[0].1 as nat);
        assert(frame_ok(c, frames[0]));
        assert forall|i: int| 0 <= i < (w + rest).len() implies c.contains_key(
            #[trigger] (w + rest)[i],
        ) by {
            if i < w.len() {
                assert((w + rest)[i] == w[i]);
            } else {
                assert((w + rest)[i] == rest[i - w.len()]);
            }
        }
    }
}

/// A cursor over the descendants of one entity, depth first: a stack of
/// frames, each the next sibling on one level and how many are left there.
pub struct DescendantsDepthFirstIter<'t, 'a> {
    pub parent_storage: &'t ParentTable<'a>,
    pub child_storage: &'t ChildTable<'a>,
    pub cursors: Vec<(u64, usize)>,
}

impl<'t, 'a> DescendantsDepthFirstIter<'t, 'a> {
    /// The records that the cursor reads.
    pub open spec fn links(&self) -> Links {
        Links {
            parents: parent_records(*self.parent_storage),
            children: child_records(*self.child_storage),
        }
    }

    /// The handles that the cursor has yet to give.
    pub open spec fn remaining(&self) -> Seq<u64> {
        stacked(self.links(), self.cursors@)
    }

    /// The records are linked and have no cycle, and the frames stand for
    /// runs of siblings.
    pub open spec fn wf(&self) -> bool {
        &&& self.links().linked()
        &&& self.links().acyclic()
        &&& forall|k: int|
            0 <= k < self.cursors@.len() ==> #[trigger] frame_ok(
                self.links().children,
                self.cursors@[k],
            )
    }

    /// The next descendant, or `None` when all were given: the frames on top
    /// that have no handle left are popped; the frame under them gives its
    /// handle and moves one step on; where that handle has children, their
    /// frame is pushed on top.
    pub fn next(&mut self) -> (r: Option<u64>)
        requires
            old(self).wf(),
        ensures
            final(self).wf(),
            final(self).parent_storage == old(self).parent_storage,
            final(self).child_storage == old(self).child_storage,
            r == if stack_live(old(self).cursors@).len() > 0 {
                Some(stack_live(old(self).cursors@).last().0)
            } else {
                None
            },
            final(self).cursors@ == stack_after(old(self).links(), old(self).cursors@),
            r == if old(self).remaining().len() > 0 {
                Some(old(self).remaining()[0])
            } else {
                None
            },
            final(self).remaining() == if old(self).remaining().len() > 0 {
                old(self).remaining().drop_first()
            } else {
                old(self).remaining()
            },
    {
        let ghost l = self.links();
        let ghost c = l.children;
        loop
            invariant
                self.wf(),
                self.links() == l,
                c == l.children,
                self.parent_storage == old(self).parent_storage,
                self.child_storage == old(self).child_storage,
                self.remaining() == old(self).remaining(),
                stack_live(self.cursors@) == stack_live(old(self).cursors@),
            decreases self.cursors.len(),
        {
            let ghost frames = self.cursors@;
            match self.cursors.pop() {
                None => {
                    assert(stack_live(frames) =~= frames);
                    return None;
                },
                Some((entity, num_children)) => {
                    let ghost rest = self.cursors@;
                    assert(rest =~= frames.drop_last());
                    assert(frames.last() == (entity, num_children));
                    assert(frame_ok(c, frames[frames.len() - 1]));
                    assert forall|k: int| 0 <= k < rest.len() implies #[trigger] frame_ok(
                        c,
                        rest[k],
                    ) by {
                        assert(frame_ok(c, frames[k]));
                    }
                    if num_children > 0 {
                        assert(stack_live(frames) == frames);
                        let ghost run = walk(c, entity, num_children as nat);
                        proof {
                            lemma_walk(c, entity, num_children as nat);
                            assert(run[0] == entity);
                            assert(l.child_ok(entity));
                        }
                        match child_get(self.child_storage, entity) {
                            Some(child) => {
                                let ghost tail = walk(c, child.next, (num_children - 1) as nat);
                                let ghost kids = l.children_of(entity);
                                proof {
                                    lemma_ranking(c);
                                    let (rank, top) = ranking(c);
                                    assert(run.drop_first() =~= tail);
                                    l.lemma_fits_children(rank, top, entity, top);
                                    l.lemma_fits_children(rank, top, entity, l.span());
                                    l.lemma_preorder_fuel(rank, top, kids, top, l.span());
                                    lemma_walk(c, child.next, (num_children - 1) as nat);
                                    assert forall|i: int| 0 <= i < num_children - 1 implies c.contains_key(
                                    #[trigger] tail[i]) by {
                                        assert(tail[i] == run[i + 1]);
                                    }
                                }
                                self.cursors.push((child.next, num_children - 1));
                                let ghost mid = self.cursors@;
                                proof {
                                    assert(mid.drop_last() =~= rest);
                                    assert(stacked(l, mid) == l.preorder(tail, l.span()) + stacked(
                                        l,
                                        rest,
                                    ));
                                }
                                match parent_get(self.parent_storage, entity) {
                                    Some(parent) => {
                                        self.cursors.push((parent.first_child, parent.num_children));
                                        proof {
                                            let top_frames = self.cursors@;
                                            assert(top_frames.drop_last() =~= mid);
                                            assert(l.ring_ok(entity));
                                            assert forall|i: int|
                                                0 <= i < parent.num_children implies c.contains_key(
                                            #[trigger] kids[i]) by {
                                                assert(l.link_ok(entity, kids, i));
                                            }
                                            assert forall|k: int|
                                                0 <= k < top_frames.len() implies #[trigger] frame_ok(
                                                c,
                                                top_frames[k],
                                            ) by {
                                                if k < rest.len() {
                                                    assert(frame_ok(c, rest[k]));
                                                }
                                            }
                                        }
                                    },
                                    None => {
                                        proof {
                                            assert(kids =~= Seq::<u64>::empty());
                                            assert forall|k: int|
                                                0 <= k < mid.len() implies #[trigger] frame_ok(
                                                c,
                                                mid[k],
                                            ) by {
                                                if k < rest.len() {
                                                    assert(frame_ok(c, rest[k]));
                                                }
                                            }
                                        }
                                    },
                                }
                                proof {
                                    let before = old(self).remaining();
                                    assert(before == l.preorder(run, l.span()) + stacked(l, rest));
                                    assert(l.preorder(run, l.span()) == seq![entity] + l.preorder(
                                        kids,
                                        (l.span() - 1) as nat,
                                    ) + l.preorder(tail, l.span()));
                                    assert(self.remaining() =~= l.preorder(kids, l.span())
                                        + l.preorder(tail, l.span()) + stacked(l, rest));
                                    assert(before.drop_first() =~= self.remaining());
                                    assert(before.len() > 0);
                                    assert(self.cursors@ =~= stack_after(l, frames));
                                }
                                return Some(entity);
                            },
                            None => {
                                return None;
                            },
                        }
                    } else {
                        assert(walk(c, entity, 0) =~= Seq::<u64>::empty());
                        assert(stacked(l, frames) =~= stacked(l, rest));
                        assert(stack_live(frames) == stack_live(rest));
                    }
                },
            }
        }
    }

    /// The descendants that are left, in depth-first order.
    pub fn collect(self) -> (v: Vec<u64>)
        requires
            self.wf(),
        ensures
            v@ == self.remaining(),
    {
        let mut it = self;
        let mut v: Vec<u64> = Vec::new();
        let ghost all = it.remaining();
        loop
            invariant
                it.wf(),
                v@ + it.remaining() == all,
            ensures
                v@ == all,
            decreases it.remaining().len(),
        {
            let ghost left = it.remaining();
            match it.next() {
                Some(id) => {
                    v.push(id);
                    assert(v@ + it.remaining() =~= (v@.drop_last() + left));
                },
                None => {
                    assert(v@ + it.remaining() =~= v@);
                    break ;
                },
            }
        }
        v
    }
}

/// A cursor over the descendants of one entity, breadth first: a queue of
/// frames, each the next sibling on one level and how many are left there.
pub struct DescendantsBreadthFirstIter<'t, 'a> {
    pub parent_storage: &'t ParentTable<'a>,
    pub child_storage: &'t ChildTable<'a>,
    pub cursors: VecDeque<(u64, usize)>,
}

impl<'t, 'a> DescendantsBreadthFirstIter<'t, 'a> {
    /// The records that the cursor reads.
    pub open spec fn links(&self) -> Links {
        Links {
            parents: parent_records(*self.parent_storage),
            children: child_records(*self.child_storage),
        }
    }

    /// The handles that the cursor has yet to give.
    pub open spec fn remaining(&self) -> Seq<u64> {
        self.links().level_order(queued(self.links().children, self.cursors@), self.links().span())
    }

    /// The records are linked and have no cycle, and the frames stand for
    /// runs of siblings.
    pub open spec fn wf(&self) -> bool {
        &&& self.links().linked()
        &&& self.links().acyclic()
        &&& forall|k: int|
            0 <= k < self.cursors@.len() ==> #[trigger] frame_ok(
                self.links().children,
                self.cursors@[k],
            )
    }

    /// The next descendant, or `None` when all were given: the frames in
    /// front that have no handle left are taken off; the frame behind them
    /// gives its handle, moves one step on and stays in front; where that
    /// handle has children, their frame is put at the back.
    pub fn next(&mut self) -> (r: Option<u64>)
        requires
            old(self).wf(),
        ensures
            final(self).wf(),
            final(self).parent_storage == old(self).parent_storage,
            final(self).child_storage == old(self).child_storage,
            r == if queue_live(old(self).cursors@).len() > 0 {
                Some(queue_live(old(self).cursors@)[0].0)
            } else {
                None
            },
            final(self).cursors@ == queue_after(old(self).links(), old(self).cursors@),
            r == if old(self).remaining().len() > 0 {
                Some(old(self).remaining()[0])
            } else {
                None
            },
            final(self).remaining() == if old(self).remaining().len() > 0 {
                old(self).remaining().drop_first()
            } else {
                old(self).remaining()
            },
    {
        let ghost l = self.links();
        let ghost c = l.children;
        loop
            invariant
                self.wf(),
                self.links() == l,
                c == l.children,
                self.parent_storage == old(self).parent_storage,
                self.child_storage == old(self).child_storage,
                self.remaining() == old(self).remaining(),
                queue_live(self.cursors@) == queue_live(old(self).cursors@),
            decreases self.cursors.len(),
        {
            let ghost frames = self.cursors@;
            match self.cursors.pop_front() {
                None => {
                    assert(queue_live(frames) =~= frames);
                    return None;
                },
                Some((entity, num_children)) => {
                    let ghost rest = self.cursors@;
                    assert(rest =~= frames.drop_first());
                    assert(frames[0] == (entity, num_children));
                    assert(frame_ok(c, frames[0]));
                    assert forall|k: int| 0 <= k < rest.len() implies #[trigger] frame_ok(
                        c,
                        rest[k],
                    ) by {
                        assert(frame_ok(c, frames[k + 1]));
                    }
                    if num_children > 0 {
                        assert(queue_live(frames) == frames);
                        let ghost run = walk(c, entity, num_children as nat);
                        proof {
                            lemma_walk(c, entity, num_children as nat);
                            assert(run[0] == entity);
                            assert(l.child_ok(entity));
                        }
                        match child_get(self.child_storage, entity) {
                            Some(child) => {
                                let ghost tail = walk(c, child.next, (num_children - 1) as nat);
                                let ghost kids = l.children_of(entity);
                                proof {
                                    assert(run.drop_first() =~= tail);
                                    assert(run =~= seq![entity] + tail);
                                    lemma_walk(c, child.next, (num_children - 1) as nat);
                                    assert forall|i: int| 0 <= i < num_children - 1 implies c.contains_key(
                                    #[trigger] tail[i]) by {
                                        assert(tail[i] == run[i + 1]);
                                    }
                                }
                                self.cursors.push_front((child.next, num_children - 1));
                                let ghost mid = self.cursors@;
                                proof {
                                    assert(mid.drop_first() =~= rest);
                                    assert(queued(c, mid) == tail + queued(c, rest));
                                    assert forall|k: int| 0 <= k < mid.len() implies #[trigger] frame_ok(
                                        c,
                                        mid[k],
                                    ) by {
                                        if k > 0 {
                                            assert(frame_ok(c, rest[k - 1]));
                                        }
                                    }
                                }
                                match parent_get(self.parent_storage, entity) {
                                    Some(parent) => {
                                        self.cursors.push_back((parent.first_child, parent.num_children));
                                        proof {
                                            let all_frames = self.cursors@;
                                            assert(all_frames =~= mid.push(
                                                (parent.first_child, parent.num_children),
                                            ));
                                            lemma_queued_push(
                                                c,
                                                mid,
                                                (parent.first_child, parent.num_children),
                                            );
                                            assert(l.ring_ok(entity));
                                            assert forall|i: int|
                                                0 <= i < parent.num_children implies c.contains_key(
                                            #[trigger] kids[i]) by {
                                                assert(l.link_ok(entity, kids, i));
                                            }
                                            assert forall|k: int|
                                                0 <= k < all_frames.len() implies #[trigger] frame_ok(
                                                c,
                                                all_frames[k],
                                            ) by {
                                                if k < mid.len() {
                                                    assert(frame_ok(c, mid[k]));
                                                }
                                            }
                                        }
                                    },
                                    None => {
                                        proof {
                                            assert(kids =~= Seq::<u64>::empty());
                                            assert(queued(c, mid) + kids =~= queued(c, mid));
                                        }
                                    },
                                }
                                proof {
                                    let before = old(self).remaining();
                                    let a = seq![entity];
                                    let b = tail + queued(c, rest);
                                    lemma_ranking(c);
                                    let (rank, top) = ranking(c);
                                    lemma_queued_fits(l, frames);
                                    assert(queued(c, frames) =~= a + b);
                                    assert(a.drop_first() =~= Seq::<u64>::empty());
                                    assert(l.next_level(Seq::<u64>::empty()) =~= Seq::<u64>::empty());
                                    assert(l.next_level(a) =~= kids);
                                    l.lemma_level_order_shift(rank, top, a, b, l.span());
                                    assert(queued(c, self.cursors@) == b + kids);
                                    assert(before == a + self.remaining());
                                    assert(before.drop_first() =~= self.remaining());
                                    assert(before.len() > 0);
                                    assert(self.cursors@ =~= queue_after(l, frames));
                                }
                                return Some(entity);
                            },
                            None => {
                                return None;
                            },
                        }
                    } else {
                        assert(walk(c, entity, 0) =~= Seq::<u64>::empty());
                        assert(queued(c, frames) =~= queued(c, rest));
                        assert(queue_live(frames) == queue_live(rest));
                    }
                },
            }
        }
    }

    /// The descendants that are left, in breadth-first order.
    pub fn collect(self) -> (v: Vec<u64>)
        requires
            self.wf(),
        ensures
            v@ == self.remaining(),
    {
        let mut it = self;
        let mut v: Vec<u64> = Vec::new();
        let ghost all = it.remaining();
        loop
            invariant
                it.wf(),
                v@ + it.remaining() == all,
            ensures
                v@ == all,
            decreases it.remaining().len(),
        {
            let ghost left = it.remaining();
            match it.next() {
                Some(id) => {
                    v.push(id);
                    assert(v@ + it.remaining() =~= (v@.drop_last() + left));
                },
                None => {
                    assert(v@ + it.remaining() =~= v@);
                    break ;
                },
            }
        }
        v
    }
}

/// The cursors that a hierarchy gives.
pub trait HierarchyIter<'a>: View<V = Links> + Sized {
    /// A cursor over the ancestors of `id`, nearest first.
    fn ancestors<'t>(&'t self, id: u64) -> (it: AncestorIter<'t, 'a>)
        requires
            valid_handle(id),
            self@.wf(),
            self@.acyclic(),
        ensures
            it.wf(),
            it.cursor == id,
            it.remaining() == self@.ancestors_of(id),
            child_records(*it.child_storage) == self@.children,
    ;

    /// A cursor over the descendants of `id`, each parent before its
    /// children and each subtree before the next sibling.
    fn descendants_depth_first<'t>(&'t self, id: u64) -> (it: DescendantsDepthFirstIter<'t, 'a>)
        requires
            valid_handle(id),
            self@.wf(),
            self@.acyclic(),
        ensures
            it.wf(),
            it.cursors@ == with_children(self@, Seq::empty(), id),
            it.remaining() == self@.descendants_depth_first_of(id),
            it.links() == self@,
    ;

    /// A cursor over the descendants of `id`, level by level.
    fn descendants_breadth_first<'t>(&'t self, id: u64) -> (it: DescendantsBreadthFirstIter<
        't,
        'a,
    >)
        requires
            valid_handle(id),
            self@.wf(),
            self@.acyclic(),
        ensures
            it.wf(),
            it.cursors@ == with_children(self@, Seq::empty(), id),
            it.remaining() == self@.descendants_breadth_first_of(id),
            it.links() == self@,
    ;

    /// A cursor over the children of `id`, first child first.
    fn children<'t>(&'t self, id: u64) -> (it: ChildrenIter<'t, 'a>)
        requires
            valid_handle(id),
            self@.wf(),
        ensures
            it.wf(),
            it.cursor == if self@.parents.contains_key(id) {
                (self@.parents[id].first_child, self@.parents[id].num_children)
            } else {
                (id, 0usize)
            },
            it.remaining() == self@.children_of(id),
            child_records(*it.child_storage) == self@.children,
    ;
}

impl<'a> HierarchyIter<'a> for Hierarchy<'a> {
    fn ancestors<'t>(&'t self, id: u64) -> (it: AncestorIter<'t, 'a>) {
        proof {
            assert forall|x: u64| #[trigger] self@.children.contains_key(x) implies valid_handle(
                self@.children[x].parent,
            ) by {
                assert(self@.child_ok(x));
            }
        }
        AncestorIter { child_storage: &self.children, cursor: id }
    }

    fn descendants_depth_first<'t>(&'t self, id: u64) -> (it: DescendantsDepthFirstIter<'t, 'a>) {
        let mut cursors: Vec<(u64, usize)> = Vec::new();
        let ghost kids = self@.children_of(id);
        match parent_get(&self.parents, id) {
            Some(parent) => {
                cursors.push((parent.first_child, parent.num_children));
                proof {
                    assert(self@.ring_ok(id));
                    assert forall|i: int| 0 <= i < parent.num_children implies self@.children.contains_key(
                    #[trigger] kids[i]) by {
                        assert(self@.link_ok(id, kids, i));
                    }
                    assert(cursors@.drop_last() =~= Seq::<(u64, usize)>::empty());
                    assert(stacked(self@, Seq::<(u64, usize)>::empty()) =~= Seq::<u64>::empty());
                    assert(stacked(self@, cursors@) =~= self@.preorder(kids, self@.span()));
                }
            },
            None => {
                assert(kids =~= Seq::<u64>::empty());
            },
        }
        DescendantsDepthFirstIter {
            parent_storage: &self.parents,
            child_storage: &self.children,
            cursors,
        }
    }

    fn descendants_breadth_first<'t>(&'t self, id: u64) -> (it: DescendantsBreadthFirstIter<
        't,
        'a,
    >) {
        let mut cursors: VecDeque<(u64, usize)> = VecDeque::new();
        let ghost kids = self@.children_of(id);
        match parent_get(&self.parents, id) {
            Some(parent) => {
                cursors.push_front((parent.first_child, parent.num_children));
                proof {
                    assert(self@.ring_ok(id));
                    assert forall|i: int| 0 <= i < parent.num_children implies self@.children.contains_key(
                    #[trigger] kids[i]) by {
                        assert(self@.link_ok(id, kids, i));
                    }
                    assert(cursors@.drop_first() =~= Seq::<(u64, usize)>::empty());
                    assert(queued(self@.children, Seq::<(u64, usize)>::empty()) =~= Seq::<
                        u64,
                    >::empty());
                    assert(queued(self@.children, cursors@) =~= kids);
                }
            },
            None => {
                assert(kids =~= Seq::<u64>::empty());
            },
        }
        DescendantsBreadthFirstIter {
            parent_storage: &self.parents,
            child_storage: &self.children,
            cursors,
        }
    }

    fn children<'t>(&'t self, id: u64) -> (it: ChildrenIter<'t, 'a>) {
        let cursor = match parent_get(&self.parents, id) {
            Some(parent) => (parent.first_child, parent.num_children),
            None => (id, 0),
        };
        let it = ChildrenIter { child_storage: &self.children, cursor };
        proof {
            let s = self@.children_of(id);
            if self@.parents.contains_key(id) {
                assert(self@.ring_ok(id));
                assert forall|i: int| 0 <= i < s.len() implies valid_handle(#[trigger] s[i])
                    && self@.children.contains_key(s[i]) by {
                    assert(self@.link_ok(id, s, i));
                    assert(self@.child_ok(s[i]));
                }
            }
        }
        it
    }
}

} // verus!
