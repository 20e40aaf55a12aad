//! A hierarchy as text: one line for each entity, indented by its depth.
use crate::handle::valid_handle;
use crate::hierarchy::Hierarchy;
use crate::iter::frame_ok;
use crate::links::{lemma_walk, walk, Links};
use crate::order::{lemma_ranking, ranking};
use crate::tables::{child_get, parent_get};
use vstd::prelude::*;
use vstd::string::StringExecFns;

verus! {

impl Links {
    /// The handles of `s` in order, each with its depth and followed by all
    /// that hangs below it, one level deeper each time, down to `fuel`
    /// levels.
    pub open spec fn leveled(self, s: Seq<u64>, depth: nat, fuel: nat) -> Seq<(u64, nat)>
        decreases fuel, s.len(),
    {
        if s.len() == 0 || fuel == 0 {
            Seq::empty()
        } else {
            seq![(s[0], depth)] + self.leveled(
                self.children_of(s[0]),
                depth + 1,
                (fuel - 1) as nat,
            ) + self.leveled(s.drop_first(), depth, fuel)
        }
    }

    /// `root` at depth 0, then its descendants depth first, each with its
    /// depth below `root`.
    pub open spec fn outline_of(self, root: u64) -> Seq<(u64, nat)> {
        seq![(root, 0nat)] + self.leveled(self.children_of(root), 1, self.span())
    }

    /// With enough steps, more steps give the same outline.
    pub proof fn lemma_leveled_fuel(
        self,
        rank: spec_fn(u64) -> nat,
        top: nat,
        s: Seq<u64>,
        depth: nat,
        f1: nat,
        f2: nat,
    )
        requires
            self.linked(),
            self.ranked(rank, top),
            self.fits(rank, top, s, f1),
            self.fits(rank, top, s, f2),
        ensures
            self.leveled(s, depth, f1) == self.leveled(s, depth, f2),
        decreases f1, s.len(),
    {
        if s.len() > 0 {
            assert(self.children.contains_key(s[0]));
            let k = self.children_of(s[0]);
            let rest = s.drop_first();
            self.lemma_fits_children(rank, top, s[0], (f1 - 1) as nat);
            self.lemma_fits_children(rank, top, s[0], (f2 - 1) as nat);
            self.lemma_leveled_fuel(rank, top, k, depth + 1, (f1 - 1) as nat, (f2 - 1) as nat);
            assert forall|i: int| 0 <= i < rest.len() implies self.children.contains_key(
                #[trigger] rest[i],
            ) && f1 + rank(rest[i]) > top && f2 + rank(rest[i]) > top by {
                assert(rest[i] == s[i + 1]);
            }
            self.lemma_leveled_fuel(rank, top, rest, depth, f1, f2);
        }
    }

    /// An outline names the handles of the depth-first order, in that order.
    pub proof fn lemma_leveled_handles(self, s: Seq<u64>, depth: nat, fuel: nat)
        ensures
            self.leveled(s, depth, fuel).map_values(|p: (u64, nat)| p.0) == self.preorder(s, fuel),
        decreases fuel, s.len(),
    {
        let first = |p: (u64, nat)| p.0;
        if s.len() == 0 || fuel == 0 {
            assert(self.leveled(s, depth, fuel).map_values(first) =~= self.preorder(s, fuel));
        } else {
            let a = seq![(s[0], depth)];
            let b = self.leveled(self.children_of(s[0]), depth + 1, (fuel - 1) as nat);
            let c = self.leveled(s.drop_first(), depth, fuel);
            self.lemma_leveled_handles(self.children_of(s[0]), depth + 1, (fuel - 1) as nat);
            self.lemma_leveled_handles(s.drop_first(), depth, fuel);
            assert((a + b + c).map_values(first) =~= a.map_values(first) + b.map_values(first)
                + c.map_values(first));
            assert(a.map_values(first) =~= seq![s[0]]);
        }
    }
}

impl Links {
    /// In an outline that starts on one level, each handle stands as much
    /// deeper than the first line as it has more ancestors.
    pub proof fn lemma_leveled_depths(self, s: Seq<u64>, level: nat, depth: nat, fuel: nat)
        requires
            self.linked(),
            self.acyclic(),
            self.on_level(s, level),
        ensures
            forall|i: int|
                0 <= i < self.leveled(s, depth, fuel).len() ==> (#[trigger] self.leveled(
                    s,
                    depth,
                    fuel,
                )[i]).1 + level == self.depth_of(self.leveled(s, depth, fuel)[i].0) + depth,
        decreases fuel, s.len(),
    {
        if s.len() > 0 && fuel > 0 {
            let a = seq![(s[0], depth)];
            let b = self.leveled(self.children_of(s[0]), depth + 1, (fuel - 1) as nat);
            let c = self.leveled(s.drop_first(), depth, fuel);
            let rest = s.drop_first();
            assert(self.depth_of(s[0]) == level);
            self.lemma_children_on_level(s[0]);
            self.lemma_leveled_depths(self.children_of(s[0]), level + 1, depth + 1, (fuel - 1) as nat);
            assert forall|i: int| 0 <= i < rest.len() implies self.children.contains_key(
                #[trigger] rest[i],
            ) && self.depth_of(rest[i]) == level by {
                assert(rest[i] == s[i + 1]);
            }
            self.lemma_leveled_depths(rest, level, depth, fuel);
            let out = a + b + c;
            assert forall|i: int| 0 <= i < out.len() implies (#[trigger] out[i]).1 + level
                == self.depth_of(out[i].0) + depth by {
                if i < 1 {
                    assert(out[i] == a[i]);
                } else if i < 1 + b.len() {
                    assert(out[i] == b[i - 1]);
                } else {
                    assert(out[i] == c[i - 1 - b.len()]);
                }
            }
        }
    }

    /// The outline of `root` names `root` and then its descendants in
    /// depth-first order, and gives each handle the number of ancestors that
    /// it has more than `root`.
    pub proof fn lemma_outline(self, root: u64)
        requires
            self.linked(),
            self.acyclic(),
        ensures
            self.outline_of(root).map_values(|p: (u64, nat)| p.0) == seq![root]
                + self.descendants_depth_first_of(root),
            forall|i: int|
                0 <= i < self.outline_of(root).len() ==> (#[trigger] self.outline_of(root)[i]).1
                    + self.depth_of(root) == self.depth_of(self.outline_of(root)[i].0),
    {
        let first = |p: (u64, nat)| p.0;
        let head = seq![(root, 0nat)];
        let body = self.leveled(self.children_of(root), 1, self.span());
        self.lemma_leveled_handles(self.children_of(root), 1, self.span());
        assert((head + body).map_values(first) =~= head.map_values(first) + body.map_values(first));
        assert(head.map_values(first) =~= seq![root]);
        self.lemma_children_on_level(root);
        self.lemma_leveled_depths(self.children_of(root), self.depth_of(root) + 1, 1, self.span());
        assert forall|i: int| 0 <= i < (head + body).len() implies (#[trigger] (head + body)[i]).1
            + self.depth_of(root) == self.depth_of((head + body)[i].0) by {
            if i >= 1 {
                assert((head + body)[i] == body[i - 1]);
            }
        }
    }
}

/// What a stack of frames stands for in an outline: the run of the top
/// frame with all that hangs below it, then that of the frame under it, each
/// run at the depth of its frame.
pub open spec fn stacked_leveled(l: Links, frames: Seq<(u64, usize)>) -> Seq<(u64, nat)>
    decreases frames.len(),
{
    if frames.len() == 0 {
        Seq::empty()
    } else {
        l.leveled(
            walk(l.children, frames.last().0, frames.last().1 as nat),
            frames.len(),
            l.span(),
        ) + stacked_leveled(l, frames.drop_last())
    }
}

/// The lines of an outline as the numbers they stand for.
pub open spec fn as_outline(lines: Seq<(u64, usize)>) -> Seq<(u64, nat)> {
    lines.map_values(|p: (u64, usize)| (p.0, p.1 as nat))
}

/// `root` and its descendants depth first, each with its depth below
/// `root`.
pub fn outline(hierarchy: &Hierarchy<'_>, root: u64) -> (lines: Vec<(u64, usize)>)
    requires
        valid_handle(root),
        hierarchy@.wf(),
        hierarchy@.acyclic(),
    ensures
        as_outline(lines@) == hierarchy@.outline_of(root),
{
    let ghost l = hierarchy@;
    let ghost c = l.children;
    let mut lines: Vec<(u64, usize)> = Vec::new();
    lines.push((root, 0));
    let mut stack: Vec<(u64, usize)> = Vec::new();
    let ghost kids = l.children_of(root);
    match parent_get(&hierarchy.parents, root) {
        Some(parent) => {
            stack.push((parent.first_child, parent.num_children));
            proof {
                assert(l.ring_ok(root));
                assert forall|i: int| 0 <= i < parent.num_children implies c.contains_key(
                    #[trigger] kids[i],
                ) by {
                    assert(l.link_ok(root, kids, i));
                }
                assert(stack@.drop_last() =~= Seq::<(u64, usize)>::empty());
                assert(stacked_leveled(l, Seq::<(u64, usize)>::empty()) =~= Seq::<
                    (u64, nat),
                >::empty());
                assert(stacked_leveled(l, stack@) =~= l.leveled(kids, 1, l.span()));
            }
        },
        None => {
            assert(kids =~= Seq::<u64>::empty());
        },
    }
    proof {
        assert(as_outline(lines@) =~= seq![(root, 0nat)]);
    }
    loop
        invariant
            l == hierarchy@,
            c == l.children,
            l.wf(),
            l.acyclic(),
            forall|k: int| 0 <= k < stack@.len() ==> #[trigger] frame_ok(c, stack@[k]),
            as_outline(lines@) + stacked_leveled(l, stack@) == l.outline_of(root),
        ensures
            as_outline(lines@) == l.outline_of(root),
        decreases stacked_leveled(l, stack@).len(), stack@.len(),
    {
        let ghost frames = stack@;
        let ghost done = as_outline(lines@);
        match stack.pop() {
            None => {
                assert(done + stacked_leveled(l, frames) =~= done);
                break ;
            },
            Some((entity, num_children)) => {
                let ghost rest = stack@;
                assert(rest =~= frames.drop_last());
                assert(frames.last() == (entity, num_children));
                assert(frame_ok(c, frames[frames.len() - 1]));
                assert forall|k: int| 0 <= k < rest.len() implies #[trigger] frame_ok(c, rest[k]) by {
                    assert(frame_ok(c, frames[k]));
                }
                if num_children > 0 {
                    let ghost run = walk(c, entity, num_children as nat);
                    proof {
                        lemma_walk(c, entity, num_children as nat);
                        assert(run[0] == entity);
                        assert(l.child_ok(entity));
                    }
                    let child = child_get(&hierarchy.children, entity).unwrap();
                    let ghost tail = walk(c, child.next, (num_children - 1) as nat);
                    let ghost below = l.children_of(entity);
                    let ghost depth = frames.len();
                    proof {
                        lemma_ranking(c);
                        let (rank, top) = ranking(c);
                        assert(run.drop_first() =~= tail);
                        l.lemma_fits_children(rank, top, entity, top);
                        l.lemma_fits_children(rank, top, entity, l.span());
                        l.lemma_leveled_fuel(rank, top, below, depth + 1, top, l.span());
                        lemma_walk(c, child.next, (num_children - 1) as nat);
                        assert forall|i: int| 0 <= i < num_children - 1 implies c.contains_key(
                            #[trigger] tail[i],
                        ) by {
                            assert(tail[i] == run[i + 1]);
                        }
                    }
                    stack.push((child.next, num_children - 1));
                    let ghost mid = stack@;
                    let depth_now = stack.len();
                    lines.push((entity, depth_now));
                    proof {
                        assert(mid.drop_last() =~= rest);
                        assert(stacked_leveled(l, mid) == l.leveled(tail, depth, l.span())
                            + stacked_leveled(l, rest));
                        assert(as_outline(lines@) =~= done.push((entity, depth)));
                    }
                    match parent_get(&hierarchy.parents, entity) {
                        Some(parent) => {
                            stack.push((parent.first_child, parent.num_children));
                            proof {
                                let top_frames = stack@;
                                assert(top_frames.drop_last() =~= mid);
                                assert(l.ring_ok(entity));
                                assert forall|i: int|
                                    0 <= i < parent.num_children implies c.contains_key(
                                    #[trigger] below[i],
                                ) by {
                                    assert(l.link_ok(entity, below, i));
                                }
                                assert forall|k: int|
                                    0 <= k < top_frames.len() implies #[trigger] frame_ok(
                                    c,
                                    top_frames[k],
                                ) by {
                                    if k < rest.len() {
                                        assert(frame_ok(c, rest[k]));
                                    }
                                }
                            }
                        },
                        None => {
                            proof {
                                assert(below =~= Seq::<u64>::empty());
                                assert forall|k: int| 0 <= k < mid.len() implies #[trigger] frame_ok(
                                    c,
                                    mid[k],
                                ) by {
                                    if k < rest.len() {
                                        assert(frame_ok(c, rest[k]));
                                    }
                                }
                            }
                        },
                    }
                    proof {
                        let before = stacked_leveled(l, frames);
                        assert(before == l.leveled(run, depth, l.span()) + stacked_leveled(l, rest));
                        assert(l.leveled(run, depth, l.span()) == seq![(entity, depth)] + l.leveled(
                            below,
                            depth + 1,
                            (l.span() - 1) as nat,
                        ) + l.leveled(tail, depth, l.span()));
                        assert(stacked_leveled(l, stack@) =~= l.leveled(below, depth + 1, l.span())
                            + l.leveled(tail, depth, l.span()) + stacked_leveled(l, rest));
                        assert(before =~= seq![(entity, depth)] + stacked_leveled(l, stack@));
                        assert(as_outline(lines@) + stacked_leveled(l, stack@) =~= done + before);
                    }
                } else {
                    assert(walk(c, entity, 0) =~= Seq::<u64>::empty());
                    assert(stacked_leveled(l, frames) =~= stacked_leveled(l, rest));
                }
            },
        }
    }
    lines
}

/// `depth` times two spaces.
pub open spec fn indent(depth: nat) -> Seq<char>
    decreases depth,
{
    if depth == 0 {
        Seq::empty()
    } else {
        indent((depth - 1) as nat) + seq![' ', ' ']
    }
}

/// The text of the lines before `n`: for each its indent, its label and a
/// line feed.
pub open spec fn page(lines: Seq<(u64, usize)>, labels: Seq<String>, n: nat) -> Seq<char>
    decreases n,
{
    if n == 0 {
        Seq::empty()
    } else {
        page(lines, labels, (n - 1) as nat) + indent(lines[n - 1].1 as nat) + labels[n - 1]@
            + seq!['\n']
    }
}

/// An outline and the function that labels its lines.
pub struct DebugHierarchyTree<F> {
    pub lines: Vec<(u64, usize)>,
    pub get_label: F,
}

impl<F: Fn(u64) -> String> DebugHierarchyTree<F> {
    /// The outline as text: one line for each entity, indented by two
    /// spaces for each level of its depth, with the label that `get_label`
    /// gives it. `get_label` is asked about the entities of the outline
    /// only.
    pub fn render(&self) -> (text: String)
        requires
            forall|i: int|
                0 <= i < self.lines@.len() ==> call_requires(
                    self.get_label,
                    (#[trigger] self.lines@[i].0,),
                ),
        ensures
            exists|labels: Seq<String>|
                {
                    &&& labels.len() == self.lines@.len()
                    &&& forall|i: int|
                        0 <= i < labels.len() ==> call_ensures(
                            self.get_label,
                            (self.lines@[i].0,),
                            #[trigger] labels[i],
                        )
                    &&& text@ == page(self.lines@, labels, labels.len())
                },
    {
        let mut text = String::new();
        let ghost mut labels: Seq<String> = Seq::empty();
        let mut i: usize = 0;
        while i < self.lines.len()
            invariant
                0 <= i <= self.lines@.len(),
                forall|k: int|
                    0 <= k < self.lines@.len() ==> call_requires(
                        self.get_label,
                        (#[trigger] self.lines@[k].0,),
                    ),
                labels.len() == i,
                forall|k: int|
                    0 <= k < i ==> call_ensures(
                        self.get_label,
                        (self.lines@[k].0,),
                        #[trigger] labels[k],
                    ),
                text@ == page(self.lines@, labels, i as nat),
            decreases self.lines@.len() - i,
        {
            let (id, depth) = self.lines[i];
            let ghost so_far = text@;
            let mut d: usize = 0;
            while d < depth
                invariant
                    0 <= d <= depth,
                    text@ == so_far + indent(d as nat),
                decreases depth - d,
            {
                proof {
                    reveal_strlit("  ");
                }
                text.append("  ");
                d += 1;
                proof {
                    assert("  "@ =~= seq![' ', ' ']);
                    assert(text@ =~= so_far + indent(d as nat));
                }
            }
            let label = (self.get_label)(id);
            text.append(label.as_str());
            proof {
                reveal_strlit("\n");
            }
            text.append("\n");
            proof {
                let ghost before = labels;
                labels = labels.push(label);
                assert("\n"@ =~= seq!['\n']);
                assert forall|k: nat| k <= i implies page(self.lines@, labels, k) == page(
                    self.lines@,
                    before,
                    k,
                ) by {
                    lemma_page_labels(self.lines@, before, label, k);
                }
                assert(text@ =~= page(self.lines@, labels, (i + 1) as nat));
            }
            i += 1;
        }
        proof {
            assert(labels.len() == self.lines@.len());
        }
        text
    }
}

/// One label more at the end does not change the text of the lines before
/// it.
pub proof fn lemma_page_labels(lines: Seq<(u64, usize)>, labels: Seq<String>, more: String, n: nat)
    requires
        n <= labels.len(),
    ensures
        page(lines, labels.push(more), n) == page(lines, labels, n),
    decreases n,
{
    if n > 0 {
        lemma_page_labels(lines, labels, more, (n - 1) as nat);
        assert(labels.push(more)[n - 1] == labels[n - 1]);
    }
}

/// A hierarchy shown as text.
pub trait HierarchyIterDebug: View<V = Links> + Sized {
    /// The outline of `root` and all that hangs below it, with the function
    /// that is to label its lines.
    fn debug_tree<F: Fn(u64) -> String>(&self, root: u64, get_label: F) -> (tree:
        DebugHierarchyTree<F>)
        requires
            valid_handle(root),
            self@.wf(),
            self@.acyclic(),
        ensures
            as_outline(tree.lines@) == self@.outline_of(root),
            tree.get_label == get_label,
    ;
}

impl HierarchyIterDebug for Hierarchy<'_> {
    fn debug_tree<F: Fn(u64) -> String>(&self, root: u64, get_label: F) -> (tree:
        DebugHierarchyTree<F>) {
        DebugHierarchyTree { lines: outline(self, root), get_label }
    }
}

} // verus!
