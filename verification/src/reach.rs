//! What the walks through a hierarchy reach: depth first and breadth first
//! alike, the descendants of the entity they start from, and nothing else.
use crate::below::{lemma_below_trans, lemma_below_unfold};
use crate::links::Links;
use crate::order::{lemma_ranking, ranking};
use crate::remove::{lemma_under_all, under};
use vstd::prelude::*;

verus! {

/// A handle of one of two runs is a handle of the two put together.
proof fn lemma_contains_add(a: Seq<u64>, b: Seq<u64>, y: u64)
    ensures
        (a + b).contains(y) <==> a.contains(y) || b.contains(y),
{
    if (a + b).contains(y) {
        let i = (a + b).index_of(y);
        if i < a.len() {
            assert(a[i] == y);
        } else {
            assert(b[i - a.len()] == y);
        }
    }
    if a.contains(y) {
        let i = a.index_of(y);
        assert((a + b)[i] == y);
    }
    if b.contains(y) {
        let i = b.index_of(y);
        assert((a + b)[a.len() + i] == y);
    }
}

impl Links {
    /// A handle of the next level is a child of a handle of this one.
    proof fn lemma_next_level_parent(self, s: Seq<u64>, y: u64) -> (i: int)
        requires
            self.linked(),
            self.next_level(s).contains(y),
        ensures
            0 <= i < s.len(),
            self.children.contains_key(y),
            self.children[y].parent == s[i],
        decreases s.len(),
    {
        let k = self.children_of(s[0]);
        lemma_contains_add(k, self.next_level(s.drop_first()), y);
        if k.contains(y) {
            let j = k.index_of(y);
            assert(self.parents.contains_key(s[0]));
            assert(self.ring_ok(s[0]));
            assert(self.link_ok(s[0], k, j));
            0
        } else {
            let i = self.lemma_next_level_parent(s.drop_first(), y);
            i + 1
        }
    }

    /// The children of a handle of this level are handles of the next.
    proof fn lemma_next_level_child(self, s: Seq<u64>, i: int, y: u64)
        requires
            0 <= i < s.len(),
            self.children_of(s[i]).contains(y),
        ensures
            self.next_level(s).contains(y),
        decreases s.len(),
    {
        lemma_contains_add(self.children_of(s[0]), self.next_level(s.drop_first()), y);
        if i > 0 {
            assert(s.drop_first()[i - 1] == s[i]);
            self.lemma_next_level_child(s.drop_first(), i - 1, y);
        }
    }

    /// Depth first, a walk reaches only the handles it starts from and what
    /// hangs below them.
    pub proof fn lemma_preorder_under(
        self,
        rank: spec_fn(u64) -> nat,
        top: nat,
        s: Seq<u64>,
        fuel: nat,
        y: u64,
    )
        requires
            self.linked(),
            self.ranked(rank, top),
            self.preorder(s, fuel).contains(y),
        ensures
            under(self, s, s.len() as int, y),
        decreases fuel, s.len(),
    {
        if s.len() > 0 && fuel > 0 {
            let k = self.children_of(s[0]);
            let a = seq![s[0]];
            let b = self.preorder(k, (fuel - 1) as nat);
            let c = self.preorder(s.drop_first(), fuel);
            lemma_contains_add(a + b, c, y);
            lemma_contains_add(a, b, y);
            if a.contains(y) {
                assert(a[a.index_of(y)] == y);
                assert(y == s[0]);
            } else if b.contains(y) {
                self.lemma_preorder_under(rank, top, k, (fuel - 1) as nat, y);
                let j = choose|j: int| 0 <= j < k.len() && (y == #[trigger] k[j] || self.is_below(y, k[j]));
                assert(self.parents.contains_key(s[0]));
                assert(self.ring_ok(s[0]));
                assert(self.link_ok(s[0], k, j));
                lemma_below_unfold(self.children, k[j], s[0]);
                if y != k[j] {
                    lemma_below_trans(self.children, rank, top, y, k[j], s[0]);
                }
                assert(y == s[0] || self.is_below(y, s[0]));
            } else {
                let rest = s.drop_first();
                self.lemma_preorder_under(rank, top, rest, fuel, y);
                let j = choose|j: int| 0 <= j < rest.len() && (y == #[trigger] rest[j] || self.is_below(y, rest[j]));
                assert(y == s[j + 1] || self.is_below(y, s[j + 1]));
            }
        }
    }

    /// Depth first, a walk gives each handle that it starts from.
    pub proof fn lemma_preorder_start(self, s: Seq<u64>, fuel: nat, i: int)
        requires
            0 <= i < s.len(),
            fuel > 0,
        ensures
            self.preorder(s, fuel).contains(s[i]),
        decreases s.len(),
    {
        let a = seq![s[0]];
        let b = self.preorder(self.children_of(s[0]), (fuel - 1) as nat);
        let c = self.preorder(s.drop_first(), fuel);
        lemma_contains_add(a + b, c, s[i]);
        lemma_contains_add(a, b, s[i]);
        if i == 0 {
            assert(a[0] == s[0]);
        } else {
            assert(s.drop_first()[i - 1] == s[i]);
            self.lemma_preorder_start(s.drop_first(), fuel, i - 1);
        }
    }

    /// Depth first, a walk that gives a handle gives its children.
    pub proof fn lemma_preorder_child(
        self,
        rank: spec_fn(u64) -> nat,
        top: nat,
        s: Seq<u64>,
        fuel: nat,
        x: u64,
        y: u64,
    )
        requires
            self.linked(),
            self.ranked(rank, top),
            self.fits(rank, top, s, fuel),
            self.preorder(s, fuel).contains(x),
            self.children.contains_key(y),
            self.children[y].parent == x,
        ensures
            self.preorder(s, fuel).contains(y),
        decreases fuel, s.len(),
    {
        if s.len() > 0 && fuel > 0 {
            let k = self.children_of(s[0]);
            let rest = s.drop_first();
            let a = seq![s[0]];
            let b = self.preorder(k, (fuel - 1) as nat);
            let c = self.preorder(rest, fuel);
            lemma_contains_add(a + b, c, x);
            lemma_contains_add(a, b, x);
            lemma_contains_add(a + b, c, y);
            lemma_contains_add(a, b, y);
            assert(self.children.contains_key(s[0]));
            self.lemma_fits_children(rank, top, s[0], (fuel - 1) as nat);
            if a.contains(x) {
                assert(a[a.index_of(x)] == x);
                assert(self.child_ok(y));
                let j = k.index_of(y);
                assert(self.link_ok(s[0], k, j)) by {
                    assert(self.ring_ok(s[0]));
                }
                assert(fuel - 1 > 0);
                self.lemma_preorder_start(k, (fuel - 1) as nat, j);
            } else if b.contains(x) {
                self.lemma_preorder_child(rank, top, k, (fuel - 1) as nat, x, y);
            } else {
                assert forall|i: int| 0 <= i < rest.len() implies self.children.contains_key(
                    #[trigger] rest[i],
                ) && fuel + rank(rest[i]) > top by {
                    assert(rest[i] == s[i + 1]);
                }
                self.lemma_preorder_child(rank, top, rest, fuel, x, y);
            }
        }
    }

    /// Depth first, a walk with enough steps reaches all that hangs below
    /// the handles it gives.
    pub proof fn lemma_preorder_below(
        self,
        rank: spec_fn(u64) -> nat,
        top: nat,
        s: Seq<u64>,
        fuel: nat,
        x: u64,
        y: u64,
    )
        requires
            self.linked(),
            self.ranked(rank, top),
            self.fits(rank, top, s, fuel),
            self.preorder(s, fuel).contains(x),
            self.is_below(y, x),
        ensures
            self.preorder(s, fuel).contains(y),
        decreases rank(y),
    {
        lemma_below_unfold(self.children, y, x);
        let p = self.children[y].parent;
        if p != x {
            self.lemma_preorder_below(rank, top, s, fuel, x, p);
        }
        self.lemma_preorder_child(rank, top, s, fuel, p, y);
    }

    /// Breadth first, a walk reaches only the handles it starts from and
    /// what hangs below them.
    pub proof fn lemma_level_order_under(
        self,
        rank: spec_fn(u64) -> nat,
        top: nat,
        s: Seq<u64>,
        fuel: nat,
        y: u64,
    )
        requires
            self.linked(),
            self.ranked(rank, top),
            self.level_order(s, fuel).contains(y),
        ensures
            under(self, s, s.len() as int, y),
        decreases fuel,
    {
        if s.len() > 0 && fuel > 0 {
            let n = self.next_level(s);
            let b = self.level_order(n, (fuel - 1) as nat);
            lemma_contains_add(s, b, y);
            if s.contains(y) {
                let i = s.index_of(y);
                assert(y == s[i]);
            } else {
                self.lemma_level_order_under(rank, top, n, (fuel - 1) as nat, y);
                let j = choose|j: int| 0 <= j < n.len() && (y == #[trigger] n[j] || self.is_below(y, n[j]));
                assert(n.contains(n[j]));
                let i = self.lemma_next_level_parent(s, n[j]);
                lemma_below_unfold(self.children, n[j], s[i]);
                if y != n[j] {
                    lemma_below_trans(self.children, rank, top, y, n[j], s[i]);
                }
                assert(y == s[i] || self.is_below(y, s[i]));
            }
        }
    }

    /// Breadth first, a walk that gives a handle gives its children.
    pub proof fn lemma_level_order_child(
        self,
        rank: spec_fn(u64) -> nat,
        top: nat,
        s: Seq<u64>,
        fuel: nat,
        x: u64,
        y: u64,
    )
        requires
            self.linked(),
            self.ranked(rank, top),
            self.fits(rank, top, s, fuel),
            self.level_order(s, fuel).contains(x),
            self.children.contains_key(y),
            self.children[y].parent == x,
        ensures
            self.level_order(s, fuel).contains(y),
        decreases fuel,
    {
        if s.len() > 0 && fuel > 0 {
            let n = self.next_level(s);
            let b = self.level_order(n, (fuel - 1) as nat);
            lemma_contains_add(s, b, x);
            lemma_contains_add(s, b, y);
            self.lemma_fits_next_level(rank, top, s, (fuel - 1) as nat);
            if s.contains(x) {
                let i = s.index_of(x);
                assert(self.child_ok(y));
                self.lemma_next_level_child(s, i, y);
                let j = n.index_of(y);
                assert(self.children.contains_key(n[j]));
                assert(fuel - 1 > 0);
                lemma_contains_add(n, self.level_order(self.next_level(n), (fuel - 2) as nat), y);
            } else {
                self.lemma_level_order_child(rank, top, n, (fuel - 1) as nat, x, y);
            }
        }
    }

    /// Breadth first, a walk with enough steps reaches all that hangs below
    /// the handles it gives.
    pub proof fn lemma_level_order_below(
        self,
        rank: spec_fn(u64) -> nat,
        top: nat,
        s: Seq<u64>,
        fuel: nat,
        x: u64,
        y: u64,
    )
        requires
            self.linked(),
            self.ranked(rank, top),
            self.fits(rank, top, s, fuel),
            self.level_order(s, fuel).contains(x),
            self.is_below(y, x),
        ensures
            self.level_order(s, fuel).contains(y),
        decreases rank(y),
    {
        lemma_below_unfold(self.children, y, x);
        let p = self.children[y].parent;
        if p != x {
            self.lemma_level_order_below(rank, top, s, fuel, x, p);
        }
        self.lemma_level_order_child(rank, top, s, fuel, p, y);
    }

    /// Depth first and breadth first alike, the walk from `id` gives the
    /// handles that have `id` among their ancestors, and no others.
    pub proof fn lemma_descendants_are_below(self, id: u64, y: u64)
        requires
            self.linked(),
            self.acyclic(),
        ensures
            self.descendants_depth_first_of(id).contains(y) <==> self.is_below(y, id),
            self.descendants_breadth_first_of(id).contains(y) <==> self.is_below(y, id),
    {
        let s = self.children_of(id);
        lemma_ranking(self.children);
        let (rank, top) = ranking(self.children);
        lemma_under_all(self, rank, top, id, y);
        if self.parents.contains_key(id) {
            assert(self.ring_ok(id));
        }
        assert forall|i: int| 0 <= i < s.len() implies self.children.contains_key(#[trigger] s[i]) by {
            assert(self.link_ok(id, s, i));
        }
        if self.descendants_depth_first_of(id).contains(y) {
            self.lemma_preorder_under(rank, top, s, self.span(), y);
        }
        if self.descendants_breadth_first_of(id).contains(y) {
            self.lemma_level_order_under(rank, top, s, self.span(), y);
        }
        if self.is_below(y, id) {
            let j = choose|j: int| 0 <= j < s.len() && (y == #[trigger] s[j] || self.is_below(y, s[j]));
            self.lemma_preorder_start(s, self.span(), j);
            lemma_contains_add(s, self.level_order(self.next_level(s), (self.span() - 1) as nat), s[j]);
            assert(s.contains(s[j]));
            if y != s[j] {
                self.lemma_preorder_below(rank, top, s, self.span(), s[j], y);
                self.lemma_level_order_below(rank, top, s, self.span(), s[j], y);
            }
        }
    }

    /// The handles of `s` are different children of `p`.
    pub open spec fn siblings(self, s: Seq<u64>, p: u64) -> bool {
        &&& s.no_duplicates()
        &&& forall|i: int|
            0 <= i < s.len() ==> self.children.contains_key(#[trigger] s[i])
                && self.children[s[i]].parent == p
    }

    /// Depth first, a walk through siblings gives no handle twice.
    pub proof fn lemma_preorder_once(
        self,
        rank: spec_fn(u64) -> nat,
        top: nat,
        s: Seq<u64>,
        p: u64,
        fuel: nat,
    )
        requires
            self.linked(),
            self.ranked(rank, top),
            self.siblings(s, p),
        ensures
            self.preorder(s, fuel).no_duplicates(),
        decreases fuel, s.len(),
    {
        if s.len() > 0 && fuel > 0 {
            let k = self.children_of(s[0]);
            let rest = s.drop_first();
            let a = seq![s[0]];
            let b = self.preorder(k, (fuel - 1) as nat);
            let c = self.preorder(rest, fuel);
            if self.parents.contains_key(s[0]) {
                assert(self.ring_ok(s[0]));
                assert forall|i: int| 0 <= i < k.len() implies self.children.contains_key(
                    #[trigger] k[i],
                ) && self.children[k[i]].parent == s[0] by {
                    assert(self.link_ok(s[0], k, i));
                }
            }
            self.lemma_preorder_once(rank, top, k, s[0], (fuel - 1) as nat);
            assert(self.siblings(rest, p)) by {
                assert forall|i: int| 0 <= i < rest.len() implies self.children.contains_key(
                    #[trigger] rest[i],
                ) && self.children[rest[i]].parent == p by {
                    assert(rest[i] == s[i + 1]);
                }
                assert forall|i: int, j: int|
                    0 <= i < rest.len() && 0 <= j < rest.len() && i != j implies rest[i]
                    != rest[j] by {
                    assert(rest[i] == s[i + 1] && rest[j] == s[j + 1]);
                }
            }
            self.lemma_preorder_once(rank, top, rest, p, fuel);
            // what hangs below the first sibling is neither it nor among the rest
            assert forall|y: u64| b.contains(y) implies self.is_below(y, s[0]) by {
                self.lemma_preorder_under(rank, top, k, (fuel - 1) as nat, y);
                let j = choose|j: int|
                    0 <= j < k.len() && (y == #[trigger] k[j] || self.is_below(y, k[j]));
                lemma_below_unfold(self.children, k[j], s[0]);
                if y != k[j] {
                    lemma_below_trans(self.children, rank, top, y, k[j], s[0]);
                }
            }
            assert forall|y: u64| c.contains(y) implies y != s[0] && !self.is_below(y, s[0]) by {
                self.lemma_preorder_under(rank, top, rest, fuel, y);
                let j = choose|j: int|
                    0 <= j < rest.len() && (y == #[trigger] rest[j] || self.is_below(y, rest[j]));
                assert(rest[j] == s[j + 1]);
                crate::below::lemma_sibling_not_below(self.children, rank, top, s[0], s[j + 1]);
                crate::below::lemma_sibling_not_below(self.children, rank, top, s[j + 1], s[0]);
                crate::below::lemma_siblings_apart(self.children, rank, top, y, s[0], s[j + 1]);
            }
            assert forall|y: u64| b.contains(y) implies y != s[0] by {
                if self.is_below(s[0], s[0]) {
                    crate::below::lemma_below_rank(self.children, rank, top, s[0], s[0]);
                }
            }
            let out = a + b + c;
            assert forall|i: int, j: int| 0 <= i < out.len() && 0 <= j < out.len() && i != j implies out[i]
                != out[j] by {
                let ab = a.len() + b.len();
                if i >= 1 && i < ab {
                    assert(out[i] == b[i - 1]);
                    assert(b.contains(b[i - 1]));
                }
                if j >= 1 && j < ab {
                    assert(out[j] == b[j - 1]);
                    assert(b.contains(b[j - 1]));
                }
                if i >= ab {
                    assert(out[i] == c[i - ab]);
                    assert(c.contains(c[i - ab]));
                }
                if j >= ab {
                    assert(out[j] == c[j - ab]);
                    assert(c.contains(c[j - ab]));
                }
            }
        }
    }

    /// The children of different handles are different handles.
    pub proof fn lemma_next_level_once(self, s: Seq<u64>)
        requires
            self.linked(),
            s.no_duplicates(),
        ensures
            self.next_level(s).no_duplicates(),
        decreases s.len(),
    {
        if s.len() > 0 {
            let k = self.children_of(s[0]);
            let rest = s.drop_first();
            let n = self.next_level(rest);
            assert(rest.no_duplicates()) by {
                assert forall|i: int, j: int|
                    0 <= i < rest.len() && 0 <= j < rest.len() && i != j implies rest[i]
                    != rest[j] by {
                    assert(rest[i] == s[i + 1] && rest[j] == s[j + 1]);
                }
            }
            self.lemma_next_level_once(rest);
            if self.parents.contains_key(s[0]) {
                assert(self.ring_ok(s[0]));
            }
            assert forall|i: int, j: int|
                0 <= i < (k + n).len() && 0 <= j < (k + n).len() && i != j implies (k + n)[i] != (k
                + n)[j] by {
                if i < k.len() && j >= k.len() {
                    assert(self.link_ok(s[0], k, i));
                    assert(n.contains(n[j - k.len()]));
                    let m = self.lemma_next_level_parent(rest, n[j - k.len()]);
                    assert(rest[m] == s[m + 1]);
                }
                if j < k.len() && i >= k.len() {
                    assert(self.link_ok(s[0], k, j));
                    assert(n.contains(n[i - k.len()]));
                    let m = self.lemma_next_level_parent(rest, n[i - k.len()]);
                    assert(rest[m] == s[m + 1]);
                }
            }
        }
    }

    /// Breadth first, a walk from different handles of one level gives no
    /// handle twice.
    pub proof fn lemma_level_order_once(self, s: Seq<u64>, d: nat, fuel: nat)
        requires
            self.linked(),
            self.acyclic(),
            self.on_level(s, d),
            s.no_duplicates(),
        ensures
            self.level_order(s, fuel).no_duplicates(),
        decreases fuel,
    {
        if s.len() > 0 && fuel > 0 {
            let n = self.next_level(s);
            let rest = self.level_order(n, (fuel - 1) as nat);
            let out = s + rest;
            self.lemma_next_level_on_level(s, d);
            self.lemma_next_level_once(s);
            self.lemma_level_order_once(n, d + 1, (fuel - 1) as nat);
            self.lemma_level_order_by_depth(n, d + 1, (fuel - 1) as nat);
            assert forall|i: int, j: int| 0 <= i < out.len() && 0 <= j < out.len() && i != j implies out[i]
                != out[j] by {
                if i < s.len() {
                    assert(out[i] == s[i]);
                } else {
                    assert(out[i] == rest[i - s.len()]);
                }
                if j < s.len() {
                    assert(out[j] == s[j]);
                } else {
                    assert(out[j] == rest[j - s.len()]);
                }
            }
        }
    }

    /// Depth first and breadth first alike, the walk from `id` gives each
    /// descendant of `id` once.
    pub proof fn lemma_descendants_once(self, id: u64)
        requires
            self.linked(),
            self.acyclic(),
        ensures
            self.descendants_depth_first_of(id).no_duplicates(),
            self.descendants_breadth_first_of(id).no_duplicates(),
    {
        let s = self.children_of(id);
        lemma_ranking(self.children);
        let (rank, top) = ranking(self.children);
        if self.parents.contains_key(id) {
            assert(self.ring_ok(id));
        }
        assert forall|i: int| 0 <= i < s.len() implies self.children.contains_key(#[trigger] s[i])
            && self.children[s[i]].parent == id by {
            assert(self.link_ok(id, s, i));
        }
        self.lemma_preorder_once(rank, top, s, id, self.span());
        self.lemma_children_on_level(id);
        self.lemma_level_order_once(s, self.depth_of(id) + 1, self.span());
    }

    /// What is under the children of a handle of `s` is under `s`.
    proof fn lemma_under_children(
        self,
        rank: spec_fn(u64) -> nat,
        top: nat,
        s: Seq<u64>,
        i: int,
        x: u64,
    )
        requires
            self.linked(),
            self.ranked(rank, top),
            0 <= i < s.len(),
            under(self, self.children_of(s[i]), self.children_of(s[i]).len() as int, x),
        ensures
            self.is_below(x, s[i]),
            under(self, s, s.len() as int, x),
    {
        let k = self.children_of(s[i]);
        let j = choose|j: int| 0 <= j < k.len() && (x == #[trigger] k[j] || self.is_below(x, k[j]));
        assert(self.parents.contains_key(s[i]));
        assert(self.ring_ok(s[i]));
        assert(self.link_ok(s[i], k, j));
        lemma_below_unfold(self.children, k[j], s[i]);
        if x != k[j] {
            lemma_below_trans(self.children, rank, top, x, k[j], s[i]);
        }
    }

    /// Two hierarchies that give the same children to the handles of `s` and
    /// to all that hangs below them give the same walk from `s`, depth
    /// first.
    pub proof fn lemma_preorder_same(
        self,
        other: Links,
        rank: spec_fn(u64) -> nat,
        top: nat,
        rank2: spec_fn(u64) -> nat,
        top2: nat,
        s: Seq<u64>,
        f1: nat,
        f2: nat,
    )
        requires
            self.linked(),
            other.linked(),
            self.ranked(rank, top),
            other.ranked(rank2, top2),
            self.fits(rank, top, s, f1),
            other.fits(rank2, top2, s, f2),
            forall|x: u64|
                under(self, s, s.len() as int, x) ==> #[trigger] other.children_of(x)
                    == self.children_of(x),
        ensures
            other.preorder(s, f2) == self.preorder(s, f1),
        decreases f1, s.len(),
    {
        if s.len() > 0 {
            let k = self.children_of(s[0]);
            let rest = s.drop_first();
            assert(self.children.contains_key(s[0]));
            assert(other.children.contains_key(s[0]));
            assert(under(self, s, s.len() as int, s[0]));
            assert(other.children_of(s[0]) == k);
            self.lemma_fits_children(rank, top, s[0], (f1 - 1) as nat);
            other.lemma_fits_children(rank2, top2, s[0], (f2 - 1) as nat);
            assert forall|x: u64| under(self, k, k.len() as int, x) implies #[trigger] other.children_of(
                x,
            ) == self.children_of(x) by {
                self.lemma_under_children(rank, top, s, 0, x);
            }
            self.lemma_preorder_same(
                other,
                rank,
                top,
                rank2,
                top2,
                k,
                (f1 - 1) as nat,
                (f2 - 1) as nat,
            );
            assert forall|i: int| 0 <= i < rest.len() implies self.children.contains_key(
                #[trigger] rest[i],
            ) && f1 + rank(rest[i]) > top && other.children.contains_key(rest[i]) && f2 + rank2(
                rest[i],
            ) > top2 by {
                assert(rest[i] == s[i + 1]);
            }
            assert forall|x: u64|
                under(self, rest, rest.len() as int, x) implies #[trigger] other.children_of(x)
                == self.children_of(x) by {
                let j = choose|j: int|
                    0 <= j < rest.len() && (x == #[trigger] rest[j] || self.is_below(x, rest[j]));
                assert(x == s[j + 1] || self.is_below(x, s[j + 1]));
            }
            self.lemma_preorder_same(other, rank, top, rank2, top2, rest, f1, f2);
        }
    }

    /// Two hierarchies that give the same children to the handles of `s`
    /// give `s` the same next level.
    proof fn lemma_next_level_same(self, other: Links, s: Seq<u64>)
        requires
            forall|i: int|
                0 <= i < s.len() ==> other.children_of(#[trigger] s[i]) == self.children_of(s[i]),
        ensures
            other.next_level(s) == self.next_level(s),
        decreases s.len(),
    {
        if s.len() > 0 {
            let rest = s.drop_first();
            assert(other.children_of(s[0]) == self.children_of(s[0]));
            assert forall|i: int| 0 <= i < rest.len() implies other.children_of(#[trigger] rest[i])
                == self.children_of(rest[i]) by {
                assert(rest[i] == s[i + 1]);
            }
            self.lemma_next_level_same(other, rest);
        }
    }

    /// Two hierarchies that give the same children to the handles of `s` and
    /// to all that hangs below them give the same walk from `s`, breadth
    /// first.
    pub proof fn lemma_level_order_same(
        self,
        other: Links,
        rank: spec_fn(u64) -> nat,
        top: nat,
        rank2: spec_fn(u64) -> nat,
        top2: nat,
        s: Seq<u64>,
        f1: nat,
        f2: nat,
    )
        requires
            self.linked(),
            other.linked(),
            self.ranked(rank, top),
            other.ranked(rank2, top2),
            self.fits(rank, top, s, f1),
            other.fits(rank2, top2, s, f2),
            forall|x: u64|
                under(self, s, s.len() as int, x) ==> #[trigger] other.children_of(x)
                    == self.children_of(x),
        ensures
            other.level_order(s, f2) == self.level_order(s, f1),
        decreases f1,
    {
        if s.len() > 0 {
            let n = self.next_level(s);
            assert(self.children.contains_key(s[0]));
            assert(other.children.contains_key(s[0]));
            assert forall|i: int| 0 <= i < s.len() implies other.children_of(#[trigger] s[i])
                == self.children_of(s[i]) by {
                assert(under(self, s, s.len() as int, s[i]));
            }
            self.lemma_next_level_same(other, s);
            self.lemma_fits_next_level(rank, top, s, (f1 - 1) as nat);
            other.lemma_fits_next_level(rank2, top2, s, (f2 - 1) as nat);
            assert forall|x: u64| under(self, n, n.len() as int, x) implies #[trigger] other.children_of(
                x,
            ) == self.children_of(x) by {
                let j = choose|j: int|
                    0 <= j < n.len() && (x == #[trigger] n[j] || self.is_below(x, n[j]));
                assert(n.contains(n[j]));
                let i = self.lemma_next_level_parent(s, n[j]);
                lemma_below_unfold(self.children, n[j], s[i]);
                if x != n[j] {
                    lemma_below_trans(self.children, rank, top, x, n[j], s[i]);
                }
                assert(x == s[i] || self.is_below(x, s[i]));
            }
            self.lemma_level_order_same(
                other,
                rank,
                top,
                rank2,
                top2,
                n,
                (f1 - 1) as nat,
                (f2 - 1) as nat,
            );
        }
    }

    /// Two hierarchies without cycles that give the same children to `id`
    /// and to all that hangs below it give `id` the same descendants, depth
    /// first and breadth first.
    pub proof fn lemma_descendants_same(self, other: Links, id: u64)
        requires
            self.linked(),
            other.linked(),
            self.acyclic(),
            other.acyclic(),
            other.children_of(id) == self.children_of(id),
            forall|x: u64| self.is_below(x, id) ==> #[trigger] other.children_of(x) == self.children_of(x),
        ensures
            other.descendants_depth_first_of(id) == self.descendants_depth_first_of(id),
            other.descendants_breadth_first_of(id) == self.descendants_breadth_first_of(id),
    {
        let s = self.children_of(id);
        lemma_ranking(self.children);
        lemma_ranking(other.children);
        let (rank, top) = ranking(self.children);
        let (rank2, top2) = ranking(other.children);
        if self.parents.contains_key(id) {
            assert(self.ring_ok(id));
        }
        if other.parents.contains_key(id) {
            assert(other.ring_ok(id));
        }
        assert forall|i: int| 0 <= i < s.len() implies self.children.contains_key(#[trigger] s[i])
            && other.children.contains_key(s[i]) by {
            assert(self.link_ok(id, s, i));
            assert(other.link_ok(id, s, i));
        }
        assert forall|x: u64| under(self, s, s.len() as int, x) implies #[trigger] other.children_of(
            x,
        ) == self.children_of(x) by {
            lemma_under_all(self, rank, top, id, x);
        }
        self.lemma_preorder_same(other, rank, top, rank2, top2, s, self.span(), other.span());
        self.lemma_level_order_same(other, rank, top, rank2, top2, s, self.span(), other.span());
    }
}

} // verus!
