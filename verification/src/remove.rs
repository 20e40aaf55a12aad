//! Taking an entity out of the hierarchy: alone, or with all that hangs
//! below it.
use crate::below::{
    lemma_below_rank, lemma_below_trans, lemma_below_unfold, lemma_below_via_child,
    lemma_sibling_not_below, lemma_siblings_apart,
};
use crate::links::{after, before, Links};
use vstd::prelude::*;

verus! {

impl Links {
    /// The records once `id` has left its parent and its children have left
    /// it: `id` has neither record, and none of its children has a `Child`
    /// record.
    pub open spec fn removed_single(self, id: u64) -> Links {
        let d = self.detached(id);
        Links {
            parents: d.parents.remove(id),
            children: d.children.remove_keys(d.children_of(id).to_set()),
        }
    }

    /// The records once `id` has left its parent and all that hangs below
    /// `id` is gone: neither `id` nor any of its descendants has a record.
    pub open spec fn removed(self, id: u64) -> Links {
        let d = self.detached(id);
        Links {
            parents: d.parents.remove_keys(self.below(id).insert(id)),
            children: d.children.remove_keys(self.below(id)),
        }
    }
}

/// `c` is one of the first `k` handles of `s`, or hangs below one of them.
pub open spec fn under(l: Links, s: Seq<u64>, k: int, c: u64) -> bool {
    exists|j: int| 0 <= j < k && (c == #[trigger] s[j] || l.is_below(c, s[j]))
}

/// What is under one handle more of `s` is what was under the handles
/// before, that handle, and what hangs below it.
pub proof fn lemma_under_step(l: Links, s: Seq<u64>, k: int, c: u64)
    requires
        0 <= k < s.len(),
    ensures
        under(l, s, k + 1, c) <==> under(l, s, k, c) || c == s[k] || l.is_below(c, s[k]),
{
    if under(l, s, k + 1, c) {
        let j = choose|j: int| 0 <= j < k + 1 && (c == #[trigger] s[j] || l.is_below(c, s[j]));
        if j < k {
            assert(under(l, s, k, c));
        }
    }
    if under(l, s, k, c) {
        let j = choose|j: int| 0 <= j < k && (c == #[trigger] s[j] || l.is_below(c, s[j]));
        assert(0 <= j < k + 1 && (c == s[j] || l.is_below(c, s[j])));
    }
    if c == s[k] || l.is_below(c, s[k]) {
        assert(0 <= k < k + 1 && (c == s[k] || l.is_below(c, s[k])));
    }
}

/// A child of `id`, and what hangs below it, is not under the children
/// before it.
pub proof fn lemma_not_under(
    l: Links,
    rank: spec_fn(u64) -> nat,
    top: nat,
    id: u64,
    k: int,
    c: u64,
)
    requires
        l.linked(),
        l.ranked(rank, top),
        0 <= k < l.children_of(id).len(),
        c == l.children_of(id)[k] || l.is_below(c, l.children_of(id)[k]),
    ensures
        !under(l, l.children_of(id), k, c),
{
    let s = l.children_of(id);
    assert(l.parents.contains_key(id));
    assert(l.ring_ok(id));
    assert(l.link_ok(id, s, k));
    if under(l, s, k, c) {
        let j = choose|j: int| 0 <= j < k && (c == #[trigger] s[j] || l.is_below(c, s[j]));
        assert(l.link_ok(id, s, j));
        assert(s[j] != s[k]);
        lemma_sibling_not_below(l.children, rank, top, s[j], s[k]);
        lemma_sibling_not_below(l.children, rank, top, s[k], s[j]);
        lemma_siblings_apart(l.children, rank, top, c, s[j], s[k]);
    }
}

/// What is under the children of `id` is what hangs below `id`.
pub proof fn lemma_under_all(l: Links, rank: spec_fn(u64) -> nat, top: nat, id: u64, c: u64)
    requires
        l.linked(),
        l.ranked(rank, top),
    ensures
        under(l, l.children_of(id), l.children_of(id).len() as int, c) <==> l.is_below(c, id),
{
    let s = l.children_of(id);
    if under(l, s, s.len() as int, c) {
        let j = choose|j: int| 0 <= j < s.len() && (c == #[trigger] s[j] || l.is_below(c, s[j]));
        assert(l.parents.contains_key(id));
        assert(l.ring_ok(id));
        assert(l.link_ok(id, s, j));
        lemma_below_unfold(l.children, s[j], id);
        if c != s[j] {
            lemma_below_trans(l.children, rank, top, c, s[j], id);
        }
    }
    if l.is_below(c, id) {
        let k = lemma_below_via_child(l.children, rank, top, c, id);
        assert(l.child_ok(k));
        let j = s.index_of(k);
        assert(0 <= j < s.len() && (c == s[j] || l.is_below(c, s[j])));
    }
}

/// Where `now` holds the records of `l` but for those of `id` as a parent
/// and of all that hangs below `id`, taking `id` out of `now` alone gives
/// what taking `id` out of `l` with all below it gives.
pub proof fn lemma_removed_last(l: Links, now: Links, rank: spec_fn(u64) -> nat, top: nat, id: u64)
    requires
        l.linked(),
        l.ranked(rank, top),
        now.linked(),
        now.children_of(id) == Seq::<u64>::empty(),
        forall|c: u64| #[trigger]
            now.children.contains_key(c) <==> l.children.contains_key(c) && !l.is_below(c, id),
        forall|c: u64|
            now.children.contains_key(c) && l.children[c].parent != id ==> #[trigger] now.children[c]
                == l.children[c],
        forall|q: u64|
            q != id ==> (#[trigger] now.parents.contains_key(q) <==> l.parents.contains_key(q)
                && !l.is_below(q, id)),
        forall|q: u64|
            q != id && now.parents.contains_key(q) ==> #[trigger] now.parents[q] == l.parents[q],
    ensures
        now.removed_single(id) == l.removed(id),
{
    let c0 = l.children;
    let d0 = l.detached(id);
    let dn = now.detached(id);
    let b = l.below(id);
    assert(!now.parents.contains_key(id)) by {
        if now.parents.contains_key(id) {
            assert(now.ring_ok(id));
        }
    }
    assert forall|c: u64| #[trigger] now.children.contains_key(c) implies now.children[c]
        == l.children[c] by {
        if l.children[c].parent == id {
            lemma_below_unfold(c0, c, id);
        }
    }
    assert(!l.is_below(id, id)) by {
        if l.is_below(id, id) {
            lemma_below_rank(c0, rank, top, id, id);
        }
    }
    now.lemma_detached(id);
    assert(dn.children_of(id) == now.children_without(id, id));
    assert(dn.children_of(id).to_set() =~= Set::<u64>::empty());
    if l.children.contains_key(id) {
        let rec = l.children[id];
        let p = rec.parent;
        assert(l.child_ok(id));
        let s = l.children_of(p);
        let k = s.index_of(id);
        assert(l.ring_ok(p));
        assert(l.link_ok(p, s, k));
        assert(l.link_ok(p, s, after(k, s.len() as int)));
        assert(l.link_ok(p, s, before(k, s.len() as int)));
        lemma_below_unfold(c0, p, id);
        assert(!l.is_below(p, id)) by {
            if l.is_below(p, id) {
                lemma_below_rank(c0, rank, top, p, id);
            }
        }
        lemma_below_unfold(c0, rec.prev, id);
        lemma_below_unfold(c0, rec.next, id);
        assert(p != id);
        assert(now.children.contains_key(id));
        assert(now.children.contains_key(rec.prev));
        assert(now.children.contains_key(rec.next));
        assert(now.parents.contains_key(p));
        assert(now.parents[p] == l.parents[p]);
        assert(dn.children =~= d0.children.remove_keys(b));
        assert(dn.parents.remove(id) =~= d0.parents.remove_keys(b.insert(id)));
    } else {
        assert(dn.children =~= d0.children.remove_keys(b));
        assert(dn.parents.remove(id) =~= d0.parents.remove_keys(b.insert(id)));
    }
    assert(dn.children.remove_keys(dn.children_of(id).to_set()) =~= dn.children);
}

} // verus!
