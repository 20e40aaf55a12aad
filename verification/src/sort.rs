//! Sorting the children of an entity by a comparison that the caller gives.
use crate::handle::valid_handle;
use crate::hierarchy::Hierarchy;
use crate::iter::HierarchyIter;
use crate::relink::{rearranges, relink};
use std::cmp::Ordering;
use vstd::prelude::*;

verus! {

/// The place `j` as a number.
pub open spec fn place(j: usize) -> int {
    j as int
}

/// Putting the next handle of `items` into a rearrangement of those before
/// it gives a rearrangement of one handle more.
pub proof fn lemma_rearranges_insert(out: Seq<u64>, j: int, items: Seq<u64>, k: int)
    requires
        0 <= j <= out.len(),
        0 <= k < items.len(),
        items.no_duplicates(),
        rearranges(out, items.take(k)),
    ensures
        rearranges(out.insert(j, items[k]), items.take(k + 1)),
{
    let x = items[k];
    let a = out.insert(j, x);
    let b0 = items.take(k);
    let b1 = items.take(k + 1);
    assert(!out.contains(x)) by {
        if out.contains(x) {
            let i = b0.index_of(x);
            assert(items[i] == x);
        }
    }
    assert forall|m: int, n: int| 0 <= m < a.len() && 0 <= n < a.len() && m != n implies a[m]
        != a[n] by {
        let mm = if m < j {
            m
        } else {
            m - 1
        };
        let nn = if n < j {
            n
        } else {
            n - 1
        };
        if m != j {
            assert(a[m] == out[mm]);
            assert(out.contains(out[mm]));
        }
        if n != j {
            assert(a[n] == out[nn]);
            assert(out.contains(out[nn]));
        }
    }
    assert forall|y: u64| a.contains(y) <==> b1.contains(y) by {
        if a.contains(y) {
            let m = a.index_of(y);
            if m == j {
                assert(b1[k] == y);
            } else {
                let mm = if m < j {
                    m
                } else {
                    m - 1
                };
                assert(out[mm] == y);
                assert(out.contains(y));
                let i = b0.index_of(y);
                assert(b1[i] == y);
            }
        }
        if b1.contains(y) {
            let i = b1.index_of(y);
            if i == k {
                assert(a[j] == y);
            } else {
                assert(b0[i] == y);
                assert(b0.contains(y));
                let m = out.index_of(y);
                assert(a[if m < j {
                    m
                } else {
                    m + 1
                }] == y);
            }
        }
    }
}

/// `compare` can be asked about any two handles that stand at different
/// places of `s`.
pub open spec fn asks_within<F: Fn(&u64, &u64) -> Ordering>(compare: F, s: Seq<u64>) -> bool {
    forall|i: int, j: int|
        #![trigger s[i], s[j]]
        0 <= i < s.len() && 0 <= j < s.len() && i != j ==> call_requires(compare, (&s[i], &s[j]))
}

/// `compare` lets `u` stand before `v`: asked about the two in that order it
/// does not say `Greater`, or asked about them the other way round it does.
pub open spec fn keeps_order<F: Fn(&u64, &u64) -> Ordering>(compare: F, u: u64, v: u64) -> bool {
    ||| exists|o: Ordering| #[trigger] call_ensures(compare, (&u, &v), o) && !(o is Greater)
    ||| call_ensures(compare, (&v, &u), Ordering::Greater)
}

/// `compare` lets the handle at place `m` of `s` stand before the next.
pub open spec fn in_order<F: Fn(&u64, &u64) -> Ordering>(compare: F, s: Seq<u64>, m: int) -> bool {
    keeps_order(compare, s[m], s[m + 1])
}

/// `compare` lets each handle of `s` stand before the next.
pub open spec fn ordered_by<F: Fn(&u64, &u64) -> Ordering>(compare: F, s: Seq<u64>) -> bool {
    forall|m: int| 0 <= m < s.len() - 1 ==> #[trigger] in_order(compare, s, m)
}

/// A handle put between two that it may stand between leaves the order
/// kept.
pub proof fn lemma_insert_ordered<F: Fn(&u64, &u64) -> Ordering>(
    compare: F,
    s: Seq<u64>,
    j: int,
    x: u64,
)
    requires
        0 <= j <= s.len(),
        ordered_by(compare, s),
        j > 0 ==> keeps_order(compare, s[j - 1], x),
        j < s.len() ==> keeps_order(compare, x, s[j]),
    ensures
        ordered_by(compare, s.insert(j, x)),
{
    let t = s.insert(j, x);
    assert forall|m: int| 0 <= m < t.len() - 1 implies #[trigger] in_order(compare, t, m) by {
        if m + 1 < j {
            assert(in_order(compare, s, m));
        } else if m + 1 == j {
            assert(t[m] == s[j - 1]);
        } else if m == j {
            assert(t[m + 1] == s[j]);
        } else {
            assert(in_order(compare, s, m - 1));
            assert(t[m] == s[m - 1]);
            assert(t[m + 1] == s[m]);
        }
    }
}

/// Where a handle that came later in `items` stands earlier in `out`,
/// `compare` has said of the two that the one that came earlier is
/// `Greater`: handles of which it does not say so keep the order they had.
pub open spec fn stable_by<F: Fn(&u64, &u64) -> Ordering>(
    compare: F,
    items: Seq<u64>,
    out: Seq<u64>,
) -> bool {
    forall|i: int, j: int, p: int, q: int|
        #![trigger items[i], items[j], out[p], out[q]]
        0 <= i < j < items.len() && 0 <= p < q < out.len() && out[p] == items[j] && out[q]
            == items[i] ==> call_ensures(compare, (&items[i], &items[j]), Ordering::Greater)
}

/// The handles that `x` is put in front of are those of which `compare`
/// has said that they are `Greater` than `x`.
pub open spec fn all_greater<F: Fn(&u64, &u64) -> Ordering>(
    compare: F,
    out: Seq<u64>,
    j: int,
    x: u64,
) -> bool {
    forall|m: int|
        #![trigger out[m]]
        j <= m < out.len() ==> call_ensures(compare, (&out[m], &x), Ordering::Greater)
}

/// The next handle of `items`, put in front of handles that `compare` calls
/// `Greater` only, keeps the earlier handles in the order they had.
pub proof fn lemma_insert_stable<F: Fn(&u64, &u64) -> Ordering>(
    compare: F,
    items: Seq<u64>,
    k: int,
    out: Seq<u64>,
    j: int,
)
    requires
        0 <= k < items.len(),
        0 <= j <= out.len(),
        items.no_duplicates(),
        rearranges(out, items.take(k)),
        stable_by(compare, items.take(k), out),
        all_greater(compare, out, j, items[k]),
    ensures
        stable_by(compare, items.take(k + 1), out.insert(j, items[k])),
{
    let x = items[k];
    let before = items.take(k);
    let t = items.take(k + 1);
    let o2 = out.insert(j, x);
    assert forall|i: int, j2: int, p: int, q: int|
        #![trigger t[i], t[j2], o2[p], o2[q]]
        0 <= i < j2 < t.len() && 0 <= p < q < o2.len() && o2[p] == t[j2] && o2[q]
            == t[i] implies call_ensures(compare, (&t[i], &t[j2]), Ordering::Greater) by {
        assert(t[i] == items[i]);
        assert(t[j2] == items[j2]);
        if q != j {
            let qq = if q < j {
                q
            } else {
                q - 1
            };
            assert(o2[q] == out[qq]);
            if j2 == k {
                if p != j {
                    let pp = if p < j {
                        p
                    } else {
                        p - 1
                    };
                    assert(o2[p] == out[pp]);
                    assert(out.contains(out[pp]));
                    let e = before.index_of(out[pp]);
                    assert(items[e] == x);
                }
                assert(out[qq] == items[i]);
            } else {
                if p == j {
                    assert(items[j2] == items[k]);
                } else {
                    let pp = if p < j {
                        p
                    } else {
                        p - 1
                    };
                    assert(o2[p] == out[pp]);
                    assert(before[i] == items[i]);
                    assert(before[j2] == items[j2]);
                    assert(out[pp] == before[j2] && out[qq] == before[i]);
                }
            }
        } else {
            assert(items[i] == items[k]);
        }
    }
}

/// `compare` answers by the order `le`: it says `Greater` of two handles
/// where the first does not come at or before the second in `le`, and only
/// there; and `le` puts any two handles in order, one way or both, and any
/// three in a row.
pub open spec fn answers_by<F: Fn(&u64, &u64) -> Ordering>(
    compare: F,
    le: spec_fn(u64, u64) -> bool,
) -> bool {
    &&& forall|a: u64, b: u64, o: Ordering|
        #[trigger] call_ensures(compare, (&a, &b), o) ==> ((o is Greater) <==> !le(a, b))
    &&& forall|a: u64, b: u64| #[trigger] le(a, b) || le(b, a)
    &&& forall|a: u64, b: u64, c: u64| #[trigger] le(a, b) && #[trigger] le(b, c) ==> le(a, c)
}

/// Where `compare` answers by an order, handles that it lets stand each
/// before the next stand in that order, first to last.
pub proof fn lemma_ordered_is_sorted<F: Fn(&u64, &u64) -> Ordering>(
    compare: F,
    le: spec_fn(u64, u64) -> bool,
    s: Seq<u64>,
    i: int,
    j: int,
)
    requires
        answers_by(compare, le),
        ordered_by(compare, s),
        0 <= i <= j < s.len(),
    ensures
        le(s[i], s[j]),
    decreases j - i,
{
    if i == j {
        assert(le(s[i], s[i]) || le(s[i], s[i]));
    } else {
        lemma_ordered_is_sorted(compare, le, s, i, j - 1);
        assert(in_order(compare, s, j - 1));
        assert(le(s[j - 1], s[j])) by {
            assert(le(s[j - 1], s[j]) || le(s[j], s[j - 1]));
        }
    }
}

/// Where `compare` answers by an order, a stable rearrangement keeps two
/// handles in the order they had where the order puts the earlier at or
/// before the later.
pub proof fn lemma_stable_keeps_ties<F: Fn(&u64, &u64) -> Ordering>(
    compare: F,
    le: spec_fn(u64, u64) -> bool,
    items: Seq<u64>,
    out: Seq<u64>,
    i: int,
    j: int,
    p: int,
    q: int,
)
    requires
        answers_by(compare, le),
        stable_by(compare, items, out),
        0 <= i < j < items.len(),
        le(items[i], items[j]),
        0 <= p < out.len(),
        0 <= q < out.len(),
        out[p] == items[i],
        out[q] == items[j],
        items[i] != items[j],
    ensures
        p < q,
{
    if q < p {
        assert(call_ensures(compare, (&items[i], &items[j]), Ordering::Greater));
    }
}

/// The handles of `items` in the order that `compare` gives them; handles
/// that `compare` calls equal keep the order they had.
pub fn sorted_by<F>(items: &Vec<u64>, compare: &F) -> (out: Vec<u64>) where
    F: Fn(&u64, &u64) -> Ordering,

    requires
        items@.no_duplicates(),
        asks_within(*compare, items@),
    ensures
        rearranges(out@, items@),
        ordered_by(*compare, out@),
        stable_by(*compare, items@, out@),
{
    let mut out: Vec<u64> = Vec::new();
    let mut k: usize = 0;
    proof {
        assert(items@.take(0) =~= Seq::<u64>::empty());
    }
    while k < items.len()
        invariant
            k <= items@.len(),
            out@.len() == k,
            items@.no_duplicates(),
            asks_within(*compare, items@),
            rearranges(out@, items@.take(place(k))),
            ordered_by(*compare, out@),
            stable_by(*compare, items@.take(place(k)), out@),
        decreases items@.len() - k,
    {
        let x = items[k];
        let mut j: usize = out.len();
        while j > 0
            invariant
                j <= out@.len(),
                k < items@.len(),
                x == items@[place(k)],
                asks_within(*compare, items@),
                rearranges(out@, items@.take(place(k))),
                all_greater(*compare, out@, place(j), x),
            ensures
                j <= out@.len(),
                all_greater(*compare, out@, place(j), x),
                j > 0 ==> keeps_order(*compare, out@[place(j) - 1], x),
            decreases j,
        {
            let y = out[j - 1];
            proof {
                assert(out@.contains(y));
                let at = items@.take(place(k)).index_of(y);
                assert(items@[at] == y);
            }
            match compare(&y, &x) {
                Ordering::Greater => {
                    j -= 1;
                },
                _ => {
                    break ;
                },
            }
        }
        proof {
            if j < out@.len() {
                assert(call_ensures(*compare, (&out@[place(j)], &x), Ordering::Greater));
            }
            lemma_rearranges_insert(out@, place(j), items@, place(k));
            lemma_insert_ordered(*compare, out@, place(j), x);
            lemma_insert_stable(*compare, items@, place(k), out@, place(j));
        }
        out.insert(j, x);
        k += 1;
    }
    proof {
        assert(items@.take(place(k)) =~= items@);
    }
    out
}

impl Hierarchy<'_> {
    /// Puts the children of `id` in the order that `compare` gives them.
    /// Children that `compare` calls equal keep the order they had. With
    /// fewer than two children nothing changes, and `compare` is not asked;
    /// else it is asked about two different children of `id` at a time, and
    /// about nothing else.
    pub fn sort_children_by<F>(&mut self, id: u64, compare: F) where F: Fn(&u64, &u64) -> Ordering
        requires
            valid_handle(id),
            old(self)@.wf(),
            asks_within(compare, old(self)@.children_of(id)),
        ensures
            final(self)@.wf(),
            rearranges(final(self)@.children_of(id), old(self)@.children_of(id)),
            ordered_by(compare, final(self)@.children_of(id)),
            stable_by(compare, old(self)@.children_of(id), final(self)@.children_of(id)),
            forall|q: u64|
                q != id ==> #[trigger] final(self)@.children_of(q) == old(self)@.children_of(q),
            final(self)@ == if old(self)@.children_of(id).len() > 1 {
                old(self)@.reordered(id, final(self)@.children_of(id))
            } else {
                old(self)@
            },
            forall|h: u64|
                old(self)@.accepts_parent(h) ==> #[trigger] final(self)@.accepts_parent(h),
            forall|h: u64|
                old(self)@.accepts_child(h) ==> #[trigger] final(self)@.accepts_child(h),
            old(self)@.acyclic() ==> final(self)@.acyclic(),
            final(self).entities == old(self).entities,
    {
        let children = self.children(id).collect();
        proof {
            if self@.parents.contains_key(id) {
                assert(self@.ring_ok(id));
            }
        }
        if children.len() > 1 {
            let order = sorted_by(&children, &compare);
            relink(self, id, &order);
        }
    }
}

} // verus!
