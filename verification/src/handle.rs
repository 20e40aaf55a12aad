//! The shape of an entity handle.
//!
//! A handle is the 64-bit inner value of a `shipyard::EntityId`: the low 48
//! bits hold the entity's index plus one, the high 16 bits its generation. A
//! storage has one cell per index, so two handles that differ only in their
//! generation compete for the same cell.
use vstd::prelude::*;

verus! {

/// The part of a handle that selects its cell in a storage.
pub open spec fn slot(h: u64) -> int {
    h as int % 0x1_0000_0000_0000
}

/// A handle that a storage can be asked about: its index part is not zero
/// and its generation is not the one that marks an empty cell.
pub open spec fn valid_handle(h: u64) -> bool {
    slot(h) != 0 && h < 0xffff_0000_0000_0000
}

/// No handle of `m` lives in the cell of `h`.
pub open spec fn vacant<V>(m: Map<u64, V>, h: u64) -> bool {
    forall|k: u64| m.contains_key(k) ==> slot(k) != slot(h)
}

/// `m` answers for `h` as a plain map does: `h` is one of its keys, or no
/// key of `m` competes with `h` for its cell.
pub open spec fn accepts<V>(m: Map<u64, V>, h: u64) -> bool {
    m.contains_key(h) || vacant(m, h)
}

/// No two keys of `m` compete for one cell: a storage has one cell for each
/// index.
pub open spec fn apart<V>(m: Map<u64, V>) -> bool {
    forall|a: u64, b: u64|
        #[trigger] m.contains_key(a) && #[trigger] m.contains_key(b) && slot(a) == slot(b) ==> a
            == b
}

/// A map that has some of the keys of `m1` keeps them apart, and accepts
/// what `m1` accepts.
pub proof fn lemma_fewer_keys<V>(m1: Map<u64, V>, m2: Map<u64, V>)
    requires
        apart(m1),
        forall|k: u64| #[trigger] m2.contains_key(k) ==> m1.contains_key(k),
    ensures
        apart(m2),
        forall|h: u64| accepts(m1, h) ==> #[trigger] accepts(m2, h),
{
    assert forall|h: u64| accepts(m1, h) implies #[trigger] accepts(m2, h) by {
        if !m2.contains_key(h) {
            assert forall|k: u64| m2.contains_key(k) implies slot(k) != slot(h) by {
                assert(m1.contains_key(k));
            }
        }
    }
}

/// A map that has keys of `m1` and maybe `x`, which `m1` accepts, keeps
/// them apart and accepts `x`; and it accepts what `m1` accepts, but for the
/// handles that compete with `x`.
pub proof fn lemma_one_more_key<V>(m1: Map<u64, V>, m2: Map<u64, V>, x: u64)
    requires
        apart(m1),
        accepts(m1, x),
        forall|k: u64| #[trigger] m2.contains_key(k) ==> m1.contains_key(k) || k == x,
    ensures
        apart(m2),
        accepts(m2, x),
        forall|h: u64|
            accepts(m1, h) && (slot(h) == slot(x) ==> h == x) ==> #[trigger] accepts(m2, h),
{
    assert forall|a: u64, b: u64| #[trigger]
        m2.contains_key(a) && #[trigger] m2.contains_key(b) && slot(a) == slot(b) implies a
        == b by {
        assert(m1.contains_key(a) || a == x);
        assert(m1.contains_key(b) || b == x);
    }
    assert forall|h: u64|
        accepts(m1, h) && (slot(h) == slot(x) ==> h == x) implies #[trigger] accepts(m2, h) by {
        if !m2.contains_key(h) {
            assert forall|k: u64| m2.contains_key(k) implies slot(k) != slot(h) by {
                assert(m1.contains_key(k) || k == x);
            }
        }
    }
}

/// What a lookup of `h` in `m` gives.
pub open spec fn lookup<V>(m: Map<u64, V>, h: u64) -> Option<V> {
    if m.contains_key(h) {
        Some(m[h])
    } else {
        None
    }
}

/// Tells whether `h` is a valid handle.
pub fn is_valid_handle(h: u64) -> (r: bool)
    ensures
        r == valid_handle(h),
{
    h % 0x1_0000_0000_0000 != 0 && h < 0xffff_0000_0000_0000
}

} // verus!
