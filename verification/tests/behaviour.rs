use shipyard::{EntityId, World};
use shipyard_hierarchy::{
    detach, is_valid_handle, outline, Child, Hierarchy, HierarchyIter, HierarchyIterDebug,
    HierarchyMut, Parent,
};
use std::cmp::Ordering;

fn new_entity(hierarchy: &mut Hierarchy<'_>) -> u64 {
    hierarchy.add_entity()
}

/// The records of the given handles, in order.
fn records(hierarchy: &Hierarchy<'_>, handles: &[u64]) -> Vec<(Option<Parent>, Option<Child>)> {
    handles
        .iter()
        .map(|h| (hierarchy.parent_record(*h), hierarchy.child_record(*h)))
        .collect()
}

/// root -> {a, b, c}; a -> {d, e}; d -> {h, i}; h -> {l}; c -> {f, g};
/// g -> {j, k}; j -> {m}; m -> {n}.
fn scenario(hierarchy: &mut Hierarchy<'_>) -> [u64; 15] {
    let root = new_entity(hierarchy);
    let a = hierarchy.attach_new(root);
    let b = hierarchy.attach_new(root);
    let c = hierarchy.attach_new(root);
    let d = hierarchy.attach_new(a);
    let e = hierarchy.attach_new(a);
    let f = hierarchy.attach_new(c);
    let g = hierarchy.attach_new(c);
    let h = hierarchy.attach_new(d);
    let i = hierarchy.attach_new(d);
    let l = hierarchy.attach_new(h);
    let j = hierarchy.attach_new(g);
    let m = hierarchy.attach_new(j);
    let k = hierarchy.attach_new(g);
    let n = hierarchy.attach_new(m);
    [root, a, b, c, d, e, f, g, h, i, j, k, l, m, n]
}

#[test]
fn valid_handles_have_an_index_and_a_live_generation() {
    assert!(is_valid_handle(1));
    assert!(is_valid_handle(0x0000_ffff_ffff_ffff));
    assert!(is_valid_handle(0xfffe_0000_0000_0001));
    assert!(!is_valid_handle(0));
    assert!(!is_valid_handle(0x0001_0000_0000_0000));
    assert!(!is_valid_handle(0xffff_0000_0000_0001));
    assert!(!is_valid_handle(u64::MAX));
}

#[test]
fn handles_of_new_entities_are_valid_and_new() {
    let world = World::new();
    let mut hierarchy = Hierarchy::borrow(&world).unwrap();
    let root = new_entity(&mut hierarchy);
    let a = hierarchy.attach_new(root);
    let b = hierarchy.attach_new(root);
    assert!(is_valid_handle(a));
    assert!(is_valid_handle(b));
    assert_ne!(a, root);
    assert_ne!(b, root);
    assert_ne!(a, b);
    assert_eq!(EntityId::from_inner(a).unwrap().inner(), a);
}

#[test]
fn a_new_world_has_an_empty_hierarchy() {
    let world = World::new();
    let mut hierarchy = Hierarchy::borrow(&world).unwrap();
    assert!(hierarchy.is_empty());
    let root = hierarchy.add_entity();
    assert!(is_valid_handle(root));
    assert!(hierarchy.entities.is_alive(EntityId::from_inner(root).unwrap()));
    // an entity alone is no part of the hierarchy
    assert!(hierarchy.is_empty());
    assert_eq!(hierarchy.parent_record(root), None);
    assert_eq!(hierarchy.child_record(root), None);

    let a = hierarchy.attach_new(root);
    assert!(!hierarchy.is_empty());
    assert!(hierarchy.entities.is_alive(EntityId::from_inner(a).unwrap()));
    hierarchy.remove_single(a);
    assert!(hierarchy.is_empty());
}

#[test]
fn nothing_lent_makes_no_hierarchy() {
    assert!(Hierarchy::of_borrowed(None).is_none());
}

#[test]
fn a_second_borrow_is_refused() {
    let world = World::new();
    let first = Hierarchy::borrow(&world);
    assert!(first.is_some());
    assert!(Hierarchy::borrow(&world).is_none());
    drop(first);
    assert!(Hierarchy::borrow(&world).is_some());
}

#[test]
fn an_only_child_is_its_own_neighbour() {
    let world = World::new();
    let mut hierarchy = Hierarchy::borrow(&world).unwrap();
    let root = new_entity(&mut hierarchy);
    let a = hierarchy.attach_new(root);
    assert_eq!(hierarchy.parent_record(root), Some(Parent::new(1, a)));
    assert_eq!(hierarchy.child_record(a), Some(Child::new(root, a, a)));
    assert_eq!(hierarchy.parent_record(a), None);
    assert_eq!(hierarchy.child_record(root), None);
}

#[test]
fn attach_appends_after_the_last_child() {
    let world = World::new();
    let mut hierarchy = Hierarchy::borrow(&world).unwrap();
    let root = new_entity(&mut hierarchy);
    let a = hierarchy.attach_new(root);
    let b = hierarchy.attach_new(root);
    let c = hierarchy.attach_new(root);
    assert_eq!(hierarchy.parent_record(root), Some(Parent::new(3, a)));
    assert_eq!(hierarchy.child_record(a), Some(Child::new(root, c, b)));
    assert_eq!(hierarchy.child_record(b), Some(Child::new(root, a, c)));
    assert_eq!(hierarchy.child_record(c), Some(Child::new(root, b, a)));

    // attaching a child to the parent it has moves it to the end
    hierarchy.attach(a, root);
    assert_eq!(hierarchy.children(root).collect(), vec![b, c, a]);
    assert_eq!(hierarchy.parent_record(root), Some(Parent::new(3, b)));
}

#[test]
fn detach_twice_is_detach_once() {
    let world = World::new();
    let mut hierarchy = Hierarchy::borrow(&world).unwrap();
    let root = new_entity(&mut hierarchy);
    let a = hierarchy.attach_new(root);
    let b = hierarchy.attach_new(root);
    let c = hierarchy.attach_new(root);
    let all = [root, a, b, c];

    detach(&mut hierarchy, b);
    let once = records(&hierarchy, &all);
    assert_eq!(hierarchy.children(root).collect(), vec![a, c]);
    assert_eq!(hierarchy.child_record(b), None);

    detach(&mut hierarchy, b);
    assert_eq!(records(&hierarchy, &all), once);

    // a handle that never had a parent
    detach(&mut hierarchy, root);
    assert_eq!(records(&hierarchy, &all), once);
}

#[test]
fn detach_of_the_first_child_moves_the_head() {
    let world = World::new();
    let mut hierarchy = Hierarchy::borrow(&world).unwrap();
    let root = new_entity(&mut hierarchy);
    let a = hierarchy.attach_new(root);
    let b = hierarchy.attach_new(root);
    let c = hierarchy.attach_new(root);

    detach(&mut hierarchy, a);
    assert_eq!(hierarchy.parent_record(root), Some(Parent::new(2, b)));
    assert_eq!(hierarchy.child_record(b), Some(Child::new(root, c, c)));
    assert_eq!(hierarchy.child_record(c), Some(Child::new(root, b, b)));

    detach(&mut hierarchy, c);
    assert_eq!(hierarchy.parent_record(root), Some(Parent::new(1, b)));
    assert_eq!(hierarchy.child_record(b), Some(Child::new(root, b, b)));

    detach(&mut hierarchy, b);
    assert_eq!(hierarchy.parent_record(root), None);
    assert!(hierarchy.children(root).collect().is_empty());
}

#[test]
fn the_count_is_the_length_of_the_ring() {
    let world = World::new();
    let mut hierarchy = Hierarchy::borrow(&world).unwrap();
    let all = scenario(&mut hierarchy);
    for p in all {
        let children = hierarchy.children(p).collect();
        match hierarchy.parent_record(p) {
            None => assert!(children.is_empty()),
            Some(parent) => {
                assert_eq!(parent.num_children, children.len());
                assert_eq!(parent.first_child, children[0]);
                // following `next` for the count of children comes back to the first
                let mut cursor = parent.first_child;
                for step in 0..parent.num_children {
                    assert_eq!(cursor, children[step]);
                    let record = hierarchy.child_record(cursor).unwrap();
                    assert_eq!(record.parent, p);
                    assert_eq!(hierarchy.child_record(record.next).unwrap().prev, cursor);
                    cursor = record.next;
                    if step + 1 < parent.num_children {
                        assert_ne!(cursor, parent.first_child);
                    }
                }
                assert_eq!(cursor, parent.first_child);
            }
        }
    }
}

#[test]
fn reparenting_moves_one_child_and_keeps_the_rest_in_order() {
    let world = World::new();
    let mut hierarchy = Hierarchy::borrow(&world).unwrap();
    let root1 = new_entity(&mut hierarchy);
    let root2 = new_entity(&mut hierarchy);
    let a = hierarchy.attach_new(root1);
    let b = hierarchy.attach_new(root1);
    let c = hierarchy.attach_new(root1);
    let x = hierarchy.attach_new(root2);
    let y = hierarchy.attach_new(root2);

    hierarchy.attach(b, root2);
    assert_eq!(hierarchy.children(root1).collect(), vec![a, c]);
    assert_eq!(hierarchy.children(root2).collect(), vec![x, y, b]);
    assert_eq!(hierarchy.parent_record(root1).unwrap().num_children, 2);
    assert_eq!(hierarchy.parent_record(root2).unwrap().num_children, 3);
    assert_eq!(hierarchy.ancestors(b).collect(), vec![root2]);

    // the last children of a parent take its record with them
    hierarchy.attach(a, root2);
    hierarchy.attach(c, root2);
    assert_eq!(hierarchy.parent_record(root1), None);
    assert!(hierarchy.children(root1).collect().is_empty());
    assert_eq!(hierarchy.children(root2).collect(), vec![x, y, b, a, c]);

    // a parent without a record gets one
    hierarchy.attach(x, root1);
    assert_eq!(hierarchy.parent_record(root1), Some(Parent::new(1, x)));
    assert_eq!(hierarchy.children(root2).collect(), vec![y, b, a, c]);
}

#[test]
fn reparenting_takes_the_subtree_along() {
    let world = World::new();
    let mut hierarchy = Hierarchy::borrow(&world).unwrap();
    let [root, a, b, _, d, e, _, _, h, i, _, _, l, _, _] = scenario(&mut hierarchy);
    hierarchy.attach(a, b);
    assert_eq!(hierarchy.children(b).collect(), vec![a]);
    assert_eq!(hierarchy.ancestors(l).collect(), vec![h, d, a, b, root]);
    assert_eq!(hierarchy.descendants_depth_first(b).collect(), vec![a, d, h, l, i, e]);
}

#[test]
fn remove_single_orphans_the_children() {
    let world = World::new();
    let mut hierarchy = Hierarchy::borrow(&world).unwrap();
    let root = new_entity(&mut hierarchy);
    let w = hierarchy.attach_new(root);
    let x = hierarchy.attach_new(root);
    let y = hierarchy.attach_new(x);
    let z = hierarchy.attach_new(x);
    let y1 = hierarchy.attach_new(y);
    let y2 = hierarchy.attach_new(y);
    let y11 = hierarchy.attach_new(y1);

    hierarchy.remove_single(x);

    assert!(hierarchy.children(x).collect().is_empty());
    assert_eq!(hierarchy.parent_record(x), None);
    assert_eq!(hierarchy.child_record(x), None);
    assert_eq!(hierarchy.children(root).collect(), vec![w]);
    // the children have lost their parent
    assert_eq!(hierarchy.child_record(y), None);
    assert_eq!(hierarchy.child_record(z), None);
    assert!(hierarchy.ancestors(y).collect().is_empty());
    assert!(hierarchy.ancestors(z).collect().is_empty());
    // and kept what hangs below them
    assert_eq!(hierarchy.children(y).collect(), vec![y1, y2]);
    assert_eq!(hierarchy.descendants_depth_first(y).collect(), vec![y1, y11, y2]);
    assert_eq!(hierarchy.ancestors(y11).collect(), vec![y1, y]);
    assert_eq!(hierarchy.parent_record(z), None);
}

#[test]
fn remove_single_of_a_leaf_and_of_a_stranger() {
    let world = World::new();
    let mut hierarchy = Hierarchy::borrow(&world).unwrap();
    let root = new_entity(&mut hierarchy);
    let a = hierarchy.attach_new(root);
    let b = hierarchy.attach_new(root);
    let stranger = new_entity(&mut hierarchy);

    hierarchy.remove_single(stranger);
    assert_eq!(hierarchy.children(root).collect(), vec![a, b]);

    hierarchy.remove_single(a);
    assert_eq!(hierarchy.children(root).collect(), vec![b]);
    assert_eq!(hierarchy.child_record(a), None);
}

#[test]
fn remove_takes_out_all_that_hangs_below() {
    let world = World::new();
    let mut hierarchy = Hierarchy::borrow(&world).unwrap();
    let all = scenario(&mut hierarchy);
    let [root, a, b, c, d, e, f, g, h, i, j, k, l, m, n] = all;

    hierarchy.remove(a);

    for gone in [a, d, e, h, i, l] {
        assert_eq!(hierarchy.parent_record(gone), None);
        assert_eq!(hierarchy.child_record(gone), None);
        assert!(hierarchy.children(gone).collect().is_empty());
        assert!(hierarchy.ancestors(gone).collect().is_empty());
        assert!(hierarchy.descendants_depth_first(gone).collect().is_empty());
        assert!(hierarchy.descendants_breadth_first(gone).collect().is_empty());
    }
    let depth_first = hierarchy.descendants_depth_first(root).collect();
    let breadth_first = hierarchy.descendants_breadth_first(root).collect();
    assert_eq!(depth_first, vec![b, c, f, g, j, m, n, k]);
    assert_eq!(breadth_first, vec![b, c, f, g, j, k, m, n]);
    assert_eq!(hierarchy.children(root).collect(), vec![b, c]);
    assert_eq!(hierarchy.ancestors(n).collect(), vec![m, j, g, c, root]);

    hierarchy.remove(root);
    for gone in all {
        assert_eq!(hierarchy.parent_record(gone), None);
        assert_eq!(hierarchy.child_record(gone), None);
    }
}

#[test]
fn a_removed_entity_can_be_attached_again() {
    let world = World::new();
    let mut hierarchy = Hierarchy::borrow(&world).unwrap();
    let root = new_entity(&mut hierarchy);
    let a = hierarchy.attach_new(root);
    let b = hierarchy.attach_new(a);
    hierarchy.remove(a);
    hierarchy.attach(b, root);
    hierarchy.attach(a, b);
    assert_eq!(hierarchy.descendants_depth_first(root).collect(), vec![b, a]);
    assert_eq!(hierarchy.ancestors(a).collect(), vec![b, root]);
}

#[test]
fn a_recycled_entity_joins_the_hierarchy() {
    let mut world = World::new();
    let root = world.add_entity(()).inner();
    let old = {
        let mut hierarchy = Hierarchy::borrow(&world).unwrap();
        let old = hierarchy.attach_new(root);
        hierarchy.remove(old);
        old
    };
    assert!(world.delete_entity(EntityId::from_inner(old).unwrap()));
    let mut hierarchy = Hierarchy::borrow(&world).unwrap();
    let new = hierarchy.attach_new(root);
    assert_ne!(new, old);
    assert_eq!(new % 0x1_0000_0000_0000, old % 0x1_0000_0000_0000);
    assert_eq!(hierarchy.children(root).collect(), vec![new]);
    assert_eq!(hierarchy.child_record(old), None);
}

#[test]
fn the_scenario_tree_is_walked_in_all_four_ways() {
    let world = World::new();
    let mut hierarchy = Hierarchy::borrow(&world).unwrap();
    let [root, a, b, c, d, e, f, g, h, i, j, k, l, m, n] = scenario(&mut hierarchy);
    assert_eq!(
        hierarchy.descendants_depth_first(root).collect(),
        vec![a, d, h, l, i, e, b, c, f, g, j, m, n, k]
    );
    assert_eq!(
        hierarchy.descendants_breadth_first(root).collect(),
        vec![a, b, c, d, e, f, g, h, i, j, k, l, m, n]
    );
    assert_eq!(hierarchy.ancestors(l).collect(), vec![h, d, a, root]);
    assert_eq!(hierarchy.children(c).collect(), vec![f, g]);
    assert!(hierarchy.ancestors(root).collect().is_empty());
    assert!(hierarchy.children(n).collect().is_empty());
    assert!(hierarchy.descendants_depth_first(n).collect().is_empty());
    assert!(hierarchy.descendants_breadth_first(b).collect().is_empty());
    assert_eq!(hierarchy.descendants_breadth_first(g).collect(), vec![j, k, m, n]);
}

#[test]
fn cursors_give_one_handle_at_a_time() {
    let world = World::new();
    let mut hierarchy = Hierarchy::borrow(&world).unwrap();
    let [root, a, b, c, d, ..] = scenario(&mut hierarchy);

    let mut children = hierarchy.children(root);
    assert_eq!(children.next(), Some(a));
    assert_eq!(children.next(), Some(b));
    assert_eq!(children.collect(), vec![c]);

    let mut ancestors = hierarchy.ancestors(d);
    assert_eq!(ancestors.next(), Some(a));
    assert_eq!(ancestors.next(), Some(root));
    assert_eq!(ancestors.next(), None);
    assert_eq!(ancestors.next(), None);

    let mut depth_first = hierarchy.descendants_depth_first(root);
    assert_eq!(depth_first.next(), Some(a));
    assert_eq!(depth_first.next(), Some(d));
    assert_eq!(depth_first.collect().len(), 12);

    let mut breadth_first = hierarchy.descendants_breadth_first(root);
    assert_eq!(breadth_first.next(), Some(a));
    assert_eq!(breadth_first.next(), Some(b));
    assert_eq!(breadth_first.next(), Some(c));
    assert_eq!(breadth_first.next(), Some(d));
    assert_eq!(breadth_first.collect().len(), 10);
}

#[test]
fn sorting_keeps_the_children_and_changes_their_order() {
    let world = World::new();
    let mut hierarchy = Hierarchy::borrow(&world).unwrap();
    let root = new_entity(&mut hierarchy);
    let other = new_entity(&mut hierarchy);
    let a = hierarchy.attach_new(root);
    let b = hierarchy.attach_new(root);
    let c = hierarchy.attach_new(root);
    let d = hierarchy.attach_new(root);
    let a1 = hierarchy.attach_new(a);
    let x = hierarchy.attach_new(other);
    let y = hierarchy.attach_new(other);

    // newest first
    hierarchy.sort_children_by(root, |p, q| q.cmp(p));

    assert_eq!(hierarchy.children(root).collect(), vec![d, c, b, a]);
    assert_eq!(hierarchy.parent_record(root), Some(Parent::new(4, d)));
    assert_eq!(hierarchy.child_record(d), Some(Child::new(root, a, c)));
    assert_eq!(hierarchy.child_record(c), Some(Child::new(root, d, b)));
    assert_eq!(hierarchy.child_record(b), Some(Child::new(root, c, a)));
    assert_eq!(hierarchy.child_record(a), Some(Child::new(root, b, d)));
    // nothing else has moved
    assert_eq!(hierarchy.children(a).collect(), vec![a1]);
    assert_eq!(hierarchy.children(other).collect(), vec![x, y]);
    assert_eq!(hierarchy.descendants_depth_first(root).collect(), vec![d, c, b, a, a1]);
}

#[test]
fn sorting_fewer_than_two_children_changes_nothing() {
    let world = World::new();
    let mut hierarchy = Hierarchy::borrow(&world).unwrap();
    let root = new_entity(&mut hierarchy);
    let a = hierarchy.attach_new(root);
    let all = [root, a];
    let before = records(&hierarchy, &all);

    hierarchy.sort_children_by(root, |p, q| q.cmp(p));
    assert_eq!(records(&hierarchy, &all), before);
    assert_eq!(hierarchy.children(root).collect(), vec![a]);

    hierarchy.sort_children_by(a, |p, q| q.cmp(p));
    assert_eq!(records(&hierarchy, &all), before);
    assert!(hierarchy.children(a).collect().is_empty());
}

#[test]
fn sorting_keeps_equal_children_in_the_order_they_had() {
    let world = World::new();
    let mut hierarchy = Hierarchy::borrow(&world).unwrap();
    let root = new_entity(&mut hierarchy);
    let mut kids = Vec::new();
    for _ in 0..6 {
        kids.push(hierarchy.attach_new(root));
    }
    let keys = [2, 1, 2, 1, 0, 1];
    let key = |h: &u64| keys[kids.iter().position(|k| k == h).unwrap()];

    hierarchy.sort_children_by(root, |p, q| key(p).cmp(&key(q)));
    assert_eq!(
        hierarchy.children(root).collect(),
        vec![kids[4], kids[1], kids[3], kids[5], kids[0], kids[2]]
    );

    // a comparison that calls all children equal moves none
    hierarchy.sort_children_by(root, |_, _| Ordering::Equal);
    assert_eq!(
        hierarchy.children(root).collect(),
        vec![kids[4], kids[1], kids[3], kids[5], kids[0], kids[2]]
    );
}

#[test]
fn the_outline_gives_each_entity_its_depth() {
    let world = World::new();
    let mut hierarchy = Hierarchy::borrow(&world).unwrap();
    let [root, a, b, c, d, e, f, g, h, i, j, k, l, m, n] = scenario(&mut hierarchy);
    assert_eq!(
        outline(&hierarchy, root),
        vec![
            (root, 0),
            (a, 1),
            (d, 2),
            (h, 3),
            (l, 4),
            (i, 3),
            (e, 2),
            (b, 1),
            (c, 1),
            (f, 2),
            (g, 2),
            (j, 3),
            (m, 4),
            (n, 5),
            (k, 3)
        ]
    );
    assert_eq!(outline(&hierarchy, g), vec![(g, 0), (j, 1), (m, 2), (n, 3), (k, 1)]);
    assert_eq!(outline(&hierarchy, n), vec![(n, 0)]);
}

#[test]
fn the_text_of_a_tree_indents_by_two_spaces_a_level() {
    let world = World::new();
    let mut hierarchy = Hierarchy::borrow(&world).unwrap();
    let root = new_entity(&mut hierarchy);
    assert_eq!(hierarchy.debug_tree(root, |_| "alone".to_string()).render(), "alone\n");

    let a = hierarchy.attach_new(root);
    let b = hierarchy.attach_new(a);
    let c = hierarchy.attach_new(root);
    let name = |h: u64| {
        if h == root {
            "r".to_string()
        } else if h == a {
            "a".to_string()
        } else if h == b {
            "b".to_string()
        } else if h == c {
            "c".to_string()
        } else {
            "?".to_string()
        }
    };
    assert_eq!(hierarchy.debug_tree(root, name).render(), "r\n  a\n    b\n  c\n");
    assert_eq!(hierarchy.debug_tree(a, name).render(), "a\n  b\n");
    assert_eq!(hierarchy.debug_tree(root, |_| String::new()).render(), "\n  \n    \n  \n");
}

#[test]
fn the_children_cursor_holds_the_next_child_and_the_count_left() {
    let world = World::new();
    let mut hierarchy = Hierarchy::borrow(&world).unwrap();
    let root = new_entity(&mut hierarchy);
    let a = hierarchy.attach_new(root);
    let b = hierarchy.attach_new(root);

    let mut children = hierarchy.children(root);
    assert_eq!(children.cursor, (a, 2));
    assert_eq!(children.next(), Some(a));
    assert_eq!(children.cursor, (b, 1));
    assert_eq!(children.next(), Some(b));
    // the last step moves on too: round the ring, to the first child
    assert_eq!(children.cursor, (a, 0));
    assert_eq!(children.next(), None);
    assert_eq!(children.cursor, (a, 0));
    assert_eq!(children.next(), None);
    assert_eq!(children.cursor, (a, 0));

    // without a `Parent` record the cursor stands at the entity itself
    let mut none = hierarchy.children(a);
    assert_eq!(none.cursor, (a, 0));
    assert_eq!(none.next(), None);
    assert_eq!(none.cursor, (a, 0));
}

#[test]
fn the_ancestor_cursor_climbs_one_parent_a_step() {
    let world = World::new();
    let mut hierarchy = Hierarchy::borrow(&world).unwrap();
    let root = new_entity(&mut hierarchy);
    let a = hierarchy.attach_new(root);
    let b = hierarchy.attach_new(a);

    let mut ancestors = hierarchy.ancestors(b);
    assert_eq!(ancestors.cursor, b);
    assert_eq!(ancestors.next(), Some(a));
    assert_eq!(ancestors.cursor, a);
    assert_eq!(ancestors.next(), Some(root));
    assert_eq!(ancestors.cursor, root);
    assert_eq!(ancestors.next(), None);
    assert_eq!(ancestors.cursor, root);
}

#[test]
fn the_depth_first_cursor_stacks_a_frame_for_each_level() {
    let world = World::new();
    let mut hierarchy = Hierarchy::borrow(&world).unwrap();
    let root = new_entity(&mut hierarchy);
    let a = hierarchy.attach_new(root);
    let b = hierarchy.attach_new(root);
    let c = hierarchy.attach_new(a);

    let mut walk = hierarchy.descendants_depth_first(root);
    assert_eq!(walk.cursors, vec![(a, 2)]);
    assert_eq!(walk.next(), Some(a));
    assert_eq!(walk.cursors, vec![(b, 1), (c, 1)]);
    assert_eq!(walk.next(), Some(c));
    assert_eq!(walk.cursors, vec![(b, 1), (c, 0)]);
    // the used-up frame on top is popped before the step
    assert_eq!(walk.next(), Some(b));
    assert_eq!(walk.cursors, vec![(a, 0)]);
    assert_eq!(walk.next(), None);
    assert!(walk.cursors.is_empty());
    assert_eq!(walk.next(), None);
    assert!(walk.cursors.is_empty());

    assert!(hierarchy.descendants_depth_first(c).cursors.is_empty());
}

#[test]
fn the_breadth_first_cursor_queues_a_frame_for_each_parent() {
    let world = World::new();
    let mut hierarchy = Hierarchy::borrow(&world).unwrap();
    let root = new_entity(&mut hierarchy);
    let a = hierarchy.attach_new(root);
    let b = hierarchy.attach_new(root);
    let c = hierarchy.attach_new(a);

    let mut walk = hierarchy.descendants_breadth_first(root);
    assert_eq!(Vec::from(walk.cursors.clone()), vec![(a, 2)]);
    assert_eq!(walk.next(), Some(a));
    // the stepped frame stays in front, the children's frame goes to the back
    assert_eq!(Vec::from(walk.cursors.clone()), vec![(b, 1), (c, 1)]);
    assert_eq!(walk.next(), Some(b));
    assert_eq!(Vec::from(walk.cursors.clone()), vec![(a, 0), (c, 1)]);
    assert_eq!(walk.next(), Some(c));
    assert_eq!(Vec::from(walk.cursors.clone()), vec![(c, 0)]);
    assert_eq!(walk.next(), None);
    assert!(walk.cursors.is_empty());

    assert!(hierarchy.descendants_breadth_first(b).cursors.is_empty());
}

#[test]
fn another_generation_of_an_index_is_a_stranger() {
    let world = World::new();
    let mut hierarchy = Hierarchy::borrow(&world).unwrap();
    let root = new_entity(&mut hierarchy);
    let a = hierarchy.attach_new(root);
    let a1 = hierarchy.attach_new(a);
    let all = [root, a, a1];
    let before = records(&hierarchy, &all);

    // the same index, a later generation
    let later = a + 0x1_0000_0000_0000;
    assert!(is_valid_handle(later));
    assert_eq!(hierarchy.child_record(later), None);
    assert_eq!(hierarchy.parent_record(later), None);

    detach(&mut hierarchy, later);
    assert_eq!(records(&hierarchy, &all), before);
    hierarchy.remove_single(later);
    assert_eq!(records(&hierarchy, &all), before);
    hierarchy.remove(later);
    assert_eq!(records(&hierarchy, &all), before);
    assert!(hierarchy.children(later).collect().is_empty());
    assert!(hierarchy.ancestors(later).collect().is_empty());
    assert_eq!(hierarchy.descendants_depth_first(root).collect(), vec![a, a1]);
}

#[test]
fn the_comparison_is_asked_about_children_only() {
    let world = World::new();
    let mut hierarchy = Hierarchy::borrow(&world).unwrap();
    let root = new_entity(&mut hierarchy);
    let other = new_entity(&mut hierarchy);
    let a = hierarchy.attach_new(root);
    let b = hierarchy.attach_new(root);
    let c = hierarchy.attach_new(root);
    let x = hierarchy.attach_new(other);
    let kids = [a, b, c];

    hierarchy.sort_children_by(root, |p, q| {
        assert!(kids.contains(p) && kids.contains(q));
        q.cmp(p)
    });
    assert_eq!(hierarchy.children(root).collect(), vec![c, b, a]);

    // with fewer than two children it is not asked at all
    hierarchy.sort_children_by(other, |_, _| panic!("asked about an only child"));
    hierarchy.sort_children_by(x, |_, _| panic!("asked about no child"));
    assert_eq!(hierarchy.children(other).collect(), vec![x]);
}
