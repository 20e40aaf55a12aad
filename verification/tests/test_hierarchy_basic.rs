use shipyard::{Component, EntityId, ViewMut, World};
use shipyard_hierarchy::{detach, Hierarchy, HierarchyIter, HierarchyIterDebug, HierarchyMut};
use std::collections::HashMap;

fn entity(handle: u64) -> EntityId {
    EntityId::from_inner(handle).unwrap()
}

fn new_entity(hierarchy: &mut Hierarchy<'_>) -> u64 {
    hierarchy.entities.add_entity((), ()).inner()
}

#[test]
fn test_detach() {
    let world = World::new();
    let mut hierarchy = Hierarchy::borrow(&world).unwrap();

    let root1 = new_entity(&mut hierarchy);
    let e1 = hierarchy.attach_new(root1);
    let e2 = hierarchy.attach_new(e1);

    detach(&mut hierarchy, e1);

    assert!(hierarchy.descendants_depth_first(root1).collect().is_empty());
    assert!(hierarchy.ancestors(e1).collect().is_empty());
    assert_eq!(hierarchy.children(e1).collect(), vec![e2]);
}

#[test]
fn test_hierarchy() {
    let world = World::new();
    let mut hierarchy = Hierarchy::borrow(&world).unwrap();

    let root1 = new_entity(&mut hierarchy);
    let root2 = new_entity(&mut hierarchy);

    let e1 = hierarchy.attach_new(root1);
    let e2 = hierarchy.attach_new(e1);
    let e3 = hierarchy.attach_new(e1);
    let e4 = hierarchy.attach_new(e3);

    hierarchy.attach(e3, root2);

    let e5 = hierarchy.attach_new(e3);

    assert_eq!(hierarchy.children(e3).collect(), vec![e4, e5]);
    assert_eq!(hierarchy.ancestors(e4).collect(), vec![e3, root2]);

    assert_eq!(hierarchy.descendants_depth_first(root1).collect(), vec![e1, e2]);
    assert_eq!(hierarchy.descendants_depth_first(root2).collect(), vec![e3, e4, e5]);

    hierarchy.remove_single(e1);

    assert!(hierarchy.children(e1).collect().is_empty());

    hierarchy.remove(root2);

    assert!(hierarchy.descendants_depth_first(root2).collect().is_empty());
    assert!(hierarchy.descendants_depth_first(e3).collect().is_empty());
    assert!(hierarchy.ancestors(e5).collect().is_empty());
}

#[derive(PartialEq, Eq, Debug, PartialOrd, Ord)]
struct USIZE(usize);

impl Component for USIZE {
    type Tracking = shipyard::track::Untracked;
}

#[test]
fn test_sorting_depth_first() {
    let world = World::new();
    let mut hierarchy = Hierarchy::borrow(&world).unwrap();
    let mut usizes = world.borrow::<ViewMut<USIZE>>().unwrap();

    let root = new_entity(&mut hierarchy);

    let e0 = hierarchy.attach_new(root);
    let e1 = hierarchy.attach_new(root);
    let e2 = hierarchy.attach_new(root);
    let e3 = hierarchy.attach_new(root);
    let e4 = hierarchy.attach_new(root);

    hierarchy.entities.add_component(entity(e0), &mut usizes, USIZE(7));
    hierarchy.entities.add_component(entity(e1), &mut usizes, USIZE(5));
    hierarchy.entities.add_component(entity(e2), &mut usizes, USIZE(6));
    hierarchy.entities.add_component(entity(e3), &mut usizes, USIZE(1));
    hierarchy.entities.add_component(entity(e4), &mut usizes, USIZE(3));

    assert_eq!(hierarchy.children(root).collect(), vec![e0, e1, e2, e3, e4]);

    hierarchy.sort_children_by(root, |a, b| usizes[entity(*a)].cmp(&usizes[entity(*b)]));

    assert_eq!(hierarchy.children(root).collect(), vec![e3, e4, e1, e2, e0]);
}

/*
       *
       |
    |--|--|
    A  B  C
  |-|     |-|
  D E     F G
|-|         |-|
H I         J K
|           |
L           M
            |
            N

Breadth-first: alphabetical
Depth-first: A,D,H,L,I,E,B,C,F,G,J,M,N,K
*/
fn create_tree(hierarchy: &mut Hierarchy<'_>) -> ([u64; 15], HashMap<u64, &'static str>) {
    let mut labels = HashMap::<u64, &'static str>::new();

    let root = new_entity(hierarchy);

    //attach them somewhat out of order
    let a = hierarchy.attach_new(root);
    let b = hierarchy.attach_new(root);
    let c = hierarchy.attach_new(root);
    let d = hierarchy.attach_new(a);
    let e = hierarchy.attach_new(a);
    let f = hierarchy.attach_new(c);
    let g = hierarchy.attach_new(c);
    let h = hierarchy.attach_new(d);
    let i = hierarchy.attach_new(d);
    let l = hierarchy.attach_new(h);
    let j = hierarchy.attach_new(g);
    let m = hierarchy.attach_new(j);
    let k = hierarchy.attach_new(g);
    let n = hierarchy.attach_new(m);

    labels.insert(root, "root");
    labels.insert(a, "a");
    labels.insert(b, "b");
    labels.insert(c, "c");
    labels.insert(d, "d");
    labels.insert(e, "e");
    labels.insert(f, "f");
    labels.insert(g, "g");
    labels.insert(h, "h");
    labels.insert(i, "i");
    labels.insert(j, "j");
    labels.insert(k, "k");
    labels.insert(l, "l");
    labels.insert(m, "m");
    labels.insert(n, "n");

    ([root, a, b, c, d, e, f, g, h, i, j, k, l, m, n], labels)
}

#[test]
fn test_hierarchy_tree() {
    let world = World::new();
    let mut hierarchy = Hierarchy::borrow(&world).unwrap();
    let ([root, a, b, c, d, e, f, g, h, i, j, k, l, m, n], _) = create_tree(&mut hierarchy);

    assert_eq!(
        hierarchy.descendants_depth_first(root).collect(),
        vec![a, d, h, l, i, e, b, c, f, g, j, m, n, k]
    );
    assert_eq!(
        hierarchy.descendants_breadth_first(root).collect(),
        vec![a, b, c, d, e, f, g, h, i, j, k, l, m, n]
    );
}

#[test]
fn test_debug_print() {
    let world = World::new();
    {
        let mut hierarchy = Hierarchy::borrow(&world).unwrap();

        let root = new_entity(&mut hierarchy);

        let e1 = hierarchy.attach_new(root);
        let e2 = hierarchy.attach_new(root);

        let _e3 = hierarchy.attach_new(e1);
        let _e4 = hierarchy.attach_new(e1);

        let e5 = hierarchy.attach_new(e2);
        let e6 = hierarchy.attach_new(e2);
        let _e7 = hierarchy.attach_new(e5);
        let _e8 = hierarchy.attach_new(e6);

        assert_eq!(
            EXPECTED_DEBUG_TREE_1,
            hierarchy.debug_tree(root, |e| format!("{:?}", entity(e))).render()
        );
    }

    let world = World::new();
    let mut hierarchy = Hierarchy::borrow(&world).unwrap();
    let (entities, labels) = create_tree(&mut hierarchy);

    println!(
        "{}",
        hierarchy.debug_tree(entities[0], |e| labels.get(&e).unwrap().to_string()).render()
    );
    assert_eq!(
        EXPECTED_DEBUG_TREE_2,
        hierarchy.debug_tree(entities[0], |e| labels.get(&e).unwrap().to_string()).render()
    );
}

const EXPECTED_DEBUG_TREE_1: &'static str = r#"EId(0.0)
  EId(1.0)
    EId(3.0)
    EId(4.0)
  EId(2.0)
    EId(5.0)
      EId(7.0)
    EId(6.0)
      EId(8.0)
"#;

const EXPECTED_DEBUG_TREE_2: &'static str = r#"root
  a
    d
      h
        l
      i
    e
  b
  c
    f
    g
      j
        m
          n
      k
"#;
