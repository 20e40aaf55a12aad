use shipyard::World;
use shipyard_hierarchy::{detach, Hierarchy, HierarchyIter, HierarchyMut};
use std::collections::HashMap;

/// A hierarchy kept as plain lists, to hold the library against.
struct Model {
    children: HashMap<u64, Vec<u64>>,
    parent: HashMap<u64, u64>,
}

impl Model {
    fn new() -> Model {
        Model { children: HashMap::new(), parent: HashMap::new() }
    }

    fn children(&self, p: u64) -> Vec<u64> {
        self.children.get(&p).cloned().unwrap_or_default()
    }

    fn ancestors(&self, mut x: u64) -> Vec<u64> {
        let mut out = Vec::new();
        while let Some(p) = self.parent.get(&x) {
            out.push(*p);
            x = *p;
        }
        out
    }

    fn depth_first(&self, x: u64, out: &mut Vec<u64>) {
        for c in self.children(x) {
            out.push(c);
            self.depth_first(c, out);
        }
    }

    fn breadth_first(&self, x: u64) -> Vec<u64> {
        let mut out = Vec::new();
        let mut level = self.children(x);
        while !level.is_empty() {
            out.extend(level.iter().copied());
            level = level.iter().flat_map(|c| self.children(*c)).collect();
        }
        out
    }

    fn detach(&mut self, x: u64) {
        if let Some(p) = self.parent.remove(&x) {
            let list = self.children.get_mut(&p).unwrap();
            list.retain(|c| *c != x);
            if list.is_empty() {
                self.children.remove(&p);
            }
        }
    }

    fn attach(&mut self, x: u64, p: u64) {
        self.detach(x);
        self.children.entry(p).or_default().push(x);
        self.parent.insert(x, p);
    }

    fn remove_single(&mut self, x: u64) {
        self.detach(x);
        for c in self.children(x) {
            self.parent.remove(&c);
        }
        self.children.remove(&x);
    }

    fn remove(&mut self, x: u64) {
        for c in self.children(x) {
            self.remove(c);
        }
        self.remove_single(x);
    }
}

/// A small generator of numbers, the same on every run.
struct Numbers(u64);

impl Numbers {
    fn next(&mut self, below: usize) -> usize {
        self.0 = self.0.wrapping_mul(6364136223846793005).wrapping_add(1442695040888963407);
        ((self.0 >> 33) % (below as u64)) as usize
    }
}

fn compare(hierarchy: &Hierarchy<'_>, model: &Model, entities: &[u64]) {
    for e in entities {
        assert_eq!(hierarchy.children(*e).collect(), model.children(*e));
        assert_eq!(hierarchy.ancestors(*e).collect(), model.ancestors(*e));
        let mut depth_first = Vec::new();
        model.depth_first(*e, &mut depth_first);
        assert_eq!(hierarchy.descendants_depth_first(*e).collect(), depth_first);
        assert_eq!(hierarchy.descendants_breadth_first(*e).collect(), model.breadth_first(*e));
        match hierarchy.parent_record(*e) {
            None => assert!(model.children(*e).is_empty()),
            Some(record) => {
                assert_eq!(record.num_children, model.children(*e).len());
                assert_eq!(record.first_child, model.children(*e)[0]);
            }
        }
        assert_eq!(hierarchy.child_record(*e).map(|c| c.parent), model.parent.get(e).copied());
    }
}

#[test]
fn many_operations_agree_with_plain_lists() {
    let world = World::new();
    let mut hierarchy = Hierarchy::borrow(&world).unwrap();
    let mut model = Model::new();
    let mut numbers = Numbers(7);
    let mut entities = Vec::new();
    for _ in 0..6 {
        entities.push(hierarchy.add_entity());
    }
    for step in 0..600 {
        let x = entities[numbers.next(entities.len())];
        let p = entities[numbers.next(entities.len())];
        match numbers.next(8) {
            0 | 1 | 2 => {
                // no entity is hung below itself
                if x != p && !model.ancestors(p).contains(&x) {
                    hierarchy.attach(x, p);
                    model.attach(x, p);
                }
            }
            3 => {
                if entities.len() < 60 {
                    let new = hierarchy.attach_new(p);
                    model.attach(new, p);
                    entities.push(new);
                }
            }
            4 => {
                detach(&mut hierarchy, x);
                model.detach(x);
            }
            5 => {
                hierarchy.remove_single(x);
                model.remove_single(x);
            }
            6 => {
                hierarchy.remove(x);
                model.remove(x);
            }
            _ => {
                hierarchy.sort_children_by(p, |a, b| b.cmp(a));
                if let Some(list) = model.children.get_mut(&p) {
                    list.sort_by(|a, b| b.cmp(a));
                }
            }
        }
        if step % 7 == 0 {
            compare(&hierarchy, &model, &entities);
        }
    }
    compare(&hierarchy, &model, &entities);
}
