use tg_render_engine::entity::Entity;
use tg_render_engine::hierarchy::HierarchySystem;
use tg_render_engine::world::World;

fn maintained_world() -> (World, HierarchySystem) {
    let mut w = World::new();
    let mut sys = HierarchySystem::new();
    sys.setup(&mut w);
    (w, sys)
}

fn children_vec(w: &World, p: Entity) -> Vec<Entity> {
    match w.children_of(p) {
        Some(list) => {
            let mut v = Vec::new();
            let n = list.len();
            let mut i = 0;
            while i < n {
                v.push(list.get(i));
                i += 1;
            }
            v
        }
        None => Vec::new(),
    }
}

#[test]
fn reparent_consistency() {
    let (mut w, mut sys) = maintained_world();
    let a = w.create_entity();
    let b = w.create_entity();
    let c = w.create_entity();

    w.insert_parent(a, b);
    sys.run(&mut w);
    w.apply_lazy();
    assert_eq!(w.previous_parent_of(a), Some(b));
    assert_eq!(children_vec(&w, b), vec![a]);

    w.insert_parent(a, c);
    sys.run(&mut w);
    w.apply_lazy();
    assert_eq!(w.previous_parent_of(a), Some(c));
    assert!(!children_vec(&w, b).contains(&a));
    assert_eq!(children_vec(&w, c), vec![a]);
}

#[test]
fn no_duplicate_children_on_repeated_insert() {
    let (mut w, mut sys) = maintained_world();
    let a = w.create_entity();
    let b = w.create_entity();

    w.insert_parent(a, b);
    w.insert_parent(a, b);
    sys.run(&mut w);
    w.apply_lazy();
    assert_eq!(children_vec(&w, b), vec![a]);

    // a second reparent to the same parent in a later tick changes nothing
    w.insert_parent(a, b);
    sys.run(&mut w);
    w.apply_lazy();
    assert_eq!(children_vec(&w, b), vec![a]);
}

#[test]
fn parent_removal_cleans_previous_parent() {
    let (mut w, mut sys) = maintained_world();
    let a = w.create_entity();
    let b = w.create_entity();

    w.insert_parent(a, b);
    sys.run(&mut w);
    w.apply_lazy();
    assert_eq!(w.previous_parent_of(a), Some(b));

    w.remove_parent(a);
    sys.run(&mut w);
    w.apply_lazy();
    assert_eq!(w.previous_parent_of(a), None);
}

#[test]
fn two_siblings_under_one_parent() {
    let (mut w, mut sys) = maintained_world();
    let a = w.create_entity();
    let b = w.create_entity();
    let p = w.create_entity();

    w.insert_parent(a, p);
    w.insert_parent(b, p);
    sys.run(&mut w);
    w.apply_lazy();
    // one staged insertion for p, in event-delivery order
    assert_eq!(children_vec(&w, p), vec![a, b]);
}

#[test]
fn noop_pass_writes_nothing() {
    let (mut w, mut sys) = maintained_world();
    let a = w.create_entity();
    let b = w.create_entity();
    w.insert_parent(a, b);
    sys.run(&mut w);
    w.apply_lazy();

    // watch the parent storage across the second pass: it stays silent,
    // and the books are unchanged
    let probe = w.parents.register_reader();
    sys.run(&mut w);
    w.apply_lazy();
    assert!(w.parents.read(probe).is_empty());
    assert_eq!(w.previous_parent_of(a), Some(b));
    assert_eq!(children_vec(&w, b), vec![a]);
}

#[test]
fn reparent_across_generations() {
    let (mut w, mut sys) = maintained_world();
    let root = w.create_entity();
    let mid = w.create_entity();
    let leaf = w.create_entity();

    w.insert_parent(mid, root);
    w.insert_parent(leaf, mid);
    sys.run(&mut w);
    w.apply_lazy();
    assert_eq!(children_vec(&w, root), vec![mid]);
    assert_eq!(children_vec(&w, mid), vec![leaf]);

    // pull the leaf up to the root
    w.insert_parent(leaf, root);
    sys.run(&mut w);
    w.apply_lazy();
    assert!(!children_vec(&w, mid).contains(&leaf));
    let kids = children_vec(&w, root);
    assert!(kids.contains(&mid));
    assert!(kids.contains(&leaf));
    assert_eq!(w.previous_parent_of(leaf), Some(root));
}
