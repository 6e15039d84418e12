use tg_render_engine::entity::Entity;
use tg_render_engine::hierarchy::Parent;
use tg_render_engine::storage::EventKind;
use tg_render_engine::storage::Storage;

#[test]
fn insert_and_get_round_trip() {
    let mut s: Storage<Parent> = Storage::new();
    assert!(s.get(3).is_none());
    s.insert(3, Parent(Entity::new(7)));
    assert_eq!(s.get(3).unwrap().0.index, 7);
    assert!(s.get(2).is_none());
    assert!(s.get(4).is_none());
}

#[test]
fn remove_clears_the_slot() {
    let mut s: Storage<Parent> = Storage::new();
    s.insert(1, Parent(Entity::new(0)));
    s.remove(1);
    assert!(s.get(1).is_none());
}

#[test]
fn reader_sees_only_events_after_registration() {
    let mut s: Storage<Parent> = Storage::new();
    s.insert(0, Parent(Entity::new(9)));
    let r = s.register_reader();
    s.insert(1, Parent(Entity::new(9)));
    let evs = s.read(r);
    assert_eq!(evs.len(), 1);
    assert_eq!(evs[0].entity, 1);
    assert!(matches!(evs[0].kind, EventKind::Inserted));
}

#[test]
fn events_are_never_delivered_twice() {
    let mut s: Storage<Parent> = Storage::new();
    let r = s.register_reader();
    s.insert(0, Parent(Entity::new(1)));
    s.insert(0, Parent(Entity::new(2)));
    s.remove(0);
    let evs = s.read(r);
    assert_eq!(evs.len(), 3);
    assert!(matches!(evs[0].kind, EventKind::Inserted));
    assert!(matches!(evs[1].kind, EventKind::Modified));
    assert!(matches!(evs[2].kind, EventKind::Removed));
    let again = s.read(r);
    assert!(again.is_empty());
}

#[test]
fn two_readers_have_independent_cursors() {
    let mut s: Storage<Parent> = Storage::new();
    let r1 = s.register_reader();
    s.insert(5, Parent(Entity::new(0)));
    let r2 = s.register_reader();
    s.insert(6, Parent(Entity::new(0)));
    let evs1 = s.read(r1);
    let evs2 = s.read(r2);
    assert_eq!(evs1.len(), 2);
    assert_eq!(evs2.len(), 1);
    assert_eq!(evs2[0].entity, 6);
}

#[test]
fn removing_a_missing_component_logs_nothing() {
    let mut s: Storage<Parent> = Storage::new();
    let r = s.register_reader();
    s.remove(4);
    assert!(s.read(r).is_empty());
}
