use hammer_core::components::{BehaviourDelegate, Component};
use hammer_core::ecs::{Entity, Event, World};
use hammer_core::error::Error;
use hammer_core::math::{Transform, Vector};

fn named(world: &mut World, name: &str) -> Entity {
    Entity::new(world, String::from(name))
}

#[test]
fn entities_get_fresh_ascending_handles() {
    let mut world = World::new();
    let a = named(&mut world, "a");
    let b = named(&mut world, "b");
    assert_ne!(a, b);
    assert_eq!(a.id(&world), "a");
    assert_eq!(b.id(&world), "b");
    let all = Entity::all(&world);
    assert_eq!(all, vec![a, b]);
}

#[test]
fn add_child_links_both_directions() {
    let mut world = World::new();
    let root = named(&mut world, "root");
    let child = named(&mut world, "child1");
    root.add_child(&mut world, child).unwrap();
    assert_eq!(child.parent(&world), Some(root));
    assert_eq!(root.children(&world), vec![child]);
}

#[test]
fn duplicate_child_name_is_rejected_and_changes_nothing() {
    let mut world = World::new();
    let root = named(&mut world, "root");
    let x1 = named(&mut world, "X");
    let x2 = named(&mut world, "X");
    root.add_child(&mut world, x1).unwrap();
    let before = root.children(&world).len();
    let r = root.add_child(&mut world, x2);
    assert!(matches!(r, Err(Error::DuplicateChild(ref n)) if n == "X"));
    assert_eq!(root.children(&world).len(), before);
    assert!(x2.parent(&world).is_none());
}

#[test]
fn dead_and_non_leaf_children_are_rejected() {
    let mut world = World::new();
    let root = named(&mut world, "root");
    let mid = named(&mut world, "mid");
    let leaf = named(&mut world, "leaf");
    mid.add_child(&mut world, leaf).unwrap();
    // mid now has a child, so it is no longer a detachable leaf
    assert!(matches!(root.add_child(&mut world, mid), Err(Error::InvalidChild)));
    // an already-attached entity cannot be attached twice
    assert!(matches!(root.add_child(&mut world, leaf), Err(Error::InvalidChild)));
    // self-attachment is refused
    assert!(matches!(root.add_child(&mut world, root), Err(Error::InvalidChild)));
    // a destroyed handle is no child
    let gone = named(&mut world, "gone");
    gone.destroy(&mut world);
    assert!(matches!(root.add_child(&mut world, gone), Err(Error::NoSuchEntity)));
}

#[test]
fn destroy_removes_whole_subtree_and_unlinks_parent() {
    let mut world = World::new();
    let root = named(&mut world, "root");
    let a = named(&mut world, "a");
    let b = named(&mut world, "b");
    let c = named(&mut world, "c");
    let d = named(&mut world, "d");
    root.add_child(&mut world, a).unwrap();
    a.add_child(&mut world, b).unwrap();
    a.add_child(&mut world, c).unwrap();
    root.add_child(&mut world, d).unwrap();
    a.destroy(&mut world);
    // a and its transitive descendants are gone
    assert!(world.storage(a).is_none());
    assert!(world.storage(b).is_none());
    assert!(world.storage(c).is_none());
    // the rest of the registry is untouched
    assert!(world.storage(root).is_some());
    assert!(world.storage(d).is_some());
    // and the parent's children list no longer names a
    assert_eq!(root.children(&world), vec![d]);
}

#[test]
fn destroying_a_dead_handle_is_a_no_op() {
    let mut world = World::new();
    let a = named(&mut world, "a");
    a.destroy(&mut world);
    a.destroy(&mut world);
    assert!(Entity::all(&world).is_empty());
}

#[test]
fn disable_marks_only_the_entity() {
    let mut world = World::new();
    let a = named(&mut world, "a");
    let b = named(&mut world, "b");
    assert!(!a.disabled(&world));
    a.disable(&mut world);
    assert!(a.disabled(&world));
    assert!(!b.disabled(&world));
    // a dead handle counts as disabled
    b.destroy(&mut world);
    assert!(b.disabled(&world));
}

#[test]
fn add_component_replaces_the_slot() {
    let mut world = World::new();
    let a = named(&mut world, "a");
    a.add_component(
        &mut world,
        Component::Transform(Transform { pos: Vector { x: 1, y: 2 } }),
    );
    assert_eq!(a.transform(&world).unwrap().pos, Vector { x: 1, y: 2 });
    a.add_component(
        &mut world,
        Component::Transform(Transform { pos: Vector { x: 5, y: 6 } }),
    );
    assert_eq!(a.transform(&world).unwrap().pos, Vector { x: 5, y: 6 });
    assert!(a.sprite(&world).is_none());
    a.add_component(&mut world, Component::Behaviour(BehaviourDelegate::new(9)));
    assert_eq!(a.behaviour(&world).unwrap().key, 9);
}

#[test]
fn transforms_compose_down_the_tree() {
    let mut world = World::new();
    let root = named(&mut world, "root");
    let child = named(&mut world, "child1");
    root.add_child(&mut world, child).unwrap();
    root.add_component(
        &mut world,
        Component::Transform(Transform { pos: Vector { x: 10, y: 0 } }),
    );
    child.add_component(
        &mut world,
        Component::Transform(Transform { pos: Vector { x: 0, y: 4 } }),
    );
    let t = child.transform_to_world(&world);
    assert_eq!(t.pos, Vector { x: 10, y: 4 });
    // an entity without any transform sits at the origin
    let lone = named(&mut world, "lone");
    assert_eq!(lone.transform_to_world(&world).pos, Vector { x: 0, y: 0 });
}

#[test]
fn delayed_events_fire_when_their_delay_runs_out() {
    let mut world = World::new();
    let a = named(&mut world, "a");
    let b = named(&mut world, "b");
    a.send_after(&mut world, Event::AnimationFinished, b, 30);
    world.update(16);
    assert!(b.take_events(&mut world).is_empty());
    world.update(16);
    let events = b.take_events(&mut world);
    assert_eq!(events.len(), 1);
    assert_eq!(events[0].0, a);
    assert!(matches!(events[0].1, Event::AnimationFinished));
    // the queue is drained afterwards
    assert!(b.take_events(&mut world).is_empty());
}

#[test]
fn immediate_send_lands_in_the_inbox_in_order() {
    let mut world = World::new();
    let a = named(&mut world, "a");
    let b = named(&mut world, "b");
    a.send(&mut world, Event::AnimationFinished, b);
    b.send(&mut world, Event::AnimationFinished, b);
    let events = b.take_events(&mut world);
    assert_eq!(events.len(), 2);
    assert_eq!(events[0].0, a);
    assert_eq!(events[1].0, b);
}
