use hammer_core::asset::AssetRef;
use hammer_core::components::{BehaviourDelegate, Collider, Component, Sprite};
use hammer_core::ecs::{Entity, Event, World};
use hammer_core::image::{Frame, Image};
use hammer_core::math::{Rect, Transform, Vector};
use hammer_core::scene::StartedScenes;
use hammer_core::system::{
    run_frame, update_entity, BehaviourCall, BehaviourSystem, CollisionSystem, EngineSystem,
    FrameContext, Phase, SpriteSystem, System,
};

fn named(world: &mut World, name: &str) -> Entity {
    Entity::new(world, String::from(name))
}

fn rect(x0: i64, y0: i64, x1: i64, y1: i64) -> Rect {
    Rect::with_min_max(Vector { x: x0, y: y0 }, Vector { x: x1, y: y1 })
}

fn names(v: &[&str]) -> Vec<String> {
    v.iter().map(|s| String::from(*s)).collect()
}

#[test]
fn group_against_mask_is_directional() {
    let player = Collider::new(rect(0, 0, 1, 1), names(&["enemy"]), names(&["player"]));
    let enemy = Collider::new(rect(0, 0, 1, 1), names(&["player"]), names(&["enemy"]));
    // the player's group is in the enemy's mask...
    assert_eq!(player.test(&enemy), Some(String::from("player")));
    assert_eq!(enemy.test(&player), Some(String::from("enemy")));
    // ...but a watcher with an empty mask is matched by nobody
    let deaf = Collider::new(rect(0, 0, 1, 1), names(&[]), names(&["enemy"]));
    assert_eq!(player.test(&deaf), None);
}

#[test]
fn disjoint_rectangles_never_collide() {
    let mut world = World::new();
    let a = named(&mut world, "a");
    let b = named(&mut world, "b");
    a.add_component(
        &mut world,
        Component::Collider(Collider::new(rect(0, 0, 1, 1), names(&["g"]), names(&["g"]))),
    );
    b.add_component(
        &mut world,
        Component::Collider(Collider::new(rect(2, 2, 3, 3), names(&["g"]), names(&["g"]))),
    );
    let mut systems = vec![CollisionSystem::new()];
    let mut ctx = FrameContext::new(16);
    update_entity(&mut systems, &mut world, &mut ctx, a);
    update_entity(&mut systems, &mut world, &mut ctx, b);
    assert!(a.take_events(&mut world).is_empty());
    assert!(b.take_events(&mut world).is_empty());
}

#[test]
fn overlapping_masked_colliders_report_a_collision() {
    let mut world = World::new();
    let a = named(&mut world, "a");
    let b = named(&mut world, "b");
    a.add_component(
        &mut world,
        Component::Collider(Collider::new(rect(0, 0, 4, 4), names(&["enemy"]), names(&["player"]))),
    );
    b.add_component(
        &mut world,
        Component::Collider(Collider::new(rect(2, 2, 6, 6), names(&["player"]), names(&["enemy"]))),
    );
    let mut system = CollisionSystem::new();
    let mut ctx = FrameContext::new(16);
    system.update(&mut world, &mut ctx, a);
    let events = a.take_events(&mut world);
    assert_eq!(events.len(), 1);
    assert_eq!(events[0].0, b);
    match &events[0].1 {
        Event::Collision(c) => {
            assert_eq!(c.other, b);
            assert_eq!(c.group, "player");
        },
        _ => panic!("expected a collision event"),
    }
    // a disabled opponent is ignored
    b.disable(&mut world);
    system.update(&mut world, &mut ctx, a);
    assert!(a.take_events(&mut world).is_empty());
}

#[test]
fn sprite_pass_emits_expected_destination_rect() {
    // End to end: a root entity with a child carrying a sprite over a 10x10
    // image; one update pass must queue exactly one textured quad with the
    // anchor-adjusted destination rectangle.
    let mut world = World::new();
    let root = named(&mut world, "root");
    let child = named(&mut world, "child1");
    root.add_child(&mut world, child).unwrap();
    child.add_component(
        &mut world,
        Component::Transform(Transform { pos: Vector { x: 100, y: 50 } }),
    );
    let image = AssetRef::new(Image::new(7, 10, 10, vec![0u8; 400]));
    let mut frame = Frame::new(image, rect(0, 0, 10, 10));
    frame.set_anchor(Vector { x: 3, y: 4 });
    child.add_component(&mut world, Component::Sprite(Sprite::new(Some(frame))));

    let mut systems = vec![EngineSystem::Sprite(SpriteSystem::new())];
    let mut ctx = FrameContext::new(16);
    update_entity(&mut systems, &mut world, &mut ctx, root);

    assert_eq!(ctx.render.drawables.len(), 1);
    let (order, cmd) = &ctx.render.drawables[0];
    assert_eq!(order.layer, 0);
    assert_eq!(order.order, 0);
    assert_eq!(cmd.transform.pos, Vector { x: 100, y: 50 });
    assert_eq!(cmd.dst, rect(-3, -4, 7, 6));
    assert_eq!(cmd.frame.region, rect(0, 0, 10, 10));
    // and present hands it over, emptying the queue
    let out = ctx.render.present();
    assert_eq!(out.len(), 1);
    assert!(ctx.render.drawables.is_empty());
}

#[test]
fn disabled_entity_is_skipped_but_its_children_run() {
    let mut world = World::new();
    let root = named(&mut world, "root");
    let child = named(&mut world, "child1");
    root.add_child(&mut world, child).unwrap();
    let image = AssetRef::new(Image::new(1, 2, 2, vec![0u8; 16]));
    root.add_component(&mut world, Component::Sprite(Sprite::with_image(image.clone())));
    child.add_component(&mut world, Component::Sprite(Sprite::with_image(image)));
    root.disable(&mut world);
    let mut systems = vec![SpriteSystem::new()];
    let mut ctx = FrameContext::new(16);
    update_entity(&mut systems, &mut world, &mut ctx, root);
    // only the child drew
    assert_eq!(ctx.render.drawables.len(), 1);
}

#[test]
fn behaviour_delegates_are_deferred_in_tree_order() {
    let mut world = World::new();
    let root = named(&mut world, "root");
    let child = named(&mut world, "child1");
    root.add_child(&mut world, child).unwrap();
    root.add_component(&mut world, Component::Behaviour(BehaviourDelegate::new(1)));
    child.add_component(&mut world, Component::Behaviour(BehaviourDelegate::new(2)));
    let mut systems = vec![BehaviourSystem::new()];
    let mut ctx = FrameContext::new(16);
    update_entity(&mut systems, &mut world, &mut ctx, root);
    assert_eq!(
        ctx.behaviour_calls,
        vec![
            BehaviourCall { key: 1, entity: root, phase: Phase::Update },
            BehaviourCall { key: 2, entity: child, phase: Phase::Update },
        ]
    );
}

#[test]
fn start_pass_runs_once_per_scene() {
    let mut world = World::new();
    let root_a = named(&mut world, "root_a");
    let root_b = named(&mut world, "root_b");
    root_a.add_component(&mut world, Component::Behaviour(BehaviourDelegate::new(1)));
    root_b.add_component(&mut world, Component::Behaviour(BehaviourDelegate::new(2)));
    let mut systems = vec![BehaviourSystem::new()];
    let mut started = StartedScenes::new();
    let id_a = String::from("menu");
    let id_b = String::from("level");

    let start_calls = |ctx: &FrameContext| {
        ctx.behaviour_calls.iter().filter(|c| c.phase == Phase::Start).count()
    };

    // first frame of scene a runs its start pass...
    let ctx = run_frame(&mut systems, &mut world, root_a, &id_a, &mut started, 16);
    assert_eq!(start_calls(&ctx), 1);
    // ...the second frame does not...
    let ctx = run_frame(&mut systems, &mut world, root_a, &id_a, &mut started, 16);
    assert_eq!(start_calls(&ctx), 0);
    // ...and switching to a fresh scene starts that one exactly once
    let ctx = run_frame(&mut systems, &mut world, root_b, &id_b, &mut started, 16);
    assert_eq!(start_calls(&ctx), 1);
    let ctx = run_frame(&mut systems, &mut world, root_b, &id_b, &mut started, 16);
    assert_eq!(start_calls(&ctx), 0);
}
