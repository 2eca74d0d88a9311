use hammer_core::counter::Counter;
use hammer_core::ecs::{Entity, World};
use hammer_core::keyboard::Keyboard;
use hammer_core::math::{rem, sat_add, sat_sub, Rect, Transform, Vector};
use hammer_core::scene::{Scene, SceneManager};

#[test]
fn counter_hands_out_successors() {
    let mut c = Counter::new(5);
    assert_eq!(c.next(), 6);
    assert_eq!(c.next(), 7);
}

#[test]
fn saturating_arithmetic_clamps_at_the_ends() {
    assert_eq!(sat_add(1, 2), 3);
    assert_eq!(sat_add(i64::MAX, 1), i64::MAX);
    assert_eq!(sat_sub(i64::MIN, 1), i64::MIN);
    assert_eq!(sat_sub(5, 7), -2);
}

#[test]
fn remainder_keeps_the_dividend_sign() {
    assert_eq!(rem(7, 3), 1);
    assert_eq!(rem(-7, 3), -1);
    assert_eq!(rem(0, 10), 0);
    assert_eq!(rem(i64::MIN, 3), i64::MIN % 3);
}

#[test]
fn rect_intersection_is_the_overlap() {
    let a = Rect::with_min_max(Vector { x: 0, y: 0 }, Vector { x: 4, y: 4 });
    let b = Rect::with_min_max(Vector { x: 2, y: 2 }, Vector { x: 6, y: 6 });
    let i = a.intersect(&b).expect("overlap");
    assert_eq!(i.min, Vector { x: 2, y: 2 });
    assert_eq!(i.max, Vector { x: 4, y: 4 });
    // touching edges do not count as intersection
    let c = Rect::with_min_max(Vector { x: 4, y: 0 }, Vector { x: 8, y: 4 });
    assert!(a.intersect(&c).is_none());
}

#[test]
fn transforms_translate_points() {
    let t = Transform::offset(Vector { x: 3, y: -2 });
    assert_eq!(t.apply(Vector { x: 1, y: 1 }), Vector { x: 4, y: -1 });
    assert_eq!(t.invert().apply(t.apply(Vector { x: 1, y: 1 })), Vector { x: 1, y: 1 });
    assert_eq!(t.compose(t.invert()).pos, Vector { x: 0, y: 0 });
}

#[test]
fn keyboard_tracks_edges_across_frames() {
    let mut kb = Keyboard::new();
    assert!(kb.up(7));
    kb.set_down(7);
    assert!(kb.down(7));
    assert!(kb.press(7));
    assert!(!kb.pressed(7));
    kb.update();
    assert!(kb.down(7));
    assert!(!kb.press(7));
    kb.set_up(7);
    assert!(kb.pressed(7));
    kb.update();
    assert!(!kb.pressed(7));
}

#[test]
fn scene_stack_switches_the_active_scene() {
    let mut world = World::new();
    let r1 = Entity::new(&mut world, String::from("r1"));
    let r2 = Entity::new(&mut world, String::from("r2"));
    let mut scenes = SceneManager::new();
    assert!(scenes.top().is_none());
    scenes.push(Scene::new(String::from("menu"), r1));
    assert_eq!(scenes.top().unwrap().id(), "menu");
    scenes.switch(Scene::new(String::from("level"), r2));
    let top = scenes.top().unwrap();
    assert_eq!(top.id(), "level");
    assert_eq!(top.root(), r2);
    scenes.pop();
    assert!(scenes.top().is_none());
}
