use hammer_core::animation::{Animation, WrapMode};
use hammer_core::asset::{AssetCache, AssetRef};
use hammer_core::components::Animator;
use hammer_core::image::{Frame, Image};
use hammer_core::math::{Rect, Vector};

fn test_image(id: u64, w: i64, h: i64) -> AssetRef<Image> {
    let data = vec![0u8; (4 * w * h) as usize];
    AssetRef::new(Image::new(id, w, h, data))
}

fn animation_with(n: usize, fps: u16, wrap_mode: WrapMode) -> Animation {
    let mut anim = Animation::new();
    anim.set_fps(fps);
    anim.set_wrap_mode(wrap_mode);
    let image = test_image(1, 8, 8);
    let mut i = 0usize;
    while i < n {
        anim.add_frame(Frame::new(
            image.clone(),
            Rect::with_min_size(Vector { x: (i as i64) * 8, y: 0 }, Vector { x: 8, y: 8 }),
        ));
        i += 1;
    }
    anim
}

fn animator_for(anim: Animation) -> Animator {
    let mut cache: AssetCache<Animation> = AssetCache::new();
    cache.set("anim", anim);
    Animator::new(&cache, "anim")
}

#[test]
fn loop_mode_wraps_by_elapsed_time() {
    // 4 frames at 10 fps: after 720 ms the clock has passed 7 frames,
    // 7 mod 4 = 3.
    let mut animator = animator_for(animation_with(4, 10, WrapMode::Loop));
    animator.advance(720);
    assert_eq!(animator.frame_index, 3);
    assert!(!animator.finished());
    // another 300 ms: floor(1020 * 10 / 1000) = 10, 10 mod 4 = 2
    animator.advance(300);
    assert_eq!(animator.frame_index, 2);
}

#[test]
fn once_mode_clamps_to_last_frame_and_finishes() {
    // 3 frames at 10 fps: the last frame starts at 200 ms.
    let mut animator = animator_for(animation_with(3, 10, WrapMode::Once));
    animator.advance(150);
    assert_eq!(animator.frame_index, 1);
    assert!(!animator.finished());
    animator.advance(5000);
    assert_eq!(animator.frame_index, 2);
    assert!(animator.finished());
}

#[test]
fn current_frame_follows_the_index() {
    let mut animator = animator_for(animation_with(4, 10, WrapMode::Loop));
    let f0 = animator.current_frame().expect("frame 0");
    assert_eq!(f0.region.min, Vector { x: 0, y: 0 });
    animator.advance(100);
    let f1 = animator.current_frame().expect("frame 1");
    assert_eq!(f1.region.min, Vector { x: 8, y: 0 });
}

#[test]
fn missing_animation_leaves_the_animator_untouched() {
    let cache: AssetCache<Animation> = AssetCache::new();
    let mut animator = Animator::new(&cache, "nowhere");
    assert!(animator.animation.is_none());
    animator.advance(500);
    assert_eq!(animator.time, 0);
    assert_eq!(animator.frame_index, 0);
    assert!(animator.current_frame().is_none());
    assert!(!animator.finished());
}

#[test]
fn play_rewinds_onto_the_named_animation() {
    let mut cache: AssetCache<Animation> = AssetCache::new();
    cache.set("walk", animation_with(4, 10, WrapMode::Loop));
    let mut animator = Animator::new(&cache, "walk");
    animator.advance(250);
    assert_ne!(animator.frame_index, 0);
    animator.play(&cache, "walk");
    assert_eq!(animator.time, 0);
    assert_eq!(animator.frame_index, 0);
}
