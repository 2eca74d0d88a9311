//! The components an entity can carry: one optional slot per kind.
//!
//! The component set is closed — a placement, a sprite, an animator, a
//! collider, a camera and a behaviour delegate — so storage is a plain field
//! per kind rather than a type-erased map.

use vstd::prelude::*;

use crate::animation::{Animation, WrapMode};
use crate::asset::{AssetCache, AssetRef, AssetState};
use crate::image::{Frame, Image};
use crate::math::{Rect, Transform, Vector};
use crate::renderer::Color;

verus! {

/// A drawable cut of an image, placed on the entity: the frame to show, the
/// anchor to pin it by, and its position in the draw order.
pub struct Sprite {
    pub frame: Option<Frame>,
    pub anchor: Vector,
    pub layer: i32,
    pub order: i32,
}

impl Sprite {
    pub fn new(frame: Option<Frame>) -> (s: Sprite)
        ensures
            s == (Sprite { frame, anchor: Vector { x: 0i64, y: 0i64 }, layer: 0i32, order: 0i32 }),
    {
        Sprite { frame, anchor: Vector { x: 0, y: 0 }, layer: 0, order: 0 }
    }

    /// A sprite showing the whole of `image`.
    pub fn with_image(image: AssetRef<Image>) -> (s: Sprite)
        ensures
            s.frame matches Some(f) && f.image == image && f.region == (Rect {
                min: Vector { x: 0i64, y: 0i64 },
                max: Vector { x: image.value().w, y: image.value().h },
            }),
            s.anchor == (Vector { x: 0i64, y: 0i64 }),
            s.layer == 0,
            s.order == 0,
    {
        let (w, h) = image.read().size();
        let frame = Frame::new(image, Rect::with_min_max(Vector::zero(), Vector { x: w, y: h }));
        Sprite { frame: Some(frame), anchor: Vector { x: 0, y: 0 }, layer: 0, order: 0 }
    }

    pub fn frame(&self) -> (r: &Option<Frame>)
        ensures
            r == self.frame,
    {
        &self.frame
    }

    pub fn set_frame(&mut self, frame: Option<Frame>)
        ensures
            *final(self) == (Sprite { frame, ..*old(self) }),
    {
        self.frame = frame;
    }

    pub fn anchor(&self) -> (r: Vector)
        ensures
            r == self.anchor,
    {
        self.anchor
    }

    pub fn set_anchor(&mut self, anchor: Vector)
        ensures
            *final(self) == (Sprite { anchor, ..*old(self) }),
    {
        self.anchor = anchor;
    }

    pub fn layer(&self) -> (r: i32)
        ensures
            r == self.layer,
    {
        self.layer
    }

    pub fn set_layer(&mut self, layer: i32)
        ensures
            *final(self) == (Sprite { layer, ..*old(self) }),
    {
        self.layer = layer;
    }

    pub fn order(&self) -> (r: i32)
        ensures
            r == self.order,
    {
        self.order
    }

    pub fn set_order(&mut self, order: i32)
        ensures
            *final(self) == (Sprite { order, ..*old(self) }),
    {
        self.order = order;
    }
}

impl Clone for Sprite {
    fn clone(&self) -> (r: Self)
        ensures
            r == *self,
    {
        let frame = match &self.frame {
            Some(f) => Some(f.clone()),
            None => None,
        };
        Sprite { frame, anchor: self.anchor, layer: self.layer, order: self.order }
    }
}

/// Playback never accumulates more than this many milliseconds; the clock
/// saturates there so that frame arithmetic stays within `u64`.
pub const TIME_CAP: u64 = 0x1_0000_0000;

/// The frame an animation shows after `time` milliseconds at `fps` frames
/// per second, over `n` frames with the given wrap policy.
pub open spec fn spec_frame_index(time: int, fps: int, n: int, wrap: WrapMode) -> int
    recommends
        n > 0,
{
    let raw = time * fps / 1000;
    match wrap {
        WrapMode::Loop => raw % n,
        WrapMode::Once => if raw >= n {
            n - 1
        } else {
            raw
        },
    }
}

/// The animator after `dt` milliseconds pass: the clock moves (saturating at
/// the cap) and the frame index is recomputed; with no animation attached
/// nothing happens.
pub open spec fn spec_advanced(a: Animator, dt: u64) -> Animator {
    match a.animation {
        None => a,
        Some(r) => {
            let anim = r.value();
            let t = if a.time + dt > TIME_CAP {
                TIME_CAP as int
            } else {
                a.time + dt
            };
            Animator {
                animation: a.animation,
                time: t as u64,
                frame_index: spec_frame_index(
                    t,
                    anim.fps as int,
                    anim.frames@.len() as int,
                    anim.wrap_mode,
                ) as usize,
            }
        },
    }
}

/// Whether the animator stands finished: a `Once` animation on its last
/// frame.
pub open spec fn spec_finished(a: Animator) -> bool {
    a.animation matches Some(r) && r.value().wrap_mode == WrapMode::Once && a.frame_index
        == r.value().frames@.len() - 1
}

/// The frame the animator currently shows, if its index is in range.
pub open spec fn spec_current_frame(a: Animator) -> Option<Frame> {
    match a.animation {
        Some(r) => if a.frame_index < r.value().frames@.len() {
            Some(r.value().frames@[a.frame_index as int])
        } else {
            None
        },
        None => None,
    }
}

/// Plays an animation: accumulates time in milliseconds (saturating at
/// [`TIME_CAP`]) and resolves the current frame index from it.
pub struct Animator {
    pub animation: Option<AssetRef<Animation>>,
    pub time: u64,
    pub frame_index: usize,
}

impl Animator {
    /// The playback clock stays below the cap and, while an animation with
    /// frames is attached, the frame index follows the clock.
    pub open spec fn wf(self) -> bool {
        &&& self.time <= TIME_CAP
        &&& self.animation matches Some(a) ==> a.value().frames@.len() > 0
    }

    /// What an animator binds when it looks `id` up in `cache`: the loaded
    /// animation under that identifier, provided it has frames; a missing,
    /// unloaded or frameless animation binds nothing.
    pub open spec fn spec_bound(cache: AssetCache<Animation>, id: Seq<char>) -> Option<
        AssetRef<Animation>,
    > {
        match cache.spec_find(id) {
            Some(i) => match cache.slots@[i].state {
                AssetState::Loaded(x) => if x.value().frames@.len() > 0 {
                    Some(x)
                } else {
                    None
                },
                _ => None,
            },
            None => None,
        }
    }

    /// Picks up the animation stored under `id`, if it is loaded and has
    /// frames; starts at time zero on the first frame.
    pub fn new(cache: &AssetCache<Animation>, id: &str) -> (a: Animator)
        ensures
            a.time == 0u64,
            a.frame_index == 0usize,
            a.wf(),
            a.animation == Animator::spec_bound(*cache, id@),
    {
        let animation = match cache.get(id) {
            Some(r) => {
                if r.read().frames().len() > 0 {
                    Some(r)
                } else {
                    None
                }
            },
            None => None,
        };
        Animator { animation, time: 0, frame_index: 0 }
    }

    /// Switches to the animation stored under `id` and rewinds the clock;
    /// the result is exactly a freshly constructed animator for that id.
    pub fn play(&mut self, cache: &AssetCache<Animation>, id: &str)
        ensures
            final(self).time == 0u64,
            final(self).frame_index == 0usize,
            final(self).wf(),
            final(self).animation == Animator::spec_bound(*cache, id@),
    {
        let fresh = Animator::new(cache, id);
        *self = fresh;
    }

    /// Advances the playback clock by `delta` milliseconds and recomputes the
    /// current frame under the animation's wrap policy.
    pub fn advance(&mut self, delta: u64)
        requires
            old(self).wf(),
        ensures
            final(self).wf(),
            *final(self) == spec_advanced(*old(self), delta),
    {
        let a = match &self.animation {
            None => {
                return ;
            },
            Some(a) => a.clone(),
        };
        self.time = if delta > TIME_CAP - self.time {
            TIME_CAP
        } else {
            self.time + delta
        };
        let anim = a.read();
        let fps = anim.fps() as u64;
        proof {
            vstd::arithmetic::mul::lemma_mul_upper_bound(
                self.time as int,
                TIME_CAP as int,
                fps as int,
                0xFFFF,
            );
        }
        let raw = self.time * fps / 1000;
        let n = anim.frames().len() as u64;
        let idx = match anim.wrap_mode() {
            WrapMode::Loop => raw % n,
            WrapMode::Once => {
                if raw >= n {
                    n - 1
                } else {
                    raw
                }
            },
        };
        self.frame_index = idx as usize;
    }

    /// A `Once` animation that stands on its last frame is finished; a
    /// looping animation never is.
    pub fn finished(&self) -> (r: bool)
        requires
            self.wf(),
        ensures
            r == spec_finished(*self),
    {
        match &self.animation {
            None => false,
            Some(a) => {
                let anim = a.read();
                match anim.wrap_mode() {
                    WrapMode::Once => self.frame_index == anim.frames().len() - 1,
                    WrapMode::Loop => false,
                }
            },
        }
    }

    /// The frame the clock currently stands on, if any.
    pub fn current_frame(&self) -> (r: Option<Frame>)
        ensures
            r == spec_current_frame(*self),
    {
        match &self.animation {
            None => None,
            Some(a) => {
                let anim = a.read();
                let frames = anim.frames();
                if self.frame_index < frames.len() {
                    Some(frames[self.frame_index].clone())
                } else {
                    None
                }
            },
        }
    }
}

impl Clone for Animator {
    fn clone(&self) -> (r: Self)
        ensures
            r == *self,
    {
        let animation = match &self.animation {
            Some(a) => Some(a.clone()),
            None => None,
        };
        Animator { animation, time: self.time, frame_index: self.frame_index }
    }
}

/// A viewpoint: the world region this camera shows and the color the frame
/// is cleared to behind it.
#[derive(Clone, Copy, Debug, PartialEq, Eq, Structural)]
pub struct Camera {
    pub region: Rect,
    pub background: Color,
}

impl Camera {
    pub fn new(region: Rect) -> (c: Camera)
        ensures
            c.region == region,
            c.background == (Color { r: 0u8, g: 0u8, b: 0u8, a: 255u8 }),
    {
        Camera { region, background: Color::black() }
    }

    pub fn region(&self) -> (r: &Rect)
        ensures
            r == self.region,
    {
        &self.region
    }

    pub fn set_region(&mut self, region: Rect)
        ensures
            *final(self) == (Camera { region, ..*old(self) }),
    {
        self.region = region;
    }

    pub fn background(&self) -> (r: Color)
        ensures
            r == self.background,
    {
        self.background
    }

    pub fn set_background(&mut self, background: Color)
        ensures
            *final(self) == (Camera { background, ..*old(self) }),
    {
        self.background = background;
    }
}

/// Membership of `g` in a list of collision group names.
pub open spec fn in_mask(g: Seq<char>, mask: Seq<String>) -> bool {
    exists|j: int| 0 <= j < mask.len() && mask[j]@ == g
}

/// The first of `group`'s names, from position `i` on, that `mask` contains.
pub open spec fn first_group_match(group: Seq<String>, mask: Seq<String>, i: int) -> Option<int>
    decreases group.len() - i,
{
    if i < 0 || i >= group.len() {
        None
    } else if in_mask(group[i]@, mask) {
        Some(i)
    } else {
        first_group_match(group, mask, i + 1)
    }
}

/// A collision shape: the rectangle (relative to the entity's placement), the
/// groups this entity belongs to, and the mask of groups it watches for.
pub struct Collider {
    pub shape: Rect,
    pub mask: Vec<String>,
    pub group: Vec<String>,
}

impl Collider {
    pub fn new(shape: Rect, mask: Vec<String>, group: Vec<String>) -> (c: Collider)
        ensures
            c == (Collider { shape, mask, group }),
    {
        Collider { shape, mask, group }
    }

    /// The group name under which this collider registers against `other`:
    /// the first of its groups that `other`'s mask contains. This matching is
    /// directional; `other.test(self)` may answer differently.
    pub open spec fn spec_test(self, other: Collider) -> Option<Seq<char>> {
        match first_group_match(self.group@, other.mask@, 0) {
            Some(i) => Some(self.group@[i]@),
            None => None,
        }
    }

    pub fn test(&self, other: &Collider) -> (r: Option<String>)
        ensures
            match self.spec_test(*other) {
                Some(g) => r matches Some(s) && s@ == g,
                None => r is None,
            },
    {
        let mut i: usize = 0;
        while i < self.group.len()
            invariant
                i <= self.group@.len(),
                first_group_match(self.group@, other.mask@, 0) == first_group_match(
                    self.group@,
                    other.mask@,
                    i as int,
                ),
            decreases self.group@.len() - i,
        {
            let g = &self.group[i];
            let mut j: usize = 0;
            while j < other.mask.len()
                invariant
                    i < self.group@.len(),
                    g == &self.group@[i as int],
                    j <= other.mask@.len(),
                    forall|k: int| 0 <= k < j ==> other.mask@[k]@ != g@,
                    first_group_match(self.group@, other.mask@, 0) == first_group_match(
                        self.group@,
                        other.mask@,
                        i as int,
                    ),
                decreases other.mask@.len() - j,
            {
                if other.mask[j] == *g {
                    proof {
                        assert(in_mask(g@, other.mask@));
                    }
                    return Some(self.group[i].clone());
                }
                j = j + 1;
            }
            proof {
                assert(!in_mask(g@, other.mask@));
            }
            i = i + 1;
        }
        None
    }
}

impl Clone for Collider {
    fn clone(&self) -> (r: Self)
        ensures
            r.shape == self.shape,
            r.mask@ == self.mask@,
            r.group@ == self.group@,
    {
        let mask = clone_names(&self.mask);
        let group = clone_names(&self.group);
        Collider { shape: self.shape, mask, group }
    }
}

/// A clone of a list of names, element for element.
fn clone_names(v: &Vec<String>) -> (r: Vec<String>)
    ensures
        r@ == v@,
{
    let mut r: Vec<String> = Vec::new();
    let mut i: usize = 0;
    while i < v.len()
        invariant
            i <= v@.len(),
            r@ == v@.subrange(0, i as int),
        decreases v@.len() - i,
    {
        r.push(v[i].clone());
        proof {
            assert(r@ =~= v@.subrange(0, i + 1 as int));
        }
        i = i + 1;
    }
    proof {
        assert(r@ =~= v@);
    }
    r
}

/// Points at user-supplied scripted logic held outside the world; the frame
/// driver resolves the key to the actual behaviour object.
#[derive(Clone, Copy, Debug, PartialEq, Eq, Structural)]
pub struct BehaviourDelegate {
    pub key: u64,
}

impl BehaviourDelegate {
    pub fn new(key: u64) -> (b: BehaviourDelegate)
        ensures
            b == (BehaviourDelegate { key }),
    {
        BehaviourDelegate { key }
    }
}

/// One attachable component. An entity holds at most one of each kind.
pub enum Component {
    Transform(Transform),
    Sprite(Sprite),
    Animator(Animator),
    Camera(Camera),
    Collider(Collider),
    Behaviour(BehaviourDelegate),
}


/// With `Loop` wrap, advancing a fresh animator by `t` milliseconds shows
/// frame `floor(t * fps / 1000) mod n`: the playback position wraps around
/// the `n` frames.
pub proof fn lemma_loop_frame_wraps(a: Animator, t: u64)
    requires
        a.wf(),
        a.time == 0,
        a.animation matches Some(r) && r.value().wrap_mode == WrapMode::Loop,
        t <= TIME_CAP,
    ensures
        ({
            let anim = a.animation->Some_0.value();
            spec_advanced(a, t).frame_index == (t * anim.fps / 1000) % (
            anim.frames@.len() as int)
        }),
{
    let anim = a.animation->Some_0.value();
    vstd::std_specs::vec::axiom_spec_len(&anim.frames);
    let n = anim.frames@.len() as int;
    let raw = t * anim.fps / 1000;
    assert(raw % n < n && raw % n >= 0);
}

/// With `Once` wrap, once enough time has passed to reach the last frame,
/// the animator stays clamped there and reports itself finished.
pub proof fn lemma_once_clamps_and_finishes(a: Animator, t: u64)
    requires
        a.wf(),
        a.time == 0,
        a.animation matches Some(r) && r.value().wrap_mode == WrapMode::Once,
        t <= TIME_CAP,
        t * (a.animation->Some_0.value().fps) / 1000 >= a.animation->Some_0.value().frames@.len()
            - 1,
    ensures
        spec_advanced(a, t).frame_index == a.animation->Some_0.value().frames@.len() - 1,
        spec_finished(spec_advanced(a, t)),
{
    let anim = a.animation->Some_0.value();
    vstd::std_specs::vec::axiom_spec_len(&anim.frames);
}

} // verus!
