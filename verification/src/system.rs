//! The per-frame systems and the passes that drive them over the entity tree.
//!
//! Each frame runs `frame_begin`, then an `update` and a `post_update` walk
//! (depth-first, pre-order, children in attachment order), then `frame_end`;
//! [`run_frame`] composes the whole frame, running the start pass once per
//! scene. A disabled entity is skipped by the passes but its subtree is
//! still visited; that policy is fixed here.
//!
//! Systems may change component data, inboxes and the frame context, but
//! never the shape of the tree or the disabled flags — entities are created,
//! linked, destroyed and disabled between frames, not in the middle of a
//! walk. That contract is what lets the walk be proved terminating, and it
//! keeps the hook schedule a function of the world the pass started from:
//! every pass records its hook invocations in the frame's ghost call log,
//! which the walks promise equals the [`pass_calls`] schedule.

use vstd::prelude::*;

use crate::components::{spec_advanced, spec_current_frame, spec_finished, Sprite};
use crate::ecs::{same_shape, world_transform, Collision, Entity, Event, EntityStorage, World};
use crate::scene::StartedScenes;
use crate::math::{Rect, Transform, Vector};
use crate::renderer::{DrawCommand, RenderCamera, RenderContext, RenderOrder};

verus! {

/// Which pass a deferred behaviour call belongs to.
#[derive(Clone, Copy, Debug, PartialEq, Eq, Structural)]
pub enum Phase {
    Start,
    Update,
    PostUpdate,
}

/// One pending call into user-supplied scripted logic: which delegate, for
/// which entity, in which pass. The frame driver resolves the key and makes
/// the actual call after the pass, outside the verified world.
#[derive(Clone, Copy, Debug, PartialEq, Eq, Structural)]
pub struct BehaviourCall {
    pub key: u64,
    pub entity: Entity,
    pub phase: Phase,
}

/// One hook invocation, as the passes record it in the frame's ghost call
/// log: which system (by its registration index) was invoked, in which pass,
/// and on which entity for the per-entity passes.
pub enum HookCall {
    FrameBegin(int),
    Start(int, Entity),
    Update(int, Entity),
    PostUpdate(int, Entity),
    FrameEnd(int),
}

/// Everything a pass hands to the systems besides the world: the frame's
/// time step, the render submission state, the queue of deferred behaviour
/// calls, and a ghost log of every hook invocation made so far this frame.
pub struct FrameContext {
    pub dt: u64,
    pub render: RenderContext,
    pub behaviour_calls: Vec<BehaviourCall>,
    pub call_log: Ghost<Seq<HookCall>>,
}

impl FrameContext {
    pub fn new(dt: u64) -> (c: FrameContext)
        ensures
            c.dt == dt,
            c.render.cameras@.len() == 0,
            c.render.drawables@.len() == 0,
            c.render.seq_wf(),
            c.behaviour_calls@.len() == 0,
            c.call_log@ == Seq::<HookCall>::empty(),
    {
        FrameContext {
            dt,
            render: RenderContext::new(),
            behaviour_calls: Vec::new(),
            call_log: Ghost(Seq::empty()),
        }
    }
}

/// A unit of per-frame logic. Implementations promise to keep the world
/// well-formed, its tree shape and disabled flags untouched, the render
/// queue's sequence numbering intact, and the ghost call log alone (the
/// passes write it); what else they do is stated on each system.
pub trait System {
    fn start(&mut self, world: &mut World, ctx: &mut FrameContext, entity: Entity)
        requires
            old(world).wf(),
            old(ctx).render.seq_wf(),
        ensures
            final(world).wf(),
            same_shape(*old(world), *final(world)),
            forall|j: int|
                #[trigger] old(world).live(j) ==> final(world).st(j).disabled == old(world).st(
                    j,
                ).disabled,
            final(ctx).render.seq_wf(),
            final(ctx).dt == old(ctx).dt,
            final(ctx).call_log@ == old(ctx).call_log@,
    ;

    fn frame_begin(&mut self, world: &mut World, ctx: &mut FrameContext)
        requires
            old(world).wf(),
            old(ctx).render.seq_wf(),
        ensures
            final(world).wf(),
            same_shape(*old(world), *final(world)),
            forall|j: int|
                #[trigger] old(world).live(j) ==> final(world).st(j).disabled == old(world).st(
                    j,
                ).disabled,
            final(ctx).render.seq_wf(),
            final(ctx).dt == old(ctx).dt,
            final(ctx).call_log@ == old(ctx).call_log@,
    ;

    fn update(&mut self, world: &mut World, ctx: &mut FrameContext, entity: Entity)
        requires
            old(world).wf(),
            old(ctx).render.seq_wf(),
        ensures
            final(world).wf(),
            same_shape(*old(world), *final(world)),
            forall|j: int|
                #[trigger] old(world).live(j) ==> final(world).st(j).disabled == old(world).st(
                    j,
                ).disabled,
            final(ctx).render.seq_wf(),
            final(ctx).dt == old(ctx).dt,
            final(ctx).call_log@ == old(ctx).call_log@,
    ;

    fn post_update(&mut self, world: &mut World, ctx: &mut FrameContext, entity: Entity)
        requires
            old(world).wf(),
            old(ctx).render.seq_wf(),
        ensures
            final(world).wf(),
            same_shape(*old(world), *final(world)),
            forall|j: int|
                #[trigger] old(world).live(j) ==> final(world).st(j).disabled == old(world).st(
                    j,
                ).disabled,
            final(ctx).render.seq_wf(),
            final(ctx).dt == old(ctx).dt,
            final(ctx).call_log@ == old(ctx).call_log@,
    ;

    fn frame_end(&mut self, world: &mut World, ctx: &mut FrameContext)
        requires
            old(world).wf(),
            old(ctx).render.seq_wf(),
        ensures
            final(world).wf(),
            same_shape(*old(world), *final(world)),
            forall|j: int|
                #[trigger] old(world).live(j) ==> final(world).st(j).disabled == old(world).st(
                    j,
                ).disabled,
            final(ctx).render.seq_wf(),
            final(ctx).dt == old(ctx).dt,
            final(ctx).call_log@ == old(ctx).call_log@,
    ;
}


/// What the camera system's `frame_begin` does: it forgets the previous
/// frame's cameras and touches nothing else.
pub open spec fn camera_frame_begin_effect(c0: FrameContext, c1: FrameContext) -> bool {
    &&& c1.dt == c0.dt
    &&& c1.behaviour_calls@ == c0.behaviour_calls@
    &&& c1.render.drawables@ == c0.render.drawables@
    &&& c1.render.cameras@.len() == 0
    &&& c1.call_log@ == c0.call_log@
}

/// What the camera system's `post_update` does: for an entity with a camera
/// it registers that camera's region, background and inverted world
/// transform; otherwise nothing.
pub open spec fn camera_post_update_effect(
    w0: World,
    c0: FrameContext,
    c1: FrameContext,
    entity: Entity,
) -> bool {
    &&& c1.dt == c0.dt
    &&& c1.behaviour_calls@ == c0.behaviour_calls@
    &&& c1.render.drawables@ == c0.render.drawables@
    &&& c1.call_log@ == c0.call_log@
    &&& ({
        let e = entity.0 as int;
        if w0.live(e) && w0.st(e).camera is Some {
            let cam = w0.st(e).camera->Some_0;
            c1.render.cameras@ == c0.render.cameras@.push(
                RenderCamera {
                    region: cam.region,
                    background: cam.background,
                    transform: Transform { pos: world_transform(w0, e).pos.spec_neg() },
                },
            )
        } else {
            c1.render.cameras@ == c0.render.cameras@
        }
    })
}

/// What the behaviour system does in any per-entity pass: for an entity
/// carrying a delegate it queues one call record for that phase; otherwise
/// nothing.
pub open spec fn behaviour_defer_effect(
    w0: World,
    c0: FrameContext,
    c1: FrameContext,
    entity: Entity,
    phase: Phase,
) -> bool {
    &&& c1.dt == c0.dt
    &&& c1.render == c0.render
    &&& c1.call_log@ == c0.call_log@
    &&& ({
        let e = entity.0 as int;
        if w0.live(e) && w0.st(e).behaviour is Some {
            c1.behaviour_calls@ == c0.behaviour_calls@.push(
                BehaviourCall { key: w0.st(e).behaviour->Some_0.key, entity, phase },
            )
        } else {
            c1.behaviour_calls@ == c0.behaviour_calls@
        }
    })
}

/// What the animation system's `update` does to the world: an entity with a
/// well-formed animator has it advanced by the frame delta, the resolved
/// frame mirrored into its sprite, and a finished `Once` animation reported
/// to the entity's own inbox; anything else is left alone.
pub open spec fn animation_update_effect(w0: World, w1: World, dt: u64, entity: Entity) -> bool {
    &&& w1.events@ == w0.events@
    &&& ({
        let e = entity.0 as int;
        if w0.live(e) {
            match w0.st(e).animator {
                Some(a) => if a.wf() {
                    let a2 = spec_advanced(a, dt);
                    let st1 = EntityStorage {
                        animator: Some(a2),
                        sprite: match w0.st(e).sprite {
                            Some(s) => Some(Sprite { frame: spec_current_frame(a2), ..s }),
                            None => None::<Sprite>,
                        },
                        ..w0.st(e)
                    };
                    if spec_finished(a2) {
                        w1.entities@ == w0.entities@.update(
                            e,
                            Some(EntityStorage { inbox: w1.st(e).inbox, ..st1 }),
                        ) && w1.st(e).inbox@ == w0.st(e).inbox@.push(
                            (entity, Event::AnimationFinished),
                        )
                    } else {
                        w1.entities@ == w0.entities@.update(e, Some(st1))
                    }
                } else {
                    w1.entities@ == w0.entities@
                },
                None => w1.entities@ == w0.entities@,
            }
        } else {
            w1.entities@ == w0.entities@
        }
    })
}

/// What the collision system's `update` does to the world: the scan's last
/// hit (greatest handle) is delivered to the tested entity's inbox as a
/// collision from the entity it hit; with no hit nothing changes.
pub open spec fn collision_update_effect(w0: World, w1: World, entity: Entity) -> bool {
    &&& w1.events@ == w0.events@
    &&& ({
        let e = entity.0 as int;
        match last_collision(w0, e, w0.entities@.len() as int) {
            Some((b, g)) => {
                &&& w1.entities@ == w0.entities@.update(
                    e,
                    Some(EntityStorage { inbox: w1.st(e).inbox, ..w0.st(e) }),
                )
                &&& w1.st(e).inbox@.len() == w0.st(e).inbox@.len() + 1
                &&& w1.st(e).inbox@ == w0.st(e).inbox@.push(w1.st(e).inbox@.last())
                &&& ({
                    let (sender, ev) = w1.st(e).inbox@.last();
                    &&& sender.0 == b
                    &&& ev matches Event::Collision(c) && c.other.0 == b && c.group@ == g
                })
            },
            None => w1.entities@ == w0.entities@,
        }
    })
}

/// What the sprite system's `update` does to the context: an entity whose
/// sprite shows a positively sized frame queues exactly one textured quad
/// under its render order; anything else queues nothing.
pub open spec fn sprite_update_effect(
    w0: World,
    c0: FrameContext,
    c1: FrameContext,
    entity: Entity,
) -> bool {
    &&& c1.dt == c0.dt
    &&& c1.behaviour_calls@ == c0.behaviour_calls@
    &&& c1.render.cameras@ == c0.render.cameras@
    &&& c1.render.seq_wf()
    &&& c1.call_log@ == c0.call_log@
    &&& ({
        let e = entity.0 as int;
        let unchanged = c1.render.drawables@ == c0.render.drawables@;
        if w0.live(e) {
            match w0.st(e).sprite {
                Some(s) => match s.frame {
                    Some(f) => {
                        let size = f.region.max.spec_minus(f.region.min);
                        if size.x > 0 && size.y > 0 {
                            c1.render.drawables@ == c0.render.drawables@.push(
                                (
                                    RenderOrder {
                                        layer: s.layer,
                                        order: s.order,
                                        seq: c0.render.drawables@.len() as u64,
                                    },
                                    DrawCommand {
                                        transform: world_transform(w0, e),
                                        dst: spec_sprite_dst(f, size),
                                        frame: f,
                                    },
                                ),
                            )
                        } else {
                            unchanged
                        }
                    },
                    None => unchanged,
                },
                None => unchanged,
            }
        } else {
            unchanged
        }
    })
}

/// Registers every camera entity's viewpoint with the renderer: the camera
/// list is cleared at frame begin and rebuilt during the post-update pass
/// with each camera's region, background and inverted world transform.
pub struct CameraSystem {}

impl CameraSystem {
    pub fn new() -> (s: CameraSystem) {
        CameraSystem {  }
    }
}

impl System for CameraSystem {
    fn start(&mut self, world: &mut World, ctx: &mut FrameContext, entity: Entity)
        ensures
            *final(world) == *old(world),
            *final(ctx) == *old(ctx),
    {
    }

    fn frame_begin(&mut self, world: &mut World, ctx: &mut FrameContext)
        ensures
            *final(world) == *old(world),
            camera_frame_begin_effect(*old(ctx), *final(ctx)),
    {
        ctx.render.clear_camera();
        proof {
            assert(same_shape(*old(world), *final(world)));
        }
    }

    fn update(&mut self, world: &mut World, ctx: &mut FrameContext, entity: Entity)
        ensures
            *final(world) == *old(world),
            *final(ctx) == *old(ctx),
    {
    }

    fn post_update(&mut self, world: &mut World, ctx: &mut FrameContext, entity: Entity)
        ensures
            *final(world) == *old(world),
            camera_post_update_effect(*old(world), *old(ctx), *final(ctx), entity),
    {
        let cam = match entity.camera(world) {
            Some(c) => *c,
            None => {
                return ;
            },
        };
        let trans = entity.transform_to_world(world);
        let mut render_camera = RenderCamera::new(cam.region);
        render_camera.set_transform(trans.invert());
        render_camera.set_background(cam.background);
        ctx.render.add_camera(render_camera);
    }

    fn frame_end(&mut self, world: &mut World, ctx: &mut FrameContext)
        ensures
            *final(world) == *old(world),
            *final(ctx) == *old(ctx),
    {
    }
}

/// Defers the scripted-logic passes: for each entity carrying a behaviour
/// delegate, a call record is queued for the frame driver to dispatch after
/// the pass.
pub struct BehaviourSystem {}

impl BehaviourSystem {
    pub fn new() -> (s: BehaviourSystem) {
        BehaviourSystem {  }
    }

    /// Queues the call for `entity`'s delegate, if it has one.
    fn defer(world: &World, ctx: &mut FrameContext, entity: Entity, phase: Phase)
        requires
            world.wf(),
        ensures
            final(ctx).dt == old(ctx).dt,
            final(ctx).render == old(ctx).render,
            final(ctx).call_log@ == old(ctx).call_log@,
            ({
                let e = entity.0 as int;
                if world.live(e) && world.st(e).behaviour is Some {
                    final(ctx).behaviour_calls@ == old(ctx).behaviour_calls@.push(
                        BehaviourCall {
                            key: world.st(e).behaviour->Some_0.key,
                            entity,
                            phase,
                        },
                    )
                } else {
                    final(ctx).behaviour_calls@ == old(ctx).behaviour_calls@
                }
            }),
    {
        match entity.behaviour(world) {
            Some(b) => {
                let call = BehaviourCall { key: b.key, entity, phase };
                ctx.behaviour_calls.push(call);
            },
            None => {},
        }
    }
}

impl System for BehaviourSystem {
    fn start(&mut self, world: &mut World, ctx: &mut FrameContext, entity: Entity)
        ensures
            *final(world) == *old(world),
            behaviour_defer_effect(*old(world), *old(ctx), *final(ctx), entity, Phase::Start),
    {
        BehaviourSystem::defer(world, ctx, entity, Phase::Start);
        proof {
            assert(same_shape(*old(world), *final(world)));
        }
    }

    fn frame_begin(&mut self, world: &mut World, ctx: &mut FrameContext)
        ensures
            *final(world) == *old(world),
            *final(ctx) == *old(ctx),
    {
    }

    fn update(&mut self, world: &mut World, ctx: &mut FrameContext, entity: Entity)
        ensures
            *final(world) == *old(world),
            behaviour_defer_effect(*old(world), *old(ctx), *final(ctx), entity, Phase::Update),
    {
        BehaviourSystem::defer(world, ctx, entity, Phase::Update);
        proof {
            assert(same_shape(*old(world), *final(world)));
        }
    }

    fn post_update(&mut self, world: &mut World, ctx: &mut FrameContext, entity: Entity)
        ensures
            *final(world) == *old(world),
            behaviour_defer_effect(*old(world), *old(ctx), *final(ctx), entity, Phase::PostUpdate),
    {
        BehaviourSystem::defer(world, ctx, entity, Phase::PostUpdate);
        proof {
            assert(same_shape(*old(world), *final(world)));
        }
    }

    fn frame_end(&mut self, world: &mut World, ctx: &mut FrameContext)
        ensures
            *final(world) == *old(world),
            *final(ctx) == *old(ctx),
    {
    }
}


/// Drives every animator by the frame delta, mirrors the resolved frame into
/// the entity's sprite, and reports a finished `Once` animation to the
/// entity itself.
pub struct AnimationSystem {}

impl AnimationSystem {
    pub fn new() -> (s: AnimationSystem) {
        AnimationSystem {  }
    }
}

impl System for AnimationSystem {
    fn start(&mut self, world: &mut World, ctx: &mut FrameContext, entity: Entity)
        ensures
            *final(world) == *old(world),
            *final(ctx) == *old(ctx),
    {
    }

    fn frame_begin(&mut self, world: &mut World, ctx: &mut FrameContext)
        ensures
            *final(world) == *old(world),
            *final(ctx) == *old(ctx),
    {
    }

    fn update(&mut self, world: &mut World, ctx: &mut FrameContext, entity: Entity)
        ensures
            *final(ctx) == *old(ctx),
            animation_update_effect(*old(world), *final(world), old(ctx).dt, entity),
    {
        let animator = match entity.animator(world) {
            Some(a) => a.clone(),
            None => {
                return ;
            },
        };
        let ok = animator.time <= crate::components::TIME_CAP && (match &animator.animation {
            Some(r) => r.read().frames().len() > 0,
            None => true,
        });
        if !ok {
            proof {
                assert(final(world).entities@ =~= old(world).entities@);
            }
            return ;
        }
        let mut animator = animator;
        animator.advance(ctx.dt);
        let finished = animator.finished();
        let frame = animator.current_frame();
        if entity.0 < world.entities.len() {
            match &mut world.entities[entity.0] {
                Some(st) => {
                    st.animator = Some(animator);
                    match &mut st.sprite {
                        Some(s) => {
                            s.frame = frame;
                        },
                        None => {},
                    }
                },
                None => {},
            }
        }
        let ghost mid = *world;
        proof {
            assert(same_shape(*old(world), mid));
            crate::ecs::lemma_wf_same_shape(*old(world), mid);
        }
        if finished {
            entity.send(world, Event::AnimationFinished, entity);
            proof {
                let e = entity.0 as int;
                let w0 = *old(world);
                let a = w0.st(e).animator->Some_0;
                let a2 = spec_advanced(a, old(ctx).dt);
                let st1 = EntityStorage {
                    animator: Some(a2),
                    sprite: match w0.st(e).sprite {
                        Some(s) => Some(Sprite { frame: spec_current_frame(a2), ..s }),
                        None => None::<Sprite>,
                    },
                    ..w0.st(e)
                };
                assert(mid.entities@ =~= w0.entities@.update(e, Some(st1)));
                assert(final(world).entities@ =~= w0.entities@.update(
                    e,
                    Some(EntityStorage { inbox: final(world).st(e).inbox, ..st1 }),
                ));
            }
        } else {
            proof {
                let e = entity.0 as int;
                let w0 = *old(world);
                let a = w0.st(e).animator->Some_0;
                let a2 = spec_advanced(a, old(ctx).dt);
                let st1 = EntityStorage {
                    animator: Some(a2),
                    sprite: match w0.st(e).sprite {
                        Some(s) => Some(Sprite { frame: spec_current_frame(a2), ..s }),
                        None => None::<Sprite>,
                    },
                    ..w0.st(e)
                };
                assert(final(world).entities@ =~= w0.entities@.update(e, Some(st1)));
            }
        }
    }

    fn post_update(&mut self, world: &mut World, ctx: &mut FrameContext, entity: Entity)
        ensures
            *final(world) == *old(world),
            *final(ctx) == *old(ctx),
    {
    }

    fn frame_end(&mut self, world: &mut World, ctx: &mut FrameContext)
        ensures
            *final(world) == *old(world),
            *final(ctx) == *old(ctx),
    {
    }
}

/// The destination rectangle a sprite is drawn into: the frame's size, with
/// the frame's anchor (wrapped by the size, the remainder keeping the
/// anchor's sign) pulled back to the origin.
pub open spec fn spec_sprite_dst(f: crate::image::Frame, size: Vector) -> Rect {
    let ax = crate::math::rem_toward_zero(f.anchor.x as int, size.x as int);
    let ay = crate::math::rem_toward_zero(f.anchor.y as int, size.y as int);
    let min = Vector { x: (-ax) as i64, y: (-ay) as i64 };
    Rect { min, max: min.spec_plus(size) }
}

/// Turns every entity with a sprite and a resolved frame into a textured
/// quad, queued under the sprite's render order. A frame whose region is not
/// positively sized draws nothing.
pub struct SpriteSystem {}

impl SpriteSystem {
    pub fn new() -> (s: SpriteSystem) {
        SpriteSystem {  }
    }
}

impl System for SpriteSystem {
    fn start(&mut self, world: &mut World, ctx: &mut FrameContext, entity: Entity)
        ensures
            *final(world) == *old(world),
            *final(ctx) == *old(ctx),
    {
    }

    fn frame_begin(&mut self, world: &mut World, ctx: &mut FrameContext)
        ensures
            *final(world) == *old(world),
            *final(ctx) == *old(ctx),
    {
    }

    fn update(&mut self, world: &mut World, ctx: &mut FrameContext, entity: Entity)
        ensures
            *final(world) == *old(world),
            sprite_update_effect(*old(world), *old(ctx), *final(ctx), entity),
    {
        let (frame, layer, order) = match entity.sprite(world) {
            Some(s) => match &s.frame {
                Some(f) => (f.clone(), s.layer, s.order),
                None => {
                    return ;
                },
            },
            None => {
                return ;
            },
        };
        let size = frame.region().size();
        if size.x <= 0 || size.y <= 0 {
            return ;
        }
        let trans = entity.transform_to_world(world);
        let anchor = frame.anchor();
        let ax = crate::math::rem(anchor.x, size.x);
        let ay = crate::math::rem(anchor.y, size.y);
        let dst = Rect::with_min_size(Vector { x: -ax, y: -ay }, size);
        let cmd = DrawCommand { transform: trans, dst, frame };
        ctx.render.push(RenderOrder::new(layer, order), cmd);
    }

    fn post_update(&mut self, world: &mut World, ctx: &mut FrameContext, entity: Entity)
        ensures
            *final(world) == *old(world),
            *final(ctx) == *old(ctx),
    {
    }

    fn frame_end(&mut self, world: &mut World, ctx: &mut FrameContext)
        ensures
            *final(world) == *old(world),
            *final(ctx) == *old(ctx),
    {
    }
}


/// Whether entity `b` registers a collision against entity `a`'s collider:
/// `b` must be a different, live, enabled entity whose collider's mask
/// matches one of `a`'s groups, and the two world-space rectangles must
/// overlap. The matching is directional: swapping `a` and `b` may answer
/// differently.
pub open spec fn collision_candidate(w: World, a: int, b: int) -> Option<Seq<char>> {
    if w.live(a) && w.st(a).collider is Some && b != a && w.live(b) && !w.st(b).disabled && w.st(
        b,
    ).collider is Some {
        let ca = w.st(a).collider->Some_0;
        let cb = w.st(b).collider->Some_0;
        match ca.spec_test(cb) {
            Some(g) => {
                let ra = ca.shape.spec_offset(world_transform(w, a).pos);
                let rb = cb.shape.spec_offset(world_transform(w, b).pos);
                if ra.spec_intersects(rb) {
                    Some(g)
                } else {
                    None
                }
            },
            None => None,
        }
    } else {
        None
    }
}

/// The hit reported for `a` after scanning entities `0..n` in handle order:
/// the candidate with the greatest handle, as the scan keeps the latest.
pub open spec fn last_collision(w: World, a: int, n: int) -> Option<(int, Seq<char>)>
    decreases n,
{
    if n <= 0 {
        None
    } else {
        match collision_candidate(w, a, n - 1) {
            Some(g) => Some((n - 1, g)),
            None => last_collision(w, a, n - 1),
        }
    }
}

/// Tests every collider entity against every other live, enabled collider
/// entity (a full scan each frame) and reports an overlap to the tested
/// entity as a Collision event from the entity it hit.
pub struct CollisionSystem {}

impl CollisionSystem {
    pub fn new() -> (s: CollisionSystem) {
        CollisionSystem {  }
    }
}

impl System for CollisionSystem {
    fn start(&mut self, world: &mut World, ctx: &mut FrameContext, entity: Entity)
        ensures
            *final(world) == *old(world),
            *final(ctx) == *old(ctx),
    {
    }

    fn frame_begin(&mut self, world: &mut World, ctx: &mut FrameContext)
        ensures
            *final(world) == *old(world),
            *final(ctx) == *old(ctx),
    {
    }

    fn update(&mut self, world: &mut World, ctx: &mut FrameContext, entity: Entity)
        ensures
            *final(ctx) == *old(ctx),
            collision_update_effect(*old(world), *final(world), entity),
    {
        let col = match entity.collider(world) {
            Some(c) => c.clone(),
            None => {
                proof {
                    lemma_no_collider_no_collision(
                        *old(world),
                        entity.0 as int,
                        old(world).entities@.len() as int,
                    );
                }
                return ;
            },
        };
        let ta = entity.transform_to_world(world);
        let shape_a = col.shape.offset(ta.position());
        let n = world.entities.len();
        let mut best: Option<(Entity, String)> = None;
        let mut b: usize = 0;
        while b < n
            invariant
                world.wf(),
                n == world.entities@.len(),
                b <= n,
                world.live(entity.0 as int),
                world.st(entity.0 as int).collider is Some,
                col.shape == world.st(entity.0 as int).collider->Some_0.shape,
                col.mask@ == world.st(entity.0 as int).collider->Some_0.mask@,
                col.group@ == world.st(entity.0 as int).collider->Some_0.group@,
                shape_a == world.st(entity.0 as int).collider->Some_0.shape.spec_offset(
                    world_transform(*world, entity.0 as int).pos,
                ),
                match best {
                    Some((ent, g)) => last_collision(*world, entity.0 as int, b as int) == Some(
                        (ent.0 as int, g@),
                    ),
                    None => last_collision(*world, entity.0 as int, b as int) is None,
                },
            decreases n - b,
        {
            let other = Entity(b);
            let ghost bi = b as int;
            let ghost w = *world;
            if b != entity.0 && !other.disabled(world) {
                match other.collider(world) {
                    Some(cb) => {
                        match col.test(cb) {
                            Some(g) => {
                                let tb = other.transform_to_world(world);
                                let shape_b = cb.shape.offset(tb.position());
                                proof {
                                    assert(col.spec_test(*cb) == w.st(entity.0 as int).collider->Some_0.spec_test(
                                        w.st(bi).collider->Some_0,
                                    ));
                                }
                                if shape_a.intersect(&shape_b).is_some() {
                                    best = Some((other, g));
                                } else {
                                    proof {
                                        assert(collision_candidate(w, entity.0 as int, bi) is None);
                                    }
                                }
                            },
                            None => {
                                proof {
                                    assert(col.spec_test(*cb) == w.st(entity.0 as int).collider->Some_0.spec_test(
                                        w.st(bi).collider->Some_0,
                                    ));
                                    assert(collision_candidate(w, entity.0 as int, bi) is None);
                                }
                            },
                        }
                    },
                    None => {
                        proof {
                            assert(collision_candidate(w, entity.0 as int, bi) is None);
                        }
                    },
                }
            } else {
                proof {
                    assert(collision_candidate(w, entity.0 as int, bi) is None);
                }
            }
            b = b + 1;
        }
        match best {
            Some((other, group)) => {
                let hit = Collision { other, group };
                other.send(world, Event::Collision(hit), entity);
                proof {
                    let e = entity.0 as int;
                    let w0 = *old(world);
                    assert(final(world).st(e).inbox@.last() == (
                        other,
                        Event::Collision(
                            Collision {
                                other,
                                group: final(world).st(e).inbox@.last().1->Collision_0.group,
                            },
                        ),
                    ));
                }
            },
            None => {},
        }
    }

    fn post_update(&mut self, world: &mut World, ctx: &mut FrameContext, entity: Entity)
        ensures
            *final(world) == *old(world),
            *final(ctx) == *old(ctx),
    {
    }

    fn frame_end(&mut self, world: &mut World, ctx: &mut FrameContext)
        ensures
            *final(world) == *old(world),
            *final(ctx) == *old(ctx),
    {
    }
}

/// An entity without a collider never scans a hit.
proof fn lemma_no_collider_no_collision(w: World, a: int, n: int)
    requires
        !(w.live(a) && w.st(a).collider is Some),
    ensures
        last_collision(w, a, n) is None,
    decreases n,
{
    if n > 0 {
        lemma_no_collider_no_collision(w, a, n - 1);
    }
}


/// The engine's own systems as one dispatchable unit, so a frame driver can
/// hold a mixed, ordered list of them.
pub enum EngineSystem {
    Animation(AnimationSystem),
    Behaviour(BehaviourSystem),
    Camera(CameraSystem),
    Collision(CollisionSystem),
    Sprite(SpriteSystem),
}

impl System for EngineSystem {
    fn start(&mut self, world: &mut World, ctx: &mut FrameContext, entity: Entity)
        ensures
            match *old(self) {
                EngineSystem::Behaviour(_) => *final(world) == *old(world)
                    && behaviour_defer_effect(
                    *old(world),
                    *old(ctx),
                    *final(ctx),
                    entity,
                    Phase::Start,
                ),
                _ => *final(world) == *old(world) && *final(ctx) == *old(ctx),
            },
    {
        match self {
            EngineSystem::Animation(s) => s.start(world, ctx, entity),
            EngineSystem::Behaviour(s) => s.start(world, ctx, entity),
            EngineSystem::Camera(s) => s.start(world, ctx, entity),
            EngineSystem::Collision(s) => s.start(world, ctx, entity),
            EngineSystem::Sprite(s) => s.start(world, ctx, entity),
        }
    }

    fn frame_begin(&mut self, world: &mut World, ctx: &mut FrameContext)
        ensures
            match *old(self) {
                EngineSystem::Camera(_) => *final(world) == *old(world)
                    && camera_frame_begin_effect(*old(ctx), *final(ctx)),
                _ => *final(world) == *old(world) && *final(ctx) == *old(ctx),
            },
    {
        match self {
            EngineSystem::Animation(s) => s.frame_begin(world, ctx),
            EngineSystem::Behaviour(s) => s.frame_begin(world, ctx),
            EngineSystem::Camera(s) => s.frame_begin(world, ctx),
            EngineSystem::Collision(s) => s.frame_begin(world, ctx),
            EngineSystem::Sprite(s) => s.frame_begin(world, ctx),
        }
    }

    fn update(&mut self, world: &mut World, ctx: &mut FrameContext, entity: Entity)
        ensures
            match *old(self) {
                EngineSystem::Animation(_) => *final(ctx) == *old(ctx)
                    && animation_update_effect(*old(world), *final(world), old(ctx).dt, entity),
                EngineSystem::Behaviour(_) => *final(world) == *old(world)
                    && behaviour_defer_effect(
                    *old(world),
                    *old(ctx),
                    *final(ctx),
                    entity,
                    Phase::Update,
                ),
                EngineSystem::Camera(_) => *final(world) == *old(world) && *final(ctx) == *old(
                    ctx,
                ),
                EngineSystem::Collision(_) => *final(ctx) == *old(ctx)
                    && collision_update_effect(*old(world), *final(world), entity),
                EngineSystem::Sprite(_) => *final(world) == *old(world) && sprite_update_effect(
                    *old(world),
                    *old(ctx),
                    *final(ctx),
                    entity,
                ),
            },
    {
        match self {
            EngineSystem::Animation(s) => s.update(world, ctx, entity),
            EngineSystem::Behaviour(s) => s.update(world, ctx, entity),
            EngineSystem::Camera(s) => s.update(world, ctx, entity),
            EngineSystem::Collision(s) => s.update(world, ctx, entity),
            EngineSystem::Sprite(s) => s.update(world, ctx, entity),
        }
    }

    fn post_update(&mut self, world: &mut World, ctx: &mut FrameContext, entity: Entity)
        ensures
            match *old(self) {
                EngineSystem::Behaviour(_) => *final(world) == *old(world)
                    && behaviour_defer_effect(
                    *old(world),
                    *old(ctx),
                    *final(ctx),
                    entity,
                    Phase::PostUpdate,
                ),
                EngineSystem::Camera(_) => *final(world) == *old(world)
                    && camera_post_update_effect(*old(world), *old(ctx), *final(ctx), entity),
                _ => *final(world) == *old(world) && *final(ctx) == *old(ctx),
            },
    {
        match self {
            EngineSystem::Animation(s) => s.post_update(world, ctx, entity),
            EngineSystem::Behaviour(s) => s.post_update(world, ctx, entity),
            EngineSystem::Camera(s) => s.post_update(world, ctx, entity),
            EngineSystem::Collision(s) => s.post_update(world, ctx, entity),
            EngineSystem::Sprite(s) => s.post_update(world, ctx, entity),
        }
    }

    fn frame_end(&mut self, world: &mut World, ctx: &mut FrameContext)
        ensures
            *final(world) == *old(world),
            *final(ctx) == *old(ctx),
    {
        match self {
            EngineSystem::Animation(s) => s.frame_end(world, ctx),
            EngineSystem::Behaviour(s) => s.frame_end(world, ctx),
            EngineSystem::Camera(s) => s.frame_end(world, ctx),
            EngineSystem::Collision(s) => s.frame_end(world, ctx),
            EngineSystem::Sprite(s) => s.frame_end(world, ctx),
        }
    }
}


/// The hook one per-entity pass makes for system `i` on entity `e`.
pub open spec fn entity_hook(i: int, e: Entity, phase: Phase) -> HookCall {
    match phase {
        Phase::Start => HookCall::Start(i, e),
        Phase::Update => HookCall::Update(i, e),
        Phase::PostUpdate => HookCall::PostUpdate(i, e),
    }
}

/// The hooks one visit makes: every one of `n` systems, in registration
/// order, on entity `e`.
pub open spec fn entity_hooks(n: int, e: Entity, phase: Phase) -> Seq<HookCall> {
    Seq::new(n as nat, |i: int| entity_hook(i, e, phase))
}

/// The `frame_begin` hooks of `n` systems, in registration order.
pub open spec fn frame_begin_hooks(n: int) -> Seq<HookCall> {
    Seq::new(n as nat, |i: int| HookCall::FrameBegin(i))
}

/// The `frame_end` hooks of `n` systems, in registration order.
pub open spec fn frame_end_hooks(n: int) -> Seq<HookCall> {
    Seq::new(n as nat, |i: int| HookCall::FrameEnd(i))
}

/// Every hook invocation a per-entity pass makes over the subtree rooted at
/// `e`, in order: the visited entity's hooks first (none while it is
/// disabled), then each child's subtree in attachment order. This is the
/// schedule of spec that the walk functions promise to follow.
pub open spec fn pass_calls(w: World, e: int, n: int, phase: Phase) -> Seq<HookCall>
    decreases w.entities@.len() - w.st(e).depth, 0int,
        when w.wf() && w.live(e)
    via pass_calls_decreases
{
    (if w.st(e).disabled {
        Seq::<HookCall>::empty()
    } else {
        entity_hooks(n, Entity(e as usize), phase)
    }) + pass_calls_children(w, w.st(e).children@, w.st(e).depth + 1, n, phase)
}

/// The concatenated hook schedules of the subtrees of `cs`, all at depth `d`.
pub open spec fn pass_calls_children(
    w: World,
    cs: Seq<Entity>,
    d: int,
    n: int,
    phase: Phase,
) -> Seq<HookCall>
    decreases w.entities@.len() - d, cs.len() + 1,
        when w.wf() && 0 < d <= w.entities@.len() && (forall|k: int|
            0 <= k < cs.len() ==> w.live((#[trigger] cs[k]).0 as int) && w.st(
                cs[k].0 as int,
            ).depth == d)
    via pass_calls_children_decreases
{
    if cs.len() == 0 {
        Seq::empty()
    } else {
        pass_calls(w, cs[0].0 as int, n, phase) + pass_calls_children(
            w,
            cs.drop_first(),
            d,
            n,
            phase,
        )
    }
}

#[via_fn]
proof fn pass_calls_decreases(w: World, e: int, n: int, phase: Phase) {
    assert(w.wf_at(e));
}

#[via_fn]
proof fn pass_calls_children_decreases(w: World, cs: Seq<Entity>, d: int, n: int, phase: Phase) {
    if cs.len() > 0 {
        assert(w.live(cs[0].0 as int));
        assert(w.wf_at(cs[0].0 as int));
    }
}

/// Appending one more root to a family of schedules appends its schedule.
proof fn lemma_pass_calls_snoc(w: World, cs: Seq<Entity>, c: Entity, d: int, n: int, phase: Phase)
    requires
        w.wf(),
        0 < d <= w.entities@.len(),
        forall|k: int|
            0 <= k < cs.len() ==> w.live((#[trigger] cs[k]).0 as int) && w.st(
                cs[k].0 as int,
            ).depth == d,
        w.live(c.0 as int),
        w.st(c.0 as int).depth == d,
    ensures
        pass_calls_children(w, cs.push(c), d, n, phase) == pass_calls_children(w, cs, d, n, phase)
            + pass_calls(w, c.0 as int, n, phase),
    decreases cs.len(),
{
    assert forall|k: int| 0 <= k < cs.push(c).len() implies w.live(
        (#[trigger] cs.push(c)[k]).0 as int,
    ) && w.st(cs.push(c)[k].0 as int).depth == d by {
        if k < cs.len() {
            assert(cs.push(c)[k] == cs[k]);
        }
    }
    if cs.len() == 0 {
        assert(cs.push(c)[0] == c);
        assert(pass_calls_children(w, cs.push(c), d, n, phase) == pass_calls(w, c.0 as int, n, phase)
            + pass_calls_children(w, cs.push(c).drop_first(), d, n, phase));
        assert(cs.push(c).drop_first() =~= Seq::<Entity>::empty());
        assert(cs =~= Seq::<Entity>::empty());
        assert(pass_calls_children(w, Seq::<Entity>::empty(), d, n, phase) == Seq::<
            HookCall,
        >::empty());
        assert(pass_calls_children(w, cs.push(c), d, n, phase) =~= pass_calls_children(
            w,
            cs,
            d,
            n,
            phase,
        ) + pass_calls(w, c.0 as int, n, phase));
    } else {
        assert(cs.push(c).drop_first() =~= cs.drop_first().push(c));
        lemma_pass_calls_snoc(w, cs.drop_first(), c, d, n, phase);
        assert(cs.push(c)[0] == cs[0]);
        assert(pass_calls_children(w, cs.push(c), d, n, phase) == pass_calls(
            w,
            cs[0].0 as int,
            n,
            phase,
        ) + (pass_calls_children(w, cs.drop_first(), d, n, phase) + pass_calls(
            w,
            c.0 as int,
            n,
            phase,
        )));
        assert(pass_calls_children(w, cs.push(c), d, n, phase) =~= pass_calls_children(
            w,
            cs,
            d,
            n,
            phase,
        ) + pass_calls(w, c.0 as int, n, phase));
    }
}

/// The hook schedule reads only liveness, disabled flags, children and
/// depths, so it is the same in any world that keeps those.
proof fn lemma_pass_calls_stable(w1: World, w2: World, e: int, n: int, phase: Phase)
    requires
        w1.wf(),
        w1.live(e),
        w2.wf(),
        same_shape(w1, w2),
        forall|j: int|
            #[trigger] w1.live(j) ==> w2.st(j).disabled == w1.st(j).disabled,
    ensures
        pass_calls(w2, e, n, phase) == pass_calls(w1, e, n, phase),
    decreases w1.entities@.len() - w1.st(e).depth,
{
    assert(w1.wf_at(e));
    assert(w2.live(e));
    let cs = w1.st(e).children@;
    let d = w1.st(e).depth + 1;
    assert(w2.st(e).children@ == cs && w2.st(e).depth == w1.st(e).depth);
    assert forall|k: int| 0 <= k < cs.len() implies w1.live((#[trigger] cs[k]).0 as int)
        && w1.st(cs[k].0 as int).depth == d && pass_calls(w2, cs[k].0 as int, n, phase)
        == pass_calls(w1, cs[k].0 as int, n, phase) by {
        let c = cs[k].0 as int;
        assert(w1.live(c));
        assert(w1.wf_at(c));
        lemma_pass_calls_stable(w1, w2, c, n, phase);
    }
    lemma_pass_calls_children_stable(w1, w2, cs, d, n, phase);
}

/// The family version of the schedule's stability.
proof fn lemma_pass_calls_children_stable(
    w1: World,
    w2: World,
    cs: Seq<Entity>,
    d: int,
    n: int,
    phase: Phase,
)
    requires
        w1.wf(),
        w2.wf(),
        same_shape(w1, w2),
        0 < d <= w1.entities@.len(),
        forall|k: int|
            0 <= k < cs.len() ==> w1.live((#[trigger] cs[k]).0 as int) && w1.st(
                cs[k].0 as int,
            ).depth == d,
        forall|k: int|
            0 <= k < cs.len() ==> pass_calls(w2, (#[trigger] cs[k]).0 as int, n, phase)
                == pass_calls(w1, cs[k].0 as int, n, phase),
    ensures
        pass_calls_children(w2, cs, d, n, phase) == pass_calls_children(w1, cs, d, n, phase),
    decreases cs.len(),
{
    assert forall|k: int| 0 <= k < cs.len() implies w2.live((#[trigger] cs[k]).0 as int) && w2.st(
        cs[k].0 as int,
    ).depth == d by {
        assert(w1.live(cs[k].0 as int));
    }
    if cs.len() > 0 {
        assert forall|k: int| 0 <= k < cs.drop_first().len() implies {
            let c = (#[trigger] cs.drop_first()[k]).0 as int;
            w1.live(c) && w1.st(c).depth == d && pass_calls(w2, c, n, phase) == pass_calls(
                w1,
                c,
                n,
                phase,
            )
        } by {
            assert(cs.drop_first()[k] == cs[k + 1]);
        }
        lemma_pass_calls_children_stable(w1, w2, cs.drop_first(), d, n, phase);
    }
}

/// Runs the `frame_begin` hook of every system, in registration order,
/// recording each invocation in the frame's call log.
pub fn frame_begin<S: System>(systems: &mut Vec<S>, world: &mut World, ctx: &mut FrameContext)
    requires
        old(world).wf(),
        old(ctx).render.seq_wf(),
    ensures
        final(world).wf(),
        same_shape(*old(world), *final(world)),
        forall|j: int|
            #[trigger] old(world).live(j) ==> final(world).st(j).disabled == old(world).st(
                j,
            ).disabled,
        final(systems)@.len() == old(systems)@.len(),
        final(ctx).render.seq_wf(),
        final(ctx).dt == old(ctx).dt,
        final(ctx).call_log@ == old(ctx).call_log@ + frame_begin_hooks(old(systems)@.len() as int),
{
    let ghost w0 = *old(world);
    let n = systems.len();
    let mut i: usize = 0;
    while i < n
        invariant
            w0 == *old(world),
            n == systems@.len(),
            i <= n,
            world.wf(),
            same_shape(w0, *world),
            forall|j: int| #[trigger] w0.live(j) ==> world.st(j).disabled == w0.st(j).disabled,
            ctx.render.seq_wf(),
            ctx.dt == old(ctx).dt,
            ctx.call_log@ == old(ctx).call_log@ + Seq::new(
                i as nat,
                |j: int| HookCall::FrameBegin(j),
            ),
        decreases n - i,
    {
        let ghost pre = *world;
        systems[i].frame_begin(world, ctx);
        proof {
            crate::ecs::lemma_same_shape_trans(w0, pre, *world);
            assert forall|j: int| #[trigger] w0.live(j) implies world.st(j).disabled == w0.st(
                j,
            ).disabled by {
                assert(pre.live(j));
            }
        }
        ctx.call_log = Ghost(ctx.call_log@.push(HookCall::FrameBegin(i as int)));
        proof {
            assert(Seq::new(i as nat + 1, |j: int| HookCall::FrameBegin(j)) =~= Seq::new(
                i as nat,
                |j: int| HookCall::FrameBegin(j),
            ).push(HookCall::FrameBegin(i as int)));
            assert(ctx.call_log@ =~= old(ctx).call_log@ + Seq::new(
                i as nat + 1,
                |j: int| HookCall::FrameBegin(j),
            ));
        }
        i = i + 1;
    }
}

/// Runs the `frame_end` hook of every system, in registration order,
/// recording each invocation in the frame's call log.
pub fn frame_end<S: System>(systems: &mut Vec<S>, world: &mut World, ctx: &mut FrameContext)
    requires
        old(world).wf(),
        old(ctx).render.seq_wf(),
    ensures
        final(world).wf(),
        same_shape(*old(world), *final(world)),
        forall|j: int|
            #[trigger] old(world).live(j) ==> final(world).st(j).disabled == old(world).st(
                j,
            ).disabled,
        final(systems)@.len() == old(systems)@.len(),
        final(ctx).render.seq_wf(),
        final(ctx).dt == old(ctx).dt,
        final(ctx).call_log@ == old(ctx).call_log@ + frame_end_hooks(old(systems)@.len() as int),
{
    let ghost w0 = *old(world);
    let n = systems.len();
    let mut i: usize = 0;
    while i < n
        invariant
            w0 == *old(world),
            n == systems@.len(),
            i <= n,
            world.wf(),
            same_shape(w0, *world),
            forall|j: int| #[trigger] w0.live(j) ==> world.st(j).disabled == w0.st(j).disabled,
            ctx.render.seq_wf(),
            ctx.dt == old(ctx).dt,
            ctx.call_log@ == old(ctx).call_log@ + Seq::new(
                i as nat,
                |j: int| HookCall::FrameEnd(j),
            ),
        decreases n - i,
    {
        let ghost pre = *world;
        systems[i].frame_end(world, ctx);
        proof {
            crate::ecs::lemma_same_shape_trans(w0, pre, *world);
            assert forall|j: int| #[trigger] w0.live(j) implies world.st(j).disabled == w0.st(
                j,
            ).disabled by {
                assert(pre.live(j));
            }
        }
        ctx.call_log = Ghost(ctx.call_log@.push(HookCall::FrameEnd(i as int)));
        proof {
            assert(Seq::new(i as nat + 1, |j: int| HookCall::FrameEnd(j)) =~= Seq::new(
                i as nat,
                |j: int| HookCall::FrameEnd(j),
            ).push(HookCall::FrameEnd(i as int)));
            assert(ctx.call_log@ =~= old(ctx).call_log@ + Seq::new(
                i as nat + 1,
                |j: int| HookCall::FrameEnd(j),
            ));
        }
        i = i + 1;
    }
}


/// Runs every system's `start` on the subtree rooted at `entity`: the
/// entity itself first (its hooks skipped while it is disabled), then each
/// child's subtree in attachment order; the schedule followed is exactly
/// `pass_calls`. A dead handle is ignored.
pub fn start_entity<S: System>(
    systems: &mut Vec<S>,
    world: &mut World,
    ctx: &mut FrameContext,
    entity: Entity,
)
    requires
        old(world).wf(),
        old(ctx).render.seq_wf(),
    ensures
        final(world).wf(),
        same_shape(*old(world), *final(world)),
        forall|j: int|
            #[trigger] old(world).live(j) ==> final(world).st(j).disabled == old(world).st(
                j,
            ).disabled,
        final(systems)@.len() == old(systems)@.len(),
        final(ctx).render.seq_wf(),
        final(ctx).dt == old(ctx).dt,
        !old(world).live(entity.0 as int) ==> final(ctx).call_log@ == old(ctx).call_log@,
        old(world).live(entity.0 as int) ==> final(ctx).call_log@ == old(ctx).call_log@
            + pass_calls(*old(world), entity.0 as int, old(systems)@.len() as int, Phase::Start),
    decreases old(world).entities@.len() - old(world).st(entity.0 as int).depth,
{
    if entity.0 >= world.entities.len() || world.entities[entity.0].is_none() {
        return ;
    }
    let ghost e = entity.0 as int;
    let ghost w0 = *old(world);
    let n = systems.len();
    let disabled = entity.disabled(world);
    if !disabled {
        let mut i: usize = 0;
        while i < n
            invariant
                n == systems@.len(),
                world.wf(),
                same_shape(w0, *world),
                forall|j: int|
                    #[trigger] w0.live(j) ==> world.st(j).disabled == w0.st(j).disabled,
                ctx.render.seq_wf(),
                ctx.dt == old(ctx).dt,
                ctx.call_log@ == old(ctx).call_log@,
            decreases n - i,
        {
            let ghost pre = *world;
            systems[i].start(world, ctx, entity);
            proof {
                crate::ecs::lemma_same_shape_trans(w0, pre, *world);
                assert forall|j: int| #[trigger] w0.live(j) implies world.st(j).disabled == w0.st(
                    j,
                ).disabled by {
                    assert(pre.live(j));
                }
            }
            i = i + 1;
        }
        ctx.call_log = Ghost(ctx.call_log@ + entity_hooks(n as int, entity, Phase::Start));
    }
    let ghost head = if w0.st(e).disabled {
        Seq::<HookCall>::empty()
    } else {
        entity_hooks(n as int, Entity(e as usize), Phase::Start)
    };
    proof {
        assert(Entity(e as usize) == entity);
        assert(ctx.call_log@ =~= old(ctx).call_log@ + head);
    }
    let kids = entity.children(world);
    let ghost d = w0.st(e).depth + 1;
    proof {
        assert(w0.live(e));
        assert(w0.wf_at(e));
        assert(kids@ == w0.st(e).children@);
        assert forall|j: int| 0 <= j < kids@.len() implies w0.live((#[trigger] kids@[j]).0 as int)
            && w0.st(kids@[j].0 as int).depth == d by {
            let c = kids@[j].0 as int;
            assert(w0.live(c));
            assert(w0.wf_at(c));
            assert(w0.st(c).parent == Some(w0.st(e).entity));
        }
        assert(kids@.take(0) =~= Seq::<Entity>::empty());
        assert(pass_calls_children(w0, Seq::<Entity>::empty(), d, n as int, Phase::Start)
            == Seq::<HookCall>::empty());
        assert(ctx.call_log@ =~= old(ctx).call_log@ + head + pass_calls_children(
            w0,
            kids@.take(0),
            d,
            n as int,
            Phase::Start,
        ));
    }
    let mut k: usize = 0;
    while k < kids.len()
        invariant
            n == systems@.len(),
            world.wf(),
            same_shape(w0, *world),
            forall|j: int| #[trigger] w0.live(j) ==> world.st(j).disabled == w0.st(j).disabled,
            ctx.render.seq_wf(),
            ctx.dt == old(ctx).dt,
            w0 == *old(world),
            e == entity.0 as int,
            w0.wf(),
            w0.live(e),
            0 < d <= w0.entities@.len(),
            kids@ == w0.st(e).children@,
            d == w0.st(e).depth + 1,
            forall|j: int|
                0 <= j < kids@.len() ==> w0.live((#[trigger] kids@[j]).0 as int) && w0.st(
                    kids@[j].0 as int,
                ).depth == d,
            k <= kids@.len(),
            ctx.call_log@ == old(ctx).call_log@ + head + pass_calls_children(
                w0,
                kids@.take(k as int),
                d,
                n as int,
                Phase::Start,
            ),
        decreases kids@.len() - k,
    {
        let child = kids[k];
        let ghost pre = *world;
        proof {
            assert(kids@[k as int] == child);
            assert(w0.live(child.0 as int));
            assert(w0.st(child.0 as int).depth == d);
            assert(world.live(child.0 as int));
            assert(world.st(child.0 as int).depth == w0.st(child.0 as int).depth);
            assert(world.entities@.len() == w0.entities@.len());
        }
        start_entity(systems, world, ctx, child);
        proof {
            crate::ecs::lemma_same_shape_trans(w0, pre, *world);
            assert forall|j: int| #[trigger] w0.live(j) implies world.st(j).disabled == w0.st(
                j,
            ).disabled by {
                assert(pre.live(j));
            }
            assert forall|j: int| #[trigger] pre.live(j) implies pre.st(j).disabled == w0.st(
                j,
            ).disabled by {
                assert(w0.live(j));
            }
            lemma_pass_calls_stable(w0, pre, child.0 as int, n as int, Phase::Start);
            assert forall|j: int| 0 <= j < kids@.take(k as int).len() implies w0.live(
                (#[trigger] kids@.take(k as int)[j]).0 as int,
            ) && w0.st(kids@.take(k as int)[j].0 as int).depth == d by {
                assert(kids@.take(k as int)[j] == kids@[j]);
            }
            lemma_pass_calls_snoc(w0, kids@.take(k as int), child, d, n as int, Phase::Start);
            assert(kids@.take(k as int + 1) =~= kids@.take(k as int).push(child));
            assert(ctx.call_log@ =~= old(ctx).call_log@ + head + pass_calls_children(
                w0,
                kids@.take(k as int + 1),
                d,
                n as int,
                Phase::Start,
            ));
        }
        k = k + 1;
    }
    proof {
        assert(kids@.take(kids@.len() as int) =~= kids@);
        assert(ctx.call_log@ =~= old(ctx).call_log@ + pass_calls(w0, e, n as int, Phase::Start));
    }
}

/// Runs every system's `update` on the subtree rooted at `entity`, in the
/// same order as `start_entity`; the schedule followed is exactly
/// `pass_calls`.
pub fn update_entity<S: System>(
    systems: &mut Vec<S>,
    world: &mut World,
    ctx: &mut FrameContext,
    entity: Entity,
)
    requires
        old(world).wf(),
        old(ctx).render.seq_wf(),
    ensures
        final(world).wf(),
        same_shape(*old(world), *final(world)),
        forall|j: int|
            #[trigger] old(world).live(j) ==> final(world).st(j).disabled == old(world).st(
                j,
            ).disabled,
        final(systems)@.len() == old(systems)@.len(),
        final(ctx).render.seq_wf(),
        final(ctx).dt == old(ctx).dt,
        !old(world).live(entity.0 as int) ==> final(ctx).call_log@ == old(ctx).call_log@,
        old(world).live(entity.0 as int) ==> final(ctx).call_log@ == old(ctx).call_log@
            + pass_calls(*old(world), entity.0 as int, old(systems)@.len() as int, Phase::Update),
    decreases old(world).entities@.len() - old(world).st(entity.0 as int).depth,
{
    if entity.0 >= world.entities.len() || world.entities[entity.0].is_none() {
        return ;
    }
    let ghost e = entity.0 as int;
    let ghost w0 = *old(world);
    let n = systems.len();
    let disabled = entity.disabled(world);
    if !disabled {
        let mut i: usize = 0;
        while i < n
            invariant
                n == systems@.len(),
                world.wf(),
                same_shape(w0, *world),
                forall|j: int|
                    #[trigger] w0.live(j) ==> world.st(j).disabled == w0.st(j).disabled,
                ctx.render.seq_wf(),
                ctx.dt == old(ctx).dt,
                ctx.call_log@ == old(ctx).call_log@,
            decreases n - i,
        {
            let ghost pre = *world;
            systems[i].update(world, ctx, entity);
            proof {
                crate::ecs::lemma_same_shape_trans(w0, pre, *world);
                assert forall|j: int| #[trigger] w0.live(j) implies world.st(j).disabled == w0.st(
                    j,
                ).disabled by {
                    assert(pre.live(j));
                }
            }
            i = i + 1;
        }
        ctx.call_log = Ghost(ctx.call_log@ + entity_hooks(n as int, entity, Phase::Update));
    }
    let ghost head = if w0.st(e).disabled {
        Seq::<HookCall>::empty()
    } else {
        entity_hooks(n as int, Entity(e as usize), Phase::Update)
    };
    proof {
        assert(Entity(e as usize) == entity);
        assert(ctx.call_log@ =~= old(ctx).call_log@ + head);
    }
    let kids = entity.children(world);
    let ghost d = w0.st(e).depth + 1;
    proof {
        assert(w0.live(e));
        assert(w0.wf_at(e));
        assert(kids@ == w0.st(e).children@);
        assert forall|j: int| 0 <= j < kids@.len() implies w0.live((#[trigger] kids@[j]).0 as int)
            && w0.st(kids@[j].0 as int).depth == d by {
            let c = kids@[j].0 as int;
            assert(w0.live(c));
            assert(w0.wf_at(c));
            assert(w0.st(c).parent == Some(w0.st(e).entity));
        }
        assert(kids@.take(0) =~= Seq::<Entity>::empty());
        assert(pass_calls_children(w0, Seq::<Entity>::empty(), d, n as int, Phase::Update)
            == Seq::<HookCall>::empty());
        assert(ctx.call_log@ =~= old(ctx).call_log@ + head + pass_calls_children(
            w0,
            kids@.take(0),
            d,
            n as int,
            Phase::Update,
        ));
    }
    let mut k: usize = 0;
    while k < kids.len()
        invariant
            n == systems@.len(),
            world.wf(),
            same_shape(w0, *world),
            forall|j: int| #[trigger] w0.live(j) ==> world.st(j).disabled == w0.st(j).disabled,
            ctx.render.seq_wf(),
            ctx.dt == old(ctx).dt,
            w0 == *old(world),
            e == entity.0 as int,
            w0.wf(),
            w0.live(e),
            0 < d <= w0.entities@.len(),
            kids@ == w0.st(e).children@,
            d == w0.st(e).depth + 1,
            forall|j: int|
                0 <= j < kids@.len() ==> w0.live((#[trigger] kids@[j]).0 as int) && w0.st(
                    kids@[j].0 as int,
                ).depth == d,
            k <= kids@.len(),
            ctx.call_log@ == old(ctx).call_log@ + head + pass_calls_children(
                w0,
                kids@.take(k as int),
                d,
                n as int,
                Phase::Update,
            ),
        decreases kids@.len() - k,
    {
        let child = kids[k];
        let ghost pre = *world;
        proof {
            assert(kids@[k as int] == child);
            assert(w0.live(child.0 as int));
            assert(w0.st(child.0 as int).depth == d);
            assert(world.live(child.0 as int));
            assert(world.st(child.0 as int).depth == w0.st(child.0 as int).depth);
            assert(world.entities@.len() == w0.entities@.len());
        }
        update_entity(systems, world, ctx, child);
        proof {
            crate::ecs::lemma_same_shape_trans(w0, pre, *world);
            assert forall|j: int| #[trigger] w0.live(j) implies world.st(j).disabled == w0.st(
                j,
            ).disabled by {
                assert(pre.live(j));
            }
            assert forall|j: int| #[trigger] pre.live(j) implies pre.st(j).disabled == w0.st(
                j,
            ).disabled by {
                assert(w0.live(j));
            }
            lemma_pass_calls_stable(w0, pre, child.0 as int, n as int, Phase::Update);
            assert forall|j: int| 0 <= j < kids@.take(k as int).len() implies w0.live(
                (#[trigger] kids@.take(k as int)[j]).0 as int,
            ) && w0.st(kids@.take(k as int)[j].0 as int).depth == d by {
                assert(kids@.take(k as int)[j] == kids@[j]);
            }
            lemma_pass_calls_snoc(w0, kids@.take(k as int), child, d, n as int, Phase::Update);
            assert(kids@.take(k as int + 1) =~= kids@.take(k as int).push(child));
            assert(ctx.call_log@ =~= old(ctx).call_log@ + head + pass_calls_children(
                w0,
                kids@.take(k as int + 1),
                d,
                n as int,
                Phase::Update,
            ));
        }
        k = k + 1;
    }
    proof {
        assert(kids@.take(kids@.len() as int) =~= kids@);
        assert(ctx.call_log@ =~= old(ctx).call_log@ + pass_calls(w0, e, n as int, Phase::Update));
    }
}

/// Runs every system's `post_update` on the subtree rooted at `entity`, in
/// the same order as `start_entity`; the schedule followed is exactly
/// `pass_calls`.
pub fn post_update_entity<S: System>(
    systems: &mut Vec<S>,
    world: &mut World,
    ctx: &mut FrameContext,
    entity: Entity,
)
    requires
        old(world).wf(),
        old(ctx).render.seq_wf(),
    ensures
        final(world).wf(),
        same_shape(*old(world), *final(world)),
        forall|j: int|
            #[trigger] old(world).live(j) ==> final(world).st(j).disabled == old(world).st(
                j,
            ).disabled,
        final(systems)@.len() == old(systems)@.len(),
        final(ctx).render.seq_wf(),
        final(ctx).dt == old(ctx).dt,
        !old(world).live(entity.0 as int) ==> final(ctx).call_log@ == old(ctx).call_log@,
        old(world).live(entity.0 as int) ==> final(ctx).call_log@ == old(ctx).call_log@
            + pass_calls(*old(world), entity.0 as int, old(systems)@.len() as int, Phase::PostUpdate),
    decreases old(world).entities@.len() - old(world).st(entity.0 as int).depth,
{
    if entity.0 >= world.entities.len() || world.entities[entity.0].is_none() {
        return ;
    }
    let ghost e = entity.0 as int;
    let ghost w0 = *old(world);
    let n = systems.len();
    let disabled = entity.disabled(world);
    if !disabled {
        let mut i: usize = 0;
        while i < n
            invariant
                n == systems@.len(),
                world.wf(),
                same_shape(w0, *world),
                forall|j: int|
                    #[trigger] w0.live(j) ==> world.st(j).disabled == w0.st(j).disabled,
                ctx.render.seq_wf(),
                ctx.dt == old(ctx).dt,
                ctx.call_log@ == old(ctx).call_log@,
            decreases n - i,
        {
            let ghost pre = *world;
            systems[i].post_update(world, ctx, entity);
            proof {
                crate::ecs::lemma_same_shape_trans(w0, pre, *world);
                assert forall|j: int| #[trigger] w0.live(j) implies world.st(j).disabled == w0.st(
                    j,
                ).disabled by {
                    assert(pre.live(j));
                }
            }
            i = i + 1;
        }
        ctx.call_log = Ghost(ctx.call_log@ + entity_hooks(n as int, entity, Phase::PostUpdate));
    }
    let ghost head = if w0.st(e).disabled {
        Seq::<HookCall>::empty()
    } else {
        entity_hooks(n as int, Entity(e as usize), Phase::PostUpdate)
    };
    proof {
        assert(Entity(e as usize) == entity);
        assert(ctx.call_log@ =~= old(ctx).call_log@ + head);
    }
    let kids = entity.children(world);
    let ghost d = w0.st(e).depth + 1;
    proof {
        assert(w0.live(e));
        assert(w0.wf_at(e));
        assert(kids@ == w0.st(e).children@);
        assert forall|j: int| 0 <= j < kids@.len() implies w0.live((#[trigger] kids@[j]).0 as int)
            && w0.st(kids@[j].0 as int).depth == d by {
            let c = kids@[j].0 as int;
            assert(w0.live(c));
            assert(w0.wf_at(c));
            assert(w0.st(c).parent == Some(w0.st(e).entity));
        }
        assert(kids@.take(0) =~= Seq::<Entity>::empty());
        assert(pass_calls_children(w0, Seq::<Entity>::empty(), d, n as int, Phase::PostUpdate)
            == Seq::<HookCall>::empty());
        assert(ctx.call_log@ =~= old(ctx).call_log@ + head + pass_calls_children(
            w0,
            kids@.take(0),
            d,
            n as int,
            Phase::PostUpdate,
        ));
    }
    let mut k: usize = 0;
    while k < kids.len()
        invariant
            n == systems@.len(),
            world.wf(),
            same_shape(w0, *world),
            forall|j: int| #[trigger] w0.live(j) ==> world.st(j).disabled == w0.st(j).disabled,
            ctx.render.seq_wf(),
            ctx.dt == old(ctx).dt,
            w0 == *old(world),
            e == entity.0 as int,
            w0.wf(),
            w0.live(e),
            0 < d <= w0.entities@.len(),
            kids@ == w0.st(e).children@,
            d == w0.st(e).depth + 1,
            forall|j: int|
                0 <= j < kids@.len() ==> w0.live((#[trigger] kids@[j]).0 as int) && w0.st(
                    kids@[j].0 as int,
                ).depth == d,
            k <= kids@.len(),
            ctx.call_log@ == old(ctx).call_log@ + head + pass_calls_children(
                w0,
                kids@.take(k as int),
                d,
                n as int,
                Phase::PostUpdate,
            ),
        decreases kids@.len() - k,
    {
        let child = kids[k];
        let ghost pre = *world;
        proof {
            assert(kids@[k as int] == child);
            assert(w0.live(child.0 as int));
            assert(w0.st(child.0 as int).depth == d);
            assert(world.live(child.0 as int));
            assert(world.st(child.0 as int).depth == w0.st(child.0 as int).depth);
            assert(world.entities@.len() == w0.entities@.len());
        }
        post_update_entity(systems, world, ctx, child);
        proof {
            crate::ecs::lemma_same_shape_trans(w0, pre, *world);
            assert forall|j: int| #[trigger] w0.live(j) implies world.st(j).disabled == w0.st(
                j,
            ).disabled by {
                assert(pre.live(j));
            }
            assert forall|j: int| #[trigger] pre.live(j) implies pre.st(j).disabled == w0.st(
                j,
            ).disabled by {
                assert(w0.live(j));
            }
            lemma_pass_calls_stable(w0, pre, child.0 as int, n as int, Phase::PostUpdate);
            assert forall|j: int| 0 <= j < kids@.take(k as int).len() implies w0.live(
                (#[trigger] kids@.take(k as int)[j]).0 as int,
            ) && w0.st(kids@.take(k as int)[j].0 as int).depth == d by {
                assert(kids@.take(k as int)[j] == kids@[j]);
            }
            lemma_pass_calls_snoc(w0, kids@.take(k as int), child, d, n as int, Phase::PostUpdate);
            assert(kids@.take(k as int + 1) =~= kids@.take(k as int).push(child));
            assert(ctx.call_log@ =~= old(ctx).call_log@ + head + pass_calls_children(
                w0,
                kids@.take(k as int + 1),
                d,
                n as int,
                Phase::PostUpdate,
            ));
        }
        k = k + 1;
    }
    proof {
        assert(kids@.take(kids@.len() as int) =~= kids@);
        assert(ctx.call_log@ =~= old(ctx).call_log@ + pass_calls(w0, e, n as int, Phase::PostUpdate));
    }
}


/// Runs one full frame over the scene rooted at `root`: the start pass once
/// per scene (gated by `started`), then `frame_begin`, the update walk, the
/// post-update walk and `frame_end`, and hands back the frame's context —
/// its cameras, queued draw commands, deferred behaviour calls and the ghost
/// log of every hook the passes made, in order.
pub fn run_frame<S: System>(
    systems: &mut Vec<S>,
    world: &mut World,
    root: Entity,
    scene_id: &String,
    started: &mut StartedScenes,
    dt: u64,
) -> (ctx: FrameContext)
    requires
        old(world).wf(),
    ensures
        final(world).wf(),
        same_shape(*old(world), *final(world)),
        forall|j: int|
            #[trigger] old(world).live(j) ==> final(world).st(j).disabled == old(world).st(
                j,
            ).disabled,
        final(systems)@.len() == old(systems)@.len(),
        ctx.render.seq_wf(),
        ctx.dt == dt,
        final(started).spec_contains(scene_id@),
        old(started).spec_contains(scene_id@) ==> final(started).ids@ == old(started).ids@,
        !old(started).spec_contains(scene_id@) ==> final(started).ids@.len() == old(
            started,
        ).ids@.len() + 1 && final(started).ids@.subrange(0, old(started).ids@.len() as int) == old(
            started,
        ).ids@ && final(started).ids@.last()@ == scene_id@,
        ({
            let n = old(systems)@.len() as int;
            let start_part = if !old(started).spec_contains(scene_id@) && old(world).live(
                root.0 as int,
            ) {
                pass_calls(*old(world), root.0 as int, n, Phase::Start)
            } else {
                Seq::<HookCall>::empty()
            };
            let walk_part = if old(world).live(root.0 as int) {
                pass_calls(*old(world), root.0 as int, n, Phase::Update) + pass_calls(
                    *old(world),
                    root.0 as int,
                    n,
                    Phase::PostUpdate,
                )
            } else {
                Seq::<HookCall>::empty()
            };
            ctx.call_log@ == start_part + frame_begin_hooks(n) + walk_part + frame_end_hooks(n)
        }),
{
    let ghost w0 = *old(world);
    let n = systems.len();
    let mut ctx = FrameContext::new(dt);
    if !started.contains(scene_id) {
        start_entity(systems, world, &mut ctx, root);
        started.mark(scene_id.clone());
    }
    let ghost w1 = *world;
    let ghost log1 = ctx.call_log@;
    frame_begin(systems, world, &mut ctx);
    let ghost w2 = *world;
    proof {
        crate::ecs::lemma_same_shape_trans(w0, w1, w2);
        assert forall|j: int| #[trigger] w0.live(j) implies w2.st(j).disabled == w0.st(
            j,
        ).disabled by {
            assert(w1.live(j));
        }
        if w0.live(root.0 as int) {
            lemma_pass_calls_stable(w0, w2, root.0 as int, n as int, Phase::Update);
        }
    }
    update_entity(systems, world, &mut ctx, root);
    let ghost w3 = *world;
    proof {
        crate::ecs::lemma_same_shape_trans(w0, w2, w3);
        assert forall|j: int| #[trigger] w0.live(j) implies w3.st(j).disabled == w0.st(
            j,
        ).disabled by {
            assert(w1.live(j) && w2.live(j));
        }
        if w0.live(root.0 as int) {
            lemma_pass_calls_stable(w0, w3, root.0 as int, n as int, Phase::PostUpdate);
        }
    }
    post_update_entity(systems, world, &mut ctx, root);
    let ghost w4 = *world;
    proof {
        crate::ecs::lemma_same_shape_trans(w0, w3, w4);
        assert forall|j: int| #[trigger] w0.live(j) implies w4.st(j).disabled == w0.st(
            j,
        ).disabled by {
            assert(w3.live(j));
        }
    }
    frame_end(systems, world, &mut ctx);
    proof {
        crate::ecs::lemma_same_shape_trans(w0, w4, *world);
        assert forall|j: int| #[trigger] w0.live(j) implies world.st(j).disabled == w0.st(
            j,
        ).disabled by {
            assert(w4.live(j));
        }
        let ni = n as int;
        let start_part = if !old(started).spec_contains(scene_id@) && w0.live(root.0 as int) {
            pass_calls(w0, root.0 as int, ni, Phase::Start)
        } else {
            Seq::<HookCall>::empty()
        };
        let walk_part = if w0.live(root.0 as int) {
            pass_calls(w0, root.0 as int, ni, Phase::Update) + pass_calls(
                w0,
                root.0 as int,
                ni,
                Phase::PostUpdate,
            )
        } else {
            Seq::<HookCall>::empty()
        };
        assert(log1 =~= start_part);
        assert(ctx.call_log@ =~= start_part + frame_begin_hooks(ni) + walk_part
            + frame_end_hooks(ni));
    }
    ctx
}

} // verus!
