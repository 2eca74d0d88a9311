//! The entity/component world.
//!
//! Entities are indices into an arena owned by [`World`]; handles are
//! copyable and never dangle into freed memory, they merely stop resolving
//! once the entity is destroyed. Slots are never reused, so an index is
//! globally unique for the life of the world.
//!
//! The parent/child relation is kept a forest: a child is attached only while
//! it is a detached leaf, each storage records its depth, and
//! [`World::wf`] ties every link to a depth step of one, which rules out
//! cycles and gives every walk of the tree a termination measure.

use vstd::prelude::*;

use crate::components::{Animator, BehaviourDelegate, Camera, Collider, Component, Sprite};
use crate::error::Error;
use crate::math::Transform;

verus! {

/// A non-owning handle to an entity: its index in the world's arena.
#[derive(Clone, Copy, Debug, PartialEq, Eq, Structural, Hash)]
pub struct Entity(pub usize);

/// The payload of a collision report: who was hit and under which group
/// name the collider matched.
pub struct Collision {
    pub other: Entity,
    pub group: String,
}

impl Clone for Collision {
    fn clone(&self) -> (r: Self)
        ensures
            r == *self,
    {
        Collision { other: self.other, group: self.group.clone() }
    }
}

/// The closed set of events entities exchange.
pub enum Event {
    Collision(Collision),
    AnimationFinished,
}

impl Clone for Event {
    fn clone(&self) -> (r: Self)
        ensures
            r == *self,
    {
        match self {
            Event::Collision(c) => Event::Collision(c.clone()),
            Event::AnimationFinished => Event::AnimationFinished,
        }
    }
}

/// An event waiting in the world for its delay to elapse; `time` is the
/// remaining delay in milliseconds.
pub struct SentEvent {
    pub sender: Entity,
    pub receiver: Entity,
    pub event: Event,
    pub time: u64,
}

/// Everything the world stores for one entity: identity, tree links, the
/// component slots and the events delivered to it this frame.
pub struct EntityStorage {
    pub entity: Entity,
    pub id: String,
    pub disabled: bool,
    pub parent: Option<Entity>,
    pub children: Vec<Entity>,
    pub depth: usize,
    pub transform: Option<Transform>,
    pub sprite: Option<Sprite>,
    pub animator: Option<Animator>,
    pub camera: Option<Camera>,
    pub collider: Option<Collider>,
    pub behaviour: Option<BehaviourDelegate>,
    pub inbox: Vec<(Entity, Event)>,
}

impl EntityStorage {
    pub fn new(entity: Entity, id: String) -> (st: EntityStorage)
        ensures
            st.entity == entity,
            st.id == id,
            !st.disabled,
            st.parent is None,
            st.children@.len() == 0,
            st.depth == 0,
            st.transform is None,
            st.sprite is None,
            st.animator is None,
            st.camera is None,
            st.collider is None,
            st.behaviour is None,
            st.inbox@.len() == 0,
    {
        EntityStorage {
            entity,
            id,
            disabled: false,
            parent: None,
            children: Vec::new(),
            depth: 0,
            transform: None,
            sprite: None,
            animator: None,
            camera: None,
            collider: None,
            behaviour: None,
            inbox: Vec::new(),
        }
    }
}

/// Owns every entity and the queue of delayed events.
pub struct World {
    pub entities: Vec<Option<EntityStorage>>,
    pub events: Vec<SentEvent>,
}

impl World {
    /// Whether index `e` names a live entity.
    pub open spec fn live(self, e: int) -> bool {
        0 <= e < self.entities@.len() && self.entities@[e] is Some
    }

    /// The storage of a live entity.
    pub open spec fn st(self, e: int) -> EntityStorage {
        self.entities@[e]->Some_0
    }

    /// The local consistency of one entity's links: it knows its own index,
    /// its depth steps down by exactly one from its parent, the parent lists
    /// it as a child, every child is live and points back, and children are
    /// distinct and uniquely named.
    pub open spec fn wf_at(self, e: int) -> bool {
        let st = self.st(e);
        &&& st.entity.0 == e
        &&& st.depth < self.entities@.len()
        &&& match st.parent {
            Some(p) => self.live(p.0 as int) && self.st(p.0 as int).children@.contains(st.entity)
                && st.depth == self.st(p.0 as int).depth + 1,
            None => st.depth == 0,
        }
        &&& forall|k: int|
            0 <= k < st.children@.len() ==> {
                let c = (#[trigger] st.children@[k]).0 as int;
                self.live(c) && self.st(c).parent == Some(st.entity)
            }
        &&& st.children@.no_duplicates()
        &&& forall|k: int, l: int|
            0 <= k < l < st.children@.len() ==> self.st(
                #[trigger] st.children@[k].0 as int,
            ).id@ != self.st(#[trigger] st.children@[l].0 as int).id@
    }

    /// The world invariant: every live entity is locally consistent.
    pub open spec fn wf(self) -> bool {
        forall|e: int| #[trigger] self.live(e) ==> self.wf_at(e)
    }

    pub fn new() -> (w: World)
        ensures
            w.entities@.len() == 0,
            w.events@.len() == 0,
            w.wf(),
    {
        World { entities: Vec::new(), events: Vec::new() }
    }

    /// Resolves a handle; a destroyed or never-issued handle yields nothing.
    pub fn storage(&self, e: Entity) -> (r: Option<&EntityStorage>)
        ensures
            self.live(e.0 as int) ==> (r matches Some(st) && *st == self.st(e.0 as int)),
            !self.live(e.0 as int) ==> r is None,
    {
        if e.0 < self.entities.len() {
            match &self.entities[e.0] {
                Some(st) => Some(st),
                None => None,
            }
        } else {
            None
        }
    }

    /// Queues a delayed event.
    pub fn send_event(&mut self, event: SentEvent)
        ensures
            final(self).entities@ == old(self).entities@,
            final(self).events@ == old(self).events@.push(event),
    {
        self.events.push(event);
    }
}

/// Two worlds with the same arena shape: the same slots are live and every
/// live entity keeps its identity, links, depth and name. Component slots,
/// inboxes and the disabled flag are free to differ.
pub open spec fn same_shape(w1: World, w2: World) -> bool {
    &&& w1.entities@.len() == w2.entities@.len()
    &&& forall|e: int| w1.live(e) <==> #[trigger] w2.live(e)
    &&& forall|e: int|
        #[trigger] w1.live(e) ==> {
            let a = w1.st(e);
            let b = w2.st(e);
            &&& a.entity == b.entity
            &&& a.id@ == b.id@
            &&& a.parent == b.parent
            &&& a.children@ == b.children@
            &&& a.depth == b.depth
        }
}

/// Shape agreement is transitive.
pub proof fn lemma_same_shape_trans(w1: World, w2: World, w3: World)
    requires
        same_shape(w1, w2),
        same_shape(w2, w3),
    ensures
        same_shape(w1, w3),
{
    assert forall|e: int| #[trigger] w1.live(e) implies {
        let a = w1.st(e);
        let b = w3.st(e);
        &&& a.entity == b.entity
        &&& a.id@ == b.id@
        &&& a.parent == b.parent
        &&& a.children@ == b.children@
        &&& a.depth == b.depth
    } by {
        assert(w2.live(e));
    }
}

/// Well-formedness only reads the shape, so it carries over to any world of
/// the same shape.
pub proof fn lemma_wf_same_shape(w1: World, w2: World)
    requires
        w1.wf(),
        same_shape(w1, w2),
    ensures
        w2.wf(),
{
    assert forall|e: int| #[trigger] w2.live(e) implies w2.wf_at(e) by {
        assert(w1.live(e));
        assert(w1.wf_at(e));
        let a = w1.st(e);
        let b = w2.st(e);
        assert(a.children@ == b.children@);
        assert forall|k: int| 0 <= k < b.children@.len() implies {
            let c = (#[trigger] b.children@[k]).0 as int;
            w2.live(c) && w2.st(c).parent == Some(b.entity)
        } by {
            assert(a.children@[k] == b.children@[k]);
            let c = a.children@[k].0 as int;
            assert(w1.live(c) && w1.st(c).parent == Some(a.entity));
        }
        assert forall|k: int, l: int| 0 <= k < l < b.children@.len() implies w2.st(
            #[trigger] b.children@[k].0 as int,
        ).id@ != w2.st(#[trigger] b.children@[l].0 as int).id@ by {
            let ck = a.children@[k].0 as int;
            let cl = a.children@[l].0 as int;
            assert(w1.live(ck) && w1.live(cl));
            assert(w1.st(ck).id@ != w1.st(cl).id@);
        }
    }
}

impl Entity {
    /// Creates a fresh entity named `id`. The handle is the next index of
    /// the arena, so it never collides with an existing or destroyed one.
    pub fn new(world: &mut World, id: String) -> (e: Entity)
        requires
            old(world).wf(),
            old(world).entities@.len() < usize::MAX,
        ensures
            final(world).wf(),
            e.0 == old(world).entities@.len(),
            final(world).entities@.len() == old(world).entities@.len() + 1,
            forall|j: int|
                0 <= j < old(world).entities@.len() ==> final(world).entities@[j] == old(world).entities@[j],
            final(world).live(e.0 as int),
            final(world).st(e.0 as int).id == id,
            final(world).st(e.0 as int).entity == e,
            final(world).st(e.0 as int).parent is None,
            final(world).st(e.0 as int).children@.len() == 0,
            final(world).st(e.0 as int).depth == 0,
            !final(world).st(e.0 as int).disabled,
            final(world).st(e.0 as int).transform is None,
            final(world).st(e.0 as int).sprite is None,
            final(world).st(e.0 as int).animator is None,
            final(world).st(e.0 as int).camera is None,
            final(world).st(e.0 as int).collider is None,
            final(world).st(e.0 as int).behaviour is None,
            final(world).st(e.0 as int).inbox@.len() == 0,
            final(world).events@ == old(world).events@,
    {
        let e = Entity(world.entities.len());
        let storage = EntityStorage::new(e, id);
        world.entities.push(Some(storage));
        proof {
            assert forall|j: int| #[trigger] final(world).live(j) implies final(world).wf_at(
                j,
            ) by {
                if j < old(world).entities@.len() {
                    assert(old(world).live(j));
                    assert(old(world).wf_at(j));
                    assert(final(world).st(j) == old(world).st(j));
                    let st = old(world).st(j);
                    assert forall|k: int| 0 <= k < st.children@.len() implies {
                        let c = (#[trigger] st.children@[k]).0 as int;
                        final(world).live(c) && final(world).st(c).parent == Some(st.entity)
                    } by {
                        let c = st.children@[k].0 as int;
                        assert(old(world).live(c));
                    }
                    assert forall|k: int, l: int| 0 <= k < l < st.children@.len() implies
                        final(world).st(#[trigger] st.children@[k].0 as int).id@
                        != final(world).st(#[trigger] st.children@[l].0 as int).id@ by {
                        let ck = st.children@[k].0 as int;
                        let cl = st.children@[l].0 as int;
                        assert(old(world).live(ck) && old(world).live(cl));
                    }
                }
            }
        }
        e
    }

    /// Every live entity, in ascending handle order.
    pub fn all(world: &World) -> (r: Vec<Entity>)
        ensures
            forall|k: int| 0 <= k < r@.len() ==> world.live(#[trigger] r@[k].0 as int),
            forall|e: int|
                #[trigger] world.live(e) ==> exists|k: int| 0 <= k < r@.len() && r@[k].0 == e,
            forall|k: int, l: int| 0 <= k < l < r@.len() ==> r@[k].0 < r@[l].0,
    {
        let mut r: Vec<Entity> = Vec::new();
        let mut i: usize = 0;
        while i < world.entities.len()
            invariant
                i <= world.entities@.len(),
                forall|k: int| 0 <= k < r@.len() ==> world.live(#[trigger] r@[k].0 as int),
                forall|k: int| 0 <= k < r@.len() ==> r@[k].0 < i,
                forall|e: int|
                    0 <= e < i && world.live(e) ==> exists|k: int|
                        0 <= k < r@.len() && r@[k].0 == e,
                forall|k: int, l: int| 0 <= k < l < r@.len() ==> r@[k].0 < r@[l].0,
            decreases world.entities@.len() - i,
        {
            if world.entities[i].is_some() {
                let ghost r0 = r@;
                r.push(Entity(i));
                proof {
                    assert forall|e: int| 0 <= e < i + 1 && world.live(e) implies exists|k: int|
                        0 <= k < r@.len() && r@[k].0 == e by {
                        if e == i {
                            assert(r@[r0.len() as int].0 == i);
                        } else {
                            let k0 = choose|k: int| 0 <= k < r0.len() && r0[k].0 == e;
                            assert(r@[k0].0 == e);
                        }
                    }
                }
            }
            i = i + 1;
        }
        r
    }

    /// The entity's name, or the empty string for a dead handle.
    pub fn id(self, world: &World) -> (r: String)
        ensures
            world.live(self.0 as int) ==> r@ == world.st(self.0 as int).id@,
            !world.live(self.0 as int) ==> r@ == Seq::<char>::empty(),
    {
        match world.storage(self) {
            Some(st) => st.id.clone(),
            None => String::new(),
        }
    }

    pub fn parent(self, world: &World) -> (r: Option<Entity>)
        ensures
            world.live(self.0 as int) ==> r == world.st(self.0 as int).parent,
            !world.live(self.0 as int) ==> r is None,
    {
        match world.storage(self) {
            Some(st) => st.parent,
            None => None,
        }
    }

    /// A copy of the children list, in attachment order.
    pub fn children(self, world: &World) -> (r: Vec<Entity>)
        ensures
            world.live(self.0 as int) ==> r@ == world.st(self.0 as int).children@,
            !world.live(self.0 as int) ==> r@.len() == 0,
    {
        match world.storage(self) {
            Some(st) => {
                let mut r: Vec<Entity> = Vec::new();
                let mut i: usize = 0;
                while i < st.children.len()
                    invariant
                        i <= st.children@.len(),
                        r@ == st.children@.subrange(0, i as int),
                    decreases st.children@.len() - i,
                {
                    r.push(st.children[i]);
                    proof {
                        assert(r@ =~= st.children@.subrange(0, i + 1 as int));
                    }
                    i = i + 1;
                }
                proof {
                    assert(r@ =~= st.children@);
                }
                r
            },
            None => Vec::new(),
        }
    }

    /// A dead handle counts as disabled.
    pub fn disabled(self, world: &World) -> (r: bool)
        ensures
            world.live(self.0 as int) ==> r == world.st(self.0 as int).disabled,
            !world.live(self.0 as int) ==> r,
    {
        match world.storage(self) {
            Some(st) => st.disabled,
            None => true,
        }
    }

    /// Marks the entity disabled, so the per-frame passes skip it.
    pub fn disable(self, world: &mut World)
        requires
            old(world).wf(),
        ensures
            final(world).wf(),
            final(world).events@ == old(world).events@,
            !old(world).live(self.0 as int) ==> final(world).entities@ == old(world).entities@,
            old(world).live(self.0 as int) ==> final(world).entities@ == old(world).entities@.update(
                self.0 as int,
                Some(EntityStorage { disabled: true, ..old(world).st(self.0 as int) }),
            ),
    {
        if self.0 < world.entities.len() {
            match &mut world.entities[self.0] {
                Some(st) => {
                    st.disabled = true;
                },
                None => {},
            }
        }
        proof {
            if old(world).live(self.0 as int) {
                assert(final(world).entities@ =~= old(world).entities@.update(
                    self.0 as int,
                    Some(EntityStorage { disabled: true, ..old(world).st(self.0 as int) }),
                ));
                assert(same_shape(*old(world), *final(world)));
                lemma_wf_same_shape(*old(world), *final(world));
            } else {
                assert(final(world).entities@ =~= old(world).entities@);
                assert(same_shape(*old(world), *final(world)));
                lemma_wf_same_shape(*old(world), *final(world));
            }
        }
    }

    /// Attaches `component` to the entity, replacing any component of the
    /// same kind; a dead handle is ignored.
    pub fn add_component(self, world: &mut World, component: Component)
        requires
            old(world).wf(),
        ensures
            final(world).wf(),
            final(world).events@ == old(world).events@,
            !old(world).live(self.0 as int) ==> final(world).entities@ == old(world).entities@,
            old(world).live(self.0 as int) ==> final(world).entities@ == old(world).entities@.update(
                self.0 as int,
                Some(
                    match component {
                        Component::Transform(t) => EntityStorage {
                            transform: Some(t),
                            ..old(world).st(self.0 as int)
                        },
                        Component::Sprite(s) => EntityStorage {
                            sprite: Some(s),
                            ..old(world).st(self.0 as int)
                        },
                        Component::Animator(a) => EntityStorage {
                            animator: Some(a),
                            ..old(world).st(self.0 as int)
                        },
                        Component::Camera(c) => EntityStorage {
                            camera: Some(c),
                            ..old(world).st(self.0 as int)
                        },
                        Component::Collider(c) => EntityStorage {
                            collider: Some(c),
                            ..old(world).st(self.0 as int)
                        },
                        Component::Behaviour(b) => EntityStorage {
                            behaviour: Some(b),
                            ..old(world).st(self.0 as int)
                        },
                    },
                ),
            ),
    {
        if self.0 < world.entities.len() {
            match &mut world.entities[self.0] {
                Some(st) => {
                    match component {
                        Component::Transform(t) => {
                            st.transform = Some(t);
                        },
                        Component::Sprite(s) => {
                            st.sprite = Some(s);
                        },
                        Component::Animator(a) => {
                            st.animator = Some(a);
                        },
                        Component::Camera(c) => {
                            st.camera = Some(c);
                        },
                        Component::Collider(c) => {
                            st.collider = Some(c);
                        },
                        Component::Behaviour(b) => {
                            st.behaviour = Some(b);
                        },
                    }
                },
                None => {},
            }
        }
        proof {
            if old(world).live(self.0 as int) {
                assert(final(world).entities@ =~= old(world).entities@.update(
                    self.0 as int,
                    final(world).entities@[self.0 as int],
                ));
                assert(same_shape(*old(world), *final(world)));
                lemma_wf_same_shape(*old(world), *final(world));
            } else {
                assert(final(world).entities@ =~= old(world).entities@);
                assert(same_shape(*old(world), *final(world)));
                lemma_wf_same_shape(*old(world), *final(world));
            }
        }
    }
}

/// The path from `e` up to its root: `e`, its parent, and so on.
pub open spec fn ancestor_chain(w: World, e: int) -> Seq<int>
    decreases w.st(e).depth,
        when w.wf() && w.live(e)
    via ancestor_chain_decreases
{
    match w.st(e).parent {
        None => seq![e],
        Some(p) => seq![e] + ancestor_chain(w, p.0 as int),
    }
}

#[via_fn]
proof fn ancestor_chain_decreases(w: World, e: int) {
    assert(w.wf_at(e));
}

/// The ancestor chain of a live entity has one entry per depth step, each
/// live, with strictly decreasing depth, and every entry but the first has
/// a child (the entry before it).
proof fn lemma_chain(w: World, e: int)
    requires
        w.wf(),
        w.live(e),
    ensures
        ancestor_chain(w, e).len() == w.st(e).depth + 1,
        ancestor_chain(w, e)[0] == e,
        forall|k: int|
            0 <= k < ancestor_chain(w, e).len() ==> w.live(#[trigger] ancestor_chain(w, e)[k])
                && w.st(ancestor_chain(w, e)[k]).depth == w.st(e).depth - k,
        forall|k: int|
            1 <= k < ancestor_chain(w, e).len() ==> w.st(
                #[trigger] ancestor_chain(w, e)[k],
            ).children@.len() > 0,
    decreases w.st(e).depth,
{
    assert(w.wf_at(e));
    match w.st(e).parent {
        None => {},
        Some(p) => {
            lemma_chain(w, p.0 as int);
            let chain = ancestor_chain(w, e);
            let rest = ancestor_chain(w, p.0 as int);
            assert(chain == seq![e] + rest);
            assert forall|k: int| 1 <= k < chain.len() implies w.live(#[trigger] chain[k])
                && w.st(chain[k]).depth == w.st(e).depth - k && w.st(chain[k]).children@.len()
                > 0 by {
                assert(chain[k] == rest[k - 1]);
                if k == 1 {
                    assert(w.st(p.0 as int).children@.contains(w.st(e).entity));
                    assert(w.st(p.0 as int).children@.len() > 0);
                }
            }
        },
    }
}

/// A live, detached leaf cannot sit on another live entity's ancestor chain,
/// so the chain plus the leaf are distinct live entities; counting them
/// bounds the parent's depth away from the arena size.
proof fn lemma_depth_bound(w: World, p: int, c: int)
    requires
        w.wf(),
        w.live(p),
        w.live(c),
        p != c,
        w.st(c).depth == 0,
        w.st(c).children@.len() == 0,
    ensures
        w.st(p).depth + 1 < w.entities@.len(),
{
    lemma_chain(w, p);
    let chain = ancestor_chain(w, p);
    assert(chain.no_duplicates()) by {
        assert forall|k: int, l: int| 0 <= k < l < chain.len() implies chain[k] != chain[l] by {
            assert(w.st(chain[k]).depth == w.st(p).depth - k);
            assert(w.st(chain[l]).depth == w.st(p).depth - l);
        }
    }
    assert(!chain.contains(c)) by {
        if chain.contains(c) {
            let k = choose|k: int| 0 <= k < chain.len() && chain[k] == c;
            if k == 0 {
                assert(c == p);
            } else {
                assert(w.st(chain[k]).children@.len() > 0);
            }
        }
    }
    let full = chain.push(c);
    assert(full.no_duplicates()) by {
        assert forall|k: int, l: int| 0 <= k < l < full.len() implies full[k] != full[l] by {
            if l < chain.len() {
                assert(full[k] == chain[k] && full[l] == chain[l]);
            } else {
                assert(full[l] == c && full[k] == chain[k]);
                assert(chain.contains(chain[k]));
            }
        }
    }
    full.unique_seq_to_set();
    let n = w.entities@.len() as int;
    assert(full.to_set().subset_of(vstd::set_lib::set_int_range(0, n))) by {
        assert forall|x: int| full.to_set().contains(x) implies vstd::set_lib::set_int_range(
            0,
            n,
        ).contains(x) by {
            assert(full.contains(x));
            let k = choose|k: int| 0 <= k < full.len() && full[k] == x;
            if k < chain.len() {
                assert(w.live(chain[k]));
            } else {
                assert(x == c);
            }
        }
    }
    vstd::set_lib::lemma_int_range(0, n);
    vstd::set_lib::lemma_len_subset(full.to_set(), vstd::set_lib::set_int_range(0, n));
}

/// Whether a child of `p` already carries the name `name`.
pub open spec fn has_child_named(w: World, p: int, name: Seq<char>) -> bool {
    exists|k: int|
        0 <= k < w.st(p).children@.len() && w.st(#[trigger] w.st(p).children@[k].0 as int).id@
            == name
}

impl Entity {
    /// Links `child` under this entity. The child must resolve, must not
    /// collide with a sibling's name, and must be a detached leaf distinct
    /// from the parent — the leaf rule is what keeps the relation a forest.
    /// A rejected call leaves the world exactly as it was.
    pub fn add_child(self, world: &mut World, child: Entity) -> (r: Result<(), Error>)
        requires
            old(world).wf(),
        ensures
            final(world).wf(),
            final(world).events@ == old(world).events@,
            ({
                let p = self.0 as int;
                let c = child.0 as int;
                if !old(world).live(p) || !old(world).live(c) {
                    r == Err::<(), Error>(Error::NoSuchEntity) && final(world).entities@ == old(world).entities@
                } else if has_child_named(*old(world), p, old(world).st(c).id@) {
                    (r matches Err(e) && e matches Error::DuplicateChild(n) && n@ == old(world).st(c).id@) && final(world).entities@ == old(world).entities@
                } else if self == child || !(old(world).st(c).parent is None) || old(world).st(
                    c,
                ).children@.len() > 0 {
                    r == Err::<(), Error>(Error::InvalidChild) && final(world).entities@ == old(world).entities@
                } else {
                    &&& r == Ok::<(), Error>(())
                    &&& final(world).entities@ == old(world).entities@.update(
                        p,
                        Some(
                            EntityStorage {
                                children: final(world).st(p).children,
                                ..old(world).st(p)
                            },
                        ),
                    ).update(
                        c,
                        Some(
                            EntityStorage {
                                parent: Some(self),
                                depth: (old(world).st(p).depth + 1) as usize,
                                ..old(world).st(c)
                            },
                        ),
                    )
                    &&& final(world).st(p).children@ == old(world).st(p).children@.push(child)
                }
            }),
    {
        let p = self.0;
        let c = child.0;
        if p >= world.entities.len() || world.entities[p].is_none() {
            return Err(Error::NoSuchEntity);
        }
        if c >= world.entities.len() || world.entities[c].is_none() {
            return Err(Error::NoSuchEntity);
        }
        let child_name = match &world.entities[c] {
            Some(st) => st.id.clone(),
            None => String::new(),
        };
        // reject a sibling name collision
        let dup = match &world.entities[p] {
            Some(st) => {
                let mut found = false;
                let mut k: usize = 0;
                while k < st.children.len()
                    invariant
                        old(world).wf(),
                        old(world).live(p as int),
                        st == old(world).st(p as int),
                        child_name@ == old(world).st(c as int).id@,
                        k <= st.children@.len(),
                        found <==> exists|j: int|
                            0 <= j < k && old(world).st(
                                #[trigger] st.children@[j].0 as int,
                            ).id@ == child_name@,
                    decreases st.children@.len() - k,
                {
                    let ck = st.children[k];
                    proof {
                        assert(old(world).wf_at(p as int));
                        assert(old(world).live(ck.0 as int));
                    }
                    match &world.entities[ck.0] {
                        Some(cst) => {
                            if cst.id == child_name {
                                found = true;
                            }
                        },
                        None => {},
                    }
                    k = k + 1;
                }
                found
            },
            None => false,
        };
        if dup {
            proof {
                assert(has_child_named(*old(world), p as int, old(world).st(c as int).id@));
            }
            return Err(Error::DuplicateChild(child_name));
        }
        // only a detached leaf can be attached without risking a cycle
        let invalid = p == c || match &world.entities[c] {
            Some(st) => st.parent.is_some() || st.children.len() > 0,
            None => true,
        };
        if invalid {
            return Err(Error::InvalidChild);
        }
        proof {
            assert(old(world).live(c as int));
            assert(old(world).live(p as int));
            assert(old(world).wf_at(c as int));
            assert(old(world).wf_at(p as int));
            lemma_depth_bound(*old(world), p as int, c as int);
        }
        proof {
            assert(old(world).entities@.len() <= usize::MAX) by {
                assert(old(world).entities@.len() == world.entities@.len());
            }
        }
        let new_depth = match &world.entities[p] {
            Some(st) => st.depth + 1,
            None => 0,
        };
        match &mut world.entities[c] {
            Some(st) => {
                st.parent = Some(self);
                st.depth = new_depth;
            },
            None => {},
        }
        let ghost mid = *world;
        match &mut world.entities[p] {
            Some(st) => {
                st.children.push(child);
            },
            None => {},
        }
        proof {
            let w0 = *old(world);
            let w2 = *final(world);
            let pi = p as int;
            let ci = c as int;
            assert(w2.entities@ =~= w0.entities@.update(
                pi,
                Some(EntityStorage { children: w2.st(pi).children, ..w0.st(pi) }),
            ).update(
                ci,
                Some(
                    EntityStorage {
                        parent: Some(self),
                        depth: (w0.st(pi).depth + 1) as usize,
                        ..w0.st(ci)
                    },
                ),
            ));
            assert(w2.st(pi).children@ =~= w0.st(pi).children@.push(child));
            lemma_add_child_wf(w0, w2, pi, ci, self, child);
        }
        Ok(())
    }
}

/// Attaching a detached leaf to a live parent under a fresh sibling name
/// preserves the world invariant.
proof fn lemma_add_child_wf(w0: World, w2: World, p: int, c: int, parent: Entity, child: Entity)
    requires
        w0.wf(),
        w0.live(p),
        w0.live(c),
        p != c,
        parent.0 == p,
        child.0 == c,
        w0.st(c).parent is None,
        w0.st(c).children@.len() == 0,
        !has_child_named(w0, p, w0.st(c).id@),
        w0.st(p).depth + 1 < w0.entities@.len(),
        w0.entities@.len() <= usize::MAX,
        w2.entities@ == w0.entities@.update(
            p,
            Some(EntityStorage { children: w2.st(p).children, ..w0.st(p) }),
        ).update(
            c,
            Some(
                EntityStorage {
                    parent: Some(parent),
                    depth: (w0.st(p).depth + 1) as usize,
                    ..w0.st(c)
                },
            ),
        ),
        w2.st(p).children@ == w0.st(p).children@.push(child),
    ensures
        w2.wf(),
{
    let w0children = w0.st(p).children@;
    // the leaf was nobody's child before
    assert forall|j: int, k: int|
        w0.live(j) && 0 <= k < w0.st(j).children@.len() implies (#[trigger] w0.st(
        j,
    ).children@[k]).0 != child.0 by {
        assert(w0.wf_at(j));
        let ck = w0.st(j).children@[k].0 as int;
        assert(w0.live(ck) && w0.st(ck).parent == Some(w0.st(j).entity));
        if ck == c {
            assert(w0.st(c).parent is None);
        }
    }
    assert(w0.st(p).entity == parent) by {
        assert(w0.wf_at(p));
    }
    assert forall|e: int| #[trigger] w2.live(e) implies w2.wf_at(e) by {
        assert(w0.live(e));
        assert(w0.wf_at(e));
        if e == c {
            // the freshly attached leaf
            assert(w2.st(c).parent == Some(parent));
            assert(w2.live(p));
            assert(w2.st(p).children@.contains(child)) by {
                assert(w2.st(p).children@[w0children.len() as int] == child);
            }
            assert(w2.st(c).entity == w0.st(c).entity);
            assert(w2.st(c).entity.0 == c);
            assert(w2.st(c).children@.len() == 0);
        } else if e == p {
            let st2 = w2.st(p);
            assert(st2.entity.0 == p);
            assert(st2.depth == w0.st(p).depth);
            // parent link of p unchanged
            match w0.st(p).parent {
                Some(q) => {
                    assert(w2.live(q.0 as int));
                    assert(q.0 as int != c) by {
                        if q.0 as int == c {
                            assert(w0.st(c).children@.contains(w0.st(p).entity));
                        }
                    }
                    assert(w2.st(q.0 as int).children@ == w0.st(q.0 as int).children@);
                    assert(w2.st(q.0 as int).children@.contains(st2.entity));
                    assert(w2.st(q.0 as int).depth == w0.st(q.0 as int).depth);
                },
                None => {},
            }
            // children: the old ones plus the leaf
            assert forall|k: int| 0 <= k < st2.children@.len() implies {
                let ck = (#[trigger] st2.children@[k]).0 as int;
                w2.live(ck) && w2.st(ck).parent == Some(st2.entity)
            } by {
                if k < w0children.len() {
                    assert(st2.children@[k] == w0children[k]);
                    let ck = w0children[k].0 as int;
                    assert(w0.live(ck) && w0.st(ck).parent == Some(w0.st(p).entity));
                    assert(ck != c);
                    assert(ck != p) by {
                        if ck == p {
                            assert(w0.st(p).parent == Some(w0.st(p).entity));
                            assert(w0.st(p).depth == w0.st(p).depth + 1);
                        }
                    }
                    assert(w2.st(ck) == w0.st(ck));
                } else {
                    assert(st2.children@[k] == child);
                    assert(w2.st(c).parent == Some(parent));
                }
            }
            assert(st2.children@.no_duplicates()) by {
                assert forall|k: int, l: int| 0 <= k < l < st2.children@.len() implies st2.children@[k]
                    != st2.children@[l] by {
                    if l < w0children.len() {
                        assert(w0children.no_duplicates());
                    } else {
                        assert(st2.children@[l] == child);
                        assert(w0.live(p) && st2.children@[k] == w0children[k]);
                    }
                }
            }
            assert forall|k: int, l: int| 0 <= k < l < st2.children@.len() implies w2.st(
                #[trigger] st2.children@[k].0 as int,
            ).id@ != w2.st(#[trigger] st2.children@[l].0 as int).id@ by {
                if l < w0children.len() {
                    let ck = w0children[k].0 as int;
                    let cl = w0children[l].0 as int;
                    assert(w0.st(ck).id@ != w0.st(cl).id@);
                    assert(ck != c && cl != c);
                    assert(w2.st(ck).id@ == w0.st(ck).id@ && w2.st(cl).id@ == w0.st(cl).id@);
                } else {
                    let ck = w0children[k].0 as int;
                    assert(ck != c);
                    assert(w2.st(ck).id@ == w0.st(ck).id@);
                    assert(w2.st(c).id@ == w0.st(c).id@);
                    assert(!(w0.st(ck).id@ == w0.st(c).id@)) by {
                        if w0.st(ck).id@ == w0.st(c).id@ {
                            assert(has_child_named(w0, p, w0.st(c).id@));
                        }
                    }
                }
            }
        } else {
            // untouched entities: none of their links reach p's children list
            // or c's parent field
            let st = w0.st(e);
            assert(w2.st(e) == st);
            match st.parent {
                Some(q) => {
                    let qi = q.0 as int;
                    assert(w2.live(qi));
                    if qi == p {
                        assert(w2.st(p).children@.contains(st.entity)) by {
                            let k = choose|k: int|
                                0 <= k < w0children.len() && w0children[k] == st.entity;
                            assert(w2.st(p).children@[k] == st.entity);
                        }
                        assert(w2.st(p).depth == w0.st(p).depth);
                    } else if qi == c {
                        assert(w0.st(c).children@.contains(st.entity));
                    } else {
                        assert(w2.st(qi) == w0.st(qi));
                    }
                },
                None => {},
            }
            assert forall|k: int| 0 <= k < st.children@.len() implies {
                let ck = (#[trigger] st.children@[k]).0 as int;
                w2.live(ck) && w2.st(ck).parent == Some(st.entity)
            } by {
                let ck = st.children@[k].0 as int;
                assert(w0.live(ck) && w0.st(ck).parent == Some(st.entity));
                assert(ck != c);
                if ck == p {
                    assert(w2.st(p).parent == w0.st(p).parent);
                } else {
                    assert(w2.st(ck) == w0.st(ck));
                }
            }
            assert forall|k: int, l: int| 0 <= k < l < st.children@.len() implies w2.st(
                #[trigger] st.children@[k].0 as int,
            ).id@ != w2.st(#[trigger] st.children@[l].0 as int).id@ by {
                let ck = st.children@[k].0 as int;
                let cl = st.children@[l].0 as int;
                assert(w0.st(ck).id@ != w0.st(cl).id@);
                assert(ck != c && cl != c);
                assert(w2.st(ck).id@ == w0.st(ck).id@ && w2.st(cl).id@ == w0.st(cl).id@);
            }
        }
    }
}


/// The subtree rooted at `e`, as a pre-order sequence of arena indices: the
/// root first, then each child's subtree in attachment order.
pub open spec fn subtree(w: World, e: int) -> Seq<int>
    decreases w.entities@.len() - w.st(e).depth, 0int,
        when w.wf() && w.live(e)
    via subtree_decreases
{
    seq![e] + subtrees(w, w.st(e).children@, w.st(e).depth + 1)
}

/// The concatenation of the subtrees of the entities in `cs`, all of which
/// sit at depth `d`.
pub open spec fn subtrees(w: World, cs: Seq<Entity>, d: int) -> Seq<int>
    decreases w.entities@.len() - d, cs.len() + 1,
        when w.wf() && 0 < d <= w.entities@.len() && (forall|k: int|
            0 <= k < cs.len() ==> w.live((#[trigger] cs[k]).0 as int) && w.st(
                cs[k].0 as int,
            ).depth == d)
    via subtrees_decreases
{
    if cs.len() == 0 {
        Seq::empty()
    } else {
        subtree(w, cs[0].0 as int) + subtrees(w, cs.drop_first(), d)
    }
}

#[via_fn]
proof fn subtree_decreases(w: World, e: int) {
    assert(w.wf_at(e));
}

#[via_fn]
proof fn subtrees_decreases(w: World, cs: Seq<Entity>, d: int) {
    if cs.len() > 0 {
        assert(w.live(cs[0].0 as int));
        assert(w.wf_at(cs[0].0 as int));
    }
}

/// Membership in a concatenation of subtrees is membership in one of them.
proof fn lemma_subtrees_membership(w: World, cs: Seq<Entity>, d: int)
    requires
        w.wf(),
        0 < d <= w.entities@.len(),
        forall|k: int|
            0 <= k < cs.len() ==> w.live((#[trigger] cs[k]).0 as int) && w.st(
                cs[k].0 as int,
            ).depth == d,
    ensures
        forall|x: int|
            #[trigger] subtrees(w, cs, d).contains(x) <==> exists|k: int|
                0 <= k < cs.len() && subtree(w, (#[trigger] cs[k]).0 as int).contains(x),
    decreases cs.len(),
{
    if cs.len() == 0 {
    } else {
        lemma_subtrees_membership(w, cs.drop_first(), d);
        let head = subtree(w, cs[0].0 as int);
        let tail = subtrees(w, cs.drop_first(), d);
        assert(subtrees(w, cs, d) == head + tail);
        assert forall|x: int| #[trigger] subtrees(w, cs, d).contains(x) implies exists|k: int|
            0 <= k < cs.len() && subtree(w, (#[trigger] cs[k]).0 as int).contains(x) by {
            let i = choose|i: int| 0 <= i < (head + tail).len() && (head + tail)[i] == x;
            if i < head.len() {
                assert(head[i] == x);
                assert(subtree(w, cs[0].0 as int).contains(x));
            } else {
                assert(tail[i - head.len()] == x);
                assert(tail.contains(x));
                let k = choose|k: int|
                    0 <= k < cs.drop_first().len() && subtree(
                        w,
                        cs.drop_first()[k].0 as int,
                    ).contains(x);
                assert(cs[k + 1] == cs.drop_first()[k]);
                assert(subtree(w, cs[k + 1].0 as int).contains(x));
            }
        }
        assert forall|x: int|
            (exists|k: int|
                0 <= k < cs.len() && subtree(w, (#[trigger] cs[k]).0 as int).contains(
                    x,
                )) implies #[trigger] subtrees(w, cs, d).contains(x) by {
            let k = choose|k: int|
                0 <= k < cs.len() && subtree(w, cs[k].0 as int).contains(x);
            if k == 0 {
                let i = choose|i: int| 0 <= i < head.len() && head[i] == x;
                assert((head + tail)[i] == x);
            } else {
                assert(cs.drop_first()[k - 1] == cs[k]);
                assert(tail.contains(x));
                let i = choose|i: int| 0 <= i < tail.len() && tail[i] == x;
                assert((head + tail)[head.len() + i] == x);
            }
        }
    }
}

/// Appending one more root to a family of subtrees appends its subtree.
proof fn lemma_subtrees_snoc(w: World, cs: Seq<Entity>, c: Entity, d: int)
    requires
        w.wf(),
        0 < d <= w.entities@.len(),
        forall|k: int|
            0 <= k < cs.len() ==> w.live((#[trigger] cs[k]).0 as int) && w.st(
                cs[k].0 as int,
            ).depth == d,
        w.live(c.0 as int),
        w.st(c.0 as int).depth == d,
    ensures
        subtrees(w, cs.push(c), d) == subtrees(w, cs, d) + subtree(w, c.0 as int),
    decreases cs.len(),
{
    assert forall|k: int| 0 <= k < cs.push(c).len() implies w.live(
        (#[trigger] cs.push(c)[k]).0 as int,
    ) && w.st(cs.push(c)[k].0 as int).depth == d by {
        if k < cs.len() {
            assert(cs.push(c)[k] == cs[k]);
        }
    }
    if cs.len() == 0 {
        assert(cs.push(c)[0] == c);
        assert(subtrees(w, cs.push(c), d) == subtree(w, c.0 as int) + subtrees(
            w,
            cs.push(c).drop_first(),
            d,
        ));
        assert(cs.push(c).drop_first() =~= Seq::<Entity>::empty());
        assert(cs =~= Seq::<Entity>::empty());
        assert(subtrees(w, Seq::<Entity>::empty(), d) == Seq::<int>::empty());
        assert(subtrees(w, cs.push(c), d) =~= subtrees(w, cs, d) + subtree(w, c.0 as int));
    } else {
        assert(cs.push(c).drop_first() =~= cs.drop_first().push(c));
        lemma_subtrees_snoc(w, cs.drop_first(), c, d);
        assert(cs.push(c)[0] == cs[0]);
        assert(subtrees(w, cs.push(c), d) == subtree(w, cs[0].0 as int) + (subtrees(
            w,
            cs.drop_first(),
            d,
        ) + subtree(w, c.0 as int)));
        assert(subtrees(w, cs.push(c), d) =~= subtrees(w, cs, d) + subtree(w, c.0 as int));
    }
}

/// What the pre-order subtree sequence of a live entity holds: the root
/// first, only live entities at or below the root's depth, and the set is
/// closed downwards over children and upwards (short of the root) over
/// parents.
proof fn lemma_subtree_props(w: World, e: int)
    requires
        w.wf(),
        w.live(e),
    ensures
        subtree(w, e).len() >= 1,
        subtree(w, e)[0] == e,
        subtree(w, e).contains(e),
        forall|x: int|
            #[trigger] subtree(w, e).contains(x) ==> w.live(x) && w.st(x).depth >= w.st(e).depth,
        forall|x: int|
            #[trigger] subtree(w, e).contains(x) && x != e ==> (w.st(x).parent matches Some(q)
                && subtree(w, e).contains(q.0 as int)),
        forall|x: int, k: int|
            #[trigger] subtree(w, e).contains(x) && 0 <= k < w.st(x).children@.len() ==> subtree(
                w,
                e,
            ).contains((#[trigger] w.st(x).children@[k]).0 as int),
    decreases w.entities@.len() - w.st(e).depth,
{
    assert(w.wf_at(e));
    let st = w.st(e);
    let cs = st.children@;
    let d = st.depth + 1;
    let sub = subtree(w, e);
    let fam = subtrees(w, cs, d);
    assert(sub == seq![e] + fam);
    assert(sub[0] == e);
    assert(sub.contains(e)) by {
        assert(sub[0] == e);
    }
    assert forall|k: int| 0 <= k < cs.len() implies w.live((#[trigger] cs[k]).0 as int) && w.st(
        cs[k].0 as int,
    ).depth == d by {}
    lemma_subtrees_membership(w, cs, d);
    assert forall|k: int| 0 <= k < cs.len() implies {
        let c = (#[trigger] cs[k]).0 as int;
        &&& subtree(w, c).len() >= 1
        &&& subtree(w, c)[0] == c
        &&& subtree(w, c).contains(c)
        &&& (forall|x: int|
            #[trigger] subtree(w, c).contains(x) ==> w.live(x) && w.st(x).depth >= d)
        &&& (forall|x: int|
            #[trigger] subtree(w, c).contains(x) && x != c ==> (w.st(x).parent matches Some(q)
                && subtree(w, c).contains(q.0 as int)))
        &&& (forall|x: int, j: int|
            #[trigger] subtree(w, c).contains(x) && 0 <= j < w.st(x).children@.len() ==> subtree(
                w,
                c,
            ).contains((#[trigger] w.st(x).children@[j]).0 as int))
    } by {
        lemma_subtree_props(w, cs[k].0 as int);
    }
    // membership in the whole is the root or membership in a child's subtree
    assert forall|x: int| #[trigger] sub.contains(x) && x != e implies fam.contains(x) by {
        let i = choose|i: int| 0 <= i < sub.len() && sub[i] == x;
        assert(fam[i - 1] == x);
    }
    assert forall|x: int| #[trigger] fam.contains(x) implies sub.contains(x) by {
        let i = choose|i: int| 0 <= i < fam.len() && fam[i] == x;
        assert(sub[i + 1] == x);
    }
    // live and depth
    assert forall|x: int| #[trigger] sub.contains(x) implies w.live(x) && w.st(x).depth >= w.st(
        e,
    ).depth by {
        if x != e {
            let k = choose|k: int|
                0 <= k < cs.len() && subtree(w, (#[trigger] cs[k]).0 as int).contains(x);
            assert(w.st(x).depth >= d);
        }
    }
    // parents stay inside, short of the root
    assert forall|x: int| #[trigger] sub.contains(x) && x != e implies (w.st(
        x,
    ).parent matches Some(q) && sub.contains(q.0 as int)) by {
        let k = choose|k: int|
            0 <= k < cs.len() && subtree(w, (#[trigger] cs[k]).0 as int).contains(x);
        let c = cs[k].0 as int;
        if x == c {
            assert(w.st(c).parent == Some(st.entity));
            assert(st.entity.0 == e);
        } else {
            let q = w.st(x).parent->Some_0;
            assert(subtree(w, c).contains(q.0 as int));
            assert(fam.contains(q.0 as int));
        }
    }
    // children stay inside
    assert forall|x: int, j: int|
        #[trigger] sub.contains(x) && 0 <= j < w.st(x).children@.len() implies sub.contains(
        (#[trigger] w.st(x).children@[j]).0 as int,
    ) by {
        if x == e {
            let cj = cs[j].0 as int;
            assert(subtree(w, cj).contains(cj));
            assert(fam.contains(cj));
        } else {
            let k = choose|k: int|
                0 <= k < cs.len() && subtree(w, (#[trigger] cs[k]).0 as int).contains(x);
            let c = cs[k].0 as int;
            assert(subtree(w, c).contains(w.st(x).children@[j].0 as int));
            assert(fam.contains(w.st(x).children@[j].0 as int));
        }
    }
}

/// Collects the subtree rooted at `e` into `out`, in pre-order.
fn collect_subtree(world: &World, e: Entity, out: &mut Vec<Entity>)
    requires
        world.wf(),
        world.live(e.0 as int),
    ensures
        final(out)@.len() == old(out)@.len() + subtree(*world, e.0 as int).len(),
        forall|j: int| 0 <= j < old(out)@.len() ==> final(out)@[j] == old(out)@[j],
        forall|j: int|
            0 <= j < subtree(*world, e.0 as int).len() ==> (#[trigger] final(out)@[old(
                out,
            )@.len() + j]).0 == subtree(*world, e.0 as int)[j],
    decreases world.entities@.len() - world.st(e.0 as int).depth,
{
    proof {
        assert(world.wf_at(e.0 as int));
    }
    let ghost base = old(out)@.len() as int;
    let ghost sub = subtree(*world, e.0 as int);
    let ghost d = world.st(e.0 as int).depth + 1;
    out.push(e);
    let st = world.storage(e).unwrap();
    let ghost cs = st.children@;
    proof {
        assert(sub == seq![e.0 as int] + subtrees(*world, cs, d));
    }
    let mut k: usize = 0;
    while k < st.children.len()
        invariant
            world.wf(),
            world.live(e.0 as int),
            *st == world.st(e.0 as int),
            cs == st.children@,
            d == world.st(e.0 as int).depth + 1,
            0 < d <= world.entities@.len(),
            base == old(out)@.len(),
            k <= cs.len(),
            out@.len() == base + 1 + subtrees(*world, cs.take(k as int), d).len(),
            forall|j: int| 0 <= j < base ==> out@[j] == old(out)@[j],
            out@[base].0 == e.0,
            forall|j: int|
                0 <= j < subtrees(*world, cs.take(k as int), d).len() ==> (#[trigger] out@[base + 1
                    + j]).0 == subtrees(*world, cs.take(k as int), d)[j],
        decreases cs.len() - k,
    {
        proof {
            assert(world.wf_at(e.0 as int));
            assert(world.live(cs[k as int].0 as int));
            assert(world.st(cs[k as int].0 as int).depth == d);
        }
        let child = st.children[k];
        let ghost mid_len = out@.len() as int;
        let ghost pre_out = out@;
        collect_subtree(world, child, out);
        proof {
            assert forall|j: int| 0 <= j < cs.take(k as int).len() implies world.live(
                (#[trigger] cs.take(k as int)[j]).0 as int,
            ) && world.st(cs.take(k as int)[j].0 as int).depth == d by {
                assert(cs.take(k as int)[j] == cs[j]);
                assert(world.wf_at(e.0 as int));
            }
            lemma_subtrees_snoc(*world, cs.take(k as int), child, d);
            assert(cs.take(k as int + 1) =~= cs.take(k as int).push(child));
            let pre = subtrees(*world, cs.take(k as int), d);
            let post = subtrees(*world, cs.take(k as int + 1), d);
            let chsub = subtree(*world, child.0 as int);
            assert(post == pre + chsub);
            assert forall|j: int| 0 <= j < post.len() implies (#[trigger] out@[base + 1 + j]).0
                == post[j] by {
                if j < pre.len() {
                    assert(out@[base + 1 + j] == pre_out[base + 1 + j]);
                    assert(pre_out[base + 1 + j].0 == pre[j]);
                } else {
                    assert((out@[mid_len + (j - pre.len())]).0 == chsub[j - pre.len()]);
                    assert(post[j] == chsub[j - pre.len()]);
                }
            }
            assert forall|j: int| 0 <= j < base implies out@[j] == old(out)@[j] by {
                assert(out@[j] == pre_out[j]);
            }
            assert(out@[base].0 == e.0) by {
                assert(out@[base] == pre_out[base]);
            }
        }
        k = k + 1;
    }
    proof {
        assert(cs.take(cs.len() as int) =~= cs);
        let fam = subtrees(*world, cs, d);
        assert(sub == seq![e.0 as int] + fam);
        assert forall|j: int| 0 <= j < sub.len() implies (#[trigger] out@[base + j]).0
            == sub[j] by {
            if j == 0 {
                assert(out@[base].0 == e.0);
                assert(sub[0] == e.0 as int);
            } else {
                assert(sub[j] == fam[j - 1]);
                assert(out@[base + 1 + (j - 1)].0 == fam[j - 1]);
            }
        }
    }
}


/// Removing a complete subtree, and unlinking its root from its parent,
/// preserves the world invariant: no surviving entity's links reach into the
/// removed set.
proof fn lemma_destroy_wf(w0: World, w2: World, e: int)
    requires
        w0.wf(),
        w0.live(e),
        w2.entities@.len() == w0.entities@.len(),
        forall|j: int|
            0 <= j < w2.entities@.len() ==> (w2.live(j) <==> (w0.live(j) && !subtree(
                w0,
                e,
            ).contains(j))),
        match w0.st(e).parent {
            Some(q) => {
                &&& (forall|j: int|
                    #[trigger] w2.live(j) && j != q.0 as int ==> w2.entities@[j]
                        == w0.entities@[j])
                &&& (w2.live(q.0 as int) ==> w2.st(q.0 as int) == (EntityStorage {
                    children: w2.st(q.0 as int).children,
                    ..w0.st(q.0 as int)
                }) && w2.st(q.0 as int).children@ == w0.st(q.0 as int).children@.remove_value(
                    w0.st(e).entity,
                ))
            },
            None => forall|j: int|
                #[trigger] w2.live(j) ==> w2.entities@[j] == w0.entities@[j],
        },
    ensures
        w2.wf(),
{
    lemma_subtree_props(w0, e);
    let sub = subtree(w0, e);
    assert(w0.wf_at(e));
    let entity_e = w0.st(e).entity;
    // whichever parent the root has, it survives, and we name the removal
    // index in its children list
    let ghost qi: int = match w0.st(e).parent {
        Some(q) => q.0 as int,
        None => -1,
    };
    if w0.st(e).parent is Some {
        assert(w0.live(qi));
        assert(w0.st(e).depth == w0.st(qi).depth + 1);
        assert(!sub.contains(qi)) by {
            if sub.contains(qi) {
                assert(w0.st(qi).depth >= w0.st(e).depth);
            }
        }
        assert(w2.live(qi));
        let w0ch = w0.st(qi).children@;
        let w2ch = w2.st(qi).children@;
        w0ch.index_of_first_ensures(entity_e);
        assert(w0ch.contains(entity_e));
        let fi = w0ch.index_of_first(entity_e)->Some_0;
        assert(w2ch == w0ch.remove(fi));
        w0ch.remove_ensures(fi);
    }
    assert forall|j: int| #[trigger] w2.live(j) implies w2.wf_at(j) by {
        assert(w0.live(j) && !sub.contains(j));
        assert(w0.wf_at(j));
        let st0 = w0.st(j);
        let st2 = w2.st(j);
        // storages agree on everything but possibly the parent's children
        assert(st2.entity == st0.entity && st2.id == st0.id && st2.parent == st0.parent
            && st2.depth == st0.depth);
        assert(j != qi ==> st2.children == st0.children);
        assert(j != e) by {
            assert(sub.contains(e));
        }
        // the parent link survives
        match st0.parent {
            Some(q2) => {
                let q2i = q2.0 as int;
                assert(w0.live(q2i));
                assert(!sub.contains(q2i)) by {
                    if sub.contains(q2i) {
                        assert(w0.st(q2i).children@.contains(st0.entity)) by {
                            assert(w0.wf_at(j));
                        }
                        let k = choose|k: int|
                            0 <= k < w0.st(q2i).children@.len() && w0.st(q2i).children@[k]
                                == st0.entity;
                        assert(sub.contains((w0.st(q2i).children@[k]).0 as int));
                        assert(st0.entity.0 == j);
                    }
                }
                assert(w2.live(q2i));
                assert(w2.st(q2i).depth == w0.st(q2i).depth);
                assert(w2.st(q2i).children@.contains(st2.entity)) by {
                    if q2i == qi {
                        let w0ch = w0.st(qi).children@;
                        let w2ch = w2.st(qi).children@;
                        let fi = w0ch.index_of_first(entity_e)->Some_0;
                        let m = choose|m: int| 0 <= m < w0ch.len() && w0ch[m] == st0.entity;
                        assert(st0.entity != entity_e) by {
                            assert(entity_e.0 == e && st0.entity.0 == j);
                        }
                        assert(m != fi);
                        if m < fi {
                            assert(w2ch[m] == st0.entity);
                        } else {
                            assert(w2ch[m - 1] == w0ch[m]);
                        }
                    } else {
                        assert(w2.st(q2i).children@ == w0.st(q2i).children@);
                    }
                }
            },
            None => {},
        }
        // every child link survives
        assert forall|k: int| 0 <= k < st2.children@.len() implies {
            let c = (#[trigger] st2.children@[k]).0 as int;
            w2.live(c) && w2.st(c).parent == Some(st2.entity)
        } by {
            // each current child was a child before
            assert(st0.children@.contains(st2.children@[k])) by {
                if j == qi {
                    let w0ch = w0.st(qi).children@;
                    let fi = w0ch.index_of_first(entity_e)->Some_0;
                    if k < fi {
                        assert(st2.children@[k] == w0ch[k]);
                    } else {
                        assert(st2.children@[k] == w0ch[k + 1]);
                    }
                }
            }
            let c = st2.children@[k];
            let m = choose|m: int| 0 <= m < st0.children@.len() && st0.children@[m] == c;
            assert(w0.live(c.0 as int) && w0.st(c.0 as int).parent == Some(st0.entity));
            // the child is not inside the removed subtree
            assert(!sub.contains(c.0 as int)) by {
                if sub.contains(c.0 as int) {
                    if c.0 as int == e {
                        // then c is the destroyed root, which the parent no
                        // longer lists
                        assert(c == w0.st(e).entity) by {
                            assert(w0.wf_at(e));
                        }
                        assert(j == qi) by {
                            assert(w0.st(e).parent == Some(st0.entity));
                            assert(w0.st(e).parent matches Some(qq) && qq.0 as int == qi);
                            assert(st0.entity.0 == j);
                        }
                        // but remove_value removed the only occurrence
                        let w0ch = w0.st(qi).children@;
                        let w2ch = w2.st(qi).children@;
                        let fi = w0ch.index_of_first(entity_e)->Some_0;
                        assert(w0ch.no_duplicates()) by {
                            assert(w0.wf_at(qi));
                        }
                        if k < fi {
                            assert(w2ch[k] == w0ch[k]);
                            assert(w0ch[k] != w0ch[fi]);
                        } else {
                            assert(w2ch[k] == w0ch[k + 1]);
                            assert(w0ch[k + 1] != w0ch[fi]);
                        }
                        assert(false);
                    } else {
                        // a strictly deeper member's parent sits in the
                        // subtree too, yet it is j, which survives
                        assert(w0.st(c.0 as int).parent matches Some(qq) && sub.contains(
                            qq.0 as int,
                        ));
                        assert(st0.entity.0 == j);
                        assert(false);
                    }
                }
            }
            assert(w2.live(c.0 as int));
            assert(w2.st(c.0 as int).parent == w0.st(c.0 as int).parent) by {
                if c.0 as int == qi {
                    assert(w2.st(qi) == (EntityStorage {
                        children: w2.st(qi).children,
                        ..w0.st(qi)
                    }));
                } else {
                    assert(w2.entities@[c.0 as int] == w0.entities@[c.0 as int]);
                }
            }
        }
        // the children list keeps its distinctness and unique names
        if j == qi {
            let w0ch = w0.st(qi).children@;
            let w2ch = w2.st(qi).children@;
            let fi = w0ch.index_of_first(entity_e)->Some_0;
            let oldix = |k: int| if k < fi { k } else { k + 1 };
            assert forall|k: int| 0 <= k < w2ch.len() implies w2ch[k] == w0ch[oldix(k)] by {}
            assert(st2.children@.no_duplicates()) by {
                assert forall|k: int, l: int| 0 <= k < l < w2ch.len() implies w2ch[k]
                    != w2ch[l] by {
                    assert(w0ch.no_duplicates());
                    assert(w2ch[k] == w0ch[oldix(k)] && w2ch[l] == w0ch[oldix(l)]);
                    assert(oldix(k) < oldix(l));
                }
            }
            assert forall|k: int, l: int| 0 <= k < l < w2ch.len() implies w2.st(
                (#[trigger] w2ch[k]).0 as int,
            ).id@ != w2.st((#[trigger] w2ch[l]).0 as int).id@ by {
                let ck = w2ch[k].0 as int;
                let cl = w2ch[l].0 as int;
                assert(w2ch[k] == w0ch[oldix(k)] && w2ch[l] == w0ch[oldix(l)]);
                assert(oldix(k) < oldix(l));
                assert(w0.st(ck).id@ != w0.st(cl).id@);
                assert(w2.st(ck).id@ == w0.st(ck).id@) by {
                    if ck == qi {
                    } else {
                        assert(st0.children@.contains(w2ch[k]));
                        assert(w2.live(ck));
                    }
                }
                assert(w2.st(cl).id@ == w0.st(cl).id@) by {
                    if cl == qi {
                    } else {
                        assert(st0.children@.contains(w2ch[l]));
                        assert(w2.live(cl));
                    }
                }
            }
        } else {
            assert(st2.children@ == st0.children@);
            assert forall|k: int, l: int| 0 <= k < l < st2.children@.len() implies w2.st(
                (#[trigger] st2.children@[k]).0 as int,
            ).id@ != w2.st((#[trigger] st2.children@[l]).0 as int).id@ by {
                let ck = st2.children@[k].0 as int;
                let cl = st2.children@[l].0 as int;
                assert(w0.st(ck).id@ != w0.st(cl).id@);
                assert(w2.live(ck) && w2.live(cl));
                assert(w2.st(ck).id@ == w0.st(ck).id@) by {
                    if ck != qi {
                        assert(w2.entities@[ck] == w0.entities@[ck]);
                    }
                }
                assert(w2.st(cl).id@ == w0.st(cl).id@) by {
                    if cl != qi {
                        assert(w2.entities@[cl] == w0.entities@[cl]);
                    }
                }
            }
        }
    }
}

impl Entity {
    /// Destroys the entity and every transitive descendant: the whole
    /// subtree leaves the registry and the parent's children list no longer
    /// names the destroyed root. A dead handle is ignored.
    pub fn destroy(self, world: &mut World)
        requires
            old(world).wf(),
        ensures
            final(world).wf(),
            final(world).events@ == old(world).events@,
            !old(world).live(self.0 as int) ==> *final(world) == *old(world),
            old(world).live(self.0 as int) ==> ({
                let sub = subtree(*old(world), self.0 as int);
                &&& final(world).entities@.len() == old(world).entities@.len()
                &&& forall|j: int|
                    0 <= j < old(world).entities@.len() ==> (final(world).live(j) <==> (old(world).live(j) && !sub.contains(j)))
                &&& match old(world).st(self.0 as int).parent {
                    Some(q) => {
                        &&& final(world).live(q.0 as int)
                        &&& final(world).st(q.0 as int) == (EntityStorage {
                            children: final(world).st(q.0 as int).children,
                            ..old(world).st(q.0 as int)
                        })
                        &&& final(world).st(q.0 as int).children@ == old(world).st(
                            q.0 as int,
                        ).children@.remove_value(old(world).st(self.0 as int).entity)
                        &&& forall|j: int|
                            #[trigger] final(world).live(j) && j != q.0 as int ==> final(world).entities@[j] == old(world).entities@[j]
                    },
                    None => forall|j: int|
                        #[trigger] final(world).live(j) ==> final(world).entities@[j] == old(world).entities@[j],
                }
            }),
    {
        let ei = self.0;
        if ei >= world.entities.len() || world.entities[ei].is_none() {
            return ;
        }
        proof {
            assert(old(world).live(ei as int));
            assert(old(world).wf_at(ei as int));
            lemma_subtree_props(*old(world), ei as int);
        }
        let ghost sub = subtree(*old(world), ei as int);
        let mut list: Vec<Entity> = Vec::new();
        collect_subtree(world, self, &mut list);
        proof {
            assert(list@.len() == sub.len());
            assert forall|j: int| 0 <= j < list@.len() implies (#[trigger] list@[j]).0
                == sub[j] by {
                assert(list@[0 + j].0 == sub[j]);
            }
        }
        let parent = match &world.entities[ei] {
            Some(st) => st.parent,
            None => None,
        };
        match parent {
            Some(q) => {
                proof {
                    assert(old(world).live(q.0 as int));
                    assert(old(world).wf_at(q.0 as int));
                    assert(old(world).st(q.0 as int).children@.contains(
                        old(world).st(ei as int).entity,
                    ));
                }
                match &mut world.entities[q.0] {
                    Some(qst) => {
                        let ghost qch = qst.children@;
                        let ghost target = old(world).st(ei as int).entity;
                        proof {
                            assert(target == Entity(ei));
                        }
                        let mut idx: usize = 0;
                        while idx < qst.children.len() && qst.children[idx].0 != ei
                            invariant
                                qst.children@ == qch,
                                idx <= qch.len(),
                                forall|m: int| 0 <= m < idx ==> (#[trigger] qch[m]).0 != ei,
                                qch.contains(Entity(ei)),
                            decreases qch.len() - idx,
                        {
                            idx = idx + 1;
                        }
                        proof {
                            assert(idx < qch.len() && qch[idx as int].0 == ei) by {
                                if idx == qch.len() {
                                    let m = choose|m: int|
                                        0 <= m < qch.len() && qch[m] == Entity(ei);
                                    assert(qch[m].0 == ei);
                                }
                            }
                            assert(qch[idx as int] == Entity(ei));
                            qch.index_of_first_ensures(target);
                            let fi = qch.index_of_first(target)->Some_0;
                            assert(fi == idx) by {
                                if fi < idx {
                                    assert(qch[fi].0 != ei);
                                } else if fi > idx {
                                    assert(qch[idx as int] != target);
                                }
                            }
                        }
                        qst.children.remove(idx);
                        proof {
                            assert(qst.children@ == qch.remove_value(target));
                        }
                    },
                    None => {},
                }
            },
            None => {},
        }
        let ghost mid = *world;
        proof {
            assert(forall|x: int| #[trigger] sub.contains(x) ==> 0 <= x < mid.entities@.len());
        }
        let mut k: usize = 0;
        while k < list.len()
            invariant
                list@.len() == sub.len(),
                forall|j: int| 0 <= j < list@.len() ==> (#[trigger] list@[j]).0 == sub[j],
                forall|x: int| #[trigger] sub.contains(x) ==> 0 <= x < mid.entities@.len(),
                k <= list@.len(),
                world.entities@.len() == mid.entities@.len(),
                world.events@ == mid.events@,
                forall|j: int|
                    0 <= j < world.entities@.len() ==> #[trigger] world.entities@[j] == (if sub.take(
                        k as int,
                    ).contains(j) {
                        None::<EntityStorage>
                    } else {
                        mid.entities@[j]
                    }),
            decreases list@.len() - k,
        {
            let idx = list[k].0;
            proof {
                assert(sub.contains(sub[k as int])) by {
                    assert(sub[k as int] == sub[k as int]);
                }
                assert(list@[k as int].0 == sub[k as int]);
            }
            let slot = &mut world.entities[idx];
            *slot = None;
            proof {
                assert forall|j: int| 0 <= j < world.entities@.len() implies #[trigger] world.entities@[j]
                    == (if sub.take(k as int + 1).contains(j) {
                    None::<EntityStorage>
                } else {
                    mid.entities@[j]
                }) by {
                    assert(sub.take(k as int + 1) =~= sub.take(k as int).push(sub[k as int]));
                    if j == idx {
                        assert(sub.take(k as int + 1)[k as int] == sub[k as int]);
                        assert(sub.take(k as int + 1).contains(j));
                    } else {
                        if sub.take(k as int).contains(j) {
                            assert(sub.take(k as int + 1).contains(j)) by {
                                let m = choose|m: int|
                                    0 <= m < k && #[trigger] sub.take(k as int)[m] == j;
                                assert(sub.take(k as int + 1)[m] == j);
                            }
                        }
                        if sub.take(k as int + 1).contains(j) {
                            let m = choose|m: int|
                                0 <= m < k + 1 && #[trigger] sub.take(k as int + 1)[m] == j;
                            if m < k {
                                assert(sub.take(k as int)[m] == j);
                            } else {
                                assert(j == idx);
                            }
                        }
                    }
                }
            }
            k = k + 1;
        }
        proof {
            let w0 = *old(world);
            let w2 = *final(world);
            assert(sub.take(sub.len() as int) =~= sub);
            assert forall|j: int| 0 <= j < w0.entities@.len() implies (w2.live(j) <==> (w0.live(j)
                && !sub.contains(j))) by {
                if sub.contains(j) {
                    assert(w2.entities@[j] is None);
                } else {
                    assert(w2.entities@[j] == mid.entities@[j]);
                    assert(mid.live(j) <==> w0.live(j));
                }
            }
            match w0.st(ei as int).parent {
                Some(q) => {
                    assert(!sub.contains(q.0 as int)) by {
                        if sub.contains(q.0 as int) {
                            assert(w0.st(q.0 as int).depth >= w0.st(ei as int).depth);
                            assert(w0.st(ei as int).depth == w0.st(q.0 as int).depth + 1);
                        }
                    }
                    assert(w2.entities@[q.0 as int] == mid.entities@[q.0 as int]);
                    assert forall|j: int| #[trigger] w2.live(j) && j != q.0 as int implies w2.entities@[j]
                        == w0.entities@[j] by {
                        assert(w2.entities@[j] == mid.entities@[j]);
                    }
                },
                None => {
                    assert forall|j: int| #[trigger] w2.live(j) implies w2.entities@[j]
                        == w0.entities@[j] by {
                        assert(w2.entities@[j] == mid.entities@[j]);
                    }
                },
            }
            lemma_destroy_wf(w0, w2, ei as int);
        }
    }
}


/// The composed placement of an entity: its own translation applied on top
/// of every ancestor's, identity for a dead handle.
pub open spec fn world_transform(w: World, e: int) -> Transform
    decreases w.st(e).depth,
        when w.wf()
    via world_transform_decreases
{
    if !w.live(e) {
        Transform { pos: crate::math::Vector { x: 0i64, y: 0i64 } }
    } else {
        let local = match w.st(e).transform {
            Some(t) => t,
            None => Transform { pos: crate::math::Vector { x: 0i64, y: 0i64 } },
        };
        match w.st(e).parent {
            None => local,
            Some(p) => local.spec_compose(world_transform(w, p.0 as int)),
        }
    }
}

#[via_fn]
proof fn world_transform_decreases(w: World, e: int) {
    if w.live(e) {
        assert(w.wf_at(e));
    }
}

/// The events of `evs` still pending after `dt` milliseconds pass, in order,
/// their remaining delays reduced.
pub open spec fn remaining_events(evs: Seq<SentEvent>, dt: u64) -> Seq<SentEvent>
    decreases evs.len(),
{
    if evs.len() == 0 {
        Seq::empty()
    } else {
        let rest = remaining_events(evs.drop_first(), dt);
        if evs[0].time > dt {
            seq![SentEvent { time: (evs[0].time - dt) as u64, ..evs[0] }] + rest
        } else {
            rest
        }
    }
}

/// What entity `r` receives when `dt` milliseconds pass over the queue
/// `evs`: the sender and payload of every event whose delay ran out, in
/// queue order.
pub open spec fn delivered_events(evs: Seq<SentEvent>, dt: u64, r: int) -> Seq<(Entity, Event)>
    decreases evs.len(),
{
    if evs.len() == 0 {
        Seq::empty()
    } else {
        let rest = delivered_events(evs.drop_first(), dt, r);
        if evs[0].time <= dt && evs[0].receiver.0 == r {
            seq![(evs[0].sender, evs[0].event)] + rest
        } else {
            rest
        }
    }
}

proof fn lemma_remaining_snoc(evs: Seq<SentEvent>, x: SentEvent, dt: u64)
    ensures
        remaining_events(evs.push(x), dt) == if x.time > dt {
            remaining_events(evs, dt).push(SentEvent { time: (x.time - dt) as u64, ..x })
        } else {
            remaining_events(evs, dt)
        },
    decreases evs.len(),
{
    if evs.len() == 0 {
        assert(evs.push(x)[0] == x);
        assert(evs =~= Seq::<SentEvent>::empty());
        assert(evs.push(x).drop_first() =~= Seq::<SentEvent>::empty());
        assert(remaining_events(Seq::<SentEvent>::empty(), dt) == Seq::<SentEvent>::empty());
        if x.time > dt {
            assert(remaining_events(evs.push(x), dt) =~= remaining_events(evs, dt).push(
                SentEvent { time: (x.time - dt) as u64, ..x },
            ));
        }
    } else {
        assert(evs.push(x).drop_first() =~= evs.drop_first().push(x));
        lemma_remaining_snoc(evs.drop_first(), x, dt);
        assert(evs.push(x)[0] == evs[0]);
        if x.time > dt {
            assert(remaining_events(evs.push(x), dt) =~= remaining_events(evs, dt).push(
                SentEvent { time: (x.time - dt) as u64, ..x },
            ));
        }
    }
}

proof fn lemma_delivered_snoc(evs: Seq<SentEvent>, x: SentEvent, dt: u64, r: int)
    ensures
        delivered_events(evs.push(x), dt, r) == if x.time <= dt && x.receiver.0 == r {
            delivered_events(evs, dt, r).push((x.sender, x.event))
        } else {
            delivered_events(evs, dt, r)
        },
    decreases evs.len(),
{
    if evs.len() == 0 {
        assert(evs.push(x)[0] == x);
        assert(evs =~= Seq::<SentEvent>::empty());
        assert(evs.push(x).drop_first() =~= Seq::<SentEvent>::empty());
        assert(delivered_events(Seq::<SentEvent>::empty(), dt, r) == Seq::<(Entity, Event)>::empty());
        if x.time <= dt && x.receiver.0 == r {
            assert(delivered_events(evs.push(x), dt, r) =~= delivered_events(evs, dt, r).push(
                (x.sender, x.event),
            ));
        }
    } else {
        assert(evs.push(x).drop_first() =~= evs.drop_first().push(x));
        lemma_delivered_snoc(evs.drop_first(), x, dt, r);
        assert(evs.push(x)[0] == evs[0]);
        if x.time <= dt && x.receiver.0 == r {
            assert(delivered_events(evs.push(x), dt, r) =~= delivered_events(evs, dt, r).push(
                (x.sender, x.event),
            ));
        }
    }
}

impl Entity {
    /// The entity's placement in world space: its own transform composed
    /// with all of its ancestors', identity where no transform is attached.
    pub fn transform_to_world(self, world: &World) -> (t: Transform)
        requires
            world.wf(),
        ensures
            t == world_transform(*world, self.0 as int),
        decreases world.st(self.0 as int).depth,
    {
        let st = match world.storage(self) {
            Some(st) => st,
            None => {
                return Transform::identity();
            },
        };
        let local = match &st.transform {
            Some(t) => *t,
            None => Transform::identity(),
        };
        match st.parent {
            None => local,
            Some(p) => {
                proof {
                    assert(world.wf_at(self.0 as int));
                }
                local.compose(p.transform_to_world(world))
            },
        }
    }

    /// Delivers `event` to `recv` at once, into its inbox; a dead receiver
    /// drops the event.
    pub fn send(self, world: &mut World, event: Event, recv: Entity)
        requires
            old(world).wf(),
        ensures
            final(world).wf(),
            final(world).events@ == old(world).events@,
            !old(world).live(recv.0 as int) ==> final(world).entities@ == old(world).entities@,
            old(world).live(recv.0 as int) ==> final(world).entities@ == old(
                world,
            ).entities@.update(
                recv.0 as int,
                Some(
                    EntityStorage {
                        inbox: final(world).st(recv.0 as int).inbox,
                        ..old(world).st(recv.0 as int)
                    },
                ),
            ) && final(world).st(recv.0 as int).inbox@ == old(world).st(
                recv.0 as int,
            ).inbox@.push((self, event)),
    {
        if recv.0 < world.entities.len() {
            match &mut world.entities[recv.0] {
                Some(st) => {
                    st.inbox.push((self, event));
                },
                None => {},
            }
        }
        proof {
            if old(world).live(recv.0 as int) {
                assert(final(world).entities@ =~= old(world).entities@.update(
                    recv.0 as int,
                    Some(
                        EntityStorage {
                            inbox: final(world).st(recv.0 as int).inbox,
                            ..old(world).st(recv.0 as int)
                        },
                    ),
                ));
            } else {
                assert(final(world).entities@ =~= old(world).entities@);
            }
            assert(same_shape(*old(world), *final(world)));
            lemma_wf_same_shape(*old(world), *final(world));
        }
    }

    /// Queues `event` for `recv`, to fire once `time` milliseconds of world
    /// updates have elapsed.
    pub fn send_after(self, world: &mut World, event: Event, recv: Entity, time: u64)
        requires
            old(world).wf(),
        ensures
            final(world).wf(),
            final(world).entities@ == old(world).entities@,
            final(world).events@ == old(world).events@.push(
                SentEvent { sender: self, receiver: recv, event, time },
            ),
    {
        let ev = SentEvent { sender: self, receiver: recv, event, time };
        world.send_event(ev);
        proof {
            assert(same_shape(*old(world), *final(world)));
            lemma_wf_same_shape(*old(world), *final(world));
        }
    }
}

impl World {
    /// Ages the delayed-event queue by `dt` milliseconds: every event whose
    /// remaining delay runs out is delivered to its receiver's inbox in
    /// queue order (dropped if the receiver is dead), the rest stay queued
    /// with their delays reduced.
    pub fn update(&mut self, dt: u64)
        requires
            old(self).wf(),
        ensures
            final(self).wf(),
            final(self).events@ == remaining_events(old(self).events@, dt),
            final(self).entities@.len() == old(self).entities@.len(),
            forall|j: int| final(self).live(j) <==> old(self).live(j),
            forall|j: int|
                #[trigger] final(self).live(j) ==> final(self).st(j) == (EntityStorage {
                    inbox: final(self).st(j).inbox,
                    ..old(self).st(j)
                }) && final(self).st(j).inbox@ == old(self).st(j).inbox@ + delivered_events(
                    old(self).events@,
                    dt,
                    j,
                ),
    {
        let mut src: Vec<SentEvent> = Vec::new();
        core::mem::swap(&mut self.events, &mut src);
        proof {
            assert(remaining_events(src@.take(0), dt) =~= Seq::<SentEvent>::empty());
            assert(self.events@ =~= Seq::<SentEvent>::empty());
            assert forall|j: int| #[trigger] old(self).live(j) implies delivered_events(
                src@.take(0),
                dt,
                j,
            ) =~= Seq::<(Entity, Event)>::empty() by {}
            assert forall|j: int| #[trigger] old(self).live(j) implies old(self).st(j).inbox@
                + delivered_events(src@.take(0), dt, j) =~= old(self).st(j).inbox@ by {}
        }
        let mut i: usize = 0;
        while i < src.len()
            invariant
                i <= src@.len(),
                self.entities@.len() == old(self).entities@.len(),
                forall|j: int| self.live(j) <==> old(self).live(j),
                forall|j: int|
                    #[trigger] self.live(j) ==> self.st(j) == (EntityStorage {
                        inbox: self.st(j).inbox,
                        ..old(self).st(j)
                    }) && self.st(j).inbox@ == old(self).st(j).inbox@ + delivered_events(
                        src@.take(i as int),
                        dt,
                        j,
                    ),
                self.events@ == remaining_events(src@.take(i as int), dt),
            decreases src@.len() - i,
        {
            let ghost pre = *self;
            let ev = &src[i];
            let ghost evg = src@[i as int];
            if ev.time > dt {
                let aged = SentEvent {
                    sender: ev.sender,
                    receiver: ev.receiver,
                    event: ev.event.clone(),
                    time: ev.time - dt,
                };
                self.events.push(aged);
            } else {
                let recv = ev.receiver;
                let payload = ev.event.clone();
                let sender = ev.sender;
                if recv.0 < self.entities.len() {
                    match &mut self.entities[recv.0] {
                        Some(st) => {
                            st.inbox.push((sender, payload));
                        },
                        None => {},
                    }
                }
            }
            proof {
                assert(src@.take(i + 1 as int) =~= src@.take(i as int).push(evg));
                lemma_remaining_snoc(src@.take(i as int), evg, dt);
                assert forall|j: int| #[trigger] self.live(j) implies self.st(j)
                    == (EntityStorage { inbox: self.st(j).inbox, ..old(self).st(j) }) && self.st(
                    j,
                ).inbox@ == old(self).st(j).inbox@ + delivered_events(
                    src@.take(i + 1 as int),
                    dt,
                    j,
                ) by {
                    lemma_delivered_snoc(src@.take(i as int), evg, dt, j);
                    assert(pre.live(j));
                    assert(pre.st(j) == (EntityStorage {
                        inbox: pre.st(j).inbox,
                        ..old(self).st(j)
                    }));
                    let base_inbox = old(self).st(j).inbox@;
                    let del = delivered_events(src@.take(i as int), dt, j);
                    if evg.time <= dt && evg.receiver.0 == j {
                        assert(self.st(j) == (EntityStorage {
                            inbox: self.st(j).inbox,
                            ..pre.st(j)
                        }));
                        assert(self.st(j).inbox@ == pre.st(j).inbox@.push((evg.sender, evg.event)));
                        assert(base_inbox + del.push((evg.sender, evg.event)) =~= (base_inbox
                            + del).push((evg.sender, evg.event)));
                    } else {
                        assert(self.st(j) == pre.st(j));
                        assert(delivered_events(src@.take(i + 1 as int), dt, j) == del);
                    }
                }
            }
            i = i + 1;
        }
        proof {
            assert(src@.take(src@.len() as int) =~= src@);
            assert(same_shape(*old(self), *final(self)));
            lemma_wf_same_shape(*old(self), *final(self));
        }
    }
}


/// After a destroy, the parent's children list no longer names the destroyed
/// root: removing the one occurrence from a duplicate-free list removes the
/// value entirely.
pub proof fn lemma_unlinked_not_contained(s: Seq<Entity>, v: Entity)
    requires
        s.no_duplicates(),
    ensures
        !s.remove_value(v).contains(v),
{
    s.index_of_first_ensures(v);
    if s.contains(v) {
        let fi = s.index_of_first(v)->Some_0;
        s.remove_ensures(fi);
        let r = s.remove(fi);
        if r.contains(v) {
            let m = choose|m: int| 0 <= m < r.len() && r[m] == v;
            if m < fi {
                assert(s[m] == v);
            } else {
                assert(s[m + 1] == v);
            }
        }
    }
}

impl Entity {
    /// The entity's placement component, if attached.
    pub fn transform(self, world: &World) -> (r: Option<&Transform>)
        ensures
            world.live(self.0 as int) ==> r == match world.st(self.0 as int).transform {
                Some(_) => Some(&world.st(self.0 as int).transform->Some_0),
                None => None::<&Transform>,
            },
            !world.live(self.0 as int) ==> r is None,
    {
        match world.storage(self) {
            Some(st) => match &st.transform {
                Some(t) => Some(t),
                None => None,
            },
            None => None,
        }
    }

    /// The entity's sprite component, if attached.
    pub fn sprite(self, world: &World) -> (r: Option<&Sprite>)
        ensures
            world.live(self.0 as int) ==> (match world.st(self.0 as int).sprite {
                Some(s) => r matches Some(x) && *x == s,
                None => r is None,
            }),
            !world.live(self.0 as int) ==> r is None,
    {
        match world.storage(self) {
            Some(st) => match &st.sprite {
                Some(s) => Some(s),
                None => None,
            },
            None => None,
        }
    }

    /// The entity's animator component, if attached.
    pub fn animator(self, world: &World) -> (r: Option<&Animator>)
        ensures
            world.live(self.0 as int) ==> (match world.st(self.0 as int).animator {
                Some(a) => r matches Some(x) && *x == a,
                None => r is None,
            }),
            !world.live(self.0 as int) ==> r is None,
    {
        match world.storage(self) {
            Some(st) => match &st.animator {
                Some(a) => Some(a),
                None => None,
            },
            None => None,
        }
    }

    /// The entity's camera component, if attached.
    pub fn camera(self, world: &World) -> (r: Option<&Camera>)
        ensures
            world.live(self.0 as int) ==> (match world.st(self.0 as int).camera {
                Some(c) => r matches Some(x) && *x == c,
                None => r is None,
            }),
            !world.live(self.0 as int) ==> r is None,
    {
        match world.storage(self) {
            Some(st) => match &st.camera {
                Some(c) => Some(c),
                None => None,
            },
            None => None,
        }
    }

    /// The entity's collider component, if attached.
    pub fn collider(self, world: &World) -> (r: Option<&Collider>)
        ensures
            world.live(self.0 as int) ==> (match world.st(self.0 as int).collider {
                Some(c) => r matches Some(x) && *x == c,
                None => r is None,
            }),
            !world.live(self.0 as int) ==> r is None,
    {
        match world.storage(self) {
            Some(st) => match &st.collider {
                Some(c) => Some(c),
                None => None,
            },
            None => None,
        }
    }

    /// The entity's behaviour delegate, if attached.
    pub fn behaviour(self, world: &World) -> (r: Option<&BehaviourDelegate>)
        ensures
            world.live(self.0 as int) ==> (match world.st(self.0 as int).behaviour {
                Some(b) => r matches Some(x) && *x == b,
                None => r is None,
            }),
            !world.live(self.0 as int) ==> r is None,
    {
        match world.storage(self) {
            Some(st) => match &st.behaviour {
                Some(b) => Some(b),
                None => None,
            },
            None => None,
        }
    }

    /// Drains the events delivered to this entity, in delivery order; a dead
    /// handle yields nothing.
    pub fn take_events(self, world: &mut World) -> (r: Vec<(Entity, Event)>)
        requires
            old(world).wf(),
        ensures
            final(world).wf(),
            final(world).events@ == old(world).events@,
            !old(world).live(self.0 as int) ==> final(world).entities@ == old(world).entities@
                && r@.len() == 0,
            old(world).live(self.0 as int) ==> r@ == old(world).st(self.0 as int).inbox@
                && final(world).entities@ == old(world).entities@.update(
                self.0 as int,
                Some(
                    EntityStorage {
                        inbox: final(world).st(self.0 as int).inbox,
                        ..old(world).st(self.0 as int)
                    },
                ),
            ) && final(world).st(self.0 as int).inbox@.len() == 0,
    {
        let mut r: Vec<(Entity, Event)> = Vec::new();
        if self.0 < world.entities.len() {
            match &mut world.entities[self.0] {
                Some(st) => {
                    core::mem::swap(&mut st.inbox, &mut r);
                },
                None => {},
            }
        }
        proof {
            if old(world).live(self.0 as int) {
                assert(final(world).entities@ =~= old(world).entities@.update(
                    self.0 as int,
                    Some(
                        EntityStorage {
                            inbox: final(world).st(self.0 as int).inbox,
                            ..old(world).st(self.0 as int)
                        },
                    ),
                ));
            } else {
                assert(final(world).entities@ =~= old(world).entities@);
            }
            assert(same_shape(*old(world), *final(world)));
            lemma_wf_same_shape(*old(world), *final(world));
        }
        r
    }
}

} // verus!
