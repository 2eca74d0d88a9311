//! Scenes and the scene stack: the frame loop runs the passes against the
//! entity tree rooted at the scene on top of the stack.

use vstd::prelude::*;

use crate::ecs::Entity;

verus! {

/// A named scene and the root entity of its tree.
pub struct Scene {
    pub id: String,
    pub root: Entity,
}

impl Scene {
    pub fn new(id: String, root: Entity) -> (s: Scene)
        ensures
            s.id == id,
            s.root == root,
    {
        Scene { id, root }
    }

    pub fn id(&self) -> (r: &String)
        ensures
            r == self.id,
    {
        &self.id
    }

    pub fn root(&self) -> (r: Entity)
        ensures
            r == self.root,
    {
        self.root
    }
}

/// A stack of scenes; the one on top is active.
pub struct SceneManager {
    pub scene_stack: Vec<Scene>,
}

impl SceneManager {
    pub fn new() -> (m: SceneManager)
        ensures
            m.scene_stack@.len() == 0,
    {
        SceneManager { scene_stack: Vec::new() }
    }

    /// The active scene, if any.
    pub fn top(&self) -> (r: Option<&Scene>)
        ensures
            self.scene_stack@.len() == 0 ==> r is None,
            self.scene_stack@.len() > 0 ==> (r matches Some(s) && *s == self.scene_stack@.last()),
    {
        if self.scene_stack.len() == 0 {
            None
        } else {
            Some(&self.scene_stack[self.scene_stack.len() - 1])
        }
    }

    pub fn push(&mut self, scene: Scene)
        ensures
            final(self).scene_stack@ == old(self).scene_stack@.push(scene),
    {
        self.scene_stack.push(scene);
    }

    /// Removes the active scene; an empty stack stays empty.
    pub fn pop(&mut self)
        ensures
            old(self).scene_stack@.len() == 0 ==> final(self).scene_stack@ == old(
                self,
            ).scene_stack@,
            old(self).scene_stack@.len() > 0 ==> final(self).scene_stack@ == old(
                self,
            ).scene_stack@.drop_last(),
    {
        let _ = self.scene_stack.pop();
    }

    /// Replaces the active scene (pop, then push).
    pub fn switch(&mut self, scene: Scene)
        ensures
            old(self).scene_stack@.len() == 0 ==> final(self).scene_stack@ == old(
                self,
            ).scene_stack@.push(scene),
            old(self).scene_stack@.len() > 0 ==> final(self).scene_stack@ == old(
                self,
            ).scene_stack@.drop_last().push(scene),
    {
        let _ = self.scene_stack.pop();
        self.scene_stack.push(scene);
    }
}


/// The scenes whose entities have already received their start pass, by
/// scene identifier; the frame driver runs the start pass exactly once per
/// scene activation.
pub struct StartedScenes {
    pub ids: Vec<String>,
}

impl StartedScenes {
    /// Whether a scene named `id` was already started.
    pub open spec fn spec_contains(self, id: Seq<char>) -> bool {
        exists|k: int| 0 <= k < self.ids@.len() && (#[trigger] self.ids@[k])@ == id
    }

    pub fn new() -> (s: StartedScenes)
        ensures
            s.ids@.len() == 0,
            forall|id: Seq<char>| !s.spec_contains(id),
    {
        StartedScenes { ids: Vec::new() }
    }

    pub fn contains(&self, id: &String) -> (r: bool)
        ensures
            r == self.spec_contains(id@),
    {
        let mut i: usize = 0;
        while i < self.ids.len()
            invariant
                i <= self.ids@.len(),
                forall|k: int| 0 <= k < i ==> (#[trigger] self.ids@[k])@ != id@,
            decreases self.ids@.len() - i,
        {
            if self.ids[i] == *id {
                return true;
            }
            i = i + 1;
        }
        false
    }

    /// Records that the scene named `id` has been started.
    pub fn mark(&mut self, id: String)
        ensures
            final(self).ids@ == old(self).ids@.push(id),
            final(self).spec_contains(id@),
    {
        self.ids.push(id);
        proof {
            assert(self.ids@[self.ids@.len() - 1]@ == id@);
        }
    }
}

} // verus!
