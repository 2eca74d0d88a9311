//! The typed asset cache: named load slots with single-flight semantics.
//!
//! A [`Slot`] moves Unloaded -> Loading -> Loaded or LoadError; both terminal
//! states stick until an explicit new load attempt or an explicit `set`.
//! Loading is split into [`Slot::begin_load`] and [`Slot::finish_load`] so a
//! caller may run the loader anywhere (including another thread) between the
//! two transitions; [`Slot::load_with`] packages the synchronous case.

use vstd::prelude::*;

use crate::error::Error;

verus! {

/// Assets are shared: every reader of a loaded asset holds a handle onto the
/// same underlying value.
pub struct AssetRef<A> {
    asset: std::sync::Arc<A>,
}

/// Relies on `Arc::clone`: the new handle points at the same allocation, so
/// it carries the very same value.
#[verifier::external_body]
fn arc_clone<T>(a: &std::sync::Arc<T>) -> (r: std::sync::Arc<T>)
    ensures
        r == *a,
{
    std::sync::Arc::clone(a)
}

impl<A> AssetRef<A> {
    /// The value all copies of this handle share.
    pub closed spec fn value(self) -> A {
        *self.asset
    }

    pub fn new(asset: A) -> (r: AssetRef<A>)
        ensures
            r.value() == asset,
    {
        AssetRef { asset: std::sync::Arc::new(asset) }
    }

    pub fn read(&self) -> (r: &A)
        ensures
            *r == self.value(),
    {
        &*self.asset
    }
}

impl<A> Clone for AssetRef<A> {
    fn clone(&self) -> (r: Self)
        ensures
            r == *self,
    {
        AssetRef { asset: arc_clone(&self.asset) }
    }
}

/// Where a slot stands in its lifecycle. A failed load keeps the loader's
/// message.
pub enum AssetState<A> {
    Unloaded,
    Loading,
    Loaded(AssetRef<A>),
    LoadError(String),
}

/// The slot lifecycle with the shared handle abstracted away to the value it
/// carries. Contracts and laws about load sequences are stated over this.
pub enum SlotModel<A> {
    Unloaded,
    Loading,
    Loaded(A),
    LoadError(Seq<char>),
}

impl<A> AssetState<A> {
    pub open spec fn model(self) -> SlotModel<A> {
        match self {
            AssetState::Unloaded => SlotModel::Unloaded,
            AssetState::Loading => SlotModel::Loading,
            AssetState::Loaded(r) => SlotModel::Loaded(r.value()),
            AssetState::LoadError(m) => SlotModel::LoadError(m@),
        }
    }
}

/// State after attempting the transition into Loading: only the two resting
/// states move; a busy or loaded slot is left alone.
pub open spec fn begin_model<A>(m: SlotModel<A>) -> SlotModel<A> {
    match m {
        SlotModel::Unloaded => SlotModel::Loading,
        SlotModel::LoadError(_) => SlotModel::Loading,
        other => other,
    }
}

/// State after a load finishes with `outcome`: a slot still in Loading takes
/// the outcome; any other state means the load was interrupted and nothing
/// is stored.
pub open spec fn finish_model<A>(m: SlotModel<A>, outcome: Result<A, Seq<char>>) -> SlotModel<
    A,
> {
    if m is Loading {
        match outcome {
            Ok(v) => SlotModel::Loaded(v),
            Err(e) => SlotModel::LoadError(e),
        }
    } else {
        m
    }
}

/// What `get` shows of a state: the value exactly when loaded.
pub open spec fn get_model<A>(m: SlotModel<A>) -> Option<A> {
    match m {
        SlotModel::Loaded(v) => Some(v),
        _ => None,
    }
}

/// What `error` shows of a state: the message exactly when a load failed.
pub open spec fn error_model<A>(m: SlotModel<A>) -> Option<Seq<char>> {
    match m {
        SlotModel::LoadError(e) => Some(e),
        _ => None,
    }
}

/// One cache cell: the identifier it was acquired under and its state.
pub struct Slot<A> {
    pub id: String,
    pub state: AssetState<A>,
}

impl<A> Slot<A> {
    pub fn new(id: String) -> (s: Slot<A>)
        ensures
            s.id == id,
            s.state is Unloaded,
    {
        Slot { id, state: AssetState::Unloaded }
    }

    pub fn id(&self) -> (r: &String)
        ensures
            r == self.id,
    {
        &self.id
    }

    /// The current value, only if the slot is Loaded; never blocks and never
    /// starts a load.
    pub fn get(&self) -> (r: Option<AssetRef<A>>)
        ensures
            self.state matches AssetState::Loaded(a) ==> r == Some(a),
            !(self.state is Loaded) ==> r is None,
    {
        match &self.state {
            AssetState::Loaded(asset) => Some(asset.clone()),
            _ => None,
        }
    }

    /// The stored load failure, only if the slot is in the error state.
    pub fn error(&self) -> (r: Option<&String>)
        ensures
            self.state matches AssetState::LoadError(e) ==> (r matches Some(x) && *x == e),
            !(self.state is LoadError) ==> r is None,
    {
        match &self.state {
            AssetState::LoadError(e) => Some(e),
            _ => None,
        }
    }

    /// Attempts the transition into Loading. A busy slot rejects the caller
    /// without touching anything; a loaded slot hands its value back without
    /// reloading; the two resting states move to Loading, after which the
    /// caller owes the slot a matching `finish_load`.
    pub fn begin_load(&mut self) -> (r: Result<Option<AssetRef<A>>, Error>)
        ensures
            final(self).id == old(self).id,
            final(self).state.model() == begin_model(old(self).state.model()),
            old(self).state is Loading ==> r == Err::<Option<AssetRef<A>>, Error>(
                Error::AssetBusy,
            ) && final(self).state == old(self).state,
            old(self).state matches AssetState::Loaded(a) ==> r == Ok::<_, Error>(Some(a))
                && final(self).state == old(self).state,
            (old(self).state is Unloaded || old(self).state is LoadError) ==> r == Ok::<
                Option<AssetRef<A>>,
                Error,
            >(None) && final(self).state is Loading,
    {
        match &self.state {
            AssetState::Loading => Err(Error::AssetBusy),
            AssetState::Loaded(a) => Ok(Some(a.clone())),
            _ => {
                self.state = AssetState::Loading;
                Ok(None)
            },
        }
    }

    /// Stores the outcome of the load that `begin_load` admitted. If the slot
    /// meanwhile left the Loading state, the outcome is dropped and the call
    /// reports the interruption.
    pub fn finish_load(&mut self, outcome: Result<A, String>) -> (r: Result<AssetRef<A>, Error>)
        ensures
            final(self).id == old(self).id,
            final(self).state.model() == finish_model(
                old(self).state.model(),
                match outcome {
                    Ok(v) => Ok::<A, Seq<char>>(v),
                    Err(m) => Err(m@),
                },
            ),
            old(self).state is Loading ==> match outcome {
                Ok(v) => r matches Ok(a) && a.value() == v,
                Err(m) => r == Err::<AssetRef<A>, Error>(Error::AssetLoad(m)),
            },
            !(old(self).state is Loading) ==> r == Err::<AssetRef<A>, Error>(
                Error::LoadInterrupted,
            ) && final(self).state == old(self).state,
    {
        match &self.state {
            AssetState::Loading => match outcome {
                Ok(v) => {
                    let asset_ref = AssetRef::new(v);
                    self.state = AssetState::Loaded(asset_ref.clone());
                    Ok(asset_ref)
                },
                Err(m) => {
                    let err = Error::AssetLoad(m.clone());
                    self.state = AssetState::LoadError(m);
                    Err(err)
                },
            },
            _ => Err(Error::LoadInterrupted),
        }
    }

    /// Runs `loader` under the slot's single-flight rule: a busy slot turns
    /// the caller away before the loader runs, a loaded slot answers from the
    /// cache, and otherwise the loader's outcome becomes the slot's new
    /// resting state.
    pub fn load_with<F: FnOnce() -> Result<A, String>>(&mut self, loader: F) -> (r: Result<
        AssetRef<A>,
        Error,
    >)
        requires
            call_requires(loader, ()),
        ensures
            final(self).id == old(self).id,
            old(self).state is Loading ==> r == Err::<AssetRef<A>, Error>(Error::AssetBusy)
                && final(self).state == old(self).state,
            old(self).state matches AssetState::Loaded(a) ==> r == Ok::<_, Error>(a)
                && final(self).state == old(self).state,
            (old(self).state is Unloaded || old(self).state is LoadError) ==> exists|
                fr: Result<A, String>,
            |
                #[trigger] call_ensures(loader, (), fr) && final(self).state.model()
                    == finish_model(
                    SlotModel::Loading,
                    match fr {
                        Ok(v) => Ok::<A, Seq<char>>(v),
                        Err(m) => Err(m@),
                    },
                ) && match fr {
                    Ok(v) => r matches Ok(a) && a.value() == v,
                    Err(m) => r == Err::<AssetRef<A>, Error>(Error::AssetLoad(m)),
                },
    {
        match self.begin_load() {
            Err(e) => Err(e),
            Ok(Some(a)) => Ok(a),
            Ok(None) => {
                let outcome = loader();
                self.finish_load(outcome)
            },
        }
    }

    /// Replaces the slot contents with an already-built value, whatever the
    /// previous state, and hands back the previous value if one was loaded.
    pub fn set(&mut self, asset: A) -> (prev: Option<AssetRef<A>>)
        ensures
            final(self).id == old(self).id,
            final(self).state matches AssetState::Loaded(a) && a.value() == asset,
            old(self).state matches AssetState::Loaded(p) ==> prev == Some(p),
            !(old(self).state is Loaded) ==> prev is None,
    {
        let mut state = AssetState::Loaded(AssetRef::new(asset));
        core::mem::swap(&mut self.state, &mut state);
        match state {
            AssetState::Loaded(prev) => Some(prev),
            _ => None,
        }
    }
}

impl<A: Loadable> Slot<A> {
    /// Loads from a path under the single-flight rule. The loader is the
    /// user-supplied `Loadable` implementation, so nothing is promised about
    /// which outcome it produces, only how each outcome moves the slot.
    pub fn load(&mut self, path: &str) -> (r: Result<AssetRef<A>, Error>)
        ensures
            final(self).id == old(self).id,
            old(self).state is Loading ==> r == Err::<AssetRef<A>, Error>(Error::AssetBusy)
                && final(self).state == old(self).state,
            old(self).state matches AssetState::Loaded(a) ==> r == Ok::<_, Error>(a)
                && final(self).state == old(self).state,
            (old(self).state is Unloaded || old(self).state is LoadError) ==> exists|
                fr: Result<A, Seq<char>>,
            |
                final(self).state.model() == finish_model(SlotModel::Loading, fr) && match fr {
                    Ok(v) => r matches Ok(a) && a.value() == v,
                    Err(m) => r matches Err(e) && e matches Error::AssetLoad(s) && s@ == m,
                },
    {
        match self.begin_load() {
            Err(e) => Err(e),
            Ok(Some(a)) => Ok(a),
            Ok(None) => {
                let outcome = A::load(path);
                self.finish_load(outcome)
            },
        }
    }
}

/// Something the asset cache can load from an opaque path identifier; the
/// engine never looks inside the path, it is only the cache key.
pub trait Loadable where Self: core::marker::Sized {
    fn load(path: &str) -> Result<Self, String>;
}

/// A value that knows both its cache identifier and how to produce the asset.
pub trait Source<A> {
    fn id(&self) -> String;

    fn load(&self) -> Result<A, String>;
}

/// The registry of load slots for one asset type, deduplicated by identifier.
/// A handle returned by `acquire` is an index into `slots` and stays valid for
/// the life of the cache, since slots are never removed.
pub struct AssetCache<A> {
    pub slots: Vec<Slot<A>>,
}

impl<A> AssetCache<A> {
    /// Identifiers name at most one slot.
    pub open spec fn wf(self) -> bool {
        forall|i: int, j: int|
            0 <= i < j < self.slots@.len() ==> self.slots@[i].id@ != self.slots@[j].id@
    }

    /// The first slot index carrying `id`, scanning from position `i`.
    pub open spec fn spec_find_from(s: Seq<Slot<A>>, id: Seq<char>, i: int) -> Option<int>
        decreases s.len() - i,
    {
        if i < 0 || i >= s.len() {
            None
        } else if s[i].id@ == id {
            Some(i)
        } else {
            Self::spec_find_from(s, id, i + 1)
        }
    }

    /// The slot index carrying `id`, if any.
    pub open spec fn spec_find(self, id: Seq<char>) -> Option<int> {
        Self::spec_find_from(self.slots@, id, 0)
    }

    pub proof fn lemma_find_none(s: Seq<Slot<A>>, id: Seq<char>, i: int)
        requires
            0 <= i,
            Self::spec_find_from(s, id, i) is None,
        ensures
            forall|j: int| i <= j < s.len() ==> s[j].id@ != id,
        decreases s.len() - i,
    {
        if 0 <= i < s.len() {
            Self::lemma_find_none(s, id, i + 1);
        }
    }

    pub proof fn lemma_find_some(s: Seq<Slot<A>>, id: Seq<char>, i: int)
        requires
            Self::spec_find_from(s, id, i) is Some,
        ensures
            ({
                let k = Self::spec_find_from(s, id, i)->Some_0;
                i <= k < s.len() && s[k].id@ == id
            }),
        decreases s.len() - i,
    {
        if 0 <= i < s.len() && s[i].id@ != id {
            Self::lemma_find_some(s, id, i + 1);
        }
    }

    /// Scanning a sequence extended by a slot named `id` finds that slot at
    /// the end when the original sequence had no match.
    proof fn lemma_find_from_push(s: Seq<Slot<A>>, id: Seq<char>, i: int)
        requires
            Self::spec_find_from(s, id, i) is None,
            0 <= i <= s.len(),
        ensures
            forall|t: Slot<A>|
                t.id@ == id ==> Self::spec_find_from(s.push(t), id, i) == Some(s.len() as int),
        decreases s.len() - i,
    {
        if i < s.len() {
            Self::lemma_find_from_push(s, id, i + 1);
        }
    }

    pub fn new() -> (c: AssetCache<A>)
        ensures
            c.slots@.len() == 0,
            c.wf(),
    {
        AssetCache { slots: Vec::new() }
    }

    /// The slot index carrying `id`, if any; never changes the cache.
    pub fn index_of(&self, id: &String) -> (r: Option<usize>)
        ensures
            match r {
                Some(h) => self.spec_find(id@) == Some(h as int),
                None => self.spec_find(id@) is None,
            },
    {
        let mut i: usize = 0;
        while i < self.slots.len()
            invariant
                0 <= i <= self.slots@.len(),
                Self::spec_find_from(self.slots@, id@, 0) == Self::spec_find_from(
                    self.slots@,
                    id@,
                    i as int,
                ),
            decreases self.slots@.len() - i,
        {
            if self.slots[i].id == *id {
                return Some(i);
            }
            i = i + 1;
        }
        None
    }

    /// Finds the slot named `id`, creating it lazily in the Unloaded state.
    /// Acquiring the same identifier again returns the same handle and leaves
    /// the cache untouched; every other slot is untouched either way.
    pub fn acquire(&mut self, id: &str) -> (h: usize)
        requires
            old(self).wf(),
        ensures
            final(self).wf(),
            h < final(self).slots@.len(),
            final(self).slots@[h as int].id@ == id@,
            match old(self).spec_find(id@) {
                Some(i) => h == i && final(self).slots@ == old(self).slots@,
                None => {
                    &&& h == old(self).slots@.len()
                    &&& final(self).slots@.len() == old(self).slots@.len() + 1
                    &&& final(self).slots@.subrange(0, old(self).slots@.len() as int) == old(
                        self,
                    ).slots@
                    &&& final(self).slots@[h as int].state is Unloaded
                },
            },
            final(self).spec_find(id@) == Some(h as int),
    {
        let key = id.to_owned();
        match self.index_of(&key) {
            Some(h) => {
                proof {
                    Self::lemma_find_some(self.slots@, id@, 0);
                }
                h
            },
            None => {
                let h = self.slots.len();
                self.slots.push(Slot::new(key));
                proof {
                    Self::lemma_find_none(old(self).slots@, id@, 0);
                    assert(final(self).slots@.subrange(0, old(self).slots@.len() as int) =~= old(
                        self,
                    ).slots@);
                    Self::lemma_find_from_push(old(self).slots@, id@, 0);
                }
                h
            },
        }
    }

    /// The value stored under `id`, only if its slot is Loaded; absence of
    /// the slot, a pending load and a failed load all answer with nothing.
    pub fn get(&self, id: &str) -> (r: Option<AssetRef<A>>)
        ensures
            match self.spec_find(id@) {
                Some(i) => (self.slots@[i].state matches AssetState::Loaded(a) ==> r == Some(a))
                    && (!(self.slots@[i].state is Loaded) ==> r is None),
                None => r is None,
            },
    {
        let key = id.to_owned();
        match self.index_of(&key) {
            Some(h) => {
                proof {
                    Self::lemma_find_some(self.slots@, id@, 0);
                }
                self.slots[h].get()
            },
            None => None,
        }
    }

    /// Stores an already-built value under `id`, creating the slot if it was
    /// never acquired, and hands back the previously loaded value if there
    /// was one. No other slot is touched.
    pub fn set(&mut self, id: &str, asset: A) -> (prev: Option<AssetRef<A>>)
        requires
            old(self).wf(),
        ensures
            final(self).wf(),
            final(self).spec_find(id@) is Some,
            ({
                let h = final(self).spec_find(id@)->Some_0;
                &&& final(self).slots@[h].state matches AssetState::Loaded(a) && a.value()
                    == asset
                &&& final(self).slots@[h].id@ == id@
                &&& match old(self).spec_find(id@) {
                    Some(i) => {
                        &&& h == i
                        &&& (old(self).slots@[i].state matches AssetState::Loaded(p) ==> prev
                            == Some(p))
                        &&& (!(old(self).slots@[i].state is Loaded) ==> prev is None)
                        &&& final(self).slots@ == old(self).slots@.update(
                            i,
                            final(self).slots@[i],
                        )
                    },
                    None => {
                        &&& prev is None
                        &&& h == old(self).slots@.len()
                        &&& final(self).slots@.len() == old(self).slots@.len() + 1
                        &&& final(self).slots@.subrange(0, old(self).slots@.len() as int) == old(
                            self,
                        ).slots@
                    },
                }
            }),
    {
        let h = self.acquire(id);
        let ghost mid = self.slots@;
        let prev = self.slots[h].set(asset);
        proof {
            assert(final(self).slots@ =~= mid.update(h as int, final(self).slots@[h as int]));
            Self::lemma_find_stable(mid, final(self).slots@, id@, 0);
        }
        prev
    }

    /// Runs a full load against the slot named by the source, acquiring the
    /// slot first; the single-flight rule of `Slot::load_with` applies to it.
    /// The source decides the identifier and the outcome, so only the shape
    /// of every possible transition is promised.
    pub fn load<S: Source<A>>(&mut self, src: &S) -> (r: Result<AssetRef<A>, Error>)
        requires
            old(self).wf(),
        ensures
            final(self).wf(),
            exists|key: String|
                {
                    let pre = Self::spec_find_from(old(self).slots@, key@, 0);
                    let post = Self::spec_find_from(final(self).slots@, key@, 0);
                    &&& #[trigger] call_ensures(S::id, (src,), key)
                    &&& post is Some
                    &&& {
                        let h = post->Some_0;
                        let slot = final(self).slots@[h];
                        &&& slot.id@ == key@
                        &&& match pre {
                            Some(i) => h == i && final(self).slots@ == old(self).slots@.update(
                                i,
                                slot,
                            ),
                            None => h == old(self).slots@.len() && final(self).slots@.subrange(
                                0,
                                old(self).slots@.len() as int,
                            ) == old(self).slots@ && final(self).slots@.len() == old(
                                self,
                            ).slots@.len() + 1,
                        }
                        &&& match r {
                            Ok(a) => slot.state.model() == SlotModel::Loaded(a.value()),
                            Err(Error::AssetBusy) => slot.state is Loading,
                            Err(Error::AssetLoad(m)) => slot.state.model()
                                == SlotModel::<A>::LoadError(m@),
                            _ => false,
                        }
                    }
                },
    {
        let key = src.id();
        let h = self.acquire(key.as_str());
        let ghost mid = self.slots@;
        let r = match self.slots[h].begin_load() {
            Err(e) => Err(e),
            Ok(Some(a)) => Ok(a),
            Ok(None) => {
                let outcome = src.load();
                self.slots[h].finish_load(outcome)
            },
        };
        proof {
            assert(final(self).slots@ =~= mid.update(h as int, final(self).slots@[h as int]));
            Self::lemma_find_stable(mid, final(self).slots@, key@, 0);
            assert(Self::spec_find_from(old(self).slots@, key@, 0) == old(self).spec_find(key@));
            assert(call_ensures(S::id, (src,), key));
        }
        r
    }

    /// Finding by identifier does not see a state change that keeps every
    /// slot's identifier in place.
    proof fn lemma_find_stable(s1: Seq<Slot<A>>, s2: Seq<Slot<A>>, id: Seq<char>, i: int)
        requires
            s1.len() == s2.len(),
            forall|j: int| 0 <= j < s1.len() ==> s1[j].id@ == s2[j].id@,
        ensures
            Self::spec_find_from(s1, id, i) == Self::spec_find_from(s2, id, i),
        decreases s1.len() - i,
    {
        if 0 <= i < s1.len() {
            Self::lemma_find_stable(s1, s2, id, i + 1);
        }
    }
}

/// While one load is in flight, a second attempt is turned away without
/// moving the slot, so the first load's outcome is what the slot stores.
pub proof fn lemma_busy_load_preserved<A>(m: SlotModel<A>, v: A)
    requires
        m is Loading,
    ensures
        begin_model(m) == m,
        get_model(finish_model(begin_model(m), Ok(v))) == Some(v),
{
}

/// A successful load is visible through `get`; a failed load is invisible to
/// `get` while its message stays retrievable through `error`.
pub proof fn lemma_load_outcome_visible<A>(m: SlotModel<A>, outcome: Result<A, Seq<char>>)
    requires
        m is Loading,
    ensures
        match outcome {
            Ok(v) => get_model(finish_model(m, outcome)) == Some(v) && error_model(
                finish_model(m, outcome),
            ) is None,
            Err(e) => get_model(finish_model(m, outcome)) is None && error_model(
                finish_model(m, outcome),
            ) == Some(e),
        },
{
}

} // verus!
