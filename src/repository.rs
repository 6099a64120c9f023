use vstd::prelude::*;

use crate::error::{ContainerError, Phase};
use crate::graph::{
    all_resolved, build_plan, depends, find_index, first_unresolved, has_cycle, ids_unique, is_build_plan,
    is_cycle, is_registered, ComponentMeta, TypeKey,
};
use crate::lifecycle::{
    after_start, reversed, stop_outcome, stop_report, started_after, stopped_after, ComponentLifecycle, StartStep,
};

verus! {

/// A constructed component: the interface type it is stored under, the tag
/// of its concrete kind, whether it runs lifecycle hooks, and the instance.
pub struct Slot<V> {
    pub type_id: TypeKey,
    pub kind: u64,
    pub hooks: bool,
    pub value: V,
}

impl<V> Slot<V> {
    /// The instance, provided it is of the concrete kind `kind`.
    pub fn downcast(&self, kind: u64) -> (r: Result<&V, ContainerError>)
        ensures
            match r {
                Ok(v) => kind == self.kind && *v == self.value,
                Err(ContainerError::DowncastMismatch { requested, actual }) => kind != self.kind
                    && requested == kind && actual == self.kind,
                Err(_) => false,
            },
    {
        if self.kind == kind {
            Ok(&self.value)
        } else {
            Err(ContainerError::DowncastMismatch { requested: kind, actual: self.kind })
        }
    }
}

/// Builds the instances of the registered components, one at a time, in an
/// order in which every dependency is built first.
pub trait ComponentFactory<V>: Sized {
    /// Builds the component registered under `type_id`; `repo` already holds
    /// every component it depends on. Returns the tag of the instance's
    /// concrete kind and the instance, or the reason construction failed.
    fn build(&mut self, type_id: TypeKey, repo: &ComponentRepository<V>) -> (r: Result<(u64, V), String>)
        requires
            repo.holds_dependencies_of(type_id),
    ;
}

/// The record for `t` asks for start and stop hooks.
pub open spec fn hooks_of(metas: Seq<ComponentMeta>, t: TypeKey) -> bool {
    exists|i: int| 0 <= i < metas.len() && metas[i].type_id == t && metas[i].lifecycle
}

/// The slots with hooks among the first `n`, by interface type, in order.
pub open spec fn hooked_prefix<V>(slots: Seq<Slot<V>>, n: int) -> Seq<TypeKey>
    decreases n,
{
    if n <= 0 {
        Seq::empty()
    } else if slots[n - 1].hooks {
        hooked_prefix(slots, n - 1).push(slots[n - 1].type_id)
    } else {
        hooked_prefix(slots, n - 1)
    }
}

/// When no slot among the first `n` has hooks, none is listed.
proof fn lemma_hooked_prefix_empty<V>(slots: Seq<Slot<V>>, n: int, i: int)
    requires
        0 <= i < n <= slots.len(),
        hooked_prefix(slots, n).len() == 0,
    ensures
        !slots[i].hooks,
    decreases n,
{
    if i < n - 1 {
        if !slots[n - 1].hooks {
            lemma_hooked_prefix_empty(slots, n - 1, i);
        }
    }
}

/// Owns the registered metadata and, once composed, the component instances.
pub struct ComponentRepository<V> {
    metas: Vec<ComponentMeta>,
    plan: Vec<TypeKey>,
    slots: Vec<Slot<V>>,
    phase: Phase,
    started: Vec<usize>,
    start_calls: Vec<TypeKey>,
    stop_calls: Vec<TypeKey>,
}

impl<V> ComponentRepository<V> {
    pub closed spec fn spec_metas(&self) -> Seq<ComponentMeta> {
        self.metas@
    }

    /// The build order chosen by the last successful composition.
    pub closed spec fn spec_plan(&self) -> Seq<TypeKey> {
        self.plan@
    }

    /// The constructed components, in build order.
    pub closed spec fn spec_slots(&self) -> Seq<Slot<V>> {
        self.slots@
    }

    pub closed spec fn spec_phase(&self) -> Phase {
        self.phase
    }

    /// The components whose start hook succeeded, in the order they ran.
    pub closed spec fn spec_start_calls(&self) -> Seq<TypeKey> {
        self.start_calls@
    }

    /// The components whose stop hook was run, in the order they ran.
    pub closed spec fn spec_stop_calls(&self) -> Seq<TypeKey> {
        self.stop_calls@
    }

    /// A component is stored under `t`.
    pub open spec fn has_slot(&self, t: TypeKey) -> bool {
        exists|i: int| 0 <= i < self.spec_slots().len() && #[trigger] self.spec_slots()[i].type_id == t
    }

    /// Every type that the record for `t` depends on is stored.
    pub open spec fn holds_dependencies_of(&self, t: TypeKey) -> bool {
        forall|i: int, d: TypeKey|
            0 <= i < self.spec_metas().len() && self.spec_metas()[i].type_id == t
                && #[trigger] self.spec_metas()[i].depends_on@.contains(d) ==> self.has_slot(d)
    }

    /// The slots with hooks, by interface type, in build order.
    pub open spec fn hooked(&self) -> Seq<TypeKey> {
        hooked_prefix(self.spec_slots(), self.spec_slots().len() as int)
    }

    /// The slots are the build plan's types, each with the hooks its record asks for.
    pub open spec fn slots_follow_plan(&self) -> bool {
        &&& is_build_plan(self.spec_metas(), self.spec_plan())
        &&& self.spec_slots().len() == self.spec_plan().len()
        &&& forall|i: int|
            0 <= i < self.spec_slots().len() ==> (#[trigger] self.spec_slots()[i]).type_id
                == self.spec_plan()[i] && self.spec_slots()[i].hooks == hooks_of(
                self.spec_metas(),
                self.spec_plan()[i],
            )
    }

    pub closed spec fn wf(&self) -> bool {
        &&& ids_unique(self.metas@)
        &&& self.started@.len() == self.start_calls@.len()
        &&& forall|q: int|
            0 <= q < self.started@.len() ==> (#[trigger] self.started@[q] as int) < self.slots@.len()
                && self.slots@[self.started@[q] as int].type_id == self.start_calls@[q]
        &&& self.phase == Phase::Registering ==> {
            &&& self.slots@.len() == 0
            &&& self.plan@.len() == 0
            &&& self.started@.len() == 0
            &&& self.stop_calls@.len() == 0
        }
        &&& self.phase != Phase::Registering ==> self.slots_follow_plan()
        &&& self.phase == Phase::Composed ==> self.started@.len() == 0 && self.stop_calls@.len() == 0
        &&& self.phase == Phase::Started ==> self.start_calls@ == self.hooked() && self.stop_calls@.len() == 0
        &&& self.phase == Phase::Stopped ==> self.stop_calls@ == self.start_calls@.reverse()
    }

    /// An empty repository, open for registration.
    pub fn new() -> (r: Self)
        ensures
            r.wf(),
            r.spec_phase() == Phase::Registering,
            r.spec_metas().len() == 0,
            r.spec_slots().len() == 0,
    {
        ComponentRepository {
            metas: Vec::new(),
            plan: Vec::new(),
            slots: Vec::new(),
            phase: Phase::Registering,
            started: Vec::new(),
            start_calls: Vec::new(),
            stop_calls: Vec::new(),
        }
    }

    /// The registered metadata, in registration order.
    pub fn metas(&self) -> (r: &Vec<ComponentMeta>)
        ensures
            r@ == self.spec_metas(),
    {
        &self.metas
    }

    /// The build order of the last successful composition.
    pub fn plan(&self) -> (r: &Vec<TypeKey>)
        ensures
            r@ == self.spec_plan(),
    {
        &self.plan
    }

    /// The constructed components, in build order.
    pub fn slots(&self) -> (r: &Vec<Slot<V>>)
        ensures
            r@ == self.spec_slots(),
    {
        &self.slots
    }

    /// The components whose start hook succeeded, in the order they ran.
    pub fn start_calls(&self) -> (r: &Vec<TypeKey>)
        ensures
            r@ == self.spec_start_calls(),
    {
        &self.start_calls
    }

    /// The components whose stop hook ran, in the order they ran.
    pub fn stop_calls(&self) -> (r: &Vec<TypeKey>)
        ensures
            r@ == self.spec_stop_calls(),
    {
        &self.stop_calls
    }

    pub fn phase(&self) -> (r: Phase)
        ensures
            r == self.spec_phase(),
    {
        self.phase
    }

    /// Adds the metadata of one component type. Nothing is built yet.
    pub fn register(&mut self, meta: ComponentMeta) -> (r: Result<(), ContainerError>)
        requires
            old(self).wf(),
        ensures
            final(self).wf(),
            final(self).spec_phase() == old(self).spec_phase(),
            final(self).spec_slots() == old(self).spec_slots(),
            old(self).spec_phase() != Phase::Registering ==> (r matches Err(
                ContainerError::LifecycleMisuse(p),
            ) && p == old(self).spec_phase()),
            old(self).spec_phase() == Phase::Registering && is_registered(
                old(self).spec_metas(),
                meta.type_id,
            ) ==> (r matches Err(ContainerError::DuplicateRegistration(t)) && t == meta.type_id),
            r is Ok <==> old(self).spec_phase() == Phase::Registering && !is_registered(
                old(self).spec_metas(),
                meta.type_id,
            ),
            r is Ok ==> final(self).spec_metas() == old(self).spec_metas().push(meta),
            r is Err ==> final(self).spec_metas() == old(self).spec_metas(),
    {
        if self.phase != Phase::Registering {
            return Err(ContainerError::LifecycleMisuse(self.phase));
        }
        let t = meta.type_id;
        match find_index(&self.metas, t) {
            Some(_) => Err(ContainerError::DuplicateRegistration(t)),
            None => {
                let ghost m0 = self.metas@;
                self.metas.push(meta);
                assert(ids_unique(self.metas@)) by {
                    assert forall|i: int, j: int|
                        0 <= i < self.metas@.len() && 0 <= j < self.metas@.len() && i != j implies self.metas@[i].type_id
                            != self.metas@[j].type_id by {
                        if i < m0.len() && j < m0.len() {
                        } else if i < m0.len() {
                            assert(self.metas@[i] == m0[i]);
                        } else if j < m0.len() {
                            assert(self.metas@[j] == m0[j]);
                        }
                    }
                }
                Ok(())
            },
        }
    }

    /// The component stored under `type_id`, as a type-erased slot.
    pub fn get_by_type_id(&self, type_id: TypeKey) -> (r: Result<&Slot<V>, ContainerError>)
        ensures
            match r {
                Ok(s) => s.type_id == type_id && exists|i: int|
                    0 <= i < self.spec_slots().len() && self.spec_slots()[i] == *s,
                Err(ContainerError::NotFound(t)) => t == type_id && !self.has_slot(type_id),
                Err(_) => false,
            },
    {
        let mut i: usize = 0;
        while i < self.slots.len()
            invariant
                i <= self.slots@.len(),
                forall|j: int| 0 <= j < i ==> self.slots@[j].type_id != type_id,
            decreases self.slots@.len() - i,
        {
            if self.slots[i].type_id == type_id {
                assert(self.spec_slots()[i as int] == self.slots@[i as int]);
                return Ok(&self.slots[i]);
            }
            i = i + 1;
        }
        Err(ContainerError::NotFound(type_id))
    }

    /// The instance stored under `type_id`, provided it is of the concrete kind `kind`.
    pub fn get(&self, type_id: TypeKey, kind: u64) -> (r: Result<&V, ContainerError>)
        ensures
            match r {
                Ok(v) => exists|i: int|
                    0 <= i < self.spec_slots().len() && self.spec_slots()[i].type_id == type_id
                        && self.spec_slots()[i].kind == kind && self.spec_slots()[i].value == *v,
                Err(ContainerError::NotFound(t)) => t == type_id && !self.has_slot(type_id),
                Err(ContainerError::DowncastMismatch { requested, actual }) => requested == kind
                    && requested != actual && exists|i: int|
                    0 <= i < self.spec_slots().len() && self.spec_slots()[i].type_id == type_id
                        && self.spec_slots()[i].kind == actual,
                Err(_) => false,
            },
            self.has_slot(type_id) <==> !(r matches Err(ContainerError::NotFound(_))),
    {
        let slot = self.get_by_type_id(type_id)?;
        slot.downcast(kind)
    }

    /// Orders the registered components and builds each of them, in that
    /// order, with `factory`. On any failure nothing stays built.
    pub fn compose<F: ComponentFactory<V>>(&mut self, factory: &mut F) -> (r: Result<(), ContainerError>)
        requires
            old(self).wf(),
        ensures
            final(self).wf(),
            final(self).spec_metas() == old(self).spec_metas(),
            old(self).spec_phase() != Phase::Registering ==> (r matches Err(
                ContainerError::LifecycleMisuse(p),
            ) && p == old(self).spec_phase() && final(self).spec_phase() == old(self).spec_phase()
                && final(self).spec_slots() == old(self).spec_slots()),
            old(self).spec_phase() == Phase::Registering ==> match r {
                Ok(()) => final(self).spec_phase() == Phase::Composed && final(self).slots_follow_plan(),
                Err(ContainerError::MissingDependency { requester, missing }) => first_unresolved(
                    old(self).spec_metas(),
                    requester,
                    missing,
                ),
                Err(ContainerError::CircularDependency(c)) => all_resolved(old(self).spec_metas())
                    && is_cycle(old(self).spec_metas(), c@),
                Err(ContainerError::ConstructionFailed { type_id, cause }) => all_resolved(
                    old(self).spec_metas(),
                ) && !has_cycle(old(self).spec_metas()) && is_registered(
                    old(self).spec_metas(),
                    type_id,
                ),
                Err(_) => false,
            },
            old(self).spec_phase() == Phase::Registering && r is Err ==> final(self).spec_phase()
                == Phase::Registering && final(self).spec_slots().len() == 0,
            old(self).spec_phase() == Phase::Registering && !(all_resolved(old(self).spec_metas())
                && !has_cycle(old(self).spec_metas())) ==> r is Err && !(r matches Err(
                ContainerError::ConstructionFailed { .. },
            )),
            old(self).spec_phase() == Phase::Registering && !all_resolved(old(self).spec_metas())
                ==> r matches Err(ContainerError::MissingDependency { .. }),
            ((r matches Err(ContainerError::MissingDependency { .. })) || (r matches Err(
                ContainerError::CircularDependency(_),
            )) || (r matches Err(ContainerError::LifecycleMisuse(_)))) ==> *final(factory) == *old(factory),
            old(self).spec_phase() == Phase::Registering && all_resolved(old(self).spec_metas())
                && has_cycle(old(self).spec_metas()) ==> r matches Err(
                ContainerError::CircularDependency(_),
            ),
    {
        if self.phase != Phase::Registering {
            return Err(ContainerError::LifecycleMisuse(self.phase));
        }
        let plan = match build_plan(&self.metas) {
            Ok(plan) => plan,
            Err(e) => {
                return Err(e);
            },
        };
        let ghost metas = self.metas@;
        let mut i: usize = 0;
        while i < plan.len()
            invariant
                self.metas@ == metas,
                old(self).metas@ == metas,
                old(self).phase == Phase::Registering,
                self.phase == Phase::Registering,
                self.plan@.len() == 0,
                self.started@.len() == 0,
                self.start_calls@.len() == 0,
                self.stop_calls@.len() == 0,
                ids_unique(metas),
                all_resolved(metas),
                !has_cycle(metas),
                is_build_plan(metas, plan@),
                i <= plan@.len(),
                self.slots@.len() == i,
                forall|j: int|
                    0 <= j < i ==> (#[trigger] self.slots@[j]).type_id == plan@[j] && self.slots@[j].hooks
                        == hooks_of(metas, plan@[j]),
            decreases plan@.len() - i,
        {
            let t = plan[i];
            proof {
                assert(is_registered(metas, plan@[i as int]));
                assert forall|m: int, d: TypeKey|
                    0 <= m < metas.len() && metas[m].type_id == t
                        && #[trigger] metas[m].depends_on@.contains(d) implies self.has_slot(d) by {
                    let k = choose|k: int| 0 <= k < metas[m].depends_on@.len() && metas[m].depends_on@[k] == d;
                    assert(is_registered(metas, metas[m].depends_on@[k]));
                    let x = choose|x: int| 0 <= x < metas.len() && metas[x].type_id == d;
                    assert(plan@.contains(metas[x].type_id));
                    let q = choose|q: int| 0 <= q < plan@.len() && plan@[q] == d;
                    assert(depends(metas, plan@[i as int], plan@[q]));
                    assert(self.spec_slots()[q] == self.slots@[q]);
                }
            }
            let built = factory.build(t, &*self);
            match built {
                Ok((kind, value)) => {
                    let hooks = match find_index(&self.metas, t) {
                        Some(m) => self.metas[m].lifecycle,
                        None => false,
                    };
                    assert(hooks == hooks_of(metas, t));
                    let ghost s0 = self.slots@;
                    self.slots.push(Slot { type_id: t, kind, hooks, value });
                    assert forall|j: int|
                        0 <= j < i + 1 implies (#[trigger] self.slots@[j]).type_id == plan@[j] && self.slots@[j].hooks
                            == hooks_of(metas, plan@[j]) by {
                        if j < i {
                            assert(self.slots@[j] == s0[j]);
                        }
                    }
                },
                Err(cause) => {
                    self.slots = Vec::new();
                    return Err(ContainerError::ConstructionFailed { type_id: t, cause });
                },
            }
            i = i + 1;
        }
        self.plan = plan;
        self.phase = Phase::Composed;
        Ok(())
    }
}

impl<V: ComponentLifecycle> ComponentRepository<V> {
    /// Runs the stop hooks of the components at the positions in `order`, in
    /// that order, and returns what each of them returned.
    fn run_stops(&mut self, order: &Vec<usize>) -> (res: Vec<Result<(), String>>)
        requires
            forall|q: int| 0 <= q < order@.len() ==> (#[trigger] order@[q] as int) < old(self).slots@.len(),
            old(self).stop_calls@.len() == 0,
        ensures
            final(self).metas == old(self).metas,
            final(self).plan == old(self).plan,
            final(self).slots == old(self).slots,
            final(self).phase == old(self).phase,
            final(self).started == old(self).started,
            final(self).start_calls == old(self).start_calls,
            final(self).stop_calls@.len() == order@.len(),
            forall|q: int|
                0 <= q < order@.len() ==> #[trigger] final(self).stop_calls@[q] == old(self).slots@[order@[q] as int].type_id,
            res@.len() == order@.len(),
    {
        let mut res: Vec<Result<(), String>> = Vec::new();
        let mut j: usize = 0;
        while j < order.len()
            invariant
                j <= order@.len(),
                forall|q: int| 0 <= q < order@.len() ==> (#[trigger] order@[q] as int) < self.slots@.len(),
                self.metas == old(self).metas,
                self.plan == old(self).plan,
                self.slots == old(self).slots,
                self.phase == old(self).phase,
                self.started == old(self).started,
                self.start_calls == old(self).start_calls,
                self.stop_calls@.len() == j,
                forall|q: int| 0 <= q < j ==> #[trigger] self.stop_calls@[q] == self.slots@[order@[q] as int].type_id,
                res@.len() == j,
            decreases order@.len() - j,
        {
            let idx = order[j];
            let t = self.slots[idx].type_id;
            res.push(self.slots[idx].value.stop());
            self.stop_calls.push(t);
            j = j + 1;
        }
        res
    }

    /// Runs the start hook of every component that has one, in build order.
    /// When one fails, the components already started are stopped, in
    /// reverse order, and the failure is returned.
    pub fn start_all(&mut self) -> (r: Result<(), ContainerError>)
        requires
            old(self).wf(),
        ensures
            final(self).wf(),
            final(self).spec_metas() == old(self).spec_metas(),
            final(self).spec_slots() == old(self).spec_slots(),
            old(self).spec_phase() != Phase::Composed ==> (r matches Err(
                ContainerError::LifecycleMisuse(p),
            ) && p == old(self).spec_phase() && final(self).spec_phase() == old(self).spec_phase()
                && final(self).spec_start_calls() == old(self).spec_start_calls()
                && final(self).spec_stop_calls() == old(self).spec_stop_calls()),
            old(self).spec_phase() == Phase::Composed ==> match r {
                Ok(()) => started_after(*old(self), *final(self)),
                Err(ContainerError::StartFailed { type_id, cause }) => {
                    &&& final(self).spec_phase() == Phase::Stopped
                    &&& exists|i: int|
                        0 <= i < old(self).spec_slots().len() && old(self).spec_slots()[i].type_id == type_id
                            && old(self).spec_slots()[i].hooks && final(self).spec_start_calls()
                            == hooked_prefix(old(self).spec_slots(), i)
                    &&& final(self).spec_stop_calls() == final(self).spec_start_calls().reverse()
                },
                Err(_) => false,
            },
            old(self).spec_phase() == Phase::Composed && old(self).hooked().len() == 0 ==> r is Ok,
    {
        if self.phase != Phase::Composed {
            return Err(ContainerError::LifecycleMisuse(self.phase));
        }
        let ghost s0 = *self;
        let n = self.slots.len();
        let mut i: usize = 0;
        while i < n
            invariant
                n == self.slots@.len(),
                i <= n,
                s0.wf(),
                self.started@.len() == self.start_calls@.len(),
                forall|q: int|
                    0 <= q < self.started@.len() ==> (#[trigger] self.started@[q] as int) < self.slots@.len()
                        && self.slots@[self.started@[q] as int].type_id == self.start_calls@[q],
                self.metas == s0.metas,
                self.plan == s0.plan,
                self.slots == s0.slots,
                self.phase == Phase::Composed,
                old(self).phase == Phase::Composed,
                *old(self) == s0,
                self.start_calls@ == hooked_prefix(s0.slots@, i as int),
                self.stop_calls@.len() == 0,
            decreases n - i,
        {
            if self.slots[i].hooks {
                let t = self.slots[i].type_id;
                let res = self.slots[i].value.start();
                let ghost res0 = res;
                match after_start(&self.started, t, res) {
                    StartStep::Next => {
                        self.started.push(i);
                        self.start_calls.push(t);
                        assert forall|q: int|
                            0 <= q < self.started@.len() implies (#[trigger] self.started@[q] as int) < self.slots@.len()
                                && self.slots@[self.started@[q] as int].type_id == self.start_calls@[q] by {
                        }
                    },
                    StartStep::Abort { stop, error } => {
                        proof {
                            if s0.hooked().len() == 0 {
                                lemma_hooked_prefix_empty(s0.slots@, n as int, i as int);
                            }
                            assert forall|q: int| 0 <= q < stop@.len() implies (#[trigger] stop@[q] as int) < self.slots@.len() by {
                                assert(stop@[q] == self.started@[self.started@.len() - 1 - q]);
                            }
                        }
                        self.run_stops(&stop);
                        self.phase = Phase::Stopped;
                        assert(s0.spec_slots()[i as int] == self.slots@[i as int]);
                        assert(self.stop_calls@ =~= self.start_calls@.reverse()) by {
                            assert forall|q: int| 0 <= q < self.stop_calls@.len() implies #[trigger] self.stop_calls@[q]
                                == self.start_calls@.reverse()[q] by {
                                assert(stop@[q] == self.started@[self.started@.len() - 1 - q]);
                            }
                        }
                        return Err(error);
                    },
                }
            }
            i = i + 1;
        }
        self.phase = Phase::Started;
        assert(self.slots_follow_plan() <==> s0.slots_follow_plan());
        Ok(())
    }

    /// Runs the stop hook of every started component, in the reverse of the
    /// order in which they started. A failing hook does not stop the
    /// shutdown: all failures are returned together at the end.
    pub fn stop_all(&mut self) -> (r: Result<(), ContainerError>)
        requires
            old(self).wf(),
        ensures
            final(self).wf(),
            final(self).spec_metas() == old(self).spec_metas(),
            final(self).spec_slots() == old(self).spec_slots(),
            old(self).spec_phase() != Phase::Started ==> (r matches Err(
                ContainerError::LifecycleMisuse(p),
            ) && p == old(self).spec_phase() && final(self).spec_phase() == old(self).spec_phase()
                && final(self).spec_start_calls() == old(self).spec_start_calls()
                && final(self).spec_stop_calls() == old(self).spec_stop_calls()),
            old(self).spec_phase() == Phase::Started ==> stopped_after(*old(self), *final(self))
                && exists|res: Seq<Result<(), String>>| stop_outcome(final(self).spec_stop_calls(), res, r),
            old(self).spec_phase() == Phase::Started && old(self).spec_start_calls().len() == 0 ==> r is Ok,
    {
        if self.phase != Phase::Started {
            return Err(ContainerError::LifecycleMisuse(self.phase));
        }
        let order = reversed(&self.started);
        proof {
            assert forall|q: int| 0 <= q < order@.len() implies (#[trigger] order@[q] as int) < self.slots@.len() by {
                assert(order@[q] == self.started@[self.started@.len() - 1 - q]);
            }
        }
        let res = self.run_stops(&order);
        self.phase = Phase::Stopped;
        assert(self.stop_calls@ =~= self.start_calls@.reverse()) by {
            assert forall|q: int| 0 <= q < self.stop_calls@.len() implies #[trigger] self.stop_calls@[q]
                == self.start_calls@.reverse()[q] by {
                assert(order@[q] == self.started@[self.started@.len() - 1 - q]);
            }
        }
        let r = stop_report(&self.stop_calls, &res);
        assert(stop_outcome(self.stop_calls@, res@, r));
        r
    }
}

} // verus!
