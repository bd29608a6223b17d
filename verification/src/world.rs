//! The world: one storage for every component type, the scheduler, and the
//! current tick.

use crate::component::{Destroyed, COMPONENT_CAP, DESTROYED_ID, ENTITY_ID, FIRST_FREE_ID};
use crate::entity::Entity;
use crate::error::EcsError;
use crate::frame::Frame;
use crate::history::{
    after_rollback_model, after_sweep, every_slot, no_diffs, none_changed, JournalModel, Model,
};
use crate::pool::empty_table;
use crate::scheduler::Scheduler;
use crate::storage::{Level, NodeMasks, Storage, StorageLike};
use crate::system::{
    are_builtin_groups, builtin_groups, doomed_slots, is_cleanup_of, is_temporary_cleanup_of,
    ComponentCleanupSystem, SystemKind, TemporaryComponentCleanupSystem, DESTROY_GROUP,
};
use crate::tick::Tick;
use vstd::prelude::*;

verus! {

/// The registry of the storages of a simulation.
///
/// The entity storage has the identifier 0 and the destroyed markers the
/// identifier 1. Every other component type has an identifier from 2 to
/// 255 and stores values of the type `T`; its storage is made when it is
/// first asked for.
pub struct World<T> {
    pub entities: Storage<Entity>,
    pub destroyed: Storage<Destroyed>,
    /// The storage of component `id`, for the identifiers from 2 on.
    pub components: Vec<Option<Storage<T>>>,
    pub current_tick: Tick,
    pub scheduler: Scheduler,
}

impl<T> World<T> {
    /// Every storage and the scheduler are sound, and the reserved identifiers have no storage among the components.
    pub open spec fn wf(&self) -> bool {
        &&& self.entities.wf()
        &&& self.destroyed.wf()
        &&& self.components.len() == 256
        &&& self.components[0].is_none()
        &&& self.components[1].is_none()
        &&& forall|id: int|
            0 <= id < 256 && (#[trigger] self.components[id]).is_some() ==> self.components[id].unwrap().wf()
        &&& self.scheduler.wf()
    }

    /// Component `id` holds a value at slot `c` of chunk `p` of page `s`.
    pub open spec fn has3(&self, id: u32, s: int, p: int, c: int) -> bool {
        if id == ENTITY_ID {
            self.entities.slot3(s, p, c).is_some()
        } else if id == DESTROYED_ID {
            self.destroyed.slot3(s, p, c).is_some()
        } else if id < 256 {
            match self.components[id as int] {
                Some(st) => st.slot3(s, p, c).is_some(),
                None => false,
            }
        } else {
            false
        }
    }

    /// Component `id` holds, at that slot, a value written since the last
    /// clear.
    pub open spec fn marked3(&self, id: u32, s: int, p: int, c: int) -> bool {
        if id == ENTITY_ID {
            self.entities.slot_changed3(s, p, c)
        } else if id == DESTROYED_ID {
            self.destroyed.slot_changed3(s, p, c)
        } else if id < 256 {
            match self.components[id as int] {
                Some(st) => st.slot_changed3(s, p, c),
                None => false,
            }
        } else {
            false
        }
    }

    /// The three masks that the storage of component `id` keeps at a node,
    /// all zero where there is no such storage or no such node.
    pub open spec fn node_masks(&self, id: u32, level: Level) -> NodeMasks {
        if id == ENTITY_ID {
            self.entities.node_masks(level)
        } else if id == DESTROYED_ID {
            self.destroyed.node_masks(level)
        } else if id < 256 {
            match self.components[id as int] {
                Some(st) => st.node_masks(level),
                None => NodeMasks { presence: 0, fullness: 0, changed: 0 },
            }
        } else {
            NodeMasks { presence: 0, fullness: 0, changed: 0 }
        }
    }

    /// The masks of one node of the storage of component `id`, all zero
    /// where there is no such storage.
    pub fn masks_at(&self, id: u32, level: Level) -> (m: NodeMasks)
        requires
            self.wf(),
            level.valid(),
        ensures
            m == self.node_masks(id, level),
            forall|s: int, p: int, c: int|
                level.covers(s, p, c) ==> #[trigger] level.sound(
                    m,
                    self.has3(id, s, p, c),
                    self.marked3(id, s, p, c),
                    s,
                    p,
                    c,
                ),
    {
        let zero = NodeMasks { presence: 0, fullness: 0, changed: 0 };
        proof {
            crate::bits::lemma_zero_mask(0);
        }
        if id == ENTITY_ID {
            let m = self.entities.masks_at(level);
            proof {
                assert forall|s: int, p: int, c: int| level.covers(s, p, c) implies #[trigger] level.sound(
                    m,
                    self.has3(id, s, p, c),
                    self.marked3(id, s, p, c),
                    s,
                    p,
                    c,
                ) by {
                    assert(self.entities.masks_sound(level, m, s, p, c));
                }
            }
            m
        } else if id == DESTROYED_ID {
            let m = self.destroyed.masks_at(level);
            proof {
                assert forall|s: int, p: int, c: int| level.covers(s, p, c) implies #[trigger] level.sound(
                    m,
                    self.has3(id, s, p, c),
                    self.marked3(id, s, p, c),
                    s,
                    p,
                    c,
                ) by {
                    assert(self.destroyed.masks_sound(level, m, s, p, c));
                }
            }
            m
        } else if id < COMPONENT_CAP {
            match &self.components[id as usize] {
                Some(st) => {
                    let m = st.masks_at(level);
                    proof {
                        assert forall|s: int, p: int, c: int| level.covers(s, p, c) implies #[trigger] level.sound(
                            m,
                            self.has3(id, s, p, c),
                            self.marked3(id, s, p, c),
                            s,
                            p,
                            c,
                        ) by {
                            assert(st.masks_sound(level, m, s, p, c));
                        }
                    }
                    m
                },
                None => zero,
            }
        } else {
            zero
        }
    }
}

/// One storage as a value: its model, and which slots count as written.
pub struct StorageState<U> {
    pub model: Model<U>,
    pub changed: Seq<bool>,
}

/// The storages of a world as a value.
pub struct WorldState<T> {
    pub entities: StorageState<Entity>,
    pub destroyed: StorageState<Destroyed>,
    /// The storage of component `id`, where there is one.
    pub components: Seq<Option<StorageState<T>>>,
}

/// The slots that the destroyed markers mark.
pub open spec fn marked_slots(destroyed: Seq<Option<Destroyed>>) -> Seq<bool> {
    Seq::new(262144, |i: int| destroyed[i].is_some())
}

/// A storage without a value.
pub open spec fn nothing<U>() -> Seq<Option<U>> {
    Seq::new(262144, |i: int| None::<U>)
}

/// A storage after a cleanup under `tick`: the occupied slots that
/// `doomed` marks are removed, lowest first, each removal journaled, and
/// no slot counts as written any more.
pub open spec fn cleaned<U>(st: StorageState<U>, doomed: Seq<bool>, tick: u32) -> StorageState<U> {
    StorageState { model: after_sweep(st.model, doomed, tick), changed: none_changed() }
}

/// The state after one system had its turn in tick `tick`. A component
/// cleanup removes its component from the slots that are marked destroyed;
/// a temporary cleanup, and the cleanup of the markers themselves, removes
/// every value of its component; a user system is the caller's and changes
/// nothing here.
pub open spec fn builtin_step<T>(st: WorldState<T>, kind: SystemKind, tick: u32) -> WorldState<T> {
    let marks = marked_slots(st.destroyed.model.state);
    match kind {
        SystemKind::User => st,
        SystemKind::ComponentCleanup(c) => {
            if c == ENTITY_ID {
                WorldState { entities: cleaned(st.entities, marks, tick), ..st }
            } else if c == DESTROYED_ID {
                WorldState { destroyed: cleaned(st.destroyed, every_slot(), tick), ..st }
            } else if c < 256 && st.components[c as int].is_some() {
                WorldState {
                    components: st.components.update(
                        c as int,
                        Some(cleaned(st.components[c as int].unwrap(), marks, tick)),
                    ),
                    ..st
                }
            } else {
                st
            }
        },
        SystemKind::TemporaryCleanup(c) => {
            if c == ENTITY_ID {
                WorldState { entities: cleaned(st.entities, every_slot(), tick), ..st }
            } else if c == DESTROYED_ID {
                WorldState { destroyed: cleaned(st.destroyed, every_slot(), tick), ..st }
            } else if c < 256 && st.components[c as int].is_some() {
                WorldState {
                    components: st.components.update(
                        c as int,
                        Some(cleaned(st.components[c as int].unwrap(), every_slot(), tick)),
                    ),
                    ..st
                }
            } else {
                st
            }
        },
    }
}

/// The state after the systems had their turns in tick `tick`, one after
/// the other.
pub open spec fn run_steps<T>(st: WorldState<T>, kinds: Seq<SystemKind>, tick: u32) -> WorldState<T>
    decreases kinds.len(),
{
    if kinds.len() == 0 {
        st
    } else {
        builtin_step(run_steps(st, kinds.drop_last(), tick), kinds.last(), tick)
    }
}

/// The first `n` wavefronts, one after the other.
pub open spec fn flattened(waves: Seq<Vec<usize>>, n: int) -> Seq<usize>
    decreases n,
{
    if n <= 0 {
        Seq::empty()
    } else {
        flattened(waves, n - 1) + waves[n - 1]@
    }
}

/// What the world does for the system at a position of the schedule;
/// nothing for a position that names no system.
pub open spec fn kind_of(scheduler: &Scheduler, idx: usize) -> SystemKind {
    if idx < scheduler.systems@.len() {
        scheduler.systems@[idx as int].kind
    } else {
        SystemKind::User
    }
}

/// What the world does for each system of an order of the schedule.
pub open spec fn turns(scheduler: &Scheduler, order: Seq<usize>) -> Seq<SystemKind> {
    Seq::new(order.len(), |k: int| kind_of(scheduler, order[k]))
}

/// A storage as a value.
pub open spec fn storage_state<U>(st: Storage<U>) -> StorageState<U> {
    StorageState { model: st.model(), changed: st.changed() }
}

impl<T> World<T> {
    /// The storages as a value.
    pub open spec fn state(&self) -> WorldState<T> {
        WorldState {
            entities: storage_state(self.entities),
            destroyed: storage_state(self.destroyed),
            components: Seq::new(
                256,
                |id: int|
                    match self.components[id] {
                        Some(st) => Some(storage_state(st)),
                        None => None,
                    },
            ),
        }
    }


    /// No slot of any storage counts as written.
    pub open spec fn changed_clear(&self) -> bool {
        &&& self.entities.changed_mask == 0
        &&& self.destroyed.changed_mask == 0
        &&& forall|id: int|
            0 <= id < 256 && (#[trigger] self.components[id]).is_some() ==> self.components[id].unwrap().changed_mask
                == 0
    }

    /// A world at tick zero with the entity storage and the destroyed
    /// markers, the four built-in groups, the cleanup system of the
    /// entities and the system that clears the markers.
    pub fn new() -> (world: Self)
        ensures
            world.wf(),
            world.current_tick == Tick(0),
            world.entities@ == nothing::<Entity>(),
            world.entities.journals() == seq![
                JournalModel { tick: 0, saved_generation: 0, diffs: no_diffs::<Entity>() },
            ],
            world.entities.generation == 0,
            world.entities.changed_mask == 0,
            world.entities.changed() == none_changed(),
            world.destroyed@ == nothing::<Destroyed>(),
            world.destroyed.journals() == seq![
                JournalModel { tick: 0, saved_generation: 0, diffs: no_diffs::<Destroyed>() },
            ],
            world.destroyed.generation == 0,
            world.destroyed.changed_mask == 0,
            world.destroyed.changed() == none_changed(),
            forall|id: int| 0 <= id < 256 ==> (#[trigger] world.components[id]).is_none(),
            world.scheduler.systems@.len() == 2,
            is_cleanup_of(world.scheduler.systems@[0], ENTITY_ID),
            is_temporary_cleanup_of(world.scheduler.systems@[1], DESTROYED_ID, DESTROY_GROUP),
            are_builtin_groups(world.scheduler.groups@),
            world.scheduler.wavefronts@.len() == 0,
    {
        let mut scheduler = Scheduler::new();
        let mut groups = builtin_groups();
        let ghost all = groups@;
        while groups.len() > 0
            invariant
                scheduler.wf(),
                scheduler.systems@.len() == 0,
                scheduler.groups@.len() + groups@.len() == 4,
                are_builtin_groups(all),
                scheduler.groups@ + groups@ == all,
            decreases groups@.len(),
        {
            let ghost rest = groups@;
            let ghost done = scheduler.groups@;
            let g = groups.remove(0);
            scheduler.add_group_info(g);
            proof {
                assert(scheduler.groups@ + groups@ =~= done + rest);
            }
        }
        proof {
            assert(scheduler.groups@ =~= all);
        }
        let _first = scheduler.add_system_info(ComponentCleanupSystem::new(ENTITY_ID).info());
        let _second = scheduler.add_system_info(
            TemporaryComponentCleanupSystem::new(DESTROYED_ID, DESTROY_GROUP).info(),
        );
        let world = World {
            entities: Storage::new(),
            destroyed: Storage::new(),
            components: empty_table::<Storage<T>>(256),
            current_tick: Tick(0),
            scheduler,
        };
        world
    }
}

impl<T> World<T> {
    /// The scheduler, to read the wavefronts.
    pub fn scheduler(&self) -> (s: &Scheduler)
        ensures
            *s == self.scheduler,
    {
        &self.scheduler
    }

    /// The scheduler, to add systems and groups and to build the wavefronts.
    pub fn scheduler_mut(&mut self) -> (s: &mut Scheduler)
        ensures
            *s == old(self).scheduler,
            final(self).scheduler == *final(s),
            final(self).entities == old(self).entities,
            final(self).destroyed == old(self).destroyed,
            final(self).components == old(self).components,
            final(self).current_tick == old(self).current_tick,
    {
        &mut self.scheduler
    }

    /// The tick that the world is at.
    pub fn current_tick(&self) -> (t: Tick)
        ensures
            t == self.current_tick,
    {
        self.current_tick
    }

    /// Moves the world to another tick; the storages follow with their next change.
    pub fn set_tick(&mut self, tick: Tick)
        ensures
            final(self).current_tick == tick,
            final(self).entities == old(self).entities,
            final(self).destroyed == old(self).destroyed,
            final(self).components == old(self).components,
            final(self).scheduler == old(self).scheduler,
    {
        self.current_tick = tick;
    }

    /// The entity storage.
    pub fn get_entity_storage(&mut self) -> (r: &mut Storage<Entity>)
        ensures
            *r == old(self).entities,
            final(self).entities == *final(r),
            final(self).destroyed == old(self).destroyed,
            final(self).components == old(self).components,
            final(self).current_tick == old(self).current_tick,
            final(self).scheduler == old(self).scheduler,
    {
        &mut self.entities
    }

    /// The storage of the destroyed markers.
    pub fn get_destroyed_storage(&mut self) -> (r: &mut Storage<Destroyed>)
        ensures
            *r == old(self).destroyed,
            final(self).destroyed == *final(r),
            final(self).entities == old(self).entities,
            final(self).components == old(self).components,
            final(self).current_tick == old(self).current_tick,
            final(self).scheduler == old(self).scheduler,
    {
        &mut self.destroyed
    }

    /// The storage of component `id`, where it was made already.
    pub fn get_storage(&self, id: u32) -> (r: Option<&Storage<T>>)
        requires
            self.wf(),
        ensures
            r.is_some() == (id < 256 && self.components[id as int].is_some()),
            r.is_some() ==> *r.unwrap() == self.components[id as int].unwrap(),
    {
        if id >= COMPONENT_CAP {
            return None;
        }
        self.components[id as usize].as_ref()
    }

    /// The storage of component `id`. The first call for a component makes
    /// its storage, empty, and schedules the cleanup system that removes
    /// the component from destroyed entities.
    pub fn get_storage_mut(&mut self, id: u32) -> (r: &mut Storage<T>)
        requires
            old(self).wf(),
            FIRST_FREE_ID <= id < COMPONENT_CAP,
        ensures
            r.wf(),
            old(self).components[id as int].is_some() ==> *r == old(self).components[id as int].unwrap(),
            old(self).components[id as int].is_some() ==> final(self).scheduler == old(self).scheduler,
            old(self).components[id as int].is_none() ==> r@ == nothing::<T>() && r.changed_mask == 0
                && r.generation == 0 && r.journals() == seq![
                JournalModel { tick: 0, saved_generation: 0, diffs: no_diffs::<T>() },
            ],
            old(self).components[id as int].is_none() ==> final(self).scheduler.cleanup_added(
                &old(self).scheduler,
                id,
            ),
            final(self).components@ == old(self).components@.update(id as int, Some(*final(r))),
            final(self).entities == old(self).entities,
            final(self).destroyed == old(self).destroyed,
            final(self).current_tick == old(self).current_tick,
    {
        if self.components[id as usize].is_none() {
            self.components[id as usize] = Some(Storage::new());
            let _index = self.scheduler.add_system_info(ComponentCleanupSystem::new(id).info());
            proof {
                assert(self.components[id as int].unwrap()@ =~= nothing::<T>());
            }
        }
        self.components[id as usize].as_mut().unwrap()
    }
}

impl<T> World<T> {
    /// Gives one system of the schedule its turn.
    pub fn run_builtin(&mut self, kind: SystemKind, frame: &Frame)
        requires
            old(self).wf(),
        ensures
            final(self).wf(),
            final(self).state() == builtin_step(old(self).state(), kind, frame.current_tick.0),
            final(self).scheduler == old(self).scheduler,
            final(self).current_tick == old(self).current_tick,
    {
        match kind {
            SystemKind::User => {},
            SystemKind::ComponentCleanup(c) => {
                if c == ENTITY_ID {
                    ComponentCleanupSystem::cleanup_destroyed_components(
                        &mut self.entities,
                        &self.destroyed,
                        frame,
                    );
                } else if c == DESTROYED_ID {
                    TemporaryComponentCleanupSystem::cleanup_storage(&mut self.destroyed, frame);
                } else if c < COMPONENT_CAP {
                    match &mut self.components[c as usize] {
                        Some(st) => {
                            ComponentCleanupSystem::cleanup_destroyed_components(st, &self.destroyed, frame);
                        },
                        None => {},
                    }
                }
            },
            SystemKind::TemporaryCleanup(c) => {
                if c == ENTITY_ID {
                    TemporaryComponentCleanupSystem::cleanup_storage(&mut self.entities, frame);
                } else if c == DESTROYED_ID {
                    TemporaryComponentCleanupSystem::cleanup_storage(&mut self.destroyed, frame);
                } else if c < COMPONENT_CAP {
                    match &mut self.components[c as usize] {
                        Some(st) => {
                            TemporaryComponentCleanupSystem::cleanup_storage(st, frame);
                        },
                        None => {},
                    }
                }
            },
        }
        proof {
            let marks = marked_slots(old(self).destroyed@);
            assert(doomed_slots(Some(&old(self).destroyed)) =~= marks);
            let expect = builtin_step(old(self).state(), kind, frame.current_tick.0);
            assert(self.state().components =~= expect.components);
        }
    }

    /// Advances the tick by one and gives every system of the schedule its
    /// turn, wavefront by wavefront. The built-in systems do their work;
    /// the turn of a user system is the caller's to take.
    pub fn run(&mut self)
        requires
            old(self).wf(),
        ensures
            final(self).wf(),
            final(self).current_tick == Tick(
                if old(self).current_tick.0 == u32::MAX {
                    0u32
                } else {
                    (old(self).current_tick.0 + 1) as u32
                },
            ),
            final(self).scheduler == old(self).scheduler,
            final(self).state() == run_steps(
                old(self).state(),
                turns(
                    &old(self).scheduler,
                    flattened(old(self).scheduler.wavefronts@, old(self).scheduler.wavefronts@.len() as int),
                ),
                final(self).current_tick.0,
            ),
    {
        self.current_tick = self.current_tick.next();
        let frame = Frame::new(self.current_tick);
        let ghost s0 = old(self).state();
        let ghost sch = old(self).scheduler;
        let ghost waves = old(self).scheduler.wavefronts@;
        proof {
            assert(self.state().components =~= s0.components);
            assert(turns(&sch, flattened(waves, 0)) =~= Seq::<SystemKind>::empty());
        }
        let mut k: usize = 0;
        while k < self.scheduler.wavefronts.len()
            invariant
                self.wf(),
                self.scheduler == sch,
                waves == sch.wavefronts@,
                self.current_tick == frame.current_tick,
                k <= waves.len(),
                self.state() == run_steps(s0, turns(&sch, flattened(waves, k as int)), frame.current_tick.0),
            decreases waves.len() - k,
        {
            let mut i: usize = 0;
            proof {
                assert(flattened(waves, k as int) + waves[k as int]@.take(0) =~= flattened(waves, k as int));
            }
            while i < self.scheduler.wavefronts[k].len()
                invariant
                    self.wf(),
                    self.scheduler == sch,
                    waves == sch.wavefronts@,
                    self.current_tick == frame.current_tick,
                    k < waves.len(),
                    i <= waves[k as int]@.len(),
                    self.state() == run_steps(
                        s0,
                        turns(&sch, flattened(waves, k as int) + waves[k as int]@.take(i as int)),
                        frame.current_tick.0,
                    ),
                decreases waves[k as int]@.len() - i,
            {
                let idx = self.scheduler.wavefronts[k][i];
                let kind = if idx < self.scheduler.systems.len() {
                    self.scheduler.systems[idx].kind
                } else {
                    SystemKind::User
                };
                self.run_builtin(kind, &frame);
                proof {
                    let done = flattened(waves, k as int) + waves[k as int]@.take(i as int);
                    let more = flattened(waves, k as int) + waves[k as int]@.take(i as int + 1);
                    assert(more =~= done.push(idx));
                    assert(turns(&sch, more) =~= turns(&sch, done).push(kind));
                    assert(turns(&sch, more).drop_last() =~= turns(&sch, done));
                }
                i += 1;
            }
            proof {
                assert(waves[k as int]@.take(waves[k as int]@.len() as int) =~= waves[k as int]@);
            }
            k += 1;
        }
    }

    /// Checks, on any value of the type, the invariants of every storage
    /// and of every journal.
    pub fn verify_invariants(&self) -> (ok: bool)
        ensures
            ok == self.wf(),
    {
        if !self.entities.verify_invariants() || !self.destroyed.verify_invariants() {
            return false;
        }
        if self.components.len() != 256 {
            return false;
        }
        if self.components[0].is_some() || self.components[1].is_some() {
            return false;
        }
        if self.scheduler.systems.len() >= usize::MAX || self.scheduler.groups.len() >= usize::MAX {
            return false;
        }
        let mut id: usize = 0;
        while id < 256
            invariant
                id <= 256,
                self.components.len() == 256,
                forall|q: int|
                    0 <= q < id && (#[trigger] self.components[q]).is_some() ==> self.components[q].unwrap().wf(),
            decreases 256 - id,
        {
            match &self.components[id] {
                Some(st) => {
                    if !st.verify_invariants() {
                        return false;
                    }
                },
                None => {},
            }
            id += 1;
        }
        true
    }

    /// Checks the world as `verify_invariants` does and reports a violation
    /// as an error.
    pub fn check_invariants(&self) -> (r: Result<(), EcsError>)
        ensures
            self.wf() ==> r.is_ok(),
            !self.wf() ==> r == Err::<(), EcsError>(EcsError::InvariantViolation),
    {
        if self.verify_invariants() {
            Ok(())
        } else {
            Err(EcsError::InvariantViolation)
        }
    }

    /// Checks the invariants and, besides, that no slot of any storage
    /// counts as written, as is the case once the cleanup systems have run.
    pub fn verify_settled(&self) -> (ok: bool)
        ensures
            ok == (self.wf() && self.changed_clear()),
    {
        if !self.verify_invariants() {
            return false;
        }
        if !StorageLike::verify_invariants(&self.entities) || !StorageLike::verify_invariants(&self.destroyed) {
            return false;
        }
        let mut id: usize = 0;
        while id < 256
            invariant
                id <= 256,
                self.wf(),
                forall|q: int|
                    0 <= q < id && (#[trigger] self.components[q]).is_some() ==> self.components[q].unwrap().changed_mask
                        == 0,
            decreases 256 - id,
        {
            match &self.components[id] {
                Some(st) => {
                    if !StorageLike::verify_invariants(st) {
                        return false;
                    }
                },
                None => {},
            }
            id += 1;
        }
        true
    }

    /// Every storage retains a journal that is not tagged later than
    /// `target`, so that a rollback to `target` is within its window.
    pub open spec fn reaches(&self, target: u32) -> bool {
        &&& self.entities.journals()[0].tick <= target
        &&& self.destroyed.journals()[0].tick <= target
        &&& forall|id: int|
            0 <= id < 256 && (#[trigger] self.components[id]).is_some() ==> self.components[id].unwrap().journals()[0].tick
                <= target
    }

    /// Whether a rollback to `target` is within the window of every storage.
    pub fn can_rollback(&self, target_tick: Tick) -> (ok: bool)
        requires
            self.wf(),
        ensures
            ok == self.reaches(target_tick.0),
    {
        if self.entities.oldest_tick().0 > target_tick.0 || self.destroyed.oldest_tick().0 > target_tick.0 {
            return false;
        }
        let mut id: usize = 0;
        while id < 256
            invariant
                id <= 256,
                self.components.len() == 256,
                forall|q: int|
                    0 <= q < id && (#[trigger] self.components[q]).is_some() ==> self.components[q].unwrap().journals()[0].tick
                        <= target_tick.0,
            decreases 256 - id,
        {
            match &self.components[id] {
                Some(st) => {
                    if st.oldest_tick().0 > target_tick.0 {
                        return false;
                    }
                },
                None => {},
            }
            id += 1;
        }
        true
    }

    /// Storage `now` is storage `was` rolled back to `target`.
    pub open spec fn rolled<U>(now: &Storage<U>, was: &Storage<U>, target: u32) -> bool {
        &&& now.wf()
        &&& now.model() == after_rollback_model(was.model(), target)
        &&& now.changed() == none_changed()
        &&& now.changed_mask == 0
    }

    /// Takes every storage back to the end of tick `target`, and the tick of
    /// the world with them. Where the target lies before the window of one
    /// of the storages, the rollback is refused and nothing changes.
    pub fn rollback(&mut self, target_tick: Tick) -> (r: Result<(), EcsError>)
        requires
            old(self).wf(),
        ensures
            final(self).wf(),
            !old(self).reaches(target_tick.0) ==> r == Err::<(), EcsError>(EcsError::RollbackBeyondWindow)
                && *final(self) == *old(self),
            old(self).reaches(target_tick.0) ==> r.is_ok() && final(self).current_tick == target_tick && final(self).scheduler == old(self).scheduler && Self::rolled(
                &final(self).entities,
                &old(self).entities,
                target_tick.0,
            ) && Self::rolled(&final(self).destroyed, &old(self).destroyed, target_tick.0) && forall|id: int|
                0 <= id < 256 ==> (#[trigger] final(self).components[id]).is_some() == old(self).components[id].is_some()
                    && (old(self).components[id].is_some() ==> Self::rolled(
                    &final(self).components[id].unwrap(),
                    &old(self).components[id].unwrap(),
                    target_tick.0,
                )),
    {
        if !self.can_rollback(target_tick) {
            return Err(EcsError::RollbackBeyondWindow);
        }
        let _entities = self.entities.rollback(target_tick);
        let _destroyed = self.destroyed.rollback(target_tick);
        let mut id: usize = 0;
        while id < 256
            invariant
                id <= 256,
                old(self).wf(),
                old(self).reaches(target_tick.0),
                self.components.len() == 256,
                self.entities.wf(),
                self.destroyed.wf(),
                self.scheduler == old(self).scheduler,
                Self::rolled(&self.entities, &old(self).entities, target_tick.0),
                Self::rolled(&self.destroyed, &old(self).destroyed, target_tick.0),
                forall|q: int| 0 <= q < 256 ==> (#[trigger] self.components[q]).is_some() == old(self).components[q].is_some(),
                forall|q: int|
                    0 <= q < id && (#[trigger] self.components[q]).is_some() ==> Self::rolled(
                        &self.components[q].unwrap(),
                        &old(self).components[q].unwrap(),
                        target_tick.0,
                    ),
                forall|q: int| id <= q < 256 ==> (#[trigger] self.components[q]) == old(self).components[q],
            decreases 256 - id,
        {
            match &mut self.components[id] {
                Some(st) => {
                    let _done = st.rollback(target_tick);
                },
                None => {},
            }
            id += 1;
        }
        self.current_tick = target_tick;
        Ok(())
    }
}

impl<T> Default for World<T> {
    fn default() -> (world: Self)
        ensures
            world.wf(),
            world.current_tick == Tick(0),
    {
        World::new()
    }
}

} // verus!
