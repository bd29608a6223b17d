//! What a system and a group declare to the scheduler.
//!
//! Systems, groups and component types are named by small integers. A
//! system tells which component types it reads and writes, which systems it
//! wants to run before or after, and which group it belongs to. A group
//! tells which groups its members run before or after, and its own parent.

use crate::bits::lemma_mask_and;
use crate::component::{Destroyed, DESTROYED_ID};
use crate::frame::Frame;
use crate::history::{
    after_sweep, every_slot, lemma_swept_skip, none_changed, swept, swept_journals,
};
use crate::scan::{first_match, hit_at, lemma_coordinates, MaskTree};
use crate::storage::Storage;
use vstd::prelude::*;

verus! {

/// The group that runs first.
pub const INITIALIZATION_GROUP: u32 = 0xffff_ff00;

/// The group of the simulation proper; it runs after initialization.
pub const SIMULATION_GROUP: u32 = 0xffff_ff01;

/// The group of the cleanup systems; it runs after the simulation.
pub const CLEANUP_GROUP: u32 = 0xffff_ff02;

/// The group that clears the destroyed markers; it runs after cleanup.
pub const DESTROY_GROUP: u32 = 0xffff_ff03;

/// The identity of the cleanup system of component `0`; that of component
/// `c` is this number plus `c`.
pub const CLEANUP_SYSTEM_BASE: u32 = 0xffff_0000;

/// The identity of the system that clears the markers of component `0`.
pub const TEMPORARY_SYSTEM_BASE: u32 = 0xfffe_0000;

/// What the world does when a system's turn comes.
#[derive(Clone, Copy, Debug, PartialEq, Eq, Structural)]
pub enum SystemKind {
    /// The system's work is the caller's.
    User,
    /// Remove the component from every entity that is marked destroyed.
    ComponentCleanup(u32),
    /// Remove every value of the component.
    TemporaryCleanup(u32),
}

/// The declaration of one system.
pub struct SystemInfo {
    /// The identity that other systems name in their `before` and `after`.
    pub id: u32,
    pub reads: Vec<u32>,
    pub writes: Vec<u32>,
    pub before: Vec<u32>,
    pub after: Vec<u32>,
    /// The group that the system belongs to.
    pub parent: Option<u32>,
    pub kind: SystemKind,
}

impl SystemInfo {
    /// A user system that declares nothing yet.
    pub fn new(id: u32) -> (info: Self)
        ensures
            info.id == id,
            info.reads@.len() == 0,
            info.writes@.len() == 0,
            info.before@.len() == 0,
            info.after@.len() == 0,
            info.parent.is_none(),
            info.kind == SystemKind::User,
    {
        SystemInfo {
            id,
            reads: Vec::new(),
            writes: Vec::new(),
            before: Vec::new(),
            after: Vec::new(),
            parent: None,
            kind: SystemKind::User,
        }
    }

    /// The user system with the given identity that reads and writes the
    /// given component types, wants to run before and after the given
    /// systems, and belongs to the given group.
    pub fn declared(
        id: u32,
        reads: Vec<u32>,
        writes: Vec<u32>,
        before: Vec<u32>,
        after: Vec<u32>,
        parent: Option<u32>,
    ) -> (info: Self)
        ensures
            info.id == id,
            info.reads == reads,
            info.writes == writes,
            info.before == before,
            info.after == after,
            info.parent == parent,
            info.kind == SystemKind::User,
    {
        SystemInfo { id, reads, writes, before, after, parent, kind: SystemKind::User }
    }
}

/// The declaration of one group.
pub struct GroupInfo {
    pub id: u32,
    pub before: Vec<u32>,
    pub after: Vec<u32>,
    pub parent: Option<u32>,
}

impl GroupInfo {
    /// A group that declares nothing yet.
    pub fn new(id: u32) -> (info: Self)
        ensures
            info.id == id,
            info.before@.len() == 0,
            info.after@.len() == 0,
            info.parent.is_none(),
    {
        GroupInfo { id, before: Vec::new(), after: Vec::new(), parent: None }
    }

    /// The group with the given identity that is declared before and after
    /// the given groups and nested in the given one.
    pub fn declared(id: u32, before: Vec<u32>, after: Vec<u32>, parent: Option<u32>) -> (info: Self)
        ensures
            info.id == id,
            info.before == before,
            info.after == after,
            info.parent == parent,
    {
        GroupInfo { id, before, after, parent }
    }
}

/// A unit of work that the schedule orders.
pub trait System {
    /// Does the system's work for one tick.
    fn run(&self, frame: &Frame);

    /// The identity that other systems name in their `before` and `after`.
    fn id(&self) -> u32;

    /// The systems that this one wants to run before.
    fn before(&self) -> Vec<u32>;

    /// The systems that this one wants to run after.
    fn after(&self) -> Vec<u32>;

    /// The component types that the system reads.
    fn reads(&self) -> Vec<u32>;

    /// The component types that the system writes.
    fn writes(&self) -> Vec<u32>;

    /// The group that the system belongs to.
    fn parent(&self) -> Option<u32>;
}

/// A named scope that orders its members against those of other groups.
pub trait SystemGroup {
    fn id(&self) -> u32;

    /// The groups whose members run after the members of this one.
    fn before(&self) -> Vec<u32>;

    /// The groups whose members run before the members of this one.
    fn after(&self) -> Vec<u32>;

    /// The group that this one is nested in.
    fn parent(&self) -> Option<u32>;
}

/// The identity of the cleanup system of a component.
pub open spec fn cleanup_system_id(component: u32) -> u32 {
    ((CLEANUP_SYSTEM_BASE + component) % 0x1_0000_0000) as u32
}

/// The identity of the system that removes every value of a component.
pub open spec fn temporary_system_id(component: u32) -> u32 {
    ((TEMPORARY_SYSTEM_BASE + component) % 0x1_0000_0000) as u32
}

/// The declaration is that of the cleanup system of the component: it
/// reads the destroyed markers, writes the component, and belongs to the
/// cleanup group.
pub open spec fn is_cleanup_of(info: SystemInfo, component: u32) -> bool {
    &&& info.id == cleanup_system_id(component)
    &&& info.kind == SystemKind::ComponentCleanup(component)
    &&& info.reads@ == seq![DESTROYED_ID]
    &&& info.writes@ == seq![component]
    &&& info.before@.len() == 0
    &&& info.after@.len() == 0
    &&& info.parent == Some(CLEANUP_GROUP)
}

/// The declaration is that of the system that removes every value of the
/// component, in the given group: it writes the component.
pub open spec fn is_temporary_cleanup_of(info: SystemInfo, component: u32, group: u32) -> bool {
    &&& info.id == temporary_system_id(component)
    &&& info.kind == SystemKind::TemporaryCleanup(component)
    &&& info.reads@.len() == 0
    &&& info.writes@ == seq![component]
    &&& info.before@.len() == 0
    &&& info.after@.len() == 0
    &&& info.parent == Some(group)
}

/// The groups are the four built-in ones: initialization, then simulation,
/// then cleanup, then destroy, each declared after the one before it.
pub open spec fn are_builtin_groups(groups: Seq<GroupInfo>) -> bool {
    &&& groups.len() == 4
    &&& groups[0].id == INITIALIZATION_GROUP && groups[0].after@.len() == 0
    &&& groups[1].id == SIMULATION_GROUP && groups[1].after@ == seq![INITIALIZATION_GROUP]
    &&& groups[2].id == CLEANUP_GROUP && groups[2].after@ == seq![SIMULATION_GROUP]
    &&& groups[3].id == DESTROY_GROUP && groups[3].after@ == seq![CLEANUP_GROUP]
    &&& forall|k: int| 0 <= k < 4 ==> (#[trigger] groups[k]).before@.len() == 0 && groups[k].parent.is_none()
}

/// What a system declares, taken down once: each of its answers is asked
/// for one time and handed to `SystemInfo::declared`. The answers are the
/// system's own, so nothing but the kind is known of the result.
pub fn describe_system<S: System>(system: &S) -> (info: SystemInfo)
    ensures
        info.kind == SystemKind::User,
{
    let id: u32 = system.id();
    let reads = system.reads();
    let writes = system.writes();
    let before = system.before();
    let after = system.after();
    let parent = system.parent();
    SystemInfo::declared(id, reads, writes, before, after, parent)
}

/// What a group declares, taken down once: each of its answers is asked
/// for one time and handed to `GroupInfo::declared`. The answers are the
/// group's own, so nothing is known of the result.
pub fn describe_group<G: SystemGroup>(group: &G) -> (info: GroupInfo) {
    let id: u32 = group.id();
    let before = group.before();
    let after = group.after();
    let parent = group.parent();
    GroupInfo::declared(id, before, after, parent)
}

/// The four built-in groups: initialization, then simulation, then cleanup,
/// then destroy, each declared after the one before it.
pub fn builtin_groups() -> (groups: Vec<GroupInfo>)
    ensures
        are_builtin_groups(groups@),
{
    let mut groups: Vec<GroupInfo> = Vec::new();
    groups.push(GroupInfo::new(INITIALIZATION_GROUP));
    let mut simulation = GroupInfo::new(SIMULATION_GROUP);
    simulation.after.push(INITIALIZATION_GROUP);
    groups.push(simulation);
    let mut cleanup = GroupInfo::new(CLEANUP_GROUP);
    cleanup.after.push(SIMULATION_GROUP);
    groups.push(cleanup);
    let mut destroy = GroupInfo::new(DESTROY_GROUP);
    destroy.after.push(CLEANUP_GROUP);
    groups.push(destroy);
    proof {
        assert(groups[1].after@ =~= seq![INITIALIZATION_GROUP]);
        assert(groups[2].after@ =~= seq![SIMULATION_GROUP]);
        assert(groups[3].after@ =~= seq![CLEANUP_GROUP]);
    }
    groups
}

/// The occupied slots of a storage, as a tree to search.
pub struct Occupied<'a, U> {
    pub storage: &'a Storage<U>,
}

impl<'a, U> MaskTree for Occupied<'a, U> {
    open spec fn hit(&self, s: int, p: int, c: int) -> bool {
        self.storage.slot3(s, p, c).is_some()
    }

    open spec fn scan_wf(&self) -> bool {
        self.storage.tree_wf()
    }

    fn top_mask(&self) -> (m: u64) {
        self.storage.top_masks().presence
    }

    fn page_mask(&self, s: u32) -> (m: u64) {
        self.storage.page_masks(s).presence
    }

    fn chunk_mask(&self, s: u32, p: u32) -> (m: u64) {
        self.storage.chunk_masks(s, p).presence
    }
}

/// The occupied slots of a storage whose entity is marked destroyed, as a
/// tree to search.
pub struct Doomed<'a, U> {
    pub storage: &'a Storage<U>,
    pub destroyed: &'a Storage<Destroyed>,
}

impl<'a, U> MaskTree for Doomed<'a, U> {
    open spec fn hit(&self, s: int, p: int, c: int) -> bool {
        self.storage.slot3(s, p, c).is_some() && self.destroyed.slot3(s, p, c).is_some()
    }

    open spec fn scan_wf(&self) -> bool {
        self.storage.tree_wf() && self.destroyed.tree_wf()
    }

    fn top_mask(&self) -> (m: u64) {
        let a = self.storage.top_masks().presence;
        let b = self.destroyed.top_masks().presence;
        proof {
            lemma_mask_and(a, b);
        }
        a & b
    }

    fn page_mask(&self, s: u32) -> (m: u64) {
        let a = self.storage.page_masks(s).presence;
        let b = self.destroyed.page_masks(s).presence;
        proof {
            lemma_mask_and(a, b);
        }
        a & b
    }

    fn chunk_mask(&self, s: u32, p: u32) -> (m: u64) {
        let a = self.storage.chunk_masks(s, p).presence;
        let b = self.destroyed.chunk_masks(s, p).presence;
        proof {
            lemma_mask_and(a, b);
        }
        a & b
    }
}

/// Which slots a sweep empties: those marked destroyed, or all of them
/// where the sweep goes by no markers.
pub open spec fn doomed_slots(destroyed: Option<&Storage<Destroyed>>) -> Seq<bool> {
    match destroyed {
        Some(d) => Seq::new(262144, |i: int| d@[i].is_some()),
        None => every_slot(),
    }
}

/// Removes, lowest slot first and journaled under the frame's tick, every
/// value whose slot is marked destroyed, or every value where no markers
/// are given.
pub fn sweep<U>(storage: &mut Storage<U>, destroyed: Option<&Storage<Destroyed>>, frame: &Frame)
    requires
        old(storage).wf(),
        destroyed.is_some() ==> destroyed.unwrap().tree_wf(),
    ensures
        final(storage).wf(),
        final(storage).model() == after_sweep(old(storage).model(), doomed_slots(destroyed), frame.current_tick.0),
{
    let ghost s0 = storage@;
    let ghost j0 = storage.journals();
    let ghost doomed = doomed_slots(destroyed);
    let ghost tick = frame.current_tick.0;
    let ghost generation = storage.generation;
    let mut from: u32 = 0;
    loop
        invariant
            storage.wf(),
            destroyed.is_some() ==> destroyed.unwrap().tree_wf(),
            doomed == doomed_slots(destroyed),
            tick == frame.current_tick.0,
            generation == storage.generation,
            s0.len() == 262144,
            0 <= from <= 262144,
            forall|i: int| 0 <= i < from ==> storage@[i] == swept(s0, doomed)[i],
            forall|i: int| from <= i < 262144 ==> storage@[i] == s0[i],
            storage.journals() == swept_journals(j0, s0, doomed, tick, generation, from as int),
        ensures
            storage.wf(),
            generation == storage.generation,
            storage@ == swept(s0, doomed),
            storage.journals() == swept_journals(j0, s0, doomed, tick, generation, 262144),
        decreases 262144 - from,
    {
        let next = match destroyed {
            Some(d) => first_match(&Doomed { storage: &*storage, destroyed: d }, from),
            None => first_match(&Occupied { storage: &*storage }, from),
        };
        let i: u32 = match next {
            Some(i) => i,
            None => {
                proof {
                    assert forall|k: int| from <= k < 262144 implies !(doomed[k] && (#[trigger] s0[k]).is_some()) by {
                        lemma_coordinates(k);
                        assert(storage@[k] == storage.slot(k));
                        if destroyed.is_some() {
                            assert(!hit_at(&Doomed { storage: &*storage, destroyed: destroyed.unwrap() }, k));
                        } else {
                            assert(!hit_at(&Occupied { storage: &*storage }, k));
                        }
                    }
                    lemma_swept_skip(j0, s0, doomed, tick, generation, from as int, 262144);
                    assert(storage@ =~= swept(s0, doomed));
                }
                break ;
            },
        };
        proof {
            assert forall|k: int| from <= k < i implies !(doomed[k] && (#[trigger] s0[k]).is_some()) by {
                lemma_coordinates(k);
                assert(storage@[k] == storage.slot(k));
                if destroyed.is_some() {
                    assert(!hit_at(&Doomed { storage: &*storage, destroyed: destroyed.unwrap() }, k));
                } else {
                    assert(!hit_at(&Occupied { storage: &*storage }, k));
                }
            }
            lemma_swept_skip(j0, s0, doomed, tick, generation, from as int, i as int);
            lemma_coordinates(i as int);
            assert(storage@[i as int] == storage.slot(i as int));
            if destroyed.is_some() {
                assert(hit_at(&Doomed { storage: &*storage, destroyed: destroyed.unwrap() }, i as int));
            } else {
                assert(hit_at(&Occupied { storage: &*storage }, i as int));
            }
            assert(doomed[i as int] && s0[i as int].is_some());
        }
        let _removed = storage.remove(frame, i);
        from = i + 1;
    }
}

/// The built-in system that removes one component from every entity that
/// is marked destroyed.
pub struct ComponentCleanupSystem {
    pub component: u32,
}

impl ComponentCleanupSystem {
    /// The cleanup system of the component.
    pub fn new(component: u32) -> (sys: Self)
        ensures
            sys.component == component,
    {
        ComponentCleanupSystem { component }
    }

    /// The same system, made for the storage that it is to clean.
    pub fn from_storages<U>(component: u32, t_storage: &Storage<U>, destroyed_storage: &Storage<Destroyed>) -> (sys:
        Self)
        ensures
            sys.component == component,
    {
        ComponentCleanupSystem { component }
    }

    /// What the system declares: it reads the destroyed markers, writes
    /// its component, and belongs to the cleanup group.
    pub fn info(&self) -> (info: SystemInfo)
        ensures
            is_cleanup_of(info, self.component),
    {
        let mut info = SystemInfo::new(CLEANUP_SYSTEM_BASE.wrapping_add(self.component));
        info.reads.push(DESTROYED_ID);
        info.writes.push(self.component);
        info.parent = Some(CLEANUP_GROUP);
        info.kind = SystemKind::ComponentCleanup(self.component);
        proof {
            assert(info.reads@ =~= seq![DESTROYED_ID]);
            assert(info.writes@ =~= seq![self.component]);
        }
        info
    }

    /// Removes the component from every entity that is marked destroyed,
    /// journaling each removal under the frame's tick, and clears the
    /// changed masks of the storage.
    pub fn cleanup_destroyed_components<U>(
        storage: &mut Storage<U>,
        destroyed: &Storage<Destroyed>,
        frame: &Frame,
    )
        requires
            old(storage).wf(),
            destroyed.tree_wf(),
        ensures
            final(storage).wf(),
            final(storage).model() == after_sweep(
                old(storage).model(),
                doomed_slots(Some(destroyed)),
                frame.current_tick.0,
            ),
            final(storage).changed() == none_changed(),
            final(storage).changed_mask == 0,
    {
        sweep(storage, Some(destroyed), frame);
        storage.clear_changed_masks();
    }
}

/// The built-in system that removes every value of one component, such as
/// the destroyed markers once the cleanup is done.
pub struct TemporaryComponentCleanupSystem {
    pub component: u32,
    /// The group that the system belongs to.
    pub group: u32,
}

impl TemporaryComponentCleanupSystem {
    /// The system that removes every value of the component, in the given group.
    pub fn new(component: u32, group: u32) -> (sys: Self)
        ensures
            sys.component == component,
            sys.group == group,
    {
        TemporaryComponentCleanupSystem { component, group }
    }

    /// What the system declares: it writes its component and belongs to
    /// its group.
    pub fn info(&self) -> (info: SystemInfo)
        ensures
            is_temporary_cleanup_of(info, self.component, self.group),
    {
        let mut info = SystemInfo::new(TEMPORARY_SYSTEM_BASE.wrapping_add(self.component));
        info.writes.push(self.component);
        info.parent = Some(self.group);
        info.kind = SystemKind::TemporaryCleanup(self.component);
        proof {
            assert(info.writes@ =~= seq![self.component]);
        }
        info
    }

    /// Removes every value of the storage, journaling each removal under
    /// the frame's tick, and clears the changed masks.
    pub fn cleanup_storage<U>(storage: &mut Storage<U>, frame: &Frame)
        requires
            old(storage).wf(),
        ensures
            final(storage).wf(),
            final(storage).model() == after_sweep(old(storage).model(), every_slot(), frame.current_tick.0),
            final(storage)@ == Seq::new(262144, |i: int| None::<U>),
            final(storage).changed() == none_changed(),
            final(storage).changed_mask == 0,
    {
        sweep(storage, None, frame);
        storage.clear_changed_masks();
        proof {
            assert(storage@ =~= Seq::new(262144, |i: int| None::<U>));
        }
    }
}

} // verus!
