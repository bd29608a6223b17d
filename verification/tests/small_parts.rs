use decs::bits::{first_zero, next_set_bit, popcount, test_bit, with_bit, without_bit};
use decs::component::{COMPONENT_CAP, DESTROYED_ID, ENTITY_ID, FIRST_FREE_ID};
use decs::entity::{Entity, GENERATION_BITS, GENERATION_MASK, INDEX_BITS, INDEX_MASK};
use decs::frame::Frame;
use decs::graph::DependencyGraph;
use decs::history::JOURNAL_WINDOW;
use decs::query::{Query, QueryView};
use decs::rollback::{RollbackChunk, RollbackStorage};
use decs::scan::first_match;
use decs::storage::{Chunk, Level, Storage};
use decs::system::{
    builtin_groups, ComponentCleanupSystem, SystemKind, TemporaryComponentCleanupSystem, CLEANUP_GROUP,
    CLEANUP_SYSTEM_BASE, DESTROY_GROUP, INITIALIZATION_GROUP, SIMULATION_GROUP, TEMPORARY_SYSTEM_BASE,
};
use decs::tick::Tick;
use decs::view::{View, ViewMut};
use decs::world::World;

#[test]
fn mask_arithmetic() {
    assert!(test_bit(0b100, 2));
    assert!(!test_bit(0b100, 1));
    assert!(test_bit(u64::MAX, 63));
    assert_eq!(with_bit(0, 63), 1 << 63);
    assert_eq!(with_bit(0b101, 0), 0b101);
    assert_eq!(without_bit(0b111, 1), 0b101);
    assert_eq!(without_bit(0b101, 1), 0b101);
    assert_eq!(popcount(0), 0);
    assert_eq!(popcount(u64::MAX), 64);
    assert_eq!(popcount(0xf0f0), 8);
    assert_eq!(first_zero(0), Some(0));
    assert_eq!(first_zero(0b1011), Some(2));
    assert_eq!(first_zero(u64::MAX >> 1), Some(63));
    assert_eq!(first_zero(u64::MAX), None);
    assert_eq!(next_set_bit(0b1001_0000, 0), Some(4));
    assert_eq!(next_set_bit(0b1001_0000, 4), Some(4));
    assert_eq!(next_set_bit(0b1001_0000, 5), Some(7));
    assert_eq!(next_set_bit(0b1001_0000, 8), None);
    assert_eq!(next_set_bit(1 << 63, 63), Some(63));
    assert_eq!(next_set_bit(u64::MAX, 64), None);
    assert_eq!(next_set_bit(0, 0), None);
    assert_eq!(Storage::<Entity>::first_0_index(0b0111), Some(3));
    assert_eq!(Storage::<Entity>::first_0_index(u64::MAX), None);
}

#[test]
fn identifier_layout_and_reserved_numbers() {
    assert_eq!(INDEX_BITS + GENERATION_BITS, 64);
    assert_eq!(INDEX_MASK, (1u64 << INDEX_BITS) - 1);
    assert_eq!(GENERATION_MASK, (1u64 << GENERATION_BITS) - 1);
    assert_eq!((ENTITY_ID, DESTROYED_ID, FIRST_FREE_ID, COMPONENT_CAP), (0, 1, 2, 256));
    assert_eq!(JOURNAL_WINDOW, 64);
}

#[test]
fn journal_keeps_and_clears_the_saved_generation() {
    let mut journal: RollbackStorage<u8> = RollbackStorage::with_tick(Tick(4));
    assert_eq!(journal.tick(), Tick(4));
    assert_eq!(journal.get_saved_generation(), 0);
    journal.save_generation(17);
    assert_eq!(journal.get_saved_generation(), 17);
    journal.set_tick(Tick(9));
    assert_eq!(journal.tick(), Tick(9));
    assert_eq!(journal.get_saved_generation(), 17);
    journal.clear_saved_generation();
    assert_eq!(journal.get_saved_generation(), 0);
    assert!(journal.verify_invariants());

    journal.record_set(70000, Some(5));
    assert!(journal.verify_was_modified(70000));
    assert_eq!(journal.get(70000), Some(&5));
    assert_eq!(first_match(&journal, 0), Some(70000));
    assert_eq!(first_match(&journal, 70001), None);
    assert!(journal.get_page(17).is_some());
    assert!(journal.get_page(16).is_none());
    assert!(journal.get_page(64).is_none());
    assert!(journal.get_page(17).unwrap().get(5).is_some());
    journal.record_remove(70000, 6);
    assert!(journal.verify_was_removed(70000));
    assert_eq!(journal.get(70000), None);
    journal.reset_for_tick(Tick(1));
    assert!(journal.verify_not_changed(70000));
    assert_eq!(journal.changed_mask, 0);
    assert!(!journal.verify_was_created(262144));
    assert!(journal.verify_not_changed(262144));
    assert_eq!(RollbackStorage::<u8>::default().tick(), Tick(0));
}

#[test]
fn journal_chunk_drops_its_changed_records() {
    let mut chunk: RollbackChunk<u8> = RollbackChunk::new();
    chunk.record(1, decs::rollback::Diff::Created);
    chunk.record(2, decs::rollback::Diff::Changed(20));
    chunk.record(3, decs::rollback::Diff::Removed(30));
    assert_eq!(chunk.any_mask(), 0b1110);
    assert_eq!(chunk.saved(2), Some(&20));
    assert_eq!(chunk.saved(3), None);
    chunk.clear_changed_masks();
    assert_eq!(chunk.changed_mask, 0);
    assert_eq!(chunk.any_mask(), 0b1010);
    assert!(chunk.data[2].is_none());
    assert_eq!(chunk.data[3], Some(30));
    assert!(chunk.verify_invariants());
    assert!(matches!(chunk.take_diff(3), decs::rollback::Diff::Removed(30)));
    assert!(matches!(chunk.take_diff(3), decs::rollback::Diff::Unchanged));
    assert!(RollbackChunk::<u8>::default().verify_invariants());
}

#[test]
fn journal_drops_its_changed_records_at_every_level() {
    let mut journal: RollbackStorage<u8> = RollbackStorage::with_tick(Tick(3));
    journal.save_generation(11);
    journal.record_set(1, None);
    journal.record_set(2, Some(20));
    journal.record_remove(3, 30);
    journal.record_set(70000, Some(5));
    journal.record_set(4100, Some(7));
    journal.record_remove(4200, 8);
    assert_eq!(journal.changed_mask, (1 << 0) | (1 << 1) | (1 << 17));
    journal.clear_changed_masks();
    assert!(journal.verify_invariants());
    assert!(journal.verify_was_created(1));
    assert!(journal.verify_not_changed(2));
    assert!(journal.verify_was_removed(3));
    assert_eq!(journal.get(2), None);
    assert!(journal.verify_not_changed(70000));
    assert!(journal.verify_not_changed(4100));
    assert!(journal.verify_was_removed(4200));
    assert_eq!(journal.changed_mask, (1 << 0) | (1 << 1));
    assert!(journal.get_page(17).is_none());
    let page = journal.get_page(1).unwrap();
    assert_eq!(page.changed_mask, 1 << 1);
    assert!(page.get(0).is_none());
    assert_eq!(journal.tick(), Tick(3));
    assert_eq!(journal.get_saved_generation(), 11);
    assert_eq!(first_match(&journal, 4), Some(4200));
}

#[test]
fn generation_can_be_saved_and_set_back_within_a_tick() {
    let mut storage: Storage<Entity> = Storage::new();
    let frame = Frame::new(Tick(0));
    let _ = storage.spawn(&frame).unwrap();
    storage.save_generation_for_rollback();
    let _ = storage.spawn(&frame).unwrap();
    let _ = storage.spawn(&frame).unwrap();
    assert_eq!(storage.generation, 3);
    storage.rollback_generation();
    assert_eq!(storage.generation, 1);
    assert!(storage.verify_invariants());
}

#[test]
fn node_masks_tell_of_presence_fullness_and_change() {
    let mut storage: Storage<u8> = Storage::new();
    let frame = Frame::new(Tick(0));
    for i in 64..128 {
        assert!(storage.set(&frame, 4096 + i, 1).is_ok());
    }
    storage.clear_changed_masks();
    assert!(storage.set(&frame, 4096 + 3, 1).is_ok());

    let top = storage.masks_at(Level::Top);
    assert_eq!((top.presence, top.fullness, top.changed), (0b10, 0, 0b10));
    let page = storage.masks_at(Level::Page(1));
    assert_eq!((page.presence, page.fullness, page.changed), (0b11, 0b10, 0b01));
    let full = storage.masks_at(Level::Chunk(1, 1));
    assert_eq!((full.presence, full.fullness, full.changed), (u64::MAX, u64::MAX, 0));
    let one = storage.masks_at(Level::Chunk(1, 0));
    assert_eq!((one.presence, one.fullness, one.changed), (0b1000, 0b1000, 0b1000));
    let none = storage.masks_at(Level::Chunk(2, 0));
    assert_eq!((none.presence, none.fullness, none.changed), (0, 0, 0));
    assert_eq!(storage.masks_at(Level::Page(5)).presence, 0);
    assert_eq!(storage.top_masks().presence, 2);
    assert_eq!(storage.page_masks(1).fullness, 2);
    assert_eq!(storage.chunk_masks(1, 0).presence, 8);

    let blank: Chunk<u8> = Chunk::default();
    assert!(blank.verify_invariants());
    assert_eq!(blank.get(0), None);
}

#[test]
fn built_in_groups_and_systems_declare_themselves() {
    let groups = builtin_groups();
    let ids: Vec<u32> = groups.iter().map(|g| g.id).collect();
    assert_eq!(ids, vec![INITIALIZATION_GROUP, SIMULATION_GROUP, CLEANUP_GROUP, DESTROY_GROUP]);
    assert_eq!(groups[2].after, vec![SIMULATION_GROUP]);
    assert!(groups.iter().all(|g| g.before.is_empty() && g.parent.is_none()));

    let cleanup = ComponentCleanupSystem::new(7).info();
    assert_eq!(cleanup.id, CLEANUP_SYSTEM_BASE + 7);
    assert_eq!(cleanup.kind, SystemKind::ComponentCleanup(7));
    assert_eq!((cleanup.reads, cleanup.writes), (vec![DESTROYED_ID], vec![7]));
    assert_eq!(cleanup.parent, Some(CLEANUP_GROUP));

    let temporary = TemporaryComponentCleanupSystem::new(1, DESTROY_GROUP).info();
    assert_eq!(temporary.id, TEMPORARY_SYSTEM_BASE + 1);
    assert_eq!(temporary.kind, SystemKind::TemporaryCleanup(1));
    assert_eq!((temporary.reads, temporary.writes), (vec![], vec![1]));
    assert_eq!(temporary.parent, Some(DESTROY_GROUP));

    let world: World<u8> = World::default();
    assert_eq!(world.scheduler().len(), 2);
    assert!(!world.scheduler().is_empty());
    assert_eq!(world.scheduler().system(0).kind, SystemKind::ComponentCleanup(ENTITY_ID));
    assert_eq!(world.scheduler().system(1).kind, SystemKind::TemporaryCleanup(DESTROYED_ID));
    assert_eq!(world.scheduler().groups.len(), 4);
    assert!(world.get_storage(2).is_none());
    assert!(world.get_storage(256).is_none());
    assert!(world.can_rollback(Tick(0)));
}

#[test]
fn the_first_storage_of_a_component_schedules_its_cleanup() {
    let mut world: World<u8> = World::new();
    world.scheduler_mut().build_wavefronts();
    assert_eq!(world.scheduler().wavefronts().len(), 2);
    let _ = world.get_storage_mut(9);
    assert_eq!(world.scheduler().len(), 3);
    assert_eq!(world.scheduler().system(2).kind, SystemKind::ComponentCleanup(9));
    assert_eq!(world.scheduler().wavefronts().len(), 0);
    let _ = world.get_storage_mut(9);
    assert_eq!(world.scheduler().len(), 3);

    world.scheduler_mut().build_wavefronts();
    // The cleanups come first, the clearing of the markers after them.
    assert_eq!(world.scheduler().wavefronts(), &vec![vec![0, 2], vec![1]]);
}

#[test]
fn a_query_declares_what_it_reads_and_writes() {
    let mut q = Query::new();
    q.required = vec![2, 3, 4];
    q.mutable = vec![3];
    q.changed = vec![5, 3];
    q.excluded = vec![6];
    let info = q.declare(77);
    assert_eq!(info.id, 77);
    assert_eq!(info.kind, SystemKind::User);
    assert_eq!(info.writes, vec![3]);
    assert_eq!(info.reads, vec![2, 4, 5]);
    assert!(info.before.is_empty() && info.after.is_empty() && info.parent.is_none());
}

#[test]
fn handles_read_and_write_one_slot() {
    let value = 5u8;
    let view = View::new(&value);
    assert_eq!(*view.get(), 5);

    let mut storage: Storage<u8> = Storage::new();
    assert!(storage.set(&Frame::new(Tick(1)), 4, 10).is_ok());
    {
        let mut handle = ViewMut::new(&mut storage, 4, Tick(2));
        assert_eq!(handle.get(), Some(&10));
        assert!(handle.set(11).is_ok());
        assert!(handle.set(12).is_ok());
        assert_eq!(handle.get(), Some(&12));
    }
    // The first write of the tick saved the old value, the second did not.
    assert_eq!(storage.rollback.get(4), Some(&10));
    assert_eq!(storage.rollback.tick(), Tick(2));
    {
        let mut empty = ViewMut::new(&mut storage, 5, Tick(2));
        assert_eq!(empty.get(), None);
        assert!(empty.set(1).is_err());
    }
    assert_eq!(storage.get(5), None);
    assert_eq!(storage.count, 1);
}

#[test]
fn graph_levels_by_rounds() {
    let mut g = DependencyGraph::new(5);
    g.add_edge(0, 1);
    g.add_edge(0, 2);
    g.add_edge(1, 3);
    g.add_edge(2, 3);
    g.add_edge(2, 3);
    g.add_edge(9, 1);
    let levels = g.topological_levels();
    assert_eq!(levels.level, vec![0, 1, 1, 2, 0]);
    assert_eq!(levels.rounds, 3);
    assert!(!levels.cyclic);

    g.add_edge(3, 1);
    let levels = g.topological_levels();
    assert_eq!(levels.level, vec![0, 2, 1, 2, 0]);
    assert_eq!(levels.rounds, 2);
    assert!(levels.cyclic);

    let empty = DependencyGraph::new(0).topological_levels();
    assert_eq!((empty.level.len(), empty.rounds, empty.cyclic), (0, 0, false));
}

#[test]
fn a_query_combines_the_masks_of_each_node() {
    let mut world: World<u8> = World::new();
    let frame = Frame::new(Tick(1));
    // Component 2 fills page 0 and has one value in page 1; component 3
    // has one value in page 0 and fills chunk 0 of page 1; component 4 has
    // a value in page 2 only.
    for i in 0..4096 {
        assert!(world.get_storage_mut(2).set(&frame, i, 1).is_ok());
    }
    assert!(world.get_storage_mut(2).set(&frame, 4096 + 5, 1).is_ok());
    assert!(world.get_storage_mut(3).set(&frame, 70, 1).is_ok());
    for i in 0..64 {
        assert!(world.get_storage_mut(3).set(&frame, 4096 + i, 1).is_ok());
    }
    assert!(world.get_storage_mut(4).set(&frame, 2 * 4096, 1).is_ok());
    world.get_storage_mut(2).clear_changed_masks();
    assert!(world.get_storage_mut(2).set(&frame, 4096 + 5, 2).is_ok());

    let empty = Query::new();
    let all = QueryView { world: &world, query: &empty };
    assert_eq!(all.combined_mask(Level::Top), u64::MAX);
    assert_eq!(all.combined_mask(Level::Page(9)), u64::MAX);

    let mut both = Query::new();
    both.required = vec![2, 3];
    let view = QueryView { world: &world, query: &both };
    assert_eq!(view.combined_mask(Level::Top), 0b11);
    assert_eq!(view.combined_mask(Level::Page(0)), 0b10);
    assert_eq!(view.combined_mask(Level::Page(1)), 0b1);
    assert_eq!(view.combined_mask(Level::Page(2)), 0);
    assert_eq!(view.combined_mask(Level::Chunk(0, 1)), 1 << 6);
    assert_eq!(view.combined_mask(Level::Chunk(1, 0)), 1 << 5);

    let mut fresh = Query::new();
    fresh.required = vec![3];
    fresh.changed = vec![2];
    let view = QueryView { world: &world, query: &fresh };
    assert_eq!(view.combined_mask(Level::Top), 0b10);
    assert_eq!(view.combined_mask(Level::Page(1)), 0b1);
    assert_eq!(view.combined_mask(Level::Page(0)), 0);
    assert_eq!(world.query(&fresh), vec![4096 + 5]);

    // A full node of an excluded component is left out at once; a node
    // that is only partly occupied stays until its slots are looked at.
    let mut without = Query::new();
    without.required = vec![3];
    without.excluded = vec![2];
    let view = QueryView { world: &world, query: &without };
    assert_eq!(view.combined_mask(Level::Top), 0b10);
    assert_eq!(view.combined_mask(Level::Page(1)), 0b1);
    assert_eq!(view.combined_mask(Level::Chunk(1, 0)), u64::MAX & !(1 << 5));
    assert_eq!(world.query(&without).len(), 63);

    let mut absent = Query::new();
    absent.required = vec![9];
    let view = QueryView { world: &world, query: &absent };
    assert_eq!(view.combined_mask(Level::Top), 0);
    let mut far = Query::new();
    far.required = vec![2];
    far.excluded = vec![4];
    let view = QueryView { world: &world, query: &far };
    assert_eq!(view.combined_mask(Level::Top), 0b11);
}

#[test]
fn node_masks_are_those_that_the_tree_keeps() {
    let mut storage: Storage<u8> = Storage::new();
    let frame = Frame::new(Tick(0));
    assert!(storage.set(&frame, 4096 + 64 + 3, 1).is_ok());
    assert!(storage.set(&frame, 4096 + 64 + 9, 1).is_ok());
    let top = storage.masks_at(Level::Top);
    assert_eq!(
        (top.presence, top.fullness, top.changed),
        (storage.presence_mask, storage.fullness_mask, storage.changed_mask)
    );
    let page = storage.data[1].as_ref().unwrap();
    let at = storage.page_masks(1);
    assert_eq!((at.presence, at.fullness, at.changed), (page.presence_mask, page.fullness_mask, page.changed_mask));
    assert_eq!((at.presence, at.fullness, at.changed), (0b10, 0, 0b10));
    let chunk = page.data[1].as_ref().unwrap();
    let at = storage.chunk_masks(1, 1);
    assert_eq!(
        (at.presence, at.fullness, at.changed),
        (chunk.presence_mask, chunk.fullness_mask, chunk.changed_mask)
    );
    assert_eq!(at.presence, (1 << 3) | (1 << 9));
    let none = storage.masks_at(Level::Page(7));
    assert_eq!((none.presence, none.fullness, none.changed), (0, 0, 0));
    let none = storage.masks_at(Level::Chunk(1, 2));
    assert_eq!((none.presence, none.fullness, none.changed), (0, 0, 0));

    let mut world: World<u8> = World::new();
    assert!(world.get_storage_mut(6).set(&frame, 4096 + 64 + 3, 1).is_ok());
    let at = world.masks_at(6, Level::Page(1));
    assert_eq!((at.presence, at.fullness, at.changed), (0b10, 0, 0b10));
    let at = world.masks_at(7, Level::Top);
    assert_eq!((at.presence, at.fullness, at.changed), (0, 0, 0));
    let at = world.masks_at(300, Level::Top);
    assert_eq!((at.presence, at.fullness, at.changed), (0, 0, 0));
}

#[test]
fn a_removal_marks_its_page_at_the_root() {
    let mut storage: Storage<u8> = Storage::new();
    let frame = Frame::new(Tick(0));
    assert!(storage.set(&frame, 3 * 4096 + 1, 1).is_ok());
    assert!(storage.set(&frame, 5 * 4096, 1).is_ok());
    assert_eq!(storage.changed_mask, (1 << 3) | (1 << 5));
    storage.clear_changed_masks();
    assert_eq!(storage.changed_mask, 0);
    assert!(!storage.remove(&frame, 4 * 4096));
    assert_eq!(storage.changed_mask, 0);
    assert!(storage.remove(&frame, 3 * 4096 + 1));
    assert_eq!(storage.changed_mask, 1 << 3);
    assert!(storage.set(&frame, 5 * 4096, 2).is_ok());
    assert_eq!(storage.changed_mask, (1 << 3) | (1 << 5));
    assert!(storage.verify_invariants());
}

#[test]
fn a_new_world_has_fresh_storages_within_reach_of_a_rollback() {
    let mut world: World<u8> = World::new();
    assert_eq!(world.get_entity_storage().generation, 0);
    assert_eq!(world.get_entity_storage().changed_mask, 0);
    assert_eq!(world.get_entity_storage().oldest_tick(), Tick(0));
    assert_eq!(world.get_entity_storage().prev.len(), 0);
    assert_eq!(world.get_destroyed_storage().generation, 0);
    assert_eq!(world.get_destroyed_storage().changed_mask, 0);
    assert_eq!(world.get_destroyed_storage().oldest_tick(), Tick(0));
    assert_eq!(world.get_destroyed_storage().prev.len(), 0);

    world.set_tick(Tick(5));
    let frame = Frame::new(Tick(5));
    assert!(world.get_storage_mut(2).set(&frame, 42, 7).is_ok());
    assert!(world.get_storage_mut(2).remove(&frame, 42));
    assert!(world.can_rollback(Tick(4)));
    assert!(world.rollback(Tick(4)).is_ok());
    assert_eq!(world.current_tick(), Tick(4));
    assert_eq!(world.get_storage(2).unwrap().get(42), None);
    assert!(world.verify_invariants());
}

#[test]
fn an_older_journal_takes_over_the_records_of_a_newer_one() {
    let mut older: RollbackStorage<u8> = RollbackStorage::with_tick(Tick(3));
    older.save_generation(7);
    older.record_set(1, None);
    older.record_set(2, Some(20));
    older.record_remove(70000, 30);
    let mut newer: RollbackStorage<u8> = RollbackStorage::with_tick(Tick(4));
    newer.record_set(1, Some(11));
    newer.record_remove(2, 21);
    newer.record_set(5, Some(50));
    newer.record_set(4100, None);
    newer.record_remove(70000, 31);

    older.absorb(&mut newer);

    // What the older journal had stays; what only the newer one had moves.
    assert!(older.verify_was_created(1));
    assert!(older.verify_was_modified(2));
    assert_eq!(older.get(2), Some(&20));
    assert!(older.verify_was_removed(70000));
    assert!(older.verify_was_modified(5));
    assert_eq!(older.get(5), Some(&50));
    assert!(older.verify_was_created(4100));
    assert_eq!(older.tick(), Tick(3));
    assert_eq!(older.get_saved_generation(), 7);
    assert!(older.verify_invariants());

    assert_eq!(newer.changed_mask, 0);
    assert_eq!(first_match(&newer, 0), None);
    assert_eq!(newer.tick(), Tick(4));
    assert!(newer.verify_invariants());

    // Undoing the merged journal is undoing the newer and then the older.
    let mut storage: Storage<u8> = Storage::new();
    let frame = Frame::new(Tick(1));
    for i in [2u32, 5, 70000] {
        assert!(storage.set(&frame, i, 9).is_ok());
    }
    assert!(storage.set(&Frame::new(Tick(3)), 2, 8).is_ok());
    assert!(storage.set(&Frame::new(Tick(4)), 2, 7).is_ok());
    assert!(storage.set(&Frame::new(Tick(4)), 5, 6).is_ok());
    assert!(storage.remove(&Frame::new(Tick(5)), 70000));
    assert!(storage.set(&Frame::new(Tick(6)), 70000, 5).is_ok());
    assert!(storage.set(&Frame::new(Tick(6)), 4100, 4).is_ok());
    assert!(storage.rollback(Tick(2)).is_ok());
    assert_eq!(storage.get(2), Some(&9));
    assert_eq!(storage.get(5), Some(&9));
    assert_eq!(storage.get(70000), Some(&9));
    assert_eq!(storage.get(4100), None);
    assert_eq!(storage.count, 3);
    assert!(storage.verify_invariants());
}
