use decs::ecs::Ecs;
use decs::entity::Entity;
use decs::error::EcsError;
use decs::frame::Frame;
use decs::pool::Pool;
use decs::storage::Storage;
use decs::tick::Tick;
use decs::world::World;

#[test]
fn set_beyond_the_last_slot_is_out_of_range_and_changes_nothing() {
    let mut storage: Storage<u8> = Storage::new();
    let frame = Frame::new(Tick(3));
    assert_eq!(storage.set(&frame, 64 * 64 * 64, 1), Err(EcsError::OutOfRange));
    assert_eq!(storage.set(&frame, u32::MAX, 1), Err(EcsError::OutOfRange));
    assert_eq!(storage.count, 0);
    assert_eq!(storage.prev.len(), 0);
    assert_eq!(storage.rollback.tick(), Tick(0));
    assert!(storage.set(&frame, 64 * 64 * 64 - 1, 9).is_ok());
    assert_eq!(storage.get(64 * 64 * 64 - 1), Some(&9));
    assert_eq!(storage.get(64 * 64 * 64), None);
    assert!(storage.verify_invariants());
}

#[test]
fn spawn_fails_with_no_free_slot_once_every_slot_is_taken() {
    let mut storage: Storage<Entity> = Storage::new();
    let frame = Frame::new(Tick(1));
    for i in 0..(64u32 * 64 * 64) {
        let e = storage.spawn(&frame).unwrap();
        assert_eq!(e.index(), i);
    }
    assert_eq!(storage.count, 64 * 64 * 64);
    assert_eq!(storage.fullness_mask, u64::MAX);
    let before = storage.generation;
    assert_eq!(storage.spawn(&frame), Err(EcsError::NoFreeSlot));
    assert_eq!(storage.generation, before + 1);
    assert_eq!(storage.count, 64 * 64 * 64);

    assert!(storage.remove(&frame, 70000));
    let e = storage.spawn(&frame).unwrap();
    assert_eq!(e.index(), 70000);
    assert_eq!(e.generation(), before + 2);
}

#[test]
fn rollback_before_the_window_is_refused_and_changes_nothing() {
    let mut storage: Storage<u32> = Storage::new();
    // 66 ticks with a change each: the journals of ticks 0 and 1 fall out
    // of the window of 64 sealed journals.
    for t in 1..=66u32 {
        assert!(storage.set(&Frame::new(Tick(t)), 7, t).is_ok());
    }
    assert_eq!(storage.prev.len(), 64);
    assert_eq!(storage.oldest_tick(), Tick(2));
    assert_eq!(storage.rollback(Tick(1)), Err(EcsError::RollbackBeyondWindow));
    assert_eq!(storage.get(7), Some(&66));
    assert_eq!(storage.prev.len(), 64);
    assert!(storage.verify_invariants());

    assert!(storage.rollback(Tick(2)).is_ok());
    assert_eq!(storage.get(7), Some(&2));
    assert!(storage.verify_invariants());
}

#[test]
fn registration_stops_at_the_cap() {
    let mut ecs = Ecs::new();
    for expected in 2..256u32 {
        assert_eq!(ecs.register(), Ok(expected));
    }
    assert_eq!(ecs.registered(), 254);
    assert_eq!(ecs.register(), Err(EcsError::TooManyComponents));
    assert_eq!(ecs.registered(), 254);
}

#[test]
fn a_broken_storage_is_reported_as_an_invariant_violation() {
    let mut storage: Storage<u32> = Storage::new();
    let frame = Frame::new(Tick(0));
    assert!(storage.set(&frame, 100, 1).is_ok());
    assert_eq!(storage.check_invariants(), Ok(()));

    storage.count += 1;
    assert!(!storage.verify_invariants());
    assert_eq!(storage.check_invariants(), Err(EcsError::InvariantViolation));
    storage.count -= 1;
    assert_eq!(storage.check_invariants(), Ok(()));

    storage.fullness_mask |= 1;
    assert_eq!(storage.check_invariants(), Err(EcsError::InvariantViolation));
    storage.fullness_mask = 0;

    // A record that does not fit its slot: marked removed while occupied.
    storage.rollback.data[0].as_mut().unwrap().data[1].as_mut().unwrap().created_mask = 0;
    storage.rollback.data[0].as_mut().unwrap().data[1].as_mut().unwrap().removed_mask = 1 << 36;
    storage.rollback.data[0].as_mut().unwrap().data[1].as_mut().unwrap().data[36] = Some(5);
    assert!(storage.rollback.verify_invariants());
    assert_eq!(storage.check_invariants(), Err(EcsError::InvariantViolation));

    let mut world: World<u32> = World::new();
    assert_eq!(world.check_invariants(), Ok(()));
    world.entities.presence_mask = 4;
    assert_eq!(world.check_invariants(), Err(EcsError::InvariantViolation));
}

#[test]
fn entity_packs_index_above_generation() {
    let e = Entity::new(5, 7);
    assert_eq!(e.0, (5u64 << 43) | 7);
    assert_eq!(e.index(), 5);
    assert_eq!(e.generation(), 7);
    assert!(!e.is_none());

    // Each field is cut to its width: 21 bits of index, 43 of generation.
    let cut = Entity::new(0x20_0001, 0x800_0000_0001);
    assert_eq!(cut.index(), 1);
    assert_eq!(cut.generation(), 1);
    let top = Entity::new(0x1f_ffff, 0x7ff_ffff_ffff);
    assert_eq!(top.0, u64::MAX);
    assert_eq!(top.index(), 0x1f_ffff);
    assert_eq!(top.generation(), 0x7ff_ffff_ffff);

    let none = Entity::none();
    assert_eq!(none.0, 0);
    assert!(none.is_none());
    assert!(Entity::new(9, 0).is_none());
    assert_eq!(Entity::default(), none);

    let mut m = Entity::new(3, 4);
    m.set_index(10);
    assert_eq!((m.index(), m.generation()), (10, 4));
    m.set_generation(99);
    assert_eq!((m.index(), m.generation()), (10, 99));
    m.set_index(0x20_0002);
    m.set_generation(0x800_0000_0005);
    assert_eq!((m.index(), m.generation()), (2, 5));
    assert_eq!(Entity::new(m.index(), m.generation()), m);
}

#[test]
fn tick_and_frame_basics() {
    assert_eq!(Tick(0).next(), Tick(1));
    assert_eq!(Tick(41).next().value(), 42);
    assert_eq!(Tick(u32::MAX).next(), Tick(0));
    assert_eq!(Frame::default().current_tick, Tick(0));
    assert_eq!(Frame::new(Tick(8)).current_tick, Tick(8));
}

#[test]
fn pool_hands_back_what_was_freed_last() {
    let mut pool: Pool<u32> = Pool::new();
    assert_eq!(pool.len(), 0);
    assert_eq!(pool.acquire(), None);
    pool.free(1);
    pool.free(2);
    assert_eq!(pool.len(), 2);
    assert_eq!(pool.acquire(), Some(2));
    assert_eq!(pool.acquire(), Some(1));
    assert_eq!(pool.acquire(), None);
    for i in 0..5000u32 {
        pool.free(i);
    }
    assert_eq!(pool.len(), 4096);
    assert_eq!(pool.acquire(), Some(4095));
}

#[test]
fn freed_chunks_and_pages_are_recycled() {
    let mut storage: Storage<u32> = Storage::new();
    let frame = Frame::new(Tick(0));
    assert!(storage.set(&frame, 4096 + 64, 1).is_ok());
    assert!(storage.remove(&frame, 4096 + 64));
    assert_eq!(storage.chunk_pool.len(), 1);
    assert_eq!(storage.page_pool.len(), 1);
    assert_eq!(storage.presence_mask, 0);
    assert!(storage.set(&frame, 9, 2).is_ok());
    assert_eq!(storage.chunk_pool.len(), 0);
    assert_eq!(storage.page_pool.len(), 0);
    assert!(storage.verify_invariants());
}
