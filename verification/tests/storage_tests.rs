use decs::entity::Entity;
use decs::frame::Frame;
use decs::storage::{Storage, StorageLike};
use decs::tick::Tick;
use decs::world::World;

#[derive(Debug, Clone, Copy, PartialEq, Default)]
struct TestComponent {
    value: i32,
}

const TEST_COMPONENT: u32 = 2;

#[test]
fn test_spawn_entity_generation_and_index() {
    let mut world: World<TestComponent> = World::new();
    let frame = Frame::new(world.current_tick());
    {
        let storage = world.get_entity_storage();

        let entity1 = storage.spawn(&frame).expect("Should spawn entity");
        assert_eq!(entity1.index(), 0, "First spawned entity should have index 0");
        assert_eq!(entity1.generation(), 1, "First spawned entity should have generation 1");

        let entity2 = storage.spawn(&frame).expect("Should spawn entity");
        assert_eq!(entity2.index(), 1, "Second spawned entity should have index 1");
        assert_eq!(entity2.generation(), 2, "Second spawned entity should have generation 2");

        let entity3 = storage.spawn(&frame).expect("Should spawn entity");
        assert_eq!(entity3.index(), 2, "Third spawned entity should have index 2");
        assert_eq!(entity3.generation(), 3, "Third spawned entity should have generation 3");

        assert!(storage.remove(&frame, 1), "Should successfully remove entity at index 1");

        let entity4 = storage.spawn(&frame).expect("Should spawn entity");
        assert_eq!(entity4.index(), 1, "Spawned entity after removal should reuse index 1");
        assert_eq!(entity4.generation(), 4);

        assert!(storage.remove(&frame, 1), "Should successfully remove entity at index 1 again");

        let entity5 = storage.spawn(&frame).expect("Should spawn entity");
        assert_eq!(entity5.index(), 1, "Spawned entity after second removal should reuse index 1");
        assert_eq!(entity5.generation(), 5);

        assert!(storage.remove(&frame, 0), "Should successfully remove entity at index 0");

        let entity6 = storage.spawn(&frame).expect("Should spawn entity");
        assert_eq!(entity6.index(), 0, "Spawned entity should reuse index 0");
        assert_eq!(entity6.generation(), 6);

        assert_eq!(storage.get(0).copied(), Some(entity6));
        assert_eq!(storage.get(1).copied(), Some(entity5));
        assert_eq!(storage.get(2).copied(), Some(entity3));

        storage.clear_changed_masks();
    }
    assert!(world.verify_invariants(), "World invariants should hold after spawn operations");
}

#[test]
fn test_spawn_multiple_entities_sequential() {
    let mut world: World<TestComponent> = World::new();
    let frame = Frame::new(world.current_tick());
    {
        let storage = world.get_entity_storage();
        let mut entities = Vec::new();
        for i in 0..10 {
            let entity = storage.spawn(&frame).expect("Should spawn entity");
            assert_eq!(entity.index(), i, "Entity {} should have index {}", i, i);
            assert_eq!(entity.generation(), (i + 1) as u64, "Entity {} should have generation {}", i, i + 1);
            entities.push(entity);
        }

        for (i, &entity) in entities.iter().enumerate() {
            assert_eq!(storage.get(i as u32).copied(), Some(entity), "Entity at index {} should match", i);
        }

        assert!(storage.remove(&frame, 5), "Should remove entity at index 5");

        let entity5_new = storage.spawn(&frame).expect("Should spawn entity");
        assert_eq!(entity5_new.index(), 5, "Should reuse index 5");
        assert_eq!(entity5_new.generation(), 11, "Should have generation 11 (next global generation)");

        assert!(storage.remove(&frame, 5), "Should remove entity at index 5 again");

        let entity5_new2 = storage.spawn(&frame).expect("Should spawn entity");
        assert_eq!(entity5_new2.index(), 5, "Should reuse index 5 again");
        assert_eq!(entity5_new2.generation(), 12, "Should have generation 12 (next global generation)");

        let entity10 = storage.spawn(&frame).expect("Should spawn entity");
        assert_eq!(entity10.index(), 10, "Should use next available index 10");
        assert_eq!(entity10.generation(), 13, "Should have generation 13 (next global generation)");

        storage.clear_changed_masks();
    }

    assert!(world.verify_invariants(), "World invariants should hold");
}

#[test]
fn test_spawn_after_remove_rollback_correctness() {
    let mut storage = Storage::<Entity>::new();
    let mut frame = Frame::new(Tick(0));

    let entity1 = storage.spawn(&frame).unwrap();
    assert_eq!(entity1.index(), 0);
    assert_eq!(entity1.generation(), 1);

    frame.current_tick = Tick(1);

    assert!(storage.remove(&frame, entity1.index()));
    assert!(storage.rollback.verify_was_removed(entity1.index()));

    let entity2 = storage.spawn(&frame).unwrap();
    assert_eq!(entity2.index(), 0);
    assert_eq!(entity2.generation(), 2);

    assert!(storage.rollback.verify_was_modified(0), "Should be marked as modified (Change)");
    assert!(!storage.rollback.verify_was_created(0), "Should NOT be marked as created");
    assert!(!storage.rollback.verify_was_removed(0), "Should NOT be marked as removed");

    let old_val = storage.rollback.get(0).expect("Should have old value stored");
    assert_eq!(old_val.generation(), 1, "Should have stored the old generation");
}

#[test]
fn test_storage_invariants_inherent() {
    let mut storage = Storage::<TestComponent>::new();
    let frame = Frame::new(Tick(0));
    assert!(storage.set(&frame, 0, TestComponent { value: 1 }).is_ok());
    assert!(storage.set(&frame, 64, TestComponent { value: 2 }).is_ok());
    assert!(storage.set(&frame, 4096, TestComponent { value: 3 }).is_ok());
    storage.clear_changed_masks();
    assert!(storage.verify_invariants());
}

#[test]
fn test_storage_like_verify_invariants_changed_mask_required_clear() {
    let mut world: World<TestComponent> = World::new();
    {
        let frame = Frame::new(world.current_tick());
        let storage = world.get_storage_mut(TEST_COMPONENT);
        assert!(storage.set(&frame, 5, TestComponent { value: 10 }).is_ok());
    }
    assert!(!StorageLike::verify_invariants(world.get_storage(TEST_COMPONENT).unwrap()));
    assert!(!world.verify_settled());
    {
        let storage = world.get_storage_mut(TEST_COMPONENT);
        storage.clear_changed_masks();
    }
    assert!(StorageLike::verify_invariants(world.get_storage(TEST_COMPONENT).unwrap()));
    assert!(world.verify_settled());
}
