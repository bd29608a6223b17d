use decs::frame::Frame;
use decs::tick::Tick;
use decs::world::World;

#[derive(Clone, Debug, PartialEq)]
enum Comp {
    TestC { v: i32 },
}

const TEST_C: u32 = 4;

fn test_c(world: &World<Comp>, i: u32) -> Option<i32> {
    match world.get_storage(TEST_C).unwrap().get(i) {
        Some(Comp::TestC { v }) => Some(*v),
        _ => None,
    }
}

#[test]
fn rollback_add_modify_remove_across_boundaries() {
    let mut world: World<Comp> = World::new();

    world.set_tick(Tick(1));
    {
        let frame = Frame::new(world.current_tick());
        for &i in &[0u32, 63, 64, 4096, 4160, 50000] {
            let s = world.get_storage_mut(TEST_C);
            assert!(s.set(&frame, i, Comp::TestC { v: i as i32 }).is_ok());
        }
    }
    assert!(world.verify_invariants());

    world.set_tick(Tick(2));
    {
        let frame = Frame::new(world.current_tick());
        for &i in &[0u32, 64u32, 50000u32] {
            let s = world.get_storage_mut(TEST_C);
            assert!(s.set(&frame, i, Comp::TestC { v: -1 }).is_ok());
        }
    }
    assert!(world.verify_invariants());

    world.set_tick(Tick(3));
    {
        let frame = Frame::new(world.current_tick());
        for &i in &[63u32, 4160u32] {
            let s = world.get_storage_mut(TEST_C);
            assert!(s.remove(&frame, i));
        }
    }
    assert!(world.verify_invariants());

    assert!(world.rollback(Tick(2)).is_ok());
    assert!(world.verify_invariants());
    assert_eq!(test_c(&world, 0), Some(-1));
    assert_eq!(test_c(&world, 64), Some(-1));
    assert_eq!(test_c(&world, 50000), Some(-1));
    assert_eq!(test_c(&world, 63), Some(63));
    assert_eq!(test_c(&world, 4160), Some(4160));

    assert!(world.rollback(Tick(1)).is_ok());
    assert!(world.verify_invariants());
    assert_eq!(test_c(&world, 0), Some(0));
    assert_eq!(test_c(&world, 64), Some(64));
    assert_eq!(test_c(&world, 50000), Some(50000));
    assert_eq!(test_c(&world, 63), Some(63));
    assert_eq!(test_c(&world, 4160), Some(4160));
}

#[test]
fn rollback_idempotent_add_remove_same_tick_no_effect() {
    let mut world: World<Comp> = World::new();

    world.set_tick(Tick(5));
    {
        let frame = Frame::new(world.current_tick());
        for &i in &[1u32, 65u32, 4097u32] {
            let s = world.get_storage_mut(TEST_C);
            assert!(s.set(&frame, i, Comp::TestC { v: 7 }).is_ok());
            assert!(s.remove(&frame, i));
        }
    }
    assert!(world.verify_invariants());

    assert!(world.rollback(Tick(4)).is_ok());
    assert!(world.verify_invariants());
    assert!(world.get_storage(TEST_C).unwrap().get(1).is_none());
    assert!(world.get_storage(TEST_C).unwrap().get(65).is_none());
    assert!(world.get_storage(TEST_C).unwrap().get(4097).is_none());
}
