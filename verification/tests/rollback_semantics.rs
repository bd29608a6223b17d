use decs::frame::Frame;
use decs::query::Query;
use decs::system::{SystemInfo, SystemKind};
use decs::tick::Tick;
use decs::world::World;

#[derive(Clone, Debug, PartialEq)]
enum Comp {
    Position { x: f32, y: f32 },
    TestC { v: i32 },
}

const POSITION: u32 = 2;
const TEST_C: u32 = 4;

/// Advances the tick by one and gives every system its turn, wavefront by
/// wavefront: the built-in systems do their work in the world, a user
/// system is handed to `user` by its identity.
fn run_tick(world: &mut World<Comp>, user: &mut dyn FnMut(&mut World<Comp>, u32, &Frame)) {
    let next = world.current_tick().next();
    world.set_tick(next);
    let frame = Frame::new(world.current_tick());
    let waves: Vec<Vec<usize>> = world.scheduler().wavefronts().clone();
    for wave in waves {
        for idx in wave {
            let (kind, id) = {
                let info = world.scheduler().system(idx);
                (info.kind, info.id)
            };
            match kind {
                SystemKind::User => user(world, id, &frame),
                other => world.run_builtin(other, &frame),
            }
        }
    }
}

/// The declaration of a user system that runs a query.
fn system_for(id: u32, required: &[u32], mutable: &[u32], excluded: &[u32], changed: &[u32]) -> (Query, SystemInfo) {
    let mut q = Query::new();
    q.required = required.to_vec();
    q.mutable = mutable.to_vec();
    q.excluded = excluded.to_vec();
    q.changed = changed.to_vec();
    let info = q.declare(id);
    (q, info)
}

/// Adds a system that reads the positions and does nothing, builds the
/// wavefronts and runs one tick.
fn run_noop(world: &mut World<Comp>) {
    let (_q, info) = system_for(900, &[POSITION], &[], &[], &[]);
    world.scheduler_mut().add_system_info(info);
    world.scheduler_mut().build_wavefronts();
    run_tick(world, &mut |_w, _id, _f| {});
}

fn test_c(world: &World<Comp>, i: u32) -> Option<i32> {
    match world.get_storage(TEST_C).unwrap().get(i) {
        Some(Comp::TestC { v }) => Some(*v),
        _ => None,
    }
}

#[test]
fn rollback_restore_modified_value() {
    let mut world: World<Comp> = World::new();

    world.set_tick(Tick(1));
    {
        let f = Frame::new(world.current_tick());
        let s = world.get_storage_mut(TEST_C);
        assert!(s.set(&f, 100, Comp::TestC { v: 1 }).is_ok());
    }
    world.set_tick(Tick(2));
    {
        let f = Frame::new(world.current_tick());
        let s = world.get_storage_mut(TEST_C);
        assert!(s.set(&f, 100, Comp::TestC { v: 2 }).is_ok());
    }
    assert!(world.rollback(Tick(1)).is_ok());
    assert_eq!(test_c(&world, 100), Some(1));
    run_noop(&mut world);
}

#[test]
fn rollback_remove_created_item() {
    let mut world: World<Comp> = World::new();
    world.set_tick(Tick(5));
    {
        let f = Frame::new(world.current_tick());
        let s = world.get_storage_mut(TEST_C);
        assert!(s.set(&f, 5000, Comp::TestC { v: 7 }).is_ok());
    }
    assert!(world.rollback(Tick(4)).is_ok());
    assert!(world.get_storage(TEST_C).unwrap().get(5000).is_none());
    run_noop(&mut world);
}

#[test]
fn rollback_restore_removed_value() {
    let mut world: World<Comp> = World::new();
    world.set_tick(Tick(10));
    {
        let f = Frame::new(world.current_tick());
        let s = world.get_storage_mut(TEST_C);
        assert!(s.set(&f, 777, Comp::TestC { v: 3 }).is_ok());
    }
    world.set_tick(Tick(11));
    {
        let f = Frame::new(world.current_tick());
        let s = world.get_storage_mut(TEST_C);
        assert!(s.remove(&f, 777));
    }
    assert!(world.rollback(Tick(10)).is_ok());
    assert_eq!(test_c(&world, 777), Some(3));
    run_noop(&mut world);
}

#[test]
fn rollback_multiple_indices_mixed_changes() {
    let mut world: World<Comp> = World::new();

    world.set_tick(Tick(21));
    {
        let f = Frame::new(world.current_tick());
        let s = world.get_storage_mut(TEST_C);
        for &i in &[0u32, 63, 64, 4096, 4160] {
            assert!(s.set(&f, i, Comp::TestC { v: i as i32 }).is_ok());
        }
    }
    world.set_tick(Tick(22));
    {
        let f = Frame::new(world.current_tick());
        let s = world.get_storage_mut(TEST_C);
        assert!(s.set(&f, 64, Comp::TestC { v: -9 }).is_ok());
        assert!(s.remove(&f, 4096));
    }
    assert!(world.rollback(Tick(21)).is_ok());
    assert_eq!(test_c(&world, 64), Some(64));
    assert!(world.get_storage(TEST_C).unwrap().get(4096).is_some());
    run_noop(&mut world);
}

#[test]
fn rollback_with_no_changes_keeps_state() {
    let mut world: World<Comp> = World::new();
    world.set_tick(Tick(1));
    let f = Frame::new(world.current_tick());
    let s = world.get_storage_mut(TEST_C);
    assert!(s.set(&f, 123, Comp::TestC { v: 4 }).is_ok());
    assert!(world.rollback(Tick(0)).is_ok());
    assert!(world.get_storage(TEST_C).unwrap().get(123).is_none());
    run_noop(&mut world);
}

#[test]
fn rollback_across_generation_restores_entity_generation() {
    let mut world: World<Comp> = World::new();
    {
        let f = Frame::new(world.current_tick());
        let ent = world.get_entity_storage();
        ent.save_generation_for_rollback();
        let _ = ent.spawn(&f);
        let _ = ent.spawn(&f);
    }
    assert!(world.rollback(Tick(0)).is_ok());
    assert!(world.verify_invariants());

    let f = Frame::new(world.current_tick());
    let pos = world.get_storage_mut(POSITION);
    assert!(pos.set(&f, 0, Comp::Position { x: 0.0, y: 0.0 }).is_ok());
    run_noop(&mut world);
}

#[test]
fn rollback_boundary_indices_created_changed_removed() {
    let mut world: World<Comp> = World::new();
    world.set_tick(Tick(50));
    {
        let f = Frame::new(world.current_tick());
        let s = world.get_storage_mut(TEST_C);
        for &i in &[63u32, 64u32, 4095u32, 4096u32, 4097u32] {
            assert!(s.set(&f, i, Comp::TestC { v: 1 }).is_ok());
        }
    }
    world.set_tick(Tick(51));
    {
        let f = Frame::new(world.current_tick());
        let s = world.get_storage_mut(TEST_C);
        assert!(s.set(&f, 63, Comp::TestC { v: 2 }).is_ok());
        assert!(s.remove(&f, 4096));
    }
    assert!(world.rollback(Tick(50)).is_ok());
    assert_eq!(test_c(&world, 63), Some(1));
    assert!(world.get_storage(TEST_C).unwrap().get(4096).is_some());
    run_noop(&mut world);
}
